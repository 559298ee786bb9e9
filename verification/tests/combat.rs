use esprit2::combat::{apply_pierce, format_combat, Log};
use esprit2::nouns::{Nouns, Pronouns};

#[test]
fn weak_outcomes() {
    assert!(Log::Miss.is_weak());
    assert!(Log::Glance.is_weak());
    assert!(!Log::Success.is_weak());
    assert!(!Log::Hit { damage: 3 }.is_weak());
}

#[test]
fn log_text() {
    assert_eq!(Log::Hit { damage: 15 }.to_text(), "-15 HP");
    assert_eq!(Log::Hit { damage: 0 }.to_text(), "-0 HP");
    assert_eq!(Log::Success.to_text(), "Success");
    assert_eq!(Log::Miss.to_text(), "Miss");
    assert_eq!(Log::Glance.to_text(), "Glancing Blow");
}

#[test]
fn piercing_absorbs_the_magnitude() {
    assert_eq!(apply_pierce(5, 3), (0, true));
    assert_eq!(apply_pierce(5, 5), (0, true));
    assert_eq!(apply_pierce(5, 6), (6, false));
    assert_eq!(apply_pierce(5, 0), (0, false));
    assert_eq!(apply_pierce(5, -2), (-2, false));
}

#[test]
fn combat_messages_replace_the_target_first() {
    // The target's nouns are put in first, into every tag once its prefix is removed, so the
    // user's prefixed tags are filled with the target's nouns too.
    let user = Nouns { name: String::from("Luvui"), proper_name: true, pronouns: Pronouns::Female };
    let target = Nouns { name: String::from("slime"), proper_name: false, pronouns: Pronouns::Object };
    let text = format_combat(&user, &target, "self_{Address} hits target_{address}.").unwrap();
    assert_eq!(text, "The slime hits the slime.");
}

#[test]
fn combat_messages_without_tags_lose_their_prefixes() {
    let user = Nouns { name: String::from("Luvui"), proper_name: true, pronouns: Pronouns::Female };
    let target = Nouns { name: String::from("slime"), proper_name: false, pronouns: Pronouns::Object };
    let text = format_combat(&user, &target, "self_ and target_ meet").unwrap();
    assert_eq!(text, " and  meet");
}
