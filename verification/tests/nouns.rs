use esprit2::nouns::{can_be_put_in_text, replace_nouns_if_fitting, Nouns, Pronouns, StrExt};

fn goblin() -> Nouns {
    Nouns { name: String::from("goblin"), proper_name: false, pronouns: Pronouns::Male }
}

fn luvui() -> Nouns {
    Nouns { name: String::from("Luvui"), proper_name: true, pronouns: Pronouns::Female }
}

#[test]
fn address_tag_takes_article() {
    let text = "{Address} swings {their} club.";
    assert_eq!(text.replace_nouns(&goblin()).unwrap(), "The goblin swings his club.");
}

#[test]
fn proper_name_stands_alone() {
    let text = String::from("{Address} yawns; {they} {are} sleepy.");
    assert_eq!(text.replace_nouns(&luvui()).unwrap(), "Luvui yawns; she is sleepy.");
}

#[test]
fn unknown_tags_stay() {
    let text = "{unknown} and {indirect}";
    assert_eq!(text.replace_nouns(&goblin()).unwrap(), "{unknown} and a goblin");
}

#[test]
fn neutral_verbs_lose_their_s() {
    let nouns = Nouns { name: String::from("slime"), proper_name: false, pronouns: Pronouns::Neutral };
    assert_eq!("{They} pounce{s}.".replace_nouns(&nouns).unwrap(), "They pounce.");
}

#[test]
fn prefix_is_removed_first() {
    let text = "self:{Address} waves.";
    assert_eq!(text.replace_prefixed_nouns(&goblin(), "self:").unwrap(), "The goblin waves.");
}

#[test]
fn names_with_braces_cannot_be_put_in_text() {
    assert!(can_be_put_in_text(&goblin()));
    let odd = Nouns { name: String::from("{Address}"), proper_name: true, pronouns: Pronouns::Object };
    assert!(!can_be_put_in_text(&odd));
}

#[test]
fn text_without_tags_is_unchanged() {
    assert_eq!("Nothing to see.".replace_nouns(&goblin()).unwrap(), "Nothing to see.");
}

#[test]
fn tags_after_non_ascii_text_are_expanded() {
    // The scan resumes at the byte offset the closing brace had from the tag; here that offset
    // falls on a character boundary.
    let text = "é {address}";
    assert_eq!(text.replace_nouns(&goblin()).unwrap(), "é the goblin");
}

#[test]
fn a_scan_resuming_inside_a_character_gives_up() {
    // After "{a}"-style expansions the scan resumes at the tag's relative offset; landing
    // inside "é" stops it.
    let nouns = Nouns { name: String::from("x"), proper_name: true, pronouns: Pronouns::Object };
    let text = "éé{address} {address}";
    assert_eq!(text.replace_nouns(&nouns), None);
}

#[test]
fn names_with_one_kind_of_brace_are_put_in() {
    let bob = Nouns { name: String::from("Bob{"), proper_name: false, pronouns: Pronouns::Male };
    assert!(can_be_put_in_text(&bob));
    assert_eq!("{Address} waves.".replace_nouns(&bob).unwrap(), "The Bob{ waves.");
    let both = Nouns { name: String::from("{Bob}"), proper_name: true, pronouns: Pronouns::Male };
    assert!(!can_be_put_in_text(&both));
}

#[test]
fn text_without_tags_is_left_alone() {
    let text = "{foo} bar} baz";
    assert_eq!(text.replace_nouns(&goblin()).unwrap(), text);
}

#[test]
fn names_with_both_braces_are_put_in_where_the_scan_ends() {
    let odd = Nouns { name: String::from("{x}"), proper_name: true, pronouns: Pronouns::Object };
    assert_eq!("{address}".replace_nouns(&odd).unwrap(), "{x}");
    assert_eq!("{foo} bar}".replace_nouns(&odd).unwrap(), "{foo} bar}");
    assert_eq!(replace_nouns_if_fitting("{address}", &odd), None);
    assert_eq!(replace_nouns_if_fitting("{Address} waves.", &goblin()).unwrap(), "The goblin waves.");
}
