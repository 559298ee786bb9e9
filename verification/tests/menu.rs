use esprit2::input::Pressed;
use esprit2::menu::{InputEvent, LineInput, Radio, RadioBacker, RootMenu, RootMenuResponse, Signal, State};

fn key(pressed: Pressed) -> InputEvent {
    InputEvent::Key { backspace: false, pressed }
}

#[test]
fn the_root_menu_cycles() {
    let mut m = RootMenu::Singleplayer;
    assert_eq!(m.index(), 0);
    m.inc();
    assert_eq!(m, RootMenu::Multiplayer);
    assert_eq!(m.index(), 1);
    m.dec();
    assert_eq!(m, RootMenu::Singleplayer);
    m.dec();
    m.inc();
    assert_eq!(m, RootMenu::Singleplayer);
}

#[test]
fn lines_take_text_and_backspace() {
    let mut line = LineInput::default();
    let _: Signal<()> = line.handle(&InputEvent::Text(String::from("Luv")));
    let _: Signal<()> = line.handle(&InputEvent::Text(String::from("uix")));
    let _: Signal<()> = line.handle(&InputEvent::Key { backspace: true, pressed: Pressed::default() });
    assert_eq!(line.line, "Luvui");
    assert!(!line.submitted);
    let s: Signal<()> = line.handle(&key(Pressed { confirm: true, ..Default::default() }));
    assert_eq!(s, Signal::Nothing);
    assert!(line.submitted);
}

#[test]
fn escape_cancels_a_line() {
    let mut line = LineInput::default();
    let s: Signal<()> = line.handle(&key(Pressed { escape: true, ..Default::default() }));
    assert_eq!(s, Signal::Cancel);
}

#[test]
fn a_cancelled_submission_reopens_the_line() {
    let mut line = LineInput { line: String::from("x"), submitted: true };
    let s: Signal<u8> = line.dispatch(&InputEvent::Other, |_| Signal::Cancel);
    assert_eq!(s, Signal::Nothing);
    assert!(!line.submitted);
    let mut line = LineInput { line: String::from("x"), submitted: true };
    let s = line.dispatch(&InputEvent::Other, |l| Signal::Yield(l.len()));
    assert_eq!(s, Signal::Yield(1));
    assert!(line.submitted);
}

#[test]
fn radios_move_and_submit() {
    let mut radio = Radio { backer: RootMenu::Singleplayer, submitted: false };
    let _: Signal<()> = radio.handle(Some(Pressed { down: true, ..Default::default() }));
    assert_eq!(radio.backer, RootMenu::Multiplayer);
    let _: Signal<()> = radio.handle(Some(Pressed { confirm: true, ..Default::default() }));
    assert!(radio.submitted);
}

#[test]
fn the_login_menu_walks_through_name_choice_and_address() {
    let mut menu = State::new(None, None);
    assert_eq!(menu.url.line, "esprit://");
    menu.event(&InputEvent::Text(String::from("Aris")), None);
    let confirm = Pressed { confirm: true, ..Default::default() };
    assert_eq!(menu.event(&key(confirm), Some(confirm)), Signal::Nothing);
    assert!(menu.username.submitted);
    assert_eq!(
        menu.event(&key(confirm), Some(confirm)),
        Signal::Nothing
    );
    assert!(menu.root_menu.submitted);
    assert_eq!(
        menu.event(&InputEvent::Other, None),
        Signal::Yield(RootMenuResponse::OpenSingleplayer { username: String::from("Aris") })
    );
}

#[test]
fn a_given_address_opens_multiplayer_at_once() {
    let mut menu = State::new(Some("Luvui"), Some("esprit://localhost/1"));
    assert_eq!(
        menu.event(&InputEvent::Other, None),
        Signal::Yield(RootMenuResponse::OpenMultiplayer {
            username: String::from("Luvui"),
            url: String::from("esprit://localhost/1"),
        })
    );
}

#[test]
fn escape_from_the_choice_reopens_the_name() {
    let mut menu = State::new(Some("Luvui"), None);
    let escape = Pressed { escape: true, ..Default::default() };
    assert_eq!(menu.event(&key(escape), Some(escape)), Signal::Nothing);
    assert!(!menu.username.submitted);
}

#[test]
fn escape_from_the_address_reopens_the_choice() {
    let mut menu = State::new(Some("Luvui"), None);
    let down = Pressed { down: true, ..Default::default() };
    let confirm = Pressed { confirm: true, ..Default::default() };
    let escape = Pressed { escape: true, ..Default::default() };
    menu.event(&key(down), Some(down));
    assert_eq!(menu.root_menu.backer, RootMenu::Multiplayer);
    menu.event(&key(confirm), Some(confirm));
    assert!(menu.root_menu.submitted);
    menu.event(&InputEvent::Text(String::from("host")), None);
    assert_eq!(menu.url.line, "esprit://host");
    assert_eq!(menu.event(&key(escape), Some(escape)), Signal::Nothing);
    assert!(!menu.root_menu.submitted);
    assert!(menu.username.submitted);
    assert_eq!(menu.url.line, "esprit://host");
}
