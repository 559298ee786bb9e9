//! The login menu: a name to enter, then a choice between playing alone or on a server,
//! whose address is entered last.

use crate::input::Pressed;
use vstd::prelude::*;
use vstd::string::*;

verus! {

/// What a menu hands back for an event.
#[derive(Clone, Debug, PartialEq, Eq)]
pub enum Signal<T> {
    Nothing,
    Cancel,
    Yield(T),
}

/// An event that reaches a menu.
#[derive(Clone, Debug)]
pub enum InputEvent {
    /// Text typed in.
    Text(String),
    /// A key: whether it is the backspace key, and the controls it is bound to.
    Key { backspace: bool, pressed: Pressed },
    /// Anything else.
    Other,
}

/// The line after `event` reaches it while it is being entered: text is appended and
/// backspace removes the last character.
pub open spec fn line_after(line: Seq<char>, event: InputEvent) -> Seq<char> {
    match event {
        InputEvent::Text(t) => line + t@,
        InputEvent::Key { backspace, pressed } => if backspace && line.len() > 0 {
            line.drop_last()
        } else {
            line
        },
        InputEvent::Other => line,
    }
}

/// Whether `event` submits a line being entered.
pub open spec fn line_confirmed(event: InputEvent) -> bool {
    event matches InputEvent::Key { backspace, pressed } && !backspace && pressed.confirm
}

/// Whether `event` cancels a line being entered.
pub open spec fn line_cancelled(event: InputEvent) -> bool {
    event matches InputEvent::Key { backspace, pressed } && !backspace && !pressed.confirm && pressed.escape
}

/// A line of text being entered.
#[derive(Debug, Default)]
pub struct LineInput {
    pub line: String,
    pub submitted: bool,
}

impl LineInput {
    /// Takes an event while the line is being entered: text is appended, backspace removes the
    /// last character, confirm submits, and escape cancels.
    pub fn handle<T>(&mut self, event: &InputEvent) -> (res: Signal<T>)
        ensures
            final(self).line@ == line_after(old(self).line@, *event),
            final(self).submitted == (old(self).submitted || line_confirmed(*event)),
            res == (if line_cancelled(*event) { Signal::<T>::Cancel } else { Signal::<T>::Nothing }),
    {
        match event {
            InputEvent::Text(text) => {
                self.line.append(text.as_str());
                Signal::Nothing
            },
            InputEvent::Key { backspace, pressed } => {
                if *backspace {
                    let len = self.line.as_str().unicode_len();
                    if len > 0 {
                        let mut line = String::new();
                        line.append(self.line.as_str().substring_char(0, len - 1));
                        self.line = line;
                    }
                    Signal::Nothing
                } else if pressed.confirm {
                    self.submitted = true;
                    Signal::Nothing
                } else if pressed.escape {
                    Signal::Cancel
                } else {
                    Signal::Nothing
                }
            },
            InputEvent::Other => Signal::Nothing,
        }
    }

    /// Takes what the submitted line led to: a cancel reopens the line and is not passed on.
    pub fn settle<T>(&mut self, signal: Signal<T>) -> (res: Signal<T>)
        ensures
            final(self).line == old(self).line,
            signal is Cancel ==> !final(self).submitted && res == Signal::<T>::Nothing,
            !(signal is Cancel) ==> final(self).submitted == old(self).submitted && res == signal,
    {
        match signal {
            Signal::Cancel => {
                self.submitted = false;
                Signal::Nothing
            },
            other => other,
        }
    }

    /// Passes the event on to `submit` once the line is submitted, else lets the line take it.
    pub fn dispatch<T, F: FnOnce(&String) -> Signal<T>>(&mut self, event: &InputEvent, submit: F) -> (res: Signal<T>)
        requires
            old(self).submitted ==> call_requires(submit, (&old(self).line,)),
        ensures
            old(self).submitted ==> exists|s: Signal<T>| #[trigger] call_ensures(submit, (&old(self).line,), s)
                && final(self).line == old(self).line && if s is Cancel {
                    !final(self).submitted && res == Signal::<T>::Nothing
                } else {
                    final(self).submitted && res == s
                },
            !old(self).submitted ==> {
                &&& final(self).line@ == line_after(old(self).line@, *event)
                &&& final(self).submitted == line_confirmed(*event)
                &&& res == (if line_cancelled(*event) { Signal::<T>::Cancel } else { Signal::<T>::Nothing })
            },
    {
        if self.submitted {
            let s = submit(&self.line);
            self.settle(s)
        } else {
            self.handle(event)
        }
    }
}

/// What a radio's choices are made of: a choice that moves forward or back.
pub trait RadioBacker: Sized {
    spec fn after_inc(self) -> Self;

    spec fn after_dec(self) -> Self;

    fn inc(&mut self) -> (moved: bool)
        ensures
            *final(self) == old(self).after_inc(),
    ;

    fn dec(&mut self) -> (moved: bool)
        ensures
            *final(self) == old(self).after_dec(),
    ;

    fn index(&self) -> usize;
}

/// The choice after a key reaches a radio: down moves forward and up moves back.
pub open spec fn radio_backer_after<Backer: RadioBacker>(backer: Backer, pressed: Option<Pressed>) -> Backer {
    match pressed {
        Some(p) => if p.down {
            backer.after_inc()
        } else if p.up {
            backer.after_dec()
        } else {
            backer
        },
        None => backer,
    }
}

/// Whether a key submits a radio's choice.
pub open spec fn radio_confirmed(pressed: Option<Pressed>) -> bool {
    pressed matches Some(p) && !p.down && !p.up && p.confirm
}

/// Whether a key cancels a radio's choice.
pub open spec fn radio_cancelled(pressed: Option<Pressed>) -> bool {
    pressed matches Some(p) && !p.down && !p.up && !p.confirm && p.escape
}

/// A dialogue describing a list of things and whether or not they have been selected.
#[derive(Debug, Default)]
pub struct Radio<Backer> {
    /// Tracks the currently "hovered" option.
    pub backer: Backer,
    /// Whether or not the radio is currently "submitted".
    /// An unsubmitted radio consumes events, using them to move the cursor.
    pub submitted: bool,
}

impl<Backer: RadioBacker> Radio<Backer> {
    /// Takes a key while choosing: down moves forward, up moves back, confirm submits and
    /// escape cancels, the first that the key is bound to.
    pub fn handle<T>(&mut self, pressed: Option<Pressed>) -> (res: Signal<T>)
        ensures
            final(self).backer == radio_backer_after(old(self).backer, pressed),
            final(self).submitted == (old(self).submitted || radio_confirmed(pressed)),
            res == (if radio_cancelled(pressed) { Signal::<T>::Cancel } else { Signal::<T>::Nothing }),
    {
        match pressed {
            Some(p) => {
                if p.down {
                    self.backer.inc();
                    Signal::Nothing
                } else if p.up {
                    self.backer.dec();
                    Signal::Nothing
                } else if p.confirm {
                    self.submitted = true;
                    Signal::Nothing
                } else if p.escape {
                    Signal::Cancel
                } else {
                    Signal::Nothing
                }
            },
            None => Signal::Nothing,
        }
    }

    /// Takes what the submitted choice led to: a cancel reopens the choice and is not passed on.
    pub fn settle<T>(&mut self, signal: Signal<T>) -> (res: Signal<T>)
        ensures
            final(self).backer == old(self).backer,
            signal is Cancel ==> !final(self).submitted && res == Signal::<T>::Nothing,
            !(signal is Cancel) ==> final(self).submitted == old(self).submitted && res == signal,
    {
        match signal {
            Signal::Cancel => {
                self.submitted = false;
                Signal::Nothing
            },
            other => other,
        }
    }
}

/// The two ways to play.
#[derive(Clone, Copy, Debug, Default, PartialEq, Eq, Structural)]
pub enum RootMenu {
    #[default]
    Singleplayer,
    Multiplayer,
}

impl RadioBacker for RootMenu {
    open spec fn after_inc(self) -> RootMenu {
        match self {
            RootMenu::Singleplayer => RootMenu::Multiplayer,
            RootMenu::Multiplayer => RootMenu::Singleplayer,
        }
    }

    open spec fn after_dec(self) -> RootMenu {
        match self {
            RootMenu::Singleplayer => RootMenu::Multiplayer,
            RootMenu::Multiplayer => RootMenu::Singleplayer,
        }
    }

    fn inc(&mut self) -> (moved: bool) {
        *self = match self {
            RootMenu::Singleplayer => RootMenu::Multiplayer,
            RootMenu::Multiplayer => RootMenu::Singleplayer,
        };
        true
    }

    fn dec(&mut self) -> (moved: bool) {
        *self = match self {
            RootMenu::Singleplayer => RootMenu::Multiplayer,
            RootMenu::Multiplayer => RootMenu::Singleplayer,
        };
        true
    }

    fn index(&self) -> (res: usize)
        ensures
            res == (match *self {
                RootMenu::Singleplayer => 0usize,
                RootMenu::Multiplayer => 1usize,
            }),
    {
        match self {
            RootMenu::Singleplayer => 0,
            RootMenu::Multiplayer => 1,
        }
    }
}

/// Moving back undoes moving forward through the root menu, and the other way around.
pub proof fn lemma_root_menu_dec_undoes_inc(m: RootMenu)
    ensures
        m.after_inc().after_dec() == m,
        m.after_dec().after_inc() == m,
{
}

/// What the login menu leads to.
#[derive(Clone, Debug, PartialEq, Eq)]
pub enum RootMenuResponse {
    OpenSingleplayer { username: String },
    OpenMultiplayer { username: String, url: String },
}

/// The login menu.
#[derive(Debug)]
pub struct State {
    pub username: LineInput,
    pub root_menu: Radio<RootMenu>,
    pub url: LineInput,
}

impl State {
    /// The menu, with the name and the server's address already submitted where they are given.
    pub fn new(username: Option<&str>, url: Option<&str>) -> (res: State)
        ensures
            res.username.line@ == (match username { Some(u) => u@, None => Seq::<char>::empty() }),
            res.username.submitted == username is Some,
            res.root_menu.backer == (if url is Some { RootMenu::Multiplayer } else { RootMenu::Singleplayer }),
            res.root_menu.submitted == url is Some,
            res.url.line@ == (match url { Some(u) => u@, None => "esprit://"@ }),
            res.url.submitted == url is Some,
    {
        let name = match username {
            Some(u) => String::from_str(u),
            None => String::new(),
        };
        let address = match url {
            Some(u) => String::from_str(u),
            None => String::from_str("esprit://"),
        };
        State {
            username: LineInput { line: name, submitted: username.is_some() },
            root_menu: if url.is_some() {
                Radio { backer: RootMenu::Multiplayer, submitted: true }
            } else {
                Radio { backer: RootMenu::Singleplayer, submitted: false }
            },
            url: LineInput { line: address, submitted: url.is_some() },
        }
    }

    /// Passes an event to the part of the menu that is open: the name, then the choice, then
    /// the address. A cancel closes the innermost open part.
    pub fn event(&mut self, event: &InputEvent, pressed: Option<Pressed>) -> (res: Signal<RootMenuResponse>)
        ensures
            ({
                let name = old(self).username;
                let choice = old(self).root_menu;
                let address = old(self).url;
                if !name.submitted {
                    &&& final(self).username.line@ == line_after(name.line@, *event)
                    &&& final(self).username.submitted == line_confirmed(*event)
                    &&& final(self).root_menu == choice
                    &&& final(self).url == address
                    &&& res == (if line_cancelled(*event) {
                        Signal::<RootMenuResponse>::Cancel
                    } else {
                        Signal::<RootMenuResponse>::Nothing
                    })
                } else if !choice.submitted {
                    &&& final(self).username.line == name.line
                    &&& final(self).username.submitted == !radio_cancelled(pressed)
                    &&& final(self).root_menu.backer == radio_backer_after(choice.backer, pressed)
                    &&& final(self).root_menu.submitted == radio_confirmed(pressed)
                    &&& final(self).url == address
                    &&& res == Signal::<RootMenuResponse>::Nothing
                } else if choice.backer == RootMenu::Singleplayer {
                    &&& *final(self) == *old(self)
                    &&& res matches Signal::Yield(RootMenuResponse::OpenSingleplayer { username })
                    &&& username@ == name.line@
                } else if address.submitted {
                    &&& *final(self) == *old(self)
                    &&& res matches Signal::Yield(RootMenuResponse::OpenMultiplayer { username, url })
                    &&& username@ == name.line@
                    &&& url@ == address.line@
                } else {
                    &&& final(self).username == name
                    &&& final(self).root_menu.backer == choice.backer
                    &&& final(self).root_menu.submitted == !line_cancelled(*event)
                    &&& final(self).url.line@ == line_after(address.line@, *event)
                    &&& final(self).url.submitted == line_confirmed(*event)
                    &&& res == Signal::<RootMenuResponse>::Nothing
                }
            }),
    {
        if self.username.submitted {
            let inner = if self.root_menu.submitted {
                let chosen = match self.root_menu.backer {
                    RootMenu::Singleplayer => Signal::Yield(
                        RootMenuResponse::OpenSingleplayer { username: self.username.line.clone() },
                    ),
                    RootMenu::Multiplayer => {
                        let name = self.username.line.clone();
                        let open = |url: &String| -> (r: Signal<RootMenuResponse>)
                            ensures
                                r matches Signal::Yield(RootMenuResponse::OpenMultiplayer { username, url: u })
                                    && username@ == name@ && u@ == url@,
                            {
                                Signal::Yield(
                                    RootMenuResponse::OpenMultiplayer { username: name, url: url.clone() },
                                )
                            };
                        self.url.dispatch(event, open)
                    },
                };
                self.root_menu.settle(chosen)
            } else {
                self.root_menu.handle(pressed)
            };
            self.username.settle(inner)
        } else {
            self.username.handle(event)
        }
    }
}

} // verus!
