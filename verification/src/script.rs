//! Lua scripts, given either inline or by the path of a file.

use vstd::prelude::*;
use vstd::string::*;

verus! {

/// A script that was loaded from a file.
#[derive(Clone, Debug)]
pub struct Script {
    pub path: String,
    pub contents: String,
}

/// A script that is either written out in place, or loaded from a file.
#[derive(Clone, Debug)]
pub enum MaybeInline {
    Inline(String),
    Path(Script),
}

impl MaybeInline {
    /// The name to report the script by: its path, or its parent's name marked as inline.
    pub fn name(&self, parent: &str) -> (res: String)
        ensures
            res@ == match self {
                MaybeInline::Inline(_) => parent@ + " (inline)"@,
                MaybeInline::Path(script) => script.path@,
            },
    {
        match self {
            MaybeInline::Inline(_) => {
                let mut name = String::from_str(parent);
                name.append(" (inline)");
                name
            },
            MaybeInline::Path(script) => script.path.clone(),
        }
    }

    /// The source code of the script.
    pub fn contents(&self) -> (res: &str)
        ensures
            res@ == match self {
                MaybeInline::Inline(s) => s@,
                MaybeInline::Path(script) => script.contents@,
            },
    {
        match self {
            MaybeInline::Inline(s) => s.as_str(),
            MaybeInline::Path(script) => script.contents.as_str(),
        }
    }
}

} // verus!
