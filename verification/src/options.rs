//! Where the game keeps its files.

use vstd::prelude::*;

verus! {

/// The directory that holds the player's files.
pub fn user_directory() -> (res: &'static str)
    ensures
        res@ == "user/"@,
{
    find_user_directory()
}

/// The directory that holds the game's resources.
pub fn resource_directory() -> (res: &'static str)
    ensures
        res@ == "res/"@,
{
    find_resource_directory()
}

fn find_user_directory() -> (res: &'static str)
    ensures
        res@ == "user/"@,
{
    "user/"
}

fn find_resource_directory() -> (res: &'static str)
    ensures
        res@ == "res/"@,
{
    "res/"
}

} // verus!
