//! A channel of a measurement file, as the signal tree reads it.

use vstd::prelude::*;

verus! {

/// A channel: its name and its full path in the file (data group, channel
/// group and name, separated by `/`).
pub struct Channel {
    pub name: String,
    pub full_path: String,
}

impl Channel {
    /// A channel with the given name and full path.
    pub fn new(name: String, full_path: String) -> (c: Channel)
        ensures
            c.name@ == name@,
            c.full_path@ == full_path@,
    {
        Channel { name, full_path }
    }
}

/// The text a search query is held against: the channel's name, a space,
/// and its full path.
pub open spec fn search_text(c: Channel) -> Seq<char> {
    c.name@ + seq![' '] + c.full_path@
}

/// The text a search query is held against (see `search_text`).
pub fn search_text_of(c: &Channel) -> (t: String)
    ensures
        t@ == search_text(*c),
{
    let mut t = c.name.clone();
    t.append(" ");
    t.append(c.full_path.as_str());
    proof {
        reveal_strlit(" ");
    }
    t
}

} // verus!
