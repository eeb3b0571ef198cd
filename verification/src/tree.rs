//! What the signal tree shows: for each data group, the channel groups that
//! keep at least one channel after the search, with those channels and
//! whether each is selected.

use vstd::prelude::*;

use crate::channel::{search_text, Channel};
use crate::grouping::{ChannelGroup, DataGroup};
use crate::state::{search_answer, TreeStateView};

verus! {

/// A channel shown in the tree: its index in the channel list and whether
/// its checkbox is ticked.
pub struct VisibleChannel {
    pub index: usize,
    pub selected: bool,
}

/// A channel group shown in the tree, with its channels that pass the
/// search.
pub struct VisibleChannelGroup {
    pub name: String,
    pub channels: Vec<VisibleChannel>,
}

/// A data group shown in the tree, with its channel groups that keep at
/// least one channel.
pub struct VisibleDataGroup {
    pub name: String,
    pub channel_groups: Vec<VisibleChannelGroup>,
}

/// A shown channel as (index, selected).
pub open spec fn channel_entry_view(v: VisibleChannel) -> (usize, bool) {
    (v.index, v.selected)
}

/// A shown channel group as (name, shown channels).
pub open spec fn channel_group_entry_view(g: VisibleChannelGroup) -> (Seq<char>, Seq<(usize, bool)>) {
    (g.name@, shown_channels_view(g.channels@))
}

/// The shown channel groups of a data group, as (name, shown channels).
pub open spec fn shown_groups_view(v: Seq<VisibleChannelGroup>) -> Seq<(Seq<char>, Seq<(usize, bool)>)> {
    v.map_values(|g: VisibleChannelGroup| channel_group_entry_view(g))
}

/// The shown channels of a channel group, as (index, selected).
pub open spec fn shown_channels_view(v: Seq<VisibleChannel>) -> Seq<(usize, bool)> {
    v.map_values(|c: VisibleChannel| channel_entry_view(c))
}

/// The test "channel `i` passes the search in state `s`".
pub open spec fn passes_search(s: TreeStateView, chs: Seq<Channel>) -> spec_fn(usize) -> bool {
    |i: usize| search_answer(s, search_text(chs[i as int]))
}

/// A channel index with whether its name is selected in state `s`.
pub open spec fn entry_of(s: TreeStateView, chs: Seq<Channel>) -> spec_fn(usize) -> (usize, bool) {
    |i: usize| (i, s.selected.contains(chs[i as int].name@))
}

/// The shown channels among `members`, in order.
pub open spec fn channel_entries(s: TreeStateView, chs: Seq<Channel>, members: Seq<usize>) -> Seq<(usize, bool)> {
    members.filter(passes_search(s, chs)).map_values(entry_of(s, chs))
}

/// A channel group as (name, shown channels).
pub open spec fn group_entry(s: TreeStateView, chs: Seq<Channel>) -> spec_fn(ChannelGroup) -> (Seq<char>, Seq<(usize, bool)>) {
    |c: ChannelGroup| (c.name@, channel_entries(s, chs, c.channels@))
}

/// The test "shows at least one channel".
pub open spec fn shows_some() -> spec_fn((Seq<char>, Seq<(usize, bool)>)) -> bool {
    |e: (Seq<char>, Seq<(usize, bool)>)| e.1.len() > 0
}

/// The shown channel groups among `cgs`, in order.
pub open spec fn channel_group_entries(s: TreeStateView, chs: Seq<Channel>, cgs: Seq<ChannelGroup>) -> Seq<(Seq<char>, Seq<(usize, bool)>)> {
    cgs.map_values(group_entry(s, chs)).filter(shows_some())
}

/// Some channel group of `cgs` lists at least one channel.
pub open spec fn some_group_listed(cgs: Seq<ChannelGroup>) -> bool {
    exists|l: int| 0 <= l < cgs.len() && (#[trigger] cgs[l]).channels@.len() > 0
}

/// Data group `d` lists at least one channel.
pub open spec fn data_group_has_channels(d: DataGroup) -> bool {
    some_group_listed(d.channel_groups@)
}

/// Some data group of `groups` lists at least one channel.
pub open spec fn lists_some_channel(groups: Seq<DataGroup>) -> bool {
    exists|k: int| 0 <= k < groups.len() && data_group_has_channels(#[trigger] groups[k])
}

/// Every channel index in `groups` is below `n`.
pub open spec fn indices_below(groups: Seq<DataGroup>, n: int) -> bool {
    forall|k: int, l: int, m: int|
        0 <= k < groups.len() && 0 <= l < groups[k].channel_groups@.len() && 0 <= m
            < groups[k].channel_groups@[l].channels@.len() ==> #[trigger] groups[k].channel_groups@[l].channels@[m] < n
}

} // verus!
