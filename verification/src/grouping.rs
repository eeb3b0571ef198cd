//! Grouping of channels by the first two components of their path: data
//! group, then channel group, each level sorted by name, and the channels
//! of a channel group sorted by name.

use vstd::prelude::*;

use crate::channel::Channel;
use crate::text::{
    chars_of, lemma_lex_lt_total, lemma_lex_lt_transitive, lex_lt, split_at_first_slash,
    split_first_slash, str_lt, string_of_chars,
};

verus! {

/// The data group of a path: its first `/`-separated component.
pub open spec fn data_group_of(path: Seq<char>) -> Seq<char> {
    split_at_first_slash(path).0
}

/// The channel group of a path: its second `/`-separated component, or
/// `Ungrouped` when the path has a single component.
pub open spec fn channel_group_of(path: Seq<char>) -> Seq<char> {
    match split_at_first_slash(path).1 {
        Some(rest) => split_at_first_slash(rest).0,
        None => "Ungrouped"@,
    }
}

/// Channel `i` of `chs` has the data group `dg` and the channel group `cg`.
pub open spec fn in_group(chs: Seq<Channel>, i: int, dg: Seq<char>, cg: Seq<char>) -> bool {
    &&& data_group_of(chs[i].full_path@) == dg
    &&& channel_group_of(chs[i].full_path@) == cg
}

/// Channel `a` comes before channel `b` in a channel group: by name, and
/// channels of the same name in the order of `chs`.
pub open spec fn channel_before(chs: Seq<Channel>, a: int, b: int) -> bool {
    ||| lex_lt(chs[a].name@, chs[b].name@)
    ||| (chs[a].name@ == chs[b].name@ && a < b)
}

/// The channels of one channel group, by their index in the channel list.
pub struct ChannelGroup {
    pub name: String,
    pub channels: Vec<usize>,
}

/// The channel groups of one data group.
pub struct DataGroup {
    pub name: String,
    pub channel_groups: Vec<ChannelGroup>,
}

/// Channel group `cg` of data group `dg` is well built from the first `n`
/// channels of `chs`: not empty, every member has this data group and
/// channel group, and the members are sorted by `channel_before`.
pub open spec fn channel_group_valid(chs: Seq<Channel>, n: int, dg: Seq<char>, cg: ChannelGroup) -> bool {
    &&& cg.channels@.len() > 0
    &&& forall|m: int|
        0 <= m < cg.channels@.len() ==> {
            &&& #[trigger] cg.channels@[m] < n
            &&& n <= chs.len()
            &&& in_group(chs, cg.channels@[m] as int, dg, cg.name@)
        }
    &&& forall|m1: int, m2: int|
        0 <= m1 < m2 < cg.channels@.len() ==> channel_before(
            chs,
            #[trigger] cg.channels@[m1] as int,
            #[trigger] cg.channels@[m2] as int,
        )
}

/// Data group `d` is well built from the first `n` channels of `chs`: not
/// empty, each channel group well built, channel groups sorted by name.
pub open spec fn data_group_valid(chs: Seq<Channel>, n: int, d: DataGroup) -> bool {
    &&& d.channel_groups@.len() > 0
    &&& forall|l: int|
        0 <= l < d.channel_groups@.len() ==> channel_group_valid(
            chs,
            n,
            d.name@,
            #[trigger] d.channel_groups@[l],
        )
    &&& forall|l1: int, l2: int|
        0 <= l1 < l2 < d.channel_groups@.len() ==> lex_lt(
            (#[trigger] d.channel_groups@[l1]).name@,
            (#[trigger] d.channel_groups@[l2]).name@,
        )
}

/// Channel group `c` lists channel `i`.
pub open spec fn channel_group_lists(c: ChannelGroup, i: int) -> bool {
    exists|m: int| 0 <= m < c.channels@.len() && #[trigger] c.channels@[m] == i
}

/// Data group `d` lists channel `i`.
pub open spec fn data_group_lists(d: DataGroup, i: int) -> bool {
    exists|l: int|
        0 <= l < d.channel_groups@.len() && #[trigger] channel_group_lists(d.channel_groups@[l], i)
}

/// The grouping `groups` lists channel `i`.
pub open spec fn groups_list(groups: Seq<DataGroup>, i: int) -> bool {
    exists|k: int| 0 <= k < groups.len() && #[trigger] data_group_lists(groups[k], i)
}

/// `groups` is the grouping of the first `n` channels of `chs`: every data
/// group well built, data groups sorted by name, and each of those channels
/// listed.
pub open spec fn groups_prefix(chs: Seq<Channel>, n: int, groups: Seq<DataGroup>) -> bool {
    &&& forall|k: int| 0 <= k < groups.len() ==> data_group_valid(chs, n, #[trigger] groups[k])
    &&& forall|k1: int, k2: int|
        0 <= k1 < k2 < groups.len() ==> lex_lt((#[trigger] groups[k1]).name@, (#[trigger] groups[k2]).name@)
    &&& forall|i: int| 0 <= i < n ==> #[trigger] groups_list(groups, i)
}

/// `groups` is the grouping of all of `chs`.
pub open spec fn is_grouping(chs: Seq<Channel>, groups: Seq<DataGroup>) -> bool {
    groups_prefix(chs, chs.len() as int, groups)
}

proof fn lemma_channel_before_transitive(chs: Seq<Channel>, a: int, b: int, c: int)
    requires
        channel_before(chs, a, b),
        channel_before(chs, b, c),
    ensures
        channel_before(chs, a, c),
{
    if lex_lt(chs[a].name@, chs[b].name@) && lex_lt(chs[b].name@, chs[c].name@) {
        lemma_lex_lt_transitive(chs[a].name@, chs[b].name@, chs[c].name@);
    }
}

proof fn lemma_channel_group_valid_grow(chs: Seq<Channel>, n: int, dg: Seq<char>, c: ChannelGroup)
    requires
        channel_group_valid(chs, n, dg, c),
        n < chs.len(),
    ensures
        channel_group_valid(chs, n + 1, dg, c),
{
}

proof fn lemma_data_group_valid_grow(chs: Seq<Channel>, n: int, d: DataGroup)
    requires
        data_group_valid(chs, n, d),
        n < chs.len(),
    ensures
        data_group_valid(chs, n + 1, d),
{
    assert forall|l: int| 0 <= l < d.channel_groups@.len() implies channel_group_valid(
        chs,
        n + 1,
        d.name@,
        #[trigger] d.channel_groups@[l],
    ) by {
        lemma_channel_group_valid_grow(chs, n, d.name@, d.channel_groups@[l]);
    }
}

/// Position of `name` among the data groups, which are sorted by name: the
/// first data group whose name does not sort before `name`, and whether its
/// name is `name`.
fn data_group_position(groups: &Vec<DataGroup>, name: &String) -> (r: (usize, bool))
    requires
        forall|k1: int, k2: int|
            0 <= k1 < k2 < groups@.len() ==> lex_lt(
                (#[trigger] groups@[k1]).name@,
                (#[trigger] groups@[k2]).name@,
            ),
    ensures
        r.0 <= groups@.len(),
        forall|k: int| 0 <= k < r.0 ==> lex_lt((#[trigger] groups@[k]).name@, name@),
        r.1 ==> r.0 < groups@.len() && groups@[r.0 as int].name@ == name@,
        forall|k: int|
            r.0 <= k < groups@.len() && !(r.1 && k == r.0) ==> lex_lt(
                name@,
                (#[trigger] groups@[k]).name@,
            ),
{
    let mut p: usize = 0;
    while p < groups.len() && str_lt(groups[p].name.as_str(), name.as_str())
        invariant
            p <= groups@.len(),
            forall|k: int| 0 <= k < p ==> lex_lt((#[trigger] groups@[k]).name@, name@),
        decreases groups@.len() - p,
    {
        p = p + 1;
    }
    if p == groups.len() {
        return (p, false);
    }
    let found = groups[p].name == *name;
    proof {
        lemma_lex_lt_total(groups@[p as int].name@, name@);
        assert forall|k: int|
            p <= k < groups@.len() && !(found && k == p) implies lex_lt(
            name@,
            (#[trigger] groups@[k]).name@,
        ) by {
            if k > p {
                if !found {
                    lemma_lex_lt_transitive(name@, groups@[p as int].name@, groups@[k].name@);
                } else {
                }
            }
        }
    }
    (p, found)
}

/// Position of `name` among the channel groups, which are sorted by name:
/// the first channel group whose name does not sort before `name`, and
/// whether its name is `name`.
fn channel_group_position(cgs: &Vec<ChannelGroup>, name: &String) -> (r: (usize, bool))
    requires
        forall|l1: int, l2: int|
            0 <= l1 < l2 < cgs@.len() ==> lex_lt(
                (#[trigger] cgs@[l1]).name@,
                (#[trigger] cgs@[l2]).name@,
            ),
    ensures
        r.0 <= cgs@.len(),
        forall|l: int| 0 <= l < r.0 ==> lex_lt((#[trigger] cgs@[l]).name@, name@),
        r.1 ==> r.0 < cgs@.len() && cgs@[r.0 as int].name@ == name@,
        forall|l: int|
            r.0 <= l < cgs@.len() && !(r.1 && l == r.0) ==> lex_lt(
                name@,
                (#[trigger] cgs@[l]).name@,
            ),
{
    let mut p: usize = 0;
    while p < cgs.len() && str_lt(cgs[p].name.as_str(), name.as_str())
        invariant
            p <= cgs@.len(),
            forall|l: int| 0 <= l < p ==> lex_lt((#[trigger] cgs@[l]).name@, name@),
        decreases cgs@.len() - p,
    {
        p = p + 1;
    }
    if p == cgs.len() {
        return (p, false);
    }
    let found = cgs[p].name == *name;
    proof {
        lemma_lex_lt_total(cgs@[p as int].name@, name@);
        assert forall|l: int|
            p <= l < cgs@.len() && !(found && l == p) implies lex_lt(
            name@,
            (#[trigger] cgs@[l]).name@,
        ) by {
            if l > p && !found {
                lemma_lex_lt_transitive(name@, cgs@[p as int].name@, cgs@[l].name@);
            }
        }
    }
    (p, found)
}

/// Adds channel `i`, the last of the first `i + 1` channels, to the sorted
/// channel indices `c` of a channel group.
fn insert_channel_index(c: &mut ChannelGroup, chs: &[Channel], i: usize, Ghost(dg): Ghost<Seq<char>>)
    requires
        i < chs@.len(),
        channel_group_valid(chs@, i as int, dg, *old(c)),
        in_group(chs@, i as int, dg, old(c).name@),
    ensures
        final(c).name == old(c).name,
        channel_group_valid(chs@, i + 1, dg, *final(c)),
        forall|j: int| #[trigger]
            channel_group_lists(*final(c), j) <==> (channel_group_lists(*old(c), j) || j == i),
{
    let ghost old_c = *c;
    let mut r: usize = 0;
    let len = c.channels.len();
    while r < len && !str_lt(chs[i].name.as_str(), chs[c.channels[r]].name.as_str())
        invariant
            len == c.channels@.len(),
            *c == old_c,
            i < chs@.len(),
            channel_group_valid(chs@, i as int, dg, *c),
            r <= len,
            forall|m: int| 0 <= m < r ==> channel_before(chs@, #[trigger] c.channels@[m] as int, i as int),
        decreases len - r,
    {
        proof {
            let x = c.channels@[r as int] as int;
            lemma_lex_lt_total(chs@[x].name@, chs@[i as int].name@);
        }
        r = r + 1;
    }
    proof {
        if r < len {
            let x = c.channels@[r as int] as int;
            assert(channel_before(chs@, i as int, x));
            assert forall|m: int| r <= m < len implies channel_before(chs@, i as int, #[trigger] c.channels@[m] as int) by {
                if m > r {
                    lemma_channel_before_transitive(chs@, i as int, x, c.channels@[m] as int);
                }
            }
        }
    }
    c.channels.insert(r, i);
    proof {
        let s = c.channels@;
        assert(s == old_c.channels@.insert(r as int, i));
        assert forall|m1: int, m2: int| 0 <= m1 < m2 < s.len() implies channel_before(
            chs@,
            #[trigger] s[m1] as int,
            #[trigger] s[m2] as int,
        ) by {
            let o = old_c.channels@;
            if m2 < r {
                assert(s[m1] == o[m1] && s[m2] == o[m2]);
            } else if m2 == r {
                assert(s[m1] == o[m1]);
            } else if m1 < r {
                assert(s[m1] == o[m1] && s[m2] == o[m2 - 1]);
                lemma_channel_before_transitive(chs@, o[m1] as int, i as int, o[m2 - 1] as int);
            } else if m1 == r {
                assert(s[m2] == o[m2 - 1]);
            } else {
                assert(s[m1] == o[m1 - 1] && s[m2] == o[m2 - 1]);
            }
        }
        assert forall|m: int| 0 <= m < s.len() implies {
            &&& #[trigger] s[m] < i + 1
            &&& i + 1 <= chs@.len()
            &&& in_group(chs@, s[m] as int, dg, c.name@)
        } by {
            if m < r {
                assert(s[m] == old_c.channels@[m]);
            } else if m > r {
                assert(s[m] == old_c.channels@[m - 1]);
            }
        }
        assert forall|j: int| #[trigger]
            channel_group_lists(*c, j) <==> (channel_group_lists(old_c, j) || j == i) by {
            if channel_group_lists(old_c, j) {
                let m = choose|m: int| 0 <= m < old_c.channels@.len() && #[trigger] old_c.channels@[m] == j;
                if m < r {
                    assert(s[m] == j);
                } else {
                    assert(s[m + 1] == j);
                }
            }
            if j == i {
                assert(s[r as int] == i);
            }
            if channel_group_lists(*c, j) {
                let m = choose|m: int| 0 <= m < s.len() && #[trigger] s[m] == j;
                if m < r {
                    assert(old_c.channels@[m] == j);
                } else if m > r {
                    assert(old_c.channels@[m - 1] == j);
                }
            }
        }
    }
}

/// Adds channel `i`, the last of the first `i + 1` channels, to data group
/// `d`, in its channel group `cg_name`, which is created when missing.
fn insert_into_data_group(d: &mut DataGroup, chs: &[Channel], i: usize, cg_name: String)
    requires
        i < chs@.len(),
        data_group_valid(chs@, i as int, *old(d)),
        in_group(chs@, i as int, old(d).name@, cg_name@),
    ensures
        final(d).name == old(d).name,
        data_group_valid(chs@, i + 1, *final(d)),
        forall|j: int| #[trigger]
            data_group_lists(*final(d), j) <==> (data_group_lists(*old(d), j) || j == i),
{
    let ghost old_d = *d;
    let ghost o = d.channel_groups@;
    let (q, found) = channel_group_position(&d.channel_groups, &cg_name);
    if found {
        let mut c = d.channel_groups.remove(q);
        insert_channel_index(&mut c, chs, i, Ghost(d.name@));
        d.channel_groups.insert(q, c);
        proof {
            let s = d.channel_groups@;
            assert(s =~= o.update(q as int, c));
            assert forall|l: int| 0 <= l < s.len() implies channel_group_valid(
                chs@,
                i + 1,
                d.name@,
                #[trigger] s[l],
            ) by {
                if l != q {
                    lemma_channel_group_valid_grow(chs@, i as int, d.name@, o[l]);
                }
            }
            assert forall|l1: int, l2: int| 0 <= l1 < l2 < s.len() implies lex_lt(
                (#[trigger] s[l1]).name@,
                (#[trigger] s[l2]).name@,
            ) by {
                assert(s[l1].name == o[l1].name && s[l2].name == o[l2].name);
            }
            assert forall|j: int| #[trigger]
                data_group_lists(*d, j) <==> (data_group_lists(old_d, j) || j == i) by {
                if data_group_lists(old_d, j) {
                    let l = choose|l: int| 0 <= l < o.len() && #[trigger] channel_group_lists(o[l], j);
                    if l != q {
                        assert(channel_group_lists(s[l], j));
                    } else {
                        assert(channel_group_lists(s[l], j));
                    }
                }
                if j == i {
                    assert(channel_group_lists(s[q as int], j));
                }
                if data_group_lists(*d, j) {
                    let l = choose|l: int| 0 <= l < s.len() && #[trigger] channel_group_lists(s[l], j);
                    if l != q {
                        assert(channel_group_lists(o[l], j));
                    }
                }
            }
        }
    } else {
        let ghost name = d.name@;
        let mut channels: Vec<usize> = Vec::new();
        channels.push(i);
        let c = ChannelGroup { name: cg_name, channels };
        d.channel_groups.insert(q, c);
        proof {
            let s = d.channel_groups@;
            assert(s == o.insert(q as int, c));
            assert(c.channels@[0] == i);
            assert(channel_group_valid(chs@, i + 1, name, c));
            assert forall|l: int| 0 <= l < s.len() implies channel_group_valid(
                chs@,
                i + 1,
                d.name@,
                #[trigger] s[l],
            ) by {
                if l < q {
                    assert(s[l] == o[l]);
                    lemma_channel_group_valid_grow(chs@, i as int, d.name@, o[l]);
                } else if l > q {
                    assert(s[l] == o[l - 1]);
                    lemma_channel_group_valid_grow(chs@, i as int, d.name@, o[l - 1]);
                }
            }
            assert forall|l1: int, l2: int| 0 <= l1 < l2 < s.len() implies lex_lt(
                (#[trigger] s[l1]).name@,
                (#[trigger] s[l2]).name@,
            ) by {
                if l2 < q {
                    assert(s[l1] == o[l1] && s[l2] == o[l2]);
                } else if l2 == q {
                    assert(s[l1] == o[l1]);
                } else if l1 < q {
                    assert(s[l1] == o[l1] && s[l2] == o[l2 - 1]);
                    lemma_lex_lt_transitive(o[l1].name@, c.name@, o[l2 - 1].name@);
                } else if l1 == q {
                    assert(s[l2] == o[l2 - 1]);
                } else {
                    assert(s[l1] == o[l1 - 1] && s[l2] == o[l2 - 1]);
                }
            }
            assert forall|j: int| #[trigger]
                data_group_lists(*d, j) <==> (data_group_lists(old_d, j) || j == i) by {
                if data_group_lists(old_d, j) {
                    let l = choose|l: int| 0 <= l < o.len() && #[trigger] channel_group_lists(o[l], j);
                    if l < q {
                        assert(s[l] == o[l]);
                        assert(channel_group_lists(s[l], j));
                    } else {
                        assert(s[l + 1] == o[l]);
                        assert(channel_group_lists(s[l + 1], j));
                    }
                }
                if j == i {
                    assert(channel_group_lists(s[q as int], j));
                }
                if data_group_lists(*d, j) {
                    let l = choose|l: int| 0 <= l < s.len() && #[trigger] channel_group_lists(s[l], j);
                    if l < q {
                        assert(s[l] == o[l]);
                    } else if l > q {
                        assert(s[l] == o[l - 1]);
                    } else {
                        let m = choose|m: int| 0 <= m < c.channels@.len() && #[trigger] c.channels@[m] == j;
                    }
                }
            }
        }
    }
}

/// Adds channel `i`, the last of the first `i + 1` channels, to the
/// grouping, in its data group `dg_name` and channel group `cg_name`.
fn add_channel(groups: &mut Vec<DataGroup>, chs: &[Channel], i: usize, dg_name: String, cg_name: String)
    requires
        i < chs@.len(),
        groups_prefix(chs@, i as int, old(groups)@),
        in_group(chs@, i as int, dg_name@, cg_name@),
    ensures
        groups_prefix(chs@, i + 1, final(groups)@),
{
    let ghost o = groups@;
    let (p, found) = data_group_position(groups, &dg_name);
    if found {
        let mut d = groups.remove(p);
        let ghost old_d = d;
        insert_into_data_group(&mut d, chs, i, cg_name);
        groups.insert(p, d);
        proof {
            let s = groups@;
            assert(s =~= o.update(p as int, d));
            assert forall|k: int| 0 <= k < s.len() implies data_group_valid(chs@, i + 1, #[trigger] s[k]) by {
                if k != p {
                    lemma_data_group_valid_grow(chs@, i as int, o[k]);
                }
            }
            assert forall|k1: int, k2: int| 0 <= k1 < k2 < s.len() implies lex_lt(
                (#[trigger] s[k1]).name@,
                (#[trigger] s[k2]).name@,
            ) by {
                assert(s[k1].name == o[k1].name && s[k2].name == o[k2].name);
            }
            assert forall|j: int| 0 <= j < i + 1 implies #[trigger] groups_list(s, j) by {
                if j < i {
                    assert(groups_list(o, j));
                    let k = choose|k: int| 0 <= k < o.len() && #[trigger] data_group_lists(o[k], j);
                    assert(data_group_lists(s[k], j));
                } else {
                    assert(data_group_lists(s[p as int], j));
                }
            }
        }
    } else {
        let mut channels: Vec<usize> = Vec::new();
        channels.push(i);
        let c = ChannelGroup { name: cg_name, channels };
        let mut cgs: Vec<ChannelGroup> = Vec::new();
        cgs.push(c);
        let d = DataGroup { name: dg_name, channel_groups: cgs };
        groups.insert(p, d);
        proof {
            let s = groups@;
            assert(s == o.insert(p as int, d));
            assert(c.channels@[0] == i);
            assert(d.channel_groups@[0] == c);
            assert(channel_group_valid(chs@, i + 1, d.name@, c));
            assert(data_group_valid(chs@, i + 1, d));
            assert(channel_group_lists(c, i as int));
            assert(data_group_lists(d, i as int));
            assert forall|k: int| 0 <= k < s.len() implies data_group_valid(chs@, i + 1, #[trigger] s[k]) by {
                if k < p {
                    assert(s[k] == o[k]);
                    lemma_data_group_valid_grow(chs@, i as int, o[k]);
                } else if k > p {
                    assert(s[k] == o[k - 1]);
                    lemma_data_group_valid_grow(chs@, i as int, o[k - 1]);
                }
            }
            assert forall|k1: int, k2: int| 0 <= k1 < k2 < s.len() implies lex_lt(
                (#[trigger] s[k1]).name@,
                (#[trigger] s[k2]).name@,
            ) by {
                if k2 < p {
                    assert(s[k1] == o[k1] && s[k2] == o[k2]);
                } else if k2 == p {
                    assert(s[k1] == o[k1]);
                } else if k1 < p {
                    assert(s[k1] == o[k1] && s[k2] == o[k2 - 1]);
                    lemma_lex_lt_transitive(o[k1].name@, d.name@, o[k2 - 1].name@);
                } else if k1 == p {
                    assert(s[k2] == o[k2 - 1]);
                } else {
                    assert(s[k1] == o[k1 - 1] && s[k2] == o[k2 - 1]);
                }
            }
            assert forall|j: int| 0 <= j < i + 1 implies #[trigger] groups_list(s, j) by {
                if j < i {
                    assert(groups_list(o, j));
                    let k = choose|k: int| 0 <= k < o.len() && #[trigger] data_group_lists(o[k], j);
                    if k < p {
                        assert(s[k] == o[k]);
                        assert(data_group_lists(s[k], j));
                    } else {
                        assert(s[k + 1] == o[k]);
                        assert(data_group_lists(s[k + 1], j));
                    }
                } else {
                    assert(s[p as int] == d);
                }
            }
        }
    }
}

/// The data group of a path: its first `/`-separated component.
pub fn data_group_name(path: &str) -> (r: String)
    ensures
        r@ == data_group_of(path@),
{
    let chars = chars_of(path);
    assert(chars@.skip(0) =~= chars@);
    let (head, _) = split_first_slash(&chars, 0);
    string_of_chars(head.as_slice())
}

/// The data group and the channel group of a path.
pub fn path_groups(path: &str) -> (r: (String, String))
    ensures
        r.0@ == data_group_of(path@),
        r.1@ == channel_group_of(path@),
{
    let chars = chars_of(path);
    assert(chars@.skip(0) =~= chars@);
    let (head, next) = split_first_slash(&chars, 0);
    let dg = string_of_chars(head.as_slice());
    let cg = match next {
        Some(j) => {
            let (second, _) = split_first_slash(&chars, j);
            string_of_chars(second.as_slice())
        },
        None => String::from_str("Ungrouped"),
    };
    (dg, cg)
}

/// Groups `channels` by data group and channel group (the first two
/// components of their path, `Ungrouped` standing for a missing second
/// one): data groups sorted by name, the channel groups of each sorted by
/// name, and the channels of each channel group sorted by name, channels of
/// the same name in their order in `channels`. Channels are given by their
/// index in `channels`.
pub(crate) fn group_of_channels(channels: &[Channel]) -> (groups: Vec<DataGroup>)
    ensures
        is_grouping(channels@, groups@),
{
    let mut groups: Vec<DataGroup> = Vec::new();
    for i in 0..channels.len()
        invariant
            groups_prefix(channels@, i as int, groups@),
    {
        let (dg, cg) = path_groups(channels[i].full_path.as_str());
        add_channel(&mut groups, channels, i, dg, cg);
    }
    groups
}

} // verus!
