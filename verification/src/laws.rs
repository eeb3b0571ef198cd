//! Properties of the signal tree that span several operations or hold of
//! every input.

use vstd::prelude::*;
use vstd::std_specs::cmp::PartialEqSpec;
use vstd::utf8::is_ascii_chars;

use crate::channel::{search_text, Channel};
use crate::grouping::{
    channel_before, channel_group_lists, channel_group_of, data_group_lists, data_group_of,
    groups_list, in_group, is_grouping, DataGroup,
};
use crate::tree::{channel_entries, passes_search};
use crate::search::{regex_error_text, regex_matches, regex_syntax_valid};
use crate::state::{
    cache_consistent, metadata_text, SignalTreeState, search_answer, selection_with, selection_without, settles,
    TreeStateView,
};
use crate::text::{
    ascii_lowercase, ascii_uppercase, is_substring, lemma_ascii_case_round_trip, lemma_lex_lt_irreflexive,
    lemma_lex_lt_transitive, lex_lt, lowercase,
};

verus! {

/// Deselecting a signal right after selecting it leaves the selection as
/// deselecting it alone would: in particular, as it was before when the
/// signal was not selected.
pub proof fn law_deselect_undoes_select(selected: Seq<Seq<char>>, name: Seq<char>)
    ensures
        selection_without(selection_with(selected, name), name) == selection_without(selected, name),
        !selected.contains(name) ==> selection_without(selection_with(selected, name), name)
            == selected,
{
    if !selected.contains(name) {
        selected.lemma_filter_push(name, crate::state::other_than(name));
        lemma_filter_keeps_all(selected, name);
    }
}

proof fn lemma_filter_keeps_all(selected: Seq<Seq<char>>, name: Seq<char>)
    requires
        !selected.contains(name),
    ensures
        selection_without(selected, name) == selected,
    decreases selected.len(),
{
    if selected.len() > 0 {
        let init = selected.drop_last();
        assert(!init.contains(name)) by {
            if init.contains(name) {
                let i = choose|i: int| 0 <= i < init.len() && init[i] == name;
                assert(selected[i] == name);
            }
        }
        lemma_filter_keeps_all(init, name);
        assert(selected.last() != name) by {
            assert(selected[selected.len() - 1] == selected.last());
        }
        init.lemma_filter_push(selected.last(), crate::state::other_than(name));
        assert(init.push(selected.last()) =~= selected);
    }
}

/// Selecting a signal twice selects it once.
pub proof fn law_select_idempotent(selected: Seq<Seq<char>>, name: Seq<char>)
    ensures
        selection_with(selection_with(selected, name), name) == selection_with(selected, name),
{
    if !selected.contains(name) {
        assert(selected.push(name)[selected.len() as int] == name);
    }
}

/// After selecting a signal it is selected; after deselecting it, it is
/// not.
pub proof fn law_select_deselect_membership(selected: Seq<Seq<char>>, name: Seq<char>)
    ensures
        selection_with(selected, name).contains(name),
        !selection_without(selected, name).contains(name),
{
    if !selected.contains(name) {
        assert(selected.push(name)[selected.len() as int] == name);
    }
    let kept = selection_without(selected, name);
    if kept.contains(name) {
        let i = choose|i: int| 0 <= i < kept.len() && kept[i] == name;
        selected.lemma_filter_pred(crate::state::other_than(name), i);
    }
}

/// Selecting and deselecting keep a selection free of duplicates.
pub proof fn law_selection_stays_without_duplicates(selected: Seq<Seq<char>>, name: Seq<char>)
    requires
        selected.no_duplicates(),
    ensures
        selection_with(selected, name).no_duplicates(),
        selection_without(selected, name).no_duplicates(),
{
    if !selected.contains(name) {
        let s = selected.push(name);
        assert forall|i: int, j: int| 0 <= i < s.len() && 0 <= j < s.len() && i != j implies s[i]
            != s[j] by {
            if i == selected.len() {
                assert(selected[j] != name);
            } else if j == selected.len() {
                assert(selected[i] != name);
            }
        }
    }
    lemma_filter_no_duplicates(selected, name);
}

proof fn lemma_filter_no_duplicates(selected: Seq<Seq<char>>, name: Seq<char>)
    requires
        selected.no_duplicates(),
    ensures
        selection_without(selected, name).no_duplicates(),
    decreases selected.len(),
{
    if selected.len() > 0 {
        let init = selected.drop_last();
        let x = selected.last();
        assert(init.no_duplicates());
        lemma_filter_no_duplicates(init, name);
        init.lemma_filter_push(x, crate::state::other_than(name));
        assert(init.push(x) =~= selected);
        if x != name {
            let f = selection_without(init, name);
            assert(!f.contains(x)) by {
                if f.contains(x) {
                    init.lemma_filter_contains_rev(crate::state::other_than(name), x);
                    assert(init.contains(x));
                    let i = choose|i: int| 0 <= i < f.len() && f[i] == x;
                    init.lemma_filter_pred(crate::state::other_than(name), i);
                    let j = choose|j: int| 0 <= j < init.len() && init[j] == x;
                    assert(selected[j] == selected[selected.len() - 1]);
                }
            }
            let s = f.push(x);
            assert forall|i: int, j: int| 0 <= i < s.len() && 0 <= j < s.len() && i != j implies s[i]
                != s[j] by {
                if i == f.len() {
                    assert(f[j] != x);
                } else if j == f.len() {
                    assert(f[i] != x);
                }
            }
        }
    }
}

/// The selection after the changes `changes` in turn: `(true, n)` selects
/// `n`, `(false, n)` deselects it (a checkbox toggle is one of these).
pub open spec fn apply_changes(selected: Seq<Seq<char>>, changes: Seq<(bool, Seq<char>)>) -> Seq<Seq<char>>
    decreases changes.len(),
{
    if changes.len() == 0 {
        selected
    } else {
        let prev = apply_changes(selected, changes.drop_last());
        let c = changes.last();
        if c.0 {
            selection_with(prev, c.1)
        } else {
            selection_without(prev, c.1)
        }
    }
}

/// After `changes`, `name` is selected: some change selected it and none
/// deselected it since.
pub open spec fn selected_after(changes: Seq<(bool, Seq<char>)>, name: Seq<char>) -> bool {
    exists|i: int|
        0 <= i < changes.len() && #[trigger] changes[i] == (true, name) && forall|j: int|
            i < j < changes.len() ==> #[trigger] changes[j] != (false, name)
}

/// Change `i` is the one that put `name` in the selection it is in after
/// `changes`: a selection of `name`, not deselected since, and the first
/// since every earlier selection of it was deselected.
pub open spec fn inserted_by(changes: Seq<(bool, Seq<char>)>, name: Seq<char>, i: int) -> bool {
    &&& 0 <= i < changes.len()
    &&& changes[i] == (true, name)
    &&& forall|j: int| i < j < changes.len() ==> #[trigger] changes[j] != (false, name)
    &&& forall|j: int|
        0 <= j < i && #[trigger] changes[j] == (true, name) ==> exists|k: int|
            j < k < i && #[trigger] changes[k] == (false, name)
}

/// Some change is the one that put `name` in the selection.
pub open spec fn has_inserting_change(changes: Seq<(bool, Seq<char>)>, name: Seq<char>) -> bool {
    exists|i: int| inserted_by(changes, name, i)
}

/// `selected` is what `changes` leave: no name twice, exactly the names
/// selected and not deselected since, each put there by some change, in
/// the order of those changes.
pub open spec fn selection_follows(changes: Seq<(bool, Seq<char>)>, selected: Seq<Seq<char>>) -> bool {
    &&& selected.no_duplicates()
    &&& forall|n: Seq<char>| #[trigger] selected.contains(n) <==> selected_after(changes, n)
    &&& forall|p: int| 0 <= p < selected.len() ==> #[trigger] has_inserting_change(changes, selected[p])
    &&& forall|p: int, q: int, ip: int, iq: int|
        0 <= p < q < selected.len() && #[trigger] inserted_by(changes, selected[p], ip)
            && #[trigger] inserted_by(changes, selected[q], iq) ==> ip < iq
}

/// The selection after any changes from an empty one (as after `new`)
/// lists each selected name exactly once, those selected and not deselected
/// since, in the order of the changes that inserted them.
pub proof fn law_selection_after_changes(changes: Seq<(bool, Seq<char>)>)
    ensures
        selection_follows(changes, apply_changes(Seq::empty(), changes)),
    decreases changes.len(),
{
    if changes.len() == 0 {
        let res = apply_changes(Seq::empty(), changes);
        assert(res.len() == 0);
        assert forall|n: Seq<char>| #[trigger] res.contains(n) <==> selected_after(changes, n) by {}
    } else {
        let init = changes.drop_last();
        law_selection_after_changes(init);
        lemma_selection_step(init, changes.last());
        assert(init.push(changes.last()) =~= changes);
    }
}

/// Facts about extending `init` by `c` shared by the three cases.
proof fn lemma_step_common(init: Seq<(bool, Seq<char>)>, c: (bool, Seq<char>))
    ensures
        forall|x: Seq<char>, i: int|
            x != c.1 && #[trigger] inserted_by(init, x, i) ==> inserted_by(init.push(c), x, i),
        c.0 ==> forall|i: int| #[trigger] inserted_by(init, c.1, i) ==> inserted_by(init.push(c), c.1, i),
        forall|x: Seq<char>|
            x != c.1 ==> (#[trigger] selected_after(init, x) <==> selected_after(init.push(c), x)),
        forall|x: Seq<char>| #[trigger] has_inserting_change(init, x) && (x != c.1 || c.0) ==> has_inserting_change(init.push(c), x),
{
    let changes = init.push(c);
    let last = init.len() as int;
    assert(changes[last] == c);
    assert forall|j: int| 0 <= j < init.len() implies #[trigger] changes[j] == init[j] by {}
    assert forall|x: Seq<char>, i: int|
        (x != c.1 || c.0) && #[trigger] inserted_by(init, x, i) implies inserted_by(changes, x, i) by {
        assert(changes[i] == init[i]);
        assert forall|j: int| i < j < changes.len() implies #[trigger] changes[j] != (false, x) by {
            if j < last {
                assert(init[j] != (false, x));
            }
        }
        assert forall|j: int| 0 <= j < i && #[trigger] changes[j] == (true, x) implies exists|k: int|
            j < k < i && #[trigger] changes[k] == (false, x) by {
            assert(init[j] == (true, x));
            let k = choose|k: int| j < k < i && #[trigger] init[k] == (false, x);
            assert(changes[k] == (false, x));
        }
    }
    assert forall|x: Seq<char>| x != c.1 implies (#[trigger] selected_after(init, x) <==> selected_after(changes, x)) by {
        if selected_after(init, x) {
            let i = choose|i: int| 0 <= i < init.len() && #[trigger] init[i] == (true, x) && forall|j: int|
                i < j < init.len() ==> #[trigger] init[j] != (false, x);
            assert(changes[i] == (true, x));
            assert forall|j: int| i < j < changes.len() implies #[trigger] changes[j] != (false, x) by {
                if j < last {
                    assert(init[j] != (false, x));
                }
            }
        }
        if selected_after(changes, x) {
            let i = choose|i: int| 0 <= i < changes.len() && #[trigger] changes[i] == (true, x) && forall|j: int|
                i < j < changes.len() ==> #[trigger] changes[j] != (false, x);
            assert(i < last);
            assert(init[i] == (true, x));
            assert forall|j: int| i < j < init.len() implies #[trigger] init[j] != (false, x) by {
                assert(changes[j] != (false, x));
            }
        }
    }
    assert forall|x: Seq<char>| #[trigger] has_inserting_change(init, x) && (x != c.1 || c.0) implies has_inserting_change(changes, x) by {
        let i = choose|i: int| inserted_by(init, x, i);
        assert(inserted_by(changes, x, i));
    }
}

proof fn lemma_selection_step(init: Seq<(bool, Seq<char>)>, c: (bool, Seq<char>))
    requires
        selection_follows(init, apply_changes(Seq::empty(), init)),
    ensures
        selection_follows(init.push(c), apply_changes(Seq::empty(), init.push(c))),
{
    let changes = init.push(c);
    assert(changes.drop_last() =~= init);
    assert(changes.last() == c);
    let prev = apply_changes(Seq::empty(), init);
    let res = apply_changes(Seq::empty(), changes);
    lemma_step_common(init, c);
    lemma_inserted_by_unique(changes);
    if c.0 {
        assert(res == selection_with(prev, c.1));
        if prev.contains(c.1) {
            lemma_select_present(init, c, prev);
        } else {
            lemma_select_absent(init, c, prev);
        }
    } else {
        assert(res == selection_without(prev, c.1));
        lemma_deselect(init, c, prev);
    }
}

proof fn lemma_select_present(init: Seq<(bool, Seq<char>)>, c: (bool, Seq<char>), prev: Seq<Seq<char>>)
    requires
        c.0,
        prev.contains(c.1),
        selection_follows(init, prev),
        forall|x: Seq<char>, i: int|
            x != c.1 && #[trigger] inserted_by(init, x, i) ==> inserted_by(init.push(c), x, i),
        forall|i: int| #[trigger] inserted_by(init, c.1, i) ==> inserted_by(init.push(c), c.1, i),
        forall|x: Seq<char>|
            x != c.1 ==> (#[trigger] selected_after(init, x) <==> selected_after(init.push(c), x)),
        forall|x: Seq<char>| #[trigger] has_inserting_change(init, x) ==> has_inserting_change(init.push(c), x),
        forall|n: Seq<char>, i1: int, i2: int|
            #[trigger] inserted_by(init.push(c), n, i1) && #[trigger] inserted_by(init.push(c), n, i2) ==> i1 == i2,
    ensures
        selection_follows(init.push(c), prev),
{
    let changes = init.push(c);
    let last = init.len() as int;
    assert(changes[last] == c);
    assert(selected_after(init, c.1));
    let i = choose|i: int| 0 <= i < init.len() && #[trigger] init[i] == (true, c.1) && forall|j: int|
        i < j < init.len() ==> #[trigger] init[j] != (false, c.1);
    assert(changes[i] == (true, c.1));
    assert forall|j: int| i < j < changes.len() implies #[trigger] changes[j] != (false, c.1) by {
        if j < last {
            assert(init[j] != (false, c.1));
        }
    }
    assert(selected_after(changes, c.1));
    assert forall|n: Seq<char>| #[trigger] prev.contains(n) <==> selected_after(changes, n) by {
        if n != c.1 {
            assert(selected_after(init, n) <==> selected_after(changes, n));
        }
    }
    assert forall|p: int| 0 <= p < prev.len() implies #[trigger] has_inserting_change(changes, prev[p]) by {
        assert(has_inserting_change(init, prev[p]));
    }
    assert forall|p: int, q: int, ip: int, iq: int|
        0 <= p < q < prev.len() && #[trigger] inserted_by(changes, prev[p], ip)
            && #[trigger] inserted_by(changes, prev[q], iq) implies ip < iq by {
        assert(has_inserting_change(init, prev[p]));
        assert(has_inserting_change(init, prev[q]));
        let ip0 = choose|i: int| inserted_by(init, prev[p], i);
        let iq0 = choose|i: int| inserted_by(init, prev[q], i);
        assert(inserted_by(changes, prev[p], ip0));
        assert(inserted_by(changes, prev[q], iq0));
    }
}

proof fn lemma_select_absent(init: Seq<(bool, Seq<char>)>, c: (bool, Seq<char>), prev: Seq<Seq<char>>)
    requires
        c.0,
        !prev.contains(c.1),
        selection_follows(init, prev),
        forall|x: Seq<char>, i: int|
            x != c.1 && #[trigger] inserted_by(init, x, i) ==> inserted_by(init.push(c), x, i),
        forall|x: Seq<char>|
            x != c.1 ==> (#[trigger] selected_after(init, x) <==> selected_after(init.push(c), x)),
        forall|x: Seq<char>| #[trigger] has_inserting_change(init, x) ==> has_inserting_change(init.push(c), x),
        forall|n: Seq<char>, i1: int, i2: int|
            #[trigger] inserted_by(init.push(c), n, i1) && #[trigger] inserted_by(init.push(c), n, i2) ==> i1 == i2,
    ensures
        selection_follows(init.push(c), prev.push(c.1)),
{
    let changes = init.push(c);
    let res = prev.push(c.1);
    let last = init.len() as int;
    assert(changes[last] == (true, c.1));
    assert(!selected_after(init, c.1));
    assert(selected_after(changes, c.1));
    assert(inserted_by(changes, c.1, last)) by {
        assert forall|j: int| 0 <= j < last && #[trigger] changes[j] == (true, c.1) implies exists|k: int|
            j < k < last && #[trigger] changes[k] == (false, c.1) by {
            assert(init[j] == changes[j]);
            if !(exists|k: int| j < k < last && #[trigger] changes[k] == (false, c.1)) {
                assert forall|k: int| j < k < init.len() implies #[trigger] init[k] != (false, c.1) by {
                    assert(changes[k] == init[k]);
                }
                assert(selected_after(init, c.1));
            }
        }
    }
    assert forall|p: int, q: int| 0 <= p < res.len() && 0 <= q < res.len() && p != q implies res[p] != res[q] by {
        if p == prev.len() {
            assert(prev[q] != c.1);
        } else if q == prev.len() {
            assert(prev[p] != c.1);
        } else {
            assert(res[p] == prev[p] && res[q] == prev[q]);
        }
    }
    assert forall|n: Seq<char>| #[trigger] res.contains(n) <==> selected_after(changes, n) by {
        if n != c.1 {
            if res.contains(n) {
                let p = choose|p: int| 0 <= p < res.len() && res[p] == n;
                assert(prev[p] == n);
            }
            if prev.contains(n) {
                let p = choose|p: int| 0 <= p < prev.len() && prev[p] == n;
                assert(res[p] == n);
            }
            assert(selected_after(init, n) <==> selected_after(changes, n));
        } else {
            assert(res[prev.len() as int] == c.1);
        }
    }
    assert forall|p: int| 0 <= p < res.len() implies #[trigger] has_inserting_change(changes, res[p]) by {
        if p < prev.len() {
            assert(res[p] == prev[p]);
            assert(has_inserting_change(init, prev[p]));
        } else {
            assert(inserted_by(changes, res[p], last));
        }
    }
    assert forall|p: int, q: int, ip: int, iq: int|
        0 <= p < q < res.len() && #[trigger] inserted_by(changes, res[p], ip)
            && #[trigger] inserted_by(changes, res[q], iq) implies ip < iq by {
        assert(res[p] == prev[p]);
        assert(prev[p] != c.1);
        assert(has_inserting_change(init, prev[p]));
        let ip0 = choose|i: int| inserted_by(init, prev[p], i);
        assert(inserted_by(changes, prev[p], ip0));
        if q < prev.len() {
            assert(res[q] == prev[q]);
            assert(prev[q] != c.1);
            assert(has_inserting_change(init, prev[q]));
            let iq0 = choose|i: int| inserted_by(init, prev[q], i);
            assert(inserted_by(changes, prev[q], iq0));
        } else {
            assert(res[q] == c.1);
            assert(iq == last);
        }
    }
}

proof fn lemma_deselect(init: Seq<(bool, Seq<char>)>, c: (bool, Seq<char>), prev: Seq<Seq<char>>)
    requires
        !c.0,
        selection_follows(init, prev),
        forall|x: Seq<char>, i: int|
            x != c.1 && #[trigger] inserted_by(init, x, i) ==> inserted_by(init.push(c), x, i),
        forall|x: Seq<char>|
            x != c.1 ==> (#[trigger] selected_after(init, x) <==> selected_after(init.push(c), x)),
        forall|x: Seq<char>| #[trigger] has_inserting_change(init, x) && x != c.1 ==> has_inserting_change(init.push(c), x),
        forall|n: Seq<char>, i1: int, i2: int|
            #[trigger] inserted_by(init.push(c), n, i1) && #[trigger] inserted_by(init.push(c), n, i2) ==> i1 == i2,
    ensures
        selection_follows(init.push(c), selection_without(prev, c.1)),
{
    let changes = init.push(c);
    let res = selection_without(prev, c.1);
    let pred = crate::state::other_than(c.1);
    let last = init.len() as int;
    assert(changes[last] == (false, c.1));
    assert(!res.contains(c.1)) by {
        if res.contains(c.1) {
            let p = choose|p: int| 0 <= p < res.len() && res[p] == c.1;
            prev.lemma_filter_pred(pred, p);
        }
    }
    lemma_filter_no_duplicates(prev, c.1);
    assert(!selected_after(changes, c.1)) by {
        if selected_after(changes, c.1) {
            let i = choose|i: int| 0 <= i < changes.len() && #[trigger] changes[i] == (true, c.1) && forall|j: int|
                i < j < changes.len() ==> #[trigger] changes[j] != (false, c.1);
        }
    }
    lemma_filter_membership(prev, c.1);
    assert forall|n: Seq<char>| #[trigger] res.contains(n) <==> selected_after(changes, n) by {
        if n != c.1 {
            assert(res.contains(n) == prev.contains(n));
            assert(selected_after(init, n) <==> selected_after(changes, n));
        }
    }
    assert forall|p: int| 0 <= p < res.len() implies #[trigger] has_inserting_change(changes, res[p]) by {
        prev.lemma_filter_pred(pred, p);
        assert(res.contains(res[p]));
        assert(prev.contains(res[p]));
        let p0 = choose|p0: int| 0 <= p0 < prev.len() && prev[p0] == res[p];
        assert(has_inserting_change(init, prev[p0]));
    }
    assert forall|p: int, q: int, ip: int, iq: int|
        0 <= p < q < res.len() && #[trigger] inserted_by(changes, res[p], ip)
            && #[trigger] inserted_by(changes, res[q], iq) implies ip < iq by {
        let (p0, q0) = lemma_filter_order(prev, pred, p, q);
        prev.lemma_filter_pred(pred, p);
        prev.lemma_filter_pred(pred, q);
        assert(has_inserting_change(init, prev[p0]));
        assert(has_inserting_change(init, prev[q0]));
        let ip0 = choose|i: int| inserted_by(init, prev[p0], i);
        let iq0 = choose|i: int| inserted_by(init, prev[q0], i);
        assert(inserted_by(changes, prev[p0], ip0));
        assert(inserted_by(changes, prev[q0], iq0));
    }
}

/// Each name has at most one inserting change.
proof fn lemma_inserted_by_unique(changes: Seq<(bool, Seq<char>)>)
    ensures
        forall|n: Seq<char>, i1: int, i2: int|
            #[trigger] inserted_by(changes, n, i1) && #[trigger] inserted_by(changes, n, i2) ==> i1 == i2,
{
    assert forall|n: Seq<char>, i1: int, i2: int|
        #[trigger] inserted_by(changes, n, i1) && #[trigger] inserted_by(changes, n, i2) implies i1 == i2 by {
        if i1 < i2 {
            assert(changes[i1] == (true, n));
            let k = choose|k: int| i1 < k < i2 && #[trigger] changes[k] == (false, n);
        } else if i2 < i1 {
            assert(changes[i2] == (true, n));
            let k = choose|k: int| i2 < k < i1 && #[trigger] changes[k] == (false, n);
        }
    }
}

/// Deselecting `name` keeps exactly the other names.
proof fn lemma_filter_membership(selected: Seq<Seq<char>>, name: Seq<char>)
    ensures
        forall|n: Seq<char>| n != name ==> (selection_without(selected, name).contains(n) <==> selected.contains(n)),
{
    let pred = crate::state::other_than(name);
    assert forall|n: Seq<char>| n != name implies (selection_without(selected, name).contains(n) <==> selected.contains(n)) by {
        if selected.contains(n) {
            let i = choose|i: int| 0 <= i < selected.len() && selected[i] == n;
            selected.lemma_filter_contains(pred, i);
        }
        if selection_without(selected, name).contains(n) {
            selected.lemma_filter_contains_rev(pred, n);
        }
    }
}

/// A filter keeps the order of what it keeps.
proof fn lemma_filter_order(s: Seq<Seq<char>>, pred: spec_fn(Seq<char>) -> bool, p: int, q: int) -> (r: (int, int))
    requires
        0 <= p < q < s.filter(pred).len(),
    ensures
        0 <= r.0 < r.1 < s.len(),
        s[r.0] == s.filter(pred)[p],
        s[r.1] == s.filter(pred)[q],
    decreases s.len(),
{
    let init = s.drop_last();
    init.lemma_filter_push(s.last(), pred);
    assert(init.push(s.last()) =~= s);
    if q < init.filter(pred).len() {
        let (p0, q0) = lemma_filter_order(init, pred, p, q);
        (p0, q0)
    } else {
        let fi = init.filter(pred);
        assert(s.filter(pred)[p] == fi[p]);
        assert(fi.contains(fi[p]));
        init.lemma_filter_contains_rev(pred, fi[p]);
        let p0 = choose|p0: int| 0 <= p0 < init.len() && init[p0] == fi[p];
        assert(s[p0] == init[p0]);
        (p0, s.len() - 1)
    }
}

/// An empty query keeps every channel, and the search changes nothing.
pub proof fn law_empty_query_keeps_everything(s: TreeStateView, t: TreeStateView, text: Seq<char>)
    requires
        s.search_query.len() == 0,
        settles(s, t),
    ensures
        t == s,
        search_answer(t, text),
{
}

/// The plain search ignores case: two non-empty queries with the same lower
/// case keep the same channels.
pub proof fn law_plain_search_same_lowercase(s: TreeStateView, query: Seq<char>, text: Seq<char>)
    requires
        !s.use_regex,
        s.search_query.len() > 0,
        query.len() > 0,
        lowercase(query) == lowercase(s.search_query),
    ensures
        search_answer(TreeStateView { search_query: query, ..s }, text) == search_answer(s, text),
{
}

/// The plain search ignores case: a non-empty ASCII query and its upper
/// case keep the same channels, whatever the channel's text.
pub proof fn law_plain_search_ignores_case(s: TreeStateView, text: Seq<char>)
    requires
        !s.use_regex,
        s.search_query.len() > 0,
        is_ascii_chars(s.search_query),
    ensures
        search_answer(TreeStateView { search_query: ascii_uppercase(s.search_query), ..s }, text)
            == search_answer(s, text),
{
    lemma_ascii_case_round_trip(s.search_query);
}

/// In regular-expression mode with a cache that belongs to the query, a
/// search keeps a channel exactly when the query compiled and matches its
/// text; a query of invalid syntax keeps no channel and leaves its syntax
/// error cached. The cache still belongs to the query afterwards.
pub proof fn law_regex_search(s: TreeStateView, t: TreeStateView, text: Seq<char>)
    requires
        s.use_regex,
        s.search_query.len() > 0,
        cache_consistent(s),
        settles(s, t),
    ensures
        cache_consistent(t),
        search_answer(t, text) == (t.compiled_pattern == Some(s.search_query) && regex_matches(
            s.search_query,
            text,
        )),
        t.compiled_pattern is Some ==> regex_syntax_valid(s.search_query),
        !regex_syntax_valid(s.search_query) ==> !search_answer(t, text) && t.regex_error == Some(
            regex_error_text(s.search_query),
        ),
{
}

/// A search keeps the cache belonging to the query when it did before.
pub proof fn law_search_keeps_cache_consistent(s: TreeStateView, t: TreeStateView)
    requires
        cache_consistent(s),
        settles(s, t),
    ensures
        cache_consistent(t),
{
}

/// Once a search has run, the state is settled: a further search changes
/// nothing, so it answers as the first did.
pub proof fn law_search_settles(s: TreeStateView, t: TreeStateView, u: TreeStateView)
    requires
        settles(s, t),
        settles(t, u),
    ensures
        u == t,
{
}

/// A channel's description mentions its name and its path, its group, and
/// that its data are not read yet.
pub proof fn law_metadata_mentions_channel(c: Channel)
    ensures
        is_substring(metadata_text(c), c.name@),
        is_substring(metadata_text(c), c.full_path@),
        is_substring(metadata_text(c), "Channel Group:"@),
        is_substring(metadata_text(c), "Data: Not yet implemented"@),
{
    reveal_strlit("Name: ");
    reveal_strlit("\nChannel Group: ");
    reveal_strlit("\nPath: ");
    reveal_strlit("\nData: Not yet implemented in rsmdf");
    reveal_strlit("Channel Group:");
    reveal_strlit("Data: Not yet implemented");
    let t = metadata_text(c);
    let g = data_group_of(c.full_path@);
    let a = "Name: "@;
    let b = "\nChannel Group: "@;
    let p = "\nPath: "@;
    let d = "\nData: Not yet implemented in rsmdf"@;
    assert(t == a + c.name@ + b + g + p + c.full_path@ + d);
    let i_name = a.len() as int;
    assert(t.subrange(i_name, i_name + c.name@.len()) =~= c.name@);
    let i_group = (a.len() + c.name@.len() + 1) as int;
    assert(t.subrange(i_group, i_group + "Channel Group:"@.len()) =~= "Channel Group:"@);
    let i_path = (a.len() + c.name@.len() + b.len() + g.len() + p.len()) as int;
    assert(t.subrange(i_path, i_path + c.full_path@.len()) =~= c.full_path@);
    let i_data = i_path + c.full_path@.len() + 1;
    assert(t.subrange(i_data, i_data + "Data: Not yet implemented"@.len())
        =~= "Data: Not yet implemented"@);
}

/// In a grouping every channel is listed exactly once, in the data group
/// and channel group of its path.
pub proof fn law_grouping_lists_each_channel_once(chs: Seq<Channel>, groups: Seq<DataGroup>, i: int)
    requires
        is_grouping(chs, groups),
        0 <= i < chs.len(),
    ensures
        exists|k: int, l: int, m: int|
            0 <= k < groups.len() && 0 <= l < groups[k].channel_groups@.len() && 0 <= m
                < groups[k].channel_groups@[l].channels@.len()
                && #[trigger] groups[k].channel_groups@[l].channels@[m] == i
                && groups[k].name@ == data_group_of(chs[i].full_path@)
                && groups[k].channel_groups@[l].name@ == channel_group_of(chs[i].full_path@),
        forall|k1: int, l1: int, m1: int, k2: int, l2: int, m2: int|
            0 <= k1 < groups.len() && 0 <= l1 < groups[k1].channel_groups@.len() && 0 <= m1
                < groups[k1].channel_groups@[l1].channels@.len() && 0 <= k2 < groups.len() && 0
                <= l2 < groups[k2].channel_groups@.len() && 0 <= m2
                < groups[k2].channel_groups@[l2].channels@.len()
                && #[trigger] groups[k1].channel_groups@[l1].channels@[m1] == i
                && #[trigger] groups[k2].channel_groups@[l2].channels@[m2] == i ==> k1 == k2 && l1
                == l2 && m1 == m2,
{
    assert(groups_list(groups, i));
    let k = choose|k: int| 0 <= k < groups.len() && #[trigger] data_group_lists(groups[k], i);
    let l = choose|l: int|
        0 <= l < groups[k].channel_groups@.len() && #[trigger] channel_group_lists(
            groups[k].channel_groups@[l],
            i,
        );
    let m = choose|m: int|
        0 <= m < groups[k].channel_groups@[l].channels@.len()
            && #[trigger] groups[k].channel_groups@[l].channels@[m] == i;
    assert(in_group(chs, i, groups[k].name@, groups[k].channel_groups@[l].name@));
    assert forall|k1: int, l1: int, m1: int, k2: int, l2: int, m2: int|
        0 <= k1 < groups.len() && 0 <= l1 < groups[k1].channel_groups@.len() && 0 <= m1
            < groups[k1].channel_groups@[l1].channels@.len() && 0 <= k2 < groups.len() && 0 <= l2
            < groups[k2].channel_groups@.len() && 0 <= m2
            < groups[k2].channel_groups@[l2].channels@.len()
            && #[trigger] groups[k1].channel_groups@[l1].channels@[m1] == i
            && #[trigger] groups[k2].channel_groups@[l2].channels@[m2] == i implies k1 == k2 && l1
        == l2 && m1 == m2 by {
        let d1 = groups[k1];
        let d2 = groups[k2];
        let c1 = d1.channel_groups@[l1];
        let c2 = d2.channel_groups@[l2];
        assert(in_group(chs, i, d1.name@, c1.name@));
        assert(in_group(chs, i, d2.name@, c2.name@));
        lemma_lex_lt_irreflexive(d1.name@);
        if k1 < k2 {
            assert(lex_lt(groups[k1].name@, groups[k2].name@));
        } else if k2 < k1 {
            assert(lex_lt(groups[k2].name@, groups[k1].name@));
        }
        assert(k1 == k2);
        lemma_lex_lt_irreflexive(c1.name@);
        if l1 < l2 {
            assert(lex_lt(d1.channel_groups@[l1].name@, d1.channel_groups@[l2].name@));
        } else if l2 < l1 {
            assert(lex_lt(d1.channel_groups@[l2].name@, d1.channel_groups@[l1].name@));
        }
        assert(l1 == l2);
        lemma_lex_lt_irreflexive(chs[i].name@);
        if m1 < m2 {
            assert(channel_before(chs, c1.channels@[m1] as int, c1.channels@[m2] as int));
        } else if m2 < m1 {
            assert(channel_before(chs, c1.channels@[m2] as int, c1.channels@[m1] as int));
        }
    }
}

/// Two sequences sorted strictly by the same strict order and holding the
/// same elements are equal.
proof fn lemma_sorted_same_elements<T>(a: Seq<T>, b: Seq<T>, lt: spec_fn(T, T) -> bool)
    requires
        forall|x: T| !#[trigger] lt(x, x),
        forall|x: T, y: T, z: T| #[trigger] lt(x, y) && #[trigger] lt(y, z) ==> lt(x, z),
        forall|i: int, j: int| 0 <= i < j < a.len() ==> lt(#[trigger] a[i], #[trigger] a[j]),
        forall|i: int, j: int| 0 <= i < j < b.len() ==> lt(#[trigger] b[i], #[trigger] b[j]),
        forall|x: T| a.contains(x) <==> b.contains(x),
    ensures
        a == b,
    decreases a.len(),
{
    if a.len() == 0 {
        if b.len() > 0 {
            assert(b.contains(b[0]));
        }
        assert(a =~= b);
    } else {
        assert(a.contains(a[0]));
        assert(b.len() > 0);
        assert(b.contains(b[0]));
        let j = choose|j: int| 0 <= j < b.len() && b[j] == a[0];
        let i = choose|i: int| 0 <= i < a.len() && a[i] == b[0];
        if j > 0 {
            assert(lt(b[0], b[j]));
            if i > 0 {
                assert(lt(a[0], a[i]));
            }
        }
        assert(a[0] == b[0]);
        let ta = a.drop_first();
        let tb = b.drop_first();
        assert forall|x: T| ta.contains(x) <==> tb.contains(x) by {
            if ta.contains(x) {
                let p = choose|p: int| 0 <= p < ta.len() && ta[p] == x;
                assert(a[p + 1] == x);
                assert(lt(a[0], a[p + 1]));
                assert(b.contains(x));
                let q = choose|q: int| 0 <= q < b.len() && b[q] == x;
                assert(q != 0);
                assert(tb[q - 1] == x);
            }
            if tb.contains(x) {
                let p = choose|p: int| 0 <= p < tb.len() && tb[p] == x;
                assert(b[p + 1] == x);
                assert(lt(b[0], b[p + 1]));
                assert(a.contains(x));
                let q = choose|q: int| 0 <= q < a.len() && a[q] == x;
                assert(q != 0);
                assert(ta[q - 1] == x);
            }
        }
        assert forall|i1: int, j1: int| 0 <= i1 < j1 < ta.len() implies lt(
            #[trigger] ta[i1],
            #[trigger] ta[j1],
        ) by {
            assert(ta[i1] == a[i1 + 1] && ta[j1] == a[j1 + 1]);
        }
        assert forall|i1: int, j1: int| 0 <= i1 < j1 < tb.len() implies lt(
            #[trigger] tb[i1],
            #[trigger] tb[j1],
        ) by {
            assert(tb[i1] == b[i1 + 1] && tb[j1] == b[j1 + 1]);
        }
        lemma_sorted_same_elements(ta, tb, lt);
        assert(a =~= seq![a[0]] + ta);
        assert(b =~= seq![b[0]] + tb);
    }
}

/// `lex_lt` as a function value.
spec fn lex_order() -> spec_fn(Seq<char>, Seq<char>) -> bool {
    |x: Seq<char>, y: Seq<char>| lex_lt(x, y)
}

/// `channel_before` on the channels of `chs`, as a function value.
spec fn channel_order(chs: Seq<Channel>) -> spec_fn(usize, usize) -> bool {
    |x: usize, y: usize| channel_before(chs, x as int, y as int)
}

proof fn lemma_lex_order_strict()
    ensures
        forall|x: Seq<char>| !#[trigger] lex_order()(x, x),
        forall|x: Seq<char>, y: Seq<char>, z: Seq<char>|
            #[trigger] lex_order()(x, y) && #[trigger] lex_order()(y, z) ==> lex_order()(x, z),
{
    assert forall|x: Seq<char>| !#[trigger] lex_order()(x, x) by {
        lemma_lex_lt_irreflexive(x);
    }
    assert forall|x: Seq<char>, y: Seq<char>, z: Seq<char>|
        #[trigger] lex_order()(x, y) && #[trigger] lex_order()(y, z) implies lex_order()(x, z) by {
        lemma_lex_lt_transitive(x, y, z);
    }
}

proof fn lemma_channel_order_strict(chs: Seq<Channel>)
    ensures
        forall|x: usize| !#[trigger] channel_order(chs)(x, x),
        forall|x: usize, y: usize, z: usize|
            #[trigger] channel_order(chs)(x, y) && #[trigger] channel_order(chs)(y, z) ==> channel_order(chs)(x, z),
{
    assert forall|x: usize| !#[trigger] channel_order(chs)(x, x) by {
        lemma_lex_lt_irreflexive(chs[x as int].name@);
    }
    assert forall|x: usize, y: usize, z: usize|
        #[trigger] channel_order(chs)(x, y) && #[trigger] channel_order(chs)(y, z) implies channel_order(chs)(x, z) by {
        let (a, b, c) = (chs[x as int].name@, chs[y as int].name@, chs[z as int].name@);
        if lex_lt(a, b) && lex_lt(b, c) {
            lemma_lex_lt_transitive(a, b, c);
        }
    }
}

/// Where channel `i` is listed in a grouping: its data group carries the
/// data group of its path and its channel group the channel group.
proof fn lemma_listed_place(chs: Seq<Channel>, g: Seq<DataGroup>, i: int) -> (r: (int, int, int))
    requires
        is_grouping(chs, g),
        0 <= i < chs.len(),
    ensures
        0 <= r.0 < g.len(),
        0 <= r.1 < g[r.0].channel_groups@.len(),
        0 <= r.2 < g[r.0].channel_groups@[r.1].channels@.len(),
        g[r.0].channel_groups@[r.1].channels@[r.2] == i,
        g[r.0].name@ == data_group_of(chs[i].full_path@),
        g[r.0].channel_groups@[r.1].name@ == channel_group_of(chs[i].full_path@),
{
    assert(groups_list(g, i));
    let k = choose|k: int| 0 <= k < g.len() && #[trigger] data_group_lists(g[k], i);
    let l = choose|l: int|
        0 <= l < g[k].channel_groups@.len() && #[trigger] channel_group_lists(g[k].channel_groups@[l], i);
    let m = choose|m: int|
        0 <= m < g[k].channel_groups@[l].channels@.len() && #[trigger] g[k].channel_groups@[l].channels@[m] == i;
    assert(in_group(chs, i, g[k].name@, g[k].channel_groups@[l].name@));
    (k, l, m)
}

/// In a grouping, data groups have distinct names, and so do the channel
/// groups of one data group.
proof fn lemma_names_distinct(chs: Seq<Channel>, g: Seq<DataGroup>)
    requires
        is_grouping(chs, g),
    ensures
        forall|k1: int, k2: int|
            0 <= k1 < g.len() && 0 <= k2 < g.len() && (#[trigger] g[k1]).name@ == (#[trigger] g[k2]).name@ ==> k1 == k2,
        forall|k: int, l1: int, l2: int|
            0 <= k < g.len() && 0 <= l1 < g[k].channel_groups@.len() && 0 <= l2 < g[k].channel_groups@.len()
                && (#[trigger] g[k].channel_groups@[l1]).name@ == (#[trigger] g[k].channel_groups@[l2]).name@ ==> l1 == l2,
{
    assert forall|k1: int, k2: int|
        0 <= k1 < g.len() && 0 <= k2 < g.len() && (#[trigger] g[k1]).name@ == (#[trigger] g[k2]).name@ implies k1 == k2 by {
        lemma_lex_lt_irreflexive(g[k1].name@);
        if k1 < k2 {
            assert(lex_lt(g[k1].name@, g[k2].name@));
        } else if k2 < k1 {
            assert(lex_lt(g[k2].name@, g[k1].name@));
        }
    }
    assert forall|k: int, l1: int, l2: int|
        0 <= k < g.len() && 0 <= l1 < g[k].channel_groups@.len() && 0 <= l2 < g[k].channel_groups@.len()
            && (#[trigger] g[k].channel_groups@[l1]).name@ == (#[trigger] g[k].channel_groups@[l2]).name@ implies l1 == l2 by {
        let d = g[k];
        assert(data_group_valid_at(chs, g, k));
        lemma_lex_lt_irreflexive(d.channel_groups@[l1].name@);
        if l1 < l2 {
            assert(lex_lt(d.channel_groups@[l1].name@, d.channel_groups@[l2].name@));
        } else if l2 < l1 {
            assert(lex_lt(d.channel_groups@[l2].name@, d.channel_groups@[l1].name@));
        }
    }
}

spec fn data_group_valid_at(chs: Seq<Channel>, g: Seq<DataGroup>, k: int) -> bool {
    crate::grouping::data_group_valid(chs, chs.len() as int, g[k])
}

/// The grouping of a channel list is unique: two groupings of the same
/// channels have the same data groups, channel groups and channels, in the
/// same order.
pub proof fn law_grouping_is_unique(chs: Seq<Channel>, g1: Seq<DataGroup>, g2: Seq<DataGroup>)
    requires
        is_grouping(chs, g1),
        is_grouping(chs, g2),
    ensures
        g1.len() == g2.len(),
        forall|k: int|
            0 <= k < g1.len() ==> {
                &&& (#[trigger] g1[k]).name@ == g2[k].name@
                &&& g1[k].channel_groups@.len() == g2[k].channel_groups@.len()
                &&& forall|l: int|
                    0 <= l < g1[k].channel_groups@.len() ==> {
                        &&& (#[trigger] g1[k].channel_groups@[l]).name@ == g2[k].channel_groups@[l].name@
                        &&& g1[k].channel_groups@[l].channels@ == g2[k].channel_groups@[l].channels@
                    }
            },
{
    lemma_lex_order_strict();
    lemma_channel_order_strict(chs);
    lemma_names_distinct(chs, g1);
    lemma_names_distinct(chs, g2);
    let n1 = g1.map_values(|d: DataGroup| d.name@);
    let n2 = g2.map_values(|d: DataGroup| d.name@);
    // The data group names of one grouping are those of the other.
    assert forall|x: Seq<char>| n1.contains(x) implies n2.contains(x) by {
        let k = choose|k: int| 0 <= k < n1.len() && n1[k] == x;
        assert(data_group_valid_at(chs, g1, k));
        let c = g1[k].channel_groups@[0];
        let i = c.channels@[0] as int;
        assert(in_group(chs, i, g1[k].name@, c.name@));
        let (k2, l2, m2) = lemma_listed_place(chs, g2, i);
        assert(n2[k2] == x);
    }
    assert forall|x: Seq<char>| n2.contains(x) implies n1.contains(x) by {
        let k = choose|k: int| 0 <= k < n2.len() && n2[k] == x;
        assert(data_group_valid_at(chs, g2, k));
        let c = g2[k].channel_groups@[0];
        let i = c.channels@[0] as int;
        assert(in_group(chs, i, g2[k].name@, c.name@));
        let (k1, l1, m1) = lemma_listed_place(chs, g1, i);
        assert(n1[k1] == x);
    }
    assert forall|i: int, j: int| 0 <= i < j < n1.len() implies lex_order()(#[trigger] n1[i], #[trigger] n1[j]) by {
        assert(lex_lt(g1[i].name@, g1[j].name@));
    }
    assert forall|i: int, j: int| 0 <= i < j < n2.len() implies lex_order()(#[trigger] n2[i], #[trigger] n2[j]) by {
        assert(lex_lt(g2[i].name@, g2[j].name@));
    }
    lemma_sorted_same_elements(n1, n2, lex_order());
    assert(g1.len() == g2.len());
    assert forall|t: int| 0 <= t < g1.len() implies (#[trigger] g1[t]).name@ == g2[t].name@ by {
        assert(n1[t] == n2[t]);
    }
    assert forall|k: int| 0 <= k < g1.len() implies {
        &&& (#[trigger] g1[k]).name@ == g2[k].name@
        &&& g1[k].channel_groups@.len() == g2[k].channel_groups@.len()
        &&& forall|l: int|
            0 <= l < g1[k].channel_groups@.len() ==> {
                &&& (#[trigger] g1[k].channel_groups@[l]).name@ == g2[k].channel_groups@[l].name@
                &&& g1[k].channel_groups@[l].channels@ == g2[k].channel_groups@[l].channels@
            }
    } by {
        assert(n1[k] == n2[k]);
        lemma_same_data_group(chs, g1, g2, k);
    }
}

/// Data group `k` of two groupings of `chs` whose data group names agree.
proof fn lemma_same_data_group(chs: Seq<Channel>, g1: Seq<DataGroup>, g2: Seq<DataGroup>, k: int)
    requires
        is_grouping(chs, g1),
        is_grouping(chs, g2),
        g1.len() == g2.len(),
        0 <= k < g1.len(),
        forall|t: int| 0 <= t < g1.len() ==> (#[trigger] g1[t]).name@ == g2[t].name@,
    ensures
        g1[k].channel_groups@.len() == g2[k].channel_groups@.len(),
        forall|l: int|
            0 <= l < g1[k].channel_groups@.len() ==> {
                &&& (#[trigger] g1[k].channel_groups@[l]).name@ == g2[k].channel_groups@[l].name@
                &&& g1[k].channel_groups@[l].channels@ == g2[k].channel_groups@[l].channels@
            },
{
    lemma_lex_order_strict();
    lemma_channel_order_strict(chs);
    lemma_names_distinct(chs, g1);
    lemma_names_distinct(chs, g2);
    let d1 = g1[k];
    let d2 = g2[k];
    assert(data_group_valid_at(chs, g1, k));
    assert(data_group_valid_at(chs, g2, k));
    let c1 = d1.channel_groups@.map_values(|c: crate::grouping::ChannelGroup| c.name@);
    let c2 = d2.channel_groups@.map_values(|c: crate::grouping::ChannelGroup| c.name@);
    assert forall|x: Seq<char>| c1.contains(x) implies c2.contains(x) by {
        let l = choose|l: int| 0 <= l < c1.len() && c1[l] == x;
        let c = d1.channel_groups@[l];
        let i = c.channels@[0] as int;
        assert(in_group(chs, i, d1.name@, c.name@));
        let (k2, l2, m2) = lemma_listed_place(chs, g2, i);
        assert(g2[k2].name@ == g2[k].name@);
        assert(k2 == k);
        assert(c2[l2] == x);
    }
    assert forall|x: Seq<char>| c2.contains(x) implies c1.contains(x) by {
        let l = choose|l: int| 0 <= l < c2.len() && c2[l] == x;
        let c = d2.channel_groups@[l];
        let i = c.channels@[0] as int;
        assert(in_group(chs, i, d2.name@, c.name@));
        let (k1, l1, m1) = lemma_listed_place(chs, g1, i);
        assert(g1[k1].name@ == g1[k].name@);
        assert(k1 == k);
        assert(c1[l1] == x);
    }
    assert forall|i: int, j: int| 0 <= i < j < c1.len() implies lex_order()(#[trigger] c1[i], #[trigger] c1[j]) by {
        assert(lex_lt(d1.channel_groups@[i].name@, d1.channel_groups@[j].name@));
    }
    assert forall|i: int, j: int| 0 <= i < j < c2.len() implies lex_order()(#[trigger] c2[i], #[trigger] c2[j]) by {
        assert(lex_lt(d2.channel_groups@[i].name@, d2.channel_groups@[j].name@));
    }
    lemma_sorted_same_elements(c1, c2, lex_order());
    assert forall|l: int| 0 <= l < d1.channel_groups@.len() implies {
        &&& (#[trigger] d1.channel_groups@[l]).name@ == d2.channel_groups@[l].name@
        &&& d1.channel_groups@[l].channels@ == d2.channel_groups@[l].channels@
    } by {
        assert(c1[l] == c2[l]);
        let a = d1.channel_groups@[l];
        let b = d2.channel_groups@[l];
        assert(crate::grouping::channel_group_valid(chs, chs.len() as int, d1.name@, a));
        assert(crate::grouping::channel_group_valid(chs, chs.len() as int, d2.name@, b));
        assert forall|x: usize| a.channels@.contains(x) implies b.channels@.contains(x) by {
            let m = choose|m: int| 0 <= m < a.channels@.len() && a.channels@[m] == x;
            assert(in_group(chs, x as int, d1.name@, a.name@));
            let (k2, l2, m2) = lemma_listed_place(chs, g2, x as int);
            assert(g2[k2].name@ == g2[k].name@);
            assert(k2 == k);
            assert(d2.channel_groups@[l2].name@ == d2.channel_groups@[l].name@);
            assert(l2 == l);
            assert(b.channels@[m2] == x);
        }
        assert forall|x: usize| b.channels@.contains(x) implies a.channels@.contains(x) by {
            let m = choose|m: int| 0 <= m < b.channels@.len() && b.channels@[m] == x;
            assert(in_group(chs, x as int, d2.name@, b.name@));
            let (k1, l1, m1) = lemma_listed_place(chs, g1, x as int);
            assert(g1[k1].name@ == g1[k].name@);
            assert(k1 == k);
            assert(d1.channel_groups@[l1].name@ == d1.channel_groups@[l].name@);
            assert(l1 == l);
            assert(a.channels@[m1] == x);
        }
        assert forall|i: int, j: int| 0 <= i < j < a.channels@.len() implies channel_order(chs)(
            #[trigger] a.channels@[i],
            #[trigger] a.channels@[j],
        ) by {
            assert(channel_before(chs, a.channels@[i] as int, a.channels@[j] as int));
        }
        assert forall|i: int, j: int| 0 <= i < j < b.channels@.len() implies channel_order(chs)(
            #[trigger] b.channels@[i],
            #[trigger] b.channels@[j],
        ) by {
            assert(channel_before(chs, b.channels@[i] as int, b.channels@[j] as int));
        }
        lemma_sorted_same_elements(a.channels@, b.channels@, channel_order(chs));
    }
}

/// `chs` holds a channel of name `name` and path `path`.
pub open spec fn has_channel(chs: Seq<Channel>, name: Seq<char>, path: Seq<char>) -> bool {
    exists|i: int| 0 <= i < chs.len() && #[trigger] chs[i].name@ == name && chs[i].full_path@ == path
}

/// No two channels of `chs` share a name.
pub open spec fn names_unique(chs: Seq<Channel>) -> bool {
    forall|i: int, j: int| 0 <= i < chs.len() && 0 <= j < chs.len() && i != j ==> #[trigger] chs[i].name@ != #[trigger] chs[j].name@
}

/// `chs1` and `chs2` hold the same channels (by name and path), in any
/// order.
pub open spec fn same_channels(chs1: Seq<Channel>, chs2: Seq<Channel>) -> bool {
    &&& forall|i: int| 0 <= i < chs1.len() ==> has_channel(chs2, #[trigger] chs1[i].name@, chs1[i].full_path@)
    &&& forall|j: int| 0 <= j < chs2.len() ==> has_channel(chs1, #[trigger] chs2[j].name@, chs2[j].full_path@)
}

/// The grouping does not depend on the order of the channels: for channels
/// of distinct names, reordering them gives the same data groups and
/// channel groups, each listing the same channels (by name and path) in the
/// same order.
pub proof fn law_grouping_ignores_channel_order(
    chs1: Seq<Channel>,
    chs2: Seq<Channel>,
    g1: Seq<DataGroup>,
    g2: Seq<DataGroup>,
)
    requires
        names_unique(chs1),
        names_unique(chs2),
        same_channels(chs1, chs2),
        is_grouping(chs1, g1),
        is_grouping(chs2, g2),
    ensures
        g1.len() == g2.len(),
        forall|k: int|
            0 <= k < g1.len() ==> {
                &&& (#[trigger] g1[k]).name@ == g2[k].name@
                &&& g1[k].channel_groups@.len() == g2[k].channel_groups@.len()
                &&& forall|l: int|
                    0 <= l < g1[k].channel_groups@.len() ==> {
                        &&& (#[trigger] g1[k].channel_groups@[l]).name@ == g2[k].channel_groups@[l].name@
                        &&& g1[k].channel_groups@[l].channels@.len() == g2[k].channel_groups@[l].channels@.len()
                        &&& forall|m: int|
                            0 <= m < g1[k].channel_groups@[l].channels@.len() ==> {
                                &&& chs1[(#[trigger] g1[k].channel_groups@[l].channels@[m]) as int].name@
                                    == chs2[g2[k].channel_groups@[l].channels@[m] as int].name@
                                &&& chs1[g1[k].channel_groups@[l].channels@[m] as int].full_path@
                                    == chs2[g2[k].channel_groups@[l].channels@[m] as int].full_path@
                            }
                    }
            },
{
    lemma_lex_order_strict();
    lemma_names_distinct(chs1, g1);
    lemma_names_distinct(chs2, g2);
    let n1 = g1.map_values(|d: DataGroup| d.name@);
    let n2 = g2.map_values(|d: DataGroup| d.name@);
    assert forall|x: Seq<char>| n1.contains(x) implies n2.contains(x) by {
        let k = choose|k: int| 0 <= k < n1.len() && n1[k] == x;
        assert(data_group_valid_at(chs1, g1, k));
        let c = g1[k].channel_groups@[0];
        let i = c.channels@[0] as int;
        assert(in_group(chs1, i, g1[k].name@, c.name@));
        assert(has_channel(chs2, chs1[i].name@, chs1[i].full_path@));
        let j = choose|j: int| 0 <= j < chs2.len() && #[trigger] chs2[j].name@ == chs1[i].name@ && chs2[j].full_path@ == chs1[i].full_path@;
        let (k2, l2, m2) = lemma_listed_place(chs2, g2, j);
        assert(n2[k2] == x);
    }
    assert forall|x: Seq<char>| n2.contains(x) implies n1.contains(x) by {
        let k = choose|k: int| 0 <= k < n2.len() && n2[k] == x;
        assert(data_group_valid_at(chs2, g2, k));
        let c = g2[k].channel_groups@[0];
        let j = c.channels@[0] as int;
        assert(in_group(chs2, j, g2[k].name@, c.name@));
        assert(has_channel(chs1, chs2[j].name@, chs2[j].full_path@));
        let i = choose|i: int| 0 <= i < chs1.len() && #[trigger] chs1[i].name@ == chs2[j].name@ && chs1[i].full_path@ == chs2[j].full_path@;
        let (k1, l1, m1) = lemma_listed_place(chs1, g1, i);
        assert(n1[k1] == x);
    }
    assert forall|i: int, j: int| 0 <= i < j < n1.len() implies lex_order()(#[trigger] n1[i], #[trigger] n1[j]) by {
        assert(lex_lt(g1[i].name@, g1[j].name@));
    }
    assert forall|i: int, j: int| 0 <= i < j < n2.len() implies lex_order()(#[trigger] n2[i], #[trigger] n2[j]) by {
        assert(lex_lt(g2[i].name@, g2[j].name@));
    }
    lemma_sorted_same_elements(n1, n2, lex_order());
    assert forall|t: int| 0 <= t < g1.len() implies (#[trigger] g1[t]).name@ == g2[t].name@ by {
        assert(n1[t] == n2[t]);
    }
    assert forall|k: int| 0 <= k < g1.len() implies {
        &&& (#[trigger] g1[k]).name@ == g2[k].name@
        &&& g1[k].channel_groups@.len() == g2[k].channel_groups@.len()
        &&& forall|l: int|
            0 <= l < g1[k].channel_groups@.len() ==> {
                &&& (#[trigger] g1[k].channel_groups@[l]).name@ == g2[k].channel_groups@[l].name@
                &&& g1[k].channel_groups@[l].channels@.len() == g2[k].channel_groups@[l].channels@.len()
                &&& forall|m: int|
                    0 <= m < g1[k].channel_groups@[l].channels@.len() ==> {
                        &&& chs1[(#[trigger] g1[k].channel_groups@[l].channels@[m]) as int].name@
                            == chs2[g2[k].channel_groups@[l].channels@[m] as int].name@
                        &&& chs1[g1[k].channel_groups@[l].channels@[m] as int].full_path@
                            == chs2[g2[k].channel_groups@[l].channels@[m] as int].full_path@
                    }
            }
    } by {
        lemma_reordered_data_group(chs1, chs2, g1, g2, k);
    }
}

/// Data group `k` of the groupings of two orders of the same channels.
proof fn lemma_reordered_data_group(chs1: Seq<Channel>, chs2: Seq<Channel>, g1: Seq<DataGroup>, g2: Seq<DataGroup>, k: int)
    requires
        names_unique(chs1),
        names_unique(chs2),
        same_channels(chs1, chs2),
        is_grouping(chs1, g1),
        is_grouping(chs2, g2),
        g1.len() == g2.len(),
        0 <= k < g1.len(),
        forall|t: int| 0 <= t < g1.len() ==> (#[trigger] g1[t]).name@ == g2[t].name@,
    ensures
        g1[k].channel_groups@.len() == g2[k].channel_groups@.len(),
        forall|l: int|
            0 <= l < g1[k].channel_groups@.len() ==> {
                &&& (#[trigger] g1[k].channel_groups@[l]).name@ == g2[k].channel_groups@[l].name@
                &&& g1[k].channel_groups@[l].channels@.len() == g2[k].channel_groups@[l].channels@.len()
                &&& forall|m: int|
                    0 <= m < g1[k].channel_groups@[l].channels@.len() ==> {
                        &&& chs1[(#[trigger] g1[k].channel_groups@[l].channels@[m]) as int].name@
                            == chs2[g2[k].channel_groups@[l].channels@[m] as int].name@
                        &&& chs1[g1[k].channel_groups@[l].channels@[m] as int].full_path@
                            == chs2[g2[k].channel_groups@[l].channels@[m] as int].full_path@
                    }
            },
{
    lemma_lex_order_strict();
    lemma_names_distinct(chs1, g1);
    lemma_names_distinct(chs2, g2);
    let d1 = g1[k];
    let d2 = g2[k];
    assert(data_group_valid_at(chs1, g1, k));
    assert(data_group_valid_at(chs2, g2, k));
    let c1 = d1.channel_groups@.map_values(|c: crate::grouping::ChannelGroup| c.name@);
    let c2 = d2.channel_groups@.map_values(|c: crate::grouping::ChannelGroup| c.name@);
    assert forall|x: Seq<char>| c1.contains(x) implies c2.contains(x) by {
        let l = choose|l: int| 0 <= l < c1.len() && c1[l] == x;
        let c = d1.channel_groups@[l];
        let i = c.channels@[0] as int;
        assert(in_group(chs1, i, d1.name@, c.name@));
        assert(has_channel(chs2, chs1[i].name@, chs1[i].full_path@));
        let j = choose|j: int| 0 <= j < chs2.len() && #[trigger] chs2[j].name@ == chs1[i].name@ && chs2[j].full_path@ == chs1[i].full_path@;
        let (k2, l2, m2) = lemma_listed_place(chs2, g2, j);
        assert(g2[k2].name@ == g2[k].name@);
        assert(k2 == k);
        assert(c2[l2] == x);
    }
    assert forall|x: Seq<char>| c2.contains(x) implies c1.contains(x) by {
        let l = choose|l: int| 0 <= l < c2.len() && c2[l] == x;
        let c = d2.channel_groups@[l];
        let j = c.channels@[0] as int;
        assert(in_group(chs2, j, d2.name@, c.name@));
        assert(has_channel(chs1, chs2[j].name@, chs2[j].full_path@));
        let i = choose|i: int| 0 <= i < chs1.len() && #[trigger] chs1[i].name@ == chs2[j].name@ && chs1[i].full_path@ == chs2[j].full_path@;
        let (k1, l1, m1) = lemma_listed_place(chs1, g1, i);
        assert(g1[k1].name@ == g1[k].name@);
        assert(k1 == k);
        assert(c1[l1] == x);
    }
    assert forall|i: int, j: int| 0 <= i < j < c1.len() implies lex_order()(#[trigger] c1[i], #[trigger] c1[j]) by {
        assert(lex_lt(d1.channel_groups@[i].name@, d1.channel_groups@[j].name@));
    }
    assert forall|i: int, j: int| 0 <= i < j < c2.len() implies lex_order()(#[trigger] c2[i], #[trigger] c2[j]) by {
        assert(lex_lt(d2.channel_groups@[i].name@, d2.channel_groups@[j].name@));
    }
    lemma_sorted_same_elements(c1, c2, lex_order());
    assert forall|t: int| 0 <= t < g1[k].channel_groups@.len() implies (#[trigger] g1[k].channel_groups@[t]).name@ == g2[k].channel_groups@[t].name@ by {
        assert(c1[t] == c2[t]);
    }
    assert forall|l: int| 0 <= l < d1.channel_groups@.len() implies {
        &&& (#[trigger] d1.channel_groups@[l]).name@ == d2.channel_groups@[l].name@
        &&& d1.channel_groups@[l].channels@.len() == d2.channel_groups@[l].channels@.len()
        &&& forall|m: int|
            0 <= m < d1.channel_groups@[l].channels@.len() ==> {
                &&& chs1[(#[trigger] d1.channel_groups@[l].channels@[m]) as int].name@
                    == chs2[d2.channel_groups@[l].channels@[m] as int].name@
                &&& chs1[d1.channel_groups@[l].channels@[m] as int].full_path@
                    == chs2[d2.channel_groups@[l].channels@[m] as int].full_path@
            }
    } by {
        assert(c1[l] == c2[l]);
        lemma_reordered_channel_group(chs1, chs2, g1, g2, k, l);
    }
}

/// Channel group `l` of data group `k` of the groupings of two orders of the
/// same channels, whose data groups and channel groups agree by name.
proof fn lemma_reordered_channel_group(chs1: Seq<Channel>, chs2: Seq<Channel>, g1: Seq<DataGroup>, g2: Seq<DataGroup>, k: int, l: int)
    requires
        names_unique(chs1),
        names_unique(chs2),
        same_channels(chs1, chs2),
        is_grouping(chs1, g1),
        is_grouping(chs2, g2),
        g1.len() == g2.len(),
        0 <= k < g1.len(),
        forall|t: int| 0 <= t < g1.len() ==> (#[trigger] g1[t]).name@ == g2[t].name@,
        g1[k].channel_groups@.len() == g2[k].channel_groups@.len(),
        0 <= l < g1[k].channel_groups@.len(),
        forall|t: int| 0 <= t < g1[k].channel_groups@.len() ==> (#[trigger] g1[k].channel_groups@[t]).name@ == g2[k].channel_groups@[t].name@,
    ensures
        g1[k].channel_groups@[l].channels@.len() == g2[k].channel_groups@[l].channels@.len(),
        forall|m: int|
            0 <= m < g1[k].channel_groups@[l].channels@.len() ==> {
                &&& chs1[(#[trigger] g1[k].channel_groups@[l].channels@[m]) as int].name@
                    == chs2[g2[k].channel_groups@[l].channels@[m] as int].name@
                &&& chs1[g1[k].channel_groups@[l].channels@[m] as int].full_path@
                    == chs2[g2[k].channel_groups@[l].channels@[m] as int].full_path@
            },
{
    lemma_lex_order_strict();
    lemma_names_distinct(chs1, g1);
    lemma_names_distinct(chs2, g2);
    let d1 = g1[k];
    let d2 = g2[k];
    assert(data_group_valid_at(chs1, g1, k));
    assert(data_group_valid_at(chs2, g2, k));
    let a = d1.channel_groups@[l];
    let b = d2.channel_groups@[l];
    assert(crate::grouping::channel_group_valid(chs1, chs1.len() as int, d1.name@, a));
    assert(crate::grouping::channel_group_valid(chs2, chs2.len() as int, d2.name@, b));
    let na = a.channels@.map_values(|i: usize| chs1[i as int].name@);
    let nb = b.channels@.map_values(|j: usize| chs2[j as int].name@);
    assert forall|x: Seq<char>| na.contains(x) implies nb.contains(x) by {
        let m = choose|m: int| 0 <= m < na.len() && na[m] == x;
        let i = a.channels@[m] as int;
        assert(in_group(chs1, i, d1.name@, a.name@));
        assert(has_channel(chs2, chs1[i].name@, chs1[i].full_path@));
        let j = choose|j: int| 0 <= j < chs2.len() && #[trigger] chs2[j].name@ == chs1[i].name@ && chs2[j].full_path@ == chs1[i].full_path@;
        let (k2, l2, m2) = lemma_listed_place(chs2, g2, j);
        assert(g2[k2].name@ == g2[k].name@);
        assert(k2 == k);
        assert(d2.channel_groups@[l2].name@ == d2.channel_groups@[l].name@);
        assert(l2 == l);
        assert(nb[m2] == x);
    }
    assert forall|x: Seq<char>| nb.contains(x) implies na.contains(x) by {
        let m = choose|m: int| 0 <= m < nb.len() && nb[m] == x;
        let j = b.channels@[m] as int;
        assert(in_group(chs2, j, d2.name@, b.name@));
        assert(has_channel(chs1, chs2[j].name@, chs2[j].full_path@));
        let i = choose|i: int| 0 <= i < chs1.len() && #[trigger] chs1[i].name@ == chs2[j].name@ && chs1[i].full_path@ == chs2[j].full_path@;
        let (k1, l1, m1) = lemma_listed_place(chs1, g1, i);
        assert(g1[k1].name@ == g1[k].name@);
        assert(k1 == k);
        assert(d1.channel_groups@[l1].name@ == d1.channel_groups@[l].name@);
        assert(l1 == l);
        assert(na[m1] == x);
    }
    assert forall|i: int, j: int| 0 <= i < j < na.len() implies lex_order()(#[trigger] na[i], #[trigger] na[j]) by {
        assert(channel_before(chs1, a.channels@[i] as int, a.channels@[j] as int));
        if chs1[a.channels@[i] as int].name@ == chs1[a.channels@[j] as int].name@ {
            assert(a.channels@[i] as int == a.channels@[j] as int);
        }
    }
    assert forall|i: int, j: int| 0 <= i < j < nb.len() implies lex_order()(#[trigger] nb[i], #[trigger] nb[j]) by {
        assert(channel_before(chs2, b.channels@[i] as int, b.channels@[j] as int));
        if chs2[b.channels@[i] as int].name@ == chs2[b.channels@[j] as int].name@ {
            assert(b.channels@[i] as int == b.channels@[j] as int);
        }
    }
    lemma_sorted_same_elements(na, nb, lex_order());
    assert forall|m: int| 0 <= m < a.channels@.len() implies {
        &&& chs1[(#[trigger] a.channels@[m]) as int].name@ == chs2[b.channels@[m] as int].name@
        &&& chs1[a.channels@[m] as int].full_path@ == chs2[b.channels@[m] as int].full_path@
    } by {
        assert(na[m] == nb[m]);
        let i = a.channels@[m] as int;
        let j = b.channels@[m] as int;
        assert(has_channel(chs1, chs2[j].name@, chs2[j].full_path@));
        let i2 = choose|i2: int| 0 <= i2 < chs1.len() && #[trigger] chs1[i2].name@ == chs2[j].name@ && chs1[i2].full_path@ == chs2[j].full_path@;
        assert(i2 == i);
    }
}

/// The order of names is the dictionary order on characters: a proper
/// prefix sorts first (so "rpm" before "rpms").
pub proof fn law_lex_lt_prefix_first(a: Seq<char>, b: Seq<char>)
    requires
        a.len() < b.len(),
        a == b.take(a.len() as int),
    ensures
        lex_lt(a, b),
        !lex_lt(b, a),
    decreases a.len(),
{
    if a.len() > 0 {
        assert(a[0] == b[0]);
        assert(a.drop_first() =~= b.drop_first().take(a.drop_first().len() as int));
        law_lex_lt_prefix_first(a.drop_first(), b.drop_first());
    }
}

/// The order of names is the dictionary order on characters: at the first
/// position where two names differ, the smaller character (by code point)
/// sorts first, whatever the lengths (so "angle" before "rpm", and "Body"
/// before "Chassis" before "Engine").
pub proof fn law_lex_lt_first_difference(a: Seq<char>, b: Seq<char>, i: int)
    requires
        0 <= i < a.len(),
        i < b.len(),
        a.take(i) == b.take(i),
        a[i] != b[i],
    ensures
        lex_lt(a, b) == ((a[i] as int) < (b[i] as int)),
    decreases i,
{
    if i > 0 {
        assert(a[0] == a.take(i)[0] && b[0] == b.take(i)[0]);
        assert(a.drop_first().take(i - 1) =~= b.drop_first().take(i - 1)) by {
            assert forall|t: int| 0 <= t < i - 1 implies #[trigger] a.drop_first().take(i - 1)[t] == b.drop_first().take(i - 1)[t] by {
                assert(a.take(i)[t + 1] == b.take(i)[t + 1]);
                assert(a.take(i)[t + 1] == a[t + 1] && b.take(i)[t + 1] == b[t + 1]);
                assert(a.drop_first().take(i - 1)[t] == a[t + 1]);
                assert(b.drop_first().take(i - 1)[t] == b[t + 1]);
            }
        }
        law_lex_lt_first_difference(a.drop_first(), b.drop_first(), i - 1);
    }
}

/// The channel group of a path is its second `/`-separated component alone
/// (it never holds a `/`), and the data group its first, whatever follows.
pub proof fn law_path_components(a: Seq<char>, b: Seq<char>, rest: Seq<char>)
    requires
        !a.contains('/'),
        !b.contains('/'),
    ensures
        data_group_of(a) == a,
        channel_group_of(a) == "Ungrouped"@,
        data_group_of(a + seq!['/'] + rest) == a,
        channel_group_of(a + seq!['/'] + b) == b,
        channel_group_of(a + seq!['/'] + b + seq!['/'] + rest) == b,
        !channel_group_of(a + seq!['/'] + rest).contains('/'),
{
    lemma_first_slash(a, seq![]);
    lemma_first_slash(a, rest);
    lemma_first_slash(a, b);
    lemma_first_slash(b, seq![]);
    lemma_first_slash(b, rest);
    assert(a + seq!['/'] + b + seq!['/'] + rest =~= a + seq!['/'] + (b + seq!['/'] + rest));
    lemma_first_slash(a, b + seq!['/'] + rest);
    assert(a + seq![] =~= a);
    lemma_channel_group_slash_free(a + seq!['/'] + rest);
}

/// A path cut at the first `/`: `a` before it, `rest` after.
proof fn lemma_first_slash(a: Seq<char>, rest: Seq<char>)
    requires
        !a.contains('/'),
    ensures
        crate::text::split_at_first_slash(a) == (a, Option::<Seq<char>>::None),
        crate::text::split_at_first_slash(a + seq!['/'] + rest) == (a, Some(rest)),
{
    a.index_of_first_ensures('/');
    let s = a + seq!['/'] + rest;
    s.index_of_first_ensures('/');
    assert(s[a.len() as int] == '/');
    assert(s.contains('/'));
    let k = s.index_of_first('/').unwrap();
    assert(k == a.len()) by {
        if k < a.len() {
            assert(s[k] == a[k]);
            assert(a.contains('/'));
        }
    }
    assert(s.take(k) =~= a);
    assert(s.skip(k + 1) =~= rest);
}

/// No channel group name holds a `/`.
pub proof fn lemma_channel_group_slash_free(path: Seq<char>)
    ensures
        !channel_group_of(path).contains('/'),
{
    reveal_strlit("Ungrouped");
    match crate::text::split_at_first_slash(path).1 {
        Some(rest) => {
            rest.index_of_first_ensures('/');
            let g = channel_group_of(path);
            if g.contains('/') {
                let t = choose|t: int| 0 <= t < g.len() && g[t] == '/';
                match rest.index_of_first('/') {
                    Some(k) => {
                        assert(g == rest.take(k));
                        assert(rest[t] == '/');
                    },
                    None => {
                        assert(g == rest);
                    },
                }
            }
        },
        None => {
            if "Ungrouped"@.contains('/') {
                let t = choose|t: int| 0 <= t < "Ungrouped"@.len() && "Ungrouped"@[t] == '/';
            }
        },
    }
}

/// The text a channel is searched by holds its name and its full path.
pub proof fn law_search_text_holds_name_and_path(c: Channel)
    ensures
        is_substring(search_text(c), c.name@),
        is_substring(search_text(c), c.full_path@),
        search_text(c).len() == c.name@.len() + 1 + c.full_path@.len(),
{
    let t = search_text(c);
    let z: int = 0;
    assert(t.subrange(z, z + c.name@.len()) =~= c.name@);
    let i: int = c.name@.len() as int + 1;
    assert(t.subrange(i, i + c.full_path@.len()) =~= c.full_path@);
}

/// In plain mode the channel's text is read ignoring case: two texts with
/// the same lower case are kept or dropped alike, ASCII or not.
pub proof fn law_plain_search_reads_text_ignoring_case(t: TreeStateView, text: Seq<char>, text2: Seq<char>)
    requires
        !t.use_regex,
        lowercase(text) == lowercase(text2),
    ensures
        search_answer(t, text) == search_answer(t, text2),
{
}

/// In plain mode, a query found in a channel's name or path, ignoring
/// case, keeps the channel (ASCII texts): a query on the data group or the
/// channel group finds the channels below it.
pub proof fn law_plain_search_finds_name_or_path(t: TreeStateView, c: Channel)
    requires
        !t.use_regex,
        is_ascii_chars(c.name@),
        is_ascii_chars(c.full_path@),
        is_ascii_chars(t.search_query),
        is_substring(lowercase(c.name@), lowercase(t.search_query)) || is_substring(
            lowercase(c.full_path@),
            lowercase(t.search_query),
        ),
    ensures
        search_answer(t, search_text(c)),
{
    if t.search_query.len() > 0 {
        let text = search_text(c);
        assert(is_ascii_chars(text)) by {
            assert forall|i: int| 0 <= i < text.len() implies '\0' <= #[trigger] text[i] <= '\u{7f}' by {
                if i < c.name@.len() {
                    assert(text[i] == c.name@[i]);
                } else if i > c.name@.len() {
                    assert(text[i] == c.full_path@[i - c.name@.len() - 1]);
                }
            }
        }
        let ln = ascii_lowercase(c.name@);
        let lp = ascii_lowercase(c.full_path@);
        let lt = ascii_lowercase(text);
        assert(lt =~= ln + seq![' '] + lp);
        let q = lowercase(t.search_query);
        if is_substring(ln, q) {
            let i = choose|i: int| 0 <= i && i + q.len() <= ln.len() && #[trigger] ln.subrange(i, i + q.len()) == q;
            assert(lt.subrange(i, i + q.len()) =~= ln.subrange(i, i + q.len()));
        } else {
            let i = choose|i: int| 0 <= i && i + q.len() <= lp.len() && #[trigger] lp.subrange(i, i + q.len()) == q;
            let o: int = ln.len() as int + 1;
            assert(lt.subrange(o + i, o + i + q.len()) =~= lp.subrange(i, i + q.len()));
        }
    }
}

/// The tree shows exactly the channels that `matches_search` keeps: every
/// shown entry is a member that passes the search of its name and path,
/// with its selected flag; every member that passes is shown.
pub proof fn law_tree_shows_matching_channels(s: TreeStateView, chs: Seq<Channel>, members: Seq<usize>)
    ensures
        forall|k: int|
            0 <= k < channel_entries(s, chs, members).len() ==> {
                let e = #[trigger] channel_entries(s, chs, members)[k];
                &&& members.contains(e.0)
                &&& search_answer(s, search_text(chs[e.0 as int]))
                &&& e.1 == s.selected.contains(chs[e.0 as int].name@)
            },
        forall|i: usize|
            #[trigger] members.contains(i) && search_answer(s, search_text(chs[i as int])) ==> exists|k: int|
                0 <= k < channel_entries(s, chs, members).len() && channel_entries(s, chs, members)[k].0 == i,
{
    let pred = passes_search(s, chs);
    let f = members.filter(pred);
    let es = channel_entries(s, chs, members);
    assert forall|k: int| 0 <= k < es.len() implies {
        let e = #[trigger] es[k];
        &&& members.contains(e.0)
        &&& search_answer(s, search_text(chs[e.0 as int]))
        &&& e.1 == s.selected.contains(chs[e.0 as int].name@)
    } by {
        members.lemma_filter_pred(pred, k);
        assert(f.contains(f[k]));
        members.lemma_filter_contains_rev(pred, f[k]);
    }
    assert forall|i: usize| #[trigger] members.contains(i) && search_answer(s, search_text(chs[i as int])) implies exists|k: int|
        0 <= k < es.len() && es[k].0 == i by {
        let m = choose|m: int| 0 <= m < members.len() && members[m] == i;
        members.lemma_filter_contains(pred, m);
        let k = choose|k: int| 0 <= k < f.len() && f[k] == i;
        assert(es[k].0 == i);
    }
}

/// Two states are equal exactly when their selections, expanded flags,
/// queries and search modes are; the regular-expression cache does not
/// count.
pub proof fn law_equality_compares_persisted_fields(a: SignalTreeState, b: SignalTreeState)
    ensures
        a.eq_spec(&b) <==> {
            &&& a@.selected == b@.selected
            &&& a@.expanded == b@.expanded
            &&& a@.search_query == b@.search_query
            &&& a@.use_regex == b@.use_regex
        },
{
}

} // verus!
