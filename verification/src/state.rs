//! The state of the signal tree panel: the selected signals, the
//! expanded-group flags, the search query and its mode, and the regular
//! expression compiled for it.

use vstd::prelude::*;

use crate::channel::{search_text, search_text_of, Channel};
use crate::grouping::{
    data_group_name, data_group_of, group_of_channels, is_grouping, ChannelGroup, DataGroup,
};
use crate::search::{
    compile_pattern, regex_syntax_valid, regex_error_text, regex_is_match, regex_matches,
    CompiledSearch,
};
use crate::tree::{
    channel_entries, channel_group_entries, data_group_has_channels, entry_of, group_entry,
    indices_below, lists_some_channel, passes_search, shown_channels_view, shown_groups_view, shows_some, some_group_listed,
    VisibleChannel, VisibleChannelGroup, VisibleDataGroup,
};
use crate::text::{is_substring, lowercase, str_contains, to_lowercase};

verus! {

/// What a `SignalTreeState` holds, as mathematical values.
pub struct TreeStateView {
    /// The names of the selected signals, in selection order.
    pub selected: Seq<Seq<char>>,
    /// The expanded flag of each group name.
    pub expanded: Map<Seq<char>, bool>,
    /// The search query.
    pub search_query: Seq<char>,
    /// Whether the query is a regular expression.
    pub use_regex: bool,
    /// The pattern of the cached compiled regular expression, if any.
    pub compiled_pattern: Option<Seq<char>>,
    /// The cached message of the last failed compilation, if any.
    pub regex_error: Option<Seq<char>>,
}

/// The names of a list of strings.
pub open spec fn names_of(v: Seq<String>) -> Seq<Seq<char>> {
    v.map_values(|s: String| s@)
}

/// The group names of a list of (group name, expanded) pairs.
pub open spec fn pair_keys(pairs: Seq<(String, bool)>) -> Seq<Seq<char>> {
    pairs.map_values(|p: (String, bool)| p.0@)
}

/// The expanded flags that a list of (group name, expanded) pairs stands
/// for: each name listed, with the flag of its pair (the first one, should
/// a name be listed twice).
pub open spec fn pairs_map(pairs: Seq<(String, bool)>) -> Map<Seq<char>, bool> {
    Map::new(
        |k: Seq<char>| pair_keys(pairs).contains(k),
        |k: Seq<char>| pairs[pair_keys(pairs).index_of_first(k).unwrap()].1,
    )
}

/// A search in state `s` first compiles the query: regular-expression
/// mode, a non-empty query, and nothing cached.
pub open spec fn needs_compile(s: TreeStateView) -> bool {
    s.search_query.len() > 0 && s.use_regex && s.compiled_pattern is None && s.regex_error is None
}

/// `t` is `s` after compiling `pattern` with an outcome that
/// `regex::Regex::new` can give: the compiled expression cached (valid
/// syntax only), or an error message cached, which for invalid syntax is
/// the syntax error's message.
pub open spec fn compiled_into(s: TreeStateView, pattern: Seq<char>, t: TreeStateView) -> bool {
    ||| {
        &&& t == (TreeStateView { compiled_pattern: Some(pattern), regex_error: None, ..s })
        &&& regex_syntax_valid(pattern)
    }
    ||| {
        &&& t == (TreeStateView { compiled_pattern: None, regex_error: t.regex_error, ..s })
        &&& t.regex_error is Some
        &&& !regex_syntax_valid(pattern) ==> t.regex_error == Some(regex_error_text(pattern))
    }
}

/// `t` is the state a search in `s` leaves: the query compiled when
/// `needs_compile(s)`, otherwise `s` itself.
pub open spec fn settles(s: TreeStateView, t: TreeStateView) -> bool {
    if needs_compile(s) {
        compiled_into(s, s.search_query, t)
    } else {
        t == s
    }
}

/// The state with no compiled expression and no error cached.
pub open spec fn without_regex_cache(s: TreeStateView) -> TreeStateView {
    TreeStateView { compiled_pattern: None, regex_error: None, ..s }
}

/// Whether a search keeps a channel whose search text is `text`, in the
/// state `t` it leaves: every channel for an empty query; in plain mode,
/// when the lower-case query occurs in the lower-case text; in
/// regular-expression mode, when no error is cached and the cached
/// expression matches the text.
pub open spec fn search_answer(t: TreeStateView, text: Seq<char>) -> bool {
    if t.search_query.len() == 0 {
        true
    } else if !t.use_regex {
        is_substring(lowercase(text), lowercase(t.search_query))
    } else {
        match t.regex_error {
            Some(_) => false,
            None => match t.compiled_pattern {
                Some(p) => regex_matches(p, text),
                None => false,
            },
        }
    }
}

/// Every cached compiled pattern is valid syntax.
pub open spec fn cache_valid(s: TreeStateView) -> bool {
    s.compiled_pattern matches Some(p) ==> regex_syntax_valid(p)
}

/// The cache belongs to the current query: a cached expression was
/// compiled from it (so it is valid syntax), a cached error came from
/// compiling it (for invalid syntax, its syntax error), and never both.
pub open spec fn cache_consistent(s: TreeStateView) -> bool {
    &&& s.compiled_pattern matches Some(p) ==> p == s.search_query && regex_syntax_valid(p)
    &&& s.regex_error is Some ==> s.compiled_pattern is None
    &&& s.regex_error is Some && !regex_syntax_valid(s.search_query) ==> s.regex_error == Some(
        regex_error_text(s.search_query),
    )
}

/// The expanded flag of each group, as (group name, expanded) pairs.
struct ExpandedGroups {
    pairs: Vec<(String, bool)>,
}

impl ExpandedGroups {
    /// Each group name has one pair.
    #[verifier::type_invariant]
    spec fn names_distinct(self) -> bool {
        pair_keys(self.pairs@).no_duplicates()
    }
}

/// Selection, search and grouping state of the signal tree panel.
pub struct SignalTreeState {
    selected_signals: Vec<String>,
    expanded_groups: ExpandedGroups,
    pub search_query: String,
    pub use_regex: bool,
    compiled_regex: Option<CompiledSearch>,
    regex_error: Option<String>,
}

impl View for SignalTreeState {
    type V = TreeStateView;

    closed spec fn view(&self) -> TreeStateView {
        TreeStateView {
            selected: names_of(self.selected_signals@),
            expanded: pairs_map(self.expanded_groups.pairs@),
            search_query: self.search_query@,
            use_regex: self.use_regex,
            compiled_pattern: match self.compiled_regex {
                Some(c) => Some(c.pattern()),
                None => None,
            },
            regex_error: match self.regex_error {
                Some(e) => Some(e@),
                None => None,
            },
        }
    }
}

/// The empty state: nothing selected, no expanded flags, an empty plain
/// query, nothing cached.
pub open spec fn empty_state() -> TreeStateView {
    TreeStateView {
        selected: Seq::empty(),
        expanded: Map::empty(),
        search_query: Seq::empty(),
        use_regex: false,
        compiled_pattern: None,
        regex_error: None,
    }
}

/// Whether `name` is among `v`.
fn contains_name(v: &Vec<String>, name: &String) -> (b: bool)
    ensures
        b == names_of(v@).contains(name@),
{
    let mut i: usize = 0;
    while i < v.len()
        invariant
            i <= v@.len(),
            forall|k: int| 0 <= k < i ==> v@[k]@ != name@,
        decreases v@.len() - i,
    {
        if v[i] == *name {
            assert(names_of(v@)[i as int] == name@);
            return true;
        }
        i = i + 1;
    }
    proof {
        if names_of(v@).contains(name@) {
            let k = choose|k: int| 0 <= k < names_of(v@).len() && names_of(v@)[k] == name@;
            assert(v@[k]@ == name@);
        }
    }
    false
}

impl SignalTreeState {
    /// A state with the given selection, expanded flags (one pair per group
    /// name), query and mode, and nothing cached.
    pub fn from_parts(
        selected_signals: Vec<String>,
        expanded_groups: Vec<(String, bool)>,
        search_query: String,
        use_regex: bool,
    ) -> (s: Self)
        requires
            pair_keys(expanded_groups@).no_duplicates(),
        ensures
            s@.selected == names_of(selected_signals@),
            s@.expanded == pairs_map(expanded_groups@),
            s@.search_query == search_query@,
            s@.use_regex == use_regex,
            s@.compiled_pattern is None,
            s@.regex_error is None,
    {
        SignalTreeState {
            selected_signals,
            expanded_groups: ExpandedGroups { pairs: expanded_groups },
            search_query,
            use_regex,
            compiled_regex: None,
            regex_error: None,
        }
    }

    /// The (group name, expanded) pairs the state holds.
    pub fn get_expanded_groups(&self) -> (r: &[(String, bool)])
        ensures
            pairs_map(r@) == self@.expanded,
            pair_keys(r@).no_duplicates(),
    {
        proof {
            use_type_invariant(&self.expanded_groups);
        }
        self.expanded_groups.pairs.as_slice()
    }

    /// The cached message of the last failed compilation, if any.
    pub fn get_regex_error(&self) -> (r: Option<&String>)
        ensures
            r matches Some(e) ==> self@.regex_error == Some(e@),
            r is None ==> self@.regex_error is None,
    {
        match &self.regex_error {
            Some(e) => Some(e),
            None => None,
        }
    }

    /// A new state: nothing selected, empty plain query.
    pub fn new() -> (s: Self)
        ensures
            s@ == empty_state(),
    {
        let s = SignalTreeState {
            selected_signals: Vec::new(),
            expanded_groups: ExpandedGroups { pairs: Vec::new() },
            search_query: String::new(),
            use_regex: false,
            compiled_regex: None,
            regex_error: None,
        };
        assert(s@.selected =~= Seq::<Seq<char>>::empty());
        assert(s@.expanded =~= Map::<Seq<char>, bool>::empty());
        s
    }

    /// The cached compiled pattern, if any, is valid syntax.
    fn note_cache_valid(&self)
        ensures
            cache_valid(self@),
    {
        match &self.compiled_regex {
            Some(c) => {
                proof {
                    use_type_invariant(c);
                }
            },
            None => {},
        }
    }

    /// Records the outcome of compiling a pattern: the compiled expression,
    /// or the error message, replacing whatever was cached.
    pub fn record_compilation(&mut self, outcome: Result<CompiledSearch, String>)
        ensures
            final(self)@ == (match outcome {
                Ok(c) => TreeStateView {
                    compiled_pattern: Some(c.pattern()),
                    regex_error: None,
                    ..old(self)@
                },
                Err(e) => TreeStateView {
                    compiled_pattern: None,
                    regex_error: Some(e@),
                    ..old(self)@
                },
            }),
            cache_valid(final(self)@),
    {
        match outcome {
            Ok(c) => {
                proof {
                    use_type_invariant(&c);
                }
                self.compiled_regex = Some(c);
                self.regex_error = None;
            },
            Err(e) => {
                self.compiled_regex = None;
                self.regex_error = Some(e);
            },
        }
    }

    /// Brings the cache up to date after the query or its mode was edited:
    /// in regular-expression mode with a query, compiles the query;
    /// otherwise clears the cache.
    pub fn refresh_regex(&mut self)
        ensures
            (if old(self)@.use_regex && old(self)@.search_query.len() > 0 {
                compiled_into(old(self)@, old(self)@.search_query, final(self)@)
            } else {
                final(self)@ == without_regex_cache(old(self)@)
            }),
            cache_valid(final(self)@),
    {
        if self.use_regex && !self.search_query.as_str().is_empty() {
            let outcome = compile_pattern(self.search_query.as_str());
            self.record_compilation(outcome);
        } else {
            self.compiled_regex = None;
            self.regex_error = None;
        }
    }

    /// Sets the search query; when it differs from the current one, the
    /// cached regular expression and error are dropped.
    pub fn set_search_query(&mut self, query: String)
        ensures
            final(self)@ == (if old(self)@.search_query == query@ {
                old(self)@
            } else {
                without_regex_cache(TreeStateView { search_query: query@, ..old(self)@ })
            }),
            cache_valid(final(self)@),
    {
        self.note_cache_valid();
        if !(self.search_query == query) {
            self.search_query = query;
            self.compiled_regex = None;
            self.regex_error = None;
        }
    }

    /// Switches between plain and regular-expression search; the cache is
    /// left as it is, as when the checkbox writes the flag.
    pub fn set_use_regex(&mut self, use_regex: bool)
        ensures
            final(self)@ == (TreeStateView { use_regex, ..old(self)@ }),
            cache_valid(final(self)@),
    {
        self.note_cache_valid();
        self.use_regex = use_regex;
    }

    /// Compiles the query when a search needs it (see `needs_compile`).
    fn settle(&mut self)
        ensures
            settles(old(self)@, final(self)@),
            cache_valid(final(self)@),
    {
        self.note_cache_valid();
        if self.use_regex && !self.search_query.as_str().is_empty() && self.compiled_regex.is_none()
            && self.regex_error.is_none() {
            let outcome = compile_pattern(self.search_query.as_str());
            self.record_compilation(outcome);
        }
    }

    /// Whether `channel` passes the search. In regular-expression mode the
    /// query is compiled on first use and the outcome cached; the answer is
    /// that of the state the search leaves.
    pub fn matches_search(&mut self, channel: &Channel) -> (b: bool)
        ensures
            settles(old(self)@, final(self)@),
            b == search_answer(final(self)@, search_text(*channel)),
            cache_valid(final(self)@),
    {
        if self.search_query.as_str().is_empty() {
            self.note_cache_valid();
            return true;
        }
        self.settle();
        let text = search_text_of(channel);
        if self.use_regex {
            if self.regex_error.is_some() {
                return false;
            }
            match &self.compiled_regex {
                Some(c) => regex_is_match(c, text.as_str()),
                None => false,
            }
        } else {
            let lower_text = to_lowercase(text.as_str());
            let lower_query = to_lowercase(self.search_query.as_str());
            str_contains(lower_text.as_str(), lower_query.as_str())
        }
    }
}

/// `s` with the selection `selected`.
pub open spec fn with_selection(s: TreeStateView, selected: Seq<Seq<char>>) -> TreeStateView {
    TreeStateView { selected, ..s }
}

/// The description of a channel: its name, its data group and its path,
/// one per line, then a line on its data.
pub open spec fn metadata_text(c: Channel) -> Seq<char> {
    "Name: "@ + c.name@ + "\nChannel Group: "@ + data_group_of(c.full_path@) + "\nPath: "@
        + c.full_path@ + "\nData: Not yet implemented in rsmdf"@
}

/// The flag that `m` gives `key`, if any.
pub open spec fn flag_of(m: Map<Seq<char>, bool>, key: Seq<char>) -> Option<bool> {
    if m.dom().contains(key) {
        Some(m[key])
    } else {
        None
    }
}

/// The flag of `key` in a list of (group name, expanded) pairs: that of its
/// first pair.
fn lookup_flag(pairs: &Vec<(String, bool)>, key: &String) -> (r: Option<bool>)
    ensures
        r == flag_of(pairs_map(pairs@), key@),
{
    let ghost keys = pair_keys(pairs@);
    let mut i: usize = 0;
    while i < pairs.len()
        invariant
            i <= pairs@.len(),
            keys == pair_keys(pairs@),
            forall|j: int| 0 <= j < i ==> keys[j] != key@,
        decreases pairs@.len() - i,
    {
        if pairs[i].0 == *key {
            proof {
                assert(keys[i as int] == key@);
                keys.index_of_first_ensures(key@);
                let f = keys.index_of_first(key@).unwrap();
                assert(f == i) by {
                    if f < i {
                        assert(keys[f] != key@);
                    }
                }
            }
            return Some(pairs[i].1);
        }
        i = i + 1;
    }
    proof {
        if keys.contains(key@) {
            let j = choose|j: int| 0 <= j < keys.len() && keys[j] == key@;
            assert(keys[j] != key@);
        }
    }
    None
}

/// Whether two lists of (group name, expanded) pairs stand for the same
/// flags.
fn same_flags(a: &Vec<(String, bool)>, b: &Vec<(String, bool)>) -> (r: bool)
    ensures
        r == (pairs_map(a@) == pairs_map(b@)),
{
    let ghost ma = pairs_map(a@);
    let ghost mb = pairs_map(b@);
    let mut i: usize = 0;
    while i < a.len()
        invariant
            i <= a@.len(),
            ma == pairs_map(a@),
            mb == pairs_map(b@),
            forall|j: int| 0 <= j < i ==> flag_of(ma, #[trigger] a@[j].0@) == flag_of(mb, a@[j].0@),
        decreases a@.len() - i,
    {
        if lookup_flag(a, &a[i].0) != lookup_flag(b, &a[i].0) {
            return false;
        }
        i = i + 1;
    }
    let mut j: usize = 0;
    while j < b.len()
        invariant
            j <= b@.len(),
            ma == pairs_map(a@),
            mb == pairs_map(b@),
            forall|t: int| 0 <= t < a@.len() ==> flag_of(ma, #[trigger] a@[t].0@) == flag_of(mb, a@[t].0@),
            forall|t: int| 0 <= t < j ==> flag_of(ma, #[trigger] b@[t].0@) == flag_of(mb, b@[t].0@),
        decreases b@.len() - j,
    {
        if lookup_flag(a, &b[j].0) != lookup_flag(b, &b[j].0) {
            return false;
        }
        j = j + 1;
    }
    proof {
        assert forall|k: Seq<char>| #[trigger] ma.dom().contains(k) <==> mb.dom().contains(k) by {
            if ma.dom().contains(k) {
                let t = choose|t: int| 0 <= t < pair_keys(a@).len() && pair_keys(a@)[t] == k;
                assert(a@[t].0@ == k);
            }
            if mb.dom().contains(k) {
                let t = choose|t: int| 0 <= t < pair_keys(b@).len() && pair_keys(b@)[t] == k;
                assert(b@[t].0@ == k);
            }
        }
        assert forall|k: Seq<char>| ma.dom().contains(k) implies ma[k] == mb[k] by {
            let t = choose|t: int| 0 <= t < pair_keys(a@).len() && pair_keys(a@)[t] == k;
            assert(a@[t].0@ == k);
            assert(flag_of(ma, k) == flag_of(mb, k));
        }
        assert(ma =~= mb);
    }
    true
}

/// Whether two lists of strings hold the same strings in the same order.
fn same_names(a: &Vec<String>, b: &Vec<String>) -> (r: bool)
    ensures
        r == (names_of(a@) == names_of(b@)),
{
    if a.len() != b.len() {
        assert(names_of(a@).len() != names_of(b@).len());
        return false;
    }
    let mut i: usize = 0;
    while i < a.len()
        invariant
            i <= a@.len(),
            a@.len() == b@.len(),
            forall|j: int| 0 <= j < i ==> #[trigger] a@[j]@ == b@[j]@,
        decreases a@.len() - i,
    {
        if !(a[i] == b[i]) {
            assert(names_of(a@)[i as int] != names_of(b@)[i as int]);
            return false;
        }
        i = i + 1;
    }
    assert(names_of(a@) =~= names_of(b@));
    true
}

impl Default for SignalTreeState {
    fn default() -> (s: Self)
        ensures
            s@ == empty_state(),
    {
        SignalTreeState::new()
    }
}

impl PartialEq for SignalTreeState {
    /// Two states are equal when their selections, expanded flags, queries
    /// and modes are; the cached expression and error are not compared.
    fn eq(&self, other: &Self) -> (r: bool) {
        same_names(&self.selected_signals, &other.selected_signals) && same_flags(
            &self.expanded_groups.pairs,
            &other.expanded_groups.pairs,
        ) && self.search_query == other.search_query && self.use_regex == other.use_regex
    }
}

impl vstd::std_specs::cmp::PartialEqSpecImpl for SignalTreeState {
    open spec fn obeys_eq_spec() -> bool {
        true
    }

    open spec fn eq_spec(&self, other: &SignalTreeState) -> bool {
        &&& self@.selected == other@.selected
        &&& self@.expanded == other@.expanded
        &&& self@.search_query == other@.search_query
        &&& self@.use_regex == other@.use_regex
    }
}

/// Whether some channel group of `groups` lists a channel.
fn lists_channels(groups: &Vec<DataGroup>) -> (b: bool)
    ensures
        b == lists_some_channel(groups@),
{
    let mut k: usize = 0;
    while k < groups.len()
        invariant
            k <= groups@.len(),
            forall|t: int| 0 <= t < k ==> !data_group_has_channels(#[trigger] groups@[t]),
        decreases groups@.len() - k,
    {
        let cgs = &groups[k].channel_groups;
        let mut l: usize = 0;
        while l < cgs.len()
            invariant
                k < groups@.len(),
                l <= cgs@.len(),
                *cgs == groups@[k as int].channel_groups,
                forall|t: int| 0 <= t < l ==> (#[trigger] cgs@[t]).channels@.len() == 0,
            decreases cgs@.len() - l,
        {
            if cgs[l].channels.len() > 0 {
                assert(groups@[k as int].channel_groups@[l as int].channels@.len() > 0);
                assert(data_group_has_channels(groups@[k as int]));
                return true;
            }
            l = l + 1;
        }
        k = k + 1;
    }
    false
}

/// The selection after selecting `name`: appended, unless already there.
pub open spec fn selection_with(selected: Seq<Seq<char>>, name: Seq<char>) -> Seq<Seq<char>> {
    if selected.contains(name) {
        selected
    } else {
        selected.push(name)
    }
}

/// The selection after deselecting `name`: every entry of that name
/// dropped, the others in their order.
pub open spec fn selection_without(selected: Seq<Seq<char>>, name: Seq<char>) -> Seq<Seq<char>> {
    selected.filter(other_than(name))
}

/// The test "is not `name`".
pub open spec fn other_than(name: Seq<char>) -> spec_fn(Seq<char>) -> bool {
    |n: Seq<char>| n != name
}

proof fn lemma_selection_without_push(selected: Seq<Seq<char>>, x: Seq<char>, name: Seq<char>)
    ensures
        selection_without(selected.push(x), name) == if x != name {
            selection_without(selected, name).push(x)
        } else {
            selection_without(selected, name)
        },
{
    selected.lemma_filter_push(x, other_than(name));
}

impl SignalTreeState {
    /// Selects the signal `channel_name`, appended after the selected ones;
    /// a signal already selected stays where it is.
    pub fn select_channel(&mut self, channel_name: String)
        ensures
            final(self)@ == with_selection(old(self)@, selection_with(old(self)@.selected, channel_name@)),
    {
        if !contains_name(&self.selected_signals, &channel_name) {
            let ghost name = channel_name@;
            self.selected_signals.push(channel_name);
            assert(names_of(self.selected_signals@) =~= old(self)@.selected.push(name));
        }
    }

    /// Deselects the signal `channel_name`: every selection of that name is
    /// dropped, the others keep their order.
    pub fn deselect_channel(&mut self, channel_name: &str)
        ensures
            final(self)@ == with_selection(old(self)@, selection_without(old(self)@.selected, channel_name@)),
    {
        let target = String::from_str(channel_name);
        let ghost name = channel_name@;
        let ghost old_names = names_of(self.selected_signals@);
        let mut kept: Vec<String> = Vec::new();
        let len = self.selected_signals.len();
        for i in 0..len
            invariant
                len == self.selected_signals@.len(),
                old_names == names_of(self.selected_signals@),
                target@ == name,
                names_of(kept@) == selection_without(old_names.take(i as int), name),
        {
            proof {
                assert(old_names.take(i + 1) =~= old_names.take(i as int).push(old_names[i as int]));
                lemma_selection_without_push(old_names.take(i as int), old_names[i as int], name);
            }
            if !(self.selected_signals[i] == target) {
                let s = self.selected_signals[i].clone();
                let ghost before = kept@;
                kept.push(s);
                assert(names_of(kept@) =~= names_of(before).push(s@));
            }
        }
        assert(old_names.take(len as int) =~= old_names);
        self.selected_signals = kept;
    }

    /// Groups `channels` by data group and channel group; see
    /// `is_grouping` for the order of each level. Channels are given by
    /// their index in `channels`.
    pub fn group_channels(&self, channels: &[Channel]) -> (groups: Vec<DataGroup>)
        ensures
            is_grouping(channels@, groups@),
    {
        group_of_channels(channels)
    }

    /// A description of `channel`: its name, its data group (the first
    /// component of its path) and its path, one per line, then a line on
    /// its data.
    pub fn get_channel_metadata(&self, channel: &Channel) -> (text: String)
        ensures
            text@ == metadata_text(*channel),
    {
        let group = data_group_name(channel.full_path.as_str());
        let mut text = String::from_str("Name: ");
        text.append(channel.name.as_str());
        text.append("\nChannel Group: ");
        text.append(group.as_str());
        text.append("\nPath: ");
        text.append(channel.full_path.as_str());
        text.append("\nData: Not yet implemented in rsmdf");
        text
    }

    /// The channels of `members` that pass the search, each with whether
    /// it is selected. The search needs no compilation, so the state stays.
    fn visible_channels(&mut self, channels: &[Channel], members: &Vec<usize>) -> (shown: Vec<VisibleChannel>)
        requires
            forall|m: int| 0 <= m < members@.len() ==> #[trigger] members@[m] < channels@.len(),
            !needs_compile(old(self)@) || members@.len() == 0,
        ensures
            final(self)@ == old(self)@,
            shown_channels_view(shown@) == channel_entries(old(self)@, channels@, members@),
    {
        let ghost s0 = self@;
        let mut shown: Vec<VisibleChannel> = Vec::new();
        let len = members.len();
        assert(members@.take(0) =~= Seq::<usize>::empty());
        assert(shown_channels_view(shown@) =~= Seq::<(usize, bool)>::empty());
        for m in 0..len
            invariant
                len == members@.len(),
                forall|t: int| 0 <= t < members@.len() ==> #[trigger] members@[t] < channels@.len(),
                !needs_compile(s0) || len == 0,
                self@ == s0,
                shown_channels_view(shown@) == channel_entries(s0, channels@, members@.take(m as int)),
        {
            let idx = members[m];
            let ghost before = shown@;
            proof {
                assert(members@.take(m + 1) =~= members@.take(m as int).push(idx));
                members@.take(m as int).lemma_filter_push(idx, passes_search(s0, channels@));
            }
            let keep = self.matches_search(&channels[idx]);
            if keep {
                let selected = contains_name(&self.selected_signals, &channels[idx].name);
                shown.push(VisibleChannel { index: idx, selected });
                proof {
                    let f = entry_of(s0, channels@);
                    members@.take(m as int).filter(passes_search(s0, channels@)).lemma_push_map_commute(f, idx);
                    assert(shown_channels_view(shown@) =~= shown_channels_view(before).push((idx, selected)));
                }
            }
        }
        assert(members@.take(len as int) =~= members@);
        shown
    }

    /// The channel groups of `cgs` that keep at least one channel after
    /// the search. The search needs no compilation, so the state stays.
    fn visible_channel_groups(&mut self, channels: &[Channel], cgs: &Vec<ChannelGroup>) -> (shown: Vec<VisibleChannelGroup>)
        requires
            forall|l: int, m: int|
                0 <= l < cgs@.len() && 0 <= m < cgs@[l].channels@.len() ==> #[trigger] cgs@[l].channels@[m] < channels@.len(),
            !needs_compile(old(self)@) || !some_group_listed(cgs@),
        ensures
            final(self)@ == old(self)@,
            shown_groups_view(shown@) == channel_group_entries(old(self)@, channels@, cgs@),
    {
        let ghost s0 = self@;
        let mut shown: Vec<VisibleChannelGroup> = Vec::new();
        let len = cgs.len();
        assert(cgs@.take(0) =~= Seq::<ChannelGroup>::empty());
        assert(shown_groups_view(shown@) =~= Seq::<(Seq<char>, Seq<(usize, bool)>)>::empty());
        for l in 0..len
            invariant
                len == cgs@.len(),
                forall|t: int, m: int|
                    0 <= t < cgs@.len() && 0 <= m < cgs@[t].channels@.len() ==> #[trigger] cgs@[t].channels@[m] < channels@.len(),
                !needs_compile(s0) || !some_group_listed(cgs@),
                self@ == s0,
                shown_groups_view(shown@) == channel_group_entries(s0, channels@, cgs@.take(l as int)),
        {
            let c = &cgs[l];
            let ghost before = shown@;
            proof {
                assert(cgs@.take(l + 1) =~= cgs@.take(l as int).push(*c));
                cgs@.take(l as int).lemma_push_map_commute(group_entry(s0, channels@), *c);
                cgs@.take(l as int).map_values(group_entry(s0, channels@)).lemma_filter_push(
                    group_entry(s0, channels@)(*c),
                    shows_some(),
                );
                if c.channels@.len() > 0 {
                    assert(cgs@[l as int] == *c);
                    assert(some_group_listed(cgs@));
                }
            }
            let entries = self.visible_channels(channels, &c.channels);
            if entries.len() > 0 {
                let name = c.name.clone();
                shown.push(VisibleChannelGroup { name, channels: entries });
                assert(shown_groups_view(shown@) =~= shown_groups_view(before).push(group_entry(s0, channels@)(*c)));
            }
        }
        assert(cgs@.take(len as int) =~= cgs@);
        shown
    }

    /// What the tree shows of `groups`: for each data group in order, its
    /// channel groups that keep at least one channel after the search, with
    /// those channels and whether each is selected. When some channel is
    /// listed, the state is the one a search leaves (the query compiled and
    /// cached when needed), and every answer is that of this state.
    pub fn visible_tree(&mut self, channels: &[Channel], groups: &Vec<DataGroup>) -> (tree: Vec<VisibleDataGroup>)
        requires
            indices_below(groups@, channels@.len() as int),
        ensures
            (if lists_some_channel(groups@) {
                settles(old(self)@, final(self)@)
            } else {
                final(self)@ == old(self)@
            }),
            cache_valid(final(self)@),
            tree@.len() == groups@.len(),
            forall|k: int|
                0 <= k < groups@.len() ==> {
                    &&& (#[trigger] tree@[k]).name@ == groups@[k].name@
                    &&& shown_groups_view(tree@[k].channel_groups@) == channel_group_entries(
                        final(self)@,
                        channels@,
                        groups@[k].channel_groups@,
                    )
                },
    {
        self.note_cache_valid();
        if lists_channels(groups) {
            self.settle();
        }
        let ghost s0 = self@;
        let mut tree: Vec<VisibleDataGroup> = Vec::new();
        let len = groups.len();
        for k in 0..len
            invariant
                len == groups@.len(),
                indices_below(groups@, channels@.len() as int),
                !needs_compile(s0) || !lists_some_channel(groups@),
                self@ == s0,
                tree@.len() == k,
                forall|t: int|
                    0 <= t < k ==> {
                        &&& (#[trigger] tree@[t]).name@ == groups@[t].name@
                        &&& shown_groups_view(tree@[t].channel_groups@) == channel_group_entries(
                            s0,
                            channels@,
                            groups@[t].channel_groups@,
                        )
                    },
        {
            let d = &groups[k];
            proof {
                if data_group_has_channels(*d) {
                    assert(groups@[k as int] == *d);
                    assert(lists_some_channel(groups@));
                }
                assert forall|l: int, m: int|
                    0 <= l < d.channel_groups@.len() && 0 <= m < d.channel_groups@[l].channels@.len() implies #[trigger] d.channel_groups@[l].channels@[m] < channels@.len() by {
                    assert(groups@[k as int].channel_groups@[l].channels@[m] < channels@.len());
                }
            }
            let cgs = self.visible_channel_groups(channels, &d.channel_groups);
            let name = d.name.clone();
            tree.push(VisibleDataGroup { name, channel_groups: cgs });
        }
        tree
    }

    /// The selected signals, in selection order.
    pub fn get_selected_signals(&self) -> (r: &[String])
        ensures
            names_of(r@) == self@.selected,
    {
        self.selected_signals.as_slice()
    }

    /// Applies a checkbox change of the tree: selects the signal when
    /// checked, deselects it otherwise.
    pub fn set_channel_selected(&mut self, channel_name: String, selected: bool)
        ensures
            final(self)@ == with_selection(
                old(self)@,
                if selected {
                    selection_with(old(self)@.selected, channel_name@)
                } else {
                    selection_without(old(self)@.selected, channel_name@)
                },
            ),
    {
        if selected {
            self.select_channel(channel_name);
        } else {
            self.deselect_channel(channel_name.as_str());
        }
    }
}

} // verus!
