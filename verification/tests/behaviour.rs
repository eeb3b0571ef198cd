use signal_tree::grouping::{data_group_name, path_groups};
use signal_tree::text::{chars_of, contains_chars, split_first_slash, str_contains, str_lt, string_of_chars};
use signal_tree::{Channel, DataGroup, SignalTreeState};

fn ch(name: &str, path: &str) -> Channel {
    Channel::new(name.to_string(), path.to_string())
}

fn names(groups: &[DataGroup]) -> Vec<String> {
    groups.iter().map(|g| g.name.clone()).collect()
}

#[test]
fn grouping_sorts_each_level_and_places_every_channel() {
    let channels = vec![
        ch("zeta", "B/y/zeta"),
        ch("alpha", "B/x/alpha"),
        ch("beta", "A/x/beta"),
        ch("alpha", "B/x/alpha"),
        ch("gamma", "B/x/gamma"),
        ch("solo", "solo"),
    ];
    let state = SignalTreeState::new();
    let groups = state.group_channels(&channels);
    assert_eq!(names(&groups), vec!["A", "B", "solo"]);

    let a = &groups[0];
    assert_eq!(a.channel_groups.len(), 1);
    assert_eq!(a.channel_groups[0].name, "x");
    assert_eq!(a.channel_groups[0].channels, vec![2]);

    let b = &groups[1];
    let cg_names: Vec<&str> = b.channel_groups.iter().map(|c| c.name.as_str()).collect();
    assert_eq!(cg_names, vec!["x", "y"]);
    // Sorted by name; the two channels named "alpha" keep their order.
    assert_eq!(b.channel_groups[0].channels, vec![1, 3, 4]);
    assert_eq!(b.channel_groups[1].channels, vec![0]);

    let solo = &groups[2];
    assert_eq!(solo.channel_groups.len(), 1);
    assert_eq!(solo.channel_groups[0].name, "Ungrouped");
    assert_eq!(solo.channel_groups[0].channels, vec![5]);

    let mut listed: Vec<usize> = groups
        .iter()
        .flat_map(|d| d.channel_groups.iter().flat_map(|c| c.channels.iter().copied()))
        .collect();
    listed.sort();
    assert_eq!(listed, vec![0, 1, 2, 3, 4, 5]);
}

#[test]
fn grouping_of_no_channels_is_empty() {
    let state = SignalTreeState::new();
    assert!(state.group_channels(&[]).is_empty());
}

#[test]
fn path_components() {
    assert_eq!(path_groups("DG0/CG1/speed"), ("DG0".to_string(), "CG1".to_string()));
    assert_eq!(path_groups("DG0/CG1"), ("DG0".to_string(), "CG1".to_string()));
    assert_eq!(path_groups("DG0"), ("DG0".to_string(), "Ungrouped".to_string()));
    assert_eq!(path_groups(""), ("".to_string(), "Ungrouped".to_string()));
    assert_eq!(path_groups("/x"), ("".to_string(), "x".to_string()));
    assert_eq!(path_groups("a//b"), ("a".to_string(), "".to_string()));
    assert_eq!(path_groups("Ä/ö/ü"), ("Ä".to_string(), "ö".to_string()));
    assert_eq!(data_group_name("g/h/i"), "g");
    assert_eq!(data_group_name("plain"), "plain");
}

#[test]
fn text_helpers() {
    assert_eq!(chars_of("aé/"), vec!['a', 'é', '/']);
    assert_eq!(string_of_chars(&['x', 'ß', 'y']), "xßy");
    assert!(str_contains("hello world", "o w"));
    assert!(str_contains("abc", ""));
    assert!(!str_contains("abc", "abcd"));
    assert!(!str_contains("abc", "ac"));
    assert!(contains_chars(&vec!['a', 'b'], &vec!['b']));
    assert!(str_lt("a", "b"));
    assert!(str_lt("abc", "abd"));
    assert!(str_lt("ab", "abc"));
    assert!(str_lt("", "a"));
    assert!(!str_lt("a", "a"));
    assert!(!str_lt("é", "z"));
    assert!(str_lt("Z", "a"));
    let v = chars_of("ab/cd/ef");
    assert_eq!(split_first_slash(&v, 0), (vec!['a', 'b'], Some(3)));
    assert_eq!(split_first_slash(&v, 3), (vec!['c', 'd'], Some(6)));
    assert_eq!(split_first_slash(&v, 6), (vec!['e', 'f'], None));
}

#[test]
fn metadata_text_is_exact() {
    let state = SignalTreeState::new();
    let text = state.get_channel_metadata(&ch("speed", "DG3/CG1/speed"));
    assert_eq!(
        text,
        "Name: speed\nChannel Group: DG3\nPath: DG3/CG1/speed\nData: Not yet implemented in rsmdf"
    );
    let text = state.get_channel_metadata(&ch("x", "x"));
    assert_eq!(text, "Name: x\nChannel Group: x\nPath: x\nData: Not yet implemented in rsmdf");
}

#[test]
fn selecting_twice_keeps_one_entry_and_order() {
    let mut state = SignalTreeState::new();
    state.select_channel("a".to_string());
    state.select_channel("b".to_string());
    state.select_channel("a".to_string());
    assert_eq!(state.get_selected_signals(), &["a".to_string(), "b".to_string()]);
    state.deselect_channel("a");
    assert_eq!(state.get_selected_signals(), &["b".to_string()]);
    state.deselect_channel("missing");
    assert_eq!(state.get_selected_signals(), &["b".to_string()]);
}

#[test]
fn deselect_after_select_restores_selection() {
    let mut state = SignalTreeState::new();
    state.select_channel("x".to_string());
    state.select_channel("y".to_string());
    let before: Vec<String> = state.get_selected_signals().to_vec();
    state.select_channel("z".to_string());
    state.deselect_channel("z");
    assert_eq!(state.get_selected_signals(), before.as_slice());
}

#[test]
fn deselect_drops_every_entry_of_the_name() {
    let mut state = SignalTreeState::from_parts(
        vec!["a".to_string(), "b".to_string(), "a".to_string()],
        vec![],
        String::new(),
        false,
    );
    state.deselect_channel("a");
    assert_eq!(state.get_selected_signals(), &["b".to_string()]);
}

#[test]
fn checkbox_changes_select_and_deselect() {
    let mut state = SignalTreeState::new();
    state.set_channel_selected("s".to_string(), true);
    assert_eq!(state.get_selected_signals(), &["s".to_string()]);
    state.set_channel_selected("s".to_string(), false);
    assert!(state.get_selected_signals().is_empty());
}

#[test]
fn empty_query_keeps_every_channel_in_both_modes() {
    let mut state = SignalTreeState::new();
    assert!(state.matches_search(&ch("anything", "a/b/anything")));
    state.use_regex = true;
    assert!(state.matches_search(&ch("anything", "a/b/anything")));
    assert!(state.get_regex_error().is_none());
}

#[test]
fn plain_search_ignores_case_and_spans_name_and_path() {
    let mut state = SignalTreeState::new();
    let c = ch("EngineSpeed", "Powertrain/CAN1/EngineSpeed");
    state.set_search_query("enginespeed".to_string());
    assert!(state.matches_search(&c));
    state.set_search_query("ENGINESPEED".to_string());
    assert!(state.matches_search(&c));
    state.set_search_query("speed powertrain".to_string());
    assert!(state.matches_search(&c));
    state.set_search_query("can1/engine".to_string());
    assert!(state.matches_search(&c));
    state.set_search_query("brake".to_string());
    assert!(!state.matches_search(&c));
    // Plain mode takes regular-expression syntax literally.
    state.set_search_query("engine.*".to_string());
    assert!(!state.matches_search(&c));
    state.set_search_query("ÄRGER".to_string());
    assert!(state.matches_search(&ch("ärger", "x/y/ärger")));
}

#[test]
fn regex_search_matches_and_caches() {
    let mut state = SignalTreeState::new();
    state.use_regex = true;
    state.set_search_query("^Eng.*x$".to_string());
    assert!(!state.matches_search(&ch("EngineSpeed", "P/C/EngineSpeed")));
    state.set_search_query(r"^Eng\w*\s".to_string());
    assert!(state.matches_search(&ch("EngineSpeed", "P/C/EngineSpeed")));
    assert!(!state.matches_search(&ch("engine", "P/C/engine")));
    assert!(state.get_regex_error().is_none());
}

#[test]
fn invalid_regex_reports_an_error_and_matches_nothing() {
    let mut state = SignalTreeState::new();
    state.use_regex = true;
    state.set_search_query("(unclosed".to_string());
    assert!(!state.matches_search(&ch("unclosed", "a/b/unclosed")));
    let error = state.get_regex_error().cloned().expect("an error is cached");
    assert!(!error.is_empty());
    assert_ne!(error, "(unclosed");
    // The same query keeps the cached error; another query drops it.
    state.set_search_query("(unclosed".to_string());
    assert!(state.get_regex_error().is_some());
    state.set_search_query("ok".to_string());
    assert!(state.get_regex_error().is_none());
}

#[test]
fn set_use_regex_switches_mode_and_keeps_cache() {
    let mut state = SignalTreeState::new();
    state.set_search_query("a.c".to_string());
    assert!(!state.matches_search(&ch("abc", "x/y/abc")));
    state.set_use_regex(true);
    assert!(state.use_regex);
    assert!(state.matches_search(&ch("abc", "x/y/abc")));
    state.set_search_query("[".to_string());
    assert!(!state.matches_search(&ch("abc", "x/y/abc")));
    assert!(state.get_regex_error().is_some());
    state.set_use_regex(false);
    assert!(!state.use_regex);
    assert!(state.get_regex_error().is_some());
    assert!(!state.matches_search(&ch("abc", "x/y/abc")));
    assert!(state.matches_search(&ch("a[b", "x/y/a[b")));
}

#[test]
fn ascii_query_and_its_upper_case_keep_the_same_channels() {
    let channels = vec![
        ch("engineSpeed", "DG0/CG0/engineSpeed"),
        ch("Größe", "DG0/CG1/Größe"),
        ch("time", "DG1/CG0/time"),
    ];
    for query in ["eng", "ENG", "g1/g", "e", "me d"] {
        let mut lower = SignalTreeState::new();
        lower.set_search_query(query.to_ascii_lowercase());
        let mut upper = SignalTreeState::new();
        upper.set_search_query(query.to_ascii_uppercase());
        for c in &channels {
            assert_eq!(lower.matches_search(c), upper.matches_search(c));
        }
    }
}

#[test]
fn refresh_compiles_or_clears() {
    let mut state = SignalTreeState::new();
    state.use_regex = true;
    state.search_query = "[".to_string();
    state.refresh_regex();
    assert!(state.get_regex_error().is_some());
    state.search_query = "a+".to_string();
    state.refresh_regex();
    assert!(state.get_regex_error().is_none());
    assert!(state.matches_search(&ch("aaa", "x/y/aaa")));
    state.use_regex = false;
    state.search_query = "[".to_string();
    state.refresh_regex();
    assert!(state.get_regex_error().is_none());
}

#[test]
fn recorded_error_blocks_regex_search() {
    let mut state = SignalTreeState::new();
    state.use_regex = true;
    state.search_query = "a".to_string();
    state.record_compilation(Err("boom".to_string()));
    assert_eq!(state.get_regex_error().map(|s| s.as_str()), Some("boom"));
    assert!(!state.matches_search(&ch("a", "a/a/a")));
}

#[test]
fn stale_cache_is_used_until_refreshed() {
    let mut state = SignalTreeState::new();
    state.use_regex = true;
    state.set_search_query("^x".to_string());
    assert!(state.matches_search(&ch("xa", "g/c/xa")));
    // Editing the field directly keeps the compiled expression of "^x".
    state.search_query = "^y".to_string();
    assert!(state.matches_search(&ch("xa", "g/c/xa")));
    state.refresh_regex();
    assert!(!state.matches_search(&ch("xa", "g/c/xa")));
    assert!(state.matches_search(&ch("ya", "g/c/ya")));
}

#[test]
fn visible_tree_hides_empty_channel_groups_but_keeps_data_groups() {
    let channels = vec![
        ch("speed", "A/x/speed"),
        ch("temp", "A/y/temp"),
        ch("rpm", "B/z/rpm"),
    ];
    let mut state = SignalTreeState::new();
    state.select_channel("temp".to_string());
    let groups = state.group_channels(&channels);

    let tree = state.visible_tree(&channels, &groups);
    assert_eq!(tree.len(), 2);
    assert_eq!(tree[0].channel_groups.len(), 2);
    assert_eq!(tree[0].channel_groups[1].channels[0].index, 1);
    assert!(tree[0].channel_groups[1].channels[0].selected);
    assert!(!tree[0].channel_groups[0].channels[0].selected);

    state.set_search_query("TEMP".to_string());
    let tree = state.visible_tree(&channels, &groups);
    assert_eq!(tree.len(), 2);
    assert_eq!(tree[0].name, "A");
    assert_eq!(tree[0].channel_groups.len(), 1);
    assert_eq!(tree[0].channel_groups[0].name, "y");
    assert_eq!(tree[0].channel_groups[0].channels.len(), 1);
    assert_eq!(tree[1].name, "B");
    assert!(tree[1].channel_groups.is_empty());
}

#[test]
fn visible_tree_compiles_the_query_once() {
    let channels = vec![ch("a", "g/c/a")];
    let mut state = SignalTreeState::new();
    state.use_regex = true;
    state.set_search_query("(".to_string());
    let groups = state.group_channels(&channels);
    let tree = state.visible_tree(&channels, &groups);
    assert!(tree[0].channel_groups.is_empty());
    assert!(state.get_regex_error().is_some());
}

#[test]
fn equality_ignores_the_cache_and_pair_order() {
    let mut a = SignalTreeState::from_parts(
        vec!["s".to_string()],
        vec![("g1".to_string(), true), ("g2".to_string(), false)],
        "q".to_string(),
        true,
    );
    let b = SignalTreeState::from_parts(
        vec!["s".to_string()],
        vec![("g2".to_string(), false), ("g1".to_string(), true)],
        "q".to_string(),
        true,
    );
    assert!(a == b);
    a.refresh_regex();
    assert!(a == b);
    let c = SignalTreeState::from_parts(
        vec!["s".to_string()],
        vec![("g1".to_string(), false), ("g2".to_string(), false)],
        "q".to_string(),
        true,
    );
    assert!(a != c);
    let d = SignalTreeState::from_parts(vec!["s".to_string()], vec![("g1".to_string(), true)], "q".to_string(), true);
    assert!(a != d);
    let e = SignalTreeState::from_parts(
        vec!["t".to_string()],
        vec![("g1".to_string(), true), ("g2".to_string(), false)],
        "q".to_string(),
        true,
    );
    assert!(a != e);
    assert!(SignalTreeState::default() == SignalTreeState::new());
}

#[test]
fn parts_round_trip() {
    let state = SignalTreeState::from_parts(
        vec!["s".to_string()],
        vec![("g".to_string(), true)],
        "q".to_string(),
        true,
    );
    assert_eq!(state.get_selected_signals(), &["s".to_string()]);
    assert_eq!(state.get_expanded_groups(), &[("g".to_string(), true)]);
    assert_eq!(state.search_query, "q");
    assert!(state.use_regex);
    assert!(state.get_regex_error().is_none());
}

#[test]
fn grouping_is_the_same_on_every_call() {
    let channels = vec![ch("b", "X/2/b"), ch("a", "X/1/a"), ch("c", "W/1/c"), ch("a", "X/1/a")];
    let state = SignalTreeState::new();
    let first = state.group_channels(&channels);
    let second = state.group_channels(&channels);
    assert_eq!(names(&first), names(&second));
    for (d1, d2) in first.iter().zip(second.iter()) {
        assert_eq!(d1.channel_groups.len(), d2.channel_groups.len());
        for (c1, c2) in d1.channel_groups.iter().zip(d2.channel_groups.iter()) {
            assert_eq!(c1.name, c2.name);
            assert_eq!(c1.channels, c2.channels);
        }
    }
    assert_eq!(names(&first), vec!["W", "X"]);
    assert_eq!(first[1].channel_groups[0].channels, vec![1, 3]);
}

#[test]
fn grouping_ignores_the_order_of_the_channels() {
    let forward = vec![ch("b", "X/2/b"), ch("a", "X/1/a"), ch("c", "W/1/c"), ch("d", "X/1/d")];
    let backward: Vec<Channel> = forward.iter().rev().map(|c| ch(&c.name, &c.full_path)).collect();
    let state = SignalTreeState::new();
    let g1 = state.group_channels(&forward);
    let g2 = state.group_channels(&backward);
    assert_eq!(names(&g1), names(&g2));
    for (d1, d2) in g1.iter().zip(g2.iter()) {
        assert_eq!(d1.channel_groups.len(), d2.channel_groups.len());
        for (c1, c2) in d1.channel_groups.iter().zip(d2.channel_groups.iter()) {
            assert_eq!(c1.name, c2.name);
            let n1: Vec<&str> = c1.channels.iter().map(|&i| forward[i].name.as_str()).collect();
            let n2: Vec<&str> = c2.channels.iter().map(|&i| backward[i].name.as_str()).collect();
            assert_eq!(n1, n2);
        }
    }
}

#[test]
fn selection_follows_the_order_of_insertion() {
    let mut state = SignalTreeState::new();
    state.select_channel("a".to_string());
    state.select_channel("b".to_string());
    state.select_channel("c".to_string());
    state.deselect_channel("a");
    state.select_channel("b".to_string());
    state.select_channel("a".to_string());
    assert_eq!(
        state.get_selected_signals(),
        &["b".to_string(), "c".to_string(), "a".to_string()]
    );
}
