use signal_tree::{Channel, SignalTreeState};

fn channel(name: &str, path: &str) -> Channel {
    Channel::new(name.to_string(), path.to_string())
}

/// The channels of a small demo measurement: a time channel and a few
/// signals in two data groups.
fn demo_channels() -> Vec<Channel> {
    vec![
        channel("time", "DG0/CG0/time"),
        channel("ASAM.M.SCALAR.UBYTE.IDENTICAL", "DG0/CG0/ASAM.M.SCALAR.UBYTE.IDENTICAL"),
        channel("ASAM.M.SCALAR.UWORD.IDENTICAL", "DG0/CG0/ASAM.M.SCALAR.UWORD.IDENTICAL"),
        channel("Triangle", "DG1/CG0/Triangle"),
        channel("Sine", "DG1/CG1/Sine"),
        channel("Cosine", "DG1/CG1/Cosine"),
    ]
}

/// What one frame of the panel does to the state: group the channels and
/// search each of them.
fn run_frame(state: &mut SignalTreeState, channels: &[Channel]) {
    let groups = state.group_channels(channels);
    let _ = state.visible_tree(channels, &groups);
}

fn count_matches(state: &mut SignalTreeState, channels: &[Channel]) -> usize {
    let mut count = 0;
    for ch in channels {
        if state.matches_search(ch) {
            count += 1;
        }
    }
    count
}

#[test]
fn test_signal_tree_state() {
    let mut state = SignalTreeState::new();

    assert!(state.get_selected_signals().is_empty());

    state.select_channel("test_signal".to_string());
    assert_eq!(state.get_selected_signals().len(), 1);
    assert_eq!(state.get_selected_signals()[0], "test_signal");

    state.deselect_channel("test_signal");
    assert!(state.get_selected_signals().is_empty());
}

#[test]
fn test_signal_tree_with_mdf() {
    let state_channels = demo_channels();
    let mut state = SignalTreeState::new();
    let channels = &state_channels;

    let groups = state.group_channels(channels);
    assert!(!groups.is_empty(), "No channel groups found");

    if let Some(first_channel) = channels.first() {
        state.select_channel(first_channel.name.clone());
        assert!(state.get_selected_signals().contains(&first_channel.name));

        state.deselect_channel(&first_channel.name);
        assert!(!state.get_selected_signals().contains(&first_channel.name));
    }
}

#[test]
fn test_signal_tree_search() {
    let channels = demo_channels();
    let mut state = SignalTreeState::new();
    assert!(!channels.is_empty(), "No channels found in test file");

    let first_channel = &channels[0];
    let search_term = &first_channel.name[..std::cmp::min(3, first_channel.name.len())];

    assert!(
        channels.iter().all(|ch| state.matches_search(ch)),
        "All channels should match when search is empty"
    );

    state.set_search_query(search_term.to_string());
    let matching = count_matches(&mut state, &channels);
    assert!(matching > 0, "No channels matched the search term '{}'", search_term);
    assert!(matching < channels.len(), "All channels matched the search term '{}'", search_term);

    state.set_search_query(search_term.to_uppercase());
    let matching_upper = count_matches(&mut state, &channels);
    assert_eq!(
        matching, matching_upper,
        "Case-insensitive search should match the same number of channels"
    );

    state.use_regex = true;

    state.set_search_query(format!(".*{}.*", search_term));
    run_frame(&mut state, &channels);
    let regex_matching = count_matches(&mut state, &channels);
    assert!(regex_matching > 0, "No channels matched the regex pattern '{}'", state.search_query);
    assert!(
        regex_matching <= matching,
        "Regex '.*{}.*' should match fewer or equal channels than substring search",
        search_term
    );

    state.set_search_query("[invalid regex".to_string());
    run_frame(&mut state, &channels);
    let invalid_matches = count_matches(&mut state, &channels);
    assert_eq!(invalid_matches, 0, "Invalid regex should match no channels");

    state.set_search_query(r"\w+/\w+".to_string());
    run_frame(&mut state, &channels);
    let path_matches = count_matches(&mut state, &channels);
    assert!(path_matches > 0, "No channels matched the path pattern regex");
}

#[test]
fn signal_tree_test_channel_metadata() {
    let channels = demo_channels();
    let state = SignalTreeState::new();
    assert!(!channels.is_empty(), "No channels found in test file");

    for channel in &channels {
        let metadata = state.get_channel_metadata(channel);

        assert!(metadata.contains(&channel.name), "Metadata should contain channel name");
        assert!(metadata.contains(&channel.full_path), "Metadata should contain channel path");
        assert!(metadata.contains("Channel Group:"), "Metadata should contain channel group");
        assert!(
            metadata.contains("Data: Not yet implemented"),
            "Metadata should indicate data reading is not implemented"
        );
    }
}

#[test]
fn test_hover_tooltip() {
    let channels = demo_channels();
    let mut state = SignalTreeState::new();
    assert!(!channels.is_empty(), "No channels found in test file");

    if let Some(first_channel) = channels.first() {
        let expected_metadata = state.get_channel_metadata(first_channel);

        run_frame(&mut state, &channels);

        assert!(expected_metadata.contains(&first_channel.name), "Metadata should contain channel name");
        assert!(
            expected_metadata.contains(&first_channel.full_path),
            "Metadata should contain channel path"
        );
        assert!(expected_metadata.contains("Channel Group:"), "Metadata should contain channel group");
        assert!(
            expected_metadata.contains("Data: Not yet implemented"),
            "Metadata should indicate data reading is not implemented"
        );
    }
}

#[test]
fn test_regex_search_wipers() {
    let channels = vec![
        channel("LIN_frameState_Wipers", "DG0/LIN_Frames/LIN_frameState_Wipers"),
        channel("LIN_frameState_Park", "DG0/LIN_Frames/LIN_frameState_Park"),
        channel("LIN_frameState_Speed", "DG1/LIN_Frames/LIN_frameState_Speed"),
        channel("WiperPosition", "DG1/Signals/WiperPosition"),
        channel("ParkMode", "DG1/Signals/ParkMode"),
        channel("time", "DG2/Master/time"),
    ];

    let mut state = SignalTreeState::new();

    state.use_regex = true;
    state.set_search_query("frameState".to_string());

    let matching_count = count_matches(&mut state, &channels);

    assert_eq!(matching_count, 3, "Expected exactly 3 channels matching the pattern 'LIN_\\w*Wipers'");
}
