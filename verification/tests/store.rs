use grairc::irc::types::{IrcChannel, IrcChannelType, IrcMessage};
use grairc::state::{BatteryState, State};

fn channel(name: &str, selected: bool) -> IrcChannel {
    IrcChannel {
        selected,
        name: name.to_string(),
        users: vec![],
        messages: vec![],
        channel_type: IrcChannelType::Channel,
    }
}

fn store(names: &[&str], selected: usize) -> State {
    let mut state = State::default();
    state.channels[0].selected = selected == 0;
    for (i, name) in names.iter().enumerate() {
        state.channels.push(channel(name, i + 1 == selected));
    }
    state
}

fn selected_flags(state: &State) -> Vec<bool> {
    state.channels.iter().map(|c| c.selected).collect()
}

#[test]
fn default_state_holds_the_system_channel_alone() {
    let state = State::default();
    assert!(state.config.is_none());
    assert_eq!(state.battery_state, BatteryState::Drained);
    assert_eq!(state.channels.len(), 1);
    let system = &state.channels[0];
    assert!(system.selected);
    assert_eq!(system.name, "<system>");
    assert!(system.users.is_empty());
    assert!(system.messages.is_empty());
    assert_eq!(system.channel_type, IrcChannelType::System);
}

#[test]
fn switch_moves_down_by_one() {
    let mut state = store(&["#a", "#b"], 0);
    state.switch_channels(1);
    assert_eq!(selected_flags(&state), vec![false, true, false]);
    state.switch_channels(1);
    assert_eq!(selected_flags(&state), vec![false, false, true]);
}

#[test]
fn switch_wraps_past_the_last_channel() {
    let mut state = store(&["#a", "#b"], 2);
    state.switch_channels(1);
    assert_eq!(selected_flags(&state), vec![true, false, false]);
}

#[test]
fn switch_wraps_before_the_first_channel() {
    let mut state = store(&["#a", "#b"], 0);
    state.switch_channels(-1);
    assert_eq!(selected_flags(&state), vec![false, false, true]);
}

#[test]
fn switch_leaves_exactly_one_selected_for_every_step() {
    for len in 1usize..6 {
        for start in 0usize..len {
            for change in -13isize..14 {
                let names: Vec<String> = (1..len).map(|i| format!("#c{}", i)).collect();
                let refs: Vec<&str> = names.iter().map(|s| s.as_str()).collect();
                let mut state = store(&refs, start);
                state.switch_channels(change);
                let flags = selected_flags(&state);
                assert_eq!(flags.iter().filter(|f| **f).count(), 1);
                let expected = (start as isize + change).rem_euclid(len as isize) as usize;
                assert!(flags[expected]);
            }
        }
    }
}

#[test]
fn switch_by_extreme_steps_stays_in_range() {
    let mut state = store(&["#a", "#b"], 1);
    state.switch_channels(isize::MAX);
    let expected = (1i128 + isize::MAX as i128).rem_euclid(3) as usize;
    assert_eq!(selected_flags(&state).iter().position(|f| *f), Some(expected));
    let mut state = store(&["#a", "#b"], 1);
    state.switch_channels(isize::MIN);
    let expected = (1i128 + isize::MIN as i128).rem_euclid(3) as usize;
    assert_eq!(selected_flags(&state).iter().position(|f| *f), Some(expected));
}

#[test]
fn switch_down_then_up_returns_to_the_start() {
    for start in 0usize..4 {
        let mut state = store(&["#a", "#b", "#c"], start);
        let before = selected_flags(&state);
        state.switch_channels(1);
        state.switch_channels(-1);
        assert_eq!(selected_flags(&state), before);
    }
}

#[test]
fn switch_on_an_empty_store_does_nothing() {
    let mut state = State::default();
    state.channels.clear();
    state.switch_channels(1);
    assert!(state.channels.is_empty());
}

#[test]
fn switch_with_none_selected_starts_from_the_first() {
    let mut state = store(&["#a", "#b"], 7);
    assert_eq!(selected_flags(&state), vec![false, false, false]);
    state.switch_channels(1);
    assert_eq!(selected_flags(&state), vec![false, true, false]);
}

#[test]
fn switch_with_several_selected_starts_from_the_first_of_them() {
    let mut state = store(&["#a", "#b", "#c"], 1);
    state.channels[3].selected = true;
    state.switch_channels(1);
    assert_eq!(selected_flags(&state), vec![false, false, true, false]);
}

#[test]
fn switch_keeps_everything_but_the_flags() {
    let mut state = store(&["#a"], 0);
    state.channels[1].users.push("alice".to_string());
    state.channels[1].messages.push(IrcMessage { nick: None, content: "x".to_string() });
    state.battery_state = BatteryState::High;
    state.switch_channels(1);
    assert_eq!(state.channels[1].name, "#a");
    assert_eq!(state.channels[1].users, vec!["alice".to_string()]);
    assert_eq!(state.channels[1].messages.len(), 1);
    assert_eq!(state.battery_state, BatteryState::High);
    assert_eq!(state.channels[0].channel_type, IrcChannelType::System);
}

#[test]
fn current_channel_is_the_selected_one() {
    let mut state = store(&["#a", "#b"], 2);
    assert_eq!(state.current_channel_static().name, "#b");
    state.current_channel().users.push("me".to_string());
    assert_eq!(state.channels[2].users, vec!["me".to_string()]);
    assert!(state.channels[1].users.is_empty());
}

#[test]
fn system_channel_is_found_wherever_it_stands() {
    let mut state = store(&["#a"], 1);
    state.channels.swap(0, 1);
    state.get_system_channel().messages.push(IrcMessage {
        nick: None,
        content: "hello".to_string(),
    });
    assert_eq!(state.channels[1].messages.len(), 1);
    assert_eq!(state.system_index(), Some(1));
}

#[test]
fn channel_by_name_finds_the_first_of_that_name() {
    let mut state = store(&["#a", "#b", "#a"], 0);
    assert_eq!(state.channel_index("#a"), Some(1));
    assert_eq!(state.channel_index("#b"), Some(2));
    assert_eq!(state.channel_index("#c"), None);
    assert_eq!(state.channel_index("#"), None);
    match state.get_channel_by_name("#a") {
        Some(found) => found.users.push("bob".to_string()),
        None => panic!("#a is known"),
    }
    assert_eq!(state.channels[1].users, vec!["bob".to_string()]);
    assert!(state.channels[3].users.is_empty());
    assert!(state.get_channel_by_name("#nowhere").is_none());
}

#[test]
fn selected_index_is_the_first_selected() {
    let state = store(&["#a", "#b"], 1);
    assert_eq!(state.selected_index(), Some(1));
    let none = store(&["#a"], 9);
    assert_eq!(none.selected_index(), None);
}
