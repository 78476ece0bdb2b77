use grairc::control::{battery_state, intent, BatteryLevel, Intent, Keys};
use grairc::irc::types::{IrcChannel, IrcChannelType};
use grairc::state::{BatteryState, State};

fn keys(start: bool, down: bool, up: bool, a: bool, x: bool) -> Keys {
    Keys { start, down, up, a, x }
}

#[test]
fn each_key_alone_asks_for_its_own() {
    assert_eq!(intent(keys(true, false, false, false, false)), Intent::Exit);
    assert_eq!(intent(keys(false, true, false, false, false)), Intent::NextChannel);
    assert_eq!(intent(keys(false, false, true, false, false)), Intent::PreviousChannel);
    assert_eq!(intent(keys(false, false, false, true, false)), Intent::Compose);
    assert_eq!(intent(keys(false, false, false, false, true)), Intent::ComposeRaw);
    assert_eq!(intent(keys(false, false, false, false, false)), Intent::Idle);
}

#[test]
fn the_first_key_in_order_decides() {
    assert_eq!(intent(keys(true, true, true, true, true)), Intent::Exit);
    assert_eq!(intent(keys(false, true, true, true, true)), Intent::NextChannel);
    assert_eq!(intent(keys(false, false, true, true, true)), Intent::PreviousChannel);
    assert_eq!(intent(keys(false, false, false, true, true)), Intent::Compose);
}

#[test]
fn charging_hides_the_level() {
    assert_eq!(battery_state(BatteryLevel::Low, true), BatteryState::Charging);
    assert_eq!(battery_state(BatteryLevel::High, true), BatteryState::Charging);
}

#[test]
fn the_level_is_shown_when_not_charging() {
    assert_eq!(battery_state(BatteryLevel::Drained, false), BatteryState::Drained);
    assert_eq!(battery_state(BatteryLevel::Critical, false), BatteryState::Critical);
    assert_eq!(battery_state(BatteryLevel::VeryLow, false), BatteryState::VeryLow);
    assert_eq!(battery_state(BatteryLevel::Low, false), BatteryState::Low);
    assert_eq!(battery_state(BatteryLevel::Medium, false), BatteryState::Medium);
    assert_eq!(battery_state(BatteryLevel::High, false), BatteryState::High);
}

#[test]
fn nothing_can_be_said_to_the_system_channel() {
    let mut state = State::default();
    assert_eq!(state.compose_target(), None);
    state.channels.push(IrcChannel {
        selected: false,
        name: "#test".to_string(),
        users: vec![],
        messages: vec![],
        channel_type: IrcChannelType::Channel,
    });
    state.switch_channels(1);
    assert_eq!(state.compose_target(), Some("#test".to_string()));
}
