//! The decisions of the run loop: what the keys ask for, what the battery
//! reading means, and where a composed message would go.

use vstd::prelude::*;
use crate::irc::types::IrcChannelType;
use crate::state::BatteryState;
use crate::state::current_index;
use crate::state::position_selected;
use crate::state::State;

verus! {

/// The keys that the client listens to, each down or not.
#[derive(PartialEq, Eq, Clone, Copy, Debug, Structural)]
pub struct Keys {
    pub start: bool,
    pub down: bool,
    pub up: bool,
    pub a: bool,
    pub x: bool,
}

/// What the user asks for.
#[derive(PartialEq, Eq, Clone, Copy, Debug, Structural)]
pub enum Intent {
    /// Leave the client.
    Exit,
    /// Select the channel below.
    NextChannel,
    /// Select the channel above.
    PreviousChannel,
    /// Write a message to the selected channel.
    Compose,
    /// Write a line to send as it stands.
    ComposeRaw,
    /// Nothing.
    Idle,
}

/// What the keys ask for. Where several are down, the first of START, down,
/// up, A, X decides.
pub open spec fn intent_of(keys: Keys) -> Intent {
    if keys.start {
        Intent::Exit
    } else if keys.down {
        Intent::NextChannel
    } else if keys.up {
        Intent::PreviousChannel
    } else if keys.a {
        Intent::Compose
    } else if keys.x {
        Intent::ComposeRaw
    } else {
        Intent::Idle
    }
}

/// What the keys ask for.
pub fn intent(keys: Keys) -> (wanted: Intent)
    ensures
        wanted == intent_of(keys),
{
    if keys.start {
        Intent::Exit
    } else if keys.down {
        Intent::NextChannel
    } else if keys.up {
        Intent::PreviousChannel
    } else if keys.a {
        Intent::Compose
    } else if keys.x {
        Intent::ComposeRaw
    } else {
        Intent::Idle
    }
}

/// How full the battery is.
#[derive(PartialEq, Eq, Clone, Copy, Debug, Structural)]
pub enum BatteryLevel {
    Drained,
    Critical,
    VeryLow,
    Low,
    Medium,
    High,
}

/// The battery state to show for a reading.
pub open spec fn battery_shown(level: BatteryLevel, charging: bool) -> BatteryState {
    if charging {
        BatteryState::Charging
    } else {
        match level {
            BatteryLevel::Drained => BatteryState::Drained,
            BatteryLevel::Critical => BatteryState::Critical,
            BatteryLevel::VeryLow => BatteryState::VeryLow,
            BatteryLevel::Low => BatteryState::Low,
            BatteryLevel::Medium => BatteryState::Medium,
            BatteryLevel::High => BatteryState::High,
        }
    }
}

/// The battery state to show for a reading: that it is charging, whatever
/// the level, or else the level.
pub fn battery_state(level: BatteryLevel, charging: bool) -> (shown: BatteryState)
    ensures
        shown == battery_shown(level, charging),
{
    if charging {
        return BatteryState::Charging;
    }
    match level {
        BatteryLevel::Drained => BatteryState::Drained,
        BatteryLevel::Critical => BatteryState::Critical,
        BatteryLevel::VeryLow => BatteryState::VeryLow,
        BatteryLevel::Low => BatteryState::Low,
        BatteryLevel::Medium => BatteryState::Medium,
        BatteryLevel::High => BatteryState::High,
    }
}

impl State {
    /// The channel that a composed message goes to: the selected channel,
    /// unless that is the system channel, to which nothing can be said.
    pub fn compose_target(&self) -> (target: Option<String>)
        requires
            position_selected(self@.channels) is Some,
        ensures
            ({
                let current = self@.channels[current_index(self@.channels)];
                match target {
                    Some(name) => current.channel_type != IrcChannelType::System && name@
                        == current.name,
                    None => current.channel_type == IrcChannelType::System,
                }
            }),
    {
        let current = self.current_channel_static();
        proof {
            crate::state::lemma_first_where(
                self@.channels,
                |c: crate::irc::types::ChannelView| c.selected,
                0,
            );
        }
        if current.channel_type == IrcChannelType::System {
            None
        } else {
            Some(current.name.clone())
        }
    }
}

} // verus!
