//! The channel store: every channel the client knows, which of them is
//! selected, and the lookups and changes the rest of the client is built on.

use vstd::prelude::*;
use vstd::arithmetic::div_mod::lemma_fundamental_div_mod;
use vstd::arithmetic::div_mod::lemma_fundamental_div_mod_converse;
use crate::config::Config;
use crate::config::ConfigView;
use crate::irc::types::channel_views;
use crate::irc::types::ChannelView;
use crate::irc::types::IrcChannel;
use crate::irc::types::IrcChannelType;

verus! {

/// How much charge the battery holds, or that it is charging.
#[derive(PartialEq, Eq, Clone, Copy, Debug, Structural)]
pub enum BatteryState {
    Charging,
    Critical,
    Drained,
    High,
    Low,
    Medium,
    VeryLow,
}

/// Everything the client knows while it runs.
pub struct State {
    pub config: Option<Config>,
    /// The channels in the order they were first heard of.
    pub channels: Vec<IrcChannel>,
    pub battery_state: BatteryState,
}

/// The mathematical value of a [`State`].
pub struct StateView {
    pub config: Option<ConfigView>,
    pub channels: Seq<ChannelView>,
    pub battery_state: BatteryState,
}

impl View for State {
    type V = StateView;

    open spec fn view(&self) -> StateView {
        StateView {
            config: match self.config {
                Some(config) => Some(config@),
                None => None,
            },
            channels: channel_views(self.channels@),
            battery_state: self.battery_state,
        }
    }
}

/// The least index at or after `from` whose channel satisfies `wanted`.
pub open spec fn first_where(
    channels: Seq<ChannelView>,
    wanted: spec_fn(ChannelView) -> bool,
    from: int,
) -> Option<int>
    decreases channels.len() - from,
{
    if from < 0 || from >= channels.len() {
        None
    } else if wanted(channels[from]) {
        Some(from)
    } else {
        first_where(channels, wanted, from + 1)
    }
}

/// `first_where` finds a channel that is wanted, and none before it is.
pub proof fn lemma_first_where(
    channels: Seq<ChannelView>,
    wanted: spec_fn(ChannelView) -> bool,
    from: int,
)
    requires
        0 <= from,
    ensures
        match first_where(channels, wanted, from) {
            Some(i) => from <= i < channels.len() && wanted(channels[i]) && forall|j: int|
                from <= j < i ==> !wanted(#[trigger] channels[j]),
            None => forall|j: int| from <= j < channels.len() ==> !wanted(#[trigger] channels[j]),
        },
    decreases channels.len() - from,
{
    if from < channels.len() && !wanted(channels[from]) {
        lemma_first_where(channels, wanted, from + 1);
    }
}

/// The first selected channel at or after `from`.
pub open spec fn selected_from(channels: Seq<ChannelView>, from: int) -> Option<int> {
    first_where(channels, |c: ChannelView| c.selected, from)
}

/// The first channel named `name` at or after `from`.
pub open spec fn named_from(channels: Seq<ChannelView>, name: Seq<char>, from: int) -> Option<
    int,
> {
    first_where(channels, |c: ChannelView| c.name == name, from)
}

/// The first system channel at or after `from`.
pub open spec fn system_from(channels: Seq<ChannelView>, from: int) -> Option<int> {
    first_where(channels, |c: ChannelView| c.channel_type == IrcChannelType::System, from)
}

/// The index of the first selected channel.
pub open spec fn position_selected(channels: Seq<ChannelView>) -> Option<int> {
    selected_from(channels, 0)
}

/// The index of the first channel named `name`.
pub open spec fn position_named(channels: Seq<ChannelView>, name: Seq<char>) -> Option<int> {
    named_from(channels, name, 0)
}

/// The index of the first system channel.
pub open spec fn position_system(channels: Seq<ChannelView>) -> Option<int> {
    system_from(channels, 0)
}

/// The index that selection moves from: that of the first selected channel,
/// or 0 where none is selected.
pub open spec fn current_index(channels: Seq<ChannelView>) -> int {
    match position_selected(channels) {
        Some(i) => i,
        None => 0,
    }
}

/// Channel `i` is selected and no other is.
pub open spec fn only_selected(channels: Seq<ChannelView>, i: int) -> bool {
    &&& 0 <= i < channels.len()
    &&& forall|j: int| 0 <= j < channels.len() ==> ((#[trigger] channels[j]).selected <==> j == i)
}

/// Exactly one channel is selected.
pub open spec fn one_selected(channels: Seq<ChannelView>) -> bool {
    exists|i: int| only_selected(channels, i)
}

/// No two channels share a name.
pub open spec fn names_distinct(channels: Seq<ChannelView>) -> bool {
    forall|i: int, j: int|
        0 <= i < j < channels.len() ==> (#[trigger] channels[i]).name != (
        #[trigger] channels[j]).name
}

/// Channel `i` is the system channel and no other is.
pub open spec fn only_system(channels: Seq<ChannelView>, i: int) -> bool {
    &&& 0 <= i < channels.len()
    &&& forall|j: int|
        0 <= j < channels.len() ==> ((#[trigger] channels[j]).channel_type
            == IrcChannelType::System <==> j == i)
}

/// Exactly one channel is the system channel.
pub open spec fn one_system(channels: Seq<ChannelView>) -> bool {
    exists|i: int| only_system(channels, i)
}

/// The store is as the client keeps it: one channel selected, one system
/// channel, and every name used once.
pub open spec fn well_formed(channels: Seq<ChannelView>) -> bool {
    one_selected(channels) && one_system(channels) && names_distinct(channels)
}

/// The channels after selection has moved by `change` places, wrapping at
/// both ends. Only the `selected` flags differ.
pub open spec fn switched(channels: Seq<ChannelView>, change: int) -> Seq<ChannelView> {
    if channels.len() == 0 {
        channels
    } else {
        let target = (current_index(channels) + change) % (channels.len() as int);
        Seq::new(
            channels.len(),
            |i: int| ChannelView { selected: i == target, ..channels[i] },
        )
    }
}

/// The name of the system channel.
pub open spec fn system_name() -> Seq<char> {
    "<system>"@
}

/// The store at start: the system channel alone, selected and empty.
pub open spec fn initial_channels() -> Seq<ChannelView> {
    seq![
        ChannelView {
            selected: true,
            name: system_name(),
            users: Seq::empty(),
            messages: Seq::empty(),
            channel_type: IrcChannelType::System,
        },
    ]
}

/// After a switch on a store that is not empty, exactly one channel is
/// selected, and it is the one `change` places on from where selection was,
/// counted cyclically.
pub proof fn lemma_switched_selects_one(channels: Seq<ChannelView>, change: int)
    requires
        channels.len() > 0,
    ensures
        only_selected(
            switched(channels, change),
            (current_index(channels) + change) % (channels.len() as int),
        ),
        one_selected(switched(channels, change)),
        current_index(switched(channels, change)) == (current_index(channels) + change) % (
        channels.len() as int),
        0 <= current_index(channels) < channels.len(),
{
    let len = channels.len() as int;
    lemma_first_where(channels, |c: ChannelView| c.selected, 0);
    let target = (current_index(channels) + change) % len;
    let after = switched(channels, change);
    assert(0 <= target < len);
    assert(only_selected(after, target));
    lemma_first_where(after, |c: ChannelView| c.selected, 0);
    assert(after[target].selected);
}

/// A switch keeps a well-formed store well formed.
pub proof fn lemma_switched_well_formed(channels: Seq<ChannelView>, change: int)
    requires
        well_formed(channels),
    ensures
        well_formed(switched(channels, change)),
{
    let after = switched(channels, change);
    let system = choose|i: int| only_system(channels, i);
    assert(channels.len() > 0);
    lemma_switched_selects_one(channels, change);
    assert(only_system(after, system)) by {
        assert forall|j: int| 0 <= j < after.len() implies ((#[trigger] after[j]).channel_type
            == IrcChannelType::System <==> j == system) by {
            assert(after[j].channel_type == channels[j].channel_type);
        }
    }
    assert(names_distinct(after)) by {
        assert forall|i: int, j: int| 0 <= i < j < after.len() implies (#[trigger] after[i]).name
            != (#[trigger] after[j]).name by {
            assert(after[i].name == channels[i].name);
            assert(after[j].name == channels[j].name);
        }
    }
}

/// Moving selection by `change` and then by `-change` brings it back to the
/// channel it started from; a step down followed by a step up is the case
/// `change == 1`. Where exactly one channel was selected to begin with, the
/// whole store is as it was.
pub proof fn lemma_switch_round_trip(channels: Seq<ChannelView>, change: int)
    ensures
        current_index(switched(switched(channels, change), -change)) == current_index(channels),
        one_selected(channels) ==> switched(switched(channels, change), -change) == channels,
{
    if channels.len() > 0 {
        let len = channels.len() as int;
        let cur = current_index(channels);
        let there = switched(channels, change);
        let back = switched(there, -change);
        lemma_switched_selects_one(channels, change);
        lemma_switched_selects_one(there, -change);
        let mid = (cur + change) % len;
        lemma_fundamental_div_mod(cur + change, len);
        let q = (cur + change) / len;
        assert(mid - change == (-q) * len + cur) by (nonlinear_arith)
            requires
                cur + change == len * q + mid,
        ;
        lemma_fundamental_div_mod_converse(mid - change, len, -q, cur);
        assert(current_index(back) == cur);
        if one_selected(channels) {
            let only = choose|i: int| only_selected(channels, i);
            lemma_first_where(channels, |c: ChannelView| c.selected, 0);
            assert(channels[only].selected);
            assert(cur == only);
            assert(back =~= channels);
        }
    }
}

impl Default for State {
    /// The state at start: no settings yet, the system channel alone, the
    /// battery taken for empty until it is read.
    fn default() -> (state: State)
        ensures
            state@.config is None,
            state@.channels == initial_channels(),
            state@.battery_state == BatteryState::Drained,
            well_formed(state@.channels),
    {
        let mut channels: Vec<IrcChannel> = Vec::new();
        let system = IrcChannel {
            selected: true,
            name: "<system>".to_owned(),
            users: Vec::new(),
            messages: Vec::new(),
            channel_type: IrcChannelType::System,
        };
        assert(system@.users =~= Seq::empty());
        assert(system@.messages =~= Seq::empty());
        channels.push(system);
        let state = State { config: None, channels, battery_state: BatteryState::Drained };
        assert(state@.channels =~= initial_channels());
        assert(only_selected(state@.channels, 0));
        assert(only_system(state@.channels, 0));
        state
    }
}

impl State {
    /// The index of the first selected channel.
    pub fn selected_index(&self) -> (found: Option<usize>)
        ensures
            match found {
                Some(i) => i < self.channels.len() && position_selected(self@.channels) == Some(
                    i as int,
                ),
                None => position_selected(self@.channels) is None,
            },
    {
        let mut i: usize = 0;
        while i < self.channels.len()
            invariant
                i <= self.channels.len(),
                position_selected(self@.channels) == selected_from(self@.channels, i as int),
            decreases self.channels.len() - i,
        {
            if self.channels[i].selected {
                return Some(i);
            }
            i += 1;
        }
        None
    }

    /// The index of the first system channel.
    pub fn system_index(&self) -> (found: Option<usize>)
        ensures
            match found {
                Some(i) => i < self.channels.len() && position_system(self@.channels) == Some(
                    i as int,
                ),
                None => position_system(self@.channels) is None,
            },
    {
        let mut i: usize = 0;
        while i < self.channels.len()
            invariant
                i <= self.channels.len(),
                position_system(self@.channels) == system_from(self@.channels, i as int),
            decreases self.channels.len() - i,
        {
            if self.channels[i].channel_type == IrcChannelType::System {
                return Some(i);
            }
            i += 1;
        }
        None
    }

    /// The index of the first channel named `name`.
    pub fn channel_index(&self, name: &str) -> (found: Option<usize>)
        ensures
            match found {
                Some(i) => i < self.channels.len() && position_named(self@.channels, name@)
                    == Some(i as int),
                None => position_named(self@.channels, name@) is None,
            },
    {
        let mut i: usize = 0;
        while i < self.channels.len()
            invariant
                i <= self.channels.len(),
                position_named(self@.channels, name@) == named_from(
                    self@.channels,
                    name@,
                    i as int,
                ),
            decreases self.channels.len() - i,
        {
            if crate::text::same_text(self.channels[i].name.as_str(), name) {
                return Some(i);
            }
            i += 1;
        }
        None
    }

    /// Moves selection by `change` places, wrapping at both ends. Selection
    /// starts from the first selected channel, or from the first channel
    /// where none is selected. Afterwards exactly one channel is selected,
    /// unless there is no channel at all.
    pub fn switch_channels(&mut self, change: isize)
        ensures
            final(self)@.channels == switched(old(self)@.channels, change as int),
            final(self)@.config == old(self)@.config,
            final(self)@.battery_state == old(self)@.battery_state,
            old(self)@.channels.len() > 0 ==> one_selected(final(self)@.channels),
            well_formed(old(self)@.channels) ==> well_formed(final(self)@.channels),
    {
        let len = self.channels.len();
        proof {
            if well_formed(self@.channels) {
                lemma_switched_well_formed(self@.channels, change as int);
            }
        }
        if len == 0 {
            return ;
        }
        let current = match self.selected_index() {
            Some(i) => i,
            None => 0,
        };
        proof {
            lemma_switched_selects_one(self@.channels, change as int);
        }
        let target: usize = if change >= 0 {
            let step: usize = (change as usize) % len;
            proof {
                lemma_wrap(current as int, change as int, len as int, step as int);
            }
            if step >= len - current {
                step - (len - current)
            } else {
                current + step
            }
        } else {
            let magnitude: usize = ((-(change + 1)) as usize) + 1;
            let step: usize = magnitude % len;
            proof {
                lemma_mod_of_negation(magnitude as int, len as int);
                lemma_wrap(current as int, change as int, len as int, if step == 0 {
                    0
                } else {
                    len - step
                });
            }
            if current >= step {
                current - step
            } else {
                len - (step - current)
            }
        };
        assert(target as int == (current_index(self@.channels) + change) % (len as int));
        let mut i: usize = 0;
        while i < len
            invariant
                i <= len,
                len == self.channels.len(),
                self.config == old(self).config,
                self.battery_state == old(self).battery_state,
                len == old(self).channels.len(),
                forall|j: int|
                    0 <= j < i ==> #[trigger] self.channels@[j] == (IrcChannel {
                        selected: false,
                        ..old(self).channels@[j]
                    }),
                forall|j: int|
                    i <= j < len ==> #[trigger] self.channels@[j] == old(self).channels@[j],
            decreases len - i,
        {
            self.channels[i].selected = false;
            i += 1;
        }
        self.channels[target].selected = true;
        assert forall|j: int| 0 <= j < len implies #[trigger] self@.channels[j] == switched(
            old(self)@.channels,
            change as int,
        )[j] by {
            assert(self.channels@[j].name == old(self).channels@[j].name);
        }
        assert(self@.channels =~= switched(old(self)@.channels, change as int));
    }

    /// The first selected channel, to change in place.
    pub fn current_channel(&mut self) -> (channel: &mut IrcChannel)
        requires
            position_selected(old(self)@.channels) is Some,
        ensures
            *channel == old(self).channels[current_index(old(self)@.channels)],
            final(self).channels@ == old(self).channels@.update(
                current_index(old(self)@.channels),
                *final(channel),
            ),
            final(self).config == old(self).config,
            final(self).battery_state == old(self).battery_state,
    {
        let i = match self.selected_index() {
            Some(i) => i,
            None => 0,
        };
        proof {
            lemma_first_where(self@.channels, |c: ChannelView| c.selected, 0);
        }
        &mut self.channels[i]
    }

    /// The first selected channel, to read.
    pub fn current_channel_static(&self) -> (channel: &IrcChannel)
        requires
            position_selected(self@.channels) is Some,
        ensures
            *channel == self.channels[current_index(self@.channels)],
    {
        let i = match self.selected_index() {
            Some(i) => i,
            None => 0,
        };
        proof {
            lemma_first_where(self@.channels, |c: ChannelView| c.selected, 0);
        }
        &self.channels[i]
    }

    /// The system channel, to change in place.
    pub fn get_system_channel(&mut self) -> (channel: &mut IrcChannel)
        requires
            position_system(old(self)@.channels) is Some,
        ensures
            position_system(old(self)@.channels) matches Some(i) && *channel == old(
                self,
            ).channels[i] && final(self).channels@ == old(self).channels@.update(
                i,
                *final(channel),
            ),
            final(self).config == old(self).config,
            final(self).battery_state == old(self).battery_state,
    {
        let i = match self.system_index() {
            Some(i) => i,
            None => 0,
        };
        proof {
            lemma_first_where(
                self@.channels,
                |c: ChannelView| c.channel_type == IrcChannelType::System,
                0,
            );
        }
        &mut self.channels[i]
    }

    /// The first channel named `name`, to change in place, or `None` where
    /// no channel has that name.
    pub fn get_channel_by_name(&mut self, name: &str) -> (found: Option<&mut IrcChannel>)
        ensures
            match found {
                Some(channel) => position_named(old(self)@.channels, name@) matches Some(i)
                    && *channel == old(self).channels[i] && final(self).channels@ == old(
                    self,
                ).channels@.update(i, *final(channel)) && final(self).config == old(self).config
                    && final(self).battery_state == old(self).battery_state,
                None => position_named(old(self)@.channels, name@) is None && *final(self)
                    == *old(self),
            },
    {
        match self.channel_index(name) {
            Some(i) => {
                proof {
                    lemma_first_where(self@.channels, |c: ChannelView| c.name == name@, 0);
                }
                Some(&mut self.channels[i])
            },
            None => None,
        }
    }
}

/// The remainder of `-m` in a ring of `len` places, from that of `m`.
proof fn lemma_mod_of_negation(m: int, len: int)
    requires
        0 < len,
    ensures
        (-m) % len == if m % len == 0 {
            0
        } else {
            len - m % len
        },
{
    lemma_fundamental_div_mod(m, len);
    let q = m / len;
    let r = m % len;
    if r == 0 {
        assert(-m == (-q) * len + 0) by (nonlinear_arith)
            requires
                m == len * q + r,
                r == 0,
        ;
        lemma_fundamental_div_mod_converse(-m, len, -q, 0);
    } else {
        assert(-m == (-q - 1) * len + (len - r)) by (nonlinear_arith)
            requires
                m == len * q + r,
        ;
        lemma_fundamental_div_mod_converse(-m, len, -q - 1, len - r);
    }
}

/// Stepping `change` places on from `current` in a ring of `len` places
/// arrives `step` places on, where `step` is `change` reduced to the ring.
proof fn lemma_wrap(current: int, change: int, len: int, step: int)
    requires
        0 <= current < len,
        0 <= step < len,
        step == change % len,
    ensures
        (current + change) % len == if current + step >= len {
            current + step - len
        } else {
            current + step
        },
{
    lemma_fundamental_div_mod(change, len);
    let q = change / len;
    if current + step >= len {
        assert(current + change == (q + 1) * len + (current + step - len)) by (nonlinear_arith)
            requires
                change == len * q + step,
        ;
        lemma_fundamental_div_mod_converse(current + change, len, q + 1, current + step - len);
    } else {
        assert(current + change == q * len + (current + step)) by (nonlinear_arith)
            requires
                change == len * q + step,
        ;
        lemma_fundamental_div_mod_converse(current + change, len, q, current + step);
    }
}

} // verus!
