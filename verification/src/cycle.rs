//! The periodic cycle: wait, select, emit, evict, and again.
//!
//! The cycle decides; its caller does what it is told (sleeps, sends, reads
//! the clock) and calls again.

use rand::rngs::StdRng;
use vstd::prelude::*;
use crate::chance::draw_between;
use crate::store::{FrequencyStore, expire_model, is_compact, select_model};
use crate::text::text_of;

verus! {

/// Why a configuration was refused.
#[derive(Debug, Clone, Copy, PartialEq, Eq)]
pub enum ConfigError {
    /// The upper bound of the waiting interval lies below the lower bound.
    InvertedInterval,
}

/// What the cycle is configured with.
pub struct CycleConfig {
    interval_low: u64,
    interval_high: u64,
    max_age: u64,
    max_boost: u64,
    default_token: Option<String>,
}

impl CycleConfig {
    #[verifier::type_invariant]
    spec fn ordered(self) -> bool {
        self.interval_low <= self.interval_high
    }

    /// The shortest wait, in seconds.
    pub closed spec fn low(self) -> u64 {
        self.interval_low
    }

    /// The longest wait, in seconds.
    pub closed spec fn high(self) -> u64 {
        self.interval_high
    }

    /// The age, in seconds, from which an observation is evicted.
    pub closed spec fn age(self) -> u64 {
        self.max_age
    }

    /// The greatest boost that selection may add to a score.
    pub closed spec fn boost(self) -> u64 {
        self.max_boost
    }

    /// The token that selection falls back to on an empty store.
    pub closed spec fn fallback(self) -> Option<Seq<char>> {
        text_of(self.default_token)
    }

    /// A configuration of the given values. Waiting bounds in the wrong
    /// order are refused; nothing else is.
    pub fn new(
        interval_low: u64,
        interval_high: u64,
        max_age: u64,
        max_boost: u64,
        default_token: Option<String>,
    ) -> (out: Result<Self, ConfigError>)
        ensures
            out.is_ok() == (interval_low <= interval_high),
            out matches Err(e) ==> e == ConfigError::InvertedInterval,
            out matches Ok(c) ==> {
                &&& c.low() == interval_low
                &&& c.high() == interval_high
                &&& c.age() == max_age
                &&& c.boost() == max_boost
                &&& c.fallback() == text_of(default_token)
            },
    {
        if interval_high < interval_low {
            Err(ConfigError::InvertedInterval)
        } else {
            Ok(CycleConfig { interval_low, interval_high, max_age, max_boost, default_token })
        }
    }

    /// The shortest wait, in seconds.
    pub fn interval_low(&self) -> (out: u64)
        ensures
            out == self.low(),
            out <= self.high(),
    {
        proof {
            use_type_invariant(self);
        }
        self.interval_low
    }

    /// The longest wait, in seconds.
    pub fn interval_high(&self) -> (out: u64)
        ensures
            out == self.high(),
            self.low() <= out,
    {
        proof {
            use_type_invariant(self);
        }
        self.interval_high
    }

    /// The age, in seconds, from which an observation is evicted.
    pub fn max_age(&self) -> (out: u64)
        ensures
            out == self.age(),
    {
        self.max_age
    }

    /// The greatest boost that selection may add to a score.
    pub fn max_boost(&self) -> (out: u64)
        ensures
            out == self.boost(),
    {
        self.max_boost
    }

    /// The token that selection falls back to on an empty store.
    pub fn default_token(&self) -> (out: &Option<String>)
        ensures
            text_of(*out) == self.fallback(),
    {
        &self.default_token
    }
}

/// The address that the last line of text came from: where the next
/// selected token is sent.
pub struct Destination {
    address: Option<u64>,
}

impl View for Destination {
    type V = Option<u64>;

    closed spec fn view(&self) -> Option<u64> {
        self.address
    }
}

impl Destination {
    /// No address is known yet.
    pub fn new() -> (out: Self)
        ensures
            out@ == None::<u64>,
    {
        Destination { address: None }
    }

    /// Takes `address` as the destination, in place of any earlier one.
    pub fn set(&mut self, address: u64)
        ensures
            final(self)@ == Some(address),
    {
        self.address = Some(address);
    }

    /// The destination, if one is known.
    pub fn get(&self) -> (out: Option<u64>)
        ensures
            out == self@,
    {
        self.address
    }
}

/// Where the cycle stands.
#[derive(Debug, Clone, Copy, PartialEq, Eq, Structural)]
pub enum Phase {
    /// About to sleep for a random time.
    Waiting,
    /// About to choose a token.
    Selecting,
    /// About to send the chosen token, if there is one.
    Emitting,
    /// About to age the store.
    Evicting,
}

/// What the caller of the cycle does before it calls again.
#[derive(Debug, PartialEq, Eq)]
pub enum Action {
    /// Sleep for this many seconds.
    Sleep { seconds: u64 },
    /// Send `text` to `destination`.
    Send { text: String, destination: u64 },
    /// Nothing is sent, since no destination is known: say so.
    NoDestination,
    /// Nothing is sent, since nothing was selected.
    NothingSelected,
    /// Nothing to do.
    Proceed,
}

/// `action` is what emitting comes to for the given choice and destination:
/// to send the chosen token where a destination is known, to say that none
/// is known where a token was chosen, and else nothing.
pub open spec fn is_emission(action: Action, chosen: Option<Seq<char>>, destination: Option<u64>) -> bool {
    match (chosen, destination) {
        (Some(token), Some(address)) => action matches Action::Send { text, destination: to }
            && text@ == token && to == address,
        (Some(_), None) => action == Action::NoDestination,
        (None, _) => action == Action::NothingSelected,
    }
}

/// What to do with a selection: see `is_emission`.
pub fn emission(chosen: Option<String>, destination: Option<u64>) -> (action: Action)
    ensures
        is_emission(action, text_of(chosen), destination),
{
    match chosen {
        Some(text) => match destination {
            Some(address) => Action::Send { text, destination: address },
            None => Action::NoDestination,
        },
        None => Action::NothingSelected,
    }
}

/// The cycle's state: its configuration, its phase, and between selecting
/// and emitting the token that was chosen.
pub struct Cycle {
    config: CycleConfig,
    phase: Phase,
    chosen: Option<String>,
}

impl Cycle {
    /// The phase that the next step carries out.
    pub closed spec fn phase(self) -> Phase {
        self.phase
    }

    /// The token that the last selection chose, until it is emitted.
    pub closed spec fn chosen(self) -> Option<Seq<char>> {
        text_of(self.chosen)
    }

    /// The configuration.
    pub closed spec fn config(self) -> CycleConfig {
        self.config
    }

    /// A cycle that is about to wait.
    pub fn new(config: CycleConfig) -> (out: Self)
        ensures
            out.phase() == Phase::Waiting,
            out.chosen() == None::<Seq<char>>,
            out.config() == config,
    {
        Cycle { config, phase: Phase::Waiting, chosen: None }
    }

    /// The phase that the next step carries out.
    pub fn current_phase(&self) -> (out: Phase)
        ensures
            out == self.phase(),
    {
        self.phase
    }

    /// Carries out the current phase and moves to the next one.
    ///
    /// Waiting draws the seconds to sleep from the configured interval.
    /// Selecting chooses a token from `store`, with boosts up to the
    /// configured maximum and the configured default. Emitting decides what
    /// is sent to `destination`. Evicting ages `store` at `now`.
    pub fn step(&mut self, store: &mut FrequencyStore, destination: &Destination, now: i64, rng: &mut StdRng) -> (action: Action)
        requires
            old(store).wf(),
        ensures
            final(store).wf(),
            final(self).config() == old(self).config(),
            old(self).phase() == Phase::Waiting ==> {
                &&& final(self).phase() == Phase::Selecting
                &&& action matches Action::Sleep { seconds }
                &&& old(self).config().low() <= seconds <= old(self).config().high()
                &&& final(self).chosen() == old(self).chosen()
                &&& final(store)@ == old(store)@
            },
            old(self).phase() == Phase::Selecting ==> {
                &&& final(self).phase() == Phase::Emitting
                &&& action == Action::Proceed
                &&& final(store)@ == old(store)@
                &&& exists|boosts: Seq<u64>|
                    {
                        &&& boosts.len() == old(store)@.len()
                        &&& forall|i: int| 0 <= i < boosts.len() ==> boosts[i] <= old(self).config().boost()
                        &&& final(self).chosen() == #[trigger] select_model(
                            old(store)@,
                            boosts,
                            old(self).config().fallback(),
                        )
                    }
                &&& old(self).config().boost() == 0 ==> final(self).chosen() == select_model(
                    old(store)@,
                    Seq::new(old(store)@.len(), |i: int| 0u64),
                    old(self).config().fallback(),
                )
            },
            old(self).phase() == Phase::Emitting ==> {
                &&& final(self).phase() == Phase::Evicting
                &&& is_emission(action, old(self).chosen(), destination@)
                &&& final(self).chosen() == None::<Seq<char>>
                &&& final(store)@ == old(store)@
            },
            old(self).phase() == Phase::Evicting ==> {
                &&& final(self).phase() == Phase::Waiting
                &&& action == Action::Proceed
                &&& final(self).chosen() == old(self).chosen()
                &&& final(store)@ == expire_model(old(store)@, now, old(self).config().age())
                &&& is_compact(final(store)@)
            },
    {
        match self.phase {
            Phase::Waiting => {
                let low = self.config.interval_low();
                let high = self.config.interval_high();
                let seconds = draw_between(rng, low, high);
                self.phase = Phase::Selecting;
                Action::Sleep { seconds }
            },
            Phase::Selecting => {
                let chosen = store.select_weighted_max(rng, self.config.max_boost(), self.config.default_token());
                self.chosen = chosen;
                self.phase = Phase::Emitting;
                Action::Proceed
            },
            Phase::Emitting => {
                let chosen = self.chosen.take();
                self.phase = Phase::Evicting;
                emission(chosen, destination.get())
            },
            Phase::Evicting => {
                store.expire(now, self.config.max_age());
                self.phase = Phase::Waiting;
                Action::Proceed
            },
        }
    }
}

} // verus!
