use vstd::prelude::*;

verus! {

/// A join-semilattice over `u64`: merging two values keeps the larger one.
#[derive(Debug, Default, Clone, Copy, PartialEq, Eq, Structural, PartialOrd, Ord, Hash)]
pub struct Max {
    pub value: u64,
}

/// The join of the semilattice.
pub open spec fn join(a: u64, b: u64) -> u64 {
    if a >= b { a } else { b }
}

impl Max {
    pub open spec fn view(&self) -> u64 {
        self.value
    }

    pub fn new(value: u64) -> (r: Max)
        ensures
            r@ == value,
    {
        Max { value }
    }

    pub fn get(&self) -> (r: u64)
        ensures
            r == self@,
    {
        self.value
    }

    /// Join `other` into `self`.
    pub fn merge(&mut self, other: Max)
        ensures
            final(self)@ == join(old(self)@, other@),
    {
        if other.value > self.value {
            self.value = other.value;
        }
    }

    /// Increment the value by one and return the new value.
    pub fn incr(&mut self) -> (r: u64)
        requires
            old(self)@ < u64::MAX,
        ensures
            final(self)@ == old(self)@ + 1,
            r == final(self)@,
    {
        self.value = self.value + 1;
        self.value
    }
}

/// Lamport clock.
#[derive(Debug, Default, Clone, Copy, PartialEq, Eq, Structural, PartialOrd, Ord, Hash)]
pub struct Lamport {
    pub counter: Max,
}

/// The value of a Lamport clock after it merged with a clock at `b`.
pub open spec fn lamport_merged(a: u64, b: u64) -> int {
    join(a, b) + 1
}

impl Lamport {
    pub open spec fn view(&self) -> u64 {
        self.counter@
    }

    /// Return the clock value.
    pub fn get(&self) -> (r: u64)
        ensures
            r == self@,
    {
        self.counter.get()
    }

    /// Increment clock and return the new clock.
    /// Must be called before sending a message.
    pub fn tick(&mut self) -> (r: Lamport)
        requires
            old(self)@ < u64::MAX,
        ensures
            final(self)@ == old(self)@ + 1,
            r@ == final(self)@,
    {
        self.counter.incr();
        *self
    }

    /// Merge clock with another clock, and increment value.
    /// Must be called whenever a message is received.
    pub fn merge(&mut self, other: Lamport) -> (r: Lamport)
        requires
            old(self)@ < u64::MAX,
            other@ < u64::MAX,
        ensures
            final(self)@ == lamport_merged(old(self)@, other@),
            r@ == final(self)@,
    {
        self.counter.merge(other.counter);
        self.tick()
    }

    /// Reset clock to its initial state.
    pub fn reset(&mut self)
        ensures
            final(self)@ == 0,
    {
        self.counter = Max::new(0);
    }

    /// The smallest clock.
    pub fn min_value() -> (r: Lamport)
        ensures
            r@ == 0,
    {
        Lamport { counter: Max::new(0) }
    }

    /// The largest clock.
    pub fn max_value() -> (r: Lamport)
        ensures
            r@ == u64::MAX,
    {
        Lamport { counter: Max::new(u64::MAX) }
    }
}

impl From<u64> for Lamport {
    fn from(counter: u64) -> (r: Lamport) {
        Lamport { counter: Max::new(counter) }
    }
}

impl vstd::std_specs::convert::FromSpecImpl<u64> for Lamport {
    open spec fn obeys_from_spec() -> bool {
        true
    }

    open spec fn from_spec(v: u64) -> Lamport {
        Lamport { counter: Max { value: v } }
    }
}

/// Physical clock. Tracks real-time by the second.
#[derive(Debug, Default, Clone, Copy, PartialEq, Eq, Structural, PartialOrd, Ord, Hash)]
pub struct Physical {
    pub seconds: u64,
}

#[verifier::external_type_specification]
#[verifier::external_body]
pub struct ExSystemTime(std::time::SystemTime);

/// Relies on `SystemTime::now`: the system clock's reading. Nothing is
/// promised of it.
#[verifier::external_body]
fn system_now() -> (r: std::time::SystemTime) {
    std::time::SystemTime::now()
}

/// Relies on `SystemTime::duration_since` with `UNIX_EPOCH`: the time from
/// the epoch to `t`, or `None` when `t` is before the epoch.
#[verifier::external_body]
fn since_epoch(t: std::time::SystemTime) -> (r: Option<std::time::Duration>) {
    match t.duration_since(std::time::UNIX_EPOCH) {
        Ok(d) => Some(d),
        Err(_) => None,
    }
}

/// Relies on `Duration::as_secs`: the whole seconds of `d`, its fraction
/// left out.
#[verifier::external_body]
fn whole_seconds(d: std::time::Duration) -> (r: u64) {
    d.as_secs()
}

impl Physical {
    pub open spec fn view(&self) -> u64 {
        self.seconds
    }

    pub fn new(seconds: u64) -> (r: Physical)
        ensures
            r@ == seconds,
    {
        Physical { seconds }
    }

    /// The current time, read from the system clock. A clock set before
    /// the epoch reads as the epoch.
    pub fn now() -> (r: Physical) {
        match since_epoch(system_now()) {
            Some(d) => Physical { seconds: whole_seconds(d) },
            None => Physical { seconds: 0 },
        }
    }

    pub fn as_secs(&self) -> (r: u64)
        ensures
            r == self@,
    {
        self.seconds
    }

    /// The time `rhs` seconds later.
    pub fn add(self, rhs: u64) -> (r: Physical)
        requires
            self@ + rhs <= u64::MAX,
        ensures
            r@ == self@ + rhs,
    {
        Physical { seconds: self.seconds + rhs }
    }

    /// The earliest time.
    pub fn min_value() -> (r: Physical)
        ensures
            r@ == 0,
    {
        Physical { seconds: 0 }
    }

    /// The latest time.
    pub fn max_value() -> (r: Physical)
        ensures
            r@ == u64::MAX,
    {
        Physical { seconds: u64::MAX }
    }
}

impl From<u64> for Physical {
    fn from(seconds: u64) -> (r: Physical) {
        Physical { seconds }
    }
}

impl vstd::std_specs::convert::FromSpecImpl<u64> for Physical {
    open spec fn obeys_from_spec() -> bool {
        true
    }

    open spec fn from_spec(v: u64) -> Physical {
        Physical { seconds: v }
    }
}

/// Merging keeps the larger value, so it is commutative.
pub proof fn max_merge_commutative(a: Max, b: Max)
    ensures
        join(a@, b@) == join(b@, a@),
{
}

/// Merging is associative.
pub proof fn max_merge_associative(a: Max, b: Max, c: Max)
    ensures
        join(join(a@, b@), c@) == join(a@, join(b@, c@)),
{
}

/// Merging a value with itself leaves it as it was.
pub proof fn max_merge_idempotent(a: Max)
    ensures
        join(a@, a@) == a@,
{
}

/// Merging two Lamport clocks gives the same value whichever side receives.
pub proof fn lamport_merge_commutative(a: Lamport, b: Lamport)
    ensures
        lamport_merged(a@, b@) == lamport_merged(b@, a@),
{
}

/// The join step of a Lamport merge, before the tick, is associative and idempotent.
pub proof fn lamport_join_laws(a: Lamport, b: Lamport, c: Lamport)
    ensures
        join(join(a@, b@), c@) == join(a@, join(b@, c@)),
        join(a@, a@) == a@,
{
}

/// After a merge the receiver strictly dominates both clocks.
pub proof fn lamport_merge_dominates(a: Lamport, b: Lamport)
    ensures
        lamport_merged(a@, b@) > a@,
        lamport_merged(a@, b@) > b@,
{
}

} // verus!
