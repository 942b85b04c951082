//! Rate-limit state: a byte counter over a fixed window.

use vstd::prelude::*;
use std::time::Instant;

verus! {

#[verifier::external_type_specification]
#[verifier::external_body]
pub struct ExInstant(Instant);

/// Length of the accounting window in milliseconds.
pub const PERIOD_MILLIS: u128 = 500;

/// What a bucket holds, as mathematical values.
pub struct BucketState {
    /// Bytes accounted in the current window.
    pub bytes: nat,
    /// Start of the current window, in milliseconds on the bucket's clock.
    pub window_start: nat,
    /// Byte budget of one window.
    pub limit: nat,
}

impl BucketState {
    /// Whether `now` lies beyond the window that started at `window_start`.
    pub open spec fn window_over(self, now: nat) -> bool {
        now > self.window_start + PERIOD_MILLIS as nat
    }

    /// The state after an access at `now`: a window that is over starts anew.
    pub open spec fn accessed(self, now: nat) -> BucketState {
        if self.window_over(now) {
            BucketState { bytes: 0, window_start: now, limit: self.limit }
        } else {
            self
        }
    }

    /// Whether `size` bytes fit at `now`: strictly under the limit.
    pub open spec fn admits(self, now: nat, size: nat) -> bool {
        self.accessed(now).bytes + size < self.limit
    }

    /// The state after charging `size` bytes at `now`. A charge that does
    /// not fit is not committed.
    pub open spec fn charged(self, now: nat, size: nat) -> BucketState {
        let s = self.accessed(now);
        if self.admits(now, size) {
            BucketState { bytes: s.bytes + size, window_start: s.window_start, limit: s.limit }
        } else {
            s
        }
    }
}

/// Within a window, a charge that is admitted adds exactly its size and one
/// that is refused changes nothing; the limit and the window stay.
pub proof fn lemma_charge_within_window(s: BucketState, now: nat, size: nat)
    requires
        !s.window_over(now),
    ensures
        s.admits(now, size) ==> s.charged(now, size).bytes == s.bytes + size,
        !s.admits(now, size) ==> s.charged(now, size) == s,
        s.charged(now, size).limit == s.limit,
        s.charged(now, size).window_start == s.window_start,
{
}

/// At any time, a charge that is admitted adds exactly its size to what
/// the window held on access, and one that is refused leaves that amount.
/// A bucket within its limit stays within it.
pub proof fn lemma_charge(s: BucketState, now: nat, size: nat)
    ensures
        s.admits(now, size) ==> s.charged(now, size).bytes == s.accessed(now).bytes + size,
        !s.admits(now, size) ==> s.charged(now, size) == s.accessed(now),
        s.bytes <= s.limit ==> s.charged(now, size).bytes <= s.limit,
        s.window_over(now) ==> s.accessed(now).bytes == 0 && s.accessed(now).window_start == now,
{
}

/// A token bucket with a fixed window. Time is read from a monotonic clock
/// that starts when the bucket is made.
pub struct Bucket {
    bytes: usize,
    timestamp: u128,
    limit: usize,
    started: Instant,
}

/// `Instant::now`: a reading of the monotonic clock. Nothing is known of it.
#[verifier::external_body]
fn clock_start() -> Instant {
    Instant::now()
}

/// `Instant::elapsed`: the milliseconds that have passed since `start`.
/// The result depends on when the call is made, so nothing is promised.
#[verifier::external_body]
fn clock_millis(start: &Instant) -> u128 {
    start.elapsed().as_millis()
}

impl View for Bucket {
    type V = BucketState;

    closed spec fn view(&self) -> BucketState {
        BucketState {
            bytes: self.bytes as nat,
            window_start: self.timestamp as nat,
            limit: self.limit as nat,
        }
    }
}

impl Bucket {
    /// The accumulated bytes never exceed the limit.
    #[verifier::type_invariant]
    closed spec fn inv(&self) -> bool {
        self.bytes <= self.limit
    }

    /// An empty bucket whose first window starts now.
    pub fn new(limit: usize) -> (b: Bucket)
        ensures
            b@ == (BucketState { bytes: 0, window_start: 0, limit: limit as nat }),
    {
        Bucket { bytes: 0, timestamp: 0, limit, started: clock_start() }
    }

    /// The byte budget of one window.
    pub fn limit(&self) -> (l: usize)
        ensures
            l == self@.limit,
    {
        self.limit
    }

    /// Accesses the bucket at the clock reading `now` and returns the bytes
    /// accounted in the window that is then current.
    pub fn bytes_at(&mut self, now: u128) -> (n: usize)
        ensures
            final(self)@ == old(self)@.accessed(now as nat),
            n == final(self)@.bytes,
            n <= final(self)@.limit,
    {
        proof {
            use_type_invariant(&*self);
        }
        let over = now > self.timestamp && now - self.timestamp > PERIOD_MILLIS;
        if over {
            self.timestamp = now;
            self.bytes = 0;
        }
        self.bytes
    }

    /// Charges `size` bytes at the clock reading `now`. Returns whether they
    /// fit strictly under the limit; only then is the charge committed.
    pub fn stuff_at(&mut self, now: u128, size: usize) -> (fits: bool)
        ensures
            fits == old(self)@.admits(now as nat, size as nat),
            final(self)@ == old(self)@.charged(now as nat, size as nat),
            fits ==> final(self)@.bytes == old(self)@.accessed(now as nat).bytes + size,
            !fits ==> final(self)@.bytes == old(self)@.accessed(now as nat).bytes,
    {
        let current = self.bytes_at(now);
        proof {
            use_type_invariant(&*self);
        }
        let fits = match current.checked_add(size) {
            Some(total) => total < self.limit,
            None => false,
        };
        if fits {
            self.bytes = current + size;
        }
        fits
    }

    /// Accesses the bucket at the present time. The result is that of
    /// [`Bucket::bytes_at`] for the reading the clock gave.
    pub fn bytes(&mut self) -> (n: usize)
        ensures
            exists|now: u128| final(self)@ == old(self)@.accessed(now as nat),
            n == final(self)@.bytes,
    {
        let now = clock_millis(&self.started);
        self.bytes_at(now)
    }

    /// Charges `size` bytes at the present time. The result is that of
    /// [`Bucket::stuff_at`] for the reading the clock gave.
    pub fn stuff(&mut self, size: usize) -> (fits: bool)
        ensures
            exists|now: u128|
                fits == old(self)@.admits(now as nat, size as nat)
                && final(self)@ == #[trigger] old(self)@.charged(now as nat, size as nat),
    {
        let now = clock_millis(&self.started);
        self.stuff_at(now, size)
    }
}

} // verus!
