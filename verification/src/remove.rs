//! Removing a cgroup, which takes as long as something is still in it.

use vstd::prelude::*;

use crate::fault::{busy, is_in_use, not_empty, IoCause};

verus! {

/// How often removing a cgroup is tried.
pub const MAX_ATTEMPTS: u32 = 50;

/// How long to wait after the first attempt, in milliseconds.
pub const INITIAL_DELAY: u64 = 10;

/// How long to wait at most, in milliseconds.
pub const MAX_DELAY: u64 = 1000;

/// What an attempt to remove a cgroup gave.
#[derive(Clone, Copy, Debug)]
pub enum Attempt {
    /// It is removed.
    Removed,
    /// It was refused, but the cgroup is no longer there.
    Gone,
    /// It was refused, and the cgroup is still there.
    Refused(IoCause),
}

/// What comes after an attempt.
#[derive(Clone, Copy, Debug, PartialEq, Eq, Structural)]
pub enum After {
    /// Nothing: the cgroup is not there any more.
    Done,
    /// Wait for so many milliseconds and try again.
    Wait(u64),
    /// Give up: the cgroup has been in use at every attempt.
    Busy,
    /// Give up: the system refuses.
    Refused,
}

/// How long to wait after the `k`th attempt: twice as long each time, up to a
/// second.
pub open spec fn delay_after(k: int) -> int
    decreases k,
{
    if k <= 1 {
        INITIAL_DELAY as int
    } else if 2 * delay_after(k - 1) > MAX_DELAY {
        MAX_DELAY as int
    } else {
        2 * delay_after(k - 1)
    }
}

/// Whether a cgroup could not be removed because something is in it.
pub open spec fn in_use(said: Attempt) -> bool {
    match said {
        Attempt::Refused(c) => busy(c) || not_empty(c),
        _ => false,
    }
}

/// What comes after the `k`th attempt.
pub open spec fn after_attempt(k: int, said: Attempt) -> After {
    if !(said is Refused) {
        After::Done
    } else if !in_use(said) {
        After::Refused
    } else if k >= MAX_ATTEMPTS {
        After::Busy
    } else {
        After::Wait(delay_after(k) as u64)
    }
}

/// The attempts to remove a cgroup so far.
#[derive(Debug)]
pub struct Removal {
    attempt: u32,
    delay: u64,
}

impl Removal {
    #[verifier::type_invariant]
    spec fn in_range(self) -> bool {
        &&& 1 <= self.attempt <= MAX_ATTEMPTS
        &&& self.delay == delay_after(self.attempt as int)
        &&& self.delay <= MAX_DELAY
    }

    /// The number of the attempt that comes next.
    pub closed spec fn attempt(&self) -> int {
        self.attempt as int
    }

    /// Before the first attempt.
    pub fn new() -> (r: Removal)
        ensures
            r.attempt() == 1,
    {
        Removal { attempt: 1, delay: INITIAL_DELAY }
    }

    /// Takes in what an attempt gave, and says what comes next.
    pub fn remove_cgroup_with_retry(&mut self, said: Attempt) -> (r: After)
        ensures
            r == after_attempt(old(self).attempt(), said),
            final(self).attempt() == if r is Wait {
                old(self).attempt() + 1
            } else {
                old(self).attempt()
            },
    {
        proof {
            use_type_invariant(&*self);
        }
        match said {
            Attempt::Removed => After::Done,
            Attempt::Gone => After::Done,
            Attempt::Refused(c) => if !is_in_use(&c) {
                After::Refused
            } else if self.attempt >= MAX_ATTEMPTS {
                After::Busy
            } else {
                let waited = self.delay;
                let doubled = if waited * 2 > MAX_DELAY {
                    MAX_DELAY
                } else {
                    waited * 2
                };
                *self = Removal { attempt: self.attempt + 1, delay: doubled };
                After::Wait(waited)
            },
        }
    }
}

/// Says why a cgroup was not removed, where removing it was given up.
pub fn removal_message(end: After, path: &str) -> (r: Option<String>)
    ensures
        match end {
            After::Busy => r matches Some(t) && t@ == "cgroup busy: "@ + path@,
            After::Refused => r matches Some(t) && t@ == "rmdir "@ + path@,
            _ => r is None,
        },
{
    match end {
        After::Busy => Some("cgroup busy: ".to_owned().concat(path)),
        After::Refused => Some("rmdir ".to_owned().concat(path)),
        _ => None,
    }
}

/// How the attempts from the `k`th on end, where the `i`th gives `said[i - 1]`;
/// `None` where there are not enough of them.
pub open spec fn removal_from(said: Seq<Attempt>, k: int) -> Option<After>
    decreases said.len() + 1 - k,
{
    if !(1 <= k <= said.len()) {
        None
    } else {
        match after_attempt(k, said[k - 1]) {
            After::Wait(_) => removal_from(said, k + 1),
            end => Some(end),
        }
    }
}

/// How long the waits after the first `k` attempts take together.
pub open spec fn waited(k: int) -> int
    decreases k,
{
    if k <= 0 {
        0
    } else {
        waited(k - 1) + delay_after(k)
    }
}

proof fn lemma_removal_from(said: Seq<Attempt>, k: int)
    requires
        1 <= k <= MAX_ATTEMPTS,
        said.len() >= MAX_ATTEMPTS,
    ensures
        removal_from(said, k) is Some,
        removal_from(said, k) != Some(After::Busy) ==> exists|i: int|
            k <= i <= MAX_ATTEMPTS && !in_use(#[trigger] said[i - 1]) && removal_from(said, k)
                == Some(after_attempt(i, said[i - 1])) && forall|j: int|
                k <= j < i ==> in_use(#[trigger] said[j - 1]),
        removal_from(said, k) == Some(After::Busy) ==> forall|j: int|
            k <= j <= MAX_ATTEMPTS ==> in_use(#[trigger] said[j - 1]),
    decreases said.len() - k,
{
    let next = after_attempt(k, said[k - 1]);
    if next is Wait {
        lemma_removal_from(said, k + 1);
        if removal_from(said, k) != Some(After::Busy) {
            let i = choose|i: int|
                k + 1 <= i <= MAX_ATTEMPTS && !in_use(#[trigger] said[i - 1]) && removal_from(
                    said,
                    k + 1,
                ) == Some(after_attempt(i, said[i - 1])) && forall|j: int|
                    k + 1 <= j < i ==> in_use(#[trigger] said[j - 1]);
            assert(k <= i && !in_use(said[i - 1]));
        }
    } else if next != After::Busy {
        assert(!in_use(said[k - 1]));
    }
}

/// Removing a cgroup always ends: with the first attempt that finds nothing in
/// it, or busy where the last allowed attempt still finds something.
pub proof fn law_removal_ends(said: Seq<Attempt>)
    requires
        said.len() >= MAX_ATTEMPTS,
    ensures
        removal_from(said, 1) is Some,
        removal_from(said, 1) == Some(After::Busy) <==> forall|j: int|
            1 <= j <= MAX_ATTEMPTS ==> in_use(#[trigger] said[j - 1]),
        removal_from(said, 1) != Some(After::Busy) ==> exists|i: int|
            1 <= i <= MAX_ATTEMPTS && !in_use(#[trigger] said[i - 1]) && removal_from(said, 1)
                == Some(after_attempt(i, said[i - 1])) && forall|j: int|
                1 <= j < i ==> in_use(#[trigger] said[j - 1]),
{
    lemma_removal_from(said, 1);
}

/// Between the first attempt and the last, 43.27 seconds are waited.
pub proof fn law_removal_waits_are_bounded()
    ensures
        waited(MAX_ATTEMPTS - 1) == 43270,
{
    assert(delay_after(1) == 10);
    assert(delay_after(2) == 20);
    assert(delay_after(3) == 40);
    assert(delay_after(4) == 80);
    assert(delay_after(5) == 160);
    assert(delay_after(6) == 320);
    assert(delay_after(7) == 640);
    assert(waited(7) == 1270) by {
        reveal_with_fuel(waited, 8);
    }
    lemma_long_waits(MAX_ATTEMPTS - 1);
}

proof fn lemma_long_waits(k: int)
    requires
        k >= 7,
        waited(7) == 1270,
        delay_after(7) == 640,
    ensures
        waited(k) == 1270 + (k - 7) * 1000,
        delay_after(k) == if k == 7 {
            640int
        } else {
            1000
        },
    decreases k,
{
    if k > 7 {
        lemma_long_waits(k - 1);
    }
}

/// The waits begin with ten milliseconds and double each time, up to a second.
pub proof fn law_waits_double(k: int)
    requires
        k >= 1,
    ensures
        delay_after(1) == 10,
        delay_after(k + 1) == if 2 * delay_after(k) > 1000 {
            1000
        } else {
            2 * delay_after(k)
        },
        10 <= delay_after(k) <= 1000,
    decreases k,
{
    if k > 1 {
        law_waits_double(k - 1);
    }
}

/// An attempt that finds the cgroup gone is the last, as is one that is refused
/// for another reason than that something is in it. Where something is in it,
/// fifty attempts are made before it is given up.
pub proof fn law_attempts(k: int, c: IoCause)
    requires
        k >= 1,
    ensures
        after_attempt(k, Attempt::Removed) == After::Done,
        after_attempt(k, Attempt::Gone) == After::Done,
        busy(c) || not_empty(c) ==> after_attempt(k, Attempt::Refused(c)) == if k < 50 {
            After::Wait(delay_after(k) as u64)
        } else {
            After::Busy
        },
        !busy(c) && !not_empty(c) ==> after_attempt(k, Attempt::Refused(c)) == After::Refused,
{
}

} // verus!
