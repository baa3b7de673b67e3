//! Signals by name and by number.

use vstd::prelude::*;

use crate::number::{
    alike, fold, is_digit, lemma_alike_through, lemma_signed_decimal, lemma_signed_ignores_case,
    parse_i32, same_ignoring_case, signed, signed_decimal, within_i32,
};

verus! {

/// Hang up.
pub const SIGHUP: i32 = 1;

/// Interrupt.
pub const SIGINT: i32 = 2;

/// Quit.
pub const SIGQUIT: i32 = 3;

/// Kill, which cannot be caught.
pub const SIGKILL: i32 = 9;

/// The first signal that users give a meaning.
pub const SIGUSR1: i32 = 10;

/// The second signal that users give a meaning.
pub const SIGUSR2: i32 = 12;

/// Terminate.
pub const SIGTERM: i32 = 15;

/// Continue after a stop.
pub const SIGCONT: i32 = 18;

/// Stop, which cannot be caught.
pub const SIGSTOP: i32 = 19;

/// The highest number of a signal that has a name.
pub const LAST_SIGNAL: i32 = 31;

/// `nix::sys::signal::SIGHUP` as a number.
#[verifier::external_body]
fn sighup() -> (n: i32)
    ensures
        n == SIGHUP,
{
    nix::sys::signal::SIGHUP as i32
}

/// `nix::sys::signal::SIGINT` as a number.
#[verifier::external_body]
fn sigint() -> (n: i32)
    ensures
        n == SIGINT,
{
    nix::sys::signal::SIGINT as i32
}

/// `nix::sys::signal::SIGQUIT` as a number.
#[verifier::external_body]
fn sigquit() -> (n: i32)
    ensures
        n == SIGQUIT,
{
    nix::sys::signal::SIGQUIT as i32
}

/// `nix::sys::signal::SIGKILL` as a number.
#[verifier::external_body]
fn sigkill() -> (n: i32)
    ensures
        n == SIGKILL,
{
    nix::sys::signal::SIGKILL as i32
}

/// `nix::sys::signal::SIGUSR1` as a number: 10, as Linux numbers it on every
/// architecture but MIPS and SPARC.
#[verifier::external_body]
fn sigusr1() -> (n: i32)
    ensures
        n == SIGUSR1,
{
    nix::sys::signal::SIGUSR1 as i32
}

/// `nix::sys::signal::SIGUSR2` as a number: 12, as Linux numbers it on every
/// architecture but MIPS and SPARC.
#[verifier::external_body]
fn sigusr2() -> (n: i32)
    ensures
        n == SIGUSR2,
{
    nix::sys::signal::SIGUSR2 as i32
}

/// `nix::sys::signal::SIGTERM` as a number.
#[verifier::external_body]
fn sigterm() -> (n: i32)
    ensures
        n == SIGTERM,
{
    nix::sys::signal::SIGTERM as i32
}

/// `nix::sys::signal::SIGCONT` as a number: 18, as Linux numbers it on every
/// architecture but MIPS and SPARC.
#[verifier::external_body]
fn sigcont() -> (n: i32)
    ensures
        n == SIGCONT,
{
    nix::sys::signal::SIGCONT as i32
}

/// `nix::sys::signal::SIGSTOP` as a number: 19, as Linux numbers it on every
/// architecture but MIPS and SPARC.
#[verifier::external_body]
fn sigstop() -> (n: i32)
    ensures
        n == SIGSTOP,
{
    nix::sys::signal::SIGSTOP as i32
}

/// `nix::sys::signal::Signal::try_from`: the numbers 1 to 31 are signals, as
/// Linux numbers them on every architecture but MIPS and SPARC, and no other
/// number is one. A signal's number is the one that it was made from.
#[verifier::external_body]
fn signal_try_from(n: i32) -> (r: Option<i32>)
    ensures
        r == if 1 <= n <= LAST_SIGNAL {
            Some(n)
        } else {
            None
        },
{
    match nix::sys::signal::Signal::try_from(n) {
        Ok(s) => Some(s as i32),
        Err(_) => None,
    }
}

/// The name of the signal with a number, as `nix::sys::signal::Signal` has it.
pub uninterp spec fn signal_name(n: int) -> Seq<char>;

/// The `Debug` text of a `nix::sys::signal::Signal`, which is the name of its
/// variant and so depends on its number alone. Which name goes with which number
/// is left unsaid.
#[verifier::external_body]
fn signal_debug(n: i32) -> (r: Option<String>)
    ensures
        r is Some <==> 1 <= n <= LAST_SIGNAL,
        r matches Some(t) ==> t@ == signal_name(n as int),
{
    match nix::sys::signal::Signal::try_from(n) {
        Ok(s) => Some(format!("{s:?}")),
        Err(_) => None,
    }
}

/// A signal, which is its number.
#[derive(Clone, Copy, Debug)]
pub struct Signal {
    number: i32,
}

impl View for Signal {
    type V = int;

    closed spec fn view(&self) -> int {
        self.number as int
    }
}

impl Signal {
    #[verifier::type_invariant]
    spec fn has_name(self) -> bool {
        1 <= self.number <= LAST_SIGNAL
    }

    /// The signal's number.
    pub fn number(&self) -> (n: i32)
        ensures
            n == self@,
            1 <= n <= LAST_SIGNAL,
    {
        proof {
            use_type_invariant(self);
        }
        self.number
    }

    /// The signal's name, such as `SIGTERM`.
    pub fn name(&self) -> (r: String)
        ensures
            r@ == signal_name(self@),
    {
        match signal_debug(self.number()) {
            Some(t) => t,
            None => String::new(),
        }
    }

    /// The signal with a number.
    pub fn from_number(n: i32) -> (r: Option<Signal>)
        ensures
            match r {
                Some(s) => s@ == n && 1 <= n <= LAST_SIGNAL,
                None => !(1 <= n <= LAST_SIGNAL),
            },
    {
        match signal_try_from(n) {
            Some(number) => Some(Signal { number }),
            None => None,
        }
    }

    /// Hang up.
    pub fn hup() -> (s: Signal)
        ensures
            s@ == SIGHUP,
    {
        Signal { number: sighup() }
    }

    /// Interrupt.
    pub fn interrupt() -> (s: Signal)
        ensures
            s@ == SIGINT,
    {
        Signal { number: sigint() }
    }

    /// Quit.
    pub fn quit() -> (s: Signal)
        ensures
            s@ == SIGQUIT,
    {
        Signal { number: sigquit() }
    }

    /// Kill, which cannot be caught.
    pub fn kill() -> (s: Signal)
        ensures
            s@ == SIGKILL,
    {
        Signal { number: sigkill() }
    }

    /// The first signal that users give a meaning.
    pub fn usr1() -> (s: Signal)
        ensures
            s@ == SIGUSR1,
    {
        Signal { number: sigusr1() }
    }

    /// The second signal that users give a meaning.
    pub fn usr2() -> (s: Signal)
        ensures
            s@ == SIGUSR2,
    {
        Signal { number: sigusr2() }
    }

    /// Terminate.
    pub fn term() -> (s: Signal)
        ensures
            s@ == SIGTERM,
    {
        Signal { number: sigterm() }
    }

    /// Continue after a stop.
    pub fn cont() -> (s: Signal)
        ensures
            s@ == SIGCONT,
    {
        Signal { number: sigcont() }
    }

    /// Stop, which cannot be caught.
    pub fn stop() -> (s: Signal)
        ensures
            s@ == SIGSTOP,
    {
        Signal { number: sigstop() }
    }
}

/// The name of a signal without the `SIG` before it, however often that stands
/// there.
pub open spec fn bare_name(s: Seq<char>) -> Seq<char>
    decreases s.len(),
{
    if s.len() >= 3 && alike(s.take(3), "SIG"@) {
        bare_name(s.skip(3))
    } else {
        s
    }
}

/// The signal that a bare name or a number stands for.
pub open spec fn signal_called(name: Seq<char>) -> Option<int> {
    if alike(name, "TERM"@) {
        Some(SIGTERM as int)
    } else if alike(name, "KILL"@) {
        Some(SIGKILL as int)
    } else if alike(name, "HUP"@) {
        Some(SIGHUP as int)
    } else if alike(name, "INT"@) {
        Some(SIGINT as int)
    } else if alike(name, "QUIT"@) {
        Some(SIGQUIT as int)
    } else if alike(name, "USR1"@) {
        Some(SIGUSR1 as int)
    } else if alike(name, "USR2"@) {
        Some(SIGUSR2 as int)
    } else {
        match within_i32(signed(name)) {
            Some(n) => if 1 <= n <= LAST_SIGNAL {
                Some(n)
            } else {
                None
            },
            None => None,
        }
    }
}

/// Strips `SIG` from the front of a signal's name.
fn strip_sig<'a>(s: &'a str) -> (r: &'a str)
    ensures
        r@ == bare_name(s@),
{
    let mut t = s;
    loop
        invariant
            bare_name(t@) == bare_name(s@),
        decreases t@.len(),
    {
        let n = t.unicode_len();
        if n < 3 {
            return t;
        }
        let head = t.substring_char(0, 3);
        assert(head@ =~= t@.take(3));
        if !same_ignoring_case(head, "SIG") {
            return t;
        }
        let rest = t.substring_char(3, n);
        assert(rest@ =~= t@.skip(3));
        t = rest;
    }
}

/// Reads a signal: `TERM`, `KILL`, `HUP`, `INT`, `QUIT`, `USR1` or `USR2` in any
/// case, with `SIG` before it or not, or a signal's number.
pub fn parse_signal(s: &str) -> (r: Option<Signal>)
    ensures
        match r {
            Some(sig) => signal_called(bare_name(s@)) == Some(sig@),
            None => signal_called(bare_name(s@)) is None,
        },
{
    let name = strip_sig(s);
    if same_ignoring_case(name, "TERM") {
        Some(Signal::term())
    } else if same_ignoring_case(name, "KILL") {
        Some(Signal::kill())
    } else if same_ignoring_case(name, "HUP") {
        Some(Signal::hup())
    } else if same_ignoring_case(name, "INT") {
        Some(Signal::interrupt())
    } else if same_ignoring_case(name, "QUIT") {
        Some(Signal::quit())
    } else if same_ignoring_case(name, "USR1") {
        Some(Signal::usr1())
    } else if same_ignoring_case(name, "USR2") {
        Some(Signal::usr2())
    } else {
        match parse_i32(name) {
            Some(n) => Signal::from_number(n),
            None => None,
        }
    }
}

/// What to say of a text that is no signal.
pub fn unknown_signal(s: &str) -> (r: String)
    ensures
        r@ == "unknown signal '"@ + s@ + "' (try TERM, KILL, HUP, INT, 9, 15)"@,
{
    "unknown signal '".to_owned().concat(s).concat("' (try TERM, KILL, HUP, INT, 9, 15)")
}

/// A signal's name means the same with `SIG` before it.
pub proof fn law_sig_prefix_is_optional(s: Seq<char>)
    ensures
        bare_name("SIG"@ + s) == bare_name(s),
{
    reveal_strlit("SIG");
    let t = "SIG"@ + s;
    assert(t.take(3) =~= "SIG"@);
    assert(t.skip(3) =~= s);
}

proof fn lemma_alike_bare(a: Seq<char>, b: Seq<char>)
    requires
        alike(a, b),
    ensures
        alike(bare_name(a), bare_name(b)),
    decreases a.len(),
{
    if a.len() >= 3 {
        assert forall|i: int| 0 <= i < 3 implies fold(#[trigger] a.take(3)[i]) == fold(
            b.take(3)[i],
        ) by {
            assert(fold(a[i]) == fold(b[i]));
        }
        assert forall|i: int| 0 <= i < a.len() - 3 implies fold(#[trigger] a.skip(3)[i]) == fold(
            b.skip(3)[i],
        ) by {
            assert(fold(a[i + 3]) == fold(b[i + 3]));
        }
        lemma_alike_through("SIG"@, a.take(3), b.take(3));
        lemma_alike_bare(a.skip(3), b.skip(3));
    }
}

/// The case of letters does not matter to the name of a signal.
pub proof fn law_signals_ignore_case(a: Seq<char>, b: Seq<char>)
    requires
        alike(a, b),
    ensures
        signal_called(bare_name(a)) == signal_called(bare_name(b)),
{
    lemma_alike_bare(a, b);
    let (x, y) = (bare_name(a), bare_name(b));
    lemma_alike_through("TERM"@, x, y);
    lemma_alike_through("KILL"@, x, y);
    lemma_alike_through("HUP"@, x, y);
    lemma_alike_through("INT"@, x, y);
    lemma_alike_through("QUIT"@, x, y);
    lemma_alike_through("USR1"@, x, y);
    lemma_alike_through("USR2"@, x, y);
    lemma_signed_ignores_case(x, y);
}

/// Each signal that has a name here is known by it, in whatever case.
pub proof fn law_signals_by_name(name: Seq<char>)
    ensures
        alike(name, "TERM"@) ==> signal_called(name) == Some(15int),
        alike(name, "KILL"@) ==> signal_called(name) == Some(9int),
        alike(name, "HUP"@) ==> signal_called(name) == Some(1int),
        alike(name, "INT"@) ==> signal_called(name) == Some(2int),
        alike(name, "QUIT"@) ==> signal_called(name) == Some(3int),
        alike(name, "USR1"@) ==> signal_called(name) == Some(10int),
        alike(name, "USR2"@) ==> signal_called(name) == Some(12int),
        signal_called(name) is Some ==> alike(name, "TERM"@) || alike(name, "KILL"@) || alike(
            name,
            "HUP"@,
        ) || alike(name, "INT"@) || alike(name, "QUIT"@) || alike(name, "USR1"@) || alike(
            name,
            "USR2"@,
        ) || (signed(name) matches Some(n) && 1 <= n <= 31),
{
    reveal_strlit("TERM");
    reveal_strlit("KILL");
    reveal_strlit("HUP");
    reveal_strlit("INT");
    reveal_strlit("QUIT");
    reveal_strlit("USR1");
    reveal_strlit("USR2");
    if name.len() > 0 {
        assert(alike(name, "TERM"@) ==> fold(name[0]) == 116);
        assert(alike(name, "KILL"@) ==> fold(name[0]) == 107);
        assert(alike(name, "HUP"@) ==> fold(name[0]) == 104);
        assert(alike(name, "INT"@) ==> fold(name[0]) == 105);
        assert(alike(name, "QUIT"@) ==> fold(name[0]) == 113);
        assert(alike(name, "USR1"@) ==> fold(name[0]) == 117 && fold(name[3]) == 49);
        assert(alike(name, "USR2"@) ==> fold(name[0]) == 117 && fold(name[3]) == 50);
    }
}

/// Each signal is known by its number, from 1 to 31, and no other number is a
/// signal.
pub proof fn law_signals_by_number(n: int)
    ensures
        signal_called(signed_decimal(n)) == if 1 <= n <= 31 {
            Some(n)
        } else {
            None
        },
        bare_name(signed_decimal(n)) == signed_decimal(n),
{
    reveal_strlit("TERM");
    reveal_strlit("KILL");
    reveal_strlit("HUP");
    reveal_strlit("INT");
    reveal_strlit("QUIT");
    reveal_strlit("USR1");
    reveal_strlit("USR2");
    reveal_strlit("SIG");
    let d = signed_decimal(n);
    lemma_signed_decimal(n);
    assert(is_digit(d[0]) || d[0] == '-');
    assert(alike(d, "TERM"@) ==> fold(d[0]) == fold("TERM"@[0]));
    assert(alike(d, "KILL"@) ==> fold(d[0]) == fold("KILL"@[0]));
    assert(alike(d, "HUP"@) ==> fold(d[0]) == fold("HUP"@[0]));
    assert(alike(d, "INT"@) ==> fold(d[0]) == fold("INT"@[0]));
    assert(alike(d, "QUIT"@) ==> fold(d[0]) == fold("QUIT"@[0]));
    assert(alike(d, "USR1"@) ==> fold(d[0]) == fold("USR1"@[0]));
    assert(alike(d, "USR2"@) ==> fold(d[0]) == fold("USR2"@[0]));
    if d.len() >= 3 && alike(d.take(3), "SIG"@) {
        assert(fold(d.take(3)[0]) == fold("SIG"@[0]));
    }
}

/// Only `SIG` is taken off a name: what does not begin with it stays as it is.
pub proof fn law_bare_names(s: Seq<char>)
    ensures
        s.len() < 3 || !alike(s.take(3), "SIG"@) ==> bare_name(s) == s,
        s.len() >= 3 && alike(s.take(3), "SIG"@) ==> bare_name(s) == bare_name(s.skip(3)),
{
}

} // verus!
