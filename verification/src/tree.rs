//! Work on a cgroup and all that is below it: signalling, killing, freezing,
//! and mending its type.

use vstd::prelude::*;

use crate::cgroup::{pid_in_tree, proc_in_tree, tree_pids, tree_pids_of, ProcsRead};
use crate::control::{Setting, SettingText};
use crate::fault::{esrch, ESRCH};
use crate::number::{show_signed, signed_decimal};
use crate::signal::{SIGCONT, SIGKILL, SIGSTOP, Signal};
use crate::text::{contains, has_text, occurs_at, text_in, trim, trimmed};

verus! {

/// What signalling the processes of a tree asks for next.
#[derive(Clone, Copy, Debug, PartialEq, Eq, Structural)]
pub enum Ask {
    /// Read the process's `/proc/<pid>/cgroup`.
    Look(i32),
    /// Send the process the signal.
    Send(i32),
    /// Nothing more.
    Done,
    /// Give up: the process could not be signalled.
    Failed(i32),
}

/// The processes that are to be signalled.
#[derive(Debug)]
pub struct SignalTree {
    target: String,
    pids: Vec<i32>,
    at: usize,
}

/// What a `SignalTree` stands for: the cgroup, and the processes to come.
pub ghost struct Signalling {
    pub target: Seq<char>,
    pub pids: Seq<i32>,
}

impl Signalling {
    /// What to ask for of the first process to come.
    pub open spec fn first(self) -> Ask {
        if self.pids.len() > 0 {
            Ask::Look(self.pids[0])
        } else {
            Ask::Done
        }
    }

    /// Without the first process to come.
    pub open spec fn rest(self) -> Signalling {
        Signalling { target: self.target, pids: self.pids.skip(1) }
    }

    /// What comes after looking at the first process: it is sent the signal
    /// where it is still in the tree, and passed over where it is not.
    pub open spec fn looked(self, data: Option<Seq<char>>) -> (Signalling, Ask) {
        if self.pids.len() == 0 {
            (self, Ask::Done)
        } else if still_in(self.target, data) {
            (self, Ask::Send(self.pids[0]))
        } else {
            (self.rest(), self.rest().first())
        }
    }

    /// What comes after sending the first process the signal. A process that is
    /// no longer there is no failure.
    pub open spec fn sent(self, errno: Option<i32>) -> (Signalling, Ask) {
        if self.pids.len() == 0 {
            (self, Ask::Done)
        } else if delivered(errno) {
            (self.rest(), self.rest().first())
        } else {
            (self, Ask::Failed(self.pids[0]))
        }
    }
}

/// Whether a process is still in the tree of the cgroup `target`; one whose
/// `/proc/<pid>/cgroup` cannot be read is not.
pub open spec fn still_in(target: Seq<char>, data: Option<Seq<char>>) -> bool {
    match data {
        Some(d) => proc_in_tree(target, d),
        None => false,
    }
}

/// Whether sending a signal did what it can: it was sent, or there is nobody to
/// send it to.
pub open spec fn delivered(errno: Option<i32>) -> bool {
    errno is None || errno == Some(ESRCH)
}

impl View for SignalTree {
    type V = Signalling;

    closed spec fn view(&self) -> Signalling {
        Signalling { target: self.target@, pids: self.pids@.skip(self.at as int) }
    }
}

impl SignalTree {
    #[verifier::type_invariant]
    spec fn in_range(self) -> bool {
        self.at <= self.pids@.len()
    }

    /// Begins to signal the processes of the cgroup `target`, from what reading
    /// the `cgroup.procs` of each of its cgroups gave. Fails with the place of
    /// the first read that was refused.
    pub fn start(target: &str, reads: &[ProcsRead]) -> (r: Result<SignalTree, usize>)
        ensures
            match r {
                Ok(s) => s@.target == target@ && tree_pids_of(reads@) == Ok::<_, int>(s@.pids),
                Err(at) => tree_pids_of(reads@) == Err::<Seq<i32>, _>(at as int),
            },
    {
        match tree_pids(reads) {
            Ok(pids) => {
                let s = SignalTree { target: target.to_owned(), pids, at: 0 };
                assert(s@.pids =~= pids@);
                Ok(s)
            },
            Err(at) => Err(at),
        }
    }

    /// What to ask for of the first process to come.
    pub fn first(&self) -> (a: Ask)
        ensures
            a == self@.first(),
    {
        proof {
            use_type_invariant(self);
        }
        if self.at < self.pids.len() {
            Ask::Look(self.pids[self.at])
        } else {
            Ask::Done
        }
    }

    /// Goes on to the next process.
    fn pass(&mut self)
        requires
            old(self)@.pids.len() > 0,
        ensures
            final(self)@ == old(self)@.rest(),
    {
        proof {
            use_type_invariant(&*self);
        }
        let ghost before = self@;
        if self.at < self.pids.len() {
            self.at = self.at + 1;
        }
        assert(self@.pids =~= before.pids.skip(1));
    }

    /// Takes in the text of the first process's `/proc/<pid>/cgroup`.
    pub fn looked(&mut self, data: Option<&str>) -> (a: Ask)
        ensures
            (final(self)@, a) == old(self)@.looked(text_in(data)),
    {
        proof {
            use_type_invariant(&*self);
        }
        if self.at >= self.pids.len() {
            return Ask::Done;
        }
        if pid_in_tree(self.target.as_str(), data) {
            Ask::Send(self.pids[self.at])
        } else {
            self.pass();
            self.first()
        }
    }

    /// Takes in what sending the first process the signal gave: the system's
    /// error number, where there is one.
    pub fn sent(&mut self, errno: Option<i32>) -> (a: Ask)
        ensures
            (final(self)@, a) == old(self)@.sent(errno),
    {
        proof {
            use_type_invariant(&*self);
        }
        if self.at >= self.pids.len() {
            return Ask::Done;
        }
        let ok = match errno {
            None => true,
            Some(n) => n == esrch(),
        };
        if ok {
            self.pass();
            self.first()
        } else {
            Ask::Failed(self.pids[self.at])
        }
    }
}

/// What is sent while `s` runs to its end, and whether it ends without a
/// failure. `seen` and `errors` are what looking at each process and sending to
/// it give.
pub open spec fn signalled(
    s: Signalling,
    seen: Seq<Option<Seq<char>>>,
    errors: Seq<Option<i32>>,
) -> (Seq<i32>, bool)
    decreases s.pids.len(),
{
    if s.pids.len() == 0 {
        (Seq::empty(), true)
    } else if s.looked(seen[0]).1 == Ask::Send(s.pids[0]) {
        if s.sent(errors[0]).1 is Failed {
            (seq![s.pids[0]], false)
        } else {
            let (more, ok) = signalled(s.sent(errors[0]).0, seen.skip(1), errors.skip(1));
            (seq![s.pids[0]] + more, ok)
        }
    } else {
        signalled(s.looked(seen[0]).0, seen.skip(1), errors.skip(1))
    }
}

/// Those of the first `n` processes that are still in the tree.
pub open spec fn confirmed(s: Signalling, seen: Seq<Option<Seq<char>>>, n: int) -> Seq<i32>
    decreases n,
{
    if n <= 0 {
        Seq::empty()
    } else if still_in(s.target, seen[n - 1]) {
        confirmed(s, seen, n - 1).push(s.pids[n - 1])
    } else {
        confirmed(s, seen, n - 1)
    }
}

proof fn lemma_confirmed_first(s: Signalling, seen: Seq<Option<Seq<char>>>, n: int)
    requires
        1 <= n <= s.pids.len(),
        seen.len() >= s.pids.len(),
    ensures
        confirmed(s, seen, n) == (if still_in(s.target, seen[0]) {
            seq![s.pids[0]]
        } else {
            Seq::empty()
        }) + confirmed(s.rest(), seen.skip(1), n - 1),
    decreases n,
{
    let head = if still_in(s.target, seen[0]) {
        seq![s.pids[0]]
    } else {
        Seq::empty()
    };
    if n == 1 {
        assert(confirmed(s, seen, 0) =~= Seq::empty());
        assert(confirmed(s, seen, 1) =~= head + confirmed(s.rest(), seen.skip(1), 0));
    } else {
        lemma_confirmed_first(s, seen, n - 1);
        assert(s.rest().pids[n - 2] == s.pids[n - 1]);
        assert(seen.skip(1)[n - 2] == seen[n - 1]);
        assert(confirmed(s, seen, n) =~= head + confirmed(s.rest(), seen.skip(1), n - 1));
    }
}

/// Signalling a tree sends to the processes that are confirmed to be in it and
/// to no other, in their order: to all of them where nothing fails, and to none
/// after the first that fails.
pub proof fn law_only_members_are_signalled(
    s: Signalling,
    seen: Seq<Option<Seq<char>>>,
    errors: Seq<Option<i32>>,
)
    requires
        seen.len() >= s.pids.len(),
        errors.len() >= s.pids.len(),
    ensures
        ({
            let all = confirmed(s, seen, s.pids.len() as int);
            let (sent, ok) = signalled(s, seen, errors);
            &&& sent.len() <= all.len()
            &&& sent == all.take(sent.len() as int)
            &&& ok ==> sent == all
        }),
        signalled(s, seen, errors).1 <==> forall|i: int|
            0 <= i < s.pids.len() && still_in(s.target, #[trigger] seen[i]) ==> delivered(errors[i]),
    decreases s.pids.len(),
{
    let n = s.pids.len() as int;
    if n > 0 {
        let late = seen.skip(1);
        let later = errors.skip(1);
        law_only_members_are_signalled(s.rest(), late, later);
        lemma_confirmed_first(s, seen, n);
        let all = confirmed(s, seen, n);
        let (sent, ok) = signalled(s, seen, errors);
        let more = confirmed(s.rest(), late, n - 1);
        assert forall|i: int| 1 <= i < n implies #[trigger] seen[i] == late[i - 1] && errors[i]
            == later[i - 1] by {}
        assert forall|i: int| 0 <= i < n - 1 implies #[trigger] late[i] == seen[i + 1] && later[i]
            == errors[i + 1] by {}
        if still_in(s.target, seen[0]) {
            if delivered(errors[0]) {
                let sub = signalled(s.rest(), late, later).0;
                assert(sent =~= all.take(sent.len() as int));
                if ok {
                    assert(sent =~= all);
                }
            } else {
                assert(sent =~= all.take(1));
            }
        } else {
            assert(all =~= more);
        }
    }
}

/// How the processes of a tree are killed.
#[derive(Debug)]
pub enum KillTree {
    /// By writing to a file of the cgroup.
    Write(Setting),
    /// By sending each of them the signal. A refusal is ignored.
    Send(Vec<i32>, Signal),
}

/// Kills the processes of a tree: through `cgroup.kill` where there is one, else
/// one by one. `reads` is what reading the `cgroup.procs` of each of its cgroups
/// gave; it counts only where there is no `cgroup.kill`.
pub fn kill_tree(has_kill: bool, reads: &[ProcsRead]) -> (r: Result<KillTree, usize>)
    ensures
        match r {
            Ok(KillTree::Write(s)) => has_kill && s@ == (SettingText {
                file: "cgroup.kill"@,
                body: "1"@,
            }),
            Ok(KillTree::Send(pids, sig)) => !has_kill && sig@ == SIGKILL && tree_pids_of(reads@)
                == Ok::<_, int>(pids@),
            Err(at) => !has_kill && tree_pids_of(reads@) == Err::<Seq<i32>, _>(at as int),
        },
{
    if has_kill {
        return Ok(
            KillTree::Write(Setting { file: "cgroup.kill".to_owned(), body: "1".to_owned() }),
        );
    }
    match tree_pids(reads) {
        Ok(pids) => Ok(KillTree::Send(pids, Signal::kill())),
        Err(at) => Err(at),
    }
}

/// How a tree is frozen or thawed.
#[derive(Debug)]
pub enum FreezeTree {
    /// By writing to a file of the cgroup.
    Write(Setting),
    /// By signalling the whole tree.
    Signal(Signal),
}

/// Freezes a tree: through `cgroup.freeze` where there is one, else by stopping
/// its processes.
pub fn freeze(has_freeze: bool) -> (r: FreezeTree)
    ensures
        match r {
            FreezeTree::Write(s) => has_freeze && s@ == (SettingText {
                file: "cgroup.freeze"@,
                body: "1"@,
            }),
            FreezeTree::Signal(sig) => !has_freeze && sig@ == SIGSTOP,
        },
{
    if has_freeze {
        FreezeTree::Write(Setting { file: "cgroup.freeze".to_owned(), body: "1".to_owned() })
    } else {
        FreezeTree::Signal(Signal::stop())
    }
}

/// Thaws a tree: through `cgroup.freeze` where there is one, else by letting its
/// processes continue.
pub fn thaw(has_freeze: bool) -> (r: FreezeTree)
    ensures
        match r {
            FreezeTree::Write(s) => has_freeze && s@ == (SettingText {
                file: "cgroup.freeze"@,
                body: "0"@,
            }),
            FreezeTree::Signal(sig) => !has_freeze && sig@ == SIGCONT,
        },
{
    if has_freeze {
        FreezeTree::Write(Setting { file: "cgroup.freeze".to_owned(), body: "0".to_owned() })
    } else {
        FreezeTree::Signal(Signal::cont())
    }
}

/// Says that a tree was frozen or thawed.
pub fn frozen_message(frozen: bool, cgroup: &str) -> (r: String)
    ensures
        r@ == (if frozen {
            "froze "@
        } else {
            "thawed "@
        }) + cgroup@,
{
    if frozen {
        "froze ".to_owned().concat(cgroup)
    } else {
        "thawed ".to_owned().concat(cgroup)
    }
}

/// Says that a process could not be signalled.
pub fn unsent_message(pid: i32, error: &str) -> (r: String)
    ensures
        r@ == "kill "@ + signed_decimal(pid as int) + ": "@ + error@,
{
    "kill ".to_owned().concat(show_signed(pid).as_str()).concat(": ").concat(error)
}

/// Whether the text of a `cgroup.type` says that the cgroup cannot be used.
pub open spec fn is_invalid_type(data: Option<Seq<char>>) -> bool {
    match data {
        Some(d) => contains(d, "invalid"@),
        None => false,
    }
}

/// Whether the text of a `cgroup.type` says that the cgroup cannot be used.
fn says_invalid(data: Option<&str>) -> (r: bool)
    ensures
        r == is_invalid_type(text_in(data)),
{
    match data {
        Some(d) => has_text(d, "invalid"),
        None => false,
    }
}

/// What to write where the text of its `cgroup.type` says that a cgroup cannot
/// be used: a domain below a threaded domain has to become threaded itself.
pub fn ensure_valid_type(data: Option<&str>) -> (r: Option<Setting>)
    ensures
        match r {
            Some(s) => is_invalid_type(text_in(data)) && s@ == (SettingText {
                file: "cgroup.type"@,
                body: "threaded"@,
            }),
            None => !is_invalid_type(text_in(data)),
        },
{
    if says_invalid(data) {
        Some(Setting { file: "cgroup.type".to_owned(), body: "threaded".to_owned() })
    } else {
        None
    }
}

/// What to say where the `cgroup.type` of the cgroup at `path`, read again after
/// it was mended, still says that the cgroup cannot be used.
pub fn check_type_again(path: &str, data: Option<&str>) -> (r: Result<(), String>)
    ensures
        match r {
            Ok(_) => !is_invalid_type(text_in(data)),
            Err(t) => is_invalid_type(text_in(data)) && t@ == "cgroup type still invalid after fix: "@
                + path@ + ": "@ + trimmed(data->0@),
        },
{
    match data {
        Some(d) => if has_text(d, "invalid") {
            Err(
                "cgroup type still invalid after fix: ".to_owned().concat(path).concat(": ").concat(
                    trim(d),
                ),
            )
        } else {
            Ok(())
        },
        None => Ok(()),
    }
}

/// A process is still in a tree where the text of its `/proc/<pid>/cgroup` says
/// so, and a signal did what it can where it was sent or where nobody is there;
/// any other refusal is a failure.
pub proof fn law_delivery(target: Seq<char>, data: Seq<char>, errno: Option<i32>)
    ensures
        still_in(target, Some(data)) == proc_in_tree(target, data),
        !still_in(target, None),
        delivered(errno) <==> errno is None || errno == Some(3i32),
{
}

proof fn lemma_confirmed(s: Signalling, seen: Seq<Option<Seq<char>>>, n: int)
    requires
        0 <= n <= s.pids.len(),
    ensures
        confirmed(s, seen, n) == Seq::new(n as nat, |i: int| i).filter(
            |i: int| still_in(s.target, seen[i]),
        ).map_values(|i: int| s.pids[i]),
    decreases n,
{
    reveal(Seq::filter);
    let p = |i: int| still_in(s.target, seen[i]);
    let f = |i: int| s.pids[i];
    let all = Seq::new(n as nat, |i: int| i);
    if n > 0 {
        let before = Seq::new((n - 1) as nat, |i: int| i);
        lemma_confirmed(s, seen, n - 1);
        assert(all.drop_last() =~= before);
        assert(all.last() == n - 1);
        if p(n - 1) {
            assert(all.filter(p) == before.filter(p).push(n - 1));
            assert(all.filter(p).map_values(f) =~= before.filter(p).map_values(f).push(
                s.pids[n - 1],
            ));
        }
    } else {
        assert(all.filter(p).map_values(f) =~= Seq::empty());
    }
}

/// However many processes there are, each that is still in the tree is sent the
/// signal, once and in its order, where none is refused.
pub proof fn law_all_members_are_signalled(
    s: Signalling,
    seen: Seq<Option<Seq<char>>>,
    errors: Seq<Option<i32>>,
)
    requires
        seen.len() >= s.pids.len(),
        errors.len() >= s.pids.len(),
        forall|i: int|
            0 <= i < s.pids.len() ==> (#[trigger] errors[i]) is None || errors[i] == Some(3i32),
    ensures
        signalled(s, seen, errors) == (
            Seq::new(s.pids.len(), |i: int| i).filter(
                |i: int| seen[i] is Some && proc_in_tree(s.target, seen[i]->0),
            ).map_values(|i: int| s.pids[i]),
            true,
        ),
{
    law_only_members_are_signalled(s, seen, errors);
    assert forall|i: int| 0 <= i < s.pids.len() && still_in(
        s.target,
        #[trigger] seen[i],
    ) implies delivered(errors[i]) by {}
    lemma_confirmed(s, seen, s.pids.len() as int);
    let p = |i: int| still_in(s.target, seen[i]);
    let q = |i: int| seen[i] is Some && proc_in_tree(s.target, seen[i]->0);
    assert(p =~= q);
}

/// The first process that is to come is looked at. It is sent the signal where
/// it is still in the tree, and else the next one is looked at; where there is
/// none, the work is done.
pub proof fn law_one_after_the_other(
    target: Seq<char>,
    pid: i32,
    rest: Seq<i32>,
    data: Option<Seq<char>>,
    errno: Option<i32>,
)
    ensures
        ({
            let now = Signalling { target, pids: seq![pid] + rest };
            let next = Signalling { target, pids: rest };
            let then = if rest.len() > 0 {
                Ask::Look(rest[0])
            } else {
                Ask::Done
            };
            let inside = data is Some && proc_in_tree(target, data->0);
            &&& now.first() == Ask::Look(pid)
            &&& inside ==> now.looked(data) == (now, Ask::Send(pid))
            &&& !inside ==> now.looked(data) == (next, then)
            &&& errno is None || errno == Some(3i32) ==> now.sent(errno) == (next, then)
            &&& errno is Some && errno != Some(3i32) ==> now.sent(errno) == (now, Ask::Failed(pid))
        }),
        (Signalling { target, pids: Seq::empty() }).first() == Ask::Done,
{
    let now = Signalling { target, pids: seq![pid] + rest };
    assert(now.pids.skip(1) =~= rest);
    assert(now.rest() == Signalling { target, pids: rest });
}

/// A cgroup is mended where its type says `invalid` anywhere, and nowhere else.
pub proof fn law_invalid_types(a: Seq<char>, b: Seq<char>)
    ensures
        is_invalid_type(Some(a + "invalid"@ + b)),
        is_invalid_type(Some(a)) <==> exists|x: Seq<char>, y: Seq<char>|
            a == #[trigger] (x + "invalid"@ + y),
        !is_invalid_type(None),
{
    let word = "invalid"@;
    let s = a + word + b;
    assert(s.subrange(a.len() as int, a.len() as int + word.len()) =~= word);
    assert(occurs_at(s, word, a.len() as int));
    if contains(a, word) {
        let i = choose|i: int| occurs_at(a, word, i);
        assert(a =~= a.take(i) + word + a.skip(i + word.len()));
    }
    if exists|x: Seq<char>, y: Seq<char>| a == #[trigger] (x + "invalid"@ + y) {
        let (x, y) = choose|x: Seq<char>, y: Seq<char>| a == #[trigger] (x + "invalid"@ + y);
        assert(a.subrange(x.len() as int, x.len() as int + word.len()) =~= word);
        assert(occurs_at(a, word, x.len() as int));
    }
}

} // verus!
