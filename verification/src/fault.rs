//! What the system reports when it refuses something.

use vstd::prelude::*;

verus! {

/// The kinds of refusal that are told apart.
#[derive(Clone, Copy, Debug, PartialEq, Eq, Structural)]
pub enum IoKind {
    NotFound,
    PermissionDenied,
    ResourceBusy,
    DirectoryNotEmpty,
    Other,
}

/// One refusal: its kind, and the system's own number where there is one.
#[derive(Clone, Copy, Debug)]
pub struct IoCause {
    pub kind: IoKind,
    pub raw: Option<i32>,
}

/// `EPERM`: operation not permitted.
pub const EPERM: i32 = 1;

/// `ESRCH`: no such process.
pub const ESRCH: i32 = 3;

/// `EACCES`: permission denied.
pub const EACCES: i32 = 13;

/// `EBUSY`: device or resource busy.
pub const EBUSY: i32 = 16;

/// `ENOTEMPTY`: directory not empty.
pub const ENOTEMPTY: i32 = 39;

/// `EOPNOTSUPP`: operation not supported.
pub const EOPNOTSUPP: i32 = 95;

/// `nix::errno::Errno::EPERM` as a number: 1, as Linux numbers it.
#[verifier::external_body]
fn eperm() -> (n: i32)
    ensures
        n == EPERM,
{
    nix::errno::Errno::EPERM as i32
}

/// `nix::errno::Errno::ESRCH` as a number: 3, as Linux numbers it.
#[verifier::external_body]
pub(crate) fn esrch() -> (n: i32)
    ensures
        n == ESRCH,
{
    nix::errno::Errno::ESRCH as i32
}

/// `nix::errno::Errno::EACCES` as a number: 13, as Linux numbers it.
#[verifier::external_body]
fn eacces() -> (n: i32)
    ensures
        n == EACCES,
{
    nix::errno::Errno::EACCES as i32
}

/// `nix::errno::Errno::EBUSY` as a number: 16, as Linux numbers it.
#[verifier::external_body]
fn ebusy() -> (n: i32)
    ensures
        n == EBUSY,
{
    nix::errno::Errno::EBUSY as i32
}

/// `nix::errno::Errno::ENOTEMPTY` as a number: 39, as Linux numbers it on every
/// architecture but MIPS and SPARC.
#[verifier::external_body]
fn enotempty() -> (n: i32)
    ensures
        n == ENOTEMPTY,
{
    nix::errno::Errno::ENOTEMPTY as i32
}

/// `nix::errno::Errno::EOPNOTSUPP` as a number: 95, as Linux numbers it on every
/// architecture but MIPS and SPARC.
#[verifier::external_body]
fn eopnotsupp() -> (n: i32)
    ensures
        n == EOPNOTSUPP,
{
    nix::errno::Errno::EOPNOTSUPP as i32
}

/// Whether the system's own number is `n`.
fn is_raw(c: &IoCause, n: i32) -> (r: bool)
    ensures
        r == (c.raw == Some(n)),
{
    match c.raw {
        Some(x) => x == n,
        None => false,
    }
}

/// Permission was denied.
pub open spec fn denied(c: IoCause) -> bool {
    c.kind == IoKind::PermissionDenied || c.raw == Some(EACCES) || c.raw == Some(EPERM)
}

/// Something is in use.
pub open spec fn busy(c: IoCause) -> bool {
    c.kind == IoKind::ResourceBusy || c.raw == Some(EBUSY)
}

/// A directory still holds something.
pub open spec fn not_empty(c: IoCause) -> bool {
    c.kind == IoKind::DirectoryNotEmpty || c.raw == Some(ENOTEMPTY)
}

/// Something is not there.
pub open spec fn missing(c: IoCause) -> bool {
    c.kind == IoKind::NotFound
}

/// The system does not offer the operation.
pub open spec fn unsupported(c: IoCause) -> bool {
    c.raw == Some(EOPNOTSUPP)
}

/// A failure with a denied permission among its causes.
pub open spec fn permission_error(causes: Seq<IoCause>) -> bool {
    exists|i: int| 0 <= i < causes.len() && denied(#[trigger] causes[i])
}

/// A failure with a denied permission or something in use among its causes.
pub open spec fn delegation_error(causes: Seq<IoCause>) -> bool {
    exists|i: int| 0 <= i < causes.len() && (denied(#[trigger] causes[i]) || busy(causes[i]))
}

/// A failure with something that is not there among its causes.
pub open spec fn not_found_error(causes: Seq<IoCause>) -> bool {
    exists|i: int| 0 <= i < causes.len() && missing(#[trigger] causes[i])
}

/// A failure with an operation that the system does not offer among its causes.
pub open spec fn unsupported_error(causes: Seq<IoCause>) -> bool {
    exists|i: int| 0 <= i < causes.len() && unsupported(#[trigger] causes[i])
}

/// Whether something in use stands in the way, or what a directory holds.
pub fn is_in_use(c: &IoCause) -> (r: bool)
    ensures
        r == (busy(*c) || not_empty(*c)),
{
    c.kind == IoKind::ResourceBusy || is_raw(c, ebusy()) || c.kind == IoKind::DirectoryNotEmpty
        || is_raw(c, enotempty())
}

/// Whether a failure comes down to a denied permission.
pub fn is_permission_error(causes: &[IoCause]) -> (r: bool)
    ensures
        r == permission_error(causes@),
{
    let mut i: usize = 0;
    while i < causes.len()
        invariant
            i <= causes.len(),
            forall|j: int| 0 <= j < i ==> !denied(#[trigger] causes@[j]),
        decreases causes.len() - i,
    {
        let c = &causes[i];
        if c.kind == IoKind::PermissionDenied || is_raw(c, eacces()) || is_raw(c, eperm()) {
            assert(denied(causes@[i as int]));
            return true;
        }
        i = i + 1;
    }
    false
}

/// Whether a failure means that a cgroup is not delegated to the caller:
/// permission denied, or a parent that cannot take controllers because it is
/// in use.
pub fn is_delegation_error(causes: &[IoCause]) -> (r: bool)
    ensures
        r == delegation_error(causes@),
{
    if is_permission_error(causes) {
        return true;
    }
    let mut i: usize = 0;
    while i < causes.len()
        invariant
            i <= causes.len(),
            forall|j: int| 0 <= j < causes@.len() ==> !denied(#[trigger] causes@[j]),
            forall|j: int| 0 <= j < i ==> !busy(#[trigger] causes@[j]),
        decreases causes.len() - i,
    {
        let c = &causes[i];
        if c.kind == IoKind::ResourceBusy || is_raw(c, ebusy()) {
            assert(busy(causes@[i as int]));
            return true;
        }
        i = i + 1;
    }
    false
}

/// Whether a failure comes down to something that is not there.
pub fn is_not_found(causes: &[IoCause]) -> (r: bool)
    ensures
        r == not_found_error(causes@),
{
    let mut i: usize = 0;
    while i < causes.len()
        invariant
            i <= causes.len(),
            forall|j: int| 0 <= j < i ==> !missing(#[trigger] causes@[j]),
        decreases causes.len() - i,
    {
        if causes[i].kind == IoKind::NotFound {
            assert(missing(causes@[i as int]));
            return true;
        }
        i = i + 1;
    }
    false
}

/// Whether a failure comes down to an operation that the system does not offer.
pub fn is_enotsup(causes: &[IoCause]) -> (r: bool)
    ensures
        r == unsupported_error(causes@),
{
    let mut i: usize = 0;
    while i < causes.len()
        invariant
            i <= causes.len(),
            forall|j: int| 0 <= j < i ==> !unsupported(#[trigger] causes@[j]),
        decreases causes.len() - i,
    {
        if is_raw(&causes[i], eopnotsupp()) {
            assert(unsupported(causes@[i as int]));
            return true;
        }
        i = i + 1;
    }
    false
}

/// A refusal is told by its kind or by the number that the system gives it, and
/// by nothing else.
pub proof fn law_refusals(c: IoCause)
    ensures
        denied(c) <==> c.kind == IoKind::PermissionDenied || c.raw == Some(13i32) || c.raw == Some(
            1i32,
        ),
        busy(c) <==> c.kind == IoKind::ResourceBusy || c.raw == Some(16i32),
        not_empty(c) <==> c.kind == IoKind::DirectoryNotEmpty || c.raw == Some(39i32),
        missing(c) <==> c.kind == IoKind::NotFound,
        unsupported(c) <==> c.raw == Some(95i32),
{
}

/// One cause is enough, wherever it stands among the others.
pub proof fn law_one_cause_is_enough(a: Seq<IoCause>, c: IoCause, b: Seq<IoCause>)
    ensures
        permission_error(a + seq![c] + b) <==> permission_error(a) || denied(c) || permission_error(
            b,
        ),
        delegation_error(a + seq![c] + b) <==> delegation_error(a) || denied(c) || busy(c)
            || delegation_error(b),
        not_found_error(a + seq![c] + b) <==> not_found_error(a) || missing(c) || not_found_error(
            b,
        ),
        unsupported_error(a + seq![c] + b) <==> unsupported_error(a) || unsupported(c)
            || unsupported_error(b),
        !permission_error(Seq::empty()) && !delegation_error(Seq::empty()) && !not_found_error(
            Seq::empty(),
        ) && !unsupported_error(Seq::empty()),
{
    let all = a + seq![c] + b;
    let n = a.len() as int;
    assert(all[n] == c);
    assert forall|i: int| 0 <= i < a.len() implies all[i] == #[trigger] a[i] by {}
    assert forall|i: int| 0 <= i < b.len() implies all[n + 1 + i] == #[trigger] b[i] by {}
    assert forall|i: int| 0 <= i < all.len() implies #[trigger] all[i] == (if i < n {
        a[i]
    } else if i == n {
        c
    } else {
        b[i - n - 1]
    }) by {}
}

} // verus!
