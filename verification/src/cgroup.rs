//! Reading the cgroup file system: where it is mounted, who is in a cgroup,
//! and which cgroups are the runner's own.

use vstd::prelude::*;

use crate::fault::{is_not_found, missing, not_found_error, IoCause, IoKind};
use crate::number::{
    all_digits, all_hex_digits, is_digit, is_hex_digit, lemma_signed_decimal, parse_i32,
    show_signed, signed, signed_decimal, within_i32,
};
use crate::path::{
    below, is_below, is_name, join, joined, law_below_the_mount, lies_under, strip_mount,
};
use crate::text::{
    begins, chars, chomped, contains, ends, find, found, front_stripped, halves, index_from,
    is_space, joined_texts, law_begins_and_ends, law_chomped, law_first_line, law_joined_words,
    law_last_line, law_not_found, law_split_at_first, law_stripping, lemma_find_from,
    lemma_index_from, lines, lines_from, occurs_at, one_line, owned, same, split_lines, split_once,
    split_words, starts_with, strip, strip_front, strip_prefix, strip_suffix, stripped, trim,
    trimmed, unbroken, words, Margin,
};

verus! {

/// The mount point that a line of `mountinfo` gives for the cgroup v2 file
/// system: the fifth word, where the first word after ` - ` is `cgroup2`.
pub open spec fn mount_of_line(line: Seq<char>) -> Option<Seq<char>> {
    match halves(line, " - "@) {
        Some((pre, post)) => if words(post).len() > 0 && words(post)[0] == "cgroup2"@ && words(
            pre,
        ).len() > 4 {
            Some(words(pre)[4])
        } else {
            None
        },
        None => None,
    }
}

/// The mount point that the first line with one gives, from line `i` on.
pub open spec fn mount_from(ls: Seq<Seq<char>>, i: int) -> Option<Seq<char>>
    decreases ls.len() - i,
{
    if !(0 <= i < ls.len()) {
        None
    } else if mount_of_line(ls[i]) is Some {
        mount_of_line(ls[i])
    } else {
        mount_from(ls, i + 1)
    }
}

/// Where the cgroup v2 file system is mounted: at the usual place where it is
/// there, else where `mountinfo` says.
pub open spec fn cgroup2_mount(at_default: bool, mountinfo: Seq<char>) -> Option<Seq<char>> {
    if at_default {
        Some("/sys/fs/cgroup"@)
    } else {
        mount_from(lines(mountinfo), 0)
    }
}

/// Reads one line of `mountinfo`.
fn read_mount_line<'a>(line: &'a str) -> (r: Option<&'a str>)
    ensures
        match r {
            Some(m) => mount_of_line(line@) == Some(m@),
            None => mount_of_line(line@) is None,
        },
{
    match split_once(line, " - ") {
        None => None,
        Some((pre, post)) => {
            let after = split_words(post);
            let before = split_words(pre);
            assert(after.deep_view().len() == after@.len());
            assert(before.deep_view().len() == before@.len());
            if after.len() == 0 || before.len() <= 4 {
                return None;
            }
            assert(after.deep_view()[0] == after@[0]@);
            assert(before.deep_view()[4] == before@[4]@);
            if same(after[0], "cgroup2") {
                Some(before[4])
            } else {
                None
            }
        },
    }
}

/// Finds the cgroup v2 file system: at `/sys/fs/cgroup` where it is there, else
/// through the text of `mountinfo`.
pub fn find_cgroup2_mount(at_default: bool, mountinfo: &str) -> (r: Option<String>)
    ensures
        match r {
            Some(m) => cgroup2_mount(at_default, mountinfo@) == Some(m@),
            None => cgroup2_mount(at_default, mountinfo@) is None,
        },
{
    if at_default {
        return Some("/sys/fs/cgroup".to_owned());
    }
    let ls = split_lines(mountinfo);
    let mut i: usize = 0;
    while i < ls.len()
        invariant
            i <= ls.len(),
            !at_default,
            ls.deep_view() == lines(mountinfo@),
            mount_from(lines(mountinfo@), i as int) == mount_from(lines(mountinfo@), 0),
        decreases ls.len() - i,
    {
        assert(ls.deep_view()[i as int] == ls@[i as int]@);
        if let Some(m) = read_mount_line(ls[i]) {
            return Some(m.to_owned());
        }
        i = i + 1;
    }
    None
}

/// What stands before the first `pat`, or everything.
pub open spec fn before(s: Seq<char>, pat: Seq<char>) -> Seq<char> {
    match found(s, pat) {
        Some(i) => s.take(i),
        None => s,
    }
}

/// The cgroup that a line of `/proc/<pid>/cgroup` gives for cgroup v2, without
/// slashes at its ends and without the mark of a deleted cgroup.
pub open spec fn cgroup_of_line(line: Seq<char>) -> Option<Seq<char>> {
    if begins(line, "0::"@) {
        Some(stripped(trimmed(before(trimmed(line.skip(3)), " (deleted)"@)), Margin::Slash))
    } else {
        None
    }
}

/// The cgroup that the first line with one gives, from line `i` on.
pub open spec fn cgroup_from(ls: Seq<Seq<char>>, i: int) -> Option<Seq<char>>
    decreases ls.len() - i,
{
    if !(0 <= i < ls.len()) {
        None
    } else if cgroup_of_line(ls[i]) is Some {
        cgroup_of_line(ls[i])
    } else {
        cgroup_from(ls, i + 1)
    }
}

/// Finds the caller's cgroup in the text of `/proc/self/cgroup`.
pub fn current_cgroup_rel(data: &str) -> (r: Option<String>)
    ensures
        match r {
            Some(c) => cgroup_from(lines(data@), 0) == Some(c@),
            None => cgroup_from(lines(data@), 0) is None,
        },
{
    let ls = split_lines(data);
    let mut i: usize = 0;
    proof {
        reveal_strlit("0::");
    }
    while i < ls.len()
        invariant
            i <= ls.len(),
            "0::"@.len() == 3,
            ls.deep_view() == lines(data@),
            cgroup_from(lines(data@), i as int) == cgroup_from(lines(data@), 0),
        decreases ls.len() - i,
    {
        assert(ls.deep_view()[i as int] == ls@[i as int]@);
        if let Some(rest) = strip_prefix(ls[i], "0::") {
            let t = trim(rest);
            let live = match find(t, " (deleted)") {
                Some(k) => {
                    assert(t@.subrange(0, k as int) =~= t@.take(k as int));
                    t.substring_char(0, k)
                },
                None => t,
            };
            return Some(strip(trim(live), Margin::Slash).to_owned());
        }
        i = i + 1;
    }
    None
}

/// The place of the cgroup `rel` in the file system mounted at `mount`.
pub open spec fn full_path(mount: Seq<char>, rel: Seq<char>) -> Seq<char> {
    let r = front_stripped(rel, Margin::Slash);
    if r.len() == 0 {
        mount
    } else {
        joined(mount, r)
    }
}

/// The place of the cgroup `rel` in the file system mounted at `mount`.
pub fn full_cgroup_path(mount: &str, rel: &str) -> (r: String)
    ensures
        r@ == full_path(mount@, rel@),
{
    let t = strip_front(rel, Margin::Slash);
    if t.is_empty() {
        mount.to_owned()
    } else {
        join(mount, t)
    }
}

/// The controllers that the text of `cgroup.controllers` lists.
pub fn read_controllers(data: &str) -> (r: Vec<String>)
    ensures
        r.deep_view() == words(data@),
{
    owned(split_words(data).as_slice())
}

/// What reading `cgroup.subtree_control` says: a file that is not there holds
/// nothing, and any other refusal stays one.
pub fn read_subtree_control(read: Result<String, IoCause>) -> (r: Result<String, IoCause>)
    ensures
        match read {
            Ok(s) => r matches Ok(t) && t@ == s@,
            Err(c) => if missing(c) {
                r matches Ok(t) && t@.len() == 0
            } else {
                r matches Err(d) && d == c
            },
        },
{
    match read {
        Ok(s) => Ok(s),
        Err(c) => if c.kind == IoKind::NotFound {
            Ok(String::new())
        } else {
            Err(c)
        },
    }
}

/// The request that switches on those of the first `n` controllers that are
/// not on.
pub open spec fn switch_on(ctrls: Seq<Seq<char>>, on: Seq<Seq<char>>, n: int) -> Seq<char>
    decreases n,
{
    if n <= 0 {
        Seq::empty()
    } else {
        let sofar = switch_on(ctrls, on, n - 1);
        if on.contains(ctrls[n - 1]) {
            sofar
        } else if sofar.len() == 0 {
            "+"@ + ctrls[n - 1]
        } else {
            sofar + " +"@ + ctrls[n - 1]
        }
    }
}

/// Whether all of the controllers are on.
pub open spec fn all_on(ctrls: Seq<Seq<char>>, on: Seq<Seq<char>>) -> bool {
    forall|i: int| 0 <= i < ctrls.len() ==> on.contains(#[trigger] ctrls[i])
}

/// Whether a controller is among those that are on.
fn is_on(on: &Vec<&str>, c: &str) -> (r: bool)
    ensures
        r == on.deep_view().contains(c@),
{
    let ghost texts = on.deep_view();
    let mut i: usize = 0;
    while i < on.len()
        invariant
            i <= on.len(),
            texts == on.deep_view(),
            forall|j: int| 0 <= j < i ==> #[trigger] texts[j] != c@,
        decreases on.len() - i,
    {
        assert(texts[i as int] == on@[i as int]@);
        if same(on[i], c) {
            return true;
        }
        i = i + 1;
    }
    false
}

/// What to write to `cgroup.subtree_control`, which now reads `current`, to
/// switch controllers on; `None` where they all are.
pub fn enable_controllers(current: &str, ctrls: &[&str]) -> (r: Option<String>)
    ensures
        match r {
            Some(body) => !all_on(ctrls.deep_view(), words(current@)) && body@ == switch_on(
                ctrls.deep_view(),
                words(current@),
                ctrls@.len() as int,
            ),
            None => all_on(ctrls.deep_view(), words(current@)),
        },
{
    let on = split_words(current);
    let ghost names = ctrls.deep_view();
    let mut body = String::new();
    let mut i: usize = 0;
    proof {
        reveal_strlit("+");
    }
    while i < ctrls.len()
        invariant
            i <= ctrls.len(),
            "+"@.len() == 1,
            names == ctrls.deep_view(),
            on.deep_view() == words(current@),
            body@ == switch_on(names, words(current@), i as int),
            body@.len() == 0 <==> forall|j: int|
                0 <= j < i ==> words(current@).contains(#[trigger] names[j]),
        decreases ctrls.len() - i,
    {
        assert(names[i as int] == ctrls@[i as int]@);
        if !is_on(&on, ctrls[i]) {
            if body.as_str().is_empty() {
                body.append("+");
            } else {
                body.append(" +");
            }
            body.append(ctrls[i]);
        }
        i = i + 1;
    }
    if body.as_str().is_empty() {
        None
    } else {
        Some(body)
    }
}

/// What to write to `cgroup.procs` to move a process.
pub fn write_cgroup_procs(pid: i32) -> (body: String)
    ensures
        body@ == signed_decimal(pid as int) + "\n"@,
{
    show_signed(pid).concat("\n")
}

/// The processes that the first `n` lines of a `cgroup.procs` name; lines that
/// are no process number do not count.
pub open spec fn pids_to(ls: Seq<Seq<char>>, n: int) -> Seq<i32>
    decreases n,
{
    if n <= 0 {
        Seq::empty()
    } else {
        match within_i32(signed(trimmed(ls[n - 1]))) {
            Some(p) => pids_to(ls, n - 1).push(p as i32),
            None => pids_to(ls, n - 1),
        }
    }
}

/// The processes that the text of a `cgroup.procs` names.
pub open spec fn pids(data: Seq<char>) -> Seq<i32> {
    pids_to(lines(data), lines(data).len() as int)
}

/// Reads the processes of a cgroup from the text of its `cgroup.procs`.
pub fn members(data: &str) -> (r: Vec<i32>)
    ensures
        r@ == pids(data@),
{
    let ls = split_lines(data);
    let mut out: Vec<i32> = Vec::new();
    let mut i: usize = 0;
    while i < ls.len()
        invariant
            i <= ls.len(),
            ls.deep_view() == lines(data@),
            out@ == pids_to(lines(data@), i as int),
        decreases ls.len() - i,
    {
        assert(ls.deep_view()[i as int] == ls@[i as int]@);
        if let Some(p) = parse_i32(trim(ls[i])) {
            out.push(p);
        }
        i = i + 1;
    }
    out
}

/// Whether `p` is the mount itself or lies below it, by its text alone.
pub fn is_under_mount(mount: &str, p: &str) -> (r: bool)
    ensures
        r == lies_under(mount@, p@),
{
    is_below(mount, p)
}

/// What reading one `cgroup.procs` gave: its text, or why there is none.
#[derive(Debug)]
pub enum ProcsRead {
    Text(String),
    Refused(Vec<IoCause>),
}

/// The processes that one `cgroup.procs` gives. One that is not there gives
/// none: its cgroup is gone already. Any other refusal is a failure.
pub open spec fn pids_read(read: ProcsRead) -> Option<Seq<i32>> {
    match read {
        ProcsRead::Text(s) => Some(pids(s@)),
        ProcsRead::Refused(causes) => if not_found_error(causes@) {
            Some(Seq::empty())
        } else {
            None
        },
    }
}

/// The processes that the first `n` reads give, or the place of the first
/// read that failed.
pub open spec fn tree_pids_to(reads: Seq<ProcsRead>, n: int) -> Result<Seq<i32>, int>
    decreases n,
{
    if n <= 0 {
        Ok(Seq::empty())
    } else {
        match tree_pids_to(reads, n - 1) {
            Err(at) => Err(at),
            Ok(sofar) => match pids_read(reads[n - 1]) {
                Some(more) => Ok(sofar + more),
                None => Err(n - 1),
            },
        }
    }
}

/// The processes of a cgroup and of every cgroup below it.
pub open spec fn tree_pids_of(reads: Seq<ProcsRead>) -> Result<Seq<i32>, int> {
    tree_pids_to(reads, reads.len() as int)
}

proof fn lemma_tree_failure_stays(reads: Seq<ProcsRead>, n: int, m: int)
    requires
        0 <= n <= m,
        tree_pids_to(reads, n) is Err,
    ensures
        tree_pids_to(reads, m) == tree_pids_to(reads, n),
    decreases m - n,
{
    if n < m {
        lemma_tree_failure_stays(reads, n, m - 1);
    }
}

/// Gathers the processes of a whole tree from what reading the `cgroup.procs`
/// of each of its cgroups gave. Fails with the place of the first read that
/// was refused for any reason but that the file is not there.
pub fn tree_pids(reads: &[ProcsRead]) -> (r: Result<Vec<i32>, usize>)
    ensures
        match r {
            Ok(v) => tree_pids_of(reads@) == Ok::<_, int>(v@),
            Err(at) => tree_pids_of(reads@) == Err::<Seq<i32>, _>(at as int) && at < reads@.len(),
        },
{
    let mut out: Vec<i32> = Vec::new();
    let mut i: usize = 0;
    while i < reads.len()
        invariant
            i <= reads.len(),
            tree_pids_to(reads@, i as int) == Ok::<_, int>(out@),
        decreases reads.len() - i,
    {
        let ghost sofar = out@;
        proof {
            if tree_pids_to(reads@, i + 1) is Err {
                lemma_tree_failure_stays(reads@, i + 1, reads@.len() as int);
            }
        }
        match &reads[i] {
            ProcsRead::Text(t) => {
                let mut more = members(t.as_str());
                out.append(&mut more);
            },
            ProcsRead::Refused(causes) => {
                if !is_not_found(causes.as_slice()) {
                    return Err(i);
                }
                assert(sofar + Seq::<i32>::empty() =~= sofar);
            },
        }
        i = i + 1;
    }
    Ok(out)
}

/// Whether the cgroup `inner` is `outer` or lies below it. Both are relative
/// to the mount.
pub open spec fn in_tree(outer: Seq<char>, inner: Seq<char>) -> bool {
    inner == outer || begins(inner, outer + "/"@)
}

/// The place of `target` below the mount, or nothing where it lies elsewhere.
pub open spec fn tree_rel_of(mount: Seq<char>, target: Seq<char>) -> Seq<char> {
    match below(mount, target) {
        Some(r) => r,
        None => Seq::empty(),
    }
}

/// The place of `target` below the mount, or nothing where it lies elsewhere.
pub fn tree_rel(mount: &str, target: &str) -> (r: String)
    ensures
        r@ == tree_rel_of(mount@, target@),
{
    match strip_mount(mount, target) {
        Some(r) => r.to_owned(),
        None => String::new(),
    }
}

/// Whether a line of `/proc/<pid>/cgroup` puts the process into the tree of the
/// cgroup `target`; every process is in the tree of the root.
pub open spec fn line_in_tree(target: Seq<char>, line: Seq<char>) -> bool {
    begins(line, "0::"@) && (target.len() == 0 || in_tree(
        target,
        stripped(trimmed(line.skip(3)), Margin::Slash),
    ))
}

/// Whether the text of `/proc/<pid>/cgroup` puts the process into the tree of
/// the cgroup `target`.
pub open spec fn proc_in_tree(target: Seq<char>, data: Seq<char>) -> bool {
    exists|i: int| 0 <= i < lines(data).len() && line_in_tree(target, #[trigger] lines(data)[i])
}

/// Whether a process is still in the tree of the cgroup `target`, by the text
/// of its `/proc/<pid>/cgroup`; `None` stands for a process that is gone.
pub fn pid_in_tree(target: &str, data: Option<&str>) -> (r: bool)
    ensures
        r == match data {
            Some(d) => proc_in_tree(target@, d@),
            None => false,
        },
{
    let text = match data {
        Some(d) => d,
        None => {
            return false;
        },
    };
    let ls = split_lines(text);
    let below_target = target.to_owned().concat("/");
    let mut i: usize = 0;
    proof {
        reveal_strlit("0::");
    }
    while i < ls.len()
        invariant
            data == Some(text),
            "0::"@.len() == 3,
            i <= ls.len(),
            ls.deep_view() == lines(text@),
            below_target@ == target@ + "/"@,
            forall|j: int| 0 <= j < i ==> !line_in_tree(target@, #[trigger] lines(text@)[j]),
        decreases ls.len() - i,
    {
        assert(ls.deep_view()[i as int] == ls@[i as int]@);
        if let Some(rest) = strip_prefix(ls[i], "0::") {
            let rel = strip(trim(rest), Margin::Slash);
            if target.is_empty() || same(rel, target) || starts_with(rel, below_target.as_str()) {
                assert(line_in_tree(target@, lines(text@)[i as int]));
                return true;
            }
        }
        i = i + 1;
    }
    false
}

/// Whether `rel` is the cgroup `base` or lies below it; no cgroup lies below
/// the empty base.
pub open spec fn under_base(rel: Seq<char>, base: Seq<char>) -> bool {
    let b = stripped(base, Margin::Slash);
    b.len() > 0 && in_tree(b, rel)
}

/// Whether `rel` lies at or below one of `bases`.
pub open spec fn under_bases(rel: Seq<char>, bases: Seq<Seq<char>>) -> bool {
    exists|i: int| 0 <= i < bases.len() && under_base(rel, #[trigger] bases[i])
}

/// Whether `rel` lies at or below one of `bases`.
pub fn under_any_base(rel: &str, bases: &[&str]) -> (r: bool)
    ensures
        r == under_bases(rel@, bases.deep_view()),
{
    let ghost names = bases.deep_view();
    let mut i: usize = 0;
    while i < bases.len()
        invariant
            i <= bases.len(),
            names == bases.deep_view(),
            forall|j: int| 0 <= j < i ==> !under_base(rel@, #[trigger] names[j]),
        decreases bases.len() - i,
    {
        assert(names[i as int] == bases@[i as int]@);
        let b = strip(bases[i], Margin::Slash);
        if !b.is_empty() {
            let inside = b.to_owned().concat("/");
            if same(rel, b) || starts_with(rel, inside.as_str()) {
                assert(under_base(rel@, names[i as int]));
                return true;
            }
        }
        i = i + 1;
    }
    false
}

/// The name of a transient leaf.
pub open spec fn transient_name(pid: Seq<char>, tag: Seq<char>) -> Seq<char> {
    "cgrun-"@ + pid + "-"@ + tag + ".scope"@
}

/// Whether a name is that of a transient leaf: `cgrun-<pid>-<tag>.scope`, with
/// a decimal process number and four hexadecimal digits.
pub open spec fn is_transient(name: Seq<char>) -> bool {
    exists|pid: Seq<char>, tag: Seq<char>|
        {
            &&& name == #[trigger] transient_name(pid, tag)
            &&& pid.len() > 0
            &&& all_digits(pid)
            &&& tag.len() == 4
            &&& all_hex_digits(tag)
        }
}

/// Whether a text is decimal digits alone.
fn only_digits(s: &str) -> (r: bool)
    ensures
        r == all_digits(s@),
{
    let cs = chars(s);
    let mut i: usize = 0;
    while i < cs.len()
        invariant
            cs@ == s@,
            i <= cs.len(),
            forall|j: int| 0 <= j < i ==> is_digit(#[trigger] s@[j]),
        decreases cs.len() - i,
    {
        let c = cs[i];
        if !('0' <= c && c <= '9') {
            assert(!is_digit(s@[i as int]));
            return false;
        }
        i = i + 1;
    }
    true
}

/// Whether a text is hexadecimal digits alone.
fn only_hex_digits(s: &str) -> (r: bool)
    ensures
        r == all_hex_digits(s@),
{
    let cs = chars(s);
    let mut i: usize = 0;
    while i < cs.len()
        invariant
            cs@ == s@,
            i <= cs.len(),
            forall|j: int| 0 <= j < i ==> is_hex_digit(#[trigger] s@[j]),
        decreases cs.len() - i,
    {
        let c = cs[i];
        if !(('0' <= c && c <= '9') || ('a' <= c && c <= 'f') || ('A' <= c && c <= 'F')) {
            assert(!is_hex_digit(s@[i as int]));
            return false;
        }
        i = i + 1;
    }
    true
}

proof fn lemma_transient_parts(name: Seq<char>, pid: Seq<char>, tag: Seq<char>)
    requires
        name == transient_name(pid, tag),
        all_digits(pid),
    ensures
        begins(name, "cgrun-"@),
        ends(name.skip(6), ".scope"@),
        ({
            let mid = name.skip(6).take(name.len() - 12);
            &&& mid == pid + "-"@ + tag
            &&& found(mid, "-"@) == Some(pid.len() as int)
            &&& mid.take(pid.len() as int) == pid
            &&& mid.skip(pid.len() as int + 1) == tag
        }),
{
    reveal_strlit("cgrun-");
    reveal_strlit("-");
    reveal_strlit(".scope");
    assert(name.take(6) =~= "cgrun-"@);
    let rest = name.skip(6);
    assert(rest =~= pid + "-"@ + tag + ".scope"@);
    assert(rest.skip(rest.len() - 6) =~= ".scope"@);
    let mid = rest.take(name.len() - 12);
    assert(mid =~= pid + "-"@ + tag);
    let k = pid.len() as int;
    assert(mid.subrange(k, k + 1) =~= "-"@);
    assert(occurs_at(mid, "-"@, k));
    lemma_find_from(mid, "-"@, 0);
    assert forall|j: int| 0 <= j < k implies !occurs_at(mid, "-"@, j) by {
        assert(mid.subrange(j, j + 1)[0] == mid[j]);
        assert(mid[j] == pid[j]);
        assert(is_digit(pid[j]));
    }
    assert(mid.take(k) =~= pid);
    assert(mid.skip(k + 1) =~= tag);
}

/// Whether a name is that of a transient leaf.
pub fn is_transient_leaf_name(name: &str) -> (r: bool)
    ensures
        r == is_transient(name@),
{
    proof {
        reveal_strlit("cgrun-");
        reveal_strlit("-");
        reveal_strlit(".scope");
        assert forall|pid: Seq<char>, tag: Seq<char>|
            name@ == #[trigger] transient_name(pid, tag) && all_digits(pid) implies {
            let mid = name@.skip(6).take(name@.len() - 12);
            &&& begins(name@, "cgrun-"@)
            &&& ends(name@.skip(6), ".scope"@)
            &&& found(mid, "-"@) == Some(pid.len() as int)
            &&& mid.take(pid.len() as int) == pid
            &&& mid.skip(pid.len() as int + 1) == tag
        } by {
            lemma_transient_parts(name@, pid, tag);
        }
    }
    let rest = match strip_prefix(name, "cgrun-") {
        Some(rest) => rest,
        None => {
            return false;
        },
    };
    let mid = match strip_suffix(rest, ".scope") {
        Some(mid) => mid,
        None => {
            return false;
        },
    };
    let (pid, tag) = match split_once(mid, "-") {
        Some(p) => p,
        None => {
            return false;
        },
    };
    let ok = !pid.is_empty() && only_digits(pid) && tag.unicode_len() == 4 && only_hex_digits(tag);
    proof {
        let k = found(mid@, "-"@)->0;
        lemma_find_from(mid@, "-"@, 0);
        assert(mid@.subrange(k, k + 1) == "-"@);
        assert(mid@ =~= pid@ + "-"@ + tag@);
        assert(rest@ =~= mid@ + ".scope"@);
        assert(name@ =~= transient_name(pid@, tag@));
    }
    ok
}

/// What is written to move a process reads back as that process.
pub proof fn law_written_process_reads_back(pid: i32)
    ensures
        pids(signed_decimal(pid as int) + "\n"@) == seq![pid],
{
    reveal_strlit("\n");
    let d = signed_decimal(pid as int);
    let s = d + "\n"@;
    let n = d.len() as int;
    lemma_signed_decimal(pid as int);
    assert forall|j: int| 0 <= j < n implies #[trigger] s[j] != '\n' by {
        assert(s[j] == d[j]);
    }
    assert(s[n] == '\n');
    lemma_index_from(s, '\n', 0);
    assert(index_from(s, '\n', 0) == n);
    assert(s.subrange(0, n) =~= d);
    assert(lines_from(s, n + 1) =~= Seq::empty());
    assert(lines(s) =~= seq![d]);
    assert(!is_space(d[0]));
    assert(front_stripped(d, Margin::Space) =~= d);
    assert(trimmed(d) =~= d);
    assert(pids_to(lines(s), 0) =~= Seq::empty());
    assert(pids_to(lines(s), 1) =~= seq![pid]);
}

proof fn lemma_pids_after(a: Seq<Seq<char>>, b: Seq<Seq<char>>, n: int)
    requires
        0 <= n <= b.len(),
    ensures
        pids_to(a + b, a.len() + n) == pids_to(a, a.len() as int) + pids_to(b, n),
    decreases n,
{
    if n > 0 {
        lemma_pids_after(a, b, n - 1);
        assert((a + b)[a.len() + n - 1] == b[n - 1]);
        assert(pids_to(a + b, a.len() + n) =~= pids_to(a, a.len() as int) + pids_to(b, n));
    } else {
        lemma_pids_prefix(a, b, a.len() as int);
        assert(pids_to(b, 0) =~= Seq::empty());
        assert(pids_to(a, a.len() as int) + Seq::<i32>::empty() =~= pids_to(a, a.len() as int));
    }
}

proof fn lemma_pids_prefix(a: Seq<Seq<char>>, b: Seq<Seq<char>>, n: int)
    requires
        0 <= n <= a.len(),
    ensures
        pids_to(a + b, n) == pids_to(a, n),
    decreases n,
{
    if n > 0 {
        lemma_pids_prefix(a, b, n - 1);
        assert((a + b)[n - 1] == a[n - 1]);
    }
}

/// The process that one line names, if any.
pub open spec fn pid_on(line: Seq<char>) -> Seq<i32> {
    match signed(trimmed(line)) {
        Some(n) => if -0x8000_0000 <= n < 0x8000_0000 {
            seq![n as i32]
        } else {
            Seq::empty()
        },
        None => Seq::empty(),
    }
}

/// Each line of a `cgroup.procs` names its process, or none, whatever the other
/// lines hold: none is left out, none is moved, and none counts twice.
pub proof fn law_processes_line_by_line(line: Seq<char>, rest: Seq<char>)
    requires
        one_line(line),
    ensures
        pids(line + seq!['\n'] + rest) == pid_on(line) + pids(rest),
        pids(line) == pid_on(line),
{
    let first = seq![chomped(line)];
    let more = lines(rest);
    law_first_line(line, rest);
    law_chomped(line);
    law_last_line(line);
    lemma_pids_after(first, more, more.len() as int);
    assert(pids_to(first, 0) =~= Seq::empty());
    assert(pids_to(first, 1) =~= pid_on(line));
    if line.len() > 0 {
        assert(pids_to(lines(line), 0) =~= Seq::empty());
        assert(pids_to(lines(line), 1) =~= pid_on(line));
    } else {
        assert(trimmed(line) =~= line);
        assert(pids(line) =~= pid_on(line));
    }
}

/// The text of a `cgroup.procs` that names processes, one on each line.
pub open spec fn procs_text(ps: Seq<i32>) -> Seq<char>
    decreases ps.len(),
{
    if ps.len() == 0 {
        Seq::empty()
    } else {
        signed_decimal(ps[0] as int) + seq!['\n'] + procs_text(ps.skip(1))
    }
}

proof fn lemma_pid_line(front: Seq<char>, pid: i32, back: Seq<char>)
    requires
        forall|i: int| 0 <= i < front.len() ==> is_space(#[trigger] front[i]),
        forall|i: int| 0 <= i < back.len() ==> is_space(#[trigger] back[i]),
    ensures
        pid_on(front + signed_decimal(pid as int) + back) == seq![pid],
        one_line(signed_decimal(pid as int)),
{
    let d = signed_decimal(pid as int);
    lemma_signed_decimal(pid as int);
    assert(!is_space(d[0]));
    assert(!is_space(d[d.len() - 1]));
    law_stripping(front, d, back, Margin::Space);
    if d.contains('\n') {
        let i = choose|i: int| 0 <= i < d.len() && d[i] == '\n';
        assert(is_digit(d[i]) || d[i] == '-');
    }
}

/// However many processes a `cgroup.procs` names, they are all read, each once
/// and in their order.
pub proof fn law_all_processes_are_read(ps: Seq<i32>)
    ensures
        pids(procs_text(ps)) == ps,
    decreases ps.len(),
{
    if ps.len() == 0 {
        assert(pids(Seq::empty()) =~= ps);
    } else {
        let d = signed_decimal(ps[0] as int);
        let none = Seq::<char>::empty();
        law_all_processes_are_read(ps.skip(1));
        lemma_pid_line(none, ps[0], none);
        assert(none + d + none =~= d);
        law_processes_line_by_line(d, procs_text(ps.skip(1)));
        assert(seq![ps[0]] + ps.skip(1) =~= ps);
    }
}

/// White space around a process number does not matter.
pub proof fn law_processes_are_trimmed(front: Seq<char>, pid: i32, back: Seq<char>)
    requires
        forall|i: int| 0 <= i < front.len() ==> is_space(#[trigger] front[i]) && front[i] != '\n',
        forall|i: int| 0 <= i < back.len() ==> is_space(#[trigger] back[i]) && back[i] != '\n',
    ensures
        pids(front + signed_decimal(pid as int) + back) == seq![pid],
{
    lemma_pid_line(front, pid, back);
    let d = signed_decimal(pid as int);
    let line = front + d + back;
    if line.contains('\n') {
        let i = choose|i: int| 0 <= i < line.len() && line[i] == '\n';
        if i < front.len() {
            assert(line[i] == front[i]);
        } else if i < front.len() + d.len() {
            assert(line[i] == d[i - front.len()]);
            assert(d.contains('\n'));
        } else {
            assert(line[i] == back[i - front.len() - d.len()]);
        }
    }
    law_processes_line_by_line(line, Seq::empty());
}

proof fn lemma_tree_prefix(a: Seq<ProcsRead>, b: Seq<ProcsRead>, n: int)
    requires
        0 <= n <= a.len(),
    ensures
        tree_pids_to(a + b, n) == tree_pids_to(a, n),
    decreases n,
{
    if n > 0 {
        lemma_tree_prefix(a, b, n - 1);
        assert((a + b)[n - 1] == a[n - 1]);
    }
}

proof fn lemma_tree_after(a: Seq<ProcsRead>, b: Seq<ProcsRead>, n: int)
    requires
        0 <= n <= b.len(),
        tree_pids_of(a) is Ok,
    ensures
        tree_pids_to(a + b, a.len() + n) == match tree_pids_to(b, n) {
            Ok(more) => Ok::<Seq<i32>, int>(tree_pids_of(a)->Ok_0 + more),
            Err(at) => Err::<Seq<i32>, int>(a.len() + at),
        },
    decreases n,
{
    let p = tree_pids_of(a)->Ok_0;
    if n > 0 {
        lemma_tree_after(a, b, n - 1);
        assert((a + b)[a.len() + n - 1] == b[n - 1]);
        if let Ok(q) = tree_pids_to(b, n - 1) {
            if let Some(more) = pids_read(b[n - 1]) {
                assert(p + q + more =~= p + (q + more));
            }
        }
    } else {
        lemma_tree_prefix(a, b, a.len() as int);
        assert(p + Seq::<i32>::empty() =~= p);
    }
}

/// The processes of a tree are those of its cgroups, one after the other, each
/// cgroup's own as its file names them; a cgroup that is gone has none, and the
/// first that cannot be read for another reason is a failure.
pub proof fn law_tree_processes(
    a: Seq<ProcsRead>,
    b: Seq<ProcsRead>,
    text: String,
    causes: Vec<IoCause>,
)
    ensures
        tree_pids_of(a + b) == match (tree_pids_of(a), tree_pids_of(b)) {
            (Ok(p), Ok(q)) => Ok::<Seq<i32>, int>(p + q),
            (Ok(_), Err(at)) => Err::<Seq<i32>, int>(a.len() + at),
            (Err(at), _) => Err::<Seq<i32>, int>(at),
        },
        tree_pids_of(seq![ProcsRead::Text(text)]) == Ok::<Seq<i32>, int>(pids(text@)),
        tree_pids_of(seq![ProcsRead::Refused(causes)]) == (if exists|i: int|
            0 <= i < causes@.len() && (#[trigger] causes@[i]).kind == IoKind::NotFound {
            Ok::<Seq<i32>, int>(Seq::empty())
        } else {
            Err::<Seq<i32>, int>(0)
        }),
        tree_pids_of(Seq::empty()) == Ok::<Seq<i32>, int>(Seq::empty()),
{
    if tree_pids_of(a) is Ok {
        lemma_tree_after(a, b, b.len() as int);
    } else {
        lemma_tree_prefix(a, b, a.len() as int);
        lemma_tree_failure_stays(a + b, a.len() as int, (a + b).len() as int);
    }
    let one = seq![ProcsRead::Text(text)];
    assert(tree_pids_to(one, 0) == Ok::<Seq<i32>, int>(Seq::empty()));
    assert(Seq::<i32>::empty() + pids(text@) =~= pids(text@));
    assert(tree_pids_to(one, 1) == Ok::<Seq<i32>, int>(pids(text@)));
    let gone = seq![ProcsRead::Refused(causes)];
    assert(tree_pids_to(gone, 0) == Ok::<Seq<i32>, int>(Seq::empty()));
    assert(Seq::<i32>::empty() + Seq::<i32>::empty() =~= Seq::<i32>::empty());
    assert(tree_pids_to(gone, 1) == tree_pids_of(gone));
}

proof fn lemma_switch_on(ctrls: Seq<Seq<char>>, on: Seq<Seq<char>>, n: int)
    requires
        0 <= n <= ctrls.len(),
    ensures
        switch_on(ctrls, on, n) == joined_texts(
            ctrls.take(n).filter(|c: Seq<char>| !on.contains(c)).map_values(
                |c: Seq<char>| seq!['+'] + c,
            ),
            seq![' '],
        ),
    decreases n,
{
    reveal(Seq::filter);
    reveal_strlit("+");
    reveal_strlit(" +");
    let p = |c: Seq<char>| !on.contains(c);
    let f = |c: Seq<char>| seq!['+'] + c;
    let now = ctrls.take(n).filter(p);
    if n > 0 {
        let c = ctrls[n - 1];
        let before = ctrls.take(n - 1).filter(p);
        lemma_switch_on(ctrls, on, n - 1);
        assert(ctrls.take(n).drop_last() =~= ctrls.take(n - 1));
        assert("+"@ =~= seq!['+']);
        assert(" +"@ =~= seq![' '] + seq!['+']);
        if !on.contains(c) {
            let ws = before.map_values(f);
            assert(now == before.push(c));
            assert(now.map_values(f) =~= ws.push(seq!['+'] + c));
            assert(ws.push(seq!['+'] + c).drop_last() =~= ws);
            if ws.len() == 0 {
                assert(joined_texts(ws, seq![' ']) =~= Seq::empty());
            } else {
                lemma_joined_not_empty(ws, seq![' ']);
            }
            assert(switch_on(ctrls, on, n) =~= joined_texts(now.map_values(f), seq![' ']));
        }
    } else {
        assert(now.map_values(f) =~= Seq::empty());
    }
}

proof fn lemma_joined_not_empty(ws: Seq<Seq<char>>, sep: Seq<char>)
    requires
        ws.len() > 0,
        forall|i: int| 0 <= i < ws.len() ==> (#[trigger] ws[i]).len() > 0,
    ensures
        joined_texts(ws, sep).len() > 0,
{
    assert(ws[ws.len() - 1].len() > 0);
}

/// A request names, after a plus sign each, exactly the controllers asked for
/// that are not on, in their order, with a blank between each and the next.
/// Each one asked for is on or in the request.
pub proof fn law_missing_controllers_are_requested(ctrls: Seq<Seq<char>>, on: Seq<Seq<char>>)
    ensures
        ({
            let missing = ctrls.filter(|c: Seq<char>| !on.contains(c)).map_values(
                |c: Seq<char>| seq!['+'] + c,
            );
            let request = switch_on(ctrls, on, ctrls.len() as int);
            &&& request == joined_texts(missing, seq![' '])
            &&& (forall|i: int| 0 <= i < ctrls.len() ==> unbroken(#[trigger] ctrls[i])) ==> words(
                request,
            ) == missing && forall|i: int|
                0 <= i < ctrls.len() ==> on.contains(#[trigger] ctrls[i]) || words(
                    request,
                ).contains(seq!['+'] + ctrls[i])
            &&& missing.len() == 0 <==> all_on(ctrls, on)
            &&& all_on(ctrls, on) <==> forall|c: Seq<char>| #[trigger]
                ctrls.contains(c) ==> on.contains(c)
        }),
{
    let p = |c: Seq<char>| !on.contains(c);
    let f = |c: Seq<char>| seq!['+'] + c;
    let need = ctrls.filter(p);
    let missing = need.map_values(f);
    assert(ctrls.take(ctrls.len() as int) =~= ctrls);
    lemma_switch_on(ctrls, on, ctrls.len() as int);
    broadcast use vstd::seq_lib::group_filter_ensures;

    assert forall|c: Seq<char>| #[trigger] need.contains(c) implies ctrls.contains(c)
        && !on.contains(c) by {
        ctrls.lemma_filter_contains_rev(p, c);
        let i = choose|i: int| 0 <= i < need.len() && need[i] == c;
        assert(p(need[i]));
    }
    if forall|i: int| 0 <= i < ctrls.len() ==> unbroken(#[trigger] ctrls[i]) {
        assert forall|i: int| 0 <= i < missing.len() implies unbroken(#[trigger] missing[i])
            && missing[i].len() > 0 by {
            let c = need[i];
            assert(need.contains(c));
            let k = choose|k: int| 0 <= k < ctrls.len() && ctrls[k] == c;
            assert(unbroken(ctrls[k]));
            assert forall|j: int| 0 <= j < missing[i].len() implies !is_space(
                #[trigger] missing[i][j],
            ) by {
                if j > 0 {
                    assert(missing[i][j] == c[j - 1]);
                }
            }
        }
        law_joined_words(missing);
        assert forall|i: int| 0 <= i < ctrls.len() implies on.contains(#[trigger] ctrls[i])
            || missing.contains(seq!['+'] + ctrls[i]) by {
            if !on.contains(ctrls[i]) {
                assert(p(ctrls[i]));
                assert(need.contains(ctrls[i]));
                let k = choose|k: int| 0 <= k < need.len() && need[k] == ctrls[i];
                assert(missing[k] == seq!['+'] + ctrls[i]);
            }
        }
    }
    if missing.len() == 0 {
        assert forall|i: int| 0 <= i < ctrls.len() implies on.contains(#[trigger] ctrls[i]) by {
            if !on.contains(ctrls[i]) {
                assert(p(ctrls[i]));
                assert(need.contains(ctrls[i]));
            }
        }
    }
    if all_on(ctrls, on) {
        if missing.len() > 0 {
            assert(need.contains(need[0]));
            let k = choose|k: int| 0 <= k < ctrls.len() && ctrls[k] == need[0];
            assert(on.contains(ctrls[k]));
        }
        assert forall|c: Seq<char>| #[trigger] ctrls.contains(c) implies on.contains(c) by {
            let k = choose|k: int| 0 <= k < ctrls.len() && ctrls[k] == c;
            assert(on.contains(ctrls[k]));
        }
    }
    if forall|c: Seq<char>| #[trigger] ctrls.contains(c) ==> on.contains(c) {
        assert forall|i: int| 0 <= i < ctrls.len() implies on.contains(#[trigger] ctrls[i]) by {
            assert(ctrls.contains(ctrls[i]));
        }
    }
}

proof fn lemma_mount_after(first: Seq<char>, ls: Seq<Seq<char>>, i: int)
    requires
        0 <= i <= ls.len(),
    ensures
        mount_from(seq![first] + ls, i + 1) == mount_from(ls, i),
    decreases ls.len() - i,
{
    if i < ls.len() {
        assert((seq![first] + ls)[i + 1] == ls[i]);
        lemma_mount_after(first, ls, i + 1);
    }
}

/// Without the usual place, the first line of `mountinfo` that gives a mount
/// decides, wherever it stands.
pub proof fn law_first_mount_decides(line: Seq<char>, rest: Seq<char>)
    requires
        one_line(line),
    ensures
        cgroup2_mount(false, line + seq!['\n'] + rest) == match mount_of_line(chomped(line)) {
            Some(m) => Some(m),
            None => cgroup2_mount(false, rest),
        },
        cgroup2_mount(false, Seq::empty()) is None,
        cgroup2_mount(true, rest) == Some("/sys/fs/cgroup"@),
{
    law_first_line(line, rest);
    let ls = seq![chomped(line)] + lines(rest);
    assert(ls[0] == chomped(line));
    lemma_mount_after(chomped(line), lines(rest), 0);
    assert(lines(Seq::empty()) =~= Seq::empty());
}

/// A line of `mountinfo` gives its fifth word where the file system after the
/// first ` - ` is `cgroup2`, and nothing where it is another, where there are
/// fewer words, or where there is no ` - `.
pub proof fn law_mount_of_line(pre: Seq<char>, post: Seq<char>)
    requires
        forall|i: int| 0 <= i < pre.len() ==> !occurs_at(pre + " - "@ + post, " - "@, i),
    ensures
        words(post).len() > 0 && words(post)[0] == "cgroup2"@ && words(pre).len() >= 5
            ==> mount_of_line(pre + " - "@ + post) == Some(words(pre)[4]),
        words(post).len() == 0 || words(post)[0] != "cgroup2"@ || words(pre).len() < 5
            ==> mount_of_line(pre + " - "@ + post) is None,
        !contains(pre, " - "@) ==> mount_of_line(pre) is None,
{
    law_split_at_first(pre, " - "@, post);
    if !contains(pre, " - "@) {
        assert forall|a: Seq<char>, b: Seq<char>| pre != #[trigger] (a + " - "@ + b) by {
            if pre == a + " - "@ + b {
                let k = a.len() as int;
                assert(pre.subrange(k, k + " - "@.len()) =~= " - "@);
                assert(occurs_at(pre, " - "@, k));
            }
        }
        law_not_found(pre, " - "@);
    }
}

proof fn lemma_cgroup_after(first: Seq<char>, ls: Seq<Seq<char>>, i: int)
    requires
        0 <= i <= ls.len(),
    ensures
        cgroup_from(seq![first] + ls, i + 1) == cgroup_from(ls, i),
    decreases ls.len() - i,
{
    if i < ls.len() {
        assert((seq![first] + ls)[i + 1] == ls[i]);
        lemma_cgroup_after(first, ls, i + 1);
    }
}

/// The first line that begins with `0::` decides which cgroup a process is in,
/// wherever it stands.
pub proof fn law_first_entry_decides(line: Seq<char>, rest: Seq<char>)
    requires
        one_line(line),
    ensures
        cgroup_from(lines(line + seq!['\n'] + rest), 0) == if begins(line, "0::"@) {
            cgroup_of_line(chomped(line))
        } else {
            cgroup_from(lines(rest), 0)
        },
        begins(line, "0::"@) ==> cgroup_of_line(chomped(line)) is Some,
        cgroup_from(lines(Seq::empty()), 0) is None,
{
    law_first_line(line, rest);
    let ls = seq![chomped(line)] + lines(rest);
    assert(ls[0] == chomped(line));
    lemma_cgroup_after(chomped(line), lines(rest), 0);
    assert(lines(Seq::empty()) =~= Seq::empty());
    reveal_strlit("0::");
    let c = chomped(line);
    if begins(line, "0::"@) {
        assert(line.take(3)[2] == ':');
        assert(c.take(3) =~= line.take(3));
    }
    if begins(c, "0::"@) {
        assert(c.take(3) =~= line.take(3));
    }
}

proof fn lemma_mark()
    ensures
        " (deleted)"@.len() == 10,
        " (deleted)"@[0] == ' ',
        !is_space(" (deleted)"@[9]),
        forall|k: int| 1 <= k < 10 ==> #[trigger] " (deleted)"@[k] != ' ',
{
    reveal_strlit(" (deleted)");
}

proof fn lemma_mark_at(path: Seq<char>, i: int)
    requires
        !contains(path, " (deleted)"@),
        0 <= i < path.len(),
    ensures
        !occurs_at(path + " (deleted)"@, " (deleted)"@, i),
{
    lemma_mark();
    let mark = " (deleted)"@;
    let s = path + mark;
    if occurs_at(s, mark, i) {
        if i + 10 <= path.len() {
            assert(path.subrange(i, i + 10) =~= s.subrange(i, i + 10));
            assert(occurs_at(path, mark, i));
        } else {
            let k = path.len() - i;
            assert(s.subrange(i, i + 10)[k] == s[path.len() as int]);
            assert(s[path.len() as int] == ' ');
            assert(mark[k] != ' ');
        }
    }
}

proof fn lemma_deleted_mark(path: Seq<char>)
    requires
        !contains(path, " (deleted)"@),
    ensures
        before(path, " (deleted)"@) == path,
        before(path + " (deleted)"@, " (deleted)"@) == path,
{
    let mark = " (deleted)"@;
    let none = Seq::<char>::empty();
    assert forall|a: Seq<char>, b: Seq<char>| path != #[trigger] (a + mark + b) by {
        if path == a + mark + b {
            let k = a.len() as int;
            assert(path.subrange(k, k + mark.len()) =~= mark);
            assert(occurs_at(path, mark, k));
        }
    }
    law_not_found(path, mark);
    assert(path + mark + none =~= path + mark);
    assert forall|i: int| 0 <= i < path.len() implies !occurs_at(path + mark + none, mark, i) by {
        lemma_mark_at(path, i);
    }
    law_split_at_first(path, mark, none);
    assert((path + mark).take(path.len() as int) =~= path);
}

/// A path without white space or slashes at its ends.
pub open spec fn is_bare(p: Seq<char>) -> bool {
    p.len() > 0 ==> !is_space(p[0]) && p[0] != '/' && !is_space(p.last()) && p.last() != '/'
}

proof fn lemma_entry_path(rest: Seq<char>)
    ensures
        begins("0::/"@ + rest, "0::"@),
        ("0::/"@ + rest).skip(3) == "/"@ + rest,
        "/"@ == seq!['/'],
{
    reveal_strlit("0::");
    reveal_strlit("0::/");
    reveal_strlit("/");
    let line = "0::/"@ + rest;
    assert(line.take(3) =~= "0::"@);
    assert(line.skip(3) =~= "/"@ + rest);
    assert("/"@ =~= seq!['/']);
}

proof fn lemma_bare_path(p: Seq<char>)
    requires
        is_bare(p),
    ensures
        trimmed("/"@ + p) == "/"@ + p,
        stripped("/"@ + p, Margin::Slash) == p,
{
    let none = Seq::<char>::empty();
    let path = "/"@ + p;
    lemma_entry_path(p);
    assert(!is_space(path[0]) && !is_space(path.last()));
    law_stripping(none, path, none, Margin::Space);
    assert(none + path + none =~= path);
    law_stripping("/"@, p, none, Margin::Slash);
    assert("/"@ + p + none =~= path);
}

/// The cgroup that an entry names is its path without the slash before it, and
/// without the mark that the cgroup is deleted.
pub proof fn law_entry_names_its_cgroup(p: Seq<char>)
    requires
        is_bare(p),
        !contains("/"@ + p, " (deleted)"@),
    ensures
        cgroup_of_line("0::/"@ + p) == Some(p),
        cgroup_of_line("0::/"@ + p + " (deleted)"@) == Some(p),
{
    let none = Seq::<char>::empty();
    let mark = " (deleted)"@;
    let path = "/"@ + p;
    let marked = path + mark;
    lemma_entry_path(p);
    lemma_entry_path(p + mark);
    assert("0::/"@ + p + mark =~= "0::/"@ + (p + mark));
    assert("/"@ + (p + mark) =~= marked);
    lemma_bare_path(p);
    lemma_deleted_mark(path);
    lemma_mark();
    assert(marked[0] == '/' && marked.last() == mark[9]);
    law_stripping(none, marked, none, Margin::Space);
    assert(none + marked + none =~= marked);
}

/// The place of a cgroup is the mount, a slash, and the path; slashes before
/// the path do not matter, and the place of nothing is the mount.
pub proof fn law_full_path(mount: Seq<char>, slashes: Seq<char>, rel: Seq<char>)
    requires
        forall|i: int| 0 <= i < slashes.len() ==> #[trigger] slashes[i] == '/',
        rel.len() > 0,
        rel[0] != '/',
        mount.len() > 0,
    ensures
        full_path(mount, slashes) == mount,
        mount.last() != '/' ==> full_path(mount, slashes + rel) == mount + "/"@ + rel,
        mount.last() == '/' ==> full_path(mount, slashes + rel) == mount + rel,
{
    reveal_strlit("/");
    let none = Seq::<char>::empty();
    lemma_front_slashes(slashes, rel);
    lemma_front_slashes(slashes, none);
    assert(slashes + none =~= slashes);
    assert("/"@ =~= seq!['/']);
    if mount.last() != '/' {
        assert(full_path(mount, slashes + rel) =~= mount + "/"@ + rel);
    } else {
        assert(full_path(mount, slashes + rel) =~= mount + rel);
    }
}

proof fn lemma_front_slashes(slashes: Seq<char>, rel: Seq<char>)
    requires
        forall|i: int| 0 <= i < slashes.len() ==> #[trigger] slashes[i] == '/',
        rel.len() > 0 ==> rel[0] != '/',
    ensures
        front_stripped(slashes + rel, Margin::Slash) == rel,
    decreases slashes.len(),
{
    let s = slashes + rel;
    if slashes.len() > 0 {
        assert(s[0] == slashes[0]);
        assert(s.skip(1) =~= slashes.skip(1) + rel);
        assert forall|i: int| 0 <= i < slashes.skip(1).len() implies #[trigger] slashes.skip(1)[i]
            == '/' by {
            assert(slashes.skip(1)[i] == slashes[i + 1]);
        }
        lemma_front_slashes(slashes.skip(1), rel);
    } else {
        assert(s =~= rel);
    }
}

proof fn lemma_in_tree(outer: Seq<char>, inner: Seq<char>)
    ensures
        in_tree(outer, inner) <==> inner == outer || exists|t: Seq<char>|
            inner == #[trigger] (outer + "/"@ + t),
{
    let o = outer + "/"@;
    if begins(inner, o) {
        law_begins_and_ends(inner, o);
        assert(inner == outer + "/"@ + inner.skip(o.len() as int));
    }
    if exists|t: Seq<char>| inner == #[trigger] (outer + "/"@ + t) {
        let t = choose|t: Seq<char>| inner == #[trigger] (outer + "/"@ + t);
        law_begins_and_ends(o, t);
    }
}

/// A cgroup belongs to a base where it is the base itself or the base, a slash
/// and more: a longer name does not make it so. Slashes around the base do not
/// matter, and nothing belongs to an empty base.
pub proof fn law_base_holds_its_own(rel: Seq<char>, base: Seq<char>, slashes: Seq<char>)
    requires
        base.len() > 0 ==> base[0] != '/' && base.last() != '/',
        forall|i: int| 0 <= i < slashes.len() ==> #[trigger] slashes[i] == '/',
    ensures
        under_base(rel, slashes + base + slashes) <==> base.len() > 0 && (rel == base
            || exists|t: Seq<char>| rel == #[trigger] (base + "/"@ + t)),
        under_base(rel, base) <==> base.len() > 0 && (rel == base || exists|t: Seq<char>|
            rel == #[trigger] (base + "/"@ + t)),
{
    let none = Seq::<char>::empty();
    law_stripping(slashes, base, slashes, Margin::Slash);
    law_stripping(none, base, none, Margin::Slash);
    assert(none + base + none =~= base);
    lemma_in_tree(base, rel);
}

/// A cgroup belongs to bases where it belongs to one of them.
pub proof fn law_any_base_will_do(rel: Seq<char>, a: Seq<Seq<char>>, b: Seq<Seq<char>>)
    ensures
        under_bases(rel, a + b) <==> under_bases(rel, a) || under_bases(rel, b),
        a.len() == 1 ==> (under_bases(rel, a) <==> under_base(rel, a[0])),
        !under_bases(rel, Seq::empty()),
{
    let all = a + b;
    if under_bases(rel, all) {
        let i = choose|i: int| 0 <= i < all.len() && under_base(rel, #[trigger] all[i]);
        if i < a.len() {
            assert(under_base(rel, a[i]));
        } else {
            assert(under_base(rel, b[i - a.len()]));
        }
    }
    if under_bases(rel, a) {
        let i = choose|i: int| 0 <= i < a.len() && under_base(rel, #[trigger] a[i]);
        assert(under_base(rel, all[i]));
    }
    if under_bases(rel, b) {
        let i = choose|i: int| 0 <= i < b.len() && under_base(rel, #[trigger] b[i]);
        assert(under_base(rel, all[a.len() + i]));
    }
}

/// A process is in a tree where one of its entries says so.
pub proof fn law_any_entry_will_do(target: Seq<char>, line: Seq<char>, rest: Seq<char>)
    requires
        one_line(line),
    ensures
        proc_in_tree(target, line + seq!['\n'] + rest) <==> line_in_tree(target, chomped(line))
            || proc_in_tree(target, rest),
        !proc_in_tree(target, Seq::empty()),
{
    law_first_line(line, rest);
    let more = lines(rest);
    let ls = seq![chomped(line)] + more;
    assert(ls[0] == chomped(line));
    if proc_in_tree(target, line + seq!['\n'] + rest) {
        let i = choose|i: int| 0 <= i < ls.len() && line_in_tree(target, #[trigger] ls[i]);
        if i > 0 {
            assert(line_in_tree(target, more[i - 1]));
        }
    }
    if line_in_tree(target, chomped(line)) {
        assert(line_in_tree(target, ls[0]));
    }
    if proc_in_tree(target, rest) {
        let i = choose|i: int| 0 <= i < more.len() && line_in_tree(target, #[trigger] more[i]);
        assert(line_in_tree(target, ls[i + 1]));
    }
    assert(lines(Seq::empty()) =~= Seq::empty());
}

/// An entry puts a process into the tree of a cgroup where it names that cgroup
/// or one below it, and into that of the root always; an entry of another
/// hierarchy puts it nowhere.
pub proof fn law_entry_in_tree(target: Seq<char>, p: Seq<char>)
    requires
        is_bare(p),
    ensures
        line_in_tree(target, "0::/"@ + p) <==> target.len() == 0 || p == target
            || exists|t: Seq<char>| p == #[trigger] (target + "/"@ + t),
        !begins(p, "0::"@) ==> !line_in_tree(target, p),
{
    lemma_entry_path(p);
    lemma_bare_path(p);
    lemma_in_tree(target, p);
}

/// The names of transient leaves are exactly `cgrun-`, a decimal number, a
/// dash, four hexadecimal digits and `.scope`.
pub proof fn law_transient_names(name: Seq<char>)
    ensures
        is_transient(name) <==> exists|pid: Seq<char>, tag: Seq<char>|
            {
                &&& name == #[trigger] ("cgrun-"@ + pid + "-"@ + tag + ".scope"@)
                &&& pid.len() > 0
                &&& forall|i: int| 0 <= i < pid.len() ==> '0' <= #[trigger] pid[i] <= '9'
                &&& tag.len() == 4
                &&& forall|i: int|
                    0 <= i < tag.len() ==> '0' <= (#[trigger] tag[i]) <= '9' || 'a' <= tag[i] <= 'f'
                        || 'A' <= tag[i] <= 'F'
            },
{
    if is_transient(name) {
        let (pid, tag) = choose|pid: Seq<char>, tag: Seq<char>|
            {
                &&& name == #[trigger] transient_name(pid, tag)
                &&& pid.len() > 0
                &&& all_digits(pid)
                &&& tag.len() == 4
                &&& all_hex_digits(tag)
            };
        assert(name == "cgrun-"@ + pid + "-"@ + tag + ".scope"@);
        assert forall|i: int| 0 <= i < pid.len() implies '0' <= #[trigger] pid[i] <= '9' by {
            assert(is_digit(pid[i]));
        }
        assert forall|i: int| 0 <= i < tag.len() implies '0' <= (#[trigger] tag[i]) <= '9' || 'a'
            <= tag[i] <= 'f' || 'A' <= tag[i] <= 'F' by {
            assert(is_hex_digit(tag[i]));
        }
    }
    assert forall|pid: Seq<char>, tag: Seq<char>|
        {
            &&& name == #[trigger] ("cgrun-"@ + pid + "-"@ + tag + ".scope"@)
            &&& pid.len() > 0
            &&& forall|i: int| 0 <= i < pid.len() ==> '0' <= #[trigger] pid[i] <= '9'
            &&& tag.len() == 4
            &&& forall|i: int|
                0 <= i < tag.len() ==> '0' <= (#[trigger] tag[i]) <= '9' || 'a' <= tag[i] <= 'f'
                    || 'A' <= tag[i] <= 'F'
        } implies is_transient(name) by {
        assert(name == transient_name(pid, tag));
    }
}

/// What is left of a cgroup's place below the mount is its path; nothing is left
/// of the mount itself, nor of what lies elsewhere.
pub proof fn law_tree_rel(mount: Seq<char>, names: Seq<Seq<char>>, p: Seq<char>)
    requires
        mount.len() > 0,
        names.len() > 0,
        forall|i: int| 0 <= i < names.len() ==> is_name(#[trigger] names[i]),
    ensures
        tree_rel_of(mount, joined(mount, joined_texts(names, seq!['/']))) == joined_texts(
            names,
            seq!['/'],
        ),
        tree_rel_of(mount, mount).len() == 0,
        !lies_under(mount, p) ==> tree_rel_of(mount, p).len() == 0,
{
    law_below_the_mount(mount, names);
}

} // verus!
