//! Listing the runner's cgroups, and the processes of one.

use vstd::prelude::*;

use crate::cgroup::{
    is_transient, is_transient_leaf_name, members, pids, read_controllers, ProcsRead,
};
use crate::fault::IoCause;
use crate::number::{decimal, show, show_signed, signed_decimal};
use crate::order::{
    lemma_precedes_irreflexive, lemma_precedes_total, lemma_precedes_transitive, precedes,
    sorts_before,
};
use crate::path::{file_name, last_name};
use crate::run::controllers_in;
use crate::sort::{sorted, Sortable};
use crate::text::{join_texts, joined_texts, words};

verus! {

/// What reading one of the runner's cgroups gave.
#[derive(Debug)]
pub struct RowRead {
    /// Its place below the mount.
    pub rel: String,
    /// The text of its `cgroup.procs`, where it could be read.
    pub procs: Option<String>,
    /// The text of its `cgroup.controllers`, where it could be read.
    pub controllers: Option<String>,
}

/// One of the runner's cgroups.
#[derive(Debug)]
pub struct CgroupRow {
    pub rel: String,
    /// `transient` or `persistent`.
    pub kind: &'static str,
    /// How many processes are in it.
    pub pids: usize,
    pub controllers: Vec<String>,
}

/// What a `CgroupRow` says.
pub ghost struct RowText {
    pub rel: Seq<char>,
    pub kind: Seq<char>,
    pub pids: nat,
    pub controllers: Seq<Seq<char>>,
}

impl View for CgroupRow {
    type V = RowText;

    open spec fn view(&self) -> RowText {
        RowText {
            rel: self.rel@,
            kind: self.kind@,
            pids: self.pids as nat,
            controllers: self.controllers.deep_view(),
        }
    }
}

impl DeepView for CgroupRow {
    type V = RowText;

    open spec fn deep_view(&self) -> RowText {
        self@
    }
}

/// The text of an optional string.
pub open spec fn string_in(s: Option<String>) -> Option<Seq<char>> {
    match s {
        Some(t) => Some(t@),
        None => None,
    }
}

/// Whether a cgroup is named as a transient leaf.
pub open spec fn named_transient(rel: Seq<char>) -> bool {
    match file_name(rel) {
        Some(name) => is_transient(name),
        None => false,
    }
}

/// What is listed of a cgroup. What could not be read counts as empty.
pub open spec fn row_of(read: RowRead) -> RowText {
    RowText {
        rel: read.rel@,
        kind: if named_transient(read.rel@) {
            "transient"@
        } else {
            "persistent"@
        },
        pids: match read.procs {
            Some(data) => pids(data@).len(),
            None => 0,
        },
        controllers: controllers_in(string_in(read.controllers)),
    }
}

/// What is listed of each cgroup, in the order of the reads.
pub open spec fn rows_of(reads: Seq<RowRead>) -> Seq<RowText> {
    Seq::new(reads.len(), |i: int| row_of(reads[i]))
}

/// Whether rows are in the order of their paths.
pub open spec fn in_path_order(s: Seq<RowText>) -> bool {
    forall|i: int, j: int|
        0 <= i < j < s.len() ==> !precedes((#[trigger] s[j]).rel, (#[trigger] s[i]).rel)
}

impl Sortable for CgroupRow {
    open spec fn before(a: RowText, b: RowText) -> bool {
        precedes(a.rel, b.rel)
    }

    proof fn lemma_irreflexive(a: RowText) {
        lemma_precedes_irreflexive(a.rel);
    }

    proof fn lemma_transitive(a: RowText, b: RowText, c: RowText) {
        lemma_precedes_transitive(a.rel, b.rel, c.rel);
    }

    fn is_before(&self, other: &Self) -> (r: bool) {
        sorts_before(self.rel.as_str(), other.rel.as_str())
    }
}

/// What is listed of a cgroup.
fn make_row(read: &RowRead) -> (r: CgroupRow)
    ensures
        r@ == row_of(*read),
{
    let transient = match last_name(read.rel.as_str()) {
        Some(name) => is_transient_leaf_name(name),
        None => false,
    };
    let count = match &read.procs {
        Some(data) => members(data.as_str()).len(),
        None => 0,
    };
    let controllers: Vec<String> = match &read.controllers {
        Some(data) => read_controllers(data.as_str()),
        None => Vec::new(),
    };
    assert(controllers.deep_view() =~= controllers_in(string_in(read.controllers)));
    CgroupRow {
        rel: read.rel.clone(),
        kind: if transient {
            "transient"
        } else {
            "persistent"
        },
        pids: count,
        controllers,
    }
}

/// Makes the list of the runner's cgroups, in the order of their paths.
pub fn rows_cgrun(reads: &[RowRead]) -> (r: Vec<CgroupRow>)
    ensures
        in_path_order(r.deep_view()),
        r.deep_view().to_multiset() == rows_of(reads@).to_multiset(),
{
    let ghost all = rows_of(reads@);
    let mut rows: Vec<CgroupRow> = Vec::new();
    let mut i: usize = 0;
    assert(rows.deep_view() =~= all.take(0));
    while i < reads.len()
        invariant
            i <= reads.len() == all.len(),
            all == rows_of(reads@),
            rows.deep_view() == all.take(i as int),
        decreases reads.len() - i,
    {
        let ghost sofar = rows.deep_view();
        let x = make_row(&reads[i]);
        let ghost row = x@;
        rows.push(x);
        assert(rows.deep_view() =~= sofar.push(row));
        assert(rows.deep_view() =~= all.take(i + 1));
        i = i + 1;
    }
    assert(all.take(i as int) =~= all);
    let r = sorted(rows);
    assert(in_path_order(r.deep_view()));
    r
}

/// So many spaces.
pub open spec fn spaces(n: int) -> Seq<char> {
    Seq::new(
        (if n < 0 {
            0
        } else {
            n
        }) as nat,
        |i: int| ' ',
    )
}

/// So many spaces.
fn blanks(n: usize) -> (r: String)
    ensures
        r@ == spaces(n as int),
{
    let mut r = String::new();
    let mut i: usize = 0;
    proof {
        reveal_strlit(" ");
        assert(r@ =~= spaces(0));
    }
    while i < n
        invariant
            i <= n,
            " "@ == seq![' '],
            r@ == spaces(i as int),
        decreases n - i,
    {
        r.append(" ");
        assert(r@ =~= spaces(i + 1));
        i = i + 1;
    }
    r
}

/// A text at the left of a column.
pub open spec fn left(s: Seq<char>, width: int) -> Seq<char> {
    s + spaces(width - s.len())
}

/// A text at the right of a column.
pub open spec fn right(s: Seq<char>, width: int) -> Seq<char> {
    spaces(width - s.len()) + s
}

/// How many characters a text lacks to fill a column.
fn gap(s: &str, width: usize) -> (n: usize)
    ensures
        n == if s@.len() < width {
            width - s@.len()
        } else {
            0
        },
{
    let len = s.unicode_len();
    if len < width {
        width - len
    } else {
        0
    }
}

/// A text at the left of a column.
fn pad_left_side(s: &str, width: usize) -> (r: String)
    ensures
        r@ == left(s@, width as int),
{
    let r = s.to_owned().concat(blanks(gap(s, width)).as_str());
    assert(r@ =~= left(s@, width as int));
    r
}

/// A text at the right of a column.
fn pad_right_side(s: &str, width: usize) -> (r: String)
    ensures
        r@ == right(s@, width as int),
{
    let r = blanks(gap(s, width)).concat(s);
    assert(r@ =~= right(s@, width as int));
    r
}

/// One line of the list: the path, the kind, the number of processes and what
/// comes last, each in a column of its own.
pub open spec fn columns(
    rel: Seq<char>,
    kind: Seq<char>,
    count: Seq<char>,
    last: Seq<char>,
) -> Seq<char> {
    left(rel, 56) + " "@ + left(kind, 10) + " "@ + right(count, 4) + "  "@ + last
}

/// One line of the list.
fn show_columns(rel: &str, kind: &str, count: &str, last: &str) -> (r: String)
    ensures
        r@ == columns(rel@, kind@, count@, last@),
{
    pad_left_side(rel, 56).concat(" ").concat(pad_left_side(kind, 10).as_str()).concat(" ").concat(
        pad_right_side(count, 4).as_str(),
    ).concat("  ").concat(last)
}

/// The line that lists a cgroup.
pub open spec fn row_line(row: RowText) -> Seq<char> {
    columns(
        row.rel,
        row.kind,
        decimal(row.pids),
        if row.controllers.len() == 0 {
            "-"@
        } else {
            joined_texts(row.controllers, " "@)
        },
    )
}

/// The line that lists a cgroup.
fn show_row(row: &CgroupRow) -> (r: String)
    ensures
        r@ == row_line(row@),
{
    assert(row.controllers.deep_view().len() == row.controllers@.len());
    let last = if row.controllers.len() == 0 {
        "-".to_owned()
    } else {
        join_texts(row.controllers.as_slice(), " ")
    };
    show_columns(row.rel.as_str(), row.kind, show(row.pids as u64).as_str(), last.as_str())
}

/// The lines of the list: a heading and a line for each cgroup, or a word on
/// there being none.
pub open spec fn list_lines(rows: Seq<RowText>) -> Seq<Seq<char>> {
    if rows.len() == 0 {
        seq!["(no cgrun cgroups)"@]
    } else {
        seq![columns("CGROUP"@, "KIND"@, "PIDS"@, "CONTROLLERS"@)] + Seq::new(
            rows.len(),
            |i: int| row_line(rows[i]),
        )
    }
}

/// Adds a line.
fn add_line(lines: &mut Vec<String>, line: String)
    ensures
        final(lines).deep_view() == old(lines).deep_view().push(line@),
{
    let ghost sofar = lines.deep_view();
    let ghost t = line@;
    lines.push(line);
    assert(lines.deep_view() =~= sofar.push(t));
}

/// The lines of the list.
pub fn cmd_list(rows: &[CgroupRow]) -> (r: Vec<String>)
    ensures
        r.deep_view() == list_lines(rows.deep_view()),
{
    let ghost texts = rows.deep_view();
    let ghost all = list_lines(texts);
    assert(texts.len() == rows@.len());
    let mut out: Vec<String> = Vec::new();
    assert(out.deep_view() =~= Seq::empty());
    if rows.len() == 0 {
        add_line(&mut out, "(no cgrun cgroups)".to_owned());
        assert(out.deep_view() =~= all);
        return out;
    }
    add_line(&mut out, show_columns("CGROUP", "KIND", "PIDS", "CONTROLLERS"));
    assert(out.deep_view() =~= all.take(1));
    let mut i: usize = 0;
    while i < rows.len()
        invariant
            i <= rows.len() == texts.len(),
            rows.len() > 0,
            texts == rows.deep_view(),
            all == list_lines(texts),
            out.deep_view() == all.take(i + 1),
        decreases rows.len() - i,
    {
        assert(texts[i as int] == rows@[i as int]@);
        add_line(&mut out, show_row(&rows[i]));
        assert(all[i + 1] == row_line(texts[i as int]));
        assert(out.deep_view() =~= all.take(i + 2));
        i = i + 1;
    }
    assert(all.take(i + 1) =~= all);
    out
}

/// The processes that the first `n` reads of a tree give; what could not be
/// read gives none.
pub open spec fn readable_pids(reads: Seq<ProcsRead>, n: int) -> Seq<i32>
    decreases n,
{
    if n <= 0 {
        Seq::empty()
    } else {
        match reads[n - 1] {
            ProcsRead::Text(s) => readable_pids(reads, n - 1) + pids(s@),
            ProcsRead::Refused(_) => readable_pids(reads, n - 1),
        }
    }
}

/// The lines that list the processes of the tree of a cgroup.
pub open spec fn ps_lines(cgroup: Seq<char>, found: Seq<i32>) -> Seq<Seq<char>> {
    if found.len() == 0 {
        seq!["(empty) "@ + cgroup]
    } else {
        seq!["members of "@ + cgroup + " (whole tree):"@] + Seq::new(
            found.len(),
            |i: int| signed_decimal(found[i] as int),
        )
    }
}

/// The lines that list the processes of a cgroup and of all below it. `reads` is
/// what reading the `cgroup.procs` of each of them gave.
pub fn cmd_ps(cgroup: &str, reads: &[ProcsRead]) -> (r: Vec<String>)
    ensures
        r.deep_view() == ps_lines(cgroup@, readable_pids(reads@, reads@.len() as int)),
{
    let mut found: Vec<i32> = Vec::new();
    let mut i: usize = 0;
    while i < reads.len()
        invariant
            i <= reads.len(),
            found@ == readable_pids(reads@, i as int),
        decreases reads.len() - i,
    {
        if let ProcsRead::Text(t) = &reads[i] {
            let mut more = members(t.as_str());
            found.append(&mut more);
        }
        i = i + 1;
    }
    let ghost all = ps_lines(cgroup@, found@);
    let mut out: Vec<String> = Vec::new();
    assert(out.deep_view() =~= Seq::empty());
    if found.len() == 0 {
        add_line(&mut out, "(empty) ".to_owned().concat(cgroup));
        assert(out.deep_view() =~= all);
        return out;
    }
    add_line(&mut out, "members of ".to_owned().concat(cgroup).concat(" (whole tree):"));
    assert(out.deep_view() =~= all.take(1));
    let mut j: usize = 0;
    while j < found.len()
        invariant
            j <= found.len(),
            found.len() > 0,
            all == ps_lines(cgroup@, found@),
            out.deep_view() == all.take(j + 1),
        decreases found.len() - j,
    {
        add_line(&mut out, show_signed(found[j]));
        assert(all[j + 1] == signed_decimal(found@[j as int] as int));
        assert(out.deep_view() =~= all.take(j + 2));
        j = j + 1;
    }
    assert(all.take(j + 1) =~= all);
    out
}

/// A cgroup is listed by its path, as transient where its name is that of a
/// transient leaf, with the number of its processes and with its controllers;
/// what could not be read counts as empty.
pub proof fn law_rows(read: RowRead)
    ensures
        row_of(read).rel == read.rel@,
        row_of(read).kind == "transient"@ || row_of(read).kind == "persistent"@,
        row_of(read).kind == "transient"@ <==> (file_name(read.rel@) matches Some(name)
            && is_transient(name)),
        read.procs matches Some(t) ==> row_of(read).pids == pids(t@).len(),
        read.procs is None ==> row_of(read).pids == 0,
        read.controllers matches Some(t) ==> row_of(read).controllers == words(t@),
        read.controllers is None ==> row_of(read).controllers.len() == 0,
{
    reveal_strlit("transient");
    reveal_strlit("persistent");
    assert("transient"@[0] != "persistent"@[0]);
}

/// Every cgroup has its row, and every row its cgroup.
pub proof fn law_all_rows(reads: Seq<RowRead>, i: int)
    requires
        0 <= i < reads.len(),
    ensures
        rows_of(reads).len() == reads.len(),
        rows_of(reads)[i] == row_of(reads[i]),
{
}

/// The list has a heading and then a line for each row, in their order, or one
/// line where there are none.
pub proof fn law_list_lines(rows: Seq<RowText>, i: int)
    requires
        0 <= i < rows.len(),
    ensures
        list_lines(rows).len() == rows.len() + 1,
        list_lines(rows)[i + 1] == row_line(rows[i]),
        list_lines(Seq::empty()) == seq!["(no cgrun cgroups)"@],
{
}

/// A line shows the path, the kind, the number of processes, and the controllers
/// with a blank between each and the next, or a dash where there are none: the
/// first two from the left in columns of 56 and 10, the number from the right in
/// a column of 4.
pub proof fn law_row_lines(row: RowText, a: nat, b: nat, c: nat)
    requires
        a == if row.rel.len() < 56 {
            56 - row.rel.len()
        } else {
            0
        },
        b == if row.kind.len() < 10 {
            10 - row.kind.len()
        } else {
            0
        },
        c == if decimal(row.pids).len() < 4 {
            4 - decimal(row.pids).len()
        } else {
            0
        },
    ensures
        row_line(row) == row.rel + Seq::new(a, |i: int| ' ') + " "@ + (row.kind + Seq::new(
            b,
            |i: int| ' ',
        )) + " "@ + (Seq::new(c, |i: int| ' ') + decimal(row.pids)) + "  "@ + (
        if row.controllers.len() == 0 {
            "-"@
        } else {
            joined_texts(row.controllers, " "@)
        }),
{
    assert(spaces(56 - row.rel.len()) =~= Seq::new(a, |i: int| ' '));
    assert(spaces(10 - row.kind.len()) =~= Seq::new(b, |i: int| ' '));
    assert(spaces(4 - decimal(row.pids).len()) =~= Seq::new(c, |i: int| ' '));
}

proof fn lemma_readable_prefix(a: Seq<ProcsRead>, b: Seq<ProcsRead>, n: int)
    requires
        0 <= n <= a.len(),
    ensures
        readable_pids(a + b, n) == readable_pids(a, n),
    decreases n,
{
    if n > 0 {
        lemma_readable_prefix(a, b, n - 1);
        assert((a + b)[n - 1] == a[n - 1]);
    }
}

proof fn lemma_readable_after(a: Seq<ProcsRead>, b: Seq<ProcsRead>, n: int)
    requires
        0 <= n <= b.len(),
    ensures
        readable_pids(a + b, a.len() + n) == readable_pids(a, a.len() as int) + readable_pids(b, n),
    decreases n,
{
    let p = readable_pids(a, a.len() as int);
    if n > 0 {
        lemma_readable_after(a, b, n - 1);
        assert((a + b)[a.len() + n - 1] == b[n - 1]);
        assert(readable_pids(a + b, a.len() + n) =~= p + readable_pids(b, n));
    } else {
        lemma_readable_prefix(a, b, a.len() as int);
        assert(p + Seq::<i32>::empty() =~= p);
    }
}

/// The processes of a tree that are listed are those of its cgroups that can be
/// read, one cgroup after the other; one that cannot be read hides no other.
pub proof fn law_readable_processes(
    a: Seq<ProcsRead>,
    b: Seq<ProcsRead>,
    text: String,
    causes: Vec<IoCause>,
)
    ensures
        readable_pids(a + b, (a + b).len() as int) == readable_pids(a, a.len() as int)
            + readable_pids(b, b.len() as int),
        readable_pids(seq![ProcsRead::Text(text)], 1) == pids(text@),
        readable_pids(seq![ProcsRead::Refused(causes)], 1).len() == 0,
        readable_pids(Seq::empty(), 0).len() == 0,
{
    lemma_readable_after(a, b, b.len() as int);
    let one = seq![ProcsRead::Text(text)];
    assert(readable_pids(one, 0) =~= Seq::empty());
    assert(readable_pids(one, 1) =~= pids(text@));
    let gone = seq![ProcsRead::Refused(causes)];
    assert(readable_pids(gone, 0) =~= Seq::empty());
    assert(readable_pids(gone, 1) == readable_pids(gone, 0));
}

/// Every process that is found has a line of its own with its number, in their
/// order, after one line that names the cgroup.
pub proof fn law_ps_lines(cgroup: Seq<char>, found: Seq<i32>, i: int)
    requires
        0 <= i < found.len(),
    ensures
        ps_lines(cgroup, found).len() == found.len() + 1,
        ps_lines(cgroup, found)[0] == "members of "@ + cgroup + " (whole tree):"@,
        ps_lines(cgroup, found)[i + 1] == signed_decimal(found[i] as int),
        ps_lines(cgroup, Seq::empty()) == seq!["(empty) "@ + cgroup],
{
}

/// No row comes before one whose path sorts before its own.
pub proof fn law_rows_in_order(rows: Seq<RowText>)
    ensures
        in_path_order(rows) <==> forall|i: int, j: int|
            0 <= i < j < rows.len() ==> (#[trigger] rows[i]).rel == (#[trigger] rows[j]).rel
                || precedes(rows[i].rel, rows[j].rel),
{
    if in_path_order(rows) {
        assert forall|i: int, j: int| 0 <= i < j < rows.len() implies (#[trigger] rows[i]).rel == (
        #[trigger] rows[j]).rel || precedes(rows[i].rel, rows[j].rel) by {
            lemma_precedes_total(rows[i].rel, rows[j].rel);
        }
    }
    if forall|i: int, j: int|
        0 <= i < j < rows.len() ==> (#[trigger] rows[i]).rel == (#[trigger] rows[j]).rel
            || precedes(rows[i].rel, rows[j].rel) {
        assert forall|i: int, j: int| 0 <= i < j < rows.len() implies !precedes(
            (#[trigger] rows[j]).rel,
            (#[trigger] rows[i]).rel,
        ) by {
            lemma_precedes_irreflexive(rows[i].rel);
            if precedes(rows[i].rel, rows[j].rel) && precedes(rows[j].rel, rows[i].rel) {
                lemma_precedes_transitive(rows[i].rel, rows[j].rel, rows[i].rel);
            }
        }
    }
}

} // verus!
