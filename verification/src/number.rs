//! Numbers as text, and letters whatever their case.

use vstd::prelude::*;

use crate::text::chars;

verus! {

/// An ASCII decimal digit.
pub open spec fn is_digit(c: char) -> bool {
    '0' <= c <= '9'
}

/// An ASCII hexadecimal digit, in either case.
pub open spec fn is_hex_digit(c: char) -> bool {
    is_digit(c) || 'a' <= c <= 'f' || 'A' <= c <= 'F'
}

/// Only decimal digits.
pub open spec fn all_digits(s: Seq<char>) -> bool {
    forall|i: int| 0 <= i < s.len() ==> is_digit(#[trigger] s[i])
}

/// Only hexadecimal digits.
pub open spec fn all_hex_digits(s: Seq<char>) -> bool {
    forall|i: int| 0 <= i < s.len() ==> is_hex_digit(#[trigger] s[i])
}

/// What a decimal digit stands for.
pub open spec fn digit_value(c: char) -> nat {
    if is_digit(c) {
        (c as u32 - '0' as u32) as nat
    } else {
        0
    }
}

/// The number that a run of decimal digits denotes.
pub open spec fn number(s: Seq<char>) -> nat
    decreases s.len(),
{
    if s.len() == 0 {
        0
    } else {
        number(s.drop_last()) * 10 + digit_value(s.last())
    }
}

/// A digit for a value below sixteen, in lower case.
pub open spec fn digit_char(d: int) -> char {
    if d < 10 {
        (48 + d) as char
    } else {
        (87 + d) as char
    }
}

/// `n` in decimal, without leading zeros.
pub open spec fn decimal(n: nat) -> Seq<char>
    decreases n,
{
    if n < 10 {
        seq![digit_char(n as int)]
    } else {
        decimal(n / 10).push(digit_char((n % 10) as int))
    }
}

/// `n` in decimal, with a minus sign where it is negative.
pub open spec fn signed_decimal(n: int) -> Seq<char> {
    if n < 0 {
        seq!['-'] + decimal((-n) as nat)
    } else {
        decimal(n as nat)
    }
}

/// The low sixteen bits of `n` as four hexadecimal digits.
pub open spec fn hex4(n: nat) -> Seq<char> {
    seq![
        digit_char((n / 4096 % 16) as int),
        digit_char((n / 256 % 16) as int),
        digit_char((n / 16 % 16) as int),
        digit_char((n % 16) as int),
    ]
}

/// The number that an unsigned decimal denotes: digits, after a plus sign or not.
pub open spec fn unsigned(s: Seq<char>) -> Option<nat> {
    let d = if s.len() > 0 && s[0] == '+' {
        s.skip(1)
    } else {
        s
    };
    if d.len() > 0 && all_digits(d) {
        Some(number(d))
    } else {
        None
    }
}

/// The number that a signed decimal denotes: digits, after a sign or not.
pub open spec fn signed(s: Seq<char>) -> Option<int> {
    if s.len() > 0 && s[0] == '-' {
        match unsigned_digits(s.skip(1)) {
            Some(n) => Some(-(n as int)),
            None => None,
        }
    } else {
        match unsigned(s) {
            Some(n) => Some(n as int),
            None => None,
        }
    }
}

/// The number that a non-empty run of digits denotes.
pub open spec fn unsigned_digits(s: Seq<char>) -> Option<nat> {
    if s.len() > 0 && all_digits(s) {
        Some(number(s))
    } else {
        None
    }
}

/// `v` where it is at most `max`.
pub open spec fn within(v: Option<nat>, max: nat) -> Option<nat> {
    match v {
        Some(n) => if n <= max {
            Some(n)
        } else {
            None
        },
        None => None,
    }
}

/// `v` where it is a 32-bit integer.
pub open spec fn within_i32(v: Option<int>) -> Option<int> {
    match v {
        Some(n) => if i32::MIN <= n <= i32::MAX {
            Some(n)
        } else {
            None
        },
        None => None,
    }
}

proof fn lemma_number_grows(s: Seq<char>, n: int)
    requires
        0 <= n <= s.len(),
    ensures
        number(s.take(n)) <= number(s),
    decreases s.len() - n,
{
    if n < s.len() {
        lemma_number_grows(s, n + 1);
        assert(s.take(n + 1).drop_last() =~= s.take(n));
    } else {
        assert(s.take(n) =~= s);
    }
}

/// Reads the digits from position `from` on as a number of at most `max`.
pub fn read_digits(cs: &Vec<char>, from: usize, max: u64) -> (r: Option<u64>)
    requires
        from <= cs.len(),
    ensures
        match r {
            Some(n) => within(unsigned_digits(cs@.skip(from as int)), max as nat) == Some(n as nat),
            None => within(unsigned_digits(cs@.skip(from as int)), max as nat) is None,
        },
{
    let ghost d = cs@.skip(from as int);
    if from == cs.len() {
        return None;
    }
    let mut i: usize = from;
    let mut acc: u64 = 0;
    assert(number(d.take(0)) == 0);
    while i < cs.len()
        invariant
            from <= i <= cs.len(),
            d == cs@.skip(from as int),
            acc <= max,
            acc == number(d.take(i - from)),
            forall|j: int| 0 <= j < i - from ==> is_digit(#[trigger] d[j]),
        decreases cs.len() - i,
    {
        let c = cs[i];
        assert(d[i - from] == c);
        if !('0' <= c && c <= '9') {
            assert(!all_digits(d));
            return None;
        }
        let v: u64 = c as u64 - '0' as u64;
        let next: u128 = acc as u128 * 10 + v as u128;
        proof {
            assert(d.take(i - from + 1).drop_last() =~= d.take(i - from));
            assert(next == number(d.take(i - from + 1)));
            lemma_number_grows(d, i - from + 1);
        }
        if next > max as u128 {
            return None;
        }
        acc = next as u64;
        i = i + 1;
    }
    assert(d.take(cs.len() - from) =~= d);
    Some(acc)
}

/// Reads an unsigned decimal of at most `max`.
pub fn parse_unsigned(s: &str, max: u64) -> (r: Option<u64>)
    ensures
        match r {
            Some(n) => within(unsigned(s@), max as nat) == Some(n as nat),
            None => within(unsigned(s@), max as nat) is None,
        },
{
    let cs = chars(s);
    if cs.len() > 0 && cs[0] == '+' {
        read_digits(&cs, 1, max)
    } else {
        assert(cs@.skip(0) =~= cs@);
        read_digits(&cs, 0, max)
    }
}

/// Reads a signed decimal that fits in 32 bits.
pub fn parse_i32(s: &str) -> (r: Option<i32>)
    ensures
        match r {
            Some(n) => within_i32(signed(s@)) == Some(n as int),
            None => within_i32(signed(s@)) is None,
        },
{
    let cs = chars(s);
    if cs.len() > 0 && cs[0] == '-' {
        match read_digits(&cs, 1, 2147483648) {
            Some(n) => if n == 2147483648 {
                Some(i32::MIN)
            } else {
                Some(-(n as i32))
            },
            None => None,
        }
    } else {
        match parse_unsigned(s, 2147483647) {
            Some(n) => Some(n as i32),
            None => None,
        }
    }
}

/// The digit for a value below sixteen, as text.
fn digit_text(d: u64) -> (r: &'static str)
    requires
        d < 16,
    ensures
        r@ == seq![digit_char(d as int)],
{
    proof {
        reveal_strlit("0");
        reveal_strlit("1");
        reveal_strlit("2");
        reveal_strlit("3");
        reveal_strlit("4");
        reveal_strlit("5");
        reveal_strlit("6");
        reveal_strlit("7");
        reveal_strlit("8");
        reveal_strlit("9");
        reveal_strlit("a");
        reveal_strlit("b");
        reveal_strlit("c");
        reveal_strlit("d");
        reveal_strlit("e");
        reveal_strlit("f");
    }
    let r = match d {
        0 => "0",
        1 => "1",
        2 => "2",
        3 => "3",
        4 => "4",
        5 => "5",
        6 => "6",
        7 => "7",
        8 => "8",
        9 => "9",
        10 => "a",
        11 => "b",
        12 => "c",
        13 => "d",
        14 => "e",
        _ => "f",
    };
    assert(r@ =~= seq![digit_char(d as int)]);
    r
}

/// `n` in decimal.
pub fn show(n: u64) -> (r: String)
    ensures
        r@ == decimal(n as nat),
    decreases n,
{
    if n < 10 {
        digit_text(n).to_owned()
    } else {
        let mut r = show(n / 10);
        let d = digit_text(n % 10);
        r.append(d);
        assert(r@ =~= decimal(n as nat));
        r
    }
}

/// `n` in decimal, with its sign.
pub fn show_signed(n: i32) -> (r: String)
    ensures
        r@ == signed_decimal(n as int),
{
    if n < 0 {
        let m: u64 = (-(n as i64)) as u64;
        let mut r = "-".to_owned();
        let d = show(m);
        r.append(d.as_str());
        proof {
            reveal_strlit("-");
            assert(r@ =~= signed_decimal(n as int));
        }
        r
    } else {
        show(n as u64)
    }
}

/// The low sixteen bits of `n` as four hexadecimal digits.
pub fn show_hex4(n: u32) -> (r: String)
    ensures
        r@ == hex4(n as nat),
{
    let m: u64 = n as u64;
    let mut r = digit_text(m / 4096 % 16).to_owned();
    r.append(digit_text(m / 256 % 16));
    r.append(digit_text(m / 16 % 16));
    r.append(digit_text(m % 16));
    assert(r@ =~= hex4(n as nat));
    r
}

/// A character with its ASCII case folded, as its code point.
pub open spec fn fold(c: char) -> int {
    if 'A' <= c <= 'Z' {
        c as u32 + 32
    } else {
        c as u32 as int
    }
}

/// Equal but for the case of ASCII letters.
pub open spec fn alike(a: Seq<char>, b: Seq<char>) -> bool {
    a.len() == b.len() && forall|i: int| 0 <= i < a.len() ==> fold(#[trigger] a[i]) == fold(b[i])
}

/// The code point of a character with its ASCII case folded.
fn folded(c: char) -> (r: u32)
    ensures
        r == fold(c),
{
    if 'A' <= c && c <= 'Z' {
        c as u32 + 32
    } else {
        c as u32
    }
}

/// Compares two texts, whatever the case of their ASCII letters.
pub fn same_ignoring_case(a: &str, b: &str) -> (r: bool)
    ensures
        r == alike(a@, b@),
{
    let xs = chars(a);
    let ys = chars(b);
    if xs.len() != ys.len() {
        return false;
    }
    let mut i: usize = 0;
    while i < xs.len()
        invariant
            xs@ == a@,
            ys@ == b@,
            xs.len() == ys.len(),
            i <= xs.len(),
            forall|j: int| 0 <= j < i ==> fold(#[trigger] a@[j]) == fold(b@[j]),
        decreases xs.len() - i,
    {
        if folded(xs[i]) != folded(ys[i]) {
            assert(fold(a@[i as int]) != fold(b@[i as int]));
            return false;
        }
        i = i + 1;
    }
    true
}

/// The decimal form of a number is digits alone, and denotes the number.
pub proof fn lemma_decimal(n: nat)
    ensures
        decimal(n).len() > 0,
        all_digits(decimal(n)),
        number(decimal(n)) == n,
    decreases n,
{
    if n >= 10 {
        lemma_decimal(n / 10);
        assert(decimal(n).drop_last() =~= decimal(n / 10));
    } else {
        assert(decimal(n).drop_last() =~= Seq::<char>::empty());
        assert(number(decimal(n).drop_last()) == 0);
    }
}

/// What is equal to a text but for the case of its letters is so to what is
/// equal to that text in the same way.
pub proof fn lemma_alike_through(x: Seq<char>, a: Seq<char>, b: Seq<char>)
    requires
        alike(a, b),
    ensures
        alike(x, a) == alike(x, b),
        alike(a, x) == alike(b, x),
{
    assert forall|i: int| 0 <= i < a.len() && a.len() == x.len() implies fold(#[trigger] x[i])
        == fold(a[i]) <==> fold(x[i]) == fold(b[i]) by {
        assert(fold(a[i]) == fold(b[i]));
    }
    if alike(a, x) {
        assert forall|i: int| 0 <= i < b.len() implies fold(#[trigger] b[i]) == fold(x[i]) by {
            assert(fold(a[i]) == fold(b[i]));
        }
    }
    if alike(b, x) {
        assert forall|i: int| 0 <= i < a.len() implies fold(#[trigger] a[i]) == fold(x[i]) by {
            assert(fold(b[i]) == fold(x[i]));
        }
    }
}

proof fn lemma_no_case(x: char, y: char)
    requires
        fold(x) == fold(y),
        is_digit(x) || x == '+' || x == '-',
    ensures
        x == y,
{
}

proof fn lemma_number_chars(a: Seq<char>)
    requires
        signed(a) is Some,
    ensures
        forall|i: int|
            0 <= i < a.len() ==> is_digit(#[trigger] a[i]) || a[i] == '+' || a[i] == '-',
{
    assert forall|i: int| 0 <= i < a.len() implies is_digit(#[trigger] a[i]) || a[i] == '+' || a[i]
        == '-' by {
        if i > 0 {
            assert(a.skip(1)[i - 1] == a[i]);
        }
    }
}

proof fn lemma_alike_number(a: Seq<char>, b: Seq<char>)
    requires
        alike(a, b),
        signed(a) is Some,
    ensures
        a == b,
{
    lemma_number_chars(a);
    assert forall|i: int| 0 <= i < a.len() implies a[i] == #[trigger] b[i] by {
        assert(fold(a[i]) == fold(b[i]));
        lemma_no_case(a[i], b[i]);
    }
    assert(a =~= b);
}

/// The case of letters does not matter to a number: it has none.
pub proof fn lemma_signed_ignores_case(a: Seq<char>, b: Seq<char>)
    requires
        alike(a, b),
    ensures
        signed(a) == signed(b),
{
    if signed(a) is Some {
        lemma_alike_number(a, b);
    }
    if signed(b) is Some {
        assert forall|i: int| 0 <= i < b.len() implies fold(#[trigger] b[i]) == fold(a[i]) by {
            assert(fold(a[i]) == fold(b[i]));
        }
        lemma_alike_number(b, a);
    }
}

/// The decimal form of a number denotes it, with its sign.
pub proof fn lemma_signed_decimal(n: int)
    ensures
        signed(signed_decimal(n)) == Some(n),
        signed_decimal(n).len() > 0,
        is_digit(signed_decimal(n).last()),
        forall|i: int|
            0 <= i < signed_decimal(n).len() ==> is_digit(#[trigger] signed_decimal(n)[i])
                || signed_decimal(n)[i] == '-',
{
    let d = signed_decimal(n);
    if n < 0 {
        let m = decimal((-n) as nat);
        lemma_decimal((-n) as nat);
        assert(d.skip(1) =~= m);
        assert(d.last() == m[m.len() - 1]);
        assert forall|i: int| 0 <= i < d.len() implies is_digit(#[trigger] d[i]) || d[i] == '-' by {
            if i > 0 {
                assert(d[i] == m[i - 1]);
            }
        }
    } else {
        lemma_decimal(n as nat);
        assert(is_digit(d[0]));
        assert(is_digit(d[d.len() - 1]));
    }
}

/// Digits are read from the left, ten to one, each for what it shows.
pub proof fn law_digits_denote(s: Seq<char>, c: char)
    requires
        '0' <= c <= '9',
    ensures
        number(s.push(c)) == number(s) * 10 + (c as u32 - '0' as u32),
        number(seq![c]) == c as u32 - '0' as u32,
        number(Seq::empty()) == 0,
{
    assert(s.push(c).drop_last() =~= s);
    let one = seq![c];
    assert(one.drop_last() =~= Seq::<char>::empty());
    assert(number(Seq::<char>::empty()) == 0);
}

/// Zeros before a number do not matter.
pub proof fn lemma_leading_zeros(z: Seq<char>, s: Seq<char>)
    requires
        forall|i: int| 0 <= i < z.len() ==> #[trigger] z[i] == '0',
        all_digits(s),
    ensures
        number(z + s) == number(s),
        all_digits(z + s),
    decreases z.len() + s.len(),
{
    let t = z + s;
    assert forall|i: int| 0 <= i < t.len() implies is_digit(#[trigger] t[i]) by {
        if i < z.len() {
            assert(t[i] == z[i]);
        } else {
            assert(t[i] == s[i - z.len()]);
        }
    }
    if s.len() > 0 {
        let d = s.drop_last();
        assert forall|i: int| 0 <= i < d.len() implies is_digit(#[trigger] d[i]) by {
            assert(d[i] == s[i]);
        }
        lemma_leading_zeros(z, d);
        assert(t.drop_last() =~= z + d);
        assert(t.last() == s.last());
    } else if z.len() > 0 {
        lemma_leading_zeros(z.drop_last(), s);
        assert(t.drop_last() =~= z.drop_last() + s);
        assert(t.last() == z[z.len() - 1]);
    }
}

/// The decimal form of a number has no digit too many.
pub proof fn lemma_decimal_start(n: nat)
    ensures
        decimal(n)[0] == '0' ==> n == 0,
    decreases n,
{
    lemma_decimal(n);
    if n >= 10 {
        lemma_decimal(n / 10);
        lemma_decimal_start(n / 10);
        assert(decimal(n)[0] == decimal(n / 10)[0]);
    }
}

/// Every number is read from its decimal form, after zeros, and after a plus
/// sign or not, where it is in range, and from no other sign.
pub proof fn law_decimals_are_read(n: nat, zeros: nat, max: nat)
    ensures
        ({
            let t = Seq::new(zeros, |i: int| '0') + decimal(n);
            let r = if n <= max {
                Some(n)
            } else {
                None
            };
            &&& within(unsigned(t), max) == r
            &&& within(unsigned(seq!['+'] + t), max) == r
            &&& unsigned(seq!['-'] + t) is None
        }),
{
    let z = Seq::new(zeros, |i: int| '0');
    lemma_decimal(n);
    lemma_leading_zeros(z, decimal(n));
    let t = z + decimal(n);
    assert(is_digit(t[0]));
    assert((seq!['+'] + t).skip(1) =~= t);
    assert(!is_digit((seq!['-'] + t)[0]));
}

/// Every number of 32 bits is read from its decimal form with its sign.
pub proof fn law_signed_decimals_are_read(n: int, zeros: nat)
    ensures
        ({
            let t = Seq::new(zeros, |i: int| '0') + decimal(
                (if n < 0 {
                    -n
                } else {
                    n
                }) as nat,
            );
            let s = if n < 0 {
                seq!['-'] + t
            } else {
                t
            };
            let r = if -0x8000_0000 <= n < 0x8000_0000 {
                Some(n)
            } else {
                None
            };
            &&& within_i32(signed(s)) == r
            &&& n >= 0 ==> within_i32(signed(seq!['+'] + t)) == r
        }),
{
    let z = Seq::new(zeros, |i: int| '0');
    let m = (if n < 0 {
        -n
    } else {
        n
    }) as nat;
    lemma_decimal(m);
    lemma_leading_zeros(z, decimal(m));
    let t = z + decimal(m);
    assert(is_digit(t[0]));
    assert((seq!['+'] + t).skip(1) =~= t);
    assert((seq!['-'] + t).skip(1) =~= t);
}

/// What holds anything but digits after its sign is no number, nor is a sign
/// alone or nothing.
pub proof fn law_other_texts_are_no_numbers(s: Seq<char>, i: int)
    requires
        0 <= i < s.len(),
        !('0' <= s[i] <= '9'),
    ensures
        i > 0 || s[0] != '+' ==> unsigned(s) is None,
        i > 0 || (s[0] != '+' && s[0] != '-') ==> signed(s) is None,
        s.len() == 1 ==> unsigned(s) is None && signed(s) is None,
        unsigned(Seq::empty()) is None,
        signed(Seq::empty()) is None,
{
    assert(!is_digit(s[i]));
    if i > 0 {
        assert(s.skip(1)[i - 1] == s[i]);
    }
}

/// Two texts are equal but for the case of their letters where each character
/// of one is that of the other, or the same letter in the other case.
pub proof fn law_letters_alike(x: char, y: char)
    ensures
        alike(seq![x], seq![y]) <==> (x == y || ('a' <= x <= 'z' && x as u32 == y as u32 + 32) || (
        'a' <= y <= 'z' && y as u32 == x as u32 + 32)),
{
    let a = seq![x];
    let b = seq![y];
    if alike(a, b) {
        assert(fold(a[0]) == fold(b[0]));
    }
}

/// Texts are equal but for case where their parts are.
pub proof fn law_alike_by_parts(a: Seq<char>, b: Seq<char>, x: char, y: char)
    ensures
        alike(a.push(x), b.push(y)) <==> alike(a, b) && alike(seq![x], seq![y]),
        alike(a, b) ==> a.len() == b.len(),
        alike(a, a),
{
    let p = a.push(x);
    let q = b.push(y);
    let s = seq![x];
    let t = seq![y];
    if alike(p, q) {
        assert forall|i: int| 0 <= i < a.len() implies fold(#[trigger] a[i]) == fold(b[i]) by {
            assert(fold(p[i]) == fold(q[i]));
        }
        assert(fold(p[a.len() as int]) == fold(q[a.len() as int]));
    }
    if alike(a, b) && alike(s, t) {
        assert(fold(s[0]) == fold(t[0]));
        assert forall|i: int| 0 <= i < p.len() implies fold(#[trigger] p[i]) == fold(q[i]) by {
            if i < a.len() {
                assert(fold(a[i]) == fold(b[i]));
            }
        }
    }
}

/// Four hexadecimal digits show the low sixteen bits: one for each four, the
/// highest first.
pub proof fn law_hex4_digits(k: nat, a: nat, b: nat, c: nat, d: nat)
    requires
        a < 16,
        b < 16,
        c < 16,
        d < 16,
    ensures
        hex4(k * 65536 + a * 4096 + b * 256 + c * 16 + d) == seq![
            digit_char(a as int),
            digit_char(b as int),
            digit_char(c as int),
            digit_char(d as int),
        ],
        d < 10 ==> digit_char(d as int) as u32 == '0' as u32 + d,
        d >= 10 ==> digit_char(d as int) as u32 == 'a' as u32 + d - 10,
{
    let n = k * 65536 + a * 4096 + b * 256 + c * 16 + d;
    assert(n / 4096 == k * 16 + a);
    assert(n / 256 == k * 256 + a * 16 + b);
    assert(n / 16 == k * 4096 + a * 256 + b * 16 + c);
    assert(n / 4096 % 16 == a);
    assert(n / 256 % 16 == b);
    assert(n / 16 % 16 == c);
    assert(n % 16 == d);
}

} // verus!
