//! Character-level helpers on string views: collecting, comparing,
//! searching and decimal formatting.

use vstd::prelude::*;

verus! {

/// Lexicographic order on character sequences, as Rust orders `str`
/// (byte order of UTF-8 coincides with code point order).
pub open spec fn lex_lt(a: Seq<char>, b: Seq<char>) -> bool
    decreases a.len(),
{
    if b.len() == 0 {
        false
    } else if a.len() == 0 {
        true
    } else if (a[0] as u32) < (b[0] as u32) {
        true
    } else if a[0] == b[0] {
        lex_lt(a.drop_first(), b.drop_first())
    } else {
        false
    }
}

/// The characters of a string slice, in order.
pub fn to_chars(s: &str) -> (v: Vec<char>)
    ensures
        v@ == s@,
{
    let mut v: Vec<char> = Vec::new();
    for c in it: s.chars()
        invariant
            v@ == it.seq().take(it.index() as int),
            it.seq() == s@,
    {
        v.push(c);
    }
    v
}

/// Whether two strings hold the same characters.
pub fn str_eq(a: &str, b: &str) -> (r: bool)
    ensures
        r == (a@ == b@),
{
    let x = to_chars(a);
    let y = to_chars(b);
    chars_eq(&x, &y)
}

/// Whether two character vectors hold the same characters.
pub fn chars_eq(a: &Vec<char>, b: &Vec<char>) -> (r: bool)
    ensures
        r == (a@ == b@),
{
    if a.len() != b.len() {
        return false;
    }
    let mut i: usize = 0;
    while i < a.len()
        invariant
            a.len() == b.len(),
            i <= a.len(),
            forall|j: int| 0 <= j < i ==> a@[j] == b@[j],
        decreases a.len() - i,
    {
        if a[i] != b[i] {
            return false;
        }
        i = i + 1;
    }
    assert(a@ =~= b@);
    true
}

proof fn lemma_lex_lt_offset(a: Seq<char>, b: Seq<char>, i: int)
    requires
        0 <= i <= a.len(),
        i <= b.len(),
        forall|j: int| 0 <= j < i ==> a[j] == b[j],
    ensures
        lex_lt(a, b) == lex_lt(a.subrange(i, a.len() as int), b.subrange(i, b.len() as int)),
    decreases i,
{
    if i > 0 {
        assert(a.len() > 0 && b.len() > 0);
        let a1 = a.drop_first();
        let b1 = b.drop_first();
        assert forall|j: int| 0 <= j < i - 1 implies a1[j] == b1[j] by {
            assert(a[j + 1] == b[j + 1]);
        }
        lemma_lex_lt_offset(a1, b1, i - 1);
        assert(a1.subrange(i - 1, a1.len() as int) =~= a.subrange(i, a.len() as int));
        assert(b1.subrange(i - 1, b1.len() as int) =~= b.subrange(i, b.len() as int));
    } else {
        assert(a.subrange(0, a.len() as int) =~= a);
        assert(b.subrange(0, b.len() as int) =~= b);
    }
}

/// No sequence comes before itself.
pub proof fn lemma_lex_lt_irreflexive(a: Seq<char>)
    ensures
        !lex_lt(a, a),
    decreases a.len(),
{
    if a.len() > 0 {
        lemma_lex_lt_irreflexive(a.drop_first());
    }
}

/// Lexicographic order is transitive.
pub proof fn lemma_lex_lt_transitive(a: Seq<char>, b: Seq<char>, c: Seq<char>)
    requires
        lex_lt(a, b),
        lex_lt(b, c),
    ensures
        lex_lt(a, c),
    decreases a.len(),
{
    if a.len() > 0 && a[0] == b[0] && b[0] == c[0] {
        lemma_lex_lt_transitive(a.drop_first(), b.drop_first(), c.drop_first());
    }
}

/// Lexicographic comparison of two character vectors.
pub fn chars_lt(a: &Vec<char>, b: &Vec<char>) -> (r: bool)
    ensures
        r == lex_lt(a@, b@),
{
    let mut i: usize = 0;
    while i < a.len() && i < b.len()
        invariant
            i <= a.len(),
            i <= b.len(),
            forall|j: int| 0 <= j < i ==> a@[j] == b@[j],
        decreases a.len() - i,
    {
        if (a[i] as u32) < (b[i] as u32) {
            proof {
                lemma_lex_lt_offset(a@, b@, i as int);
            }
            return true;
        }
        if a[i] != b[i] {
            proof {
                lemma_lex_lt_offset(a@, b@, i as int);
            }
            return false;
        }
        i = i + 1;
    }
    proof {
        lemma_lex_lt_offset(a@, b@, i as int);
    }
    i == a.len() && i < b.len()
}

/// The decimal digit character for `d`.
pub open spec fn digit_char(d: nat) -> char {
    if d == 0 { '0' }
    else if d == 1 { '1' }
    else if d == 2 { '2' }
    else if d == 3 { '3' }
    else if d == 4 { '4' }
    else if d == 5 { '5' }
    else if d == 6 { '6' }
    else if d == 7 { '7' }
    else if d == 8 { '8' }
    else { '9' }
}

/// The decimal representation of `n`, without sign or leading zeros,
/// as Rust's `Display` writes unsigned integers.
pub open spec fn decimal_chars(n: nat) -> Seq<char>
    decreases n,
{
    if n < 10 {
        seq![digit_char(n)]
    } else {
        decimal_chars(n / 10) + seq![digit_char(n % 10)]
    }
}

fn digit_str(d: u64) -> (r: &'static str)
    requires
        d < 10,
    ensures
        r@ == seq![digit_char(d as nat)],
{
    if d == 0 {
        proof { reveal_strlit("0"); }
        "0"
    } else if d == 1 {
        proof { reveal_strlit("1"); }
        "1"
    } else if d == 2 {
        proof { reveal_strlit("2"); }
        "2"
    } else if d == 3 {
        proof { reveal_strlit("3"); }
        "3"
    } else if d == 4 {
        proof { reveal_strlit("4"); }
        "4"
    } else if d == 5 {
        proof { reveal_strlit("5"); }
        "5"
    } else if d == 6 {
        proof { reveal_strlit("6"); }
        "6"
    } else if d == 7 {
        proof { reveal_strlit("7"); }
        "7"
    } else if d == 8 {
        proof { reveal_strlit("8"); }
        "8"
    } else {
        proof { reveal_strlit("9"); }
        "9"
    }
}

/// Appends the decimal representation of `n` to `s`.
pub fn push_decimal(s: &mut String, n: u64)
    ensures
        final(s)@ == old(s)@ + decimal_chars(n as nat),
    decreases n,
{
    if n < 10 {
        s.append(digit_str(n));
    } else {
        push_decimal(s, n / 10);
        s.append(digit_str(n % 10));
        proof {
            assert(old(s)@ + decimal_chars(n as nat) =~= old(s)@ + decimal_chars((n / 10) as nat)
                + seq![digit_char((n % 10) as nat)]);
        }
    }
}

/// `c` is an ASCII decimal digit.
pub open spec fn is_digit(c: char) -> bool {
    '0' <= c && c <= '9'
}

/// The value of an ASCII decimal digit.
pub open spec fn digit_value(c: char) -> int {
    (c as u32) - ('0' as u32)
}

/// The value of a string of decimal digits.
pub open spec fn digits_value(cs: Seq<char>) -> int
    decreases cs.len(),
{
    if cs.len() == 0 {
        0
    } else {
        digits_value(cs.drop_last()) * 10 + digit_value(cs.last())
    }
}

/// The digits after an optional leading `+`.
pub open spec fn unsigned_body(cs: Seq<char>) -> Seq<char> {
    if cs.len() > 0 && cs[0] == '+' { cs.drop_first() } else { cs }
}

/// What `str::parse::<u64>` yields: an optional `+`, then at least one
/// ASCII digit and nothing else, with a value that fits in `u64`.
pub open spec fn parse_u64_spec(cs: Seq<char>) -> Option<u64> {
    let body = unsigned_body(cs);
    if body.len() > 0 && (forall|i: int| 0 <= i < body.len() ==> is_digit(#[trigger] body[i]))
        && digits_value(body) <= u64::MAX {
        Some(digits_value(body) as u64)
    } else {
        None
    }
}

proof fn lemma_digits_value_prefix(cs: Seq<char>, j: int)
    requires
        0 <= j <= cs.len(),
        forall|i: int| 0 <= i < cs.len() ==> is_digit(#[trigger] cs[i]),
    ensures
        0 <= digits_value(cs.take(j)) <= digits_value(cs),
    decreases cs.len(),
{
    if cs.len() > 0 {
        if j < cs.len() {
            let c0 = cs.drop_last();
            assert(c0.take(j) =~= cs.take(j));
            assert forall|i: int| 0 <= i < c0.len() implies is_digit(#[trigger] c0[i]) by {
                assert(c0[i] == cs[i]);
            }
            lemma_digits_value_prefix(c0, j);
            assert(is_digit(cs.last()));
        } else {
            assert(cs.take(j) =~= cs);
            let c0 = cs.drop_last();
            assert forall|i: int| 0 <= i < c0.len() implies is_digit(#[trigger] c0[i]) by {
                assert(c0[i] == cs[i]);
            }
            lemma_digits_value_prefix(c0, c0.len() as int);
            assert(c0.take(c0.len() as int) =~= c0);
            assert(is_digit(cs.last()));
        }
    } else {
        assert(cs.take(j) =~= cs);
    }
}

/// Parses `cs[lo..hi]` as `str::parse::<u64>` does.
pub fn parse_u64(cs: &Vec<char>, lo: usize, hi: usize) -> (r: Option<u64>)
    requires
        lo <= hi <= cs@.len(),
    ensures
        r == parse_u64_spec(cs@.subrange(lo as int, hi as int)),
{
    let ghost whole = cs@.subrange(lo as int, hi as int);
    let mut start = lo;
    if lo < hi && cs[lo] == '+' {
        start = lo + 1;
    }
    let ghost body = cs@.subrange(start as int, hi as int);
    assert(body =~= unsigned_body(whole));
    if start == hi {
        return None;
    }
    let mut acc: u64 = 0;
    let mut i = start;
    while i < hi
        invariant
            lo <= start <= i <= hi <= cs@.len(),
            body == cs@.subrange(start as int, hi as int),
            body == unsigned_body(whole),
            whole == cs@.subrange(lo as int, hi as int),
            forall|j: int| 0 <= j < i - start ==> is_digit(#[trigger] body[j]),
            acc as int == digits_value(body.take(i - start)),
        decreases hi - i,
    {
        let c = cs[i];
        if !('0' <= c && c <= '9') {
            assert(body[i - start] == c);
            assert(!is_digit(body[i - start]));
            return None;
        }
        let d = (c as u32 - '0' as u32) as u64;
        let ghost k = i - start;
        assert(body.take(k + 1).drop_last() =~= body.take(k));
        assert(body.take(k + 1).last() == c);
        if acc > (u64::MAX - d) / 10 {
            proof {
                assert(digits_value(body.take(k + 1)) == acc * 10 + d);
                assert(acc * 10 + d > u64::MAX) by (nonlinear_arith)
                    requires
                        acc > (u64::MAX - d) / 10,
                        d <= 9;
                if forall|j: int| 0 <= j < body.len() ==> is_digit(#[trigger] body[j]) {
                    lemma_digits_value_prefix(body, k + 1);
                }
            }
            return None;
        }
        assert(acc * 10 + d <= u64::MAX) by (nonlinear_arith)
            requires
                acc <= (u64::MAX - d) / 10,
                d <= 9;
        acc = acc * 10 + d;
        i = i + 1;
    }
    assert(body.take(body.len() as int) =~= body);
    Some(acc)
}

proof fn lemma_digit_char(d: nat)
    requires
        d < 10,
    ensures
        is_digit(digit_char(d)),
        digit_value(digit_char(d)) == d,
{
    if d == 0 {} else if d == 1 {} else if d == 2 {} else if d == 3 {} else if d == 4 {}
    else if d == 5 {} else if d == 6 {} else if d == 7 {} else if d == 8 {} else {}
}

/// The decimal representation is non-empty and all digits, and it reads
/// back as the number.
pub proof fn lemma_decimal_chars(n: nat)
    ensures
        decimal_chars(n).len() > 0,
        forall|i: int| 0 <= i < decimal_chars(n).len() ==> is_digit(#[trigger] decimal_chars(n)[i]),
        digits_value(decimal_chars(n)) == n,
    decreases n,
{
    if n >= 10 {
        lemma_decimal_chars(n / 10);
        let s = decimal_chars(n);
        let h = decimal_chars(n / 10);
        assert(s == h + seq![digit_char(n % 10)]);
        assert forall|i: int| 0 <= i < s.len() implies is_digit(#[trigger] s[i]) by {
            if i < h.len() {
                assert(s[i] == h[i]);
            }
        }
        assert(s.drop_last() =~= h);
        assert(s.last() == digit_char(n % 10));
        lemma_digit_char(n % 10);
        assert(digits_value(s) == digits_value(h) * 10 + digit_value(s.last()));
        assert((n / 10) * 10 + n % 10 == n);
    } else {
        lemma_digit_char(n);
        let s = decimal_chars(n);
        assert(s.drop_last() =~= Seq::<char>::empty());
        assert(digits_value(s.drop_last()) == 0);
        assert(s.last() == digit_char(n));
    }
}

/// A `u64` written in decimal parses back as itself.
pub proof fn lemma_parse_decimal_chars(n: u64)
    ensures
        parse_u64_spec(decimal_chars(n as nat)) == Some(n),
{
    let ds = decimal_chars(n as nat);
    lemma_decimal_chars(n as nat);
    assert(ds[0] != '+');
    assert(unsigned_body(ds) == ds);
}

/// Collects characters into a `String` with `FromIterator<&char>`.
/// Claimed, as std documents collecting: the string holds the characters
/// in order.
#[verifier::external_body]
pub(crate) fn chars_to_string(cs: &[char]) -> (r: String)
    ensures
        r@ == cs@,
{
    cs.iter().collect()
}

} // verus!
