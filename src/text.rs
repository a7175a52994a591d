//! Character-level helpers shared by the tokenizer, the assembler and the
//! code generator: splitting, comparison and decimal numerals.
use vstd::prelude::*;

verus! {

/// Largest magnitude a numeral may have: that of `i32::MIN`.
pub const NUMERAL_BOUND: u64 = 0x8000_0000;

pub open spec fn is_digit(c: char) -> bool {
    '0' <= c <= '9'
}

pub open spec fn digit_value(c: char) -> nat {
    (c as int - '0' as int) as nat
}

pub open spec fn all_digits(s: Seq<char>) -> bool {
    forall|i: int| 0 <= i < s.len() ==> is_digit(#[trigger] s[i])
}

/// The value of a run of decimal digits.
pub open spec fn digits_value(s: Seq<char>) -> nat
    decreases s.len(),
{
    if s.len() == 0 {
        0
    } else {
        digits_value(s.drop_last()) * 10 + digit_value(s.last())
    }
}

/// The value of a non-empty digit run, if it is at most `NUMERAL_BOUND`.
pub open spec fn numeral_value(s: Seq<char>) -> Option<nat> {
    if s.len() > 0 && all_digits(s) && digits_value(s) <= NUMERAL_BOUND {
        Some(digits_value(s))
    } else {
        None
    }
}

pub open spec fn digit_char(d: nat) -> char {
    ('0' as nat + d) as char
}

/// The decimal numeral of `n`, without leading zeros.
pub open spec fn decimal(n: nat) -> Seq<char>
    decreases n,
{
    if n < 10 {
        seq![digit_char(n)]
    } else {
        decimal(n / 10).push(digit_char(n % 10))
    }
}

/// The decimal numeral of `v`, with a leading `-` when it is negative.
pub open spec fn signed_decimal(v: int) -> Seq<char> {
    if v < 0 {
        seq!['-'] + decimal((-v) as nat)
    } else {
        decimal(v as nat)
    }
}

/// Separators: a line break when splitting lines, else blanks and commas.
pub open spec fn is_separator(c: char, lines: bool) -> bool {
    if lines {
        c == '\n'
    } else {
        c == ' ' || c == '\t' || c == '\r' || c == ','
    }
}

/// Splitting state after reading `s`: the finished pieces and the current one.
pub open spec fn split_state(s: Seq<char>, lines: bool) -> (Seq<Seq<char>>, Seq<char>)
    decreases s.len(),
{
    if s.len() == 0 {
        (Seq::empty(), Seq::empty())
    } else {
        let (done, cur) = split_state(s.drop_last(), lines);
        if is_separator(s.last(), lines) {
            if cur.len() > 0 {
                (done.push(cur), Seq::empty())
            } else {
                (done, cur)
            }
        } else {
            (done, cur.push(s.last()))
        }
    }
}

/// The non-empty maximal runs of `s` that hold no separator, in order.
pub open spec fn pieces(s: Seq<char>, lines: bool) -> Seq<Seq<char>> {
    let (done, cur) = split_state(s, lines);
    if cur.len() > 0 {
        done.push(cur)
    } else {
        done
    }
}

pub open spec fn views(v: Seq<Vec<char>>) -> Seq<Seq<char>> {
    v.map_values(|x: Vec<char>| x@)
}

/// Every decimal numeral is a digit run whose value is the number.
pub proof fn lemma_decimal_value(n: nat)
    ensures
        all_digits(decimal(n)),
        digits_value(decimal(n)) == n,
        decimal(n).len() > 0,
    decreases n,
{
    if n < 10 {
        let d = decimal(n);
        assert(d.drop_last() =~= Seq::<char>::empty());
        assert(digit_value(digit_char(n)) == n);
        assert(digits_value(d.drop_last()) == 0);
        assert(d.last() == digit_char(n));
    } else {
        lemma_decimal_value(n / 10);
        let d = decimal(n);
        assert(d.drop_last() =~= decimal(n / 10));
        assert(d.last() == digit_char(n % 10));
        assert(digit_value(digit_char(n % 10)) == n % 10);
        assert(digits_value(d) == (n / 10) * 10 + n % 10);
        assert((n / 10) * 10 + n % 10 == n);
        assert forall|i: int| 0 <= i < d.len() implies is_digit(#[trigger] d[i]) by {
            if i < d.len() - 1 {
                assert(d[i] == decimal(n / 10)[i]);
            }
        }
    }
}

/// Extending a digit run never lowers its value.
pub proof fn lemma_digits_value_grows(s: Seq<char>, i: int, j: int)
    requires
        0 <= i <= j <= s.len(),
        all_digits(s),
    ensures
        digits_value(s.take(i)) <= digits_value(s.take(j)),
    decreases j - i,
{
    if i < j {
        lemma_digits_value_grows(s, i, j - 1);
        assert(s.take(j).drop_last() =~= s.take(j - 1));
    }
}

/// Relies on `String::push`: appends one character to the string.
#[verifier::external_body]
pub(crate) fn push_char(s: &mut String, c: char)
    ensures
        final(s)@ == old(s)@.push(c),
{
    s.push(c);
}

/// A string holding the characters of `s` in positions `lo` to `hi`.
pub fn string_of(s: &Vec<char>, lo: usize, hi: usize) -> (r: String)
    requires
        lo <= hi <= s@.len(),
    ensures
        r@ == s@.subrange(lo as int, hi as int),
{
    let mut r = String::new();
    let mut i: usize = lo;
    while i < hi
        invariant
            lo <= i <= hi <= s@.len(),
            r@ == s@.subrange(lo as int, i as int),
        decreases hi - i,
    {
        push_char(&mut r, s[i]);
        i = i + 1;
        assert(r@ =~= s@.subrange(lo as int, i as int));
    }
    r
}

/// Appends the characters of `lit` to `out`.
pub fn push_text(out: &mut Vec<char>, lit: &str)
    ensures
        final(out)@ == old(out)@ + lit@,
{
    let n = lit.unicode_len();
    let mut i: usize = 0;
    while i < n
        invariant
            n == lit@.len(),
            i <= n,
            out@ == old(out)@ + lit@.take(i as int),
        decreases n - i,
    {
        out.push(lit.get_char(i));
        i = i + 1;
        assert(out@ =~= old(out)@ + lit@.take(i as int));
    }
    assert(lit@.take(n as int) =~= lit@);
}

/// The characters of `s`.
pub fn chars_of(s: &str) -> (r: Vec<char>)
    ensures
        r@ == s@,
{
    let n = s.unicode_len();
    let mut r: Vec<char> = Vec::new();
    let mut i: usize = 0;
    while i < n
        invariant
            n == s@.len(),
            i <= n,
            r@ == s@.take(i as int),
        decreases n - i,
    {
        r.push(s.get_char(i));
        i = i + 1;
        assert(r@ =~= s@.take(i as int));
    }
    assert(s@.take(n as int) =~= s@);
    r
}

/// Whether `a` holds exactly the characters of `b`.
pub fn matches_text(a: &Vec<char>, b: &str) -> (r: bool)
    ensures
        r == (a@ == b@),
{
    let n = b.unicode_len();
    if a.len() != n {
        return false;
    }
    let mut i: usize = 0;
    while i < n
        invariant
            n == b@.len() == a@.len(),
            i <= n,
            a@.take(i as int) == b@.take(i as int),
        decreases n - i,
    {
        if a[i] != b.get_char(i) {
            assert(a@[i as int] != b@[i as int]);
            return false;
        }
        i = i + 1;
        assert(a@.take(i as int) =~= b@.take(i as int));
    }
    assert(a@ =~= a@.take(n as int));
    assert(b@ =~= b@.take(n as int));
    true
}

/// Whether the strings `a` and `b` hold the same characters.
pub fn str_eq(a: &str, b: &str) -> (r: bool)
    ensures
        r == (a@ == b@),
{
    let n = a.unicode_len();
    if n != b.unicode_len() {
        return false;
    }
    let mut i: usize = 0;
    while i < n
        invariant
            n == a@.len() == b@.len(),
            i <= n,
            a@.take(i as int) == b@.take(i as int),
        decreases n - i,
    {
        if a.get_char(i) != b.get_char(i) {
            assert(a@[i as int] != b@[i as int]);
            return false;
        }
        i = i + 1;
        assert(a@.take(i as int) =~= b@.take(i as int));
    }
    assert(a@ =~= a@.take(n as int));
    assert(b@ =~= b@.take(n as int));
    true
}

/// Whether `a` and `b` hold the same characters.
pub fn same_chars(a: &Vec<char>, b: &Vec<char>) -> (r: bool)
    ensures
        r == (a@ == b@),
{
    if a.len() != b.len() {
        return false;
    }
    let mut i: usize = 0;
    while i < a.len()
        invariant
            a@.len() == b@.len(),
            i <= a@.len(),
            a@.take(i as int) == b@.take(i as int),
        decreases a@.len() - i,
    {
        if a[i] != b[i] {
            assert(a@[i as int] != b@[i as int]);
            return false;
        }
        i = i + 1;
        assert(a@.take(i as int) =~= b@.take(i as int));
    }
    assert(a@ =~= a@.take(i as int));
    assert(b@ =~= b@.take(i as int));
    true
}

/// The characters of `s` in positions `lo` to `hi`.
pub fn copy_range(s: &Vec<char>, lo: usize, hi: usize) -> (r: Vec<char>)
    requires
        lo <= hi <= s@.len(),
    ensures
        r@ == s@.subrange(lo as int, hi as int),
{
    let mut r: Vec<char> = Vec::new();
    let mut i: usize = lo;
    while i < hi
        invariant
            lo <= i <= hi <= s@.len(),
            r@ == s@.subrange(lo as int, i as int),
        decreases hi - i,
    {
        r.push(s[i]);
        i = i + 1;
        assert(r@ =~= s@.subrange(lo as int, i as int));
    }
    r
}

/// The value of the digit run in positions `lo` to `hi`, if it is a
/// non-empty run of digits whose value is at most `NUMERAL_BOUND`.
pub fn parse_numeral(s: &Vec<char>, lo: usize, hi: usize) -> (r: Option<u64>)
    requires
        lo <= hi <= s@.len(),
    ensures
        r == match numeral_value(s@.subrange(lo as int, hi as int)) {
            Some(v) => Some(v as u64),
            None => None::<u64>,
        },
{
    let ghost t = s@.subrange(lo as int, hi as int);
    if lo == hi {
        return None;
    }
    let mut acc: u64 = 0;
    let mut i: usize = lo;
    while i < hi
        invariant
            lo <= i <= hi <= s@.len(),
            t == s@.subrange(lo as int, hi as int),
            all_digits(t.take(i - lo)),
            acc == digits_value(t.take(i - lo)),
            acc <= NUMERAL_BOUND,
        decreases hi - i,
    {
        let c = s[i];
        assert(t.take(i - lo + 1).drop_last() =~= t.take(i - lo));
        if !('0' <= c && c <= '9') {
            assert(!is_digit(t[i - lo]));
            return None;
        }
        let d = (c as u32 - '0' as u32) as u64;
        if acc * 10 + d > NUMERAL_BOUND {
            proof {
                assert(all_digits(t.take(i - lo + 1)));
                if all_digits(t) {
                    assert(t.take(hi - lo) =~= t);
                    lemma_digits_value_grows(t, i - lo + 1, hi - lo);
                }
            }
            return None;
        }
        acc = acc * 10 + d;
        i = i + 1;
        assert(all_digits(t.take(i - lo)));
    }
    assert(t.take(hi - lo) =~= t);
    Some(acc)
}

/// Appends the decimal numeral of `n` to `out`.
pub fn push_decimal(out: &mut Vec<char>, n: u64)
    ensures
        final(out)@ == old(out)@ + decimal(n as nat),
    decreases n,
{
    if n >= 10 {
        push_decimal(out, n / 10);
    }
    let d = (n % 10) as u32;
    let c = char_from_digit(d);
    out.push(c);
    proof {
        if n >= 10 {
            assert(old(out)@ + decimal(n as nat) =~= old(out)@ + decimal((n / 10) as nat) + seq![c]);
        }
    }
}

/// Appends the decimal numeral of `v`, with a leading `-` when negative.
pub fn push_signed_decimal(out: &mut Vec<char>, v: i32)
    ensures
        final(out)@ == old(out)@ + signed_decimal(v as int),
{
    if v < 0 {
        out.push('-');
        let m: u64 = (0i64 - v as i64) as u64;
        push_decimal(out, m);
        assert(final(out)@ =~= old(out)@ + signed_decimal(v as int));
    } else {
        push_decimal(out, v as u64);
    }
}

fn char_from_digit(d: u32) -> (c: char)
    requires
        d < 10,
    ensures
        c == digit_char(d as nat),
{
    if d == 0 { '0' }
    else if d == 1 { '1' }
    else if d == 2 { '2' }
    else if d == 3 { '3' }
    else if d == 4 { '4' }
    else if d == 5 { '5' }
    else if d == 6 { '6' }
    else if d == 7 { '7' }
    else if d == 8 { '8' }
    else { '9' }
}

/// The pieces of `s`: its maximal non-empty runs free of separators.
pub fn split(s: &Vec<char>, lines: bool) -> (r: Vec<Vec<char>>)
    ensures
        views(r@) == pieces(s@, lines),
{
    let mut done: Vec<Vec<char>> = Vec::new();
    let mut cur: Vec<char> = Vec::new();
    let mut i: usize = 0;
    while i < s.len()
        invariant
            i <= s@.len(),
            split_state(s@.take(i as int), lines) == (views(done@), cur@),
        decreases s@.len() - i,
    {
        let c = s[i];
        let sep = if lines {
            c == '\n'
        } else {
            c == ' ' || c == '\t' || c == '\r' || c == ','
        };
        assert(s@.take(i + 1).drop_last() =~= s@.take(i as int));
        if sep {
            if cur.len() > 0 {
                let ghost before = done@;
                done.push(cur);
                cur = Vec::new();
                assert(views(done@) =~= views(before).push(views(done@).last()));
            }
        } else {
            cur.push(c);
        }
        i = i + 1;
    }
    assert(s@.take(i as int) =~= s@);
    if cur.len() > 0 {
        let ghost before = done@;
        done.push(cur);
        assert(views(done@) =~= views(before).push(views(done@).last()));
    }
    done
}

} // verus!
