//! Small text utilities on `char` sequences: decimal rendering of numbers
//! and replacement of every occurrence of a pattern.
use vstd::prelude::*;

verus! {

/// The character of one decimal digit.
pub open spec fn digit_char(d: nat) -> char {
    if d == 0 {
        '0'
    } else if d == 1 {
        '1'
    } else if d == 2 {
        '2'
    } else if d == 3 {
        '3'
    } else if d == 4 {
        '4'
    } else if d == 5 {
        '5'
    } else if d == 6 {
        '6'
    } else if d == 7 {
        '7'
    } else if d == 8 {
        '8'
    } else {
        '9'
    }
}

/// The decimal notation of a natural number, without leading zeros.
pub open spec fn decimal(n: nat) -> Seq<char>
    decreases n,
{
    if n < 10 {
        seq![digit_char(n)]
    } else {
        decimal(n / 10).push(digit_char(n % 10))
    }
}

/// Whether `c` is one of the ASCII digits `0` to `9`.
pub open spec fn is_ascii_digit(c: char) -> bool {
    48 <= c as int <= 57
}

/// The number that a string of ASCII digits denotes in base 10, the last
/// digit being the units.
pub open spec fn numeral_value(s: Seq<char>) -> int
    decreases s.len(),
{
    if s.len() == 0 {
        0
    } else {
        numeral_value(s.drop_last()) * 10 + (s.last() as int - 48)
    }
}

/// `decimal(n)` is the base-10 numeral of `n`: every character is the ASCII
/// digit of its value, reading the digits back in base 10 gives `n`, and
/// there is no leading zero but in the numeral of zero itself.
pub proof fn lemma_decimal_is_numeral(n: nat)
    ensures
        decimal(n).len() >= 1,
        forall|i: int| 0 <= i < decimal(n).len() ==> is_ascii_digit(#[trigger] decimal(n)[i]),
        numeral_value(decimal(n)) == n,
        decimal(n)[0] == '0' ==> n == 0,
    decreases n,
{
    if n < 10 {
        let s = decimal(n);
        assert(s.drop_last() =~= Seq::<char>::empty());
        assert(numeral_value(s.drop_last()) == 0);
        assert(digit_char(n) as int == 48 + n);
        assert(s.last() == digit_char(n));
    } else {
        lemma_decimal_is_numeral(n / 10);
        let s = decimal(n);
        let d = n % 10;
        assert(digit_char(d) as int == 48 + d);
        assert(s.drop_last() =~= decimal(n / 10));
        assert(s.last() == digit_char(d));
        assert(numeral_value(s) == numeral_value(decimal(n / 10)) * 10 + (digit_char(d) as int - 48));
        assert forall|i: int| 0 <= i < s.len() implies is_ascii_digit(#[trigger] s[i]) by {
            if i < s.len() - 1 {
                assert(s[i] == decimal(n / 10)[i]);
            }
        }
        assert(s[0] == decimal(n / 10)[0]);
        assert(n / 10 > 0);
        assert((n / 10) * 10 + d == n);
    }
}

/// `s` with every non-overlapping occurrence of `pat`, found from left to
/// right, replaced by `rep`.
pub open spec fn replace_all(s: Seq<char>, pat: Seq<char>, rep: Seq<char>) -> Seq<char>
    decreases s.len(),
{
    if pat.len() == 0 || s.len() < pat.len() {
        s
    } else if s.take(pat.len() as int) == pat {
        rep + replace_all(s.skip(pat.len() as int), pat, rep)
    } else {
        seq![s[0]] + replace_all(s.drop_first(), pat, rep)
    }
}

fn digit_text(d: u32) -> (r: &'static str)
    requires
        d < 10,
    ensures
        r@ == seq![digit_char(d as nat)],
{
    if d == 0 {
        proof { reveal_strlit("0"); }
        "0"
    } else if d == 1 {
        proof { reveal_strlit("1"); }
        "1"
    } else if d == 2 {
        proof { reveal_strlit("2"); }
        "2"
    } else if d == 3 {
        proof { reveal_strlit("3"); }
        "3"
    } else if d == 4 {
        proof { reveal_strlit("4"); }
        "4"
    } else if d == 5 {
        proof { reveal_strlit("5"); }
        "5"
    } else if d == 6 {
        proof { reveal_strlit("6"); }
        "6"
    } else if d == 7 {
        proof { reveal_strlit("7"); }
        "7"
    } else if d == 8 {
        proof { reveal_strlit("8"); }
        "8"
    } else {
        proof { reveal_strlit("9"); }
        "9"
    }
}

/// Appends the decimal notation of `n` to `out`.
pub fn push_decimal(out: &mut String, n: u32)
    ensures
        final(out)@ == old(out)@ + decimal(n as nat),
    decreases n,
{
    if n >= 10 {
        push_decimal(out, n / 10);
    }
    out.append(digit_text(n % 10));
    proof {
        assert(old(out)@ + decimal(n as nat) =~= old(out)@ + decimal((n / 10) as nat) + seq![
            digit_char((n % 10) as nat),
        ] || n < 10);
    }
}

/// Whether `pat` occurs in `text` at character position `at`.
fn occurs_at(text: &str, pat: &str, at: usize) -> (r: bool)
    requires
        at + pat@.len() <= text@.len(),
        text@.len() <= usize::MAX,
    ensures
        r == (text@.subrange(at as int, at + pat@.len()) == pat@),
{
    let m = pat.unicode_len();
    let mut j: usize = 0;
    while j < m
        invariant
            m == pat@.len(),
            at + m <= text@.len(),
            text@.len() <= usize::MAX,
            j <= m,
            forall|k: int| 0 <= k < j ==> text@[at + k] == pat@[k],
        decreases m - j,
    {
        if text.get_char(at + j) != pat.get_char(j) {
            assert(text@.subrange(at as int, at + pat@.len())[j as int] != pat@[j as int]);
            return false;
        }
        j = j + 1;
    }
    assert(text@.subrange(at as int, at + pat@.len()) =~= pat@);
    true
}

/// Replaces every non-overlapping occurrence of `pat` in `text`, searched
/// from left to right, by `rep`.
pub fn replace_all_text(text: &str, pat: &str, rep: &str) -> (r: String)
    requires
        pat@.len() > 0,
    ensures
        r@ == replace_all(text@, pat@, rep@),
{
    let n = text.unicode_len();
    let m = pat.unicode_len();
    let mut out = String::new();
    let mut i: usize = 0;
    assert(text@.skip(0) =~= text@);
    while i < n
        invariant
            n == text@.len(),
            m == pat@.len(),
            m > 0,
            i <= n,
            out@ + replace_all(text@.skip(i as int), pat@, rep@) == replace_all(text@, pat@, rep@),
        decreases n - i,
    {
        let ghost rest = text@.skip(i as int);
        if m <= n - i && occurs_at(text, pat, i) {
            assert(rest.take(m as int) =~= text@.subrange(i as int, i + m));
            assert(rest.skip(m as int) =~= text@.skip(i + m));
            out.append(rep);
            i = i + m;
        } else {
            assert(rest.drop_first() =~= text@.skip(i + 1));
            if m <= n - i {
                assert(rest.take(m as int) =~= text@.subrange(i as int, i + m));
            } else {
                assert(rest.drop_first().len() < m);
                assert(rest =~= seq![rest[0]] + rest.drop_first());
            }
            out.append(text.substring_char(i, i + 1));
            assert(text@.subrange(i as int, i + 1) =~= seq![rest[0]]);
            i = i + 1;
        }
    }
    assert(text@.skip(n as int).len() == 0);
    assert(out@ + replace_all(text@.skip(n as int), pat@, rep@) =~= out@);
    out
}

} // verus!
