//! Decimal text: rendering integers and tenths-valued quantities, and
//! parsing unsigned decimal numbers.

use vstd::prelude::*;
use vstd::string::StrSliceExecFns;
use vstd::string::StringExecFns;

verus! {

/// The decimal digit character for `n` (0 through 9).
pub open spec fn digit_char(n: int) -> char {
    if n == 0 {
        '0'
    } else if n == 1 {
        '1'
    } else if n == 2 {
        '2'
    } else if n == 3 {
        '3'
    } else if n == 4 {
        '4'
    } else if n == 5 {
        '5'
    } else if n == 6 {
        '6'
    } else if n == 7 {
        '7'
    } else if n == 8 {
        '8'
    } else {
        '9'
    }
}

/// Decimal rendering of a non-negative integer, most significant digit first,
/// without leading zeros (`0` renders as "0").
pub open spec fn dec_view(n: int) -> Seq<char>
    decreases n,
{
    if n < 10 {
        seq![digit_char(n)]
    } else {
        dec_view(n / 10) + seq![digit_char(n % 10)]
    }
}

/// The one-character string for a decimal digit.
pub fn digit_to_str(d: u64) -> (r: &'static str)
    requires
        d < 10,
    ensures
        r@ == seq![digit_char(d as int)],
{
    proof {
        reveal_strlit("0");
        reveal_strlit("1");
        reveal_strlit("2");
        reveal_strlit("3");
        reveal_strlit("4");
        reveal_strlit("5");
        reveal_strlit("6");
        reveal_strlit("7");
        reveal_strlit("8");
        reveal_strlit("9");
    }
    let r = match d {
        0 => "0",
        1 => "1",
        2 => "2",
        3 => "3",
        4 => "4",
        5 => "5",
        6 => "6",
        7 => "7",
        8 => "8",
        _ => "9",
    };
    proof {
        assert(r@ =~= seq![digit_char(d as int)]);
    }
    r
}

/// Renders `n` in decimal.
pub fn u64_to_string(n: u64) -> (r: String)
    ensures
        r@ == dec_view(n as int),
    decreases n,
{
    if n < 10 {
        digit_to_str(n).to_owned()
    } else {
        let mut s = u64_to_string(n / 10);
        s.append(digit_to_str(n % 10));
        proof {
            assert(s@ =~= dec_view(n as int));
        }
        s
    }
}

/// A tenths-valued quantity rendered with exactly one decimal and a comma as
/// the decimal separator: 123 tenths render as "12,3".
pub open spec fn tenths_view(t: int) -> Seq<char> {
    dec_view(t / 10) + seq![','] + seq![digit_char(t % 10)]
}

/// Renders a tenths-valued quantity with one decimal, comma-separated.
pub fn tenths_to_string(t: u64) -> (r: String)
    ensures
        r@ == tenths_view(t as int),
{
    let mut s = u64_to_string(t / 10);
    s.append(",");
    s.append(digit_to_str(t % 10));
    proof {
        reveal_strlit(",");
        assert(s@ =~= tenths_view(t as int));
    }
    s
}

/// A tenths-valued quantity rendered for people: the decimal is dropped when
/// it is zero, so 250 tenths render as "25" and 125 tenths as "12,5".
pub open spec fn human_tenths_view(t: int) -> Seq<char> {
    if t % 10 == 0 {
        dec_view(t / 10)
    } else {
        tenths_view(t)
    }
}

/// Renders a tenths-valued quantity for people (no decimal when zero).
pub fn human_tenths_to_string(t: u64) -> (r: String)
    ensures
        r@ == human_tenths_view(t as int),
{
    if t % 10 == 0 {
        u64_to_string(t / 10)
    } else {
        tenths_to_string(t)
    }
}

/// `c` is a decimal digit.
pub open spec fn is_digit_char(c: char) -> bool {
    48 <= c as int <= 57
}

/// The numeric value of a digit character.
pub open spec fn digit_val(c: char) -> int {
    c as int - 48
}

/// Every character of `s` is a decimal digit.
pub open spec fn all_digits(s: Seq<char>) -> bool {
    forall|i: int| 0 <= i < s.len() ==> is_digit_char(s[i])
}

/// The numeric value of a digit string, most significant digit first.
pub open spec fn dec_val(s: Seq<char>) -> int
    decreases s.len(),
{
    if s.len() == 0 {
        0
    } else {
        dec_val(s.drop_last()) * 10 + digit_val(s.last())
    }
}

/// A digit string's value is never negative.
pub proof fn lemma_dec_val_nonneg(s: Seq<char>)
    requires
        all_digits(s),
    ensures
        dec_val(s) >= 0,
    decreases s.len(),
{
    if s.len() > 0 {
        assert(all_digits(s.drop_last()));
        lemma_dec_val_nonneg(s.drop_last());
    }
}

proof fn lemma_dec_val_take_succ(s: Seq<char>, i: int)
    requires
        0 <= i < s.len(),
    ensures
        dec_val(s.take(i + 1)) == dec_val(s.take(i)) * 10 + digit_val(s[i]),
{
    assert(s.take(i + 1).drop_last() =~= s.take(i));
    assert(s.take(i + 1).last() == s[i]);
}

proof fn lemma_dec_val_mono_from(s: Seq<char>, i: int)
    requires
        all_digits(s),
        0 <= i <= s.len(),
    ensures
        dec_val(s) >= dec_val(s.take(i)),
    decreases s.len() - i,
{
    if i == s.len() {
        assert(s.take(i) =~= s);
    } else {
        lemma_dec_val_take_succ(s, i);
        assert(all_digits(s.take(i)));
        lemma_dec_val_nonneg(s.take(i));
        lemma_dec_val_mono_from(s, i + 1);
    }
}

/// Parses an unsigned decimal number.  Returns `Some` exactly when `s` is
/// non-empty, consists of digits only, and the value fits in a `u32`.
pub fn parse_u32(s: &str) -> (r: Option<u32>)
    ensures
        (s@.len() > 0 && all_digits(s@) && dec_val(s@) <= u32::MAX) ==> r == Some(
            dec_val(s@) as u32,
        ),
        !(s@.len() > 0 && all_digits(s@) && dec_val(s@) <= u32::MAX) ==> r is None,
{
    let n = s.unicode_len();
    if n == 0 {
        return None;
    }
    let mut acc: u32 = 0;
    let mut i: usize = 0;
    while i < n
        invariant
            n == s@.len(),
            0 < n,
            i <= n,
            all_digits(s@.take(i as int)),
            acc == dec_val(s@.take(i as int)),
        decreases n - i,
    {
        let c = s.get_char(i);
        let cv = c as u32;
        if cv < 48 || cv > 57 {
            proof {
                assert(!is_digit_char(s@[i as int]));
            }
            return None;
        }
        let d = cv - 48;
        proof {
            lemma_dec_val_take_succ(s@, i as int);
        }
        if acc > (u32::MAX - d) / 10 {
            proof {
                assert(10 * ((u32::MAX - d) / 10) + (u32::MAX - d) % 10 == u32::MAX - d);
                assert(dec_val(s@.take(i as int + 1)) > u32::MAX);
                if all_digits(s@) {
                    lemma_dec_val_mono_from(s@, i as int + 1);
                }
            }
            return None;
        }
        acc = acc * 10 + d;
        i = i + 1;
    }
    proof {
        assert(s@.take(n as int) =~= s@);
    }
    Some(acc)
}

/// Character-wise string equality, usable where the two sides are arbitrary
/// slices rather than `String`s.
pub fn str_eq(a: &str, b: &str) -> (r: bool)
    ensures
        r == (a@ == b@),
{
    let alen = a.unicode_len();
    let blen = b.unicode_len();
    if alen != blen {
        return false;
    }
    let mut i: usize = 0;
    while i < alen
        invariant
            alen == a@.len(),
            blen == b@.len(),
            alen == blen,
            i <= alen,
            forall|j: int| 0 <= j < i ==> a@[j] == b@[j],
        decreases alen - i,
    {
        if a.get_char(i) != b.get_char(i) {
            return false;
        }
        i = i + 1;
    }
    proof {
        assert(a@ =~= b@);
    }
    true
}

} // verus!
