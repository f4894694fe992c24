//! Decimal digit strings: what a rendered number is, how to build one,
//! and how reading one back recovers the number.

use vstd::prelude::*;
use vstd::arithmetic::div_mod::lemma_fundamental_div_mod;

verus! {

/// The character of one decimal digit.
pub open spec fn dec_digit_char(d: nat) -> char {
    ((48 + d) as u8) as char
}

/// The decimal rendering of `n`, most significant digit first, no sign,
/// no leading zeros (a single `0` for zero itself).
pub open spec fn dec_str(n: nat) -> Seq<char>
    decreases n,
{
    if n < 10 {
        seq![dec_digit_char(n)]
    } else {
        dec_str(n / 10) + seq![dec_digit_char(n % 10)]
    }
}

/// A decimal digit character.
pub open spec fn is_dec_digit(c: char) -> bool {
    48 <= c as int && c as int <= 57
}

/// The numeric value of one decimal digit character.
pub open spec fn dec_digit_val(c: char) -> nat {
    (c as int - 48) as nat
}

/// How many consecutive decimal digit characters stand at `i`.
pub open spec fn dec_run_len(s: Seq<char>, i: int) -> int
    decreases s.len() - i,
{
    if 0 <= i && i < s.len() && is_dec_digit(s[i]) {
        1 + dec_run_len(s, i + 1)
    } else {
        0
    }
}

/// The value of the decimal digits `s[i .. j)`, most significant first.
pub open spec fn dec_run_val(s: Seq<char>, i: int, j: int) -> nat
    decreases j - i,
{
    if j <= i {
        0
    } else {
        dec_run_val(s, i, j - 1) * 10 + dec_digit_val(s[j - 1])
    }
}

/// Read one decimal number at `i`: the maximal digit run, of any length.
pub open spec fn spec_parse_dec(s: Seq<char>, i: int) -> Option<(nat, int)> {
    let n = dec_run_len(s, i);
    if n >= 1 {
        Some((dec_run_val(s, i, i + n), i + n))
    } else {
        None
    }
}

/// A rendered number is at least one character, all of them digits, and
/// its first character is never the digit zero unless the number is zero.
pub proof fn lemma_dec_str_digits(n: nat)
    ensures
        dec_str(n).len() >= 1,
        forall|j: int| 0 <= j < dec_str(n).len() ==> is_dec_digit(#[trigger] dec_str(n)[j]),
    decreases n,
{
    if n >= 10 {
        lemma_dec_str_digits(n / 10);
    }
}

/// A run of digits is no longer than the input it stands in.
pub proof fn lemma_dec_run_len_bounds(s: Seq<char>, i: int)
    requires
        0 <= i <= s.len(),
    ensures
        0 <= dec_run_len(s, i) <= s.len() - i,
    decreases s.len() - i,
{
    if i < s.len() && is_dec_digit(s[i]) {
        lemma_dec_run_len_bounds(s, i + 1);
    }
}

/// Splitting a digit run at any point within it.
pub proof fn lemma_dec_run_len_split(s: Seq<char>, i: int, j: int)
    requires
        0 <= i <= j <= s.len(),
        forall|k: int| i <= k < j ==> is_dec_digit(s[k]),
    ensures
        dec_run_len(s, i) == (j - i) + dec_run_len(s, j),
    decreases j - i,
{
    if i < j {
        assert(is_dec_digit(s[i]));
        lemma_dec_run_len_split(s, i + 1, j);
    }
}

/// Where the rendering of `n` stands at `i`, the digits there are worth
/// exactly `n`.
pub proof fn lemma_dec_val_of_dec_str(s: Seq<char>, i: int, n: nat)
    requires
        0 <= i,
        i + dec_str(n).len() <= s.len(),
        s.subrange(i, i + dec_str(n).len()) == dec_str(n),
    ensures
        dec_run_val(s, i, i + dec_str(n).len()) == n,
    decreases n,
{
    let w = dec_str(n);
    if n < 10 {
        assert(w =~= seq![dec_digit_char(n)]);
        assert(s.subrange(i, i + 1) == w);
        assert(s[i] == s.subrange(i, i + 1)[0]);
        assert(s[i] == dec_digit_char(n));
        assert(dec_digit_val(dec_digit_char(n)) == n);
        assert(dec_run_val(s, i, i + 1) == dec_run_val(s, i, i) * 10 + dec_digit_val(s[i]));
        assert(dec_run_val(s, i, i) == 0);
        assert(dec_run_val(s, i, i + 1) == n);
    } else {
        let head = dec_str(n / 10);
        let hl = head.len();
        assert(w == head + seq![dec_digit_char(n % 10)]);
        assert(s.subrange(i, i + hl) =~= head) by {
            assert(forall|k: int| 0 <= k < hl ==> s[i + k] == w[k] && w[k] == head[k]);
        }
        lemma_dec_val_of_dec_str(s, i, n / 10);
        assert(dec_run_val(s, i, i + hl) == n / 10);
        assert(s[i + w.len() - 1] == s.subrange(i, i + w.len())[w.len() - 1]);
        assert(s[i + w.len() - 1] == dec_digit_char(n % 10));
        assert(dec_digit_val(dec_digit_char(n % 10)) == n % 10);
        assert(w.len() == hl + 1);
        assert(dec_run_val(s, i, i + w.len()) == dec_run_val(s, i, i + hl) * 10 + dec_digit_val(
            s[i + hl],
        ));
        lemma_fundamental_div_mod(n as int, 10);
        assert(dec_run_val(s, i, i + w.len()) == n);
    }
}

/// Where the rendering of `n` stands at `i` and no digit follows it,
/// reading a number at `i` yields `n` and stops just past the rendering.
pub proof fn lemma_dec_str_parses(s: Seq<char>, i: int, n: nat)
    requires
        0 <= i,
        i + dec_str(n).len() <= s.len(),
        s.subrange(i, i + dec_str(n).len()) == dec_str(n),
        i + dec_str(n).len() == s.len() || !is_dec_digit(s[i + dec_str(n).len()]),
    ensures
        spec_parse_dec(s, i) == Some((n, i + dec_str(n).len())),
{
    let w = dec_str(n);
    lemma_dec_str_digits(n);
    assert(forall|k: int| i <= k < i + w.len() ==> is_dec_digit(s[k])) by {
        assert(forall|k: int| i <= k < i + w.len() ==> s[k] == w[k - i]);
    }
    lemma_dec_run_len_split(s, i, i + w.len());
    assert(dec_run_len(s, i + w.len()) == 0);
    lemma_dec_val_of_dec_str(s, i, n);
}

/// A number read at `i` advances the position and stays in bounds.
pub proof fn lemma_parse_dec_advances(s: Seq<char>, i: int)
    ensures
        spec_parse_dec(s, i) matches Some((n, j)) ==> 0 <= i < j <= s.len(),
{
    if 0 <= i <= s.len() {
        lemma_dec_run_len_bounds(s, i);
    }
}

/// The characters of the digits in `ds`, least significant first, read
/// back to front.
pub open spec fn rev_chars(ds: Seq<u64>) -> Seq<char>
    decreases ds.len(),
{
    if ds.len() == 0 {
        Seq::empty()
    } else {
        seq![dec_digit_char(ds.last() as nat)] + rev_chars(ds.drop_last())
    }
}

/// `rev_chars` characterized index by index.
proof fn lemma_rev_chars_index(ds: Seq<u64>)
    ensures
        rev_chars(ds).len() == ds.len(),
        forall|j: int|
            0 <= j < ds.len() ==> rev_chars(ds)[j] == dec_digit_char(
                ds[ds.len() - 1 - j] as nat,
            ),
    decreases ds.len(),
{
    if ds.len() > 0 {
        lemma_rev_chars_index(ds.drop_last());
    }
}

/// The character of one digit, as a one-character string.
fn digit_str(d: u64) -> (r: &'static str)
    requires
        d < 10,
    ensures
        r@ == seq![dec_digit_char(d as nat)],
{
    let r = if d == 0 {
        "0"
    } else if d == 1 {
        "1"
    } else if d == 2 {
        "2"
    } else if d == 3 {
        "3"
    } else if d == 4 {
        "4"
    } else if d == 5 {
        "5"
    } else if d == 6 {
        "6"
    } else if d == 7 {
        "7"
    } else if d == 8 {
        "8"
    } else {
        "9"
    };
    proof {
        reveal_strlit("0");
        reveal_strlit("1");
        reveal_strlit("2");
        reveal_strlit("3");
        reveal_strlit("4");
        reveal_strlit("5");
        reveal_strlit("6");
        reveal_strlit("7");
        reveal_strlit("8");
        reveal_strlit("9");
        assert(r@ =~= seq![dec_digit_char(d as nat)]);
    }
    r
}

/// Render `v` in decimal, exactly as `dec_str` describes it.
pub fn u64_dec_string(v: u64) -> (s: String)
    ensures
        s@ == dec_str(v as nat),
{
    let mut s = String::new();
    if v == 0 {
        s.append(digit_str(0));
        proof {
            assert(s@ =~= dec_str(0));
        }
        return s;
    }
    let mut digits: Vec<u64> = Vec::new();
    let mut x = v;
    while x > 0
        invariant
            forall|j: int| 0 <= j < digits@.len() ==> digits@[j] < 10,
            x > 0 ==> dec_str(v as nat) == dec_str(x as nat) + rev_chars(digits@),
            x == 0 ==> dec_str(v as nat) == rev_chars(digits@),
        decreases x,
    {
        let ghost before = digits@;
        let d = x % 10;
        digits.push(d);
        proof {
            assert(digits@.drop_last() =~= before);
            assert(rev_chars(digits@) == seq![dec_digit_char(d as nat)] + rev_chars(before));
            if x >= 10 {
                assert(dec_str(x as nat) == dec_str((x as nat) / 10) + seq![
                    dec_digit_char((x as nat) % 10),
                ]);
                assert(dec_str((x as nat) / 10) + (seq![dec_digit_char(d as nat)] + rev_chars(
                    before,
                )) =~= dec_str(x as nat) + rev_chars(before));
            } else {
                assert(dec_str(x as nat) =~= seq![dec_digit_char(d as nat)]);
                assert(seq![dec_digit_char(d as nat)] + rev_chars(before) =~= dec_str(x as nat)
                    + rev_chars(before));
            }
        }
        x = x / 10;
    }
    let ghost all = digits@;
    let mut k = digits.len();
    while k > 0
        invariant
            k <= digits@.len(),
            digits@ == all,
            forall|j: int| 0 <= j < digits@.len() ==> digits@[j] < 10,
            s@.len() == digits@.len() - k,
            forall|j: int|
                0 <= j < s@.len() ==> s@[j] == dec_digit_char(
                    digits@[digits@.len() - 1 - j] as nat,
                ),
        decreases k,
    {
        k = k - 1;
        s.append(digit_str(digits[k]));
    }
    proof {
        lemma_rev_chars_index(all);
        assert(s@ =~= rev_chars(all));
    }
    s
}

} // verus!
