//! Decimal rendering and parsing of unsigned machine integers.
//!
//! Numbers appear in the persisted form of the store and inside canonical
//! date strings, so both directions are specified exactly: `digits_of` is
//! the mathematical decimal form of a number, `val_of` reads a digit
//! sequence back, and the lemmas here show that the two invert each other.

use vstd::prelude::*;
use vstd::string::StringExecFns;

verus! {

pub open spec fn is_digit_char(c: char) -> bool {
    '0' <= c && c <= '9'
}

/// The digit character for a value in 0..10.
pub open spec fn digit_char(d: int) -> char {
    if d == 0 { '0' }
    else if d == 1 { '1' }
    else if d == 2 { '2' }
    else if d == 3 { '3' }
    else if d == 4 { '4' }
    else if d == 5 { '5' }
    else if d == 6 { '6' }
    else if d == 7 { '7' }
    else if d == 8 { '8' }
    else { '9' }
}

pub open spec fn digit_val(c: char) -> int {
    (c as u32) - ('0' as u32)
}

/// The decimal digit string of `n`, most significant digit first.
pub open spec fn digits_of(n: nat) -> Seq<char>
    decreases n,
{
    if n < 10 {
        seq![digit_char(n as int)]
    } else {
        digits_of(n / 10).push(digit_char((n % 10) as int))
    }
}

/// The value of a digit string, read most significant digit first.
pub open spec fn val_of(ds: Seq<char>) -> int
    decreases ds.len(),
{
    if ds.len() == 0 {
        0
    } else {
        val_of(ds.drop_last()) * 10 + digit_val(ds.last())
    }
}

pub open spec fn all_digits(ds: Seq<char>) -> bool {
    forall|i: int| 0 <= i < ds.len() ==> is_digit_char(#[trigger] ds[i])
}

proof fn lemma_digit_char_val(d: int)
    requires
        0 <= d < 10,
    ensures
        is_digit_char(digit_char(d)),
        digit_val(digit_char(d)) == d,
{
}

/// The digit string of a number reads back as that number.
pub proof fn lemma_digits_of_val(n: nat)
    ensures
        digits_of(n).len() >= 1,
        all_digits(digits_of(n)),
        val_of(digits_of(n)) == n,
    decreases n,
{
    if n < 10 {
        lemma_digit_char_val(n as int);
        let ds = digits_of(n);
        assert(ds =~= seq![digit_char(n as int)]);
        assert(ds.drop_last() =~= Seq::<char>::empty());
        assert(ds.last() == digit_char(n as int));
        assert(val_of(ds.drop_last()) == 0);
        assert(val_of(ds) == val_of(ds.drop_last()) * 10 + digit_val(ds.last()));
    } else {
        lemma_digits_of_val(n / 10);
        lemma_digit_char_val((n % 10) as int);
        let ds = digits_of(n);
        assert(ds.drop_last() =~= digits_of(n / 10));
        assert(ds.last() == digit_char((n % 10) as int));
        assert(val_of(ds) == (n / 10) * 10 + (n % 10));
        assert((n / 10) * 10 + (n % 10) == n) by (nonlinear_arith);
        assert forall|i: int| 0 <= i < ds.len() implies is_digit_char(#[trigger] ds[i]) by {
            if i < ds.len() - 1 {
                assert(ds[i] == digits_of(n / 10)[i]);
            }
        }
    }
}

pub proof fn lemma_val_of_nonneg(ds: Seq<char>)
    requires
        all_digits(ds),
    ensures
        0 <= val_of(ds),
    decreases ds.len(),
{
    if ds.len() > 0 {
        assert(all_digits(ds.drop_last())) by {
            assert(forall|i: int|
                0 <= i < ds.len() - 1 ==> ds.drop_last()[i] == #[trigger] ds[i]);
        }
        lemma_val_of_nonneg(ds.drop_last());
        assert(is_digit_char(ds.last()));
        assert(digit_val(ds.last()) >= 0);
    }
}

/// Reading a prefix of a digit string gives at most the whole string's value.
pub proof fn lemma_val_of_prefix(ds: Seq<char>, j: int)
    requires
        all_digits(ds),
        0 <= j <= ds.len(),
    ensures
        val_of(ds.take(j)) <= val_of(ds),
    decreases ds.len(),
{
    if j == ds.len() {
        assert(ds.take(j) =~= ds);
    } else {
        let dl = ds.drop_last();
        assert(all_digits(dl)) by {
            assert(forall|i: int| 0 <= i < dl.len() ==> dl[i] == #[trigger] ds[i]);
        }
        lemma_val_of_nonneg(dl);
        assert(is_digit_char(ds.last()));
        assert(val_of(dl) * 10 >= val_of(dl)) by (nonlinear_arith)
            requires val_of(dl) >= 0;
        assert(val_of(ds) >= val_of(dl));
        assert(ds.take(j) =~= dl.take(j));
        lemma_val_of_prefix(dl, j);
    }
}

pub proof fn lemma_val_of_take_step(ds: Seq<char>, j: int)
    requires
        0 <= j < ds.len(),
    ensures
        val_of(ds.take(j + 1)) == val_of(ds.take(j)) * 10 + digit_val(ds[j]),
{
    assert(ds.take(j + 1).drop_last() =~= ds.take(j));
    assert(ds.take(j + 1).last() == ds[j]);
}

/// The longest run of digit characters at the front of `s`.
pub open spec fn digit_prefix(s: Seq<char>) -> Seq<char>
    decreases s.len(),
{
    if s.len() > 0 && is_digit_char(s[0]) {
        seq![s[0]] + digit_prefix(s.skip(1))
    } else {
        Seq::<char>::empty()
    }
}

/// A scan that stopped at the first non-digit has found the digit prefix.
pub proof fn lemma_digit_prefix_exact(s: Seq<char>, k: int)
    requires
        0 <= k <= s.len(),
        forall|j: int| 0 <= j < k ==> is_digit_char(#[trigger] s[j]),
        k < s.len() ==> !is_digit_char(s[k]),
    ensures
        digit_prefix(s) == s.take(k),
    decreases k,
{
    if k == 0 {
        assert(digit_prefix(s) =~= s.take(0));
    } else {
        assert(is_digit_char(s[0]));
        let t = s.skip(1);
        assert(forall|j: int| 0 <= j < k - 1 ==> t[j] == #[trigger] s[j + 1]);
        lemma_digit_prefix_exact(t, k - 1);
        assert(digit_prefix(s) == seq![s[0]] + t.take(k - 1));
        assert(seq![s[0]] + t.take(k - 1) =~= s.take(k));
    }
}

/// Digits followed by anything that starts with a non-digit: the prefix is
/// exactly those digits.
pub proof fn lemma_digit_prefix_append(ds: Seq<char>, t: Seq<char>)
    requires
        all_digits(ds),
        t.len() > 0,
        !is_digit_char(t[0]),
    ensures
        digit_prefix(ds + t) == ds,
{
    let s = ds + t;
    assert(forall|j: int| 0 <= j < ds.len() ==> s[j] == #[trigger] ds[j]);
    assert(s[ds.len() as int] == t[0]);
    lemma_digit_prefix_exact(s, ds.len() as int);
    assert(s.take(ds.len() as int) =~= ds);
}

/// A decimal number terminated by `';'`: its value and what follows.
/// Values beyond `usize::MAX` are rejected.
pub open spec fn parse_nat_spec(s: Seq<char>) -> Option<(int, Seq<char>)> {
    let ds = digit_prefix(s);
    if ds.len() > 0 && ds.len() < s.len() && s[ds.len() as int] == ';'
        && val_of(ds) <= usize::MAX as int {
        Some((val_of(ds), s.skip(ds.len() as int + 1)))
    } else {
        None
    }
}

/// Round trip: a rendered number, a `';'`, and a tail parse back exactly.
pub proof fn lemma_parse_nat_round(n: nat, rest: Seq<char>)
    requires
        n <= usize::MAX,
    ensures
        parse_nat_spec(digits_of(n) + seq![';'] + rest) == Some((n as int, rest)),
{
    lemma_digits_of_val(n);
    let ds = digits_of(n);
    let t = seq![';'] + rest;
    assert(!is_digit_char(t[0]));
    lemma_digit_prefix_append(ds, t);
    let s = ds + seq![';'] + rest;
    assert(s =~= ds + t);
    assert(s[ds.len() as int] == ';');
    assert(s.skip(ds.len() as int + 1) =~= rest);
}

/// Whether a character is a decimal digit.
pub fn is_digit_exec(c: char) -> (r: bool)
    ensures
        r == is_digit_char(c),
{
    (c as u32) >= ('0' as u32) && (c as u32) <= ('9' as u32)
}

/// The value of a digit character.
pub fn digit_val_exec(c: char) -> (r: u32)
    requires
        is_digit_char(c),
    ensures
        r == digit_val(c),
        r < 10,
{
    (c as u32) - ('0' as u32)
}

/// The single-character string for a digit.
pub fn digit_str(d: usize) -> (r: &'static str)
    requires
        d < 10,
    ensures
        r@ =~= seq![digit_char(d as int)],
{
    proof {
        reveal_strlit("0");
        reveal_strlit("1");
        reveal_strlit("2");
        reveal_strlit("3");
        reveal_strlit("4");
        reveal_strlit("5");
        reveal_strlit("6");
        reveal_strlit("7");
        reveal_strlit("8");
        reveal_strlit("9");
    }
    if d == 0 { "0" }
    else if d == 1 { "1" }
    else if d == 2 { "2" }
    else if d == 3 { "3" }
    else if d == 4 { "4" }
    else if d == 5 { "5" }
    else if d == 6 { "6" }
    else if d == 7 { "7" }
    else if d == 8 { "8" }
    else { "9" }
}

/// Renders `n` in decimal, most significant digit first.
pub fn fmt_nat(n: usize) -> (r: String)
    ensures
        r@ == digits_of(n as nat),
    decreases n,
{
    let d = digit_str(n % 10);
    if n < 10 {
        let r = String::from_str(d);
        proof {
            assert(r@ =~= digits_of(n as nat));
        }
        r
    } else {
        let mut s = fmt_nat(n / 10);
        s.append(d);
        proof {
            assert(s@ =~= digits_of(n as nat));
        }
        s
    }
}

} // verus!
