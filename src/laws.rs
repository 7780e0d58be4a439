//! Properties of the numerals, proved over the model.
use vstd::prelude::*;
use crate::tables::{Case, ones_letter};
use crate::numeral::{spell, lemma_spell_concat, chunk_is_zero, pad_len, separator_symbols, prefix_symbols, thousands_symbols, digit_symbols, closing_symbols};
use crate::numeral::{greek_numeral, numeral_symbols, padded_digits, digits_lsf, symbols_from, chunk_symbols, place_letter, Symbol, Place, KERAIA, ZERO_SIGN};

verus! {

/// Zero is written as the single Greek Zero Sign, the same in both cases.
pub proof fn lemma_zero(case: Case)
    ensures
        greek_numeral(0, case) == seq![ZERO_SIGN],
        greek_numeral(0, Case::Lower) == greek_numeral(0, Case::Upper),
{
    assert(greek_numeral(0, case) =~= seq![ZERO_SIGN]);
    assert(greek_numeral(0, Case::Lower) =~= seq![ZERO_SIGN]);
    assert(greek_numeral(0, Case::Upper) =~= seq![ZERO_SIGN]);
}

/// A single digit `n` is its ones letter in the requested case, closed by the keraia.
pub proof fn lemma_single_digit(n: nat, case: Case)
    requires
        1 <= n <= 9,
    ensures
        greek_numeral(n, case) == seq![ones_letter(n, case), KERAIA],
{
    assert(digits_lsf((n / 10) as nat) == Seq::<nat>::empty());
    assert(digits_lsf(n) =~= seq![n]);
    let ds = padded_digits(n);
    assert(ds =~= seq![0nat, 0nat, 0nat, n]);
    assert(symbols_from(ds, 4, 0, true) == Seq::<Symbol>::empty());
    assert(chunk_symbols(0, 0, 0, n, 0, false) =~= seq![Symbol::Digit(Place::Ones, n), Symbol::Mark(KERAIA)]);
    assert(numeral_symbols(n) =~= seq![Symbol::Digit(Place::Ones, n), Symbol::Mark(KERAIA)]);
    assert(greek_numeral(n, case) =~= seq![ones_letter(n, case), KERAIA]);
}

/// The numeral is a function of the number and the case alone: two results
/// for the same arguments are equal.
pub proof fn lemma_deterministic(n: nat, case: Case, r1: Seq<char>, r2: Seq<char>)
    requires
        r1 == greek_numeral(n, case),
        r2 == greek_numeral(n, case),
    ensures
        r1 == r2,
{
}

/// Both cases spell the same symbols, one character each: they agree on
/// separators, myriad prefixes (always lowercase), myriad letters and keraias,
/// and differ only where a thousands, hundreds, tens or ones digit takes the
/// letter of its own case.
pub proof fn lemma_case_correspondence(n: nat)
    ensures
        ({
            let lower = greek_numeral(n, Case::Lower);
            let upper = greek_numeral(n, Case::Upper);
            let syms = numeral_symbols(n);
            &&& lower.len() == syms.len()
            &&& upper.len() == syms.len()
            &&& forall|i: int|
                0 <= i < syms.len() ==> match #[trigger] syms[i] {
                    Symbol::Mark(c) => lower[i] == c && upper[i] == c,
                    Symbol::Digit(place, d) => lower[i] == place_letter(place, d, Case::Lower)
                        && upper[i] == place_letter(place, d, Case::Upper),
                }
        }),
{
}

/// Number of occurrences of `", "` in `s`.
pub open spec fn separator_count(s: Seq<char>) -> nat
    decreases s.len(),
{
    if s.len() < 2 {
        0
    } else {
        (if s[0] == ',' && s[1] == ' ' { 1nat } else { 0nat }) + separator_count(s.drop_first())
    }
}

/// Number of chunks of `ds` from digit offset `i` on that are not all zeros.
pub open spec fn nonzero_chunks(ds: Seq<nat>, i: int) -> nat
    decreases ds.len() - i,
{
    if i < 0 || i + 4 > ds.len() {
        0
    } else {
        (if chunk_is_zero(ds, i) { 0nat } else { 1nat }) + nonzero_chunks(ds, i + 4)
    }
}

/// Number of four-digit chunks of `n` that are not all zeros.
pub open spec fn nonzero_chunk_count(n: nat) -> nat {
    nonzero_chunks(padded_digits(n), 0)
}

proof fn lemma_no_comma(s: Seq<char>)
    requires
        forall|i: int| 0 <= i < s.len() ==> s[i] != ',',
    ensures
        separator_count(s) == 0,
    decreases s.len(),
{
    if s.len() >= 2 {
        lemma_no_comma(s.drop_first());
    }
}

proof fn lemma_count_concat(a: Seq<char>, b: Seq<char>)
    requires
        a.len() > 0 ==> a[a.len() - 1] != ',',
    ensures
        separator_count(a + b) == separator_count(a) + separator_count(b),
    decreases a.len(),
{
    if a.len() == 0 {
        assert(a + b =~= b);
    } else if a.len() == 1 {
        if b.len() > 0 {
            assert((a + b).drop_first() =~= b);
        }
    } else {
        lemma_count_concat(a.drop_first(), b);
        assert((a + b).drop_first() =~= a.drop_first() + b);
    }
}

spec fn comma_free(s: Seq<char>) -> bool {
    forall|i: int| 0 <= i < s.len() ==> s[i] != ','
}

spec fn chunk_body_symbols(th: nat, h: nat, t: nat, o: nat, power: nat) -> Seq<Symbol> {
    prefix_symbols(power) + thousands_symbols(th) + digit_symbols(Place::Hundreds, h)
        + digit_symbols(Place::Tens, t) + digit_symbols(Place::Ones, o) + closing_symbols(th)
}

proof fn lemma_comma_free_concat(a: Seq<Symbol>, b: Seq<Symbol>, case: Case)
    requires
        comma_free(spell(a, case)),
        comma_free(spell(b, case)),
    ensures
        comma_free(spell(a + b, case)),
{
    lemma_spell_concat(a, b, case);
    let sa = spell(a, case);
    let sb = spell(b, case);
    assert forall|i: int| 0 <= i < (sa + sb).len() implies (sa + sb)[i] != ',' by {
        if i >= sa.len() {
            assert((sa + sb)[i] == sb[i - sa.len()]);
        }
    }
}

proof fn lemma_chunk_body(th: nat, h: nat, t: nat, o: nat, power: nat, case: Case)
    ensures
        spell(chunk_body_symbols(th, h, t, o, power), case).len() > 0,
        comma_free(spell(chunk_body_symbols(th, h, t, o, power), case)),
{
    let p1 = prefix_symbols(power);
    let p2 = thousands_symbols(th);
    let p3 = digit_symbols(Place::Hundreds, h);
    let p4 = digit_symbols(Place::Tens, t);
    let p5 = digit_symbols(Place::Ones, o);
    let p6 = closing_symbols(th);
    assert(comma_free(spell(p1, case)));
    assert(comma_free(spell(p2, case)));
    assert(comma_free(spell(p3, case)));
    assert(comma_free(spell(p4, case)));
    assert(comma_free(spell(p5, case)));
    assert(comma_free(spell(p6, case)));
    lemma_comma_free_concat(p1, p2, case);
    lemma_comma_free_concat(p1 + p2, p3, case);
    lemma_comma_free_concat(p1 + p2 + p3, p4, case);
    lemma_comma_free_concat(p1 + p2 + p3 + p4, p5, case);
    lemma_comma_free_concat(p1 + p2 + p3 + p4 + p5, p6, case);
    assert(p2.len() + p6.len() > 0);
}

proof fn lemma_chunk_separators(th: nat, h: nat, t: nat, o: nat, power: nat, continued: bool, case: Case)
    ensures
        ({
            let text = spell(chunk_symbols(th, h, t, o, power, continued), case);
            &&& text.len() > 0
            &&& text[text.len() - 1] != ','
            &&& separator_count(text) == if continued { 1nat } else { 0nat }
        }),
{
    let body_syms = chunk_body_symbols(th, h, t, o, power);
    let body = spell(body_syms, case);
    let text = spell(chunk_symbols(th, h, t, o, power, continued), case);
    lemma_chunk_body(th, h, t, o, power, case);
    assert(chunk_symbols(th, h, t, o, power, continued) =~= separator_symbols(continued) + body_syms);
    lemma_spell_concat(separator_symbols(continued), body_syms, case);
    lemma_no_comma(body);
    if continued {
        assert(spell(separator_symbols(continued), case) =~= seq![',', ' ']);
        assert(text.drop_first().drop_first() =~= body);
        assert(text[text.len() - 1] == body[body.len() - 1]);
        assert(text.drop_first()[0] == ' ');
        assert(separator_count(text.drop_first()) == separator_count(body));
    } else {
        assert(spell(separator_symbols(continued), case) =~= Seq::<char>::empty());
        assert(text =~= body);
    }
}

proof fn lemma_separators_from(ds: Seq<nat>, i: int, power: nat, continued: bool, case: Case)
    requires
        0 <= i,
    ensures
        separator_count(spell(symbols_from(ds, i, power, continued), case)) == if continued {
            nonzero_chunks(ds, i) as int
        } else if nonzero_chunks(ds, i) > 0 {
            nonzero_chunks(ds, i) - 1
        } else {
            0
        },
    decreases ds.len() - i,
{
    if i + 4 > ds.len() {
        assert(spell(symbols_from(ds, i, power, continued), case) =~= Seq::<char>::empty());
    } else if chunk_is_zero(ds, i) {
        lemma_separators_from(ds, i + 4, power, continued, case);
    } else {
        let next_power: nat = if power > 0 { (power - 1) as nat } else { 0 };
        let chunk = chunk_symbols(ds[i], ds[i + 1], ds[i + 2], ds[i + 3], power, continued);
        let rest = symbols_from(ds, i + 4, next_power, true);
        lemma_separators_from(ds, i + 4, next_power, true, case);
        lemma_chunk_separators(ds[i], ds[i + 1], ds[i + 2], ds[i + 3], power, continued, case);
        lemma_spell_concat(chunk, rest, case);
        lemma_count_concat(spell(chunk, case), spell(rest, case));
    }
}

proof fn lemma_leading_digit(n: nat)
    requires
        n > 0,
    ensures
        digits_lsf(n).len() > 0,
        digits_lsf(n)[digits_lsf(n).len() - 1] != 0,
    decreases n,
{
    if n / 10 > 0 {
        lemma_leading_digit(n / 10);
    } else {
        assert(digits_lsf(n / 10) == Seq::<nat>::empty());
        assert(digits_lsf(n) =~= seq![n % 10]);
    }
}

proof fn lemma_some_chunk_nonzero(ds: Seq<nat>, i: int, j: int)
    requires
        0 <= i <= j < ds.len(),
        i % 4 == 0,
        ds.len() % 4 == 0,
        ds[j] != 0,
    ensures
        nonzero_chunks(ds, i) >= 1,
    decreases ds.len() - i,
{
    if chunk_is_zero(ds, i) {
        lemma_some_chunk_nonzero(ds, i + 4, j);
    }
}

/// Number of non-zero digits of `n` in base ten thousand, that is of the
/// values `(n / 10000^i) % 10000`.
pub open spec fn nonzero_myriad_digits(n: nat) -> nat
    decreases n,
{
    if n == 0 {
        0
    } else {
        (if n % 10000 != 0 { 1nat } else { 0nat }) + nonzero_myriad_digits(n / 10000)
    }
}

/// The four lowest decimal digits of `n`, least significant first.
spec fn low_four(n: nat) -> Seq<nat> {
    seq![n % 10, (n / 10) % 10, (n / 100) % 10, (n / 1000) % 10]
}

spec fn padded_lsf(n: nat) -> Seq<nat> {
    digits_lsf(n) + Seq::new(pad_len(digits_lsf(n).len()), |j: int| 0nat)
}

proof fn lemma_low_four(n: nat)
    ensures
        n % 10000 == 0 <==> (n % 10 == 0 && (n / 10) % 10 == 0 && (n / 100) % 10 == 0
            && (n / 1000) % 10 == 0),
        n / 10 / 10 == n / 100,
        n / 100 / 10 == n / 1000,
        n / 1000 / 10 == n / 10000,
{
}

proof fn lemma_padded_split(n: nat)
    requires
        n > 0,
    ensures
        n / 10000 == 0 ==> padded_lsf(n) == low_four(n),
        n / 10000 > 0 ==> padded_lsf(n) == low_four(n) + padded_lsf(n / 10000),
{
    lemma_low_four(n);
    let d1 = n / 10;
    let d2 = n / 100;
    let d3 = n / 1000;
    let d4 = n / 10000;
    assert(digits_lsf(n) == seq![n % 10] + digits_lsf(d1));
    if d1 > 0 {
        assert(digits_lsf(d1) == seq![d1 % 10] + digits_lsf(d2));
        if d2 > 0 {
            assert(digits_lsf(d2) == seq![d2 % 10] + digits_lsf(d3));
            if d3 > 0 {
                assert(digits_lsf(d3) == seq![d3 % 10] + digits_lsf(d4));
            } else {
                assert(digits_lsf(d3) == Seq::<nat>::empty());
            }
        } else {
            assert(digits_lsf(d2) == Seq::<nat>::empty());
        }
    } else {
        assert(digits_lsf(d1) == Seq::<nat>::empty());
    }
    if d4 == 0 {
        assert(digits_lsf(d4) == Seq::<nat>::empty());
        assert(padded_lsf(n) =~= low_four(n));
    } else {
        assert(padded_lsf(n) =~= low_four(n) + padded_lsf(d4));
    }
}

proof fn lemma_chunks_shift(x: Seq<nat>, y: Seq<nat>, k: int)
    requires
        0 <= k,
    ensures
        nonzero_chunks(x + y, x.len() + k) == nonzero_chunks(y, k),
    decreases y.len() - k,
{
    if k + 4 <= y.len() {
        lemma_chunks_shift(x, y, k + 4);
        assert((x + y)[x.len() + k] == y[k]);
        assert((x + y)[x.len() + k + 1] == y[k + 1]);
        assert((x + y)[x.len() + k + 2] == y[k + 2]);
        assert((x + y)[x.len() + k + 3] == y[k + 3]);
    }
}

proof fn lemma_chunks_concat(x: Seq<nat>, y: Seq<nat>, i: int)
    requires
        0 <= i <= x.len(),
        i % 4 == 0,
        x.len() % 4 == 0,
    ensures
        nonzero_chunks(x + y, i) == nonzero_chunks(x, i) + nonzero_chunks(y, 0),
    decreases x.len() - i,
{
    if i == x.len() {
        lemma_chunks_shift(x, y, 0);
    } else {
        lemma_chunks_concat(x, y, i + 4);
        assert((x + y)[i] == x[i]);
        assert((x + y)[i + 1] == x[i + 1]);
        assert((x + y)[i + 2] == x[i + 2]);
        assert((x + y)[i + 3] == x[i + 3]);
    }
}

/// The chunks of the padded digits that are not all zeros are the non-zero
/// base ten thousand digits of `n`.
pub proof fn lemma_chunks_are_myriad_digits(n: nat)
    ensures
        nonzero_chunk_count(n) == nonzero_myriad_digits(n),
    decreases n,
{
    if n == 0 {
        assert(padded_digits(0) =~= Seq::<nat>::empty());
    } else {
        lemma_low_four(n);
        lemma_padded_split(n);
        let four = low_four(n).reverse();
        assert(four =~= seq![(n / 1000) % 10, (n / 100) % 10, (n / 10) % 10, n % 10]);
        assert(nonzero_chunks(four, 4) == 0);
        assert(nonzero_chunks(four, 0) == if n % 10000 != 0 { 1nat } else { 0nat });
        if n / 10000 == 0 {
            assert(padded_digits(n) == four);
            assert(nonzero_myriad_digits(0) == 0);
        } else {
            let q = n / 10000;
            lemma_chunks_are_myriad_digits(q);
            let rest = padded_lsf(q).reverse();
            assert(padded_digits(n) =~= rest + four);
            assert(padded_digits(q) == rest);
            assert(rest.len() % 4 == 0);
            lemma_chunks_concat(rest, four, 0);
        }
    }
}

/// A non-zero number has one `", "` fewer than it has non-zero digits in
/// base ten thousand, that is chunks of four decimal digits that are not all
/// zeros. (Zero has no such chunk and no separator.)
pub proof fn lemma_separator_count(n: nat, case: Case)
    requires
        n > 0,
    ensures
        separator_count(greek_numeral(n, case)) + 1 == nonzero_chunk_count(n),
        separator_count(greek_numeral(n, case)) + 1 == nonzero_myriad_digits(n),
{
    let lsf = digits_lsf(n);
    let ds = padded_digits(n);
    let pad = pad_len(lsf.len());
    lemma_leading_digit(n);
    assert(ds[pad as int] == lsf[lsf.len() - 1]);
    lemma_some_chunk_nonzero(ds, 0, pad as int);
    lemma_separators_from(ds, 0, (ds.len() / 4 - 1) as nat, false, case);
    lemma_chunks_are_myriad_digits(n);
}

} // verus!
