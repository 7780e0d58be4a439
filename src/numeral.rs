//! The numeral as a sequence of symbols, and the encoder that writes it out.
use vstd::prelude::*;
use vstd::seq_lib::lemma_concat_associative;
use crate::tables::{Case, ones_letter, tens_letter, hundreds_letter, ones_glyph, tens_glyph, hundreds_glyph};

verus! {

/// Greek Zero Sign: the whole numeral for zero, in either case.
pub const ZERO_SIGN: char = '\u{1018A}';

/// Keraia that closes a numeral whose thousands digit is zero.
pub const KERAIA: char = '\u{374}';

/// Lower keraia that marks a thousands digit.
pub const LOWER_KERAIA: char = '\u{375}';

/// The myriad letter that follows a myriad prefix.
pub const MYRIAD_SIGN: char = '\u{39C}';

/// The place value of a digit within a four-digit chunk.
pub enum Place {
    Ones,
    Tens,
    Hundreds,
    Thousands,
}

/// One written character of a numeral: either fixed, whatever the case,
/// or a digit letter whose form follows the case.
pub enum Symbol {
    Mark(char),
    Digit(Place, nat),
}

/// Letter for digit `d` at `place`; the thousands place reuses the ones letters.
pub open spec fn place_letter(place: Place, d: nat, case: Case) -> char {
    match place {
        Place::Ones => ones_letter(d, case),
        Place::Tens => tens_letter(d, case),
        Place::Hundreds => hundreds_letter(d, case),
        Place::Thousands => ones_letter(d, case),
    }
}

pub open spec fn symbol_char(s: Symbol, case: Case) -> char {
    match s {
        Symbol::Mark(c) => c,
        Symbol::Digit(place, d) => place_letter(place, d, case),
    }
}

/// The characters that spell `syms` in `case`, one per symbol.
pub open spec fn spell(syms: Seq<Symbol>, case: Case) -> Seq<char> {
    syms.map_values(|s: Symbol| symbol_char(s, case))
}

/// Decimal digits of `n`, least significant first; empty for zero.
pub open spec fn digits_lsf(n: nat) -> Seq<nat>
    decreases n,
{
    if n == 0 {
        seq![]
    } else {
        seq![n % 10] + digits_lsf(n / 10)
    }
}

/// How many zero digits bring a length of `len` up to a multiple of four.
pub open spec fn pad_len(len: nat) -> nat {
    ((4 - len % 4) % 4) as nat
}

/// Decimal digits of `n`, most significant first, left-padded with zeros
/// to a multiple of four.
pub open spec fn padded_digits(n: nat) -> Seq<nat> {
    let lsf = digits_lsf(n);
    (lsf + Seq::new(pad_len(lsf.len()), |j: int| 0nat)).reverse()
}

pub open spec fn chunk_is_zero(ds: Seq<nat>, i: int) -> bool {
    ds[i] == 0 && ds[i + 1] == 0 && ds[i + 2] == 0 && ds[i + 3] == 0
}

/// `", "` before every chunk but the first one written.
pub open spec fn separator_symbols(continued: bool) -> Seq<Symbol> {
    if continued { seq![Symbol::Mark(','), Symbol::Mark(' ')] } else { seq![] }
}

/// Myriad prefix for `power > 0`: the lowercase ones letter of `power`,
/// whatever the case of the numeral, then the myriad letter.
pub open spec fn prefix_symbols(power: nat) -> Seq<Symbol> {
    if power > 0 {
        seq![Symbol::Mark(ones_letter(power, Case::Lower)), Symbol::Mark(MYRIAD_SIGN)]
    } else {
        seq![]
    }
}

/// A non-zero thousands digit, marked by the lower keraia.
pub open spec fn thousands_symbols(th: nat) -> Seq<Symbol> {
    if th != 0 {
        seq![Symbol::Mark(LOWER_KERAIA), Symbol::Digit(Place::Thousands, th)]
    } else {
        seq![]
    }
}

/// A digit at `place`; a zero digit writes nothing.
pub open spec fn digit_symbols(place: Place, d: nat) -> Seq<Symbol> {
    if d != 0 { seq![Symbol::Digit(place, d)] } else { seq![] }
}

/// The closing keraia, written when the thousands digit is zero.
pub open spec fn closing_symbols(th: nat) -> Seq<Symbol> {
    if th == 0 { seq![Symbol::Mark(KERAIA)] } else { seq![] }
}

/// Symbols of one chunk that is not all zeros, digits from thousands down to ones.
pub open spec fn chunk_symbols(th: nat, h: nat, t: nat, o: nat, power: nat, continued: bool) -> Seq<Symbol> {
    separator_symbols(continued) + prefix_symbols(power) + thousands_symbols(th)
        + digit_symbols(Place::Hundreds, h) + digit_symbols(Place::Tens, t)
        + digit_symbols(Place::Ones, o) + closing_symbols(th)
}

/// Symbols of the chunks of `ds` from digit offset `i` on. All-zero chunks
/// are skipped; the myriad power goes down by one (not below zero) only
/// after a chunk that was written.
pub open spec fn symbols_from(ds: Seq<nat>, i: int, power: nat, continued: bool) -> Seq<Symbol>
    decreases ds.len() - i,
{
    if i < 0 || i + 4 > ds.len() {
        seq![]
    } else if chunk_is_zero(ds, i) {
        symbols_from(ds, i + 4, power, continued)
    } else {
        chunk_symbols(ds[i], ds[i + 1], ds[i + 2], ds[i + 3], power, continued)
            + symbols_from(ds, i + 4, if power > 0 { (power - 1) as nat } else { 0 }, true)
    }
}

/// The symbols of the numeral for `n`; they do not depend on the case.
pub open spec fn numeral_symbols(n: nat) -> Seq<Symbol> {
    if n == 0 {
        seq![Symbol::Mark(ZERO_SIGN)]
    } else {
        let ds = padded_digits(n);
        symbols_from(ds, 0, (ds.len() / 4 - 1) as nat, false)
    }
}

/// The Greek numeral for `n`, written in `case`.
pub open spec fn greek_numeral(n: nat, case: Case) -> Seq<char> {
    spell(numeral_symbols(n), case)
}

pub open spec fn pow10(k: nat) -> nat
    decreases k,
{
    if k == 0 { 1 } else { 10 * pow10((k - 1) as nat) }
}

spec fn nat_digits(v: Seq<usize>) -> Seq<nat> {
    v.map_values(|d: usize| d as nat)
}

pub proof fn lemma_spell_concat(a: Seq<Symbol>, b: Seq<Symbol>, case: Case)
    ensures
        spell(a + b, case) == spell(a, case) + spell(b, case),
{
    assert(spell(a + b, case) =~= spell(a, case) + spell(b, case));
}

/// A number below `10^k` has at most `k` decimal digits.
pub proof fn lemma_digit_count(m: nat, k: nat)
    requires
        m < pow10(k),
    ensures
        digits_lsf(m).len() <= k,
    decreases k,
{
    if m > 0 && k > 0 {
        lemma_digit_count(m / 10, (k - 1) as nat);
    }
}

/// Relies on `String::push`: appends the one character at the end.
#[verifier::external_body]
fn push_char(s: &mut String, c: char)
    ensures
        final(s)@ == old(s)@.push(c),
{
    s.push(c)
}

proof fn lemma_extend(base: Seq<char>, acc: Seq<Symbol>, piece: Seq<Symbol>, case: Case)
    ensures
        (base + spell(acc, case)) + spell(piece, case) == base + spell(acc + piece, case),
{
    lemma_spell_concat(acc, piece, case);
    lemma_concat_associative(base, spell(acc, case), spell(piece, case));
}

fn push_separator(out: &mut String, continued: bool, case: Case)
    ensures
        final(out)@ == old(out)@ + spell(separator_symbols(continued), case),
{
    if continued {
        push_char(out, ',');
        push_char(out, ' ');
    }
    assert(out@ =~= old(out)@ + spell(separator_symbols(continued), case));
}

fn push_prefix(out: &mut String, power: usize, case: Case)
    requires
        power <= 9,
    ensures
        final(out)@ == old(out)@ + spell(prefix_symbols(power as nat), case),
{
    if power > 0 {
        let prefix = ones_glyph(power, Case::Lower);
        push_char(out, prefix);
        push_char(out, MYRIAD_SIGN);
    }
    assert(out@ =~= old(out)@ + spell(prefix_symbols(power as nat), case));
}

fn push_thousands(out: &mut String, th: usize, case: Case)
    requires
        th < 10,
    ensures
        final(out)@ == old(out)@ + spell(thousands_symbols(th as nat), case),
{
    if th != 0 {
        let thousand_digit = ones_glyph(th, case);
        push_char(out, LOWER_KERAIA);
        push_char(out, thousand_digit);
    }
    assert(out@ =~= old(out)@ + spell(thousands_symbols(th as nat), case));
}

fn push_hundreds(out: &mut String, h: usize, case: Case)
    requires
        h < 10,
    ensures
        final(out)@ == old(out)@ + spell(digit_symbols(Place::Hundreds, h as nat), case),
{
    if h != 0 {
        let hundred_digit = hundreds_glyph(h, case);
        push_char(out, hundred_digit);
    }
    assert(out@ =~= old(out)@ + spell(digit_symbols(Place::Hundreds, h as nat), case));
}

fn push_tens(out: &mut String, t: usize, case: Case)
    requires
        t < 10,
    ensures
        final(out)@ == old(out)@ + spell(digit_symbols(Place::Tens, t as nat), case),
{
    if t != 0 {
        let ten_digit = tens_glyph(t, case);
        push_char(out, ten_digit);
    }
    assert(out@ =~= old(out)@ + spell(digit_symbols(Place::Tens, t as nat), case));
}

fn push_ones(out: &mut String, o: usize, case: Case)
    requires
        o < 10,
    ensures
        final(out)@ == old(out)@ + spell(digit_symbols(Place::Ones, o as nat), case),
{
    if o != 0 {
        let one_digit = ones_glyph(o, case);
        push_char(out, one_digit);
    }
    assert(out@ =~= old(out)@ + spell(digit_symbols(Place::Ones, o as nat), case));
}

fn push_closing(out: &mut String, th: usize, case: Case)
    ensures
        final(out)@ == old(out)@ + spell(closing_symbols(th as nat), case),
{
    if th == 0 {
        push_char(out, KERAIA);
    }
    assert(out@ =~= old(out)@ + spell(closing_symbols(th as nat), case));
}

fn push_chunk(out: &mut String, th: usize, h: usize, t: usize, o: usize, power: usize, continued: bool, case: Case)
    requires
        th < 10,
        h < 10,
        t < 10,
        o < 10,
        power <= 9,
    ensures
        final(out)@ == old(out)@ + spell(
            chunk_symbols(th as nat, h as nat, t as nat, o as nat, power as nat, continued),
            case,
        ),
{
    let ghost base = out@;
    push_separator(out, continued, case);
    let ghost acc = separator_symbols(continued);
    assert(out@ =~= base + spell(acc, case));
    push_prefix(out, power, case);
    proof {
        lemma_extend(base, acc, prefix_symbols(power as nat), case);
        acc = acc + prefix_symbols(power as nat);
    }
    push_thousands(out, th, case);
    proof {
        lemma_extend(base, acc, thousands_symbols(th as nat), case);
        acc = acc + thousands_symbols(th as nat);
    }
    push_hundreds(out, h, case);
    proof {
        lemma_extend(base, acc, digit_symbols(Place::Hundreds, h as nat), case);
        acc = acc + digit_symbols(Place::Hundreds, h as nat);
    }
    push_tens(out, t, case);
    proof {
        lemma_extend(base, acc, digit_symbols(Place::Tens, t as nat), case);
        acc = acc + digit_symbols(Place::Tens, t as nat);
    }
    push_ones(out, o, case);
    proof {
        lemma_extend(base, acc, digit_symbols(Place::Ones, o as nat), case);
        acc = acc + digit_symbols(Place::Ones, o as nat);
    }
    push_closing(out, th, case);
    proof {
        lemma_extend(base, acc, closing_symbols(th as nat), case);
    }
}

/// Writes `n` as a Greek numeral in `case`.
///
/// A myriad prefix is a single ones letter, which caps the encoding at
/// `10^40 - 1`; every `usize` is far below that (at most five chunks), so the
/// prefix is always one of the letters for 1 to 4.
pub fn to_greek(n: usize, case: Case) -> (r: String)
    ensures
        r@ == greek_numeral(n as nat, case),
{
    let mut fmt = String::new();
    if n == 0 {
        push_char(&mut fmt, ZERO_SIGN);
        assert(fmt@ =~= greek_numeral(0, case));
        return fmt;
    }
    let ghost lsf = digits_lsf(n as nat);
    proof {
        reveal_with_fuel(pow10, 21);
        lemma_digit_count(n as nat, 20);
    }
    // Decimal digits, least significant first.
    let mut decimal_digits: Vec<usize> = Vec::new();
    let mut m: usize = n;
    while m > 0
        invariant
            nat_digits(decimal_digits@) + digits_lsf(m as nat) == lsf,
            forall|j: int| 0 <= j < decimal_digits@.len() ==> decimal_digits@[j] < 10,
        decreases m,
    {
        let ghost before = decimal_digits@;
        decimal_digits.push(m % 10);
        proof {
            assert(nat_digits(decimal_digits@) =~= nat_digits(before) + seq![(m % 10) as nat]);
            assert(digits_lsf(m as nat) == seq![(m % 10) as nat] + digits_lsf((m / 10) as nat));
            assert(nat_digits(decimal_digits@) + digits_lsf((m / 10) as nat)
                =~= nat_digits(before) + digits_lsf(m as nat));
        }
        m = m / 10;
    }
    assert(nat_digits(decimal_digits@) =~= lsf);
    // Zeros up to a multiple of four digits.
    while decimal_digits.len() % 4 != 0
        invariant
            lsf.len() <= 20,
            lsf.len() <= decimal_digits@.len() <= lsf.len() + pad_len(lsf.len()),
            nat_digits(decimal_digits@) == lsf + Seq::new(
                (decimal_digits@.len() - lsf.len()) as nat,
                |j: int| 0nat,
            ),
            forall|j: int| 0 <= j < decimal_digits@.len() ==> decimal_digits@[j] < 10,
        decreases lsf.len() + pad_len(lsf.len()) - decimal_digits@.len(),
    {
        let ghost before = decimal_digits@;
        let ghost k = (before.len() - lsf.len()) as nat;
        decimal_digits.push(0);
        assert(nat_digits(decimal_digits@) =~= nat_digits(before).push(0nat));
        assert(Seq::new(k + 1, |j: int| 0nat) =~= Seq::new(k, |j: int| 0nat).push(0nat));
        assert(nat_digits(decimal_digits@) =~= lsf + Seq::new(
            (decimal_digits@.len() - lsf.len()) as nat,
            |j: int| 0nat,
        ));
    }
    let len = decimal_digits.len();
    let ghost ds = padded_digits(n as nat);
    assert(len == lsf.len() + pad_len(lsf.len()));
    assert(len >= 4) by {
        if len == 0 {
            assert(lsf.len() == 0);
            assert(lsf == seq![(n % 10) as nat] + digits_lsf((n / 10) as nat));
        }
    }
    assert(ds.len() == len);
    assert(forall|j: int| 0 <= j < len ==> ds[j] == decimal_digits@[len - 1 - j] as nat);
    let mut m_power: usize = len / 4 - 1;
    let mut previous_has_number = false;
    let mut i: usize = 0;
    while i < len
        invariant
            len == decimal_digits@.len(),
            ds.len() == len,
            len % 4 == 0,
            4 <= len <= 20,
            i % 4 == 0,
            i <= len,
            m_power <= 4,
            forall|j: int| 0 <= j < len ==> ds[j] == decimal_digits@[len - 1 - j] as nat,
            forall|j: int| 0 <= j < len ==> decimal_digits@[j] < 10,
            fmt@ + spell(symbols_from(ds, i as int, m_power as nat, previous_has_number), case)
                == greek_numeral(n as nat, case),
        decreases len - i,
    {
        // thousand, hundred, ten and one digits of this chunk
        let th = decimal_digits[len - 1 - i];
        let h = decimal_digits[len - 2 - i];
        let t = decimal_digits[len - 3 - i];
        let o = decimal_digits[len - 4 - i];
        let ghost rest_power: nat = if m_power > 0 { (m_power - 1) as nat } else { 0 };
        if th + h + t + o != 0 {
            let ghost chunk = chunk_symbols(th as nat, h as nat, t as nat, o as nat, m_power as nat, previous_has_number);
            let ghost rest = symbols_from(ds, i + 4, rest_power, true);
            let ghost before = fmt@;
            push_chunk(&mut fmt, th, h, t, o, m_power, previous_has_number, case);
            proof {
                lemma_spell_concat(chunk, rest, case);
                lemma_concat_associative(before, spell(chunk, case), spell(rest, case));
            }
            if m_power > 0 {
                m_power = m_power - 1;
            }
            previous_has_number = true;
        }
        i = i + 4;
    }
    assert(fmt@ =~= fmt@ + spell(symbols_from(ds, i as int, m_power as nat, previous_has_number), case));
    fmt
}

/// Writes `n` as a lowercase Greek numeral.
pub fn to_greek_lowercase(n: usize) -> (r: String)
    ensures
        r@ == greek_numeral(n as nat, Case::Lower),
{
    to_greek(n, Case::Lower)
}

/// Writes `n` as an uppercase Greek numeral; myriad prefixes stay lowercase.
pub fn to_greek_uppercase(n: usize) -> (r: String)
    ensures
        r@ == greek_numeral(n as nat, Case::Upper),
{
    to_greek(n, Case::Upper)
}

} // verus!
