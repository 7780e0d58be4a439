//! Fixed glyph tables for the ones, tens and hundreds places, in both cases.
use vstd::prelude::*;

verus! {

/// The letterform of a numeral.
#[derive(Clone, Copy, Debug, PartialEq, Eq, Structural)]
pub enum Case {
    /// Everything is lowercased.
    Lower,
    /// Everything is uppercased.
    Upper,
}

/// Ones-place letter for digit `d` in `1..=9`; the thousands place uses the same letters.
pub open spec fn ones_letter(d: nat, case: Case) -> char {
    match case {
        Case::Lower => {
            if d == 1 { 'α' } else if d == 2 { 'β' } else if d == 3 { 'γ' }
            else if d == 4 { 'δ' } else if d == 5 { 'ε' } else if d == 6 { 'ϛ' }
            else if d == 7 { 'ζ' } else if d == 8 { 'η' } else { 'θ' }
        },
        Case::Upper => {
            if d == 1 { 'Α' } else if d == 2 { 'Β' } else if d == 3 { 'Γ' }
            else if d == 4 { 'Δ' } else if d == 5 { 'Ε' } else if d == 6 { 'Ϛ' }
            else if d == 7 { 'Ζ' } else if d == 8 { 'Η' } else { 'Θ' }
        },
    }
}

/// Tens-place letter for digit `d` in `1..=9`.
pub open spec fn tens_letter(d: nat, case: Case) -> char {
    match case {
        Case::Lower => {
            if d == 1 { 'ι' } else if d == 2 { 'κ' } else if d == 3 { 'λ' }
            else if d == 4 { 'μ' } else if d == 5 { 'ν' } else if d == 6 { 'ξ' }
            else if d == 7 { 'ο' } else if d == 8 { 'π' } else { 'ϙ' }
        },
        Case::Upper => {
            if d == 1 { 'Ι' } else if d == 2 { 'Κ' } else if d == 3 { 'Λ' }
            else if d == 4 { 'Μ' } else if d == 5 { 'Ν' } else if d == 6 { 'Ξ' }
            else if d == 7 { 'Ο' } else if d == 8 { 'Π' } else { 'Ϟ' }
        },
    }
}

/// Hundreds-place letter for digit `d` in `1..=9`.
pub open spec fn hundreds_letter(d: nat, case: Case) -> char {
    match case {
        Case::Lower => {
            if d == 1 { 'ρ' } else if d == 2 { 'σ' } else if d == 3 { 'τ' }
            else if d == 4 { 'υ' } else if d == 5 { 'φ' } else if d == 6 { 'χ' }
            else if d == 7 { 'ψ' } else if d == 8 { 'ω' } else { 'ϡ' }
        },
        Case::Upper => {
            if d == 1 { 'Ρ' } else if d == 2 { 'Σ' } else if d == 3 { 'Τ' }
            else if d == 4 { 'Υ' } else if d == 5 { 'Φ' } else if d == 6 { 'Χ' }
            else if d == 7 { 'Ψ' } else if d == 8 { 'Ω' } else { 'Ϡ' }
        },
    }
}

pub fn ones_glyph(d: usize, case: Case) -> (c: char)
    requires
        1 <= d <= 9,
    ensures
        c == ones_letter(d as nat, case),
{
    match case {
        Case::Lower => {
            if d == 1 { 'α' } else if d == 2 { 'β' } else if d == 3 { 'γ' }
            else if d == 4 { 'δ' } else if d == 5 { 'ε' } else if d == 6 { 'ϛ' }
            else if d == 7 { 'ζ' } else if d == 8 { 'η' } else { 'θ' }
        },
        Case::Upper => {
            if d == 1 { 'Α' } else if d == 2 { 'Β' } else if d == 3 { 'Γ' }
            else if d == 4 { 'Δ' } else if d == 5 { 'Ε' } else if d == 6 { 'Ϛ' }
            else if d == 7 { 'Ζ' } else if d == 8 { 'Η' } else { 'Θ' }
        },
    }
}

pub fn tens_glyph(d: usize, case: Case) -> (c: char)
    requires
        1 <= d <= 9,
    ensures
        c == tens_letter(d as nat, case),
{
    match case {
        Case::Lower => {
            if d == 1 { 'ι' } else if d == 2 { 'κ' } else if d == 3 { 'λ' }
            else if d == 4 { 'μ' } else if d == 5 { 'ν' } else if d == 6 { 'ξ' }
            else if d == 7 { 'ο' } else if d == 8 { 'π' } else { 'ϙ' }
        },
        Case::Upper => {
            if d == 1 { 'Ι' } else if d == 2 { 'Κ' } else if d == 3 { 'Λ' }
            else if d == 4 { 'Μ' } else if d == 5 { 'Ν' } else if d == 6 { 'Ξ' }
            else if d == 7 { 'Ο' } else if d == 8 { 'Π' } else { 'Ϟ' }
        },
    }
}

pub fn hundreds_glyph(d: usize, case: Case) -> (c: char)
    requires
        1 <= d <= 9,
    ensures
        c == hundreds_letter(d as nat, case),
{
    match case {
        Case::Lower => {
            if d == 1 { 'ρ' } else if d == 2 { 'σ' } else if d == 3 { 'τ' }
            else if d == 4 { 'υ' } else if d == 5 { 'φ' } else if d == 6 { 'χ' }
            else if d == 7 { 'ψ' } else if d == 8 { 'ω' } else { 'ϡ' }
        },
        Case::Upper => {
            if d == 1 { 'Ρ' } else if d == 2 { 'Σ' } else if d == 3 { 'Τ' }
            else if d == 4 { 'Υ' } else if d == 5 { 'Φ' } else if d == 6 { 'Χ' }
            else if d == 7 { 'Ψ' } else if d == 8 { 'Ω' } else { 'Ϡ' }
        },
    }
}

} // verus!
