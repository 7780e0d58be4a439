use greek_number::{to_greek, to_greek_lowercase, to_greek_uppercase, Case};

fn check(number: usize, expected: &str, case: Case) {
    assert_eq!(to_greek(number, case), expected);
}

#[test]
fn greek_number_stringify_test() {
    check(1, "α\u{374}", Case::Lower);
    check(1, "Α\u{374}", Case::Upper);
    check(241, "σμα\u{374}", Case::Lower);
    check(241, "ΣΜΑ\u{374}", Case::Upper);
    check(5683, "͵εχπγ", Case::Lower);
    check(9184, "͵θρπδ", Case::Lower);
    check(3398, "͵γτϙη", Case::Lower);
    check(1005, "͵αε", Case::Lower);
    check(97_554, "αΜθ\u{374}, ͵ζφνδ", Case::Lower);
    check(2_056_839_184, "βΜκ\u{374}, αΜ͵εχπγ, ͵θρπδ", Case::Lower);
    check(12_312_398_676, "βΜρκγ\u{374}, αΜ͵ασλθ, ͵ηχοϛ", Case::Lower);
    check(2_000_000_000, "βΜκ\u{374}", Case::Lower);
    check(90_000_001, "αΜ͵θ, α\u{374}", Case::Lower);
}

#[test]
fn public_entry_points_match_doc_examples() {
    assert_eq!(to_greek_lowercase(1), "α\u{374}");
    assert_eq!(to_greek_lowercase(241), "σμα\u{374}");
    assert_eq!(to_greek_uppercase(1), "Α\u{374}");
    assert_eq!(to_greek_uppercase(241), "ΣΜΑ\u{374}");
}

#[test]
fn zero_is_the_zero_sign_in_both_cases() {
    assert_eq!(to_greek_lowercase(0), "𐆊");
    assert_eq!(to_greek_uppercase(0), "𐆊");
}

#[test]
fn single_digits_are_ones_letter_and_keraia() {
    let lower = ["α", "β", "γ", "δ", "ε", "ϛ", "ζ", "η", "θ"];
    let upper = ["Α", "Β", "Γ", "Δ", "Ε", "Ϛ", "Ζ", "Η", "Θ"];
    for n in 1..=9usize {
        assert_eq!(to_greek_lowercase(n), format!("{}\u{374}", lower[n - 1]));
        assert_eq!(to_greek_uppercase(n), format!("{}\u{374}", upper[n - 1]));
    }
}

#[test]
fn repeated_calls_agree() {
    for &n in &[0usize, 7, 97_554, 12_312_398_676, usize::MAX] {
        assert_eq!(to_greek_lowercase(n), to_greek_lowercase(n));
        assert_eq!(to_greek_uppercase(n), to_greek_uppercase(n));
    }
}

#[test]
fn cases_share_structure_and_myriad_prefix_stays_lowercase() {
    assert_eq!(to_greek_uppercase(97_554), "αΜΘ\u{374}, ͵ΖΦΝΔ");
    assert_eq!(to_greek_uppercase(90_000_001), "αΜ͵Θ, Α\u{374}");
    assert_eq!(to_greek_uppercase(2_000_000_000), "βΜΚ\u{374}");
    for &n in &[1usize, 40, 97_554, 2_056_839_184, 12_312_398_676, usize::MAX] {
        let lower: Vec<char> = to_greek_lowercase(n).chars().collect();
        let upper: Vec<char> = to_greek_uppercase(n).chars().collect();
        assert_eq!(lower.len(), upper.len());
    }
}

#[test]
fn tens_four_uppercase_is_mu_like_the_myriad_letter() {
    assert_eq!(to_greek_lowercase(40), "μ\u{374}");
    assert_eq!(to_greek_uppercase(40), "Μ\u{374}");
    assert_eq!(to_greek_uppercase(400_040), "αΜΜ\u{374}, Μ\u{374}");
}

#[test]
fn separator_count_is_one_less_than_nonzero_chunks() {
    assert_eq!(to_greek_lowercase(9_999).matches(", ").count(), 0);
    assert_eq!(to_greek_lowercase(10_000).matches(", ").count(), 0);
    assert_eq!(to_greek_lowercase(10_001).matches(", ").count(), 1);
    assert_eq!(to_greek_lowercase(2_056_839_184).matches(", ").count(), 2);
    assert_eq!(to_greek_lowercase(100_000_001).matches(", ").count(), 1);
}

#[test]
fn zero_chunk_between_written_chunks_keeps_the_running_power() {
    // 1 0000 0001: the middle chunk is skipped and the power only drops after
    // a written chunk, so the last chunk is still marked as one myriad.
    assert_eq!(to_greek_lowercase(100_000_001), "βΜα\u{374}, αΜα\u{374}");
}

#[test]
fn thousands_digit_suppresses_closing_keraia() {
    assert_eq!(to_greek_lowercase(1_000), "͵α");
    assert_eq!(to_greek_lowercase(999), "ϡϙθ\u{374}");
    assert_eq!(to_greek_uppercase(999), "ϠϞΘ\u{374}");
    assert_eq!(to_greek_lowercase(10_000), "αΜα\u{374}");
}

#[test]
fn largest_value_has_five_chunks() {
    // 1844 6744 0737 0955 1615
    assert_eq!(
        to_greek_lowercase(usize::MAX),
        "δΜ͵αωμδ, γΜ͵ϛψμδ, βΜψλζ\u{374}, αΜϡνε\u{374}, ͵αχιε"
    );
}

#[test]
fn closing_keraia_is_the_greek_numeral_sign() {
    let last = to_greek_lowercase(1).chars().last();
    assert_eq!(last, Some('\u{374}'));
    assert_ne!(last, Some('\u{2B9}'));
    assert_eq!(to_greek_lowercase(5683).chars().next(), Some('\u{375}'));
}

#[test]
fn skipped_zero_chunk_makes_two_numbers_agree() {
    assert_eq!(to_greek_uppercase(100_000_001), "βΜΑ\u{374}, αΜΑ\u{374}");
    assert_eq!(to_greek_uppercase(100_010_000), to_greek_uppercase(100_000_001));
}

#[test]
fn separators_follow_base_ten_thousand_digits() {
    for &n in &[1usize, 10_000, 10_001, 97_554, 100_000_001, 2_056_839_184, usize::MAX] {
        let mut m = n;
        let mut nonzero = 0usize;
        while m > 0 {
            if m % 10_000 != 0 {
                nonzero += 1;
            }
            m /= 10_000;
        }
        assert_eq!(to_greek_lowercase(n).matches(", ").count() + 1, nonzero);
    }
}
