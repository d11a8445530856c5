use csdigit::{
    decode_digits,
    generate_csd_multiplier, longest_repeated_substring, to_csd_i, to_csdnnz_i, MultiplierError,
};

fn value_of(s: &str) -> i64 {
    let mut v: i64 = 0;
    for c in s.chars() {
        v *= 2;
        match c {
            '+' => v += 1,
            '-' => v -= 1,
            _ => {}
        }
    }
    v
}

fn is_canonical(s: &str) -> bool {
    let c: Vec<char> = s.chars().collect();
    c.windows(2).all(|w| w[0] == '0' || w[1] == '0')
}

fn nonzero_count(s: &str) -> usize {
    s.chars().filter(|&c| c != '0').count()
}

/// Odd magnitudes whose truncated `3|v|/2` is a power of two of at least 2.
fn width_falls_short(v: i32) -> bool {
    let a = (v as i64).abs();
    let x = a * 3 / 2;
    a % 2 == 1 && x >= 2 && (x & (x - 1)) == 0
}

#[test]
fn test_to_csd_i() {
    assert_eq!(to_csd_i(28), "+00-00");
    assert_eq!(to_csd_i(0), "0");
}

#[test]
fn test_to_csdnnz_i() {
    assert_eq!(to_csdnnz_i(28, 4), "+00-00");
    assert_eq!(to_csdnnz_i(0, 4), "0");
    assert_eq!(to_csdnnz_i(37, 2), "+00+00");
    assert_eq!(to_csdnnz_i(158, 2), "+0+00000");
}

#[test]
fn test_longest_repeated_substring() {
    assert_eq!(longest_repeated_substring("+-00+-00+-00+-0"), "+-00+-0");
}

#[test]
fn test_generate_csd_multiplier() {
    let verilog = generate_csd_multiplier("+00-00+0", 8, 7).unwrap();
    assert!(verilog.contains("module csd_multiplier"));
    assert!(verilog.contains("input signed [7:0] x"));
    assert!(verilog.contains("output signed [14:0] result"));
}

#[test]
fn int_encoder_negative_and_small() {
    assert_eq!(to_csd_i(-28), "-00+00");
    assert_eq!(to_csd_i(2), "+0");
    assert_eq!(to_csd_i(1), "");
    assert_eq!(to_csd_i(-1), "");
    assert_eq!(to_csd_i(3), "++");
    assert_eq!(to_csd_i(11), "++0-");
}

#[test]
fn int_encoder_extremes() {
    let hi = to_csd_i(i32::MAX);
    assert_eq!(hi.len(), 32);
    assert_eq!(value_of(&hi), i32::MAX as i64);
    assert!(is_canonical(&hi));
    let lo = to_csd_i(i32::MIN);
    assert_eq!(lo.len(), 32);
    assert_eq!(value_of(&lo), i32::MIN as i64);
    assert!(is_canonical(&lo));
}

#[test]
fn int_encoder_value_and_canonical_over_a_range() {
    for v in -2000..=2000 {
        let s = to_csd_i(v);
        if v != 1 && v != -1 {
            assert_eq!(value_of(&s), v as i64, "value of {}", v);
        }
        assert_eq!(is_canonical(&s), !width_falls_short(v), "canonical form of {}", v);
    }
}

#[test]
fn bounded_int_encoder_budget() {
    assert_eq!(to_csdnnz_i(28, 1), "+00000");
    assert_eq!(to_csdnnz_i(28, 0), "000000");
    assert_eq!(to_csdnnz_i(28, -3), "000000");
    assert_eq!(to_csdnnz_i(0, 0), "0");
    for v in -500..=500 {
        for k in 0..5 {
            let s = to_csdnnz_i(v, k);
            assert!(nonzero_count(&s) <= k as usize, "budget of {} for {}", k, v);
            if !width_falls_short(v) || k <= 1 {
                assert!(is_canonical(&s), "canonical form of {} with budget {}", v, k);
            }
        }
        assert_eq!(to_csdnnz_i(v, 40), to_csd_i(v));
    }
}

#[test]
fn repeated_substring_edges() {
    assert_eq!(longest_repeated_substring(""), "");
    assert_eq!(longest_repeated_substring("+-0"), "");
    assert_eq!(longest_repeated_substring("aaaa"), "aa");
    assert_eq!(longest_repeated_substring("aaa"), "a");
    assert_eq!(longest_repeated_substring("aXaYbZb"), "a");
    assert_eq!(longest_repeated_substring("+0-+0-"), "+0-");
}

#[test]
fn multiplier_full_text() {
    let text = generate_csd_multiplier("+00-00+0", 8, 7).unwrap();
    let expected = "\nmodule csd_multiplier (\n    input signed [7:0] x,      // Input value\n    output signed [14:0] result // Result of multiplication\n);\n\n    // Create shifted versions of input\n    wire signed [14:0] x_shift7 = x <<< 7;\n    wire signed [14:0] x_shift4 = x <<< 4;\n    wire signed [14:0] x_shift1 = x <<< 1;\n\n    // CSD implementation\n    assign result = x_shift7 - x_shift4 + x_shift1;\nendmodule\n";
    assert_eq!(text, expected);
}

#[test]
fn multiplier_without_terms() {
    let text = generate_csd_multiplier("000", 4, 2).unwrap();
    assert!(text.contains("input signed [3:0] x"));
    assert!(text.contains("output signed [5:0] result"));
    assert!(text.contains("\n    assign result = 0;"));
    assert!(!text.contains("wire"));
}

#[test]
fn multiplier_wide_numbers() {
    let text = generate_csd_multiplier("-0000000000+", 16, 11).unwrap();
    assert!(text.contains("input signed [15:0] x"));
    assert!(text.contains("output signed [26:0] result"));
    assert!(text.contains("wire signed [26:0] x_shift11 = x <<< 11;"));
    assert!(text.contains("assign result = x_shift11 + x_shift0;"));
}

#[test]
fn multiplier_rejects_bad_input() {
    assert_eq!(
        generate_csd_multiplier("+00-", 8, 7),
        Err(MultiplierError::LengthMismatch)
    );
    assert_eq!(
        generate_csd_multiplier("+00x00+0", 8, 7),
        Err(MultiplierError::InvalidDigit)
    );
}

#[test]
fn decode_digits_splits_at_the_point() {
    assert_eq!(
        decode_digits("+00-00.+"),
        Some((vec![1, 0, 0, -1, 0, 0], vec![1]))
    );
    assert_eq!(decode_digits("0.-"), Some((vec![0], vec![-1])));
    assert_eq!(decode_digits("0.+0"), Some((vec![0], vec![1, 0])));
    assert_eq!(decode_digits("0"), Some((vec![0], vec![])));
    assert_eq!(decode_digits("."), Some((vec![], vec![])));
    assert_eq!(decode_digits(""), Some((vec![], vec![])));
}

#[test]
fn decode_digits_unknown_characters_and_two_points() {
    assert_eq!(decode_digits("+x-"), Some((vec![1, 0, -1], vec![])));
    assert_eq!(decode_digits("+.x"), Some((vec![1], vec![0])));
    assert_eq!(decode_digits("1.2.3"), None);
    assert_eq!(decode_digits(".."), None);
}

#[test]
fn decode_digits_of_int_encodings() {
    for v in [28, -28, 37, 158, 1000, i32::MAX, i32::MIN] {
        let (integral, fractional) = decode_digits(&to_csd_i(v)).unwrap();
        assert!(fractional.is_empty());
        let value = integral.iter().fold(0i64, |acc, &d| acc * 2 + d as i64);
        assert_eq!(value, v as i64);
    }
}
