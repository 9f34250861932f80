use ell_growth::parse::{parse_ell_line, parse_fundamental_line, parse_i8_token, parse_i64_token, parse_u64_token};
use ell_growth::policy::{classify, parse_mode, Policy};
use ell_growth::profile::{count_factor, ell_profile, ell_valuation};
use ell_growth::{congruence_classes, validate_config, ConfigError};

fn bytes(s: &str) -> Vec<u8> {
    s.as_bytes().to_vec()
}

#[test]
fn valuation_zero_and_powers() {
    assert_eq!(ell_valuation(0, 2), 0);
    assert_eq!(ell_valuation(1, 2), 0);
    assert_eq!(ell_valuation(8, 2), 3);
    assert_eq!(ell_valuation(12, 2), 2);
    assert_eq!(ell_valuation(7, 2), 0);
    assert_eq!(ell_valuation(243, 3), 5);
    assert_eq!(ell_valuation(u64::MAX, 2), 0);
    assert_eq!(ell_valuation(1 << 63, 2), 63);
}

#[test]
fn small_base_is_guarded() {
    // A base below 2 would divide forever; it yields no valuations.
    assert_eq!(ell_valuation(8, 1), 0);
    assert_eq!(ell_valuation(8, 0), 0);
    assert_eq!(ell_profile(&vec![4, 2], 1), Vec::<u32>::new());
    assert_eq!(ell_profile(&vec![4, 2], 0), Vec::<u32>::new());
}

#[test]
fn profile_of_scenario_one() {
    assert_eq!(ell_profile(&vec![4, 2], 2), vec![2, 1]);
    assert_eq!(ell_profile(&vec![8], 2), vec![3]);
}

#[test]
fn profile_of_scenario_two() {
    assert_eq!(ell_profile(&vec![2], 2), vec![1]);
    assert_eq!(ell_profile(&vec![4], 2), vec![2]);
}

#[test]
fn profile_drops_non_multiples() {
    assert_eq!(ell_profile(&vec![3, 5, 7], 2), Vec::<u32>::new());
    assert_eq!(ell_profile(&Vec::new(), 2), Vec::<u32>::new());
}

#[test]
fn profile_sorted_descending_no_zeros() {
    let p = ell_profile(&vec![6, 12, 8, 5, 7], 2);
    assert_eq!(p, vec![3, 2, 1]);
    let q = ell_profile(&vec![2, 10, 6, 24, 9], 2);
    assert_eq!(q, vec![3, 1, 1, 1]);
    for i in 0..q.len() {
        assert!(q[i] > 0);
        if i + 1 < q.len() {
            assert!(q[i] >= q[i + 1]);
        }
    }
}

#[test]
fn count_factor_absent_is_zero_and_counts_partition() {
    let p = ell_profile(&vec![8, 4, 4, 2], 2);
    assert_eq!(p, vec![3, 2, 2, 1]);
    assert_eq!(count_factor(&p, 2), 2);
    assert_eq!(count_factor(&p, 5), 0);
    assert_eq!(count_factor(&p, 0), 0);
    let mut sum = 0;
    for n in 1..=3 {
        sum += count_factor(&p, n);
    }
    assert_eq!(sum, p.len());
}

#[test]
fn classify_growth_under_all_modes() {
    let fund = vec![1u32];
    let ell = vec![2u32];
    assert!(classify(&fund, &ell, 1, Policy::Strict));
    assert!(classify(&fund, &ell, 1, Policy::Any));
    assert!(classify(&fund, &ell, 1, Policy::Net));
}

#[test]
fn classify_scenario_one_by_exponent() {
    // Profiles [2, 1] and [3]: at n=1 the ell-squared side has no
    // ell^2 factor, so nothing grew; at n=2 it gained an ell^3 factor
    // while the ell^2 factor disappeared, which is Strict growth.
    let fund = vec![2u32, 1];
    let ell = vec![3u32];
    assert!(!classify(&fund, &ell, 1, Policy::Strict));
    assert!(!classify(&fund, &ell, 1, Policy::Any));
    assert!(!classify(&fund, &ell, 1, Policy::Net));
    assert!(classify(&fund, &ell, 2, Policy::Strict));
}

#[test]
fn any_without_strict() {
    // The ell-squared side gains an extra cyclic ell^2 component without
    // losing its ell^1 factor: Any fires, Strict does not.
    let fund = vec![1u32];
    let ell = vec![2u32, 1];
    assert!(classify(&fund, &ell, 1, Policy::Any));
    assert!(!classify(&fund, &ell, 1, Policy::Strict));
}

#[test]
fn strict_implies_any_on_example() {
    let fund = vec![1u32, 1];
    let ell = vec![2u32, 1];
    assert!(classify(&fund, &ell, 1, Policy::Strict));
    assert!(classify(&fund, &ell, 1, Policy::Any));
}

#[test]
fn mode_names() {
    assert_eq!(parse_mode(&bytes("strict")), Policy::Strict);
    assert_eq!(parse_mode(&bytes("any")), Policy::Any);
    assert_eq!(parse_mode(&bytes("net")), Policy::Net);
    assert_eq!(parse_mode(&bytes("loose")), Policy::Strict);
    assert_eq!(parse_mode(&bytes("")), Policy::Strict);
    assert_eq!(parse_mode(&bytes("NET")), Policy::Strict);
}

#[test]
fn parse_fundamental_ok() {
    let r = parse_fundamental_line(&bytes("10 5 4 2")).unwrap();
    assert_eq!(r.dist, 10);
    assert_eq!(r.class_number, 5);
    assert_eq!(r.invariants, vec![4, 2]);
}

#[test]
fn parse_fundamental_single_field_rejected() {
    assert!(parse_fundamental_line(&bytes("7")).is_none());
    assert!(parse_fundamental_line(&bytes("")).is_none());
    assert!(parse_fundamental_line(&bytes("  ")).is_none());
}

#[test]
fn parse_fundamental_non_numeric_rejected() {
    assert!(parse_fundamental_line(&bytes("x 5 4")).is_none());
    assert!(parse_fundamental_line(&bytes("3 y 4")).is_none());
}

#[test]
fn parse_bad_invariant_dropped() {
    let r = parse_fundamental_line(&bytes("0 3 4 x 2")).unwrap();
    assert_eq!(r.invariants, vec![4, 2]);
    let r = parse_fundamental_line(&bytes("0 3 -4 2")).unwrap();
    assert_eq!(r.invariants, vec![2]);
}

#[test]
fn parse_ell_ok() {
    let r = parse_ell_line(&bytes("0 -1 9 3")).unwrap();
    assert_eq!(r.dist, 0);
    assert_eq!(r.kron, -1);
    assert_eq!(r.invariants, vec![9, 3]);
}

#[test]
fn parse_ell_kron_out_of_range_rejected() {
    assert!(parse_ell_line(&bytes("0 128 4")).is_none());
    let r = parse_ell_line(&bytes("0 -128 4")).unwrap();
    assert_eq!(r.kron, -128);
}

#[test]
fn numeric_token_edges() {
    assert_eq!(parse_u64_token(&bytes("+12")), Some(12));
    assert_eq!(parse_u64_token(&bytes("-3")), None);
    assert_eq!(parse_u64_token(&bytes("18446744073709551615")), Some(u64::MAX));
    assert_eq!(parse_u64_token(&bytes("18446744073709551616")), None);
    assert_eq!(parse_u64_token(&bytes("000042")), Some(42));
    assert_eq!(parse_u64_token(&bytes("+")), None);
    assert_eq!(parse_u64_token(&bytes("1 2")), None);
    assert_eq!(parse_i64_token(&bytes("-9223372036854775808")), Some(i64::MIN));
    assert_eq!(parse_i64_token(&bytes("-9223372036854775809")), None);
    assert_eq!(parse_i64_token(&bytes("9223372036854775807")), Some(i64::MAX));
    assert_eq!(parse_i64_token(&bytes("9223372036854775808")), None);
    assert_eq!(parse_i8_token(&bytes("127")), Some(127));
    assert_eq!(parse_i8_token(&bytes("128")), None);
    assert_eq!(parse_i8_token(&bytes("-128")), Some(-128));
    assert_eq!(parse_i8_token(&bytes("--1")), None);
}

#[test]
fn congruence_classes_fixed() {
    assert_eq!(congruence_classes(), vec![(8, 16), (4, 16), (3, 8), (7, 8)]);
}

#[test]
fn config_validation() {
    assert!(validate_config(2, 10).is_ok());
    assert_eq!(validate_config(1, 10), Err(ConfigError::EllTooSmall));
    assert_eq!(validate_config(0, 10), Err(ConfigError::EllTooSmall));
    assert_eq!(validate_config(2, 0), Err(ConfigError::NoFiles));
    assert_eq!(validate_config(3, -1), Err(ConfigError::NoFiles));
}
