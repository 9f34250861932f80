use ell_growth::counters::{merge_all, FileResults};
use ell_growth::policy::Policy;
use ell_growth::unit::{kron_code_exec, process_file_pair, UnitOutcome};

fn lines(ls: &[&str]) -> Vec<Vec<u8>> {
    ls.iter().map(|s| s.as_bytes().to_vec()).collect()
}

fn run(fund: &[&str], ell_side: &[&str], mode: Policy) -> UnitOutcome {
    process_file_pair(&lines(fund), &lines(ell_side), 8, 16, 2, 0, 0, true, mode)
}

fn nk(n: u32, kron: i8) -> u64 {
    (n as u64) * 256 + kron_code_exec(kron)
}

#[test]
fn scenario_one_counts_by_exponent() {
    // Fundamental invariants [4, 2] (profile [2, 1]); ell-squared side
    // [8] (profile [3]).  Both exponents carry a factor; at n=1 nothing
    // grew, at n=2 the single ell^2 factor was promoted to ell^3, which
    // Strict reports.  No factor is counted at n=3.
    let out = run(&["0 5 4 2"], &["0 1 8"], Policy::Strict);
    assert_eq!(out.results.total, 1);
    assert_eq!(out.results.by_n.get(1), (1, 0));
    assert_eq!(out.results.by_n.get(2), (1, 1));
    assert_eq!(out.results.by_n.get(3), (0, 0));
    assert_eq!(out.results.by_n_kron.get(nk(1, 1)), (1, 0));
    assert_eq!(out.results.by_n_kron.get(nk(2, 1)), (1, 1));
    assert_eq!(out.events.len(), 1);
    assert_eq!(out.events[0].n, 2);
    assert!(out.warnings.is_empty());
}

#[test]
fn scenario_two_growth_under_every_mode() {
    // Fundamental invariants [2] (profile [1]); ell-squared side [4]
    // (profile [2]): growth at exponent 1 under all three policies.
    for mode in [Policy::Strict, Policy::Any, Policy::Net] {
        let out = run(&["0 1 2"], &["0 1 4"], mode);
        assert_eq!(out.results.total, 1);
        assert_eq!(out.results.by_n.get(1), (1, 1));
        assert_eq!(out.results.by_n_kron.get(nk(1, 1)), (1, 1));
        assert_eq!(out.events.len(), 1);
        assert_eq!(out.events[0].n, 1);
        assert_eq!(out.events[0].kron, 1);
        assert_eq!(out.events[0].fund_profile, vec![1]);
        assert_eq!(out.events[0].ell_profile, vec![2]);
    }
}

#[test]
fn malformed_line_skipped_without_advancing() {
    // The first fundamental-side line has a single field: the position
    // is skipped whole, neither counting a record nor advancing the
    // discriminant.  The second record then shows growth; its event
    // carries the unmoved starting discriminant 8.
    let out = process_file_pair(
        &lines(&["7", "0 3 2"]),
        &lines(&["0 1 4", "0 1 4"]),
        8,
        16,
        2,
        0,
        0,
        true,
        Policy::Strict,
    );
    assert_eq!(out.results.total, 1);
    assert_eq!(out.results.by_n.get(1), (1, 1));
    assert_eq!(out.events.len(), 1);
    assert_eq!(out.events[0].discriminant, 8);
}

#[test]
fn desync_warning_surfaced_and_processing_continues() {
    let out = run(&["5 1 2"], &["3 1 4"], Policy::Strict);
    assert_eq!(out.warnings.len(), 1);
    assert_eq!(out.warnings[0].discriminant, 8);
    assert_eq!(out.warnings[0].dist_fund, 5);
    assert_eq!(out.warnings[0].dist_ell, 3);
    // The discriminant advances by the fundamental-side distance only,
    // scaled by the modulus: 8 + 5 * 16 = 88.
    assert_eq!(out.events.len(), 1);
    assert_eq!(out.events[0].discriminant, 88);
    assert_eq!(out.results.by_n.get(1), (1, 1));
}

#[test]
fn empty_profiles_still_count_the_record() {
    // Invariants [3, 5, 7] have no even factor: both profiles are
    // empty, no exponent is examined, the record still counts.
    let out = run(&["0 1 3 5 7"], &["0 1 3"], Policy::Strict);
    assert_eq!(out.results.total, 1);
    assert_eq!(out.results.by_n.get(1), (0, 0));
    assert!(out.events.is_empty());
}

#[test]
fn shorter_stream_ends_the_unit() {
    let out = run(&["0 1 2", "1 1 2"], &["0 1 4"], Policy::Strict);
    assert_eq!(out.results.total, 1);
}

#[test]
fn start_discriminant_formula() {
    // index * d_total * m + a = 2 * 10 * 16 + 8 = 328.
    let out = process_file_pair(
        &lines(&["0 1 2"]),
        &lines(&["0 1 4"]),
        8,
        16,
        2,
        2,
        10,
        true,
        Policy::Strict,
    );
    assert_eq!(out.events.len(), 1);
    assert_eq!(out.events[0].discriminant, 328);
}

#[test]
fn verbose_gates_events_only() {
    let quiet = process_file_pair(
        &lines(&["0 1 2"]),
        &lines(&["0 1 4"]),
        8,
        16,
        2,
        0,
        0,
        false,
        Policy::Strict,
    );
    assert!(quiet.events.is_empty());
    assert_eq!(quiet.results.total, 1);
    assert_eq!(quiet.results.by_n.get(1), (1, 1));
}

#[test]
fn classification_is_deterministic() {
    let a = run(&["0 1 4 2", "1 0 8"], &["0 -1 8", "1 1 8 2"], Policy::Net);
    let b = run(&["0 1 4 2", "1 0 8"], &["0 -1 8", "1 1 8 2"], Policy::Net);
    assert_eq!(a.results.total, b.results.total);
    for n in 1..=4u32 {
        assert_eq!(a.results.by_n.get(n as u64), b.results.by_n.get(n as u64));
        for kron in [-1i8, 0, 1] {
            assert_eq!(
                a.results.by_n_kron.get(nk(n, kron)),
                b.results.by_n_kron.get(nk(n, kron))
            );
        }
    }
}

fn three_units(mode: Policy) -> Vec<FileResults> {
    let u1 = run(&["0 1 2", "1 1 4 4"], &["0 -1 4", "1 0 8 2"], mode);
    let u2 = run(&["0 2 8", "2 1 2 2"], &["0 1 16", "1 1 4 2"], mode);
    let u3 = run(&["0 1 6 2"], &["0 0 12 4"], mode);
    vec![u1.results, u2.results, u3.results]
}

fn assert_same_aggregate(a: &FileResults, b: &FileResults) {
    assert_eq!(a.total, b.total);
    for n in 1..=6u32 {
        assert_eq!(a.by_n.get(n as u64), b.by_n.get(n as u64));
        for kron in [-1i8, 0, 1] {
            assert_eq!(
                a.by_n_kron.get((n as u64) * 256 + kron_code_exec(kron)),
                b.by_n_kron.get((n as u64) * 256 + kron_code_exec(kron))
            );
        }
    }
}

#[test]
fn merge_order_does_not_matter() {
    for mode in [Policy::Strict, Policy::Any, Policy::Net] {
        let units = three_units(mode);
        let mut shuffled = three_units(mode);
        shuffled.rotate_left(1);
        shuffled.swap(0, 1);
        let grand = merge_all(&units);
        let grand_shuffled = merge_all(&shuffled);
        assert_same_aggregate(&grand, &grand_shuffled);
        assert_eq!(grand.total, 5);
    }
}

#[test]
fn merge_sums_pointwise() {
    let units = three_units(Policy::Any);
    let grand = merge_all(&units);
    for n in 1..=6u32 {
        let summed = units.iter().map(|u| u.by_n.get(n as u64)).fold(
            (0u64, 0u64),
            |acc, c| (acc.0 + c.0, acc.1 + c.1),
        );
        assert_eq!(grand.by_n.get(n as u64), summed);
    }
}

#[test]
fn merge_with_empty_unit_is_identity() {
    let unit = run(&["0 1 4 2"], &["0 1 8"], Policy::Strict);
    let empty = FileResults::new();
    let merged = merge_all(&vec![unit.results, empty]);
    let alone = run(&["0 1 4 2"], &["0 1 8"], Policy::Strict);
    assert_same_aggregate(&merged, &alone.results);
}
