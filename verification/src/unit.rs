//! Processing of one file-pair unit.
//!
//! A unit is a pair of parallel record streams, given as decoded lines:
//! the fundamental-discriminant side and the ell-squared-index side.
//! Lines are matched by position; a position where either side fails to
//! parse is skipped whole, advancing nothing.  A matched record first
//! raises a desynchronization warning when the two declared distances
//! differ, then advances the running discriminant by the
//! fundamental-side distance scaled by the modulus (in wrapping `i64`
//! arithmetic, as the discriminant is observational only), and finally
//! contributes to the counters: for every exponent `n` from 1 to the
//! largest valuation on either side where the fundamental side carries
//! an `ell^n` factor, the with-factor counters at `n` and at `(n,
//! kronecker)` grow by one, and the with-growth counters grow by one
//! when the active policy reports growth.  The shorter stream ends the
//! unit.

use vstd::prelude::*;

verus! {

use vstd::wrapping::i64_specs;
use crate::counters::{
    AggView, FileResults, agg_bounded, cnt, empty_agg, lemma_bounded_can_merge, merge_view,
};
use crate::parse::{
    EllRecordView, FundRecordView, parse_ell_line, parse_fundamental_line, seq_views,
    spec_parse_ell, spec_parse_fundamental,
};
use crate::policy::{Policy, classify, growth_of};
use crate::profile::{
    count_in, count_val, ell_profile, max_val, max_valuation, profile_spec, count_factor,
};

/// A stream-desynchronization warning: the two sides declared different
/// distances at the same position.  `discriminant` is the value tracked
/// before the record advanced it.
#[derive(Clone, Copy)]
pub struct DesyncWarning {
    pub discriminant: i64,
    pub dist_fund: i64,
    pub dist_ell: i64,
}

/// One growth event, collected only in verbose runs for diagnostics.
pub struct GrowthEvent {
    pub discriminant: i64,
    pub n: u32,
    pub kron: i8,
    pub fund_profile: Vec<u32>,
    pub ell_profile: Vec<u32>,
}

pub ghost struct GrowthEventView {
    pub discriminant: i64,
    pub n: u32,
    pub kron: i8,
    pub fund_profile: Seq<u32>,
    pub ell_profile: Seq<u32>,
}

impl View for GrowthEvent {
    type V = GrowthEventView;

    open spec fn view(&self) -> GrowthEventView {
        GrowthEventView {
            discriminant: self.discriminant,
            n: self.n,
            kron: self.kron,
            fund_profile: self.fund_profile@,
            ell_profile: self.ell_profile@,
        }
    }
}

pub open spec fn events_view(s: Seq<GrowthEvent>) -> Seq<GrowthEventView> {
    s.map_values(|e: GrowthEvent| e@)
}

/// Everything one unit produces: its aggregate, the desynchronization
/// warnings, and (in verbose runs) the growth events.
pub struct UnitOutcome {
    pub results: FileResults,
    pub warnings: Vec<DesyncWarning>,
    pub events: Vec<GrowthEvent>,
}

/// The abstract state the unit fold runs over.
pub ghost struct UnitView {
    pub agg: AggView,
    pub d: i64,
    pub warnings: Seq<DesyncWarning>,
    pub events: Seq<GrowthEventView>,
}

/// Code of a Kronecker symbol inside a combined counter key: the
/// symbol's byte value, so distinct symbols get distinct codes below
/// 256.
pub open spec fn kron_code(k: i8) -> u64 {
    if k >= 0 {
        k as u64
    } else {
        (k + 256) as u64
    }
}

/// Combined counter key for exponent `n` and Kronecker symbol `k`.
pub open spec fn nk_key(n: int, k: i8) -> u64 {
    (n * 256 + kron_code(k)) as u64
}

pub fn kron_code_exec(k: i8) -> (r: u64)
    ensures
        r == kron_code(k),
        r < 256,
{
    if k >= 0 {
        k as u64
    } else {
        ((k as i64) + 256) as u64
    }
}

/// Growth decision for a matched record at exponent `n`, straight over
/// the valuation counts of the two invariant lists.
pub open spec fn growth_at(
    f_invs: Seq<u64>,
    e_invs: Seq<u64>,
    ell: u64,
    n: int,
    mode: Policy,
) -> bool {
    growth_of(
        count_val(f_invs, ell, n),
        count_val(f_invs, ell, n + 1),
        count_val(e_invs, ell, n),
        count_val(e_invs, ell, n + 1),
        mode,
    )
}

/// Largest valuation on either side of a matched record.
pub open spec fn pair_max(f_invs: Seq<u64>, e_invs: Seq<u64>, ell: u64) -> int {
    let fm = max_val(f_invs, ell) as int;
    let em = max_val(e_invs, ell) as int;
    if fm > em {
        fm
    } else {
        em
    }
}

/// By-exponent counter contributions of one matched record: one
/// with-factor count at every exponent `1 <= n <= hi` where the
/// fundamental side carries an `ell^n` factor, and one with-growth
/// count where the policy reports growth.
pub open spec fn delta_by_n(
    f_invs: Seq<u64>,
    e_invs: Seq<u64>,
    ell: u64,
    mode: Policy,
    hi: int,
) -> Map<u64, (nat, nat)> {
    Map::new(
        |k: u64| 1 <= k <= hi && count_val(f_invs, ell, k as int) > 0,
        |k: u64|
            (
                1nat,
                if growth_at(f_invs, e_invs, ell, k as int, mode) {
                    1nat
                } else {
                    0nat
                },
            ),
    )
}

/// The same contributions keyed by exponent and Kronecker symbol.
pub open spec fn delta_by_nk(
    f_invs: Seq<u64>,
    e_invs: Seq<u64>,
    ell: u64,
    mode: Policy,
    hi: int,
    kron: i8,
) -> Map<u64, (nat, nat)> {
    Map::new(
        |k: u64|
            k % 256 == kron_code(kron) && 1 <= k / 256 <= hi && count_val(
                f_invs,
                ell,
                (k / 256) as int,
            ) > 0,
        |k: u64|
            (
                1nat,
                if growth_at(f_invs, e_invs, ell, (k / 256) as int, mode) {
                    1nat
                } else {
                    0nat
                },
            ),
    )
}

/// The whole counter contribution of one matched record.
pub open spec fn record_delta(fr: FundRecordView, er: EllRecordView, ell: u64, mode: Policy) -> AggView {
    let hi = pair_max(fr.invariants, er.invariants, ell);
    AggView {
        total: 1,
        by_n: delta_by_n(fr.invariants, er.invariants, ell, mode, hi),
        by_n_kron: delta_by_nk(fr.invariants, er.invariants, ell, mode, hi, er.kron),
    }
}

/// The growth events of one matched record for exponents below `n`, in
/// ascending order of exponent; `d` is the discriminant after the
/// record advanced it.
pub open spec fn record_events(
    fr: FundRecordView,
    er: EllRecordView,
    ell: u64,
    mode: Policy,
    d: i64,
    n: int,
) -> Seq<GrowthEventView>
    decreases n,
{
    if n <= 1 {
        Seq::empty()
    } else {
        let prev = record_events(fr, er, ell, mode, d, n - 1);
        if count_val(fr.invariants, ell, n - 1) > 0 && growth_at(
            fr.invariants,
            er.invariants,
            ell,
            n - 1,
            mode,
        ) {
            prev.push(
                GrowthEventView {
                    discriminant: d,
                    n: (n - 1) as u32,
                    kron: er.kron,
                    fund_profile: profile_spec(fr.invariants, ell),
                    ell_profile: profile_spec(er.invariants, ell),
                },
            )
        } else {
            prev
        }
    }
}

/// One position of the two streams: skip if either side fails to parse;
/// otherwise warn on a distance mismatch, advance the discriminant by
/// the fundamental-side distance scaled by the modulus, and fold in the
/// record's counters and (verbose only) events.
pub open spec fn step_record(
    st: UnitView,
    fl: Seq<u8>,
    el: Seq<u8>,
    ell: u64,
    m: i64,
    mode: Policy,
    verbose: bool,
) -> UnitView {
    match (spec_parse_fundamental(fl), spec_parse_ell(el)) {
        (Some(fr), Some(er)) => {
            let warnings = if fr.dist != er.dist {
                st.warnings.push(
                    DesyncWarning { discriminant: st.d, dist_fund: fr.dist, dist_ell: er.dist },
                )
            } else {
                st.warnings
            };
            let d = i64_specs::wrapping_add(st.d, i64_specs::wrapping_mul(fr.dist, m));
            let hi = pair_max(fr.invariants, er.invariants, ell);
            let events = if verbose {
                st.events + record_events(fr, er, ell, mode, d, hi + 1)
            } else {
                st.events
            };
            UnitView {
                agg: merge_view(st.agg, record_delta(fr, er, ell, mode)),
                d,
                warnings,
                events,
            }
        },
        _ => st,
    }
}

/// Fold of `step_record` over the matched positions from `i` on; the
/// shorter stream ends the unit.
pub open spec fn run_from(
    st: UnitView,
    fls: Seq<Seq<u8>>,
    els: Seq<Seq<u8>>,
    i: int,
    ell: u64,
    m: i64,
    mode: Policy,
    verbose: bool,
) -> UnitView
    decreases fls.len() + els.len() - i,
{
    let lim = if fls.len() <= els.len() {
        fls.len() as int
    } else {
        els.len() as int
    };
    if i < 0 || i >= lim {
        st
    } else {
        run_from(
            step_record(st, fls[i], els[i], ell, m, mode, verbose),
            fls,
            els,
            i + 1,
            ell,
            m,
            mode,
            verbose,
        )
    }
}

/// Starting discriminant of a unit, in wrapping `i64` arithmetic:
/// `index * d_total * m + a`.
pub open spec fn start_disc(index: i64, d_total: i64, m: i64, a: i64) -> i64 {
    i64_specs::wrapping_add(i64_specs::wrapping_mul(i64_specs::wrapping_mul(index, d_total), m), a)
}

/// What processing one unit yields, from empty state.
pub open spec fn spec_process_unit(
    fls: Seq<Seq<u8>>,
    els: Seq<Seq<u8>>,
    a: i64,
    m: i64,
    ell: u64,
    index: i64,
    d_total: i64,
    verbose: bool,
    mode: Policy,
) -> UnitView {
    run_from(
        UnitView {
            agg: empty_agg(),
            d: start_disc(index, d_total, m, a),
            warnings: Seq::empty(),
            events: Seq::empty(),
        },
        fls,
        els,
        0,
        ell,
        m,
        mode,
        verbose,
    )
}

/// Process one file pair: match the two line streams position by
/// position and aggregate the classification outcomes.
pub fn process_file_pair(
    fund_lines: &Vec<Vec<u8>>,
    ell_lines: &Vec<Vec<u8>>,
    a: i64,
    m: i64,
    ell: u64,
    index: i64,
    d_total: i64,
    verbose: bool,
    mode: Policy,
) -> (out: UnitOutcome)
    ensures
        out.results.wf(),
        agg_bounded(out.results@),
        ({
            let spec = spec_process_unit(
                seq_views(fund_lines@),
                seq_views(ell_lines@),
                a,
                m,
                ell,
                index,
                d_total,
                verbose,
                mode,
            );
            &&& out.results@ == spec.agg
            &&& out.warnings@ == spec.warnings
            &&& events_view(out.events@) == spec.events
        }),
{
    let ghost fls = seq_views(fund_lines@);
    let ghost els = seq_views(ell_lines@);
    let ghost total_spec = spec_process_unit(fls, els, a, m, ell, index, d_total, verbose, mode);
    let mut results = FileResults::new();
    let mut warnings: Vec<DesyncWarning> = Vec::new();
    let mut events: Vec<GrowthEvent> = Vec::new();
    let mut d: i64 = index.wrapping_mul(d_total).wrapping_mul(m).wrapping_add(a);
    let lim: usize = if fund_lines.len() <= ell_lines.len() {
        fund_lines.len()
    } else {
        ell_lines.len()
    };
    let mut i: usize = 0;
    proof {
        assert(events_view(events@) =~= Seq::<GrowthEventView>::empty());
    }
    while i < lim
        invariant
            fls == seq_views(fund_lines@),
            els == seq_views(ell_lines@),
            lim == if fls.len() <= els.len() {
                fls.len()
            } else {
                els.len()
            },
            i <= lim,
            results.wf(),
            agg_bounded(results@),
            results@.total <= i,
            total_spec == run_from(
                UnitView { agg: results@, d, warnings: warnings@, events: events_view(events@) },
                fls,
                els,
                i as int,
                ell,
                m,
                mode,
                verbose,
            ),
        decreases lim - i,
    {
        let ghost st = UnitView {
            agg: results@,
            d,
            warnings: warnings@,
            events: events_view(events@),
        };
        proof {
            assert(fls[i as int] == fund_lines@[i as int]@);
            assert(els[i as int] == ell_lines@[i as int]@);
        }
        let fopt = parse_fundamental_line(&fund_lines[i]);
        let eopt = parse_ell_line(&ell_lines[i]);
        match (fopt, eopt) {
            (Some(fr), Some(er)) => {
                proof {
                    assert(spec_parse_fundamental(fls[i as int]) == Some(fr@));
                    assert(spec_parse_ell(els[i as int]) == Some(er@));
                }
                if fr.dist != er.dist {
                    warnings.push(
                        DesyncWarning { discriminant: d, dist_fund: fr.dist, dist_ell: er.dist },
                    );
                }
                d = d.wrapping_add(fr.dist.wrapping_mul(m));
                let fmax = max_valuation(&fr.invariants, ell);
                let emax = max_valuation(&er.invariants, ell);
                let hi: u32 = if fmax > emax {
                    fmax
                } else {
                    emax
                };
                let fp = ell_profile(&fr.invariants, ell);
                let ep = ell_profile(&er.invariants, ell);
                let kc = kron_code_exec(er.kron);
                let mut delta = FileResults::new();
                delta.total = 1;
                let ghost pre_events = events_view(events@);
                proof {
                    assert(delta.by_n@ =~= delta_by_n(fr@.invariants, er@.invariants, ell, mode, 0));
                    assert(delta.by_n_kron@ =~= delta_by_nk(
                        fr@.invariants,
                        er@.invariants,
                        ell,
                        mode,
                        0,
                        er.kron,
                    ));
                    assert(record_events(fr@, er@, ell, mode, d, 1) =~= Seq::<GrowthEventView>::empty());
                }
                let mut n: u32 = 1;
                while n <= hi
                    invariant
                        hi <= 63,
                        1 <= n <= hi + 1,
                        hi as int == pair_max(fr@.invariants, er@.invariants, ell),
                        fp@ == profile_spec(fr@.invariants, ell),
                        ep@ == profile_spec(er@.invariants, ell),
                        forall|v: int|
                            v >= 1 ==> count_in(fp@, v) == count_val(fr@.invariants, ell, v),
                        forall|v: int|
                            v >= 1 ==> count_in(ep@, v) == count_val(er@.invariants, ell, v),
                        kc == kron_code(er.kron),
                        kc < 256,
                        delta.wf(),
                        delta@.total == 1,
                        delta.by_n@ == delta_by_n(
                            fr@.invariants,
                            er@.invariants,
                            ell,
                            mode,
                            n as int - 1,
                        ),
                        delta.by_n_kron@ == delta_by_nk(
                            fr@.invariants,
                            er@.invariants,
                            ell,
                            mode,
                            n as int - 1,
                            er.kron,
                        ),
                        events_view(events@) == if verbose {
                            pre_events + record_events(fr@, er@, ell, mode, d, n as int)
                        } else {
                            pre_events
                        },
                    decreases hi + 1 - n,
                {
                    let fcount = count_factor(&fp, n);
                    if fcount > 0 {
                        let g = classify(&fp, &ep, n, mode);
                        proof {
                            assert(g == growth_at(
                                fr@.invariants,
                                er@.invariants,
                                ell,
                                n as int,
                                mode,
                            ));
                            assert(!delta.by_n@.dom().contains(n as u64));
                            let nk = nk_key(n as int, er.kron);
                            assert(nk == (n as u64) * 256 + kc);
                            assert(nk / 256 == n as int && nk % 256 == kc);
                            assert(!delta.by_n_kron@.dom().contains(nk));
                        }
                        delta.by_n.bump(n as u64, g);
                        delta.by_n_kron.bump((n as u64) * 256 + kc, g);
                        proof {
                            assert(delta.by_n@ =~= delta_by_n(
                                fr@.invariants,
                                er@.invariants,
                                ell,
                                mode,
                                n as int,
                            ));
                            assert forall|k: u64|
                                delta_by_nk(
                                    fr@.invariants,
                                    er@.invariants,
                                    ell,
                                    mode,
                                    n as int,
                                    er.kron,
                                ).dom().contains(k) <==> delta.by_n_kron@.dom().contains(k) by {
                                vstd::arithmetic::div_mod::lemma_fundamental_div_mod(
                                    k as int,
                                    256,
                                );
                            }
                            assert(delta.by_n_kron@ =~= delta_by_nk(
                                fr@.invariants,
                                er@.invariants,
                                ell,
                                mode,
                                n as int,
                                er.kron,
                            ));
                        }
                        if verbose && g {
                            let efp = ell_profile(&fr.invariants, ell);
                            let eep = ell_profile(&er.invariants, ell);
                            events.push(
                                GrowthEvent {
                                    discriminant: d,
                                    n,
                                    kron: er.kron,
                                    fund_profile: efp,
                                    ell_profile: eep,
                                },
                            );
                            proof {
                                assert(events_view(events@) =~= (pre_events + record_events(
                                    fr@,
                                    er@,
                                    ell,
                                    mode,
                                    d,
                                    n as int,
                                )).push(events@.last()@));
                                assert(events_view(events@) =~= pre_events + record_events(
                                    fr@,
                                    er@,
                                    ell,
                                    mode,
                                    d,
                                    n as int + 1,
                                ));
                            }
                        }
                    } else {
                        proof {
                            assert(delta.by_n@ =~= delta_by_n(
                                fr@.invariants,
                                er@.invariants,
                                ell,
                                mode,
                                n as int,
                            ));
                            assert forall|k: u64|
                                delta_by_nk(
                                    fr@.invariants,
                                    er@.invariants,
                                    ell,
                                    mode,
                                    n as int,
                                    er.kron,
                                ).dom().contains(k) <==> delta.by_n_kron@.dom().contains(k) by {
                                vstd::arithmetic::div_mod::lemma_fundamental_div_mod(
                                    k as int,
                                    256,
                                );
                            }
                            assert(delta.by_n_kron@ =~= delta_by_nk(
                                fr@.invariants,
                                er@.invariants,
                                ell,
                                mode,
                                n as int,
                                er.kron,
                            ));
                        }
                    }
                    n = n + 1;
                }
                proof {
                    assert(delta@ == record_delta(fr@, er@, ell, mode));
                    assert(agg_bounded(delta@)) by {
                        assert(forall|k: u64|
                            #![trigger cnt(delta@.by_n, k)]
                            cnt(delta@.by_n, k).0 <= 1 && cnt(delta@.by_n, k).1 <= cnt(
                                delta@.by_n,
                                k,
                            ).0);
                        assert(forall|k: u64|
                            #![trigger cnt(delta@.by_n_kron, k)]
                            cnt(delta@.by_n_kron, k).0 <= 1 && cnt(delta@.by_n_kron, k).1 <= cnt(
                                delta@.by_n_kron,
                                k,
                            ).0);
                    }
                    assert(results@.total + delta@.total <= u64::MAX);
                    lemma_bounded_can_merge(results@, delta@);
                }
                results.merge(&delta);
                proof {
                    assert(UnitView {
                        agg: results@,
                        d,
                        warnings: warnings@,
                        events: events_view(events@),
                    } == step_record(st, fls[i as int], els[i as int], ell, m, mode, verbose));
                }
            },
            _ => {
                proof {
                    assert(step_record(st, fls[i as int], els[i as int], ell, m, mode, verbose)
                        == st);
                }
            },
        }
        i = i + 1;
    }
    UnitOutcome { results, warnings, events }
}

} // verus!
