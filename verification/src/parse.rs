//! Record parsing.
//!
//! Each record is one line of ASCII text with whitespace-separated
//! fields.  A fundamental-side record is `distance class_number
//! invariant_1 ... invariant_k`; an ell-squared-index-side record is
//! `distance kronecker invariant_1 ... invariant_k`.  A line whose first
//! two fields are missing or non-numeric parses to `None` and is skipped
//! by the caller; an invariant field that fails to parse is dropped,
//! the rest of the line is kept.
//!
//! Numeric fields follow decimal syntax with one optional leading sign
//! (`+` for unsigned values, `+` or `-` for signed ones); a value out of
//! range of the target type fails to parse.

use vstd::prelude::*;

verus! {

/// ASCII whitespace: space, tab, line feed, vertical tab, form feed,
/// carriage return.
pub open spec fn is_ws(b: u8) -> bool {
    b == 32 || b == 9 || b == 10 || b == 11 || b == 12 || b == 13
}

/// The whitespace-separated tokens of `s` from position `i` on, given
/// the token read so far (`cur`) and the tokens already complete (`acc`).
pub open spec fn tokens_from(s: Seq<u8>, i: int, cur: Seq<u8>, acc: Seq<Seq<u8>>) -> Seq<Seq<u8>>
    decreases s.len() - i,
{
    if i < 0 || i >= s.len() {
        if cur.len() > 0 {
            acc.push(cur)
        } else {
            acc
        }
    } else if is_ws(s[i]) {
        tokens_from(
            s,
            i + 1,
            Seq::empty(),
            if cur.len() > 0 {
                acc.push(cur)
            } else {
                acc
            },
        )
    } else {
        tokens_from(s, i + 1, cur.push(s[i]), acc)
    }
}

/// The whitespace-separated tokens of a line.
pub open spec fn spec_tokens(s: Seq<u8>) -> Seq<Seq<u8>> {
    tokens_from(s, 0, Seq::empty(), Seq::empty())
}

/// The views of a sequence of byte vectors.
pub open spec fn seq_views(ts: Seq<Vec<u8>>) -> Seq<Seq<u8>> {
    ts.map_values(|t: Vec<u8>| t@)
}

/// Split a line into its whitespace-separated tokens.
pub fn tokenize(line: &Vec<u8>) -> (toks: Vec<Vec<u8>>)
    ensures
        seq_views(toks@) == spec_tokens(line@),
{
    let mut i: usize = 0;
    let mut cur: Vec<u8> = Vec::new();
    let mut acc: Vec<Vec<u8>> = Vec::new();
    proof {
        assert(seq_views(acc@) =~= Seq::<Seq<u8>>::empty());
        assert(cur@ =~= Seq::<u8>::empty());
    }
    while i < line.len()
        invariant
            i <= line@.len(),
            spec_tokens(line@) == tokens_from(line@, i as int, cur@, seq_views(acc@)),
        decreases line@.len() - i,
    {
        let b = line[i];
        if b == 32 || b == 9 || b == 10 || b == 11 || b == 12 || b == 13 {
            if cur.len() > 0 {
                let ghost old_acc = acc@;
                let ghost old_cur = cur@;
                acc.push(cur);
                cur = Vec::new();
                proof {
                    assert(seq_views(acc@) =~= seq_views(old_acc).push(old_cur));
                    assert(cur@ =~= Seq::<u8>::empty());
                }
            } else {
                proof {
                    assert(cur@ =~= Seq::<u8>::empty());
                }
            }
        } else {
            cur.push(b);
        }
        i = i + 1;
    }
    if cur.len() > 0 {
        let ghost old_acc = acc@;
        let ghost old_cur = cur@;
        acc.push(cur);
        proof {
            assert(seq_views(acc@) =~= seq_views(old_acc).push(old_cur));
        }
    }
    acc
}

/// An ASCII decimal digit.
pub open spec fn is_digit(b: u8) -> bool {
    48 <= b && b <= 57
}

pub open spec fn all_digits(s: Seq<u8>) -> bool {
    forall|i: int| 0 <= i < s.len() ==> is_digit(#[trigger] s[i])
}

/// The value of a digit string, most significant digit first.
pub open spec fn digits_val(s: Seq<u8>) -> nat
    decreases s.len(),
{
    if s.len() == 0 {
        0
    } else {
        digits_val(s.drop_last()) * 10 + (if 48 <= s.last() {
            (s.last() - 48) as nat
        } else {
            0
        })
    }
}

/// The unbounded integer a token denotes: one optional sign, then at
/// least one digit; anything else denotes nothing.
pub open spec fn spec_parse_int(s: Seq<u8>) -> Option<int> {
    if s.len() == 0 {
        None
    } else {
        let neg = s[0] == 45;
        let digits = if s[0] == 45 || s[0] == 43 {
            s.drop_first()
        } else {
            s
        };
        if digits.len() > 0 && all_digits(digits) {
            if neg {
                Some(-(digits_val(digits) as int))
            } else {
                Some(digits_val(digits) as int)
            }
        } else {
            None
        }
    }
}

/// `u64` parsing: a minus sign is rejected outright, and the value must
/// fit the type.
pub open spec fn spec_parse_u64(s: Seq<u8>) -> Option<u64> {
    if s.len() > 0 && s[0] == 45 {
        None
    } else {
        match spec_parse_int(s) {
            Some(v) => if v <= u64::MAX {
                Some(v as u64)
            } else {
                None
            },
            None => None,
        }
    }
}

pub open spec fn spec_parse_i64(s: Seq<u8>) -> Option<i64> {
    match spec_parse_int(s) {
        Some(v) => if i64::MIN <= v <= i64::MAX {
            Some(v as i64)
        } else {
            None
        },
        None => None,
    }
}

pub open spec fn spec_parse_i8(s: Seq<u8>) -> Option<i8> {
    match spec_parse_int(s) {
        Some(v) => if i8::MIN <= v <= i8::MAX {
            Some(v as i8)
        } else {
            None
        },
        None => None,
    }
}

/// Extending a digit string can only grow its value.
proof fn lemma_digits_val_take_le(s: Seq<u8>, j: int)
    requires
        0 <= j <= s.len(),
    ensures
        digits_val(s.take(j)) <= digits_val(s),
    decreases s.len() - j,
{
    if j == s.len() {
        assert(s.take(j) =~= s);
    } else {
        assert(s.take(j + 1).drop_last() =~= s.take(j));
        assert(digits_val(s.take(j)) <= digits_val(s.take(j + 1)));
        lemma_digits_val_take_le(s, j + 1);
    }
}

/// Parse the digit-only part `s[start..]` as a `u64` magnitude.
fn parse_digits(s: &Vec<u8>, start: usize) -> (r: Option<u64>)
    requires
        start <= s@.len(),
    ensures
        ({
            let d = s@.skip(start as int);
            r == if d.len() > 0 && all_digits(d) && digits_val(d) <= u64::MAX {
                Some(digits_val(d) as u64)
            } else {
                None::<u64>
            }
        }),
{
    let ghost d = s@.skip(start as int);
    if start == s.len() {
        return None;
    }
    let mut acc: u64 = 0;
    let mut i: usize = start;
    while i < s.len()
        invariant
            start <= i <= s@.len(),
            d == s@.skip(start as int),
            start < s@.len(),
            acc as nat == digits_val(d.take(i - start)),
            all_digits(d.take(i - start)),
        decreases s@.len() - i,
    {
        let b = s[i];
        proof {
            assert(d.take(i - start + 1).drop_last() =~= d.take(i - start));
            assert(d.take(i - start + 1).last() == d[i - start]);
            assert(d[i - start] == s@[i as int]);
        }
        if !(48 <= b && b <= 57) {
            proof {
                assert(!is_digit(d[i - start]));
                assert(!all_digits(d));
            }
            return None;
        }
        let dig = (b - 48) as u64;
        let step = match acc.checked_mul(10) {
            Some(x) => x.checked_add(dig),
            None => None,
        };
        match step {
            Some(x) => {
                acc = x;
            },
            None => {
                proof {
                    assert(digits_val(d.take(i - start + 1)) > u64::MAX);
                    lemma_digits_val_take_le(d, i - start + 1);
                    assert(digits_val(d) > u64::MAX);
                }
                return None;
            },
        }
        i = i + 1;
    }
    proof {
        assert(d.take(s@.len() - start) =~= d);
    }
    Some(acc)
}

/// Parse a token as a `u64`, as `str::parse::<u64>` would.
pub fn parse_u64_token(tok: &Vec<u8>) -> (r: Option<u64>)
    ensures
        r == spec_parse_u64(tok@),
{
    if tok.len() == 0 {
        return None;
    }
    if tok[0] == 45 {
        return None;
    }
    let start: usize = if tok[0] == 43 {
        1
    } else {
        0
    };
    proof {
        if start == 1 {
            assert(tok@.skip(1) =~= tok@.drop_first());
        } else {
            assert(tok@.skip(0) =~= tok@);
        }
    }
    parse_digits(tok, start)
}

/// Parse a token as an `i64`, as `str::parse::<i64>` would.
pub fn parse_i64_token(tok: &Vec<u8>) -> (r: Option<i64>)
    ensures
        r == spec_parse_i64(tok@),
{
    if tok.len() == 0 {
        return None;
    }
    let neg = tok[0] == 45;
    let start: usize = if tok[0] == 45 || tok[0] == 43 {
        1
    } else {
        0
    };
    proof {
        if start == 1 {
            assert(tok@.skip(1) =~= tok@.drop_first());
        } else {
            assert(tok@.skip(0) =~= tok@);
        }
    }
    match parse_digits(tok, start) {
        None => None,
        Some(mag) => {
            if neg {
                if mag <= 0x8000_0000_0000_0000u64 {
                    if mag == 0x8000_0000_0000_0000u64 {
                        Some(i64::MIN)
                    } else {
                        Some(-(mag as i64))
                    }
                } else {
                    None
                }
            } else {
                if mag <= 0x7FFF_FFFF_FFFF_FFFFu64 {
                    Some(mag as i64)
                } else {
                    None
                }
            }
        },
    }
}

/// Parse a token as an `i8`, as `str::parse::<i8>` would.
pub fn parse_i8_token(tok: &Vec<u8>) -> (r: Option<i8>)
    ensures
        r == spec_parse_i8(tok@),
{
    if tok.len() == 0 {
        return None;
    }
    let neg = tok[0] == 45;
    let start: usize = if tok[0] == 45 || tok[0] == 43 {
        1
    } else {
        0
    };
    proof {
        if start == 1 {
            assert(tok@.skip(1) =~= tok@.drop_first());
        } else {
            assert(tok@.skip(0) =~= tok@);
        }
    }
    match parse_digits(tok, start) {
        None => None,
        Some(mag) => {
            if neg {
                if mag <= 128 {
                    if mag == 128 {
                        Some(i8::MIN)
                    } else {
                        Some(-(mag as i8))
                    }
                } else {
                    None
                }
            } else {
                if mag <= 127 {
                    Some(mag as i8)
                } else {
                    None
                }
            }
        },
    }
}

/// A parsed fundamental-side record.
pub struct FundRecord {
    /// Scaled gap to the previous discriminant in the stream.
    pub dist: i64,
    /// Class-number field, kept for format compatibility and unused.
    pub class_number: u64,
    /// Invariant-factor magnitudes.
    pub invariants: Vec<u64>,
}

/// A parsed ell-squared-index-side record.
pub struct EllRecord {
    /// Scaled gap to the previous discriminant in the stream.
    pub dist: i64,
    /// Kronecker symbol supplied with the record.
    pub kron: i8,
    /// Invariant-factor magnitudes.
    pub invariants: Vec<u64>,
}

pub ghost struct FundRecordView {
    pub dist: i64,
    pub class_number: u64,
    pub invariants: Seq<u64>,
}

pub ghost struct EllRecordView {
    pub dist: i64,
    pub kron: i8,
    pub invariants: Seq<u64>,
}

impl View for FundRecord {
    type V = FundRecordView;

    open spec fn view(&self) -> FundRecordView {
        FundRecordView { dist: self.dist, class_number: self.class_number, invariants: self.invariants@ }
    }
}

impl View for EllRecord {
    type V = EllRecordView;

    open spec fn view(&self) -> EllRecordView {
        EllRecordView { dist: self.dist, kron: self.kron, invariants: self.invariants@ }
    }
}

/// The invariant magnitudes among `toks`: each token that parses as a
/// `u64`, in order; tokens that fail to parse are dropped.
pub open spec fn invariants_of(toks: Seq<Seq<u8>>) -> Seq<u64>
    decreases toks.len(),
{
    if toks.len() == 0 {
        Seq::empty()
    } else {
        let rest = invariants_of(toks.drop_last());
        match spec_parse_u64(toks.last()) {
            Some(v) => rest.push(v),
            None => rest,
        }
    }
}

/// What a fundamental-side line parses to: `None` unless it has at least
/// two fields and they read as a distance and a class number.
pub open spec fn spec_parse_fundamental(line: Seq<u8>) -> Option<FundRecordView> {
    let ts = spec_tokens(line);
    if ts.len() < 2 {
        None
    } else {
        match (spec_parse_i64(ts[0]), spec_parse_u64(ts[1])) {
            (Some(dist), Some(h)) => Some(
                FundRecordView { dist, class_number: h, invariants: invariants_of(ts.skip(2)) },
            ),
            _ => None,
        }
    }
}

/// What an ell-squared-index-side line parses to: `None` unless it has
/// at least two fields and they read as a distance and a Kronecker
/// symbol.
pub open spec fn spec_parse_ell(line: Seq<u8>) -> Option<EllRecordView> {
    let ts = spec_tokens(line);
    if ts.len() < 2 {
        None
    } else {
        match (spec_parse_i64(ts[0]), spec_parse_i8(ts[1])) {
            (Some(dist), Some(kron)) => Some(
                EllRecordView { dist, kron, invariants: invariants_of(ts.skip(2)) },
            ),
            _ => None,
        }
    }
}

pub open spec fn fund_opt_view(r: Option<FundRecord>) -> Option<FundRecordView> {
    match r {
        Some(rec) => Some(rec@),
        None => None,
    }
}

pub open spec fn ell_opt_view(r: Option<EllRecord>) -> Option<EllRecordView> {
    match r {
        Some(rec) => Some(rec@),
        None => None,
    }
}

/// Collect the invariant magnitudes among the tokens from position 2 on.
fn collect_invariants(toks: &Vec<Vec<u8>>) -> (invs: Vec<u64>)
    requires
        toks@.len() >= 2,
    ensures
        invs@ == invariants_of(seq_views(toks@).skip(2)),
{
    let ghost ts = seq_views(toks@).skip(2);
    let mut invs: Vec<u64> = Vec::new();
    let mut i: usize = 2;
    while i < toks.len()
        invariant
            2 <= i <= toks@.len(),
            ts == seq_views(toks@).skip(2),
            invs@ == invariants_of(ts.take(i - 2)),
        decreases toks@.len() - i,
    {
        proof {
            assert(ts.take(i - 2 + 1).drop_last() =~= ts.take(i - 2));
            assert(ts.take(i - 2 + 1).last() == ts[i - 2]);
            assert(ts[i - 2] == toks@[i as int]@);
        }
        match parse_u64_token(&toks[i]) {
            Some(v) => {
                invs.push(v);
            },
            None => {},
        }
        i = i + 1;
    }
    proof {
        assert(ts.take(toks@.len() - 2) =~= ts);
    }
    invs
}

/// Parse a fundamental-side line `distance class_number invariants...`.
pub fn parse_fundamental_line(line: &Vec<u8>) -> (r: Option<FundRecord>)
    ensures
        fund_opt_view(r) == spec_parse_fundamental(line@),
{
    let toks = tokenize(line);
    if toks.len() < 2 {
        return None;
    }
    let dist = match parse_i64_token(&toks[0]) {
        Some(d) => d,
        None => {
            return None;
        },
    };
    let h = match parse_u64_token(&toks[1]) {
        Some(h) => h,
        None => {
            return None;
        },
    };
    let invariants = collect_invariants(&toks);
    Some(FundRecord { dist, class_number: h, invariants })
}

/// Parse an ell-squared-index-side line `distance kronecker invariants...`.
pub fn parse_ell_line(line: &Vec<u8>) -> (r: Option<EllRecord>)
    ensures
        ell_opt_view(r) == spec_parse_ell(line@),
{
    let toks = tokenize(line);
    if toks.len() < 2 {
        return None;
    }
    let dist = match parse_i64_token(&toks[0]) {
        Some(d) => d,
        None => {
            return None;
        },
    };
    let kron = match parse_i8_token(&toks[1]) {
        Some(k) => k,
        None => {
            return None;
        },
    };
    let invariants = collect_invariants(&toks);
    Some(EllRecord { dist, kron, invariants })
}

} // verus!
