//! Ranking engine: maps a raw query to a ranked, deduplicated, capped
//! list of results. Scores are fixed-point integers in thousandths of a
//! point ("milli-points"), so one point of the scoring scheme is 1000
//! units; the usage boost approximates the natural logarithm by linear
//! interpolation between powers of two at this resolution.

use crate::db;
use crate::db::Database;
use crate::db::FileEntry;
use crate::shims;
use crate::strutil;
use vstd::arithmetic::div_mod::lemma_div_is_ordered;
use vstd::arithmetic::power2::lemma_pow2_pos;
use vstd::arithmetic::power2::lemma_pow2_strictly_increases;
use vstd::arithmetic::power2::lemma_pow2_unfold;
use vstd::arithmetic::power2::pow2;
use vstd::prelude::*;

verus! {

/// A scored projection of an indexed entry. `score` is in milli-points:
/// a thousand units stand for one point of the scoring scheme.
#[derive(Debug, Clone)]
pub struct SearchResult {
    pub id: i64,
    pub filename: String,
    pub filepath: String,
    pub extension: String,
    pub file_size: i64,
    pub modified_at: i64,
    pub file_type: String,
    pub click_count: i64,
    pub last_accessed: i64,
    pub score: i64,
    pub match_type: String,
    pub matched_indices: Vec<usize>,
}

/// A wide intermediate score, saturated to the `i64` score domain.
pub open spec fn spec_clamp(x: int) -> int {
    if x > i64::MAX {
        i64::MAX as int
    } else if x < i64::MIN {
        i64::MIN as int
    } else {
        x
    }
}

/// Saturate a wide intermediate score to the `i64` score domain.
pub fn clamp_score(x: i128) -> (r: i64)
    ensures
        r as int == spec_clamp(x as int),
{
    if x > i64::MAX as i128 {
        i64::MAX
    } else if x < i64::MIN as i128 {
        i64::MIN
    } else {
        x as i64
    }
}

/// The additive boost a file type earns, in milli-points.
pub open spec fn spec_type_boost(t: Seq<char>) -> int {
    if t == "app"@ {
        50000
    } else if t == "shortcut"@ {
        40000
    } else if t == "document"@ {
        20000
    } else if t == "folder"@ {
        15000
    } else if t == "code"@ {
        10000
    } else if t == "image"@ {
        5000
    } else {
        0
    }
}

/// The additive boost a file type earns, computed.
pub fn file_type_boost(file_type: &str) -> (b: i64)
    ensures
        b as int == spec_type_boost(file_type@),
{
    if strutil::str_eq(file_type, "app") {
        50000
    } else if strutil::str_eq(file_type, "shortcut") {
        40000
    } else if strutil::str_eq(file_type, "document") {
        20000
    } else if strutil::str_eq(file_type, "folder") {
        15000
    } else if strutil::str_eq(file_type, "code") {
        10000
    } else if strutil::str_eq(file_type, "image") {
        5000
    } else {
        0
    }
}

/// The floor of the base-two logarithm.
pub open spec fn spec_log2_floor(n: int) -> int
    decreases n,
{
    if n < 2 {
        0
    } else {
        1 + spec_log2_floor(n / 2)
    }
}

/// The base-two logarithm in milli-units: the integer part, plus a
/// linear interpolation between neighbouring powers of two.
pub open spec fn spec_log2_milli(c: int) -> int {
    let k = spec_log2_floor(c);
    1000 * k + (c - pow2(k as nat)) * 1000 / pow2(k as nat) as int
}

/// The click-count boost in milli-points: fifteen times the natural
/// logarithm of the click count, with ln x read as log2 x times ln 2
/// (so the factor is 15 * 1000 * ln 2 = 10397 per thousand log2 units);
/// zero for unclicked entries.
pub open spec fn spec_click_boost(c: int) -> int {
    if c <= 0 {
        0
    } else {
        spec_log2_milli(c) * 10397 / 1000
    }
}

/// The recency boost in milli-points: 100 points divided by the age in
/// hours (the age read as at least one hour), capped at 30 points; zero
/// for entries never accessed. 360000000 is 100 points times 3600
/// seconds, in milli-points.
pub open spec fn spec_recency_boost(last: int, now: int) -> int {
    if last <= 0 {
        0
    } else {
        let delta = now - last;
        if delta <= 12000 {
            30000
        } else {
            360000000int / delta
        }
    }
}

/// The whole usage boost in milli-points.
pub open spec fn spec_usage_boost(click_count: int, last_accessed: int, now: int) -> int {
    spec_click_boost(click_count) + spec_recency_boost(last_accessed, now)
}

/// The floor log2 bracketing: `pow2(log2(n)) <= n < pow2(log2(n) + 1)`.
pub proof fn lemma_log2_bracket(n: int)
    requires
        n >= 1,
    ensures
        spec_log2_floor(n) >= 0,
        pow2(spec_log2_floor(n) as nat) <= n < pow2((spec_log2_floor(n) + 1) as nat),
    decreases n,
{
    if n < 2 {
        vstd::arithmetic::power2::lemma2_to64();
    } else {
        lemma_log2_bracket(n / 2);
        let k = spec_log2_floor(n / 2);
        lemma_pow2_unfold((k + 1) as nat);
        lemma_pow2_unfold((k + 2) as nat);
        assert(pow2((k + 1) as nat) == 2 * pow2(k as nat));
        assert(2 * (n / 2) <= n < 2 * (n / 2) + 2);
        assert(pow2(k as nat) <= n / 2 < pow2((k + 1) as nat));
        assert(2 * pow2(k as nat) <= 2 * (n / 2)) by (nonlinear_arith)
            requires
                pow2(k as nat) <= n / 2,
        ;
        assert(2 * (n / 2) + 2 <= 2 * pow2((k + 1) as nat)) by (nonlinear_arith)
            requires
                n / 2 < pow2((k + 1) as nat),
        ;
    }
}

/// Find the floor log2 of `c` and the matching power of two.
fn log2_parts(c: u64) -> (r: (u64, u64))
    requires
        c >= 1,
    ensures
        r.0 as int == spec_log2_floor(c as int),
        r.1 as int == pow2(r.0 as nat),
        r.1 <= c,
        c < 2 * r.1,
{
    let mut x: u64 = c;
    let mut k: u64 = 0;
    let mut p: u64 = 1;
    proof {
        vstd::arithmetic::power2::lemma2_to64();
    }
    while x >= 2
        invariant
            1 <= x <= c,
            1 <= p,
            k <= 63,
            p as int == pow2(k as nat),
            spec_log2_floor(c as int) == k + spec_log2_floor(x as int),
            p * x <= c < p * (x + 1),
        decreases x,
    {
        proof {
            lemma_pow2_unfold((k + 1) as nat);
            lemma_pow2_pos((k + 1) as nat);
            assert(2 * p * (x as int / 2) <= p * x) by (nonlinear_arith)
                requires
                    p >= 0,
                    x >= 2,
                    2 * (x as int / 2) <= x,
            ;
            assert(p * (x + 1) <= 2 * p * ((x as int / 2) + 1)) by (nonlinear_arith)
                requires
                    p >= 0,
                    x + 1 <= 2 * (x as int / 2) + 2,
            ;
            if k == 63 {
                vstd::arithmetic::power2::lemma2_to64_rest();
                assert(p as int == pow2(63));
                assert(p * x >= p * 2) by (nonlinear_arith)
                    requires
                        p >= 0,
                        x >= 2,
                ;
                assert(false);
            }
        }
        proof {
            if k < 63 {
                lemma_pow2_strictly_increases(k as nat, 63);
            }
            vstd::arithmetic::power2::lemma2_to64_rest();
            assert(p < 0x8000000000000000);
        }
        x = x / 2;
        k = k + 1;
        p = p * 2;
    }
    proof {
        assert(x == 1);
        assert(spec_log2_floor(1int) == 0);
        assert(p * 1 <= c < p * 2) by (nonlinear_arith)
            requires
                p * x <= c < p * (x + 1),
                x == 1,
        ;
        lemma_log2_bracket(c as int);
    }
    (k, p)
}

/// The click-count boost, computed.
pub fn click_boost(click_count: i64) -> (b: i64)
    ensures
        b as int == spec_click_boost(click_count as int),
        0 <= b <= 665397,
{
    if click_count <= 0 {
        return 0;
    }
    let c: u64 = click_count as u64;
    let (k, p) = log2_parts(c);
    proof {
        lemma_pow2_pos(k as nat);
    }
    let wide: u128 = (c - p) as u128 * 1000u128 / (p as u128);
    proof {
        let ci = c as int;
        let pi = p as int;
        let q = (ci - pi) * 1000 / pi;
        vstd::arithmetic::div_mod::lemma_fundamental_div_mod((ci - pi) * 1000, pi);
        assert((ci - pi) * 1000 < pi * 1000) by (nonlinear_arith)
            requires
                ci < 2 * pi,
                pi >= 1,
        ;
        assert(q < 1000) by (nonlinear_arith)
            requires
                pi >= 1,
                pi * q <= (ci - pi) * 1000,
                (ci - pi) * 1000 < pi * 1000,
        ;
        vstd::arithmetic::div_mod::lemma_div_pos_is_pos((ci - pi) * 1000, pi);
        assert(wide as int == q);
    }
    let frac: u64 = wide as u64;
    proof {
        let ci = c as int;
        let pi = p as int;
        let q = (ci - pi) * 1000 / pi;
        assert(frac as int == q);
        assert(frac <= 999);
        assert(k <= 63) by {
            if k >= 64 {
                lemma_pow2_strictly_increases(63, k as nat);
                vstd::arithmetic::power2::lemma2_to64_rest();
            }
        }
    }
    let milli: u64 = 1000 * k + frac;
    proof {
        assert(milli <= 63999);
    }
    let b: u64 = milli * 10397 / 1000;
    proof {
        assert(milli as int == spec_log2_milli(click_count as int));
        assert(b as int == spec_log2_milli(click_count as int) * 10397 / 1000);
        lemma_div_is_ordered(milli as int * 10397, 63999int * 10397, 1000);
        assert(63999int * 10397 / 1000 == 665397);
        vstd::arithmetic::div_mod::lemma_div_pos_is_pos(milli as int * 10397, 1000);
    }
    b as i64
}

/// The whole usage boost, computed.
pub fn usage_boost(click_count: i64, last_accessed: i64, now: i64) -> (b: i64)
    ensures
        b as int == spec_usage_boost(click_count as int, last_accessed as int, now as int),
        0 <= b <= 695397,
{
    let cb = click_boost(click_count);
    let rb: i64 = if last_accessed <= 0 {
        0
    } else {
        let delta: i128 = now as i128 - last_accessed as i128;
        if delta <= 12000 {
            30000
        } else {
            let d: u64 = delta as u64;
            let q: u64 = 360000000u64 / d;
            proof {
                assert(d as int == delta as int);
                lemma_div_is_ordered(360000000, 360000000, d as int);
                assert(360000000int / d as int <= 360000000int / 12001int) by {
                    vstd::arithmetic::div_mod::lemma_div_is_ordered_by_denominator(
                        360000000,
                        12001,
                        d as int,
                    );
                }
                assert(360000000int / 12001int == 29997);
                vstd::arithmetic::div_mod::lemma_div_pos_is_pos(360000000, d as int);
            }
            q as i64
        }
    };
    cb + rb
}

} // verus!

verus! {

use crate::shims::fuzzy_indices_of;
use crate::shims::fuzzy_score_of;
use crate::shims::lower_of;
use crate::shims::trimmed_of;
use crate::strutil::contains_seq;
use crate::strutil::is_prefix_of;
use crate::strutil::matches_at;

/// The consecutive character positions `start .. start + n`.
pub open spec fn index_range(start: int, n: int) -> Seq<usize> {
    Seq::new(n as nat, |i: int| (start + i) as usize)
}

/// Build the consecutive positions `start .. start + n`.
fn index_vec(start: usize, n: usize) -> (r: Vec<usize>)
    requires
        start + n <= usize::MAX,
    ensures
        r@ == index_range(start as int, n as int),
{
    let mut r: Vec<usize> = Vec::new();
    let mut i: usize = 0;
    while i < n
        invariant
            i <= n,
            start + n <= usize::MAX,
            r@ == index_range(start as int, i as int),
        decreases n - i,
    {
        r.push(start + i);
        proof {
            assert(r@ =~= index_range(start as int, i + 1));
        }
        i = i + 1;
    }
    r
}

/// The first position at or after `i` at which `c` stands in `s`, or
/// the length of `s` if there is none.
pub open spec fn first_idx_from(s: Seq<char>, c: char, i: int) -> int
    decreases s.len() - i,
    when 0 <= i <= s.len()
{
    if i >= s.len() {
        i
    } else if s[i] == c {
        i
    } else {
        first_idx_from(s, c, i + 1)
    }
}

/// The first position at which `c` stands in `s`, or the length of `s`
/// if it does not.
pub open spec fn first_idx(s: Seq<char>, c: char) -> int {
    first_idx_from(s, c, 0)
}

/// A position before which `c` never stands, and which holds `c` or is
/// the end, is the first position.
proof fn lemma_first_idx_is(s: Seq<char>, c: char, i: int, r: int)
    requires
        0 <= i <= r <= s.len(),
        forall|j: int| i <= j < r ==> s[j] != c,
        r == s.len() || s[r] == c,
    ensures
        first_idx_from(s, c, i) == r,
    decreases r - i,
{
    if i < r {
        lemma_first_idx_is(s, c, i + 1, r);
    }
}

/// The part of a name before its first dot (the whole name if it has
/// none).
pub open spec fn dot_prefix(s: Seq<char>) -> Seq<char> {
    s.take(first_idx(s, '.'))
}

/// The first position at or after `i` at which the needle occurs in the
/// haystack, or the length of the haystack if there is none.
pub open spec fn first_occ_from(h: Seq<char>, n: Seq<char>, i: int) -> int
    decreases h.len() - i,
    when 0 <= i <= h.len()
{
    if i >= h.len() {
        i
    } else if matches_at(h, n, i) {
        i
    } else {
        first_occ_from(h, n, i + 1)
    }
}

/// The first position at which the needle occurs in the haystack.
pub open spec fn first_occ(h: Seq<char>, n: Seq<char>) -> int {
    first_occ_from(h, n, 0)
}

/// A position before which the needle never matches, and at which it
/// matches, is the first occurrence.
proof fn lemma_first_occ_is(h: Seq<char>, n: Seq<char>, i: int, r: int)
    requires
        0 <= i <= r <= h.len(),
        forall|j: int| i <= j < r ==> !matches_at(h, n, j),
        matches_at(h, n, r),
    ensures
        first_occ_from(h, n, i) == r,
    decreases r - i,
{
    if i < r {
        lemma_first_occ_is(h, n, i + 1, r);
    }
}

/// The larger of two mathematical integers.
pub open spec fn max_int(a: int, b: int) -> int {
    if a >= b {
        a
    } else {
        b
    }
}

/// The base score (in milli-points), match type and highlight positions
/// of an entry for an already-lowercased query, trying the match kinds
/// in priority order: exact filename, filename without extension,
/// filename prefix, filename substring, path substring, fuzzy filename,
/// fuzzy path, and nothing.
pub open spec fn spec_base(e: FileEntry, ql: Seq<char>) -> (int, Seq<char>, Seq<usize>) {
    let fl = lower_of(e.filename@);
    let fp = lower_of(e.filepath@);
    if fl == ql {
        (1000000, "exact"@, index_range(0, e.filename@.len() as int))
    } else if dot_prefix(fl) == ql {
        (950000, "exact"@, index_range(0, ql.len() as int))
    } else if is_prefix_of(ql, fl) {
        (800000, "prefix"@, index_range(0, ql.len() as int))
    } else if contains_seq(fl, ql) {
        (600000, "substring"@, index_range(first_occ(fl, ql), ql.len() as int))
    } else if contains_seq(fp, ql) {
        (300000, "path"@, Seq::empty())
    } else if fuzzy_indices_of(fl, ql) is Some {
        let (s, idx) = fuzzy_indices_of(fl, ql).unwrap();
        (max_int(s as int * 1000, 10000), "fuzzy"@, idx)
    } else if fuzzy_indices_of(fp, ql) is Some {
        let (s, idx) = fuzzy_indices_of(fp, ql).unwrap();
        (max_int(s as int * 500, 5000), "path"@, idx)
    } else {
        (0, "none"@, Seq::empty())
    }
}

/// The composite score of an entry: its base score plus the type and
/// usage boosts, saturated to the score domain.
pub open spec fn spec_score(e: FileEntry, ql: Seq<char>, now: int) -> int {
    spec_clamp(
        spec_base(e, ql).0 + spec_type_boost(e.file_type@) + spec_usage_boost(
            e.click_count as int,
            e.last_accessed as int,
            now,
        ),
    )
}

/// Score one entry against an already-lowercased query at the given
/// time: the composite score in milli-points, the match type, and the
/// matched character positions.
pub fn score_entry(entry: &FileEntry, query_lower: &str, now: i64) -> (r: (i64, String, Vec<usize>))
    ensures
        r.0 as int == spec_score(*entry, query_lower@, now as int),
        r.1@ == spec_base(*entry, query_lower@).1,
        r.2@ == spec_base(*entry, query_lower@).2,
{
    let ql = strutil::chars_of(query_lower);
    let fl_s = shims::to_lower(entry.filename.as_str());
    let fl = strutil::chars_of(fl_s.as_str());
    let fp_s = shims::to_lower(entry.filepath.as_str());
    let fp = strutil::chars_of(fp_s.as_str());
    let tb = file_type_boost(entry.file_type.as_str());
    let ub = usage_boost(entry.click_count, entry.last_accessed, now);
    let boosts: i128 = tb as i128 + ub as i128;
    if strutil::eq_chars(&fl, &ql) {
        let n = entry.filename.unicode_len();
        let score = clamp_score(1000000 + boosts);
        return (score, String::from_str("exact"), index_vec(0, n));
    }
    let dot = strutil::find_char(&fl, '.');
    proof {
        lemma_first_idx_is(fl@, '.', 0, dot as int);
    }
    let mut before: Vec<char> = Vec::new();
    let mut di: usize = 0;
    while di < dot
        invariant
            di <= dot <= fl@.len(),
            before@ == fl@.take(di as int),
        decreases dot - di,
    {
        before.push(fl[di]);
        proof {
            assert(before@ =~= fl@.take(di + 1));
        }
        di = di + 1;
    }
    if strutil::eq_chars(&before, &ql) {
        let score = clamp_score(950000 + boosts);
        return (score, String::from_str("exact"), index_vec(0, ql.len()));
    }
    if strutil::starts_with_chars(&fl, &ql) {
        let score = clamp_score(800000 + boosts);
        return (score, String::from_str("prefix"), index_vec(0, ql.len()));
    }
    match strutil::find_sub(&fl, &ql) {
        Some(pos) => {
            let fl_n = fl.len();
            proof {
                assert(pos + ql@.len() <= fl_n);
                lemma_first_occ_is(fl@, ql@, 0, pos as int);
            }
            let score = clamp_score(600000 + boosts);
            return (score, String::from_str("substring"), index_vec(pos, ql.len()));
        },
        None => {},
    }
    if strutil::contains_chars(&fp, &ql) {
        let score = clamp_score(300000 + boosts);
        return (score, String::from_str("path"), Vec::new());
    }
    match shims::fuzzy_match_positions(fl_s.as_str(), query_lower) {
        Some(p) => {
            let base: i128 = if p.0 as i128 * 1000 >= 10000 {
                p.0 as i128 * 1000
            } else {
                10000
            };
            let score = clamp_score(base + boosts);
            return (score, String::from_str("fuzzy"), p.1);
        },
        None => {},
    }
    match shims::fuzzy_match_positions(fp_s.as_str(), query_lower) {
        Some(p) => {
            let base: i128 = if p.0 as i128 * 500 >= 5000 {
                p.0 as i128 * 500
            } else {
                5000
            };
            let score = clamp_score(base + boosts);
            return (score, String::from_str("path"), p.1);
        },
        None => {},
    }
    let score = clamp_score(0 + boosts);
    (score, String::from_str("none"), Vec::new())
}

} // verus!

verus! {

/// The floor base-two logarithm never decreases.
proof fn lemma_log2_floor_monotone(a: int, b: int)
    requires
        1 <= a <= b,
    ensures
        spec_log2_floor(a) <= spec_log2_floor(b),
    decreases b,
{
    if b >= 2 && a >= 2 {
        vstd::arithmetic::div_mod::lemma_div_is_ordered(a, b, 2);
        vstd::arithmetic::div_mod::lemma_div_pos_is_pos(a, 2);
        lemma_log2_floor_monotone(a / 2, b / 2);
    } else if a < 2 {
        lemma_log2_bracket(b);
    }
}

/// The interpolated fractional part of the milli log2 lies below one
/// whole step.
proof fn lemma_log2_frac_bounds(c: int)
    requires
        c >= 1,
    ensures
        0 <= spec_log2_milli(c) - 1000 * spec_log2_floor(c) <= 999,
{
    let k = spec_log2_floor(c);
    lemma_log2_bracket(c);
    let p = pow2(k as nat) as int;
    lemma_pow2_pos(k as nat);
    lemma_pow2_unfold((k + 1) as nat);
    let q = (c - p) * 1000 / p;
    vstd::arithmetic::div_mod::lemma_fundamental_div_mod((c - p) * 1000, p);
    assert((c - p) * 1000 < p * 1000) by (nonlinear_arith)
        requires
            c < 2 * p,
            p >= 1,
    ;
    assert(q < 1000) by (nonlinear_arith)
        requires
            p >= 1,
            p * q <= (c - p) * 1000,
            (c - p) * 1000 < p * 1000,
    ;
    vstd::arithmetic::div_mod::lemma_div_pos_is_pos((c - p) * 1000, p);
}

/// The milli log2 never decreases.
proof fn lemma_log2_milli_monotone(a: int, b: int)
    requires
        1 <= a <= b,
    ensures
        spec_log2_milli(a) <= spec_log2_milli(b),
{
    let ka = spec_log2_floor(a);
    let kb = spec_log2_floor(b);
    lemma_log2_floor_monotone(a, b);
    lemma_log2_bracket(a);
    lemma_log2_bracket(b);
    lemma_log2_frac_bounds(a);
    lemma_log2_frac_bounds(b);
    if ka == kb {
        let p = pow2(ka as nat) as int;
        lemma_pow2_pos(ka as nat);
        vstd::arithmetic::div_mod::lemma_div_is_ordered((a - p) * 1000, (b - p) * 1000, p);
    } else {
        assert(ka < kb);
    }
}

/// The click boost never decreases with more clicks.
pub proof fn lemma_click_boost_monotone(a: int, b: int)
    requires
        a <= b,
    ensures
        spec_click_boost(a) <= spec_click_boost(b),
{
    if a <= 0 {
        if b > 0 {
            lemma_log2_bracket(b);
            lemma_log2_frac_bounds(b);
            vstd::arithmetic::div_mod::lemma_div_pos_is_pos(spec_log2_milli(b) * 10397, 1000);
        }
    } else {
        lemma_log2_milli_monotone(a, b);
        vstd::arithmetic::div_mod::lemma_div_is_ordered(
            spec_log2_milli(a) * 10397,
            spec_log2_milli(b) * 10397,
            1000,
        );
    }
}

/// The click boost of any stored counter lies between zero and its
/// value at the largest counter.
proof fn lemma_click_boost_bounds(c: i64)
    ensures
        0 <= spec_click_boost(c as int) <= 665397,
{
    if c > 0 {
        let ci = c as int;
        lemma_log2_bracket(ci);
        lemma_log2_frac_bounds(ci);
        let k = spec_log2_floor(ci);
        assert(k <= 62) by {
            if k >= 63 {
                vstd::arithmetic::power2::lemma2_to64_rest();
                if k > 63 {
                    lemma_pow2_strictly_increases(63, k as nat);
                }
                assert(pow2(63) <= pow2(k as nat));
            }
        }
        let milli = spec_log2_milli(ci);
        assert(0 <= milli <= 62999);
        lemma_div_is_ordered(milli * 10397, 62999int * 10397, 1000);
        assert(62999int * 10397 / 1000 == 655000);
        vstd::arithmetic::div_mod::lemma_div_pos_is_pos(milli * 10397, 1000);
    }
}

/// The usage boost of any stored entry lies between zero and the sum of
/// the click and recency caps.
proof fn lemma_usage_boost_bounds(c: i64, last: i64, now: int)
    ensures
        0 <= spec_usage_boost(c as int, last as int, now) <= 695397,
{
    lemma_click_boost_bounds(c);
    if last > 0 {
        let delta = now - last;
        if delta > 12000 {
            vstd::arithmetic::div_mod::lemma_div_pos_is_pos(360000000, delta);
            vstd::arithmetic::div_mod::lemma_div_is_ordered_by_denominator(
                360000000,
                12001,
                delta,
            );
            assert(360000000int / 12001int == 29997);
        }
    }
}

/// Exact-match priority, away from the fuzzy kinds: of two entries with
/// the same type, click count and last access time, one matching the
/// lowercased query exactly and the other placed by any non-fuzzy match
/// kind, the exact match scores strictly higher, for any time. (When
/// the other entry falls to a fuzzy kind the comparison rests on the
/// matcher's actual scores, which the contracts deliberately leave
/// uninterpreted.)
pub proof fn lemma_exact_match_priority(e1: FileEntry, e2: FileEntry, ql: Seq<char>, now: int)
    requires
        e1.file_type == e2.file_type,
        e1.click_count == e2.click_count,
        e1.last_accessed == e2.last_accessed,
        lower_of(e1.filename@) == ql,
        lower_of(e2.filename@) != ql,
        dot_prefix(lower_of(e2.filename@)) == ql || is_prefix_of(ql, lower_of(e2.filename@))
            || contains_seq(lower_of(e2.filename@), ql) || contains_seq(
            lower_of(e2.filepath@),
            ql,
        ),
    ensures
        spec_score(e1, ql, now) > spec_score(e2, ql, now),
{
    lemma_usage_boost_bounds(e1.click_count, e1.last_accessed, now);
    assert(spec_base(e1, ql).0 == 1000000);
    assert(spec_base(e2, ql).0 <= 950000);
    assert(spec_type_boost(e1.file_type@) <= 50000);
    assert(0 <= spec_type_boost(e1.file_type@));
}

/// Scoring is monotone in the click count: of two entries identical in
/// everything but their click counters, the one clicked more scores at
/// least as high, for any query and time.
pub proof fn lemma_score_monotone_in_clicks(
    e1: FileEntry,
    e2: FileEntry,
    ql: Seq<char>,
    now: int,
)
    requires
        e1.click_count <= e2.click_count,
        e1.filename == e2.filename,
        e1.filepath == e2.filepath,
        e1.file_type == e2.file_type,
        e1.last_accessed == e2.last_accessed,
    ensures
        spec_score(e1, ql, now) <= spec_score(e2, ql, now),
{
    assert(spec_base(e1, ql).0 == spec_base(e2, ql).0);
    lemma_click_boost_monotone(e1.click_count as int, e2.click_count as int);
}

} // verus!

verus! {

/// The final ordering of results: higher score first, identifier as the
/// ascending tie-break.
pub open spec fn res_at_or_before(a: SearchResult, b: SearchResult) -> bool {
    a.score > b.score || (a.score == b.score && a.id <= b.id)
}

/// The result sequence is ordered by `res_at_or_before`.
pub open spec fn sorted_results(s: Seq<SearchResult>) -> bool {
    forall|i: int, j: int| 0 <= i < j < s.len() ==> res_at_or_before(s[i], s[j])
}

/// The score of an entry reached only by the exhaustive fuzzy pass: half
/// the raw fuzzy score plus the type and usage boosts, saturated. (No
/// floor and no tiered base: this pass deliberately weighs differently
/// from the fuzzy fallback of the prefiltered pass.)
pub open spec fn spec_p2_score(e: FileEntry, ql: Seq<char>, now: int) -> int {
    let s = fuzzy_score_of(lower_of(e.filename@), ql).unwrap();
    spec_clamp(
        s as int * 500 + spec_type_boost(e.file_type@) + spec_usage_boost(
            e.click_count as int,
            e.last_accessed as int,
            now,
        ),
    )
}

/// The entry's lowercased filename earns a positive fuzzy score.
pub open spec fn fuzzy_positive(e: FileEntry, ql: Seq<char>) -> bool {
    match fuzzy_score_of(lower_of(e.filename@), ql) {
        Some(s) => s > 0,
        None => false,
    }
}

/// `r` is the prefiltered pass's scoring of the stored entry `e`.
pub open spec fn is_phase1_result(r: SearchResult, e: FileEntry, ql: Seq<char>, now: int) -> bool {
    &&& r.id == e.id
    &&& r.filename == e.filename
    &&& r.filepath == e.filepath
    &&& r.extension == e.extension
    &&& r.file_size == e.file_size
    &&& r.modified_at == e.modified_at
    &&& r.file_type == e.file_type
    &&& r.click_count == e.click_count
    &&& r.last_accessed == e.last_accessed
    &&& r.score as int == spec_score(e, ql, now)
    &&& r.match_type@ == spec_base(e, ql).1
    &&& r.matched_indices@ == spec_base(e, ql).2
}

/// `r` is the exhaustive pass's scoring of the stored entry `e`: a
/// positive fuzzy match of the filename, carrying no extension and no
/// size.
pub open spec fn is_phase2_result(r: SearchResult, e: FileEntry, ql: Seq<char>, now: int) -> bool {
    &&& r.id == e.id
    &&& r.filename == e.filename
    &&& r.filepath == e.filepath
    &&& r.extension@ == Seq::<char>::empty()
    &&& r.file_size == 0
    &&& r.modified_at == e.modified_at
    &&& r.file_type == e.file_type
    &&& r.click_count == e.click_count
    &&& r.last_accessed == e.last_accessed
    &&& fuzzy_positive(e, ql)
    &&& r.score as int == spec_p2_score(e, ql, now)
    &&& r.match_type@ == "fuzzy"@
    &&& match fuzzy_indices_of(lower_of(e.filename@), ql) {
        Some(p) => r.matched_indices@ == p.1,
        None => r.matched_indices@ == Seq::<usize>::empty(),
    }
}

/// `r` is one of the stored entries, scored by one of the two passes at
/// time `t`.
pub open spec fn scored_from(r: SearchResult, rows: Seq<FileEntry>, ql: Seq<char>, t: i64) -> bool {
    exists|k: int|
        0 <= k < rows.len() && ((#[trigger] is_phase1_result(r, rows[k], ql, t as int))
            || is_phase2_result(r, rows[k], ql, t as int))
}

/// Every result is one stored entry, scored by one of the two passes at
/// time `t`.
pub open spec fn all_results_scored(
    v: Seq<SearchResult>,
    rows: Seq<FileEntry>,
    ql: Seq<char>,
    t: i64,
) -> bool {
    forall|i: int| #![trigger v[i]] 0 <= i < v.len() ==> scored_from(v[i], rows, ql, t)
}

/// Sort results by descending score with the identifier tie-break
/// (insertion sort).
fn sort_results(v: Vec<SearchResult>) -> (r: Vec<SearchResult>)
    ensures
        r@.to_multiset() == v@.to_multiset(),
        sorted_results(r@),
        forall|x: int| 0 <= x < r@.len() ==> v@.contains(#[trigger] r@[x]),
        (forall|x: int, y: int| 0 <= x < y < v@.len() ==> v@[x].id != v@[y].id) ==> (forall|
            x: int,
            y: int,
        | 0 <= x < y < r@.len() ==> r@[x].id != r@[y].id),
{
    let ghost orig = v@;
    let mut rem = v;
    let mut out: Vec<SearchResult> = Vec::new();
    proof {
        assert(out@ =~= orig.take(0));
        assert(rem@ =~= orig.skip(0));
    }
    while rem.len() > 0
        invariant
            rem@.len() <= orig.len(),
            rem@ == orig.skip(orig.len() - rem@.len()),
            out@.to_multiset() == orig.take(orig.len() - rem@.len()).to_multiset(),
            sorted_results(out@),
            forall|x: int| #![trigger out@[x]] 0 <= x < out@.len() ==> exists|j: int|
                0 <= j < orig.len() - rem@.len() && out@[x] == #[trigger] orig[j],
        decreases rem@.len(),
    {
        broadcast use vstd::seq_lib::group_to_multiset_ensures;

        let ghost i: int = orig.len() - rem@.len();
        let ghost pre_rem = rem@;
        let e = rem.remove(0);
        proof {
            assert(e == orig[i]) by {
                assert(pre_rem[0] == orig.skip(i)[0]);
            }
            assert(rem@ =~= orig.skip(i + 1)) by {
                assert(pre_rem.drop_first() =~= orig.skip(i).drop_first());
                assert(orig.skip(i).drop_first() =~= orig.skip(i + 1));
            }
        }
        let mut p: usize = 0;
        while p < out.len() && (out[p].score > e.score || (out[p].score == e.score && out[p].id
            <= e.id))
            invariant
                p <= out@.len(),
                forall|j: int| 0 <= j < p ==> res_at_or_before(out@[j], e),
            decreases out@.len() - p,
        {
            p = p + 1;
        }
        let ghost pre = out@;
        out.insert(p, e);
        proof {
            assert forall|x: int| #![trigger out@[x]] 0 <= x < out@.len() implies exists|j: int|
                0 <= j < i + 1 && out@[x] == #[trigger] orig[j] by {
                if x < p {
                    assert(out@[x] == pre[x]);
                    let j = choose|j: int| 0 <= j < i && pre[x] == #[trigger] orig[j];
                    assert(out@[x] == orig[j]);
                } else if x == p {
                    assert(out@[x] == orig[i]);
                } else {
                    assert(out@[x] == pre[x - 1]);
                    let j = choose|j: int| 0 <= j < i && pre[x - 1] == #[trigger] orig[j];
                    assert(out@[x] == orig[j]);
                }
            }
            crate::strutil::lemma_insert_to_multiset(pre, p as int, e);
            assert(orig.take(i + 1) =~= orig.take(i).push(orig[i]));
            assert(orig.take(i + 1).to_multiset() == orig.take(i).to_multiset().insert(e));
            if (p as int) < pre.len() {
                assert(!res_at_or_before(pre[p as int], e));
                assert(res_at_or_before(e, pre[p as int]));
            }
            assert forall|x: int, y: int|
                0 <= x < y < out@.len() implies res_at_or_before(out@[x], out@[y]) by {
                if y < p {
                    assert(out@[x] == pre[x] && out@[y] == pre[y]);
                } else if x > p {
                    assert(out@[x] == pre[x - 1] && out@[y] == pre[y - 1]);
                } else if y == p {
                    assert(out@[y] == e && out@[x] == pre[x]);
                } else if x == p {
                    assert(out@[x] == e && out@[y] == pre[y - 1]);
                    assert(res_at_or_before(e, pre[p as int]));
                    if y - 1 > p {
                        assert(res_at_or_before(pre[p as int], pre[y - 1]));
                    }
                } else {
                    assert(out@[x] == pre[x] && out@[y] == pre[y - 1]);
                    assert(res_at_or_before(pre[x], e));
                    assert(res_at_or_before(e, pre[p as int]));
                    if y - 1 > p {
                        assert(res_at_or_before(pre[p as int], pre[y - 1]));
                    }
                }
            }
        }
    }
    proof {
        broadcast use vstd::seq_lib::group_to_multiset_ensures;

        assert(orig.take(orig.len() as int) =~= orig);
        assert forall|x: int| 0 <= x < out@.len() implies v@.contains(#[trigger] out@[x]) by {
            let j = choose|j: int| 0 <= j < orig.len() && out@[x] == #[trigger] orig[j];
            assert(v@[j] == out@[x]);
        }
        if forall|x: int, y: int| 0 <= x < y < v@.len() ==> v@[x].id != v@[y].id {
            assert forall|x: int, y: int|
                0 <= x < y < out@.len() implies out@[x].id != out@[y].id by {
                lemma_sorted_results_distinct_ids(v@, out@, x, y);
            }
        }
    }
    out
}

/// In a rearrangement whose members all come from a source with pairwise
/// distinct identifiers and whose multiset of members matches, two
/// positions never share an identifier.
proof fn lemma_sorted_results_distinct_ids(
    v: Seq<SearchResult>,
    out: Seq<SearchResult>,
    x: int,
    y: int,
)
    requires
        forall|a: int, b: int| 0 <= a < b < v.len() ==> v[a].id != v[b].id,
        out.to_multiset() == v.to_multiset(),
        forall|a: int| 0 <= a < out.len() ==> v.contains(#[trigger] out[a]),
        0 <= x < y < out.len(),
    ensures
        out[x].id != out[y].id,
{
    broadcast use vstd::seq_lib::group_to_multiset_ensures;

    let a = choose|a: int| 0 <= a < v.len() && v[a] == out[x];
    let b = choose|b: int| 0 <= b < v.len() && v[b] == out[y];
    if out[x].id == out[y].id {
        if a != b {
            if a < b {
                assert(v[a].id != v[b].id);
            } else {
                assert(v[b].id != v[a].id);
            }
        } else {
            assert(out[x] == out[y]);
            let removed = out.remove(x);
            assert(removed.to_multiset() == out.to_multiset().remove(out[x]));
            assert(removed[y - 1] == out[y]);
            assert(removed.contains(out[y]));
            assert(removed.to_multiset().count(out[y]) > 0);
            assert(out.to_multiset().count(out[x]) >= 2);
            assert(v.to_multiset().count(out[x]) >= 2);
            lemma_res_count_two_indices(v, out[x]);
        }
    }
}

/// A member counted twice in a sequence's multiset stands at two
/// distinct positions.
proof fn lemma_res_count_two_indices(v: Seq<SearchResult>, e: SearchResult)
    requires
        v.to_multiset().count(e) >= 2,
    ensures
        exists|a: int, b: int| 0 <= a < b < v.len() && v[a] == e && v[b] == e && v[a].id == v[b].id,
    decreases v.len(),
{
    broadcast use vstd::seq_lib::group_to_multiset_ensures;

    assert(v.to_multiset().count(e) > 0);
    assert(v.contains(e));
    let a = choose|a: int| 0 <= a < v.len() && v[a] == e;
    let rest = v.remove(a);
    assert(rest.to_multiset() == v.to_multiset().remove(v[a]));
    assert(rest.to_multiset().count(e) >= 1);
    assert(rest.contains(e));
    let c = choose|c: int| 0 <= c < rest.len() && rest[c] == e;
    if c < a {
        assert(v[c] == rest[c]);
        assert(0 <= c < a < v.len() && v[c] == e && v[a] == e);
    } else {
        assert(v[c + 1] == rest[c]);
        assert(0 <= a < c + 1 < v.len() && v[a] == e && v[c + 1] == e);
    }
}

} // verus!

verus! {

/// A list whose members all come from a scored list is itself fully
/// scored.
proof fn lemma_all_results_scored(
    fin: Seq<SearchResult>,
    unsorted: Seq<SearchResult>,
    uks: Seq<int>,
    rows: Seq<FileEntry>,
    ql: Seq<char>,
    now: i64,
)
    requires
        uks.len() == unsorted.len(),
        forall|x: int| 0 <= x < uks.len() ==> 0 <= #[trigger] uks[x] < rows.len(),
        forall|x: int|
            #![trigger unsorted[x]]
            0 <= x < unsorted.len() ==> is_phase1_result(unsorted[x], rows[uks[x]], ql, now as int)
                || is_phase2_result(unsorted[x], rows[uks[x]], ql, now as int),
        forall|x: int| 0 <= x < fin.len() ==> unsorted.contains(#[trigger] fin[x]),
    ensures
        all_results_scored(fin, rows, ql, now),
{
    assert forall|i: int| #![trigger fin[i]] 0 <= i < fin.len() implies scored_from(
        fin[i],
        rows,
        ql,
        now,
    ) by {
        assert(unsorted.contains(fin[i]));
        let u = choose|u: int| 0 <= u < unsorted.len() && unsorted[u] == fin[i];
        let k = uks[u];
        assert(0 <= k < rows.len());
        if is_phase1_result(unsorted[u], rows[k], ql, now as int) {
            assert(is_phase1_result(fin[i], rows[k], ql, now as int));
        } else {
            assert(is_phase2_result(fin[i], rows[k], ql, now as int));
        }
        assert(is_phase1_result(fin[i], rows[k], ql, now as int) || is_phase2_result(
            fin[i],
            rows[k],
            ql,
            now as int,
        ));
        assert(scored_from(fin[i], rows, ql, now));
    }
}

/// Some member of the list carries the identifier.
pub open spec fn has_id(s: Seq<SearchResult>, id: i64) -> bool {
    exists|i: int| 0 <= i < s.len() && (#[trigger] s[i]).id == id
}

/// An identifier carried by some member survives any rearrangement with
/// the same members.
proof fn lemma_id_survives(unsorted: Seq<SearchResult>, full: Seq<SearchResult>, target: i64)
    requires
        full.to_multiset() == unsorted.to_multiset(),
        has_id(unsorted, target),
    ensures
        has_id(full, target),
        exists|y: int| 0 <= y < full.len() && (#[trigger] full[y]).id == target,
{
    broadcast use vstd::seq_lib::group_to_multiset_ensures;

    let x = choose|x: int| 0 <= x < unsorted.len() && (#[trigger] unsorted[x]).id == target;
    assert(unsorted.contains(unsorted[x]));
    assert(full.to_multiset().count(unsorted[x]) > 0);
    assert(full.contains(unsorted[x]));
    let y = choose|y: int| 0 <= y < full.len() && full[y] == unsorted[x];
    assert(full[y].id == target);
}

/// The prefilter overfetch bound: three times the result cap,
/// saturated at the machine limit.
pub open spec fn spec_cap(max_results: int) -> int {
    if max_results <= (usize::MAX as int) / 3 {
        3 * max_results
    } else {
        usize::MAX as int
    }
}

/// The pool holds one entry per prefiltered candidate, and — whenever
/// the prefilter came back under the cap — one per row whose name
/// fuzzy-matches positively.
pub open spec fn pool_covers(
    full: Seq<SearchResult>,
    cand: Seq<FileEntry>,
    rows: Seq<FileEntry>,
    ql: Seq<char>,
    max_results: int,
) -> bool {
    &&& db::prefilter_post(cand, rows, ql, spec_cap(max_results))
    &&& forall|c: int| #![trigger cand[c]] 0 <= c < cand.len() ==> has_id(full, cand[c].id)
    &&& cand.len() < max_results ==> forall|k: int|
        0 <= k < rows.len() && fuzzy_positive(#[trigger] rows[k], ql) ==> has_id(
            full,
            rows[k].id,
        )
}

/// `full` is a correctly scored, descending-sorted, duplicate-free pool
/// of stored rows of which `v` is the take-prefix at the cap, and which
/// covers everything the two passes score.
pub open spec fn pool_body(
    v: Seq<SearchResult>,
    full: Seq<SearchResult>,
    rows: Seq<FileEntry>,
    ql: Seq<char>,
    max_results: int,
) -> bool {
    &&& sorted_results(full)
    &&& forall|i: int, j: int| 0 <= i < j < full.len() ==> full[i].id != full[j].id
    &&& v == full.take(
        if max_results <= full.len() {
            max_results
        } else {
            full.len() as int
        },
    )
    &&& exists|t: i64| #[trigger] all_results_scored(full, rows, ql, t)
    &&& exists|cand: Seq<FileEntry>| #[trigger] pool_covers(full, cand, rows, ql, max_results)
}

/// The returned list is the take-prefix of one descending-sorted
/// arrangement of all scored candidates.
pub open spec fn result_is_top_prefix(
    v: Seq<SearchResult>,
    rows: Seq<FileEntry>,
    ql: Seq<char>,
    max_results: int,
) -> bool {
    exists|full: Seq<SearchResult>| #[trigger] pool_body(v, full, rows, ql, max_results)
}

/// Assemble `result_is_top_prefix` from the facts the two phases leave
/// behind.
proof fn lemma_top_prefix(
    v: Seq<SearchResult>,
    full: Seq<SearchResult>,
    unsorted: Seq<SearchResult>,
    cand: Seq<FileEntry>,
    rows: Seq<FileEntry>,
    ql: Seq<char>,
    now: i64,
    max_results: int,
)
    requires
        sorted_results(full),
        forall|i: int, j: int| 0 <= i < j < full.len() ==> full[i].id != full[j].id,
        v == full.take(
            if max_results <= full.len() {
                max_results
            } else {
                full.len() as int
            },
        ),
        all_results_scored(full, rows, ql, now),
        full.to_multiset() == unsorted.to_multiset(),
        db::prefilter_post(cand, rows, ql, spec_cap(max_results)),
        forall|c: int| #![trigger cand[c]] 0 <= c < cand.len() ==> has_id(unsorted, cand[c].id),
        cand.len() < max_results ==> forall|k: int|
            0 <= k < rows.len() && fuzzy_positive(#[trigger] rows[k], ql) ==> has_id(
                unsorted,
                rows[k].id,
            ),
    ensures
        result_is_top_prefix(v, rows, ql, max_results),
{
    assert forall|c: int| #![trigger cand[c]] 0 <= c < cand.len() implies has_id(
        full,
        cand[c].id,
    ) by {
        lemma_id_survives(unsorted, full, cand[c].id);
    }
    if cand.len() < max_results {
        assert forall|k: int|
            0 <= k < rows.len() && fuzzy_positive(#[trigger] rows[k], ql) implies has_id(
            full,
            rows[k].id,
        ) by {
            lemma_id_survives(unsorted, full, rows[k].id);
        }
    }
    assert(pool_covers(full, cand, rows, ql, max_results));
    assert(exists|t: i64| #[trigger] all_results_scored(full, rows, ql, t));
    assert(pool_body(v, full, rows, ql, max_results));
}

/// Everything `search` promises of a returned list `v`, for stored
/// rows `rows`, raw query `q` and cap `max_results`: the cap is
/// honoured, a blank query yields nothing, the list is ordered by
/// descending score (identifier as tie-break), no stored row appears
/// twice, every element is one stored row scored by one of the two
/// passes at a single session time, and a list under the cap is
/// complete for both passes.
pub open spec fn search_post(
    v: Seq<SearchResult>,
    rows: Seq<FileEntry>,
    q: Seq<char>,
    max_results: int,
) -> bool {
    &&& v.len() <= max_results
    &&& trimmed_of(q).len() == 0 ==> v == Seq::<SearchResult>::empty()
    &&& sorted_results(v)
    &&& forall|i: int, j: int| 0 <= i < j < v.len() ==> v[i].id != v[j].id
    &&& exists|t: i64| #[trigger] all_results_scored(v, rows, lower_of(q), t)
    &&& (trimmed_of(q).len() != 0 && v.len() < max_results) ==> forall|k: int|
        0 <= k < rows.len() && db::row_matches(#[trigger] rows[k], lower_of(q)) ==> exists|i: int|
            0 <= i < v.len() && (#[trigger] v[i]).id == rows[k].id
    &&& (trimmed_of(q).len() != 0 && v.len() < max_results) ==> forall|k: int|
        0 <= k < rows.len() && fuzzy_positive(#[trigger] rows[k], lower_of(q)) ==> exists|i: int|
            0 <= i < v.len() && (#[trigger] v[i]).id == rows[k].id
    &&& trimmed_of(q).len() != 0 ==> result_is_top_prefix(v, rows, lower_of(q), max_results)
}

/// Map a raw query to a ranked, deduplicated, capped result list.
///
/// A blank query yields no results. Otherwise a prefiltered pass scores
/// up to three times the cap of candidate rows; if that leaves the list
/// under the cap, an exhaustive pass fuzzy-matches every remaining
/// indexed filename. Results are ordered by descending score (identifier
/// as tie-break), carry at most one result per stored row, and are cut
/// to the cap. When the returned list is under the cap it is complete:
/// every stored row whose name or path contains the query, and every row
/// whose name fuzzy-matches it positively, is represented.
#[verifier::rlimit(100)]
pub fn search(db: &Database, query: &str, max_results: usize) -> (r: Result<
    Vec<SearchResult>,
    String,
>)
    requires
        db.wf(),
    ensures
        r is Ok,
        match r {
            Ok(v) => search_post(v@, db.entries(), query@, max_results as int),
            Err(_) => false,
        },
{
    let trimmed = shims::str_trim(query);
    if trimmed.as_str().unicode_len() == 0 {
        let empty: Vec<SearchResult> = Vec::new();
        proof {
            assert(empty@ =~= Seq::<SearchResult>::empty());
            assert(all_results_scored(empty@, db.entries(), lower_of(query@), 0i64));
            assert(search_post(empty@, db.entries(), query@, max_results as int));
        }
        return Ok(empty);
    }
    let ql_s = shims::to_lower(query);
    let cap: usize = if max_results <= usize::MAX / 3 {
        max_results * 3
    } else {
        usize::MAX
    };
    let cand = match db.search_files(query, cap) {
        Ok(v) => v,
        Err(e) => {
            return Err(e.message);
        },
    };
    let now = shims::now_unix();
    let ghost ql = lower_of(query@);
    let ghost rows = db.entries();
    let mut results: Vec<SearchResult> = Vec::new();
    let mut seen: Vec<i64> = Vec::new();
    let ghost mut ks: Seq<int> = Seq::empty();
    let mut i: usize = 0;
    while i < cand.len()
        invariant
            i <= cand@.len(),
            ql_s@ == ql,
            ql == lower_of(query@),
            rows == db.entries(),
            forall|x: int, y: int| 0 <= x < y < cand@.len() ==> cand@[x].id != cand@[y].id,
            forall|x: int| #![trigger cand@[x]] 0 <= x < cand@.len() ==> exists|k: int|
                0 <= k < rows.len() && cand@[x] == #[trigger] rows[k],
            results@.len() == i,
            seen@.len() == i,
            ks.len() == i,
            forall|x: int| 0 <= x < i ==> seen@[x] == cand@[x].id,
            forall|x: int| 0 <= x < i ==> (#[trigger] results@[x]).id == cand@[x].id,
            forall|x: int| 0 <= x < i ==> 0 <= #[trigger] ks[x] < rows.len(),
            forall|x: int|
                #![trigger results@[x]]
                0 <= x < i ==> is_phase1_result(results@[x], rows[ks[x]], ql, now as int)
                    || is_phase2_result(results@[x], rows[ks[x]], ql, now as int),
        decreases cand@.len() - i,
    {
        let e = &cand[i];
        let scored = score_entry(e, ql_s.as_str(), now);
        let res = SearchResult {
            id: e.id,
            filename: e.filename.clone(),
            filepath: e.filepath.clone(),
            extension: e.extension.clone(),
            file_size: e.file_size,
            modified_at: e.modified_at,
            file_type: e.file_type.clone(),
            click_count: e.click_count,
            last_accessed: e.last_accessed,
            score: scored.0,
            match_type: scored.1,
            matched_indices: scored.2,
        };
        let ghost pre_results = results@;
        results.push(res);
        seen.push(e.id);
        proof {
            let k0 = choose|k: int| 0 <= k < rows.len() && cand@[i as int] == #[trigger] rows[k];
            assert(*e == rows[k0]);
            ks = ks.push(k0);
            assert(results@[i as int] == res);
            assert(is_phase1_result(results@[i as int], rows[ks[i as int]], ql, now as int));
            assert(forall|x: int| 0 <= x < i ==> results@[x] == pre_results[x]);
        }
        i = i + 1;
    }
    let p1_len = results.len();
    if results.len() < max_results {
        let all = match db.get_all_filenames() {
            Ok(v) => v,
            Err(e) => {
                return Err(e.message);
            },
        };
        let mut j: usize = 0;
        while j < all.len()
            invariant
                j <= all@.len(),
                ql_s@ == ql,
                ql == lower_of(query@),
                rows == db.entries(),
                all@.len() == rows.len(),
                forall|x: int|
                    0 <= x < all@.len() ==> #[trigger] all@[x] == (
                        rows[x].id,
                        rows[x].filename,
                        rows[x].filepath,
                        rows[x].file_type,
                        rows[x].click_count,
                        rows[x].last_accessed,
                        rows[x].modified_at,
                    ),
                results@.len() == seen@.len(),
                ks.len() == results@.len(),
                p1_len <= results@.len(),
                p1_len == cand@.len(),
                forall|x: int| 0 <= x < seen@.len() ==> seen@[x] == (#[trigger] results@[x]).id,
                forall|x: int, y: int|
                    0 <= x < y < results@.len() ==> results@[x].id != results@[y].id,
                forall|x: int| 0 <= x < p1_len ==> (#[trigger] results@[x]).id == cand@[x].id,
                forall|x: int| 0 <= x < ks.len() ==> 0 <= #[trigger] ks[x] < rows.len(),
                forall|x: int|
                    #![trigger results@[x]]
                    0 <= x < results@.len() ==> is_phase1_result(
                        results@[x],
                        rows[ks[x]],
                        ql,
                        now as int,
                    ) || is_phase2_result(results@[x], rows[ks[x]], ql, now as int),
                forall|k: int|
                    0 <= k < j && fuzzy_positive(#[trigger] rows[k], ql) ==> exists|x: int|
                        0 <= x < results@.len() && (#[trigger] results@[x]).id == rows[k].id,
            decreases all@.len() - j,
        {
            let t = &all[j];
            if !strutil::contains_i64(&seen, t.0) {
                let lf = shims::to_lower(t.1.as_str());
                let fs = shims::fuzzy_match_score(lf.as_str(), ql_s.as_str());
                let mut pushed = false;
                match fs {
                    Some(sc) => {
                        if sc > 0 {
                            let indices = match shims::fuzzy_match_positions(
                                lf.as_str(),
                                ql_s.as_str(),
                            ) {
                                Some(p) => p.1,
                                None => Vec::new(),
                            };
                            let tb = file_type_boost(t.3.as_str());
                            let ub = usage_boost(t.4, t.5, now);
                            let score = clamp_score(sc as i128 * 500 + tb as i128 + ub as i128);
                            let res = SearchResult {
                                id: t.0,
                                filename: t.1.clone(),
                                filepath: t.2.clone(),
                                extension: String::new(),
                                file_size: 0,
                                modified_at: t.6,
                                file_type: t.3.clone(),
                                click_count: t.4,
                                last_accessed: t.5,
                                score: score,
                                match_type: String::from_str("fuzzy"),
                                matched_indices: indices,
                            };
                            let ghost pre_results = results@;
                            let ghost pre_seen = seen@;
                            results.push(res);
                            seen.push(t.0);
                            pushed = true;
                            proof {
                                ks = ks.push(j as int);
                                assert(all@[j as int].1 == rows[j as int].filename);
                                assert(lf@ == lower_of(rows[j as int].filename@));
                                assert(results@[pre_results.len() as int] == res);
                                assert(is_phase2_result(
                                    results@[pre_results.len() as int],
                                    rows[j as int],
                                    ql,
                                    now as int,
                                ));
                                assert(forall|x: int|
                                    0 <= x < pre_results.len() ==> results@[x] == pre_results[x]);
                                assert(!pre_seen.contains(t.0));
                                assert forall|x: int|
                                    0 <= x < pre_results.len() implies pre_results[x].id
                                    != t.0 by {
                                    assert(pre_seen[x] == pre_results[x].id);
                                }
                            }
                        }
                    },
                    None => {},
                }
                proof {
                    if fuzzy_positive(rows[j as int], ql) {
                        assert(pushed);
                        assert(results@[results@.len() - 1].id == rows[j as int].id);
                    }
                }
            } else {
                proof {
                    assert(seen@.contains(t.0));
                    let x = choose|x: int| 0 <= x < seen@.len() && seen@[x] == t.0;
                    assert(results@[x].id == rows[j as int].id);
                }
            }
            j = j + 1;
        }
    }
    let ghost unsorted = results@;
    let ghost uks = ks;
    let sorted = sort_results(results);
    let ghost full = sorted@;
    let mut final_list = sorted;
    final_list.truncate(max_results);
    proof {
        if max_results <= full.len() {
            assert(final_list@ == full.subrange(0, max_results as int));
        } else {
            assert(final_list@ == full);
        }
        assert(final_list@.len() <= max_results);
        assert forall|x: int, y: int|
            0 <= x < y < final_list@.len() implies final_list@[x].id != final_list@[y].id by {
            assert(final_list@[x] == full[x] && final_list@[y] == full[y]);
        }
        assert forall|x: int, y: int|
            0 <= x < y < final_list@.len() implies res_at_or_before(
            final_list@[x],
            final_list@[y],
        ) by {
            assert(final_list@[x] == full[x] && final_list@[y] == full[y]);
        }
        assert forall|x: int|
            0 <= x < final_list@.len() implies unsorted.contains(#[trigger] final_list@[x]) by {
            assert(final_list@[x] == full[x]);
        }
        lemma_all_results_scored(final_list@, unsorted, uks, rows, ql, now);
        if final_list@.len() < max_results {
            if max_results <= full.len() {
                assert(final_list@.len() == max_results);
            }
            assert(full.len() < max_results);
            assert(final_list@ == full);
            assert(unsorted.len() == full.len()) by {
                broadcast use vstd::seq_lib::group_to_multiset_ensures;

                assert(full.to_multiset().len() == unsorted.to_multiset().len());
            }
            assert(p1_len as int == cand@.len());
            assert(p1_len as int <= unsorted.len());
            assert(max_results <= cap);
            assert(cand@.len() < cap);
            assert forall|k: int|
                0 <= k < rows.len() && db::row_matches(#[trigger] rows[k], ql) implies exists|
                i_: int,
            |
                0 <= i_ < final_list@.len() && (#[trigger] final_list@[i_]).id == rows[k].id by {
                assert(db.entries()[k] == rows[k]);
                assert(exists|x: int| 0 <= x < cand@.len() && cand@[x] == db.entries()[k]);
                let c = choose|c: int| 0 <= c < cand@.len() && cand@[c] == rows[k];
                assert(unsorted[c].id == cand@[c].id);
                assert(exists|x: int|
                    0 <= x < unsorted.len() && (#[trigger] unsorted[x]).id == rows[k].id);
                lemma_id_survives(unsorted, full, rows[k].id);
            }
            assert forall|k: int|
                0 <= k < rows.len() && fuzzy_positive(#[trigger] rows[k], ql) implies exists|
                i_: int,
            |
                0 <= i_ < final_list@.len() && (#[trigger] final_list@[i_]).id == rows[k].id by {
                lemma_id_survives(unsorted, full, rows[k].id);
            }
        }
    }
    proof {
        assert(all_results_scored(final_list@, db.entries(), lower_of(query@), now));
        assert(exists|t: i64|
            #[trigger] all_results_scored(final_list@, db.entries(), lower_of(query@), t));
        if trimmed_of(query@).len() != 0 && final_list@.len() < max_results {
            assert forall|k: int|
                0 <= k < db.entries().len() && db::row_matches(
                    #[trigger] db.entries()[k],
                    lower_of(query@),
                ) implies exists|i_: int|
                0 <= i_ < final_list@.len() && (#[trigger] final_list@[i_]).id
                    == db.entries()[k].id by {
                assert(db.entries()[k] == rows[k]);
            }
            assert forall|k: int|
                0 <= k < db.entries().len() && fuzzy_positive(
                    #[trigger] db.entries()[k],
                    lower_of(query@),
                ) implies exists|i_: int|
                0 <= i_ < final_list@.len() && (#[trigger] final_list@[i_]).id
                    == db.entries()[k].id by {
                assert(db.entries()[k] == rows[k]);
            }
        }
        assert(sorted_results(full));
        assert(forall|x: int, y: int| 0 <= x < y < unsorted.len() ==> unsorted[x].id != unsorted[y].id);
        assert(forall|i_: int, j_: int| 0 <= i_ < j_ < full.len() ==> full[i_].id != full[j_].id);
        if max_results <= full.len() {
            assert(final_list@ == full.take(max_results as int));
        } else {
            assert(full.take(full.len() as int) =~= full);
            assert(final_list@ == full.take(full.len() as int));
        }
        lemma_all_results_scored(full, unsorted, uks, rows, ql, now);
        assert(cap as int == spec_cap(max_results as int));
        assert(db::prefilter_post(cand@, rows, ql, spec_cap(max_results as int)));
        assert forall|c: int| #![trigger cand@[c]] 0 <= c < cand@.len() implies has_id(
            unsorted,
            cand@[c].id,
        ) by {
            assert(0 <= c < unsorted.len());
            assert(unsorted[c].id == cand@[c].id);
        }
        if cand@.len() < max_results {
            assert forall|k: int|
                0 <= k < rows.len() && fuzzy_positive(#[trigger] rows[k], ql) implies has_id(
                unsorted,
                rows[k].id,
            ) by {
                let x = choose|x: int|
                    0 <= x < unsorted.len() && (#[trigger] unsorted[x]).id == rows[k].id;
                assert(unsorted[x].id == rows[k].id);
            }
        }
        lemma_top_prefix(
            final_list@,
            full,
            unsorted,
            cand@,
            rows,
            ql,
            now,
            max_results as int,
        );
        assert(result_is_top_prefix(final_list@, rows, ql, max_results as int));
        assert(search_post(final_list@, db.entries(), query@, max_results as int));
    }
    Ok(final_list)
}

} // verus!
