//! Reciprocal rank fusion of dense and sparse candidate lists.
//!
//! Two prefetch searches each return a ranked candidate list. Every unique
//! candidate is scored by the sum, over the lists it appears in, of
//! `1 / (rank_constant + rank)` with 1-based ranks; candidates are ordered
//! by that fused score, descending, and truncated to a fusion limit. Scores
//! are handled as exact rationals (numerator and denominator), compared by
//! cross-multiplication, so the reciprocal-rank formula is computed without
//! rounding.

use vstd::prelude::*;
use vstd::multiset::Multiset;

verus! {

/// One candidate returned by a prefetch search: the point identifier and
/// the stored payload.
#[derive(Debug)]
pub struct PrefetchHit {
    pub point_id: u128,
    pub file_id: String,
    pub chunk_index: i32,
    pub chunk_content: String,
}

/// One fused candidate: the payload of its first occurrence, and its
/// 1-based rank in each prefetch list (absent when the candidate does not
/// appear in that list).
#[derive(Debug)]
pub struct FusedCandidate {
    pub hit: PrefetchHit,
    pub dense_rank: Option<u64>,
    pub sparse_rank: Option<u64>,
}

/// Copies a prefetch hit.
fn clone_hit(h: &PrefetchHit) -> (r: PrefetchHit)
    ensures
        r == *h,
{
    PrefetchHit {
        point_id: h.point_id,
        file_id: h.file_id.clone(),
        chunk_index: h.chunk_index,
        chunk_content: h.chunk_content.clone(),
    }
}

/// The 1-based rank of the first hit with the given identifier.
pub open spec fn rank_in(l: Seq<PrefetchHit>, id: u128) -> Option<int>
    decreases l.len(),
{
    if l.len() == 0 {
        Option::None
    } else if l[0].point_id == id {
        Option::Some(1)
    } else {
        match rank_in(l.drop_first(), id) {
            Option::None => Option::None,
            Option::Some(r) => Option::Some(r + 1),
        }
    }
}

/// `rank_in` names the first occurrence: the hit at the rank carries the
/// identifier and no earlier hit does; with no rank, no hit carries it.
pub proof fn lemma_rank_in_first(l: Seq<PrefetchHit>, id: u128)
    ensures
        match rank_in(l, id) {
            Option::None => forall|j: int| 0 <= j < l.len() ==> (#[trigger] l[j]).point_id != id,
            Option::Some(r) => {
                &&& 1 <= r <= l.len()
                &&& l[r - 1].point_id == id
                &&& forall|j: int| 0 <= j < r - 1 ==> (#[trigger] l[j]).point_id != id
            },
        },
    decreases l.len(),
{
    if l.len() > 0 && l[0].point_id != id {
        let rest = l.drop_first();
        lemma_rank_in_first(rest, id);
        match rank_in(rest, id) {
            Option::None => {
                assert forall|j: int| 0 <= j < l.len() implies (#[trigger] l[j]).point_id
                    != id by {
                    if j >= 1 {
                        assert(l[j] == rest[j - 1]);
                    }
                }
            },
            Option::Some(r) => {
                assert(l[r] == rest[r - 1]);
                assert forall|j: int| 0 <= j < r implies (#[trigger] l[j]).point_id != id by {
                    if j >= 1 {
                        assert(l[j] == rest[j - 1]);
                    }
                }
            },
        }
    }
}

/// The numerator of the fused score of a candidate ranked `dr` in the dense
/// list and `sr` in the sparse list: the exact fraction of
/// `1/(k + dr) + 1/(k + sr)`, each term present only where the rank is.
pub open spec fn rrf_num(k: int, dr: Option<int>, sr: Option<int>) -> int {
    match (dr, sr) {
        (Option::Some(r1), Option::Some(r2)) => (k + r2) + (k + r1),
        (Option::Some(r1), Option::None) => 1,
        (Option::None, Option::Some(r2)) => 1,
        (Option::None, Option::None) => 0,
    }
}

/// The denominator of the fused score (see `rrf_num`).
pub open spec fn rrf_den(k: int, dr: Option<int>, sr: Option<int>) -> int {
    match (dr, sr) {
        (Option::Some(r1), Option::Some(r2)) => (k + r1) * (k + r2),
        (Option::Some(r1), Option::None) => k + r1,
        (Option::None, Option::Some(r2)) => k + r2,
        (Option::None, Option::None) => 1,
    }
}

/// The fused score of a candidate equals the reciprocal-rank formula, as an
/// exact rational. A candidate at rank `r1` in the dense list and `r2` in
/// the sparse list scores `1/(k+r1) + 1/(k+r2)`, which as one fraction is
/// `((k+r2) + (k+r1)) / ((k+r1) * (k+r2))`; a candidate in only one list
/// scores only that list's term, `1 / (k+r)`.
pub proof fn lemma_rrf_score_formula(k: int, r1: int, r2: int)
    ensures
        rrf_num(k, Option::Some(r1), Option::Some(r2)) == (k + r2) + (k + r1),
        rrf_den(k, Option::Some(r1), Option::Some(r2)) == (k + r1) * (k + r2),
        rrf_num(k, Option::Some(r1), Option::None) == 1,
        rrf_den(k, Option::Some(r1), Option::None) == k + r1,
        rrf_num(k, Option::None, Option::Some(r2)) == 1,
        rrf_den(k, Option::None, Option::Some(r2)) == k + r2,
{
}

/// The view of an optional 1-based rank.
pub open spec fn opt_rank(o: Option<u64>) -> Option<int> {
    match o {
        Option::Some(r) => Option::Some(r as int),
        Option::None => Option::None,
    }
}

/// Whether the first pair of ranks scores at least the second, comparing
/// the exact fractions by cross-multiplication.
pub open spec fn score_ranks_ge(
    k: int,
    d1: Option<int>,
    s1: Option<int>,
    d2: Option<int>,
    s2: Option<int>,
) -> bool {
    rrf_num(k, d1, s1) * rrf_den(k, d2, s2) >= rrf_num(k, d2, s2) * rrf_den(k, d1, s1)
}

/// Whether candidate `a` scores at least candidate `b`.
pub open spec fn score_ge(k: int, a: FusedCandidate, b: FusedCandidate) -> bool {
    score_ranks_ge(k, opt_rank(a.dense_rank), opt_rank(a.sparse_rank), opt_rank(b.dense_rank), opt_rank(b.sparse_rank))
}

/// Ranks a comparison can be computed for: 1-based, with `k + rank` within
/// 32 bits so the cross-multiplied comparison fits machine arithmetic.
pub open spec fn rank_bounds_ok(k: int, c: FusedCandidate) -> bool {
    &&& match c.dense_rank {
        Option::Some(r) => 1 <= r && k + r <= u32::MAX,
        Option::None => true,
    }
    &&& match c.sparse_rank {
        Option::Some(r) => 1 <= r && k + r <= u32::MAX,
        Option::None => true,
    }
}

/// The fused score of `c` as an exact fraction, with its machine bounds.
fn score_parts(k: u32, c: &FusedCandidate) -> (r: (u128, u128))
    requires
        rank_bounds_ok(k as int, *c),
    ensures
        r.0 == rrf_num(k as int, opt_rank(c.dense_rank), opt_rank(c.sparse_rank)),
        r.1 == rrf_den(k as int, opt_rank(c.dense_rank), opt_rank(c.sparse_rank)),
        r.0 <= 0x2_0000_0000u128,
        1 <= r.1 <= 0x1_0000_0000_0000_0000u128,
{
    match (c.dense_rank, c.sparse_rank) {
        (Option::Some(r1), Option::Some(r2)) => {
            let t1 = k as u128 + r1 as u128;
            let t2 = k as u128 + r2 as u128;
            assert(t1 * t2 <= 0x1_0000_0000_0000_0000u128 && t1 * t2 >= 1) by (nonlinear_arith)
                requires
                    1 <= t1 <= 0x1_0000_0000u128,
                    1 <= t2 <= 0x1_0000_0000u128,
            ;
            (t2 + t1, t1 * t2)
        },
        (Option::Some(r1), Option::None) => (1, k as u128 + r1 as u128),
        (Option::None, Option::Some(r2)) => (1, k as u128 + r2 as u128),
        (Option::None, Option::None) => (0, 1),
    }
}

/// Compares two candidates by fused score, exactly.
fn score_ge_exec(k: u32, a: &FusedCandidate, b: &FusedCandidate) -> (r: bool)
    requires
        rank_bounds_ok(k as int, *a),
        rank_bounds_ok(k as int, *b),
    ensures
        r == score_ge(k as int, *a, *b),
{
    let (na, da) = score_parts(k, a);
    let (nb, db) = score_parts(k, b);
    assert(na * db <= 0x2_0000_0000_0000_0000_0000_0000u128 && nb * da
        <= 0x2_0000_0000_0000_0000_0000_0000u128) by (nonlinear_arith)
        requires
            na <= 0x2_0000_0000u128,
            nb <= 0x2_0000_0000u128,
            1 <= da <= 0x1_0000_0000_0000_0000u128,
            1 <= db <= 0x1_0000_0000_0000_0000u128,
    ;
    na * db >= nb * da
}

/// The fused-score order is total.
pub proof fn lemma_score_ge_total(k: int, a: FusedCandidate, b: FusedCandidate)
    ensures
        score_ge(k, a, b) || score_ge(k, b, a),
{
}

/// The fused-score order is transitive (denominators are positive for
/// candidates with well-bounded ranks).
pub proof fn lemma_score_ge_trans(k: int, a: FusedCandidate, b: FusedCandidate, c: FusedCandidate)
    requires
        k >= 0,
        rank_bounds_ok(k, a),
        rank_bounds_ok(k, b),
        rank_bounds_ok(k, c),
        score_ge(k, a, b),
        score_ge(k, b, c),
    ensures
        score_ge(k, a, c),
{
    let na = rrf_num(k, opt_rank(a.dense_rank), opt_rank(a.sparse_rank));
    let da = rrf_den(k, opt_rank(a.dense_rank), opt_rank(a.sparse_rank));
    let nb = rrf_num(k, opt_rank(b.dense_rank), opt_rank(b.sparse_rank));
    let db = rrf_den(k, opt_rank(b.dense_rank), opt_rank(b.sparse_rank));
    let nc = rrf_num(k, opt_rank(c.dense_rank), opt_rank(c.sparse_rank));
    let dc = rrf_den(k, opt_rank(c.dense_rank), opt_rank(c.sparse_rank));
    lemma_den_pos(k, a);
    lemma_den_pos(k, b);
    lemma_den_pos(k, c);
    assert(na * dc >= nc * da) by (nonlinear_arith)
        requires
            na * db >= nb * da,
            nb * dc >= nc * db,
            da > 0,
            db > 0,
            dc > 0,
    ;
}

/// A well-bounded candidate's score has a positive denominator.
proof fn lemma_den_pos(k: int, c: FusedCandidate)
    requires
        k >= 0,
        rank_bounds_ok(k, c),
    ensures
        rrf_den(k, opt_rank(c.dense_rank), opt_rank(c.sparse_rank)) > 0,
{
    match (c.dense_rank, c.sparse_rank) {
        (Option::Some(r1), Option::Some(r2)) => {
            assert((k + r1) * (k + r2) > 0) by (nonlinear_arith)
                requires
                    k + r1 >= 1,
                    k + r2 >= 1,
            ;
        },
        _ => {},
    }
}

/// Candidates in descending fused-score order.
pub open spec fn candidates_sorted(k: int, s: Seq<FusedCandidate>) -> bool {
    forall|i: int, j: int| 0 <= i <= j < s.len() ==> score_ge(k, #[trigger] s[i], #[trigger] s[j])
}

/// Sorts candidates by fused score, descending: the result is a
/// permutation of the input in descending score order.
fn sort_candidates_desc(input: Vec<FusedCandidate>, k: u32) -> (r: Vec<FusedCandidate>)
    requires
        forall|i: int| 0 <= i < input@.len() ==> rank_bounds_ok(k as int, #[trigger] input@[i]),
    ensures
        r@.to_multiset() == input@.to_multiset(),
        r@.len() == input@.len(),
        candidates_sorted(k as int, r@),
        forall|i: int| 0 <= i < r@.len() ==> rank_bounds_ok(k as int, #[trigger] r@[i]),
{
    broadcast use vstd::seq_lib::group_to_multiset_ensures;
    broadcast use vstd::multiset::group_multiset_axioms;

    let ghost orig = input@;
    let mut rest = input;
    let mut out: Vec<FusedCandidate> = Vec::new();
    while rest.len() > 0
        invariant
            out@.to_multiset().add(rest@.to_multiset()) == orig.to_multiset(),
            out@.len() + rest@.len() == orig.len(),
            candidates_sorted(k as int, out@),
            forall|i: int| 0 <= i < out@.len() ==> rank_bounds_ok(k as int, #[trigger] out@[i]),
            forall|i: int| 0 <= i < rest@.len() ==> rank_bounds_ok(k as int, #[trigger] rest@[i]),
            forall|a: int, b: int|
                0 <= a < out@.len() && 0 <= b < rest@.len() ==> score_ge(
                    k as int,
                    #[trigger] out@[a],
                    #[trigger] rest@[b],
                ),
        decreases rest@.len(),
    {
        // Select the best-scoring remaining candidate.
        let mut m: usize = 0;
        let mut j: usize = 1;
        while j < rest.len()
            invariant
                rest@.len() > 0,
                m < j <= rest@.len(),
                forall|t: int| 0 <= t < rest@.len() ==> rank_bounds_ok(k as int, #[trigger] rest@[t]),
                forall|t: int| 0 <= t < j ==> score_ge(k as int, rest@[m as int], #[trigger] rest@[t]),
            decreases rest@.len() - j,
        {
            if !score_ge_exec(k, &rest[m], &rest[j]) {
                proof {
                    lemma_score_ge_total(k as int, rest@[m as int], rest@[j as int]);
                    assert forall|t: int| 0 <= t < j + 1 implies score_ge(
                        k as int,
                        rest@[j as int],
                        #[trigger] rest@[t],
                    ) by {
                        if t < j {
                            lemma_score_ge_trans(
                                k as int,
                                rest@[j as int],
                                rest@[m as int],
                                rest@[t],
                            );
                        }
                    }
                }
                m = j;
            }
            j = j + 1;
        }
        let ghost rest0 = rest@;
        let ghost out0 = out@;
        let x = rest.remove(m);
        out.push(x);
        proof {
            assert(out@ == out0.push(x));
            assert(rest@ == rest0.remove(m as int));
            out0.to_multiset_ensures();
            rest0.to_multiset_ensures();
            assert(out0.push(x).to_multiset() =~= out0.to_multiset().insert(x));
            assert(rest0.remove(m as int).to_multiset() =~= rest0.to_multiset().remove(
                rest0[m as int],
            ));
            assert(rest0.contains(x));
            assert(rest0.to_multiset().count(x) > 0);
            assert(out@.to_multiset().add(rest@.to_multiset()) =~= orig.to_multiset());
            assert forall|a: int, b: int|
                0 <= a < out@.len() && 0 <= b < rest@.len() implies score_ge(
                k as int,
                #[trigger] out@[a],
                #[trigger] rest@[b],
            ) by {
                let y = rest@[b];
                assert(y == if b < m { rest0[b] } else { rest0[b + 1] });
                if a < out0.len() {
                    assert(score_ge(k as int, out0[a], y));
                } else {
                    assert(out@[a] == x);
                    assert(score_ge(k as int, x, y));
                }
            }
            assert forall|t: int| 0 <= t < rest@.len() implies rank_bounds_ok(
                k as int,
                #[trigger] rest@[t],
            ) by {
                assert(rest@[t] == if t < m { rest0[t] } else { rest0[t + 1] });
            }
        }
    }
    proof {
        assert(rest@.to_multiset() =~= Multiset::<FusedCandidate>::empty());
        assert(out@.to_multiset().add(rest@.to_multiset()) =~= out@.to_multiset());
    }
    out
}

/// The candidate's ranks are its true first-occurrence ranks in the two
/// prefetch lists, and its payload is the hit at its first occurrence,
/// taken from the dense list when it appears there.
pub open spec fn cand_genuine(
    c: FusedCandidate,
    dense: Seq<PrefetchHit>,
    sparse: Seq<PrefetchHit>,
) -> bool {
    &&& opt_rank(c.dense_rank) == rank_in(dense, c.hit.point_id)
    &&& opt_rank(c.sparse_rank) == rank_in(sparse, c.hit.point_id)
    &&& match rank_in(dense, c.hit.point_id) {
        Option::Some(r) => c.hit == dense[r - 1],
        Option::None => match rank_in(sparse, c.hit.point_id) {
            Option::Some(r) => c.hit == sparse[r - 1],
            Option::None => false,
        },
    }
}

/// Some candidate in `r` carries the identifier.
pub open spec fn contains_id(r: Seq<FusedCandidate>, id: u128) -> bool {
    exists|i: int| 0 <= i < r.len() && (#[trigger] r[i]).hit.point_id == id
}

/// No identifier appears twice.
pub open spec fn distinct_ids(r: Seq<FusedCandidate>) -> bool {
    forall|i: int, j: int|
        0 <= i < j < r.len() ==> (#[trigger] r[i]).hit.point_id != (#[trigger] r[j]).hit.point_id
}

/// What the reranking call produced: one relevance score per fused
/// candidate (in candidate order, as fixed-point values in ten-thousandths),
/// or a failure.
#[derive(Debug)]
pub enum RerankOutcome {
    Scores(Vec<i64>),
    Failed(String),
}

/// Whether one of the first `upto` hits carries the identifier.
fn id_in_prefix(l: &Vec<PrefetchHit>, upto: usize, id: u128) -> (r: bool)
    requires
        upto <= l@.len(),
    ensures
        r == exists|t: int| 0 <= t < upto && (#[trigger] l@[t]).point_id == id,
{
    let mut t: usize = 0;
    while t < upto
        invariant
            t <= upto <= l@.len(),
            forall|u: int| 0 <= u < t ==> (#[trigger] l@[u]).point_id != id,
        decreases upto - t,
    {
        if l[t].point_id == id {
            return true;
        }
        t = t + 1;
    }
    false
}

/// The 1-based rank of the identifier's first occurrence, when it has one.
fn rank_of(l: &Vec<PrefetchHit>, id: u128) -> (r: Option<u64>)
    ensures
        opt_rank(r) == rank_in(l@, id),
        r matches Option::Some(x) ==> 1 <= x && x as int <= l@.len(),
{
    let mut j: usize = 0;
    while j < l.len()
        invariant
            j <= l@.len(),
            forall|u: int| 0 <= u < j ==> (#[trigger] l@[u]).point_id != id,
        decreases l@.len() - j,
    {
        if l[j].point_id == id {
            proof {
                lemma_rank_in_first(l@, id);
                assert(rank_in(l@, id) == Option::Some(j + 1));
            }
            return Option::Some((j + 1) as u64);
        }
        j = j + 1;
    }
    proof {
        lemma_rank_in_first(l@, id);
    }
    Option::None
}

/// The default number of candidates each prefetch search returns.
pub const DEFAULT_PREFETCH_K: usize = 25;

/// The default size of the fused candidate list.
pub const DEFAULT_FUSION_K: usize = 50;

/// The default rank constant of the reciprocal-rank formula.
pub const DEFAULT_RANK_CONSTANT: u32 = 2;

/// The default number of results a query returns after reranking.
pub const DEFAULT_TOP_K: usize = 10;

/// Fuses the two prefetch candidate lists by reciprocal rank: every unique
/// candidate of either list appears once, carrying its true 1-based rank in
/// each list; candidates are ordered descending by the fused score
/// `1/(k + dense_rank) + 1/(k + sparse_rank)` (each term only where the
/// candidate appears) and the list is cut to at most `fusion_k`. A
/// candidate left out by the cut scores no better than any candidate kept.
/// An empty pair of lists fuses to an empty list; a non-empty list fuses to
/// a non-empty result whenever `fusion_k` allows one.
pub fn fuse_prefetch(
    dense: &Vec<PrefetchHit>,
    sparse: &Vec<PrefetchHit>,
    rank_constant: u32,
    fusion_k: usize,
) -> (r: Vec<FusedCandidate>)
    requires
        dense@.len() + rank_constant <= u32::MAX,
        sparse@.len() + rank_constant <= u32::MAX,
    ensures
        r@.len() <= fusion_k,
        candidates_sorted(rank_constant as int, r@),
        forall|i: int| 0 <= i < r@.len() ==> cand_genuine(#[trigger] r@[i], dense@, sparse@),
        forall|i: int| 0 <= i < r@.len() ==> rank_bounds_ok(rank_constant as int, #[trigger] r@[i]),
        distinct_ids(r@),
        dense@.len() == 0 && sparse@.len() == 0 ==> r@.len() == 0,
        fusion_k >= 1 && (dense@.len() > 0 || sparse@.len() > 0) ==> r@.len() >= 1,
        r@.len() == fusion_k || (forall|id: u128|
            #![trigger rank_in(dense@, id)]
            #![trigger rank_in(sparse@, id)]
            (rank_in(dense@, id) is Some || rank_in(sparse@, id) is Some) ==> contains_id(
                r@,
                id,
            )),
        forall|id: u128, i: int|
            #![trigger rank_in(dense@, id), r@[i]]
            #![trigger rank_in(sparse@, id), r@[i]]
            (rank_in(dense@, id) is Some || rank_in(sparse@, id) is Some) && !contains_id(r@, id)
                && 0 <= i < r@.len() ==> score_ranks_ge(
                rank_constant as int,
                opt_rank(r@[i].dense_rank),
                opt_rank(r@[i].sparse_rank),
                rank_in(dense@, id),
                rank_in(sparse@, id),
            ),
{
    let ghost dv = dense@;
    let ghost sv = sparse@;
    let ghost k = rank_constant as int;
    let mut all: Vec<FusedCandidate> = Vec::new();

    // Walk the dense list; each candidate enters at its first occurrence.
    let mut i: usize = 0;
    while i < dense.len()
        invariant
            dv == dense@,
            sv == sparse@,
            k == rank_constant as int,
            i <= dv.len(),
            dv.len() + rank_constant <= u32::MAX,
            sv.len() + rank_constant <= u32::MAX,
            forall|t: int| 0 <= t < all@.len() ==> cand_genuine(#[trigger] all@[t], dv, sv),
            forall|t: int| 0 <= t < all@.len() ==> rank_bounds_ok(k, #[trigger] all@[t]),
            forall|t: int|
                0 <= t < all@.len() ==> ((#[trigger] all@[t]).dense_rank matches Option::Some(rr)
                    && 1 <= rr <= i),
            distinct_ids(all@),
            forall|u: int| 0 <= u < i ==> contains_id(all@, (#[trigger] dv[u]).point_id),
            i > 0 ==> all@.len() >= 1,
            all@.len() <= i,
        decreases dv.len() - i,
    {
        let id = dense[i].point_id;
        let ghost all0 = all@;
        if !id_in_prefix(dense, i, id) {
            proof {
                lemma_rank_in_first(dv, id);
                assert(dv[i as int].point_id == id);
                assert(rank_in(dv, id) == Option::Some(i + 1));
            }
            let sr = rank_of(sparse, id);
            let c = FusedCandidate {
                hit: clone_hit(&dense[i]),
                dense_rank: Option::Some((i + 1) as u64),
                sparse_rank: sr,
            };
            proof {
                assert(cand_genuine(c, dv, sv));
                assert(rank_bounds_ok(k, c));
                assert forall|t: int| 0 <= t < all0.len() implies (#[trigger] all0[t]).hit.point_id
                    != id by {
                    if all0[t].hit.point_id == id {
                        assert(opt_rank(all0[t].dense_rank) == rank_in(dv, id));
                    }
                }
            }
            all.push(c);
            proof {
                assert(all@ == all0.push(c));
                assert forall|u: int| 0 <= u < i + 1 implies contains_id(
                    all@,
                    (#[trigger] dv[u]).point_id,
                ) by {
                    if u < i {
                        let t0 = choose|t: int|
                            0 <= t < all0.len() && (#[trigger] all0[t]).hit.point_id
                                == dv[u].point_id;
                        assert(all@[t0].hit.point_id == dv[u].point_id);
                    } else {
                        assert(all@[all0.len() as int].hit.point_id == id);
                    }
                }
            }
        } else {
            proof {
                let u0 = choose|t: int| 0 <= t < i && (#[trigger] dv[t]).point_id == id;
                assert(contains_id(all0, dv[u0].point_id));
                assert forall|u: int| 0 <= u < i + 1 implies contains_id(
                    all@,
                    (#[trigger] dv[u]).point_id,
                ) by {}
            }
        }
        i = i + 1;
    }

    let ghost n0 = all@.len();
    // Walk the sparse list; candidates already seen in the dense list are
    // already fused (their sparse rank was recorded when they entered).
    let mut j: usize = 0;
    while j < sparse.len()
        invariant
            dv == dense@,
            sv == sparse@,
            k == rank_constant as int,
            j <= sv.len(),
            dv.len() + rank_constant <= u32::MAX,
            sv.len() + rank_constant <= u32::MAX,
            forall|t: int| 0 <= t < all@.len() ==> cand_genuine(#[trigger] all@[t], dv, sv),
            forall|t: int| 0 <= t < all@.len() ==> rank_bounds_ok(k, #[trigger] all@[t]),
            forall|t: int|
                0 <= t < all@.len() ==> ((#[trigger] all@[t]).dense_rank is Some || (
                all@[t].sparse_rank matches Option::Some(rr) && 1 <= rr <= j)),
            distinct_ids(all@),
            forall|u: int| 0 <= u < dv.len() ==> contains_id(all@, (#[trigger] dv[u]).point_id),
            forall|u: int| 0 <= u < j ==> contains_id(all@, (#[trigger] sv[u]).point_id),
            all@.len() >= n0,
            all@.len() <= n0 + j,
            n0 <= dv.len(),
            n0 >= 1 || dv.len() == 0,
            dv.len() == 0 && j > 0 ==> all@.len() >= 1,
        decreases sv.len() - j,
    {
        let id = sparse[j].point_id;
        let ghost all0 = all@;
        if !id_in_prefix(sparse, j, id) && rank_of(dense, id).is_none() {
            proof {
                lemma_rank_in_first(sv, id);
                assert(sv[j as int].point_id == id);
                assert(rank_in(sv, id) == Option::Some(j + 1));
            }
            let c = FusedCandidate {
                hit: clone_hit(&sparse[j]),
                dense_rank: Option::None,
                sparse_rank: Option::Some((j + 1) as u64),
            };
            proof {
                assert(cand_genuine(c, dv, sv));
                assert(rank_bounds_ok(k, c));
                assert forall|t: int| 0 <= t < all0.len() implies (#[trigger] all0[t]).hit.point_id
                    != id by {
                    if all0[t].hit.point_id == id {
                        assert(opt_rank(all0[t].dense_rank) == rank_in(dv, id));
                        assert(opt_rank(all0[t].sparse_rank) == rank_in(sv, id));
                    }
                }
            }
            all.push(c);
            proof {
                assert(all@ == all0.push(c));
                assert forall|u: int| 0 <= u < dv.len() implies contains_id(
                    all@,
                    (#[trigger] dv[u]).point_id,
                ) by {
                    let t0 = choose|t: int|
                        0 <= t < all0.len() && (#[trigger] all0[t]).hit.point_id == dv[u].point_id;
                    assert(all@[t0].hit.point_id == dv[u].point_id);
                }
                assert forall|u: int| 0 <= u < j + 1 implies contains_id(
                    all@,
                    (#[trigger] sv[u]).point_id,
                ) by {
                    if u < j {
                        let t0 = choose|t: int|
                            0 <= t < all0.len() && (#[trigger] all0[t]).hit.point_id
                                == sv[u].point_id;
                        assert(all@[t0].hit.point_id == sv[u].point_id);
                    } else {
                        assert(all@[all0.len() as int].hit.point_id == id);
                    }
                }
            }
        } else {
            proof {
                if exists|t: int| 0 <= t < j && (#[trigger] sv[t]).point_id == id {
                    let u0 = choose|t: int| 0 <= t < j && (#[trigger] sv[t]).point_id == id;
                    assert(contains_id(all0, sv[u0].point_id));
                } else {
                    // The candidate already entered from the dense list.
                    lemma_rank_in_first(dv, id);
                    let rr = rank_in(dv, id)->Some_0;
                    assert(dv[rr - 1].point_id == id);
                    assert(contains_id(all0, dv[rr - 1].point_id));
                }
                assert(contains_id(all@, id));
            }
        }
        j = j + 1;
    }

    // Every candidate of either list is now fused exactly once.
    let ghost allv = all@;
    proof {
        assert forall|id: u128|
            #![trigger rank_in(dv, id)]
            #![trigger rank_in(sv, id)]
            (rank_in(dv, id) is Some || rank_in(sv, id) is Some) implies contains_id(
            allv,
            id,
        ) by {
            lemma_rank_in_first(dv, id);
            lemma_rank_in_first(sv, id);
            if rank_in(dv, id) is Some {
                let rr = rank_in(dv, id)->Some_0;
                assert(dv[rr - 1].point_id == id);
                assert(contains_id(allv, dv[rr - 1].point_id));
            } else {
                let rr = rank_in(sv, id)->Some_0;
                assert(sv[rr - 1].point_id == id);
                assert(contains_id(allv, sv[rr - 1].point_id));
            }
        }
        // Distinct identifiers mean distinct candidates.
        assert forall|a: int, b: int|
            0 <= a < allv.len() && 0 <= b < allv.len() && a != b implies allv[a] != allv[b] by {
            if a < b {
                assert(allv[a].hit.point_id != allv[b].hit.point_id);
            } else {
                assert(allv[b].hit.point_id != allv[a].hit.point_id);
            }
        }
        assert(allv.no_duplicates());
        allv.lemma_multiset_has_no_duplicates();
    }

    let mut sorted = sort_candidates_desc(all, rank_constant);
    let ghost sortedv = sorted@;
    proof {
        broadcast use vstd::seq_lib::group_to_multiset_ensures;
        broadcast use vstd::multiset::group_multiset_axioms;

        // Everything true of each fused candidate transfers through the sort.
        assert forall|t: int| 0 <= t < sortedv.len() implies cand_genuine(
            #[trigger] sortedv[t],
            dv,
            sv,
        ) by {
            let x = sortedv[t];
            assert(sortedv.contains(x));
            assert(allv.to_multiset().count(x) > 0);
            assert(allv.contains(x));
            let u = choose|u: int| 0 <= u < allv.len() && allv[u] == x;
            assert(cand_genuine(allv[u], dv, sv));
        }
        sortedv.lemma_multiset_has_no_duplicates_conv();
        assert(sortedv.no_duplicates());
        assert forall|a: int, b: int|
            0 <= a < b < sortedv.len() implies (#[trigger] sortedv[a]).hit.point_id != (
        #[trigger] sortedv[b]).hit.point_id by {
            let x = sortedv[a];
            let y = sortedv[b];
            assert(x != y);
            assert(sortedv.contains(x) && sortedv.contains(y));
            assert(allv.contains(x) && allv.contains(y));
            let ua = choose|u: int| 0 <= u < allv.len() && allv[u] == x;
            let ub = choose|u: int| 0 <= u < allv.len() && allv[u] == y;
            assert(ua != ub);
            if ua < ub {
                assert(allv[ua].hit.point_id != allv[ub].hit.point_id);
            } else {
                assert(allv[ub].hit.point_id != allv[ua].hit.point_id);
            }
        }
        // Coverage transfers through the sort.
        assert forall|id: u128| contains_id(allv, id) implies contains_id(sortedv, id) by {
            let u = choose|u: int| 0 <= u < allv.len() && (#[trigger] allv[u]).hit.point_id == id;
            let x = allv[u];
            assert(allv.contains(x));
            assert(allv.to_multiset().count(x) > 0);
            assert(sortedv.to_multiset().count(x) > 0);
            assert(sortedv.contains(x));
            let t = choose|t: int| 0 <= t < sortedv.len() && sortedv[t] == x;
            assert(contains_id(sortedv, id));
        }
    }

    // Cut the fused ranking to at most `fusion_k` candidates.
    while sorted.len() > fusion_k
        invariant
            sorted@.len() <= sortedv.len(),
            sorted@ == sortedv.take(sorted@.len() as int),
            sorted@.len() >= fusion_k || sorted@.len() == sortedv.len(),
        decreases sorted@.len(),
    {
        sorted.pop();
        proof {
            assert(sortedv.take(sorted@.len() as int + 1).drop_last() =~= sortedv.take(
                sorted@.len() as int,
            ));
        }
    }
    proof {
        let rv = sorted@;
        let ln = rv.len() as int;
        assert(rv == sortedv.take(ln));
        assert forall|t: int| 0 <= t < ln implies #[trigger] rv[t] == sortedv[t] by {}
        // Nothing was cut unless the list reached the fusion limit, so the
        // fused list either holds every candidate or holds `fusion_k`.
        if rv.len() != fusion_k {
            assert(rv.len() == sortedv.len());
            assert(rv =~= sortedv);
            assert forall|id: u128|
                #![trigger rank_in(dv, id)]
                #![trigger rank_in(sv, id)]
                (rank_in(dv, id) is Some || rank_in(sv, id) is Some) implies contains_id(
                rv,
                id,
            ) by {
                assert(contains_id(allv, id));
                assert(contains_id(sortedv, id));
            }
        }
        // A candidate cut away scores no better than any candidate kept.
        assert forall|id: u128, t: int|
            #![trigger rank_in(dv, id), rv[t]]
            #![trigger rank_in(sv, id), rv[t]]
            (rank_in(dv, id) is Some || rank_in(sv, id) is Some) && !contains_id(rv, id) && 0 <= t
                < ln implies score_ranks_ge(
            k,
            opt_rank(rv[t].dense_rank),
            opt_rank(rv[t].sparse_rank),
            rank_in(dv, id),
            rank_in(sv, id),
        ) by {
            assert(contains_id(sortedv, id));
            let p = choose|p: int|
                0 <= p < sortedv.len() && (#[trigger] sortedv[p]).hit.point_id == id;
            if p < ln {
                assert(rv[p].hit.point_id == id);
                assert(contains_id(rv, id));
            }
            assert(p >= ln);
            assert(score_ge(k, sortedv[t], sortedv[p]));
            assert(cand_genuine(sortedv[p], dv, sv));
            assert(opt_rank(sortedv[p].dense_rank) == rank_in(dv, id));
            assert(opt_rank(sortedv[p].sparse_rank) == rank_in(sv, id));
        }
    }
    sorted
}

} // verus!
