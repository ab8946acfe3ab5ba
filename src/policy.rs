//! The hit-or-miss decision: the candidate most similar to the query is
//! reused when its similarity is above the threshold.
use vstd::prelude::*;
use crate::cache::records_view;
use crate::similarity::{
    MAX_DIMENSION, THRESHOLD_SCALE, cosine, cosine_similarity, lemma_similarity_ge_gt, lemma_similarity_gt_ge,
    lemma_similarity_gt_transitive, more_similar, similarity_exceeds, similarity_gt,
};
use crate::types::{EmbeddingData, RecordView};

verus! {

/// Candidate `c` has an embedding of the query's length `n`, so it can be
/// scored; any other is passed over.
pub open spec fn scorable(c: RecordView, n: nat) -> bool {
    c.2.len() == n
}

/// `b` is a scorable candidate than which no scorable candidate is more
/// similar to `q`.
pub open spec fn is_best(q: Seq<i16>, cands: Seq<RecordView>, b: int) -> bool {
    &&& 0 <= b < cands.len()
    &&& scorable(cands[b], q.len())
    &&& forall|j: int|
        0 <= j < cands.len() && scorable(#[trigger] cands[j], q.len()) ==> !similarity_gt(
            cosine(q, cands[j].2),
            cosine(q, cands[b].2),
        )
}

proof fn lemma_cosine_radicand_positive(a: Seq<i16>, b: Seq<i16>)
    ensures
        cosine(a, b).1 > 0,
{
    crate::similarity::lemma_norm_sq_nonneg(a);
    crate::similarity::lemma_norm_sq_nonneg(b);
    let na = crate::similarity::norm_sq(a);
    let nb = crate::similarity::norm_sq(b);
    if na != 0 && nb != 0 {
        assert(na * nb > 0) by (nonlinear_arith)
            requires na > 0, nb > 0;
    }
}

/// The candidate most similar to `query`, the first of equals; `None` when
/// no candidate can be scored.
pub fn best_candidate(query: &[i16], candidates: &Vec<EmbeddingData>) -> (r: Option<usize>)
    requires
        query.len() <= MAX_DIMENSION,
    ensures
        r is None <==> forall|j: int|
            0 <= j < candidates.len() ==> !scorable(#[trigger] records_view(candidates@)[j], query@.len()),
        r matches Some(b) ==> is_best(query@, records_view(candidates@), b as int),
        r matches Some(b) ==> forall|j: int|
            0 <= j < b && scorable(#[trigger] records_view(candidates@)[j], query@.len()) ==> similarity_gt(
                cosine(query@, candidates@[b as int].embedding@),
                cosine(query@, candidates@[j].embedding@),
            ),
{
    let ghost cands = records_view(candidates@);
    let mut best: Option<usize> = None;
    let mut i: usize = 0;
    while i < candidates.len()
        invariant
            i <= candidates.len(),
            query.len() <= MAX_DIMENSION,
            cands == records_view(candidates@),
            best is None <==> forall|j: int| 0 <= j < i ==> !scorable(#[trigger] cands[j], query@.len()),
            best matches Some(b) ==> b < i && scorable(cands[b as int], query@.len()) && forall|j: int|
                0 <= j < i && scorable(#[trigger] cands[j], query@.len()) ==> !similarity_gt(
                    cosine(query@, cands[j].2),
                    cosine(query@, cands[b as int].2),
                ),
            best matches Some(b) ==> forall|j: int|
                0 <= j < b && scorable(#[trigger] cands[j], query@.len()) ==> similarity_gt(
                    cosine(query@, cands[b as int].2),
                    cosine(query@, cands[j].2),
                ),
        decreases candidates.len() - i,
    {
        let c = &candidates[i];
        proof {
            assert(cands[i as int] == candidates@[i as int]@);
        }
        if c.embedding.len() == query.len() {
            match best {
                None => {
                    best = Some(i);
                },
                Some(b) => {
                    if more_similar(query, c.embedding.as_slice(), candidates[b].embedding.as_slice()) {
                        proof {
                            assert forall|j: int|
                                0 <= j < i + 1 && scorable(#[trigger] cands[j], query@.len()) implies !similarity_gt(
                                cosine(query@, cands[j].2),
                                cosine(query@, cands[i as int].2),
                            ) by {
                                lemma_cosine_radicand_positive(query@, cands[j].2);
                                lemma_cosine_radicand_positive(query@, cands[i as int].2);
                                lemma_cosine_radicand_positive(query@, cands[b as int].2);
                                if j < i && similarity_gt(cosine(query@, cands[j].2), cosine(query@, cands[i as int].2)) {
                                    lemma_similarity_gt_transitive(
                                        cosine(query@, cands[j].2),
                                        cosine(query@, cands[i as int].2),
                                        cosine(query@, cands[b as int].2),
                                    );
                                }
                                if j == i {
                                    lemma_similarity_irreflexive(cosine(query@, cands[j].2));
                                }
                            }
                            assert forall|j: int|
                                0 <= j < i && scorable(#[trigger] cands[j], query@.len()) implies similarity_gt(
                                cosine(query@, cands[i as int].2),
                                cosine(query@, cands[j].2),
                            ) by {
                                lemma_cosine_radicand_positive(query@, cands[j].2);
                                lemma_cosine_radicand_positive(query@, cands[i as int].2);
                                lemma_cosine_radicand_positive(query@, cands[b as int].2);
                                if j < b {
                                    lemma_similarity_gt_transitive(
                                        cosine(query@, cands[i as int].2),
                                        cosine(query@, cands[b as int].2),
                                        cosine(query@, cands[j].2),
                                    );
                                } else {
                                    lemma_similarity_gt_ge(
                                        cosine(query@, cands[i as int].2),
                                        cosine(query@, cands[b as int].2),
                                        cosine(query@, cands[j].2),
                                    );
                                }
                            }
                        }
                        best = Some(i);
                    }
                },
            }
        }
        proof {
            if best is Some {
                assert(scorable(cands[best->Some_0 as int], query@.len()));
            }
            if best is Some && best->Some_0 == i {
                assert forall|j: int|
                    0 <= j < i + 1 && scorable(#[trigger] cands[j], query@.len()) implies !similarity_gt(
                    cosine(query@, cands[j].2),
                    cosine(query@, cands[i as int].2),
                ) by {
                    if j == i {
                        lemma_similarity_irreflexive(cosine(query@, cands[j].2));
                    }
                }
            }
        }
        i = i + 1;
    }
    best
}

proof fn lemma_similarity_irreflexive(s: (int, int))
    ensures
        !similarity_gt(s, s),
{
}

/// Decides a query against the candidates a search found: `Some(b)` when
/// candidate `b`, the first of the most similar ones, is more similar than
/// `threshold_ppm / 1_000_000` and its response is to be reused; `None` for
/// a miss.
pub fn decide(query: &[i16], candidates: &Vec<EmbeddingData>, threshold_ppm: i64) -> (r: Option<usize>)
    requires
        query.len() <= MAX_DIMENSION,
        -THRESHOLD_SCALE <= threshold_ppm <= THRESHOLD_SCALE,
    ensures
        r matches Some(b) ==> is_best(query@, records_view(candidates@), b as int) && similarity_exceeds(
            cosine(query@, candidates@[b as int].embedding@),
            threshold_ppm as int,
        ),
        r matches Some(b) ==> forall|j: int|
            0 <= j < b && scorable(#[trigger] records_view(candidates@)[j], query@.len()) ==> similarity_gt(
                cosine(query@, candidates@[b as int].embedding@),
                cosine(query@, candidates@[j].embedding@),
            ),
        r is None ==> forall|b: int|
            #[trigger] is_best(query@, records_view(candidates@), b) ==> !similarity_exceeds(
                cosine(query@, candidates@[b].embedding@),
                threshold_ppm as int,
            ),
{
    match best_candidate(query, candidates) {
        None => None,
        Some(b) => {
            let s = cosine_similarity(query, candidates[b].embedding.as_slice());
            if s.exceeds(threshold_ppm) {
                Some(b)
            } else {
                proof {
                    let cands = records_view(candidates@);
                    let t = (threshold_ppm as int, THRESHOLD_SCALE * THRESHOLD_SCALE);
                    assert(cands[b as int] == candidates@[b as int]@);
                    assert forall|c: int| #[trigger] is_best(query@, cands, c) implies !similarity_exceeds(
                        cosine(query@, candidates@[c].embedding@),
                        threshold_ppm as int,
                    ) by {
                        assert(cands[c] == candidates@[c]@);
                        lemma_cosine_radicand_positive(query@, cands[c].2);
                        lemma_cosine_radicand_positive(query@, cands[b as int].2);
                        if similarity_exceeds(cosine(query@, cands[c].2), threshold_ppm as int) {
                            lemma_similarity_ge_gt(cosine(query@, cands[b as int].2), cosine(query@, cands[c].2), t);
                        }
                    }
                }
                None
            }
        },
    }
}

} // verus!
