use semantic_cache::api::{completion_url, embedding_url, Provider};
use semantic_cache::policy::{best_candidate, decide};
use semantic_cache::similarity::{cosine_similarity, dot_product, more_similar, Similarity};
use semantic_cache::types::EmbeddingData;
use semantic_cache::utils::{get_unix_seconds, seconds_or_epoch};

fn record(id: usize, embedding: Vec<i16>, response: &str) -> EmbeddingData {
    EmbeddingData {
        id,
        query: format!("q{}", id),
        embedding,
        response: response.to_string(),
        timestamp: 0,
    }
}

#[test]
fn dot_product_of_small_vectors() {
    assert_eq!(dot_product(&[1, 2, 3], &[4, 5, 6]), 32);
    assert_eq!(dot_product(&[], &[]), 0);
    assert_eq!(dot_product(&[-32768, -32768], &[-32768, -32768]), 2 * 1_073_741_824);
}

#[test]
fn self_similarity_is_one() {
    let s = cosine_similarity(&[3, 4], &[3, 4]);
    assert_eq!(s, Similarity { numerator: 25, radicand: 625 });
    assert!(s.exceeds(999_999));
    assert!(!s.exceeds(1_000_000));
}

#[test]
fn opposite_similarity_is_minus_one() {
    let s = cosine_similarity(&[3, 4], &[-3, -4]);
    assert_eq!(s, Similarity { numerator: -25, radicand: 625 });
    assert!(s.exceeds(-1_000_000) == false);
    assert!(!s.exceeds(-999_999));
}

#[test]
fn zero_vector_has_similarity_zero() {
    let s = cosine_similarity(&[0, 0], &[1, 2]);
    assert_eq!(s, Similarity { numerator: 0, radicand: 1 });
    assert!(s.exceeds(-1));
    assert!(!s.exceeds(0));
}

#[test]
fn similarity_of_orthogonal_and_scaled_vectors() {
    let s = cosine_similarity(&[1, 0], &[0, 5]);
    assert_eq!(s, Similarity { numerator: 0, radicand: 25 });
    let t = cosine_similarity(&[1, 1], &[2, 2]);
    assert_eq!(t, Similarity { numerator: 4, radicand: 16 });
    assert!(t.exceeds(999_999));
}

#[test]
fn more_similar_orders_by_angle() {
    assert!(more_similar(&[1, 0], &[5, 1], &[1, 1]));
    assert!(!more_similar(&[1, 0], &[1, 1], &[5, 1]));
    assert!(!more_similar(&[1, 0], &[2, 0], &[7, 0]));
    assert!(more_similar(&[1, 0], &[0, 1], &[-1, 0]));
    assert!(!more_similar(&[0, 0], &[1, 0], &[0, 1]));
}

#[test]
fn threshold_hit_at_point_nine() {
    let candidates = vec![record(0, vec![9000, 4359], "cached")];
    let s = cosine_similarity(&[1, 0], &[9000, 4359]);
    assert!(s.exceeds(899_000) && !s.exceeds(900_000));
    assert_eq!(decide(&[1, 0], &candidates, 800_000), Some(0));
    assert_eq!(candidates[0].response, "cached");
}

#[test]
fn threshold_miss_at_point_five() {
    let candidates = vec![record(0, vec![1000, 1732], "cached")];
    assert_eq!(decide(&[1, 0], &candidates, 800_000), None);
}

#[test]
fn miss_then_fresh_answer_is_stored_once() {
    let candidates = vec![record(0, vec![1000, 1732], "cached")];
    let mut completions = 0;
    let mut stored: Vec<EmbeddingData> = Vec::new();
    let answer = match decide(&[1, 0], &candidates, 800_000) {
        Some(b) => candidates[b].response.clone(),
        None => {
            completions += 1;
            let fresh = "fresh".to_string();
            stored.push(record(1, vec![1, 0], &fresh));
            fresh
        }
    };
    assert_eq!(answer, "fresh");
    assert_eq!(completions, 1);
    assert_eq!(stored.len(), 1);
}

#[test]
fn best_candidate_takes_the_most_similar_first() {
    let candidates = vec![
        record(0, vec![0, 1], "far"),
        record(1, vec![3, 1], "near"),
        record(2, vec![6, 2], "near too"),
        record(3, vec![1, 0, 0], "wrong length"),
    ];
    assert_eq!(best_candidate(&[1, 0], &candidates), Some(1));
    assert_eq!(decide(&[1, 0], &candidates, 900_000), Some(1));
    assert_eq!(decide(&[1, 0], &candidates, 990_000), None);
}

#[test]
fn no_candidates_is_a_miss() {
    let empty: Vec<EmbeddingData> = Vec::new();
    assert_eq!(best_candidate(&[1, 0], &empty), None);
    assert_eq!(decide(&[1, 0], &empty, 0), None);
    let unscorable = vec![record(0, vec![1], "x")];
    assert_eq!(best_candidate(&[1, 0], &unscorable), None);
}

#[test]
fn endpoints_by_provider() {
    assert_eq!(completion_url(Provider::OpenAI), "https://api.openai.com/v1/chat/completions");
    assert_eq!(completion_url(Provider::OpenRouter), "https://openrouter.ai/api/v1/chat/completions");
    assert_eq!(embedding_url(Provider::OpenAI), Some("https://api.openai.com/v1/embeddings"));
    assert_eq!(embedding_url(Provider::OpenRouter), None);
}

#[test]
fn clock_reads_after_the_epoch() {
    assert!(get_unix_seconds() > 1_600_000_000);
}

#[test]
fn clock_reading_before_the_epoch_is_zero() {
    assert_eq!(seconds_or_epoch(Some(1_700_000_000)), 1_700_000_000);
    assert_eq!(seconds_or_epoch(None), 0);
}
