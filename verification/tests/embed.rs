//! The semantic tail: what is embedded, and which pairs are scored.

use std::cell::Cell;

use mdkb::code::duplication::embed::{
    dup_cache_dir, embed_missing, pair_vectors, pending_bodies, rank_pairs, resolve_model,
    scorable_pairs, semantic_tail, serves, unclustered_pairs, BodyEmbedder, DupModel, TailStep,
    DEFAULT_DUP_MODEL, SUPPORTED_DUP_MODELS,
};

/// Counts what it was asked to embed, so a test can prove the cache spared
/// the model rather than merely producing the same answer.
struct Counting {
    calls: Cell<usize>,
    texts: Cell<usize>,
}

impl Counting {
    fn new() -> Self {
        Self {
            calls: Cell::new(0),
            texts: Cell::new(0),
        }
    }
}

impl BodyEmbedder for Counting {
    fn embed_bodies(&self, texts: &[&str]) -> Result<Vec<Vec<u32>>, String> {
        self.calls.set(self.calls.get() + 1);
        self.texts.set(self.texts.get() + texts.len());
        Ok((0..texts.len())
            .map(|i| {
                let mut v = vec![0.0f32.to_bits(); 4];
                v[i % 4] = 1.0f32.to_bits();
                v
            })
            .collect())
    }
}

fn body(hash: &str, text: &str) -> (String, String) {
    (hash.to_string(), text.to_string())
}

#[test]
fn a_body_with_no_embedding_is_embedded() {
    let embedder = Counting::new();

    let writes = embed_missing(
        &[body("h1", "fn a() {}"), body("h2", "fn b() {}")],
        &[false, false],
        &embedder,
    )
    .unwrap();

    assert_eq!(writes.len(), 2);
    assert_eq!(embedder.texts.get(), 2);
    assert!(writes.iter().any(|(at, _)| *at == 0));
}

#[test]
fn a_body_already_embedded_is_not_embedded_again() {
    let embedder = Counting::new();

    let writes = embed_missing(
        &[body("h1", "fn a() {}"), body("h2", "fn b() {}")],
        &[true, false],
        &embedder,
    )
    .unwrap();

    assert_eq!(writes.len(), 1, "only the one that was missing");
    assert_eq!(embedder.texts.get(), 1);
    assert!(
        writes.iter().all(|(at, _)| *at != 0),
        "the existing vector is untouched"
    );
}

#[test]
fn one_body_shared_by_two_candidates_is_embedded_once() {
    // The whole point of content addressing: the same function copied into
    // three files costs one pass of the model.
    let embedder = Counting::new();

    let writes = embed_missing(
        &[
            body("same", "fn a() {}"),
            body("same", "fn a() {}"),
            body("same", "fn a() {}"),
        ],
        &[false, false, false],
        &embedder,
    )
    .unwrap();

    assert_eq!(writes.len(), 1);
    assert_eq!(embedder.texts.get(), 1);
}

#[test]
fn nothing_to_embed_does_not_touch_the_model() {
    let embedder = Counting::new();

    assert_eq!(
        embed_missing(&[body("h1", "fn a() {}")], &[true], &embedder)
            .unwrap()
            .len(),
        0
    );
    assert_eq!(embedder.calls.get(), 0, "the model is not even called");
}

struct Short;

impl BodyEmbedder for Short {
    fn embed_bodies(&self, _: &[&str]) -> Result<Vec<Vec<u32>>, String> {
        Ok(vec![vec![1.0f32.to_bits()]])
    }
}

/// An embedder returning the wrong count would otherwise pair vectors with
/// the wrong bodies: every subsequent score would be about the wrong code.
#[test]
fn a_short_batch_from_the_embedder_is_an_error_not_a_misalignment() {
    let err = embed_missing(&[body("h1", "a"), body("h2", "b")], &[false, false], &Short)
        .unwrap_err();

    assert!(err.contains("1 vectors for 2 bodies"), "{err}");
}

struct Broken;

impl BodyEmbedder for Broken {
    fn embed_bodies(&self, _: &[&str]) -> Result<Vec<Vec<u32>>, String> {
        Err("no weights".to_string())
    }
}

#[test]
fn what_the_embedder_says_went_wrong_is_passed_on() {
    let err = embed_missing(&[body("h1", "a")], &[false], &Broken).unwrap_err();
    assert_eq!(err, "no weights");
    assert!(embed_missing(&[], &[], &Broken).unwrap().is_empty());
}

#[test]
fn the_first_of_equal_bodies_stands_for_them() {
    let bodies = [body("a", "1"), body("b", "2"), body("a", "1"), body("c", "3")];
    assert_eq!(pending_bodies(&bodies, &[false, false, false, true]), [0, 1]);
    assert_eq!(pending_bodies(&bodies, &[true, false, true, false]), [1, 3]);
    assert_eq!(
        pair_vectors(&vec![1, 3], vec![vec![7], vec![8]]).unwrap(),
        [(1, vec![7]), (3, vec![8])]
    );
}

#[test]
fn only_pairs_the_structural_pass_left_alone_are_scored() {
    // 0 and 1 already cluster; every other pair is still open.
    let pairs = unclustered_pairs(4, &[vec![0, 1]]);

    assert_eq!(pairs, [(0, 2), (0, 3), (1, 2), (1, 3), (2, 3)]);
}

#[test]
fn two_candidates_in_different_clusters_are_still_scored() {
    let pairs = unclustered_pairs(4, &[vec![0, 1], vec![2, 3]]);

    assert_eq!(pairs, [(0, 2), (0, 3), (1, 2), (1, 3)]);
}

#[test]
fn two_ungrouped_candidates_are_not_treated_as_one_group() {
    // Both carry the "no group" marker. Comparing markers for equality
    // without excluding it would skip every pair the structural pass left,
    // which is exactly the set this pass exists to score.
    assert_eq!(unclustered_pairs(2, &[]), [(0, 1)]);
}

#[test]
fn a_cluster_holding_everything_leaves_nothing_to_score() {
    assert!(unclustered_pairs(3, &[vec![0, 1, 2]]).is_empty());
}

#[test]
fn a_cluster_beyond_the_candidates_says_nothing() {
    assert_eq!(unclustered_pairs(2, &[vec![5, 6]]), [(0, 1)]);
    assert!(unclustered_pairs(1, &[]).is_empty());
    assert!(unclustered_pairs(0, &[]).is_empty());
}

/// The pairs that reach `threshold`, strongest first, each scored by the dot
/// product of its vectors.
fn score_pairs(
    vectors: &[Option<Vec<f32>>],
    pairs: &[(usize, usize)],
    threshold: f32,
) -> Vec<(usize, usize, f32)> {
    let present: Vec<bool> = vectors.iter().map(Option::is_some).collect();
    let scored: Vec<(usize, usize, u32)> = scorable_pairs(&present, pairs)
        .into_iter()
        .map(|(i, j)| {
            let a = vectors[i].as_ref().unwrap();
            let b = vectors[j].as_ref().unwrap();
            let dot: f32 = a.iter().zip(b).map(|(x, y)| x * y).sum();
            (i, j, dot.to_bits())
        })
        .collect();
    rank_pairs(&scored, threshold.to_bits())
        .into_iter()
        .map(|(i, j, s)| (i, j, f32::from_bits(s)))
        .collect()
}

#[test]
fn scoring_keeps_pairs_at_or_above_the_threshold_strongest_first() {
    let a = vec![1.0f32, 0.0];
    let close = vec![0.9487f32, 0.3162]; // ~0.9487 against `a`
    let far = vec![0.0f32, 1.0];
    let vectors = vec![Some(a), Some(close), Some(far)];

    let scored = score_pairs(&vectors, &[(0, 1), (0, 2), (1, 2)], 0.3);

    assert_eq!(scored.len(), 2, "the orthogonal pair is below 0.3");
    assert_eq!((scored[0].0, scored[0].1), (0, 1));
    assert!(scored[0].2 > scored[1].2, "strongest first");
}

#[test]
fn a_pair_exactly_at_the_threshold_is_kept() {
    let vectors = vec![Some(vec![1.0f32, 0.0]), Some(vec![1.0f32, 0.0])];

    assert_eq!(score_pairs(&vectors, &[(0, 1)], 1.0).len(), 1);
}

#[test]
fn a_pair_whose_vector_is_missing_is_not_scored_as_dissimilar() {
    // Absent is not "dissimilar". Recording it as 0 would tell the reader
    // the model judged code it never saw.
    let vectors = vec![Some(vec![1.0f32, 0.0]), None];

    assert!(score_pairs(&vectors, &[(0, 1)], -1.0).is_empty());
}

#[test]
fn scores_are_compared_as_the_numbers_they_are() {
    let scores = [
        0.0f32,
        -0.0,
        1.0,
        -1.0,
        0.5,
        -0.5,
        f32::MIN_POSITIVE,
        -f32::MIN_POSITIVE,
        f32::INFINITY,
        f32::NEG_INFINITY,
        f32::NAN,
        1.0e-40,
    ];
    for threshold in scores {
        let scored: Vec<(usize, usize, u32)> = (0..scores.len())
            .map(|i| (i, i + 1, scores[i].to_bits()))
            .collect();
        let ranked = rank_pairs(&scored, threshold.to_bits());
        let kept: Vec<usize> = (0..scores.len()).filter(|&i| scores[i] >= threshold).collect();
        let mut got: Vec<usize> = ranked.iter().map(|r| r.0).collect();
        for pair in ranked.windows(2) {
            let (a, b) = (f32::from_bits(pair[0].2), f32::from_bits(pair[1].2));
            assert!(a > b || a == b && pair[0].0 < pair[1].0, "{a} before {b}");
        }
        got.sort_unstable();
        assert_eq!(got, kept, "threshold {threshold}");
    }
}

#[test]
fn equal_scores_keep_the_order_of_the_candidates() {
    let one = 1.0f32.to_bits();
    let ranked = rank_pairs(&[(1, 3, one), (0, 5, one), (0, 2, one)], one);
    assert_eq!(ranked, [(0, 2, one), (0, 5, one), (1, 3, one)]);
}

#[test]
fn a_settled_candidate_set_asks_for_no_model() {
    assert!(matches!(semantic_tail(2, &[vec![0, 1]]), TailStep::Settled));
    assert!(matches!(semantic_tail(1, &[]), TailStep::Settled));
    match semantic_tail(3, &[vec![0, 1]]) {
        TailStep::Score(pairs) => assert_eq!(pairs, [(0, 2), (1, 2)]),
        TailStep::Settled => panic!("two pairs are open"),
    }
}

#[test]
fn an_unsupported_model_name_is_refused() {
    let err = resolve_model("BgeSmallEnV15").unwrap_err();
    assert!(err.contains("unsupported duplication model"), "{err}");
}

#[test]
fn every_supported_name_resolves_to_a_model() {
    for name in SUPPORTED_DUP_MODELS {
        assert!(resolve_model(name).is_ok(), "{name}");
    }
    assert!(SUPPORTED_DUP_MODELS.contains(&DEFAULT_DUP_MODEL));
    assert_eq!(resolve_model("AllMiniLML6V2"), Ok(DupModel::AllMiniLML6V2));
}

#[test]
fn the_weights_lie_where_the_environment_says() {
    assert_eq!(dup_cache_dir(Some("/w"), Some("/home/u")), "/w");
    assert_eq!(dup_cache_dir(None, Some("/home/u")), "/home/u/.cache/fastembed");
    assert_eq!(dup_cache_dir(None, None), ".fastembed_cache");
}

#[test]
fn a_loaded_model_serves_its_own_name_only() {
    assert!(serves(Some("a"), "a"));
    assert!(!serves(Some("a"), "b"));
    assert!(!serves(None, "a"));
}
