//! What the duplication cache holds of a body.

use mdkb::code::duplication::store::{
    artifacts_in, decode, encode, from_i64, gc, reconcile_embedding_signature, set_embedding,
    to_i64, upsert_structural, Statement,
};

fn bits(vector: &[f32]) -> Vec<u32> {
    vector.iter().map(|f| f.to_bits()).collect()
}

#[test]
fn a_row_reads_back_as_it_was_written() {
    let got = artifacts_in(to_i64(42), 7, None);
    assert_eq!(got.simhash, 42);
    assert_eq!(got.nodes, 7);
    assert_eq!(got.embedding, None);
}

#[test]
fn a_simhash_keeps_its_bits_in_a_signed_column() {
    for hash in [0, 1, u64::MAX - 1, u64::MAX, 1 << 63, (1 << 63) - 1] {
        assert_eq!(from_i64(to_i64(hash)), hash);
        assert_eq!(artifacts_in(to_i64(hash), 3, None).simhash, hash);
    }
    assert_eq!(to_i64(u64::MAX), -1);
    assert_eq!(to_i64(1 << 63), i64::MIN);
}

#[test]
fn a_vector_keeps_its_bits_in_a_blob() {
    let v = [-1.5f32, 0.0, 2.25, 0.125, f32::NAN, -0.0];
    let blob = encode(&bits(&v));
    let expected: Vec<u8> = v.iter().flat_map(|f| f.to_le_bytes()).collect();
    assert_eq!(blob, expected);
    assert_eq!(decode(&blob), Some(bits(&v)));
    assert_eq!(artifacts_in(1, 1, Some(&blob)).embedding, Some(bits(&v)));
}

#[test]
fn bytes_that_are_no_vector_are_absent() {
    // Three bytes cannot be single-precision numbers. Decoding them as a
    // one-element vector would score as garbage against every other body.
    assert_eq!(decode(&[1, 2, 3]), None);
    assert_eq!(decode(&[1, 2, 3, 4, 5]), None);
    assert_eq!(decode(&[]), None);
    assert_eq!(artifacts_in(1, 1, Some(&[1, 2, 3])).embedding, None);
    assert!(encode(&[]).is_empty());
}

#[test]
fn an_upsert_writes_the_structural_columns_alone() {
    assert_eq!(
        upsert_structural("keep", u64::MAX, 5, 99),
        Statement::Fingerprint {
            hash: "keep".to_string(),
            simhash: -1,
            nodes: 5,
            last_seen: 99,
        }
    );
}

#[test]
fn an_embedding_is_written_as_bytes() {
    assert_eq!(
        set_embedding("vec", &bits(&[1.0, 0.5])),
        Statement::Embedding {
            hash: "vec".to_string(),
            blob: vec![0, 0, 0x80, 0x3f, 0, 0, 0, 0x3f],
        }
    );
}

#[test]
fn only_the_same_signature_vouches_for_the_embeddings() {
    let clear = |signature: &str| {
        vec![
            Statement::ClearEmbeddings,
            Statement::Signature(signature.to_string()),
        ]
    };
    assert_eq!(
        reconcile_embedding_signature(Some("Jina:256:512"), "Jina:256:256"),
        clear("Jina:256:256")
    );
    assert!(reconcile_embedding_signature(Some("Jina:256:256"), "Jina:256:256").is_empty());
    assert_eq!(
        reconcile_embedding_signature(None, "Jina:256:256"),
        clear("Jina:256:256")
    );
}

#[test]
fn an_empty_live_set_sweeps_everything() {
    assert_eq!(gc(&[]), Statement::DropAll);
    let live = ["live1".to_string(), "live2".to_string()];
    assert_eq!(gc(&live), Statement::DropAllBut(live.to_vec()));
}
