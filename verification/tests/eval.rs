//! Evaluation cases.

use mdkb::eval::embedding_gap::{populations, GapCase};
use mdkb::eval::fixture::{
    EntryStatus, EntryType, Fixture, FixtureJudge, FixtureMemory, FixtureRecall, SourceType,
};

fn fixture() -> Fixture {
    Fixture {
        memories: vec![
            FixtureMemory {
                id: "m1".to_string(),
                title: "One".to_string(),
                content: "first".to_string(),
                tags: vec!["a".to_string(), "b".to_string()],
            },
            FixtureMemory {
                id: "m2".to_string(),
                title: "Two".to_string(),
                content: "second".to_string(),
                tags: Vec::new(),
            },
        ],
        recall: vec![FixtureRecall {
            query: "what came first".to_string(),
            expected_ids: vec!["m1".to_string()],
        }],
        judge: vec![FixtureJudge {
            question: "which is second".to_string(),
            expected_answer: "two".to_string(),
        }],
    }
}

#[test]
fn every_memory_is_seeded_as_an_active_topic() {
    let entries = fixture().seed(1234);
    assert_eq!(entries.len(), 2);
    assert_eq!(entries[0].id, "m1");
    assert_eq!(entries[0].title, "One");
    assert_eq!(entries[0].content, "first");
    assert_eq!(entries[0].tags, ["a", "b"]);
    assert_eq!(entries[1].id, "m2");
    for entry in entries {
        assert_eq!(entry.entry_type, EntryType::Topic);
        assert_eq!(entry.status, EntryStatus::Active);
        assert_eq!(entry.source_type, SourceType::UserStatement);
        assert_eq!((entry.created_at, entry.updated_at), (1234, 1234));
        assert_eq!(entry.superseded_by, None);
    }
}

#[test]
fn a_store_that_embedded_less_is_refused() {
    let fixture = fixture();
    assert_eq!(fixture.embed(2), Ok(()));
    assert_eq!(
        fixture.embed(1),
        Err("eval store: embedded 1 of 2 memories".to_string())
    );
    assert!(fixture.embed(3).is_err());
}

#[test]
fn cases_carry_over() {
    let fixture = fixture();
    let recall = fixture.recall_cases();
    assert_eq!(recall.len(), 1);
    assert_eq!(recall[0].query, "what came first");
    assert_eq!(recall[0].expected_ids, ["m1"]);
    let judge = fixture.judge_cases();
    assert_eq!(judge.len(), 1);
    assert_eq!(judge[0].question, "which is second");
    assert_eq!(judge[0].expected_answer, "two");
}

#[test]
fn the_two_populations_are_counted_apart() {
    assert_eq!(populations(&[]), (0, 0));
    let cases = [
        GapCase::high("a", "b"),
        GapCase::low("c", "d"),
        GapCase::high("e", "f"),
    ];
    assert_eq!(populations(&cases), (2, 1));
    assert_eq!((cases[1].a.as_str(), cases[1].b.as_str()), ("c", "d"));
    assert!(cases[0].high && !cases[1].high);
}
