//! Evaluation fixtures: a self-contained corpus of memories plus recall and
//! judge cases.

use vstd::prelude::*;

use crate::text::{decimal, decimal_text};

verus! {

/// A memory to seed into the evaluation store.
#[derive(Debug, Clone, PartialEq, Eq)]
pub struct FixtureMemory {
    pub id: String,
    pub title: String,
    pub content: String,
    pub tags: Vec<String>,
}

/// A recall case: query + the id(s) a correct top-k must surface.
#[derive(Debug, Clone, PartialEq, Eq)]
pub struct FixtureRecall {
    pub query: String,
    pub expected_ids: Vec<String>,
}

/// A judge case: question + the answer the retrieved context must support.
#[derive(Debug, Clone, PartialEq, Eq)]
pub struct FixtureJudge {
    pub question: String,
    pub expected_answer: String,
}

/// A complete evaluation fixture.
#[derive(Debug, Clone, PartialEq, Eq)]
pub struct Fixture {
    pub memories: Vec<FixtureMemory>,
    pub recall: Vec<FixtureRecall>,
    pub judge: Vec<FixtureJudge>,
}

/// A query to run, and the ids it must find.
#[derive(Debug, Clone, PartialEq, Eq)]
pub struct EvalCase {
    pub query: String,
    pub expected_ids: Vec<String>,
}

/// A question to put, and the answer it must get.
#[derive(Debug, Clone, PartialEq, Eq)]
pub struct JudgeCase {
    pub question: String,
    pub expected_answer: String,
}

/// What kind of entry a memory is seeded as.
#[derive(Debug, Clone, Copy, PartialEq, Eq, Structural)]
pub enum EntryType {
    Topic,
}

/// The status a memory is seeded with.
#[derive(Debug, Clone, Copy, PartialEq, Eq, Structural)]
pub enum EntryStatus {
    Active,
}

/// The source a memory is seeded from.
#[derive(Debug, Clone, Copy, PartialEq, Eq, Structural)]
pub enum SourceType {
    UserStatement,
}

/// An entry of the memory store.
#[derive(Debug, Clone, PartialEq, Eq)]
pub struct MemoryEntry {
    pub id: String,
    pub title: String,
    pub content: String,
    pub entry_type: EntryType,
    pub tags: Vec<String>,
    pub status: EntryStatus,
    pub created_at: i64,
    pub updated_at: i64,
    pub superseded_by: Option<String>,
    pub access_count: i64,
    pub last_accessed: Option<i64>,
    pub source_path: Option<String>,
    pub confirmations: i64,
    pub last_confirmed_at: Option<i64>,
    pub source_type: SourceType,
    pub expires_at: Option<i64>,
    pub due_at: Option<i64>,
}

/// Some texts.
pub open spec fn texts(strings: Seq<String>) -> Seq<Seq<char>> {
    strings.map_values(|s: String| s@)
}

/// The same texts again.
fn copied(strings: &Vec<String>) -> (copy: Vec<String>)
    ensures
        texts(copy@) == texts(strings@),
{
    let mut copy: Vec<String> = Vec::new();
    let mut i: usize = 0;
    while i < strings.len()
        invariant
            i <= strings@.len(),
            texts(copy@) == texts(strings@).take(i as int),
        decreases strings@.len() - i,
    {
        let ghost before = texts(copy@);
        let text = strings[i].clone();
        let ghost view = text@;
        copy.push(text);
        assert(texts(copy@) =~= before.push(view));
        assert(texts(strings@)[i as int] == view);
        i += 1;
        assert(texts(copy@) =~= texts(strings@).take(i as int));
    }
    assert(texts(strings@).take(i as int) =~= texts(strings@));
    copy
}

/// Whether an entry is how a memory is seeded at a time: an active topic that
/// the user stated, new, never read, confirmed, superseded or due.
pub open spec fn seeds(entry: MemoryEntry, memory: FixtureMemory, now: i64) -> bool {
    &&& entry.id@ == memory.id@
    &&& entry.title@ == memory.title@
    &&& entry.content@ == memory.content@
    &&& entry.entry_type == EntryType::Topic
    &&& texts(entry.tags@) == texts(memory.tags@)
    &&& entry.status == EntryStatus::Active
    &&& entry.created_at == now
    &&& entry.updated_at == now
    &&& entry.superseded_by is None
    &&& entry.access_count == 0
    &&& entry.last_accessed is None
    &&& entry.source_path is None
    &&& entry.confirmations == 0
    &&& entry.last_confirmed_at is None
    &&& entry.source_type == SourceType::UserStatement
    &&& entry.expires_at is None
    &&& entry.due_at is None
}

impl Fixture {
    /// The entries to insert for this fixture's memories, in order.
    pub fn seed(&self, now: i64) -> (entries: Vec<MemoryEntry>)
        ensures
            entries@.len() == self.memories@.len(),
            forall|i: int|
                0 <= i < entries@.len() ==> seeds(#[trigger] entries@[i], self.memories@[i], now),
    {
        let mut entries: Vec<MemoryEntry> = Vec::new();
        let mut i: usize = 0;
        while i < self.memories.len()
            invariant
                i <= self.memories@.len(),
                entries@.len() == i,
                forall|k: int|
                    0 <= k < i ==> seeds(#[trigger] entries@[k], self.memories@[k], now),
            decreases self.memories@.len() - i,
        {
            let memory = &self.memories[i];
            entries.push(
                MemoryEntry {
                    id: memory.id.clone(),
                    title: memory.title.clone(),
                    content: memory.content.clone(),
                    entry_type: EntryType::Topic,
                    tags: copied(&memory.tags),
                    status: EntryStatus::Active,
                    created_at: now,
                    updated_at: now,
                    superseded_by: None,
                    access_count: 0,
                    last_accessed: None,
                    source_path: None,
                    confirmations: 0,
                    last_confirmed_at: None,
                    source_type: SourceType::UserStatement,
                    expires_at: None,
                    due_at: None,
                },
            );
            i += 1;
        }
        entries
    }

    /// Whether a backfill embedded every memory, given how many it embedded.
    ///
    /// The backfill treats a cold model as "retry later" and embeds nothing,
    /// which here would be an eval of the wrong thing, so a short count is an
    /// error.
    pub fn embed(&self, embedded: usize) -> (outcome: Result<(), String>)
        ensures
            match outcome {
                Ok(_) => embedded == self.memories@.len(),
                Err(message) => embedded != self.memories@.len() && message@
                    == "eval store: embedded "@ + decimal(embedded as nat) + " of "@ + decimal(
                    self.memories@.len(),
                ) + " memories"@,
            },
    {
        if embedded == self.memories.len() {
            return Ok(());
        }
        let mut message = "eval store: embedded ".to_owned();
        message.append(decimal_text(embedded).as_str());
        message.append(" of ");
        message.append(decimal_text(self.memories.len()).as_str());
        message.append(" memories");
        Err(message)
    }

    /// The recall cases, in order.
    pub fn recall_cases(&self) -> (cases: Vec<EvalCase>)
        ensures
            cases@.len() == self.recall@.len(),
            forall|i: int|
                0 <= i < cases@.len() ==> (#[trigger] cases@[i]).query@ == self.recall@[i].query@
                    && texts(cases@[i].expected_ids@) == texts(self.recall@[i].expected_ids@),
    {
        let mut cases: Vec<EvalCase> = Vec::new();
        let mut i: usize = 0;
        while i < self.recall.len()
            invariant
                i <= self.recall@.len(),
                cases@.len() == i,
                forall|k: int|
                    0 <= k < i ==> (#[trigger] cases@[k]).query@ == self.recall@[k].query@ && texts(
                        cases@[k].expected_ids@,
                    ) == texts(self.recall@[k].expected_ids@),
            decreases self.recall@.len() - i,
        {
            let recall = &self.recall[i];
            cases.push(
                EvalCase {
                    query: recall.query.clone(),
                    expected_ids: copied(&recall.expected_ids),
                },
            );
            i += 1;
        }
        cases
    }

    /// The judge cases, in order.
    pub fn judge_cases(&self) -> (cases: Vec<JudgeCase>)
        ensures
            cases@.len() == self.judge@.len(),
            forall|i: int|
                0 <= i < cases@.len() ==> (#[trigger] cases@[i]).question@
                    == self.judge@[i].question@ && cases@[i].expected_answer@
                    == self.judge@[i].expected_answer@,
    {
        let mut cases: Vec<JudgeCase> = Vec::new();
        let mut i: usize = 0;
        while i < self.judge.len()
            invariant
                i <= self.judge@.len(),
                cases@.len() == i,
                forall|k: int|
                    0 <= k < i ==> (#[trigger] cases@[k]).question@ == self.judge@[k].question@
                        && cases@[k].expected_answer@ == self.judge@[k].expected_answer@,
            decreases self.judge@.len() - i,
        {
            let judge = &self.judge[i];
            cases.push(
                JudgeCase {
                    question: judge.question.clone(),
                    expected_answer: judge.expected_answer.clone(),
                },
            );
            i += 1;
        }
        cases
    }
}

/// A seeded memory is the memory as it was written, tag by tag, and as new as can
/// be: made and changed now, stated by the user, an active topic, and with
/// nothing that only use could have given it.
pub proof fn a_seeded_memory_is_new(entry: MemoryEntry, memory: FixtureMemory, now: i64)
    requires
        seeds(entry, memory, now),
    ensures
        entry.id@ == memory.id@,
        entry.title@ == memory.title@,
        entry.content@ == memory.content@,
        entry.tags@.len() == memory.tags@.len(),
        forall|i: int| 0 <= i < memory.tags@.len() ==> (#[trigger] entry.tags@[i])@ == memory.tags@[i]@,
        entry.created_at == now && entry.updated_at == now,
        entry.access_count == 0 && entry.confirmations == 0,
        entry.last_accessed is None && entry.last_confirmed_at is None,
        entry.superseded_by is None && entry.source_path is None,
        entry.expires_at is None && entry.due_at is None,
        entry.entry_type is Topic && entry.status is Active && entry.source_type is UserStatement,
{
    assert(texts(entry.tags@).len() == entry.tags@.len());
    assert(texts(memory.tags@).len() == memory.tags@.len());
    assert forall|i: int| 0 <= i < memory.tags@.len() implies (#[trigger] entry.tags@[i])@
        == memory.tags@[i]@ by {
        assert(texts(entry.tags@)[i] == entry.tags@[i]@);
        assert(texts(memory.tags@)[i] == memory.tags@[i]@);
    }
}

} // verus!
