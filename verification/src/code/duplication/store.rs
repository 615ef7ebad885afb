//! Content-addressed cache for the artifacts derived from a symbol's body: how
//! they are laid out in the cache's columns, and what is done to its rows.
//!
//! The key is the hash of the body text. It survives a reparse, a rebuild, and
//! a symbol moving between files, and two identical bodies anywhere in the
//! repository share one row and one embedding.
//!
//! The database is the caller's. A [`Statement`] says what to do to it, and
//! [`performed`] what the tables hold afterwards.

use vstd::prelude::*;

use crate::text::same;

verus! {

/// The tables of the cache.
pub const SCHEMA: &'static str =
    "CREATE TABLE IF NOT EXISTS body_fingerprints (body_hash TEXT PRIMARY KEY, simhash INTEGER NOT NULL, nodes INTEGER NOT NULL, embedding BLOB, last_seen INTEGER NOT NULL); CREATE TABLE IF NOT EXISTS meta (key TEXT PRIMARY KEY, value TEXT NOT NULL);";

/// The `meta` key naming what produced the embeddings in the cache.
pub const EMBEDDING_SIGNATURE: &'static str = "embedding_signature";

/// The artifacts derived from one body, all cheap to recompute except the last.
#[derive(Debug, Clone, PartialEq, Eq)]
pub struct BodyArtifacts {
    /// Rename- and literal-invariant structural fingerprint.
    pub simhash: u64,
    /// Named syntax nodes in the body: the complexity filter.
    pub nodes: u32,
    /// `None` until the embedding pass has run for this body. The bit patterns
    /// of the vector's components.
    pub embedding: Option<Vec<u32>>,
}

/// The artifacts with the vector as a sequence.
#[verifier::ext_equal]
pub struct ArtifactsView {
    pub simhash: u64,
    pub nodes: u32,
    pub embedding: Option<Seq<u32>>,
}

impl View for BodyArtifacts {
    type V = ArtifactsView;

    open spec fn view(&self) -> ArtifactsView {
        ArtifactsView {
            simhash: self.simhash,
            nodes: self.nodes,
            embedding: match self.embedding {
                Some(vector) => Some(vector@),
                None => None,
            },
        }
    }
}

/// A 64-bit pattern read as a signed number.
pub open spec fn signed(v: u64) -> int {
    if v < 0x8000_0000_0000_0000 {
        v as int
    } else {
        v - 0x1_0000_0000_0000_0000
    }
}

/// A signed number's 64-bit pattern.
pub open spec fn pattern(v: i64) -> int {
    if v >= 0 {
        v as int
    } else {
        v + 0x1_0000_0000_0000_0000
    }
}

/// The cache's integers are signed; a simhash uses all 64 bits.
///
/// The round trip keeps the bits in both directions, never the number.
pub fn to_i64(v: u64) -> (stored: i64)
    ensures
        stored == signed(v),
{
    if v < 0x8000_0000_0000_0000 {
        v as i64
    } else {
        let over: u64 = v - 0x8000_0000_0000_0000;
        -0x7fff_ffff_ffff_ffff - 1 + over as i64
    }
}

/// The simhash that a column holds.
pub fn from_i64(v: i64) -> (read: u64)
    ensures
        read == pattern(v),
{
    if v >= 0 {
        v as u64
    } else {
        let over: i64 = v + 0x7fff_ffff_ffff_ffff + 1;
        over as u64 + 0x8000_0000_0000_0000
    }
}

/// Byte `k` of a word, the lowest first.
pub open spec fn byte_of(word: u32, k: int) -> u8 {
    if k == 0 {
        (word % 256) as u8
    } else if k == 1 {
        (word / 256 % 256) as u8
    } else if k == 2 {
        (word / 65536 % 256) as u8
    } else {
        (word / 16777216) as u8
    }
}

/// The word of four bytes, the lowest first.
pub open spec fn word_of(bytes: Seq<u8>, at: int) -> u32 {
    (bytes[at] + 256 * bytes[at + 1] + 65536 * bytes[at + 2] + 16777216 * bytes[at + 3]) as u32
}

/// A vector as bytes, four to a component, the lowest first.
pub open spec fn encoded(vector: Seq<u32>) -> Seq<u8> {
    Seq::new(4 * vector.len(), |i: int| byte_of(vector[i / 4], i % 4))
}

/// The vector that some bytes hold, if they hold one.
pub open spec fn decoded(bytes: Seq<u8>) -> Option<Seq<u32>> {
    if bytes.len() == 0 || bytes.len() % 4 != 0 {
        None
    } else {
        Some(Seq::new((bytes.len() / 4) as nat, |i: int| word_of(bytes, 4 * i)))
    }
}

/// A vector as little-endian bytes.
pub fn encode(vector: &[u32]) -> (out: Vec<u8>)
    ensures
        out@ == encoded(vector@),
{
    let mut out: Vec<u8> = Vec::new();
    let mut i: usize = 0;
    while i < vector.len()
        invariant
            i <= vector@.len(),
            out@.len() == 4 * i,
            forall|k: int| 0 <= k < 4 * i ==> #[trigger] out@[k] == byte_of(vector@[k / 4], k % 4),
        decreases vector@.len() - i,
    {
        let word = vector[i];
        let ghost before = out@;
        out.push((word % 256) as u8);
        out.push((word / 256 % 256) as u8);
        out.push((word / 65536 % 256) as u8);
        out.push((word / 16777216) as u8);
        proof {
            assert forall|k: int| 0 <= k < 4 * i + 4 implies #[trigger] out@[k] == byte_of(
                vector@[k / 4],
                k % 4,
            ) by {
                if k < 4 * i {
                    assert(out@[k] == before[k]);
                } else {
                    assert(k / 4 == i && k % 4 == k - 4 * i);
                }
            }
        }
        i += 1;
    }
    assert(out@ =~= encoded(vector@));
    out
}

/// Little-endian bytes back to a vector.
///
/// A blob whose length is not a multiple of four is not an embedding this code
/// wrote; it is decoded as absent rather than as a truncated vector, because a
/// silently short vector would score against every other body as garbage.
pub fn decode(bytes: &[u8]) -> (vector: Option<Vec<u32>>)
    ensures
        (match vector {
            Some(vector) => Some(vector@),
            None => None,
        }) == decoded(bytes@),
{
    let n: usize = bytes.len();
    if n == 0 || n % 4 != 0 {
        return None;
    }
    let mut vector: Vec<u32> = Vec::new();
    let mut i: usize = 0;
    while i < n
        invariant
            i <= n,
            n == bytes@.len(),
            n % 4 == 0,
            i % 4 == 0,
            vector@.len() == i / 4,
            forall|k: int| 0 <= k < i / 4 ==> #[trigger] vector@[k] == word_of(bytes@, 4 * k),
        decreases n - i,
    {
        let word: u32 = bytes[i] as u32 + 256 * (bytes[i + 1] as u32) + 65536 * (bytes[i
            + 2] as u32) + 16777216 * (bytes[i + 3] as u32);
        vector.push(word);
        assert(4 * (i / 4) == i);
        i += 4;
    }
    let ghost whole = Seq::new((n / 4) as nat, |i: int| word_of(bytes@, 4 * i));
    assert(vector@ =~= whole);
    Some(vector)
}

/// A vector reads back as it was written, if it has any component. One without
/// reads back as absent.
pub proof fn a_vector_reads_back(vector: Seq<u32>)
    ensures
        decoded(encoded(vector)) == if vector.len() == 0 {
            None
        } else {
            Some(vector)
        },
{
    let bytes = encoded(vector);
    if vector.len() > 0 {
        assert(bytes.len() % 4 == 0);
        let read = decoded(bytes)->0;
        assert forall|i: int| 0 <= i < vector.len() implies #[trigger] read[i] == vector[i] by {
            let word = vector[i];
            assert((4 * i) / 4 == i && (4 * i) % 4 == 0);
            assert((4 * i + 1) / 4 == i && (4 * i + 1) % 4 == 1);
            assert((4 * i + 2) / 4 == i && (4 * i + 2) % 4 == 2);
            assert((4 * i + 3) / 4 == i && (4 * i + 3) % 4 == 3);
            assert(bytes[4 * i] == byte_of(word, 0) && bytes[4 * i + 1] == byte_of(word, 1));
            assert(bytes[4 * i + 2] == byte_of(word, 2) && bytes[4 * i + 3] == byte_of(word, 3));
            assert(read[i] == word_of(bytes, 4 * i));
            lemma_word_of_its_bytes(word);
        }
        assert(read =~= vector);
    }
}

/// A vector is laid out four bytes to a component, the lowest first, in the order
/// of the components.
pub proof fn a_vector_is_laid_out_lowest_byte_first(vector: Seq<u32>, i: int)
    ensures
        encoded(vector).len() == 4 * vector.len(),
        0 <= i < vector.len() ==> vector[i] == encoded(vector)[4 * i] + 256 * encoded(vector)[4 * i
            + 1] + 65536 * encoded(vector)[4 * i + 2] + 16777216 * encoded(vector)[4 * i + 3],
{
    if 0 <= i < vector.len() {
        let word = vector[i];
        let bytes = encoded(vector);
        assert((4 * i) / 4 == i && (4 * i) % 4 == 0);
        assert((4 * i + 1) / 4 == i && (4 * i + 1) % 4 == 1);
        assert((4 * i + 2) / 4 == i && (4 * i + 2) % 4 == 2);
        assert((4 * i + 3) / 4 == i && (4 * i + 3) % 4 == 3);
        assert(bytes[4 * i] == byte_of(word, 0) && bytes[4 * i + 1] == byte_of(word, 1));
        assert(bytes[4 * i + 2] == byte_of(word, 2) && bytes[4 * i + 3] == byte_of(word, 3));
        lemma_word_of_its_bytes(word);
    }
}

/// Bytes hold a vector exactly where there are any and four make each component,
/// and each component is its four bytes, the lowest first.
pub proof fn four_bytes_make_a_component(bytes: Seq<u8>, i: int)
    ensures
        decoded(bytes) is Some <==> bytes.len() > 0 && bytes.len() % 4 == 0,
        decoded(bytes) matches Some(vector) ==> 4 * vector.len() == bytes.len() && (0 <= i
            < vector.len() ==> vector[i] == bytes[4 * i] + 256 * bytes[4 * i + 1] + 65536 * bytes[4
            * i + 2] + 16777216 * bytes[4 * i + 3]),
{
}

proof fn lemma_word_of_its_bytes(word: u32)
    ensures
        byte_of(word, 0) + 256 * byte_of(word, 1) + 65536 * byte_of(word, 2) + 16777216 * byte_of(
            word,
            3,
        ) == word,
{
    let q = word / 256;
    let r = q / 256;
    let t = r / 256;
    assert(word / 65536 == r) by (nonlinear_arith)
        requires
            q == word / 256,
            r == q / 256,
    ;
    assert(word / 16777216 == t) by (nonlinear_arith)
        requires
            q == word / 256,
            r == q / 256,
            t == r / 256,
    ;
    assert(t < 256);
}

/// A simhash survives the signed column, whatever its bits.
pub proof fn a_simhash_survives_the_column(v: u64, w: i64)
    ensures
        i64::MIN <= signed(v) <= i64::MAX,
        pattern(signed(v) as i64) == v,
        0 <= pattern(w) <= u64::MAX,
        signed(pattern(w) as u64) == w,
        signed(v) == v || signed(v) == v - 0x1_0000_0000_0000_0000,
        pattern(w) == w || pattern(w) == w + 0x1_0000_0000_0000_0000,
{
}

/// The artifacts in a row: the simhash out of its signed column, and the vector
/// out of the blob, if there is one.
pub open spec fn row_artifacts(simhash: i64, nodes: u32, blob: Option<Seq<u8>>) -> ArtifactsView {
    ArtifactsView {
        simhash: pattern(simhash) as u64,
        nodes,
        embedding: match blob {
            Some(bytes) => decoded(bytes),
            None => None,
        },
    }
}

/// The artifacts in a row.
pub fn artifacts_in(simhash: i64, nodes: u32, blob: Option<&[u8]>) -> (artifacts: BodyArtifacts)
    ensures
        artifacts@ == row_artifacts(
            simhash,
            nodes,
            match blob {
                Some(bytes) => Some(bytes@),
                None => None,
            },
        ),
{
    let embedding = match blob {
        Some(bytes) => decode(bytes),
        None => None,
    };
    BodyArtifacts { simhash: from_i64(simhash), nodes, embedding }
}

/// A body reads back what was written of it: the fingerprint and the count
/// always, and the vector if one was written that has a component.
pub proof fn a_body_reads_back(simhash: u64, nodes: u32, vector: Option<Seq<u32>>)
    requires
        vector matches Some(v) ==> v.len() > 0,
    ensures
        row_artifacts(
            signed(simhash) as i64,
            nodes,
            match vector {
                Some(v) => Some(encoded(v)),
                None => None,
            },
        ) == (ArtifactsView { simhash, nodes, embedding: vector }),
{
    a_simhash_survives_the_column(simhash, 0);
    if let Some(v) = vector {
        a_vector_reads_back(v);
    }
}

/// One thing that is done to the tables of the cache.
#[derive(Debug, Clone, PartialEq, Eq)]
pub enum Statement {
    /// Write the structural columns of a body's row, and make the row if there
    /// is none. A new row has no embedding, and that of an old one stays.
    Fingerprint {
        hash: String,
        simhash: i64,
        nodes: u32,
        last_seen: i64,
    },
    /// Write the embedding of a body's row, if there is one.
    Embedding {
        hash: String,
        blob: Vec<u8>,
    },
    /// Drop every embedding there is. The rest of each row stays.
    ClearEmbeddings,
    /// Record what produces the embeddings from now on.
    Signature(String),
    /// Remove every row.
    DropAll,
    /// Remove every row but those of these bodies.
    DropAllBut(Vec<String>),
}

/// A statement with its names as text.
#[verifier::ext_equal]
pub enum StatementView {
    Fingerprint { hash: Seq<char>, simhash: i64, nodes: u32, last_seen: i64 },
    Embedding { hash: Seq<char>, blob: Seq<u8> },
    ClearEmbeddings,
    Signature(Seq<char>),
    DropAll,
    DropAllBut(Seq<Seq<char>>),
}

/// Some names as text.
pub open spec fn names(strings: Seq<String>) -> Seq<Seq<char>> {
    strings.map_values(|s: String| s@)
}

impl View for Statement {
    type V = StatementView;

    open spec fn view(&self) -> StatementView {
        match self {
            Statement::Fingerprint { hash, simhash, nodes, last_seen } => StatementView::Fingerprint {
                hash: hash@,
                simhash: *simhash,
                nodes: *nodes,
                last_seen: *last_seen,
            },
            Statement::Embedding { hash, blob } => StatementView::Embedding {
                hash: hash@,
                blob: blob@,
            },
            Statement::ClearEmbeddings => StatementView::ClearEmbeddings,
            Statement::Signature(signature) => StatementView::Signature(signature@),
            Statement::DropAll => StatementView::DropAll,
            Statement::DropAllBut(live) => StatementView::DropAllBut(names(live@)),
        }
    }
}

/// A row of the cache.
#[verifier::ext_equal]
pub struct Row {
    pub simhash: i64,
    pub nodes: u32,
    pub embedding: Option<Seq<u8>>,
    pub last_seen: i64,
}

/// What the tables of the cache hold: a row per body, and what produced the
/// embeddings, where that was recorded.
#[verifier::ext_equal]
pub struct Cache {
    pub rows: Map<Seq<char>, Row>,
    pub signature: Option<Seq<char>>,
}

/// Everything known about a body, or nothing if it has never been seen.
pub open spec fn known(cache: Cache, hash: Seq<char>) -> Option<ArtifactsView> {
    if cache.rows.contains_key(hash) {
        let row = cache.rows[hash];
        Some(row_artifacts(row.simhash, row.nodes, row.embedding))
    } else {
        None
    }
}

/// What the tables hold once a statement is done.
pub open spec fn performed(statement: StatementView, cache: Cache) -> Cache {
    match statement {
        StatementView::Fingerprint { hash, simhash, nodes, last_seen } => {
            let embedding = if cache.rows.contains_key(hash) {
                cache.rows[hash].embedding
            } else {
                None
            };
            Cache {
                rows: cache.rows.insert(hash, Row { simhash, nodes, embedding, last_seen }),
                ..cache
            }
        },
        StatementView::Embedding { hash, blob } => if cache.rows.contains_key(hash) {
            Cache {
                rows: cache.rows.insert(
                    hash,
                    Row { embedding: Some(blob), ..cache.rows[hash] },
                ),
                ..cache
            }
        } else {
            cache
        },
        StatementView::ClearEmbeddings => Cache {
            rows: cache.rows.map_values(|row: Row| Row { embedding: None, ..row }),
            ..cache
        },
        StatementView::Signature(signature) => Cache { signature: Some(signature), ..cache },
        StatementView::DropAll => Cache { rows: Map::empty(), ..cache },
        StatementView::DropAllBut(live) => Cache {
            rows: cache.rows.restrict(live.to_set()),
            ..cache
        },
    }
}

/// What the tables hold once some statements are done, the first one first.
pub open spec fn performed_all(statements: Seq<StatementView>, cache: Cache) -> Cache
    decreases statements.len(),
{
    if statements.len() == 0 {
        cache
    } else {
        performed_all(statements.drop_first(), performed(statements[0], cache))
    }
}

/// The bodies that have an embedding.
pub open spec fn embedded(cache: Cache) -> Set<Seq<char>> {
    cache.rows.dom().filter(|hash: Seq<char>| cache.rows[hash].embedding is Some)
}

/// How many rows a statement writes or removes.
pub open spec fn touched(statement: StatementView, cache: Cache) -> nat {
    match statement {
        StatementView::Fingerprint { .. } => 1,
        StatementView::Embedding { hash, .. } => if cache.rows.contains_key(hash) {
            1
        } else {
            0
        },
        StatementView::ClearEmbeddings => embedded(cache).len(),
        StatementView::Signature(_) => 1,
        StatementView::DropAll => cache.rows.dom().len(),
        StatementView::DropAllBut(live) => cache.rows.dom().difference(live.to_set()).len(),
    }
}

/// What records the structural artifacts of a body.
pub open spec fn upserting(hash: Seq<char>, simhash: u64, nodes: u32, now: i64) -> StatementView {
    StatementView::Fingerprint { hash, simhash: signed(simhash) as i64, nodes, last_seen: now }
}

/// What attaches an embedding to a body.
pub open spec fn embedding(hash: Seq<char>, vector: Seq<u32>) -> StatementView {
    StatementView::Embedding { hash, blob: encoded(vector) }
}

/// What makes the cached embeddings those of `signature`, given the one that is
/// recorded: nothing where it is the same, else they go.
pub open spec fn reconciling(stored: Option<Seq<char>>, signature: Seq<char>) -> Seq<
    StatementView,
> {
    if stored == Some(signature) {
        Seq::empty()
    } else {
        seq![StatementView::ClearEmbeddings, StatementView::Signature(signature)]
    }
}

/// What removes every body that is not live.
pub open spec fn collecting(live: Seq<Seq<char>>) -> StatementView {
    if live.len() == 0 {
        StatementView::DropAll
    } else {
        StatementView::DropAllBut(live)
    }
}

/// Record the structural artifacts of a body, refreshing `last_seen`.
///
/// The embedding is left alone: it is the expensive column, and a reparse that
/// yields the same body must not discard it. The simhash and the count are
/// rewritten because a fingerprinting change has to be able to correct them.
pub fn upsert_structural(hash: &str, simhash: u64, nodes: u32, now: i64) -> (statement: Statement)
    ensures
        statement@ == upserting(hash@, simhash, nodes, now),
{
    Statement::Fingerprint {
        hash: hash.to_owned(),
        simhash: to_i64(simhash),
        nodes,
        last_seen: now,
    }
}

/// Attach an embedding to a body that was recorded.
pub fn set_embedding(hash: &str, vector: &[u32]) -> (statement: Statement)
    ensures
        statement@ == embedding(hash@, vector@),
{
    Statement::Embedding { hash: hash.to_owned(), blob: encode(vector) }
}

/// Some statements as views.
pub open spec fn statement_views(statements: Seq<Statement>) -> Seq<StatementView> {
    statements.map_values(|s: Statement| s@)
}

/// A signature that may be missing, as text.
pub open spec fn signature_view(signature: Option<&str>) -> Option<Seq<char>> {
    match signature {
        Some(signature) => Some(signature@),
        None => None,
    }
}

/// Drop every embedding that `signature` did not produce, and record it, given
/// the signature that is recorded.
///
/// A vector is only comparable with vectors from the same model, at the same
/// stored dimensions, computed over the same input cut. A cache without a
/// signature is cleared: what produced it was never recorded, so it cannot be
/// vouched for. The simhashes stay either way.
pub fn reconcile_embedding_signature(stored: Option<&str>, signature: &str) -> (statements: Vec<
    Statement,
>)
    ensures
        statement_views(statements@) == reconciling(signature_view(stored), signature@),
{
    let mut statements: Vec<Statement> = Vec::new();
    let kept = match stored {
        Some(stored) => same(stored, signature),
        None => false,
    };
    if !kept {
        statements.push(Statement::ClearEmbeddings);
        statements.push(Statement::Signature(signature.to_owned()));
    }
    assert(statement_views(statements@) =~= reconciling(signature_view(stored), signature@));
    statements
}

/// Drop every body not in `live`.
///
/// Content addressing means rows accumulate for every version of every body
/// the repository has ever held. Nothing else will ever delete them.
pub fn gc(live: &[String]) -> (statement: Statement)
    ensures
        statement@ == collecting(names(live@)),
{
    if live.len() == 0 {
        return Statement::DropAll;
    }
    let mut kept: Vec<String> = Vec::new();
    let mut i: usize = 0;
    while i < live.len()
        invariant
            i <= live@.len(),
            names(kept@) == names(live@).take(i as int),
        decreases live@.len() - i,
    {
        let ghost before = names(kept@);
        let hash = live[i].as_str().to_owned();
        let ghost text = hash@;
        kept.push(hash);
        assert(names(kept@) =~= before.push(text));
        i += 1;
        assert(names(kept@) =~= names(live@).take(i as int));
    }
    assert(names(live@).take(i as int) =~= names(live@));
    Statement::DropAllBut(kept)
}

/// An upsert does not discard the embedding: a body that was recorded, embedded
/// and recorded again has the newer fingerprint, the vector bit for bit, and one
/// row. No other row changes.
pub proof fn an_upsert_keeps_the_embedding(
    cache: Cache,
    hash: Seq<char>,
    first: (u64, u32, i64),
    vector: Seq<u32>,
    second: (u64, u32, i64),
)
    requires
        vector.len() > 0,
    ensures
        ({
            let recorded = performed(upserting(hash, first.0, first.1, first.2), cache);
            let written = performed(embedding(hash, vector), recorded);
            let after = performed(upserting(hash, second.0, second.1, second.2), written);
            &&& known(recorded, hash) matches Some(body) && body.simhash == first.0 && body.nodes
                == first.1
            &&& !cache.rows.contains_key(hash) ==> known(recorded, hash)->0.embedding is None
            &&& recorded.rows[hash].last_seen == first.2
            &&& written.rows[hash].last_seen == first.2
            &&& after.rows[hash].last_seen == second.2
            &&& touched(embedding(hash, vector), recorded) == 1
            &&& known(after, hash) == Some(
                ArtifactsView { simhash: second.0, nodes: second.1, embedding: Some(vector) },
            )
            &&& after.rows.dom() == cache.rows.dom().insert(hash)
            &&& forall|other: Seq<char>|
                other != hash ==> #[trigger] known(after, other) == known(cache, other)
            &&& after.signature == cache.signature
        }),
{
    let recorded = performed(upserting(hash, first.0, first.1, first.2), cache);
    let written = performed(embedding(hash, vector), recorded);
    let after = performed(upserting(hash, second.0, second.1, second.2), written);
    a_simhash_survives_the_column(first.0, 0);
    a_body_reads_back(second.0, second.1, Some(vector));
    assert(after.rows.dom() =~= cache.rows.dom().insert(hash));
}

/// A body that was never recorded is unknown, and embedding it does nothing.
pub proof fn an_unknown_body_stays_unknown(cache: Cache, hash: Seq<char>, vector: Seq<u32>)
    requires
        !cache.rows.contains_key(hash),
    ensures
        known(cache, hash) is None,
        performed(embedding(hash, vector), cache) == cache,
        touched(embedding(hash, vector), cache) == 0,
{
}

/// Reconciling with the signature that is recorded does nothing. With another
/// one every embedding goes, and the first statement touches exactly the rows
/// that had one; no row is added or removed, and every simhash and count stays.
/// Either way the signature is then the recorded one, and reconciling with it
/// again does nothing.
pub proof fn reconciling_clears_once(cache: Cache, signature: Seq<char>)
    ensures
        ({
            let statements = reconciling(cache.signature, signature);
            let after = performed_all(statements, cache);
            &&& cache.signature == Some(signature) ==> statements.len() == 0 && after == cache
            &&& cache.signature != Some(signature) ==> {
                &&& touched(statements[0], cache) == embedded(cache).len()
                &&& embedded(after) == Set::<Seq<char>>::empty()
                &&& after.rows.dom() == cache.rows.dom()
                &&& forall|hash: Seq<char>| #[trigger]
                    cache.rows.contains_key(hash) ==> after.rows[hash] == (Row {
                        embedding: None,
                        ..cache.rows[hash]
                    })
            }
            &&& after.signature == Some(signature)
            &&& reconciling(after.signature, signature).len() == 0
        }),
{
    let statements = reconciling(cache.signature, signature);
    if cache.signature != Some(signature) {
        let cleared = performed(statements[0], cache);
        let after = performed(statements[1], cleared);
        assert(statements.drop_first() =~= seq![statements[1]]);
        assert(statements.drop_first().drop_first() =~= Seq::empty());
        reveal_with_fuel(performed_all, 3);
        assert(performed_all(statements, cache) == after);
        assert(after.rows.dom() =~= cache.rows.dom());
        assert(embedded(after) =~= Set::<Seq<char>>::empty());
    }
}

/// A collection keeps exactly the rows of live bodies, as they were, and touches
/// each of the others. With nothing live it empties the cache.
pub proof fn a_collection_keeps_the_live(cache: Cache, live: Seq<Seq<char>>)
    ensures
        performed(collecting(live), cache) == (Cache {
            rows: cache.rows.restrict(live.to_set()),
            ..cache
        }),
        touched(collecting(live), cache) == cache.rows.dom().difference(live.to_set()).len(),
        live.len() == 0 ==> touched(collecting(live), cache) == cache.rows.dom().len(),
{
    if live.len() == 0 {
        assert(cache.rows.restrict(live.to_set()) =~= Map::empty());
        assert(cache.rows.dom().difference(live.to_set()) =~= cache.rows.dom());
    }
}

} // verus!
