//! The semantic pass: a second model, run lazily, over what the structural
//! pass could not settle.
//!
//! A vector is held as the bit patterns of its single-precision components.

use vstd::prelude::*;
use vstd::relations::total_ordering;

use crate::sorting::sort;
use crate::text::{decimal, decimal_text, join_path, joined_path, same};

verus! {

/// Models the duplication pass accepts.
///
/// A short list on purpose: an embedding model that has not been measured on
/// the gap metric is a guess, and a guess here silently produces a report of
/// the wrong pairs rather than an error anyone would notice.
pub const SUPPORTED_DUP_MODELS: [&'static str; 2] = ["JinaEmbeddingsV2BaseCode", "AllMiniLML6V2"];

/// The model a run takes when nothing names another.
pub const DEFAULT_DUP_MODEL: &'static str = "JinaEmbeddingsV2BaseCode";

/// Stored dimensions per body.
///
/// 256, not the model's native 768, because 256 measured *better*. Storage is a
/// third, which for a per-body cache over a large repository is the difference
/// between a megabyte and three.
pub const DUP_EMBEDDING_DIM: usize = 256;

/// Batch size for inference.
pub const EMBED_BATCH_SIZE: usize = 32;

/// A model the duplication pass accepts.
#[derive(Debug, Clone, Copy, PartialEq, Eq, Structural)]
pub enum DupModel {
    JinaEmbeddingsV2BaseCode,
    AllMiniLML6V2,
}

/// The model of a name.
pub open spec fn model_named(name: Seq<char>) -> Option<DupModel> {
    if name == "JinaEmbeddingsV2BaseCode"@ {
        Some(DupModel::JinaEmbeddingsV2BaseCode)
    } else if name == "AllMiniLML6V2"@ {
        Some(DupModel::AllMiniLML6V2)
    } else {
        None
    }
}

/// What is said of a name that is no model's.
pub open spec fn unsupported(name: Seq<char>) -> Seq<char> {
    "unsupported duplication model "@ + name + "; expected one of: "@
        + "JinaEmbeddingsV2BaseCode"@ + ", "@ + "AllMiniLML6V2"@
}

/// The model that `[code.duplication] model` names, or why there is none.
pub fn resolve_model(name: &str) -> (model: Result<DupModel, String>)
    ensures
        match model {
            Ok(model) => model_named(name@) == Some(model),
            Err(message) => model_named(name@) is None && message@ == unsupported(name@),
        },
        model is Err <==> name@ != "JinaEmbeddingsV2BaseCode"@ && name@ != "AllMiniLML6V2"@,
        model matches Ok(model) ==> name@ == (match model {
            DupModel::JinaEmbeddingsV2BaseCode => "JinaEmbeddingsV2BaseCode"@,
            DupModel::AllMiniLML6V2 => "AllMiniLML6V2"@,
        }),
        model matches Err(message) ==> message@ == "unsupported duplication model "@ + name@
            + "; expected one of: "@ + "JinaEmbeddingsV2BaseCode"@ + ", "@ + "AllMiniLML6V2"@,
{
    if same(name, "JinaEmbeddingsV2BaseCode") {
        return Ok(DupModel::JinaEmbeddingsV2BaseCode);
    }
    if same(name, "AllMiniLML6V2") {
        return Ok(DupModel::AllMiniLML6V2);
    }
    let mut message = "unsupported duplication model ".to_owned();
    message.append(name);
    message.append("; expected one of: ");
    message.append("JinaEmbeddingsV2BaseCode");
    message.append(", ");
    message.append("AllMiniLML6V2");
    Err(message)
}

/// Every supported name is a model's, and the default is one of them.
pub proof fn every_supported_name_is_a_model()
    ensures
        SUPPORTED_DUP_MODELS@.len() == 2,
        forall|i: int|
            0 <= i < 2 ==> model_named((#[trigger] SUPPORTED_DUP_MODELS@[i])@) is Some,
        SUPPORTED_DUP_MODELS@.contains(DEFAULT_DUP_MODEL),
        model_named(DEFAULT_DUP_MODEL@) == Some(DupModel::JinaEmbeddingsV2BaseCode),
{
    assert(SUPPORTED_DUP_MODELS@[0] == "JinaEmbeddingsV2BaseCode");
    assert(SUPPORTED_DUP_MODELS@[1] == "AllMiniLML6V2");
    assert(SUPPORTED_DUP_MODELS@[0] == DEFAULT_DUP_MODEL);
}

/// Two names name models, each its own, and no other name names one. Of another
/// name it is said which ones there are.
pub proof fn each_name_is_its_own_model(name: Seq<char>)
    ensures
        model_named(name) == Some(DupModel::JinaEmbeddingsV2BaseCode) <==> name
            == "JinaEmbeddingsV2BaseCode"@,
        model_named(name) == Some(DupModel::AllMiniLML6V2) <==> name == "AllMiniLML6V2"@,
        unsupported(name) == "unsupported duplication model "@ + name
            + "; expected one of: JinaEmbeddingsV2BaseCode, AllMiniLML6V2"@,
{
    reveal_strlit("; expected one of: ");
    reveal_strlit(", ");
    reveal_strlit("; expected one of: JinaEmbeddingsV2BaseCode, AllMiniLML6V2");
    reveal_strlit("JinaEmbeddingsV2BaseCode");
    reveal_strlit("AllMiniLML6V2");
    assert("JinaEmbeddingsV2BaseCode"@.len() != "AllMiniLML6V2"@.len());
    assert("; expected one of: "@ + "JinaEmbeddingsV2BaseCode"@ + ", "@ + "AllMiniLML6V2"@
        =~= "; expected one of: JinaEmbeddingsV2BaseCode, AllMiniLML6V2"@);
    assert(unsupported(name) =~= "unsupported duplication model "@ + name + (
    "; expected one of: "@ + "JinaEmbeddingsV2BaseCode"@ + ", "@ + "AllMiniLML6V2"@));
}

/// Where the model's weights are kept: a directory that is set, else one below
/// the home directory, else one below the current directory.
pub open spec fn weights_dir(set: Option<Seq<char>>, home: Option<Seq<char>>) -> Seq<char> {
    match (set, home) {
        (Some(dir), _) => dir,
        (None, Some(home)) => joined_path(home, ".cache/fastembed"@),
        (None, None) => ".fastembed_cache"@,
    }
}

/// A directory that is set is used whatever the home directory is, and the home
/// directory counts only where none is set.
pub proof fn a_directory_that_is_set_is_used(dir: Seq<char>, home: Option<Seq<char>>)
    requires
        home matches Some(home) ==> home.len() > 0 && home.last() != '/',
    ensures
        weights_dir(Some(dir), home) == dir,
        home matches Some(home) ==> weights_dir(None, Some(home)) == home + "/.cache/fastembed"@,
        weights_dir(None, None) == ".fastembed_cache"@,
{
    reveal_strlit(".cache/fastembed");
    reveal_strlit("/.cache/fastembed");
    if let Some(home) = home {
        assert(home.push('/') + ".cache/fastembed"@ =~= home + "/.cache/fastembed"@);
    }
}

/// A value that may be unset, as text.
pub open spec fn setting_view(value: Option<&str>) -> Option<Seq<char>> {
    match value {
        Some(value) => Some(value@),
        None => None,
    }
}

/// Where the model's weights are kept, given `FASTEMBED_CACHE_DIR` and `HOME`.
pub fn dup_cache_dir(set: Option<&str>, home: Option<&str>) -> (dir: String)
    ensures
        dir@ == weights_dir(setting_view(set), setting_view(home)),
        set matches Some(named) ==> dir@ == named@,
        set is None && home is None ==> dir@ == ".fastembed_cache"@,
        set is None && home is Some ==> dir@ == joined_path(home->0@, ".cache/fastembed"@),
{
    match set {
        Some(dir) => dir.to_owned(),
        None => match home {
            Some(home) => join_path(home, ".cache/fastembed"),
            None => ".fastembed_cache".to_owned(),
        },
    }
}

/// Whether the model that is loaded serves a request for `name`.
pub fn serves(loaded: Option<&str>, name: &str) -> (fine: bool)
    ensures
        fine == (setting_view(loaded) == Some(name@)),
        fine <==> loaded is Some && loaded->0@ == name@,
{
    match loaded {
        Some(loaded) => same(loaded, name),
        None => false,
    }
}

/// What a batch was embedded to: a vector per text, or why not.
pub open spec fn batch_view(out: Result<Vec<Vec<u32>>, String>) -> Result<Seq<Seq<u32>>, Seq<char>> {
    match out {
        Ok(vectors) => Ok(vectors@.map_values(|v: Vec<u32>| v@)),
        Err(message) => Err(message@),
    }
}

/// Anything that can turn body texts into vectors.
///
/// A trait so the cache logic, which bodies to embed and which to leave alone,
/// is testable without the model.
pub trait BodyEmbedder {
    /// One vector per text, in order, already truncated and normalised.
    fn embed_bodies(&self, texts: &[&str]) -> (out: Result<Vec<Vec<u32>>, String>);
}

/// Whether an embedder may answer `out` for `texts`.
pub open spec fn may_embed<E: BodyEmbedder>(
    embedder: &E,
    texts: Seq<Seq<char>>,
    out: Result<Seq<Seq<u32>>, Seq<char>>,
) -> bool {
    exists|batch: &[&str], answer: Result<Vec<Vec<u32>>, String>|
        batch@.map_values(|t: &str| t@) == texts && batch_view(answer) == out
            && #[trigger] call_ensures(E::embed_bodies, (embedder, batch), answer)
}

/// A body by its hash and its text.
pub open spec fn body_views(bodies: Seq<(String, String)>) -> Seq<(Seq<char>, Seq<char>)> {
    bodies.map_values(|b: (String, String)| (b.0@, b.1@))
}

/// Whether no body before this one has its hash.
pub open spec fn first_of_its_hash(bodies: Seq<(Seq<char>, Seq<char>)>, i: int) -> bool {
    forall|j: int| 0 <= j < i ==> (#[trigger] bodies[j]).0 != bodies[i].0
}

/// The bodies to embed among the first `n`: the first of each hash, unless a
/// vector is cached for it.
pub open spec fn pending_among(
    bodies: Seq<(Seq<char>, Seq<char>)>,
    cached: Seq<bool>,
    n: int,
) -> Seq<usize>
    decreases n,
{
    if n <= 0 {
        Seq::empty()
    } else {
        let before = pending_among(bodies, cached, n - 1);
        if first_of_its_hash(bodies, n - 1) && !cached[n - 1] {
            before.push((n - 1) as usize)
        } else {
            before
        }
    }
}

/// The bodies to embed.
pub open spec fn pending(bodies: Seq<(Seq<char>, Seq<char>)>, cached: Seq<bool>) -> Seq<usize> {
    pending_among(bodies, cached, bodies.len() as int)
}

/// The texts of some bodies.
pub open spec fn texts_of(bodies: Seq<(Seq<char>, Seq<char>)>, at: Seq<usize>) -> Seq<Seq<char>> {
    at.map_values(|i: usize| bodies[i as int].1)
}

/// What is said of a batch of the wrong size.
pub open spec fn misaligned(vectors: nat, bodies: nat) -> Seq<char> {
    "embedder returned "@ + decimal(vectors) + " vectors for "@ + decimal(bodies) + " bodies"@
}

/// The vectors to write, each by the body it belongs to.
pub open spec fn write_views(writes: Seq<(usize, Vec<u32>)>) -> Seq<(usize, Seq<u32>)> {
    writes.map_values(|w: (usize, Vec<u32>)| (w.0, w.1@))
}

/// A batch paired with the bodies it was asked for, or why it does not fit.
pub open spec fn paired(at: Seq<usize>, vectors: Seq<Seq<u32>>) -> Result<
    Seq<(usize, Seq<u32>)>,
    Seq<char>,
> {
    if vectors.len() != at.len() {
        Err(misaligned(vectors.len(), at.len()))
    } else {
        Ok(Seq::new(at.len(), |k: int| (at[k], vectors[k])))
    }
}

/// What a pairing gives, as values.
pub open spec fn writes_view(writes: Result<Vec<(usize, Vec<u32>)>, String>) -> Result<
    Seq<(usize, Seq<u32>)>,
    Seq<char>,
> {
    match writes {
        Ok(writes) => Ok(write_views(writes@)),
        Err(message) => Err(message@),
    }
}

/// The bodies to embed, by index.
pub fn pending_bodies(bodies: &[(String, String)], cached: &[bool]) -> (at: Vec<usize>)
    requires
        cached@.len() == bodies@.len(),
    ensures
        at@ == pending(body_views(bodies@), cached@),
        forall|k: int| 0 <= k < at@.len() ==> #[trigger] at@[k] < bodies@.len(),
        forall|k: int| 0 <= k < at@.len() ==> !cached@[(#[trigger] at@[k]) as int],
        forall|k: int, j: int|
            0 <= k < at@.len() && 0 <= j < at@[k] ==> (#[trigger] bodies@[j]).0@
                != bodies@[(#[trigger] at@[k]) as int].0@,
        forall|k: int, l: int| 0 <= k < l < at@.len() ==> #[trigger] at@[k] < #[trigger] at@[l],
        forall|i: int|
            0 <= i < bodies@.len() && !(#[trigger] cached@[i]) && (forall|j: int|
                0 <= j < i ==> (#[trigger] bodies@[j]).0@ != bodies@[i].0@) ==> at@.contains(
                i as usize,
            ),
{
    let ghost views = body_views(bodies@);
    let mut at: Vec<usize> = Vec::new();
    let mut i: usize = 0;
    while i < bodies.len()
        invariant
            i <= bodies@.len(),
            cached@.len() == bodies@.len(),
            views == body_views(bodies@),
            at@ == pending_among(views, cached@, i as int),
            forall|k: int| 0 <= k < at@.len() ==> #[trigger] at@[k] < bodies@.len(),
        decreases bodies@.len() - i,
    {
        // Two candidates can share a body hash, which is the point of content
        // addressing, and embedding it twice in one batch would be waste.
        let mut first = true;
        let mut j: usize = 0;
        while j < i
            invariant
                j <= i < bodies@.len(),
                views == body_views(bodies@),
                first == (forall|k: int| 0 <= k < j ==> (#[trigger] views[k]).0
                    != views[i as int].0),
            decreases i - j,
        {
            assert(views[j as int].0 == bodies@[j as int].0@);
            assert(views[i as int].0 == bodies@[i as int].0@);
            if same(bodies[j].0.as_str(), bodies[i].0.as_str()) {
                first = false;
            }
            j += 1;
        }
        if first && !cached[i] {
            at.push(i);
        }
        i += 1;
    }
    proof {
        lemma_pending(views, cached@, bodies@.len() as int);
        assert forall|k: int, j: int| 0 <= k < at@.len() && 0 <= j < at@[k] implies (
        #[trigger] bodies@[j]).0@ != bodies@[(#[trigger] at@[k]) as int].0@ by {
            assert(first_of_its_hash(views, at@[k] as int));
            assert(views[j].0 != views[at@[k] as int].0);
        }
        assert forall|i: int|
            0 <= i < bodies@.len() && !(#[trigger] cached@[i]) && (forall|j: int|
                0 <= j < i ==> (#[trigger] bodies@[j]).0@
                    != bodies@[i].0@) implies at@.contains(i as usize) by {
            assert forall|j: int| 0 <= j < i implies (#[trigger] views[j]).0 != views[i].0 by {
                assert(bodies@[j].0@ != bodies@[i].0@);
            }
            assert(first_of_its_hash(views, i));
        }
    }
    at
}

/// Pair each vector with the body it was asked for.
///
/// A batch of the wrong size would otherwise pair vectors with the wrong
/// bodies, and every subsequent score would be about the wrong code.
pub fn pair_vectors(at: &Vec<usize>, vectors: Vec<Vec<u32>>) -> (writes: Result<
    Vec<(usize, Vec<u32>)>,
    String,
>)
    ensures
        writes_view(writes) == paired(at@, vectors@.map_values(|v: Vec<u32>| v@)),
        writes is Ok <==> vectors@.len() == at@.len(),
        writes matches Ok(writes) ==> {
            &&& writes@.len() == at@.len()
            &&& forall|k: int|
                0 <= k < at@.len() ==> (#[trigger] writes@[k]).0 == at@[k] && writes@[k].1@
                    == vectors@[k]@
        },
        writes matches Err(message) ==> message@ == "embedder returned "@ + decimal(
            vectors@.len(),
        ) + " vectors for "@ + decimal(at@.len()) + " bodies"@,
{
    let ghost views = vectors@.map_values(|v: Vec<u32>| v@);
    if vectors.len() != at.len() {
        let mut message = "embedder returned ".to_owned();
        message.append(decimal_text(vectors.len()).as_str());
        message.append(" vectors for ");
        message.append(decimal_text(at.len()).as_str());
        message.append(" bodies");
        return Err(message);
    }
    let mut writes: Vec<(usize, Vec<u32>)> = Vec::new();
    for vector in it: vectors
        invariant
            it.seq() == vectors@,
            views == vectors@.map_values(|v: Vec<u32>| v@),
            at@.len() == views.len(),
            writes@.len() == it.index(),
            write_views(writes@) == Seq::new(it.index() as nat, |k: int| (at@[k], views[k])),
    {
        let i: usize = writes.len();
        let ghost before = write_views(writes@);
        let ghost view = vector@;
        writes.push((at[i], vector));
        assert(write_views(writes@) =~= before.push((at@[i as int], view)));
        assert(views[i as int] == view);
        assert(write_views(writes@) =~= Seq::new((i + 1) as nat, |k: int| (at@[k], views[k])));
    }
    proof {
        assert forall|k: int| 0 <= k < at@.len() implies (#[trigger] writes@[k]).0 == at@[k]
            && writes@[k].1@ == vectors@[k]@ by {
            assert(write_views(writes@)[k] == (at@[k], views[k]));
        }
    }
    Ok(writes)
}

/// Embed every body that has no vector yet.
///
/// Gives the vectors to write, each with the index of its body. A body already
/// in the cache is skipped: that is the entire reason the cache is keyed on
/// body content. The same function copied into three files is one pass, and an
/// unrelated edit elsewhere in the file costs nothing.
///
/// `bodies` is `(body_hash, body_text)`, and `cached` says of each whether the
/// cache holds a vector for its hash.
pub fn embed_missing<E: BodyEmbedder>(
    bodies: &[(String, String)],
    cached: &[bool],
    embedder: &E,
) -> (writes: Result<Vec<(usize, Vec<u32>)>, String>)
    requires
        cached@.len() == bodies@.len(),
    ensures
        pending(body_views(bodies@), cached@).len() == 0 ==> writes_view(writes) == Ok::<
            Seq<(usize, Seq<u32>)>,
            Seq<char>,
        >(Seq::empty()),
        pending(body_views(bodies@), cached@).len() > 0 ==> exists|
            out: Result<Seq<Seq<u32>>, Seq<char>>,
        | #[trigger]
            may_embed(
                embedder,
                texts_of(body_views(bodies@), pending(body_views(bodies@), cached@)),
                out,
            ) && writes_view(writes) == match out {
                Ok(vectors) => paired(pending(body_views(bodies@), cached@), vectors),
                Err(message) => Err(message),
            },
        pending(body_views(bodies@), cached@).len() > 0 ==> exists|
            texts: Seq<Seq<char>>,
            out: Result<Seq<Seq<u32>>, Seq<char>>,
        | #[trigger]
            may_embed(embedder, texts, out) && texts.len() == pending(
                body_views(bodies@),
                cached@,
            ).len() && (forall|k: int|
                0 <= k < texts.len() ==> #[trigger] texts[k] == bodies@[pending(
                    body_views(bodies@),
                    cached@,
                )[k] as int].1@) && writes_view(writes) == match out {
                Ok(vectors) => paired(pending(body_views(bodies@), cached@), vectors),
                Err(message) => Err(message),
            },
{
    let at = pending_bodies(bodies, cached);
    if at.len() == 0 {
        let none: Vec<(usize, Vec<u32>)> = Vec::new();
        assert(write_views(none@) =~= Seq::empty());
        return Ok(none);
    }
    let ghost views = body_views(bodies@);
    let mut texts: Vec<&str> = Vec::new();
    let mut k: usize = 0;
    while k < at.len()
        invariant
            k <= at@.len(),
            views == body_views(bodies@),
            forall|k: int| 0 <= k < at@.len() ==> #[trigger] at@[k] < bodies@.len(),
            texts@.map_values(|t: &str| t@) == texts_of(views, at@.take(k as int)),
        decreases at@.len() - k,
    {
        let ghost before = texts@.map_values(|t: &str| t@);
        let i = at[k];
        let text = bodies[i].1.as_str();
        texts.push(text);
        assert(views[i as int].1 == text@);
        assert(texts@.map_values(|t: &str| t@) =~= before.push(text@));
        k += 1;
        assert(texts@.map_values(|t: &str| t@) =~= texts_of(views, at@.take(k as int)));
    }
    assert(at@.take(k as int) =~= at@);
    let out = embedder.embed_bodies(texts.as_slice());
    let ghost answer = batch_view(out);
    assert(may_embed(embedder, texts_of(views, at@), answer));
    assert forall|k: int| 0 <= k < at@.len() implies #[trigger] texts_of(views, at@)[k]
        == bodies@[at@[k] as int].1@ by {
        assert(at@[k] < bodies@.len());
    }
    match out {
        Ok(vectors) => pair_vectors(&at, vectors),
        Err(message) => Err(message),
    }
}

/// What is embedded is the text of the bodies that are left to embed, in their
/// order: as many texts as bodies, and each the text of its body, never its
/// hash. A body is left where the cache holds nothing for it and no body before
/// it has its hash.
pub proof fn the_texts_of_the_missing_bodies_are_embedded(
    bodies: Seq<(String, String)>,
    cached: Seq<bool>,
    i: int,
    k: int,
)
    requires
        bodies.len() <= usize::MAX,
        cached.len() == bodies.len(),
        0 <= i < bodies.len(),
    ensures
        ({
            let at = pending(body_views(bodies), cached);
            let texts = texts_of(body_views(bodies), at);
            &&& texts.len() == at.len()
            &&& 0 <= k < at.len() ==> at[k] < bodies.len() && texts[k] == bodies[at[k] as int].1@
            &&& at.contains(i as usize) <==> !cached[i] && (forall|j: int|
                0 <= j < i ==> (#[trigger] bodies[j]).0@ != bodies[i].0@)
        }),
{
    let views = body_views(bodies);
    let at = pending(views, cached);
    lemma_pending(views, cached, bodies.len() as int);
    if 0 <= k < at.len() {
        assert(at[k] < bodies.len());
        assert(views[at[k] as int].1 == bodies[at[k] as int].1@);
    }
    if at.contains(i as usize) {
        let p = choose|p: int| 0 <= p < at.len() && at[p] == i as usize;
        assert(first_of_its_hash(views, at[p] as int));
        assert forall|j: int| 0 <= j < i implies (#[trigger] bodies[j]).0@ != bodies[i].0@ by {
            assert(views[j].0 != views[i].0);
        }
    }
    if !cached[i] && (forall|j: int|
        0 <= j < i ==> (#[trigger] bodies[j]).0@ != bodies[i].0@) {
        assert forall|j: int| 0 <= j < i implies (#[trigger] views[j]).0 != views[i].0 by {
            assert(bodies[j].0@ != bodies[i].0@);
        }
        assert(first_of_its_hash(views, i));
    }
}

/// A batch is written body by body: as many writes as bodies, each with the
/// vector that came for it, and a batch of another size is refused with both
/// sizes named, what came first.
pub proof fn a_batch_is_written_in_order(at: Seq<usize>, vectors: Seq<Seq<u32>>, k: int)
    ensures
        paired(at, vectors) is Ok <==> vectors.len() == at.len(),
        paired(at, vectors) matches Ok(writes) ==> writes.len() == at.len() && (0 <= k < at.len()
            ==> writes[k].0 == at[k] && writes[k].1 == vectors[k]),
        paired(at, vectors) matches Err(message) ==> message == "embedder returned "@ + decimal(
            vectors.len(),
        ) + " vectors for "@ + decimal(at.len()) + " bodies"@,
{
}

/// Every hash is embedded once: two bodies to embed have different hashes, none
/// of them is cached, and every body whose hash is not cached has its hash
/// among them.
pub proof fn each_hash_is_embedded_once(
    bodies: Seq<(Seq<char>, Seq<char>)>,
    cached: Seq<bool>,
    i: int,
)
    requires
        bodies.len() <= usize::MAX,
        cached.len() == bodies.len(),
        forall|a: int, b: int|
            0 <= a < bodies.len() && 0 <= b < bodies.len() && (#[trigger] bodies[a]).0 == (
            #[trigger] bodies[b]).0 ==> cached[a] == cached[b],
        0 <= i < bodies.len(),
    ensures
        ({
            let at = pending(bodies, cached);
            &&& forall|k: int, l: int|
                0 <= k < l < at.len() ==> at[k] < at[l] && bodies[(#[trigger] at[k]) as int].0
                    != bodies[(#[trigger] at[l]) as int].0
            &&& forall|k: int|
                0 <= k < at.len() ==> (#[trigger] at[k]) < bodies.len() && !cached[at[k] as int]
            &&& !cached[i] ==> exists|k: int|
                0 <= k < at.len() && bodies[(#[trigger] at[k]) as int].0 == bodies[i].0
        }),
{
    lemma_pending(bodies, cached, bodies.len() as int);
    if !cached[i] {
        lemma_first_exists(bodies, i);
        let f = choose|f: int|
            0 <= f <= i && #[trigger] first_of_its_hash(bodies, f) && bodies[f].0 == bodies[i].0;
        assert(!cached[f]);
        let at = pending(bodies, cached);
        let k = choose|k: int| 0 <= k < at.len() && at[k] == f;
        assert(bodies[at[k] as int].0 == bodies[i].0);
    }
}

proof fn lemma_first_exists(bodies: Seq<(Seq<char>, Seq<char>)>, i: int)
    requires
        0 <= i < bodies.len(),
    ensures
        exists|f: int|
            0 <= f <= i && #[trigger] first_of_its_hash(bodies, f) && bodies[f].0 == bodies[i].0,
    decreases i,
{
    if !first_of_its_hash(bodies, i) {
        let j = choose|j: int| 0 <= j < i && (#[trigger] bodies[j]).0 == bodies[i].0;
        lemma_first_exists(bodies, j);
    }
}

proof fn lemma_pending(bodies: Seq<(Seq<char>, Seq<char>)>, cached: Seq<bool>, n: int)
    requires
        0 <= n <= bodies.len() <= usize::MAX,
        cached.len() == bodies.len(),
    ensures
        ({
            let at = pending_among(bodies, cached, n);
            &&& forall|k: int|
                0 <= k < at.len() ==> (#[trigger] at[k]) < n && !cached[at[k] as int]
                    && first_of_its_hash(bodies, at[k] as int)
            &&& forall|k: int, l: int|
                0 <= k < l < at.len() ==> (#[trigger] at[k]) < (#[trigger] at[l]) && bodies[at[k] as int].0
                    != bodies[at[l] as int].0
            &&& forall|f: int|
                0 <= f < n && #[trigger] first_of_its_hash(bodies, f) && !cached[f]
                    ==> at.contains(f as usize)
        }),
    decreases n,
{
    if n > 0 {
        lemma_pending(bodies, cached, n - 1);
        let before = pending_among(bodies, cached, n - 1);
        let at = pending_among(bodies, cached, n);
        assert forall|f: int|
            0 <= f < n && #[trigger] first_of_its_hash(bodies, f)
                && !cached[f] implies at.contains(f as usize) by {
            if f == n - 1 {
                assert(at[at.len() - 1] == f as usize);
            } else {
                assert(before.contains(f as usize));
                let k = choose|k: int| 0 <= k < before.len() && before[k] == f as usize;
                assert(at[k] == f as usize);
            }
        }
        assert forall|k: int, l: int| 0 <= k < l < at.len() implies (#[trigger] at[k]) < (
        #[trigger] at[l]) && bodies[at[k] as int].0 != bodies[at[l] as int].0 by {
            if l == at.len() - 1 && at.len() > before.len() {
                assert(at[k] == before[k]);
                assert(first_of_its_hash(bodies, n - 1));
            } else {
                assert(at[k] == before[k] && at[l] == before[l]);
            }
        }
    }
}

/// The group of a candidate: the last of the first `n` clusters that holds it.
pub open spec fn group_among(clusters: Seq<Seq<usize>>, n: int, i: usize) -> Option<int>
    decreases n,
{
    if n <= 0 {
        None
    } else if clusters[n - 1].contains(i) {
        Some(n - 1)
    } else {
        group_among(clusters, n - 1, i)
    }
}

/// The group of a candidate.
pub open spec fn group_of(clusters: Seq<Seq<usize>>, i: usize) -> Option<int> {
    group_among(clusters, clusters.len() as int, i)
}

/// Whether the structural pass left a pair open: the two are in no group
/// together. Two candidates without a group are not in one.
pub open spec fn is_open(clusters: Seq<Seq<usize>>, i: usize, j: usize) -> bool {
    group_of(clusters, i) is None || group_of(clusters, i) != group_of(clusters, j)
}

/// The open pairs of `i` with candidates behind it, below `j`.
pub open spec fn open_with(clusters: Seq<Seq<usize>>, i: int, j: int) -> Seq<(usize, usize)>
    decreases j - i,
{
    if j <= i + 1 {
        Seq::empty()
    } else {
        let before = open_with(clusters, i, j - 1);
        if is_open(clusters, i as usize, (j - 1) as usize) {
            before.push((i as usize, (j - 1) as usize))
        } else {
            before
        }
    }
}

/// The open pairs of `n` candidates whose lower index is below `i`.
pub open spec fn open_below(clusters: Seq<Seq<usize>>, n: int, i: int) -> Seq<(usize, usize)>
    decreases i,
{
    if i <= 0 {
        Seq::empty()
    } else {
        open_below(clusters, n, i - 1) + open_with(clusters, i - 1, n)
    }
}

/// The open pairs of `n` candidates, lower index first, in ascending order.
pub open spec fn open_pairs(clusters: Seq<Seq<usize>>, n: int) -> Seq<(usize, usize)> {
    open_below(clusters, n, n)
}

/// The clusters as sequences.
pub open spec fn cluster_views(clusters: Seq<Vec<usize>>) -> Seq<Seq<usize>> {
    clusters.map_values(|c: Vec<usize>| c@)
}

/// Which group each of `n` candidates is in.
fn groups_of(n: usize, clusters: &[Vec<usize>]) -> (groups: Vec<Option<usize>>)
    ensures
        groups@.len() == n,
        forall|i: int|
            0 <= i < n ==> (match #[trigger] groups@[i] {
                Some(g) => Some(g as int),
                None => None,
            }) == group_of(cluster_views(clusters@), i as usize),
{
    let ghost views = cluster_views(clusters@);
    let mut groups: Vec<Option<usize>> = Vec::new();
    let mut i: usize = 0;
    while i < n
        invariant
            i <= n,
            groups@.len() == i,
            forall|k: int| 0 <= k < i ==> #[trigger] groups@[k] is None,
        decreases n - i,
    {
        groups.push(None);
        i += 1;
    }
    let mut id: usize = 0;
    while id < clusters.len()
        invariant
            id <= clusters@.len(),
            views == cluster_views(clusters@),
            groups@.len() == n,
            forall|i: int|
                0 <= i < n ==> (match #[trigger] groups@[i] {
                    Some(g) => Some(g as int),
                    None => None,
                }) == group_among(views, id as int, i as usize),
        decreases clusters@.len() - id,
    {
        let group = &clusters[id];
        let mut k: usize = 0;
        assert(views[id as int] == group@);
        while k < group.len()
            invariant
                k <= group@.len(),
                id < clusters@.len(),
                views == cluster_views(clusters@),
                views[id as int] == group@,
                groups@.len() == n,
                forall|i: int|
                    0 <= i < n ==> (match #[trigger] groups@[i] {
                        Some(g) => Some(g as int),
                        None => None,
                    }) == if group@.take(k as int).contains(i as usize) {
                        Some(id as int)
                    } else {
                        group_among(views, id as int, i as usize)
                    },
            decreases group@.len() - k,
        {
            let i = group[k];
            let ghost before = group@.take(k as int);
            let ghost next = group@.take(k + 1);
            proof {
                assert(next =~= before.push(i));
                assert(next[k as int] == i);
                assert forall|x: usize| next.contains(x) <==> before.contains(x) || x == i by {
                    if before.contains(x) {
                        let p = choose|p: int| 0 <= p < before.len() && before[p] == x;
                        assert(next[p] == x);
                    }
                    if next.contains(x) && x != i {
                        let p = choose|p: int| 0 <= p < next.len() && next[p] == x;
                        assert(before[p] == x);
                    }
                }
            }
            if i < n {
                groups.set(i, Some(id));
            }
            k += 1;
        }
        assert(group@.take(k as int) =~= group@);
        id += 1;
    }
    groups
}

/// Index pairs the structural pass left unresolved.
///
/// `clusters` holds the groups it did settle; anything already grouped together
/// is a finding, and re-scoring it would only risk a model overruling a
/// certainty. Pairs are emitted with the lower index first.
pub fn unclustered_pairs(n: usize, clusters: &[Vec<usize>]) -> (pairs: Vec<(usize, usize)>)
    ensures
        pairs@ == open_pairs(cluster_views(clusters@), n as int),
{
    let ghost views = cluster_views(clusters@);
    let groups = groups_of(n, clusters);
    let mut pairs: Vec<(usize, usize)> = Vec::new();
    let mut i: usize = 0;
    while i < n
        invariant
            i <= n,
            views == cluster_views(clusters@),
            groups@.len() == n,
            forall|i: int|
                0 <= i < n ==> (match #[trigger] groups@[i] {
                    Some(g) => Some(g as int),
                    None => None,
                }) == group_of(views, i as usize),
            pairs@ == open_below(views, n as int, i as int),
        decreases n - i,
    {
        let ghost above = pairs@;
        let mut j: usize = i + 1;
        assert(above + open_with(views, i as int, i + 1) =~= above);
        while j < n
            invariant
                i < j <= n,
                views == cluster_views(clusters@),
                groups@.len() == n,
                forall|i: int|
                    0 <= i < n ==> (match #[trigger] groups@[i] {
                        Some(g) => Some(g as int),
                        None => None,
                    }) == group_of(views, i as usize),
                pairs@ == above + open_with(views, i as int, j as int),
            decreases n - j,
        {
            let ghost before = pairs@;
            let together = match (groups[i], groups[j]) {
                (Some(a), Some(b)) => a == b,
                _ => false,
            };
            assert(together == !is_open(views, i, j));
            if !together {
                pairs.push((i, j));
                assert(pairs@ =~= above + open_with(views, i as int, j + 1));
            }
            j += 1;
        }
        i += 1;
    }
    pairs
}

/// The pairs left to score are exactly the open ones: a pair is among them if
/// and only if its lower index comes first, both are candidates, and no group
/// holds both as their group.
pub proof fn open_pairs_are_what_is_left(
    clusters: Seq<Seq<usize>>,
    n: int,
    i: usize,
    j: usize,
)
    requires
        0 <= n <= usize::MAX,
    ensures
        open_pairs(clusters, n).contains((i, j)) <==> i < j < n && is_open(clusters, i, j),
{
    lemma_open_below(clusters, n, n, i, j);
}

proof fn lemma_open_with(clusters: Seq<Seq<usize>>, a: int, b: int, i: usize, j: usize)
    requires
        0 <= a,
        b <= usize::MAX,
        a <= usize::MAX,
    ensures
        open_with(clusters, a, b).contains((i, j)) <==> i == a && i < j < b && is_open(
            clusters,
            i,
            j,
        ),
    decreases b - a,
{
    if b > a + 1 {
        lemma_open_with(clusters, a, b - 1, i, j);
        let before = open_with(clusters, a, b - 1);
        let now = open_with(clusters, a, b);
        if now.len() > before.len() {
            assert(now[before.len() as int] == (a as usize, (b - 1) as usize));
            if before.contains((i, j)) {
                let k = choose|k: int| 0 <= k < before.len() && before[k] == (i, j);
                assert(now[k] == (i, j));
            }
            if now.contains((i, j)) && !before.contains((i, j)) {
                let k = choose|k: int| 0 <= k < now.len() && now[k] == (i, j);
                if k < before.len() {
                    assert(before[k] == (i, j));
                }
            }
        }
    }
}

proof fn lemma_open_below(clusters: Seq<Seq<usize>>, n: int, a: int, i: usize, j: usize)
    requires
        0 <= n <= usize::MAX,
        0 <= a <= n,
    ensures
        open_below(clusters, n, a).contains((i, j)) <==> i < a && i < j < n && is_open(
            clusters,
            i,
            j,
        ),
    decreases a,
{
    if a > 0 {
        lemma_open_below(clusters, n, a - 1, i, j);
        lemma_open_with(clusters, a - 1, n, i, j);
        let before = open_below(clusters, n, a - 1);
        let row = open_with(clusters, a - 1, n);
        let now = before + row;
        if before.contains((i, j)) {
            let k = choose|k: int| 0 <= k < before.len() && before[k] == (i, j);
            assert(now[k] == (i, j));
        }
        if row.contains((i, j)) {
            let k = choose|k: int| 0 <= k < row.len() && row[k] == (i, j);
            assert(now[before.len() + k] == (i, j));
        }
        if now.contains((i, j)) {
            let k = choose|k: int| 0 <= k < now.len() && now[k] == (i, j);
            if k < before.len() {
                assert(before[k] == (i, j));
            } else {
                assert(row[k - before.len()] == (i, j));
            }
        }
    }
}

/// The group of a candidate is the last cluster that holds it.
pub proof fn the_last_cluster_is_the_group(clusters: Seq<Seq<usize>>, i: usize, g: int)
    ensures
        group_of(clusters, i) == Some(g) <==> 0 <= g < clusters.len() && clusters[g].contains(i)
            && (forall|h: int| g < h < clusters.len() ==> !(#[trigger] clusters[h]).contains(i)),
        group_of(clusters, i) is None <==> (forall|h: int|
            0 <= h < clusters.len() ==> !(#[trigger] clusters[h]).contains(i)),
{
    lemma_last_cluster(clusters, clusters.len() as int, i);
}

proof fn lemma_last_cluster(clusters: Seq<Seq<usize>>, n: int, i: usize)
    requires
        0 <= n <= clusters.len(),
    ensures
        group_among(clusters, n, i) matches Some(g) ==> 0 <= g < n && clusters[g].contains(i) && (
        forall|h: int| g < h < n ==> !(#[trigger] clusters[h]).contains(i)),
        group_among(clusters, n, i) is None ==> (forall|h: int|
            0 <= h < n ==> !(#[trigger] clusters[h]).contains(i)),
    decreases n,
{
    if n > 0 {
        lemma_last_cluster(clusters, n - 1, i);
    }
}

/// Of groups that share nobody, exactly the pairs that no group holds are left:
/// a pair of candidates, lower index first, is left to score if and only if
/// there is no group with both.
pub proof fn no_grouped_pair_is_scored(clusters: Seq<Seq<usize>>, n: int, i: usize, j: usize)
    requires
        0 <= n <= usize::MAX,
        forall|g: int, h: int, x: usize|
            0 <= g < h < clusters.len() && #[trigger] clusters[g].contains(x)
                ==> !#[trigger] clusters[h].contains(x),
    ensures
        open_pairs(clusters, n).contains((i, j)) <==> i < j < n && !(exists|g: int|
            0 <= g < clusters.len() && #[trigger] clusters[g].contains(i) && clusters[g].contains(
                j,
            )),
{
    open_pairs_are_what_is_left(clusters, n, i, j);
    lemma_last_cluster(clusters, clusters.len() as int, i);
    lemma_last_cluster(clusters, clusters.len() as int, j);
}

/// Pairs are left in ascending order, each once: by the lower index, and by the
/// higher one on a tie.
pub proof fn open_pairs_ascend(clusters: Seq<Seq<usize>>, n: int, k: int, l: int)
    requires
        0 <= n <= usize::MAX,
        0 <= k < l < open_pairs(clusters, n).len(),
    ensures
        ({
            let pairs = open_pairs(clusters, n);
            pairs[k].0 < pairs[l].0 || (pairs[k].0 == pairs[l].0 && pairs[k].1 < pairs[l].1)
        }),
{
    lemma_open_below_ascends(clusters, n, n, k, l);
}

proof fn lemma_open_with_ascends(clusters: Seq<Seq<usize>>, a: int, b: int, k: int, l: int)
    requires
        0 <= a,
        b <= usize::MAX,
        a <= usize::MAX,
        0 <= k < l < open_with(clusters, a, b).len(),
    ensures
        open_with(clusters, a, b)[k].1 < open_with(clusters, a, b)[l].1,
    decreases b - a,
{
    let before = open_with(clusters, a, b - 1);
    let now = open_with(clusters, a, b);
    if l < before.len() {
        lemma_open_with_ascends(clusters, a, b - 1, k, l);
    } else {
        assert(before.contains(before[k]));
        lemma_open_with(clusters, a, b - 1, before[k].0, before[k].1);
    }
}

proof fn lemma_open_below_ascends(clusters: Seq<Seq<usize>>, n: int, a: int, k: int, l: int)
    requires
        0 <= n <= usize::MAX,
        0 <= a <= n,
        0 <= k < l < open_below(clusters, n, a).len(),
    ensures
        ({
            let pairs = open_below(clusters, n, a);
            pairs[k].0 < pairs[l].0 || (pairs[k].0 == pairs[l].0 && pairs[k].1 < pairs[l].1)
        }),
    decreases a,
{
    let before = open_below(clusters, n, a - 1);
    let row = open_with(clusters, a - 1, n);
    if l < before.len() {
        lemma_open_below_ascends(clusters, n, a - 1, k, l);
    } else {
        let second = row[l - before.len()];
        assert(row.contains(second));
        lemma_open_with(clusters, a - 1, n, second.0, second.1);
        if k < before.len() {
            assert(before.contains(before[k]));
            lemma_open_below(clusters, n, a - 1, before[k].0, before[k].1);
        } else {
            let first = row[k - before.len()];
            assert(row.contains(first));
            lemma_open_with(clusters, a - 1, n, first.0, first.1);
            lemma_open_with_ascends(clusters, a - 1, n, k - before.len(), l - before.len());
        }
    }
}

/// Whether there is a vector for a candidate.
pub open spec fn has_vector(present: Seq<bool>, i: usize) -> bool {
    i < present.len() && present[i as int]
}

/// A candidate has a vector exactly where it is known and one is there.
pub proof fn a_vector_must_be_there(present: Seq<bool>, i: usize)
    ensures
        i >= present.len() ==> !has_vector(present, i),
        i < present.len() ==> has_vector(present, i) == present[i as int],
{
}

/// The pairs that can be scored: both vectors are there.
///
/// A pair whose vector is missing scores nothing rather than zero: absent is
/// not "dissimilar", and recording it as such would tell the reader the model
/// judged something it never saw.
pub fn scorable_pairs(present: &[bool], pairs: &[(usize, usize)]) -> (both: Vec<(usize, usize)>)
    ensures
        both@ == pairs@.filter(
            |p: (usize, usize)| has_vector(present@, p.0) && has_vector(present@, p.1),
        ),
        both@ == pairs@.filter(
            |p: (usize, usize)|
                p.0 < present@.len() && p.1 < present@.len() && present@[p.0 as int]
                    && present@[p.1 as int],
        ),
{
    let ghost keep = |p: (usize, usize)| has_vector(present@, p.0) && has_vector(present@, p.1);
    let mut both: Vec<(usize, usize)> = Vec::new();
    let mut k: usize = 0;
    proof {
        pairs@.take(0).lemma_filter_len(keep);
        assert(both@ =~= pairs@.take(0).filter(keep));
    }
    while k < pairs.len()
        invariant
            k <= pairs@.len(),
            keep == (|p: (usize, usize)| has_vector(present@, p.0) && has_vector(present@, p.1)),
            both@ == pairs@.take(k as int).filter(keep),
        decreases pairs@.len() - k,
    {
        let (i, j) = pairs[k];
        proof {
            assert(pairs@.take(k + 1) =~= pairs@.take(k as int).push((i, j)));
            pairs@.take(k as int).lemma_filter_push((i, j), keep);
        }
        if i < present.len() && present[i] && j < present.len() && present[j] {
            both.push((i, j));
        }
        k += 1;
    }
    assert(pairs@.take(k as int) =~= pairs@);
    assert(keep =~= |p: (usize, usize)|
        p.0 < present@.len() && p.1 < present@.len() && present@[p.0 as int]
            && present@[p.1 as int]);
    both
}

/// What the bits of a single-precision number say without the sign.
pub open spec fn magnitude(bits: u32) -> int {
    if bits < 0x8000_0000 {
        bits as int
    } else {
        bits - 0x8000_0000
    }
}

/// Whether bits are no number.
pub open spec fn is_nan(bits: u32) -> bool {
    magnitude(bits) > 0x7f80_0000
}

/// Where the number of some bits stands among numbers. Both zeros stand at
/// zero.
pub open spec fn rank_of(bits: u32) -> int {
    if bits < 0x8000_0000 {
        bits as int
    } else {
        -magnitude(bits)
    }
}

/// Whether a score is at or above a threshold. What is no number is neither.
pub open spec fn reaches(score: u32, threshold: u32) -> bool {
    !is_nan(score) && !is_nan(threshold) && rank_of(score) >= rank_of(threshold)
}

/// Where bits stand in the total order of single-precision numbers: negative
/// ones below, minus zero below zero, and those that are no number outermost.
pub open spec fn total_rank(bits: u32) -> int {
    if bits < 0x8000_0000 {
        bits as int
    } else {
        -magnitude(bits) - 1
    }
}

/// Scores compare with a threshold as the numbers that the bits stand for. Above
/// the sign bit the pattern grows with the number, below it the number falls as
/// the pattern grows, both zeros are one number, and what is no number neither
/// reaches anything nor is reached.
pub proof fn scores_compare_as_numbers(score: u32, threshold: u32)
    ensures
        0x7f80_0000 < score < 0x8000_0000 || 0xff80_0000 < score ==> !reaches(score, threshold),
        0x7f80_0000 < threshold < 0x8000_0000 || 0xff80_0000 < threshold ==> !reaches(
            score,
            threshold,
        ),
        score <= 0x7f80_0000 && threshold <= 0x7f80_0000 ==> (reaches(score, threshold) <==> score
            >= threshold),
        0x8000_0000 <= score <= 0xff80_0000 && 0x8000_0000 <= threshold <= 0xff80_0000 ==> (reaches(
            score,
            threshold,
        ) <==> score <= threshold),
        score <= 0x7f80_0000 && 0x8000_0000 <= threshold <= 0xff80_0000 ==> reaches(
            score,
            threshold,
        ),
        0x8000_0000 <= score <= 0xff80_0000 && threshold <= 0x7f80_0000 ==> (reaches(
            score,
            threshold,
        ) <==> score == 0x8000_0000 && threshold == 0),
{
}

/// The order of a report: the strongest pair first, ties by the lower index and
/// then the higher one.
pub open spec fn strongest_first() -> spec_fn((usize, usize, u32), (usize, usize, u32)) -> bool {
    |a: (usize, usize, u32), b: (usize, usize, u32)|
        total_rank(a.2) > total_rank(b.2) || (total_rank(a.2) == total_rank(b.2) && (a.0 < b.0 || (
        a.0 == b.0 && a.1 <= b.1)))
}

proof fn lemma_strongest_first_is_total()
    ensures
        total_ordering(strongest_first()),
{
}

/// In a report a pair that scores higher comes first, a positive score before a
/// negative one, and of two that score the same the one with the lower first
/// index, and on a tie with the lower second one.
pub proof fn the_strongest_pair_comes_first(
    scored: Seq<(usize, usize, u32)>,
    threshold: u32,
    k: int,
    l: int,
)
    requires
        0 <= k < l < scored.filter(
            |s: (usize, usize, u32)| reaches(s.2, threshold),
        ).sort_by(strongest_first()).len(),
    ensures
        ({
            let ranked = scored.filter(
                |s: (usize, usize, u32)| reaches(s.2, threshold),
            ).sort_by(strongest_first());
            let (a, b) = (ranked[k], ranked[l]);
            &&& scored.contains(a) && reaches(a.2, threshold)
            &&& a.2 < 0x8000_0000 && b.2 < 0x8000_0000 ==> a.2 >= b.2
            &&& a.2 >= 0x8000_0000 && b.2 >= 0x8000_0000 ==> a.2 <= b.2
            &&& !(a.2 >= 0x8000_0000 && b.2 < 0x8000_0000)
            &&& a.2 == b.2 ==> a.0 < b.0 || (a.0 == b.0 && a.1 <= b.1)
        }),
{
    broadcast use vstd::seq_lib::group_to_multiset_ensures;

    let keep = |s: (usize, usize, u32)| reaches(s.2, threshold);
    let kept = scored.filter(keep);
    let ranked = kept.sort_by(strongest_first());
    lemma_strongest_first_is_total();
    kept.lemma_sort_by_ensures(strongest_first());
    assert(strongest_first()(ranked[k], ranked[l]));
    assert(ranked.contains(ranked[k]));
    assert(ranked.to_multiset().count(ranked[k]) > 0);
    assert(kept.contains(ranked[k]));
    scored.lemma_filter_contains_rev(keep, ranked[k]);
    let at = choose|at: int| 0 <= at < kept.len() && kept[at] == ranked[k];
    scored.lemma_filter_pred(keep, at);
}

fn total_rank_of(bits: u32) -> (rank: i64)
    ensures
        rank == total_rank(bits),
{
    if bits < 0x8000_0000 {
        bits as i64
    } else {
        -((bits - 0x8000_0000) as i64) - 1
    }
}

fn rank_as_number(bits: u32) -> (rank: Option<i64>)
    ensures
        rank == if is_nan(bits) {
            None
        } else {
            Some(rank_of(bits) as i64)
        },
{
    let size: u32 = if bits < 0x8000_0000 {
        bits
    } else {
        bits - 0x8000_0000
    };
    if size > 0x7f80_0000 {
        None
    } else if bits < 0x8000_0000 {
        Some(size as i64)
    } else {
        Some(-(size as i64))
    }
}

/// Keep the pairs that score at or above `threshold`, strongest first.
///
/// The report is read by a human and the strongest pair belongs first.
pub fn rank_pairs(scored: &[(usize, usize, u32)], threshold: u32) -> (ranked: Vec<
    (usize, usize, u32),
>)
    ensures
        ranked@ == scored@.filter(|s: (usize, usize, u32)| reaches(s.2, threshold)).sort_by(
            strongest_first(),
        ),
        ranked@.to_multiset() == scored@.filter(
            |s: (usize, usize, u32)| reaches(s.2, threshold),
        ).to_multiset(),
        forall|k: int, l: int|
            0 <= k < l < ranked@.len() ==> {
                let (a, b) = (#[trigger] ranked@[k], #[trigger] ranked@[l]);
                &&& a.2 < 0x8000_0000 && b.2 < 0x8000_0000 ==> a.2 >= b.2
                &&& a.2 >= 0x8000_0000 && b.2 >= 0x8000_0000 ==> a.2 <= b.2
                &&& !(a.2 >= 0x8000_0000 && b.2 < 0x8000_0000)
                &&& a.2 == b.2 ==> a.0 < b.0 || (a.0 == b.0 && a.1 <= b.1)
            },
{
    let ghost keep = |s: (usize, usize, u32)| reaches(s.2, threshold);
    let floor = rank_as_number(threshold);
    let mut kept: Vec<(usize, usize, u32)> = Vec::new();
    let mut k: usize = 0;
    proof {
        scored@.take(0).lemma_filter_len(keep);
        assert(kept@ =~= scored@.take(0).filter(keep));
    }
    while k < scored.len()
        invariant
            k <= scored@.len(),
            keep == (|s: (usize, usize, u32)| reaches(s.2, threshold)),
            floor == (if is_nan(threshold) {
                None
            } else {
                Some(rank_of(threshold) as i64)
            }),
            kept@ == scored@.take(k as int).filter(keep),
        decreases scored@.len() - k,
    {
        let pair = scored[k];
        proof {
            assert(scored@.take(k + 1) =~= scored@.take(k as int).push(pair));
            scored@.take(k as int).lemma_filter_push(pair, keep);
        }
        let fine = match (rank_as_number(pair.2), floor) {
            (Some(score), Some(floor)) => score >= floor,
            _ => false,
        };
        assert(fine == keep(pair));
        if fine {
            kept.push(pair);
        }
        k += 1;
    }
    assert(scored@.take(k as int) =~= scored@);
    let leq = |a: (usize, usize, u32), b: (usize, usize, u32)| -> (r: bool)
        ensures
            r == strongest_first()(a, b),
        {
            let first = total_rank_of(a.2);
            let second = total_rank_of(b.2);
            first > second || (first == second && (a.0 < b.0 || (a.0 == b.0 && a.1 <= b.1)))
        };
    proof {
        lemma_strongest_first_is_total();
    }
    let ranked = sort(&kept, &leq, Ghost(strongest_first()));
    proof {
        kept@.lemma_sort_by_ensures(strongest_first());
        assert forall|k: int, l: int| 0 <= k < l < ranked@.len() implies {
            let (a, b) = (#[trigger] ranked@[k], #[trigger] ranked@[l]);
            &&& a.2 < 0x8000_0000 && b.2 < 0x8000_0000 ==> a.2 >= b.2
            &&& a.2 >= 0x8000_0000 && b.2 >= 0x8000_0000 ==> a.2 <= b.2
            &&& !(a.2 >= 0x8000_0000 && b.2 < 0x8000_0000)
            &&& a.2 == b.2 ==> a.0 < b.0 || (a.0 == b.0 && a.1 <= b.1)
        } by {
            assert(strongest_first()(ranked@[k], ranked@[l]));
        }
    }
    ranked
}

/// What the semantic pass does next.
#[derive(Debug, PartialEq, Eq)]
pub enum TailStep {
    /// Nothing to score, and so nothing to embed: the model is not loaded at
    /// all when the structural pass already settled everything.
    Settled,
    /// Embed what is missing, then score these pairs.
    Score(Vec<(usize, usize)>),
}

/// What the semantic pass does about `n` bodies and the clusters that the
/// structural pass found.
pub fn semantic_tail(n: usize, clusters: &[Vec<usize>]) -> (step: TailStep)
    ensures
        match step {
            TailStep::Settled => open_pairs(cluster_views(clusters@), n as int).len() == 0,
            TailStep::Score(pairs) => pairs@.len() > 0 && pairs@ == open_pairs(
                cluster_views(clusters@),
                n as int,
            ),
        },
{
    let pairs = unclustered_pairs(n, clusters);
    if pairs.len() == 0 {
        TailStep::Settled
    } else {
        TailStep::Score(pairs)
    }
}

} // verus!
