//! Privacy boundary for developer query telemetry.

use ring::rand::SecureRandom;
use vstd::prelude::*;
use vstd::utf8::{encode_utf8, is_ascii_chars, is_ascii_chars_encode_utf8};

use crate::text::{
    collapse, collapsed, decimal, decimal_text, hex_bytes, hex_of, join_path, joined_path,
    lemma_collapsed_is_no_longer, lemma_hex_bytes_len,
};

verus! {

/// The file that holds the key.
pub const TELEMETRY_KEY_FILE: &'static str = "telemetry.key";

/// How many bytes a key has.
pub const KEY_LEN: usize = 32;

/// How many bytes a key has at most. The digest counts the bits that go into it
/// in 64 bits.
pub const KEY_LIMIT: u64 = 0x1fff_ffff_ffff_ffff;

/// How many bytes a keyed hash takes at most. One block of 64 bytes, made of
/// the key, goes into the digest before them.
pub const HASH_LIMIT: u64 = 0x1fff_ffff_ffff_ffbf;

/// Where the key of a repository is kept.
pub open spec fn key_file(root: Seq<char>) -> Seq<char> {
    joined_path(joined_path(root, ".mdkb"@), "telemetry.key"@)
}

/// Where the key of a repository is kept.
pub fn key_path(root: &str) -> (path: String)
    ensures
        path@ == key_file(root@),
{
    join_path(join_path(root, ".mdkb").as_str(), "telemetry.key")
}

/// The directory that the key of a repository is kept in.
pub fn key_directory(root: &str) -> (path: String)
    ensures
        path@ == joined_path(root@, ".mdkb"@),
{
    join_path(root, ".mdkb")
}

/// A text in lower case, as Unicode has it.
pub uninterp spec fn lowercased(s: Seq<char>) -> Seq<char>;

/// An ASCII character in lower case.
pub open spec fn ascii_lower(c: char) -> char {
    if 'A' <= c <= 'Z' {
        (c as u32 + 32) as char
    } else {
        c
    }
}

/// Whether a text is ASCII.
pub open spec fn ascii_only(s: Seq<char>) -> bool {
    is_ascii_chars(s)
}

/// `str::to_lowercase`: the lowercase equivalent of a text, as Unicode defines
/// it. Of ASCII text it is the text with each letter in lower case.
#[verifier::external_body]
fn to_lowercase(s: &str) -> (lower: String)
    ensures
        lower@ == lowercased(s@),
        ascii_only(s@) ==> lower@ == s@.map_values(|c: char| ascii_lower(c)),
{
    s.to_lowercase()
}

/// The HMAC-SHA-256 of a message under a key.
pub uninterp spec fn hmac_tag(key: Seq<u8>, message: Seq<u8>) -> Seq<u8>;

/// `ring::hmac::sign` with a key of `HMAC_SHA256`: the tag of the message, 32
/// bytes of it. The digest panics where the bits that go into it are more than
/// it counts, so the key and the message are kept to what it takes.
#[verifier::external_body]
fn hmac_sha256(key: &[u8], message: &[u8]) -> (tag: Vec<u8>)
    requires
        key@.len() <= KEY_LIMIT,
        message@.len() <= HASH_LIMIT,
    ensures
        tag@ == hmac_tag(key@, message@),
        tag@.len() == 32,
{
    let key = ring::hmac::Key::new(ring::hmac::HMAC_SHA256, key);
    ring::hmac::sign(&key, message).as_ref().to_vec()
}

/// `SecureRandom::fill` of ring's `SystemRandom`: so many random bytes, or
/// nothing where the operating system gives none. Which bytes they are is left
/// to chance. No more are asked for than an allocation can hold.
#[verifier::external_body]
fn random_bytes(count: usize) -> (bytes: Option<Vec<u8>>)
    requires
        count <= isize::MAX,
    ensures
        bytes matches Some(b) ==> b@.len() == count,
{
    let mut bytes = vec![0u8; count];
    ring::rand::SystemRandom::new().fill(&mut bytes).ok()?;
    Some(bytes)
}

/// What of a query is hashed: the query in lower case, on one line.
pub open spec fn normalized(query: Seq<char>) -> Seq<char> {
    collapsed(lowercased(query))
}

/// The hash of a query under a key: the tag of what is hashed of it, as hex.
pub open spec fn query_hash(key: Seq<u8>, text: Seq<char>) -> Seq<char> {
    hex_bytes(hmac_tag(key, encode_utf8(text)))
}

/// The keyed hash of a text as hex, two digits to a byte.
pub fn tag_text(tag: &[u8]) -> (hex: String)
    ensures
        hex@ == hex_bytes(tag@),
{
    hex_of(tag)
}

/// What of an ASCII query is hashed: the query in lower case, on one line.
pub open spec fn ascii_normalized(query: Seq<char>) -> Seq<char> {
    collapsed(query.map_values(|c: char| ascii_lower(c)))
}

/// No more bytes of an ASCII query are hashed than it has characters.
proof fn lemma_ascii_is_no_longer(query: Seq<char>)
    requires
        ascii_only(query),
    ensures
        encode_utf8(ascii_normalized(query)).len() <= query.len(),
{
    let lower = query.map_values(|c: char| ascii_lower(c));
    let text = ascii_normalized(query);
    assert forall|i: int| 0 <= i < lower.len() implies '\0' <= #[trigger] lower[i]
        <= '\u{7f}' by {
        assert('\0' <= query[i] <= '\u{7f}');
    }
    lemma_collapsed_is_no_longer(lower);
    is_ascii_chars_encode_utf8(text);
}

/// HMAC a normalized query so repeated searches can be correlated inside one
/// repository without making predictable prompts reversible by dictionary.
pub fn hash_query_with_key(key: &[u8], query: &str) -> (hash: String)
    requires
        key@.len() <= KEY_LIMIT,
        encode_utf8(normalized(query@)).len() <= HASH_LIMIT || ascii_only(query@) && query@.len()
            <= HASH_LIMIT,
    ensures
        hash@ == query_hash(key@, normalized(query@)),
        hash@ == hex_bytes(hmac_tag(key@, encode_utf8(collapsed(lowercased(query@))))),
        hash@.len() == 64,
        ascii_only(query@) ==> hash@ == query_hash(key@, ascii_normalized(query@)),
{
    let lower = to_lowercase(query);
    proof {
        if ascii_only(query@) {
            lemma_ascii_is_no_longer(query@);
        }
    }
    let text = collapse(lower.as_str());
    let tag = hmac_sha256(key, text.as_str().as_bytes());
    proof {
        lemma_hex_bytes_len(tag@);
    }
    tag_text(tag.as_slice())
}

/// The hash of a query under the key that was loaded, or why there is none.
/// `None` for a query or a key longer than the digest takes: there is no hash of
/// these.
pub fn hash_query(key: Result<Vec<u8>, KeyError>, query: &str) -> (hash: Result<
    Option<String>,
    KeyError,
>)
    ensures
        match key {
            Err(error) => hash == Err::<Option<String>, KeyError>(error),
            Ok(key) => match hash {
                Ok(Some(hash)) => key@.len() <= KEY_LIMIT && encode_utf8(
                    normalized(query@),
                ).len() <= HASH_LIMIT && hash@ == query_hash(key@, normalized(query@))
                    && hash@.len() == 64,
                Ok(None) => key@.len() > KEY_LIMIT || encode_utf8(normalized(query@)).len()
                    > HASH_LIMIT,
                Err(_) => false,
            },
        },
        key matches Ok(key) ==> (hash matches Ok(Some(hash)) ==> hash@ == hex_bytes(
            hmac_tag(key@, encode_utf8(collapsed(lowercased(query@)))),
        )),
        key matches Ok(key) ==> (key@.len() <= KEY_LIMIT && ascii_only(query@) && query@.len()
            <= HASH_LIMIT ==> (hash matches Ok(Some(hash)) && hash@ == query_hash(
            key@,
            ascii_normalized(query@),
        ))),
{
    let key = match key {
        Ok(key) => key,
        Err(error) => {
            return Err(error);
        },
    };
    let lower = to_lowercase(query);
    proof {
        if ascii_only(query@) {
            lemma_ascii_is_no_longer(query@);
        }
    }
    let text = collapse(lower.as_str());
    if key.len() as u64 > KEY_LIMIT || text.as_str().as_bytes().len() as u64 > HASH_LIMIT {
        return Ok(None);
    }
    Ok(Some(hash_query_with_key(key.as_slice(), query)))
}

/// Two ASCII queries that differ in case and white space alone are hashed
/// alike: each is hashed by what is left of it in lower case on one line.
pub proof fn queries_alike_are_hashed_alike(
    key: Seq<u8>,
    head: Seq<char>,
    gap: Seq<char>,
    other: Seq<char>,
    rest: Seq<char>,
    shouted: Seq<char>,
)
    requires
        crate::text::all_white(gap),
        crate::text::all_white(other),
        ascii_only(gap),
        ascii_only(other),
        shouted.map_values(|c: char| ascii_lower(c)) == head.map_values(|c: char| ascii_lower(c)),
    ensures
        query_hash(key, ascii_normalized(head + gap + rest)) == query_hash(
            key,
            ascii_normalized(shouted + other + rest),
        ),
{
    let lower = |c: char| ascii_lower(c);
    assert(gap.map_values(lower) =~= gap) by {
        assert forall|i: int| 0 <= i < gap.len() implies ascii_lower(#[trigger] gap[i])
            == gap[i] by {
            assert(crate::text::white_space(gap[i]));
        }
    }
    assert(other.map_values(lower) =~= other) by {
        assert forall|i: int| 0 <= i < other.len() implies ascii_lower(#[trigger] other[i])
            == other[i] by {
            assert(crate::text::white_space(other[i]));
        }
    }
    assert((head + gap + rest).map_values(lower) =~= head.map_values(lower) + gap
        + rest.map_values(lower));
    assert((shouted + other + rest).map_values(lower) =~= shouted.map_values(lower) + other
        + rest.map_values(lower));
    crate::text::lemma_white_space_is_all_alike(
        head.map_values(lower),
        gap,
        other,
        rest.map_values(lower),
    );
}

/// Why there is no key.
#[derive(Debug, Clone, PartialEq, Eq)]
pub enum KeyError {
    /// What was done to a file failed.
    Io {
        path: String,
        operation: String,
    },
    /// Anything else.
    Other(String),
}

/// Why there is no key, as text.
pub enum KeyErrorView {
    Io { path: Seq<char>, operation: Seq<char> },
    Other(Seq<char>),
}

impl View for KeyError {
    type V = KeyErrorView;

    open spec fn view(&self) -> KeyErrorView {
        match self {
            KeyError::Io { path, operation } => KeyErrorView::Io {
                path: path@,
                operation: operation@,
            },
            KeyError::Other(message) => KeyErrorView::Other(message@),
        }
    }
}

/// A failure of an operation on a file.
pub open spec fn io_failure(
    path: Seq<char>,
    operation: Seq<char>,
    error: Seq<char>,
) -> KeyErrorView {
    KeyErrorView::Io { path, operation: operation + ": "@ + error }
}

fn io_error(path: &str, operation: &str, error: &str) -> (failure: KeyError)
    ensures
        failure@ == io_failure(path@, operation@, error@),
{
    let mut text = operation.to_owned();
    text.append(": ");
    text.append(error);
    KeyError::Io { path: path.to_owned(), operation: text }
}

/// A key of the wrong size.
pub open spec fn wrong_size(path: Seq<char>, size: nat) -> KeyErrorView {
    KeyErrorView::Other(
        "invalid telemetry key at "@ + path + ": expected 32 bytes, found "@ + decimal(size),
    )
}

/// A key, or why there is none.
pub open spec fn key_view(key: Result<Vec<u8>, KeyError>) -> Result<Seq<u8>, KeyErrorView> {
    match key {
        Ok(bytes) => Ok(bytes@),
        Err(error) => Err(error@),
    }
}

/// The key that was read from a file, or why it is none: the read failed, or
/// what was read is not as long as a key.
pub open spec fn read_key_of(path: Seq<char>, read: Result<Seq<u8>, Seq<char>>) -> Result<
    Seq<u8>,
    KeyErrorView,
> {
    match read {
        Err(error) => Err(io_failure(path, "read telemetry key"@, error)),
        Ok(bytes) => if bytes.len() == KEY_LEN {
            Ok(bytes)
        } else {
            Err(wrong_size(path, bytes.len()))
        },
    }
}

/// What a read gave, as values.
pub open spec fn read_view(read: Result<Vec<u8>, String>) -> Result<Seq<u8>, Seq<char>> {
    match read {
        Ok(bytes) => Ok(bytes@),
        Err(error) => Err(error@),
    }
}

/// The key that was read from a file, or why it is none.
pub fn read_key(path: &str, read: Result<Vec<u8>, String>) -> (key: Result<Vec<u8>, KeyError>)
    ensures
        key_view(key) == read_key_of(path@, read_view(read)),
{
    match read {
        Err(error) => Err(io_error(path, "read telemetry key", error.as_str())),
        Ok(bytes) => {
            if bytes.len() == KEY_LEN {
                return Ok(bytes);
            }
            let mut message = "invalid telemetry key at ".to_owned();
            message.append(path);
            message.append(": expected 32 bytes, found ");
            message.append(decimal_text(bytes.len()).as_str());
            Err(KeyError::Other(message))
        },
    }
}

/// How creating the key file ended.
#[derive(Debug, PartialEq, Eq)]
pub enum Creation {
    Created,
    /// Another process was first.
    AlreadyExists,
    Failed(String),
}

/// What loading a key does next.
#[derive(Debug, PartialEq, Eq)]
pub enum KeyStep {
    /// Read the key file.
    Read,
    /// Create the directory it is kept in.
    CreateDirectory,
    /// Draw a key.
    Draw,
    /// Create the key file for this key, for the owner alone, unless there is
    /// one.
    Create(Vec<u8>),
    /// Write this key to the file that was created.
    Write(Vec<u8>),
    /// Have the file with this key reach the disk.
    Sync(Vec<u8>),
    /// Read the key file that another process created.
    ReadAgain,
    /// Use this key.
    Use(Vec<u8>),
    /// Give up.
    Fail(KeyError),
}

/// What happened in loading a key.
#[derive(Debug, PartialEq, Eq)]
pub enum KeyEvent {
    /// A key was asked for.
    Asked,
    Read(Result<Vec<u8>, String>),
    DirectoryCreated(Result<(), String>),
    /// A key was drawn, or the operating system gave none.
    Drawn(Option<Vec<u8>>),
    Created(Vec<u8>, Creation),
    Written(Vec<u8>, Result<(), String>),
    Synced(Vec<u8>, Result<(), String>),
    ReadAgain(Result<Vec<u8>, String>),
}

/// What loading a key does next, as values.
pub enum StepView {
    Read,
    CreateDirectory,
    Draw,
    Create(Seq<u8>),
    Write(Seq<u8>),
    Sync(Seq<u8>),
    ReadAgain,
    Use(Seq<u8>),
    Fail(KeyErrorView),
}

impl View for KeyStep {
    type V = StepView;

    open spec fn view(&self) -> StepView {
        match self {
            KeyStep::Read => StepView::Read,
            KeyStep::CreateDirectory => StepView::CreateDirectory,
            KeyStep::Draw => StepView::Draw,
            KeyStep::Create(key) => StepView::Create(key@),
            KeyStep::Write(key) => StepView::Write(key@),
            KeyStep::Sync(key) => StepView::Sync(key@),
            KeyStep::ReadAgain => StepView::ReadAgain,
            KeyStep::Use(key) => StepView::Use(key@),
            KeyStep::Fail(error) => StepView::Fail(error@),
        }
    }
}

/// What follows an operation on a file: `next`, or giving up with its failure.
pub open spec fn unless_io_failed(
    outcome: Result<(), String>,
    path: Seq<char>,
    operation: Seq<char>,
    next: StepView,
) -> StepView {
    match outcome {
        Ok(_) => next,
        Err(error) => StepView::Fail(io_failure(path, operation, error@)),
    }
}

/// What loading the key of a repository does after what happened.
pub open spec fn step_after(event: KeyEvent, root: Seq<char>) -> StepView {
    let path = key_file(root);
    match event {
        KeyEvent::Asked => StepView::Read,
        KeyEvent::Read(read) => match read_key_of(path, read_view(read)) {
            Ok(key) => StepView::Use(key),
            Err(_) => StepView::CreateDirectory,
        },
        KeyEvent::DirectoryCreated(outcome) => unless_io_failed(
            outcome,
            joined_path(root, ".mdkb"@),
            "create directory"@,
            StepView::Draw,
        ),
        KeyEvent::Drawn(drawn) => match drawn {
            Some(key) => StepView::Create(key@),
            None => StepView::Fail(
                KeyErrorView::Other("operating-system random generator failed"@),
            ),
        },
        KeyEvent::Created(key, creation) => match creation {
            Creation::Created => StepView::Write(key@),
            Creation::AlreadyExists => StepView::ReadAgain,
            Creation::Failed(error) => StepView::Fail(
                io_failure(path, "create telemetry key"@, error@),
            ),
        },
        KeyEvent::Written(key, outcome) => unless_io_failed(
            outcome,
            path,
            "write telemetry key"@,
            StepView::Sync(key@),
        ),
        KeyEvent::Synced(key, outcome) => unless_io_failed(
            outcome,
            path,
            "sync telemetry key"@,
            StepView::Use(key@),
        ),
        KeyEvent::ReadAgain(read) => match read_key_of(path, read_view(read)) {
            Ok(key) => StepView::Use(key),
            Err(error) => StepView::Fail(error),
        },
    }
}

fn go_on(outcome: Result<(), String>, path: &str, operation: &str, next: KeyStep) -> (step: KeyStep)
    ensures
        step@ == unless_io_failed(outcome, path@, operation@, next@),
{
    match outcome {
        Ok(_) => next,
        Err(error) => KeyStep::Fail(io_error(path, operation, error.as_str())),
    }
}

/// Load the repository-local telemetry key, creating it atomically when absent:
/// what to do after what happened.
///
/// A key that cannot be read is created. Where another process creates it
/// first, that one is used.
pub fn load_or_create_key(event: KeyEvent, root: &str) -> (step: KeyStep)
    ensures
        step@ == step_after(event, root@),
{
    let path = key_path(root);
    match event {
        KeyEvent::Asked => KeyStep::Read,
        KeyEvent::Read(read) => match read_key(path.as_str(), read) {
            Ok(key) => KeyStep::Use(key),
            Err(_) => KeyStep::CreateDirectory,
        },
        KeyEvent::DirectoryCreated(outcome) => go_on(
            outcome,
            key_directory(root).as_str(),
            "create directory",
            KeyStep::Draw,
        ),
        KeyEvent::Drawn(drawn) => match drawn {
            Some(key) => KeyStep::Create(key),
            None => KeyStep::Fail(
                KeyError::Other("operating-system random generator failed".to_owned()),
            ),
        },
        KeyEvent::Created(key, creation) => match creation {
            Creation::Created => KeyStep::Write(key),
            Creation::AlreadyExists => KeyStep::ReadAgain,
            Creation::Failed(error) => KeyStep::Fail(
                io_error(path.as_str(), "create telemetry key", error.as_str()),
            ),
        },
        KeyEvent::Written(key, outcome) => go_on(
            outcome,
            path.as_str(),
            "write telemetry key",
            KeyStep::Sync(key),
        ),
        KeyEvent::Synced(key, outcome) => go_on(
            outcome,
            path.as_str(),
            "sync telemetry key",
            KeyStep::Use(key),
        ),
        KeyEvent::ReadAgain(read) => match read_key(path.as_str(), read) {
            Ok(key) => KeyStep::Use(key),
            Err(error) => KeyStep::Fail(error),
        },
    }
}

/// Draw a key.
pub fn draw_key() -> (event: KeyEvent)
    ensures
        event matches KeyEvent::Drawn(drawn) && (drawn matches Some(key) ==> key@.len() == KEY_LEN),
{
    KeyEvent::Drawn(random_bytes(KEY_LEN))
}

/// Whether an event answers a step: it is what can happen when the step is
/// done. A drawn key is as long as a key, and a key stays the one it is.
pub open spec fn answers_step(step: StepView, event: KeyEvent) -> bool {
    match step {
        StepView::Read => event is Read,
        StepView::CreateDirectory => event is DirectoryCreated,
        StepView::Draw => event matches KeyEvent::Drawn(drawn) && (drawn matches Some(key)
            ==> key@.len() == KEY_LEN),
        StepView::Create(key) => event matches KeyEvent::Created(k, _) && k@ == key,
        StepView::Write(key) => event matches KeyEvent::Written(k, _) && k@ == key,
        StepView::Sync(key) => event matches KeyEvent::Synced(k, _) && k@ == key,
        StepView::ReadAgain => event is ReadAgain,
        _ => false,
    }
}

/// Whether the key that a step carries, where it carries one, is as long as a
/// key.
pub open spec fn carries_whole_key(step: StepView) -> bool {
    match step {
        StepView::Create(key) => key.len() == KEY_LEN,
        StepView::Write(key) => key.len() == KEY_LEN,
        StepView::Sync(key) => key.len() == KEY_LEN,
        StepView::Use(key) => key.len() == KEY_LEN,
        _ => true,
    }
}

/// Every key that is written or used is as long as a key, whatever happens.
pub proof fn keys_are_whole(step: StepView, event: KeyEvent, root: Seq<char>)
    requires
        carries_whole_key(step),
        answers_step(step, event),
    ensures
        carries_whole_key(step_after(event, root)),
        carries_whole_key(step_after(KeyEvent::Asked, root)),
{
}

/// A key that is on disk is used as it is: nothing is drawn and nothing is
/// written.
pub proof fn a_key_on_disk_is_used(key: Vec<u8>, root: Seq<char>)
    requires
        key@.len() == KEY_LEN,
    ensures
        step_after(KeyEvent::Read(Ok(key)), root) == StepView::Use(key@),
        step_after(KeyEvent::ReadAgain(Ok(key)), root) == StepView::Use(key@),
{
}

/// How many steps are left at most.
pub open spec fn key_steps_left(step: StepView) -> nat {
    match step {
        StepView::Read => 6,
        StepView::CreateDirectory => 5,
        StepView::Draw => 4,
        StepView::Create(_) => 3,
        StepView::Write(_) => 2,
        StepView::Sync(_) => 1,
        StepView::ReadAgain => 1,
        _ => 0,
    }
}

/// Loading a key ends, in a key or in a failure.
pub proof fn loading_a_key_ends(step: StepView, event: KeyEvent, root: Seq<char>)
    requires
        answers_step(step, event),
    ensures
        key_steps_left(step_after(event, root)) < key_steps_left(step),
        key_steps_left(step_after(event, root)) == 0 <==> step_after(event, root) is Use
            || step_after(event, root) is Fail,
{
}

/// A key that was created is used only once it has reached the disk.
pub proof fn a_created_key_is_on_disk(key: Vec<u8>, root: Seq<char>)
    ensures
        step_after(KeyEvent::Created(key, Creation::Created), root) == StepView::Write(key@),
        step_after(KeyEvent::Written(key, Ok(())), root) == StepView::Sync(key@),
        step_after(KeyEvent::Synced(key, Ok(())), root) == StepView::Use(key@),
{
}

/// Whether events are what happened in loading a key, one for each step.
pub open spec fn is_key_run(events: Seq<KeyEvent>, root: Seq<char>) -> bool {
    &&& events.len() > 0
    &&& events[0] is Asked
    &&& forall|i: int|
        0 < i < events.len() ==> answers_step(
            step_after(events[i - 1], root),
            #[trigger] events[i],
        )
}

/// What must have happened before each thing that happens: nothing is made
/// before a read gave no key of 32 bytes, a key is drawn only once there is a
/// place for it, it is created, written and synced as it was drawn, each only
/// where the step before went well, and the file is read again only where
/// another process was first.
pub proof fn every_key_event_has_its_cause(events: Seq<KeyEvent>, root: Seq<char>, i: int)
    requires
        is_key_run(events, root),
        0 <= i < events.len(),
    ensures
        events[i] is Asked <==> i == 0,
        events[i] is Read ==> events[i - 1] is Asked,
        events[i] is DirectoryCreated ==> (events[i - 1] matches KeyEvent::Read(read) && !(
        read matches Ok(bytes) && bytes@.len() == 32)),
        events[i] is Drawn ==> (events[i - 1] matches KeyEvent::DirectoryCreated(Ok(_))),
        events[i] matches KeyEvent::Created(key, _) ==> (events[i - 1] matches KeyEvent::Drawn(
            Some(drawn),
        ) && drawn@ == key@ && key@.len() == 32),
        events[i] matches KeyEvent::Written(key, _) ==> (events[i - 1] matches KeyEvent::Created(
            made,
            Creation::Created,
        ) && made@ == key@),
        events[i] matches KeyEvent::Synced(key, _) ==> (events[i - 1] matches KeyEvent::Written(
            written,
            Ok(_),
        ) && written@ == key@),
        events[i] is ReadAgain ==> (events[i - 1] matches KeyEvent::Created(
            _,
            Creation::AlreadyExists,
        )),
{
    if i > 0 {
        assert(answers_step(step_after(events[i - 1], root), events[i]));
        if i > 1 {
            assert(answers_step(step_after(events[i - 2], root), events[i - 1]));
        }
    }
}

/// The key that is used is the one in the file: one that was read there, of 32
/// bytes, or one that was written there and reached the disk.
pub proof fn the_key_in_the_file_is_used(event: KeyEvent, root: Seq<char>, key: Seq<u8>)
    ensures
        step_after(event, root) == StepView::Use(key) <==> (match event {
            KeyEvent::Read(Ok(bytes)) => bytes@ == key && key.len() == 32,
            KeyEvent::ReadAgain(Ok(bytes)) => bytes@ == key && key.len() == 32,
            KeyEvent::Synced(written, Ok(_)) => written@ == key,
            _ => false,
        }),
{
}

/// Loading a key gives up exactly where there is no more to try: no directory, no
/// random bytes, a file that cannot be created, written or synced, and a file of
/// another process that holds no key.
pub proof fn when_there_is_no_key(event: KeyEvent, root: Seq<char>)
    ensures
        step_after(event, root) is Fail <==> (match event {
            KeyEvent::DirectoryCreated(outcome) => outcome is Err,
            KeyEvent::Drawn(drawn) => drawn is None,
            KeyEvent::Created(_, creation) => creation is Failed,
            KeyEvent::Written(_, outcome) => outcome is Err,
            KeyEvent::Synced(_, outcome) => outcome is Err,
            KeyEvent::ReadAgain(Ok(bytes)) => bytes@.len() != 32,
            KeyEvent::ReadAgain(Err(_)) => true,
            _ => false,
        }),
{
}

/// A failure names the file and what was done to it, and the reason behind that.
pub proof fn a_key_failure_says_why(root: Seq<char>, key: Vec<u8>, reason: String)
    requires
        root.len() > 0,
        root.last() != '/',
    ensures
        key_file(root) == root + "/.mdkb/telemetry.key"@,
        step_after(KeyEvent::DirectoryCreated(Err(reason)), root) == StepView::Fail(
            KeyErrorView::Io { path: root + "/.mdkb"@, operation: "create directory: "@ + reason@ },
        ),
        step_after(KeyEvent::Drawn(None), root) == StepView::Fail(
            KeyErrorView::Other("operating-system random generator failed"@),
        ),
        step_after(KeyEvent::Created(key, Creation::Failed(reason)), root) == StepView::Fail(
            KeyErrorView::Io {
                path: root + "/.mdkb/telemetry.key"@,
                operation: "create telemetry key: "@ + reason@,
            },
        ),
        step_after(KeyEvent::Written(key, Err(reason)), root) == StepView::Fail(
            KeyErrorView::Io {
                path: root + "/.mdkb/telemetry.key"@,
                operation: "write telemetry key: "@ + reason@,
            },
        ),
        step_after(KeyEvent::Synced(key, Err(reason)), root) == StepView::Fail(
            KeyErrorView::Io {
                path: root + "/.mdkb/telemetry.key"@,
                operation: "sync telemetry key: "@ + reason@,
            },
        ),
        step_after(KeyEvent::ReadAgain(Err(reason)), root) == StepView::Fail(
            KeyErrorView::Io {
                path: root + "/.mdkb/telemetry.key"@,
                operation: "read telemetry key: "@ + reason@,
            },
        ),
        key@.len() != 32 ==> step_after(KeyEvent::ReadAgain(Ok(key)), root) == StepView::Fail(
            KeyErrorView::Other(
                "invalid telemetry key at "@ + (root + "/.mdkb/telemetry.key"@)
                    + ": expected 32 bytes, found "@ + decimal(key@.len()),
            ),
        ),
{
    reveal_strlit(".mdkb");
    reveal_strlit("/.mdkb");
    reveal_strlit("telemetry.key");
    reveal_strlit("/.mdkb/telemetry.key");
    let directory = joined_path(root, ".mdkb"@);
    assert(root.push('/') + ".mdkb"@ =~= root + "/.mdkb"@);
    assert(directory == root + "/.mdkb"@);
    assert(directory.last() == 'b');
    assert(directory.push('/') + "telemetry.key"@ =~= root + "/.mdkb/telemetry.key"@);
    reveal_strlit(": ");
    reveal_strlit("create directory");
    reveal_strlit("create directory: ");
    reveal_strlit("create telemetry key");
    reveal_strlit("create telemetry key: ");
    reveal_strlit("write telemetry key");
    reveal_strlit("write telemetry key: ");
    reveal_strlit("sync telemetry key");
    reveal_strlit("sync telemetry key: ");
    reveal_strlit("read telemetry key");
    reveal_strlit("read telemetry key: ");
    assert("create directory"@ + ": "@ =~= "create directory: "@);
    assert("create telemetry key"@ + ": "@ =~= "create telemetry key: "@);
    assert("write telemetry key"@ + ": "@ =~= "write telemetry key: "@);
    assert("sync telemetry key"@ + ": "@ =~= "sync telemetry key: "@);
    assert("read telemetry key"@ + ": "@ =~= "read telemetry key: "@);
}

/// A query is hashed in lower case and on one line, under the key, and the hash
/// shows the bytes of the tag in hex.
pub proof fn a_query_is_hashed_on_one_line(key: Seq<u8>, query: Seq<char>)
    ensures
        query_hash(key, normalized(query)) == hex_bytes(
            hmac_tag(key, encode_utf8(collapsed(lowercased(query)))),
        ),
{
}

/// The limits are those of a digest that counts its bits in 64 bits: a key of
/// one byte more would be too long, and a message leaves room for a block of 64
/// bytes before it.
pub proof fn the_digest_counts_its_bits()
    ensures
        8 * KEY_LIMIT < 0x1_0000_0000_0000_0000,
        8 * (KEY_LIMIT + 1) >= 0x1_0000_0000_0000_0000,
        HASH_LIMIT + 64 == KEY_LIMIT,
{
}

} // verus!
