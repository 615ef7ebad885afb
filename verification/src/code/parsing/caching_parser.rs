//! A parser that caches the last parsed tree.
//!
//! When the same source code is parsed multiple times (for symbol extraction,
//! call detection and relationship finding), the cached tree is reused instead
//! of re-parsing.

use vstd::prelude::*;
use vstd::utf8::encode_utf8;

use super::grammar::{parse, syntax_under, tree_view, Grammar};
use super::syntax::{NodeView, SyntaxNode, SyntaxTree};

verus! {

/// Where an FNV-1a hash starts.
pub const FNV_OFFSET: u64 = 0xcbf2_9ce4_8422_2325;

/// What an FNV-1a hash is multiplied by after each byte.
pub const FNV_PRIME: u64 = 0x0100_0000_01b3;

/// The 64-bit FNV-1a hash of some bytes: each byte in turn is mixed into the
/// low bits and spread by the prime, modulo two to the 64.
pub open spec fn fnv1a(bytes: Seq<u8>) -> u64
    decreases bytes.len(),
{
    if bytes.len() == 0 {
        FNV_OFFSET
    } else {
        (fnv1a(bytes.drop_last()) ^ (bytes.last() as u64)).wrapping_mul(FNV_PRIME)
    }
}

/// FNV-1a hash for cache keying. Fast, no allocation, good distribution.
///
/// The duplication cache keys a body on the same hash the tree cache keys a
/// file on: one hash function, not two that could disagree.
pub fn fnv1a_hash(bytes: &[u8]) -> (hash: u64)
    ensures
        hash == fnv1a(bytes@),
{
    let mut hash: u64 = FNV_OFFSET;
    let mut i: usize = 0;
    assert(bytes@.take(0) =~= Seq::empty());
    while i < bytes.len()
        invariant
            i <= bytes@.len(),
            hash == fnv1a(bytes@.take(i as int)),
        decreases bytes@.len() - i,
    {
        let ghost next = bytes@.take(i + 1);
        assert(next.drop_last() =~= bytes@.take(i as int));
        assert(next.last() == bytes@[i as int]);
        hash = (hash ^ (bytes[i] as u64)).wrapping_mul(FNV_PRIME);
        i += 1;
    }
    assert(bytes@.take(i as int) =~= bytes@);
    hash
}

/// The hash that a source is cached under.
pub open spec fn source_hash(code: Seq<char>) -> u64 {
    fnv1a(encode_utf8(code))
}

impl SyntaxNode {
    /// The same node again.
    pub fn copied(&self) -> (copy: SyntaxNode)
        ensures
            copy@ == self@,
    {
        let field = match &self.field {
            Some(name) => Some(name.clone()),
            None => None,
        };
        SyntaxNode {
            kind: self.kind.clone(),
            named: self.named,
            field,
            depth: self.depth,
            start: self.start,
            end: self.end,
        }
    }
}

impl SyntaxTree {
    /// The same tree again.
    pub fn copied(&self) -> (copy: SyntaxTree)
        ensures
            copy@ == self@,
    {
        let mut nodes: Vec<SyntaxNode> = Vec::new();
        let mut i: usize = 0;
        while i < self.nodes.len()
            invariant
                i <= self.nodes@.len(),
                nodes@.map_values(|n: SyntaxNode| n@) == self@.take(i as int),
            decreases self.nodes@.len() - i,
        {
            let ghost before = nodes@.map_values(|n: SyntaxNode| n@);
            let node = self.nodes[i].copied();
            let ghost view = node@;
            nodes.push(node);
            assert(self@[i as int] == view);
            assert(nodes@.map_values(|n: SyntaxNode| n@) =~= before.push(view));
            i += 1;
            assert(nodes@.map_values(|n: SyntaxNode| n@) =~= self@.take(i as int));
        }
        assert(self@.take(i as int) =~= self@);
        SyntaxTree { nodes }
    }
}

/// A parser with single-entry tree caching.
///
/// The cache is keyed on a content hash (FNV-1a) of the source string. Only
/// the first call on a source parses it, the rest copy the cached tree.
#[derive(Debug)]
pub struct CachingParser {
    grammar: Grammar,
    /// Cached tree keyed by content hash.
    cached: Option<(u64, SyntaxTree)>,
}

/// What a caching parser holds: its grammar, and the hash and the tree of the
/// source it parsed last.
#[verifier::ext_equal]
pub struct CachingParserView {
    pub grammar: Grammar,
    pub cached: Option<(u64, Seq<NodeView>)>,
}

impl View for CachingParser {
    type V = CachingParserView;

    closed spec fn view(&self) -> CachingParserView {
        CachingParserView {
            grammar: self.grammar,
            cached: match self.cached {
                Some((hash, tree)) => Some((hash, tree@)),
                None => None,
            },
        }
    }
}

/// What a caching parser answers for a source: the cached tree where the
/// hashes agree, else what a parse gives.
pub open spec fn answer(parser: CachingParserView, code: Seq<char>) -> Option<Seq<NodeView>> {
    match parser.cached {
        Some((hash, tree)) if hash == source_hash(code) => Some(tree),
        _ => syntax_under(parser.grammar, code),
    }
}

/// A caching parser after it answered for a source: it holds the tree it
/// answered with. A source that does not parse leaves the cache as it was.
pub open spec fn after_parse(parser: CachingParserView, code: Seq<char>) -> CachingParserView {
    match answer(parser, code) {
        Some(tree) => CachingParserView { cached: Some((source_hash(code), tree)), ..parser },
        None => parser,
    }
}

/// Whether the cache holds the tree of `source`.
pub open spec fn holds_tree_of(parser: CachingParserView, source: Seq<char>) -> bool {
    match parser.cached {
        Some((hash, tree)) => hash == source_hash(source) && syntax_under(parser.grammar, source)
            == Some(tree),
        None => false,
    }
}

/// Whether the cache, where it holds anything, holds the tree of some source.
pub open spec fn honest(parser: CachingParserView) -> bool {
    parser.cached is Some ==> exists|source: Seq<char>| #[trigger] holds_tree_of(parser, source)
}

impl CachingParser {
    /// Create a parser with an empty cache.
    pub fn new(grammar: Grammar) -> (parser: Self)
        ensures
            parser@ == (CachingParserView { grammar, cached: None }),
    {
        CachingParser { grammar, cached: None }
    }

    /// Parse source code, returning an owned tree.
    ///
    /// On cache hit (same content hash), copies the stored tree. On cache
    /// miss, parses the source and caches the result.
    pub fn parse_cached(&mut self, code: &str) -> (tree: Option<SyntaxTree>)
        ensures
            tree_view(tree) == answer(old(self)@, code@),
            final(self)@ == after_parse(old(self)@, code@),
    {
        let hash = fnv1a_hash(code.as_bytes());
        if let Some((cached_hash, tree)) = &self.cached {
            if *cached_hash == hash {
                return Some(tree.copied());
            }
        }
        let tree = parse(self.grammar, code);
        match tree {
            Some(tree) => {
                self.cached = Some((hash, tree.copied()));
                Some(tree)
            },
            None => None,
        }
    }

    /// Parse `code`, walk it, and return what the walk collected.
    ///
    /// Giving up returns an empty `Vec` rather than an error: a file that does
    /// not parse contributes nothing, and one bad file must not fail the index.
    pub fn collect<'a, T, W: FnOnce(&SyntaxTree, &'a str, &mut Vec<T>)>(
        &mut self,
        code: &'a str,
        walk: W,
    ) -> (found: Vec<T>)
        requires
            forall|tree: SyntaxTree, out: &mut Vec<T>|
                Some(tree@) == answer(old(self)@, code@) && out@.len() == 0
                    ==> #[trigger] walk.requires((&tree, code, out)),
        ensures
            final(self)@ == after_parse(old(self)@, code@),
            answer(old(self)@, code@) is None ==> found@.len() == 0,
            answer(old(self)@, code@) is Some ==> exists|tree: SyntaxTree, out: &mut Vec<T>|
                Some(tree@) == answer(old(self)@, code@) && out@.len() == 0 && final(out)@ == found@
                    && #[trigger] walk.ensures((&tree, code, out), ()),
    {
        match self.parse_cached(code) {
            Some(tree) => {
                let mut found: Vec<T> = Vec::new();
                walk(&tree, code, &mut found);
                found
            },
            None => Vec::new(),
        }
    }
}

/// A cache stays honest: whatever is parsed, it holds the tree of some source.
pub proof fn a_cache_stays_honest(parser: CachingParserView, code: Seq<char>)
    requires
        honest(parser),
    ensures
        honest(after_parse(parser, code)),
{
    let after = after_parse(parser, code);
    if parser.cached is Some {
        let source = choose|source: Seq<char>| #[trigger] holds_tree_of(parser, source);
        if after.cached == parser.cached {
            assert(holds_tree_of(after, source));
        } else {
            assert(holds_tree_of(after, code));
        }
    } else if after.cached is Some {
        assert(holds_tree_of(after, code));
    }
}

/// Parsing a source again answers the same, and changes nothing.
pub proof fn parsing_again_answers_the_same(parser: CachingParserView, code: Seq<char>)
    ensures
        answer(after_parse(parser, code), code) == answer(parser, code),
        after_parse(after_parse(parser, code), code) == after_parse(parser, code),
{
}

/// A caching parser answers what a parse gives, unless the cached source is
/// another one with the same hash. What it parsed, it then holds.
pub proof fn a_cache_answers_as_a_parse(
    parser: CachingParserView,
    source: Seq<char>,
    code: Seq<char>,
)
    requires
        parser.cached is Some ==> holds_tree_of(parser, source),
        source == code || source_hash(source) != source_hash(code),
    ensures
        answer(parser, code) == syntax_under(parser.grammar, code),
        syntax_under(parser.grammar, code) is Some ==> holds_tree_of(
            after_parse(parser, code),
            code,
        ),
{
}

/// Each byte is mixed in and spread, from the offset on: a hash is that of the
/// bytes before the last one, with the last one mixed into its low bits and the
/// whole multiplied by the prime, modulo two to the 64.
pub proof fn each_byte_is_mixed_in(bytes: Seq<u8>, byte: u8)
    ensures
        fnv1a(Seq::empty()) == 0xcbf2_9ce4_8422_2325,
        fnv1a(bytes.push(byte)) == ((fnv1a(bytes) ^ (byte as u64)) * 0x0100_0000_01b3)
            % 0x1_0000_0000_0000_0000,
{
    assert(bytes.push(byte).drop_last() =~= bytes);
}

/// A hit answers with the cached tree and keeps it. A source that does not parse
/// under the grammar is answered with nothing, and the cache is left as it was.
/// The grammar never changes.
pub proof fn a_hit_parses_nothing_and_a_failure_forgets_nothing(
    parser: CachingParserView,
    code: Seq<char>,
)
    ensures
        parser.cached is Some && (parser.cached->0).0 == fnv1a(encode_utf8(code)) ==> answer(
            parser,
            code,
        ) == Some((parser.cached->0).1) && after_parse(parser, code) == parser,
        !(parser.cached is Some && (parser.cached->0).0 == fnv1a(encode_utf8(code)))
            && syntax_under(parser.grammar, code) is None ==> answer(parser, code) is None
            && after_parse(parser, code) == parser,
        after_parse(parser, code).grammar == parser.grammar,
{
}

} // verus!
