//! The dependency cache's keys and bookkeeping: an entry is keyed by the
//! analyzer and the source path, NUL-separated, and every lookup counts as
//! exactly one hit or one miss.

use vstd::prelude::*;
use crate::text::{chars_of, string_between};

verus! {

/// How the current checksum of a source file was obtained.
#[derive(Debug, Clone, Copy, PartialEq, Eq, Structural)]
pub enum ChecksumPath {
    /// The modification-time cache answered; the file was not read.
    MtimeShortcut,
    /// The file was read and hashed.
    FullRead,
}

/// What a lookup finds: a valid entry (by either checksum path) or a miss.
#[derive(Debug, Clone, Copy, PartialEq, Eq, Structural)]
pub enum ClassifyResult {
    /// Cache valid, and the modification-time shortcut applied.
    MtimeHit,
    /// Cache valid, found by re-reading the file.
    ContentHit,
    /// Cache invalid or absent.
    Miss,
}

/// Counters of cache use.
#[derive(Debug, Clone, Copy)]
pub struct DepsCacheStats {
    /// All hits: `mtime_hits + content_hits`.
    pub hits: usize,
    pub mtime_hits: usize,
    pub content_hits: usize,
    pub misses: usize,
}

impl Default for DepsCacheStats {
    fn default() -> (r: Self)
        ensures
            r.hits == 0 && r.mtime_hits == 0 && r.content_hits == 0 && r.misses == 0,
    {
        DepsCacheStats { hits: 0, mtime_hits: 0, content_hits: 0, misses: 0 }
    }
}

impl DepsCacheStats {
    /// Hits split into their two kinds.
    pub open spec fn consistent(&self) -> bool {
        self.hits == self.mtime_hits + self.content_hits
    }

    /// Counts one lookup: a hit of its kind, or a miss.
    pub fn record(&mut self, r: ClassifyResult)
        requires
            old(self).consistent(),
            old(self).hits + old(self).misses < usize::MAX,
        ensures
            final(self).consistent(),
            final(self).hits + final(self).misses == old(self).hits + old(self).misses + 1,
            final(self).misses == old(self).misses + if r == ClassifyResult::Miss { 1int } else { 0int },
            final(self).hits == old(self).hits + if r == ClassifyResult::Miss { 0int } else { 1int },
            final(self).mtime_hits == old(self).mtime_hits + if r == ClassifyResult::MtimeHit { 1int } else { 0int },
            final(self).content_hits == old(self).content_hits + if r == ClassifyResult::ContentHit { 1int } else { 0int },
    {
        match r {
            ClassifyResult::MtimeHit => {
                self.hits = self.hits + 1;
                self.mtime_hits = self.mtime_hits + 1;
            },
            ClassifyResult::ContentHit => {
                self.hits = self.hits + 1;
                self.content_hits = self.content_hits + 1;
            },
            ClassifyResult::Miss => {
                self.misses = self.misses + 1;
            },
        }
    }
}

/// Whether a cached entry is valid, from what the store and the file
/// system said: the entry was read (its stored checksum), the file's
/// current checksum was computed (and how), and every dependency it lists
/// still exists.
pub open spec fn lookup_spec(stored: Option<Seq<char>>, current: Option<(Seq<char>, ChecksumPath)>, deps_exist: bool) -> ClassifyResult {
    match (stored, current) {
        (Some(s), Some((c, path))) => if s == c && deps_exist {
            match path {
                ChecksumPath::MtimeShortcut => ClassifyResult::MtimeHit,
                ChecksumPath::FullRead => ClassifyResult::ContentHit,
            }
        } else {
            ClassifyResult::Miss
        },
        _ => ClassifyResult::Miss,
    }
}

/// Judges a lookup: a hit only when an entry was read, its checksum equals
/// the file's current one, and all its dependencies exist; the kind of hit
/// is how the current checksum was obtained.
pub fn classify_lookup(stored: Option<&str>, current: Option<(&str, ChecksumPath)>, deps_exist: bool) -> (r: ClassifyResult)
    ensures
        r == lookup_spec(
            match stored {
                Some(s) => Some(s@),
                None => None,
            },
            match current {
                Some(c) => Some((c.0@, c.1)),
                None => None,
            },
            deps_exist,
        ),
{
    match (stored, current) {
        (Some(s), Some((c, path))) => if crate::text::str_eq(s, c) && deps_exist {
            match path {
                ChecksumPath::MtimeShortcut => ClassifyResult::MtimeHit,
                ChecksumPath::FullRead => ClassifyResult::ContentHit,
            }
        } else {
            ClassifyResult::Miss
        },
        _ => ClassifyResult::Miss,
    }
}

/// The composite key of an (analyzer, source) pair.
pub open spec fn key_spec(analyzer: Seq<char>, path: Seq<char>) -> Seq<char> {
    analyzer + seq!['\0'] + path
}

/// The key `"<analyzer>\0<path>"`.
pub fn key_for(analyzer: &str, path: &str) -> (r: String)
    ensures
        r@ == key_spec(analyzer@, path@),
{
    let mut s: String = String::from_str(analyzer);
    crate::text::push_char(&mut s, '\0');
    s.append(path);
    s
}

/// The position of the first NUL of `s`.
pub open spec fn first_nul(s: Seq<char>, k: int) -> Option<nat>
    decreases s.len() - k,
{
    if k < 0 || k >= s.len() {
        None
    } else if s[k] == '\0' {
        Some(k as nat)
    } else {
        first_nul(s, k + 1)
    }
}

/// What `parse_key` returns: the text before the first NUL and the text
/// after it, or `None` without a NUL.
pub open spec fn parse_key_spec(key: Seq<char>) -> Option<(Seq<char>, Seq<char>)> {
    match first_nul(key, 0) {
        Some(i) => Some((key.take(i as int), key.skip(i as int + 1))),
        None => None,
    }
}

/// Splits a key into (analyzer, source path) at its first NUL; `None` for
/// a key without one (an entry from before the composite format).
pub fn parse_key(key: &str) -> (r: Option<(String, String)>)
    ensures
        match parse_key_spec(key@) {
            Some(p) => r matches Some(q) && q.0@ == p.0 && q.1@ == p.1,
            None => r is None,
        },
{
    let cs = chars_of(key);
    let mut i: usize = 0;
    while i < cs.len()
        invariant
            0 <= i <= cs.len(),
            cs@ == key@,
            first_nul(key@, 0) == first_nul(key@, i as int),
        decreases cs.len() - i,
    {
        if cs[i] == '\0' {
            let a: String = string_between(&cs, 0, i);
            let p: String = string_between(&cs, i + 1, cs.len());
            proof {
                assert(a@ =~= key@.take(i as int));
                assert(p@ =~= key@.skip(i + 1));
            }
            return Some((a, p));
        }
        i = i + 1;
    }
    None
}

/// `s` holds no NUL.
pub open spec fn nul_free(s: Seq<char>) -> bool {
    forall|i: int| 0 <= i < s.len() ==> #[trigger] s[i] != '\0'
}

proof fn lemma_first_nul_at(analyzer: Seq<char>, path: Seq<char>, k: int)
    requires
        nul_free(analyzer),
        0 <= k <= analyzer.len(),
    ensures
        first_nul(key_spec(analyzer, path), k) == Some(analyzer.len()),
    decreases analyzer.len() - k,
{
    let key = key_spec(analyzer, path);
    if k < analyzer.len() {
        assert(key[k] == analyzer[k]);
        lemma_first_nul_at(analyzer, path, k + 1);
    } else {
        assert(key[k] == '\0');
    }
}

/// The key law: splitting the key of an analyzer without NUL gives back
/// the analyzer and the path, whatever the path holds (colons included).
pub proof fn lemma_key_roundtrip(analyzer: Seq<char>, path: Seq<char>)
    requires
        nul_free(analyzer),
    ensures
        parse_key_spec(key_spec(analyzer, path)) == Some((analyzer, path)),
{
    lemma_first_nul_at(analyzer, path, 0);
    let key = key_spec(analyzer, path);
    assert(key.take(analyzer.len() as int) =~= analyzer);
    assert(key.skip(analyzer.len() as int + 1) =~= path);
}

/// Keys never collide: two pairs whose analyzers hold no NUL have equal
/// keys only when both parts are equal. In particular two analyzers, or two
/// instances of one, never share an entry for the same file.
pub proof fn lemma_keys_distinct(a1: Seq<char>, p1: Seq<char>, a2: Seq<char>, p2: Seq<char>)
    requires
        nul_free(a1),
        nul_free(a2),
        key_spec(a1, p1) == key_spec(a2, p2),
    ensures
        a1 == a2,
        p1 == p2,
{
    lemma_key_roundtrip(a1, p1);
    lemma_key_roundtrip(a2, p2);
}

/// A lookup is a hit only when an entry was stored, the source's current
/// checksum was obtained and equals the stored one, and every dependency
/// the entry lists still exists; an edited source (different checksum) is
/// always a miss. The kind of hit is how the current checksum was
/// obtained.
pub proof fn lemma_hit_needs_unchanged_source(
    stored: Option<Seq<char>>,
    current: Option<(Seq<char>, ChecksumPath)>,
    deps_exist: bool,
)
    ensures
        lookup_spec(stored, current, deps_exist) != ClassifyResult::Miss <==> (stored matches Some(s) && current matches Some(
            c) && s == c.0 && deps_exist),
        stored matches Some(s) && current matches Some(c) && s != c.0 ==> lookup_spec(stored, current, deps_exist)
            == ClassifyResult::Miss,
        lookup_spec(stored, current, deps_exist) == ClassifyResult::MtimeHit ==> (current matches Some(c) && c.1
            == ChecksumPath::MtimeShortcut),
        lookup_spec(stored, current, deps_exist) == ClassifyResult::ContentHit ==> (current matches Some(c) && c.1
            == ChecksumPath::FullRead),
{
}

} // verus!
