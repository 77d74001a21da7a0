//! The cache key of a product: every piece of non-input state that
//! contributes to it, kept as an ordered list of tagged components.

use vstd::prelude::*;
use crate::checksum::{hash_parts, hash_parts_spec, hex_of, lemma_hex_injective, lemma_parts_bytes_append, parts_bytes, sha256_injective, sha256_of};

verus! {

/// What kind of state a cache-key component records.
#[derive(Debug, Clone, Copy, PartialEq, Eq, Structural)]
pub enum KeyComponent {
    /// The processor's output-affecting configuration hash.
    Config,
    /// A variant / profile / output format name.
    Variant,
    /// The hash of the versions of the tools a processor runs.
    ToolVersion,
    /// A piece contributed by a dependency analyzer.
    Analyzer,
}

/// The short tag shown for each component kind.
pub open spec fn component_tag(c: KeyComponent) -> Seq<char> {
    match c {
        KeyComponent::Config => "config"@,
        KeyComponent::Variant => "variant"@,
        KeyComponent::ToolVersion => "tool"@,
        KeyComponent::Analyzer => "analyzer"@,
    }
}

impl KeyComponent {
    pub fn tag(self) -> (r: &'static str)
        ensures
            r@ == component_tag(self),
    {
        match self {
            KeyComponent::Config => "config",
            KeyComponent::Variant => "variant",
            KeyComponent::ToolVersion => "tool",
            KeyComponent::Analyzer => "analyzer",
        }
    }
}

/// An ordered list of tagged contributions to a product's cache key.
#[derive(Debug)]
pub struct CacheKey {
    components: Vec<(KeyComponent, String)>,
}

/// The abstract contents of a cache key: (kind, value) pairs in push order.
pub open spec fn key_view(v: Seq<(KeyComponent, String)>) -> Seq<(KeyComponent, Seq<char>)> {
    v.map_values(|p: (KeyComponent, String)| (p.0, p.1@))
}

/// The parts hashed for a key's components: tag then value, per component.
pub open spec fn component_parts(c: Seq<(KeyComponent, Seq<char>)>) -> Seq<Seq<char>>
    decreases c.len(),
{
    if c.len() == 0 {
        Seq::empty()
    } else {
        component_parts(c.drop_last()) + seq![component_tag(c.last().0), c.last().1]
    }
}

/// The descriptor key of a product: the hash of its processor name, its
/// combined input checksum and every cache-key component, in order.
pub open spec fn descriptor_key_spec(
    processor: Seq<char>,
    input_checksum: Seq<char>,
    c: Seq<(KeyComponent, Seq<char>)>,
) -> Seq<char> {
    hash_parts_spec(seq![processor, input_checksum] + component_parts(c))
}

impl View for CacheKey {
    type V = Seq<(KeyComponent, Seq<char>)>;

    closed spec fn view(&self) -> Self::V {
        key_view(self.components@)
    }
}

fn clone_string(s: &String) -> (r: String)
    ensures
        r@ == s@,
{
    s.clone()
}

impl CacheKey {
    /// An empty key.
    pub fn new() -> (r: CacheKey)
        ensures
            r@ == Seq::<(KeyComponent, Seq<char>)>::empty(),
    {
        let r = CacheKey { components: Vec::new() };
        proof {
            assert(r@ =~= Seq::<(KeyComponent, Seq<char>)>::empty());
        }
        r
    }

    /// A key holding the processor's config hash as its first component, or
    /// an empty key when there is none.
    pub fn from_config_hash(config_hash: Option<String>) -> (r: CacheKey)
        ensures
            config_hash is None ==> r@ == Seq::<(KeyComponent, Seq<char>)>::empty(),
            config_hash is Some ==> r@ == seq![(KeyComponent::Config, config_hash->0@)],
    {
        let mut r = CacheKey::new();
        match config_hash {
            Some(h) => {
                r.push(KeyComponent::Config, h.as_str());
                proof {
                    assert(r@ =~= seq![(KeyComponent::Config, h@)]);
                }
            },
            None => {},
        }
        r
    }

    /// Append a component.
    pub fn push(&mut self, component: KeyComponent, value: &str)
        ensures
            final(self)@ == old(self)@.push((component, value@)),
    {
        self.components.push((component, String::from_str(value)));
        proof {
            assert(self@ =~= old(self)@.push((component, value@)));
        }
    }

    /// The components, in push order.
    pub fn components(&self) -> (r: &Vec<(KeyComponent, String)>)
        ensures
            key_view(r@) == self@,
    {
        &self.components
    }

    pub fn is_empty(&self) -> (r: bool)
        ensures
            r == (self@.len() == 0),
    {
        self.components.len() == 0
    }

    /// The hashed component list, flattened into (tag, value) parts.
    fn parts(&self) -> (r: Vec<String>)
        ensures
            crate::checksum::views(r@) == component_parts(self@),
    {
        let mut r: Vec<String> = Vec::new();
        let mut i: usize = 0;
        while i < self.components.len()
            invariant
                0 <= i <= self.components.len(),
                crate::checksum::views(r@) == component_parts(self@.take(i as int)),
            decreases self.components.len() - i,
        {
            let tag: &str = self.components[i].0.tag();
            r.push(String::from_str(tag));
            r.push(clone_string(&self.components[i].1));
            proof {
                let t = self@.take(i + 1);
                assert(t.drop_last() =~= self@.take(i as int));
                assert(crate::checksum::views(r@) =~= component_parts(t));
            }
            i = i + 1;
        }
        proof {
            assert(self@.take(self.components.len() as int) =~= self@);
        }
        r
    }

    /// The hash of the components alone, `None` for an empty key.
    pub fn digest(&self) -> (r: Option<String>)
        ensures
            self@.len() == 0 ==> r is None,
            self@.len() != 0 ==> r is Some && r->0@ == hash_parts_spec(component_parts(self@)),
    {
        if self.components.len() == 0 {
            None
        } else {
            let parts: Vec<String> = self.parts();
            Some(hash_parts(&parts))
        }
    }

    /// The content-addressed descriptor key of a product with this cache key.
    pub fn descriptor_key(&self, processor: &str, input_checksum: &str) -> (r: String)
        ensures
            r@ == descriptor_key_spec(processor@, input_checksum@, self@),
    {
        let mut parts: Vec<String> = Vec::new();
        parts.push(String::from_str(processor));
        parts.push(String::from_str(input_checksum));
        let rest: Vec<String> = self.parts();
        let mut i: usize = 0;
        while i < rest.len()
            invariant
                0 <= i <= rest.len(),
                crate::checksum::views(parts@) == seq![processor@, input_checksum@]
                    + crate::checksum::views(rest@).take(i as int),
            decreases rest.len() - i,
        {
            let ghost before = parts@;
            parts.push(clone_string(&rest[i]));
            proof {
                assert(crate::checksum::views(parts@) =~= crate::checksum::views(before).push(
                    rest@[i as int]@,
                ));
                assert(crate::checksum::views(rest@).take(i + 1) =~= crate::checksum::views(
                    rest@,
                ).take(i as int).push(rest@[i as int]@));
                assert(crate::checksum::views(parts@) =~= seq![processor@, input_checksum@]
                    + crate::checksum::views(rest@).take(i + 1));
            }
            i = i + 1;
        }
        proof {
            assert(crate::checksum::views(rest@).take(rest.len() as int) =~= crate::checksum::views(
                rest@,
            ));
        }
        hash_parts(&parts)
    }
}

/// With SHA-256 taken as one to one, a product's descriptor key determines
/// the input checksum it was computed for: the same processor and cache
/// key with two different input checksums give two different descriptor
/// keys, so edited inputs never find the old cache entry.
pub proof fn lemma_descriptor_key_tracks_input_checksum(
    processor: Seq<char>,
    c1: Seq<char>,
    c2: Seq<char>,
    key: Seq<(KeyComponent, Seq<char>)>,
)
    requires
        sha256_injective(),
        descriptor_key_spec(processor, c1, key) == descriptor_key_spec(processor, c2, key),
    ensures
        c1 == c2,
{
    let rest = component_parts(key);
    let b1 = parts_bytes(seq![processor, c1] + rest);
    let b2 = parts_bytes(seq![processor, c2] + rest);
    lemma_hex_injective(sha256_of(b1), sha256_of(b2));
    assert(b1 == b2);
    lemma_parts_bytes_append(seq![processor, c1], rest);
    lemma_parts_bytes_append(seq![processor, c2], rest);
    let head = parts_bytes(seq![processor]);
    assert(seq![processor, c1].drop_last() =~= seq![processor]);
    assert(seq![processor, c2].drop_last() =~= seq![processor]);
    let e1 = vstd::utf8::encode_utf8(c1);
    let e2 = vstd::utf8::encode_utf8(c2);
    assert(parts_bytes(seq![processor, c1]) == head + e1 + seq![0u8]);
    assert(parts_bytes(seq![processor, c2]) == head + e2 + seq![0u8]);
    let tail = parts_bytes(rest);
    assert(b1 == head + e1 + seq![0u8] + tail);
    assert(b2 == head + e2 + seq![0u8] + tail);
    assert(b1.len() == head.len() + e1.len() + 1 + tail.len());
    assert(b2.len() == head.len() + e2.len() + 1 + tail.len());
    assert(e1.len() == e2.len());
    assert(e1 =~= b1.subrange(head.len() as int, (head.len() + e1.len()) as int));
    assert(e2 =~= b2.subrange(head.len() as int, (head.len() + e2.len()) as int));
    vstd::utf8::encode_utf8_decode_utf8(c1);
    vstd::utf8::encode_utf8_decode_utf8(c2);
}

} // verus!
