//! Content hashing (SHA-256, lower-case hex): of raw data, and of ordered
//! string parts.

use vstd::prelude::*;
use sha2::{Digest, Sha256};
use crate::text::string_of;

verus! {

/// The SHA-256 digest of `data`, as computed by the `sha2` crate.
pub uninterp spec fn sha256_of(data: Seq<u8>) -> Seq<u8>;

/// `sha2::Sha256::digest`: the 32-byte SHA-256 digest of `data`. The
/// contract names the digest and states its length; the hash function
/// itself is not restated.
#[verifier::external_body]
fn sha256_digest(data: &[u8]) -> (r: Vec<u8>)
    ensures
        r@ == sha256_of(data@),
        r@.len() == 32,
{
    Sha256::digest(data).to_vec()
}

/// The lower-case hexadecimal digit for `d` (0..=15).
pub open spec fn hex_digit(d: u8) -> char {
    if d < 10 {
        (('0' as u8) + d) as char
    } else {
        (('a' as u8) + (d - 10)) as char
    }
}

/// Lower-case hex encoding: two digits per byte, high nibble first.
pub open spec fn hex_of(data: Seq<u8>) -> Seq<char>
    decreases data.len(),
{
    if data.len() == 0 {
        Seq::empty()
    } else {
        seq![hex_digit(data[0] / 16), hex_digit(data[0] % 16)] + hex_of(data.drop_first())
    }
}

/// Hex encoding of bytes followed by one more byte: its two digits at the
/// end.
proof fn lemma_hex_push(data: Seq<u8>, b: u8)
    ensures
        hex_of(data.push(b)) == hex_of(data) + seq![hex_digit(b / 16), hex_digit(b % 16)],
    decreases data.len(),
{
    if data.len() == 0 {
        assert(data.push(b).drop_first() =~= Seq::<u8>::empty());
        assert(hex_of(Seq::<u8>::empty()) == Seq::<char>::empty());
        assert(hex_of(data.push(b)) =~= seq![hex_digit(b / 16), hex_digit(b % 16)]);
    } else {
        lemma_hex_push(data.drop_first(), b);
        assert(data.push(b).drop_first() =~= data.drop_first().push(b));
        assert(hex_of(data.push(b)) =~= hex_of(data) + seq![hex_digit(b / 16), hex_digit(b % 16)]);
    }
}

/// The lower-case hex digit for a value below 16.
fn hex_digit_of(d: u8) -> (r: char)
    requires
        d < 16,
    ensures
        r == hex_digit(d),
{
    if d < 10 {
        (('0' as u8) + d) as char
    } else {
        (('a' as u8) + (d - 10)) as char
    }
}

/// Lower-case hex encoding: each byte becomes two digits, high nibble
/// first.
pub fn hex_encode(data: &Vec<u8>) -> (r: String)
    ensures
        r@ == hex_of(data@),
{
    let mut out: Vec<char> = Vec::new();
    let mut i: usize = 0;
    while i < data.len()
        invariant
            0 <= i <= data.len(),
            out@ == hex_of(data@.take(i as int)),
        decreases data.len() - i,
    {
        let b: u8 = data[i];
        out.push(hex_digit_of(b / 16));
        out.push(hex_digit_of(b % 16));
        proof {
            assert(data@.take(i + 1) =~= data@.take(i as int).push(b));
            lemma_hex_push(data@.take(i as int), b);
        }
        i = i + 1;
    }
    proof {
        assert(data@.take(data.len() as int) =~= data@);
    }
    string_of(&out)
}

/// Hex encoding doubles the length.
pub proof fn lemma_hex_len(data: Seq<u8>)
    ensures
        hex_of(data).len() == 2 * data.len(),
    decreases data.len(),
{
    if data.len() > 0 {
        lemma_hex_len(data.drop_first());
    }
}

/// The checksum of raw data: its SHA-256 digest in lower-case hex, 64
/// digits.
pub fn calculate_checksum_bytes(data: &[u8]) -> (r: String)
    ensures
        r@ == hex_of(sha256_of(data@)),
        r@.len() == 64,
{
    let digest: Vec<u8> = sha256_digest(data);
    proof {
        lemma_hex_len(digest@);
    }
    hex_encode(&digest)
}

/// The bytes hashed for an ordered list of parts: each part's UTF-8 bytes
/// followed by a NUL terminator, so no two different lists of NUL-free
/// parts share an encoding.
pub open spec fn parts_bytes(parts: Seq<Seq<char>>) -> Seq<u8>
    decreases parts.len(),
{
    if parts.len() == 0 {
        Seq::empty()
    } else {
        parts_bytes(parts.drop_last()) + vstd::utf8::encode_utf8(parts.last()) + seq![0u8]
    }
}

/// The hash of an ordered list of parts.
pub open spec fn hash_parts_spec(parts: Seq<Seq<char>>) -> Seq<char> {
    hex_of(sha256_of(parts_bytes(parts)))
}

/// The views of a list of strings.
pub open spec fn views(v: Seq<String>) -> Seq<Seq<char>> {
    v.map_values(|s: String| s@)
}

/// Hash an ordered list of parts into a 64-digit lower-case hex string.
pub fn hash_parts(parts: &Vec<String>) -> (r: String)
    ensures
        r@ == hash_parts_spec(views(parts@)),
{
    let mut bytes: Vec<u8> = Vec::new();
    let mut i: usize = 0;
    while i < parts.len()
        invariant
            0 <= i <= parts.len(),
            bytes@ == parts_bytes(views(parts@).take(i as int)),
        decreases parts.len() - i,
    {
        let b: &[u8] = parts[i].as_str().as_bytes();
        let mut j: usize = 0;
        let ghost before = bytes@;
        while j < b.len()
            invariant
                0 <= j <= b.len(),
                bytes@ == before + b@.take(j as int),
            decreases b.len() - j,
        {
            bytes.push(b[j]);
            proof {
                assert(b@.take(j + 1) =~= b@.take(j as int).push(b@[j as int]));
            }
            j = j + 1;
        }
        bytes.push(0u8);
        proof {
            let t = views(parts@).take(i + 1);
            assert(t.drop_last() =~= views(parts@).take(i as int));
            assert(t.last() == parts@[i as int]@);
            assert(b@.take(b@.len() as int) =~= b@);
            assert(bytes@ =~= parts_bytes(t));
        }
        i = i + 1;
    }
    proof {
        assert(views(parts@).take(parts.len() as int) =~= views(parts@));
    }
    let digest: Vec<u8> = sha256_digest(bytes.as_slice());
    hex_encode(&digest)
}

/// The lower-case hex digit of a value below 16 determines the value.
proof fn lemma_hex_digit_injective(a: u8, b: u8)
    requires
        a < 16,
        b < 16,
        hex_digit(a) == hex_digit(b),
    ensures
        a == b,
{
    assert(('0' as u8) == 48u8);
    assert(('a' as u8) == 97u8);
    if a < 10 && b < 10 {
        assert(((48u8 + a) as char) as u32 == 48 + a);
        assert(((48u8 + b) as char) as u32 == 48 + b);
    } else if a >= 10 && b >= 10 {
        assert(((97u8 + (a - 10)) as char) as u32 == 97 + a - 10);
        assert(((97u8 + (b - 10)) as char) as u32 == 97 + b - 10);
    } else if a < 10 {
        assert(((48u8 + a) as char) as u32 == 48 + a);
        assert(((97u8 + (b - 10)) as char) as u32 == 97 + b - 10);
    } else {
        assert(((97u8 + (a - 10)) as char) as u32 == 97 + a - 10);
        assert(((48u8 + b) as char) as u32 == 48 + b);
    }
}

/// Hex encoding is one to one: different bytes give different text.
pub proof fn lemma_hex_injective(a: Seq<u8>, b: Seq<u8>)
    requires
        hex_of(a) == hex_of(b),
    ensures
        a == b,
    decreases a.len(),
{
    lemma_hex_len(a);
    lemma_hex_len(b);
    if a.len() > 0 {
        let ha = hex_of(a);
        let hb = hex_of(b);
        assert(ha[0] == hex_digit(a[0] / 16) && ha[1] == hex_digit(a[0] % 16));
        assert(hb[0] == hex_digit(b[0] / 16) && hb[1] == hex_digit(b[0] % 16));
        lemma_hex_digit_injective(a[0] / 16, b[0] / 16);
        lemma_hex_digit_injective(a[0] % 16, b[0] % 16);
        assert(a[0] == b[0]) by (nonlinear_arith)
            requires
                a[0] / 16 == b[0] / 16,
                a[0] % 16 == b[0] % 16,
        ;
        assert(hex_of(a.drop_first()) =~= ha.skip(2));
        assert(hex_of(b.drop_first()) =~= hb.skip(2));
        lemma_hex_injective(a.drop_first(), b.drop_first());
        assert forall|i: int| 0 <= i < a.len() implies a[i] == b[i] by {
            if i > 0 {
                assert(a[i] == a.drop_first()[i - 1]);
                assert(b[i] == b.drop_first()[i - 1]);
            }
        }
        assert(a =~= b);
    } else {
        assert(a =~= b);
    }
}

/// The bytes hashed for two lists of parts, one after the other.
pub proof fn lemma_parts_bytes_append(a: Seq<Seq<char>>, b: Seq<Seq<char>>)
    ensures
        parts_bytes(a + b) == parts_bytes(a) + parts_bytes(b),
    decreases b.len(),
{
    if b.len() == 0 {
        assert(a + b =~= a);
        assert(parts_bytes(a) + parts_bytes(b) =~= parts_bytes(a));
    } else {
        lemma_parts_bytes_append(a, b.drop_last());
        assert((a + b).drop_last() =~= a + b.drop_last());
        assert((a + b).last() == b.last());
        assert(parts_bytes(a + b) =~= parts_bytes(a) + parts_bytes(b));
    }
}

/// SHA-256 taken as one to one: different bytes give different digests.
pub open spec fn sha256_injective() -> bool {
    forall|x: Seq<u8>, y: Seq<u8>| #[trigger] sha256_of(x) == #[trigger] sha256_of(y) ==> x == y
}

} // verus!
