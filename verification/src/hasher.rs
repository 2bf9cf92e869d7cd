//! A number for each version of each crate.
//!
//! Only one crate may link a native library. The package that stands for the library
//! gets a made-up version from every crate that links it: a hash of the name and the
//! version of the crate. Two crates agree on one only if their hashes collide.

use std::collections::hash_map::DefaultHasher;
use std::hash::Hasher;
use vstd::bytes::{spec_u64_to_le_bytes, u64_to_le_bytes};
use vstd::prelude::*;
use vstd::std_specs::hash::DefaultHasherAdditionalSpecFns;
use vstd::utf8::{encode_utf8, encode_scalar};
use crate::version::{Version, VersionView};

verus! {

/// A text, ended by a byte that occurs in no text.
pub open spec fn text_key(s: Seq<char>) -> Seq<u8> {
    encode_utf8(s).push(0xff)
}

/// The bytes that are hashed for a version of a crate.
pub open spec fn version_key(name: Seq<char>, v: VersionView) -> Seq<u8> {
    text_key(name) + spec_u64_to_le_bytes(v.major) + spec_u64_to_le_bytes(v.minor)
        + spec_u64_to_le_bytes(v.patch) + text_key(v.pre) + text_key(v.build)
}

/// The number of a version of a crate.
pub open spec fn version_hash(name: Seq<char>, v: VersionView) -> u64 {
    DefaultHasher::spec_finish(seq![version_key(name, v)])
}

fn push_text(key: &mut Vec<u8>, s: &str)
    ensures
        final(key)@ == old(key)@ + text_key(s@),
{
    let mut bytes: Vec<u8> = s.as_bytes_vec();
    key.append(&mut bytes);
    key.push(0xff);
    assert(key@ =~= old(key)@ + text_key(s@));
}

fn push_number(key: &mut Vec<u8>, n: u64)
    ensures
        final(key)@ == old(key)@ + spec_u64_to_le_bytes(n),
{
    let mut bytes: Vec<u8> = u64_to_le_bytes(n);
    key.append(&mut bytes);
}

/// The number of the version `version` of the crate `name`.
pub fn hash_version(name: &str, version: &Version) -> (r: u64)
    ensures
        r == version_hash(name@, version@),
        r == DefaultHasher::spec_finish(seq![version_key(name@, version@)]),
{
    let mut key: Vec<u8> = Vec::new();
    push_text(&mut key, name);
    push_number(&mut key, version.major());
    push_number(&mut key, version.minor());
    push_number(&mut key, version.patch());
    push_text(&mut key, version.pre());
    push_text(&mut key, version.build());
    assert(key@ =~= version_key(name@, version@));
    let mut state = DefaultHasher::new();
    state.write(key.as_slice());
    assert(state@ =~= seq![version_key(name@, version@)]);
    state.finish()
}

proof fn lemma_scalar_bytes(c: u32)
    ensures
        forall|i: int| 0 <= i < encode_scalar(c).len() ==> #[trigger] encode_scalar(c)[i] != 0xff,
{
    assert((c & 0x7F) as u8 != 0xff) by (bit_vector);
    assert(0xC0 | ((c >> 6) & 0x1F) as u8 != 0xff) by (bit_vector);
    assert(0xE0 | ((c >> 12) & 0x0F) as u8 != 0xff) by (bit_vector);
    assert(0xF0 | ((c >> 18) & 0x7) as u8 != 0xff) by (bit_vector);
    assert(0x80 | (c & 0x3F) as u8 != 0xff) by (bit_vector);
    assert(0x80 | ((c >> 6) & 0x3F) as u8 != 0xff) by (bit_vector);
    assert(0x80 | ((c >> 12) & 0x3F) as u8 != 0xff) by (bit_vector);
}

proof fn lemma_text_bytes(s: Seq<char>)
    ensures
        forall|i: int| 0 <= i < encode_utf8(s).len() ==> #[trigger] encode_utf8(s)[i] != 0xff,
    decreases s.len(),
{
    if s.len() > 0 {
        lemma_scalar_bytes(s[0] as u32);
        lemma_text_bytes(s.drop_first());
        let head = encode_scalar(s[0] as u32);
        let tail = encode_utf8(s.drop_first());
        assert forall|i: int| 0 <= i < encode_utf8(s).len() implies #[trigger] encode_utf8(s)[i]
            != 0xff by {
            if i < head.len() {
                assert(encode_utf8(s)[i] == head[i]);
            } else {
                assert(encode_utf8(s)[i] == tail[i - head.len()]);
            }
        }
    }
}

/// What starts with a text key starts with only one.
proof fn lemma_text_key_splits(a: Seq<char>, x: Seq<u8>, b: Seq<char>, y: Seq<u8>)
    requires
        text_key(a) + x == text_key(b) + y,
    ensures
        a == b,
        x == y,
{
    lemma_text_bytes(a);
    lemma_text_bytes(b);
    let p = encode_utf8(a);
    let q = encode_utf8(b);
    let whole = text_key(a) + x;
    assert(whole[p.len() as int] == 0xff);
    assert((text_key(b) + y)[q.len() as int] == 0xff);
    if p.len() < q.len() {
        assert((text_key(b) + y)[p.len() as int] == q[p.len() as int]);
    } else if q.len() < p.len() {
        assert(whole[q.len() as int] == p[q.len() as int]);
    }
    assert forall|i: int| 0 <= i < p.len() implies p[i] == q[i] by {
        assert(whole[i] == p[i]);
        assert((text_key(b) + y)[i] == q[i]);
    }
    assert(p =~= q);
    vstd::utf8::encode_utf8_decode_utf8(a);
    vstd::utf8::encode_utf8_decode_utf8(b);
    assert(x =~= whole.skip(p.len() as int + 1));
    assert(y =~= (text_key(b) + y).skip(q.len() as int + 1));
}

/// What starts with a number starts with only one.
proof fn lemma_number_splits(a: u64, x: Seq<u8>, b: u64, y: Seq<u8>)
    requires
        spec_u64_to_le_bytes(a) + x == spec_u64_to_le_bytes(b) + y,
    ensures
        a == b,
        x == y,
{
    vstd::bytes::lemma_auto_spec_u64_to_from_le_bytes();
    let p = spec_u64_to_le_bytes(a);
    let q = spec_u64_to_le_bytes(b);
    assert(p =~= (p + x).take(8));
    assert(q =~= (q + y).take(8));
    assert(x =~= (p + x).skip(8));
    assert(y =~= (q + y).skip(8));
    assert(vstd::bytes::spec_u64_from_le_bytes(p) == a);
    assert(vstd::bytes::spec_u64_from_le_bytes(q) == b);
}

/// No two versions of crates are hashed from the same bytes: two of them get the same
/// number only if the hash itself collides.
pub proof fn version_key_is_unique(
    name_a: Seq<char>,
    a: VersionView,
    name_b: Seq<char>,
    b: VersionView,
)
    requires
        version_key(name_a, a) == version_key(name_b, b),
    ensures
        name_a == name_b,
        a == b,
{
    let a5 = text_key(a.build);
    let a4 = text_key(a.pre) + a5;
    let a3 = spec_u64_to_le_bytes(a.patch) + a4;
    let a2 = spec_u64_to_le_bytes(a.minor) + a3;
    let a1 = spec_u64_to_le_bytes(a.major) + a2;
    let b5 = text_key(b.build);
    let b4 = text_key(b.pre) + b5;
    let b3 = spec_u64_to_le_bytes(b.patch) + b4;
    let b2 = spec_u64_to_le_bytes(b.minor) + b3;
    let b1 = spec_u64_to_le_bytes(b.major) + b2;
    assert(version_key(name_a, a) =~= text_key(name_a) + a1);
    assert(version_key(name_b, b) =~= text_key(name_b) + b1);
    lemma_text_key_splits(name_a, a1, name_b, b1);
    lemma_number_splits(a.major, a2, b.major, b2);
    lemma_number_splits(a.minor, a3, b.minor, b3);
    lemma_number_splits(a.patch, a4, b.patch, b4);
    lemma_text_key_splits(a.pre, a5, b.pre, b5);
    assert(a5 =~= text_key(a.build) + Seq::<u8>::empty());
    assert(b5 =~= text_key(b.build) + Seq::<u8>::empty());
    lemma_text_key_splits(a.build, Seq::empty(), b.build, Seq::empty());
    assert(a =~= b);
}

/// Different versions of crates, be it that the name, a number, the pre-release or the build
/// metadata differs, have different numbers, unless the hash gives one value to the two
/// different series of bytes that are made from them.
pub proof fn equal_numbers_are_collisions(
    name_a: Seq<char>,
    a: VersionView,
    name_b: Seq<char>,
    b: VersionView,
)
    requires
        version_hash(name_a, a) == version_hash(name_b, b),
        !(name_a == name_b && a == b),
    ensures
        version_key(name_a, a) != version_key(name_b, b),
        DefaultHasher::spec_finish(seq![version_key(name_a, a)]) == DefaultHasher::spec_finish(
            seq![version_key(name_b, b)],
        ),
        version_hash(name_a, a) == DefaultHasher::spec_finish(seq![version_key(name_a, a)]),
{
    if version_key(name_a, a) == version_key(name_b, b) {
        version_key_is_unique(name_a, a, name_b, b);
    }
}

} // verus!
