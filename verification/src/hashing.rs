//! Deterministic identifier derivation.
//!
//! Blob and expression identifiers are 64-bit FNV-1a digests with a fixed
//! offset basis, so that identical content yields the identical identifier
//! in every process, on every machine, forever. Each derivation kind folds
//! in its own distinct tag byte *first*, so the byte streams digested for
//! blob identifiers, leaf expression identifiers and composite expression
//! identifiers differ at their first byte for every payload: no input to
//! one kind feeds the digest the same stream as any input to another.

use vstd::prelude::*;

verus! {

/// FNV-1a 64-bit offset basis.
pub const FNV_OFFSET_BASIS: u64 = 0xcbf29ce484222325;

/// FNV-1a 64-bit prime.
pub const FNV_PRIME: u64 = 0x100000001b3;

/// Tag byte folded first into blob identifier derivations.
pub const TAG_DATA: u8 = 0x44;

/// Tag byte folded first into leaf expression identifier derivations.
pub const TAG_LEAF: u8 = 0x4c;

/// Tag byte folded first into composite expression identifier derivations.
pub const TAG_COMPOSITE: u8 = 0x43;

/// Tag byte folded first into the placeholder reduction digest.
pub const TAG_COMPUTE: u8 = 0x52;

/// One FNV-1a round: fold a single byte into the running digest.
pub open spec fn fnv1a_step(h: u64, b: u8) -> u64 {
    (h ^ (b as u64)).wrapping_mul(FNV_PRIME)
}

/// Fold a byte sequence into the running digest, first byte first.
pub open spec fn fnv1a_seq(h: u64, s: Seq<u8>) -> u64
    decreases s.len(),
{
    if s.len() == 0 {
        h
    } else {
        fnv1a_step(fnv1a_seq(h, s.drop_last()), s.last())
    }
}

/// The eight bytes of `x`, least significant first.
pub open spec fn u64_le_seq(x: u64) -> Seq<u8> {
    seq![
        (x & 0xff) as u8,
        ((x >> 8) & 0xff) as u8,
        ((x >> 16) & 0xff) as u8,
        ((x >> 24) & 0xff) as u8,
        ((x >> 32) & 0xff) as u8,
        ((x >> 40) & 0xff) as u8,
        ((x >> 48) & 0xff) as u8,
        ((x >> 56) & 0xff) as u8,
    ]
}

/// Fold a 64-bit value into the running digest as eight bytes, least
/// significant first.
pub open spec fn fnv1a_u64(h: u64, x: u64) -> u64 {
    fnv1a_seq(h, u64_le_seq(x))
}

/// Fold a sequence of 64-bit values into the running digest, first first.
pub open spec fn fnv1a_u64_seq(h: u64, xs: Seq<u64>) -> u64
    decreases xs.len(),
{
    if xs.len() == 0 {
        h
    } else {
        fnv1a_u64(fnv1a_u64_seq(h, xs.drop_last()), xs.last())
    }
}

/// The blob identifier derived from blob content: a tagged digest of the
/// exact bytes.
pub open spec fn spec_data_id_hash(bytes: Seq<u8>) -> u64 {
    fnv1a_seq(fnv1a_step(FNV_OFFSET_BASIS, TAG_DATA), bytes)
}

/// The expression identifier of a leaf wrapping a blob identifier.
pub open spec fn spec_leaf_id_hash(data_id: u64) -> u64 {
    fnv1a_u64(fnv1a_step(FNV_OFFSET_BASIS, TAG_LEAF), data_id)
}

/// The expression identifier of a composite node, derived from the ordered
/// sequence of its child expression identifiers.
pub open spec fn spec_composite_id_hash(ids: Seq<u64>) -> u64 {
    fnv1a_u64_seq(fnv1a_step(FNV_OFFSET_BASIS, TAG_COMPOSITE), ids)
}

/// Fold one reduction input into the running digest: its length, then its
/// bytes, so that input boundaries are unambiguous.
pub open spec fn reduce_input_fold(h: u64, input: Seq<u8>) -> u64 {
    fnv1a_seq(fnv1a_u64(h, input.len() as u64), input)
}

/// Fold the ordered reduction inputs into the running digest.
pub open spec fn reduce_fold(h: u64, inputs: Seq<Seq<u8>>) -> u64
    decreases inputs.len(),
{
    if inputs.len() == 0 {
        h
    } else {
        reduce_input_fold(reduce_fold(h, inputs.drop_last()), inputs.last())
    }
}

/// The digest of the placeholder reduction over its ordered inputs.
pub open spec fn spec_reduce_hash(inputs: Seq<Seq<u8>>) -> u64 {
    reduce_fold(fnv1a_step(FNV_OFFSET_BASIS, TAG_COMPUTE), inputs)
}

/// The bytes produced by the placeholder reduction: the digest of its
/// inputs, least significant byte first.
pub open spec fn spec_reduce_bytes(inputs: Seq<Seq<u8>>) -> Seq<u8> {
    u64_le_seq(spec_reduce_hash(inputs))
}

/// Fold a byte slice into the running digest, first byte first.
pub fn fnv1a_bytes(h0: u64, s: &[u8]) -> (h: u64)
    ensures
        h == fnv1a_seq(h0, s@),
{
    let mut h = h0;
    let mut i: usize = 0;
    while i < s.len()
        invariant
            i <= s@.len(),
            h == fnv1a_seq(h0, s@.take(i as int)),
        decreases s@.len() - i,
    {
        proof {
            assert(s@.take(i + 1 as int).drop_last() =~= s@.take(i as int));
            assert(s@.take(i + 1 as int).last() == s@[i as int]);
        }
        h = (h ^ (s[i] as u64)).wrapping_mul(FNV_PRIME);
        i = i + 1;
    }
    proof {
        assert(s@.take(s@.len() as int) =~= s@);
    }
    h
}

/// The eight bytes of `x`, least significant first.
pub fn u64_le_bytes(x: u64) -> (v: Vec<u8>)
    ensures
        v@ == u64_le_seq(x),
{
    let mut v: Vec<u8> = Vec::new();
    v.push((x & 0xff) as u8);
    v.push(((x >> 8) & 0xff) as u8);
    v.push(((x >> 16) & 0xff) as u8);
    v.push(((x >> 24) & 0xff) as u8);
    v.push(((x >> 32) & 0xff) as u8);
    v.push(((x >> 40) & 0xff) as u8);
    v.push(((x >> 48) & 0xff) as u8);
    v.push(((x >> 56) & 0xff) as u8);
    proof {
        assert(v@ =~= u64_le_seq(x));
    }
    v
}

/// Fold a 64-bit value into the running digest as eight bytes, least
/// significant first.
pub fn fnv1a_word(h0: u64, x: u64) -> (h: u64)
    ensures
        h == fnv1a_u64(h0, x),
{
    let bytes = u64_le_bytes(x);
    fnv1a_bytes(h0, bytes.as_slice())
}

/// The blob identifier derived from blob content.
pub fn data_id_hash(data: &[u8]) -> (h: u64)
    ensures
        h == spec_data_id_hash(data@),
{
    let h0 = (FNV_OFFSET_BASIS ^ (TAG_DATA as u64)).wrapping_mul(FNV_PRIME);
    fnv1a_bytes(h0, data)
}

/// The expression identifier of a leaf wrapping a blob identifier.
pub fn leaf_id_hash(data_id: u64) -> (h: u64)
    ensures
        h == spec_leaf_id_hash(data_id),
{
    let h0 = (FNV_OFFSET_BASIS ^ (TAG_LEAF as u64)).wrapping_mul(FNV_PRIME);
    fnv1a_word(h0, data_id)
}

/// The expression identifier of a composite node over ordered child
/// expression identifiers.
pub fn composite_id_hash(ids: &Vec<u64>) -> (h: u64)
    ensures
        h == spec_composite_id_hash(ids@),
{
    let h0 = (FNV_OFFSET_BASIS ^ (TAG_COMPOSITE as u64)).wrapping_mul(FNV_PRIME);
    let mut h = h0;
    let mut i: usize = 0;
    while i < ids.len()
        invariant
            i <= ids@.len(),
            h == fnv1a_u64_seq(h0, ids@.take(i as int)),
        decreases ids@.len() - i,
    {
        proof {
            assert(ids@.take(i + 1 as int).drop_last() =~= ids@.take(i as int));
            assert(ids@.take(i + 1 as int).last() == ids@[i as int]);
        }
        h = fnv1a_word(h, ids[i]);
        i = i + 1;
    }
    proof {
        assert(ids@.take(ids@.len() as int) =~= ids@);
    }
    h
}

/// The placeholder reduction: "applies" the first input to the remaining
/// ones by digesting the ordered inputs. Deterministic, as memoization
/// requires: equal inputs always produce equal output.
pub fn pseudo_data_compute(inputs: &Vec<&Vec<u8>>) -> (out: Vec<u8>)
    ensures
        out@ == spec_reduce_bytes(inputs.deep_view()),
{
    let h0 = (FNV_OFFSET_BASIS ^ (TAG_COMPUTE as u64)).wrapping_mul(FNV_PRIME);
    let mut h = h0;
    let mut i: usize = 0;
    while i < inputs.len()
        invariant
            i <= inputs@.len(),
            h == reduce_fold(h0, inputs.deep_view().take(i as int)),
        decreases inputs@.len() - i,
    {
        proof {
            assert(inputs.deep_view().take(i + 1 as int).drop_last() =~= inputs.deep_view().take(
                i as int,
            ));
            assert(inputs.deep_view().take(i + 1 as int).last() == inputs.deep_view()[i as int]);
            assert(inputs.deep_view()[i as int] == inputs@[i as int]@);
        }
        let input: &Vec<u8> = inputs[i];
        h = fnv1a_word(h, input.len() as u64);
        h = fnv1a_bytes(h, input.as_slice());
        i = i + 1;
    }
    proof {
        assert(inputs.deep_view().take(inputs.deep_view().len() as int) =~= inputs.deep_view());
    }
    u64_le_bytes(h)
}

} // verus!
