//! Block signatures, deltas between file versions, and applying a delta.

use vstd::prelude::*;

verus! {

/// What marks a signature as made of MD4 block hashes.
pub const MD4_SIGNATURE: u32 = 0x72730136;

/// What marks a signature as made of BLAKE2 block hashes.
pub const BLAKE2_SIGNATURE: u32 = 0x72730137;

/// The length of an MD4 hash, and so the most of it that a signature can keep per block.
pub const MD4_LENGTH: u32 = 16;

/// The four bytes at `at` as a number, the most significant first.
pub open spec fn big_endian_at(bytes: Seq<u8>, at: int) -> int {
    bytes[at] * 0x1000000 + bytes[at + 1] * 0x10000 + bytes[at + 2] * 0x100 + bytes[at + 3]
}

/// The mark at the start of a serialized signature.
pub open spec fn signature_kind(signature: Seq<u8>) -> int {
    big_endian_at(signature, 0)
}

/// How many bytes of file each entry of the signature stands for.
pub open spec fn signature_block_size(signature: Seq<u8>) -> int {
    big_endian_at(signature, 4)
}

/// How many bytes of each block's hash the signature keeps.
pub open spec fn signature_hash_size(signature: Seq<u8>) -> int {
    big_endian_at(signature, 8)
}

/// A serialized signature: a header of three four-byte numbers, the first of them a known mark,
/// then whole entries of a four-byte checksum and a hash each.
pub open spec fn signature_parses(signature: Seq<u8>) -> bool {
    &&& signature.len() >= 12
    &&& signature_kind(signature) == MD4_SIGNATURE || signature_kind(signature) == BLAKE2_SIGNATURE
    &&& (signature.len() - 12) % (4 + signature_hash_size(signature)) == 0
}

/// A parsed signature of the kind that a delta can be computed against.
pub open spec fn signature_supported(signature: Seq<u8>) -> bool {
    &&& signature_kind(signature) == MD4_SIGNATURE
    &&& signature_hash_size(signature) <= MD4_LENGTH
}

/// The size of an entry of the signature is a length that this machine can hold.
pub open spec fn signature_measurable(signature: Seq<u8>) -> bool {
    signature.len() >= 12 ==> 4 + signature_hash_size(signature) <= usize::MAX
}

/// A signature that can be answered: where a delta would be computed, the blocks are not empty.
pub open spec fn signature_answerable(signature: Seq<u8>) -> bool {
    &&& signature_measurable(signature)
    &&& signature_parses(signature) && signature_supported(signature) ==> signature_block_size(
        signature,
    ) > 0
}

/// How many blocks so much data makes up, the last of which may be short.
pub open spec fn block_count(data_length: int, block_size: int) -> int {
    (data_length + block_size - 1) / block_size
}

/// The block of the data at position `i`.
pub open spec fn block_at(data: Seq<u8>, block_size: int, i: int) -> Seq<u8> {
    let end = (i + 1) * block_size;
    data.subrange(
        i * block_size,
        if end < data.len() {
            end
        } else {
            data.len() as int
        },
    )
}

/// The length of the signature of so much data: the header, then an entry for each block.
pub open spec fn signature_length(data_length: int, block_size: int, hash_size: int) -> int {
    12 + block_count(data_length, block_size) * (4 + hash_size)
}

#[verifier::external_type_specification]
#[verifier::external_body]
pub struct ExSignature(fast_rsync::Signature);

#[verifier::external_type_specification]
#[verifier::external_body]
pub struct ExSignatureParseError(fast_rsync::SignatureParseError);

#[verifier::external_type_specification]
#[verifier::external_body]
pub struct ExDiffError(fast_rsync::DiffError);

#[verifier::external_type_specification]
#[verifier::external_body]
pub struct ExApplyError(fast_rsync::ApplyError);

/// What `fast_rsync::Signature::calculate` makes of some data, in serialized form.
pub uninterp spec fn rsync_signature(data: Seq<u8>, block_size: u32, hash_size: u32) -> Seq<u8>;

/// What `fast_rsync::diff` writes for a serialized signature and the data to reach.
pub uninterp spec fn rsync_delta(signature: Seq<u8>, data: Seq<u8>) -> Seq<u8>;

/// What `fast_rsync::apply` writes for a base and a delta, up to the end or the first fault.
pub uninterp spec fn rsync_patched(base: Seq<u8>, delta: Seq<u8>) -> Seq<u8>;

/// The signature is that of the data, in blocks and with hashes of the sizes in its header.
pub open spec fn is_signature_of(signature: Seq<u8>, data: Seq<u8>) -> bool {
    let block_size = signature_block_size(signature);
    let hash_size = signature_hash_size(signature);
    &&& signature_kind(signature) == MD4_SIGNATURE
    &&& 0 < block_size
    &&& hash_size <= MD4_LENGTH
    &&& signature.len() == signature_length(data.len() as int, block_size, hash_size)
    &&& signature.len() <= isize::MAX
    &&& signature == rsync_signature(data, block_size as u32, hash_size as u32)
}

/// Blocks of the base and stretches of the data as long as a block have the same signature only
/// where they are the same.
pub open spec fn tells_blocks_apart(
    base: Seq<u8>,
    data: Seq<u8>,
    block_size: u32,
    hash_size: u32,
) -> bool {
    forall|i: int, at: int|
        #![trigger block_at(base, block_size as int, i), data.subrange(at, at + block_size)]
        0 <= i < block_count(base.len() as int, block_size as int) && 0 <= at && at + block_size
            <= data.len() && rsync_signature(
            block_at(base, block_size as int, i),
            block_size,
            hash_size,
        ) == rsync_signature(data.subrange(at, at + block_size), block_size, hash_size)
            ==> block_at(base, block_size as int, i) == data.subrange(at, at + block_size)
}

/// Signatures of this kind are good enough to get from the base to the data: the blocks of the base
/// can be numbered in 32 bits, and can be told apart from all else in the data.
pub open spec fn distinguishes(signature: Seq<u8>, base: Seq<u8>, data: Seq<u8>) -> bool {
    &&& block_count(base.len() as int, signature_block_size(signature)) <= 0x1_0000_0000
    &&& tells_blocks_apart(
        base,
        data,
        signature_block_size(signature) as u32,
        signature_hash_size(signature) as u32,
    )
}

/// The signature is that of the base, and good enough to get from there to the data.
pub open spec fn identifies(signature: Seq<u8>, base: Seq<u8>, data: Seq<u8>) -> bool {
    &&& is_signature_of(signature, base)
    &&& distinguishes(signature, base, data)
}

/// The delta leads to the data: from every base that the signature identifies, and, where the
/// signature is of no blocks, from any base.
pub open spec fn leads_to(signature: Seq<u8>, delta: Seq<u8>, data: Seq<u8>) -> bool {
    &&& forall|base: Seq<u8>| #[trigger]
        identifies(signature, base, data) ==> rsync_patched(base, delta) == data
    &&& signature.len() == 12 ==> forall|base: Seq<u8>| #[trigger]
        rsync_patched(base, delta) == data
}

/// `written` is the data that the delta was made for, if it was made against a signature that
/// identifies the base.
pub open spec fn restores(base: Seq<u8>, delta: Seq<u8>, written: Seq<u8>) -> bool {
    forall|signature: Seq<u8>, data: Seq<u8>| #[trigger]
        identifies(signature, base, data) && delta == rsync_delta(signature, data) ==> written
            == data
}

/// The signature of some data can be read and worked with.
pub proof fn law_signature_is_supported(signature: Seq<u8>, data: Seq<u8>)
    requires
        is_signature_of(signature, data),
    ensures
        signature_parses(signature),
        signature_supported(signature),
        signature_answerable(signature),
{
    let entry_size = 4 + signature_hash_size(signature);
    let blocks = block_count(data.len() as int, signature_block_size(signature));
    assert(blocks >= 0) by (nonlinear_arith)
        requires
            blocks == (data.len() + signature_block_size(signature) - 1) / signature_block_size(
                signature,
            ),
            signature_block_size(signature) > 0,
    ;
    assert((blocks * entry_size) % entry_size == 0) by (nonlinear_arith)
        requires
            entry_size > 0,
    ;
    assert(blocks * entry_size >= 0) by (nonlinear_arith)
        requires
            blocks >= 0,
            entry_size > 0,
    ;
}

/// Calls `fast_rsync::Signature::calculate`, which panics on an empty block, on a hash longer
/// than MD4's and where the signature is too long to allocate, and serializes the result.
/// Claimed: the bytes depend on nothing but the arguments; they are a header with the MD4 mark,
/// the block size and the hash size, then one checksum and one hash for each block.
#[verifier::external_body]
pub(crate) fn calculate_signature(data: &[u8], block_size: u32, hash_size: u32) -> (signature: Vec<u8>)
    requires
        block_size > 0,
        hash_size <= MD4_LENGTH,
        signature_length(data@.len() as int, block_size as int, hash_size as int) <= isize::MAX,
    ensures
        signature@ == rsync_signature(data@, block_size, hash_size),
        signature@.len() == signature_length(data@.len() as int, block_size as int, hash_size as int),
        signature_kind(signature@) == MD4_SIGNATURE,
        signature_block_size(signature@) == block_size,
        signature_hash_size(signature@) == hash_size,
{
    let options = fast_rsync::SignatureOptions { block_size, crypto_hash_size: hash_size };
    fast_rsync::Signature::calculate(data, options).into_serialized()
}

/// Calls `fast_rsync::Signature::deserialize`. Claimed: it accepts exactly the bytes with a whole
/// header, a known mark in it, and whole entries after it.
#[verifier::external_body]
pub(crate) fn deserialize_signature(signature: Vec<u8>) -> (parsed: Result<
    fast_rsync::Signature,
    fast_rsync::SignatureParseError,
>)
    requires
        signature_measurable(signature@),
    ensures
        parsed is Ok <==> signature_parses(signature@),
{
    fast_rsync::Signature::deserialize(signature)
}

/// Calls `fast_rsync::diff` on a signature read by `fast_rsync::Signature::deserialize` and
/// indexed, gathering the delta in memory, where writing cannot fail. On blocks of no bytes
/// `diff` panics or never returns. Claimed: the bytes are read exactly where they parse; a delta
/// comes exactly where the signature is of MD4 hashes no longer than MD4's; and the delta depends
/// on nothing but the arguments. The delta copies blocks that have the checksum and hash of a stretch
/// of the data, and spells the rest out. So it leads to the data from a base with that signature, if
/// the numbers of its blocks fit in 32 bits and no block has the checksum and hash of a stretch of
/// the data without being the same. MD4 is no longer trusted to see to that, and nothing is claimed
/// where it does not. A signature of no blocks leaves nothing to copy, and its delta leads to the
/// data from any base.
#[verifier::external_body]
pub(crate) fn calculate_delta(signature: Vec<u8>, data: &[u8]) -> (delta: Result<
    Result<Vec<u8>, fast_rsync::DiffError>,
    fast_rsync::SignatureParseError,
>)
    requires
        signature_answerable(signature@),
    ensures
        delta is Ok <==> signature_parses(signature@),
        delta matches Ok(written) ==> (written is Ok <==> signature_supported(signature@)),
        delta matches Ok(Ok(bytes)) ==> bytes@ == rsync_delta(signature@, data@),
        delta matches Ok(Ok(bytes)) ==> leads_to(signature@, bytes@, data@),
{
    match fast_rsync::Signature::deserialize(signature) {
        Ok(parsed) => {
            let mut bytes: Vec<u8> = Vec::new();
            match fast_rsync::diff(&parsed.index(), data, &mut bytes) {
                Ok(()) => Ok(Ok(bytes)),
                Err(error) => Ok(Err(error)),
            }
        },
        Err(error) => Err(error),
    }
}

/// Calls `fast_rsync::apply`, gathering its output in memory, where writing cannot fail. Claimed:
/// what is written, also where the delta turns out to be faulty, depends on nothing but the
/// arguments; it is the data that `fast_rsync::diff` was given, if the delta was made against a
/// signature of the base that tells its blocks apart from all else in that data. Whether the delta
/// was faulty is handed on and nothing is claimed of it.
#[verifier::external_body]
pub(crate) fn apply_delta(base: &[u8], delta: &[u8]) -> (applied: (
    Vec<u8>,
    Result<(), fast_rsync::ApplyError>,
))
    ensures
        applied.0@ == rsync_patched(base@, delta@),
        restores(base@, delta@, applied.0@),
{
    let mut bytes: Vec<u8> = Vec::new();
    let outcome = fast_rsync::apply(base, delta, &mut bytes);
    (bytes, outcome)
}

fn read_big_endian(bytes: &Vec<u8>, at: usize) -> (number: u32)
    requires
        at + 4 <= bytes.len(),
    ensures
        number == big_endian_at(bytes@, at as int),
{
    bytes[at] as u32 * 0x1000000 + bytes[at + 1] as u32 * 0x10000 + bytes[at + 2] as u32 * 0x100
        + bytes[at + 3] as u32
}

/// Whether a signature can be answered.
pub fn is_signature_answerable(signature: &Vec<u8>) -> (answerable: bool)
    ensures
        answerable == signature_answerable(signature@),
{
    if signature.len() < 12 {
        return true;
    }
    let kind: u32 = read_big_endian(signature, 0);
    let block_size: u32 = read_big_endian(signature, 4);
    let hash_size: u32 = read_big_endian(signature, 8);
    let entry_size: u64 = 4 + hash_size as u64;
    if entry_size > usize::MAX as u64 {
        return false;
    }
    if kind != MD4_SIGNATURE || hash_size > MD4_LENGTH || block_size > 0 {
        return true;
    }
    (signature.len() - 12) as u64 % entry_size != 0
}

/// Whether the signature of so much data is not too long to be held in memory.
pub fn is_signature_length_possible(data_length: usize, block_size: u32, hash_size: u32) -> (
    possible: bool)
    requires
        block_size > 0,
    ensures
        possible == (signature_length(data_length as int, block_size as int, hash_size as int)
            <= isize::MAX),
{
    let blocks: u128 = (data_length as u128 + block_size as u128 - 1) / block_size as u128;
    let entry_size: u128 = 4 + hash_size as u128;
    proof {
        assert(blocks <= 0x1_0000_0000_0000_0000 + 0x1_0000_0000) by (nonlinear_arith)
            requires
                blocks == (data_length + block_size - 1) / block_size as int,
                data_length <= 0xffff_ffff_ffff_ffff,
                0 < block_size <= 0xffff_ffff,
        ;
        assert(0 <= blocks * entry_size <= 0x4_0000_0000_0000_0000_0000_0000) by (nonlinear_arith)
            requires
                0 <= blocks <= 0x1_0000_0000_0000_0000 + 0x1_0000_0000,
                0 <= entry_size <= 0x1_0000_0003,
        ;
    }
    12 + blocks * entry_size <= isize::MAX as u128
}

/// Data makes up as many blocks as it takes to hold it, and no more; its signature is a header of
/// twelve bytes and, for each block, four bytes and a hash.
pub proof fn law_blocks_hold_the_data(data_length: int, block_size: int, hash_size: int)
    requires
        data_length >= 0,
        block_size > 0,
    ensures
        data_length <= block_count(data_length, block_size) * block_size < data_length + block_size,
        signature_length(data_length, block_size, hash_size) == 12 + block_count(
            data_length,
            block_size,
        ) * (4 + hash_size),
{
    let count = block_count(data_length, block_size);
    assert(data_length <= count * block_size < data_length + block_size) by (nonlinear_arith)
        requires
            count == (data_length + block_size - 1) / block_size,
            block_size > 0,
            data_length >= 0,
    ;
}

} // verus!
