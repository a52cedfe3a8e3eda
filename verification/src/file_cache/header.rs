//! The header in the first logical block of a cache file.
//!
//! It holds the magic bytes, the format version as a big-endian `u32`, then the block size and the
//! number of meta blocks as big-endian integers. The rest of the block is zero.
//!
//! The last two fields are written as wide as a `usize` is, and read as `u64`s: a header is read back
//! as it was written where a `usize` has 64 bits.

use crate::decimal::{decimal, list_text, push_decimal, push_list};
use crate::file_cache::big_endian::{
    be_bytes, be_value, get_u32, get_u64, lemma_be_bytes_len, lemma_be_digit, lemma_be_round_trip,
    push_be,
};
use vstd::arithmetic::power::pow;
use vstd::prelude::*;
use vstd::slice::slice_subrange;
use vstd::string::*;

verus! {

/// Size in bytes of a logical block of the device, and of the header.
pub const LOGICAL_BLOCK_SIZE: usize = 512;

/// Version of the header format.
pub const VERSION: u32 = 1;

/// Number of magic bytes.
pub const MAGIC_LEN: usize = 18;

/// Number of bytes of a header that are read.
pub const FIELDS_LEN: usize = 38;

/// Number of bytes of a `usize`.
pub open spec fn usize_len() -> nat {
    (usize::BITS / 8) as nat
}

/// The magic bytes, which spell `hummock-cache-file`.
pub open spec fn magic() -> Seq<u8> {
    seq![
        104u8, 117, 109, 109, 111, 99, 107, 45, 99, 97, 99, 104, 101, 45, 102, 105, 108, 101,
    ]
}

/// The header block of a file with these parameters.
pub open spec fn header_block(block_size: nat, meta_blocks: nat) -> Seq<u8> {
    magic() + be_bytes(VERSION as nat, 4) + be_bytes(block_size, usize_len()) + be_bytes(
        meta_blocks,
        usize_len(),
    ) + Seq::new((LOGICAL_BLOCK_SIZE - 22 - 2 * usize_len()) as nat, |i: int| 0u8)
}

/// What the version field of `block` holds.
pub open spec fn version_field(block: Seq<u8>) -> nat {
    be_value(block.subrange(18, 22))
}

/// What the block size field of `block` holds.
pub open spec fn block_size_field(block: Seq<u8>) -> nat {
    be_value(block.subrange(22, 30))
}

/// What the meta blocks field of `block` holds.
pub open spec fn meta_blocks_field(block: Seq<u8>) -> nat {
    be_value(block.subrange(30, 38))
}

/// Why a block is not the header of a cache file.
#[derive(Debug)]
pub enum HeaderError {
    /// The block does not start with the magic bytes: these stand in their place.
    MagicMismatch { got: Vec<u8> },
    /// The header has another version.
    UnsupportedVersion { version: u32 },
}

/// The text of a byte list: the numerals of the bytes in square brackets.
pub open spec fn byte_list(s: Seq<u8>) -> Seq<char> {
    list_text(Seq::new(s.len(), |i: int| s[i] as u64))
}

impl HeaderError {
    /// The text of the error.
    pub open spec fn text(self) -> Seq<char> {
        match self {
            HeaderError::MagicMismatch { got } => "magic mismatch, expected: "@ + byte_list(magic())
                + ", got: "@ + byte_list(got@),
            HeaderError::UnsupportedVersion { version } => "unsupported version: "@ + decimal(
                version as nat,
            ),
        }
    }

    /// Renders the error.
    pub fn message(&self) -> (r: String)
        ensures
            r@ == self.text(),
    {
        let mut out: String = String::new();
        match self {
            HeaderError::MagicMismatch { got } => {
                out.append("magic mismatch, expected: ");
                let expected: Vec<u8> = magic_bytes();
                push_byte_list(&mut out, expected.as_slice());
                out.append(", got: ");
                push_byte_list(&mut out, got.as_slice());
            },
            HeaderError::UnsupportedVersion { version } => {
                out.append("unsupported version: ");
                push_decimal(&mut out, *version as u64);
            },
        }
        assert(out@ =~= self.text());
        out
    }
}

fn push_byte_list(out: &mut String, list: &[u8])
    ensures
        final(out)@ == old(out)@ + byte_list(list@),
{
    let mut numbers: Vec<u64> = Vec::new();
    let mut i: usize = 0;
    while i < list.len()
        invariant
            i <= list@.len(),
            numbers@.len() == i,
            forall|k: int| 0 <= k < i ==> numbers@[k] == list@[k],
        decreases list@.len() - i,
    {
        numbers.push(list[i] as u64);
        i = i + 1;
    }
    assert(numbers@ =~= Seq::new(list@.len(), |i: int| list@[i] as u64));
    push_list(out, numbers.as_slice());
}

fn magic_bytes() -> (r: Vec<u8>)
    ensures
        r@ == magic(),
{
    let r: Vec<u8> = vec![
        104, 117, 109, 109, 111, 99, 107, 45, 99, 97, 99, 104, 101, 45, 102, 105, 108, 101,
    ];
    assert(r@ =~= magic());
    r
}

/// The header block of a file with these parameters.
pub fn encode_header(block_size: usize, meta_blocks: usize) -> (r: Vec<u8>)
    ensures
        r@ == header_block(block_size as nat, meta_blocks as nat),
        r@.len() == LOGICAL_BLOCK_SIZE,
{
    let width: usize = (usize::BITS / 8) as usize;
    let mut buf: Vec<u8> = magic_bytes();
    push_be(&mut buf, VERSION as u64, 4);
    push_be(&mut buf, block_size as u64, width);
    push_be(&mut buf, meta_blocks as u64, width);
    proof {
        lemma_be_bytes_len(VERSION as nat, 4);
        lemma_be_bytes_len(block_size as nat, usize_len());
        lemma_be_bytes_len(meta_blocks as nat, usize_len());
    }
    let ghost fields = buf@;
    buf.resize(LOGICAL_BLOCK_SIZE, 0);
    proof {
        let n = fields.len() as int;
        assert(n == 22 + 2 * usize_len());
        assert(buf@.subrange(0, n) == fields);
        assert(buf@ =~= fields + Seq::new((LOGICAL_BLOCK_SIZE - n) as nat, |i: int| 0u8)) by {
            assert forall|i: int| 0 <= i < n implies buf@[i] == fields[i] by {
                assert(buf@.subrange(0, n)[i] == buf@[i]);
            }
            assert forall|i: int| n <= i < 512 implies buf@[i] == 0u8 by {
                assert(cloned::<u8>(0u8, buf@[i]));
            }
        }
    }
    buf
}

fn same_bytes(a: &[u8], b: &[u8]) -> (r: bool)
    ensures
        r == (a@ == b@),
{
    if a.len() != b.len() {
        return false;
    }
    let mut i: usize = 0;
    while i < a.len()
        invariant
            i <= a@.len(),
            a@.len() == b@.len(),
            forall|j: int| 0 <= j < i ==> a@[j] == b@[j],
        decreases a@.len() - i,
    {
        if a[i] != b[i] {
            return false;
        }
        i = i + 1;
    }
    assert(a@ =~= b@);
    true
}

/// Reads the block size and the number of meta blocks from a header block.
///
/// The fields hold 64 bits each; of a value that a `usize` does not hold the low bits are kept.
pub fn decode_header(block: &[u8]) -> (r: Result<(usize, usize), HeaderError>)
    requires
        block@.len() >= FIELDS_LEN,
    ensures
        match r {
            Ok((block_size, meta_blocks)) => {
                &&& block@.take(18) == magic()
                &&& version_field(block@) == VERSION
                &&& block_size == block_size_field(block@) as usize
                &&& meta_blocks == meta_blocks_field(block@) as usize
            },
            Err(HeaderError::MagicMismatch { got }) => {
                &&& block@.take(18) != magic()
                &&& got@ == block@.take(18)
            },
            Err(HeaderError::UnsupportedVersion { version }) => {
                &&& block@.take(18) == magic()
                &&& version as nat == version_field(block@)
                &&& version != VERSION
            },
        },
{
    let mut cursor: usize = MAGIC_LEN;
    let found: &[u8] = slice_subrange(block, cursor - MAGIC_LEN, cursor);
    let expected: Vec<u8> = magic_bytes();
    if !same_bytes(found, expected.as_slice()) {
        let got: Vec<u8> = vstd::slice::slice_to_vec(found);
        return Err(HeaderError::MagicMismatch { got });
    }
    cursor = cursor + 4;
    let bytes: &[u8] = slice_subrange(block, cursor - 4, cursor);
    assert(bytes@.take(4) =~= bytes@);
    let version: u32 = get_u32(bytes);
    if version != VERSION {
        return Err(HeaderError::UnsupportedVersion { version });
    }
    cursor = cursor + 8;
    let bytes: &[u8] = slice_subrange(block, cursor - 8, cursor);
    assert(bytes@.take(8) =~= bytes@);
    let block_size: usize = get_u64(bytes) as usize;
    cursor = cursor + 8;
    let bytes: &[u8] = slice_subrange(block, cursor - 8, cursor);
    assert(bytes@.take(8) =~= bytes@);
    let meta_blocks: usize = get_u64(bytes) as usize;
    Ok((block_size, meta_blocks))
}

/// The header of a file gives back the parameters that it was made from: where a `usize` has 64 bits,
/// every block size and number of meta blocks survives being written and read.
pub proof fn lemma_header_round_trip(block_size: usize, meta_blocks: usize)
    requires
        usize::BITS == 64,
    ensures
        header_block(block_size as nat, meta_blocks as nat).len() == LOGICAL_BLOCK_SIZE,
        header_block(block_size as nat, meta_blocks as nat).take(18) == magic(),
        version_field(header_block(block_size as nat, meta_blocks as nat)) == VERSION,
        block_size_field(header_block(block_size as nat, meta_blocks as nat)) == block_size,
        meta_blocks_field(header_block(block_size as nat, meta_blocks as nat)) == meta_blocks,
{
    let b = header_block(block_size as nat, meta_blocks as nat);
    lemma_be_bytes_len(VERSION as nat, 4);
    lemma_be_bytes_len(block_size as nat, 8);
    lemma_be_bytes_len(meta_blocks as nat, 8);
    assert(pow(256, 4) == 0x1_0000_0000 && pow(256, 8) == 0x1_0000_0000_0000_0000) by {
        reveal_with_fuel(pow, 9);
    }
    lemma_be_round_trip(VERSION as nat, 4);
    lemma_be_round_trip(block_size as nat, 8);
    lemma_be_round_trip(meta_blocks as nat, 8);
    assert(b.take(18) =~= magic());
    assert(b.subrange(18, 22) =~= be_bytes(VERSION as nat, 4));
    assert(b.subrange(22, 30) =~= be_bytes(block_size as nat, 8));
    assert(b.subrange(30, 38) =~= be_bytes(meta_blocks as nat, 8));
}

/// The magic bytes spell the name of the format.
pub proof fn lemma_magic()
    ensures
        magic().len() == 18,
        forall|i: int|
            0 <= i < 18 ==> #[trigger] magic()[i] as int == "hummock-cache-file"@[i] as int,
{
    reveal_strlit("hummock-cache-file");
}

/// The bytes of a header: the name of the format, the version in four bytes, then the block size and
/// the meta blocks, each in as many bytes as a `usize` has, most significant byte first, and zeros.
pub proof fn lemma_header_bytes(block_size: usize, meta_blocks: usize, k: nat, i: int)
    requires
        k < usize::BITS / 8,
        22 + 2 * (usize::BITS / 8) <= i < 512,
    ensures
        ({
            let h = header_block(block_size as nat, meta_blocks as nat);
            let w = usize::BITS as int / 8;
            &&& h.len() == 512
            &&& forall|j: int|
                0 <= j < 18 ==> #[trigger] h[j] as int == "hummock-cache-file"@[j] as int
            &&& h.subrange(18, 22) == seq![0u8, 0u8, 0u8, 1u8]
            &&& h[21 + w - k] as int == (block_size as int / pow(256, k)) % 256
            &&& h[21 + 2 * w - k] as int == (meta_blocks as int / pow(256, k)) % 256
            &&& h[i] == 0
        }),
{
    let h = header_block(block_size as nat, meta_blocks as nat);
    let w = usize_len();
    lemma_magic();
    lemma_be_bytes_len(VERSION as nat, 4);
    lemma_be_digit(VERSION as nat, 4, 0);
    lemma_be_digit(VERSION as nat, 4, 1);
    lemma_be_digit(VERSION as nat, 4, 2);
    lemma_be_digit(VERSION as nat, 4, 3);
    assert(pow(256, 0) == 1 && pow(256, 1) == 256 && pow(256, 2) == 65536 && pow(256, 3)
        == 16777216) by {
        reveal_with_fuel(pow, 4);
    }
    lemma_be_digit(block_size as nat, w, k);
    lemma_be_digit(meta_blocks as nat, w, k);
    assert(h.subrange(18, 22) =~= be_bytes(VERSION as nat, 4));
    assert(h.subrange(18, 22) =~= seq![0u8, 0u8, 0u8, 1u8]);
    assert forall|j: int| 0 <= j < 18 implies #[trigger] h[j] as int
        == "hummock-cache-file"@[j] as int by {
        assert(h[j] == magic()[j]);
    }
}

/// The version of a header is one exactly if its four bytes are three zeros and a one.
pub proof fn lemma_known_version(block: Seq<u8>)
    requires
        block.len() >= 22,
    ensures
        version_field(block) == VERSION <==> block.subrange(18, 22) == seq![0u8, 0u8, 0u8, 1u8],
{
    let s = block.subrange(18, 22);
    reveal_with_fuel(be_value, 5);
    let a = s.drop_last();
    let b = a.drop_last();
    let c = b.drop_last();
    assert(c.drop_last() =~= Seq::<u8>::empty());
    assert(be_value(s) == 16777216 * s[0] + 65536 * s[1] + 256 * s[2] + s[3]);
    if be_value(s) == 1 {
        assert(s =~= seq![0u8, 0u8, 0u8, 1u8]);
    }
}

/// The texts of the errors, over all that they tell of.
pub proof fn lemma_header_error_texts(got: Vec<u8>, version: u32)
    ensures
        (HeaderError::MagicMismatch { got }).text() == "magic mismatch, expected: "@ + list_text(
            magic().map_values(|byte: u8| byte as u64),
        ) + ", got: "@ + list_text(got@.map_values(|byte: u8| byte as u64)),
        (HeaderError::UnsupportedVersion { version }).text() == "unsupported version: "@ + decimal(
            version as nat,
        ),
{
    let number = |byte: u8| byte as u64;
    assert(Seq::new(magic().len(), |i: int| magic()[i] as u64) =~= magic().map_values(number));
    assert(Seq::new(got@.len(), |i: int| got@[i] as u64) =~= got@.map_values(number));
}

} // verus!
