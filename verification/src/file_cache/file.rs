//! A cache file: what it is called, how it is opened, how long it is.

use crate::decimal::{
    decimal, first_difference, lemma_before_is_strict, lemma_padded_digit, lemma_padded_order,
    lemma_padded_value, lemma_u64_decimal_len, lexicographically_before, numeral_value, push_padded_decimal,
    zero_padded,
};
use crate::file_cache::align::{
    assert_alignment, assert_pow2, is_aligned, lemma_low_bits_clear_is_multiple, low_bits_clear,
    power_of_two,
};
use crate::file_cache::big_endian::be_value;
use crate::file_cache::header::{
    block_size_field, decode_header, encode_header, header_block, lemma_header_round_trip,
    lemma_known_version, lemma_magic, magic,
    meta_blocks_field, version_field, HeaderError, FIELDS_LEN, LOGICAL_BLOCK_SIZE, VERSION,
};
use vstd::arithmetic::div_mod::lemma_mod_multiples_basic;
use vstd::arithmetic::power::pow;
use vstd::arithmetic::power2::{lemma2_to64, pow2};
use vstd::prelude::*;
use vstd::string::*;

verus! {

/// Size in bytes of the blocks that a file's status counts.
pub const ST_BLOCK_SIZE: usize = 512;

/// How a cache file is to be opened.
pub struct CacheFileOptions {
    pub dir: String,
    pub id: u64,
    pub fs_block_size: usize,
    /// A multiple of `fs_block_size`.
    pub block_size: usize,
    pub meta_blocks: usize,
    pub fallocate_unit: usize,
}

impl CacheFileOptions {
    /// The file system's blocks are made of logical blocks, and the file's blocks of those.
    ///
    /// The bits of the block size are masked as for a file system block that is a power of two,
    /// for which the last clause says no more than the one before.
    pub open spec fn aligned(self) -> bool {
        &&& self.fs_block_size > 0
        &&& low_bits_clear(LOGICAL_BLOCK_SIZE, self.fs_block_size)
        &&& low_bits_clear(self.fs_block_size, self.block_size)
        &&& self.block_size % self.fs_block_size == 0
    }

    /// Number of bytes that a new file sets aside: for its header block and its meta blocks.
    pub open spec fn new_file_len(self) -> int {
        self.block_size * (1 + self.meta_blocks)
    }

    /// Whether the sizes are aligned as [`CacheFileOptions::assert_sizes`] demands.
    pub fn is_valid(&self) -> (r: bool)
        ensures
            r == self.aligned(),
    {
        self.fs_block_size > 0 && is_aligned(LOGICAL_BLOCK_SIZE, self.fs_block_size)
            && is_aligned(self.fs_block_size, self.block_size) && self.block_size
            % self.fs_block_size == 0
    }

    /// Accepts only sizes that are aligned.
    pub fn assert_sizes(&self)
        requires
            self.aligned(),
        ensures
            self.fs_block_size % LOGICAL_BLOCK_SIZE == 0,
            self.block_size % self.fs_block_size == 0,
    {
        proof {
            lemma_logical_block_size();
        }
        assert_pow2(LOGICAL_BLOCK_SIZE);
        assert_alignment(LOGICAL_BLOCK_SIZE, self.fs_block_size);
        assert_alignment(self.fs_block_size, self.block_size);
    }

    /// Number of bytes that a new file sets aside, where a `usize` holds it.
    pub fn reserved_len(&self) -> (r: Option<usize>)
        ensures
            match r {
                Some(len) => len == self.new_file_len(),
                None => self.new_file_len() > usize::MAX,
            },
    {
        match self.meta_blocks.checked_add(1) {
            Some(blocks) => {
                assert(self.block_size * blocks == self.block_size * (1 + self.meta_blocks));
                self.block_size.checked_mul(blocks)
            },
            None => {
                if self.block_size == 0 {
                    assert(0 * (1 + self.meta_blocks) == 0);
                    Some(0)
                } else {
                    assert(self.block_size * (1 + self.meta_blocks) >= 1 + self.meta_blocks)
                        by (nonlinear_arith)
                        requires
                            self.block_size >= 1,
                            self.meta_blocks >= 0,
                    ;
                    None
                }
            },
        }
    }
}

proof fn lemma_logical_block_size()
    ensures
        power_of_two(LOGICAL_BLOCK_SIZE as int),
{
    lemma2_to64();
    assert(LOGICAL_BLOCK_SIZE == pow2(9));
}

/// The name of the file with this id: `cf-` and the id in twenty digits.
pub open spec fn file_name(id: u64) -> Seq<char> {
    "cf-"@ + zero_padded(decimal(id as nat), 20)
}

/// The name of the file with this id.
pub fn filename(id: u64) -> (r: String)
    ensures
        r@ == file_name(id),
{
    let mut out: String = String::new();
    out.append("cf-");
    push_padded_decimal(&mut out, id);
    assert(out@ =~= file_name(id));
    out
}

/// Every file name has twenty-three characters.
pub proof fn lemma_file_name_len(id: u64)
    ensures
        file_name(id).len() == 23,
{
    reveal_strlit("cf-");
    lemma_u64_decimal_len(id);
}

/// The digits of a file name read back as the id.
pub proof fn lemma_file_name_value(id: u64)
    ensures
        numeral_value(file_name(id).skip(3)) == id,
{
    reveal_strlit("cf-");
    lemma_padded_value(id);
    assert(file_name(id).skip(3) =~= zero_padded(decimal(id as nat), 20));
}

proof fn lemma_smaller_id_first(a: u64, b: u64)
    requires
        a < b,
    ensures
        lexicographically_before(file_name(a), file_name(b)),
{
    reveal_strlit("cf-");
    lemma_padded_order(a, b);
    let x = zero_padded(decimal(a as nat), 20);
    let y = zero_padded(decimal(b as nat), 20);
    let i = choose|i: int| first_difference(x, y, i) && x[i] < y[i];
    assert(first_difference(file_name(a), file_name(b), i + 3));
    assert(file_name(a)[i + 3] < file_name(b)[i + 3]);
}

/// File names are ordered if and only if the ids are, and in the same way.
pub proof fn lemma_file_name_order(a: u64, b: u64)
    ensures
        lexicographically_before(file_name(a), file_name(b)) <==> a < b,
{
    lemma_before_is_strict(file_name(a), file_name(b));
    if a < b {
        lemma_smaller_id_first(a, b);
    } else if b < a {
        lemma_smaller_id_first(b, a);
    }
}

/// No two ids share a file name.
pub proof fn lemma_file_name_injective(a: u64, b: u64)
    requires
        file_name(a) == file_name(b),
    ensures
        a == b,
{
    lemma_file_name_value(a);
    lemma_file_name_value(b);
}

/// The path of `name` in `dir`: a separator stands between them unless `dir` is empty or ends in one.
pub open spec fn joined_path(dir: Seq<char>, name: Seq<char>) -> Seq<char> {
    if dir.len() == 0 || dir.last() == '/' {
        dir + name
    } else {
        dir + "/"@ + name
    }
}

/// What the file system says of an open file.
#[derive(Clone, Copy, Debug)]
pub struct FileStat {
    /// Number of [`ST_BLOCK_SIZE`] blocks that the file takes up.
    pub st_blocks: i64,
    /// Length of the file in bytes.
    pub st_size: i64,
}

/// An open cache file.
pub struct CacheFile {
    pub dir: String,
    pub id: u64,
    pub fs_block_size: usize,
    pub block_size: usize,
    pub meta_blocks: usize,
    pub fallocate_unit: usize,
    /// Length in bytes.
    pub len: usize,
    /// Bytes that were allocated ahead.
    pub capacity: usize,
}

impl Clone for CacheFile {
    fn clone(&self) -> (r: Self)
        ensures
            r == *self,
    {
        CacheFile {
            dir: self.dir.clone(),
            id: self.id,
            fs_block_size: self.fs_block_size,
            block_size: self.block_size,
            meta_blocks: self.meta_blocks,
            fallocate_unit: self.fallocate_unit,
            len: self.len,
            capacity: self.capacity,
        }
    }
}

/// What [`CacheFile::open`] gives: the file, and the header block that must be written at its start
/// if it is new.
pub struct Opened {
    pub file: CacheFile,
    pub header: Option<Vec<u8>>,
}

/// `r` is what opening the file that `stat` describes gives, where `first_block` is its first logical
/// block.
///
/// A file that takes up no blocks is new and gets a header, whose last byte is the last one written.
/// The header of any other file must carry the magic bytes and the known version, and decides the
/// block size and the meta blocks.
pub open spec fn opens_as(
    options: CacheFileOptions,
    stat: FileStat,
    first_block: Seq<u8>,
    r: Result<Opened, HeaderError>,
) -> bool {
    if stat.st_blocks == 0 {
        &&& r matches Ok(opened)
        &&& opened.file.placed_by(options)
        &&& opened.file.block_size == options.block_size
        &&& opened.file.meta_blocks == options.meta_blocks
        &&& opened.file.len == LOGICAL_BLOCK_SIZE
        &&& opened.header matches Some(header)
        &&& header@ == header_block(options.block_size as nat, options.meta_blocks as nat)
    } else {
        match r {
            Ok(opened) => {
                &&& first_block.take(18) == magic()
                &&& version_field(first_block) == VERSION
                &&& opened.file.placed_by(options)
                &&& opened.file.block_size == block_size_field(first_block) as usize
                &&& opened.file.meta_blocks == meta_blocks_field(first_block) as usize
                &&& opened.file.len == stat.st_size as usize
                &&& opened.header is None
            },
            Err(HeaderError::MagicMismatch { got }) => {
                &&& first_block.take(18) != magic()
                &&& got@ == first_block.take(18)
            },
            Err(HeaderError::UnsupportedVersion { version }) => {
                &&& first_block.take(18) == magic()
                &&& version as nat == version_field(first_block)
                &&& version != VERSION
            },
        }
    }
}

/// Where a `usize` has 64 bits, a file is opened again with the block size and the meta blocks that it
/// was made with, whatever the options then ask for; and with the length that it had, if nothing but its header was written.
///
/// `made` is what opening the new file gave, and `reopened` what opening it gives once its header
/// was written.
pub proof fn lemma_reopen(
    options: CacheFileOptions,
    stat: FileStat,
    unread: Seq<u8>,
    made: Opened,
    later_options: CacheFileOptions,
    later_stat: FileStat,
    reopened: Result<Opened, HeaderError>,
)
    requires
        usize::BITS == 64,
        stat.st_blocks == 0,
        opens_as(options, stat, unread, Ok(made)),
        later_stat.st_blocks != 0,
        opens_as(later_options, later_stat, made.header->0@, reopened),
    ensures
        reopened matches Ok(opened) && {
            &&& opened.file.block_size == made.file.block_size
            &&& opened.file.meta_blocks == made.file.meta_blocks
            &&& opened.file.len == later_stat.st_size as usize
            &&& later_stat.st_size == made.header->0@.len() ==> opened.file.len == made.file.len
        },
{
    lemma_header_round_trip(options.block_size, options.meta_blocks);
}

/// With aligned options the blocks of a file, and the part that a new file sets aside, are made of
/// whole logical blocks.
pub proof fn lemma_whole_logical_blocks(options: CacheFileOptions)
    requires
        options.aligned(),
    ensures
        options.fs_block_size % LOGICAL_BLOCK_SIZE == 0,
        options.block_size % LOGICAL_BLOCK_SIZE == 0,
        options.new_file_len() % LOGICAL_BLOCK_SIZE as int == 0,
{
    let fs = options.fs_block_size;
    let fs_mask: usize = (fs - 1) as usize;
    let b = options.block_size;
    lemma_logical_block_size();
    lemma_low_bits_clear_is_multiple(LOGICAL_BLOCK_SIZE, fs);
    assert(b % 512 == 0) by (bit_vector)
        requires
            fs > 0,
            fs % 512 == 0,
            fs_mask == fs - 1,
            b & fs_mask == 0,
    ;
    let q = b as int / 512;
    let n = 1 + options.meta_blocks;
    assert(b * n == (q * n) * 512) by (nonlinear_arith)
        requires
            b == q * 512,
    ;
    lemma_mod_multiples_basic(q * n, 512);
}

impl CacheFile {
    /// The file has what `options` give it apart from its block size and its meta blocks.
    pub open spec fn placed_by(self, options: CacheFileOptions) -> bool {
        &&& self.dir@ == options.dir@
        &&& self.id == options.id
        &&& self.fs_block_size == options.fs_block_size
        &&& self.fallocate_unit == options.fallocate_unit
        &&& self.capacity == 0
    }

    /// Opens the file that `stat` describes.
    ///
    /// A file that takes up no blocks is new: its header is made from `options`, and is all that is
    /// written to it. The header of any other file is read from `first_block`, and decides the block
    /// size and the meta blocks.
    pub fn open(options: CacheFileOptions, stat: FileStat, first_block: &[u8]) -> (r: Result<
        Opened,
        HeaderError,
    >)
        requires
            options.aligned(),
            stat.st_blocks != 0 ==> first_block@.len() >= FIELDS_LEN,
        ensures
            opens_as(options, stat, first_block@, r),
    {
        options.assert_sizes();
        let mut header: Option<Vec<u8>> = None;
        let block_size: usize;
        let meta_blocks: usize;
        let len: usize;
        if stat.st_blocks == 0 {
            header = Some(encode_header(options.block_size, options.meta_blocks));
            block_size = options.block_size;
            meta_blocks = options.meta_blocks;
            len = LOGICAL_BLOCK_SIZE;
        } else {
            match decode_header(first_block) {
                Ok(fields) => {
                    block_size = fields.0;
                    meta_blocks = fields.1;
                },
                Err(e) => {
                    return Err(e);
                },
            }
            len = stat.st_size as usize;
        }
        let file = CacheFile {
            dir: options.dir,
            id: options.id,
            fs_block_size: options.fs_block_size,
            block_size,
            meta_blocks,
            fallocate_unit: options.fallocate_unit,
            len,
            capacity: 0,
        };
        Ok(Opened { file, header })
    }

    /// Whether the file holds no bytes.
    pub fn is_empty(&self) -> (r: bool)
        ensures
            r == (self.len == 0),
    {
        self.len() == 0
    }

    /// Length of the file in bytes.
    ///
    /// `len()` stands for the last written byte of the file.
    pub fn len(&self) -> (r: usize)
        ensures
            r == self.len,
    {
        self.len
    }

    /// How much space the file really uses, in bytes, by what the file system says of it now.
    ///
    /// `size()` can differ from `len()` because the file is sparse and pre-allocated.
    pub fn size(&self, stat: FileStat) -> (r: usize)
        requires
            0 <= stat.st_blocks,
            stat.st_blocks * ST_BLOCK_SIZE <= usize::MAX,
        ensures
            r == stat.st_blocks * ST_BLOCK_SIZE,
    {
        stat.st_blocks as usize * ST_BLOCK_SIZE
    }

    /// Where the file lies.
    pub fn path(&self) -> (r: String)
        ensures
            r@ == joined_path(self.dir@, file_name(self.id)),
    {
        let mut out: String = self.dir.clone();
        let count: usize = self.dir.as_str().unicode_len();
        if count > 0 && self.dir.as_str().get_char(count - 1) != '/' {
            out.append("/");
        }
        let name: String = filename(self.id);
        out.append(name.as_str());
        assert(out@ =~= joined_path(self.dir@, file_name(self.id)));
        out
    }
}

/// With file system blocks whose size is a power of two, options are aligned exactly if those blocks
/// are made of logical blocks and the blocks of the file of those, whatever the sizes.
pub proof fn lemma_aligned_is_multiple(options: CacheFileOptions)
    requires
        power_of_two(options.fs_block_size as int),
    ensures
        options.aligned() <==> options.fs_block_size % 512 == 0 && options.block_size
            % options.fs_block_size == 0,
{
    lemma_logical_block_size();
    lemma_low_bits_clear_is_multiple(LOGICAL_BLOCK_SIZE, options.fs_block_size);
    lemma_low_bits_clear_is_multiple(options.fs_block_size, options.block_size);
}

/// A file name begins with `cf-`, and has after that, at each place counted from the right, the digit
/// of the id for that power of ten.
pub proof fn lemma_file_name_digits(id: u64, k: nat)
    requires
        k < 20,
    ensures
        file_name(id).len() == 23,
        file_name(id).take(3) == seq!['c', 'f', '-'],
        file_name(id)[22 - k] as int == 48 + (id as int / pow(10, k)) % 10,
{
    reveal_strlit("cf-");
    lemma_padded_digit(id, k);
    assert(file_name(id).take(3) =~= seq!['c', 'f', '-']);
}

/// The path of a name in a directory begins with the directory and ends with the name. Between them
/// stands one separator, or nothing if the directory is empty or ends in one.
pub proof fn lemma_joined_path(dir: Seq<char>, name: Seq<char>)
    ensures
        ({
            let path = joined_path(dir, name);
            let n = path.len() - name.len();
            &&& dir.is_prefix_of(path)
            &&& path.skip(n) == name
            &&& n == dir.len() || n == dir.len() + 1
            &&& dir.len() > 0 ==> path[n - 1] == '/'
            &&& n == dir.len() <==> dir.len() == 0 || dir.last() == '/'
        }),
{
    reveal_strlit("/");
    let path = joined_path(dir, name);
    assert(path.take(dir.len() as int) =~= dir);
    assert(path.skip(path.len() - name.len()) =~= name);
}

/// A new file, which takes up no blocks, is always opened: with what the options say, the length of
/// its header, and a header made from its block size and meta blocks to be written.
pub proof fn lemma_opens_new(
    options: CacheFileOptions,
    stat: FileStat,
    unread: Seq<u8>,
    r: Result<Opened, HeaderError>,
)
    requires
        stat.st_blocks == 0,
        opens_as(options, stat, unread, r),
    ensures
        r is Ok,
        ({
            let file = r->Ok_0.file;
            &&& file.dir@ == options.dir@
            &&& file.id == options.id
            &&& file.fs_block_size == options.fs_block_size
            &&& file.block_size == options.block_size
            &&& file.meta_blocks == options.meta_blocks
            &&& file.fallocate_unit == options.fallocate_unit
            &&& file.capacity == 0
            &&& file.len == 512
            &&& r->Ok_0.header is Some
            &&& r->Ok_0.header->0@ == header_block(
                options.block_size as nat,
                options.meta_blocks as nat,
            )
        }),
{
}

/// A file that takes up blocks is opened exactly if its first bytes are the name of the format and the
/// known version, and is refused for the first of the two that is wrong. Its header decides the block
/// size and the meta blocks, its status the length, and the options the rest; nothing is written.
pub proof fn lemma_opens_old(
    options: CacheFileOptions,
    stat: FileStat,
    first_block: Seq<u8>,
    r: Result<Opened, HeaderError>,
)
    requires
        stat.st_blocks != 0,
        first_block.len() >= 38,
        opens_as(options, stat, first_block, r),
    ensures
        ({
            let named = forall|i: int|
                0 <= i < 18 ==> #[trigger] first_block[i] as int
                    == "hummock-cache-file"@[i] as int;
            let known = first_block.subrange(18, 22) == seq![0u8, 0u8, 0u8, 1u8];
            &&& r is Ok <==> named && known
            &&& r matches Err(HeaderError::MagicMismatch { got }) ==> !named && got@
                == first_block.take(18)
            &&& r matches Err(HeaderError::UnsupportedVersion { version }) ==> named && !known
                && version == be_value(first_block.subrange(18, 22))
            &&& r matches Ok(opened) ==> {
                &&& opened.file.dir@ == options.dir@
                &&& opened.file.id == options.id
                &&& opened.file.fs_block_size == options.fs_block_size
                &&& opened.file.block_size == be_value(first_block.subrange(22, 30)) as usize
                &&& opened.file.meta_blocks == be_value(first_block.subrange(30, 38)) as usize
                &&& opened.file.fallocate_unit == options.fallocate_unit
                &&& opened.file.capacity == 0
                &&& opened.file.len == stat.st_size as usize
                &&& opened.header is None
            }
        }),
{
    lemma_magic();
    lemma_known_version(first_block);
    let head = first_block.take(18);
    let named = forall|i: int|
        0 <= i < 18 ==> #[trigger] first_block[i] as int == "hummock-cache-file"@[i] as int;
    if head == magic() {
        assert forall|i: int| 0 <= i < 18 implies #[trigger] first_block[i] as int
            == "hummock-cache-file"@[i] as int by {
            assert(head[i] == magic()[i]);
        }
    }
    if named {
        assert forall|i: int| 0 <= i < 18 implies head[i] == magic()[i] by {
            assert(first_block[i] as int == "hummock-cache-file"@[i] as int);
        }
        assert(head =~= magic());
    }
}

/// What a new file sets aside is one block for its header and one for each meta block.
pub proof fn lemma_new_file_len(options: CacheFileOptions)
    ensures
        options.meta_blocks == 0 ==> options.new_file_len() == options.block_size,
        options.new_file_len() == options.block_size + options.meta_blocks * options.block_size,
{
    let b = options.block_size as int;
    let m = options.meta_blocks as int;
    assert(b * (1 + m) == b + m * b) by (nonlinear_arith);
}

} // verus!
