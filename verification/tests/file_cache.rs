use risingwave_core::file_cache::align::{
    align_up, assert_alignment, assert_pow2, is_aligned, is_pow2,
};
use risingwave_core::file_cache::big_endian::push_be;
use risingwave_core::file_cache::file::{filename, CacheFile, CacheFileOptions, FileStat};
use risingwave_core::file_cache::header::{
    decode_header, encode_header, HeaderError, LOGICAL_BLOCK_SIZE,
};

fn options(dir: &str, id: u64) -> CacheFileOptions {
    CacheFileOptions {
        dir: dir.to_string(),
        id,
        fs_block_size: 4096,
        block_size: 4096,
        meta_blocks: 64,
        fallocate_unit: 64 * 1024 * 1024,
    }
}

fn is_send_sync_clone<T: Send + Sync + Clone + 'static>() {}

#[test]
fn ensure_send_sync_clone() {
    is_send_sync_clone::<CacheFile>();
}

#[test]
fn test_file_cache() {
    let options = options("/tmp/cache", 1);
    assert!(options.is_valid());
    options.assert_sizes();
    let opened = CacheFile::open(options, FileStat { st_blocks: 0, st_size: 0 }, &[]).unwrap();
    let cf = opened.file;
    assert_eq!(cf.block_size, 4096);
    assert_eq!(cf.meta_blocks, 64);
    assert_eq!(cf.fs_block_size, 4096);
    assert_eq!(cf.fallocate_unit, 64 * 1024 * 1024);
    assert_eq!(cf.capacity, 0);
    assert_eq!(cf.len(), LOGICAL_BLOCK_SIZE);
    assert!(!cf.is_empty());
    assert_eq!(cf.size(FileStat { st_blocks: 8, st_size: 0 }), 4096);
    assert_eq!(opened.header.unwrap().len(), LOGICAL_BLOCK_SIZE);
    let copy = cf.clone();
    assert_eq!(copy.path(), "/tmp/cache/cf-00000000000000000001");
    assert_eq!(copy.len(), cf.len());
}

#[test]
fn header_layout() {
    let block = encode_header(4096, 64);
    let mut expected: Vec<u8> = b"hummock-cache-file".to_vec();
    expected.extend_from_slice(&1u32.to_be_bytes());
    expected.extend_from_slice(&4096usize.to_be_bytes());
    expected.extend_from_slice(&64usize.to_be_bytes());
    expected.resize(512, 0);
    assert_eq!(block, expected);
}

#[test]
fn header_round_trip() {
    for (b, m) in [(0usize, 0usize), (4096, 64), (usize::MAX, 1), (0x0102030405060708, usize::MAX)] {
        let block = encode_header(b, m);
        assert_eq!(decode_header(&block).unwrap(), (b, m));
        // the fields alone are enough
        assert_eq!(decode_header(&block[..38]).unwrap(), (b, m));
    }
}

#[test]
fn fields_are_big_endian() {
    let mut block = encode_header(0, 0);
    block[22..38].copy_from_slice(&[1, 2, 3, 4, 5, 6, 7, 8, 9, 10, 11, 12, 13, 14, 15, 16]);
    assert_eq!(
        decode_header(&block).unwrap(),
        (0x0102030405060708, 0x090a0b0c0d0e0f10)
    );
    let mut out: Vec<u8> = vec![7];
    push_be(&mut out, 0x0102, 3);
    assert_eq!(out, vec![7, 0, 1, 2]);
}

#[test]
fn wrong_magic() {
    let mut block = encode_header(4096, 64);
    block[0] = b'H';
    match decode_header(&block) {
        Err(e) => {
            let magic: &[u8] = b"hummock-cache-file";
            let got: &[u8] = b"Hummock-cache-file";
            assert!(matches!(&e, HeaderError::MagicMismatch { got: g } if g.as_slice() == got));
            assert_eq!(
                e.message(),
                format!("magic mismatch, expected: {:?}, got: {:?}", magic, got)
            );
        }
        Ok(_) => panic!("the magic bytes differ"),
    }
}

#[test]
fn wrong_version() {
    let mut block = encode_header(4096, 64);
    block[18..22].copy_from_slice(&0x01020304u32.to_be_bytes());
    match decode_header(&block) {
        Err(HeaderError::UnsupportedVersion { version }) => assert_eq!(version, 0x01020304),
        _ => panic!("the version differs"),
    }
    let e = HeaderError::UnsupportedVersion { version: 16909060 };
    assert_eq!(e.message(), "unsupported version: 16909060");
}

#[test]
fn reopen_keeps_the_block_size() {
    let made = CacheFile::open(options("d", 7), FileStat { st_blocks: 0, st_size: 0 }, &[]).unwrap();
    let header = made.header.unwrap();
    let mut other = options("d", 7);
    other.block_size = 8192;
    other.meta_blocks = 1;
    let stat = FileStat { st_blocks: 1, st_size: 512 };
    let again = CacheFile::open(other, stat, &header).unwrap();
    assert_eq!(again.file.block_size, 4096);
    assert_eq!(again.file.meta_blocks, 64);
    assert_eq!(again.file.len(), 512);
    assert!(again.header.is_none());

    let empty = FileStat { st_blocks: 1, st_size: 0 };
    assert!(CacheFile::open(options("d", 7), empty, &header).unwrap().file.is_empty());
    assert!(CacheFile::open(options("d", 7), stat, &[0; 512]).is_err());
}

#[test]
fn file_names() {
    assert_eq!(filename(0), "cf-00000000000000000000");
    assert_eq!(filename(1), "cf-00000000000000000001");
    assert_eq!(filename(12345), "cf-00000000000000012345");
    assert_eq!(filename(u64::MAX), "cf-18446744073709551615");
    for id in [0u64, 9, 10, 99, 1_000_000_007, u64::MAX - 1] {
        assert_eq!(filename(id), format!("cf-{:020}", id));
        assert!(filename(id) < filename(id + 1));
        assert!(!(filename(id + 1) < filename(id)));
        assert!(!(filename(id) < filename(id)));
        assert_eq!(filename(id).len(), 23);
        assert_eq!(filename(id)[3..].parse::<u64>().unwrap(), id);
    }
}

#[test]
fn paths() {
    let stat = FileStat { st_blocks: 0, st_size: 0 };
    for dir in ["", "/", "a", "a/", "/var/cache", "\u{e9}t\u{e9}"] {
        let file = CacheFile::open(options(dir, 3), stat, &[]).unwrap().file;
        let expected = std::path::PathBuf::from(dir).join(filename(3));
        assert_eq!(file.path(), expected.to_str().unwrap());
    }
}

#[test]
fn option_checks() {
    assert!(options("d", 1).is_valid());
    let mut o = options("d", 1);
    o.fs_block_size = 100;
    assert!(!o.is_valid());
    let mut o = options("d", 1);
    o.block_size = 4097;
    assert!(!o.is_valid());
    let mut o = options("d", 1);
    o.fs_block_size = 0;
    assert!(!o.is_valid());
    // the bits agree, but the block size is no multiple
    let mut o = options("d", 1);
    o.fs_block_size = 1536;
    o.block_size = 512;
    assert!(!o.is_valid());

    assert_eq!(options("d", 1).reserved_len(), Some(4096 * 65));
    let mut o = options("d", 1);
    o.meta_blocks = usize::MAX;
    assert_eq!(o.reserved_len(), None);
    o.block_size = 0;
    assert_eq!(o.reserved_len(), Some(0));
    let mut o = options("d", 1);
    o.block_size = usize::MAX - 4095;
    o.meta_blocks = 1;
    assert_eq!(o.reserved_len(), None);
}

#[test]
fn alignment() {
    assert!(!is_pow2(0));
    assert!(is_pow2(1));
    assert!(is_pow2(512));
    assert!(!is_pow2(513));
    assert!(is_pow2(1 << 63));
    assert_pow2(4096);
    assert!(is_aligned(512, 1024));
    assert!(!is_aligned(512, 1000));
    assert!(is_aligned(1, 77));
    assert_alignment(4096, 8192);

    assert_eq!(align_up(512, 0), 0);
    assert_eq!(align_up(512, 1), 512);
    assert_eq!(align_up(512, 512), 512);
    assert_eq!(align_up(512, 513), 1024);
    assert_eq!(align_up(1, 77), 77);
    // not a power of two: only the bits are masked
    assert_eq!(align_up(6, 7), 12 & !5);
}
