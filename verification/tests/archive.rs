use ardain::error::{DecompressError, Error, ParseError};
use ardain::fs::Filesystem;
use ardain::path::ArchivePath;
use xc3_lib::xbc1::{CompressionType, Xbc1};

fn push_u16(buf: &mut Vec<u8>, v: u16) {
    buf.extend_from_slice(&v.to_le_bytes());
}

fn push_u32(buf: &mut Vec<u8>, v: u32) {
    buf.extend_from_slice(&v.to_le_bytes());
}

fn push_u64(buf: &mut Vec<u8>, v: u64) {
    buf.extend_from_slice(&v.to_le_bytes());
}

fn push_record(buf: &mut Vec<u8>, offset: u64, stored: u32, actual: u64, flag: u8) {
    push_u64(buf, offset);
    push_u32(buf, stored);
    push_u64(buf, actual);
    buf.push(flag);
}

fn push_dir(buf: &mut Vec<u8>, name: &str, child_count: u32) {
    buf.push(0);
    push_u16(buf, name.len() as u16);
    buf.extend_from_slice(name.as_bytes());
    push_u32(buf, child_count);
}

fn push_file(buf: &mut Vec<u8>, name: &str, index: u32) {
    buf.push(1);
    push_u16(buf, name.len() as u16);
    buf.extend_from_slice(name.as_bytes());
    push_u32(buf, index);
}

fn header(buf: &mut Vec<u8>, file_count: u32) {
    buf.extend_from_slice(b"ARH1");
    push_u32(buf, file_count);
}

/// An archive with a raw file `/sub/a.txt` ("hello") and a zlib-compressed
/// file `/big.bin`, plus the data blob that backs it.
fn sample_archive() -> (Vec<u8>, Vec<u8>, Vec<u8>) {
    let payload: Vec<u8> = (0u32..1000).map(|i| (i % 251) as u8).collect();
    let container = Xbc1::from_decompressed("big".to_string(), &payload, CompressionType::Zlib)
        .unwrap()
        .to_bytes()
        .unwrap();

    let mut data = vec![0xAA, 0xBB];
    data.extend_from_slice(b"hello");
    let container_offset = data.len() as u64;
    data.extend_from_slice(&container);

    let mut index = Vec::new();
    header(&mut index, 2);
    push_record(&mut index, 2, 5, 5, 0);
    push_record(
        &mut index,
        container_offset,
        container.len() as u32,
        payload.len() as u64,
        1,
    );
    push_u32(&mut index, 2); // root children
    push_dir(&mut index, "sub", 1);
    push_file(&mut index, "a.txt", 0);
    push_file(&mut index, "big.bin", 1);

    (index, data, payload)
}

#[test]
fn load_succeeds_on_sample() {
    let (index, data, _) = sample_archive();
    let fs = Filesystem::load(&index, data).unwrap();
    let root = fs.get_dir(&ArchivePath::parse("/")).unwrap();
    match &root.entry {
        ardain::tree::DirEntry::Directory { children } => {
            assert_eq!(children.len(), 2);
            assert_eq!(children[0].name, "sub");
            assert_eq!(children[1].name, "big.bin");
        }
        _ => panic!("root must be a directory"),
    }
}

#[test]
fn get_dir_root_matches_declared_order() {
    let (index, data, _) = sample_archive();
    let fs = Filesystem::load(&index, data).unwrap();
    let root = fs.get_dir(&ArchivePath::default()).unwrap();
    let ardain::tree::DirEntry::Directory { children } = &root.entry else {
        panic!("root must be a directory");
    };
    let names: Vec<&str> = children.iter().map(|c| c.name.as_str()).collect();
    assert_eq!(names, vec!["sub", "big.bin"]);
    let sub = fs.get_dir(&ArchivePath::parse("/sub")).unwrap();
    let ardain::tree::DirEntry::Directory { children } = &sub.entry else {
        panic!("sub must be a directory");
    };
    assert_eq!(children.len(), 1);
    assert_eq!(children[0].name, "a.txt");
}

#[test]
fn get_file_info_and_actual_size() {
    let (index, data, payload) = sample_archive();
    let fs = Filesystem::load(&index, data).unwrap();
    let info = fs.get_file_info(&ArchivePath::parse("/sub/a.txt")).unwrap();
    assert_eq!(info.actual_size(), 5);
    assert!(!info.is_compressed());
    let info = fs.get_file_info(&ArchivePath::parse("/big.bin")).unwrap();
    assert_eq!(info.actual_size(), payload.len() as u64);
    assert!(info.is_compressed());
}

#[test]
fn fetch_uncompressed_equals_raw_slice() {
    let (index, data, _) = sample_archive();
    let data_copy = data.clone();
    let fs = Filesystem::load(&index, data).unwrap();
    let path = ArchivePath::parse("/sub/a.txt");
    let bytes = fs.fetch_bytes(&path).unwrap();
    let info = fs.get_file_info(&path).unwrap();
    assert_eq!(bytes.len() as u64, info.actual_size());
    assert_eq!(bytes, b"hello");
    let offset = info.offset as usize;
    assert_eq!(&data_copy[offset..offset + 5], &bytes[..]);
}

#[test]
fn fetch_compressed_yields_actual_size_bytes() {
    let (index, data, payload) = sample_archive();
    let fs = Filesystem::load(&index, data).unwrap();
    let path = ArchivePath::parse("/big.bin");
    let bytes = fs.fetch_bytes(&path).unwrap();
    let info = fs.get_file_info(&path).unwrap();
    assert_eq!(bytes.len() as u64, info.actual_size());
    assert_eq!(bytes, payload);
}

#[test]
fn out_of_range_read_is_io_error() {
    let (index, mut data, _) = sample_archive();
    // Shorten the blob itself: the stored range now ends past its end.
    data.truncate(data.len() - 1);
    let fs = Filesystem::load(&index, data).unwrap();
    let r = fs.fetch_bytes(&ArchivePath::parse("/big.bin"));
    assert_eq!(r.unwrap_err(), Error::Io);
}

#[test]
fn truncated_stored_bytes_produce_decompress_error() {
    let (mut index, data, _) = sample_archive();
    // Shrink the declared stored size of the compressed entry by one byte:
    // the container is cut short and must fail loudly, never come up short.
    let stored_field = 8 + 21 + 8;
    let stored = u32::from_le_bytes(index[stored_field..stored_field + 4].try_into().unwrap());
    index[stored_field..stored_field + 4].copy_from_slice(&(stored - 1).to_le_bytes());
    let fs = Filesystem::load(&index, data).unwrap();
    let r = fs.fetch_bytes(&ArchivePath::parse("/big.bin"));
    assert!(matches!(r.unwrap_err(), Error::Decompress(_)));
}

#[test]
fn corrupt_compressed_container_is_decompress_error() {
    let (index, mut data, _) = sample_archive();
    // Corrupt the container magic inside the stored range.
    data[7] ^= 0xFF;
    let fs = Filesystem::load(&index, data).unwrap();
    let r = fs.fetch_bytes(&ArchivePath::parse("/big.bin"));
    assert!(matches!(r, Err(Error::Decompress(_))));
}

#[test]
fn declared_size_mismatch_is_reported_not_truncated() {
    let (mut index, data, payload) = sample_archive();
    // Enlarge the declared actual size of the compressed entry by one: the
    // stream still decodes, but to one byte fewer than declared.
    let actual_field = 8 + 21 + 12;
    let declared = (payload.len() + 1) as u64;
    index[actual_field..actual_field + 8].copy_from_slice(&declared.to_le_bytes());
    let fs = Filesystem::load(&index, data).unwrap();
    let r = fs.fetch_bytes(&ArchivePath::parse("/big.bin"));
    assert_eq!(
        r.unwrap_err(),
        Error::Decompress(DecompressError::LengthMismatch {
            found: payload.len() as u64,
            expected: declared,
        })
    );
}

#[test]
fn resolving_through_file_is_wrong_entry_kind() {
    let (index, data, _) = sample_archive();
    let fs = Filesystem::load(&index, data).unwrap();
    let r = fs.get_file_info(&ArchivePath::parse("/sub/a.txt/deeper"));
    assert_eq!(r.unwrap_err(), Error::WrongEntryKind);
    assert!(fs.get_dir(&ArchivePath::parse("/sub/a.txt/deeper")).is_none());
}

#[test]
fn file_where_directory_expected_is_wrong_entry_kind() {
    let (index, data, _) = sample_archive();
    let fs = Filesystem::load(&index, data).unwrap();
    let r = fs.get_file_info(&ArchivePath::parse("/sub"));
    assert_eq!(r.unwrap_err(), Error::WrongEntryKind);
}

#[test]
fn missing_top_level_name_is_not_found() {
    let (index, data, _) = sample_archive();
    let fs = Filesystem::load(&index, data).unwrap();
    assert_eq!(
        fs.get_file_info(&ArchivePath::parse("/absent")).unwrap_err(),
        Error::NotFound
    );
    assert_eq!(
        fs.fetch_bytes(&ArchivePath::parse("/sub/absent")).unwrap_err(),
        Error::NotFound
    );
}

#[test]
fn resolution_is_deterministic() {
    let (index, data, _) = sample_archive();
    let fs = Filesystem::load(&index, data).unwrap();
    let path = ArchivePath::parse("/big.bin");
    let a = fs.get_file_info(&path).unwrap();
    let b = fs.get_file_info(&path).unwrap();
    assert_eq!(a, b);
    let x = fs.fetch_bytes(&path).unwrap();
    let y = fs.fetch_bytes(&path).unwrap();
    assert_eq!(x, y);
}

#[test]
fn compressed_fetch_fails_deterministically() {
    let (index, mut data, _) = sample_archive();
    data[7] ^= 0xFF; // corrupt the container magic inside the stored range
    let fs = Filesystem::load(&index, data).unwrap();
    let path = ArchivePath::parse("/big.bin");
    let a = fs.fetch_bytes(&path).unwrap_err();
    let b = fs.fetch_bytes(&path).unwrap_err();
    assert_eq!(a, b);
    assert!(matches!(a, Error::Decompress(_)));
}

#[test]
fn bad_magic_is_rejected() {
    let (mut index, data, _) = sample_archive();
    index[0] = b'X';
    let r = Filesystem::load(&index, data);
    assert_eq!(r.unwrap_err(), Error::Parse(ParseError::BadMagic));
}

#[test]
fn truncated_header_is_rejected() {
    let r = Filesystem::load(&vec![0x41, 0x52], Vec::new());
    assert_eq!(r.unwrap_err(), Error::Parse(ParseError::Truncated));
}

#[test]
fn negative_actual_size_is_size_conversion_error() {
    let mut index = Vec::new();
    header(&mut index, 1);
    push_record(&mut index, 0, 1, u64::MAX, 0); // signed value -1
    push_u32(&mut index, 0);
    let r = Filesystem::load(&index, Vec::new());
    assert_eq!(r.unwrap_err(), Error::SizeConvert);
}

#[test]
fn unknown_compression_flag_is_rejected() {
    let mut index = Vec::new();
    header(&mut index, 1);
    push_record(&mut index, 0, 1, 1, 2);
    push_u32(&mut index, 0);
    let r = Filesystem::load(&index, Vec::new());
    assert_eq!(r.unwrap_err(), Error::Parse(ParseError::BadTag));
}

#[test]
fn uncompressed_size_mismatch_is_rejected() {
    let mut index = Vec::new();
    header(&mut index, 1);
    push_record(&mut index, 0, 4, 5, 0);
    push_u32(&mut index, 0);
    let r = Filesystem::load(&index, Vec::new());
    assert_eq!(r.unwrap_err(), Error::Parse(ParseError::SizeMismatch));
}

#[test]
fn wrapping_stored_range_is_rejected() {
    let mut index = Vec::new();
    header(&mut index, 1);
    push_record(&mut index, u64::MAX, 1, 1, 1);
    push_u32(&mut index, 0);
    let r = Filesystem::load(&index, Vec::new());
    assert_eq!(r.unwrap_err(), Error::Parse(ParseError::RangeOverflow));
}

#[test]
fn file_index_out_of_range_is_rejected() {
    let mut index = Vec::new();
    header(&mut index, 0);
    push_u32(&mut index, 1);
    push_file(&mut index, "a", 0);
    let r = Filesystem::load(&index, Vec::new());
    assert_eq!(r.unwrap_err(), Error::Parse(ParseError::BadFileIndex));
}

#[test]
fn empty_child_name_is_rejected() {
    let mut index = Vec::new();
    header(&mut index, 0);
    push_u32(&mut index, 1);
    push_dir(&mut index, "", 0);
    let r = Filesystem::load(&index, Vec::new());
    assert_eq!(r.unwrap_err(), Error::Parse(ParseError::BadName));
}

#[test]
fn separator_in_child_name_is_rejected() {
    let mut index = Vec::new();
    header(&mut index, 0);
    push_u32(&mut index, 1);
    push_dir(&mut index, "a/b", 0);
    let r = Filesystem::load(&index, Vec::new());
    assert_eq!(r.unwrap_err(), Error::Parse(ParseError::BadName));
}

#[test]
fn trailing_bytes_are_rejected() {
    let mut index = Vec::new();
    header(&mut index, 0);
    push_u32(&mut index, 0);
    index.push(0);
    let r = Filesystem::load(&index, Vec::new());
    assert_eq!(r.unwrap_err(), Error::Parse(ParseError::TrailingData));
}

#[test]
fn truncated_record_is_rejected() {
    let mut index = Vec::new();
    header(&mut index, 0);
    push_u32(&mut index, 1);
    index.push(0); // a record of one byte
    let r = Filesystem::load(&index, Vec::new());
    assert_eq!(r.unwrap_err(), Error::Parse(ParseError::Truncated));
}

#[test]
fn fetch_on_directory_is_wrong_entry_kind() {
    let (index, data, _) = sample_archive();
    let fs = Filesystem::load(&index, data).unwrap();
    assert_eq!(
        fs.fetch_bytes(&ArchivePath::parse("/sub")).unwrap_err(),
        Error::WrongEntryKind
    );
}

#[test]
fn duplicate_names_resolve_to_first_match() {
    let mut index = Vec::new();
    header(&mut index, 2);
    push_record(&mut index, 0, 1, 1, 0);
    push_record(&mut index, 1, 1, 1, 0);
    push_u32(&mut index, 2);
    push_file(&mut index, "twin", 0);
    push_file(&mut index, "twin", 1);
    let fs = Filesystem::load(&index, vec![0x10, 0x20]).unwrap();
    // Duplicate names are preserved in the tree; lookup picks the first.
    let info = fs.get_file_info(&ArchivePath::parse("/twin")).unwrap();
    assert_eq!(info.offset, 0);
    assert_eq!(fs.fetch_bytes(&ArchivePath::parse("/twin")).unwrap(), vec![0x10]);
}

#[test]
fn lookup_is_case_sensitive() {
    let (index, data, _) = sample_archive();
    let fs = Filesystem::load(&index, data).unwrap();
    assert_eq!(
        fs.get_file_info(&ArchivePath::parse("/Sub/a.txt")).unwrap_err(),
        Error::NotFound
    );
}

#[test]
fn empty_directory_is_valid_and_distinct_from_missing() {
    let mut index = Vec::new();
    header(&mut index, 0);
    push_u32(&mut index, 1);
    push_dir(&mut index, "empty", 0);
    let fs = Filesystem::load(&index, Vec::new()).unwrap();
    let d = fs.get_dir(&ArchivePath::parse("/empty")).unwrap();
    let ardain::tree::DirEntry::Directory { children } = &d.entry else {
        panic!("expected a directory");
    };
    assert!(children.is_empty());
    assert!(fs.get_dir(&ArchivePath::parse("/missing")).is_none());
}
