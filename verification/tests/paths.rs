use ardain::listing::{list_directory, u64_to_decimal, ListArgs, Table};
use ardain::fs::Filesystem;
use ardain::path::ArchivePath;

#[test]
fn parse_render_round_trip() {
    let p = ArchivePath::parse("/sub/a.txt");
    let q = ArchivePath::parse(&p.render());
    assert!(p == q);
    let root = ArchivePath::parse("");
    assert_eq!(root.render(), "/");
    assert!(ArchivePath::parse(&root.render()) == root);
}

#[test]
fn parse_normalizes_separators() {
    let a = ArchivePath::parse("a//b/");
    let b = ArchivePath::parse("/a/b");
    assert!(a == b);
    assert_eq!(a.render(), "/a/b");
    assert!(ArchivePath::parse("/") == ArchivePath::parse(""));
}

#[test]
fn default_path_is_root() {
    let d = ArchivePath::default();
    assert!(d == ArchivePath::root());
    assert_eq!(d.render(), "/");
}

#[test]
fn child_concatenation() {
    let p = ArchivePath::parse("/sub");
    let c = p.child("a.txt");
    assert!(c == ArchivePath::parse("/sub/a.txt"));
    assert_eq!(c.render(), "/sub/a.txt");
}

#[test]
fn paths_compare_by_segments() {
    assert!(ArchivePath::parse("/a/b") != ArchivePath::parse("/a/c"));
    assert!(ArchivePath::parse("/a") != ArchivePath::parse("/a/b"));
}

#[test]
fn decimal_rendering_is_exact() {
    assert_eq!(u64_to_decimal(0), "0");
    assert_eq!(u64_to_decimal(7), "7");
    assert_eq!(u64_to_decimal(12034), "12034");
    assert_eq!(u64_to_decimal(u64::MAX), "18446744073709551615");
}

#[test]
fn push_row_tracks_column_widths() {
    let mut t = Table::default();
    t.push_row(vec!["Name".to_string(), "Type".to_string(), "Size".to_string()]);
    assert_eq!(t.lens, vec![4, 4, 4]);
    t.push_row(vec!["longer".to_string(), "x".to_string()]);
    assert_eq!(t.lens, vec![6, 4, 4]);
    t.push_row(vec!["a".to_string(), "b".to_string(), "c".to_string(), "dd".to_string()]);
    assert_eq!(t.lens, vec![6, 4, 4, 2]);
    assert_eq!(t.rows.len(), 3);
}

#[test]
fn render_lines_pads_to_column_widths() {
    let mut t = Table::new();
    t.push_row(vec!["Name".to_string(), "Type".to_string()]);
    t.push_row(vec!["a".to_string(), "Directory".to_string()]);
    let lines = t.render_lines();
    assert_eq!(lines.len(), 2);
    assert_eq!(lines[0], "Name  Type       ");
    assert_eq!(lines[1], "a     Directory  ");
}

fn tiny_archive() -> Filesystem {
    let mut index = Vec::new();
    index.extend_from_slice(b"ARH1");
    index.extend_from_slice(&1u32.to_le_bytes());
    // one raw file of three bytes at offset 0
    index.extend_from_slice(&0u64.to_le_bytes());
    index.extend_from_slice(&3u32.to_le_bytes());
    index.extend_from_slice(&3u64.to_le_bytes());
    index.push(0);
    // root: a directory "docs" with one file, and a top-level file "x"
    index.extend_from_slice(&2u32.to_le_bytes());
    index.push(0);
    index.extend_from_slice(&4u16.to_le_bytes());
    index.extend_from_slice(b"docs");
    index.extend_from_slice(&1u32.to_le_bytes());
    index.push(1);
    index.extend_from_slice(&5u16.to_le_bytes());
    index.extend_from_slice(b"x.bin");
    index.extend_from_slice(&0u32.to_le_bytes());
    index.push(1);
    index.extend_from_slice(&1u16.to_le_bytes());
    index.extend_from_slice(b"x");
    index.extend_from_slice(&0u32.to_le_bytes());
    Filesystem::load(&index, vec![1, 2, 3]).unwrap()
}

#[test]
fn listing_root_with_header() {
    let fs = tiny_archive();
    let args = ListArgs { working_directory: None, raw: false };
    let (table, dirs, files) = list_directory(&fs, &args).unwrap();
    assert_eq!(dirs, 1);
    assert_eq!(files, 1);
    assert_eq!(table.rows.len(), 4);
    assert_eq!(table.rows[0], vec!["Name", "Type", "Size"]);
    assert_eq!(table.rows[1], vec!["----", "----", "----"]);
    assert_eq!(table.rows[2], vec!["docs", "Directory", "--"]);
    assert_eq!(table.rows[3], vec!["x", "File", "3"]);
}

#[test]
fn listing_subdirectory_raw() {
    let fs = tiny_archive();
    let args = ListArgs {
        working_directory: Some(ArchivePath::parse("/docs")),
        raw: true,
    };
    let (table, dirs, files) = list_directory(&fs, &args).unwrap();
    assert_eq!((dirs, files), (0, 1));
    assert_eq!(table.rows.len(), 1);
    assert_eq!(table.rows[0], vec!["x.bin", "File", "3"]);
}

#[test]
fn listing_a_file_is_wrong_entry_kind() {
    let fs = tiny_archive();
    let args = ListArgs {
        working_directory: Some(ArchivePath::parse("/x")),
        raw: true,
    };
    assert_eq!(
        list_directory(&fs, &args).unwrap_err(),
        ardain::error::Error::WrongEntryKind
    );
}

#[test]
fn listing_missing_directory_is_not_found() {
    let fs = tiny_archive();
    let args = ListArgs {
        working_directory: Some(ArchivePath::parse("/nope")),
        raw: true,
    };
    assert_eq!(
        list_directory(&fs, &args).unwrap_err(),
        ardain::error::Error::NotFound
    );
}
