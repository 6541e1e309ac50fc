use dir_splitter::archive::{zip_dir, ArchiveError, TreeItem};
use std::io::{Cursor, Read};

fn segs(parts: &[&str]) -> Vec<String> {
    parts.iter().map(|s| s.to_string()).collect()
}

fn dir(parts: &[&str]) -> TreeItem {
    TreeItem { path: segs(parts), data: None }
}

fn file(parts: &[&str], data: &[u8]) -> TreeItem {
    TreeItem { path: segs(parts), data: Some(data.to_vec()) }
}

#[test]
fn archive_holds_one_entry_per_item() {
    let root = segs(&["/", "out"]);
    let items = vec![
        dir(&["/", "out", "0"]),
        file(&["/", "out", "0", "a.txt"], b"hello"),
        dir(&["/", "out", "0", "sub"]),
        file(&["/", "out", "0", "sub", "b.bin"], &[0u8, 1, 2, 3]),
        dir(&["/", "out", "0", "empty"]),
    ];
    let bytes = zip_dir(&root, &items).ok().unwrap();
    let mut archive = zip::ZipArchive::new(Cursor::new(bytes)).unwrap();
    assert_eq!(archive.len(), 5);
    let names: Vec<String> = (0..archive.len()).map(|i| archive.by_index(i).unwrap().name().to_string()).collect();
    assert_eq!(names, vec!["/", "/a.txt", "/sub/", "/sub/b.bin", "/empty/"]);
    for n in &names {
        assert!(n.starts_with('/'));
        assert!(!n.contains("out"));
    }
    let mut s = String::new();
    archive.by_name("/a.txt").unwrap().read_to_string(&mut s).unwrap();
    assert_eq!(s, "hello");
    let mut b = Vec::new();
    archive.by_name("/sub/b.bin").unwrap().read_to_end(&mut b).unwrap();
    assert_eq!(b, vec![0u8, 1, 2, 3]);
    assert!(archive.by_name("/empty/").unwrap().is_dir());
}

#[test]
fn entries_carry_the_fixed_mode() {
    let root = segs(&["/", "out"]);
    let items = vec![dir(&["/", "out", "0"]), file(&["/", "out", "0", "a.txt"], b"abc"), dir(&["/", "out", "0", "d"])];
    let bytes = zip_dir(&root, &items).ok().unwrap();
    let mut archive = zip::ZipArchive::new(Cursor::new(bytes)).unwrap();
    for i in 0..archive.len() {
        let entry = archive.by_index(i).unwrap();
        assert_eq!(entry.unix_mode().unwrap() & 0o777, 0o755);
        if entry.is_file() {
            assert_eq!(entry.compression(), zip::CompressionMethod::Deflated);
        }
    }
}

#[test]
fn directory_names_gain_one_trailing_separator() {
    let root = segs(&["/", "out"]);
    let items = vec![dir(&["/", "out", "0"]), dir(&["/", "out", "0", "x"])];
    let bytes = zip_dir(&root, &items).ok().unwrap();
    let archive = zip::ZipArchive::new(Cursor::new(bytes)).unwrap();
    let names: Vec<&str> = archive.file_names().collect();
    assert!(names.contains(&"/"));
    assert!(names.contains(&"/x/"));
    assert_eq!(names.len(), 2);
}

#[test]
fn empty_partition_makes_an_empty_archive() {
    let bytes = zip_dir(&segs(&["/", "out"]), &Vec::new()).ok().unwrap();
    let archive = zip::ZipArchive::new(Cursor::new(bytes)).unwrap();
    assert_eq!(archive.len(), 0);
}

#[test]
fn item_outside_the_root_is_refused() {
    let root = segs(&["/", "out"]);
    let items = vec![
        file(&["/", "out", "0", "a.txt"], b"x"),
        file(&["/", "elsewhere", "0", "b.txt"], b"y"),
        dir(&["/", "out"]),
    ];
    match zip_dir(&root, &items) {
        Err(ArchiveError::OutsideRoot { index }) => assert_eq!(index, 1),
        other => panic!("expected an outside-root error, got {:?}", other.map(|b| b.len())),
    }
}
