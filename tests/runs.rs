use dir_splitter::archive::{zip_dir, TreeItem};
use dir_splitter::partition::{split_dir, Config, SourceFile};
use dir_splitter::paths::{archive_name, decimal_string, mirror_destination};
use std::io::Cursor;

fn segs(parts: &[&str]) -> Vec<String> {
    parts.iter().map(|s| s.to_string()).collect()
}

/// Assigns the files, mirrors them in memory and packs each partition;
/// returns each archive's name with the number of files it holds.
fn run(sizes: &[u64], retain_history: bool) -> Vec<(String, usize)> {
    let source_root = segs(&["/", "src"]);
    let dest_root = segs(&["/", "out"]);
    let files: Vec<SourceFile> = sizes
        .iter()
        .enumerate()
        .map(|(i, s)| SourceFile { path: format!("/src/f{}", i), size: *s })
        .collect();
    let config = Config { max_size: 10, retain_history };
    let (set, placements) = split_dir(&config, &files).ok().unwrap();
    let mut result = Vec::new();
    for id in 0..set.next_id {
        let dir_name = decimal_string(id);
        let mut partition_dir = dest_root.clone();
        partition_dir.push(dir_name.clone());
        let mut items = vec![TreeItem { path: partition_dir, data: None }];
        for (i, p) in placements.iter().enumerate() {
            if p.id == id {
                let file = segs(&["/", "src", &format!("f{}", i)]);
                let dest = mirror_destination(&source_root, &dest_root, id, &file).unwrap();
                items.push(TreeItem { path: dest, data: Some(vec![b'x'; sizes[i] as usize]) });
            }
        }
        let bytes = zip_dir(&dest_root, &items).ok().unwrap();
        let archive = zip::ZipArchive::new(Cursor::new(bytes)).unwrap();
        let n_files = archive.file_names().filter(|n| !n.ends_with('/')).count();
        result.push((archive_name(&dir_name), n_files));
    }
    result
}

#[test]
fn scenario_two_archives() {
    assert_eq!(run(&[6, 6, 3], true), vec![("0.zip".to_string(), 2), ("1.zip".to_string(), 1)]);
}

#[test]
fn scenario_three_archives_without_history() {
    assert_eq!(
        run(&[6, 6, 6], false),
        vec![("0.zip".to_string(), 1), ("1.zip".to_string(), 1), ("2.zip".to_string(), 1)]
    );
}

#[test]
fn scenario_oversized_file_produces_nothing() {
    let files = vec![SourceFile { path: "/src/big".to_string(), size: 12 }];
    let config = Config { max_size: 10, retain_history: true };
    assert!(split_dir(&config, &files).is_err());
}
