use dir_splitter::paths::{archive_name, decimal_string, entry_name, mirror_destination};

fn segs(parts: &[&str]) -> Vec<String> {
    parts.iter().map(|s| s.to_string()).collect()
}

#[test]
fn decimal_names() {
    assert_eq!(decimal_string(0), "0");
    assert_eq!(decimal_string(7), "7");
    assert_eq!(decimal_string(10), "10");
    assert_eq!(decimal_string(1234), "1234");
    assert_eq!(decimal_string(u64::MAX), u64::MAX.to_string());
}

#[test]
fn mirror_keeps_the_relative_path() {
    let r = mirror_destination(&segs(&["/", "src"]), &segs(&["/", "out"]), 3, &segs(&["/", "src", "a", "b.txt"]));
    assert_eq!(r, Some(segs(&["/", "out", "3", "a", "b.txt"])));
}

#[test]
fn mirror_refuses_a_file_outside_the_source() {
    let r = mirror_destination(&segs(&["/", "src"]), &segs(&["/", "out"]), 0, &segs(&["/", "other", "b.txt"]));
    assert_eq!(r, None);
    let r = mirror_destination(&segs(&["/", "src", "deep"]), &segs(&["/", "out"]), 0, &segs(&["/", "src"]));
    assert_eq!(r, None);
}

#[test]
fn entry_names_are_rooted_at_the_partition() {
    let root = segs(&["/", "out"]);
    assert_eq!(entry_name(&root, &segs(&["/", "out", "0"])), Some("/".to_string()));
    assert_eq!(entry_name(&root, &segs(&["/", "out", "0", "a"])), Some("/a".to_string()));
    assert_eq!(entry_name(&root, &segs(&["/", "out", "12", "a", "b.txt"])), Some("/a/b.txt".to_string()));
}

#[test]
fn entry_names_keep_segments_that_repeat_the_root() {
    let root = segs(&["/", "out"]);
    assert_eq!(entry_name(&root, &segs(&["/", "out", "0", "out", "0"])), Some("/out/0".to_string()));
}

#[test]
fn entry_names_refuse_paths_outside_a_partition() {
    let root = segs(&["/", "out"]);
    assert_eq!(entry_name(&root, &segs(&["/", "out"])), None);
    assert_eq!(entry_name(&root, &segs(&["/", "elsewhere", "0", "a"])), None);
    assert_eq!(entry_name(&root, &segs(&["/"])), None);
}

#[test]
fn archive_names() {
    assert_eq!(archive_name(&"0".to_string()), "0.zip");
    assert_eq!(archive_name(&"15".to_string()), "15.zip");
}
