//! Whole runs over small model filesystems: link replacement, the guard
//! cases, and the order and content of the report.

use relink::Entry;
use relink::Fs;
use relink::Line;
use relink::exec;
use relink::FsErr;

fn path(parts: &[&str]) -> Vec<Vec<u8>> {
    let mut p: Vec<Vec<u8>> = Vec::new();
    for part in parts {
        p.push(part.as_bytes().to_vec());
    }
    p
}

#[test]
fn basic_resolve() {
    let linked_path = path(&["linked_file"]);
    let symlink_path = path(&["symlink"]);
    let mut fs = Fs {
        entries: vec![
            (linked_path.clone(), Entry::File(b"payload".to_vec())),
            (symlink_path.clone(), Entry::Link(true, linked_path.clone())),
        ],
    };
    let mut out: Vec<Line> = Vec::new();
    let inputs = vec![linked_path.clone(), symlink_path.clone()];
    exec(&mut fs, &mut out, &inputs).unwrap();

    let expected = vec![Line::FileCopy(linked_path.clone(), symlink_path.clone())];
    assert_eq!(out, expected);
    assert!(fs.is_file(&symlink_path));
    assert_eq!(
        fs.lookup(&symlink_path),
        Some(Entry::File(b"payload".to_vec()))
    );
}

#[test]
fn non_existent() {
    let symlink_path = path(&["symlink"]);
    let mut fs = Fs { entries: vec![] };
    let mut out: Vec<Line> = Vec::new();
    let inputs = vec![symlink_path.clone()];
    exec(&mut fs, &mut out, &inputs).unwrap();

    let expected = vec![Line::SkipInput(symlink_path.clone())];
    assert_eq!(out, expected);
    assert!(fs.entries.is_empty());
    assert!(!fs.exists_followed(&symlink_path));
}

#[test]
fn link_to_self() {
    let symlink_path = path(&["symlink"]);
    let mut fs = Fs {
        entries: vec![(symlink_path.clone(), Entry::Link(true, symlink_path.clone()))],
    };
    let mut out: Vec<Line> = Vec::new();
    // The run starts at the directory that holds the link: the implicit root.
    let inputs = vec![path(&[])];
    exec(&mut fs, &mut out, &inputs).unwrap();

    let expected = vec![Line::SkipSelfReference(symlink_path.clone())];
    assert_eq!(out, expected);
    assert!(matches!(fs.lookup(&symlink_path), Some(Entry::Link(..))));
}

#[test]
fn dir_link() {
    let subdir = path(&["real_dir"]);
    let symlink_path = path(&["symlink"]);
    let linked_path = path(&["real_dir", "linked_file"]);
    let mut fs = Fs {
        entries: vec![
            (subdir.clone(), Entry::Dir),
            (linked_path.clone(), Entry::File(b"inside".to_vec())),
            (symlink_path.clone(), Entry::Link(true, subdir.clone())),
        ],
    };
    let mut out: Vec<Line> = Vec::new();
    let inputs = vec![symlink_path.clone()];
    exec(&mut fs, &mut out, &inputs).unwrap();

    let copied_to = path(&["symlink", "linked_file"]);
    let expected = vec![
        Line::DirPopulate(subdir.clone(), symlink_path.clone()),
        Line::FileCopy(linked_path.clone(), copied_to.clone()),
    ];
    assert_eq!(out, expected);
    assert!(fs.is_dir(&symlink_path));
    assert_eq!(fs.lookup(&copied_to), Some(Entry::File(b"inside".to_vec())));
}

#[test]
fn nested_dir_link() {
    let subdir = path(&["real_dir"]);
    let sub_subdir = path(&["real_dir", "inner"]);
    let symlink_path = path(&["symlink"]);
    let linked_path = path(&["real_dir", "inner", "linked_file"]);
    let mut fs = Fs {
        entries: vec![
            (subdir.clone(), Entry::Dir),
            (sub_subdir.clone(), Entry::Dir),
            (linked_path.clone(), Entry::File(b"deep".to_vec())),
            (symlink_path.clone(), Entry::Link(true, subdir.clone())),
        ],
    };
    let mut out: Vec<Line> = Vec::new();
    let inputs = vec![symlink_path.clone()];
    exec(&mut fs, &mut out, &inputs).unwrap();

    let inner_copy = path(&["symlink", "inner"]);
    let file_copy = path(&["symlink", "inner", "linked_file"]);
    let expected = vec![
        Line::DirPopulate(subdir.clone(), symlink_path.clone()),
        Line::DirPopulate(sub_subdir.clone(), inner_copy.clone()),
        Line::FileCopy(linked_path.clone(), file_copy.clone()),
    ];
    assert_eq!(out, expected);
    assert!(fs.is_dir(&symlink_path));
    assert!(fs.is_dir(&inner_copy));
    assert_eq!(fs.lookup(&file_copy), Some(Entry::File(b"deep".to_vec())));
}

#[test]
fn recursive_dir_link() {
    let subdir = path(&["real_dir"]);
    let symlink_path = path(&["real_dir", "symlink"]);
    let linked_path = path(&["real_dir", "linked_file"]);
    let mut fs = Fs {
        entries: vec![
            (subdir.clone(), Entry::Dir),
            (linked_path.clone(), Entry::File(b"kept".to_vec())),
            (symlink_path.clone(), Entry::Link(true, subdir.clone())),
        ],
    };
    let mut out: Vec<Line> = Vec::new();
    let inputs = vec![symlink_path.clone()];
    exec(&mut fs, &mut out, &inputs).unwrap();

    let expected = vec![Line::SkipRecursive(symlink_path.clone())];
    assert_eq!(out, expected);
    assert!(matches!(fs.lookup(&symlink_path), Some(Entry::Link(..))));
}

#[test]
fn relative_target_resolves_against_parent() {
    let dir = path(&["dir"]);
    let file = path(&["dir", "file"]);
    let link = path(&["dir", "link"]);
    let mut fs = Fs {
        entries: vec![
            (dir.clone(), Entry::Dir),
            (file.clone(), Entry::File(b"rel".to_vec())),
            (link.clone(), Entry::Link(false, path(&["file"]))),
        ],
    };
    let mut out: Vec<Line> = Vec::new();
    let inputs = vec![link.clone()];
    exec(&mut fs, &mut out, &inputs).unwrap();

    let expected = vec![Line::FileCopy(file.clone(), link.clone())];
    assert_eq!(out, expected);
    assert_eq!(fs.lookup(&link), Some(Entry::File(b"rel".to_vec())));
}

#[test]
fn second_run_reports_nothing() {
    let subdir = path(&["real_dir"]);
    let symlink_path = path(&["symlink"]);
    let linked_path = path(&["real_dir", "linked_file"]);
    let mut fs = Fs {
        entries: vec![
            (subdir.clone(), Entry::Dir),
            (linked_path.clone(), Entry::File(b"once".to_vec())),
            (symlink_path.clone(), Entry::Link(true, subdir.clone())),
        ],
    };
    let mut out: Vec<Line> = Vec::new();
    let inputs = vec![symlink_path.clone()];
    exec(&mut fs, &mut out, &inputs).unwrap();
    assert_eq!(out.len(), 2);

    let snapshot = fs.entries.clone();
    let mut again: Vec<Line> = Vec::new();
    exec(&mut fs, &mut again, &inputs).unwrap();
    assert!(again.is_empty());
    assert_eq!(fs.entries, snapshot);
}

#[test]
fn broken_top_level_link_is_skipped() {
    let link = path(&["dangling"]);
    let mut fs = Fs {
        entries: vec![(link.clone(), Entry::Link(true, path(&["gone"])))],
    };
    let mut out: Vec<Line> = Vec::new();
    let inputs = vec![link.clone()];
    exec(&mut fs, &mut out, &inputs).unwrap();

    let expected = vec![Line::SkipInput(link.clone())];
    assert_eq!(out, expected);
    assert!(matches!(fs.lookup(&link), Some(Entry::Link(..))));
}

#[test]
fn broken_nested_link_aborts_the_run() {
    let dir = path(&["dir"]);
    let link = path(&["dir", "dangling"]);
    let mut fs = Fs {
        entries: vec![
            (dir.clone(), Entry::Dir),
            (link.clone(), Entry::Link(true, path(&["gone"]))),
        ],
    };
    let mut out: Vec<Line> = Vec::new();
    let inputs = vec![dir.clone()];
    let r = exec(&mut fs, &mut out, &inputs);
    assert_eq!(r, Err(FsErr::NotFound));
    assert!(out.is_empty());
}

#[test]
fn empty_input_list_is_a_no_op() {
    let mut fs = Fs {
        entries: vec![(path(&["file"]), Entry::File(b"still".to_vec()))],
    };
    let mut out: Vec<Line> = Vec::new();
    let inputs: Vec<Vec<Vec<u8>>> = Vec::new();
    exec(&mut fs, &mut out, &inputs).unwrap();
    assert!(out.is_empty());
    assert_eq!(fs.entries.len(), 1);
}

#[test]
fn too_deep_a_tree_is_refused() {
    let mut entries: Vec<(Vec<Vec<u8>>, Entry)> = Vec::new();
    let mut p: Vec<Vec<u8>> = Vec::new();
    for _ in 0..520 {
        p.push(b"d".to_vec());
        entries.push((p.clone(), Entry::Dir));
    }
    let mut fs = Fs { entries };
    let mut out: Vec<Line> = Vec::new();
    let inputs = vec![path(&["d"])];
    let r = exec(&mut fs, &mut out, &inputs);
    assert_eq!(r, Err(FsErr::TooDeep));
    assert!(out.is_empty());
}
