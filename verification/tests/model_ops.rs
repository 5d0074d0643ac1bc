//! The filesystem model's own operations: resolution, classification, and
//! each error a mutation can report.

use relink::resolve_symlink;
use relink::Entry;
use relink::Fs;
use relink::FsErr;
use relink::Line;

fn path(parts: &[&str]) -> Vec<Vec<u8>> {
    let mut p: Vec<Vec<u8>> = Vec::new();
    for part in parts {
        p.push(part.as_bytes().to_vec());
    }
    p
}

#[test]
fn canonicalize_follows_a_chain() {
    let fs = Fs {
        entries: vec![
            (path(&["file"]), Entry::File(b"end".to_vec())),
            (path(&["a"]), Entry::Link(true, path(&["b"]))),
            (path(&["b"]), Entry::Link(true, path(&["file"]))),
        ],
    };
    assert_eq!(fs.canonicalize(&path(&["a"])), Ok(path(&["file"])));
    assert!(fs.is_file(&path(&["a"])));
}

#[test]
fn canonicalize_reports_a_loop() {
    let fs = Fs {
        entries: vec![
            (path(&["a"]), Entry::Link(true, path(&["b"]))),
            (path(&["b"]), Entry::Link(true, path(&["a"]))),
        ],
    };
    assert_eq!(fs.canonicalize(&path(&["a"])), Err(FsErr::LinkLoop));
    assert!(!fs.exists_followed(&path(&["a"])));
}

#[test]
fn classify_plain_file_and_missing_path() {
    let fs = Fs {
        entries: vec![(path(&["file"]), Entry::File(b"x".to_vec()))],
    };
    let mut out: Vec<Line> = Vec::new();
    assert_eq!(resolve_symlink(&fs, &mut out, &path(&["file"])), Ok(None));
    assert_eq!(
        resolve_symlink(&fs, &mut out, &path(&["missing"])),
        Err(FsErr::NotFound)
    );
    assert!(out.is_empty());
}

#[test]
fn classify_self_loop_recovers_with_a_report() {
    let fs = Fs {
        entries: vec![(path(&["loop"]), Entry::Link(true, path(&["loop"])))],
    };
    let mut out: Vec<Line> = Vec::new();
    assert_eq!(resolve_symlink(&fs, &mut out, &path(&["loop"])), Ok(None));
    assert_eq!(out, vec![Line::SkipSelfReference(path(&["loop"]))]);
}

#[test]
fn read_dir_of_a_file_is_refused() {
    let fs = Fs {
        entries: vec![(path(&["file"]), Entry::File(b"x".to_vec()))],
    };
    assert_eq!(fs.read_dir(&path(&["file"])), Err(FsErr::NotADir));
}

#[test]
fn read_dir_lists_in_order() {
    let fs = Fs {
        entries: vec![
            (path(&["d"]), Entry::Dir),
            (path(&["d", "one"]), Entry::File(b"1".to_vec())),
            (path(&["d", "two"]), Entry::File(b"2".to_vec())),
            (path(&["other"]), Entry::Dir),
        ],
    };
    assert_eq!(
        fs.read_dir(&path(&["d"])),
        Ok(vec![b"one".to_vec(), b"two".to_vec()])
    );
}

#[test]
fn remove_of_a_directory_is_refused() {
    let mut fs = Fs {
        entries: vec![(path(&["d"]), Entry::Dir)],
    };
    assert_eq!(fs.maybe_remove_file(&path(&["d"])), Err(FsErr::IsADir));
    assert_eq!(fs.entries.len(), 1);
}

#[test]
fn remove_of_an_absent_path_is_satisfied() {
    let mut fs = Fs { entries: vec![] };
    assert_eq!(fs.maybe_remove_file(&path(&["gone"])), Ok(()));
}

#[test]
fn create_dir_over_an_entry_is_refused() {
    let mut fs = Fs {
        entries: vec![(path(&["d"]), Entry::Dir)],
    };
    assert_eq!(fs.create_dir(&path(&["d"])), Err(FsErr::AlreadyExists));
}

#[test]
fn create_dir_without_a_parent_is_refused() {
    let mut fs = Fs { entries: vec![] };
    assert_eq!(fs.create_dir(&path(&["a", "b"])), Err(FsErr::NotFound));
}

#[test]
fn copy_file_duplicates_the_bytes() {
    let mut fs = Fs {
        entries: vec![(path(&["src"]), Entry::File(b"bytes".to_vec()))],
    };
    assert_eq!(fs.copy_file(&path(&["src"]), &path(&["dst"])), Ok(()));
    assert_eq!(fs.lookup(&path(&["dst"])), Some(Entry::File(b"bytes".to_vec())));
    assert_eq!(fs.lookup(&path(&["src"])), Some(Entry::File(b"bytes".to_vec())));
}

#[test]
fn copy_of_a_directory_is_refused() {
    let mut fs = Fs {
        entries: vec![(path(&["d"]), Entry::Dir)],
    };
    assert_eq!(fs.copy_file(&path(&["d"]), &path(&["dst"])), Err(FsErr::IsADir));
}
