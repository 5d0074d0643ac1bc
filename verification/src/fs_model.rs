//! A flat model of a filesystem.
//!
//! The filesystem is a list of `(path, entry)` pairs.  An entry is a regular
//! file with byte content, a directory, or a symbolic link carrying its raw
//! target.  The root directory is implicit: it is not stored and is always a
//! directory.  List order is the order in which a directory's entries are
//! enumerated, so it is part of the model.

use vstd::prelude::*;

use crate::paths::clone_bytes;
use crate::paths::clone_path;
use crate::paths::lemma_bytes_deep_view;
use crate::paths::path_concat;
use crate::paths::path_eq;
use crate::paths::path_parent;

verus! {

/// How many links a resolution is willing to follow before it reports a
/// self-referential loop.
pub const LINK_FUEL: u64 = 40;

/// One filesystem object, named by the path it is stored under.
#[derive(Clone, PartialEq, Eq, Debug)]
pub enum Entry {
    /// A regular file and its bytes.
    File(Vec<u8>),
    /// A directory; its members are the entries one component below it.
    Dir,
    /// A symbolic link: the raw target, and whether that target is absolute.
    /// A relative target is interpreted against the link's parent directory.
    Link(bool, Vec<Vec<u8>>),
}

/// The mathematical form of an `Entry`.
pub enum EntryV {
    File(Seq<u8>),
    Dir,
    Link(bool, Seq<Seq<u8>>),
}

/// The mathematical form of one entry.
pub open spec fn entry_view(e: Entry) -> EntryV {
    match e {
        Entry::File(b) => EntryV::File(b@),
        Entry::Dir => EntryV::Dir,
        Entry::Link(abs, t) => EntryV::Link(abs, t.deep_view()),
    }
}

/// A filesystem: entries listed in enumeration order, keyed by absolute path.
pub struct Fs {
    pub entries: Vec<(Vec<Vec<u8>>, Entry)>,
}

impl View for Fs {
    type V = Seq<(Seq<Seq<u8>>, EntryV)>;

    open spec fn view(&self) -> Seq<(Seq<Seq<u8>>, EntryV)> {
        Seq::new(
            self.entries@.len(),
            |i: int| (self.entries@[i].0.deep_view(), entry_view(self.entries@[i].1)),
        )
    }
}

/// The errors a filesystem operation can report.
#[derive(Clone, Copy, PartialEq, Eq, Structural, Debug)]
pub enum FsErr {
    /// A path or a link target does not exist.
    NotFound,
    /// A chain of links was longer than `LINK_FUEL`: a self-referential loop.
    LinkLoop,
    /// A directory operation met something that is not a directory.
    NotADir,
    /// A file operation met a directory.
    IsADir,
    /// Creation at a path that is already taken.
    AlreadyExists,
    /// The traversal went deeper than its depth budget.
    TooDeep,
}

/// The index of the first entry stored under `p`, scanning from `i`.
pub open spec fn find_from(fs: Seq<(Seq<Seq<u8>>, EntryV)>, p: Seq<Seq<u8>>, i: nat) -> Option<
    int,
>
    decreases fs.len() - i,
{
    if i >= fs.len() {
        None
    } else if fs[i as int].0 == p {
        Some(i as int)
    } else {
        find_from(fs, p, i + 1)
    }
}

/// The entry stored under `p`, without following any link.
pub open spec fn lookup_v(fs: Seq<(Seq<Seq<u8>>, EntryV)>, p: Seq<Seq<u8>>) -> Option<EntryV> {
    match find_from(fs, p, 0) {
        None => None,
        Some(i) => Some(fs[i].1),
    }
}

/// True when `p` names a directory without following a final link: the root,
/// or a stored directory entry.
pub open spec fn is_dir_raw(fs: Seq<(Seq<Seq<u8>>, EntryV)>, p: Seq<Seq<u8>>) -> bool {
    p.len() == 0 || lookup_v(fs, p) == Some(EntryV::Dir)
}

/// A fresh copy of an entry.
pub fn entry_clone(e: &Entry) -> (r: Entry)
    ensures
        entry_view(r) == entry_view(*e),
{
    match e {
        Entry::File(b) => Entry::File(clone_bytes(b)),
        Entry::Dir => Entry::Dir,
        Entry::Link(abs, t) => Entry::Link(*abs, clone_path(t)),
    }
}



/// The names of the members of directory `d`, in enumeration order, scanning
/// from entry `i`.
pub open spec fn children_from(fs: Seq<(Seq<Seq<u8>>, EntryV)>, d: Seq<Seq<u8>>, i: nat) -> Seq<
    Seq<u8>,
>
    decreases fs.len() - i,
{
    if i >= fs.len() {
        Seq::empty()
    } else {
        let rest = children_from(fs, d, i + 1);
        if fs[i as int].0.len() == d.len() + 1 && fs[i as int].0.drop_last() == d {
            seq![fs[i as int].0.last()] + rest
        } else {
            rest
        }
    }
}


/// Canonical resolution.  `done` is an already fully resolved prefix; the
/// components of `rest` from index `ri` on are appended one by one, and every
/// link met on the way is followed, spending one unit of `fuel` per link.
/// The result is the canonical, existing, link-free path, or the first error:
/// `NotFound` for a broken path, `LinkLoop` when `fuel` runs out.
pub open spec fn resolve_v(
    fs: Seq<(Seq<Seq<u8>>, EntryV)>,
    done: Seq<Seq<u8>>,
    rest: Seq<Seq<u8>>,
    ri: nat,
    fuel: nat,
) -> Result<Seq<Seq<u8>>, FsErr>
    decreases fuel, rest.len() - ri,
{
    if ri >= rest.len() {
        Ok(done)
    } else {
        let q = done.push(rest[ri as int]);
        match lookup_v(fs, q) {
            None => Err(FsErr::NotFound),
            Some(EntryV::Link(abs, t)) => {
                if fuel == 0 {
                    Err(FsErr::LinkLoop)
                } else {
                    let raw = if abs {
                        t
                    } else {
                        done + t
                    };
                    match resolve_v(fs, Seq::empty(), raw, 0, (fuel - 1) as nat) {
                        Ok(q2) => resolve_v(fs, q2, rest, ri + 1, fuel),
                        Err(e) => Err(e),
                    }
                }
            },
            Some(_) => resolve_v(fs, q, rest, ri + 1, fuel),
        }
    }
}

/// The canonical form of `p`: every component resolved, every link followed.
pub open spec fn canonicalize_v(fs: Seq<(Seq<Seq<u8>>, EntryV)>, p: Seq<Seq<u8>>) -> Result<
    Seq<Seq<u8>>,
    FsErr,
> {
    resolve_v(fs, Seq::empty(), p, 0, LINK_FUEL as nat)
}

/// True when `p` names something that exists, following links, as an
/// existence check at the run's door would have it.
pub open spec fn exists_v(fs: Seq<(Seq<Seq<u8>>, EntryV)>, p: Seq<Seq<u8>>) -> bool {
    canonicalize_v(fs, p) is Ok
}

/// True when `p`, with links followed, names a regular file; false on any
/// resolution failure.
pub open spec fn is_file_v(fs: Seq<(Seq<Seq<u8>>, EntryV)>, p: Seq<Seq<u8>>) -> bool {
    match canonicalize_v(fs, p) {
        Ok(c) => lookup_v(fs, c) matches Some(EntryV::File(_)),
        Err(_) => false,
    }
}

/// True when `p`, with links followed, names a directory; false on any
/// resolution failure.
pub open spec fn is_dir_v(fs: Seq<(Seq<Seq<u8>>, EntryV)>, p: Seq<Seq<u8>>) -> bool {
    match canonicalize_v(fs, p) {
        Ok(c) => is_dir_raw(fs, c),
        Err(_) => false,
    }
}

/// The member names of the directory `p`, links followed, or the first error.
pub open spec fn read_dir_v(fs: Seq<(Seq<Seq<u8>>, EntryV)>, p: Seq<Seq<u8>>) -> Result<
    Seq<Seq<u8>>,
    FsErr,
> {
    match canonicalize_v(fs, p) {
        Err(e) => Err(e),
        Ok(c) => if is_dir_raw(fs, c) {
            Ok(children_from(fs, c, 0))
        } else {
            Err(FsErr::NotADir)
        },
    }
}







/// Removal of the entry stored under `p`, tolerating an absent entry, as a
/// remove-before-replace step wants it: the filesystem unchanged when nothing
/// is stored under `p`, an `IsADir` error when a directory is, and the entry
/// taken out otherwise.
pub open spec fn maybe_remove_v(fs: Seq<(Seq<Seq<u8>>, EntryV)>, p: Seq<Seq<u8>>) -> Result<
    Seq<(Seq<Seq<u8>>, EntryV)>,
    FsErr,
> {
    match find_from(fs, p, 0) {
        None => Ok(fs),
        Some(i) => if fs[i].1 is Dir {
            Err(FsErr::IsADir)
        } else {
            Ok(fs.remove(i))
        },
    }
}

/// Writing `content` as a regular file under `p`: an existing file is
/// replaced, an existing directory or link is an `IsADir` error, and a fresh
/// entry needs its parent to be a directory, else `NotFound`.
pub open spec fn write_file_v(
    fs: Seq<(Seq<Seq<u8>>, EntryV)>,
    p: Seq<Seq<u8>>,
    content: Seq<u8>,
) -> Result<Seq<(Seq<Seq<u8>>, EntryV)>, FsErr> {
    if p.len() == 0 {
        Err(FsErr::IsADir)
    } else {
        match find_from(fs, p, 0) {
            Some(i) => if fs[i].1 is File {
                Ok(fs.update(i, (p, EntryV::File(content))))
            } else {
                Err(FsErr::IsADir)
            },
            None => if is_dir_raw(fs, p.drop_last()) {
                Ok(fs.push((p, EntryV::File(content))))
            } else {
                Err(FsErr::NotFound)
            },
        }
    }
}

/// A byte copy: the file `src` names, links followed, written under `dst`.
pub open spec fn copy_file_v(
    fs: Seq<(Seq<Seq<u8>>, EntryV)>,
    src: Seq<Seq<u8>>,
    dst: Seq<Seq<u8>>,
) -> Result<Seq<(Seq<Seq<u8>>, EntryV)>, FsErr> {
    match canonicalize_v(fs, src) {
        Err(e) => Err(e),
        Ok(c) => match lookup_v(fs, c) {
            Some(EntryV::File(b)) => write_file_v(fs, dst, b),
            _ => Err(FsErr::IsADir),
        },
    }
}

/// A new empty directory under `p`: `AlreadyExists` when anything is stored
/// there (or `p` is the root), `NotFound` when the parent is no directory.
pub open spec fn create_dir_v(fs: Seq<(Seq<Seq<u8>>, EntryV)>, p: Seq<Seq<u8>>) -> Result<
    Seq<(Seq<Seq<u8>>, EntryV)>,
    FsErr,
> {
    if p.len() == 0 {
        Err(FsErr::AlreadyExists)
    } else {
        match find_from(fs, p, 0) {
            Some(_) => Err(FsErr::AlreadyExists),
            None => if is_dir_raw(fs, p.drop_last()) {
                Ok(fs.push((p, EntryV::Dir)))
            } else {
                Err(FsErr::NotFound)
            },
        }
    }
}

impl Fs {
    /// The index of the entry stored under `p`, if any.
    pub fn find_entry(&self, p: &Vec<Vec<u8>>) -> (r: Option<usize>)
        ensures
            match r {
                Some(i) => i < self.entries@.len() && find_from(self@, p.deep_view(), 0) == Some(i as int),
                None => find_from(self@, p.deep_view(), 0) is None,
            },
    {
        let mut i: usize = 0;
        while i < self.entries.len()
            invariant
                i <= self.entries@.len(),
                find_from(self@, p.deep_view(), 0) == find_from(self@, p.deep_view(), i as nat),
            decreases self.entries@.len() - i,
        {
            if path_eq(&self.entries[i].0, p) {
                return Some(i);
            }
            i += 1;
        }
        None
    }

    /// The entry stored under `p`, cloned out of the filesystem.
    pub fn lookup(&self, p: &Vec<Vec<u8>>) -> (r: Option<Entry>)
        ensures
            match r {
                Some(e) => lookup_v(self@, p.deep_view()) == Some(entry_view(e)),
                None => lookup_v(self@, p.deep_view()) is None,
            },
    {
        match self.find_entry(p) {
            Some(i) => Some(entry_clone(&self.entries[i].1)),
            None => None,
        }
    }

    /// The member names of directory `d`, in enumeration order.
    pub fn children_of(&self, d: &Vec<Vec<u8>>) -> (r: Vec<Vec<u8>>)
        ensures
            r.deep_view() == children_from(self@, d.deep_view(), 0),
    {
        let mut r: Vec<Vec<u8>> = Vec::new();
        let mut i: usize = 0;
        while i < self.entries.len()
            invariant
                i <= self.entries@.len(),
                r.deep_view() + children_from(self@, d.deep_view(), i as nat) == children_from(
                    self@,
                    d.deep_view(),
                    0,
                ),
            decreases self.entries@.len() - i,
        {
            let ep = &self.entries[i].0;
            if ep.len() >= 1 && ep.len() - 1 == d.len() {
                let parent = path_parent(ep);
                if path_eq(&parent, d) {
                    let name = clone_bytes(&ep[ep.len() - 1]);
                    proof {
                        broadcast use lemma_bytes_deep_view;

                        assert(r.deep_view().push(name@) + children_from(
                            self@,
                            d.deep_view(),
                            i as nat + 1,
                        ) =~~= r.deep_view() + children_from(self@, d.deep_view(), i as nat));
                    }
                    r.push(name);
                    proof {
                        broadcast use lemma_bytes_deep_view;

                        assert(r.deep_view() =~~= r.deep_view().take(r.deep_view().len() - 1).push(
                            name@,
                        ));
                    }
                }
            }
            proof {
                broadcast use lemma_bytes_deep_view;

                if !(self@[i as int].0.len() == d.deep_view().len() + 1 && self@[i as int].0.drop_last()
                    == d.deep_view()) {
                    assert(children_from(self@, d.deep_view(), i as nat) == children_from(
                        self@,
                        d.deep_view(),
                        i as nat + 1,
                    ));
                }
            }
            i += 1;
        }
        proof {
            assert(r.deep_view() + children_from(self@, d.deep_view(), self@.len() as nat) =~~=
            r.deep_view());
        }
        r
    }

    /// Exec mirror of `resolve_v`.
    pub fn resolve_at(
        &self,
        done: Vec<Vec<u8>>,
        rest: &Vec<Vec<u8>>,
        ri: usize,
        fuel: u64,
    ) -> (r: Result<Vec<Vec<u8>>, FsErr>)
        requires
            ri <= rest@.len(),
        ensures
            (match r {
                Ok(c) => Ok::<Seq<Seq<u8>>, FsErr>(c.deep_view()),
                Err(e) => Err(e),
            }) == resolve_v(self@, done.deep_view(), rest.deep_view(), ri as nat, fuel as nat),
        decreases fuel, rest@.len() - ri,
    {
        if ri >= rest.len() {
            return Ok(done);
        }
        let q = crate::paths::path_push(&done, &rest[ri]);
        proof {
            broadcast use lemma_bytes_deep_view;

            assert(q.deep_view() == done.deep_view().push(rest.deep_view()[ri as int]));
        }
        match self.lookup(&q) {
            None => Err(FsErr::NotFound),
            Some(Entry::Link(abs, t)) => {
                if fuel == 0 {
                    Err(FsErr::LinkLoop)
                } else {
                    let raw = if abs {
                        t
                    } else {
                        path_concat(&done, &t)
                    };
                    let empty: Vec<Vec<u8>> = Vec::new();
                    proof {
                        assert(empty.deep_view() =~~= Seq::<Seq<u8>>::empty());
                    }
                    match self.resolve_at(empty, &raw, 0, fuel - 1) {
                        Ok(q2) => self.resolve_at(q2, rest, ri + 1, fuel),
                        Err(e) => Err(e),
                    }
                }
            },
            Some(_) => self.resolve_at(q, rest, ri + 1, fuel),
        }
    }

    /// The canonical form of `p`, every link followed.
    pub fn canonicalize(&self, p: &Vec<Vec<u8>>) -> (r: Result<Vec<Vec<u8>>, FsErr>)
        ensures
            (match r {
                Ok(c) => Ok::<Seq<Seq<u8>>, FsErr>(c.deep_view()),
                Err(e) => Err(e),
            }) == canonicalize_v(self@, p.deep_view()),
    {
        let empty: Vec<Vec<u8>> = Vec::new();
        proof {
            assert(empty.deep_view() =~~= Seq::<Seq<u8>>::empty());
        }
        self.resolve_at(empty, p, 0, LINK_FUEL)
    }

    /// Whether `p` exists, following links.
    pub fn exists_followed(&self, p: &Vec<Vec<u8>>) -> (r: bool)
        ensures
            r == exists_v(self@, p.deep_view()),
    {
        self.canonicalize(p).is_ok()
    }

    /// Whether `p` is a regular file, following links.
    pub fn is_file(&self, p: &Vec<Vec<u8>>) -> (r: bool)
        ensures
            r == is_file_v(self@, p.deep_view()),
    {
        match self.canonicalize(p) {
            Ok(c) => match self.lookup(&c) {
                Some(Entry::File(_)) => true,
                _ => false,
            },
            Err(_) => false,
        }
    }

    /// Whether `p` is a directory, following links.
    pub fn is_dir(&self, p: &Vec<Vec<u8>>) -> (r: bool)
        ensures
            r == is_dir_v(self@, p.deep_view()),
    {
        match self.canonicalize(p) {
            Ok(c) => {
                if c.len() == 0 {
                    true
                } else {
                    match self.lookup(&c) {
                        Some(Entry::Dir) => true,
                        _ => false,
                    }
                }
            },
            Err(_) => false,
        }
    }

    /// The member names of the directory `p`, links followed.
    pub fn read_dir(&self, p: &Vec<Vec<u8>>) -> (r: Result<Vec<Vec<u8>>, FsErr>)
        ensures
            (match r {
                Ok(names) => Ok::<Seq<Seq<u8>>, FsErr>(names.deep_view()),
                Err(e) => Err(e),
            }) == read_dir_v(self@, p.deep_view()),
    {
        let c = match self.canonicalize(p) {
            Ok(c) => c,
            Err(e) => {
                return Err(e);
            },
        };
        let dir_ok = if c.len() == 0 {
            true
        } else {
            match self.lookup(&c) {
                Some(Entry::Dir) => true,
                _ => false,
            }
        };
        if dir_ok {
            Ok(self.children_of(&c))
        } else {
            Err(FsErr::NotADir)
        }
    }

    /// Remove whatever non-directory entry is stored under `p`, treating an
    /// absent entry as already removed.
    pub fn maybe_remove_file(&mut self, p: &Vec<Vec<u8>>) -> (r: Result<(), FsErr>)
        ensures
            (match r {
                Ok(()) => maybe_remove_v(old(self)@, p.deep_view()) == Ok::<_, FsErr>(final(self)@),
                Err(e) => maybe_remove_v(old(self)@, p.deep_view()) == Err::<Seq<(Seq<Seq<u8>>,
                    EntryV,
                )>, FsErr>(e) && final(self)@ == old(self)@,
            }),
    {
        match self.find_entry(p) {
            None => Ok(()),
            Some(i) => {
                let is_dir_entry = match &self.entries[i].1 {
                    Entry::Dir => true,
                    _ => false,
                };
                if is_dir_entry {
                    Err(FsErr::IsADir)
                } else {
                    self.entries.remove(i);
                    proof {
                        assert(self@ =~~= old(self)@.remove(
                            find_from(old(self)@, p.deep_view(), 0) -> Some_0,
                        ));
                    }
                    Ok(())
                }
            },
        }
    }

    /// Write `content` as a regular file under `p`.
    pub fn write_file(&mut self, p: &Vec<Vec<u8>>, content: Vec<u8>) -> (r: Result<(), FsErr>)
        ensures
            (match r {
                Ok(()) => write_file_v(old(self)@, p.deep_view(), content@) == Ok::<_, FsErr>(
                    final(self)@,
                ),
                Err(e) => write_file_v(old(self)@, p.deep_view(), content@) == Err::<Seq<(Seq<
                    Seq<u8>,
                >, EntryV)>, FsErr>(e) && final(self)@ == old(self)@,
            }),
    {
        if p.len() == 0 {
            return Err(FsErr::IsADir);
        }
        match self.find_entry(p) {
            Some(i) => {
                let is_file_entry = match &self.entries[i].1 {
                    Entry::File(_) => true,
                    _ => false,
                };
                if is_file_entry {
                    let key = clone_path(p);
                    self.entries.set(i, (key, Entry::File(content)));
                    proof {
                        assert(self@ =~~= old(self)@.update(
                            find_from(old(self)@, p.deep_view(), 0) -> Some_0,
                            (p.deep_view(), EntryV::File(content@)),
                        ));
                    }
                    Ok(())
                } else {
                    Err(FsErr::IsADir)
                }
            },
            None => {
                let parent = path_parent(p);
                let parent_ok = if parent.len() == 0 {
                    true
                } else {
                    match self.lookup(&parent) {
                        Some(Entry::Dir) => true,
                        _ => false,
                    }
                };
                if parent_ok {
                    let key = clone_path(p);
                    self.entries.push((key, Entry::File(content)));
                    proof {
                        assert(self@ =~~= old(self)@.push(
                            (p.deep_view(), EntryV::File(content@)),
                        ));
                    }
                    Ok(())
                } else {
                    Err(FsErr::NotFound)
                }
            },
        }
    }

    /// Copy the bytes of the file `src` names, links followed, to `dst`.
    pub fn copy_file(&mut self, src: &Vec<Vec<u8>>, dst: &Vec<Vec<u8>>) -> (r: Result<(), FsErr>)
        ensures
            (match r {
                Ok(()) => copy_file_v(old(self)@, src.deep_view(), dst.deep_view()) == Ok::<
                    _,
                    FsErr,
                >(final(self)@),
                Err(e) => copy_file_v(old(self)@, src.deep_view(), dst.deep_view()) == Err::<Seq<
                    (Seq<Seq<u8>>, EntryV),
                >, FsErr>(e) && final(self)@ == old(self)@,
            }),
    {
        let c = match self.canonicalize(src) {
            Ok(c) => c,
            Err(e) => {
                return Err(e);
            },
        };
        match self.lookup(&c) {
            Some(Entry::File(b)) => self.write_file(dst, b),
            _ => Err(FsErr::IsADir),
        }
    }

    /// Create a new empty directory under `p`.
    pub fn create_dir(&mut self, p: &Vec<Vec<u8>>) -> (r: Result<(), FsErr>)
        ensures
            (match r {
                Ok(()) => create_dir_v(old(self)@, p.deep_view()) == Ok::<_, FsErr>(final(self)@),
                Err(e) => create_dir_v(old(self)@, p.deep_view()) == Err::<Seq<(Seq<Seq<u8>>,
                    EntryV,
                )>, FsErr>(e) && final(self)@ == old(self)@,
            }),
    {
        if p.len() == 0 {
            return Err(FsErr::AlreadyExists);
        }
        match self.find_entry(p) {
            Some(_) => Err(FsErr::AlreadyExists),
            None => {
                let parent = path_parent(p);
                let parent_ok = if parent.len() == 0 {
                    true
                } else {
                    match self.lookup(&parent) {
                        Some(Entry::Dir) => true,
                        _ => false,
                    }
                };
                if parent_ok {
                    let key = clone_path(p);
                    self.entries.push((key, Entry::Dir));
                    proof {
                        assert(self@ =~~= old(self)@.push((p.deep_view(), EntryV::Dir)));
                    }
                    Ok(())
                } else {
                    Err(FsErr::NotFound)
                }
            },
        }
    }
}

} // verus!
