//! The resolution-and-relink core.
//!
//! `resolve_symlink` classifies one path: not a link, a link with a canonical
//! target, or a benign self-referential link.  `relink` replaces a classified
//! link by a real copy of its target, recursively for directory targets, and
//! guards against a target that is an ancestor of the link.  `exec` runs the
//! whole pass over a list of starting paths, skipping those that do not
//! exist.  Every action appends one `Line` to the report sink.

use vstd::prelude::*;

use crate::fs_model::canonicalize_v;
use crate::fs_model::copy_file_v;
use crate::fs_model::create_dir_v;
use crate::fs_model::exists_v;
use crate::fs_model::is_dir_v;
use crate::fs_model::is_file_v;
use crate::fs_model::lookup_v;
use crate::fs_model::maybe_remove_v;
use crate::fs_model::read_dir_v;
use crate::fs_model::Entry;
use crate::fs_model::EntryV;
use crate::fs_model::Fs;
use crate::fs_model::FsErr;
use crate::paths::clone_path;
use crate::paths::is_prefix_of;
use crate::paths::path_concat;
use crate::paths::path_eq;
use crate::paths::path_parent;
use crate::paths::path_push;
use crate::paths::starts_with;

verus! {

/// The deepest directory nesting one run is willing to walk.
pub const MAX_DEPTH: u64 = 512;

/// One line of the report: which action was taken, and on which paths.
#[derive(PartialEq, Eq, Debug)]
pub enum Line {
    /// `COPY <dest> => <link>`: the link was replaced by a byte copy.
    FileCopy(Vec<Vec<u8>>, Vec<Vec<u8>>),
    /// `POPULATE <dest> => <link>`: the link was replaced by a new directory.
    DirPopulate(Vec<Vec<u8>>, Vec<Vec<u8>>),
    /// `SKIP SELF REFERENCE <path>`: a self-referential link was left alone.
    SkipSelfReference(Vec<Vec<u8>>),
    /// `SKIP RECURSIVE <link>`: a link to one of its own ancestors was left
    /// alone.
    SkipRecursive(Vec<Vec<u8>>),
    /// `SKIP INPUT <path>`: a starting path that does not exist.
    SkipInput(Vec<Vec<u8>>),
}

/// The mathematical form of a report line.
pub enum LineV {
    FileCopy(Seq<Seq<u8>>, Seq<Seq<u8>>),
    DirPopulate(Seq<Seq<u8>>, Seq<Seq<u8>>),
    SkipSelfReference(Seq<Seq<u8>>),
    SkipRecursive(Seq<Seq<u8>>),
    SkipInput(Seq<Seq<u8>>),
}

/// The mathematical form of one line.
pub open spec fn line_view(l: Line) -> LineV {
    match l {
        Line::FileCopy(d, p) => LineV::FileCopy(d.deep_view(), p.deep_view()),
        Line::DirPopulate(d, p) => LineV::DirPopulate(d.deep_view(), p.deep_view()),
        Line::SkipSelfReference(p) => LineV::SkipSelfReference(p.deep_view()),
        Line::SkipRecursive(p) => LineV::SkipRecursive(p.deep_view()),
        Line::SkipInput(p) => LineV::SkipInput(p.deep_view()),
    }
}

/// The mathematical form of the report sink.
pub open spec fn lines_view(s: Seq<Line>) -> Seq<LineV> {
    Seq::new(s.len(), |i: int| line_view(s[i]))
}

/// The mathematical form of an optional resolved target.
pub open spec fn opt_path_view(d: Option<Vec<Vec<u8>>>) -> Option<Seq<Seq<u8>>> {
    match d {
        Some(p) => Some(p.deep_view()),
        None => None,
    }
}

/// What classifying `p` reports and returns: no line and `Ok(None)` when `p`
/// is not a link (the implicit root included); no line and the canonical target when it is one; one
/// `SKIP SELF REFERENCE` line and `Ok(None)` when resolution loops; the
/// resolution error otherwise.
pub open spec fn resolve_symlink_v(fs: Seq<(Seq<Seq<u8>>, EntryV)>, p: Seq<Seq<u8>>) -> (Seq<
    LineV,
>, Result<Option<Seq<Seq<u8>>>, FsErr>) {
    match lookup_v(fs, p) {
        None => if p.len() == 0 {
            (Seq::empty(), Ok(None))
        } else {
            (Seq::empty(), Err(FsErr::NotFound))
        },
        Some(EntryV::Link(abs, t)) => {
            let raw = if abs {
                t
            } else if p.len() > 0 {
                p.drop_last() + t
            } else {
                t
            };
            match canonicalize_v(fs, raw) {
                Ok(c) => (Seq::empty(), Ok(Some(c))),
                Err(FsErr::LinkLoop) => (seq![LineV::SkipSelfReference(p)], Ok(None)),
                Err(e) => (Seq::empty(), Err(e)),
            }
        },
        Some(_) => (Seq::empty(), Ok(None)),
    }
}

/// What relinking `p`, already classified as `dest`, does to the filesystem,
/// what it reports, and what it returns.
pub open spec fn relink_v(
    fs: Seq<(Seq<Seq<u8>>, EntryV)>,
    p: Seq<Seq<u8>>,
    dest: Option<Seq<Seq<u8>>>,
    fuel: nat,
) -> (Seq<(Seq<Seq<u8>>, EntryV)>, Seq<LineV>, Result<(), FsErr>)
    decreases fuel, 1nat, 0nat,
{
    match dest {
        Some(d) => {
            if d == p {
                (fs, seq![LineV::SkipSelfReference(d)], Ok(()))
            } else if is_file_v(fs, d) {
                let ls = seq![LineV::FileCopy(d, p)];
                match maybe_remove_v(fs, p) {
                    Err(e) => (fs, ls, Err(e)),
                    Ok(fs1) => match copy_file_v(fs1, d, p) {
                        Err(e) => (fs1, ls, Err(e)),
                        Ok(fs2) => (fs2, ls, Ok(())),
                    },
                }
            } else if is_prefix_of(d, p) {
                (fs, seq![LineV::SkipRecursive(p)], Ok(()))
            } else {
                let ls = seq![LineV::DirPopulate(d, p)];
                match maybe_remove_v(fs, p) {
                    Err(e) => (fs, ls, Err(e)),
                    Ok(fs1) => match create_dir_v(fs1, p) {
                        Err(e) => (fs1, ls, Err(e)),
                        Ok(fs2) => match read_dir_v(fs2, d) {
                            Err(e) => (fs2, ls, Err(e)),
                            Ok(names) => {
                                let r = relink_kids_v(fs2, p, d, names, 0, fuel);
                                (r.0, ls + r.1, r.2)
                            },
                        },
                    },
                }
            }
        },
        None => {
            if is_dir_v(fs, p) {
                match read_dir_v(fs, p) {
                    Err(e) => (fs, Seq::empty(), Err(e)),
                    Ok(names) => descend_v(fs, p, names, 0, fuel),
                }
            } else {
                (fs, Seq::empty(), Ok(()))
            }
        },
    }
}

/// One populated member after another: member `i` of `names` is relinked
/// from `d` into `p`, then the rest.
pub open spec fn relink_kids_v(
    fs: Seq<(Seq<Seq<u8>>, EntryV)>,
    p: Seq<Seq<u8>>,
    d: Seq<Seq<u8>>,
    names: Seq<Seq<u8>>,
    i: nat,
    fuel: nat,
) -> (Seq<(Seq<Seq<u8>>, EntryV)>, Seq<LineV>, Result<(), FsErr>)
    decreases fuel, 0nat, names.len() - i,
{
    if i >= names.len() {
        (fs, Seq::empty(), Ok(()))
    } else if fuel == 0 {
        (fs, Seq::empty(), Err(FsErr::TooDeep))
    } else {
        let r1 = relink_v(fs, p.push(names[i as int]), Some(d.push(names[i as int])), (fuel
            - 1) as nat);
        match r1.2 {
            Err(_) => r1,
            Ok(()) => {
                let r2 = relink_kids_v(r1.0, p, d, names, i + 1, fuel);
                (r2.0, r1.1 + r2.1, r2.2)
            },
        }
    }
}

/// One walked member after another: member `i` of `names` under `p` is
/// classified and relinked, then the rest.
pub open spec fn descend_v(
    fs: Seq<(Seq<Seq<u8>>, EntryV)>,
    p: Seq<Seq<u8>>,
    names: Seq<Seq<u8>>,
    i: nat,
    fuel: nat,
) -> (Seq<(Seq<Seq<u8>>, EntryV)>, Seq<LineV>, Result<(), FsErr>)
    decreases fuel, 0nat, names.len() - i,
{
    if i >= names.len() {
        (fs, Seq::empty(), Ok(()))
    } else if fuel == 0 {
        (fs, Seq::empty(), Err(FsErr::TooDeep))
    } else {
        let cp = p.push(names[i as int]);
        let c = resolve_symlink_v(fs, cp);
        match c.1 {
            Err(e) => (fs, c.0, Err(e)),
            Ok(dopt) => {
                let r1 = relink_v(fs, cp, dopt, (fuel - 1) as nat);
                match r1.2 {
                    Err(e) => (r1.0, c.0 + r1.1, Err(e)),
                    Ok(()) => {
                        let r2 = descend_v(r1.0, p, names, i + 1, fuel);
                        (r2.0, c.0 + r1.1 + r2.1, r2.2)
                    },
                }
            },
        }
    }
}

/// What one run over the starting paths from index `i` on does: a path that
/// does not exist is reported `SKIP INPUT` and skipped; every other one is
/// classified and relinked; the first error stops the run.
pub open spec fn exec_v(
    fs: Seq<(Seq<Seq<u8>>, EntryV)>,
    inputs: Seq<Seq<Seq<u8>>>,
    i: nat,
) -> (Seq<(Seq<Seq<u8>>, EntryV)>, Seq<LineV>, Result<(), FsErr>)
    decreases inputs.len() - i,
{
    if i >= inputs.len() {
        (fs, Seq::empty(), Ok(()))
    } else {
        let p = inputs[i as int];
        if exists_v(fs, p) {
            let c = resolve_symlink_v(fs, p);
            match c.1 {
                Err(e) => (fs, c.0, Err(e)),
                Ok(dopt) => {
                    let r1 = relink_v(fs, p, dopt, MAX_DEPTH as nat);
                    match r1.2 {
                        Err(e) => (r1.0, c.0 + r1.1, Err(e)),
                        Ok(()) => {
                            let r2 = exec_v(r1.0, inputs, i + 1);
                            (r2.0, c.0 + r1.1 + r2.1, r2.2)
                        },
                    }
                },
            }
        } else {
            let r2 = exec_v(fs, inputs, i + 1);
            (r2.0, seq![LineV::SkipInput(p)] + r2.1, r2.2)
        }
    }
}

/// Append one line to the sink.
fn emit(out: &mut Vec<Line>, l: Line)
    ensures
        lines_view(final(out)@) == lines_view(old(out)@).push(line_view(l)),
{
    out.push(l);
    proof {
        assert(lines_view(out@) =~= lines_view(old(out)@).push(line_view(l)));
    }
}

/// Classify `p`: `Ok(None)` when its own metadata shows no link, the
/// canonical target when it is a link, and a reported, recovered `Ok(None)`
/// when the target chain loops back on itself.
pub fn resolve_symlink(fs: &Fs, out: &mut Vec<Line>, p: &Vec<Vec<u8>>) -> (r: Result<
    Option<Vec<Vec<u8>>>,
    FsErr,
>)
    ensures
        ({
            let c = resolve_symlink_v(fs@, p.deep_view());
            &&& lines_view(final(out)@) == lines_view(old(out)@) + c.0
            &&& (match r {
                Ok(d) => c.1 == Ok::<Option<Seq<Seq<u8>>>, FsErr>(opt_path_view(d)),
                Err(e) => c.1 == Err::<Option<Seq<Seq<u8>>>, FsErr>(e),
            })
        }),
{
    proof {
        assert(lines_view(out@) =~= lines_view(out@) + Seq::<LineV>::empty());
    }
    match fs.lookup(p) {
        None => if p.len() == 0 {
            Ok(None)
        } else {
            Err(FsErr::NotFound)
        },
        Some(Entry::Link(abs, t)) => {
            let raw = if abs {
                t
            } else if p.len() > 0 {
                let parent = path_parent(p);
                path_concat(&parent, &t)
            } else {
                t
            };
            match fs.canonicalize(&raw) {
                Ok(c) => Ok(Some(c)),
                Err(FsErr::LinkLoop) => {
                    emit(out, Line::SkipSelfReference(clone_path(p)));
                    proof {
                        assert(lines_view(out@) =~= lines_view(old(out)@) + seq![
                            LineV::SkipSelfReference(p.deep_view()),
                        ]);
                    }
                    Ok(None)
                },
                Err(e) => Err(e),
            }
        },
        Some(_) => Ok(None),
    }
}

/// Replace the link `p`, classified as `dest`, by a real copy of its target:
/// a byte copy for a file target, a freshly populated directory for a
/// directory target; a self-referential or ancestor target is reported and
/// left alone; an unclassified `p` that is a directory is walked member by
/// member.
pub fn relink(
    fs: &mut Fs,
    out: &mut Vec<Line>,
    p: &Vec<Vec<u8>>,
    dest: Option<Vec<Vec<u8>>>,
    fuel: u64,
) -> (r: Result<(), FsErr>)
    ensures
        ({
            let t = relink_v(old(fs)@, p.deep_view(), opt_path_view(dest), fuel as nat);
            &&& final(fs)@ == t.0
            &&& lines_view(final(out)@) == lines_view(old(out)@) + t.1
            &&& r == t.2
        }),
    decreases fuel, 1int, 0int,
{
    proof {
        assert(lines_view(out@) =~= lines_view(out@) + Seq::<LineV>::empty());
    }
    match dest {
        Some(d) => {
            if path_eq(&d, p) {
                emit(out, Line::SkipSelfReference(d));
                proof {
                    assert(lines_view(out@) =~= lines_view(old(out)@) + seq![
                        LineV::SkipSelfReference(p.deep_view()),
                    ]);
                }
                Ok(())
            } else if fs.is_file(&d) {
                emit(out, Line::FileCopy(clone_path(&d), clone_path(p)));
                proof {
                    assert(lines_view(out@) =~= lines_view(old(out)@) + seq![
                        LineV::FileCopy(d.deep_view(), p.deep_view()),
                    ]);
                }
                match fs.maybe_remove_file(p) {
                    Err(e) => Err(e),
                    Ok(()) => match fs.copy_file(&d, p) {
                        Err(e) => Err(e),
                        Ok(()) => Ok(()),
                    },
                }
            } else if starts_with(p, &d) {
                emit(out, Line::SkipRecursive(clone_path(p)));
                proof {
                    assert(lines_view(out@) =~= lines_view(old(out)@) + seq![
                        LineV::SkipRecursive(p.deep_view()),
                    ]);
                }
                Ok(())
            } else {
                emit(out, Line::DirPopulate(clone_path(&d), clone_path(p)));
                proof {
                    assert(lines_view(out@) =~= lines_view(old(out)@) + seq![
                        LineV::DirPopulate(d.deep_view(), p.deep_view()),
                    ]);
                }
                match fs.maybe_remove_file(p) {
                    Err(e) => Err(e),
                    Ok(()) => match fs.create_dir(p) {
                        Err(e) => Err(e),
                        Ok(()) => match fs.read_dir(&d) {
                            Err(e) => Err(e),
                            Ok(names) => relink_kids(fs, out, p, &d, &names, 0, fuel),
                        },
                    },
                }
            }
        },
        None => {
            if fs.is_dir(p) {
                match fs.read_dir(p) {
                    Err(e) => Err(e),
                    Ok(names) => descend(fs, out, p, &names, 0, fuel),
                }
            } else {
                Ok(())
            }
        },
    }
}

/// Relink the members of `d` named from `i` on into the new directory `p`.
fn relink_kids(
    fs: &mut Fs,
    out: &mut Vec<Line>,
    p: &Vec<Vec<u8>>,
    d: &Vec<Vec<u8>>,
    names: &Vec<Vec<u8>>,
    i: usize,
    fuel: u64,
) -> (r: Result<(), FsErr>)
    requires
        i <= names@.len(),
    ensures
        ({
            let t = relink_kids_v(
                old(fs)@,
                p.deep_view(),
                d.deep_view(),
                names.deep_view(),
                i as nat,
                fuel as nat,
            );
            &&& final(fs)@ == t.0
            &&& lines_view(final(out)@) == lines_view(old(out)@) + t.1
            &&& r == t.2
        }),
    decreases fuel, 0int, names@.len() - i,
{
    proof {
        assert(lines_view(out@) =~= lines_view(out@) + Seq::<LineV>::empty());
    }
    if i >= names.len() {
        Ok(())
    } else if fuel == 0 {
        Err(FsErr::TooDeep)
    } else {
        let cp = path_push(p, &names[i]);
        let cd = path_push(d, &names[i]);
        proof {
            broadcast use crate::paths::lemma_bytes_deep_view;

            assert(cp.deep_view() == p.deep_view().push(names.deep_view()[i as int]));
            assert(cd.deep_view() == d.deep_view().push(names.deep_view()[i as int]));
        }
        match relink(fs, out, &cp, Some(cd), fuel - 1) {
            Err(e) => Err(e),
            Ok(()) => {
                let r2 = relink_kids(fs, out, p, d, names, i + 1, fuel);
                proof {
                    let t1 = relink_v(
                        old(fs)@,
                        cp.deep_view(),
                        Some(cd.deep_view()),
                        (fuel - 1) as nat,
                    );
                    let t2 = relink_kids_v(
                        t1.0,
                        p.deep_view(),
                        d.deep_view(),
                        names.deep_view(),
                        i as nat + 1,
                        fuel as nat,
                    );
                    assert(lines_view(old(out)@) + (t1.1 + t2.1) =~= lines_view(old(out)@) + t1.1
                        + t2.1);
                }
                r2
            },
        }
    }
}

/// Walk the members of the plain directory `p` named from `i` on.
fn descend(
    fs: &mut Fs,
    out: &mut Vec<Line>,
    p: &Vec<Vec<u8>>,
    names: &Vec<Vec<u8>>,
    i: usize,
    fuel: u64,
) -> (r: Result<(), FsErr>)
    requires
        i <= names@.len(),
    ensures
        ({
            let t = descend_v(
                old(fs)@,
                p.deep_view(),
                names.deep_view(),
                i as nat,
                fuel as nat,
            );
            &&& final(fs)@ == t.0
            &&& lines_view(final(out)@) == lines_view(old(out)@) + t.1
            &&& r == t.2
        }),
    decreases fuel, 0int, names@.len() - i,
{
    proof {
        assert(lines_view(out@) =~= lines_view(out@) + Seq::<LineV>::empty());
    }
    if i >= names.len() {
        Ok(())
    } else if fuel == 0 {
        Err(FsErr::TooDeep)
    } else {
        let cp = path_push(p, &names[i]);
        proof {
            broadcast use crate::paths::lemma_bytes_deep_view;

            assert(cp.deep_view() == p.deep_view().push(names.deep_view()[i as int]));
        }
        match resolve_symlink(fs, out, &cp) {
            Err(e) => Err(e),
            Ok(dopt) => {
                match relink(fs, out, &cp, dopt, fuel - 1) {
                    Err(e) => {
                        proof {
                            let c = resolve_symlink_v(old(fs)@, cp.deep_view());
                            let t1 = relink_v(
                                old(fs)@,
                                cp.deep_view(),
                                c.1 -> Ok_0,
                                (fuel - 1) as nat,
                            );
                            assert(lines_view(old(out)@) + (c.0 + t1.1) =~= lines_view(old(out)@)
                                + c.0 + t1.1);
                        }
                        Err(e)
                    },
                    Ok(()) => {
                        let r2 = descend(fs, out, p, names, i + 1, fuel);
                        proof {
                            let c = resolve_symlink_v(old(fs)@, cp.deep_view());
                            let t1 = relink_v(
                                old(fs)@,
                                cp.deep_view(),
                                c.1 -> Ok_0,
                                (fuel - 1) as nat,
                            );
                            let t2 = descend_v(
                                t1.0,
                                p.deep_view(),
                                names.deep_view(),
                                i as nat + 1,
                                fuel as nat,
                            );
                            assert(lines_view(old(out)@) + (c.0 + t1.1 + t2.1) =~= lines_view(
                                old(out)@,
                            ) + c.0 + t1.1 + t2.1);
                        }
                        r2
                    },
                }
            },
        }
    }
}

/// One whole run over the starting paths from index `i` on.
fn exec_from(fs: &mut Fs, out: &mut Vec<Line>, inputs: &Vec<Vec<Vec<u8>>>, i: usize) -> (r: Result<
    (),
    FsErr,
>)
    requires
        i <= inputs@.len(),
    ensures
        ({
            let t = exec_v(old(fs)@, inputs.deep_view(), i as nat);
            &&& final(fs)@ == t.0
            &&& lines_view(final(out)@) == lines_view(old(out)@) + t.1
            &&& r == t.2
        }),
    decreases inputs@.len() - i,
{
    proof {
        assert(lines_view(out@) =~= lines_view(out@) + Seq::<LineV>::empty());
    }
    if i >= inputs.len() {
        Ok(())
    } else {
        let p = &inputs[i];
        proof {
            assert(p.deep_view() == inputs.deep_view()[i as int]);
        }
        if fs.exists_followed(p) {
            match resolve_symlink(fs, out, p) {
                Err(e) => Err(e),
                Ok(dopt) => {
                    match relink(fs, out, p, dopt, MAX_DEPTH) {
                        Err(e) => {
                            proof {
                                let c = resolve_symlink_v(old(fs)@, p.deep_view());
                                let t1 = relink_v(
                                    old(fs)@,
                                    p.deep_view(),
                                    c.1 -> Ok_0,
                                    MAX_DEPTH as nat,
                                );
                                assert(lines_view(old(out)@) + (c.0 + t1.1) =~= lines_view(
                                    old(out)@,
                                ) + c.0 + t1.1);
                            }
                            Err(e)
                        },
                        Ok(()) => {
                            let r2 = exec_from(fs, out, inputs, i + 1);
                            proof {
                                let c = resolve_symlink_v(old(fs)@, p.deep_view());
                                let t1 = relink_v(
                                    old(fs)@,
                                    p.deep_view(),
                                    c.1 -> Ok_0,
                                    MAX_DEPTH as nat,
                                );
                                let t2 = exec_v(t1.0, inputs.deep_view(), i as nat + 1);
                                assert(lines_view(old(out)@) + (c.0 + t1.1 + t2.1) =~= lines_view(
                                    old(out)@,
                                ) + c.0 + t1.1 + t2.1);
                            }
                            r2
                        },
                    }
                },
            }
        } else {
            emit(out, Line::SkipInput(clone_path(p)));
            let r2 = exec_from(fs, out, inputs, i + 1);
            proof {
                let t2 = exec_v(old(fs)@, inputs.deep_view(), i as nat + 1);
                assert(lines_view(old(out)@) + (seq![LineV::SkipInput(p.deep_view())] + t2.1) =~=
                lines_view(old(out)@).push(LineV::SkipInput(p.deep_view())) + t2.1);
            }
            r2
        }
    }
}

/// One whole run: each starting path in order is checked for existence,
/// classified, and relinked; a missing one is reported `SKIP INPUT` and
/// skipped; the first error aborts the remaining inputs.
pub fn exec(fs: &mut Fs, out: &mut Vec<Line>, inputs: &Vec<Vec<Vec<u8>>>) -> (r: Result<(), FsErr>)
    ensures
        ({
            let t = exec_v(old(fs)@, inputs.deep_view(), 0);
            &&& final(fs)@ == t.0
            &&& lines_view(final(out)@) == lines_view(old(out)@) + t.1
            &&& r == t.2
        }),
{
    exec_from(fs, out, inputs, 0)
}

} // verus!
