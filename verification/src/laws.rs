//! The laws of the relink pass, stated and proved over the model.
//!
//! Each public proof function here states one guarantee of the pass in the
//! vocabulary of `fs_model` and `relink`: what one run reports, what it
//! leaves on the filesystem, and in which order.

use vstd::prelude::*;

use crate::fs_model::canonicalize_v;
use crate::fs_model::is_dir_raw;
use crate::fs_model::find_from;
use crate::fs_model::lookup_v;
use crate::fs_model::resolve_v;
use crate::fs_model::EntryV;
use crate::fs_model::FsErr;
use crate::fs_model::LINK_FUEL;
use crate::paths::is_prefix_of;
use crate::fs_model::children_from;
use crate::fs_model::is_dir_v;
use crate::fs_model::read_dir_v;
use crate::relink::descend_v;
use crate::relink::exec_v;
use crate::relink::relink_kids_v;
use crate::relink::relink_v;
use crate::relink::resolve_symlink_v;
use crate::relink::LineV;

verus! {

/// Every stored path occurs once: the filesystem is well formed.
pub open spec fn unique_paths(fs: Seq<(Seq<Seq<u8>>, EntryV)>) -> bool {
    forall|i: int, j: int|
        0 <= i < fs.len() && 0 <= j < fs.len() && i != j ==> fs[i].0 != fs[j].0
}

/// Every strict nonempty prefix of `p` is a stored directory: `p` is reached
/// through plain directories, with no link on the way.
pub open spec fn plain_prefixes(fs: Seq<(Seq<Seq<u8>>, EntryV)>, p: Seq<Seq<u8>>) -> bool {
    forall|k: int| 0 <= k < p.len() - 1 ==> lookup_v(fs, #[trigger] p.take(k + 1)) == Some(
        EntryV::Dir,
    )
}

/// The raw target of a link at `p`: an absolute target as it stands, a
/// relative one joined to the link's parent.
pub open spec fn raw_target(p: Seq<Seq<u8>>, abs: bool, t: Seq<Seq<u8>>) -> Seq<Seq<u8>> {
    if abs {
        t
    } else if p.len() > 0 {
        p.drop_last() + t
    } else {
        t
    }
}

/// What `find_from` finds is a match, and a miss means no entry from `j` on
/// carries the path.
pub proof fn lemma_find_props(fs: Seq<(Seq<Seq<u8>>, EntryV)>, q: Seq<Seq<u8>>, j: nat)
    ensures
        match find_from(fs, q, j) {
            Some(i) => j <= i < fs.len() && fs[i].0 == q,
            None => forall|k: int| j <= k < fs.len() ==> fs[k].0 != q,
        },
    decreases fs.len() - j,
{
    if j < fs.len() && fs[j as int].0 != q {
        lemma_find_props(fs, q, j + 1);
    }
}

/// Under unique paths, the entry stored at any index is what lookup finds.
pub proof fn lemma_lookup_index(fs: Seq<(Seq<Seq<u8>>, EntryV)>, k: int)
    requires
        unique_paths(fs),
        0 <= k < fs.len(),
    ensures
        lookup_v(fs, fs[k].0) == Some(fs[k].1),
{
    lemma_find_props(fs, fs[k].0, 0);
}

/// Resolution of a path that is reached through plain directories: it walks
/// straight down, and the outcome is decided by the final entry alone.
pub proof fn lemma_resolve_walk(fs: Seq<(Seq<Seq<u8>>, EntryV)>, p: Seq<Seq<u8>>, j: nat, f: nat)
    requires
        j < p.len(),
        forall|k: int| j <= k < p.len() - 1 ==> lookup_v(fs, #[trigger] p.take(k + 1)) == Some(
            EntryV::Dir,
        ),
    ensures
        resolve_v(fs, p.take(j as int), p, j, f) == resolve_v(
            fs,
            p.take(p.len() - 1),
            p,
            (p.len() - 1) as nat,
            f,
        ),
    decreases p.len() - j,
{
    if j == p.len() - 1 {
    } else {
        let q = p.take(j as int).push(p[j as int]);
        assert(q =~= p.take(j as int + 1));
        assert(lookup_v(fs, q) == Some(EntryV::Dir));
        lemma_resolve_walk(fs, p, j + 1, f);
    }
}

/// A path reached through plain directories resolves to itself when its own
/// entry exists and is not a link, and to `NotFound` when it has no entry.
pub proof fn lemma_resolve_plain(fs: Seq<(Seq<Seq<u8>>, EntryV)>, p: Seq<Seq<u8>>, f: nat)
    requires
        plain_prefixes(fs, p),
    ensures
        (match lookup_v(fs, p) {
            Some(e) => !(e is Link),
            None => false,
        }) ==> resolve_v(fs, Seq::empty(), p, 0, f) == Ok::<Seq<Seq<u8>>, FsErr>(p),
        p.len() > 0 && lookup_v(fs, p) is None ==> resolve_v(fs, Seq::empty(), p, 0, f) == Err::<
            Seq<Seq<u8>>,
            FsErr,
        >(FsErr::NotFound),
        p.len() == 0 ==> resolve_v(fs, Seq::empty(), p, 0, f) == Ok::<Seq<Seq<u8>>, FsErr>(p),
{
    if p.len() == 0 {
        assert(resolve_v(fs, Seq::empty(), p, 0, f) == Ok::<Seq<Seq<u8>>, FsErr>(Seq::empty()));
        assert(p =~= Seq::<Seq<u8>>::empty());
    } else {
        assert(Seq::<Seq<u8>>::empty() =~= p.take(0));
        lemma_resolve_walk(fs, p, 0, f);
        let last = (p.len() - 1) as nat;
        let q = p.take(last as int).push(p[last as int]);
        assert(q =~= p);
        match lookup_v(fs, p) {
            None => {}
            Some(e) => {
                if !(e is Link) {
                    assert(resolve_v(fs, q, p, last + 1, f) == Ok::<Seq<Seq<u8>>, FsErr>(q));
                }
            }
        }
    }
}

/// A link whose raw target is the link itself resolves to a loop, whatever
/// the fuel.
pub proof fn lemma_self_loop(
    fs: Seq<(Seq<Seq<u8>>, EntryV)>,
    p: Seq<Seq<u8>>,
    abs: bool,
    t: Seq<Seq<u8>>,
    f: nat,
)
    requires
        p.len() > 0,
        plain_prefixes(fs, p),
        lookup_v(fs, p) == Some(EntryV::Link(abs, t)),
        raw_target(p, abs, t) == p,
    ensures
        resolve_v(fs, Seq::empty(), p, 0, f) == Err::<Seq<Seq<u8>>, FsErr>(FsErr::LinkLoop),
    decreases f,
{
    assert(Seq::<Seq<u8>>::empty() =~= p.take(0));
    lemma_resolve_walk(fs, p, 0, f);
    let last = (p.len() - 1) as nat;
    let done = p.take(last as int);
    let q = done.push(p[last as int]);
    assert(q =~= p);
    if f > 0 {
        let raw = if abs {
            t
        } else {
            done + t
        };
        assert(done =~= p.drop_last());
        assert(raw == raw_target(p, abs, t));
        lemma_self_loop(fs, p, abs, t, (f - 1) as nat);
    }
}

/// Law: a link whose target, relative components resolved, is the link
/// itself is recognized in both guards.  Classifying it reports exactly
/// `SKIP SELF REFERENCE` and recovers; relinking it as not-a-link changes
/// nothing; relinking it as its own already-resolved target reports the same
/// line and changes nothing.  The link stays on the filesystem untouched.
pub proof fn lemma_self_reference_skipped(
    fs: Seq<(Seq<Seq<u8>>, EntryV)>,
    p: Seq<Seq<u8>>,
    abs: bool,
    t: Seq<Seq<u8>>,
    fuel: nat,
)
    requires
        p.len() > 0,
        plain_prefixes(fs, p),
        lookup_v(fs, p) == Some(EntryV::Link(abs, t)),
        raw_target(p, abs, t) == p,
    ensures
        resolve_symlink_v(fs, p) == (seq![LineV::SkipSelfReference(p)], Ok::<
            Option<Seq<Seq<u8>>>,
            FsErr,
        >(None)),
        relink_v(fs, p, None, fuel) == (fs, Seq::<LineV>::empty(), Ok::<(), FsErr>(())),
        relink_v(fs, p, Some(p), fuel) == (fs, seq![LineV::SkipSelfReference(p)], Ok::<
            (),
            FsErr,
        >(())),
{
    lemma_self_loop(fs, p, abs, t, LINK_FUEL as nat);
    assert(canonicalize_v(fs, raw_target(p, abs, t)) == Err::<Seq<Seq<u8>>, FsErr>(
        FsErr::LinkLoop,
    ));
    assert(canonicalize_v(fs, p) == Err::<Seq<Seq<u8>>, FsErr>(FsErr::LinkLoop));
}

/// Law: a starting path that does not exist is reported `SKIP INPUT` and the
/// filesystem is left exactly as it was.
pub proof fn lemma_missing_input_skipped(fs: Seq<(Seq<Seq<u8>>, EntryV)>, p: Seq<Seq<u8>>)
    requires
        !crate::fs_model::exists_v(fs, p),
    ensures
        exec_v(fs, seq![p], 0) == (fs, seq![LineV::SkipInput(p)], Ok::<(), FsErr>(())),
{
    let r2 = exec_v(fs, seq![p], 1);
    assert(r2 == (fs, Seq::<LineV>::empty(), Ok::<(), FsErr>(())));
    assert(seq![LineV::SkipInput(p)] + Seq::<LineV>::empty() =~= seq![LineV::SkipInput(p)]);
}

/// Law: a link to a directory that is one of the link's own ancestors is
/// reported `SKIP RECURSIVE` and left alone: no mutation at all.
pub proof fn lemma_ancestor_target_skipped(
    fs: Seq<(Seq<Seq<u8>>, EntryV)>,
    p: Seq<Seq<u8>>,
    d: Seq<Seq<u8>>,
    fuel: nat,
)
    requires
        d != p,
        d.len() > 0,
        is_prefix_of(d, p),
        plain_prefixes(fs, d),
        lookup_v(fs, d) == Some(EntryV::Dir),
    ensures
        relink_v(fs, p, Some(d), fuel) == (fs, seq![LineV::SkipRecursive(p)], Ok::<(), FsErr>(())),
{
    lemma_resolve_plain(fs, d, LINK_FUEL as nat);
    assert(canonicalize_v(fs, d) == Ok::<Seq<Seq<u8>>, FsErr>(d));
    assert(!crate::fs_model::is_file_v(fs, d));
}

/// Removing one entry keeps the paths unique.
pub proof fn lemma_unique_remove(fs: Seq<(Seq<Seq<u8>>, EntryV)>, i: int)
    requires
        unique_paths(fs),
        0 <= i < fs.len(),
    ensures
        unique_paths(fs.remove(i)),
{
    let fs1 = fs.remove(i);
    assert forall|a: int, b: int|
        0 <= a < fs1.len() && 0 <= b < fs1.len() && a != b implies fs1[a].0 != fs1[b].0 by {
        let a0 = if a < i {
            a
        } else {
            a + 1
        };
        let b0 = if b < i {
            b
        } else {
            b + 1
        };
        assert(fs1[a] == fs[a0]);
        assert(fs1[b] == fs[b0]);
    }
}

/// Under unique paths, lookup after removing the entry at `i` misses that
/// entry's path and finds every other path as before.
pub proof fn lemma_lookup_remove(fs: Seq<(Seq<Seq<u8>>, EntryV)>, i: int, q: Seq<Seq<u8>>)
    requires
        unique_paths(fs),
        0 <= i < fs.len(),
    ensures
        q == fs[i].0 ==> lookup_v(fs.remove(i), q) is None,
        q != fs[i].0 ==> lookup_v(fs.remove(i), q) == lookup_v(fs, q),
{
    let fs1 = fs.remove(i);
    lemma_unique_remove(fs, i);
    lemma_find_props(fs, q, 0);
    lemma_find_props(fs1, q, 0);
    if q == fs[i].0 {
        if lookup_v(fs1, q) is Some {
            let k = find_from(fs1, q, 0) -> Some_0;
            let k0 = if k < i {
                k
            } else {
                k + 1
            };
            assert(fs1[k] == fs[k0]);
        }
    } else {
        match find_from(fs, q, 0) {
            Some(k) => {
                let k1 = if k < i {
                    k
                } else {
                    k - 1
                };
                assert(fs1[k1] == fs[k]);
                lemma_lookup_index(fs1, k1);
            },
            None => {
                if lookup_v(fs1, q) is Some {
                    let k = find_from(fs1, q, 0) -> Some_0;
                    let k0 = if k < i {
                        k
                    } else {
                        k + 1
                    };
                    assert(fs1[k] == fs[k0]);
                }
            },
        }
    }
}

/// Lookup after appending one entry: an absent path is now found there, and
/// every already-present path is found as before.
pub proof fn lemma_lookup_push(
    fs: Seq<(Seq<Seq<u8>>, EntryV)>,
    e: (Seq<Seq<u8>>, EntryV),
    q: Seq<Seq<u8>>,
)
    ensures
        lookup_v(fs, q) is Some ==> lookup_v(fs.push(e), q) == lookup_v(fs, q),
        lookup_v(fs, q) is None && e.0 == q ==> lookup_v(fs.push(e), q) == Some(e.1),
        lookup_v(fs, q) is None && e.0 != q ==> lookup_v(fs.push(e), q) is None,
{
    let fs2 = fs.push(e);
    lemma_find_props(fs, q, 0);
    lemma_find_props(fs2, q, 0);
    lemma_find_extend(fs, e, q, 0);
}

/// `find_from` over an appended list: a hit is unchanged; a miss now finds
/// the new final entry exactly when its path matches.
pub proof fn lemma_find_extend(
    fs: Seq<(Seq<Seq<u8>>, EntryV)>,
    e: (Seq<Seq<u8>>, EntryV),
    q: Seq<Seq<u8>>,
    j: nat,
)
    requires
        j <= fs.len(),
    ensures
        match find_from(fs, q, j) {
            Some(i) => find_from(fs.push(e), q, j) == Some(i),
            None => find_from(fs.push(e), q, j) == (if e.0 == q {
                Some(fs.len() as int)
            } else {
                None
            }),
        },
    decreases fs.len() - j,
{
    if j < fs.len() {
        assert(fs.push(e)[j as int] == fs[j as int]);
        if fs[j as int].0 != q {
            lemma_find_extend(fs, e, q, j + 1);
        }
    } else {
        assert(fs.push(e)[j as int] == e);
        if e.0 != q {
            assert(find_from(fs.push(e), q, j + 1) is None);
        }
    }
}

/// Law: a link to a regular file is reported `COPY`, the link is removed,
/// and a regular file with exactly the target's bytes stands at the link's
/// path; every other path is untouched.
pub proof fn lemma_file_link_copied(
    fs: Seq<(Seq<Seq<u8>>, EntryV)>,
    p: Seq<Seq<u8>>,
    d: Seq<Seq<u8>>,
    b: Seq<u8>,
    abs: bool,
    t: Seq<Seq<u8>>,
    fuel: nat,
)
    requires
        unique_paths(fs),
        p.len() > 0,
        d.len() > 0,
        d != p,
        plain_prefixes(fs, d),
        lookup_v(fs, d) == Some(EntryV::File(b)),
        lookup_v(fs, p) == Some(EntryV::Link(abs, t)),
        forall|k: int| 1 <= k <= d.len() ==> #[trigger] d.take(k) != p,
        is_dir_raw(fs, p.drop_last()),
    ensures
        ({
            let r = relink_v(fs, p, Some(d), fuel);
            &&& r.2 == Ok::<(), FsErr>(())
            &&& r.1 == seq![LineV::FileCopy(d, p)]
            &&& lookup_v(r.0, p) == Some(EntryV::File(b))
            &&& forall|q: Seq<Seq<u8>>| q != p ==> lookup_v(r.0, q) == lookup_v(fs, q)
        }),
{
    lemma_resolve_plain(fs, d, LINK_FUEL as nat);
    assert(canonicalize_v(fs, d) == Ok::<Seq<Seq<u8>>, FsErr>(d));
    assert(crate::fs_model::is_file_v(fs, d));

    lemma_find_props(fs, p, 0);
    let i = find_from(fs, p, 0) -> Some_0;
    let fs1 = fs.remove(i);
    assert(crate::fs_model::maybe_remove_v(fs, p) == Ok::<_, FsErr>(fs1));
    lemma_unique_remove(fs, i);

    // Resolution of `d` is unaffected: no prefix of `d` is `p`.
    assert forall|k: int| 0 <= k < d.len() implies lookup_v(fs1, #[trigger] d.take(k + 1))
        == lookup_v(fs, d.take(k + 1)) by {
        assert(d.take(k + 1) != p);
        lemma_lookup_remove(fs, i, d.take(k + 1));
    }
    lemma_lookup_remove(fs, i, d);
    assert(lookup_v(fs1, d) == Some(EntryV::File(b)));
    assert(plain_prefixes(fs1, d));
    lemma_resolve_plain(fs1, d, LINK_FUEL as nat);
    assert(canonicalize_v(fs1, d) == Ok::<Seq<Seq<u8>>, FsErr>(d));

    // The write lands in the hole the removal left.
    lemma_lookup_remove(fs, i, p);
    assert(lookup_v(fs1, p) is None);
    lemma_find_props(fs1, p, 0);
    lemma_lookup_remove(fs, i, p.drop_last());
    assert(p.drop_last().len() < p.len());
    assert(p.drop_last() != p);
    assert(is_dir_raw(fs1, p.drop_last()));
    let fs2 = fs1.push((p, EntryV::File(b)));
    assert(crate::fs_model::write_file_v(fs1, p, b) == Ok::<_, FsErr>(fs2));
    assert(crate::fs_model::copy_file_v(fs1, d, p) == Ok::<_, FsErr>(fs2));

    lemma_lookup_push(fs1, (p, EntryV::File(b)), p);
    assert(lookup_v(fs2, p) == Some(EntryV::File(b)));
    assert forall|q: Seq<Seq<u8>>| q != p implies lookup_v(fs2, q) == lookup_v(fs, q) by {
        lemma_lookup_remove(fs, i, q);
        lemma_lookup_push(fs1, (p, EntryV::File(b)), q);
    }
}

/// No entry strictly below `p` is a link: the subtree is fully materialized.
pub open spec fn subtree_link_free(fs: Seq<(Seq<Seq<u8>>, EntryV)>, p: Seq<Seq<u8>>) -> bool {
    forall|j: int|
        0 <= j < fs.len() && is_prefix_of(p, (#[trigger] fs[j]).0) && fs[j].0.len() > p.len()
            ==> !(fs[j].1 is Link)
}

/// Every name a directory listing yields belongs to a stored entry one
/// component below the directory.
pub proof fn lemma_children_exist(fs: Seq<(Seq<Seq<u8>>, EntryV)>, d: Seq<Seq<u8>>, i: nat, j: int)
    requires
        0 <= j < children_from(fs, d, i).len(),
    ensures
        exists|k: int|
            i <= k < fs.len() && (#[trigger] fs[k]).0 == d.push(children_from(fs, d, i)[j]),
    decreases fs.len() - i,
{
    let names = children_from(fs, d, i);
    if i < fs.len() {
        let rest = children_from(fs, d, i + 1);
        if fs[i as int].0.len() == d.len() + 1 && fs[i as int].0.drop_last() == d {
            if j == 0 {
                assert(fs[i as int].0 =~= d.push(fs[i as int].0.last()));
                assert(fs[i as int].0 == d.push(names[0]));
            } else {
                assert(names[j] == rest[j - 1]);
                lemma_children_exist(fs, d, i + 1, j - 1);
            }
        } else {
            lemma_children_exist(fs, d, i + 1, j);
        }
    }
}

/// A subtree with no links left in it is a fixed point of `relink`: nothing
/// is written and nothing is reported.
pub proof fn lemma_fixed_point_relink(fs: Seq<(Seq<Seq<u8>>, EntryV)>, p: Seq<Seq<u8>>, fuel: nat)
    requires
        subtree_link_free(fs, p),
        plain_prefixes(fs, p),
        p.len() == 0 || (match lookup_v(fs, p) {
            Some(e) => !(e is Link),
            None => false,
        }),
    ensures
        relink_v(fs, p, None, fuel).0 == fs,
        relink_v(fs, p, None, fuel).1 == Seq::<LineV>::empty(),
    decreases fuel, 1nat, 0nat,
{
    lemma_resolve_plain(fs, p, LINK_FUEL as nat);
    assert(canonicalize_v(fs, p) == Ok::<Seq<Seq<u8>>, FsErr>(p));
    if is_dir_v(fs, p) {
        assert(read_dir_v(fs, p) == Ok::<Seq<Seq<u8>>, FsErr>(children_from(fs, p, 0)));
        lemma_fixed_point_descend(fs, p, children_from(fs, p, 0), 0, fuel);
    }
}

/// The walk over the members of a link-free directory: nothing is written
/// and nothing is reported, member by member.
pub proof fn lemma_fixed_point_descend(
    fs: Seq<(Seq<Seq<u8>>, EntryV)>,
    p: Seq<Seq<u8>>,
    names: Seq<Seq<u8>>,
    i: nat,
    fuel: nat,
)
    requires
        subtree_link_free(fs, p),
        plain_prefixes(fs, p),
        is_dir_raw(fs, p),
        names == children_from(fs, p, 0),
        i <= names.len(),
    ensures
        descend_v(fs, p, names, i, fuel).0 == fs,
        descend_v(fs, p, names, i, fuel).1 == Seq::<LineV>::empty(),
    decreases fuel, 0nat, names.len() - i,
{
    if i >= names.len() || fuel == 0 {
    } else {
        let cp = p.push(names[i as int]);
        lemma_children_exist(fs, p, 0, i as int);
        lemma_find_props(fs, cp, 0);
        let witness = choose|k: int| 0 <= k < fs.len() && (#[trigger] fs[k]).0 == cp;
        assert(fs[witness].0 == cp);
        assert(find_from(fs, cp, 0) is Some);
        let m = find_from(fs, cp, 0) -> Some_0;
        assert(cp.take(p.len() as int) =~= p);
        assert(is_prefix_of(p, fs[m].0) && fs[m].0.len() > p.len());
        assert(!(fs[m].1 is Link));
        assert(resolve_symlink_v(fs, cp) == (Seq::<LineV>::empty(), Ok::<
            Option<Seq<Seq<u8>>>,
            FsErr,
        >(None)));

        assert forall|kk: int| 0 <= kk < cp.len() - 1 implies lookup_v(fs, #[trigger] cp.take(
            kk + 1,
        )) == Some(EntryV::Dir) by {
            if kk < p.len() - 1 {
                assert(cp.take(kk + 1) =~= p.take(kk + 1));
            } else {
                assert(kk == p.len() - 1);
                assert(cp.take(kk + 1) =~= p);
            }
        }
        assert forall|jj: int|
            0 <= jj < fs.len() && is_prefix_of(cp, (#[trigger] fs[jj]).0) && fs[jj].0.len()
                > cp.len() implies !(fs[jj].1 is Link) by {
            assert(fs[jj].0.take(cp.len() as int).take(p.len() as int) =~= fs[jj].0.take(
                p.len() as int,
            ));
            assert(is_prefix_of(p, fs[jj].0));
        }
        lemma_fixed_point_relink(fs, cp, (fuel - 1) as nat);
        let r1 = relink_v(fs, cp, None, (fuel - 1) as nat);
        assert(Seq::<LineV>::empty() + r1.1 =~= Seq::<LineV>::empty());
        match r1.2 {
            Err(_) => {
            },
            Ok(()) => {
                lemma_fixed_point_descend(fs, p, names, i + 1, fuel);
                let r2 = descend_v(fs, p, names, i + 1, fuel);
                assert(Seq::<LineV>::empty() + r1.1 + r2.1 =~= Seq::<LineV>::empty());
            },
        }
    }
}

/// Law: a run over an already fully materialized tree is a no-op: the second
/// run over a relinked starting path writes nothing and reports nothing.
pub proof fn lemma_fixed_point_run(fs: Seq<(Seq<Seq<u8>>, EntryV)>, p: Seq<Seq<u8>>)
    requires
        subtree_link_free(fs, p),
        plain_prefixes(fs, p),
        match lookup_v(fs, p) {
            Some(e) => !(e is Link),
            None => p.len() == 0,
        },
    ensures
        exec_v(fs, seq![p], 0).0 == fs,
        exec_v(fs, seq![p], 0).1 == Seq::<LineV>::empty(),
{
    lemma_resolve_plain(fs, p, LINK_FUEL as nat);
    assert(canonicalize_v(fs, p) == Ok::<Seq<Seq<u8>>, FsErr>(p));
    assert(crate::fs_model::exists_v(fs, p));
    assert(resolve_symlink_v(fs, p) == (Seq::<LineV>::empty(), Ok::<
        Option<Seq<Seq<u8>>>,
        FsErr,
    >(None)));
    lemma_fixed_point_relink(fs, p, crate::relink::MAX_DEPTH as nat);
    let r1 = relink_v(fs, p, None, crate::relink::MAX_DEPTH as nat);
    assert(Seq::<LineV>::empty() + r1.1 =~= Seq::<LineV>::empty());
    match r1.2 {
        Err(_) => {
        },
        Ok(()) => {
            let r2 = exec_v(fs, seq![p], 1);
            assert(r2 == (fs, Seq::<LineV>::empty(), Ok::<(), FsErr>(())));
            assert(Seq::<LineV>::empty() + r1.1 + r2.1 =~= Seq::<LineV>::empty());
        },
    }
}

/// A line whose action writes below `p`: a `COPY` or `POPULATE` whose link
/// path lies at or under `p`.  Skip lines are in scope wherever they stand.
pub open spec fn line_in_scope(l: LineV, p: Seq<Seq<u8>>) -> bool {
    match l {
        LineV::FileCopy(_, q) => is_prefix_of(p, q),
        LineV::DirPopulate(_, q) => is_prefix_of(p, q),
        _ => true,
    }
}

/// As `line_in_scope`, but strictly below `p`.
pub open spec fn line_below(l: LineV, p: Seq<Seq<u8>>) -> bool {
    match l {
        LineV::FileCopy(_, q) => is_prefix_of(p, q) && q.len() > p.len(),
        LineV::DirPopulate(_, q) => is_prefix_of(p, q) && q.len() > p.len(),
        _ => true,
    }
}

/// Every `COPY` or `POPULATE` that relinking `p` reports is at or below `p`.
pub proof fn lemma_scoped_relink(
    fs: Seq<(Seq<Seq<u8>>, EntryV)>,
    p: Seq<Seq<u8>>,
    dest: Option<Seq<Seq<u8>>>,
    fuel: nat,
)
    ensures
        forall|x: int|
            0 <= x < relink_v(fs, p, dest, fuel).1.len() ==> line_in_scope(
                #[trigger] relink_v(fs, p, dest, fuel).1[x],
                p,
            ),
    decreases fuel, 1nat, 0nat,
{
    assert(p.take(p.len() as int) =~= p);
    let t = relink_v(fs, p, dest, fuel);
    match dest {
        Some(d) => {
            if d == p {
                assert(forall|x: int| 0 <= x < t.1.len() ==> t.1[x] == LineV::SkipSelfReference(d));
            } else if crate::fs_model::is_file_v(fs, d) {
                assert(forall|x: int| 0 <= x < t.1.len() ==> t.1[x] == LineV::FileCopy(d, p));
            } else if is_prefix_of(d, p) {
                assert(forall|x: int| 0 <= x < t.1.len() ==> t.1[x] == LineV::SkipRecursive(p));
            } else {
                let ls0 = seq![LineV::DirPopulate(d, p)];
                match crate::fs_model::maybe_remove_v(fs, p) {
                    Err(_) => {
                        assert(t.1 == ls0);
                    },
                    Ok(fs1) => match crate::fs_model::create_dir_v(fs1, p) {
                        Err(_) => {
                            assert(t.1 == ls0);
                        },
                        Ok(fs2) => match read_dir_v(fs2, d) {
                            Err(_) => {
                                assert(t.1 == ls0);
                            },
                            Ok(names) => {
                                lemma_scoped_kids(fs2, p, d, names, 0, fuel);
                                let rk = relink_kids_v(fs2, p, d, names, 0, fuel);
                                assert(t.1 == ls0 + rk.1);
                                assert forall|x: int| 0 <= x < t.1.len() implies line_in_scope(
                                    #[trigger] t.1[x],
                                    p,
                                ) by {
                                    if x == 0 {
                                        assert(t.1[x] == LineV::DirPopulate(d, p));
                                    } else {
                                        assert(t.1[x] == rk.1[x - 1]);
                                        assert(line_below(rk.1[x - 1], p));
                                    }
                                }
                            },
                        },
                    },
                }
            }
        },
        None => {
            if is_dir_v(fs, p) {
                match read_dir_v(fs, p) {
                    Err(_) => {
                        assert(t.1 == Seq::<LineV>::empty());
                    },
                    Ok(names) => {
                        lemma_scoped_descend(fs, p, names, 0, fuel);
                        let rd = descend_v(fs, p, names, 0, fuel);
                        assert(t.1 == rd.1);
                        assert forall|x: int| 0 <= x < t.1.len() implies line_in_scope(
                            #[trigger] t.1[x],
                            p,
                        ) by {
                            assert(line_below(rd.1[x], p));
                        }
                    },
                }
            }
        },
    }
}

/// Every `COPY` or `POPULATE` that populating the members of `p` reports is
/// strictly below `p`.
pub proof fn lemma_scoped_kids(
    fs: Seq<(Seq<Seq<u8>>, EntryV)>,
    p: Seq<Seq<u8>>,
    d: Seq<Seq<u8>>,
    names: Seq<Seq<u8>>,
    i: nat,
    fuel: nat,
)
    ensures
        forall|x: int|
            0 <= x < relink_kids_v(fs, p, d, names, i, fuel).1.len() ==> line_below(
                #[trigger] relink_kids_v(fs, p, d, names, i, fuel).1[x],
                p,
            ),
    decreases fuel, 0nat, names.len() - i,
{
    let t = relink_kids_v(fs, p, d, names, i, fuel);
    if i >= names.len() || fuel == 0 {
    } else {
        let cp = p.push(names[i as int]);
        let cd = d.push(names[i as int]);
        lemma_scoped_relink(fs, cp, Some(cd), (fuel - 1) as nat);
        let r1 = relink_v(fs, cp, Some(cd), (fuel - 1) as nat);
        assert(cp.take(p.len() as int) =~= p);
        assert forall|x: int| 0 <= x < r1.1.len() implies line_below(#[trigger] r1.1[x], p) by {
            lemma_scope_narrows(r1.1[x], p, cp);
        }
        match r1.2 {
            Err(_) => {
                assert(t.1 == r1.1);
            },
            Ok(()) => {
                lemma_scoped_kids(r1.0, p, d, names, i + 1, fuel);
                let r2 = relink_kids_v(r1.0, p, d, names, i + 1, fuel);
                assert(t.1 == r1.1 + r2.1);
                assert forall|x: int| 0 <= x < t.1.len() implies line_below(
                    #[trigger] t.1[x],
                    p,
                ) by {
                    if x < r1.1.len() {
                        assert(t.1[x] == r1.1[x]);
                    } else {
                        assert(t.1[x] == r2.1[x - r1.1.len()]);
                        assert(line_below(r2.1[x - r1.1.len()], p));
                    }
                }
            },
        }
    }
}

/// A line in scope of a child path is strictly below the parent path.
pub proof fn lemma_scope_narrows(l: LineV, p: Seq<Seq<u8>>, cp: Seq<Seq<u8>>)
    requires
        line_in_scope(l, cp),
        cp.len() == p.len() + 1,
        is_prefix_of(p, cp),
    ensures
        line_below(l, p),
{
    match l {
        LineV::FileCopy(_, q) => {
            assert(q.take(cp.len() as int).take(p.len() as int) =~= q.take(p.len() as int));
            assert(cp.take(p.len() as int) == p);
        },
        LineV::DirPopulate(_, q) => {
            assert(q.take(cp.len() as int).take(p.len() as int) =~= q.take(p.len() as int));
            assert(cp.take(p.len() as int) == p);
        },
        _ => {
        },
    }
}

/// Every `COPY` or `POPULATE` that walking the members of `p` reports is
/// strictly below `p`.
pub proof fn lemma_scoped_descend(
    fs: Seq<(Seq<Seq<u8>>, EntryV)>,
    p: Seq<Seq<u8>>,
    names: Seq<Seq<u8>>,
    i: nat,
    fuel: nat,
)
    ensures
        forall|x: int|
            0 <= x < descend_v(fs, p, names, i, fuel).1.len() ==> line_below(
                #[trigger] descend_v(fs, p, names, i, fuel).1[x],
                p,
            ),
    decreases fuel, 0nat, names.len() - i,
{
    let t = descend_v(fs, p, names, i, fuel);
    if i >= names.len() || fuel == 0 {
    } else {
        let cp = p.push(names[i as int]);
        let c = resolve_symlink_v(fs, cp);
        assert(forall|x: int| 0 <= x < c.0.len() ==> line_below(#[trigger] c.0[x], p));
        match c.1 {
            Err(_) => {
                assert(t.1 == c.0);
            },
            Ok(dopt) => {
                lemma_scoped_relink(fs, cp, dopt, (fuel - 1) as nat);
                let r1 = relink_v(fs, cp, dopt, (fuel - 1) as nat);
                assert(cp.take(p.len() as int) =~= p);
                assert forall|x: int| 0 <= x < r1.1.len() implies line_below(
                    #[trigger] r1.1[x],
                    p,
                ) by {
                    lemma_scope_narrows(r1.1[x], p, cp);
                }
                match r1.2 {
                    Err(_) => {
                        assert(t.1 == c.0 + r1.1);
                        assert forall|x: int| 0 <= x < t.1.len() implies line_below(
                            #[trigger] t.1[x],
                            p,
                        ) by {
                            if x < c.0.len() {
                                assert(t.1[x] == c.0[x]);
                            } else {
                                assert(t.1[x] == r1.1[x - c.0.len()]);
                            }
                        }
                    },
                    Ok(()) => {
                        lemma_scoped_descend(r1.0, p, names, i + 1, fuel);
                        let r2 = descend_v(r1.0, p, names, i + 1, fuel);
                        assert(t.1 == c.0 + r1.1 + r2.1);
                        assert forall|x: int| 0 <= x < t.1.len() implies line_below(
                            #[trigger] t.1[x],
                            p,
                        ) by {
                            if x < c.0.len() {
                                assert(t.1[x] == c.0[x]);
                            } else if x < c.0.len() + r1.1.len() {
                                assert(t.1[x] == r1.1[x - c.0.len()]);
                            } else {
                                assert(t.1[x] == r2.1[x - c.0.len() - r1.1.len()]);
                                assert(line_below(r2.1[x - c.0.len() - r1.1.len()], p));
                            }
                        }
                    },
                }
            },
        }
    }
}

/// Law: for a directory target, the `POPULATE` line for the directory comes
/// first, and every further `COPY` or `POPULATE` line of the same relink is
/// for a path strictly below the link: a directory is always announced
/// before anything inside it.
pub proof fn lemma_populate_precedes_children(
    fs: Seq<(Seq<Seq<u8>>, EntryV)>,
    p: Seq<Seq<u8>>,
    d: Seq<Seq<u8>>,
    fuel: nat,
)
    requires
        d != p,
        !crate::fs_model::is_file_v(fs, d),
        !is_prefix_of(d, p),
    ensures
        ({
            let ls = relink_v(fs, p, Some(d), fuel).1;
            &&& ls.len() >= 1
            &&& ls[0] == LineV::DirPopulate(d, p)
            &&& forall|x: int| 1 <= x < ls.len() ==> line_below(#[trigger] ls[x], p)
        }),
{
    let t = relink_v(fs, p, Some(d), fuel);
    let ls0 = seq![LineV::DirPopulate(d, p)];
    match crate::fs_model::maybe_remove_v(fs, p) {
        Err(_) => {
            assert(t.1 == ls0);
        },
        Ok(fs1) => match crate::fs_model::create_dir_v(fs1, p) {
            Err(_) => {
                assert(t.1 == ls0);
            },
            Ok(fs2) => match read_dir_v(fs2, d) {
                Err(_) => {
                    assert(t.1 == ls0);
                },
                Ok(names) => {
                    lemma_scoped_kids(fs2, p, d, names, 0, fuel);
                    let rk = relink_kids_v(fs2, p, d, names, 0, fuel);
                    assert(t.1 == ls0 + rk.1);
                    assert(t.1[0] == LineV::DirPopulate(d, p));
                    assert forall|x: int| 1 <= x < t.1.len() implies line_below(
                        #[trigger] t.1[x],
                        p,
                    ) by {
                        assert(t.1[x] == rk.1[x - 1]);
                        assert(line_below(rk.1[x - 1], p));
                    }
                },
            },
        },
    }
}

/// Every link entry of `fs1` already stood, unchanged, in `fs0`.
pub open spec fn links_preserved(
    fs0: Seq<(Seq<Seq<u8>>, EntryV)>,
    fs1: Seq<(Seq<Seq<u8>>, EntryV)>,
) -> bool {
    forall|j: int|
        0 <= j < fs1.len() && (#[trigger] fs1[j]).1 is Link ==> fs0.contains(fs1[j])
}

/// `links_preserved` composes along a run's successive filesystem states.
pub proof fn lemma_links_preserved_trans(
    fs0: Seq<(Seq<Seq<u8>>, EntryV)>,
    fs1: Seq<(Seq<Seq<u8>>, EntryV)>,
    fs2: Seq<(Seq<Seq<u8>>, EntryV)>,
)
    requires
        links_preserved(fs0, fs1),
        links_preserved(fs1, fs2),
    ensures
        links_preserved(fs0, fs2),
{
    assert forall|j: int| 0 <= j < fs2.len() && (#[trigger] fs2[j]).1 is Link implies fs0.contains(
        fs2[j],
    ) by {
        assert(fs1.contains(fs2[j]));
        let k = choose|k: int| 0 <= k < fs1.len() && fs1[k] == fs2[j];
        assert(fs1[k].1 is Link);
    }
}

/// Each single mutation of the pass keeps `links_preserved`: removal only
/// drops entries, and the pass writes only files and directories.
pub proof fn lemma_links_preserved_steps(fs: Seq<(Seq<Seq<u8>>, EntryV)>, p: Seq<Seq<u8>>, b: Seq<
    u8,
>)
    ensures
        (match crate::fs_model::maybe_remove_v(fs, p) {
            Ok(fs1) => links_preserved(fs, fs1),
            Err(_) => true,
        }),
        (match crate::fs_model::write_file_v(fs, p, b) {
            Ok(fs1) => links_preserved(fs, fs1),
            Err(_) => true,
        }),
        (match crate::fs_model::create_dir_v(fs, p) {
            Ok(fs1) => links_preserved(fs, fs1),
            Err(_) => true,
        }),
{
    match crate::fs_model::maybe_remove_v(fs, p) {
        Ok(fs1) => {
            if fs1 != fs {
                let i = find_from(fs, p, 0) -> Some_0;
                lemma_find_props(fs, p, 0);
                assert forall|j: int|
                    0 <= j < fs1.len() && (#[trigger] fs1[j]).1 is Link implies fs.contains(
                    fs1[j],
                ) by {
                    if j < i {
                        assert(fs1[j] == fs[j]);
                    } else {
                        assert(fs1[j] == fs[j + 1]);
                    }
                }
            }
        },
        Err(_) => {},
    }
    match crate::fs_model::write_file_v(fs, p, b) {
        Ok(fs1) => {
            assert forall|j: int|
                0 <= j < fs1.len() && (#[trigger] fs1[j]).1 is Link implies fs.contains(
                fs1[j],
            ) by {
                match find_from(fs, p, 0) {
                    Some(i) => {
                        lemma_find_props(fs, p, 0);
                        assert(fs1 == fs.update(i, (p, EntryV::File(b))));
                        if j == i {
                            assert(fs1[j].1 == EntryV::File(b));
                        } else {
                            assert(fs1[j] == fs[j]);
                        }
                    },
                    None => {
                        assert(fs1 == fs.push((p, EntryV::File(b))));
                        assert(j < fs.len());
                        assert(fs1[j] == fs[j]);
                    },
                }
            }
        },
        Err(_) => {},
    }
    match crate::fs_model::create_dir_v(fs, p) {
        Ok(fs1) => {
            assert forall|j: int|
                0 <= j < fs1.len() && (#[trigger] fs1[j]).1 is Link implies fs.contains(
                fs1[j],
            ) by {
                assert(fs1[j] == fs[j]);
            }
        },
        Err(_) => {},
    }
}

/// Law: the pass never creates a link.  Whatever `relink` does, every link
/// entry of the resulting filesystem already stood in the starting one: the
/// pass only removes links and writes plain files and directories, which is
/// what drives a relinked tree toward a fixed point.
pub proof fn lemma_no_links_created_relink(
    fs: Seq<(Seq<Seq<u8>>, EntryV)>,
    p: Seq<Seq<u8>>,
    dest: Option<Seq<Seq<u8>>>,
    fuel: nat,
)
    ensures
        links_preserved(fs, relink_v(fs, p, dest, fuel).0),
    decreases fuel, 1nat, 0nat,
{
    let t = relink_v(fs, p, dest, fuel);
    match dest {
        Some(d) => {
            if d == p || is_prefix_of(d, p) && !crate::fs_model::is_file_v(fs, d) {
                assert(t.0 == fs);
            } else if crate::fs_model::is_file_v(fs, d) {
                match crate::fs_model::maybe_remove_v(fs, p) {
                    Err(_) => {},
                    Ok(fs1) => {
                        lemma_links_preserved_steps(fs, p, Seq::empty());
                        match crate::fs_model::copy_file_v(fs1, d, p) {
                            Err(_) => {},
                            Ok(fs2) => {
                                match canonicalize_v(fs1, d) {
                                    Err(_) => {},
                                    Ok(c) => match lookup_v(fs1, c) {
                                        Some(EntryV::File(b)) => {
                                            lemma_links_preserved_steps(fs1, p, b);
                                            lemma_links_preserved_trans(fs, fs1, fs2);
                                        },
                                        _ => {},
                                    },
                                }
                            },
                        }
                    },
                }
            } else {
                match crate::fs_model::maybe_remove_v(fs, p) {
                    Err(_) => {},
                    Ok(fs1) => {
                        lemma_links_preserved_steps(fs, p, Seq::empty());
                        match crate::fs_model::create_dir_v(fs1, p) {
                            Err(_) => {},
                            Ok(fs2) => {
                                lemma_links_preserved_steps(fs1, p, Seq::empty());
                                lemma_links_preserved_trans(fs, fs1, fs2);
                                match read_dir_v(fs2, d) {
                                    Err(_) => {},
                                    Ok(names) => {
                                        lemma_no_links_created_kids(fs2, p, d, names, 0, fuel);
                                        lemma_links_preserved_trans(
                                            fs,
                                            fs2,
                                            relink_kids_v(fs2, p, d, names, 0, fuel).0,
                                        );
                                    },
                                }
                            },
                        }
                    },
                }
            }
        },
        None => {
            if is_dir_v(fs, p) {
                match read_dir_v(fs, p) {
                    Err(_) => {},
                    Ok(names) => {
                        lemma_no_links_created_descend(fs, p, names, 0, fuel);
                    },
                }
            }
        },
    }
}

/// As `lemma_no_links_created_relink`, over the members being populated.
pub proof fn lemma_no_links_created_kids(
    fs: Seq<(Seq<Seq<u8>>, EntryV)>,
    p: Seq<Seq<u8>>,
    d: Seq<Seq<u8>>,
    names: Seq<Seq<u8>>,
    i: nat,
    fuel: nat,
)
    ensures
        links_preserved(fs, relink_kids_v(fs, p, d, names, i, fuel).0),
    decreases fuel, 0nat, names.len() - i,
{
    if i >= names.len() || fuel == 0 {
    } else {
        let cp = p.push(names[i as int]);
        let cd = d.push(names[i as int]);
        lemma_no_links_created_relink(fs, cp, Some(cd), (fuel - 1) as nat);
        let r1 = relink_v(fs, cp, Some(cd), (fuel - 1) as nat);
        match r1.2 {
            Err(_) => {},
            Ok(()) => {
                lemma_no_links_created_kids(r1.0, p, d, names, i + 1, fuel);
                lemma_links_preserved_trans(
                    fs,
                    r1.0,
                    relink_kids_v(r1.0, p, d, names, i + 1, fuel).0,
                );
            },
        }
    }
}

/// As `lemma_no_links_created_relink`, over the members being walked.
pub proof fn lemma_no_links_created_descend(
    fs: Seq<(Seq<Seq<u8>>, EntryV)>,
    p: Seq<Seq<u8>>,
    names: Seq<Seq<u8>>,
    i: nat,
    fuel: nat,
)
    ensures
        links_preserved(fs, descend_v(fs, p, names, i, fuel).0),
    decreases fuel, 0nat, names.len() - i,
{
    if i >= names.len() || fuel == 0 {
    } else {
        let cp = p.push(names[i as int]);
        let c = resolve_symlink_v(fs, cp);
        match c.1 {
            Err(_) => {},
            Ok(dopt) => {
                lemma_no_links_created_relink(fs, cp, dopt, (fuel - 1) as nat);
                let r1 = relink_v(fs, cp, dopt, (fuel - 1) as nat);
                match r1.2 {
                    Err(_) => {},
                    Ok(()) => {
                        lemma_no_links_created_descend(r1.0, p, names, i + 1, fuel);
                        lemma_links_preserved_trans(
                            fs,
                            r1.0,
                            descend_v(r1.0, p, names, i + 1, fuel).0,
                        );
                    },
                }
            },
        }
    }
}

/// Law: a whole run never creates a link either.
pub proof fn lemma_no_links_created_run(
    fs: Seq<(Seq<Seq<u8>>, EntryV)>,
    inputs: Seq<Seq<Seq<u8>>>,
    i: nat,
)
    ensures
        links_preserved(fs, exec_v(fs, inputs, i).0),
    decreases inputs.len() - i,
{
    if i >= inputs.len() {
    } else {
        let p = inputs[i as int];
        if crate::fs_model::exists_v(fs, p) {
            let c = resolve_symlink_v(fs, p);
            match c.1 {
                Err(_) => {},
                Ok(dopt) => {
                    lemma_no_links_created_relink(fs, p, dopt, crate::relink::MAX_DEPTH as nat);
                    let r1 = relink_v(fs, p, dopt, crate::relink::MAX_DEPTH as nat);
                    match r1.2 {
                        Err(_) => {},
                        Ok(()) => {
                            lemma_no_links_created_run(r1.0, inputs, i + 1);
                            lemma_links_preserved_trans(fs, r1.0, exec_v(r1.0, inputs, i + 1).0);
                        },
                    }
                },
            }
        } else {
            lemma_no_links_created_run(fs, inputs, i + 1);
        }
    }
}

} // verus!
