//! Paths as sequences of name components.
//!
//! A component is a byte string (`Vec<u8>`), a path is a sequence of
//! components taken from the filesystem root.  The mathematical form of a
//! path is `Seq<Seq<u8>>`, reached through `deep_view`.

use vstd::prelude::*;

verus! {

/// The deep view of a byte string is its ordinary view.
pub broadcast proof fn lemma_bytes_deep_view(v: Vec<u8>)
    ensures
        #[trigger] v.deep_view() == v@,
{
    assert(v.deep_view() =~= v@);
}

/// True when `pre` is a (not necessarily strict) prefix of `p`.
pub open spec fn is_prefix_of(pre: Seq<Seq<u8>>, p: Seq<Seq<u8>>) -> bool {
    pre.len() <= p.len() && p.take(pre.len() as int) == pre
}

/// Byte-string equality, decided component by component.
pub fn bytes_eq(a: &Vec<u8>, b: &Vec<u8>) -> (r: bool)
    ensures
        r == (a@ == b@),
{
    if a.len() != b.len() {
        assert(a@ != b@);
        return false;
    }
    let mut i: usize = 0;
    while i < a.len()
        invariant
            i <= a.len(),
            a.len() == b.len(),
            forall|j: int| 0 <= j < i ==> a@[j] == b@[j],
        decreases a.len() - i,
    {
        if a[i] != b[i] {
            return false;
        }
        i += 1;
    }
    proof {
        assert(a@ =~= b@);
    }
    true
}

/// Path equality over the deep views.
pub fn path_eq(a: &Vec<Vec<u8>>, b: &Vec<Vec<u8>>) -> (r: bool)
    ensures
        r == (a.deep_view() == b.deep_view()),
{
    broadcast use lemma_bytes_deep_view;

    if a.len() != b.len() {
        assert(a.deep_view().len() != b.deep_view().len());
        return false;
    }
    let mut i: usize = 0;
    while i < a.len()
        invariant
            i <= a.len(),
            a.len() == b.len(),
            forall|j: int| 0 <= j < i ==> a.deep_view()[j] == b.deep_view()[j],
        decreases a.len() - i,
    {
        if !bytes_eq(&a[i], &b[i]) {
            proof {
                broadcast use lemma_bytes_deep_view;
            }
            assert(a.deep_view()[i as int] != b.deep_view()[i as int]);
            return false;
        }
        i += 1;
    }
    proof {
        assert(a.deep_view() =~~= b.deep_view());
    }
    true
}

/// True when every component of `pre` starts `p`, i.e. `p` lies at or below
/// `pre` in the tree.
pub fn starts_with(p: &Vec<Vec<u8>>, pre: &Vec<Vec<u8>>) -> (r: bool)
    ensures
        r == is_prefix_of(pre.deep_view(), p.deep_view()),
{
    broadcast use lemma_bytes_deep_view;

    if pre.len() > p.len() {
        return false;
    }
    let mut i: usize = 0;
    while i < pre.len()
        invariant
            i <= pre.len(),
            pre.len() <= p.len(),
            forall|j: int| 0 <= j < i ==> p.deep_view()[j] == pre.deep_view()[j],
        decreases pre.len() - i,
    {
        if !bytes_eq(&p[i], &pre[i]) {
            proof {
                broadcast use lemma_bytes_deep_view;
            }
            assert(p.deep_view()[i as int] != pre.deep_view()[i as int]);
            assert(!is_prefix_of(pre.deep_view(), p.deep_view())) by {
                if is_prefix_of(pre.deep_view(), p.deep_view()) {
                    assert(p.deep_view().take(pre.deep_view().len() as int)[i as int]
                        == pre.deep_view()[i as int]);
                }
            }
            return false;
        }
        i += 1;
    }
    proof {
        assert(p.deep_view().take(pre.deep_view().len() as int) =~~= pre.deep_view());
    }
    true
}

/// A fresh copy of a byte string.
pub fn clone_bytes(a: &Vec<u8>) -> (r: Vec<u8>)
    ensures
        r@ == a@,
{
    let mut r: Vec<u8> = Vec::new();
    let mut i: usize = 0;
    while i < a.len()
        invariant
            i <= a.len(),
            r@ == a@.take(i as int),
        decreases a.len() - i,
    {
        r.push(a[i]);
        i += 1;
        proof {
            assert(r@ =~= a@.take(i as int));
        }
    }
    proof {
        assert(a@.take(a.len() as int) =~= a@);
    }
    r
}

/// A fresh copy of a path.
pub fn clone_path(a: &Vec<Vec<u8>>) -> (r: Vec<Vec<u8>>)
    ensures
        r.deep_view() == a.deep_view(),
        r@.len() == a@.len(),
{
    let mut r: Vec<Vec<u8>> = Vec::new();
    let mut i: usize = 0;
    while i < a.len()
        invariant
            i <= a.len(),
            r.len() == i,
            forall|j: int| 0 <= j < i ==> r@[j]@ == a@[j]@,
        decreases a.len() - i,
    {
        r.push(clone_bytes(&a[i]));
        i += 1;
    }
    proof {
        broadcast use lemma_bytes_deep_view;

        assert(r.deep_view() =~~= a.deep_view());
    }
    r
}

/// `a` extended by one further component.
pub fn path_push(a: &Vec<Vec<u8>>, c: &Vec<u8>) -> (r: Vec<Vec<u8>>)
    ensures
        r.deep_view() == a.deep_view().push(c@),
{
    broadcast use lemma_bytes_deep_view;

    let mut r = clone_path(a);
    r.push(clone_bytes(c));
    proof {
        assert(r.deep_view() =~~= a.deep_view().push(c@));
    }
    r
}

/// `a` without its final component; `a` unchanged when it is the root.
pub fn path_parent(a: &Vec<Vec<u8>>) -> (r: Vec<Vec<u8>>)
    ensures
        a.deep_view().len() > 0 ==> r.deep_view() == a.deep_view().drop_last(),
        a.deep_view().len() == 0 ==> r.deep_view() == a.deep_view(),
{
    broadcast use lemma_bytes_deep_view;

    let mut r = clone_path(a);
    if r.len() > 0 {
        r.pop();
        proof {
            assert(r.deep_view() =~~= a.deep_view().drop_last());
        }
    }
    r
}

/// The two paths joined end to end.
pub fn path_concat(a: &Vec<Vec<u8>>, b: &Vec<Vec<u8>>) -> (r: Vec<Vec<u8>>)
    ensures
        r.deep_view() == a.deep_view() + b.deep_view(),
{
    let mut r = clone_path(a);
    let mut i: usize = 0;
    while i < b.len()
        invariant
            i <= b.len(),
            r.len() == a.len() + i,
            r.deep_view().take(a.len() as int) == a.deep_view(),
            forall|j: int| 0 <= j < i ==> r@[a.len() + j]@ == b@[j]@,
        decreases b.len() - i,
    {
        proof {
            broadcast use lemma_bytes_deep_view;
        }
        let ghost prev = r.deep_view();
        r.push(clone_bytes(&b[i]));
        i += 1;
        proof {
            broadcast use lemma_bytes_deep_view;

            assert(r.deep_view().take(a.len() as int) =~~= prev.take(a.len() as int));
        }
    }
    proof {
        broadcast use lemma_bytes_deep_view;

        assert(r.deep_view() =~~= a.deep_view() + b.deep_view());
    }
    r
}

} // verus!
