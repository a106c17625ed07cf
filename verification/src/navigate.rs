//! Finding the way to a typed path: which directory names lead from the
//! canvas root to it, and which row of a node carries a name. Opening the
//! nodes on the way (a directory scan each) is the caller's work.
//!
//! Paths are raw Unix bytes, read the way `std::path::Path` reads them: a
//! leading `/` is the root, a leading `.` segment of a relative path is the
//! current directory, empty and later `.` segments vanish, `..` is the
//! parent, anything else is a name.

use vstd::prelude::*;
use crate::handlers::{is_named, split_bytes};
use crate::model::Item;

verus! {

/// The segment that stands for the root component.
pub open spec fn root_mark() -> Seq<u8> {
    seq![47u8]
}

/// The `.` segment.
pub open spec fn dot() -> Seq<u8> {
    seq![46u8]
}

/// The `..` segment.
pub open spec fn dot_dot() -> Seq<u8> {
    seq![46u8, 46u8]
}

/// The segments of `segs` that remain as components (not empty, not `.`).
pub open spec fn kept_segments(segs: Seq<Seq<u8>>) -> Seq<Seq<u8>>
    decreases segs.len(),
{
    if segs.len() == 0 {
        Seq::empty()
    } else if is_named(segs.last()) {
        kept_segments(segs.drop_last()).push(segs.last())
    } else {
        kept_segments(segs.drop_last())
    }
}

/// `Path::components`, each component written as bytes: the root as `/`,
/// the current directory as `.`, the parent as `..`, a name as itself.
pub open spec fn components(p: Seq<u8>) -> Seq<Seq<u8>> {
    let segs = split_bytes(p, 47u8);
    let root = p.len() > 0 && p[0] == 47u8;
    let cur = !root && segs[0] == dot();
    (if root {
        seq![root_mark()]
    } else {
        Seq::empty()
    }) + (if cur {
        seq![dot()]
    } else {
        Seq::empty()
    }) + kept_segments(segs)
}

/// The names among components (no root, current or parent directory).
pub open spec fn names(cs: Seq<Seq<u8>>) -> Seq<Seq<u8>>
    decreases cs.len(),
{
    if cs.len() == 0 {
        Seq::empty()
    } else if cs.last() == root_mark() || cs.last() == dot() || cs.last() == dot_dot() {
        names(cs.drop_last())
    } else {
        names(cs.drop_last()).push(cs.last())
    }
}

/// The directory names leading from `base` down to `target`: None when
/// `target` does not lie under `base` (`Path::strip_prefix`), else the name
/// components of the rest.
pub open spec fn route_from(target: Seq<u8>, base: Seq<u8>) -> Option<Seq<Seq<u8>>> {
    let t = components(target);
    let b = components(base);
    if b.len() <= t.len() && t.take(b.len() as int) == b {
        Some(names(t.skip(b.len() as int)))
    } else {
        None
    }
}

proof fn lemma_split_first(p: Seq<u8>)
    ensures
        split_bytes(p, 47u8).len() >= 1,
    decreases p.len(),
{
    if p.len() > 0 {
        lemma_split_first(p.drop_last());
    }
}

fn bytes_equal(a: &[u8], b: &[u8]) -> (r: bool)
    ensures
        r == (a@ == b@),
{
    if a.len() != b.len() {
        return false;
    }
    let mut k: usize = 0;
    while k < a.len()
        invariant
            a@.len() == b@.len(),
            k <= a@.len(),
            forall|q: int| 0 <= q < k ==> a@[q] == b@[q],
        decreases a@.len() - k,
    {
        if a[k] != b[k] {
            return false;
        }
        k = k + 1;
    }
    assert(a@ =~= b@);
    true
}

pub open spec fn views(v: Seq<Vec<u8>>) -> Seq<Seq<u8>> {
    v.map_values(|x: Vec<u8>| x@)
}

/// `p` cut at every `/` (see [`split_bytes`]).
fn split_segments(p: &[u8]) -> (r: Vec<Vec<u8>>)
    ensures
        views(r@) == split_bytes(p@, 47u8),
{
    let n = p.len();
    let mut done: Vec<Vec<u8>> = Vec::new();
    let mut seg: Vec<u8> = Vec::new();
    let mut i: usize = 0;
    proof {
        assert(p@.take(0) =~= Seq::<u8>::empty());
        assert(views(done@).push(seg@) =~= split_bytes(p@.take(0), 47u8));
    }
    while i < n
        invariant
            n == p@.len(),
            i <= n,
            views(done@).push(seg@) == split_bytes(p@.take(i as int), 47u8),
        decreases n - i,
    {
        let ghost before = views(done@).push(seg@);
        proof {
            assert(p@.take(i + 1).drop_last() =~= p@.take(i as int));
            assert(p@.take(i + 1).last() == p@[i as int]);
        }
        if p[i] == 47u8 {
            let s = seg;
            done.push(s);
            seg = Vec::new();
            proof {
                assert(views(done@).push(seg@) =~= before.push(Seq::<u8>::empty()));
            }
        } else {
            seg.push(p[i]);
            proof {
                assert(views(done@).push(seg@) =~= before.update(before.len() - 1, before.last().push(p@[i as int])));
            }
        }
        i = i + 1;
    }
    done.push(seg);
    proof {
        assert(p@.take(n as int) =~= p@);
        assert(views(done@) =~= split_bytes(p@, 47u8));
    }
    done
}

fn is_dot(s: &Vec<u8>) -> (r: bool)
    ensures
        r == (s@ == dot()),
{
    let r = s.len() == 1 && s[0] == 46u8;
    proof {
        if s@ == dot() {
            assert(s@[0] == dot()[0]);
        }
        if r {
            assert(s@ =~= dot());
        }
    }
    r
}

fn is_dot_dot(s: &Vec<u8>) -> (r: bool)
    ensures
        r == (s@ == dot_dot()),
{
    let r = s.len() == 2 && s[0] == 46u8 && s[1] == 46u8;
    proof {
        if s@ == dot_dot() {
            assert(s@[0] == dot_dot()[0] && s@[1] == dot_dot()[1]);
        }
        if r {
            assert(s@ =~= dot_dot());
        }
    }
    r
}

fn is_root_mark(s: &Vec<u8>) -> (r: bool)
    ensures
        r == (s@ == root_mark()),
{
    let r = s.len() == 1 && s[0] == 47u8;
    proof {
        if s@ == root_mark() {
            assert(s@[0] == root_mark()[0]);
        }
        if r {
            assert(s@ =~= root_mark());
        }
    }
    r
}

/// The components of `p` (see [`components`]).
fn path_components(p: &[u8]) -> (r: Vec<Vec<u8>>)
    ensures
        views(r@) == components(p@),
{
    let segs = split_segments(p);
    proof {
        lemma_split_first(p@);
    }
    let root = p.len() > 0 && p[0] == 47u8;
    let mut out: Vec<Vec<u8>> = Vec::new();
    let first_is_dot = is_dot(&segs[0]);
    if root {
        let m = vec![47u8];
        proof {
            assert(m@ =~= root_mark());
        }
        out.push(m);
    } else if first_is_dot {
        let m = vec![46u8];
        proof {
            assert(m@ =~= dot());
        }
        out.push(m);
    }
    let ghost head = views(out@);
    proof {
        assert(views(segs@)[0] == segs@[0]@);
        assert(views(out@) =~= (if root {
            seq![root_mark()]
        } else {
            Seq::<Seq<u8>>::empty()
        }) + (if !root && views(segs@)[0] == dot() {
            seq![dot()]
        } else {
            Seq::<Seq<u8>>::empty()
        }));
        assert(views(segs@).take(0) =~= Seq::<Seq<u8>>::empty());
        assert(head + kept_segments(views(segs@).take(0)) =~= head);
    }
    let mut k: usize = 0;
    while k < segs.len()
        invariant
            k <= segs@.len(),
            views(out@) == head + kept_segments(views(segs@).take(k as int)),
        decreases segs@.len() - k,
    {
        proof {
            assert(views(segs@).take(k + 1).drop_last() =~= views(segs@).take(k as int));
            assert(views(segs@).take(k + 1).last() == segs@[k as int]@);
        }
        let named = segs[k].len() > 0 && !is_dot(&segs[k]);
        if named {
            let ghost before = views(out@);
            out.push(segs[k].clone());
            proof {
                assert(views(out@) =~= before.push(segs@[k as int]@));
            }
        }
        k = k + 1;
    }
    proof {
        assert(views(segs@).take(segs@.len() as int) =~= views(segs@));
    }
    out
}

/// The directory names leading from `base` down to `target` (see
/// [`route_from`]).
pub fn route_components(target: &[u8], base: &[u8]) -> (r: Option<Vec<Vec<u8>>>)
    ensures
        match route_from(target@, base@) {
            Some(ns) => r matches Some(v) && views(v@) == ns,
            None => r is None,
        },
{
    let t = path_components(target);
    let b = path_components(base);
    let ghost tv = views(t@);
    let ghost bv = views(b@);
    if b.len() > t.len() {
        return None;
    }
    proof {
        assert(bv.len() == b@.len() && tv.len() == t@.len());
    }
    let mut k: usize = 0;
    while k < b.len()
        invariant
            b@.len() <= t@.len(),
            k <= b@.len(),
            tv == views(t@),
            bv == views(b@),
            tv == components(target@),
            bv == components(base@),
            forall|q: int| 0 <= q < k ==> tv[q] == bv[q],
        decreases b@.len() - k,
    {
        proof {
            assert(tv[k as int] == t@[k as int]@ && bv[k as int] == b@[k as int]@);
        }
        if !bytes_equal(t[k].as_slice(), b[k].as_slice()) {
            proof {
                assert(tv[k as int] == t@[k as int]@ && bv[k as int] == b@[k as int]@);
                if tv.take(bv.len() as int) == bv {
                    assert(tv.take(bv.len() as int)[k as int] == tv[k as int]);
                }
            }
            return None;
        }
        k = k + 1;
    }
    proof {
        assert(tv.take(bv.len() as int) =~= bv);
    }
    let mut out: Vec<Vec<u8>> = Vec::new();
    let mut j: usize = b.len();
    let ghost rest = tv.skip(bv.len() as int);
    proof {
        assert(rest.take(0) =~= Seq::<Seq<u8>>::empty());
    }
    while j < t.len()
        invariant
            b@.len() <= j <= t@.len(),
            tv == views(t@),
            tv == components(target@),
            rest == tv.skip(b@.len() as int),
            views(out@) == names(rest.take(j - b@.len())),
        decreases t@.len() - j,
    {
        let ghost m = (j - b@.len()) as int;
        proof {
            assert(rest.take(m + 1).drop_last() =~= rest.take(m));
            assert(rest.take(m + 1).last() == t@[j as int]@);
        }
        let c = &t[j];
        if !(is_root_mark(c) || is_dot(c) || is_dot_dot(c)) {
            let ghost before = views(out@);
            out.push(c.clone());
            proof {
                assert(views(out@) =~= before.push(t@[j as int]@));
            }
        }
        j = j + 1;
    }
    proof {
        assert(rest.take(rest.len() as int) =~= rest);
    }
    Some(out)
}

/// The first row of `items` named `name`.
pub fn item_named<R>(items: &Vec<Item<R>>, name: &[u8]) -> (r: Option<usize>)
    ensures
        match r {
            Some(k) => k < items@.len() && items@[k as int].name@ == name@ && forall|j: int|
                0 <= j < k ==> items@[j].name@ != name@,
            None => forall|j: int| 0 <= j < items@.len() ==> items@[j].name@ != name@,
        },
{
    let mut k: usize = 0;
    while k < items.len()
        invariant
            k <= items@.len(),
            forall|j: int| 0 <= j < k ==> items@[j].name@ != name@,
        decreases items@.len() - k,
    {
        if bytes_equal(items[k].name.as_slice(), name) {
            return Some(k);
        }
        k = k + 1;
    }
    None
}

/// A name a path can carry as one component: not empty, no `/`, and not
/// `.` or `..`.
pub open spec fn plain_name(n: Seq<u8>) -> bool {
    &&& n.len() > 0
    &&& forall|k: int| 0 <= k < n.len() ==> n[k] != 47u8
    &&& n != dot()
    &&& n != dot_dot()
}

/// `base` followed by `/n1/n2/.../nk`.
pub open spec fn path_under(base: Seq<u8>, ns: Seq<Seq<u8>>) -> Seq<u8>
    decreases ns.len(),
{
    if ns.len() == 0 {
        base
    } else {
        path_under(base, ns.drop_last()).push(47u8) + ns.last()
    }
}

proof fn lemma_split_append_segment(b: Seq<u8>, n: Seq<u8>)
    requires
        forall|k: int| 0 <= k < n.len() ==> n[k] != 47u8,
    ensures
        split_bytes(b.push(47u8) + n, 47u8) == split_bytes(b, 47u8).push(n),
    decreases n.len(),
{
    if n.len() == 0 {
        assert(b.push(47u8) + n =~= b.push(47u8));
        assert(b.push(47u8).drop_last() =~= b);
        assert(n =~= Seq::<u8>::empty());
        assert(split_bytes(b.push(47u8), 47u8) == split_bytes(b, 47u8).push(Seq::<u8>::empty()));
    } else {
        let m = n.drop_last();
        lemma_split_append_segment(b, m);
        assert((b.push(47u8) + n).drop_last() =~= b.push(47u8) + m);
        assert((b.push(47u8) + n).last() == n.last());
        assert(m.push(n.last()) =~= n);
        assert(split_bytes(b.push(47u8) + n, 47u8) =~= split_bytes(b, 47u8).push(n));
    }
}

proof fn lemma_components_append(b: Seq<u8>, n: Seq<u8>)
    requires
        b.len() > 0,
        plain_name(n),
    ensures
        components(b.push(47u8) + n) == components(b).push(n),
{
    let p = b.push(47u8) + n;
    lemma_split_append_segment(b, n);
    crate::handlers::lemma_split_bytes_nonempty(b, 47u8);
    let segs = split_bytes(b, 47u8);
    assert(p[0] == b[0]);
    assert(split_bytes(p, 47u8)[0] == segs[0]);
    assert(segs.push(n).drop_last() =~= segs);
    assert(n != seq![46u8]);
    assert(kept_segments(segs.push(n)) == kept_segments(segs).push(n));
    let root = b.len() > 0 && b[0] == 47u8;
    let cur = !root && segs[0] == dot();
    let pre = (if root {
        seq![root_mark()]
    } else {
        Seq::empty()
    }) + (if cur {
        seq![dot()]
    } else {
        Seq::empty()
    });
    assert(components(p) == pre + kept_segments(segs).push(n));
    assert(pre + kept_segments(segs).push(n) =~= (pre + kept_segments(segs)).push(n));
}

proof fn lemma_components_under(b: Seq<u8>, ns: Seq<Seq<u8>>)
    requires
        b.len() > 0,
        forall|k: int| 0 <= k < ns.len() ==> plain_name(#[trigger] ns[k]),
    ensures
        path_under(b, ns).len() > 0,
        components(path_under(b, ns)) == components(b) + ns,
    decreases ns.len(),
{
    if ns.len() == 0 {
        assert(components(b) + ns =~= components(b));
    } else {
        let m = ns.drop_last();
        assert(forall|k: int| 0 <= k < m.len() ==> plain_name(#[trigger] m[k])) by {
            assert(forall|k: int| 0 <= k < m.len() ==> m[k] == ns[k]);
        }
        lemma_components_under(b, m);
        assert(plain_name(ns[ns.len() - 1]));
        lemma_components_append(path_under(b, m), ns.last());
        assert((components(b) + m).push(ns.last()) =~= components(b) + ns);
    }
}

proof fn lemma_names_of_plain(ns: Seq<Seq<u8>>)
    requires
        forall|k: int| 0 <= k < ns.len() ==> plain_name(#[trigger] ns[k]),
    ensures
        names(ns) == ns,
    decreases ns.len(),
{
    if ns.len() > 0 {
        let m = ns.drop_last();
        assert(forall|k: int| 0 <= k < m.len() ==> plain_name(#[trigger] m[k])) by {
            assert(forall|k: int| 0 <= k < m.len() ==> m[k] == ns[k]);
        }
        lemma_names_of_plain(m);
        let l = ns.last();
        assert(plain_name(ns[ns.len() - 1]));
        assert(l != root_mark()) by {
            assert(l[0] != 47u8);
        }
        assert(m.push(l) =~= ns);
    }
}

/// Every name below the base stays in the route, in order: when the target
/// is the base followed by `/n1/.../nk`, each `ni` a name (not empty, no
/// `/`, not `.` or `..`, whatever byte it starts with), the route is
/// exactly `[n1, ..., nk]`.
pub proof fn law_route_keeps_every_name(base: Seq<u8>, ns: Seq<Seq<u8>>)
    requires
        base.len() > 0,
        forall|k: int| 0 <= k < ns.len() ==> plain_name(#[trigger] ns[k]),
    ensures
        route_from(path_under(base, ns), base) == Some(ns),
{
    lemma_components_under(base, ns);
    let t = components(path_under(base, ns));
    let b = components(base);
    assert(t.take(b.len() as int) =~= b);
    assert(t.skip(b.len() as int) =~= ns);
    lemma_names_of_plain(ns);
}

} // verus!
