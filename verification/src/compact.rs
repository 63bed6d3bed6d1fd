//! The partition model of a preview: the components that a batch of edges touches,
//! renumbered densely, and how joining edges there matches joining them on all ids.

use vstd::prelude::*;

use crate::dsu_core::{
    lemma_merge_all_len, lemma_merge_respects_partition, lemma_same_partition_trans, merge,
    merge_all, same_partition,
};

verus! {

/// Before the edges, `id` lies in the component of an endpoint of edge `k`.
pub open spec fn meets_edge(base: Seq<int>, sids: Seq<u32>, dids: Seq<u32>, k: int, id: int) -> bool {
    base[id] == base[sids[k] as int] || base[id] == base[dids[k] as int]
}

/// Before the edges, `id` lies in a component that holds an endpoint of some edge.
pub open spec fn touched(base: Seq<int>, sids: Seq<u32>, dids: Seq<u32>, id: int) -> bool {
    exists|k: int| 0 <= k < sids.len() && #[trigger] meets_edge(base, sids, dids, k, id)
}

/// The touched ids below `n`, ascending.
pub open spec fn touched_ids(base: Seq<int>, sids: Seq<u32>, dids: Seq<u32>, n: nat) -> Seq<int>
    decreases n,
{
    if n == 0 {
        Seq::empty()
    } else {
        let t = touched_ids(base, sids, dids, (n - 1) as nat);
        if touched(base, sids, dids, n - 1) {
            t.push(n - 1)
        } else {
            t
        }
    }
}

/// The touched ids below `n` are exactly the touched ids, listed once each.
pub proof fn lemma_touched_ids(base: Seq<int>, sids: Seq<u32>, dids: Seq<u32>, n: nat)
    ensures
        forall|t: int|
            0 <= t < touched_ids(base, sids, dids, n).len() ==> 0 <= #[trigger] touched_ids(
                base,
                sids,
                dids,
                n,
            )[t] < n && touched(base, sids, dids, touched_ids(base, sids, dids, n)[t]),
        forall|x: int|
            0 <= x < n && touched(base, sids, dids, x) ==> exists|t: int|
                0 <= t < touched_ids(base, sids, dids, n).len() && #[trigger] touched_ids(
                    base,
                    sids,
                    dids,
                    n,
                )[t] == x,
        touched_ids(base, sids, dids, n).len() <= n,
    decreases n,
{
    if n > 0 {
        let n1 = (n - 1) as nat;
        lemma_touched_ids(base, sids, dids, n1);
        let t1 = touched_ids(base, sids, dids, n1);
        let t = touched_ids(base, sids, dids, n);
        assert forall|x: int| 0 <= x < n && touched(base, sids, dids, x) implies exists|i: int|
            0 <= i < t.len() && #[trigger] t[i] == x by {
            if x < n1 {
                let i = choose|i: int| 0 <= i < t1.len() && #[trigger] t1[i] == x;
                assert(t[i] == x);
            } else {
                assert(t[t.len() - 1] == x);
            }
        }
        assert forall|i: int| 0 <= i < t.len() implies 0 <= #[trigger] t[i] < n && touched(
            base,
            sids,
            dids,
            t[i],
        ) by {
            if i < t1.len() {
                assert(t[i] == t1[i]);
            }
        }
    }
}

/// `c` renumbers distinct roots of `base` densely: each root it holds labels itself
/// and gets a distinct number below the count of roots it holds.
pub open spec fn compact_wf(c: Map<u32, u32>, base: Seq<int>) -> bool {
    &&& c.dom().finite()
    &&& c.len() <= base.len()
    &&& forall|r: u32|
        #[trigger] c.contains_key(r) ==> (r as int) < base.len() && base[r as int] == r && (c[r]
            as int) < c.len()
    &&& forall|r1: u32, r2: u32|
        #![trigger c[r1], c[r2]]
        c.contains_key(r1) && c.contains_key(r2) && c[r1] == c[r2] ==> r1 == r2
}

/// `base` labels every id with an id of its component that labels itself.
pub open spec fn canonical(base: Seq<int>) -> bool {
    forall|x: int|
        0 <= x < base.len() ==> 0 <= #[trigger] base[x] < base.len() && base[base[x]] == base[x]
}

/// A set of `u32` below `n` holds at most `n` members.
pub proof fn lemma_u32_set_bounded(s: Set<u32>, n: int)
    requires
        s.finite(),
        0 <= n,
        forall|x: u32| s.contains(x) ==> (x as int) < n,
    ensures
        s.len() <= n,
    decreases n,
{
    if n > 0 {
        let x = (n - 1) as u32;
        let t = s.remove(x);
        assert forall|y: u32| t.contains(y) implies (y as int) < n - 1 by {
            assert(y != x);
        }
        lemma_u32_set_bounded(t, n - 1);
    } else {
        if s.len() > 0 {
            let y = s.choose();
            assert(s.contains(y));
        }
    }
}

/// Numbering one more root, with the next number, keeps the renumbering dense.
pub proof fn lemma_compact_insert(c: Map<u32, u32>, base: Seq<int>, r: u32)
    requires
        compact_wf(c, base),
        canonical(base),
        (r as int) < base.len(),
        base[r as int] == r,
        !c.contains_key(r),
        c.len() < 0x1_0000_0000,
    ensures
        compact_wf(c.insert(r, c.len() as u32), base),
        c.insert(r, c.len() as u32).len() == c.len() + 1,
{
    let c2 = c.insert(r, c.len() as u32);
    assert(c2.dom() =~= c.dom().insert(r));
    assert forall|x: u32| c2.dom().contains(x) implies (x as int) < base.len() by {
        if x != r {
            assert(c.contains_key(x));
        }
    }
    lemma_u32_set_bounded(c2.dom(), base.len() as int);
    assert forall|r1: u32, r2: u32|
        c2.contains_key(r1) && c2.contains_key(r2) && c2[r1] == c2[r2] implies r1 == r2 by {
        if r1 == r {
            if r2 != r {
                assert((c[r2] as int) < c.len());
            }
        } else if r2 == r {
            assert((c[r1] as int) < c.len());
        } else {
            assert(c[r1] == c[r2]);
        }
    }
}

/// The labelling of all ids that a renumbered labelling `q` of the touched roots
/// induces: a touched id gets `n` plus the label of its root's number, an
/// untouched id keeps its label from `base`.
pub open spec fn pullback(base: Seq<int>, c: Map<u32, u32>, q: Seq<int>) -> Seq<int> {
    Seq::new(
        base.len(),
        |x: int|
            if c.contains_key(base[x] as u32) {
                base.len() + q[c[base[x] as u32] as int]
            } else {
                base[x]
            },
    )
}

/// The numbers of the roots of `ids`.
pub open spec fn renumbered(base: Seq<int>, c: Map<u32, u32>, ids: Seq<u32>) -> Seq<u32> {
    Seq::new(ids.len(), |k: int| c[base[ids[k] as int] as u32])
}

/// Joining edges keeps labels within the range of the starting labels.
pub proof fn lemma_merge_all_range(l: Seq<int>, src: Seq<u32>, dst: Seq<u32>, k: nat, hi: int)
    requires
        forall|x: int| 0 <= x < l.len() ==> 0 <= #[trigger] l[x] < hi,
        k <= src.len(),
        k <= dst.len(),
        forall|e: int| 0 <= e < k ==> (#[trigger] src[e] as int) < l.len() && (dst[e] as int) < l.len(),
    ensures
        forall|x: int|
            0 <= x < l.len() ==> 0 <= #[trigger] merge_all(l, src, dst, k)[x] < hi,
    decreases k,
{
    lemma_merge_all_len(l, src, dst, k);
    if k > 0 {
        lemma_merge_all_range(l, src, dst, (k - 1) as nat, hi);
        lemma_merge_all_len(l, src, dst, (k - 1) as nat);
    }
}

/// Joining edges among the touched roots, renumbered, joins the same ids as
/// joining the edges themselves.
pub proof fn lemma_pullback(
    base: Seq<int>,
    c: Map<u32, u32>,
    sids: Seq<u32>,
    dids: Seq<u32>,
    k: nat,
)
    requires
        canonical(base),
        compact_wf(c, base),
        base.len() < 0x1_0000_0000,
        sids.len() == dids.len(),
        k <= sids.len(),
        forall|e: int|
            0 <= e < sids.len() ==> (#[trigger] sids[e] as int) < base.len() && (dids[e] as int)
                < base.len() && c.contains_key(base[sids[e] as int] as u32) && c.contains_key(
                base[dids[e] as int] as u32,
            ),
    ensures
        same_partition(
            merge_all(base, sids, dids, k),
            pullback(
                base,
                c,
                merge_all(
                    Seq::new(c.len(), |i: int| i),
                    renumbered(base, c, sids),
                    renumbered(base, c, dids),
                    k,
                ),
            ),
        ),
    decreases k,
{
    let idm = Seq::new(c.len(), |i: int| i);
    let cs = renumbered(base, c, sids);
    let cd = renumbered(base, c, dids);
    let n = base.len() as int;
    if k == 0 {
        let p = pullback(base, c, idm);
        assert forall|i: int, j: int| 0 <= i < n && 0 <= j < n implies (base[i] == base[j]
            <==> p[i] == p[j]) by {
            let ri = base[i] as u32;
            let rj = base[j] as u32;
            if c.contains_key(ri) {
                assert((c[ri] as int) < c.len());
            }
            if c.contains_key(rj) {
                assert((c[rj] as int) < c.len());
            }
            if c.contains_key(ri) && c.contains_key(rj) && p[i] == p[j] {
                assert(c[ri] == c[rj]);
            }
        }
    } else {
        let k1 = (k - 1) as nat;
        lemma_pullback(base, c, sids, dids, k1);
        let q = merge_all(idm, cs, cd, k1);
        let m = merge_all(base, sids, dids, k1);
        lemma_merge_all_len(base, sids, dids, k1);
        lemma_merge_all_len(idm, cs, cd, k1);
        assert forall|e: int| 0 <= e < k1 implies (#[trigger] cs[e] as int) < idm.len() && (
        cd[e] as int) < idm.len() by {
            assert(c.contains_key(base[sids[e] as int] as u32));
            assert(c.contains_key(base[dids[e] as int] as u32));
        }
        lemma_merge_all_range(idm, cs, cd, k1, c.len() as int);
        let a = sids[k1 as int] as int;
        let b = dids[k1 as int] as int;
        let ca = cs[k1 as int] as int;
        let cb = cd[k1 as int] as int;
        assert(c.contains_key(base[a] as u32));
        assert(c.contains_key(base[b] as u32));
        assert(ca < c.len() && cb < c.len());
        let p = pullback(base, c, q);
        lemma_merge_respects_partition(m, p, a, b);
        let lhs = pullback(base, c, merge(q, ca, cb));
        let rhs = merge(p, a, b);
        assert forall|x: int| 0 <= x < n implies lhs[x] == rhs[x] by {
            let rx = base[x] as u32;
            if c.contains_key(rx) {
                assert((c[rx] as int) < c.len());
            }
        }
        assert(lhs =~= rhs);
        lemma_same_partition_trans(merge(m, a, b), rhs, lhs);
    }
}

} // verus!
