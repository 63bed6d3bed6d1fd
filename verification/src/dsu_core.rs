//! Disjoint set union over a dense node space `0..len`.

use vstd::prelude::*;
use vstd::arithmetic::power2::*;
use vstd::set_lib::*;

use crate::dtype::DTypeKind;

verus! {

/// Errors produced by the DSU.
#[derive(Debug, PartialEq, Eq)]
pub enum CoreError {
    LengthMismatch { src: usize, dst: usize },
    KeyTypeMismatch { expected: DTypeKind, got: DTypeKind },
    UnsupportedType(String),
    NullsNotAllowed { count: usize },
    TooManyKeys,
}

// ---------------------------------------------------------------------------
// The partition model
// ---------------------------------------------------------------------------
/// A labelling of nodes `0..l.len()`: two nodes are in one set when their labels agree.
/// `merge(l, a, b)` joins the set of `a` into the set of `b`.
pub open spec fn merge(l: Seq<int>, a: int, b: int) -> Seq<int> {
    Seq::new(l.len(), |x: int| if l[x] == l[a] { l[b] } else { l[x] })
}

/// The labelling obtained by joining, in order, the endpoints of the first `k` edges
/// `(src[i], dst[i])`.
pub open spec fn merge_all(l: Seq<int>, src: Seq<u32>, dst: Seq<u32>, k: nat) -> Seq<int>
    decreases k,
{
    if k == 0 {
        l
    } else {
        merge(
            merge_all(l, src, dst, (k - 1) as nat),
            src[k - 1] as int,
            dst[k - 1] as int,
        )
    }
}

pub proof fn lemma_merge_all_len(l: Seq<int>, src: Seq<u32>, dst: Seq<u32>, k: nat)
    ensures
        merge_all(l, src, dst, k).len() == l.len(),
    decreases k,
{
    if k > 0 {
        lemma_merge_all_len(l, src, dst, (k - 1) as nat);
    }
}

/// Every endpoint of the first `k` edges is a node of `l`.
pub open spec fn edges_within(l: Seq<int>, src: Seq<u32>, dst: Seq<u32>, k: nat) -> bool {
    &&& k <= src.len()
    &&& k <= dst.len()
    &&& forall|e: int|
        0 <= e < k ==> (#[trigger] src[e] as int) < l.len() && (dst[e] as int) < l.len()
}

/// `m` puts together whatever `l` puts together.
pub open spec fn coarser(m: Seq<int>, l: Seq<int>) -> bool {
    &&& m.len() == l.len()
    &&& forall|i: int, j: int|
        #![trigger l[i], l[j]]
        0 <= i < l.len() && 0 <= j < l.len() && l[i] == l[j] ==> m[i] == m[j]
}

/// `m` puts the endpoints of each of the first `k` edges together.
pub open spec fn joins_edges(m: Seq<int>, src: Seq<u32>, dst: Seq<u32>, k: nat) -> bool {
    forall|e: int| 0 <= e < k ==> m[#[trigger] src[e] as int] == m[dst[e] as int]
}

/// Connectivity, part one: joining edges keeps every set together and puts the
/// endpoints of every edge in one set.
pub proof fn lemma_merge_all_joins(l: Seq<int>, src: Seq<u32>, dst: Seq<u32>, k: nat)
    requires
        edges_within(l, src, dst, k),
    ensures
        coarser(merge_all(l, src, dst, k), l),
        joins_edges(merge_all(l, src, dst, k), src, dst, k),
    decreases k,
{
    lemma_merge_all_len(l, src, dst, k);
    if k > 0 {
        let k1 = (k - 1) as nat;
        lemma_merge_all_joins(l, src, dst, k1);
        lemma_merge_all_len(l, src, dst, k1);
        let prev = merge_all(l, src, dst, k1);
        let m = merge_all(l, src, dst, k);
        assert forall|e: int| 0 <= e < k implies m[#[trigger] src[e] as int] == m[dst[e] as int] by {
            if e < k1 {
                assert(prev[src[e] as int] == prev[dst[e] as int]);
            }
        }
        assert forall|i: int, j: int|
            0 <= i < l.len() && 0 <= j < l.len() && l[i] == l[j] implies m[i] == m[j] by {
            assert(prev[i] == prev[j]);
        }
    }
}

/// Connectivity, part two: joining edges puts together nothing more than any
/// partition that keeps the sets of `l` together and joins every edge.
pub proof fn lemma_merge_all_least(l: Seq<int>, src: Seq<u32>, dst: Seq<u32>, k: nat, m: Seq<int>)
    requires
        edges_within(l, src, dst, k),
        coarser(m, l),
        joins_edges(m, src, dst, k),
    ensures
        coarser(m, merge_all(l, src, dst, k)),
    decreases k,
{
    lemma_merge_all_len(l, src, dst, k);
    if k > 0 {
        let k1 = (k - 1) as nat;
        lemma_merge_all_least(l, src, dst, k1, m);
        lemma_merge_all_len(l, src, dst, k1);
        let prev = merge_all(l, src, dst, k1);
        let cur = merge_all(l, src, dst, k);
        let a = src[k1 as int] as int;
        let b = dst[k1 as int] as int;
        assert(m[a] == m[b]);
        assert forall|i: int, j: int|
            0 <= i < l.len() && 0 <= j < l.len() && cur[i] == cur[j] implies m[i] == m[j] by {
            if prev[i] == prev[a] {
                assert(m[i] == m[a]);
            }
            if prev[j] == prev[a] {
                assert(m[j] == m[a]);
            }
            if prev[i] == prev[b] {
                assert(m[i] == m[b]);
            }
            if prev[j] == prev[b] {
                assert(m[j] == m[b]);
            }
        }
    }
}

/// The partition that a list of edges gives does not depend on the order of the
/// edges, nor on their direction, nor on repeats: two lists that join each other's
/// edges give the same partition.
pub proof fn lemma_edge_order_irrelevant(
    l: Seq<int>,
    src1: Seq<u32>,
    dst1: Seq<u32>,
    src2: Seq<u32>,
    dst2: Seq<u32>,
)
    requires
        src1.len() == dst1.len(),
        src2.len() == dst2.len(),
        edges_within(l, src1, dst1, src1.len()),
        edges_within(l, src2, dst2, src2.len()),
        forall|e: int|
            0 <= e < src1.len() ==> exists|f: int|
                0 <= f < src2.len() && ((src2[f] == #[trigger] src1[e] && dst2[f] == dst1[e]) || (
                src2[f] == dst1[e] && dst2[f] == src1[e])),
        forall|f: int|
            0 <= f < src2.len() ==> exists|e: int|
                0 <= e < src1.len() && ((src1[e] == #[trigger] src2[f] && dst1[e] == dst2[f]) || (
                src1[e] == dst2[f] && dst1[e] == src2[f])),
    ensures
        same_partition(
            merge_all(l, src1, dst1, src1.len()),
            merge_all(l, src2, dst2, src2.len()),
        ),
{
    let m1 = merge_all(l, src1, dst1, src1.len());
    let m2 = merge_all(l, src2, dst2, src2.len());
    lemma_merge_all_joins(l, src1, dst1, src1.len());
    lemma_merge_all_joins(l, src2, dst2, src2.len());
    assert forall|f: int| 0 <= f < src2.len() implies m1[#[trigger] src2[f] as int]
        == m1[dst2[f] as int] by {
        let e = choose|e: int|
            0 <= e < src1.len() && ((src1[e] == src2[f] && dst1[e] == dst2[f]) || (src1[e]
                == dst2[f] && dst1[e] == src2[f]));
        assert(m1[src1[e] as int] == m1[dst1[e] as int]);
    }
    assert forall|e: int| 0 <= e < src1.len() implies m2[#[trigger] src1[e] as int]
        == m2[dst1[e] as int] by {
        let f = choose|f: int|
            0 <= f < src2.len() && ((src2[f] == src1[e] && dst2[f] == dst1[e]) || (src2[f]
                == dst1[e] && dst2[f] == src1[e]));
        assert(m2[src2[f] as int] == m2[dst2[f] as int]);
    }
    lemma_merge_all_least(l, src1, dst1, src1.len(), m2);
    lemma_merge_all_least(l, src2, dst2, src2.len(), m1);
    lemma_merge_all_len(l, src1, dst1, src1.len());
    lemma_merge_all_len(l, src2, dst2, src2.len());
    assert forall|i: int, j: int| 0 <= i < m1.len() && 0 <= j < m1.len() implies (m1[i] == m1[j]
        <==> m2[i] == m2[j]) by {
        if m1[i] == m1[j] {
            assert(m2[i] == m2[j]);
        }
        if m2[i] == m2[j] {
            assert(m1[i] == m1[j]);
        }
    }
}

/// Two labellings describe the same partition.
pub open spec fn same_partition(a: Seq<int>, b: Seq<int>) -> bool {
    &&& a.len() == b.len()
    &&& forall|i: int, j: int|
        #![trigger a[i], a[j]]
        #![trigger b[i], b[j]]
        0 <= i < a.len() && 0 <= j < a.len() ==> (a[i] == a[j] <==> b[i] == b[j])
}

/// The members of the set labelled `r`.
pub open spec fn class_of(l: Seq<int>, r: int) -> Set<int> {
    Set::new(|x: int| 0 <= x < l.len() && l[x] == r)
}

proof fn lemma_class_finite(l: Seq<int>, r: int)
    ensures
        class_of(l, r).finite(),
        class_of(l, r).len() <= l.len(),
{
    lemma_int_range(0, l.len() as int);
    assert(class_of(l, r).subset_of(set_int_range(0, l.len() as int)));
    lemma_len_subset(class_of(l, r), set_int_range(0, l.len() as int));
}

/// Joining the set labelled `ra` into the set labelled `rb`, where both labels
/// label themselves.
proof fn lemma_merge_classes(l: Seq<int>, ra: int, rb: int)
    requires
        0 <= ra < l.len(),
        0 <= rb < l.len(),
        l[ra] == ra,
        l[rb] == rb,
        ra != rb,
    ensures
        class_of(merge(l, ra, rb), rb).len() == class_of(l, ra).len() + class_of(l, rb).len(),
        forall|r: int| r != ra && r != rb ==> class_of(merge(l, ra, rb), r) == class_of(l, r),
{
    lemma_class_finite(l, ra);
    lemma_class_finite(l, rb);
    assert(class_of(l, ra).disjoint(class_of(l, rb)));
    lemma_set_disjoint_lens(class_of(l, ra), class_of(l, rb));
    assert(class_of(merge(l, ra, rb), rb) =~= class_of(l, ra) + class_of(l, rb));
    assert forall|r: int| r != ra && r != rb implies class_of(merge(l, ra, rb), r) == class_of(
        l,
        r,
    ) by {
        assert(class_of(merge(l, ra, rb), r) =~= class_of(l, r));
    }
}

/// Merging two labellings of one partition at the same endpoints keeps them equivalent.
pub(crate) proof fn lemma_merge_respects_partition(a: Seq<int>, b: Seq<int>, x: int, y: int)
    requires
        same_partition(a, b),
        0 <= x < a.len(),
        0 <= y < a.len(),
    ensures
        same_partition(merge(a, x, y), merge(b, x, y)),
{
    let ma = merge(a, x, y);
    let mb = merge(b, x, y);
    assert forall|i: int, j: int| 0 <= i < a.len() && 0 <= j < a.len() implies (ma[i] == ma[j]
        <==> mb[i] == mb[j]) by {
        assert(a[i] == a[x] <==> b[i] == b[x]);
        assert(a[j] == a[x] <==> b[j] == b[x]);
        assert(a[i] == a[j] <==> b[i] == b[j]);
        assert(a[i] == a[y] <==> b[i] == b[y]);
        assert(a[j] == a[y] <==> b[j] == b[y]);
        assert(a[x] == a[y] <==> b[x] == b[y]);
    }
}

/// Joining `a` into `b` gives the same partition as joining `b` into `a`.
proof fn lemma_merge_symmetric(l: Seq<int>, a: int, b: int)
    requires
        0 <= a < l.len(),
        0 <= b < l.len(),
    ensures
        same_partition(merge(l, a, b), merge(l, b, a)),
{
}

pub(crate) proof fn lemma_same_partition_refl(l: Seq<int>)
    ensures
        same_partition(l, l),
{
}

pub(crate) proof fn lemma_same_partition_trans(a: Seq<int>, b: Seq<int>, c: Seq<int>)
    requires
        same_partition(a, b),
        same_partition(b, c),
    ensures
        same_partition(a, c),
{
    assert forall|i: int, j: int| 0 <= i < a.len() && 0 <= j < a.len() implies (a[i] == a[j]
        <==> c[i] == c[j]) by {
        assert(a[i] == a[j] <==> b[i] == b[j]);
        assert(b[i] == b[j] <==> c[i] == c[j]);
    }
}

/// Each edge of the first list is, in one direction or the other, an edge of the
/// second, and each edge of the second one of the first.
pub open spec fn joins_same_edges(src1: Seq<u32>, dst1: Seq<u32>, src2: Seq<u32>, dst2: Seq<u32>) -> bool {
    &&& forall|e: int|
        0 <= e < src1.len() ==> exists|f: int|
            0 <= f < src2.len() && ((src2[f] == #[trigger] src1[e] && dst2[f] == dst1[e]) || (
            src2[f] == dst1[e] && dst2[f] == src1[e]))
    &&& forall|f: int|
        0 <= f < src2.len() ==> exists|e: int|
            0 <= e < src1.len() && ((src1[e] == #[trigger] src2[f] && dst1[e] == dst2[f]) || (
            src1[e] == dst2[f] && dst1[e] == src2[f]))
}

/// Joining the same edges into two labellings of one partition gives two labellings
/// of one partition.
pub(crate) proof fn lemma_merge_all_respects(a: Seq<int>, b: Seq<int>, src: Seq<u32>, dst: Seq<u32>, k: nat)
    requires
        same_partition(a, b),
        edges_within(a, src, dst, k),
    ensures
        same_partition(merge_all(a, src, dst, k), merge_all(b, src, dst, k)),
    decreases k,
{
    if k > 0 {
        let k1 = (k - 1) as nat;
        lemma_merge_all_respects(a, b, src, dst, k1);
        lemma_merge_all_len(a, src, dst, k1);
        lemma_merge_all_len(b, src, dst, k1);
        lemma_merge_respects_partition(
            merge_all(a, src, dst, k1),
            merge_all(b, src, dst, k1),
            src[k1 as int] as int,
            dst[k1 as int] as int,
        );
    }
}

/// Joining edges depends only on the first `k` edges.
proof fn lemma_merge_all_prefix(l: Seq<int>, s1: Seq<u32>, t1: Seq<u32>, s2: Seq<u32>, t2: Seq<u32>, k: nat)
    requires
        forall|e: int| 0 <= e < k ==> s1[e] == s2[e] && t1[e] == t2[e],
    ensures
        merge_all(l, s1, t1, k) == merge_all(l, s2, t2, k),
    decreases k,
{
    if k > 0 {
        lemma_merge_all_prefix(l, s1, t1, s2, t2, (k - 1) as nat);
    }
}

proof fn lemma_merge_all_concat_upto(
    l: Seq<int>,
    s1: Seq<u32>,
    t1: Seq<u32>,
    s2: Seq<u32>,
    t2: Seq<u32>,
    k: nat,
)
    requires
        s1.len() == t1.len(),
        s2.len() == t2.len(),
        k <= s2.len(),
    ensures
        merge_all(merge_all(l, s1, t1, s1.len()), s2, t2, k) == merge_all(
            l,
            s1 + s2,
            t1 + t2,
            s1.len() + k,
        ),
    decreases k,
{
    if k == 0 {
        lemma_merge_all_prefix(l, s1, t1, s1 + s2, t1 + t2, s1.len());
    } else {
        lemma_merge_all_concat_upto(l, s1, t1, s2, t2, (k - 1) as nat);
        assert((s1 + s2)[s1.len() + k - 1] == s2[k - 1]);
        assert((t1 + t2)[s1.len() + k - 1] == t2[k - 1]);
    }
}

/// Joining one list of edges and then another is joining the two lists one after
/// the other.
pub proof fn lemma_merge_all_concat(l: Seq<int>, s1: Seq<u32>, t1: Seq<u32>, s2: Seq<u32>, t2: Seq<u32>)
    requires
        s1.len() == t1.len(),
        s2.len() == t2.len(),
    ensures
        merge_all(merge_all(l, s1, t1, s1.len()), s2, t2, s2.len()) == merge_all(
            l,
            s1 + s2,
            t1 + t2,
            (s1 + s2).len(),
        ),
{
    lemma_merge_all_concat_upto(l, s1, t1, s2, t2, s2.len());
}

/// Two unions one after the other give what one union of all their edges gives:
/// from one partition `l`, unioning `(s1, t1)` and then `(s2, t2)` reaches the
/// partition that unioning `(u, v)` reaches whenever `u, v` joins the same edges as
/// the two lists together, in whatever order, direction or number of repeats (for
/// instance `s2 ++ s1`, `t2 ++ t1`). `mid` and `end` are the partitions after the
/// first and the second union, and `one` the partition after the single union, as
/// `union_edges` states them.
pub proof fn lemma_two_unions_one_list(
    l: Seq<int>,
    s1: Seq<u32>,
    t1: Seq<u32>,
    s2: Seq<u32>,
    t2: Seq<u32>,
    u: Seq<u32>,
    v: Seq<u32>,
    mid: Seq<int>,
    end: Seq<int>,
    one: Seq<int>,
)
    requires
        s1.len() == t1.len(),
        s2.len() == t2.len(),
        u.len() == v.len(),
        edges_within(l, s1, t1, s1.len()),
        edges_within(l, s2, t2, s2.len()),
        edges_within(l, u, v, u.len()),
        same_partition(mid, merge_all(l, s1, t1, s1.len())),
        same_partition(end, merge_all(mid, s2, t2, s2.len())),
        same_partition(one, merge_all(l, u, v, u.len())),
        joins_same_edges(s1 + s2, t1 + t2, u, v),
    ensures
        same_partition(end, one),
{
    let none = Seq::<u32>::empty();
    assert(u + none =~= u);
    assert(v + none =~= v);
    lemma_merge_all_len(l, u, v, u.len());
    assert(merge_all(one, none, none, 0) == one);
    lemma_same_partition_refl(one);
    lemma_sequential_unions(l, s1, t1, s2, t2, u, v, none, none, mid, end, one, one);
}

/// Two unions one after the other depend only on the edges they join: from one
/// partition `l`, unioning `(s1, t1)` then `(s2, t2)` and unioning `(u1, v1)` then
/// `(u2, v2)` reach the same partition whenever the two lists of all edges join the
/// same edges, in whatever order, direction or number of repeats. A list may be
/// empty, so one union of the concatenated edges agrees with the two unions.
/// `mid` and `end` are the partitions after the first and the second union, as
/// `union_edges` states them.
pub proof fn lemma_sequential_unions(
    l: Seq<int>,
    s1: Seq<u32>,
    t1: Seq<u32>,
    s2: Seq<u32>,
    t2: Seq<u32>,
    u1: Seq<u32>,
    v1: Seq<u32>,
    u2: Seq<u32>,
    v2: Seq<u32>,
    mid1: Seq<int>,
    end1: Seq<int>,
    mid2: Seq<int>,
    end2: Seq<int>,
)
    requires
        s1.len() == t1.len(),
        s2.len() == t2.len(),
        u1.len() == v1.len(),
        u2.len() == v2.len(),
        edges_within(l, s1, t1, s1.len()),
        edges_within(l, s2, t2, s2.len()),
        edges_within(l, u1, v1, u1.len()),
        edges_within(l, u2, v2, u2.len()),
        same_partition(mid1, merge_all(l, s1, t1, s1.len())),
        same_partition(end1, merge_all(mid1, s2, t2, s2.len())),
        same_partition(mid2, merge_all(l, u1, v1, u1.len())),
        same_partition(end2, merge_all(mid2, u2, v2, u2.len())),
        joins_same_edges(s1 + s2, t1 + t2, u1 + u2, v1 + v2),
    ensures
        same_partition(end1, end2),
{
    lemma_sequential_one(l, s1, t1, s2, t2, mid1, end1);
    lemma_sequential_one(l, u1, v1, u2, v2, mid2, end2);
    let cs = s1 + s2;
    let ct = t1 + t2;
    let cu = u1 + u2;
    let cv = v1 + v2;
    assert forall|e: int| 0 <= e < cs.len() implies (#[trigger] cs[e] as int) < l.len() && (
    ct[e] as int) < l.len() by {
        if e < s1.len() {
            assert(cs[e] == s1[e] && ct[e] == t1[e]);
        } else {
            assert(cs[e] == s2[e - s1.len()] && ct[e] == t2[e - s1.len()]);
        }
    }
    assert forall|e: int| 0 <= e < cu.len() implies (#[trigger] cu[e] as int) < l.len() && (
    cv[e] as int) < l.len() by {
        if e < u1.len() {
            assert(cu[e] == u1[e] && cv[e] == v1[e]);
        } else {
            assert(cu[e] == u2[e - u1.len()] && cv[e] == v2[e - u1.len()]);
        }
    }
    lemma_edge_order_irrelevant(l, cs, ct, cu, cv);
    let m1 = merge_all(l, cs, ct, cs.len());
    let m2 = merge_all(l, cu, cv, cu.len());
    lemma_same_partition_trans(end1, m1, m2);
    lemma_same_partition_symmetric(end2, m2);
    lemma_same_partition_trans(end1, m2, end2);
}

proof fn lemma_same_partition_symmetric(a: Seq<int>, b: Seq<int>)
    requires
        same_partition(a, b),
    ensures
        same_partition(b, a),
{
}

/// The partition after two unions is that of one union of the concatenated edges.
proof fn lemma_sequential_one(
    l: Seq<int>,
    s1: Seq<u32>,
    t1: Seq<u32>,
    s2: Seq<u32>,
    t2: Seq<u32>,
    mid: Seq<int>,
    end: Seq<int>,
)
    requires
        s1.len() == t1.len(),
        s2.len() == t2.len(),
        edges_within(l, s1, t1, s1.len()),
        edges_within(l, s2, t2, s2.len()),
        same_partition(mid, merge_all(l, s1, t1, s1.len())),
        same_partition(end, merge_all(mid, s2, t2, s2.len())),
    ensures
        same_partition(end, merge_all(l, s1 + s2, t1 + t2, (s1 + s2).len())),
{
    let m = merge_all(l, s1, t1, s1.len());
    lemma_merge_all_len(l, s1, t1, s1.len());
    lemma_merge_all_respects(mid, m, s2, t2, s2.len());
    lemma_same_partition_trans(end, merge_all(mid, s2, t2, s2.len()), merge_all(m, s2, t2, s2.len()));
    lemma_merge_all_concat(l, s1, t1, s2, t2);
}

// ---------------------------------------------------------------------------
// DsuCore
// ---------------------------------------------------------------------------
/// Disjoint set union over a dense integer node space `0..len`.
///
/// Uses recursive path compression and union by rank. Its view labels each node
/// with the root of its tree.
pub struct DsuCore {
    parent: Vec<u32>,
    rank: Vec<u8>,
    roots: Ghost<Seq<int>>,
}

impl View for DsuCore {
    type V = Seq<int>;

    closed spec fn view(&self) -> Seq<int> {
        self.roots@
    }
}

impl DsuCore {
    /// The parent links form a forest whose roots label the view, ranks grow strictly
    /// towards the roots, and the set of a root of rank `k` holds at least `2^k` nodes.
    pub closed spec fn wf(&self) -> bool {
        let n = self.parent@.len();
        let p = self.parent@;
        let rk = self.rank@;
        let rt = self.roots@;
        &&& rk.len() == n
        &&& rt.len() == n
        &&& n <= 0x1_0000_0000
        &&& forall|x: int|
            0 <= x < n ==> {
                &&& (#[trigger] p[x] as int) < n
                &&& rt[p[x] as int] == rt[x]
                &&& (p[x] == x ==> rt[x] == x)
                &&& (p[x] != x ==> rk[x] < rk[p[x] as int])
            }
        &&& forall|x: int|
            0 <= x < n ==> {
                &&& 0 <= #[trigger] rt[x] < n
                &&& p[rt[x]] == rt[x]
                &&& rk[x] <= rk[rt[x]]
            }
        &&& forall|r: int|
            0 <= r < n && #[trigger] p[r] == r ==> pow2(rk[r] as nat) <= class_of(rt, r).len()
    }

    /// The view labels every node with a node of its own set that labels itself.
    pub proof fn lemma_view_canonical(&self)
        requires
            self.wf(),
        ensures
            forall|x: int|
                0 <= x < self@.len() ==> 0 <= #[trigger] self@[x] < self@.len() && self@[self@[x]]
                    == self@[x],
    {
        assert forall|x: int| 0 <= x < self@.len() implies 0 <= #[trigger] self@[x] < self@.len()
            && self@[self@[x]] == self@[x] by {
            let r = self.roots@[x];
            assert(self.parent@[r] == r);
        }
    }

    /// Ranks are bounded: ranks grow strictly along parent links, and since the set
    /// of a root of rank `k` holds at least `2^k` of at most `2^32` nodes, no rank
    /// exceeds 32. So a chain of parent links passes at most 33 nodes.
    pub proof fn lemma_rank_bound(&self)
        requires
            self.wf(),
        ensures
            self.rank_seq().len() == self.parent_seq().len(),
            forall|x: int| 0 <= x < self.rank_seq().len() ==> #[trigger] self.rank_seq()[x] <= 32,
            forall|x: int|
                0 <= x < self.parent_seq().len() && #[trigger] self.parent_seq()[x] != x ==> self.rank_seq()[x]
                    < self.rank_seq()[self.parent_seq()[x] as int],
    {
        let rk = self.rank@;
        let rt = self.roots@;
        assert forall|x: int| 0 <= x < rk.len() implies #[trigger] rk[x] <= 32 by {
            let r = rt[x];
            assert(self.parent@[r] == r);
            lemma_class_finite(rt, r);
            if rk[r] > 32 {
                lemma_pow2_strictly_increases(32, rk[r] as nat);
                lemma2_to64();
            }
        }
        assert forall|x: int|
            0 <= x < self.parent@.len() && #[trigger] self.parent@[x] != x implies rk[x]
            < rk[self.parent@[x] as int] by {
        }
    }

    /// Allocate an empty DSU.
    pub fn new() -> (d: Self)
        ensures
            d.wf(),
            d@ == Seq::<int>::empty(),
    {
        DsuCore { parent: Vec::new(), rank: Vec::new(), roots: Ghost(Seq::empty()) }
    }

    /// The parent link of each node.
    pub closed spec fn parent_seq(&self) -> Seq<u32> {
        self.parent@
    }

    /// The rank of each node.
    pub closed spec fn rank_seq(&self) -> Seq<u8> {
        self.rank@
    }

    /// The parent link of each node.
    pub fn parents(&self) -> (p: &[u32])
        ensures
            p@ == self.parent_seq(),
    {
        self.parent.as_slice()
    }

    /// The rank of each node.
    pub fn ranks(&self) -> (r: &[u8])
        ensures
            r@ == self.rank_seq(),
    {
        self.rank.as_slice()
    }

    /// The number of allocated nodes.
    pub fn len(&self) -> (n: usize)
        requires
            self.wf(),
        ensures
            n == self@.len(),
    {
        self.parent.len()
    }

    /// Grow the node space to `new_len`, adding singleton nodes as needed.
    ///
    /// Node ids are `u32`, so the node space holds at most `2^32` nodes.
    pub fn grow(&mut self, new_len: usize)
        requires
            old(self).wf(),
            old(self)@.len() <= new_len,
            new_len <= 0x1_0000_0000,
        ensures
            final(self).wf(),
            final(self)@ == old(self)@ + Seq::new(
                (new_len - old(self)@.len()) as nat,
                |i: int| old(self)@.len() + i,
            ),
    {
        let old_len = self.parent.len();
        let ghost start = self@;
        let mut i = old_len;
        while i < new_len
            invariant
                self.wf(),
                old_len == start.len(),
                old_len <= i <= new_len,
                new_len <= 0x1_0000_0000,
                self.parent@.len() == i,
                self@ == start + Seq::new((i - old_len) as nat, |k: int| old_len + k),
            decreases new_len - i,
        {
            let ghost prev = self.roots@;
            self.parent.push(i as u32);
            self.rank.push(0);
            self.roots = Ghost(prev.push(i as int));
            proof {
                let rt = self.roots@;
                assert forall|r: int| 0 <= r < i implies class_of(rt, r) == class_of(prev, r) by {
                    assert(class_of(rt, r) =~= class_of(prev, r));
                }
                assert(class_of(rt, i as int) =~= set![i as int]);
                assert(pow2(0) == 1) by {
                    lemma2_to64();
                }
                assert(self@ =~= start + Seq::new(((i + 1) - old_len) as nat, |k: int| old_len + k));
            }
            i = i + 1;
        }
    }

    /// Union all edges from the `src` and `dst` slices.
    ///
    /// Caller must ensure all IDs are within `0..len` before calling.
    pub fn union_edges(&mut self, src: &[u32], dst: &[u32]) -> (r: Result<(), CoreError>)
        requires
            old(self).wf(),
            src@.len() == dst@.len() ==> forall|i: int|
                0 <= i < src@.len() ==> (#[trigger] src@[i] as int) < old(self)@.len() && (
                dst@[i] as int) < old(self)@.len(),
        ensures
            final(self).wf(),
            final(self)@.len() == old(self)@.len(),
            src@.len() != dst@.len() ==> r == Err::<(), CoreError>(
                CoreError::LengthMismatch { src: src@.len() as usize, dst: dst@.len() as usize },
            ) && final(self)@ == old(self)@,
            src@.len() == dst@.len() ==> r == Ok::<(), CoreError>(()) && same_partition(
                final(self)@,
                merge_all(old(self)@, src@, dst@, src@.len()),
            ),
    {
        if src.len() != dst.len() {
            return Err(CoreError::LengthMismatch { src: src.len(), dst: dst.len() });
        }
        let ghost start = self@;
        proof {
            lemma_same_partition_refl(start);
            assert(src@.len() == dst@.len());
            assert(start == old(self)@);
            assert forall|k: int| 0 <= k < src@.len() implies (#[trigger] src@[k] as int)
                < start.len() && (dst@[k] as int) < start.len() by {
                assert((src@[k] as int) < old(self)@.len());
            }
        }
        let n = src.len();
        let mut i: usize = 0;
        while i < n
            invariant
                self.wf(),
                n == src@.len(),
                n == dst@.len(),
                i <= n,
                self@.len() == start.len(),
                forall|k: int|
                    0 <= k < src@.len() ==> (#[trigger] src@[k] as int) < start.len() && (
                    dst@[k] as int) < start.len(),
                same_partition(self@, merge_all(start, src@, dst@, i as nat)),
            decreases n - i,
        {
            let ghost before = self@;
            let s = src[i];
            let d = dst[i];
            self.union_roots(s as usize, d as usize);
            proof {
                let m = merge_all(start, src@, dst@, i as nat);
                lemma_merge_respects_partition(before, m, s as int, d as int);
                lemma_same_partition_trans(
                    self@,
                    merge(before, s as int, d as int),
                    merge(m, s as int, d as int),
                );
            }
            i = i + 1;
        }
        Ok(())
    }

    /// Return the root label for each node.
    ///
    /// Applies path compression across all nodes as a side effect.
    pub fn labels(&mut self) -> (labels: Vec<u32>)
        requires
            old(self).wf(),
        ensures
            final(self).wf(),
            final(self)@ == old(self)@,
            labels@.len() == old(self)@.len(),
            forall|i: int| 0 <= i < labels@.len() ==> #[trigger] labels@[i] as int == old(self)@[i],
            forall|i: int|
                0 <= i < labels@.len() ==> (#[trigger] labels@[i] as int) < labels@.len()
                    && labels@[labels@[i] as int] == labels@[i],
    {
        let n = self.parent.len();
        let mut out: Vec<u32> = Vec::new();
        let ghost start = self@;
        let mut i: usize = 0;
        while i < n
            invariant
                self.wf(),
                self@ == start,
                n == start.len(),
                i <= n,
                out@.len() == i,
                forall|k: int| 0 <= k < i ==> #[trigger] out@[k] as int == start[k],
            decreases n - i,
        {
            let r = self.find_root(i);
            out.push(r as u32);
            i = i + 1;
        }
        proof {
            self.lemma_view_canonical();
        }
        out
    }

    // -----------------------------------------------------------------------
    // Internals
    // -----------------------------------------------------------------------
    fn find_root(&mut self, x: usize) -> (r: usize)
        requires
            old(self).wf(),
            x < old(self)@.len(),
        ensures
            final(self).wf(),
            final(self)@ == old(self)@,
            final(self).rank@ == old(self).rank@,
            r == old(self)@[x as int],
            final(self)@[r as int] == r,
        decreases 256 - old(self).rank@[x as int],
    {
        proof {
            self.lemma_view_canonical();
        }
        if self.parent[x] as usize != x {
            let px = self.parent[x] as usize;
            let root = self.find_root(px);
            proof {
                let rt = self.roots@;
                assert(rt[x as int] != x);
                assert(self.rank@[x as int] < self.rank@[px as int]);
                assert(self.rank@[px as int] <= self.rank@[rt[px as int]]);
            }
            self.parent[x] = root as u32;
            proof {
                let p = self.parent@;
                let rt = self.roots@;
                assert forall|y: int| 0 <= y < p.len() && #[trigger] p[y] == y implies pow2(
                    self.rank@[y] as nat,
                ) <= class_of(rt, y).len() by {
                    assert(y != x);
                }
            }
        }
        self.parent[x] as usize
    }

    /// The root of `x`, without path compression.
    pub(crate) fn root(&self, x: u32) -> (r: u32)
        requires
            self.wf(),
            (x as int) < self@.len(),
        ensures
            r as int == self@[x as int],
    {
        let mut x = x;
        let ghost x0 = x;
        while self.parent[x as usize] != x
            invariant
                self.wf(),
                (x as int) < self@.len(),
                self@[x as int] == self@[x0 as int],
            decreases 256 - self.rank@[x as int],
        {
            x = self.parent[x as usize];
        }
        x
    }

    /// Join the sets of `a` and `b`, attaching the root of lower rank below the other.
    pub(crate) fn union_roots(&mut self, a: usize, b: usize)
        requires
            old(self).wf(),
            a < old(self)@.len(),
            b < old(self)@.len(),
        ensures
            final(self).wf(),
            same_partition(final(self)@, merge(old(self)@, a as int, b as int)),
            old(self)@[a as int] == old(self)@[b as int] ==> final(self)@ == old(self)@,
    {
        let ghost start = self@;
        let ra = self.find_root(a);
        let rb = self.find_root(b);
        if ra == rb {
            proof {
                assert(merge(start, a as int, b as int) =~= start);
                lemma_same_partition_refl(start);
            }
            return;
        }
        let ghost prev = self.roots@;
        proof {
            lemma_class_finite(prev, ra as int);
            lemma_class_finite(prev, rb as int);
            lemma_merge_classes(prev, ra as int, rb as int);
            lemma_merge_classes(prev, rb as int, ra as int);
        }
        if self.rank[ra] < self.rank[rb] {
            self.parent[ra] = rb as u32;
            self.roots = Ghost(merge(prev, ra as int, rb as int));
            proof {
                lemma_class_finite(prev, rb as int);
                assert(merge(prev, ra as int, rb as int) =~= merge(start, a as int, b as int));
                lemma_same_partition_refl(self@);
            }
        } else {
            if self.rank[ra] == self.rank[rb] {
                proof {
                    let k = self.rank@[ra as int] as nat;
                    let m = class_of(merge(prev, rb as int, ra as int), ra as int);
                    lemma_class_finite(merge(prev, rb as int, ra as int), ra as int);
                    lemma_pow2_unfold(k + 1);
                    assert(pow2(k + 1) <= m.len());
                    if k + 1 > 32 {
                        lemma_pow2_strictly_increases(32, k + 1);
                        lemma2_to64();
                    }
                }
                self.parent[rb] = ra as u32;
                self.rank[ra] = self.rank[ra] + 1;
            } else {
                self.parent[rb] = ra as u32;
            }
            self.roots = Ghost(merge(prev, rb as int, ra as int));
            proof {
                assert(merge(prev, rb as int, ra as int) =~= merge(start, b as int, a as int));
                lemma_merge_symmetric(start, b as int, a as int);
            }
        }
    }
}

} // verus!
