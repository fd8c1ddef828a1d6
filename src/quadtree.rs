use vstd::multiset::Multiset;
use vstd::prelude::*;

verus! {

/// The number of children of an internal node.
pub const CHILDREN: usize = 4;

/// The entries of `indexes` whose quadrant, in the parallel sequence `quadrants`, is `q`,
/// in their order.
pub open spec fn bucket(indexes: Seq<usize>, quadrants: Seq<usize>, q: int) -> Seq<usize>
    decreases indexes.len(),
{
    if indexes.len() == 0 {
        Seq::empty()
    } else {
        let rest = bucket(indexes.drop_last(), quadrants, q);
        if quadrants[indexes.len() - 1] == q {
            rest.push(indexes.last())
        } else {
            rest
        }
    }
}

/// A node of the quadtree. `data` holds what the caller keeps per node (its rectangle and
/// the Barnes-Hut aggregates); a leaf lists the indexes of its particles, an internal node
/// has four children.
pub struct QuadTreeNode<D> {
    pub data: D,
    pub indexes: Vec<usize>,
    pub childs: Vec<QuadTreeNode<D>>,
}

/// The particle indexes held by the leaves under `n`, children in order, looking at most
/// `depth` levels down.
pub open spec fn leaf_indexes<D>(n: QuadTreeNode<D>, depth: nat) -> Seq<usize>
    decreases depth,
{
    if n.childs@.len() != CHILDREN || depth == 0 {
        n.indexes@
    } else {
        leaf_indexes(n.childs@[0], (depth - 1) as nat) + leaf_indexes(n.childs@[1], (depth - 1) as nat)
            + leaf_indexes(n.childs@[2], (depth - 1) as nat) + leaf_indexes(
            n.childs@[3],
            (depth - 1) as nat,
        )
    }
}

/// The particle indexes under the nodes of a cut, node `k` looked at `depths[k]` levels down.
pub open spec fn cut_indexes<D>(nodes: Seq<&QuadTreeNode<D>>, depths: Seq<nat>) -> Multiset<usize>
    decreases nodes.len(),
{
    if nodes.len() == 0 {
        Multiset::empty()
    } else {
        cut_indexes(nodes.drop_last(), depths.drop_last()).add(
            leaf_indexes(*nodes.last(), depths.last()).to_multiset(),
        )
    }
}

/// `r` is the cut that a Barnes-Hut traversal from `n` produces, `depth` levels deep: a leaf,
/// a node at the depth limit, or a node that `far` accepted stands for itself; a node that `far`
/// rejected is opened, and the cuts of its four children (`parts`) follow one another in child
/// order.
pub open spec fn cut_of<D, O: Fn(&D) -> bool>(
    n: &QuadTreeNode<D>,
    depth: nat,
    far: O,
    r: Seq<&QuadTreeNode<D>>,
) -> bool
    decreases depth,
{
    if n.childs@.len() != CHILDREN || depth == 0 {
        r == seq![n]
    } else {
        ||| (r == seq![n] && far.ensures((&n.data,), true))
        ||| (far.ensures((&n.data,), false) && exists|parts: Seq<Seq<&QuadTreeNode<D>>>|
            #![trigger parts[0]]
            {
                &&& parts.len() == CHILDREN
                &&& r == parts[0] + parts[1] + parts[2] + parts[3]
                &&& forall|q: int|
                    0 <= q < CHILDREN ==> cut_of(&n.childs@[q], (depth - 1) as nat, far, #[trigger] parts[q])
            })
    }
}

/// A stricter opening test does at least the direct work of a looser one: when `far2` accepts
/// every node data that `far1` accepts, and each gives a single answer per data, every leaf in
/// the cut for `far2` is in the cut for `far1`.
pub proof fn lemma_cut_leaves_shrink<D, O1: Fn(&D) -> bool, O2: Fn(&D) -> bool>(
    n: &QuadTreeNode<D>,
    depth: nat,
    far1: O1,
    far2: O2,
    r1: Seq<&QuadTreeNode<D>>,
    r2: Seq<&QuadTreeNode<D>>,
)
    requires
        forall|d: &D| #[trigger] far1.ensures((d,), true) ==> far2.ensures((d,), true),
        forall|d: &D| !(#[trigger] far2.ensures((d,), true) && far2.ensures((d,), false)),
        cut_of(n, depth, far1, r1),
        cut_of(n, depth, far2, r2),
    ensures
        forall|k: int|
            0 <= k < r2.len() && (#[trigger] r2[k]).childs@.len() != CHILDREN ==> r1.contains(r2[k]),
    decreases depth,
{
    if n.childs@.len() != CHILDREN || depth == 0 {
        assert(r1 == seq![n] && r2 == seq![n]);
        assert forall|k: int|
            0 <= k < r2.len() && (#[trigger] r2[k]).childs@.len() != CHILDREN implies r1.contains(
            r2[k],
        ) by {
            assert(r1[0] == r2[k]);
        }
    } else if r2 == seq![n] && far2.ensures((&n.data,), true) {
    } else {
        assert(far2.ensures((&n.data,), false));
        assert(!far1.ensures((&n.data,), true));
        let p1 = choose|parts: Seq<Seq<&QuadTreeNode<D>>>|
            #![trigger parts[0]]
            {
                &&& parts.len() == CHILDREN
                &&& r1 == parts[0] + parts[1] + parts[2] + parts[3]
                &&& forall|q: int|
                    0 <= q < CHILDREN ==> cut_of(&n.childs@[q], (depth - 1) as nat, far1, #[trigger] parts[q])
            };
        let p2 = choose|parts: Seq<Seq<&QuadTreeNode<D>>>|
            #![trigger parts[0]]
            {
                &&& parts.len() == CHILDREN
                &&& r2 == parts[0] + parts[1] + parts[2] + parts[3]
                &&& forall|q: int|
                    0 <= q < CHILDREN ==> cut_of(&n.childs@[q], (depth - 1) as nat, far2, #[trigger] parts[q])
            };
        assert forall|k: int|
            0 <= k < r2.len() && (#[trigger] r2[k]).childs@.len() != CHILDREN implies r1.contains(
            r2[k],
        ) by {
            let (a0, a1, a2, a3) = (p2[0], p2[1], p2[2], p2[3]);
            let (b0, b1, b2, b3) = (p1[0], p1[1], p1[2], p1[3]);
            let (q, j) = if k < a0.len() {
                (0int, k)
            } else if k < a0.len() + a1.len() {
                (1int, k - a0.len())
            } else if k < a0.len() + a1.len() + a2.len() {
                (2int, k - a0.len() - a1.len())
            } else {
                (3int, k - a0.len() - a1.len() - a2.len())
            };
            assert(r2[k] == p2[q][j]);
            lemma_cut_leaves_shrink(&n.childs@[q], (depth - 1) as nat, far1, far2, p1[q], p2[q]);
            assert(p1[q].contains(p2[q][j]));
            let m = choose|m: int| 0 <= m < p1[q].len() && p1[q][m] == p2[q][j];
            let off: int = if q == 0 {
                0
            } else if q == 1 {
                b0.len() as int
            } else if q == 2 {
                (b0.len() + b1.len()) as int
            } else {
                (b0.len() + b1.len() + b2.len()) as int
            };
            assert(r1[off + m] == p1[q][m]);
        }
    }
}

/// Four cuts appended one after another, one per child of an opened node, make its cut.
proof fn lemma_opened_cut<D, O: Fn(&D) -> bool>(
    n: &QuadTreeNode<D>,
    depth: nat,
    far: O,
    o0: Seq<&QuadTreeNode<D>>,
    o1: Seq<&QuadTreeNode<D>>,
    o2: Seq<&QuadTreeNode<D>>,
    o3: Seq<&QuadTreeNode<D>>,
    o4: Seq<&QuadTreeNode<D>>,
)
    requires
        depth > 0,
        n.childs@.len() == CHILDREN,
        far.ensures((&n.data,), false),
        o0.len() <= o1.len() <= o2.len() <= o3.len() <= o4.len(),
        o1.subrange(0, o0.len() as int) == o0,
        o2.subrange(0, o1.len() as int) == o1,
        o3.subrange(0, o2.len() as int) == o2,
        o4.subrange(0, o3.len() as int) == o3,
        cut_of(&n.childs@[0], (depth - 1) as nat, far, o1.subrange(o0.len() as int, o1.len() as int)),
        cut_of(&n.childs@[1], (depth - 1) as nat, far, o2.subrange(o1.len() as int, o2.len() as int)),
        cut_of(&n.childs@[2], (depth - 1) as nat, far, o3.subrange(o2.len() as int, o3.len() as int)),
        cut_of(&n.childs@[3], (depth - 1) as nat, far, o4.subrange(o3.len() as int, o4.len() as int)),
    ensures
        cut_of(n, depth, far, o4.subrange(o0.len() as int, o4.len() as int)),
{
    let parts = seq![
        o1.subrange(o0.len() as int, o1.len() as int),
        o2.subrange(o1.len() as int, o2.len() as int),
        o3.subrange(o2.len() as int, o3.len() as int),
        o4.subrange(o3.len() as int, o4.len() as int),
    ];
    assert(o3.subrange(o1.len() as int, o2.len() as int) =~= parts[1]);
    assert(o4.subrange(o1.len() as int, o2.len() as int) =~= parts[1]);
    assert(o2.subrange(o0.len() as int, o1.len() as int) =~= parts[0]);
    assert(o3.subrange(o0.len() as int, o1.len() as int) =~= parts[0]);
    assert(o4.subrange(o0.len() as int, o1.len() as int) =~= parts[0]);
    assert(o4.subrange(o2.len() as int, o3.len() as int) =~= parts[2]);
    assert(o4.subrange(o0.len() as int, o4.len() as int) =~= parts[0] + parts[1] + parts[2]
        + parts[3]);
    assert(forall|q: int|
        0 <= q < CHILDREN ==> cut_of(&n.childs@[q], (depth - 1) as nat, far, #[trigger] parts[q])) by {
        assert(parts[0] == o1.subrange(o0.len() as int, o1.len() as int));
        assert(parts[1] == o2.subrange(o1.len() as int, o2.len() as int));
        assert(parts[2] == o3.subrange(o2.len() as int, o3.len() as int));
        assert(parts[3] == o4.subrange(o3.len() as int, o4.len() as int));
    }
    let r = o4.subrange(o0.len() as int, o4.len() as int);
    assert(parts.len() == CHILDREN && r == parts[0] + parts[1] + parts[2] + parts[3]);
    assert(cut_of(n, depth, far, r));
}

/// Entry `i` goes to child `q` of a node whose children are `kids`: the first child whose data
/// `contains` accepted it, or child 0 when it rejected all four.
pub open spec fn first_containing<D, Q: Fn(&D, usize) -> bool>(
    kids: Seq<QuadTreeNode<D>>,
    i: usize,
    q: int,
    contains: Q,
) -> bool {
    &&& 0 <= q < CHILDREN
    &&& forall|j: int| 0 <= j < q ==> contains.ensures((&kids[j].data, i), false)
    &&& (contains.ensures((&kids[q].data, i), true) || (q == 0 && forall|j: int|
        0 <= j < CHILDREN ==> contains.ensures((&kids[j].data, i), false)))
}

/// `n` is what a build over `idx` makes of the node `before`, `depth` levels deep. The node is
/// a leaf exactly when `idx` fits in `max_particles` or the depth is used up; its data is what
/// `summarize` gave for its old data, exactly `idx`, and that leaf flag. A leaf lists exactly
/// `idx`. An internal node lists nothing and has four children: its old ones if it had four,
/// else empty leaves over the data `split` gave for its new data. Each entry goes to its first
/// containing child (`quadrants`), and each child is built over its bucket one level down.
pub open spec fn built<D, S, C, Q>(
    n: QuadTreeNode<D>,
    before: QuadTreeNode<D>,
    idx: Seq<usize>,
    max_particles: nat,
    depth: nat,
    summarize: S,
    split: C,
    contains: Q,
) -> bool where
    S: Fn(&D, &Vec<usize>, bool) -> D,
    C: Fn(&D) -> (D, D, D, D),
    Q: Fn(&D, usize) -> bool,

    decreases depth,
{
    let leaf = depth == 0 || idx.len() <= max_particles;
    &&& exists|v: Vec<usize>|
        #![trigger v@]
        v@ == idx && summarize.ensures((&before.data, &v, leaf), n.data)
    &&& if leaf {
        &&& n.childs@.len() == 0
        &&& n.indexes@ == idx
    } else {
        &&& n.indexes@.len() == 0
        &&& n.childs@.len() == CHILDREN
        &&& exists|kids: Seq<QuadTreeNode<D>>, quadrants: Seq<usize>|
            #![trigger kids.len(), quadrants.len()]
            {
                &&& kids.len() == CHILDREN
                &&& quadrants.len() == idx.len()
                &&& before.childs@.len() == CHILDREN ==> kids == before.childs@
                &&& before.childs@.len() != CHILDREN ==> {
                    &&& split.ensures(
                        (&n.data,),
                        (kids[0].data, kids[1].data, kids[2].data, kids[3].data),
                    )
                    &&& forall|q: int|
                        0 <= q < CHILDREN ==> (#[trigger] kids[q]).indexes@.len() == 0
                            && kids[q].childs@.len() == 0
                }
                &&& forall|k: int|
                    0 <= k < idx.len() ==> first_containing(
                        kids,
                        idx[k],
                        #[trigger] quadrants[k] as int,
                        contains,
                    )
                &&& forall|q: int|
                    0 <= q < CHILDREN ==> built(
                        #[trigger] n.childs@[q],
                        kids[q],
                        bucket(idx, quadrants, q),
                        max_particles,
                        (depth - 1) as nat,
                        summarize,
                        split,
                        contains,
                    )
            }
    }
}

/// The shape a build leaves within `depth` levels: an internal node lists no indexes and has
/// four children; a leaf holds at most `max_particles` unless it sits at the depth limit.
pub open spec fn tree_wf<D>(n: QuadTreeNode<D>, depth: nat, max_particles: nat) -> bool
    decreases depth,
{
    if n.childs@.len() == 0 {
        n.indexes@.len() <= max_particles || depth == 0
    } else {
        &&& depth > 0
        &&& n.childs@.len() == CHILDREN
        &&& n.indexes@.len() == 0
        &&& forall|q: int|
            0 <= q < CHILDREN ==> tree_wf(#[trigger] n.childs@[q], (depth - 1) as nat, max_particles)
    }
}

/// Together the four buckets hold exactly the entries of `indexes`.
pub proof fn lemma_buckets_multiset(indexes: Seq<usize>, quadrants: Seq<usize>)
    requires
        quadrants.len() >= indexes.len(),
        forall|k: int| 0 <= k < indexes.len() ==> quadrants[k] < CHILDREN,
    ensures
        (bucket(indexes, quadrants, 0) + bucket(indexes, quadrants, 1) + bucket(indexes, quadrants, 2)
            + bucket(indexes, quadrants, 3)).to_multiset() =~= indexes.to_multiset(),
    decreases indexes.len(),
{
    broadcast use vstd::seq_lib::group_to_multiset_ensures, vstd::seq_lib::lemma_multiset_commutative;

    let b0 = bucket(indexes, quadrants, 0);
    let b1 = bucket(indexes, quadrants, 1);
    let b2 = bucket(indexes, quadrants, 2);
    let b3 = bucket(indexes, quadrants, 3);
    assert((b0 + b1 + b2 + b3).to_multiset() =~= b0.to_multiset().add(b1.to_multiset()).add(
        b2.to_multiset(),
    ).add(b3.to_multiset()));
    if indexes.len() > 0 {
        let rest = indexes.drop_last();
        lemma_buckets_multiset(rest, quadrants);
        let r0 = bucket(rest, quadrants, 0);
        let r1 = bucket(rest, quadrants, 1);
        let r2 = bucket(rest, quadrants, 2);
        let r3 = bucket(rest, quadrants, 3);
        assert((r0 + r1 + r2 + r3).to_multiset() =~= r0.to_multiset().add(r1.to_multiset()).add(
            r2.to_multiset(),
        ).add(r3.to_multiset()));
        assert(rest.push(indexes.last()) =~= indexes);
    }
}

/// Whether a node whose subset holds `count` particles is a leaf.
pub fn stays_leaf(count: usize, max_particles: usize) -> (r: bool)
    ensures
        r == (count <= max_particles),
{
    count <= max_particles
}

impl<D> QuadTreeNode<D> {
    pub open spec fn is_leaf(&self) -> bool {
        self.childs@.len() == 0
    }

    /// A leaf with no particles.
    pub fn new(data: D) -> (r: Self)
        ensures
            r.data == data,
            r.indexes@.len() == 0,
            r.is_leaf(),
    {
        QuadTreeNode { data, indexes: Vec::new(), childs: Vec::new() }
    }

    /// Gives a leaf its four children, empty leaves over the given data, in child order
    /// (child `i` covers column `i % 2` and row `i / 2` of the halved rectangle).
    pub fn create_childs(&mut self, d0: D, d1: D, d2: D, d3: D)
        requires
            old(self).is_leaf(),
        ensures
            final(self).data == old(self).data,
            final(self).indexes@ == old(self).indexes@,
            final(self).childs@.len() == CHILDREN,
            final(self).childs@[0].data == d0,
            final(self).childs@[1].data == d1,
            final(self).childs@[2].data == d2,
            final(self).childs@[3].data == d3,
            forall|q: int|
                0 <= q < CHILDREN ==> {
                    &&& (#[trigger] final(self).childs@[q]).indexes@.len() == 0
                    &&& final(self).childs@[q].is_leaf()
                },
    {
        self.childs.push(QuadTreeNode::new(d0));
        self.childs.push(QuadTreeNode::new(d1));
        self.childs.push(QuadTreeNode::new(d2));
        self.childs.push(QuadTreeNode::new(d3));
    }

    /// Rebuilds the subtree over `indexes`. Each node's data is replaced by `summarize` of its
    /// old data, its subset and whether it ends up a leaf. A node becomes a leaf when its
    /// subset fits in `max_particles` or `depth` levels are used up; otherwise it keeps its four
    /// children (creating them with `split` when it has none) and hands each entry to the
    /// first child that `contains` it (child 0 when none does). The leaves end up holding
    /// exactly the entries of `indexes`.
    pub fn insert_particles<S, C, Q>(
        &mut self,
        indexes: Vec<usize>,
        max_particles: usize,
        depth: usize,
        summarize: &S,
        split: &C,
        contains: &Q,
    ) where S: Fn(&D, &Vec<usize>, bool) -> D, C: Fn(&D) -> (D, D, D, D), Q: Fn(&D, usize) -> bool
        requires
            forall|d: &D, v: &Vec<usize>, leaf: bool| #[trigger] summarize.requires((d, v, leaf)),
            forall|d: &D| #[trigger] split.requires((d,)),
            forall|d: &D, i: usize| #[trigger] contains.requires((d, i)),
        ensures
            built(
                *final(self),
                *old(self),
                indexes@,
                max_particles as nat,
                depth as nat,
                *summarize,
                *split,
                *contains,
            ),
            tree_wf(*final(self), depth as nat, max_particles as nat),
            leaf_indexes(*final(self), depth as nat).to_multiset() =~= indexes@.to_multiset(),
        decreases depth,
    {
        let ghost gv = indexes;
        let leaf = depth == 0 || stays_leaf(indexes.len(), max_particles);
        self.data = summarize(&self.data, &indexes, leaf);
        proof {
            assert(gv@ == indexes@ && summarize.ensures((&old(self).data, &gv, leaf), self.data));
        }
        if leaf {
            self.make_leaf(indexes);
            return ;
        }
        if self.childs.len() != CHILDREN {
            self.childs.clear();
            let (d0, d1, d2, d3) = split(&self.data);
            self.create_childs(d0, d1, d2, d3);
        }
        let ghost kids = self.childs@;
        proof {
            if old(self).childs@.len() == CHILDREN {
                assert(kids == old(self).childs@);
            }
        }
        let mut quadrants: Vec<usize> = Vec::new();
        let mut k: usize = 0;
        while k < indexes.len()
            invariant
                self.childs@.len() == CHILDREN,
                k <= indexes@.len(),
                quadrants@.len() == k,
                forall|j: int| 0 <= j < k ==> quadrants@[j] < CHILDREN,
                forall|d: &D, i: usize| #[trigger] contains.requires((d, i)),
                self.childs@ == kids,
                forall|j: int|
                    0 <= j < k ==> first_containing(
                        kids,
                        indexes@[j],
                        #[trigger] quadrants@[j] as int,
                        *contains,
                    ),
            decreases indexes@.len() - k,
        {
            let i = indexes[k];
            let inside = vec![
                contains(&self.childs[0].data, i),
                contains(&self.childs[1].data, i),
                contains(&self.childs[2].data, i),
                contains(&self.childs[3].data, i),
            ];
            let q = quadrant_of(&inside);
            proof {
                assert(forall|j: int|
                    0 <= j < CHILDREN ==> contains.ensures((&kids[j].data, i), #[trigger] inside@[j]));
                if exists|j: int| 0 <= j < inside@.len() && inside@[j] {
                } else {
                    assert(forall|j: int| 0 <= j < CHILDREN ==> !inside@[j]);
                }
                assert(first_containing(kids, i, q as int, *contains));
            }
            quadrants.push(q);
            k = k + 1;
        }
        let mut buckets = self.make_internal(&indexes, &quadrants);
        proof {
            lemma_buckets_multiset(indexes@, quadrants@);
        }
        let ghost bs = buckets@;
        let mut childs: Vec<QuadTreeNode<D>> = Vec::new();
        std::mem::swap(&mut self.childs, &mut childs);
        let b3 = buckets.pop().unwrap();
        let b2 = buckets.pop().unwrap();
        let b1 = buckets.pop().unwrap();
        let b0 = buckets.pop().unwrap();
        let mut c3 = childs.pop().unwrap();
        let mut c2 = childs.pop().unwrap();
        let mut c1 = childs.pop().unwrap();
        let mut c0 = childs.pop().unwrap();
        proof {
            assert(c0 == kids[0] && c1 == kids[1] && c2 == kids[2] && c3 == kids[3]);
        }
        c0.insert_particles(b0, max_particles, depth - 1, summarize, split, contains);
        c1.insert_particles(b1, max_particles, depth - 1, summarize, split, contains);
        c2.insert_particles(b2, max_particles, depth - 1, summarize, split, contains);
        c3.insert_particles(b3, max_particles, depth - 1, summarize, split, contains);
        self.childs = vec![c0, c1, c2, c3];
        proof {
            broadcast use vstd::seq_lib::lemma_multiset_commutative;

            assert(b0@ == bs[0]@ && b1@ == bs[1]@ && b2@ == bs[2]@ && b3@ == bs[3]@);
            assert(self.childs@[0] == c0 && self.childs@[1] == c1);
            assert(self.childs@[2] == c2 && self.childs@[3] == c3);
            let d = (depth - 1) as nat;
            let l0 = leaf_indexes(c0, d);
            let l1 = leaf_indexes(c1, d);
            let l2 = leaf_indexes(c2, d);
            let l3 = leaf_indexes(c3, d);
            assert((l0 + l1 + l2 + l3).to_multiset() =~= l0.to_multiset().add(l1.to_multiset()).add(
                l2.to_multiset(),
            ).add(l3.to_multiset()));
            let (e0, e1, e2, e3) = (b0@, b1@, b2@, b3@);
            assert((e0 + e1 + e2 + e3).to_multiset() =~= e0.to_multiset().add(e1.to_multiset()).add(
                e2.to_multiset(),
            ).add(e3.to_multiset()));
            let qs = quadrants@;
            assert(forall|q: int|
                0 <= q < CHILDREN ==> built(
                    #[trigger] self.childs@[q],
                    kids[q],
                    bucket(indexes@, qs, q),
                    max_particles as nat,
                    d,
                    *summarize,
                    *split,
                    *contains,
                ));
            assert(kids.len() == CHILDREN && qs.len() == indexes@.len());
        }
    }

    fn collect_cut<'a, O>(
        node: &'a QuadTreeNode<D>,
        depth: usize,
        far: &O,
        out: &mut Vec<&'a QuadTreeNode<D>>,
        depths: Ghost<Seq<nat>>,
    ) -> (r: Ghost<Seq<nat>>) where O: Fn(&D) -> bool
        requires
            old(out)@.len() == depths@.len(),
            forall|d: &D| #[trigger] far.requires((d,)),
        ensures
            r@.len() == final(out)@.len(),
            final(out)@.len() >= old(out)@.len(),
            final(out)@.subrange(0, old(out)@.len() as int) == old(out)@,
            r@.subrange(0, old(out)@.len() as int) == depths@,
            cut_indexes(final(out)@, r@) == cut_indexes(old(out)@, depths@).add(
                leaf_indexes(*node, depth as nat).to_multiset(),
            ),
            cut_of(node, depth as nat, *far, final(out)@.subrange(old(out)@.len() as int, final(out)@.len() as int)),
            forall|k: int|
                old(out)@.len() <= k < final(out)@.len() ==> {
                    ||| (#[trigger] final(out)@[k]).childs@.len() != CHILDREN
                    ||| r@[k] == 0
                    ||| far.ensures((&final(out)@[k].data,), true)
                },
        decreases depth,
    {
        if node.childs.len() != CHILDREN || depth == 0 {
            out.push(node);
            proof {
                assert(out@.subrange(old(out)@.len() as int, out@.len() as int) =~= seq![node]);
                assert(out@.drop_last() =~= old(out)@);
                assert(depths@.push(depth as nat).drop_last() =~= depths@);
                assert(out@.subrange(0, old(out)@.len() as int) =~= old(out)@);
                assert(depths@.push(depth as nat).subrange(0, old(out)@.len() as int) =~= depths@);
            }
            return Ghost(depths@.push(depth as nat));
        }
        if far(&node.data) {
            out.push(node);
            proof {
                assert(out@.subrange(old(out)@.len() as int, out@.len() as int) =~= seq![node]);
                assert(out@.drop_last() =~= old(out)@);
                assert(depths@.push(depth as nat).drop_last() =~= depths@);
                assert(out@.subrange(0, old(out)@.len() as int) =~= old(out)@);
                assert(depths@.push(depth as nat).subrange(0, old(out)@.len() as int) =~= depths@);
            }
            return Ghost(depths@.push(depth as nat));
        }
        let ghost o0 = out@;
        let g1 = Self::collect_cut(&node.childs[0], depth - 1, far, out, depths);
        let ghost o1 = out@;
        let g2 = Self::collect_cut(&node.childs[1], depth - 1, far, out, g1);
        let ghost o2 = out@;
        let g3 = Self::collect_cut(&node.childs[2], depth - 1, far, out, g2);
        let ghost o3 = out@;
        let g4 = Self::collect_cut(&node.childs[3], depth - 1, far, out, g3);
        proof {
            lemma_opened_cut(node, depth as nat, *far, o0, o1, o2, o3, out@);
        }
        proof {
            broadcast use vstd::seq_lib::lemma_multiset_commutative;

            let d = (depth - 1) as nat;
            let l0 = leaf_indexes(node.childs@[0], d);
            let l1 = leaf_indexes(node.childs@[1], d);
            let l2 = leaf_indexes(node.childs@[2], d);
            let l3 = leaf_indexes(node.childs@[3], d);
            assert((l0 + l1 + l2 + l3).to_multiset() =~= l0.to_multiset().add(l1.to_multiset()).add(
                l2.to_multiset(),
            ).add(l3.to_multiset()));
            assert(cut_indexes(out@, g4@) =~= cut_indexes(o0, depths@).add(
                leaf_indexes(*node, depth as nat).to_multiset(),
            ));
            assert(out@.subrange(0, o0.len() as int) =~= o0) by {
                assert(out@.subrange(0, o3.len() as int).subrange(0, o0.len() as int)
                    =~= out@.subrange(0, o0.len() as int));
                assert(o3.subrange(0, o2.len() as int).subrange(0, o0.len() as int)
                    =~= o3.subrange(0, o0.len() as int));
                assert(o2.subrange(0, o1.len() as int).subrange(0, o0.len() as int)
                    =~= o2.subrange(0, o0.len() as int));
            }
            assert(g4@.subrange(0, o0.len() as int) =~= depths@) by {
                assert(g4@.subrange(0, g3@.len() as int).subrange(0, o0.len() as int)
                    =~= g4@.subrange(0, o0.len() as int));
                assert(g3@.subrange(0, g2@.len() as int).subrange(0, o0.len() as int)
                    =~= g3@.subrange(0, o0.len() as int));
                assert(g2@.subrange(0, g1@.len() as int).subrange(0, o0.len() as int)
                    =~= g2@.subrange(0, o0.len() as int));
            }
            assert forall|k: int| o0.len() <= k < out@.len() implies {
                ||| (#[trigger] out@[k]).childs@.len() != CHILDREN
                ||| g4@[k] == 0
                ||| far.ensures((&out@[k].data,), true)
            } by {
                if k < o1.len() {
                    assert(out@[k] == o3[k] && o3[k] == o2[k] && o2[k] == o1[k]);
                    assert(g4@[k] == g3@[k] && g3@[k] == g2@[k] && g2@[k] == g1@[k]);
                } else if k < o2.len() {
                    assert(out@[k] == o3[k] && o3[k] == o2[k]);
                    assert(g4@[k] == g3@[k] && g3@[k] == g2@[k]);
                } else if k < o3.len() {
                    assert(out@[k] == o3[k]);
                    assert(g4@[k] == g3@[k]);
                }
            }
        }
        g4
    }

    /// The nodes at which a Barnes-Hut traversal from this node stops: a leaf, a node whose
    /// data `far` accepts (its aggregate stands for its particles), or a node at the depth
    /// limit. Other nodes are opened and their children visited in order. Together the
    /// nodes of the cut hold every particle under this node exactly once, and the cut is the one
    /// that the answers of `far` fix (`cut_of`).
    pub fn barnes_hut_cut<'a, O>(&'a self, depth: usize, far: &O) -> (r: Vec<&'a QuadTreeNode<D>>) where
        O: Fn(&D) -> bool,

        requires
            forall|d: &D| #[trigger] far.requires((d,)),
        ensures
            cut_of(self, depth as nat, *far, r@),
            exists|depths: Seq<nat>|
                {
                    &&& depths.len() == r@.len()
                    &&& cut_indexes(r@, depths) == leaf_indexes(*self, depth as nat).to_multiset()
                    &&& forall|k: int|
                        0 <= k < r@.len() ==> {
                            ||| (#[trigger] r@[k]).childs@.len() != CHILDREN
                            ||| depths[k] == 0
                            ||| far.ensures((&r@[k].data,), true)
                        }
                },
    {
        let mut out: Vec<&'a QuadTreeNode<D>> = Vec::new();
        let g = Self::collect_cut(self, depth, far, &mut out, Ghost(Seq::empty()));
        proof {
            assert(out@.subrange(0, out@.len() as int) =~= out@);
            assert(cut_indexes(Seq::<&QuadTreeNode<D>>::empty(), Seq::empty()) =~= Multiset::empty());
            assert(Multiset::<usize>::empty().add(leaf_indexes(*self, depth as nat).to_multiset())
                =~= leaf_indexes(*self, depth as nat).to_multiset());
        }
        out
    }

    /// Makes the node a leaf over `indexes`, dropping any children.
    pub fn make_leaf(&mut self, indexes: Vec<usize>)
        ensures
            final(self).data == old(self).data,
            final(self).indexes@ == indexes@,
            final(self).is_leaf(),
    {
        self.indexes = indexes;
        self.childs.clear();
    }

    /// Makes the node internal: it lists no indexes itself, and `indexes` go to the
    /// children's buckets, entry `k` to child `quadrants[k]`.
    pub fn make_internal(&mut self, indexes: &Vec<usize>, quadrants: &Vec<usize>) -> (r: Vec<
        Vec<usize>,
    >)
        requires
            old(self).childs@.len() == CHILDREN,
            quadrants@.len() == indexes@.len(),
            forall|k: int| 0 <= k < quadrants@.len() ==> quadrants@[k] < CHILDREN,
        ensures
            final(self).data == old(self).data,
            final(self).childs@ == old(self).childs@,
            final(self).indexes@.len() == 0,
            r@.len() == CHILDREN,
            forall|q: int|
                0 <= q < CHILDREN ==> (#[trigger] r@[q])@ == bucket(indexes@, quadrants@, q),
    {
        self.indexes.clear();
        distribute(indexes, quadrants)
    }
}

/// The first child whose closed rectangle holds a point, given for each child whether it
/// does; child 0 where none does.
pub fn quadrant_of(contained: &Vec<bool>) -> (q: usize)
    ensures
        (exists|i: int| 0 <= i < contained@.len() && contained@[i]) ==> {
            &&& q < contained@.len()
            &&& contained@[q as int]
            &&& forall|j: int| 0 <= j < q ==> !contained@[j]
        },
        (forall|i: int| 0 <= i < contained@.len() ==> !contained@[i]) ==> q == 0,
{
    let mut i: usize = 0;
    while i < contained.len()
        invariant
            i <= contained@.len(),
            forall|j: int| 0 <= j < i ==> !contained@[j],
        decreases contained@.len() - i,
    {
        if contained[i] {
            return i;
        }
        i = i + 1;
    }
    0
}

/// Splits `indexes` into the four child buckets, entry `k` going to child `quadrants[k]`;
/// each bucket keeps the order of `indexes`.
pub fn distribute(indexes: &Vec<usize>, quadrants: &Vec<usize>) -> (r: Vec<Vec<usize>>)
    requires
        quadrants@.len() == indexes@.len(),
        forall|k: int| 0 <= k < quadrants@.len() ==> quadrants@[k] < CHILDREN,
    ensures
        r@.len() == CHILDREN,
        forall|q: int| 0 <= q < CHILDREN ==> (#[trigger] r@[q])@ == bucket(indexes@, quadrants@, q),
{
    let mut b0: Vec<usize> = Vec::new();
    let mut b1: Vec<usize> = Vec::new();
    let mut b2: Vec<usize> = Vec::new();
    let mut b3: Vec<usize> = Vec::new();
    let mut k: usize = 0;
    while k < indexes.len()
        invariant
            quadrants@.len() == indexes@.len(),
            forall|j: int| 0 <= j < quadrants@.len() ==> quadrants@[j] < CHILDREN,
            k <= indexes@.len(),
            b0@ == bucket(indexes@.take(k as int), quadrants@, 0),
            b1@ == bucket(indexes@.take(k as int), quadrants@, 1),
            b2@ == bucket(indexes@.take(k as int), quadrants@, 2),
            b3@ == bucket(indexes@.take(k as int), quadrants@, 3),
        decreases indexes@.len() - k,
    {
        proof {
            assert(indexes@.take(k + 1).drop_last() =~= indexes@.take(k as int));
        }
        let q = quadrants[k];
        let i = indexes[k];
        if q == 0 {
            b0.push(i);
        } else if q == 1 {
            b1.push(i);
        } else if q == 2 {
            b2.push(i);
        } else {
            b3.push(i);
        }
        k = k + 1;
    }
    proof {
        assert(indexes@.take(indexes@.len() as int) =~= indexes@);
    }
    let r = vec![b0, b1, b2, b3];
    proof {
        assert forall|q: int| 0 <= q < CHILDREN implies (#[trigger] r@[q])@ == bucket(
            indexes@,
            quadrants@,
            q,
        ) by {
            if q == 0 {
            } else if q == 1 {
            } else if q == 2 {
            } else {
            }
        }
    }
    r
}

/// Partition coverage: the four buckets together hold as many entries as `indexes`, and
/// an index listed once is in the bucket of its own quadrant and in no other.
pub proof fn lemma_partition(indexes: Seq<usize>, quadrants: Seq<usize>)
    requires
        quadrants.len() == indexes.len(),
        forall|k: int| 0 <= k < quadrants.len() ==> quadrants[k] < CHILDREN,
    ensures
        bucket(indexes, quadrants, 0).len() + bucket(indexes, quadrants, 1).len() + bucket(
            indexes,
            quadrants,
            2,
        ).len() + bucket(indexes, quadrants, 3).len() == indexes.len(),
        indexes.no_duplicates() ==> forall|k: int, q: int|
            0 <= k < indexes.len() && 0 <= q < CHILDREN ==> (#[trigger] bucket(
                indexes,
                quadrants,
                q,
            ).contains(#[trigger] indexes[k]) <==> q == quadrants[k]),
{
    lemma_bucket_lengths(indexes, quadrants);
    if indexes.no_duplicates() {
        assert forall|k: int, q: int| 0 <= k < indexes.len() && 0 <= q < CHILDREN implies (
        #[trigger] bucket(indexes, quadrants, q).contains(#[trigger] indexes[k]) <==> q
            == quadrants[k]) by {
            lemma_bucket_members(indexes, quadrants, q);
        }
    }
}

proof fn lemma_bucket_lengths(indexes: Seq<usize>, quadrants: Seq<usize>)
    requires
        quadrants.len() >= indexes.len(),
        forall|k: int| 0 <= k < indexes.len() ==> quadrants[k] < CHILDREN,
    ensures
        bucket(indexes, quadrants, 0).len() + bucket(indexes, quadrants, 1).len() + bucket(
            indexes,
            quadrants,
            2,
        ).len() + bucket(indexes, quadrants, 3).len() == indexes.len(),
    decreases indexes.len(),
{
    if indexes.len() > 0 {
        lemma_bucket_lengths(indexes.drop_last(), quadrants);
    }
}

/// A bucket holds `m` exactly where some entry equal to `m` has that quadrant.
proof fn lemma_bucket_members(indexes: Seq<usize>, quadrants: Seq<usize>, q: int)
    requires
        quadrants.len() >= indexes.len(),
    ensures
        forall|m: usize|
            bucket(indexes, quadrants, q).contains(m) <==> exists|k: int|
                0 <= k < indexes.len() && indexes[k] == m && quadrants[k] == q,
    decreases indexes.len(),
{
    if indexes.len() > 0 {
        let rest = indexes.drop_last();
        lemma_bucket_members(rest, quadrants, q);
        let b = bucket(indexes, quadrants, q);
        let br = bucket(rest, quadrants, q);
        assert forall|m: usize| b.contains(m) <==> exists|k: int|
            0 <= k < indexes.len() && indexes[k] == m && quadrants[k] == q by {
            if b.contains(m) {
                let j = choose|j: int| 0 <= j < b.len() && b[j] == m;
                if j < br.len() {
                    assert(br[j] == m);
                    assert(br.contains(m));
                    let k = choose|k: int|
                        0 <= k < rest.len() && rest[k] == m && quadrants[k] == q;
                    assert(rest[k] == indexes[k]);
                }
            }
            if exists|k: int| 0 <= k < indexes.len() && indexes[k] == m && quadrants[k] == q {
                let k = choose|k: int|
                    0 <= k < indexes.len() && indexes[k] == m && quadrants[k] == q;
                if k < rest.len() {
                    assert(rest[k] == m);
                    assert(br.contains(m));
                    let j = choose|j: int| 0 <= j < br.len() && br[j] == m;
                    assert(b[j] == m);
                } else {
                    assert(b[b.len() - 1] == m);
                }
            }
        }
    }
}

} // verus!
