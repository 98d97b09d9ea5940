use vstd::prelude::*;
use crate::octant::OCTANTS;

verus! {

/// `q` is an initial segment of `r`.
pub open spec fn is_prefix(q: Seq<u8>, r: Seq<u8>) -> bool {
    q.len() <= r.len() && forall|i: int| 0 <= i < q.len() ==> r[i] == q[i]
}

/// Body `b` was inserted with a route that passes through the node at `q`.
pub open spec fn holds(rs: Seq<Option<Seq<u8>>>, q: Seq<u8>, b: usize) -> bool {
    &&& (b as int) < rs.len()
    &&& rs[b as int] is Some
    &&& is_prefix(q, rs[b as int]->0)
}

/// A route descends `depth` levels, one octant index per level.
pub open spec fn route_ok(r: Seq<u8>, depth: nat) -> bool {
    r.len() == depth && forall|i: int| 0 <= i < r.len() ==> (r[i] as usize) < OCTANTS
}

/// Every route that the tree holds descends `depth` levels.
pub open spec fn routes_ok(rs: Seq<Option<Seq<u8>>>, depth: nat) -> bool {
    forall|b: int| 0 <= b < rs.len() && (#[trigger] rs[b]) is Some ==> route_ok(rs[b]->0, depth)
}

/// The routes held by a tree, as mathematical sequences.
pub open spec fn routes_view(v: Seq<Option<Vec<u8>>>) -> Seq<Option<Seq<u8>>> {
    Seq::new(
        v.len(),
        |i: int|
            match v[i] {
                Some(r) => Some(r@),
                None => None,
            },
    )
}

/// One node of the octree: the bodies aggregated beneath it and either no
/// children (a leaf) or one child per octant.
pub struct OctreeNode {
    pub bodies: Vec<usize>,
    pub children: Vec<OctreeNode>,
}

impl OctreeNode {
    pub open spec fn is_leaf(self) -> bool {
        self.children@.len() == 0
    }

    /// Invariant of the node at path `q` of a tree of height `depth` whose
    /// bodies have the routes `rs`: it holds each body whose route passes
    /// through `q`, once; a leaf above the last level holds at most one
    /// body; an internal node holds two or more and has one child per
    /// octant, each well formed at its own path. A node is thus split
    /// exactly when it holds a second body above the last level.
    pub open spec fn node_ok(self, q: Seq<u8>, rs: Seq<Option<Seq<u8>>>, depth: nat) -> bool
        decreases depth - q.len(),
    {
        &&& q.len() <= depth
        &&& self.bodies@.no_duplicates()
        &&& forall|b: usize| #[trigger] self.bodies@.contains(b) <==> holds(rs, q, b)
        &&& self.is_leaf() ==> (q.len() < depth ==> self.bodies@.len() <= 1)
        &&& !self.is_leaf() ==> {
            &&& self.bodies@.len() >= 2
            &&& self.children@.len() == OCTANTS
            &&& q.len() < depth
            &&& forall|k: int|
                0 <= k < OCTANTS ==> (#[trigger] self.children@[k]).node_ok(
                    q.push(k as u8),
                    rs,
                    depth,
                )
        }
    }

    /// A node with no bodies and no children.
    pub fn new() -> (r: OctreeNode)
        ensures
            r.bodies@.len() == 0,
            r.is_leaf(),
    {
        OctreeNode { bodies: Vec::new(), children: Vec::new() }
    }

    /// Adds body `b` to this node, at path `q`, and to the nodes beneath it
    /// on `b`'s route. A leaf above the last level that would hold a second
    /// body is first split into eight children, and the body it held goes
    /// down into one of them; at the last level coincident bodies share a leaf.
    fn add(
        &mut self,
        b: usize,
        level: usize,
        routes: &Vec<Option<Vec<u8>>>,
        depth: usize,
        Ghost(q): Ghost<Seq<u8>>,
        Ghost(before): Ghost<Seq<Option<Seq<u8>>>>,
        Ghost(after): Ghost<Seq<Option<Seq<u8>>>>,
    )
        requires
            old(self).node_ok(q, before, depth as nat),
            level == q.len(),
            before.len() == after.len(),
            after.len() <= routes@.len(),
            (b as int) < after.len(),
            before[b as int] is None,
            after[b as int] is Some,
            is_prefix(q, after[b as int]->0),
            forall|i: int| 0 <= i < after.len() && i != b ==> before[i] == after[i],
            routes_ok(after, depth as nat),
            forall|i: int|
                0 <= i < after.len() && (#[trigger] after[i]) is Some ==> routes_view(routes@)[i]
                    == after[i],
        ensures
            final(self).node_ok(q, after, depth as nat),
        decreases depth - level,
    {
        let ghost old_bodies = self.bodies@;
        let ghost dn = depth as nat;
        assert(route_ok(after[b as int]->0, dn));
        assert(routes_view(routes@)[b as int] == after[b as int]);
        self.bodies.push(b);
        let ghost pushed = self.bodies@;
        assert(pushed == old_bodies.push(b));
        assert(!old_bodies.contains(b));
        if self.children.len() == 0 {
            if level < depth && self.bodies.len() == 2 {
                let prev = self.bodies[0];
                assert(old_bodies.contains(prev));
                assert(holds(before, q, prev));
                assert(prev != b);
                assert(before[prev as int] == after[prev as int]);
                assert(routes_view(routes@)[prev as int] == after[prev as int]);
                let mut ch: Vec<OctreeNode> = Vec::new();
                let mut i: usize = 0;
                while i < OCTANTS
                    invariant
                        i <= OCTANTS,
                        ch@.len() == i,
                        forall|j: int| 0 <= j < i ==> (#[trigger] ch@[j]).bodies@.len() == 0 && ch@[j].is_leaf(),
                    decreases OCTANTS - i,
                {
                    ch.push(OctreeNode::new());
                    i = i + 1;
                }
                self.children = ch;
                let ghost mid = before.update(prev as int, None);
                let ghost rp = before[prev as int]->0;
                assert forall|k: int| 0 <= k < OCTANTS implies (#[trigger] self.children@[k]).node_ok(
                    q.push(k as u8),
                    mid,
                    dn,
                ) by {
                    let qk = q.push(k as u8);
                    assert forall|x: usize| #[trigger] self.children@[k].bodies@.contains(x) <==> holds(mid, qk, x) by {
                        if holds(mid, qk, x) {
                            lemma_prefix_parent(q, k as u8, mid[x as int]->0);
                            assert(x != prev);
                            assert(holds(before, q, x));
                            assert(old_bodies.contains(x));
                        }
                    }
                }
                let kp: usize = match &routes[prev] {
                    Some(r) => r[level] as usize,
                    None => 0,
                };
                assert(kp == rp[level as int]);
                proof { lemma_prefix_parent(q, kp as u8, rp); }
                self.children[kp].add(prev, level + 1, routes, depth, Ghost(q.push(kp as u8)), Ghost(mid), Ghost(before));
                let ghost rb = after[b as int]->0;
                let kb: usize = match &routes[b] {
                    Some(r) => r[level] as usize,
                    None => 0,
                };
                assert(kb == rb[level as int]);
                proof { lemma_prefix_parent(q, kb as u8, rb); }
                assert forall|k: int| 0 <= k < OCTANTS && k != kp implies (#[trigger] self.children@[k]).node_ok(
                    q.push(k as u8),
                    before,
                    dn,
                ) by {
                    let qk = q.push(k as u8);
                    assert forall|x: usize| #[trigger] holds(mid, qk, x) == holds(before, qk, x) by {
                        if x == prev {
                            assert(qk[level as int] != rp[level as int]);
                        }
                    }
                    lemma_frame(self.children@[k], qk, mid, before, dn);
                }
                self.children[kb].add(b, level + 1, routes, depth, Ghost(q.push(kb as u8)), Ghost(before), Ghost(after));
                assert forall|k: int| 0 <= k < OCTANTS && k != kb implies (#[trigger] self.children@[k]).node_ok(
                    q.push(k as u8),
                    after,
                    dn,
                ) by {
                    let qk = q.push(k as u8);
                    assert forall|x: usize| #[trigger] holds(before, qk, x) == holds(after, qk, x) by {
                        if x == b {
                            assert(qk[level as int] != rb[level as int]);
                        }
                    }
                    lemma_frame(self.children@[k], qk, before, after, dn);
                }
                assert(self.bodies@ =~= seq![prev, b]);
            }
        } else {
            let ghost rb = after[b as int]->0;
            let kb: usize = match &routes[b] {
                Some(r) => r[level] as usize,
                None => 0,
            };
            assert(kb == rb[level as int]);
            proof { lemma_prefix_parent(q, kb as u8, rb); }
            self.children[kb].add(b, level + 1, routes, depth, Ghost(q.push(kb as u8)), Ghost(before), Ghost(after));
            assert forall|k: int| 0 <= k < OCTANTS && k != kb implies (#[trigger] self.children@[k]).node_ok(
                q.push(k as u8),
                after,
                dn,
            ) by {
                let qk = q.push(k as u8);
                assert forall|x: usize| #[trigger] holds(before, qk, x) == holds(after, qk, x) by {
                    if x == b {
                        assert(qk[level as int] != rb[level as int]);
                    }
                }
                lemma_frame(self.children@[k], qk, before, after, dn);
            }
        }
        assert(self.bodies@ == pushed);
        assert forall|x: usize| #[trigger] self.bodies@.contains(x) <==> holds(after, q, x) by {
            if x != b {
                assert(holds(after, q, x) == holds(before, q, x));
                if pushed.contains(x) {
                    let j = choose|j: int| 0 <= j < pushed.len() && pushed[j] == x;
                    assert(old_bodies[j] == x);
                }
                if old_bodies.contains(x) {
                    let j = choose|j: int| 0 <= j < old_bodies.len() && old_bodies[j] == x;
                    assert(pushed[j] == x);
                }
            } else {
                assert(pushed[old_bodies.len() as int] == b);
            }
        }
    }
}

proof fn lemma_prefix_parent(q: Seq<u8>, k: u8, r: Seq<u8>)
    ensures
        is_prefix(q.push(k), r) ==> is_prefix(q, r),
        is_prefix(q, r) && q.len() < r.len() && r[q.len() as int] == k ==> is_prefix(q.push(k), r),
{
    if is_prefix(q.push(k), r) {
        assert forall|i: int| 0 <= i < q.len() implies r[i] == q[i] by {
            assert(q.push(k)[i] == q[i]);
        }
    }
}

/// Routes that agree on every body beneath `q` leave a node's invariant as it is.
proof fn lemma_frame(
    n: OctreeNode,
    q: Seq<u8>,
    r1: Seq<Option<Seq<u8>>>,
    r2: Seq<Option<Seq<u8>>>,
    depth: nat,
)
    requires
        n.node_ok(q, r1, depth),
        forall|x: usize| #[trigger] holds(r1, q, x) == holds(r2, q, x),
        forall|x: usize| #[trigger] holds(r1, q, x) ==> r1[x as int] == r2[x as int],
    ensures
        n.node_ok(q, r2, depth),
    decreases depth - q.len(),
{
    if !n.is_leaf() {
        assert forall|k: int| 0 <= k < OCTANTS implies (#[trigger] n.children@[k]).node_ok(
            q.push(k as u8),
            r2,
            depth,
        ) by {
            let qk = q.push(k as u8);
            assert forall|x: usize| #[trigger] holds(r1, qk, x) == holds(r2, qk, x) by {
                if holds(r1, qk, x) {
                    lemma_prefix_parent(q, k as u8, r1[x as int]->0);
                    assert(holds(r1, q, x));
                    assert(r1[x as int] == r2[x as int]);
                }
                if holds(r2, qk, x) {
                    lemma_prefix_parent(q, k as u8, r2[x as int]->0);
                    assert(holds(r2, q, x));
                    assert(holds(r1, q, x));
                    assert(r1[x as int] == r2[x as int]);
                }
            }
            assert forall|x: usize| #[trigger] holds(r1, qk, x) implies r1[x as int]
                == r2[x as int] by {
                lemma_prefix_parent(q, k as u8, r1[x as int]->0);
                assert(holds(r1, q, x));
            }
            lemma_frame(n.children@[k], qk, r1, r2, depth);
        }
    }
}

/// Neither of the two node paths lies beneath the other, so no body is
/// held by both nodes.
pub open spec fn disjoint(p: Seq<u8>, r: Seq<u8>) -> bool {
    !is_prefix(p, r) && !is_prefix(r, p)
}

/// `accept` answered `val` for some vector holding the path `p`.
pub open spec fn answered<F: Fn(&Vec<u8>) -> bool>(accept: F, p: Seq<u8>, val: bool) -> bool {
    exists|v: &Vec<u8>| v@ == p && #[trigger] accept.ensures((v,), val)
}

/// The node at path `p` stands as one point mass: it holds bodies, it is a
/// leaf or `accept` took it whole, and `accept` opened each node above it.
pub open spec fn selected<F: Fn(&Vec<u8>) -> bool>(accept: F, root: OctreeNode, p: Seq<u8>) -> bool {
    &&& node_at(root, p) is Some
    &&& node_at(root, p)->0.bodies@.len() > 0
    &&& (node_at(root, p)->0.is_leaf() || answered(accept, p, true))
    &&& forall|j: int| 0 <= j < p.len() ==> #[trigger] answered(accept, p.subrange(0, j), false)
}

/// `selected`, for the node at path `q` and a path `p` beneath it.
pub open spec fn selected_below<F: Fn(&Vec<u8>) -> bool>(
    accept: F,
    n: OctreeNode,
    q: Seq<u8>,
    p: Seq<u8>,
) -> bool {
    &&& is_prefix(q, p)
    &&& node_at(n, p.skip(q.len() as int)) is Some
    &&& node_at(n, p.skip(q.len() as int))->0.bodies@.len() > 0
    &&& (node_at(n, p.skip(q.len() as int))->0.is_leaf() || answered(accept, p, true))
    &&& forall|j: int| q.len() <= j < p.len() ==> #[trigger] answered(accept, p.subrange(0, j), false)
}

/// `p` followed by octant `k`.
fn extended(p: &Vec<u8>, k: u8) -> (r: Vec<u8>)
    ensures
        r@ == p@.push(k),
{
    let mut r: Vec<u8> = Vec::new();
    let mut i: usize = 0;
    while i < p.len()
        invariant
            i <= p@.len(),
            r@ == p@.subrange(0, i as int),
        decreases p@.len() - i,
    {
        r.push(p[i]);
        i = i + 1;
        assert(r@ =~= p@.subrange(0, i as int));
    }
    assert(p@.subrange(0, i as int) =~= p@);
    r.push(k);
    r
}

fn copied(p: &Vec<u8>) -> (r: Vec<u8>)
    ensures
        r@ == p@,
{
    let mut r: Vec<u8> = Vec::new();
    let mut i: usize = 0;
    while i < p.len()
        invariant
            i <= p@.len(),
            r@ == p@.subrange(0, i as int),
        decreases p@.len() - i,
    {
        r.push(p[i]);
        i = i + 1;
        assert(r@ =~= p@.subrange(0, i as int));
    }
    assert(p@.subrange(0, i as int) =~= p@);
    r
}

impl OctreeNode {
    /// Appends to `out` the paths of the nodes beneath this one, at `path`,
    /// that act as single point masses: a non-empty leaf, or a non-empty
    /// node that `accept` takes whole; any other node is opened and its
    /// children visited in octant order.
    fn gather<F: Fn(&Vec<u8>) -> bool>(
        &self,
        path: &Vec<u8>,
        accept: &F,
        out: &mut Vec<Vec<u8>>,
        Ghost(rs): Ghost<Seq<Option<Seq<u8>>>>,
        Ghost(depth): Ghost<nat>,
    )
        requires
            self.node_ok(path@, rs, depth),
            routes_ok(rs, depth),
            forall|p: &Vec<u8>| #[trigger] accept.requires((p,)),
        ensures
            final(out)@.len() >= old(out)@.len(),
            forall|i: int| 0 <= i < old(out)@.len() ==> #[trigger] final(out)@[i] == old(out)@[i],
            forall|i: int|
                old(out)@.len() <= i < final(out)@.len() ==> is_prefix(path@, #[trigger] final(out)@[i]@),
            forall|i: int, j: int|
                old(out)@.len() <= i < final(out)@.len() && old(out)@.len() <= j < final(out)@.len()
                    && i != j ==> disjoint(#[trigger] final(out)@[i]@, #[trigger] final(out)@[j]@),
            forall|x: usize|
                #[trigger] holds(rs, path@, x) ==> exists|i: int|
                    old(out)@.len() <= i < final(out)@.len() && #[trigger] holds(rs, final(out)@[i]@, x),
            forall|i: int|
                old(out)@.len() <= i < final(out)@.len() ==> selected_below(
                    *accept,
                    *self,
                    path@,
                    #[trigger] final(out)@[i]@,
                ),
        decreases depth - path@.len(),
    {
        let ghost start = out@.len();
        let ghost q = path@;
        if self.bodies.len() == 0 {
            assert forall|x: usize| #[trigger] holds(rs, path@, x) implies false by {
                assert(self.bodies@.contains(x));
            }
            return;
        }
        let take = if self.children.len() == 0 {
            true
        } else {
            accept(path)
        };
        if take {
            out.push(copied(path));
            assert(path@.skip(q.len() as int) =~= Seq::<u8>::empty());
            assert(out@[start as int]@ == q);
            assert(selected_below(*accept, *self, q, out@[start as int]@));
            assert forall|x: usize| #[trigger] holds(rs, path@, x) implies exists|i: int|
                start <= i < out@.len() && #[trigger] holds(rs, out@[i]@, x) by {
                assert(holds(rs, out@[start as int]@, x));
            }
            assert(is_prefix(q, out@[start as int]@));
            return;
        }
        assert(accept.ensures((path,), false));
        assert(answered(*accept, q, false));
        let mut k: usize = 0;
        while k < OCTANTS
            invariant
                0 <= k <= OCTANTS,
                answered(*accept, q, false),
                forall|i: int| start <= i < out@.len() ==> selected_below(*accept, *self, q, #[trigger] out@[i]@),
                self.node_ok(q, rs, depth),
                !self.is_leaf(),
                q == path@,
                routes_ok(rs, depth),
                forall|p: &Vec<u8>| #[trigger] accept.requires((p,)),
                start == old(out)@.len(),
                out@.len() >= start,
                forall|i: int| 0 <= i < start ==> #[trigger] out@[i] == old(out)@[i],
                forall|i: int|
                    start <= i < out@.len() ==> is_prefix(q, #[trigger] out@[i]@) && out@[i]@.len()
                        > q.len() && (out@[i]@[q.len() as int] as int) < k,
                forall|i: int, j: int|
                    start <= i < out@.len() && start <= j < out@.len() && i != j ==> disjoint(
                        #[trigger] out@[i]@,
                        #[trigger] out@[j]@,
                    ),
                forall|x: usize|
                    #[trigger] holds(rs, q, x) && (rs[x as int]->0[q.len() as int] as int) < k
                        ==> exists|i: int| start <= i < out@.len() && #[trigger] holds(rs, out@[i]@, x),
            decreases OCTANTS - k,
        {
            let ghost mid = out@.len();
            let ghost before = out@;
            let child_path = extended(path, k as u8);
            assert(self.children@[k as int].node_ok(q.push(k as u8), rs, depth));
            self.children[k].gather(&child_path, accept, out, Ghost(rs), Ghost(depth));
            assert forall|i: int| mid <= i < out@.len() implies is_prefix(q, #[trigger] out@[i]@)
                && out@[i]@.len() > q.len() && out@[i]@[q.len() as int] == k as u8 by {
                assert(is_prefix(q.push(k as u8), out@[i]@));
                assert(q.push(k as u8)[q.len() as int] == k as u8);
                lemma_prefix_parent(q, k as u8, out@[i]@);
            }
            assert forall|i: int| start <= i < out@.len() implies selected_below(*accept, *self, q, #[trigger] out@[i]@) by {
                if i < mid {
                    assert(out@[i] == before[i]);
                } else {
                    let p = out@[i]@;
                    let qk = q.push(k as u8);
                    assert(selected_below(*accept, self.children@[k as int], qk, p));
                    assert(p.skip(q.len() as int)[0] == k as u8);
                    assert(p.skip(q.len() as int).drop_first() =~= p.skip(qk.len() as int));
                    assert forall|j: int| q.len() <= j < p.len() implies #[trigger] answered(*accept, p.subrange(0, j), false) by {
                        if j == q.len() {
                            assert(p.subrange(0, j) =~= q);
                        }
                    }
                }
            }
            assert forall|i: int, j: int|
                start <= i < out@.len() && start <= j < out@.len() && i != j implies disjoint(
                    #[trigger] out@[i]@,
                    #[trigger] out@[j]@,
                ) by {
                if i < mid && j < mid {
                    assert(out@[i] == before[i] && out@[j] == before[j]);
                } else if i >= mid && j >= mid {
                } else {
                    let a = out@[i]@;
                    let c = out@[j]@;
                    assert(a[q.len() as int] != c[q.len() as int]);
                }
            }
            assert forall|x: usize|
                #[trigger] holds(rs, q, x) && (rs[x as int]->0[q.len() as int] as int) < k + 1
                    implies exists|i: int| start <= i < out@.len() && #[trigger] holds(rs, out@[i]@, x) by {
                if (rs[x as int]->0[q.len() as int] as int) < k {
                    let i = choose|i: int| start <= i < mid && #[trigger] holds(rs, before[i]@, x);
                    assert(out@[i] == before[i]);
                } else {
                    lemma_prefix_parent(q, k as u8, rs[x as int]->0);
                    assert(holds(rs, q.push(k as u8), x));
                }
            }
            k = k + 1;
        }
        assert forall|x: usize| #[trigger] holds(rs, path@, x) implies exists|i: int|
            start <= i < out@.len() && #[trigger] holds(rs, out@[i]@, x) by {
            assert(route_ok(rs[x as int]->0, depth));
            assert(self.bodies@.contains(x));
        }
    }
}

/// The node reached from `n` by following the octant indices of `p`.
pub open spec fn node_at(n: OctreeNode, p: Seq<u8>) -> Option<OctreeNode>
    decreases p.len(),
{
    if p.len() == 0 {
        Some(n)
    } else if n.is_leaf() || p[0] as usize >= OCTANTS || n.children@.len() != OCTANTS {
        None
    } else {
        node_at(n.children@[p[0] as int], p.drop_first())
    }
}

/// Number of bodies that were left out of the tree.
pub open spec fn count_excluded(rs: Seq<Option<Seq<u8>>>) -> nat
    decreases rs.len(),
{
    if rs.len() == 0 {
        0
    } else {
        count_excluded(rs.drop_last()) + if rs.last() is None {
            1nat
        } else {
            0nat
        }
    }
}

/// Octree over bodies identified by their index: body `i` was inserted with
/// `routes[i]`, the octant index it falls in at each level below the root,
/// or with no route when it lies outside the root's bounds.
pub struct Octree {
    pub root: OctreeNode,
    pub routes: Vec<Option<Vec<u8>>>,
    pub depth: usize,
}

impl Octree {
    /// The routes as mathematical sequences, indexed by body.
    pub open spec fn route_seqs(self) -> Seq<Option<Seq<u8>>> {
        routes_view(self.routes@)
    }

    /// Routes of the right length, and every node holding exactly the
    /// bodies whose route passes through it.
    pub open spec fn wf(self) -> bool {
        &&& routes_ok(self.route_seqs(), self.depth as nat)
        &&& self.root.node_ok(Seq::empty(), self.route_seqs(), self.depth as nat)
    }

    /// An empty tree whose leaves lie at most `depth` levels below the root.
    pub fn new(depth: usize) -> (r: Octree)
        ensures
            r.wf(),
            r.depth == depth,
            r.route_seqs() == Seq::<Option<Seq<u8>>>::empty(),
            r.root.bodies@.len() == 0,
            r.root.is_leaf(),
    {
        let r = Octree { root: OctreeNode::new(), routes: Vec::new(), depth };
        assert(r.route_seqs() =~= Seq::<Option<Seq<u8>>>::empty());
        r
    }

    /// Inserts the next body, with its route or with none when it lies
    /// outside the root's bounds, and returns its index. Bodies inserted
    /// earlier keep their indices and routes.
    pub fn insert(&mut self, route: Option<Vec<u8>>) -> (id: usize)
        requires
            old(self).wf(),
            route is Some ==> route_ok(route->0@, old(self).depth as nat),
        ensures
            final(self).wf(),
            final(self).depth == old(self).depth,
            id == old(self).routes@.len(),
            final(self).route_seqs() == old(self).route_seqs().push(
                match route {
                    Some(r) => Some(r@),
                    None => None,
                },
            ),
    {
        let ghost before0 = self.route_seqs();
        let ghost d = self.depth as nat;
        let b = self.routes.len();
        let is_in = route.is_some();
        self.routes.push(route);
        let ghost after = self.route_seqs();
        let ghost before = before0.push(None);
        assert(after =~= before0.push(
            match route {
                Some(r) => Some(r@),
                None => None,
            },
        ));
        assert forall|x: usize| #[trigger] holds(before0, Seq::empty(), x) == holds(before, Seq::empty(), x)
            by {}
        proof {
            lemma_frame(self.root, Seq::empty(), before0, before, d);
        }
        if is_in {
            assert forall|i: int| 0 <= i < after.len() && (#[trigger] after[i]) is Some implies route_ok(after[i]->0, d) by {
                if i < before0.len() {
                    assert(before0[i] == after[i]);
                }
            }
            self.root.add(b, 0, &self.routes, self.depth, Ghost(Seq::empty()), Ghost(before), Ghost(after));
        } else {
            assert(after =~= before);
        }
        b
    }

    /// Builds the tree of the bodies whose routes are given, in order.
    pub fn build(routes: Vec<Option<Vec<u8>>>, depth: usize) -> (t: Octree)
        requires
            routes_ok(routes_view(routes@), depth as nat),
        ensures
            t.wf(),
            t.depth == depth,
            t.route_seqs() == routes_view(routes@),
    {
        let mut t = Octree::new(depth);
        let mut rest = routes;
        let ghost all = routes_view(rest@);
        let n = rest.len();
        let mut i: usize = 0;
        while i < n
            invariant
                t.wf(),
                t.depth == depth,
                n == all.len(),
                rest@.len() == n - i,
                i <= n,
                t.route_seqs() == all.subrange(0, i as int),
                routes_ok(all, depth as nat),
                routes_view(rest@) == all.subrange(i as int, n as int),
            decreases n - i,
        {
            let ghost rv = routes_view(rest@);
            let ghost old_rest = rest@;
            let r = rest.remove(0);
            assert(rv[0] == all[i as int]);
            assert forall|j: int| 0 <= j < rest@.len() implies #[trigger] routes_view(rest@)[j] == all[i + 1 + j] by {
                assert(rest@[j] == old_rest[j + 1]);
                assert(rv[j + 1] == all[i + j + 1]);
            }
            assert(routes_view(rest@) =~= all.subrange(i + 1, n as int));
            t.insert(r);
            assert(t.route_seqs() =~= all.subrange(0, i + 1));
            i = i + 1;
        }
        assert(all.subrange(0, n as int) =~= all);
        t
    }

    /// Paths of the nodes that act as single point masses for one target,
    /// walking down from the root: a non-empty leaf, or a non-empty node
    /// that `accept` takes whole (its region is far enough from the target),
    /// stands as one point mass; any other node is opened. The nodes found
    /// cover every body that has a route, and no two of them overlap.
    pub fn point_masses<F: Fn(&Vec<u8>) -> bool>(&self, accept: &F) -> (r: Vec<Vec<u8>>)
        requires
            self.wf(),
            forall|p: &Vec<u8>| #[trigger] accept.requires((p,)),
        ensures
            forall|i: int, j: int|
                0 <= i < r@.len() && 0 <= j < r@.len() && i != j ==> disjoint(
                    #[trigger] r@[i]@,
                    #[trigger] r@[j]@,
                ),
            forall|x: usize|
                (x as int) < self.route_seqs().len() && self.route_seqs()[x as int] is Some
                    ==> exists|i: int| 0 <= i < r@.len() && #[trigger] holds(self.route_seqs(), r@[i]@, x),
            forall|i: int| 0 <= i < r@.len() ==> selected(*accept, self.root, #[trigger] r@[i]@),
    {
        let mut out: Vec<Vec<u8>> = Vec::new();
        let root_path: Vec<u8> = Vec::new();
        assert(root_path@ =~= Seq::<u8>::empty());
        self.root.gather(&root_path, accept, &mut out, Ghost(self.route_seqs()), Ghost(self.depth as nat));
        assert forall|x: usize|
            (x as int) < self.route_seqs().len() && self.route_seqs()[x as int] is Some
                implies exists|i: int| 0 <= i < out@.len() && #[trigger] holds(self.route_seqs(), out@[i]@, x) by {
            assert(holds(self.route_seqs(), root_path@, x));
        }
        assert forall|i: int| 0 <= i < out@.len() implies selected(*accept, self.root, #[trigger] out@[i]@) by {
            assert(selected_below(*accept, self.root, root_path@, out@[i]@));
            assert(out@[i]@.skip(0) =~= out@[i]@);
        }
        out
    }

    /// Number of bodies inserted without a route, which no node holds.
    pub fn excluded(&self) -> (c: usize)
        ensures
            c == count_excluded(self.route_seqs()),
    {
        let mut c: usize = 0;
        let mut i: usize = 0;
        while i < self.routes.len()
            invariant
                i <= self.routes@.len(),
                c <= i,
                c == count_excluded(self.route_seqs().subrange(0, i as int)),
            decreases self.routes@.len() - i,
        {
            let ghost rs = self.route_seqs();
            assert(rs.subrange(0, i + 1).drop_last() =~= rs.subrange(0, i as int));
            if self.routes[i].is_none() {
                c = c + 1;
            }
            i = i + 1;
        }
        assert(self.route_seqs().subrange(0, i as int) =~= self.route_seqs());
        c
    }
}

/// Whatever nodes the walk accepts whole, each body with a route is counted
/// in exactly one point mass: pairwise non-overlapping paths never both lie
/// on one body's route.
pub proof fn lemma_counted_once(rs: Seq<Option<Seq<u8>>>, paths: Seq<Seq<u8>>, x: usize, i: int, j: int)
    requires
        forall|a: int, b: int|
            0 <= a < paths.len() && 0 <= b < paths.len() && a != b ==> disjoint(
                #[trigger] paths[a],
                #[trigger] paths[b],
            ),
        0 <= i < paths.len(),
        0 <= j < paths.len(),
        holds(rs, paths[i], x),
        holds(rs, paths[j], x),
    ensures
        i == j,
{
    if i != j {
        if paths[i].len() <= paths[j].len() {
            assert(is_prefix(paths[i], paths[j]));
        } else {
            assert(is_prefix(paths[j], paths[i]));
        }
        assert(disjoint(paths[i], paths[j]));
    }
}

/// When `accept` takes no node whole (an opening threshold of zero), each
/// point mass of the walk is a leaf; above the last level such a leaf holds
/// exactly one body, so the walk degenerates to the exact pairwise sum.
pub proof fn lemma_all_opened_is_exact<F: Fn(&Vec<u8>) -> bool>(t: Octree, accept: F, p: Seq<u8>)
    requires
        t.wf(),
        forall|v: &Vec<u8>, r: bool| #[trigger] accept.ensures((v,), r) ==> !r,
        selected(accept, t.root, p),
    ensures
        node_at(t.root, p)->0.is_leaf(),
        p.len() < t.depth ==> node_at(t.root, p)->0.bodies@.len() == 1,
{
    if answered(accept, p, true) {
        let v = choose|v: &Vec<u8>| v@ == p && #[trigger] accept.ensures((v,), true);
        assert(accept.ensures((v,), true));
    }
    lemma_node_at_ok(t.root, Seq::empty(), p, t.route_seqs(), t.depth as nat);
    assert(Seq::<u8>::empty() + p =~= p);
}

proof fn lemma_node_at_ok(
    n: OctreeNode,
    q: Seq<u8>,
    p: Seq<u8>,
    rs: Seq<Option<Seq<u8>>>,
    depth: nat,
)
    requires
        n.node_ok(q, rs, depth),
        node_at(n, p) is Some,
    ensures
        node_at(n, p)->0.node_ok(q + p, rs, depth),
    decreases p.len(),
{
    if p.len() == 0 {
        assert(q + p =~= q);
    } else {
        let k = p[0];
        assert((k as int) < OCTANTS);
        assert(n.children@[k as int].node_ok(q.push(k), rs, depth));
        lemma_node_at_ok(n.children@[k as int], q.push(k), p.drop_first(), rs, depth);
        assert(q.push(k) + p.drop_first() =~= q + p);
    }
}

/// Every node of a well-formed tree, reached by following the octant path
/// `p` from the root, holds exactly once each body whose route starts with
/// `p`, and no other: its aggregate covers just the bodies inside its region.
pub proof fn lemma_node_members(t: Octree, p: Seq<u8>)
    requires
        t.wf(),
        node_at(t.root, p) is Some,
    ensures
        node_at(t.root, p)->0.bodies@.no_duplicates(),
        forall|b: usize|
            #[trigger] node_at(t.root, p)->0.bodies@.contains(b) <==> holds(t.route_seqs(), p, b),
{
    lemma_node_at_ok(t.root, Seq::empty(), p, t.route_seqs(), t.depth as nat);
    assert(Seq::<u8>::empty() + p =~= p);
}

} // verus!
