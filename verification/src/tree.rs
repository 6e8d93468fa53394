//! The flame trie seen as a map from call paths to nodes, and the two updates
//! that allocation tracking makes to it: counting an allocation along a path
//! and uncounting a freed one.
use vstd::prelude::*;
use std::collections::HashMap;
use vstd::std_specs::iter::IteratorSpec;
use crate::types::{FlameNode, FrameId};

verus! {

/// The node reached from `t` by following `path`, one child frame per step.
pub open spec fn node_at(t: FlameNode, path: Seq<FrameId>) -> Option<FlameNode>
    decreases path.len(),
{
    if path.len() == 0 {
        Some(t)
    } else if t.children@.contains_key(path[0]) {
        node_at(t.children@[path[0]], path.drop_first())
    } else {
        None
    }
}

/// `after` is `before` (or, where there was no node, a fresh node for `frame`)
/// with one more allocation of `size` bytes counted.
pub open spec fn counted_alloc(before: Option<FlameNode>, after: FlameNode, size: nat, frame: FrameId) -> bool {
    match before {
        Some(b) => {
            &&& after.frame == b.frame
            &&& after.live_bytes == b.live_bytes + size
            &&& after.total_bytes == b.total_bytes + size
            &&& after.peak_live_bytes == (if b.live_bytes + size > b.peak_live_bytes {
                b.live_bytes + size
            } else {
                b.peak_live_bytes as int
            })
            &&& after.live_count == b.live_count + 1
            &&& after.total_count == b.total_count + 1
        },
        None => {
            &&& after.frame == frame
            &&& after.live_bytes == size
            &&& after.total_bytes == size
            &&& after.peak_live_bytes == size
            &&& after.live_count == 1
            &&& after.total_count == 1
        },
    }
}

/// The frame a node on `path` at depth `k` carries when it has to be created.
pub open spec fn frame_at_depth(path: Seq<FrameId>, k: int) -> FrameId {
    if k == 0 {
        0
    } else {
        path[k - 1]
    }
}

/// Counting an allocation of `size` bytes along `path` turns `old` into `new`:
/// every node on the path (created where missing) counts it, and every subtree
/// off the path is left as it was.
pub open spec fn alloc_step(old: FlameNode, new: FlameNode, path: Seq<FrameId>, size: nat) -> bool {
    &&& forall|k: int|
        0 <= k <= path.len() ==> (#[trigger] node_at(new, path.take(k)) matches Some(n)
            && counted_alloc(node_at(old, path.take(k)), n, size, frame_at_depth(path, k)))
    &&& forall|p: Seq<FrameId>| !p.is_prefix_of(path) ==> #[trigger] node_at(new, p) == node_at(old, p)
}

/// `after` is `before` with one allocation of `size` bytes no longer live.
pub open spec fn uncounted_free(before: FlameNode, after: FlameNode, size: nat) -> bool {
    &&& after.frame == before.frame
    &&& after.live_bytes == before.live_bytes - size
    &&& after.total_bytes == before.total_bytes
    &&& after.peak_live_bytes == before.peak_live_bytes
    &&& after.live_count == before.live_count - 1
    &&& after.total_count == before.total_count
}

/// Uncounting a freed allocation of `size` bytes along `path` turns `old` into
/// `new`: every node of the path that exists stops counting it (the walk ends
/// at the first missing node), and every subtree off the path is unchanged.
pub open spec fn free_step(old: FlameNode, new: FlameNode, path: Seq<FrameId>, size: nat) -> bool {
    &&& forall|k: int|
        0 <= k <= path.len() ==> match node_at(old, path.take(k)) {
            Some(b) => #[trigger] node_at(new, path.take(k)) matches Some(a) && uncounted_free(b, a, size),
            None => node_at(new, path.take(k)) is None,
        }
    &&& forall|p: Seq<FrameId>| !p.is_prefix_of(path) ==> #[trigger] node_at(new, p) == node_at(old, p)
}

/// Counting `size` more bytes and one more allocation on every node of `path`
/// stays within `u64`.
pub open spec fn alloc_fits(t: FlameNode, path: Seq<FrameId>, size: nat) -> bool {
    forall|k: int|
        0 <= k <= path.len() ==> (#[trigger] node_at(t, path.take(k)) matches Some(n) ==> {
            &&& n.total_bytes + size <= u64::MAX
            &&& n.total_count + 1 <= u64::MAX
            &&& n.live_bytes <= n.total_bytes
            &&& n.live_count <= n.total_count
        })
}

/// Every existing node of `path` still counts at least `size` live bytes and
/// one live allocation.
pub open spec fn free_fits(t: FlameNode, path: Seq<FrameId>, size: nat) -> bool {
    forall|k: int|
        0 <= k <= path.len() ==> (#[trigger] node_at(t, path.take(k)) matches Some(n) ==> n.live_bytes
            >= size && n.live_count >= 1)
}

/// A path below the first step, seen from the child it enters.
pub proof fn lemma_node_at_step(t: FlameNode, p: Seq<FrameId>)
    requires
        p.len() > 0,
    ensures
        node_at(t, p) == (if t.children@.contains_key(p[0]) {
            node_at(t.children@[p[0]], p.drop_first())
        } else {
            None
        }),
{
}

/// A node with no children has nothing below it.
pub proof fn lemma_node_at_leaf(t: FlameNode, p: Seq<FrameId>)
    requires
        t.children@ == Map::<FrameId, FlameNode>::empty(),
        p.len() > 0,
    ensures
        node_at(t, p) is None,
{
}

impl FlameNode {
    /// A node for `frame` with every figure zero and no children.
    pub fn leaf(frame: FrameId) -> (n: FlameNode)
        ensures
            n.frame == frame,
            n.live_bytes == 0,
            n.total_bytes == 0,
            n.peak_live_bytes == 0,
            n.live_count == 0,
            n.total_count == 0,
            n.children@ == Map::<FrameId, FlameNode>::empty(),
    {
        FlameNode {
            frame,
            live_bytes: 0,
            total_bytes: 0,
            peak_live_bytes: 0,
            live_count: 0,
            total_count: 0,
            children: HashMap::new(),
        }
    }
}

/// Counts an allocation of `size` bytes on `node` and on every node below it
/// along `path[k..]`, creating missing nodes.
pub fn add_along(node: &mut FlameNode, path: &Vec<FrameId>, k: usize, size: u64)
    requires
        k <= path@.len(),
        alloc_fits(*old(node), path@.skip(k as int), size as nat),
    ensures
        alloc_step(*old(node), *final(node), path@.skip(k as int), size as nat),
    decreases path@.len() - k,
{
    let ghost r = path@.skip(k as int);
    let ghost before = *node;
    proof {
        assert(r.take(0) =~= Seq::<FrameId>::empty());
        assert(node_at(before, r.take(0)) == Some(before));
    }
    node.live_bytes = node.live_bytes + size;
    node.total_bytes = node.total_bytes + size;
    if node.live_bytes > node.peak_live_bytes {
        node.peak_live_bytes = node.live_bytes;
    }
    node.live_count = node.live_count + 1;
    node.total_count = node.total_count + 1;
    if k < path.len() {
        let id = path[k];
        let ghost r1 = path@.skip(k + 1);
        assert(r1 =~= r.drop_first());
        let removed = node.children.remove(&id);
        let mut child = match removed {
            Some(c) => c,
            None => FlameNode::leaf(id),
        };
        let ghost old_child = child;
        proof {
            assert forall|j: int| 0 <= j <= r1.len() implies (#[trigger] node_at(old_child, r1.take(j)) matches Some(n) ==> {
                &&& n.total_bytes + size <= u64::MAX
                &&& n.total_count + 1 <= u64::MAX
                &&& n.live_bytes <= n.total_bytes
                &&& n.live_count <= n.total_count
            }) by {
                assert(r.take(j + 1).drop_first() =~= r1.take(j));
                assert(r.take(j + 1)[0] == id);
                if before.children@.contains_key(id) {
                    lemma_node_at_step(before, r.take(j + 1));
                    assert(node_at(before, r.take(j + 1)) == node_at(old_child, r1.take(j)));
                } else if j > 0 {
                    lemma_node_at_leaf(old_child, r1.take(j));
                }
            }
        }
        add_along(&mut child, path, k + 1, size);
        let ghost new_child = child;
        node.children.insert(id, child);
        proof {
            let after = *node;
            assert(after.children@ == before.children@.insert(id, new_child));
            assert forall|j: int| 0 <= j <= r.len() implies (#[trigger] node_at(after, r.take(j)) matches Some(n)
                && counted_alloc(node_at(before, r.take(j)), n, size as nat, frame_at_depth(r, j))) by {
                if j == 0 {
                    assert(r.take(0) =~= Seq::<FrameId>::empty());
                } else {
                    let p = r.take(j);
                    assert(p[0] == id);
                    assert(p.drop_first() =~= r1.take(j - 1));
                    lemma_node_at_step(after, p);
                    lemma_node_at_step(before, p);
                    assert(node_at(after, p) == node_at(new_child, r1.take(j - 1)));
                    if before.children@.contains_key(id) {
                        assert(node_at(before, p) == node_at(old_child, r1.take(j - 1)));
                    } else if j > 1 {
                        lemma_node_at_leaf(old_child, r1.take(j - 1));
                    } else {
                        assert(r1.take(0) =~= Seq::<FrameId>::empty());
                    }
                    if j == 1 {
                        assert(r1.take(0) =~= Seq::<FrameId>::empty());
                    }
                    assert(frame_at_depth(r1, j - 1) == frame_at_depth(r, j) || j == 1);
                }
            }
            assert forall|p: Seq<FrameId>| !p.is_prefix_of(r) implies #[trigger] node_at(after, p)
                == node_at(before, p) by {
                if p.len() == 0 {
                    assert(p.is_prefix_of(r));
                } else {
                    lemma_node_at_step(after, p);
                    lemma_node_at_step(before, p);
                    if p[0] == id {
                        let q = p.drop_first();
                        if q.is_prefix_of(r1) {
                            assert(p =~= seq![id] + q);
                            assert(r =~= seq![id] + r1);
                            assert(p =~= r.subrange(0, p.len() as int));
                        }
                        assert(node_at(after, p) == node_at(new_child, q));
                        assert(node_at(new_child, q) == node_at(old_child, q));
                        if !before.children@.contains_key(id) {
                            if q.len() == 0 {
                                assert(p =~= r.subrange(0, 1));
                            }
                            lemma_node_at_leaf(old_child, q);
                        }
                    }
                }
            }
        }
    } else {
        proof {
            let after = *node;
            assert(r =~= Seq::<FrameId>::empty());
            assert forall|j: int| 0 <= j <= r.len() implies (#[trigger] node_at(after, r.take(j)) matches Some(n)
                && counted_alloc(node_at(before, r.take(j)), n, size as nat, frame_at_depth(r, j))) by {
                assert(r.take(j) =~= Seq::<FrameId>::empty());
            }
            assert forall|p: Seq<FrameId>| !p.is_prefix_of(r) implies #[trigger] node_at(after, p)
                == node_at(before, p) by {
                if p.len() == 0 {
                    assert(p.is_prefix_of(r));
                } else {
                    lemma_node_at_step(after, p);
                    lemma_node_at_step(before, p);
                }
            }
        }
    }
}

/// Uncounts a freed allocation of `size` bytes on `node` and on every node
/// below it along `path[k..]`, stopping at the first missing node.
pub fn sub_along(node: &mut FlameNode, path: &Vec<FrameId>, k: usize, size: u64)
    requires
        k <= path@.len(),
        free_fits(*old(node), path@.skip(k as int), size as nat),
    ensures
        free_step(*old(node), *final(node), path@.skip(k as int), size as nat),
    decreases path@.len() - k,
{
    let ghost r = path@.skip(k as int);
    let ghost before = *node;
    proof {
        assert(r.take(0) =~= Seq::<FrameId>::empty());
        assert(node_at(before, r.take(0)) == Some(before));
    }
    node.live_bytes = node.live_bytes - size;
    node.live_count = node.live_count - 1;
    if k < path.len() {
        let id = path[k];
        let ghost r1 = path@.skip(k + 1);
        assert(r1 =~= r.drop_first());
        let removed = node.children.remove(&id);
        match removed {
            Some(mut child) => {
                let ghost old_child = child;
                proof {
                    assert forall|j: int| 0 <= j <= r1.len() implies (#[trigger] node_at(old_child, r1.take(j)) matches Some(n)
                        ==> n.live_bytes >= size && n.live_count >= 1) by {
                        assert(r.take(j + 1).drop_first() =~= r1.take(j));
                        assert(r.take(j + 1)[0] == id);
                        lemma_node_at_step(before, r.take(j + 1));
                    }
                }
                sub_along(&mut child, path, k + 1, size);
                let ghost new_child = child;
                node.children.insert(id, child);
                proof {
                    let after = *node;
                    assert(after.children@ == before.children@.insert(id, new_child));
                    assert forall|j: int| 0 <= j <= r.len() implies match node_at(before, r.take(j)) {
                        Some(b) => #[trigger] node_at(after, r.take(j)) matches Some(a) && uncounted_free(b, a, size as nat),
                        None => node_at(after, r.take(j)) is None,
                    } by {
                        if j == 0 {
                            assert(r.take(0) =~= Seq::<FrameId>::empty());
                        } else {
                            let p = r.take(j);
                            assert(p[0] == id);
                            assert(p.drop_first() =~= r1.take(j - 1));
                            lemma_node_at_step(after, p);
                            lemma_node_at_step(before, p);
                        }
                    }
                    assert forall|p: Seq<FrameId>| !p.is_prefix_of(r) implies #[trigger] node_at(after, p)
                        == node_at(before, p) by {
                        if p.len() == 0 {
                            assert(p.is_prefix_of(r));
                        } else {
                            lemma_node_at_step(after, p);
                            lemma_node_at_step(before, p);
                            if p[0] == id {
                                let q = p.drop_first();
                                if q.is_prefix_of(r1) {
                                    assert(p =~= seq![id] + q);
                                    assert(r =~= seq![id] + r1);
                                    assert(p =~= r.subrange(0, p.len() as int));
                                }
                            }
                        }
                    }
                }
            },
            None => {
                proof {
                    let after = *node;
                    assert(after.children@ =~= before.children@);
                    assert forall|j: int| 0 <= j <= r.len() implies match node_at(before, r.take(j)) {
                        Some(b) => #[trigger] node_at(after, r.take(j)) matches Some(a) && uncounted_free(b, a, size as nat),
                        None => node_at(after, r.take(j)) is None,
                    } by {
                        if j == 0 {
                            assert(r.take(0) =~= Seq::<FrameId>::empty());
                        } else {
                            let p = r.take(j);
                            assert(p[0] == id);
                            lemma_node_at_step(after, p);
                            lemma_node_at_step(before, p);
                        }
                    }
                    assert forall|p: Seq<FrameId>| !p.is_prefix_of(r) implies #[trigger] node_at(after, p)
                        == node_at(before, p) by {
                        if p.len() == 0 {
                            assert(p.is_prefix_of(r));
                        } else {
                            lemma_node_at_step(after, p);
                            lemma_node_at_step(before, p);
                        }
                    }
                }
            },
        }
    } else {
        proof {
            let after = *node;
            assert(r =~= Seq::<FrameId>::empty());
            assert forall|j: int| 0 <= j <= r.len() implies match node_at(before, r.take(j)) {
                Some(b) => #[trigger] node_at(after, r.take(j)) matches Some(a) && uncounted_free(b, a, size as nat),
                None => node_at(after, r.take(j)) is None,
            } by {
                assert(r.take(j) =~= Seq::<FrameId>::empty());
            }
            assert forall|p: Seq<FrameId>| !p.is_prefix_of(r) implies #[trigger] node_at(after, p)
                == node_at(before, p) by {
                if p.len() == 0 {
                    assert(p.is_prefix_of(r));
                } else {
                    lemma_node_at_step(after, p);
                    lemma_node_at_step(before, p);
                }
            }
        }
    }
}

/// Two nodes carry the same frame and the same figures.
pub open spec fn same_figures(a: FlameNode, b: FlameNode) -> bool {
    &&& a.frame == b.frame
    &&& a.live_bytes == b.live_bytes
    &&& a.total_bytes == b.total_bytes
    &&& a.peak_live_bytes == b.peak_live_bytes
    &&& a.live_count == b.live_count
    &&& a.total_count == b.total_count
}

/// Two tries have the same paths, with the same frame and figures at each.
pub open spec fn same_tree(a: FlameNode, b: FlameNode) -> bool {
    forall|p: Seq<FrameId>|
        #![trigger node_at(a, p)]
        #![trigger node_at(b, p)]
        (node_at(a, p) is Some <==> node_at(b, p) is Some) && (node_at(a, p) is Some
            ==> same_figures(node_at(a, p).unwrap(), node_at(b, p).unwrap()))
}

/// The order in which the child map hands out its keys.
pub open spec fn key_order(m: &HashMap<FrameId, FlameNode>) -> Seq<FrameId> {
    vstd::std_specs::hash::into_iter_keys(m.keys())
}

/// The keys of a child map, in the map's own iteration order.
pub fn child_keys(m: &HashMap<FrameId, FlameNode>) -> (ks: Vec<FrameId>)
    ensures
        ks@ == key_order(m),
        ks@.to_set() == m@.dom(),
        ks@.no_duplicates(),
{
    let mut ks: Vec<FrameId> = Vec::new();
    for k in it: m.keys()
        invariant
            ks@ == it.seq().take(it.index()).unref(),
    {
        ks.push(*k);
    }
    assert(ks@ =~= m.keys().remaining().unref());
    ks
}

impl FlameNode {
    /// A copy of the trie, node for node.
    pub fn duplicate(&self) -> (r: FlameNode)
        ensures
            same_tree(r, *self),
            same_figures(r, *self),
        decreases self,
    {
        let keys = child_keys(&self.children);
        let mut children: HashMap<FrameId, FlameNode> = HashMap::new();
        let mut i: usize = 0;
        while i < keys.len()
            invariant
                i <= keys@.len(),
                keys@.to_set() == self.children@.dom(),
                keys@.no_duplicates(),
                forall|x: FrameId| #[trigger]
                    children@.contains_key(x) <==> keys@.take(i as int).contains(x),
                forall|k: FrameId| #[trigger]
                    children@.contains_key(k) ==> same_tree(children@[k], self.children@[k]),
            decreases keys@.len() - i,
        {
            let k = keys[i];
            assert(keys@.to_set().contains(keys@[i as int]));
            let c = self.children.get(&k).unwrap();
            assert(decreases_to!(self => self.children@[k]));
            let d = c.duplicate();
            children.insert(k, d);
            i = i + 1;
            assert forall|x: FrameId| #[trigger]
                children@.contains_key(x) <==> keys@.take(i as int).contains(x) by {
                let t0 = keys@.take(i - 1);
                let t1 = keys@.take(i as int);
                assert(t1 =~= t0.push(k));
                if t0.contains(x) {
                    let j = choose|j: int| 0 <= j < t0.len() && #[trigger] t0[j] == x;
                    assert(t1[j] == x);
                }
                if t1.contains(x) && x != k {
                    let j = choose|j: int| 0 <= j < t1.len() && #[trigger] t1[j] == x;
                    assert(t0[j] == x);
                }
                if x == k {
                    assert(t1[i - 1] == x);
                }
            }
        }
        assert(keys@.take(keys@.len() as int) =~= keys@);
        assert(children@.dom() =~= self.children@.dom()) by {
            assert forall|x: FrameId| children@.contains_key(x) <==> self.children@.contains_key(x) by {
                assert(keys@.to_set().contains(x) <==> keys@.contains(x));
            }
        }
        let r = FlameNode {
            frame: self.frame,
            live_bytes: self.live_bytes,
            total_bytes: self.total_bytes,
            peak_live_bytes: self.peak_live_bytes,
            live_count: self.live_count,
            total_count: self.total_count,
            children,
        };
        proof {
            assert forall|p: Seq<FrameId>|
                #![trigger node_at(r, p)]
                #![trigger node_at(*self, p)]
                (node_at(r, p) is Some <==> node_at(*self, p) is Some) && (node_at(r, p) is Some
                    ==> same_figures(node_at(r, p).unwrap(), node_at(*self, p).unwrap())) by {
                if p.len() > 0 {
                    lemma_node_at_step(r, p);
                    lemma_node_at_step(*self, p);
                    if r.children@.contains_key(p[0]) {
                        let q = p.drop_first();
                        assert(same_tree(r.children@[p[0]], self.children@[p[0]]));
                        assert(node_at(r.children@[p[0]], q) is Some <==> node_at(self.children@[p[0]], q) is Some);
                    }
                }
            }
        }
        r
    }
}

} // verus!
