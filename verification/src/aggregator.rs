//! Aggregation of allocation events into the flame trie.
use vstd::prelude::*;
use std::collections::HashMap;
use crate::interner::FrameInterner;
use crate::ledger::{
    Contribution,
    last_index,
    lemma_last_index,
    lemma_last_index_push,
    lemma_last_index_update,
    lemma_sum_ge,
    lemma_sum_push,
    lemma_sum_update,
    lemma_sum_zero,
    sum_through,
    uncounted,
    weight,
};
use crate::text::{contains_text, hex_digits, occurs_at, push_char, push_hex, str_contains};
use crate::tree::{
    add_along,
    alloc_fits,
    alloc_step,
    counted_alloc,
    free_fits,
    free_step,
    node_at,
    same_figures,
    same_tree,
    sub_along,
    uncounted_free,
};
use crate::types::{AllocationEvent, FlameNode, FrameId, FrameKey, SymbolInfo};
use crate::flame_chart::snapshot::{FlameSnapshot, SymbolSnapshot};
use vstd::set::fold::{is_fun_commutative, lemma_fold_empty, lemma_fold_insert};
use std::sync::Arc;

verus! {

/// An allocation that has not been freed yet.
pub struct LiveAllocation {
    pub address: usize,
    pub size: usize,
    /// The interned call stack, innermost frame first, allocator frames stripped.
    pub stack: Vec<FrameId>,
    pub thread_id: u32,
    pub sequence: u64,
}

/// When the aggregator publishes snapshots while it runs.
pub enum SnapshotPolicy {
    Every(std::time::Duration),
}

/// Folds allocation events into a flame trie of live and total figures.
pub struct Aggregator {
    pub root: FlameNode,
    pub symbol_table: HashMap<FrameId, SymbolInfo>,
    pub interner: FrameInterner,
    pub next_frame_id: FrameId,
    pub live_allocations: HashMap<usize, LiveAllocation>,
    pub ledger: Ghost<Seq<Contribution>>,
}

/// A module name that belongs to a known allocator.
pub open spec fn is_allocator_module(m: Seq<char>) -> bool {
    ||| contains_text(m, "ntdll"@)
    ||| contains_text(m, "ucrtbase"@)
    ||| contains_text(m, "msvcrt"@)
    ||| contains_text(m, "libc"@)
}

/// A symbol name that belongs to a known allocation routine.
pub open spec fn is_allocator_symbol(n: Seq<char>) -> bool {
    ||| contains_text(n, "malloc"@)
    ||| contains_text(n, "free"@)
    ||| contains_text(n, "realloc"@)
    ||| contains_text(n, "calloc"@)
    ||| contains_text(n, "RtlAllocateHeap"@)
    ||| contains_text(n, "RtlFreeHeap"@)
    ||| contains_text(n, "HeapAlloc"@)
    ||| contains_text(n, "HeapFree"@)
}

/// The frame `id` is known and lies in allocator code, so it is stripped
/// from the top of recorded stacks.
pub open spec fn strips(table: Map<FrameId, SymbolInfo>, id: FrameId) -> bool {
    table.contains_key(id) && (is_allocator_module(table[id].module@) || is_allocator_symbol(
        table[id].name@,
    ))
}

/// The first index at or after `j` whose frame is kept, or 0 when every
/// frame from `j` on is stripped.
pub open spec fn first_kept_from(table: Map<FrameId, SymbolInfo>, ids: Seq<FrameId>, j: int) -> int
    decreases ids.len() - j,
{
    if j < 0 || j >= ids.len() {
        0
    } else if !strips(table, ids[j]) {
        j
    } else {
        first_kept_from(table, ids, j + 1)
    }
}

/// Where a recorded stack starts once its leading allocator frames are
/// dropped: the first kept frame, or the whole stack when every frame strips.
pub open spec fn strip_start(table: Map<FrameId, SymbolInfo>, ids: Seq<FrameId>) -> int {
    first_kept_from(table, ids, 0)
}

/// The symbol recorded for a frame that has just been interned: its
/// instruction pointer in hex as name, "unknown" as module.
pub open spec fn is_placeholder(s: SymbolInfo, key: FrameKey) -> bool {
    &&& s.name@ == seq!['0', 'x'] + hex_digits(key.instruction_pointer as nat)
    &&& s.module@ == "unknown"@
    &&& s.address == key.instruction_pointer
}

/// Interning `keys` in order, starting from the map `m` and the next free id
/// `next`: the resulting map, the next free id, and the id of each key.
pub open spec fn intern_keys(m: Map<FrameKey, FrameId>, next: nat, keys: Seq<FrameKey>) -> (Map<
    FrameKey,
    FrameId,
>, nat, Seq<FrameId>)
    decreases keys.len(),
{
    if keys.len() == 0 {
        (m, next, Seq::empty())
    } else {
        let (m1, n1, ids) = intern_keys(m, next, keys.drop_last());
        let k = keys.last();
        if m1.contains_key(k) {
            (m1, n1, ids.push(m1[k]))
        } else {
            (m1.insert(k, n1 as FrameId), n1 + 1, ids.push(n1 as FrameId))
        }
    }
}

/// `new_table` is `old_table` with a placeholder symbol for each key that
/// interning added, under its fresh id in `[old_next, new_next)`.
pub open spec fn symbols_added(
    old_table: Map<FrameId, SymbolInfo>,
    new_table: Map<FrameId, SymbolInfo>,
    old_m: Map<FrameKey, FrameId>,
    new_m: Map<FrameKey, FrameId>,
    old_next: nat,
    new_next: nat,
) -> bool {
    &&& forall|id: FrameId| #[trigger]
        new_table.contains_key(id) <==> (old_table.contains_key(id) || (old_next <= id
            < new_next))
    &&& forall|id: FrameId| #[trigger]
        old_table.contains_key(id) ==> new_table[id] == old_table[id]
    &&& forall|k: FrameKey|
        new_m.contains_key(k) && !old_m.contains_key(k) ==> is_placeholder(
            new_table[#[trigger] new_m[k]],
            k,
        )
}

/// The live figures of every node are the sums of the contributions still
/// counted through it, and each node's figures are ordered
/// live <= peak <= total <= the root's total.
pub open spec fn node_figures_ok(root: FlameNode, l: Seq<Contribution>) -> bool {
    forall|q: Seq<FrameId>| #[trigger]
        node_at(root, q) is Some ==> figures_ok_at(root, l, q, node_at(root, q).unwrap())
}

/// The figures of the node `n` at `q` agree with the contributions in `l`
/// and are ordered live <= peak <= total <= the root's total.
pub open spec fn figures_ok_at(root: FlameNode, l: Seq<Contribution>, q: Seq<FrameId>, n: FlameNode) -> bool {
    &&& n.live_bytes == sum_through(l, q, true)
    &&& n.live_count == sum_through(l, q, false)
    &&& n.live_bytes <= n.peak_live_bytes <= n.total_bytes <= root.total_bytes
    &&& n.live_count <= n.total_count <= root.total_count
}

/// Every node on the path of a counted contribution exists.
pub open spec fn paths_present(root: FlameNode, l: Seq<Contribution>) -> bool {
    forall|i: int, j: int|
        0 <= i < l.len() && l[i].3 && 0 <= j <= l[i].2.len() ==> #[trigger] node_at(
            root,
            l[i].2.take(j),
        ) is Some
}

/// Each live allocation is the last contribution made for its address, and
/// that contribution is still counted along its reversed stack.
pub open spec fn live_tracked(live: Map<usize, LiveAllocation>, l: Seq<Contribution>) -> bool {
    forall|a: usize| #[trigger]
        live.contains_key(a) ==> {
            let i = last_index(l, a);
            &&& i >= 0
            &&& l[i].3
            &&& l[i].1 == live[a].size
            &&& l[i].2 == live[a].stack@.reverse()
            &&& live[a].address == a
        }
}

proof fn lemma_alloc_keeps_tree(
    old_root: FlameNode,
    new_root: FlameNode,
    l: Seq<Contribution>,
    c: Contribution,
)
    requires
        node_figures_ok(old_root, l),
        paths_present(old_root, l),
        c.3,
        alloc_step(old_root, new_root, c.2, c.1 as nat),
    ensures
        node_figures_ok(new_root, l.push(c)),
        paths_present(new_root, l.push(c)),
        new_root.total_bytes == old_root.total_bytes + c.1,
        new_root.total_count == old_root.total_count + 1,
{
    let path = c.2;
    let size = c.1 as nat;
    let l2 = l.push(c);
    assert(path.take(0) =~= Seq::<FrameId>::empty());
    assert(node_at(new_root, path.take(0)) == Some(new_root));
    assert(node_at(old_root, path.take(0)) == Some(old_root));
    assert forall|q: Seq<FrameId>| #[trigger] node_at(new_root, q) is Some implies figures_ok_at(new_root, l2, q, node_at(new_root, q).unwrap()) by {
        lemma_sum_push(l, c, q, true);
        lemma_sum_push(l, c, q, false);
        if q.is_prefix_of(path) {
            let k = q.len() as int;
            assert(q =~= path.take(k));
            assert(node_at(new_root, path.take(k)) matches Some(m) && counted_alloc(
                node_at(old_root, path.take(k)),
                m,
                size,
                crate::tree::frame_at_depth(path, k),
            ));
            if node_at(old_root, q) is None {
                assert forall|i: int| 0 <= i < l.len() implies !(#[trigger] l[i].3
                    && q.is_prefix_of(l[i].2)) by {
                    if l[i].3 && q.is_prefix_of(l[i].2) {
                        assert(l[i].2.take(k) =~= q);
                        assert(node_at(old_root, l[i].2.take(k)) is Some);
                    }
                }
                lemma_sum_zero(l, q, true);
                lemma_sum_zero(l, q, false);
            }
        } else {
            assert(node_at(new_root, q) == node_at(old_root, q));
        }
    }
    assert forall|i: int, j: int|
        0 <= i < l2.len() && l2[i].3 && 0 <= j <= l2[i].2.len() implies #[trigger] node_at(
        new_root,
        l2[i].2.take(j),
    ) is Some by {
        let p = l2[i].2.take(j);
        if p.is_prefix_of(path) {
            let k = p.len() as int;
            assert(p =~= path.take(k));
        } else {
            assert(l2[i] == l[i]);
            assert(node_at(new_root, p) == node_at(old_root, p));
        }
    }
}

proof fn lemma_free_keeps_tree(
    old_root: FlameNode,
    new_root: FlameNode,
    l: Seq<Contribution>,
    i: int,
)
    requires
        node_figures_ok(old_root, l),
        paths_present(old_root, l),
        0 <= i < l.len(),
        l[i].3,
        free_step(old_root, new_root, l[i].2, l[i].1 as nat),
    ensures
        node_figures_ok(new_root, l.update(i, uncounted(l[i]))),
        paths_present(new_root, l.update(i, uncounted(l[i]))),
        new_root.total_bytes == old_root.total_bytes,
        new_root.total_count == old_root.total_count,
{
    let path = l[i].2;
    let size = l[i].1 as nat;
    let l2 = l.update(i, uncounted(l[i]));
    assert(path.take(0) =~= Seq::<FrameId>::empty());
    assert(node_at(new_root, path.take(0)) == Some(new_root));
    assert(node_at(old_root, path.take(0)) == Some(old_root));
    assert forall|q: Seq<FrameId>| #[trigger] node_at(new_root, q) is Some implies figures_ok_at(new_root, l2, q, node_at(new_root, q).unwrap()) by {
        lemma_sum_update(l, i, q, true);
        lemma_sum_update(l, i, q, false);
        if q.is_prefix_of(path) {
            let k = q.len() as int;
            assert(q =~= path.take(k));
            assert(node_at(old_root, q) is Some);
        } else {
            assert(node_at(new_root, q) == node_at(old_root, q));
        }
    }
    assert forall|i2: int, j: int|
        0 <= i2 < l2.len() && l2[i2].3 && 0 <= j <= l2[i2].2.len() implies #[trigger] node_at(
        new_root,
        l2[i2].2.take(j),
    ) is Some by {
        assert(i2 != i);
        assert(l2[i2] == l[i2]);
        let p = l2[i2].2.take(j);
        assert(node_at(old_root, p) is Some);
        if p.is_prefix_of(path) {
            let k = p.len() as int;
            assert(p =~= path.take(k));
        } else {
            assert(node_at(new_root, p) == node_at(old_root, p));
        }
    }
}

proof fn lemma_intern_keys_step(m: Map<FrameKey, FrameId>, next: nat, keys: Seq<FrameKey>, i: int)
    requires
        0 <= i < keys.len(),
    ensures
        ({
            let (m1, n1, ids1) = intern_keys(m, next, keys.take(i));
            let k = keys[i];
            intern_keys(m, next, keys.take(i + 1)) == (if m1.contains_key(k) {
                (m1, n1, ids1.push(m1[k]))
            } else {
                (m1.insert(k, n1 as FrameId), n1 + 1, ids1.push(n1 as FrameId))
            })
        }),
{
    assert(keys.take(i + 1).drop_last() =~= keys.take(i));
}

proof fn lemma_intern_keys_monotone(m: Map<FrameKey, FrameId>, next: nat, keys: Seq<FrameKey>, i: int)
    requires
        0 <= i <= keys.len(),
    ensures
        intern_keys(m, next, keys.take(i)).1 <= intern_keys(m, next, keys).1,
        next <= intern_keys(m, next, keys.take(i)).1,
    decreases keys.len(),
{
    if i < keys.len() {
        let t = keys.drop_last();
        assert(keys.take(i) =~= t.take(i));
        lemma_intern_keys_monotone(m, next, t, i);
    } else {
        assert(keys.take(i) =~= keys);
        if keys.len() > 0 {
            let t = keys.drop_last();
            assert(t.take(t.len() as int) =~= t);
            lemma_intern_keys_monotone(m, next, t, t.len() as int);
        } else {
            assert(keys.take(i) =~= Seq::<FrameKey>::empty());
        }
    }
}

proof fn lemma_first_kept_skip(table: Map<FrameId, SymbolInfo>, ids: Seq<FrameId>, j: int)
    requires
        0 <= j < ids.len(),
        strips(table, ids[j]),
    ensures
        first_kept_from(table, ids, j) == first_kept_from(table, ids, j + 1),
{
}

/// What recording an allocation does: its stack is interned key by key, the
/// leading allocator frames are stripped, the allocation is remembered under
/// its address, and it is counted along the stripped stack read from the
/// outermost frame in.
pub open spec fn alloc_effect(
    old: Aggregator,
    new: Aggregator,
    address: usize,
    size: usize,
    thread_id: u32,
    sequence: u64,
    stack: Seq<FrameKey>,
) -> bool {
    let (m, n, ids) = intern_keys(old.interner@, old.next_frame_id as nat, stack);
    let kept = ids.skip(strip_start(new.symbol_table@, ids));
    &&& new.interner@ == m
    &&& new.next_frame_id == n
    &&& symbols_added(
        old.symbol_table@,
        new.symbol_table@,
        old.interner@,
        m,
        old.next_frame_id as nat,
        n,
    )
    &&& new.live_allocations@ == old.live_allocations@.insert(
        address,
        new.live_allocations@[address],
    )
    &&& new.live_allocations@[address].address == address
    &&& new.live_allocations@[address].size == size
    &&& new.live_allocations@[address].thread_id == thread_id
    &&& new.live_allocations@[address].sequence == sequence
    &&& new.live_allocations@[address].stack@ == kept
    &&& alloc_step(old.root, new.root, kept.reverse(), size as nat)
}

/// What recording a free does: a live allocation at `address` is forgotten
/// and uncounted along its stack; a free of an unknown address changes nothing.
pub open spec fn free_effect(old: Aggregator, new: Aggregator, address: usize) -> bool {
    &&& new.interner@ == old.interner@
    &&& new.next_frame_id == old.next_frame_id
    &&& new.symbol_table@ == old.symbol_table@
    &&& if old.live_allocations@.contains_key(address) {
        let la = old.live_allocations@[address];
        &&& free_step(old.root, new.root, la.stack@.reverse(), la.size as nat)
        &&& new.live_allocations@ == old.live_allocations@.remove(address)
    } else {
        &&& new.root == old.root
        &&& new.live_allocations@ == old.live_allocations@
    }
}

/// What folding `event` in does: `alloc_effect` for an allocation,
/// `free_effect` for a free.
pub open spec fn event_effect(old: Aggregator, new: Aggregator, event: AllocationEvent) -> bool {
    match event {
        AllocationEvent::Alloc { address, size, thread_id, sequence, stack } => alloc_effect(
            old,
            new,
            address,
            size,
            thread_id,
            sequence,
            stack@,
        ),
        AllocationEvent::Free { address, .. } => free_effect(old, new, address),
    }
}

/// What interning `key` does: a key already interned keeps its id and
/// changes nothing; a new key gets the next free id, recorded in the
/// interner with a placeholder symbol.
pub open spec fn intern_effect(old: Aggregator, new: Aggregator, key: FrameKey, id: FrameId) -> bool {
    if old.interner@.contains_key(key) {
        &&& id == old.interner@[key]
        &&& new.interner@ == old.interner@
        &&& new.next_frame_id == old.next_frame_id
        &&& new.symbol_table@ == old.symbol_table@
    } else {
        &&& id == old.next_frame_id
        &&& new.next_frame_id == old.next_frame_id + 1
        &&& new.interner@ == old.interner@.insert(key, id)
        &&& new.symbol_table@ == old.symbol_table@.insert(id, new.symbol_table@[id])
        &&& is_placeholder(new.symbol_table@[id], key)
    }
}

/// Some key has the id `id` in `m`.
pub open spec fn id_taken(m: Map<FrameKey, FrameId>, id: FrameId) -> bool {
    exists|k: FrameKey| #[trigger] m.contains_key(k) && m[k] == id
}

/// `s` is a snapshot of `a`: a copy of its trie, figure for figure, a symbol
/// table indexed by frame id holding a copy of `a`'s symbol for each id below
/// `next_frame_id` (an empty symbol where there is none), and sequence 0.
pub open spec fn is_snapshot_of(s: FlameSnapshot, a: Aggregator) -> bool {
    &&& same_tree(s.root, a.root)
    &&& same_figures(s.root, a.root)
    &&& s.generated_sequence == 0
    &&& s.symbols.frames@.len() == a.next_frame_id
    &&& forall|i: int|
        0 <= i < a.next_frame_id ==> if a.symbol_table@.contains_key(i as FrameId) {
            #[trigger] s.symbols.frames@[i] == a.symbol_table@[i as FrameId]
        } else {
            &&& s.symbols.frames@[i].name@ == Seq::<char>::empty()
            &&& s.symbols.frames@[i].module@ == Seq::<char>::empty()
            &&& s.symbols.frames@[i].address == 0
        }
}

/// The frames of `v` in reverse order.
pub fn reversed(v: &Vec<FrameId>) -> (r: Vec<FrameId>)
    ensures
        r@ == v@.reverse(),
{
    let n = v.len();
    let mut r: Vec<FrameId> = Vec::new();
    let mut t: usize = 0;
    while t < n
        invariant
            n == v@.len(),
            t <= n,
            r@.len() == t,
            forall|j: int| 0 <= j < t ==> r@[j] == v@[n - 1 - j],
        decreases n - t,
    {
        r.push(v[n - 1 - t]);
        t = t + 1;
    }
    assert(r@ =~= v@.reverse());
    r
}

impl Aggregator {
    /// The interning bookkeeping is consistent: ids start at 1, are below
    /// `next_frame_id`, belong to one key each, and every symbol-table entry
    /// is for an id already handed out.
    pub open spec fn interner_wf(&self) -> bool {
        &&& self.interner.wf()
        &&& 1 <= self.next_frame_id
        &&& forall|k: FrameKey| #[trigger]
            self.interner@.contains_key(k) ==> 1 <= self.interner@[k] < self.next_frame_id
        &&& forall|k1: FrameKey, k2: FrameKey|
            #![trigger self.interner@[k1], self.interner@[k2]]
            self.interner@.contains_key(k1) && self.interner@.contains_key(k2) && k1 != k2
                ==> self.interner@[k1] != self.interner@[k2]
        &&& forall|id: FrameId| #[trigger]
            self.symbol_table@.contains_key(id) <==> 1 <= id < self.next_frame_id
        &&& forall|id: FrameId| 1 <= id < self.next_frame_id ==> #[trigger] id_taken(self.interner@, id)
    }

    /// The record of counted allocations behind the trie's live figures.
    pub closed spec fn tracking(&self) -> Seq<Contribution> {
        self.ledger@
    }

    /// The aggregator's invariant: consistent interning, and a trie whose live
    /// figures are exactly what the live (and overwritten) allocations put there.
    pub closed spec fn wf(&self) -> bool {
        &&& self.interner_wf()
        &&& node_figures_ok(self.root, self.ledger@)
        &&& paths_present(self.root, self.ledger@)
        &&& live_tracked(self.live_allocations@, self.ledger@)
    }

    /// Every allocation the trie still counts is live: no allocation was
    /// recorded at an address while an earlier one there was still live.
    pub closed spec fn exact(&self) -> bool {
        forall|i: int|
            0 <= i < self.ledger@.len() && #[trigger] self.ledger@[i].3 ==> {
                &&& last_index(self.ledger@, self.ledger@[i].0) == i
                &&& self.live_allocations@.contains_key(self.ledger@[i].0)
            }
    }

    /// An empty aggregator: a root node for frame 0 and no frames interned.
    pub fn new() -> (r: Self)
        ensures
            r.wf(),
            r.interner_wf(),
            r.exact(),
            r.root.frame == 0,
            r.root.live_bytes == 0,
            r.root.total_bytes == 0,
            r.root.peak_live_bytes == 0,
            r.root.live_count == 0,
            r.root.total_count == 0,
            r.root.children@ == Map::<FrameId, FlameNode>::empty(),
            r.symbol_table@ == Map::<FrameId, SymbolInfo>::empty(),
            r.interner@ == Map::<FrameKey, FrameId>::empty(),
            r.next_frame_id == 1,
            r.live_allocations@ == Map::<usize, LiveAllocation>::empty(),
    {
        let r = Aggregator {
            root: FlameNode::leaf(0),
            symbol_table: HashMap::new(),
            interner: FrameInterner::new(),
            next_frame_id: 1,
            live_allocations: HashMap::new(),
            ledger: Ghost(Seq::empty()),
        };
        proof {
            assert forall|q: Seq<FrameId>| #[trigger] node_at(r.root, q) is Some implies figures_ok_at(r.root, r.ledger@, q, node_at(r.root, q).unwrap()) by {
                if q.len() > 0 {
                    crate::tree::lemma_node_at_leaf(r.root, q);
                }
            }
        }
        r
    }

    /// Whether frame `id` belongs to allocator code: its module or symbol name
    /// contains the name of a known allocator module or routine.
    pub fn should_strip(&self, id: FrameId) -> (r: bool)
        ensures
            r == strips(self.symbol_table@, id),
    {
        match self.symbol_table.get(&id) {
            Some(info) => {
                let m = info.module.as_str();
                let n = info.name.as_str();
                str_contains(m, "ntdll") || str_contains(m, "ucrtbase") || str_contains(m, "msvcrt")
                    || str_contains(m, "libc") || str_contains(n, "malloc") || str_contains(n, "free")
                    || str_contains(n, "realloc") || str_contains(n, "calloc") || str_contains(
                    n,
                    "RtlAllocateHeap",
                ) || str_contains(n, "RtlFreeHeap") || str_contains(n, "HeapAlloc")
                    || str_contains(n, "HeapFree")
            },
            None => false,
        }
    }

    /// The id of `key`, interning it under the next free id (with a
    /// placeholder symbol) when it is new.
    pub fn intern_frame(&mut self, key: FrameKey) -> (id: FrameId)
        requires
            old(self).interner_wf(),
            !old(self).interner@.contains_key(key) ==> old(self).next_frame_id < u32::MAX,
        ensures
            final(self).interner_wf(),
            final(self).root == old(self).root,
            final(self).live_allocations == old(self).live_allocations,
            final(self).tracking() == old(self).tracking(),
            intern_effect(*old(self), *final(self), key, id),
    {
        if let Some(id) = self.interner.get(&key) {
            return id;
        }
        let id = self.next_frame_id;
        self.next_frame_id = self.next_frame_id + 1;
        let mut name = String::from_str("0x");
        proof {
            reveal_strlit("0x");
            assert(name@ =~= seq!['0', 'x']);
        }
        push_hex(&mut name, key.instruction_pointer as u64);
        let info = SymbolInfo {
            name,
            module: String::from_str("unknown"),
            address: key.instruction_pointer,
        };
        self.symbol_table.insert(id, info);
        self.interner.insert(key, id);
        proof {
            assert(self.symbol_table@ =~= old(self).symbol_table@.insert(id, self.symbol_table@[id]));
            assert forall|j: FrameId| 1 <= j < self.next_frame_id implies #[trigger] id_taken(self.interner@, j) by {
                if j == id {
                    assert(self.interner@.contains_key(key) && self.interner@[key] == j);
                } else {
                    assert(id_taken(old(self).interner@, j));
                    let k = choose|k: FrameKey| #[trigger] old(self).interner@.contains_key(k) && old(self).interner@[k] == j;
                    assert(self.interner@.contains_key(k) && self.interner@[k] == j);
                }
            }
        }
        id
    }

    /// A copy of the trie and a symbol table indexed by frame id, with an
    /// empty symbol for every id below `next_frame_id` that has none.
    pub fn snapshot(&self) -> (s: FlameSnapshot)
        requires
            forall|id: FrameId| #[trigger] self.symbol_table@.contains_key(id) ==> id < self.next_frame_id,
        ensures
            is_snapshot_of(s, *self),
    {
        let mut frames: Vec<SymbolInfo> = Vec::new();
        let mut id: FrameId = 0;
        while id < self.next_frame_id
            invariant
                id <= self.next_frame_id,
                frames@.len() == id,
                forall|i: int|
                    0 <= i < id ==> if self.symbol_table@.contains_key(i as FrameId) {
                        #[trigger] frames@[i] == self.symbol_table@[i as FrameId]
                    } else {
                        &&& frames@[i].name@ == Seq::<char>::empty()
                        &&& frames@[i].module@ == Seq::<char>::empty()
                        &&& frames@[i].address == 0
                    },
            decreases self.next_frame_id - id,
        {
            match self.symbol_table.get(&id) {
                Some(info) => {
                    frames.push(
                        SymbolInfo {
                            name: info.name.clone(),
                            module: info.module.clone(),
                            address: info.address,
                        },
                    );
                },
                None => {
                    frames.push(SymbolInfo::default());
                },
            }
            id = id + 1;
        }
        FlameSnapshot {
            root: self.root.duplicate(),
            symbols: Arc::new(SymbolSnapshot { frames }),
            generated_sequence: 0,
        }
    }

    /// The event can be recorded without a counter leaving its integer type:
    /// the root's totals take the new allocation, and interning the stack's
    /// new keys stays within `u32` ids.
    pub open spec fn can_record(&self, stack: Seq<FrameKey>, size: usize) -> bool {
        &&& self.root.total_bytes + size <= u64::MAX
        &&& self.root.total_count + 1 <= u64::MAX
        &&& intern_keys(self.interner@, self.next_frame_id as nat, stack).1 <= u32::MAX
    }

    /// Folds one event into the aggregate: an allocation is interned,
    /// stripped of allocator frames, remembered and counted along its stack;
    /// a free of a live address is forgotten and uncounted.
    pub fn process_event(&mut self, event: AllocationEvent)
        requires
            old(self).wf(),
            match event {
                AllocationEvent::Alloc { size, stack, .. } => old(self).can_record(stack@, size),
                AllocationEvent::Free { .. } => true,
            },
        ensures
            final(self).wf(),
            final(self).interner_wf(),
            event_effect(*old(self), *final(self), event),
            old(self).exact() && match event {
                AllocationEvent::Alloc { address, .. } => !old(self).live_allocations@.contains_key(address),
                AllocationEvent::Free { .. } => true,
            } ==> final(self).exact(),
    {
        match event {
            AllocationEvent::Alloc { address, size, thread_id, sequence, stack } => {
                self.record_alloc(address, size, thread_id, sequence, stack);
            },
            AllocationEvent::Free { address, .. } => {
                self.record_free(address);
            },
        }
    }

    /// Whether `process_event` can take `event`: a free always, an
    /// allocation when `can_record` holds of its stack and size.
    pub fn accepts(&self, event: &AllocationEvent) -> (r: bool)
        requires
            self.interner_wf(),
        ensures
            r == match event {
                AllocationEvent::Alloc { size, stack, .. } => self.can_record(stack@, *size),
                AllocationEvent::Free { .. } => true,
            },
    {
        match event {
            AllocationEvent::Alloc { size, stack, .. } => {
                let size_fits = (*size as u64) <= u64::MAX - self.root.total_bytes;
                let count_fits = self.root.total_count < u64::MAX;
                let new_ids = self.count_new_keys(stack);
                let ids_fit = (self.next_frame_id as u128) + new_ids <= u32::MAX as u128;
                size_fits && count_fits && ids_fit
            },
            AllocationEvent::Free { .. } => true,
        }
    }

    /// How many ids interning `stack` would hand out: the number of distinct
    /// keys of `stack` that are not interned yet.
    fn count_new_keys(&self, stack: &Vec<FrameKey>) -> (n: u128)
        requires
            self.interner_wf(),
        ensures
            n <= stack@.len(),
            n <= usize::MAX,
            self.next_frame_id + n == intern_keys(
                self.interner@,
                self.next_frame_id as nat,
                stack@,
            ).1,
    {
        let ghost m0 = self.interner@;
        let ghost n0 = self.next_frame_id as nat;
        let mut fresh: Vec<FrameKey> = Vec::new();
        let mut j: usize = 0;
        while j < stack.len()
            invariant
                self.interner_wf(),
                m0 == self.interner@,
                n0 == self.next_frame_id as nat,
                j <= stack@.len(),
                fresh@.len() <= j,
                intern_keys(m0, n0, stack@.take(j as int)).1 == n0 + fresh@.len(),
                forall|k: FrameKey|
                    #[trigger] intern_keys(m0, n0, stack@.take(j as int)).0.contains_key(k) <==> (
                    m0.contains_key(k) || fresh@.contains(k)),
            decreases stack@.len() - j,
        {
            let key = stack[j];
            let ghost prev = stack@.take(j as int);
            proof {
                assert(stack@.take(j + 1).drop_last() =~= prev);
                assert(stack@.take(j + 1).last() == key);
            }
            let known = match self.interner.get(&key) {
                Some(_) => true,
                None => {
                    let mut seen = false;
                    let mut t: usize = 0;
                    while t < fresh.len()
                        invariant
                            t <= fresh@.len(),
                            seen <==> exists|u: int| 0 <= u < t && fresh@[u] == key,
                        decreases fresh@.len() - t,
                    {
                        if fresh[t] == key {
                            seen = true;
                        }
                        t = t + 1;
                    }
                    seen
                },
            };
            proof {
                assert(known <==> (m0.contains_key(key) || fresh@.contains(key)));
            }
            if !known {
                let ghost before = fresh@;
                fresh.push(key);
                proof {
                    let r = intern_keys(m0, n0, prev);
                    assert(!r.0.contains_key(key));
                    assert(intern_keys(m0, n0, stack@.take(j + 1)).0 == r.0.insert(key, r.1 as FrameId));
                    assert(fresh@ == before.push(key));
                    assert forall|k: FrameKey|
                        #[trigger] intern_keys(m0, n0, stack@.take(j + 1)).0.contains_key(k) <==> (
                        m0.contains_key(k) || fresh@.contains(k)) by {
                        if before.contains(k) {
                            let u = choose|u: int| 0 <= u < before.len() && before[u] == k;
                            assert(fresh@[u] == k);
                        }
                        if fresh@.contains(k) && k != key {
                            let u = choose|u: int| 0 <= u < fresh@.len() && fresh@[u] == k;
                            assert(u < before.len());
                            assert(before[u] == k);
                        }
                        assert(fresh@[before.len() as int] == key);
                    }
                }
            } else {
                proof {
                    assert(intern_keys(m0, n0, prev).0.contains_key(key));
                    assert(intern_keys(m0, n0, stack@.take(j + 1)).0 == intern_keys(m0, n0, prev).0);
                }
            }
            j = j + 1;
        }
        proof {
            assert(stack@.take(stack@.len() as int) =~= stack@);
        }
        fresh.len() as u128
    }

    /// One turn of the run loop: folds `event` in and, when a publisher is
    /// attached and at least `interval_nanos` have passed since the last
    /// publication, returns a snapshot to publish.
    pub fn run(
        &mut self,
        event: AllocationEvent,
        publishing: bool,
        elapsed_nanos: u128,
        interval_nanos: u128,
    ) -> (published: Option<FlameSnapshot>)
        requires
            old(self).wf(),
            match event {
                AllocationEvent::Alloc { size, stack, .. } => old(self).can_record(stack@, size),
                AllocationEvent::Free { .. } => true,
            },
        ensures
            final(self).wf(),
            final(self).interner_wf(),
            event_effect(*old(self), *final(self), event),
            old(self).exact() && match event {
                AllocationEvent::Alloc { address, .. } => !old(self).live_allocations@.contains_key(address),
                AllocationEvent::Free { .. } => true,
            } ==> final(self).exact(),
            published is Some <==> (publishing && elapsed_nanos >= interval_nanos),
            published matches Some(s) ==> is_snapshot_of(s, *final(self)),
    {
        self.process_event(event);
        if publishing && elapsed_nanos >= interval_nanos {
            Some(self.snapshot())
        } else {
            None
        }
    }

    fn record_alloc(
        &mut self,
        address: usize,
        size: usize,
        thread_id: u32,
        sequence: u64,
        stack: Vec<FrameKey>,
    )
        requires
            old(self).wf(),
            old(self).can_record(stack@, size),
        ensures
            final(self).wf(),
            alloc_effect(*old(self), *final(self), address, size, thread_id, sequence, stack@),
            old(self).exact() && !old(self).live_allocations@.contains_key(address) ==> final(self).exact(),
    {
        let ghost old_table = self.symbol_table@;
        let ghost old_m = self.interner@;
        let ghost old_next = self.next_frame_id as nat;
        let ghost old_root = self.root;
        let ghost old_live = self.live_allocations;
        let ghost l = self.ledger@;
        let mut frame_ids: Vec<FrameId> = Vec::with_capacity(stack.len());
        let mut i: usize = 0;
        proof {
            assert(stack@.take(0) =~= Seq::<FrameKey>::empty());
        }
        while i < stack.len()
            invariant
                i <= stack@.len(),
                self.interner_wf(),
                self.root == old_root,
                self.live_allocations == old_live,
                self.ledger@ == l,
                forall|id: FrameId| #[trigger] old_table.contains_key(id) ==> id < old_next,
                old_next <= self.next_frame_id,
                intern_keys(old_m, old_next, stack@.take(i as int)) == (
                    self.interner@,
                    self.next_frame_id as nat,
                    frame_ids@,
                ),
                intern_keys(old_m, old_next, stack@).1 <= u32::MAX,
                symbols_added(
                    old_table,
                    self.symbol_table@,
                    old_m,
                    self.interner@,
                    old_next,
                    self.next_frame_id as nat,
                ),
            decreases stack@.len() - i,
        {
            let key = stack[i];
            proof {
                lemma_intern_keys_step(old_m, old_next, stack@, i as int);
                lemma_intern_keys_monotone(old_m, old_next, stack@, i + 1);
            }
            let ghost before_table = self.symbol_table@;
            let ghost before_m = self.interner@;
            let ghost before_next = self.next_frame_id as nat;
            let id = self.intern_frame(key);
            frame_ids.push(id);
            i = i + 1;
            proof {
                let new_table = self.symbol_table@;
                let new_m = self.interner@;
                if !before_m.contains_key(key) {
                    assert forall|k: FrameKey|
                        new_m.contains_key(k) && !old_m.contains_key(k) implies is_placeholder(
                        new_table[#[trigger] new_m[k]],
                        k,
                    ) by {
                        if k != key {
                            assert(before_m.contains_key(k));
                            assert(new_m[k] == before_m[k]);
                            assert(before_m[k] < before_next);
                        }
                    }
                    assert forall|id2: FrameId| #[trigger]
                        old_table.contains_key(id2) implies new_table[id2] == old_table[id2] by {
                        assert(before_table.contains_key(id2));
                    }
                    assert(self.next_frame_id as nat == before_next + 1);
                    let nn = self.next_frame_id as nat;
                    assert forall|id2: FrameId|
                        (#[trigger] new_table.contains_key(id2)) == (old_table.contains_key(id2) || (old_next
                            <= id2 && id2 < nn)) by {
                        assert(new_table == before_table.insert(id, new_table[id]));
                        assert(new_table.contains_key(id2) <==> (before_table.contains_key(id2)
                            || id2 == before_next));
                        assert(before_table.contains_key(id2) <==> (old_table.contains_key(id2)
                            || (old_next <= id2 < before_next)));
                    }
                    assert(new_m[key] == before_next);
                    assert(is_placeholder(new_table[new_m[key]], key));
                }
            }
        }
        proof {
            assert(stack@.take(stack@.len() as int) =~= stack@);
        }
        let ghost ids = frame_ids@;
        let n = frame_ids.len();
        let mut start: usize = 0;
        let mut j: usize = 0;
        while j < n
            invariant_except_break
                j <= n,
                n == ids.len(),
                frame_ids@ == ids,
                first_kept_from(self.symbol_table@, ids, 0) == first_kept_from(
                    self.symbol_table@,
                    ids,
                    j as int,
                ),
                start == 0,
            ensures
                start as int == strip_start(self.symbol_table@, ids),
                start <= n,
            decreases n - j,
        {
            if !self.should_strip(frame_ids[j]) {
                start = j;
                break;
            }
            proof {
                lemma_first_kept_skip(self.symbol_table@, ids, j as int);
            }
            j = j + 1;
        }
        let mut kept: Vec<FrameId> = Vec::new();
        let mut t: usize = start;
        while t < n
            invariant
                start <= t <= n,
                n == frame_ids@.len(),
                kept@ == frame_ids@.subrange(start as int, t as int),
            decreases n - t,
        {
            kept.push(frame_ids[t]);
            t = t + 1;
            assert(kept@ =~= frame_ids@.subrange(start as int, t as int));
        }
        assert(kept@ =~= ids.skip(start as int));
        let path = reversed(&kept);
        proof {
            assert(path@.skip(0) =~= path@);
            assert forall|k: int|
                0 <= k <= path@.len() implies (#[trigger] node_at(self.root, path@.skip(0).take(k)) matches Some(nd) ==> {
                &&& nd.total_bytes + size <= u64::MAX
                &&& nd.total_count + 1 <= u64::MAX
                &&& nd.live_bytes <= nd.total_bytes
                &&& nd.live_count <= nd.total_count
            }) by {
                let q = path@.skip(0).take(k);
                if node_at(self.root, q) is Some {
                    assert(figures_ok_at(self.root, l, q, node_at(self.root, q).unwrap()));
                }
            }
        }
        add_along(&mut self.root, &path, 0, size as u64);
        let ghost c: Contribution = (address, size as u64, path@, true);
        proof {
            lemma_alloc_keeps_tree(old_root, self.root, l, c);
        }
        self.ledger = Ghost(l.push(c));
        let ghost old_live_map = self.live_allocations@;
        self.live_allocations.insert(
            address,
            LiveAllocation { address, size, stack: kept, thread_id, sequence },
        );
        proof {
            let l2 = l.push(c);
            let live2 = self.live_allocations@;
            assert forall|a: usize| #[trigger] live2.contains_key(a) implies {
                let i2 = last_index(l2, a);
                &&& i2 >= 0
                &&& l2[i2].3
                &&& l2[i2].1 == live2[a].size
                &&& l2[i2].2 == live2[a].stack@.reverse()
                &&& live2[a].address == a
            } by {
                lemma_last_index_push(l, c, a);
                if a != address {
                    assert(old_live_map.contains_key(a));
                    let i1 = last_index(l, a);
                    lemma_last_index(l, a);
                    assert(l2[i1] == l[i1]);
                }
            }
            assert(live2 =~= old_live_map.insert(address, live2[address]));
            if old(self).exact() && !old_live_map.contains_key(address) {
                assert forall|i: int| 0 <= i < l2.len() && #[trigger] l2[i].3 implies {
                    &&& last_index(l2, l2[i].0) == i
                    &&& live2.contains_key(l2[i].0)
                } by {
                    lemma_last_index_push(l, c, l2[i].0);
                    if i < l.len() {
                        assert(l2[i] == l[i]);
                        assert(old_live_map.contains_key(l[i].0));
                    }
                }
            }
        }
    }

    fn record_free(&mut self, address: usize)
        requires
            old(self).wf(),
        ensures
            final(self).wf(),
            free_effect(*old(self), *final(self), address),
            old(self).exact() ==> final(self).exact(),
    {
        let ghost l = self.ledger@;
        let ghost old_root = self.root;
        let ghost old_live_map = self.live_allocations@;
        let removed = self.live_allocations.remove(&address);
        match removed {
            Some(alloc) => {
                let path = reversed(&alloc.stack);
                let ghost i = last_index(l, address);
                proof {
                    assert(old_live_map.contains_key(address));
                    assert(old_live_map[address] == alloc);
                    lemma_last_index(l, address);
                    assert(path@.skip(0) =~= path@);
                    assert forall|k: int|
                        0 <= k <= path@.len() implies (#[trigger] node_at(self.root, path@.skip(0).take(k)) matches Some(nd) ==> nd.live_bytes
                        >= alloc.size as u64 && nd.live_count >= 1) by {
                        let q = path@.skip(0).take(k);
                        if node_at(self.root, q) is Some {
                            assert(figures_ok_at(self.root, l, q, node_at(self.root, q).unwrap()));
                            lemma_sum_ge(l, i, q, true);
                            lemma_sum_ge(l, i, q, false);
                            assert(q.is_prefix_of(l[i].2));
                        }
                    }
                }
                sub_along(&mut self.root, &path, 0, alloc.size as u64);
                proof {
                    lemma_free_keeps_tree(old_root, self.root, l, i);
                }
                self.ledger = Ghost(l.update(i, uncounted(l[i])));
                proof {
                    let l2 = self.ledger@;
                    let live2 = self.live_allocations@;
                    assert forall|a: usize| #[trigger] live2.contains_key(a) implies {
                        let i2 = last_index(l2, a);
                        &&& i2 >= 0
                        &&& l2[i2].3
                        &&& l2[i2].1 == live2[a].size
                        &&& l2[i2].2 == live2[a].stack@.reverse()
                        &&& live2[a].address == a
                    } by {
                        lemma_last_index_update(l, i, uncounted(l[i]), a);
                        assert(old_live_map.contains_key(a));
                        lemma_last_index(l, a);
                        assert(last_index(l, a) != i);
                    }
                    if old(self).exact() {
                        assert forall|j: int| 0 <= j < l2.len() && #[trigger] l2[j].3 implies {
                            &&& last_index(l2, l2[j].0) == j
                            &&& live2.contains_key(l2[j].0)
                        } by {
                            assert(j != i);
                            assert(l2[j] == l[j]);
                            lemma_last_index_update(l, i, uncounted(l[i]), l[j].0);
                            lemma_last_index(l, address);
                        }
                    }
                }
            },
            None => {
                proof {
                    assert(self.live_allocations@ == old_live_map);
                }
            },
        }
    }
}

proof fn lemma_first_kept_from(table: Map<FrameId, SymbolInfo>, ids: Seq<FrameId>, j: int)
    requires
        0 <= j,
    ensures
        (exists|k: int| j <= k < ids.len() && !strips(table, #[trigger] ids[k])) ==> {
            let s = first_kept_from(table, ids, j);
            &&& j <= s < ids.len()
            &&& !strips(table, ids[s])
            &&& forall|k: int| j <= k < s ==> strips(table, #[trigger] ids[k])
        },
        (forall|k: int| j <= k < ids.len() ==> strips(table, #[trigger] ids[k])) ==> first_kept_from(
            table,
            ids,
            j,
        ) == 0,
    decreases ids.len() - j,
{
    if j < ids.len() {
        lemma_first_kept_from(table, ids, j + 1);
        if strips(table, ids[j]) {
            if exists|k: int| j <= k < ids.len() && !strips(table, #[trigger] ids[k]) {
                let k = choose|k: int| j <= k < ids.len() && !strips(table, #[trigger] ids[k]);
                assert(k != j);
                assert(exists|k2: int| j + 1 <= k2 < ids.len() && !strips(table, #[trigger] ids[k2]));
            }
        }
    }
}

/// Stripping drops exactly the leading allocator frames of a stack: the
/// kept part starts at the first frame that is not allocator code, or, when
/// every frame is, the whole stack is kept.
pub proof fn lemma_strip_start(table: Map<FrameId, SymbolInfo>, ids: Seq<FrameId>)
    ensures
        (exists|k: int| 0 <= k < ids.len() && !strips(table, #[trigger] ids[k])) ==> {
            let s = strip_start(table, ids);
            &&& 0 <= s < ids.len()
            &&& !strips(table, ids[s])
            &&& forall|k: int| 0 <= k < s ==> strips(table, #[trigger] ids[k])
        },
        (forall|k: int| 0 <= k < ids.len() ==> strips(table, #[trigger] ids[k])) ==> strip_start(table, ids)
            == 0,
{
    lemma_first_kept_from(table, ids, 0);
}

/// One of the names of allocator modules: ntdll, ucrtbase, msvcrt, libc.
pub open spec fn allocator_module_name(w: Seq<char>) -> bool {
    w == "ntdll"@ || w == "ucrtbase"@ || w == "msvcrt"@ || w == "libc"@
}

/// One of the names of allocation routines: malloc, free, realloc, calloc,
/// RtlAllocateHeap, RtlFreeHeap, HeapAlloc, HeapFree.
pub open spec fn allocator_routine_name(w: Seq<char>) -> bool {
    ||| w == "malloc"@
    ||| w == "free"@
    ||| w == "realloc"@
    ||| w == "calloc"@
    ||| w == "RtlAllocateHeap"@
    ||| w == "RtlFreeHeap"@
    ||| w == "HeapAlloc"@
    ||| w == "HeapFree"@
}

/// `w` occurs in `s` at position `j`.
pub open spec fn appears_at(s: Seq<char>, w: Seq<char>, j: int) -> bool {
    0 <= j && j + w.len() <= s.len() && s.subrange(j, j + w.len()) == w
}

/// A known frame is stripped exactly when its module name contains the name
/// of an allocator module or its symbol name contains the name of an
/// allocation routine; an unknown frame is never stripped.
pub proof fn lemma_strips_allocator_frames(table: Map<FrameId, SymbolInfo>, id: FrameId, w: Seq<char>, j: int)
    ensures
        table.contains_key(id) && allocator_module_name(w) && appears_at(table[id].module@, w, j)
            ==> strips(table, id),
        table.contains_key(id) && allocator_routine_name(w) && appears_at(table[id].name@, w, j)
            ==> strips(table, id),
        strips(table, id) ==> table.contains_key(id) && ((exists|w2: Seq<char>, j2: int|
            allocator_module_name(w2) && #[trigger] appears_at(table[id].module@, w2, j2)) || (exists|
            w2: Seq<char>,
            j2: int,
        | allocator_routine_name(w2) && #[trigger] appears_at(table[id].name@, w2, j2))),
{
    if table.contains_key(id) && (allocator_module_name(w) || allocator_routine_name(w)) {
        assert(occurs_at(table[id].module@, w, j) == appears_at(table[id].module@, w, j));
        assert(occurs_at(table[id].name@, w, j) == appears_at(table[id].name@, w, j));
    }
    if strips(table, id) {
        let m = table[id].module@;
        let n = table[id].name@;
        if is_allocator_module(m) {
            if contains_text(m, "ntdll"@) {
                let k = choose|k: int| occurs_at(m, "ntdll"@, k);
                assert(appears_at(m, "ntdll"@, k));
            } else if contains_text(m, "ucrtbase"@) {
                let k = choose|k: int| occurs_at(m, "ucrtbase"@, k);
                assert(appears_at(m, "ucrtbase"@, k));
            } else if contains_text(m, "msvcrt"@) {
                let k = choose|k: int| occurs_at(m, "msvcrt"@, k);
                assert(appears_at(m, "msvcrt"@, k));
            } else {
                let k = choose|k: int| occurs_at(m, "libc"@, k);
                assert(appears_at(m, "libc"@, k));
            }
        } else {
            if contains_text(n, "malloc"@) {
                let k = choose|k: int| occurs_at(n, "malloc"@, k);
                assert(appears_at(n, "malloc"@, k));
            } else if contains_text(n, "free"@) {
                let k = choose|k: int| occurs_at(n, "free"@, k);
                assert(appears_at(n, "free"@, k));
            } else if contains_text(n, "realloc"@) {
                let k = choose|k: int| occurs_at(n, "realloc"@, k);
                assert(appears_at(n, "realloc"@, k));
            } else if contains_text(n, "calloc"@) {
                let k = choose|k: int| occurs_at(n, "calloc"@, k);
                assert(appears_at(n, "calloc"@, k));
            } else if contains_text(n, "RtlAllocateHeap"@) {
                let k = choose|k: int| occurs_at(n, "RtlAllocateHeap"@, k);
                assert(appears_at(n, "RtlAllocateHeap"@, k));
            } else if contains_text(n, "RtlFreeHeap"@) {
                let k = choose|k: int| occurs_at(n, "RtlFreeHeap"@, k);
                assert(appears_at(n, "RtlFreeHeap"@, k));
            } else if contains_text(n, "HeapAlloc"@) {
                let k = choose|k: int| occurs_at(n, "HeapAlloc"@, k);
                assert(appears_at(n, "HeapAlloc"@, k));
            } else {
                let k = choose|k: int| occurs_at(n, "HeapFree"@, k);
                assert(appears_at(n, "HeapFree"@, k));
            }
        }
    }
}

/// In a well-formed aggregator every node's figures are ordered: live bytes
/// at most peak live bytes at most total bytes at most the root's total
/// bytes, and live allocations at most total allocations at most the root's.
pub proof fn lemma_figures_ordered(a: Aggregator, p: Seq<FrameId>)
    requires
        a.wf(),
        node_at(a.root, p) is Some,
    ensures
        ({
            let n = node_at(a.root, p)->0;
            &&& n.live_bytes <= n.peak_live_bytes <= n.total_bytes <= a.root.total_bytes
            &&& n.live_count <= n.total_count <= a.root.total_count
        }),
{
    assert(figures_ok_at(a.root, a.ledger@, p, node_at(a.root, p).unwrap()));
}

/// Folding in any event keeps every node of the trie, and never lowers a
/// node's total bytes, total allocations or peak live bytes.
pub proof fn lemma_event_keeps_totals(old: Aggregator, new: Aggregator, event: AllocationEvent, p: Seq<FrameId>)
    requires
        event_effect(old, new, event),
        node_at(old.root, p) is Some,
    ensures
        node_at(new.root, p) is Some,
        node_at(new.root, p)->0.total_bytes >= node_at(old.root, p)->0.total_bytes,
        node_at(new.root, p)->0.total_count >= node_at(old.root, p)->0.total_count,
        node_at(new.root, p)->0.peak_live_bytes >= node_at(old.root, p)->0.peak_live_bytes,
        new.next_frame_id >= old.next_frame_id,
{
    match event {
        AllocationEvent::Alloc { address, size, thread_id, sequence, stack } => {
            let (m, n, ids) = intern_keys(old.interner@, old.next_frame_id as nat, stack@);
            lemma_intern_keys_monotone(old.interner@, old.next_frame_id as nat, stack@, 0);
            let path = ids.skip(strip_start(new.symbol_table@, ids)).reverse();
            if p.is_prefix_of(path) {
                assert(p =~= path.take(p.len() as int));
                assert(node_at(new.root, path.take(p.len() as int)) is Some);
            }
        },
        AllocationEvent::Free { address, .. } => {
            if old.live_allocations@.contains_key(address) {
                let path = old.live_allocations@[address].stack@.reverse();
                if p.is_prefix_of(path) {
                    assert(p =~= path.take(p.len() as int));
                    assert(node_at(old.root, path.take(p.len() as int)) is Some);
                }
            }
        },
    }
}

/// Adds the size of the live allocation at an address to a running total.
pub open spec fn add_size(live: Map<usize, LiveAllocation>) -> spec_fn(nat, usize) -> nat {
    |acc: nat, ad: usize| (acc + live[ad].size) as nat
}

/// The sizes of the live allocations in `live`, added up.
pub open spec fn live_total(live: Map<usize, LiveAllocation>) -> nat {
    live.dom().fold(0nat, add_size(live))
}

proof fn lemma_counted_cover(l: Seq<Contribution>, live: Map<usize, LiveAllocation>, s: Set<usize>)
    requires
        s.finite(),
        forall|ad: usize| #[trigger]
            s.contains(ad) ==> {
                let i = last_index(l, ad);
                &&& live.contains_key(ad)
                &&& i >= 0
                &&& l[i].3
                &&& l[i].1 == live[ad].size
            },
    ensures
        s.fold(0nat, add_size(live)) <= sum_through(l, Seq::empty(), true),
    decreases l.len(),
{
    let f = add_size(live);
    assert(is_fun_commutative(f));
    if l.len() == 0 {
        assert(s =~= Set::<usize>::empty()) by {
            assert forall|ad: usize| !s.contains(ad) by {
                if s.contains(ad) {
                    assert(last_index(l, ad) == -1);
                }
            }
        }
        lemma_fold_empty(0nat, f);
    } else {
        let c = l.last();
        let t = l.drop_last();
        assert(sum_through(l, Seq::empty(), true) == sum_through(t, Seq::empty(), true) + weight(
            c,
            Seq::empty(),
            true,
        ));
        assert(Seq::<FrameId>::empty().is_prefix_of(c.2));
        if s.contains(c.0) {
            let s2 = s.remove(c.0);
            assert forall|ad: usize| #[trigger] s2.contains(ad) implies {
                let i = last_index(t, ad);
                &&& live.contains_key(ad)
                &&& i >= 0
                &&& t[i].3
                &&& t[i].1 == live[ad].size
            } by {
                assert(s.contains(ad));
                assert(last_index(l, ad) == last_index(t, ad));
                lemma_last_index(t, ad);
            }
            lemma_counted_cover(t, live, s2);
            assert(s2.insert(c.0) =~= s);
            lemma_fold_insert(s2, 0nat, f, c.0);
            assert(last_index(l, c.0) == l.len() - 1);
        } else {
            assert forall|ad: usize| #[trigger] s.contains(ad) implies {
                let i = last_index(t, ad);
                &&& live.contains_key(ad)
                &&& i >= 0
                &&& t[i].3
                &&& t[i].1 == live[ad].size
            } by {
                assert(last_index(l, ad) == last_index(t, ad));
                lemma_last_index(t, ad);
            }
            lemma_counted_cover(t, live, s);
        }
    }
}

/// In a well-formed aggregator the root counts at least the bytes of all
/// live allocations: no live allocation goes uncounted.
pub proof fn lemma_live_allocations_counted(a: Aggregator)
    requires
        a.wf(),
        a.live_allocations@.dom().finite(),
    ensures
        live_total(a.live_allocations@) <= a.root.live_bytes,
{
    let live = a.live_allocations@;
    let l = a.ledger@;
    assert(node_at(a.root, Seq::<FrameId>::empty()) == Some(a.root));
    assert(figures_ok_at(a.root, l, Seq::empty(), a.root));
    assert forall|ad: usize| #[trigger] live.dom().contains(ad) implies {
        let i = last_index(l, ad);
        &&& live.contains_key(ad)
        &&& i >= 0
        &&& l[i].3
        &&& l[i].1 == live[ad].size
    } by {
        assert(live.contains_key(ad));
    }
    lemma_counted_cover(l, live, live.dom());
}

proof fn lemma_counted_exactly(l: Seq<Contribution>, live: Map<usize, LiveAllocation>, s: Set<usize>)
    requires
        s.finite(),
        forall|ad: usize| #[trigger]
            s.contains(ad) ==> {
                let i = last_index(l, ad);
                &&& live.contains_key(ad)
                &&& i >= 0
                &&& l[i].3
                &&& l[i].1 == live[ad].size
            },
        forall|i: int|
            0 <= i < l.len() && #[trigger] l[i].3 ==> last_index(l, l[i].0) == i && s.contains(l[i].0),
    ensures
        s.fold(0nat, add_size(live)) == sum_through(l, Seq::empty(), true),
        s.len() == sum_through(l, Seq::empty(), false),
    decreases l.len(),
{
    let f = add_size(live);
    assert(is_fun_commutative(f));
    if l.len() == 0 {
        assert(s =~= Set::<usize>::empty()) by {
            assert forall|ad: usize| !s.contains(ad) by {
                if s.contains(ad) {
                    assert(last_index(l, ad) == -1);
                }
            }
        }
        lemma_fold_empty(0nat, f);
    } else {
        let c = l.last();
        let t = l.drop_last();
        assert(Seq::<FrameId>::empty().is_prefix_of(c.2));
        assert(last_index(l, c.0) == l.len() - 1);
        if c.3 {
            assert(s.contains(c.0));
            let s2 = s.remove(c.0);
            assert forall|ad: usize| #[trigger] s2.contains(ad) implies {
                let i = last_index(t, ad);
                &&& live.contains_key(ad)
                &&& i >= 0
                &&& t[i].3
                &&& t[i].1 == live[ad].size
            } by {
                assert(s.contains(ad));
                assert(last_index(l, ad) == last_index(t, ad));
                lemma_last_index(t, ad);
            }
            assert forall|i: int| 0 <= i < t.len() && #[trigger] t[i].3 implies last_index(t, t[i].0) == i
                && s2.contains(t[i].0) by {
                assert(t[i] == l[i]);
                assert(l[i].3);
                assert(last_index(l, l[i].0) == i);
                assert(l[i].0 != c.0);
            }
            lemma_counted_exactly(t, live, s2);
            assert(s2.insert(c.0) =~= s);
            lemma_fold_insert(s2, 0nat, f, c.0);
        } else {
            assert(!s.contains(c.0));
            assert forall|ad: usize| #[trigger] s.contains(ad) implies {
                let i = last_index(t, ad);
                &&& live.contains_key(ad)
                &&& i >= 0
                &&& t[i].3
                &&& t[i].1 == live[ad].size
            } by {
                assert(last_index(l, ad) == last_index(t, ad));
                lemma_last_index(t, ad);
            }
            assert forall|i: int| 0 <= i < t.len() && #[trigger] t[i].3 implies last_index(t, t[i].0) == i
                && s.contains(t[i].0) by {
                assert(t[i] == l[i]);
                assert(l[i].3);
                assert(last_index(l, l[i].0) == i);
                assert(l[i].0 != c.0);
            }
            lemma_counted_exactly(t, live, s);
        }
    }
}

/// In a well-formed aggregator where no allocation was recorded over a live
/// one, the root's live bytes are exactly the sizes of the live allocations
/// added up, and its live count is the number of live allocations.
pub proof fn lemma_live_figures_exact(a: Aggregator)
    requires
        a.wf(),
        a.exact(),
        a.live_allocations@.dom().finite(),
    ensures
        a.root.live_bytes == live_total(a.live_allocations@),
        a.root.live_count == a.live_allocations@.dom().len(),
{
    let live = a.live_allocations@;
    let l = a.ledger@;
    assert(node_at(a.root, Seq::<FrameId>::empty()) == Some(a.root));
    assert(figures_ok_at(a.root, l, Seq::empty(), a.root));
    assert forall|ad: usize| #[trigger] live.dom().contains(ad) implies {
        let i = last_index(l, ad);
        &&& live.contains_key(ad)
        &&& i >= 0
        &&& l[i].3
        &&& l[i].1 == live[ad].size
    } by {
        assert(live.contains_key(ad));
    }
    assert forall|i: int| 0 <= i < l.len() && #[trigger] l[i].3 implies last_index(l, l[i].0) == i
        && live.dom().contains(l[i].0) by {}
    lemma_counted_exactly(l, live, live.dom());
}

/// The live bytes (or live allocations) of the nodes in `m`, added up, one
/// node at a time.
pub open spec fn add_child_live(m: Map<FrameId, FlameNode>, bytes: bool) -> spec_fn(nat, FrameId) -> nat {
    |acc: nat, k: FrameId| (acc + if bytes {
        m[k].live_bytes
    } else {
        m[k].live_count
    }) as nat
}

/// The live bytes (or live allocations) of the children of `n`, added up.
pub open spec fn children_live(n: FlameNode, bytes: bool) -> nat {
    n.children@.dom().fold(0nat, add_child_live(n.children@, bytes))
}

/// What `c` adds to the children of the node at `q` whose frames are in `ks`.
spec fn ext_weight(c: Contribution, q: Seq<FrameId>, ks: Set<FrameId>, bytes: bool) -> nat {
    if c.3 && q.is_prefix_of(c.2) && c.2.len() > q.len() && ks.contains(c.2[q.len() as int]) {
        if bytes {
            c.1 as nat
        } else {
            1
        }
    } else {
        0
    }
}

spec fn sum_ext(l: Seq<Contribution>, q: Seq<FrameId>, ks: Set<FrameId>, bytes: bool) -> nat
    decreases l.len(),
{
    if l.len() == 0 {
        0
    } else {
        sum_ext(l.drop_last(), q, ks, bytes) + ext_weight(l.last(), q, ks, bytes)
    }
}

proof fn lemma_sum_ext_within(l: Seq<Contribution>, q: Seq<FrameId>, ks: Set<FrameId>, bytes: bool)
    ensures
        sum_ext(l, q, ks, bytes) <= sum_through(l, q, bytes),
    decreases l.len(),
{
    if l.len() > 0 {
        lemma_sum_ext_within(l.drop_last(), q, ks, bytes);
    }
}

proof fn lemma_sum_ext_empty(l: Seq<Contribution>, q: Seq<FrameId>, bytes: bool)
    ensures
        sum_ext(l, q, Set::empty(), bytes) == 0,
    decreases l.len(),
{
    if l.len() > 0 {
        lemma_sum_ext_empty(l.drop_last(), q, bytes);
    }
}

proof fn lemma_sum_ext_insert(l: Seq<Contribution>, q: Seq<FrameId>, ks: Set<FrameId>, k: FrameId, bytes: bool)
    requires
        !ks.contains(k),
    ensures
        sum_ext(l, q, ks.insert(k), bytes) == sum_ext(l, q, ks, bytes) + sum_through(l, q.push(k), bytes),
    decreases l.len(),
{
    if l.len() > 0 {
        lemma_sum_ext_insert(l.drop_last(), q, ks, k, bytes);
        let c = l.last();
        let p = c.2;
        if c.3 && q.push(k).is_prefix_of(p) {
            assert(p[q.len() as int] == q.push(k)[q.len() as int]);
            assert(q =~= p.subrange(0, q.len() as int)) by {
                assert forall|j: int| 0 <= j < q.len() implies q[j] == p.subrange(0, q.len() as int)[j] by {
                    assert(q.push(k)[j] == p.subrange(0, q.len() + 1int)[j]);
                }
            }
        } else if c.3 && q.is_prefix_of(p) && p.len() > q.len() && p[q.len() as int] == k {
            assert(q.push(k) =~= p.subrange(0, q.len() + 1int));
        }
    }
}

proof fn lemma_children_fold(
    l: Seq<Contribution>,
    q: Seq<FrameId>,
    m: Map<FrameId, FlameNode>,
    ks: Set<FrameId>,
    bytes: bool,
)
    requires
        ks.finite(),
        forall|k: FrameId| #[trigger]
            ks.contains(k) ==> m.contains_key(k) && (if bytes {
                m[k].live_bytes as nat
            } else {
                m[k].live_count as nat
            }) == sum_through(l, q.push(k), bytes),
    ensures
        ks.fold(0nat, add_child_live(m, bytes)) == sum_ext(l, q, ks, bytes),
    decreases ks.len(),
{
    let f = add_child_live(m, bytes);
    assert(is_fun_commutative(f));
    if ks.len() == 0 {
        assert(ks =~= Set::<FrameId>::empty());
        lemma_fold_empty(0nat, f);
        lemma_sum_ext_empty(l, q, bytes);
    } else {
        let k = ks.choose();
        let rest = ks.remove(k);
        lemma_children_fold(l, q, m, rest, bytes);
        assert(rest.insert(k) =~= ks);
        lemma_fold_insert(rest, 0nat, f, k);
        lemma_sum_ext_insert(l, q, rest, k, bytes);
    }
}

proof fn lemma_node_at_push(t: FlameNode, q: Seq<FrameId>, k: FrameId)
    requires
        node_at(t, q) is Some,
        node_at(t, q)->0.children@.contains_key(k),
    ensures
        node_at(t, q.push(k)) == Some(node_at(t, q)->0.children@[k]),
    decreases q.len(),
{
    crate::tree::lemma_node_at_step(t, q.push(k));
    if q.len() > 0 {
        crate::tree::lemma_node_at_step(t, q);
        assert(q.push(k).drop_first() =~= q.drop_first().push(k));
        lemma_node_at_push(t.children@[q[0]], q.drop_first(), k);
    } else {
        assert(q.push(k).drop_first() =~= Seq::<FrameId>::empty());
        assert(q =~= Seq::<FrameId>::empty());
    }
}

/// In a well-formed aggregator no node's children together hold more live
/// bytes, or more live allocations, than the node itself.
pub proof fn lemma_children_within_parent(a: Aggregator, q: Seq<FrameId>)
    requires
        a.wf(),
        node_at(a.root, q) is Some,
        node_at(a.root, q)->0.children@.dom().finite(),
    ensures
        children_live(node_at(a.root, q)->0, true) <= node_at(a.root, q)->0.live_bytes,
        children_live(node_at(a.root, q)->0, false) <= node_at(a.root, q)->0.live_count,
{
    let n = node_at(a.root, q)->0;
    let l = a.ledger@;
    let m = n.children@;
    assert(figures_ok_at(a.root, l, q, n));
    assert forall|k: FrameId| #[trigger] m.dom().contains(k) implies m.contains_key(k) && m[k].live_bytes as nat
        == sum_through(l, q.push(k), true) && m[k].live_count as nat == sum_through(l, q.push(k), false) by {
        lemma_node_at_push(a.root, q, k);
        assert(figures_ok_at(a.root, l, q.push(k), m[k]));
    }
    lemma_children_fold(l, q, m, m.dom(), true);
    lemma_children_fold(l, q, m, m.dom(), false);
    lemma_sum_ext_within(l, q, m.dom(), true);
    lemma_sum_ext_within(l, q, m.dom(), false);
}

/// The root's live figures move with the live allocations: an allocation
/// adds its size and one allocation; a free of a live address takes off the
/// size and the count of the allocation it frees; a free of an address that
/// is not live changes nothing.
pub proof fn lemma_root_live_figures(old: Aggregator, new: Aggregator, event: AllocationEvent)
    requires
        event_effect(old, new, event),
    ensures
        match event {
            AllocationEvent::Alloc { size, .. } => {
                &&& new.root.live_bytes == old.root.live_bytes + size
                &&& new.root.live_count == old.root.live_count + 1
            },
            AllocationEvent::Free { address, .. } => if old.live_allocations@.contains_key(address) {
                &&& new.root.live_bytes == old.root.live_bytes - old.live_allocations@[address].size
                &&& new.root.live_count == old.root.live_count - 1
                &&& !new.live_allocations@.contains_key(address)
            } else {
                new.root == old.root
            },
        },
{
    match event {
        AllocationEvent::Alloc { address, size, thread_id, sequence, stack } => {
            let (m, n, ids) = intern_keys(old.interner@, old.next_frame_id as nat, stack@);
            let path = ids.skip(strip_start(new.symbol_table@, ids)).reverse();
            assert(path.take(0) =~= Seq::<FrameId>::empty());
            assert(node_at(new.root, path.take(0)) is Some);
        },
        AllocationEvent::Free { address, .. } => {
            if old.live_allocations@.contains_key(address) {
                let path = old.live_allocations@[address].stack@.reverse();
                assert(path.take(0) =~= Seq::<FrameId>::empty());
                assert(node_at(old.root, path.take(0)) is Some);
            }
        },
    }
}

/// An allocation at an address that is not live, followed by its free,
/// leaves the live allocations as they were and every node's live figures
/// as they were; a node that the allocation created is left with no live
/// bytes or allocations.
pub proof fn lemma_alloc_then_free(
    a0: Aggregator,
    a1: Aggregator,
    a2: Aggregator,
    alloc: AllocationEvent,
    free: AllocationEvent,
    p: Seq<FrameId>,
)
    requires
        alloc is Alloc,
        free is Free,
        free->Free_address == alloc->Alloc_address,
        !a0.live_allocations@.contains_key(alloc->Alloc_address),
        event_effect(a0, a1, alloc),
        event_effect(a1, a2, free),
    ensures
        a2.live_allocations@ == a0.live_allocations@,
        node_at(a2.root, p) is Some <==> node_at(a1.root, p) is Some,
        node_at(a0.root, p) is Some ==> {
            &&& node_at(a2.root, p) is Some
            &&& node_at(a2.root, p)->0.live_bytes == node_at(a0.root, p)->0.live_bytes
            &&& node_at(a2.root, p)->0.live_count == node_at(a0.root, p)->0.live_count
        },
        node_at(a0.root, p) is None && node_at(a2.root, p) is Some ==> {
            &&& node_at(a2.root, p)->0.live_bytes == 0
            &&& node_at(a2.root, p)->0.live_count == 0
        },
{
    let address = alloc->Alloc_address;
    let size = alloc->Alloc_size;
    let stack = alloc->Alloc_stack;
    let (m, n, ids) = intern_keys(a0.interner@, a0.next_frame_id as nat, stack@);
    let path = ids.skip(strip_start(a1.symbol_table@, ids)).reverse();
    assert(a1.live_allocations@.contains_key(address));
    let la = a1.live_allocations@[address];
    assert(la.stack@.reverse() == path);
    assert(a2.live_allocations@ =~= a0.live_allocations@);
    if p.is_prefix_of(path) {
        let k = p.len() as int;
        assert(p =~= path.take(k));
        assert(node_at(a1.root, path.take(k)) is Some);
    }
}

/// Interning a key twice gives the same id both times, and the second time
/// changes nothing.
pub proof fn lemma_intern_twice(
    a0: Aggregator,
    a1: Aggregator,
    a2: Aggregator,
    key: FrameKey,
    first: FrameId,
    second: FrameId,
)
    requires
        intern_effect(a0, a1, key, first),
        intern_effect(a1, a2, key, second),
    ensures
        first == second,
        a2.interner@ == a1.interner@,
        a2.next_frame_id == a1.next_frame_id,
        a2.symbol_table@ == a1.symbol_table@,
{
}

/// Interning two different keys gives two different ids.
pub proof fn lemma_intern_distinct(
    a0: Aggregator,
    a1: Aggregator,
    a2: Aggregator,
    k1: FrameKey,
    k2: FrameKey,
    i1: FrameId,
    i2: FrameId,
)
    requires
        a0.interner_wf(),
        k1 != k2,
        intern_effect(a0, a1, k1, i1),
        intern_effect(a1, a2, k2, i2),
    ensures
        i1 != i2,
{
    if a0.interner@.contains_key(k1) {
        assert(1 <= i1 < a0.next_frame_id);
    }
    if a1.interner@.contains_key(k2) {
        if a0.interner@.contains_key(k2) {
            assert(a1.interner@[k2] == a0.interner@[k2]);
            assert(a0.interner@[k2] < a0.next_frame_id);
        } else {
            assert(a1.interner@ == a0.interner@.insert(k1, i1));
        }
    }
}

/// Two symbols say the same: same name, module and address.
pub open spec fn same_symbol(x: SymbolInfo, y: SymbolInfo) -> bool {
    &&& x.name@ == y.name@
    &&& x.module@ == y.module@
    &&& x.address == y.address
}

/// Two live allocations record the same allocation.
pub open spec fn same_live(x: LiveAllocation, y: LiveAllocation) -> bool {
    &&& x.address == y.address
    &&& x.size == y.size
    &&& x.stack@ == y.stack@
    &&& x.thread_id == y.thread_id
    &&& x.sequence == y.sequence
}

/// Two aggregators hold the same trie figures, interned frames, symbols and
/// live allocations.
pub open spec fn same_state(a: Aggregator, b: Aggregator) -> bool {
    &&& same_tree(a.root, b.root)
    &&& a.interner@ == b.interner@
    &&& a.next_frame_id == b.next_frame_id
    &&& a.symbol_table@.dom() == b.symbol_table@.dom()
    &&& forall|id: FrameId| #[trigger]
        a.symbol_table@.contains_key(id) ==> same_symbol(a.symbol_table@[id], b.symbol_table@[id])
    &&& a.live_allocations@.dom() == b.live_allocations@.dom()
    &&& forall|ad: usize| #[trigger]
        a.live_allocations@.contains_key(ad) ==> same_live(a.live_allocations@[ad], b.live_allocations@[ad])
}

/// Some key that `m` lacks has the id `id` in `m1`.
spec fn fresh_id(m: Map<FrameKey, FrameId>, m1: Map<FrameKey, FrameId>, id: nat) -> bool {
    exists|k: FrameKey| !m.contains_key(k) && #[trigger] m1.contains_key(k) && m1[k] == id
}

proof fn lemma_intern_keys_fresh(m: Map<FrameKey, FrameId>, next: nat, keys: Seq<FrameKey>)
    requires
        intern_keys(m, next, keys).1 <= u32::MAX,
    ensures
        ({
            let (m1, n1, ids) = intern_keys(m, next, keys);
            &&& next <= n1
            &&& forall|k: FrameKey| #[trigger] m.contains_key(k) ==> m1.contains_key(k) && m1[k] == m[k]
            &&& forall|id: nat| next <= id < n1 ==> #[trigger] fresh_id(m, m1, id)
        }),
    decreases keys.len(),
{
    if keys.len() > 0 {
        lemma_intern_keys_monotone(m, next, keys, keys.len() - 1);
        assert(keys.take(keys.len() - 1) =~= keys.drop_last());
        lemma_intern_keys_fresh(m, next, keys.drop_last());
        let (m0, n0, ids0) = intern_keys(m, next, keys.drop_last());
        let k = keys.last();
        if !m0.contains_key(k) {
            let (m1, n1, ids) = intern_keys(m, next, keys);
            assert forall|id: nat| next <= id < n1 implies #[trigger] fresh_id(m, m1, id) by {
                if id < n0 {
                    assert(fresh_id(m, m0, id));
                    let k2 = choose|k2: FrameKey| !m.contains_key(k2) && #[trigger] m0.contains_key(k2) && m0[k2] == id;
                    assert(k2 != k);
                    assert(m1.contains_key(k2) && m1[k2] == id);
                } else {
                    assert(!m.contains_key(k));
                    assert(m1.contains_key(k) && m1[k] == id);
                }
            }
        }
    }
}

proof fn lemma_first_kept_agree(t1: Map<FrameId, SymbolInfo>, t2: Map<FrameId, SymbolInfo>, ids: Seq<FrameId>, j: int)
    requires
        t1.dom() == t2.dom(),
        forall|id: FrameId| #[trigger] t1.contains_key(id) ==> same_symbol(t1[id], t2[id]),
    ensures
        first_kept_from(t1, ids, j) == first_kept_from(t2, ids, j),
    decreases ids.len() - j,
{
    if 0 <= j < ids.len() {
        assert(t1.contains_key(ids[j]) == t2.contains_key(ids[j]));
        assert(strips(t1, ids[j]) == strips(t2, ids[j]));
        lemma_first_kept_agree(t1, t2, ids, j + 1);
    }
}

/// Two aggregators in the same state that fold in the same event end in the
/// same state: the aggregation is deterministic.
pub proof fn lemma_deterministic(a: Aggregator, b: Aggregator, a2: Aggregator, b2: Aggregator, event: AllocationEvent)
    requires
        same_state(a, b),
        match event {
            AllocationEvent::Alloc { size, stack, .. } => a.can_record(stack@, size),
            AllocationEvent::Free { .. } => true,
        },
        event_effect(a, a2, event),
        event_effect(b, b2, event),
    ensures
        same_state(a2, b2),
{
    match event {
        AllocationEvent::Alloc { address, size, thread_id, sequence, stack } => {
            let (m, n, ids) = intern_keys(a.interner@, a.next_frame_id as nat, stack@);
            lemma_intern_keys_fresh(a.interner@, a.next_frame_id as nat, stack@);
            let ta = a2.symbol_table@;
            let tb = b2.symbol_table@;
            assert(ta.dom() =~= tb.dom()) by {
                assert forall|id: FrameId| ta.contains_key(id) <==> tb.contains_key(id) by {
                    assert(a.symbol_table@.contains_key(id) == b.symbol_table@.contains_key(id));
                }
            }
            assert forall|id: FrameId| #[trigger] ta.contains_key(id) implies same_symbol(ta[id], tb[id]) by {
                if a.symbol_table@.contains_key(id) {
                    assert(b.symbol_table@.contains_key(id));
                } else {
                    assert(a.next_frame_id <= id < n);
                    assert(fresh_id(a.interner@, m, id as nat));
                    let k = choose|k: FrameKey| !a.interner@.contains_key(k) && #[trigger] m.contains_key(k) && m[k] == id as nat;
                    assert(is_placeholder(ta[m[k]], k));
                    assert(is_placeholder(tb[m[k]], k));
                }
            }
            lemma_first_kept_agree(ta, tb, ids, 0);
            let path = ids.skip(strip_start(ta, ids)).reverse();
            assert(path == ids.skip(strip_start(tb, ids)).reverse());
            assert forall|p: Seq<FrameId>| #![trigger node_at(a2.root, p)] #![trigger node_at(b2.root, p)]
                (node_at(a2.root, p) is Some <==> node_at(b2.root, p) is Some) && (node_at(a2.root, p) is Some
                    ==> same_figures(node_at(a2.root, p).unwrap(), node_at(b2.root, p).unwrap())) by {
                assert(node_at(a.root, p) is Some <==> node_at(b.root, p) is Some);
                if p.is_prefix_of(path) {
                    let k = p.len() as int;
                    assert(p =~= path.take(k));
                    assert(node_at(a2.root, path.take(k)) is Some);
                    assert(node_at(b2.root, path.take(k)) is Some);
                } else {
                    assert(node_at(a2.root, p) == node_at(a.root, p));
                    assert(node_at(b2.root, p) == node_at(b.root, p));
                }
            }
            assert(a2.live_allocations@.dom() =~= b2.live_allocations@.dom());
            assert forall|ad: usize| #[trigger] a2.live_allocations@.contains_key(ad) implies same_live(
                a2.live_allocations@[ad],
                b2.live_allocations@[ad],
            ) by {
                if ad != address {
                    assert(a.live_allocations@.contains_key(ad));
                }
            }
        },
        AllocationEvent::Free { address, .. } => {
            if a.live_allocations@.contains_key(address) {
                assert(b.live_allocations@.contains_key(address));
                let la = a.live_allocations@[address];
                let lb = b.live_allocations@[address];
                assert(same_live(la, lb));
                let path = la.stack@.reverse();
                assert forall|p: Seq<FrameId>| #![trigger node_at(a2.root, p)] #![trigger node_at(b2.root, p)]
                    (node_at(a2.root, p) is Some <==> node_at(b2.root, p) is Some) && (node_at(a2.root, p) is Some
                        ==> same_figures(node_at(a2.root, p).unwrap(), node_at(b2.root, p).unwrap())) by {
                    assert(node_at(a.root, p) is Some <==> node_at(b.root, p) is Some);
                    if p.is_prefix_of(path) {
                        let k = p.len() as int;
                        assert(p =~= path.take(k));
                        assert(node_at(a.root, path.take(k)) is Some ==> node_at(a2.root, path.take(k)) is Some);
                        assert(node_at(b.root, path.take(k)) is Some ==> node_at(b2.root, path.take(k)) is Some);
                    } else {
                        assert(node_at(a2.root, p) == node_at(a.root, p));
                        assert(node_at(b2.root, p) == node_at(b.root, p));
                    }
                }
                assert(a2.live_allocations@.dom() =~= b2.live_allocations@.dom());
            } else {
                assert(!b.live_allocations@.contains_key(address));
            }
        },
    }
}

/// Interning two keys one after the other gives the same id exactly when
/// the keys are the same.
pub proof fn lemma_intern_same_id_iff_same_key(
    a0: Aggregator,
    a1: Aggregator,
    a2: Aggregator,
    k1: FrameKey,
    k2: FrameKey,
    i1: FrameId,
    i2: FrameId,
)
    requires
        a0.interner_wf(),
        intern_effect(a0, a1, k1, i1),
        intern_effect(a1, a2, k2, i2),
    ensures
        (i1 == i2) <==> (k1 == k2),
{
    if k1 == k2 {
        lemma_intern_twice(a0, a1, a2, k1, i1, i2);
    } else {
        lemma_intern_distinct(a0, a1, a2, k1, k2, i1, i2);
    }
}

impl Default for Aggregator {
    fn default() -> (r: Self)
        ensures
            r.wf(),
            r.root.frame == 0,
            r.root.live_bytes == 0,
            r.root.total_bytes == 0,
            r.root.children@ == Map::<FrameId, FlameNode>::empty(),
            r.symbol_table@ == Map::<FrameId, SymbolInfo>::empty(),
            r.interner@ == Map::<FrameKey, FrameId>::empty(),
            r.next_frame_id == 1,
            r.live_allocations@ == Map::<usize, LiveAllocation>::empty(),
    {
        Self::new()
    }
}

} // verus!
