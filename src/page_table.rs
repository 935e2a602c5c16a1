//! The SV39 three-level page table.
//!
//! Each node is one allocated frame of 512 entries. The table keeps the
//! entries of all its nodes in one array, node `i`'s entry `s` at
//! `i * 512 + s`, and beside each inner entry the number of the node it points
//! to. Node 0 is the root.
use vstd::prelude::*;
use crate::address::{PhysAddr, PhysPageNum, VirtAddr, VirtPageNum, page_offset_of, page_start};
use crate::frame_allocator::{FrameAllocator, FrameTracker};
use crate::pte::{PTEFlags, PageTableEntry, ppn_limit};

verus! {

/// Why a page-table update was refused.
#[derive(Clone, Copy, PartialEq, Eq, Structural, Debug)]
pub enum PageTableError {
    /// The page is mapped already.
    AlreadyMapped,
    /// The page is not mapped.
    NotMapped,
    /// No frame was left for a new node.
    OutOfFrames,
}

/// Where entry `s` of node `i` stands in the flat array.
pub open spec fn slot_index(i: int, s: int) -> int {
    i * 512 + s
}

proof fn lemma_slot_index(i: int, s: int, i2: int, s2: int)
    requires
        0 <= s < 512,
        0 <= s2 < 512,
        0 <= i,
        0 <= i2,
    ensures
        (slot_index(i, s) == slot_index(i2, s2)) <==> (i == i2 && s == s2),
        0 <= slot_index(i, s),
{
    assert((i * 512 + s == i2 * 512 + s2) ==> (i == i2 && s == s2)) by (nonlinear_arith)
        requires
            0 <= s < 512,
            0 <= s2 < 512,
    ;
    assert(0 <= i * 512) by (nonlinear_arith)
        requires
            0 <= i,
    ;
}

proof fn lemma_slot_bound(i: int, s: int, n: int)
    requires
        0 <= s < 512,
        0 <= i < n,
    ensures
        0 <= slot_index(i, s) < n * 512,
{
    assert(0 <= i * 512 + s < n * 512) by (nonlinear_arith)
        requires
            0 <= s < 512,
            0 <= i < n,
    ;
}

/// A page table: a root node and the inner nodes below it.
pub struct PageTable {
    frames: Vec<FrameTracker>,
    levels: Vec<usize>,
    parents: Vec<usize>,
    parent_slots: Vec<usize>,
    entries: Vec<PageTableEntry>,
    children: Vec<usize>,
}

impl PageTable {
    /// Number of nodes.
    pub closed spec fn node_count(&self) -> int {
        self.levels@.len() as int
    }

    pub closed spec fn entry(&self, i: int, s: int) -> PageTableEntry {
        self.entries@[slot_index(i, s)]
    }

    pub closed spec fn child(&self, i: int, s: int) -> int {
        self.children@[slot_index(i, s)] as int
    }

    pub closed spec fn level(&self, i: int) -> int {
        self.levels@[i] as int
    }

    /// The physical page of the root node.
    pub closed spec fn root_ppn(&self) -> u64 {
        self.frames@[0].ppn().0
    }

    /// The physical pages of all nodes.
    pub closed spec fn node_ppns(&self) -> Seq<u64> {
        self.frames@.map_values(|f: FrameTracker| f.ppn().0)
    }

    /// The leaf entry that a walk along indices `a`, `b`, `c` reaches, if every
    /// entry on the way is valid.
    pub closed spec fn lookup(&self, a: int, b: int, c: int) -> Option<PageTableEntry> {
        let e0 = self.entry(0, a);
        if !e0.valid_spec() {
            None
        } else {
            let n1 = self.child(0, a);
            let e1 = self.entry(n1, b);
            if !e1.valid_spec() {
                None
            } else {
                let n2 = self.child(n1, b);
                let e2 = self.entry(n2, c);
                if !e2.valid_spec() {
                    None
                } else {
                    Some(e2)
                }
            }
        }
    }

    /// The leaf entry of page `vpn`, if it is mapped.
    pub open spec fn lookup_vpn(&self, vpn: VirtPageNum) -> Option<PageTableEntry> {
        self.lookup(vpn.index_at(0), vpn.index_at(1), vpn.index_at(2))
    }

    pub closed spec fn wf(&self) -> bool {
        let n = self.levels@.len() as int;
        &&& n >= 1
        &&& n * 512 <= usize::MAX
        &&& self.frames@.len() == n
        &&& self.parents@.len() == n
        &&& self.parent_slots@.len() == n
        &&& self.entries@.len() == n * 512
        &&& self.children@.len() == n * 512
        &&& self.level(0) == 0
        &&& forall|i: int| 0 <= i < n ==> #[trigger] self.level(i) <= 2
        &&& forall|i: int| 0 < i < n ==> {
            let p = #[trigger] self.parents@[i] as int;
            let s = self.parent_slots@[i] as int;
            &&& 0 <= p < n
            &&& 0 <= s < 512
            &&& self.level(p) + 1 == self.level(i)
            &&& self.entry(p, s).valid_spec()
            &&& self.child(p, s) == i
        }
        &&& forall|i: int, s: int| 0 <= i < n && 0 <= s < 512 && self.level(i) < 2
            && (#[trigger] self.entry(i, s)).valid_spec() ==> {
            let c = self.child(i, s);
            &&& 0 < c < n
            &&& self.level(c) == self.level(i) + 1
            &&& self.parents@[c] == i
            &&& self.parent_slots@[c] == s
            &&& self.entry(i, s).ppn_spec() == self.frames@[c].ppn().0
        }
    }

    /// Whether `(a, b, c)` is a walk: three indices below 512.
    pub open spec fn is_walk(a: int, b: int, c: int) -> bool {
        0 <= a < 512 && 0 <= b < 512 && 0 <= c < 512
    }

    /// Node `n` is the leaf node that the walk `(a, b, ..)` passes through.
    pub closed spec fn leaf_node_of(&self, a: int, b: int, n: int) -> bool {
        &&& 0 <= n < self.node_count()
        &&& self.level(n) == 2
        &&& self.entry(0, a).valid_spec()
        &&& self.entry(self.child(0, a), b).valid_spec()
        &&& self.child(self.child(0, a), b) == n
    }

    fn entry_at(&self, i: usize, s: usize) -> (r: PageTableEntry)
        requires
            self.wf(),
            i < self.node_count(),
            s < 512,
        ensures
            r == self.entry(i as int, s as int),
    {
        proof {
            lemma_slot_bound(i as int, s as int, self.node_count());
        }
        self.entries[i * 512 + s]
    }

    fn child_at(&self, i: usize, s: usize) -> (r: usize)
        requires
            self.wf(),
            i < self.node_count(),
            s < 512,
        ensures
            r == self.child(i as int, s as int),
    {
        proof {
            lemma_slot_bound(i as int, s as int, self.node_count());
        }
        self.children[i * 512 + s]
    }

    /// A table of one empty root node held in `root`.
    pub fn new(root: FrameTracker) -> (r: Self)
        ensures
            r.wf(),
            r.node_count() == 1,
            r.root_ppn() == root.ppn().0,
            forall|a: int, b: int, c: int| Self::is_walk(a, b, c) ==> #[trigger] r.lookup(a, b, c) is None,
    {
        let mut pt = PageTable {
            frames: Vec::new(),
            levels: Vec::new(),
            parents: Vec::new(),
            parent_slots: Vec::new(),
            entries: Vec::new(),
            children: Vec::new(),
        };
        let root_ppn = root.ppn();
        pt.frames.push(root);
        pt.levels.push(0);
        pt.parents.push(0);
        pt.parent_slots.push(0);
        let mut k: usize = 0;
        while k < 512
            invariant
                k <= 512,
                pt.frames@.len() == 1,
                pt.frames@[0].ppn() == root_ppn,
                pt.levels@ == seq![0usize],
                pt.parents@.len() == 1,
                pt.parent_slots@.len() == 1,
                pt.entries@.len() == k,
                pt.children@.len() == k,
                forall|j: int| 0 <= j < k ==> pt.entries@[j].bits == 0,
            decreases 512 - k,
        {
            pt.entries.push(PageTableEntry::empty());
            pt.children.push(0);
            k = k + 1;
        }
        proof {
            assert forall|i: int, s: int| 0 <= i < pt.node_count() && 0 <= s < 512
                implies !(#[trigger] pt.entry(i, s)).valid_spec() by {
                assert(i == 0);
                assert(pt.entries@[s].bits == 0);
            }
            assert forall|a: int, b: int, c: int| Self::is_walk(a, b, c) implies #[trigger] pt.lookup(a, b, c) is None by {
                assert(!pt.entry(0, a).valid_spec());
            }
        }
        pt
    }

    /// Adds an empty node in `frame` below entry `s` of node `i`, which must be
    /// an invalid entry of an inner node. No walk changes its result.
    fn add_child(&mut self, i: usize, s: usize, frame: FrameTracker) -> (c: usize)
        requires
            old(self).wf(),
            i < old(self).node_count(),
            s < 512,
            old(self).level(i as int) < 2,
            !old(self).entry(i as int, s as int).valid_spec(),
            frame.ppn().0 < ppn_limit(),
            (old(self).node_count() + 1) * 512 <= usize::MAX,
        ensures
            final(self).wf(),
            c == old(self).node_count(),
            final(self).node_count() == old(self).node_count() + 1,
            final(self).root_ppn() == old(self).root_ppn(),
            final(self).entry(i as int, s as int).valid_spec(),
            final(self).child(i as int, s as int) == c,
            final(self).level(c as int) == old(self).level(i as int) + 1,
            forall|j: int, t: int| 0 <= j < old(self).node_count() && 0 <= t < 512 && (j != i || t != s)
                ==> #[trigger] final(self).entry(j, t) == old(self).entry(j, t)
                    && final(self).child(j, t) == old(self).child(j, t),
            forall|j: int| 0 <= j < old(self).node_count() ==> #[trigger] final(self).level(j) == old(self).level(j),
            forall|a: int, b: int, d: int| Self::is_walk(a, b, d) ==> #[trigger] final(self).lookup(a, b, d) == old(self).lookup(a, b, d),
    {
        let n = self.levels.len();
        let lvl = self.levels[i] + 1;
        let ppn = frame.ppn();
        self.frames.push(frame);
        self.levels.push(lvl);
        self.parents.push(i);
        self.parent_slots.push(s);
        let mut k: usize = 0;
        while k < 512
            invariant
                k <= 512,
                n == old(self).node_count(),
                (n + 1) * 512 <= usize::MAX,
                self.frames@.len() == n + 1,
                forall|j: int| 0 <= j < n ==> self.frames@[j] == old(self).frames@[j],
                self.frames@[n as int].ppn() == ppn,
                self.levels@ == old(self).levels@.push(lvl),
                self.parents@ == old(self).parents@.push(i),
                self.parent_slots@ == old(self).parent_slots@.push(s),
                self.entries@.len() == n * 512 + k,
                self.children@.len() == n * 512 + k,
                forall|j: int| 0 <= j < n * 512 ==> self.entries@[j] == old(self).entries@[j],
                forall|j: int| 0 <= j < n * 512 ==> self.children@[j] == old(self).children@[j],
                forall|j: int| n * 512 <= j < n * 512 + k ==> self.entries@[j].bits == 0,
            decreases 512 - k,
        {
            self.entries.push(PageTableEntry::empty());
            self.children.push(0);
            k = k + 1;
        }
        proof {
            lemma_slot_bound(i as int, s as int, n as int);
        }
        let at = i * 512 + s;
        self.entries.set(at, PageTableEntry::new(ppn, PTEFlags::from_bits(PTEFlags::V)));
        self.children.set(at, n);
        proof {
            let old_pt = *old(self);
            assert(self.entry(i as int, s as int).valid_spec()) by {
                assert(self.entries@[at as int].bits % 2 == 1) by (nonlinear_arith)
                    requires
                        self.entries@[at as int].bits == ppn.0 * 1024 + 1,
                ;
            }
            assert forall|j: int, t: int| 0 <= j < n && 0 <= t < 512 && (j != i || t != s)
                implies #[trigger] self.entry(j, t) == old_pt.entry(j, t) && self.child(j, t) == old_pt.child(j, t) by {
                lemma_slot_index(j, t, i as int, s as int);
                lemma_slot_bound(j, t, n as int);
            }
            assert forall|t: int| 0 <= t < 512 implies !(#[trigger] self.entry(n as int, t)).valid_spec() by {
                lemma_slot_index(n as int, t, i as int, s as int);
                assert(slot_index(n as int, t) >= n * 512);
                assert(slot_index(n as int, t) < n * 512 + 512);
            }
            assert forall|j: int| 0 < j < self.node_count() implies {
                let p = #[trigger] self.parents@[j] as int;
                let q = self.parent_slots@[j] as int;
                &&& 0 <= p < self.node_count()
                &&& 0 <= q < 512
                &&& self.level(p) + 1 == self.level(j)
                &&& self.entry(p, q).valid_spec()
                &&& self.child(p, q) == j
            } by {
                if j < n {
                    let p = old_pt.parents@[j] as int;
                    let q = old_pt.parent_slots@[j] as int;
                    lemma_slot_index(p, q, i as int, s as int);
                }
            }
            assert forall|j: int, t: int| 0 <= j < self.node_count() && 0 <= t < 512 && self.level(j) < 2
                && (#[trigger] self.entry(j, t)).valid_spec() implies {
                let c = self.child(j, t);
                &&& 0 < c < self.node_count()
                &&& self.level(c) == self.level(j) + 1
                &&& self.parents@[c] == j
                &&& self.parent_slots@[c] == t
                &&& self.entry(j, t).ppn_spec() == self.frames@[c].ppn().0
            } by {
                lemma_slot_index(j, t, i as int, s as int);
            }
            assert(self.levels@.len() * 512 <= usize::MAX);
            assert(self.entries@.len() == self.levels@.len() * 512);
            assert(self.level(0) == 0);
            assert forall|j: int| 0 <= j < self.node_count() implies #[trigger] self.level(j) <= 2 by {
                if j < n {
                    assert(self.levels@[j] == old_pt.levels@[j]);
                    assert(old_pt.level(j) <= 2);
                }
            }
            assert forall|a: int, b: int, d: int| Self::is_walk(a, b, d)
                implies #[trigger] self.lookup(a, b, d) == old_pt.lookup(a, b, d) by {
                let n1 = old_pt.child(0, a);
                if old_pt.entry(0, a).valid_spec() {
                    if old_pt.entry(n1, b).valid_spec() {
                        let n2 = old_pt.child(n1, b);
                        assert(self.entry(n2, d) == old_pt.entry(n2, d));
                    }
                }
            }
        }
        n
    }

    /// Two walks that pass through the same leaf node share their first two indices.
    proof fn lemma_leaf_node_unique(&self, a: int, b: int, a2: int, b2: int, n: int)
        requires
            self.wf(),
            Self::is_walk(a, b, 0),
            Self::is_walk(a2, b2, 0),
            self.leaf_node_of(a, b, n),
            self.leaf_node_of(a2, b2, n),
        ensures
            a == a2,
            b == b2,
    {
        let n1 = self.child(0, a);
        let m1 = self.child(0, a2);
        assert(self.level(0) == 0);
        assert(self.entry(0, a).valid_spec());
        assert(self.entry(0, a2).valid_spec());
        assert(self.level(n1) == 1 && self.level(m1) == 1);
        assert(self.entry(n1, b).valid_spec());
        assert(self.entry(m1, b2).valid_spec());
        assert(self.parents@[n] == n1 && self.parent_slots@[n] == b);
        assert(self.parents@[n] == m1 && self.parent_slots@[n] == b2);
        assert(self.parent_slots@[n1] == a && self.parent_slots@[m1] == a2);
    }

    /// Sets entry `c` of leaf node `n` to `e`. Only the walk through that entry
    /// changes its result.
    fn set_leaf(&mut self, n: usize, c: usize, e: PageTableEntry)
        requires
            old(self).wf(),
            n < old(self).node_count(),
            old(self).level(n as int) == 2,
            c < 512,
        ensures
            final(self).wf(),
            final(self).node_count() == old(self).node_count(),
            final(self).root_ppn() == old(self).root_ppn(),
            forall|a: int, b: int, d: int| Self::is_walk(a, b, d) ==> {
                if old(self).leaf_node_of(a, b, n as int) && d == c {
                    #[trigger] final(self).lookup(a, b, d) == (if e.valid_spec() { Some(e) } else { None::<PageTableEntry> })
                } else {
                    final(self).lookup(a, b, d) == old(self).lookup(a, b, d)
                }
            },
            forall|a: int, b: int| Self::is_walk(a, b, 0) ==>
                (#[trigger] final(self).leaf_node_of(a, b, n as int) == old(self).leaf_node_of(a, b, n as int)),
    {
        proof {
            lemma_slot_bound(n as int, c as int, self.node_count());
        }
        let at = n * 512 + c;
        self.entries.set(at, e);
        proof {
            let old_pt = *old(self);
            assert forall|j: int, t: int| 0 <= j < self.node_count() && 0 <= t < 512 && (j != n || t != c)
                implies #[trigger] self.entry(j, t) == old_pt.entry(j, t) by {
                lemma_slot_index(j, t, n as int, c as int);
            }
            assert forall|j: int| 0 <= j < self.node_count() implies #[trigger] self.level(j) <= 2 by {
                assert(old_pt.level(j) <= 2);
            }
            assert forall|j: int| 0 < j < self.node_count() implies {
                let p = #[trigger] self.parents@[j] as int;
                let q = self.parent_slots@[j] as int;
                &&& 0 <= p < self.node_count()
                &&& 0 <= q < 512
                &&& self.level(p) + 1 == self.level(j)
                &&& self.entry(p, q).valid_spec()
                &&& self.child(p, q) == j
            } by {
                let p = old_pt.parents@[j] as int;
                let q = old_pt.parent_slots@[j] as int;
                assert(old_pt.level(j) <= 2);
                assert(p != n);
            }
            assert forall|j: int, t: int| 0 <= j < self.node_count() && 0 <= t < 512 && self.level(j) < 2
                && (#[trigger] self.entry(j, t)).valid_spec() implies {
                let ch = self.child(j, t);
                &&& 0 < ch < self.node_count()
                &&& self.level(ch) == self.level(j) + 1
                &&& self.parents@[ch] == j
                &&& self.parent_slots@[ch] == t
                &&& self.entry(j, t).ppn_spec() == self.frames@[ch].ppn().0
            } by {
                assert(j != n);
                assert(self.entry(j, t) == old_pt.entry(j, t));
            }
            assert forall|a: int, b: int| Self::is_walk(a, b, 0) implies
                (#[trigger] self.leaf_node_of(a, b, n as int) == old_pt.leaf_node_of(a, b, n as int)) by {
                assert(old_pt.level(0) == 0);
                assert(self.entry(0, a) == old_pt.entry(0, a));
                if old_pt.entry(0, a).valid_spec() {
                    let n1 = old_pt.child(0, a);
                    assert(old_pt.level(n1) == 1);
                    assert(self.entry(n1, b) == old_pt.entry(n1, b));
                }
            }
            assert forall|a: int, b: int, d: int| Self::is_walk(a, b, d) implies {
                if old_pt.leaf_node_of(a, b, n as int) && d == c {
                    #[trigger] self.lookup(a, b, d) == (if e.valid_spec() { Some(e) } else { None::<PageTableEntry> })
                } else {
                    self.lookup(a, b, d) == old_pt.lookup(a, b, d)
                }
            } by {
                assert(old_pt.level(0) == 0);
                assert(self.entry(0, a) == old_pt.entry(0, a));
                if old_pt.entry(0, a).valid_spec() {
                    let n1 = old_pt.child(0, a);
                    assert(old_pt.level(n1) == 1);
                    assert(self.entry(n1, b) == old_pt.entry(n1, b));
                    if old_pt.entry(n1, b).valid_spec() {
                        let n2 = old_pt.child(n1, b);
                        assert(old_pt.level(n2) == 2);
                        if n2 != n || d != c {
                            assert(self.entry(n2, d) == old_pt.entry(n2, d));
                        }
                    }
                }
            }
        }
    }

    /// The walk of `vpn`, with indices below 512.
    fn walk_of(vpn: VirtPageNum) -> (r: (usize, usize, usize))
        ensures
            r.0 == vpn.index_at(0),
            r.1 == vpn.index_at(1),
            r.2 == vpn.index_at(2),
            Self::is_walk(r.0 as int, r.1 as int, r.2 as int),
    {
        let idx = vpn.indexes();
        assert(idx@[0] == vpn.index_at(0) as usize);
        assert(idx@[1] == vpn.index_at(1) as usize);
        assert(idx@[2] == vpn.index_at(2) as usize);
        (idx[0], idx[1], idx[2])
    }

    /// The leaf node on the walk of `vpn`, adding the inner nodes that are
    /// missing, each in a frame from `alloc`.
    fn find_or_create(&mut self, vpn: VirtPageNum, alloc: &mut FrameAllocator) -> (r: Result<usize, PageTableError>)
        requires
            old(self).wf(),
            old(alloc).wf(),
            old(alloc).end() <= ppn_limit(),
        ensures
            final(self).wf(),
            final(self).root_ppn() == old(self).root_ppn(),
            final(self).node_count() <= old(self).node_count() + 2,
            final(alloc).wf(),
            final(alloc).start() == old(alloc).start(),
            final(alloc).end() == old(alloc).end(),
            forall|p: u64| old(alloc).is_allocated(p) ==> #[trigger] final(alloc).is_allocated(p),
            final(alloc).free_count() >= old(alloc).free_count() - 2,
            forall|a: int, b: int, d: int| Self::is_walk(a, b, d) ==> #[trigger] final(self).lookup(a, b, d) == old(self).lookup(a, b, d),
            old(self).lookup_vpn(vpn) is Some ==> *final(self) == *old(self) && *final(alloc) == *old(alloc),
            r matches Ok(n) ==> final(self).leaf_node_of(vpn.index_at(0), vpn.index_at(1), n as int),
            r is Err ==> r == Err::<usize, PageTableError>(PageTableError::OutOfFrames) && old(self).lookup_vpn(vpn) is None
                && (old(alloc).free_count() < 2 || old(self).node_count() + 2 > usize::MAX / 512),
    {
        let (a, b, c) = Self::walk_of(vpn);
        proof {
            assert(self.level(0) == 0);
        }
        let n1: usize;
        if self.entry_at(0, a).is_valid() {
            n1 = self.child_at(0, a);
        } else {
            if self.levels.len() + 1 > usize::MAX / 512 {
                return Err(PageTableError::OutOfFrames);
            }
            proof {
                let m = self.node_count() + 1;
                assert(m * 512 <= usize::MAX) by (nonlinear_arith)
                    requires
                        m <= usize::MAX / 512,
                ;
            }
            match alloc.frame_alloc() {
                None => {
                    return Err(PageTableError::OutOfFrames);
                },
                Some(f) => {
                    n1 = self.add_child(0, a, f);
                },
            }
        }
        assert(self.level(n1 as int) == 1);
        let ghost mid_alloc = *alloc;
        let ghost mid_pt = *self;
        let n2: usize;
        if self.entry_at(n1, b).is_valid() {
            n2 = self.child_at(n1, b);
        } else {
            if self.levels.len() + 1 > usize::MAX / 512 {
                return Err(PageTableError::OutOfFrames);
            }
            proof {
                let m = self.node_count() + 1;
                assert(m * 512 <= usize::MAX) by (nonlinear_arith)
                    requires
                        m <= usize::MAX / 512,
                ;
            }
            match alloc.frame_alloc() {
                None => {
                    return Err(PageTableError::OutOfFrames);
                },
                Some(f) => {
                    n2 = self.add_child(n1, b, f);
                    assert(self.entry(0, a as int) == mid_pt.entry(0, a as int));
                    assert(self.child(0, a as int) == mid_pt.child(0, a as int));
                },
            }
        }
        Ok(n2)
    }

    /// Maps page `vpn` to frame `ppn` with `flags` and the valid bit; refused
    /// where `vpn` is mapped already, or where no frame is left for a node.
    pub fn map(&mut self, vpn: VirtPageNum, ppn: PhysPageNum, flags: PTEFlags, alloc: &mut FrameAllocator)
        -> (r: Result<(), PageTableError>)
        requires
            old(self).wf(),
            old(alloc).wf(),
            old(alloc).end() <= ppn_limit(),
            ppn.0 < ppn_limit(),
        ensures
            final(self).wf(),
            final(self).root_ppn() == old(self).root_ppn(),
            final(self).node_count() <= old(self).node_count() + 2,
            final(alloc).wf(),
            final(alloc).start() == old(alloc).start(),
            final(alloc).end() == old(alloc).end(),
            forall|p: u64| old(alloc).is_allocated(p) ==> #[trigger] final(alloc).is_allocated(p),
            final(alloc).free_count() >= old(alloc).free_count() - 2,
            r is Err ==> r == Err::<(), PageTableError>(PageTableError::AlreadyMapped)
                || r == Err::<(), PageTableError>(PageTableError::OutOfFrames),
            (r == Err::<(), PageTableError>(PageTableError::AlreadyMapped)) <==> old(self).lookup_vpn(vpn) is Some,
            r == Err::<(), PageTableError>(PageTableError::AlreadyMapped) ==> *final(self) == *old(self) && *final(alloc) == *old(alloc),
            r == Err::<(), PageTableError>(PageTableError::OutOfFrames) ==> old(alloc).free_count() < 2
                || old(self).node_count() + 2 > usize::MAX / 512,
            r is Ok ==> final(self).lookup_vpn(vpn) == Some(PageTableEntry::encode(ppn.0 as int, flags.bits | PTEFlags::V)),
            r is Err ==> final(self).lookup_vpn(vpn) == old(self).lookup_vpn(vpn),
            forall|a: int, b: int, d: int| Self::is_walk(a, b, d)
                && (a != vpn.index_at(0) || b != vpn.index_at(1) || d != vpn.index_at(2))
                ==> #[trigger] final(self).lookup(a, b, d) == old(self).lookup(a, b, d),
    {
        let (a, b, c) = Self::walk_of(vpn);
        let n = match self.find_or_create(vpn, alloc) {
            Ok(n) => n,
            Err(e) => {
                return Err(e);
            },
        };
        if self.entry_at(n, c).is_valid() {
            proof {
                assert(self.lookup(a as int, b as int, c as int) is Some);
            }
            return Err(PageTableError::AlreadyMapped);
        }
        proof {
            assert(self.lookup(a as int, b as int, c as int) is None);
        }
        let e = PageTableEntry::new(ppn, flags.with(PTEFlags::V));
        let ghost mid = *self;
        assert(e.valid_spec()) by {
            let fb = flags.bits;
            let f = (fb | 1u8) as u64;
            assert((fb | 1u8) % 2 == 1) by (bit_vector);
            assert(e.bits % 2 == 1) by (nonlinear_arith)
                requires
                    e.bits == ppn.0 * 1024 + f,
                    f % 2 == 1,
            ;
        }
        self.set_leaf(n, c, e);
        proof {
            assert forall|a2: int, b2: int, d: int| Self::is_walk(a2, b2, d)
                && (a2 != a || b2 != b || d != c)
                implies #[trigger] self.lookup(a2, b2, d) == old(self).lookup(a2, b2, d) by {
                if mid.leaf_node_of(a2, b2, n as int) && d == c {
                    mid.lemma_leaf_node_unique(a as int, b as int, a2, b2, n as int);
                }
            }
            assert(self.lookup(a as int, b as int, c as int) == Some(e));
        }
        Ok(())
    }

    /// Clears the entry of page `vpn`; refused where `vpn` is not mapped.
    pub fn unmap(&mut self, vpn: VirtPageNum) -> (r: Result<(), PageTableError>)
        requires
            old(self).wf(),
        ensures
            final(self).wf(),
            final(self).root_ppn() == old(self).root_ppn(),
            final(self).node_count() == old(self).node_count(),
            (r == Err::<(), PageTableError>(PageTableError::NotMapped)) <==> old(self).lookup_vpn(vpn) is None,
            r is Err ==> r == Err::<(), PageTableError>(PageTableError::NotMapped) && *final(self) == *old(self),
            final(self).lookup_vpn(vpn) is None,
            forall|a: int, b: int, d: int| Self::is_walk(a, b, d)
                && (a != vpn.index_at(0) || b != vpn.index_at(1) || d != vpn.index_at(2))
                ==> #[trigger] final(self).lookup(a, b, d) == old(self).lookup(a, b, d),
    {
        let (a, b, c) = Self::walk_of(vpn);
        proof {
            assert(self.level(0) == 0);
        }
        if !self.entry_at(0, a).is_valid() {
            return Err(PageTableError::NotMapped);
        }
        let n1 = self.child_at(0, a);
        if !self.entry_at(n1, b).is_valid() {
            return Err(PageTableError::NotMapped);
        }
        let n2 = self.child_at(n1, b);
        if !self.entry_at(n2, c).is_valid() {
            return Err(PageTableError::NotMapped);
        }
        let ghost mid = *self;
        self.set_leaf(n2, c, PageTableEntry::empty());
        proof {
            assert forall|a2: int, b2: int, d: int| Self::is_walk(a2, b2, d)
                && (a2 != a || b2 != b || d != c)
                implies #[trigger] self.lookup(a2, b2, d) == old(self).lookup(a2, b2, d) by {
                if mid.leaf_node_of(a2, b2, n2 as int) && d == c {
                    mid.lemma_leaf_node_unique(a as int, b as int, a2, b2, n2 as int);
                }
            }
            assert(mid.leaf_node_of(a as int, b as int, n2 as int));
        }
        Ok(())
    }

    /// The entry of page `vpn`, or `None` where an entry on its walk is invalid.
    pub fn translate(&self, vpn: VirtPageNum) -> (r: Option<PageTableEntry>)
        requires
            self.wf(),
        ensures
            r == self.lookup_vpn(vpn),
    {
        let (a, b, c) = Self::walk_of(vpn);
        proof {
            assert(self.level(0) == 0);
        }
        let e0 = self.entry_at(0, a);
        if !e0.is_valid() {
            return None;
        }
        let n1 = self.child_at(0, a);
        let e1 = self.entry_at(n1, b);
        if !e1.is_valid() {
            return None;
        }
        let n2 = self.child_at(n1, b);
        let e2 = self.entry_at(n2, c);
        if !e2.is_valid() {
            return None;
        }
        Some(e2)
    }

    /// The value of the translation-root register that selects this table:
    /// SV39 mode (8) in bits 60..63 and the root's page number below.
    pub open spec fn token_spec(&self) -> u64 {
        (0x8000_0000_0000_0000 + self.root_ppn() as int % ppn_limit()) as u64
    }

    pub fn root_ppn_exec(&self) -> (r: PhysPageNum)
        requires
            self.wf(),
        ensures
            r.0 == self.root_ppn(),
    {
        self.frames[0].ppn()
    }

    pub fn token(&self) -> (r: u64)
        requires
            self.wf(),
        ensures
            r == self.token_spec(),
    {
        let p = self.frames[0].ppn().0;
        assert((8u64 << 60u64) | (p & 0xfff_ffff_ffff) == 0x8000_0000_0000_0000 + p % 0x1000_0000_0000) by (bit_vector);
        (8u64 << 60u64) | (p & 0xfff_ffff_ffff)
    }

    /// The physical address behind `va`, where its page is mapped.
    pub fn translate_va(&self, va: VirtAddr) -> (r: Option<PhysAddr>)
        requires
            self.wf(),
        ensures
            r is None <==> self.lookup_vpn(VirtPageNum((va.0 / 4096) as u64)) is None,
            r matches Some(pa) ==> pa.0 == page_start(
                self.lookup_vpn(VirtPageNum((va.0 / 4096) as u64))->Some_0.ppn_spec(),
            ) + page_offset_of(va.0 as int),
    {
        let vpn = va.floor();
        match self.translate(vpn) {
            None => None,
            Some(e) => {
                let ppn = e.ppn();
                let off = va.page_offset();
                let base = PhysAddr::from(ppn);
                proof {
                    assert(ppn.0 < 0x1000_0000_0000);
                    assert(ppn.0 * 4096 < 0x1_0000_0000_0000_0000 - 4096) by (nonlinear_arith)
                        requires
                            ppn.0 < 0x1000_0000_0000,
                    ;
                    assert((ppn.0 * 4096) % 0x1_0000_0000_0000_0000 == ppn.0 * 4096) by (nonlinear_arith)
                        requires
                            0 <= ppn.0 * 4096 < 0x1_0000_0000_0000_0000 - 4096,
                    ;
                }
                Some(PhysAddr(base.0 + off as u64))
            },
        }
    }
}

} // verus!
