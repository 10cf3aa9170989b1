use vstd::prelude::*;

use vstd::arithmetic::div_mod::{lemma_add_mod_noop, lemma_small_mod};

use std::collections::HashMap;

use crate::{Page, PAGE_SIZE};

verus! {

broadcast use vstd::std_specs::hash::group_hash_axioms;

/// One cached page with its bookkeeping.
pub struct Frame {
    page_id: u64,
    pub data: Page,
    pub is_dirty: bool,
    pin_count: u32,
}

impl Frame {
    /// The page the frame holds.
    pub closed spec fn pid(&self) -> u64 {
        self.page_id
    }

    /// The page's bytes.
    pub closed spec fn bytes(&self) -> Seq<u8> {
        self.data@
    }

    /// The buffer differs from the page on disk.
    pub closed spec fn dirty(&self) -> bool {
        self.is_dirty
    }

    /// Number of callers that hold the frame.
    pub closed spec fn pins(&self) -> u32 {
        self.pin_count
    }

    /// A frame equal to this one in every field.
    pub fn copy(&self) -> (r: Self)
        ensures
            r == *self,
    {
        Self { page_id: self.page_id, data: self.data, is_dirty: self.is_dirty, pin_count: self.pin_count }
    }

    pub fn page_id(&self) -> (r: u64)
        ensures
            r == self.pid(),
    {
        self.page_id
    }

    pub fn pin_count(&self) -> (r: u32)
        ensures
            r == self.pins(),
    {
        self.pin_count
    }

    pub fn data(&self) -> (r: &Page)
        ensures
            r@ == self.bytes(),
    {
        &self.data
    }

    pub fn is_dirty(&self) -> (r: bool)
        ensures
            r == self.dirty(),
    {
        self.is_dirty
    }
}

/// Eviction candidates over a fixed set of frames, picked by a clock hand
/// that sweeps them in a circle.
pub struct ClockReplacer {
    frames: Vec<Option<usize>>,
    clock_hand: usize,
}

impl ClockReplacer {
    /// Number of frames tracked.
    pub closed spec fn size(&self) -> nat {
        self.frames@.len()
    }

    /// Position of the clock hand.
    pub closed spec fn hand(&self) -> int {
        self.clock_hand as int
    }

    /// Frame `i` may be evicted.
    pub closed spec fn is_candidate(&self, i: int) -> bool {
        self.frames@[i] is Some
    }

    pub closed spec fn wf(&self) -> bool {
        &&& forall|i: int| 0 <= i < self.frames@.len() && (#[trigger] self.frames@[i]) is Some ==> self.frames@[i]->0 == i
        &&& self.frames@.len() > 0 ==> self.clock_hand < self.frames@.len()
        &&& self.frames@.len() == 0 ==> self.clock_hand == 0
    }

    /// The first candidate met by the hand from `d` steps past its
    /// position on.
    spec fn first_candidate_from(&self, d: int) -> Option<usize>
        decreases self.frames@.len() - d,
    {
        if d < 0 || d >= self.frames@.len() {
            None
        } else if self.frames@[(self.clock_hand + d) % (self.frames@.len() as int)] is Some {
            Some(((self.clock_hand + d) % (self.frames@.len() as int)) as usize)
        } else {
            self.first_candidate_from(d + 1)
        }
    }

    /// The frame that `victim` picks next: the first candidate at or after
    /// the hand, going round.
    pub closed spec fn next_victim(&self) -> Option<usize> {
        self.first_candidate_from(0)
    }

    proof fn lemma_first_candidate(&self, d: int)
        requires
            self.wf(),
            0 <= d,
        ensures
            self.first_candidate_from(d) matches Some(v) ==> v < self.size() && self.is_candidate(v as int) && exists|
                dv: int,
            |
                #![trigger self.passes(dv)]
                d <= dv < self.size() && v == self.passes(dv) && forall|j: int|
                    d <= j < dv ==> !self.is_candidate(#[trigger] self.passes(j)),
            self.first_candidate_from(d) is None ==> forall|j: int|
                d <= j < self.size() ==> !self.is_candidate(#[trigger] ((self.clock_hand + j) % (self.size() as int))),
        decreases self.frames@.len() - d,
    {
        if d < self.frames@.len() {
            self.lemma_first_candidate(d + 1);
            if self.frames@[self.passes(d)] is Some {
                assert(self.first_candidate_from(d) == Some(self.passes(d) as usize));
            } else if let Some(v) = self.first_candidate_from(d + 1) {
                let dv = choose|dv: int|
                    #![trigger self.passes(dv)]
                    d + 1 <= dv < self.size() && v == self.passes(dv) && forall|j: int|
                        d + 1 <= j < dv ==> !self.is_candidate(#[trigger] self.passes(j));
                assert(d <= dv < self.size() && v == self.passes(dv) && forall|j: int|
                    d <= j < dv ==> !self.is_candidate(#[trigger] self.passes(j)));
            }
        }
    }

    /// The frame the hand is at after `d` steps.
    pub open spec fn passes(&self, d: int) -> int {
        (self.hand() + d) % (self.size() as int)
    }

    /// What the next victim is, and that there is none exactly when no
    /// frame is a candidate.
    pub proof fn lemma_next_victim(&self)
        requires
            self.wf(),
        ensures
            self.next_victim() matches Some(v) ==> v < self.size() && self.is_candidate(v as int) && exists|dv: int|
                #![trigger self.passes(dv)]
                0 <= dv < self.size() && v == self.passes(dv) && forall|j: int|
                    0 <= j < dv ==> !self.is_candidate(#[trigger] self.passes(j)),
            self.next_victim() is None <==> forall|i: int| 0 <= i < self.size() ==> !#[trigger] self.is_candidate(i),
    {
        self.lemma_first_candidate(0);
        let n = self.size() as int;
        if self.next_victim() is None {
            assert forall|i: int| 0 <= i < n implies !#[trigger] self.is_candidate(i) by {
                let h = self.clock_hand as int;
                if i >= h {
                    lemma_small_mod((h + (i - h)) as nat, n as nat);
                    assert(!self.is_candidate((h + (i - h)) % n));
                } else {
                    lemma_small_mod(i as nat, n as nat);
                    lemma_add_mod_noop(i, n, n);
                    assert(n % n == 0) by {
                        vstd::arithmetic::div_mod::lemma_mod_self_0(n);
                    }
                    assert(!self.is_candidate((h + (i + n - h)) % n));
                }
            }
        }
    }

    /// A replacer for `pool_size` frames, none of them a candidate.
    pub fn new(pool_size: usize) -> (r: Self)
        ensures
            r.wf(),
            r.size() == pool_size,
            r.hand() == 0,
            forall|i: int| 0 <= i < pool_size ==> !#[trigger] r.is_candidate(i),
    {
        let mut frames: Vec<Option<usize>> = Vec::new();
        let mut k: usize = 0;
        while k < pool_size
            invariant
                k <= pool_size,
                frames@.len() == k,
                forall|i: int| 0 <= i < k ==> (#[trigger] frames@[i]) is None,
            decreases pool_size - k,
        {
            frames.push(None);
            k = k + 1;
        }
        Self { frames, clock_hand: 0 }
    }

    /// Sweeps the hand over the frames, once round at most, and takes the
    /// first candidate it meets off the candidates.
    pub fn victim(&mut self) -> (r: Option<usize>)
        requires
            old(self).wf(),
        ensures
            final(self).wf(),
            r == old(self).next_victim(),
            r is None <==> forall|i: int| 0 <= i < old(self).size() ==> !#[trigger] old(self).is_candidate(i),
            r matches Some(v) ==> exists|dv: int|
                #![trigger old(self).passes(dv)]
                0 <= dv < old(self).size() && v == old(self).passes(dv) && forall|j: int|
                    0 <= j < dv ==> !old(self).is_candidate(#[trigger] old(self).passes(j)),
            final(self).size() == old(self).size(),
            r is None ==> *final(self) == *old(self),
            r matches Some(v) ==> {
                &&& v < old(self).size()
                &&& old(self).is_candidate(v as int)
                &&& !final(self).is_candidate(v as int)
                &&& final(self).hand() == (v + 1) % (old(self).size() as int)
                &&& forall|i: int|
                    0 <= i < old(self).size() && i != v ==> final(self).is_candidate(i) == old(self).is_candidate(i)
            },
    {
        proof {
            self.lemma_next_victim();
        }
        let r = self.peek_victim();
        if let Some(v) = r {
            let n = self.frames.len();
            self.frames.set(v, None);
            self.clock_hand = if v + 1 < n {
                v + 1
            } else {
                0
            };
            proof {
                if v + 1 < n {
                    lemma_small_mod((v + 1) as nat, n as nat);
                } else {
                    vstd::arithmetic::div_mod::lemma_mod_self_0(n as int);
                }
            }
        }
        r
    }

    /// The frame that `victim` would pick now, without moving the hand.
    pub fn peek_victim(&self) -> (r: Option<usize>)
        requires
            self.wf(),
        ensures
            r == self.next_victim(),
            r is None <==> forall|i: int| 0 <= i < self.size() ==> !#[trigger] self.is_candidate(i),
            r matches Some(v) ==> exists|dv: int|
                #![trigger self.passes(dv)]
                0 <= dv < self.size() && v == self.passes(dv) && forall|j: int|
                    0 <= j < dv ==> !self.is_candidate(#[trigger] self.passes(j)),
    {
        proof {
            self.lemma_next_victim();
        }
        let n = self.frames.len();
        let ghost h0 = self.clock_hand as int;
        let mut hand = self.clock_hand;
        proof {
            if n > 0 {
                lemma_small_mod(h0 as nat, n as nat);
            }
        }
        let mut k: usize = 0;
        while k < n
            invariant
                n == self.frames@.len(),
                self.wf(),
                k <= n,
                h0 == self.clock_hand,
                n > 0 ==> hand as int == (h0 + k) % (n as int),
                n > 0 ==> hand < n,
                self.first_candidate_from(k as int) == self.first_candidate_from(0),
            decreases n - k,
        {
            let idx = hand;
            hand = (hand + 1) % n;
            proof {
                lemma_add_mod_noop(h0 + k, 1, n as int);
                if n > 1 {
                    lemma_small_mod(1, n as nat);
                }
            }
            if let Some(id) = self.frames[idx] {
                assert(self.first_candidate_from(k as int) == Some(idx));
                assert(id == idx);
                assert(self.next_victim() == Some(idx));
                assert(self.is_candidate(idx as int));
                proof {
                    self.lemma_next_victim();
                    let dv = choose|dv: int|
                        #![trigger self.passes(dv)]
                        0 <= dv < self.size() && idx == self.passes(dv) && forall|j: int|
                            0 <= j < dv ==> !self.is_candidate(#[trigger] self.passes(j));
                    assert(0 <= dv < self.size() && idx == self.passes(dv) && forall|j: int|
                        0 <= j < dv ==> !self.is_candidate(#[trigger] self.passes(j)));
                }
                return Some(id);
            }
            assert(self.first_candidate_from(k as int) == self.first_candidate_from(k + 1));
            k = k + 1;
        }
        None
    }

    /// Takes a frame off the candidates.
    pub fn pin(&mut self, frame_id: usize)
        requires
            old(self).wf(),
            frame_id < old(self).size(),
        ensures
            final(self).wf(),
            final(self).size() == old(self).size(),
            final(self).hand() == old(self).hand(),
            !final(self).is_candidate(frame_id as int),
            forall|i: int|
                0 <= i < old(self).size() && i != frame_id ==> final(self).is_candidate(i) == old(self).is_candidate(i),
    {
        self.frames.set(frame_id, None);
    }

    /// Makes a frame a candidate.
    pub fn unpin(&mut self, frame_id: usize)
        requires
            old(self).wf(),
            frame_id < old(self).size(),
        ensures
            final(self).wf(),
            final(self).size() == old(self).size(),
            final(self).hand() == old(self).hand(),
            final(self).is_candidate(frame_id as int),
            forall|i: int|
                0 <= i < old(self).size() && i != frame_id ==> final(self).is_candidate(i) == old(self).is_candidate(i),
    {
        self.frames.set(frame_id, Some(frame_id));
    }
}

/// What a fetch needs from the caller.
pub enum FetchStep {
    /// The page is cached in this frame, now pinned once more.
    Hit(usize),
    /// The page is not cached: read it from disk and hand it to
    /// `load_page`, which will put it in this frame. If `write_back` names
    /// a page, the frame holds that page dirty: write the frame's bytes
    /// for it first.
    Load { frame_id: usize, write_back: Option<u64> },
    /// Every frame is pinned.
    NoFrame,
}

/// A fixed set of frames caching pages, with a page table, a free list and
/// a clock replacer over the unpinned frames. Disk traffic is left to the
/// caller: the pool says what to read or write back, and takes the bytes.
pub struct BufferPoolManager {
    frames: Vec<Frame>,
    page_table: HashMap<u64, usize>,
    replacer: ClockReplacer,
    free_list: Vec<usize>,
}

impl BufferPoolManager {
    pub closed spec fn pool_size(&self) -> nat {
        self.frames@.len()
    }

    /// The page table: resident page id to frame index.
    pub closed spec fn table(&self) -> Map<u64, usize> {
        self.page_table@
    }

    pub closed spec fn frame_view(&self, i: int) -> Frame {
        self.frames@[i]
    }

    /// Frame `i` is on the free list.
    pub closed spec fn is_free(&self, i: int) -> bool {
        exists|k: int| 0 <= k < self.free_list@.len() && #[trigger] self.free_list@[k] as int == i
    }

    /// Frame `i` holds a page that the page table maps to it.
    pub open spec fn resident(&self, i: int) -> bool {
        &&& self.table().contains_key(self.frame_view(i).pid())
        &&& self.table()[self.frame_view(i).pid()] == i
    }

    /// The free list; misses take frames from its end.
    pub closed spec fn free_frames(&self) -> Seq<usize> {
        self.free_list@
    }

    /// The clock replacer over the frames.
    pub closed spec fn clock(&self) -> ClockReplacer {
        self.replacer
    }

    /// Frame `i` may be evicted.
    pub open spec fn is_candidate(&self, i: int) -> bool {
        self.clock().is_candidate(i)
    }

    /// The frame a miss fills: the last free one, else the replacer's victim.
    pub open spec fn chosen(&self) -> Option<usize> {
        if self.free_frames().len() > 0 {
            Some(self.free_frames().last())
        } else {
            self.clock().next_victim()
        }
    }

    /// The pool invariant, spelled out: the replacer covers the frames;
    /// the free list holds distinct frames; every frame is either free or
    /// resident; a free frame is unpinned and no candidate; a resident frame
    /// is a candidate exactly when it is unpinned.
    pub proof fn lemma_wf_parts(&self)
        requires
            self.wf(),
        ensures
            self.clock().wf(),
            self.clock().size() == self.pool_size(),
            self.free_frames().no_duplicates(),
            forall|k: int|
                0 <= k < self.free_frames().len() ==> #[trigger] self.free_frames()[k] < self.pool_size()
                    && self.is_free(self.free_frames()[k] as int),
            forall|i: int|
                #[trigger] self.is_free(i) ==> exists|k: int|
                    0 <= k < self.free_frames().len() && self.free_frames()[k] as int == i,
            forall|i: int|
                #![trigger self.frame_view(i)]
                0 <= i < self.pool_size() ==> {
                    &&& self.is_free(i) != self.resident(i)
                    &&& self.is_free(i) ==> self.frame_view(i).pins() == 0 && !self.is_candidate(i)
                    &&& self.resident(i) ==> (self.is_candidate(i) <==> self.frame_view(i).pins() == 0)
                },
    {
        assert forall|i: int| 0 <= i < self.pool_size() implies #[trigger] self.frame_view(i) == self.frames@[i] by {}
        assert forall|k: int| 0 <= k < self.free_frames().len() implies #[trigger] self.free_frames()[k]
            < self.pool_size() && self.is_free(self.free_frames()[k] as int) by {
            assert(self.free_list@[k] as int == self.free_frames()[k] as int);
        }
    }

    /// A miss gets a frame exactly when some frame is free or a candidate,
    /// and the frame it gets is unpinned.
    pub proof fn lemma_chosen(&self)
        requires
            self.wf(),
        ensures
            self.chosen() is None <==> forall|i: int|
                0 <= i < self.pool_size() ==> !#[trigger] self.is_free(i) && !self.is_candidate(i),
            self.chosen() matches Some(f) ==> f < self.pool_size() && self.frame_view(f as int).pins() == 0 && (
            self.is_free(f as int) || self.is_candidate(f as int)),
    {
        self.lemma_wf_parts();
        self.replacer.lemma_next_victim();
        if self.free_list@.len() > 0 {
            let f = self.free_list@.last();
            assert(self.free_frames()[self.free_frames().len() - 1] == f);
            assert(self.frame_view(f as int) == self.frames@[f as int]);
        } else {
            assert forall|i: int| 0 <= i < self.pool_size() implies !#[trigger] self.is_free(i) by {}
            if let Some(f) = self.chosen() {
                assert(self.frame_view(f as int) == self.frames@[f as int]);
            }
        }
    }

    /// Re-establishes the invariant after a step that keeps the free list,
    /// the page table and every frame's page id, and changes pins or
    /// candidacy only of frame `f`, keeping that frame a candidate exactly
    /// when it is unpinned.
    proof fn lemma_keeps_wf(s0: &Self, s: &Self, f: int)
        requires
            s0.wf(),
            s.free_list == s0.free_list,
            s.page_table@ == s0.page_table@,
            s.frames@.len() == s0.frames@.len(),
            s.replacer.wf(),
            s.replacer.size() == s0.replacer.size(),
            forall|i: int| 0 <= i < s.frames@.len() ==> #[trigger] s.frames@[i].page_id == s0.frames@[i].page_id,
            forall|i: int|
                0 <= i < s.frames@.len() && i != f ==> #[trigger] s.frames@[i].pin_count == s0.frames@[i].pin_count
                    && s.replacer.is_candidate(i) == s0.replacer.is_candidate(i),
            (s.frames@[f].pin_count == s0.frames@[f].pin_count && s.replacer.is_candidate(f)
                == s0.replacer.is_candidate(f)) || (s0.resident(f) && (s.replacer.is_candidate(f)
                <==> s.frames@[f].pin_count == 0)),
        ensures
            s.wf(),
    {
        assert forall|i: int| #![trigger s.frames@[i]] 0 <= i < s.frames@.len() implies {
            &&& s.is_free(i) != s.resident(i)
            &&& s.is_free(i) ==> s.frames@[i].pin_count == 0 && !s.replacer.is_candidate(i)
            &&& s.resident(i) ==> (s.replacer.is_candidate(i) <==> s.frames@[i].pin_count == 0)
        } by {
            assert(s0.frames@[i].page_id == s.frames@[i].page_id);
            assert(s.frame_view(i).pid() == s0.frame_view(i).pid());
            assert(s.table() == s0.table());
            assert(s.resident(i) == s0.resident(i));
            assert(s.is_free(i) == s0.is_free(i));
            if i != f {
                assert(s.frames@[i].pin_count == s0.frames@[i].pin_count);
            }
        }
    }

    pub closed spec fn wf(&self) -> bool {
        &&& self.frames@.len() == self.replacer.size()
        &&& self.replacer.wf()
        &&& forall|p: u64|
            #[trigger] self.page_table@.contains_key(p) ==> self.page_table@[p] < self.frames@.len()
                && self.frames@[self.page_table@[p] as int].page_id == p
        &&& forall|k: int| 0 <= k < self.free_list@.len() ==> #[trigger] self.free_list@[k] < self.frames@.len()
        &&& self.free_list@.no_duplicates()
        &&& forall|i: int|
            #![trigger self.frames@[i]]
            0 <= i < self.frames@.len() ==> {
                &&& self.is_free(i) != self.resident(i)
                &&& self.is_free(i) ==> self.frames@[i].pin_count == 0 && !self.replacer.is_candidate(i)
                &&& self.resident(i) ==> (self.replacer.is_candidate(i) <==> self.frames@[i].pin_count == 0)
            }
    }

    /// A resident page lies in exactly one frame: the one the page table
    /// maps it to, which holds that page id; no other frame that the table
    /// maps to holds it.
    pub proof fn lemma_page_in_one_frame(&self, p: u64)
        requires
            self.wf(),
            self.table().contains_key(p),
        ensures
            self.table()[p] < self.pool_size(),
            self.frame_view(self.table()[p] as int).pid() == p,
            self.resident(self.table()[p] as int),
            forall|i: int|
                0 <= i < self.pool_size() && #[trigger] self.resident(i) && self.frame_view(i).pid() == p ==> i
                    == self.table()[p],
    {
    }

    /// Every frame is either on the free list or mapped to by the page
    /// table, never both.
    pub proof fn lemma_free_xor_mapped(&self, i: int)
        requires
            self.wf(),
            0 <= i < self.pool_size(),
        ensures
            self.is_free(i) != exists|p: u64| #[trigger] self.table().contains_key(p) && self.table()[p] == i,
    {
        assert(self.frames@[i] == self.frame_view(i));
        if exists|p: u64| #[trigger] self.table().contains_key(p) && self.table()[p] == i {
            let p = choose|p: u64| #[trigger] self.table().contains_key(p) && self.table()[p] == i;
            assert(self.frames@[i].page_id == p);
            assert(self.resident(i));
        }
        if self.resident(i) {
            assert(self.table().contains_key(self.frame_view(i).pid()));
        }
    }

    /// With every frame pinned there is no frame to load a page into, so a
    /// fetch of a page that is not cached answers `NoFrame`.
    pub proof fn lemma_all_pinned_no_frame(&self)
        requires
            self.wf(),
            forall|i: int| 0 <= i < self.pool_size() ==> #[trigger] self.frame_view(i).pins() > 0,
        ensures
            self.chosen() is None,
    {
        self.replacer.lemma_next_victim();
        if self.free_list@.len() > 0 {
            let f = self.free_list@.last();
            assert(self.free_list@[self.free_list@.len() - 1] < self.frames@.len());
            assert(self.is_free(f as int));
            assert(self.frames@[f as int] == self.frame_view(f as int));
            assert(self.frame_view(f as int).pins() > 0);
            assert(false);
        }
        assert forall|i: int| 0 <= i < self.replacer.size() implies !#[trigger] self.replacer.is_candidate(i) by {
            assert(self.frames@[i] == self.frame_view(i));
            assert(self.frame_view(i).pins() > 0);
            assert(self.frames@[i].pin_count > 0);
        }
    }

    /// Fetching a page, unpinning it clean and fetching it again: after
    /// the unpin the page is still cached, in the same frame, with the same
    /// bytes, so the second fetch is a hit (no disk read) on those bytes.
    pub proof fn lemma_refetch_hits(a: &Self, b: &Self, p: u64)
        requires
            a.wf(),
            a.table().contains_key(p),
            a.frame_view(a.table()[p] as int).pins() > 0,
            b.wf(),
            b.table() == a.table(),
            b.frame_view(a.table()[p] as int).pins() == a.frame_view(a.table()[p] as int).pins() - 1,
            b.frame_view(a.table()[p] as int).bytes() == a.frame_view(a.table()[p] as int).bytes(),
        ensures
            b.table().contains_key(p),
            b.table()[p] == a.table()[p],
            b.frame_view(b.table()[p] as int).pins() < u32::MAX,
            b.frame_view(b.table()[p] as int).bytes() == a.frame_view(a.table()[p] as int).bytes(),
    {
    }

    /// A pool of `pool_size` empty frames, all free; misses fill frame 0
    /// first, then 1, and so on.
    pub fn new(pool_size: usize) -> (r: Self)
        ensures
            r.wf(),
            r.pool_size() == pool_size,
            r.table() == Map::<u64, usize>::empty(),
            forall|i: int| 0 <= i < pool_size ==> #[trigger] r.is_free(i),
            forall|i: int|
                0 <= i < pool_size ==> (#[trigger] r.frame_view(i)).pins() == 0 && !r.frame_view(i).dirty()
                    && !r.is_candidate(i),
            r.free_frames() == Seq::new(pool_size as nat, |k: int| (pool_size - 1 - k) as usize),
            r.clock().hand() == 0,
    {
        let mut frames: Vec<Frame> = Vec::new();
        let mut free_list: Vec<usize> = Vec::new();
        let mut k: usize = 0;
        while k < pool_size
            invariant
                k <= pool_size,
                frames@.len() == k,
                free_list@.len() == k,
                forall|i: int| 0 <= i < k ==> #[trigger] free_list@[i] == pool_size - 1 - i,
                forall|i: int| 0 <= i < k ==> (#[trigger] frames@[i]).pin_count == 0 && !frames@[i].is_dirty,
            decreases pool_size - k,
        {
            frames.push(Frame { page_id: 0, data: [0u8; PAGE_SIZE], is_dirty: false, pin_count: 0 });
            free_list.push(pool_size - 1 - k);
            k = k + 1;
        }
        let r = BufferPoolManager {
            frames,
            page_table: HashMap::new(),
            replacer: ClockReplacer::new(pool_size),
            free_list,
        };
        assert forall|i: int| 0 <= i < pool_size implies #[trigger] r.is_free(i) by {
            assert(r.free_list@[pool_size - 1 - i] == i);
        }
        assert forall|a: int, c: int| 0 <= a < c < r.free_list@.len() implies r.free_list@[a] != r.free_list@[c] by {}
        assert(r.free_frames() =~= Seq::new(pool_size as nat, |k: int| (pool_size - 1 - k) as usize));
        r
    }

    /// The frame holding a page, if the page is cached.
    pub fn frame_of(&self, page_id: u64) -> (r: Option<usize>)
        requires
            self.wf(),
        ensures
            self.table().contains_key(page_id) ==> r == Some(self.table()[page_id]),
            !self.table().contains_key(page_id) ==> r is None,
            r matches Some(f) ==> f < self.pool_size() && self.frame_view(f as int).pid() == page_id,
    {
        match self.page_table.get(&page_id) {
            Some(f) => Some(*f),
            None => None,
        }
    }

    /// The frame at index `i`.
    pub fn frame(&self, i: usize) -> (r: &Frame)
        requires
            i < self.pool_size(),
        ensures
            *r == self.frame_view(i as int),
    {
        &self.frames[i]
    }

    /// The frame that a miss would fill, with the page it holds dirty, if
    /// any, which must be written back first. `None` when every frame is
    /// pinned.
    pub fn plan_load(&self) -> (r: Option<(usize, Option<u64>)>)
        requires
            self.wf(),
        ensures
            r is None <==> self.chosen() is None,
            r matches Some((f, wb)) ==> {
                &&& Some(f) == self.chosen()
                &&& f < self.pool_size()
                &&& wb == if self.resident(f as int) && self.frame_view(f as int).dirty() {
                    Some(self.frame_view(f as int).pid())
                } else {
                    None::<u64>
                }
            },
    {
        proof {
            self.replacer.lemma_next_victim();
        }
        let n = self.free_list.len();
        if n > 0 {
            let f = self.free_list[n - 1];
            assert(self.is_free(f as int));
            return Some((f, None));
        }
        match self.replacer.peek_victim() {
            None => None,
            Some(f) => {
                assert(self.replacer.is_candidate(f as int));
                let fr = &self.frames[f];
                if fr.is_dirty {
                    Some((f, Some(fr.page_id)))
                } else {
                    Some((f, None))
                }
            },
        }
    }

    /// Serves a page from the cache when it is there, pinning it once more;
    /// otherwise says which frame a load would fill, changing nothing.
    pub fn fetch_page(&mut self, page_id: u64) -> (r: FetchStep)
        requires
            old(self).wf(),
        ensures
            final(self).wf(),
            final(self).table() == old(self).table(),
            final(self).pool_size() == old(self).pool_size(),
            old(self).table().contains_key(page_id) && old(self).frame_view(old(self).table()[page_id] as int).pins()
                < u32::MAX ==> {
                let f = old(self).table()[page_id] as int;
                &&& r == FetchStep::Hit(f as usize)
                &&& final(self).frame_view(f).pins() == old(self).frame_view(f).pins() + 1
                &&& final(self).frame_view(f).pid() == page_id
                &&& final(self).frame_view(f).bytes() == old(self).frame_view(f).bytes()
                &&& final(self).frame_view(f).dirty() == old(self).frame_view(f).dirty()
                &&& forall|i: int| 0 <= i < old(self).pool_size() && i != f ==> final(self).frame_view(i) == old(self).frame_view(i)
                &&& !final(self).is_candidate(f)
                &&& forall|i: int|
                    0 <= i < old(self).pool_size() && i != f ==> final(self).is_candidate(i) == old(self).is_candidate(i)
                &&& final(self).free_frames() == old(self).free_frames()
                &&& final(self).clock().hand() == old(self).clock().hand()
            },
            old(self).table().contains_key(page_id) && old(self).frame_view(old(self).table()[page_id] as int).pins()
                == u32::MAX ==> r == FetchStep::NoFrame && *final(self) == *old(self),
            !old(self).table().contains_key(page_id) ==> *final(self) == *old(self) && match old(self).chosen() {
                None => r == FetchStep::NoFrame,
                Some(f) => r == FetchStep::Load {
                    frame_id: f,
                    write_back: if old(self).resident(f as int) && old(self).frame_view(f as int).dirty() {
                        Some(old(self).frame_view(f as int).pid())
                    } else {
                        None
                    },
                },
            },
    {
        match self.page_table.get(&page_id) {
            Some(fref) => {
                let f = *fref;
                let mut fr = self.frames[f].copy();
                if fr.pin_count == u32::MAX {
                    return FetchStep::NoFrame;
                }
                let ghost s0 = *self;
                assert(s0.resident(f as int));
                fr.pin_count = fr.pin_count + 1;
                self.frames.set(f, fr);
                self.replacer.pin(f);
                proof {
                    BufferPoolManager::lemma_keeps_wf(&s0, self, f as int);
                }
                FetchStep::Hit(f)
            },
            None => match self.plan_load() {
                None => FetchStep::NoFrame,
                Some((f, wb)) => FetchStep::Load { frame_id: f, write_back: wb },
            },
        }
    }

    /// Puts a page that is not cached into the frame `plan_load` names,
    /// dropping the page that frame held from the page table, and pins it
    /// once. The caller has read `data` from disk, and written back the
    /// evicted page if it was dirty.
    pub fn load_page(&mut self, page_id: u64, data: Page) -> (r: usize)
        requires
            old(self).wf(),
            !old(self).table().contains_key(page_id),
            old(self).chosen() is Some,
        ensures
            final(self).wf(),
            Some(r) == old(self).chosen(),
            r < old(self).pool_size(),
            final(self).pool_size() == old(self).pool_size(),
            final(self).frame_view(r as int).pid() == page_id,
            final(self).frame_view(r as int).bytes() == data@,
            !final(self).frame_view(r as int).dirty(),
            final(self).frame_view(r as int).pins() == 1,
            forall|i: int| 0 <= i < old(self).pool_size() && i != r ==> final(self).frame_view(i) == old(self).frame_view(i),
            final(self).table() == if old(self).resident(r as int) {
                old(self).table().remove(old(self).frame_view(r as int).pid())
            } else {
                old(self).table()
            }.insert(page_id, r),
            !final(self).is_candidate(r as int),
            forall|i: int|
                0 <= i < old(self).pool_size() && i != r ==> final(self).is_candidate(i) == old(self).is_candidate(i),
            old(self).free_frames().len() > 0 ==> final(self).free_frames() == old(self).free_frames().drop_last()
                && final(self).clock().hand() == old(self).clock().hand(),
            old(self).free_frames().len() == 0 ==> final(self).free_frames() == old(self).free_frames()
                && final(self).clock().hand() == (r + 1) % (old(self).pool_size() as int),
    {
        let ghost s0 = *self;
        proof {
            self.replacer.lemma_next_victim();
        }
        let f: usize;
        if self.free_list.len() > 0 {
            f = self.free_list.pop().unwrap();
            assert(s0.free_list@[s0.free_list@.len() - 1] == f);
            assert(s0.is_free(f as int));
            assert forall|i: int| 0 <= i < s0.frames@.len() implies #[trigger] self.is_free(i) == (s0.is_free(i) && i
                != f) by {
                if s0.is_free(i) && i != f {
                    let k = choose|k: int| 0 <= k < s0.free_list@.len() && s0.free_list@[k] as int == i;
                    assert(k != s0.free_list@.len() - 1);
                    assert(self.free_list@[k] as int == i);
                }
                if self.is_free(i) {
                    let k = choose|k: int| 0 <= k < self.free_list@.len() && self.free_list@[k] as int == i;
                    assert(s0.free_list@[k] as int == i);
                    assert(s0.free_list@[k] != s0.free_list@[s0.free_list@.len() - 1]);
                }
            }
        } else {
            f = self.replacer.victim().unwrap();
            assert(s0.replacer.is_candidate(f as int));
            let old_pid = self.frames[f].page_id;
            self.page_table.remove(&old_pid);
            assert forall|i: int| 0 <= i < s0.frames@.len() implies #[trigger] self.is_free(i) == (s0.is_free(i) && i
                != f) by {
                assert(self.free_list@.len() == 0);
            }
        }
        assert(s0.resident(f as int) || s0.is_free(f as int));
        let ghost s1 = *self;
        self.frames.set(f, Frame { page_id, data, is_dirty: false, pin_count: 1 });
        self.page_table.insert(page_id, f);
        self.replacer.pin(f);
        assert forall|p: u64| #[trigger] self.page_table@.contains_key(p) implies self.page_table@[p] < self.frames@.len()
            && self.frames@[self.page_table@[p] as int].page_id == p by {
            if p != page_id {
                assert(s0.page_table@.contains_key(p));
                assert(s0.page_table@[p] != f);
            }
        }
        assert forall|i: int| #![trigger self.frames@[i]] 0 <= i < self.frames@.len() implies {
            &&& self.is_free(i) != self.resident(i)
            &&& self.is_free(i) ==> self.frames@[i].pin_count == 0 && !self.replacer.is_candidate(i)
            &&& self.resident(i) ==> (self.replacer.is_candidate(i) <==> self.frames@[i].pin_count == 0)
        } by {
            assert(s1.is_free(i) == (s0.is_free(i) && i != f));
            assert(self.free_list == s1.free_list);
            assert(self.is_free(i) == s1.is_free(i));
            if i != f {
                assert(self.frames@[i] == s0.frames@[i]);
                let q = self.frames@[i].page_id;
                if s0.resident(i) {
                    assert(q != page_id);
                    assert(self.page_table@.contains_key(q) && self.page_table@[q] == i);
                }
                if self.resident(i) {
                    assert(q != page_id);
                    assert(s0.page_table@.contains_key(q));
                }
                assert(self.resident(i) == s0.resident(i));
                assert(self.replacer.is_candidate(i) == s0.replacer.is_candidate(i));
            } else {
                assert(self.resident(i));
            }
        }
        assert(self.page_table@ =~= if s0.resident(f as int) {
            s0.page_table@.remove(s0.frames@[f as int].page_id)
        } else {
            s0.page_table@
        }.insert(page_id, f));
        f
    }

    /// Takes a page that the caller allocated on disk (zero-filled there)
    /// into the frame `plan_load` names, zeroed and pinned once.
    pub fn new_page(&mut self, new_page_id: u64) -> (r: Option<usize>)
        requires
            old(self).wf(),
            !old(self).table().contains_key(new_page_id),
        ensures
            final(self).wf(),
            r == old(self).chosen(),
            r is None ==> *final(self) == *old(self),
            r matches Some(f) ==> {
                &&& f < old(self).pool_size()
                &&& final(self).pool_size() == old(self).pool_size()
                &&& final(self).frame_view(f as int).pid() == new_page_id
                &&& final(self).frame_view(f as int).bytes() == Seq::new(4096, |j: int| 0u8)
                &&& !final(self).frame_view(f as int).dirty()
                &&& final(self).frame_view(f as int).pins() == 1
                &&& forall|i: int|
                    0 <= i < old(self).pool_size() && i != f ==> final(self).frame_view(i) == old(self).frame_view(i)
                &&& final(self).table() == if old(self).resident(f as int) {
                    old(self).table().remove(old(self).frame_view(f as int).pid())
                } else {
                    old(self).table()
                }.insert(new_page_id, f)
                &&& !final(self).is_candidate(f as int)
                &&& forall|i: int|
                    0 <= i < old(self).pool_size() && i != f ==> final(self).is_candidate(i) == old(self).is_candidate(i)
                &&& old(self).free_frames().len() > 0 ==> final(self).free_frames() == old(self).free_frames().drop_last()
                    && final(self).clock().hand() == old(self).clock().hand()
                &&& old(self).free_frames().len() == 0 ==> final(self).free_frames() == old(self).free_frames()
                    && final(self).clock().hand() == (f + 1) % (old(self).pool_size() as int)
            },
    {
        match self.plan_load() {
            None => None,
            Some(_) => {
                let zero: Page = [0u8; PAGE_SIZE];
                assert(zero@ =~= Seq::new(4096, |j: int| 0u8));
                Some(self.load_page(new_page_id, zero))
            },
        }
    }

    /// Releases one pin on a cached page, marking it dirty if asked (a
    /// frame once dirty stays dirty). A frame left with no pin becomes a
    /// candidate for eviction. False, changing nothing, for a page that is
    /// not cached or not pinned.
    pub fn unpin_page(&mut self, page_id: u64, is_dirty: bool) -> (r: bool)
        requires
            old(self).wf(),
        ensures
            final(self).wf(),
            final(self).table() == old(self).table(),
            final(self).pool_size() == old(self).pool_size(),
            r == (old(self).table().contains_key(page_id) && old(self).frame_view(old(self).table()[page_id] as int).pins()
                > 0),
            !r ==> *final(self) == *old(self),
            r ==> {
                let f = old(self).table()[page_id] as int;
                &&& final(self).frame_view(f).pins() == old(self).frame_view(f).pins() - 1
                &&& final(self).frame_view(f).pid() == page_id
                &&& final(self).frame_view(f).bytes() == old(self).frame_view(f).bytes()
                &&& final(self).frame_view(f).dirty() == (old(self).frame_view(f).dirty() || is_dirty)
                &&& forall|i: int| 0 <= i < old(self).pool_size() && i != f ==> final(self).frame_view(i) == old(self).frame_view(i)
                &&& final(self).is_candidate(f) <==> final(self).frame_view(f).pins() == 0
                &&& forall|i: int|
                    0 <= i < old(self).pool_size() && i != f ==> final(self).is_candidate(i) == old(self).is_candidate(i)
                &&& final(self).free_frames() == old(self).free_frames()
                &&& final(self).clock().hand() == old(self).clock().hand()
            },
    {
        match self.page_table.get(&page_id) {
            Some(fref) => {
                let f = *fref;
                let mut fr = self.frames[f].copy();
                if fr.pin_count == 0 {
                    return false;
                }
                let ghost s0 = *self;
                assert(s0.resident(f as int));
                fr.pin_count = fr.pin_count - 1;
                if is_dirty {
                    fr.is_dirty = true;
                }
                let now_free = fr.pin_count == 0;
                self.frames.set(f, fr);
                if now_free {
                    self.replacer.unpin(f);
                }
                proof {
                    BufferPoolManager::lemma_keeps_wf(&s0, self, f as int);
                }
                true
            },
            None => false,
        }
    }

    /// The frames holding a dirty page, with that page's id, in frame
    /// order: what a flush must write back.
    pub fn dirty_pages(&self) -> (r: Vec<(usize, u64)>)
        requires
            self.wf(),
        ensures
            forall|k: int|
                0 <= k < r@.len() ==> {
                    let (f, p) = #[trigger] r@[k];
                    &&& f < self.pool_size()
                    &&& self.resident(f as int)
                    &&& self.frame_view(f as int).dirty()
                    &&& p == self.frame_view(f as int).pid()
                },
            forall|i: int|
                0 <= i < self.pool_size() && self.resident(i) && #[trigger] self.frame_view(i).dirty() ==> exists|k: int|
                    0 <= k < r@.len() && (#[trigger] r@[k]).0 == i,
    {
        let mut out: Vec<(usize, u64)> = Vec::new();
        let mut i: usize = 0;
        while i < self.frames.len()
            invariant
                self.wf(),
                i <= self.frames@.len(),
                forall|k: int|
                    0 <= k < out@.len() ==> {
                        let (f, p) = #[trigger] out@[k];
                        &&& f < i
                        &&& self.resident(f as int)
                        &&& self.frame_view(f as int).dirty()
                        &&& p == self.frame_view(f as int).pid()
                    },
                forall|j: int|
                    0 <= j < i && self.resident(j) && #[trigger] self.frame_view(j).dirty() ==> exists|k: int|
                        0 <= k < out@.len() && (#[trigger] out@[k]).0 == j,
            decreases self.frames@.len() - i,
        {
            let ghost before = out@;
            let fr = &self.frames[i];
            let pid = fr.page_id;
            let resident = match self.page_table.get(&pid) {
                Some(f) => *f == i,
                None => false,
            };
            assert(fr == self.frame_view(i as int));
            assert(resident == self.resident(i as int));
            if resident && fr.is_dirty {
                out.push((i, pid));
                assert(out@[out@.len() - 1].0 == i);
            }
            assert forall|j: int|
                0 <= j < i + 1 && self.resident(j) && #[trigger] self.frame_view(j).dirty() implies exists|k: int|
                    0 <= k < out@.len() && (#[trigger] out@[k]).0 == j by {
                if j < i {
                    let k = choose|k: int| 0 <= k < before.len() && (#[trigger] before[k]).0 == j;
                    assert(out@[k] == before[k]);
                } else {
                    assert(out@[out@.len() - 1].0 == i);
                }
            }
            i = i + 1;
        }
        out
    }

    /// Records that a frame's page has been written back.
    pub fn mark_clean(&mut self, frame_id: usize)
        requires
            old(self).wf(),
            frame_id < old(self).pool_size(),
        ensures
            final(self).wf(),
            final(self).table() == old(self).table(),
            final(self).pool_size() == old(self).pool_size(),
            !final(self).frame_view(frame_id as int).dirty(),
            forall|i: int| 0 <= i < old(self).pool_size() ==> final(self).is_candidate(i) == old(self).is_candidate(i),
            final(self).free_frames() == old(self).free_frames(),
            final(self).clock().hand() == old(self).clock().hand(),
            final(self).frame_view(frame_id as int).bytes() == old(self).frame_view(frame_id as int).bytes(),
            final(self).frame_view(frame_id as int).pid() == old(self).frame_view(frame_id as int).pid(),
            final(self).frame_view(frame_id as int).pins() == old(self).frame_view(frame_id as int).pins(),
            forall|i: int|
                0 <= i < old(self).pool_size() && i != frame_id ==> final(self).frame_view(i) == old(self).frame_view(i),
    {
        let ghost s0 = *self;
        let mut fr = self.frames[frame_id].copy();
        fr.is_dirty = false;
        self.frames.set(frame_id, fr);
        proof {
            BufferPoolManager::lemma_keeps_wf(&s0, self, frame_id as int);
        }
    }

    /// Replaces the bytes of a frame, leaving its bookkeeping alone.
    pub fn set_frame_data(&mut self, frame_id: usize, data: Page)
        requires
            old(self).wf(),
            frame_id < old(self).pool_size(),
        ensures
            final(self).wf(),
            final(self).table() == old(self).table(),
            final(self).pool_size() == old(self).pool_size(),
            final(self).frame_view(frame_id as int).bytes() == data@,
            forall|i: int| 0 <= i < old(self).pool_size() ==> final(self).is_candidate(i) == old(self).is_candidate(i),
            final(self).free_frames() == old(self).free_frames(),
            final(self).clock().hand() == old(self).clock().hand(),
            final(self).frame_view(frame_id as int).pid() == old(self).frame_view(frame_id as int).pid(),
            final(self).frame_view(frame_id as int).pins() == old(self).frame_view(frame_id as int).pins(),
            final(self).frame_view(frame_id as int).dirty() == old(self).frame_view(frame_id as int).dirty(),
            forall|i: int|
                0 <= i < old(self).pool_size() && i != frame_id ==> final(self).frame_view(i) == old(self).frame_view(i),
    {
        let ghost s0 = *self;
        let mut fr = self.frames[frame_id].copy();
        fr.data = data;
        self.frames.set(frame_id, fr);
        proof {
            BufferPoolManager::lemma_keeps_wf(&s0, self, frame_id as int);
        }
    }
}

} // verus!
