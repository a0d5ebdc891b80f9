use std::collections::HashMap;
use vstd::prelude::*;
use crate::lru::LRU;
use crate::page::{Page, PAGE_SIZE};

verus! {

broadcast use vstd::std_specs::hash::group_hash_axioms;

/// Bytes of a page that must be written to the page's slot on disk.
pub struct WriteBack {
    pub page_id: usize,
    pub data: [u8; PAGE_SIZE],
}

/// What `fetch_page` did.
pub enum FetchOutcome {
    /// The page was resident in this frame and is now pinned once more.
    Cached(usize),
    /// The page now owns this frame, pinned once, with zeroed bytes: its bytes
    /// are to be read from disk and handed to `fill_frame`. The write-back, if
    /// any, saves the dirty page that the frame held before.
    Load(usize, Option<WriteBack>),
    /// No frame is free and none is unpinned.
    Full,
}

/// A page made by `new_page`: its id, its frame and the write-back of the
/// dirty page that the frame held before, if any.
pub struct NewPage {
    pub page_id: usize,
    pub frame_id: usize,
    pub evicted: Option<WriteBack>,
}

/// The bookkeeping of a buffer pool: its frames, the free frames, the page
/// table from page id to frame, the unpinned resident frames in the order
/// they were unpinned, and the page-id counter with its successor function.
/// Disk transfers are left to the caller: operations hand back the bytes that
/// must be written, and `fill_frame` takes the bytes that were read.
pub struct BufferPoolInstance<F: Fn(usize) -> usize> {
    pub pages: Vec<Page>,
    pub free_list: Vec<usize>,
    pub page_table: HashMap<usize, usize>,
    pub lru: LRU,
    pub next_page_id: usize,
    pub inc_fn: F,
}

/// The write-back owed when a frame holding `page` is given up.
pub open spec fn owed_write(page: Page) -> Option<WriteBack> {
    if page.is_dirty && page.page_id is Some {
        Some(WriteBack { page_id: page.page_id->0, data: page.data })
    } else {
        None
    }
}

impl<F: Fn(usize) -> usize> BufferPoolInstance<F> {
    pub open spec fn frame_count(&self) -> nat {
        self.pages@.len()
    }

    /// Whether frame `f` is resident: it holds a page.
    pub open spec fn resident(&self, f: int) -> bool {
        self.pages@[f].page_id is Some
    }

    /// The page-id successor is defined below `usize::MAX` and strictly
    /// increasing, so the ids it yields from a start never repeat.
    pub open spec fn successor_ok(inc_fn: F) -> bool {
        &&& forall|x: usize| x < usize::MAX ==> #[trigger] inc_fn.requires((x,))
        &&& forall|x: usize, y: usize| #[trigger] inc_fn.ensures((x,), y) ==> x < y
    }

    /// `trail` follows the successor from the counter through page ids that
    /// are all resident, up to its last element.
    pub open spec fn resident_trail(&self, trail: Seq<usize>) -> bool {
        &&& trail.len() >= 1
        &&& trail[0] == self.next_page_id
        &&& forall|i: int| 0 <= i < trail.len() - 1 ==> {
            &&& self.inc_fn.ensures((#[trigger] trail[i],), trail[i + 1])
            &&& self.page_table@.contains_key(trail[i])
        }
    }

    /// Page table and frames agree: each page id in the table maps to one
    /// frame, which carries that id, and each frame carrying an id is the
    /// table's entry for it.
    pub open spec fn table_ok(&self) -> bool {
        &&& forall|p: usize| #[trigger] self.page_table@.contains_key(p) ==> {
            &&& self.page_table@[p] < self.pages@.len()
            &&& self.pages@[self.page_table@[p] as int].page_id == Some(p)
        }
        &&& forall|f: int| 0 <= f < self.pages@.len() && #[trigger] self.resident(f) ==> {
            &&& self.page_table@.contains_key(self.pages@[f].page_id->0)
            &&& self.page_table@[self.pages@[f].page_id->0] == f
        }
    }

    /// The free list holds exactly the frames without a page, each once, and
    /// those are unpinned.
    pub open spec fn free_ok(&self) -> bool {
        &&& self.free_list@.no_duplicates()
        &&& forall|f: usize| #[trigger] self.free_list@.contains(f) <==> (f < self.pages@.len() && !self.resident(f as int))
        &&& forall|f: int| 0 <= f < self.pages@.len() && !#[trigger] self.resident(f) ==> self.pages@[f].pin_count == 0
    }

    /// The recency list holds exactly the resident frames with no pin.
    pub open spec fn lru_ok(&self) -> bool {
        &&& self.lru.wf()
        &&& forall|f: usize| #[trigger] self.lru@.contains(f) <==> (f < self.pages@.len() && self.resident(f as int)
            && self.pages@[f as int].pin_count == 0)
    }

    pub open spec fn wf(&self) -> bool {
        &&& Self::successor_ok(self.inc_fn)
        &&& self.table_ok()
        &&& self.free_ok()
        &&& self.lru_ok()
    }

    /// The pin count of the page `page_id`; 0 if it is not resident.
    pub open spec fn pin_count_of(&self, page_id: usize) -> nat {
        if self.page_table@.contains_key(page_id) {
            self.pages@[self.page_table@[page_id] as int].pin_count as nat
        } else {
            0
        }
    }

    /// Gives the page `page_id` a frame: the last free frame if there is one,
    /// else the least recently unpinned frame, whose page leaves the table.
    /// The frame is zeroed, takes `page_id`, and is pinned once.
    fn find_fresh_page(&mut self, page_id: usize) -> (r: Option<(usize, Option<WriteBack>)>)
        requires
            old(self).wf(),
            !old(self).page_table@.contains_key(page_id),
        ensures
            final(self).wf(),
            final(self).next_page_id == old(self).next_page_id,
            final(self).inc_fn == old(self).inc_fn,
            final(self).pages@.len() == old(self).pages@.len(),
            r is None <==> old(self).free_list@.len() == 0 && old(self).lru@.len() == 0,
            r is None ==> *final(self) == *old(self),
            r matches Some((f, wb)) ==> {
                &&& f < old(self).pages@.len()
                &&& old(self).pages@[f as int].pin_count == 0
                &&& old(self).free_list@.len() > 0 ==> f == old(self).free_list@.last() && wb is None
                &&& old(self).free_list@.len() == 0 ==> f == old(self).lru@.last()
                    && wb == owed_write(old(self).pages@[f as int])
                &&& old(self).free_list@.len() > 0 ==> final(self).free_list@ == old(self).free_list@.drop_last()
                    && final(self).lru@ == old(self).lru@
                &&& old(self).free_list@.len() == 0 ==> final(self).free_list@ == old(self).free_list@
                    && final(self).lru@ == old(self).lru@.drop_last()
                &&& final(self).pages@[f as int].page_id == Some(page_id)
                &&& final(self).pages@[f as int].pin_count == 1
                &&& !final(self).pages@[f as int].is_dirty
                &&& final(self).pages@[f as int].data@ == crate::page::zero_page()
                &&& forall|g: int| 0 <= g < old(self).pages@.len() && g != f
                    ==> #[trigger] final(self).pages@[g] == old(self).pages@[g]
                &&& final(self).page_table@ == if old(self).resident(f as int) {
                    old(self).page_table@.remove(old(self).pages@[f as int].page_id->0).insert(page_id, f)
                } else {
                    old(self).page_table@.insert(page_id, f)
                }
            },
    {
        let ghost o = *self;
        let frame: usize;
        let mut evicted: Option<WriteBack> = None;
        if self.free_list.len() > 0 {
            let f = self.free_list.pop().unwrap();
            frame = f;
            proof {
                assert(o.free_list@.contains(f)) by {
                    assert(o.free_list@[o.free_list@.len() - 1] == f);
                }
                assert(!self.free_list@.contains(f)) by {
                    if self.free_list@.contains(f) {
                        let i = choose|i: int| 0 <= i < self.free_list@.len() && self.free_list@[i] == f;
                        assert(o.free_list@[i] == o.free_list@[o.free_list@.len() - 1]);
                    }
                }
            }
        } else if self.lru.size() > 0 {
            let f = self.lru.remove_last().unwrap();
            frame = f;
            proof {
                assert(o.lru@.contains(f)) by {
                    assert(o.lru@[o.lru@.len() - 1] == f);
                }
            }
            let old_id = self.pages[f].page_id.unwrap();
            if self.pages[f].is_dirty {
                evicted = Some(WriteBack { page_id: old_id, data: self.pages[f].data });
            }
            self.page_table.remove(&old_id);
        } else {
            return None;
        }
        let ghost mid = *self;
        self.pages[frame].reset();
        self.pages[frame].set_page_id(page_id);
        self.pages[frame].pin();
        self.page_table.insert(page_id, frame);
        proof {
            let nw = *self;
            assert(forall|g: int| 0 <= g < o.pages@.len() && g != frame ==> nw.pages@[g] == o.pages@[g]);
            assert(nw.pages@.len() == o.pages@.len());
            assert forall|f: usize| #[trigger] nw.free_list@.contains(f) <==> (f < nw.pages@.len() && !nw.resident(f as int)) by {
                if f != frame && f < nw.pages@.len() {
                    assert(nw.pages@[f as int] == o.pages@[f as int]);
                }
                assert(o.free_list@.contains(f) <==> (f < o.pages@.len() && !o.resident(f as int)));
                if o.free_list@.len() > 0 {
                    assert(nw.free_list@ =~= o.free_list@.drop_last());
                    if nw.free_list@.contains(f) {
                        let i = choose|i: int| 0 <= i < nw.free_list@.len() && nw.free_list@[i] == f;
                        assert(o.free_list@[i] == f);
                    }
                    if f < nw.pages@.len() && !nw.resident(f as int) {
                        assert(f != frame);
                        assert(o.free_list@.contains(f));
                        let i = choose|i: int| 0 <= i < o.free_list@.len() && o.free_list@[i] == f;
                        assert(i != o.free_list@.len() - 1);
                        assert(nw.free_list@[i] == f);
                    }
                } else {
                    assert(nw.free_list@ == o.free_list@);
                    assert(!o.free_list@.contains(f));
                }
            }
            assert forall|f: usize| #[trigger] nw.lru@.contains(f) <==> (f < nw.pages@.len() && nw.resident(f as int)
                && nw.pages@[f as int].pin_count == 0) by {
                if f != frame && f < nw.pages@.len() {
                    assert(nw.pages@[f as int] == o.pages@[f as int]);
                }
                assert(o.lru@.contains(f) <==> (f < o.pages@.len() && o.resident(f as int) && o.pages@[f as int].pin_count == 0));
                if o.free_list@.len() > 0 {
                    assert(nw.lru@ == o.lru@);
                    if f == frame {
                        assert(!o.resident(f as int));
                    }
                } else {
                    assert(nw.lru@ == o.lru@.drop_last());
                    if nw.lru@.contains(f) {
                        let i = choose|i: int| 0 <= i < nw.lru@.len() && nw.lru@[i] == f;
                        assert(o.lru@[i] == f);
                        assert(o.lru@.no_duplicates());
                        assert(o.lru@[o.lru@.len() - 1] == frame);
                        assert(f != frame);
                    }
                    if f < nw.pages@.len() && nw.resident(f as int) && nw.pages@[f as int].pin_count == 0 && f != frame {
                        assert(o.lru@.contains(f));
                        let i = choose|i: int| 0 <= i < o.lru@.len() && o.lru@[i] == f;
                        assert(i != o.lru@.len() - 1);
                        assert(nw.lru@[i] == f);
                    }
                }
            }
            assert forall|p: usize| #[trigger] nw.page_table@.contains_key(p) implies {
                &&& nw.page_table@[p] < nw.pages@.len()
                &&& nw.pages@[nw.page_table@[p] as int].page_id == Some(p)
            } by {
                if p != page_id {
                    assert(o.page_table@.contains_key(p));
                    if o.page_table@[p] == frame {
                        assert(o.pages@[frame as int].page_id == Some(p));
                    }
                }
            }
            assert forall|f: int| 0 <= f < nw.pages@.len() && #[trigger] nw.resident(f) implies {
                &&& nw.page_table@.contains_key(nw.pages@[f].page_id->0)
                &&& nw.page_table@[nw.pages@[f].page_id->0] == f
            } by {
                if f != frame {
                    assert(o.resident(f));
                    let q = o.pages@[f].page_id->0;
                    assert(o.page_table@.contains_key(q) && o.page_table@[q] == f);
                    assert(q != page_id);
                    if o.free_list@.len() == 0 {
                        assert(q != o.pages@[frame as int].page_id->0);
                    }
                }
            }
            if o.free_list@.len() > 0 {
                assert(!o.resident(frame as int));
            }
            assert forall|a: int, b: int| 0 <= a < b < nw.free_list@.len() implies nw.free_list@[a] != nw.free_list@[b] by {
                if o.free_list@.len() > 0 {
                    assert(nw.free_list@[a] == o.free_list@[a] && nw.free_list@[b] == o.free_list@[b]);
                }
            }
            assert forall|f: int| 0 <= f < nw.pages@.len() && !#[trigger] nw.resident(f) implies nw.pages@[f].pin_count == 0 by {
                assert(f != frame);
                assert(nw.pages@[f] == o.pages@[f]);
                assert(!o.resident(f));
            }
            assert(nw.table_ok());
            assert(nw.free_ok());
            assert(nw.lru_ok());
        }
        Some((frame, evicted))
    }

    /// Moving the page-id counter keeps the pool well formed.
    proof fn lemma_counter_moved(a: &Self, b: &Self)
        requires
            a.wf(),
            b.pages == a.pages,
            b.free_list == a.free_list,
            b.page_table == a.page_table,
            b.lru == a.lru,
            b.inc_fn == a.inc_fn,
        ensures
            b.wf(),
    {
        assert forall|f: int| 0 <= f < b.pages@.len() && #[trigger] b.resident(f) implies {
            &&& b.page_table@.contains_key(b.pages@[f].page_id->0)
            &&& b.page_table@[b.pages@[f].page_id->0] == f
        } by {
            assert(a.resident(f));
        }
        assert forall|f: usize| #[trigger] b.free_list@.contains(f) <==> (f < b.pages@.len() && !b.resident(f as int)) by {
            assert(a.free_list@.contains(f) <==> (f < a.pages@.len() && !a.resident(f as int)));
        }
        assert forall|f: int| 0 <= f < b.pages@.len() && !#[trigger] b.resident(f) implies b.pages@[f].pin_count == 0 by {
            assert(!a.resident(f));
        }
        assert forall|f: usize| #[trigger] b.lru@.contains(f) <==> (f < b.pages@.len() && b.resident(f as int)
            && b.pages@[f as int].pin_count == 0) by {
            assert(a.lru@.contains(f) <==> (f < a.pages@.len() && a.resident(f as int) && a.pages@[f as int].pin_count == 0));
        }
    }

    /// No pinned frame lost its page or its bytes between `o` and `self`.
    pub open spec fn pinned_kept(o: &Self, nw: &Self) -> bool {
        forall|g: int| 0 <= g < o.pages@.len() && (#[trigger] o.pages@[g]).pin_count > 0 ==> {
            &&& nw.pages@[g].page_id == o.pages@[g].page_id
            &&& nw.pages@[g].data == o.pages@[g].data
        }
    }

    /// The write-back that the next frame handed out by `new_page`, or by
    /// `fetch_page` of a page that is not resident, would owe: the bytes of
    /// the least recently unpinned page when no frame is free and that page
    /// is dirty. Nothing changes, so a caller can save the page before the
    /// frame is taken.
    pub fn pending_eviction(&self) -> (r: Option<WriteBack>)
        requires
            self.wf(),
        ensures
            r == if self.free_list@.len() == 0 && self.lru@.len() > 0 {
                owed_write(self.pages@[self.lru@.last() as int])
            } else {
                None
            },
    {
        if self.free_list.len() > 0 {
            return None;
        }
        match self.lru.last_frame() {
            None => None,
            Some(f) => {
                proof {
                    assert(self.lru@.contains(f)) by {
                        assert(self.lru@[self.lru@.len() - 1] == f);
                    }
                }
                let page = &self.pages[f];
                if page.is_dirty {
                    match page.page_id {
                        Some(p) => Some(WriteBack { page_id: p, data: page.data }),
                        None => None,
                    }
                } else {
                    None
                }
            },
        }
    }

    /// Whether the page `page_id` is resident.
    pub fn contains_page(&self, page_id: usize) -> (r: bool)
        ensures
            r == self.page_table@.contains_key(page_id),
    {
        self.page_table.contains_key(&page_id)
    }

    /// Makes a new page, in a free frame or else in the least recently
    /// unpinned one, and pins it. Its id is the first one, going from the
    /// counter by the successor, that no frame holds: an id is never given to
    /// two frames. None, with nothing changed, when no frame is free or
    /// unpinned; also when that walk reaches `usize::MAX`, which marks the
    /// ids as spent and is never handed out.
    pub fn new_page(&mut self) -> (r: Option<NewPage>)
        requires
            old(self).wf(),
        ensures
            final(self).wf(),
            final(self).pages@.len() == old(self).pages@.len(),
            Self::pinned_kept(old(self), final(self)),
            old(self).free_list@.len() == 0 && old(self).lru@.len() == 0 ==> r is None,
            r is None ==> *final(self) == *old(self),
            r is None && (old(self).free_list@.len() > 0 || old(self).lru@.len() > 0) ==> exists|trail: Seq<usize>|
                #[trigger] old(self).resident_trail(trail) && trail.last() == usize::MAX,
            r matches Some(np) ==> {
                &&& np.page_id < usize::MAX
                &&& !old(self).page_table@.contains_key(np.page_id)
                &&& exists|trail: Seq<usize>| #[trigger] old(self).resident_trail(trail) && trail.last() == np.page_id
                &&& old(self).inc_fn.ensures((np.page_id,), final(self).next_page_id)
                &&& np.frame_id < final(self).pages@.len()
                &&& final(self).page_table@.contains_key(np.page_id)
                &&& final(self).page_table@[np.page_id] == np.frame_id
                &&& final(self).pages@[np.frame_id as int].pin_count == 1
                &&& !final(self).pages@[np.frame_id as int].is_dirty
                &&& final(self).pages@[np.frame_id as int].data@ == crate::page::zero_page()
                &&& forall|g: int| 0 <= g < old(self).pages@.len() && g != np.frame_id
                    ==> #[trigger] final(self).pages@[g] == old(self).pages@[g]
                &&& !final(self).lru@.contains(np.frame_id)
                &&& old(self).free_list@.len() > 0 ==> np.frame_id == old(self).free_list@.last() && np.evicted is None
                &&& old(self).free_list@.len() == 0 ==> np.frame_id == old(self).lru@.last()
                    && np.evicted == owed_write(old(self).pages@[np.frame_id as int])
                &&& old(self).free_list@.len() > 0 ==> final(self).free_list@ == old(self).free_list@.drop_last()
                    && final(self).lru@ == old(self).lru@
                &&& old(self).free_list@.len() == 0 ==> final(self).free_list@ == old(self).free_list@
                    && final(self).lru@ == old(self).lru@.drop_last()
            },
    {
        if self.free_list.len() == 0 && self.lru.size() == 0 {
            return None;
        }
        let mut page_id = self.next_page_id;
        let ghost mut trail: Seq<usize> = seq![page_id];
        while page_id < usize::MAX && self.page_table.contains_key(&page_id)
            invariant
                self.wf(),
                self.resident_trail(trail),
                trail.last() == page_id,
            decreases usize::MAX - page_id,
        {
            let next = (self.inc_fn)(page_id);
            proof {
                let t0 = trail;
                trail = trail.push(next);
                assert forall|i: int| 0 <= i < trail.len() - 1 implies {
                    &&& self.inc_fn.ensures((#[trigger] trail[i],), trail[i + 1])
                    &&& self.page_table@.contains_key(trail[i])
                } by {
                    if i < t0.len() - 1 {
                        assert(trail[i] == t0[i] && trail[i + 1] == t0[i + 1]);
                    }
                }
            }
            page_id = next;
        }
        if page_id == usize::MAX {
            return None;
        }
        let ghost o = *self;
        match self.find_fresh_page(page_id) {
            Some((frame_id, evicted)) => {
                let ghost mid = *self;
                self.next_page_id = (self.inc_fn)(page_id);
                proof { Self::lemma_counter_moved(&mid, self); }
                assert(o.resident_trail(trail));
                Some(NewPage { page_id, frame_id, evicted })
            },
            None => None,
        }
    }

    /// Pins the page `page_id`: where it is resident, once more; else in a
    /// fresh frame as for `new_page`, whose bytes the caller then reads from
    /// disk and hands to `fill_frame`.
    pub fn fetch_page(&mut self, page_id: usize) -> (r: FetchOutcome)
        requires
            old(self).wf(),
            old(self).pin_count_of(page_id) < u32::MAX,
        ensures
            final(self).wf(),
            final(self).pages@.len() == old(self).pages@.len(),
            final(self).next_page_id == old(self).next_page_id,
            Self::pinned_kept(old(self), final(self)),
            old(self).page_table@.contains_key(page_id) ==> {
                let f = old(self).page_table@[page_id];
                &&& r == FetchOutcome::Cached(f)
                &&& final(self).page_table@ == old(self).page_table@
                &&& final(self).pages@ == old(self).pages@.update(f as int,
                    Page { pin_count: (old(self).pages@[f as int].pin_count + 1) as u32, ..old(self).pages@[f as int] })
                &&& !final(self).lru@.contains(f)
                &&& final(self).free_list@ == old(self).free_list@
                &&& !old(self).lru@.contains(f) ==> final(self).lru@ == old(self).lru@
                &&& old(self).lru@.contains(f) ==> exists|i: int| 0 <= i < old(self).lru@.len()
                    && old(self).lru@[i] == f && final(self).lru@ == old(self).lru@.remove(i)
            },
            !old(self).page_table@.contains_key(page_id) ==> match r {
                FetchOutcome::Cached(_) => false,
                FetchOutcome::Full => old(self).free_list@.len() == 0 && old(self).lru@.len() == 0
                    && *final(self) == *old(self),
                FetchOutcome::Load(f, wb) => {
                    &&& f < final(self).pages@.len()
                    &&& final(self).page_table@.contains_key(page_id)
                    &&& final(self).page_table@[page_id] == f
                    &&& final(self).pages@[f as int].pin_count == 1
                    &&& !final(self).pages@[f as int].is_dirty
                    &&& final(self).pages@[f as int].data@ == crate::page::zero_page()
                    &&& forall|g: int| 0 <= g < old(self).pages@.len() && g != f
                        ==> #[trigger] final(self).pages@[g] == old(self).pages@[g]
                    &&& !final(self).lru@.contains(f)
                    &&& old(self).free_list@.len() > 0 ==> f == old(self).free_list@.last() && wb is None
                    &&& old(self).free_list@.len() == 0 ==> f == old(self).lru@.last()
                        && wb == owed_write(old(self).pages@[f as int])
                    &&& old(self).free_list@.len() > 0 ==> final(self).free_list@ == old(self).free_list@.drop_last()
                        && final(self).lru@ == old(self).lru@
                    &&& old(self).free_list@.len() == 0 ==> final(self).free_list@ == old(self).free_list@
                        && final(self).lru@ == old(self).lru@.drop_last()
                },
            },
    {
        let ghost o = *self;
        match self.page_table.get(&page_id) {
            Some(fr) => {
                let f = *fr;
                self.lru.remove(f);
                self.pages[f].pin();
                proof {
                    let nw = *self;
                    assert(o.page_table@.contains_key(page_id));
                    assert(nw.pages@ =~= o.pages@.update(f as int,
                        Page { pin_count: (o.pages@[f as int].pin_count + 1) as u32, ..o.pages@[f as int] }));
                    assert(forall|g: int| 0 <= g < o.pages@.len() && g != f ==> nw.pages@[g] == o.pages@[g]);
                    assert forall|x: usize| #[trigger] nw.lru@.contains(x) <==> (x < nw.pages@.len() && nw.resident(x as int)
                        && nw.pages@[x as int].pin_count == 0) by {
                        assert(o.lru@.contains(x) <==> (x < o.pages@.len() && o.resident(x as int) && o.pages@[x as int].pin_count == 0));
                        assert(nw.lru@.to_set().contains(x) == o.lru@.to_set().remove(f).contains(x));
                    }
                    assert forall|x: usize| #[trigger] nw.free_list@.contains(x) <==> (x < nw.pages@.len() && !nw.resident(x as int)) by {
                        assert(o.free_list@.contains(x) <==> (x < o.pages@.len() && !o.resident(x as int)));
                    }
                    assert forall|g: int| 0 <= g < nw.pages@.len() && !#[trigger] nw.resident(g) implies nw.pages@[g].pin_count == 0 by {
                        assert(!o.resident(g));
                    }
                    assert forall|g: int| 0 <= g < nw.pages@.len() && #[trigger] nw.resident(g) implies {
                        &&& nw.page_table@.contains_key(nw.pages@[g].page_id->0)
                        &&& nw.page_table@[nw.pages@[g].page_id->0] == g
                    } by {
                        assert(o.resident(g));
                    }
                    assert(nw.table_ok());
                    assert(nw.free_ok());
                }
                FetchOutcome::Cached(f)
            },
            None => {
                match self.find_fresh_page(page_id) {
                    Some((f, wb)) => FetchOutcome::Load(f, wb),
                    None => FetchOutcome::Full,
                }
            },
        }
    }

    /// Puts the bytes read from disk into frame `frame_id`.
    pub fn fill_frame(&mut self, frame_id: usize, data: [u8; PAGE_SIZE])
        requires
            old(self).wf(),
            frame_id < old(self).pages@.len(),
        ensures
            final(self).wf(),
            final(self).pages@ == old(self).pages@.update(frame_id as int, Page { data, ..old(self).pages@[frame_id as int] }),
            final(self).page_table@ == old(self).page_table@,
            final(self).free_list@ == old(self).free_list@,
            final(self).lru@ == old(self).lru@,
            final(self).next_page_id == old(self).next_page_id,
    {
        let ghost o = *self;
        self.pages[frame_id].data = data;
        proof {
            let nw = *self;
            assert(forall|g: int| 0 <= g < o.pages@.len() ==> nw.resident(g) == o.resident(g) && nw.pages@[g].pin_count == o.pages@[g].pin_count);
        }
    }

    /// Drops one pin of the resident page `page_id` and ORs `is_dirty` into
    /// its dirty flag; at zero pins its frame becomes the most recent eviction
    /// candidate. When the page is then dirty, the write-back of its bytes is
    /// returned with `true`. `(false, None)`, with nothing changed, when the
    /// page is not resident or not pinned.
    pub fn unpin_page(&mut self, page_id: usize, is_dirty: bool) -> (r: (bool, Option<WriteBack>))
        requires
            old(self).wf(),
        ensures
            final(self).wf(),
            final(self).pages@.len() == old(self).pages@.len(),
            final(self).next_page_id == old(self).next_page_id,
            final(self).page_table@ == old(self).page_table@,
            final(self).free_list@ == old(self).free_list@,
            r.0 <==> old(self).page_table@.contains_key(page_id) && old(self).pin_count_of(page_id) > 0,
            !r.0 ==> *final(self) == *old(self) && r.1 is None,
            r.0 ==> {
                let f = old(self).page_table@[page_id];
                let p = old(self).pages@[f as int];
                let q = Page { pin_count: (p.pin_count - 1) as u32, is_dirty: p.is_dirty || is_dirty, ..p };
                &&& final(self).pages@ == old(self).pages@.update(f as int, q)
                &&& q.pin_count == 0 ==> final(self).lru@ == seq![f] + old(self).lru@
                &&& q.pin_count > 0 ==> final(self).lru@ == old(self).lru@
                &&& r.1 == owed_write(q)
            },
    {
        let ghost o = *self;
        match self.page_table.get(&page_id) {
            None => (false, None),
            Some(fr) => {
                let f = *fr;
                if self.pages[f].pin_count == 0 {
                    return (false, None);
                }
                proof { assert(!o.lru@.contains(f)); }
                self.pages[f].unpin();
                if is_dirty {
                    self.pages[f].set_dirty(true);
                }
                if self.pages[f].pin_count == 0 {
                    self.lru.add(f);
                }
                let wb = if self.pages[f].is_dirty {
                    Some(WriteBack { page_id, data: self.pages[f].data })
                } else {
                    None
                };
                proof {
                    let nw = *self;
                    let p = o.pages@[f as int];
                    let q = Page { pin_count: (p.pin_count - 1) as u32, is_dirty: p.is_dirty || is_dirty, ..p };
                    assert(nw.pages@ =~= o.pages@.update(f as int, q));
                    assert(o.page_table@.contains_key(page_id));
                    assert(p.page_id == Some(page_id));
                    assert forall|x: usize| #[trigger] nw.lru@.contains(x) <==> (x < nw.pages@.len() && nw.resident(x as int)
                        && nw.pages@[x as int].pin_count == 0) by {
                        assert(o.lru@.contains(x) <==> (x < o.pages@.len() && o.resident(x as int) && o.pages@[x as int].pin_count == 0));
                        if x == f && q.pin_count == 0 {
                            assert(nw.lru@[0] == f);
                        }
                        if x != f && nw.lru@.contains(x) && q.pin_count == 0 {
                            let i = choose|i: int| 0 <= i < nw.lru@.len() && nw.lru@[i] == x;
                            assert(o.lru@[i - 1] == x);
                        }
                        if x != f && o.lru@.contains(x) && q.pin_count == 0 {
                            let i = choose|i: int| 0 <= i < o.lru@.len() && o.lru@[i] == x;
                            assert(nw.lru@[i + 1] == x);
                        }
                    }
                    assert forall|x: usize| #[trigger] nw.free_list@.contains(x) <==> (x < nw.pages@.len() && !nw.resident(x as int)) by {
                        assert(o.free_list@.contains(x) <==> (x < o.pages@.len() && !o.resident(x as int)));
                    }
                    assert forall|g: int| 0 <= g < nw.pages@.len() && !#[trigger] nw.resident(g) implies nw.pages@[g].pin_count == 0 by {
                        assert(!o.resident(g));
                    }
                    assert forall|g: int| 0 <= g < nw.pages@.len() && #[trigger] nw.resident(g) implies {
                        &&& nw.page_table@.contains_key(nw.pages@[g].page_id->0)
                        &&& nw.page_table@[nw.pages@[g].page_id->0] == g
                    } by {
                        assert(o.resident(g));
                    }
                    assert(nw.table_ok());
                    assert(nw.free_ok());
                }
                (true, wb)
            },
        }
    }

    /// `true` when the page `page_id` is resident, with the write-back of its
    /// bytes when it is dirty; `(false, None)` when it is not resident.
    pub fn flush_page(&self, page_id: usize) -> (r: (bool, Option<WriteBack>))
        requires
            self.wf(),
        ensures
            r.0 == self.page_table@.contains_key(page_id),
            r.0 ==> r.1 == owed_write(self.pages@[self.page_table@[page_id] as int]),
            !r.0 ==> r.1 is None,
    {
        match self.page_table.get(&page_id) {
            None => (false, None),
            Some(fr) => {
                let f = *fr;
                if self.pages[f].is_dirty {
                    (true, Some(WriteBack { page_id, data: self.pages[f].data }))
                } else {
                    (true, None)
                }
            },
        }
    }

    /// Frees the frame of the resident, unpinned page `page_id`: the frame is
    /// reset and goes to the free list, the page leaves the table and the
    /// recency list. `false`, with nothing changed, when the page is not
    /// resident or is pinned.
    pub fn delete_page(&mut self, page_id: usize) -> (r: bool)
        requires
            old(self).wf(),
        ensures
            final(self).wf(),
            final(self).pages@.len() == old(self).pages@.len(),
            final(self).next_page_id == old(self).next_page_id,
            r <==> old(self).page_table@.contains_key(page_id) && old(self).pin_count_of(page_id) == 0,
            !r ==> *final(self) == *old(self),
            r ==> {
                let f = old(self).page_table@[page_id];
                &&& final(self).page_table@ == old(self).page_table@.remove(page_id)
                &&& final(self).free_list@ == old(self).free_list@.push(f)
                &&& !final(self).lru@.contains(f)
                &&& final(self).pages@[f as int].page_id is None
                &&& final(self).pages@[f as int].data@ == crate::page::zero_page()
                &&& !final(self).pages@[f as int].is_dirty
                &&& final(self).pages@[f as int].pin_count == 0
                &&& forall|g: int| 0 <= g < old(self).pages@.len() && g != f
                    ==> #[trigger] final(self).pages@[g] == old(self).pages@[g]
            },
    {
        let ghost o = *self;
        match self.page_table.get(&page_id) {
            None => false,
            Some(fr) => {
                let f = *fr;
                if self.pages[f].pin_count != 0 {
                    return false;
                }
                proof {
                    assert(o.page_table@.contains_key(page_id));
                    assert(o.resident(f as int));
                    assert(!o.free_list@.contains(f));
                }
                self.pages[f].reset();
                self.page_table.remove(&page_id);
                self.free_list.push(f);
                self.lru.remove(f);
                proof {
                    let nw = *self;
                    assert(forall|g: int| 0 <= g < o.pages@.len() && g != f ==> nw.pages@[g] == o.pages@[g]);
                    assert forall|x: usize| #[trigger] nw.lru@.contains(x) <==> (x < nw.pages@.len() && nw.resident(x as int)
                        && nw.pages@[x as int].pin_count == 0) by {
                        assert(o.lru@.contains(x) <==> (x < o.pages@.len() && o.resident(x as int) && o.pages@[x as int].pin_count == 0));
                        assert(nw.lru@.to_set().contains(x) == o.lru@.to_set().remove(f).contains(x));
                    }
                    assert forall|x: usize| #[trigger] nw.free_list@.contains(x) <==> (x < nw.pages@.len() && !nw.resident(x as int)) by {
                        assert(o.free_list@.contains(x) <==> (x < o.pages@.len() && !o.resident(x as int)));
                        if x == f {
                            assert(nw.free_list@[nw.free_list@.len() - 1] == f);
                        } else {
                            if nw.free_list@.contains(x) {
                                let i = choose|i: int| 0 <= i < nw.free_list@.len() && nw.free_list@[i] == x;
                                assert(o.free_list@[i] == x);
                            }
                            if o.free_list@.contains(x) {
                                let i = choose|i: int| 0 <= i < o.free_list@.len() && o.free_list@[i] == x;
                                assert(nw.free_list@[i] == x);
                            }
                        }
                    }
                    assert forall|a: int, b: int| 0 <= a < b < nw.free_list@.len() implies nw.free_list@[a] != nw.free_list@[b] by {
                        if b == nw.free_list@.len() - 1 {
                            assert(o.free_list@.contains(nw.free_list@[a]));
                        } else {
                            assert(nw.free_list@[a] == o.free_list@[a] && nw.free_list@[b] == o.free_list@[b]);
                        }
                    }
                    assert forall|g: int| 0 <= g < nw.pages@.len() && !#[trigger] nw.resident(g) implies nw.pages@[g].pin_count == 0 by {
                        if g != f {
                            assert(!o.resident(g));
                        }
                    }
                    assert forall|p: usize| #[trigger] nw.page_table@.contains_key(p) implies {
                        &&& nw.page_table@[p] < nw.pages@.len()
                        &&& nw.pages@[nw.page_table@[p] as int].page_id == Some(p)
                    } by {
                        assert(o.page_table@.contains_key(p));
                        if o.page_table@[p] == f {
                            assert(o.pages@[f as int].page_id == Some(p));
                        }
                    }
                    assert forall|g: int| 0 <= g < nw.pages@.len() && #[trigger] nw.resident(g) implies {
                        &&& nw.page_table@.contains_key(nw.pages@[g].page_id->0)
                        &&& nw.page_table@[nw.pages@[g].page_id->0] == g
                    } by {
                        assert(o.resident(g));
                        assert(g != f);
                        assert(o.pages@[g].page_id->0 != page_id);
                    }
                    assert(nw.table_ok());
                    assert(nw.free_ok());
                }
                true
            },
        }
    }

    /// Hands the bytes of frame `frame_id` to `f`, which gives back the bytes
    /// the frame is to hold together with a result; returns that result.
    pub fn access_page_data<G, R>(&mut self, frame_id: usize, f: G) -> (r: R)
        where G: FnOnce([u8; PAGE_SIZE]) -> ([u8; PAGE_SIZE], R),
        requires
            old(self).wf(),
            frame_id < old(self).pages@.len(),
            f.requires((old(self).pages@[frame_id as int].data,)),
        ensures
            f.ensures((old(self).pages@[frame_id as int].data,), (final(self).pages@[frame_id as int].data, r)),
            final(self).wf(),
            final(self).pages@.len() == old(self).pages@.len(),
            final(self).page_table@ == old(self).page_table@,
            final(self).free_list@ == old(self).free_list@,
            final(self).lru@ == old(self).lru@,
            final(self).next_page_id == old(self).next_page_id,
            forall|g: int| 0 <= g < old(self).pages@.len() && g != frame_id
                ==> #[trigger] final(self).pages@[g] == old(self).pages@[g],
            final(self).pages@[frame_id as int].page_id == old(self).pages@[frame_id as int].page_id,
            final(self).pages@[frame_id as int].pin_count == old(self).pages@[frame_id as int].pin_count,
            final(self).pages@[frame_id as int].is_dirty == old(self).pages@[frame_id as int].is_dirty,
    {
        let ghost o = *self;
        let r = self.pages[frame_id].access_page_data(f);
        proof {
            let nw = *self;
            assert forall|g: int| 0 <= g < o.pages@.len() implies #[trigger] nw.resident(g) == o.resident(g)
                && nw.pages@[g].pin_count == o.pages@[g].pin_count by {
            }
            assert forall|x: usize| #[trigger] nw.lru@.contains(x) <==> (x < nw.pages@.len() && nw.resident(x as int)
                && nw.pages@[x as int].pin_count == 0) by {
                assert(o.lru@.contains(x) <==> (x < o.pages@.len() && o.resident(x as int) && o.pages@[x as int].pin_count == 0));
            }
            assert forall|x: usize| #[trigger] nw.free_list@.contains(x) <==> (x < nw.pages@.len() && !nw.resident(x as int)) by {
                assert(o.free_list@.contains(x) <==> (x < o.pages@.len() && !o.resident(x as int)));
            }
            assert forall|g: int| 0 <= g < nw.pages@.len() && !#[trigger] nw.resident(g) implies nw.pages@[g].pin_count == 0 by {
                assert(!o.resident(g));
            }
            assert forall|g: int| 0 <= g < nw.pages@.len() && #[trigger] nw.resident(g) implies {
                &&& nw.page_table@.contains_key(nw.pages@[g].page_id->0)
                &&& nw.page_table@[nw.pages@[g].page_id->0] == g
            } by {
                assert(o.resident(g));
            }
            assert(nw.table_ok());
            assert(nw.free_ok());
        }
        r
    }

    /// The frame `frame_id`.
    pub fn page(&self, frame_id: usize) -> (r: &Page)
        requires
            frame_id < self.pages@.len(),
        ensures
            *r == self.pages@[frame_id as int],
    {
        &self.pages[frame_id]
    }

    /// The pin count of the page `page_id`; 0 when it is not resident.
    pub fn pin_count(&self, page_id: usize) -> (r: u32)
        requires
            self.wf(),
        ensures
            r == self.pin_count_of(page_id),
    {
        match self.page_table.get(&page_id) {
            None => 0,
            Some(fr) => self.pages[*fr].pin_count,
        }
    }

    /// Each page id in the page table names exactly one frame, and that frame
    /// carries the id.
    pub proof fn lemma_one_frame_per_page(&self, p: usize, f1: int, f2: int)
        requires
            self.wf(),
            0 <= f1 < self.pages@.len(),
            0 <= f2 < self.pages@.len(),
            self.pages@[f1].page_id == Some(p),
            self.pages@[f2].page_id == Some(p),
        ensures
            f1 == f2,
            self.page_table@.contains_key(p),
            self.page_table@[p] == f1,
    {
        assert(self.resident(f1) && self.resident(f2));
    }

    /// The page table only names frames that carry the page's id.
    pub proof fn lemma_table_frames_carry_ids(&self, p: usize)
        requires
            self.wf(),
            self.page_table@.contains_key(p),
        ensures
            self.page_table@[p] < self.pages@.len(),
            self.pages@[self.page_table@[p] as int].page_id == Some(p),
    {
    }

    /// A frame is an eviction candidate exactly when it holds a page and has
    /// no pin.
    pub proof fn lemma_lru_is_unpinned_resident(&self, f: usize)
        requires
            self.wf(),
        ensures
            self.lru@.contains(f) <==> (f < self.pages@.len() && self.pages@[f as int].page_id is Some
                && self.pages@[f as int].pin_count == 0),
    {
    }

    /// A frame is free exactly when it holds no page.
    pub proof fn lemma_free_is_pageless(&self, f: usize)
        requires
            self.wf(),
        ensures
            self.free_list@.contains(f) <==> (f < self.pages@.len() && self.pages@[f as int].page_id is None),
    {
    }

    /// A pool of `size` free frames whose page ids start at `next_page_id`
    /// and advance by `inc_fn`, which must be strictly increasing (and so
    /// never asked for the successor of `usize::MAX`).
    pub fn new(size: usize, next_page_id: usize, inc_fn: F) -> (r: Self)
        requires
            Self::successor_ok(inc_fn),
        ensures
            r.wf(),
            r.frame_count() == size,
            r.page_table@ == Map::<usize, usize>::empty(),
            r.free_list@ == Seq::new(size as nat, |j: int| j as usize),
            r.lru@ == Seq::<usize>::empty(),
            r.next_page_id == next_page_id,
            r.inc_fn == inc_fn,
            forall|f: int| 0 <= f < size ==> !#[trigger] r.resident(f),
            forall|f: int| 0 <= f < size ==> (#[trigger] r.pages@[f]).data@ == crate::page::zero_page()
                && !r.pages@[f].is_dirty && r.pages@[f].pin_count == 0,
    {
        let mut pages: Vec<Page> = Vec::new();
        let mut free_list: Vec<usize> = Vec::new();
        let mut i: usize = 0;
        while i < size
            invariant
                i <= size,
                pages@.len() == i,
                free_list@ == Seq::new(i as nat, |j: int| j as usize),
                forall|j: int| 0 <= j < i ==> (#[trigger] pages@[j]).page_id is None && pages@[j].pin_count == 0
                    && pages@[j].data@ == crate::page::zero_page() && !pages@[j].is_dirty,
            decreases size - i,
        {
            pages.push(Page::new());
            free_list.push(i);
            i = i + 1;
            assert(free_list@ =~= Seq::new(i as nat, |j: int| j as usize));
        }
        let r = BufferPoolInstance { pages, free_list, page_table: HashMap::new(), lru: LRU::new(), next_page_id, inc_fn };
        proof {
            assert forall|f: usize| #[trigger] r.free_list@.contains(f) <==> (f < r.pages@.len() && !r.resident(f as int)) by {
                if f < size {
                    assert(r.free_list@[f as int] == f);
                }
            }
        }
        r
    }
}

} // verus!
