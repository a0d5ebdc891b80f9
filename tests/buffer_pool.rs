use std::collections::HashMap;
use std::sync::{Arc, Mutex};

use rand::{thread_rng, RngCore};
use storage_core::buffer_pool::{BufferPoolInstance, FetchOutcome, WriteBack};
use storage_core::page::PAGE_SIZE;

/// The pool's bookkeeping with an in-memory disk behind it.
struct Harness<F: Fn(usize) -> usize> {
    pool: BufferPoolInstance<F>,
    disk: HashMap<usize, [u8; PAGE_SIZE]>,
}

fn harness(size: usize) -> Harness<impl Fn(usize) -> usize> {
    Harness { pool: BufferPoolInstance::new(size, 0, |id: usize| id + 1), disk: HashMap::new() }
}

impl<F: Fn(usize) -> usize> Harness<F> {
    fn write(&mut self, wb: Option<WriteBack>) {
        if let Some(wb) = wb {
            self.disk.insert(wb.page_id, wb.data);
        }
    }

    /// The new page's id and frame.
    fn new_page(&mut self) -> Option<(usize, usize)> {
        let np = self.pool.new_page()?;
        self.write(np.evicted);
        Some((np.page_id, np.frame_id))
    }

    fn fetch_page(&mut self, page_id: usize) -> Option<usize> {
        match self.pool.fetch_page(page_id) {
            FetchOutcome::Cached(f) => Some(f),
            FetchOutcome::Load(f, wb) => {
                self.write(wb);
                let data = self.disk.get(&page_id).copied().unwrap_or([0; PAGE_SIZE]);
                self.pool.fill_frame(f, data);
                Some(f)
            },
            FetchOutcome::Full => None,
        }
    }

    fn unpin_page(&mut self, page_id: usize, is_dirty: bool) -> bool {
        let (ok, wb) = self.pool.unpin_page(page_id, is_dirty);
        self.write(wb);
        ok
    }

    fn flush_page(&mut self, page_id: usize) -> bool {
        let (ok, wb) = self.pool.flush_page(page_id);
        self.write(wb);
        ok
    }

    fn fill_random(&mut self, frame: usize) -> [u8; PAGE_SIZE] {
        let mut copy = [0; PAGE_SIZE];
        self.pool.access_page_data(frame, |mut data| {
            thread_rng().fill_bytes(&mut data);
            copy.clone_from_slice(&data);
            (data, ())
        });
        copy
    }

    fn data(&self, frame: usize) -> [u8; PAGE_SIZE] {
        self.pool.page(frame).data
    }
}

#[test]
fn should_run_scenario() {
    let size = 10;
    let mut h = harness(size);
    let (id0, frame0) = h.new_page().unwrap();
    assert_eq!(id0, 0);
    let copy0 = h.fill_random(frame0);
    for page_id in 1..size {
        let page = h.new_page();
        assert!(page.is_some());
        assert_eq!(page.unwrap().0, page_id);
    }
    for _i in size..size * 2 {
        assert!(h.new_page().is_none());
    }
    for page_id in 0..5 {
        assert!(h.unpin_page(page_id, true));
    }
    for i in 0..5 {
        let page = h.new_page();
        assert!(page.is_some());
        let page_id = page.unwrap().0;
        assert_eq!(page_id, size + i);
        assert!(h.unpin_page(page_id, false));
    }
    assert_eq!(h.data(frame0), [0; PAGE_SIZE]);
    let frame = h.fetch_page(0).unwrap();
    assert_eq!(h.pool.page(frame).get_page_id(), Some(0));
    assert_eq!(h.data(frame), copy0);
}

#[test]
fn should_read_page_without_write() {
    let mut h = harness(1);
    let frame = h.fetch_page(0);
    assert!(frame.is_some());
    assert_eq!(h.data(frame.unwrap()), [0; PAGE_SIZE]);
}

#[test]
fn should_read_write_delete_page() {
    let mut h = harness(1);
    let (_, frame0) = h.new_page().unwrap();
    let copy0 = h.fill_random(frame0);
    assert!(h.unpin_page(0, true));
    assert!(h.pool.delete_page(0));
    let another_page = h.new_page();
    assert!(another_page.is_some());
    assert_eq!(another_page.unwrap().0, 1);
    assert!(h.unpin_page(1, true));
    assert!(h.pool.delete_page(1));
    let frame = h.fetch_page(0).unwrap();
    assert_eq!(h.data(frame), copy0);
}

#[test]
fn should_not_flush_when_page_does_not_exist() {
    let mut h = harness(1);
    assert!(!h.flush_page(0));
}

#[test]
fn should_fetch_cached_page() {
    let mut h = harness(1);
    assert!(h.new_page().is_some());
    assert!(h.fetch_page(0).is_some());
}

#[test]
fn should_create_new_page_when_full() {
    let mut h = harness(1);
    assert!(h.new_page().is_some());
    assert!(h.new_page().is_none());
}

#[test]
fn buffer_pool_instance_should_work_concurrently() {
    let shared = Arc::new(Mutex::new(harness(2)));
    let clients = [(shared.clone(), 0usize), (shared.clone(), 1usize)];
    let mut frames = [0usize; 2];
    let mut copies = [[0u8; PAGE_SIZE]; 2];
    for (n, (h, page_id)) in clients.iter().enumerate() {
        frames[n] = h.lock().unwrap().fetch_page(*page_id).unwrap();
    }
    for (n, (h, _)) in clients.iter().enumerate() {
        copies[n] = h.lock().unwrap().fill_random(frames[n]);
    }
    for (h, page_id) in clients.iter() {
        h.lock().unwrap().flush_page(*page_id);
    }
    for (h, page_id) in clients.iter() {
        h.lock().unwrap().unpin_page(*page_id, true);
        h.lock().unwrap().pool.delete_page(*page_id);
    }
    for (n, (h, page_id)) in clients.iter().enumerate() {
        let frame = h.lock().unwrap().fetch_page(*page_id).unwrap();
        assert_eq!(h.lock().unwrap().data(frame), copies[n]);
    }
}

#[test]
fn unpin_of_unpinned_or_absent_page_fails() {
    let mut h = harness(2);
    assert!(!h.unpin_page(3, false));
    let (id, _) = h.new_page().unwrap();
    assert!(h.unpin_page(id, false));
    assert!(!h.unpin_page(id, false));
}

#[test]
fn delete_of_pinned_page_fails() {
    let mut h = harness(2);
    let (id, _) = h.new_page().unwrap();
    assert!(!h.pool.delete_page(id));
    assert!(!h.pool.delete_page(7));
    assert!(h.unpin_page(id, false));
    assert!(h.pool.delete_page(id));
}

#[test]
fn dirty_flag_is_sticky_across_unpins() {
    let mut h = harness(1);
    let (id, _) = h.new_page().unwrap();
    assert!(h.fetch_page(id).is_some());
    assert!(h.unpin_page(id, true));
    assert!(h.unpin_page(id, false));
    let f = h.pool.page_table.get(&id).copied().unwrap();
    assert!(h.pool.page(f).is_dirty());
    assert_eq!(h.pool.pin_count(id), 0);
}

#[test]
fn pinned_pages_are_never_evicted() {
    let mut h = harness(3);
    let (a, fa) = h.new_page().unwrap();
    let (b, _) = h.new_page().unwrap();
    let (c, _) = h.new_page().unwrap();
    assert!(h.unpin_page(b, false));
    assert!(h.unpin_page(c, false));
    for _ in 0..2 {
        let (n, _) = h.new_page().unwrap();
        assert!(h.unpin_page(n, false));
    }
    assert_eq!(h.pool.page(fa).get_page_id(), Some(a));
    assert_eq!(h.pool.pin_count(a), 1);
}

#[test]
fn frames_and_lists_stay_consistent() {
    let mut h = harness(4);
    let mut ids = Vec::new();
    for _ in 0..4 {
        ids.push(h.new_page().unwrap().0);
    }
    assert!(h.unpin_page(ids[1], true));
    assert!(h.unpin_page(ids[2], false));
    assert!(h.pool.delete_page(ids[2]));
    assert!(h.new_page().is_some());
    for (f, page) in h.pool.pages.iter().enumerate() {
        let in_free = h.pool.free_list.contains(&f);
        assert_eq!(in_free, page.get_page_id().is_none());
        if let Some(p) = page.get_page_id() {
            assert_eq!(h.pool.page_table.get(&p), Some(&f));
        }
    }
    assert_eq!(h.pool.lru.size(), 1);
}

#[test]
fn pending_eviction_names_the_dirty_victim_without_taking_it() {
    let mut h = harness(1);
    let (id, frame) = h.new_page().unwrap();
    assert!(h.pool.pending_eviction().is_none());
    let bytes = h.fill_random(frame);
    assert!(h.unpin_page(id, true));
    let wb = h.pool.pending_eviction().unwrap();
    assert_eq!(wb.page_id, id);
    assert_eq!(wb.data, bytes);
    assert!(h.pool.contains_page(id));
    assert_eq!(h.pool.page(frame).get_page_id(), Some(id));
    let np = h.pool.new_page().unwrap();
    assert_eq!(np.evicted.map(|w| w.page_id), Some(id));
    assert!(!h.pool.contains_page(id));
}

#[test]
fn new_pool_frames_are_zeroed_clean_and_free() {
    let h = harness(3);
    for f in 0..3 {
        let page = h.pool.page(f);
        assert_eq!(page.data, [0; PAGE_SIZE]);
        assert!(!page.is_dirty());
        assert_eq!(page.get_pin_count(), 0);
        assert_eq!(page.get_page_id(), None);
    }
    assert_eq!(h.pool.free_list, vec![0, 1, 2]);
}

#[test]
fn new_page_skips_an_id_already_fetched() {
    let mut h = harness(3);
    assert!(h.fetch_page(0).is_some());
    assert!(h.fetch_page(1).is_some());
    let (id, _) = h.new_page().unwrap();
    assert_eq!(id, 2);
    assert!(h.new_page().is_none());
    assert!(h.unpin_page(1, false));
    let (id, frame) = h.new_page().unwrap();
    assert_eq!(id, 3);
    assert!(!h.pool.page(frame).is_dirty());
}
