use std::collections::HashMap;
use vstd::prelude::*;

verus! {

broadcast use vstd::std_specs::hash::group_hash_axioms;

/// The neighbours of a frame id in the recency list.
#[derive(Clone, Copy)]
struct Link {
    next: Option<usize>,
    previous: Option<usize>,
}

/// The eviction candidates of the buffer pool: frame ids, each at most once,
/// from the most recently added to the least recently added. A doubly linked
/// list threaded through a map from frame id to its neighbours, so that each
/// operation takes constant time.
pub struct LRU {
    map: HashMap<usize, Link>,
    first: Option<usize>,
    last: Option<usize>,
    order: Ghost<Seq<usize>>,
}

impl View for LRU {
    type V = Seq<usize>;

    closed spec fn view(&self) -> Seq<usize> {
        self.order@
    }
}

/// The links that position `i` of `s` has in a list laid out as `s`.
spec fn link_at(s: Seq<usize>, i: int) -> Link {
    Link {
        next: if i + 1 < s.len() { Some(s[i + 1]) } else { None },
        previous: if i > 0 { Some(s[i - 1]) } else { None },
    }
}

impl LRU {
    /// The map, the ends and the ghost order describe one list.
    pub closed spec fn linked(&self) -> bool {
        let s = self.order@;
        &&& forall|x: usize| #[trigger] self.map@.contains_key(x) <==> s.contains(x)
        &&& forall|i: int| 0 <= i < s.len() ==> #[trigger] self.map@[s[i]] == link_at(s, i)
        &&& self.first == if s.len() == 0 { None } else { Some(s[0]) }
        &&& self.last == if s.len() == 0 { None } else { Some(s.last()) }
    }

    pub open spec fn wf(&self) -> bool {
        &&& self.linked()
        &&& self@.no_duplicates()
    }

    pub fn new() -> (r: LRU)
        ensures
            r.wf(),
            r@ == Seq::<usize>::empty(),
    {
        LRU { map: HashMap::new(), first: None, last: None, order: Ghost(Seq::empty()) }
    }

    /// Puts `frame_id` in front unless it is already there, in which case
    /// nothing changes.
    pub fn add(&mut self, frame_id: usize)
        requires
            old(self).wf(),
        ensures
            final(self).wf(),
            final(self)@ == if old(self)@.contains(frame_id) {
                old(self)@
            } else {
                seq![frame_id] + old(self)@
            },
    {
        if !self.map.contains_key(&frame_id) {
            let ghost s = self.order@;
            let link = Link { previous: None, next: self.first };
            if let Some(f) = self.first {
                let mut fl = *self.map.get(&f).unwrap();
                fl.previous = Some(frame_id);
                self.map.insert(f, fl);
            } else {
                self.last = Some(frame_id);
            }
            self.map.insert(frame_id, link);
            self.first = Some(frame_id);
            self.order = Ghost(seq![frame_id] + s);
            proof {
                let t = self.order@;
                assert(t.len() == s.len() + 1);
                assert forall|i: int, j: int| 0 <= i < j < t.len() implies t[i] != t[j] by {
                    if i == 0 {
                        assert(s.contains(t[j]));
                    } else {
                        assert(t[i] == s[i - 1] && t[j] == s[j - 1]);
                    }
                }
                assert forall|x: usize| #[trigger] self.map@.contains_key(x) <==> t.contains(x) by {
                    if s.contains(x) {
                        let k = choose|k: int| 0 <= k < s.len() && s[k] == x;
                        assert(t[k + 1] == x);
                    }
                    if t.contains(x) && x != frame_id {
                        let k = choose|k: int| 0 <= k < t.len() && t[k] == x;
                        assert(s[k - 1] == x);
                    }
                    if x == frame_id {
                        assert(t[0] == x);
                    }
                }
                assert forall|i: int| 0 <= i < t.len() implies #[trigger] self.map@[t[i]] == link_at(t, i) by {
                    if i == 0 {
                    } else if i == 1 {
                        assert(t[1] == s[0]);
                        assert(old(self).map@[s[0]] == link_at(s, 0));
                    } else {
                        assert(t[i] == s[i - 1]);
                        assert(old(self).map@[s[i - 1]] == link_at(s, i - 1));
                        assert(s[i - 1] != s[0]);
                    }
                }
                if s.len() > 0 {
                    assert(t.last() == s.last());
                }
            }
        }
    }

    /// Takes `frame_id` out, keeping the order of the others; nothing changes
    /// if it is absent.
    pub fn remove(&mut self, frame_id: usize)
        requires
            old(self).wf(),
        ensures
            final(self).wf(),
            !old(self)@.contains(frame_id) ==> final(self)@ == old(self)@,
            old(self)@.contains(frame_id) ==> exists|i: int|
                0 <= i < old(self)@.len() && old(self)@[i] == frame_id && final(self)@ == old(self)@.remove(i),
            !final(self)@.contains(frame_id),
            final(self)@.to_set() == old(self)@.to_set().remove(frame_id),
    {
        let ghost s = self.order@;
        if let Some(node) = self.map.remove(&frame_id) {
            let ghost i = choose|i: int| 0 <= i < s.len() && s[i] == frame_id;
            proof {
                assert(s.contains(frame_id));
                assert(old(self).map@[s[i]] == link_at(s, i));
            }
            if let Some(p) = node.previous {
                proof { assert(p == s[i - 1] && old(self).map@[s[i - 1]] == link_at(s, i - 1)); }
                let mut pl = *self.map.get(&p).unwrap();
                pl.next = node.next;
                self.map.insert(p, pl);
            }
            if let Some(n) = node.next {
                proof { assert(n == s[i + 1] && old(self).map@[s[i + 1]] == link_at(s, i + 1)); }
                let mut nl = *self.map.get(&n).unwrap();
                nl.previous = node.previous;
                self.map.insert(n, nl);
            }
            if self.first == Some(frame_id) {
                self.first = node.next;
            }
            if self.last == Some(frame_id) {
                self.last = node.previous;
            }
            self.order = Ghost(s.remove(i));
            proof {
                let t = self.order@;
                assert(t.len() == s.len() - 1);
                assert forall|a: int, b: int| 0 <= a < b < t.len() implies t[a] != t[b] by {
                    let oa = if a < i { a } else { a + 1 };
                    let ob = if b < i { b } else { b + 1 };
                    assert(t[a] == s[oa] && t[b] == s[ob]);
                }
                assert forall|x: usize| t.contains(x) implies x != frame_id by {
                    let a = choose|a: int| 0 <= a < t.len() && t[a] == x;
                    let oa = if a < i { a } else { a + 1 };
                    assert(t[a] == s[oa]);
                }
                assert forall|x: usize| #[trigger] t.to_set().contains(x) == s.to_set().remove(frame_id).contains(x) by {
                    if t.contains(x) {
                        let a = choose|a: int| 0 <= a < t.len() && t[a] == x;
                        let oa = if a < i { a } else { a + 1 };
                        assert(t[a] == s[oa]);
                    }
                    if s.contains(x) && x != frame_id {
                        let a = choose|a: int| 0 <= a < s.len() && s[a] == x;
                        if a < i {
                            assert(t[a] == x);
                        } else {
                            assert(a != i);
                            assert(t[a - 1] == x);
                        }
                    }
                }
                assert(t.to_set() =~= s.to_set().remove(frame_id));
                assert forall|x: usize| #[trigger] self.map@.contains_key(x) <==> t.contains(x) by {
                    assert(t.to_set().contains(x) == t.contains(x));
                    assert(s.to_set().contains(x) == s.contains(x));
                }
                assert forall|j: int| 0 <= j < t.len() implies #[trigger] self.map@[t[j]] == link_at(t, j) by {
                    let oj = if j < i { j } else { j + 1 };
                    assert(t[j] == s[oj]);
                    assert(old(self).map@[s[oj]] == link_at(s, oj));
                    if j + 1 < t.len() {
                        let on = if j + 1 < i { j + 1 } else { j + 2 };
                        assert(t[j + 1] == s[on]);
                    }
                    if j > 0 {
                        let op = if j - 1 < i { j - 1 } else { j };
                        assert(t[j - 1] == s[op]);
                    }
                }
                if t.len() > 0 {
                    assert(t[0] == if i == 0 { s[1] } else { s[0] });
                    assert(t.last() == if i == s.len() - 1 { s[s.len() - 2] } else { s.last() });
                }
            }
        } else {
            proof {
                assert(!s.contains(frame_id));
                assert(s.to_set().remove(frame_id) =~= s.to_set());
            }
        }
    }

    /// Takes out and returns the least recently added frame id.
    pub fn remove_last(&mut self) -> (r: Option<usize>)
        requires
            old(self).wf(),
        ensures
            final(self).wf(),
            old(self)@.len() == 0 ==> r.is_none() && final(self)@ == old(self)@,
            old(self)@.len() > 0 ==> r == Some(old(self)@.last()) && final(self)@ == old(self)@.drop_last(),
    {
        let ghost s = self.order@;
        match self.last {
            None => None,
            Some(l) => {
                let ghost k = s.len() - 1;
                proof {
                    assert(s[k] == l);
                    assert(old(self).map@[s[k]] == link_at(s, k));
                }
                let node = self.map.remove(&l).unwrap();
                self.last = node.previous;
                if let Some(p) = node.previous {
                    proof { assert(p == s[k - 1] && old(self).map@[s[k - 1]] == link_at(s, k - 1)); }
                    let mut pl = *self.map.get(&p).unwrap();
                    pl.next = None;
                    self.map.insert(p, pl);
                } else {
                    self.first = None;
                }
                self.order = Ghost(s.drop_last());
                proof {
                    let t = self.order@;
                    assert forall|a: int, b: int| 0 <= a < b < t.len() implies t[a] != t[b] by {
                        assert(t[a] == s[a] && t[b] == s[b]);
                    }
                    assert forall|x: usize| #[trigger] self.map@.contains_key(x) <==> t.contains(x) by {
                        if s.contains(x) && x != l {
                            let a = choose|a: int| 0 <= a < s.len() && s[a] == x;
                            assert(a != k);
                            assert(t[a] == x);
                        }
                        if t.contains(x) {
                            let a = choose|a: int| 0 <= a < t.len() && t[a] == x;
                            assert(s[a] == x);
                            assert(s.contains(x));
                            assert(a != k);
                        }
                    }
                    assert forall|j: int| 0 <= j < t.len() implies #[trigger] self.map@[t[j]] == link_at(t, j) by {
                        assert(t[j] == s[j]);
                        assert(old(self).map@[s[j]] == link_at(s, j));
                        assert(s[j] != l);
                    }
                    if t.len() > 0 {
                        assert(t[0] == s[0]);
                    }
                }
                Some(l)
            },
        }
    }

    /// The least recently added frame id, left in place.
    pub fn last_frame(&self) -> (r: Option<usize>)
        requires
            self.wf(),
        ensures
            self@.len() == 0 ==> r.is_none(),
            self@.len() > 0 ==> r == Some(self@.last()),
    {
        self.last
    }

    pub fn size(&self) -> (r: usize)
        requires
            self.wf(),
        ensures
            r == self@.len(),
    {
        proof {
            self@.unique_seq_to_set();
            assert(self.map@.dom() =~= self@.to_set());
        }
        self.map.len()
    }
}

} // verus!
