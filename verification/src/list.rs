//! The recency list: a doubly-linked list over an arena of index-addressed
//! nodes, supporting O(1) insert-at-front, remove-by-handle, remove-at-back,
//! and move-to-front. The front holds the most-recently-used element, the
//! back the least-recently-used one. A handle is the stable arena index of a
//! node; it stays valid until that node is removed.

use vstd::prelude::*;

verus! {

/// Moving the element at position `i` of a sequence to the front, keeping the
/// relative order of the others.
pub open spec fn seq_move_front<A>(s: Seq<A>, i: int) -> Seq<A> {
    s.remove(i).insert(0, s[i])
}

/// How `seq_move_front` maps positions: the moved element lands at the
/// front, everything before it shifts back one place, everything after it
/// stays.
pub proof fn lemma_move_front_index<A>(s: Seq<A>, i: int, q: int)
    requires
        0 <= i < s.len(),
        0 <= q < s.len(),
    ensures
        seq_move_front(s, i).len() == s.len(),
        seq_move_front(s, i)[q] == (if q == 0 {
            s[i]
        } else if q <= i {
            s[q - 1]
        } else {
            s[q]
        }),
{
}

/// In a duplicate-free sequence, an element's position determines `index_of`.
pub proof fn lemma_index_of_unique<A>(s: Seq<A>, x: A, i: int)
    requires
        s.no_duplicates(),
        0 <= i < s.len(),
        s[i] == x,
    ensures
        s.contains(x),
        s.index_of(x) == i,
{
    assert(s.contains(x));
    let j = s.index_of(x);
    assert(0 <= j < s.len() && s[j] == x);
}

/// One arena node: an optional payload (empty only for a freed slot) and the
/// two links, each the index of a neighbouring node or nothing at an end.
struct LRUNode<T> {
    data: Option<T>,
    next: Option<usize>,
    prev: Option<usize>,
}

/// The list itself. `order` is the ghost sequence of the handles of the live
/// nodes, front (most recently used) first; it is the authoritative model that
/// the link fields are tied to.
pub struct LRUList<T> {
    nodes: Vec<LRUNode<T>>,
    free: Vec<usize>,
    front: Option<usize>,
    back: Option<usize>,
    count: usize,
    order: Ghost<Seq<usize>>,
}

impl<T> View for LRUList<T> {
    type V = Seq<T>;

    /// The payloads of the live nodes, front (most recently used) first.
    closed spec fn view(&self) -> Seq<T> {
        self.order@.map_values(|h: usize| self.nodes@[h as int].data.unwrap())
    }
}

impl<T> LRUList<T> {
    /// The handles of the live nodes, in the same order as the view.
    pub closed spec fn handles(&self) -> Seq<usize> {
        self.order@
    }

    /// A handle is valid while its node is linked into the list.
    pub open spec fn valid_handle(&self, h: usize) -> bool {
        self.handles().contains(h)
    }

    /// The node at position `i` of the order carries a payload and its links
    /// name exactly its neighbours in the order.
    spec fn slot_ok(&self, i: int) -> bool {
        let ord = self.order@;
        let h = ord[i] as int;
        &&& ord[i] < self.nodes@.len()
        &&& self.nodes@[h].data is Some
        &&& self.nodes@[h].prev == (if i == 0 {
            None::<usize>
        } else {
            Some(ord[i - 1])
        })
        &&& self.nodes@[h].next == (if i == ord.len() - 1 {
            None::<usize>
        } else {
            Some(ord[i + 1])
        })
    }

    spec fn links_ok(&self) -> bool {
        forall|i: int| 0 <= i < self.order@.len() ==> #[trigger] self.slot_ok(i)
    }

    spec fn ends_ok(&self) -> bool {
        &&& self.front == (if self.order@.len() == 0 {
            None::<usize>
        } else {
            Some(self.order@[0])
        })
        &&& self.back == (if self.order@.len() == 0 {
            None::<usize>
        } else {
            Some(self.order@.last())
        })
    }

    spec fn free_ok(&self) -> bool {
        &&& self.free@.no_duplicates()
        &&& forall|j: int|
            0 <= j < self.free@.len() ==> (#[trigger] self.free@[j]) < self.nodes@.len()
                && !self.order@.contains(self.free@[j])
    }

    /// Well-formedness: the ghost order has no duplicate handles, every link
    /// and both ends agree with it, freed slots are disjoint from it, and the
    /// stored count equals its length.
    pub closed spec fn wf(&self) -> bool {
        &&& self.order@.no_duplicates()
        &&& self.links_ok()
        &&& self.ends_ok()
        &&& self.free_ok()
        &&& self.count == self.order@.len()
    }

    /// Facts about a well-formed list that callers may rely on.
    pub proof fn lemma_wf_properties(&self)
        requires
            self.wf(),
        ensures
            self.handles().no_duplicates(),
            self.handles().len() == self@.len(),
    {
    }

    /// An empty list.
    pub fn new() -> (l: LRUList<T>)
        ensures
            l.wf(),
            l@ == Seq::<T>::empty(),
            l.handles() == Seq::<usize>::empty(),
    {
        let l = LRUList {
            nodes: Vec::new(),
            free: Vec::new(),
            front: None,
            back: None,
            count: 0,
            order: Ghost(Seq::empty()),
        };
        proof {
            assert(l@ =~= Seq::<T>::empty());
        }
        l
    }

    /// Inserts a new element at the front (the most-recently-used end) and
    /// returns a fresh handle to it.
    pub fn insert(&mut self, elem: T) -> (h: usize)
        requires
            old(self).wf(),
            old(self)@.len() < usize::MAX,
        ensures
            final(self).wf(),
            final(self)@ == old(self)@.insert(0, elem),
            final(self).handles() == old(self).handles().insert(0, h),
            !old(self).valid_handle(h),
    {
        let ghost ord = self.order@;
        let ghost old_nodes = self.nodes@;
        let node = LRUNode { data: Some(elem), next: self.front, prev: None };
        let idx: usize;
        match self.free.pop() {
            Some(f) => {
                proof {
                    assert(old(self).free@[old(self).free@.len() - 1] == f);
                    assert(f < old_nodes.len() && !ord.contains(f));
                }
                idx = f;
                self.nodes[idx] = node;
            }
            None => {
                idx = self.nodes.len();
                proof {
                    if ord.contains(idx) {
                        let w = choose|w: int| 0 <= w < ord.len() && ord[w] == idx;
                        assert(old(self).slot_ok(w));
                    }
                }
                self.nodes.push(node);
            }
        }
        match self.front {
            Some(f2) => {
                proof {
                    assert(old(self).slot_ok(0));
                    assert(f2 == ord[0] && f2 != idx);
                    assert(f2 < self.nodes@.len());
                }
                self.nodes[f2].prev = Some(idx);
            }
            None => {
                self.back = Some(idx);
            }
        }
        self.front = Some(idx);
        self.count = self.count + 1;
        self.order = Ghost(ord.insert(0, idx));
        proof {
            let new_ord = self.order@;
            assert(new_ord =~= seq![idx] + ord);
            assert(!ord.contains(idx));
            // The slots of the old order are untouched except for the old
            // front node, whose backward link now names the new node.
            assert forall|i: int| 0 <= i < new_ord.len() implies #[trigger] self.slot_ok(i) by {
                if i == 0 {
                    assert(self.nodes@[idx as int].data == Some(elem));
                } else {
                    assert(old(self).slot_ok(i - 1));
                    assert(ord.contains(ord[i - 1]));
                    assert(ord[i - 1] != idx);
                    if i == 1 {
                        assert(ord.len() > 0);
                    } else {
                        assert(ord[i - 1] != ord[0]);
                    }
                }
            };
            assert forall|p: int, q: int| 0 <= p < q < new_ord.len() implies new_ord[p]
                != new_ord[q] by {
                if p == 0 {
                    assert(ord.contains(ord[q - 1]));
                }
            };
            assert forall|j: int|
                0 <= j < self.free@.len() implies (#[trigger] self.free@[j]) < self.nodes@.len()
                && !new_ord.contains(self.free@[j]) by {
                assert(old(self).free@[j] == self.free@[j]);
                assert(self.free@[j] < old_nodes.len());
                assert(!ord.contains(self.free@[j]));
                assert(self.free@[j] != idx);
                if new_ord.contains(self.free@[j]) {
                    let w = choose|w: int|
                        0 <= w < new_ord.len() && new_ord[w] == self.free@[j];
                    assert(w > 0 && ord[w - 1] == self.free@[j]);
                }
            };
            assert forall|j1: int, j2: int| 0 <= j1 < j2 < self.free@.len() implies self.free@[j1]
                != self.free@[j2] by {
                assert(old(self).free@[j1] == self.free@[j1]);
                assert(old(self).free@[j2] == self.free@[j2]);
            };
            assert(self@ =~= old(self)@.insert(0, elem)) by {
                assert(old(self)@.insert(0, elem) =~= seq![elem] + old(self)@);
                assert(self@.len() == new_ord.len());
                assert forall|i: int| 0 <= i < new_ord.len() implies self@[i] == (seq![elem]
                    + old(self)@)[i] by {
                    if i == 0 {
                    } else {
                        assert(old(self).slot_ok(i - 1));
                        assert(ord[i - 1] != idx);
                        if i == 1 {
                        } else {
                            assert(ord[i - 1] != ord[0]);
                        }
                        assert(self.nodes@[ord[i - 1] as int].data == old_nodes[ord[i
                            - 1] as int].data);
                        assert(old(self)@[i - 1] == old_nodes[ord[i - 1] as int].data.unwrap());
                    }
                };
            };
        }
        idx
    }

    /// Unlinks the node the handle refers to, wherever it sits, splicing its
    /// neighbours together, and returns its payload. The handle becomes
    /// invalid.
    pub fn remove(&mut self, h: usize) -> (v: T)
        requires
            old(self).wf(),
            old(self).valid_handle(h),
        ensures
            final(self).wf(),
            ({
                let i = old(self).handles().index_of(h);
                &&& v == old(self)@[i]
                &&& final(self)@ == old(self)@.remove(i)
                &&& final(self).handles() == old(self).handles().remove(i)
            }),
    {
        let ghost ord = self.order@;
        let ghost old_nodes = self.nodes@;
        let ghost i: int = ord.index_of(h);
        proof {
            lemma_index_of_unique(ord, h, choose|w: int| 0 <= w < ord.len() && ord[w] == h);
            assert(0 <= i < ord.len() && ord[i] == h);
            assert(self.slot_ok(i));
            if i > 0 {
                assert(self.slot_ok(i - 1));
            }
            if i < ord.len() - 1 {
                assert(self.slot_ok(i + 1));
            }
        }
        let nxt = self.nodes[h].next;
        let prv = self.nodes[h].prev;
        match nxt {
            Some(n) => {
                self.nodes[n].prev = prv;
            }
            None => {
                self.back = prv;
            }
        }
        match prv {
            Some(p) => {
                self.nodes[p].next = nxt;
            }
            None => {
                self.front = nxt;
            }
        }
        let vopt = self.nodes[h].data.take();
        self.free.push(h);
        self.count = self.count - 1;
        self.order = Ghost(ord.remove(i));
        proof {
            let new_ord = self.order@;
            assert(new_ord.len() == ord.len() - 1);
            assert forall|q: int| 0 <= q < new_ord.len() implies new_ord[q] == (if q < i {
                ord[q]
            } else {
                ord[q + 1]
            }) by {}
            assert forall|p: int, q: int| 0 <= p < q < new_ord.len() implies new_ord[p]
                != new_ord[q] by {}
            // Every remaining slot either kept its node untouched or had
            // exactly the link toward the removed node redirected.
            assert forall|q: int| 0 <= q < new_ord.len() implies #[trigger] self.slot_ok(q) by {
                if q < i - 1 {
                    assert(old(self).slot_ok(q));
                    assert(ord[q] != ord[i]);
                    assert(ord[q] != ord[i - 1]);
                    if i < ord.len() - 1 {
                        assert(ord[q] != ord[i + 1]);
                    }
                } else if q == i - 1 {
                    assert(old(self).slot_ok(q));
                } else if q == i {
                    assert(old(self).slot_ok(q + 1));
                } else {
                    assert(old(self).slot_ok(q + 1));
                    assert(ord[q + 1] != ord[i]);
                    if i > 0 {
                        assert(ord[q + 1] != ord[i - 1]);
                    }
                    if i < ord.len() - 1 {
                        assert(ord[q + 1] != ord[i + 1] || q == i);
                    }
                }
            };
            assert forall|j: int|
                0 <= j < self.free@.len() implies (#[trigger] self.free@[j]) < self.nodes@.len()
                && !new_ord.contains(self.free@[j]) by {
                if j < self.free@.len() - 1 {
                    assert(self.free@[j] == old(self).free@[j]);
                    assert(old(self).free@[j] < old_nodes.len());
                    assert(!ord.contains(old(self).free@[j]));
                    if new_ord.contains(self.free@[j]) {
                        let w = choose|w: int|
                            0 <= w < new_ord.len() && new_ord[w] == self.free@[j];
                        assert(ord.contains(self.free@[j]));
                    }
                } else {
                    assert(self.free@[j] == h);
                    if new_ord.contains(h) {
                        let w = choose|w: int| 0 <= w < new_ord.len() && new_ord[w] == h;
                        assert(ord[if w < i {
                            w
                        } else {
                            w + 1
                        }] == h);
                    }
                }
            };
            assert forall|j1: int, j2: int| 0 <= j1 < j2 < self.free@.len() implies self.free@[j1]
                != self.free@[j2] by {
                if j2 == self.free@.len() - 1 {
                    assert(self.free@[j1] == old(self).free@[j1]);
                    assert(!ord.contains(old(self).free@[j1]));
                    assert(ord.contains(h));
                } else {
                    assert(self.free@[j1] == old(self).free@[j1]);
                    assert(self.free@[j2] == old(self).free@[j2]);
                }
            };
            assert(self@ =~= old(self)@.remove(i)) by {
                assert forall|q: int| 0 <= q < new_ord.len() implies self@[q] == old(self)@.remove(
                    i,
                )[q] by {
                    let s = if q < i {
                        q
                    } else {
                        q + 1
                    };
                    assert(old(self).slot_ok(s));
                    assert(ord[s] != ord[i]);
                    if i > 0 && ord[s] == ord[i - 1] {
                        assert(s == i - 1);
                    }
                    if i < ord.len() - 1 && ord[s] == ord[i + 1] {
                        assert(s == i + 1);
                    }
                    assert(self.nodes@[ord[s] as int].data == old_nodes[ord[s] as int].data);
                    assert(old(self)@[s] == old_nodes[ord[s] as int].data.unwrap());
                };
            };
            assert(vopt == old_nodes[h as int].data);
        }
        vopt.unwrap()
    }

    /// Unlinks and returns the back (least-recently-used) element's payload,
    /// or nothing if the list is empty.
    pub fn remove_last(&mut self) -> (r: Option<T>)
        requires
            old(self).wf(),
        ensures
            final(self).wf(),
            old(self)@.len() == 0 ==> r is None && final(self)@ == old(self)@
                && final(self).handles() == old(self).handles(),
            old(self)@.len() > 0 ==> r == Some(old(self)@.last()) && final(self)@ == old(
                self,
            )@.drop_last() && final(self).handles() == old(self).handles().drop_last(),
    {
        let ghost ord = self.order@;
        match self.back {
            None => None,
            Some(b) => {
                proof {
                    assert(ord.len() > 0 && b == ord.last());
                    lemma_index_of_unique(ord, b, ord.len() - 1);
                }
                let v = self.remove(b);
                proof {
                    assert(old(self)@.remove(ord.len() - 1) =~= old(self)@.drop_last());
                    assert(ord.remove(ord.len() - 1) =~= ord.drop_last());
                }
                Some(v)
            }
        }
    }

    /// Unlinks the referenced node and relinks it at the front, promoting it
    /// to most-recently-used; the handle stays valid. Promoting the front
    /// element leaves the list unchanged.
    pub fn reinsert_front(&mut self, h: usize)
        requires
            old(self).wf(),
            old(self).valid_handle(h),
        ensures
            final(self).wf(),
            ({
                let i = old(self).handles().index_of(h);
                &&& final(self)@ == seq_move_front(old(self)@, i)
                &&& final(self).handles() == seq_move_front(old(self).handles(), i)
            }),
    {
        let ghost ord = self.order@;
        let ghost old_nodes = self.nodes@;
        let ghost i: int = ord.index_of(h);
        proof {
            lemma_index_of_unique(ord, h, choose|w: int| 0 <= w < ord.len() && ord[w] == h);
            assert(0 <= i < ord.len() && ord[i] == h);
            assert(self.slot_ok(i));
            if i > 0 {
                assert(self.slot_ok(i - 1));
                assert(self.slot_ok(0));
            }
            if i < ord.len() - 1 {
                assert(self.slot_ok(i + 1));
            }
        }
        let prv = self.nodes[h].prev;
        match prv {
            None => {
                proof {
                    assert(i == 0);
                    assert(seq_move_front(ord, 0) =~= ord);
                    assert(seq_move_front(old(self)@, 0) =~= old(self)@);
                }
            }
            Some(p) => {
                let nxt = self.nodes[h].next;
                match nxt {
                    Some(n) => {
                        self.nodes[n].prev = Some(p);
                    }
                    None => {
                        self.back = Some(p);
                    }
                }
                self.nodes[p].next = nxt;
                let f = self.front.unwrap();
                self.nodes[h].prev = None;
                self.nodes[h].next = Some(f);
                self.nodes[f].prev = Some(h);
                self.front = Some(h);
                self.order = Ghost(seq_move_front(ord, i));
                proof {
                    let new_ord = self.order@;
                    assert(i > 0 && p == ord[i - 1] && f == ord[0]);
                    assert(new_ord.len() == ord.len());
                    assert forall|q: int| 0 <= q < new_ord.len() implies new_ord[q] == (if q == 0 {
                        ord[i]
                    } else if q <= i {
                        ord[q - 1]
                    } else {
                        ord[q]
                    }) by {
                        assert(new_ord == ord.remove(i).insert(0, ord[i]));
                    }
                    assert forall|a: int, b: int| 0 <= a < b < new_ord.len() implies new_ord[a]
                        != new_ord[b] by {}
                    // Touched slots: h (relinked at front), its old
                    // neighbours p and n, and the old front f.
                    assert forall|q: int| 0 <= q < new_ord.len() implies #[trigger] self.slot_ok(
                        q,
                    ) by {
                        let s = if q == 0 {
                            i
                        } else if q <= i {
                            q - 1
                        } else {
                            q
                        };
                        assert(old(self).slot_ok(s));
                        if q == 0 {
                        } else if q == 1 {
                            // the old front node, now second
                            assert(s == 0 && ord[s] == f);
                        } else if q == i {
                            // the node before h, now at h's old position
                            assert(s == i - 1 && ord[s] == p);
                        } else if q == i + 1 && i < ord.len() - 1 {
                            // the node after h
                            assert(s == i + 1 && ord[s] == ord[i + 1]);
                        } else {
                            // untouched in between or after
                            assert(ord[s] != h && ord[s] != f && ord[s] != p);
                            if i < ord.len() - 1 {
                                assert(ord[s] != ord[i + 1]);
                            }
                        }
                    };
                    assert forall|j: int|
                        0 <= j < self.free@.len() implies (#[trigger] self.free@[j])
                        < self.nodes@.len() && !new_ord.contains(self.free@[j]) by {
                        assert(old(self).free@[j] == self.free@[j]);
                        assert(!ord.contains(self.free@[j]));
                        if new_ord.contains(self.free@[j]) {
                            let w = choose|w: int|
                                0 <= w < new_ord.len() && new_ord[w] == self.free@[j];
                            assert(ord.contains(self.free@[j]));
                        }
                    };
                    assert(self@ =~= seq_move_front(old(self)@, i)) by {
                        assert forall|q: int| 0 <= q < new_ord.len() implies self@[q]
                            == seq_move_front(old(self)@, i)[q] by {
                            let s = if q == 0 {
                                i
                            } else if q <= i {
                                q - 1
                            } else {
                                q
                            };
                            assert(old(self).slot_ok(s));
                            assert(self.nodes@[ord[s] as int].data
                                == old_nodes[ord[s] as int].data);
                            assert(old(self)@[s] == old_nodes[ord[s] as int].data.unwrap());
                            assert(seq_move_front(old(self)@, i)[q] == old(self)@[s]);
                        };
                    };
                }
            }
        }
    }

    /// How many elements the list holds.
    pub fn count(&self) -> (n: usize)
        requires
            self.wf(),
        ensures
            n == self@.len(),
    {
        self.count
    }

    /// The handle of the back (least-recently-used) element, if any.
    pub fn back_handle(&self) -> (r: Option<usize>)
        requires
            self.wf(),
        ensures
            self@.len() == 0 ==> r is None,
            self@.len() > 0 ==> r == Some(self.handles().last()),
    {
        self.back
    }

    /// A reference to the front (most-recently-used) element's payload, for
    /// inspection in tests; nothing if the list is empty.
    pub fn _testing_head_ref(&self) -> (r: Option<&T>)
        requires
            self.wf(),
        ensures
            self@.len() == 0 ==> r is None,
            self@.len() > 0 ==> (r matches Some(x) && *x == self@[0]),
    {
        match self.front {
            None => None,
            Some(f) => {
                proof {
                    assert(self.slot_ok(0));
                }
                match &self.nodes[f].data {
                    Some(x) => Some(x),
                    None => None,
                }
            }
        }
    }
}

} // verus!
