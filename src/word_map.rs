use core::cmp::Ordering;
use vstd::prelude::*;
use crate::bytes::{compare_bytes, lemma_lex_cmp_antisym, lemma_lex_cmp_trans, lex_cmp};
use crate::index::{IndexData, IndexDataView};

verus! {

/// A map from headword bytes to records, kept as a vector sorted by key.
pub struct WordMap {
    entries: Vec<(Vec<u8>, IndexData)>,
    model: Ghost<Map<Seq<u8>, IndexDataView>>,
}

impl View for WordMap {
    type V = Map<Seq<u8>, IndexDataView>;

    closed spec fn view(&self) -> Map<Seq<u8>, IndexDataView> {
        self.model@
    }
}

impl WordMap {
    pub closed spec fn wf(&self) -> bool {
        let e = self.entries@;
        &&& forall|i: int, j: int|
            0 <= i < j < e.len() ==> lex_cmp(#[trigger] e[i].0@, #[trigger] e[j].0@) < 0
        &&& forall|i: int|
            0 <= i < e.len() ==> #[trigger] self.model@.contains_key(e[i].0@)
                && self.model@[e[i].0@] == e[i].1@
        &&& forall|k: Seq<u8>|
            #[trigger] self.model@.contains_key(k) ==> exists|i: int|
                0 <= i < e.len() && #[trigger] e[i].0@ == k
        &&& self.model@.dom().finite()
        &&& self.model@.dom().len() == e.len()
    }

    pub proof fn lemma_finite(&self)
        requires
            self.wf(),
        ensures
            self@.dom().finite(),
    {
    }

    pub fn new() -> (r: WordMap)
        ensures
            r.wf(),
            r@ == Map::<Seq<u8>, IndexDataView>::empty(),
    {
        WordMap { entries: Vec::new(), model: Ghost(Map::empty()) }
    }

    pub fn with_capacity(capacity: usize) -> (r: WordMap)
        ensures
            r.wf(),
            r@ == Map::<Seq<u8>, IndexDataView>::empty(),
    {
        WordMap { entries: Vec::with_capacity(capacity), model: Ghost(Map::empty()) }
    }

    pub fn len(&self) -> (r: usize)
        requires
            self.wf(),
        ensures
            r == self@.dom().len(),
    {
        self.entries.len()
    }

    /// Binary search: `(true, i)` when entry `i` has `key`, else `(false, i)`
    /// with `i` the place where `key` belongs.
    fn find(&self, key: &[u8]) -> (r: (bool, usize))
        requires
            self.wf(),
        ensures
            r.1 <= self.entries@.len(),
            r.0 ==> r.1 < self.entries@.len() && self.entries@[r.1 as int].0@ == key@,
            !r.0 ==> forall|i: int|
                0 <= i < r.1 ==> lex_cmp(#[trigger] self.entries@[i].0@, key@) < 0,
            !r.0 ==> forall|i: int|
                r.1 <= i < self.entries@.len() ==> lex_cmp(key@, #[trigger] self.entries@[i].0@)
                    < 0,
    {
        let mut lo: usize = 0;
        let mut hi: usize = self.entries.len();
        while lo < hi
            invariant
                self.wf(),
                lo <= hi <= self.entries@.len(),
                forall|i: int| 0 <= i < lo ==> lex_cmp(#[trigger] self.entries@[i].0@, key@) < 0,
                forall|i: int|
                    hi <= i < self.entries@.len() ==> lex_cmp(
                        key@,
                        #[trigger] self.entries@[i].0@,
                    ) < 0,
            decreases hi - lo,
        {
            let mid = lo + (hi - lo) / 2;
            let ghost km = self.entries@[mid as int].0@;
            let c = compare_bytes(self.entries[mid].0.as_slice(), key);
            proof {
                lemma_lex_cmp_antisym(km, key@);
            }
            match c {
                Ordering::Equal => {
                    return (true, mid);
                },
                Ordering::Less => {
                    assert forall|i: int| 0 <= i <= mid implies lex_cmp(
                        #[trigger] self.entries@[i].0@,
                        key@,
                    ) < 0 by {
                        if i < mid {
                            lemma_lex_cmp_trans(self.entries@[i].0@, km, key@);
                        }
                    }
                    lo = mid + 1;
                },
                Ordering::Greater => {
                    assert forall|i: int| mid <= i < self.entries@.len() implies lex_cmp(
                        key@,
                        #[trigger] self.entries@[i].0@,
                    ) < 0 by {
                        if i > mid {
                            lemma_lex_cmp_trans(key@, km, self.entries@[i].0@);
                        }
                    }
                    hi = mid;
                },
            }
        }
        (false, lo)
    }

    pub fn contains_key(&self, key: &[u8]) -> (r: bool)
        requires
            self.wf(),
        ensures
            r == self@.contains_key(key@),
    {
        let (found, i) = self.find(key);
        if !found {
            assert(!self@.contains_key(key@)) by {
                if self@.contains_key(key@) {
                    let j = choose|j: int|
                        0 <= j < self.entries@.len() && #[trigger] self.entries@[j].0@ == key@;
                    lemma_lex_cmp_antisym(key@, key@);
                }
            }
        }
        found
    }

    /// Stores `data` under `key`, replacing what was stored there.
    pub fn insert(&mut self, key: Vec<u8>, data: IndexData)
        requires
            old(self).wf(),
        ensures
            final(self).wf(),
            final(self)@ == old(self)@.insert(key@, data@),
    {
        let (found, i) = self.find(key.as_slice());
        let ghost e = self.entries@;
        let ghost k = key@;
        let ghost d = data@;
        let ghost m0 = self.model@;
        assert(forall|j: int|
            0 <= j < e.len() ==> #[trigger] m0.contains_key(e[j].0@) && m0[e[j].0@] == e[j].1@);
        if found {
            proof {
                assert forall|j: int| 0 <= j < e.len() && j != i implies #[trigger] e[j].0@ != k by {
                    lemma_lex_cmp_antisym(e[j].0@, e[i as int].0@);
                }
                assert(self.model@.insert(k, d).dom() =~= self.model@.dom());
            }
            self.entries[i] = (key, data);
            self.model = Ghost(self.model@.insert(k, d));
            let ghost e2 = self.entries@;
            assert forall|a: int, b: int| 0 <= a < b < e2.len() implies lex_cmp(
                #[trigger] e2[a].0@,
                #[trigger] e2[b].0@,
            ) < 0 by {
                assert(e2[a].0@ == e[a].0@);
                assert(e2[b].0@ == e[b].0@);
            }
            assert forall|j: int| 0 <= j < e2.len() implies #[trigger] self.model@.contains_key(
                e2[j].0@,
            ) && self.model@[e2[j].0@] == e2[j].1@ by {
                if j != i {
                    assert(e2[j] == e[j]);
                    assert(m0.contains_key(e[j].0@) && m0[e[j].0@] == e[j].1@);
                    assert(e[j].0@ != k);
                } else {
                    assert(e2[j].0@ == k && e2[j].1@ == d);
                }
            }
            assert forall|q: Seq<u8>| #[trigger] self.model@.contains_key(q) implies exists|j: int|
                0 <= j < self.entries@.len() && #[trigger] self.entries@[j].0@ == q by {
                if q != k {
                    let j = choose|j: int| 0 <= j < e.len() && #[trigger] e[j].0@ == q;
                    assert(self.entries@[j].0@ == q);
                } else {
                    assert(self.entries@[i as int].0@ == q);
                }
            }
        } else {
            proof {
                assert forall|j: int| 0 <= j < e.len() implies #[trigger] e[j].0@ != k by {
                    lemma_lex_cmp_antisym(e[j].0@, k);
                }
                assert(!self.model@.contains_key(k));
            }
            self.entries.insert(i, (key, data));
            self.model = Ghost(self.model@.insert(k, d));
            let ghost e2 = self.entries@;
            assert forall|a: int, b: int| 0 <= a < b < e2.len() implies lex_cmp(
                #[trigger] e2[a].0@,
                #[trigger] e2[b].0@,
            ) < 0 by {
                if a < i && b == i {
                } else if a < i && b > i {
                    assert(e2[b] == e[b - 1]);
                } else if a == i {
                    assert(e2[b] == e[b - 1]);
                } else if a > i {
                    assert(e2[a] == e[a - 1]);
                    assert(e2[b] == e[b - 1]);
                }
            }
            assert forall|j: int| 0 <= j < e2.len() implies #[trigger] self.model@.contains_key(
                e2[j].0@,
            ) && self.model@[e2[j].0@] == e2[j].1@ by {
                if j < i {
                    assert(e2[j] == e[j]);
                } else if j > i {
                    assert(e2[j] == e[j - 1]);
                }
            }
            assert forall|q: Seq<u8>| #[trigger] self.model@.contains_key(q) implies exists|j: int|
                0 <= j < e2.len() && #[trigger] e2[j].0@ == q by {
                if q != k {
                    let j = choose|j: int| 0 <= j < e.len() && #[trigger] e[j].0@ == q;
                    if j < i {
                        assert(e2[j] == e[j]);
                    } else {
                        assert(e2[j + 1] == e[j]);
                    }
                } else {
                    assert(e2[i as int].0@ == q);
                }
            }
        }
    }

    /// A copy of the record stored under `key`.
    pub fn get(&self, key: &[u8]) -> (r: Option<IndexData>)
        requires
            self.wf(),
        ensures
            r is Some <==> self@.contains_key(key@),
            r matches Some(d) ==> d@ == self@[key@],
    {
        let (found, i) = self.find(key);
        if found {
            Some(self.entries[i].1.duplicate())
        } else {
            assert(!self@.contains_key(key@)) by {
                if self@.contains_key(key@) {
                    let j = choose|j: int|
                        0 <= j < self.entries@.len() && #[trigger] self.entries@[j].0@ == key@;
                    lemma_lex_cmp_antisym(key@, key@);
                }
            }
            None
        }
    }
}

} // verus!
