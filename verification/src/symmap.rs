//! An ordered map keyed by symbol names, kept sorted by [`lex_lt`], and the
//! sets of right-hand sides that grammar rules map to.
use vstd::prelude::*;
use crate::symbols::{lex_lt, lemma_lex_irreflexive, lemma_lex_transitive, order_sym};

verus! {

/// Keys strictly increasing in lexicographic order.
pub open spec fn keys_sorted(keys: Seq<Vec<char>>) -> bool {
    forall|i: int, j: int| 0 <= i < j < keys.len() ==> lex_lt(#[trigger] keys[i]@, #[trigger] keys[j]@)
}

/// A map from names to values whose keys are kept in lexicographic order,
/// so that walking it visits keys in the order a `BTreeMap<String, _>` does.
pub struct SymMap<V> {
    pub keys: Vec<Vec<char>>,
    pub vals: Vec<V>,
}

impl<V> SymMap<V> {
    pub open spec fn wf(&self) -> bool {
        &&& self.keys.len() == self.vals.len()
        &&& keys_sorted(self.keys@)
    }

    pub open spec fn key_at(&self, i: int) -> Seq<char> {
        self.keys@[i]@
    }

    pub open spec fn has(&self, k: Seq<char>) -> bool {
        exists|i: int| 0 <= i < self.keys.len() && #[trigger] self.key_at(i) == k
    }

    /// The position of key `k` (meaningful when `has(k)`).
    pub open spec fn pos(&self, k: Seq<char>) -> int {
        choose|i: int| 0 <= i < self.keys.len() && #[trigger] self.key_at(i) == k
    }

    /// The map as a mathematical map.
    pub open spec fn view(&self) -> Map<Seq<char>, V> {
        Map::new(|k: Seq<char>| self.has(k), |k: Seq<char>| self.vals@[self.pos(k)])
    }

    pub proof fn lemma_unique(&self, i: int, j: int)
        requires
            self.wf(),
            0 <= i < self.keys.len(),
            0 <= j < self.keys.len(),
            self.key_at(i) == self.key_at(j),
        ensures
            i == j,
    {
        if i < j {
            lemma_lex_irreflexive(self.key_at(i));
        } else if j < i {
            lemma_lex_irreflexive(self.key_at(i));
        }
    }

    pub proof fn lemma_pos(&self, i: int)
        requires
            self.wf(),
            0 <= i < self.keys.len(),
        ensures
            self.has(self.key_at(i)),
            self.pos(self.key_at(i)) == i,
            self@.contains_key(self.key_at(i)),
            self@[self.key_at(i)] == self.vals@[i],
    {
        let k = self.key_at(i);
        assert(self.has(k));
        let p = self.pos(k);
        self.lemma_unique(i, p);
    }

    /// The map has exactly as many keys as its key vector holds.
    pub proof fn lemma_dom_len(&self)
        requires
            self.wf(),
        ensures
            self@.dom().finite(),
            self@.dom().len() == self.keys.len(),
    {
        let kv = Seq::new(self.keys.len() as nat, |i: int| self.keys@[i]@);
        assert forall|i: int, j: int| 0 <= i < kv.len() && 0 <= j < kv.len() && i != j implies kv[i] != kv[j] by {
            if kv[i] == kv[j] {
                self.lemma_unique(i, j);
            }
        }
        assert(kv.no_duplicates());
        assert forall|x: Seq<char>| kv.to_set().contains(x) <==> self@.dom().contains(x) by {
            if kv.to_set().contains(x) {
                let i = choose|i: int| 0 <= i < kv.len() && kv[i] == x;
                assert(self.key_at(i) == x);
            }
            if self@.dom().contains(x) {
                let i = choose|i: int| 0 <= i < self.keys.len() && #[trigger] self.key_at(i) == x;
                assert(kv[i] == x);
            }
        }
        assert(kv.to_set() =~= self@.dom());
        kv.unique_seq_to_set();
    }

    pub fn new() -> (r: Self)
        ensures
            r.wf(),
            r.keys.len() == 0,
            r@ == Map::<Seq<char>, V>::empty(),
    {
        let r = SymMap { keys: Vec::new(), vals: Vec::new() };
        assert(r@ =~= Map::<Seq<char>, V>::empty());
        r
    }

    pub fn len(&self) -> (r: usize)
        ensures
            r == self.keys.len(),
    {
        self.keys.len()
    }

    /// Binary search: `Ok(i)` when key `i` is `k`, else `Err(i)` with `i`
    /// the position where `k` would be inserted.
    pub fn find(&self, k: &Vec<char>) -> (r: Result<usize, usize>)
        requires
            self.wf(),
        ensures
            r matches Ok(i) ==> i < self.keys.len() && self.key_at(i as int) == k@,
            r matches Err(i) ==> i <= self.keys.len() && !self.has(k@) && (forall|j: int|
                0 <= j < i ==> lex_lt(#[trigger] self.key_at(j), k@)) && (forall|j: int|
                i <= j < self.keys.len() ==> lex_lt(k@, #[trigger] self.key_at(j))),
            r is Ok <==> self.has(k@),
    {
        let mut lo: usize = 0;
        let mut hi: usize = self.keys.len();
        while lo < hi
            invariant
                self.wf(),
                lo <= hi <= self.keys.len(),
                forall|j: int| 0 <= j < lo ==> lex_lt(#[trigger] self.key_at(j), k@),
                forall|j: int| hi <= j < self.keys.len() ==> lex_lt(k@, #[trigger] self.key_at(j)),
            decreases hi - lo,
        {
            let mid = lo + (hi - lo) / 2;
            let c = order_sym(&self.keys[mid], k);
            if c == 0 {
                assert(self.key_at(mid as int) == k@);
                return Ok(mid);
            } else if c < 0 {
                proof {
                    assert forall|j: int| 0 <= j < mid + 1 implies lex_lt(#[trigger] self.key_at(j), k@) by {
                        if j < mid {
                            lemma_lex_transitive(self.key_at(j), self.key_at(mid as int), k@);
                        }
                    }
                }
                lo = mid + 1;
            } else {
                proof {
                    assert forall|j: int| mid <= j < self.keys.len() implies lex_lt(k@, #[trigger] self.key_at(j)) by {
                        if j > mid {
                            lemma_lex_transitive(k@, self.key_at(mid as int), self.key_at(j));
                        }
                    }
                }
                hi = mid;
            }
        }
        proof {
            if self.has(k@) {
                let j = choose|j: int| 0 <= j < self.keys.len() && #[trigger] self.key_at(j) == k@;
                lemma_lex_irreflexive(k@);
            }
        }
        Err(lo)
    }

    /// The value at key `k`, if any.
    pub fn get(&self, k: &Vec<char>) -> (r: Option<&V>)
        requires
            self.wf(),
        ensures
            r is Some <==> self@.contains_key(k@),
            r matches Some(v) ==> *v == self@[k@],
    {
        match self.find(k) {
            Ok(i) => {
                proof {
                    self.lemma_pos(i as int);
                }
                Some(&self.vals[i])
            },
            Err(_) => None,
        }
    }

    /// Whether key `k` is present.
    pub fn contains_key(&self, k: &Vec<char>) -> (r: bool)
        requires
            self.wf(),
        ensures
            r == self@.contains_key(k@),
    {
        self.find(k).is_ok()
    }

    /// Inserts `k` at position `pos`, which `find` reported for it.
    pub fn insert_at(&mut self, pos: usize, k: Vec<char>, v: V)
        requires
            old(self).wf(),
            pos <= old(self).keys.len(),
            forall|j: int| 0 <= j < pos ==> lex_lt(#[trigger] old(self).key_at(j), k@),
            forall|j: int| pos <= j < old(self).keys.len() ==> lex_lt(k@, #[trigger] old(self).key_at(j)),
        ensures
            final(self).wf(),
            final(self)@ == old(self)@.insert(k@, v),
            final(self).keys.len() == old(self).keys.len() + 1,
            final(self).key_at(pos as int) == k@,
            final(self).vals@[pos as int] == v,
            forall|j: int| 0 <= j < pos ==> #[trigger] final(self).key_at(j) == old(self).key_at(j),
            forall|j: int| 0 <= j < pos ==> #[trigger] final(self).vals@[j] == old(self).vals@[j],
            forall|j: int| pos < j < final(self).keys.len() ==> #[trigger] final(self).key_at(j) == old(self).key_at(j - 1),
            forall|j: int| pos < j < final(self).keys.len() ==> #[trigger] final(self).vals@[j] == old(self).vals@[j - 1],
    {
        let ghost old_self = *self;
        let ghost kv = k@;
        self.keys.insert(pos, k);
        self.vals.insert(pos, v);
        proof {
            assert(self.keys@ == old_self.keys@.insert(pos as int, self.keys@[pos as int]));
            assert(self.keys@[pos as int]@ == kv);
            assert forall|x: int| 0 <= x < pos implies #[trigger] self.keys@[x] == old_self.keys@[x] by {}
            assert forall|x: int| pos < x < self.keys@.len() implies #[trigger] self.keys@[x] == old_self.keys@[x - 1] by {}
            assert forall|i: int, j: int| 0 <= i < j < self.keys@.len() implies lex_lt(#[trigger] self.keys@[i]@, #[trigger] self.keys@[j]@) by {
                if j < pos {
                    assert(old_self.key_at(i) == self.keys@[i]@);
                    assert(old_self.key_at(j) == self.keys@[j]@);
                } else if j == pos {
                    assert(old_self.key_at(i) == self.keys@[i]@);
                } else if i < pos {
                    assert(old_self.key_at(i) == self.keys@[i]@);
                    assert(old_self.key_at(j - 1) == self.keys@[j]@);
                    lemma_lex_transitive(self.keys@[i]@, kv, self.keys@[j]@);
                } else if i == pos {
                    assert(old_self.key_at(j - 1) == self.keys@[j]@);
                } else {
                    assert(old_self.keys@[i - 1]@ == self.keys@[i]@);
                    assert(old_self.keys@[j - 1]@ == self.keys@[j]@);
                }
            }
            assert forall|kk: Seq<char>| #[trigger] self@.contains_key(kk) <==> old_self@.insert(kv, v).contains_key(kk) by {
                if self.has(kk) {
                    let i = choose|i: int| 0 <= i < self.keys.len() && #[trigger] self.key_at(i) == kk;
                    if i < pos {
                        assert(old_self.key_at(i) == kk);
                    } else if i > pos {
                        assert(old_self.key_at(i - 1) == kk);
                    }
                }
                if old_self.has(kk) {
                    let i = choose|i: int| 0 <= i < old_self.keys.len() && #[trigger] old_self.key_at(i) == kk;
                    if i < pos {
                        assert(self.key_at(i) == kk);
                    } else {
                        assert(self.key_at(i + 1) == kk);
                    }
                }
                if kk == kv {
                    assert(self.key_at(pos as int) == kk);
                }
            }
            assert forall|kk: Seq<char>| #[trigger] self@.contains_key(kk) implies self@[kk] == old_self@.insert(kv, v)[kk] by {
                let i = choose|i: int| 0 <= i < self.keys.len() && #[trigger] self.key_at(i) == kk;
                self.lemma_pos(i);
                if i < pos {
                    old_self.lemma_pos(i);
                    if kk == kv {
                        lemma_lex_irreflexive(kv);
                    }
                } else if i > pos {
                    old_self.lemma_pos(i - 1);
                    if kk == kv {
                        lemma_lex_irreflexive(kv);
                    }
                }
            }
            assert(self@ =~= old_self@.insert(kv, v));
        }
    }

    /// Sets key `k` to `v`, replacing any earlier value.
    pub fn insert(&mut self, k: Vec<char>, v: V)
        requires
            old(self).wf(),
        ensures
            final(self).wf(),
            final(self)@ == old(self)@.insert(k@, v),
    {
        match self.find(&k) {
            Ok(i) => {
                let ghost old_self = *self;
                self.vals.set(i, v);
                proof {
                    assert(self.keys == old_self.keys);
                    assert forall|kk: Seq<char>| #[trigger] self@.contains_key(kk) implies self@[kk] == old_self@.insert(k@, v)[kk] by {
                        let j = choose|j: int| 0 <= j < self.keys.len() && #[trigger] self.key_at(j) == kk;
                        self.lemma_pos(j);
                        old_self.lemma_pos(j);
                        if j == i {
                        } else {
                            if kk == k@ {
                                self.lemma_unique(i as int, j);
                            }
                        }
                    }
                    assert forall|kk: Seq<char>| #[trigger] self@.contains_key(kk) <==> old_self@.insert(k@, v).contains_key(kk) by {
                        if kk == k@ {
                            assert(self.key_at(i as int) == kk);
                        }
                        if self.has(kk) {
                            let j = choose|j: int| 0 <= j < self.keys.len() && #[trigger] self.key_at(j) == kk;
                            assert(old_self.key_at(j) == kk);
                        }
                        if old_self.has(kk) {
                            let j = choose|j: int| 0 <= j < old_self.keys.len() && #[trigger] old_self.key_at(j) == kk;
                            assert(self.key_at(j) == kk);
                        }
                    }
                    assert(self@ =~= old_self@.insert(k@, v));
                }
            },
            Err(pos) => {
                self.insert_at(pos, k, v);
            },
        }
    }

    /// Removes the entry at position `i`.
    pub fn remove_at(&mut self, i: usize) -> (r: (Vec<char>, V))
        requires
            old(self).wf(),
            i < old(self).keys.len(),
        ensures
            final(self).wf(),
            final(self)@ == old(self)@.remove(old(self).key_at(i as int)),
            r.0@ == old(self).key_at(i as int),
            r.1 == old(self).vals@[i as int],
            final(self).keys@ == old(self).keys@.remove(i as int),
            final(self).vals@ == old(self).vals@.remove(i as int),
    {
        let ghost old_self = *self;
        let k = self.keys.remove(i);
        let v = self.vals.remove(i);
        proof {
            let kk0 = old_self.key_at(i as int);
            assert forall|a: int, b: int| 0 <= a < b < self.keys@.len() implies lex_lt(#[trigger] self.keys@[a]@, #[trigger] self.keys@[b]@) by {
                let a0 = if a < i { a } else { a + 1 };
                let b0 = if b < i { b } else { b + 1 };
                assert(self.keys@[a] == old_self.keys@[a0]);
                assert(self.keys@[b] == old_self.keys@[b0]);
            }
            assert forall|kk: Seq<char>| #[trigger] self@.contains_key(kk) <==> old_self@.remove(kk0).contains_key(kk) by {
                if self.has(kk) {
                    let j = choose|j: int| 0 <= j < self.keys.len() && #[trigger] self.key_at(j) == kk;
                    let j0 = if j < i { j } else { j + 1 };
                    assert(old_self.key_at(j0) == kk);
                    if kk == kk0 {
                        old_self.lemma_unique(j0, i as int);
                    }
                }
                if old_self.has(kk) && kk != kk0 {
                    let j = choose|j: int| 0 <= j < old_self.keys.len() && #[trigger] old_self.key_at(j) == kk;
                    if j < i {
                        assert(self.key_at(j) == kk);
                    } else {
                        assert(j != i);
                        assert(self.key_at(j - 1) == kk);
                    }
                }
            }
            assert forall|kk: Seq<char>| #[trigger] self@.contains_key(kk) implies self@[kk] == old_self@.remove(kk0)[kk] by {
                let j = choose|j: int| 0 <= j < self.keys.len() && #[trigger] self.key_at(j) == kk;
                self.lemma_pos(j);
                let j0 = if j < i { j } else { j + 1 };
                assert(old_self.key_at(j0) == kk);
                old_self.lemma_pos(j0);
            }
            assert(self@ =~= old_self@.remove(kk0));
        }
        (k, v)
    }

    /// Swaps the value at position `i` with `*v`.
    pub fn swap_val(&mut self, i: usize, v: &mut V)
        requires
            old(self).wf(),
            i < old(self).keys.len(),
        ensures
            final(self).wf(),
            final(self).keys == old(self).keys,
            final(self).vals@ == old(self).vals@.update(i as int, *old(v)),
            *final(v) == old(self).vals@[i as int],
            final(self)@ == old(self)@.insert(old(self).key_at(i as int), *old(v)),
    {
        let ghost old_self = *self;
        let ghost old_v = *v;
        std::mem::swap(&mut self.vals[i], v);
        proof {
            let k = old_self.key_at(i as int);
            assert(self.keys@ == old_self.keys@);
            assert forall|kk: Seq<char>| #[trigger] self@.contains_key(kk) <==> old_self@.insert(k, old_v).contains_key(kk) by {
                if kk == k {
                    assert(self.key_at(i as int) == kk);
                }
                if self.has(kk) {
                    let j = choose|j: int| 0 <= j < self.keys.len() && #[trigger] self.key_at(j) == kk;
                    assert(old_self.key_at(j) == kk);
                }
                if old_self.has(kk) {
                    let j = choose|j: int| 0 <= j < old_self.keys.len() && #[trigger] old_self.key_at(j) == kk;
                    assert(self.key_at(j) == kk);
                }
            }
            assert forall|kk: Seq<char>| #[trigger] self@.contains_key(kk) implies self@[kk] == old_self@.insert(k, old_v)[kk] by {
                let j = choose|j: int| 0 <= j < self.keys.len() && #[trigger] self.key_at(j) == kk;
                self.lemma_pos(j);
                old_self.lemma_pos(j);
                if j != i && kk == k {
                    self.lemma_unique(i as int, j);
                }
            }
            assert(self@ =~= old_self@.insert(k, old_v));
        }
    }
}

} // verus!
