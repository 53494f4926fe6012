//! A table that numbers sequences of integers: equal sequences get the
//! same number, and every number resolves back to its sequence.
use vstd::prelude::*;
use vstd::hash_map::HashMapWithView;

verus! {

broadcast use vstd::std_specs::hash::group_hash_axioms;

/// The modulus of the sequence hash (the Mersenne prime 2^61 - 1).
pub open spec fn hash_mod() -> int {
    2305843009213693951
}

/// A polynomial hash of a sequence.
pub open spec fn seq_hash(s: Seq<usize>) -> u64
    decreases s.len(),
{
    if s.len() == 0 {
        0
    } else {
        ((seq_hash(s.drop_last()) as int * 1000003 + s.last() as int % hash_mod()) % hash_mod()) as u64
    }
}

proof fn lemma_hash_bound(s: Seq<usize>)
    ensures
        seq_hash(s) < hash_mod(),
    decreases s.len(),
{
    if s.len() > 0 {
        lemma_hash_bound(s.drop_last());
    }
}

/// The hash of a sequence.
pub fn hash_usizes(s: &Vec<usize>) -> (h: u64)
    ensures
        h == seq_hash(s@),
{
    let p: u128 = 2305843009213693951;
    let mut h: u64 = 0;
    let mut i: usize = 0;
    assert(s@.take(0) =~= Seq::<usize>::empty());
    while i < s.len()
        invariant
            i <= s.len(),
            h == seq_hash(s@.take(i as int)),
            h < hash_mod(),
            p == 2305843009213693951,
        decreases s.len() - i,
    {
        let x = s[i] as u128 % p;
        let nh = ((h as u128) * 1000003 + x) % p;
        assert(nh < p);
        proof {
            assert(s@.take(i + 1).drop_last() =~= s@.take(i as int));
            assert(s@.take(i + 1).last() == s@[i as int]);
        }
        h = nh as u64;
        i = i + 1;
    }
    assert(s@.take(s@.len() as int) =~= s@);
    h
}

/// Whether two sequences are equal.
pub fn eq_usizes(a: &Vec<usize>, b: &Vec<usize>) -> (r: bool)
    ensures
        r == (a@ == b@),
{
    if a.len() != b.len() {
        return false;
    }
    let mut i: usize = 0;
    while i < a.len()
        invariant
            i <= a.len(),
            a.len() == b.len(),
            forall|j: int| 0 <= j < i ==> a@[j] == b@[j],
        decreases a.len() - i,
    {
        if a[i] != b[i] {
            return false;
        }
        i = i + 1;
    }
    assert(a@ =~= b@);
    true
}

/// A copy of a sequence.
pub fn clone_usizes(a: &Vec<usize>) -> (r: Vec<usize>)
    ensures
        r@ == a@,
{
    let mut r: Vec<usize> = Vec::new();
    let mut i: usize = 0;
    while i < a.len()
        invariant
            i <= a.len(),
            r@ =~= a@.take(i as int),
        decreases a.len() - i,
    {
        r.push(a[i]);
        i = i + 1;
    }
    assert(a@.take(a@.len() as int) =~= a@);
    r
}

/// Numbered sequences: `seqs[i]` is the sequence numbered `i`; buckets
/// list, by hash, the numbers of the sequences with that hash.
pub struct SeqTable {
    pub seqs: Vec<Vec<usize>>,
    pub buckets: HashMapWithView<u64, Vec<usize>>,
}

impl SeqTable {
    /// No sequence is numbered twice, and each number is found in the
    /// bucket of its sequence's hash.
    pub open spec fn wf(&self) -> bool {
        &&& forall|i: int, j: int| 0 <= i < j < self.seqs.len() ==> (#[trigger] self.seqs@[i])@ != (#[trigger] self.seqs@[j])@
        &&& forall|i: int| 0 <= i < self.seqs.len() ==> #[trigger] self.buckets@.contains_key(seq_hash(self.seqs@[i]@)) && self.buckets@[seq_hash(self.seqs@[i]@)]@.contains(i as usize)
        &&& forall|h: u64, j: usize| #[trigger] self.buckets@.contains_key(h) && #[trigger] self.buckets@[h]@.contains(j) ==> j < self.seqs.len() && seq_hash(self.seqs@[j as int]@) == h
    }

    /// The sequence numbered `i`.
    pub open spec fn at(&self, i: int) -> Seq<usize> {
        self.seqs@[i]@
    }

    pub fn new() -> (t: Self)
        ensures
            t.wf(),
            t.seqs.len() == 0,
    {
        let t = SeqTable { seqs: Vec::new(), buckets: HashMapWithView::new() };
        t
    }

    pub fn len(&self) -> (r: usize)
        ensures
            r == self.seqs.len(),
    {
        self.seqs.len()
    }

    /// The number of `s`, if it has one.
    pub fn lookup(&self, s: &Vec<usize>) -> (r: Option<usize>)
        requires
            self.wf(),
        ensures
            r matches Some(i) ==> i < self.seqs.len() && self.at(i as int) == s@,
            r is None ==> forall|i: int| 0 <= i < self.seqs.len() ==> self.at(i) != s@,
    {
        let h = hash_usizes(s);
        match self.buckets.get(&h) {
            None => {
                proof {
                    assert forall|i: int| 0 <= i < self.seqs.len() implies self.at(i) != s@ by {
                        if self.at(i) == s@ {
                            assert(self.buckets@.contains_key(seq_hash(self.seqs@[i]@)));
                        }
                    }
                }
                None
            },
            Some(ids) => {
                let mut k: usize = 0;
                while k < ids.len()
                    invariant
                        k <= ids.len(),
                        self.wf(),
                        self.buckets@.contains_key(h),
                        *ids == self.buckets@[h],
                        h == seq_hash(s@),
                        forall|m: int| 0 <= m < k ==> self.at(ids@[m] as int) != s@,
                    decreases ids.len() - k,
                {
                    let id = ids[k];
                    assert(self.buckets@[h]@.contains(id));
                    assert(id < self.seqs.len());
                    if eq_usizes(&self.seqs[id], s) {
                        return Some(id);
                    }
                    k = k + 1;
                }
                proof {
                    assert forall|i: int| 0 <= i < self.seqs.len() implies self.at(i) != s@ by {
                        if self.at(i) == s@ {
                            assert(self.buckets@[h]@.contains(i as usize));
                            let m = choose|m: int| 0 <= m < ids@.len() && ids@[m] == i as usize;
                        }
                    }
                }
                None
            },
        }
    }

    /// The number of `s`, giving it the next number if it has none.
    pub fn intern(&mut self, s: Vec<usize>) -> (id: usize)
        requires
            old(self).wf(),
        ensures
            final(self).wf(),
            id < final(self).seqs.len(),
            final(self).at(id as int) == s@,
            final(self).seqs.len() >= old(self).seqs.len(),
            final(self).seqs.len() <= old(self).seqs.len() + 1,
            forall|i: int| 0 <= i < old(self).seqs.len() ==> #[trigger] final(self).seqs@[i] == old(self).seqs@[i],
            (exists|i: int| 0 <= i < old(self).seqs.len() && old(self).at(i) == s@) ==> final(self).seqs.len() == old(self).seqs.len(),
            final(self).seqs.len() > old(self).seqs.len() ==> id == old(self).seqs.len(),
    {
        match self.lookup(&s) {
            Some(id) => id,
            None => {
                let h = hash_usizes(&s);
                let id = self.seqs.len();
                let mut bucket: Vec<usize> = match self.buckets.get(&h) {
                    Some(b) => clone_usizes(b),
                    None => Vec::new(),
                };
                let ghost old_bucket = bucket@;
                bucket.push(id);
                let ghost old_self = *self;
                self.seqs.push(s);
                self.buckets.insert(h, bucket);
                proof {
                    let n = old_self.seqs.len();
                    assert(self.seqs@[n as int]@ == seq_hash_arg(self.seqs@[n as int]@));
                    assert forall|i: int, j: int| 0 <= i < j < self.seqs.len() implies (#[trigger] self.seqs@[i])@ != (#[trigger] self.seqs@[j])@ by {
                        if j == n {
                            assert(old_self.at(i) != self.seqs@[n as int]@);
                        } else {
                            assert(old_self.seqs@[i] == self.seqs@[i]);
                            assert(old_self.seqs@[j] == self.seqs@[j]);
                        }
                    }
                    assert forall|i: int| 0 <= i < self.seqs.len() implies #[trigger] self.buckets@.contains_key(seq_hash(self.seqs@[i]@)) && self.buckets@[seq_hash(self.seqs@[i]@)]@.contains(i as usize) by {
                        if i == n {
                            assert(self.buckets@[h]@ == old_bucket.push(id));
                            assert(self.buckets@[h]@[old_bucket.len() as int] == id);
                        } else {
                            assert(old_self.seqs@[i] == self.seqs@[i]);
                            let hi = seq_hash(self.seqs@[i]@);
                            assert(old_self.buckets@.contains_key(seq_hash(old_self.seqs@[i]@)));
                            assert(old_self.buckets@[hi]@.contains(i as usize));
                            if hi == h {
                                let m = choose|m: int| 0 <= m < old_self.buckets@[hi]@.len() && old_self.buckets@[hi]@[m] == i as usize;
                                assert(old_bucket == old_self.buckets@[h]@);
                                assert(self.buckets@[h]@[m] == i as usize);
                            }
                        }
                    }
                    assert forall|hh: u64, j: usize| #[trigger] self.buckets@.contains_key(hh) && #[trigger] self.buckets@[hh]@.contains(j) implies j < self.seqs.len() && seq_hash(self.seqs@[j as int]@) == hh by {
                        if hh == h {
                            let m = choose|m: int| 0 <= m < self.buckets@[hh]@.len() && self.buckets@[hh]@[m] == j;
                            if m < old_bucket.len() {
                                assert(old_bucket[m] == j);
                                assert(old_self.buckets@.contains_key(h));
                                assert(old_self.buckets@[h]@.contains(j));
                                assert(old_self.seqs@[j as int] == self.seqs@[j as int]);
                            }
                        } else {
                            assert(old_self.buckets@[hh]@.contains(j));
                            assert(old_self.seqs@[j as int] == self.seqs@[j as int]);
                        }
                    }
                }
                id
            },
        }
    }
}

/// The identity on sequences (a trigger helper).
pub open spec fn seq_hash_arg(s: Seq<usize>) -> Seq<usize> {
    s
}

/// Law: a table never numbers two equal sequences differently, so a
/// sequence's number is determined by its contents.
pub proof fn law_table_numbers_are_unique(t: &SeqTable, i: int, j: int)
    requires
        t.wf(),
        0 <= i < t.seqs.len(),
        0 <= j < t.seqs.len(),
        t.at(i) == t.at(j),
    ensures
        i == j,
{
}

} // verus!
