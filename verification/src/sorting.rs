//! Sorting by an integer key: a stable merge sort whose result is a
//! reordering of its input.
use vstd::prelude::*;

verus! {

/// An item with an integer key to order by.
pub trait SortKey {
    spec fn key_of(&self) -> usize;

    fn sort_key(&self) -> (r: usize)
        ensures
            r == self.key_of(),
    ;
}

impl SortKey for usize {
    open spec fn key_of(&self) -> usize {
        *self
    }

    fn sort_key(&self) -> (r: usize) {
        *self
    }
}

/// Keys never decrease along `s`.
pub open spec fn sorted_by_key<T: SortKey>(s: Seq<T>) -> bool {
    forall|a: int, b: int| 0 <= a < b < s.len() ==> #[trigger] s[a].key_of() <= #[trigger] s[b].key_of()
}

/// The items ordered by key: the same items, reordered; items with equal
/// keys keep their order.
pub fn sort_by_key<T: SortKey>(results: Vec<T>) -> (r: Vec<T>)
    ensures
        r@.to_multiset() =~= results@.to_multiset(),
        sorted_by_key(r@),
    decreases results.len(),
{
    if results.len() <= 1 {
        return results;
    }
    let mut left = results;
    let mid = left.len() / 2;
    let ghost all = left@;
    let right = left.split_off(mid);
    proof {
        assert(all =~= left@ + right@);
        vstd::seq_lib::lemma_multiset_commutative(left@, right@);
    }
    let l = sort_by_key(left);
    let r = sort_by_key(right);
    merge_by_key(l, r)
}

/// Merges two sorted runs into one.
fn merge_by_key<T: SortKey>(a: Vec<T>, b: Vec<T>) -> (r: Vec<T>)
    requires
        sorted_by_key(a@),
        sorted_by_key(b@),
    ensures
        r@.to_multiset() =~= a@.to_multiset().add(b@.to_multiset()),
        sorted_by_key(r@),
{
    broadcast use vstd::seq_lib::group_to_multiset_ensures, vstd::multiset::group_multiset_axioms;
    let mut a = a;
    let mut b = b;
    let ghost total = a@.to_multiset().add(b@.to_multiset());
    // largest first, taken from the ends of both runs
    let mut desc: Vec<T> = Vec::new();
    while a.len() > 0 || b.len() > 0
        invariant
            sorted_by_key(a@),
            sorted_by_key(b@),
            forall|i: int, j: int| 0 <= i < j < desc.len() ==> #[trigger] desc@[j].key_of() <= #[trigger] desc@[i].key_of(),
            forall|i: int, j: int| 0 <= i < desc.len() && 0 <= j < a.len() ==> #[trigger] a@[j].key_of() <= #[trigger] desc@[i].key_of(),
            forall|i: int, j: int| 0 <= i < desc.len() && 0 <= j < b.len() ==> #[trigger] b@[j].key_of() <= #[trigger] desc@[i].key_of(),
            a@.to_multiset().add(b@.to_multiset()).add(desc@.to_multiset()) =~= total,
        decreases a.len() + b.len(),
    {
        let take_a = if a.len() == 0 {
            false
        } else if b.len() == 0 {
            true
        } else {
            a[a.len() - 1].sort_key() > b[b.len() - 1].sort_key()
        };
        let ghost a0 = a@;
        let ghost b0 = b@;
        let ghost d0 = desc@;
        let x = if take_a {
            a.pop().unwrap()
        } else {
            b.pop().unwrap()
        };
        desc.push(x);
        proof {
            assert(desc@ =~= d0.push(x));
            vstd::seq_lib::to_multiset_build(d0, x);
            if take_a {
                assert(a0 =~= a@.push(x));
                vstd::seq_lib::to_multiset_build(a@, x);
                assert forall|j: int| 0 <= j < b.len() implies #[trigger] b@[j].key_of() <= x.key_of() by {
                    assert(b@[j] == b0[j]);
                    assert(b0[j].key_of() <= b0[b0.len() - 1].key_of());
                }
            } else {
                assert(b0 =~= b@.push(x));
                vstd::seq_lib::to_multiset_build(b@, x);
                assert forall|j: int| 0 <= j < a.len() implies #[trigger] a@[j].key_of() <= x.key_of() by {
                    assert(a@[j] == a0[j]);
                    assert(a0[j].key_of() <= a0[a0.len() - 1].key_of());
                }
            }
            assert forall|i: int, j: int| 0 <= i < j < desc.len() implies #[trigger] desc@[j].key_of() <= #[trigger] desc@[i].key_of() by {
                if j < d0.len() {
                    assert(desc@[j] == d0[j] && desc@[i] == d0[i]);
                } else {
                    assert(desc@[i] == d0[i]);
                    if take_a {
                        assert(a0[a0.len() - 1].key_of() <= d0[i].key_of());
                    } else {
                        assert(b0[b0.len() - 1].key_of() <= d0[i].key_of());
                    }
                }
            }
            assert forall|i: int, j: int| 0 <= i < desc.len() && 0 <= j < a.len() implies #[trigger] a@[j].key_of() <= #[trigger] desc@[i].key_of() by {
                assert(a@[j] == a0[j]);
                if i < d0.len() {
                    assert(desc@[i] == d0[i]);
                } else if take_a {
                    assert(a0[j].key_of() <= a0[a0.len() - 1].key_of());
                }
            }
            assert forall|i: int, j: int| 0 <= i < desc.len() && 0 <= j < b.len() implies #[trigger] b@[j].key_of() <= #[trigger] desc@[i].key_of() by {
                assert(b@[j] == b0[j]);
                if i < d0.len() {
                    assert(desc@[i] == d0[i]);
                } else if !take_a {
                    assert(b0[j].key_of() <= b0[b0.len() - 1].key_of());
                }
            }
        }
    }
    let mut out: Vec<T> = Vec::new();
    while desc.len() > 0
        invariant
            forall|i: int, j: int| 0 <= i < j < desc.len() ==> #[trigger] desc@[j].key_of() <= #[trigger] desc@[i].key_of(),
            sorted_by_key(out@),
            forall|i: int, j: int| 0 <= i < out.len() && 0 <= j < desc.len() ==> #[trigger] out@[i].key_of() <= #[trigger] desc@[j].key_of(),
            out@.to_multiset().add(desc@.to_multiset()) =~= total,
        decreases desc.len(),
    {
        let ghost d0 = desc@;
        let ghost o0 = out@;
        let x = desc.pop().unwrap();
        out.push(x);
        proof {
            assert(d0 =~= desc@.push(x));
            vstd::seq_lib::to_multiset_build(desc@, x);
            assert(out@ =~= o0.push(x));
            vstd::seq_lib::to_multiset_build(o0, x);
            assert forall|i: int, j: int| 0 <= i < out.len() && 0 <= j < desc.len() implies #[trigger] out@[i].key_of() <= #[trigger] desc@[j].key_of() by {
                assert(desc@[j] == d0[j]);
                if i < o0.len() {
                    assert(out@[i] == o0[i]);
                } else {
                    assert(d0[d0.len() - 1].key_of() <= d0[j].key_of());
                }
            }
            assert forall|i: int, j: int| 0 <= i < j < out.len() implies #[trigger] out@[i].key_of() <= #[trigger] out@[j].key_of() by {
                assert(out@[i] == o0[i] || i == o0.len());
                if j < o0.len() {
                    assert(out@[j] == o0[j] && out@[i] == o0[i]);
                } else {
                    assert(out@[i] == o0[i]);
                    assert(o0[i].key_of() <= d0[d0.len() - 1].key_of());
                }
            }
        }
    }
    out
}

} // verus!
