//! Context-free grammars: a map from non-terminal names to sets of
//! right-hand sides.
use vstd::prelude::*;
use crate::symbols::{Rhs, rhs_view, eq_rhs, order_rhs, clone_rhs};
use crate::symmap::SymMap;

verus! {

/// The right-hand sides of a set, as sequences of names.
pub open spec fn set_view(v: Seq<Rhs>) -> Seq<Seq<Seq<char>>> {
    Seq::new(v.len(), |i: int| rhs_view(v[i]@))
}

/// A set of right-hand sides holds no right-hand side twice.
pub open spec fn set_wf(v: Seq<Rhs>) -> bool {
    set_view(v).no_duplicates()
}

/// The right-hand sides of a set, as a mathematical set.
pub open spec fn rhs_set(v: Seq<Rhs>) -> Set<Seq<Seq<char>>> {
    set_view(v).to_set()
}

/// Whether the set holds right-hand side `r`.
pub fn rhs_set_contains(set: &Vec<Rhs>, r: &Rhs) -> (b: bool)
    ensures
        b == rhs_set(set@).contains(rhs_view(r@)),
{
    let mut i: usize = 0;
    while i < set.len()
        invariant
            i <= set.len(),
            forall|j: int| 0 <= j < i ==> set_view(set@)[j] != rhs_view(r@),
        decreases set.len() - i,
    {
        if eq_rhs(&set[i], r) {
            assert(set_view(set@)[i as int] == rhs_view(r@));
            return true;
        }
        i = i + 1;
    }
    false
}

/// Adds `r` to the set, keeping the set in the order of `Vec<String>`
/// comparison; returns whether it was new.
pub fn rhs_set_insert(set: &mut Vec<Rhs>, r: Rhs) -> (added: bool)
    requires
        set_wf(old(set)@),
    ensures
        set_wf(final(set)@),
        rhs_set(final(set)@) == rhs_set(old(set)@).insert(rhs_view(r@)),
        added == !rhs_set(old(set)@).contains(rhs_view(r@)),
        !added ==> final(set)@ == old(set)@,
{
    if rhs_set_contains(set, &r) {
        return false;
    }
    let mut pos: usize = 0;
    while pos < set.len() && order_rhs(&set[pos], &r) < 0
        invariant
            pos <= set.len(),
        decreases set.len() - pos,
    {
        pos = pos + 1;
    }
    let ghost old_set = set@;
    let ghost rv = rhs_view(r@);
    set.insert(pos, r);
    proof {
        assert(set_view(set@) =~= set_view(old_set).insert(pos as int, rv));
        assert forall|a: int, b: int| 0 <= a < b < set_view(set@).len() implies set_view(set@)[a] != set_view(set@)[b] by {
            let a0 = if a < pos { a } else { a - 1 };
            let b0 = if b < pos { b } else { b - 1 };
            if a != pos && b != pos {
                assert(set_view(set@)[a] == set_view(old_set)[a0]);
                assert(set_view(set@)[b] == set_view(old_set)[b0]);
            } else if a == pos {
                assert(set_view(set@)[b] == set_view(old_set)[b0]);
            } else {
                assert(set_view(set@)[a] == set_view(old_set)[a0]);
            }
        }
        assert forall|x: Seq<Seq<char>>| #[trigger] rhs_set(set@).contains(x) <==> rhs_set(old_set).insert(rv).contains(x) by {
            if rhs_set(set@).contains(x) {
                let j = choose|j: int| 0 <= j < set_view(set@).len() && set_view(set@)[j] == x;
                if j < pos {
                    assert(set_view(old_set)[j] == x);
                } else if j > pos {
                    assert(set_view(old_set)[j - 1] == x);
                }
            }
            if rhs_set(old_set).contains(x) {
                let j = choose|j: int| 0 <= j < set_view(old_set).len() && set_view(old_set)[j] == x;
                if j < pos {
                    assert(set_view(set@)[j] == x);
                } else {
                    assert(set_view(set@)[j + 1] == x);
                }
            }
            if x == rv {
                assert(set_view(set@)[pos as int] == x);
            }
        }
        assert(rhs_set(set@) =~= rhs_set(old_set).insert(rv));
    }
    true
}

proof fn lemma_set_remove(v: Seq<Rhs>, i: int)
    requires
        set_wf(v),
        0 <= i < v.len(),
    ensures
        set_wf(v.remove(i)),
        rhs_set(v.remove(i)) == rhs_set(v).remove(set_view(v)[i]),
{
    let w = v.remove(i);
    assert(set_view(w) =~= set_view(v).remove(i));
    let rv = set_view(v)[i];
    assert forall|a: int, b: int| 0 <= a < b < set_view(w).len() implies set_view(w)[a] != set_view(w)[b] by {
        let a0 = if a < i { a } else { a + 1 };
        let b0 = if b < i { b } else { b + 1 };
        assert(set_view(w)[a] == set_view(v)[a0]);
        assert(set_view(w)[b] == set_view(v)[b0]);
    }
    assert forall|x: Seq<Seq<char>>| #[trigger] rhs_set(w).contains(x) <==> rhs_set(v).remove(rv).contains(x) by {
        if rhs_set(w).contains(x) {
            let j = choose|j: int| 0 <= j < set_view(w).len() && set_view(w)[j] == x;
            let j0 = if j < i { j } else { j + 1 };
            assert(set_view(v)[j0] == x);
            assert(j0 != i);
        }
        if rhs_set(v).contains(x) && x != rv {
            let j = choose|j: int| 0 <= j < set_view(v).len() && set_view(v)[j] == x;
            if j < i {
                assert(set_view(w)[j] == x);
            } else {
                assert(j != i);
                assert(set_view(w)[j - 1] == x);
            }
        }
    }
    assert(rhs_set(w) =~= rhs_set(v).remove(rv));
}

/// Removes `r` from the set.
pub fn rhs_set_remove(set: &mut Vec<Rhs>, r: &Rhs)
    requires
        set_wf(old(set)@),
    ensures
        set_wf(final(set)@),
        rhs_set(final(set)@) == rhs_set(old(set)@).remove(rhs_view(r@)),
{
    let mut i: usize = 0;
    while i < set.len()
        invariant
            i <= set.len(),
            set@ == old(set)@,
            set_wf(set@),
            forall|j: int| 0 <= j < i ==> set_view(set@)[j] != rhs_view(r@),
        decreases set.len() - i,
    {
        if eq_rhs(&set[i], r) {
            proof {
                lemma_set_remove(set@, i as int);
            }
            set.remove(i);
            return;
        }
        i = i + 1;
    }
    proof {
        assert(!rhs_set(set@).contains(rhs_view(r@)));
        assert(rhs_set(set@) =~= rhs_set(set@).remove(rhs_view(r@)));
    }
}

/// A copy of a set of right-hand sides.
pub fn clone_set(set: &Vec<Rhs>) -> (r: Vec<Rhs>)
    ensures
        set_view(r@) == set_view(set@),
{
    let mut r: Vec<Rhs> = Vec::new();
    let mut i: usize = 0;
    while i < set.len()
        invariant
            i <= set.len(),
            r.len() == i,
            forall|j: int| 0 <= j < i ==> #[trigger] rhs_view(r@[j]@) == rhs_view(set@[j]@),
        decreases set.len() - i,
    {
        let x = clone_rhs(&set[i]);
        r.push(x);
        i = i + 1;
    }
    assert(set_view(r@) =~= set_view(set@));
    r
}

/// A grammar: each non-terminal maps to its set of right-hand sides.
pub type Grammar = SymMap<Vec<Rhs>>;

pub open spec fn grammar_wf(g: &Grammar) -> bool {
    &&& g.wf()
    &&& forall|i: int| 0 <= i < g.vals.len() ==> set_wf(#[trigger] g.vals@[i]@)
}

/// The productions of non-terminal `k` (empty when `k` has no entry).
pub open spec fn prods(g: &Grammar, k: Seq<char>) -> Set<Seq<Seq<char>>> {
    if g@.contains_key(k) {
        rhs_set(g@[k]@)
    } else {
        Set::empty()
    }
}

/// Every production of every non-terminal satisfies `p`.
pub open spec fn all_prods(g: &Grammar, p: spec_fn(Seq<Seq<char>>) -> bool) -> bool {
    forall|k: Seq<char>, r: Seq<Seq<char>>| #[trigger] prods(g, k).contains(r) ==> p(r)
}

pub proof fn lemma_prods_at(g: &Grammar, i: int)
    requires
        grammar_wf(g),
        0 <= i < g.keys.len(),
    ensures
        prods(g, g.key_at(i)) == rhs_set(g.vals@[i]@),
        g@.contains_key(g.key_at(i)),
{
    g.lemma_pos(i);
}

/// Symbol `y` occurs in a production of `x`.
pub open spec fn derives_step(g: &Grammar, x: Seq<char>, y: Seq<char>) -> bool {
    exists|r: Seq<Seq<char>>| #[trigger] prods(g, x).contains(r) && r.contains(y)
}

/// A chain of symbols, each occurring in a production of the one before.
pub open spec fn derivation_chain(g: &Grammar, p: Seq<Seq<char>>) -> bool {
    &&& p.len() >= 1
    &&& forall|k: int| 0 <= k < p.len() - 1 ==> #[trigger] derives_step(g, p[k], p[k + 1])
}

/// Symbol `x` can be reached from the start symbol `S`.
pub open spec fn reachable_sym(g: &Grammar, x: Seq<char>) -> bool {
    exists|p: Seq<Seq<char>>| #[trigger] derivation_chain(g, p) && p[0] == seq!['S'] && p.last() == x
}

pub proof fn lemma_reach_start(g: &Grammar)
    ensures
        reachable_sym(g, seq!['S']),
{
    let p = seq![seq!['S']];
    assert(derivation_chain(g, p));
}

pub proof fn lemma_reach_step(g: &Grammar, x: Seq<char>, y: Seq<char>)
    requires
        reachable_sym(g, x),
        derives_step(g, x, y),
    ensures
        reachable_sym(g, y),
{
    let p = choose|p: Seq<Seq<char>>| #[trigger] derivation_chain(g, p) && p[0] == seq!['S'] && p.last() == x;
    let q = p.push(y);
    assert forall|k: int| 0 <= k < q.len() - 1 implies #[trigger] derives_step(g, q[k], q[k + 1]) by {
        if k < p.len() - 1 {
            assert(q[k] == p[k] && q[k + 1] == p[k + 1]);
        } else {
            assert(q[k] == x && q[k + 1] == y);
        }
    }
    assert(derivation_chain(g, q));
}

/// A set that holds `S` and, with each symbol, every symbol in its
/// productions, holds every symbol reachable from `S`.
pub proof fn lemma_closed_has_reachable(g: &Grammar, s: Set<Seq<char>>, x: Seq<char>)
    requires
        s.contains(seq!['S']),
        forall|a: Seq<char>, b: Seq<char>| s.contains(a) && #[trigger] derives_step(g, a, b) ==> s.contains(b),
        reachable_sym(g, x),
    ensures
        s.contains(x),
{
    let p = choose|p: Seq<Seq<char>>| #[trigger] derivation_chain(g, p) && p[0] == seq!['S'] && p.last() == x;
    lemma_chain_in(g, s, p, p.len() - 1);
}

proof fn lemma_chain_in(g: &Grammar, s: Set<Seq<char>>, p: Seq<Seq<char>>, k: int)
    requires
        s.contains(seq!['S']),
        forall|a: Seq<char>, b: Seq<char>| s.contains(a) && #[trigger] derives_step(g, a, b) ==> s.contains(b),
        derivation_chain(g, p),
        p[0] == seq!['S'],
        0 <= k < p.len(),
    ensures
        s.contains(p[k]),
    decreases k,
{
    if k > 0 {
        lemma_chain_in(g, s, p, k - 1);
        assert(derives_step(g, p[k - 1], p[(k - 1) + 1]));
    }
}

/// The symbols occurring in a sequence of right-hand sides.
pub open spec fn syms_in(rs: Seq<Seq<Seq<char>>>) -> Set<Seq<char>>
    decreases rs.len(),
{
    if rs.len() == 0 {
        Set::empty()
    } else {
        syms_in(rs.drop_last()) + rs.last().to_set()
    }
}

/// The symbols occurring in the productions of the first `n` rules.
pub open spec fn syms_upto(g: &Grammar, n: int) -> Set<Seq<char>>
    decreases n,
{
    if n <= 0 {
        Set::empty()
    } else {
        syms_upto(g, n - 1) + syms_in(set_view(g.vals@[n - 1]@))
    }
}

proof fn lemma_syms_in_finite(rs: Seq<Seq<Seq<char>>>)
    ensures
        syms_in(rs).finite(),
    decreases rs.len(),
{
    if rs.len() > 0 {
        lemma_syms_in_finite(rs.drop_last());
        rs.last().lemma_cardinality_of_set();
        vstd::seq_lib::seq_to_set_is_finite(rs.last());
    }
}

pub proof fn lemma_syms_upto_finite(g: &Grammar, n: int)
    ensures
        syms_upto(g, n).finite(),
    decreases n,
{
    if n > 0 {
        lemma_syms_upto_finite(g, n - 1);
        lemma_syms_in_finite(set_view(g.vals@[n - 1]@));
    }
}

proof fn lemma_syms_in_has(rs: Seq<Seq<Seq<char>>>, j: int, y: Seq<char>)
    requires
        0 <= j < rs.len(),
        rs[j].contains(y),
    ensures
        syms_in(rs).contains(y),
    decreases rs.len(),
{
    if j < rs.len() - 1 {
        assert(rs.drop_last()[j] == rs[j]);
        lemma_syms_in_has(rs.drop_last(), j, y);
    } else {
        assert(rs.last().to_set().contains(y));
    }
}

proof fn lemma_syms_upto_has(g: &Grammar, n: int, i: int, y: Seq<char>)
    requires
        0 <= i < n,
        syms_in(set_view(g.vals@[i]@)).contains(y),
    ensures
        syms_upto(g, n).contains(y),
    decreases n,
{
    if i < n - 1 {
        lemma_syms_upto_has(g, n - 1, i, y);
    }
}

/// Every symbol in a production is among the symbols of all the rules.
pub proof fn lemma_syms_has(g: &Grammar, x: Seq<char>, y: Seq<char>)
    requires
        grammar_wf(g),
        derives_step(g, x, y),
    ensures
        syms_upto(g, g.keys.len() as int).contains(y),
{
    let r = choose|r: Seq<Seq<char>>| #[trigger] prods(g, x).contains(r) && r.contains(y);
    let i = g.pos(x);
    g.lemma_pos(i);
    assert(g.key_at(i) == x);
    lemma_prods_at(g, i);
    let sv = set_view(g.vals@[i]@);
    let j = choose|j: int| 0 <= j < sv.len() && sv[j] == r;
    lemma_syms_in_has(sv, j, y);
    lemma_syms_upto_has(g, g.keys.len() as int, i, y);
}

/// An empty grammar.
pub fn new_grammar() -> (g: Grammar)
    ensures
        grammar_wf(&g),
        g@ == Map::<Seq<char>, Vec<Rhs>>::empty(),
{
    SymMap::new()
}

/// Makes sure non-terminal `k` has an entry, adding an empty one if not.
pub fn ensure_key(g: &mut Grammar, k: &Vec<char>)
    requires
        grammar_wf(old(g)),
    ensures
        grammar_wf(final(g)),
        final(g)@.dom() == old(g)@.dom().insert(k@),
        forall|x: Seq<char>| #[trigger] prods(final(g), x) == prods(old(g), x),
{
    match g.find(k) {
        Ok(_) => {
            assert(g@.dom() =~= g@.dom().insert(k@));
        },
        Err(pos) => {
            let ghost old_g = *g;
            let kk = crate::symbols::clone_sym(k);
            g.insert_at(pos, kk, Vec::new());
            proof {
                assert forall|i: int| 0 <= i < g.vals.len() implies set_wf(#[trigger] g.vals@[i]@) by {
                    if i < pos {
                        assert(g.vals@[i] == old_g.vals@[i]);
                    } else if i > pos {
                        assert(g.vals@[i] == old_g.vals@[i - 1]);
                    } else {
                        assert(set_view(g.vals@[i]@) =~= Seq::<Seq<Seq<char>>>::empty());
                    }
                }
                assert forall|x: Seq<char>| #[trigger] prods(g, x) == prods(&old_g, x) by {
                    if x == k@ {
                        assert(set_view(g@[x]@) =~= Seq::<Seq<Seq<char>>>::empty());
                        assert(rhs_set(g@[x]@) =~= Set::<Seq<Seq<char>>>::empty());
                    }
                }
                assert(g@.dom() =~= old_g@.dom().insert(k@));
            }
        },
    }
}

/// Adds production `k -> r`.
pub fn sdict_add(g: &mut Grammar, k: &Vec<char>, r: Rhs)
    requires
        grammar_wf(old(g)),
    ensures
        grammar_wf(final(g)),
        final(g)@.dom() == old(g)@.dom().insert(k@),
        forall|x: Seq<char>| #[trigger] prods(final(g), x) == if x == k@ {
            prods(old(g), x).insert(rhs_view(r@))
        } else {
            prods(old(g), x)
        },
{
    ensure_key(g, k);
    let ghost mid = *g;
    assert(g@.dom().contains(k@));
    assert(g.has(k@));
    let i = match g.find(k) {
        Ok(i) => i,
        Err(_) => {
            assert(false);
            0
        },
    };
    let mut cur: Vec<Rhs> = Vec::new();
    g.swap_val(i, &mut cur);
    proof {
        mid.lemma_pos(i as int);
        assert(set_wf(cur@));
    }
    let ghost before = cur@;
    rhs_set_insert(&mut cur, r);
    let ghost after = cur;
    let ghost mid2 = *g;
    let mut tmp = cur;
    g.swap_val(i, &mut tmp);
    proof {
        assert(g.keys == mid.keys);
        assert(g.vals@ == mid.vals@.update(i as int, after));
        assert forall|j: int| 0 <= j < g.vals.len() implies set_wf(#[trigger] g.vals@[j]@) by {
            if j != i {
                assert(g.vals@[j] == mid.vals@[j]);
            }
        }
        assert(g@ == mid@.insert(k@, after));
        assert(g@.dom() =~= mid@.dom());
        assert(mid@[k@] == mid.vals@[i as int]);
        assert forall|x: Seq<char>| #[trigger] prods(g, x) == if x == k@ {
            prods(old(g), x).insert(rhs_view(r@))
        } else {
            prods(old(g), x)
        } by {
            assert(prods(&mid, x) == prods(old(g), x));
            if x == k@ {
                assert(prods(g, x) == rhs_set(after@));
                assert(prods(&mid, x) == rhs_set(before));
            }
        }
    }
}

} // verus!
