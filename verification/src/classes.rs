//! Token classes: the grammar's symbols numbered, the traversal tables
//! built from them, and the vocabulary grouped into classes of tokens that
//! leave the same stack pairs.
use vstd::prelude::*;
use crate::symbols::{Sym, Rhs, str_to_chars};
use crate::symmap::{SymMap, keys_sorted};
use crate::grammar::{Grammar, grammar_wf};
use crate::normalize::{SymSet, set_add};
use crate::adjacency::{int_grammar_wf, compute_stack_adj, stack_adj_spec};
use crate::traverse::IntGrammar;
use crate::sorting::{SortKey, sorted_by_key, sort_by_key};
use crate::nfa::Preterms;

verus! {

/// The name of the start symbol, which is always numbered `0`.
pub open spec fn start_name() -> Seq<char> {
    seq!['S']
}

/// `s` names a non-terminal of `g` or occurs in one of its productions.
pub open spec fn grammar_symbol(g: &Grammar, s: Seq<char>) -> bool {
    ||| g@.contains_key(s)
    ||| exists|i: int, k: int, j: int| 0 <= i < g.vals.len() && 0 <= k < g.vals@[i].len() && 0 <= j < g.vals@[i]@[k].len() && #[trigger] g.vals@[i]@[k]@[j]@ == s
}

/// A numbering of names: distinct numbers below the number of names.
pub open spec fn numbering_wf(ids: &SymMap<usize>) -> bool {
    &&& ids.wf()
    &&& forall|i: int| 0 <= i < ids.vals.len() ==> #[trigger] ids.vals@[i] < ids.vals.len()
    &&& forall|i: int, j: int| 0 <= i < j < ids.vals.len() ==> #[trigger] ids.vals@[i] != #[trigger] ids.vals@[j]
}

fn start_symbol() -> (r: Sym)
    ensures
        r@ == start_name(),
{
    let mut r: Sym = Vec::new();
    r.push('S');
    assert(r@ =~= start_name());
    r
}

/// The symbols of `g` numbered: `S` is `0`, and every other symbol, in
/// name order, gets the next number.
pub fn number_symbols(g: &Grammar) -> (ids: SymMap<usize>)
    requires
        grammar_wf(g),
    ensures
        numbering_wf(&ids),
        forall|s: Seq<char>| ids@.contains_key(s) <==> (s == start_name() || grammar_symbol(g, s)),
        ids@.contains_key(start_name()) && ids@[start_name()] == 0,
{
    let mut set: SymSet = SymMap::new();
    let s_name = start_symbol();
    set_add(&mut set, &s_name);
    let mut i: usize = 0;
    while i < g.keys.len()
        invariant
            grammar_wf(g),
            i <= g.keys.len(),
            set.wf(),
            set@.contains_key(start_name()),
            forall|s: Seq<char>| set@.contains_key(s) ==> (s == start_name() || grammar_symbol(g, s)),
            forall|i2: int| 0 <= i2 < i ==> set@.contains_key(#[trigger] g.key_at(i2)),
            forall|i2: int, k: int, j: int| 0 <= i2 < i && 0 <= k < g.vals@[i2].len() && 0 <= j < g.vals@[i2]@[k].len() ==> set@.contains_key(#[trigger] g.vals@[i2]@[k]@[j]@),
        decreases g.keys.len() - i,
    {
        proof {
            g.lemma_pos(i as int);
        }
        set_add(&mut set, &g.keys[i]);
        let prods = &g.vals[i];
        let mut k: usize = 0;
        while k < prods.len()
            invariant
                grammar_wf(g),
                i < g.keys.len(),
                *prods == g.vals@[i as int],
                k <= prods.len(),
                set.wf(),
                set@.contains_key(start_name()),
                forall|s: Seq<char>| set@.contains_key(s) ==> (s == start_name() || grammar_symbol(g, s)),
                forall|i2: int| 0 <= i2 <= i ==> set@.contains_key(#[trigger] g.key_at(i2)),
                forall|i2: int, k2: int, j: int| 0 <= i2 < i && 0 <= k2 < g.vals@[i2].len() && 0 <= j < g.vals@[i2]@[k2].len() ==> set@.contains_key(#[trigger] g.vals@[i2]@[k2]@[j]@),
                forall|k2: int, j: int| 0 <= k2 < k && 0 <= j < g.vals@[i as int]@[k2].len() ==> set@.contains_key(#[trigger] g.vals@[i as int]@[k2]@[j]@),
            decreases prods.len() - k,
        {
            let rhs = &prods[k];
            let mut j: usize = 0;
            while j < rhs.len()
                invariant
                    grammar_wf(g),
                    i < g.keys.len(),
                    *prods == g.vals@[i as int],
                    k < prods.len(),
                    *rhs == g.vals@[i as int]@[k as int],
                    j <= rhs.len(),
                    set.wf(),
                    set@.contains_key(start_name()),
                    forall|s: Seq<char>| set@.contains_key(s) ==> (s == start_name() || grammar_symbol(g, s)),
                    forall|i2: int| 0 <= i2 <= i ==> set@.contains_key(#[trigger] g.key_at(i2)),
                    forall|i2: int, k2: int, j2: int| 0 <= i2 < i && 0 <= k2 < g.vals@[i2].len() && 0 <= j2 < g.vals@[i2]@[k2].len() ==> set@.contains_key(#[trigger] g.vals@[i2]@[k2]@[j2]@),
                    forall|k2: int, j2: int| 0 <= k2 < k && 0 <= j2 < g.vals@[i as int]@[k2].len() ==> set@.contains_key(#[trigger] g.vals@[i as int]@[k2]@[j2]@),
                    forall|j2: int| 0 <= j2 < j ==> set@.contains_key(#[trigger] g.vals@[i as int]@[k as int]@[j2]@),
                decreases rhs.len() - j,
            {
                assert(g.vals@[i as int]@[k as int]@[j as int]@ == rhs@[j as int]@);
                set_add(&mut set, &rhs[j]);
                j = j + 1;
            }
            k = k + 1;
        }
        i = i + 1;
    }
    let mut keys: Vec<Sym> = Vec::new();
    let mut vals: Vec<usize> = Vec::new();
    let mut next: usize = 1;
    let mut seen_s = false;
    let mut t: usize = 0;
    let ghost sp = set.pos(start_name());
    proof {
        set.lemma_pos(0);
        assert(set.has(start_name()));
    }
    while t < set.keys.len()
        invariant
            set.wf(),
            0 <= sp < set.keys.len(),
            set.key_at(sp) == start_name(),
            t <= set.keys.len(),
            keys.len() == t,
            vals.len() == t,
            forall|a: int| 0 <= a < t ==> (#[trigger] keys@[a])@ == set.keys@[a]@,
            seen_s == (sp < t),
            next == t + 1 - (if seen_s { 1int } else { 0int }),
            forall|a: int| 0 <= a < t ==> (#[trigger] vals@[a] == 0 <==> a == sp),
            forall|a: int| 0 <= a < t && a != sp ==> #[trigger] vals@[a] == a + 1 - (if sp < a { 1int } else { 0int }),
        decreases set.keys.len() - t,
    {
        let is_s = set.keys[t].len() == 1 && set.keys[t][0] == 'S';
        proof {
            if is_s {
                assert(set.keys@[t as int]@ =~= start_name());
                if t != sp {
                    set.lemma_unique(t as int, sp);
                }
            }
            if t as int == sp {
                assert(set.keys@[t as int]@ == start_name());
            }
        }
        keys.push(crate::symbols::clone_sym(&set.keys[t]));
        if is_s {
            vals.push(0);
            seen_s = true;
        } else {
            vals.push(next);
            next = next + 1;
        }
        t = t + 1;
    }
    let ids = SymMap { keys, vals };
    proof {
        assert(keys_sorted(ids.keys@)) by {
            assert forall|a: int, b: int| 0 <= a < b < ids.keys@.len() implies crate::symbols::lex_lt(#[trigger] ids.keys@[a]@, #[trigger] ids.keys@[b]@) by {
                assert(crate::symbols::lex_lt(set.keys@[a]@, set.keys@[b]@));
            }
        }
        assert forall|a: int| 0 <= a < ids.vals.len() implies #[trigger] ids.vals@[a] < ids.vals.len() by {
            if a != sp {
                if !(sp < a) {
                    assert(a < sp);
                }
            }
        }
        assert forall|a: int, b: int| 0 <= a < b < ids.vals.len() implies #[trigger] ids.vals@[a] != #[trigger] ids.vals@[b] by {}
        assert forall|s: Seq<char>| ids.has(s) <==> set.has(s) by {
            if ids.has(s) {
                let a = choose|a: int| 0 <= a < ids.keys.len() && #[trigger] ids.key_at(a) == s;
                assert(set.key_at(a) == s);
            }
            if set.has(s) {
                let a = choose|a: int| 0 <= a < set.keys.len() && #[trigger] set.key_at(a) == s;
                assert(ids.key_at(a) == s);
            }
        }
        assert forall|s: Seq<char>| ids@.contains_key(s) <==> (s == start_name() || grammar_symbol(g, s)) by {
            if grammar_symbol(g, s) {
                if g@.contains_key(s) {
                    let i2 = g.pos(s);
                    assert(set@.contains_key(g.key_at(i2)));
                } else {
                    let (i2, k, j) = choose|i2: int, k: int, j: int| 0 <= i2 < g.vals.len() && 0 <= k < g.vals@[i2].len() && 0 <= j < g.vals@[i2]@[k].len() && #[trigger] g.vals@[i2]@[k]@[j]@ == s;
                    assert(set@.contains_key(g.vals@[i2]@[k]@[j]@));
                }
            }
        }
        assert(ids.key_at(sp) == start_name());
        assert(ids.has(start_name()));
        ids.lemma_pos(sp);
    }
    ids
}

proof fn lemma_id_bound(ids: &SymMap<usize>, s: Seq<char>)
    requires
        numbering_wf(ids),
        ids@.contains_key(s),
    ensures
        ids@[s] < ids.vals.len(),
{
    assert(ids.has(s));
    let p = ids.pos(s);
    assert(ids.vals@[p] < ids.vals.len());
}

proof fn lemma_ids_injective(ids: &SymMap<usize>, s: Seq<char>, t: Seq<char>)
    requires
        numbering_wf(ids),
        ids@.contains_key(s),
        ids@.contains_key(t),
        s != t,
    ensures
        ids@[s] != ids@[t],
{
    assert(ids.has(s));
    assert(ids.has(t));
    let p = ids.pos(s);
    let q = ids.pos(t);
    assert(p != q);
    if p < q {
        assert(ids.vals@[p] != ids.vals@[q]);
    } else {
        assert(ids.vals@[q] != ids.vals@[p]);
    }
}

/// The productions `w` with their symbols numbered by `ids` are `v`.
pub open spec fn numbered_prods(v: Seq<Vec<usize>>, w: Seq<Rhs>, ids: Map<Seq<char>, usize>) -> bool {
    &&& v.len() == w.len()
    &&& forall|k: int| 0 <= k < v.len() ==> #[trigger] v[k]@.len() == w[k]@.len()
    &&& forall|k: int, j: int| 0 <= k < v.len() && 0 <= j < v[k]@.len() ==> #[trigger] v[k]@[j] == ids[w[k]@[j]@]
}

/// The grammar with its symbols numbered: entry `x` holds the numbered
/// productions of the non-terminal numbered `x` (none for other symbols).
pub fn number_grammar(g: &Grammar, ids: &SymMap<usize>) -> (gi: Vec<Vec<Vec<usize>>>)
    requires
        grammar_wf(g),
        numbering_wf(ids),
        forall|s: Seq<char>| grammar_symbol(g, s) ==> ids@.contains_key(s),
    ensures
        gi.len() == ids.vals.len(),
        int_grammar_wf(gi@),
        forall|i: int| 0 <= i < g.keys.len() ==> numbered_prods(#[trigger] gi@[ids@[g.key_at(i)] as int]@, g.vals@[i]@, ids@),
        forall|x: int| 0 <= x < gi.len() && (forall|i: int| 0 <= i < g.keys.len() ==> #[trigger] ids@[g.key_at(i)] != x) ==> gi@[x].len() == 0,
{
    let n = ids.vals.len();
    let mut gi: Vec<Vec<Vec<usize>>> = Vec::new();
    let mut x: usize = 0;
    while x < n
        invariant
            x <= n,
            gi.len() == x,
            forall|y: int| 0 <= y < x ==> (#[trigger] gi@[y]).len() == 0,
        decreases n - x,
    {
        gi.push(Vec::new());
        x = x + 1;
    }
    let mut i: usize = 0;
    while i < g.keys.len()
        invariant
            grammar_wf(g),
            numbering_wf(ids),
            n == ids.vals.len(),
            forall|s: Seq<char>| grammar_symbol(g, s) ==> ids@.contains_key(s),
            i <= g.keys.len(),
            gi.len() == n,
            int_grammar_wf(gi@),
            forall|i2: int| 0 <= i2 < i ==> numbered_prods(#[trigger] gi@[ids@[g.key_at(i2)] as int]@, g.vals@[i2]@, ids@),
            forall|y: int| 0 <= y < n && (forall|i2: int| 0 <= i2 < i ==> #[trigger] ids@[g.key_at(i2)] != y) ==> gi@[y].len() == 0,
        decreases g.keys.len() - i,
    {
        proof {
            g.lemma_pos(i as int);
            assert(grammar_symbol(g, g.key_at(i as int)));
            lemma_id_bound(ids, g.key_at(i as int));
        }
        let aid = *ids.get(&g.keys[i]).unwrap();
        assert(aid == ids@[g.key_at(i as int)]);
        let prods = &g.vals[i];
        let mut mapped: Vec<Vec<usize>> = Vec::new();
        let mut k: usize = 0;
        while k < prods.len()
            invariant
                grammar_wf(g),
                numbering_wf(ids),
                n == ids.vals.len(),
                forall|s: Seq<char>| grammar_symbol(g, s) ==> ids@.contains_key(s),
                i < g.keys.len(),
                *prods == g.vals@[i as int],
                k <= prods.len(),
                mapped.len() == k,
                forall|k2: int| 0 <= k2 < k ==> #[trigger] mapped@[k2]@.len() == prods@[k2]@.len(),
                forall|k2: int, j: int| 0 <= k2 < k && 0 <= j < mapped@[k2]@.len() ==> #[trigger] mapped@[k2]@[j] == ids@[prods@[k2]@[j]@],
                forall|k2: int, j: int| 0 <= k2 < k && 0 <= j < mapped@[k2]@.len() ==> #[trigger] mapped@[k2]@[j] < n,
            decreases prods.len() - k,
        {
            let rhs = &prods[k];
            let mut m: Vec<usize> = Vec::new();
            let mut j: usize = 0;
            while j < rhs.len()
                invariant
                    grammar_wf(g),
                    numbering_wf(ids),
                    n == ids.vals.len(),
                    forall|s: Seq<char>| grammar_symbol(g, s) ==> ids@.contains_key(s),
                    i < g.keys.len(),
                    *prods == g.vals@[i as int],
                    k < prods.len(),
                    *rhs == prods@[k as int],
                    j <= rhs.len(),
                    m.len() == j,
                    forall|j2: int| 0 <= j2 < j ==> #[trigger] m@[j2] == ids@[rhs@[j2]@],
                    forall|j2: int| 0 <= j2 < j ==> #[trigger] m@[j2] < n,
                decreases rhs.len() - j,
            {
                proof {
                    assert(g.vals@[i as int]@[k as int]@[j as int]@ == rhs@[j as int]@);
                    assert(grammar_symbol(g, rhs@[j as int]@));
                    lemma_id_bound(ids, rhs@[j as int]@);
                }
                let id = *ids.get(&rhs[j]).unwrap();
                m.push(id);
                j = j + 1;
            }
            mapped.push(m);
            k = k + 1;
        }
        let ghost g0 = gi@;
        gi.set(aid, mapped);
        proof {
            assert forall|a: int, k2: int, j: int| 0 <= a < gi@.len() && 0 <= k2 < gi@[a].len() && 0 <= j < gi@[a]@[k2].len() implies #[trigger] gi@[a]@[k2]@[j] < gi@.len() by {
                if a != aid {
                    assert(gi@[a] == g0[a]);
                }
            }
            assert forall|i2: int| 0 <= i2 < i + 1 implies numbered_prods(#[trigger] gi@[ids@[g.key_at(i2)] as int]@, g.vals@[i2]@, ids@) by {
                if i2 < i {
                    g.lemma_pos(i2);
                    assert(grammar_symbol(g, g.key_at(i2)));
                    lemma_keys_distinct(g, i2, i as int);
                    lemma_ids_injective(ids, g.key_at(i2), g.key_at(i as int));
                    assert(gi@[ids@[g.key_at(i2)] as int] == g0[ids@[g.key_at(i2)] as int]);
                }
            }
            assert forall|y: int| 0 <= y < n && (forall|i2: int| 0 <= i2 < i + 1 ==> #[trigger] ids@[g.key_at(i2)] != y) implies gi@[y].len() == 0 by {
                assert(ids@[g.key_at(i as int)] != y);
                assert(gi@[y] == g0[y]);
            }
        }
        i = i + 1;
    }
    gi
}

proof fn lemma_keys_distinct(g: &Grammar, i: int, j: int)
    requires
        grammar_wf(g),
        0 <= i < j < g.keys.len(),
    ensures
        g.key_at(i) != g.key_at(j),
{
    if g.key_at(i) == g.key_at(j) {
        g.lemma_unique(i, j);
    }
}

/// Production `k` of `a` starts with `b`.
pub open spec fn first_is(gi: Seq<Vec<Vec<usize>>>, a: int, k: int, b: int) -> bool {
    &&& 0 <= a < gi.len()
    &&& 0 <= k < gi[a].len()
    &&& gi[a]@[k]@.len() > 0
    &&& gi[a]@[k]@[0] == b
}

/// `r` is the rest of a production `a -> b r`.
pub open spec fn rest_ok(gi: Seq<Vec<Vec<usize>>>, a: int, b: int, r: Seq<usize>) -> bool {
    exists|k: int| #[trigger] first_is(gi, a, k, b) && r == gi[a]@[k]@.skip(1)
}

/// Rest `r` is listed under `b` for `a`.
pub open spec fn listed(trans: Seq<Vec<(usize, Vec<Vec<usize>>)>>, a: int, b: int, r: Seq<usize>) -> bool {
    exists|e: int, m: int| 0 <= e < trans[b].len() && 0 <= m < trans[b]@[e].1.len() && trans[b]@[e].0 == a && (#[trigger] trans[b]@[e].1@[m])@ == r
}

/// Every listed rest is the rest of a production it is listed for.
pub open spec fn trans_sound(gi: Seq<Vec<Vec<usize>>>, trans: Seq<Vec<(usize, Vec<Vec<usize>>)>>) -> bool {
    forall|b: int, e: int, m: int| 0 <= b < trans.len() && 0 <= e < trans[b].len() && 0 <= m < trans[b]@[e].1.len() ==> #[trigger] rest_ok(gi, trans[b]@[e].0 as int, b, trans[b]@[e].1@[m]@)
}

proof fn lemma_trans_step(gi: Seq<Vec<Vec<usize>>>, t0: Seq<Vec<(usize, Vec<Vec<usize>>)>>, t1: Seq<Vec<(usize, Vec<Vec<usize>>)>>, nb: int, a: usize, k: int, appended: bool)
    requires
        0 <= nb < t0.len(),
        t1 == t0.update(nb, t1[nb]),
        first_is(gi, a as int, k, nb),
        trans_sound(gi, t0),
        appended ==> t0[nb].len() > 0 && t0[nb]@.last().0 == a && t1[nb]@.len() == t0[nb]@.len()
            && t1[nb]@.drop_last() == t0[nb]@.drop_last() && t1[nb]@.last().0 == a
            && t1[nb]@.last().1@ == t0[nb]@.last().1@.push(t1[nb]@.last().1@.last()) && t1[nb]@.last().1@.last()@ == gi[a as int]@[k]@.skip(1),
        !appended ==> t1[nb]@ == t0[nb]@.push(t1[nb]@.last()) && t1[nb]@.last().0 == a && t1[nb]@.last().1@.len() == 1 && t1[nb]@.last().1@[0]@ == gi[a as int]@[k]@.skip(1),
    ensures
        trans_sound(gi, t1),
        listed(t1, a as int, nb, gi[a as int]@[k]@.skip(1)),
        forall|a2: int, b2: int, r: Seq<usize>| #[trigger] listed(t0, a2, b2, r) && 0 <= b2 < t0.len() ==> listed(t1, a2, b2, r),
{
    let el = t0[nb].len() as int;
    assert forall|b: int, e: int, m: int| 0 <= b < t1.len() && 0 <= e < t1[b].len() && 0 <= m < t1[b]@[e].1.len() implies #[trigger] rest_ok(gi, t1[b]@[e].0 as int, b, t1[b]@[e].1@[m]@) by {
        if b != nb {
            assert(t1[b] == t0[b]);
            assert(rest_ok(gi, t0[b]@[e].0 as int, b, t0[b]@[e].1@[m]@));
        } else if appended && e == el - 1 {
            if m < t0[nb]@[e].1.len() {
                assert(t1[b]@[e].1@[m] == t0[nb]@[e].1@[m]);
                assert(rest_ok(gi, t0[b]@[e].0 as int, b, t0[b]@[e].1@[m]@));
            } else {
                assert(first_is(gi, a as int, k, nb));
            }
        } else if !appended && e == el {
            assert(first_is(gi, a as int, k, nb));
        } else {
            if appended {
                assert(t1[nb]@[e] == t1[nb]@.drop_last()[e]);
                assert(t0[nb]@[e] == t0[nb]@.drop_last()[e]);
            } else {
                assert(t1[nb]@[e] == t0[nb]@.push(t1[nb]@.last())[e]);
            }
            assert(t1[nb]@[e] == t0[nb]@[e]);
            assert(rest_ok(gi, t0[b]@[e].0 as int, b, t0[b]@[e].1@[m]@));
        }
    }
    if appended {
        let m = t1[nb]@.last().1@.len() - 1;
        assert(t1[nb]@[el - 1].1@[m]@ == gi[a as int]@[k]@.skip(1));
    } else {
        assert(t1[nb]@[el].1@[0]@ == gi[a as int]@[k]@.skip(1));
    }
    assert forall|a2: int, b2: int, r: Seq<usize>| #[trigger] listed(t0, a2, b2, r) && 0 <= b2 < t0.len() implies listed(t1, a2, b2, r) by {
        let (e, m) = choose|e: int, m: int| 0 <= e < t0[b2].len() && 0 <= m < t0[b2]@[e].1.len() && t0[b2]@[e].0 == a2 && (#[trigger] t0[b2]@[e].1@[m])@ == r;
        if b2 != nb {
            assert(t1[b2] == t0[b2]);
            assert(t1[b2]@[e].1@[m] == t0[b2]@[e].1@[m]);
        } else if appended && e == el - 1 {
            assert(t1[b2]@[e].1@[m] == t0[b2]@[e].1@[m]);
        } else {
            if appended {
                assert(t1[nb]@[e] == t1[nb]@.drop_last()[e]);
                assert(t0[nb]@[e] == t0[nb]@.drop_last()[e]);
            } else {
                assert(t1[nb]@[e] == t0[nb]@.push(t1[nb]@.last())[e]);
            }
            assert(t1[b2]@[e] == t0[b2]@[e]);
            assert(t1[b2]@[e].1@[m] == t0[b2]@[e].1@[m]);
        }
    }
}

/// For each symbol `b`: the non-terminals with a production starting with
/// `b` (once per such production), and for each such non-terminal `a` the
/// rests of its productions `a -> b rest`, in production order.
pub fn build_transitions(gi: &Vec<Vec<Vec<usize>>>) -> (r: (Vec<Vec<usize>>, Vec<Vec<(usize, Vec<Vec<usize>>)>>))
    requires
        int_grammar_wf(gi@),
    ensures
        r.0.len() == gi.len(),
        r.1.len() == gi.len(),
        forall|b: int, a: usize| 0 <= b < gi.len() ==> (#[trigger] r.0@[b]@.contains(a) <==> exists|k: int| #[trigger] first_is(gi@, a as int, k, b)),
        forall|b: int, j: int| 0 <= b < gi.len() && 0 <= j < r.0@[b].len() ==> #[trigger] r.0@[b]@[j] < gi.len(),
        trans_sound(gi@, r.1@),
        forall|a: int, k: int, b: int| #[trigger] first_is(gi@, a, k, b) ==> listed(r.1@, a, b, gi@[a]@[k]@.skip(1)),
{
    let n = gi.len();
    let mut nt_map: Vec<Vec<usize>> = Vec::new();
    let mut trans: Vec<Vec<(usize, Vec<Vec<usize>>)>> = Vec::new();
    let mut x: usize = 0;
    while x < n
        invariant
            x <= n,
            nt_map.len() == x,
            trans.len() == x,
            forall|y: int| 0 <= y < x ==> (#[trigger] nt_map@[y]).len() == 0,
            forall|y: int| 0 <= y < x ==> (#[trigger] trans@[y]).len() == 0,
        decreases n - x,
    {
        nt_map.push(Vec::new());
        trans.push(Vec::new());
        x = x + 1;
    }
    let mut a: usize = 0;
    while a < n
        invariant
            a <= n,
            n == gi.len(),
            int_grammar_wf(gi@),
            nt_map.len() == n,
            trans.len() == n,
            forall|b: int, a2: usize| 0 <= b < n ==> (#[trigger] nt_map@[b]@.contains(a2) <==> exists|k: int| #[trigger] first_is(gi@, a2 as int, k, b) && a2 < a),
            forall|b: int, j: int| 0 <= b < n && 0 <= j < nt_map@[b].len() ==> #[trigger] nt_map@[b]@[j] < n,
            forall|b: int, e: int| 0 <= b < n && 0 <= e < trans@[b].len() ==> #[trigger] trans@[b]@[e].0 < a,
            trans_sound(gi@, trans@),
            forall|a2: int, k2: int, b: int| #[trigger] first_is(gi@, a2, k2, b) && a2 < a ==> listed(trans@, a2, b, gi@[a2]@[k2]@.skip(1)),
        decreases n - a,
    {
        let prods = &gi[a];
        let mut k: usize = 0;
        while k < prods.len()
            invariant
                a < n,
                n == gi.len(),
                int_grammar_wf(gi@),
                *prods == gi@[a as int],
                k <= prods.len(),
                nt_map.len() == n,
                trans.len() == n,
                forall|b: int, a2: usize| 0 <= b < n ==> (#[trigger] nt_map@[b]@.contains(a2) <==> exists|k2: int| #[trigger] first_is(gi@, a2 as int, k2, b) && (a2 < a || (a2 == a && k2 < k))),
                forall|b: int, j: int| 0 <= b < n && 0 <= j < nt_map@[b].len() ==> #[trigger] nt_map@[b]@[j] < n,
                forall|b: int, e: int| 0 <= b < n && 0 <= e < trans@[b].len() ==> #[trigger] trans@[b]@[e].0 <= a,
                trans_sound(gi@, trans@),
                forall|a2: int, k2: int, b: int| #[trigger] first_is(gi@, a2, k2, b) && (a2 < a || (a2 == a && k2 < k)) ==> listed(trans@, a2, b, gi@[a2]@[k2]@.skip(1)),
            decreases prods.len() - k,
        {
            let beta = &prods[k];
            if beta.len() > 0 {
                let b = beta[0];
                assert(gi@[a as int]@[k as int]@[0] == b);
                assert(b < n);
                assert(first_is(gi@, a as int, k as int, b as int));
                let mut rest: Vec<usize> = Vec::new();
                let mut j: usize = 1;
                while j < beta.len()
                    invariant
                        1 <= j <= beta.len(),
                        rest@ == beta@.subrange(1, j as int),
                    decreases beta.len() - j,
                {
                    rest.push(beta[j]);
                    j = j + 1;
                }
                assert(rest@ == gi@[a as int]@[k as int]@.skip(1));
                let ghost n0 = nt_map@;
                let mut cur: Vec<usize> = Vec::new();
                std::mem::swap(&mut cur, &mut nt_map[b]);
                let ghost c0 = cur@;
                cur.push(a);
                std::mem::swap(&mut cur, &mut nt_map[b]);
                let ghost t0 = trans@;
                let mut entries: Vec<(usize, Vec<Vec<usize>>)> = Vec::new();
                std::mem::swap(&mut entries, &mut trans[b]);
                let ghost e0 = entries@;
                let ghost rv = rest@;
                let last_is_a = entries.len() > 0 && entries[entries.len() - 1].0 == a;
                if last_is_a {
                    let (ea, mut rs) = entries.pop().unwrap();
                    rs.push(rest);
                    entries.push((ea, rs));
                } else {
                    let mut rs: Vec<Vec<usize>> = Vec::new();
                    rs.push(rest);
                    entries.push((a, rs));
                }
                std::mem::swap(&mut entries, &mut trans[b]);
                proof {
                    let nb = b as int;
                    assert(nt_map@ == n0.update(nb, nt_map@[nb]));
                    assert(nt_map@[nb]@ == c0.push(a));
                    assert(trans@ == t0.update(nb, trans@[nb]));
                    if last_is_a {
                        assert(trans@[nb]@.drop_last() =~= t0[nb]@.drop_last());
                    } else {
                        assert(trans@[nb]@ =~= t0[nb]@.push(trans@[nb]@.last()));
                    }
                    lemma_trans_step(gi@, t0, trans@, nb, a, k as int, last_is_a);
                    assert forall|b2: int, a2: usize| 0 <= b2 < n implies (#[trigger] nt_map@[b2]@.contains(a2) <==> exists|k2: int| #[trigger] first_is(gi@, a2 as int, k2, b2) && (a2 < a || (a2 == a && k2 < k + 1))) by {
                        if b2 != nb {
                            assert(nt_map@[b2] == n0[b2]);
                            if exists|k2: int| #[trigger] first_is(gi@, a2 as int, k2, b2) && (a2 < a || (a2 == a && k2 < k + 1)) {
                                let k2 = choose|k2: int| #[trigger] first_is(gi@, a2 as int, k2, b2) && (a2 < a || (a2 == a && k2 < k + 1));
                                assert(k2 != k || a2 != a);
                            }
                        } else {
                            if nt_map@[b2]@.contains(a2) && a2 != a {
                                let j2 = choose|j2: int| 0 <= j2 < nt_map@[b2]@.len() && nt_map@[b2]@[j2] == a2;
                                assert(c0[j2] == a2);
                                assert(n0[b2]@.contains(a2));
                            }
                            if a2 == a {
                                assert(nt_map@[b2]@[c0.len() as int] == a2);
                            } else if exists|k2: int| #[trigger] first_is(gi@, a2 as int, k2, b2) && (a2 < a || (a2 == a && k2 < k + 1)) {
                                assert(n0[b2]@.contains(a2));
                                let j2 = choose|j2: int| 0 <= j2 < c0.len() && c0[j2] == a2;
                                assert(nt_map@[b2]@[j2] == a2);
                            }
                        }
                    }
                    assert forall|b2: int, j2: int| 0 <= b2 < n && 0 <= j2 < nt_map@[b2].len() implies #[trigger] nt_map@[b2]@[j2] < n by {
                        if b2 != nb {
                            assert(nt_map@[b2] == n0[b2]);
                        } else if j2 < c0.len() {
                            assert(nt_map@[b2]@[j2] == c0[j2]);
                        }
                    }
                    assert forall|b2: int, e: int| 0 <= b2 < n && 0 <= e < trans@[b2].len() implies #[trigger] trans@[b2]@[e].0 <= a by {
                        if b2 != nb {
                            assert(trans@[b2] == t0[b2]);
                        } else if last_is_a && e < e0.len() - 1 {
                            assert(trans@[b2]@[e] == t0[nb]@.drop_last()[e]);
                        } else if !last_is_a && e < e0.len() {
                            assert(trans@[b2]@[e] == t0[nb]@[e]);
                        }
                    }
                    assert forall|a2: int, k2: int, b2: int| #[trigger] first_is(gi@, a2, k2, b2) && (a2 < a || (a2 == a && k2 < k + 1)) implies listed(trans@, a2, b2, gi@[a2]@[k2]@.skip(1)) by {
                        if !(a2 == a && k2 == k) {
                            assert(listed(t0, a2, b2, gi@[a2]@[k2]@.skip(1)));
                        }
                    }
                }
            } else {
                proof {
                    assert forall|b2: int, a2: usize| 0 <= b2 < n implies (#[trigger] nt_map@[b2]@.contains(a2) <==> exists|k2: int| #[trigger] first_is(gi@, a2 as int, k2, b2) && (a2 < a || (a2 == a && k2 < k + 1))) by {
                        if exists|k2: int| #[trigger] first_is(gi@, a2 as int, k2, b2) && (a2 < a || (a2 == a && k2 < k + 1)) {
                            let k2 = choose|k2: int| #[trigger] first_is(gi@, a2 as int, k2, b2) && (a2 < a || (a2 == a && k2 < k + 1));
                            assert(k2 != k || a2 != a);
                        }
                    }
                }
            }
            k = k + 1;
        }
        proof {
            assert forall|b2: int, a2: usize| 0 <= b2 < n implies (#[trigger] nt_map@[b2]@.contains(a2) <==> exists|k2: int| #[trigger] first_is(gi@, a2 as int, k2, b2) && a2 < a + 1) by {
                if exists|k2: int| #[trigger] first_is(gi@, a2 as int, k2, b2) && a2 < a + 1 {
                    let k2 = choose|k2: int| #[trigger] first_is(gi@, a2 as int, k2, b2) && a2 < a + 1;
                    assert(a2 < a || (a2 == a && k2 < k));
                }
            }
        }
        a = a + 1;
    }
    (nt_map, trans)
}

/// Byte `b` occurs in one of the tokens.
pub open spec fn byte_used(tokens: Seq<(Vec<u8>, usize)>, b: int) -> bool {
    exists|t: int, j: int| 0 <= t < tokens.len() && 0 <= j < tokens[t].0@.len() && #[trigger] tokens[t].0@[j] == b
}

/// For each byte, whether some token holds it.
pub fn token_bytes(tokens: &Vec<(Vec<u8>, usize)>) -> (tc: Vec<bool>)
    ensures
        tc.len() == 256,
        forall|b: int| 0 <= b < 256 ==> #[trigger] tc@[b] == byte_used(tokens@, b),
{
    let mut tc: Vec<bool> = Vec::new();
    let mut b: usize = 0;
    while b < 256
        invariant
            b <= 256,
            tc.len() == b,
            forall|c: int| 0 <= c < b ==> !tc@[c],
        decreases 256 - b,
    {
        tc.push(false);
        b = b + 1;
    }
    let mut t: usize = 0;
    while t < tokens.len()
        invariant
            t <= tokens.len(),
            tc.len() == 256,
            forall|c: int| 0 <= c < 256 && #[trigger] tc@[c] ==> byte_used(tokens@, c),
            forall|t2: int, j: int| 0 <= t2 < t && 0 <= j < tokens@[t2].0@.len() ==> tc@[#[trigger] tokens@[t2].0@[j] as int],
        decreases tokens.len() - t,
    {
        let tok = &tokens[t].0;
        let mut j: usize = 0;
        while j < tok.len()
            invariant
                t < tokens.len(),
                *tok == tokens@[t as int].0,
                j <= tok.len(),
                tc.len() == 256,
                forall|c: int| 0 <= c < 256 && #[trigger] tc@[c] ==> byte_used(tokens@, c),
                forall|t2: int, j2: int| 0 <= t2 < t && 0 <= j2 < tokens@[t2].0@.len() ==> tc@[#[trigger] tokens@[t2].0@[j2] as int],
                forall|j2: int| 0 <= j2 < j ==> tc@[#[trigger] tokens@[t as int].0@[j2] as int],
            decreases tok.len() - j,
        {
            let byte = tok[j];
            assert(tokens@[t as int].0@[j as int] == byte);
            tc.set(byte as usize, true);
            j = j + 1;
        }
        t = t + 1;
    }
    proof {
        assert forall|b: int| 0 <= b < 256 implies #[trigger] tc@[b] == byte_used(tokens@, b) by {
            if byte_used(tokens@, b) {
                let (t2, j) = choose|t2: int, j: int| 0 <= t2 < tokens@.len() && 0 <= j < tokens@[t2].0@.len() && #[trigger] tokens@[t2].0@[j] == b;
                assert(tc@[tokens@[t2].0@[j] as int]);
            }
        }
    }
    tc
}

/// Preterminal `i` of `preterms` is numbered `x` and accepts byte `b`.
pub open spec fn preterm_accepts(preterms: &Preterms, ids: &SymMap<usize>, i: int, b: int, x: usize) -> bool {
    &&& 0 <= i < preterms.keys.len()
    &&& ids@.contains_key(preterms.key_at(i))
    &&& ids@[preterms.key_at(i)] == x
    &&& preterms.vals@[i]@.contains(b as u8)
}

/// For each byte used by a token, the numbers of the preterminals that
/// accept it (preterminals without a number are left out).
pub fn build_preterms_rev(preterms: &Preterms, ids: &SymMap<usize>, tc: &Vec<bool>) -> (r: Vec<Vec<usize>>)
    requires
        preterms.wf(),
        numbering_wf(ids),
        tc.len() == 256,
    ensures
        r.len() == 256,
        forall|b: int, j: int| 0 <= b < 256 && 0 <= j < r@[b].len() ==> #[trigger] r@[b]@[j] < ids.vals.len(),
        forall|b: int, x: usize| 0 <= b < 256 ==> (#[trigger] r@[b]@.contains(x) <==> tc@[b] && exists|i: int| #[trigger] preterm_accepts(preterms, ids, i, b, x)),
{
    let mut r: Vec<Vec<usize>> = Vec::new();
    let mut b: usize = 0;
    while b < 256
        invariant
            b <= 256,
            r.len() == b,
            forall|c: int| 0 <= c < b ==> (#[trigger] r@[c]).len() == 0,
        decreases 256 - b,
    {
        r.push(Vec::new());
        b = b + 1;
    }
    let mut i: usize = 0;
    while i < preterms.keys.len()
        invariant
            preterms.wf(),
            numbering_wf(ids),
            tc.len() == 256,
            i <= preterms.keys.len(),
            r.len() == 256,
            forall|c: int, j: int| 0 <= c < 256 && 0 <= j < r@[c].len() ==> #[trigger] r@[c]@[j] < ids.vals.len(),
            forall|c: int, x: usize| 0 <= c < 256 ==> (#[trigger] r@[c]@.contains(x) <==> tc@[c] && exists|i2: int| #[trigger] preterm_accepts(preterms, ids, i2, c, x) && i2 < i),
        decreases preterms.keys.len() - i,
    {
        match ids.get(&preterms.keys[i]) {
            None => {
                proof {
                    assert forall|c: int, x: usize| 0 <= c < 256 implies (#[trigger] r@[c]@.contains(x) <==> tc@[c] && exists|i2: int| #[trigger] preterm_accepts(preterms, ids, i2, c, x) && i2 < i + 1) by {
                        if exists|i2: int| #[trigger] preterm_accepts(preterms, ids, i2, c, x) && i2 < i + 1 {
                            let i2 = choose|i2: int| #[trigger] preterm_accepts(preterms, ids, i2, c, x) && i2 < i + 1;
                            assert(i2 != i);
                        }
                    }
                }
            },
            Some(kid) => {
                let kid = *kid;
                proof {
                    lemma_id_bound(ids, preterms.key_at(i as int));
                }
                let bytes = &preterms.vals[i];
                let mut j: usize = 0;
                while j < bytes.len()
                    invariant
                        preterms.wf(),
                        numbering_wf(ids),
                        tc.len() == 256,
                        i < preterms.keys.len(),
                        *bytes == preterms.vals@[i as int],
                        ids@.contains_key(preterms.key_at(i as int)),
                        kid == ids@[preterms.key_at(i as int)],
                        kid < ids.vals.len(),
                        j <= bytes.len(),
                        r.len() == 256,
                        forall|c: int, jj: int| 0 <= c < 256 && 0 <= jj < r@[c].len() ==> #[trigger] r@[c]@[jj] < ids.vals.len(),
                        forall|c: int, x: usize| 0 <= c < 256 ==> (#[trigger] r@[c]@.contains(x) <==> tc@[c] && ((exists|i2: int| #[trigger] preterm_accepts(preterms, ids, i2, c, x) && i2 < i) || (x == kid && bytes@.subrange(0, j as int).contains(c as u8)))),
                    decreases bytes.len() - j,
                {
                    let byte = bytes[j];
                    let ghost r0 = r@;
                    if tc[byte as usize] {
                        let mut cur: Vec<usize> = Vec::new();
                        std::mem::swap(&mut cur, &mut r[byte as usize]);
                        cur.push(kid);
                        std::mem::swap(&mut cur, &mut r[byte as usize]);
                    }
                    proof {
                        let nb = byte as int;
                        assert(bytes@.subrange(0, j + 1) == bytes@.subrange(0, j as int).push(byte));
                        assert forall|c: int, x: usize| 0 <= c < 256 implies (#[trigger] r@[c]@.contains(x) <==> tc@[c] && ((exists|i2: int| #[trigger] preterm_accepts(preterms, ids, i2, c, x) && i2 < i) || (x == kid && bytes@.subrange(0, j + 1).contains(c as u8)))) by {
                            if c != nb || !tc@[nb] {
                                assert(r@[c] == r0[c]);
                                if x == kid && bytes@.subrange(0, j + 1).contains(c as u8) && c != nb {
                                    let sj = bytes@.subrange(0, j + 1);
                                    let q = choose|q: int| 0 <= q < sj.len() && #[trigger] sj[q] == c as u8;
                                    assert(q != j);
                                    assert(bytes@.subrange(0, j as int)[q] == c as u8);
                                }
                            } else {
                                assert(r@[c]@ == r0[c]@.push(kid));
                                if r@[c]@.contains(x) && x != kid {
                                    let q = choose|q: int| 0 <= q < r@[c]@.len() && r@[c]@[q] == x;
                                    assert(r0[c]@[q] == x);
                                    assert(r0[c]@.contains(x));
                                }
                                if x == kid {
                                    assert(r@[c]@[r0[c]@.len() as int] == x);
                                    assert(bytes@.subrange(0, j + 1)[j as int] == c as u8);
                                } else if exists|i2: int| #[trigger] preterm_accepts(preterms, ids, i2, c, x) && i2 < i {
                                    assert(r0[c]@.contains(x));
                                    let q = choose|q: int| 0 <= q < r0[c]@.len() && r0[c]@[q] == x;
                                    assert(r@[c]@[q] == x);
                                }
                            }
                        }
                        assert forall|c: int, jj: int| 0 <= c < 256 && 0 <= jj < r@[c].len() implies #[trigger] r@[c]@[jj] < ids.vals.len() by {
                            if c != nb || !tc@[nb] {
                                assert(r@[c] == r0[c]);
                            } else if jj < r0[c].len() {
                                assert(r@[c]@[jj] == r0[c]@[jj]);
                            }
                        }
                    }
                    j = j + 1;
                }
                proof {
                    assert(bytes@.subrange(0, j as int) == bytes@);
                    assert forall|c: int, x: usize| 0 <= c < 256 implies (#[trigger] r@[c]@.contains(x) <==> tc@[c] && exists|i2: int| #[trigger] preterm_accepts(preterms, ids, i2, c, x) && i2 < i + 1) by {
                        if x == kid && bytes@.contains(c as u8) {
                            assert(preterm_accepts(preterms, ids, i as int, c, x));
                        }
                        if exists|i2: int| #[trigger] preterm_accepts(preterms, ids, i2, c, x) && i2 < i + 1 {
                            let i2 = choose|i2: int| #[trigger] preterm_accepts(preterms, ids, i2, c, x) && i2 < i + 1;
                            if i2 == i {
                                assert(x == kid);
                            }
                        }
                    }
                }
            },
        }
        i = i + 1;
    }
    r
}

/// The traversal tables of a numbered grammar: the preterminals of each
/// byte used by a token, the first-symbol maps, the stack adjacency, and
/// the start symbol `0`.
pub fn build_int_grammar(gi: &Vec<Vec<Vec<usize>>>, ids: &SymMap<usize>, preterms: &Preterms, tokens: &Vec<(Vec<u8>, usize)>) -> (ig: IntGrammar)
    requires
        int_grammar_wf(gi@),
        numbering_wf(ids),
        gi.len() == ids.vals.len(),
        preterms.wf(),
    ensures
        ig.wf(),
        ig.start == 0,
        ig.nt_map.len() == gi.len(),
        forall|b: int, x: usize| 0 <= b < 256 ==> (#[trigger] ig.preterms_rev@[b]@.contains(x) <==> byte_used(tokens@, b) && exists|i: int| #[trigger] preterm_accepts(preterms, ids, i, b, x)),
        forall|b: int, a: usize| 0 <= b < gi.len() ==> (#[trigger] ig.nt_map@[b]@.contains(a) <==> exists|k: int| #[trigger] first_is(gi@, a as int, k, b)),
        trans_sound(gi@, ig.transitions@),
        forall|a: int, k: int, b: int| #[trigger] first_is(gi@, a, k, b) ==> listed(ig.transitions@, a, b, gi@[a]@[k]@.skip(1)),
        forall|a: int, p: Option<usize>| 0 <= a < gi.len() ==> (#[trigger] ig.stack_adj@[a].contains_spec(p) <==> stack_adj_spec(gi@, 0, a, p)),
{
    let stack_adj = compute_stack_adj(gi, 0);
    let tc = token_bytes(tokens);
    let preterms_rev = build_preterms_rev(preterms, ids, &tc);
    let (nt_map, transitions) = build_transitions(gi);
    IntGrammar { preterms_rev, nt_map, transitions, stack_adj, start: 0 }
}

/// The options that leave tokens out of the traversal.
pub struct ClassOptions {
    /// Half-open ranges of token ids that get no class.
    pub ignore_range: Vec<(usize, usize)>,
    /// Tokens holding a zero byte get a class of their own.
    pub skip_null_bytes: bool,
    /// Tokens holding a run of one repeated byte at least
    /// `skip_repeat_min_run` long get a class of their own.
    pub skip_repeat_bytes: bool,
    /// The shortest run that `skip_repeat_bytes` skips a token for.
    pub skip_repeat_min_run: usize,
}

/// Token id `id` lies in one of the ignored ranges.
pub open spec fn ignored(ranges: Seq<(usize, usize)>, id: usize) -> bool {
    exists|r: int| 0 <= r < ranges.len() && ranges[r].0 <= id && id < #[trigger] ranges[r].1
}

/// The `m` bytes of `tok` from `w` on are all the same byte.
pub open spec fn repeat_at(tok: Seq<u8>, w: int, m: int) -> bool {
    &&& 0 <= w
    &&& w + m <= tok.len()
    &&& forall|j: int| 0 <= j < m ==> #[trigger] tok[w + j] == tok[w]
}

/// The token gets a class of its own without being traversed.
pub open spec fn skipped(opts: &ClassOptions, tok: Seq<u8>) -> bool {
    ||| (opts.skip_null_bytes && tok.contains(0u8))
    ||| (opts.skip_repeat_bytes && exists|w: int| #[trigger] repeat_at(tok, w, opts.skip_repeat_min_run as int))
}

/// Whether token id `id` is ignored.
pub fn is_ignored(ranges: &Vec<(usize, usize)>, id: usize) -> (r: bool)
    ensures
        r == ignored(ranges@, id),
{
    let mut i: usize = 0;
    while i < ranges.len()
        invariant
            i <= ranges.len(),
            forall|j: int| 0 <= j < i ==> !(ranges@[j].0 <= id && id < #[trigger] ranges@[j].1),
        decreases ranges.len() - i,
    {
        if ranges[i].0 <= id && id < ranges[i].1 {
            return true;
        }
        i = i + 1;
    }
    false
}

/// The run of equal bytes that ends just before `i` is at least `r` long.
pub open spec fn run_back(tok: Seq<u8>, i: int, r: int) -> bool {
    forall|j: int| 1 <= j <= r ==> #[trigger] tok[i - j] == tok[i - 1]
}

/// Whether the token is skipped under `opts`.
pub fn is_skipped(opts: &ClassOptions, tok: &Vec<u8>) -> (r: bool)
    ensures
        r == skipped(opts, tok@),
{
    let m = opts.skip_repeat_min_run;
    let ghost mi = m as int;
    let mut has_null = false;
    let mut has_repeat = m == 0;
    proof {
        if m == 0 {
            assert(repeat_at(tok@, 0, 0));
        }
    }
    let mut run: usize = 0;
    let mut i: usize = 0;
    while i < tok.len()
        invariant
            i <= tok.len(),
            mi == m,
            run <= i,
            i > 0 ==> run >= 1,
            run_back(tok@, i as int, run as int),
            run < i ==> tok@[i - 1 - run] != tok@[i - 1],
            has_null <==> tok@.subrange(0, i as int).contains(0u8),
            has_repeat <==> (mi == 0 || exists|w: int| #[trigger] repeat_at(tok@, w, mi) && w + mi <= i),
        decreases tok.len() - i,
    {
        let ghost sub = tok@.subrange(0, i as int);
        let ghost run0 = run as int;
        if tok[i] == 0 {
            has_null = true;
        }
        if i > 0 && tok[i - 1] == tok[i] {
            run = run + 1;
        } else {
            run = 1;
        }
        proof {
            let t = tok@;
            let ii = i as int;
            assert(run_back(t, ii + 1, run as int)) by {
                assert forall|j: int| 1 <= j <= run implies #[trigger] t[ii + 1 - j] == t[ii] by {
                    if j >= 2 {
                        assert(t[ii - (j - 1)] == t[ii - 1]);
                    }
                }
            }
            if (run as int) < ii + 1 {
                if ii > 0 && t[ii - 1] == t[ii] {
                    assert(t[ii - 1 - run0] != t[ii - 1]);
                }
            }
        }
        if m > 0 && run >= m {
            proof {
                let w = i + 1 - m;
                assert forall|j: int| 0 <= j < mi implies #[trigger] tok@[w + j] == tok@[w] by {
                    assert(tok@[(i + 1) - (mi - j)] == tok@[i as int]);
                    assert(tok@[(i + 1) - mi] == tok@[i as int]);
                }
                assert(repeat_at(tok@, w, mi));
            }
            has_repeat = true;
        }
        proof {
            let t = tok@;
            let ii = i as int;
            let sub1 = t.subrange(0, ii + 1);
            assert(sub1 == sub.push(t[ii]));
            if sub1.contains(0u8) && !sub.contains(0u8) {
                let q = choose|q: int| 0 <= q < sub1.len() && #[trigger] sub1[q] == 0u8;
                if q < ii {
                    assert(sub[q] == 0u8);
                }
            }
            if sub.contains(0u8) {
                let q = choose|q: int| 0 <= q < sub.len() && #[trigger] sub[q] == 0u8;
                assert(sub1[q] == 0u8);
            }
            if t[ii] == 0 {
                assert(sub1[ii] == 0u8);
            }
            if mi > 0 && exists|w: int| #[trigger] repeat_at(t, w, mi) && w + mi <= ii + 1 {
                let w = choose|w: int| #[trigger] repeat_at(t, w, mi) && w + mi <= ii + 1;
                if w + mi == ii + 1 && !has_repeat {
                    assert((run as int) < mi);
                    let d = ii - run as int;
                    assert(w <= d);
                    assert(t[d] == t[w]) by {
                        assert(t[w + (d - w)] == t[w]);
                    }
                    assert(t[ii] == t[w]) by {
                        assert(t[w + (ii - w)] == t[w]);
                    }
                    assert(d >= 0);
                    assert(t[ii + 1 - 1 - run] != t[ii]);
                }
            }
        }
        i = i + 1;
    }
    assert(tok@.subrange(0, tok@.len() as int) =~= tok@);
    (opts.skip_null_bytes && has_null) || (opts.skip_repeat_bytes && has_repeat)
}

impl SortKey for (Vec<u8>, usize) {
    open spec fn key_of(&self) -> usize {
        self.1
    }

    fn sort_key(&self) -> (r: usize) {
        self.1
    }
}

fn clone_bytes(v: &Vec<u8>) -> (r: Vec<u8>)
    ensures
        r@ == v@,
{
    let mut r: Vec<u8> = Vec::new();
    let mut i: usize = 0;
    while i < v.len()
        invariant
            i <= v.len(),
            r@ == v@.subrange(0, i as int),
        decreases v.len() - i,
    {
        r.push(v[i]);
        i = i + 1;
    }
    r
}

/// A token with id `id` is skipped, and the id is neither ignored nor the
/// end-of-sequence id.
pub open spec fn skip_ok(tokens: Seq<(Vec<u8>, usize)>, opts: &ClassOptions, eos: usize, id: usize) -> bool {
    &&& !ignored(opts.ignore_range@, id)
    &&& id != eos
    &&& exists|i: int| 0 <= i < tokens.len() && #[trigger] tokens[i].1 == id && skipped(opts, tokens[i].0@)
}

/// A token with the bytes and id of `x` is among the first `t` of `s`.
pub open spec fn seen_before(s: Seq<(Vec<u8>, usize)>, t: int, x: (Vec<u8>, usize)) -> bool {
    exists|q: int| 0 <= q < t && #[trigger] s[q].0@ == x.0@ && s[q].1 == x.1
}

/// Where a token goes: its id among the skipped ids, or the token among
/// the tasks.
pub open spec fn placed(tasks: Seq<(Vec<u8>, usize)>, skip_ids: Seq<usize>, opts: &ClassOptions, tok: (Vec<u8>, usize)) -> bool {
    if skipped(opts, tok.0@) {
        skip_ids.contains(tok.1)
    } else {
        exists|k: int| 0 <= k < tasks.len() && #[trigger] tasks[k].0@ == tok.0@ && tasks[k].1 == tok.1
    }
}

/// The token `(bytes, id)` is one of `tokens`.
pub open spec fn has_token(tokens: Seq<(Vec<u8>, usize)>, bytes: Seq<u8>, id: usize) -> bool {
    exists|i: int| 0 <= i < tokens.len() && #[trigger] tokens[i].0@ == bytes && tokens[i].1 == id
}

/// The tokens in id order (ties keep their order), split into those to
/// traverse and the ids of those that get a class of their own; ignored
/// tokens and the end-of-sequence token are in neither.
pub fn prepare_tasks(tokens: &Vec<(Vec<u8>, usize)>, eos: usize, opts: &ClassOptions) -> (r: (Vec<(Vec<u8>, usize)>, Vec<usize>))
    ensures
        sorted_by_key(r.0@),
        forall|a: int, b: int| 0 <= a < b < r.1.len() ==> #[trigger] r.1@[a] <= #[trigger] r.1@[b],
        forall|k: int| 0 <= k < r.0.len() ==> #[trigger] has_token(tokens@, r.0@[k].0@, r.0@[k].1) && !ignored(opts.ignore_range@, r.0@[k].1) && r.0@[k].1 != eos && !skipped(opts, r.0@[k].0@),
        forall|k: int| 0 <= k < r.1.len() ==> #[trigger] skip_ok(tokens@, opts, eos, r.1@[k]),
        forall|i: int| 0 <= i < tokens.len() && !ignored(opts.ignore_range@, #[trigger] tokens@[i].1) && tokens@[i].1 != eos ==> placed(r.0@, r.1@, opts, tokens@[i]),
{
    broadcast use vstd::seq_lib::group_to_multiset_ensures;
    let mut copy: Vec<(Vec<u8>, usize)> = Vec::new();
    let mut i: usize = 0;
    while i < tokens.len()
        invariant
            i <= tokens.len(),
            copy.len() == i,
            forall|j: int| 0 <= j < i ==> (#[trigger] copy@[j]).0@ == tokens@[j].0@ && copy@[j].1 == tokens@[j].1,
        decreases tokens.len() - i,
    {
        copy.push((clone_bytes(&tokens[i].0), tokens[i].1));
        i = i + 1;
    }
    let ghost cp = copy@;
    let sorted = sort_by_key(copy);
    let mut tasks: Vec<(Vec<u8>, usize)> = Vec::new();
    let mut skip_ids: Vec<usize> = Vec::new();
    let mut t: usize = 0;
    while t < sorted.len()
        invariant
            t <= sorted.len(),
            sorted@.to_multiset() =~= cp.to_multiset(),
            cp.len() == tokens.len(),
            forall|j: int| 0 <= j < cp.len() ==> (#[trigger] cp[j]).0@ == tokens@[j].0@ && cp[j].1 == tokens@[j].1,
            sorted_by_key(sorted@),
            forall|k: int| 0 <= k < tasks.len() ==> #[trigger] seen_before(sorted@, t as int, tasks@[k]),
            forall|k: int| 0 <= k < tasks.len() ==> !ignored(opts.ignore_range@, #[trigger] tasks@[k].1) && tasks@[k].1 != eos && !skipped(opts, tasks@[k].0@),
            forall|k: int| 0 <= k < skip_ids.len() ==> #[trigger] skip_ok(sorted@.take(t as int), opts, eos, skip_ids@[k]),
            forall|a: int, b: int| 0 <= a < b < tasks.len() ==> #[trigger] tasks@[a].1 <= #[trigger] tasks@[b].1,
            forall|a: int, b: int| 0 <= a < b < skip_ids.len() ==> #[trigger] skip_ids@[a] <= #[trigger] skip_ids@[b],
            forall|k: int| 0 <= k < tasks.len() ==> #[trigger] tasks@[k].1 <= (if t > 0 { sorted@[t - 1].1 } else { 0 }),
            forall|k: int| 0 <= k < skip_ids.len() ==> #[trigger] skip_ids@[k] <= (if t > 0 { sorted@[t - 1].1 } else { 0 }),
            forall|q: int| 0 <= q < t && !ignored(opts.ignore_range@, #[trigger] sorted@[q].1) && sorted@[q].1 != eos ==> if skipped(opts, sorted@[q].0@) {
                skip_ids@.contains(sorted@[q].1)
            } else {
                exists|k: int| 0 <= k < tasks.len() && #[trigger] tasks@[k].0@ == sorted@[q].0@ && tasks@[k].1 == sorted@[q].1
            },
        decreases sorted.len() - t,
    {
        let id = sorted[t].1;
        let ghost tk0 = tasks@;
        let ghost sk0 = skip_ids@;
        if !is_ignored(&opts.ignore_range, id) && id != eos {
            if is_skipped(opts, &sorted[t].0) {
                skip_ids.push(id);
            } else {
                tasks.push((clone_bytes(&sorted[t].0), id));
            }
        }
        proof {
            assert forall|k: int| 0 <= k < tasks.len() implies !ignored(opts.ignore_range@, #[trigger] tasks@[k].1) && tasks@[k].1 != eos && !skipped(opts, tasks@[k].0@) by {
                if k < tk0.len() {
                    assert(tasks@[k] == tk0[k]);
                } else {
                    assert(tasks@[k].0@ == sorted@[t as int].0@);
                }
            }
            assert forall|k: int| 0 <= k < tasks.len() implies #[trigger] seen_before(sorted@, t + 1, tasks@[k]) by {
                if k < tk0.len() {
                    assert(tasks@[k] == tk0[k]);
                    assert(seen_before(sorted@, t as int, tk0[k]));
                } else {
                    assert(tasks@[k].0@ == sorted@[t as int].0@);
                    assert(tasks@[k].1 == sorted@[t as int].1);
                }
            }
            if t > 0 {
                assert(sorted@[t - 1].key_of() <= sorted@[t as int].key_of());
                assert(sorted@[t - 1].1 <= sorted@[t as int].1);
            }
            assert forall|k: int| 0 <= k < skip_ids.len() implies #[trigger] skip_ok(sorted@.take(t + 1), opts, eos, skip_ids@[k]) by {
                let s1 = sorted@.take(t + 1);
                if k < sk0.len() {
                    assert(skip_ids@[k] == sk0[k]);
                    assert(skip_ok(sorted@.take(t as int), opts, eos, sk0[k]));
                    let i = choose|i: int| 0 <= i < t && #[trigger] sorted@.take(t as int)[i].1 == sk0[k] && skipped(opts, sorted@.take(t as int)[i].0@);
                    assert(s1[i] == sorted@.take(t as int)[i]);
                } else {
                    assert(s1[t as int] == sorted@[t as int]);
                }
            }
            assert forall|q: int| 0 <= q < t + 1 && !ignored(opts.ignore_range@, #[trigger] sorted@[q].1) && sorted@[q].1 != eos implies (if skipped(opts, sorted@[q].0@) {
                skip_ids@.contains(sorted@[q].1)
            } else {
                exists|k: int| 0 <= k < tasks.len() && #[trigger] tasks@[k].0@ == sorted@[q].0@ && tasks@[k].1 == sorted@[q].1
            }) by {
                if q < t {
                    if skipped(opts, sorted@[q].0@) {
                        let j = choose|j: int| 0 <= j < sk0.len() && sk0[j] == sorted@[q].1;
                        assert(skip_ids@[j] == sorted@[q].1);
                    } else {
                        let k = choose|k: int| 0 <= k < tk0.len() && #[trigger] tk0[k].0@ == sorted@[q].0@ && tk0[k].1 == sorted@[q].1;
                        assert(tasks@[k] == tk0[k]);
                    }
                } else {
                    if skipped(opts, sorted@[q].0@) {
                        assert(skip_ids@[skip_ids.len() - 1] == sorted@[q].1);
                    } else {
                        assert(tasks@[tasks.len() - 1].0@ == sorted@[q].0@);
                    }
                }
            }
        }
        t = t + 1;
    }
    proof {
        assert forall|k: int| 0 <= k < tasks.len() implies #[trigger] has_token(tokens@, tasks@[k].0@, tasks@[k].1) by {
            assert(seen_before(sorted@, sorted.len() as int, tasks@[k]));
            let q = choose|q: int| 0 <= q < sorted.len() && #[trigger] sorted@[q].0@ == tasks@[k].0@ && sorted@[q].1 == tasks@[k].1;
            assert(sorted@.contains(sorted@[q]));
            assert(cp.to_multiset().count(sorted@[q]) > 0);
            assert(cp.contains(sorted@[q]));
            let j = choose|j: int| 0 <= j < cp.len() && cp[j] == sorted@[q];
            assert(tokens@[j].0@ == tasks@[k].0@);
        }
        assert(sorted@.take(sorted.len() as int) =~= sorted@);
        assert forall|k: int| 0 <= k < skip_ids.len() implies #[trigger] skip_ok(tokens@, opts, eos, skip_ids@[k]) by {
            assert(skip_ok(sorted@, opts, eos, skip_ids@[k]));
            let q = choose|q: int| 0 <= q < sorted.len() && #[trigger] sorted@[q].1 == skip_ids@[k] && skipped(opts, sorted@[q].0@);
            assert(sorted@.contains(sorted@[q]));
            assert(cp.to_multiset().count(sorted@[q]) > 0);
            assert(cp.contains(sorted@[q]));
            let j = choose|j: int| 0 <= j < cp.len() && cp[j] == sorted@[q];
            assert(tokens@[j].1 == skip_ids@[k]);
        }
        assert forall|i: int| 0 <= i < tokens.len() && !ignored(opts.ignore_range@, #[trigger] tokens@[i].1) && tokens@[i].1 != eos implies placed(tasks@, skip_ids@, opts, tokens@[i]) by {
            assert(cp.contains(cp[i]));
            assert(cp.to_multiset().count(cp[i]) > 0);
            assert(sorted@.contains(cp[i]));
            let q = choose|q: int| 0 <= q < sorted.len() && sorted@[q] == cp[i];
            assert(sorted@[q].1 == tokens@[i].1);
            assert(sorted@[q].0@ == tokens@[i].0@);
            assert(!ignored(opts.ignore_range@, sorted@[q].1));
            if skipped(opts, tokens@[i].0@) {
                assert(skip_ids@.contains(sorted@[q].1));
            } else {
                let k = choose|k: int| 0 <= k < tasks.len() && #[trigger] tasks@[k].0@ == sorted@[q].0@ && tasks@[k].1 == sorted@[q].1;
                assert(tasks@[k].0@ == tokens@[i].0@);
            }
        }
    }
    (tasks, skip_ids)
}

} // verus!
