//! Stack adjacency: which symbols a non-terminal may follow on a stack.
//!
//! For a grammar in Greibach normal form with symbols numbered, a
//! non-terminal `a` other than the start symbol may sit at the bottom of a
//! context (`None`), or just above a symbol `x` when some production has
//! `b a` after its first symbol and `x` ends a chain of last symbols from
//! `b` with a unary production of its own.
use vstd::prelude::*;
use crate::traverse::AdjSet;

verus! {

broadcast use vstd::std_specs::hash::group_hash_axioms;

/// Every symbol of every production is a symbol number of the grammar.
pub open spec fn int_grammar_wf(g: Seq<Vec<Vec<usize>>>) -> bool {
    forall|a: int, k: int, i: int| 0 <= a < g.len() && 0 <= k < g[a].len() && 0 <= i < g[a]@[k].len() ==> #[trigger] g[a]@[k]@[i] < g.len()
}

/// Position `i` (after the first) of production `k` of `a` holds `x`.
pub open spec fn tail_at(g: Seq<Vec<Vec<usize>>>, x: int, a: int, k: int, i: int) -> bool {
    &&& 0 <= a < g.len()
    &&& 0 <= k < g[a].len()
    &&& 1 <= i < g[a]@[k].len()
    &&& g[a]@[k]@[i] == x
}

/// `b` is followed by `c` at positions `i`, `i + 1` of production `k` of
/// `a`, with `i` after the first position.
pub open spec fn follow_at(g: Seq<Vec<Vec<usize>>>, b: int, c: int, a: int, k: int, i: int) -> bool {
    &&& 0 <= a < g.len()
    &&& 0 <= k < g[a].len()
    &&& 1 <= i
    &&& i + 1 < g[a]@[k].len()
    &&& g[a]@[k]@[i] == b
    &&& g[a]@[k]@[i + 1] == c
}

/// Position `(a2, k2, i2)` comes before `(a, k, i)`.
pub open spec fn lex_before(a2: int, k2: int, i2: int, a: int, k: int, i: int) -> bool {
    a2 < a || (a2 == a && k2 < k) || (a2 == a && k2 == k && i2 < i)
}

/// The symbols the adjacency is computed for: those with productions and
/// those that occur after the first position of a production.
pub open spec fn adj_member(g: Seq<Vec<Vec<usize>>>, x: int) -> bool {
    ||| (0 <= x < g.len() && g[x].len() > 0)
    ||| exists|a: int, k: int, i: int| #[trigger] tail_at(g, x, a, k, i)
}

/// `b` comes just before `c` after the first position of a production.
pub open spec fn follows(g: Seq<Vec<Vec<usize>>>, b: int, c: int) -> bool {
    exists|a: int, k: int, i: int| #[trigger] follow_at(g, b, c, a, k, i)
}

/// `x` is the last symbol of a production of `y` with two or more symbols.
pub open spec fn last_edge(g: Seq<Vec<Vec<usize>>>, y: int, x: int) -> bool {
    &&& 0 <= y < g.len()
    &&& exists|k: int| 0 <= k < g[y].len() && g[y]@[k].len() >= 2 && #[trigger] g[y]@[k]@[g[y]@[k].len() - 1] == x
}

/// `x` has a production of one symbol.
pub open spec fn unary(g: Seq<Vec<Vec<usize>>>, x: int) -> bool {
    &&& 0 <= x < g.len()
    &&& exists|k: int| 0 <= k < g[x].len() && #[trigger] g[x]@[k].len() == 1
}

/// A set of symbols closed under last-symbol edges.
pub open spec fn closed(g: Seq<Vec<Vec<usize>>>, r: Set<int>) -> bool {
    forall|y: int, x: int| #[trigger] r.contains(y) && #[trigger] last_edge(g, y, x) ==> r.contains(x)
}

/// `x` lies on every closed set holding `b`: it ends a chain of
/// last-symbol edges from `b`.
pub open spec fn reachable(g: Seq<Vec<Vec<usize>>>, b: int, x: int) -> bool {
    forall|r: Set<int>| #[trigger] r.contains(b) && closed(g, r) ==> r.contains(x)
}

/// What the adjacency of `a` holds.
pub open spec fn stack_adj_spec(g: Seq<Vec<Vec<usize>>>, start: int, a: int, p: Option<usize>) -> bool {
    &&& a != start
    &&& adj_member(g, a)
    &&& match p {
        None => true,
        Some(x) => exists|b: int| #[trigger] follows(g, b, a) && reachable(g, b, x as int) && unary(g, x as int),
    }
}

/// The spec view of a flag vector as a set of indices.
pub open spec fn flag_set(v: Seq<bool>) -> Set<int> {
    Set::new(|x: int| 0 <= x < v.len() && v[x])
}

pub open spec fn count_false(v: Seq<bool>, upto: int) -> nat
    decreases upto,
{
    if upto <= 0 {
        0
    } else {
        count_false(v, upto - 1) + if v[upto - 1] { 0nat } else { 1nat }
    }
}

proof fn lemma_count_false_set(v: Seq<bool>, i: int, upto: int)
    requires
        0 <= i < v.len(),
        !v[i],
        0 <= upto <= v.len(),
    ensures
        count_false(v.update(i, true), upto) == count_false(v, upto) - if i < upto { 1int } else { 0int },
    decreases upto,
{
    if upto > 0 {
        lemma_count_false_set(v, i, upto - 1);
    }
}

/// Whether `x` has a production of one symbol.
fn has_unary(g: &Vec<Vec<Vec<usize>>>, x: usize) -> (r: bool)
    requires
        x < g.len(),
    ensures
        r == unary(g@, x as int),
{
    let prods = &g[x];
    let mut k: usize = 0;
    while k < prods.len()
        invariant
            k <= prods.len(),
            x < g.len(),
            *prods == g@[x as int],
            forall|j: int| 0 <= j < k ==> g@[x as int]@[j].len() != 1,
        decreases prods.len() - k,
    {
        if prods[k].len() == 1 {
            assert(g@[x as int]@[k as int].len() == 1);
            return true;
        }
        k = k + 1;
    }
    false
}

/// The symbols with a unary production that chains of last symbols from
/// `b` reach, `b` included.
pub fn reach_unary(g: &Vec<Vec<Vec<usize>>>, b: usize) -> (out: Vec<usize>)
    requires
        int_grammar_wf(g@),
        b < g.len(),
    ensures
        forall|x: usize| out@.contains(x) <==> reachable(g@, b as int, x as int) && unary(g@, x as int),
{
    let n = g.len();
    let mut visited: Vec<bool> = Vec::new();
    let mut done: Vec<bool> = Vec::new();
    let mut i: usize = 0;
    while i < n
        invariant
            i <= n,
            n == g.len(),
            visited.len() == i,
            done.len() == i,
            forall|j: int| 0 <= j < i ==> !visited@[j] && !done@[j],
        decreases n - i,
    {
        visited.push(false);
        done.push(false);
        i = i + 1;
    }
    let ghost v0 = visited@;
    visited.set(b, true);
    proof {
        lemma_count_false_set(v0, b as int, n as int);
    }
    let mut stack: Vec<usize> = Vec::new();
    stack.push(b);
    proof {
        assert(stack@[0] == b);
        assert forall|y: int| 0 <= y < n && visited@[y] && !done@[y] implies stack@.contains(y as usize) by {
            if y != b {
                assert(visited@[y] == v0[y]);
            }
        }
    }
    while stack.len() > 0
        invariant
            n == g.len(),
            int_grammar_wf(g@),
            b < n,
            visited.len() == n,
            done.len() == n,
            visited@[b as int],
            forall|j: int| 0 <= j < stack.len() ==> #[trigger] stack@[j] < n && visited@[stack@[j] as int],
            forall|y: int| 0 <= y < n && visited@[y] && !done@[y] ==> stack@.contains(y as usize),
            forall|y: int| 0 <= y < n && #[trigger] done@[y] ==> visited@[y],
            forall|y: int, x: int| 0 <= y < n && done@[y] && #[trigger] last_edge(g@, y, x) ==> 0 <= x < n && visited@[x],
            forall|x: int| 0 <= x < n && #[trigger] visited@[x] ==> reachable(g@, b as int, x),
        decreases count_false(visited@, n as int), stack.len(),
    {
        let ghost s0 = stack@;
        let y = stack.pop().unwrap();
        assert(y == s0[s0.len() - 1]);
        proof {
            assert forall|z: int| 0 <= z < n && visited@[z] && !done@[z] && z != y implies stack@.contains(z as usize) by {
                let j = choose|j: int| 0 <= j < s0.len() && s0[j] == z as usize;
                assert(j != s0.len() - 1);
                assert(stack@[j] == z as usize);
            }
        }
        let ghost cf0 = count_false(visited@, n as int);
        let prods = &g[y];
        let mut k: usize = 0;
        while k < prods.len()
            invariant
                n == g.len(),
                int_grammar_wf(g@),
                y < n,
                *prods == g@[y as int],
                k <= prods.len(),
                b < n,
                visited.len() == n,
                done.len() == n,
                visited@[b as int],
                visited@[y as int],
                count_false(visited@, n as int) <= cf0,
                count_false(visited@, n as int) < cf0 || stack.len() == s0.len() - 1,
                forall|j: int| 0 <= j < stack.len() ==> #[trigger] stack@[j] < n && visited@[stack@[j] as int],
                forall|z: int| 0 <= z < n && visited@[z] && !done@[z] && z != y ==> stack@.contains(z as usize),
                forall|z: int| 0 <= z < n && #[trigger] done@[z] ==> visited@[z],
                forall|z: int, x: int| 0 <= z < n && done@[z] && #[trigger] last_edge(g@, z, x) ==> 0 <= x < n && visited@[x],
                forall|x: int| 0 <= x < n && #[trigger] visited@[x] ==> reachable(g@, b as int, x),
                forall|j: int| 0 <= j < k && g@[y as int]@[j].len() >= 2 ==> #[trigger] visited@[g@[y as int]@[j]@[g@[y as int]@[j].len() - 1] as int],
            decreases prods.len() - k,
        {
            let p = &prods[k];
            if p.len() >= 2 {
                let x = p[p.len() - 1];
                assert(g@[y as int]@[k as int]@[g@[y as int]@[k as int].len() - 1] == x);
                assert(x < n);
                if !visited[x] {
                    assert(last_edge(g@, y as int, x as int));
                    let ghost vb = visited@;
                    let ghost st = stack@;
                    visited.set(x, true);
                    stack.push(x);
                    proof {
                        lemma_count_false_set(vb, x as int, n as int);
                        assert forall|r: Set<int>| #[trigger] r.contains(b as int) && closed(g@, r) implies r.contains(x as int) by {
                            assert(reachable(g@, b as int, y as int));
                            assert(r.contains(y as int));
                        }
                        assert forall|z: int| 0 <= z < n && visited@[z] && !done@[z] && z != y implies stack@.contains(z as usize) by {
                            if z == x {
                                assert(stack@[stack.len() - 1] == x);
                            } else {
                                assert(vb[z]);
                                let j = choose|j: int| 0 <= j < st.len() && st[j] == z as usize;
                                assert(stack@[j] == z as usize);
                            }
                        }
                        assert forall|j: int| 0 <= j < stack.len() implies #[trigger] stack@[j] < n && visited@[stack@[j] as int] by {
                            if j < st.len() {
                                assert(stack@[j] == st[j]);
                            }
                        }
                    }
                }
            }
            k = k + 1;
        }
        let ghost db = done@;
        done.set(y, true);
        proof {
            assert forall|z: int, x: int| 0 <= z < n && done@[z] && #[trigger] last_edge(g@, z, x) implies 0 <= x < n && visited@[x] by {
                if z == y {
                    let kk = choose|kk: int| 0 <= kk < g@[z].len() && g@[z]@[kk].len() >= 2 && #[trigger] g@[z]@[kk]@[g@[z]@[kk].len() - 1] == x;
                    assert(visited@[g@[y as int]@[kk]@[g@[y as int]@[kk].len() - 1] as int]);
                } else {
                    assert(db[z]);
                }
            }
            assert forall|z: int| 0 <= z < n && visited@[z] && !done@[z] implies stack@.contains(z as usize) by {
                assert(z != y);
            }
        }
    }
    let ghost vs = flag_set(visited@);
    proof {
        assert forall|y: int, x: int| #[trigger] vs.contains(y) && #[trigger] last_edge(g@, y, x) implies vs.contains(x) by {
            assert(visited@[y]);
            assert(done@[y]);
        }
        assert(closed(g@, vs));
        assert(vs.contains(b as int));
    }
    let mut out: Vec<usize> = Vec::new();
    let mut x: usize = 0;
    while x < n
        invariant
            x <= n,
            n == g.len(),
            visited.len() == n,
            vs == flag_set(visited@),
            closed(g@, vs),
            vs.contains(b as int),
            forall|z: int| 0 <= z < n && #[trigger] visited@[z] ==> reachable(g@, b as int, z),
            forall|z: usize| out@.contains(z) <==> z < x && visited@[z as int] && unary(g@, z as int),
        decreases n - x,
    {
        let ghost o0 = out@;
        let keep = visited[x] && has_unary(g, x);
        if keep {
            out.push(x);
        }
        proof {
            assert(keep == (visited@[x as int] && unary(g@, x as int)));
            assert(keep ==> out@ == o0.push(x));
            assert(!keep ==> out@ == o0);
            assert forall|z: usize| out@.contains(z) <==> z < x + 1 && visited@[z as int] && unary(g@, z as int) by {
                if out@.contains(z) && z != x {
                    let j = choose|j: int| 0 <= j < out@.len() && out@[j] == z;
                    assert(o0[j] == z);
                    assert(o0.contains(z));
                }
                if out@.contains(z) && z == x && !keep {
                    assert(o0.contains(z));
                }
                if z < x && visited@[z as int] && unary(g@, z as int) {
                    let j = choose|j: int| 0 <= j < o0.len() && o0[j] == z;
                    assert(out@[j] == z);
                }
                if z == x && visited@[z as int] && unary(g@, z as int) {
                    assert(out@[out.len() - 1] == z);
                }
            }
        }
        x = x + 1;
    }
    proof {
        assert forall|z: usize| out@.contains(z) <==> reachable(g@, b as int, z as int) && unary(g@, z as int) by {
            if reachable(g@, b as int, z as int) && unary(g@, z as int) {
                assert(vs.contains(z as int));
            }
        }
    }
    out
}

/// An occurrence of `x` after the first position of a production, before
/// position `(a, k, i)`.
pub open spec fn tail_before(g: Seq<Vec<Vec<usize>>>, x: int, a: int, k: int, i: int) -> bool {
    exists|a2: int, k2: int, i2: int| #[trigger] tail_at(g, x, a2, k2, i2) && lex_before(a2, k2, i2, a, k, i)
}

/// For each symbol, whether the adjacency is computed for it.
fn adj_members(g: &Vec<Vec<Vec<usize>>>) -> (member: Vec<bool>)
    requires
        int_grammar_wf(g@),
    ensures
        member.len() == g.len(),
        forall|x: int| 0 <= x < g.len() ==> #[trigger] member@[x] == adj_member(g@, x),
{
    let n = g.len();
    let mut member: Vec<bool> = Vec::new();
    let mut x: usize = 0;
    while x < n
        invariant
            x <= n,
            n == g.len(),
            member.len() == x,
            forall|y: int| 0 <= y < x ==> #[trigger] member@[y] == (g@[y].len() > 0),
        decreases n - x,
    {
        member.push(g[x].len() > 0);
        x = x + 1;
    }
    let mut a: usize = 0;
    while a < n
        invariant
            a <= n,
            n == g.len(),
            int_grammar_wf(g@),
            member.len() == n,
            forall|y: int| 0 <= y < n ==> #[trigger] member@[y] == (g@[y].len() > 0 || tail_before(g@, y, a as int, 0, 0)),
        decreases n - a,
    {
        let prods = &g[a];
        let mut k: usize = 0;
        while k < prods.len()
            invariant
                a < n,
                n == g.len(),
                int_grammar_wf(g@),
                *prods == g@[a as int],
                k <= prods.len(),
                member.len() == n,
                forall|y: int| 0 <= y < n ==> #[trigger] member@[y] == (g@[y].len() > 0 || tail_before(g@, y, a as int, k as int, 0)),
            decreases prods.len() - k,
        {
            let p = &prods[k];
            let mut i: usize = 1;
            proof {
                assert forall|y: int| 0 <= y < n implies #[trigger] member@[y] == (g@[y].len() > 0 || tail_before(g@, y, a as int, k as int, 1)) by {
                    if tail_before(g@, y, a as int, k as int, 1) {
                        let (a2, k2, i2) = choose|a2: int, k2: int, i2: int| #[trigger] tail_at(g@, y, a2, k2, i2) && lex_before(a2, k2, i2, a as int, k as int, 1);
                        assert(lex_before(a2, k2, i2, a as int, k as int, 0));
                    }
                    if tail_before(g@, y, a as int, k as int, 0) {
                        let (a2, k2, i2) = choose|a2: int, k2: int, i2: int| #[trigger] tail_at(g@, y, a2, k2, i2) && lex_before(a2, k2, i2, a as int, k as int, 0);
                        assert(lex_before(a2, k2, i2, a as int, k as int, 1));
                    }
                }
            }
            while i < p.len()
                invariant
                    a < n,
                    n == g.len(),
                    int_grammar_wf(g@),
                    *prods == g@[a as int],
                    k < prods.len(),
                    *p == g@[a as int]@[k as int],
                    1 <= i,
                    i <= p.len() || p.len() == 0,
                    member.len() == n,
                    forall|y: int| 0 <= y < n ==> #[trigger] member@[y] == (g@[y].len() > 0 || tail_before(g@, y, a as int, k as int, i as int)),
                decreases p.len() - i,
            {
                let y0 = p[i];
                assert(g@[a as int]@[k as int]@[i as int] == y0);
                let ghost m0 = member@;
                member.set(y0, true);
                proof {
                    assert(tail_at(g@, y0 as int, a as int, k as int, i as int));
                    assert forall|y: int| 0 <= y < n implies #[trigger] member@[y] == (g@[y].len() > 0 || tail_before(g@, y, a as int, k as int, i + 1)) by {
                        if tail_before(g@, y, a as int, k as int, i + 1) && y != y0 {
                            let (a2, k2, i2) = choose|a2: int, k2: int, i2: int| #[trigger] tail_at(g@, y, a2, k2, i2) && lex_before(a2, k2, i2, a as int, k as int, i + 1);
                            assert(lex_before(a2, k2, i2, a as int, k as int, i as int));
                            assert(m0[y]);
                        }
                        if y != y0 && tail_before(g@, y, a as int, k as int, i as int) {
                            let (a2, k2, i2) = choose|a2: int, k2: int, i2: int| #[trigger] tail_at(g@, y, a2, k2, i2) && lex_before(a2, k2, i2, a as int, k as int, i as int);
                            assert(lex_before(a2, k2, i2, a as int, k as int, i + 1));
                        }
                        if y == y0 {
                            assert(lex_before(a as int, k as int, i as int, a as int, k as int, i + 1));
                        }
                    }
                }
                i = i + 1;
            }
            proof {
                assert forall|y: int| 0 <= y < n implies #[trigger] member@[y] == (g@[y].len() > 0 || tail_before(g@, y, a as int, k + 1, 0)) by {
                    if tail_before(g@, y, a as int, k as int, i as int) {
                        let (a2, k2, i2) = choose|a2: int, k2: int, i2: int| #[trigger] tail_at(g@, y, a2, k2, i2) && lex_before(a2, k2, i2, a as int, k as int, i as int);
                        assert(lex_before(a2, k2, i2, a as int, k + 1, 0));
                    }
                    if tail_before(g@, y, a as int, k + 1, 0) {
                        let (a2, k2, i2) = choose|a2: int, k2: int, i2: int| #[trigger] tail_at(g@, y, a2, k2, i2) && lex_before(a2, k2, i2, a as int, k + 1, 0);
                        assert(lex_before(a2, k2, i2, a as int, k as int, i as int));
                    }
                }
            }
            k = k + 1;
        }
        proof {
            assert forall|y: int| 0 <= y < n implies #[trigger] member@[y] == (g@[y].len() > 0 || tail_before(g@, y, a + 1, 0, 0)) by {
                if tail_before(g@, y, a as int, k as int, 0) {
                    let (a2, k2, i2) = choose|a2: int, k2: int, i2: int| #[trigger] tail_at(g@, y, a2, k2, i2) && lex_before(a2, k2, i2, a as int, k as int, 0);
                    assert(lex_before(a2, k2, i2, a + 1, 0, 0));
                }
                if tail_before(g@, y, a + 1, 0, 0) {
                    let (a2, k2, i2) = choose|a2: int, k2: int, i2: int| #[trigger] tail_at(g@, y, a2, k2, i2) && lex_before(a2, k2, i2, a + 1, 0, 0);
                    assert(lex_before(a2, k2, i2, a as int, k as int, 0));
                }
            }
        }
        a = a + 1;
    }
    proof {
        assert forall|y: int| 0 <= y < n implies #[trigger] member@[y] == adj_member(g@, y) by {
            if exists|a2: int, k2: int, i2: int| #[trigger] tail_at(g@, y, a2, k2, i2) {
                let (a2, k2, i2) = choose|a2: int, k2: int, i2: int| #[trigger] tail_at(g@, y, a2, k2, i2);
                assert(lex_before(a2, k2, i2, n as int, 0, 0));
            }
        }
    }
    member
}

/// `b` followed by `c` after the first position of a production, before
/// position `(a, k, i)`.
pub open spec fn follow_before(g: Seq<Vec<Vec<usize>>>, b: int, c: int, a: int, k: int, i: int) -> bool {
    exists|a2: int, k2: int, i2: int| #[trigger] follow_at(g, b, c, a2, k2, i2) && lex_before(a2, k2, i2, a, k, i)
}

/// For each symbol `c`, the symbols `b` that come just before it after the
/// first position of a production.
fn neighbours(g: &Vec<Vec<Vec<usize>>>) -> (neigh: Vec<Vec<usize>>)
    requires
        int_grammar_wf(g@),
    ensures
        neigh.len() == g.len(),
        forall|c: int, b: usize| 0 <= c < g.len() ==> (#[trigger] neigh@[c]@.contains(b) <==> follows(g@, b as int, c)),
        forall|c: int, j: int| 0 <= c < g.len() && 0 <= j < neigh@[c].len() ==> #[trigger] neigh@[c]@[j] < g.len(),
{
    let n = g.len();
    let mut neigh: Vec<Vec<usize>> = Vec::new();
    let mut x: usize = 0;
    while x < n
        invariant
            x <= n,
            n == g.len(),
            neigh.len() == x,
            forall|y: int| 0 <= y < x ==> (#[trigger] neigh@[y]).len() == 0,
        decreases n - x,
    {
        neigh.push(Vec::new());
        x = x + 1;
    }
    proof {
        assert forall|c: int, b: usize| 0 <= c < n implies (#[trigger] neigh@[c]@.contains(b) <==> follow_before(g@, b as int, c, 0, 0, 0)) by {
            if follow_before(g@, b as int, c, 0, 0, 0) {
                let (a2, k2, i2) = choose|a2: int, k2: int, i2: int| #[trigger] follow_at(g@, b as int, c, a2, k2, i2) && lex_before(a2, k2, i2, 0, 0, 0);
            }
        }
    }
    let mut a: usize = 0;
    while a < n
        invariant
            a <= n,
            n == g.len(),
            int_grammar_wf(g@),
            neigh.len() == n,
            forall|c: int, b: usize| 0 <= c < n ==> (#[trigger] neigh@[c]@.contains(b) <==> follow_before(g@, b as int, c, a as int, 0, 0)),
            forall|c: int, j: int| 0 <= c < n && 0 <= j < neigh@[c].len() ==> #[trigger] neigh@[c]@[j] < n,
        decreases n - a,
    {
        let prods = &g[a];
        let mut k: usize = 0;
        while k < prods.len()
            invariant
                a < n,
                n == g.len(),
                int_grammar_wf(g@),
                *prods == g@[a as int],
                k <= prods.len(),
                neigh.len() == n,
                forall|c: int, b: usize| 0 <= c < n ==> (#[trigger] neigh@[c]@.contains(b) <==> follow_before(g@, b as int, c, a as int, k as int, 0)),
                forall|c: int, j: int| 0 <= c < n && 0 <= j < neigh@[c].len() ==> #[trigger] neigh@[c]@[j] < n,
            decreases prods.len() - k,
        {
            let p = &prods[k];
            let mut i: usize = 1;
            proof {
                assert forall|c: int, b: usize| 0 <= c < n implies (#[trigger] neigh@[c]@.contains(b) <==> follow_before(g@, b as int, c, a as int, k as int, 1)) by {
                    if follow_before(g@, b as int, c, a as int, k as int, 1) {
                        let (a2, k2, i2) = choose|a2: int, k2: int, i2: int| #[trigger] follow_at(g@, b as int, c, a2, k2, i2) && lex_before(a2, k2, i2, a as int, k as int, 1);
                        assert(lex_before(a2, k2, i2, a as int, k as int, 0));
                    }
                    if follow_before(g@, b as int, c, a as int, k as int, 0) {
                        let (a2, k2, i2) = choose|a2: int, k2: int, i2: int| #[trigger] follow_at(g@, b as int, c, a2, k2, i2) && lex_before(a2, k2, i2, a as int, k as int, 0);
                        assert(lex_before(a2, k2, i2, a as int, k as int, 1));
                    }
                }
            }
            while i < p.len() && i + 1 < p.len()
                invariant
                    a < n,
                    n == g.len(),
                    int_grammar_wf(g@),
                    *prods == g@[a as int],
                    k < prods.len(),
                    *p == g@[a as int]@[k as int],
                    1 <= i,
                    i <= p.len() || p.len() == 0,
                    neigh.len() == n,
                    forall|c: int, b: usize| 0 <= c < n ==> (#[trigger] neigh@[c]@.contains(b) <==> follow_before(g@, b as int, c, a as int, k as int, i as int)),
                    forall|c: int, j: int| 0 <= c < n && 0 <= j < neigh@[c].len() ==> #[trigger] neigh@[c]@[j] < n,
                decreases p.len() - i,
            {
                let b0 = p[i];
                let c0 = p[i + 1];
                assert(g@[a as int]@[k as int]@[i as int] == b0);
                assert(g@[a as int]@[k as int]@[i + 1] == c0);
                assert(b0 < n && c0 < n);
                let ghost nb = neigh@;
                let mut cur: Vec<usize> = Vec::new();
                std::mem::swap(&mut cur, &mut neigh[c0]);
                let ghost cur0 = cur@;
                assert(cur0 == nb[c0 as int]@);
                cur.push(b0);
                std::mem::swap(&mut cur, &mut neigh[c0]);
                proof {
                    assert(neigh@ == nb.update(c0 as int, neigh@[c0 as int]));
                    assert(neigh@[c0 as int]@ == cur0.push(b0));
                    assert(follow_at(g@, b0 as int, c0 as int, a as int, k as int, i as int));
                    assert forall|c: int, b: usize| 0 <= c < n implies (#[trigger] neigh@[c]@.contains(b) <==> follow_before(g@, b as int, c, a as int, k as int, i + 1)) by {
                        if c != c0 {
                            assert(neigh@[c] == nb[c]);
                        } else {
                            if neigh@[c]@.contains(b) && b != b0 {
                                let j = choose|j: int| 0 <= j < neigh@[c]@.len() && neigh@[c]@[j] == b;
                                assert(cur0[j] == b);
                                assert(nb[c]@.contains(b));
                            }
                            if b == b0 {
                                assert(neigh@[c]@[cur0.len() as int] == b);
                            } else if nb[c]@.contains(b) {
                                let j = choose|j: int| 0 <= j < nb[c]@.len() && nb[c]@[j] == b;
                                assert(neigh@[c]@[j] == b);
                            }
                        }
                        if follow_before(g@, b as int, c, a as int, k as int, i + 1) && !(b == b0 && c == c0) {
                            let (a2, k2, i2) = choose|a2: int, k2: int, i2: int| #[trigger] follow_at(g@, b as int, c, a2, k2, i2) && lex_before(a2, k2, i2, a as int, k as int, i + 1);
                            assert(!(a2 == a && k2 == k && i2 == i));
                            assert(lex_before(a2, k2, i2, a as int, k as int, i as int));
                        }
                        if follow_before(g@, b as int, c, a as int, k as int, i as int) {
                            let (a2, k2, i2) = choose|a2: int, k2: int, i2: int| #[trigger] follow_at(g@, b as int, c, a2, k2, i2) && lex_before(a2, k2, i2, a as int, k as int, i as int);
                            assert(lex_before(a2, k2, i2, a as int, k as int, i + 1));
                        }
                        if b == b0 && c == c0 {
                            assert(lex_before(a as int, k as int, i as int, a as int, k as int, i + 1));
                        }
                    }
                    assert forall|c: int, j: int| 0 <= c < n && 0 <= j < neigh@[c].len() implies #[trigger] neigh@[c]@[j] < n by {
                        if c != c0 {
                            assert(neigh@[c] == nb[c]);
                        } else if j < cur0.len() {
                            assert(neigh@[c]@[j] == nb[c]@[j]);
                        }
                    }
                }
                i = i + 1;
            }
            proof {
                assert forall|c: int, b: usize| 0 <= c < n implies (#[trigger] neigh@[c]@.contains(b) <==> follow_before(g@, b as int, c, a as int, k + 1, 0)) by {
                    if follow_before(g@, b as int, c, a as int, k as int, i as int) {
                        let (a2, k2, i2) = choose|a2: int, k2: int, i2: int| #[trigger] follow_at(g@, b as int, c, a2, k2, i2) && lex_before(a2, k2, i2, a as int, k as int, i as int);
                        assert(lex_before(a2, k2, i2, a as int, k + 1, 0));
                    }
                    if follow_before(g@, b as int, c, a as int, k + 1, 0) {
                        let (a2, k2, i2) = choose|a2: int, k2: int, i2: int| #[trigger] follow_at(g@, b as int, c, a2, k2, i2) && lex_before(a2, k2, i2, a as int, k + 1, 0);
                        assert(lex_before(a2, k2, i2, a as int, k as int, i as int));
                    }
                }
            }
            k = k + 1;
        }
        proof {
            assert forall|c: int, b: usize| 0 <= c < n implies (#[trigger] neigh@[c]@.contains(b) <==> follow_before(g@, b as int, c, a + 1, 0, 0)) by {
                if follow_before(g@, b as int, c, a as int, k as int, 0) {
                    let (a2, k2, i2) = choose|a2: int, k2: int, i2: int| #[trigger] follow_at(g@, b as int, c, a2, k2, i2) && lex_before(a2, k2, i2, a as int, k as int, 0);
                    assert(lex_before(a2, k2, i2, a + 1, 0, 0));
                }
                if follow_before(g@, b as int, c, a + 1, 0, 0) {
                    let (a2, k2, i2) = choose|a2: int, k2: int, i2: int| #[trigger] follow_at(g@, b as int, c, a2, k2, i2) && lex_before(a2, k2, i2, a + 1, 0, 0);
                    assert(lex_before(a2, k2, i2, a as int, k as int, 0));
                }
            }
        }
        a = a + 1;
    }
    proof {
        assert forall|c: int, b: usize| 0 <= c < n implies (#[trigger] neigh@[c]@.contains(b) <==> follows(g@, b as int, c)) by {
            if follows(g@, b as int, c) {
                let (a2, k2, i2) = choose|a2: int, k2: int, i2: int| #[trigger] follow_at(g@, b as int, c, a2, k2, i2);
                assert(lex_before(a2, k2, i2, n as int, 0, 0));
            }
        }
    }
    neigh
}

/// For each symbol `a`, the previous symbols it may follow on a stack:
/// none for the start symbol and for symbols outside the productions'
/// tails and heads; otherwise the bottom of a context, and every symbol
/// with a unary production that a chain of last symbols reaches from a
/// symbol `b` that comes just before `a` in a production.
pub fn compute_stack_adj(g: &Vec<Vec<Vec<usize>>>, start: usize) -> (adj: Vec<AdjSet>)
    requires
        int_grammar_wf(g@),
    ensures
        adj.len() == g.len(),
        forall|a: int, p: Option<usize>| 0 <= a < g.len() ==> (#[trigger] adj@[a].contains_spec(p) <==> stack_adj_spec(g@, start as int, a, p)),
{
    let n = g.len();
    let member = adj_members(g);
    let neigh = neighbours(g);
    let mut adj: Vec<AdjSet> = Vec::new();
    let mut a: usize = 0;
    while a < n
        invariant
            a <= n,
            n == g.len(),
            int_grammar_wf(g@),
            member.len() == n,
            forall|x: int| 0 <= x < n ==> #[trigger] member@[x] == adj_member(g@, x),
            neigh.len() == n,
            forall|c: int, b: usize| 0 <= c < n ==> (#[trigger] neigh@[c]@.contains(b) <==> follows(g@, b as int, c)),
            forall|c: int, j: int| 0 <= c < n && 0 <= j < neigh@[c].len() ==> #[trigger] neigh@[c]@[j] < n,
            adj.len() == a,
            forall|a2: int, p: Option<usize>| 0 <= a2 < a ==> (#[trigger] adj@[a2].contains_spec(p) <==> stack_adj_spec(g@, start as int, a2, p)),
        decreases n - a,
    {
        let mut s = AdjSet::new();
        if a != start && member[a] {
            s.insert(None);
            let bs = &neigh[a];
            let mut j: usize = 0;
            while j < bs.len()
                invariant
                    a < n,
                    n == g.len(),
                    int_grammar_wf(g@),
                    *bs == neigh@[a as int],
                    forall|jj: int| 0 <= jj < bs.len() ==> #[trigger] bs@[jj] < n,
                    j <= bs.len(),
                    s.contains_spec(None),
                    forall|x: usize| #[trigger] s.contains_spec(Some(x)) <==> exists|jj: int| 0 <= jj < j && reachable(g@, #[trigger] bs@[jj] as int, x as int) && unary(g@, x as int),
                decreases bs.len() - j,
            {
                assert(bs@[j as int] < n);
                let out = reach_unary(g, bs[j]);
                let mut t: usize = 0;
                while t < out.len()
                    invariant
                        j < bs.len(),
                        t <= out.len(),
                        s.contains_spec(None),
                        forall|x: usize| out@.contains(x) <==> reachable(g@, bs@[j as int] as int, x as int) && unary(g@, x as int),
                        forall|x: usize| #[trigger] s.contains_spec(Some(x)) <==> (exists|jj: int| 0 <= jj < j && reachable(g@, #[trigger] bs@[jj] as int, x as int) && unary(g@, x as int)) || exists|u: int| 0 <= u < t && out@[u] == x,
                    decreases out.len() - t,
                {
                    s.insert(Some(out[t]));
                    proof {
                        assert forall|x: usize| #[trigger] s.contains_spec(Some(x)) <==> (exists|jj: int| 0 <= jj < j && reachable(g@, #[trigger] bs@[jj] as int, x as int) && unary(g@, x as int)) || exists|u: int| 0 <= u < t + 1 && out@[u] == x by {
                            if x == out@[t as int] {
                                assert(out@[t as int] == x);
                            }
                            if exists|u: int| 0 <= u < t + 1 && out@[u] == x {
                                let u = choose|u: int| 0 <= u < t + 1 && out@[u] == x;
                                if u < t {
                                    assert(exists|u: int| 0 <= u < t && out@[u] == x);
                                }
                            }
                        }
                    }
                    t = t + 1;
                }
                proof {
                    assert forall|x: usize| #[trigger] s.contains_spec(Some(x)) <==> exists|jj: int| 0 <= jj < j + 1 && reachable(g@, #[trigger] bs@[jj] as int, x as int) && unary(g@, x as int) by {
                        if exists|u: int| 0 <= u < t && out@[u] == x {
                            let u = choose|u: int| 0 <= u < t && out@[u] == x;
                            assert(out@.contains(x));
                        }
                        if exists|jj: int| 0 <= jj < j + 1 && reachable(g@, #[trigger] bs@[jj] as int, x as int) && unary(g@, x as int) {
                            let jj = choose|jj: int| 0 <= jj < j + 1 && reachable(g@, #[trigger] bs@[jj] as int, x as int) && unary(g@, x as int);
                            if jj == j {
                                assert(out@.contains(x));
                                let u = choose|u: int| 0 <= u < out@.len() && out@[u] == x;
                                assert(exists|u: int| 0 <= u < t && out@[u] == x);
                            } else {
                                assert(exists|jj: int| 0 <= jj < j && reachable(g@, #[trigger] bs@[jj] as int, x as int) && unary(g@, x as int));
                            }
                        }
                    }
                }
                j = j + 1;
            }
            proof {
                assert forall|p: Option<usize>| #[trigger] s.contains_spec(p) <==> stack_adj_spec(g@, start as int, a as int, p) by {
                    match p {
                        None => {},
                        Some(x) => {
                            if s.contains_spec(Some(x)) {
                                let jj = choose|jj: int| 0 <= jj < bs.len() && reachable(g@, #[trigger] bs@[jj] as int, x as int) && unary(g@, x as int);
                                assert(neigh@[a as int]@.contains(bs@[jj]));
                                assert(follows(g@, bs@[jj] as int, a as int));
                            }
                            if stack_adj_spec(g@, start as int, a as int, p) {
                                let b = choose|b: int| #[trigger] follows(g@, b, a as int) && reachable(g@, b, x as int) && unary(g@, x as int);
                                let (a2, k2, i2) = choose|a2: int, k2: int, i2: int| #[trigger] follow_at(g@, b, a as int, a2, k2, i2);
                                assert(g@[a2]@[k2]@[i2] < n);
                                assert(neigh@[a as int]@.contains(b as usize));
                                let jj = choose|jj: int| 0 <= jj < bs@.len() && bs@[jj] == b as usize;
                                assert(reachable(g@, bs@[jj] as int, x as int));
                            }
                        },
                    }
                }
            }
        }
        let ghost a0 = adj@;
        adj.push(s);
        proof {
            assert forall|a2: int, p: Option<usize>| 0 <= a2 < a + 1 implies (#[trigger] adj@[a2].contains_spec(p) <==> stack_adj_spec(g@, start as int, a2, p)) by {
                if a2 < a {
                    assert(adj@[a2] == a0[a2]);
                }
            }
        }
        a = a + 1;
    }
    adj
}

} // verus!
