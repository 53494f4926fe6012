//! Normalization of the parsed grammar to Greibach normal form over byte
//! preterminals: ε-productions, unit productions and unreachable rules are
//! removed, left recursion is eliminated, leading non-terminals are
//! substituted away, and duplicate rules are merged.
use vstd::prelude::*;
use crate::symbols::{Sym, Rhs, rhs_view, clone_sym, clone_rhs, eq_sym, eq_rhs, wrap_name};
use crate::symmap::SymMap;
use crate::grammar::{Grammar, grammar_wf, prods, all_prods, derives_step, reachable_sym, lemma_reach_start, lemma_reach_step, lemma_closed_has_reachable, syms_upto, lemma_syms_upto_finite, lemma_syms_has, sdict_add, new_grammar, clone_set, set_view, set_wf, rhs_set, rhs_set_insert, rhs_set_remove, rhs_set_contains, ensure_key};
use crate::cfg::CfgError;

verus! {

/// A set of names.
pub type SymSet = SymMap<()>;

/// Upper bound on the rounds of each fixed-point loop.
pub const ROUND_LIMIT: u64 = 1000000000;

pub fn set_has(s: &SymSet, k: &Vec<char>) -> (r: bool)
    requires
        s.wf(),
    ensures
        r == s@.contains_key(k@),
{
    s.contains_key(k)
}

pub fn set_add(s: &mut SymSet, k: &Vec<char>)
    requires
        old(s).wf(),
    ensures
        final(s).wf(),
        final(s)@.dom() == old(s)@.dom().insert(k@),
{
    s.insert(clone_sym(k), ());
}

fn clone_symset(s: &SymSet) -> (r: SymSet)
    requires
        s.wf(),
    ensures
        r.wf(),
        r@.dom() == s@.dom(),
        r.keys.len() == s.keys.len(),
{
    let mut keys: Vec<Vec<char>> = Vec::new();
    let mut vals: Vec<()> = Vec::new();
    let mut i: usize = 0;
    while i < s.keys.len()
        invariant
            i <= s.keys.len(),
            s.wf(),
            keys.len() == i,
            vals.len() == i,
            forall|j: int| 0 <= j < i ==> (#[trigger] keys@[j])@ == s.keys@[j]@,
        decreases s.keys.len() - i,
    {
        keys.push(clone_sym(&s.keys[i]));
        vals.push(());
        i = i + 1;
    }
    let r = SymMap { keys, vals };
    proof {
        assert forall|a: int, b: int| 0 <= a < b < r.keys@.len() implies crate::symbols::lex_lt(#[trigger] r.keys@[a]@, #[trigger] r.keys@[b]@) by {
            assert(r.keys@[a]@ == s.keys@[a]@);
            assert(r.keys@[b]@ == s.keys@[b]@);
        }
        assert forall|k: Seq<char>| r@.dom().contains(k) <==> s@.dom().contains(k) by {
            if r.has(k) {
                let j = choose|j: int| 0 <= j < r.keys.len() && #[trigger] r.key_at(j) == k;
                assert(s.key_at(j) == k);
            }
            if s.has(k) {
                let j = choose|j: int| 0 <= j < s.keys.len() && #[trigger] s.key_at(j) == k;
                assert(r.key_at(j) == k);
            }
        }
        assert(r@.dom() =~= s@.dom());
    }
    r
}

/// A copy of a grammar.
pub fn clone_grammar(g: &Grammar) -> (r: Grammar)
    requires
        grammar_wf(g),
    ensures
        grammar_wf(&r),
        r@.dom() == g@.dom(),
        forall|x: Seq<char>| #[trigger] prods(&r, x) == prods(g, x),
{
    let mut r = new_grammar();
    crate::cfg::extend_grammar(&mut r, g);
    proof {
        assert(r@.dom() =~= g@.dom());
    }
    r
}

/// `f` picks the symbols of `a`, in order, out of `b`.
pub open spec fn picks(a: Seq<Seq<char>>, b: Seq<Seq<char>>, f: Seq<int>) -> bool {
    &&& f.len() == a.len()
    &&& forall|i: int, j: int| 0 <= i < j < f.len() ==> #[trigger] f[i] < #[trigger] f[j]
    &&& forall|i: int| 0 <= i < f.len() ==> 0 <= #[trigger] f[i] < b.len() && a[i] == b[f[i]]
}

/// `a` is `b` with some of its symbols left out.
pub open spec fn subseq_of(a: Seq<Seq<char>>, b: Seq<Seq<char>>) -> bool {
    exists|f: Seq<int>| #[trigger] picks(a, b, f)
}

/// Every production of `g` is a production of `g0` for the same name with
/// some of its symbols left out.
pub open spec fn thinned_from(g: &Grammar, g0: &Grammar) -> bool {
    forall|x: Seq<char>, r: Seq<Seq<char>>| #[trigger] prods(g, x).contains(r) ==> exists|r0: Seq<Seq<char>>| #[trigger] prods(g0, x).contains(r0) && subseq_of(r, r0)
}

pub proof fn lemma_subseq_refl(a: Seq<Seq<char>>)
    ensures
        subseq_of(a, a),
{
    let f = Seq::new(a.len(), |i: int| i);
    assert(picks(a, a, f));
}

pub proof fn lemma_subseq_trans(a: Seq<Seq<char>>, b: Seq<Seq<char>>, c: Seq<Seq<char>>)
    requires
        subseq_of(a, b),
        subseq_of(b, c),
    ensures
        subseq_of(a, c),
{
    let f = choose|f: Seq<int>| #[trigger] picks(a, b, f);
    let g = choose|g: Seq<int>| #[trigger] picks(b, c, g);
    let h = Seq::new(f.len(), |i: int| g[f[i]]);
    assert forall|i: int, j: int| 0 <= i < j < h.len() implies #[trigger] h[i] < #[trigger] h[j] by {
        assert(f[i] < f[j]);
    }
    assert forall|i: int| 0 <= i < h.len() implies 0 <= #[trigger] h[i] < c.len() && a[i] == c[h[i]] by {
        assert(0 <= f[i] < b.len());
        assert(b[f[i]] == c[g[f[i]]]);
    }
    assert(picks(a, c, h));
}

pub proof fn lemma_subseq_empty(b: Seq<Seq<char>>)
    ensures
        subseq_of(Seq::empty(), b),
{
    assert(picks(Seq::empty(), b, Seq::empty()));
}

/// Picking out of a prefix is picking out of any longer prefix.
proof fn lemma_subseq_take_grow(a: Seq<Seq<char>>, b: Seq<Seq<char>>, i: int)
    requires
        0 <= i < b.len(),
        subseq_of(a, b.take(i)),
    ensures
        subseq_of(a, b.take(i + 1)),
{
    let f = choose|f: Seq<int>| #[trigger] picks(a, b.take(i), f);
    assert forall|k: int| 0 <= k < f.len() implies 0 <= #[trigger] f[k] < b.take(i + 1).len() && a[k] == b.take(i + 1)[f[k]] by {
        assert(a[k] == b.take(i)[f[k]]);
    }
    assert(picks(a, b.take(i + 1), f));
}

/// Picking out of a prefix, then taking the symbol right after it.
proof fn lemma_subseq_take_push(a: Seq<Seq<char>>, b: Seq<Seq<char>>, i: int)
    requires
        0 <= i < b.len(),
        subseq_of(a, b.take(i)),
    ensures
        subseq_of(a.push(b[i]), b.take(i + 1)),
{
    let f = choose|f: Seq<int>| #[trigger] picks(a, b.take(i), f);
    let f2 = f.push(i);
    let a2 = a.push(b[i]);
    assert forall|k: int, j: int| 0 <= k < j < f2.len() implies #[trigger] f2[k] < #[trigger] f2[j] by {
        if j < f.len() {
            assert(f[k] < f[j]);
        } else {
            assert(f2[k] == f[k]);
            assert(f[k] < i);
        }
    }
    assert forall|k: int| 0 <= k < f2.len() implies 0 <= #[trigger] f2[k] < b.take(i + 1).len() && a2[k] == b.take(i + 1)[f2[k]] by {
        if k < f.len() {
            assert(f2[k] == f[k]);
            assert(a[k] == b.take(i)[f[k]]);
        }
    }
    assert(picks(a2, b.take(i + 1), f2));
}

/// `r` is `b` with some of its symbols that are in `poss` left out.
pub open spec fn variant_of(r: Seq<Seq<char>>, b: Seq<Seq<char>>, poss: Set<Seq<char>>) -> bool
    decreases b.len(),
{
    if b.len() == 0 {
        r.len() == 0
    } else {
        (r.len() > 0 && r[0] == b[0] && variant_of(r.drop_first(), b.drop_first(), poss)) || (poss.contains(b[0]) && variant_of(r, b.drop_first(), poss))
    }
}

/// `r` is `o` followed by a variant of `b`.
pub open spec fn extends_variant(r: Seq<Seq<char>>, o: Seq<Seq<char>>, b: Seq<Seq<char>>, poss: Set<Seq<char>>) -> bool {
    &&& o.len() <= r.len()
    &&& r.take(o.len() as int) == o
    &&& variant_of(r.skip(o.len() as int), b, poss)
}

proof fn lemma_extends_step(r: Seq<Seq<char>>, o: Seq<Seq<char>>, b: Seq<Seq<char>>, poss: Set<Seq<char>>)
    requires
        b.len() > 0,
    ensures
        extends_variant(r, o, b, poss) <==> extends_variant(r, o.push(b[0]), b.drop_first(), poss) || (poss.contains(b[0]) && extends_variant(r, o, b.drop_first(), poss)),
{
    let n = o.len() as int;
    if n <= r.len() && r.take(n) == o {
        let s = r.skip(n);
        if s.len() > 0 {
            assert(s.drop_first() =~= r.skip(n + 1));
            if s[0] == b[0] {
                assert(r.take(n + 1) =~= o.push(b[0]));
            } else {
                assert(r.take(n + 1)[n] == s[0]);
                assert(r.take(n + 1) != o.push(b[0]));
            }
        } else {
            assert(!(n + 1 <= r.len()));
        }
    } else {
        if n + 1 <= r.len() && r.take(n + 1) == o.push(b[0]) {
            assert(r.take(n) =~= r.take(n + 1).take(n));
            assert(o.push(b[0]).take(n) =~= o);
        }
    }
}

/// Every subsequence of `rhs[i..]` that keeps all symbols outside `poss`
/// (those in `poss` may be dropped), each appended to `out`; non-empty
/// results are added to `acc`.
fn variants(rhs: &Rhs, poss: &SymSet, i: usize, out: &mut Vec<Sym>, acc: &mut Vec<Rhs>)
    requires
        i <= rhs.len(),
        poss.wf(),
        set_wf(old(acc)@),
        forall|r: Seq<Seq<char>>| #[trigger] rhs_set(old(acc)@).contains(r) ==> r.len() > 0,
        subseq_of(rhs_view(old(out)@), rhs_view(rhs@).take(i as int)),
    ensures
        set_wf(final(acc)@),
        forall|r: Seq<Seq<char>>| #[trigger] rhs_set(final(acc)@).contains(r) ==> r.len() > 0,
        forall|r: Seq<Seq<char>>| #[trigger] rhs_set(final(acc)@).contains(r) ==> rhs_set(old(acc)@).contains(r) || subseq_of(r, rhs_view(rhs@)),
        forall|r: Seq<Seq<char>>| #[trigger] rhs_set(final(acc)@).contains(r) <==> rhs_set(old(acc)@).contains(r) || (r.len() > 0 && extends_variant(r, rhs_view(old(out)@), rhs_view(rhs@).skip(i as int), poss@.dom())),
        rhs_view(final(out)@) == rhs_view(old(out)@),
    decreases rhs.len() - i,
{
    let ghost pd = poss@.dom();
    let ghost b = rhs_view(rhs@).skip(i as int);
    if i == rhs.len() {
        if out.len() > 0 {
            let c = clone_rhs(out);
            let ghost a0 = acc@;
            rhs_set_insert(acc, c);
            proof {
                assert(b.len() == 0);
                assert forall|r: Seq<Seq<char>>| #[trigger] rhs_set(acc@).contains(r) <==> rhs_set(a0).contains(r) || (r.len() > 0 && extends_variant(r, rhs_view(out@), b, pd)) by {
                    if extends_variant(r, rhs_view(out@), b, pd) {
                        assert(r =~= r.take(out@.len() as int));
                    }
                    if r == rhs_view(c@) {
                        assert(r.skip(out@.len() as int) =~= Seq::<Seq<char>>::empty());
                        assert(r.take(out@.len() as int) =~= r);
                    }
                }
                assert(rhs_view(rhs@).take(i as int) =~= rhs_view(rhs@));
                assert forall|r: Seq<Seq<char>>| #[trigger] rhs_set(acc@).contains(r) implies r.len() > 0 by {
                    if !rhs_set(a0).contains(r) {
                        assert(rhs_view(c@).len() == out@.len());
                    }
                }
            }
        } else {
            proof {
                assert forall|r: Seq<Seq<char>>| #[trigger] rhs_set(acc@).contains(r) <==> rhs_set(acc@).contains(r) || (r.len() > 0 && extends_variant(r, rhs_view(out@), b, pd)) by {
                    if r.len() > 0 && extends_variant(r, rhs_view(out@), b, pd) {
                        assert(r.take(0) =~= r);
                    }
                }
            }
        }
        return;
    }
    let ghost o0 = out@;
    let ghost a0 = acc@;
    proof {
        lemma_extends_step(Seq::empty(), rhs_view(o0), b, pd);
        assert(b[0] == rhs_view(rhs@)[i as int]);
        assert(b.drop_first() =~= rhs_view(rhs@).skip(i + 1));
    }
    out.push(clone_sym(&rhs[i]));
    let ghost o_pushed = out@;
    proof {
        lemma_subseq_take_push(rhs_view(o0), rhs_view(rhs@), i as int);
        assert(rhs_view(o_pushed) =~= rhs_view(o0).push(rhs_view(rhs@)[i as int]));
    }
    variants(rhs, poss, i + 1, out, acc);
    let ghost o1 = out@;
    let ghost a1 = acc@;
    out.pop();
    proof {
        assert(rhs_view(o1) == rhs_view(o_pushed));
        assert(o1.len() == o_pushed.len());
        assert forall|j: int| 0 <= j < o0.len() implies #[trigger] rhs_view(out@)[j] == rhs_view(o0)[j] by {
            assert(rhs_view(o1)[j] == rhs_view(o_pushed)[j]);
            assert(out@[j] == o1[j]);
            assert(o_pushed[j] == o0[j]);
        }
        assert(rhs_view(out@) =~= rhs_view(o0));
    }
    let has = set_has(poss, &rhs[i]);
    if has {
        proof {
            lemma_subseq_take_grow(rhs_view(o0), rhs_view(rhs@), i as int);
        }
        variants(rhs, poss, i + 1, out, acc);
    }
    proof {
        let x = rhs_view(rhs@)[i as int];
        assert(rhs@[i as int]@ == x);
        assert forall|r: Seq<Seq<char>>| #[trigger] rhs_set(acc@).contains(r) <==> rhs_set(a0).contains(r) || (r.len() > 0 && extends_variant(r, rhs_view(o0), b, pd)) by {
            lemma_extends_step(r, rhs_view(o0), b, pd);
            assert(rhs_set(a1).contains(r) <==> rhs_set(a0).contains(r) || (r.len() > 0 && extends_variant(r, rhs_view(o_pushed), rhs_view(rhs@).skip(i + 1), pd)));
            if has {
                assert(rhs_set(acc@).contains(r) <==> rhs_set(a1).contains(r) || (r.len() > 0 && extends_variant(r, rhs_view(o0), rhs_view(rhs@).skip(i + 1), pd)));
            } else {
                assert(!pd.contains(x));
            }
        }
    }
}

/// No production of `g` holds the symbol `ε`.
pub open spec fn eps_free(g: &Grammar) -> bool {
    forall|x: Seq<char>, rr: Seq<Seq<char>>| #[trigger] prods(g, x).contains(rr) ==> !rr.contains(seq!['ε'])
}

/// A non-empty right-hand side made only of symbols that are neither
/// names with a rule in `g0` nor `ε`.
pub open spec fn plain_rhs(g0: &Grammar, rr: Seq<Seq<char>>) -> bool {
    rr.len() > 0 && forall|i: int| 0 <= i < rr.len() ==> !g0@.contains_key(#[trigger] rr[i]) && rr[i] != seq!['ε']
}

/// Every plain production that `g0` has for `x` is one of `g`'s for `x`.
pub open spec fn plain_kept_at(g0: &Grammar, g: &Grammar, x: Seq<char>) -> bool {
    forall|rr: Seq<Seq<char>>| #[trigger] prods(g0, x).contains(rr) && plain_rhs(g0, rr) ==> prods(g, x).contains(rr)
}

/// `x` has no plain production in `g0`.
pub open spec fn no_plain(g0: &Grammar, x: Seq<char>) -> bool {
    forall|rr: Seq<Seq<char>>| #[trigger] prods(g0, x).contains(rr) ==> !plain_rhs(g0, rr)
}

/// Every plain production of every name other than `ε` is kept.
pub open spec fn keeps_plain(g0: &Grammar, g: &Grammar) -> bool {
    forall|x: Seq<char>| x != seq!['ε'] ==> #[trigger] plain_kept_at(g0, g, x)
}

proof fn lemma_kept_grow(g0: &Grammar, g1: &Grammar, g2: &Grammar, x: Seq<char>)
    requires
        plain_kept_at(g0, g1, x),
        prods(g1, x).subset_of(prods(g2, x)),
    ensures
        plain_kept_at(g0, g2, x),
{
    assert forall|rr: Seq<Seq<char>>| #[trigger] prods(g0, x).contains(rr) && plain_rhs(g0, rr) implies prods(g2, x).contains(rr) by {
        assert(prods(g1, x).contains(rr));
    }
}

proof fn lemma_variant_self(b: Seq<Seq<char>>, poss: Set<Seq<char>>)
    ensures
        variant_of(b, b, poss),
    decreases b.len(),
{
    if b.len() > 0 {
        lemma_variant_self(b.drop_first(), poss);
    }
}

proof fn lemma_subseq_avoids(a: Seq<Seq<char>>, b: Seq<Seq<char>>, e: Seq<char>)
    requires
        subseq_of(a, b),
        !b.contains(e),
    ensures
        !a.contains(e),
{
    let f = choose|f: Seq<int>| #[trigger] picks(a, b, f);
    if a.contains(e) {
        let i = choose|i: int| 0 <= i < a.len() && a[i] == e;
        assert(b[f[i]] == e);
        assert(b.contains(e));
    }
}

/// Extending `f` by one more index past all of its own.
proof fn lemma_picks_push(a: Seq<Seq<char>>, b: Seq<Seq<char>>, f: Seq<int>, k: int)
    requires
        picks(a, b, f),
        0 <= k < b.len(),
        forall|t: int| 0 <= t < f.len() ==> #[trigger] f[t] < k,
    ensures
        picks(a.push(b[k]), b, f.push(k)),
{
    let f2 = f.push(k);
    let a2 = a.push(b[k]);
    assert forall|t: int, u: int| 0 <= t < u < f2.len() implies #[trigger] f2[t] < #[trigger] f2[u] by {
        assert(f2[t] == f[t]);
        if u < f.len() {
            assert(f[t] < f[u]);
        }
    }
    assert forall|t: int| 0 <= t < f2.len() implies 0 <= #[trigger] f2[t] < b.len() && a2[t] == b[f2[t]] by {
        if t < f.len() {
            assert(f2[t] == f[t]);
        }
    }
}

/// Adding to `g`, for `lhs`, a production thinned from one that `prev`
/// has for `lhs`, keeps `g` thinned from `c0` when `prev` is.
proof fn lemma_thinned_add(g: &Grammar, g1: &Grammar, prev: &Grammar, c0: &Grammar, lhs: Seq<char>, r: Seq<Seq<char>>, src: Seq<Seq<char>>)
    requires
        thinned_from(g, c0),
        thinned_from(prev, c0),
        prods(prev, lhs).contains(src),
        subseq_of(r, src),
        forall|x: Seq<char>| #[trigger] prods(g1, x) == if x == lhs {
            prods(g, x).insert(r)
        } else {
            prods(g, x)
        },
    ensures
        thinned_from(g1, c0),
{
    assert forall|x: Seq<char>, rr: Seq<Seq<char>>| #[trigger] prods(g1, x).contains(rr) implies exists|r0: Seq<Seq<char>>| #[trigger] prods(c0, x).contains(r0) && subseq_of(rr, r0) by {
        if prods(g, x).contains(rr) {
        } else {
            assert(x == lhs && rr == r);
            let r0 = choose|r0: Seq<Seq<char>>| #[trigger] prods(c0, lhs).contains(r0) && subseq_of(src, r0);
            lemma_subseq_trans(r, src, r0);
        }
    }
}

/// Removes ε-productions: symbols that derive only the empty string are
/// dropped, and every production is replaced by all its variants without
/// some of the symbols that can derive it, leaving no empty production.
/// Every rule left is one of the input's, and each of its productions is
/// one of the input's productions for that name with some symbols left out.
/// No production left holds `ε`, and every production made only of
/// symbols without a rule (and not `ε`) stays, for every name but `ε`.
pub fn remove_epsilon_productions(cfg: &mut Grammar)
    requires
        grammar_wf(old(cfg)),
    ensures
        grammar_wf(final(cfg)),
        all_prods(final(cfg), |rr: Seq<Seq<char>>| rr.len() > 0),
        final(cfg)@.dom().subset_of(old(cfg)@.dom()),
        thinned_from(final(cfg), old(cfg)),
        eps_free(final(cfg)),
        keeps_plain(old(cfg), final(cfg)),
{
    let ghost c0 = *cfg;
    let ghost universe = c0@.dom().insert(seq!['ε']);
    proof {
        c0.lemma_dom_len();
    }
    let eps: Vec<char> = vec!['ε'];
    assert(eps@ =~= seq!['ε']);
    let mut empty: SymSet = SymMap::new();
    set_add(&mut empty, &eps);
    let mut e_prev_len: usize = 0;
    let mut cfg_prev = clone_grammar(cfg);
    proof {
        assert forall|x: Seq<char>| x != seq!['ε'] implies #[trigger] plain_kept_at(&c0, &cfg_prev, x) by {}
        assert forall|x: Seq<char>| #[trigger] empty@.contains_key(x) && x != seq!['ε'] implies no_plain(&c0, x) by {}
        assert forall|x: Seq<char>, r: Seq<Seq<char>>| #[trigger] prods(&cfg_prev, x).contains(r) implies exists|r0: Seq<Seq<char>>| #[trigger] prods(&c0, x).contains(r0) && subseq_of(r, r0) by {
            lemma_subseq_refl(r);
        }
    }
    let mut poss_empty: SymSet = SymMap::new();
    while e_prev_len != empty.len()
        invariant
            empty.wf(),
            poss_empty.wf(),
            grammar_wf(&cfg_prev),
            grammar_wf(cfg),
            universe == c0@.dom().insert(seq!['ε']),
            universe.finite(),
            cfg_prev@.dom().subset_of(c0@.dom()),
            thinned_from(&cfg_prev, &c0),
            empty@.dom().subset_of(universe),
            e_prev_len <= empty.keys.len(),
            empty@.contains_key(seq!['ε']),
            e_prev_len > 0 ==> eps_free(&cfg_prev),
            keeps_plain(&c0, &cfg_prev),
            forall|x: Seq<char>| #[trigger] empty@.contains_key(x) && x != seq!['ε'] ==> no_plain(&c0, x),
        decreases universe.len() - e_prev_len,
    {
        proof {
            empty.lemma_dom_len();
            vstd::set_lib::lemma_len_subset(empty@.dom(), universe);
        }
        e_prev_len = empty.len();
        let mut cfg_next = new_grammar();
        let mut i: usize = 0;
        while i < cfg_prev.len()
            invariant
                i <= cfg_prev.keys.len(),
                grammar_wf(&cfg_prev),
                grammar_wf(&cfg_next),
                empty.wf(),
                poss_empty.wf(),
                cfg_prev@.dom().subset_of(c0@.dom()),
                cfg_next@.dom().subset_of(cfg_prev@.dom()),
                thinned_from(&cfg_prev, &c0),
                thinned_from(&cfg_next, &c0),
                universe == c0@.dom().insert(seq!['ε']),
                empty@.dom().subset_of(universe),
                e_prev_len <= empty.keys.len(),
                e_prev_len > 0,
                empty@.contains_key(seq!['ε']),
                keeps_plain(&c0, &cfg_prev),
                forall|x: Seq<char>| #[trigger] empty@.contains_key(x) && x != seq!['ε'] ==> no_plain(&c0, x),
                eps_free(&cfg_next),
                forall|t: int| 0 <= t < i && cfg_prev.key_at(t) != seq!['ε'] ==> #[trigger] plain_kept_at(&c0, &cfg_next, cfg_prev.key_at(t)),
            decreases cfg_prev.keys.len() - i,
        {
            let lhs = &cfg_prev.keys[i];
            proof {
                cfg_prev.lemma_pos(i as int);
                crate::grammar::lemma_prods_at(&cfg_prev, i as int);
            }
            let ghost cni = cfg_next;
            if !set_has(&empty, lhs) {
                let mut lhs_empty = true;
                let ps = &cfg_prev.vals[i];
                let mut j: usize = 0;
                while j < ps.len()
                    invariant
                        j <= ps.len(),
                        grammar_wf(&cfg_next),
                        empty.wf(),
                        poss_empty.wf(),
                        cfg_prev@.contains_key(lhs@),
                        cfg_next@.dom().subset_of(cfg_prev@.dom()),
                        prods(&cfg_prev, lhs@) == rhs_set(ps@),
                        thinned_from(&cfg_prev, &c0),
                        thinned_from(&cfg_next, &c0),
                        universe == c0@.dom().insert(seq!['ε']),
                        empty@.dom().subset_of(universe),
                        empty@.contains_key(seq!['ε']),
                        eps_free(&cfg_next),
                        forall|x: Seq<char>| #[trigger] prods(&cni, x).subset_of(prods(&cfg_next, x)),
                        forall|rr: Seq<Seq<char>>| #[trigger] prods(&c0, lhs@).contains(rr) && plain_rhs(&c0, rr) && (exists|jj: int| 0 <= jj < j && set_view(ps@)[jj] == rr) ==> prods(&cfg_next, lhs@).contains(rr) && !lhs_empty,
                    decreases ps.len() - j,
                {
                    let rhs = &ps[j];
                    let mut rhs_new: Rhs = Vec::new();
                    let ghost mut fk: Seq<int> = Seq::empty();
                    let mut k: usize = 0;
                    while k < rhs.len()
                        invariant
                            k <= rhs.len(),
                            empty.wf(),
                            picks(rhs_view(rhs_new@), rhs_view(rhs@), fk),
                            forall|t: int| 0 <= t < fk.len() ==> #[trigger] fk[t] < k,
                            universe == c0@.dom().insert(seq!['ε']),
                            empty@.dom().subset_of(universe),
                            empty@.contains_key(seq!['ε']),
                            !rhs_view(rhs_new@).contains(seq!['ε']),
                            plain_rhs(&c0, rhs_view(rhs@)) ==> rhs_view(rhs_new@) == rhs_view(rhs@).take(k as int),
                        decreases rhs.len() - k,
                    {
                        let ghost rn0 = rhs_new@;
                        let kept = !set_has(&empty, &rhs[k]);
                        if kept {
                            rhs_new.push(clone_sym(&rhs[k]));
                            proof {
                                lemma_picks_push(rhs_view(rn0), rhs_view(rhs@), fk, k as int);
                                assert(rhs_view(rhs_new@) =~= rhs_view(rn0).push(rhs_view(rhs@)[k as int]));
                                fk = fk.push(k as int);
                            }
                        }
                        proof {
                            let rv = rhs_view(rhs@);
                            assert(rv[k as int] == rhs@[k as int]@);
                            if kept {
                                assert(rv[k as int] != seq!['ε']);
                                if rhs_view(rhs_new@).contains(seq!['ε']) {
                                    let q = choose|q: int| 0 <= q < rhs_view(rhs_new@).len() && rhs_view(rhs_new@)[q] == seq!['ε'];
                                    if q < rhs_view(rn0).len() {
                                        assert(rhs_view(rn0)[q] == seq!['ε']);
                                    }
                                }
                            } else {
                                assert(rhs_view(rhs_new@) == rhs_view(rn0));
                            }
                            if plain_rhs(&c0, rv) {
                                assert(!universe.contains(rv[k as int]));
                                assert(kept);
                                assert(rhs_view(rhs_new@) =~= rv.take(k + 1));
                            }
                        }
                        k = k + 1;
                    }
                    proof {
                        assert(picks(rhs_view(rhs_new@), rhs_view(rhs@), fk));
                        assert(set_view(ps@)[j as int] == rhs_view(rhs@));
                        assert(rhs_set(ps@).contains(rhs_view(rhs@)));
                        if plain_rhs(&c0, rhs_view(rhs@)) {
                            assert(rhs_view(rhs@).take(rhs.len() as int) =~= rhs_view(rhs@));
                        }
                    }
                    let ghost cn0 = cfg_next;
                    let ghost le0 = lhs_empty;
                    if rhs_new.len() == 0 {
                        set_add(&mut poss_empty, lhs);
                    } else {
                        let ghost rv = rhs_view(rhs_new@);
                        sdict_add(&mut cfg_next, lhs, rhs_new);
                        proof {
                            lemma_thinned_add(&cn0, &cfg_next, &cfg_prev, &c0, lhs@, rv, rhs_view(rhs@));
                            assert forall|x: Seq<char>, rr: Seq<Seq<char>>| #[trigger] prods(&cfg_next, x).contains(rr) implies !rr.contains(seq!['ε']) by {
                                if !prods(&cn0, x).contains(rr) {
                                    assert(rr == rv);
                                }
                            }
                        }
                        lhs_empty = false;
                    }
                    proof {
                        assert forall|x: Seq<char>| #[trigger] prods(&cni, x).subset_of(prods(&cfg_next, x)) by {
                            assert(prods(&cni, x).subset_of(prods(&cn0, x)));
                        }
                        assert forall|rr: Seq<Seq<char>>| #[trigger] prods(&c0, lhs@).contains(rr) && plain_rhs(&c0, rr) && (exists|jj: int| 0 <= jj < j + 1 && set_view(ps@)[jj] == rr) implies prods(&cfg_next, lhs@).contains(rr) && !lhs_empty by {
                            let jj = choose|jj: int| 0 <= jj < j + 1 && set_view(ps@)[jj] == rr;
                            if jj < j {
                                assert(prods(&cn0, lhs@).contains(rr) && !le0);
                            } else {
                                assert(rr == rhs_view(rhs@));
                                assert(rhs_view(rhs_new@) == rr);
                            }
                        }
                    }
                    j = j + 1;
                }
                proof {
                    assert(plain_kept_at(&c0, &cfg_prev, lhs@) || lhs@ == seq!['ε']);
                    if lhs@ != seq!['ε'] {
                        assert forall|rr: Seq<Seq<char>>| #[trigger] prods(&c0, lhs@).contains(rr) && plain_rhs(&c0, rr) implies prods(&cfg_next, lhs@).contains(rr) && !lhs_empty by {
                            assert(prods(&cfg_prev, lhs@).contains(rr));
                            assert(rhs_set(ps@).contains(rr));
                            let jj = choose|jj: int| 0 <= jj < set_view(ps@).len() && set_view(ps@)[jj] == rr;
                        }
                    }
                }
                if lhs_empty {
                    let ghost d0 = empty@.dom();
                    proof {
                        empty.lemma_dom_len();
                        assert(c0@.dom().contains(lhs@));
                        assert(universe.contains(lhs@));
                    }
                    set_add(&mut empty, lhs);
                    proof {
                        empty.lemma_dom_len();
                        vstd::set_lib::lemma_len_subset(d0, empty@.dom());
                        assert forall|x: Seq<char>| #[trigger] empty@.contains_key(x) && x != seq!['ε'] implies no_plain(&c0, x) by {
                            if x == lhs@ {
                                assert forall|rr: Seq<Seq<char>>| #[trigger] prods(&c0, x).contains(rr) implies !plain_rhs(&c0, rr) by {
                                    if plain_rhs(&c0, rr) {
                                        assert(!lhs_empty);
                                    }
                                }
                            } else {
                                assert(d0.contains(x));
                            }
                        }
                    }
                }
            } else {
                proof {
                    if lhs@ != seq!['ε'] {
                        assert(no_plain(&c0, lhs@));
                        assert forall|rr: Seq<Seq<char>>| #[trigger] prods(&c0, lhs@).contains(rr) && plain_rhs(&c0, rr) implies prods(&cfg_next, lhs@).contains(rr) by {}
                    }
                }
            }
            proof {
                assert forall|t: int| 0 <= t < i + 1 && cfg_prev.key_at(t) != seq!['ε'] implies #[trigger] plain_kept_at(&c0, &cfg_next, cfg_prev.key_at(t)) by {
                    if t < i {
                        assert(plain_kept_at(&c0, &cni, cfg_prev.key_at(t)));
                        lemma_kept_grow(&c0, &cni, &cfg_next, cfg_prev.key_at(t));
                    } else {
                        assert(cfg_prev.key_at(t) == lhs@);
                    }
                }
            }
            i = i + 1;
        }
        proof {
            assert forall|x: Seq<char>| x != seq!['ε'] implies #[trigger] plain_kept_at(&c0, &cfg_next, x) by {
                assert(plain_kept_at(&c0, &cfg_prev, x));
                assert forall|rr: Seq<Seq<char>>| #[trigger] prods(&c0, x).contains(rr) && plain_rhs(&c0, rr) implies prods(&cfg_next, x).contains(rr) by {
                    assert(prods(&cfg_prev, x).contains(rr));
                    assert(cfg_prev@.contains_key(x));
                    let t = choose|t: int| 0 <= t < cfg_prev.keys.len() && #[trigger] cfg_prev.key_at(t) == x;
                    assert(plain_kept_at(&c0, &cfg_next, cfg_prev.key_at(t)));
                }
            }
        }
        cfg_prev = cfg_next;
    }
    proof {
        empty.lemma_dom_len();
        assert(empty@.dom().contains(seq!['ε']));
        assert(e_prev_len > 0);
    }
    let mut remaining: SymSet = SymMap::new();
    let mut i: usize = 0;
    while i < poss_empty.len()
        invariant
            i <= poss_empty.keys.len(),
            poss_empty.wf(),
            empty.wf(),
            remaining.wf(),
            grammar_wf(&cfg_prev),
            cfg_prev@.dom().subset_of(c0@.dom()),
            thinned_from(&cfg_prev, &c0),
            eps_free(&cfg_prev),
            keeps_plain(&c0, &cfg_prev),
        decreases poss_empty.keys.len() - i,
    {
        if !set_has(&empty, &poss_empty.keys[i]) {
            set_add(&mut remaining, &poss_empty.keys[i]);
        }
        i = i + 1;
    }
    let mut poss_empty = remaining;
    let ghost universe2 = poss_empty@.dom() + cfg_prev@.dom();
    proof {
        poss_empty.lemma_dom_len();
        cfg_prev.lemma_dom_len();
    }
    let mut e_prev_len: usize = 0;
    while e_prev_len != poss_empty.len()
        invariant
            poss_empty.wf(),
            grammar_wf(&cfg_prev),
            grammar_wf(cfg),
            universe2.finite(),
            poss_empty@.dom().subset_of(universe2),
            cfg_prev@.dom().subset_of(universe2),
            e_prev_len <= poss_empty.keys.len(),
            cfg_prev@.dom().subset_of(c0@.dom()),
            thinned_from(&cfg_prev, &c0),
            eps_free(&cfg_prev),
            keeps_plain(&c0, &cfg_prev),
        decreases universe2.len() - e_prev_len,
    {
        proof {
            poss_empty.lemma_dom_len();
            vstd::set_lib::lemma_len_subset(poss_empty@.dom(), universe2);
        }
        e_prev_len = poss_empty.len();
        let mut i: usize = 0;
        while i < cfg_prev.len()
            invariant
                i <= cfg_prev.keys.len(),
                grammar_wf(&cfg_prev),
                poss_empty.wf(),
                poss_empty@.dom().subset_of(universe2),
                cfg_prev@.dom().subset_of(universe2),
                e_prev_len <= poss_empty.keys.len(),
                cfg_prev@.dom().subset_of(c0@.dom()),
                thinned_from(&cfg_prev, &c0),
                eps_free(&cfg_prev),
                keeps_plain(&c0, &cfg_prev),
            decreases cfg_prev.keys.len() - i,
        {
            let ps = &cfg_prev.vals[i];
            let mut any = false;
            let mut j: usize = 0;
            while j < ps.len() && !any
                invariant
                    j <= ps.len(),
                    poss_empty.wf(),
                decreases ps.len() - j,
            {
                let rhs = &ps[j];
                let mut all = true;
                let mut k: usize = 0;
                while k < rhs.len() && all
                    invariant
                        k <= rhs.len(),
                        poss_empty.wf(),
                    decreases rhs.len() - k,
                {
                    if !set_has(&poss_empty, &rhs[k]) {
                        all = false;
                    }
                    k = k + 1;
                }
                if all {
                    any = true;
                }
                j = j + 1;
            }
            if any {
                let ghost d0 = poss_empty@.dom();
                proof {
                    poss_empty.lemma_dom_len();
                    cfg_prev.lemma_pos(i as int);
                }
                set_add(&mut poss_empty, &cfg_prev.keys[i]);
                proof {
                    poss_empty.lemma_dom_len();
                    vstd::set_lib::lemma_len_subset(d0, poss_empty@.dom());
                }
            }
            i = i + 1;
        }
    }
    let mut cfg_next = new_grammar();
    let mut i: usize = 0;
    while i < cfg_prev.len()
        invariant
            i <= cfg_prev.keys.len(),
            grammar_wf(&cfg_prev),
            grammar_wf(&cfg_next),
            poss_empty.wf(),
            all_prods(&cfg_next, |rr: Seq<Seq<char>>| rr.len() > 0),
            cfg_prev@.dom().subset_of(c0@.dom()),
            cfg_next@.dom().subset_of(c0@.dom()),
            thinned_from(&cfg_prev, &c0),
            thinned_from(&cfg_next, &c0),
            eps_free(&cfg_prev),
            keeps_plain(&c0, &cfg_prev),
            eps_free(&cfg_next),
            forall|t: int| 0 <= t < i && cfg_prev.key_at(t) != seq!['ε'] ==> #[trigger] plain_kept_at(&c0, &cfg_next, cfg_prev.key_at(t)),
        decreases cfg_prev.keys.len() - i,
    {
        let lhs = &cfg_prev.keys[i];
        let ps = &cfg_prev.vals[i];
        let ghost cni = cfg_next;
        proof {
            cfg_prev.lemma_pos(i as int);
            crate::grammar::lemma_prods_at(&cfg_prev, i as int);
        }
        let mut j: usize = 0;
        while j < ps.len()
            invariant
                j <= ps.len(),
                grammar_wf(&cfg_next),
                poss_empty.wf(),
                all_prods(&cfg_next, |rr: Seq<Seq<char>>| rr.len() > 0),
                cfg_prev@.contains_key(lhs@),
                cfg_prev@.dom().subset_of(c0@.dom()),
                cfg_next@.dom().subset_of(c0@.dom()),
                prods(&cfg_prev, lhs@) == rhs_set(ps@),
                thinned_from(&cfg_prev, &c0),
                thinned_from(&cfg_next, &c0),
                eps_free(&cfg_prev),
                eps_free(&cfg_next),
                forall|x: Seq<char>| #[trigger] prods(&cni, x).subset_of(prods(&cfg_next, x)),
                forall|rr: Seq<Seq<char>>| #[trigger] prods(&c0, lhs@).contains(rr) && plain_rhs(&c0, rr) && (exists|jj: int| 0 <= jj < j && set_view(ps@)[jj] == rr) ==> prods(&cfg_next, lhs@).contains(rr),
            decreases ps.len() - j,
        {
            let mut acc: Vec<Rhs> = Vec::new();
            let mut out: Vec<Sym> = Vec::new();
            proof {
                assert(set_view(acc@) =~= Seq::<Seq<Seq<char>>>::empty());
                assert(rhs_set(acc@) =~= Set::<Seq<Seq<char>>>::empty());
            }
            proof {
                assert(rhs_view(out@) =~= Seq::<Seq<char>>::empty());
                lemma_subseq_empty(rhs_view(ps@[j as int]@).take(0));
            }
            variants(&ps[j], &poss_empty, 0, &mut out, &mut acc);
            let ghost cnj = cfg_next;
            proof {
                assert(set_view(ps@)[j as int] == rhs_view(ps@[j as int]@));
                assert(rhs_set(ps@).contains(rhs_view(ps@[j as int]@)));
                let bv = rhs_view(ps@[j as int]@);
                if plain_rhs(&c0, bv) {
                    lemma_variant_self(bv, poss_empty@.dom());
                    assert(bv.skip(0) =~= bv);
                    assert(bv.take(0) =~= Seq::<Seq<char>>::empty());
                    assert(extends_variant(bv, rhs_view(Seq::<Vec<char>>::empty()), rhs_view(ps@[j as int]@).skip(0), poss_empty@.dom()));
                    assert(rhs_set(acc@).contains(bv));
                }
            }
            let mut k: usize = 0;
            while k < acc.len()
                invariant
                    k <= acc.len(),
                    grammar_wf(&cfg_next),
                    set_wf(acc@),
                    forall|r: Seq<Seq<char>>| #[trigger] rhs_set(acc@).contains(r) ==> r.len() > 0,
                    all_prods(&cfg_next, |rr: Seq<Seq<char>>| rr.len() > 0),
                    forall|r: Seq<Seq<char>>| #[trigger] rhs_set(acc@).contains(r) ==> subseq_of(r, rhs_view(ps@[j as int]@)),
                    prods(&cfg_prev, lhs@).contains(rhs_view(ps@[j as int]@)),
                    cfg_prev@.contains_key(lhs@),
                    cfg_prev@.dom().subset_of(c0@.dom()),
                    cfg_next@.dom().subset_of(c0@.dom()),
                    thinned_from(&cfg_prev, &c0),
                    thinned_from(&cfg_next, &c0),
                    eps_free(&cfg_prev),
                    eps_free(&cfg_next),
                    forall|x: Seq<char>| #[trigger] prods(&cni, x).subset_of(prods(&cfg_next, x)),
                    forall|rr: Seq<Seq<char>>| #[trigger] prods(&c0, lhs@).contains(rr) && plain_rhs(&c0, rr) && (exists|jj: int| 0 <= jj < j && set_view(ps@)[jj] == rr) ==> prods(&cfg_next, lhs@).contains(rr),
                    forall|q: int| 0 <= q < k ==> prods(&cfg_next, lhs@).contains(#[trigger] set_view(acc@)[q]),
                decreases acc.len() - k,
            {
                let c = clone_rhs(&acc[k]);
                let ghost cn0 = cfg_next;
                proof {
                    assert(rhs_set(acc@).contains(set_view(acc@)[k as int]));
                }
                sdict_add(&mut cfg_next, lhs, c);
                proof {
                    lemma_thinned_add(&cn0, &cfg_next, &cfg_prev, &c0, lhs@, set_view(acc@)[k as int], rhs_view(ps@[j as int]@));
                    assert forall|x: Seq<char>, rr: Seq<Seq<char>>| #[trigger] prods(&cfg_next, x).contains(rr) implies rr.len() > 0 by {
                        if !prods(&cn0, x).contains(rr) {
                            assert(rr == set_view(acc@)[k as int]);
                        }
                    }
                    assert(!rhs_view(ps@[j as int]@).contains(seq!['ε']));
                    lemma_subseq_avoids(set_view(acc@)[k as int], rhs_view(ps@[j as int]@), seq!['ε']);
                    assert forall|x: Seq<char>, rr: Seq<Seq<char>>| #[trigger] prods(&cfg_next, x).contains(rr) implies !rr.contains(seq!['ε']) by {
                        if !prods(&cn0, x).contains(rr) {
                            assert(rr == set_view(acc@)[k as int]);
                        }
                    }
                    assert forall|x: Seq<char>| #[trigger] prods(&cni, x).subset_of(prods(&cfg_next, x)) by {
                        assert(prods(&cni, x).subset_of(prods(&cn0, x)));
                    }
                    assert forall|rr: Seq<Seq<char>>| #[trigger] prods(&c0, lhs@).contains(rr) && plain_rhs(&c0, rr) && (exists|jj: int| 0 <= jj < j && set_view(ps@)[jj] == rr) implies prods(&cfg_next, lhs@).contains(rr) by {
                        assert(prods(&cn0, lhs@).contains(rr));
                    }
                    assert forall|q: int| 0 <= q < k + 1 implies prods(&cfg_next, lhs@).contains(#[trigger] set_view(acc@)[q]) by {
                        if q < k {
                            assert(prods(&cn0, lhs@).contains(set_view(acc@)[q]));
                        }
                    }
                }
                k = k + 1;
            }
            proof {
                assert forall|rr: Seq<Seq<char>>| #[trigger] prods(&c0, lhs@).contains(rr) && plain_rhs(&c0, rr) && (exists|jj: int| 0 <= jj < j + 1 && set_view(ps@)[jj] == rr) implies prods(&cfg_next, lhs@).contains(rr) by {
                    let jj = choose|jj: int| 0 <= jj < j + 1 && set_view(ps@)[jj] == rr;
                    if jj < j {
                    } else {
                        assert(rr == rhs_view(ps@[j as int]@));
                        assert(rhs_set(acc@).contains(rr));
                        let q = choose|q: int| 0 <= q < set_view(acc@).len() && set_view(acc@)[q] == rr;
                    }
                }
            }
            j = j + 1;
        }
        proof {
            assert forall|t: int| 0 <= t < i + 1 && cfg_prev.key_at(t) != seq!['ε'] implies #[trigger] plain_kept_at(&c0, &cfg_next, cfg_prev.key_at(t)) by {
                if t < i {
                    assert(plain_kept_at(&c0, &cni, cfg_prev.key_at(t)));
                    lemma_kept_grow(&c0, &cni, &cfg_next, cfg_prev.key_at(t));
                } else {
                    assert(cfg_prev.key_at(t) == lhs@);
                    assert(plain_kept_at(&c0, &cfg_prev, lhs@));
                    assert forall|rr: Seq<Seq<char>>| #[trigger] prods(&c0, lhs@).contains(rr) && plain_rhs(&c0, rr) implies prods(&cfg_next, lhs@).contains(rr) by {
                        assert(prods(&cfg_prev, lhs@).contains(rr));
                        let jj = choose|jj: int| 0 <= jj < set_view(ps@).len() && set_view(ps@)[jj] == rr;
                    }
                }
            }
        }
        i = i + 1;
    }
    proof {
        assert forall|x: Seq<char>| x != seq!['ε'] implies #[trigger] plain_kept_at(&c0, &cfg_next, x) by {
            assert(plain_kept_at(&c0, &cfg_prev, x));
            assert forall|rr: Seq<Seq<char>>| #[trigger] prods(&c0, x).contains(rr) && plain_rhs(&c0, rr) implies prods(&cfg_next, x).contains(rr) by {
                assert(prods(&cfg_prev, x).contains(rr));
                assert(cfg_prev@.contains_key(x));
                let t = choose|t: int| 0 <= t < cfg_prev.keys.len() && #[trigger] cfg_prev.key_at(t) == x;
                assert(plain_kept_at(&c0, &cfg_next, cfg_prev.key_at(t)));
            }
        }
    }
    *cfg = cfg_next;
}

/// The productions of `k`, copied (empty when `k` has no rule).
pub fn get_set(cfg: &Grammar, k: &Vec<char>) -> (r: Vec<Rhs>)
    requires
        grammar_wf(cfg),
    ensures
        set_wf(r@),
        rhs_set(r@) == prods(cfg, k@),
{
    match cfg.find(k) {
        Ok(i) => {
            proof {
                crate::grammar::lemma_prods_at(cfg, i as int);
            }
            let r = clone_set(&cfg.vals[i]);
            proof {
                assert(set_wf(cfg.vals@[i as int]@));
            }
            r
        },
        Err(_) => {
            let r: Vec<Rhs> = Vec::new();
            proof {
                assert(set_view(r@) =~= Seq::<Seq<Seq<char>>>::empty());
                assert(rhs_set(r@) =~= Set::<Seq<Seq<char>>>::empty());
            }
            r
        },
    }
}

/// Sets the productions of `k`, replacing earlier ones.
pub fn set_prods(cfg: &mut Grammar, k: &Vec<char>, v: Vec<Rhs>)
    requires
        grammar_wf(old(cfg)),
        set_wf(v@),
    ensures
        grammar_wf(final(cfg)),
        final(cfg)@.dom() == old(cfg)@.dom().insert(k@),
        forall|x: Seq<char>| #[trigger] prods(final(cfg), x) == if x == k@ { rhs_set(v@) } else { prods(old(cfg), x) },
{
    let ghost c0 = *cfg;
    let ghost vv = v;
    cfg.insert(clone_sym(k), v);
    proof {
        assert forall|j: int| 0 <= j < cfg.vals.len() implies set_wf(#[trigger] cfg.vals@[j]@) by {
            cfg.lemma_pos(j);
            let kj = cfg.key_at(j);
            if kj != k@ {
                assert(c0@.contains_key(kj));
                c0.lemma_pos(c0.pos(kj));
            }
        }
        assert forall|x: Seq<char>| #[trigger] prods(cfg, x) == if x == k@ { rhs_set(vv@) } else { prods(&c0, x) } by {}
        assert(cfg@.dom() =~= c0@.dom().insert(k@));
    }
}

/// Removes the rule of `k` entirely.
pub fn remove_key(cfg: &mut Grammar, k: &Vec<char>)
    requires
        grammar_wf(old(cfg)),
    ensures
        grammar_wf(final(cfg)),
        final(cfg)@.dom() == old(cfg)@.dom().remove(k@),
        forall|x: Seq<char>| #[trigger] prods(final(cfg), x) == if x == k@ { Set::empty() } else { prods(old(cfg), x) },
{
    match cfg.find(k) {
        Ok(i) => {
            let ghost c0 = *cfg;
            cfg.remove_at(i);
            proof {
                assert forall|j: int| 0 <= j < cfg.vals.len() implies set_wf(#[trigger] cfg.vals@[j]@) by {
                    if j < i {
                        assert(cfg.vals@[j] == c0.vals@[j]);
                    } else {
                        assert(cfg.vals@[j] == c0.vals@[j + 1]);
                    }
                }
                assert(cfg@.dom() =~= c0@.dom().remove(k@));
            }
        },
        Err(_) => {
            assert(cfg@.dom() =~= cfg@.dom().remove(k@));
        },
    }
}

/// Removes production `k -> r`.
pub fn remove_prod(cfg: &mut Grammar, k: &Vec<char>, r: &Rhs)
    requires
        grammar_wf(old(cfg)),
    ensures
        grammar_wf(final(cfg)),
        forall|x: Seq<char>| #[trigger] prods(final(cfg), x) == if x == k@ { prods(old(cfg), x).remove(rhs_view(r@)) } else { prods(old(cfg), x) },
        final(cfg)@.dom() == old(cfg)@.dom(),
{
    if !cfg.contains_key(k) {
        assert forall|x: Seq<char>| #[trigger] prods(cfg, x) == if x == k@ { prods(cfg, x).remove(rhs_view(r@)) } else { prods(cfg, x) } by {
            if x == k@ {
                assert(prods(cfg, x) =~= prods(cfg, x).remove(rhs_view(r@)));
            }
        }
        return;
    }
    let mut s = get_set(cfg, k);
    rhs_set_remove(&mut s, r);
    set_prods(cfg, k, s);
}

/// The first production `x -> [y]` with `y` different from `x`, walking
/// rules and productions in order.
/// `x -> [y]` (`y` not `x`) is the first such production: the `b`-th of
/// the `a`-th rule, no earlier rule has one, and no earlier production of
/// the `a`-th rule is one.
pub open spec fn first_unary(cfg: &Grammar, x: Seq<char>, y: Seq<char>, a: int, b: int) -> bool {
    &&& 0 <= a < cfg.keys.len()
    &&& cfg.key_at(a) == x
    &&& 0 <= b < cfg.vals@[a].len()
    &&& set_view(cfg.vals@[a]@)[b] == seq![y]
    &&& y != x
    &&& forall|a2: int, rr: Seq<Seq<char>>| 0 <= a2 < a && #[trigger] rhs_set(cfg.vals@[a2]@).contains(rr) && rr.len() == 1 ==> rr[0] == cfg.key_at(a2)
    &&& forall|b2: int| 0 <= b2 < b && (#[trigger] set_view(cfg.vals@[a]@)[b2]).len() == 1 ==> set_view(cfg.vals@[a]@)[b2][0] == x
}

/// `x -> [y]` is the first production of one name that is a single
/// other name.
pub open spec fn is_first_unary(cfg: &Grammar, x: Seq<char>, y: Seq<char>) -> bool {
    exists|a: int, b: int| #[trigger] first_unary(cfg, x, y, a, b)
}

fn find_unary(cfg: &Grammar) -> (r: Option<(Sym, Sym)>)
    requires
        grammar_wf(cfg),
    ensures
        r is None ==> forall|x: Seq<char>, rr: Seq<Seq<char>>| #[trigger] prods(cfg, x).contains(rr) && rr.len() == 1 ==> rr[0] == x,
        r is Some ==> is_first_unary(cfg, r.unwrap().0@, r.unwrap().1@),
        r is Some ==> prods(cfg, r.unwrap().0@).contains(seq![r.unwrap().1@]),
{
    let mut i: usize = 0;
    while i < cfg.len()
        invariant
            i <= cfg.keys.len(),
            grammar_wf(cfg),
            forall|a: int, rr: Seq<Seq<char>>| 0 <= a < i && #[trigger] rhs_set(cfg.vals@[a]@).contains(rr) && rr.len() == 1 ==> rr[0] == cfg.key_at(a),
        decreases cfg.keys.len() - i,
    {
        let ps = &cfg.vals[i];
        let mut j: usize = 0;
        while j < ps.len()
            invariant
                j <= ps.len(),
                i < cfg.keys.len(),
                grammar_wf(cfg),
                *ps == cfg.vals@[i as int],
                forall|b: int| 0 <= b < j && (#[trigger] set_view(ps@)[b]).len() == 1 ==> set_view(ps@)[b][0] == cfg.key_at(i as int),
                forall|a: int, rr: Seq<Seq<char>>| 0 <= a < i && #[trigger] rhs_set(cfg.vals@[a]@).contains(rr) && rr.len() == 1 ==> rr[0] == cfg.key_at(a),
            decreases ps.len() - j,
        {
            let rhs = &ps[j];
            if rhs.len() == 1 && !eq_sym(&rhs[0], &cfg.keys[i]) {
                let x = clone_sym(&cfg.keys[i]);
                let y = clone_sym(&rhs[0]);
                proof {
                    assert(set_view(ps@)[j as int] == rhs_view(rhs@));
                    assert(rhs_view(rhs@) =~= seq![y@]);
                    assert(cfg.key_at(i as int) == x@);
                    assert(y@ != x@);
                    assert(set_view(cfg.vals@[i as int]@)[j as int] == seq![y@]);
                    assert(forall|b2: int| 0 <= b2 < j && (#[trigger] set_view(cfg.vals@[i as int]@)[b2]).len() == 1 ==> set_view(cfg.vals@[i as int]@)[b2][0] == x@);
                    assert(first_unary(cfg, x@, y@, i as int, j as int));
                    crate::grammar::lemma_prods_at(cfg, i as int);
                    assert(set_view(ps@).contains(seq![y@]));
                    assert(rhs_set(ps@).contains(seq![y@]));
                    assert(prods(cfg, x@).contains(seq![y@]));
                    assert(is_first_unary(cfg, x@, y@));
                }
                return Some((x, y));
            }
            proof {
                assert(set_view(ps@)[j as int] == rhs_view(rhs@));
            }
            j = j + 1;
        }
        proof {
            assert forall|a: int, rr: Seq<Seq<char>>| 0 <= a < i + 1 && #[trigger] rhs_set(cfg.vals@[a]@).contains(rr) && rr.len() == 1 implies rr[0] == cfg.key_at(a) by {
                if a == i {
                    let b = choose|b: int| 0 <= b < set_view(ps@).len() && set_view(ps@)[b] == rr;
                }
            }
        }
        i = i + 1;
    }
    proof {
        assert forall|x: Seq<char>, rr: Seq<Seq<char>>| #[trigger] prods(cfg, x).contains(rr) && rr.len() == 1 implies rr[0] == x by {
            let a = cfg.pos(x);
            cfg.lemma_pos(a);
            crate::grammar::lemma_prods_at(cfg, a);
        }
    }
    None
}

/// Adds `x` to a sorted set of names.
fn sym_set_insert(v: &mut Vec<Sym>, x: &Sym)
    ensures
        forall|z: Seq<char>| #[trigger] name_among(final(v)@, z) <==> name_among(old(v)@, z) || z == x@,
{
    let ghost v0 = v@;
    let mut pos: usize = 0;
    while pos < v.len()
        invariant
            pos <= v.len(),
            v@ == v0,
        decreases v.len() - pos,
    {
        let c = crate::symbols::order_sym(&v[pos], x);
        if c == 0 {
            proof {
                assert forall|z: Seq<char>| #[trigger] name_among(v@, z) <==> name_among(v0, z) || z == x@ by {
                    if z == x@ {
                        assert(v@[pos as int]@ == z);
                    }
                }
            }
            return;
        }
        if c > 0 {
            break;
        }
        pos = pos + 1;
    }
    let c = clone_sym(x);
    v.insert(pos, c);
    proof {
        assert forall|z: Seq<char>| #[trigger] name_among(v@, z) <==> name_among(v0, z) || z == x@ by {
            if name_among(v@, z) {
                let u = choose|u: int| 0 <= u < v@.len() && (#[trigger] v@[u])@ == z;
                if u < pos {
                    assert(v@[u] == v0[u]);
                } else if u > pos {
                    assert(v@[u] == v0[u - 1]);
                }
            }
            if name_among(v0, z) {
                let u = choose|u: int| 0 <= u < v0.len() && (#[trigger] v0[u])@ == z;
                if u < pos {
                    assert(v@[u] == v0[u]);
                } else {
                    assert(v@[u + 1] == v0[u]);
                }
            }
            if z == x@ {
                assert(v@[pos as int]@ == z);
            }
        }
    }
}

/// Symbol `x` occurs in some production of `g`.
pub open spec fn occurs_in(g: &Grammar, x: Seq<char>) -> bool {
    exists|k: Seq<char>, r: Seq<Seq<char>>| #[trigger] prods(g, k).contains(r) && r.contains(x)
}

/// A copy of a list of names.
fn copy_names(v: &Vec<Sym>) -> (c: Vec<Sym>)
    ensures
        c.len() == v.len(),
        forall|k: int| 0 <= k < c.len() ==> (#[trigger] c@[k])@ == v@[k]@,
        forall|z: Seq<char>| #[trigger] name_among(c@, z) <==> name_among(v@, z),
{
    let mut c: Vec<Sym> = Vec::new();
    let mut j: usize = 0;
    while j < v.len()
        invariant
            j <= v.len(),
            c.len() == j,
            forall|k: int| 0 <= k < j ==> (#[trigger] c@[k])@ == v@[k]@,
        decreases v.len() - j,
    {
        c.push(clone_sym(&v[j]));
        j = j + 1;
    }
    proof {
        assert forall|z: Seq<char>| #[trigger] name_among(c@, z) <==> name_among(v@, z) by {
            if name_among(c@, z) {
                let u = choose|u: int| 0 <= u < c@.len() && (#[trigger] c@[u])@ == z;
                assert(v@[u]@ == z);
            }
            if name_among(v@, z) {
                let u = choose|u: int| 0 <= u < v@.len() && (#[trigger] v@[u])@ == z;
                assert(c@[u]@ == z);
            }
        }
    }
    c
}

/// Removes unit productions `x -> [y]` (`y` not `x`) by copying the
/// productions of `y` into `x`, and records, for each symbol, the terminal
/// rules its unit chains reached. Self-productions `x -> [x]` are dropped
/// along the way, and rules left empty are removed. Only entries for `S`
/// and symbols still used on a right-hand side are returned.
pub fn remove_unary_rules(cfg: &mut Grammar, terminals: &Vec<Sym>) -> (r: Result<SymMap<Vec<Sym>>, CfgError>)
    requires
        grammar_wf(old(cfg)),
    ensures
        grammar_wf(final(cfg)),
        r matches Ok(m) ==> m.wf(),
        r is Ok ==> final(cfg)@.dom().subset_of(old(cfg)@.dom()),
        r is Ok ==> forall|x: Seq<char>, rr: Seq<Seq<char>>| #[trigger] prods(old(cfg), x).contains(rr) && rr.len() != 1 ==> prods(final(cfg), x).contains(rr),
        r is Ok ==> forall|x: Seq<char>, rr: Seq<Seq<char>>| #[trigger] prods(final(cfg), x).contains(rr) && rr.len() == 1 ==> rr[0] == x,
        r is Err ==> r == Err::<SymMap<Vec<Sym>>, CfgError>(CfgError::LimitExceeded),
        r matches Ok(m) ==> forall|x: Seq<char>, v: Seq<char>| #[trigger] m@.contains_key(x) && #[trigger] name_among(m@[x]@, v) ==> name_among(terminals@, v),
        r matches Ok(m) ==> forall|x: Seq<char>| #[trigger] m@.contains_key(x) ==> x == seq!['S'] || occurs_in(final(cfg), x),
        r matches Ok(m) ==> forall|u: int| 0 <= u < terminals.len() && ((#[trigger] terminals@[u])@ == seq!['S'] || occurs_in(final(cfg), terminals@[u]@)) ==> m@.contains_key(terminals@[u]@) && name_among(m@[terminals@[u]@]@, terminals@[u]@),
{
    let ghost c_in = *cfg;
    let mut terminal_map: SymMap<Vec<Sym>> = SymMap::new();
    let mut i: usize = 0;
    while i < terminals.len()
        invariant
            i <= terminals.len(),
            terminal_map.wf(),
            forall|x: Seq<char>, v: Seq<char>| #[trigger] terminal_map@.contains_key(x) && #[trigger] name_among(terminal_map@[x]@, v) ==> name_among(terminals@, v),
            forall|u: int| 0 <= u < i ==> terminal_map@.contains_key((#[trigger] terminals@[u])@) && name_among(terminal_map@[terminals@[u]@]@, terminals@[u]@),
        decreases terminals.len() - i,
    {
        let t = &terminals[i];
        let ghost m0 = terminal_map@;
        let one: Vec<Sym> = vec![clone_sym(t)];
        assert(one@[0]@ == t@);
        terminal_map.insert(clone_sym(t), one);
        proof {
            assert(name_among(one@, t@));
            assert forall|x: Seq<char>, v: Seq<char>| #[trigger] terminal_map@.contains_key(x) && #[trigger] name_among(terminal_map@[x]@, v) implies name_among(terminals@, v) by {
                if x == t@ {
                    let w = choose|w: int| 0 <= w < one@.len() && (#[trigger] one@[w])@ == v;
                    assert(terminals@[i as int]@ == v);
                } else {
                    assert(m0.contains_key(x));
                }
            }
        }
        i = i + 1;
    }
    let mut fuel: u64 = ROUND_LIMIT;
    loop
        invariant
            grammar_wf(cfg),
            terminal_map.wf(),
            forall|x: Seq<char>, v: Seq<char>| #[trigger] terminal_map@.contains_key(x) && #[trigger] name_among(terminal_map@[x]@, v) ==> name_among(terminals@, v),
            forall|u: int| 0 <= u < terminals.len() ==> terminal_map@.contains_key((#[trigger] terminals@[u])@) && name_among(terminal_map@[terminals@[u]@]@, terminals@[u]@),
            cfg@.dom().subset_of(c_in@.dom()),
            forall|x: Seq<char>, rr: Seq<Seq<char>>| #[trigger] prods(&c_in, x).contains(rr) && rr.len() != 1 ==> prods(cfg, x).contains(rr),
        ensures
            grammar_wf(cfg),
            terminal_map.wf(),
            forall|x: Seq<char>, v: Seq<char>| #[trigger] terminal_map@.contains_key(x) && #[trigger] name_among(terminal_map@[x]@, v) ==> name_among(terminals@, v),
            forall|u: int| 0 <= u < terminals.len() ==> terminal_map@.contains_key((#[trigger] terminals@[u])@) && name_among(terminal_map@[terminals@[u]@]@, terminals@[u]@),
            forall|x: Seq<char>, rr: Seq<Seq<char>>| #[trigger] prods(cfg, x).contains(rr) && rr.len() == 1 ==> rr[0] == x,
            cfg@.dom().subset_of(c_in@.dom()),
            forall|x: Seq<char>, rr: Seq<Seq<char>>| #[trigger] prods(&c_in, x).contains(rr) && rr.len() != 1 ==> prods(cfg, x).contains(rr),
        decreases fuel,
    {
        let (x, y) = match find_unary(cfg) {
            Some(p) => p,
            None => {
                break;
            },
        };
        if fuel == 0 {
            return Err(CfgError::LimitExceeded);
        }
        fuel = fuel - 1;
        let yr: Rhs = vec![clone_sym(&y)];
        proof {
            assert(rhs_view(yr@).len() == 1);
            assert(cfg@.contains_key(x@));
        }
        remove_prod(cfg, &x, &yr);
        if cfg.contains_key(&y) {
            let y_prods = get_set(cfg, &y);
            let mut j: usize = 0;
            while j < y_prods.len()
                invariant
                    j <= y_prods.len(),
                    grammar_wf(cfg),
                    c_in@.dom().contains(x@),
                    cfg@.dom().subset_of(c_in@.dom()),
                    forall|x: Seq<char>, rr: Seq<Seq<char>>| #[trigger] prods(&c_in, x).contains(rr) && rr.len() != 1 ==> prods(cfg, x).contains(rr),
                decreases y_prods.len() - j,
            {
                sdict_add(cfg, &x, clone_rhs(&y_prods[j]));
                j = j + 1;
            }
        }
        if let Some(terms) = terminal_map.get(&y) {
            let ghost m0 = terminal_map@;
            let add = copy_names(terms);
            let mut cur: Vec<Sym> = match terminal_map.get(&x) {
                Some(v) => copy_names(v),
                None => Vec::new(),
            };
            let ghost cur0 = cur@;
            let mut j: usize = 0;
            while j < add.len()
                invariant
                    j <= add.len(),
                    forall|z: Seq<char>| #[trigger] name_among(cur@, z) <==> name_among(cur0, z) || exists|jj: int| 0 <= jj < j && (#[trigger] add@[jj])@ == z,
                decreases add.len() - j,
            {
                let ghost c1 = cur@;
                sym_set_insert(&mut cur, &add[j]);
                proof {
                    assert forall|z: Seq<char>| #[trigger] name_among(cur@, z) <==> name_among(cur0, z) || exists|jj: int| 0 <= jj < j + 1 && (#[trigger] add@[jj])@ == z by {
                        if name_among(c1, z) && !name_among(cur0, z) {
                            let jj = choose|jj: int| 0 <= jj < j && (#[trigger] add@[jj])@ == z;
                        }
                        if exists|jj: int| 0 <= jj < j + 1 && (#[trigger] add@[jj])@ == z {
                            let jj = choose|jj: int| 0 <= jj < j + 1 && (#[trigger] add@[jj])@ == z;
                            if jj < j {
                                assert(name_among(c1, z));
                            }
                        }
                    }
                }
                j = j + 1;
            }
            terminal_map.insert(clone_sym(&x), cur);
            proof {
                assert forall|x2: Seq<char>, v: Seq<char>| #[trigger] terminal_map@.contains_key(x2) && #[trigger] name_among(terminal_map@[x2]@, v) implies name_among(terminals@, v) by {
                    if x2 == x@ {
                        if name_among(cur0, v) {
                            assert(m0.contains_key(x@) && name_among(m0[x@]@, v));
                        } else {
                            let jj = choose|jj: int| 0 <= jj < add.len() && (#[trigger] add@[jj])@ == v;
                            assert(name_among(add@, v));
                            assert(name_among(m0[y@]@, v));
                        }
                    } else {
                        assert(m0.contains_key(x2));
                    }
                }
                assert forall|u: int| 0 <= u < terminals.len() implies terminal_map@.contains_key((#[trigger] terminals@[u])@) && name_among(terminal_map@[terminals@[u]@]@, terminals@[u]@) by {
                    if terminals@[u]@ == x@ {
                        assert(m0.contains_key(x@));
                        assert(name_among(cur0, x@));
                    }
                }
            }
        }
        let mut keys: Vec<Sym> = Vec::new();
        let mut j: usize = 0;
        while j < cfg.len()
            invariant
                j <= cfg.keys.len(),
            decreases cfg.keys.len() - j,
        {
            keys.push(clone_sym(&cfg.keys[j]));
            j = j + 1;
        }
        let mut j: usize = 0;
        while j < keys.len()
            invariant
                j <= keys.len(),
                grammar_wf(cfg),
                cfg@.dom().subset_of(c_in@.dom()),
                forall|x: Seq<char>, rr: Seq<Seq<char>>| #[trigger] prods(&c_in, x).contains(rr) && rr.len() != 1 ==> prods(cfg, x).contains(rr),
            decreases keys.len() - j,
        {
            let k = &keys[j];
            if cfg.contains_key(k) {
                let kr: Rhs = vec![clone_sym(k)];
                proof {
                    assert(rhs_view(kr@).len() == 1);
                }
                remove_prod(cfg, k, &kr);
                let now = get_set(cfg, k);
                if now.len() == 0 {
                    let ghost cb = *cfg;
                    proof {
                        assert(set_view(now@) =~= Seq::<Seq<Seq<char>>>::empty());
                        assert(prods(&cb, k@) =~= Set::<Seq<Seq<char>>>::empty());
                    }
                    remove_key(cfg, k);
                    proof {
                        assert forall|x: Seq<char>, rr: Seq<Seq<char>>| #[trigger] prods(&c_in, x).contains(rr) && rr.len() != 1 implies prods(cfg, x).contains(rr) by {
                            assert(prods(&cb, x).contains(rr));
                        }
                    }
                }
            }
            j = j + 1;
        }
    }
    let s_name: Vec<char> = vec!['S'];
    assert(s_name@ =~= seq!['S']);
    let mut used: SymSet = SymMap::new();
    set_add(&mut used, &s_name);
    let mut i: usize = 0;
    while i < cfg.len()
        invariant
            i <= cfg.keys.len(),
            grammar_wf(cfg),
            used.wf(),
            used@.contains_key(seq!['S']),
            forall|z: Seq<char>| #[trigger] used@.contains_key(z) ==> z == seq!['S'] || occurs_in(cfg, z),
            forall|t: int, r: Seq<Seq<char>>, z: Seq<char>| 0 <= t < i && #[trigger] rhs_set(cfg.vals@[t]@).contains(r) && #[trigger] r.contains(z) ==> used@.contains_key(z),
        decreases cfg.keys.len() - i,
    {
        let ps = &cfg.vals[i];
        let ghost sv = set_view(ps@);
        proof {
            crate::grammar::lemma_prods_at(cfg, i as int);
        }
        let mut j: usize = 0;
        while j < ps.len()
            invariant
                j <= ps.len(),
                used.wf(),
                i < cfg.keys.len(),
                *ps == cfg.vals@[i as int],
                sv == set_view(ps@),
                prods(cfg, cfg.key_at(i as int)) == rhs_set(ps@),
                used@.contains_key(seq!['S']),
                forall|z: Seq<char>| #[trigger] used@.contains_key(z) ==> z == seq!['S'] || occurs_in(cfg, z),
                forall|t: int, r: Seq<Seq<char>>, z: Seq<char>| 0 <= t < i && #[trigger] rhs_set(cfg.vals@[t]@).contains(r) && #[trigger] r.contains(z) ==> used@.contains_key(z),
                forall|jj: int, z: Seq<char>| 0 <= jj < j && #[trigger] sv[jj].contains(z) ==> used@.contains_key(z),
            decreases ps.len() - j,
        {
            let rhs = &ps[j];
            assert(sv[j as int] == rhs_view(rhs@));
            assert(rhs_set(ps@).contains(sv[j as int]));
            let mut k: usize = 0;
            while k < rhs.len()
                invariant
                    k <= rhs.len(),
                    used.wf(),
                    i < cfg.keys.len(),
                    j < ps.len(),
                    *ps == cfg.vals@[i as int],
                    sv == set_view(ps@),
                    sv[j as int] == rhs_view(rhs@),
                    prods(cfg, cfg.key_at(i as int)).contains(sv[j as int]),
                    used@.contains_key(seq!['S']),
                    forall|z: Seq<char>| #[trigger] used@.contains_key(z) ==> z == seq!['S'] || occurs_in(cfg, z),
                    forall|t: int, r: Seq<Seq<char>>, z: Seq<char>| 0 <= t < i && #[trigger] rhs_set(cfg.vals@[t]@).contains(r) && #[trigger] r.contains(z) ==> used@.contains_key(z),
                    forall|jj: int, z: Seq<char>| 0 <= jj < j && #[trigger] sv[jj].contains(z) ==> used@.contains_key(z),
                    forall|kk: int| 0 <= kk < k ==> used@.contains_key((#[trigger] rhs@[kk])@),
                decreases rhs.len() - k,
            {
                proof {
                    let z = rhs@[k as int]@;
                    assert(sv[j as int][k as int] == z);
                    assert(sv[j as int].contains(z));
                    assert(occurs_in(cfg, z));
                }
                set_add(&mut used, &rhs[k]);
                k = k + 1;
            }
            proof {
                assert forall|jj: int, z: Seq<char>| 0 <= jj < j + 1 && #[trigger] sv[jj].contains(z) implies used@.contains_key(z) by {
                    if jj == j {
                        let kk = choose|kk: int| 0 <= kk < sv[jj].len() && sv[jj][kk] == z;
                        assert(rhs@[kk]@ == z);
                    }
                }
            }
            j = j + 1;
        }
        proof {
            assert forall|t: int, r: Seq<Seq<char>>, z: Seq<char>| 0 <= t < i + 1 && #[trigger] rhs_set(cfg.vals@[t]@).contains(r) && #[trigger] r.contains(z) implies used@.contains_key(z) by {
                if t == i {
                    let jj = choose|jj: int| 0 <= jj < sv.len() && sv[jj] == r;
                    assert(sv[jj].contains(z));
                }
            }
        }
        i = i + 1;
    }
    proof {
        assert forall|z: Seq<char>| occurs_in(cfg, z) implies #[trigger] used@.contains_key(z) by {
            let (k, r) = choose|k: Seq<char>, r: Seq<Seq<char>>| #[trigger] prods(cfg, k).contains(r) && r.contains(z);
            assert(cfg@.contains_key(k));
            let t = choose|t: int| 0 <= t < cfg.keys.len() && #[trigger] cfg.key_at(t) == k;
            crate::grammar::lemma_prods_at(cfg, t);
        }
    }
    let mut kept: SymMap<Vec<Sym>> = SymMap::new();
    let mut i: usize = 0;
    while i < terminal_map.len()
        invariant
            i <= terminal_map.keys.len(),
            terminal_map.wf(),
            used.wf(),
            kept.wf(),
            forall|x: Seq<char>| #[trigger] kept@.contains_key(x) ==> terminal_map@.contains_key(x) && used@.contains_key(x) && forall|z: Seq<char>| #[trigger] name_among(kept@[x]@, z) <==> name_among(terminal_map@[x]@, z),
            forall|t: int| 0 <= t < i && used@.contains_key(#[trigger] terminal_map.key_at(t)) ==> kept@.contains_key(terminal_map.key_at(t)),
        decreases terminal_map.keys.len() - i,
    {
        proof {
            terminal_map.lemma_pos(i as int);
        }
        if set_has(&used, &terminal_map.keys[i]) {
            let c = copy_names(&terminal_map.vals[i]);
            let ghost k0 = kept@;
            kept.insert(clone_sym(&terminal_map.keys[i]), c);
            proof {
                assert forall|x: Seq<char>| #[trigger] kept@.contains_key(x) implies terminal_map@.contains_key(x) && used@.contains_key(x) && forall|z: Seq<char>| #[trigger] name_among(kept@[x]@, z) <==> name_among(terminal_map@[x]@, z) by {
                    if x != terminal_map.key_at(i as int) {
                        assert(k0.contains_key(x));
                    }
                }
            }
        }
        i = i + 1;
    }
    proof {
        assert forall|x: Seq<char>| #[trigger] kept@.contains_key(x) implies x == seq!['S'] || occurs_in(cfg, x) by {}
        assert forall|u: int| 0 <= u < terminals.len() && ((#[trigger] terminals@[u])@ == seq!['S'] || occurs_in(cfg, terminals@[u]@)) implies kept@.contains_key(terminals@[u]@) && name_among(kept@[terminals@[u]@]@, terminals@[u]@) by {
            let x = terminals@[u]@;
            assert(terminal_map@.contains_key(x));
            let t = choose|t: int| 0 <= t < terminal_map.keys.len() && #[trigger] terminal_map.key_at(t) == x;
            assert(used@.contains_key(x));
        }
    }
    Ok(kept)
}

/// Keeps only the rules of symbols reachable from `S`.
pub fn remove_unreachable_symbols(cfg: &mut Grammar)
    requires
        grammar_wf(old(cfg)),
    ensures
        grammar_wf(final(cfg)),
        forall|x: Seq<char>| #[trigger] final(cfg)@.contains_key(x) <==> old(cfg)@.contains_key(x) && reachable_sym(old(cfg), x),
        forall|x: Seq<char>| final(cfg)@.contains_key(x) ==> #[trigger] prods(final(cfg), x) == prods(old(cfg), x),
        forall|x: Seq<char>| !final(cfg)@.contains_key(x) ==> #[trigger] prods(final(cfg), x) == Set::<Seq<Seq<char>>>::empty(),
{
    let ghost c0 = *cfg;
    let ghost universe = syms_upto(&c0, c0.keys.len() as int).insert(seq!['S']);
    proof {
        lemma_syms_upto_finite(&c0, c0.keys.len() as int);
        lemma_reach_start(&c0);
    }
    let s_name: Vec<char> = vec!['S'];
    assert(s_name@ =~= seq!['S']);
    let mut reachable: SymSet = SymMap::new();
    set_add(&mut reachable, &s_name);
    let mut prev: SymSet = SymMap::new();
    while prev.len() != reachable.len()
        invariant
            *cfg == c0,
            grammar_wf(cfg),
            universe == syms_upto(&c0, c0.keys.len() as int).insert(seq!['S']),
            universe.finite(),
            reachable.wf(),
            prev.wf(),
            reachable@.contains_key(seq!['S']),
            prev@.dom().subset_of(reachable@.dom()),
            reachable@.dom().subset_of(universe),
            forall|x: Seq<char>| #[trigger] reachable@.contains_key(x) ==> reachable_sym(&c0, x),
            forall|x: Seq<char>, y: Seq<char>| prev@.contains_key(x) && #[trigger] derives_step(&c0, x, y) ==> reachable@.contains_key(y),
        decreases universe.len() - prev.keys.len(),
    {
        proof {
            prev.lemma_dom_len();
            reachable.lemma_dom_len();
            vstd::set_lib::lemma_len_subset(reachable@.dom(), universe);
            vstd::set_lib::lemma_len_subset(prev@.dom(), reachable@.dom());
        }
        let ghost rk = reachable;
        let mut update: Vec<Sym> = Vec::new();
        let mut i: usize = 0;
        while i < reachable.len()
            invariant
                i <= reachable.keys.len(),
                reachable == rk,
                reachable.wf(),
                prev.wf(),
                forall|t: int| 0 <= t < update.len() ==> reachable@.contains_key(#[trigger] update@[t]@),
                forall|j: int| 0 <= j < i && !prev@.contains_key(#[trigger] reachable.key_at(j)) ==> exists|t: int| 0 <= t < update.len() && update@[t]@ == reachable.key_at(j),
            decreases reachable.keys.len() - i,
        {
            proof {
                reachable.lemma_pos(i as int);
            }
            if !set_has(&prev, &reachable.keys[i]) {
                let ghost u0 = update@;
                update.push(clone_sym(&reachable.keys[i]));
                proof {
                    assert(update@[update.len() - 1]@ == reachable.key_at(i as int));
                    assert forall|j: int| 0 <= j < i && !prev@.contains_key(#[trigger] reachable.key_at(j)) implies exists|t: int| 0 <= t < update.len() && update@[t]@ == reachable.key_at(j) by {
                        let t = choose|t: int| 0 <= t < u0.len() && u0[t]@ == reachable.key_at(j);
                        assert(update@[t] == u0[t]);
                    }
                }
            }
            i = i + 1;
        }
        let ghost p0 = prev@.dom();
        let ghost r0 = reachable@.dom();
        prev = clone_symset(&reachable);
        assert(prev@.dom() == r0);
        let mut u: usize = 0;
        while u < update.len()
            invariant
                u <= update.len(),
                *cfg == c0,
                grammar_wf(cfg),
                reachable.wf(),
                r0.subset_of(reachable@.dom()),
                reachable@.dom().subset_of(universe),
                universe == syms_upto(&c0, c0.keys.len() as int).insert(seq!['S']),
                forall|t: int| 0 <= t < update.len() ==> r0.contains(#[trigger] update@[t]@),
                forall|x: Seq<char>| #[trigger] reachable@.contains_key(x) ==> reachable_sym(&c0, x),
                forall|t: int, y: Seq<char>| 0 <= t < u && #[trigger] derives_step(&c0, update@[t]@, y) ==> reachable@.contains_key(y),
                forall|x: Seq<char>, y: Seq<char>| p0.contains(x) && #[trigger] derives_step(&c0, x, y) ==> r0.contains(y),
            decreases update.len() - u,
        {
            let ghost x = update@[u as int]@;
            let ghost rb = reachable@.dom();
            if let Some(ps) = cfg.get(&update[u]) {
                let ghost sv = set_view(ps@);
                assert(prods(&c0, x) == rhs_set(ps@));
                let mut j: usize = 0;
                while j < ps.len()
                    invariant
                        j <= ps.len(),
                        *cfg == c0,
                        reachable.wf(),
                        sv == set_view(ps@),
                        prods(&c0, x) == rhs_set(ps@),
                        r0.contains(x),
                        grammar_wf(&c0),
                        rb.subset_of(reachable@.dom()),
                        r0.subset_of(reachable@.dom()),
                        reachable@.dom().subset_of(universe),
                        universe == syms_upto(&c0, c0.keys.len() as int).insert(seq!['S']),
                        forall|z: Seq<char>| #[trigger] reachable@.contains_key(z) ==> reachable_sym(&c0, z),
                        forall|jj: int, y: Seq<char>| 0 <= jj < j && #[trigger] sv[jj].contains(y) ==> reachable@.contains_key(y),
                    decreases ps.len() - j,
                {
                    let rhs = &ps[j];
                    assert(sv[j as int] == rhs_view(rhs@));
                    assert(rhs_set(ps@).contains(sv[j as int]));
                    let mut k: usize = 0;
                    while k < rhs.len()
                        invariant
                            k <= rhs.len(),
                            *cfg == c0,
                            reachable.wf(),
                            sv == set_view(ps@),
                            j < ps.len(),
                            sv[j as int] == rhs_view(rhs@),
                            prods(&c0, x).contains(sv[j as int]),
                            r0.contains(x),
                            grammar_wf(&c0),
                            rb.subset_of(reachable@.dom()),
                            r0.subset_of(reachable@.dom()),
                            reachable@.dom().subset_of(universe),
                            universe == syms_upto(&c0, c0.keys.len() as int).insert(seq!['S']),
                            forall|z: Seq<char>| #[trigger] reachable@.contains_key(z) ==> reachable_sym(&c0, z),
                            forall|jj: int, y: Seq<char>| 0 <= jj < j && #[trigger] sv[jj].contains(y) ==> reachable@.contains_key(y),
                            forall|kk: int| 0 <= kk < k ==> reachable@.contains_key(#[trigger] rhs@[kk]@),
                        decreases rhs.len() - k,
                    {
                        proof {
                            let y = rhs@[k as int]@;
                            assert(sv[j as int][k as int] == y);
                            assert(sv[j as int].contains(y));
                            assert(derives_step(&c0, x, y));
                            lemma_reach_step(&c0, x, y);
                            lemma_syms_has(&c0, x, y);
                        }
                        set_add(&mut reachable, &rhs[k]);
                        k = k + 1;
                    }
                    proof {
                        assert forall|jj: int, y: Seq<char>| 0 <= jj < j + 1 && #[trigger] sv[jj].contains(y) implies reachable@.contains_key(y) by {
                            if jj == j {
                                let kk = choose|kk: int| 0 <= kk < sv[jj].len() && sv[jj][kk] == y;
                                assert(rhs@[kk]@ == y);
                            }
                        }
                    }
                    j = j + 1;
                }
                proof {
                    assert forall|y: Seq<char>| #[trigger] derives_step(&c0, x, y) implies reachable@.contains_key(y) by {
                        let r = choose|r: Seq<Seq<char>>| #[trigger] prods(&c0, x).contains(r) && r.contains(y);
                        let jj = choose|jj: int| 0 <= jj < sv.len() && sv[jj] == r;
                        assert(sv[jj].contains(y));
                    }
                }
            } else {
                proof {
                    assert forall|y: Seq<char>| !#[trigger] derives_step(&c0, x, y) by {
                        assert(prods(&c0, x) == Set::<Seq<Seq<char>>>::empty());
                    }
                }
            }
            proof {
                assert forall|t: int, y: Seq<char>| 0 <= t < u + 1 && #[trigger] derives_step(&c0, update@[t]@, y) implies reachable@.contains_key(y) by {
                    if t == u {
                        assert(update@[t]@ == x);
                    } else {
                        assert(rb.contains(y));
                    }
                }
            }
            u = u + 1;
        }
        proof {
            assert forall|x: Seq<char>, y: Seq<char>| prev@.contains_key(x) && #[trigger] derives_step(&c0, x, y) implies reachable@.contains_key(y) by {
                if p0.contains(x) {
                    assert(r0.contains(y));
                } else {
                    assert(rk@.contains_key(x));
                    let j = choose|j: int| 0 <= j < rk.keys.len() && #[trigger] rk.key_at(j) == x;
                    assert(!prev@.contains_key(rk.key_at(j)) || true);
                    let t = choose|t: int| 0 <= t < update.len() && update@[t]@ == rk.key_at(j);
                    assert(derives_step(&c0, update@[t]@, y));
                }
            }
        }
    }
    proof {
        prev.lemma_dom_len();
        reachable.lemma_dom_len();
        vstd::set_lib::lemma_subset_equality(prev@.dom(), reachable@.dom());
        assert forall|x: Seq<char>| #[trigger] reachable@.contains_key(x) <==> reachable_sym(&c0, x) by {
            if reachable_sym(&c0, x) {
                lemma_closed_has_reachable(&c0, reachable@.dom(), x);
            }
        }
    }
    let keys = keys_of(cfg);
    proof {
        assert forall|t: int| 0 <= t < keys.len() implies #[trigger] cfg@.contains_key(keys@[t]@) by {
            c0.lemma_pos(t);
        }
    }
    let mut j: usize = 0;
    while j < keys.len()
        invariant
            j <= keys.len(),
            keys.len() == c0.keys.len(),
            forall|t: int| 0 <= t < keys.len() ==> (#[trigger] keys@[t])@ == c0.keys@[t]@,
            grammar_wf(&c0),
            grammar_wf(cfg),
            reachable.wf(),
            forall|x: Seq<char>| #[trigger] reachable@.contains_key(x) <==> reachable_sym(&c0, x),
            forall|x: Seq<char>| #[trigger] cfg@.contains_key(x) ==> c0@.contains_key(x),
            forall|t: int| 0 <= t < j ==> (#[trigger] cfg@.contains_key(keys@[t]@) <==> reachable@.contains_key(keys@[t]@)),
            forall|t: int| j <= t < keys.len() ==> #[trigger] cfg@.contains_key(keys@[t]@),
            forall|x: Seq<char>| cfg@.contains_key(x) ==> #[trigger] prods(cfg, x) == prods(&c0, x),
            forall|x: Seq<char>| !cfg@.contains_key(x) ==> #[trigger] prods(cfg, x) == Set::<Seq<Seq<char>>>::empty(),
        decreases keys.len() - j,
    {
        proof {
            c0.lemma_pos(j as int);
            assert forall|t: int| 0 <= t < keys.len() && t != j implies keys@[t]@ != keys@[j as int]@ by {
                if keys@[t]@ == keys@[j as int]@ {
                    c0.lemma_unique(t, j as int);
                }
            }
        }
        if !set_has(&reachable, &keys[j]) {
            remove_key(cfg, &keys[j]);
        }
        j = j + 1;
    }
    proof {
        assert forall|x: Seq<char>| #[trigger] cfg@.contains_key(x) <==> c0@.contains_key(x) && reachable_sym(&c0, x) by {
            if c0@.contains_key(x) {
                let t = choose|t: int| 0 <= t < c0.keys.len() && #[trigger] c0.key_at(t) == x;
                assert(keys@[t]@ == x);
            }
        }
    }
}

fn starts_with_sym(beta: &Rhs, k: &Vec<char>) -> (r: bool)
    ensures
        r == (beta@.len() > 0 && beta@[0]@ == k@),
{
    beta.len() > 0 && eq_sym(&beta[0], k)
}

fn ends_with_sym(beta: &Rhs, k: &Vec<char>) -> (r: bool)
    ensures
        r == (beta@.len() > 0 && beta@[beta@.len() - 1]@ == k@),
{
    beta.len() > 0 && eq_sym(&beta[beta.len() - 1], k)
}

/// `beta[from..]` followed by `extra`.
fn tail_then(beta: &Rhs, from: usize, extra: &Rhs) -> (r: Rhs)
    requires
        from <= beta.len(),
    ensures
        rhs_view(r@) == rhs_view(beta@).skip(from as int) + rhs_view(extra@),
{
    let mut r: Rhs = Vec::new();
    let mut i: usize = from;
    while i < beta.len()
        invariant
            from <= i <= beta.len(),
            r.len() == i - from,
            forall|t: int| 0 <= t < r.len() ==> (#[trigger] r@[t])@ == beta@[from + t]@,
        decreases beta.len() - i,
    {
        r.push(clone_sym(&beta[i]));
        i = i + 1;
    }
    let n0 = r.len();
    let mut j: usize = 0;
    while j < extra.len()
        invariant
            j <= extra.len(),
            n0 == beta.len() - from,
            r.len() == n0 + j,
            forall|t: int| 0 <= t < n0 ==> (#[trigger] r@[t])@ == beta@[from + t]@,
            forall|t: int| n0 <= t < r.len() ==> (#[trigger] r@[t])@ == extra@[t - n0]@,
        decreases extra.len() - j,
    {
        r.push(clone_sym(&extra[j]));
        j = j + 1;
    }
    assert(rhs_view(r@) =~= rhs_view(beta@).skip(from as int) + rhs_view(extra@));
    r
}

/// The name `LR[k]`.
pub open spec fn lr_sym(k: Seq<char>) -> Seq<char> {
    seq!['L', 'R', '['] + k + seq![']']
}

/// `LR[k]`: the rule that collects the tails of `k`'s left-recursive
/// productions.
fn lr_name(k: &Vec<char>) -> (r: Vec<char>)
    ensures
        r@ == lr_sym(k@),
{
    wrap_name(&vec!['L', 'R', '['], k, &vec![']'])
}

/// Production `r` starts with `k`.
pub open spec fn starts_with(r: Seq<Seq<char>>, k: Seq<char>) -> bool {
    r.len() > 0 && r[0] == k
}

/// Some production starts with `k`.
pub open spec fn left_rec(ps: Set<Seq<Seq<char>>>, k: Seq<char>) -> bool {
    exists|b: Seq<Seq<char>>| #[trigger] ps.contains(b) && starts_with(b, k)
}

/// The productions of `k` that neither start with `k` nor end with
/// `LR[k]`, each followed by `LR[k]`.
pub open spec fn lr_tails(ps: Set<Seq<Seq<char>>>, k: Seq<char>) -> Set<Seq<Seq<char>>> {
    Set::new(|r: Seq<Seq<char>>| exists|p: Seq<Seq<char>>| #[trigger] ps.contains(p) && !starts_with(p, k) && !(p.len() > 0 && p.last() == lr_sym(k)) && r == p.push(lr_sym(k)))
}

/// The productions of `k` once its direct left recursion is eliminated:
/// unchanged without left recursion; otherwise those not starting with
/// `k`, and the same followed by `LR[k]`.
pub open spec fn elim_direct(ps: Set<Seq<Seq<char>>>, k: Seq<char>) -> Set<Seq<Seq<char>>> {
    if left_rec(ps, k) {
        ps.filter(|r: Seq<Seq<char>>| !starts_with(r, k)) + lr_tails(ps, k)
    } else {
        ps
    }
}

proof fn lemma_elim_direct_done(ps: Set<Seq<Seq<char>>>, k: Seq<char>)
    ensures
        !left_rec(elim_direct(ps, k), k),
{
    if left_rec(elim_direct(ps, k), k) {
        let b = choose|b: Seq<Seq<char>>| #[trigger] elim_direct(ps, k).contains(b) && starts_with(b, k);
        if left_rec(ps, k) {
            if lr_tails(ps, k).contains(b) {
                let p = choose|p: Seq<Seq<char>>| #[trigger] ps.contains(p) && !starts_with(p, k) && !(p.len() > 0 && p.last() == lr_sym(k)) && b == p.push(lr_sym(k));
                if p.len() > 0 {
                    assert(b[0] == p[0]);
                } else {
                    assert(b[0] == lr_sym(k));
                    assert(lr_sym(k).len() == k.len() + 4);
                }
            }
        }
    }
}

/// Eliminates the direct left recursion of `k` found in `prods`: every
/// production `k -> k beta` adds `LR[k] -> beta` and `LR[k] -> beta LR[k]`,
/// and the productions of `k` that neither start with `k` nor end with
/// `LR[k]` get a copy followed by `LR[k]`.
fn eliminate_left_recursion(cfg: &mut Grammar, k: &Vec<char>, ps: &Vec<Rhs>, beta: &Rhs, newp: &mut Vec<Rhs>)
    requires
        grammar_wf(old(cfg)),
        set_wf(old(newp)@),
        beta.len() >= 1,
    ensures
        grammar_wf(final(cfg)),
        set_wf(final(newp)@),
        final(cfg)@.dom() == old(cfg)@.dom().insert(lr_sym(k@)),
        forall|x: Seq<char>| x != lr_sym(k@) ==> #[trigger] prods(final(cfg), x) == prods(old(cfg), x),
        rhs_set(final(newp)@) == rhs_set(old(newp)@) + lr_tails(rhs_set(ps@), k@),
{
    let ghost n0 = rhs_set(newp@);
    let ghost sv = set_view(ps@);
    let ghost kk = k@;
    let lr = lr_name(k);
    let empty: Rhs = Vec::new();
    let t = tail_then(beta, 1, &empty);
    sdict_add(cfg, &lr, t);
    let rec = tail_then(beta, 1, &vec![clone_sym(&lr)]);
    sdict_add(cfg, &lr, rec);
    let mut m: usize = 0;
    while m < ps.len()
        invariant
            m <= ps.len(),
            set_wf(newp@),
            sv == set_view(ps@),
            kk == k@,
            lr@ == lr_sym(kk),
            rhs_set(newp@) == n0 + Set::new(|r: Seq<Seq<char>>| exists|j: int| 0 <= j < m && !starts_with(#[trigger] sv[j], kk) && !(sv[j].len() > 0 && sv[j].last() == lr_sym(kk)) && r == sv[j].push(lr_sym(kk))),
        decreases ps.len() - m,
    {
        let prod = &ps[m];
        let ghost nb = rhs_set(newp@);
        proof {
            assert(sv[m as int] == rhs_view(prod@));
        }
        let st = starts_with_sym(prod, k);
        let en = ends_with_sym(prod, &lr);
        if !st && !en {
            let one: Rhs = vec![clone_sym(&lr)];
            let p = tail_then(prod, 0, &one);
            proof {
                assert(rhs_view(one@) =~= seq![lr_sym(kk)]);
                assert(rhs_view(prod@).skip(0) =~= rhs_view(prod@));
                assert(rhs_view(p@) =~= sv[m as int].push(lr_sym(kk)));
            }
            rhs_set_insert(newp, p);
        }
        proof {
            let a = Set::new(|r: Seq<Seq<char>>| exists|j: int| 0 <= j < m + 1 && !starts_with(#[trigger] sv[j], kk) && !(sv[j].len() > 0 && sv[j].last() == lr_sym(kk)) && r == sv[j].push(lr_sym(kk)));
            let b = Set::new(|r: Seq<Seq<char>>| exists|j: int| 0 <= j < m && !starts_with(#[trigger] sv[j], kk) && !(sv[j].len() > 0 && sv[j].last() == lr_sym(kk)) && r == sv[j].push(lr_sym(kk)));
            let keep = !starts_with(sv[m as int], kk) && !(sv[m as int].len() > 0 && sv[m as int].last() == lr_sym(kk));
            assert(keep == (!st && !en)) by {
                if sv[m as int].len() > 0 {
                    assert(sv[m as int][0] == prod@[0]@);
                    assert(sv[m as int].last() == prod@[prod@.len() - 1]@);
                }
            }
            assert forall|r: Seq<Seq<char>>| #[trigger] a.contains(r) <==> b.contains(r) || (keep && r == sv[m as int].push(lr_sym(kk))) by {
                if a.contains(r) {
                    let j = choose|j: int| 0 <= j < m + 1 && !starts_with(#[trigger] sv[j], kk) && !(sv[j].len() > 0 && sv[j].last() == lr_sym(kk)) && r == sv[j].push(lr_sym(kk));
                    if j < m {
                        assert(b.contains(r));
                    }
                }
                if b.contains(r) {
                    let j = choose|j: int| 0 <= j < m && !starts_with(#[trigger] sv[j], kk) && !(sv[j].len() > 0 && sv[j].last() == lr_sym(kk)) && r == sv[j].push(lr_sym(kk));
                    assert(a.contains(r));
                }
                if keep && r == sv[m as int].push(lr_sym(kk)) {
                    assert(a.contains(r));
                }
            }
            assert(rhs_set(newp@) =~= n0 + a);
        }
        m = m + 1;
    }
    proof {
        let a = Set::new(|r: Seq<Seq<char>>| exists|j: int| 0 <= j < ps.len() && !starts_with(#[trigger] sv[j], kk) && !(sv[j].len() > 0 && sv[j].last() == lr_sym(kk)) && r == sv[j].push(lr_sym(kk)));
        assert forall|r: Seq<Seq<char>>| a.contains(r) <==> #[trigger] lr_tails(rhs_set(ps@), kk).contains(r) by {
            if a.contains(r) {
                let j = choose|j: int| 0 <= j < ps.len() && !starts_with(#[trigger] sv[j], kk) && !(sv[j].len() > 0 && sv[j].last() == lr_sym(kk)) && r == sv[j].push(lr_sym(kk));
                assert(rhs_set(ps@).contains(sv[j]));
            }
            if lr_tails(rhs_set(ps@), kk).contains(r) {
                let p = choose|p: Seq<Seq<char>>| #[trigger] rhs_set(ps@).contains(p) && !starts_with(p, kk) && !(p.len() > 0 && p.last() == lr_sym(kk)) && r == p.push(lr_sym(kk));
                let j = choose|j: int| 0 <= j < sv.len() && sv[j] == p;
                assert(a.contains(r));
            }
        }
        assert(a =~= lr_tails(rhs_set(ps@), kk));
    }
}

/// Whether two sets of right-hand sides hold the same right-hand sides.
fn same_set(a: &Vec<Rhs>, b: &Vec<Rhs>) -> (r: bool)
    ensures
        r == (rhs_set(a@) == rhs_set(b@)),
{
    let mut i: usize = 0;
    while i < a.len()
        invariant
            i <= a.len(),
            forall|j: int| 0 <= j < i ==> rhs_set(b@).contains(#[trigger] set_view(a@)[j]),
        decreases a.len() - i,
    {
        if !rhs_set_contains(b, &a[i]) {
            proof {
                assert(rhs_set(a@).contains(set_view(a@)[i as int]));
                assert(set_view(a@)[i as int] == rhs_view(a@[i as int]@));
            }
            return false;
        }
        proof {
            assert(set_view(a@)[i as int] == rhs_view(a@[i as int]@));
        }
        i = i + 1;
    }
    let mut i: usize = 0;
    while i < b.len()
        invariant
            i <= b.len(),
            forall|j: int| 0 <= j < i ==> rhs_set(a@).contains(#[trigger] set_view(b@)[j]),
        decreases b.len() - i,
    {
        if !rhs_set_contains(a, &b[i]) {
            proof {
                assert(rhs_set(b@).contains(set_view(b@)[i as int]));
                assert(set_view(b@)[i as int] == rhs_view(b@[i as int]@));
            }
            return false;
        }
        proof {
            assert(set_view(b@)[i as int] == rhs_view(b@[i as int]@));
        }
        i = i + 1;
    }
    proof {
        assert forall|x: Seq<Seq<char>>| rhs_set(a@).contains(x) <==> rhs_set(b@).contains(x) by {
            if rhs_set(a@).contains(x) {
                let j = choose|j: int| 0 <= j < set_view(a@).len() && set_view(a@)[j] == x;
            }
            if rhs_set(b@).contains(x) {
                let j = choose|j: int| 0 <= j < set_view(b@).len() && set_view(b@)[j] == x;
            }
        }
        assert(rhs_set(a@) =~= rhs_set(b@));
    }
    true
}

fn keys_of(cfg: &Grammar) -> (r: Vec<Sym>)
    ensures
        r.len() == cfg.keys.len(),
        forall|j: int| 0 <= j < r.len() ==> (#[trigger] r@[j])@ == cfg.keys@[j]@,
{
    let mut keys: Vec<Sym> = Vec::new();
    let mut j: usize = 0;
    while j < cfg.keys.len()
        invariant
            j <= cfg.keys.len(),
            keys.len() == j,
            forall|i: int| 0 <= i < j ==> (#[trigger] keys@[i])@ == cfg.keys@[i]@,
        decreases cfg.keys.len() - j,
    {
        keys.push(clone_sym(&cfg.keys[j]));
        j = j + 1;
    }
    keys
}

/// The total length of the first `n` right-hand sides, saturating at
/// `usize::MAX`.
pub open spec fn total_len(ps: Seq<Seq<Seq<char>>>, n: int) -> int
    decreases n,
{
    if n <= 0 {
        0
    } else {
        let t = total_len(ps, n - 1) + ps[n - 1].len();
        if t <= usize::MAX { t } else { usize::MAX as int }
    }
}

/// The weight of a name: the total length of its productions (`0` for a
/// name without a rule).
pub open spec fn weight_of(cfg: &Grammar, z: Seq<char>) -> int {
    if cfg@.contains_key(z) {
        total_len(set_view(cfg@[z]@), cfg@[z]@.len() as int)
    } else {
        0
    }
}

/// Total length of the productions of `z`.
fn weight(cfg: &Grammar, z: &Vec<char>) -> (w: usize)
    requires
        grammar_wf(cfg),
    ensures
        w == weight_of(cfg, z@),
{
    match cfg.get(z) {
        Some(ps) => {
            let mut t: usize = 0;
            let mut i: usize = 0;
            while i < ps.len()
                invariant
                    i <= ps.len(),
                    t == total_len(set_view(ps@), i as int),
                decreases ps.len() - i,
            {
                assert(set_view(ps@)[i as int].len() == ps@[i as int].len());
                t = if t <= usize::MAX - ps[i].len() { t + ps[i].len() } else { usize::MAX };
                i = i + 1;
            }
            t
        },
        None => 0,
    }
}

/// `r` holds the names in the order `idx` picks them: each name once,
/// heavier names first, and names of equal weight in their given order.
pub open spec fn sorted_as(cfg: &Grammar, names: Seq<Sym>, r: Seq<Sym>, idx: Seq<int>) -> bool {
    &&& idx.len() == r.len()
    &&& r.len() == names.len()
    &&& forall|t: int| 0 <= t < r.len() ==> 0 <= #[trigger] idx[t] < names.len() && r[t]@ == names[idx[t]]@
    &&& forall|t: int, u: int| 0 <= t < u < r.len() ==> #[trigger] idx[t] != #[trigger] idx[u]
    &&& forall|t: int, u: int| 0 <= t < u < r.len() ==> weight_of(cfg, (#[trigger] r[t])@) >= weight_of(cfg, (#[trigger] r[u])@)
    &&& forall|t: int, u: int| 0 <= t < u < r.len() && weight_of(cfg, (#[trigger] r[t])@) == weight_of(cfg, (#[trigger] r[u])@) ==> idx[t] < idx[u]
}

/// `r` is `names` stably sorted by decreasing weight.
pub open spec fn stably_sorted(cfg: &Grammar, names: Seq<Sym>, r: Seq<Sym>) -> bool {
    exists|idx: Seq<int>| #[trigger] sorted_as(cfg, names, r, idx)
}

/// Orders names by decreasing weight, keeping the given order among equal
/// weights (a stable sort by `Reverse(weight)`).
fn sort_by_weight_desc(cfg: &Grammar, names: Vec<Sym>) -> (r: Vec<Sym>)
    requires
        grammar_wf(cfg),
    ensures
        r.len() == names.len(),
        forall|t: int| 0 <= t < r.len() ==> name_among(names@, (#[trigger] r@[t])@),
        stably_sorted(cfg, names@, r@),
{
    let mut ws: Vec<usize> = Vec::new();
    let mut out: Vec<Sym> = Vec::new();
    let ghost mut idx: Seq<int> = Seq::empty();
    let mut i: usize = 0;
    while i < names.len()
        invariant
            i <= names.len(),
            grammar_wf(cfg),
            ws.len() == out.len(),
            out.len() == i,
            idx.len() == out.len(),
            forall|t: int| 0 <= t < out.len() ==> 0 <= #[trigger] idx[t] < i && out@[t]@ == names@[idx[t]]@,
            forall|t: int| 0 <= t < out.len() ==> #[trigger] ws@[t] == weight_of(cfg, out@[t]@),
            forall|t: int, u: int| 0 <= t < u < out.len() ==> #[trigger] idx[t] != #[trigger] idx[u],
            forall|t: int, u: int| 0 <= t < u < out.len() ==> #[trigger] ws@[t] >= #[trigger] ws@[u],
            forall|t: int, u: int| 0 <= t < u < out.len() && #[trigger] ws@[t] == #[trigger] ws@[u] ==> idx[t] < idx[u],
        decreases names.len() - i,
    {
        let w = weight(cfg, &names[i]);
        let mut pos: usize = out.len();
        while pos > 0 && ws[pos - 1] < w
            invariant
                pos <= out.len(),
                ws.len() == out.len(),
                forall|t: int| pos <= t < out.len() ==> #[trigger] ws@[t] < w,
            decreases pos,
        {
            pos = pos - 1;
        }
        let ghost w0 = ws@;
        ws.insert(pos, w);
        let ghost o0 = out@;
        let ghost i0 = idx;
        let c = clone_sym(&names[i]);
        out.insert(pos, c);
        proof {
            idx = idx.insert(pos as int, i as int);
            assert forall|t: int| 0 <= t < pos implies #[trigger] w0[t] >= w by {
                assert(w0[t] >= w0[pos - 1]);
            }
            assert forall|t: int| 0 <= t < out.len() implies 0 <= #[trigger] idx[t] < i + 1 && out@[t]@ == names@[idx[t]]@ by {
                if t < pos {
                    assert(out@[t] == o0[t] && idx[t] == i0[t]);
                } else if t == pos {
                } else {
                    assert(out@[t] == o0[t - 1] && idx[t] == i0[t - 1]);
                }
            }
            assert forall|t: int| 0 <= t < out.len() implies #[trigger] ws@[t] == weight_of(cfg, out@[t]@) by {
                if t < pos {
                    assert(out@[t] == o0[t] && ws@[t] == w0[t]);
                } else if t == pos {
                } else {
                    assert(out@[t] == o0[t - 1] && ws@[t] == w0[t - 1]);
                }
            }
            assert forall|t: int, u: int| 0 <= t < u < out.len() implies #[trigger] idx[t] != #[trigger] idx[u] && #[trigger] ws@[t] >= #[trigger] ws@[u] && (ws@[t] == ws@[u] ==> idx[t] < idx[u]) by {
                let tt = if t < pos { t } else { t - 1 };
                let uu = if u < pos { u } else { u - 1 };
                if t != pos && u != pos {
                    assert(idx[t] == i0[tt] && idx[u] == i0[uu] && ws@[t] == w0[tt] && ws@[u] == w0[uu]);
                    assert(tt < uu);
                } else if t == pos {
                    assert(idx[u] == i0[uu] && ws@[u] == w0[uu]);
                    assert(uu >= pos);
                } else {
                    assert(idx[t] == i0[tt] && ws@[t] == w0[tt]);
                    assert(tt < pos);
                }
            }
        }
        i = i + 1;
    }
    proof {
        assert forall|t: int| 0 <= t < out.len() implies name_among(names@, (#[trigger] out@[t])@) by {
            let u = idx[t];
            assert(names@[u]@ == out@[t]@);
        }
        assert forall|t: int, u: int| 0 <= t < u < out.len() implies weight_of(cfg, (#[trigger] out@[t])@) >= weight_of(cfg, (#[trigger] out@[u])@) && (weight_of(cfg, out@[t]@) == weight_of(cfg, out@[u]@) ==> idx[t] < idx[u]) by {
            assert(ws@[t] >= ws@[u]);
        }
        assert(sorted_as(cfg, names@, out@, idx));
    }
    out
}

/// `x` is one of the names.
pub open spec fn name_among(names: Seq<Sym>, x: Seq<char>) -> bool {
    exists|u: int| 0 <= u < names.len() && (#[trigger] names[u])@ == x
}

/// One production after one round of substitution of its leading
/// symbol: dropped when empty; kept when it starts with a preterminal or a
/// name without a rule; otherwise each production of its leading symbol
/// followed by its rest.
pub open spec fn subst_step(cfg: &Grammar, pre: Set<Seq<char>>, beta: Seq<Seq<char>>) -> Set<Seq<Seq<char>>> {
    if beta.len() == 0 {
        Set::empty()
    } else if pre.contains(beta[0]) || !cfg@.contains_key(beta[0]) {
        set![beta]
    } else {
        Set::new(|r: Seq<Seq<char>>| exists|p: Seq<Seq<char>>| #[trigger] prods(cfg, beta[0]).contains(p) && r == p + beta.skip(1))
    }
}

/// The productions after one round of substitution.
pub open spec fn subst_all(cfg: &Grammar, pre: Set<Seq<char>>, ps: Set<Seq<Seq<char>>>) -> Set<Seq<Seq<char>>> {
    Set::new(|r: Seq<Seq<char>>| exists|beta: Seq<Seq<char>>| #[trigger] ps.contains(beta) && subst_step(cfg, pre, beta).contains(r))
}

/// Some production starts with a name that has a rule and is no
/// preterminal.
pub open spec fn needs_subst(cfg: &Grammar, pre: Set<Seq<char>>, ps: Set<Seq<Seq<char>>>) -> bool {
    exists|beta: Seq<Seq<char>>| #[trigger] ps.contains(beta) && beta.len() > 0 && !pre.contains(beta[0]) && cfg@.contains_key(beta[0])
}

/// The rank of `x` in the order `o`; `usize::MAX` for a name outside it.
pub open spec fn ord_of(o: Map<Seq<char>, usize>, x: Seq<char>) -> int {
    if o.contains_key(x) { o[x] as int } else { usize::MAX as int }
}

/// The rank of each name in the map `o`.
pub open spec fn ord_rank(o: Map<Seq<char>, usize>) -> spec_fn(Seq<char>) -> int {
    |x: Seq<char>| ord_of(o, x)
}

/// The position of the last occurrence of `x` in `keys`; `usize::MAX`
/// for a name that does not occur.
pub open spec fn last_pos(keys: Seq<Sym>, x: Seq<char>) -> int
    decreases keys.len(),
{
    if keys.len() == 0 {
        usize::MAX as int
    } else if keys.last()@ == x {
        keys.len() - 1
    } else {
        last_pos(keys.drop_last(), x)
    }
}

/// The rank of each name by its last position in `keys`.
pub open spec fn keys_rank(keys: Seq<Sym>) -> spec_fn(Seq<char>) -> int {
    |x: Seq<char>| last_pos(keys, x)
}

proof fn lemma_last_pos(keys: Seq<Sym>, x: Seq<char>)
    requires
        keys.len() <= usize::MAX,
    ensures
        last_pos(keys, x) == usize::MAX || (0 <= last_pos(keys, x) < keys.len() && keys[last_pos(keys, x)]@ == x),
        (exists|t: int| 0 <= t < keys.len() && (#[trigger] keys[t])@ == x) ==> 0 <= last_pos(keys, x) < keys.len(),
    decreases keys.len(),
{
    if keys.len() > 0 {
        lemma_last_pos(keys.drop_last(), x);
        if keys.last()@ != x && exists|t: int| 0 <= t < keys.len() && (#[trigger] keys[t])@ == x {
            let t = choose|t: int| 0 <= t < keys.len() && (#[trigger] keys[t])@ == x;
            assert(t < keys.len() - 1);
            assert(keys.drop_last()[t] == keys[t]);
        }
    }
}

/// Production `beta` of `k` is settled: it is empty, or starts with a
/// preterminal, a name ranked after `k`, or a name other than `k` without
/// a rule.
pub open spec fn settled_prod(cfg: &Grammar, k: Seq<char>, pre: Set<Seq<char>>, rank: spec_fn(Seq<char>) -> int, beta: Seq<Seq<char>>) -> bool {
    beta.len() == 0 || pre.contains(beta[0]) || rank(beta[0]) > rank(k) || (beta[0] != k && !cfg@.contains_key(beta[0]))
}

/// Every production of `k` is settled.
pub open spec fn settled(cfg: &Grammar, k: Seq<char>, pre: Set<Seq<char>>, rank: spec_fn(Seq<char>) -> int) -> bool {
    forall|beta: Seq<Seq<char>>| #[trigger] prods(cfg, k).contains(beta) ==> settled_prod(cfg, k, pre, rank, beta)
}

/// Settled productions stay settled when other rules change and only a
/// name ranked after `k` may gain a rule.
proof fn lemma_settled_keep(c1: &Grammar, c2: &Grammar, k: Seq<char>, pre: Set<Seq<char>>, rank: spec_fn(Seq<char>) -> int, l: Seq<char>)
    requires
        settled(c1, k, pre, rank),
        prods(c2, k) == prods(c1, k),
        c2@.dom().subset_of(c1@.dom().insert(l)),
        !c1@.contains_key(l) ==> rank(l) > rank(k),
    ensures
        settled(c2, k, pre, rank),
{
    assert forall|beta: Seq<Seq<char>>| #[trigger] prods(c2, k).contains(beta) implies settled_prod(c2, k, pre, rank, beta) by {
        assert(settled_prod(c1, k, pre, rank, beta));
    }
}

/// Substitutes leading non-terminals of `k`'s productions: a production
/// starting with a preterminal (or, with `ord`, a symbol ordered after
/// `k` or not ordered) stays; one starting with `k` itself has its left
/// recursion eliminated (only with `ord`); one starting with another
/// non-terminal is replaced by that non-terminal's productions followed by
/// its rest. Empty productions are dropped. Returns whether anything
/// changed and the new set.
fn substitute_round(cfg: &mut Grammar, k: &Vec<char>, preterminals: &SymSet, ord: Option<&SymMap<usize>>) -> (r: (bool, Vec<Rhs>))
    requires
        grammar_wf(old(cfg)),
        preterminals.wf(),
        ord matches Some(o) ==> o.wf(),
    ensures
        grammar_wf(final(cfg)),
        set_wf(r.1@),
        old(cfg)@.dom().subset_of(final(cfg)@.dom()),
        final(cfg)@.dom().subset_of(old(cfg)@.dom().insert(lr_sym(k@))),
        ord is None ==> *final(cfg) == *old(cfg),
        ord is None ==> rhs_set(r.1@) == subst_all(old(cfg), preterminals@.dom(), prods(old(cfg), k@)),
        ord is None ==> r.0 == needs_subst(old(cfg), preterminals@.dom(), prods(old(cfg), k@)),
        forall|x: Seq<char>| x != lr_sym(k@) ==> #[trigger] prods(final(cfg), x) == prods(old(cfg), x),
        ord matches Some(o) ==> (!r.0 ==> *final(cfg) == *old(cfg) && settled(old(cfg), k@, preterminals@.dom(), ord_rank(o@))),
{
    let ghost c0 = *cfg;
    let ghost pre = preterminals@.dom();
    let ps = get_set(cfg, k);
    let ghost sv = set_view(ps@);
    let mut changed = false;
    let mut newp: Vec<Rhs> = Vec::new();
    proof {
        assert(set_view(newp@) =~= Seq::<Seq<Seq<char>>>::empty());
    }
    let k_ord: usize = match ord {
        Some(o) => match o.get(k) {
            Some(v) => *v,
            None => usize::MAX,
        },
        None => 0,
    };
    let mut i: usize = 0;
    while i < ps.len()
        invariant
            i <= ps.len(),
            grammar_wf(cfg),
            preterminals.wf(),
            ord matches Some(o) ==> o.wf(),
            set_wf(newp@),
            c0@.dom().subset_of(cfg@.dom()),
            cfg@.dom().subset_of(c0@.dom().insert(lr_sym(k@))),
            ord is None ==> *cfg == c0,
            sv == set_view(ps@),
            rhs_set(ps@) == prods(&c0, k@),
            pre == preterminals@.dom(),
            ord is None ==> rhs_set(newp@) == Set::new(|r: Seq<Seq<char>>| exists|j: int| 0 <= j < i && #[trigger] subst_step(&c0, pre, sv[j]).contains(r)),
            ord is None ==> changed == exists|j: int| 0 <= j < i && sv[j].len() > 0 && !pre.contains(#[trigger] sv[j][0]) && c0@.contains_key(sv[j][0]),
            forall|x: Seq<char>| x != lr_sym(k@) ==> #[trigger] prods(cfg, x) == prods(&c0, x),
            !changed ==> *cfg == c0,
            ord matches Some(o) ==> k_ord == ord_of(o@, k@),
            ord matches Some(o) ==> (!changed ==> forall|j: int| 0 <= j < i ==> #[trigger] settled_prod(&c0, k@, pre, ord_rank(o@), sv[j])),
        decreases ps.len() - i,
    {
        let beta = &ps[i];
        let ghost bv = rhs_view(beta@);
        assert(sv[i as int] == bv);
        let ghost n0 = rhs_set(newp@);
        let ghost ch0 = changed;
        if beta.len() > 0 {
            let beta0 = &beta[0];
            let later = match ord {
                Some(o) => {
                    let b_ord = match o.get(beta0) {
                        Some(v) => *v,
                        None => usize::MAX,
                    };
                    b_ord > k_ord
                },
                None => false,
            };
            if set_has(preterminals, beta0) || later {
                rhs_set_insert(&mut newp, clone_rhs(beta));
            } else if ord.is_some() && eq_sym(beta0, k) {
                eliminate_left_recursion(cfg, k, &ps, beta, &mut newp);
                changed = true;
            } else if cfg.contains_key(beta0) {
                let subs = get_set(cfg, beta0);
                let ghost uv = set_view(subs@);
                let empty_tail: Rhs = Vec::new();
                let rest = tail_then(beta, 1, &empty_tail);
                assert(rhs_view(rest@) =~= bv.skip(1));
                let mut m: usize = 0;
                while m < subs.len()
                    invariant
                        m <= subs.len(),
                        set_wf(newp@),
                        uv == set_view(subs@),
                        rhs_view(rest@) == bv.skip(1),
                        rhs_set(newp@) == n0 + Set::new(|r: Seq<Seq<char>>| exists|mm: int| 0 <= mm < m && r == #[trigger] uv[mm] + bv.skip(1)),
                    decreases subs.len() - m,
                {
                    let p = tail_then(&subs[m], 0, &rest);
                    let ghost nb = rhs_set(newp@);
                    assert(uv[m as int] == rhs_view(subs@[m as int]@));
                    assert(rhs_view(subs@[m as int]@).skip(0) =~= rhs_view(subs@[m as int]@));
                    rhs_set_insert(&mut newp, p);
                    proof {
                        let a = Set::new(|r: Seq<Seq<char>>| exists|mm: int| 0 <= mm < m + 1 && r == #[trigger] uv[mm] + bv.skip(1));
                        let b = Set::new(|r: Seq<Seq<char>>| exists|mm: int| 0 <= mm < m && r == #[trigger] uv[mm] + bv.skip(1));
                        assert forall|r: Seq<Seq<char>>| a.contains(r) <==> #[trigger] b.insert(uv[m as int] + bv.skip(1)).contains(r) by {
                            if a.contains(r) {
                                let mm = choose|mm: int| 0 <= mm < m + 1 && r == #[trigger] uv[mm] + bv.skip(1);
                                if mm < m {
                                    assert(b.contains(r));
                                }
                            }
                            if b.contains(r) {
                                let mm = choose|mm: int| 0 <= mm < m && r == #[trigger] uv[mm] + bv.skip(1);
                                assert(a.contains(r));
                            }
                        }
                        assert(a =~= b.insert(uv[m as int] + bv.skip(1)));
                        assert(rhs_set(newp@) =~= n0 + a);
                    }
                    m = m + 1;
                }
                changed = true;
                proof {
                    if ord is None {
                        assert(!pre.contains(bv[0]) && c0@.contains_key(bv[0]));
                        let c = Set::new(|r: Seq<Seq<char>>| exists|mm: int| 0 <= mm < subs.len() && r == #[trigger] uv[mm] + bv.skip(1));
                        assert forall|r: Seq<Seq<char>>| c.contains(r) <==> #[trigger] subst_step(&c0, pre, bv).contains(r) by {
                            if c.contains(r) {
                                let mm = choose|mm: int| 0 <= mm < subs.len() && r == #[trigger] uv[mm] + bv.skip(1);
                                assert(rhs_set(subs@).contains(uv[mm]));
                            }
                            if subst_step(&c0, pre, bv).contains(r) {
                                let q = choose|q: Seq<Seq<char>>| #[trigger] prods(&c0, bv[0]).contains(q) && r == q + bv.skip(1);
                                let mm = choose|mm: int| 0 <= mm < uv.len() && uv[mm] == q;
                                assert(c.contains(r));
                            }
                        }
                        assert(c =~= subst_step(&c0, pre, bv));
                    }
                }
            } else {
                rhs_set_insert(&mut newp, clone_rhs(beta));
            }
        }
        proof {
            if ord is None {
                assert(rhs_set(newp@) == n0 + subst_step(&c0, pre, bv)) by {
                    if bv.len() == 0 {
                        assert(subst_step(&c0, pre, bv) =~= Set::<Seq<Seq<char>>>::empty());
                        assert(rhs_set(newp@) =~= n0 + subst_step(&c0, pre, bv));
                    } else if pre.contains(bv[0]) || !c0@.contains_key(bv[0]) {
                        assert(rhs_set(newp@) =~= n0 + subst_step(&c0, pre, bv));
                    }
                }
                let a = Set::new(|r: Seq<Seq<char>>| exists|j: int| 0 <= j < i + 1 && #[trigger] subst_step(&c0, pre, sv[j]).contains(r));
                let b = Set::new(|r: Seq<Seq<char>>| exists|j: int| 0 <= j < i && #[trigger] subst_step(&c0, pre, sv[j]).contains(r));
                assert forall|r: Seq<Seq<char>>| #[trigger] a.contains(r) <==> (b + subst_step(&c0, pre, bv)).contains(r) by {
                    if a.contains(r) {
                        let j = choose|j: int| 0 <= j < i + 1 && #[trigger] subst_step(&c0, pre, sv[j]).contains(r);
                        if j < i {
                            assert(b.contains(r));
                        }
                    }
                    if b.contains(r) {
                        let j = choose|j: int| 0 <= j < i && #[trigger] subst_step(&c0, pre, sv[j]).contains(r);
                        assert(a.contains(r));
                    }
                }
                assert(a =~= b + subst_step(&c0, pre, bv));
                assert(changed == exists|j: int| 0 <= j < i + 1 && sv[j].len() > 0 && !pre.contains(#[trigger] sv[j][0]) && c0@.contains_key(sv[j][0])) by {
                    if exists|j: int| 0 <= j < i + 1 && sv[j].len() > 0 && !pre.contains(#[trigger] sv[j][0]) && c0@.contains_key(sv[j][0]) {
                        let j = choose|j: int| 0 <= j < i + 1 && sv[j].len() > 0 && !pre.contains(#[trigger] sv[j][0]) && c0@.contains_key(sv[j][0]);
                        if j < i {
                            assert(ch0);
                        }
                    }
                }
            }
        }
        i = i + 1;
    }
    proof {
        if ord is None {
            let a = Set::new(|r: Seq<Seq<char>>| exists|j: int| 0 <= j < ps.len() && #[trigger] subst_step(&c0, pre, sv[j]).contains(r));
            assert forall|r: Seq<Seq<char>>| #[trigger] a.contains(r) <==> subst_all(&c0, pre, prods(&c0, k@)).contains(r) by {
                if a.contains(r) {
                    let j = choose|j: int| 0 <= j < ps.len() && #[trigger] subst_step(&c0, pre, sv[j]).contains(r);
                    assert(prods(&c0, k@).contains(sv[j]));
                }
                if subst_all(&c0, pre, prods(&c0, k@)).contains(r) {
                    let beta = choose|beta: Seq<Seq<char>>| #[trigger] prods(&c0, k@).contains(beta) && subst_step(&c0, pre, beta).contains(r);
                    let j = choose|j: int| 0 <= j < sv.len() && sv[j] == beta;
                    assert(a.contains(r));
                }
            }
            assert(a =~= subst_all(&c0, pre, prods(&c0, k@)));
            assert(changed == needs_subst(&c0, pre, prods(&c0, k@))) by {
                if changed {
                    let j = choose|j: int| 0 <= j < ps.len() && sv[j].len() > 0 && !pre.contains(#[trigger] sv[j][0]) && c0@.contains_key(sv[j][0]);
                    assert(prods(&c0, k@).contains(sv[j]));
                }
                if needs_subst(&c0, pre, prods(&c0, k@)) {
                    let beta = choose|beta: Seq<Seq<char>>| #[trigger] prods(&c0, k@).contains(beta) && beta.len() > 0 && !pre.contains(beta[0]) && c0@.contains_key(beta[0]);
                    let j = choose|j: int| 0 <= j < sv.len() && sv[j] == beta;
                }
            }
        }
    }
    (changed, newp)
}

/// A name of the form `LR[..]`.
pub open spec fn is_lr_name(x: Seq<char>) -> bool {
    exists|k: Seq<char>| #[trigger] lr_sym(k) == x
}

/// A name that a rule of `g0`, the start rule or an `LR[..]` rule can
/// have.
pub open spec fn name_from(g0: &Grammar, x: Seq<char>) -> bool {
    g0@.contains_key(x) || x == seq!['S'] || is_lr_name(x)
}

/// No preterminal is the name of a rule of `g`, `S` or an `LR[..]` name.
pub open spec fn pre_apart(g: &Grammar, pre: Set<Seq<char>>) -> bool {
    forall|p: Seq<char>| #[trigger] pre.contains(p) ==> !g@.contains_key(p) && p != seq!['S'] && !is_lr_name(p)
}

/// Every production is non-empty and starts with a preterminal or with a
/// name that has no rule in `g`.
pub open spec fn heads_ok(ps: Set<Seq<Seq<char>>>, pre: Set<Seq<char>>, g: &Grammar) -> bool {
    forall|r: Seq<Seq<char>>| #[trigger] ps.contains(r) ==> r.len() >= 1 && (pre.contains(r[0]) || !g@.contains_key(r[0]))
}

/// The productions of `S` are in Greibach form: each starts with a
/// preterminal or with a name that has no rule.
pub open spec fn start_greibach(g: &Grammar, pre: Set<Seq<char>>) -> bool {
    heads_ok(prods(g, seq!['S']), pre, g)
}

proof fn lemma_lr_not_start(x: Seq<char>)
    requires
        is_lr_name(x),
    ensures
        x != seq!['S'],
{
    let k = choose|k: Seq<char>| #[trigger] lr_sym(k) == x;
    assert(lr_sym(k).len() >= 4);
}

/// No two rules other than `S` have the same set of productions.
pub open spec fn distinct_rules(g: &Grammar) -> bool {
    forall|x: Seq<char>, y: Seq<char>| g@.contains_key(x) && g@.contains_key(y) && x != y && x != seq!['S'] && y != seq!['S'] ==> #[trigger] prods(g, x) != #[trigger] prods(g, y)
}

/// Eliminates the direct left recursion of each rule in turn, until no
/// production of the rule starts with the rule's own name.
fn eliminate_direct_left_recursion(cfg: &mut Grammar, Ghost(g0): Ghost<Grammar>) -> (r: Result<(), CfgError>)
    requires
        grammar_wf(old(cfg)),
        grammar_wf(&g0),
        *old(cfg) == g0,
    ensures
        grammar_wf(final(cfg)),
        forall|x: Seq<char>| #[trigger] final(cfg)@.contains_key(x) ==> name_from(&g0, x),
        r is Ok,
        forall|x: Seq<char>| !is_lr_name(x) ==> #[trigger] prods(final(cfg), x) == elim_direct(prods(&g0, x), x),
{
    proof {
        assert forall|x: Seq<char>| #[trigger] cfg@.contains_key(x) implies name_from(&g0, x) by {}
    }
    let keys = keys_of(cfg);
    let mut ki: usize = 0;
    while ki < keys.len()
        invariant
            ki <= keys.len(),
            grammar_wf(cfg),
            grammar_wf(&g0),
            keys.len() == g0.keys.len(),
            forall|t: int| 0 <= t < keys.len() ==> (#[trigger] keys@[t])@ == g0.keys@[t]@,
            forall|x: Seq<char>| #[trigger] cfg@.contains_key(x) ==> name_from(&g0, x),
            forall|x: Seq<char>| !is_lr_name(x) ==> #[trigger] prods(cfg, x) == if (exists|t: int| 0 <= t < ki && (#[trigger] keys@[t])@ == x) {
                elim_direct(prods(&g0, x), x)
            } else {
                prods(&g0, x)
            },
        decreases keys.len() - ki,
    {
        let k = &keys[ki];
        let ghost cb = *cfg;
        let ghost kv = k@;
        let ghost p0 = prods(cfg, k@);
        proof {
            g0.lemma_pos(ki as int);
            assert(name_from(&g0, k@));
            assert(is_lr_name(lr_sym(k@)));
            if !is_lr_name(kv) {
                if exists|t: int| 0 <= t < ki && (#[trigger] keys@[t])@ == kv {
                    let t = choose|t: int| 0 <= t < ki && (#[trigger] keys@[t])@ == kv;
                    g0.lemma_unique(t, ki as int);
                }
                assert(p0 == prods(&g0, kv));
            }
        }
        let mut changed = true;
        while changed
            invariant
                grammar_wf(cfg),
                name_from(&g0, k@),
                kv == k@,
                is_lr_name(lr_sym(k@)),
                forall|x: Seq<char>| #[trigger] cfg@.contains_key(x) ==> name_from(&g0, x),
                prods(cfg, kv) == p0 || prods(cfg, kv) == elim_direct(p0, kv),
                !changed ==> prods(cfg, kv) == elim_direct(p0, kv),
                forall|x: Seq<char>| x != kv && x != lr_sym(kv) ==> #[trigger] prods(cfg, x) == prods(&cb, x),
            decreases (if changed { 1int } else { 0int }) + (if left_rec(prods(cfg, kv), kv) { 1int } else { 0int }),
        {
            changed = false;
            let ghost ci = *cfg;
            let ps = get_set(cfg, k);
            let ghost cur = prods(cfg, kv);
            let ghost sv = set_view(ps@);
            let mut newp: Vec<Rhs> = Vec::new();
            proof {
                assert(set_view(newp@) =~= Seq::<Seq<Seq<char>>>::empty());
                assert(rhs_set(newp@) =~= Set::<Seq<Seq<char>>>::empty());
            }
            let mut i: usize = 0;
            while i < ps.len()
                invariant
                    i <= ps.len(),
                    grammar_wf(cfg),
                    set_wf(newp@),
                    kv == k@,
                    is_lr_name(lr_sym(k@)),
                    forall|x: Seq<char>| #[trigger] cfg@.contains_key(x) ==> name_from(&g0, x),
                    sv == set_view(ps@),
                    rhs_set(ps@) == cur,
                    forall|x: Seq<char>| x != lr_sym(kv) ==> #[trigger] prods(cfg, x) == prods(&ci, x),
                    changed == exists|j: int| 0 <= j < i && starts_with(#[trigger] sv[j], kv),
                    rhs_set(newp@) == Set::new(|r: Seq<Seq<char>>| exists|j: int| 0 <= j < i && #[trigger] sv[j] == r && !starts_with(r, kv)) + if changed { lr_tails(cur, kv) } else { Set::empty() },
                decreases ps.len() - i,
            {
                let beta = &ps[i];
                let ghost nb = rhs_set(newp@);
                let ghost chb = changed;
                proof {
                    assert(sv[i as int] == rhs_view(beta@));
                }
                let st = starts_with_sym(beta, k);
                proof {
                    assert(st == starts_with(sv[i as int], kv)) by {
                        if beta@.len() > 0 {
                            assert(sv[i as int][0] == beta@[0]@);
                        }
                    }
                }
                if st {
                    eliminate_left_recursion(cfg, k, &ps, beta, &mut newp);
                    changed = true;
                } else {
                    rhs_set_insert(&mut newp, clone_rhs(beta));
                }
                proof {
                    let a = Set::new(|r: Seq<Seq<char>>| exists|j: int| 0 <= j < i + 1 && #[trigger] sv[j] == r && !starts_with(r, kv));
                    let b = Set::new(|r: Seq<Seq<char>>| exists|j: int| 0 <= j < i && #[trigger] sv[j] == r && !starts_with(r, kv));
                    assert forall|r: Seq<Seq<char>>| #[trigger] a.contains(r) <==> b.contains(r) || (!st && r == sv[i as int]) by {
                        if a.contains(r) {
                            let j = choose|j: int| 0 <= j < i + 1 && #[trigger] sv[j] == r && !starts_with(r, kv);
                            if j < i {
                                assert(b.contains(r));
                            }
                        }
                        if b.contains(r) {
                            let j = choose|j: int| 0 <= j < i && #[trigger] sv[j] == r && !starts_with(r, kv);
                            assert(a.contains(r));
                        }
                        if !st && r == sv[i as int] {
                            assert(a.contains(r));
                        }
                    }
                    if st {
                        assert(starts_with(sv[i as int], kv));
                    } else {
                        if changed {
                            let j = choose|j: int| 0 <= j < i + 1 && starts_with(#[trigger] sv[j], kv);
                            assert(j < i);
                        }
                    }
                    let rest = if changed { lr_tails(cur, kv) } else { Set::<Seq<Seq<char>>>::empty() };
                    assert(rhs_set(newp@) =~= a + rest);
                }
                i = i + 1;
            }
            proof {
                assert(changed == left_rec(cur, kv)) by {
                    if changed {
                        let j = choose|j: int| 0 <= j < ps.len() && starts_with(#[trigger] sv[j], kv);
                        assert(cur.contains(sv[j]));
                    }
                    if left_rec(cur, kv) {
                        let bb = choose|bb: Seq<Seq<char>>| #[trigger] cur.contains(bb) && starts_with(bb, kv);
                        let j = choose|j: int| 0 <= j < sv.len() && sv[j] == bb;
                        assert(starts_with(sv[j], kv));
                    }
                }
                let a = Set::new(|r: Seq<Seq<char>>| exists|j: int| 0 <= j < ps.len() && #[trigger] sv[j] == r && !starts_with(r, kv));
                assert forall|r: Seq<Seq<char>>| #[trigger] a.contains(r) <==> cur.filter(|r: Seq<Seq<char>>| !starts_with(r, kv)).contains(r) by {
                    if cur.contains(r) {
                        let j = choose|j: int| 0 <= j < sv.len() && sv[j] == r;
                        if !starts_with(r, kv) {
                            assert(a.contains(r));
                        }
                    }
                }
                assert(a =~= cur.filter(|r: Seq<Seq<char>>| !starts_with(r, kv)));
                lemma_elim_direct_done(p0, kv);
            }
            if changed {
                set_prods(cfg, k, newp);
            }
        }
        proof {
            assert forall|x: Seq<char>| !is_lr_name(x) implies #[trigger] prods(cfg, x) == if (exists|t: int| 0 <= t < ki + 1 && (#[trigger] keys@[t])@ == x) {
                elim_direct(prods(&g0, x), x)
            } else {
                prods(&g0, x)
            } by {
                assert(x != lr_sym(kv));
                if x == kv {
                    assert(keys@[ki as int]@ == x);
                } else {
                    if exists|t: int| 0 <= t < ki + 1 && (#[trigger] keys@[t])@ == x {
                        let t = choose|t: int| 0 <= t < ki + 1 && (#[trigger] keys@[t])@ == x;
                        assert(t < ki);
                    }
                }
            }
        }
        ki = ki + 1;
    }
    proof {
        assert forall|x: Seq<char>| !is_lr_name(x) implies #[trigger] prods(cfg, x) == elim_direct(prods(&g0, x), x) by {
            if g0@.contains_key(x) {
                let t = choose|t: int| 0 <= t < g0.keys.len() && #[trigger] g0.key_at(t) == x;
                assert(keys@[t]@ == x);
            } else {
                assert(prods(&g0, x) == Set::<Seq<Seq<char>>>::empty());
                assert(!left_rec(prods(&g0, x), x));
            }
        }
    }
    Ok(())
}

/// The rules reachable from `S`, breadth first, `S` first; each level
/// heavier rules first.
fn bfs_order(cfg: &Grammar, Ghost(g0): Ghost<Grammar>) -> (r: Result<Vec<Sym>, CfgError>)
    requires
        grammar_wf(cfg),
        forall|x: Seq<char>| #[trigger] cfg@.contains_key(x) ==> name_from(&g0, x),
    ensures
        r matches Ok(cfg_keys) ==> cfg_keys.len() >= 1 && cfg_keys@[0]@ == seq!['S'] && forall|t: int| 1 <= t < cfg_keys.len() ==> (#[trigger] cfg_keys@[t])@ != seq!['S'] && cfg@.contains_key(cfg_keys@[t]@),
        r is Ok,
{
    let ghost u = cfg@.dom().insert(seq!['S']);
    proof {
        cfg.lemma_dom_len();
    }
    let s_name: Vec<char> = vec!['S'];
    assert(s_name@ =~= seq!['S']);
    let mut cfg_keys: Vec<Sym> = vec![clone_sym(&s_name)];
    let mut prev_level: Vec<Sym> = vec![clone_sym(&s_name)];
    let mut visited: SymSet = SymMap::new();
    set_add(&mut visited, &s_name);
    while prev_level.len() > 0
        invariant
            grammar_wf(cfg),
            visited.wf(),
            visited@.contains_key(seq!['S']),
            cfg_keys.len() >= 1,
            cfg_keys@[0]@ == seq!['S'],
            forall|t: int| 1 <= t < cfg_keys.len() ==> (#[trigger] cfg_keys@[t])@ != seq!['S'] && cfg@.contains_key(cfg_keys@[t]@),
            forall|x: Seq<char>| #[trigger] cfg@.contains_key(x) ==> name_from(&g0, x),
            u == cfg@.dom().insert(seq!['S']),
            u.finite(),
            visited@.dom().subset_of(u),
        decreases 2 * (u.len() - visited.keys.len()) + (if prev_level.len() > 0 { 1int } else { 0int }),
    {
        proof {
            visited.lemma_dom_len();
            vstd::set_lib::lemma_len_subset(visited@.dom(), u);
        }
        let ghost vk0 = visited.keys.len();
        let mut next: Vec<Sym> = Vec::new();
        let mut xi: usize = 0;
        while xi < prev_level.len()
            invariant
                xi <= prev_level.len(),
                grammar_wf(cfg),
                visited.wf(),
                visited@.contains_key(seq!['S']),
                forall|t: int| 0 <= t < next.len() ==> (#[trigger] next@[t])@ != seq!['S'] && cfg@.contains_key(next@[t]@),
                u == cfg@.dom().insert(seq!['S']),
                u.finite(),
                visited@.dom().subset_of(u),
                visited.keys.len() == vk0 + next.len(),
            decreases prev_level.len() - xi,
        {
            if let Some(ps) = cfg.get(&prev_level[xi]) {
                let mut j: usize = 0;
                while j < ps.len()
                    invariant
                        j <= ps.len(),
                        grammar_wf(cfg),
                        visited.wf(),
                        visited@.contains_key(seq!['S']),
                        forall|t: int| 0 <= t < next.len() ==> (#[trigger] next@[t])@ != seq!['S'] && cfg@.contains_key(next@[t]@),
                        u == cfg@.dom().insert(seq!['S']),
                        u.finite(),
                        visited@.dom().subset_of(u),
                        visited.keys.len() == vk0 + next.len(),
                    decreases ps.len() - j,
                {
                    let beta = &ps[j];
                    let mut b: usize = 0;
                    while b < beta.len()
                        invariant
                            b <= beta.len(),
                            grammar_wf(cfg),
                            visited.wf(),
                            visited@.contains_key(seq!['S']),
                            forall|t: int| 0 <= t < next.len() ==> (#[trigger] next@[t])@ != seq!['S'] && cfg@.contains_key(next@[t]@),
                            u == cfg@.dom().insert(seq!['S']),
                            u.finite(),
                            visited@.dom().subset_of(u),
                            visited.keys.len() == vk0 + next.len(),
                        decreases beta.len() - b,
                    {
                        if cfg.contains_key(&beta[b]) && !set_has(&visited, &beta[b]) {
                            let ghost d0 = visited@.dom();
                            proof {
                                visited.lemma_dom_len();
                            }
                            set_add(&mut visited, &beta[b]);
                            proof {
                                visited.lemma_dom_len();
                                assert(!d0.contains(beta@[b as int]@));
                                assert(visited@.dom().len() == d0.len() + 1);
                            }
                            let ghost n0 = next@;
                            next.push(clone_sym(&beta[b]));
                            proof {
                                assert forall|t: int| 0 <= t < next.len() implies (#[trigger] next@[t])@ != seq!['S'] && cfg@.contains_key(next@[t]@) by {
                                    if t < n0.len() {
                                        assert(next@[t] == n0[t]);
                                    }
                                }
                            }
                        }
                        b = b + 1;
                    }
                    j = j + 1;
                }
            }
            xi = xi + 1;
        }
        let ghost nx = next@;
        let ghost vk1 = visited.keys.len();
        let sorted = sort_by_weight_desc(cfg, next);
        let mut j: usize = 0;
        while j < sorted.len()
            invariant
                j <= sorted.len(),
                cfg_keys.len() >= 1,
                cfg_keys@[0]@ == seq!['S'],
                forall|t: int| 0 <= t < sorted.len() ==> name_among(nx, (#[trigger] sorted@[t])@),
                forall|t: int| 0 <= t < nx.len() ==> (#[trigger] nx[t])@ != seq!['S'] && cfg@.contains_key(nx[t]@),
                forall|t: int| 1 <= t < cfg_keys.len() ==> (#[trigger] cfg_keys@[t])@ != seq!['S'] && cfg@.contains_key(cfg_keys@[t]@),
            decreases sorted.len() - j,
        {
            let ghost k0 = cfg_keys@;
            cfg_keys.push(clone_sym(&sorted[j]));
            proof {
                assert(name_among(nx, sorted@[j as int]@));
                let u = choose|u: int| 0 <= u < nx.len() && (#[trigger] nx[u])@ == sorted@[j as int]@;
                assert forall|t: int| 1 <= t < cfg_keys.len() implies (#[trigger] cfg_keys@[t])@ != seq!['S'] && cfg@.contains_key(cfg_keys@[t]@) by {
                    if t < k0.len() {
                        assert(cfg_keys@[t] == k0[t]);
                    } else {
                        assert(cfg_keys@[t]@ == nx[u]@);
                    }
                }
            }
            j = j + 1;
        }
        proof {
            visited.lemma_dom_len();
            vstd::set_lib::lemma_len_subset(visited@.dom(), u);
        }
        prev_level = sorted;
    }
    Ok(cfg_keys)
}

/// Substitutes, rule by rule in the given order from the third on, the
/// leading names ordered before the rule (eliminating the left recursion
/// this exposes); the rules this adds are appended to the order.
fn ordered_substitution(cfg: &mut Grammar, cfg_keys: &mut Vec<Sym>, preterminals: &SymSet, Ghost(g0): Ghost<Grammar>) -> (r: Result<(), CfgError>)
    requires
        grammar_wf(old(cfg)),
        preterminals.wf(),
        old(cfg_keys).len() >= 1,
        old(cfg_keys)@[0]@ == seq!['S'],
        forall|t: int| 1 <= t < old(cfg_keys).len() ==> (#[trigger] old(cfg_keys)@[t])@ != seq!['S'] && old(cfg)@.contains_key(old(cfg_keys)@[t]@),
        forall|x: Seq<char>| #[trigger] old(cfg)@.contains_key(x) ==> name_from(&g0, x),
    ensures
        grammar_wf(final(cfg)),
        final(cfg_keys).len() >= 1,
        final(cfg_keys)@[0]@ == seq!['S'],
        forall|t: int| 1 <= t < final(cfg_keys).len() ==> (#[trigger] final(cfg_keys)@[t])@ != seq!['S'] && final(cfg)@.contains_key(final(cfg_keys)@[t]@),
        forall|x: Seq<char>| #[trigger] final(cfg)@.contains_key(x) ==> name_from(&g0, x),
        r is Ok ==> forall|t: int| 2 <= t < old(cfg_keys).len() && !is_lr_name(old(cfg_keys)@[t]@) ==> settled(final(cfg), (#[trigger] old(cfg_keys)@[t])@, preterminals@.dom(), keys_rank(old(cfg_keys)@)),
        r is Err ==> r == Err::<(), CfgError>(CfgError::LimitExceeded),
{
    let ghost k0s = cfg_keys@;
    let ghost pre = preterminals@.dom();
    let ghost rk = keys_rank(k0s);
    let mut ord: SymMap<usize> = SymMap::new();
    let mut j: usize = 0;
    while j < cfg_keys.len()
        invariant
            j <= cfg_keys.len(),
            ord.wf(),
            grammar_wf(cfg),
            cfg_keys.len() >= 1,
            cfg_keys@[0]@ == seq!['S'],
            forall|t: int| 1 <= t < cfg_keys.len() ==> (#[trigger] cfg_keys@[t])@ != seq!['S'] && cfg@.contains_key(cfg_keys@[t]@),
            forall|x: Seq<char>| #[trigger] cfg@.contains_key(x) ==> name_from(&g0, x),
            cfg_keys@ == k0s,
            forall|x: Seq<char>| #[trigger] ord_of(ord@, x) == last_pos(k0s.take(j as int), x),
        decreases cfg_keys.len() - j,
    {
        let ghost o0 = ord@;
        ord.insert(clone_sym(&cfg_keys[j]), j);
        proof {
            assert forall|x: Seq<char>| #[trigger] ord_of(ord@, x) == last_pos(k0s.take(j + 1), x) by {
                assert(k0s.take(j + 1).drop_last() =~= k0s.take(j as int));
                assert(k0s.take(j + 1).last() == k0s[j as int]);
                assert(ord_of(o0, x) == last_pos(k0s.take(j as int), x));
            }
        }
        j = j + 1;
    }
    proof {
        assert(k0s.take(k0s.len() as int) =~= k0s);
        assert(ord_rank(ord@) =~= rk);
    }
    let keys_before = keys_of(cfg);
    let mut before: SymSet = SymMap::new();
    let mut j: usize = 0;
    while j < keys_before.len()
        invariant
            j <= keys_before.len(),
            before.wf(),
            keys_before.len() == cfg.keys.len(),
            forall|t: int| 0 <= t < keys_before.len() ==> (#[trigger] keys_before@[t])@ == cfg.keys@[t]@,
            forall|t: int| 0 <= t < j ==> before@.contains_key(#[trigger] keys_before@[t]@),
        decreases keys_before.len() - j,
    {
        set_add(&mut before, &keys_before[j]);
        j = j + 1;
    }
    proof {
        assert forall|x: Seq<char>| #[trigger] cfg@.contains_key(x) implies before@.contains_key(x) || is_lr_name(x) by {
            let t = choose|t: int| 0 <= t < cfg.keys.len() && #[trigger] cfg.key_at(t) == x;
            assert(keys_before@[t]@ == x);
        }
    }
    let mut ki: usize = 2;
    while ki < cfg_keys.len()
        invariant
            ki >= 2,
            grammar_wf(cfg),
            ord.wf(),
            before.wf(),
            preterminals.wf(),
            cfg_keys.len() >= 1,
            cfg_keys@[0]@ == seq!['S'],
            forall|t: int| 1 <= t < cfg_keys.len() ==> (#[trigger] cfg_keys@[t])@ != seq!['S'] && cfg@.contains_key(cfg_keys@[t]@),
            forall|x: Seq<char>| #[trigger] cfg@.contains_key(x) ==> name_from(&g0, x),
            forall|x: Seq<char>| #[trigger] cfg@.contains_key(x) ==> before@.contains_key(x) || is_lr_name(x),
            cfg_keys@ == k0s,
            pre == preterminals@.dom(),
            ord_rank(ord@) == rk,
            rk == keys_rank(k0s),
            forall|t: int| 2 <= t < ki && !is_lr_name(k0s[t]@) ==> settled(cfg, (#[trigger] k0s[t])@, pre, rk),
        decreases cfg_keys.len() - ki,
    {
        let k = &cfg_keys[ki];
        proof {
            assert(is_lr_name(lr_sym(k@)));
            assert(cfg@.contains_key(k@));
            lemma_lr_not_start(lr_sym(k@));
            lemma_last_pos(k0s, lr_sym(k@));
            if !cfg@.contains_key(lr_sym(k@)) && rk(lr_sym(k@)) != usize::MAX {
                let t = rk(lr_sym(k@));
                assert(k0s[t]@ == lr_sym(k@));
                assert(t == 0 || cfg@.contains_key(k0s[t]@));
            }
        }
        let mut fuel: u64 = ROUND_LIMIT;
        loop
            invariant
                grammar_wf(cfg),
                ord.wf(),
                before.wf(),
                preterminals.wf(),
                cfg@.contains_key(k@),
                k@ == cfg_keys@[ki as int]@,
                2 <= ki < cfg_keys.len(),
                is_lr_name(lr_sym(k@)),
                cfg_keys.len() >= 1,
                cfg_keys@[0]@ == seq!['S'],
                forall|t: int| 1 <= t < cfg_keys.len() ==> (#[trigger] cfg_keys@[t])@ != seq!['S'] && cfg@.contains_key(cfg_keys@[t]@),
                forall|x: Seq<char>| #[trigger] cfg@.contains_key(x) ==> name_from(&g0, x),
                forall|x: Seq<char>| #[trigger] cfg@.contains_key(x) ==> before@.contains_key(x) || is_lr_name(x),
                cfg_keys@ == k0s,
                pre == preterminals@.dom(),
                ord_rank(ord@) == rk,
                rk == keys_rank(k0s),
                !cfg@.contains_key(lr_sym(k@)) ==> rk(lr_sym(k@)) == usize::MAX,
                forall|t: int| 2 <= t < ki && !is_lr_name(k0s[t]@) && k0s[t]@ != k@ ==> settled(cfg, (#[trigger] k0s[t])@, pre, rk),
            ensures
                forall|t: int| 2 <= t < ki + 1 && !is_lr_name(k0s[t]@) ==> settled(cfg, (#[trigger] k0s[t])@, pre, rk),
            decreases fuel,
        {
            if fuel == 0 {
                return Err(CfgError::LimitExceeded);
            }
            fuel = fuel - 1;
            let ghost c1 = *cfg;
            let (changed, newp) = substitute_round(cfg, k, preterminals, Some(&ord));
            if !changed {
                proof {
                    assert(settled(cfg, k@, pre, rk));
                    assert forall|t: int| 2 <= t < ki + 1 && !is_lr_name(k0s[t]@) implies settled(cfg, (#[trigger] k0s[t])@, pre, rk) by {
                        if k0s[t]@ != k@ {
                            assert(t < ki);
                        }
                    }
                }
                break;
            }
            let ghost c2 = *cfg;
            set_prods(cfg, k, newp);
            proof {
                assert forall|t: int| 2 <= t < ki && !is_lr_name(k0s[t]@) && k0s[t]@ != k@ implies settled(cfg, (#[trigger] k0s[t])@, pre, rk) by {
                    let x = k0s[t]@;
                    assert(x != lr_sym(k@));
                    lemma_last_pos(k0s, x);
                    assert(k0s[t]@ == x);
                    assert(rk(x) < usize::MAX);
                    assert(settled(&c1, x, pre, rk));
                    lemma_settled_keep(&c1, &c2, x, pre, rk, lr_sym(k@));
                    lemma_settled_keep(&c2, cfg, x, pre, rk, lr_sym(k@));
                }
            }
        }
        ki = ki + 1;
    }
    let mut j: usize = 0;
    while j < cfg.len()
        invariant
            j <= cfg.keys.len(),
            before.wf(),
            grammar_wf(cfg),
            cfg_keys.len() >= 1,
            cfg_keys@[0]@ == seq!['S'],
            forall|t: int| 1 <= t < cfg_keys.len() ==> (#[trigger] cfg_keys@[t])@ != seq!['S'] && cfg@.contains_key(cfg_keys@[t]@),
            forall|x: Seq<char>| #[trigger] cfg@.contains_key(x) ==> name_from(&g0, x),
            forall|x: Seq<char>| #[trigger] cfg@.contains_key(x) ==> before@.contains_key(x) || is_lr_name(x),
            cfg_keys@.take(k0s.len() as int) == k0s,
            k0s.len() <= cfg_keys.len(),
            forall|t: int| 2 <= t < k0s.len() && !is_lr_name(k0s[t]@) ==> settled(cfg, (#[trigger] k0s[t])@, pre, rk),
        decreases cfg.keys.len() - j,
    {
        proof {
            cfg.lemma_pos(j as int);
        }
        if !set_has(&before, &cfg.keys[j]) {
            let ghost k0 = cfg_keys@;
            let ghost k0s0 = cfg_keys@;
            proof {
                lemma_lr_not_start(cfg.key_at(j as int));
            }
            cfg_keys.push(clone_sym(&cfg.keys[j]));
            proof {
                assert(cfg_keys@.take(k0s.len() as int) =~= k0s0.take(k0s.len() as int));
                assert forall|t: int| 1 <= t < cfg_keys.len() implies (#[trigger] cfg_keys@[t])@ != seq!['S'] && cfg@.contains_key(cfg_keys@[t]@) by {
                    if t < k0.len() {
                        assert(cfg_keys@[t] == k0[t]);
                    }
                }
            }
        }
        j = j + 1;
    }
    proof {
        assert(k0s == old(cfg_keys)@);
    }
    Ok(())
}

/// Substitutes the leading names of each rule in the given order until
/// every production starts with a preterminal or a name without a rule;
/// empty productions are dropped. `S` ends with a rule, in that form.
fn final_substitution(cfg: &mut Grammar, cfg_keys: &Vec<Sym>, preterminals: &SymSet, Ghost(g0): Ghost<Grammar>) -> (r: Result<(), CfgError>)
    requires
        grammar_wf(old(cfg)),
        preterminals.wf(),
        cfg_keys.len() >= 1,
        cfg_keys@[0]@ == seq!['S'],
        forall|t: int| 1 <= t < cfg_keys.len() ==> (#[trigger] cfg_keys@[t])@ != seq!['S'] && old(cfg)@.contains_key(cfg_keys@[t]@),
        forall|x: Seq<char>| #[trigger] old(cfg)@.contains_key(x) ==> name_from(&g0, x),
    ensures
        grammar_wf(final(cfg)),
        r is Ok ==> final(cfg)@.contains_key(seq!['S']),
        r is Ok ==> start_greibach(final(cfg), preterminals@.dom()),
        forall|x: Seq<char>| #[trigger] final(cfg)@.contains_key(x) ==> name_from(&g0, x),
        r is Err ==> r == Err::<(), CfgError>(CfgError::LimitExceeded),
{
    let ghost pre = preterminals@.dom();
    let mut ki: usize = 0;
    while ki < cfg_keys.len()
        invariant
            grammar_wf(cfg),
            preterminals.wf(),
            pre == preterminals@.dom(),
            cfg_keys.len() >= 1,
            cfg_keys@[0]@ == seq!['S'],
            ki > 0 ==> cfg@.contains_key(seq!['S']),
            ki > 0 ==> start_greibach(cfg, pre),
            forall|t: int| 1 <= t < cfg_keys.len() ==> (#[trigger] cfg_keys@[t])@ != seq!['S'] && cfg@.contains_key(cfg_keys@[t]@),
            forall|x: Seq<char>| #[trigger] cfg@.contains_key(x) ==> name_from(&g0, x),
        decreases cfg_keys.len() - ki,
    {
        let k = &cfg_keys[ki];
        let mut fuel: u64 = ROUND_LIMIT;
        loop
            invariant
                grammar_wf(cfg),
                preterminals.wf(),
                pre == preterminals@.dom(),
                k@ == cfg_keys@[ki as int]@,
                ki < cfg_keys.len(),
                cfg_keys.len() >= 1,
                cfg_keys@[0]@ == seq!['S'],
                ki > 0 ==> cfg@.contains_key(seq!['S']),
                ki > 0 ==> start_greibach(cfg, pre),
                ki == 0 ==> k@ == seq!['S'],
                forall|t: int| 1 <= t < cfg_keys.len() ==> (#[trigger] cfg_keys@[t])@ != seq!['S'] && cfg@.contains_key(cfg_keys@[t]@),
                forall|x: Seq<char>| #[trigger] cfg@.contains_key(x) ==> name_from(&g0, x),
            ensures
                grammar_wf(cfg),
                cfg@.contains_key(seq!['S']),
                start_greibach(cfg, pre),
                forall|t: int| 1 <= t < cfg_keys.len() ==> (#[trigger] cfg_keys@[t])@ != seq!['S'] && cfg@.contains_key(cfg_keys@[t]@),
                forall|x: Seq<char>| #[trigger] cfg@.contains_key(x) ==> name_from(&g0, x),
            decreases fuel,
        {
            if fuel == 0 {
                return Err(CfgError::LimitExceeded);
            }
            fuel = fuel - 1;
            let ghost cb = *cfg;
            let (changed, newp) = substitute_round(cfg, k, preterminals, None);
            proof {
                if ki > 0 {
                    assert(k@ != seq!['S'] && cfg@.contains_key(k@));
                }
            }
            set_prods(cfg, k, newp);
            assert(cfg@.contains_key(seq!['S']));
            proof {
                if ki > 0 {
                    assert(cfg@.dom() =~= cb@.dom());
                    assert(prods(cfg, seq!['S']) == prods(&cb, seq!['S']));
                } else if !changed {
                    assert forall|r: Seq<Seq<char>>| #[trigger] prods(cfg, seq!['S']).contains(r) implies r.len() >= 1 && (pre.contains(r[0]) || !cfg@.contains_key(r[0])) by {
                        assert(subst_all(&cb, pre, prods(&cb, k@)).contains(r));
                        let beta = choose|beta: Seq<Seq<char>>| #[trigger] prods(&cb, k@).contains(beta) && subst_step(&cb, pre, beta).contains(r);
                        assert(!(beta.len() > 0 && !pre.contains(beta[0]) && cb@.contains_key(beta[0])));
                        assert(beta.len() > 0);
                        assert(r == beta);
                        assert(cb@.contains_key(seq!['S']));
                    }
                }
            }
            if !changed {
                break;
            }
        }
        ki = ki + 1;
    }
    Ok(())
}

/// The names of the rules other than `S`, each once.
#[verifier::rlimit(80)]
fn non_start_keys(cfg: &Grammar) -> (others: Vec<Sym>)
    requires
        grammar_wf(cfg),
    ensures
        forall|a: int| 0 <= a < others.len() ==> (#[trigger] others@[a])@ != seq!['S'] && cfg@.contains_key(others@[a]@),
        forall|a: int, b: int| 0 <= a < b < others.len() ==> (#[trigger] others@[a])@ != (#[trigger] others@[b])@,
        forall|x: Seq<char>| #[trigger] cfg@.contains_key(x) && x != seq!['S'] ==> exists|a: int| 0 <= a < others.len() && (#[trigger] others@[a])@ == x,
{
    let s_name: Vec<char> = vec!['S'];
    assert(s_name@ =~= seq!['S']);
    let keys = keys_of(cfg);
    let mut others: Vec<Sym> = Vec::new();
    let mut j: usize = 0;
    while j < keys.len()
        invariant
            j <= keys.len(),
            grammar_wf(cfg),
            s_name@ == seq!['S'],
            keys.len() == cfg.keys.len(),
            forall|t: int| 0 <= t < keys.len() ==> (#[trigger] keys@[t])@ == cfg.keys@[t]@,
            forall|a: int| 0 <= a < others.len() ==> (#[trigger] others@[a])@ != seq!['S'] && cfg@.contains_key(others@[a]@),
            forall|a: int| 0 <= a < others.len() ==> exists|t: int| 0 <= t < j && #[trigger] keys@[t]@ == (#[trigger] others@[a])@,
            forall|a: int, b: int| 0 <= a < b < others.len() ==> (#[trigger] others@[a])@ != (#[trigger] others@[b])@,
            forall|t: int| 0 <= t < j && (#[trigger] keys@[t])@ != seq!['S'] ==> exists|a: int| 0 <= a < others.len() && (#[trigger] others@[a])@ == keys@[t]@,
        decreases keys.len() - j,
    {
        proof {
            cfg.lemma_pos(j as int);
        }
        if !eq_sym(&keys[j], &s_name) {
            let ghost o0 = others@;
            others.push(clone_sym(&keys[j]));
            proof {
                assert forall|a: int| 0 <= a < others.len() implies exists|t: int| 0 <= t < j + 1 && #[trigger] keys@[t]@ == (#[trigger] others@[a])@ by {
                    if a < o0.len() {
                        assert(others@[a] == o0[a]);
                        let t = choose|t: int| 0 <= t < j && #[trigger] keys@[t]@ == o0[a]@;
                        assert(keys@[t]@ == others@[a]@);
                    } else {
                        assert(keys@[j as int]@ == others@[a]@);
                    }
                }
                assert forall|a: int, b: int| 0 <= a < b < others.len() implies (#[trigger] others@[a])@ != (#[trigger] others@[b])@ by {
                    if b == others.len() - 1 {
                        assert(others@[a] == o0[a]);
                        let t = choose|t: int| 0 <= t < j && #[trigger] keys@[t]@ == o0[a]@;
                        if others@[a]@ == others@[b]@ {
                            cfg.lemma_unique(t, j as int);
                        }
                    } else {
                        assert(others@[a] == o0[a]);
                        assert(others@[b] == o0[b]);
                    }
                }
                assert forall|t: int| 0 <= t < j + 1 && (#[trigger] keys@[t])@ != seq!['S'] implies exists|a: int| 0 <= a < others.len() && (#[trigger] others@[a])@ == keys@[t]@ by {
                    if t < j {
                        let a = choose|a: int| 0 <= a < o0.len() && #[trigger] o0[a]@ == keys@[t]@;
                        assert(others@[a] == o0[a]);
                    } else {
                        assert(others@[others.len() - 1]@ == keys@[t]@);
                    }
                }
            }
        }
        j = j + 1;
    }
    proof {
        assert forall|x: Seq<char>| #[trigger] cfg@.contains_key(x) && x != seq!['S'] implies exists|a: int| 0 <= a < others.len() && (#[trigger] others@[a])@ == x by {
            let t = choose|t: int| 0 <= t < cfg.keys.len() && #[trigger] cfg.key_at(t) == x;
            assert(keys@[t]@ == x);
        }
    }
    others
}

/// Two of the rules named, the first listed before the second, with the
/// same productions, if there are such.
fn find_alike(cfg: &Grammar, others: &Vec<Sym>) -> (found: Option<(usize, usize)>)
    requires
        grammar_wf(cfg),
    ensures
        found matches Some((a, b)) ==> a < b < others.len(),
        found is None ==> forall|a: int, b: int| 0 <= a < b < others.len() ==> prods(cfg, (#[trigger] others@[a])@) != prods(cfg, (#[trigger] others@[b])@),
{
    let mut found: Option<(usize, usize)> = None;
    let mut i: usize = 0;
    while i < others.len() && found.is_none()
        invariant
            i <= others.len(),
            grammar_wf(cfg),
            found matches Some((a, b)) ==> a < b < others.len(),
            found is None ==> forall|a: int, b: int| 0 <= a < i && a < b < others.len() ==> prods(cfg, (#[trigger] others@[a])@) != prods(cfg, (#[trigger] others@[b])@),
        decreases others.len() - i,
    {
        let a = get_set(cfg, &others[i]);
        let mut j: usize = i + 1;
        while j < others.len() && found.is_none()
            invariant
                i < others.len(),
                i + 1 <= j <= others.len(),
                grammar_wf(cfg),
                rhs_set(a@) == prods(cfg, others@[i as int]@),
                found matches Some((a, b)) ==> a < b < others.len(),
                found is None ==> forall|b: int| i < b < j ==> prods(cfg, others@[i as int]@) != prods(cfg, (#[trigger] others@[b])@),
            decreases others.len() - j,
        {
            let b = get_set(cfg, &others[j]);
            if same_set(&a, &b) {
                found = Some((i, j));
            }
            j = j + 1;
        }
        i = i + 1;
    }
    found
}

/// `r` with every `drop` replaced by `keep`.
pub open spec fn rename_syms(r: Seq<Seq<char>>, drop: Seq<char>, keep: Seq<char>) -> Seq<Seq<char>> {
    Seq::new(r.len(), |u: int| if r[u] == drop { keep } else { r[u] })
}

/// Replaces `drop` by `keep` in every production of every rule.
fn rename_everywhere(cfg: &mut Grammar, drop: &Vec<char>, keep: &Vec<char>)
    requires
        grammar_wf(old(cfg)),
    ensures
        grammar_wf(final(cfg)),
        final(cfg)@.dom() == old(cfg)@.dom(),
        forall|x: Seq<char>, r: Seq<Seq<char>>| #[trigger] prods(final(cfg), x).contains(r) ==> exists|q: Seq<Seq<char>>| #[trigger] prods(old(cfg), x).contains(q) && r == rename_syms(q, drop@, keep@),
{
    let ghost c0 = *cfg;
    let names = keys_of(cfg);
    let mut n: usize = 0;
    while n < names.len()
        invariant
            n <= names.len(),
            grammar_wf(cfg),
            grammar_wf(&c0),
            names.len() == c0.keys.len(),
            forall|t: int| 0 <= t < names.len() ==> (#[trigger] names@[t])@ == c0.keys@[t]@,
            cfg@.dom() == c0@.dom(),
            forall|t: int, r: Seq<Seq<char>>| 0 <= t < n && #[trigger] prods(cfg, names@[t]@).contains(r) ==> exists|q: Seq<Seq<char>>| #[trigger] prods(&c0, names@[t]@).contains(q) && r == rename_syms(q, drop@, keep@),
            forall|t: int| n <= t < names.len() ==> #[trigger] prods(cfg, names@[t]@) == prods(&c0, names@[t]@),
        decreases names.len() - n,
    {
        proof {
            c0.lemma_pos(n as int);
        }
        let ghost x = names@[n as int]@;
        let ps = get_set(cfg, &names[n]);
        let ghost sv = set_view(ps@);
        let mut newp: Vec<Rhs> = Vec::new();
        proof {
            assert(set_view(newp@) =~= Seq::<Seq<Seq<char>>>::empty());
            assert(rhs_set(newp@) =~= Set::<Seq<Seq<char>>>::empty());
        }
        let mut m: usize = 0;
        while m < ps.len()
            invariant
                m <= ps.len(),
                set_wf(newp@),
                sv == set_view(ps@),
                forall|r: Seq<Seq<char>>| #[trigger] rhs_set(newp@).contains(r) ==> exists|mm: int| 0 <= mm < m && r == rename_syms(#[trigger] sv[mm], drop@, keep@),
            decreases ps.len() - m,
        {
            let rhs = &ps[m];
            let mut nr: Rhs = Vec::new();
            let mut t: usize = 0;
            while t < rhs.len()
                invariant
                    t <= rhs.len(),
                    nr.len() == t,
                    forall|u: int| 0 <= u < t ==> (#[trigger] nr@[u])@ == (if rhs@[u]@ == drop@ { keep@ } else { rhs@[u]@ }),
                decreases rhs.len() - t,
            {
                if eq_sym(&rhs[t], drop) {
                    nr.push(clone_sym(keep));
                } else {
                    nr.push(clone_sym(&rhs[t]));
                }
                t = t + 1;
            }
            assert(rhs_view(nr@) =~= rename_syms(sv[m as int], drop@, keep@));
            let ghost n0 = rhs_set(newp@);
            rhs_set_insert(&mut newp, nr);
            proof {
                assert forall|r: Seq<Seq<char>>| #[trigger] rhs_set(newp@).contains(r) implies exists|mm: int| 0 <= mm < m + 1 && r == rename_syms(#[trigger] sv[mm], drop@, keep@) by {
                    if n0.contains(r) {
                        let mm = choose|mm: int| 0 <= mm < m && r == rename_syms(#[trigger] sv[mm], drop@, keep@);
                    }
                }
            }
            m = m + 1;
        }
        let ghost cb = *cfg;
        set_prods(cfg, &names[n], newp);
        proof {
            assert(prods(&cb, x) == prods(&c0, x));
            assert(cfg@.dom() =~= c0@.dom());
            assert forall|t: int, r: Seq<Seq<char>>| 0 <= t < n + 1 && #[trigger] prods(cfg, names@[t]@).contains(r) implies exists|q: Seq<Seq<char>>| #[trigger] prods(&c0, names@[t]@).contains(q) && r == rename_syms(q, drop@, keep@) by {
                if names@[t]@ == x {
                    let mm = choose|mm: int| 0 <= mm < ps.len() && r == rename_syms(#[trigger] sv[mm], drop@, keep@);
                    assert(prods(&c0, x).contains(sv[mm]));
                } else {
                    assert(t < n);
                    assert(prods(&cb, names@[t]@).contains(r));
                }
            }
            assert forall|t: int| n + 1 <= t < names.len() implies #[trigger] prods(cfg, names@[t]@) == prods(&c0, names@[t]@) by {
                if names@[t]@ == x {
                    c0.lemma_unique(t, n as int);
                }
            }
        }
        n = n + 1;
    }
    proof {
        assert forall|x: Seq<char>, r: Seq<Seq<char>>| #[trigger] prods(cfg, x).contains(r) implies exists|q: Seq<Seq<char>>| #[trigger] prods(&c0, x).contains(q) && r == rename_syms(q, drop@, keep@) by {
            assert(cfg@.contains_key(x));
            let t = choose|t: int| 0 <= t < c0.keys.len() && #[trigger] c0.key_at(t) == x;
            assert(names@[t]@ == x);
        }
    }
}

/// Merges rules other than `S` with identical productions: the later
/// one is dropped and every reference to it renamed, until no two such
/// rules are alike.
fn merge_duplicate_rules(cfg: &mut Grammar, Ghost(g0): Ghost<Grammar>, Ghost(pre): Ghost<Set<Seq<char>>>) -> (r: Result<(), CfgError>)
    requires
        grammar_wf(old(cfg)),
        old(cfg)@.contains_key(seq!['S']),
        forall|x: Seq<char>| #[trigger] old(cfg)@.contains_key(x) ==> name_from(&g0, x),
        pre_apart(&g0, pre) ==> start_greibach(old(cfg), pre),
    ensures
        r is Ok ==> grammar_wf(final(cfg)) && final(cfg)@.contains_key(seq!['S']) && distinct_rules(final(cfg)),
        r is Ok ==> (pre_apart(&g0, pre) ==> start_greibach(final(cfg), pre)),
        r is Ok,
{
    loop
        invariant
            grammar_wf(cfg),
            cfg@.contains_key(seq!['S']),
            forall|x: Seq<char>| #[trigger] cfg@.contains_key(x) ==> name_from(&g0, x),
            pre_apart(&g0, pre) ==> start_greibach(cfg, pre),
        ensures
            grammar_wf(cfg),
            cfg@.contains_key(seq!['S']),
            distinct_rules(cfg),
            pre_apart(&g0, pre) ==> start_greibach(cfg, pre),
        decreases cfg.keys.len(),
    {
        let ghost n0 = cfg.keys.len();
        proof {
            cfg.lemma_dom_len();
        }
        let others = non_start_keys(cfg);
        match find_alike(cfg, &others) {
            None => {
                proof {
                    assert forall|x: Seq<char>, y: Seq<char>| cfg@.contains_key(x) && cfg@.contains_key(y) && x != y && x != seq!['S'] && y != seq!['S'] implies #[trigger] prods(cfg, x) != #[trigger] prods(cfg, y) by {
                        let a = choose|a: int| 0 <= a < others.len() && (#[trigger] others@[a])@ == x;
                        let b = choose|b: int| 0 <= b < others.len() && (#[trigger] others@[b])@ == y;
                        if a < b {
                            assert(prods(cfg, others@[a]@) != prods(cfg, others@[b]@));
                        } else {
                            assert(a != b);
                            assert(prods(cfg, others@[b]@) != prods(cfg, others@[a]@));
                        }
                    }
                }
                break;
            },
            Some((i, j)) => {
                let keep = &others[i];
                let drop = &others[j];
                let ghost c1 = *cfg;
                proof {
                    assert(drop@ != seq!['S'] && c1@.contains_key(drop@));
                    if pre_apart(&g0, pre) {
                        assert(name_from(&g0, drop@));
                        assert(!pre.contains(drop@));
                    }
                }
                rename_everywhere(cfg, drop, keep);
                let ghost c2 = *cfg;
                remove_key(cfg, drop);
                proof {
                    cfg.lemma_dom_len();
                    c2.lemma_dom_len();
                    assert(c2@.dom().len() == c1@.dom().len());
                    assert(cfg.keys.len() < n0);
                    if pre_apart(&g0, pre) {
                        assert forall|r: Seq<Seq<char>>| #[trigger] prods(cfg, seq!['S']).contains(r) implies r.len() >= 1 && (pre.contains(r[0]) || !cfg@.contains_key(r[0])) by {
                            assert(prods(&c2, seq!['S']).contains(r));
                            let q = choose|q: Seq<Seq<char>>| #[trigger] prods(&c1, seq!['S']).contains(q) && r == rename_syms(q, drop@, keep@);
                            assert(q.len() >= 1 && (pre.contains(q[0]) || !c1@.contains_key(q[0])));
                            assert(q[0] != drop@);
                            assert(r[0] == q[0]);
                        }
                    }
                }
            },
        }
    }
    Ok(())
}

/// Converts a grammar without ε- and unit productions towards Greibach
/// normal form: direct left recursion is eliminated rule by rule, rules
/// are ordered breadth-first from `S` (heavier rules first within a
/// level), leading non-terminals ordered before a rule are substituted
/// (eliminating the left recursion this exposes), then every leading
/// non-terminal is substituted until each production starts with a
/// preterminal; unreachable rules are dropped and rules with identical
/// productions merged.
pub fn cfg_to_gnf(cfg0: Grammar, preterminals: &SymSet) -> (r: Result<Grammar, CfgError>)
    requires
        grammar_wf(&cfg0),
        preterminals.wf(),
    ensures
        r matches Ok(g) ==> grammar_wf(&g) && g@.contains_key(seq!['S']) && distinct_rules(&g),
        r matches Ok(g) ==> (pre_apart(&cfg0, preterminals@.dom()) ==> start_greibach(&g, preterminals@.dom())),
        r is Err ==> r == Err::<Grammar, CfgError>(CfgError::LimitExceeded),
{
    let ghost g0 = cfg0;
    let ghost pre = preterminals@.dom();
    let mut cfg = cfg0;
    eliminate_direct_left_recursion(&mut cfg, Ghost(g0))?;
    let mut cfg_keys = bfs_order(&cfg, Ghost(g0))?;
    ordered_substitution(&mut cfg, &mut cfg_keys, preterminals, Ghost(g0))?;
    final_substitution(&mut cfg, &cfg_keys, preterminals, Ghost(g0))?;
    proof {
        lemma_reach_start(&cfg);
    }
    let ghost before_unreach = cfg;
    remove_unreachable_symbols(&mut cfg);
    proof {
        assert(prods(&cfg, seq!['S']) == prods(&before_unreach, seq!['S']));
        assert forall|r: Seq<Seq<char>>| #[trigger] prods(&cfg, seq!['S']).contains(r) implies r.len() >= 1 && (pre.contains(r[0]) || !cfg@.contains_key(r[0])) by {
            assert(prods(&before_unreach, seq!['S']).contains(r));
        }
    }
    merge_duplicate_rules(&mut cfg, Ghost(g0), Ghost(pre))?;
    Ok(cfg)
}

/// The name of an inner state of a terminal's automaton (it holds `[q`).
pub open spec fn is_state_name(y: Seq<char>) -> bool {
    exists|p: int| 0 <= p && p + 2 <= y.len() && #[trigger] y.subrange(p, p + 2) == seq!['[', 'q']
}

/// Every production of `out` starts with a whole production of `nfa`.
pub open spec fn extends_nfa_prods(out: &Grammar, nfa: &Grammar) -> bool {
    forall|x: Seq<char>, r: Seq<Seq<char>>| #[trigger] prods(out, x).contains(r) ==> exists|y: Seq<char>, p: Seq<Seq<char>>| #[trigger] prods(nfa, y).contains(p) && p.len() <= r.len() && r.take(p.len() as int) == p
}

/// Normalizes the parsed grammar: ε-, unit- and unreachable-rule
/// removal, the terminal rules reached through unit chains added back,
/// conversion towards GNF over the terminal labels, and then each leading
/// terminal label replaced by the productions of its right-linear grammar
/// (other terminal references renamed to their labels). The rules of the
/// right-linear grammars that are used, or that are inner NFA states, are
/// added as they are.
pub fn normalize_cfg(cfg0: Grammar, nfa_grammar: &Grammar, terminal_labels: &SymMap<Vec<char>>) -> (r: Result<Grammar, CfgError>)
    requires
        grammar_wf(&cfg0),
        grammar_wf(nfa_grammar),
        terminal_labels.wf(),
    ensures
        r matches Ok(out) ==> grammar_wf(&out) && extends_nfa_prods(&out, nfa_grammar),
        r matches Ok(out) ==> forall|y: Seq<char>| nfa_grammar@.contains_key(y) && #[trigger] is_state_name(y) ==> out@.contains_key(y) && prods(&out, y) == prods(nfa_grammar, y),
        r is Err ==> r == Err::<Grammar, CfgError>(CfgError::LimitExceeded),
{
    let mut cfg = cfg0;
    remove_epsilon_productions(&mut cfg);
    let label_keys = keys_of_map(terminal_labels);
    let terminal_map = remove_unary_rules(&mut cfg, &label_keys)?;
    remove_unreachable_symbols(&mut cfg);
    let mut i: usize = 0;
    while i < terminal_map.len()
        invariant
            i <= terminal_map.keys.len(),
            terminal_map.wf(),
            terminal_labels.wf(),
            grammar_wf(&cfg),
        decreases terminal_map.keys.len() - i,
    {
        let x = &terminal_map.keys[i];
        let ys = &terminal_map.vals[i];
        let mut j: usize = 0;
        while j < ys.len()
            invariant
                j <= ys.len(),
                terminal_labels.wf(),
                grammar_wf(&cfg),
            decreases ys.len() - j,
        {
            if let Some(lbl) = terminal_labels.get(&ys[j]) {
                sdict_add(&mut cfg, x, vec![clone_sym(lbl)]);
            }
            j = j + 1;
        }
        i = i + 1;
    }
    let mut terminal_values: SymSet = SymMap::new();
    let mut i: usize = 0;
    while i < terminal_labels.len()
        invariant
            i <= terminal_labels.keys.len(),
            terminal_labels.wf(),
            terminal_values.wf(),
        decreases terminal_labels.keys.len() - i,
    {
        set_add(&mut terminal_values, &terminal_labels.vals[i]);
        i = i + 1;
    }
    let cfg = cfg_to_gnf(cfg, &terminal_values)?;
    let mut out = new_grammar();
    let mut i: usize = 0;
    while i < cfg.len()
        invariant
            i <= cfg.keys.len(),
            grammar_wf(&cfg),
            grammar_wf(nfa_grammar),
            terminal_labels.wf(),
            grammar_wf(&out),
            extends_nfa_prods(&out, nfa_grammar),
        decreases cfg.keys.len() - i,
    {
        let a = &cfg.keys[i];
        if !terminal_labels.contains_key(a) {
            let ps = &cfg.vals[i];
            let mut j: usize = 0;
            while j < ps.len()
                invariant
                    j <= ps.len(),
                    grammar_wf(nfa_grammar),
                    terminal_labels.wf(),
                    grammar_wf(&out),
                    extends_nfa_prods(&out, nfa_grammar),
                decreases ps.len() - j,
            {
                let beta = &ps[j];
                if beta.len() > 0 {
                    let mut beta1: Rhs = Vec::new();
                    let mut t: usize = 1;
                    while t < beta.len()
                        invariant
                            1 <= t <= beta.len(),
                            terminal_labels.wf(),
                        decreases beta.len() - t,
                    {
                        match terminal_labels.get(&beta[t]) {
                            Some(l) => beta1.push(clone_sym(l)),
                            None => beta1.push(clone_sym(&beta[t])),
                        }
                        t = t + 1;
                    }
                    if nfa_grammar.contains_key(&beta[0]) {
                        let nfa_prods = crate::normalize::get_set(nfa_grammar, &beta[0]);
                        let mut m: usize = 0;
                        while m < nfa_prods.len()
                            invariant
                                m <= nfa_prods.len(),
                                grammar_wf(nfa_grammar),
                                grammar_wf(&out),
                                extends_nfa_prods(&out, nfa_grammar),
                                beta@.len() > 0,
                                rhs_set(nfa_prods@) == prods(nfa_grammar, beta@[0]@),
                            decreases nfa_prods.len() - m,
                        {
                            let rhs = tail_then(&nfa_prods[m], 0, &beta1);
                            let ghost o0 = out;
                            let ghost pv = rhs_view(nfa_prods@[m as int]@);
                            proof {
                                assert(set_view(nfa_prods@)[m as int] == pv);
                                assert(rhs_set(nfa_prods@).contains(pv));
                                assert(rhs_view(rhs@).take(pv.len() as int) =~= pv);
                            }
                            sdict_add(&mut out, a, rhs);
                            proof {
                                assert forall|x: Seq<char>, r: Seq<Seq<char>>| #[trigger] prods(&out, x).contains(r) implies exists|y: Seq<char>, p: Seq<Seq<char>>| #[trigger] prods(nfa_grammar, y).contains(p) && p.len() <= r.len() && r.take(p.len() as int) == p by {
                                    if !prods(&o0, x).contains(r) {
                                        assert(prods(nfa_grammar, beta@[0]@).contains(pv));
                                    }
                                }
                            }
                            m = m + 1;
                        }
                    }
                }
                j = j + 1;
            }
        }
        i = i + 1;
    }
    let mut all_symbols: SymSet = SymMap::new();
    let mut i: usize = 0;
    while i < out.len()
        invariant
            i <= out.keys.len(),
            grammar_wf(&out),
            all_symbols.wf(),
        decreases out.keys.len() - i,
    {
        let ps = &out.vals[i];
        let mut j: usize = 0;
        while j < ps.len()
            invariant
                j <= ps.len(),
                all_symbols.wf(),
            decreases ps.len() - j,
        {
            let rhs = &ps[j];
            let mut t: usize = 0;
            while t < rhs.len()
                invariant
                    t <= rhs.len(),
                    all_symbols.wf(),
                decreases rhs.len() - t,
            {
                set_add(&mut all_symbols, &rhs[t]);
                t = t + 1;
            }
            j = j + 1;
        }
        i = i + 1;
    }
    let q_mark: Vec<char> = vec!['[', 'q'];
    assert(q_mark@ =~= seq!['[', 'q']);
    let mut i: usize = 0;
    while i < nfa_grammar.len()
        invariant
            i <= nfa_grammar.keys.len(),
            grammar_wf(nfa_grammar),
            all_symbols.wf(),
            grammar_wf(&out),
            extends_nfa_prods(&out, nfa_grammar),
            q_mark@ == seq!['[', 'q'],
            forall|t: int| 0 <= t < i && #[trigger] is_state_name(nfa_grammar.key_at(t)) ==> out@.contains_key(nfa_grammar.key_at(t)) && prods(&out, nfa_grammar.key_at(t)) == prods(nfa_grammar, nfa_grammar.key_at(t)),
        decreases nfa_grammar.keys.len() - i,
    {
        let k = &nfa_grammar.keys[i];
        let ghost out_before = out;
        proof {
            assert forall|t: int| 0 <= t < i implies nfa_grammar.key_at(t) != k@ by {
                if nfa_grammar.key_at(t) == k@ {
                    nfa_grammar.lemma_unique(t, i as int);
                }
            }
        }
        if crate::symbols::contains_piece(k, &q_mark) || set_has(&all_symbols, k) {
            let v = clone_set(&nfa_grammar.vals[i]);
            let ghost o0 = out;
            proof {
                assert(set_wf(nfa_grammar.vals@[i as int]@));
                crate::grammar::lemma_prods_at(nfa_grammar, i as int);
            }
            set_prods(&mut out, k, v);
            proof {
                assert forall|x: Seq<char>, r: Seq<Seq<char>>| #[trigger] prods(&out, x).contains(r) implies exists|y: Seq<char>, p: Seq<Seq<char>>| #[trigger] prods(nfa_grammar, y).contains(p) && p.len() <= r.len() && r.take(p.len() as int) == p by {
                    if x == k@ {
                        assert(prods(nfa_grammar, k@).contains(r));
                        assert(r.take(r.len() as int) =~= r);
                    } else {
                        assert(prods(&o0, x).contains(r));
                    }
                }
            }
        }
        proof {
            assert(is_state_name(k@) == exists|p: int| 0 <= p && p + q_mark@.len() <= k@.len() && #[trigger] k@.subrange(p, p + q_mark@.len()) == q_mark@);
            assert forall|t: int| 0 <= t < i + 1 && #[trigger] is_state_name(nfa_grammar.key_at(t)) implies out@.contains_key(nfa_grammar.key_at(t)) && prods(&out, nfa_grammar.key_at(t)) == prods(nfa_grammar, nfa_grammar.key_at(t)) by {
                if t < i {
                    assert(out_before@.contains_key(nfa_grammar.key_at(t)));
                }
            }
        }
        i = i + 1;
    }
    proof {
        assert forall|y: Seq<char>| nfa_grammar@.contains_key(y) && #[trigger] is_state_name(y) implies out@.contains_key(y) && prods(&out, y) == prods(nfa_grammar, y) by {
            let t = choose|t: int| 0 <= t < nfa_grammar.keys.len() && #[trigger] nfa_grammar.key_at(t) == y;
        }
    }
    Ok(out)
}

/// The names that the map has entries for, in its order.
fn keys_of_map(m: &SymMap<Vec<char>>) -> (r: Vec<Sym>)
    ensures
        r.len() == m.keys.len(),
        forall|j: int| 0 <= j < r.len() ==> (#[trigger] r@[j])@ == m.keys@[j]@,
{
    let mut keys: Vec<Sym> = Vec::new();
    let mut j: usize = 0;
    while j < m.keys.len()
        invariant
            j <= m.keys.len(),
            keys.len() == j,
            forall|i: int| 0 <= i < j ==> (#[trigger] keys@[i])@ == m.keys@[i]@,
        decreases m.keys.len() - j,
    {
        keys.push(clone_sym(&m.keys[j]));
        j = j + 1;
    }
    keys
}

} // verus!
