//! The classes of a vocabulary as the output gives them: a class number
//! for each token id (`-1` for none), the invalid token ids, and the
//! shortest token of each class as its representative.
use vstd::prelude::*;
use crate::grammar::{Grammar, grammar_wf};
use crate::nfa::Preterms;
use crate::classes::{ClassOptions, ignored, skipped, has_token, skip_ok, number_symbols, number_grammar, build_int_grammar, prepare_tasks, grammar_symbol, start_name, numbering_wf, numbered_prods, byte_used, preterm_accepts, first_is, trans_sound, listed, placed};
use crate::adjacency::{int_grammar_wf, stack_adj_spec};
use crate::symmap::SymMap;
use crate::traverse::{TokenTraversalResults, IntGrammar, compute_stack_in_out_for_trie, task_id, token_means, answers, pairs_mean, reach, reach_pairs, AbsState, contents_of};
use crate::bucket::{bucket_classes, invalid_upto, classes_ok, in_some_class, valid_at, pair_contents};

verus! {

/// The classes of a vocabulary.
pub struct EquivOut {
    /// For each token id below the number of logits, its class, or `-1`.
    pub token_classes: Vec<i32>,
    /// The ids of the tokens no context accepts, in increasing order.
    pub invalid_tokens: Vec<i32>,
    /// For each class, its shortest token (empty when none is known).
    pub class_representatives: Vec<Vec<u8>>,
}

/// The last of the first `upto` classes that holds `id`, or `-1`.
pub open spec fn last_class(cl: Seq<Seq<usize>>, id: usize, upto: int) -> int
    decreases upto,
{
    if upto <= 0 {
        -1
    } else if cl[upto - 1].contains(id) {
        upto - 1
    } else {
        last_class(cl, id, upto - 1)
    }
}

/// The position of the last of the first `upto` tokens with id `id`.
pub open spec fn last_token(tokens: Seq<(Vec<u8>, usize)>, id: usize, upto: int) -> Option<int>
    decreases upto,
{
    if upto <= 0 {
        None
    } else if tokens[upto - 1].1 == id {
        Some(upto - 1)
    } else {
        last_token(tokens, id, upto - 1)
    }
}

/// The token that stands for id `id`: the last one with that id, for ids
/// below the number of logits.
pub open spec fn token_of(tokens: Seq<(Vec<u8>, usize)>, n_logits: usize, id: usize) -> Option<int> {
    if id < n_logits {
        last_token(tokens, id, tokens.len() as int)
    } else {
        None
    }
}

/// The representative among the first `upto` members of `class`: the
/// first token of least length among the members' tokens.
pub open spec fn best_rep(tokens: Seq<(Vec<u8>, usize)>, n_logits: usize, class: Seq<usize>, upto: int) -> Option<int>
    decreases upto,
{
    if upto <= 0 {
        None
    } else {
        let b = best_rep(tokens, n_logits, class, upto - 1);
        match token_of(tokens, n_logits, class[upto - 1]) {
            Some(t) => match b {
                None => Some(t),
                Some(u) => if tokens[t].0@.len() < tokens[u].0@.len() {
                    Some(t)
                } else {
                    Some(u)
                },
            },
            None => b,
        }
    }
}

/// The representative bytes of `class`.
pub open spec fn rep_bytes(tokens: Seq<(Vec<u8>, usize)>, n_logits: usize, class: Seq<usize>) -> Seq<u8> {
    match best_rep(tokens, n_logits, class, class.len() as int) {
        Some(t) => tokens[t].0@,
        None => Seq::empty(),
    }
}

/// The classes as sequences.
pub open spec fn class_view(cl: Seq<Vec<usize>>) -> Seq<Seq<usize>> {
    cl.map_values(|c: Vec<usize>| c@)
}

/// Numbers the classes: each id below `n_logits` gets the number of the
/// last class that holds it (`-1` for none), and each class its
/// representative.
pub fn number_classes(classes: &Vec<Vec<usize>>, tokens: &Vec<(Vec<u8>, usize)>, n_logits: usize) -> (r: (Vec<i32>, Vec<Vec<u8>>))
    ensures
        r.0.len() == n_logits,
        forall|id: int| 0 <= id < n_logits ==> #[trigger] r.0@[id] == last_class(class_view(classes@), id as usize, classes.len() as int) as i32,
        r.1.len() == classes.len(),
        forall|i: int| 0 <= i < classes.len() ==> (#[trigger] r.1@[i])@ == rep_bytes(tokens@, n_logits, classes@[i]@),
{
    let ghost cv = class_view(classes@);
    let mut vec_out: Vec<i32> = Vec::new();
    let mut tok_rev: Vec<Option<usize>> = Vec::new();
    let mut i: usize = 0;
    while i < n_logits
        invariant
            i <= n_logits,
            vec_out.len() == i,
            tok_rev.len() == i,
            forall|j: int| 0 <= j < i ==> vec_out@[j] == -1i32,
            forall|j: int| 0 <= j < i ==> tok_rev@[j] is None,
        decreases n_logits - i,
    {
        vec_out.push(-1);
        tok_rev.push(None);
        i = i + 1;
    }
    let mut t: usize = 0;
    while t < tokens.len()
        invariant
            t <= tokens.len(),
            tok_rev.len() == n_logits,
            forall|id: int| 0 <= id < n_logits ==> (#[trigger] tok_rev@[id] matches Some(x) ==> x < t) && (tok_rev@[id] matches Some(x) ==> Some(x as int) == last_token(tokens@, id as usize, t as int)) && (tok_rev@[id] is None ==> last_token(tokens@, id as usize, t as int) is None),
        decreases tokens.len() - t,
    {
        let id = tokens[t].1;
        if id < tok_rev.len() {
            tok_rev.set(id, Some(t));
        }
        proof {
            assert forall|id2: int| 0 <= id2 < n_logits implies (#[trigger] tok_rev@[id2] matches Some(x) ==> x < t + 1) && (tok_rev@[id2] matches Some(x) ==> Some(x as int) == last_token(tokens@, id2 as usize, t + 1)) && (tok_rev@[id2] is None ==> last_token(tokens@, id2 as usize, t + 1) is None) by {
                assert(last_token(tokens@, id2 as usize, t + 1) == if tokens@[t as int].1 == id2 as usize { Some(t as int) } else { last_token(tokens@, id2 as usize, t as int) });
            }
        }
        t = t + 1;
    }
    let mut reps: Vec<Vec<u8>> = Vec::new();
    let mut c: usize = 0;
    while c < classes.len()
        invariant
            c <= classes.len(),
            cv == class_view(classes@),
            vec_out.len() == n_logits,
            tok_rev.len() == n_logits,
            forall|id: int| 0 <= id < n_logits ==> (#[trigger] tok_rev@[id] matches Some(x) ==> x < tokens.len() && Some(x as int) == token_of(tokens@, n_logits, id as usize)) && (tok_rev@[id] is None ==> token_of(tokens@, n_logits, id as usize) is None),
            forall|id: int| 0 <= id < n_logits ==> #[trigger] vec_out@[id] == last_class(cv, id as usize, c as int) as i32,
            reps.len() == c,
            forall|i2: int| 0 <= i2 < c ==> (#[trigger] reps@[i2])@ == rep_bytes(tokens@, n_logits, classes@[i2]@),
        decreases classes.len() - c,
    {
        let class = &classes[c];
        assert(cv[c as int] == class@);
        let mut best: Option<usize> = None;
        let mut m: usize = 0;
        while m < class.len()
            invariant
                c < classes.len(),
                cv == class_view(classes@),
                *class == classes@[c as int],
                cv[c as int] == class@,
                m <= class.len(),
                vec_out.len() == n_logits,
                tok_rev.len() == n_logits,
                forall|id: int| 0 <= id < n_logits ==> (#[trigger] tok_rev@[id] matches Some(x) ==> x < tokens.len() && Some(x as int) == token_of(tokens@, n_logits, id as usize)) && (tok_rev@[id] is None ==> token_of(tokens@, n_logits, id as usize) is None),
                forall|id: int| 0 <= id < n_logits ==> #[trigger] vec_out@[id] == (if class@.subrange(0, m as int).contains(id as usize) { c as int } else { last_class(cv, id as usize, c as int) }) as i32,
                best matches Some(x) ==> x < tokens.len(),
                (match best { Some(x) => Some(x as int), None => None }) == best_rep(tokens@, n_logits, class@, m as int),
            decreases class.len() - m,
        {
            let id = class[m];
            let ghost v0 = vec_out@;
            if id < vec_out.len() {
                vec_out.set(id, c as i32);
            }
            let found: Option<usize> = if id < tok_rev.len() { tok_rev[id] } else { None };
            proof {
                assert(found matches Some(x) ==> Some(x as int) == token_of(tokens@, n_logits, id));
                assert(found is None ==> token_of(tokens@, n_logits, id) is None);
            }
            match found {
                Some(tk) => {
                    match best {
                        None => {
                            best = Some(tk);
                        },
                        Some(b) => {
                            if tokens[tk].0.len() < tokens[b].0.len() {
                                best = Some(tk);
                            }
                        },
                    }
                },
                None => {},
            }
            proof {
                let sub1 = class@.subrange(0, m + 1);
                let sub0 = class@.subrange(0, m as int);
                assert(sub1 == sub0.push(id));
                assert forall|id2: int| 0 <= id2 < n_logits implies #[trigger] vec_out@[id2] == (if sub1.contains(id2 as usize) { c as int } else { last_class(cv, id2 as usize, c as int) }) as i32 by {
                    if id2 == id {
                        assert(sub1[m as int] == id2 as usize);
                    } else {
                        assert(vec_out@[id2] == v0[id2]);
                        if sub1.contains(id2 as usize) {
                            let q = choose|q: int| 0 <= q < sub1.len() && #[trigger] sub1[q] == id2 as usize;
                            assert(q != m);
                            assert(sub0[q] == id2 as usize);
                        }
                        if sub0.contains(id2 as usize) {
                            let q = choose|q: int| 0 <= q < sub0.len() && #[trigger] sub0[q] == id2 as usize;
                            assert(sub1[q] == id2 as usize);
                        }
                    }
                }
            }
            m = m + 1;
        }
        let rep: Vec<u8> = match best {
            Some(b) => clone_token_bytes(&tokens[b].0),
            None => Vec::new(),
        };
        reps.push(rep);
        proof {
            assert(class@.subrange(0, class@.len() as int) =~= class@);
            assert forall|id: int| 0 <= id < n_logits implies #[trigger] vec_out@[id] == last_class(cv, id as usize, c + 1) as i32 by {
                assert(cv[c as int].contains(id as usize) == class@.contains(id as usize));
            }
            assert(reps@[c as int]@ == rep_bytes(tokens@, n_logits, classes@[c as int]@));
        }
        c = c + 1;
    }
    (vec_out, reps)
}

fn clone_token_bytes(v: &Vec<u8>) -> (r: Vec<u8>)
    ensures
        r@ == v@,
{
    let mut r: Vec<u8> = Vec::new();
    let mut i: usize = 0;
    while i < v.len()
        invariant
            i <= v.len(),
            r@ == v@.subrange(0, i as int),
        decreases v.len() - i,
    {
        r.push(v[i]);
        i = i + 1;
    }
    r
}

/// `out` numbers the classes `cl` of the tokens.
pub open spec fn output_of(cl: Seq<Seq<usize>>, tokens: Seq<(Vec<u8>, usize)>, n_logits: usize, out: &EquivOut) -> bool {
    &&& out.token_classes.len() == n_logits
    &&& forall|id: int| 0 <= id < n_logits ==> #[trigger] out.token_classes@[id] == last_class(cl, id as usize, cl.len() as int) as i32
    &&& out.class_representatives.len() == cl.len()
    &&& forall|i: int| 0 <= i < cl.len() ==> (#[trigger] out.class_representatives@[i])@ == rep_bytes(tokens, n_logits, cl[i])
}

/// How the classes are laid out: a singleton class for each skipped
/// token, in id order, then the classes of the traversed tokens, then the
/// end-of-sequence token alone; no class but the last holds the
/// end-of-sequence id or an ignored id, and each id in them is a token's.
pub open spec fn layout_ok(cl: Seq<Seq<usize>>, tokens: Seq<(Vec<u8>, usize)>, eos: usize, opts: &ClassOptions) -> bool {
    &&& cl.len() >= 1
    &&& cl[cl.len() - 1] == seq![eos]
    &&& forall|i: int, m: int| 0 <= i < cl.len() - 1 && 0 <= m < cl[i].len() ==> #[trigger] cl[i][m] != eos && !ignored(opts.ignore_range@, cl[i][m]) && exists|t: int| 0 <= t < tokens.len() && #[trigger] tokens[t].1 == cl[i][m]
    &&& forall|t: int| 0 <= t < tokens.len() && !ignored(opts.ignore_range@, #[trigger] tokens[t].1) && tokens[t].1 != eos && skipped(opts, tokens[t].0@) ==> exists|i: int| 0 <= i < cl.len() - 1 && #[trigger] cl[i] == seq![tokens[t].1]
}

/// The classes in the order they are numbered: the skipped ids one by
/// one, then each class of results as the ids of its members, then the
/// end-of-sequence id.
pub fn layout_classes(skip_ids: &Vec<usize>, res: &TokenTraversalResults, members: &Vec<Vec<usize>>, eos: usize) -> (cl: Vec<Vec<usize>>)
    requires
        forall|c: int, m: int| 0 <= c < members.len() && 0 <= m < members@[c].len() ==> #[trigger] members@[c]@[m] < res.tokens.len(),
    ensures
        cl.len() == skip_ids.len() + members.len() + 1,
        forall|i: int| 0 <= i < skip_ids.len() ==> (#[trigger] cl@[i])@ == seq![skip_ids@[i]],
        forall|c: int| 0 <= c < members.len() ==> (#[trigger] cl@[skip_ids.len() + c])@.len() == members@[c].len(),
        forall|c: int, m: int| 0 <= c < members.len() && 0 <= m < members@[c].len() ==> (#[trigger] cl@[skip_ids.len() + c]@[m]) == res.tokens@[members@[c]@[m] as int].token_id,
        cl@[cl.len() - 1]@ == seq![eos],
{
    let mut cl: Vec<Vec<usize>> = Vec::new();
    let mut i: usize = 0;
    while i < skip_ids.len()
        invariant
            i <= skip_ids.len(),
            cl.len() == i,
            forall|j: int| 0 <= j < i ==> (#[trigger] cl@[j])@ == seq![skip_ids@[j]],
        decreases skip_ids.len() - i,
    {
        let mut one: Vec<usize> = Vec::new();
        one.push(skip_ids[i]);
        assert(one@ =~= seq![skip_ids@[i as int]]);
        cl.push(one);
        i = i + 1;
    }
    let mut c: usize = 0;
    while c < members.len()
        invariant
            c <= members.len(),
            forall|c2: int, m: int| 0 <= c2 < members.len() && 0 <= m < members@[c2].len() ==> #[trigger] members@[c2]@[m] < res.tokens.len(),
            cl.len() == skip_ids.len() + c,
            forall|j: int| 0 <= j < skip_ids.len() ==> (#[trigger] cl@[j])@ == seq![skip_ids@[j]],
            forall|c2: int| 0 <= c2 < c ==> (#[trigger] cl@[skip_ids.len() + c2])@.len() == members@[c2].len(),
            forall|c2: int, m: int| 0 <= c2 < c && 0 <= m < members@[c2].len() ==> (#[trigger] cl@[skip_ids.len() + c2]@[m]) == res.tokens@[members@[c2]@[m] as int].token_id,
        decreases members.len() - c,
    {
        let mem = &members[c];
        let mut ids: Vec<usize> = Vec::new();
        let mut m: usize = 0;
        while m < mem.len()
            invariant
                c < members.len(),
                *mem == members@[c as int],
                forall|c2: int, m2: int| 0 <= c2 < members.len() && 0 <= m2 < members@[c2].len() ==> #[trigger] members@[c2]@[m2] < res.tokens.len(),
                m <= mem.len(),
                ids.len() == m,
                forall|m2: int| 0 <= m2 < m ==> #[trigger] ids@[m2] == res.tokens@[mem@[m2] as int].token_id,
            decreases mem.len() - m,
        {
            assert(members@[c as int]@[m as int] < res.tokens.len());
            ids.push(res.tokens[mem[m]].token_id);
            m = m + 1;
        }
        let ghost cl0 = cl@;
        cl.push(ids);
        proof {
            assert forall|j: int| 0 <= j < skip_ids.len() implies (#[trigger] cl@[j])@ == seq![skip_ids@[j]] by {
                assert(cl@[j] == cl0[j]);
            }
            assert forall|c2: int| 0 <= c2 < c + 1 implies (#[trigger] cl@[skip_ids.len() + c2])@.len() == members@[c2].len() by {
                if c2 < c {
                    assert(cl@[skip_ids.len() + c2] == cl0[skip_ids.len() + c2]);
                }
            }
            assert forall|c2: int, m2: int| 0 <= c2 < c + 1 && 0 <= m2 < members@[c2].len() implies (#[trigger] cl@[skip_ids.len() + c2]@[m2]) == res.tokens@[members@[c2]@[m2] as int].token_id by {
                if c2 < c {
                    assert(cl@[skip_ids.len() + c2] == cl0[skip_ids.len() + c2]);
                }
            }
        }
        c = c + 1;
    }
    let mut last: Vec<usize> = Vec::new();
    last.push(eos);
    assert(last@ =~= seq![eos]);
    let ghost cl0 = cl@;
    cl.push(last);
    proof {
        assert forall|j: int| 0 <= j < skip_ids.len() implies (#[trigger] cl@[j])@ == seq![skip_ids@[j]] by {
            assert(cl@[j] == cl0[j]);
        }
        assert forall|c2: int| 0 <= c2 < members.len() implies (#[trigger] cl@[skip_ids.len() + c2])@.len() == members@[c2].len() by {
            assert(cl@[skip_ids.len() + c2] == cl0[skip_ids.len() + c2]);
        }
        assert forall|c2: int, m2: int| 0 <= c2 < members.len() && 0 <= m2 < members@[c2].len() implies (#[trigger] cl@[skip_ids.len() + c2]@[m2]) == res.tokens@[members@[c2]@[m2] as int].token_id by {
            assert(cl@[skip_ids.len() + c2] == cl0[skip_ids.len() + c2]);
        }
    }
    cl
}

proof fn lemma_last_class_none(cl: Seq<Seq<usize>>, id: usize, upto: int)
    requires
        0 <= upto <= cl.len(),
        forall|i: int| 0 <= i < upto ==> !(#[trigger] cl[i]).contains(id),
    ensures
        last_class(cl, id, upto) == -1,
    decreases upto,
{
    if upto > 0 {
        lemma_last_class_none(cl, id, upto - 1);
    }
}

proof fn lemma_invalid_upto(res: &TokenTraversalResults, t: int, k: int)
    requires
        0 <= t <= res.tokens.len(),
        0 <= k < invalid_upto(res, t).len(),
    ensures
        exists|q: int| 0 <= q < t && res.tokens@[q].stack_pairs is None && #[trigger] res.tokens@[q].token_id as i32 == invalid_upto(res, t)[k],
    decreases t,
{
    if t > 0 {
        let prev = invalid_upto(res, t - 1);
        if k < prev.len() {
            lemma_invalid_upto(res, t - 1, k);
            let q = choose|q: int| 0 <= q < t - 1 && res.tokens@[q].stack_pairs is None && #[trigger] res.tokens@[q].token_id as i32 == prev[k];
            assert(invalid_upto(res, t)[k] == prev[k]);
        } else {
            assert(invalid_upto(res, t)[k] == res.tokens@[t - 1].token_id as i32);
        }
    }
}

/// With the results in id order and every id fitting in an `i32`, the
/// invalid ids come out in increasing order, each at most the id of any
/// later result.
proof fn lemma_invalid_sorted(res: &TokenTraversalResults, t: int)
    requires
        0 <= t <= res.tokens.len(),
        forall|a: int, b: int| 0 <= a < b < res.tokens.len() ==> (#[trigger] res.tokens@[a]).token_id <= (#[trigger] res.tokens@[b]).token_id,
        forall|q: int| 0 <= q < res.tokens.len() ==> (#[trigger] res.tokens@[q]).token_id <= i32::MAX,
    ensures
        forall|a: int, b: int| 0 <= a < b < invalid_upto(res, t).len() ==> #[trigger] invalid_upto(res, t)[a] <= #[trigger] invalid_upto(res, t)[b],
        forall|k: int, q: int| 0 <= k < invalid_upto(res, t).len() && t <= q < res.tokens.len() ==> #[trigger] invalid_upto(res, t)[k] <= (#[trigger] res.tokens@[q]).token_id,
    decreases t,
{
    if t > 0 {
        lemma_invalid_sorted(res, t - 1);
        let prev = invalid_upto(res, t - 1);
        let cur = invalid_upto(res, t);
        assert forall|k: int, q: int| 0 <= k < cur.len() && t <= q < res.tokens.len() implies #[trigger] cur[k] <= (#[trigger] res.tokens@[q]).token_id by {
            if k < prev.len() {
                assert(cur[k] == prev[k]);
                assert(prev[k] <= res.tokens@[q].token_id);
            } else {
                assert(res.tokens@[t - 1].token_id <= res.tokens@[q].token_id);
                assert(res.tokens@[t - 1].token_id <= i32::MAX);
            }
        }
        assert forall|a: int, b: int| 0 <= a < b < cur.len() implies #[trigger] cur[a] <= #[trigger] cur[b] by {
            if b < prev.len() {
                assert(cur[a] == prev[a] && cur[b] == prev[b]);
            } else {
                assert(cur[a] == prev[a]);
                assert(prev[a] <= res.tokens@[t - 1].token_id);
                assert(res.tokens@[t - 1].token_id <= i32::MAX);
            }
        }
    }
}

/// `gi` is `grammar` with its symbols numbered by `ids`: `S` is `0`,
/// every symbol of the grammar has a number, and entry `x` of `gi` holds
/// the numbered productions of the rule numbered `x` (none for others).
pub open spec fn numbered_with(grammar: &Grammar, ids: &SymMap<usize>, gi: Seq<Vec<Vec<usize>>>) -> bool {
    &&& numbering_wf(ids)
    &&& forall|s: Seq<char>| ids@.contains_key(s) <==> (s == start_name() || grammar_symbol(grammar, s))
    &&& ids@.contains_key(start_name()) && ids@[start_name()] == 0
    &&& gi.len() == ids.vals.len()
    &&& int_grammar_wf(gi)
    &&& forall|i: int| 0 <= i < grammar.keys.len() ==> numbered_prods(#[trigger] gi[ids@[grammar.key_at(i)] as int]@, grammar.vals@[i]@, ids@)
    &&& forall|x: int| 0 <= x < gi.len() && (forall|i: int| 0 <= i < grammar.keys.len() ==> #[trigger] ids@[grammar.key_at(i)] != x) ==> gi[x].len() == 0
}

/// `ig` holds the traversal tables of the numbered grammar `gi`: the
/// preterminals of each byte some token uses, the first-symbol maps, the
/// stack adjacency, and the start symbol `0`.
pub open spec fn built_from(ig: &IntGrammar, gi: Seq<Vec<Vec<usize>>>, ids: &SymMap<usize>, preterms: &Preterms, tokens: Seq<(Vec<u8>, usize)>) -> bool {
    &&& ig.wf()
    &&& ig.start == 0
    &&& ig.nt_map.len() == gi.len()
    &&& forall|b: int, x: usize| 0 <= b < 256 ==> (#[trigger] ig.preterms_rev@[b]@.contains(x) <==> byte_used(tokens, b) && exists|i: int| #[trigger] preterm_accepts(preterms, ids, i, b, x))
    &&& forall|b: int, a: usize| 0 <= b < gi.len() ==> (#[trigger] ig.nt_map@[b]@.contains(a) <==> exists|k: int| #[trigger] first_is(gi, a as int, k, b))
    &&& trans_sound(gi, ig.transitions@)
    &&& forall|a: int, k: int, b: int| #[trigger] first_is(gi, a, k, b) ==> listed(ig.transitions@, a, b, gi[a]@[k]@.skip(1))
    &&& forall|a: int, p: Option<usize>| 0 <= a < gi.len() ==> (#[trigger] ig.stack_adj@[a].contains_spec(p) <==> stack_adj_spec(gi, 0, a, p))
}

/// `ig` is the integer grammar of `grammar` over `preterms` for the
/// bytes the tokens use.
pub open spec fn int_grammar_of(ig: &IntGrammar, grammar: &Grammar, preterms: &Preterms, tokens: Seq<(Vec<u8>, usize)>) -> bool {
    exists|ids: SymMap<usize>, gi: Seq<Vec<Vec<usize>>>| #[trigger] numbered_with(grammar, &ids, gi) && #[trigger] built_from(ig, gi, &ids, preterms, tokens)
}

/// The grammar reads bytes `w`: they are not empty and reach some state.
pub open spec fn reads(ig: &IntGrammar, w: Seq<u8>) -> bool {
    w.len() > 0 && reach(ig, w) != Set::<AbsState>::empty()
}

/// No two tokens share an id.
pub open spec fn unique_ids(tokens: Seq<(Vec<u8>, usize)>) -> bool {
    forall|a: int, b: int| 0 <= a < tokens.len() && 0 <= b < tokens.len() && a != b ==> #[trigger] tokens[a].1 != #[trigger] tokens[b].1
}

/// The output classes read the traversed tokens as the grammar `ig`
/// does: two tokens the grammar reads share a class exactly when their
/// bytes leave the same (context, rest) stack contents; a token it reads
/// has a class, one it does not read is listed invalid and has none.
pub open spec fn classes_read(out: &EquivOut, tokens: Seq<(Vec<u8>, usize)>, eos: usize, opts: &ClassOptions, ig: &IntGrammar, n_logits: usize) -> bool {
    &&& forall|t1: int, t2: int| #[trigger] traversed(tokens, eos, opts, t1) && #[trigger] traversed(tokens, eos, opts, t2) && tokens[t1].1 < n_logits && tokens[t2].1 < n_logits && reads(ig, tokens[t1].0@) && reads(ig, tokens[t2].0@) ==> (out.token_classes@[tokens[t1].1 as int] == out.token_classes@[tokens[t2].1 as int] <==> reach_pairs(ig, tokens[t1].0@) == reach_pairs(ig, tokens[t2].0@))
    &&& forall|t: int| #[trigger] traversed(tokens, eos, opts, t) && tokens[t].1 < n_logits && reads(ig, tokens[t].0@) ==> 0 <= out.token_classes@[tokens[t].1 as int] < out.class_representatives.len() - 1
    &&& forall|t: int| #[trigger] traversed(tokens, eos, opts, t) && !reads(ig, tokens[t].0@) ==> out.invalid_tokens@.contains(tokens[t].1 as i32) && (tokens[t].1 < n_logits ==> out.token_classes@[tokens[t].1 as int] == -1)
}

proof fn lemma_last_class_some(cl: Seq<Seq<usize>>, id: usize, upto: int, i: int)
    requires
        0 <= i < upto <= cl.len(),
        cl[i].contains(id),
    ensures
        i <= last_class(cl, id, upto) < upto,
        cl[last_class(cl, id, upto)].contains(id),
    decreases upto,
{
    if !cl[upto - 1].contains(id) {
        lemma_last_class_some(cl, id, upto - 1, i);
    }
}

proof fn lemma_invalid_listed(res: &TokenTraversalResults, t: int, q: int)
    requires
        0 <= q < t <= res.tokens.len(),
        res.tokens@[q].stack_pairs is None,
    ensures
        invalid_upto(res, t).contains(res.tokens@[q].token_id as i32),
    decreases t,
{
    let prev = invalid_upto(res, t - 1);
    if q < t - 1 {
        lemma_invalid_listed(res, t - 1, q);
        let k = choose|k: int| 0 <= k < prev.len() && prev[k] == res.tokens@[q].token_id as i32;
        assert(invalid_upto(res, t)[k] == prev[k]);
    } else {
        assert(invalid_upto(res, t)[prev.len() as int] == res.tokens@[q].token_id as i32);
    }
}

/// What the pieces of the classification give: the tasks are the
/// traversed tokens, each answered, each answer meaning what its bytes
/// reach; the classes group the valid answers by their pair contents; and
/// the laid-out classes are the skipped ids one by one, the classes of
/// answers, and the end-of-sequence id, numbered in that order.
pub open spec fn pieces_ok(tokens: Seq<(Vec<u8>, usize)>, eos: usize, opts: &ClassOptions, ig: &IntGrammar, n_logits: usize, tasks: Seq<(Vec<u8>, usize)>, skip_ids: Seq<usize>, res: &TokenTraversalResults, members: Seq<Vec<usize>>, cv: Seq<Seq<usize>>, out: &EquivOut) -> bool {
    &&& forall|k: int| 0 <= k < tasks.len() ==> #[trigger] has_token(tokens, tasks[k].0@, tasks[k].1)
    &&& forall|k: int| 0 <= k < skip_ids.len() ==> #[trigger] skip_ok(tokens, opts, eos, skip_ids[k])
    &&& forall|i: int| 0 <= i < tokens.len() && !ignored(opts.ignore_range@, #[trigger] tokens[i].1) && tokens[i].1 != eos ==> placed(tasks, skip_ids, opts, tokens[i])
    &&& forall|k: int| 0 <= k < res.tokens.len() ==> #[trigger] token_means(tasks, ig, res, k)
    &&& forall|t: int| 0 <= t < tasks.len() ==> #[trigger] answers(res, tasks[t].1)
    &&& classes_ok(res, members)
    &&& forall|q: int| 0 <= q < res.tokens.len() && valid_at(res, q) ==> #[trigger] in_some_class(members, q)
    &&& out.invalid_tokens@ == invalid_upto(res, res.tokens.len() as int)
    &&& cv.len() == skip_ids.len() + members.len() + 1
    &&& forall|i: int| 0 <= i < skip_ids.len() ==> #[trigger] cv[i] == seq![skip_ids[i]]
    &&& forall|c: int| 0 <= c < members.len() ==> (#[trigger] cv[skip_ids.len() + c]).len() == members[c].len()
    &&& forall|c: int, m: int| 0 <= c < members.len() && 0 <= m < members[c].len() ==> (#[trigger] cv[skip_ids.len() + c][m]) == res.tokens@[members[c]@[m] as int].token_id
    &&& cv[cv.len() - 1] == seq![eos]
    &&& out.token_classes.len() == n_logits
    &&& forall|id: int| 0 <= id < n_logits ==> #[trigger] out.token_classes@[id] == last_class(cv, id as usize, cv.len() as int) as i32
    &&& out.class_representatives.len() == cv.len()
}

/// The answer `q` for a traversed token means what the token's bytes
/// reach.
proof fn lemma_answer_means(tokens: Seq<(Vec<u8>, usize)>, eos: usize, opts: &ClassOptions, ig: &IntGrammar, n_logits: usize, tasks: Seq<(Vec<u8>, usize)>, skip_ids: Seq<usize>, res: &TokenTraversalResults, members: Seq<Vec<usize>>, cv: Seq<Seq<usize>>, out: &EquivOut, t: int, q: int)
    requires
        unique_ids(tokens),
        pieces_ok(tokens, eos, opts, ig, n_logits, tasks, skip_ids, res, members, cv, out),
        traversed(tokens, eos, opts, t),
        0 <= q < res.tokens.len(),
        res.tokens@[q].token_id == tokens[t].1,
    ensures
        valid_at(res, q) <==> reads(ig, tokens[t].0@),
        reads(ig, tokens[t].0@) ==> pair_contents(res, q) == reach_pairs(ig, tokens[t].0@),
{
    assert(token_means(tasks, ig, res, q));
    let x = res.tokens@[q];
    let k = choose|k: int| 0 <= k < tasks.len() && #[trigger] tasks[k].1 == x.token_id && pairs_mean(ig, tasks[k].0@, x.stack_pairs, &res.stack_sets@[x.stack_set as int]);
    assert(has_token(tokens, tasks[k].0@, tasks[k].1));
    let i = choose|i: int| 0 <= i < tokens.len() && #[trigger] tokens[i].0@ == tasks[k].0@ && tokens[i].1 == tasks[k].1;
    if i != t {
        assert(tokens[i].1 != tokens[t].1);
    }
    assert(pair_contents(res, q) =~= contents_of(&res.stack_sets@[x.stack_set as int], x.stack_pairs));
}

/// The id of a traversed token is in no skipped class nor the last one.
proof fn lemma_traversed_not_apart(tokens: Seq<(Vec<u8>, usize)>, eos: usize, opts: &ClassOptions, ig: &IntGrammar, n_logits: usize, tasks: Seq<(Vec<u8>, usize)>, skip_ids: Seq<usize>, res: &TokenTraversalResults, members: Seq<Vec<usize>>, cv: Seq<Seq<usize>>, out: &EquivOut, t: int, i: int)
    requires
        unique_ids(tokens),
        pieces_ok(tokens, eos, opts, ig, n_logits, tasks, skip_ids, res, members, cv, out),
        traversed(tokens, eos, opts, t),
        0 <= i < cv.len(),
        cv[i].contains(tokens[t].1),
    ensures
        skip_ids.len() <= i < cv.len() - 1,
{
    let id = tokens[t].1;
    if i < skip_ids.len() {
        assert(cv[i] == seq![skip_ids[i]]);
        assert(cv[i][0] == id);
        assert(skip_ok(tokens, opts, eos, skip_ids[i]));
        let j = choose|j: int| 0 <= j < tokens.len() && #[trigger] tokens[j].1 == skip_ids[i] && skipped(opts, tokens[j].0@);
        if j != t {
            assert(tokens[j].1 != tokens[t].1);
        }
    }
    if i == cv.len() - 1 {
        assert(cv[i][0] == eos);
    }
}

/// A traversed token the grammar reads has its class, a class of answers
/// holding an answer for it.
proof fn lemma_read_class(tokens: Seq<(Vec<u8>, usize)>, eos: usize, opts: &ClassOptions, ig: &IntGrammar, n_logits: usize, tasks: Seq<(Vec<u8>, usize)>, skip_ids: Seq<usize>, res: &TokenTraversalResults, members: Seq<Vec<usize>>, cv: Seq<Seq<usize>>, out: &EquivOut, t: int) -> (cq: (int, int))
    requires
        unique_ids(tokens),
        pieces_ok(tokens, eos, opts, ig, n_logits, tasks, skip_ids, res, members, cv, out),
        traversed(tokens, eos, opts, t),
        reads(ig, tokens[t].0@),
    ensures
        0 <= cq.0 < members.len(),
        last_class(cv, tokens[t].1, cv.len() as int) == skip_ids.len() + cq.0,
        0 <= cq.1 < res.tokens.len(),
        res.tokens@[cq.1].token_id == tokens[t].1,
        valid_at(res, cq.1),
        pair_contents(res, cq.1) == reach_pairs(ig, tokens[t].0@),
        exists|m: int| 0 <= m < members[cq.0].len() && #[trigger] members[cq.0]@[m] == cq.1,
{
    let id = tokens[t].1;
    let ns = skip_ids.len() as int;
    assert(placed(tasks, skip_ids, opts, tokens[t]));
    let k = choose|k: int| 0 <= k < tasks.len() && #[trigger] tasks[k].0@ == tokens[t].0@ && tasks[k].1 == tokens[t].1;
    assert(answers(res, tasks[k].1));
    let q = choose|q: int| 0 <= q < res.tokens.len() && #[trigger] res.tokens@[q].token_id == tasks[k].1;
    lemma_answer_means(tokens, eos, opts, ig, n_logits, tasks, skip_ids, res, members, cv, out, t, q);
    assert(in_some_class(members, q));
    let (c, m) = choose|c: int, m: int| 0 <= c < members.len() && 0 <= m < members[c].len() && #[trigger] members[c]@[m] == q;
    assert(cv[ns + c][m] == id);
    assert(cv[ns + c].contains(id));
    lemma_last_class_some(cv, id, cv.len() as int, ns + c);
    let l = last_class(cv, id, cv.len() as int);
    lemma_traversed_not_apart(tokens, eos, opts, ig, n_logits, tasks, skip_ids, res, members, cv, out, t, l);
    let c2 = l - ns;
    let m2 = choose|m2: int| 0 <= m2 < cv[l].len() && cv[l][m2] == id;
    assert(cv[ns + c2][m2] == res.tokens@[members[c2]@[m2] as int].token_id);
    let q2 = members[c2]@[m2] as int;
    assert(q2 < res.tokens.len() && valid_at(res, q2));
    lemma_answer_means(tokens, eos, opts, ig, n_logits, tasks, skip_ids, res, members, cv, out, t, q2);
    (c2, q2)
}

/// Law: the classes read the traversed tokens as the grammar does (see
/// [`classes_read`]), for a vocabulary whose ids are unique and whose
/// classes can be numbered in an `i32`.
pub proof fn law_classes_read(tokens: Seq<(Vec<u8>, usize)>, eos: usize, opts: &ClassOptions, ig: &IntGrammar, n_logits: usize, tasks: Seq<(Vec<u8>, usize)>, skip_ids: Seq<usize>, res: &TokenTraversalResults, members: Seq<Vec<usize>>, cv: Seq<Seq<usize>>, out: &EquivOut)
    requires
        unique_ids(tokens),
        cv.len() <= i32::MAX,
        pieces_ok(tokens, eos, opts, ig, n_logits, tasks, skip_ids, res, members, cv, out),
    ensures
        classes_read(out, tokens, eos, opts, ig, n_logits),
{
    let ns = skip_ids.len() as int;
    assert forall|t1: int, t2: int| #[trigger] traversed(tokens, eos, opts, t1) && #[trigger] traversed(tokens, eos, opts, t2) && tokens[t1].1 < n_logits && tokens[t2].1 < n_logits && reads(ig, tokens[t1].0@) && reads(ig, tokens[t2].0@) implies (out.token_classes@[tokens[t1].1 as int] == out.token_classes@[tokens[t2].1 as int] <==> reach_pairs(ig, tokens[t1].0@) == reach_pairs(ig, tokens[t2].0@)) by {
        let (c1, q1) = lemma_read_class(tokens, eos, opts, ig, n_logits, tasks, skip_ids, res, members, cv, out, t1);
        let (c2, q2) = lemma_read_class(tokens, eos, opts, ig, n_logits, tasks, skip_ids, res, members, cv, out, t2);
        let m1 = choose|m: int| 0 <= m < members[c1].len() && #[trigger] members[c1]@[m] == q1;
        let m2 = choose|m: int| 0 <= m < members[c2].len() && #[trigger] members[c2]@[m] == q2;
        assert(out.token_classes@[tokens[t1].1 as int] == (ns + c1) as i32);
        assert(out.token_classes@[tokens[t2].1 as int] == (ns + c2) as i32);
        if c1 == c2 {
            assert(pair_contents(res, members[c1]@[m1] as int) == pair_contents(res, members[c1]@[m2] as int));
        } else {
            assert(pair_contents(res, members[c1]@[m1] as int) != pair_contents(res, members[c2]@[m2] as int));
            assert((ns + c1) as i32 != (ns + c2) as i32);
        }
    }
    assert forall|t: int| #[trigger] traversed(tokens, eos, opts, t) && tokens[t].1 < n_logits && reads(ig, tokens[t].0@) implies 0 <= out.token_classes@[tokens[t].1 as int] < out.class_representatives.len() - 1 by {
        let (c, q) = lemma_read_class(tokens, eos, opts, ig, n_logits, tasks, skip_ids, res, members, cv, out, t);
        assert(out.token_classes@[tokens[t].1 as int] == (ns + c) as i32);
    }
    assert forall|t: int| #[trigger] traversed(tokens, eos, opts, t) && !reads(ig, tokens[t].0@) implies out.invalid_tokens@.contains(tokens[t].1 as i32) && (tokens[t].1 < n_logits ==> out.token_classes@[tokens[t].1 as int] == -1) by {
        let id = tokens[t].1;
        assert(placed(tasks, skip_ids, opts, tokens[t]));
        let k = choose|k: int| 0 <= k < tasks.len() && #[trigger] tasks[k].0@ == tokens[t].0@ && tasks[k].1 == tokens[t].1;
        assert(answers(res, tasks[k].1));
        let q = choose|q: int| 0 <= q < res.tokens.len() && #[trigger] res.tokens@[q].token_id == tasks[k].1;
        lemma_answer_means(tokens, eos, opts, ig, n_logits, tasks, skip_ids, res, members, cv, out, t, q);
        lemma_invalid_listed(res, res.tokens.len() as int, q);
        assert forall|i: int| 0 <= i < cv.len() implies !(#[trigger] cv[i]).contains(id) by {
            if cv[i].contains(id) {
                lemma_traversed_not_apart(tokens, eos, opts, ig, n_logits, tasks, skip_ids, res, members, cv, out, t, i);
                let c = i - ns;
                let m = choose|m: int| 0 <= m < cv[i].len() && cv[i][m] == id;
                assert(cv[ns + c][m] == res.tokens@[members[c]@[m] as int].token_id);
                let q2 = members[c]@[m] as int;
                assert(q2 < res.tokens.len() && valid_at(res, q2));
                lemma_answer_means(tokens, eos, opts, ig, n_logits, tasks, skip_ids, res, members, cv, out, t, q2);
            }
        }
        lemma_last_class_none(cv, id, cv.len() as int);
    }
}

/// A traversed token: one that is neither ignored, nor the end of
/// sequence, nor skipped.
pub open spec fn traversed(tokens: Seq<(Vec<u8>, usize)>, eos: usize, opts: &ClassOptions, t: int) -> bool {
    &&& 0 <= t < tokens.len()
    &&& !ignored(opts.ignore_range@, tokens[t].1)
    &&& tokens[t].1 != eos
    &&& !skipped(opts, tokens[t].0@)
}

/// `v` is the id, as written, of a traversed token.
pub open spec fn invalid_from(tokens: Seq<(Vec<u8>, usize)>, eos: usize, opts: &ClassOptions, v: i32) -> bool {
    exists|t: int| #[trigger] traversed(tokens, eos, opts, t) && v == tokens[t].1 as i32
}

/// The classes of a vocabulary under a normalized grammar: each token is
/// walked through the grammar from every context; tokens that leave the
/// same (context, rest) stack pairs share a class, tokens that leave none
/// are invalid, skipped tokens get a class each, ignored ones none, and
/// the end-of-sequence token gets the last class alone.
pub fn compute_token_classes(grammar: &Grammar, preterms: &Preterms, tokens: &Vec<(Vec<u8>, usize)>, eos: usize, n_logits: usize, opts: &ClassOptions) -> (out: EquivOut)
    requires
        grammar_wf(grammar),
        preterms.wf(),
    ensures
        exists|cl: Seq<Seq<usize>>| #[trigger] layout_ok(cl, tokens@, eos, opts) && output_of(cl, tokens@, n_logits, &out),
        forall|k: int| 0 <= k < out.invalid_tokens.len() ==> #[trigger] invalid_from(tokens@, eos, opts, out.invalid_tokens@[k]),
        eos < n_logits ==> out.token_classes@[eos as int] == (out.class_representatives.len() - 1) as i32,
        forall|id: int| 0 <= id < n_logits && ignored(opts.ignore_range@, id as usize) && id != eos ==> #[trigger] out.token_classes@[id] == -1i32,
        unique_ids(tokens@) && out.class_representatives.len() <= i32::MAX ==> exists|ig: IntGrammar| #[trigger] int_grammar_of(&ig, grammar, preterms, tokens@) && classes_read(&out, tokens@, eos, opts, &ig, n_logits),
        (forall|t: int| 0 <= t < tokens.len() ==> (#[trigger] tokens@[t]).1 <= i32::MAX) ==> forall|a: int, b: int| 0 <= a < b < out.invalid_tokens.len() ==> #[trigger] out.invalid_tokens@[a] <= #[trigger] out.invalid_tokens@[b],
{
    let ids = number_symbols(grammar);
    let gi = number_grammar(grammar, &ids);
    let ig = build_int_grammar(&gi, &ids, preterms, tokens);
    let (tasks, skip_ids) = prepare_tasks(tokens, eos, opts);
    let res = compute_stack_in_out_for_trie(&tasks, &ig);
    let (members, invalid) = bucket_classes(&res);
    let cl = layout_classes(&skip_ids, &res, &members, eos);
    let (token_classes, class_representatives) = number_classes(&cl, tokens, n_logits);
    let out = EquivOut { token_classes, invalid_tokens: invalid, class_representatives };
    proof {
        let cv = class_view(cl@);
        let ns = skip_ids.len() as int;
        assert(numbered_with(grammar, &ids, gi@));
        assert(built_from(&ig, gi@, &ids, preterms, tokens@));
        assert(int_grammar_of(&ig, grammar, preterms, tokens@));
        if unique_ids(tokens@) && out.class_representatives.len() <= i32::MAX {
            assert forall|i: int| 0 <= i < skip_ids.len() implies #[trigger] cv[i] == seq![skip_ids@[i]] by {
                assert(cv[i] == cl@[i]@);
            }
            assert forall|c: int| 0 <= c < members.len() implies (#[trigger] cv[skip_ids.len() + c]).len() == members@[c].len() by {
                assert(cv[ns + c] == cl@[ns + c]@);
            }
            assert forall|c: int, m: int| 0 <= c < members.len() && 0 <= m < members@[c].len() implies (#[trigger] cv[skip_ids.len() + c][m]) == res.tokens@[members@[c]@[m] as int].token_id by {
                assert(cv[ns + c] == cl@[ns + c]@);
            }
            assert(cv[cv.len() - 1] == seq![eos]);
            assert(pieces_ok(tokens@, eos, opts, &ig, n_logits, tasks@, skip_ids@, &res, members@, cv, &out));
            law_classes_read(tokens@, eos, opts, &ig, n_logits, tasks@, skip_ids@, &res, members@, cv, &out);
        }
        assert(cv.len() == cl.len());
        assert(cv[cv.len() - 1] == seq![eos]);
        assert forall|i: int, m: int| 0 <= i < cv.len() - 1 && 0 <= m < cv[i].len() implies #[trigger] cv[i][m] != eos && !ignored(opts.ignore_range@, cv[i][m]) && exists|t: int| 0 <= t < tokens@.len() && #[trigger] tokens@[t].1 == cv[i][m] by {
            assert(cv[i] == cl@[i]@);
            if i < ns {
                assert(cl@[i]@ == seq![skip_ids@[i]]);
                assert(cv[i][m] == skip_ids@[i]);
                assert(skip_ok(tokens@, opts, eos, skip_ids@[i]));
            } else {
                let c = i - ns;
                let q = members@[c]@[m] as int;
                assert(cl@[ns + c]@[m] == res.tokens@[q].token_id);
                assert(task_id(tasks@, res.tokens@[q].token_id));
                let t = choose|t: int| 0 <= t < tasks@.len() && #[trigger] tasks@[t].1 == res.tokens@[q].token_id;
                assert(has_token(tokens@, tasks@[t].0@, tasks@[t].1));
            }
        }
        assert forall|t: int| 0 <= t < tokens@.len() && !ignored(opts.ignore_range@, #[trigger] tokens@[t].1) && tokens@[t].1 != eos && skipped(opts, tokens@[t].0@) implies exists|i: int| 0 <= i < cv.len() - 1 && #[trigger] cv[i] == seq![tokens@[t].1] by {
            assert(crate::classes::placed(tasks@, skip_ids@, opts, tokens@[t]));
            let i = choose|i: int| 0 <= i < skip_ids@.len() && skip_ids@[i] == tokens@[t].1;
            assert(cv[i] == cl@[i]@);
        }
        if forall|t: int| 0 <= t < tokens.len() ==> (#[trigger] tokens@[t]).1 <= i32::MAX {
            assert forall|q: int| 0 <= q < res.tokens.len() implies (#[trigger] res.tokens@[q]).token_id <= i32::MAX by {
                assert(task_id(tasks@, res.tokens@[q].token_id));
                let t = choose|t: int| 0 <= t < tasks@.len() && #[trigger] tasks@[t].1 == res.tokens@[q].token_id;
                assert(has_token(tokens@, tasks@[t].0@, tasks@[t].1));
                let i = choose|i: int| 0 <= i < tokens@.len() && #[trigger] tokens@[i].0@ == tasks@[t].0@ && tokens@[i].1 == tasks@[t].1;
                assert(tokens@[i].1 <= i32::MAX);
            }
            lemma_invalid_sorted(&res, res.tokens.len() as int);
        }
        assert(layout_ok(cv, tokens@, eos, opts));
        assert(output_of(cv, tokens@, n_logits, &out));
        assert forall|k: int| 0 <= k < out.invalid_tokens.len() implies #[trigger] invalid_from(tokens@, eos, opts, out.invalid_tokens@[k]) by {
            lemma_invalid_upto(&res, res.tokens.len() as int, k);
            let q = choose|q: int| 0 <= q < res.tokens.len() && res.tokens@[q].stack_pairs is None && #[trigger] res.tokens@[q].token_id as i32 == invalid_upto(&res, res.tokens.len() as int)[k];
            assert(task_id(tasks@, res.tokens@[q].token_id));
            let t = choose|t: int| 0 <= t < tasks@.len() && #[trigger] tasks@[t].1 == res.tokens@[q].token_id;
            assert(has_token(tokens@, tasks@[t].0@, tasks@[t].1));
            let i = choose|i: int| 0 <= i < tokens@.len() && #[trigger] tokens@[i].0@ == tasks@[t].0@ && tokens@[i].1 == tasks@[t].1;
            assert(traversed(tokens@, eos, opts, i));
        }
        if eos < n_logits {
            assert(cv[cv.len() - 1].contains(eos)) by {
                assert(cv[cv.len() - 1][0] == eos);
            }
            assert(last_class(cv, eos, cv.len() as int) == cv.len() - 1);
        }
        assert forall|id: int| 0 <= id < n_logits && ignored(opts.ignore_range@, id as usize) && id != eos implies #[trigger] out.token_classes@[id] == -1i32 by {
            assert forall|i: int| 0 <= i < cv.len() implies !(#[trigger] cv[i]).contains(id as usize) by {
                if cv[i].contains(id as usize) {
                    let m = choose|m: int| 0 <= m < cv[i].len() && cv[i][m] == id as usize;
                    if i == cv.len() - 1 {
                        assert(cv[i][m] == eos);
                    }
                }
            }
            lemma_last_class_none(cv, id as usize, cv.len() as int);
        }
    }
    out
}

/// Law: the representative of a class is the token of one of its
/// members, and no member has a shorter token; a class gets none only
/// when none of its members has a token.
pub proof fn law_representative_is_shortest(tokens: Seq<(Vec<u8>, usize)>, n_logits: usize, class: Seq<usize>, upto: int)
    requires
        0 <= upto <= class.len(),
    ensures
        best_rep(tokens, n_logits, class, upto) matches Some(t) ==> {
            &&& exists|m: int| 0 <= m < upto && #[trigger] token_of(tokens, n_logits, class[m]) == Some(t)
            &&& forall|m: int| 0 <= m < upto ==> (#[trigger] token_of(tokens, n_logits, class[m]) matches Some(u) ==> tokens[t].0@.len() <= tokens[u].0@.len())
        },
        best_rep(tokens, n_logits, class, upto) is None ==> forall|m: int| 0 <= m < upto ==> #[trigger] token_of(tokens, n_logits, class[m]) is None,
    decreases upto,
{
    if upto > 0 {
        law_representative_is_shortest(tokens, n_logits, class, upto - 1);
        let b = best_rep(tokens, n_logits, class, upto - 1);
        let cur = token_of(tokens, n_logits, class[upto - 1]);
        match cur {
            Some(t) => {
                match b {
                    None => {
                        assert forall|m: int| 0 <= m < upto implies (#[trigger] token_of(tokens, n_logits, class[m]) matches Some(u) ==> tokens[t].0@.len() <= tokens[u].0@.len()) by {
                            if m < upto - 1 {
                                assert(token_of(tokens, n_logits, class[m]) is None);
                            }
                        }
                    },
                    Some(u) => {
                        if tokens[t].0@.len() < tokens[u].0@.len() {
                            assert forall|m: int| 0 <= m < upto implies (#[trigger] token_of(tokens, n_logits, class[m]) matches Some(w) ==> tokens[t].0@.len() <= tokens[w].0@.len()) by {}
                        } else {
                            let m0 = choose|m: int| 0 <= m < upto - 1 && #[trigger] token_of(tokens, n_logits, class[m]) == Some(u);
                            assert(0 <= m0 < upto && token_of(tokens, n_logits, class[m0]) == Some(u));
                        }
                    },
                }
            },
            None => {
                if b is Some {
                    let u = b->0;
                    let m0 = choose|m: int| 0 <= m < upto - 1 && #[trigger] token_of(tokens, n_logits, class[m]) == Some(u);
                    assert(0 <= m0 < upto && token_of(tokens, n_logits, class[m0]) == Some(u));
                }
            },
        }
    }
}

} // verus!
