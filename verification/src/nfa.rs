//! Terminal regular expressions as right-linear grammars: each terminal's
//! Thompson NFA (compiled by `regex_automata`) becomes productions
//! `state -> P` and `state -> P next` over byte-range preterminals `P`.
use vstd::prelude::*;
use regex_automata::nfa::thompson::{NFA, State, Transition};
use crate::symbols::{Rhs, rhs_view, clone_sym, push_all, push_decimal, decimal};
use crate::symmap::SymMap;
use crate::grammar::{Grammar, grammar_wf, prods, all_prods, sdict_add, new_grammar};

verus! {

/// A byte-range transition of an NFA state.
pub struct NfaTrans {
    pub start: u8,
    pub end: u8,
    pub next: usize,
}

/// A state of a Thompson NFA, with state identifiers as plain indices.
pub enum NfaState {
    ByteRange(NfaTrans),
    Sparse(Vec<NfaTrans>),
    /// One target per byte; `0` means no transition.
    Dense(Vec<usize>),
    Look(usize),
    Union(Vec<usize>),
    BinaryUnion(usize, usize),
    Capture(usize),
    Fail,
    Match,
}

/// An NFA: its anchored start state and its states by index.
pub struct NfaModel {
    pub start: usize,
    pub states: Vec<NfaState>,
}

/// Every state identifier in the model is in range, and dense states
/// have one entry per byte.
pub open spec fn model_wf(m: &NfaModel) -> bool {
    &&& m.start < m.states.len()
    &&& forall|i: int| 0 <= i < m.states.len() ==> state_wf(#[trigger] m.states@[i], m.states.len() as int)
}

pub open spec fn state_wf(s: NfaState, n: int) -> bool {
    match s {
        NfaState::ByteRange(t) => t.next < n,
        NfaState::Sparse(ts) => forall|k: int| 0 <= k < ts.len() ==> (#[trigger] ts@[k]).next < n,
        NfaState::Dense(d) => d.len() == 256 && forall|k: int| 0 <= k < d.len() ==> #[trigger] d@[k] < n,
        NfaState::Look(x) => x < n,
        NfaState::Union(xs) => forall|k: int| 0 <= k < xs.len() ==> #[trigger] xs@[k] < n,
        NfaState::BinaryUnion(a, b) => a < n && b < n,
        NfaState::Capture(x) => x < n,
        NfaState::Fail => true,
        NfaState::Match => true,
    }
}

#[verifier::external_type_specification]
#[verifier::external_body]
pub struct ExNfa(NFA);

/// What `NFA::states` holds, each state as an [`NfaState`].
pub uninterp spec fn nfa_states(nfa: NFA) -> Seq<NfaState>;

/// The anchored start state of an NFA.
pub uninterp spec fn nfa_start_state(nfa: NFA) -> nat;

/// Whether `regex_automata` compiles a pattern.
pub uninterp spec fn regex_compiles(pattern: Seq<char>) -> bool;

/// The anchored start state and the states of the NFA that
/// `regex_automata` compiles a pattern into.
pub uninterp spec fn compiled_nfa(pattern: Seq<char>) -> (nat, Seq<NfaState>);

/// `NFA::compiler().configure(NFA::config().which_captures(None)).build`:
/// compiles a pattern into a Thompson NFA without capture states; `None`
/// when the pattern is rejected. Compilation depends on the pattern alone,
/// so the NFA's start and states are named by the pattern.
#[verifier::external_body]
fn nfa_compile(pattern: &Vec<char>) -> (r: Option<NFA>)
    ensures
        r is Some <==> regex_compiles(pattern@),
        r matches Some(x) ==> (nfa_start_state(x), nfa_states(x)) == compiled_nfa(pattern@),
{
    let s: String = pattern.iter().collect();
    NFA::compiler()
        .configure(NFA::config().which_captures(regex_automata::nfa::thompson::WhichCaptures::None))
        .build(&s)
        .ok()
}

/// `NFA::start_anchored`.
#[verifier::external_body]
fn nfa_start(nfa: &NFA) -> (r: usize)
    ensures
        r == nfa_start_state(*nfa),
{
    nfa.start_anchored().as_usize()
}

/// `NFA::states().len()`.
#[verifier::external_body]
fn nfa_len(nfa: &NFA) -> (r: usize)
    ensures
        r == nfa_states(*nfa).len(),
{
    nfa.states().len()
}

/// A state with transitions on bytes.
pub open spec fn byte_state(s: NfaState) -> bool {
    s is ByteRange || s is Sparse || s is Dense
}

/// `NFA::state(id)` for a state that reads a byte (`ByteRange`, `Sparse`,
/// `Dense`), converted field by field; `None` for the other kinds.
#[verifier::external_body]
fn nfa_byte_state(nfa: &NFA, sid: usize) -> (r: Option<NfaState>)
    requires
        sid < nfa_states(*nfa).len(),
    ensures
        r matches Some(x) ==> x == nfa_states(*nfa)[sid as int],
        r is None <==> !byte_state(nfa_states(*nfa)[sid as int]),
{
    let tr = |t: &Transition| NfaTrans { start: t.start, end: t.end, next: t.next.as_usize() };
    match &nfa.states()[sid] {
        State::ByteRange { trans } => Some(NfaState::ByteRange(tr(trans))),
        State::Sparse(s) => Some(NfaState::Sparse(s.transitions.iter().map(tr).collect())),
        State::Dense(d) => Some(NfaState::Dense(d.transitions.iter().map(|x| x.as_usize()).collect())),
        _ => None,
    }
}

/// `NFA::state(id)` for a state that reads no byte, converted field by
/// field.
#[verifier::external_body]
fn nfa_other_state(nfa: &NFA, sid: usize) -> (r: NfaState)
    requires
        sid < nfa_states(*nfa).len(),
        !byte_state(nfa_states(*nfa)[sid as int]),
    ensures
        r == nfa_states(*nfa)[sid as int],
{
    match &nfa.states()[sid] {
        State::Look { next, .. } => NfaState::Look(next.as_usize()),
        State::Union { alternates } => NfaState::Union(alternates.iter().map(|x| x.as_usize()).collect()),
        State::BinaryUnion { alt1, alt2 } => NfaState::BinaryUnion(alt1.as_usize(), alt2.as_usize()),
        State::Capture { next, .. } => NfaState::Capture(next.as_usize()),
        State::Fail => NfaState::Fail,
        _ => NfaState::Match,
    }
}

/// State `sid` of the NFA.
fn nfa_state(nfa: &NFA, sid: usize) -> (r: NfaState)
    requires
        sid < nfa_states(*nfa).len(),
    ensures
        r == nfa_states(*nfa)[sid as int],
{
    match nfa_byte_state(nfa, sid) {
        Some(x) => x,
        None => nfa_other_state(nfa, sid),
    }
}

/// The model of a compiled NFA.
pub fn load_nfa(nfa: &NFA) -> (m: NfaModel)
    ensures
        m.states@ == nfa_states(*nfa),
        m.start == nfa_start_state(*nfa),
{
    let n = nfa_len(nfa);
    let mut states: Vec<NfaState> = Vec::new();
    let mut i: usize = 0;
    while i < n
        invariant
            i <= n,
            n == nfa_states(*nfa).len(),
            states@ =~= nfa_states(*nfa).take(i as int),
        decreases n - i,
    {
        let s = nfa_state(nfa, i);
        states.push(s);
        i = i + 1;
    }
    assert(nfa_states(*nfa).take(n as int) =~= nfa_states(*nfa));
    NfaModel { start: nfa_start(nfa), states }
}

fn check_ids(xs: &Vec<usize>, n: usize) -> (r: bool)
    ensures
        r == forall|k: int| 0 <= k < xs.len() ==> #[trigger] xs@[k] < n,
{
    let mut k: usize = 0;
    while k < xs.len()
        invariant
            k <= xs.len(),
            forall|j: int| 0 <= j < k ==> #[trigger] xs@[j] < n,
        decreases xs.len() - k,
    {
        if xs[k] >= n {
            return false;
        }
        k = k + 1;
    }
    true
}

/// Whether every state identifier of the model is in range.
pub fn check_model(m: &NfaModel) -> (r: bool)
    ensures
        r == model_wf(m),
{
    let n = m.states.len();
    if m.start >= n {
        return false;
    }
    let mut i: usize = 0;
    while i < n
        invariant
            i <= n,
            n == m.states.len(),
            forall|j: int| 0 <= j < i ==> state_wf(#[trigger] m.states@[j], n as int),
        decreases n - i,
    {
        let ok = match &m.states[i] {
            NfaState::ByteRange(t) => t.next < n,
            NfaState::Sparse(ts) => {
                let mut k: usize = 0;
                let mut good = true;
                while k < ts.len()
                    invariant
                        k <= ts.len(),
                        good == forall|j: int| 0 <= j < k ==> (#[trigger] ts@[j]).next < n,
                    decreases ts.len() - k,
                {
                    if ts[k].next >= n {
                        good = false;
                    }
                    k = k + 1;
                }
                good
            },
            NfaState::Dense(d) => d.len() == 256 && check_ids(d, n),
            NfaState::Look(x) => *x < n,
            NfaState::Union(xs) => check_ids(xs, n),
            NfaState::BinaryUnion(a, b) => *a < n && *b < n,
            NfaState::Capture(x) => *x < n,
            NfaState::Fail => true,
            NfaState::Match => true,
        };
        if !ok {
            assert(!state_wf(m.states@[i as int], n as int));
            return false;
        }
        i = i + 1;
    }
    true
}

/// Number of unmarked entries.
pub open spec fn unmarked(s: Seq<bool>) -> nat
    decreases s.len(),
{
    if s.len() == 0 {
        0
    } else {
        unmarked(s.drop_last()) + if s.last() { 0nat } else { 1nat }
    }
}

proof fn lemma_unmarked_mark(s: Seq<bool>, i: int)
    requires
        0 <= i < s.len(),
        !s[i],
    ensures
        unmarked(s.update(i, true)) + 1 == unmarked(s),
    decreases s.len(),
{
    if i < s.len() - 1 {
        lemma_unmarked_mark(s.drop_last(), i);
        assert(s.update(i, true).drop_last() =~= s.drop_last().update(i, true));
    } else {
        assert(s.update(i, true).drop_last() =~= s.drop_last());
    }
}

/// The states that state `s` reaches in one step: epsilon edges, and
/// also byte transitions when `bytes` is set.
pub open spec fn step_targets(st: NfaState, bytes: bool) -> Seq<usize> {
    match st {
        NfaState::Union(xs) => xs@,
        NfaState::BinaryUnion(a, b) => seq![a, b],
        NfaState::Capture(x) => seq![x],
        NfaState::Look(x) => seq![x],
        NfaState::ByteRange(t) => if bytes { seq![t.next] } else { Seq::empty() },
        NfaState::Sparse(ts) => if bytes { Seq::new(ts.len() as nat, |k: int| ts@[k].next) } else { Seq::empty() },
        NfaState::Dense(d) => if bytes { d@.filter(|x: usize| x != 0) } else { Seq::empty() },
        _ => Seq::empty(),
    }
}

fn targets(st: &NfaState, bytes: bool) -> (r: Vec<usize>)
    ensures
        r@ == step_targets(*st, bytes),
{
    match st {
        NfaState::Union(xs) => {
            let mut r: Vec<usize> = Vec::new();
            let mut k: usize = 0;
            while k < xs.len()
                invariant
                    k <= xs.len(),
                    r@ =~= xs@.take(k as int),
                decreases xs.len() - k,
            {
                r.push(xs[k]);
                k = k + 1;
            }
            assert(xs@.take(xs@.len() as int) =~= xs@);
            r
        },
        NfaState::BinaryUnion(a, b) => vec![*a, *b],
        NfaState::Capture(x) => vec![*x],
        NfaState::Look(x) => vec![*x],
        NfaState::ByteRange(t) => if bytes { vec![t.next] } else { Vec::new() },
        NfaState::Sparse(ts) => {
            if !bytes {
                return Vec::new();
            }
            let mut r: Vec<usize> = Vec::new();
            let mut k: usize = 0;
            while k < ts.len()
                invariant
                    k <= ts.len(),
                    r@ =~= Seq::new(k as nat, |j: int| ts@[j].next),
                decreases ts.len() - k,
            {
                r.push(ts[k].next);
                k = k + 1;
            }
            r
        },
        NfaState::Dense(d) => {
            if !bytes {
                return Vec::new();
            }
            let mut r: Vec<usize> = Vec::new();
            let mut k: usize = 0;
            while k < d.len()
                invariant
                    k <= d.len(),
                    r@ =~= d@.take(k as int).filter(|x: usize| x != 0),
                decreases d.len() - k,
            {
                proof {
                    reveal_with_fuel(Seq::<_>::filter, 1);
                    assert(d@.take(k + 1).drop_last() =~= d@.take(k as int));
                }
                if d[k] != 0 {
                    r.push(d[k]);
                }
                k = k + 1;
            }
            assert(d@.take(d@.len() as int) =~= d@);
            r
        },
        _ => Vec::new(),
    }
}

/// `p` is a walk along the edges followed (epsilon edges, and also byte
/// transitions when `bytes` is set).
pub open spec fn walk(m: &NfaModel, bytes: bool, p: Seq<usize>) -> bool {
    &&& p.len() >= 1
    &&& forall|k: int| 0 <= k < p.len() - 1 ==> #[trigger] step_targets(m.states@[p[k] as int], bytes).contains(p[k + 1])
}

/// Some walk leads from `sid` to `y`.
pub open spec fn reaches(m: &NfaModel, bytes: bool, sid: usize, y: usize) -> bool {
    exists|p: Seq<usize>| #[trigger] walk(m, bytes, p) && p[0] == sid && p.last() == y
}

proof fn lemma_walk_push(m: &NfaModel, bytes: bool, p: Seq<usize>, t: usize)
    requires
        walk(m, bytes, p),
        step_targets(m.states@[p.last() as int], bytes).contains(t),
    ensures
        walk(m, bytes, p.push(t)),
        p.push(t)[0] == p[0],
        p.push(t).last() == t,
{
    let q = p.push(t);
    assert forall|k: int| 0 <= k < q.len() - 1 implies #[trigger] step_targets(m.states@[q[k] as int], bytes).contains(q[k + 1]) by {
        if k < p.len() - 1 {
            assert(q[k] == p[k] && q[k + 1] == p[k + 1]);
        } else {
            assert(q[k] == p.last());
        }
    }
}

/// A set that holds `sid` and is closed under the edges holds the end of
/// every walk from `sid`.
proof fn lemma_closed_holds_walks(m: &NfaModel, bytes: bool, c: Seq<usize>, p: Seq<usize>)
    requires
        walk(m, bytes, p),
        c.contains(p[0]),
        forall|x: usize, y: usize| c.contains(x) && #[trigger] step_targets(m.states@[x as int], bytes).contains(y) ==> c.contains(y),
    ensures
        c.contains(p.last()),
    decreases p.len(),
{
    if p.len() > 1 {
        let q = p.drop_last();
        assert forall|k: int| 0 <= k < q.len() - 1 implies #[trigger] step_targets(m.states@[q[k] as int], bytes).contains(q[k + 1]) by {
            assert(q[k] == p[k] && q[k + 1] == p[k + 1]);
            assert(step_targets(m.states@[p[k] as int], bytes).contains(p[k + 1]));
        }
        lemma_closed_holds_walks(m, bytes, c, q);
        let k = p.len() - 2;
        assert(0 <= k < p.len() - 1);
        assert(step_targets(m.states@[p[k] as int], bytes).contains(p[k + 1]));
        assert(q.last() == p[k]);
        assert(p[k + 1] == p.last());
    }
}

/// The states reachable from `sid` (by epsilon edges only, or also by
/// byte transitions when `bytes` is set), in increasing order. The set
/// holds `sid` and is closed under the edges followed.
pub fn closure(m: &NfaModel, sid: usize, bytes: bool) -> (r: Vec<usize>)
    requires
        model_wf(m),
        sid < m.states.len(),
    ensures
        forall|a: int, b: int| 0 <= a < b < r.len() ==> r@[a] < r@[b],
        forall|k: int| 0 <= k < r.len() ==> #[trigger] r@[k] < m.states.len(),
        r@.contains(sid),
        forall|x: usize, y: usize| r@.contains(x) && #[trigger] step_targets(m.states@[x as int], bytes).contains(y) ==> r@.contains(y),
        forall|y: usize| r@.contains(y) <==> #[trigger] reaches(m, bytes, sid, y),
{
    let n = m.states.len();
    let mut seen: Vec<bool> = Vec::new();
    let mut i: usize = 0;
    while i < n
        invariant
            i <= n,
            seen.len() == i,
            forall|k: int| 0 <= k < i ==> !(#[trigger] seen@[k]),
        decreases n - i,
    {
        seen.push(false);
        i = i + 1;
    }
    let mut stack: Vec<usize> = Vec::new();
    stack.push(sid);
    proof {
        lemma_unmarked_mark(seen@, sid as int);
    }
    seen.set(sid, true);
    proof {
        let p0 = seq![sid];
        assert(walk(m, bytes, p0));
        assert(reaches(m, bytes, sid, sid));
        assert forall|x: usize| x < n && seen@[x as int] implies reaches(m, bytes, sid, x) by {
            if x != sid {
                assert(!seen@[x as int]);
            }
        }
        assert forall|x: usize| x < n && seen@[x as int] implies stack@.contains(x) by {
            if x != sid {
                assert(!seen@[x as int]);
            } else {
                assert(stack@[0] == sid);
            }
        }
    }
    while stack.len() > 0
        invariant
            model_wf(m),
            sid < n,
            n == m.states.len(),
            seen.len() == n,
            seen@[sid as int],
            stack@.no_duplicates(),
            forall|k: int| 0 <= k < stack.len() ==> #[trigger] stack@[k] < n,
            forall|k: int| 0 <= k < stack.len() ==> seen@[#[trigger] stack@[k] as int],
            forall|x: usize, y: usize| x < n && seen@[x as int] && !stack@.contains(x) && #[trigger] step_targets(m.states@[x as int], bytes).contains(y) ==> seen@[y as int],
            forall|x: usize| x < n && #[trigger] seen@[x as int] ==> reaches(m, bytes, sid, x),
        decreases stack.len() + 2 * unmarked(seen@),
    {
        let ghost m0 = stack.len() + 2 * unmarked(seen@);
        let ghost seen0 = seen@;
        let ghost stack0 = stack@;
        let s = stack.pop().unwrap();
        let ts = targets(&m.states[s], bytes);
        let ghost old_stack = stack@;
        proof {
            assert(state_wf(m.states@[s as int], n as int));
            assert(stack0 =~= old_stack.push(s));
            assert forall|x: usize| old_stack.contains(x) implies x != s by {
                let j = choose|j: int| 0 <= j < old_stack.len() && old_stack[j] == x;
                assert(stack0[j] == x);
                assert(stack0[stack0.len() - 1] == s);
            }
            assert forall|k: int| 0 <= k < ts.len() implies #[trigger] ts@[k] < n by {
                assert(step_targets(m.states@[s as int], bytes).contains(ts@[k]));
                let st = m.states@[s as int];
                match st {
                    NfaState::Dense(d) => {
                        assert(d@.filter(|x: usize| x != 0).contains(ts@[k]));
                        d@.lemma_filter_contains_rev(|x: usize| x != 0, ts@[k]);
                    },
                    _ => {},
                }
            }
        }
        let mut k: usize = 0;
        while k < ts.len()
            invariant
                model_wf(m),
                n == m.states.len(),
                seen.len() == n,
                sid < n,
                s < n,
                seen@[s as int],
                seen@[sid as int],
                k <= ts.len(),
                ts@ == step_targets(m.states@[s as int], bytes),
                forall|j: int| 0 <= j < ts.len() ==> #[trigger] ts@[j] < n,
                forall|j: int| 0 <= j < k ==> seen@[#[trigger] ts@[j] as int],
                stack@.no_duplicates(),
                forall|j: int| 0 <= j < stack.len() ==> #[trigger] stack@[j] < n,
                forall|j: int| 0 <= j < stack.len() ==> seen@[#[trigger] stack@[j] as int],
                stack.len() >= old_stack.len(),
                forall|j: int| 0 <= j < old_stack.len() ==> #[trigger] stack@[j] == old_stack[j],
                forall|x: usize| old_stack.contains(x) ==> x != s,
                forall|x: usize| x < n && #[trigger] seen0[x as int] ==> seen@[x as int],
                forall|x: usize| x < n && seen@[x as int] && !seen0[x as int] ==> #[trigger] stack@.contains(x),
                seen0.len() == n,
                !stack@.contains(s),
                stack.len() + 2 * unmarked(seen@) <= m0 - 1,
                forall|x: usize| x < n && #[trigger] seen@[x as int] ==> reaches(m, bytes, sid, x),
            decreases ts.len() - k,
        {
            let t = ts[k];
            if !seen[t] {
                proof {
                    lemma_unmarked_mark(seen@, t as int);
                    assert(!stack@.contains(t));
                }
                let ghost st1 = stack@;
                proof {
                    assert(reaches(m, bytes, sid, s));
                    let p = choose|p: Seq<usize>| #[trigger] walk(m, bytes, p) && p[0] == sid && p.last() == s;
                    assert(step_targets(m.states@[s as int], bytes).contains(t)) by {
                        assert(ts@[k as int] == t);
                    }
                    lemma_walk_push(m, bytes, p, t);
                    assert(reaches(m, bytes, sid, t));
                }
                let ghost seen_before = seen@;
                seen.set(t, true);
                stack.push(t);
                proof {
                    assert forall|x: usize| x < n && #[trigger] seen@[x as int] implies reaches(m, bytes, sid, x) by {
                        if x != t {
                            assert(seen_before[x as int]);
                        }
                    }
                    assert(stack@ =~= st1.push(t));
                    assert forall|x: usize| x < n && seen@[x as int] && !seen0[x as int] implies #[trigger] stack@.contains(x) by {
                        if x != t {
                            assert(st1.contains(x));
                            let j = choose|j: int| 0 <= j < st1.len() && st1[j] == x;
                            assert(stack@[j] == x);
                        } else {
                            assert(stack@[stack@.len() - 1] == t);
                        }
                    }
                    assert(!stack@.contains(s)) by {
                        if stack@.contains(s) {
                            let j = choose|j: int| 0 <= j < stack@.len() && stack@[j] == s;
                            if j < st1.len() {
                                assert(st1[j] == s);
                            }
                        }
                    }
                }
            }
            k = k + 1;
        }
        proof {
            assert forall|x: usize, y: usize| x < n && seen@[x as int] && !stack@.contains(x) && #[trigger] step_targets(m.states@[x as int], bytes).contains(y) implies seen@[y as int] by {
                if x == s {
                    let j = choose|j: int| 0 <= j < ts.len() && ts@[j] == y;
                } else if seen0[x as int] {
                    if stack0.contains(x) {
                        let j = choose|j: int| 0 <= j < stack0.len() && stack0[j] == x;
                        if j < old_stack.len() {
                            assert(stack@[j] == x);
                        } else {
                            assert(stack0[j] == s);
                        }
                    }
                    assert(y < n) by {
                        let st = m.states@[x as int];
                        assert(state_wf(st, n as int));
                        match st {
                            NfaState::Dense(d) => {
                                d@.lemma_filter_contains_rev(|z: usize| z != 0, y);
                            },
                            _ => {},
                        }
                    }
                    assert(seen0[y as int]);
                }
            }
        }
    }
    let mut r: Vec<usize> = Vec::new();
    let mut i: usize = 0;
    while i < n
        invariant
            i <= n,
            seen.len() == n,
            forall|a: int, b: int| 0 <= a < b < r.len() ==> r@[a] < r@[b],
            forall|k: int| 0 <= k < r.len() ==> #[trigger] r@[k] < i,
            forall|x: usize| x < i ==> (r@.contains(x) <==> seen@[x as int]),
        decreases n - i,
    {
        let ghost r0 = r@;
        if seen[i] {
            r.push(i);
        }
        proof {
            assert forall|x: usize| x < i + 1 implies (r@.contains(x) <==> seen@[x as int]) by {
                if x < i {
                    if r@.contains(x) {
                        let j = choose|j: int| 0 <= j < r@.len() && r@[j] == x;
                        if j < r0.len() {
                            assert(r0[j] == x);
                        }
                    }
                    if r0.contains(x) {
                        let j = choose|j: int| 0 <= j < r0.len() && r0[j] == x;
                        assert(r@[j] == x);
                    }
                } else {
                    if r@.contains(x) && !seen@[x as int] {
                        let j = choose|j: int| 0 <= j < r@.len() && r@[j] == x;
                        assert(r0[j] < i);
                    }
                    if seen@[x as int] {
                        assert(r@[r@.len() - 1] == x);
                    }
                }
            }
        }
        i = i + 1;
    }
    proof {
        assert(r@.contains(sid));
        assert forall|y: usize| r@.contains(y) implies #[trigger] reaches(m, bytes, sid, y) by {
            let j = choose|j: int| 0 <= j < r@.len() && r@[j] == y;
            assert(y < n);
        }
        assert forall|x: usize, y: usize| r@.contains(x) && #[trigger] step_targets(m.states@[x as int], bytes).contains(y) implies r@.contains(y) by {
            let j = choose|j: int| 0 <= j < r@.len() && r@[j] == x;
            assert(x < n);
            assert(!stack@.contains(x));
            let st = m.states@[x as int];
            assert(state_wf(st, n as int));
            assert(y < n) by {
                match st {
                    NfaState::Dense(d) => {
                        d@.lemma_filter_contains_rev(|z: usize| z != 0, y);
                    },
                    _ => {},
                }
            }
        }
    }
    proof {
        assert forall|y: usize| #[trigger] reaches(m, bytes, sid, y) implies r@.contains(y) by {
            let p = choose|p: Seq<usize>| #[trigger] walk(m, bytes, p) && p[0] == sid && p.last() == y;
            lemma_closed_holds_walks(m, bytes, r@, p);
        }
    }
    r
}

/// Byte-range preterminals: each maps to its set of bytes, in order.
pub type Preterms = SymMap<Vec<u8>>;

/// Why a terminal's regular expression could not become a grammar.
pub enum NfaError {
    /// `regex_automata` rejected the pattern.
    Compile(Vec<char>),
    /// The compiled automaton refers to a state it does not have.
    Malformed,
    /// More preterminals than a `usize` can number.
    TooManyPreterminals,
}

/// The productions of a right-linear grammar over preterminals of `p`:
/// `[P]` or `[P, next]` with `P` a preterminal.
pub open spec fn right_linear(p: &Preterms, r: Seq<Seq<char>>) -> bool {
    (r.len() == 1 || r.len() == 2) && p@.contains_key(r[0])
}

/// The name of NFA state `sid` of terminal `label`: the label itself for
/// the start state, `label[q{sid}]` for the others.
pub open spec fn state_name_spec(label: Seq<char>, sid: nat, start: nat) -> Seq<char> {
    if sid == start {
        label
    } else {
        label + seq!['[', 'q'] + decimal(sid) + seq![']']
    }
}

fn state_name(label: &Vec<char>, sid: usize, start: usize) -> (r: Vec<char>)
    ensures
        r@ == state_name_spec(label@, sid as nat, start as nat),
{
    let mut r = clone_sym(label);
    if sid != start {
        r.push('[');
        r.push('q');
        push_decimal(&mut r, sid);
        r.push(']');
        assert(r@ =~= label@ + seq!['[', 'q'] + decimal(sid as nat) + seq![']']);
    }
    r
}

/// The byte transitions of a state: its range, its sparse list, or one
/// single-byte transition per byte with a non-zero target in a dense
/// table, in byte order.
pub open spec fn trans_of(st: NfaState) -> Seq<NfaTrans> {
    match st {
        NfaState::ByteRange(t) => seq![t],
        NfaState::Sparse(ts) => ts@,
        NfaState::Dense(d) => Seq::new(d.len() as nat, |b: int| NfaTrans { start: b as u8, end: b as u8, next: d@[b] }).filter(|t: NfaTrans| t.next != 0),
        _ => Seq::empty(),
    }
}

/// The byte transitions of a state: its range, its sparse list, or one
/// single-byte transition per byte with a target in a dense table.
fn trans_list(st: &NfaState, Ghost(n): Ghost<int>) -> (r: Vec<NfaTrans>)
    requires
        state_wf(*st, n),
    ensures
        forall|k: int| 0 <= k < r.len() ==> (#[trigger] r@[k]).next < n,
        r@ == trans_of(*st),
{
    match st {
        NfaState::ByteRange(t) => vec![NfaTrans { start: t.start, end: t.end, next: t.next }],
        NfaState::Sparse(ts) => {
            let mut r: Vec<NfaTrans> = Vec::new();
            let mut k: usize = 0;
            assert(forall|j: int| 0 <= j < ts.len() ==> (#[trigger] ts@[j]).next < n);
            while k < ts.len()
                invariant
                    k <= ts.len(),
                    forall|j: int| 0 <= j < ts.len() ==> (#[trigger] ts@[j]).next < n,
                    forall|j: int| 0 <= j < r.len() ==> (#[trigger] r@[j]).next < n,
                    r@ =~= ts@.take(k as int),
                decreases ts.len() - k,
            {
                let t = &ts[k];
                assert(ts@[k as int].next < n);
                r.push(NfaTrans { start: t.start, end: t.end, next: t.next });
                k = k + 1;
            }
            assert(ts@.take(ts@.len() as int) =~= ts@);
            r
        },
        NfaState::Dense(d) => {
            let mut r: Vec<NfaTrans> = Vec::new();
            let mut b: usize = 0;
            let ghost all = Seq::new(d.len() as nat, |j: int| NfaTrans { start: j as u8, end: j as u8, next: d@[j] });
            while b < 256
                invariant
                    b <= 256,
                    d.len() == 256,
                    forall|j: int| 0 <= j < d.len() ==> #[trigger] d@[j] < n,
                    forall|j: int| 0 <= j < r.len() ==> (#[trigger] r@[j]).next < n,
                    all == Seq::new(d.len() as nat, |j: int| NfaTrans { start: j as u8, end: j as u8, next: d@[j] }),
                    r@ =~= all.take(b as int).filter(|t: NfaTrans| t.next != 0),
                decreases 256 - b,
            {
                proof {
                    reveal_with_fuel(Seq::<_>::filter, 1);
                    assert(all.take(b + 1).drop_last() =~= all.take(b as int));
                    assert(all.take(b + 1).last() == all[b as int]);
                }
                if d[b] != 0 {
                    r.push(NfaTrans { start: b as u8, end: b as u8, next: d[b] });
                }
                b = b + 1;
            }
            assert(all.take(256) =~= all);
            r
        },
        _ => Vec::new(),
    }
}

/// The bytes `start..=end`, in order.
/// The bytes `start..=end`, in order (none when `start > end`).
pub open spec fn range_bytes(start: u8, end: u8) -> Seq<u8> {
    Seq::new(if start <= end { (end - start + 1) as nat } else { 0 }, |k: int| (start + k) as u8)
}

fn byte_range(start: u8, end: u8) -> (r: Vec<u8>)
    ensures
        r@.len() == if start <= end { end - start + 1 } else { 0 },
        forall|k: int| 0 <= k < r.len() ==> #[trigger] r@[k] == start + k,
        r@ == range_bytes(start, end),
{
    let mut r: Vec<u8> = Vec::new();
    if start > end {
        return r;
    }
    let mut b: u16 = start as u16;
    while b <= end as u16
        invariant
            start as u16 <= b <= end as u16 + 1,
            start <= end,
            r@.len() == b - start,
            forall|k: int| 0 <= k < r.len() ==> #[trigger] r@[k] == start + k,
        decreases end as u16 + 1 - b,
    {
        r.push(b as u8);
        b = b + 1;
    }
    assert(r@ =~= range_bytes(start, end));
    r
}

/// Whether one of the states is a match state, and whether one of them has
/// byte transitions.
fn accepting_and_out(m: &NfaModel, states: &Vec<usize>) -> (r: (bool, bool))
    requires
        forall|k: int| 0 <= k < states.len() ==> #[trigger] states@[k] < m.states.len(),
    ensures
        r.0 == exists|k: int| 0 <= k < states.len() && m.states@[#[trigger] states@[k] as int] is Match,
        r.1 == exists|k: int| 0 <= k < states.len() && byte_state(m.states@[#[trigger] states@[k] as int]),
{
    let mut acc = false;
    let mut out = false;
    let mut k: usize = 0;
    while k < states.len()
        invariant
            k <= states.len(),
            forall|j: int| 0 <= j < states.len() ==> #[trigger] states@[j] < m.states.len(),
            acc == exists|j: int| 0 <= j < k && m.states@[#[trigger] states@[j] as int] is Match,
            out == exists|j: int| 0 <= j < k && byte_state(m.states@[#[trigger] states@[j] as int]),
        decreases states.len() - k,
    {
        match &m.states[states[k]] {
            NfaState::Match => {
                acc = true;
            },
            NfaState::ByteRange(_) => {
                out = true;
            },
            NfaState::Sparse(_) => {
                out = true;
            },
            NfaState::Dense(_) => {
                out = true;
            },
            _ => {},
        }
        k = k + 1;
    }
    (acc, out)
}

/// Some state of `x`'s epsilon closure is a match state.
pub open spec fn closure_accepts(m: &NfaModel, x: usize) -> bool {
    exists|y: usize| #[trigger] reaches(m, false, x, y) && m.states@[y as int] is Match
}

/// Some state of `x`'s epsilon closure reads a byte.
pub open spec fn closure_reads(m: &NfaModel, x: usize) -> bool {
    exists|y: usize| #[trigger] reaches(m, false, x, y) && byte_state(m.states@[y as int])
}

/// The name of preterminal number `n` of terminal `label`.
pub open spec fn pname(label: Seq<char>, n: nat) -> Seq<char> {
    label + seq!['[', 'P'] + decimal(n) + seq![']']
}

proof fn lemma_pname_injective(label: Seq<char>, a: nat, b: nat)
    requires
        pname(label, a) == pname(label, b),
    ensures
        a == b,
{
    let pa = pname(label, a);
    let pb = pname(label, b);
    assert(pa.subrange(label.len() + 2int, pa.len() - 1) =~= decimal(a));
    assert(pb.subrange(label.len() + 2int, pb.len() - 1) =~= decimal(b));
    crate::symbols::lemma_decimal_injective(a, b);
}

/// The productions that transition `t` gives through preterminal `pn`:
/// `[pn]` when the target's closure accepts, `[pn, target]` when it does
/// not accept or reads on.
pub open spec fn trans_prod(label: Seq<char>, m: &NfaModel, t: NfaTrans, pn: Seq<char>, r: Seq<Seq<char>>) -> bool {
    ||| (r == seq![pn] && closure_accepts(m, t.next))
    ||| (r == seq![pn, state_name_spec(label, t.next as nat, m.start as nat)] && (!closure_accepts(m, t.next) || closure_reads(m, t.next)))
}

/// `t` is a transition of a state in the epsilon closure of `sid`, and
/// `sid` is reachable from the start.
pub open spec fn read_from(m: &NfaModel, sid: usize, t: NfaTrans) -> bool {
    &&& reaches(m, true, m.start, sid)
    &&& exists|csid: usize| #[trigger] reaches(m, false, sid, csid) && trans_of(m.states@[csid as int]).contains(t)
}

/// Production `r` of `x` comes from a transition read from the state `x`
/// names, through a preterminal for exactly the transition's bytes.
pub open spec fn nfa_prod(label: Seq<char>, m: &NfaModel, pre: &Preterms, x: Seq<char>, r: Seq<Seq<char>>) -> bool {
    exists|sid: usize, t: NfaTrans| #[trigger] read_from(m, sid, t) && x == state_name_spec(label, sid as nat, m.start as nat) && r.len() >= 1 && pre@.contains_key(r[0]) && pre@[r[0]]@ == range_bytes(t.start, t.end) && trans_prod(label, m, t, r[0], r)
}

/// Transition `t` read from `sid` has a preterminal for its bytes
/// through which the productions it gives are productions of `sid`.
pub open spec fn trans_done(label: Seq<char>, m: &NfaModel, pre: &Preterms, g: &Grammar, sid: usize, t: NfaTrans) -> bool {
    exists|pn: Seq<char>| #[trigger] pre@.contains_key(pn) && pre@[pn]@ == range_bytes(t.start, t.end) && (forall|r: Seq<Seq<char>>| trans_prod(label, m, t, pn, r) ==> #[trigger] prods(g, state_name_spec(label, sid as nat, m.start as nat)).contains(r))
}

/// The preterminals so far are numbered below `count`.
pub open spec fn pre_fresh(label: Seq<char>, pre: &Preterms, count: nat) -> bool {
    forall|k: Seq<char>| #[trigger] pre@.contains_key(k) ==> exists|j: nat| j < count && k == pname(label, j)
}

/// More preterminals (with the old ones kept) and more productions keep
/// every production's origin and every transition's productions.
proof fn lemma_grow(label: Seq<char>, m: &NfaModel, pre0: &Preterms, g0: &Grammar, pre1: &Preterms, g1: &Grammar)
    requires
        forall|k: Seq<char>| #[trigger] pre0@.contains_key(k) ==> pre1@.contains_key(k) && pre1@[k] == pre0@[k],
        forall|x: Seq<char>| #[trigger] prods(g0, x).subset_of(prods(g1, x)),
    ensures
        forall|x: Seq<char>, r: Seq<Seq<char>>| nfa_prod(label, m, pre0, x, r) ==> #[trigger] nfa_prod(label, m, pre1, x, r),
        forall|sid: usize, t: NfaTrans| trans_done(label, m, pre0, g0, sid, t) ==> #[trigger] trans_done(label, m, pre1, g1, sid, t),
{
    assert forall|x: Seq<char>, r: Seq<Seq<char>>| nfa_prod(label, m, pre0, x, r) implies #[trigger] nfa_prod(label, m, pre1, x, r) by {
        let (sid, t) = choose|sid: usize, t: NfaTrans| #[trigger] read_from(m, sid, t) && x == state_name_spec(label, sid as nat, m.start as nat) && r.len() >= 1 && pre0@.contains_key(r[0]) && pre0@[r[0]]@ == range_bytes(t.start, t.end) && trans_prod(label, m, t, r[0], r);
        assert(pre1@.contains_key(r[0]) && pre1@[r[0]] == pre0@[r[0]]);
    }
    assert forall|sid: usize, t: NfaTrans| trans_done(label, m, pre0, g0, sid, t) implies #[trigger] trans_done(label, m, pre1, g1, sid, t) by {
        let pn = choose|pn: Seq<char>| #[trigger] pre0@.contains_key(pn) && pre0@[pn]@ == range_bytes(t.start, t.end) && (forall|r: Seq<Seq<char>>| trans_prod(label, m, t, pn, r) ==> #[trigger] prods(g0, state_name_spec(label, sid as nat, m.start as nat)).contains(r));
        assert(pre1@.contains_key(pn) && pre1@[pn] == pre0@[pn]);
        assert forall|r: Seq<Seq<char>>| trans_prod(label, m, t, pn, r) implies #[trigger] prods(g1, state_name_spec(label, sid as nat, m.start as nat)).contains(r) by {
            assert(prods(g0, state_name_spec(label, sid as nat, m.start as nat)).contains(r));
            assert(prods(g0, state_name_spec(label, sid as nat, m.start as nat)).subset_of(prods(g1, state_name_spec(label, sid as nat, m.start as nat))));
        }
    }
}

/// The right-linear grammar of an NFA: for every state reachable from the
/// start, every byte transition leaving its epsilon closure gets a fresh
/// preterminal `label[P{n}]` for its byte range, and a production to the
/// preterminal alone when the target accepts, and to the preterminal and
/// the target state when the target does not accept or can read more.
/// Exactly those productions are made: each production comes from such a
/// transition, and each such transition gives its productions.
/// The automaton compiled from `x` has so many states and transitions that
/// its preterminals could overflow a `usize` count.
pub open spec fn too_many_preterms(x: Seq<char>) -> bool {
    regex_compiles(x) && exists|m: NfaModel| #[trigger] models_compiled(&m, x) && m.states.len() * trans_total(&m, m.states.len() as int) > usize::MAX
}

/// `x` compiles, but to an automaton that refers to states it does not
/// have.
pub open spec fn malformed_regex(x: Seq<char>) -> bool {
    regex_compiles(x) && forall|m: NfaModel| #[trigger] models_compiled(&m, x) ==> !model_wf(&m)
}

/// The number of transitions of the first `k` states.
pub open spec fn trans_total(m: &NfaModel, k: int) -> nat
    decreases k,
{
    if k <= 0 || k > m.states.len() {
        0
    } else {
        trans_total(m, k - 1) + trans_of(m.states@[k - 1]).len()
    }
}

/// The number of transitions of the states listed in `idx`, first `k`.
pub open spec fn trans_of_list(m: &NfaModel, idx: Seq<usize>, k: int) -> nat
    decreases k,
{
    if k <= 0 || k > idx.len() {
        0
    } else {
        trans_of_list(m, idx, k - 1) + trans_of(m.states@[idx[k - 1] as int]).len()
    }
}

proof fn lemma_trans_total_mono(m: &NfaModel, a: int, b: int)
    requires
        0 <= a <= b <= m.states.len(),
    ensures
        trans_total(m, a) <= trans_total(m, b),
    decreases b - a,
{
    if a < b {
        lemma_trans_total_mono(m, a, b - 1);
    }
}

proof fn lemma_trans_of_list_mono(m: &NfaModel, idx: Seq<usize>, a: int, b: int)
    requires
        0 <= a <= b <= idx.len(),
    ensures
        trans_of_list(m, idx, a) <= trans_of_list(m, idx, b),
    decreases b - a,
{
    if a < b {
        lemma_trans_of_list_mono(m, idx, a, b - 1);
    }
}

/// A list in increasing order of values below `bound` has at most
/// `bound` entries among its first `k`.
proof fn lemma_incr_len(idx: Seq<usize>, k: int, bound: int)
    requires
        0 <= k <= idx.len(),
        0 <= bound,
        forall|a: int, b: int| 0 <= a < b < idx.len() ==> idx[a] < idx[b],
        forall|a: int| 0 <= a < k ==> #[trigger] idx[a] < bound,
    ensures
        k <= bound,
    decreases k,
{
    if k > 0 {
        let e = idx[k - 1] as int;
        assert forall|a: int| 0 <= a < k - 1 implies #[trigger] idx[a] < e by {
            assert(idx[a] < idx[k - 1]);
        }
        lemma_incr_len(idx, k - 1, e);
        assert(idx[k - 1] < bound);
    }
}

/// States listed in increasing order have at most all the transitions.
proof fn lemma_trans_of_list_bound(m: &NfaModel, idx: Seq<usize>, k: int, bound: int)
    requires
        0 <= k <= idx.len(),
        0 <= bound <= m.states.len(),
        forall|a: int, b: int| 0 <= a < b < idx.len() ==> idx[a] < idx[b],
        forall|a: int| 0 <= a < k ==> #[trigger] idx[a] < bound,
    ensures
        trans_of_list(m, idx, k) <= trans_total(m, bound),
        k <= bound,
    decreases k,
{
    if k > 0 {
        let e = idx[k - 1] as int;
        assert forall|a: int| 0 <= a < k - 1 implies #[trigger] idx[a] < e by {
            assert(idx[a] < idx[k - 1]);
        }
        lemma_trans_of_list_bound(m, idx, k - 1, e);
        lemma_trans_total_mono(m, e + 1, bound);
    }
}

pub fn regex_to_gnf_cfg_model(label: &Vec<char>, m: &NfaModel) -> (r: Result<(Grammar, Preterms), NfaError>)
    requires
        model_wf(m),
    ensures
        r matches Ok((g, p)) ==> grammar_wf(&g) && p.wf() && all_prods(&g, |rr: Seq<Seq<char>>| right_linear(&p, rr)),
        r matches Ok((g, p)) ==> nfa_grammar_of(label@, m, &g, &p),
        r matches Err(e) ==> e is TooManyPreterminals,
        r is Err ==> m.states.len() * trans_total(m, m.states.len() as int) > usize::MAX,
{
    let n = m.states.len();
    let ghost tt = trans_total(m, n as int);
    let start = m.start;
    let reachable = closure(m, start, true);
    let mut cfg = new_grammar();
    let mut preterms: Preterms = SymMap::new();
    let mut p_count: usize = 0;
    let ghost lb = label@;
    let mut ri: usize = 0;
    while ri < reachable.len()
        invariant
            model_wf(m),
            n == m.states.len(),
            start == m.start,
            lb == label@,
            ri <= reachable.len(),
            forall|k: int| 0 <= k < reachable.len() ==> #[trigger] reachable@[k] < n,
            forall|y: usize| reachable@.contains(y) <==> #[trigger] reaches(m, true, start, y),
            grammar_wf(&cfg),
            preterms.wf(),
            all_prods(&cfg, |rr: Seq<Seq<char>>| right_linear(&preterms, rr)),
            pre_fresh(lb, &preterms, p_count as nat),
            forall|x: Seq<char>, rr: Seq<Seq<char>>| #[trigger] prods(&cfg, x).contains(rr) ==> nfa_prod(lb, m, &preterms, x, rr),
            forall|j: int, t: NfaTrans| 0 <= j < ri && #[trigger] read_from(m, reachable@[j], t) ==> trans_done(lb, m, &preterms, &cfg, reachable@[j], t),
            tt == trans_total(m, n as int),
            p_count <= ri * tt,
            forall|a: int, b: int| 0 <= a < b < reachable.len() ==> reachable@[a] < reachable@[b],
        decreases reachable.len() - ri,
    {
        let sid = reachable[ri];
        assert(reachable@.contains(sid));
        let src_sym = state_name(label, sid, start);
        let cl = closure(m, sid, false);
        proof {
            lemma_trans_of_list_bound(m, cl@, cl.len() as int, n as int);
            assert forall|a: int| 0 <= a < ri + 1 implies #[trigger] reachable@[a] < n by {}
            lemma_incr_len(reachable@, ri + 1, n as int);
        }
        let mut ci: usize = 0;
        while ci < cl.len()
            invariant
                model_wf(m),
                n == m.states.len(),
                start == m.start,
                lb == label@,
                ri < reachable.len(),
                sid == reachable@[ri as int],
                reaches(m, true, start, sid),
                src_sym@ == state_name_spec(lb, sid as nat, start as nat),
                ci <= cl.len(),
                forall|k: int| 0 <= k < reachable.len() ==> #[trigger] reachable@[k] < n,
                forall|k: int| 0 <= k < cl.len() ==> #[trigger] cl@[k] < n,
                forall|y: usize| cl@.contains(y) <==> #[trigger] reaches(m, false, sid, y),
                grammar_wf(&cfg),
                preterms.wf(),
                all_prods(&cfg, |rr: Seq<Seq<char>>| right_linear(&preterms, rr)),
                pre_fresh(lb, &preterms, p_count as nat),
                forall|x: Seq<char>, rr: Seq<Seq<char>>| #[trigger] prods(&cfg, x).contains(rr) ==> nfa_prod(lb, m, &preterms, x, rr),
                forall|j: int, t: NfaTrans| 0 <= j < ri && #[trigger] read_from(m, reachable@[j], t) ==> trans_done(lb, m, &preterms, &cfg, reachable@[j], t),
                forall|j: int, t: NfaTrans| 0 <= j < ci && #[trigger] trans_of(m.states@[cl@[j] as int]).contains(t) ==> trans_done(lb, m, &preterms, &cfg, sid, t),
                tt == trans_total(m, n as int),
                p_count <= ri * tt + trans_of_list(m, cl@, ci as int),
                trans_of_list(m, cl@, cl.len() as int) <= tt,
                ri < n,
            decreases cl.len() - ci,
        {
            let csid = cl[ci];
            assert(cl@.contains(csid));
            assert(state_wf(m.states@[csid as int], n as int));
            let transitions = trans_list(&m.states[csid], Ghost(n as int));
            let mut ti: usize = 0;
            while ti < transitions.len()
                invariant
                    model_wf(m),
                    n == m.states.len(),
                    start == m.start,
                    lb == label@,
                    ri < reachable.len(),
                    sid == reachable@[ri as int],
                    reaches(m, true, start, sid),
                    reaches(m, false, sid, csid),
                    src_sym@ == state_name_spec(lb, sid as nat, start as nat),
                    ci < cl.len(),
                    csid == cl@[ci as int],
                    ti <= transitions.len(),
                    transitions@ == trans_of(m.states@[csid as int]),
                    forall|k: int| 0 <= k < transitions.len() ==> (#[trigger] transitions@[k]).next < n,
                    grammar_wf(&cfg),
                    preterms.wf(),
                    all_prods(&cfg, |rr: Seq<Seq<char>>| right_linear(&preterms, rr)),
                    pre_fresh(lb, &preterms, p_count as nat),
                    forall|x: Seq<char>, rr: Seq<Seq<char>>| #[trigger] prods(&cfg, x).contains(rr) ==> nfa_prod(lb, m, &preterms, x, rr),
                    forall|j: int, t: NfaTrans| 0 <= j < ri && #[trigger] read_from(m, reachable@[j], t) ==> trans_done(lb, m, &preterms, &cfg, reachable@[j], t),
                    forall|j: int, t: NfaTrans| 0 <= j < ci && #[trigger] trans_of(m.states@[cl@[j] as int]).contains(t) ==> trans_done(lb, m, &preterms, &cfg, sid, t),
                    forall|j: int| 0 <= j < ti ==> trans_done(lb, m, &preterms, &cfg, sid, #[trigger] transitions@[j]),
                    tt == trans_total(m, n as int),
                    p_count <= ri * tt + trans_of_list(m, cl@, ci as int) + ti,
                    trans_of_list(m, cl@, cl.len() as int) <= tt,
                    ri < n,
                decreases transitions.len() - ti,
            {
                let trans = &transitions[ti];
                assert(transitions@[ti as int].next < n);
                let next = trans.next;
                let next_closure = closure(m, next, false);
                let (accepting, has_out) = accepting_and_out(m, &next_closure);
                proof {
                    if accepting {
                        let k = choose|k: int| 0 <= k < next_closure.len() && m.states@[#[trigger] next_closure@[k] as int] is Match;
                        assert(next_closure@.contains(next_closure@[k]));
                        assert(reaches(m, false, next, next_closure@[k]));
                    }
                    if closure_accepts(m, next) {
                        let y = choose|y: usize| #[trigger] reaches(m, false, next, y) && m.states@[y as int] is Match;
                        assert(next_closure@.contains(y));
                        let k = choose|k: int| 0 <= k < next_closure.len() && next_closure@[k] == y;
                        assert(m.states@[next_closure@[k] as int] is Match);
                    }
                    if has_out {
                        let k = choose|k: int| 0 <= k < next_closure.len() && byte_state(m.states@[#[trigger] next_closure@[k] as int]);
                        assert(next_closure@.contains(next_closure@[k]));
                        assert(reaches(m, false, next, next_closure@[k]));
                    }
                    if closure_reads(m, next) {
                        let y = choose|y: usize| #[trigger] reaches(m, false, next, y) && byte_state(m.states@[y as int]);
                        assert(next_closure@.contains(y));
                        let k = choose|k: int| 0 <= k < next_closure.len() && next_closure@[k] == y;
                        assert(byte_state(m.states@[next_closure@[k] as int]));
                    }
                    assert(accepting == closure_accepts(m, next));
                    assert(has_out == closure_reads(m, next));
                }
                let mut p: Vec<char> = clone_sym(label);
                p.push('[');
                p.push('P');
                push_decimal(&mut p, p_count);
                p.push(']');
                assert(p@ =~= pname(lb, p_count as nat));
                if p_count == usize::MAX {
                    proof {
                        assert(trans_of_list(m, cl@, ci + 1) == trans_of_list(m, cl@, ci as int) + transitions.len());
                        lemma_trans_of_list_mono(m, cl@, ci + 1, cl.len() as int);
                        let ri_i = ri as int;
                        let n_i = n as int;
                        let t_i = tt as int;
                        assert(ri_i * t_i + t_i <= n_i * t_i) by (nonlinear_arith)
                            requires ri_i + 1 <= n_i, t_i >= 0;
                        assert(ti < transitions.len());
                        assert(p_count <= ri * tt + trans_of_list(m, cl@, ci as int) + ti);
                        assert(trans_of_list(m, cl@, ci as int) + ti < trans_of_list(m, cl@, ci + 1));
                        assert(trans_of_list(m, cl@, ci + 1) <= tt);
                        assert(usize::MAX < ri_i * t_i + t_i);
                        assert(usize::MAX < n_i * t_i);
                        assert(n_i * t_i == m.states.len() * trans_total(m, m.states.len() as int));
                    }
                    return Err(NfaError::TooManyPreterminals);
                }
                proof {
                    if preterms@.contains_key(p@) {
                        let j = choose|j: nat| j < p_count && p@ == pname(lb, j);
                        lemma_pname_injective(lb, j, p_count as nat);
                    }
                }
                let ghost pc0 = p_count;
                p_count = p_count + 1;
                let bytes = byte_range(trans.start, trans.end);
                let ghost pre0 = preterms;
                let ghost cfg0 = cfg;
                let ghost tr = *trans;
                preterms.insert(clone_sym(&p), bytes);
                proof {
                    assert(transitions@.contains(tr));
                    assert(read_from(m, sid, tr));
                    assert forall|k: Seq<char>| #[trigger] pre0@.contains_key(k) implies preterms@.contains_key(k) && preterms@[k] == pre0@[k] by {
                        assert(k != p@);
                    }
                    assert forall|k: Seq<char>| #[trigger] preterms@.contains_key(k) implies exists|j: nat| j < p_count && k == pname(lb, j) by {
                        if k != p@ {
                            assert(pre0@.contains_key(k));
                            let j = choose|j: nat| j < pc0 && k == pname(lb, j);
                            assert(j < p_count && k == pname(lb, j));
                        } else {
                            assert(pc0 < p_count && k == pname(lb, pc0 as nat));
                        }
                    }
                    assert forall|k: Seq<char>, rr: Seq<Seq<char>>| #[trigger] prods(&cfg, k).contains(rr) implies right_linear(&preterms, rr) by {
                        assert(right_linear(&pre0, rr));
                    }
                    assert forall|x: Seq<char>| #[trigger] prods(&cfg0, x).subset_of(prods(&cfg, x)) by {}
                    lemma_grow(lb, m, &pre0, &cfg0, &preterms, &cfg);
                }
                if accepting {
                    let ghost c0 = cfg;
                    let rhs: Rhs = vec![clone_sym(&p)];
                    sdict_add(&mut cfg, &src_sym, rhs);
                    proof {
                        assert(rhs_view(rhs@) =~= seq![p@]);
                        assert forall|k: Seq<char>, rr: Seq<Seq<char>>| #[trigger] prods(&cfg, k).contains(rr) implies right_linear(&preterms, rr) by {
                            if !prods(&c0, k).contains(rr) {
                                assert(rr == seq![p@]);
                            }
                        }
                        assert forall|x: Seq<char>| #[trigger] prods(&c0, x).subset_of(prods(&cfg, x)) by {}
                        lemma_grow(lb, m, &preterms, &c0, &preterms, &cfg);
                        assert forall|x: Seq<char>, rr: Seq<Seq<char>>| #[trigger] prods(&cfg, x).contains(rr) implies nfa_prod(lb, m, &preterms, x, rr) by {
                            if !prods(&c0, x).contains(rr) {
                                assert(rr == seq![p@]);
                                assert(x == src_sym@);
                                assert(trans_prod(lb, m, tr, rr[0], rr));
                            } else {
                                assert(nfa_prod(lb, m, &preterms, x, rr));
                            }
                        }
                    }
                }
                if !accepting || has_out {
                    let dst = state_name(label, next, start);
                    let ghost c0 = cfg;
                    let rhs: Rhs = vec![clone_sym(&p), dst];
                    proof {
                        assert(rhs_view(rhs@) =~= seq![p@, rhs@[1]@]);
                    }
                    sdict_add(&mut cfg, &src_sym, rhs);
                    proof {
                        assert forall|k: Seq<char>, rr: Seq<Seq<char>>| #[trigger] prods(&cfg, k).contains(rr) implies right_linear(&preterms, rr) by {
                            if !prods(&c0, k).contains(rr) {
                                assert(rr[0] == p@);
                            }
                        }
                        assert forall|x: Seq<char>| #[trigger] prods(&c0, x).subset_of(prods(&cfg, x)) by {}
                        lemma_grow(lb, m, &preterms, &c0, &preterms, &cfg);
                        assert forall|x: Seq<char>, rr: Seq<Seq<char>>| #[trigger] prods(&cfg, x).contains(rr) implies nfa_prod(lb, m, &preterms, x, rr) by {
                            if !prods(&c0, x).contains(rr) {
                                assert(rr == seq![p@, state_name_spec(lb, next as nat, start as nat)]);
                                assert(x == src_sym@);
                                assert(trans_prod(lb, m, tr, rr[0], rr));
                            } else {
                                assert(nfa_prod(lb, m, &preterms, x, rr));
                            }
                        }
                    }
                }
                proof {
                    assert forall|rr: Seq<Seq<char>>| trans_prod(lb, m, tr, p@, rr) implies #[trigger] prods(&cfg, state_name_spec(lb, sid as nat, start as nat)).contains(rr) by {
                        if rr == seq![p@] && closure_accepts(m, tr.next) {
                            assert(accepting);
                        } else {
                            assert(!accepting || has_out);
                        }
                    }
                    assert(preterms@.contains_key(p@) && preterms@[p@]@ == range_bytes(tr.start, tr.end));
                    assert(trans_done(lb, m, &preterms, &cfg, sid, tr));
                }
                ti = ti + 1;
            }
            proof {
                assert(trans_of_list(m, cl@, ci + 1) == trans_of_list(m, cl@, ci as int) + transitions.len());
                assert forall|j: int, t: NfaTrans| 0 <= j < ci + 1 && #[trigger] trans_of(m.states@[cl@[j] as int]).contains(t) implies trans_done(lb, m, &preterms, &cfg, sid, t) by {
                    if j == ci {
                        let k = choose|k: int| 0 <= k < transitions@.len() && transitions@[k] == t;
                        assert(trans_done(lb, m, &preterms, &cfg, sid, transitions@[k]));
                    }
                }
            }
            ci = ci + 1;
        }
        proof {
            let ri_i = ri as int;
            let t_i = tt as int;
            assert(ri_i * t_i + t_i == (ri_i + 1) * t_i) by (nonlinear_arith);
            assert forall|j: int, t: NfaTrans| 0 <= j < ri + 1 && #[trigger] read_from(m, reachable@[j], t) implies trans_done(lb, m, &preterms, &cfg, reachable@[j], t) by {
                if j == ri {
                    let csid = choose|csid: usize| #[trigger] reaches(m, false, sid, csid) && trans_of(m.states@[csid as int]).contains(t);
                    assert(cl@.contains(csid));
                    let k = choose|k: int| 0 <= k < cl@.len() && cl@[k] == csid;
                    assert(trans_of(m.states@[cl@[k] as int]).contains(t));
                }
            }
        }
        ri = ri + 1;
    }
    proof {
        assert forall|sid: usize, t: NfaTrans| #[trigger] read_from(m, sid, t) implies trans_done(lb, m, &preterms, &cfg, sid, t) by {
            assert(reachable@.contains(sid));
            let j = choose|j: int| 0 <= j < reachable@.len() && reachable@[j] == sid;
            assert(read_from(m, reachable@[j], t));
        }
    }
    Ok((cfg, preterms))
}

/// The grammar `g` over preterminals `p` is the right-linear grammar of
/// NFA model `m` as `regex_to_gnf_cfg_model` makes it.
pub open spec fn nfa_grammar_of(label: Seq<char>, m: &NfaModel, g: &Grammar, p: &Preterms) -> bool {
    &&& forall|x: Seq<char>, rr: Seq<Seq<char>>| #[trigger] prods(g, x).contains(rr) ==> nfa_prod(label, m, p, x, rr)
    &&& forall|sid: usize, t: NfaTrans| #[trigger] read_from(m, sid, t) ==> trans_done(label, m, p, g, sid, t)
}

/// A model holds the start and the states of the NFA compiled from
/// `regex`.
pub open spec fn models_compiled(m: &NfaModel, regex: Seq<char>) -> bool {
    (m.start as nat, m.states@) == compiled_nfa(regex)
}

/// The right-linear grammar of a terminal's regular expression, compiled
/// by `regex_automata`: a rejected pattern is an error, as is an
/// automaton that refers to states it does not have; otherwise the
/// grammar is that of the compiled automaton.
pub fn regex_to_gnf_cfg(label: &Vec<char>, regex: &Vec<char>) -> (r: Result<(Grammar, Preterms), NfaError>)
    ensures
        r matches Ok((g, p)) ==> grammar_wf(&g) && p.wf() && all_prods(&g, |rr: Seq<Seq<char>>| right_linear(&p, rr)),
        r matches Ok((g, p)) ==> regex_compiles(regex@) && exists|m: NfaModel| #[trigger] models_compiled(&m, regex@) && model_wf(&m) && nfa_grammar_of(label@, &m, &g, &p),
        !regex_compiles(regex@) <==> r matches Err(NfaError::Compile(_)),
        r matches Err(NfaError::Compile(x)) ==> x@ == regex@,
        r matches Err(NfaError::Malformed) ==> regex_compiles(regex@) && forall|m: NfaModel| #[trigger] models_compiled(&m, regex@) ==> !model_wf(&m),
        r matches Err(NfaError::TooManyPreterminals) ==> too_many_preterms(regex@),
{
    let nfa = match nfa_compile(regex) {
        Some(nfa) => nfa,
        None => {
            return Err(NfaError::Compile(clone_sym(regex)));
        },
    };
    let m = load_nfa(&nfa);
    assert(models_compiled(&m, regex@));
    if !check_model(&m) {
        proof {
            assert forall|m2: NfaModel| #[trigger] models_compiled(&m2, regex@) implies !model_wf(&m2) by {
                assert(m2.start == m.start);
                assert(m2.states@ == m.states@);
                if model_wf(&m2) {
                    assert forall|i: int| 0 <= i < m.states.len() implies state_wf(#[trigger] m.states@[i], m.states.len() as int) by {
                        assert(state_wf(m2.states@[i], m2.states.len() as int));
                    }
                }
            }
        }
        return Err(NfaError::Malformed);
    }
    regex_to_gnf_cfg_model(label, &m)
}

} // verus!
