//! The token traversal: a GNF grammar over byte preterminals is run as a
//! pushdown recognizer on the bytes of each token, from every context at
//! once. A search state holds the stack of non-terminals entered before
//! the token started (`in_stack`), the stack still to be matched
//! (`out_stack`), the last non-terminal consumed, and whether the token may
//! still pop out of its starting context. Tokens are walked in a trie so
//! that shared prefixes share their frontiers.
use vstd::prelude::*;
use vstd::hash_set::HashSetWithView;
use vstd::multiset::Multiset;
use crate::table::{SeqTable, clone_usizes};
use crate::sorting::{SortKey, sorted_by_key, sort_by_key};
use crate::adjacency::lex_before;

verus! {

broadcast use vstd::std_specs::hash::group_hash_axioms;

/// Interned stacks of symbol numbers; stack `0` is the empty stack.
pub struct StackInterner {
    pub table: SeqTable,
}

impl StackInterner {
    pub open spec fn wf(&self) -> bool {
        &&& self.table.wf()
        &&& self.table.seqs.len() >= 1
        &&& self.table.at(0) == Seq::<usize>::empty()
    }

    /// The stack numbered `id`.
    pub open spec fn stack(&self, id: int) -> Seq<usize> {
        self.table.at(id)
    }

    pub open spec fn size(&self) -> nat {
        self.table.seqs.len() as nat
    }

    /// `new` keeps every stack of `self` under its number.
    pub open spec fn extends(&self, new: &Self) -> bool {
        &&& self.size() <= new.size()
        &&& forall|i: int| 0 <= i < self.size() ==> #[trigger] new.stack(i) == self.stack(i)
    }

    /// An interner holding only the empty stack, numbered `0`.
    pub fn new() -> (r: Self)
        ensures
            r.wf(),
            r.size() == 1,
    {
        let mut table = SeqTable::new();
        table.intern(Vec::new());
        StackInterner { table }
    }

    pub fn len(&self) -> (r: usize)
        ensures
            r == self.size(),
    {
        self.table.len()
    }

    /// The contents of stack `id`.
    pub fn get(&self, id: usize) -> (r: &Vec<usize>)
        requires
            id < self.size(),
        ensures
            r@ == self.stack(id as int),
    {
        &self.table.seqs[id]
    }

    /// The number of `stack`, numbering it if it is new.
    pub fn intern_vec(&mut self, stack: Vec<usize>) -> (id: usize)
        requires
            old(self).wf(),
        ensures
            final(self).wf(),
            old(self).extends(final(self)),
            id < final(self).size(),
            final(self).stack(id as int) == stack@,
            (exists|i: int| 0 <= i < old(self).size() && #[trigger] old(self).stack(i) == stack@) ==> final(self).size() == old(self).size(),
            !(exists|i: int| 0 <= i < old(self).size() && #[trigger] old(self).stack(i) == stack@) ==> final(self).size() == old(self).size() + 1 && id == old(self).size(),
    {
        let ghost s0 = *self;
        let ghost sv = stack@;
        let id = self.table.intern(stack);
        proof {
            if !(exists|i: int| 0 <= i < s0.size() && #[trigger] s0.stack(i) == sv) {
                if self.size() == s0.size() {
                    assert(s0.stack(id as int) == sv);
                }
            }
        }
        id
    }

    /// The number of `stack`; the empty stack is always `0`.
    pub fn intern_slice(&mut self, stack: &Vec<usize>) -> (id: usize)
        requires
            old(self).wf(),
        ensures
            final(self).wf(),
            old(self).extends(final(self)),
            id < final(self).size(),
            final(self).stack(id as int) == stack@,
            stack@.len() == 0 ==> id == 0,
            (exists|i: int| 0 <= i < old(self).size() && #[trigger] old(self).stack(i) == stack@) ==> final(self).size() == old(self).size(),
            !(exists|i: int| 0 <= i < old(self).size() && #[trigger] old(self).stack(i) == stack@) ==> final(self).size() == old(self).size() + 1 && id == old(self).size(),
    {
        if stack.len() == 0 {
            assert(stack@ =~= Seq::<usize>::empty());
            assert(self.stack(0) == stack@);
            return 0;
        }
        self.intern_vec(clone_usizes(stack))
    }

    /// The number of stack `id` with `sym` pushed on its end.
    pub fn push(&mut self, stack_id: usize, sym: usize) -> (id: usize)
        requires
            old(self).wf(),
            stack_id < old(self).size(),
        ensures
            final(self).wf(),
            old(self).extends(final(self)),
            id < final(self).size(),
            final(self).stack(id as int) == old(self).stack(stack_id as int).push(sym),
    {
        let mut stack = clone_usizes(&self.table.seqs[stack_id]);
        stack.push(sym);
        self.intern_vec(stack)
    }

    /// The number of `prefix` followed by stack `tail_id` without its first
    /// `tail_start` symbols.
    pub fn prepend_to_tail(&mut self, prefix: &Vec<usize>, tail_id: usize, tail_start: usize) -> (id: usize)
        requires
            old(self).wf(),
            tail_id < old(self).size(),
            tail_start <= old(self).stack(tail_id as int).len(),
        ensures
            final(self).wf(),
            old(self).extends(final(self)),
            id < final(self).size(),
            final(self).stack(id as int) == prefix@ + old(self).stack(tail_id as int).skip(tail_start as int),
    {
        let tail = &self.table.seqs[tail_id];
        if prefix.len() == 0 && tail_start == tail.len() {
            assert(prefix@ + self.stack(tail_id as int).skip(tail_start as int) =~= Seq::<usize>::empty());
            return 0;
        }
        let mut stack: Vec<usize> = clone_usizes(prefix);
        let mut i: usize = tail_start;
        while i < tail.len()
            invariant
                tail_start <= i <= tail.len(),
                stack@ =~= prefix@ + tail@.subrange(tail_start as int, i as int),
            decreases tail.len() - i,
        {
            stack.push(tail[i]);
            i = i + 1;
        }
        self.intern_vec(stack)
    }

    /// The first symbol of stack `id`.
    pub fn first(&self, stack_id: usize) -> (r: Option<usize>)
        requires
            stack_id < self.size(),
        ensures
            r == (if self.stack(stack_id as int).len() > 0 { Some(self.stack(stack_id as int)[0]) } else { None::<usize> }),
    {
        let s = &self.table.seqs[stack_id];
        if s.len() > 0 {
            Some(s[0])
        } else {
            None
        }
    }

    /// Whether stack `id` is empty.
    pub fn is_empty(&self, stack_id: usize) -> (r: bool)
        requires
            stack_id < self.size(),
        ensures
            r == (self.stack(stack_id as int).len() == 0),
    {
        self.table.seqs[stack_id].len() == 0
    }
}

/// A search state of the traversal.
#[derive(Clone, Copy, PartialEq, Eq, Structural)]
pub struct SearchState {
    pub in_stack: usize,
    pub out_stack: usize,
    pub prev_symbol: Option<usize>,
    pub allow_bt: bool,
}

/// A search state as a sequence of numbers, for hashing.
pub open spec fn encode(s: SearchState) -> Seq<usize> {
    seq![
        s.in_stack,
        s.out_stack,
        if s.prev_symbol is Some { 1usize } else { 0usize },
        match s.prev_symbol {
            Some(v) => v,
            None => 0usize,
        },
        if s.allow_bt { 1usize } else { 0usize },
    ]
}

proof fn lemma_encode_injective(a: SearchState, b: SearchState)
    requires
        encode(a) == encode(b),
    ensures
        a == b,
{
    assert(encode(a)[0] == encode(b)[0]);
    assert(encode(a)[1] == encode(b)[1]);
    assert(encode(a)[2] == encode(b)[2]);
    assert(encode(a)[3] == encode(b)[3]);
    assert(encode(a)[4] == encode(b)[4]);
}

fn encode_state(s: &SearchState) -> (r: Vec<usize>)
    ensures
        r@ == encode(*s),
{
    let tag: usize = if s.prev_symbol.is_some() { 1 } else { 0 };
    let val: usize = match s.prev_symbol {
        Some(v) => v,
        None => 0,
    };
    let bt: usize = if s.allow_bt { 1 } else { 0 };
    let r = vec![s.in_stack, s.out_stack, tag, val, bt];
    assert(r@ =~= encode(*s));
    r
}

/// A set of search states, in insertion order.
pub struct Frontier {
    pub states: Vec<SearchState>,
    pub index: SeqTable,
}

impl Frontier {
    pub open spec fn wf(&self) -> bool {
        &&& self.index.wf()
        &&& self.index.seqs.len() == self.states.len()
        &&& forall|i: int| 0 <= i < self.states.len() ==> #[trigger] self.index.at(i) == encode(self.states@[i])
    }

    /// The states as a set.
    pub open spec fn view(&self) -> Set<SearchState> {
        self.states@.to_set()
    }

    pub fn new() -> (r: Self)
        ensures
            r.wf(),
            r@ == Set::<SearchState>::empty(),
            r.states.len() == 0,
    {
        let r = Frontier { states: Vec::new(), index: SeqTable::new() };
        assert(r@ =~= Set::<SearchState>::empty());
        r
    }

    pub fn len(&self) -> (r: usize)
        ensures
            r == self.states.len(),
    {
        self.states.len()
    }

    /// Adds a state to the set.
    pub fn insert(&mut self, s: SearchState)
        requires
            old(self).wf(),
        ensures
            final(self).wf(),
            final(self)@ == old(self)@.insert(s),
    {
        let e = encode_state(&s);
        let ghost old_self = *self;
        let n0 = self.index.len();
        let id = self.index.intern(e);
        if self.index.len() > n0 {
            self.states.push(s);
            proof {
                assert forall|i: int| 0 <= i < self.states.len() implies #[trigger] self.index.at(i) == encode(self.states@[i]) by {
                    if i < n0 {
                        assert(self.index.seqs@[i] == old_self.index.seqs@[i]);
                        assert(self.states@[i] == old_self.states@[i]);
                        assert(old_self.index.at(i) == encode(old_self.states@[i]));
                    } else {
                        assert(id == n0);
                        assert(self.states@[i] == s);
                    }
                }
                assert(self.states@ =~= old_self.states@.push(s));
                assert forall|x: SearchState| self@.contains(x) <==> old_self@.insert(s).contains(x) by {
                    if self@.contains(x) {
                        let j = choose|j: int| 0 <= j < self.states@.len() && self.states@[j] == x;
                        if j < n0 {
                            assert(old_self.states@[j] == x);
                        }
                    }
                    if old_self@.contains(x) {
                        let j = choose|j: int| 0 <= j < old_self.states@.len() && old_self.states@[j] == x;
                        assert(self.states@[j] == x);
                    }
                    if x == s {
                        assert(self.states@[n0 as int] == x);
                    }
                }
                assert(self@ =~= old_self@.insert(s));
            }
        } else {
            proof {
                assert forall|i: int| 0 <= i < self.states.len() implies #[trigger] self.index.at(i) == encode(self.states@[i]) by {
                    assert(self.index.seqs@[i] == old_self.index.seqs@[i]);
                    assert(old_self.index.at(i) == encode(old_self.states@[i]));
                }
                assert(old_self.index.at(id as int) == encode(s));
                assert(self.index.seqs@[id as int] == old_self.index.seqs@[id as int]);
                lemma_encode_injective(old_self.states@[id as int], s);
                assert(old_self@.contains(s));
                assert(self@ =~= old_self@.insert(s));
            }
        }
    }
}

/// A set of previous symbols a non-terminal may follow on the stack
/// (`None`: the bottom of a context).
pub struct AdjSet {
    pub none: bool,
    pub syms: HashSetWithView<usize>,
}

impl AdjSet {
    pub open spec fn contains_spec(&self, p: Option<usize>) -> bool {
        match p {
            None => self.none,
            Some(v) => self.syms@.contains(v),
        }
    }

    pub fn new() -> (r: Self)
        ensures
            forall|p: Option<usize>| !r.contains_spec(p),
    {
        AdjSet { none: false, syms: HashSetWithView::new() }
    }

    pub fn insert(&mut self, p: Option<usize>)
        ensures
            forall|q: Option<usize>| final(self).contains_spec(q) == (old(self).contains_spec(q) || q == p),
    {
        match p {
            None => {
                self.none = true;
            },
            Some(v) => {
                self.syms.insert(v);
            },
        }
    }

    pub fn contains(&self, p: Option<usize>) -> (r: bool)
        ensures
            r == self.contains_spec(p),
    {
        match p {
            None => self.none,
            Some(v) => self.syms.contains(&v),
        }
    }
}

/// The grammar with symbols as numbers, arranged for the traversal:
/// the preterminals of each byte, the non-terminals each symbol can start
/// a production of, the rest of those productions, and which symbols a
/// non-terminal may follow on a stack.
pub struct IntGrammar {
    /// For each byte, the preterminals that accept it.
    pub preterms_rev: Vec<Vec<usize>>,
    /// For each symbol `b`, the non-terminals `a` with a production `a -> b ...`.
    pub nt_map: Vec<Vec<usize>>,
    /// For each symbol `b`, each `a` with the rests of its productions `a -> b rest`.
    pub transitions: Vec<Vec<(usize, Vec<Vec<usize>>)>>,
    /// For each symbol, the previous symbols it may follow.
    pub stack_adj: Vec<AdjSet>,
    pub start: usize,
}

impl IntGrammar {
    /// Every symbol number used to index the tables is in range.
    pub open spec fn wf(&self) -> bool {
        let n = self.nt_map.len();
        &&& self.preterms_rev.len() == 256
        &&& self.transitions.len() == n
        &&& self.stack_adj.len() == n
        &&& forall|b: int, k: int| 0 <= b < 256 && 0 <= k < self.preterms_rev@[b].len() ==> #[trigger] self.preterms_rev@[b]@[k] < n
        &&& forall|b: int, k: int| 0 <= b < n && 0 <= k < self.nt_map@[b].len() ==> #[trigger] self.nt_map@[b]@[k] < n
    }
}

/// The position of the first entry for `a` in a transition list.
pub open spec fn first_entry(list: Seq<(usize, Vec<Vec<usize>>)>, a: usize) -> Option<int> {
    if exists|k: int| 0 <= k < list.len() && #[trigger] list[k].0 == a {
        Some(choose|k: int| 0 <= k < list.len() && #[trigger] list[k].0 == a && forall|j: int| 0 <= j < k ==> #[trigger] list[j].0 != a)
    } else {
        None
    }
}

/// The rests listed for `a` under `b` (in the first entry for `a`).
pub open spec fn rests(ig: &IntGrammar, b: int, a: usize) -> Option<Seq<Vec<usize>>> {
    match first_entry(ig.transitions@[b]@, a) {
        Some(k) => Some(ig.transitions@[b]@[k].1@),
        None => None,
    }
}

/// The rests of the productions `a -> b rest`, as listed for `b`.
pub fn transitions_of(ig: &IntGrammar, b: usize, a: usize) -> (r: Option<&Vec<Vec<usize>>>)
    requires
        b < ig.transitions.len(),
    ensures
        match r {
            Some(v) => rests(ig, b as int, a) == Some(v@),
            None => rests(ig, b as int, a) is None,
        },
{
    let list = &ig.transitions[b];
    let mut k: usize = 0;
    while k < list.len()
        invariant
            k <= list.len(),
            b < ig.transitions.len(),
            *list == ig.transitions@[b as int],
            forall|j: int| 0 <= j < k ==> #[trigger] list@[j].0 != a,
        decreases list.len() - k,
    {
        if list[k].0 == a {
            proof {
                let l = ig.transitions@[b as int]@;
                assert(l[k as int].0 == a);
                let f = choose|q: int| 0 <= q < l.len() && #[trigger] l[q].0 == a && forall|j: int| 0 <= j < q ==> #[trigger] l[j].0 != a;
                assert(forall|j: int| 0 <= j < k ==> #[trigger] l[j].0 != a);
                if f < k {
                    assert(l[f].0 != a);
                } else if f > k {
                    assert(l[k as int].0 != a);
                }
            }
            return Some(&list[k].1);
        }
        k = k + 1;
    }
    None
}

/// The two starting states of a token: one that may pop out of the
/// context the token starts in, and one that starts a derivation of the
/// start symbol.
pub fn initial_frontier(start: usize) -> (r: (StackInterner, Frontier))
    ensures
        r.0.wf(),
        r.1.wf(),
        forall|k: int| 0 <= k < r.1.states.len() ==> #[trigger] r.1.states@[k].in_stack < r.0.size() && r.1.states@[k].out_stack < r.0.size(),
        forall|b: AbsState| #[trigger] in_image(&r.1, &r.0, b) == initial_states(start).contains(b),
        r.0.size() == 2,
        r.0.stack(0) == Seq::<usize>::empty(),
        r.0.stack(1) == seq![start],
        r.1@ == set![
            SearchState { in_stack: 0, out_stack: 0, prev_symbol: None, allow_bt: true },
            SearchState { in_stack: 1, out_stack: 1, prev_symbol: None, allow_bt: false },
        ],
{
    let mut stacks = StackInterner::new();
    let sv = vec![start];
    proof {
        assert(sv@ =~= seq![start]);
        assert(stacks.stack(0) != sv@);
    }
    let start_stack = stacks.intern_slice(&sv);
    let mut frontier = Frontier::new();
    let ghost f0 = frontier;
    let s1 = SearchState { in_stack: 0, out_stack: 0, prev_symbol: None, allow_bt: true };
    frontier.insert(s1);
    let ghost f1 = frontier;
    let s2 = SearchState { in_stack: start_stack, out_stack: start_stack, prev_symbol: None, allow_bt: false };
    frontier.insert(s2);
    proof {
        assert(sv@ =~= seq![start]);
        lemma_image_insert(&f0, &f1, &stacks, s1);
        lemma_image_insert(&f1, &frontier, &stacks, s2);
        assert(abs_state(&stacks, s1) == (Seq::<usize>::empty(), Seq::<usize>::empty(), None::<usize>, true));
        assert(abs_state(&stacks, s2) == (seq![start], seq![start], None::<usize>, false));
        assert forall|b: AbsState| !in_image(&f0, &stacks, b) by {}
    }
    proof {
        assert forall|k: int| 0 <= k < frontier.states.len() implies #[trigger] frontier.states@[k].in_stack < stacks.size() && frontier.states@[k].out_stack < stacks.size() by {
            assert(frontier@.contains(frontier.states@[k]));
        }
        assert(frontier@ =~= set![s1, s2]);
    }
    (stacks, frontier)
}

/// All the stacks of a frontier are numbered in `stacks`.
pub open spec fn frontier_in(f: &Frontier, stacks: &StackInterner) -> bool {
    forall|k: int| #![trigger f.states@[k]] 0 <= k < f.states.len() ==> f.states@[k].in_stack < stacks.size() && f.states@[k].out_stack < stacks.size()
}

/// A search state by the contents of its stacks: the context stack, the
/// rest stack, the previous symbol, and whether it may pop out.
pub type AbsState = (Seq<usize>, Seq<usize>, Option<usize>, bool);

pub open spec fn abs_state(st: &StackInterner, s: SearchState) -> AbsState {
    (st.stack(s.in_stack as int), st.stack(s.out_stack as int), s.prev_symbol, s.allow_bt)
}

/// Rest `oi` is listed for `a` under `b`.
pub open spec fn has_rest(ig: &IntGrammar, b: int, a: usize, oi: int) -> bool {
    match rests(ig, b, a) {
        Some(v) => 0 <= oi < v.len(),
        None => false,
    }
}

/// Rest `oi` listed for `a` under `b`.
pub open spec fn rest_at(ig: &IntGrammar, b: int, a: usize, oi: int) -> Seq<usize> {
    rests(ig, b, a).unwrap()[oi]@
}

/// Entering step of `a` on `byte`: preterminal `pi` of the byte starts
/// non-terminal `si` of its list, which may follow `a`'s previous symbol,
/// with rest `oi`.
pub open spec fn enter_ok(ig: &IntGrammar, a: AbsState, byte: u8, pi: int, si: int, oi: int) -> bool {
    let pts = ig.preterms_rev@[byte as int]@;
    &&& 0 <= pi < pts.len()
    &&& 0 <= si < ig.nt_map@[pts[pi] as int].len()
    &&& ig.stack_adj@[ig.nt_map@[pts[pi] as int]@[si] as int].contains_spec(a.2)
    &&& has_rest(ig, pts[pi] as int, ig.nt_map@[pts[pi] as int]@[si], oi)
}

/// The state an entering step leads to: the non-terminal pushed on the
/// context, the rest to match next.
pub open spec fn enter_result(ig: &IntGrammar, a: AbsState, byte: u8, pi: int, si: int, oi: int) -> AbsState {
    let pt = ig.preterms_rev@[byte as int]@[pi];
    let s = ig.nt_map@[pt as int]@[si];
    (a.0.push(s), rest_at(ig, pt as int, s, oi), Some(s), a.3)
}

/// Matching step of `a` on `byte`: preterminal `pi` of the byte starts a
/// production of the first symbol still to match, with rest `oi`.
pub open spec fn shift_ok(ig: &IntGrammar, a: AbsState, byte: u8, pi: int, oi: int) -> bool {
    let pts = ig.preterms_rev@[byte as int]@;
    &&& 0 <= pi < pts.len()
    &&& a.1.len() > 0
    &&& has_rest(ig, pts[pi] as int, a.1[0], oi)
}

/// The state a matching step leads to: the first symbol to match replaced
/// by the rest of its production.
pub open spec fn shift_result(ig: &IntGrammar, a: AbsState, byte: u8, pi: int, oi: int) -> AbsState {
    let pt = ig.preterms_rev@[byte as int]@[pi];
    (a.0, rest_at(ig, pt as int, a.1[0], oi) + a.1.skip(1), Some(a.1[0]), a.3)
}

/// `b` is a state reached from `a` by reading `byte`: with nothing left to
/// match, a state that may pop out enters a non-terminal the byte starts;
/// otherwise the byte starts a production of the next symbol to match.
pub open spec fn successor(ig: &IntGrammar, a: AbsState, byte: u8, b: AbsState) -> bool {
    if a.1.len() == 0 {
        a.3 && exists|pi: int, si: int, oi: int| #[trigger] enter_ok(ig, a, byte, pi, si, oi) && enter_result(ig, a, byte, pi, si, oi) == b
    } else {
        exists|pi: int, oi: int| #[trigger] shift_ok(ig, a, byte, pi, oi) && shift_result(ig, a, byte, pi, oi) == b
    }
}

/// Some state of `f` is `b` by contents.
pub open spec fn in_image(f: &Frontier, st: &StackInterner, b: AbsState) -> bool {
    exists|k: int| 0 <= k < f.states.len() && #[trigger] abs_state(st, f.states@[k]) == b
}

proof fn lemma_image_extends(f: &Frontier, st1: &StackInterner, st2: &StackInterner)
    requires
        frontier_in(f, st1),
        st1.extends(st2),
    ensures
        forall|b: AbsState| in_image(f, st1, b) == in_image(f, st2, b),
{
    assert forall|k: int| 0 <= k < f.states.len() implies #[trigger] abs_state(st1, f.states@[k]) == abs_state(st2, f.states@[k]) by {
        let s = f.states@[k];
        assert(s.in_stack < st1.size() && s.out_stack < st1.size());
        assert(st1.stack(s.in_stack as int) == st2.stack(s.in_stack as int));
        assert(st1.stack(s.out_stack as int) == st2.stack(s.out_stack as int));
    }
    assert forall|b: AbsState| in_image(f, st1, b) == in_image(f, st2, b) by {
        if in_image(f, st1, b) {
            let k = choose|k: int| 0 <= k < f.states.len() && #[trigger] abs_state(st1, f.states@[k]) == b;
            assert(abs_state(st2, f.states@[k]) == b);
        }
        if in_image(f, st2, b) {
            let k = choose|k: int| 0 <= k < f.states.len() && #[trigger] abs_state(st2, f.states@[k]) == b;
            assert(abs_state(st1, f.states@[k]) == b);
        }
    }
}

proof fn lemma_image_insert(f0: &Frontier, f1: &Frontier, st: &StackInterner, ns: SearchState)
    requires
        f1@ == f0@.insert(ns),
    ensures
        forall|b: AbsState| in_image(f1, st, b) == (in_image(f0, st, b) || abs_state(st, ns) == b),
{
    assert forall|b: AbsState| in_image(f1, st, b) == (in_image(f0, st, b) || abs_state(st, ns) == b) by {
        if in_image(f1, st, b) {
            let k = choose|k: int| 0 <= k < f1.states.len() && #[trigger] abs_state(st, f1.states@[k]) == b;
            let x = f1.states@[k];
            assert(f1@.contains(x));
            if x != ns {
                assert(f0@.contains(x));
                let j = choose|j: int| 0 <= j < f0.states@.len() && f0.states@[j] == x;
                assert(abs_state(st, f0.states@[j]) == b);
            }
        }
        if in_image(f0, st, b) {
            let k = choose|k: int| 0 <= k < f0.states.len() && #[trigger] abs_state(st, f0.states@[k]) == b;
            let x = f0.states@[k];
            assert(f0@.contains(x));
            assert(f1@.contains(x));
            let j = choose|j: int| 0 <= j < f1.states@.len() && f1.states@[j] == x;
            assert(abs_state(st, f1.states@[j]) == b);
        }
        if abs_state(st, ns) == b {
            assert(f1@.contains(ns));
            let j = choose|j: int| 0 <= j < f1.states@.len() && f1.states@[j] == ns;
            assert(abs_state(st, f1.states@[j]) == b);
        }
    }
}

/// Some entering step before position `(pi, si, oi)` leads to `b`.
pub open spec fn enter_before(ig: &IntGrammar, a: AbsState, byte: u8, pi: int, si: int, oi: int, b: AbsState) -> bool {
    exists|pi2: int, si2: int, oi2: int| #[trigger] enter_ok(ig, a, byte, pi2, si2, oi2) && lex_before(pi2, si2, oi2, pi, si, oi) && enter_result(ig, a, byte, pi2, si2, oi2) == b
}

/// Some matching step before position `(pi, oi)` leads to `b`.
pub open spec fn shift_before(ig: &IntGrammar, a: AbsState, byte: u8, pi: int, oi: int, b: AbsState) -> bool {
    exists|pi2: int, oi2: int| #[trigger] shift_ok(ig, a, byte, pi2, oi2) && (pi2 < pi || (pi2 == pi && oi2 < oi)) && shift_result(ig, a, byte, pi2, oi2) == b
}

/// Adds to `next` the states reached from `state` by reading `byte`.
fn add_successors(state: SearchState, byte: u8, ig: &IntGrammar, stacks: &mut StackInterner, next: &mut Frontier)
    requires
        ig.wf(),
        old(stacks).wf(),
        state.in_stack < old(stacks).size(),
        state.out_stack < old(stacks).size(),
        old(next).wf(),
        frontier_in(old(next), old(stacks)),
    ensures
        final(stacks).wf(),
        old(stacks).extends(final(stacks)),
        final(next).wf(),
        frontier_in(final(next), final(stacks)),
        forall|b: AbsState| #[trigger] in_image(final(next), final(stacks), b) == (in_image(old(next), old(stacks), b) || successor(ig, abs_state(old(stacks), state), byte, b)),
        ig.preterms_rev@[byte as int].len() == 0 ==> *final(stacks) == *old(stacks),
{
    let ghost s0 = *stacks;
    let ghost n0 = *next;
    let ghost a = abs_state(&s0, state);
    let pts = &ig.preterms_rev[byte as usize];
    if pts.len() == 0 {
        proof {
            assert forall|b: AbsState| !successor(ig, a, byte, b) by {
                if a.1.len() == 0 {
                    assert forall|pi: int, si: int, oi: int| !#[trigger] enter_ok(ig, a, byte, pi, si, oi) by {}
                } else {
                    assert forall|pi: int, oi: int| !#[trigger] shift_ok(ig, a, byte, pi, oi) by {}
                }
            }
        }
        return;
    }
    if stacks.is_empty(state.out_stack) {
        if !state.allow_bt {
            return;
        }
        let mut pi: usize = 0;
        while pi < pts.len()
            invariant
                pi <= pts.len(),
                ig.wf(),
                *pts == ig.preterms_rev@[byte as int],
                stacks.wf(),
                s0.extends(&*stacks),
                state.in_stack < s0.size(),
                a == abs_state(&s0, state),
                a.1.len() == 0,
                next.wf(),
                frontier_in(next, stacks),
                frontier_in(&n0, &s0),
                forall|b: AbsState| #[trigger] in_image(next, stacks, b) == (in_image(&n0, &s0, b) || enter_before(ig, a, byte, pi as int, 0, 0, b)),
            decreases pts.len() - pi,
        {
            let pt = pts[pi];
            assert(pt < ig.nt_map.len());
            let starts = &ig.nt_map[pt];
            let mut si: usize = 0;
            while si < starts.len()
                invariant
                    pi < pts.len(),
                    si <= starts.len(),
                    ig.wf(),
                    *pts == ig.preterms_rev@[byte as int],
                    pt == pts@[pi as int],
                    pt < ig.nt_map.len(),
                    *starts == ig.nt_map@[pt as int],
                    stacks.wf(),
                    s0.extends(&*stacks),
                    state.in_stack < s0.size(),
                    a == abs_state(&s0, state),
                    a.1.len() == 0,
                    next.wf(),
                    frontier_in(next, stacks),
                    frontier_in(&n0, &s0),
                    forall|b: AbsState| #[trigger] in_image(next, stacks, b) == (in_image(&n0, &s0, b) || enter_before(ig, a, byte, pi as int, si as int, 0, b)),
                decreases starts.len() - si,
            {
                let s = starts[si];
                assert(s < ig.nt_map.len());
                let adj_ok = ig.stack_adj[s].contains(state.prev_symbol);
                let found = if adj_ok { transitions_of(ig, pt, s) } else { None };
                match found {
                    Some(outs) => {
                        let mut oi: usize = 0;
                        while oi < outs.len()
                            invariant
                                pi < pts.len(),
                                si < starts.len(),
                                oi <= outs.len(),
                                ig.wf(),
                                *pts == ig.preterms_rev@[byte as int],
                                pt == pts@[pi as int],
                                pt < ig.nt_map.len(),
                                *starts == ig.nt_map@[pt as int],
                                s == starts@[si as int],
                                s < ig.nt_map.len(),
                                ig.stack_adj@[s as int].contains_spec(state.prev_symbol),
                                rests(ig, pt as int, s) == Some(outs@),
                                stacks.wf(),
                                s0.extends(&*stacks),
                                state.in_stack < s0.size(),
                                a == abs_state(&s0, state),
                                a.1.len() == 0,
                                next.wf(),
                                frontier_in(next, stacks),
                                frontier_in(&n0, &s0),
                                forall|b: AbsState| #[trigger] in_image(next, stacks, b) == (in_image(&n0, &s0, b) || enter_before(ig, a, byte, pi as int, si as int, oi as int, b)),
                            decreases outs.len() - oi,
                        {
                            let ghost sa = *stacks;
                            let ghost na = *next;
                            let ins = stacks.push(state.in_stack, s);
                            let ghost sb = *stacks;
                            let out_stack = stacks.intern_slice(&outs[oi]);
                            let ns = SearchState { in_stack: ins, out_stack, prev_symbol: Some(s), allow_bt: state.allow_bt };
                            next.insert(ns);
                            proof {
                                assert forall|i: int| 0 <= i < s0.size() implies #[trigger] stacks.stack(i) == s0.stack(i) by {
                                    assert(sa.stack(i) == s0.stack(i));
                                    assert(sb.stack(i) == sa.stack(i));
                                }
                                assert(sa.extends(&*stacks)) by {
                                    assert forall|i: int| 0 <= i < sa.size() implies #[trigger] stacks.stack(i) == sa.stack(i) by {
                                        assert(sb.stack(i) == sa.stack(i));
                                    }
                                }
                                lemma_image_extends(&na, &sa, &*stacks);
                                lemma_image_insert(&na, &*next, &*stacks, ns);
                                assert(stacks.stack(ins as int) == sb.stack(ins as int));
                                assert(abs_state(&*stacks, ns) == enter_result(ig, a, byte, pi as int, si as int, oi as int));
                                assert(enter_ok(ig, a, byte, pi as int, si as int, oi as int));
                                assert forall|b: AbsState| #[trigger] in_image(next, stacks, b) == (in_image(&n0, &s0, b) || enter_before(ig, a, byte, pi as int, si as int, oi + 1, b)) by {
                                    if enter_before(ig, a, byte, pi as int, si as int, oi + 1, b) {
                                        let (p2, s2, o2) = choose|p2: int, s2: int, o2: int| #[trigger] enter_ok(ig, a, byte, p2, s2, o2) && lex_before(p2, s2, o2, pi as int, si as int, oi + 1) && enter_result(ig, a, byte, p2, s2, o2) == b;
                                        if !(p2 == pi && s2 == si && o2 == oi) {
                                            assert(enter_before(ig, a, byte, pi as int, si as int, oi as int, b));
                                        }
                                    }
                                    if enter_before(ig, a, byte, pi as int, si as int, oi as int, b) {
                                        let (p2, s2, o2) = choose|p2: int, s2: int, o2: int| #[trigger] enter_ok(ig, a, byte, p2, s2, o2) && lex_before(p2, s2, o2, pi as int, si as int, oi as int) && enter_result(ig, a, byte, p2, s2, o2) == b;
                                        assert(lex_before(p2, s2, o2, pi as int, si as int, oi + 1));
                                    }
                                    if abs_state(&*stacks, ns) == b {
                                        assert(lex_before(pi as int, si as int, oi as int, pi as int, si as int, oi + 1));
                                    }
                                }
                                assert forall|k: int| 0 <= k < next.states.len() implies #[trigger] next.states@[k].in_stack < stacks.size() && next.states@[k].out_stack < stacks.size() by {
                                    assert(next@.contains(next.states@[k]));
                                    if next.states@[k] != ns {
                                        assert(na@.contains(next.states@[k]));
                                        let j = choose|j: int| 0 <= j < na.states.len() && na.states@[j] == next.states@[k];
                                        assert(na.states@[j].in_stack < sa.size());
                                    }
                                }
                            }
                            oi = oi + 1;
                        }
                        proof {
                            assert forall|b: AbsState| #[trigger] in_image(next, stacks, b) == (in_image(&n0, &s0, b) || enter_before(ig, a, byte, pi as int, si + 1, 0, b)) by {
                                if enter_before(ig, a, byte, pi as int, si + 1, 0, b) {
                                    let (p2, s2, o2) = choose|p2: int, s2: int, o2: int| #[trigger] enter_ok(ig, a, byte, p2, s2, o2) && lex_before(p2, s2, o2, pi as int, si + 1, 0) && enter_result(ig, a, byte, p2, s2, o2) == b;
                                    assert(lex_before(p2, s2, o2, pi as int, si as int, oi as int));
                                }
                                if enter_before(ig, a, byte, pi as int, si as int, oi as int, b) {
                                    let (p2, s2, o2) = choose|p2: int, s2: int, o2: int| #[trigger] enter_ok(ig, a, byte, p2, s2, o2) && lex_before(p2, s2, o2, pi as int, si as int, oi as int) && enter_result(ig, a, byte, p2, s2, o2) == b;
                                    assert(lex_before(p2, s2, o2, pi as int, si + 1, 0));
                                }
                            }
                        }
                    },
                    None => {
                        proof {
                            assert(!adj_ok ==> !ig.stack_adj@[s as int].contains_spec(state.prev_symbol));
                            assert forall|b: AbsState| #[trigger] in_image(next, stacks, b) == (in_image(&n0, &s0, b) || enter_before(ig, a, byte, pi as int, si + 1, 0, b)) by {
                                if enter_before(ig, a, byte, pi as int, si + 1, 0, b) {
                                    let (p2, s2, o2) = choose|p2: int, s2: int, o2: int| #[trigger] enter_ok(ig, a, byte, p2, s2, o2) && lex_before(p2, s2, o2, pi as int, si + 1, 0) && enter_result(ig, a, byte, p2, s2, o2) == b;
                                    assert(!(p2 == pi && s2 == si));
                                    assert(lex_before(p2, s2, o2, pi as int, si as int, 0));
                                }
                                if enter_before(ig, a, byte, pi as int, si as int, 0, b) {
                                    let (p2, s2, o2) = choose|p2: int, s2: int, o2: int| #[trigger] enter_ok(ig, a, byte, p2, s2, o2) && lex_before(p2, s2, o2, pi as int, si as int, 0) && enter_result(ig, a, byte, p2, s2, o2) == b;
                                    assert(lex_before(p2, s2, o2, pi as int, si + 1, 0));
                                }
                            }
                        }
                    },
                }
                si = si + 1;
            }
            proof {
                assert forall|b: AbsState| #[trigger] in_image(next, stacks, b) == (in_image(&n0, &s0, b) || enter_before(ig, a, byte, pi + 1, 0, 0, b)) by {
                    if enter_before(ig, a, byte, pi + 1, 0, 0, b) {
                        let (p2, s2, o2) = choose|p2: int, s2: int, o2: int| #[trigger] enter_ok(ig, a, byte, p2, s2, o2) && lex_before(p2, s2, o2, pi + 1, 0, 0) && enter_result(ig, a, byte, p2, s2, o2) == b;
                        assert(lex_before(p2, s2, o2, pi as int, si as int, 0));
                    }
                    if enter_before(ig, a, byte, pi as int, si as int, 0, b) {
                        let (p2, s2, o2) = choose|p2: int, s2: int, o2: int| #[trigger] enter_ok(ig, a, byte, p2, s2, o2) && lex_before(p2, s2, o2, pi as int, si as int, 0) && enter_result(ig, a, byte, p2, s2, o2) == b;
                        assert(lex_before(p2, s2, o2, pi + 1, 0, 0));
                    }
                }
            }
            pi = pi + 1;
        }
        proof {
            assert forall|b: AbsState| #[trigger] in_image(next, stacks, b) == (in_image(&n0, &s0, b) || successor(ig, a, byte, b)) by {
                if successor(ig, a, byte, b) {
                    let (p2, s2, o2) = choose|p2: int, s2: int, o2: int| #[trigger] enter_ok(ig, a, byte, p2, s2, o2) && enter_result(ig, a, byte, p2, s2, o2) == b;
                    assert(lex_before(p2, s2, o2, pi as int, 0, 0));
                    assert(enter_before(ig, a, byte, pi as int, 0, 0, b));
                }
            }
        }
    } else {
        let head = match stacks.first(state.out_stack) {
            Some(h) => h,
            None => 0,
        };
        assert(head == a.1[0]);
        let mut pi: usize = 0;
        while pi < pts.len()
            invariant
                pi <= pts.len(),
                ig.wf(),
                *pts == ig.preterms_rev@[byte as int],
                stacks.wf(),
                s0.extends(&*stacks),
                state.out_stack < s0.size(),
                state.in_stack < s0.size(),
                a == abs_state(&s0, state),
                a.1.len() > 0,
                head == a.1[0],
                next.wf(),
                frontier_in(next, stacks),
                frontier_in(&n0, &s0),
                forall|b: AbsState| #[trigger] in_image(next, stacks, b) == (in_image(&n0, &s0, b) || shift_before(ig, a, byte, pi as int, 0, b)),
            decreases pts.len() - pi,
        {
            let pt = pts[pi];
            assert(pt < ig.nt_map.len());
            match transitions_of(ig, pt, head) {
                Some(outs) => {
                    let mut oi: usize = 0;
                    while oi < outs.len()
                        invariant
                            pi < pts.len(),
                            oi <= outs.len(),
                            ig.wf(),
                            *pts == ig.preterms_rev@[byte as int],
                            pt == pts@[pi as int],
                            rests(ig, pt as int, head) == Some(outs@),
                            stacks.wf(),
                            s0.extends(&*stacks),
                            state.out_stack < s0.size(),
                            state.in_stack < s0.size(),
                            a == abs_state(&s0, state),
                            a.1.len() > 0,
                            head == a.1[0],
                            next.wf(),
                            frontier_in(next, stacks),
                            frontier_in(&n0, &s0),
                            forall|b: AbsState| #[trigger] in_image(next, stacks, b) == (in_image(&n0, &s0, b) || shift_before(ig, a, byte, pi as int, oi as int, b)),
                        decreases outs.len() - oi,
                    {
                        let ghost sa = *stacks;
                        let ghost na = *next;
                        assert(stacks.stack(state.out_stack as int) == s0.stack(state.out_stack as int));
                        let new_out = stacks.prepend_to_tail(&outs[oi], state.out_stack, 1);
                        let ns = SearchState { in_stack: state.in_stack, out_stack: new_out, prev_symbol: Some(head), allow_bt: state.allow_bt };
                        next.insert(ns);
                        proof {
                            assert forall|i: int| 0 <= i < s0.size() implies #[trigger] stacks.stack(i) == s0.stack(i) by {
                                assert(sa.stack(i) == s0.stack(i));
                            }
                            lemma_image_extends(&na, &sa, &*stacks);
                            lemma_image_insert(&na, &*next, &*stacks, ns);
                            assert(stacks.stack(state.in_stack as int) == s0.stack(state.in_stack as int));
                            assert(abs_state(&*stacks, ns) == shift_result(ig, a, byte, pi as int, oi as int));
                            assert(shift_ok(ig, a, byte, pi as int, oi as int));
                            assert forall|b: AbsState| #[trigger] in_image(next, stacks, b) == (in_image(&n0, &s0, b) || shift_before(ig, a, byte, pi as int, oi + 1, b)) by {
                                if shift_before(ig, a, byte, pi as int, oi + 1, b) {
                                    let (p2, o2) = choose|p2: int, o2: int| #[trigger] shift_ok(ig, a, byte, p2, o2) && (p2 < pi || (p2 == pi && o2 < oi + 1)) && shift_result(ig, a, byte, p2, o2) == b;
                                    if !(p2 == pi && o2 == oi) {
                                        assert(shift_before(ig, a, byte, pi as int, oi as int, b));
                                    }
                                }
                            }
                            assert forall|k: int| 0 <= k < next.states.len() implies #[trigger] next.states@[k].in_stack < stacks.size() && next.states@[k].out_stack < stacks.size() by {
                                assert(next@.contains(next.states@[k]));
                                if next.states@[k] != ns {
                                    assert(na@.contains(next.states@[k]));
                                    let j = choose|j: int| 0 <= j < na.states.len() && na.states@[j] == next.states@[k];
                                    assert(na.states@[j].in_stack < sa.size());
                                }
                            }
                        }
                        oi = oi + 1;
                    }
                    proof {
                        assert forall|b: AbsState| #[trigger] in_image(next, stacks, b) == (in_image(&n0, &s0, b) || shift_before(ig, a, byte, pi + 1, 0, b)) by {
                            if shift_before(ig, a, byte, pi + 1, 0, b) {
                                let (p2, o2) = choose|p2: int, o2: int| #[trigger] shift_ok(ig, a, byte, p2, o2) && (p2 < pi + 1 || (p2 == pi + 1 && o2 < 0)) && shift_result(ig, a, byte, p2, o2) == b;
                                assert(shift_before(ig, a, byte, pi as int, oi as int, b));
                            }
                        }
                    }
                },
                None => {
                    proof {
                        assert forall|b: AbsState| #[trigger] in_image(next, stacks, b) == (in_image(&n0, &s0, b) || shift_before(ig, a, byte, pi + 1, 0, b)) by {
                            if shift_before(ig, a, byte, pi + 1, 0, b) {
                                let (p2, o2) = choose|p2: int, o2: int| #[trigger] shift_ok(ig, a, byte, p2, o2) && (p2 < pi + 1 || (p2 == pi + 1 && o2 < 0)) && shift_result(ig, a, byte, p2, o2) == b;
                                assert(p2 != pi);
                                assert(shift_before(ig, a, byte, pi as int, 0, b));
                            }
                        }
                    }
                },
            }
            pi = pi + 1;
        }
        proof {
            assert forall|b: AbsState| #[trigger] in_image(next, stacks, b) == (in_image(&n0, &s0, b) || successor(ig, a, byte, b)) by {
                if successor(ig, a, byte, b) {
                    let (p2, o2) = choose|p2: int, o2: int| #[trigger] shift_ok(ig, a, byte, p2, o2) && shift_result(ig, a, byte, p2, o2) == b;
                    assert(shift_before(ig, a, byte, pi as int, 0, b));
                }
            }
        }
    }
}

/// Some state of `f` reaches `b` by reading `byte`.
pub open spec fn reached(ig: &IntGrammar, f: &Frontier, st: &StackInterner, byte: u8, b: AbsState) -> bool {
    exists|j: int| 0 <= j < f.states.len() && #[trigger] successor(ig, abs_state(st, f.states@[j]), byte, b)
}

/// The frontier after reading `byte`: by the contents of their stacks, its
/// states are exactly the successors of the states of `frontier`.
pub fn advance_frontier(frontier: &Frontier, byte: u8, ig: &IntGrammar, stacks: &mut StackInterner) -> (r: Frontier)
    requires
        frontier.wf(),
        ig.wf(),
        old(stacks).wf(),
        frontier_in(frontier, old(stacks)),
    ensures
        r.wf(),
        final(stacks).wf(),
        old(stacks).extends(final(stacks)),
        frontier_in(&r, final(stacks)),
        forall|b: AbsState| #[trigger] in_image(&r, final(stacks), b) == reached(ig, frontier, old(stacks), byte, b),
        ig.preterms_rev@[byte as int].len() == 0 ==> *final(stacks) == *old(stacks),
{
    let mut next_states = Frontier::new();
    let ghost s0 = *stacks;
    let mut fi: usize = 0;
    while fi < frontier.states.len()
        invariant
            fi <= frontier.states.len(),
            frontier.wf(),
            ig.wf(),
            stacks.wf(),
            s0.extends(&*stacks),
            frontier_in(frontier, &s0),
            next_states.wf(),
            frontier_in(&next_states, stacks),
            forall|b: AbsState| #[trigger] in_image(&next_states, stacks, b) == exists|j: int| 0 <= j < fi && #[trigger] successor(ig, abs_state(&s0, frontier.states@[j]), byte, b),
            ig.preterms_rev@[byte as int].len() == 0 ==> *stacks == s0,
        decreases frontier.states.len() - fi,
    {
        let state = frontier.states[fi];
        assert(frontier.states@[fi as int].in_stack < s0.size() && frontier.states@[fi as int].out_stack < s0.size());
        let ghost sa = *stacks;
        let ghost na = next_states;
        add_successors(state, byte, ig, stacks, &mut next_states);
        proof {
            assert forall|i: int| 0 <= i < s0.size() implies #[trigger] stacks.stack(i) == s0.stack(i) by {
                assert(sa.stack(i) == s0.stack(i));
            }
            assert(abs_state(&sa, state) == abs_state(&s0, state));
            assert forall|b: AbsState| #[trigger] in_image(&next_states, stacks, b) == exists|j: int| 0 <= j < fi + 1 && #[trigger] successor(ig, abs_state(&s0, frontier.states@[j]), byte, b) by {
                if exists|j: int| 0 <= j < fi + 1 && #[trigger] successor(ig, abs_state(&s0, frontier.states@[j]), byte, b) {
                    let j = choose|j: int| 0 <= j < fi + 1 && #[trigger] successor(ig, abs_state(&s0, frontier.states@[j]), byte, b);
                    if j < fi {
                        assert(exists|j2: int| 0 <= j2 < fi && #[trigger] successor(ig, abs_state(&s0, frontier.states@[j2]), byte, b));
                    }
                }
            }
        }
        fi = fi + 1;
    }
    next_states
}

/// The two starting states of a token, by contents: one that may pop out
/// of the context the token starts in, and one at the start symbol.
pub open spec fn initial_states(start: usize) -> Set<AbsState> {
    set![(Seq::<usize>::empty(), Seq::<usize>::empty(), None::<usize>, true), (seq![start], seq![start], None::<usize>, false)]
}

/// The states reached by reading the bytes `w` from the starting states.
pub open spec fn reach(ig: &IntGrammar, w: Seq<u8>) -> Set<AbsState>
    decreases w.len(),
{
    if w.len() == 0 {
        initial_states(ig.start)
    } else {
        let prev = reach(ig, w.drop_last());
        Set::new(|b: AbsState| exists|a: AbsState| prev.contains(a) && #[trigger] successor(ig, a, w.last(), b))
    }
}

/// The (context, rest) stack contents of the states reached by `w`.
pub open spec fn reach_pairs(ig: &IntGrammar, w: Seq<u8>) -> Set<(Seq<usize>, Seq<usize>)> {
    Set::new(|x: (Seq<usize>, Seq<usize>)| exists|a: AbsState| #[trigger] reach(ig, w).contains(a) && a.0 == x.0 && a.1 == x.1)
}

/// The contents of a pair of stack numbers.
pub open spec fn content_pair(st: &StackInterner, p: (usize, usize)) -> (Seq<usize>, Seq<usize>) {
    (st.stack(p.0 as int), st.stack(p.1 as int))
}

/// The stack contents of the pairs of a result (none for `None`).
pub open spec fn contents_of(st: &StackInterner, p: Option<Vec<(usize, usize)>>) -> Set<(Seq<usize>, Seq<usize>)> {
    match p {
        Some(v) => Set::new(|x: (Seq<usize>, Seq<usize>)| exists|k: int| 0 <= k < v@.len() && x == content_pair(st, #[trigger] v@[k])),
        None => Set::empty(),
    }
}

/// What the result of a token with bytes `w` says: an empty token has no
/// pairs; any other has pairs exactly when some state is reached, and
/// their contents are the (context, rest) contents of the reached states.
pub open spec fn pairs_mean(ig: &IntGrammar, w: Seq<u8>, p: Option<Vec<(usize, usize)>>, st: &StackInterner) -> bool {
    if w.len() == 0 {
        p is None
    } else {
        &&& (p is Some <==> reach(ig, w) != Set::<AbsState>::empty())
        &&& contents_of(st, p) == reach_pairs(ig, w)
    }
}

/// The states of `f` are, by contents, those reached by `w`.
pub open spec fn frontier_reaches(ig: &IntGrammar, f: &Frontier, st: &StackInterner, w: Seq<u8>) -> bool {
    forall|b: AbsState| #[trigger] in_image(f, st, b) == reach(ig, w).contains(b)
}

/// A frontier advanced by `byte` from one that reaches `w` reaches
/// `w` followed by `byte`.
proof fn lemma_advance_reach(ig: &IntGrammar, f: &Frontier, st1: &StackInterner, r: &Frontier, st2: &StackInterner, w: Seq<u8>, byte: u8)
    requires
        frontier_reaches(ig, f, st1, w),
        forall|b: AbsState| #[trigger] in_image(r, st2, b) == reached(ig, f, st1, byte, b),
    ensures
        frontier_reaches(ig, r, st2, w.push(byte)),
{
    let w2 = w.push(byte);
    assert(w2.drop_last() =~= w);
    assert(w2.last() == byte);
    assert forall|b: AbsState| #[trigger] in_image(r, st2, b) == reach(ig, w2).contains(b) by {
        if in_image(r, st2, b) {
            let j = choose|j: int| 0 <= j < f.states.len() && #[trigger] successor(ig, abs_state(st1, f.states@[j]), byte, b);
            let a = abs_state(st1, f.states@[j]);
            assert(in_image(f, st1, a));
            assert(reach(ig, w).contains(a));
        }
        if reach(ig, w2).contains(b) {
            let a = choose|a: AbsState| reach(ig, w).contains(a) && #[trigger] successor(ig, a, byte, b);
            assert(in_image(f, st1, a));
            let j = choose|j: int| 0 <= j < f.states.len() && #[trigger] abs_state(st1, f.states@[j]) == a;
            assert(successor(ig, abs_state(st1, f.states@[j]), byte, b));
            assert(reached(ig, f, st1, byte, b));
        }
    }
}

/// Nothing is reached after bytes that reach nothing.
proof fn lemma_reach_empty_push(ig: &IntGrammar, w: Seq<u8>, byte: u8)
    requires
        reach(ig, w) == Set::<AbsState>::empty(),
    ensures
        reach(ig, w.push(byte)) == Set::<AbsState>::empty(),
{
    let w2 = w.push(byte);
    assert(w2.drop_last() =~= w);
    assert(reach(ig, w2) =~= Set::<AbsState>::empty()) by {
        assert forall|b: AbsState| !reach(ig, w2).contains(b) by {
            if reach(ig, w2).contains(b) {
                let a = choose|a: AbsState| reach(ig, w).contains(a) && #[trigger] successor(ig, a, w2.last(), b);
                assert(Set::<AbsState>::empty().contains(a));
            }
        }
    }
}

/// The pairs of a frontier that reaches non-empty `w` mean what `w`
/// reaches.
proof fn lemma_pairs_mean(ig: &IntGrammar, f: &Frontier, st: &StackInterner, w: Seq<u8>, p: Option<Vec<(usize, usize)>>)
    requires
        frontier_reaches(ig, f, st, w),
        w.len() > 0,
        p is None <==> f.states.len() == 0,
        p matches Some(v) ==> forall|q: (usize, usize)| v@.contains(q) <==> exists|k: int| 0 <= k < f.states.len() && #[trigger] f.states@[k].in_stack == q.0 && f.states@[k].out_stack == q.1,
    ensures
        pairs_mean(ig, w, p, st),
{
    if f.states.len() == 0 {
        assert(reach(ig, w) =~= Set::<AbsState>::empty()) by {
            assert forall|b: AbsState| !reach(ig, w).contains(b) by {
                assert(!in_image(f, st, b));
            }
        }
        assert(reach_pairs(ig, w) =~= Set::empty());
    } else {
        let a0 = abs_state(st, f.states@[0]);
        assert(in_image(f, st, a0));
        assert(reach(ig, w).contains(a0));
        let v = p->0;
        assert forall|x: (Seq<usize>, Seq<usize>)| contents_of(st, p).contains(x) <==> reach_pairs(ig, w).contains(x) by {
            if contents_of(st, p).contains(x) {
                let k = choose|k: int| 0 <= k < v@.len() && x == content_pair(st, #[trigger] v@[k]);
                assert(v@.contains(v@[k]));
                let m = choose|m: int| 0 <= m < f.states.len() && #[trigger] f.states@[m].in_stack == v@[k].0 && f.states@[m].out_stack == v@[k].1;
                let a = abs_state(st, f.states@[m]);
                assert(in_image(f, st, a));
                assert(reach(ig, w).contains(a));
            }
            if reach_pairs(ig, w).contains(x) {
                let a = choose|a: AbsState| #[trigger] reach(ig, w).contains(a) && a.0 == x.0 && a.1 == x.1;
                assert(in_image(f, st, a));
                let m = choose|m: int| 0 <= m < f.states.len() && #[trigger] abs_state(st, f.states@[m]) == a;
                let q = (f.states@[m].in_stack, f.states@[m].out_stack);
                assert(v@.contains(q));
                let k = choose|k: int| 0 <= k < v@.len() && v@[k] == q;
                assert(x == content_pair(st, v@[k]));
            }
        }
        assert(contents_of(st, p) =~= reach_pairs(ig, w));
    }
}

/// Two results with the same pairs mean the same.
proof fn lemma_pairs_mean_same_view(ig: &IntGrammar, w: Seq<u8>, p: Option<Vec<(usize, usize)>>, q: Option<Vec<(usize, usize)>>, st: &StackInterner)
    requires
        p is None <==> q is None,
        q matches Some(v) ==> p matches Some(u) && v@ == u@,
    ensures
        pairs_mean(ig, w, p, st) == pairs_mean(ig, w, q, st),
{
    if p is Some {
        assert(contents_of(st, p) =~= contents_of(st, q));
    }
}

/// A result keeps its meaning over an interner that keeps its stacks.
proof fn lemma_pairs_mean_extends(ig: &IntGrammar, w: Seq<u8>, p: Option<Vec<(usize, usize)>>, st1: &StackInterner, st2: &StackInterner)
    requires
        pairs_mean(ig, w, p, st1),
        pairs_in(p, st1),
        st1.extends(st2),
    ensures
        pairs_mean(ig, w, p, st2),
{
    if p is Some {
        let v = p->0;
        assert forall|k: int| 0 <= k < v@.len() implies content_pair(st1, #[trigger] v@[k]) == content_pair(st2, v@[k]) by {
            assert(v@[k].0 < st1.size() && v@[k].1 < st1.size());
        }
        assert(contents_of(st1, p) =~= contents_of(st2, p));
    }
}

/// Pair order: by the first number, then by the second.
pub open spec fn pair_lt(a: (usize, usize), b: (usize, usize)) -> bool {
    a.0 < b.0 || (a.0 == b.0 && a.1 < b.1)
}

/// The distinct (context stack, rest stack) pairs of a frontier, in
/// increasing order; `None` for an empty frontier.
pub fn frontier_stack_pairs(frontier: &Frontier) -> (r: Option<Vec<(usize, usize)>>)
    requires
        frontier.wf(),
    ensures
        r is None <==> frontier.states.len() == 0,
        r matches Some(v) ==> (forall|a: int, b: int| 0 <= a < b < v.len() ==> pair_lt(#[trigger] v@[a], #[trigger] v@[b])),
        r matches Some(v) ==> forall|p: (usize, usize)| v@.contains(p) <==> exists|k: int| 0 <= k < frontier.states.len() && #[trigger] frontier.states@[k].in_stack == p.0 && frontier.states@[k].out_stack == p.1,
{
    let mut out: Vec<(usize, usize)> = Vec::new();
    let mut i: usize = 0;
    while i < frontier.states.len()
        invariant
            i <= frontier.states.len(),
            forall|a: int, b: int| 0 <= a < b < out.len() ==> pair_lt(#[trigger] out@[a], #[trigger] out@[b]),
            forall|p: (usize, usize)| out@.contains(p) <==> exists|k: int| 0 <= k < i && #[trigger] frontier.states@[k].in_stack == p.0 && frontier.states@[k].out_stack == p.1,
        decreases frontier.states.len() - i,
    {
        let x = (frontier.states[i].in_stack, frontier.states[i].out_stack);
        let mut pos: usize = 0;
        while pos < out.len() && (out[pos].0 < x.0 || (out[pos].0 == x.0 && out[pos].1 < x.1))
            invariant
                pos <= out.len(),
                forall|a: int| 0 <= a < pos ==> pair_lt(#[trigger] out@[a], x),
            decreases out.len() - pos,
        {
            pos = pos + 1;
        }
        let ghost o0 = out@;
        if pos < out.len() && out[pos].0 == x.0 && out[pos].1 == x.1 {
            proof {
                assert(out@[pos as int] == x);
                assert forall|p: (usize, usize)| out@.contains(p) <==> exists|k: int| 0 <= k < i + 1 && #[trigger] frontier.states@[k].in_stack == p.0 && frontier.states@[k].out_stack == p.1 by {
                    if exists|k: int| 0 <= k < i + 1 && #[trigger] frontier.states@[k].in_stack == p.0 && frontier.states@[k].out_stack == p.1 {
                        let k = choose|k: int| 0 <= k < i + 1 && #[trigger] frontier.states@[k].in_stack == p.0 && frontier.states@[k].out_stack == p.1;
                        if k == i {
                            assert(p == x);
                        } else {
                            assert(exists|k: int| 0 <= k < i && #[trigger] frontier.states@[k].in_stack == p.0 && frontier.states@[k].out_stack == p.1);
                        }
                    }
                    if out@.contains(p) {
                        let k = choose|k: int| 0 <= k < i && #[trigger] frontier.states@[k].in_stack == p.0 && frontier.states@[k].out_stack == p.1;
                        assert(0 <= k < i + 1);
                    }
                }
            }
        } else {
            out.insert(pos, x);
            proof {
                assert(out@ == o0.insert(pos as int, x));
                assert forall|a: int, b: int| 0 <= a < b < out.len() implies pair_lt(#[trigger] out@[a], #[trigger] out@[b]) by {
                    if b < pos {
                        assert(out@[a] == o0[a] && out@[b] == o0[b]);
                    } else if b == pos {
                        assert(out@[a] == o0[a]);
                    } else if a < pos {
                        assert(out@[a] == o0[a] && out@[b] == o0[b - 1]);
                        assert(pair_lt(o0[a], x));
                        assert(!pair_lt(o0[pos as int], x));
                        if b - 1 > pos {
                            assert(pair_lt(o0[pos as int], o0[b - 1]));
                        }
                    } else if a == pos {
                        assert(out@[b] == o0[b - 1]);
                        assert(!pair_lt(o0[pos as int], x));
                        if b - 1 > pos {
                            assert(pair_lt(o0[pos as int], o0[b - 1]));
                        }
                    } else {
                        assert(out@[a] == o0[a - 1] && out@[b] == o0[b - 1]);
                    }
                }
                assert forall|p: (usize, usize)| out@.contains(p) <==> exists|k: int| 0 <= k < i + 1 && #[trigger] frontier.states@[k].in_stack == p.0 && frontier.states@[k].out_stack == p.1 by {
                    if out@.contains(p) {
                        let j = choose|j: int| 0 <= j < out@.len() && out@[j] == p;
                        if j < pos {
                            assert(o0[j] == p);
                            assert(o0.contains(p));
                            let k = choose|k: int| 0 <= k < i && #[trigger] frontier.states@[k].in_stack == p.0 && frontier.states@[k].out_stack == p.1;
                            assert(0 <= k < i + 1);
                        } else if j > pos {
                            assert(o0[j - 1] == p);
                            assert(o0.contains(p));
                            let k = choose|k: int| 0 <= k < i && #[trigger] frontier.states@[k].in_stack == p.0 && frontier.states@[k].out_stack == p.1;
                            assert(0 <= k < i + 1);
                        } else {
                            assert(frontier.states@[i as int].in_stack == p.0);
                        }
                    }
                    if exists|k: int| 0 <= k < i + 1 && #[trigger] frontier.states@[k].in_stack == p.0 && frontier.states@[k].out_stack == p.1 {
                        let k = choose|k: int| 0 <= k < i + 1 && #[trigger] frontier.states@[k].in_stack == p.0 && frontier.states@[k].out_stack == p.1;
                        if k == i {
                            assert(p == x);
                            assert(out@[pos as int] == p);
                        } else {
                            assert(exists|k: int| 0 <= k < i && #[trigger] frontier.states@[k].in_stack == p.0 && frontier.states@[k].out_stack == p.1);
                            assert(o0.contains(p));
                            let j = choose|j: int| 0 <= j < o0.len() && o0[j] == p;
                            if j < pos {
                                assert(out@[j] == p);
                            } else {
                                assert(out@[j + 1] == p);
                            }
                        }
                    }
                }
            }
        }
        i = i + 1;
    }
    if out.len() == 0 {
        if frontier.states.len() > 0 {
            assert(out@.contains((frontier.states@[0].in_stack, frontier.states@[0].out_stack)));
        }
        None
    } else {
        assert(out@.contains(out@[0]));
        Some(out)
    }
}

/// A node of the token trie: children by byte, in increasing byte order,
/// and the tokens that end here.
pub struct TokenTrieNode {
    pub children: Vec<(u8, usize)>,
    pub token_ids: Vec<usize>,
}

/// The trie's links point forward: a child has a larger index than its
/// parent and is in range.
pub open spec fn trie_wf(nodes: Seq<TokenTrieNode>) -> bool {
    &&& nodes.len() >= 1
    &&& forall|i: int, k: int| 0 <= i < nodes.len() && 0 <= k < nodes[i].children.len() ==> i < (#[trigger] nodes[i].children@[k]).1 < nodes.len()
}

/// Token id `id` is listed at some node of the trie.
pub open spec fn ids_in_trie(nodes: Seq<TokenTrieNode>, id: usize) -> bool {
    exists|i: int, j: int| 0 <= i < nodes.len() && 0 <= j < nodes[i].token_ids.len() && #[trigger] nodes[i].token_ids@[j] == id
}

/// Every result from position `from` on is for a token listed in the trie.
pub open spec fn fresh_from(nodes: Seq<TokenTrieNode>, out: Seq<LocalTokenResult>, from: int) -> bool {
    forall|k: int| from <= k < out.len() ==> ids_in_trie(nodes, #[trigger] out[k].token_id)
}

/// Every token id of the trie is the id of a task.
pub open spec fn trie_ids_from(nodes: Seq<TokenTrieNode>, tasks: Seq<(Vec<u8>, usize)>) -> bool {
    forall|i: int, j: int| 0 <= i < nodes.len() && 0 <= j < nodes[i].token_ids.len() ==> task_id(tasks, #[trigger] nodes[i].token_ids@[j])
}

/// `id` is the id of one of the tasks.
pub open spec fn task_id(tasks: Seq<(Vec<u8>, usize)>, id: usize) -> bool {
    exists|t: int| 0 <= t < tasks.len() && #[trigger] tasks[t].1 == id
}

/// `labels[i]` spells the bytes on the path from the root to node `i`:
/// the root's label is empty, and a child's is its parent's with the
/// child's byte after it.
pub open spec fn trie_labeled(nodes: Seq<TokenTrieNode>, labels: Seq<Seq<u8>>) -> bool {
    &&& labels.len() == nodes.len()
    &&& nodes.len() >= 1 ==> labels[0] == Seq::<u8>::empty()
    &&& forall|i: int, k: int| 0 <= i < nodes.len() && 0 <= k < nodes[i].children.len() ==> labels[(#[trigger] nodes[i].children@[k]).1 as int] == labels[i].push(nodes[i].children@[k].0)
}

/// Every token listed at a node is a task whose bytes are the node's
/// label.
pub open spec fn ids_spell(nodes: Seq<TokenTrieNode>, labels: Seq<Seq<u8>>, tasks: Seq<(Vec<u8>, usize)>) -> bool {
    forall|i: int, j: int| 0 <= i < nodes.len() && 0 <= j < nodes[i].token_ids.len() ==> spelled(tasks, #[trigger] nodes[i].token_ids@[j], labels[i])
}

/// Some task has id `id` and bytes `w`.
pub open spec fn spelled(tasks: Seq<(Vec<u8>, usize)>, id: usize, w: Seq<u8>) -> bool {
    exists|t: int| 0 <= t < tasks.len() && #[trigger] tasks[t].1 == id && tasks[t].0@ == w
}

fn find_child(node: &TokenTrieNode, b: u8) -> (r: Result<usize, usize>)
    ensures
        r matches Ok(k) ==> k < node.children.len() && node.children@[k as int].0 == b,
        r matches Err(k) ==> k <= node.children.len(),
{
    let mut k: usize = 0;
    while k < node.children.len()
        invariant
            k <= node.children.len(),
        decreases node.children.len() - k,
    {
        if node.children[k].0 == b {
            return Ok(k);
        }
        if node.children[k].0 > b {
            return Err(k);
        }
        k = k + 1;
    }
    Err(k)
}

/// Node `c` is a child of node `i`.
pub open spec fn is_child(nodes: Seq<TokenTrieNode>, i: int, c: int) -> bool {
    0 <= i < nodes.len() && exists|k: int| 0 <= k < nodes[i].children.len() && #[trigger] nodes[i].children@[k].1 == c
}

/// `p` is a path down the trie: each node after the first is a child of
/// the one before.
pub open spec fn trie_path(nodes: Seq<TokenTrieNode>, p: Seq<int>) -> bool {
    &&& p.len() >= 1
    &&& forall|k: int| 0 <= k < p.len() - 1 ==> #[trigger] is_child(nodes, p[k], p[k + 1])
}

/// Node `j` is `i` or lies below it.
pub open spec fn below(nodes: Seq<TokenTrieNode>, i: int, j: int) -> bool {
    exists|p: Seq<int>| #[trigger] trie_path(nodes, p) && p[0] == i && p.last() == j
}

/// Task `t`'s id is listed at a node below the root whose label is the
/// task's bytes.
pub open spec fn task_placed(nodes: Seq<TokenTrieNode>, labels: Seq<Seq<u8>>, tasks: Seq<(Vec<u8>, usize)>, t: int) -> bool {
    exists|i: int, j: int| 0 <= i < nodes.len() && 0 <= j < nodes[i].token_ids.len() && below(nodes, 0, i) && #[trigger] nodes[i].token_ids@[j] == tasks[t].1 && labels[i] == tasks[t].0@
}

proof fn lemma_path_mono(n0: Seq<TokenTrieNode>, n1: Seq<TokenTrieNode>, p: Seq<int>)
    requires
        trie_path(n0, p),
        forall|i: int, c: int| is_child(n0, i, c) ==> #[trigger] is_child(n1, i, c),
    ensures
        trie_path(n1, p),
{
    assert forall|k: int| 0 <= k < p.len() - 1 implies #[trigger] is_child(n1, p[k], p[k + 1]) by {
        assert(is_child(n0, p[k], p[k + 1]));
    }
}

proof fn lemma_below_mono(n0: Seq<TokenTrieNode>, n1: Seq<TokenTrieNode>)
    requires
        forall|i: int, c: int| is_child(n0, i, c) ==> #[trigger] is_child(n1, i, c),
    ensures
        forall|i: int, j: int| below(n0, i, j) ==> #[trigger] below(n1, i, j),
{
    assert forall|i: int, j: int| below(n0, i, j) implies #[trigger] below(n1, i, j) by {
        let p = choose|p: Seq<int>| #[trigger] trie_path(n0, p) && p[0] == i && p.last() == j;
        lemma_path_mono(n0, n1, p);
    }
}

proof fn lemma_below_child(nodes: Seq<TokenTrieNode>, i: int, j: int, c: int)
    requires
        below(nodes, i, j),
        is_child(nodes, j, c),
    ensures
        below(nodes, i, c),
{
    let p = choose|p: Seq<int>| #[trigger] trie_path(nodes, p) && p[0] == i && p.last() == j;
    let q = p.push(c);
    assert forall|k: int| 0 <= k < q.len() - 1 implies #[trigger] is_child(nodes, q[k], q[k + 1]) by {
        if k < p.len() - 1 {
            assert(q[k] == p[k] && q[k + 1] == p[k + 1]);
        } else {
            assert(q[k] == p.last());
        }
    }
    assert(trie_path(nodes, q));
}

proof fn lemma_below_self(nodes: Seq<TokenTrieNode>, i: int)
    ensures
        below(nodes, i, i),
{
    let p = seq![i];
    assert(trie_path(nodes, p));
}

/// A node below `i` is `i` itself or lies below one of `i`'s children.
proof fn lemma_below_split(nodes: Seq<TokenTrieNode>, i: int, j: int)
    requires
        below(nodes, i, j),
    ensures
        j == i || exists|k: int| 0 <= k < nodes[i].children.len() && #[trigger] below(nodes, nodes[i].children@[k].1 as int, j),
{
    let p = choose|p: Seq<int>| #[trigger] trie_path(nodes, p) && p[0] == i && p.last() == j;
    if p.len() > 1 {
        let k0: int = 0;
        assert(is_child(nodes, p[k0], p[k0 + 1]));
        let k = choose|k: int| 0 <= k < nodes[i].children.len() && #[trigger] nodes[i].children@[k].1 == p[1];
        let q = p.drop_first();
        assert forall|m: int| 0 <= m < q.len() - 1 implies #[trigger] is_child(nodes, q[m], q[m + 1]) by {
            assert(q[m] == p[m + 1] && q[m + 1] == p[m + 2]);
            assert(is_child(nodes, p[m + 1], p[m + 2]));
        }
        assert(trie_path(nodes, q));
        assert(below(nodes, nodes[i].children@[k].1 as int, j));
    }
}

proof fn lemma_placed_keep(n0: Seq<TokenTrieNode>, l0: Seq<Seq<u8>>, n1: Seq<TokenTrieNode>, l1: Seq<Seq<u8>>, tasks: Seq<(Vec<u8>, usize)>, t: int)
    requires
        task_placed(n0, l0, tasks, t),
        n0.len() <= n1.len(),
        l0.len() == n0.len(),
        forall|i: int| 0 <= i < n0.len() ==> #[trigger] l1[i] == l0[i],
        forall|i: int| 0 <= i < n0.len() ==> n0[i].token_ids@.len() <= (#[trigger] n1[i]).token_ids@.len() && n1[i].token_ids@.take(n0[i].token_ids@.len() as int) == n0[i].token_ids@,
        forall|i: int, j: int| below(n0, i, j) ==> #[trigger] below(n1, i, j),
    ensures
        task_placed(n1, l1, tasks, t),
{
    let (i, j) = choose|i: int, j: int| 0 <= i < n0.len() && 0 <= j < n0[i].token_ids.len() && below(n0, 0, i) && #[trigger] n0[i].token_ids@[j] == tasks[t].1 && l0[i] == tasks[t].0@;
    assert(n1[i].token_ids@.take(n0[i].token_ids@.len() as int)[j] == n1[i].token_ids@[j]);
    assert(below(n1, 0, i));
    assert(n1[i].token_ids@[j] == tasks[t].1);
}

proof fn lemma_ids_spell_new_node(n0: Seq<TokenTrieNode>, l0: Seq<Seq<u8>>, n1: Seq<TokenTrieNode>, l1: Seq<Seq<u8>>, tasks: Seq<(Vec<u8>, usize)>)
    requires
        ids_spell(n0, l0, tasks),
        n1.len() == n0.len() + 1,
        l1.len() == l0.len() + 1,
        forall|i: int| 0 <= i < l0.len() ==> #[trigger] l1[i] == l0[i],
        forall|i: int| 0 <= i < n0.len() ==> (#[trigger] n1[i]).token_ids@ == n0[i].token_ids@,
        n1[n0.len() as int].token_ids@.len() == 0,
        l0.len() == n0.len(),
    ensures
        ids_spell(n1, l1, tasks),
{
    assert forall|i: int, j: int| 0 <= i < n1.len() && 0 <= j < n1[i].token_ids.len() implies spelled(tasks, #[trigger] n1[i].token_ids@[j], l1[i]) by {
        if i < n0.len() {
            assert(n1[i].token_ids@ == n0[i].token_ids@);
            assert(n1[i].token_ids@[j] == n0[i].token_ids@[j]);
            assert(l1[i] == l0[i]);
        }
    }
}

/// The trie of the tokens' bytes: each token's id is listed at the node
/// its bytes lead to from the root.
pub fn build_token_trie(tasks: &Vec<(Vec<u8>, usize)>) -> (nodes: Vec<TokenTrieNode>)
    ensures
        trie_wf(nodes@),
        trie_ids_from(nodes@, tasks@),
        exists|labels: Seq<Seq<u8>>| trie_labeled(nodes@, labels) && ids_spell(nodes@, labels, tasks@) && forall|t: int| 0 <= t < tasks.len() ==> #[trigger] task_placed(nodes@, labels, tasks@, t),
{
    let mut nodes: Vec<TokenTrieNode> = Vec::new();
    nodes.push(TokenTrieNode { children: Vec::new(), token_ids: Vec::new() });
    let ghost mut labels: Seq<Seq<u8>> = seq![Seq::<u8>::empty()];
    proof {
        lemma_below_self(nodes@, 0);
    }
    let mut t: usize = 0;
    while t < tasks.len()
        invariant
            t <= tasks.len(),
            trie_wf(nodes@),
            trie_ids_from(nodes@, tasks@),
            trie_labeled(nodes@, labels),
            ids_spell(nodes@, labels, tasks@),
            forall|i: int| 0 <= i < nodes.len() ==> #[trigger] below(nodes@, 0, i),
            forall|t2: int| 0 <= t2 < t ==> #[trigger] task_placed(nodes@, labels, tasks@, t2),
        decreases tasks.len() - t,
    {
        let tok = &tasks[t].0;
        let mut node: usize = 0;
        let mut bi: usize = 0;
        assert(tok@.take(0) =~= Seq::<u8>::empty());
        while bi < tok.len()
            invariant
                bi <= tok.len(),
                t < tasks.len(),
                tok == tasks@[t as int].0,
                trie_wf(nodes@),
                trie_ids_from(nodes@, tasks@),
                trie_labeled(nodes@, labels),
                ids_spell(nodes@, labels, tasks@),
                node < nodes.len(),
                labels[node as int] == tok@.take(bi as int),
                forall|i: int| 0 <= i < nodes.len() ==> #[trigger] below(nodes@, 0, i),
                forall|t2: int| 0 <= t2 < t ==> #[trigger] task_placed(nodes@, labels, tasks@, t2),
            decreases tok.len() - bi,
        {
            let b = tok[bi];
            assert(tok@.take(bi + 1) =~= tok@.take(bi as int).push(b));
            match find_child(&nodes[node], b) {
                Ok(k) => {
                    assert(labels[nodes@[node as int].children@[k as int].1 as int] == labels[node as int].push(nodes@[node as int].children@[k as int].0));
                    node = nodes[node].children[k].1;
                },
                Err(k) => {
                    let next = nodes.len();
                    let ghost n0 = nodes@;
                    let ghost l0 = labels;
                    nodes.push(TokenTrieNode { children: Vec::new(), token_ids: Vec::new() });
                    proof {
                        labels = labels.push(labels[node as int].push(b));
                    }
                    let mut cur = TokenTrieNode { children: Vec::new(), token_ids: Vec::new() };
                    std::mem::swap(&mut cur, &mut nodes[node]);
                    let ghost c0 = cur.children@;
                    cur.children.insert(k, (b, next));
                    std::mem::swap(&mut cur, &mut nodes[node]);
                    proof {
                        assert forall|i: int, kk: int| 0 <= i < nodes@.len() && 0 <= kk < nodes@[i].children.len() implies i < (#[trigger] nodes@[i].children@[kk]).1 < nodes@.len() && labels[nodes@[i].children@[kk].1 as int] == labels[i].push(nodes@[i].children@[kk].0) by {
                            if i == node {
                                assert(nodes@[i].children@ == c0.insert(k as int, (b, next)));
                                if kk < k {
                                    assert(nodes@[i].children@[kk] == c0[kk]);
                                    assert(n0[i].children@[kk] == c0[kk]);
                                } else if kk > k {
                                    assert(nodes@[i].children@[kk] == c0[kk - 1]);
                                    assert(n0[i].children@[kk - 1] == c0[kk - 1]);
                                }
                            } else if i < n0.len() {
                                assert(nodes@[i] == n0[i]);
                            }
                        }
                        assert forall|i: int, j: int| 0 <= i < nodes@.len() && 0 <= j < nodes@[i].token_ids.len() implies task_id(tasks@, #[trigger] nodes@[i].token_ids@[j]) by {
                            if i == node {
                                assert(nodes@[i].token_ids@ == n0[i].token_ids@);
                                assert(nodes@[i].token_ids@[j] == n0[i].token_ids@[j]);
                            } else if i < n0.len() {
                                assert(nodes@[i] == n0[i]);
                                assert(nodes@[i].token_ids@[j] == n0[i].token_ids@[j]);
                            } else {
                                assert(nodes@[i].token_ids@.len() == 0);
                            }
                        }
                        assert(trie_ids_from(nodes@, tasks@));
                        assert forall|i: int| 0 <= i < n0.len() implies (#[trigger] nodes@[i]).token_ids@ == n0[i].token_ids@ by {
                            if i != node {
                                assert(nodes@[i] == n0[i]);
                            }
                        }
                        lemma_ids_spell_new_node(n0, l0, nodes@, labels, tasks@);
                        assert forall|i: int, c: int| is_child(n0, i, c) implies #[trigger] is_child(nodes@, i, c) by {
                            let kk = choose|kk: int| 0 <= kk < n0[i].children.len() && #[trigger] n0[i].children@[kk].1 == c;
                            if i == node {
                                if kk < k {
                                    assert(nodes@[i].children@[kk] == c0[kk]);
                                } else {
                                    assert(nodes@[i].children@[kk + 1] == c0[kk]);
                                }
                            } else {
                                assert(nodes@[i] == n0[i]);
                            }
                        }
                        lemma_below_mono(n0, nodes@);
                        assert(nodes@[node as int].children@[k as int] == (b, next));
                        assert(is_child(nodes@, node as int, next as int));
                        assert(below(n0, 0, node as int));
                        lemma_below_child(nodes@, 0, node as int, next as int);
                        assert forall|i: int| 0 <= i < nodes.len() implies #[trigger] below(nodes@, 0, i) by {
                            if i < n0.len() {
                                assert(below(n0, 0, i));
                            }
                        }
                        assert forall|t2: int| 0 <= t2 < t implies #[trigger] task_placed(nodes@, labels, tasks@, t2) by {
                            assert(task_placed(n0, l0, tasks@, t2));
                            assert forall|i: int| 0 <= i < n0.len() implies n0[i].token_ids@.len() <= (#[trigger] nodes@[i]).token_ids@.len() && nodes@[i].token_ids@.take(n0[i].token_ids@.len() as int) == n0[i].token_ids@ by {
                                assert(nodes@[i].token_ids@ == n0[i].token_ids@);
                                assert(nodes@[i].token_ids@.take(n0[i].token_ids@.len() as int) =~= n0[i].token_ids@);
                            }
                            lemma_placed_keep(n0, l0, nodes@, labels, tasks@, t2);
                        }
                        assert(trie_labeled(nodes@, labels));
                    }
                    node = next;
                },
            }
            bi = bi + 1;
        }
        assert(tok@.take(tok@.len() as int) =~= tok@);
        let mut cur = TokenTrieNode { children: Vec::new(), token_ids: Vec::new() };
        let ghost n0 = nodes@;
        std::mem::swap(&mut cur, &mut nodes[node]);
        cur.token_ids.push(tasks[t].1);
        std::mem::swap(&mut cur, &mut nodes[node]);
        proof {
            assert forall|i: int, kk: int| 0 <= i < nodes@.len() && 0 <= kk < nodes@[i].children.len() implies i < (#[trigger] nodes@[i].children@[kk]).1 < nodes@.len() && labels[nodes@[i].children@[kk].1 as int] == labels[i].push(nodes@[i].children@[kk].0) by {
                if i == node {
                    assert(nodes@[i].children == n0[i].children);
                } else {
                    assert(nodes@[i] == n0[i]);
                }
            }
            assert forall|i: int, j: int| 0 <= i < nodes@.len() && 0 <= j < nodes@[i].token_ids.len() implies task_id(tasks@, #[trigger] nodes@[i].token_ids@[j]) by {
                if i == node {
                    if j < n0[i].token_ids.len() {
                        assert(nodes@[i].token_ids@[j] == n0[i].token_ids@[j]);
                    } else {
                        assert(tasks@[t as int].1 == nodes@[i].token_ids@[j]);
                    }
                } else {
                    assert(nodes@[i] == n0[i]);
                }
            }
            assert forall|i: int, j: int| 0 <= i < nodes@.len() && 0 <= j < nodes@[i].token_ids.len() implies spelled(tasks@, #[trigger] nodes@[i].token_ids@[j], labels[i]) by {
                if i == node {
                    if j < n0[i].token_ids.len() {
                        assert(nodes@[i].token_ids@[j] == n0[i].token_ids@[j]);
                    } else {
                        assert(tasks@[t as int].1 == nodes@[i].token_ids@[j]);
                        assert(tasks@[t as int].0@ == labels[i]);
                    }
                } else {
                    assert(nodes@[i] == n0[i]);
                }
            }
            assert(trie_labeled(nodes@, labels));
            assert(ids_spell(nodes@, labels, tasks@));
            assert forall|i: int, c: int| is_child(n0, i, c) implies #[trigger] is_child(nodes@, i, c) by {
                let kk = choose|kk: int| 0 <= kk < n0[i].children.len() && #[trigger] n0[i].children@[kk].1 == c;
                if i == node {
                    assert(nodes@[i].children == n0[i].children);
                } else {
                    assert(nodes@[i] == n0[i]);
                }
            }
            lemma_below_mono(n0, nodes@);
            assert forall|i: int| 0 <= i < nodes.len() implies #[trigger] below(nodes@, 0, i) by {
                assert(below(n0, 0, i));
            }
            assert forall|i: int| 0 <= i < n0.len() implies n0[i].token_ids@.len() <= (#[trigger] nodes@[i]).token_ids@.len() && nodes@[i].token_ids@.take(n0[i].token_ids@.len() as int) == n0[i].token_ids@ by {
                if i == node {
                    assert(nodes@[i].token_ids@ =~= n0[i].token_ids@.push(tasks@[t as int].1));
                    assert(nodes@[i].token_ids@.take(n0[i].token_ids@.len() as int) =~= n0[i].token_ids@);
                } else {
                    assert(nodes@[i] == n0[i]);
                    assert(nodes@[i].token_ids@.take(n0[i].token_ids@.len() as int) =~= n0[i].token_ids@);
                }
            }
            assert forall|t2: int| 0 <= t2 < t + 1 implies #[trigger] task_placed(nodes@, labels, tasks@, t2) by {
                if t2 < t {
                    lemma_placed_keep(n0, labels, nodes@, labels, tasks@, t2);
                } else {
                    let j = n0[node as int].token_ids@.len() as int;
                    assert(nodes@[node as int].token_ids@[j] == tasks@[t as int].1);
                    assert(below(nodes@, 0, node as int));
                }
            }
        }
        t = t + 1;
    }
    nodes
}

/// The tokens listed at node `i` and in the subtrees of its first `k`
/// children, counted with saturation at `usize::MAX`.
pub open spec fn total_upto(nodes: Seq<TokenTrieNode>, i: int, k: int) -> int
    decreases nodes.len() - i, k,
{
    if i < 0 || i >= nodes.len() {
        0
    } else if k <= 0 {
        nodes[i].token_ids.len() as int
    } else {
        let prev = total_upto(nodes, i, k - 1);
        let c = nodes[i].children@[k - 1].1 as int;
        let sub = if i < c < nodes.len() { total_upto(nodes, c, nodes[c].children.len() as int) } else { 0 };
        if prev + sub <= usize::MAX { prev + sub } else { usize::MAX as int }
    }
}

/// Node `j` is node `i` or lies below it.
pub open spec fn descends(nodes: Seq<TokenTrieNode>, i: int, j: int) -> bool
    decreases nodes.len() - i,
{
    if i < 0 || i >= nodes.len() {
        false
    } else {
        i == j || exists|k: int| 0 <= k < nodes[i].children.len() && i < (#[trigger] nodes[i].children@[k]).1 < nodes.len() && descends(nodes, nodes[i].children@[k].1 as int, j)
    }
}

/// The number of tokens in the subtree of node `i` (saturating).
pub open spec fn subtree_total(nodes: Seq<TokenTrieNode>, i: int) -> int {
    total_upto(nodes, i, nodes[i].children.len() as int)
}

/// Node `j` lies in the subtree of one of the first `k` children of `i`.
pub open spec fn desc_before(nodes: Seq<TokenTrieNode>, i: int, k: int, j: int) -> bool {
    exists|kk: int| 0 <= kk < k && #[trigger] descends(nodes, nodes[i].children@[kk].1 as int, j)
}

proof fn lemma_descends_range(nodes: Seq<TokenTrieNode>, i: int, j: int)
    requires
        trie_wf(nodes),
        descends(nodes, i, j),
    ensures
        0 <= i <= j < nodes.len(),
    decreases nodes.len() - i,
{
    if i != j {
        let k = choose|k: int| 0 <= k < nodes[i].children.len() && i < (#[trigger] nodes[i].children@[k]).1 < nodes.len() && descends(nodes, nodes[i].children@[k].1 as int, j);
        lemma_descends_range(nodes, nodes[i].children@[k].1 as int, j);
    }
}

fn subtree_rec(nodes: &Vec<TokenTrieNode>, node_id: usize, counts: &mut Vec<usize>) -> (total: usize)
    requires
        trie_wf(nodes@),
        node_id < nodes.len(),
        old(counts).len() == nodes.len(),
    ensures
        final(counts).len() == nodes.len(),
        total == subtree_total(nodes@, node_id as int),
        final(counts)@[node_id as int] == total,
        forall|j: int| #[trigger] descends(nodes@, node_id as int, j) ==> final(counts)@[j] == subtree_total(nodes@, j),
        forall|j: int| 0 <= j < nodes.len() && !descends(nodes@, node_id as int, j) ==> #[trigger] final(counts)@[j] == old(counts)@[j],
        forall|j: int| 0 <= j < node_id ==> #[trigger] final(counts)@[j] == old(counts)@[j],
    decreases nodes.len() - node_id,
{
    let ghost c0 = counts@;
    let ghost ns = nodes@;
    let ghost nid = node_id as int;
    let node = &nodes[node_id];
    let mut total: usize = node.token_ids.len();
    let mut k: usize = 0;
    while k < node.children.len()
        invariant
            k <= node.children.len(),
            trie_wf(nodes@),
            ns == nodes@,
            nid == node_id,
            node_id < nodes.len(),
            *node == nodes@[node_id as int],
            counts.len() == nodes.len(),
            total == total_upto(nodes@, node_id as int, k as int),
            forall|j: int| 0 <= j < nodes.len() && !desc_before(ns, nid, k as int, j) ==> #[trigger] counts@[j] == c0[j],
            forall|j: int| #[trigger] desc_before(ns, nid, k as int, j) ==> counts@[j] == subtree_total(ns, j),
        decreases node.children.len() - k,
    {
        let child = node.children[k].1;
        assert(node_id < nodes@[node_id as int].children@[k as int].1 < nodes.len());
        let ghost cb = counts@;
        let c = subtree_rec(nodes, child, counts);
        proof {
            let ci = child as int;
            assert forall|j: int| 0 <= j < nodes.len() && !desc_before(ns, nid, k + 1, j) implies #[trigger] counts@[j] == c0[j] by {
                if desc_before(ns, nid, k as int, j) {
                    let kk = choose|kk: int| 0 <= kk < k && #[trigger] descends(ns, ns[nid].children@[kk].1 as int, j);
                    assert(desc_before(ns, nid, k + 1, j));
                }
                if descends(ns, ci, j) {
                    assert(descends(ns, ns[nid].children@[k as int].1 as int, j));
                    assert(desc_before(ns, nid, k + 1, j));
                }
                assert(counts@[j] == cb[j]);
            }
            assert forall|j: int| #[trigger] desc_before(ns, nid, k + 1, j) implies counts@[j] == subtree_total(ns, j) by {
                let kk = choose|kk: int| 0 <= kk < k + 1 && #[trigger] descends(ns, ns[nid].children@[kk].1 as int, j);
                if kk < k {
                    assert(desc_before(ns, nid, k as int, j));
                    lemma_descends_range(ns, ns[nid].children@[kk].1 as int, j);
                    if !descends(ns, ci, j) {
                        assert(counts@[j] == cb[j]);
                    }
                } else {
                    assert(descends(ns, ci, j));
                }
            }
        }
        total = if total <= usize::MAX - c { total + c } else { usize::MAX };
        k = k + 1;
    }
    let ghost cl = counts@;
    counts.set(node_id, total);
    proof {
        let n = ns[nid].children.len() as int;
        assert forall|j: int| #[trigger] descends(ns, nid, j) implies counts@[j] == subtree_total(ns, j) by {
            if j != nid {
                let kk = choose|kk: int| 0 <= kk < ns[nid].children.len() && nid < (#[trigger] ns[nid].children@[kk]).1 < ns.len() && descends(ns, ns[nid].children@[kk].1 as int, j);
                assert(desc_before(ns, nid, n, j));
                lemma_descends_range(ns, ns[nid].children@[kk].1 as int, j);
                assert(counts@[j] == cl[j]);
            }
        }
        assert forall|j: int| 0 <= j < ns.len() && !descends(ns, nid, j) implies #[trigger] counts@[j] == c0[j] by {
            if desc_before(ns, nid, n, j) {
                let kk = choose|kk: int| 0 <= kk < n && #[trigger] descends(ns, ns[nid].children@[kk].1 as int, j);
                assert(nid < ns[nid].children@[kk].1 < ns.len());
                assert(descends(ns, nid, j));
            }
            assert(j != nid);
            assert(counts@[j] == cl[j]);
        }
        assert forall|j: int| 0 <= j < node_id implies #[trigger] counts@[j] == c0[j] by {
            if descends(ns, nid, j) {
                lemma_descends_range(ns, nid, j);
            }
            assert(!descends(ns, nid, j));
            assert(0 <= j < ns.len() && !descends(ns, nid, j) ==> counts@[j] == c0[j]);
        }
    }
    total
}

/// For each trie node, the number of tokens in its subtree.
pub fn compute_subtree_token_counts(nodes: &Vec<TokenTrieNode>) -> (counts: Vec<usize>)
    requires
        trie_wf(nodes@),
    ensures
        counts.len() == nodes.len(),
        forall|j: int| #[trigger] descends(nodes@, 0, j) ==> counts@[j] == subtree_total(nodes@, j),
        forall|j: int| 0 <= j < nodes.len() && !descends(nodes@, 0, j) ==> #[trigger] counts@[j] == 0,
{
    let mut counts: Vec<usize> = Vec::new();
    let mut i: usize = 0;
    while i < nodes.len()
        invariant
            i <= nodes.len(),
            counts.len() == i,
            forall|j: int| 0 <= j < i ==> #[trigger] counts@[j] == 0,
        decreases nodes.len() - i,
    {
        counts.push(0);
        i = i + 1;
    }
    let ghost z = counts@;
    subtree_rec(nodes, 0, &mut counts);
    proof {
        assert forall|j: int| 0 <= j < nodes.len() && !descends(nodes@, 0, j) implies #[trigger] counts@[j] == 0 by {
            assert(z[j] == 0);
            assert(counts@[j] == z[j]);
        }
    }
    counts
}

/// The result of one token: its id and the stack pairs of the frontier
/// after its last byte (`None` when no derivation accepts it).
pub struct LocalTokenResult {
    pub token_id: usize,
    pub stack_pairs: Option<Vec<(usize, usize)>>,
}

/// The stack pairs of a result name stacks of `stacks`.
pub open spec fn result_in(r: LocalTokenResult, stacks: &StackInterner) -> bool {
    pairs_in(r.stack_pairs, stacks)
}

/// Each pair names stacks of `stacks`, and the pairs are in increasing
/// order.
pub open spec fn pairs_in(p: Option<Vec<(usize, usize)>>, stacks: &StackInterner) -> bool {
    match p {
        Some(v) => {
            &&& forall|k: int| #![trigger v@[k]] 0 <= k < v@.len() ==> v@[k].0 < stacks.size() && v@[k].1 < stacks.size()
            &&& forall|a: int, b: int| 0 <= a < b < v@.len() ==> pair_lt(#[trigger] v@[a], #[trigger] v@[b])
        },
        None => true,
    }
}

pub open spec fn results_in(out: Seq<LocalTokenResult>, stacks: &StackInterner) -> bool {
    forall|k: int| 0 <= k < out.len() ==> result_in(#[trigger] out[k], stacks)
}

proof fn lemma_results_in_extends(out: Seq<LocalTokenResult>, s0: &StackInterner, s1: &StackInterner)
    requires
        results_in(out, s0),
        s0.extends(s1),
    ensures
        results_in(out, s1),
{
    assert forall|k: int| 0 <= k < out.len() implies result_in(#[trigger] out[k], s1) by {
        assert(result_in(out[k], s0));
    }
}

proof fn lemma_pairs_in(frontier: &Frontier, stacks: &StackInterner, v: Seq<(usize, usize)>)
    requires
        frontier_in(frontier, stacks),
        forall|p: (usize, usize)| v.contains(p) <==> exists|k: int| 0 <= k < frontier.states.len() && #[trigger] frontier.states@[k].in_stack == p.0 && frontier.states@[k].out_stack == p.1,
    ensures
        forall|k: int| 0 <= k < v.len() ==> #[trigger] v[k].0 < stacks.size() && v[k].1 < stacks.size(),
{
    assert forall|k: int| 0 <= k < v.len() implies #[trigger] v[k].0 < stacks.size() && v[k].1 < stacks.size() by {
        assert(v.contains(v[k]));
        let m = choose|m: int| 0 <= m < frontier.states.len() && #[trigger] frontier.states@[m].in_stack == v[k].0 && frontier.states@[m].out_stack == v[k].1;
        assert(frontier.states@[m].in_stack < stacks.size());
    }
}

/// Result `r` is for a token listed at some node of the trie, and its
/// pairs mean, over `st`, what that node's label reaches.
pub open spec fn result_means(nodes: Seq<TokenTrieNode>, labels: Seq<Seq<u8>>, ig: &IntGrammar, r: LocalTokenResult, st: &StackInterner) -> bool {
    exists|i: int, j: int| 0 <= i < nodes.len() && 0 <= j < nodes[i].token_ids.len() && #[trigger] nodes[i].token_ids@[j] == r.token_id && pairs_mean(ig, labels[i], r.stack_pairs, st)
}

/// Every result from position `from` on means what its node reaches.
pub open spec fn means_from(nodes: Seq<TokenTrieNode>, labels: Seq<Seq<u8>>, ig: &IntGrammar, out: Seq<LocalTokenResult>, from: int, st: &StackInterner) -> bool {
    forall|k: int| 0 <= k && from <= k < out.len() ==> result_means(nodes, labels, ig, #[trigger] out[k], st)
}

proof fn lemma_means_extends(nodes: Seq<TokenTrieNode>, labels: Seq<Seq<u8>>, ig: &IntGrammar, out: Seq<LocalTokenResult>, from: int, st1: &StackInterner, st2: &StackInterner)
    requires
        means_from(nodes, labels, ig, out, from, st1),
        results_in(out, st1),
        st1.extends(st2),
    ensures
        means_from(nodes, labels, ig, out, from, st2),
{
    assert forall|k: int| 0 <= k && from <= k < out.len() implies result_means(nodes, labels, ig, #[trigger] out[k], st2) by {
        assert(result_means(nodes, labels, ig, out[k], st1));
        let (i, j) = choose|i: int, j: int| 0 <= i < nodes.len() && 0 <= j < nodes[i].token_ids.len() && #[trigger] nodes[i].token_ids@[j] == out[k].token_id && pairs_mean(ig, labels[i], out[k].stack_pairs, st1);
        assert(result_in(out[k], st1));
        lemma_pairs_mean_extends(ig, labels[i], out[k].stack_pairs, st1, st2);
    }
}

/// Results kept in place keep their meaning.
proof fn lemma_means_prefix(nodes: Seq<TokenTrieNode>, labels: Seq<Seq<u8>>, ig: &IntGrammar, old_out: Seq<LocalTokenResult>, out: Seq<LocalTokenResult>, from: int, mid: int, st: &StackInterner)
    requires
        means_from(nodes, labels, ig, old_out, from, st),
        means_from(nodes, labels, ig, out, mid, st),
        mid == old_out.len(),
        old_out.len() <= out.len(),
        forall|k: int| 0 <= k < old_out.len() ==> #[trigger] out[k] == old_out[k],
    ensures
        means_from(nodes, labels, ig, out, from, st),
{
    assert forall|k: int| 0 <= k && from <= k < out.len() implies result_means(nodes, labels, ig, #[trigger] out[k], st) by {
        if k < mid {
            assert(out[k] == old_out[k]);
            assert(result_means(nodes, labels, ig, old_out[k], st));
        }
    }
}

fn clone_pairs(p: &Option<Vec<(usize, usize)>>) -> (r: Option<Vec<(usize, usize)>>)
    ensures
        r is None <==> p is None,
        r matches Some(v) ==> p matches Some(w) && v@ == w@,
{
    match p {
        None => None,
        Some(w) => {
            let mut v: Vec<(usize, usize)> = Vec::new();
            let mut i: usize = 0;
            while i < w.len()
                invariant
                    i <= w.len(),
                    v@ =~= w@.take(i as int),
                decreases w.len() - i,
            {
                v.push(w[i]);
                i = i + 1;
            }
            assert(w@.take(w@.len() as int) =~= w@);
            Some(v)
        },
    }
}

/// Some result from position `from` on is for token `id`.
pub open spec fn has_result(out: Seq<LocalTokenResult>, from: int, id: usize) -> bool {
    exists|k: int| 0 <= k && from <= k < out.len() && #[trigger] out[k].token_id == id
}

/// Every token listed at a node below `node` has a result from position
/// `from` on.
pub open spec fn covers(nodes: Seq<TokenTrieNode>, node: int, out: Seq<LocalTokenResult>, from: int) -> bool {
    forall|j: int, m: int| below(nodes, node, j) && 0 <= j < nodes.len() && 0 <= m < nodes[j].token_ids.len() ==> #[trigger] has_result(out, from, nodes[j].token_ids@[m])
}

proof fn lemma_has_result_grow(o1: Seq<LocalTokenResult>, o2: Seq<LocalTokenResult>, from1: int, from2: int)
    requires
        o1.len() <= o2.len(),
        from2 <= from1,
        forall|k: int| 0 <= k < o1.len() ==> #[trigger] o2[k] == o1[k],
    ensures
        forall|id: usize| #[trigger] has_result(o1, from1, id) ==> has_result(o2, from2, id),
{
    assert forall|id: usize| #[trigger] has_result(o1, from1, id) implies has_result(o2, from2, id) by {
        let k = choose|k: int| 0 <= k && from1 <= k < o1.len() && #[trigger] o1[k].token_id == id;
        assert(o2[k] == o1[k]);
    }
}

/// The empty result of a non-empty token whose bytes reach nothing means
/// that, over any stacks.
proof fn lemma_none_means(ig: &IntGrammar, w: Seq<u8>, st: &StackInterner)
    requires
        w.len() > 0,
        reach(ig, w) == Set::<AbsState>::empty(),
    ensures
        pairs_mean(ig, w, None, st),
{
    assert(reach_pairs(ig, w) =~= Set::<(Seq<usize>, Seq<usize>)>::empty()) by {
        assert forall|x: (Seq<usize>, Seq<usize>)| !reach_pairs(ig, w).contains(x) by {
            if reach_pairs(ig, w).contains(x) {
                let a = choose|a: AbsState| #[trigger] reach(ig, w).contains(a) && a.0 == x.0 && a.1 == x.1;
                assert(Set::<AbsState>::empty().contains(a));
            }
        }
    }
}

/// Every token of the subtree at `node_id` is invalid: the node's bytes
/// reach no state, and so do the bytes of every node below it.
pub fn collect_invalid_subtree(nodes: &Vec<TokenTrieNode>, node_id: usize, out: &mut Vec<LocalTokenResult>, Ghost(labels): Ghost<Seq<Seq<u8>>>, Ghost(ig): Ghost<IntGrammar>, Ghost(st): Ghost<StackInterner>)
    requires
        trie_wf(nodes@),
        node_id < nodes.len(),
        trie_labeled(nodes@, labels),
        labels[node_id as int].len() > 0,
        reach(&ig, labels[node_id as int]) == Set::<AbsState>::empty(),
    ensures
        final(out).len() >= old(out).len(),
        forall|k: int| 0 <= k < old(out).len() ==> #[trigger] final(out)@[k] == old(out)@[k],
        forall|k: int| old(out).len() <= k < final(out).len() ==> (#[trigger] final(out)@[k]).stack_pairs is None,
        forall|st2: StackInterner| results_in(old(out)@, &st2) ==> results_in(final(out)@, &st2),
        fresh_from(nodes@, final(out)@, old(out).len() as int),
        means_from(nodes@, labels, &ig, final(out)@, old(out).len() as int, &st),
        covers(nodes@, node_id as int, final(out)@, old(out).len() as int),
    decreases nodes.len() - node_id,
{
    let node = &nodes[node_id];
    let ghost o0 = out@;
    proof {
        lemma_none_means(&ig, labels[node_id as int], &st);
    }
    let mut i: usize = 0;
    while i < node.token_ids.len()
        invariant
            i <= node.token_ids.len(),
            node_id < nodes.len(),
            *node == nodes@[node_id as int],
            out.len() >= o0.len(),
            forall|k: int| 0 <= k < o0.len() ==> #[trigger] out@[k] == o0[k],
            forall|k: int| o0.len() <= k < out.len() ==> (#[trigger] out@[k]).stack_pairs is None,
            fresh_from(nodes@, out@, o0.len() as int),
            pairs_mean(&ig, labels[node_id as int], None, &st),
            means_from(nodes@, labels, &ig, out@, o0.len() as int, &st),
            forall|m: int| 0 <= m < i ==> #[trigger] has_result(out@, o0.len() as int, node.token_ids@[m]),
        decreases node.token_ids.len() - i,
    {
        let ghost oi = out@;
        out.push(LocalTokenResult { token_id: node.token_ids[i], stack_pairs: None });
        proof {
            lemma_has_result_grow(oi, out@, o0.len() as int, o0.len() as int);
            assert forall|m: int| 0 <= m < i + 1 implies #[trigger] has_result(out@, o0.len() as int, node.token_ids@[m]) by {
                if m == i {
                    assert(out@[oi.len() as int].token_id == node.token_ids@[m]);
                } else {
                    assert(has_result(oi, o0.len() as int, node.token_ids@[m]));
                }
            }
            assert(nodes@[node_id as int].token_ids@[i as int] == node.token_ids@[i as int]);
            assert forall|k: int| o0.len() <= k < out.len() implies ids_in_trie(nodes@, #[trigger] out@[k].token_id) by {
                if k < oi.len() {
                    assert(out@[k] == oi[k]);
                } else {
                    assert(out@[k].token_id == nodes@[node_id as int].token_ids@[i as int]);
                }
            }
            assert forall|k: int| 0 <= k && o0.len() <= k < out.len() implies result_means(nodes@, labels, &ig, #[trigger] out@[k], &st) by {
                if k < oi.len() {
                    assert(out@[k] == oi[k]);
                } else {
                    assert(nodes@[node_id as int].token_ids@[i as int] == out@[k].token_id);
                }
            }
        }
        i = i + 1;
    }
    let mut k: usize = 0;
    while k < node.children.len()
        invariant
            k <= node.children.len(),
            trie_wf(nodes@),
            node_id < nodes.len(),
            *node == nodes@[node_id as int],
            trie_labeled(nodes@, labels),
            reach(&ig, labels[node_id as int]) == Set::<AbsState>::empty(),
            out.len() >= o0.len(),
            forall|j: int| 0 <= j < o0.len() ==> #[trigger] out@[j] == o0[j],
            forall|j: int| o0.len() <= j < out.len() ==> (#[trigger] out@[j]).stack_pairs is None,
            fresh_from(nodes@, out@, o0.len() as int),
            means_from(nodes@, labels, &ig, out@, o0.len() as int, &st),
            forall|m: int| 0 <= m < node.token_ids.len() ==> #[trigger] has_result(out@, o0.len() as int, node.token_ids@[m]),
            forall|k2: int| 0 <= k2 < k ==> covers(nodes@, #[trigger] node.children@[k2].1 as int, out@, o0.len() as int),
        decreases node.children.len() - k,
    {
        let child = node.children[k].1;
        assert(node_id < nodes@[node_id as int].children@[k as int].1 < nodes.len());
        proof {
            let b = nodes@[node_id as int].children@[k as int].0;
            assert(labels[child as int] == labels[node_id as int].push(b));
            lemma_reach_empty_push(&ig, labels[node_id as int], b);
        }
        let ghost o1 = out@;
        collect_invalid_subtree(nodes, child, out, Ghost(labels), Ghost(ig), Ghost(st));
        proof {
            lemma_has_result_grow(o1, out@, o0.len() as int, o0.len() as int);
            lemma_has_result_grow(out@, out@, o1.len() as int, o0.len() as int);
            assert forall|m: int| 0 <= m < node.token_ids.len() implies #[trigger] has_result(out@, o0.len() as int, node.token_ids@[m]) by {
                assert(has_result(o1, o0.len() as int, node.token_ids@[m]));
            }
            assert forall|k2: int| 0 <= k2 < k + 1 implies covers(nodes@, #[trigger] node.children@[k2].1 as int, out@, o0.len() as int) by {
                let c = node.children@[k2].1 as int;
                assert forall|j: int, m: int| below(nodes@, c, j) && 0 <= j < nodes@.len() && 0 <= m < nodes@[j].token_ids.len() implies #[trigger] has_result(out@, o0.len() as int, nodes@[j].token_ids@[m]) by {
                    if k2 < k {
                        assert(covers(nodes@, c, o1, o0.len() as int));
                        assert(has_result(o1, o0.len() as int, nodes@[j].token_ids@[m]));
                    } else {
                        assert(has_result(out@, o1.len() as int, nodes@[j].token_ids@[m]));
                    }
                }
            }
            assert forall|j: int| 0 <= j < o0.len() implies #[trigger] out@[j] == o0[j] by {
                assert(out@[j] == o1[j]);
            }
            assert forall|j: int| o0.len() <= j < out.len() implies (#[trigger] out@[j]).stack_pairs is None by {
                if j < o1.len() {
                    assert(out@[j] == o1[j]);
                }
            }
            assert forall|j: int| o0.len() <= j < out.len() implies ids_in_trie(nodes@, #[trigger] out@[j].token_id) by {
                if j < o1.len() {
                    assert(out@[j] == o1[j]);
                }
            }
            lemma_means_prefix(nodes@, labels, &ig, o1, out@, o0.len() as int, o1.len() as int, &st);
        }
        k = k + 1;
    }
    proof {
        assert forall|j: int, m: int| below(nodes@, node_id as int, j) && 0 <= j < nodes@.len() && 0 <= m < nodes@[j].token_ids.len() implies #[trigger] has_result(out@, o0.len() as int, nodes@[j].token_ids@[m]) by {
            lemma_below_split(nodes@, node_id as int, j);
            if j != node_id {
                let k2 = choose|k2: int| 0 <= k2 < nodes@[node_id as int].children.len() && #[trigger] below(nodes@, nodes@[node_id as int].children@[k2].1 as int, j);
                assert(covers(nodes@, node.children@[k2].1 as int, out@, o0.len() as int));
            }
        }
        assert forall|st2: StackInterner| results_in(o0, &st2) implies results_in(out@, &st2) by {
            assert forall|j: int| 0 <= j < out.len() implies result_in(#[trigger] out@[j], &st2) by {
                if j < o0.len() {
                    assert(out@[j] == o0[j]);
                    assert(result_in(o0[j], &st2));
                }
            }
        }
    }
}

/// Walks the subtree at `node_id` from `frontier`: each token there gets
/// the stack pairs of the frontier at its node, and a child whose byte
/// leaves no state has all its tokens marked invalid. When the frontier
/// holds the states the node's bytes reach, every result means what its
/// token's bytes reach.
pub fn collect_token_trie_results(nodes: &Vec<TokenTrieNode>, node_id: usize, frontier: &Frontier, stacks: &mut StackInterner, ig: &IntGrammar, out: &mut Vec<LocalTokenResult>, Ghost(labels): Ghost<Seq<Seq<u8>>>)
    requires
        trie_wf(nodes@),
        node_id < nodes.len(),
        frontier.wf(),
        ig.wf(),
        old(stacks).wf(),
        frontier_in(frontier, old(stacks)),
        results_in(old(out)@, old(stacks)),
        trie_labeled(nodes@, labels),
        labels[node_id as int].len() > 0,
        frontier_reaches(ig, frontier, old(stacks), labels[node_id as int]),
    ensures
        final(stacks).wf(),
        old(stacks).extends(final(stacks)),
        final(out).len() >= old(out).len(),
        forall|k: int| 0 <= k < old(out).len() ==> #[trigger] final(out)@[k] == old(out)@[k],
        results_in(final(out)@, final(stacks)),
        fresh_from(nodes@, final(out)@, old(out).len() as int),
        means_from(nodes@, labels, ig, final(out)@, old(out).len() as int, final(stacks)),
        covers(nodes@, node_id as int, final(out)@, old(out).len() as int),
    decreases nodes.len() - node_id,
{
    let node = &nodes[node_id];
    let ghost w = labels[node_id as int];
    let stack_pairs = if node.token_ids.len() == 0 { None } else { frontier_stack_pairs(frontier) };
    proof {
        if stack_pairs is Some {
            lemma_pairs_in(frontier, stacks, stack_pairs->0@);
        }
        if node.token_ids.len() > 0 {
            lemma_pairs_mean(ig, frontier, stacks, w, stack_pairs);
        }
    }
    let ghost o0 = out@;
    let ghost s0 = *stacks;
    let mut i: usize = 0;
    while i < node.token_ids.len()
        invariant
            i <= node.token_ids.len(),
            out.len() >= o0.len(),
            forall|k: int| 0 <= k < o0.len() ==> #[trigger] out@[k] == o0[k],
            *stacks == s0,
            results_in(out@, &s0),
            pairs_in(stack_pairs, &s0),
            node_id < nodes.len(),
            *node == nodes@[node_id as int],
            fresh_from(nodes@, out@, o0.len() as int),
            w == labels[node_id as int],
            node.token_ids.len() > 0 ==> pairs_mean(ig, w, stack_pairs, &s0),
            means_from(nodes@, labels, ig, out@, o0.len() as int, &s0),
            forall|m: int| 0 <= m < i ==> #[trigger] has_result(out@, o0.len() as int, node.token_ids@[m]),
        decreases node.token_ids.len() - i,
    {
        let r = LocalTokenResult { token_id: node.token_ids[i], stack_pairs: clone_pairs(&stack_pairs) };
        assert(result_in(r, &s0));
        let ghost oi = out@;
        out.push(r);
        proof {
            lemma_has_result_grow(oi, out@, o0.len() as int, o0.len() as int);
            assert forall|m: int| 0 <= m < i + 1 implies #[trigger] has_result(out@, o0.len() as int, node.token_ids@[m]) by {
                if m == i {
                    assert(out@[oi.len() as int].token_id == node.token_ids@[m]);
                } else {
                    assert(has_result(oi, o0.len() as int, node.token_ids@[m]));
                }
            }
            assert forall|j: int| 0 <= j < out.len() implies result_in(#[trigger] out@[j], &s0) by {
                if j < oi.len() {
                    assert(out@[j] == oi[j]);
                }
            }
            assert(nodes@[node_id as int].token_ids@[i as int] == node.token_ids@[i as int]);
            assert forall|j: int| o0.len() <= j < out.len() implies ids_in_trie(nodes@, #[trigger] out@[j].token_id) by {
                if j < oi.len() {
                    assert(out@[j] == oi[j]);
                } else {
                    assert(out@[j].token_id == nodes@[node_id as int].token_ids@[i as int]);
                }
            }
            lemma_pairs_mean_same_view(ig, w, stack_pairs, r.stack_pairs, &s0);
            assert forall|j: int| 0 <= j && o0.len() <= j < out.len() implies result_means(nodes@, labels, ig, #[trigger] out@[j], &s0) by {
                if j < oi.len() {
                    assert(out@[j] == oi[j]);
                } else {
                    assert(nodes@[node_id as int].token_ids@[i as int] == out@[j].token_id);
                }
            }
        }
        i = i + 1;
    }
    let mut k: usize = 0;
    while k < node.children.len()
        invariant
            k <= node.children.len(),
            trie_wf(nodes@),
            node_id < nodes.len(),
            *node == nodes@[node_id as int],
            frontier.wf(),
            ig.wf(),
            stacks.wf(),
            s0.extends(&*stacks),
            frontier_in(frontier, &s0),
            out.len() >= o0.len(),
            forall|j: int| 0 <= j < o0.len() ==> #[trigger] out@[j] == o0[j],
            results_in(out@, &*stacks),
            fresh_from(nodes@, out@, o0.len() as int),
            trie_labeled(nodes@, labels),
            w == labels[node_id as int],
            frontier_reaches(ig, frontier, &s0, w),
            means_from(nodes@, labels, ig, out@, o0.len() as int, &*stacks),
            forall|m: int| 0 <= m < node.token_ids.len() ==> #[trigger] has_result(out@, o0.len() as int, node.token_ids@[m]),
            forall|k2: int| 0 <= k2 < k ==> covers(nodes@, #[trigger] node.children@[k2].1 as int, out@, o0.len() as int),
        decreases node.children.len() - k,
    {
        let (byte, child) = node.children[k];
        assert(node_id < nodes@[node_id as int].children@[k as int].1 < nodes.len());
        assert(labels[child as int] == w.push(byte));
        proof {
            assert forall|m: int| 0 <= m < frontier.states.len() implies #[trigger] frontier.states@[m].in_stack < stacks.size() && frontier.states@[m].out_stack < stacks.size() by {
                assert(frontier.states@[m].in_stack < s0.size());
            }
        }
        let ghost s1 = *stacks;
        proof {
            lemma_image_extends(frontier, &s0, &s1);
        }
        let next = advance_frontier(frontier, byte, ig, stacks);
        let ghost o1 = out@;
        let ghost s2 = *stacks;
        proof {
            lemma_results_in_extends(out@, &s1, &s2);
            lemma_means_extends(nodes@, labels, ig, out@, o0.len() as int, &s1, &s2);
            lemma_advance_reach(ig, frontier, &s1, &next, &s2, w, byte);
        }
        if next.len() > 0 {
            collect_token_trie_results(nodes, child, &next, stacks, ig, out, Ghost(labels));
            proof {
                lemma_results_in_extends(o1, &s2, &*stacks);
                lemma_means_extends(nodes@, labels, ig, o1, o0.len() as int, &s2, &*stacks);
            }
        } else {
            proof {
                assert(reach(ig, w.push(byte)) =~= Set::<AbsState>::empty()) by {
                    assert forall|b: AbsState| !reach(ig, w.push(byte)).contains(b) by {
                        assert(!in_image(&next, &s2, b));
                    }
                }
            }
            collect_invalid_subtree(nodes, child, out, Ghost(labels), Ghost(*ig), Ghost(*stacks));
        }
        proof {
            assert forall|j: int| 0 <= j < o0.len() implies #[trigger] out@[j] == o0[j] by {
                assert(out@[j] == o1[j]);
            }
            assert forall|i: int| 0 <= i < s0.size() implies #[trigger] stacks.stack(i) == s0.stack(i) by {
                assert(s1.stack(i) == s0.stack(i));
                assert(s2.stack(i) == s1.stack(i));
            }
            assert forall|j: int| o0.len() <= j < out.len() implies ids_in_trie(nodes@, #[trigger] out@[j].token_id) by {
                if j < o1.len() {
                    assert(out@[j] == o1[j]);
                }
            }
            lemma_means_prefix(nodes@, labels, ig, o1, out@, o0.len() as int, o1.len() as int, &*stacks);
            lemma_has_result_grow(o1, out@, o0.len() as int, o0.len() as int);
            lemma_has_result_grow(out@, out@, o1.len() as int, o0.len() as int);
            assert forall|m: int| 0 <= m < node.token_ids.len() implies #[trigger] has_result(out@, o0.len() as int, node.token_ids@[m]) by {
                assert(has_result(o1, o0.len() as int, node.token_ids@[m]));
            }
            assert forall|k2: int| 0 <= k2 < k + 1 implies covers(nodes@, #[trigger] node.children@[k2].1 as int, out@, o0.len() as int) by {
                let c = node.children@[k2].1 as int;
                assert forall|j: int, m: int| below(nodes@, c, j) && 0 <= j < nodes@.len() && 0 <= m < nodes@[j].token_ids.len() implies #[trigger] has_result(out@, o0.len() as int, nodes@[j].token_ids@[m]) by {
                    if k2 < k {
                        assert(covers(nodes@, c, o1, o0.len() as int));
                        assert(has_result(o1, o0.len() as int, nodes@[j].token_ids@[m]));
                    } else {
                        assert(has_result(out@, o1.len() as int, nodes@[j].token_ids@[m]));
                    }
                }
            }
        }
        k = k + 1;
    }
    proof {
        assert forall|j: int, m: int| below(nodes@, node_id as int, j) && 0 <= j < nodes@.len() && 0 <= m < nodes@[j].token_ids.len() implies #[trigger] has_result(out@, o0.len() as int, nodes@[j].token_ids@[m]) by {
            lemma_below_split(nodes@, node_id as int, j);
            if j != node_id {
                let k2 = choose|k2: int| 0 <= k2 < nodes@[node_id as int].children.len() && #[trigger] below(nodes@, nodes@[node_id as int].children@[k2].1 as int, j);
                assert(covers(nodes@, node.children@[k2].1 as int, out@, o0.len() as int));
            }
        }
    }
}

/// The frontier re-expressed over a fresh interner holding only its own
/// stacks.
pub fn rebase_frontier(frontier: &Frontier, stacks: &StackInterner) -> (r: (StackInterner, Frontier))
    requires
        frontier.wf(),
        stacks.wf(),
        frontier_in(frontier, stacks),
    ensures
        r.0.wf(),
        r.1.wf(),
        frontier_in(&r.1, &r.0),
        forall|b: AbsState| #[trigger] in_image(&r.1, &r.0, b) == in_image(frontier, stacks, b),
{
    let mut rebased_stacks = StackInterner::new();
    let mut rebased = Frontier::new();
    let mut i: usize = 0;
    while i < frontier.states.len()
        invariant
            i <= frontier.states.len(),
            frontier.wf(),
            stacks.wf(),
            frontier_in(frontier, stacks),
            rebased_stacks.wf(),
            rebased.wf(),
            frontier_in(&rebased, &rebased_stacks),
            forall|b: AbsState| #[trigger] in_image(&rebased, &rebased_stacks, b) == exists|j: int| 0 <= j < i && #[trigger] abs_state(stacks, frontier.states@[j]) == b,
        decreases frontier.states.len() - i,
    {
        let st = frontier.states[i];
        assert(frontier.states@[i as int].in_stack < stacks.size() && frontier.states@[i as int].out_stack < stacks.size());
        let ghost r0 = rebased_stacks;
        let ins = rebased_stacks.intern_slice(stacks.get(st.in_stack));
        let ghost r1 = rebased_stacks;
        let outs = rebased_stacks.intern_slice(stacks.get(st.out_stack));
        let ghost nb = rebased;
        let ns = SearchState { in_stack: ins, out_stack: outs, prev_symbol: st.prev_symbol, allow_bt: st.allow_bt };
        rebased.insert(ns);
        proof {
            let r2 = rebased_stacks;
            assert forall|q: int| 0 <= q < r0.size() implies #[trigger] r2.stack(q) == r0.stack(q) by {
                assert(r1.stack(q) == r0.stack(q));
            }
            assert(r0.extends(&r2));
            lemma_image_extends(&nb, &r0, &r2);
            lemma_image_insert(&nb, &rebased, &r2, ns);
            assert(r2.stack(ins as int) == r1.stack(ins as int));
            assert(abs_state(&r2, ns) == abs_state(stacks, st));
            assert forall|b: AbsState| #[trigger] in_image(&rebased, &rebased_stacks, b) == exists|j: int| 0 <= j < i + 1 && #[trigger] abs_state(stacks, frontier.states@[j]) == b by {
                if exists|j: int| 0 <= j < i + 1 && #[trigger] abs_state(stacks, frontier.states@[j]) == b {
                    let j = choose|j: int| 0 <= j < i + 1 && #[trigger] abs_state(stacks, frontier.states@[j]) == b;
                    if j < i {
                        assert(exists|j2: int| 0 <= j2 < i && #[trigger] abs_state(stacks, frontier.states@[j2]) == b);
                    }
                }
            }
            assert forall|k: int| 0 <= k < rebased.states.len() implies #[trigger] rebased.states@[k].in_stack < rebased_stacks.size() && rebased.states@[k].out_stack < rebased_stacks.size() by {
                assert(rebased@.contains(rebased.states@[k]));
                if rebased.states@[k] != ns {
                    assert(nb@.contains(rebased.states@[k]));
                    let j = choose|j: int| 0 <= j < nb.states.len() && nb.states@[j] == rebased.states@[k];
                    assert(nb.states@[j].in_stack < r0.size());
                }
            }
        }
        i = i + 1;
    }
    proof {
        assert forall|b: AbsState| #[trigger] in_image(&rebased, &rebased_stacks, b) == in_image(frontier, stacks, b) by {
            if in_image(frontier, stacks, b) {
                let j = choose|j: int| 0 <= j < frontier.states.len() && #[trigger] abs_state(stacks, frontier.states@[j]) == b;
                assert(exists|j2: int| 0 <= j2 < i && #[trigger] abs_state(stacks, frontier.states@[j2]) == b);
            }
        }
    }
    (rebased_stacks, rebased)
}

/// A subtree of the trie to walk separately, with its frontier and the
/// stacks that frontier refers to.
pub struct TrieJob {
    pub node_id: usize,
    pub frontier: Frontier,
    pub stacks: StackInterner,
}

pub open spec fn job_wf(job: &TrieJob, n: nat) -> bool {
    &&& job.node_id < n
    &&& job.frontier.wf()
    &&& job.stacks.wf()
    &&& frontier_in(&job.frontier, &job.stacks)
}

/// Node `j` lies below the node of one of the jobs from position `jfrom`
/// on.
pub open spec fn job_below(nodes: Seq<TokenTrieNode>, jobs: Seq<TrieJob>, jfrom: int, j: int) -> bool {
    exists|q: int| 0 <= q && jfrom <= q < jobs.len() && #[trigger] below(nodes, jobs[q].node_id as int, j)
}

/// Every token listed at a node below `node` has a result from position
/// `from` on, or its node lies below a job from position `jfrom` on.
pub open spec fn covers_or_jobs(nodes: Seq<TokenTrieNode>, node: int, out: Seq<LocalTokenResult>, from: int, jobs: Seq<TrieJob>, jfrom: int) -> bool {
    forall|j: int, m: int| below(nodes, node, j) && 0 <= j < nodes.len() && 0 <= m < nodes[j].token_ids.len() ==> #[trigger] has_result(out, from, nodes[j].token_ids@[m]) || job_below(nodes, jobs, jfrom, j)
}

proof fn lemma_job_below_grow(nodes: Seq<TokenTrieNode>, j1: Seq<TrieJob>, j2: Seq<TrieJob>, from1: int, from2: int)
    requires
        j1.len() <= j2.len(),
        from2 <= from1,
        forall|k: int| 0 <= k < j1.len() ==> #[trigger] j2[k] == j1[k],
    ensures
        forall|j: int| #[trigger] job_below(nodes, j1, from1, j) ==> job_below(nodes, j2, from2, j),
{
    assert forall|j: int| #[trigger] job_below(nodes, j1, from1, j) implies job_below(nodes, j2, from2, j) by {
        let q = choose|q: int| 0 <= q && from1 <= q < j1.len() && #[trigger] below(nodes, j1[q].node_id as int, j);
        assert(j2[q] == j1[q]);
    }
}

/// A job whose frontier holds the states its node's bytes reach.
pub open spec fn job_means(job: &TrieJob, nodes: Seq<TokenTrieNode>, labels: Seq<Seq<u8>>, ig: &IntGrammar) -> bool {
    &&& job_wf(job, nodes.len() as nat)
    &&& labels[job.node_id as int].len() > 0
    &&& frontier_reaches(ig, &job.frontier, &job.stacks, labels[job.node_id as int])
}

/// Splits the walk of the subtree at `node_id`: a subtree of at most 512
/// tokens, or at depth 8, becomes a job of its own; otherwise the node's
/// tokens are answered now and each child is split in turn (a child whose
/// byte leaves no state has all its tokens answered invalid). Answers and
/// jobs keep the meaning of the frontier: the states the bytes reach.
pub fn collect_token_trie_jobs(nodes: &Vec<TokenTrieNode>, subtree_token_counts: &Vec<usize>, node_id: usize, frontier: Frontier, stacks: &mut StackInterner, depth: usize, ig: &IntGrammar, immediate: &mut Vec<LocalTokenResult>, jobs: &mut Vec<TrieJob>, Ghost(labels): Ghost<Seq<Seq<u8>>>)
    requires
        trie_wf(nodes@),
        subtree_token_counts.len() == nodes.len(),
        node_id < nodes.len(),
        frontier.wf(),
        ig.wf(),
        old(stacks).wf(),
        frontier_in(&frontier, old(stacks)),
        forall|k: int| 0 <= k < old(jobs).len() ==> job_means(#[trigger] &old(jobs)@[k], nodes@, labels, ig),
        results_in(old(immediate)@, old(stacks)),
        trie_labeled(nodes@, labels),
        labels[node_id as int].len() > 0,
        frontier_reaches(ig, &frontier, old(stacks), labels[node_id as int]),
    ensures
        final(stacks).wf(),
        old(stacks).extends(final(stacks)),
        forall|k: int| 0 <= k < final(jobs).len() ==> job_means(#[trigger] &final(jobs)@[k], nodes@, labels, ig),
        results_in(final(immediate)@, final(stacks)),
        final(immediate).len() >= old(immediate).len(),
        forall|k: int| 0 <= k < old(immediate).len() ==> #[trigger] final(immediate)@[k] == old(immediate)@[k],
        fresh_from(nodes@, final(immediate)@, old(immediate).len() as int),
        means_from(nodes@, labels, ig, final(immediate)@, old(immediate).len() as int, final(stacks)),
        final(jobs).len() >= old(jobs).len(),
        forall|k: int| 0 <= k < old(jobs).len() ==> #[trigger] final(jobs)@[k] == old(jobs)@[k],
        covers_or_jobs(nodes@, node_id as int, final(immediate)@, old(immediate).len() as int, final(jobs)@, old(jobs).len() as int),
    decreases nodes.len() - node_id,
{
    let ghost w = labels[node_id as int];
    if subtree_token_counts[node_id] <= 512 || depth >= 8 {
        let (rebased_stacks, rebased_frontier) = rebase_frontier(&frontier, stacks);
        let ghost j0 = jobs@;
        jobs.push(TrieJob { node_id, frontier: rebased_frontier, stacks: rebased_stacks });
        proof {
            assert forall|k: int| 0 <= k < jobs.len() implies job_means(#[trigger] &jobs@[k], nodes@, labels, ig) by {
                if k < j0.len() {
                    assert(jobs@[k] == j0[k]);
                }
            }
            assert forall|j: int, m: int| below(nodes@, node_id as int, j) && 0 <= j < nodes@.len() && 0 <= m < nodes@[j].token_ids.len() implies #[trigger] has_result(immediate@, immediate@.len() as int, nodes@[j].token_ids@[m]) || job_below(nodes@, jobs@, j0.len() as int, j) by {
                assert(jobs@[j0.len() as int].node_id == node_id);
                assert(below(nodes@, jobs@[j0.len() as int].node_id as int, j));
            }
        }
        return;
    }
    let node = &nodes[node_id];
    let stack_pairs = frontier_stack_pairs(&frontier);
    proof {
        if stack_pairs is Some {
            lemma_pairs_in(&frontier, stacks, stack_pairs->0@);
        }
        lemma_pairs_mean(ig, &frontier, stacks, w, stack_pairs);
    }
    let ghost st0 = *stacks;
    let ghost im0 = immediate@;
    let mut i: usize = 0;
    while i < node.token_ids.len()
        invariant
            i <= node.token_ids.len(),
            *stacks == st0,
            results_in(immediate@, &st0),
            pairs_in(stack_pairs, &st0),
            node_id < nodes.len(),
            *node == nodes@[node_id as int],
            immediate.len() >= im0.len(),
            forall|k: int| 0 <= k < im0.len() ==> #[trigger] immediate@[k] == im0[k],
            fresh_from(nodes@, immediate@, im0.len() as int),
            trie_labeled(nodes@, labels),
            w == labels[node_id as int],
            pairs_mean(ig, w, stack_pairs, &st0),
            means_from(nodes@, labels, ig, immediate@, im0.len() as int, &st0),
            forall|m: int| 0 <= m < i ==> #[trigger] has_result(immediate@, im0.len() as int, node.token_ids@[m]),
        decreases node.token_ids.len() - i,
    {
        let r = LocalTokenResult { token_id: node.token_ids[i], stack_pairs: clone_pairs(&stack_pairs) };
        assert(result_in(r, &st0));
        let ghost oi = immediate@;
        immediate.push(r);
        proof {
            lemma_has_result_grow(oi, immediate@, im0.len() as int, im0.len() as int);
            assert forall|m: int| 0 <= m < i + 1 implies #[trigger] has_result(immediate@, im0.len() as int, node.token_ids@[m]) by {
                if m == i {
                    assert(immediate@[oi.len() as int].token_id == node.token_ids@[m]);
                } else {
                    assert(has_result(oi, im0.len() as int, node.token_ids@[m]));
                }
            }
            assert forall|j: int| 0 <= j < immediate.len() implies result_in(#[trigger] immediate@[j], &st0) by {
                if j < oi.len() {
                    assert(immediate@[j] == oi[j]);
                }
            }
            assert(nodes@[node_id as int].token_ids@[i as int] == node.token_ids@[i as int]);
            assert forall|j: int| im0.len() <= j < immediate.len() implies ids_in_trie(nodes@, #[trigger] immediate@[j].token_id) by {
                if j < oi.len() {
                    assert(immediate@[j] == oi[j]);
                } else {
                    assert(immediate@[j].token_id == nodes@[node_id as int].token_ids@[i as int]);
                }
            }
            assert forall|j: int| 0 <= j < im0.len() implies #[trigger] immediate@[j] == im0[j] by {
                assert(immediate@[j] == oi[j]);
            }
            lemma_pairs_mean_same_view(ig, w, stack_pairs, r.stack_pairs, &st0);
            assert forall|j: int| 0 <= j && im0.len() <= j < immediate.len() implies result_means(nodes@, labels, ig, #[trigger] immediate@[j], &st0) by {
                if j < oi.len() {
                    assert(immediate@[j] == oi[j]);
                } else {
                    assert(nodes@[node_id as int].token_ids@[i as int] == immediate@[j].token_id);
                }
            }
        }
        i = i + 1;
    }
    let ghost s0 = *stacks;
    let ghost jb0 = jobs@;
    let mut k: usize = 0;
    while k < node.children.len()
        invariant
            jobs.len() >= jb0.len(),
            forall|q: int| 0 <= q < jb0.len() ==> #[trigger] jobs@[q] == jb0[q],
            forall|m: int| 0 <= m < node.token_ids.len() ==> #[trigger] has_result(immediate@, im0.len() as int, node.token_ids@[m]),
            forall|k2: int| 0 <= k2 < k ==> covers_or_jobs(nodes@, #[trigger] node.children@[k2].1 as int, immediate@, im0.len() as int, jobs@, jb0.len() as int),
            k <= node.children.len(),
            trie_wf(nodes@),
            subtree_token_counts.len() == nodes.len(),
            node_id < nodes.len(),
            *node == nodes@[node_id as int],
            frontier.wf(),
            ig.wf(),
            stacks.wf(),
            s0.extends(&*stacks),
            frontier_in(&frontier, &s0),
            forall|m: int| 0 <= m < jobs.len() ==> job_means(#[trigger] &jobs@[m], nodes@, labels, ig),
            results_in(immediate@, &*stacks),
            immediate.len() >= im0.len(),
            forall|k2: int| 0 <= k2 < im0.len() ==> #[trigger] immediate@[k2] == im0[k2],
            fresh_from(nodes@, immediate@, im0.len() as int),
            trie_labeled(nodes@, labels),
            w == labels[node_id as int],
            frontier_reaches(ig, &frontier, &s0, w),
            means_from(nodes@, labels, ig, immediate@, im0.len() as int, &*stacks),
        decreases node.children.len() - k,
    {
        let (byte, child) = node.children[k];
        assert(node_id < nodes@[node_id as int].children@[k as int].1 < nodes.len());
        assert(labels[child as int] == w.push(byte));
        proof {
            assert forall|m: int| 0 <= m < frontier.states.len() implies #[trigger] frontier.states@[m].in_stack < stacks.size() && frontier.states@[m].out_stack < stacks.size() by {
                assert(frontier.states@[m].in_stack < s0.size());
            }
        }
        let ghost s1 = *stacks;
        let ghost i1 = immediate@;
        let ghost jb1 = jobs@;
        proof {
            lemma_image_extends(&frontier, &s0, &s1);
        }
        let next = advance_frontier(&frontier, byte, ig, stacks);
        let ghost s2 = *stacks;
        proof {
            lemma_results_in_extends(immediate@, &s1, &s2);
            lemma_means_extends(nodes@, labels, ig, immediate@, im0.len() as int, &s1, &s2);
            lemma_advance_reach(ig, &frontier, &s1, &next, &s2, w, byte);
        }
        if next.len() == 0 {
            proof {
                assert(reach(ig, w.push(byte)) =~= Set::<AbsState>::empty()) by {
                    assert forall|b: AbsState| !reach(ig, w.push(byte)).contains(b) by {
                        assert(!in_image(&next, &s2, b));
                    }
                }
            }
            collect_invalid_subtree(nodes, child, immediate, Ghost(labels), Ghost(*ig), Ghost(*stacks));
        } else {
            let d = if depth < usize::MAX { depth + 1 } else { depth };
            collect_token_trie_jobs(nodes, subtree_token_counts, child, next, stacks, d, ig, immediate, jobs, Ghost(labels));
            proof {
                lemma_results_in_extends(i1, &s2, &*stacks);
                lemma_means_extends(nodes@, labels, ig, i1, im0.len() as int, &s2, &*stacks);
            }
        }
        proof {
            assert forall|i: int| 0 <= i < s0.size() implies #[trigger] stacks.stack(i) == s0.stack(i) by {
                assert(s1.stack(i) == s0.stack(i));
                assert(s2.stack(i) == s1.stack(i));
            }
            assert forall|j: int| 0 <= j < im0.len() implies #[trigger] immediate@[j] == im0[j] by {
                assert(immediate@[j] == i1[j]);
            }
            assert forall|j: int| im0.len() <= j < immediate.len() implies ids_in_trie(nodes@, #[trigger] immediate@[j].token_id) by {
                if j < i1.len() {
                    assert(immediate@[j] == i1[j]);
                }
            }
            lemma_means_prefix(nodes@, labels, ig, i1, immediate@, im0.len() as int, i1.len() as int, &*stacks);
            lemma_has_result_grow(i1, immediate@, im0.len() as int, im0.len() as int);
            lemma_has_result_grow(immediate@, immediate@, i1.len() as int, im0.len() as int);
            lemma_job_below_grow(nodes@, jb1, jobs@, jb0.len() as int, jb0.len() as int);
            lemma_job_below_grow(nodes@, jobs@, jobs@, jb1.len() as int, jb0.len() as int);
            assert forall|q: int| 0 <= q < jb0.len() implies #[trigger] jobs@[q] == jb0[q] by {
                assert(jobs@[q] == jb1[q]);
            }
            assert forall|m: int| 0 <= m < node.token_ids.len() implies #[trigger] has_result(immediate@, im0.len() as int, node.token_ids@[m]) by {
                assert(has_result(i1, im0.len() as int, node.token_ids@[m]));
            }
            assert forall|k2: int| 0 <= k2 < k + 1 implies covers_or_jobs(nodes@, #[trigger] node.children@[k2].1 as int, immediate@, im0.len() as int, jobs@, jb0.len() as int) by {
                let c = node.children@[k2].1 as int;
                assert forall|j: int, m: int| below(nodes@, c, j) && 0 <= j < nodes@.len() && 0 <= m < nodes@[j].token_ids.len() implies #[trigger] has_result(immediate@, im0.len() as int, nodes@[j].token_ids@[m]) || job_below(nodes@, jobs@, jb0.len() as int, j) by {
                    if k2 < k {
                        assert(covers_or_jobs(nodes@, c, i1, im0.len() as int, jb1, jb0.len() as int));
                        if has_result(i1, im0.len() as int, nodes@[j].token_ids@[m]) {
                        } else {
                            assert(job_below(nodes@, jb1, jb0.len() as int, j));
                        }
                    } else if next.states.len() == 0 {
                        assert(has_result(immediate@, i1.len() as int, nodes@[j].token_ids@[m]));
                    } else {
                        if has_result(immediate@, i1.len() as int, nodes@[j].token_ids@[m]) {
                        } else {
                            assert(job_below(nodes@, jobs@, jb1.len() as int, j));
                        }
                    }
                }
            }
        }
        k = k + 1;
    }
    proof {
        assert forall|j: int, m: int| below(nodes@, node_id as int, j) && 0 <= j < nodes@.len() && 0 <= m < nodes@[j].token_ids.len() implies #[trigger] has_result(immediate@, im0.len() as int, nodes@[j].token_ids@[m]) || job_below(nodes@, jobs@, jb0.len() as int, j) by {
            lemma_below_split(nodes@, node_id as int, j);
            if j != node_id {
                let k2 = choose|k2: int| 0 <= k2 < nodes@[node_id as int].children.len() && #[trigger] below(nodes@, nodes@[node_id as int].children@[k2].1 as int, j);
                assert(covers_or_jobs(nodes@, node.children@[k2].1 as int, immediate@, im0.len() as int, jobs@, jb0.len() as int));
            }
        }
    }
}

/// Walks one job: its tokens' results, with the stacks they refer to;
/// each result means what its token's bytes reach.
pub fn run_trie_job(nodes: &Vec<TokenTrieNode>, job: TrieJob, ig: &IntGrammar, Ghost(labels): Ghost<Seq<Seq<u8>>>) -> (r: (StackInterner, Vec<LocalTokenResult>))
    requires
        trie_wf(nodes@),
        trie_labeled(nodes@, labels),
        job_means(&job, nodes@, labels, ig),
        ig.wf(),
    ensures
        r.0.wf(),
        results_in(r.1@, &r.0),
        fresh_from(nodes@, r.1@, 0),
        means_from(nodes@, labels, ig, r.1@, 0, &r.0),
        covers(nodes@, job.node_id as int, r.1@, 0),
{
    let mut stacks = job.stacks;
    let mut out: Vec<LocalTokenResult> = Vec::new();
    collect_token_trie_results(nodes, job.node_id, &job.frontier, &mut stacks, ig, &mut out, Ghost(labels));
    (stacks, out)
}

/// The result of a token, with the stack set its pairs refer to.
pub struct TokenStackResult {
    pub token_id: usize,
    pub stack_set: usize,
    pub stack_pairs: Option<Vec<(usize, usize)>>,
}

/// The stack sets and the per-token results, ordered by token id.
pub struct TokenTraversalResults {
    pub stack_sets: Vec<StackInterner>,
    pub tokens: Vec<TokenStackResult>,
}

impl TokenTraversalResults {
    /// Every stack set is well formed, every result names a stack set and
    /// stacks within it, and results come in increasing token order.
    pub open spec fn wf(&self) -> bool {
        &&& forall|j: int| 0 <= j < self.stack_sets.len() ==> (#[trigger] self.stack_sets@[j]).wf()
        &&& forall|k: int| 0 <= k < self.tokens.len() ==> token_result_in(#[trigger] self.tokens@[k], self.stack_sets@)
        &&& sorted_by_key(self.tokens@)
    }
}

pub open spec fn token_result_in(r: TokenStackResult, sets: Seq<StackInterner>) -> bool {
    &&& r.stack_set < sets.len()
    &&& pairs_in(r.stack_pairs, &sets[r.stack_set as int])
}

/// A local result tagged with the stack set it refers to.
pub open spec fn tagged(r: LocalTokenResult, set: usize) -> TokenStackResult {
    TokenStackResult { token_id: r.token_id, stack_set: set, stack_pairs: r.stack_pairs }
}

pub open spec fn tag_all(rs: Seq<LocalTokenResult>, set: usize) -> Seq<TokenStackResult> {
    rs.map_values(|r: LocalTokenResult| tagged(r, set))
}

/// The results of the first `upto` jobs, the results of job `j` tagged
/// with stack set `j + 1`.
pub open spec fn tag_jobs(jobs: Seq<(StackInterner, Vec<LocalTokenResult>)>, upto: int) -> Seq<TokenStackResult>
    decreases upto,
{
    if upto <= 0 {
        Seq::empty()
    } else {
        tag_jobs(jobs, upto - 1) + tag_all(jobs[upto - 1].1@, upto as usize)
    }
}

/// The walk of a token trie split for separate work: the trie, the
/// stacks of the shallow part, the tokens answered there, and the jobs
/// for the deeper subtrees.
pub struct TriePlan {
    pub trie: Vec<TokenTrieNode>,
    pub root_stacks: StackInterner,
    pub immediate: Vec<LocalTokenResult>,
    pub jobs: Vec<TrieJob>,
    /// The bytes that lead to each node of the trie.
    pub labels: Ghost<Seq<Seq<u8>>>,
}

impl TriePlan {
    pub open spec fn wf(&self) -> bool {
        &&& trie_wf(self.trie@)
        &&& self.root_stacks.wf()
        &&& results_in(self.immediate@, &self.root_stacks)
        &&& forall|k: int| 0 <= k < self.jobs.len() ==> job_wf(#[trigger] &self.jobs@[k], self.trie.len() as nat)
        &&& fresh_from(self.trie@, self.immediate@, 0)
        &&& trie_labeled(self.trie@, self.labels@)
    }

    /// The trie's nodes spell the tasks' bytes, the answered tokens mean
    /// what their bytes reach, and every job's frontier holds the states
    /// its node's bytes reach.
    pub open spec fn means(&self, ig: &IntGrammar, tasks: Seq<(Vec<u8>, usize)>) -> bool {
        &&& ids_spell(self.trie@, self.labels@, tasks)
        &&& means_from(self.trie@, self.labels@, ig, self.immediate@, 0, &self.root_stacks)
        &&& forall|k: int| 0 <= k < self.jobs.len() ==> job_means(#[trigger] &self.jobs@[k], self.trie@, self.labels@, ig)
        &&& forall|t: int| 0 <= t < tasks.len() ==> #[trigger] task_placed(self.trie@, self.labels@, tasks, t)
        &&& covers_or_jobs(self.trie@, 0, self.immediate@, 0, self.jobs@, 0)
    }
}

/// Builds the trie of `tasks` and walks its shallow part from the two
/// starting states: tokens of the root are invalid (they are empty),
/// each byte below the root advances the frontier, a byte that leaves no
/// state makes its whole subtree invalid, and the rest is split into jobs.
pub fn plan_token_trie(tasks: &Vec<(Vec<u8>, usize)>, ig: &IntGrammar) -> (p: TriePlan)
    requires
        ig.wf(),
    ensures
        p.wf(),
        trie_ids_from(p.trie@, tasks@),
        p.means(ig, tasks@),
{
    let trie = build_token_trie(tasks);
    let ghost labels = choose|l: Seq<Seq<u8>>| trie_labeled(trie@, l) && ids_spell(trie@, l, tasks@) && forall|t: int| 0 <= t < tasks.len() ==> #[trigger] task_placed(trie@, l, tasks@, t);
    let counts = compute_subtree_token_counts(&trie);
    let (mut root_stacks, root_frontier) = initial_frontier(ig.start);
    let mut immediate: Vec<LocalTokenResult> = Vec::new();
    let mut jobs: Vec<TrieJob> = Vec::new();
    let root = &trie[0];
    proof {
        assert(labels[0] == Seq::<u8>::empty());
        assert(frontier_reaches(ig, &root_frontier, &root_stacks, labels[0]));
    }
    let mut i: usize = 0;
    while i < root.token_ids.len()
        invariant
            i <= root.token_ids.len(),
            trie_wf(trie@),
            *root == trie@[0],
            results_in(immediate@, &root_stacks),
            fresh_from(trie@, immediate@, 0),
            trie_labeled(trie@, labels),
            labels[0] == Seq::<u8>::empty(),
            means_from(trie@, labels, ig, immediate@, 0, &root_stacks),
            forall|m: int| 0 <= m < i ==> #[trigger] has_result(immediate@, 0, root.token_ids@[m]),
        decreases root.token_ids.len() - i,
    {
        let ghost oi = immediate@;
        immediate.push(LocalTokenResult { token_id: root.token_ids[i], stack_pairs: None });
        proof {
            lemma_has_result_grow(oi, immediate@, 0, 0);
            assert forall|m: int| 0 <= m < i + 1 implies #[trigger] has_result(immediate@, 0, root.token_ids@[m]) by {
                if m == i {
                    assert(immediate@[oi.len() as int].token_id == root.token_ids@[m]);
                } else {
                    assert(has_result(oi, 0, root.token_ids@[m]));
                }
            }
            assert forall|j: int| 0 <= j < immediate.len() implies result_in(#[trigger] immediate@[j], &root_stacks) by {
                if j < oi.len() {
                    assert(immediate@[j] == oi[j]);
                }
            }
            assert(trie@[0].token_ids@[i as int] == root.token_ids@[i as int]);
            assert forall|j: int| 0 <= j < immediate.len() implies ids_in_trie(trie@, #[trigger] immediate@[j].token_id) by {
                if j < oi.len() {
                    assert(immediate@[j] == oi[j]);
                } else {
                    assert(immediate@[j].token_id == trie@[0].token_ids@[i as int]);
                }
            }
            assert forall|j: int| 0 <= j && 0 <= j < immediate.len() implies result_means(trie@, labels, ig, #[trigger] immediate@[j], &root_stacks) by {
                if j < oi.len() {
                    assert(immediate@[j] == oi[j]);
                } else {
                    assert(trie@[0].token_ids@[i as int] == immediate@[j].token_id);
                }
            }
        }
        i = i + 1;
    }
    let ghost s0 = root_stacks;
    let mut k: usize = 0;
    while k < root.children.len()
        invariant
            k <= root.children.len(),
            trie_wf(trie@),
            *root == trie@[0],
            counts.len() == trie.len(),
            root_frontier.wf(),
            ig.wf(),
            root_stacks.wf(),
            s0.extends(&root_stacks),
            frontier_in(&root_frontier, &s0),
            forall|m: int| 0 <= m < jobs.len() ==> job_means(#[trigger] &jobs@[m], trie@, labels, ig),
            results_in(immediate@, &root_stacks),
            fresh_from(trie@, immediate@, 0),
            trie_labeled(trie@, labels),
            frontier_reaches(ig, &root_frontier, &s0, labels[0]),
            means_from(trie@, labels, ig, immediate@, 0, &root_stacks),
            forall|m: int| 0 <= m < root.token_ids.len() ==> #[trigger] has_result(immediate@, 0, root.token_ids@[m]),
            forall|k2: int| 0 <= k2 < k ==> covers_or_jobs(trie@, #[trigger] root.children@[k2].1 as int, immediate@, 0, jobs@, 0),
        decreases root.children.len() - k,
    {
        let ghost i1 = immediate@;
        let ghost jb1 = jobs@;
        let (byte, child) = root.children[k];
        assert(0 < trie@[0].children@[k as int].1 < trie.len());
        assert(labels[child as int] == labels[0].push(byte));
        proof {
            assert forall|m: int| 0 <= m < root_frontier.states.len() implies #[trigger] root_frontier.states@[m].in_stack < root_stacks.size() && root_frontier.states@[m].out_stack < root_stacks.size() by {
                assert(root_frontier.states@[m].in_stack < s0.size());
            }
        }
        let ghost s1 = root_stacks;
        proof {
            lemma_image_extends(&root_frontier, &s0, &s1);
        }
        let frontier = advance_frontier(&root_frontier, byte, ig, &mut root_stacks);
        let ghost s2 = root_stacks;
        proof {
            lemma_results_in_extends(immediate@, &s1, &s2);
            lemma_means_extends(trie@, labels, ig, immediate@, 0, &s1, &s2);
            lemma_advance_reach(ig, &root_frontier, &s1, &frontier, &s2, labels[0], byte);
        }
        if frontier.len() == 0 {
            proof {
                let w = labels[0].push(byte);
                assert(reach(ig, w) =~= Set::<AbsState>::empty()) by {
                    assert forall|b: AbsState| !reach(ig, w).contains(b) by {
                        assert(!in_image(&frontier, &s2, b));
                    }
                }
            }
            collect_invalid_subtree(&trie, child, &mut immediate, Ghost(labels), Ghost(*ig), Ghost(root_stacks));
        } else {
            collect_token_trie_jobs(&trie, &counts, child, frontier, &mut root_stacks, 1, ig, &mut immediate, &mut jobs, Ghost(labels));
            proof {
                lemma_results_in_extends(i1, &s2, &root_stacks);
                lemma_means_extends(trie@, labels, ig, i1, 0, &s2, &root_stacks);
            }
        }
        proof {
            assert forall|i: int| 0 <= i < s0.size() implies #[trigger] root_stacks.stack(i) == s0.stack(i) by {
                assert(s1.stack(i) == s0.stack(i));
                assert(s2.stack(i) == s1.stack(i));
            }
            assert forall|j: int| 0 <= j < immediate.len() implies ids_in_trie(trie@, #[trigger] immediate@[j].token_id) by {
                if j < i1.len() {
                    assert(immediate@[j] == i1[j]);
                }
            }
            lemma_means_prefix(trie@, labels, ig, i1, immediate@, 0, i1.len() as int, &root_stacks);
            lemma_has_result_grow(i1, immediate@, 0, 0);
            lemma_has_result_grow(immediate@, immediate@, i1.len() as int, 0);
            lemma_job_below_grow(trie@, jb1, jobs@, 0, 0);
            lemma_job_below_grow(trie@, jobs@, jobs@, jb1.len() as int, 0);
            assert forall|m: int| 0 <= m < root.token_ids.len() implies #[trigger] has_result(immediate@, 0, root.token_ids@[m]) by {
                assert(has_result(i1, 0, root.token_ids@[m]));
            }
            assert forall|k2: int| 0 <= k2 < k + 1 implies covers_or_jobs(trie@, #[trigger] root.children@[k2].1 as int, immediate@, 0, jobs@, 0) by {
                let c = root.children@[k2].1 as int;
                assert forall|j: int, m: int| below(trie@, c, j) && 0 <= j < trie@.len() && 0 <= m < trie@[j].token_ids.len() implies #[trigger] has_result(immediate@, 0, trie@[j].token_ids@[m]) || job_below(trie@, jobs@, 0, j) by {
                    if k2 < k {
                        assert(covers_or_jobs(trie@, c, i1, 0, jb1, 0));
                        if has_result(i1, 0, trie@[j].token_ids@[m]) {
                        } else {
                            assert(job_below(trie@, jb1, 0, j));
                        }
                    } else if frontier.states.len() == 0 {
                        assert(has_result(immediate@, i1.len() as int, trie@[j].token_ids@[m]));
                    } else {
                        if has_result(immediate@, i1.len() as int, trie@[j].token_ids@[m]) {
                        } else {
                            assert(job_below(trie@, jobs@, jb1.len() as int, j));
                        }
                    }
                }
            }
        }
        k = k + 1;
    }
    proof {
        assert forall|j: int, m: int| below(trie@, 0, j) && 0 <= j < trie@.len() && 0 <= m < trie@[j].token_ids.len() implies #[trigger] has_result(immediate@, 0, trie@[j].token_ids@[m]) || job_below(trie@, jobs@, 0, j) by {
            lemma_below_split(trie@, 0, j);
            if j != 0 {
                let k2 = choose|k2: int| 0 <= k2 < trie@[0].children.len() && #[trigger] below(trie@, trie@[0].children@[k2].1 as int, j);
                assert(covers_or_jobs(trie@, root.children@[k2].1 as int, immediate@, 0, jobs@, 0));
            }
        }
    }
    TriePlan { trie, root_stacks, immediate, jobs, labels: Ghost(labels) }
}

/// Puts the results together: stack set `0` is the root's stacks, set
/// `j + 1` those of the `j`-th job; every result is tagged with its set
/// and the whole is ordered by token id.
pub fn assemble_traversal(root_stacks: StackInterner, immediate: Vec<LocalTokenResult>, job_results: Vec<(StackInterner, Vec<LocalTokenResult>)>) -> (r: TokenTraversalResults)
    requires
        root_stacks.wf(),
        results_in(immediate@, &root_stacks),
        forall|j: int| 0 <= j < job_results.len() ==> (#[trigger] job_results@[j]).0.wf() && results_in(job_results@[j].1@, &job_results@[j].0),
    ensures
        r.wf(),
        r.stack_sets@ == seq![root_stacks] + job_results@.map_values(|p: (StackInterner, Vec<LocalTokenResult>)| p.0),
        r.tokens@.to_multiset() =~= (tag_all(immediate@, 0) + tag_jobs(job_results@, job_results.len() as int)).to_multiset(),
        forall|a: int, b: int| 0 <= a < b < r.tokens.len() ==> (#[trigger] r.tokens@[a]).token_id <= (#[trigger] r.tokens@[b]).token_id,
{
    broadcast use vstd::seq_lib::group_to_multiset_ensures, vstd::multiset::group_multiset_axioms;
    let ghost jr = job_results@;
    let ghost im = immediate@;
    let ghost root = root_stacks;
    let ghost want = tag_all(im, 0) + tag_jobs(jr, jr.len() as int);
    let mut stack_sets: Vec<StackInterner> = Vec::new();
    stack_sets.push(root_stacks);
    let mut results: Vec<TokenStackResult> = Vec::new();
    let mut immediate = immediate;
    assert(results@.to_multiset().len() == 0);
    assert(results@.to_multiset() =~= Multiset::empty());
    assert(immediate@ =~= im.take(immediate.len() as int));
    while immediate.len() > 0
        invariant
            stack_sets@ == seq![root],
            root.wf(),
            results_in(im, &root),
            immediate@ == im.take(immediate.len() as int),
            immediate.len() <= im.len(),
            results@.to_multiset().add(tag_all(immediate@, 0).to_multiset()) =~= tag_all(im, 0).to_multiset(),
            forall|k: int| 0 <= k < results.len() ==> token_result_in(#[trigger] results@[k], stack_sets@),
        decreases immediate.len(),
    {
        let ghost i0 = immediate@;
        let ghost n0 = immediate.len() as int;
        let x = immediate.pop().unwrap();
        assert(x == im[n0 - 1]);
        let t = TokenStackResult { token_id: x.token_id, stack_set: 0, stack_pairs: x.stack_pairs };
        assert(t == tagged(im[n0 - 1], 0));
        assert(result_in(im[n0 - 1], &root));
        let ghost r0 = results@;
        results.push(t);
        proof {
            vstd::seq_lib::to_multiset_build(r0, t);
            assert(tag_all(i0, 0) =~= tag_all(immediate@, 0).push(t));
            vstd::seq_lib::to_multiset_build(tag_all(immediate@, 0), t);
            assert forall|k: int| 0 <= k < results.len() implies token_result_in(#[trigger] results@[k], stack_sets@) by {
                if k < r0.len() {
                    assert(results@[k] == r0[k]);
                }
            }
        }
        assert(immediate@ =~= im.take(immediate.len() as int));
    }
    assert(tag_all(immediate@, 0).to_multiset().len() == 0);
    assert(tag_all(immediate@, 0).to_multiset() =~= Multiset::empty());
    let mut jobs = job_results;
    let mut rev: Vec<(StackInterner, Vec<LocalTokenResult>)> = Vec::new();
    while jobs.len() > 0
        invariant
            jobs@ == jr.take(jobs.len() as int),
            jobs.len() <= jr.len(),
            rev.len() + jobs.len() == jr.len(),
            forall|m: int| 0 <= m < rev.len() ==> #[trigger] rev@[m] == jr[jr.len() - 1 - m],
        decreases jobs.len(),
    {
        let ghost n0 = jobs.len() as int;
        let p = jobs.pop().unwrap();
        assert(p == jr[n0 - 1]);
        rev.push(p);
        assert(jobs@ =~= jr.take(jobs.len() as int));
    }
    let mut j: usize = 0;
    while rev.len() > 0
        invariant
            j + rev.len() == jr.len(),
            jr.len() <= usize::MAX,
            forall|m: int| 0 <= m < rev.len() ==> #[trigger] rev@[m] == jr[jr.len() - 1 - m],
            forall|m: int| 0 <= m < jr.len() ==> (#[trigger] jr[m]).0.wf() && results_in(jr[m].1@, &jr[m].0),
            stack_sets@ == seq![root] + jr.take(j as int).map_values(|p: (StackInterner, Vec<LocalTokenResult>)| p.0),
            results@.to_multiset() =~= (tag_all(im, 0) + tag_jobs(jr, j as int)).to_multiset(),
            forall|k: int| 0 <= k < results.len() ==> token_result_in(#[trigger] results@[k], stack_sets@),
            forall|k: int| 0 <= k < stack_sets.len() ==> (#[trigger] stack_sets@[k]).wf(),
        decreases rev.len(),
    {
        let ghost rv0 = rev@;
        let (stacks, local) = rev.pop().unwrap();
        assert((stacks, local) == jr[j as int]);
        let set = j + 1;
        let ghost ss0 = stack_sets@;
        stack_sets.push(stacks);
        assert(stack_sets@[set as int] == jr[j as int].0);
        proof {
            assert(jr.take(set as int) =~= jr.take(j as int).push(jr[j as int]));
            assert(stack_sets@ =~= seq![root] + jr.take(set as int).map_values(|p: (StackInterner, Vec<LocalTokenResult>)| p.0));
            assert forall|k: int| 0 <= k < results.len() implies token_result_in(#[trigger] results@[k], stack_sets@) by {
                assert(token_result_in(results@[k], ss0));
                assert(stack_sets@[results@[k].stack_set as int] == ss0[results@[k].stack_set as int]);
            }
        }
        let ghost lj = local@;
        let ghost base = results@.to_multiset();
        let mut local = local;
        let mut moved: Vec<TokenStackResult> = Vec::new();
        proof {
            vstd::seq_lib::to_multiset_len(moved@);
            vstd::multiset::lemma_multiset_empty_len(moved@.to_multiset());
        }
        assert(local@ =~= lj.take(local.len() as int));
        while local.len() > 0
            invariant
                local@ == lj.take(local.len() as int),
                local.len() <= lj.len(),
                results_in(lj, &stack_sets@[set as int]),
                set < stack_sets.len(),
                moved@.to_multiset().add(tag_all(local@, set).to_multiset()) =~= tag_all(lj, set).to_multiset(),
                forall|k: int| 0 <= k < moved.len() ==> token_result_in(#[trigger] moved@[k], stack_sets@),
            decreases local.len(),
        {
            let ghost l0 = local@;
            let ghost n0 = local.len() as int;
            let x = local.pop().unwrap();
            assert(x == lj[n0 - 1]);
            let t = TokenStackResult { token_id: x.token_id, stack_set: set, stack_pairs: x.stack_pairs };
            assert(t == tagged(lj[n0 - 1], set));
            assert(result_in(lj[n0 - 1], &stack_sets@[set as int]));
            let ghost m0 = moved@;
            moved.push(t);
            proof {
                vstd::seq_lib::to_multiset_build(m0, t);
                assert(tag_all(l0, set) =~= tag_all(local@, set).push(t));
                vstd::seq_lib::to_multiset_build(tag_all(local@, set), t);
                assert forall|k: int| 0 <= k < moved.len() implies token_result_in(#[trigger] moved@[k], stack_sets@) by {
                    if k < m0.len() {
                        assert(moved@[k] == m0[k]);
                    }
                }
            }
            assert(local@ =~= lj.take(local.len() as int));
        }
        proof {
            vstd::seq_lib::to_multiset_len(tag_all(local@, set));
            vstd::multiset::lemma_multiset_empty_len(tag_all(local@, set).to_multiset());
        }
        let ghost r0 = results@;
        let ghost mv = moved@;
        results.append(&mut moved);
        proof {
            assert(results@ =~= r0 + mv);
            vstd::seq_lib::lemma_multiset_commutative(r0, mv);
            let a = tag_all(im, 0);
            assert(tag_jobs(jr, set as int) == tag_jobs(jr, j as int) + tag_all(jr[j as int].1@, set));
            assert(a + tag_jobs(jr, set as int) =~= (a + tag_jobs(jr, j as int)) + tag_all(lj, set));
            vstd::seq_lib::lemma_multiset_commutative(a + tag_jobs(jr, j as int), tag_all(lj, set));
            assert forall|k: int| 0 <= k < results.len() implies token_result_in(#[trigger] results@[k], stack_sets@) by {
                if k < r0.len() {
                    assert(results@[k] == r0[k]);
                } else {
                    assert(results@[k] == mv[k - r0.len()]);
                }
            }
        }
        j = j + 1;
    }
    assert(jr.take(jr.len() as int) =~= jr);
    let ghost unsorted = results@;
    let tokens = sort_by_key(results);
    proof {
        assert forall|a: int, b: int| 0 <= a < b < tokens.len() implies (#[trigger] tokens@[a]).token_id <= (#[trigger] tokens@[b]).token_id by {
            assert(tokens@[a].key_of() <= tokens@[b].key_of());
        }
        assert forall|k: int| 0 <= k < tokens.len() implies token_result_in(#[trigger] tokens@[k], stack_sets@) by {
            assert(tokens@.contains(tokens@[k]));
            assert(tokens@.to_multiset().count(tokens@[k]) > 0);
            assert(unsorted.to_multiset().count(tokens@[k]) > 0);
            assert(unsorted.contains(tokens@[k]));
            let m = choose|m: int| 0 <= m < unsorted.len() && unsorted[m] == tokens@[k];
            assert(token_result_in(unsorted[m], stack_sets@));
        }
    }
    TokenTraversalResults { stack_sets, tokens }
}

/// Result `k` is for a task whose bytes give the pairs it holds: over the
/// stack set it names, they mean what those bytes reach.
/// Some result is for token `id`.
pub open spec fn answers(r: &TokenTraversalResults, id: usize) -> bool {
    exists|k: int| 0 <= k < r.tokens.len() && #[trigger] r.tokens@[k].token_id == id
}

pub open spec fn token_means(tasks: Seq<(Vec<u8>, usize)>, ig: &IntGrammar, r: &TokenTraversalResults, k: int) -> bool {
    let x = r.tokens@[k];
    exists|t: int| 0 <= t < tasks.len() && #[trigger] tasks[t].1 == x.token_id && pairs_mean(ig, tasks[t].0@, x.stack_pairs, &r.stack_sets@[x.stack_set as int])
}

/// The traversal of all tasks: every token with the stack pairs its
/// bytes can leave, or `None` when no context accepts it. Each result is
/// for one of the tasks, and its pairs are, by contents, the (context,
/// rest) stacks of the states that task's bytes reach from the starting
/// states (an empty token has none).
pub fn compute_stack_in_out_for_trie(tasks: &Vec<(Vec<u8>, usize)>, ig: &IntGrammar) -> (r: TokenTraversalResults)
    requires
        ig.wf(),
    ensures
        r.wf(),
        forall|k: int| 0 <= k < r.tokens.len() ==> task_id(tasks@, #[trigger] r.tokens@[k].token_id),
        forall|k: int| 0 <= k < r.tokens.len() ==> #[trigger] token_means(tasks@, ig, &r, k),
        forall|t: int| 0 <= t < tasks.len() ==> #[trigger] answers(&r, tasks@[t].1),
        forall|a: int, b: int| 0 <= a < b < r.tokens.len() ==> (#[trigger] r.tokens@[a]).token_id <= (#[trigger] r.tokens@[b]).token_id,
{
    let plan = plan_token_trie(tasks, ig);
    let ghost labels = plan.labels@;
    let TriePlan { trie, root_stacks, immediate, jobs, labels: _ } = plan;
    let ghost j_init = jobs@;
    let mut jobs = jobs;
    let mut job_results: Vec<(StackInterner, Vec<LocalTokenResult>)> = Vec::new();
    while jobs.len() > 0
        invariant
            jobs.len() + job_results.len() == j_init.len(),
            forall|k: int| 0 <= k < jobs.len() ==> #[trigger] jobs@[k] == j_init[k],
            forall|p: int| 0 <= p < job_results.len() ==> covers(trie@, j_init[j_init.len() - 1 - p].node_id as int, (#[trigger] job_results@[p]).1@, 0),
            trie_wf(trie@),
            trie_labeled(trie@, labels),
            ig.wf(),
            forall|k: int| 0 <= k < jobs.len() ==> job_means(#[trigger] &jobs@[k], trie@, labels, ig),
            forall|j: int| 0 <= j < job_results.len() ==> (#[trigger] job_results@[j]).0.wf() && results_in(job_results@[j].1@, &job_results@[j].0),
            forall|j: int| 0 <= j < job_results.len() ==> fresh_from(trie@, (#[trigger] job_results@[j]).1@, 0),
            forall|j: int| 0 <= j < job_results.len() ==> means_from(trie@, labels, ig, (#[trigger] job_results@[j]).1@, 0, &job_results@[j].0),
        decreases jobs.len(),
    {
        let ghost j0 = jobs@;
        let job = jobs.pop().unwrap();
        assert(job == j0[j0.len() - 1]);
        let ghost jr0 = job_results@;
        let done = run_trie_job(&trie, job, ig, Ghost(labels));
        job_results.push(done);
        proof {
            assert forall|k: int| 0 <= k < jobs.len() implies #[trigger] jobs@[k] == j_init[k] by {
                assert(jobs@[k] == j0[k]);
            }
            assert forall|p: int| 0 <= p < job_results.len() implies covers(trie@, j_init[j_init.len() - 1 - p].node_id as int, (#[trigger] job_results@[p]).1@, 0) by {
                if p < jr0.len() {
                    assert(job_results@[p] == jr0[p]);
                }
            }
            assert forall|k: int| 0 <= k < jobs.len() implies job_means(#[trigger] &jobs@[k], trie@, labels, ig) by {
                assert(jobs@[k] == j0[k]);
            }
            assert forall|j: int| 0 <= j < job_results.len() implies (#[trigger] job_results@[j]).0.wf() && results_in(job_results@[j].1@, &job_results@[j].0) by {
                if j < jr0.len() {
                    assert(job_results@[j] == jr0[j]);
                }
            }
            assert forall|j: int| 0 <= j < job_results.len() implies fresh_from(trie@, (#[trigger] job_results@[j]).1@, 0) by {
                if j < jr0.len() {
                    assert(job_results@[j] == jr0[j]);
                }
            }
            assert forall|j: int| 0 <= j < job_results.len() implies means_from(trie@, labels, ig, (#[trigger] job_results@[j]).1@, 0, &job_results@[j].0) by {
                if j < jr0.len() {
                    assert(job_results@[j] == jr0[j]);
                }
            }
        }
    }
    let ghost im = immediate@;
    let ghost jr = job_results@;
    let ghost root = root_stacks;
    let r = assemble_traversal(root_stacks, immediate, job_results);
    proof {
        broadcast use vstd::seq_lib::group_to_multiset_ensures;
        let all = tag_all(im, 0) + tag_jobs(jr, jr.len() as int);
        assert forall|k: int| #![trigger r.tokens@[k]] 0 <= k < r.tokens.len() implies task_id(tasks@, r.tokens@[k].token_id) && token_means(tasks@, ig, &r, k) by {
            let x = r.tokens@[k];
            assert(r.tokens@.contains(x));
            assert(r.tokens@.to_multiset().count(x) > 0);
            assert(all.contains(x));
            let p = choose|p: int| 0 <= p < all.len() && all[p] == x;
            let (lr, set, st) = if p < im.len() {
                (im[p], 0usize, root)
            } else {
                lemma_tag_jobs_elem(jr, jr.len() as int, p - im.len());
                let (j, m) = choose|j: int, m: int| 0 <= j < jr.len() && 0 <= m < jr[j].1.len() && tag_jobs(jr, jr.len() as int)[p - im.len()] == #[trigger] tagged(jr[j].1@[m], (j + 1) as usize);
                assert(means_from(trie@, labels, ig, jr[j].1@, 0, &jr[j].0));
                (jr[j].1@[m], (j + 1) as usize, jr[j].0)
            };
            if p < im.len() {
                assert(all[p] == tagged(im[p], 0));
                assert(result_means(trie@, labels, ig, im[p], &root));
            } else {
                let j = set - 1;
                assert(r.stack_sets@[set as int] == jr[j as int].0);
                let m = choose|m: int| 0 <= m < jr[j as int].1.len() && jr[j as int].1@[m] == lr;
                assert(result_means(trie@, labels, ig, jr[j as int].1@[m], &jr[j as int].0));
            }
            assert(x == tagged(lr, set));
            assert(r.stack_sets@[set as int] == st);
            assert(result_means(trie@, labels, ig, lr, &st));
            let (i, j) = choose|i: int, j: int| 0 <= i < trie@.len() && 0 <= j < trie@[i].token_ids.len() && #[trigger] trie@[i].token_ids@[j] == lr.token_id && pairs_mean(ig, labels[i], lr.stack_pairs, &st);
            assert(spelled(tasks@, trie@[i].token_ids@[j], labels[i]));
            let t = choose|t: int| 0 <= t < tasks@.len() && #[trigger] tasks@[t].1 == trie@[i].token_ids@[j] && tasks@[t].0@ == labels[i];
            assert(tasks@[t].1 == x.token_id);
        }
        assert forall|t: int| 0 <= t < tasks.len() implies #[trigger] answers(&r, tasks@[t].1) by {
            let id = tasks@[t].1;
            assert(task_placed(trie@, labels, tasks@, t));
            let (i, jj) = choose|i: int, j: int| 0 <= i < trie@.len() && 0 <= j < trie@[i].token_ids.len() && below(trie@, 0, i) && #[trigger] trie@[i].token_ids@[j] == tasks@[t].1 && labels[i] == tasks@[t].0@;
            assert(has_result(im, 0, trie@[i].token_ids@[jj]) || job_below(trie@, j_init, 0, i));
            let x = if has_result(im, 0, id) {
                let m = choose|m: int| 0 <= m && 0 <= m < im.len() && #[trigger] im[m].token_id == id;
                assert(all[m] == tagged(im[m], 0));
                tagged(im[m], 0)
            } else {
                let q = choose|q: int| 0 <= q && 0 <= q < j_init.len() && #[trigger] below(trie@, j_init[q].node_id as int, i);
                let p = j_init.len() - 1 - q;
                assert(covers(trie@, j_init[j_init.len() - 1 - p].node_id as int, jr[p].1@, 0));
                assert(has_result(jr[p].1@, 0, trie@[i].token_ids@[jj]));
                let m = choose|m: int| 0 <= m && 0 <= m < jr[p].1@.len() && #[trigger] jr[p].1@[m].token_id == id;
                lemma_tag_jobs_has(jr, jr.len() as int, p, m);
                let w = choose|w: int| 0 <= w < tag_jobs(jr, jr.len() as int).len() && #[trigger] tag_jobs(jr, jr.len() as int)[w] == tagged(jr[p].1@[m], (p + 1) as usize);
                assert(all[im.len() + w] == tagged(jr[p].1@[m], (p + 1) as usize));
                tagged(jr[p].1@[m], (p + 1) as usize)
            };
            assert(all.contains(x));
            assert(all.to_multiset().count(x) > 0);
            assert(r.tokens@.to_multiset().count(x) > 0);
            assert(r.tokens@.contains(x));
            let k = choose|k: int| 0 <= k < r.tokens@.len() && r.tokens@[k] == x;
            assert(r.tokens@[k].token_id == id);
        }
    }
    r
}

proof fn lemma_tag_jobs_has(jobs: Seq<(StackInterner, Vec<LocalTokenResult>)>, upto: int, j: int, m: int)
    requires
        0 <= j < upto <= jobs.len(),
        0 <= m < jobs[j].1.len(),
    ensures
        exists|w: int| 0 <= w < tag_jobs(jobs, upto).len() && #[trigger] tag_jobs(jobs, upto)[w] == tagged(jobs[j].1@[m], (j + 1) as usize),
    decreases upto,
{
    let prev = tag_jobs(jobs, upto - 1);
    let last = tag_all(jobs[upto - 1].1@, upto as usize);
    assert(tag_jobs(jobs, upto) == prev + last);
    if j < upto - 1 {
        lemma_tag_jobs_has(jobs, upto - 1, j, m);
        let w = choose|w: int| 0 <= w < prev.len() && #[trigger] prev[w] == tagged(jobs[j].1@[m], (j + 1) as usize);
        assert(tag_jobs(jobs, upto)[w] == prev[w]);
    } else {
        assert(last[m] == tagged(jobs[j].1@[m], upto as usize));
        assert(tag_jobs(jobs, upto)[prev.len() + m] == last[m]);
    }
}

proof fn lemma_tag_jobs_elem(jobs: Seq<(StackInterner, Vec<LocalTokenResult>)>, upto: int, p: int)
    requires
        0 <= upto <= jobs.len(),
        0 <= p < tag_jobs(jobs, upto).len(),
    ensures
        exists|j: int, m: int| 0 <= j < upto && 0 <= m < jobs[j].1.len() && tag_jobs(jobs, upto)[p] == #[trigger] tagged(jobs[j].1@[m], (j + 1) as usize),
    decreases upto,
{
    if upto > 0 {
        let prev = tag_jobs(jobs, upto - 1);
        let last = tag_all(jobs[upto - 1].1@, upto as usize);
        assert(tag_jobs(jobs, upto) == prev + last);
        if p < prev.len() {
            lemma_tag_jobs_elem(jobs, upto - 1, p);
            let (j, m) = choose|j: int, m: int| 0 <= j < upto - 1 && 0 <= m < jobs[j].1.len() && prev[p] == #[trigger] tagged(jobs[j].1@[m], (j + 1) as usize);
            assert(tag_jobs(jobs, upto)[p] == tagged(jobs[j].1@[m], (j + 1) as usize));
        } else {
            let m = p - prev.len();
            assert(last[m] == tagged(jobs[upto - 1].1@[m], upto as usize));
            assert(tag_jobs(jobs, upto)[p] == tagged(jobs[upto - 1].1@[m], ((upto - 1) + 1) as usize));
        }
    }
}

impl SortKey for TokenStackResult {
    open spec fn key_of(&self) -> usize {
        self.token_id
    }

    fn sort_key(&self) -> (r: usize) {
        self.token_id
    }
}

} // verus!
