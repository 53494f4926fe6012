//! Grouping the traversal results into classes: two valid tokens share a
//! class exactly when their traversals leave the same set of (context
//! stack, rest stack) pairs, compared by the stacks' contents.
use vstd::prelude::*;
use crate::table::{SeqTable, clone_usizes};
use crate::traverse::{TokenTraversalResults, StackInterner, IntGrammar, pair_lt, content_pair, contents_of, token_means, pairs_mean, reach, reach_pairs, AbsState};
use crate::sorting::{SortKey, sort_by_key};

verus! {

broadcast use vstd::std_specs::hash::group_hash_axioms;

/// The stack contents of the pairs left by token result `q`.
pub open spec fn pair_contents(res: &TokenTraversalResults, q: int) -> Set<(Seq<usize>, Seq<usize>)> {
    let r = res.tokens@[q];
    let st = res.stack_sets@[r.stack_set as int];
    match r.stack_pairs {
        Some(v) => Set::new(|x: (Seq<usize>, Seq<usize>)| exists|k: int| 0 <= k < v@.len() && x == content_pair(&st, v@[k])),
        None => Set::empty(),
    }
}

/// Token result `q` leaves some stack pairs.
pub open spec fn valid_at(res: &TokenTraversalResults, q: int) -> bool {
    res.tokens@[q].stack_pairs is Some
}

/// Code `d` numbers a pair of numbered stacks.
pub open spec fn code_ok(gt: &SeqTable, pt: &SeqTable, d: usize) -> bool {
    &&& d < pt.seqs.len()
    &&& pt.at(d as int).len() == 2
    &&& pt.at(d as int)[0] < gt.seqs.len()
    &&& pt.at(d as int)[1] < gt.seqs.len()
}

/// The pair of stack contents that code `d` stands for.
pub open spec fn decode(gt: &SeqTable, pt: &SeqTable, d: usize) -> (Seq<usize>, Seq<usize>) {
    (gt.at(pt.at(d as int)[0] as int), gt.at(pt.at(d as int)[1] as int))
}

/// `gt` numbers stacks and `pt` numbers pairs of those numbers.
pub open spec fn tables_ok(gt: &SeqTable, pt: &SeqTable) -> bool {
    &&& gt.wf()
    &&& pt.wf()
    &&& forall|d: usize| d < pt.seqs.len() ==> #[trigger] code_ok(gt, pt, d)
}

/// `(gt2, pt2)` keeps every number of `(gt, pt)`.
pub open spec fn tables_extend(gt: &SeqTable, pt: &SeqTable, gt2: &SeqTable, pt2: &SeqTable) -> bool {
    &&& gt.seqs.len() <= gt2.seqs.len()
    &&& pt.seqs.len() <= pt2.seqs.len()
    &&& forall|i: int| 0 <= i < gt.seqs.len() ==> #[trigger] gt2.at(i) == gt.at(i)
    &&& forall|i: int| 0 <= i < pt.seqs.len() ==> #[trigger] pt2.at(i) == pt.at(i)
}

/// `disp` lists, in increasing order, one code for each pair of `sig`.
pub open spec fn disp_ok(gt: &SeqTable, pt: &SeqTable, disp: Seq<usize>, sig: Set<(Seq<usize>, Seq<usize>)>) -> bool {
    &&& forall|a: int, b: int| 0 <= a < b < disp.len() ==> #[trigger] disp[a] < #[trigger] disp[b]
    &&& forall|k: int| 0 <= k < disp.len() ==> code_ok(gt, pt, #[trigger] disp[k])
    &&& forall|k: int| 0 <= k < disp.len() ==> sig.contains(decode(gt, pt, #[trigger] disp[k]))
    &&& forall|x: (Seq<usize>, Seq<usize>)| #[trigger] sig.contains(x) ==> exists|k: int| 0 <= k < disp.len() && decode(gt, pt, #[trigger] disp[k]) == x
}

proof fn lemma_decode_injective(gt: &SeqTable, pt: &SeqTable, d1: usize, d2: usize)
    requires
        tables_ok(gt, pt),
        d1 < pt.seqs.len(),
        d2 < pt.seqs.len(),
        decode(gt, pt, d1) == decode(gt, pt, d2),
    ensures
        d1 == d2,
{
    assert(code_ok(gt, pt, d1));
    assert(code_ok(gt, pt, d2));
    let a1 = pt.at(d1 as int)[0] as int;
    let a2 = pt.at(d2 as int)[0] as int;
    let b1 = pt.at(d1 as int)[1] as int;
    let b2 = pt.at(d2 as int)[1] as int;
    if a1 != a2 {
        if a1 < a2 {
            assert(gt.seqs@[a1]@ != gt.seqs@[a2]@);
        } else {
            assert(gt.seqs@[a2]@ != gt.seqs@[a1]@);
        }
    }
    if b1 != b2 {
        if b1 < b2 {
            assert(gt.seqs@[b1]@ != gt.seqs@[b2]@);
        } else {
            assert(gt.seqs@[b2]@ != gt.seqs@[b1]@);
        }
    }
    assert(pt.at(d1 as int) =~= pt.at(d2 as int));
    if d1 != d2 {
        if d1 < d2 {
            assert(pt.seqs@[d1 as int]@ != pt.seqs@[d2 as int]@);
        } else {
            assert(pt.seqs@[d2 as int]@ != pt.seqs@[d1 as int]@);
        }
    }
}

proof fn lemma_strict_same_elements(a: Seq<usize>, b: Seq<usize>)
    requires
        forall|i: int, j: int| 0 <= i < j < a.len() ==> #[trigger] a[i] < #[trigger] a[j],
        forall|i: int, j: int| 0 <= i < j < b.len() ==> #[trigger] b[i] < #[trigger] b[j],
        forall|x: usize| a.contains(x) <==> b.contains(x),
    ensures
        a == b,
    decreases a.len() + b.len(),
{
    if a.len() == 0 {
        if b.len() > 0 {
            assert(b.contains(b[0]));
        }
        assert(a =~= b);
    } else if b.len() == 0 {
        assert(a.contains(a[0]));
    } else {
        assert(a.contains(a[0]));
        assert(b.contains(b[0]));
        let ia = choose|i: int| 0 <= i < a.len() && a[i] == b[0];
        let ib = choose|i: int| 0 <= i < b.len() && b[i] == a[0];
        if ia > 0 {
            assert(a[0] < a[ia]);
        }
        if ib > 0 {
            assert(b[0] < b[ib]);
        }
        assert(a[0] == b[0]);
        let a1 = a.drop_first();
        let b1 = b.drop_first();
        assert forall|x: usize| a1.contains(x) <==> b1.contains(x) by {
            if a1.contains(x) {
                let i = choose|i: int| 0 <= i < a1.len() && a1[i] == x;
                assert(a[i + 1] == x);
                assert(a[0] < a[i + 1]);
                assert(b.contains(x));
                let j = choose|j: int| 0 <= j < b.len() && b[j] == x;
                assert(j != 0);
                assert(b1[j - 1] == x);
            }
            if b1.contains(x) {
                let i = choose|i: int| 0 <= i < b1.len() && b1[i] == x;
                assert(b[i + 1] == x);
                assert(b[0] < b[i + 1]);
                assert(a.contains(x));
                let j = choose|j: int| 0 <= j < a.len() && a[j] == x;
                assert(j != 0);
                assert(a1[j - 1] == x);
            }
        }
        lemma_strict_same_elements(a1, b1);
        assert(a =~= seq![a[0]] + a1);
        assert(b =~= seq![b[0]] + b1);
    }
}

/// Law: for codes of one pair of tables, two code lists are equal
/// exactly when the pair sets they stand for are equal.
pub proof fn law_disp_equal_iff_contents_equal(gt: &SeqTable, pt: &SeqTable, d1: Seq<usize>, s1: Set<(Seq<usize>, Seq<usize>)>, d2: Seq<usize>, s2: Set<(Seq<usize>, Seq<usize>)>)
    requires
        tables_ok(gt, pt),
        disp_ok(gt, pt, d1, s1),
        disp_ok(gt, pt, d2, s2),
    ensures
        (d1 == d2) <==> (s1 == s2),
{
    if d1 == d2 {
        assert forall|x: (Seq<usize>, Seq<usize>)| s1.contains(x) <==> s2.contains(x) by {
            if s1.contains(x) {
                let k = choose|k: int| 0 <= k < d1.len() && decode(gt, pt, #[trigger] d1[k]) == x;
                assert(s2.contains(decode(gt, pt, d2[k])));
            }
            if s2.contains(x) {
                let k = choose|k: int| 0 <= k < d2.len() && decode(gt, pt, #[trigger] d2[k]) == x;
                assert(s1.contains(decode(gt, pt, d1[k])));
            }
        }
        assert(s1 =~= s2);
    }
    if s1 == s2 {
        assert forall|x: usize| d1.contains(x) <==> d2.contains(x) by {
            if d1.contains(x) {
                let i = choose|i: int| 0 <= i < d1.len() && d1[i] == x;
                assert(code_ok(gt, pt, d1[i]));
                assert(s2.contains(decode(gt, pt, d1[i])));
                let k = choose|k: int| 0 <= k < d2.len() && decode(gt, pt, #[trigger] d2[k]) == decode(gt, pt, d1[i]);
                assert(code_ok(gt, pt, d2[k]));
                lemma_decode_injective(gt, pt, d1[i], d2[k]);
            }
            if d2.contains(x) {
                let i = choose|i: int| 0 <= i < d2.len() && d2[i] == x;
                assert(code_ok(gt, pt, d2[i]));
                assert(s1.contains(decode(gt, pt, d2[i])));
                let k = choose|k: int| 0 <= k < d1.len() && decode(gt, pt, #[trigger] d1[k]) == decode(gt, pt, d2[i]);
                assert(code_ok(gt, pt, d1[k]));
                lemma_decode_injective(gt, pt, d2[i], d1[k]);
            }
        }
        lemma_strict_same_elements(d1, d2);
    }
}

proof fn lemma_disp_ok_extends(gt: &SeqTable, pt: &SeqTable, gt2: &SeqTable, pt2: &SeqTable, disp: Seq<usize>, sig: Set<(Seq<usize>, Seq<usize>)>)
    requires
        tables_ok(gt, pt),
        tables_extend(gt, pt, gt2, pt2),
        disp_ok(gt, pt, disp, sig),
    ensures
        disp_ok(gt2, pt2, disp, sig),
{
    assert forall|k: int| 0 <= k < disp.len() implies code_ok(gt2, pt2, #[trigger] disp[k]) && decode(gt2, pt2, disp[k]) == decode(gt, pt, disp[k]) by {
        assert(code_ok(gt, pt, disp[k]));
        assert(pt2.at(disp[k] as int) == pt.at(disp[k] as int));
        assert(gt2.at(pt.at(disp[k] as int)[0] as int) == gt.at(pt.at(disp[k] as int)[0] as int));
        assert(gt2.at(pt.at(disp[k] as int)[1] as int) == gt.at(pt.at(disp[k] as int)[1] as int));
    }
    assert forall|x: (Seq<usize>, Seq<usize>)| #[trigger] sig.contains(x) implies exists|k: int| 0 <= k < disp.len() && decode(gt2, pt2, #[trigger] disp[k]) == x by {
        let k = choose|k: int| 0 <= k < disp.len() && decode(gt, pt, #[trigger] disp[k]) == x;
        assert(decode(gt2, pt2, disp[k]) == decode(gt, pt, disp[k]));
    }
}

/// The codes of the pairs of valid token result `q`, in increasing order:
/// stacks are numbered by content in `gt`, and pairs of stack numbers in
/// `pt`.
pub fn token_disp(res: &TokenTraversalResults, q: usize, gt: &mut SeqTable, pt: &mut SeqTable) -> (disp: Vec<usize>)
    requires
        res.wf(),
        q < res.tokens.len(),
        valid_at(res, q as int),
        tables_ok(old(gt), old(pt)),
    ensures
        tables_ok(final(gt), final(pt)),
        tables_extend(old(gt), old(pt), final(gt), final(pt)),
        disp_ok(final(gt), final(pt), disp@, pair_contents(res, q as int)),
{
    broadcast use vstd::seq_lib::group_to_multiset_ensures;
    let r = &res.tokens[q];
    assert(crate::traverse::token_result_in(res.tokens@[q as int], res.stack_sets@));
    let st = &res.stack_sets[r.stack_set];
    assert(st.wf());
    let v = match &r.stack_pairs {
        Some(v) => v,
        None => {
            return Vec::new();
        },
    };
    let ghost g0 = *gt;
    let ghost p0 = *pt;
    let mut codes: Vec<usize> = Vec::new();
    let mut k: usize = 0;
    while k < v.len()
        invariant
            st.wf(),
            k <= v.len(),
            forall|j: int| 0 <= j < v@.len() ==> #[trigger] v@[j].0 < st.size() && v@[j].1 < st.size(),
            forall|a: int, b: int| 0 <= a < b < v@.len() ==> pair_lt(#[trigger] v@[a], #[trigger] v@[b]),
            tables_ok(gt, pt),
            tables_ok(&g0, &p0),
            tables_extend(&g0, &p0, gt, pt),
            codes.len() == k,
            forall|j: int| 0 <= j < k ==> code_ok(gt, pt, #[trigger] codes@[j]) && decode(gt, pt, codes@[j]) == content_pair(st, v@[j]),
            forall|i: int, j: int| 0 <= i < j < k ==> #[trigger] codes@[i] != #[trigger] codes@[j],
        decreases v.len() - k,
    {
        let (a, b) = v[k];
        assert(v@[k as int] == (a, b));
        let ghost g1 = *gt;
        let ghost p1 = *pt;
        let gin = gt.intern(clone_usizes(st.get(a)));
        let gout = gt.intern(clone_usizes(st.get(b)));
        let ghost g2 = *gt;
        let pid = pt.intern(vec![gin, gout]);
        proof {
            assert(gt.at(gin as int) == st.stack(a as int));
            assert(gt.at(gout as int) == st.stack(b as int));
            assert forall|i: int| 0 <= i < pt.seqs.len() implies #[trigger] code_ok(gt, pt, i as usize) by {
                if i < p1.seqs.len() {
                    assert(pt.at(i) == p1.at(i));
                    assert(code_ok(&g1, &p1, i as usize));
                } else {
                    assert(i == pid);
                    assert(pt.at(i) =~= seq![gin, gout]);
                }
            }
            assert forall|d: usize| d < pt.seqs.len() implies #[trigger] code_ok(gt, pt, d) by {
                assert(code_ok(gt, pt, d as int as usize));
            }
            assert(pt.at(pid as int) =~= seq![gin, gout]);
            assert(decode(gt, pt, pid) == content_pair(st, v@[k as int]));
            assert forall|i: int| 0 <= i < g0.seqs.len() implies #[trigger] gt.at(i) == g0.at(i) by {
                assert(g1.at(i) == g0.at(i));
                assert(g2.at(i) == g1.at(i));
            }
            assert forall|i: int| 0 <= i < p0.seqs.len() implies #[trigger] pt.at(i) == p0.at(i) by {
                assert(p1.at(i) == p0.at(i));
            }
            assert forall|j: int| 0 <= j < k implies code_ok(gt, pt, #[trigger] codes@[j]) && decode(gt, pt, codes@[j]) == content_pair(st, v@[j]) by {
                assert(code_ok(&g1, &p1, codes@[j]));
                assert(pt.at(codes@[j] as int) == p1.at(codes@[j] as int));
                assert(gt.at(p1.at(codes@[j] as int)[0] as int) == g1.at(p1.at(codes@[j] as int)[0] as int));
                assert(gt.at(p1.at(codes@[j] as int)[1] as int) == g1.at(p1.at(codes@[j] as int)[1] as int));
            }
            assert forall|j: int| 0 <= j < k implies #[trigger] codes@[j] != pid by {
                assert(pair_lt(v@[j], v@[k as int]));
                if codes@[j] == pid {
                    assert(content_pair(st, v@[j]) == content_pair(st, v@[k as int]));
                    let (a2, b2) = v@[j];
                    if a2 != a {
                        if a2 < a {
                            assert(st.table.seqs@[a2 as int]@ != st.table.seqs@[a as int]@);
                        } else {
                            assert(st.table.seqs@[a as int]@ != st.table.seqs@[a2 as int]@);
                        }
                    } else if b2 != b {
                        if b2 < b {
                            assert(st.table.seqs@[b2 as int]@ != st.table.seqs@[b as int]@);
                        } else {
                            assert(st.table.seqs@[b as int]@ != st.table.seqs@[b2 as int]@);
                        }
                    }
                }
            }
        }
        codes.push(pid);
        k = k + 1;
    }
    let ghost cs = codes@;
    proof {
        assert(cs.no_duplicates());
        cs.lemma_multiset_has_no_duplicates();
    }
    let disp = sort_by_key(codes);
    proof {
        assert forall|x: usize| disp@.to_multiset().contains(x) implies disp@.to_multiset().count(x) == 1 by {
            assert(cs.to_multiset().contains(x));
        }
        disp@.lemma_multiset_has_no_duplicates_conv();
        assert forall|a: int, b: int| 0 <= a < b < disp@.len() implies #[trigger] disp@[a] < #[trigger] disp@[b] by {
            assert(disp@[a].key_of() <= disp@[b].key_of());
        }
        assert forall|k2: int| 0 <= k2 < disp@.len() implies code_ok(gt, pt, #[trigger] disp@[k2]) && pair_contents(res, q as int).contains(decode(gt, pt, disp@[k2])) by {
            assert(disp@.contains(disp@[k2]));
            assert(cs.to_multiset().count(disp@[k2]) > 0);
            assert(cs.contains(disp@[k2]));
            let j = choose|j: int| 0 <= j < cs.len() && cs[j] == disp@[k2];
            assert(decode(gt, pt, cs[j]) == content_pair(st, v@[j]));
        }
        assert forall|x: (Seq<usize>, Seq<usize>)| #[trigger] pair_contents(res, q as int).contains(x) implies exists|k2: int| 0 <= k2 < disp@.len() && decode(gt, pt, #[trigger] disp@[k2]) == x by {
            let j = choose|j: int| 0 <= j < v@.len() && x == content_pair(st, v@[j]);
            assert(cs.contains(cs[j]));
            assert(disp@.to_multiset().count(cs[j]) > 0);
            assert(disp@.contains(cs[j]));
            let k2 = choose|k2: int| 0 <= k2 < disp@.len() && disp@[k2] == cs[j];
            assert(decode(gt, pt, disp@[k2]) == x);
        }
    }
    disp
}

/// The ids of the invalid results among the first `t`, in order, as the
/// 32-bit integers they are written as.
pub open spec fn invalid_upto(res: &TokenTraversalResults, t: int) -> Seq<i32>
    decreases t,
{
    if t <= 0 {
        Seq::empty()
    } else {
        let r = res.tokens@[t - 1];
        invalid_upto(res, t - 1) + if r.stack_pairs is None {
            seq![r.token_id as i32]
        } else {
            Seq::<i32>::empty()
        }
    }
}

/// The classes of results, as positions in `res.tokens`: each class is
/// non-empty and in increasing order, classes come in the order of their
/// first members, and the members of one class, and only they, leave the
/// same pair contents.
pub open spec fn classes_ok(res: &TokenTraversalResults, members: Seq<Vec<usize>>) -> bool {
    &&& forall|c: int| 0 <= c < members.len() ==> (#[trigger] members[c]).len() > 0
    &&& forall|c: int, a: int, b: int| 0 <= c < members.len() && 0 <= a < b < members[c].len() ==> #[trigger] members[c]@[a] < #[trigger] members[c]@[b]
    &&& forall|c: int, m: int| 0 <= c < members.len() && 0 <= m < members[c].len() ==> #[trigger] members[c]@[m] < res.tokens.len() && valid_at(res, members[c]@[m] as int)
    &&& forall|c1: int, c2: int| 0 <= c1 < c2 < members.len() ==> #[trigger] members[c1]@[0] < #[trigger] members[c2]@[0]
    &&& forall|c: int, m1: int, m2: int| 0 <= c < members.len() && 0 <= m1 < members[c].len() && 0 <= m2 < members[c].len() ==> pair_contents(res, #[trigger] members[c]@[m1] as int) == pair_contents(res, #[trigger] members[c]@[m2] as int)
    &&& forall|c1: int, c2: int, m1: int, m2: int| 0 <= c1 < members.len() && 0 <= c2 < members.len() && c1 != c2 && 0 <= m1 < members[c1].len() && 0 <= m2 < members[c2].len() ==> pair_contents(res, #[trigger] members[c1]@[m1] as int) != pair_contents(res, #[trigger] members[c2]@[m2] as int)
}

/// Law: the classes group tokens by how the grammar reads them. Each
/// member of a class is a non-empty token that reaches some state; two
/// members of one class reach states with the same (context, rest) stack
/// contents, and members of different classes reach different ones.
pub proof fn law_class_members_reach_alike(tasks: Seq<(Vec<u8>, usize)>, ig: &IntGrammar, res: &TokenTraversalResults, members: Seq<Vec<usize>>, c1: int, m1: int, c2: int, m2: int)
    requires
        forall|k: int| 0 <= k < res.tokens.len() ==> #[trigger] token_means(tasks, ig, res, k),
        classes_ok(res, members),
        0 <= c1 < members.len(),
        0 <= m1 < members[c1].len(),
        0 <= c2 < members.len(),
        0 <= m2 < members[c2].len(),
    ensures
        exists|t1: int, t2: int| 0 <= t1 < tasks.len() && 0 <= t2 < tasks.len()
            && #[trigger] tasks[t1].1 == res.tokens@[members[c1]@[m1] as int].token_id
            && #[trigger] tasks[t2].1 == res.tokens@[members[c2]@[m2] as int].token_id
            && tasks[t1].0@.len() > 0
            && reach(ig, tasks[t1].0@) != Set::<AbsState>::empty()
            && (reach_pairs(ig, tasks[t1].0@) == reach_pairs(ig, tasks[t2].0@) <==> c1 == c2),
{
    let q1 = members[c1]@[m1] as int;
    let q2 = members[c2]@[m2] as int;
    assert(q1 < res.tokens.len() && valid_at(res, q1));
    assert(q2 < res.tokens.len() && valid_at(res, q2));
    assert(token_means(tasks, ig, res, q1));
    assert(token_means(tasks, ig, res, q2));
    let x1 = res.tokens@[q1];
    let x2 = res.tokens@[q2];
    let t1 = choose|t: int| 0 <= t < tasks.len() && #[trigger] tasks[t].1 == x1.token_id && pairs_mean(ig, tasks[t].0@, x1.stack_pairs, &res.stack_sets@[x1.stack_set as int]);
    let t2 = choose|t: int| 0 <= t < tasks.len() && #[trigger] tasks[t].1 == x2.token_id && pairs_mean(ig, tasks[t].0@, x2.stack_pairs, &res.stack_sets@[x2.stack_set as int]);
    assert(pair_contents(res, q1) =~= contents_of(&res.stack_sets@[x1.stack_set as int], x1.stack_pairs));
    assert(pair_contents(res, q2) =~= contents_of(&res.stack_sets@[x2.stack_set as int], x2.stack_pairs));
    if c1 == c2 {
        assert(pair_contents(res, members[c1]@[m1] as int) == pair_contents(res, members[c1]@[m2] as int));
    } else {
        assert(pair_contents(res, members[c1]@[m1] as int) != pair_contents(res, members[c2]@[m2] as int));
    }
    assert(tasks[t1].1 == res.tokens@[members[c1]@[m1] as int].token_id);
    assert(tasks[t2].1 == res.tokens@[members[c2]@[m2] as int].token_id);
}

/// Result `q` is a member of one of the classes.
pub open spec fn in_some_class(members: Seq<Vec<usize>>, q: int) -> bool {
    exists|c: int, m: int| 0 <= c < members.len() && 0 <= m < members[c].len() && #[trigger] members[c]@[m] == q
}

/// Groups the valid results into classes by the contents of the pairs
/// they leave, and lists the ids of the invalid ones in order.
pub fn bucket_classes(res: &TokenTraversalResults) -> (r: (Vec<Vec<usize>>, Vec<i32>))
    requires
        res.wf(),
    ensures
        classes_ok(res, r.0@),
        forall|q: int| 0 <= q < res.tokens.len() && valid_at(res, q) ==> #[trigger] in_some_class(r.0@, q),
        r.1@ == invalid_upto(res, res.tokens.len() as int),
{
    let mut gt = SeqTable::new();
    let mut pt = SeqTable::new();
    let mut ct = SeqTable::new();
    let mut members: Vec<Vec<usize>> = Vec::new();
    let mut invalid: Vec<i32> = Vec::new();
    let mut q: usize = 0;
    while q < res.tokens.len()
        invariant
            res.wf(),
            q <= res.tokens.len(),
            tables_ok(&gt, &pt),
            ct.wf(),
            members.len() == ct.seqs.len(),
            forall|c: int| 0 <= c < members.len() ==> (#[trigger] members@[c]).len() > 0,
            forall|c: int, a: int, b: int| 0 <= c < members.len() && 0 <= a < b < members@[c].len() ==> #[trigger] members@[c]@[a] < #[trigger] members@[c]@[b],
            forall|c: int, m: int| 0 <= c < members.len() && 0 <= m < members@[c].len() ==> #[trigger] members@[c]@[m] < q && valid_at(res, members@[c]@[m] as int),
            forall|c: int, m: int| 0 <= c < members.len() && 0 <= m < members@[c].len() ==> disp_ok(&gt, &pt, ct.at(c), pair_contents(res, #[trigger] members@[c]@[m] as int)),
            forall|c1: int, c2: int| 0 <= c1 < c2 < members.len() ==> #[trigger] members@[c1]@[0] < #[trigger] members@[c2]@[0],
            forall|q2: int| 0 <= q2 < q && valid_at(res, q2) ==> #[trigger] in_some_class(members@, q2),
            invalid@ == invalid_upto(res, q as int),
        decreases res.tokens.len() - q,
    {
        let ghost m0 = members@;
        if res.tokens[q].stack_pairs.is_some() {
            let ghost g0 = gt;
            let ghost p0 = pt;
            let disp = token_disp(res, q, &mut gt, &mut pt);
            proof {
                assert forall|c: int, m: int| 0 <= c < members.len() && 0 <= m < members@[c].len() implies disp_ok(&gt, &pt, ct.at(c), pair_contents(res, #[trigger] members@[c]@[m] as int)) by {
                    lemma_disp_ok_extends(&g0, &p0, &gt, &pt, ct.at(c), pair_contents(res, members@[c]@[m] as int));
                }
            }
            match ct.lookup(&disp) {
                Some(c) => {
                    let mut cur: Vec<usize> = Vec::new();
                    std::mem::swap(&mut cur, &mut members[c]);
                    let ghost cur0 = cur@;
                    cur.push(q);
                    std::mem::swap(&mut cur, &mut members[c]);
                    proof {
                        assert(members@ == m0.update(c as int, members@[c as int]));
                        assert(members@[c as int]@ == cur0.push(q));
                        assert(cur0 == m0[c as int]@);
                        assert forall|c2: int, a: int, b: int| 0 <= c2 < members.len() && 0 <= a < b < members@[c2].len() implies #[trigger] members@[c2]@[a] < #[trigger] members@[c2]@[b] by {
                            if c2 != c {
                                assert(members@[c2] == m0[c2]);
                            } else if b == cur0.len() {
                                assert(members@[c2]@[a] == m0[c2]@[a]);
                            } else {
                                assert(members@[c2]@[a] == m0[c2]@[a]);
                                assert(members@[c2]@[b] == m0[c2]@[b]);
                            }
                        }
                        assert forall|c2: int, m: int| 0 <= c2 < members.len() && 0 <= m < members@[c2].len() implies #[trigger] members@[c2]@[m] < q + 1 && valid_at(res, members@[c2]@[m] as int) by {
                            if c2 != c {
                                assert(members@[c2] == m0[c2]);
                            } else if m < cur0.len() {
                                assert(members@[c2]@[m] == m0[c2]@[m]);
                            }
                        }
                        assert forall|c2: int, m: int| 0 <= c2 < members.len() && 0 <= m < members@[c2].len() implies disp_ok(&gt, &pt, ct.at(c2), pair_contents(res, #[trigger] members@[c2]@[m] as int)) by {
                            if c2 != c {
                                assert(members@[c2] == m0[c2]);
                            } else if m < cur0.len() {
                                assert(members@[c2]@[m] == m0[c2]@[m]);
                            } else {
                                assert(members@[c2]@[m] == q);
                            }
                        }
                        assert forall|c1: int, c2: int| 0 <= c1 < c2 < members.len() implies #[trigger] members@[c1]@[0] < #[trigger] members@[c2]@[0] by {
                            assert(members@[c1]@[0] == m0[c1]@[0]);
                            assert(members@[c2]@[0] == m0[c2]@[0]);
                        }
                        assert forall|q2: int| 0 <= q2 < q + 1 && valid_at(res, q2) implies #[trigger] in_some_class(members@, q2) by {
                            if q2 < q {
                                assert(in_some_class(m0, q2));
                                let (c2, m) = choose|c2: int, m: int| 0 <= c2 < m0.len() && 0 <= m < m0[c2].len() && #[trigger] m0[c2]@[m] == q2;
                                if c2 == c {
                                    assert(members@[c2]@[m] == q2);
                                } else {
                                    assert(members@[c2] == m0[c2]);
                                }
                            } else {
                                assert(members@[c as int]@[cur0.len() as int] == q2);
                            }
                        }
                    }
                },
                None => {
                    let ghost ct0 = ct;
                    let id = ct.intern(disp);
                    let mut fresh: Vec<usize> = Vec::new();
                    fresh.push(q);
                    members.push(fresh);
                    proof {
                        if ct.seqs.len() == ct0.seqs.len() {
                            assert(ct.seqs@[id as int] == ct0.seqs@[id as int]);
                            assert(ct0.at(id as int) == disp@);
                        }
                        assert(id == m0.len());
                        assert forall|c: int| 0 <= c < members.len() implies (#[trigger] members@[c]).len() > 0 by {
                            if c < m0.len() {
                                assert(members@[c] == m0[c]);
                            }
                        }
                        assert forall|c2: int, a: int, b: int| 0 <= c2 < members.len() && 0 <= a < b < members@[c2].len() implies #[trigger] members@[c2]@[a] < #[trigger] members@[c2]@[b] by {
                            if c2 < m0.len() {
                                assert(members@[c2] == m0[c2]);
                            }
                        }
                        assert forall|c2: int, m: int| 0 <= c2 < members.len() && 0 <= m < members@[c2].len() implies #[trigger] members@[c2]@[m] < q + 1 && valid_at(res, members@[c2]@[m] as int) by {
                            if c2 < m0.len() {
                                assert(members@[c2] == m0[c2]);
                            }
                        }
                        assert forall|c2: int, m: int| 0 <= c2 < members.len() && 0 <= m < members@[c2].len() implies disp_ok(&gt, &pt, ct.at(c2), pair_contents(res, #[trigger] members@[c2]@[m] as int)) by {
                            if c2 < m0.len() {
                                assert(members@[c2] == m0[c2]);
                                assert(ct.at(c2) == ct0.at(c2));
                            }
                        }
                        assert forall|c1: int, c2: int| 0 <= c1 < c2 < members.len() implies #[trigger] members@[c1]@[0] < #[trigger] members@[c2]@[0] by {
                            assert(members@[c1] == m0[c1]);
                            if c2 < m0.len() {
                                assert(members@[c2] == m0[c2]);
                            } else {
                                assert(m0[c1]@[0] < q);
                            }
                        }
                        assert forall|q2: int| 0 <= q2 < q + 1 && valid_at(res, q2) implies #[trigger] in_some_class(members@, q2) by {
                            if q2 < q {
                                assert(in_some_class(m0, q2));
                                let (c2, m) = choose|c2: int, m: int| 0 <= c2 < m0.len() && 0 <= m < m0[c2].len() && #[trigger] m0[c2]@[m] == q2;
                                assert(members@[c2] == m0[c2]);
                            } else {
                                assert(members@[m0.len() as int]@[0] == q2);
                            }
                        }
                    }
                },
            }
            proof {
                assert(invalid_upto(res, q + 1) =~= invalid_upto(res, q as int));
            }
        } else {
            invalid.push(res.tokens[q].token_id as i32);
            proof {
                assert(invalid_upto(res, q + 1) =~= invalid_upto(res, q as int).push(res.tokens@[q as int].token_id as i32));
                assert forall|q2: int| 0 <= q2 < q + 1 && valid_at(res, q2) implies #[trigger] in_some_class(members@, q2) by {
                    assert(q2 != q);
                }
            }
        }
        q = q + 1;
    }
    proof {
        assert forall|c: int, m1: int, m2: int| 0 <= c < members.len() && 0 <= m1 < members@[c].len() && 0 <= m2 < members@[c].len() implies pair_contents(res, #[trigger] members@[c]@[m1] as int) == pair_contents(res, #[trigger] members@[c]@[m2] as int) by {
            law_disp_equal_iff_contents_equal(&gt, &pt, ct.at(c), pair_contents(res, members@[c]@[m1] as int), ct.at(c), pair_contents(res, members@[c]@[m2] as int));
        }
        assert forall|c1: int, c2: int, m1: int, m2: int| 0 <= c1 < members.len() && 0 <= c2 < members.len() && c1 != c2 && 0 <= m1 < members@[c1].len() && 0 <= m2 < members@[c2].len() implies pair_contents(res, #[trigger] members@[c1]@[m1] as int) != pair_contents(res, #[trigger] members@[c2]@[m2] as int) by {
            law_disp_equal_iff_contents_equal(&gt, &pt, ct.at(c1), pair_contents(res, members@[c1]@[m1] as int), ct.at(c2), pair_contents(res, members@[c2]@[m2] as int));
            if c1 < c2 {
                assert(ct.seqs@[c1]@ != ct.seqs@[c2]@);
            } else {
                assert(ct.seqs@[c2]@ != ct.seqs@[c1]@);
            }
        }
    }
    (members, invalid)
}

} // verus!
