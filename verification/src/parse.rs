//! The GBNF reader: rule lines into a grammar whose terminals are
//! regular expressions named `__T0`, `__T1`, ...
use vstd::prelude::*;
use crate::symbols::{Rhs, rhs_view, clone_sym, clone_rhs, numbered_name, decimal};
use crate::symmap::SymMap;
use crate::grammar::{Grammar, grammar_wf, prods, sdict_add, ensure_key, new_grammar};
use crate::gbnf::{Tok, TokKind, GbnfError, tok_shape, tok_text, tok_view, toks_view, terminal_tok, lex, tokenize, tok_is_terminal, group_inner, gbnf_to_regex, body_regex, strip_comment, join_lines, uncommented, line_groups};
use crate::text::{trim, trimmed, split_lines, lines_from, find_piece, occurs_at, slice, joined};

verus! {

/// The grammar only grows: every production of `old` is in `new`.
pub open spec fn grows(old: &Grammar, new: &Grammar) -> bool {
    &&& forall|x: Seq<char>| #[trigger] prods(old, x).subset_of(prods(new, x))
    &&& old@.dom().subset_of(new@.dom())
}

pub proof fn lemma_grows_trans(a: &Grammar, b: &Grammar, c: &Grammar)
    requires
        grows(a, b),
        grows(b, c),
    ensures
        grows(a, c),
{
    assert forall|x: Seq<char>| #[trigger] prods(a, x).subset_of(prods(c, x)) by {
        assert(prods(a, x).subset_of(prods(b, x)));
        assert(prods(b, x).subset_of(prods(c, x)));
    }
}

/// The empty literal `""`, the placeholder entry of the terminal table.
pub open spec fn empty_lit() -> Seq<char> {
    seq!['"', '"']
}

/// The terminal label `__T{n}`.
pub open spec fn term_label(n: nat) -> Seq<char> {
    seq!['_', '_', 'T'] + decimal(n)
}

/// The terminal table maps `""` to itself and every other pattern to its
/// own label `__T{n}`, `n` below the number of other patterns.
pub open spec fn labels_ok(t: &SymMap<Vec<char>>) -> bool {
    &&& t@.contains_key(empty_lit())
    &&& t@[empty_lit()]@ == empty_lit()
    &&& forall|p: Seq<char>| #[trigger] t@.contains_key(p) && p != empty_lit() ==> exists|n: nat| n + 1 < t.keys.len() && t@[p]@ == #[trigger] term_label(n)
    &&& forall|p1: Seq<char>, p2: Seq<char>| #[trigger] t@.contains_key(p1) && #[trigger] t@.contains_key(p2) && p1 != p2 ==> t@[p1]@ != t@[p2]@
}

/// Distinct patterns have distinct labels.
pub open spec fn labels_ok_map(t: Map<Seq<char>, Vec<char>>) -> bool {
    forall|p1: Seq<char>, p2: Seq<char>| #[trigger] t.contains_key(p1) && #[trigger] t.contains_key(p2) && p1 != p2 ==> t[p1]@ != t[p2]@
}

/// The label of the terminal for `pattern`: the one it already has, or a
/// new `__T{n}` where `n` counts the terminals before it (the table holds
/// one placeholder entry besides them).
pub fn add_terminal(terminals: &mut SymMap<Vec<char>>, pattern: Vec<char>) -> (lbl: Vec<char>)
    requires
        old(terminals).wf(),
        old(terminals).keys.len() >= 1,
        labels_ok(old(terminals)),
    ensures
        final(terminals).wf(),
        final(terminals).keys.len() >= 1,
        labels_ok(final(terminals)),
        old(terminals)@.contains_key(pattern@) ==> final(terminals)@ == old(terminals)@ && lbl@ == old(terminals)@[pattern@]@,
        !old(terminals)@.contains_key(pattern@) ==> lbl@ == seq!['_', '_', 'T'] + decimal((old(terminals).keys.len() - 1) as nat)
            && final(terminals)@ == old(terminals)@.insert(pattern@, final(terminals)@[pattern@])
            && final(terminals)@[pattern@]@ == lbl@,
{
    if let Some(l) = terminals.get(&pattern) {
        return clone_sym(l);
    }
    let prefix: Vec<char> = vec!['_', '_', 'T'];
    let lbl = numbered_name(&prefix, terminals.len() - 1);
    let out = clone_sym(&lbl);
    let ghost t0 = *terminals;
    let ghost n0 = (t0.keys.len() - 1) as nat;
    proof {
        t0.lemma_dom_len();
        assert(lbl@ == term_label(n0));
        assert(lbl@ != empty_lit()) by {
            assert(lbl@[0] == '_');
        }
    }
    terminals.insert(pattern, lbl);
    proof {
        terminals.lemma_dom_len();
        assert(terminals@.dom() == t0@.dom().insert(pattern@));
        assert(terminals@.dom().len() == t0@.dom().len() + 1);
        assert(terminals.keys.len() == t0.keys.len() + 1);
        assert forall|p: Seq<char>| #[trigger] terminals@.contains_key(p) && p != empty_lit() implies exists|n: nat| n + 1 < terminals.keys.len() && terminals@[p]@ == #[trigger] term_label(n) by {
            if p == pattern@ {
                assert(terminals@[p]@ == term_label(n0));
            } else {
                let n = choose|n: nat| n + 1 < t0.keys.len() && t0@[p]@ == #[trigger] term_label(n);
                assert(terminals@[p] == t0@[p]);
            }
        }
        assert forall|p1: Seq<char>, p2: Seq<char>| #[trigger] terminals@.contains_key(p1) && #[trigger] terminals@.contains_key(p2) && p1 != p2 implies terminals@[p1]@ != terminals@[p2]@ by {
            if p1 == pattern@ || p2 == pattern@ {
                let q = if p1 == pattern@ { p2 } else { p1 };
                assert(t0@.contains_key(q));
                assert(terminals@[q] == t0@[q]);
                if q == empty_lit() {
                } else {
                    let n = choose|n: nat| n + 1 < t0.keys.len() && t0@[q]@ == #[trigger] term_label(n);
                    if t0@[q]@ == lbl@ {
                        assert(decimal(n) =~= t0@[q]@.skip(3));
                        assert(decimal(n0) =~= lbl@.skip(3));
                        crate::symbols::lemma_decimal_injective(n, n0);
                    }
                }
            } else {
                assert(terminals@[p1] == t0@[p1]);
                assert(terminals@[p2] == t0@[p2]);
            }
        }
        assert(terminals.keys.len() >= 1);
    }
    out
}

/// The name of a fresh auxiliary non-terminal standing for `base`
/// repeated by `quant`: `*` gives `ε | base name`, `+` gives
/// `base | base name`, `?` gives `ε | base`.
pub fn make_quant_aux(base: &Vec<char>, quant: &Vec<char>, g: &mut Grammar, aux: &mut usize) -> (name: Vec<char>)
    requires
        grammar_wf(old(g)),
        *old(aux) < usize::MAX,
    ensures
        grammar_wf(final(g)),
        *final(aux) == *old(aux) + 1,
        name@ == seq!['_', '_', 'r', 'e', 'p'] + decimal(*old(aux) as nat),
        grows(old(g), final(g)),
        forall|x: Seq<char>| x != name@ ==> #[trigger] prods(final(g), x) == prods(old(g), x),
        quant@ == seq!['*'] ==> prods(final(g), name@) == prods(old(g), name@).insert(Seq::empty()).insert(seq![base@, name@]),
        quant@ == seq!['+'] ==> prods(final(g), name@) == prods(old(g), name@).insert(seq![base@]).insert(seq![base@, name@]),
        quant@ == seq!['?'] ==> prods(final(g), name@) == prods(old(g), name@).insert(Seq::empty()).insert(seq![base@]),
        quant@ == seq!['*'] || quant@ == seq!['+'] || quant@ == seq!['?'] ==> final(g)@.dom() == old(g)@.dom().insert(name@),
        !(quant@ == seq!['*'] || quant@ == seq!['+'] || quant@ == seq!['?']) ==> *final(g) == *old(g),
{
    let prefix: Vec<char> = vec!['_', '_', 'r', 'e', 'p'];
    let name = numbered_name(&prefix, *aux);
    *aux = *aux + 1;
    let ghost g0 = *g;
    if quant.len() == 1 && quant[0] == '*' {
        sdict_add(g, &name, Vec::new());
        let r2: Rhs = vec![clone_sym(base), clone_sym(&name)];
        sdict_add(g, &name, r2);
        proof {
            assert(rhs_view(Seq::<Vec<char>>::empty()) =~= Seq::<Seq<char>>::empty());
            assert(rhs_view(r2@) =~= seq![base@, name@]);
        }
    } else if quant.len() == 1 && quant[0] == '+' {
        let r1: Rhs = vec![clone_sym(base)];
        sdict_add(g, &name, r1);
        let r2: Rhs = vec![clone_sym(base), clone_sym(&name)];
        sdict_add(g, &name, r2);
        proof {
            assert(rhs_view(r1@) =~= seq![base@]);
            assert(rhs_view(r2@) =~= seq![base@, name@]);
        }
    } else if quant.len() == 1 && quant[0] == '?' {
        sdict_add(g, &name, Vec::new());
        let r1: Rhs = vec![clone_sym(base)];
        sdict_add(g, &name, r1);
        proof {
            assert(rhs_view(Seq::<Vec<char>>::empty()) =~= Seq::<Seq<char>>::empty());
            assert(rhs_view(r1@) =~= seq![base@]);
        }
    }
    proof {
        assert(quant@ == seq!['*'] ==> quant@.len() == 1 && quant@[0] == '*');
        assert(quant@ == seq!['+'] ==> quant@.len() == 1 && quant@[0] == '+');
        assert(quant@ == seq!['?'] ==> quant@.len() == 1 && quant@[0] == '?');
        assert(quant@.len() == 1 && quant@[0] == '*' ==> quant@ =~= seq!['*']);
        assert(quant@.len() == 1 && quant@[0] == '+' ==> quant@ =~= seq!['+']);
        assert(quant@.len() == 1 && quant@[0] == '?' ==> quant@ =~= seq!['?']);
        assert forall|x: Seq<char>| #[trigger] prods(&g0, x).subset_of(prods(g, x)) by {}
    }
    name
}

/// A token of a terminal run as it stands in the run's pattern: its text
/// and quantifier (nothing for a name or `|`).
pub open spec fn run_piece(t: (TokKind, Seq<char>, Seq<char>)) -> Seq<char> {
    if t.0 is Str || t.0 is Cls || t.0 is Group { t.1 + t.2 } else { Seq::empty() }
}

/// The terminal pattern of a run of tokens: their pieces separated by
/// single spaces.
pub open spec fn run_pat(run: Seq<(TokKind, Seq<char>, Seq<char>)>) -> Seq<char> {
    joined(run.map_values(|t: (TokKind, Seq<char>, Seq<char>)| run_piece(t)))
}

/// The terminal pattern of a run of terminal tokens: their texts with
/// quantifiers, separated by spaces.
fn run_pattern(run: &Vec<Tok>) -> (r: Vec<char>)
    ensures
        r@ == run_pat(toks_view(run@)),
{
    let ghost ps = toks_view(run@).map_values(|t: (TokKind, Seq<char>, Seq<char>)| run_piece(t));
    let mut out: Vec<char> = Vec::new();
    let mut i: usize = 0;
    assert(ps.take(0) =~= Seq::<Seq<char>>::empty());
    while i < run.len()
        invariant
            i <= run.len(),
            ps == toks_view(run@).map_values(|t: (TokKind, Seq<char>, Seq<char>)| run_piece(t)),
            out@ == joined(ps.take(i as int)),
        decreases run.len() - i,
    {
        let ghost o0 = out@;
        proof {
            assert(ps.take(i + 1).drop_last() =~= ps.take(i as int));
            assert(ps[i as int] == run_piece(tok_view(run@[i as int])));
        }
        if i > 0 {
            out.push(' ');
        }
        match &run[i] {
            Tok::Str(x, q) => {
                crate::symbols::push_all(&mut out, x);
                crate::symbols::push_all(&mut out, q);
            },
            Tok::Cls(x, q) => {
                crate::symbols::push_all(&mut out, x);
                crate::symbols::push_all(&mut out, q);
            },
            Tok::Group(x, q) => {
                crate::symbols::push_all(&mut out, x);
                crate::symbols::push_all(&mut out, q);
            },
            _ => {},
        }
        proof {
            if i > 0 {
                assert(out@ =~= o0 + seq![' '] + ps[i as int]);
            } else {
                assert(ps.take(1) =~= seq![ps[0]]);
                assert(out@ =~= ps[0]);
            }
        }
        i = i + 1;
    }
    assert(ps.take(run.len() as int) =~= ps);
    out
}

fn clone_tok(t: &Tok) -> (r: Tok)
    ensures
        tok_view(r) == tok_view(*t),
        tok_text(r) == tok_text(*t),
        crate::gbnf::tok_quant(r) == crate::gbnf::tok_quant(*t),
        r is Str <==> t is Str,
        r is Cls <==> t is Cls,
        r is Group <==> t is Group,
        r is Nt <==> t is Nt,
        r is Alt <==> t is Alt,
{
    match t {
        Tok::Str(x, q) => Tok::Str(clone_sym(x), clone_sym(q)),
        Tok::Cls(x, q) => Tok::Cls(clone_sym(x), clone_sym(q)),
        Tok::Group(x, q) => Tok::Group(clone_sym(x), clone_sym(q)),
        Tok::Nt(x, q) => Tok::Nt(clone_sym(x), clone_sym(q)),
        Tok::Alt => Tok::Alt,
    }
}

/// The invariant the reader keeps on its tables.
pub open spec fn tables_wf(terminals: &SymMap<Vec<char>>, g: &Grammar) -> bool {
    &&& terminals.wf()
    &&& terminals.keys.len() >= 1
    &&& labels_ok(terminals)
    &&& grammar_wf(g)
}

/// A piece of an alternative: a run of terminal tokens, a name with its
/// quantifier, or a group that is not all terminal with its quantifier.
pub enum Seg {
    Run(Seq<(TokKind, Seq<char>, Seq<char>)>),
    Name(Seq<char>, Seq<char>),
    Group(Seq<char>, Seq<char>),
}

/// A pending run of terminal tokens, as a piece if it is not empty.
pub open spec fn flush_seg(run: Seq<(TokKind, Seq<char>, Seq<char>)>) -> Seq<Seg> {
    if run.len() > 0 { seq![Seg::Run(run)] } else { Seq::empty() }
}

/// The pieces of the tokens from position `i` on, with the run of
/// terminal tokens `run` pending: consecutive terminal tokens make one
/// run, a name or a group that is not all terminal ends the run and is a
/// piece of its own, and `|` is skipped.
pub open spec fn segs_from(ts: Seq<(TokKind, Seq<char>, Seq<char>)>, i: int, run: Seq<(TokKind, Seq<char>, Seq<char>)>) -> Seq<Seg>
    decreases ts.len() - i,
{
    if i < 0 || i >= ts.len() {
        flush_seg(run)
    } else {
        let t = ts[i];
        if terminal_tok(t) {
            segs_from(ts, i + 1, run.push(t))
        } else if t.0 is Nt {
            flush_seg(run) + seq![Seg::Name(t.1, t.2)] + segs_from(ts, i + 1, Seq::empty())
        } else if t.0 is Group {
            flush_seg(run) + seq![Seg::Group(t.1, t.2)] + segs_from(ts, i + 1, Seq::empty())
        } else {
            segs_from(ts, i + 1, run)
        }
    }
}

/// `x` is an auxiliary name `__rep{n}`.
pub open spec fn rep_name(x: Seq<char>) -> bool {
    exists|n: nat| x == seq!['_', '_', 'r', 'e', 'p'] + #[trigger] decimal(n)
}

/// `x` is a group name `__grp{n}`.
pub open spec fn grp_name(x: Seq<char>) -> bool {
    exists|n: nat| x == seq!['_', '_', 'g', 'r', 'p'] + #[trigger] decimal(n)
}

/// The symbol a piece becomes: a run, the terminal the table gives its
/// pattern; a name, itself (an auxiliary `__rep` name with a
/// quantifier); a group, a `__grp` name (a `__rep` name with a
/// quantifier).
pub open spec fn sym_fits(seg: Seg, sym: Seq<char>, terms: Map<Seq<char>, Vec<char>>) -> bool {
    match seg {
        Seg::Run(run) => terms.contains_key(run_pat(run)) && sym == terms[run_pat(run)]@,
        Seg::Name(x, q) => if q.len() == 0 { sym == x } else { rep_name(sym) },
        Seg::Group(_, q) => if q.len() == 0 { grp_name(sym) } else { rep_name(sym) },
    }
}

/// The symbols of an alternative are those of its pieces, in order.
pub open spec fn alt_fits(tv: Seq<(TokKind, Seq<char>, Seq<char>)>, syms: Seq<Seq<char>>, terms: Map<Seq<char>, Vec<char>>) -> bool {
    let segs = segs_from(tv, 0, Seq::empty());
    &&& syms.len() == segs.len()
    &&& forall|p: int| 0 <= p < segs.len() ==> #[trigger] sym_fits(segs[p], syms[p], terms)
}

/// The terminal table only gains entries.
pub open spec fn terms_grow(a: Map<Seq<char>, Vec<char>>, b: Map<Seq<char>, Vec<char>>) -> bool {
    forall|k: Seq<char>| #[trigger] a.contains_key(k) ==> b.contains_key(k) && b[k] == a[k]
}

proof fn lemma_terms_grow_trans(a: Map<Seq<char>, Vec<char>>, b: Map<Seq<char>, Vec<char>>, c: Map<Seq<char>, Vec<char>>)
    requires
        terms_grow(a, b),
        terms_grow(b, c),
    ensures
        terms_grow(a, c),
{
    assert forall|k: Seq<char>| #[trigger] a.contains_key(k) implies c.contains_key(k) && c[k] == a[k] by {
        assert(b.contains_key(k));
    }
}

proof fn lemma_fits_grow(segs: Seq<Seg>, syms: Seq<Seq<char>>, a: Map<Seq<char>, Vec<char>>, b: Map<Seq<char>, Vec<char>>)
    requires
        syms.len() >= segs.len(),
        forall|p: int| 0 <= p < segs.len() ==> #[trigger] sym_fits(segs[p], syms[p], a),
        terms_grow(a, b),
    ensures
        forall|p: int| 0 <= p < segs.len() ==> #[trigger] sym_fits(segs[p], syms[p], b),
{
    assert forall|p: int| 0 <= p < segs.len() implies #[trigger] sym_fits(segs[p], syms[p], b) by {
        assert(sym_fits(segs[p], syms[p], a));
        match segs[p] {
            Seg::Run(run) => {
                assert(a.contains_key(run_pat(run)));
            },
            _ => {},
        }
    }
}

/// Ends a run of terminal tokens: the run becomes one terminal symbol,
/// the table's label for the run's pattern.
fn flush(syms: &mut Vec<Vec<char>>, run: &mut Vec<Tok>, terminals: &mut SymMap<Vec<char>>)
    requires
        old(terminals).wf(),
        old(terminals).keys.len() >= 1,
        labels_ok(old(terminals)),
    ensures
        final(terminals).wf(),
        final(terminals).keys.len() >= 1,
        labels_ok(final(terminals)),
        final(run).len() == 0,
        final(syms).len() == old(syms).len() + if old(run).len() == 0 { 0int } else { 1int },
        terms_grow(old(terminals)@, final(terminals)@),
        forall|p: int| 0 <= p < old(syms).len() ==> #[trigger] final(syms)@[p] == old(syms)@[p],
        old(run).len() > 0 ==> final(terminals)@.contains_key(run_pat(toks_view(old(run)@))) && final(syms)@[old(syms).len() as int]@ == final(terminals)@[run_pat(toks_view(old(run)@))]@,
{
    if run.len() == 0 {
        return;
    }
    let pat = run_pattern(run);
    let ghost t0 = terminals@;
    let lbl = add_terminal(terminals, pat);
    proof {
        assert forall|k: Seq<char>| #[trigger] t0.contains_key(k) implies terminals@.contains_key(k) && terminals@[k] == t0[k] by {}
    }
    syms.push(lbl);
    *run = Vec::new();
}

/// The symbols of one alternative: each run of terminal tokens becomes a
/// terminal, names stay (with an auxiliary rule for a quantifier), and a
/// group that is not all terminal becomes a fresh `__grp{n}` rule.
pub fn process_alt(tokens: &Vec<Tok>, terminals: &mut SymMap<Vec<char>>, g: &mut Grammar, aux: &mut usize, Ghost(n): Ghost<nat>) -> (r: Result<Rhs, GbnfError>)
    requires
        tables_wf(old(terminals), old(g)),
        forall|k: int| 0 <= k < tokens.len() ==> tok_shape(#[trigger] tokens@[k], n),
    ensures
        tables_wf(final(terminals), final(g)),
        r is Ok ==> grows(old(g), final(g)),
        r is Ok ==> terms_grow(old(terminals)@, final(terminals)@),
        r matches Ok(syms) ==> alt_fits(toks_view(tokens@), rhs_view(syms@), final(terminals)@),
        r matches Ok(syms) ==> forall|p: int| 0 <= p < segs_from(toks_view(tokens@), 0, Seq::empty()).len() ==> #[trigger] seg_rules(segs_from(toks_view(tokens@), 0, Seq::empty())[p], rhs_view(syms@)[p], final(terminals)@, final(g), n),
        r matches Err(e) ==> e is TooManyRules,
        r is Ok ==> *final(aux) == *old(aux) + toks_need(toks_view(tokens@), n, tokens.len() as int),
        r is Err ==> *old(aux) + toks_need(toks_view(tokens@), n, tokens.len() as int) > usize::MAX,
    decreases n, 0nat,
{
    let ghost a_in = *aux;
    let ghost tv = toks_view(tokens@);
    let ghost all = segs_from(tv, 0, Seq::empty());
    let ghost t0 = terminals@;
    let mut syms: Vec<Vec<char>> = Vec::new();
    let mut term_run: Vec<Tok> = Vec::new();
    let ghost g0 = *g;
    let ghost mut done: Seq<Seg> = Seq::empty();
    assert(toks_view(term_run@) =~= Seq::<(TokKind, Seq<char>, Seq<char>)>::empty());
    assert(done + segs_from(tv, 0, toks_view(term_run@)) =~= all);
    let mut i: usize = 0;
    while i < tokens.len()
        invariant
            i <= tokens.len(),
            tables_wf(terminals, g),
            grows(&g0, g),
            forall|k: int| 0 <= k < tokens.len() ==> tok_shape(#[trigger] tokens@[k], n),
            tv == toks_view(tokens@),
            all == segs_from(tv, 0, Seq::empty()),
            done + segs_from(tv, i as int, toks_view(term_run@)) == all,
            syms.len() == done.len(),
            forall|p: int| 0 <= p < done.len() ==> #[trigger] sym_fits(done[p], syms@[p]@, terminals@),
            forall|p: int| 0 <= p < done.len() ==> #[trigger] seg_rules(done[p], syms@[p]@, terminals@, g, n),
            terms_grow(t0, terminals@),
            *aux == a_in + toks_need(tv, n, i as int),
            a_in == *old(aux),
        decreases tokens.len() - i,
    {
        let tok = &tokens[i];
        assert(tok_shape(tokens@[i as int], n));
        assert(tv[i as int] == tok_view(*tok));
        let ghost run0 = toks_view(term_run@);
        if tok_is_terminal(tok) {
            let c = clone_tok(tok);
            term_run.push(c);
            proof {
                assert(toks_view(term_run@) =~= run0.push(tv[i as int]));
            }
        } else {
            match tok {
                Tok::Nt(name, q) => {
                    let ghost ta = terminals@;
                    let ghost s0 = syms@;
                    flush(&mut syms, &mut term_run, terminals);
                    proof {
                        lemma_fits_grow(done, rhs_view(s0), ta, terminals@);
                        assert forall|p: int| 0 <= p < done.len() implies #[trigger] sym_fits(done[p], syms@[p]@, terminals@) by {
                            assert(syms@[p] == s0[p]);
                            assert(sym_fits(done[p], rhs_view(s0)[p], terminals@));
                        }
                        assert forall|p: int| 0 <= p < done.len() implies #[trigger] seg_rules(done[p], rhs_view(s0)[p], ta, g, n) by {
                            assert(rhs_view(s0)[p] == s0[p]@);
                        }
                        lemma_segs_grow(done, rhs_view(s0), ta, g, terminals@, g, n);
                        assert forall|p: int| 0 <= p < done.len() implies #[trigger] seg_rules(done[p], syms@[p]@, terminals@, g, n) by {
                            assert(syms@[p] == s0[p]);
                            assert(seg_rules(done[p], rhs_view(s0)[p], terminals@, g, n));
                        }
                        done = done + flush_seg(run0);
                        if run0.len() > 0 {
                            assert(sym_fits(done[done.len() - 1], syms@[done.len() - 1]@, terminals@));
                        }
                        lemma_terms_grow_trans(t0, ta, terminals@);
                    }
                    let sym = if q.len() == 0 {
                        clone_sym(name)
                    } else {
                        if *aux == usize::MAX {
                            proof {
                                assert(tv[i as int] == tok_view(*tok));
                                assert(toks_need(tv, n, i + 1) == toks_need(tv, n, i as int) + 1);
                                lemma_toks_need_mono(tv, n, i + 1, tv.len() as int);
                            }
                            return Err(GbnfError::TooManyRules);
                        }
                        let ghost g1 = *g;
                        let ghost a0 = *aux;
                        let s = make_quant_aux(name, q, g, aux);
                        proof {
                            lemma_grows_trans(&g0, &g1, g);
                            assert(rep_name(s@)) by {
                                assert(s@ == seq!['_', '_', 'r', 'e', 'p'] + decimal(a0 as nat));
                            }
                            assert forall|p: int| 0 <= p < done.len() implies #[trigger] seg_rules(done[p], rhs_view(syms@)[p], terminals@, &g1, n) by {
                                assert(rhs_view(syms@)[p] == syms@[p]@);
                            }
                            lemma_segs_grow(done, rhs_view(syms@), terminals@, &g1, terminals@, g, n);
                            assert forall|p: int| 0 <= p < done.len() implies #[trigger] seg_rules(done[p], syms@[p]@, terminals@, g, n) by {
                                assert(seg_rules(done[p], rhs_view(syms@)[p], terminals@, g, n));
                            }
                            assert(tok_shape(*tok, n));
                            assert(quant_in(g, s@, name@, q@));
                        }
                        s
                    };
                    let ghost s1 = syms@;
                    syms.push(sym);
                    proof {
                        let seg = Seg::Name(name@, q@);
                        assert(sym_fits(seg, sym@, terminals@));
                        assert(seg_rules(seg, sym@, terminals@, g, n));
                        assert forall|p: int| 0 <= p < done.len() implies #[trigger] sym_fits(done[p], syms@[p]@, terminals@) by {
                            assert(syms@[p] == s1[p]);
                        }
                        assert forall|p: int| 0 <= p < done.len() implies #[trigger] seg_rules(done[p], syms@[p]@, terminals@, g, n) by {
                            assert(syms@[p] == s1[p]);
                        }
                        done = done.push(seg);
                        assert(toks_view(term_run@) =~= Seq::<(TokKind, Seq<char>, Seq<char>)>::empty());
                    }
                },
                Tok::Group(text, q) => {
                    let ghost ta = terminals@;
                    let ghost s0 = syms@;
                    flush(&mut syms, &mut term_run, terminals);
                    proof {
                        lemma_fits_grow(done, rhs_view(s0), ta, terminals@);
                        assert forall|p: int| 0 <= p < done.len() implies #[trigger] sym_fits(done[p], syms@[p]@, terminals@) by {
                            assert(syms@[p] == s0[p]);
                            assert(sym_fits(done[p], rhs_view(s0)[p], terminals@));
                        }
                        assert forall|p: int| 0 <= p < done.len() implies #[trigger] seg_rules(done[p], rhs_view(s0)[p], ta, g, n) by {
                            assert(rhs_view(s0)[p] == s0[p]@);
                        }
                        lemma_segs_grow(done, rhs_view(s0), ta, g, terminals@, g, n);
                        assert forall|p: int| 0 <= p < done.len() implies #[trigger] seg_rules(done[p], syms@[p]@, terminals@, g, n) by {
                            assert(syms@[p] == s0[p]);
                            assert(seg_rules(done[p], rhs_view(s0)[p], terminals@, g, n));
                        }
                        done = done + flush_seg(run0);
                        if run0.len() > 0 {
                            assert(sym_fits(done[done.len() - 1], syms@[done.len() - 1]@, terminals@));
                        }
                        lemma_terms_grow_trans(t0, ta, terminals@);
                    }
                    if *aux == usize::MAX {
                        proof {
                            assert(tv[i as int] == tok_view(*tok));
                            assert(!terminal_tok(tv[i as int]));
                            assert(toks_need(tv, n, i + 1) >= toks_need(tv, n, i as int) + 1);
                            lemma_toks_need_mono(tv, n, i + 1, tv.len() as int);
                        }
                        return Err(GbnfError::TooManyRules);
                    }
                    let prefix: Vec<char> = vec!['_', '_', 'g', 'r', 'p'];
                    let gname = numbered_name(&prefix, *aux);
                    let ghost a0 = *aux;
                    *aux = *aux + 1;
                    let inner = group_inner(text);
                    let ghost g1 = *g;
                    let ghost tb = terminals@;
                    let ghost ag = *aux;
                    match parse_rhs(&gname, &inner, terminals, g, aux) {
                        Ok(_) => {},
                        Err(e) => {
                            proof {
                                assert(tv[i as int] == tok_view(*tok));
                                assert(!terminal_tok(tv[i as int]));
                                assert(inner@ == inner_of(text@));
                                assert(inner@.len() < n);
                                                                assert(toks_need(tv, n, i + 1) >= toks_need(tv, n, i as int) + 1 + text_need(inner@));
                                lemma_toks_need_mono(tv, n, i + 1, tv.len() as int);
                            }
                            return Err(e);
                        },
                    }
                    proof {
                        lemma_grows_trans(&g0, &g1, g);
                        lemma_fits_grow(done, rhs_view(syms@), tb, terminals@);
                        assert forall|p: int| 0 <= p < done.len() implies #[trigger] sym_fits(done[p], syms@[p]@, terminals@) by {
                            assert(sym_fits(done[p], rhs_view(syms@)[p], terminals@));
                        }
                        assert forall|p: int| 0 <= p < done.len() implies #[trigger] seg_rules(done[p], rhs_view(syms@)[p], tb, &g1, n) by {
                            assert(rhs_view(syms@)[p] == syms@[p]@);
                        }
                        lemma_segs_grow(done, rhs_view(syms@), tb, &g1, terminals@, g, n);
                        assert forall|p: int| 0 <= p < done.len() implies #[trigger] seg_rules(done[p], syms@[p]@, terminals@, g, n) by {
                            assert(seg_rules(done[p], rhs_view(syms@)[p], terminals@, g, n));
                        }
                        lemma_terms_grow_trans(t0, tb, terminals@);
                        assert(grp_name(gname@)) by {
                            assert(gname@ == seq!['_', '_', 'g', 'r', 'p'] + decimal(a0 as nat));
                        }
                        assert(tok_shape(*tok, n));
                        assert(inner@ == inner_of(text@));
                        assert(inner@.len() + 1 <= n);
                        assert forall|b: int| 0 <= b < body_alts(inner_of(text@)).len() implies alt_done(#[trigger] body_alts(inner_of(text@))[b], prods(g, gname@), terminals@, g, (n - 1) as nat) by {
                            lemma_alt_done_grow(body_alts(inner@)[b], prods(g, gname@), terminals@, g, inner@.len(), prods(g, gname@), terminals@, g, (n - 1) as nat);
                        }
                        assert(group_in(g, gname@, inner_of(text@), terminals@, n));
                    }
                    let sym = if q.len() == 0 {
                        gname
                    } else {
                        if *aux == usize::MAX {
                            proof {
                                assert(tv[i as int] == tok_view(*tok));
                                assert(!terminal_tok(tv[i as int]));
                                assert(inner@.len() < n);
                                                                assert(toks_need(tv, n, i + 1) == toks_need(tv, n, i as int) + 2 + text_need(inner@));
                                lemma_toks_need_mono(tv, n, i + 1, tv.len() as int);
                            }
                            return Err(GbnfError::TooManyRules);
                        }
                        let ghost g2 = *g;
                        let ghost a1 = *aux;
                        let s = make_quant_aux(&gname, q, g, aux);
                        proof {
                            lemma_grows_trans(&g0, &g2, g);
                            assert(rep_name(s@)) by {
                                assert(s@ == seq!['_', '_', 'r', 'e', 'p'] + decimal(a1 as nat));
                            }
                            assert forall|p: int| 0 <= p < done.len() implies #[trigger] seg_rules(done[p], rhs_view(syms@)[p], terminals@, &g2, n) by {
                                assert(rhs_view(syms@)[p] == syms@[p]@);
                            }
                            lemma_segs_grow(done, rhs_view(syms@), terminals@, &g2, terminals@, g, n);
                            assert forall|p: int| 0 <= p < done.len() implies #[trigger] seg_rules(done[p], syms@[p]@, terminals@, g, n) by {
                                assert(seg_rules(done[p], rhs_view(syms@)[p], terminals@, g, n));
                            }
                            lemma_group_in_grow(&g2, gname@, inner_of(text@), terminals@, n, g, terminals@, n);
                            assert(quant_in(g, s@, gname@, q@));
                        }
                        s
                    };
                    let ghost s1 = syms@;
                    syms.push(sym);
                    proof {
                        let seg = Seg::Group(text@, q@);
                        assert(sym_fits(seg, sym@, terminals@));
                        assert(grp_name(gname@) && (q@.len() == 0 ==> sym@ == gname@) && (q@.len() > 0 ==> quant_in(g, sym@, gname@, q@)) && group_in(g, gname@, inner_of(text@), terminals@, n));
                        assert(seg_rules(seg, sym@, terminals@, g, n));
                        assert forall|p: int| 0 <= p < done.len() implies #[trigger] sym_fits(done[p], syms@[p]@, terminals@) by {
                            assert(syms@[p] == s1[p]);
                        }
                        assert forall|p: int| 0 <= p < done.len() implies #[trigger] seg_rules(done[p], syms@[p]@, terminals@, g, n) by {
                            assert(syms@[p] == s1[p]);
                        }
                        done = done.push(seg);
                        assert(toks_view(term_run@) =~= Seq::<(TokKind, Seq<char>, Seq<char>)>::empty());
                    }
                },
                _ => {},
            }
        }
        i = i + 1;
    }
    let ghost ta = terminals@;
    let ghost s0 = syms@;
    let ghost run0 = toks_view(term_run@);
    flush(&mut syms, &mut term_run, terminals);
    proof {
        lemma_fits_grow(done, rhs_view(s0), ta, terminals@);
        assert forall|p: int| 0 <= p < done.len() implies #[trigger] sym_fits(done[p], syms@[p]@, terminals@) by {
            assert(syms@[p] == s0[p]);
            assert(sym_fits(done[p], rhs_view(s0)[p], terminals@));
        }
        assert forall|p: int| 0 <= p < done.len() implies #[trigger] seg_rules(done[p], rhs_view(s0)[p], ta, g, n) by {
            assert(rhs_view(s0)[p] == s0[p]@);
        }
        lemma_segs_grow(done, rhs_view(s0), ta, g, terminals@, g, n);
        assert forall|p: int| 0 <= p < done.len() implies #[trigger] seg_rules(done[p], syms@[p]@, terminals@, g, n) by {
            assert(syms@[p] == s0[p]);
            assert(seg_rules(done[p], rhs_view(s0)[p], terminals@, g, n));
        }
        done = done + flush_seg(run0);
        if run0.len() > 0 {
            assert(sym_fits(done[done.len() - 1], syms@[done.len() - 1]@, terminals@));
        }
        lemma_terms_grow_trans(t0, ta, terminals@);
        assert(done == all);
        assert forall|p: int| 0 <= p < all.len() implies #[trigger] sym_fits(all[p], rhs_view(syms@)[p], terminals@) by {
            assert(sym_fits(done[p], syms@[p]@, terminals@));
        }
        assert forall|p: int| 0 <= p < all.len() implies #[trigger] seg_rules(all[p], rhs_view(syms@)[p], terminals@, g, n) by {
            assert(seg_rules(done[p], syms@[p]@, terminals@, g, n));
        }
    }
    Ok(syms)
}

/// How many auxiliary rule numbers the first `k` tokens of `ts` take: one
/// for a quantified name; for a group that is not all terminal, one for its
/// own rule, one more when quantified, and what its inside takes. `bound` is a length that every
/// group text stays within.
pub open spec fn toks_need(ts: Seq<(TokKind, Seq<char>, Seq<char>)>, bound: nat, k: int) -> nat
    decreases bound, 0nat, k,
{
    if k <= 0 || k > ts.len() {
        0
    } else {
        let t = ts[k - 1];
        let here: nat = if t.0 is Nt {
            if t.2.len() > 0 { 1 } else { 0 }
        } else if t.0 is Group && !terminal_tok(t) {
            let inner = inner_of(t.1);
            1 + (if t.2.len() > 0 { 1nat } else { 0nat }) + (if inner.len() < bound { text_need(inner) } else { 0 })
        } else {
            0
        };
        toks_need(ts, bound, k - 1) + here
    }
}

/// How many auxiliary rule numbers reading the rule body `rhs` takes.
pub open spec fn text_need(rhs: Seq<char>) -> nat
    decreases rhs.len(), 1nat, 0int,
{
    toks_need(lex(rhs, 0), rhs.len(), lex(rhs, 0).len() as int)
}

/// What the first `a` alternatives take together.
pub open spec fn alts_need(alts: Seq<Seq<(TokKind, Seq<char>, Seq<char>)>>, bound: nat, a: int) -> nat
    decreases a,
{
    if a <= 0 || a > alts.len() {
        0
    } else {
        alts_need(alts, bound, a - 1) + toks_need(alts[a - 1], bound, alts[a - 1].len() as int)
    }
}

proof fn lemma_toks_need_mono(ts: Seq<(TokKind, Seq<char>, Seq<char>)>, bound: nat, i: int, j: int)
    requires
        0 <= i <= j <= ts.len(),
    ensures
        toks_need(ts, bound, i) <= toks_need(ts, bound, j),
    decreases j - i,
{
    if i < j {
        lemma_toks_need_mono(ts, bound, i, j - 1);
    }
}

proof fn lemma_alts_need_mono(alts: Seq<Seq<(TokKind, Seq<char>, Seq<char>)>>, bound: nat, a: int, b: int)
    requires
        0 <= a <= b <= alts.len(),
    ensures
        alts_need(alts, bound, a) <= alts_need(alts, bound, b),
    decreases b - a,
{
    if a < b {
        lemma_alts_need_mono(alts, bound, a, b - 1);
    }
}

proof fn lemma_toks_need_prefix(ts: Seq<(TokKind, Seq<char>, Seq<char>)>, us: Seq<(TokKind, Seq<char>, Seq<char>)>, bound: nat, k: int)
    requires
        0 <= k <= ts.len(),
        k <= us.len(),
        ts.take(k) == us.take(k),
    ensures
        toks_need(ts, bound, k) == toks_need(us, bound, k),
    decreases k,
{
    if k > 0 {
        assert(ts[k - 1] == ts.take(k)[k - 1]);
        assert(us[k - 1] == us.take(k)[k - 1]);
        assert(ts.take(k - 1) =~= ts.take(k).take(k - 1));
        assert(us.take(k - 1) =~= us.take(k).take(k - 1));
        lemma_toks_need_prefix(ts, us, bound, k - 1);
    }
}

proof fn lemma_alts_need_prefix(xs: Seq<Seq<(TokKind, Seq<char>, Seq<char>)>>, ys: Seq<Seq<(TokKind, Seq<char>, Seq<char>)>>, bound: nat, a: int)
    requires
        0 <= a <= xs.len(),
        a <= ys.len(),
        forall|b: int| 0 <= b < a ==> xs[b] == ys[b],
    ensures
        alts_need(xs, bound, a) == alts_need(ys, bound, a),
    decreases a,
{
    if a > 0 {
        lemma_alts_need_prefix(xs, ys, bound, a - 1);
    }
}

/// Splitting the tokens into alternatives keeps what they take.
proof fn lemma_alts_need(tv: Seq<(TokKind, Seq<char>, Seq<char>)>, bound: nat, k: int)
    requires
        0 <= k <= tv.len(),
    ensures
        alts_need(alts_upto(tv, k), bound, alts_upto(tv, k).len() as int) == toks_need(tv, bound, k),
        alts_upto(tv, k).len() >= 1,
    decreases k,
{
    if k == 0 {
        let z = seq![Seq::<(TokKind, Seq<char>, Seq<char>)>::empty()];
        assert(alts_upto(tv, 0) == z);
        assert(alts_need(z, bound, 1) == alts_need(z, bound, 0) + toks_need(z[0], bound, 0));
        assert(toks_need(tv, bound, 0) == 0);
    } else {
        lemma_alts_need(tv, bound, k - 1);
        let a = alts_upto(tv, k - 1);
        let n = a.len() as int;
        assert(toks_need(tv, bound, k) == toks_need(tv, bound, k - 1) + (toks_need(tv, bound, k) - toks_need(tv, bound, k - 1)));
        if tv[k - 1].0 is Alt {
            let b = a.push(Seq::empty());
            assert(alts_upto(tv, k) == b);
            lemma_alts_need_prefix(b, a, bound, n);
            assert(alts_need(b, bound, n + 1) == alts_need(b, bound, n) + toks_need(b[n], bound, b[n].len() as int));
            assert(toks_need(tv, bound, k) == toks_need(tv, bound, k - 1));
            assert(alts_need(b, bound, b.len() as int) == toks_need(tv, bound, k));
        } else {
            let last = a.last();
            let x = last.push(tv[k - 1]);
            let b = a.update(n - 1, x);
            assert(alts_upto(tv, k) == b);
            assert(b.len() == n);
            lemma_alts_need_prefix(b, a, bound, n - 1);
            assert(x.take(last.len() as int) =~= last.take(last.len() as int));
            lemma_toks_need_prefix(x, last, bound, last.len() as int);
            assert(x[x.len() - 1] == tv[k - 1]);
            assert(alts_need(b, bound, n) == alts_need(b, bound, n - 1) + toks_need(x, bound, x.len() as int));
            assert(alts_need(a, bound, n) == alts_need(a, bound, n - 1) + toks_need(last, bound, last.len() as int));
            assert(toks_need(x, bound, x.len() as int) == toks_need(x, bound, last.len() as int) + (toks_need(tv, bound, k) - toks_need(tv, bound, k - 1)));
            assert(alts_need(b, bound, b.len() as int) == toks_need(tv, bound, k));
        }
    }
}

/// The alternatives of the first `k` tokens: split at `|`.
pub open spec fn alts_upto(tv: Seq<(TokKind, Seq<char>, Seq<char>)>, k: int) -> Seq<Seq<(TokKind, Seq<char>, Seq<char>)>>
    decreases k,
{
    if k <= 0 {
        seq![Seq::empty()]
    } else {
        let a = alts_upto(tv, k - 1);
        if tv[k - 1].0 is Alt {
            a.push(Seq::empty())
        } else {
            a.update(a.len() - 1, a.last().push(tv[k - 1]))
        }
    }
}

proof fn lemma_alts_upto_len(tv: Seq<(TokKind, Seq<char>, Seq<char>)>, k: int)
    ensures
        alts_upto(tv, k).len() >= 1,
    decreases k,
{
    if k > 0 {
        lemma_alts_upto_len(tv, k - 1);
    }
}

/// The productions a quantified symbol's rule has: `*` gives the empty
/// production and `base name`, `+` gives `base` and `base name`, `?`
/// gives the empty production and `base`.
pub open spec fn quant_in(g: &Grammar, name: Seq<char>, base: Seq<char>, q: Seq<char>) -> bool {
    let ps = prods(g, name);
    if q == seq!['*'] {
        ps.contains(Seq::empty()) && ps.contains(seq![base, name])
    } else if q == seq!['+'] {
        ps.contains(seq![base]) && ps.contains(seq![base, name])
    } else if q == seq!['?'] {
        ps.contains(Seq::empty()) && ps.contains(seq![base])
    } else {
        true
    }
}

/// The text between a group's parentheses.
pub open spec fn inner_of(text: Seq<char>) -> Seq<char> {
    if text.len() >= 2 {
        text.subrange(1, text.len() - 1)
    } else {
        Seq::empty()
    }
}

/// The alternatives of a body, as lexed pieces.
pub open spec fn body_alts(body: Seq<char>) -> Seq<Seq<(TokKind, Seq<char>, Seq<char>)>> {
    alts_upto(lex(body, 0), lex(body, 0).len() as int)
}

/// The rules behind the symbol of a piece are in `g`: a quantified name
/// or group has its repetition rule, and a group has a `__grp` rule with a
/// production for each alternative inside it (groups nested at most `n`
/// deep).
pub open spec fn seg_rules(seg: Seg, sym: Seq<char>, terms: Map<Seq<char>, Vec<char>>, g: &Grammar, n: nat) -> bool
    decreases n, 1nat,
{
    match seg {
        Seg::Run(_) => true,
        Seg::Name(x, q) => q.len() == 0 || quant_in(g, sym, x, q),
        Seg::Group(text, q) => exists|base: Seq<char>| #[trigger] grp_name(base) && (q.len() == 0 ==> sym == base) && (q.len() > 0 ==> quant_in(g, sym, base, q)) && group_in(g, base, inner_of(text), terms, n),
    }
}

/// Rule `base` has a production for each alternative of `body`.
pub open spec fn group_in(g: &Grammar, base: Seq<char>, body: Seq<char>, terms: Map<Seq<char>, Vec<char>>, n: nat) -> bool
    decreases n, 0nat,
{
    n > 0 && forall|b: int| 0 <= b < body_alts(body).len() ==> alt_done(#[trigger] body_alts(body)[b], prods(g, base), terms, g, (n - 1) as nat)
}

/// Alternative `alt` has its production among `ps`: the empty production
/// for an empty alternative, otherwise one whose symbols are those of
/// its pieces, with the rules behind them in `g`.
pub open spec fn alt_done(alt: Seq<(TokKind, Seq<char>, Seq<char>)>, ps: Set<Seq<Seq<char>>>, terms: Map<Seq<char>, Vec<char>>, g: &Grammar, n: nat) -> bool
    decreases n, 2nat,
{
    if alt.len() == 0 {
        ps.contains(Seq::empty())
    } else {
        exists|rr: Seq<Seq<char>>| #[trigger] ps.contains(rr) && alt_fits(alt, rr, terms) && forall|p: int| 0 <= p < segs_from(alt, 0, Seq::empty()).len() ==> seg_rules(#[trigger] segs_from(alt, 0, Seq::empty())[p], rr[p], terms, g, n)
    }
}

proof fn lemma_quant_grow(g1: &Grammar, g2: &Grammar, name: Seq<char>, base: Seq<char>, q: Seq<char>)
    requires
        quant_in(g1, name, base, q),
        grows(g1, g2),
    ensures
        quant_in(g2, name, base, q),
{
    assert(prods(g1, name).subset_of(prods(g2, name)));
}

proof fn lemma_seg_rules_grow(seg: Seg, sym: Seq<char>, t1: Map<Seq<char>, Vec<char>>, g1: &Grammar, n1: nat, t2: Map<Seq<char>, Vec<char>>, g2: &Grammar, n2: nat)
    requires
        seg_rules(seg, sym, t1, g1, n1),
        grows(g1, g2),
        terms_grow(t1, t2),
        n1 <= n2,
    ensures
        seg_rules(seg, sym, t2, g2, n2),
    decreases n1, 1nat,
{
    match seg {
        Seg::Run(_) => {},
        Seg::Name(x, q) => {
            if q.len() > 0 {
                lemma_quant_grow(g1, g2, sym, x, q);
            }
        },
        Seg::Group(text, q) => {
            let base = choose|base: Seq<char>| #[trigger] grp_name(base) && (q.len() == 0 ==> sym == base) && (q.len() > 0 ==> quant_in(g1, sym, base, q)) && group_in(g1, base, inner_of(text), t1, n1);
            if q.len() > 0 {
                lemma_quant_grow(g1, g2, sym, base, q);
            }
            lemma_group_in_grow(g1, base, inner_of(text), t1, n1, g2, t2, n2);
        },
    }
}

proof fn lemma_group_in_grow(g1: &Grammar, base: Seq<char>, body: Seq<char>, t1: Map<Seq<char>, Vec<char>>, n1: nat, g2: &Grammar, t2: Map<Seq<char>, Vec<char>>, n2: nat)
    requires
        group_in(g1, base, body, t1, n1),
        grows(g1, g2),
        terms_grow(t1, t2),
        n1 <= n2,
    ensures
        group_in(g2, base, body, t2, n2),
    decreases n1, 0nat,
{
    assert(prods(g1, base).subset_of(prods(g2, base)));
    assert forall|b: int| 0 <= b < body_alts(body).len() implies alt_done(#[trigger] body_alts(body)[b], prods(g2, base), t2, g2, (n2 - 1) as nat) by {
        lemma_alt_done_grow(body_alts(body)[b], prods(g1, base), t1, g1, (n1 - 1) as nat, prods(g2, base), t2, g2, (n2 - 1) as nat);
    }
}

proof fn lemma_alt_done_grow(alt: Seq<(TokKind, Seq<char>, Seq<char>)>, ps: Set<Seq<Seq<char>>>, terms: Map<Seq<char>, Vec<char>>, g1: &Grammar, n1: nat, ps2: Set<Seq<Seq<char>>>, terms2: Map<Seq<char>, Vec<char>>, g2: &Grammar, n2: nat)
    requires
        alt_done(alt, ps, terms, g1, n1),
        ps.subset_of(ps2),
        terms_grow(terms, terms2),
        grows(g1, g2),
        n1 <= n2,
    ensures
        alt_done(alt, ps2, terms2, g2, n2),
    decreases n1, 2nat,
{
    if alt.len() > 0 {
        let segs = segs_from(alt, 0, Seq::empty());
        let rr = choose|rr: Seq<Seq<char>>| #[trigger] ps.contains(rr) && alt_fits(alt, rr, terms) && forall|p: int| 0 <= p < segs.len() ==> seg_rules(#[trigger] segs[p], rr[p], terms, g1, n1);
        lemma_fits_grow(segs, rr, terms, terms2);
        assert forall|p: int| 0 <= p < segs.len() implies seg_rules(#[trigger] segs[p], rr[p], terms2, g2, n2) by {
            lemma_seg_rules_grow(segs[p], rr[p], terms, g1, n1, terms2, g2, n2);
        }
        assert(ps2.contains(rr));
    }
}

/// Every piece of `segs` keeps its rules as the tables grow.
proof fn lemma_segs_grow(segs: Seq<Seg>, syms: Seq<Seq<char>>, t1: Map<Seq<char>, Vec<char>>, g1: &Grammar, t2: Map<Seq<char>, Vec<char>>, g2: &Grammar, n: nat)
    requires
        syms.len() >= segs.len(),
        forall|p: int| 0 <= p < segs.len() ==> #[trigger] seg_rules(segs[p], syms[p], t1, g1, n),
        grows(g1, g2),
        terms_grow(t1, t2),
    ensures
        forall|p: int| 0 <= p < segs.len() ==> #[trigger] seg_rules(segs[p], syms[p], t2, g2, n),
{
    assert forall|p: int| 0 <= p < segs.len() implies #[trigger] seg_rules(segs[p], syms[p], t2, g2, n) by {
        lemma_seg_rules_grow(segs[p], syms[p], t1, g1, n, t2, g2, n);
    }
}

/// Adds the productions of rule `lhs ::= rhs` to the grammar: one per
/// alternative, an empty alternative giving the empty production.
pub fn parse_rhs(lhs: &Vec<char>, rhs: &Vec<char>, terminals: &mut SymMap<Vec<char>>, g: &mut Grammar, aux: &mut usize) -> (r: Result<(), GbnfError>)
    requires
        tables_wf(old(terminals), old(g)),
    ensures
        tables_wf(final(terminals), final(g)),
        r is Ok ==> grows(old(g), final(g)),
        r is Ok ==> final(g)@.contains_key(lhs@),
        r is Ok ==> terms_grow(old(terminals)@, final(terminals)@),
        r is Ok ==> ({
            let alts = alts_upto(lex(rhs@, 0), lex(rhs@, 0).len() as int);
            forall|b: int| 0 <= b < alts.len() ==> #[trigger] alt_done(alts[b], prods(final(g), lhs@), final(terminals)@, final(g), rhs@.len())
        }),
        r matches Err(e) ==> e is TooManyRules,
        r is Ok ==> *final(aux) == *old(aux) + text_need(rhs@),
        r is Err ==> *old(aux) + text_need(rhs@) > usize::MAX,
    decreases rhs@.len(), 1nat,
{
    let ghost a_in = *aux;
    let tokens = tokenize(rhs);
    let ghost tv = toks_view(tokens@);
    let mut alts: Vec<Vec<Tok>> = Vec::new();
    alts.push(Vec::new());
    let mut k: usize = 0;
    proof {
        assert(toks_view(alts@[0]@) =~= Seq::<(TokKind, Seq<char>, Seq<char>)>::empty());
        assert(alts@.map_values(|v: Vec<Tok>| toks_view(v@)) =~= alts_upto(tv, 0));
    }
    while k < tokens.len()
        invariant
            k <= tokens.len(),
            alts.len() >= 1,
            tv == toks_view(tokens@),
            a_in == *old(aux),
            *aux == a_in,
            alts@.map_values(|v: Vec<Tok>| toks_view(v@)) == alts_upto(tv, k as int),
            forall|m: int| 0 <= m < tokens.len() ==> tok_shape(#[trigger] tokens@[m], rhs@.len()),
            forall|a: int, m: int| 0 <= a < alts.len() && 0 <= m < alts@[a].len() ==> tok_shape(#[trigger] alts@[a]@[m], rhs@.len()),
        decreases tokens.len() - k,
    {
        let t = clone_tok(&tokens[k]);
        assert(tok_shape(tokens@[k as int], rhs@.len()));
        assert(tok_view(t) == tv[k as int]);
        let ghost a0 = alts@;
        let is_alt = match &t {
            Tok::Alt => true,
            _ => false,
        };
        if is_alt {
            alts.push(Vec::new());
            proof {
                assert(toks_view(alts@[alts.len() - 1]@) =~= Seq::<(TokKind, Seq<char>, Seq<char>)>::empty());
                assert(alts@.map_values(|v: Vec<Tok>| toks_view(v@)) =~= a0.map_values(|v: Vec<Tok>| toks_view(v@)).push(Seq::empty()));
            }
        } else {
            let last = alts.len() - 1;
            let mut cur: Vec<Tok> = Vec::new();
            std::mem::swap(&mut cur, &mut alts[last]);
            let ghost c0 = cur@;
            cur.push(t);
            std::mem::swap(&mut cur, &mut alts[last]);
            proof {
                assert(toks_view(alts@[last as int]@) =~= toks_view(c0).push(tv[k as int]));
                assert(alts@.map_values(|v: Vec<Tok>| toks_view(v@)) =~= a0.map_values(|v: Vec<Tok>| toks_view(v@)).update(last as int, toks_view(c0).push(tv[k as int])));
            }
        }
        proof {
            assert forall|a: int, m: int| 0 <= a < alts.len() && 0 <= m < alts@[a].len() implies tok_shape(#[trigger] alts@[a]@[m], rhs@.len()) by {
                if a < a0.len() && !(a == a0.len() - 1 && !is_alt && m == alts@[a].len() - 1) {
                    assert(alts@[a]@[m] == a0[a]@[m]);
                }
            }
        }
        k = k + 1;
    }
    let ghost av = alts@.map_values(|v: Vec<Tok>| toks_view(v@));
    let ghost g0 = *g;
    let ghost t0 = terminals@;
    ensure_key(g, lhs);
    proof {
        assert forall|x: Seq<char>| #[trigger] prods(&g0, x).subset_of(prods(g, x)) by {}
    }
    let mut a: usize = 0;
    while a < alts.len()
        invariant
            a <= alts.len(),
            tables_wf(terminals, g),
            grows(&g0, g),
            g@.contains_key(lhs@),
            *aux == a_in + alts_need(av, rhs@.len() as nat, a as int),
            a_in == *old(aux),
            tv == lex(rhs@, 0),
            av == alts_upto(tv, tv.len() as int),
            tv.len() == tokens.len(),
            terms_grow(t0, terminals@),
            av == alts@.map_values(|v: Vec<Tok>| toks_view(v@)),
            forall|b: int| 0 <= b < a ==> #[trigger] alt_done(av[b], prods(g, lhs@), terminals@, g, rhs@.len()),
            forall|b: int, m: int| 0 <= b < alts.len() && 0 <= m < alts@[b].len() ==> tok_shape(#[trigger] alts@[b]@[m], rhs@.len()),
        decreases alts.len() - a,
    {
        let ghost g1 = *g;
        let ghost t1 = terminals@;
        if alts[a].len() == 0 {
            sdict_add(g, lhs, Vec::new());
            proof {
                assert(rhs_view(Seq::<Vec<char>>::empty()) =~= Seq::<Seq<char>>::empty());
                assert(av[a as int].len() == 0);
                assert(prods(&g1, lhs@).subset_of(prods(g, lhs@)));
            }
        } else {
            let ghost ab = *aux;
            let r = match process_alt(&alts[a], terminals, g, aux, Ghost(rhs@.len())) {
                Ok(r) => r,
                Err(e) => {
                    proof {
                        assert(toks_view(alts@[a as int]@) == av[a as int]);
                        assert(alts_need(av, rhs@.len() as nat, a + 1) == alts_need(av, rhs@.len() as nat, a as int) + toks_need(av[a as int], rhs@.len() as nat, av[a as int].len() as int));
                        lemma_alts_need_mono(av, rhs@.len() as nat, a + 1, av.len() as int);
                        lemma_alts_need(tv, rhs@.len() as nat, tv.len() as int);
                        assert(tv.len() == tokens.len());
                                                assert(text_need(rhs@) == toks_need(tv, rhs@.len() as nat, tv.len() as int));
                        assert(alts@[a as int].len() == av[a as int].len());
                        assert(ab == a_in + alts_need(av, rhs@.len() as nat, a as int));
                        assert(ab + toks_need(toks_view(alts@[a as int]@), rhs@.len() as nat, alts@[a as int].len() as int) > usize::MAX);
                        assert(a_in + alts_need(av, rhs@.len() as nat, a + 1) > usize::MAX);
                        assert(alts_need(av, rhs@.len() as nat, av.len() as int) == toks_need(tv, rhs@.len() as nat, tv.len() as int));
                        assert(a_in + text_need(rhs@) > usize::MAX);
                    }
                    return Err(e);
                },
            };
            let ghost g2 = *g;
            proof { lemma_grows_trans(&g0, &g1, &g2); }
            sdict_add(g, lhs, r);
            proof {
                assert forall|x: Seq<char>| #[trigger] prods(&g2, x).subset_of(prods(g, x)) by {}
                lemma_grows_trans(&g0, &g2, g);
                assert(prods(g, lhs@).contains(rhs_view(r@)));
                let segs = segs_from(av[a as int], 0, Seq::empty());
                assert(toks_view(alts@[a as int]@) == av[a as int]);
                assert(alt_fits(av[a as int], rhs_view(r@), terminals@));
                assert forall|p: int| 0 <= p < segs.len() implies #[trigger] seg_rules(segs[p], rhs_view(r@)[p], terminals@, &g2, rhs@.len()) by {}
                lemma_segs_grow(segs, rhs_view(r@), terminals@, &g2, terminals@, g, rhs@.len());
                assert forall|p: int| 0 <= p < segs.len() implies seg_rules(#[trigger] segs[p], rhs_view(r@)[p], terminals@, g, rhs@.len()) by {
                    assert(seg_rules(segs[p], rhs_view(r@)[p], terminals@, g, rhs@.len()));
                }
                assert(alt_done(av[a as int], prods(g, lhs@), terminals@, g, rhs@.len()));
                assert(prods(&g1, lhs@).subset_of(prods(&g2, lhs@)));
                assert(prods(&g1, lhs@).subset_of(prods(g, lhs@)));
            }
        }
        proof {
            assert forall|x: Seq<char>| #[trigger] prods(&g0, x).subset_of(prods(g, x)) by {
                assert(prods(&g0, x).subset_of(prods(&g1, x)));
            }
            assert(prods(&g1, lhs@).subset_of(prods(g, lhs@)));
            assert forall|b: int| 0 <= b < a + 1 implies #[trigger] alt_done(av[b], prods(g, lhs@), terminals@, g, rhs@.len()) by {
                if b < a {
                    lemma_grows_trans(&g1, &g1, g);
                    lemma_alt_done_grow(av[b], prods(&g1, lhs@), t1, &g1, rhs@.len(), prods(g, lhs@), terminals@, g, rhs@.len());
                }
            }
            lemma_terms_grow_trans(t0, t1, terminals@);
        }
        a = a + 1;
    }
    proof {
        lemma_alts_need(tv, rhs@.len() as nat, tv.len() as int);
            }
    Ok(())
}

/// The lines of GBNF text that hold something: each without its comment
/// and trimmed, the empty ones left out.
pub open spec fn kept_lines(ls: Seq<Seq<char>>) -> Seq<Seq<char>>
    decreases ls.len(),
{
    if ls.len() == 0 {
        Seq::empty()
    } else {
        let t = trimmed(uncommented(ls.last()));
        if t.len() > 0 {
            kept_lines(ls.drop_last()).push(t)
        } else {
            kept_lines(ls.drop_last())
        }
    }
}

/// The rule lines of GBNF text: its kept lines, continuation lines joined.
pub open spec fn rule_lines(gbnf: Seq<char>) -> Seq<Seq<char>> {
    line_groups(kept_lines(lines_from(gbnf, 0)), 0, 0, (0, false, false, false))
}

/// The separator between a rule's name and its body.
pub open spec fn rule_sep() -> Seq<char> {
    seq![' ', ':', ':', '=', ' ']
}

/// The line holds the separator.
pub open spec fn has_sep(line: Seq<char>) -> bool {
    exists|k: int| #[trigger] occurs_at(line, rule_sep(), k)
}

/// Where the first separator on a line starts.
pub open spec fn first_sep(line: Seq<char>) -> int {
    choose|k: int| #[trigger] occurs_at(line, rule_sep(), k) && forall|j: int| 0 <= j < k ==> !occurs_at(line, rule_sep(), j)
}

/// The name of the rule on a line: the text before the first separator,
/// trimmed.
pub open spec fn rule_lhs(line: Seq<char>) -> Seq<char> {
    trimmed(line.take(first_sep(line)))
}

/// The body of the rule on a line: the text after the first separator,
/// trimmed.
pub open spec fn rule_rhs(line: Seq<char>) -> Seq<char> {
    trimmed(line.skip(first_sep(line) + 5))
}

/// The alternatives of the body of the rule on a line, as lexed pieces.
pub open spec fn rule_alts(line: Seq<char>) -> Seq<Seq<(TokKind, Seq<char>, Seq<char>)>> {
    alts_upto(lex(rule_rhs(line), 0), lex(rule_rhs(line), 0).len() as int)
}

/// Every alternative of every rule line of `gbnf` has a production of its
/// rule in `g`, whose symbols fit the alternative's pieces under the
/// terminal table `terms` (pattern to label), with the rules behind its
/// quantified names and its groups in `g` as well.
pub open spec fn reads_as(gbnf: Seq<char>, terms: Map<Seq<char>, Vec<char>>, g: &Grammar) -> bool {
    forall|i: int, b: int| 0 <= i < rule_lines(gbnf).len() && 0 <= b < rule_alts(rule_lines(gbnf)[i]).len() ==> #[trigger] alt_done(rule_alts(rule_lines(gbnf)[i])[b], prods(g, rule_lhs(rule_lines(gbnf)[i])), terms, g, rule_rhs(rule_lines(gbnf)[i]).len())
}

/// `t` maps the label of each pattern of `terms` (but the placeholder
/// `""`) to the pattern's regular expression, and holds nothing else;
/// labels are distinct.
pub open spec fn table_of(terms: Map<Seq<char>, Vec<char>>, t: &SymMap<Vec<char>>) -> bool {
    &&& terms.contains_key(empty_lit())
    &&& terms[empty_lit()]@ == empty_lit()
    &&& forall|p: Seq<char>| #[trigger] terms.contains_key(p) && p != empty_lit() ==> t@.contains_key(terms[p]@) && body_regex(p) == Ok::<Seq<char>, Seq<char>>(t@[terms[p]@]@)
    &&& forall|l: Seq<char>| #[trigger] t@.contains_key(l) ==> exists|p: Seq<char>| #[trigger] terms.contains_key(p) && p != empty_lit() && terms[p]@ == l
    &&& forall|p1: Seq<char>, p2: Seq<char>| #[trigger] terms.contains_key(p1) && #[trigger] terms.contains_key(p2) && p1 != p2 ==> terms[p1]@ != terms[p2]@
}

/// Splits a rule line at its first separator into its name and its
/// body, each trimmed; `None` when the line has no separator.
fn split_rule(line: &Vec<char>) -> (r: Option<(Vec<char>, Vec<char>)>)
    ensures
        r is Some <==> has_sep(line@),
        r matches Some((l, b)) ==> l@ == rule_lhs(line@) && b@ == rule_rhs(line@),
{
    let sep: Vec<char> = vec![' ', ':', ':', '=', ' '];
    assert(sep@ =~= rule_sep());
    match find_piece(line, &sep) {
        Some(p) => {
            assert(crate::text::occurs_at(line@, sep@, p as int));
            assert(p + 5 <= line@.len());
            assert(line@.len() == line.len());
            let l = slice(line, 0, p);
            let rr = slice(line, p + 5, line.len());
            proof {
                assert(has_sep(line@));
                let k = choose|k: int| #[trigger] occurs_at(line@, rule_sep(), k) && forall|j: int| 0 <= j < k ==> !occurs_at(line@, rule_sep(), j);
                if k < p {
                    assert(!occurs_at(line@, sep@, k));
                } else if k > p {
                    assert(!occurs_at(line@, rule_sep(), p as int));
                }
                assert(first_sep(line@) == p);
                assert(l@ =~= line@.take(p as int));
                assert(rr@ =~= line@.skip(p + 5));
            }
            Some((trim(&l), trim(&rr)))
        },
        None => {
            proof {
                if has_sep(line@) {
                    let k = choose|k: int| #[trigger] occurs_at(line@, rule_sep(), k);
                    assert(occurs_at(line@, sep@, k));
                }
            }
            None
        },
    }
}

/// Reads a GBNF grammar: the terminal table, label to regular expression,
/// and the productions. Comments are stripped, continuation lines joined,
/// and every line must be of the form `name ::= body`: the first rule
/// line without the separator is the error; otherwise every rule's name
/// has a rule in the grammar, every alternative of its body a production
/// there (see [`reads_as`]), and the table gives each terminal label the
/// regular expression of its pattern.
/// The name and body of each rule line, the first line without the
/// separator as the error.
#[verifier::rlimit(30)]
fn rule_parts(gbnf: &Vec<char>) -> (r: Result<(Vec<Vec<char>>, Vec<Vec<char>>), GbnfError>)
    ensures
        r matches Ok((l, b)) ==> l.len() == rule_lines(gbnf@).len() && b.len() == l.len() && forall|j: int| 0 <= j < rule_lines(gbnf@).len() ==> has_sep(#[trigger] rule_lines(gbnf@)[j]) && l@[j]@ == rule_lhs(rule_lines(gbnf@)[j]) && b@[j]@ == rule_rhs(rule_lines(gbnf@)[j]),
        r is Err ==> r->Err_0 is InvalidRule,
        r matches Err(GbnfError::InvalidRule(l)) ==> exists|i: int| 0 <= i < rule_lines(gbnf@).len() && l@ == #[trigger] rule_lines(gbnf@)[i] && !has_sep(rule_lines(gbnf@)[i]) && forall|j: int| 0 <= j < i ==> has_sep(rule_lines(gbnf@)[j]),
{
    let all = split_lines(gbnf);
    let ghost av = all@.map_values(|v: Vec<char>| v@);
    let mut raw: Vec<Vec<char>> = Vec::new();
    let mut i: usize = 0;
    assert(av.take(0) =~= Seq::<Seq<char>>::empty());
    assert(raw@.map_values(|v: Vec<char>| v@) =~= Seq::<Seq<char>>::empty());
    while i < all.len()
        invariant
            i <= all.len(),
            av == all@.map_values(|v: Vec<char>| v@),
            raw@.map_values(|v: Vec<char>| v@) == kept_lines(av.take(i as int)),
        decreases all.len() - i,
    {
        let stripped = strip_comment(&all[i]);
        let s = trim(&stripped);
        proof {
            assert(av.take(i + 1).drop_last() =~= av.take(i as int));
            assert(av.take(i + 1).last() == all@[i as int]@);
        }
        let ghost r0 = raw@;
        if s.len() > 0 {
            raw.push(s);
            proof {
                assert(raw@.map_values(|v: Vec<char>| v@) =~= r0.map_values(|v: Vec<char>| v@).push(s@));
            }
        }
        i = i + 1;
    }
    assert(av.take(all.len() as int) =~= av);
    let lines = join_lines(raw);
    let ghost rl = rule_lines(gbnf@);
    assert(lines@.map_values(|v: Vec<char>| v@) == rl);
    let mut lhss: Vec<Vec<char>> = Vec::new();
    let mut rhss: Vec<Vec<char>> = Vec::new();
    let mut i: usize = 0;
    while i < lines.len()
        invariant
            i <= lines.len(),
            lhss.len() == rhss.len(),
            lhss.len() == i,
            rl == rule_lines(gbnf@),
            lines@.map_values(|v: Vec<char>| v@) == rl,
            forall|j: int| 0 <= j < i ==> has_sep(#[trigger] rl[j]) && lhss@[j]@ == rule_lhs(rl[j]) && rhss@[j]@ == rule_rhs(rl[j]),
        decreases lines.len() - i,
    {
        let line = &lines[i];
        assert(rl[i as int] == line@);
        match split_rule(line) {
            Some((l, rr)) => {
                let ghost l0 = lhss@;
                let ghost r0 = rhss@;
                lhss.push(l);
                rhss.push(rr);
                proof {
                    assert forall|j: int| 0 <= j < i + 1 implies has_sep(#[trigger] rl[j]) && lhss@[j]@ == rule_lhs(rl[j]) && rhss@[j]@ == rule_rhs(rl[j]) by {
                        if j < i {
                            assert(lhss@[j] == l0[j]);
                            assert(rhss@[j] == r0[j]);
                        }
                    }
                }
            },
            None => {
                proof {
                    assert(!has_sep(rl[i as int]));
                }
                return Err(GbnfError::InvalidRule(clone_sym(line)));
            },
        }
        i = i + 1;
    }
    assert(lines.len() == rl.len());
    assert(forall|j: int| 0 <= j < rl.len() ==> has_sep(#[trigger] rl[j]));
    Ok((lhss, rhss))
}

pub fn parse_gbnf(gbnf: &Vec<char>) -> (r: Result<(SymMap<Vec<char>>, Grammar), GbnfError>)
    ensures
        r matches Ok((t, g)) ==> t.wf() && grammar_wf(&g),
        r matches Ok((t, g)) ==> forall|i: int| 0 <= i < rule_lines(gbnf@).len() ==> g@.contains_key(rule_lhs(#[trigger] rule_lines(gbnf@)[i])),
        r matches Ok((t, g)) ==> exists|terms: Map<Seq<char>, Vec<char>>| #[trigger] table_of(terms, &t) && reads_as(gbnf@, terms, &g),
        r matches Err(GbnfError::UnrecognizedAtom(a)) ==> exists|terms: Map<Seq<char>, Vec<char>>, g: Grammar, p: Seq<char>| #[trigger] reads_as(gbnf@, terms, &g) && terms.contains_key(p) && p != empty_lit() && #[trigger] body_regex(p) == Err::<Seq<char>, Seq<char>>(a@),
        (exists|i: int| 0 <= i < rule_lines(gbnf@).len() && !has_sep(#[trigger] rule_lines(gbnf@)[i])) <==> r is Err && r->Err_0 is InvalidRule,
        r matches Err(GbnfError::InvalidRule(l)) ==> exists|i: int| 0 <= i < rule_lines(gbnf@).len() && l@ == #[trigger] rule_lines(gbnf@)[i] && !has_sep(rule_lines(gbnf@)[i]) && forall|j: int| 0 <= j < i ==> has_sep(rule_lines(gbnf@)[j]),
        r matches Err(GbnfError::TooManyRules) ==> rules_need(rule_lines(gbnf@), rule_lines(gbnf@).len() as int) > usize::MAX,
{
    let ghost rl = rule_lines(gbnf@);
    let (lhss, rhss) = rule_parts(gbnf)?;
    let (terminals, g) = parse_rules(&lhss, &rhss, Ghost(rl))?;
    let ghost terms = terminals@;
    proof {
        assert forall|i: int, b: int| 0 <= i < rl.len() && 0 <= b < rule_alts(rl[i]).len() implies #[trigger] alt_done(rule_alts(rl[i])[b], prods(&g, rule_lhs(rl[i])), terms, &g, rule_rhs(rl[i]).len()) by {}
        assert(reads_as(gbnf@, terms, &g));
        assert forall|i: int| 0 <= i < rl.len() implies g@.contains_key(rule_lhs(#[trigger] rl[i])) by {
            assert(lhss@[i]@ == rule_lhs(rl[i]));
        }
    }
    let flipped = match label_table(terminals) {
        Ok(t) => t,
        Err(e) => {
            proof {
                let a = e->UnrecognizedAtom_0;
                let p = choose|p: Seq<char>| terms.contains_key(p) && p != empty_lit() && #[trigger] body_regex(p) == Err::<Seq<char>, Seq<char>>(a@);
                assert(reads_as(gbnf@, terms, &g) && terms.contains_key(p) && p != empty_lit() && body_regex(p) == Err::<Seq<char>, Seq<char>>(a@));
            }
            return Err(e);
        },
    };
    let r: Result<(SymMap<Vec<char>>, Grammar), GbnfError> = Ok((flipped, g));
    assert(r matches Ok((t, g)) && table_of(terms, &t) && reads_as(gbnf@, terms, &g));
    r
}

/// How many auxiliary rule numbers the bodies of the first `k` rule lines
/// take together.
#[verifier::opaque]
pub open spec fn rules_need(rl: Seq<Seq<char>>, k: int) -> nat
    decreases k,
{
    if k <= 0 || k > rl.len() {
        0
    } else {
        rules_need(rl, k - 1) + text_need(rule_rhs(rl[k - 1]))
    }
}

proof fn lemma_rules_need_mono(rl: Seq<Seq<char>>, a: int, b: int)
    requires
        0 <= a <= b <= rl.len(),
    ensures
        rules_need(rl, a) <= rules_need(rl, b),
    decreases b - a,
{
    reveal(rules_need);
    if a < b {
        lemma_rules_need_mono(rl, a, b - 1);
    }
}

/// Reads the body of every rule into the grammar, the names of all rules
/// entered first; the terminal table starts with its placeholder.
fn parse_rules(lhss: &Vec<Vec<char>>, rhss: &Vec<Vec<char>>, Ghost(rl): Ghost<Seq<Seq<char>>>) -> (r: Result<(SymMap<Vec<char>>, Grammar), GbnfError>)
    requires
        lhss.len() == rhss.len(),
        lhss.len() == rl.len(),
        forall|j: int| 0 <= j < rl.len() ==> lhss@[j]@ == rule_lhs(#[trigger] rl[j]) && rhss@[j]@ == rule_rhs(rl[j]),
    ensures
        r matches Ok((t, g)) ==> tables_wf(&t, &g),
        r matches Ok((t, g)) ==> forall|j: int| 0 <= j < lhss.len() ==> g@.contains_key(#[trigger] lhss@[j]@),
        r matches Ok((t, g)) ==> forall|j: int, b: int| 0 <= j < rl.len() && 0 <= b < rule_alts(rl[j]).len() ==> #[trigger] alt_done(rule_alts(rl[j])[b], prods(&g, rule_lhs(rl[j])), t@, &g, rule_rhs(rl[j]).len()),
        r matches Err(e) ==> e is TooManyRules,
        r is Err ==> rules_need(rl, rl.len() as int) > usize::MAX,
{
    let mut terminals: SymMap<Vec<char>> = SymMap::new();
    let placeholder: Vec<char> = vec!['"', '"'];
    terminals.insert(clone_sym(&placeholder), clone_sym(&placeholder));
    proof {
        assert(terminals@.contains_key(placeholder@));
        let j = choose|j: int| 0 <= j < terminals.keys.len() && #[trigger] terminals.key_at(j) == placeholder@;
    }
    let mut g = new_grammar();
    let mut aux: usize = 0;
    let mut i: usize = 0;
    while i < lhss.len()
        invariant
            i <= lhss.len(),
            grammar_wf(&g),
            forall|j: int| 0 <= j < i ==> g@.contains_key(#[trigger] lhss@[j]@),
        decreases lhss.len() - i,
    {
        ensure_key(&mut g, &lhss[i]);
        i = i + 1;
    }
    let mut i: usize = 0;
    proof {
        reveal(rules_need);
    }
    while i < lhss.len()
        invariant
            i <= lhss.len(),
            lhss.len() == rhss.len(),
            lhss.len() == rl.len(),
            tables_wf(&terminals, &g),
            forall|j: int| 0 <= j < lhss.len() ==> g@.contains_key(#[trigger] lhss@[j]@),
            forall|j: int| 0 <= j < rl.len() ==> lhss@[j]@ == rule_lhs(#[trigger] rl[j]) && rhss@[j]@ == rule_rhs(rl[j]),
            forall|j: int, b: int| 0 <= j < i && 0 <= b < rule_alts(rl[j]).len() ==> #[trigger] alt_done(rule_alts(rl[j])[b], prods(&g, rule_lhs(rl[j])), terminals@, &g, rule_rhs(rl[j]).len()),
            aux == rules_need(rl, i as int),
        decreases lhss.len() - i,
    {
        let ghost g0 = g;
        let ghost t0 = terminals@;
        match parse_rhs(&lhss[i], &rhss[i], &mut terminals, &mut g, &mut aux) {
            Ok(_) => {},
            Err(e) => {
                proof {
                    reveal(rules_need);
                    assert(rhss@[i as int]@ == rule_rhs(rl[i as int]));
                    assert(rules_need(rl, i + 1) == rules_need(rl, i as int) + text_need(rule_rhs(rl[i as int])));
                    lemma_rules_need_mono(rl, i + 1, rl.len() as int);
                }
                return Err(e);
            },
        }
        proof {
            reveal(rules_need);
            assert(rhss@[i as int]@ == rule_rhs(rl[i as int]));
            assert(rules_need(rl, i + 1) == rules_need(rl, i as int) + text_need(rule_rhs(rl[i as int])));
        }
        proof {
            assert forall|j: int| 0 <= j < lhss.len() implies g@.contains_key(#[trigger] lhss@[j]@) by {
                assert(g0@.contains_key(lhss@[j]@));
                assert(g0@.dom().subset_of(g@.dom()));
            }
            assert forall|j: int, b: int| 0 <= j < i + 1 && 0 <= b < rule_alts(rl[j]).len() implies #[trigger] alt_done(rule_alts(rl[j])[b], prods(&g, rule_lhs(rl[j])), terminals@, &g, rule_rhs(rl[j]).len()) by {
                assert(lhss@[j]@ == rule_lhs(rl[j]));
                if j < i {
                    assert(prods(&g0, rule_lhs(rl[j])).subset_of(prods(&g, rule_lhs(rl[j]))));
                    lemma_alt_done_grow(rule_alts(rl[j])[b], prods(&g0, rule_lhs(rl[j])), t0, &g0, rule_rhs(rl[j]).len(), prods(&g, rule_lhs(rl[j])), terminals@, &g, rule_rhs(rl[j]).len());
                }
            }
        }
        i = i + 1;
    }
    Ok((terminals, g))
}

/// The table of terminals, label to regular expression, from the table
/// pattern to label, the placeholder left out.
fn label_table(table: SymMap<Vec<char>>) -> (r: Result<SymMap<Vec<char>>, GbnfError>)
    requires
        table.wf(),
        labels_ok(&table),
    ensures
        r matches Ok(t) ==> t.wf() && table_of(table@, &t),
        r matches Err(e) ==> e matches GbnfError::UnrecognizedAtom(a) && exists|p: Seq<char>| table@.contains_key(p) && p != empty_lit() && #[trigger] body_regex(p) == Err::<Seq<char>, Seq<char>>(a@),
{
    let ghost terms = table@;
    let mut terminals = table;
    let placeholder: Vec<char> = vec!['"', '"'];
    assert(placeholder@ =~= empty_lit());
    match terminals.find(&placeholder) {
        Ok(p) => {
            terminals.remove_at(p);
        },
        Err(_) => {},
    }
    assert(terminals@ =~= terms.remove(empty_lit()));
    let mut flipped: SymMap<Vec<char>> = SymMap::new();
    let mut i: usize = 0;
    while i < terminals.len()
        invariant
            i <= terminals.keys.len(),
            terminals.wf(),
            flipped.wf(),
            terminals@ == terms.remove(empty_lit()),
            terms == table@,
            labels_ok_map(terms),
            forall|j: int| 0 <= j < i ==> flipped@.contains_key((#[trigger] terminals.vals@[j])@) && body_regex(terminals.key_at(j)) == Ok::<Seq<char>, Seq<char>>(flipped@[terminals.vals@[j]@]@),
            forall|l: Seq<char>| #[trigger] flipped@.contains_key(l) ==> exists|j: int| 0 <= j < i && (#[trigger] terminals.vals@[j])@ == l,
        decreases terminals.keys.len() - i,
    {
        proof {
            terminals.lemma_pos(i as int);
        }
        let rx = match gbnf_to_regex(&terminals.keys[i]) {
            Ok(x) => x,
            Err(e) => {
                proof {
                    let p = terminals.key_at(i as int);
                    assert(terms.contains_key(p) && p != empty_lit());
                    assert(terminals.keys@[i as int]@ == p);
                    assert(e is UnrecognizedAtom);
                    assert(body_regex(p) == Err::<Seq<char>, Seq<char>>(e->UnrecognizedAtom_0@));
                }
                return Err(e);
            },
        };
        let ghost f0 = flipped@;
        flipped.insert(clone_sym(&terminals.vals[i]), rx);
        proof {
            assert forall|j: int| 0 <= j < i + 1 implies flipped@.contains_key((#[trigger] terminals.vals@[j])@) && body_regex(terminals.key_at(j)) == Ok::<Seq<char>, Seq<char>>(flipped@[terminals.vals@[j]@]@) by {
                if j < i {
                    terminals.lemma_pos(j);
                    if terminals.vals@[j]@ == terminals.vals@[i as int]@ {
                        terminals.lemma_unique(j, i as int);
                    }
                }
            }
            assert forall|l: Seq<char>| #[trigger] flipped@.contains_key(l) implies exists|j: int| 0 <= j < i + 1 && (#[trigger] terminals.vals@[j])@ == l by {
                if l != terminals.vals@[i as int]@ {
                    assert(f0.contains_key(l));
                    let j = choose|j: int| 0 <= j < i && (#[trigger] terminals.vals@[j])@ == l;
                } else {
                    assert(terminals.vals@[i as int]@ == l);
                }
            }
        }
        i = i + 1;
    }
    proof {
        assert forall|p: Seq<char>| #[trigger] terms.contains_key(p) && p != empty_lit() implies flipped@.contains_key(terms[p]@) && body_regex(p) == Ok::<Seq<char>, Seq<char>>(flipped@[terms[p]@]@) by {
            assert(terminals@.contains_key(p));
            let j = choose|j: int| 0 <= j < terminals.keys.len() && #[trigger] terminals.key_at(j) == p;
            terminals.lemma_pos(j);
            assert(flipped@.contains_key(terminals.vals@[j]@));
        }
        assert forall|l: Seq<char>| #[trigger] flipped@.contains_key(l) implies exists|p: Seq<char>| #[trigger] terms.contains_key(p) && p != empty_lit() && terms[p]@ == l by {
            let j = choose|j: int| 0 <= j < terminals.keys.len() && (#[trigger] terminals.vals@[j])@ == l;
            terminals.lemma_pos(j);
            let p = terminals.key_at(j);
            assert(terms.contains_key(p) && p != empty_lit() && terms[p]@ == l);
        }
        assert(table_of(terms, &flipped));
    }
    Ok(flipped)
}


} // verus!
