//! From GBNF text to the grammar the normalizer works on: the start rule
//! renamed `S`, each terminal `T` reached through a rule `PT[T] -> T`, and
//! the right-linear grammars of all terminal regular expressions.
use vstd::prelude::*;
use crate::symbols::{Rhs, rhs_view, clone_sym, clone_rhs, wrap_name, eq_sym, chars_to_string, push_all, str_to_chars};
use crate::symmap::SymMap;
use crate::grammar::{Grammar, grammar_wf, prods, all_prods, sdict_add, new_grammar, clone_set, set_view, rhs_set};
use crate::gbnf::GbnfError;
use crate::parse::{parse_gbnf, rule_lines, has_sep, rule_lhs, table_of, reads_as, rules_need};
use crate::nfa::{Preterms, NfaError, right_linear, regex_to_gnf_cfg, regex_compiles, too_many_preterms, malformed_regex};

verus! {

/// Errors on the way from grammar text to token classes.
pub enum CfgError {
    /// The GBNF text could not be read.
    Gbnf(GbnfError),
    /// The start symbol has no rule; the available non-terminals are listed.
    MissingStart(Vec<char>, Vec<Vec<char>>),
    /// A terminal's regular expression could not become a grammar.
    Regex(NfaError),
    /// A fixed-point loop ran past its iteration budget.
    LimitExceeded,
}

/// The names, each in double quotes, separated by `, `.
pub open spec fn quoted_list(names: Seq<Vec<char>>) -> Seq<char>
    decreases names.len(),
{
    if names.len() == 0 {
        Seq::empty()
    } else if names.len() == 1 {
        seq!['"'] + names[0]@ + seq!['"']
    } else {
        quoted_list(names.drop_last()) + seq![',', ' ', '"'] + names.last()@ + seq!['"']
    }
}

/// The message of an error.
pub open spec fn describe_text(e: &CfgError) -> Seq<char> {
    match *e {
        CfgError::Gbnf(GbnfError::InvalidRule(line)) => "invalid GBNF rule: "@ + line@,
        CfgError::Gbnf(GbnfError::UnrecognizedAtom(a)) => "unrecognized gbnf atom: "@ + a@,
        CfgError::Gbnf(GbnfError::TooManyRules) => "too many auxiliary rules"@,
        CfgError::MissingStart(start, available) => "start symbol \""@ + start@ + "\" not found; available non-terminals: ["@ + quoted_list(available@) + seq![']'],
        CfgError::Regex(NfaError::Compile(rx)) => "compiling terminal regex "@ + rx@,
        CfgError::Regex(NfaError::Malformed) => "malformed terminal automaton"@,
        CfgError::Regex(NfaError::TooManyPreterminals) => "too many preterminals"@,
        CfgError::LimitExceeded => "iteration limit exceeded"@,
    }
}

impl CfgError {
    /// A readable description of the error.
    pub fn describe(&self) -> (r: String)
        ensures
            r@ == describe_text(self),
    {
        let mut out: Vec<char> = Vec::new();
        match self {
            CfgError::Gbnf(GbnfError::InvalidRule(line)) => {
                push_all(&mut out, &str_to_chars("invalid GBNF rule: "));
                push_all(&mut out, line);
            },
            CfgError::Gbnf(GbnfError::UnrecognizedAtom(a)) => {
                push_all(&mut out, &str_to_chars("unrecognized gbnf atom: "));
                push_all(&mut out, a);
            },
            CfgError::Gbnf(GbnfError::TooManyRules) => {
                push_all(&mut out, &str_to_chars("too many auxiliary rules"));
            },
            CfgError::MissingStart(start, available) => {
                push_all(&mut out, &str_to_chars("start symbol \""));
                push_all(&mut out, start);
                push_all(&mut out, &str_to_chars("\" not found; available non-terminals: ["));
                let ghost head = out@;
                let mut i: usize = 0;
                while i < available.len()
                    invariant
                        i <= available.len(),
                        out@ == head + quoted_list(available@.take(i as int)),
                    decreases available.len() - i,
                {
                    proof {
                        assert(available@.take(i + 1).drop_last() =~= available@.take(i as int));
                        assert(available@.take(i + 1).last() == available@[i as int]);
                    }
                    if i > 0 {
                        out.push(',');
                        out.push(' ');
                    }
                    out.push('"');
                    push_all(&mut out, &available[i]);
                    out.push('"');
                    proof {
                        if i == 0 {
                            assert(available@.take(1) =~= seq![available@[0]]);
                        }
                        assert(out@ =~= head + quoted_list(available@.take(i + 1)));
                    }
                    i = i + 1;
                }
                assert(available@.take(available@.len() as int) =~= available@);
                out.push(']');
            },
            CfgError::Regex(NfaError::Compile(rx)) => {
                push_all(&mut out, &str_to_chars("compiling terminal regex "));
                push_all(&mut out, rx);
            },
            CfgError::Regex(NfaError::Malformed) => {
                push_all(&mut out, &str_to_chars("malformed terminal automaton"));
            },
            CfgError::Regex(NfaError::TooManyPreterminals) => {
                push_all(&mut out, &str_to_chars("too many preterminals"));
            },
            CfgError::LimitExceeded => {
                push_all(&mut out, &str_to_chars("iteration limit exceeded"));
            },
        }
        let r = chars_to_string(&out);
        assert(r@ =~= describe_text(self));
        r
    }
}

pub open spec fn key_in_prefix<V>(m: &SymMap<V>, i: int, x: Seq<char>) -> bool {
    exists|j: int| 0 <= j < i && #[trigger] m.key_at(j) == x
}

proof fn lemma_prefix_step<V>(m: &SymMap<V>, i: int)
    requires
        0 <= i < m.keys.len(),
    ensures
        forall|x: Seq<char>| #[trigger] key_in_prefix(m, i + 1, x) <==> (key_in_prefix(m, i, x) || x == m.key_at(i)),
{
    assert forall|x: Seq<char>| #[trigger] key_in_prefix(m, i + 1, x) implies (key_in_prefix(m, i, x) || x == m.key_at(i)) by {
        let j = choose|j: int| 0 <= j < i + 1 && #[trigger] m.key_at(j) == x;
        if j < i {
            assert(key_in_prefix(m, i, x));
        }
    }
    assert forall|x: Seq<char>| (key_in_prefix(m, i, x) || x == m.key_at(i)) implies #[trigger] key_in_prefix(m, i + 1, x) by {
        if x == m.key_at(i) {
            assert(m.key_at(i) == x);
        } else {
            let j = choose|j: int| 0 <= j < i && #[trigger] m.key_at(j) == x;
            assert(m.key_at(j) == x);
        }
    }
}

proof fn lemma_prefix_all<V>(m: &SymMap<V>)
    ensures
        forall|x: Seq<char>| #[trigger] key_in_prefix(m, m.keys.len() as int, x) <==> m@.contains_key(x),
{
}

/// Copies every entry of `src` into `dst`, replacing entries of the same
/// key (`BTreeMap::extend`).
pub fn extend_grammar(dst: &mut Grammar, src: &Grammar)
    requires
        grammar_wf(old(dst)),
        grammar_wf(src),
    ensures
        grammar_wf(final(dst)),
        final(dst)@.dom() == old(dst)@.dom().union(src@.dom()),
        forall|x: Seq<char>| #[trigger] prods(final(dst), x) == if src@.contains_key(x) { prods(src, x) } else { prods(old(dst), x) },
{
    let ghost d0 = *dst;
    let mut i: usize = 0;
    while i < src.len()
        invariant
            i <= src.keys.len(),
            grammar_wf(src),
            grammar_wf(dst),
            forall|x: Seq<char>| #[trigger] dst@.contains_key(x) <==> (d0@.contains_key(x) || key_in_prefix(src, i as int, x)),
            forall|x: Seq<char>| #[trigger] prods(dst, x) == if key_in_prefix(src, i as int, x) { prods(src, x) } else { prods(&d0, x) },
        decreases src.keys.len() - i,
    {
        let ghost dprev = *dst;
        let k = clone_sym(&src.keys[i]);
        let v = clone_set(&src.vals[i]);
        proof {
            assert(crate::grammar::set_wf(src.vals@[i as int]@));
            assert(set_view(v@) == set_view(src.vals@[i as int]@));
            crate::grammar::lemma_prods_at(src, i as int);
            lemma_prefix_step(src, i as int);
        }
        let ghost ki = k@;
        let ghost vv = v;
        dst.insert(k, v);
        proof {
            assert forall|x: Seq<char>| #[trigger] prods(dst, x) == if key_in_prefix(src, i + 1, x) { prods(src, x) } else { prods(&d0, x) } by {
                if x == ki {
                    assert(dst@[x] == vv);
                    assert(crate::grammar::rhs_set(vv@) == crate::grammar::rhs_set(src.vals@[i as int]@));
                } else {
                    assert(prods(dst, x) == prods(&dprev, x));
                }
            }
            assert forall|j: int| 0 <= j < dst.vals.len() implies crate::grammar::set_wf(#[trigger] dst.vals@[j]@) by {
                dst.lemma_pos(j);
                let kj = dst.key_at(j);
                if kj == src.key_at(i as int) {
                    assert(dst.vals@[j]@ == v@);
                } else {
                    assert(dprev@.contains_key(kj));
                    let pj = dprev.pos(kj);
                    dprev.lemma_pos(pj);
                }
            }
        }
        i = i + 1;
    }
    proof {
        lemma_prefix_all(src);
        assert(dst@.dom() =~= d0@.dom().union(src@.dom()));
    }
}

/// Copies every preterminal of `src` into `dst`.
pub fn extend_preterms(dst: &mut Preterms, src: &Preterms)
    requires
        old(dst).wf(),
        src.wf(),
    ensures
        final(dst).wf(),
        final(dst)@.dom() == old(dst)@.dom().union(src@.dom()),
{
    let ghost d0 = *dst;
    let mut i: usize = 0;
    while i < src.len()
        invariant
            i <= src.keys.len(),
            src.wf(),
            dst.wf(),
            forall|x: Seq<char>| #[trigger] dst@.contains_key(x) <==> (d0@.contains_key(x) || key_in_prefix(src, i as int, x)),
        decreases src.keys.len() - i,
    {
        let k = clone_sym(&src.keys[i]);
        let mut v: Vec<u8> = Vec::new();
        let src_v = &src.vals[i];
        let mut b: usize = 0;
        while b < src_v.len()
            invariant
                b <= src_v.len(),
            decreases src_v.len() - b,
        {
            v.push(src_v[b]);
            b = b + 1;
        }
        proof {
            lemma_prefix_step(src, i as int);
        }
        dst.insert(k, v);
        i = i + 1;
    }
    proof {
        lemma_prefix_all(src);
        assert(dst@.dom() =~= d0@.dom().union(src@.dom()));
    }
}

/// The name `PT[label]` of the rule that stands for terminal `label`.
pub open spec fn pt_name(label: Seq<char>) -> Seq<char> {
    seq!['P', 'T', '['] + label + seq![']']
}

pub proof fn lemma_pt_injective(a: Seq<char>, b: Seq<char>)
    requires
        pt_name(a) == pt_name(b),
    ensures
        a == b,
{
    assert(a =~= pt_name(a).subrange(3, pt_name(a).len() - 1));
    assert(b =~= pt_name(b).subrange(3, pt_name(b).len() - 1));
}

/// The rule a terminal's `PT` name gets: `PT[l] -> l`, nothing for other
/// names.
pub open spec fn pt_prods(labels: Map<Seq<char>, Vec<char>>, a: Seq<char>) -> Set<Seq<Seq<char>>> {
    if labels.contains_key(a) {
        set![seq![labels[a]@]]
    } else {
        Set::empty()
    }
}

/// How a symbol of a rule body is written in the grammar to normalize: a
/// terminal `T` through its rule `PT[T]`, the literal `""` as `ε`, any
/// other name as itself.
pub open spec fn sym_ref(labels: Map<Seq<char>, Vec<char>>, x: Seq<char>) -> Seq<char> {
    if labels.contains_key(pt_name(x)) {
        pt_name(x)
    } else if x == seq!['"', '"'] {
        seq!['ε']
    } else {
        x
    }
}

pub open spec fn rhs_ref(labels: Map<Seq<char>, Vec<char>>, b: Seq<Seq<char>>) -> Seq<Seq<char>> {
    Seq::new(b.len(), |k: int| sym_ref(labels, b[k]))
}

/// The bodies of `ps`, each written through [`sym_ref`].
pub open spec fn refs_of(labels: Map<Seq<char>, Vec<char>>, ps: Set<Seq<Seq<char>>>) -> Set<Seq<Seq<char>>> {
    Set::new(|r: Seq<Seq<char>>| exists|b: Seq<Seq<char>>| #[trigger] ps.contains(b) && r == rhs_ref(labels, b))
}

/// The rule `PT[l] -> l` for each terminal label `l` of the table, and
/// the map from each `PT[l]` back to `l`.
fn label_rules(terminals: &SymMap<Vec<char>>) -> (r: (Grammar, SymMap<Vec<char>>))
    requires
        terminals.wf(),
    ensures
        grammar_wf(&r.0),
        r.1.wf(),
        forall|k: Seq<char>| #[trigger] r.1@.contains_key(k) ==> k == pt_name(r.1@[k]@) && terminals@.contains_key(r.1@[k]@),
        forall|l: Seq<char>| #[trigger] terminals@.contains_key(l) ==> r.1@.contains_key(pt_name(l)) && r.1@[pt_name(l)]@ == l,
        forall|a: Seq<char>| #[trigger] prods(&r.0, a) == pt_prods(r.1@, a),
        r.0@.dom() == r.1@.dom(),
{
    let mut out = new_grammar();
    let mut labels: SymMap<Vec<char>> = SymMap::new();
    let pt_open: Vec<char> = vec!['P', 'T', '['];
    let pt_close: Vec<char> = vec![']'];
    proof {
        assert(labels@.dom() =~= out@.dom());
        assert forall|a: Seq<char>| #[trigger] prods(&out, a) == pt_prods(labels@, a) by {
            assert(prods(&out, a) =~= pt_prods(labels@, a));
        }
    }
    let mut i: usize = 0;
    while i < terminals.len()
        invariant
            i <= terminals.keys.len(),
            terminals.wf(),
            pt_open@ == seq!['P', 'T', '['],
            pt_close@ == seq![']'],
            grammar_wf(&out),
            labels.wf(),
            out@.dom() == labels@.dom(),
            forall|a: Seq<char>| #[trigger] prods(&out, a) == pt_prods(labels@, a),
            forall|k: Seq<char>| #[trigger] labels@.contains_key(k) ==> exists|j: int| 0 <= j < i && k == pt_name(terminals.key_at(j)) && labels@[k]@ == #[trigger] terminals.key_at(j),
            forall|j: int| 0 <= j < i ==> labels@.contains_key(pt_name(#[trigger] terminals.key_at(j))) && labels@[pt_name(terminals.key_at(j))]@ == terminals.key_at(j),
        decreases terminals.keys.len() - i,
    {
        let label = &terminals.keys[i];
        let ptn = wrap_name(&pt_open, label, &pt_close);
        assert(ptn@ == pt_name(label@));
        proof {
            if labels@.contains_key(ptn@) {
                let j = choose|j: int| 0 <= j < i && ptn@ == pt_name(terminals.key_at(j)) && labels@[ptn@]@ == #[trigger] terminals.key_at(j);
                lemma_pt_injective(label@, terminals.key_at(j));
                terminals.lemma_unique(j, i as int);
            }
        }
        let ghost o0 = out;
        let ghost l0 = labels@;
        let rhs: Rhs = vec![clone_sym(label)];
        assert(rhs_view(rhs@) =~= seq![label@]);
        sdict_add(&mut out, &ptn, rhs);
        labels.insert(ptn, clone_sym(label));
        proof {
            assert(labels@ == l0.insert(pt_name(label@), labels@[pt_name(label@)]));
            assert(out@.dom() =~= labels@.dom());
            assert forall|a: Seq<char>| #[trigger] prods(&out, a) == pt_prods(labels@, a) by {
                if a == pt_name(label@) {
                    assert(prods(&o0, a) == Set::<Seq<Seq<char>>>::empty());
                    assert(prods(&out, a) =~= pt_prods(labels@, a));
                } else {
                    assert(prods(&o0, a) == pt_prods(l0, a));
                }
            }
            assert forall|k: Seq<char>| #[trigger] labels@.contains_key(k) implies exists|j: int| 0 <= j < i + 1 && k == pt_name(terminals.key_at(j)) && labels@[k]@ == #[trigger] terminals.key_at(j) by {
                if k == pt_name(label@) {
                    assert(terminals.key_at(i as int) == label@);
                } else {
                    assert(l0.contains_key(k));
                    let j = choose|j: int| 0 <= j < i && k == pt_name(terminals.key_at(j)) && l0[k]@ == #[trigger] terminals.key_at(j);
                }
            }
            assert forall|j: int| 0 <= j < i + 1 implies labels@.contains_key(pt_name(#[trigger] terminals.key_at(j))) && labels@[pt_name(terminals.key_at(j))]@ == terminals.key_at(j) by {
                if j < i {
                    if pt_name(terminals.key_at(j)) == pt_name(label@) {
                        lemma_pt_injective(label@, terminals.key_at(j));
                        terminals.lemma_unique(j, i as int);
                    }
                }
            }
        }
        i = i + 1;
    }
    proof {
        assert forall|k: Seq<char>| #[trigger] labels@.contains_key(k) implies k == pt_name(labels@[k]@) && terminals@.contains_key(labels@[k]@) by {
            let j = choose|j: int| 0 <= j < terminals.keys.len() && k == pt_name(terminals.key_at(j)) && labels@[k]@ == #[trigger] terminals.key_at(j);
            terminals.lemma_pos(j);
        }
        assert forall|l: Seq<char>| #[trigger] terminals@.contains_key(l) implies labels@.contains_key(pt_name(l)) && labels@[pt_name(l)]@ == l by {
            let j = choose|j: int| 0 <= j < terminals.keys.len() && #[trigger] terminals.key_at(j) == l;
        }
    }
    (out, labels)
}

/// Adds the productions of every rule of `dict` to `out`, each body
/// written through [`sym_ref`].
fn write_rules(dict: &Grammar, labels: &SymMap<Vec<char>>, out: &mut Grammar)
    requires
        grammar_wf(dict),
        grammar_wf(old(out)),
        labels.wf(),
    ensures
        grammar_wf(final(out)),
        forall|a: Seq<char>| #[trigger] prods(final(out), a) == prods(old(out), a) + refs_of(labels@, prods(dict, a)),
        forall|a: Seq<char>| #[trigger] final(out)@.contains_key(a) <==> old(out)@.contains_key(a) || prods(dict, a) != Set::<Seq<Seq<char>>>::empty(),
{
    let ghost o0 = *out;
    let eps: Vec<char> = vec!['ε'];
    let empty_lit: Vec<char> = vec!['"', '"'];
    let pt_open: Vec<char> = vec!['P', 'T', '['];
    let pt_close: Vec<char> = vec![']'];
    assert(eps@ =~= seq!['ε']);
    assert(empty_lit@ =~= seq!['"', '"']);
    let mut i: usize = 0;
    while i < dict.len()
        invariant
            i <= dict.keys.len(),
            grammar_wf(dict),
            grammar_wf(out),
            labels.wf(),
            eps@ == seq!['ε'],
            empty_lit@ == seq!['"', '"'],
            pt_open@ == seq!['P', 'T', '['],
            pt_close@ == seq![']'],
            forall|a: Seq<char>| #[trigger] prods(out, a) == prods(&o0, a) + (if exists|j: int| 0 <= j < i && dict.key_at(j) == a { refs_of(labels@, prods(dict, a)) } else { Set::empty() }),
            forall|a: Seq<char>| #[trigger] out@.contains_key(a) <==> o0@.contains_key(a) || ((exists|j: int| 0 <= j < i && dict.key_at(j) == a) && prods(dict, a) != Set::<Seq<Seq<char>>>::empty()),
        decreases dict.keys.len() - i,
    {
        let a = &dict.keys[i];
        let prods_a = &dict.vals[i];
        let ghost av = a@;
        let ghost sv = set_view(prods_a@);
        proof {
            crate::grammar::lemma_prods_at(dict, i as int);
            assert forall|j: int| 0 <= j < i implies dict.key_at(j) != av by {
                if dict.key_at(j) == av {
                    dict.lemma_unique(j, i as int);
                }
            }
        }
        let ghost o1 = *out;
        let mut j: usize = 0;
        while j < prods_a.len()
            invariant
                j <= prods_a.len(),
                grammar_wf(out),
                labels.wf(),
                eps@ == seq!['ε'],
                empty_lit@ == seq!['"', '"'],
                pt_open@ == seq!['P', 'T', '['],
                pt_close@ == seq![']'],
                sv == set_view(prods_a@),
                av == a@,
                forall|x: Seq<char>| x != av ==> #[trigger] prods(out, x) == prods(&o1, x),
                prods(out, av) == prods(&o1, av) + Set::new(|r: Seq<Seq<char>>| exists|m: int| 0 <= m < j && r == rhs_ref(labels@, #[trigger] sv[m])),
                forall|x: Seq<char>| #[trigger] out@.contains_key(x) <==> o1@.contains_key(x) || (x == av && j > 0),
            decreases prods_a.len() - j,
        {
            let beta = &prods_a[j];
            let ghost bv = rhs_view(beta@);
            assert(sv[j as int] == bv);
            let mut rhs: Rhs = Vec::new();
            let mut k: usize = 0;
            while k < beta.len()
                invariant
                    k <= beta.len(),
                    labels.wf(),
                    eps@ == seq!['ε'],
                    empty_lit@ == seq!['"', '"'],
                    pt_open@ == seq!['P', 'T', '['],
                    pt_close@ == seq![']'],
                    bv == rhs_view(beta@),
                    rhs.len() == k,
                    forall|t: int| 0 <= t < k ==> (#[trigger] rhs@[t])@ == sym_ref(labels@, bv[t]),
                decreases beta.len() - k,
            {
                let x = &beta[k];
                let ptx = wrap_name(&pt_open, x, &pt_close);
                assert(ptx@ == pt_name(x@));
                assert(bv[k as int] == x@);
                if labels.contains_key(&ptx) {
                    rhs.push(ptx);
                } else if eq_sym(x, &empty_lit) {
                    rhs.push(clone_sym(&eps));
                } else {
                    rhs.push(clone_sym(x));
                }
                k = k + 1;
            }
            assert(rhs_view(rhs@) =~= rhs_ref(labels@, bv));
            let ghost o2 = *out;
            sdict_add(out, a, rhs);
            proof {
                let want = Set::new(|r: Seq<Seq<char>>| exists|m: int| 0 <= m < j + 1 && r == rhs_ref(labels@, #[trigger] sv[m]));
                let have = Set::new(|r: Seq<Seq<char>>| exists|m: int| 0 <= m < j && r == rhs_ref(labels@, #[trigger] sv[m]));
                assert forall|r: Seq<Seq<char>>| #[trigger] want.contains(r) <==> have.insert(rhs_ref(labels@, bv)).contains(r) by {
                    if want.contains(r) {
                        let m = choose|m: int| 0 <= m < j + 1 && r == rhs_ref(labels@, #[trigger] sv[m]);
                        if m < j {
                            assert(have.contains(r));
                        }
                    }
                    if have.contains(r) {
                        let m = choose|m: int| 0 <= m < j && r == rhs_ref(labels@, #[trigger] sv[m]);
                        assert(want.contains(r));
                    }
                }
                assert(want =~= have.insert(rhs_ref(labels@, bv)));
                assert(prods(out, av) =~= prods(&o1, av) + want);
            }
            j = j + 1;
        }
        proof {
            let have = Set::new(|r: Seq<Seq<char>>| exists|m: int| 0 <= m < prods_a.len() && r == rhs_ref(labels@, #[trigger] sv[m]));
            assert forall|r: Seq<Seq<char>>| #[trigger] have.contains(r) <==> refs_of(labels@, prods(dict, av)).contains(r) by {
                if have.contains(r) {
                    let m = choose|m: int| 0 <= m < prods_a.len() && r == rhs_ref(labels@, #[trigger] sv[m]);
                    assert(prods(dict, av).contains(sv[m]));
                }
                if refs_of(labels@, prods(dict, av)).contains(r) {
                    let b = choose|b: Seq<Seq<char>>| #[trigger] prods(dict, av).contains(b) && r == rhs_ref(labels@, b);
                    let m = choose|m: int| 0 <= m < sv.len() && sv[m] == b;
                    assert(have.contains(r));
                }
            }
            assert(have =~= refs_of(labels@, prods(dict, av)));
            assert(prods(dict, av) != Set::<Seq<Seq<char>>>::empty() <==> prods_a.len() > 0) by {
                if prods_a.len() > 0 {
                    assert(prods(dict, av).contains(sv[0]));
                } else {
                    assert forall|x: Seq<Seq<char>>| !prods(dict, av).contains(x) by {
                        if prods(dict, av).contains(x) {
                            let m = choose|m: int| 0 <= m < sv.len() && sv[m] == x;
                        }
                    }
                    assert(prods(dict, av) =~= Set::<Seq<Seq<char>>>::empty());
                }
            }
            assert forall|x: Seq<char>| #[trigger] prods(out, x) == prods(&o0, x) + (if exists|j: int| 0 <= j < i + 1 && dict.key_at(j) == x { refs_of(labels@, prods(dict, x)) } else { Set::empty() }) by {
                if x == av {
                    assert(dict.key_at(i as int) == x);
                    assert(!(exists|j: int| 0 <= j < i && dict.key_at(j) == x));
                    assert(prods(&o1, x) == prods(&o0, x) + Set::<Seq<Seq<char>>>::empty());
                    assert(prods(&o1, x) =~= prods(&o0, x));
                } else {
                    if exists|j: int| 0 <= j < i + 1 && dict.key_at(j) == x {
                        let j = choose|j: int| 0 <= j < i + 1 && dict.key_at(j) == x;
                        assert(j < i);
                    }
                }
            }
            assert forall|x: Seq<char>| #[trigger] out@.contains_key(x) <==> o0@.contains_key(x) || ((exists|j: int| 0 <= j < i + 1 && dict.key_at(j) == x) && prods(dict, x) != Set::<Seq<Seq<char>>>::empty()) by {
                if x == av {
                    assert(dict.key_at(i as int) == x);
                    assert(!(exists|j: int| 0 <= j < i && dict.key_at(j) == x));
                } else {
                    if exists|j: int| 0 <= j < i + 1 && dict.key_at(j) == x {
                        let j = choose|j: int| 0 <= j < i + 1 && dict.key_at(j) == x;
                        assert(j < i);
                    }
                }
            }
        }
        i = i + 1;
    }
    proof {
        assert forall|a: Seq<char>| #[trigger] prods(out, a) == prods(&o0, a) + refs_of(labels@, prods(dict, a)) by {
            if exists|j: int| 0 <= j < dict.keys.len() && dict.key_at(j) == a {
            } else {
                assert(!dict@.contains_key(a));
                assert(refs_of(labels@, prods(dict, a)) =~= Set::<Seq<Seq<char>>>::empty());
                assert(prods(out, a) =~= prods(&o0, a));
            }
        }
        assert forall|a: Seq<char>| #[trigger] out@.contains_key(a) <==> o0@.contains_key(a) || prods(dict, a) != Set::<Seq<Seq<char>>>::empty() by {
            if prods(dict, a) != Set::<Seq<Seq<char>>>::empty() {
                assert(dict@.contains_key(a));
                let j = choose|j: int| 0 <= j < dict.keys.len() && #[trigger] dict.key_at(j) == a;
            }
        }
    }
}

/// The productions of rule `a` once the start rule is renamed `S`.
pub open spec fn renamed_prods(g: &Grammar, start: Seq<char>, a: Seq<char>) -> Set<Seq<Seq<char>>> {
    if a == seq!['S'] {
        prods(g, start)
    } else if a == start {
        Set::empty()
    } else {
        prods(g, a)
    }
}

/// `cfg` and `labels` are what GBNF text reads as: `t` and `g` are the
/// terminal table and grammar the text reads as (see [`reads_as`]), `g`
/// has a rule `start`; `labels` maps `PT[l]` to `l` for each label `l` of
/// `t`; the rules of `cfg` are those of `g` with `start` renamed `S` and
/// each body written through [`sym_ref`], and `PT[l] -> l` for each label.
pub open spec fn read_cfg(text: Seq<char>, start: Seq<char>, t: &SymMap<Vec<char>>, g: &Grammar, terms: Map<Seq<char>, Vec<char>>, cfg: &Grammar, labels: Map<Seq<char>, Vec<char>>) -> bool {
    &&& table_of(terms, t)
    &&& reads_as(text, terms, g)
    &&& g@.contains_key(start)
    &&& forall|l: Seq<char>| #[trigger] t@.contains_key(l) ==> labels.contains_key(pt_name(l)) && labels[pt_name(l)]@ == l
    &&& forall|k: Seq<char>| #[trigger] labels.contains_key(k) ==> k == pt_name(labels[k]@) && t@.contains_key(labels[k]@)
    &&& forall|a: Seq<char>| #[trigger] prods(cfg, a) == pt_prods(labels, a) + refs_of(labels, renamed_prods(g, start, a))
    &&& forall|a: Seq<char>| #[trigger] cfg@.contains_key(a) <==> labels.contains_key(a) || renamed_prods(g, start, a) != Set::<Seq<Seq<char>>>::empty()
}

/// What a failed regex conversion says of the pattern `x`.
pub open spec fn regex_failure(e: NfaError, x: Seq<char>) -> bool {
    match e {
        NfaError::Compile(y) => !regex_compiles(x) && y@ == x,
        NfaError::TooManyPreterminals => too_many_preterms(x),
        NfaError::Malformed => malformed_regex(x),
    }
}

/// The right-linear grammars of all terminal patterns, gathered with their
/// preterminals; the first pattern that cannot be converted stops it.
fn terminal_grammars(terminals: &SymMap<Vec<char>>) -> (r: Result<(Grammar, Preterms), NfaError>)
    requires
        terminals.wf(),
    ensures
        r matches Ok((g, p)) ==> grammar_wf(&g) && p.wf() && all_prods(&g, |rr: Seq<Seq<char>>| right_linear(&p, rr)),
        r matches Err(e) ==> exists|l: Seq<char>| #[trigger] terminals@.contains_key(l) && regex_failure(e, terminals@[l]@),
{
    let mut nfa_grammar = new_grammar();
    let mut preterms: Preterms = SymMap::new();
    let mut i: usize = 0;
    while i < terminals.len()
        invariant
            i <= terminals.keys.len(),
            terminals.wf(),
            grammar_wf(&nfa_grammar),
            preterms.wf(),
            all_prods(&nfa_grammar, |rr: Seq<Seq<char>>| right_linear(&preterms, rr)),
        decreases terminals.keys.len() - i,
    {
        let label = &terminals.keys[i];
        let (g, p) = match regex_to_gnf_cfg(label, &terminals.vals[i]) {
            Ok(x) => x,
            Err(e) => {
                proof {
                    terminals.lemma_pos(i as int);
                    assert(terminals@[terminals.key_at(i as int)]@ == terminals.vals@[i as int]@);
                    assert(regex_failure(e, terminals@[terminals.key_at(i as int)]@));
                }
                return Err(e);
            },
        };
        let ghost n0 = nfa_grammar;
        let ghost p0 = preterms;
        extend_grammar(&mut nfa_grammar, &g);
        extend_preterms(&mut preterms, &p);
        proof {
            assert forall|k: Seq<char>, rr: Seq<Seq<char>>| #[trigger] prods(&nfa_grammar, k).contains(rr) implies right_linear(&preterms, rr) by {
                if g@.contains_key(k) {
                    assert(prods(&g, k).contains(rr));
                    assert(right_linear(&p, rr));
                } else {
                    assert(prods(&n0, k).contains(rr));
                    assert(right_linear(&p0, rr));
                }
            }
        }
        i = i + 1;
    }
    Ok((nfa_grammar, preterms))
}

/// Reads GBNF text into the grammar to normalize: the start rule becomes
/// `S`, each terminal `T` gets a rule `PT[T] -> T` and is referred to
/// through it, the literal `""` becomes `ε`, and the right-linear grammars
/// of all terminals are gathered, with their preterminals.
pub fn parse_cfg_str(cfg_str: &Vec<char>, start_symbol: &Vec<char>) -> (r: Result<(Grammar, Grammar, Preterms, SymMap<Vec<char>>), CfgError>)
    ensures
        (exists|i: int| 0 <= i < rule_lines(cfg_str@).len() && !has_sep(#[trigger] rule_lines(cfg_str@)[i])) <==> r matches Err(CfgError::Gbnf(GbnfError::InvalidRule(_))),
        r matches Err(CfgError::MissingStart(s, _)) ==> s@ == start_symbol@ && forall|i: int| 0 <= i < rule_lines(cfg_str@).len() ==> rule_lhs(#[trigger] rule_lines(cfg_str@)[i]) != start_symbol@,
        r matches Err(CfgError::Regex(e)) ==> exists|t: SymMap<Vec<char>>, g: Grammar, terms: Map<Seq<char>, Vec<char>>, l: Seq<char>| #[trigger] table_of(terms, &t) && #[trigger] reads_as(cfg_str@, terms, &g) && t@.contains_key(l) && #[trigger] regex_failure(e, t@[l]@),
        r matches Err(CfgError::Gbnf(GbnfError::TooManyRules)) ==> rules_need(rule_lines(cfg_str@), rule_lines(cfg_str@).len() as int) > usize::MAX,
        r matches Ok((cfg, nfa, pre, labels)) ==> {
            &&& grammar_wf(&cfg)
            &&& grammar_wf(&nfa)
            &&& pre.wf()
            &&& labels.wf()
            &&& all_prods(&nfa, |rr: Seq<Seq<char>>| right_linear(&pre, rr))
            &&& forall|k: Seq<char>| #[trigger] labels@.contains_key(k) ==> k == pt_name(labels@[k]@)
            &&& exists|t: SymMap<Vec<char>>, g: Grammar, terms: Map<Seq<char>, Vec<char>>| #[trigger] read_cfg(cfg_str@, start_symbol@, &t, &g, terms, &cfg, labels@)
        },
{
    let pr = parse_gbnf(cfg_str);
    proof {
        assert(pr matches Err(GbnfError::TooManyRules) ==> rules_need(rule_lines(cfg_str@), rule_lines(cfg_str@).len() as int) > usize::MAX);
    }
    let (terminals, mut cfg_dict) = match pr {
        Ok(x) => x,
        Err(e) => {
            proof {
                if e is TooManyRules {
                    assert(pr matches Err(GbnfError::TooManyRules));
                }
            }
            return Err(CfgError::Gbnf(e));
        },
    };
    let ghost g0 = cfg_dict;
    let ghost terms = choose|terms: Map<Seq<char>, Vec<char>>| #[trigger] table_of(terms, &terminals) && reads_as(cfg_str@, terms, &g0);
    let start: Vec<Rhs> = match cfg_dict.find(start_symbol) {
        Ok(p) => {
            let ghost before = cfg_dict;
            assert(crate::grammar::set_wf(before.vals@[p as int]@));
            proof {
                crate::grammar::lemma_prods_at(&before, p as int);
            }
            let (_, v) = cfg_dict.remove_at(p);
            proof {
                assert forall|j: int| 0 <= j < cfg_dict.vals.len() implies crate::grammar::set_wf(#[trigger] cfg_dict.vals@[j]@) by {
                    if j < p {
                        assert(cfg_dict.vals@[j] == before.vals@[j]);
                    } else {
                        assert(cfg_dict.vals@[j] == before.vals@[j + 1]);
                    }
                }
                assert(rhs_set(v@) == prods(&g0, start_symbol@));
            }
            v
        },
        Err(_) => {
            let mut names: Vec<Vec<char>> = Vec::new();
            let mut i: usize = 0;
            while i < cfg_dict.len()
                invariant
                    i <= cfg_dict.keys.len(),
                decreases cfg_dict.keys.len() - i,
            {
                names.push(clone_sym(&cfg_dict.keys[i]));
                i = i + 1;
            }
            return Err(CfgError::MissingStart(clone_sym(start_symbol), names));
        },
    };
    let s_name: Vec<char> = vec!['S'];
    let ghost sn = s_name@;
    assert(sn =~= seq!['S']);
    let ghost before = cfg_dict;
    let ghost sv = start;
    cfg_dict.insert(s_name, start);
    proof {
        assert forall|j: int| 0 <= j < cfg_dict.vals.len() implies crate::grammar::set_wf(#[trigger] cfg_dict.vals@[j]@) by {
            cfg_dict.lemma_pos(j);
            let kj = cfg_dict.key_at(j);
            assert(cfg_dict@.contains_key(kj));
            if kj != sn {
                assert(before@.contains_key(kj));
                before.lemma_pos(before.pos(kj));
            }
        }
        assert forall|a: Seq<char>| #[trigger] prods(&cfg_dict, a) == renamed_prods(&g0, start_symbol@, a) by {
            if a == sn {
                assert(cfg_dict@[a] == sv);
            } else if a == start_symbol@ {
                assert(!cfg_dict@.contains_key(a));
            } else {
                if g0@.contains_key(a) {
                    assert(cfg_dict@[a] == g0@[a]);
                }
            }
        }
    }
    let (mut cfg_out, labels) = label_rules(&terminals);
    let (nfa_grammar, preterms) = match terminal_grammars(&terminals) {
        Ok(x) => x,
        Err(e) => {
            proof {
                let l = choose|l: Seq<char>| #[trigger] terminals@.contains_key(l) && regex_failure(e, terminals@[l]@);
                assert(table_of(terms, &terminals) && reads_as(cfg_str@, terms, &g0) && terminals@.contains_key(l));
            }
            return Err(CfgError::Regex(e));
        },
    };
    let ghost c0 = cfg_out;
    write_rules(&cfg_dict, &labels, &mut cfg_out);
    proof {
        assert forall|a: Seq<char>| #[trigger] prods(&cfg_out, a) == pt_prods(labels@, a) + refs_of(labels@, renamed_prods(&g0, start_symbol@, a)) by {
            assert(prods(&c0, a) == pt_prods(labels@, a));
            assert(prods(&cfg_dict, a) == renamed_prods(&g0, start_symbol@, a));
        }
        assert forall|a: Seq<char>| #[trigger] cfg_out@.contains_key(a) <==> labels@.contains_key(a) || renamed_prods(&g0, start_symbol@, a) != Set::<Seq<Seq<char>>>::empty() by {
            assert(prods(&cfg_dict, a) == renamed_prods(&g0, start_symbol@, a));
        }
        assert(read_cfg(cfg_str@, start_symbol@, &terminals, &g0, terms, &cfg_out, labels@));
    }
    let r: Result<(Grammar, Grammar, Preterms, SymMap<Vec<char>>), CfgError> = Ok((cfg_out, nfa_grammar, preterms, labels));
    assert(r matches Ok((cfg, nfa, pre, lb)) && read_cfg(cfg_str@, start_symbol@, &terminals, &g0, terms, &cfg, lb@));
    r
}

} // verus!
