//! From grammar text and a vocabulary to token classes: parse, normalize,
//! then classify.
use vstd::prelude::*;
use crate::symbols::str_to_chars;
use crate::grammar::{Grammar, grammar_wf, prods, all_prods};
use crate::nfa::{Preterms, right_linear};
use crate::cfg::{CfgError, parse_cfg_str};
use crate::gbnf::GbnfError;
use crate::parse::{rule_lines, has_sep, rule_lhs, rules_need, table_of, reads_as};

use crate::normalize::{normalize_cfg, extends_nfa_prods, is_state_name};
use crate::symmap::SymMap;
use crate::cfg::{read_cfg, regex_failure};
use crate::classes::ClassOptions;
use crate::output::{EquivOut, compute_token_classes, layout_ok, output_of, unique_ids, int_grammar_of, classes_read};
use crate::traverse::IntGrammar;

verus! {

/// Every production is non-empty and starts with a preterminal.
pub open spec fn greibach(g: &Grammar, pre: &Preterms) -> bool {
    forall|x: Seq<char>, r: Seq<Seq<char>>| #[trigger] prods(g, x).contains(r) ==> r.len() >= 1 && pre@.contains_key(r[0])
}

/// What reading the grammar text gives: the grammar `cfg` read from the
/// text with its start rule named `S`, the right-linear grammar `nfa` of
/// its terminals over the preterminals `pre`, and the terminal labels.
pub open spec fn parsed_as(gbnf: Seq<char>, start: Seq<char>, cfg: &Grammar, nfa: &Grammar, pre: &Preterms, labels: &SymMap<Vec<char>>) -> bool {
    &&& grammar_wf(cfg)
    &&& grammar_wf(nfa)
    &&& pre.wf()
    &&& labels.wf()
    &&& all_prods(nfa, |rr: Seq<Seq<char>>| right_linear(pre, rr))
    &&& exists|t: SymMap<Vec<char>>, g: Grammar, terms: Map<Seq<char>, Vec<char>>| #[trigger] read_cfg(gbnf, start, &t, &g, terms, cfg, labels@)
}

/// `g` over `pre` is what normalizing the grammar read from the text
/// gives: a well-formed grammar in Greibach normal form whose productions
/// each start with a whole production of the terminals' right-linear
/// grammar, and which keeps that grammar's inner state rules as they are.
pub open spec fn normalized_from(gbnf: Seq<char>, start: Seq<char>, g: &Grammar, pre: &Preterms) -> bool {
    &&& grammar_wf(g)
    &&& pre.wf()
    &&& greibach(g, pre)
    &&& exists|cfg: Grammar, nfa: Grammar, labels: SymMap<Vec<char>>| #[trigger] parsed_as(gbnf, start, &cfg, &nfa, pre, &labels) && extends_nfa_prods(g, &nfa) && forall|y: Seq<char>| nfa@.contains_key(y) && #[trigger] is_state_name(y) ==> g@.contains_key(y) && prods(g, y) == prods(&nfa, y)
}

/// Law: a grammar whose productions each start with a whole production
/// of a right-linear grammar over preterminals is in Greibach normal form
/// over those preterminals: each production starts with one.
pub proof fn law_normalized_grammar_is_greibach(out: &Grammar, nfa: &Grammar, pre: &Preterms)
    requires
        extends_nfa_prods(out, nfa),
        all_prods(nfa, |r: Seq<Seq<char>>| right_linear(pre, r)),
    ensures
        greibach(out, pre),
{
    assert forall|x: Seq<char>, r: Seq<Seq<char>>| #[trigger] prods(out, x).contains(r) implies r.len() >= 1 && pre@.contains_key(r[0]) by {
        let (y, p) = choose|y: Seq<char>, p: Seq<Seq<char>>| #[trigger] prods(nfa, y).contains(p) && p.len() <= r.len() && r.take(p.len() as int) == p;
        assert(right_linear(pre, p));
        assert(r.take(p.len() as int)[0] == r[0]);
    }
}

/// The grammar text read, its start rule taken from `start_symbol`, and
/// the whole normalized: a grammar in Greibach normal form over the byte
/// preterminals, with those preterminals.
pub fn normalized_grammar(gbnf: &str, start_symbol: &str) -> (r: Result<(Grammar, Preterms), CfgError>)
    ensures
        r matches Ok((g, pre)) ==> grammar_wf(&g) && pre.wf() && greibach(&g, &pre),
        r matches Ok((g, pre)) ==> normalized_from(gbnf@, start_symbol@, &g, &pre),
        (exists|i: int| 0 <= i < rule_lines(gbnf@).len() && !has_sep(#[trigger] rule_lines(gbnf@)[i])) <==> r matches Err(CfgError::Gbnf(GbnfError::InvalidRule(_))),
        r matches Err(CfgError::MissingStart(s, _)) ==> s@ == start_symbol@ && forall|i: int| 0 <= i < rule_lines(gbnf@).len() ==> rule_lhs(#[trigger] rule_lines(gbnf@)[i]) != start_symbol@,
        r matches Err(CfgError::Regex(e)) ==> exists|t: SymMap<Vec<char>>, g: Grammar, terms: Map<Seq<char>, Vec<char>>, l: Seq<char>| #[trigger] table_of(terms, &t) && #[trigger] reads_as(gbnf@, terms, &g) && t@.contains_key(l) && #[trigger] regex_failure(e, t@[l]@),
        r matches Err(CfgError::Gbnf(GbnfError::TooManyRules)) ==> rules_need(rule_lines(gbnf@), rule_lines(gbnf@).len() as int) > usize::MAX,
{
    let text = str_to_chars(gbnf);
    let start = str_to_chars(start_symbol);
    let (cfg, nfa, preterms, labels) = parse_cfg_str(&text, &start)?;
    let normed = normalize_cfg(cfg, &nfa, &labels)?;
    proof {
        law_normalized_grammar_is_greibach(&normed, &nfa, &preterms);
        assert(parsed_as(gbnf@, start_symbol@, &cfg, &nfa, &preterms, &labels));
    }
    Ok((normed, preterms))
}

/// The largest token id among the first `upto` tokens (`0` for none).
pub open spec fn max_id(tokens: Seq<(Vec<u8>, usize)>, upto: int) -> usize
    decreases upto,
{
    if upto <= 0 {
        0
    } else {
        let m = max_id(tokens, upto - 1);
        if tokens[upto - 1].1 > m {
            tokens[upto - 1].1
        } else {
            m
        }
    }
}

/// The number of logits when none is given: one more than the largest
/// token id.
pub fn default_n_logits(tokens: &Vec<(Vec<u8>, usize)>) -> (n: usize)
    requires
        forall|i: int| 0 <= i < tokens.len() ==> #[trigger] tokens@[i].1 < usize::MAX,
    ensures
        n == max_id(tokens@, tokens.len() as int) + 1,
{
    let mut m: usize = 0;
    let mut i: usize = 0;
    while i < tokens.len()
        invariant
            i <= tokens.len(),
            m == max_id(tokens@, i as int),
            m < usize::MAX,
            forall|j: int| 0 <= j < tokens.len() ==> #[trigger] tokens@[j].1 < usize::MAX,
        decreases tokens.len() - i,
    {
        if tokens[i].1 > m {
            m = tokens[i].1;
        }
        i = i + 1;
    }
    m + 1
}

/// The token classes of a vocabulary under a GBNF grammar: the grammar is
/// read and normalized (its errors are returned), and the tokens are
/// classified for `n_logits` logits, or one more than the largest token id
/// when none is given.
pub fn preprocess(gbnf: &str, start_symbol: &str, tokens: &Vec<(Vec<u8>, usize)>, eos: usize, n_logits: Option<usize>, opts: &ClassOptions) -> (r: Result<EquivOut, CfgError>)
    requires
        forall|i: int| 0 <= i < tokens.len() ==> #[trigger] tokens@[i].1 < usize::MAX,
    ensures
        r matches Ok(out) ==> {
            let n = match n_logits {
                Some(n) => n,
                None => (max_id(tokens@, tokens.len() as int) + 1) as usize,
            };
            &&& exists|cl: Seq<Seq<usize>>| #[trigger] layout_ok(cl, tokens@, eos, opts) && output_of(cl, tokens@, n, &out)
            &&& unique_ids(tokens@) && out.class_representatives.len() <= i32::MAX ==> exists|g: Grammar, pre: Preterms, ig: IntGrammar| #[trigger] normalized_from(gbnf@, start_symbol@, &g, &pre) && #[trigger] int_grammar_of(&ig, &g, &pre, tokens@) && classes_read(&out, tokens@, eos, opts, &ig, n)
        },
        (exists|i: int| 0 <= i < rule_lines(gbnf@).len() && !has_sep(#[trigger] rule_lines(gbnf@)[i])) <==> r matches Err(CfgError::Gbnf(GbnfError::InvalidRule(_))),
        r matches Err(CfgError::MissingStart(s, _)) ==> s@ == start_symbol@ && forall|i: int| 0 <= i < rule_lines(gbnf@).len() ==> rule_lhs(#[trigger] rule_lines(gbnf@)[i]) != start_symbol@,
        r matches Err(CfgError::Regex(e)) ==> exists|t: SymMap<Vec<char>>, g: Grammar, terms: Map<Seq<char>, Vec<char>>, l: Seq<char>| #[trigger] table_of(terms, &t) && #[trigger] reads_as(gbnf@, terms, &g) && t@.contains_key(l) && #[trigger] regex_failure(e, t@[l]@),
        r matches Err(CfgError::Gbnf(GbnfError::TooManyRules)) ==> rules_need(rule_lines(gbnf@), rule_lines(gbnf@).len() as int) > usize::MAX,
{
    let (g, pre) = normalized_grammar(gbnf, start_symbol)?;
    let n = match n_logits {
        Some(n) => n,
        None => default_n_logits(tokens),
    };
    let out = compute_token_classes(&g, &pre, tokens, eos, n, opts);
    proof {
        if unique_ids(tokens@) && out.class_representatives.len() <= i32::MAX {
            let ig = choose|ig: IntGrammar| #[trigger] int_grammar_of(&ig, &g, &pre, tokens@) && classes_read(&out, tokens@, eos, opts, &ig, n);
            assert(normalized_from(gbnf@, start_symbol@, &g, &pre) && int_grammar_of(&ig, &g, &pre, tokens@) && classes_read(&out, tokens@, eos, opts, &ig, n));
        }
    }
    Ok(out)
}

} // verus!
