use cfgzip::cfg::parse_cfg_str;
use cfgzip::gbnf::gbnf_to_regex;
use cfgzip::grammar::Grammar;
use cfgzip::nfa::Preterms;
use cfgzip::normalize::normalize_cfg;
use cfgzip::parse::parse_gbnf;
use cfgzip::pipeline::normalized_grammar;
use cfgzip::symmap::SymMap;

fn chars(s: &str) -> Vec<char> {
    s.chars().collect()
}

fn text(v: &[char]) -> String {
    v.iter().collect()
}

fn matches(re: &[char], s: &str) -> bool {
    let re = text(re);
    regex::Regex::new(&format!("^(?:{re})$")).unwrap().is_match(s)
}

fn regex_of(s: &str) -> Vec<char> {
    match gbnf_to_regex(&chars(s)) {
        Ok(r) => r,
        Err(_) => panic!("no regex for {s}"),
    }
}

fn gbnf(s: &str) -> (SymMap<Vec<char>>, Grammar) {
    match parse_gbnf(&chars(s)) {
        Ok(x) => x,
        Err(_) => panic!("grammar did not parse"),
    }
}

fn prods_of<'a>(g: &'a Grammar, k: &str) -> &'a Vec<Vec<Vec<char>>> {
    match g.get(&chars(k)) {
        Some(v) => v,
        None => panic!("no rule {k}"),
    }
}

fn normalized(grammar: &str) -> (Grammar, Preterms) {
    let (cfg, nfa, preterms, labels) = match parse_cfg_str(&chars(grammar), &chars("root")) {
        Ok(x) => x,
        Err(e) => panic!("{}", e.describe()),
    };
    match normalize_cfg(cfg, &nfa, &labels) {
        Ok(g) => (g, preterms),
        Err(e) => panic!("{}", e.describe()),
    }
}

#[test]
fn gbnf_regex_basics() {
    assert_eq!(text(&regex_of("\"abc\"")), "abc");
    assert!(matches(&regex_of("\"a.b\""), "a.b"));
    assert!(!matches(&regex_of("\"a.b\""), "axb"));
    assert!(matches(&regex_of("[a-z]+"), "abc"));
    assert!(!matches(&regex_of("[a-z]+"), "ABC"));
}

#[test]
fn parse_terminal_reuse() {
    let (terms, prods) = gbnf("root ::= \"a\" \"a\"");
    assert_eq!(terms.keys.len(), 1);
    let t = terms.keys[0].clone();
    assert_eq!(prods_of(&prods, "root"), &vec![vec![t]]);
}

#[test]
fn parse_nonterminal_quant() {
    let (_terms, prods) = gbnf("root ::= item+\nitem ::= \"x\"");
    let aux = prods_of(&prods, "root")[0][0].clone();
    let aux_prods = match prods.get(&aux) {
        Some(v) => v,
        None => panic!("no auxiliary rule"),
    };
    assert!(aux_prods.contains(&vec![chars("item")]));
    assert!(aux_prods.iter().any(|rhs| rhs.contains(&aux)));
}

#[test]
fn parser_handles_comments_multiline_groups_escapes_and_start_symbols() {
    let grammar = r#"
            # whole-line comments disappear
            entry ::= (
                "a#not-comment" [#b] "\n"
                | item? "\t"
            ) # inline comments disappear
            item ::= "x\"y" | "\\"
        "#;
    let (terms, prods) = gbnf(grammar);
    assert!(prods.contains_key(&chars("entry")));
    assert!(prods.contains_key(&chars("item")));
    assert!(terms.vals.iter().any(|rx| matches(rx, "a#not-comment#\n")));
    assert!(terms.vals.iter().any(|rx| matches(rx, "\t")));
    assert!(parse_cfg_str(&chars(grammar), &chars("entry")).is_ok());

    let err = match parse_cfg_str(&chars(grammar), &chars("root")) {
        Ok(_) => panic!("a missing start symbol must be an error"),
        Err(e) => e.describe(),
    };
    assert!(err.contains("start symbol"));
    assert!(err.contains("entry"));
}

#[test]
fn parser_closure_holds_for_mixed_alternation_and_group_quantifiers() {
    let grammar = r#"
            root ::= ("pre" item | alt)+ "!"
            item ::= [a-z]+
            alt ::= "x" | "y"
        "#;
    let (terms, prods) = gbnf(grammar);
    for (lhs, rhss) in prods.keys.iter().zip(prods.vals.iter()) {
        for rhs in rhss {
            for sym in rhs {
                assert!(
                    prods.contains_key(sym) || terms.contains_key(sym),
                    "unknown symbol {} in {} -> {:?}",
                    text(sym),
                    text(lhs),
                    rhs
                );
            }
        }
    }
    assert!(prods_of(&prods, "root").iter().any(|rhs| rhs.len() == 2));
}

#[test]
fn normalization_removes_epsilon_unary_unreachable_and_temporary_symbols() {
    let grammar = r#"
            root ::= a
            a ::= b
            b ::= c?
            c ::= "x"
            dead ::= "z"
        "#;
    let (normed, preterms) = normalized(grammar);
    assert!(normed.contains_key(&chars("S")));
    assert!(!normed.contains_key(&chars("dead")));
    assert!(normed.keys.iter().all(|k| !text(k).starts_with("PT[")));
    assert!(normed.vals.iter().all(|rhss| rhss.iter().all(|rhs| !rhs.is_empty())));
    assert!(normed
        .vals
        .iter()
        .flat_map(|rhss| rhss.iter())
        .all(|rhs| preterms.contains_key(&rhs[0])));
}

#[test]
fn normalization_handles_direct_and_indirect_left_recursion() {
    let grammar = r#"
            root ::= expr
            expr ::= expr "+" atom | term
            term ::= expr "-" atom | atom
            atom ::= [0-9]+
        "#;
    let (normed, preterms) = normalized(grammar);
    assert!(normed.contains_key(&chars("S")));
    assert!(normed.keys.iter().any(|k| text(k).starts_with("LR[")));
    for (lhs, rhss) in normed.keys.iter().zip(normed.vals.iter()) {
        for rhs in rhss {
            assert!(!rhs.is_empty(), "{} has an empty production", text(lhs));
            assert!(
                preterms.contains_key(&rhs[0]),
                "{} -> {:?} is not in GNF byte-preterminal shape",
                text(lhs),
                rhs
            );
        }
    }
}

#[test]
fn normalized_grammar_starts_every_production_with_a_preterminal() {
    let (g, pre) = match normalized_grammar("root ::= (\"a\" | b) \"c\"\nb ::= [x-z]*", "root") {
        Ok(x) => x,
        Err(e) => panic!("{}", e.describe()),
    };
    assert!(g.contains_key(&chars("S")));
    for rhss in &g.vals {
        for rhs in rhss {
            assert!(!rhs.is_empty());
            assert!(pre.contains_key(&rhs[0]));
        }
    }
}

#[test]
fn missing_start_symbol_lists_available_rules() {
    let err = match normalized_grammar("a ::= \"x\"\nb ::= a", "root") {
        Ok(_) => panic!("expected an error"),
        Err(e) => e.describe(),
    };
    assert_eq!(err, "start symbol \"root\" not found; available non-terminals: [\"a\", \"b\"]");
}

#[test]
fn a_quoted_parenthesis_inside_a_group_is_text() {
    let re = regex_of("(\")\" \"x\")");
    assert!(matches(&re, ")x"));
    assert!(!matches(&re, "x"));
    assert!(!matches(&re, ")"));
}
