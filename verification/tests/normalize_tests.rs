use cfgzip::cfg::parse_cfg_str;
use cfgzip::grammar::{new_grammar, sdict_add, Grammar};
use cfgzip::normalize::{cfg_to_gnf, remove_epsilon_productions, remove_unreachable_symbols, set_add, SymSet};
use cfgzip::symmap::SymMap;

fn chars(s: &str) -> Vec<char> {
    s.chars().collect()
}

fn rhs(syms: &[&str]) -> Vec<Vec<char>> {
    syms.iter().map(|s| chars(s)).collect()
}

fn grammar(rules: &[(&str, &[&str])]) -> Grammar {
    let mut g = new_grammar();
    for (lhs, body) in rules {
        sdict_add(&mut g, &chars(lhs), rhs(body));
    }
    g
}

fn names(g: &Grammar) -> Vec<String> {
    g.keys.iter().map(|k| k.iter().collect()).collect()
}

fn bodies(g: &Grammar, k: &str) -> Vec<Vec<String>> {
    let mut out: Vec<Vec<String>> = match g.get(&chars(k)) {
        Some(ps) => ps.iter().map(|r| r.iter().map(|s| s.iter().collect()).collect()).collect(),
        None => panic!("no rule {k}"),
    };
    out.sort();
    out
}

fn strings(v: &[&[&str]]) -> Vec<Vec<String>> {
    let mut out: Vec<Vec<String>> = v.iter().map(|r| r.iter().map(|s| s.to_string()).collect()).collect();
    out.sort();
    out
}

fn preterminals(names: &[&str]) -> SymSet {
    let mut s: SymSet = SymMap::new();
    for n in names {
        set_add(&mut s, &chars(n));
    }
    s
}

#[test]
fn unreachable_rules_are_dropped_and_reachable_ones_kept() {
    let mut g = grammar(&[
        ("S", &["A", "b"]),
        ("A", &["c", "D"]),
        ("D", &["d"]),
        ("B", &["d"]),
        ("C", &["C"]),
    ]);
    remove_unreachable_symbols(&mut g);
    assert_eq!(names(&g), vec!["A", "D", "S"]);
    assert_eq!(bodies(&g, "A"), strings(&[&["c", "D"]]));
}

#[test]
fn unreachable_removal_keeps_nothing_without_a_start_rule() {
    let mut g = grammar(&[("A", &["a"]), ("B", &["A"])]);
    remove_unreachable_symbols(&mut g);
    assert!(names(&g).is_empty());
}

#[test]
fn empty_rules_vanish_and_no_production_is_empty() {
    let mut g = grammar(&[("S", &["A", "b"]), ("A", &[])]);
    remove_epsilon_productions(&mut g);
    assert_eq!(names(&g), vec!["S"]);
    assert_eq!(bodies(&g, "S"), strings(&[&["b"]]));
}

#[test]
fn nullable_symbols_give_variants_with_and_without_them() {
    let mut g = grammar(&[("S", &["A", "b"]), ("A", &["a"]), ("A", &[])]);
    remove_epsilon_productions(&mut g);
    assert_eq!(bodies(&g, "S"), strings(&[&["A", "b"], &["b"]]));
    assert_eq!(bodies(&g, "A"), strings(&[&["a"]]));
}

#[test]
fn leading_non_terminals_are_substituted_away() {
    let g = grammar(&[("S", &["A", "x"]), ("A", &["y"])]);
    let out = match cfg_to_gnf(g, &preterminals(&["x", "y"])) {
        Ok(g) => g,
        Err(_) => panic!("conversion failed"),
    };
    assert_eq!(names(&out), vec!["S"]);
    assert_eq!(bodies(&out, "S"), strings(&[&["y", "x"]]));
}

#[test]
fn rules_with_the_same_productions_are_merged() {
    let g = grammar(&[("S", &["x", "A"]), ("S", &["x", "B"]), ("A", &["y"]), ("B", &["y"])]);
    let out = match cfg_to_gnf(g, &preterminals(&["x", "y"])) {
        Ok(g) => g,
        Err(_) => panic!("conversion failed"),
    };
    assert_eq!(names(&out), vec!["A", "S"]);
    assert_eq!(bodies(&out, "S"), strings(&[&["x", "A"]]));
    assert_eq!(bodies(&out, "A"), strings(&[&["y"]]));
}

#[test]
fn start_rule_is_renamed_and_terminals_go_through_pt_rules() {
    let text = chars("root ::= \"a\" b\nb ::= \"c\" | \"\"");
    let (cfg, _nfa, _pre, labels) = match parse_cfg_str(&text, &chars("root")) {
        Ok(x) => x,
        Err(_) => panic!("grammar did not parse"),
    };
    assert_eq!(names(&cfg), vec!["PT[__T0]", "PT[__T1]", "S", "b"]);
    assert_eq!(bodies(&cfg, "S"), strings(&[&["PT[__T0]", "b"]]));
    assert_eq!(bodies(&cfg, "b"), strings(&[&["PT[__T1]"], &["ε"]]));
    assert_eq!(bodies(&cfg, "PT[__T0]"), strings(&[&["__T0"]]));
    assert_eq!(labels.get(&chars("PT[__T1]")), Some(&chars("__T1")));
}
