use cfgzip::cfg::parse_cfg_str;
use cfgzip::classes::ClassOptions;
use cfgzip::normalize::normalize_cfg;
use cfgzip::output::{compute_token_classes, EquivOut};

fn chars(s: &str) -> Vec<char> {
    s.chars().collect()
}

fn test_options() -> ClassOptions {
    ClassOptions { ignore_range: Vec::new(), skip_null_bytes: false, skip_repeat_bytes: false, skip_repeat_min_run: 4 }
}

fn tok(s: &str, id: usize) -> (Vec<u8>, usize) {
    (s.as_bytes().to_vec(), id)
}

fn tok_bytes(bytes: &[u8], id: usize) -> (Vec<u8>, usize) {
    (bytes.to_vec(), id)
}

fn classify(grammar: &str, tokens: Vec<(Vec<u8>, usize)>, eos: usize) -> EquivOut {
    classify_with_options(grammar, tokens, eos, test_options())
}

fn classify_with_options(grammar: &str, tokens: Vec<(Vec<u8>, usize)>, eos: usize, opts: ClassOptions) -> EquivOut {
    let (cfg, nfa, preterms, labels) = match parse_cfg_str(&chars(grammar), &chars("root")) {
        Ok(x) => x,
        Err(e) => panic!("{}", e.describe()),
    };
    let normed = match normalize_cfg(cfg, &nfa, &labels) {
        Ok(g) => g,
        Err(e) => panic!("{}", e.describe()),
    };
    let n_logits = tokens.iter().map(|(_, id)| *id).chain(std::iter::once(eos)).max().unwrap() + 1;
    compute_token_classes(&normed, &preterms, &tokens, eos, n_logits, &opts)
}

fn class_of(eq: &EquivOut, id: usize) -> i32 {
    eq.token_classes[id]
}

fn assert_valid(eq: &EquivOut, id: usize) {
    assert!(
        class_of(eq, id) >= 0,
        "token {id} should have a class; invalid={:?}, classes={:?}",
        eq.invalid_tokens,
        eq.token_classes
    );
    assert!(!eq.invalid_tokens.contains(&(id as i32)), "token {id} should not be invalid");
}

fn assert_invalid(eq: &EquivOut, id: usize) {
    assert_eq!(class_of(eq, id), -1, "token {id} should be unassigned");
    assert!(
        eq.invalid_tokens.contains(&(id as i32)),
        "token {id} should be listed as invalid; invalid={:?}",
        eq.invalid_tokens
    );
}

#[test]
fn prefix_tokens_exercise_partial_and_invalid_suffixes() {
    let eq = classify(
        r#"root ::= "a" "b""#,
        vec![tok("a", 0), tok("ab", 1), tok("abc", 2), tok("b", 3), tok("c", 4), tok("<eos>", 5)],
        5,
    );
    assert_valid(&eq, 0);
    assert_valid(&eq, 1);
    assert_valid(&eq, 3);
    assert_invalid(&eq, 2);
    assert_invalid(&eq, 4);
    assert_valid(&eq, 5);
    assert_ne!(class_of(&eq, 5), class_of(&eq, 1));
}

#[test]
fn shared_prefix_keywords_keep_partial_tokens_distinct_from_full_tokens() {
    let eq = classify(
        r#"root ::= "true" | "false""#,
        vec![
            tok("t", 0),
            tok("tr", 1),
            tok("true", 2),
            tok("f", 3),
            tok("fa", 4),
            tok("false", 5),
            tok("x", 6),
            tok("<eos>", 7),
        ],
        7,
    );
    for id in 0..=5 {
        assert_valid(&eq, id);
    }
    assert_invalid(&eq, 6);
    assert_ne!(class_of(&eq, 0), class_of(&eq, 2));
    assert_ne!(class_of(&eq, 3), class_of(&eq, 5));
}

#[test]
fn nullable_branches_do_not_overaccept_impossible_tokens() {
    let eq = classify(
        r#"
                root ::= sign? ws? digits
                sign ::= "+" | "-"
                ws ::= " "
                digits ::= [0-9]+
            "#,
        vec![
            tok("+", 0),
            tok("-", 1),
            tok(" ", 2),
            tok("1", 3),
            tok("+1", 4),
            tok("- 2", 5),
            tok("++", 6),
            tok("a", 7),
            tok("<eos>", 8),
        ],
        8,
    );
    for id in 0..=5 {
        assert_valid(&eq, id);
    }
    assert_invalid(&eq, 6);
    assert_invalid(&eq, 7);
}

#[test]
fn recursive_arithmetic_tokens_preserve_stack_contexts() {
    let eq = classify(
        r#"
                root ::= expr
                expr ::= term (("+" | "-") term)*
                term ::= factor (("*" | "/") factor)*
                factor ::= [0-9]+ | "(" expr ")"
            "#,
        vec![
            tok("1", 0),
            tok("12", 1),
            tok("+", 2),
            tok("+3", 3),
            tok("(", 4),
            tok("(1", 5),
            tok(")", 6),
            tok("*", 7),
            tok("a", 8),
            tok("<eos>", 9),
        ],
        9,
    );
    for id in 0..=7 {
        assert_valid(&eq, id);
    }
    assert_invalid(&eq, 8);
    assert_ne!(class_of(&eq, 0), class_of(&eq, 2));
    assert_ne!(class_of(&eq, 4), class_of(&eq, 6));
}

#[test]
fn indirect_recursion_and_dead_rules_respect_stack_adjacency_and_reachability() {
    let eq = classify(
        r#"
                root ::= a
                a ::= b "x" | "a"
                b ::= a "y" | "b"
                dead ::= "z"
            "#,
        vec![
            tok("a", 0),
            tok("b", 1),
            tok("x", 2),
            tok("y", 3),
            tok("ax", 4),
            tok("by", 5),
            tok("z", 6),
            tok("<eos>", 7),
        ],
        7,
    );
    for id in 0..=3 {
        assert_valid(&eq, id);
    }
    assert_invalid(&eq, 4);
    assert_invalid(&eq, 5);
    assert_invalid(&eq, 6);
}

#[test]
fn character_classes_cover_ranges_and_negation() {
    let eq = classify(
        r#"
                root ::= word " " number " " not_newline
                word ::= [a-z]+
                number ::= [0-9]+
                not_newline ::= [^\n]+
            "#,
        vec![
            tok("abc", 0),
            tok("9", 1),
            tok(" ", 2),
            tok("Z", 3),
            tok("\n", 4),
            tok("hello 42 ok", 5),
            tok("<eos>", 6),
            tok("A\n", 7),
        ],
        6,
    );
    assert_valid(&eq, 0);
    assert_valid(&eq, 1);
    assert_valid(&eq, 2);
    assert_valid(&eq, 3);
    assert_valid(&eq, 5);
    assert_invalid(&eq, 4);
    assert_invalid(&eq, 7);
}

#[test]
fn utf8_literals_and_split_bytes_are_classified() {
    let lambda = "λ".as_bytes();
    let e_acute = "é".as_bytes();
    let eq = classify(
        r#"root ::= "é" | "λ""#,
        vec![
            tok("é", 0),
            tok("λ", 1),
            tok_bytes(&lambda[..1], 2),
            tok_bytes(&lambda[1..], 3),
            tok_bytes(&e_acute[..1], 4),
            tok("e", 5),
            tok("<eos>", 6),
        ],
        6,
    );
    assert_valid(&eq, 0);
    assert_valid(&eq, 1);
    assert_valid(&eq, 2);
    assert_valid(&eq, 3);
    assert_valid(&eq, 4);
    assert_invalid(&eq, 5);
}

#[test]
fn control_bytes_skip_options_and_ignored_ranges_are_honored() {
    let mut opts = test_options();
    opts.skip_null_bytes = true;
    opts.skip_repeat_bytes = true;
    opts.ignore_range = vec![(6, 7)];
    let eq = classify_with_options(
        r#"root ::= "a" | "\n" | "\t" | "\x00" | "***""#,
        vec![
            tok("a", 0),
            tok("\n", 1),
            tok("\t", 2),
            tok_bytes(&[0], 3),
            tok("***", 4),
            tok("b", 5),
            tok("ignored", 6),
            tok("<eos>", 7),
        ],
        7,
        opts,
    );
    assert_valid(&eq, 0);
    assert_valid(&eq, 1);
    assert_valid(&eq, 2);
    assert_valid(&eq, 3);
    assert_valid(&eq, 4);
    assert_invalid(&eq, 5);
    assert_eq!(class_of(&eq, 6), -1);
    assert!(!eq.invalid_tokens.contains(&6));
    assert_ne!(class_of(&eq, 3), class_of(&eq, 4));
}

#[test]
fn duplicate_state_compression_groups_language_equivalent_tokens() {
    let eq = classify(
        r#"
                root ::= left | right
                left ::= "a" tail
                right ::= "b" tail
                tail ::= "!"
            "#,
        vec![tok("a", 0), tok("b", 1), tok("!", 2), tok("a!", 3), tok("b!", 4), tok("?", 5), tok("<eos>", 6)],
        6,
    );
    assert_valid(&eq, 0);
    assert_valid(&eq, 1);
    assert_valid(&eq, 2);
    assert_valid(&eq, 3);
    assert_valid(&eq, 4);
    assert_invalid(&eq, 5);
    assert_eq!(class_of(&eq, 0), class_of(&eq, 1));
    assert_eq!(class_of(&eq, 3), class_of(&eq, 4));
}

#[test]
fn representatives_choose_shortest_token_in_class_and_eos_is_singleton() {
    let eq = classify(
        r#"root ::= [a-z]+"#,
        vec![tok("a", 0), tok("b", 1), tok("ab", 2), tok("abc", 3), tok("<eos>", 4)],
        4,
    );
    for id in 0..=3 {
        assert_valid(&eq, id);
    }
    assert_valid(&eq, 4);
    assert_ne!(class_of(&eq, 4), class_of(&eq, 0));
    let class = class_of(&eq, 0) as usize;
    assert_eq!(eq.class_representatives[class], b"a");
}

#[test]
fn eos_gets_the_last_class_alone() {
    let eq = classify(r#"root ::= "a"+"#, vec![tok("a", 0), tok("aa", 1), tok("<eos>", 2)], 2);
    let last = eq.class_representatives.len() as i32 - 1;
    assert_eq!(class_of(&eq, 2), last);
    assert!(eq.token_classes.iter().enumerate().all(|(id, c)| id == 2 || *c != last));
    assert_eq!(eq.class_representatives[last as usize], b"<eos>");
}

#[test]
fn ignored_tokens_get_no_class_and_are_not_invalid() {
    let mut opts = test_options();
    opts.ignore_range = vec![(1, 3)];
    let eq = classify_with_options(
        r#"root ::= "a""#,
        vec![tok("a", 0), tok("a", 1), tok("zz", 2), tok("q", 3), tok("<eos>", 4)],
        4,
        opts,
    );
    assert_eq!(class_of(&eq, 1), -1);
    assert_eq!(class_of(&eq, 2), -1);
    assert!(!eq.invalid_tokens.contains(&1));
    assert!(!eq.invalid_tokens.contains(&2));
    assert_eq!(eq.invalid_tokens, vec![3]);
    assert_valid(&eq, 0);
}

#[test]
fn skipped_tokens_get_singleton_classes_before_the_others() {
    let mut opts = test_options();
    opts.skip_repeat_bytes = true;
    opts.skip_repeat_min_run = 3;
    let eq = classify_with_options(
        r#"root ::= "x"+"#,
        vec![tok("x", 0), tok("a---b", 1), tok("+++", 2), tok("<eos>", 3)],
        3,
        opts,
    );
    assert_eq!(class_of(&eq, 1), 0);
    assert_eq!(class_of(&eq, 2), 1);
    assert_eq!(class_of(&eq, 0), 2);
    assert_eq!(class_of(&eq, 3), 3);
    assert_eq!(eq.class_representatives.len(), 4);
    assert_eq!(eq.class_representatives[0], b"a---b");
}

#[test]
fn representative_is_empty_for_ids_beyond_the_logits() {
    let (cfg, nfa, preterms, labels) = match parse_cfg_str(&chars("root ::= \"a\""), &chars("root")) {
        Ok(x) => x,
        Err(e) => panic!("{}", e.describe()),
    };
    let normed = match normalize_cfg(cfg, &nfa, &labels) {
        Ok(g) => g,
        Err(e) => panic!("{}", e.describe()),
    };
    let tokens = vec![tok("a", 0), tok("<eos>", 5)];
    let eq = compute_token_classes(&normed, &preterms, &tokens, 5, 3, &test_options());
    assert_eq!(eq.token_classes, vec![0, -1, -1]);
    assert_eq!(eq.class_representatives, vec![b"a".to_vec(), Vec::new()]);
}

#[test]
fn repeat_runs_shorter_than_the_minimum_are_classified() {
    let mut opts = test_options();
    opts.skip_repeat_bytes = true;
    let eq = classify_with_options(
        r#"root ::= [ a]+"#,
        vec![tok("aaa", 0), tok("    ", 1), tok("a a", 2), tok("<eos>", 3)],
        3,
        opts,
    );
    assert_eq!(class_of(&eq, 1), 0);
    assert_eq!(eq.class_representatives[0], b"    ");
    assert!(class_of(&eq, 0) >= 1);
    assert!(!eq.invalid_tokens.contains(&0));
}
