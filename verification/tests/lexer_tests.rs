use cfgzip::gbnf::{extract_groups, gbnf_to_regex, join_lines, strip_comment, tok_is_terminal, tokenize, GbnfError, Tok};
use cfgzip::nfa::regex_to_gnf_cfg;
use cfgzip::parse::parse_gbnf;
use cfgzip::text::split_lines;

fn chars(s: &str) -> Vec<char> {
    s.chars().collect()
}

fn text(v: &[char]) -> String {
    v.iter().collect()
}

fn describe(t: &Tok) -> (String, String, String) {
    match t {
        Tok::Str(x, q) => ("str".to_string(), text(x), text(q)),
        Tok::Cls(x, q) => ("cls".to_string(), text(x), text(q)),
        Tok::Group(x, q) => ("group".to_string(), text(x), text(q)),
        Tok::Nt(x, q) => ("name".to_string(), text(x), text(q)),
        Tok::Alt => ("alt".to_string(), String::new(), String::new()),
    }
}

fn owned(kind: &str, x: &str, q: &str) -> (String, String, String) {
    (kind.to_string(), x.to_string(), q.to_string())
}

#[test]
fn tokenize_reads_pieces_quantifiers_and_alternatives() {
    let toks = tokenize(&chars("name \"a\\\"b\"* [x-z]+ (c | d)? | other-1 # gone"));
    let got: Vec<(String, String, String)> = toks.iter().map(describe).collect();
    assert_eq!(
        got,
        vec![
            owned("name", "name", ""),
            owned("str", "\"a\\\"b\"", "*"),
            owned("cls", "[x-z]", "+"),
            owned("group", "(c | d)", "?"),
            owned("alt", "", ""),
            owned("name", "other-1", ""),
        ]
    );
}

#[test]
fn tokenize_stops_unterminated_pieces_at_the_end() {
    let toks = tokenize(&chars("\"abc"));
    let got: Vec<(String, String, String)> = toks.iter().map(describe).collect();
    assert_eq!(got, vec![owned("str", "\"abc", "")]);
}

#[test]
fn groups_are_terminal_only_when_all_their_tokens_are() {
    assert!(tok_is_terminal(&Tok::Group(chars("(\"x\" [y]* | \"z\")"), chars(""))));
    assert!(!tok_is_terminal(&Tok::Group(chars("(\"x\" name)"), chars(""))));
    assert!(!tok_is_terminal(&Tok::Nt(chars("name"), chars(""))));
    assert!(tok_is_terminal(&Tok::Cls(chars("[a]"), chars("+"))));
}

#[test]
fn comments_end_at_hash_outside_literals_and_classes() {
    assert_eq!(text(&strip_comment(&chars("a ::= \"#\" [#] \\# b # c"))), "a ::= \"#\" [#] \\# b ");
    assert_eq!(text(&strip_comment(&chars("no comment"))), "no comment");
}

#[test]
fn lines_split_like_str_lines() {
    let lines: Vec<String> = split_lines(&chars("a\r\nb\n\nc\n")).iter().map(|l| text(l)).collect();
    assert_eq!(lines, vec!["a", "b", "", "c"]);
    assert!(split_lines(&chars("")).is_empty());
}

#[test]
fn continuation_lines_join_until_parentheses_close() {
    let joined: Vec<String> = join_lines(vec![chars("a ::= ("), chars("\"x\" \")\""), chars(")"), chars("b ::= c")])
        .iter()
        .map(|l| text(l))
        .collect();
    assert_eq!(joined, vec!["a ::= ( \"x\" \")\" )", "b ::= c"]);
}

#[test]
fn group_pieces_keep_literals_classes_and_nested_groups_whole() {
    let pieces: Vec<String> = extract_groups(&chars("( \"a b\" [c d] (e (f)) g* )")).iter().map(|p| text(p)).collect();
    assert_eq!(pieces, vec!["\"a b\"", "[c d]", "(e (f))", "g", "*"]);
}

#[test]
fn terminal_bodies_become_regular_expressions() {
    match gbnf_to_regex(&chars("\"ab\"+ [x]")) {
        Ok(r) => assert_eq!(text(&r), "(?:ab)+[x]"),
        Err(_) => panic!("no regex"),
    }
    match gbnf_to_regex(&chars("d")) {
        Ok(r) => assert_eq!(text(&r), "d"),
        Err(_) => panic!("no regex"),
    }
}

#[test]
fn a_lone_multibyte_piece_is_not_recognized() {
    match gbnf_to_regex(&chars("é")) {
        Err(GbnfError::UnrecognizedAtom(a)) => assert_eq!(text(&a), "é"),
        _ => panic!("expected an unrecognized piece"),
    }
}

#[test]
fn a_line_without_separator_is_an_invalid_rule() {
    match parse_gbnf(&chars("a ::= \"x\"\nb c\nd e")) {
        Err(GbnfError::InvalidRule(l)) => assert_eq!(text(&l), "b c"),
        _ => panic!("expected an invalid rule"),
    }
}

#[test]
fn a_one_byte_regex_gives_one_preterminal_production() {
    let (g, pre) = match regex_to_gnf_cfg(&chars("T"), &chars("a")) {
        Ok(x) => x,
        Err(_) => panic!("regex did not become a grammar"),
    };
    let prods = match g.get(&chars("T")) {
        Some(p) => p,
        None => panic!("no rule for the start state"),
    };
    assert_eq!(prods.len(), 1);
    assert_eq!(prods[0].len(), 1);
    match pre.get(&prods[0][0]) {
        Some(bytes) => assert_eq!(bytes, &vec![b'a']),
        None => panic!("the production does not start with a preterminal"),
    }
}

#[test]
fn a_rejected_regex_is_a_compile_error() {
    match regex_to_gnf_cfg(&chars("T"), &chars("(")) {
        Err(cfgzip::nfa::NfaError::Compile(p)) => assert_eq!(text(&p), "("),
        _ => panic!("expected a compile error"),
    }
}
