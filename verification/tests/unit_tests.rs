use std::collections::{HashMap, HashSet};

use cfgzip::adjacency::compute_stack_adj;
use cfgzip::pickle::{i32_le_bytes, push_le_i32s, torch_int_tensor_pickle};
use cfgzip::sorting::sort_by_key;
use cfgzip::table::SeqTable;
use cfgzip::tokens::{
    decode_vocab, eos_from_value, gpt2_byte_decoder, parse_range, parse_usize, resolve_eos, token_to_bytes, EosLookup,
    EosValue, RangeError, TokenError, first_eos, eos_config_files, EosFields,
};
use cfgzip::traverse::{compute_stack_in_out_for_trie, AdjSet, IntGrammar};

fn chars(s: &str) -> Vec<char> {
    s.chars().collect()
}

#[test]
fn token_trie_reuses_prefix_frontiers() {
    let mut preterms_rev: Vec<Vec<usize>> = (0..256).map(|_| Vec::new()).collect();
    preterms_rev[b'a' as usize] = vec![1];
    let mut transitions: Vec<Vec<(usize, Vec<Vec<usize>>)>> = (0..2).map(|_| Vec::new()).collect();
    transitions[1].push((0, vec![Vec::new(), vec![0]]));
    let ig = IntGrammar {
        preterms_rev,
        nt_map: vec![Vec::new(), vec![0]],
        transitions,
        stack_adj: (0..2).map(|_| AdjSet::new()).collect(),
        start: 0,
    };
    let tasks = vec![(vec![b'a'], 10), (vec![b'a', b'a'], 11), (vec![b'b'], 12)];
    let traversal = compute_stack_in_out_for_trie(&tasks, &ig);
    let got = traversal
        .tokens
        .iter()
        .map(|result| {
            let materialized = result.stack_pairs.as_ref().map(|pairs| {
                let stacks = &traversal.stack_sets[result.stack_set];
                pairs
                    .iter()
                    .map(|(in_stack, out_stack)| (stacks.get(*in_stack).clone(), stacks.get(*out_stack).clone()))
                    .collect::<HashSet<_>>()
            });
            (result.token_id, materialized)
        })
        .collect::<HashMap<_, _>>();

    let one_a = HashSet::from([(vec![0], Vec::new()), (vec![0], vec![0])]);
    let two_a = HashSet::from([(vec![0], Vec::new()), (vec![0], vec![0])]);
    assert_eq!(got.get(&10), Some(&Some(one_a)));
    assert_eq!(got.get(&11), Some(&Some(two_a)));
    assert_eq!(got.get(&12), Some(&None));
}

#[test]
fn traversal_results_come_in_token_order() {
    let mut preterms_rev: Vec<Vec<usize>> = (0..256).map(|_| Vec::new()).collect();
    preterms_rev[b'a' as usize] = vec![1];
    let mut transitions: Vec<Vec<(usize, Vec<Vec<usize>>)>> = (0..2).map(|_| Vec::new()).collect();
    transitions[1].push((0, vec![Vec::new(), vec![0]]));
    let ig = IntGrammar {
        preterms_rev,
        nt_map: vec![Vec::new(), vec![0]],
        transitions,
        stack_adj: (0..2).map(|_| AdjSet::new()).collect(),
        start: 0,
    };
    let tasks = vec![(vec![b'b'], 7), (vec![b'a', b'a'], 3), (vec![b'a'], 5)];
    let traversal = compute_stack_in_out_for_trie(&tasks, &ig);
    let ids: Vec<usize> = traversal.tokens.iter().map(|r| r.token_id).collect();
    assert_eq!(ids, vec![3, 5, 7]);
}

#[test]
fn stack_adjacency_follows_last_symbol_chains_to_unary_rules() {
    // 0 -> 7 1 2 ; 1 -> 4 5 ; 5 -> 6 ; 2, 4, 6, 7 have no rules
    let g: Vec<Vec<Vec<usize>>> = vec![
        vec![vec![7, 1, 2]],
        vec![vec![4, 5]],
        Vec::new(),
        Vec::new(),
        Vec::new(),
        vec![vec![6]],
        Vec::new(),
        Vec::new(),
    ];
    let adj = compute_stack_adj(&g, 0);
    assert_eq!(adj.len(), 8);
    // the start symbol follows nothing
    assert!(!adj[0].contains(None));
    // `2` comes after `1`, and the chain of last symbols 1 -> 5 ends at a unary rule
    assert!(adj[2].contains(None));
    assert!(adj[2].contains(Some(5)));
    assert!(!adj[2].contains(Some(1)));
    assert!(!adj[2].contains(Some(6)));
    // `1` and `5` sit after the first position, with nothing before them
    assert!(adj[1].contains(None));
    assert!(!adj[1].contains(Some(5)));
    assert!(adj[5].contains(None));
    // first symbols without rules get nothing
    assert!(!adj[4].contains(None));
    assert!(!adj[7].contains(None));
    assert!(!adj[6].contains(None));
}

#[test]
fn sort_keeps_ties_in_order() {
    let v = vec![(vec![1u8], 3usize), (vec![2u8], 1), (vec![3u8], 3), (vec![4u8], 0)];
    let r = sort_by_key(v);
    let firsts: Vec<u8> = r.iter().map(|(b, _)| b[0]).collect();
    assert_eq!(firsts, vec![4, 2, 1, 3]);
}

#[test]
fn table_numbers_equal_sequences_once() {
    let mut t = SeqTable::new();
    let a = t.intern(vec![1, 2, 3]);
    let b = t.intern(vec![4]);
    let c = t.intern(vec![1, 2, 3]);
    assert_eq!(a, 0);
    assert_eq!(b, 1);
    assert_eq!(c, 0);
    assert_eq!(t.len(), 2);
    assert_eq!(t.lookup(&vec![4]), Some(1));
    assert_eq!(t.lookup(&vec![5]), None);
}

#[test]
fn gpt2_alphabet_decodes_shifted_and_printable_bytes() {
    let d = gpt2_byte_decoder();
    assert_eq!(d.decode('\u{100}'), Some(0));
    assert_eq!(d.decode('\u{120}'), Some(32));
    assert_eq!(d.decode('!'), Some(33));
    assert_eq!(d.decode('~'), Some(126));
    assert_eq!(d.decode('\u{121}'), Some(127));
    assert_eq!(d.decode('\u{142}'), Some(160));
    assert_eq!(d.decode('\u{143}'), Some(173));
    assert_eq!(d.decode('\u{ff}'), Some(255));
    assert_eq!(d.decode(' '), None);
    assert_eq!(d.decode('\u{144}'), None);
    assert_eq!(d.decode('€'), None);
}

#[test]
fn token_strings_become_bytes() {
    let d = gpt2_byte_decoder();
    match token_to_bytes("\u{120}hi", &d) {
        Ok(b) => assert_eq!(b, vec![32, b'h', b'i']),
        Err(_) => panic!("expected bytes"),
    }
    match token_to_bytes("<0x0A>", &d) {
        Ok(b) => assert_eq!(b, vec![10]),
        Err(_) => panic!("expected bytes"),
    }
    match token_to_bytes("<0xfF>", &d) {
        Ok(b) => assert_eq!(b, vec![255]),
        Err(_) => panic!("expected bytes"),
    }
    match token_to_bytes("<0x0A", &d) {
        Ok(b) => assert_eq!(b, vec![b'<', b'0', b'x', b'0', b'A']),
        Err(_) => panic!("expected bytes"),
    }
    match token_to_bytes("a€", &d) {
        Err(TokenError::UnknownChar(c, t)) => {
            assert_eq!(c, '€');
            assert_eq!(t, "a€");
        },
        _ => panic!("expected an unknown character"),
    }
}

#[test]
fn vocab_entries_decode_or_report_the_failing_entry() {
    match decode_vocab(&vec![(Some("a".to_string()), 3), (Some("<0x00>".to_string()), 9)]) {
        Ok(v) => assert_eq!(v, vec![(vec![b'a'], 3), (vec![0], 9)]),
        Err(_) => panic!("expected tokens"),
    }
    match decode_vocab(&vec![(Some("a".to_string()), 3), (None, 7)]) {
        Err(TokenError::MissingToken(id)) => assert_eq!(id, 7),
        _ => panic!("expected a missing token"),
    }
}

#[test]
fn eos_settings_resolve_to_ids() {
    assert!(matches!(eos_from_value(&EosValue::Number(Some(2))), EosLookup::Found(2)));
    assert!(matches!(eos_from_value(&EosValue::Number(None)), EosLookup::Missing));
    match eos_from_value(&EosValue::Str("</s>".to_string())) {
        EosLookup::Name(n) => assert_eq!(n, "</s>"),
        _ => panic!("expected a name"),
    }
    assert!(matches!(eos_from_value(&EosValue::Object(Some(7), Some("x".to_string()))), EosLookup::Found(7)));
    match eos_from_value(&EosValue::Object(None, Some("<|end|>".to_string()))) {
        EosLookup::Name(n) => assert_eq!(n, "<|end|>"),
        _ => panic!("expected a name"),
    }
    assert!(matches!(eos_from_value(&EosValue::Object(None, None)), EosLookup::Missing));
    assert!(matches!(eos_from_value(&EosValue::Other), EosLookup::Missing));
    assert_eq!(resolve_eos(&EosLookup::Found(4), None), Some(4));
    assert_eq!(resolve_eos(&EosLookup::Name("x".to_string()), Some(11)), Some(11));
    assert_eq!(resolve_eos(&EosLookup::Name("x".to_string()), None), None);
    assert_eq!(resolve_eos(&EosLookup::Missing, Some(1)), None);
}

#[test]
fn ranges_read_both_separators() {
    assert!(matches!(parse_range("3..7"), Ok((3, 7))));
    assert!(matches!(parse_range("3:7"), Ok((3, 7))));
    assert!(matches!(parse_range("+5..6"), Ok((5, 6))));
    assert!(matches!(parse_range("1..2..3"), Err(RangeError::BadEnd)));
    assert!(matches!(parse_range("a..3"), Err(RangeError::BadStart)));
    assert!(matches!(parse_range("..3"), Err(RangeError::BadStart)));
    assert!(matches!(parse_range("3..x"), Err(RangeError::BadEnd)));
    assert!(matches!(parse_range("37"), Err(RangeError::Format)));
    assert_eq!(RangeError::Format.describe(), "expected START..END");
    assert_eq!(RangeError::BadStart.describe(), "bad start");
    assert_eq!(RangeError::BadEnd.describe(), "bad end");
}

#[test]
fn decimal_numbers_read_like_usize_from_str() {
    assert_eq!(parse_usize(&chars("0")), Some(0));
    assert_eq!(parse_usize(&chars("+12")), Some(12));
    assert_eq!(parse_usize(&chars("18446744073709551615")), Some(usize::MAX));
    assert_eq!(parse_usize(&chars("18446744073709551616")), None);
    assert_eq!(parse_usize(&chars("")), None);
    assert_eq!(parse_usize(&chars("+")), None);
    assert_eq!(parse_usize(&chars("-1")), None);
    assert_eq!(parse_usize(&chars("1 ")), None);
}

#[test]
fn tensor_pickle_has_the_expected_bytes() {
    let expected: &[u8] = b"\x80\x02ctorch._utils\n_rebuild_tensor_v2\nq\x00((X\x07\x00\x00\x00storageq\x01ctorch\nIntStorage\nq\x02X\x01\x00\x00\x000q\x03X\x03\x00\x00\x00cpuq\x04J\x03\x00\x00\x00tq\x05QJ\x00\x00\x00\x00J\x03\x00\x00\x00\x85q\x06J\x01\x00\x00\x00\x85q\x07\x89ccollections\nOrderedDict\nq\x08)Rq\x09tq\x0aRq\x0b.";
    assert_eq!(torch_int_tensor_pickle(3), expected.to_vec());
    let p = torch_int_tensor_pickle(70000);
    assert_eq!(&p[92..96], &70000i32.to_le_bytes());
}

#[test]
fn tensor_data_is_little_endian() {
    assert_eq!(i32_le_bytes(-2), [0xfe, 0xff, 0xff, 0xff]);
    assert_eq!(i32_le_bytes(258), [2, 1, 0, 0]);
    let mut out = vec![9u8];
    push_le_i32s(&mut out, &vec![1, -1, 5], 1, 3);
    assert_eq!(out, vec![9, 0xff, 0xff, 0xff, 0xff, 5, 0, 0, 0]);
}

#[test]
fn eos_is_the_first_setting_that_resolves() {
    assert_eq!(eos_config_files(), vec!["tokenizer_config.json", "special_tokens_map.json", "config.json"]);
    let files = vec![
        None,
        Some(EosFields { eos_token_id: Some(EosValue::Other), eos_token: Some(EosValue::Str("</s>".to_string())) }),
        Some(EosFields { eos_token_id: Some(EosValue::Number(Some(7))), eos_token: None }),
    ];
    assert_eq!(first_eos(&files, &vec![None, None, None, Some(2), None, None], Some(9)), Some(2));
    assert_eq!(first_eos(&files, &vec![None, None, None, None, None, None], Some(9)), Some(7));
    let none: Vec<Option<EosFields>> = vec![None, None, None];
    assert_eq!(first_eos(&none, &vec![], Some(9)), Some(9));
    assert_eq!(first_eos(&none, &vec![], None), None);
}
