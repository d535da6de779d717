use utf_regex::expression::Expression;
use utf_regex::nfa::{Edge, EdgeType, NFA};
use utf_regex::utf_parser::{bytes_to_codepoints, CodePoint, Parser};
use std::collections::HashSet;

#[test]
fn ascii_one_unit_per_byte() {
    let text = "hello, world! 0123456789";
    let units = bytes_to_codepoints(text.as_bytes().to_vec()).unwrap();
    assert_eq!(units.len(), text.len());
    for u in &units {
        assert_eq!(u.bytes().len(), 1);
    }
}

#[test]
fn mixed_multibyte_count() {
    let units = bytes_to_codepoints("h\u{e9}llo, th\u{e9}r\u{e9}!".as_bytes().to_vec()).unwrap();
    assert_eq!(units.len(), 13);
    assert_eq!(units[0].bytes(), b"h");
    assert_eq!(units[1].bytes(), "\u{e9}".as_bytes());
    assert_eq!(units[2].bytes(), b"l");
}

#[test]
fn four_byte_unit_kept_whole() {
    let units = bytes_to_codepoints("a\u{1F600}b".as_bytes().to_vec()).unwrap();
    assert_eq!(units.len(), 3);
    assert_eq!(units[1].bytes(), "\u{1F600}".as_bytes());
}

#[test]
fn empty_buffer_has_no_units() {
    assert_eq!(bytes_to_codepoints(Vec::new()).unwrap().len(), 0);
}

#[test]
fn cursor_peek_and_consume() {
    let mut parser = Parser::from_bytes(b"ab".to_vec()).unwrap();
    assert_eq!(parser.peek().unwrap().bytes(), b"a");
    assert_eq!(parser.peek().unwrap().bytes(), b"a");
    assert_eq!(parser.consume().unwrap().bytes(), b"a");
    assert_eq!(parser.peek().unwrap().bytes(), b"b");
    assert_eq!(parser.consume().unwrap().bytes(), b"b");
    assert!(parser.peek().is_none());
    assert!(parser.consume().is_none());
}

#[test]
fn sign_units() {
    assert_eq!(CodePoint::pipe().bytes(), b"|");
    assert_eq!(CodePoint::open_paren().bytes(), b"(");
    assert_eq!(CodePoint::close_paren().bytes(), b")");
}

#[test]
fn thompson_literal_sequence() {
    let mut parser = Parser::from_bytes(b"ab".to_vec()).unwrap();
    let expression = Expression::parse(&mut parser).ok().unwrap();
    let nfa = expression.nfa();
    assert_eq!(nfa.adjecents.len(), 4);
    assert_eq!(nfa.start, 0);
    assert_eq!(nfa.accepting, HashSet::from([3]));
    assert_eq!(nfa.adjecents[0].len(), 1);
    assert_eq!(nfa.adjecents[0][0].to, 1);
    assert!(matches!(nfa.adjecents[1][0].kind, EdgeType::Epsilon));
    assert_eq!(nfa.adjecents[1][0].to, 2);
    assert!(nfa.adjecents[3].is_empty());
}

#[test]
fn thompson_alternation_shape() {
    let mut parser = Parser::from_bytes(b"a|b".to_vec()).unwrap();
    let expression = Expression::parse(&mut parser).ok().unwrap();
    let nfa = expression.nfa();
    assert_eq!(nfa.adjecents.len(), 6);
    assert_eq!(nfa.start, 0);
    assert_eq!(nfa.accepting, HashSet::from([5]));
    let targets: Vec<usize> = nfa.adjecents[0].iter().map(|e| e.to).collect();
    assert_eq!(targets, vec![1, 3]);
    assert_eq!(nfa.adjecents[2][0].to, 5);
    assert_eq!(nfa.adjecents[4][0].to, 5);
}

#[test]
fn parse_stops_at_close_paren() {
    let mut parser = Parser::from_bytes(b"ab)c".to_vec()).unwrap();
    let expression = Expression::parse(&mut parser).ok().unwrap();
    assert_eq!(expression.nfa().adjecents.len(), 4);
    assert_eq!(parser.peek().unwrap().bytes(), b")");
}

fn eps(to: usize) -> Edge {
    Edge { to, kind: EdgeType::Epsilon }
}

fn reads(to: usize, byte: u8) -> Edge {
    let unit = bytes_to_codepoints(vec![byte]).unwrap().pop().unwrap();
    Edge { to, kind: EdgeType::Regular(unit) }
}

#[test]
fn closure_survives_epsilon_cycle() {
    let nfa = NFA {
        adjecents: vec![vec![eps(1)], vec![eps(0), eps(2)], vec![reads(3, b'x')], vec![]],
        start: 0,
        accepting: HashSet::from([3]),
    };
    assert_eq!(nfa.epsilon_closure(0), HashSet::from([0, 1, 2]));
    assert_eq!(nfa.epsilon_closure(1), HashSet::from([0, 1, 2]));
    assert_eq!(nfa.epsilon_closure(2), HashSet::from([2]));
    let all = nfa.epsilon_closures();
    assert_eq!(all.len(), 4);
    assert_eq!(all[3], HashSet::from([3]));
}

#[test]
fn collapse_lifts_edges_and_accepting_states() {
    let mut nfa = NFA {
        adjecents: vec![vec![eps(1), reads(2, b'a')], vec![reads(2, b'b')], vec![eps(3)], vec![]],
        start: 0,
        accepting: HashSet::from([3]),
    };
    nfa.collapse_epsilons();
    assert_eq!(nfa.accepting, HashSet::from([2, 3]));
    let targets0: Vec<usize> = nfa.adjecents[0].iter().map(|e| e.to).collect();
    assert_eq!(targets0, vec![2, 2]);
    assert!(nfa.adjecents[0].iter().all(|e| matches!(e.kind, EdgeType::Regular(_))));
    assert_eq!(nfa.adjecents[1].len(), 1);
    assert!(nfa.adjecents[2].is_empty());
    assert!(nfa.adjecents[3].is_empty());
}

#[test]
fn collapse_of_epsilon_free_automaton_changes_nothing() {
    let mut nfa = NFA {
        adjecents: vec![vec![reads(1, b'a'), reads(2, b'b')], vec![reads(2, b'c')], vec![]],
        start: 0,
        accepting: HashSet::from([1, 2]),
    };
    nfa.collapse_epsilons();
    assert_eq!(nfa.accepting, HashSet::from([1, 2]));
    assert_eq!(nfa.adjecents.len(), 3);
    let targets0: Vec<usize> = nfa.adjecents[0].iter().map(|e| e.to).collect();
    assert_eq!(targets0, vec![1, 2]);
    match &nfa.adjecents[0][1].kind {
        EdgeType::Regular(u) => assert_eq!(u.bytes(), b"b"),
        EdgeType::Epsilon => panic!("epsilon edge"),
    }
    assert_eq!(nfa.adjecents[1].len(), 1);
    assert!(nfa.adjecents[2].is_empty());

    nfa.collapse_epsilons();
    assert_eq!(nfa.accepting, HashSet::from([1, 2]));
    let targets0: Vec<usize> = nfa.adjecents[0].iter().map(|e| e.to).collect();
    assert_eq!(targets0, vec![1, 2]);
}
