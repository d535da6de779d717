use utf_regex::regex::Regex;
use utf_regex::utf_parser::bytes_to_codepoints;

fn compile(pattern: &str) -> Regex {
    Regex::new(pattern.as_bytes().to_vec()).unwrap()
}

#[test]
fn test_concatenation() {
    let regex = Regex::new("abc".as_bytes().to_vec()).unwrap();

    let abc = bytes_to_codepoints("abc".as_bytes().to_vec()).unwrap();
    assert!(regex.accepts(abc));
    let ab = bytes_to_codepoints("ab".as_bytes().to_vec()).unwrap();
    assert!(!regex.accepts(ab));
    let d = bytes_to_codepoints("d".as_bytes().to_vec()).unwrap();
    assert!(!regex.accepts(d));
}

#[test]
fn test_concatenation_with_alternation() {
    let regex = Regex::new("ab|cd".as_bytes().to_vec()).unwrap();

    let ab = bytes_to_codepoints("ab".as_bytes().to_vec()).unwrap();
    assert!(!regex.accepts(ab));
    let cd = bytes_to_codepoints("cd".as_bytes().to_vec()).unwrap();
    assert!(!regex.accepts(cd));
    let ac = bytes_to_codepoints("ac".as_bytes().to_vec()).unwrap();
    assert!(!regex.accepts(ac));
    let abd = bytes_to_codepoints("abd".as_bytes().to_vec()).unwrap();
    assert!(regex.accepts(abd));
    let acd = bytes_to_codepoints("acd".as_bytes().to_vec()).unwrap();
    assert!(regex.accepts(acd));
}

#[test]
fn test_grouped_alternation() {
    let regex = Regex::new("(ab)|(cd)".as_bytes().to_vec()).unwrap();

    let ab = bytes_to_codepoints("ab".as_bytes().to_vec()).unwrap();
    assert!(regex.accepts(ab));
    let cd = bytes_to_codepoints("cd".as_bytes().to_vec()).unwrap();
    assert!(regex.accepts(cd));
    let abd = bytes_to_codepoints("abd".as_bytes().to_vec()).unwrap();
    assert!(!regex.accepts(abd));
    let acd = bytes_to_codepoints("acd".as_bytes().to_vec()).unwrap();
    assert!(!regex.accepts(acd));
    let ac = bytes_to_codepoints("ac".as_bytes().to_vec()).unwrap();
    assert!(!regex.accepts(ac));
}

#[test]
fn test_parenthesized_alternation_in_sequence() {
    let regex = Regex::new("a(b|c)d".as_bytes().to_vec()).unwrap();

    let abd = bytes_to_codepoints("abd".as_bytes().to_vec()).unwrap();
    assert!(regex.accepts(abd));
    let acd = bytes_to_codepoints("acd".as_bytes().to_vec()).unwrap();
    assert!(regex.accepts(acd));
    let ad = bytes_to_codepoints("ad".as_bytes().to_vec()).unwrap();
    assert!(!regex.accepts(ad));
    let abcd = bytes_to_codepoints("abcd".as_bytes().to_vec()).unwrap();
    assert!(!regex.accepts(abcd));
}

// The dialect has no repetition operators: `*` is an ordinary literal, so
// these patterns match only their own text.
#[test]
fn test_star_single_char() {
    let regex = Regex::new("a*".as_bytes().to_vec()).unwrap();

    let empty = bytes_to_codepoints("".as_bytes().to_vec()).unwrap();
    assert!(!regex.accepts(empty));
    let a = bytes_to_codepoints("a".as_bytes().to_vec()).unwrap();
    assert!(!regex.accepts(a));
    let aaa = bytes_to_codepoints("aaa".as_bytes().to_vec()).unwrap();
    assert!(!regex.accepts(aaa));
    let b = bytes_to_codepoints("b".as_bytes().to_vec()).unwrap();
    assert!(!regex.accepts(b));
    let literal = bytes_to_codepoints("a*".as_bytes().to_vec()).unwrap();
    assert!(regex.accepts(literal));
}

#[test]
fn test_star_then_literal() {
    let regex = Regex::new("a*b".as_bytes().to_vec()).unwrap();

    let b = bytes_to_codepoints("b".as_bytes().to_vec()).unwrap();
    assert!(!regex.accepts(b));
    let ab = bytes_to_codepoints("ab".as_bytes().to_vec()).unwrap();
    assert!(!regex.accepts(ab));
    let aab = bytes_to_codepoints("aab".as_bytes().to_vec()).unwrap();
    assert!(!regex.accepts(aab));
    let a = bytes_to_codepoints("a".as_bytes().to_vec()).unwrap();
    assert!(!regex.accepts(a));
    let ba = bytes_to_codepoints("ba".as_bytes().to_vec()).unwrap();
    assert!(!regex.accepts(ba));
    let literal = bytes_to_codepoints("a*b".as_bytes().to_vec()).unwrap();
    assert!(regex.accepts(literal));
}

#[test]
fn test_star_group() {
    let regex = Regex::new("(ab)*".as_bytes().to_vec()).unwrap();

    let empty = bytes_to_codepoints("".as_bytes().to_vec()).unwrap();
    assert!(!regex.accepts(empty));
    let ab = bytes_to_codepoints("ab".as_bytes().to_vec()).unwrap();
    assert!(!regex.accepts(ab));
    let abab = bytes_to_codepoints("abab".as_bytes().to_vec()).unwrap();
    assert!(!regex.accepts(abab));
    let a = bytes_to_codepoints("a".as_bytes().to_vec()).unwrap();
    assert!(!regex.accepts(a));
    let aba = bytes_to_codepoints("aba".as_bytes().to_vec()).unwrap();
    assert!(!regex.accepts(aba));
    let literal = bytes_to_codepoints("ab*".as_bytes().to_vec()).unwrap();
    assert!(regex.accepts(literal));
}

#[test]
fn test_chained_alternation() {
    let regex_pattern = "a|b|c".to_string();
    let regex = Regex::new(regex_pattern.as_bytes().to_vec()).unwrap();

    let a = bytes_to_codepoints("a".to_string().as_bytes().to_vec()).unwrap();
    assert!(regex.accepts(a));
    let b = bytes_to_codepoints("b".to_string().as_bytes().to_vec()).unwrap();
    assert!(regex.accepts(b));
    let c = bytes_to_codepoints("c".to_string().as_bytes().to_vec()).unwrap();
    assert!(regex.accepts(c));
    let d = bytes_to_codepoints("d".to_string().as_bytes().to_vec()).unwrap();
    assert!(!regex.accepts(d));
}

#[test]
fn empty_input_is_rejected_unless_start_accepts() {
    let regex = compile("a");
    assert_eq!(regex.accepts_bytes(Vec::new()), Ok(false));
    assert_eq!(regex.accepts_bytes(b"a".to_vec()), Ok(true));
}

#[test]
fn unknown_symbol_rejects() {
    let regex = compile("abc");
    assert_eq!(regex.accepts_bytes(b"abx".to_vec()), Ok(false));
    assert_eq!(regex.accepts_bytes(b"abcc".to_vec()), Ok(false));
}

#[test]
fn multibyte_literals_match_by_bytes() {
    let regex = compile("h\u{e9}(l|\u{20ac})");
    assert_eq!(regex.accepts_bytes("h\u{e9}l".as_bytes().to_vec()), Ok(true));
    assert_eq!(regex.accepts_bytes("h\u{e9}\u{20ac}".as_bytes().to_vec()), Ok(true));
    assert_eq!(regex.accepts_bytes("hel".as_bytes().to_vec()), Ok(false));
}

#[test]
fn alternation_binds_single_atoms_only() {
    let regex = compile("x|yz");
    assert_eq!(regex.accepts_bytes(b"xz".to_vec()), Ok(true));
    assert_eq!(regex.accepts_bytes(b"yz".to_vec()), Ok(true));
    assert_eq!(regex.accepts_bytes(b"x".to_vec()), Ok(false));
}

#[test]
fn nested_groups() {
    let regex = compile("((a|b)c)|d");
    assert_eq!(regex.accepts_bytes(b"ac".to_vec()), Ok(true));
    assert_eq!(regex.accepts_bytes(b"bc".to_vec()), Ok(true));
    assert_eq!(regex.accepts_bytes(b"d".to_vec()), Ok(true));
    assert_eq!(regex.accepts_bytes(b"c".to_vec()), Ok(false));
    assert_eq!(regex.accepts_bytes(b"acd".to_vec()), Ok(false));
}

#[test]
fn repeated_matches_agree() {
    let regex = compile("a(b|c)d");
    let first = regex.accepts(bytes_to_codepoints(b"acd".to_vec()).unwrap());
    let second = regex.accepts(bytes_to_codepoints(b"acd".to_vec()).unwrap());
    assert_eq!(first, second);
    assert!(first);
    let third = regex.accepts(bytes_to_codepoints(b"ad".to_vec()).unwrap());
    let fourth = regex.accepts(bytes_to_codepoints(b"ad".to_vec()).unwrap());
    assert_eq!(third, fourth);
    assert!(!third);
}
