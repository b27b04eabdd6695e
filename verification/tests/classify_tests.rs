use logfold::classify::normalize_token;
use logfold::tokens::tokenize;

#[test]
fn test_hex_token() {
    let r = normalize_token("0x104fc4000");
    assert_eq!(r.pattern, "<hex>");
    assert!(r.is_variable);
}

#[test]
fn test_bracketed_hex_token() {
    let r = normalize_token("[0x106111f74]");
    assert_eq!(r.pattern, "[<hex>]");
    assert!(r.is_variable);
}

#[test]
fn test_time_token() {
    let r = normalize_token("07:28:03");
    assert_eq!(r.pattern, "<time>");
    assert!(r.is_variable);
}

#[test]
fn test_num_token_needs_five_digits() {
    let r = normalize_token("54087");
    assert_eq!(r.pattern, "<num>");
    assert!(r.is_variable);
    let r = normalize_token("1744");
    assert_eq!(r.pattern, "1744");
    assert!(!r.is_variable);
}

#[test]
fn test_opaque_token() {
    let r = normalize_token("sshd[24245]:");
    assert_eq!(r.pattern, "sshd[24245]:");
    assert!(!r.is_variable);
}

#[test]
fn test_placeholders_classify_to_themselves() {
    for p in ["<hex>", "[<hex>]", "<time>", "<num>", "<0>", "<17>"] {
        let r = normalize_token(p);
        assert_eq!(r.pattern, p);
        assert!(!r.is_variable);
    }
}

#[test]
fn test_malformed_shapes_stay_opaque() {
    for p in ["0x", "[0x]", "0xg1", "1:2:3", "12:34:567", "123a5"] {
        let r = normalize_token(p);
        assert_eq!(r.pattern, p);
        assert!(!r.is_variable);
    }
}

#[test]
fn test_tokenize_collapses_whitespace() {
    let toks = tokenize("  a \t b\u{b}c   ");
    assert_eq!(toks, vec!["a".to_string(), "b".to_string(), "c".to_string()]);
}

#[test]
fn test_tokenize_empty_line() {
    let toks = tokenize("");
    assert!(toks.is_empty());
}
