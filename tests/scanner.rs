use kata::{Scanner, TemplateContext};

#[test]
fn scanner_prefix_tests_do_not_move() {
    let s = Scanner::new("{{ x }}");
    assert!(s.has_prefix("{{"));
    assert!(!s.has_prefix("}}"));
    assert!(s.has_prefix_chr('{'));
    assert_eq!(s.index(), 0);
}

#[test]
fn scanner_consume_exact() {
    let mut s = Scanner::new("foreach x");
    assert!(!s.consume_exact("end"));
    assert_eq!(s.index(), 0);
    assert!(s.consume_exact("foreach"));
    assert_eq!(s.index(), 7);
    s.consume_whitespace();
    assert_eq!(s.index(), 8);
    assert!(s.has_remaining());
}

#[test]
fn scanner_consume_until() {
    let mut s = Scanner::new("ab cd}ef{{gh");
    assert_eq!(s.consume_until_char(' '), "ab");
    s.consume_whitespace();
    assert_eq!(s.consume_until_any_char(&[' ', '}']), "cd");
    assert_eq!(s.consume_until_str("{{"), "}ef");
    assert_eq!(s.index(), 8);
    assert_eq!(s.consume_until_str("zz"), "{{gh");
    assert!(!s.has_remaining());
    assert_eq!(s.index(), 12);
}

#[test]
fn scanner_whitespace_is_spaces_only() {
    let mut s = Scanner::new("  \tx");
    s.consume_whitespace();
    assert!(s.has_prefix_chr('\t'));
}

#[test]
fn scanner_index_counts_bytes() {
    let mut s = Scanner::new("éa✓b");
    assert_eq!(s.consume_until_char('b'), "éa✓");
    assert_eq!(s.index(), 6);
}

#[test]
fn value_text_of_string() {
    let mut ctx = TemplateContext::new();
    ctx.set_str("k", "v");
    assert_eq!(ctx.get_value("k").map(|v| v.as_str()), Some("v"));
    assert!(ctx.get_value("other").is_none());
}
