use wikiscraper::stripper::delete_parentheses;

#[test]
fn parenth1() {
    assert_eq!(
        delete_parentheses("hello (hello (hello) hello) hello".to_string()),
        "hello  hello"
    )
}

#[test]
fn parenth2() {
    assert_eq!(delete_parentheses("()".to_string()), "")
}

#[test]
fn parenth3() {
    assert_eq!(
        delete_parentheses("<a href='hello_(hello)'>(hello)hello</a>".to_string()),
        "<a href='hello_(hello)'>hello</a>"
    )
}

#[test]
fn parenth4() {
    assert_eq!(
        delete_parentheses("<a>(<b>)<b>(f<a>jjj</a>>)hello".to_string()),
        "<a><b>hello"
    )
}

#[test]
fn strip_without_parens_is_identity() {
    let text = "hello <b>world</b>, caf\u{e9} na\u{ef}ve";
    assert_eq!(delete_parentheses(text.to_string()), text);
}

#[test]
fn strip_empty_input() {
    assert_eq!(delete_parentheses(String::new()), "");
}

#[test]
fn strip_unbalanced_closing_paren() {
    // The depth goes negative after the stray ")": text is suppressed
    // until a "(" brings it back to zero, and that "(" is emitted.
    assert_eq!(delete_parentheses("a)b(c)d".to_string()), "a)(c)");
}

#[test]
fn strip_handles_combining_graphemes() {
    let text = "e\u{301}(x)y";
    assert_eq!(delete_parentheses(text.to_string()), "e\u{301}y");
}
