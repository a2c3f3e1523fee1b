use reggy::Ast;

fn regex(code: &str) -> String {
    Ast::parse(code).unwrap().to_regex()
}

fn internal(code: &str) -> String {
    Ast::parse(code).unwrap().to_regex_internal()
}

#[test]
fn regex_literals() {
    assert_eq!(regex("a"), r"\b(?mi:a)\b");
    assert_eq!(regex("dog"), r"\b(?mi:dog)\b");
    assert_eq!(regex("a.b"), r"\b(?mi:a\.b)\b");
    assert_eq!(regex("$1"), r"\b(?mi:\$1)\b");
    assert_eq!(regex(r"\?\*\+\(\)\|\\"), r"\b(?mi:\?\*\+\(\)\|\\)\b");
    assert_eq!(regex("a-b~c&d"), r"\b(?mi:a\-b\~c\&d)\b");
    assert_eq!(regex("[x]^"), r"\b(?mi:\[x\]\^)\b");
    assert_eq!(regex("a!%/"), r"\b(?mi:a!%/)\b");
    assert_eq!(regex("Ⲁⲗ"), r"\b(?mi:Ⲁⲗ)\b");
}

#[test]
fn regex_digits_and_spaces() {
    assert_eq!(regex("#"), r"\b(?mi:\d)\b");
    assert_eq!(regex(r"\d#"), r"\b(?mi:\d\d)\b");
    assert_eq!(regex("a b"), r"\b(?mi:a\s+b)\b");
    assert_eq!(regex("a   b"), r"\b(?mi:a\s+b)\b");
    assert_eq!(regex(r"a\ b"), r"\b(?mi:a b)\b");
}

#[test]
fn regex_alternations_and_groups() {
    assert_eq!(regex("a|b"), r"\b(?mi:a|b)\b");
    assert_eq!(regex("a|b|cd"), r"\b(?mi:a|b|cd)\b");
    assert_eq!(regex("x(a|b)"), r"\b(?mi:x(?:a|b))\b");
    assert_eq!(regex("(a|b)c|d"), r"\b(?mi:(?:a|b)c|d)\b");
    assert_eq!(regex("(ab)c"), r"\b(?mi:abc)\b");
}

#[test]
fn regex_repetitions() {
    assert_eq!(regex("a?"), r"\b(?mi:a?)\b");
    assert_eq!(regex("a*"), r"\b(?mi:a*)\b");
    assert_eq!(regex("a+"), r"\b(?mi:a+)\b");
    assert_eq!(regex("#?"), r"\b(?mi:\d?)\b");
    assert_eq!(regex("(ab)?"), r"\b(?mi:(?:ab)?)\b");
    assert_eq!(regex("(a|b)*"), r"\b(?mi:(?:a|b)*)\b");
    assert_eq!(regex("a??"), r"\b(?mi:(?:a?)?)\b");
    assert_eq!(regex("a{2,3}"), r"\b(?mi:a{2,3})\b");
    assert_eq!(regex("a{10}"), r"\b(?mi:a{10,10})\b");
    assert_eq!(regex("a{0}"), r"\b(?mi:a{0,0})\b");
    assert_eq!(regex("(ab){107,4294967295}"), r"\b(?mi:(?:ab){107,4294967295})\b");
    assert_eq!(regex("(!a)+"), r"\b(?mi:(?-i:a)+)\b");
    assert_eq!(regex("a ?b"), r"\b(?mi:a(?:\s+)?b)\b");
    assert_eq!(regex("a( b)*"), r"\b(?mi:a(?:\s+b)*)\b");
}

#[test]
fn regex_case_sensitive_groups() {
    assert_eq!(regex("(!a)"), r"\b(?mi:(?-i:a))\b");
    assert_eq!(regex("(!a|b)"), r"\b(?mi:(?-i:a|b))\b");
    assert_eq!(regex("(!a(!b))"), r"\b(?mi:(?-i:a(?:b)))\b");
    assert_eq!(regex("x(!#)"), r"\b(?mi:x\d)\b");
}

#[test]
fn regex_for_the_searcher() {
    assert_eq!(internal("a b"), "(?mi:a b)");
    assert_eq!(internal("a   b?"), "(?mi:a b?)");
    assert_eq!(internal("a ?b"), "(?mi:a ?b)");
    assert_eq!(internal("dog(gy)?|dawg"), "(?mi:dog(?:gy)?|dawg)");
    assert_eq!(internal("(!USA)"), "(?mi:(?-i:USA))");
    assert_eq!(internal("$#.##"), r"(?mi:\$\d\.\d\d)");
}

#[test]
fn regex_trees_print_as_their_text() {
    let ast = Ast::parse("a (b|c){2}").unwrap();
    assert_eq!(ast.to_regex_ast().to_string(), ast.to_regex());
    assert_eq!(ast.to_regex_ast().to_string(), r"\b(?mi:a\s+(?:b|c){2,2})\b");
    assert_eq!(
        ast.to_regex_ast_internal().to_string(),
        ast.to_regex_internal()
    );
    assert_eq!(Ast::Concat(vec![]).to_regex(), r"\b(?mi:)\b");
    assert_eq!(Ast::Or(vec![]).to_regex_internal(), "(?mi:)");
    assert_eq!(Ast::Or(vec![Ast::Digit]).to_regex_internal(), r"(?mi:\d)");
}
