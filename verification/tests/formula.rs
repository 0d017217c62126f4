use lib::formula::parse_formula;

fn shown(input: &str) -> String {
    match parse_formula(input) {
        Ok(e) => format!("{:?}", e),
        Err(err) => format!("error: {}", err.message),
    }
}

#[test]
fn dot_ends_the_bound_variable_list() {
    let dotted = shown("∀x. P(x)");
    assert_eq!(
        dotted,
        "ForAll { variable: \"x\", body: Predicate { name: \"P\", args: [Variable(\"x\")], world: None } }"
    );
    assert_eq!(shown("forall a b. P(a, b)"), shown("forall a b, P(a, b)"));
    assert_eq!(shown("exists y. Q(y)"), shown("exists y, Q(y)"));
}

#[test]
fn a_dot_elsewhere_reads_as_a_space() {
    assert_eq!(shown("if P(x). then Q(x)"), shown("if P(x) then Q(x)"));
    assert_eq!(shown("P(a). and Q(b)."), shown("P(a) and Q(b)"));
}

#[test]
fn trailing_dots_close_the_text() {
    assert_eq!(shown("P(a)."), shown("P(a)"));
    assert_eq!(shown("for all a, P(a)."), shown("for all a, P(a)"));
}

#[test]
fn error_messages_name_the_offending_token() {
    assert_eq!(shown("P(a) b"), "error: unexpected trailing input near token Some(Ident(\"b\"))");
    assert_eq!(shown("P(a) and"), "error: expected an atom, found None");
    assert_eq!(shown("P(,)"), "error: expected a term, found Some(Comma)");
    assert_eq!(shown("P(a) . Q"), "error: unexpected trailing input near token Some(Ident(\"Q\"))");
    assert_eq!(shown("P(a) # Q"), "error: unexpected character '#'");
}

#[test]
fn connectives_and_quantifiers_nest_as_documented() {
    assert_eq!(
        shown("for all a, if P(a) then Q(a)"),
        "ForAll { variable: \"a\", body: Implies(Predicate { name: \"P\", args: [Variable(\"a\")], world: None }, Predicate { name: \"Q\", args: [Variable(\"a\")], world: None }) }"
    );
    assert_eq!(shown("A = b"), "Identity(Constant(\"A\"), Variable(\"b\"))");
}
