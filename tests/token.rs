use stackvm::token::{Kind, Tokens};

fn text_of(source: &str) -> String {
    Tokens::from_source(source).unwrap().to_text()
}

#[test]
fn token_definition_text() {
    assert_eq!(
        text_of("add = (x) => {\n  x + 12\n}"),
        "<Name add> <Equal> <ParenOpen> <Name x> <ParenClose> <FatArrow> <BraceOpen> \
         <Newline> <Name x> <Plus> <Integer 12> <Newline> <BraceClose>"
    );
}

#[test]
fn token_arrow_then_equal() {
    assert_eq!(text_of("=>="), "<FatArrow> <Equal>");
    assert_eq!(text_of("="), "<Equal>");
    assert_eq!(text_of(""), "");
    assert_eq!(text_of("   "), "");
}

#[test]
fn token_names_and_integers() {
    assert_eq!(text_of("x_1 007 éa9"), "<Name x_1> <Integer 7> <Name éa9>");
    assert_eq!(text_of("12ab"), "<Integer 12> <Name ab>");
    assert_eq!(
        text_of("9223372036854775807"),
        "<Integer 9223372036854775807>"
    );
}

#[test]
fn token_locations() {
    let tokens = Tokens::from_source("ab (\n7").unwrap();
    let spans: Vec<(usize, usize)> = tokens.tokens.iter().map(|t| (t.start, t.end)).collect();
    assert_eq!(spans, vec![(0, 2), (3, 4), (4, 5), (5, 6)]);
    match &tokens.tokens[0].kind {
        Kind::Name(n) => assert_eq!(n, "ab"),
        _ => panic!("expected a name"),
    }
    match tokens.tokens[3].kind {
        Kind::Integer(v) => assert_eq!(v, 7),
        _ => panic!("expected an integer"),
    }
}

#[test]
fn token_errors_are_all_collected() {
    let err = match Tokens::from_source("a $ b\n99999999999999999999 #") {
        Err(e) => e,
        Ok(_) => panic!("expected errors"),
    };
    assert_eq!(
        err,
        "unexpected token '$' at 0:2\n\
         integer token too large 99999999999999999999 at 1:0\n\
         unexpected token '#' at 1:21"
    );
}

#[test]
fn token_single_error() {
    let err = match Tokens::from_source("x\ty") {
        Err(e) => e,
        Ok(_) => panic!("expected an error"),
    };
    assert_eq!(err, "unexpected token '\t' at 0:1");
}
