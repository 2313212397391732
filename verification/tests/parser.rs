use ski_reduce::parse::ParseError;
use ski_reduce::parse::ParseErrorKind;
use ski_reduce::parse::Parser;
use ski_reduce::store::TermBase;
use ski_reduce::term::Term;

fn fails(tb: &mut TermBase, text: &str, at: usize, kind: ParseErrorKind) {
    assert_eq!(Parser::parse(tb, text.as_bytes()), Err(ParseError { at, kind }), "{:?}", text);
}

fn shown(tb: &mut TermBase, text: &str) -> String {
    let key = Parser::parse(tb, text.as_bytes()).unwrap();
    tb.render(key)
}

#[test]
fn parses_the_combinators() {
    let mut tb = TermBase::new();
    assert_eq!(Parser::parse(&mut tb, b"I"), Ok(tb.i_key()));
    assert_eq!(Parser::parse(&mut tb, b"K"), Ok(tb.k_key()));
    assert_eq!(Parser::parse(&mut tb, b"S"), Ok(tb.s_key()));
    assert_eq!(Parser::parse(&mut tb, b"  S "), Ok(tb.s_key()));
}

#[test]
fn parses_a_free_variable() {
    let mut tb = TermBase::new();
    let a = Parser::parse(&mut tb, b"a").unwrap();
    assert_eq!(tb.get(a), Term::Var('a'));
    assert_eq!(Parser::parse(&mut tb, b" a"), Ok(a));
    let star = Parser::parse(&mut tb, b"*").unwrap();
    assert_eq!(tb.get(star), Term::Var('*'));
}

#[test]
fn application_associates_to_the_left() {
    let mut tb = TermBase::new();
    let abc = Parser::parse(&mut tb, b"a b c").unwrap();
    let a = tb.intern(Term::Var('a'));
    let b = tb.intern(Term::Var('b'));
    let c = tb.intern(Term::Var('c'));
    let ab = tb.intern(Term::Ap(a, b));
    assert_eq!(tb.get(abc), Term::Ap(ab, c));
    assert_eq!(Parser::parse(&mut tb, b"abc"), Ok(abc));
    assert_eq!(Parser::parse(&mut tb, b"(a b) c"), Ok(abc));
    assert_eq!(Parser::parse(&mut tb, b"((a)b)(c)"), Ok(abc));
    let right = Parser::parse(&mut tb, b"a (b c)").unwrap();
    let bc = tb.intern(Term::Ap(b, c));
    assert_eq!(tb.get(right), Term::Ap(a, bc));
    assert_ne!(right, abc);
}

#[test]
fn the_first_name_binds_outermost() {
    let mut tb = TermBase::new();
    let key = Parser::parse(&mut tb, b"[xy]z").unwrap();
    let z = tb.intern(Term::Var('z'));
    let inner = tb.intern(Term::Abs('y', z));
    assert_eq!(tb.get(key), Term::Abs('x', inner));
    assert_eq!(Parser::parse(&mut tb, b"[x][y]z"), Ok(key));
    assert_eq!(Parser::parse(&mut tb, b"[ x y ] z"), Ok(key));
    assert_eq!(Parser::parse(&mut tb, b"[x]([y]z)"), Ok(key));
    let other = Parser::parse(&mut tb, b"[yx]z").unwrap();
    assert_ne!(other, key);
}

#[test]
fn an_abstraction_binds_the_next_term() {
    let mut tb = TermBase::new();
    assert_eq!(shown(&mut tb, "[x] a b"), "[x]ab");
    assert_eq!(shown(&mut tb, "a [x] b c"), "a([x]b)c");
    assert_eq!(shown(&mut tb, "a ([x] b) c"), "a([x]b)c");
    assert_eq!(shown(&mut tb, "([x] x) y"), "[x]xy");
    assert_eq!(shown(&mut tb, "[x] x [y] y"), "[x]x([y]y)");
    assert_eq!(shown(&mut tb, "[x] (a b)"), "[x](ab)");
    let a = Parser::parse(&mut tb, b"[x] a b").unwrap();
    let b = Parser::parse(&mut tb, b"([x] a) b").unwrap();
    assert_eq!(a, b);
    let x = tb.intern(Term::Var('a'));
    let y = tb.intern(Term::Var('b'));
    let lam = tb.intern(Term::Abs('x', x));
    assert_eq!(tb.get(a), Term::Ap(lam, y));
}

#[test]
fn rendered_text_reads_back_as_the_same_term() {
    let mut tb = TermBase::new();
    for text in [
        "[x] a b",
        "a [x] b c",
        "[x y] (x [z] (z y))",
        "S (K (S I)) K a b",
        "a (b (c d)) ([x] [y] (x y))",
    ] {
        let key = Parser::parse(&mut tb, text.as_bytes()).unwrap();
        let written = tb.render(key);
        assert_eq!(Parser::parse(&mut tb, written.as_bytes()), Ok(key), "{}", text);
    }
}

#[test]
fn a_defined_name_stands_for_its_term() {
    let mut tb = TermBase::new();
    let skk = Parser::parse(&mut tb, b"S K K").unwrap();
    tb.define('c', skk);
    assert_eq!(Parser::parse(&mut tb, b"c"), Ok(skk));
    let ca = Parser::parse(&mut tb, b"c a").unwrap();
    let a = tb.intern(Term::Var('a'));
    assert_eq!(tb.get(ca), Term::Ap(skk, a));
    assert_eq!(Parser::parse(&mut tb, b"S K K a"), Ok(ca));
    let d = Parser::parse(&mut tb, b"d").unwrap();
    assert_eq!(tb.get(d), Term::Var('d'));
}

#[test]
fn the_text_ends_inside_a_parenthesis() {
    let mut tb = TermBase::new();
    fails(&mut tb, "(a", 2, ParseErrorKind::UnclosedParen);
    fails(&mut tb, "(", 1, ParseErrorKind::UnclosedParen);
    fails(&mut tb, "a (b (c)", 8, ParseErrorKind::UnclosedParen);
    fails(&mut tb, "([x] y", 6, ParseErrorKind::UnclosedParen);
}

#[test]
fn a_parenthesis_closes_nothing() {
    let mut tb = TermBase::new();
    fails(&mut tb, "a)", 1, ParseErrorKind::UnmatchedParen);
    fails(&mut tb, ")", 0, ParseErrorKind::UnmatchedParen);
    fails(&mut tb, "(a) b) c", 5, ParseErrorKind::UnmatchedParen);
    fails(&mut tb, "[x] a) b", 5, ParseErrorKind::UnmatchedParen);
}

#[test]
fn the_text_ends_inside_a_list_of_names() {
    let mut tb = TermBase::new();
    fails(&mut tb, "[x", 2, ParseErrorKind::UnclosedBracket);
    fails(&mut tb, "a [", 3, ParseErrorKind::UnclosedBracket);
    fails(&mut tb, "([x y ", 6, ParseErrorKind::UnclosedBracket);
}

#[test]
fn a_bracket_closes_nothing() {
    let mut tb = TermBase::new();
    fails(&mut tb, "a]", 1, ParseErrorKind::UnmatchedBracket);
    fails(&mut tb, "]", 0, ParseErrorKind::UnmatchedBracket);
    fails(&mut tb, "[x]y]", 4, ParseErrorKind::UnmatchedBracket);
}

#[test]
fn a_reserved_character_in_a_list_of_names() {
    let mut tb = TermBase::new();
    fails(&mut tb, "[xS]y", 2, ParseErrorKind::ReservedName);
    fails(&mut tb, "[K]y", 1, ParseErrorKind::ReservedName);
    fails(&mut tb, "[ I]y", 2, ParseErrorKind::ReservedName);
    fails(&mut tb, "[x(]y", 2, ParseErrorKind::ReservedName);
    fails(&mut tb, "[x)]y", 2, ParseErrorKind::ReservedName);
    fails(&mut tb, "[[x]]y", 1, ParseErrorKind::ReservedName);
}

#[test]
fn a_name_that_is_defined_cannot_be_abstracted() {
    let mut tb = TermBase::new();
    let i = tb.i_key();
    tb.define('c', i);
    fails(&mut tb, "[c]x", 1, ParseErrorKind::BoundName);
    fails(&mut tb, "[x c]x", 3, ParseErrorKind::BoundName);
    assert_eq!(shown(&mut tb, "[x]c"), "[x]I");
}

#[test]
fn a_list_of_names_without_a_name() {
    let mut tb = TermBase::new();
    fails(&mut tb, "[]x", 1, ParseErrorKind::NoNames);
    fails(&mut tb, "a [ ] x", 4, ParseErrorKind::NoNames);
}

#[test]
fn a_term_is_missing() {
    let mut tb = TermBase::new();
    fails(&mut tb, "", 0, ParseErrorKind::MissingTerm);
    fails(&mut tb, "   ", 3, ParseErrorKind::MissingTerm);
    fails(&mut tb, "()", 1, ParseErrorKind::MissingTerm);
    fails(&mut tb, "a ( ) b", 4, ParseErrorKind::MissingTerm);
    fails(&mut tb, "[x]", 3, ParseErrorKind::MissingTerm);
    fails(&mut tb, "([x])", 4, ParseErrorKind::MissingTerm);
}

#[test]
fn a_failed_attempt_leaves_terms_behind() {
    let mut tb = TermBase::new();
    fails(&mut tb, "a b )", 4, ParseErrorKind::UnmatchedParen);
    let a = tb.intern(Term::Var('a'));
    let b = tb.intern(Term::Var('b'));
    let ab = tb.intern(Term::Ap(a, b));
    assert_eq!(Parser::parse(&mut tb, b"a b"), Ok(ab));
    tb.collect(&Vec::new());
    assert!(!tb.contains(ab));
}

#[test]
fn rendering_writes_arguments_in_parentheses() {
    let mut tb = TermBase::new();
    assert_eq!(shown(&mut tb, "I"), "I");
    assert_eq!(shown(&mut tb, "a"), "a");
    assert_eq!(shown(&mut tb, "I a"), "Ia");
    assert_eq!(shown(&mut tb, "x z (y z)"), "xz(yz)");
    assert_eq!(shown(&mut tb, "K a (K a)"), "Ka(Ka)");
    assert_eq!(shown(&mut tb, "a (b (c d))"), "a(b(cd))");
    assert_eq!(shown(&mut tb, "[x y z] x"), "[xyz]x");
    assert_eq!(shown(&mut tb, "[x] (a b)"), "[x](ab)");
    assert_eq!(shown(&mut tb, "[x] ([y] a) b"), "[xy]ab");
    assert_eq!(shown(&mut tb, "[x] (([y] a) b)"), "[x]([y]ab)");
    let key = Parser::parse(&mut tb, b"[x] (a b)").unwrap();
    assert_eq!(tb.term_text(key), vec!['[', 'x', ']', '(', 'a', 'b', ')']);
    assert_eq!(tb.wrapped_text(key).iter().collect::<String>(), "([x](ab))");
    let a = Parser::parse(&mut tb, b"a").unwrap();
    assert_eq!(tb.wrapped_text(a), vec!['a']);
}
