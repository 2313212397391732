use ski_reduce::parse::ParseError;
use ski_reduce::parse::ParseErrorKind;
use ski_reduce::reduce::Outcome;
use ski_reduce::session::command;
use ski_reduce::session::Command;
use ski_reduce::session::Reply;
use ski_reduce::store::TermBase;

fn reduced(tb: &mut TermBase, line: &str, bound: usize) -> (Vec<String>, Outcome) {
    match tb.execute(line.as_bytes(), bound) {
        Reply::Reduced(run) => {
            (run.trace.iter().map(|k| tb.render(*k)).collect(), run.outcome)
        },
        _ => panic!("no reduction: {}", line),
    }
}

#[test]
fn lines_are_told_apart() {
    assert_eq!(command(b"c=S K K"), Command::Define(b'c'));
    assert_eq!(command(b">*I a"), Command::Reduce);
    assert_eq!(command(b">=x"), Command::Define(b'>'));
    assert_eq!(command(b"c="), Command::Unknown);
    assert_eq!(command(b">*"), Command::Unknown);
    assert_eq!(command(b""), Command::Unknown);
    assert_eq!(command(b"hello"), Command::Unknown);
    assert_eq!(command(b"> *a"), Command::Unknown);
}

#[test]
fn reducing_with_the_i_rule() {
    let mut tb = TermBase::new();
    assert_eq!(
        reduced(&mut tb, ">*I a", 20),
        (vec!["Ia".to_string(), "a".to_string()], Outcome::NormalForm)
    );
}

#[test]
fn reducing_with_the_k_rule() {
    let mut tb = TermBase::new();
    assert_eq!(
        reduced(&mut tb, ">*K p q", 20),
        (vec!["Kpq".to_string(), "p".to_string()], Outcome::NormalForm)
    );
}

#[test]
fn reducing_with_the_s_rule_stops_at_free_variables() {
    let mut tb = TermBase::new();
    assert_eq!(
        reduced(&mut tb, ">*S x y z", 20),
        (vec!["Sxyz".to_string(), "xz(yz)".to_string()], Outcome::NormalForm)
    );
}

#[test]
fn reducing_a_defined_name() {
    let mut tb = TermBase::new();
    match tb.execute(b"c=S K K", 20) {
        Reply::Defined(name, key) => {
            assert_eq!(name, 'c');
            assert_eq!(tb.lookup('c'), Some(key));
            assert_eq!(tb.render(key), "SKK");
        },
        _ => panic!("no definition"),
    }
    assert_eq!(
        reduced(&mut tb, ">*c a", 20),
        (vec!["SKKa".to_string(), "Ka(Ka)".to_string(), "a".to_string()], Outcome::NormalForm)
    );
}

#[test]
fn reducing_the_identity_abstraction() {
    let mut tb = TermBase::new();
    assert_eq!(
        reduced(&mut tb, ">*[x]x", 20),
        (vec!["[x]x".to_string(), "I".to_string()], Outcome::NormalForm)
    );
}

#[test]
fn a_divergent_term_runs_into_the_bound() {
    let mut tb = TermBase::new();
    let (trace, outcome) = reduced(&mut tb, ">*S I I (S I I)", 20);
    assert_eq!(outcome, Outcome::BoundExhausted);
    assert_eq!(trace.len(), 21);
    assert_eq!(trace[0], "SII(SII)");
    assert_eq!(trace[3], "I(I(SII))(I(I(SII)))");
    let (short, outcome) = reduced(&mut tb, ">*S I I (S I I)", 3);
    assert_eq!(outcome, Outcome::BoundExhausted);
    assert_eq!(short[..], trace[..4]);
}

#[test]
fn a_definition_replaces_an_earlier_one() {
    let mut tb = TermBase::new();
    let first = match tb.execute(b"c=K", 20) {
        Reply::Defined(_, key) => key,
        _ => panic!("no definition"),
    };
    let second = match tb.execute(b"c=c I", 20) {
        Reply::Defined(_, key) => key,
        _ => panic!("no definition"),
    };
    assert_ne!(first, second);
    assert_eq!(tb.lookup('c'), Some(second));
    assert!(tb.contains(first));
    assert_eq!(tb.render(second), "KI");
    assert_eq!(
        reduced(&mut tb, ">*c a", 20),
        (vec!["KIa".to_string(), "I".to_string()], Outcome::NormalForm)
    );
}

#[test]
fn a_line_that_is_no_command() {
    let mut tb = TermBase::new();
    assert!(matches!(tb.execute(b"hello", 20), Reply::NotUnderstood));
    assert!(matches!(tb.execute(b"", 20), Reply::NotUnderstood));
    assert!(matches!(tb.execute(b"c=", 20), Reply::NotUnderstood));
    assert_eq!(tb.lookup('c'), None);
}

#[test]
fn a_command_whose_expression_is_no_term() {
    let mut tb = TermBase::new();
    match tb.execute(b"c=(a", 20) {
        Reply::ParseFailed(e) => {
            assert_eq!(e, ParseError { at: 2, kind: ParseErrorKind::UnclosedParen })
        },
        _ => panic!("parsed"),
    }
    assert_eq!(tb.lookup('c'), None);
    match tb.execute(b">*a)", 20) {
        Reply::ParseFailed(e) => {
            assert_eq!(e, ParseError { at: 1, kind: ParseErrorKind::UnmatchedParen })
        },
        _ => panic!("parsed"),
    }
    match tb.execute(b"d=c", 20) {
        Reply::Defined(name, key) => {
            assert_eq!(name, 'd');
            assert_eq!(tb.render(key), "c");
        },
        _ => panic!("no definition"),
    }
    match tb.execute(b">*[d]x", 20) {
        Reply::ParseFailed(e) => {
            assert_eq!(e, ParseError { at: 1, kind: ParseErrorKind::BoundName })
        },
        _ => panic!("parsed"),
    }
}
