use ski_reduce::parse::Parser;
use ski_reduce::reduce::Outcome;
use ski_reduce::store::TermBase;
use ski_reduce::term::RewriteKey;
use ski_reduce::term::Term;

fn read(tb: &mut TermBase, text: &str) -> usize {
    Parser::parse(tb, text.as_bytes()).unwrap()
}

fn texts(tb: &TermBase, trace: &[usize]) -> Vec<String> {
    trace.iter().map(|k| tb.render(*k)).collect()
}

#[test]
fn atoms_and_variables_are_normal() {
    let mut tb = TermBase::new();
    let (i, k, s) = (tb.i_key(), tb.k_key(), tb.s_key());
    let a = tb.intern(Term::Var('a'));
    for key in [i, k, s, a] {
        assert_eq!(tb.classify(key), RewriteKey::NormalForm);
        assert!(tb.normal_form(key));
        assert!(!tb.root_can_rewrite(key));
        assert_eq!(tb.rewrite_key(key), RewriteKey::NormalForm);
    }
}

#[test]
fn classification_follows_the_rules() {
    let mut tb = TermBase::new();
    for (text, normal) in [
        ("I a", false),
        ("K a", true),
        ("K a b", false),
        ("S a", true),
        ("S a b", true),
        ("S a b c", false),
        ("a (I b)", false),
        ("a b c", true),
        ("[x] x", false),
        ("[x] [y] z", false),
        ("a ([x] b)", false),
        ("S (K K) I", true),
    ] {
        let key = read(&mut tb, text);
        let class = tb.classify(key);
        assert_eq!(class == RewriteKey::NormalForm, normal, "{}", text);
        assert_eq!(class == RewriteKey::CanRewrite, !normal, "{}", text);
        assert_eq!(tb.rewrite_key(key), class);
        assert_eq!(tb.classify(key), class);
    }
}

#[test]
fn classification_reaches_the_children() {
    let mut tb = TermBase::new();
    let key = read(&mut tb, "a (I b) c");
    let ib = read(&mut tb, "I b");
    let b = read(&mut tb, "b");
    assert_eq!(tb.rewrite_key(ib), RewriteKey::Unknown);
    assert_eq!(tb.classify(key), RewriteKey::CanRewrite);
    assert_eq!(tb.rewrite_key(ib), RewriteKey::CanRewrite);
    assert_eq!(tb.rewrite_key(b), RewriteKey::NormalForm);
}

#[test]
fn classification_is_made_from_the_leaves_up() {
    let mut tb = TermBase::new();
    let key = read(&mut tb, "K (I a) (b c)");
    let beside = read(&mut tb, "d e");
    assert_eq!(tb.classify(key), RewriteKey::CanRewrite);
    for (text, class) in [
        ("K (I a)", RewriteKey::CanRewrite),
        ("I a", RewriteKey::CanRewrite),
        ("b c", RewriteKey::NormalForm),
        ("K", RewriteKey::NormalForm),
        ("I", RewriteKey::NormalForm),
        ("a", RewriteKey::NormalForm),
        ("b", RewriteKey::NormalForm),
        ("c", RewriteKey::NormalForm),
    ] {
        let part = read(&mut tb, text);
        assert_eq!(tb.rewrite_key(part), class, "{}", text);
    }
    assert_eq!(tb.rewrite_key(beside), RewriteKey::Unknown);
    assert_eq!(tb.rewrite_key(tb.s_key()), RewriteKey::Unknown);
}

#[test]
fn a_step_classifies_the_term_and_leaves_the_result() {
    let mut tb = TermBase::new();
    let key = read(&mut tb, "a (K b c) d");
    let result = tb.step(key);
    assert_eq!(tb.render(result), "abd");
    assert_eq!(tb.rewrite_key(key), RewriteKey::CanRewrite);
    let d = read(&mut tb, "d");
    assert_eq!(tb.rewrite_key(d), RewriteKey::NormalForm);
    assert_eq!(tb.rewrite_key(result), RewriteKey::Unknown);
    let ab = read(&mut tb, "a b");
    assert_eq!(tb.rewrite_key(ab), RewriteKey::Unknown);
}

#[test]
fn a_run_classifies_its_terms() {
    let mut tb = TermBase::new();
    let key = read(&mut tb, "S K K a");
    let run = tb.normalize(key, 20);
    assert_eq!(run.trace.len(), 3);
    assert_eq!(tb.rewrite_key(run.trace[0]), RewriteKey::CanRewrite);
    assert_eq!(tb.rewrite_key(run.trace[1]), RewriteKey::CanRewrite);
    assert_eq!(tb.rewrite_key(run.trace[2]), RewriteKey::NormalForm);
}

#[test]
fn parsing_classifies_nothing() {
    let mut tb = TermBase::new();
    let key = read(&mut tb, "I a");
    let a = read(&mut tb, "a");
    assert_eq!(tb.rewrite_key(key), RewriteKey::Unknown);
    assert_eq!(tb.rewrite_key(a), RewriteKey::Unknown);
    assert_eq!(tb.rewrite_key(tb.i_key()), RewriteKey::Unknown);
}

#[test]
fn root_rules_on_applications() {
    let mut tb = TermBase::new();
    let x = read(&mut tb, "x");
    let ix = read(&mut tb, "I x");
    assert!(tb.root_can_rewrite(ix));
    assert_eq!(tb.root_rewrite(ix), x);

    let kxy = read(&mut tb, "K x y");
    assert!(tb.root_can_rewrite(kxy));
    assert_eq!(tb.root_rewrite(kxy), x);

    let sxyz = read(&mut tb, "S x y z");
    let expected = read(&mut tb, "x z (y z)");
    assert!(tb.root_can_rewrite(sxyz));
    assert_eq!(tb.root_rewrite(sxyz), expected);

    let big = read(&mut tb, "S (a b) (I c) (K d)");
    let expected = read(&mut tb, "a b (K d) (I c (K d))");
    assert_eq!(tb.root_rewrite(big), expected);
}

#[test]
fn root_rules_on_abstractions() {
    let mut tb = TermBase::new();
    let same = read(&mut tb, "[v] v");
    assert!(tb.root_can_rewrite(same));
    assert_eq!(tb.root_rewrite(same), tb.i_key());

    for atom in ["w", "I", "K", "S"] {
        let text = format!("[v] {}", atom);
        let key = read(&mut tb, &text);
        let expected = read(&mut tb, &format!("K {}", atom));
        assert!(tb.root_can_rewrite(key));
        assert_eq!(tb.root_rewrite(key), expected, "{}", text);
    }

    let over_ap = read(&mut tb, "[v] (a b)");
    let expected = read(&mut tb, "S ([v] a) ([v] b)");
    assert!(tb.root_can_rewrite(over_ap));
    assert_eq!(tb.root_rewrite(over_ap), expected);
}

#[test]
fn no_root_rule_leaves_the_term() {
    let mut tb = TermBase::new();
    for text in ["a", "a b", "K a", "S a b", "a (I b)", "[x] [y] x", "x (K a b)"] {
        let key = read(&mut tb, text);
        assert!(!tb.root_can_rewrite(key), "{}", text);
        assert_eq!(tb.root_rewrite(key), key, "{}", text);
    }
}

#[test]
fn rewriting_changes_no_entry() {
    let mut tb = TermBase::new();
    let sxyz = read(&mut tb, "S x y z");
    let node = tb.get(sxyz);
    let result = tb.root_rewrite(sxyz);
    assert_ne!(result, sxyz);
    assert_eq!(tb.get(sxyz), node);
    assert_eq!(read(&mut tb, "S x y z"), sxyz);
}

#[test]
fn step_takes_the_outermost_leftmost_redex() {
    let mut tb = TermBase::new();
    for (from, to) in [
        ("I a", "a"),
        ("I a (I b)", "a (I b)"),
        ("a (I b) (I c)", "a b (I c)"),
        ("a b (I c)", "a b c"),
        ("K (I a) b", "I a"),
        ("a (K b c)", "a b"),
        ("[x] [y] x", "[x] (K x)"),
        ("[x] (K x)", "S ([x] K) ([x] x)"),
        ("S ([x] K) ([x] x)", "S (K K) ([x] x)"),
        ("S (K K) ([x] x)", "S (K K) I"),
    ] {
        let key = read(&mut tb, from);
        let expected = read(&mut tb, to);
        assert_eq!(tb.step(key), expected, "{}", from);
    }
}

#[test]
fn step_leaves_a_normal_form() {
    let mut tb = TermBase::new();
    for text in ["a", "a b", "K a", "S a b", "S (K K) I", "x z (y z)"] {
        let key = read(&mut tb, text);
        assert_eq!(tb.classify(key), RewriteKey::NormalForm);
        assert_eq!(tb.step(key), key, "{}", text);
    }
}

#[test]
fn step_changes_what_is_not_normal() {
    let mut tb = TermBase::new();
    for text in ["I a", "S I I (S I I)", "[x] x", "a (K b c)"] {
        let key = read(&mut tb, text);
        assert_ne!(tb.step(key), key, "{}", text);
    }
}

#[test]
fn normalize_records_each_step() {
    let mut tb = TermBase::new();
    let key = read(&mut tb, "S K K a");
    let run = tb.normalize(key, 20);
    assert_eq!(run.outcome, Outcome::NormalForm);
    assert_eq!(run.trace[0], key);
    assert_eq!(texts(&tb, &run.trace), vec!["SKKa", "Ka(Ka)", "a"]);
}

#[test]
fn normalize_is_deterministic() {
    let mut tb = TermBase::new();
    let key = read(&mut tb, "S (K (S I)) K a b");
    let first = tb.normalize(key, 20);
    let second = tb.normalize(key, 20);
    assert_eq!(first.trace, second.trace);
    assert_eq!(first.outcome, second.outcome);
    assert_eq!(first.outcome, Outcome::NormalForm);
    assert_eq!(tb.render(*first.trace.last().unwrap()), "ba");

    let mut other = TermBase::new();
    let key = read(&mut other, "S (K (S I)) K a b");
    let third = other.normalize(key, 20);
    assert_eq!(texts(&other, &third.trace), texts(&tb, &first.trace));
}

#[test]
fn normalize_stops_at_the_bound() {
    let mut tb = TermBase::new();
    let key = read(&mut tb, "S I I (S I I)");
    let run = tb.normalize(key, 5);
    assert_eq!(run.outcome, Outcome::BoundExhausted);
    assert_eq!(run.trace.len(), 6);
    assert_eq!(
        texts(&tb, &run.trace),
        vec![
            "SII(SII)",
            "I(SII)(I(SII))",
            "SII(I(SII))",
            "I(I(SII))(I(I(SII)))",
            "I(SII)(I(I(SII)))",
            "SII(I(I(SII)))",
        ]
    );
    let long = tb.normalize(key, 20);
    assert_eq!(long.outcome, Outcome::BoundExhausted);
    assert_eq!(long.trace.len(), 21);
    assert_eq!(long.trace[..6], run.trace[..]);
}

#[test]
fn normalize_with_no_steps_allowed() {
    let mut tb = TermBase::new();
    let key = read(&mut tb, "I a");
    let run = tb.normalize(key, 0);
    assert_eq!(run.trace, vec![key]);
    assert_eq!(run.outcome, Outcome::BoundExhausted);
    let a = read(&mut tb, "a");
    let run = tb.normalize(a, 0);
    assert_eq!(run.trace, vec![a]);
    assert_eq!(run.outcome, Outcome::NormalForm);
}

#[test]
fn normalize_sees_a_normal_form_reached_with_the_last_step() {
    let mut tb = TermBase::new();
    let key = read(&mut tb, "I (I a)");
    let ia = read(&mut tb, "I a");
    let a = read(&mut tb, "a");
    let run = tb.normalize(key, 1);
    assert_eq!(run.trace, vec![key, ia]);
    assert_eq!(run.outcome, Outcome::BoundExhausted);
    let run = tb.normalize(key, 2);
    assert_eq!(run.trace, vec![key, ia, a]);
    assert_eq!(run.outcome, Outcome::NormalForm);
    let run = tb.normalize(key, 3);
    assert_eq!(run.trace, vec![key, ia, a]);
    assert_eq!(run.outcome, Outcome::NormalForm);
}

#[test]
fn normalize_of_a_normal_form_takes_no_step() {
    let mut tb = TermBase::new();
    let key = read(&mut tb, "x z (y z)");
    let run = tb.normalize(key, 20);
    assert_eq!(run.trace, vec![key]);
    assert_eq!(run.outcome, Outcome::NormalForm);
}

#[test]
fn abstractions_are_eliminated_inner_binder_first() {
    let mut tb = TermBase::new();
    let key = read(&mut tb, "[x y] x");
    let run = tb.normalize(key, 20);
    assert_eq!(run.outcome, Outcome::NormalForm);
    assert_eq!(
        texts(&tb, &run.trace),
        vec!["[xy]x", "[x](Kx)", "S([x]K)([x]x)", "S(KK)([x]x)", "S(KK)I"]
    );
}

#[test]
fn a_deep_term_is_handled_without_recursion() {
    let depth = 200_000;
    let mut tb = TermBase::new();
    let a = tb.intern(Term::Var('a'));
    let i = tb.i_key();
    let mut redex = tb.intern(Term::Ap(i, a));
    let mut plain = a;
    for _ in 0..depth {
        redex = tb.intern(Term::Ap(a, redex));
        plain = tb.intern(Term::Ap(a, plain));
    }
    assert_eq!(tb.classify(redex), RewriteKey::CanRewrite);
    assert_eq!(tb.step(redex), plain);
    assert_eq!(tb.classify(plain), RewriteKey::NormalForm);
    assert_eq!(tb.term_text(plain).len(), 2 + 3 * (depth - 1));
    tb.collect(&vec![plain]);
    assert!(tb.contains(plain));
    assert!(!tb.contains(redex));
}
