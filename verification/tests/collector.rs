use ski_reduce::collect::TraversalOrder;
use ski_reduce::collect::Traverser;
use ski_reduce::parse::Parser;
use ski_reduce::store::TermBase;
use ski_reduce::term::RewriteKey;
use ski_reduce::term::Term;

fn term_of(tb: &mut TermBase, text: &str) -> usize {
    Parser::parse(tb, text.as_bytes()).unwrap()
}

fn walk(tb: &TermBase, roots: &[usize]) -> Vec<usize> {
    let mut t = Traverser::new(tb, TraversalOrder::LeftmostOutermost, roots[0]);
    for root in &roots[1..] {
        t.add_root(*root);
    }
    let mut seen = Vec::new();
    while let Some(key) = t.next() {
        seen.push(key);
    }
    let (marks, order) = t.finish();
    assert_eq!(order, seen);
    assert_eq!(marks.len(), seen.len());
    for key in &seen {
        assert!(marks.contains(key));
    }
    seen
}

#[test]
fn traversal_goes_leftmost_outermost() {
    let mut tb = TermBase::new();
    let root = term_of(&mut tb, "a b (c d)");
    let ab = term_of(&mut tb, "a b");
    let cd = term_of(&mut tb, "c d");
    let a = term_of(&mut tb, "a");
    let b = term_of(&mut tb, "b");
    let c = term_of(&mut tb, "c");
    let d = term_of(&mut tb, "d");
    assert_eq!(walk(&tb, &[root]), vec![root, ab, a, b, cd, c, d]);
}

#[test]
fn traversal_visits_a_shared_term_once() {
    let mut tb = TermBase::new();
    let root = term_of(&mut tb, "a b (a b) ([x] (a b))");
    let seen = walk(&tb, &[root]);
    let mut sorted = seen.clone();
    sorted.sort();
    sorted.dedup();
    assert_eq!(sorted.len(), seen.len());
    assert_eq!(seen.len(), 6);
}

#[test]
fn traversal_takes_the_roots_last_given_first() {
    let mut tb = TermBase::new();
    let a = term_of(&mut tb, "a");
    let b = term_of(&mut tb, "b");
    let ab = term_of(&mut tb, "a b");
    assert_eq!(walk(&tb, &[a, ab]), vec![ab, a, b]);
    assert_eq!(walk(&tb, &[ab, b]), vec![b, ab, a]);
}

#[test]
fn traversal_passes_over_a_root_without_an_entry() {
    let mut tb = TermBase::new();
    let a = term_of(&mut tb, "a");
    assert_eq!(walk(&tb, &[a + 1000]), Vec::<usize>::new());
    assert_eq!(walk(&tb, &[a + 1000, a]), vec![a]);
}

#[test]
fn collect_keeps_what_the_roots_reach() {
    let mut tb = TermBase::new();
    let kept = term_of(&mut tb, "S (a b) ([x] c)");
    let parts: Vec<(usize, Term)> = walk(&tb, &[kept]).iter().map(|k| (*k, tb.get(*k))).collect();
    let dropped = term_of(&mut tb, "d e (a b)");
    let d = term_of(&mut tb, "d");
    let e = term_of(&mut tb, "e");
    let de = term_of(&mut tb, "d e");
    tb.collect(&vec![kept]);
    for (key, node) in &parts {
        assert!(tb.contains(*key));
        assert_eq!(tb.get(*key), *node);
    }
    for key in [dropped, d, e, de] {
        assert!(!tb.contains(key));
    }
    assert_eq!(tb.get(tb.i_key()), Term::I);
    assert_eq!(tb.get(tb.k_key()), Term::K);
    assert_eq!(tb.get(tb.s_key()), Term::S);
    assert_eq!(tb.render(kept), "S(ab)([x]c)");
}

#[test]
fn collect_without_roots_keeps_the_combinators_only() {
    let mut tb = TermBase::new();
    let x = term_of(&mut tb, "S K K a");
    let parts = walk(&tb, &[x]);
    tb.collect(&Vec::new());
    for key in parts {
        let atom = key == tb.i_key() || key == tb.k_key() || key == tb.s_key();
        assert_eq!(tb.contains(key), atom);
    }
    assert!(tb.contains(tb.i_key()) && tb.contains(tb.k_key()) && tb.contains(tb.s_key()));
}

#[test]
fn collect_keeps_classifications() {
    let mut tb = TermBase::new();
    let kept = term_of(&mut tb, "a (I b)");
    let other = term_of(&mut tb, "c d");
    assert_eq!(tb.classify(kept), RewriteKey::CanRewrite);
    assert_eq!(tb.classify(other), RewriteKey::NormalForm);
    tb.collect(&vec![kept]);
    assert_eq!(tb.rewrite_key(kept), RewriteKey::CanRewrite);
    let ib = term_of(&mut tb, "I b");
    assert_eq!(tb.rewrite_key(ib), RewriteKey::CanRewrite);
    assert!(!tb.contains(other) || tb.get(other) != Term::Ap(0, 0));
}

#[test]
fn interning_after_a_collection() {
    let mut tb = TermBase::new();
    let kept = term_of(&mut tb, "a b");
    let a = term_of(&mut tb, "a");
    let b = term_of(&mut tb, "b");
    let gone = term_of(&mut tb, "c (a b)");
    tb.collect(&vec![kept]);
    assert!(!tb.contains(gone));
    assert_eq!(tb.intern(Term::Var('a')), a);
    assert_eq!(tb.intern(Term::Var('b')), b);
    assert_eq!(tb.intern(Term::Ap(a, b)), kept);
    let c = tb.intern(Term::Var('c'));
    assert_eq!(tb.get(c), Term::Var('c'));
    let back = tb.intern(Term::Ap(c, kept));
    assert_eq!(tb.get(back), Term::Ap(c, kept));
    assert_eq!(tb.intern(Term::Ap(c, kept)), back);
    assert_eq!(tb.render(back), "c(ab)");
    let all = [tb.i_key(), tb.k_key(), tb.s_key(), a, b, kept, c, back];
    for x in 0..all.len() {
        for y in 0..all.len() {
            assert_eq!(all[x] == all[y], x == y);
        }
    }
}

#[test]
fn collect_passes_over_a_root_without_an_entry() {
    let mut tb = TermBase::new();
    let a = term_of(&mut tb, "a");
    let b = term_of(&mut tb, "b");
    tb.collect(&vec![a, b + 1000, a]);
    assert!(tb.contains(a));
    assert!(!tb.contains(b));
}

#[test]
fn collect_but_defined_keeps_the_definitions() {
    let mut tb = TermBase::new();
    let skk = term_of(&mut tb, "S K K");
    let old = term_of(&mut tb, "K I");
    tb.define('c', old);
    tb.define('c', skk);
    let waste = term_of(&mut tb, "c a b");
    assert!(tb.contains(old));
    tb.gc_all_but_defined();
    assert!(tb.contains(skk));
    assert!(!tb.contains(old));
    assert!(!tb.contains(waste));
    assert_eq!(tb.lookup('c'), Some(skk));
    assert_eq!(tb.render(skk), "SKK");
    let ca = term_of(&mut tb, "c a");
    assert_eq!(tb.render(ca), "SKKa");
}
