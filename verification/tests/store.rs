use ski_reduce::position::Position;
use ski_reduce::store::TermBase;
use ski_reduce::term::RewriteKey;
use ski_reduce::term::Term;

#[test]
fn new_store_holds_the_three_combinators() {
    let tb = TermBase::new();
    let (i, k, s) = (tb.i_key(), tb.k_key(), tb.s_key());
    assert!(tb.contains(i) && tb.contains(k) && tb.contains(s));
    assert_eq!(tb.get(i), Term::I);
    assert_eq!(tb.get(k), Term::K);
    assert_eq!(tb.get(s), Term::S);
    assert!(i != k && k != s && i != s);
    assert_eq!(tb.rewrite_key(i), RewriteKey::Unknown);
    assert_eq!(tb.lookup('c'), None);
}

#[test]
fn interning_twice_gives_one_identity() {
    let mut tb = TermBase::new();
    let a = tb.intern(Term::Var('a'));
    let again = tb.intern(Term::Var('a'));
    assert_eq!(a, again);
    let i = tb.i_key();
    let ia = tb.intern(Term::Ap(i, a));
    let ia_again = tb.intern(Term::Ap(i, a));
    assert_eq!(ia, ia_again);
    assert_eq!(tb.get(ia), Term::Ap(i, a));
    assert_eq!(tb.intern(Term::I), i);
    assert_eq!(tb.intern(Term::K), tb.k_key());
    assert_eq!(tb.intern(Term::S), tb.s_key());
}

#[test]
fn different_nodes_get_different_identities() {
    let mut tb = TermBase::new();
    let a = tb.intern(Term::Var('a'));
    let b = tb.intern(Term::Var('b'));
    let ab = tb.intern(Term::Ap(a, b));
    let ba = tb.intern(Term::Ap(b, a));
    let la = tb.intern(Term::Abs('a', b));
    let lb = tb.intern(Term::Abs('b', b));
    let all = [tb.i_key(), tb.k_key(), tb.s_key(), a, b, ab, ba, la, lb];
    for x in 0..all.len() {
        for y in 0..all.len() {
            if x != y {
                assert_ne!(all[x], all[y]);
            }
        }
    }
    assert_eq!(tb.get(ab), Term::Ap(a, b));
    assert_eq!(tb.get(ba), Term::Ap(b, a));
    assert_eq!(tb.get(la), Term::Abs('a', b));
    assert_eq!(tb.get(lb), Term::Abs('b', b));
}

#[test]
fn many_nodes_keep_their_identities() {
    let mut tb = TermBase::new();
    let mut keys = Vec::new();
    let mut prev = tb.i_key();
    for n in 0..500u32 {
        let v = tb.intern(Term::Var(char::from_u32(0x100 + n).unwrap()));
        prev = tb.intern(Term::Ap(prev, v));
        keys.push((v, prev));
    }
    let mut prev = tb.i_key();
    for n in 0..500u32 {
        let v = tb.intern(Term::Var(char::from_u32(0x100 + n).unwrap()));
        prev = tb.intern(Term::Ap(prev, v));
        assert_eq!(keys[n as usize], (v, prev));
    }
}

#[test]
fn a_new_entry_is_unclassified() {
    let mut tb = TermBase::new();
    let a = tb.intern(Term::Var('a'));
    assert_eq!(tb.rewrite_key(a), RewriteKey::Unknown);
    assert!(!tb.contains(a + 1000));
}

#[test]
fn classifying_keeps_the_node() {
    let mut tb = TermBase::new();
    let a = tb.intern(Term::Var('a'));
    assert_eq!(tb.classify(a), RewriteKey::NormalForm);
    assert_eq!(tb.rewrite_key(a), RewriteKey::NormalForm);
    assert_eq!(tb.get(a), Term::Var('a'));
    assert_eq!(tb.intern(Term::Var('a')), a);
    assert_eq!(tb.rewrite_key(a), RewriteKey::NormalForm);
}

#[test]
fn content_digest_is_fnv1a_of_the_encoding() {
    assert_eq!(Term::I.content_digest(), 0x4dfa4cffd1f7979f);
    assert_eq!(Term::K.content_digest(), 0xff230907651f612c);
    assert_eq!(Term::S.content_digest(), 0xeba8d4f0aba80485);
    assert_eq!(Term::Var('a').content_digest(), 0x8b17d1c779cdfeb3);
    assert_eq!(Term::Ap(1, 2).content_digest(), 0x85a99943f5a31150);
    assert_eq!(Term::Ap(2, 1).content_digest(), 0x55a64a84ed7d4330);
    assert_eq!(Term::Abs('x', 7).content_digest(), 0x652b4a1fa05abbff);
    assert_eq!(Term::Ap(258, 65536).content_digest(), 0x2f523b93b6a7d74f);
}

#[test]
fn atoms_are_the_combinators_and_the_variables() {
    assert!(Term::I.atomic());
    assert!(Term::K.atomic());
    assert!(Term::S.atomic());
    assert!(Term::Var('q').atomic());
    assert!(!Term::Ap(0, 1).atomic());
    assert!(!Term::Abs('x', 0).atomic());
}

#[test]
fn define_binds_and_rebinds() {
    let mut tb = TermBase::new();
    let a = tb.intern(Term::Var('a'));
    let b = tb.intern(Term::Var('b'));
    tb.define('c', a);
    assert_eq!(tb.lookup('c'), Some(a));
    assert_eq!(tb.lookup('d'), None);
    tb.define('c', b);
    assert_eq!(tb.lookup('c'), Some(b));
    assert!(tb.contains(a));
    let mut keys = tb.bound_keys();
    keys.sort();
    assert_eq!(keys, vec![b]);
    tb.define('d', a);
    let mut keys = tb.bound_keys();
    keys.sort();
    let mut expected = vec![a, b];
    expected.sort();
    assert_eq!(keys, expected);
}

#[test]
fn position_collects_branches() {
    let mut p = Position::new();
    assert_eq!(p.0, Vec::<u8>::new());
    p.push_branch(0);
    p.push_branch(1);
    assert_eq!(p.0, vec![0u8, 1u8]);
    p.pop_branch(1);
    assert_eq!(p.0, vec![0u8, 1u8]);
}
