//! The commands of the line protocol: what a line asks for, and what becomes
//! of the store when it is carried out.

use vstd::prelude::*;
use vstd::slice::slice_subrange;
use crate::parse::parse_text;
use crate::parse::ParseError;
use crate::parse::Parser;
use crate::reduce::Reduction;
use crate::store::TermBase;

verus! {

/// `=`, the second byte of a definition.
pub const EQUALS: u8 = 61;

/// `>`, the first byte of a reduction.
pub const GREATER: u8 = 62;

/// `*`, the second byte of a reduction.
pub const STAR: u8 = 42;

/// What a line asks for.
#[derive(Clone, Copy, Debug, PartialEq, Eq, Structural)]
pub enum Command {
    /// `<name>=<expr>`: bind the name to the term.
    Define(u8),
    /// `>*<expr>`: reduce the term.
    Reduce,
    /// Anything else.
    Unknown,
}

/// What became of a line.
#[derive(Debug)]
pub enum Reply {
    /// The name is bound to the identity.
    Defined(char, usize),
    /// The term was reduced; the run starts with the term itself.
    Reduced(Reduction),
    /// The expression of the command is no term.
    ParseFailed(ParseError),
    /// The line is no command.
    NotUnderstood,
}

/// The command that a line holds. A command has an expression of at least
/// one byte behind its first two bytes; a line whose second byte is `=` is a
/// definition, even where it begins with `>`.
pub open spec fn command_of(line: Seq<u8>) -> Command {
    if line.len() >= 3 && line[1] == EQUALS {
        Command::Define(line[0])
    } else if line.len() >= 3 && line[0] == GREATER && line[1] == STAR {
        Command::Reduce
    } else {
        Command::Unknown
    }
}

/// The expression of a command: the line behind its first two bytes.
pub open spec fn expression_of(line: Seq<u8>) -> Seq<u8> {
    line.subrange(2, line.len() as int)
}

/// Tells what a line asks for.
pub fn command(line: &[u8]) -> (c: Command)
    ensures
        c == command_of(line@),
{
    if line.len() >= 3 && line[1] == EQUALS {
        Command::Define(line[0])
    } else if line.len() >= 3 && line[0] == GREATER && line[1] == STAR {
        Command::Reduce
    } else {
        Command::Unknown
    }
}

impl TermBase {
    /// Carries out a line. A definition binds its name to the term of its
    /// expression, in place of an earlier binding. A reduction runs the
    /// driver on the term with the given bound. Where the expression is no
    /// term, nothing is bound or reduced, and the failure is reported. The
    /// store keeps its entries in every case, and gains those that the term
    /// and the terms of the run need; a line that is no command adds none.
    /// Only a reduction classifies: the terms of its run and what they reach.
    pub fn execute(&mut self, line: &[u8], step_bound: usize) -> (reply: Reply)
        requires
            old(self).wf(),
            old(self).bindings_live(),
        ensures
            final(self).wf(),
            final(self).bindings_live(),
            final(self).atom_i() == old(self).atom_i(),
            final(self).atom_k() == old(self).atom_k(),
            final(self).atom_s() == old(self).atom_s(),
            forall|key: usize| #[trigger]
                old(self).live(key) ==> final(self).live(key) && final(self).term(key) == old(
                    self,
                ).term(key) && final(self).expr(key) == old(self).expr(key),
            command_of(line@) is Unknown ==> reply is NotUnderstood && final(self).bindings()
                == old(self).bindings() && final(self).entries() == old(self).entries(),
            reply is Defined ==> final(self).adds_below(old(self), set![reply->Defined_1]),
            reply is Reduced ==> final(self).adds_below(
                old(self),
                reply->Reduced_0.trace@.to_set(),
            ),
            reply is Reduced ==> final(self).reclassifies_below(
                old(self),
                reply->Reduced_0.trace@.to_set(),
            ),
            reply is Reduced ==> forall|i: int|
                0 <= i < reply->Reduced_0.trace@.len() ==> !(final(self).memo(
                    #[trigger] reply->Reduced_0.trace@[i],
                ) is Unknown),
            !(reply is Reduced) ==> final(self).leaves_classifications(old(self)),
            !(command_of(line@) is Unknown) ==> match parse_text(
                expression_of(line@),
                old(self).bound_exprs(),
            ) {
                Err((pos, kind)) => reply is ParseFailed && reply->ParseFailed_0.at == pos
                    && reply->ParseFailed_0.kind == kind && final(self).bindings() == old(
                    self,
                ).bindings(),
                Ok(tree) => match command_of(line@) {
                    Command::Define(name) => reply is Defined && reply->Defined_0 == name as char
                        && final(self).live(reply->Defined_1) && final(self).expr(
                        reply->Defined_1,
                    ) == tree && final(self).bindings() == old(self).bindings().insert(
                        name as char,
                        reply->Defined_1,
                    ),
                    _ => reply is Reduced && reply->Reduced_0.runs(
                        final(self),
                        tree,
                        step_bound as nat,
                    ) && final(self).bindings() == old(self).bindings(),
                },
            },
    {
        let c = command(line);
        if let Command::Unknown = c {
            return Reply::NotUnderstood;
        }
        let text = slice_subrange(line, 2, line.len());
        let parsed = Parser::parse(self, text);
        let ghost read = *self;
        match parsed {
            Err(e) => Reply::ParseFailed(e),
            Ok(key) => {
                match c {
                    Command::Define(name) => {
                        self.define(name as char, key);
                        proof {
                            assert forall|n: char| #[trigger]
                                self.bindings().contains_key(n) implies self.live(
                                self.bindings()[n],
                            ) by {
                                if n != name as char {
                                    assert(read.bindings().contains_key(n));
                                    assert(read.live(read.bindings()[n]));
                                }
                            }
                            assert forall|k: usize| #[trigger] old(self).live(k) implies self.live(
                                k,
                            ) && self.term(k) == old(self).term(k) && self.expr(k) == old(
                                self,
                            ).expr(k) by {
                                assert(read.live(k));
                            }
                        }
                        proof {
                            assert forall|k: usize| #[trigger]
                                self.live(k) && !old(self).live(k) implies self.reachable(
                                set![key],
                                k,
                            ) by {
                                assert(read.live(k));
                                self.reachable_by_entries(&read, set![key], k);
                            }
                            assert forall|k: usize| #[trigger] self.live(k) implies if old(
                                self,
                            ).live(k) {
                                self.entries()[k] == old(self).entries()[k]
                            } else {
                                self.memo(k) is Unknown
                            } by {
                                assert(read.live(k));
                            }
                        }
                        Reply::Defined(name as char, key)
                    },
                    _ => {
                        let run = self.normalize(key, step_bound);
                        proof {
                            self.bound_exprs_kept(&read);
                            let tops = run.trace@.to_set();
                            assert(self.live(run.trace@[0]) && self.live(key));
                            assert(run.trace@[0] == key);
                            assert forall|t: usize| #[trigger] set![key].contains(t) && self.live(
                                t,
                            ) implies self.reachable(tops, t) by {
                                self.seed_reachable(tops, key);
                            }
                            assert forall|t: usize| #[trigger] tops.contains(t) && self.live(
                                t,
                            ) implies self.reachable(tops, t) by {
                                self.seed_reachable(tops, t);
                            }
                            self.grows_below_trans(&read, old(self), set![key], tops, tops);
                            assert forall|k: usize| #[trigger] old(self).live(k) implies self.memo(
                                k,
                            ) == old(self).memo(k) || (old(self).memo(k) is Unknown
                                && self.reachable(tops, k)) by {
                                assert(read.live(k));
                            }
                        }
                        Reply::Reduced(run)
                    },
                }
            },
        }
    }
}

} // verus!
