//! The trees that the grammar reads.
//!
//! The parser groups to the left and keeps every pair of parentheses as a
//! `Group` node. So it only ever produces trees of a certain shape, the
//! canonical ones: the right operand of a concatenation is no concatenation,
//! the operand of a quantifier is a literal or a group, and so on down the
//! grammar. These are exactly the trees that come back from their own text.

use vstd::prelude::*;
use crate::ast::{Ast, is_meta, spec_is_meta};
use crate::grammar::{ParseError, spec_parse};
use crate::roundtrip::lemma_round_trip_iff_canonical;

verus! {

impl Ast {
    /// What the rule `atom` reads: a literal that is no metacharacter, or a
    /// group around what `alt` reads.
    pub open spec fn spec_is_atom(self) -> bool
        decreases self, 0nat,
    {
        match self {
            Ast::Literal(c) => !spec_is_meta(c),
            Ast::Group(x) => x.spec_is_alt(),
            _ => false,
        }
    }

    /// What the rule `repeat` reads: an atom, or a quantifier over an atom.
    pub open spec fn spec_is_repeat(self) -> bool
        decreases self, 1nat,
    {
        match self {
            Ast::Star(x) | Ast::Plus(x) | Ast::Optional(x) => x.spec_is_atom(),
            _ => self.spec_is_atom(),
        }
    }

    /// What the rule `concat` reads: what `repeat` reads, or a concatenation
    /// of what `concat` reads and what `repeat` reads.
    pub open spec fn spec_is_concat(self) -> bool
        decreases self, 2nat,
    {
        match self {
            Ast::Concat(l, r) => l.spec_is_concat() && r.spec_is_repeat(),
            _ => self.spec_is_repeat(),
        }
    }

    /// What the rule `alt` reads: what `concat` reads, or an alternation of
    /// what `alt` reads and what `concat` reads.
    pub open spec fn spec_is_alt(self) -> bool
        decreases self, 3nat,
    {
        match self {
            Ast::Alt(l, r) => l.spec_is_alt() && r.spec_is_concat(),
            _ => self.spec_is_concat(),
        }
    }

    /// The trees of patterns: the tree of the empty pattern, and what `alt`
    /// reads.
    pub open spec fn spec_is_canonical(self) -> bool {
        self is Empty || self.spec_is_alt()
    }
}

/// Whether `ast` is what the rule `atom` reads.
pub fn is_atom(ast: &Ast) -> (res: bool)
    ensures
        res == ast.spec_is_atom(),
    decreases ast, 0nat,
{
    match ast {
        Ast::Literal(c) => !is_meta(*c),
        Ast::Group(x) => is_alt(x),
        _ => false,
    }
}

/// Whether `ast` is what the rule `repeat` reads.
pub fn is_repeat(ast: &Ast) -> (res: bool)
    ensures
        res == ast.spec_is_repeat(),
    decreases ast, 1nat,
{
    match ast {
        Ast::Star(x) | Ast::Plus(x) | Ast::Optional(x) => is_atom(x),
        _ => is_atom(ast),
    }
}

/// Whether `ast` is what the rule `concat` reads.
pub fn is_concat(ast: &Ast) -> (res: bool)
    ensures
        res == ast.spec_is_concat(),
    decreases ast, 2nat,
{
    match ast {
        Ast::Concat(l, r) => is_concat(l) && is_repeat(r),
        _ => is_repeat(ast),
    }
}

/// Whether `ast` is what the rule `alt` reads.
pub fn is_alt(ast: &Ast) -> (res: bool)
    ensures
        res == ast.spec_is_alt(),
    decreases ast, 3nat,
{
    match ast {
        Ast::Alt(l, r) => is_alt(l) && is_concat(r),
        _ => is_concat(ast),
    }
}

/// Whether `ast` is canonical: whether it comes back from its own text.
pub fn is_canonical(ast: &Ast) -> (res: bool)
    ensures
        res == ast.spec_is_canonical(),
        res == (spec_parse(ast.spec_render()) == Ok::<Ast, ParseError>(*ast)),
{
    proof {
        lemma_round_trip_iff_canonical(*ast);
    }
    match ast {
        Ast::Empty => true,
        _ => is_alt(ast),
    }
}

/// What each rule reads, the rule above it reads too; and which nodes a rule
/// cannot read at its top.
pub proof fn lemma_levels(ast: Ast)
    ensures
        ast.spec_is_atom() ==> ast.spec_is_repeat() && (ast is Literal || ast is Group),
        ast.spec_is_repeat() ==> ast.spec_is_concat() && !(ast is Concat) && !(ast is Alt),
        ast.spec_is_concat() ==> ast.spec_is_alt() && !(ast is Alt),
        ast.spec_is_alt() ==> !(ast is Empty),
        ast.spec_is_atom() ==> ast.spec_render_quantified() == ast.spec_render(),
        ast.spec_is_concat() ==> ast.spec_render_operand() == ast.spec_render(),
{
    reveal_with_fuel(Ast::spec_is_atom, 4);
    reveal_with_fuel(Ast::spec_is_repeat, 4);
    reveal_with_fuel(Ast::spec_is_concat, 4);
    reveal_with_fuel(Ast::spec_is_alt, 4);
    reveal_with_fuel(Ast::spec_render_operand, 2);
    reveal_with_fuel(Ast::spec_render_quantified, 2);
}

} // verus!
