//! Trees that are not canonical, and what comes back from their text.
//!
//! The text of a tree has parentheses where the tree has a `Group`, and
//! where an operand would otherwise be read as part of another node. The
//! parser keeps every pair of parentheses as a `Group`. So what comes back
//! from the text of a tree is the tree with a `Group` around each such
//! operand: the same tree but for groups.

use vstd::prelude::*;
use crate::ast::{Ast, spec_is_meta};
use crate::canonical::lemma_levels;
use crate::grammar::{ParseError, spec_parse};
use crate::roundtrip::{lemma_parse_is_canonical, lemma_round_trip};

verus! {

impl Ast {
    /// Whether the node is a quantifier over its child.
    pub open spec fn spec_is_quantified(self) -> bool {
        self is Star || self is Plus || self is Optional
    }

    /// The tree with a group around each operand that the text of the tree
    /// puts in parentheses.
    pub open spec fn spec_grouped(self) -> Ast
        decreases self, 0nat,
    {
        match self {
            Ast::Empty => Ast::Empty,
            Ast::Literal(c) => Ast::Literal(c),
            Ast::Concat(l, r) => Ast::Concat(
                Box::new(l.spec_grouped_operand()),
                Box::new(r.spec_grouped_operand()),
            ),
            Ast::Alt(l, r) => Ast::Alt(Box::new(l.spec_grouped()), Box::new(r.spec_grouped())),
            Ast::Star(x) => Ast::Star(Box::new(x.spec_grouped_quantified())),
            Ast::Plus(x) => Ast::Plus(Box::new(x.spec_grouped_quantified())),
            Ast::Optional(x) => Ast::Optional(Box::new(x.spec_grouped_quantified())),
            Ast::Group(x) => Ast::Group(Box::new(x.spec_grouped())),
        }
    }

    /// An operand of a concatenation, grouped: an alternation gets a group
    /// around it.
    pub open spec fn spec_grouped_operand(self) -> Ast
        decreases self, 1nat,
    {
        match self {
            Ast::Alt(_, _) => Ast::Group(Box::new(self.spec_grouped())),
            _ => self.spec_grouped(),
        }
    }

    /// The operand of a quantifier, grouped: an alternation or a
    /// concatenation gets a group around it.
    pub open spec fn spec_grouped_quantified(self) -> Ast
        decreases self, 1nat,
    {
        match self {
            Ast::Alt(_, _) | Ast::Concat(_, _) => Ast::Group(Box::new(self.spec_grouped())),
            _ => self.spec_grouped(),
        }
    }

    /// The tree without its groups: each group gives way to its child.
    pub open spec fn spec_ungrouped(self) -> Ast
        decreases self,
    {
        match self {
            Ast::Empty => Ast::Empty,
            Ast::Literal(c) => Ast::Literal(c),
            Ast::Concat(l, r) => Ast::Concat(
                Box::new(l.spec_ungrouped()),
                Box::new(r.spec_ungrouped()),
            ),
            Ast::Alt(l, r) => Ast::Alt(Box::new(l.spec_ungrouped()), Box::new(r.spec_ungrouped())),
            Ast::Star(x) => Ast::Star(Box::new(x.spec_ungrouped())),
            Ast::Plus(x) => Ast::Plus(Box::new(x.spec_ungrouped())),
            Ast::Optional(x) => Ast::Optional(Box::new(x.spec_ungrouped())),
            Ast::Group(x) => x.spec_ungrouped(),
        }
    }

    /// The trees whose text reads back as the same tree but for groups: no
    /// node is `Empty`, no literal is a metacharacter, the right operand of a
    /// concatenation is no concatenation, the right operand of an
    /// alternation is no alternation, and the operand of a quantifier is no
    /// quantifier.
    pub open spec fn spec_is_textual(self) -> bool
        decreases self,
    {
        match self {
            Ast::Empty => false,
            Ast::Literal(c) => !spec_is_meta(c),
            Ast::Concat(l, r) => l.spec_is_textual() && r.spec_is_textual() && !(*r is Concat),
            Ast::Alt(l, r) => l.spec_is_textual() && r.spec_is_textual() && !(*r is Alt),
            Ast::Star(x) | Ast::Plus(x) | Ast::Optional(x) => x.spec_is_textual()
                && !x.spec_is_quantified(),
            Ast::Group(x) => x.spec_is_textual(),
        }
    }
}

/// Grouping leaves the node at the top what it is.
pub proof fn lemma_grouped_keeps_the_top(ast: Ast)
    ensures
        ast is Empty <==> ast.spec_grouped() is Empty,
        ast is Literal <==> ast.spec_grouped() is Literal,
        ast is Concat <==> ast.spec_grouped() is Concat,
        ast is Alt <==> ast.spec_grouped() is Alt,
        ast is Star <==> ast.spec_grouped() is Star,
        ast is Plus <==> ast.spec_grouped() is Plus,
        ast is Optional <==> ast.spec_grouped() is Optional,
        ast is Group <==> ast.spec_grouped() is Group,
{
    reveal_with_fuel(Ast::spec_grouped, 3);
    reveal_with_fuel(Ast::spec_grouped_operand, 3);
    reveal_with_fuel(Ast::spec_grouped_quantified, 3);
}

/// The grouped tree has the text of the tree.
pub proof fn lemma_grouped_renders_alike(ast: Ast)
    ensures
        ast.spec_grouped().spec_render() == ast.spec_render(),
        ast.spec_grouped_operand().spec_render() == ast.spec_render_operand(),
        ast.spec_grouped_quantified().spec_render() == ast.spec_render_quantified(),
        ast.spec_grouped_operand().spec_render_operand() == ast.spec_render_operand(),
        ast.spec_grouped_quantified().spec_render_quantified() == ast.spec_render_quantified(),
    decreases ast,
{
    reveal_with_fuel(Ast::spec_grouped, 3);
    reveal_with_fuel(Ast::spec_grouped_operand, 3);
    reveal_with_fuel(Ast::spec_grouped_quantified, 3);
    reveal_with_fuel(Ast::spec_render, 3);
    reveal_with_fuel(Ast::spec_render_operand, 3);
    reveal_with_fuel(Ast::spec_render_quantified, 3);
    lemma_grouped_keeps_the_top(ast);
    match ast {
        Ast::Empty | Ast::Literal(_) => {},
        Ast::Concat(l, r) | Ast::Alt(l, r) => {
            lemma_grouped_renders_alike(*l);
            lemma_grouped_renders_alike(*r);
            lemma_grouped_keeps_the_top(*l);
            lemma_grouped_keeps_the_top(*r);
        },
        Ast::Star(x) | Ast::Plus(x) | Ast::Optional(x) | Ast::Group(x) => {
            lemma_grouped_renders_alike(*x);
            lemma_grouped_keeps_the_top(*x);
        },
    }
}

/// The grouped tree is the tree, but for groups.
pub proof fn lemma_grouped_ungroups_alike(ast: Ast)
    ensures
        ast.spec_grouped().spec_ungrouped() == ast.spec_ungrouped(),
        ast.spec_grouped_operand().spec_ungrouped() == ast.spec_ungrouped(),
        ast.spec_grouped_quantified().spec_ungrouped() == ast.spec_ungrouped(),
    decreases ast,
{
    reveal_with_fuel(Ast::spec_grouped, 3);
    reveal_with_fuel(Ast::spec_grouped_operand, 3);
    reveal_with_fuel(Ast::spec_grouped_quantified, 3);
    reveal_with_fuel(Ast::spec_ungrouped, 3);
    match ast {
        Ast::Empty | Ast::Literal(_) => {},
        Ast::Concat(l, r) | Ast::Alt(l, r) => {
            lemma_grouped_ungroups_alike(*l);
            lemma_grouped_ungroups_alike(*r);
        },
        Ast::Star(x) | Ast::Plus(x) | Ast::Optional(x) | Ast::Group(x) => {
            lemma_grouped_ungroups_alike(*x);
        },
    }
}

/// The grouped tree is canonical exactly if the tree is textual.
pub proof fn lemma_grouped_is_canonical(ast: Ast)
    ensures
        ast.spec_grouped().spec_is_alt() <==> ast.spec_is_textual(),
    decreases ast,
{
    reveal_with_fuel(Ast::spec_is_atom, 4);
    reveal_with_fuel(Ast::spec_is_repeat, 4);
    reveal_with_fuel(Ast::spec_is_concat, 4);
    reveal_with_fuel(Ast::spec_is_alt, 4);
    reveal_with_fuel(Ast::spec_grouped, 3);
    reveal_with_fuel(Ast::spec_grouped_operand, 3);
    reveal_with_fuel(Ast::spec_grouped_quantified, 3);
    lemma_grouped_keeps_the_top(ast);
    match ast {
        Ast::Empty | Ast::Literal(_) => {},
        Ast::Concat(l, r) => {
            lemma_grouped_is_canonical(*l);
            lemma_grouped_is_canonical(*r);
            lemma_grouped_keeps_the_top(*l);
            lemma_grouped_keeps_the_top(*r);
            lemma_levels(l.spec_grouped());
            lemma_levels(r.spec_grouped());
            let left = l.spec_grouped_operand();
            let right = r.spec_grouped_operand();
            assert(ast.spec_grouped().spec_is_alt() == (left.spec_is_concat()
                && right.spec_is_repeat()));
            assert(left.spec_is_concat() == l.spec_is_textual());
            assert(right.spec_is_repeat() == (r.spec_is_textual() && !(*r is Concat)));
            assert(ast.spec_grouped().spec_is_alt() <==> ast.spec_is_textual());
        },
        Ast::Alt(l, r) => {
            lemma_grouped_is_canonical(*l);
            lemma_grouped_is_canonical(*r);
            lemma_grouped_keeps_the_top(*l);
            lemma_grouped_keeps_the_top(*r);
            lemma_levels(l.spec_grouped());
            lemma_levels(r.spec_grouped());
            assert(ast.spec_grouped().spec_is_alt() == (l.spec_grouped().spec_is_alt()
                && r.spec_grouped().spec_is_concat()));
            assert(r.spec_grouped().spec_is_concat() == (r.spec_is_textual() && !(*r is Alt)));
            assert(ast.spec_grouped().spec_is_alt() <==> ast.spec_is_textual());
        },
        Ast::Star(x) | Ast::Plus(x) | Ast::Optional(x) => {
            lemma_grouped_is_canonical(*x);
            lemma_grouped_keeps_the_top(*x);
            lemma_levels(x.spec_grouped());
            let inner = x.spec_grouped_quantified();
            assert(ast.spec_grouped().spec_is_alt() == inner.spec_is_atom());
            assert(inner.spec_is_atom() == (x.spec_is_textual() && !x.spec_is_quantified()));
            assert(ast.spec_grouped().spec_is_alt() <==> ast.spec_is_textual());
        },
        Ast::Group(x) => {
            lemma_grouped_is_canonical(*x);
            assert(ast.spec_grouped().spec_is_alt() == x.spec_grouped().spec_is_alt());
            assert(ast.spec_grouped().spec_is_alt() <==> ast.spec_is_textual());
        },
    }
}

/// The round trip of any tree: the text of a textual tree, and that of the
/// empty tree, parses to the tree with its groups added, which is the same
/// tree but for groups. No other tree comes back so.
pub proof fn lemma_round_trip_but_for_groups(ast: Ast)
    ensures
        ast is Empty || ast.spec_is_textual() <==> spec_parse(ast.spec_render()) == Ok::<
            Ast,
            ParseError,
        >(ast.spec_grouped()),
        ast.spec_grouped().spec_ungrouped() == ast.spec_ungrouped(),
{
    lemma_grouped_keeps_the_top(ast);
    lemma_grouped_renders_alike(ast);
    lemma_grouped_ungroups_alike(ast);
    lemma_grouped_is_canonical(ast);
    if ast.spec_grouped().spec_is_canonical() {
        lemma_round_trip(ast.spec_grouped());
    }
    lemma_parse_is_canonical(ast.spec_render());
}

} // verus!
