//! The syntax tree of a pattern and its rendering back to pattern text.

use vstd::prelude::*;

verus! {

/// A node of the syntax tree. Every composite node owns its children.
#[derive(Debug, PartialEq, Eq)]
pub enum Ast {
    /// Matches the empty string; the tree of the empty pattern.
    Empty,
    /// Matches one occurrence of the character.
    Literal(char),
    /// The first child followed by the second.
    Concat(Box<Ast>, Box<Ast>),
    /// Either child.
    Alt(Box<Ast>, Box<Ast>),
    /// Zero or more repetitions of the child.
    Star(Box<Ast>),
    /// One or more repetitions of the child.
    Plus(Box<Ast>),
    /// Zero or one occurrence of the child.
    Optional(Box<Ast>),
    /// A parenthesised child; matches what the child matches.
    Group(Box<Ast>),
}

/// The characters that the pattern language reserves; every other character
/// is a literal.
pub open spec fn spec_is_meta(c: char) -> bool {
    c == '|' || c == '*' || c == '+' || c == '?' || c == '(' || c == ')'
}

/// The three characters that quantify the atom before them.
pub open spec fn spec_is_quantifier(c: char) -> bool {
    c == '*' || c == '+' || c == '?'
}

/// Whether the pattern language reserves `c`.
pub fn is_meta(c: char) -> (res: bool)
    ensures
        res == spec_is_meta(c),
{
    c == '|' || c == '*' || c == '+' || c == '?' || c == '(' || c == ')'
}

/// Whether `c` is one of the quantifiers `*`, `+` and `?`.
pub fn is_quantifier(c: char) -> (res: bool)
    ensures
        res == spec_is_quantifier(c),
{
    c == '*' || c == '+' || c == '?'
}

/// The node of the quantifier `q` over `atom`: `*` gives `Star`, `+` gives
/// `Plus` and `?` gives `Optional`.
pub open spec fn spec_quantify(q: char, atom: Ast) -> Ast
    recommends
        spec_is_quantifier(q),
{
    if q == '*' {
        Ast::Star(Box::new(atom))
    } else if q == '+' {
        Ast::Plus(Box::new(atom))
    } else {
        Ast::Optional(Box::new(atom))
    }
}

/// A sequence between a pair of parentheses.
pub open spec fn spec_parenthesized(inner: Seq<char>) -> Seq<char> {
    seq!['('] + inner + seq![')']
}

impl Ast {
    /// The number of nodes of the tree.
    pub open spec fn spec_node_count(self) -> nat
        decreases self,
    {
        match self {
            Ast::Empty | Ast::Literal(_) => 1,
            Ast::Concat(l, r) | Ast::Alt(l, r) => 1 + l.spec_node_count() + r.spec_node_count(),
            Ast::Star(x) | Ast::Plus(x) | Ast::Optional(x) | Ast::Group(x) => 1
                + x.spec_node_count(),
        }
    }

    /// The text of a node that stands under a quantifier: an alternation or a
    /// concatenation is put in parentheses, so that the quantifier applies to
    /// all of it.
    pub open spec fn spec_render_quantified(self) -> Seq<char>
        decreases self, 1nat,
    {
        match self {
            Ast::Alt(_, _) | Ast::Concat(_, _) => spec_parenthesized(self.spec_render()),
            _ => self.spec_render(),
        }
    }

    /// The text of a node that is an operand of a concatenation: an
    /// alternation is put in parentheses.
    pub open spec fn spec_render_operand(self) -> Seq<char>
        decreases self, 1nat,
    {
        match self {
            Ast::Alt(_, _) => spec_parenthesized(self.spec_render()),
            _ => self.spec_render(),
        }
    }

    /// The pattern text of the tree.
    pub open spec fn spec_render(self) -> Seq<char>
        decreases self, 0nat,
    {
        match self {
            Ast::Empty => Seq::empty(),
            Ast::Literal(c) => seq![c],
            Ast::Concat(l, r) => l.spec_render_operand() + r.spec_render_operand(),
            Ast::Alt(l, r) => l.spec_render() + seq!['|'] + r.spec_render(),
            Ast::Star(x) => x.spec_render_quantified() + seq!['*'],
            Ast::Plus(x) => x.spec_render_quantified() + seq!['+'],
            Ast::Optional(x) => x.spec_render_quantified() + seq!['?'],
            Ast::Group(x) => spec_parenthesized(x.spec_render()),
        }
    }

    /// Wraps `ast` in the node of the quantifier `r`. A character that is no
    /// quantifier gives the message that names the three that are.
    pub fn repeat(r: char, ast: Self) -> (res: Result<Ast, &'static str>)
        ensures
            spec_is_quantifier(r) ==> res == Ok::<Ast, &'static str>(spec_quantify(r, ast)),
            !spec_is_quantifier(r) ==> res is Err && res->Err_0@
                == "Expected one of repeat operators: *, +, ?"@,
    {
        match r {
            '*' => Ok(Ast::Star(Box::new(ast))),
            '+' => Ok(Ast::Plus(Box::new(ast))),
            '?' => Ok(Ast::Optional(Box::new(ast))),
            _ => Err("Expected one of repeat operators: *, +, ?"),
        }
    }

    /// The pattern text of the tree. Parentheses are added where the grammar
    /// would otherwise read the text as another tree.
    pub fn render(&self) -> (res: String)
        ensures
            res@ == self.spec_render(),
    {
        let mut out = String::new();
        self.render_into(false, &mut out);
        out
    }

    /// Appends the text of the tree to `out`, in parentheses if `wrap` is set.
    fn render_into(&self, wrap: bool, out: &mut String)
        ensures
            final(out)@ == old(out)@ + if wrap {
                spec_parenthesized(self.spec_render())
            } else {
                self.spec_render()
            },
        decreases self,
    {
        let ghost before = out@;
        if wrap {
            out.push('(');
        }
        let ghost start = out@;
        match self {
            Ast::Empty => {},
            Ast::Literal(c) => {
                out.push(*c);
            },
            Ast::Concat(l, r) => {
                l.render_into(l.is_alternation(), out);
                r.render_into(r.is_alternation(), out);
                assert(out@ =~= start + (l.spec_render_operand() + r.spec_render_operand()));
            },
            Ast::Alt(l, r) => {
                l.render_into(false, out);
                out.push('|');
                r.render_into(false, out);
                assert(out@ =~= start + (l.spec_render() + seq!['|'] + r.spec_render()));
            },
            Ast::Star(x) => {
                x.render_into(x.is_binary(), out);
                out.push('*');
                assert(out@ =~= start + (x.spec_render_quantified() + seq!['*']));
            },
            Ast::Plus(x) => {
                x.render_into(x.is_binary(), out);
                out.push('+');
                assert(out@ =~= start + (x.spec_render_quantified() + seq!['+']));
            },
            Ast::Optional(x) => {
                x.render_into(x.is_binary(), out);
                out.push('?');
                assert(out@ =~= start + (x.spec_render_quantified() + seq!['?']));
            },
            Ast::Group(x) => {
                x.render_into(true, out);
            },
        }
        assert(out@ =~= start + self.spec_render());
        if wrap {
            out.push(')');
        }
        assert(out@ =~= before + if wrap {
            spec_parenthesized(self.spec_render())
        } else {
            self.spec_render()
        });
    }

    /// Whether the node is an alternation.
    fn is_alternation(&self) -> (res: bool)
        ensures
            res == (*self is Alt),
    {
        match self {
            Ast::Alt(_, _) => true,
            _ => false,
        }
    }

    /// Whether the node is an alternation or a concatenation.
    fn is_binary(&self) -> (res: bool)
        ensures
            res == (*self is Alt || *self is Concat),
    {
        match self {
            Ast::Alt(_, _) | Ast::Concat(_, _) => true,
            _ => false,
        }
    }
}

} // verus!
