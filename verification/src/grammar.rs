//! The grammar of patterns, as functions on a text and a position.
//!
//! From lowest to highest precedence:
//!
//! ```text
//! alt        := concat ('|' concat)*
//! concat     := repeat+
//! repeat     := atom quantifier?
//! atom       := literal | '(' alt ')'
//! quantifier := '*' | '+' | '?'
//! ```
//!
//! A literal is any character that is not one of `| * + ? ( )`.

use vstd::prelude::*;
use crate::ast::{Ast, spec_is_quantifier, spec_quantify};

verus! {

/// Why a text is not a pattern.
#[derive(Debug, Clone, Copy, PartialEq, Eq)]
pub enum ParseError {
    /// A character stands where the grammar has no use for it.
    UnexpectedChar { position: usize, found: char },
    /// A `(` without its `)`.
    UnterminatedGroup,
    /// A quantifier with no atom before it, or after another quantifier.
    DanglingQuantifier,
    /// Nothing on one side of a `|`.
    EmptyAlternative,
}

/// What a grammar function makes of the text at a position: a node, nothing
/// (no node starts here), or a failure; and where it leaves the cursor.
pub struct Parsed {
    pub result: Result<Option<Ast>, ParseError>,
    pub next: int,
}

/// A node was read and the cursor stands at `next`.
pub open spec fn found(node: Ast, next: int) -> Parsed {
    Parsed { result: Ok(Some(node)), next }
}

/// No node starts at `pos`; nothing was consumed.
pub open spec fn absent(pos: int) -> Parsed {
    Parsed { result: Ok(None), next: pos }
}

/// The text is no pattern; the cursor stopped at `pos`.
pub open spec fn failed(error: ParseError, pos: int) -> Parsed {
    Parsed { result: Err(error), next: pos }
}

/// The cursor moved forward from `pos` to `next` and stayed within the text.
/// Every node that a grammar function reads does so
/// (`lemma_grammar_advances`); the grammar functions ask for it where they
/// go on reading after a node.
pub open spec fn advances(s: Seq<char>, pos: int, next: int) -> bool {
    pos < next <= s.len()
}

/// `atom := literal | '(' alt ')'`
///
/// At the end of the text, at `|` and at `)` no atom starts. A quantifier
/// here has nothing to quantify.
pub open spec fn spec_parse_atom(s: Seq<char>, pos: int) -> Parsed
    decreases s.len() - pos, 0nat,
{
    if pos < 0 || pos >= s.len() {
        absent(pos)
    } else if s[pos] == '|' || s[pos] == ')' {
        absent(pos)
    } else if spec_is_quantifier(s[pos]) {
        failed(ParseError::DanglingQuantifier, pos)
    } else if s[pos] == '(' {
        let inner = spec_parse_alt(s, pos + 1);
        let close = inner.next;
        match inner.result {
            Err(_) => inner,
            Ok(None) => if 0 <= close < s.len() {
                failed(ParseError::UnexpectedChar { position: close as usize, found: s[close] }, close)
            } else {
                failed(ParseError::UnterminatedGroup, close)
            },
            Ok(Some(node)) => if 0 <= close < s.len() && s[close] == ')' {
                found(Ast::Group(Box::new(node)), close + 1)
            } else {
                failed(ParseError::UnterminatedGroup, close)
            },
        }
    } else {
        found(Ast::Literal(s[pos]), pos + 1)
    }
}

/// `repeat := atom quantifier?`
pub open spec fn spec_parse_repeat(s: Seq<char>, pos: int) -> Parsed
    decreases s.len() - pos, 1nat,
{
    let atom = spec_parse_atom(s, pos);
    match atom.result {
        Ok(Some(node)) => if 0 <= atom.next < s.len() && spec_is_quantifier(s[atom.next]) {
            found(spec_quantify(s[atom.next], node), atom.next + 1)
        } else {
            atom
        },
        _ => atom,
    }
}

/// The rest of a concatenation whose operands so far make up `acc`: each
/// further `repeat` becomes the right operand of a new node.
pub open spec fn spec_concat_rest(s: Seq<char>, pos: int, acc: Ast) -> Parsed
    decreases s.len() - pos, 2nat,
{
    let operand = spec_parse_repeat(s, pos);
    match operand.result {
        Err(_) => operand,
        Ok(None) => found(acc, pos),
        Ok(Some(node)) => if advances(s, pos, operand.next) {
            spec_concat_rest(s, operand.next, Ast::Concat(Box::new(acc), Box::new(node)))
        } else {
            operand
        },
    }
}

/// `concat := repeat+`, grouping to the left.
pub open spec fn spec_parse_concat(s: Seq<char>, pos: int) -> Parsed
    decreases s.len() - pos, 3nat,
{
    let first = spec_parse_repeat(s, pos);
    match first.result {
        Ok(Some(node)) => if advances(s, pos, first.next) {
            spec_concat_rest(s, first.next, node)
        } else {
            first
        },
        _ => first,
    }
}

/// The rest of an alternation whose alternatives so far make up `acc`: each
/// `|` must be followed by a concatenation, which becomes the right operand
/// of a new node.
pub open spec fn spec_alt_rest(s: Seq<char>, pos: int, acc: Ast) -> Parsed
    decreases s.len() - pos, 4nat,
{
    if 0 <= pos < s.len() && s[pos] == '|' {
        let alternative = spec_parse_concat(s, pos + 1);
        match alternative.result {
            Err(_) => alternative,
            Ok(None) => failed(ParseError::EmptyAlternative, alternative.next),
            Ok(Some(node)) => if advances(s, pos, alternative.next) {
                spec_alt_rest(s, alternative.next, Ast::Alt(Box::new(acc), Box::new(node)))
            } else {
                alternative
            },
        }
    } else {
        found(acc, pos)
    }
}

/// `alt := concat ('|' concat)*`, grouping to the left. A `|` with nothing
/// before it is an empty alternative.
pub open spec fn spec_parse_alt(s: Seq<char>, pos: int) -> Parsed
    decreases s.len() - pos, 5nat,
{
    let first = spec_parse_concat(s, pos);
    match first.result {
        Err(_) => first,
        Ok(None) => if 0 <= pos < s.len() && s[pos] == '|' {
            failed(ParseError::EmptyAlternative, pos)
        } else {
            first
        },
        Ok(Some(node)) => if advances(s, pos, first.next) {
            spec_alt_rest(s, first.next, node)
        } else {
            first
        },
    }
}

/// The tree of a whole pattern. The empty text is the empty pattern; a text
/// that goes on after its alternation does so with a `)` that closes nothing.
pub open spec fn spec_parse(s: Seq<char>) -> Result<Ast, ParseError> {
    let whole = spec_parse_alt(s, 0);
    match whole.result {
        Err(e) => Err(e),
        Ok(found) => if 0 <= whole.next < s.len() {
            Err(ParseError::UnexpectedChar { position: whole.next as usize, found: s[whole.next] })
        } else {
            match found {
                Some(node) => Ok(node),
                None => Ok(Ast::Empty),
            }
        },
    }
}

/// What holds of the cursor after a grammar function ran at `pos`: it did not
/// move back nor leave the text, it moved forward if a node was read, and it
/// stayed where it was if none starts there.
pub open spec fn in_step(s: Seq<char>, pos: int, parsed: Parsed) -> bool {
    &&& pos <= parsed.next <= s.len()
    &&& parsed.result matches Ok(Some(_)) ==> pos < parsed.next
    &&& parsed.result matches Ok(None) ==> parsed.next == pos
}

/// The four grammar functions keep the cursor in step.
pub proof fn lemma_grammar_advances(s: Seq<char>, pos: int)
    requires
        0 <= pos <= s.len(),
    ensures
        in_step(s, pos, spec_parse_atom(s, pos)),
        in_step(s, pos, spec_parse_repeat(s, pos)),
        in_step(s, pos, spec_parse_concat(s, pos)),
        in_step(s, pos, spec_parse_alt(s, pos)),
    decreases s.len() - pos, 0nat,
{
    if pos < s.len() && s[pos] == '(' {
        lemma_grammar_advances(s, pos + 1);
    }
    let first = spec_parse_repeat(s, pos);
    if let Ok(Some(node)) = first.result {
        lemma_concat_rest_advances(s, first.next, node);
    }
    let first = spec_parse_concat(s, pos);
    if let Ok(Some(node)) = first.result {
        lemma_alt_rest_advances(s, first.next, node);
    }
}

/// The rest of a concatenation does not move the cursor back, and ends in a
/// node or a failure.
pub proof fn lemma_concat_rest_advances(s: Seq<char>, pos: int, acc: Ast)
    requires
        0 <= pos <= s.len(),
    ensures
        pos <= spec_concat_rest(s, pos, acc).next <= s.len(),
        !(spec_concat_rest(s, pos, acc).result matches Ok(None)),
    decreases s.len() - pos, 1nat,
{
    lemma_grammar_advances(s, pos);
    let operand = spec_parse_repeat(s, pos);
    if let Ok(Some(node)) = operand.result {
        lemma_concat_rest_advances(
            s,
            operand.next,
            Ast::Concat(Box::new(acc), Box::new(node)),
        );
    }
}

/// The rest of an alternation does not move the cursor back, and ends in a
/// node or a failure.
pub proof fn lemma_alt_rest_advances(s: Seq<char>, pos: int, acc: Ast)
    requires
        0 <= pos <= s.len(),
    ensures
        pos <= spec_alt_rest(s, pos, acc).next <= s.len(),
        !(spec_alt_rest(s, pos, acc).result matches Ok(None)),
    decreases s.len() - pos, 1nat,
{
    if pos < s.len() && s[pos] == '|' {
        lemma_grammar_advances(s, pos + 1);
        let alternative = spec_parse_concat(s, pos + 1);
        if let Ok(Some(node)) = alternative.result {
            lemma_alt_rest_advances(
                s,
                alternative.next,
                Ast::Alt(Box::new(acc), Box::new(node)),
            );
        }
    }
}

} // verus!
