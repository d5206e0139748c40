//! The recursive-descent parser: one function for each rule of the grammar,
//! each reading from a cursor and leaving it after what it read.

use vstd::prelude::*;
use crate::ast::{Ast, is_quantifier};
use crate::grammar::{
    ParseError, lemma_grammar_advances, spec_alt_rest, spec_concat_rest, spec_parse,
    spec_parse_alt, spec_parse_atom, spec_parse_concat, spec_parse_repeat,
};
use crate::input::Input;

verus! {

broadcast use Input::lemma_offset_in_text;

/// Reads an atom: a literal, or an alternation in parentheses.
///
/// Returns `Ok(None)`, with nothing consumed, where no atom starts: at the
/// end of the text, at `|` and at `)`.
pub fn parse_atom(input: &mut Input) -> (res: Result<Option<Ast>, ParseError>)
    ensures
        final(input).text() == old(input).text(),
        res == spec_parse_atom(old(input).text(), old(input).offset()).result,
        final(input).offset() == spec_parse_atom(old(input).text(), old(input).offset()).next,
        old(input).offset() <= final(input).offset(),
    decreases old(input).text().len() - old(input).offset(), 0nat,
{
    proof {
        lemma_grammar_advances(input.text(), input.offset());
    }
    let c = match input.peek() {
        None => {
            return Ok(None);
        },
        Some(c) => c,
    };
    if c == '|' || c == ')' {
        Ok(None)
    } else if is_quantifier(c) {
        Err(ParseError::DanglingQuantifier)
    } else if c == '(' {
        input.advance();
        match parse_alt(input) {
            Err(e) => Err(e),
            Ok(None) => match input.peek() {
                Some(found) => Err(
                    ParseError::UnexpectedChar { position: input.position(), found },
                ),
                None => Err(ParseError::UnterminatedGroup),
            },
            Ok(Some(node)) => match input.peek() {
                Some(')') => {
                    input.advance();
                    Ok(Some(Ast::Group(Box::new(node))))
                },
                _ => Err(ParseError::UnterminatedGroup),
            },
        }
    } else {
        input.advance();
        Ok(Some(Ast::Literal(c)))
    }
}

/// Reads an atom and the quantifier behind it, if there is one.
pub fn parse_repeat(input: &mut Input) -> (res: Result<Option<Ast>, ParseError>)
    ensures
        final(input).text() == old(input).text(),
        res == spec_parse_repeat(old(input).text(), old(input).offset()).result,
        final(input).offset() == spec_parse_repeat(old(input).text(), old(input).offset()).next,
        old(input).offset() <= final(input).offset(),
    decreases old(input).text().len() - old(input).offset(), 1nat,
{
    proof {
        lemma_grammar_advances(input.text(), input.offset());
    }
    let atom = match parse_atom(input) {
        Ok(Some(atom)) => atom,
        other => {
            return other;
        },
    };
    match input.peek() {
        Some(q) => if is_quantifier(q) {
            input.advance();
            Ok(Ast::repeat(q, atom).ok())
        } else {
            Ok(Some(atom))
        },
        None => Ok(Some(atom)),
    }
}

/// Reads one or more quantified atoms and joins them to the left.
pub fn parse_concat(input: &mut Input) -> (res: Result<Option<Ast>, ParseError>)
    ensures
        final(input).text() == old(input).text(),
        res == spec_parse_concat(old(input).text(), old(input).offset()).result,
        final(input).offset() == spec_parse_concat(old(input).text(), old(input).offset()).next,
        old(input).offset() <= final(input).offset(),
    decreases old(input).text().len() - old(input).offset(), 3nat,
{
    let ghost s = input.text();
    let ghost start = input.offset();
    proof {
        lemma_grammar_advances(s, start);
    }
    let mut acc = match parse_repeat(input) {
        Ok(Some(first)) => first,
        other => {
            return other;
        },
    };
    loop
        invariant
            input.text() == s,
            s == old(input).text(),
            start == old(input).offset(),
            start <= input.offset() <= s.len(),
            spec_parse_concat(s, start) == spec_concat_rest(s, input.offset(), acc),
        decreases s.len() - input.offset(),
    {
        proof {
            lemma_grammar_advances(s, input.offset());
        }
        match parse_repeat(input) {
            Err(e) => {
                return Err(e);
            },
            Ok(None) => {
                return Ok(Some(acc));
            },
            Ok(Some(operand)) => {
                acc = Ast::Concat(Box::new(acc), Box::new(operand));
            },
        }
    }
}

/// Reads one or more concatenations separated by `|` and joins them to the
/// left. Nothing on one side of a `|` is an error.
pub fn parse_alt(input: &mut Input) -> (res: Result<Option<Ast>, ParseError>)
    ensures
        final(input).text() == old(input).text(),
        res == spec_parse_alt(old(input).text(), old(input).offset()).result,
        final(input).offset() == spec_parse_alt(old(input).text(), old(input).offset()).next,
        old(input).offset() <= final(input).offset(),
    decreases old(input).text().len() - old(input).offset(), 5nat,
{
    let ghost s = input.text();
    let ghost start = input.offset();
    proof {
        lemma_grammar_advances(s, start);
    }
    let mut acc = match parse_concat(input) {
        Err(e) => {
            return Err(e);
        },
        Ok(None) => {
            return match input.peek() {
                Some('|') => Err(ParseError::EmptyAlternative),
                _ => Ok(None),
            };
        },
        Ok(Some(first)) => first,
    };
    loop
        invariant
            input.text() == s,
            s == old(input).text(),
            start == old(input).offset(),
            start < input.offset() <= s.len(),
            spec_parse_alt(s, start) == spec_alt_rest(s, input.offset(), acc),
        decreases s.len() - input.offset(),
    {
        match input.peek() {
            Some('|') => {},
            _ => {
                return Ok(Some(acc));
            },
        }
        input.advance();
        proof {
            lemma_grammar_advances(s, input.offset());
        }
        match parse_concat(input) {
            Err(e) => {
                return Err(e);
            },
            Ok(None) => {
                return Err(ParseError::EmptyAlternative);
            },
            Ok(Some(alternative)) => {
                acc = Ast::Alt(Box::new(acc), Box::new(alternative));
            },
        }
    }
}

/// Parses a whole pattern. The empty pattern gives `Ast::Empty`.
pub fn parse(pattern: &str) -> (res: Result<Ast, ParseError>)
    ensures
        res == spec_parse(pattern@),
{
    let mut input = Input::new(pattern);
    let whole = parse_alt(&mut input);
    match whole {
        Err(e) => Err(e),
        Ok(found) => match input.peek() {
            Some(c) => Err(ParseError::UnexpectedChar { position: input.position(), found: c }),
            None => match found {
                Some(node) => Ok(node),
                None => Ok(Ast::Empty),
            },
        },
    }
}

} // verus!
