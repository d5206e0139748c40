use regex_nfa::ast::Ast;
use regex_nfa::grammar::ParseError;
use regex_nfa::input::Input;
use regex_nfa::parser::{parse, parse_alt, parse_atom, parse_concat, parse_repeat};

fn lit(c: char) -> Box<Ast> {
    Box::new(Ast::Literal(c))
}

fn concat(l: Ast, r: Ast) -> Ast {
    Ast::Concat(Box::new(l), Box::new(r))
}

fn alt(l: Ast, r: Ast) -> Ast {
    Ast::Alt(Box::new(l), Box::new(r))
}

#[test]
fn test_group() {
    let mut ast = parse_alt(&mut Input::new(""));
    assert_eq!(Ok(None), ast);

    ast = parse_alt(&mut Input::new("b"));
    assert_eq!(Ok(Some(Ast::Literal('b'))), ast);
}

#[test]
fn empty_pattern_is_empty() {
    assert_eq!(parse(""), Ok(Ast::Empty));
}

#[test]
fn single_literal() {
    assert_eq!(parse("a"), Ok(Ast::Literal('a')));
}

#[test]
fn concat_groups_to_the_left() {
    assert_eq!(parse("ab"), Ok(Ast::Concat(lit('a'), lit('b'))));
    assert_eq!(
        parse("abc"),
        Ok(concat(concat(Ast::Literal('a'), Ast::Literal('b')), Ast::Literal('c')))
    );
}

#[test]
fn alternation_has_lowest_precedence() {
    assert_eq!(parse("a|b"), Ok(Ast::Alt(lit('a'), lit('b'))));
    assert_eq!(
        parse("ab|cd"),
        Ok(alt(
            concat(Ast::Literal('a'), Ast::Literal('b')),
            concat(Ast::Literal('c'), Ast::Literal('d'))
        ))
    );
}

#[test]
fn alternation_groups_to_the_left() {
    assert_eq!(
        parse("a|b|c"),
        Ok(alt(alt(Ast::Literal('a'), Ast::Literal('b')), Ast::Literal('c')))
    );
}

#[test]
fn quantifier_binds_to_the_atom_before_it() {
    assert_eq!(parse("ab*"), Ok(concat(Ast::Literal('a'), Ast::Star(lit('b')))));
    assert_eq!(parse("a+b"), Ok(concat(Ast::Plus(lit('a')), Ast::Literal('b'))));
    assert_eq!(parse("a?"), Ok(Ast::Optional(lit('a'))));
}

#[test]
fn group_is_an_atom() {
    assert_eq!(
        parse("(ab)*"),
        Ok(Ast::Star(Box::new(Ast::Group(Box::new(concat(
            Ast::Literal('a'),
            Ast::Literal('b')
        ))))))
    );
    assert_eq!(parse("(a)"), Ok(Ast::Group(lit('a'))));
    assert_eq!(parse("((a))"), Ok(Ast::Group(Box::new(Ast::Group(lit('a'))))));
}

#[test]
fn every_other_character_is_a_literal() {
    assert_eq!(parse("="), Ok(Ast::Literal('=')));
    assert_eq!(parse("1 "), Ok(concat(Ast::Literal('1'), Ast::Literal(' '))));
    assert_eq!(
        parse("\u{e9}\u{4e2d}"),
        Ok(concat(Ast::Literal('\u{e9}'), Ast::Literal('\u{4e2d}')))
    );
    assert_eq!(parse("."), Ok(Ast::Literal('.')));
}

#[test]
fn error_scenarios() {
    assert_eq!(parse(")("), Err(ParseError::UnexpectedChar { position: 0, found: ')' }));
    assert_eq!(parse("*ab"), Err(ParseError::DanglingQuantifier));
    assert_eq!(parse("a||b"), Err(ParseError::EmptyAlternative));
    assert_eq!(parse("(ab"), Err(ParseError::UnterminatedGroup));
}

#[test]
fn second_quantifier_dangles() {
    assert_eq!(parse("a**"), Err(ParseError::DanglingQuantifier));
    assert_eq!(parse("a+?"), Err(ParseError::DanglingQuantifier));
    assert_eq!(parse("(a)*+"), Err(ParseError::DanglingQuantifier));
    assert_eq!(parse("a|*"), Err(ParseError::DanglingQuantifier));
    assert_eq!(parse("(+a)"), Err(ParseError::DanglingQuantifier));
}

#[test]
fn empty_alternatives_are_errors() {
    assert_eq!(parse("a|"), Err(ParseError::EmptyAlternative));
    assert_eq!(parse("|b"), Err(ParseError::EmptyAlternative));
    assert_eq!(parse("|"), Err(ParseError::EmptyAlternative));
    assert_eq!(parse("(a|)"), Err(ParseError::EmptyAlternative));
    assert_eq!(parse("(|a)"), Err(ParseError::EmptyAlternative));
}

#[test]
fn unterminated_groups() {
    assert_eq!(parse("("), Err(ParseError::UnterminatedGroup));
    assert_eq!(parse("(a"), Err(ParseError::UnterminatedGroup));
    assert_eq!(parse("((a)"), Err(ParseError::UnterminatedGroup));
    assert_eq!(parse("a(b|c"), Err(ParseError::UnterminatedGroup));
}

#[test]
fn unexpected_closing_parenthesis() {
    assert_eq!(parse("a)"), Err(ParseError::UnexpectedChar { position: 1, found: ')' }));
    assert_eq!(parse("(a))b"), Err(ParseError::UnexpectedChar { position: 3, found: ')' }));
    assert_eq!(parse("()"), Err(ParseError::UnexpectedChar { position: 1, found: ')' }));
    assert_eq!(parse("ab()"), Err(ParseError::UnexpectedChar { position: 3, found: ')' }));
}

#[test]
fn grammar_functions_leave_the_cursor_after_the_node() {
    let mut input = Input::new("ab+");
    assert_eq!(parse_atom(&mut input), Ok(Some(Ast::Literal('a'))));
    assert_eq!(input.position(), 1);
    assert_eq!(parse_repeat(&mut input), Ok(Some(Ast::Plus(lit('b')))));
    assert_eq!(input.position(), 3);
    assert_eq!(parse_concat(&mut input), Ok(None));
    assert_eq!(input.position(), 3);
}

#[test]
fn absence_consumes_nothing() {
    let mut input = Input::new("|alt");
    assert_eq!(parse_atom(&mut input), Ok(None));
    assert_eq!(input.position(), 0);
    assert_eq!(input.peek(), Some('|'));
    assert_eq!(parse_concat(&mut input), Ok(None));
    assert_eq!(input.position(), 0);
    assert_eq!(parse_alt(&mut input), Err(ParseError::EmptyAlternative));

    let mut input = Input::new(")");
    assert_eq!(parse_alt(&mut input), Ok(None));
    assert_eq!(input.position(), 0);
}

#[test]
fn concat_stops_before_alternation() {
    let mut input = Input::new("ab|c");
    assert_eq!(
        parse_concat(&mut input),
        Ok(Some(concat(Ast::Literal('a'), Ast::Literal('b'))))
    );
    assert_eq!(input.position(), 2);
    assert_eq!(input.peek(), Some('|'));
}

#[test]
fn repeat_reads_one_quantifier() {
    let mut input = Input::new("a**");
    assert_eq!(parse_repeat(&mut input), Ok(Some(Ast::Star(lit('a')))));
    assert_eq!(input.position(), 2);
    assert_eq!(parse_repeat(&mut input), Err(ParseError::DanglingQuantifier));
    assert_eq!(input.position(), 2);
}

#[test]
fn cursor_walks_the_text() {
    let mut input = Input::new("xy");
    assert_eq!(input.position(), 0);
    assert_eq!(input.peek(), Some('x'));
    input.advance();
    assert_eq!(input.peek(), Some('y'));
    input.advance();
    assert_eq!(input.peek(), None);
    assert_eq!(input.position(), 2);
    input.advance();
    assert_eq!(input.position(), 2);
}

#[test]
fn repeat_wraps_in_the_quantifier() {
    assert_eq!(Ast::repeat('*', Ast::Literal('a')), Ok(Ast::Star(lit('a'))));
    assert_eq!(Ast::repeat('+', Ast::Literal('a')), Ok(Ast::Plus(lit('a'))));
    assert_eq!(Ast::repeat('?', Ast::Literal('a')), Ok(Ast::Optional(lit('a'))));
    assert_eq!(
        Ast::repeat('x', Ast::Literal('a')),
        Err("Expected one of repeat operators: *, +, ?")
    );
}
