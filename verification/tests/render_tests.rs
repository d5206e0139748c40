use regex_nfa::ast::{is_meta, is_quantifier, Ast};
use regex_nfa::canonical::{is_alt, is_atom, is_canonical, is_concat, is_repeat};
use regex_nfa::parser::parse;

fn lit(c: char) -> Ast {
    Ast::Literal(c)
}

fn concat(l: Ast, r: Ast) -> Ast {
    Ast::Concat(Box::new(l), Box::new(r))
}

fn alt(l: Ast, r: Ast) -> Ast {
    Ast::Alt(Box::new(l), Box::new(r))
}

fn star(x: Ast) -> Ast {
    Ast::Star(Box::new(x))
}

fn plus(x: Ast) -> Ast {
    Ast::Plus(Box::new(x))
}

fn optional(x: Ast) -> Ast {
    Ast::Optional(Box::new(x))
}

fn group(x: Ast) -> Ast {
    Ast::Group(Box::new(x))
}

#[test]
fn render_leaves() {
    assert_eq!(Ast::Empty.render(), "");
    assert_eq!(lit('a').render(), "a");
    assert_eq!(lit('\u{4e2d}').render(), "\u{4e2d}");
}

#[test]
fn render_operators() {
    assert_eq!(concat(lit('a'), lit('b')).render(), "ab");
    assert_eq!(alt(lit('a'), lit('b')).render(), "a|b");
    assert_eq!(star(lit('a')).render(), "a*");
    assert_eq!(plus(lit('a')).render(), "a+");
    assert_eq!(optional(lit('a')).render(), "a?");
    assert_eq!(group(lit('a')).render(), "(a)");
}

#[test]
fn render_parenthesizes_under_a_quantifier() {
    assert_eq!(star(concat(lit('a'), lit('b'))).render(), "(ab)*");
    assert_eq!(plus(alt(lit('a'), lit('b'))).render(), "(a|b)+");
    assert_eq!(optional(concat(lit('a'), lit('b'))).render(), "(ab)?");
    assert_eq!(star(group(concat(lit('a'), lit('b')))).render(), "(ab)*");
}

#[test]
fn render_parenthesizes_alternation_in_concat() {
    assert_eq!(concat(alt(lit('a'), lit('b')), lit('c')).render(), "(a|b)c");
    assert_eq!(concat(lit('a'), alt(lit('b'), lit('c'))).render(), "a(b|c)");
    assert_eq!(alt(concat(lit('a'), lit('b')), lit('c')).render(), "ab|c");
}

#[test]
fn render_nested() {
    let ast = concat(lit('a'), star(group(alt(lit('a'), lit('b')))));
    assert_eq!(ast.render(), "a(a|b)*");
}

#[test]
fn round_trip_of_canonical_trees() {
    let trees = vec![
        Ast::Empty,
        lit('a'),
        concat(lit('a'), lit('b')),
        concat(concat(lit('a'), lit('b')), lit('c')),
        alt(lit('a'), lit('b')),
        alt(alt(lit('a'), lit('b')), concat(lit('c'), lit('d'))),
        star(lit('a')),
        plus(group(alt(lit('a'), lit('b')))),
        concat(lit('a'), optional(group(concat(lit('b'), star(lit('c')))))),
        group(group(lit('x'))),
    ];
    for tree in trees {
        assert!(is_canonical(&tree));
        assert_eq!(parse(&tree.render()), Ok(tree));
    }
}

#[test]
fn round_trip_of_parsed_patterns() {
    let patterns = vec!["", "a", "ab", "a|b", "a(a|b)*", "(ab)+c?|d", "((a|b)(c|d))*", "x y"];
    for pattern in patterns {
        let tree = parse(pattern).unwrap();
        assert!(is_canonical(&tree));
        assert_eq!(tree.render(), pattern);
    }
}

#[test]
fn other_trees_do_not_come_back() {
    let quantified = star(concat(lit('a'), lit('b')));
    assert!(!is_canonical(&quantified));
    assert_eq!(
        parse(&quantified.render()),
        Ok(star(group(concat(lit('a'), lit('b')))))
    );

    let right_nested = concat(lit('a'), concat(lit('b'), lit('c')));
    assert!(!is_canonical(&right_nested));
    assert_eq!(
        parse(&right_nested.render()),
        Ok(concat(concat(lit('a'), lit('b')), lit('c')))
    );

    let twice = star(star(lit('a')));
    assert!(!is_canonical(&twice));
    assert!(parse(&twice.render()).is_err());

    let meta = lit('*');
    assert!(!is_canonical(&meta));
    assert!(parse(&meta.render()).is_err());

    let hollow = group(Ast::Empty);
    assert!(!is_canonical(&hollow));
    assert!(parse(&hollow.render()).is_err());
}

#[test]
fn levels_of_the_grammar() {
    assert!(is_atom(&lit('a')));
    assert!(is_atom(&group(alt(lit('a'), lit('b')))));
    assert!(!is_atom(&star(lit('a'))));
    assert!(is_repeat(&star(lit('a'))));
    assert!(!is_repeat(&concat(lit('a'), lit('b'))));
    assert!(is_concat(&concat(lit('a'), star(lit('b')))));
    assert!(!is_concat(&alt(lit('a'), lit('b'))));
    assert!(is_alt(&alt(lit('a'), lit('b'))));
    assert!(!is_alt(&alt(lit('a'), alt(lit('b'), lit('c')))));
    assert!(!is_alt(&Ast::Empty));
}

#[test]
fn metacharacters() {
    for c in ['|', '*', '+', '?', '(', ')'] {
        assert!(is_meta(c));
    }
    for c in ['a', 'Z', '0', ' ', '.', '\\', '[', '\u{25b}'] {
        assert!(!is_meta(c));
    }
    for c in ['*', '+', '?'] {
        assert!(is_quantifier(c));
    }
    for c in ['|', '(', ')', 'a'] {
        assert!(!is_quantifier(c));
    }
}

#[test]
fn textual_trees_come_back_but_for_groups() {
    let cases = vec![
        (
            concat(alt(lit('a'), lit('b')), lit('c')),
            concat(group(alt(lit('a'), lit('b'))), lit('c')),
        ),
        (
            concat(lit('a'), alt(lit('b'), lit('c'))),
            concat(lit('a'), group(alt(lit('b'), lit('c')))),
        ),
        (
            star(concat(lit('a'), lit('b'))),
            star(group(concat(lit('a'), lit('b')))),
        ),
        (
            optional(alt(concat(lit('a'), lit('b')), plus(lit('c')))),
            optional(group(alt(concat(lit('a'), lit('b')), plus(lit('c'))))),
        ),
        (
            alt(star(alt(lit('a'), lit('b'))), lit('c')),
            alt(star(group(alt(lit('a'), lit('b')))), lit('c')),
        ),
    ];
    for (tree, grouped) in cases {
        assert_eq!(parse(&tree.render()), Ok(grouped));
    }
}
