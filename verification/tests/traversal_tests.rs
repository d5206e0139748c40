use regex_nfa::ast::Ast;
use regex_nfa::parser::parse;
use regex_nfa::traversal::AstPreOrderIter;

fn collect<'a>(ast: &'a Ast) -> Vec<&'a Ast> {
    let mut nodes = Vec::new();
    let mut it = ast.preorder_iter();
    while let Some(node) = it.next() {
        nodes.push(node);
    }
    nodes
}

fn count(ast: &Ast) -> usize {
    match ast {
        Ast::Empty | Ast::Literal(_) => 1,
        Ast::Concat(l, r) | Ast::Alt(l, r) => 1 + count(l) + count(r),
        Ast::Star(x) | Ast::Plus(x) | Ast::Optional(x) | Ast::Group(x) => 1 + count(x),
    }
}

#[test]
fn preorder_of_a_leaf() {
    let ast = Ast::Literal('a');
    assert_eq!(collect(&ast), vec![&ast]);
    assert_eq!(collect(&Ast::Empty), vec![&Ast::Empty]);
}

#[test]
fn preorder_goes_left_first() {
    let ast = parse("ab|c*").unwrap();
    let a = Ast::Literal('a');
    let b = Ast::Literal('b');
    let c = Ast::Literal('c');
    let ab = Ast::Concat(Box::new(Ast::Literal('a')), Box::new(Ast::Literal('b')));
    let cs = Ast::Star(Box::new(Ast::Literal('c')));
    assert_eq!(collect(&ast), vec![&ast, &ab, &a, &b, &cs, &c]);
}

#[test]
fn preorder_enters_groups() {
    let ast = parse("(a)?").unwrap();
    let a = Ast::Literal('a');
    let g = Ast::Group(Box::new(Ast::Literal('a')));
    assert_eq!(collect(&ast), vec![&ast, &g, &a]);
}

#[test]
fn preorder_gives_every_node_once() {
    for pattern in ["", "a", "ab", "a|b", "a(a|b)*", "((a|b)(c|d))*e+f?"] {
        let ast = parse(pattern).unwrap();
        let nodes = collect(&ast);
        assert_eq!(nodes.len(), count(&ast));
        assert!(std::ptr::eq(nodes[0], &ast));
        for (i, x) in nodes.iter().enumerate() {
            for y in nodes.iter().skip(i + 1) {
                assert!(!std::ptr::eq(*x, *y));
            }
        }
    }
}

#[test]
fn preorder_restarts() {
    let ast = parse("a(b|c)").unwrap();
    let first = collect(&ast);
    let second = collect(&ast);
    assert_eq!(first, second);
    assert_eq!(first.len(), 6);
}

#[test]
fn preorder_is_lazy_and_ends() {
    let ast = parse("ab").unwrap();
    let mut it = AstPreOrderIter::new(&ast);
    assert_eq!(it.next(), Some(&ast));
    assert_eq!(it.next(), Some(&Ast::Literal('a')));
    assert_eq!(it.next(), Some(&Ast::Literal('b')));
    assert_eq!(it.next(), None);
    assert_eq!(it.next(), None);
}
