//! Walking a tree in pre-order: a node, then the subtree of its first child,
//! then the subtree of its second.

use vstd::prelude::*;
use vstd::multiset::Multiset;
use crate::ast::Ast;

verus! {

impl Ast {
    /// The nodes of the tree in pre-order.
    pub open spec fn spec_preorder(self) -> Seq<Ast>
        decreases self,
    {
        match self {
            Ast::Empty | Ast::Literal(_) => seq![self],
            Ast::Concat(l, r) | Ast::Alt(l, r) => seq![self] + l.spec_preorder()
                + r.spec_preorder(),
            Ast::Star(x) | Ast::Plus(x) | Ast::Optional(x) | Ast::Group(x) => seq![self]
                + x.spec_preorder(),
        }
    }

    /// The nodes of the tree, each as often as it occurs, in no order.
    pub open spec fn spec_nodes(self) -> Multiset<Ast>
        decreases self,
    {
        match self {
            Ast::Empty | Ast::Literal(_) => Multiset::singleton(self),
            Ast::Concat(l, r) | Ast::Alt(l, r) => Multiset::singleton(self).add(
                l.spec_nodes(),
            ).add(r.spec_nodes()),
            Ast::Star(x) | Ast::Plus(x) | Ast::Optional(x) | Ast::Group(x) => Multiset::singleton(
                self,
            ).add(x.spec_nodes()),
        }
    }

    /// A traversal of the tree in pre-order, at its start.
    pub fn preorder_iter(&self) -> (res: AstPreOrderIter<'_>)
        ensures
            res@ == self.spec_preorder(),
    {
        AstPreOrderIter::new(self)
    }
}

/// The nodes that a stack of pending subtrees still has to give: those of
/// the subtree on top first.
pub open spec fn spec_pending(stack: Seq<&Ast>) -> Seq<Ast>
    decreases stack.len(),
{
    if stack.len() == 0 {
        Seq::empty()
    } else {
        stack.last().spec_preorder() + spec_pending(stack.drop_last())
    }
}

/// A subtree pushed on the stack is walked before what was pending.
pub proof fn lemma_pending_push(stack: Seq<&Ast>, top: &Ast)
    ensures
        spec_pending(stack.push(top)) == top.spec_preorder() + spec_pending(stack),
{
    assert(stack.push(top).drop_last() =~= stack);
}

/// The traversal of a tree starts with its root.
pub proof fn lemma_preorder_starts_at_root(ast: Ast)
    ensures
        ast.spec_preorder().len() >= 1,
        ast.spec_preorder()[0] == ast,
    decreases ast,
{
}

/// Pre-order traversal visits each node of the tree exactly once: it gives
/// as many nodes as the tree has, the root first, and each node as often as
/// it occurs in the tree.
pub proof fn lemma_preorder_visits_each_node_once(ast: Ast)
    ensures
        ast.spec_preorder().len() == ast.spec_node_count(),
        ast.spec_preorder()[0] == ast,
        ast.spec_preorder().to_multiset() == ast.spec_nodes(),
    decreases ast,
{
    broadcast use vstd::seq_lib::group_to_multiset_ensures;

    let root = seq![ast];
    assert(root =~= Seq::<Ast>::empty().push(ast));
    assert(root.to_multiset() =~= Multiset::singleton(ast));
    match ast {
        Ast::Empty | Ast::Literal(_) => {},
        Ast::Concat(l, r) | Ast::Alt(l, r) => {
            lemma_preorder_visits_each_node_once(*l);
            lemma_preorder_visits_each_node_once(*r);
            vstd::seq_lib::lemma_multiset_commutative(root, l.spec_preorder());
            vstd::seq_lib::lemma_multiset_commutative(root + l.spec_preorder(), r.spec_preorder());
        },
        Ast::Star(x) | Ast::Plus(x) | Ast::Optional(x) | Ast::Group(x) => {
            lemma_preorder_visits_each_node_once(*x);
            vstd::seq_lib::lemma_multiset_commutative(root, x.spec_preorder());
        },
    }
}

/// A traversal of a tree in pre-order that gives one node at a time. It
/// keeps the subtrees that are still to be walked on a stack of its own, so
/// that a deep tree needs no deep recursion.
pub struct AstPreOrderIter<'a> {
    stack: Vec<&'a Ast>,
}

impl<'a> View for AstPreOrderIter<'a> {
    type V = Seq<Ast>;

    /// The nodes that the traversal has still to give, in their order.
    closed spec fn view(&self) -> Seq<Ast> {
        spec_pending(self.stack@)
    }
}

impl<'a> AstPreOrderIter<'a> {
    /// The traversal of `ast`, at its start.
    pub fn new(ast: &'a Ast) -> (res: Self)
        ensures
            res@ == ast.spec_preorder(),
    {
        let mut stack = Vec::new();
        stack.push(ast);
        proof {
            lemma_pending_push(Seq::empty(), ast);
            assert(spec_pending(stack@) =~= ast.spec_preorder());
        }
        Self { stack }
    }

    /// The next node of the traversal, or `None` when every node was given.
    pub fn next(&mut self) -> (res: Option<&'a Ast>)
        ensures
            old(self)@.len() == 0 ==> res is None && final(self)@ == old(self)@,
            old(self)@.len() > 0 ==> res == Some(&old(self)@[0]) && final(self)@ == old(
                self,
            )@.drop_first(),
    {
        let ghost before = self.stack@;
        let node: &'a Ast = match self.stack.pop() {
            None => {
                return None;
            },
            Some(node) => node,
        };
        let ghost rest = self.stack@;
        proof {
            lemma_preorder_starts_at_root(*node);
            assert(before.drop_last() =~= rest);
        }
        match node {
            Ast::Concat(l, r) | Ast::Alt(l, r) => {
                self.stack.push(&**r);
                let ghost with_right = self.stack@;
                self.stack.push(&**l);
                proof {
                    lemma_pending_push(rest, &**r);
                    lemma_pending_push(with_right, &**l);
                    assert(spec_pending(self.stack@) =~= l.spec_preorder() + (r.spec_preorder()
                        + spec_pending(rest)));
                }
            },
            Ast::Star(x) | Ast::Plus(x) | Ast::Optional(x) | Ast::Group(x) => {
                self.stack.push(&**x);
                proof {
                    lemma_pending_push(rest, &**x);
                }
            },
            Ast::Empty | Ast::Literal(_) => {},
        }
        assert(self@ =~= old(self)@.drop_first());
        Some(node)
    }
}

} // verus!
