//! The builder: lowers a syntax tree to an automaton, one fragment for each
//! node, in one pass over the tree.

use vstd::prelude::*;
use crate::ast::Ast;
use crate::model::{
    EdgeView, NfaView, lemma_grown_twice, lemma_slot_unique, lemma_span_push, spec_indices,
    spec_put, spec_span,
};
use crate::nfa::Nfa;
use crate::thompson::{
    lemma_compile_wf, lemma_fragment_ends, spec_closing, spec_compile, spec_consume,
    spec_epsilon, spec_fragment,
};

verus! {

/// The entry state and the exit state of the part of the automaton that
/// stands for a node.
struct Fragment {
    entry: u32,
    exit: u32,
}

/// The size of the table that holds one state, and two states.
proof fn lemma_span_small(a: nat, b: nat)
    ensures
        spec_span(seq![a]) == a + 1,
        spec_span(seq![a, b]) == if a < b {
            b + 1
        } else {
            a + 1
        },
{
    assert(Seq::<nat>::empty().push(a) =~= seq![a]);
    lemma_span_push(Seq::empty(), a);
    assert(seq![a].push(b) =~= seq![a, b]);
    lemma_span_push(seq![a], b);
}

/// Adds a state without edges to the automaton.
fn fresh(nfa: &mut Nfa) -> (res: u32)
    requires
        old(nfa)@.len() < u32::MAX,
    ensures
        final(nfa)@ == (NfaView { states: old(nfa)@.states.push(Seq::empty()), ..old(nfa)@ }),
        res == old(nfa)@.len(),
{
    nfa.add_state() as u32
}

/// Gives a state that has no edges its edges: on `symbol`, to the states in
/// `to`, which are all in the table.
fn wire(nfa: &mut Nfa, from: u32, symbol: Option<char>, to: Vec<u32>)
    requires
        from < old(nfa)@.len(),
        old(nfa)@.states[from as int].len() == 0,
        spec_span(spec_indices(to@)) <= old(nfa)@.len(),
    ensures
        final(nfa)@ == (NfaView {
            states: old(nfa)@.states.update(
                from as int,
                seq![EdgeView { symbol, targets: spec_indices(to@) }],
            ),
            ..old(nfa)@
        }),
{
    proof {
        let before = nfa@;
        let targets = spec_indices(to@);
        lemma_grown_twice(before, from as nat + 1, spec_span(targets));
        lemma_slot_unique(before.states[from as int], symbol, 0);
        assert(spec_put(before.states[from as int], symbol, targets) =~= seq![
            EdgeView { symbol, targets },
        ]);
    }
    nfa.state(from as usize, symbol, to);
}

/// Wires a state to one state by an epsilon edge.
fn wire_one(nfa: &mut Nfa, from: u32, to: u32)
    requires
        from < old(nfa)@.len(),
        to < old(nfa)@.len(),
        old(nfa)@.states[from as int].len() == 0,
    ensures
        final(nfa)@ == (NfaView {
            states: old(nfa)@.states.update(from as int, spec_epsilon(seq![to as nat])),
            ..old(nfa)@
        }),
{
    let targets = vec![to];
    proof {
        assert(spec_indices(targets@) =~= seq![to as nat]);
        lemma_span_small(to as nat, 0);
    }
    wire(nfa, from, None, targets);
}

/// Wires a state to two states by epsilon edges.
fn wire_two(nfa: &mut Nfa, from: u32, first: u32, second: u32)
    requires
        from < old(nfa)@.len(),
        first < old(nfa)@.len(),
        second < old(nfa)@.len(),
        old(nfa)@.states[from as int].len() == 0,
    ensures
        final(nfa)@ == (NfaView {
            states: old(nfa)@.states.update(
                from as int,
                spec_epsilon(seq![first as nat, second as nat]),
            ),
            ..old(nfa)@
        }),
{
    let targets = vec![first, second];
    proof {
        assert(spec_indices(targets@) =~= seq![first as nat, second as nat]);
        lemma_span_small(first as nat, second as nat);
    }
    wire(nfa, from, None, targets);
}

/// Adds the fragment of `ast` to the automaton, after the states it has.
fn build(ast: &Ast, nfa: &mut Nfa) -> (res: Fragment)
    requires
        old(nfa)@.len() + ast.spec_state_count() <= u32::MAX,
    ensures
        final(nfa)@ == (NfaView {
            states: old(nfa)@.states + spec_fragment(*ast, old(nfa)@.len()).states,
            ..old(nfa)@
        }),
        res.entry == spec_fragment(*ast, old(nfa)@.len()).entry,
        res.exit == spec_fragment(*ast, old(nfa)@.len()).exit,
    decreases ast,
{
    let ghost before = nfa@;
    let ghost base = nfa@.len();
    proof {
        lemma_fragment_ends(*ast, base);
    }
    match ast {
        Ast::Empty => {
            let entry = fresh(nfa);
            let exit = fresh(nfa);
            wire_one(nfa, entry, exit);
            assert(nfa@.states =~= before.states + spec_closing(seq![base + 1]));
            Fragment { entry, exit }
        },
        Ast::Literal(c) => {
            let entry = fresh(nfa);
            let exit = fresh(nfa);
            let targets = vec![exit];
            proof {
                assert(spec_indices(targets@) =~= seq![exit as nat]);
                lemma_span_small(exit as nat, 0);
            }
            wire(nfa, entry, Some(*c), targets);
            assert(nfa@.states =~= before.states + seq![
                spec_consume(*c, base + 1),
                Seq::empty(),
            ]);
            Fragment { entry, exit }
        },
        Ast::Concat(l, r) => {
            let ghost fa = spec_fragment(**l, base);
            let ghost fb = spec_fragment(**r, base + fa.states.len());
            proof {
                lemma_fragment_ends(**l, base);
                lemma_fragment_ends(**r, base + fa.states.len());
            }
            let a = build(l, nfa);
            let b = build(r, nfa);
            wire_one(nfa, a.exit, b.entry);
            assert(nfa@.states =~= before.states + (fa.states.update(
                fa.exit - base,
                spec_epsilon(seq![fb.entry]),
            ) + fb.states));
            Fragment { entry: a.entry, exit: b.exit }
        },
        Ast::Alt(l, r) => {
            let ghost fa = spec_fragment(**l, base);
            let ghost fb = spec_fragment(**r, base + fa.states.len());
            proof {
                lemma_fragment_ends(**l, base);
                lemma_fragment_ends(**r, base + fa.states.len());
            }
            let a = build(l, nfa);
            let b = build(r, nfa);
            let entry = fresh(nfa);
            let exit = fresh(nfa);
            wire_two(nfa, entry, a.entry, b.entry);
            wire_one(nfa, a.exit, exit);
            wire_one(nfa, b.exit, exit);
            assert(nfa@.states =~= before.states + (fa.states.update(
                fa.exit - base,
                spec_epsilon(seq![exit as nat]),
            ) + fb.states.update(
                fb.exit - base - fa.states.len(),
                spec_epsilon(seq![exit as nat]),
            ) + spec_closing(seq![fa.entry, fb.entry])));
            Fragment { entry, exit }
        },
        Ast::Star(x) => {
            let ghost fa = spec_fragment(**x, base);
            proof {
                lemma_fragment_ends(**x, base);
            }
            let a = build(x, nfa);
            let entry = fresh(nfa);
            let exit = fresh(nfa);
            wire_two(nfa, entry, a.entry, exit);
            wire_two(nfa, a.exit, a.entry, exit);
            assert(nfa@.states =~= before.states + (fa.states.update(
                fa.exit - base,
                spec_epsilon(seq![fa.entry, exit as nat]),
            ) + spec_closing(seq![fa.entry, exit as nat])));
            Fragment { entry, exit }
        },
        Ast::Plus(x) => {
            let ghost fa = spec_fragment(**x, base);
            proof {
                lemma_fragment_ends(**x, base);
            }
            let a = build(x, nfa);
            let entry = fresh(nfa);
            let exit = fresh(nfa);
            wire_one(nfa, entry, a.entry);
            wire_two(nfa, a.exit, a.entry, exit);
            assert(nfa@.states =~= before.states + (fa.states.update(
                fa.exit - base,
                spec_epsilon(seq![fa.entry, exit as nat]),
            ) + spec_closing(seq![fa.entry])));
            Fragment { entry, exit }
        },
        Ast::Optional(x) => {
            let ghost fa = spec_fragment(**x, base);
            proof {
                lemma_fragment_ends(**x, base);
            }
            let a = build(x, nfa);
            let entry = fresh(nfa);
            let exit = fresh(nfa);
            wire_two(nfa, entry, a.entry, exit);
            wire_one(nfa, a.exit, exit);
            assert(nfa@.states =~= before.states + (fa.states.update(
                fa.exit - base,
                spec_epsilon(seq![exit as nat]),
            ) + spec_closing(seq![fa.entry, exit as nat])));
            Fragment { entry, exit }
        },
        Ast::Group(x) => build(x, nfa),
    }
}

/// The sum of two counts, if it is a state index.
fn sum(a: Option<u32>, b: Option<u32>) -> (res: Option<u32>)
    ensures
        res == match (a, b) {
            (Some(x), Some(y)) => if x + y <= u32::MAX {
                Some((x + y) as u32)
            } else {
                None
            },
            _ => None,
        },
{
    match (a, b) {
        (Some(x), Some(y)) => if x <= u32::MAX - y {
            Some(x + y)
        } else {
            None
        },
        _ => None,
    }
}

/// The number of states of the automaton of `ast`, if state indices can
/// count them.
pub fn state_count(ast: &Ast) -> (res: Option<u32>)
    ensures
        res == if ast.spec_state_count() <= u32::MAX {
            Some(ast.spec_state_count() as u32)
        } else {
            None
        },
    decreases ast,
{
    match ast {
        Ast::Empty | Ast::Literal(_) => Some(2),
        Ast::Concat(l, r) => sum(state_count(l), state_count(r)),
        Ast::Alt(l, r) => sum(sum(state_count(l), state_count(r)), Some(2)),
        Ast::Star(x) | Ast::Plus(x) | Ast::Optional(x) => sum(state_count(x), Some(2)),
        Ast::Group(x) => state_count(x),
    }
}

/// The automaton of a tree, by Thompson's construction. It starts in the
/// entry of the root's fragment; the exit of that fragment is its one final
/// state.
pub fn compile(ast: &Ast) -> (res: Nfa)
    requires
        ast.spec_state_count() <= u32::MAX,
    ensures
        res@ == spec_compile(*ast),
        res@.wf(),
        res@.len() == ast.spec_state_count(),
{
    let mut nfa = Nfa::new();
    let root = build(ast, &mut nfa);
    let ghost built = nfa@;
    proof {
        lemma_fragment_ends(*ast, 0);
        lemma_compile_wf(*ast);
    }
    nfa.start(root.entry);
    assert(nfa@.states =~= built.states);
    let finals = vec![root.exit];
    proof {
        assert(spec_indices(finals@) =~= seq![root.exit as nat]);
        lemma_span_small(root.exit as nat, 0);
    }
    nfa.finals(finals);
    assert(nfa@.states =~= spec_compile(*ast).states);
    nfa
}

/// The automaton of a tree, or `None` for a tree with more states than
/// state indices can count.
pub fn try_compile(ast: &Ast) -> (res: Option<Nfa>)
    ensures
        match res {
            Some(nfa) => ast.spec_state_count() <= u32::MAX && nfa@ == spec_compile(*ast)
                && nfa@.wf(),
            None => ast.spec_state_count() > u32::MAX,
        },
{
    match state_count(ast) {
        Some(_) => Some(compile(ast)),
        None => None,
    }
}

} // verus!
