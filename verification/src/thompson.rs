//! Thompson's construction as a mathematical function: the fragment of the
//! automaton that stands for a node.
//!
//! A fragment is a run of consecutive states with one entry and one exit.
//! The exit state of a fragment has no edges of its own: the node above
//! wires it.

use vstd::prelude::*;
use crate::ast::Ast;
use crate::model::{EdgeView, NfaView};

verus! {

/// The states that stand for a node, and the two of them through which the
/// rest of the automaton reaches and leaves them.
pub struct FragmentView {
    /// The states of the fragment; the first of them is state `base` of the
    /// automaton.
    pub states: Seq<Seq<EdgeView>>,
    pub entry: nat,
    pub exit: nat,
}

/// The entries of a state whose only edges are epsilon edges to `targets`.
pub open spec fn spec_epsilon(targets: Seq<nat>) -> Seq<EdgeView> {
    seq![EdgeView { symbol: None, targets }]
}

/// The entries of a state whose only edge consumes `c` and leads to `target`.
pub open spec fn spec_consume(c: char, target: nat) -> Seq<EdgeView> {
    seq![EdgeView { symbol: Some(c), targets: seq![target] }]
}

/// The entry state and the exit state that close a fragment: the entry has
/// epsilon edges to `targets`, the exit has no edge.
pub open spec fn spec_closing(targets: Seq<nat>) -> Seq<Seq<EdgeView>> {
    seq![spec_epsilon(targets), Seq::empty()]
}

impl Ast {
    /// The number of states of the fragment of the node.
    pub open spec fn spec_state_count(self) -> nat
        decreases self,
    {
        match self {
            Ast::Empty | Ast::Literal(_) => 2,
            Ast::Concat(l, r) => l.spec_state_count() + r.spec_state_count(),
            Ast::Alt(l, r) => l.spec_state_count() + r.spec_state_count() + 2,
            Ast::Star(x) | Ast::Plus(x) | Ast::Optional(x) => x.spec_state_count() + 2,
            Ast::Group(x) => x.spec_state_count(),
        }
    }
}

/// The fragment of `ast` whose first state is state `base` of the automaton.
///
/// | node | fragment |
/// |---|---|
/// | `Empty` | entry and exit, joined by an epsilon edge |
/// | `Literal(c)` | entry and exit, joined by an edge on `c` |
/// | `Concat(a, b)` | `a`, then `b`; epsilon from the exit of `a` to the entry of `b` |
/// | `Alt(a, b)` | `a`, `b`, entry, exit; epsilon from the entry to both entries, and from both exits to the exit |
/// | `Star(a)` | `a`, entry, exit; epsilon from the entry to the entry of `a` and to the exit, and from the exit of `a` to its entry and to the exit |
/// | `Plus(a)` | as `Star(a)`, without the edge from the entry to the exit |
/// | `Optional(a)` | as `Star(a)`, without the edge from the exit of `a` to its entry |
/// | `Group(a)` | the fragment of `a` |
pub open spec fn spec_fragment(ast: Ast, base: nat) -> FragmentView
    decreases ast,
{
    match ast {
        Ast::Empty => FragmentView {
            states: spec_closing(seq![base + 1]),
            entry: base,
            exit: base + 1,
        },
        Ast::Literal(c) => FragmentView {
            states: seq![spec_consume(c, base + 1), Seq::empty()],
            entry: base,
            exit: base + 1,
        },
        Ast::Concat(l, r) => {
            let a = spec_fragment(*l, base);
            let b = spec_fragment(*r, base + a.states.len());
            FragmentView {
                states: a.states.update(a.exit - base, spec_epsilon(seq![b.entry])) + b.states,
                entry: a.entry,
                exit: b.exit,
            }
        },
        Ast::Alt(l, r) => {
            let a = spec_fragment(*l, base);
            let b = spec_fragment(*r, base + a.states.len());
            let entry = base + a.states.len() + b.states.len();
            let exit = entry + 1;
            FragmentView {
                states: a.states.update(a.exit - base, spec_epsilon(seq![exit])) + b.states.update(
                    b.exit - base - a.states.len(),
                    spec_epsilon(seq![exit]),
                ) + spec_closing(seq![a.entry, b.entry]),
                entry,
                exit,
            }
        },
        Ast::Star(x) => {
            let a = spec_fragment(*x, base);
            let entry = base + a.states.len();
            let exit = entry + 1;
            FragmentView {
                states: a.states.update(a.exit - base, spec_epsilon(seq![a.entry, exit]))
                    + spec_closing(seq![a.entry, exit]),
                entry,
                exit,
            }
        },
        Ast::Plus(x) => {
            let a = spec_fragment(*x, base);
            let entry = base + a.states.len();
            let exit = entry + 1;
            FragmentView {
                states: a.states.update(a.exit - base, spec_epsilon(seq![a.entry, exit]))
                    + spec_closing(seq![a.entry]),
                entry,
                exit,
            }
        },
        Ast::Optional(x) => {
            let a = spec_fragment(*x, base);
            let entry = base + a.states.len();
            let exit = entry + 1;
            FragmentView {
                states: a.states.update(a.exit - base, spec_epsilon(seq![exit])) + spec_closing(
                    seq![a.entry, exit],
                ),
                entry,
                exit,
            }
        },
        Ast::Group(x) => spec_fragment(*x, base),
    }
}

/// The automaton of a tree: the fragment of the root from state 0 on. It
/// starts in the entry of the fragment and its one final state is the exit.
pub open spec fn spec_compile(ast: Ast) -> NfaView {
    let root = spec_fragment(ast, 0);
    NfaView { states: root.states, finals: seq![root.exit], start: root.entry }
}

/// The states have at most one entry each, and every edge of them leads to
/// a state from `lo` up to, and without, `hi`.
pub open spec fn spec_within(states: Seq<Seq<EdgeView>>, lo: nat, hi: nat) -> bool {
    &&& forall|i: int| 0 <= i < states.len() ==> (#[trigger] states[i]).len() <= 1
    &&& forall|i: int, j: int, k: int|
        0 <= i < states.len() && 0 <= j < states[i].len() && 0 <= k < states[i][j].targets.len()
            ==> lo <= #[trigger] states[i][j].targets[k] < hi
}

/// Edges that stay within a range stay within a wider one.
proof fn lemma_within_wider(states: Seq<Seq<EdgeView>>, lo: nat, hi: nat, lower: nat, higher: nat)
    requires
        spec_within(states, lo, hi),
        lower <= lo,
        hi <= higher,
    ensures
        spec_within(states, lower, higher),
{
    assert forall|i: int, j: int, k: int|
        0 <= i < states.len() && 0 <= j < states[i].len() && 0 <= k
            < states[i][j].targets.len() implies lower <= #[trigger] states[i][j].targets[k]
        < higher by {
        assert(lo <= states[i][j].targets[k] < hi);
    }
}

/// Two runs of states within a range are one run within it.
proof fn lemma_within_both(a: Seq<Seq<EdgeView>>, b: Seq<Seq<EdgeView>>, lo: nat, hi: nat)
    requires
        spec_within(a, lo, hi),
        spec_within(b, lo, hi),
    ensures
        spec_within(a + b, lo, hi),
{
    let both = a + b;
    assert forall|i: int| 0 <= i < both.len() implies (#[trigger] both[i]).len() <= 1 by {
        if i < a.len() {
            assert(both[i] == a[i]);
        } else {
            assert(both[i] == b[i - a.len()]);
        }
    }
    assert forall|i: int, j: int, k: int|
        0 <= i < both.len() && 0 <= j < both[i].len() && 0 <= k
            < both[i][j].targets.len() implies lo <= #[trigger] both[i][j].targets[k] < hi by {
        if i < a.len() {
            assert(both[i] == a[i]);
            assert(lo <= a[i][j].targets[k] < hi);
        } else {
            assert(both[i] == b[i - a.len()]);
            assert(lo <= b[i - a.len()][j].targets[k] < hi);
        }
    }
}

/// A run of states stays within a range when one of them gets epsilon edges
/// into the range.
proof fn lemma_within_wired(
    states: Seq<Seq<EdgeView>>,
    at: int,
    targets: Seq<nat>,
    lo: nat,
    hi: nat,
)
    requires
        spec_within(states, lo, hi),
        0 <= at < states.len(),
        forall|k: int| 0 <= k < targets.len() ==> lo <= #[trigger] targets[k] < hi,
    ensures
        spec_within(states.update(at, spec_epsilon(targets)), lo, hi),
{
    let wired = states.update(at, spec_epsilon(targets));
    assert forall|i: int| 0 <= i < wired.len() implies (#[trigger] wired[i]).len() <= 1 by {
        if i != at {
            assert(wired[i] == states[i]);
        }
    }
    assert forall|i: int, j: int, k: int|
        0 <= i < wired.len() && 0 <= j < wired[i].len() && 0 <= k
            < wired[i][j].targets.len() implies lo <= #[trigger] wired[i][j].targets[k] < hi by {
        if i != at {
            assert(wired[i] == states[i]);
            assert(lo <= states[i][j].targets[k] < hi);
        } else {
            assert(wired[i][j].targets == targets);
        }
    }
}

/// The two states that close a fragment are within a range that holds the
/// targets of the entry.
proof fn lemma_within_closing(targets: Seq<nat>, lo: nat, hi: nat)
    requires
        forall|k: int| 0 <= k < targets.len() ==> lo <= #[trigger] targets[k] < hi,
    ensures
        spec_within(spec_closing(targets), lo, hi),
{
    let closing = spec_closing(targets);
    assert forall|i: int, j: int, k: int|
        0 <= i < closing.len() && 0 <= j < closing[i].len() && 0 <= k
            < closing[i][j].targets.len() implies lo <= #[trigger] closing[i][j].targets[k]
        < hi by {
        assert(closing[i][j].targets == targets);
    }
}

/// The size of a fragment, and where its entry and its exit are: it has the
/// states that `spec_state_count` counts, its entry and its exit are two of
/// them, and the exit has no edge.
pub proof fn lemma_fragment_ends(ast: Ast, base: nat)
    ensures
        spec_fragment(ast, base).states.len() == ast.spec_state_count(),
        ast.spec_state_count() >= 2,
        base <= spec_fragment(ast, base).entry < base + ast.spec_state_count(),
        base <= spec_fragment(ast, base).exit < base + ast.spec_state_count(),
        spec_fragment(ast, base).states[spec_fragment(ast, base).exit - base].len() == 0,
    decreases ast,
{
    match ast {
        Ast::Empty | Ast::Literal(_) => {},
        Ast::Concat(l, r) | Ast::Alt(l, r) => {
            lemma_fragment_ends(*l, base);
            lemma_fragment_ends(*r, base + l.spec_state_count());
        },
        Ast::Star(x) | Ast::Plus(x) | Ast::Optional(x) | Ast::Group(x) => {
            lemma_fragment_ends(*x, base);
        },
    }
}

/// A fragment is closed: its states have at most one entry each, and every
/// edge of it leads to a state of it.
pub proof fn lemma_fragment_closed(ast: Ast, base: nat)
    ensures
        spec_within(spec_fragment(ast, base).states, base, base + ast.spec_state_count()),
    decreases ast,
{
    let hi = base + ast.spec_state_count();
    lemma_fragment_ends(ast, base);
    match ast {
        Ast::Empty => {
            lemma_within_closing(seq![base + 1], base, hi);
        },
        Ast::Literal(c) => {
            let states = spec_fragment(ast, base).states;
            assert forall|i: int, j: int, k: int|
                0 <= i < states.len() && 0 <= j < states[i].len() && 0 <= k
                    < states[i][j].targets.len() implies base
                <= #[trigger] states[i][j].targets[k] < hi by {
                assert(states[i][j].targets == seq![base + 1]);
            }
        },
        Ast::Concat(l, r) => {
            let a = spec_fragment(*l, base);
            let mid = base + l.spec_state_count();
            let b = spec_fragment(*r, mid);
            lemma_fragment_ends(*l, base);
            lemma_fragment_ends(*r, mid);
            lemma_fragment_closed(*l, base);
            lemma_fragment_closed(*r, mid);
            lemma_within_wider(a.states, base, mid, base, hi);
            lemma_within_wider(b.states, mid, hi, base, hi);
            lemma_within_wired(a.states, a.exit - base, seq![b.entry], base, hi);
            lemma_within_both(
                a.states.update(a.exit - base, spec_epsilon(seq![b.entry])),
                b.states,
                base,
                hi,
            );
        },
        Ast::Alt(l, r) => {
            let a = spec_fragment(*l, base);
            let mid = base + l.spec_state_count();
            let b = spec_fragment(*r, mid);
            let exit = spec_fragment(ast, base).exit;
            lemma_fragment_ends(*l, base);
            lemma_fragment_ends(*r, mid);
            lemma_fragment_closed(*l, base);
            lemma_fragment_closed(*r, mid);
            lemma_within_wider(a.states, base, mid, base, hi);
            lemma_within_wider(b.states, mid, (hi - 2) as nat, base, hi);
            lemma_within_wired(a.states, a.exit - base, seq![exit], base, hi);
            lemma_within_wired(b.states, b.exit - mid, seq![exit], base, hi);
            lemma_within_closing(seq![a.entry, b.entry], base, hi);
            let left = a.states.update(a.exit - base, spec_epsilon(seq![exit]));
            let right = b.states.update(b.exit - mid, spec_epsilon(seq![exit]));
            lemma_within_both(left, right, base, hi);
            lemma_within_both(left + right, spec_closing(seq![a.entry, b.entry]), base, hi);
        },
        Ast::Star(x) | Ast::Plus(x) | Ast::Optional(x) => {
            let a = spec_fragment(*x, base);
            let whole = spec_fragment(ast, base);
            let exit = whole.exit;
            lemma_fragment_ends(*x, base);
            lemma_fragment_closed(*x, base);
            lemma_within_wider(a.states, base, (hi - 2) as nat, base, hi);
            let back = if ast is Optional {
                seq![exit]
            } else {
                seq![a.entry, exit]
            };
            let forth = if ast is Plus {
                seq![a.entry]
            } else {
                seq![a.entry, exit]
            };
            lemma_within_wired(a.states, a.exit - base, back, base, hi);
            lemma_within_closing(forth, base, hi);
            lemma_within_both(
                a.states.update(a.exit - base, spec_epsilon(back)),
                spec_closing(forth),
                base,
                hi,
            );
        },
        Ast::Group(x) => {
            lemma_fragment_closed(*x, base);
        },
    }
}

/// The automaton of a tree is well formed.
pub proof fn lemma_compile_wf(ast: Ast)
    ensures
        spec_compile(ast).wf(),
        spec_compile(ast).len() == ast.spec_state_count(),
{
    lemma_fragment_ends(ast, 0);
    lemma_fragment_closed(ast, 0);
    let nfa = spec_compile(ast);
    assert forall|i: int, j: int, k: int|
        0 <= i < nfa.states.len() && 0 <= j < k < nfa.states[i].len() implies #[trigger] nfa.states[i][j].symbol
        != #[trigger] nfa.states[i][k].symbol by {
        assert(nfa.states[i].len() <= 1);
    }
}

} // verus!
