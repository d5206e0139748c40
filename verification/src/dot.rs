//! The text of an automaton as a directed graph, for a graph-layout tool.
//!
//! The graph is drawn from left to right. A state's edges on one symbol are
//! one line, from the state to the list of their targets, labelled with the
//! symbol. Final states have a double outline. The start state is marked by
//! an edge from an invisible node `_` of no size.

use vstd::prelude::*;
use crate::model::{EdgeView, NfaView};
use crate::text::{spec_decimal, spec_display_vec};

verus! {

/// The glyph that labels an epsilon edge.
pub const EPSILON: char = '\u{025B}';

/// The label of an edge: the character it consumes, or the epsilon glyph.
pub open spec fn spec_label(symbol: Option<char>) -> char {
    match symbol {
        Some(c) => c,
        None => EPSILON,
    }
}

/// The line of the edges that leave state `i` on one symbol.
pub open spec fn spec_edge_line(i: nat, edge: EdgeView) -> Seq<char> {
    seq!['\t'] + spec_decimal(i) + " -> "@ + spec_display_vec(edge.targets) + " [label=\""@
        + seq![spec_label(edge.symbol)] + "\"]\n"@
}

/// The lines of the edges that leave state `i`, in the order of its entries.
pub open spec fn spec_state_lines(i: nat, edges: Seq<EdgeView>) -> Seq<char>
    decreases edges.len(),
{
    if edges.len() == 0 {
        Seq::empty()
    } else {
        spec_state_lines(i, edges.drop_last()) + spec_edge_line(i, edges.last())
    }
}

/// The lines of all edges, state by state.
pub open spec fn spec_table_lines(states: Seq<Seq<EdgeView>>) -> Seq<char>
    decreases states.len(),
{
    if states.len() == 0 {
        Seq::empty()
    } else {
        spec_table_lines(states.drop_last()) + spec_state_lines(
            (states.len() - 1) as nat,
            states.last(),
        )
    }
}

/// The line that gives a final state its double outline.
pub open spec fn spec_final_line(state: nat) -> Seq<char> {
    "\n\t"@ + spec_decimal(state) + " [shape=\"doublecircle\"]"@
}

/// The lines of the final states, in their order.
pub open spec fn spec_final_lines(finals: Seq<nat>) -> Seq<char>
    decreases finals.len(),
{
    if finals.len() == 0 {
        Seq::empty()
    } else {
        spec_final_lines(finals.drop_last()) + spec_final_line(finals.last())
    }
}

/// The lines that mark the start state: an edge without label from the
/// invisible node `_`.
pub open spec fn spec_start_lines(start: nat) -> Seq<char> {
    "\n\t_ -> "@ + spec_decimal(start) + "\n\t_ [style=\"invis\", width=0]\n"@
}

/// The whole text of the graph.
pub open spec fn spec_export(nfa: NfaView) -> Seq<char> {
    "digraph {\n\trankdir=\"LR\"\n"@ + spec_table_lines(nfa.states) + spec_final_lines(nfa.finals)
        + spec_start_lines(nfa.start) + "\n}"@
}

} // verus!
