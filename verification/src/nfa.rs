//! The automaton: a table of states, each with its outgoing edges, a start
//! state and the final states. It knows nothing of patterns.

use vstd::prelude::*;
use vstd::string::StringExecFns;
use crate::dot::{
    EPSILON, spec_edge_line, spec_export, spec_final_line, spec_final_lines, spec_start_lines,
    spec_state_lines, spec_table_lines,
};
use crate::model::{
    EdgeView, NfaView, lemma_grown_twice, lemma_slot_unique, lemma_span_push,
    lemma_with_finals_closed, lemma_with_start_wf, lemma_with_state_closed, spec_indices,
    spec_put, spec_span,
};
use crate::text::{display_vec, push_decimal};

verus! {

/// The edges that leave one state on one symbol.
struct Edge {
    symbol: Option<char>,
    targets: Vec<u32>,
}

impl Edge {
    spec fn view(self) -> EdgeView {
        EdgeView { symbol: self.symbol, targets: spec_indices(self.targets@) }
    }
}

spec fn spec_edges(edges: Seq<Edge>) -> Seq<EdgeView> {
    edges.map_values(|e: Edge| e.view())
}

spec fn spec_states(states: Seq<Vec<Edge>>) -> Seq<Seq<EdgeView>> {
    states.map_values(|edges: Vec<Edge>| spec_edges(edges@))
}

/// A nondeterministic finite automaton with epsilon edges.
pub struct Nfa {
    states: Vec<Vec<Edge>>,
    final_states: Vec<u32>,
    start_state: u32,
}

impl View for Nfa {
    type V = NfaView;

    closed spec fn view(&self) -> NfaView {
        NfaView {
            states: spec_states(self.states@),
            finals: spec_indices(self.final_states@),
            start: self.start_state as nat,
        }
    }
}

/// Appends the line of the edges `edge` of state `i` to `out`.
fn push_edge_line(out: &mut String, i: usize, edge: &Edge)
    ensures
        final(out)@ == old(out)@ + spec_edge_line(i as nat, edge.view()),
{
    out.push('\t');
    push_decimal(out, i as u64);
    out.append(" -> ");
    let list = display_vec(edge.targets.as_slice());
    out.append(list.as_str());
    out.append(" [label=\"");
    out.push(
        match edge.symbol {
            Some(c) => c,
            None => EPSILON,
        },
    );
    out.append("\"]\n");
    assert(out@ =~= old(out)@ + spec_edge_line(i as nat, edge.view()));
}

impl Nfa {
    /// An automaton without states. Its start state is 0, which is not yet
    /// in the table.
    pub fn new() -> (res: Self)
        ensures
            res@ == (NfaView { states: Seq::empty(), finals: Seq::empty(), start: 0 }),
            res@.closed(),
    {
        let res = Self { states: Vec::new(), final_states: Vec::new(), start_state: 0 };
        assert(res@.states =~= Seq::empty());
        assert(res@.finals =~= Seq::empty());
        res
    }

    /// Adds a state without edges at the end of the table and returns its
    /// index.
    pub fn add_state(&mut self) -> (res: usize)
        ensures
            final(self)@ == (NfaView {
                states: old(self)@.states.push(Seq::empty()),
                ..old(self)@
            }),
            res == old(self)@.len(),
            old(self)@.closed() ==> final(self)@.closed(),
            old(self)@.wf() ==> final(self)@.wf(),
    {
        let ghost before = self.states@;
        let res = self.states.len();
        self.states.push(Vec::new());
        proof {
            assert(spec_edges(Seq::<Edge>::empty()) =~= Seq::<EdgeView>::empty());
            assert(self.states@ =~= before.push(self.states@.last()));
            assert(spec_states(self.states@) =~= spec_states(before).push(Seq::empty()));
        }
        res
    }

    /// Adds states without edges until `index` is in the table.
    fn cover(&mut self, index: usize)
        ensures
            final(self)@ == old(self)@.grown(index as nat + 1),
            final(self).states.len() > index,
    {
        while self.states.len() <= index
            invariant
                self@ == old(self)@.grown(self.states.len() as nat),
                old(self).states.len() <= self.states.len(),
                self.states.len() == old(self).states.len() || self.states.len() <= index + 1,
            decreases index + 1 - self.states.len(),
        {
            let ghost before = self.states@;
            self.states.push(Vec::new());
            proof {
                assert(spec_edges(Seq::<Edge>::empty()) =~= Seq::<EdgeView>::empty());
                assert(self.states@ =~= before.push(self.states@.last()));
                assert(spec_states(self.states@) =~= spec_states(before).push(Seq::empty()));
                assert(self@.states =~= old(self)@.grown(self.states.len() as nat).states);
            }
        }
    }

    /// The largest of `s` and the indices in `to`.
    fn largest(s: usize, to: &Vec<u32>) -> (res: usize)
        ensures
            res as nat + 1 == if s as nat + 1 < spec_span(spec_indices(to@)) {
                spec_span(spec_indices(to@))
            } else {
                s as nat + 1
            },
    {
        let mut res: usize = s;
        let mut k: usize = 0;
        assert(spec_indices(to@).take(0) =~= Seq::empty());
        while k < to.len()
            invariant
                k <= to.len(),
                res as nat + 1 == if s as nat + 1 < spec_span(spec_indices(to@).take(k as int)) {
                    spec_span(spec_indices(to@).take(k as int))
                } else {
                    s as nat + 1
                },
            decreases to.len() - k,
        {
            proof {
                let all = spec_indices(to@);
                assert(all.take(k as int + 1) =~= all.take(k as int).push(to[k as int] as nat));
                lemma_span_push(all.take(k as int), to[k as int] as nat);
            }
            if res < to[k] as usize {
                res = to[k] as usize;
            }
            k = k + 1;
        }
        assert(spec_indices(to@).take(to.len() as int) =~= spec_indices(to@));
        res
    }

    /// Sets the edges that leave state `s` on the symbol `i` (`None` is
    /// epsilon): they lead to the states in `to`. The entries of `s` for
    /// other symbols stay. States that are not yet in the table are added.
    pub fn state(&mut self, s: usize, i: Option<char>, to: Vec<u32>)
        ensures
            final(self)@ == old(self)@.with_state(s as nat, i, spec_indices(to@)),
            old(self)@.closed() ==> final(self)@.closed(),
            old(self)@.wf() ==> final(self)@.wf(),
    {
        let ghost targets = spec_indices(to@);
        proof {
            if old(self)@.closed() {
                lemma_with_state_closed(old(self)@, s as nat, i, targets);
            }
        }
        let top = Self::largest(s, &to);
        self.cover(top);
        proof {
            lemma_grown_twice(old(self)@, s as nat + 1, spec_span(targets));
        }
        let ghost grown = self@;
        let mut k: usize = 0;
        while k < self.states[s].len() && self.states[s][k].symbol != i
            invariant
                self@ == grown,
                s < self.states.len(),
                k <= self.states[s as int].len(),
                forall|j: int| 0 <= j < k ==> (#[trigger] grown.states[s as int][j]).symbol != i,
            decreases self.states[s as int].len() - k,
        {
            k = k + 1;
        }
        proof {
            lemma_slot_unique(grown.states[s as int], i, k as int);
        }
        if k < self.states[s].len() {
            self.states[s][k].targets = to;
        } else {
            self.states[s].push(Edge { symbol: i, targets: to });
        }
        assert(self@.states[s as int] =~= spec_put(grown.states[s as int], i, targets));
        assert(self@.states =~= grown.states.update(
            s as int,
            spec_put(grown.states[s as int], i, targets),
        ));
    }

    /// Sets the final states. States that are not yet in the table are added.
    pub fn finals(&mut self, s: Vec<u32>)
        ensures
            final(self)@ == old(self)@.with_finals(spec_indices(s@)),
            old(self)@.closed() ==> final(self)@.closed(),
            old(self)@.wf() ==> final(self)@.wf(),
    {
        proof {
            if old(self)@.closed() {
                lemma_with_finals_closed(old(self)@, spec_indices(s@));
            }
        }
        if s.len() > 0 {
            let top = Self::largest(0, &s);
            self.cover(top);
            proof {
                lemma_grown_twice(old(self)@, 1, spec_span(spec_indices(s@)));
            }
        }
        self.final_states = s;
    }

    /// The number of states.
    pub fn state_count(&self) -> (res: usize)
        ensures
            res == self@.len(),
    {
        self.states.len()
    }

    /// The start state.
    pub fn start_state(&self) -> (res: u32)
        ensures
            res == self@.start,
    {
        self.start_state
    }

    /// The final states.
    pub fn final_states(&self) -> (res: &Vec<u32>)
        ensures
            spec_indices(res@) == self@.finals,
    {
        &self.final_states
    }

    /// The targets of the edges that leave `state` on `symbol` (`None` is
    /// epsilon); `None` if the state has no entry for the symbol or is not
    /// in the table.
    pub fn targets(&self, state: usize, symbol: Option<char>) -> (res: Option<&Vec<u32>>)
        ensures
            self@.entry(state as int, symbol) == match res {
                Some(targets) => Some(spec_indices(targets@)),
                None => None,
            },
    {
        if state >= self.states.len() {
            return None;
        }
        let ghost edges = self@.states[state as int];
        let mut k: usize = 0;
        while k < self.states[state].len() && self.states[state][k].symbol != symbol
            invariant
                state < self.states.len(),
                edges == self@.states[state as int],
                k <= self.states[state as int].len(),
                forall|j: int| 0 <= j < k ==> (#[trigger] edges[j]).symbol != symbol,
            decreases self.states[state as int].len() - k,
        {
            k = k + 1;
        }
        proof {
            lemma_slot_unique(edges, symbol, k as int);
        }
        if k < self.states[state].len() {
            Some(&self.states[state][k].targets)
        } else {
            None
        }
    }

    /// The automaton as the text of a directed graph.
    pub fn not_export(&self) -> (res: String)
        ensures
            res@ == spec_export(self@),
    {
        let mut not = String::new();
        not.append("digraph {\n\trankdir=\"LR\"\n");
        let ghost head = not@;
        let ghost states = self@.states;
        let mut i: usize = 0;
        assert(states.take(0) =~= Seq::empty());
        while i < self.states.len()
            invariant
                i <= self.states.len(),
                states == self@.states,
                not@ == head + spec_table_lines(states.take(i as int)),
            decreases self.states.len() - i,
        {
            let ghost before = not@;
            let ghost edges = states[i as int];
            let mut k: usize = 0;
            assert(edges.take(0) =~= Seq::empty());
            while k < self.states[i].len()
                invariant
                    i < self.states.len(),
                    k <= self.states[i as int].len(),
                    states == self@.states,
                    edges == states[i as int],
                    not@ == before + spec_state_lines(i as nat, edges.take(k as int)),
                decreases self.states[i as int].len() - k,
            {
                push_edge_line(&mut not, i, &self.states[i][k]);
                proof {
                    let next = edges.take(k as int + 1);
                    assert(next.drop_last() =~= edges.take(k as int));
                    assert(next.last() == self.states[i as int][k as int].view());
                    assert(not@ =~= before + spec_state_lines(i as nat, next));
                }
                k = k + 1;
            }
            proof {
                assert(edges.take(k as int) =~= edges);
                let next = states.take(i as int + 1);
                assert(next.drop_last() =~= states.take(i as int));
                assert(next.last() == edges);
                assert(not@ =~= head + spec_table_lines(next));
            }
            i = i + 1;
        }
        assert(states.take(i as int) =~= states);
        let ghost body = not@;
        let ghost finals = self@.finals;
        let mut f: usize = 0;
        assert(finals.take(0) =~= Seq::empty());
        while f < self.final_states.len()
            invariant
                f <= self.final_states.len(),
                finals == self@.finals,
                not@ == body + spec_final_lines(finals.take(f as int)),
            decreases self.final_states.len() - f,
        {
            let ghost before = not@;
            not.append("\n\t");
            push_decimal(&mut not, self.final_states[f] as u64);
            not.append(" [shape=\"doublecircle\"]");
            proof {
                let next = finals.take(f as int + 1);
                assert(next.drop_last() =~= finals.take(f as int));
                assert(next.last() == self.final_states[f as int] as nat);
                assert(not@ =~= before + spec_final_line(next.last()));
                assert(not@ =~= body + spec_final_lines(next));
            }
            f = f + 1;
        }
        assert(finals.take(f as int) =~= finals);
        let ghost marked = not@;
        not.append("\n\t_ -> ");
        push_decimal(&mut not, self.start_state as u64);
        not.append("\n\t_ [style=\"invis\", width=0]\n");
        assert(not@ =~= marked + spec_start_lines(self@.start));
        not.append("\n}");
        assert(not@ =~= spec_export(self@));
        not
    }

    /// Sets the start state. If it is not yet in the table, it is added,
    /// with the states before it.
    pub fn start(&mut self, s: u32)
        ensures
            final(self)@ == old(self)@.with_start(s as nat),
            old(self)@.closed() ==> final(self)@.wf(),
    {
        proof {
            if old(self)@.closed() {
                lemma_with_start_wf(old(self)@, s as nat);
            }
        }
        self.cover(s as usize);
        self.start_state = s;
    }
}

} // verus!
