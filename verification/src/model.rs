//! The automaton as a mathematical value: what the contracts of the
//! executable automaton speak of.

use vstd::prelude::*;

verus! {

/// The edges that leave one state on one symbol.
pub struct EdgeView {
    /// The character that the edges consume; `None` for epsilon edges, which
    /// consume nothing.
    pub symbol: Option<char>,
    /// The states that the edges lead to, in the order they were given.
    pub targets: Seq<nat>,
}

/// An automaton as a mathematical value. State `i` is `states[i]`: its
/// entries, one for each symbol on which an edge leaves it.
pub struct NfaView {
    pub states: Seq<Seq<EdgeView>>,
    pub finals: Seq<nat>,
    pub start: nat,
}

/// The size of the smallest table that holds every state in `indices`.
pub open spec fn spec_span(indices: Seq<nat>) -> nat
    decreases indices.len(),
{
    if indices.len() == 0 {
        0
    } else {
        let rest = spec_span(indices.drop_last());
        if indices.last() < rest {
            rest
        } else {
            indices.last() + 1
        }
    }
}

/// `k` is where the entry for `symbol` stands in `edges`: the first entry
/// with that symbol, or the end of `edges` if there is none.
pub open spec fn spec_is_slot(edges: Seq<EdgeView>, symbol: Option<char>, k: int) -> bool {
    &&& 0 <= k <= edges.len()
    &&& forall|j: int| 0 <= j < k ==> (#[trigger] edges[j]).symbol != symbol
    &&& k < edges.len() ==> edges[k].symbol == symbol
}

/// Where the entry for `symbol` stands in `edges` (see `spec_is_slot`).
pub open spec fn spec_slot(edges: Seq<EdgeView>, symbol: Option<char>) -> int {
    choose|k: int| spec_is_slot(edges, symbol, k)
}

/// `edges` with the entry for `symbol` set to `targets`: in place if there
/// is one, at the end if not.
pub open spec fn spec_put(edges: Seq<EdgeView>, symbol: Option<char>, targets: Seq<nat>) -> Seq<
    EdgeView,
> {
    let k = spec_slot(edges, symbol);
    if k < edges.len() {
        edges.update(k, EdgeView { symbol, targets })
    } else {
        edges.push(EdgeView { symbol, targets })
    }
}

/// There is exactly one slot for a symbol.
pub proof fn lemma_slot_unique(edges: Seq<EdgeView>, symbol: Option<char>, k: int)
    requires
        spec_is_slot(edges, symbol, k),
    ensures
        spec_slot(edges, symbol) == k,
{
    let c = spec_slot(edges, symbol);
    assert(spec_is_slot(edges, symbol, c));
    if c < k {
        assert(edges[c].symbol != symbol);
    } else if k < c {
        assert(edges[k].symbol != symbol);
    }
}

impl NfaView {
    /// The number of states.
    pub open spec fn len(self) -> nat {
        self.states.len()
    }

    /// The automaton with states without edges added at the end of the table
    /// until it has at least `n` states.
    pub open spec fn grown(self, n: nat) -> NfaView {
        if n <= self.states.len() {
            self
        } else {
            NfaView {
                states: self.states + Seq::new(
                    (n - self.states.len()) as nat,
                    |i: int| Seq::<EdgeView>::empty(),
                ),
                ..self
            }
        }
    }

    /// The automaton in which the edges of state `s` on `symbol` lead to
    /// `targets`, and to no other state. The table grows to hold `s` and
    /// the targets.
    pub open spec fn with_state(self, s: nat, symbol: Option<char>, targets: Seq<nat>) -> NfaView {
        let g = self.grown(s + 1).grown(spec_span(targets));
        NfaView { states: g.states.update(s as int, spec_put(g.states[s as int], symbol, targets)), ..g }
    }

    /// The automaton with `finals` as its final states. The table grows to
    /// hold them.
    pub open spec fn with_finals(self, finals: Seq<nat>) -> NfaView {
        NfaView { finals, ..self.grown(spec_span(finals)) }
    }

    /// The automaton with `s` as its start state. The table grows to hold it.
    pub open spec fn with_start(self, s: nat) -> NfaView {
        NfaView { start: s, ..self.grown(s + 1) }
    }

    /// The targets of the entry of `state` for `symbol`; `None` if the state
    /// has no such entry or is not in the table.
    pub open spec fn entry(self, state: int, symbol: Option<char>) -> Option<Seq<nat>> {
        if 0 <= state < self.states.len() && spec_slot(self.states[state], symbol)
            < self.states[state].len() {
            Some(self.states[state][spec_slot(self.states[state], symbol)].targets)
        } else {
            None
        }
    }

    /// Every edge and every final state leads to a state of the table, and
    /// no state has two entries for one symbol.
    pub open spec fn closed(self) -> bool {
        &&& forall|i: int| 0 <= i < self.finals.len() ==> #[trigger] self.finals[i] < self.states.len()
        &&& forall|i: int, j: int, k: int|
            0 <= i < self.states.len() && 0 <= j < self.states[i].len() && 0 <= k
                < self.states[i][j].targets.len() ==> #[trigger] self.states[i][j].targets[k]
                < self.states.len()
        &&& forall|i: int, j: int, k: int|
            0 <= i < self.states.len() && 0 <= j < k < self.states[i].len()
                ==> #[trigger] self.states[i][j].symbol != #[trigger] self.states[i][k].symbol
    }

    /// The automaton is closed and its start state is in the table.
    pub open spec fn wf(self) -> bool {
        self.closed() && self.start < self.states.len()
    }
}

/// A table holds every state of `indices` exactly if it is as large as
/// their span.
pub proof fn lemma_span_bounds(indices: Seq<nat>, n: nat)
    ensures
        spec_span(indices) <= n <==> forall|i: int|
            0 <= i < indices.len() ==> #[trigger] indices[i] < n,
    decreases indices.len(),
{
    if indices.len() > 0 {
        let front = indices.drop_last();
        lemma_span_bounds(front, n);
        if spec_span(indices) <= n {
            assert forall|i: int| 0 <= i < indices.len() implies #[trigger] indices[i] < n by {
                if i < front.len() {
                    assert(front[i] == indices[i]);
                }
            }
        } else if indices.last() < n {
            let i = choose|i: int| 0 <= i < front.len() && !(#[trigger] front[i] < n);
            assert(indices[i] == front[i]);
        }
    }
}

/// Setting the edges of a state keeps a closed automaton closed.
pub proof fn lemma_with_state_closed(
    nfa: NfaView,
    s: nat,
    symbol: Option<char>,
    targets: Seq<nat>,
)
    requires
        nfa.closed(),
    ensures
        nfa.with_state(s, symbol, targets).closed(),
{
    let g = nfa.grown(s + 1).grown(spec_span(targets));
    let edges = g.states[s as int];
    let k = spec_slot(edges, symbol);
    let put = spec_put(edges, symbol, targets);
    let after = nfa.with_state(s, symbol, targets);
    lemma_slot_exists(edges, symbol);
    lemma_span_bounds(targets, after.states.len() as nat);
    assert(after.states[s as int] == put);
    assert forall|i: int, j: int, m: int|
        0 <= i < after.states.len() && 0 <= j < after.states[i].len() && 0 <= m
            < after.states[i][j].targets.len() implies #[trigger] after.states[i][j].targets[m]
        < after.states.len() by {
        assert(nfa.states.len() <= after.states.len());
        if i != s {
            assert(after.states[i] == g.states[i]);
            if i < nfa.states.len() {
                assert(after.states[i][j] == nfa.states[i][j]);
                assert(nfa.states[i][j].targets[m] < nfa.states.len());
            } else {
                assert(g.states[i].len() == 0);
            }
        } else if j == k {
            assert(after.states[i][j].targets == targets);
            assert(targets[m] < after.states.len());
        } else {
            assert(put[j] == edges[j]);
            if s < nfa.states.len() {
                assert(edges[j] == nfa.states[i][j]);
                assert(nfa.states[i][j].targets[m] < nfa.states.len());
            } else {
                assert(edges.len() == 0);
            }
        }
    }
    assert forall|i: int, j: int, m: int|
        0 <= i < after.states.len() && 0 <= j < m < after.states[i].len() implies #[trigger] after.states[i][j].symbol
        != #[trigger] after.states[i][m].symbol by {
        if i != s {
            if i < nfa.states.len() {
                assert(after.states[i][j] == nfa.states[i][j]);
                assert(after.states[i][m] == nfa.states[i][m]);
            }
        } else if s < nfa.states.len() {
            if j != k && m != k {
                assert(nfa.states[i][j].symbol != nfa.states[i][m].symbol);
            } else if j == k && m < edges.len() {
                if k < edges.len() {
                    assert(nfa.states[i][j].symbol != nfa.states[i][m].symbol);
                }
            } else if m == k && k < edges.len() {
                assert(nfa.states[i][j].symbol != nfa.states[i][m].symbol);
            }
        }
    }
    assert forall|i: int| 0 <= i < after.finals.len() implies #[trigger] after.finals[i]
        < after.states.len() by {
        assert(after.finals[i] == nfa.finals[i]);
    }
}

/// Every table of entries has a slot for every symbol.
pub proof fn lemma_slot_exists(edges: Seq<EdgeView>, symbol: Option<char>)
    ensures
        spec_is_slot(edges, symbol, spec_slot(edges, symbol)),
    decreases edges.len(),
{
    if edges.len() == 0 {
        assert(spec_is_slot(edges, symbol, 0));
    } else {
        let front = edges.drop_last();
        lemma_slot_exists(front, symbol);
        let k = spec_slot(front, symbol);
        if k < front.len() {
            assert(spec_is_slot(edges, symbol, k)) by {
                assert forall|j: int| 0 <= j < k implies (#[trigger] edges[j]).symbol != symbol by {
                    assert(front[j] == edges[j]);
                }
                assert(front[k] == edges[k]);
            }
        } else if edges.last().symbol == symbol {
            assert(spec_is_slot(edges, symbol, edges.len() - 1)) by {
                assert forall|j: int| 0 <= j < edges.len() - 1 implies (#[trigger] edges[j]).symbol
                    != symbol by {
                    assert(front[j] == edges[j]);
                }
            }
        } else {
            assert(spec_is_slot(edges, symbol, edges.len() as int)) by {
                assert forall|j: int| 0 <= j < edges.len() implies (#[trigger] edges[j]).symbol
                    != symbol by {
                    if j < front.len() {
                        assert(front[j] == edges[j]);
                    }
                }
            }
        }
    }
}

/// Setting the final states keeps a closed automaton closed.
pub proof fn lemma_with_finals_closed(nfa: NfaView, finals: Seq<nat>)
    requires
        nfa.closed(),
    ensures
        nfa.with_finals(finals).closed(),
{
    let after = nfa.with_finals(finals);
    lemma_span_bounds(finals, after.states.len() as nat);
    assert forall|i: int, j: int, m: int|
        0 <= i < after.states.len() && 0 <= j < after.states[i].len() && 0 <= m
            < after.states[i][j].targets.len() implies #[trigger] after.states[i][j].targets[m]
        < after.states.len() by {
        assert(after.states[i][j] == nfa.states[i][j]);
    }
    assert forall|i: int, j: int, m: int|
        0 <= i < after.states.len() && 0 <= j < m < after.states[i].len() implies #[trigger] after.states[i][j].symbol
        != #[trigger] after.states[i][m].symbol by {
        assert(after.states[i][j] == nfa.states[i][j]);
        assert(after.states[i][m] == nfa.states[i][m]);
    }
}

/// Setting the start state makes a closed automaton well formed.
pub proof fn lemma_with_start_wf(nfa: NfaView, s: nat)
    requires
        nfa.closed(),
    ensures
        nfa.with_start(s).wf(),
{
    let after = nfa.with_start(s);
    assert forall|i: int, j: int, m: int|
        0 <= i < after.states.len() && 0 <= j < after.states[i].len() && 0 <= m
            < after.states[i][j].targets.len() implies #[trigger] after.states[i][j].targets[m]
        < after.states.len() by {
        assert(after.states[i][j] == nfa.states[i][j]);
    }
    assert forall|i: int, j: int, m: int|
        0 <= i < after.states.len() && 0 <= j < m < after.states[i].len() implies #[trigger] after.states[i][j].symbol
        != #[trigger] after.states[i][m].symbol by {
        assert(after.states[i][j] == nfa.states[i][j]);
        assert(after.states[i][m] == nfa.states[i][m]);
    }
    assert forall|i: int| 0 <= i < after.finals.len() implies #[trigger] after.finals[i]
        < after.states.len() by {
        assert(after.finals[i] == nfa.finals[i]);
    }
}

/// State indices as mathematical values.
pub open spec fn spec_indices(v: Seq<u32>) -> Seq<nat> {
    v.map_values(|t: u32| t as nat)
}

/// What `spec_span` is of a sequence with one more index.
pub proof fn lemma_span_push(indices: Seq<nat>, index: nat)
    ensures
        spec_span(indices.push(index)) == if index < spec_span(indices) {
            spec_span(indices)
        } else {
            index + 1
        },
{
    assert(indices.push(index).drop_last() =~= indices);
}

/// Growing a table twice is growing it once, to the larger size.
pub proof fn lemma_grown_twice(nfa: NfaView, n: nat, m: nat)
    ensures
        nfa.grown(n).grown(m) == nfa.grown(if n < m {
            m
        } else {
            n
        }),
{
    assert(nfa.grown(n).grown(m).states =~= nfa.grown(if n < m {
        m
    } else {
        n
    }).states);
}

} // verus!
