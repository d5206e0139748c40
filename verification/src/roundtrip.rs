//! The round trip between a tree and its text: the text of a canonical tree
//! parses to that tree, and whatever parses, parses to a canonical tree
//! whose text is the pattern.

use vstd::prelude::*;
use crate::ast::{Ast, spec_is_meta, spec_is_quantifier, spec_parenthesized};
use crate::canonical::lemma_levels;
use crate::grammar::{
    Parsed, ParseError, absent, advances, found, lemma_grammar_advances, spec_alt_rest,
    spec_concat_rest, spec_parse, spec_parse_alt, spec_parse_atom, spec_parse_concat,
    spec_parse_repeat,
};

verus! {

/// The text `t` stands in `s` at `pos`.
pub open spec fn spec_stands_at(s: Seq<char>, pos: int, t: Seq<char>) -> bool {
    &&& 0 <= pos
    &&& pos + t.len() <= s.len()
    &&& s.subrange(pos, pos + t.len()) == t
}

/// No atom starts at `pos`: the text ends there, or has `|` or `)`.
pub open spec fn spec_atoms_end(s: Seq<char>, pos: int) -> bool {
    pos >= s.len() || s[pos] == '|' || s[pos] == ')'
}

/// A text that stands somewhere, cut in two.
pub proof fn lemma_stands_split(s: Seq<char>, pos: int, t: Seq<char>, u: Seq<char>)
    requires
        spec_stands_at(s, pos, t + u),
    ensures
        spec_stands_at(s, pos, t),
        spec_stands_at(s, pos + t.len(), u),
{
    let whole = s.subrange(pos, pos + (t + u).len());
    assert(s.subrange(pos, pos + t.len()) =~= whole.subrange(0, t.len() as int));
    assert(whole.subrange(0, t.len() as int) =~= t);
    assert(s.subrange(pos + t.len(), pos + t.len() + u.len()) =~= whole.subrange(
        t.len() as int,
        (t + u).len() as int,
    ));
    assert(whole.subrange(t.len() as int, (t + u).len() as int) =~= u);
}

/// The text of a canonical tree that is not the empty one starts with a
/// literal or with `(`.
pub proof fn lemma_render_starts_an_atom(ast: Ast)
    requires
        ast.spec_is_alt(),
    ensures
        ast.spec_render().len() >= 1,
        !spec_is_meta(ast.spec_render()[0]) || ast.spec_render()[0] == '(',
    decreases ast,
{
    reveal_with_fuel(Ast::spec_is_atom, 4);
    reveal_with_fuel(Ast::spec_is_repeat, 4);
    reveal_with_fuel(Ast::spec_is_concat, 4);
    reveal_with_fuel(Ast::spec_is_alt, 4);
    lemma_levels(ast);
    match ast {
        Ast::Concat(l, r) => {
            lemma_levels(*l);
            lemma_render_starts_an_atom(*l);
        },
        Ast::Alt(l, r) => {
            lemma_render_starts_an_atom(*l);
        },
        Ast::Star(x) | Ast::Plus(x) | Ast::Optional(x) => {
            lemma_levels(*x);
            lemma_render_starts_an_atom(*x);
        },
        _ => {},
    }
}

/// `atom` reads the text of an atom back, whatever follows it.
pub proof fn lemma_atom_reads_back(ast: Ast, s: Seq<char>, pos: int)
    requires
        ast.spec_is_atom(),
        spec_stands_at(s, pos, ast.spec_render()),
    ensures
        spec_parse_atom(s, pos) == found(ast, pos + ast.spec_render().len()),
    decreases ast, 0nat,
{
    lemma_levels(ast);
    match ast {
        Ast::Group(x) => {
            let inner = x.spec_render();
            lemma_stands_split(s, pos, seq!['('] + inner, seq![')']);
            lemma_stands_split(s, pos, seq!['('], inner);
            assert(s[pos] == s.subrange(pos, pos + 1)[0]);
            let close = pos + 1 + inner.len();
            assert(s[close] == s.subrange(close, close + 1)[0]);
            lemma_alt_reads_back(*x, s, pos + 1);
        },
        _ => {
            assert(s[pos] == s.subrange(pos, pos + 1)[0]);
        },
    }
}

/// `repeat` reads the text of a quantified atom back, if no quantifier
/// follows it.
pub proof fn lemma_repeat_reads_back(ast: Ast, s: Seq<char>, pos: int)
    requires
        ast.spec_is_repeat(),
        spec_stands_at(s, pos, ast.spec_render()),
        pos + ast.spec_render().len() < s.len() ==> !spec_is_quantifier(
            s[pos + ast.spec_render().len()],
        ),
    ensures
        spec_parse_repeat(s, pos) == found(ast, pos + ast.spec_render().len()),
    decreases ast, 1nat,
{
    lemma_levels(ast);
    match ast {
        Ast::Star(x) | Ast::Plus(x) | Ast::Optional(x) => {
            lemma_levels(*x);
            let inner = x.spec_render();
            let mark = pos + inner.len();
            let quantifier = seq![ast.spec_render().last()];
            assert(ast.spec_render() =~= inner + quantifier);
            lemma_stands_split(s, pos, inner, quantifier);
            assert(s[mark] == s.subrange(mark, mark + 1)[0]);
            lemma_atom_reads_back(*x, s, pos);
        },
        _ => {
            lemma_atom_reads_back(ast, s, pos);
        },
    }
}

/// After the text of a concatenation, `concat` has read the concatenation
/// and goes on from there.
pub proof fn lemma_concat_reads_on(ast: Ast, s: Seq<char>, pos: int)
    requires
        ast.spec_is_concat(),
        spec_stands_at(s, pos, ast.spec_render()),
        pos + ast.spec_render().len() < s.len() ==> !spec_is_quantifier(
            s[pos + ast.spec_render().len()],
        ),
    ensures
        spec_parse_concat(s, pos) == spec_concat_rest(s, pos + ast.spec_render().len(), ast),
    decreases ast, 2nat,
{
    lemma_levels(ast);
    match ast {
        Ast::Concat(l, r) => {
            let left = l.spec_render();
            let right = r.spec_render();
            lemma_levels(*l);
            lemma_levels(*r);
            lemma_stands_split(s, pos, left, right);
            lemma_render_starts_an_atom(*r);
            let mid = pos + left.len();
            assert(s[mid] == s.subrange(mid, mid + right.len())[0]);
            lemma_concat_reads_on(*l, s, pos);
            lemma_repeat_reads_back(*r, s, mid);
            assert(advances(s, mid, mid + right.len()));
        },
        _ => {
            lemma_render_starts_an_atom(ast);
            lemma_repeat_reads_back(ast, s, pos);
        },
    }
}

/// `concat` reads the text of a concatenation back, if no atom follows it.
pub proof fn lemma_concat_reads_back(ast: Ast, s: Seq<char>, pos: int)
    requires
        ast.spec_is_concat(),
        spec_stands_at(s, pos, ast.spec_render()),
        spec_atoms_end(s, pos + ast.spec_render().len()),
    ensures
        spec_parse_concat(s, pos) == found(ast, pos + ast.spec_render().len()),
    decreases ast, 3nat,
{
    lemma_levels(ast);
    lemma_concat_reads_on(ast, s, pos);
    let end = pos + ast.spec_render().len();
    assert(spec_parse_atom(s, end) == absent(end));
    assert(spec_parse_repeat(s, end) == absent(end));
}

/// After the text of an alternation, `alt` has read the alternation and
/// goes on from there.
pub proof fn lemma_alt_reads_on(ast: Ast, s: Seq<char>, pos: int)
    requires
        ast.spec_is_alt(),
        spec_stands_at(s, pos, ast.spec_render()),
        spec_atoms_end(s, pos + ast.spec_render().len()),
    ensures
        spec_parse_alt(s, pos) == spec_alt_rest(s, pos + ast.spec_render().len(), ast),
    decreases ast, 4nat,
{
    lemma_levels(ast);
    match ast {
        Ast::Alt(l, r) => {
            let left = l.spec_render();
            let right = r.spec_render();
            lemma_levels(*r);
            lemma_stands_split(s, pos, left + seq!['|'], right);
            lemma_stands_split(s, pos, left, seq!['|']);
            let bar = pos + left.len();
            assert(s[bar] == s.subrange(bar, bar + 1)[0]);
            lemma_render_starts_an_atom(*r);
            lemma_alt_reads_on(*l, s, pos);
            lemma_concat_reads_back(*r, s, bar + 1);
            assert(advances(s, bar, bar + 1 + right.len()));
        },
        _ => {
            lemma_render_starts_an_atom(ast);
            lemma_concat_reads_back(ast, s, pos);
        },
    }
}

/// `alt` reads the text of an alternation back, if the text ends after it
/// or goes on with `)`.
pub proof fn lemma_alt_reads_back(ast: Ast, s: Seq<char>, pos: int)
    requires
        ast.spec_is_alt(),
        spec_stands_at(s, pos, ast.spec_render()),
        pos + ast.spec_render().len() < s.len() ==> s[pos + ast.spec_render().len()] == ')',
    ensures
        spec_parse_alt(s, pos) == found(ast, pos + ast.spec_render().len()),
    decreases ast, 5nat,
{
    lemma_levels(ast);
    lemma_alt_reads_on(ast, s, pos);
}

/// The round trip: the text of a canonical tree parses to that tree.
pub proof fn lemma_round_trip(ast: Ast)
    requires
        ast.spec_is_canonical(),
    ensures
        spec_parse(ast.spec_render()) == Ok::<Ast, ParseError>(ast),
{
    let s = ast.spec_render();
    if ast.spec_is_alt() {
        assert(s.subrange(0, s.len() as int) =~= s);
        lemma_alt_reads_back(ast, s, 0);
    }
}

/// A node that was read has the text that was consumed for it.
pub open spec fn spec_faithful(s: Seq<char>, pos: int, parsed: Parsed) -> bool {
    parsed.result matches Ok(Some(node)) ==> node.spec_render() == s.subrange(pos, parsed.next)
}

/// What the four grammar functions read is canonical at their level and has
/// the text that they consumed.
pub proof fn lemma_grammar_reads_canonical(s: Seq<char>, pos: int)
    requires
        0 <= pos <= s.len(),
    ensures
        spec_faithful(s, pos, spec_parse_atom(s, pos)),
        spec_faithful(s, pos, spec_parse_repeat(s, pos)),
        spec_faithful(s, pos, spec_parse_concat(s, pos)),
        spec_faithful(s, pos, spec_parse_alt(s, pos)),
        spec_parse_atom(s, pos).result matches Ok(Some(node)) ==> node.spec_is_atom(),
        spec_parse_repeat(s, pos).result matches Ok(Some(node)) ==> node.spec_is_repeat(),
        spec_parse_concat(s, pos).result matches Ok(Some(node)) ==> node.spec_is_concat(),
        spec_parse_alt(s, pos).result matches Ok(Some(node)) ==> node.spec_is_alt(),
    decreases s.len() - pos, 0nat,
{
    lemma_grammar_advances(s, pos);
    let atom = spec_parse_atom(s, pos);
    if pos < s.len() && s[pos] == '(' {
        lemma_grammar_advances(s, pos + 1);
        lemma_grammar_reads_canonical(s, pos + 1);
        let inner = spec_parse_alt(s, pos + 1);
        if let Ok(Some(node)) = inner.result {
            if inner.next < s.len() && s[inner.next] == ')' {
                assert(s.subrange(pos, inner.next + 1) =~= spec_parenthesized(
                    s.subrange(pos + 1, inner.next),
                ));
            }
        }
    } else if let Ok(Some(node)) = atom.result {
        assert(s.subrange(pos, pos + 1) =~= seq![s[pos]]);
    }
    let repeat = spec_parse_repeat(s, pos);
    if let Ok(Some(node)) = atom.result {
        lemma_levels(node);
        if atom.next < s.len() && spec_is_quantifier(s[atom.next]) {
            assert(s.subrange(pos, atom.next + 1) =~= s.subrange(pos, atom.next) + seq![
                s[atom.next],
            ]);
        }
    }
    if let Ok(Some(node)) = repeat.result {
        lemma_levels(node);
        lemma_concat_rest_canonical(s, pos, repeat.next, node);
    }
    let concat = spec_parse_concat(s, pos);
    if let Ok(Some(node)) = concat.result {
        lemma_levels(node);
        lemma_alt_rest_canonical(s, pos, concat.next, node);
    }
}

/// The rest of a concatenation keeps what was read canonical and faithful
/// to the text.
pub proof fn lemma_concat_rest_canonical(s: Seq<char>, start: int, pos: int, acc: Ast)
    requires
        0 <= start <= pos <= s.len(),
        acc.spec_is_concat(),
        acc.spec_render() == s.subrange(start, pos),
    ensures
        spec_faithful(s, start, spec_concat_rest(s, pos, acc)),
        spec_concat_rest(s, pos, acc).result matches Ok(Some(node)) ==> node.spec_is_concat(),
    decreases s.len() - pos, 1nat,
{
    lemma_grammar_advances(s, pos);
    lemma_grammar_reads_canonical(s, pos);
    let operand = spec_parse_repeat(s, pos);
    if let Ok(Some(node)) = operand.result {
        let joined = Ast::Concat(Box::new(acc), Box::new(node));
        lemma_levels(acc);
        lemma_levels(node);
        assert(joined.spec_render() =~= s.subrange(start, operand.next));
        lemma_concat_rest_canonical(s, start, operand.next, joined);
    }
}

/// The rest of an alternation keeps what was read canonical and faithful
/// to the text.
pub proof fn lemma_alt_rest_canonical(s: Seq<char>, start: int, pos: int, acc: Ast)
    requires
        0 <= start <= pos <= s.len(),
        acc.spec_is_alt(),
        acc.spec_render() == s.subrange(start, pos),
    ensures
        spec_faithful(s, start, spec_alt_rest(s, pos, acc)),
        spec_alt_rest(s, pos, acc).result matches Ok(Some(node)) ==> node.spec_is_alt(),
    decreases s.len() - pos, 1nat,
{
    if pos < s.len() && s[pos] == '|' {
        lemma_grammar_advances(s, pos + 1);
        lemma_grammar_reads_canonical(s, pos + 1);
        let alternative = spec_parse_concat(s, pos + 1);
        if let Ok(Some(node)) = alternative.result {
            let joined = Ast::Alt(Box::new(acc), Box::new(node));
            assert(joined.spec_render() =~= s.subrange(start, alternative.next));
            lemma_alt_rest_canonical(s, start, alternative.next, joined);
        }
    }
}

/// Whatever parses, parses to a canonical tree whose text is the pattern.
pub proof fn lemma_parse_is_canonical(s: Seq<char>)
    ensures
        spec_parse(s) matches Ok(ast) ==> ast.spec_is_canonical() && ast.spec_render() == s,
{
    lemma_grammar_advances(s, 0);
    lemma_grammar_reads_canonical(s, 0);
    let whole = spec_parse_alt(s, 0);
    if let Ok(found) = whole.result {
        if whole.next >= s.len() {
            assert(s.subrange(0, whole.next) =~= s);
            if found is None {
                assert(s =~= Seq::empty());
            }
        }
    }
}

/// A tree comes back from its own text exactly if it is canonical.
pub proof fn lemma_round_trip_iff_canonical(ast: Ast)
    ensures
        spec_parse(ast.spec_render()) == Ok::<Ast, ParseError>(ast) <==> ast.spec_is_canonical(),
{
    if ast.spec_is_canonical() {
        lemma_round_trip(ast);
    }
    lemma_parse_is_canonical(ast.spec_render());
}

} // verus!
