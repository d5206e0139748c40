//! Building text: characters, decimal numbers and lists of numbers.

use vstd::prelude::*;

verus! {

/// `String::push` appends the character to the end of the string and leaves
/// what was there unchanged.
pub assume_specification[ String::push ](s: &mut String, c: char)
    ensures
        final(s)@ == old(s)@.push(c),
;

/// The character of a decimal digit.
pub open spec fn spec_digit(d: nat) -> char
    recommends
        d < 10,
{
    if d == 0 {
        '0'
    } else if d == 1 {
        '1'
    } else if d == 2 {
        '2'
    } else if d == 3 {
        '3'
    } else if d == 4 {
        '4'
    } else if d == 5 {
        '5'
    } else if d == 6 {
        '6'
    } else if d == 7 {
        '7'
    } else if d == 8 {
        '8'
    } else {
        '9'
    }
}

/// A number in decimal, without leading zeros.
pub open spec fn spec_decimal(n: nat) -> Seq<char>
    decreases n,
{
    if n < 10 {
        seq![spec_digit(n)]
    } else {
        spec_decimal(n / 10).push(spec_digit(n % 10))
    }
}

/// The numbers in decimal, separated by single spaces.
pub open spec fn spec_spaced(items: Seq<nat>) -> Seq<char>
    decreases items.len(),
{
    if items.len() == 0 {
        Seq::empty()
    } else if items.len() == 1 {
        spec_decimal(items[0])
    } else {
        spec_spaced(items.drop_last()) + seq![' '] + spec_decimal(items.last())
    }
}

/// The numbers as a list in braces: `{ 1 2 3 }`.
pub open spec fn spec_display_vec(items: Seq<nat>) -> Seq<char> {
    seq!['{', ' '] + spec_spaced(items) + seq![' ', '}']
}

/// The character of the decimal digit `d`.
fn digit(d: u8) -> (res: char)
    requires
        d < 10,
    ensures
        res == spec_digit(d as nat),
{
    match d {
        0 => '0',
        1 => '1',
        2 => '2',
        3 => '3',
        4 => '4',
        5 => '5',
        6 => '6',
        7 => '7',
        8 => '8',
        _ => '9',
    }
}

/// Appends `n` in decimal to `out`.
pub fn push_decimal(out: &mut String, n: u64)
    ensures
        final(out)@ == old(out)@ + spec_decimal(n as nat),
    decreases n,
{
    if n >= 10 {
        push_decimal(out, n / 10);
    }
    out.push(digit((n % 10) as u8));
    assert(out@ =~= old(out)@ + spec_decimal(n as nat));
}

/// The numbers of `vec` as a list in braces, separated by spaces.
pub fn display_vec(vec: &[u32]) -> (res: String)
    ensures
        res@ == spec_display_vec(vec@.map_values(|t: u32| t as nat)),
{
    let ghost items = vec@.map_values(|t: u32| t as nat);
    let mut out = String::new();
    out.push('{');
    out.push(' ');
    let ghost head = out@;
    let mut k: usize = 0;
    assert(items.take(0) =~= Seq::empty());
    while k < vec.len()
        invariant
            k <= vec.len(),
            items == vec@.map_values(|t: u32| t as nat),
            head == seq!['{', ' '],
            out@ == head + spec_spaced(items.take(k as int)),
        decreases vec.len() - k,
    {
        let ghost before = out@;
        if k > 0 {
            out.push(' ');
        }
        push_decimal(&mut out, vec[k] as u64);
        proof {
            let next = items.take(k as int + 1);
            assert(next.drop_last() =~= items.take(k as int));
            assert(next.last() == vec[k as int] as nat);
            assert(out@ =~= head + spec_spaced(next));
        }
        k = k + 1;
    }
    assert(items.take(vec.len() as int) =~= items);
    out.push(' ');
    out.push('}');
    assert(out@ =~= spec_display_vec(items));
    out
}

} // verus!
