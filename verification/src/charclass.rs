//! Expansion of character-class shorthands.

use vstd::prelude::*;

verus! {

pub open spec fn spec_digit_chars() -> Seq<char> {
    seq!['0', '1', '2', '3', '4', '5', '6', '7', '8', '9']
}

pub open spec fn spec_space_chars() -> Seq<char> {
    seq![' ', '\t', '\n', '\r', '\u{c}', '\u{b}']
}

/// The members a shorthand stands for: `d` names the decimal digits and
/// `s` the whitespace characters; anything else has no expansion.
pub open spec fn spec_build_chars(shorthand: char) -> Seq<char> {
    if shorthand == 'd' {
        spec_digit_chars()
    } else if shorthand == 's' {
        spec_space_chars()
    } else {
        Seq::empty()
    }
}

/// The members a shorthand class stands for.
pub fn build_chars(shorthand: char) -> (r: Vec<char>)
    ensures
        r@ == spec_build_chars(shorthand),
{
    let mut v: Vec<char> = Vec::new();
    if shorthand == 'd' {
        v.push('0');
        v.push('1');
        v.push('2');
        v.push('3');
        v.push('4');
        v.push('5');
        v.push('6');
        v.push('7');
        v.push('8');
        v.push('9');
        proof {
            assert(v@ =~= spec_digit_chars());
        }
    } else if shorthand == 's' {
        v.push(' ');
        v.push('\t');
        v.push('\n');
        v.push('\r');
        v.push('\u{c}');
        v.push('\u{b}');
        proof {
            assert(v@ =~= spec_space_chars());
        }
    } else {
        proof {
            assert(v@ =~= Seq::<char>::empty());
        }
    }
    v
}

} // verus!
