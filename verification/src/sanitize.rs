//! Filtering of raw program text down to the recognized instruction
//! symbols. Everything else (comments, whitespace) is dropped, and the
//! relative order of the surviving symbols is preserved.

use vstd::prelude::*;

verus! {

/// The recognized instruction alphabet: cell increment and decrement,
/// the two pointer moves, output, and the loop brackets.
pub open spec fn is_instr(c: char) -> bool {
    c == '+' || c == '-' || c == '<' || c == '>' || c == '.' || c == '[' || c == ']'
}

/// Relies on std's `String::push`: appends the given character to the
/// end of the string.
pub assume_specification[ String::push ](s: &mut String, c: char)
    ensures
        final(s)@ == old(s)@.push(c),
;

/// Given a raw program text, return a cleaned program which contains
/// only recognized instruction symbols, in their original order.
pub fn cleanup(program: &str) -> (r: String)
    ensures
        r@ == program@.filter(|c: char| is_instr(c)),
{
    let n = program.unicode_len();
    let mut output = String::new();
    let mut i: usize = 0;
    while i < n
        invariant
            n == program@.len(),
            i <= n,
            output@ == program@.take(i as int).filter(|c: char| is_instr(c)),
        decreases n - i,
    {
        let c = program.get_char(i);
        proof {
            reveal(Seq::filter);
            assert(program@.take(i + 1).drop_last() =~= program@.take(i as int));
        }
        if c == '+' || c == '-' || c == '<' || c == '>' || c == '.' || c == '[' || c == ']' {
            output.push(c);
        }
        i = i + 1;
    }
    proof {
        assert(program@.take(n as int) =~= program@);
    }
    output
}

/// Every symbol of a cleaned program is a recognized instruction: the
/// sanitizer lets nothing else through.
pub proof fn lemma_cleaned_only_instrs(s: Seq<char>, i: int)
    requires
        0 <= i < s.filter(|c: char| is_instr(c)).len(),
    ensures
        is_instr(s.filter(|c: char| is_instr(c))[i]),
{
    broadcast use vstd::seq_lib::group_filter_ensures;

}

} // verus!
