//! Names of the cells.
use vstd::prelude::*;

verus! {

/// Column letters, A for the leftmost column.
pub open spec fn column_letter(c: int) -> char {
    if c == 0 {
        'A'
    } else if c == 1 {
        'B'
    } else if c == 2 {
        'C'
    } else if c == 3 {
        'D'
    } else if c == 4 {
        'E'
    } else if c == 5 {
        'F'
    } else if c == 6 {
        'G'
    } else {
        'H'
    }
}

/// Row digits, 1 for the top row.
pub open spec fn row_digit(r: int) -> char {
    if r == 0 {
        '1'
    } else if r == 1 {
        '2'
    } else if r == 2 {
        '3'
    } else if r == 3 {
        '4'
    } else if r == 4 {
        '5'
    } else if r == 5 {
        '6'
    } else if r == 6 {
        '7'
    } else {
        '8'
    }
}

fn column_name(c: usize) -> (ch: char)
    ensures
        ch == column_letter(c as int),
{
    if c == 0 {
        'A'
    } else if c == 1 {
        'B'
    } else if c == 2 {
        'C'
    } else if c == 3 {
        'D'
    } else if c == 4 {
        'E'
    } else if c == 5 {
        'F'
    } else if c == 6 {
        'G'
    } else {
        'H'
    }
}

fn row_name(r: usize) -> (ch: char)
    ensures
        ch == row_digit(r as int),
{
    if r == 0 {
        '1'
    } else if r == 1 {
        '2'
    } else if r == 2 {
        '3'
    } else if r == 3 {
        '4'
    } else if r == 4 {
        '5'
    } else if r == 5 {
        '6'
    } else if r == 6 {
        '7'
    } else {
        '8'
    }
}

/// Relies on std's `String::push`: appends the character to the end of the string.
#[verifier::external_body]
fn push_char(s: &mut String, ch: char)
    ensures
        final(s)@ == old(s)@.push(ch),
{
    s.push(ch)
}

/// Names cells like A1, A2, ..., B1, B2, ...: columns A to H from left to right,
/// rows 1 to 8 from top to bottom.
pub fn position_to_name(r: usize, c: usize) -> (name: String)
    requires
        r < 8,
        c < 8,
    ensures
        name@ == seq![column_letter(c as int), row_digit(r as int)],
{
    let mut name = String::new();
    push_char(&mut name, column_name(c));
    push_char(&mut name, row_name(r));
    proof {
        assert(name@ =~= seq![column_letter(c as int), row_digit(r as int)]);
    }
    name
}

} // verus!
