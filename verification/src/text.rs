//! A printable form of the state: its lanes in hexadecimal, two to a line.

use vstd::prelude::*;
use vstd::string::StringExecFns;
use crate::keccak::{grid_is, lemma_lanes_grid, State};
use crate::sponge::{le_bytes, le_bytes_spec};

verus! {

/// The lowercase hexadecimal digit for a value below 16.
pub open spec fn hex_digit(n: int) -> char {
    if n < 10 {
        ((48 + n) as u8) as char
    } else {
        ((87 + n) as u8) as char
    }
}

/// Two lowercase hexadecimal digits for each byte, the high one first.
pub open spec fn hex_spec(b: Seq<u8>) -> Seq<char> {
    Seq::new(
        2 * b.len(),
        |i: int|
            hex_digit(
                if i % 2 == 0 {
                    b[i / 2] as int / 16
                } else {
                    b[i / 2] as int % 16
                },
            ),
    )
}

/// Calls `hex::encode`. Trusted: the string it returns holds, for each byte in
/// order, the digit of its high four bits and then that of its low four bits,
/// taken from `0123456789abcdef`.
#[verifier::external_body]
fn hex_encode(bytes: &Vec<u8>) -> (s: String)
    ensures
        s@ == hex_spec(bytes@),
{
    hex::encode(bytes)
}

/// What follows the cell that brings the number of cells written to `count`:
/// a line break after every second cell, a space otherwise.
pub open spec fn separator(count: int) -> char {
    if count % 2 == 0 {
        '\n'
    } else {
        ' '
    }
}

/// Lane `k` as text: its little-endian bytes in hexadecimal, then its separator.
pub open spec fn cell(a: Seq<u64>, k: int) -> Seq<char> {
    hex_spec(le_bytes_spec(a[k])).push(separator(k + 1))
}

/// The first `n` lanes as text.
pub open spec fn cells(a: Seq<u64>, n: nat) -> Seq<char>
    decreases n,
{
    if n == 0 {
        Seq::empty()
    } else {
        cells(a, (n - 1) as nat) + cell(a, n - 1)
    }
}

/// The whole state as text: all 25 lanes, then a closing line break.
pub open spec fn text_spec(a: Seq<u64>) -> Seq<char> {
    cells(a, 25).push('\n')
}

impl State {
    /// The state as text, lanes in the order `x + 5 * y`.
    pub fn to_text(&self) -> (text: String)
        ensures
            text@ == text_spec(self@),
    {
        let ghost a = self@;
        proof {
            lemma_lanes_grid(self.state);
            reveal_strlit("\n");
            reveal_strlit(" ");
        }
        let mut display = String::new();
        let mut count: usize = 0;
        for y in 0..5usize
            invariant
                grid_is(self.state, a),
                "\n"@ == seq!['\n'],
                " "@ == seq![' '],
                count == 5 * y,
                display@ == cells(a, count as nat),
        {
            for x in 0..5usize
                invariant
                    y < 5,
                    grid_is(self.state, a),
                    "\n"@ == seq!['\n'],
                    " "@ == seq![' '],
                    count == 5 * y + x,
                    display@ == cells(a, count as nat),
            {
                let ghost before = display@;
                let bytes = le_bytes(self.state[x][y]);
                let h = hex_encode(&bytes);
                display.append(h.as_str());
                count += 1;
                if count % 2 == 0 {
                    display.append("\n");
                } else {
                    display.append(" ");
                }
                assert(display@ =~= before + cell(a, count - 1));
            }
        }
        display.append("\n");
        assert(display@ =~= text_spec(a));
        display
    }
}

} // verus!
