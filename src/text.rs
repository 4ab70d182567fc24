use vstd::prelude::*;
use vstd::string::StringExecFns;

use crate::board::{in_bounds, tile, Board, SIZE};

verus! {

/// The character of a decimal digit.
pub open spec fn digit_char(d: nat) -> char {
    if d == 0 {
        '0'
    } else if d == 1 {
        '1'
    } else if d == 2 {
        '2'
    } else if d == 3 {
        '3'
    } else if d == 4 {
        '4'
    } else if d == 5 {
        '5'
    } else if d == 6 {
        '6'
    } else if d == 7 {
        '7'
    } else if d == 8 {
        '8'
    } else {
        '9'
    }
}

/// The decimal digits of `n`, most significant first, without leading zeros.
pub open spec fn decimal(n: nat) -> Seq<char>
    decreases n,
{
    if n < 10 {
        seq![digit_char(n)]
    } else {
        decimal(n / 10).push(digit_char(n % 10))
    }
}

pub open spec fn spaces(n: int) -> Seq<char> {
    Seq::new(n as nat, |i: int| ' ')
}

/// The decimal form of `v` centred in four columns; of two unequal margins
/// the right one is wider. Wider numbers stand without margins.
pub open spec fn centered(v: u16) -> Seq<char> {
    let s = decimal(v as nat);
    if s.len() >= 4 {
        s
    } else {
        let pad = 4 - s.len();
        spaces(pad / 2) + s + spaces(pad - pad / 2)
    }
}

/// The cells `0..n` of row `y`, each centred in four columns.
pub open spec fn row_text(g: Seq<u16>, y: int, n: int) -> Seq<char>
    decreases n,
{
    if n <= 0 {
        Seq::empty()
    } else {
        row_text(g, y, n - 1) + centered(tile(g, n - 1, y))
    }
}

/// Rows `0..n` of the grid, each followed by a blank line.
pub open spec fn grid_text(g: Seq<u16>, n: int) -> Seq<char>
    decreases n,
{
    if n <= 0 {
        Seq::empty()
    } else {
        grid_text(g, n - 1) + row_text(g, n - 1, SIZE as int) + seq!['\n', '\n']
    }
}

/// Relies on std's `format!` with the `{:^4}` spec: the value's decimal
/// digits, centred in a field of four characters, the odd space on the right.
#[verifier::external_body]
fn centered_cell(v: u16) -> (r: String)
    ensures
        r@ == centered(v),
{
    format!("{:^4}", v)
}

impl Board {
    /// A fixed-width dump of the grid, row by row, for debugging.
    pub fn to_text(&self) -> (r: String)
        requires
            self.wf(),
        ensures
            r@ == grid_text(self@, SIZE as int),
    {
        let mut r = String::new();
        let mut y: usize = 0;
        while y < SIZE
            invariant
                self.wf(),
                y <= SIZE,
                r@ == grid_text(self@, y as int),
            decreases SIZE - y,
        {
            let ghost before = r@;
            let mut x: usize = 0;
            while x < SIZE
                invariant
                    self.wf(),
                    y < SIZE,
                    x <= SIZE,
                    r@ == before + row_text(self@, y as int, x as int),
                decreases SIZE - x,
            {
                let v = match self.get(x, y) {
                    Some(v) => v,
                    None => 0,
                };
                assert(in_bounds(x as int, y as int));
                let cell = centered_cell(v);
                r.append(cell.as_str());
                x += 1;
                assert(r@ =~= before + row_text(self@, y as int, x as int));
            }
            proof {
                reveal_strlit("\n\n");
            }
            r.append("\n\n");
            y += 1;
            assert(r@ =~= grid_text(self@, y as int));
        }
        r
    }
}

} // verus!
