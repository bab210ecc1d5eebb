use vstd::prelude::*;

verus! {

/// What a cell of the grid holds.
#[derive(Debug, Clone, Copy, PartialEq, Eq, Structural)]
pub enum Tile {
    Bomb,
    /// A cell without a mine next to 1 to 8 mines.
    BombNeighbor(u8),
    /// A cell without a mine and with no mine around it.
    Empty,
}

/// The character of a decimal digit.
pub open spec fn digit_char(d: nat) -> char {
    ((48 + d) as u8) as char
}

/// The decimal writing of a natural number, without leading zeros.
pub open spec fn decimal(v: nat) -> Seq<char>
    decreases v,
{
    if v < 10 {
        seq![digit_char(v)]
    } else {
        decimal(v / 10) + seq![digit_char(v % 10)]
    }
}

/// The picture of a tile: `*` for a mine, the count in decimal, a space for an empty cell.
pub open spec fn tile_text(t: Tile) -> Seq<char> {
    match t {
        Tile::Bomb => seq!['*'],
        Tile::BombNeighbor(v) => decimal(v as nat),
        Tile::Empty => seq![' '],
    }
}

/// The one-character string of the digit `d`.
pub(crate) fn digit_str(d: u8) -> (r: &'static str)
    requires
        d < 10,
    ensures
        r@ == seq![digit_char(d as nat)],
{
    proof {
        reveal_strlit("0");
        reveal_strlit("1");
        reveal_strlit("2");
        reveal_strlit("3");
        reveal_strlit("4");
        reveal_strlit("5");
        reveal_strlit("6");
        reveal_strlit("7");
        reveal_strlit("8");
        reveal_strlit("9");
    }
    match d {
        0 => "0",
        1 => "1",
        2 => "2",
        3 => "3",
        4 => "4",
        5 => "5",
        6 => "6",
        7 => "7",
        8 => "8",
        _ => "9",
    }
}

/// Appends the decimal writing of `v` to `s`.
pub(crate) fn push_decimal(s: &mut String, v: u16)
    ensures
        final(s)@ == old(s)@ + decimal(v as nat),
    decreases v,
{
    if v >= 10 {
        push_decimal(s, v / 10);
    }
    s.append(digit_str((v % 10) as u8));
    proof {
        if v >= 10 {
            assert(old(s)@ + decimal((v / 10) as nat) + seq![digit_char((v % 10) as nat)] =~= old(
                s,
            )@ + decimal(v as nat));
        }
    }
}

impl Tile {
    pub fn is_bomb(&self) -> (r: bool)
        ensures
            r == (*self is Bomb),
    {
        matches!(self, Tile::Bomb)
    }

    /// The tile as it is drawn in a text picture of the grid.
    pub fn console_output(&self) -> (r: String)
        ensures
            r@ == tile_text(*self),
    {
        match self {
            Tile::Bomb => {
                proof {
                    reveal_strlit("*");
                }
                String::from_str("*")
            },
            Tile::BombNeighbor(v) => {
                let mut s = String::new();
                push_decimal(&mut s, *v as u16);
                assert(s@ =~= decimal(*v as nat));
                s
            },
            Tile::Empty => {
                proof {
                    reveal_strlit(" ");
                }
                String::from_str(" ")
            },
        }
    }
}

} // verus!
