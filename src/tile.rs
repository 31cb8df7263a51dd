//! A single square of a shared board.

use vstd::prelude::*;
use crate::text::{chars_of, same_chars_slice, string_of};

verus! {

/// The outcome of one letter of a guess.
#[derive(Clone, Copy, Debug, PartialEq, Eq, Structural)]
pub enum Tile {
    /// The letter is not in the word.
    Black,
    /// The letter is in the word, elsewhere.
    Yellow,
    /// The letter is in the word, at this place.
    Green,
}

/// The square that the canonical form writes for each tile.
pub open spec fn glyph_of(t: Tile) -> char {
    match t {
        Tile::Black => '\u{2B1B}',
        Tile::Yellow => '\u{1F7E8}',
        Tile::Green => '\u{1F7E9}',
    }
}

/// The tile that a token names: a single square, or the name that some chat
/// platforms write in place of the emoji.
pub open spec fn tile_of_token(t: Seq<char>) -> Option<Tile> {
    if t == "black_large_square"@ || t == seq!['\u{2B1B}'] {
        Some(Tile::Black)
    } else if t == "large_yellow_square"@ || t == seq!['\u{1F7E8}'] {
        Some(Tile::Yellow)
    } else if t == "large_green_square"@ || t == seq!['\u{1F7E9}'] {
        Some(Tile::Green)
    } else {
        None
    }
}

impl Tile {
    /// The square of this tile.
    pub fn glyph(self) -> (c: char)
        ensures
            c == glyph_of(self),
    {
        match self {
            Tile::Black => '\u{2B1B}',
            Tile::Yellow => '\u{1F7E8}',
            Tile::Green => '\u{1F7E9}',
        }
    }

    /// The canonical text of this tile: its square.
    pub fn encode(self) -> (r: String)
        ensures
            r@ == seq![glyph_of(self)],
    {
        let mut cs: Vec<char> = Vec::new();
        cs.push(self.glyph());
        assert(cs@ =~= seq![glyph_of(self)]);
        string_of(&cs)
    }

    /// The tile that `token` names, or `None` where it names none.
    pub fn from_token(token: &[char]) -> (r: Option<Tile>)
        ensures
            r == tile_of_token(token@),
    {
        let black = chars_of("black_large_square");
        let yellow = chars_of("large_yellow_square");
        let green = chars_of("large_green_square");
        if same_chars_slice(token, black.as_slice()) || (token.len() == 1 && token[0] == '\u{2B1B}') {
            proof {
                if token.len() == 1 && token[0] == '\u{2B1B}' {
                    assert(token@ =~= seq!['\u{2B1B}']);
                }
            }
            Some(Tile::Black)
        } else if same_chars_slice(token, yellow.as_slice()) || (token.len() == 1 && token[0]
            == '\u{1F7E8}') {
            proof {
                if token.len() == 1 && token[0] == '\u{1F7E8}' {
                    assert(token@ =~= seq!['\u{1F7E8}']);
                }
            }
            Some(Tile::Yellow)
        } else if same_chars_slice(token, green.as_slice()) || (token.len() == 1 && token[0]
            == '\u{1F7E9}') {
            proof {
                if token.len() == 1 && token[0] == '\u{1F7E9}' {
                    assert(token@ =~= seq!['\u{1F7E9}']);
                }
            }
            Some(Tile::Green)
        } else {
            proof {
                if token@ == seq!['\u{2B1B}'] || token@ == seq!['\u{1F7E8}'] || token@ == seq![
                    '\u{1F7E9}',
                ] {
                    assert(token@.len() == 1);
                    assert(token@[0] == token[0]);
                }
            }
            None
        }
    }

    /// The tile that the text `token` names, or `None` where it names none.
    pub fn parse(token: &str) -> (r: Option<Tile>)
        ensures
            r == tile_of_token(token@),
    {
        let cs = chars_of(token);
        Tile::from_token(cs.as_slice())
    }
}

/// A tile's own square names that tile.
pub proof fn lemma_glyph_names_tile(t: Tile)
    ensures
        tile_of_token(seq![glyph_of(t)]) == Some(t),
{
    reveal_strlit("black_large_square");
    reveal_strlit("large_yellow_square");
    reveal_strlit("large_green_square");
    assert(seq![glyph_of(t)].len() == 1);
    assert("black_large_square"@.len() > 1);
    assert("large_yellow_square"@.len() > 1);
    assert("large_green_square"@.len() > 1);
    let b = seq!['\u{2B1B}'];
    let y = seq!['\u{1F7E8}'];
    let g = seq!['\u{1F7E9}'];
    assert(b[0] != y[0] && b[0] != g[0] && y[0] != g[0]);
    assert(b != y && b != g && y != g);
    assert(seq![glyph_of(t)] =~= match t {
        Tile::Black => b,
        Tile::Yellow => y,
        Tile::Green => g,
    });
}

} // verus!
