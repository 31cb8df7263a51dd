//! The grid of tiles of a shared result.

use vstd::prelude::*;
use crate::error::{BoardDefect, ParseError};
use crate::text::{chars_of, string_of};
use crate::tile::{glyph_of, lemma_glyph_names_tile, tile_of_token, Tile};

verus! {

/// The most guesses a game allows.
pub const MAX_ROWS: usize = 6;

/// The letters of a word.
pub const MAX_TILES: usize = 5;

/// The pieces of `s` between line feeds.
pub open spec fn split_lines(s: Seq<char>) -> Seq<Seq<char>>
    decreases s.len(),
{
    if s.len() == 0 {
        seq![Seq::empty()]
    } else {
        let prev = split_lines(s.drop_last());
        if s.last() == '\n' {
            prev.push(Seq::empty())
        } else {
            prev.update(prev.len() - 1, prev.last().push(s.last()))
        }
    }
}

/// A line without the carriage return of a `\r\n` ending.
pub open spec fn strip_cr(l: Seq<char>) -> Seq<char> {
    if l.len() > 0 && l.last() == '\r' {
        l.drop_last()
    } else {
        l
    }
}

/// The lines of `s`.
pub open spec fn lines_of(s: Seq<char>) -> Seq<Seq<char>> {
    split_lines(s).map_values(|l: Seq<char>| strip_cr(l))
}

/// Whether `l` holds two colons in a row, as platforms that write emoji by
/// name (`:large_green_square::large_green_square:`) do.
pub open spec fn has_double_colon(l: Seq<char>) -> bool {
    exists|i: int| 0 <= i < l.len() - 1 && l[i] == ':' && #[trigger] l[i + 1] == ':'
}

/// The pieces of `l` between `::` separators, taken from the left, with every
/// other `:` dropped.
pub open spec fn alias_tokens(l: Seq<char>) -> Seq<Seq<char>>
    decreases l.len(),
{
    if l.len() == 0 {
        seq![Seq::empty()]
    } else if l.len() >= 2 && l[0] == ':' && l[1] == ':' {
        seq![Seq::empty()] + alias_tokens(l.skip(2))
    } else {
        let rest = alias_tokens(l.skip(1));
        if l[0] == ':' {
            rest
        } else {
            rest.update(0, seq![l[0]] + rest[0])
        }
    }
}

/// Each character of `l` as a token of its own.
pub open spec fn glyph_tokens(l: Seq<char>) -> Seq<Seq<char>> {
    l.map_values(|c: char| seq![c])
}

/// The tokens of a line of the board.
pub open spec fn tokens_of(l: Seq<char>) -> Seq<Seq<char>> {
    if has_double_colon(l) {
        alias_tokens(l)
    } else {
        glyph_tokens(l)
    }
}

/// The tiles that the tokens name, where each names one.
pub open spec fn row_of_tokens(ts: Seq<Seq<char>>) -> Option<Seq<Tile>>
    decreases ts.len(),
{
    if ts.len() == 0 {
        Some(Seq::empty())
    } else {
        match (row_of_tokens(ts.drop_last()), tile_of_token(ts.last())) {
            (Some(r), Some(t)) => Some(r.push(t)),
            _ => None,
        }
    }
}

/// Reads the lines from index `k` on into rows after `rows`: blank lines are
/// skipped, and reading stops once the board is full.
pub open spec fn scan_rows(lines: Seq<Seq<char>>, k: int, rows: Seq<Seq<Tile>>) -> Result<
    Seq<Seq<Tile>>,
    ParseError,
>
    decreases lines.len() - k,
{
    if k < 0 || k >= lines.len() || rows.len() >= MAX_ROWS {
        Ok(rows)
    } else if lines[k].len() == 0 {
        scan_rows(lines, k + 1, rows)
    } else {
        match row_of_tokens(tokens_of(lines[k])) {
            None => Err(ParseError::InvalidTileToken { line: (k + 1) as usize }),
            Some(row) => if row.len() > MAX_TILES {
                Err(ParseError::MalformedBoard { defect: BoardDefect::RowTooLong { len: row.len() as usize } })
            } else {
                scan_rows(lines, k + 1, rows.push(row))
            },
        }
    }
}

pub open spec fn all_green(row: Seq<Tile>) -> bool {
    forall|i: int| 0 <= i < row.len() ==> #[trigger] row[i] == Tile::Green
}

/// The rows that the text of a board describes, or why it describes none.
pub open spec fn board_of(text: Seq<char>) -> Result<Seq<Seq<Tile>>, ParseError> {
    match scan_rows(lines_of(text), 0, Seq::empty()) {
        Err(e) => Err(e),
        Ok(rows) => if rows.len() == 0 {
            Err(ParseError::MalformedBoard { defect: BoardDefect::NoRows })
        } else if rows.len() == 1 && !all_green(rows[0]) {
            Err(ParseError::MalformedBoard { defect: BoardDefect::SingleRowNotGreen })
        } else {
            Ok(rows)
        },
    }
}

/// The squares of a row, side by side.
pub open spec fn row_text(row: Seq<Tile>) -> Seq<char> {
    row.map_values(|t: Tile| glyph_of(t))
}

/// The rows, one line each.
pub open spec fn board_text(rows: Seq<Seq<Tile>>) -> Seq<char>
    decreases rows.len(),
{
    if rows.len() == 0 {
        Seq::empty()
    } else if rows.len() == 1 {
        row_text(rows[0])
    } else {
        board_text(rows.drop_last()) + seq!['\n'] + row_text(rows.last())
    }
}

/// Rows that a game can produce: one to six, each of one to five tiles, and a
/// lone row only where it is all green.
pub open spec fn valid_rows(rows: Seq<Seq<Tile>>) -> bool {
    &&& 1 <= rows.len() <= MAX_ROWS
    &&& forall|i: int| 0 <= i < rows.len() ==> 1 <= #[trigger] rows[i].len() <= MAX_TILES
    &&& rows.len() == 1 ==> all_green(rows[0])
}

/// The rows of guesses of one game.
#[derive(Clone, Debug)]
pub struct PuzzleBoard {
    pub board: Vec<Vec<Tile>>,
}

impl From<Vec<Vec<Tile>>> for PuzzleBoard {
    fn from(board: Vec<Vec<Tile>>) -> (r: PuzzleBoard) {
        PuzzleBoard { board }
    }
}

impl vstd::std_specs::convert::FromSpecImpl<Vec<Vec<Tile>>> for PuzzleBoard {
    open spec fn obeys_from_spec() -> bool {
        true
    }

    open spec fn from_spec(board: Vec<Vec<Tile>>) -> PuzzleBoard {
        PuzzleBoard { board }
    }
}

impl PuzzleBoard {
    /// The rows, as sequences of tiles.
    pub open spec fn rows(&self) -> Seq<Seq<Tile>> {
        self.board@.map_values(|r: Vec<Tile>| r@)
    }

    /// A board of the given rows.
    pub fn from_rows(board: Vec<Vec<Tile>>) -> (r: PuzzleBoard)
        ensures
            r.board@ == board@,
    {
        PuzzleBoard { board }
    }

    /// Reads the board that `text` describes.
    pub fn parse(text: &str) -> (r: Result<PuzzleBoard, ParseError>)
        ensures
            match r {
                Ok(b) => board_of(text@) == Ok::<Seq<Seq<Tile>>, ParseError>(b.rows()),
                Err(e) => board_of(text@) == Err::<Seq<Seq<Tile>>, ParseError>(e),
            },
    {
        let cs = chars_of(text);
        PuzzleBoard::parse_chars(cs.as_slice())
    }

    /// Reads the board that the characters `text` describe.
    pub fn parse_chars(text: &[char]) -> (r: Result<PuzzleBoard, ParseError>)
        ensures
            !(r matches Err(ParseError::MalformedHeader)),
            !(r matches Err(ParseError::DayOffsetOutOfRange)),
            match r {
                Ok(b) => board_of(text@) == Ok::<Seq<Seq<Tile>>, ParseError>(b.rows()),
                Err(e) => board_of(text@) == Err::<Seq<Seq<Tile>>, ParseError>(e),
            },
    {
        let lines = split_into_lines(text);
        let ghost ls = lines@.map_values(|v: Vec<char>| v@);
        let mut board: Vec<Vec<Tile>> = Vec::new();
        let mut k: usize = 0;
        assert(board@.map_values(|r: Vec<Tile>| r@) =~= Seq::<Seq<Tile>>::empty());
        while k < lines.len() && board.len() < MAX_ROWS
            invariant
                ls == lines_of(text@),
                ls == lines@.map_values(|v: Vec<char>| v@),
                0 <= k <= lines.len(),
                board.len() <= MAX_ROWS,
                scan_rows(ls, k as int, board@.map_values(|r: Vec<Tile>| r@)) == scan_rows(
                    ls,
                    0,
                    Seq::empty(),
                ),
            decreases lines.len() - k,
        {
            let line = &lines[k];
            assert(line@ == ls[k as int]);
            if line.len() == 0 {
                k = k + 1;
                continue;
            }
            let row = match row_of_line(line) {
                None => {
                    return Err(ParseError::InvalidTileToken { line: k + 1 });
                },
                Some(row) => row,
            };
            if row.len() > MAX_TILES {
                return Err(ParseError::MalformedBoard { defect: BoardDefect::RowTooLong { len: row.len() } });
            }
            let ghost before = board@.map_values(|r: Vec<Tile>| r@);
            board.push(row);
            assert(board@.map_values(|r: Vec<Tile>| r@) =~= before.push(row@));
            k = k + 1;
        }
        let ghost rows = board@.map_values(|r: Vec<Tile>| r@);
        assert(scan_rows(ls, k as int, rows) == Ok::<Seq<Seq<Tile>>, ParseError>(rows));
        if board.len() == 0 {
            return Err(ParseError::MalformedBoard { defect: BoardDefect::NoRows });
        }
        if board.len() == 1 {
            let green = all_green_row(&board[0]);
            if !green {
                return Err(ParseError::MalformedBoard { defect: BoardDefect::SingleRowNotGreen });
            }
        }
        let b = PuzzleBoard { board };
        assert(b.rows() == rows);
        Ok(b)
    }

    /// Appends the canonical text of the board: the squares of each row, one
    /// row per line.
    pub fn push_text(&self, out: &mut Vec<char>)
        ensures
            final(out)@ == old(out)@ + board_text(self.rows()),
    {
        let ghost rows = self.rows();
        let mut i: usize = 0;
        while i < self.board.len()
            invariant
                rows == self.board@.map_values(|r: Vec<Tile>| r@),
                0 <= i <= self.board.len(),
                out@ == old(out)@ + board_text(rows.take(i as int)),
            decreases self.board.len() - i,
        {
            if i > 0 {
                out.push('\n');
            }
            let row = &self.board[i];
            let mut j: usize = 0;
            let ghost start = out@;
            while j < row.len()
                invariant
                    0 <= j <= row.len(),
                    out@ == start + row_text(row@.take(j as int)),
                decreases row.len() - j,
            {
                out.push(row[j].glyph());
                assert(row_text(row@.take(j as int + 1)) =~= row_text(row@.take(j as int)).push(
                    glyph_of(row@[j as int]),
                ));
                j = j + 1;
            }
            assert(row@.take(j as int) =~= row@);
            assert(rows[i as int] == row@);
            let ghost next = rows.take(i as int + 1);
            assert(next.drop_last() =~= rows.take(i as int));
            if i == 0 {
                assert(board_text(rows.take(0)) =~= Seq::<char>::empty());
            }
            assert(out@ =~= old(out)@ + board_text(next));
            i = i + 1;
        }
        assert(rows.take(i as int) =~= rows);
    }

    /// The canonical text of the board.
    pub fn to_text(&self) -> (r: String)
        ensures
            r@ == board_text(self.rows()),
    {
        let mut out: Vec<char> = Vec::new();
        self.push_text(&mut out);
        assert(out@ =~= board_text(self.rows()));
        string_of(&out)
    }
}

/// Whether every tile of `row` is green.
fn all_green_row(row: &Vec<Tile>) -> (r: bool)
    ensures
        r == all_green(row@),
{
    let mut i: usize = 0;
    while i < row.len()
        invariant
            0 <= i <= row.len(),
            forall|j: int| 0 <= j < i ==> row@[j] == Tile::Green,
        decreases row.len() - i,
    {
        if row[i] != Tile::Green {
            return false;
        }
        i = i + 1;
    }
    true
}

proof fn lemma_split_lines_nonempty(s: Seq<char>)
    ensures
        split_lines(s).len() >= 1,
    decreases s.len(),
{
    if s.len() > 0 {
        lemma_split_lines_nonempty(s.drop_last());
    }
}

/// Drops the carriage return of a `\r\n` ending.
fn strip_line_end(cur: &mut Vec<char>)
    ensures
        final(cur)@ == strip_cr(old(cur)@),
{
    if cur.len() > 0 && cur[cur.len() - 1] == '\r' {
        cur.pop();
    }
}

/// The lines of `text`.
fn split_into_lines(text: &[char]) -> (r: Vec<Vec<char>>)
    ensures
        r@.map_values(|v: Vec<char>| v@) == lines_of(text@),
{
    let mut done: Vec<Vec<char>> = Vec::new();
    let mut cur: Vec<char> = Vec::new();
    let mut i: usize = 0;
    assert(text@.take(0) =~= Seq::<char>::empty());
    while i < text.len()
        invariant
            0 <= i <= text.len(),
            split_lines(text@.take(i as int)).len() >= 1,
            split_lines(text@.take(i as int)).last() == cur@,
            split_lines(text@.take(i as int)).drop_last().map_values(|l: Seq<char>| strip_cr(l))
                == done@.map_values(|v: Vec<char>| v@),
        decreases text.len() - i,
    {
        let ghost sp = split_lines(text@.take(i as int));
        let c = text[i];
        assert(text@.take(i as int + 1).drop_last() =~= text@.take(i as int));
        assert(text@.take(i as int + 1).last() == c);
        if c == '\n' {
            let ghost dv = done@.map_values(|v: Vec<char>| v@);
            let mut line = cur;
            strip_line_end(&mut line);
            done.push(line);
            cur = Vec::new();
            assert(sp.push(Seq::empty()).drop_last() =~= sp);
            assert(sp.map_values(|l: Seq<char>| strip_cr(l)) =~= sp.drop_last().map_values(
                |l: Seq<char>| strip_cr(l),
            ).push(strip_cr(sp.last())));
            assert(done@.map_values(|v: Vec<char>| v@) =~= dv.push(strip_cr(sp.last())));
        } else {
            cur.push(c);
            let ghost sp2 = sp.update(sp.len() - 1, sp.last().push(c));
            assert(sp2.drop_last() =~= sp.drop_last());
        }
        i = i + 1;
    }
    assert(text@.take(i as int) =~= text@);
    let ghost sp = split_lines(text@);
    let ghost dv = done@.map_values(|v: Vec<char>| v@);
    strip_line_end(&mut cur);
    done.push(cur);
    assert(sp.map_values(|l: Seq<char>| strip_cr(l)) =~= sp.drop_last().map_values(
        |l: Seq<char>| strip_cr(l),
    ).push(strip_cr(sp.last())));
    assert(done@.map_values(|v: Vec<char>| v@) =~= dv.push(strip_cr(sp.last())));
    done
}

/// The tiles of a non-blank line, where each of its tokens names one.
fn row_of_line(line: &Vec<char>) -> (r: Option<Vec<Tile>>)
    ensures
        match r {
            Some(row) => row_of_tokens(tokens_of(line@)) == Some(row@),
            None => row_of_tokens(tokens_of(line@)) is None,
        },
{
    let tokens = line_tokens(line);
    let mut row: Vec<Tile> = Vec::new();
    let ghost ts = tokens@.map_values(|v: Vec<char>| v@);
    let mut j: usize = 0;
    while j < tokens.len()
        invariant
            ts == tokens@.map_values(|v: Vec<char>| v@),
            ts == tokens_of(line@),
            0 <= j <= tokens.len(),
            row_of_tokens(ts.take(j as int)) == Some(row@),
        decreases tokens.len() - j,
    {
        let t = Tile::from_token(tokens[j].as_slice());
        assert(ts.take(j as int + 1).drop_last() =~= ts.take(j as int));
        assert(tokens[j as int]@ == ts[j as int]);
        match t {
            None => {
                proof {
                    lemma_row_of_tokens_prefix(ts, j as int + 1);
                }
                return None;
            },
            Some(tile) => {
                row.push(tile);
            },
        }
        j = j + 1;
    }
    assert(ts.take(j as int) =~= ts);
    Some(row)
}

/// A token that names no tile spoils every longer list of tokens too.
proof fn lemma_row_of_tokens_prefix(ts: Seq<Seq<char>>, k: int)
    requires
        0 <= k <= ts.len(),
        row_of_tokens(ts.take(k)) is None,
    ensures
        row_of_tokens(ts) is None,
    decreases ts.len(),
{
    if k < ts.len() {
        assert(ts.drop_last().take(k) =~= ts.take(k));
        lemma_row_of_tokens_prefix(ts.drop_last(), k);
    } else {
        assert(ts.take(k) =~= ts);
    }
}

proof fn lemma_alias_tokens_nonempty(l: Seq<char>)
    ensures
        alias_tokens(l).len() >= 1,
    decreases l.len(),
{
    if l.len() >= 2 && l[0] == ':' && l[1] == ':' {
        lemma_alias_tokens_nonempty(l.skip(2));
    } else if l.len() > 0 {
        lemma_alias_tokens_nonempty(l.skip(1));
    }
}

/// Whether `line` holds two colons in a row.
fn double_colon_in(line: &Vec<char>) -> (r: bool)
    ensures
        r == has_double_colon(line@),
{
    let mut i: usize = 0;
    while i < line.len()
        invariant
            0 <= i <= line.len(),
            forall|j: int| 0 <= j < i && j + 1 < line.len() ==> !(line@[j] == ':' && #[trigger] line@[j + 1] == ':'),
        decreases line.len() - i,
    {
        if i + 1 < line.len() && line[i] == ':' && line[i + 1] == ':' {
            assert(line@[i as int + 1] == ':');
            return true;
        }
        i = i + 1;
    }
    false
}

/// The pieces of `line` between `::` separators, without other colons.
fn split_aliases(line: &Vec<char>) -> (r: Vec<Vec<char>>)
    ensures
        r@.map_values(|v: Vec<char>| v@) == alias_tokens(line@),
{
    let mut done: Vec<Vec<char>> = Vec::new();
    let mut cur: Vec<char> = Vec::new();
    let mut i: usize = 0;
    let n = line.len();
    assert(line@.skip(0) =~= line@);
    proof {
        lemma_alias_tokens_nonempty(line@);
        let t = alias_tokens(line@);
        assert(Seq::<char>::empty() + t[0] =~= t[0]);
        assert(t.update(0, t[0]) =~= t);
        assert(Seq::<Vec<char>>::empty().map_values(|v: Vec<char>| v@) + t =~= t);
    }
    while i < n
        invariant
            n == line.len(),
            0 <= i <= n,
            alias_tokens(line@.skip(i as int)).len() >= 1,
            alias_tokens(line@) == done@.map_values(|v: Vec<char>| v@) + alias_tokens(
                line@.skip(i as int),
            ).update(0, cur@ + alias_tokens(line@.skip(i as int))[0]),
        decreases n - i,
    {
        let ghost rest = line@.skip(i as int);
        let ghost dv = done@.map_values(|v: Vec<char>| v@);
        if i + 1 < n && line[i] == ':' && line[i + 1] == ':' {
            assert(rest.skip(2) =~= line@.skip(i as int + 2));
            proof {
                lemma_alias_tokens_nonempty(rest.skip(2));
            }
            let ghost tail = alias_tokens(rest.skip(2));
            let piece = cur;
            done.push(piece);
            cur = Vec::new();
            assert(cur@ + tail[0] =~= tail[0]);
            assert(tail.update(0, tail[0]) =~= tail);
            assert(done@.map_values(|v: Vec<char>| v@) =~= dv.push(piece@));
            assert(alias_tokens(rest) =~= seq![Seq::<char>::empty()] + tail);
            assert(dv + alias_tokens(rest).update(0, piece@ + alias_tokens(rest)[0]) =~= dv.push(
                piece@,
            ) + tail);
            i = i + 2;
        } else {
            let c = line[i];
            assert(rest.skip(1) =~= line@.skip(i as int + 1));
            proof {
                lemma_alias_tokens_nonempty(rest.skip(1));
            }
            let ghost tail = alias_tokens(rest.skip(1));
            if c != ':' {
                let ghost old_cur = cur@;
                cur.push(c);
                assert(alias_tokens(rest) == tail.update(0, seq![c] + tail[0]));
                assert(old_cur + (seq![c] + tail[0]) =~= cur@ + tail[0]);
                assert(alias_tokens(rest).update(0, old_cur + alias_tokens(rest)[0]) =~= tail.update(
                    0,
                    cur@ + tail[0],
                ));
            }
            i = i + 1;
        }
    }
    let ghost dv = done@.map_values(|v: Vec<char>| v@);
    assert(line@.skip(n as int) =~= Seq::<char>::empty());
    assert(alias_tokens(Seq::<char>::empty()) =~= seq![Seq::<char>::empty()]);
    done.push(cur);
    assert(done@.map_values(|v: Vec<char>| v@) =~= dv + seq![Seq::<char>::empty()].update(
        0,
        cur@ + Seq::<char>::empty(),
    ));
    done
}

/// Each character of `line` as a token of its own.
fn split_glyphs(line: &Vec<char>) -> (r: Vec<Vec<char>>)
    ensures
        r@.map_values(|v: Vec<char>| v@) == glyph_tokens(line@),
{
    let mut done: Vec<Vec<char>> = Vec::new();
    let mut i: usize = 0;
    while i < line.len()
        invariant
            0 <= i <= line.len(),
            done@.map_values(|v: Vec<char>| v@) == glyph_tokens(line@.take(i as int)),
        decreases line.len() - i,
    {
        let ghost dv = done@.map_values(|v: Vec<char>| v@);
        let mut token: Vec<char> = Vec::new();
        token.push(line[i]);
        assert(token@ =~= seq![line@[i as int]]);
        done.push(token);
        assert(done@.map_values(|v: Vec<char>| v@) =~= dv.push(token@));
        assert(glyph_tokens(line@.take(i as int + 1)) =~= glyph_tokens(line@.take(i as int)).push(
            seq![line@[i as int]],
        ));
        i = i + 1;
    }
    assert(line@.take(i as int) =~= line@);
    done
}

/// The tokens of a line.
fn line_tokens(line: &Vec<char>) -> (r: Vec<Vec<char>>)
    ensures
        r@.map_values(|v: Vec<char>| v@) == tokens_of(line@),
{
    if double_colon_in(line) {
        split_aliases(line)
    } else {
        split_glyphs(line)
    }
}

proof fn lemma_split_no_newline(b: Seq<char>)
    requires
        forall|i: int| 0 <= i < b.len() ==> #[trigger] b[i] != '\n',
    ensures
        split_lines(b) == seq![b],
    decreases b.len(),
{
    if b.len() > 0 {
        lemma_split_no_newline(b.drop_last());
        assert(b.drop_last().push(b.last()) =~= b);
        assert(seq![b.drop_last()].update(0, b.drop_last().push(b.last())) =~= seq![b]);
    } else {
        assert(b =~= Seq::<char>::empty());
    }
}

proof fn lemma_split_concat(a: Seq<char>, b: Seq<char>)
    ensures
        split_lines(a + seq!['\n'] + b) == split_lines(a) + split_lines(b),
    decreases b.len(),
{
    let s = a + seq!['\n'] + b;
    lemma_split_lines_nonempty(a);
    if b.len() == 0 {
        assert(s.drop_last() =~= a);
        assert(split_lines(b) =~= seq![Seq::<char>::empty()]);
        assert(split_lines(a).push(Seq::empty()) =~= split_lines(a) + seq![Seq::<char>::empty()]);
    } else {
        lemma_split_concat(a, b.drop_last());
        lemma_split_lines_nonempty(b.drop_last());
        assert(s.drop_last() =~= a + seq!['\n'] + b.drop_last());
        assert(s.last() == b.last());
        let pa = split_lines(a);
        let pb = split_lines(b.drop_last());
        if b.last() == '\n' {
            assert((pa + pb).push(Seq::empty()) =~= pa + pb.push(Seq::empty()));
        } else {
            assert((pa + pb).update((pa + pb).len() - 1, (pa + pb).last().push(b.last())) =~= pa
                + pb.update(pb.len() - 1, pb.last().push(b.last())));
        }
    }
}

proof fn lemma_lines_concat(a: Seq<char>, b: Seq<char>)
    ensures
        lines_of(a + seq!['\n'] + b) == lines_of(a) + lines_of(b),
{
    lemma_split_concat(a, b);
    assert((split_lines(a) + split_lines(b)).map_values(|l: Seq<char>| strip_cr(l)) =~= split_lines(
        a,
    ).map_values(|l: Seq<char>| strip_cr(l)) + split_lines(b).map_values(|l: Seq<char>| strip_cr(l)));
}

proof fn lemma_row_text_plain(row: Seq<Tile>)
    ensures
        forall|i: int| 0 <= i < row_text(row).len() ==> #[trigger] row_text(row)[i] != '\n'
            && row_text(row)[i] != '\r' && row_text(row)[i] != ':',
        row_text(row).len() == row.len(),
        lines_of(row_text(row)) == seq![row_text(row)],
        !has_double_colon(row_text(row)),
{
    let t = row_text(row);
    lemma_split_no_newline(t);
    assert(seq![t].map_values(|l: Seq<char>| strip_cr(l)) =~= seq![strip_cr(t)]);
    if t.len() > 0 {
        assert(t.last() == glyph_of(row.last()));
    }
}

proof fn lemma_row_tokens(row: Seq<Tile>)
    ensures
        row_of_tokens(tokens_of(row_text(row))) == Some(row),
    decreases row.len(),
{
    lemma_row_text_plain(row);
    let ts = glyph_tokens(row_text(row));
    if row.len() == 0 {
        assert(ts =~= Seq::<Seq<char>>::empty());
        assert(row =~= Seq::<Tile>::empty());
    } else {
        lemma_row_tokens(row.drop_last());
        lemma_row_text_plain(row.drop_last());
        assert(ts.drop_last() =~= glyph_tokens(row_text(row.drop_last())));
        assert(ts.last() == seq![glyph_of(row.last())]);
        lemma_glyph_names_tile(row.last());
        assert(row.drop_last().push(row.last()) =~= row);
    }
}

proof fn lemma_lines_of_board(rows: Seq<Seq<Tile>>)
    requires
        rows.len() >= 1,
    ensures
        lines_of(board_text(rows)) == rows.map_values(|r: Seq<Tile>| row_text(r)),
    decreases rows.len(),
{
    if rows.len() == 1 {
        lemma_row_text_plain(rows[0]);
        assert(rows.map_values(|r: Seq<Tile>| row_text(r)) =~= seq![row_text(rows[0])]);
    } else {
        lemma_lines_of_board(rows.drop_last());
        lemma_lines_concat(board_text(rows.drop_last()), row_text(rows.last()));
        lemma_row_text_plain(rows.last());
        assert(rows.map_values(|r: Seq<Tile>| row_text(r)) =~= rows.drop_last().map_values(
            |r: Seq<Tile>| row_text(r),
        ) + seq![row_text(rows.last())]);
    }
}

/// Scanning lines that hold the rows from index `off` on gives back the rows.
proof fn lemma_scan_rows(lines: Seq<Seq<char>>, off: int, rows: Seq<Seq<Tile>>, k: int)
    requires
        0 <= off,
        0 <= k <= rows.len() <= MAX_ROWS,
        lines.len() >= off + rows.len(),
        lines.len() == off + rows.len() || rows.len() == MAX_ROWS,
        forall|i: int| 0 <= i < rows.len() ==> lines[off + i] == row_text(#[trigger] rows[i]),
        forall|i: int| 0 <= i < rows.len() ==> 1 <= #[trigger] rows[i].len() <= MAX_TILES,
    ensures
        scan_rows(lines, off + k, rows.take(k)) == Ok::<Seq<Seq<Tile>>, ParseError>(rows),
    decreases rows.len() - k,
{
    if k == rows.len() {
        assert(rows.take(k) =~= rows);
    } else {
        let line = lines[off + k];
        assert(line == row_text(rows[k]));
        lemma_row_text_plain(rows[k]);
        lemma_row_tokens(rows[k]);
        assert(rows.take(k).push(rows[k]) =~= rows.take(k + 1));
        lemma_scan_rows(lines, off, rows, k + 1);
    }
}

/// A board read back from its own text has the same rows.
pub proof fn lemma_board_round_trip(rows: Seq<Seq<Tile>>)
    requires
        valid_rows(rows),
    ensures
        board_of(board_text(rows)) == Ok::<Seq<Seq<Tile>>, ParseError>(rows),
{
    lemma_lines_of_board(rows);
    let lines = lines_of(board_text(rows));
    assert forall|i: int| 0 <= i < rows.len() implies lines[0 + i] == row_text(#[trigger] rows[i]) by {
    }
    lemma_scan_rows(lines, 0, rows, 0);
    assert(rows.take(0) =~= Seq::<Seq<Tile>>::empty());
}

/// A board preceded by a blank line reads as the board alone.
pub proof fn lemma_board_after_blank_line(rows: Seq<Seq<Tile>>)
    requires
        valid_rows(rows),
    ensures
        board_of(seq!['\n'] + board_text(rows)) == Ok::<Seq<Seq<Tile>>, ParseError>(rows),
{
    lemma_lines_of_board(rows);
    lemma_lines_concat(Seq::empty(), board_text(rows));
    assert(Seq::<char>::empty() + seq!['\n'] + board_text(rows) =~= seq!['\n'] + board_text(rows));
    lemma_split_no_newline(Seq::empty());
    let lines = lines_of(seq!['\n'] + board_text(rows));
    assert(lines_of(Seq::empty()) =~= seq![Seq::<char>::empty()]);
    assert(lines[0].len() == 0);
    assert forall|i: int| 0 <= i < rows.len() implies lines[1 + i] == row_text(#[trigger] rows[i]) by {
    }
    lemma_scan_rows(lines, 1, rows, 0);
    assert(rows.take(0) =~= Seq::<Seq<Tile>>::empty());
    assert(scan_rows(lines, 0, Seq::empty()) == scan_rows(lines, 1, Seq::empty()));
}

/// A board of one row is read only where every tile of the row is green.
pub proof fn lemma_single_row(row: Seq<Tile>)
    requires
        1 <= row.len() <= MAX_TILES,
    ensures
        all_green(row) ==> board_of(row_text(row)) == Ok::<Seq<Seq<Tile>>, ParseError>(seq![row]),
        !all_green(row) ==> board_of(row_text(row)) == Err::<Seq<Seq<Tile>>, ParseError>(
            ParseError::MalformedBoard { defect: BoardDefect::SingleRowNotGreen },
        ),
{
    let rows = seq![row];
    lemma_lines_of_board(rows);
    assert(board_text(rows) == row_text(row));
    let lines = lines_of(board_text(rows));
    assert forall|i: int| 0 <= i < rows.len() implies lines[0 + i] == row_text(#[trigger] rows[i]) by {
    }
    lemma_scan_rows(lines, 0, rows, 0);
    assert(rows.take(0) =~= Seq::<Seq<Tile>>::empty());
}

/// Lines after the sixth row are never read: a board of six rows followed by
/// any text reads as the six rows.
pub proof fn lemma_rows_after_sixth_ignored(rows: Seq<Seq<Tile>>, rest: Seq<char>)
    requires
        valid_rows(rows),
        rows.len() == MAX_ROWS,
    ensures
        board_of(board_text(rows) + seq!['\n'] + rest) == Ok::<Seq<Seq<Tile>>, ParseError>(rows),
{
    lemma_lines_of_board(rows);
    lemma_lines_concat(board_text(rows), rest);
    let lines = lines_of(board_text(rows) + seq!['\n'] + rest);
    assert forall|i: int| 0 <= i < rows.len() implies lines[0 + i] == row_text(#[trigger] rows[i]) by {
    }
    lemma_scan_rows(lines, 0, rows, 0);
    assert(rows.take(0) =~= Seq::<Seq<Tile>>::empty());
}

/// The lines that are not blank, in order.
pub open spec fn nonblank(lines: Seq<Seq<char>>) -> Seq<Seq<char>>
    decreases lines.len(),
{
    if lines.len() == 0 {
        Seq::empty()
    } else if lines[0].len() == 0 {
        nonblank(lines.drop_first())
    } else {
        seq![lines[0]] + nonblank(lines.drop_first())
    }
}

/// The tiles of a line, where each of its tokens names one.
pub open spec fn line_row(line: Seq<char>) -> Option<Seq<Tile>> {
    row_of_tokens(tokens_of(line))
}

/// Whether a line holds a row the board can take: tiles only, at most five.
pub open spec fn fits_row(line: Seq<char>) -> bool {
    line_row(line) is Some && line_row(line).unwrap().len() <= MAX_TILES
}

/// The rows of the first `m` lines.
pub open spec fn rows_of_lines(ls: Seq<Seq<char>>, m: int) -> Seq<Seq<Tile>> {
    Seq::new(m as nat, |i: int| line_row(ls[i]).unwrap())
}

proof fn lemma_scan_nonblank(lines: Seq<Seq<char>>, k: int, acc: Seq<Seq<Tile>>)
    requires
        0 <= k <= lines.len(),
        acc.len() <= MAX_ROWS,
        forall|i: int|
            0 <= i < MAX_ROWS - acc.len() && i < nonblank(lines.skip(k)).len() ==> fits_row(
                #[trigger] nonblank(lines.skip(k))[i],
            ),
    ensures
        ({
            let ne = nonblank(lines.skip(k));
            let m = if ne.len() < MAX_ROWS - acc.len() {
                ne.len() as int
            } else {
                MAX_ROWS - acc.len()
            };
            scan_rows(lines, k, acc) == Ok::<Seq<Seq<Tile>>, ParseError>(acc + rows_of_lines(ne, m))
        }),
    decreases lines.len() - k,
{
    let rest = lines.skip(k);
    let ne = nonblank(rest);
    if k == lines.len() {
        assert(rest.len() == 0);
        assert(acc + rows_of_lines(ne, 0) =~= acc);
    } else if acc.len() >= MAX_ROWS {
        assert(acc + rows_of_lines(ne, 0) =~= acc);
    } else {
        assert(rest.drop_first() =~= lines.skip(k + 1));
        assert(rest[0] == lines[k]);
        let ne1 = nonblank(lines.skip(k + 1));
        if lines[k].len() == 0 {
            assert(ne == ne1);
            lemma_scan_nonblank(lines, k + 1, acc);
        } else {
            assert(ne == seq![lines[k]] + ne1);
            assert(ne[0] == lines[k]);
            assert(fits_row(ne[0]));
            let row = line_row(lines[k]).unwrap();
            assert forall|i: int|
                0 <= i < MAX_ROWS - acc.push(row).len() && i < ne1.len() implies fits_row(
                #[trigger] ne1[i],
            ) by {
                assert(ne[i + 1] == ne1[i]);
            }
            lemma_scan_nonblank(lines, k + 1, acc.push(row));
            let m = if ne.len() < MAX_ROWS - acc.len() {
                ne.len() as int
            } else {
                MAX_ROWS - acc.len()
            };
            let m1 = if ne1.len() < MAX_ROWS - acc.push(row).len() {
                ne1.len() as int
            } else {
                MAX_ROWS - acc.push(row).len()
            };
            assert(m1 == m - 1);
            assert forall|i: int| 0 <= i < m1 implies #[trigger] ne1[i] == ne[i + 1] by {
            }
            assert(acc.push(row) + rows_of_lines(ne1, m1) =~= acc + rows_of_lines(ne, m));
        }
    }
}

/// A board reads as the rows of its first six non-blank lines, wherever the
/// blank lines stand and however the tiles are written, so long as those
/// lines hold rows; later lines are never read. It is refused where no line
/// holds a row, or where the only row is not all green.
pub proof fn lemma_board_of_rows(text: Seq<char>)
    requires
        forall|i: int|
            0 <= i < MAX_ROWS && i < nonblank(lines_of(text)).len() ==> fits_row(
                #[trigger] nonblank(lines_of(text))[i],
            ),
    ensures
        ({
            let ne = nonblank(lines_of(text));
            let m = if ne.len() < MAX_ROWS {
                ne.len() as int
            } else {
                MAX_ROWS as int
            };
            let rows = rows_of_lines(ne, m);
            &&& m == 0 ==> board_of(text) == Err::<Seq<Seq<Tile>>, ParseError>(
                ParseError::MalformedBoard { defect: BoardDefect::NoRows },
            )
            &&& m == 1 && !all_green(rows[0]) ==> board_of(text) == Err::<Seq<Seq<Tile>>, ParseError>(
                ParseError::MalformedBoard { defect: BoardDefect::SingleRowNotGreen },
            )
            &&& (m > 1 || (m == 1 && all_green(rows[0]))) ==> board_of(text) == Ok::<
                Seq<Seq<Tile>>,
                ParseError,
            >(rows)
        }),
{
    let lines = lines_of(text);
    assert(lines.skip(0) =~= lines);
    lemma_scan_nonblank(lines, 0, Seq::empty());
    let ne = nonblank(lines);
    let m = if ne.len() < MAX_ROWS {
        ne.len() as int
    } else {
        MAX_ROWS as int
    };
    assert(Seq::<Seq<Tile>>::empty() + rows_of_lines(ne, m) =~= rows_of_lines(ne, m));
}

} // verus!
