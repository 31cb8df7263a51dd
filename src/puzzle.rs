//! A shared result: the header line with the puzzle's number, the guesses
//! used and the hard-mode mark, followed by the board.

use vstd::prelude::*;
use vstd::slice::slice_subrange;
use crate::board::{board_of, board_text, strip_cr, PuzzleBoard};
use crate::error::ParseError;
use crate::text::{
    chars_of, decimal, digit_char, digit_value, digits_and_commas, grouped, lemma_digit_char,
    lemma_ungroup_grouped, push_decimal, is_well_grouped, lemma_grouped_well_formed,
    lemma_well_grouped_canonical, well_grouped, push_grouped, same_chars_slice, string_of, ungroup,
    ungrouped,
};
use crate::tile::Tile;

verus! {

/// The guesses a game allows.
pub const MAX_ATTEMPTS: u32 = 6;

/// The text that opens every header.
pub open spec fn header_prefix() -> Seq<char> {
    seq!['W', 'o', 'r', 'd', 'l', 'e', ' ']
}

/// The guesses used, or `X` for a game that was not solved.
pub open spec fn attempts_token(attempts: nat, solved: bool) -> Seq<char> {
    if solved {
        decimal(attempts)
    } else {
        seq!['X']
    }
}

/// The header line: `Wordle 1,234 4/6`, with `*` at the end in hard mode.
pub open spec fn header_text(day: nat, attempts: nat, solved: bool, hard: bool) -> Seq<char> {
    header_prefix() + grouped(day) + seq![' '] + attempts_token(attempts, solved) + seq!['/', '6']
        + if hard {
        seq!['*']
    } else {
        Seq::empty()
    }
}

/// The guesses of a solved game number one to six; a game that was not
/// solved counts as six.
pub open spec fn fields_ok(attempts: nat, solved: bool) -> bool {
    if solved {
        1 <= attempts <= MAX_ATTEMPTS
    } else {
        attempts == MAX_ATTEMPTS
    }
}

/// Whether `line` is the header of a game with these fields.
pub open spec fn header_matches(line: Seq<char>, day: u32, attempts: u32, solved: bool, hard: bool) -> bool {
    fields_ok(attempts as nat, solved) && line == header_text(day as nat, attempts as nat, solved, hard)
}

/// Whether `line` has the form of a header with the day offset written as
/// the digits and commas `g`, whatever their value.
pub open spec fn header_shape(line: Seq<char>, g: Seq<char>, attempts: u32, solved: bool, hard: bool) -> bool {
    &&& fields_ok(attempts as nat, solved)
    &&& digits_and_commas(g)
    &&& line == header_prefix() + g + seq![' '] + attempts_token(attempts as nat, solved) + seq![
        '/',
        '6',
    ] + if hard {
        seq!['*']
    } else {
        Seq::empty()
    }
}

/// Whether `line` is a header but for a day offset too large for `u32`: the
/// offset is written in the grouped form of its value.
pub open spec fn header_too_large(line: Seq<char>, g: Seq<char>, attempts: u32, solved: bool, hard: bool) -> bool {
    &&& header_shape(line, g, attempts, solved, hard)
    &&& ungrouped(g) > u32::MAX
    &&& g == grouped(ungrouped(g))
}

/// The index of the first line feed of `s`, or its length where it has none.
pub open spec fn first_line_end(s: Seq<char>) -> int
    decreases s.len(),
{
    if s.len() == 0 || s[0] == '\n' {
        0
    } else {
        1 + first_line_end(s.skip(1))
    }
}

/// The first line of `s`.
pub open spec fn first_line(s: Seq<char>) -> Seq<char> {
    strip_cr(s.take(first_line_end(s)))
}

/// What follows the first line of `s`.
pub open spec fn after_first_line(s: Seq<char>) -> Seq<char> {
    if first_line_end(s) < s.len() {
        s.skip(first_line_end(s) + 1)
    } else {
        Seq::empty()
    }
}

/// The canonical text of a game: the header, a blank line, and the board.
pub open spec fn puzzle_text(day: nat, attempts: nat, solved: bool, hard: bool, rows: Seq<Seq<Tile>>) -> Seq<char> {
    header_text(day, attempts, solved, hard) + seq!['\n', '\n'] + board_text(rows)
}

/// One game as a player shared it.
#[derive(Clone, Debug)]
pub struct Puzzle {
    /// The number of the day's puzzle, counted from the game's launch.
    pub day_offset: u32,
    /// The guesses used; six where the game was not solved.
    pub attempts: u32,
    pub solved: bool,
    pub hard_mode: bool,
    pub board: PuzzleBoard,
}

/// What a line of the form of a header states of the character at each
/// place.
pub proof fn lemma_shape_facts(line: Seq<char>, g: Seq<char>, attempts: u32, solved: bool, hard: bool)
    requires
        header_shape(line, g, attempts, solved, hard),
    ensures
        ({
            let l = g.len() as int;
            &&& line.len() == l + 11 + if hard {
                1int
            } else {
                0int
            }
            &&& line[0] == 'W' && line[1] == 'o' && line[2] == 'r' && line[3] == 'd'
            &&& line[4] == 'l' && line[5] == 'e' && line[6] == ' '
            &&& line.subrange(7, 7 + l) == g
            &&& forall|k: int| 7 <= k < 7 + l ==> #[trigger] line[k] != ' ' && line[k] != '\n'
            &&& line[7 + l] == ' '
            &&& line[8 + l] == if solved {
                digit_char(attempts as nat)
            } else {
                'X'
            }
            &&& line[9 + l] == '/' && line[10 + l] == '6'
            &&& hard ==> line[11 + l] == '*'
            &&& forall|k: int| 0 <= k < line.len() ==> #[trigger] line[k] != '\n'
            &&& line.last() != '\r'
        }),
{
    let l = g.len() as int;
    if solved {
        lemma_digit_char(attempts as nat);
        assert(decimal(attempts as nat) =~= seq![digit_char(attempts as nat)]);
    }
    let tok = attempts_token(attempts as nat, solved);
    assert(tok.len() == 1);
    let star = if hard {
        seq!['*']
    } else {
        Seq::<char>::empty()
    };
    assert(line =~= header_prefix() + g + seq![' '] + tok + seq!['/', '6'] + star);
    assert(line.subrange(7, 7 + l) =~= g);
    assert forall|k: int| 7 <= k < 7 + l implies #[trigger] line[k] != ' ' && line[k] != '\n' by {
        assert(line[k] == g[k - 7]);
    }
    assert forall|k: int| 0 <= k < line.len() implies #[trigger] line[k] != '\n' by {
        if 7 <= k < 7 + l {
            assert(line[k] == g[k - 7]);
        }
    }
}

/// What a header line states of the character at each place.
pub proof fn lemma_header_facts(line: Seq<char>, day: u32, attempts: u32, solved: bool, hard: bool)
    requires
        header_matches(line, day, attempts, solved, hard),
    ensures
        header_shape(line, grouped(day as nat), attempts, solved, hard),
        ungrouped(grouped(day as nat)) == day,
        ({
            let g = grouped(day as nat);
            let l = g.len() as int;
            &&& line.len() == l + 11 + if hard {
                1int
            } else {
                0int
            }
            &&& line[0] == 'W' && line[1] == 'o' && line[2] == 'r' && line[3] == 'd'
            &&& line[4] == 'l' && line[5] == 'e' && line[6] == ' '
            &&& line.subrange(7, 7 + l) == g
            &&& forall|k: int| 7 <= k < 7 + l ==> #[trigger] line[k] != ' ' && line[k] != '\n'
            &&& digits_and_commas(g)
            &&& line[7 + l] == ' '
            &&& line[8 + l] == if solved {
                digit_char(attempts as nat)
            } else {
                'X'
            }
            &&& line[9 + l] == '/' && line[10 + l] == '6'
            &&& hard ==> line[11 + l] == '*'
            &&& forall|k: int| 0 <= k < line.len() ==> #[trigger] line[k] != '\n'
            &&& line.last() != '\r'
        }),
{
    lemma_ungroup_grouped(day as nat);
    lemma_shape_facts(line, grouped(day as nat), attempts, solved, hard);
}

/// A line laid out as a header around the digits and commas `digits`, whose
/// value exceeds `u32`, is a header but for its day offset.
proof fn lemma_too_large_witness(
    line: Seq<char>,
    digits: Seq<char>,
    sp: int,
    attempts: u32,
    solved: bool,
    hard: bool,
)
    requires
        7 <= sp,
        line.len() == sp + 4 + if hard {
            1int
        } else {
            0int
        },
        line[0] == 'W' && line[1] == 'o' && line[2] == 'r' && line[3] == 'd',
        line[4] == 'l' && line[5] == 'e' && line[6] == ' ',
        line.subrange(7, sp) == digits,
        digits_and_commas(digits),
        ungrouped(digits) > u32::MAX,
        well_grouped(digits),
        line[sp] == ' ',
        solved ==> '1' <= line[sp + 1] <= '6' && attempts == line[sp + 1] as u32 - '0' as u32,
        !solved ==> line[sp + 1] == 'X' && attempts == MAX_ATTEMPTS,
        line[sp + 2] == '/' && line[sp + 3] == '6',
        hard ==> line[sp + 4] == '*',
    ensures
        exists|g: Seq<char>| #[trigger] header_too_large(line, g, attempts, solved, hard),
{
    if solved {
        lemma_digit_char(attempts as nat);
        assert(digit_char(attempts as nat) == line[sp + 1]);
        assert(decimal(attempts as nat) =~= seq![digit_char(attempts as nat)]);
    }
    let star = if hard {
        seq!['*']
    } else {
        Seq::<char>::empty()
    };
    assert(line =~= header_prefix() + digits + seq![' '] + attempts_token(attempts as nat, solved)
        + seq!['/', '6'] + star);
    lemma_well_grouped_canonical(digits);
    assert(header_too_large(line, digits, attempts, solved, hard));
}

/// The fields of any header that `line` is, with `None` in place of a day
/// offset too large for `u32`; `None` only where `line` is neither.
#[verifier::rlimit(40)]
fn header_candidate(line: &[char]) -> (r: Option<(Option<u32>, u32, bool, bool)>)
    ensures
        forall|d: u32, a: u32, s: bool, h: bool| #[trigger]
            header_matches(line@, d, a, s, h) ==> r == Some((Some(d), a, s, h)),
        forall|g: Seq<char>, a: u32, s: bool, h: bool| #[trigger]
            header_too_large(line@, g, a, s, h) ==> r == Some((None::<u32>, a, s, h)),
        r is Some && r.unwrap().0 is None ==> exists|g: Seq<char>| #[trigger]
            header_too_large(line@, g, r.unwrap().1, r.unwrap().2, r.unwrap().3),
{
    let n = line.len();
    if n < 7 || line[0] != 'W' || line[1] != 'o' || line[2] != 'r' || line[3] != 'd' || line[4]
        != 'l' || line[5] != 'e' || line[6] != ' ' {
        proof {
            assert forall|d: u32, a: u32, s: bool, h: bool| #[trigger]
                header_matches(line@, d, a, s, h) implies false by {
                lemma_header_facts(line@, d, a, s, h);
            }
            assert forall|g: Seq<char>, a: u32, s: bool, h: bool| #[trigger]
                header_too_large(line@, g, a, s, h) implies false by {
                lemma_shape_facts(line@, g, a, s, h);
            }
        }
        return None;
    }
    let mut sp: usize = 7;
    while sp < n && line[sp] != ' '
        invariant
            n == line.len(),
            7 <= sp <= n,
            forall|k: int| 7 <= k < sp ==> line@[k] != ' ',
        decreases n - sp,
    {
        sp = sp + 1;
    }
    if sp >= n {
        proof {
            assert forall|d: u32, a: u32, s: bool, h: bool| #[trigger]
                header_matches(line@, d, a, s, h) implies false by {
                lemma_header_facts(line@, d, a, s, h);
                let l = grouped(d as nat).len() as int;
                assert(line@[7 + l] == ' ');
            }
            assert forall|g: Seq<char>, a: u32, s: bool, h: bool| #[trigger]
                header_too_large(line@, g, a, s, h) implies false by {
                lemma_shape_facts(line@, g, a, s, h);
                assert(line@[7 + g.len() as int] == ' ');
            }
        }
        return None;
    }
    proof {
        assert forall|d: u32, a: u32, s: bool, h: bool| #[trigger]
            header_matches(line@, d, a, s, h) implies sp == 7 + grouped(d as nat).len() by {
            lemma_header_facts(line@, d, a, s, h);
            let l = grouped(d as nat).len() as int;
            assert(line@[7 + l] == ' ');
            if sp < 7 + l {
                assert(line@[sp as int] != ' ');
            }
        }
        assert forall|g: Seq<char>, a: u32, s: bool, h: bool| #[trigger]
            header_too_large(line@, g, a, s, h) implies sp == 7 + g.len() by {
            lemma_shape_facts(line@, g, a, s, h);
            assert(line@[7 + g.len() as int] == ' ');
            if sp < 7 + g.len() {
                assert(line@[sp as int] != ' ');
            }
        }
    }
    let digits = slice_subrange(line, 7, sp);
    let v = match ungroup(digits) {
        None => {
        proof {
            assert forall|d: u32, a: u32, s: bool, h: bool| #[trigger]
                header_matches(line@, d, a, s, h) implies false by {
                lemma_header_facts(line@, d, a, s, h);
                assert(digits@ == grouped(d as nat));
            }
            assert forall|g: Seq<char>, a: u32, s: bool, h: bool| #[trigger]
                header_too_large(line@, g, a, s, h) implies false by {
                lemma_shape_facts(line@, g, a, s, h);
                assert(digits@ == g);
            }
        }
            return None;
        },
        Some(v) => v,
    };
    proof {
        assert forall|d: u32, a: u32, s: bool, h: bool| #[trigger]
            header_matches(line@, d, a, s, h) implies v == Some(d) by {
            lemma_header_facts(line@, d, a, s, h);
            assert(digits@ == grouped(d as nat));
        }
        assert forall|g: Seq<char>, a: u32, s: bool, h: bool| #[trigger]
            header_too_large(line@, g, a, s, h) implies v is None by {
            lemma_shape_facts(line@, g, a, s, h);
            assert(digits@ == g);
        }
    }
    if v.is_none() && !is_well_grouped(digits) {
        proof {
            assert forall|d: u32, a: u32, s: bool, h: bool| #[trigger]
                header_matches(line@, d, a, s, h) implies false by {
            }
            assert forall|g: Seq<char>, a: u32, s: bool, h: bool| #[trigger]
                header_too_large(line@, g, a, s, h) implies false by {
                lemma_shape_facts(line@, g, a, s, h);
                assert(digits@ == g);
                lemma_grouped_well_formed(ungrouped(g));
            }
        }
        return None;
    }
    let t = sp + 1;
    if n - t < 3 {
        proof {
            assert forall|d: u32, a: u32, s: bool, h: bool| #[trigger]
                header_matches(line@, d, a, s, h) implies false by {
                lemma_header_facts(line@, d, a, s, h);
            }
            assert forall|g: Seq<char>, a: u32, s: bool, h: bool| #[trigger]
                header_too_large(line@, g, a, s, h) implies false by {
                lemma_shape_facts(line@, g, a, s, h);
            }
        }
        return None;
    }
    let c = line[t];
    let attempts: u32;
    let solved: bool;
    if '1' <= c && c <= '6' {
        attempts = c as u32 - '0' as u32;
        solved = true;
    } else if c == 'X' {
        attempts = MAX_ATTEMPTS;
        solved = false;
    } else {
        proof {
            assert forall|d: u32, a: u32, s: bool, h: bool| #[trigger]
                header_matches(line@, d, a, s, h) implies false by {
                lemma_header_facts(line@, d, a, s, h);
            }
            assert forall|g: Seq<char>, a: u32, s: bool, h: bool| #[trigger]
                header_too_large(line@, g, a, s, h) implies false by {
                lemma_shape_facts(line@, g, a, s, h);
            }
        }
        return None;
    }
    proof {
        assert forall|d: u32, a: u32, s: bool, h: bool| #[trigger]
            header_matches(line@, d, a, s, h) implies a == attempts && s == solved by {
            lemma_header_facts(line@, d, a, s, h);
            if s {
                lemma_digit_char(a as nat);
            }
        }
        assert forall|g: Seq<char>, a: u32, s: bool, h: bool| #[trigger]
            header_too_large(line@, g, a, s, h) implies a == attempts && s == solved by {
            lemma_shape_facts(line@, g, a, s, h);
            if s {
                lemma_digit_char(a as nat);
            }
        }
    }
    if line[t + 1] != '/' || line[t + 2] != '6' {
        proof {
            assert forall|d: u32, a: u32, s: bool, h: bool| #[trigger]
                header_matches(line@, d, a, s, h) implies false by {
                lemma_header_facts(line@, d, a, s, h);
            }
            assert forall|g: Seq<char>, a: u32, s: bool, h: bool| #[trigger]
                header_too_large(line@, g, a, s, h) implies false by {
                lemma_shape_facts(line@, g, a, s, h);
            }
        }
        return None;
    }
    let hard: bool;
    if t + 3 == n {
        hard = false;
    } else if t + 4 == n && line[t + 3] == '*' {
        hard = true;
    } else {
        proof {
            assert forall|d: u32, a: u32, s: bool, h: bool| #[trigger]
                header_matches(line@, d, a, s, h) implies false by {
                lemma_header_facts(line@, d, a, s, h);
            }
            assert forall|g: Seq<char>, a: u32, s: bool, h: bool| #[trigger]
                header_too_large(line@, g, a, s, h) implies false by {
                lemma_shape_facts(line@, g, a, s, h);
            }
        }
        return None;
    }
    proof {
        assert forall|d: u32, a: u32, s: bool, h: bool| #[trigger]
            header_matches(line@, d, a, s, h) implies h == hard by {
            lemma_header_facts(line@, d, a, s, h);
        }
        assert forall|g: Seq<char>, a: u32, s: bool, h: bool| #[trigger]
            header_too_large(line@, g, a, s, h) implies h == hard by {
            lemma_shape_facts(line@, g, a, s, h);
        }
        if v is None {
            lemma_too_large_witness(line@, digits@, sp as int, attempts, solved, hard);
        }
    }
    let r = Some((v, attempts, solved, hard));
    assert(r.unwrap().1 == attempts && r.unwrap().2 == solved && r.unwrap().3 == hard);
    assert(r is Some && r.unwrap().0 is None ==> exists|g: Seq<char>| #[trigger]
        header_too_large(line@, g, attempts, solved, hard));
    r
}

/// Appends the header line of a game with these fields.
pub fn push_header(day: u32, attempts: u32, solved: bool, hard: bool, out: &mut Vec<char>)
    ensures
        final(out)@ == old(out)@ + header_text(day as nat, attempts as nat, solved, hard),
{
    out.push('W');
    out.push('o');
    out.push('r');
    out.push('d');
    out.push('l');
    out.push('e');
    out.push(' ');
    let ghost p0 = out@;
    assert(p0 =~= old(out)@ + header_prefix());
    push_grouped(day as u64, out);
    out.push(' ');
    let ghost p1 = out@;
    if solved {
        push_decimal(attempts as u64, out);
    } else {
        out.push('X');
    }
    assert(out@ =~= p1 + attempts_token(attempts as nat, solved));
    out.push('/');
    out.push('6');
    if hard {
        out.push('*');
    }
    assert(final(out)@ =~= old(out)@ + header_text(day as nat, attempts as nat, solved, hard));
}

/// The fields of the header that `line` is; where it is none, whether it
/// would be one but for a day offset too large for `u32`.
pub fn parse_header(line: &[char]) -> (r: Result<(u32, u32, bool, bool), ParseError>)
    ensures
        r matches Ok((d, a, s, h)) ==> header_matches(line@, d, a, s, h),
        r is Err ==> forall|d: u32, a: u32, s: bool, h: bool| !#[trigger] header_matches(line@, d, a, s, h),
        r matches Err(e) ==> (e == ParseError::DayOffsetOutOfRange && exists|g: Seq<char>, a: u32, s: bool, h: bool| #[trigger]
            header_too_large(line@, g, a, s, h)) || (e == ParseError::MalformedHeader && forall|g: Seq<char>, a: u32, s: bool, h: bool|
            !#[trigger] header_too_large(line@, g, a, s, h)),
{
    match header_candidate(line) {
        None => Err(ParseError::MalformedHeader),
        Some((None, a, s, h)) => {
            assert(exists|g: Seq<char>| #[trigger] header_too_large(line@, g, a, s, h));
            Err(ParseError::DayOffsetOutOfRange)
        },
        Some((Some(d), a, s, h)) => {
            let ok = if s {
                1 <= a && a <= MAX_ATTEMPTS
            } else {
                a == MAX_ATTEMPTS
            };
            if !ok {
                return Err(ParseError::MalformedHeader);
            }
            let mut out: Vec<char> = Vec::new();
            push_header(d, a, s, h, &mut out);
            assert(out@ =~= header_text(d as nat, a as nat, s, h));
            if same_chars_slice(out.as_slice(), line) {
                Ok((d, a, s, h))
            } else {
                Err(ParseError::MalformedHeader)
            }
        },
    }
}

/// The index of the first line feed of `text`, or its length.
fn find_line_end(text: &[char]) -> (r: usize)
    ensures
        r as int == first_line_end(text@),
        r <= text.len(),
{
    let mut i: usize = 0;
    assert(text@.skip(0) =~= text@);
    while i < text.len() && text[i] != '\n'
        invariant
            0 <= i <= text.len(),
            first_line_end(text@) == i + first_line_end(text@.skip(i as int)),
        decreases text.len() - i,
    {
        assert(text@.skip(i as int).skip(1) =~= text@.skip(i as int + 1));
        i = i + 1;
    }
    i
}

impl Puzzle {
    /// Reads the game that `puzzle` shares.
    pub fn new(puzzle: &str) -> (r: Result<Puzzle, ParseError>)
        ensures
            match r {
                Ok(p) => {
                    &&& header_matches(first_line(puzzle@), p.day_offset, p.attempts, p.solved, p.hard_mode)
                    &&& board_of(after_first_line(puzzle@)) == Ok::<Seq<Seq<Tile>>, ParseError>(p.board.rows())
                },
                Err(ParseError::MalformedHeader) => {
                    &&& forall|d: u32, a: u32, s: bool, h: bool|
                        !#[trigger] header_matches(first_line(puzzle@), d, a, s, h)
                    &&& forall|g: Seq<char>, a: u32, s: bool, h: bool|
                        !#[trigger] header_too_large(first_line(puzzle@), g, a, s, h)
                },
                Err(ParseError::DayOffsetOutOfRange) => {
                    &&& forall|d: u32, a: u32, s: bool, h: bool|
                        !#[trigger] header_matches(first_line(puzzle@), d, a, s, h)
                    &&& exists|g: Seq<char>, a: u32, s: bool, h: bool| #[trigger]
                        header_too_large(first_line(puzzle@), g, a, s, h)
                },
                Err(e) => {
                    &&& exists|d: u32, a: u32, s: bool, h: bool| #[trigger]
                        header_matches(first_line(puzzle@), d, a, s, h)
                    &&& board_of(after_first_line(puzzle@)) == Err::<Seq<Seq<Tile>>, ParseError>(e)
                },
            },
    {
        let cs = chars_of(puzzle);
        Puzzle::parse_chars(cs.as_slice())
    }

    /// Reads the game that the characters `text` share.
    pub fn parse_chars(text: &[char]) -> (r: Result<Puzzle, ParseError>)
        ensures
            match r {
                Ok(p) => {
                    &&& header_matches(first_line(text@), p.day_offset, p.attempts, p.solved, p.hard_mode)
                    &&& board_of(after_first_line(text@)) == Ok::<Seq<Seq<Tile>>, ParseError>(p.board.rows())
                },
                Err(ParseError::MalformedHeader) => {
                    &&& forall|d: u32, a: u32, s: bool, h: bool|
                        !#[trigger] header_matches(first_line(text@), d, a, s, h)
                    &&& forall|g: Seq<char>, a: u32, s: bool, h: bool|
                        !#[trigger] header_too_large(first_line(text@), g, a, s, h)
                },
                Err(ParseError::DayOffsetOutOfRange) => {
                    &&& forall|d: u32, a: u32, s: bool, h: bool|
                        !#[trigger] header_matches(first_line(text@), d, a, s, h)
                    &&& exists|g: Seq<char>, a: u32, s: bool, h: bool| #[trigger]
                        header_too_large(first_line(text@), g, a, s, h)
                },
                Err(e) => {
                    &&& exists|d: u32, a: u32, s: bool, h: bool| #[trigger]
                        header_matches(first_line(text@), d, a, s, h)
                    &&& board_of(after_first_line(text@)) == Err::<Seq<Seq<Tile>>, ParseError>(e)
                },
            },
    {
        let n = text.len();
        let e = find_line_end(text);
        let end = if e > 0 && text[e - 1] == '\r' {
            e - 1
        } else {
            e
        };
        let header = slice_subrange(text, 0, end);
        assert(header@ =~= first_line(text@));
        let (day_offset, attempts, solved, hard_mode) = match parse_header(header) {
            Err(e) => {
                return Err(e);
            },
            Ok(fields) => fields,
        };
        let start = if e < n {
            e + 1
        } else {
            n
        };
        let rest = slice_subrange(text, start, n);
        assert(rest@ =~= after_first_line(text@));
        match PuzzleBoard::parse_chars(rest) {
            Err(err) => {
                assert(header_matches(first_line(text@), day_offset, attempts, solved, hard_mode));
                Err(err)
            },
            Ok(board) => {
                assert(header_matches(first_line(text@), day_offset, attempts, solved, hard_mode));
                Ok(Puzzle { day_offset, attempts, solved, hard_mode, board })
            },
        }
    }

    /// Appends the canonical text of the game.
    pub fn push_text(&self, out: &mut Vec<char>)
        ensures
            final(out)@ == old(out)@ + puzzle_text(
                self.day_offset as nat,
                self.attempts as nat,
                self.solved,
                self.hard_mode,
                self.board.rows(),
            ),
    {
        push_header(self.day_offset, self.attempts, self.solved, self.hard_mode, out);
        out.push('\n');
        out.push('\n');
        self.board.push_text(out);
        assert(final(out)@ =~= old(out)@ + puzzle_text(
            self.day_offset as nat,
            self.attempts as nat,
            self.solved,
            self.hard_mode,
            self.board.rows(),
        ));
    }

    /// The canonical text of the game.
    pub fn to_text(&self) -> (r: String)
        ensures
            r@ == puzzle_text(
                self.day_offset as nat,
                self.attempts as nat,
                self.solved,
                self.hard_mode,
                self.board.rows(),
            ),
    {
        let mut out: Vec<char> = Vec::new();
        self.push_text(&mut out);
        assert(out@ =~= puzzle_text(
            self.day_offset as nat,
            self.attempts as nat,
            self.solved,
            self.hard_mode,
            self.board.rows(),
        ));
        string_of(&out)
    }
}

proof fn lemma_first_line_end(x: Seq<char>, y: Seq<char>)
    requires
        forall|i: int| 0 <= i < x.len() ==> #[trigger] x[i] != '\n',
    ensures
        first_line_end(x + seq!['\n'] + y) == x.len(),
    decreases x.len(),
{
    let s = x + seq!['\n'] + y;
    if x.len() == 0 {
        assert(s[0] == '\n');
    } else {
        assert(s.skip(1) =~= x.skip(1) + seq!['\n'] + y);
        assert(s[0] == x[0]);
        assert forall|i: int| 0 <= i < x.skip(1).len() implies #[trigger] x.skip(1)[i] != '\n' by {
            assert(x.skip(1)[i] == x[i + 1]);
        }
        lemma_first_line_end(x.skip(1), y);
    }
}

/// A header line names one game only: the fields it matches are unique.
pub proof fn lemma_header_unique(
    line: Seq<char>,
    d1: u32,
    a1: u32,
    s1: bool,
    h1: bool,
    d2: u32,
    a2: u32,
    s2: bool,
    h2: bool,
)
    requires
        header_matches(line, d1, a1, s1, h1),
        header_matches(line, d2, a2, s2, h2),
    ensures
        d1 == d2 && a1 == a2 && s1 == s2 && h1 == h2,
{
    lemma_header_facts(line, d1, a1, s1, h1);
    lemma_header_facts(line, d2, a2, s2, h2);
    let l1 = grouped(d1 as nat).len() as int;
    let l2 = grouped(d2 as nat).len() as int;
    if l1 < l2 {
        assert(line[7 + l1] == ' ');
    } else if l2 < l1 {
        assert(line[7 + l2] == ' ');
    }
    assert(l1 == l2);
    assert(grouped(d1 as nat) == grouped(d2 as nat));
    if s1 {
        lemma_digit_char(a1 as nat);
    }
    if s2 {
        lemma_digit_char(a2 as nat);
    }
}

/// Reading back the canonical text of a game gives the same game: its header
/// matches exactly the game's fields, and its board reads as the same rows.
pub proof fn lemma_round_trip(day: u32, attempts: u32, solved: bool, hard: bool, rows: Seq<Seq<Tile>>)
    requires
        fields_ok(attempts as nat, solved),
        crate::board::valid_rows(rows),
    ensures
        ({
            let t = puzzle_text(day as nat, attempts as nat, solved, hard, rows);
            &&& header_matches(first_line(t), day, attempts, solved, hard)
            &&& forall|d: u32, a: u32, s: bool, h: bool| #[trigger]
                header_matches(first_line(t), d, a, s, h) ==> d == day && a == attempts && s
                    == solved && h == hard
            &&& board_of(after_first_line(t)) == Ok::<Seq<Seq<Tile>>, ParseError>(rows)
        }),
{
    let hd = header_text(day as nat, attempts as nat, solved, hard);
    let bt = board_text(rows);
    let t = puzzle_text(day as nat, attempts as nat, solved, hard, rows);
    assert(header_matches(hd, day, attempts, solved, hard));
    lemma_header_facts(hd, day, attempts, solved, hard);
    assert(t =~= hd + seq!['\n'] + (seq!['\n'] + bt));
    lemma_first_line_end(hd, seq!['\n'] + bt);
    assert(t.take(hd.len() as int) =~= hd);
    assert(first_line(t) == hd);
    assert(after_first_line(t) =~= seq!['\n'] + bt);
    crate::board::lemma_board_after_blank_line(rows);
    assert forall|d: u32, a: u32, s: bool, h: bool| #[trigger]
        header_matches(first_line(t), d, a, s, h) implies d == day && a == attempts && s == solved
        && h == hard by {
        lemma_header_unique(hd, day, attempts, solved, hard, d, a, s, h);
    }
}

} // verus!
