//! What to do with a chat message that may share a game, and with the
//! store's answer when the game is recorded.

use vstd::prelude::*;
use crate::board::board_of;
use crate::error::ParseError;
use crate::puzzle::{after_first_line, first_line, header_matches, Puzzle};
use crate::text::{chars_of, same_chars_slice, string_of};
use crate::tile::Tile;

verus! {

/// Whether `text` shares a game with these fields and rows.
pub open spec fn shares_game(
    text: Seq<char>,
    day: u32,
    attempts: u32,
    solved: bool,
    hard: bool,
    rows: Seq<Seq<Tile>>,
) -> bool {
    &&& header_matches(first_line(text), day, attempts, solved, hard)
    &&& board_of(after_first_line(text)) == Ok::<Seq<Seq<Tile>>, ParseError>(rows)
}

/// Whether `text` shares any game at all.
pub open spec fn shares_some_game(text: Seq<char>) -> bool {
    exists|d: u32, a: u32, s: bool, h: bool, rows: Seq<Seq<Tile>>| #[trigger]
        shares_game(text, d, a, s, h, rows)
}

/// What becomes of a chat message.
pub enum Verdict {
    /// The message is no game to record.
    Ignore,
    /// The message shares the game of another day.
    WrongDay { puzzle: Puzzle },
    /// The message shares today's game, to be recorded.
    Record { puzzle: Puzzle },
}

/// Decides what becomes of a message: only a message of a chat room, with an
/// author, that shares a game is considered, and the game is recorded only
/// where it is the puzzle of `todays_day_offset`.
pub fn assess_message(is_chat_room: bool, has_author: bool, content: &str, todays_day_offset: u32) -> (r: Verdict)
    ensures
        r is Ignore ==> !is_chat_room || !has_author || !shares_some_game(content@),
        r matches Verdict::WrongDay { puzzle } ==> {
            &&& is_chat_room && has_author
            &&& puzzle.day_offset != todays_day_offset
            &&& shares_game(
                content@,
                puzzle.day_offset,
                puzzle.attempts,
                puzzle.solved,
                puzzle.hard_mode,
                puzzle.board.rows(),
            )
        },
        r matches Verdict::Record { puzzle } ==> {
            &&& is_chat_room && has_author
            &&& puzzle.day_offset == todays_day_offset
            &&& shares_game(
                content@,
                puzzle.day_offset,
                puzzle.attempts,
                puzzle.solved,
                puzzle.hard_mode,
                puzzle.board.rows(),
            )
        },
{
    if !is_chat_room {
        return Verdict::Ignore;
    }
    let puzzle = match Puzzle::new(content) {
        Ok(p) => p,
        Err(e) => {
            proof {
                assert forall|d: u32, a: u32, s: bool, h: bool, rows: Seq<Seq<Tile>>|
                    !#[trigger] shares_game(content@, d, a, s, h, rows) by {
                    if shares_game(content@, d, a, s, h, rows) {
                        assert(header_matches(first_line(content@), d, a, s, h));
                    }
                }
                assert(!shares_some_game(content@));
            }
            return Verdict::Ignore;
        },
    };
    if !has_author {
        return Verdict::Ignore;
    }
    if puzzle.day_offset != todays_day_offset {
        Verdict::WrongDay { puzzle }
    } else {
        Verdict::Record { puzzle }
    }
}

/// The reaction that a message gets.
#[derive(Clone, Copy, Debug, PartialEq, Eq, Structural)]
pub enum Reaction {
    /// The game was recorded.
    Accepted,
    /// The game could not be recorded.
    Rejected,
    /// The game is not today's.
    WrongDay,
}

impl Reaction {
    /// The emoji to react with, in order.
    pub fn emojis(self) -> (r: Vec<&'static str>)
        ensures
            match self {
                Reaction::Accepted => r@ == seq!["\u{2705}"],
                Reaction::Rejected => r@ == seq!["\u{274C}"],
                Reaction::WrongDay => r@ == seq!["\u{274C}", "\u{1F4C5}"],
            },
    {
        let mut r: Vec<&'static str> = Vec::new();
        match self {
            Reaction::Accepted => {
                r.push("\u{2705}");
            },
            Reaction::Rejected => {
                r.push("\u{274C}");
            },
            Reaction::WrongDay => {
                r.push("\u{274C}");
                r.push("\u{1F4C5}");
            },
        }
        assert(r@ =~= match self {
            Reaction::Accepted => seq!["\u{2705}"],
            Reaction::Rejected => seq!["\u{274C}"],
            Reaction::WrongDay => seq!["\u{274C}", "\u{1F4C5}"],
        });
        r
    }
}

/// Why the store refused a submission.
#[derive(Clone, Debug, PartialEq, Eq)]
pub enum InsertError {
    /// The player already shared the game of this puzzle.
    DuplicateDayOffset,
    /// The player already shared a game today.
    DuplicateDate,
    /// Another uniqueness rule of the store was broken; `fields` lists its
    /// columns as the store named them.
    OtherConstraint { fields: String },
    /// Any other failure of the store, with the store's message.
    Persistence { message: String },
}

/// The words with which the store reports a broken uniqueness rule.
pub open spec fn unique_failure_prefix() -> Seq<char> {
    "error returned from database: (code: 2067) UNIQUE constraint failed: "@
}

/// A column of the submissions table, bare or qualified by the table's name.
pub open spec fn names_column(text: Seq<char>, column: Seq<char>) -> bool {
    text == column || text == "puzzle."@ + column
}

/// Whether `fields` lists the two columns, in order, as the store does.
pub open spec fn names_columns(fields: Seq<char>, first: Seq<char>, second: Seq<char>) -> bool {
    exists|k: int|
        0 <= k && k + 2 <= fields.len() && fields.subrange(k, k + 2) == ", "@ && names_column(
            #[trigger] fields.take(k),
            first,
        ) && names_column(fields.skip(k + 2), second)
}

/// Whether `message` reports a broken uniqueness rule.
pub open spec fn is_unique_failure(message: Seq<char>) -> bool {
    message.len() >= unique_failure_prefix().len() && message.take(
        unique_failure_prefix().len() as int,
    ) == unique_failure_prefix()
}

/// The columns that a report of a broken uniqueness rule names.
pub open spec fn failed_fields(message: Seq<char>) -> Seq<char> {
    message.skip(unique_failure_prefix().len() as int)
}

/// Whether `text` is the column, bare or qualified.
fn is_column(text: &[char], column: &[char]) -> (r: bool)
    ensures
        r == names_column(text@, column@),
{
    if same_chars_slice(text, column) {
        return true;
    }
    let qualifier = chars_of("puzzle.");
    let q = qualifier.len();
    if text.len() < q || text.len() - q != column.len() {
        proof {
            if text@ == "puzzle."@ + column@ {
                assert(text@.len() == q + column@.len());
            }
        }
        return false;
    }
    let head = vstd::slice::slice_subrange(text, 0, q);
    let tail = vstd::slice::slice_subrange(text, q, text.len());
    let r = same_chars_slice(head, qualifier.as_slice()) && same_chars_slice(tail, column);
    proof {
        if r {
            assert(text@ =~= head@ + tail@);
        }
        if text@ == "puzzle."@ + column@ {
            assert(head@ =~= "puzzle."@);
            assert(tail@ =~= column@);
        }
    }
    r
}

/// Whether `fields` names the two columns, in order.
fn is_column_pair(fields: &[char], first: &[char], second: &[char]) -> (r: bool)
    ensures
        r == names_columns(fields@, first@, second@),
{
    let n = fields.len();
    let mut k: usize = 0;
    while n >= 2 && k <= n - 2
        invariant
            n == fields.len(),
            forall|j: int|
                0 <= j < k && j + 2 <= fields@.len() ==> !(fields@.subrange(j, j + 2) == ", "@
                    && names_column(#[trigger] fields@.take(j), first@) && names_column(
                    fields@.skip(j + 2),
                    second@,
                )),
        decreases n - k,
    {
        proof {
            reveal_strlit(", ");
        }
        if fields[k] == ',' && fields[k + 1] == ' ' {
            let head = vstd::slice::slice_subrange(fields, 0, k);
            let tail = vstd::slice::slice_subrange(fields, k + 2, n);
            let a = is_column(head, first);
            let b = is_column(tail, second);
            assert(fields@.subrange(k as int, k as int + 2) =~= ", "@);
            assert(head@ =~= fields@.take(k as int));
            assert(tail@ =~= fields@.skip(k as int + 2));
            if a && b {
                return true;
            }
        } else {
            proof {
                if fields@.subrange(k as int, k as int + 2) == ", "@ {
                    assert(fields@.subrange(k as int, k as int + 2)[0] == fields@[k as int]);
                    assert(fields@.subrange(k as int, k as int + 2)[1] == fields@[k as int + 1]);
                }
            }
        }
        k = k + 1;
    }
    false
}

/// Tells apart the failures of the store by their message: a broken rule of
/// one puzzle per player, a broken rule of one game per player and day,
/// another broken rule, or anything else.
pub fn classify_insert_error(message: &str) -> (r: InsertError)
    ensures
        r is DuplicateDayOffset <==> is_unique_failure(message@) && names_columns(
            failed_fields(message@),
            "submitted_by"@,
            "day_offset"@,
        ),
        r is DuplicateDate <==> is_unique_failure(message@) && !names_columns(
            failed_fields(message@),
            "submitted_by"@,
            "day_offset"@,
        ) && names_columns(failed_fields(message@), "submitted_by"@, "submitted_date"@),
        r is OtherConstraint ==> is_unique_failure(message@),
        r matches InsertError::OtherConstraint { fields } ==> fields@ == failed_fields(message@),
        r is Persistence <==> !is_unique_failure(message@),
        r matches InsertError::Persistence { message: m } ==> m@ == message@,
{
    let text = chars_of(message);
    let prefix = chars_of("error returned from database: (code: 2067) UNIQUE constraint failed: ");
    let n = prefix.len();
    if text.len() < n {
        return InsertError::Persistence { message: string_of(&text) };
    }
    let head = vstd::slice::slice_subrange(text.as_slice(), 0, n);
    if !same_chars_slice(head, prefix.as_slice()) {
        assert(head@ =~= message@.take(n as int));
        return InsertError::Persistence { message: string_of(&text) };
    }
    assert(head@ =~= message@.take(n as int));
    let fields = vstd::slice::slice_subrange(text.as_slice(), n, text.len());
    assert(fields@ =~= message@.skip(n as int));
    let by = chars_of("submitted_by");
    let day_offset = chars_of("day_offset");
    let date = chars_of("submitted_date");
    if is_column_pair(fields, by.as_slice(), day_offset.as_slice()) {
        InsertError::DuplicateDayOffset
    } else if is_column_pair(fields, by.as_slice(), date.as_slice()) {
        InsertError::DuplicateDate
    } else {
        let listed = vstd::slice::slice_to_vec(fields);
        InsertError::OtherConstraint { fields: string_of(&listed) }
    }
}

} // verus!
