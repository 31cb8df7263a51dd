//! The texts the bot posts: the daily announcement of yesterday's winners
//! and the leaderboard of today.

use vstd::prelude::*;
use vstd::string::*;
use oxford_join::OxfordJoin;
use crate::ranking::{RankedEntry, Submission};
use crate::text::{decimal, push_decimal, string_of};

verus! {

/// Each item followed by a comma and a space.
pub open spec fn comma_listed(items: Seq<Seq<char>>) -> Seq<char>
    decreases items.len(),
{
    if items.len() == 0 {
        Seq::empty()
    } else {
        comma_listed(items.drop_last()) + items.last() + seq![',', ' ']
    }
}

/// The items joined as an English list with a serial comma: `a`, `a and b`,
/// `a, b, and c`.
pub open spec fn and_joined(items: Seq<Seq<char>>) -> Seq<char> {
    if items.len() == 0 {
        Seq::empty()
    } else if items.len() == 1 {
        items[0]
    } else if items.len() == 2 {
        items[0] + seq![' ', 'a', 'n', 'd', ' '] + items[1]
    } else {
        comma_listed(items.drop_last()) + seq!['a', 'n', 'd', ' '] + items.last()
    }
}

/// Relies on `oxford_join::OxfordJoin::oxford_and` for slices of strings,
/// which joins them with `and` and a serial comma as `and_joined` states.
#[verifier::external_body]
fn oxford_and(items: &Vec<String>) -> (r: String)
    ensures
        r@ == and_joined(items@.map_values(|s: String| s@)),
{
    items.as_slice().oxford_and().into_owned()
}

/// Relies on `pluralizer::pluralize`: the singular or plural form of a word
/// for a count. The crate's rule tables are shared by the process and can be
/// changed at run time, so nothing is stated of the word returned. It cuts
/// the matched text at its first byte, which is safe on ASCII words only.
#[verifier::external_body]
fn pluralize(word: &str, count: isize, include_count: bool) -> (r: String)
    requires
        word.is_ascii(),
{
    pluralizer::pluralize(word, count, include_count)
}

/// The remark that goes with a winning number of guesses.
pub open spec fn remark(attempts: u32) -> Seq<char> {
    if attempts == 1 {
        "In only **1** attempt! Crazy!"@
    } else if attempts == 2 {
        "Wow, in only 2 attempts!"@
    } else if attempts == 3 {
        "3 attempts? Very nice."@
    } else if attempts == 4 {
        "Solved in only 4 attempts. Nice."@
    } else if attempts == 5 {
        "Solved in 5 attempts, phew."@
    } else {
        "6 attempts huh? Well, at least you solved it right?"@
    }
}

/// The announcement, given the joined mentions of the winners and the noun
/// for their number.
pub open spec fn announcement_of(joined: Seq<char>, noun: Seq<char>, attempts: u32) -> Seq<char> {
    "Congratulations to "@ + joined + " on being the top "@ + noun
        + " yesterday! <:limesDab:795850581725020250> "@ + remark(attempts)
}

/// How a chat platform mentions a user.
pub open spec fn mention(id: u64) -> Seq<char> {
    seq!['<', '@'] + decimal(id as nat) + seq!['>']
}

/// The mentions of the users, in order.
pub open spec fn mentions_of(ids: Seq<u64>) -> Seq<Seq<char>> {
    ids.map_values(|id: u64| mention(id))
}

/// The announcement, given the joined mentions of the winners and the noun
/// for their number.
pub fn announcement_text(joined: &str, noun: &str, attempts: u32) -> (r: String)
    requires
        1 <= attempts <= 6,
    ensures
        r@ == announcement_of(joined@, noun@, attempts),
{
    let mut out = String::from_str("Congratulations to ");
    out.append(joined);
    out.append(" on being the top ");
    out.append(noun);
    out.append(" yesterday! <:limesDab:795850581725020250> ");
    if attempts == 1 {
        out.append("In only **1** attempt! Crazy!");
    } else if attempts == 2 {
        out.append("Wow, in only 2 attempts!");
    } else if attempts == 3 {
        out.append("3 attempts? Very nice.");
    } else if attempts == 4 {
        out.append("Solved in only 4 attempts. Nice.");
    } else if attempts == 5 {
        out.append("Solved in 5 attempts, phew.");
    } else {
        out.append("6 attempts huh? Well, at least you solved it right?");
    }
    assert(out@ =~= announcement_of(joined@, noun@, attempts));
    out
}

/// The announcement of yesterday's winners, who all took `attempts` guesses;
/// `None` where nobody won.
pub fn announcement(winner_ids: &Vec<u64>, attempts: u32) -> (r: Option<String>)
    requires
        1 <= attempts <= 6,
        winner_ids.len() <= isize::MAX,
    ensures
        r is None <==> winner_ids.len() == 0,
        r matches Some(t) ==> exists|noun: Seq<char>|
            t@ == #[trigger] announcement_of(and_joined(mentions_of(winner_ids@)), noun, attempts),
{
    if winner_ids.len() == 0 {
        return None;
    }
    let mut mentions: Vec<String> = Vec::new();
    let mut i: usize = 0;
    while i < winner_ids.len()
        invariant
            0 <= i <= winner_ids.len(),
            mentions@.map_values(|s: String| s@) == winner_ids@.take(i as int).map_values(
                |id: u64| mention(id),
            ),
        decreases winner_ids.len() - i,
    {
        let mut cs: Vec<char> = Vec::new();
        cs.push('<');
        cs.push('@');
        push_decimal(winner_ids[i], &mut cs);
        cs.push('>');
        assert(cs@ =~= mention(winner_ids@[i as int]));
        let ghost before = mentions@.map_values(|s: String| s@);
        mentions.push(string_of(&cs));
        assert(mentions@.map_values(|s: String| s@) =~= before.push(cs@));
        assert(winner_ids@.take(i as int + 1).map_values(|id: u64| mention(id)) =~= winner_ids@.take(
            i as int,
        ).map_values(|id: u64| mention(id)).push(mention(winner_ids@[i as int])));
        i = i + 1;
    }
    assert(winner_ids@.take(i as int) =~= winner_ids@);
    let joined = oxford_and(&mentions);
    let word = "Wordler";
    proof {
        reveal_strlit("Wordler");
    }
    let noun = pluralize(word, winner_ids.len() as isize, false);
    let text = announcement_text(joined.as_str(), noun.as_str(), attempts);
    assert(text@ == announcement_of(and_joined(mentions_of(winner_ids@)), noun@, attempts));
    Some(text)
}

/// The heading of the leaderboard.
pub open spec fn leaderboard_heading() -> Seq<char> {
    "**Today's Top Wordlers**\n"@
}

/// The line of the leaderboard at position `i`, counted from zero; the
/// winners get the dab.
pub open spec fn leaderboard_line(i: nat, submitter: Seq<char>, attempts: u32, rank: usize) -> Seq<char> {
    decimal(i) + ". "@ + submitter + " - "@ + decimal(attempts as nat) + "/6 "@ + (if rank == 1 {
        "<:limesDab:795850581725020250>"@
    } else {
        Seq::empty()
    }) + "\n"@
}

/// The lines of the leaderboard for the ranked entries.
pub open spec fn leaderboard_lines(s: Seq<Submission>, ranked: Seq<RankedEntry>) -> Seq<char>
    decreases ranked.len(),
{
    if ranked.len() == 0 {
        Seq::empty()
    } else {
        let e = ranked.last();
        let row = s[e.index as int];
        leaderboard_lines(s, ranked.drop_last()) + leaderboard_line(
            (ranked.len() - 1) as nat,
            row.submitter@,
            row.puzzle.attempts,
            e.rank,
        )
    }
}

/// The leaderboard of the ranked entries, in their order; `None` where there
/// are none.
pub fn leaderboard_text(submissions: &Vec<Submission>, ranked: &Vec<RankedEntry>) -> (r: Option<String>)
    requires
        forall|k: int| 0 <= k < ranked.len() ==> #[trigger] ranked@[k].index < submissions.len(),
    ensures
        r is None <==> ranked.len() == 0,
        r matches Some(t) ==> t@ == leaderboard_heading() + leaderboard_lines(submissions@, ranked@),
{
    if ranked.len() == 0 {
        return None;
    }
    let mut out = String::from_str("**Today's Top Wordlers**\n");
    let mut k: usize = 0;
    while k < ranked.len()
        invariant
            forall|j: int| 0 <= j < ranked.len() ==> #[trigger] ranked@[j].index < submissions.len(),
            0 <= k <= ranked.len(),
            out@ == leaderboard_heading() + leaderboard_lines(submissions@, ranked@.take(k as int)),
        decreases ranked.len() - k,
    {
        let e = ranked[k];
        let row = &submissions[e.index];
        let mut num: Vec<char> = Vec::new();
        push_decimal(k as u64, &mut num);
        let num = string_of(&num);
        let mut tries: Vec<char> = Vec::new();
        push_decimal(row.puzzle.attempts as u64, &mut tries);
        let tries = string_of(&tries);
        let ghost start = out@;
        out.append(num.as_str());
        out.append(". ");
        out.append(row.submitter.as_str());
        out.append(" - ");
        out.append(tries.as_str());
        out.append("/6 ");
        if e.rank == 1 {
            out.append("<:limesDab:795850581725020250>");
        }
        out.append("\n");
        proof {
            let next = ranked@.take(k as int + 1);
            assert(next.drop_last() =~= ranked@.take(k as int));
            assert(next.last() == e);
            assert(out@ =~= start + leaderboard_line(k as nat, row.submitter@, row.puzzle.attempts, e.rank));
        }
        k = k + 1;
    }
    assert(ranked@.take(k as int) =~= ranked@);
    Some(out)
}

} // verus!
