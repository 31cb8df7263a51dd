use chrono::{Datelike, NaiveDate};
use wordle::announce::{announcement, leaderboard_text};
use wordle::daily::{CacheStep, CurrentPuzzle, DailyPuzzleCache, LAUNCH_DAY};
use wordle::date::Date;
use wordle::puzzle::Puzzle;
use wordle::ranking::{rank, winners, RankedEntry, Submission};
use wordle::submission::{classify_insert_error, assess_message, InsertError, Reaction, Verdict};

const GREEN_ROW: &str = "\u{1F7E9}\u{1F7E9}\u{1F7E9}\u{1F7E9}\u{1F7E9}";
const BLACK_ROW: &str = "\u{2B1B}\u{2B1B}\u{2B1B}\u{2B1B}\u{2B1B}";

fn day_of(y: i32, m: u32, d: u32) -> Date {
    Date::from_day_number(NaiveDate::from_ymd_opt(y, m, d).unwrap().num_days_from_ce())
}

fn share(day: u32, attempts: u32) -> String {
    let mut text = format!("Wordle {day} {attempts}/6\n");
    for _ in 1..attempts {
        text.push('\n');
        text.push_str(BLACK_ROW);
    }
    text.push('\n');
    text.push_str(GREEN_ROW);
    text
}

fn submission(id: u64, by: u64, at: i64, date: Date, attempts: u32) -> Submission {
    Submission {
        id,
        submitter: format!("player{by}"),
        submitted_by: by,
        submitted_at: at,
        submitted_date: date,
        puzzle: Puzzle::new(&share(500, attempts)).unwrap(),
    }
}

fn record(day_offset: u32, print_date: Date) -> CurrentPuzzle {
    CurrentPuzzle {
        id: 42,
        days_since_launch: day_offset,
        print_date,
        solution: "crane".to_string(),
        editor: "someone".to_string(),
    }
}

#[test]
fn launch_day_is_june_nineteenth_2021() {
    assert_eq!(Date::from_day_number(LAUNCH_DAY), day_of(2021, 6, 19));
}

#[test]
fn ranks_share_ties() {
    let today = day_of(2024, 3, 1);
    let subs = vec![
        submission(1, 10, 400, today, 4),
        submission(2, 11, 300, today, 2),
        submission(3, 12, 100, today, 6),
        submission(4, 13, 200, today, 2),
    ];
    let ranked = rank(&subs, today);
    let attempts: Vec<u32> = ranked.iter().map(|e| subs[e.index].puzzle.attempts).collect();
    let ranks: Vec<usize> = ranked.iter().map(|e| e.rank).collect();
    assert_eq!(attempts, vec![2, 2, 4, 6]);
    assert_eq!(ranks, vec![1, 1, 3, 4]);
    assert_eq!(ranked[0], RankedEntry { index: 3, rank: 1 });
    assert_eq!(ranked[1], RankedEntry { index: 1, rank: 1 });
    assert_eq!(winners(&subs, today), vec![3, 1]);
}

#[test]
fn ranking_keeps_to_its_day() {
    let today = day_of(2024, 3, 1);
    let yesterday = day_of(2024, 2, 29);
    let subs = vec![
        submission(1, 10, 50, yesterday, 1),
        submission(2, 11, 300, today, 3),
        submission(3, 12, 100, today, 5),
    ];
    let ranked = rank(&subs, today);
    assert_eq!(ranked, vec![RankedEntry { index: 1, rank: 1 }, RankedEntry { index: 2, rank: 2 }]);
    assert_eq!(winners(&subs, yesterday), vec![0]);
    assert!(rank(&subs, day_of(2024, 3, 2)).is_empty());
    assert!(winners(&Vec::new(), today).is_empty());
}

#[test]
fn fresh_record_is_served_without_fetching() {
    let today = day_of(2024, 3, 1);
    let mut cache = DailyPuzzleCache::new();
    assert_eq!(cache.begin(false, today), CacheStep::Fetch { attempts_left: 2 });
    cache.fetched(record(985, today));
    assert_eq!(cache.begin(false, today), CacheStep::Ready);
    assert_eq!(cache.current().unwrap().days_since_launch, 985);
    assert_eq!(cache.begin(true, today), CacheStep::Fetch { attempts_left: 2 });
    let tomorrow = day_of(2024, 3, 2);
    assert_eq!(cache.begin(false, tomorrow), CacheStep::Fetch { attempts_left: 2 });
}

#[test]
fn failing_source_with_empty_cache_gives_calculated_record() {
    let today = day_of(2024, 3, 1);
    let mut cache = DailyPuzzleCache::new();
    let step = cache.begin(true, today);
    assert_eq!(step, CacheStep::Fetch { attempts_left: 2 });
    assert_eq!(cache.fetch_failed(2, today), CacheStep::Fetch { attempts_left: 1 });
    assert!(cache.current().is_none());
    assert_eq!(cache.fetch_failed(1, today), CacheStep::Ready);
    let p = cache.current().unwrap();
    let launch = NaiveDate::from_ymd_opt(2021, 6, 19).unwrap();
    let elapsed = (NaiveDate::from_ymd_opt(2024, 3, 1).unwrap() - launch).num_days();
    assert_eq!(p.days_since_launch as i64, elapsed);
    assert_eq!(p.days_since_launch, 986);
    assert_eq!(p.print_date, today);
    assert!(p.solution.is_empty());
}

#[test]
fn failing_source_serves_stale_record() {
    let yesterday = day_of(2024, 2, 29);
    let today = day_of(2024, 3, 1);
    let mut cache = DailyPuzzleCache::new();
    cache.fetched(record(985, yesterday));
    assert_eq!(cache.begin(false, today), CacheStep::Fetch { attempts_left: 2 });
    assert_eq!(cache.fetch_failed(2, today), CacheStep::Fetch { attempts_left: 1 });
    assert_eq!(cache.fetch_failed(1, today), CacheStep::Ready);
    let p = cache.current().unwrap();
    assert_eq!(p.days_since_launch, 985);
    assert_eq!(p.print_date, yesterday);
    assert_eq!(p.solution, "crane");
}

#[test]
fn calculated_record_counts_days_from_launch() {
    let p = CurrentPuzzle::from_calculated(day_of(2021, 6, 19));
    assert_eq!(p.days_since_launch, 0);
    let p = CurrentPuzzle::from_calculated(day_of(2022, 6, 19));
    assert_eq!(p.days_since_launch, 365);
    assert_eq!(p.id, 0);
    assert!(p.editor.is_empty());
}

#[test]
fn store_failures_by_kind() {
    let prefix = "error returned from database: (code: 2067) UNIQUE constraint failed: ";
    assert_eq!(
        classify_insert_error(&format!("{prefix}puzzle.submitted_by, puzzle.day_offset")),
        InsertError::DuplicateDayOffset
    );
    assert_eq!(
        classify_insert_error(&format!("{prefix}puzzle.submitted_by, puzzle.submitted_date")),
        InsertError::DuplicateDate
    );
    assert_eq!(
        classify_insert_error(&format!("{prefix}submitted_by, day_offset")),
        InsertError::DuplicateDayOffset
    );
    assert_eq!(
        classify_insert_error(&format!("{prefix}puzzle.id")),
        InsertError::OtherConstraint { fields: "puzzle.id".to_string() }
    );
    assert_eq!(
        classify_insert_error("database is locked"),
        InsertError::Persistence { message: "database is locked".to_string() }
    );
    assert_eq!(
        classify_insert_error(""),
        InsertError::Persistence { message: String::new() }
    );
    assert_eq!(
        classify_insert_error("error returned from database: (code: 2067)"),
        InsertError::Persistence { message: "error returned from database: (code: 2067)".to_string() }
    );
}

#[test]
fn messages_are_assessed() {
    let text = share(1000, 3).replacen("1000", "1,000", 1);
    match assess_message(true, true, &text, 1000) {
        Verdict::Record { puzzle } => {
            assert_eq!(puzzle.day_offset, 1000);
            assert_eq!(puzzle.attempts, 3);
        }
        _ => panic!("expected a game to record"),
    }
    match assess_message(true, true, &text, 1001) {
        Verdict::WrongDay { puzzle } => assert_eq!(puzzle.day_offset, 1000),
        _ => panic!("expected a game of another day"),
    }
    assert!(matches!(assess_message(false, true, &text, 1000), Verdict::Ignore));
    assert!(matches!(assess_message(true, false, &text, 1000), Verdict::Ignore));
    assert!(matches!(assess_message(true, true, "hello there", 1000), Verdict::Ignore));
}

#[test]
fn reactions_by_outcome() {
    assert_eq!(Reaction::Accepted.emojis(), vec!["\u{2705}"]);
    assert_eq!(Reaction::Rejected.emojis(), vec!["\u{274C}"]);
    assert_eq!(Reaction::WrongDay.emojis(), vec!["\u{274C}", "\u{1F4C5}"]);
}

#[test]
fn announcement_of_winners() {
    assert_eq!(announcement(&vec![], 3), None);
    assert_eq!(
        announcement(&vec![7], 1).unwrap(),
        "Congratulations to <@7> on being the top Wordler yesterday! <:limesDab:795850581725020250> In only **1** attempt! Crazy!"
    );
    assert_eq!(
        announcement(&vec![7, 8], 2).unwrap(),
        "Congratulations to <@7> and <@8> on being the top Wordlers yesterday! <:limesDab:795850581725020250> Wow, in only 2 attempts!"
    );
    assert_eq!(
        announcement(&vec![7, 8, 90], 6).unwrap(),
        "Congratulations to <@7>, <@8>, and <@90> on being the top Wordlers yesterday! <:limesDab:795850581725020250> 6 attempts huh? Well, at least you solved it right?"
    );
}

#[test]
fn leaderboard_lists_ranked_entries() {
    let today = day_of(2024, 3, 1);
    let subs = vec![submission(1, 10, 400, today, 4), submission(2, 11, 300, today, 2)];
    let ranked = rank(&subs, today);
    assert_eq!(
        leaderboard_text(&subs, &ranked).unwrap(),
        "**Today's Top Wordlers**\n0. player11 - 2/6 <:limesDab:795850581725020250>\n1. player10 - 4/6 \n"
    );
    assert_eq!(leaderboard_text(&subs, &Vec::new()), None);
}
