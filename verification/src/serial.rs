//! Saving and restoring games: a board serializes its move history to the
//! canonical move list text, and can be rebuilt by replaying a parsed list.
//! A saved game record is the move list preceded by a local timestamp line.

use vstd::prelude::*;
use chrono::Datelike;
use chrono::Timelike;
use crate::board::{Board, MAP_SIZE, cell_of_moves, lemma_cell_of_moves_contains, moves_wf};
use crate::movetext::{
    dec_digits, moves_text, moves_to_string, parse_moves, parse_moves_text, usize_string,
};
use crate::winspec::in_range;

verus! {

/// Why a saved game text was rejected: not in the move list format at all, or
/// a well-formed list whose moves cannot be played (a coordinate off the
/// board, or one played twice).
#[derive(Debug, Copy, Clone, PartialEq, Eq, Structural)]
pub enum ParseError {
    Malformed,
    IllegalMove,
}

/// Whether `ms` is a playable move history: every coordinate on the board and
/// none played twice.
fn moves_legal(ms: &Vec<(usize, usize)>) -> (r: bool)
    ensures
        r == moves_wf(ms@),
{
    let n = ms.len();
    let mut i: usize = 0;
    while i < n
        invariant
            i <= n,
            n == ms@.len(),
            forall|k: int|
                0 <= k < i ==> in_range((#[trigger] ms@[k]).0 as int, ms@[k].1 as int),
        decreases n - i,
    {
        let m = ms[i];
        if m.0 >= MAP_SIZE || m.1 >= MAP_SIZE {
            return false;
        }
        i = i + 1;
    }
    let mut i: usize = 0;
    while i < n
        invariant
            i <= n,
            n == ms@.len(),
            forall|k: int|
                0 <= k < n ==> in_range((#[trigger] ms@[k]).0 as int, ms@[k].1 as int),
            forall|k: int, l: int| #![trigger ms@[k], ms@[l]] 0 <= k < l < n && k < i ==> ms@[k] != ms@[l],
        decreases n - i,
    {
        let mut j = i + 1;
        while j < n
            invariant
                i < n,
                i + 1 <= j <= n,
                n == ms@.len(),
                forall|l: int| i < l < j ==> ms@[i as int] != #[trigger] ms@[l],
            decreases n - j,
        {
            if ms[i].0 == ms[j].0 && ms[i].1 == ms[j].1 {
                return false;
            }
            j = j + 1;
        }
        i = i + 1;
    }
    true
}

/// Timestamp and accessor ranges relied on from chrono: `Local::now` with the
/// `Datelike`/`Timelike` accessors gives the common-era year, a month in
/// 1..=12, a day in 1..=31, an hour below 24, and a minute and second below
/// 60 (chrono folds leap seconds into the nanosecond field).  `Local::now`
/// itself aborts on a system clock that chrono cannot represent (before the
/// Unix epoch or out of its range); that environment state cannot be ruled
/// out by a precondition and is accepted here as chrono's own behavior.
#[verifier::external_body]
fn local_clock() -> (r: (u32, u32, u32, u32, u32, u32))
    ensures
        1 <= r.1 <= 12,
        1 <= r.2 <= 31,
        r.3 < 24,
        r.4 < 60,
        r.5 < 60,
{
    let now = chrono::Local::now();
    (now.year_ce().1, now.month(), now.day(), now.hour(), now.minute(), now.second())
}

/// A number padded to at least two digits with a leading zero.
pub open spec fn two_digit_text(n: int) -> Seq<char> {
    if n < 10 {
        seq!['0'] + dec_digits(n)
    } else {
        dec_digits(n)
    }
}

/// The two-line record appended to the saves log for one game: a
/// `year-month-day hour:minute:second` timestamp (two-digit calendar and
/// clock fields, 24-hour clock, one trailing space), then the move list.
pub open spec fn record_text(
    year: int,
    month: int,
    day: int,
    hour: int,
    minute: int,
    second: int,
    ms: Seq<(usize, usize)>,
) -> Seq<char> {
    dec_digits(year) + seq!['-'] + two_digit_text(month) + seq!['-'] + two_digit_text(day) + seq![
        ' ',
    ] + two_digit_text(hour) + seq![':'] + two_digit_text(minute) + seq![':'] + two_digit_text(
        second,
    ) + seq![' ', '\n'] + moves_text(ms) + seq!['\n']
}

/// A clock or calendar field padded to two digits.
fn two_digit_string(n: u32) -> (r: String)
    ensures
        r@ == two_digit_text(n as int),
{
    proof {
        reveal_strlit("0");
    }
    if n < 10 {
        let mut out = "0".to_owned();
        out.append(usize_string(n as usize).as_str());
        proof {
            assert(out@ =~= two_digit_text(n as int));
        }
        out
    } else {
        usize_string(n as usize)
    }
}

impl Board {
    /// The canonical move list text of this game.
    pub fn moves_string(&self) -> (r: String)
        ensures
            r@ == moves_text(self.spec_moves()),
    {
        moves_to_string(&self.moves)
    }

    /// The saves-log record of this game for the given timestamp.
    pub fn save_record_at(
        &self,
        year: u32,
        month: u32,
        day: u32,
        hour: u32,
        minute: u32,
        second: u32,
    ) -> (r: String)
        ensures
            r@ == record_text(
                year as int,
                month as int,
                day as int,
                hour as int,
                minute as int,
                second as int,
                self.spec_moves(),
            ),
    {
        proof {
            reveal_strlit("-");
            reveal_strlit(" ");
            reveal_strlit(":");
            reveal_strlit(" \n");
            reveal_strlit("\n");
        }
        let mut out = usize_string(year as usize);
        out.append("-");
        out.append(two_digit_string(month).as_str());
        out.append("-");
        out.append(two_digit_string(day).as_str());
        out.append(" ");
        out.append(two_digit_string(hour).as_str());
        out.append(":");
        out.append(two_digit_string(minute).as_str());
        out.append(":");
        out.append(two_digit_string(second).as_str());
        out.append(" \n");
        out.append(self.moves_string().as_str());
        out.append("\n");
        proof {
            assert(out@ =~= record_text(
                year as int,
                month as int,
                day as int,
                hour as int,
                minute as int,
                second as int,
                self.spec_moves(),
            ));
        }
        out
    }

    /// The saves-log record of this game, timestamped with the local clock.
    pub fn save_record(&self) -> (r: String)
        ensures
            exists|year: int, month: int, day: int, hour: int, minute: int, second: int|
                {
                    &&& 0 <= year <= u32::MAX as int
                    &&& 1 <= month <= 12
                    &&& 1 <= day <= 31
                    &&& 0 <= hour < 24
                    &&& 0 <= minute < 60
                    &&& 0 <= second < 60
                    &&& r@ == record_text(
                        year,
                        month,
                        day,
                        hour,
                        minute,
                        second,
                        self.spec_moves(),
                    )
                },
    {
        let t = local_clock();
        let r = self.save_record_at(t.0, t.1, t.2, t.3, t.4, t.5);
        proof {
            assert(r@ == record_text(
                t.0 as int,
                t.1 as int,
                t.2 as int,
                t.3 as int,
                t.4 as int,
                t.5 as int,
                self.spec_moves(),
            ));
        }
        r
    }

    /// Restore a game from a move list text: on a move list in the list
    /// format (whitespace between tokens allowed) whose moves are playable,
    /// the board is replaced by a fresh one with every listed move replayed
    /// in order; any other text leaves the board untouched and reports why.
    pub fn load_from_string(&mut self, moves_str: &str) -> (r: Result<(), ParseError>)
        ensures
            ({
                let p = parse_moves_text(moves_str@);
                &&& (r == Ok::<(), ParseError>(()) <==> (p is Some && moves_wf(p->Some_0)))
                &&& (r == Ok::<(), ParseError>(()) ==> final(self).wf() && final(self).spec_moves()
                    == p->Some_0 && final(self).spec_redo().len() == 0)
                &&& (r == Err::<(), ParseError>(ParseError::Malformed) <==> p is None)
                &&& (r == Err::<(), ParseError>(ParseError::IllegalMove) <==> (p is Some
                    && !moves_wf(p->Some_0)))
                &&& (r is Err ==> *final(self) == *old(self))
            }),
    {
        match parse_moves(moves_str) {
            None => Err(ParseError::Malformed),
            Some(ms) => {
                if !moves_legal(&ms) {
                    return Err(ParseError::IllegalMove);
                }
                *self = Board::default();
                let mut i: usize = 0;
                while i < ms.len()
                    invariant
                        i <= ms@.len(),
                        moves_wf(ms@),
                        self.wf(),
                        self.spec_moves() == ms@.take(i as int),
                        self.spec_redo().len() == 0,
                    decreases ms@.len() - i,
                {
                    let m = ms[i];
                    proof {
                        assert(in_range(m.0 as int, m.1 as int));
                        lemma_cell_of_moves_contains(self.spec_moves(), m.0 as int, m.1 as int);
                        if self.spec_moves().contains((m.0, m.1)) {
                            let j = choose|j: int|
                                0 <= j < self.spec_moves().len() && self.spec_moves()[j] == (
                                m.0,
                                m.1,
                                );
                            assert(ms@.take(i as int)[j] == ms@[j]);
                            assert(false);
                        }
                        assert(cell_of_moves(self.spec_moves(), m.0 as int, m.1 as int)
                            == crate::board::Cell::Empty);
                    }
                    let _ = self.put(m.0, m.1);
                    proof {
                        assert(self.spec_moves() =~= ms@.take(i as int + 1));
                    }
                    i = i + 1;
                }
                proof {
                    assert(ms@.take(ms@.len() as int) =~= ms@);
                }
                Ok(())
            },
        }
    }
}

} // verus!
