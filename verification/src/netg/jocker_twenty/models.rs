use vstd::prelude::*;

use crate::json::Json;

verus! {

/// A column of symbols seen on the screen, with how often it was seen.
#[derive(Clone, Debug)]
pub struct Board {
    pub count: u64,
    pub board: Vec<u8>,
}

/// The distinct boards of one reel, with the total number of boards behind them.
#[derive(Clone, Debug)]
pub struct UniqueBoardsInstanse {
    pub count: u64,
    pub frequency_average: u64,
    pub instanses: Vec<Board>,
}

/// The boards of one reel, one entry per observation.
#[derive(Clone, Debug)]
pub struct BoardsInstanse {
    pub instanses: Vec<Vec<u8>>,
}

/// The boards of one reel, each with the number of copies a reel strip should hold.
#[derive(Clone, Debug)]
pub struct MultiplayedBoardsInstanse {
    pub instanses: Vec<Board>,
}

/// All board collections of a category, one entry per reel.
#[derive(Clone, Debug)]
pub struct Boards {
    pub total: Vec<BoardsInstanse>,
    pub filtered: Vec<BoardsInstanse>,
    pub unique: Vec<UniqueBoardsInstanse>,
    pub multiplied: Vec<MultiplayedBoardsInstanse>,
}

/// A reel strip under construction and the boards it has still to cover.
#[derive(Clone, Debug)]
pub struct ReelInstanse {
    pub reel: Vec<u8>,
    pub remaining: Vec<Board>,
    pub correct: bool,
}

/// The candidate strips of one reel.
#[derive(Clone, Debug)]
pub struct Reel {
    pub instanses: Vec<ReelInstanse>,
}

/// One category of spins: its share of spins, its boards and its reels.
#[derive(Clone, Debug)]
pub struct Category {
    pub count: i64,
    pub boards: Boards,
    pub reels: Vec<Reel>,
}

/// Every category extracted from the transactions.
#[derive(Debug)]
pub struct Categories {
    pub count: i64,
    pub category: Vec<Category>,
    pub buy_category: Vec<Vec<Category>>,
    pub settings: Json,
}

/// The symbol sequences of a list of columns.
pub open spec fn columns(s: Seq<Vec<u8>>) -> Seq<Seq<u8>> {
    Seq::new(s.len(), |i: int| s[i]@)
}

/// The symbol sequences of a list of counted boards.
pub open spec fn board_columns(s: Seq<Board>) -> Seq<Seq<u8>> {
    Seq::new(s.len(), |i: int| s[i].board@)
}

/// The sum of the counts of a list of counted boards.
pub open spec fn total_count(s: Seq<Board>) -> int
    decreases s.len(),
{
    if s.len() == 0 {
        0
    } else {
        total_count(s.drop_last()) + s.last().count
    }
}


/// The value of a counted board: (count, symbols).
pub open spec fn board_v(b: Board) -> (u64, Seq<u8>) {
    (b.count, b.board@)
}

pub open spec fn boards_v(s: Seq<Board>) -> Seq<(u64, Seq<u8>)> {
    Seq::new(s.len(), |i: int| board_v(s[i]))
}

/// The value of a reel candidate: (strip, boards still to place, verdict).
pub open spec fn reel_v(r: ReelInstanse) -> (Seq<u8>, Seq<(u64, Seq<u8>)>, bool) {
    (r.reel@, boards_v(r.remaining@), r.correct)
}

pub open spec fn reels_v(s: Seq<ReelInstanse>) -> Seq<(Seq<u8>, Seq<(u64, Seq<u8>)>, bool)> {
    Seq::new(s.len(), |i: int| reel_v(s[i]))
}

impl Board {
    pub fn duplicate(&self) -> (r: Board)
        ensures
            board_v(r) == board_v(*self),
    {
        Board { count: self.count, board: crate::seqs::copy_u8(&self.board) }
    }
}

pub fn copy_boards(v: &Vec<Board>) -> (r: Vec<Board>)
    ensures
        boards_v(r@) == boards_v(v@),
{
    let mut r: Vec<Board> = Vec::new();
    let mut i: usize = 0;
    while i < v.len()
        invariant
            i <= v.len(),
            r.len() == i,
            forall|k: int| 0 <= k < i ==> board_v(#[trigger] r@[k]) == board_v(v@[k]),
        decreases v.len() - i,
    {
        r.push(v[i].duplicate());
        i = i + 1;
    }
    assert(boards_v(r@) =~= boards_v(v@));
    r
}

impl ReelInstanse {
    pub fn duplicate(&self) -> (r: ReelInstanse)
        ensures
            reel_v(r) == reel_v(*self),
    {
        ReelInstanse {
            reel: crate::seqs::copy_u8(&self.reel),
            remaining: copy_boards(&self.remaining),
            correct: self.correct,
        }
    }
}

} // verus!
