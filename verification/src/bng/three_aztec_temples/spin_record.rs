use vstd::prelude::*;

use crate::bng::three_aztec_temples::boards::{cols, copy_i64};
use crate::bng::three_aztec_temples::models::{
    ByBonusLenght, ByLenght, ByLine, ByMechanic, BySymbol, Category, Symbol, Win,
};

verus! {

/// Whether a symbol lies anywhere on a board (a list of columns).
pub open spec fn on_board(board: Seq<Seq<i64>>, x: i64) -> bool {
    exists|c: int, r: int| 0 <= c < board.len() && 0 <= r < board[c].len() && #[trigger] board[c][r] == x
}

/// The mechanics a spin's board brings: 1 (`Add`) for a symbol 11, 2 (`Twice`) for a 12
/// and 3 (`Cluster`) for a 13, in that order.
pub open spec fn started_mechanic(board: Seq<Seq<i64>>) -> Seq<i64> {
    (if on_board(board, 11) { seq![1i64] } else { Seq::empty() }) + (if on_board(board, 12) {
        seq![2i64]
    } else {
        Seq::empty()
    }) + (if on_board(board, 13) { seq![3i64] } else { Seq::empty() })
}

/// The first entry from `i` on whose mechanics are `id`.
pub open spec fn mechanic_index(ms: Seq<ByMechanic>, id: Seq<i64>, i: nat) -> Option<nat>
    decreases ms.len() - i,
{
    if i >= ms.len() {
        None
    } else if ms[i as int].id@ == id {
        Some(i)
    } else {
        mechanic_index(ms, id, i + 1)
    }
}

pub(crate) fn board_holds(board: &Vec<Vec<i64>>, x: i64) -> (r: bool)
    ensures
        r == on_board(cols(board@), x),
{
    let ghost b = cols(board@);
    let mut c: usize = 0;
    while c < board.len()
        invariant
            b == cols(board@),
            c <= board@.len(),
            forall|c2: int, r2: int| 0 <= c2 < c && 0 <= r2 < b[c2].len() ==> #[trigger] b[c2][r2] != x,
        decreases board.len() - c,
    {
        let col = &board[c];
        let mut r: usize = 0;
        while r < col.len()
            invariant
                b == cols(board@),
                c < board@.len(),
                col@ == b[c as int],
                r <= col@.len(),
                forall|c2: int, r2: int| 0 <= c2 < c && 0 <= r2 < b[c2].len() ==> #[trigger] b[c2][r2] != x,
                forall|r2: int| 0 <= r2 < r ==> #[trigger] b[c as int][r2] != x,
            decreases col.len() - r,
        {
            if col[r] == x {
                assert(b[c as int][r as int] == x);
                return true;
            }
            r = r + 1;
        }
        c = c + 1;
    }
    false
}

fn same_ids(a: &Vec<i64>, b: &Vec<i64>) -> (r: bool)
    ensures
        r == (a@ == b@),
{
    if a.len() != b.len() {
        return false;
    }
    let mut i: usize = 0;
    while i < a.len()
        invariant
            a@.len() == b@.len(),
            i <= a@.len(),
            forall|j: int| 0 <= j < i ==> a@[j] == b@[j],
        decreases a.len() - i,
    {
        if a[i] != b[i] {
            return false;
        }
        i = i + 1;
    }
    assert(a@ =~= b@);
    true
}

pub(crate) fn find_mechanic(ms: &Vec<ByMechanic>, id: &Vec<i64>) -> (r: Option<usize>)
    ensures
        match mechanic_index(ms@, id@, 0) {
            Some(k) => r == Some(k as usize) && k < ms@.len(),
            None => r is None,
        },
        r matches Some(j) ==> mechanic_index(ms@, id@, 0) == Some(j as nat),
{
    let mut i: usize = 0;
    while i < ms.len()
        invariant
            i <= ms@.len(),
            mechanic_index(ms@, id@, 0) == mechanic_index(ms@, id@, i as nat),
        decreases ms.len() - i,
    {
        if same_ids(&ms[i].id, id) {
            return Some(i);
        }
        i = i + 1;
    }
    None
}

/// Whether a spin round can be counted in its category without a fault.
pub open spec fn spin_fits(c0: Category, round_bet: i64, round_win: i64, board: Seq<Seq<i64>>, width: usize) -> bool {
    &&& c0.count < i64::MAX
    &&& c0.spins.count < i64::MAX
    &&& c0.spins.bet.count < i64::MAX
    &&& i64::MIN <= c0.spins.bet.amount + round_bet <= i64::MAX
    &&& round_win > 0 ==> c0.spins.win.count < i64::MAX && c0.spins.win.amount + round_win <= i64::MAX
    &&& started_mechanic(board).len() > 0 ==> c0.bonus.appearances < i64::MAX && match mechanic_index(
        c0.bonus.by_mechanics@,
        started_mechanic(board),
        0,
    ) {
        Some(k) => c0.bonus.by_mechanics@[k as int].appearances < i64::MAX,
        None => true,
    }
    &&& width <= board.len()
    &&& width <= c0.boards.total@.len()
    &&& c0.spins.symbols@.len() <= i64::MAX
    &&& landings_fit(c0.spins.symbols@, board)
}

/// What counting a spin round (`record_spin`) makes of its category.
pub open spec fn spin_recorded(c0: Category, c1: Category, round_bet: i64, round_win: i64, board: Seq<Seq<i64>>, width: usize) -> bool {
    &&& c1.count == c0.count + 1
    &&& c1.spins.count == c0.spins.count + 1
    &&& c1.spins.bet.count == c0.spins.bet.count + 1
    &&& c1.spins.bet.amount == c0.spins.bet.amount + round_bet
    &&& c1.spins.win.count == c0.spins.win.count + if round_win > 0 { 1int } else { 0int }
    &&& c1.spins.win.amount == c0.spins.win.amount + if round_win > 0 { round_win as int } else { 0int }
    &&& c1.spins.win.by_lines == c0.spins.win.by_lines
    &&& c1.spins.win.by_symbols == c0.spins.win.by_symbols
    &&& c1.spins.symbols@.len() == c0.spins.symbols@.len()
    &&& forall|k: int|
        0 <= k < c0.spins.symbols@.len() ==> tally_at(
            #[trigger] c1.spins.symbols@[k],
            c0.spins.symbols@[k],
            board,
            (k + 1) as i64,
            board.len(),
            0,
        )
    &&& c1.bonus.appearances == c0.bonus.appearances + if started_mechanic(board).len() > 0 {
        1int
    } else {
        0int
    }
    &&& c1.bonus.inits == c0.bonus.inits
    &&& c1.bonus.respins == c0.bonus.respins
    &&& c1.bonus.emerged == c0.bonus.emerged
    &&& c1.bonus.amount == c0.bonus.amount
    &&& c1.bonus.reappearances == c0.bonus.reappearances
    &&& c1.bonus.reinits == c0.bonus.reinits
    &&& c1.bonus.combo_symbols == c0.bonus.combo_symbols
    &&& c1.bonus.symbols == c0.bonus.symbols
    &&& c1.bonus.mystery_symbols == c0.bonus.mystery_symbols
    &&& c1.bonus.by_bonus_lenghts == c0.bonus.by_bonus_lenghts
    &&& c1.spins.id == c0.spins.id
    &&& c1.spins.reels == c0.spins.reels
    &&& c1.spins.boards == c0.spins.boards
    &&& c1.bonus.by_mechanics@.len() == c0.bonus.by_mechanics@.len()
    &&& forall|k: int|
        0 <= k < c0.bonus.by_mechanics@.len() ==> {
            let before = c0.bonus.by_mechanics@[k];
            let after = #[trigger] c1.bonus.by_mechanics@[k];
            if started_mechanic(board).len() > 0 && mechanic_index(
                c0.bonus.by_mechanics@,
                started_mechanic(board),
                0,
            ) == Some(k as nat) {
                after == ByMechanic { appearances: (before.appearances + 1) as i64, ..before }
            } else {
                after == before
            }
        }
    &&& c1.boards.total@.len() == c0.boards.total@.len()
    &&& forall|i: int|
        0 <= i < c0.boards.total@.len() ==> cols((#[trigger] c1.boards.total@[i]).instanses@) == if i
            < width {
            cols(c0.boards.total@[i].instanses@).push(board[i])
        } else {
            cols(c0.boards.total@[i].instanses@)
        }
    &&& c1.boards.filtered == c0.boards.filtered
    &&& c1.boards.unique == c0.boards.unique
    &&& c1.boards.multiplied == c0.boards.multiplied
    &&& c1.reels == c0.reels
}

/// Counts one spin round in its category, as a log of plays is read: the round, the spin,
/// its bet and, when it won, its win; the landings of its board's symbols
/// (`record_landings`); the bonus appearance and the appearance of the mechanics its
/// board brings, when it brings any; and each of the first `width` columns of its board
/// among the category's observed boards. Its pay-line wins are counted one by one with
/// `record_winline`.
pub fn record_spin(cat: &mut Category, round_bet: i64, round_win: i64, board: &Vec<Vec<i64>>, width: usize)
    requires
        spin_fits(*old(cat), round_bet, round_win, cols(board@), width),

    ensures
        spin_recorded(*old(cat), *final(cat), round_bet, round_win, cols(board@), width),

{
    let ghost b = cols(board@);
    cat.count = cat.count + 1;
    cat.spins.count = cat.spins.count + 1;
    cat.spins.bet.count = cat.spins.bet.count + 1;
    cat.spins.bet.amount = cat.spins.bet.amount + round_bet;
    if round_win > 0 {
        cat.spins.win.count = cat.spins.win.count + 1;
        cat.spins.win.amount = cat.spins.win.amount + round_win;
    }
    record_landings(&mut cat.spins.symbols, board);
    let add = board_holds(board, 11);
    let twice = board_holds(board, 12);
    let cluster = board_holds(board, 13);
    if add || twice || cluster {
        let mut id: Vec<i64> = Vec::new();
        if add {
            id.push(1);
        }
        if twice {
            id.push(2);
        }
        if cluster {
            id.push(3);
        }
        assert(id@ =~= started_mechanic(b));
        cat.bonus.appearances = cat.bonus.appearances + 1;
        assert(cat.bonus.by_mechanics@ == old(cat).bonus.by_mechanics@);
        let found = find_mechanic(&cat.bonus.by_mechanics, &id);
        assert(id@ == started_mechanic(b));
        match found {
            Some(k) => {
                assert(mechanic_index(old(cat).bonus.by_mechanics@, started_mechanic(b), 0) == Some(k as nat));
                let v = cat.bonus.by_mechanics[k].appearances + 1;
                cat.bonus.by_mechanics[k].appearances = v;
            },
            None => {},
        }
    } else {
        assert(started_mechanic(b) =~= Seq::<i64>::empty());
    }
    let ghost mid = cat.boards.total@;
    let ghost mid_cat = *cat;
    let mut i: usize = 0;
    while i < width
        invariant
            width <= board@.len(),
            width <= mid.len(),
            i <= width,
            cat.boards.total@.len() == mid.len(),
            forall|j: int|
                0 <= j < mid.len() ==> cols((#[trigger] cat.boards.total@[j]).instanses@) == if j < i {
                    cols(mid[j].instanses@).push(board@[j]@)
                } else {
                    cols(mid[j].instanses@)
                },
            cat.boards.filtered == old(cat).boards.filtered,
            cat.boards.unique == old(cat).boards.unique,
            cat.boards.multiplied == old(cat).boards.multiplied,
            cat.count == mid_cat.count,
            cat.spins == mid_cat.spins,
            cat.bonus == mid_cat.bonus,
            cat.reels == mid_cat.reels,
        decreases width - i,
    {
        let ghost before = cat.boards.total@[i as int].instanses@;
        let column = copy_i64(&board[i]);
        cat.boards.total[i].instanses.push(column);
        assert(cols(cat.boards.total@[i as int].instanses@) =~= cols(before).push(board@[i as int]@));
        i = i + 1;
    }
}

/// A list of per-length tallies grown to at least `n` entries with empty tallies for
/// the lengths it lacked, then with the win of length `n` counted.
pub open spec fn lengths_with_win(ls: Seq<ByLenght>, n: int, amount: int) -> Seq<ByLenght> {
    let len = if ls.len() < n { n } else { ls.len() as int };
    let g = Seq::new(
        len as nat,
        |i: int| if i < ls.len() { ls[i] } else { ByLenght { length: (i + 1) as i64, count: 0, amount: 0 } },
    );
    g.update(n - 1, ByLenght { count: (g[n - 1].count + 1) as i64, amount: (g[n - 1].amount + amount) as i64, ..g[n - 1] })
}

/// Whether a win of `amount` at length `n` can be counted in a list of per-length
/// tallies without overflow.
pub open spec fn length_win_fits(ls: Seq<ByLenght>, n: int, amount: int) -> bool {
    n <= ls.len() ==> ls[n - 1].count < i64::MAX && i64::MIN <= ls[n - 1].amount + amount <= i64::MAX
}

fn count_length_win(ls: &mut Vec<ByLenght>, n: usize, amount: i64)
    requires
        n >= 1,
        length_win_fits(old(ls)@, n as int, amount as int),
        i64::MIN <= amount,
        n <= i64::MAX,
    ensures
        final(ls)@ == lengths_with_win(old(ls)@, n as int, amount as int),
{
    let ghost start = ls@;
    while ls.len() < n
        invariant
            n <= i64::MAX,
            start.len() <= ls@.len(),
            ls@.len() <= (if start.len() < n { n as int } else { start.len() as int }),
            forall|i: int|
                0 <= i < ls@.len() ==> #[trigger] ls@[i] == if i < start.len() {
                    start[i]
                } else {
                    ByLenght { length: (i + 1) as i64, count: 0, amount: 0 }
                },
        decreases n - ls.len(),
    {
        let k = ls.len();
        ls.push(ByLenght { length: (k + 1) as i64, count: 0, amount: 0 });
    }
    let ghost g = ls@;
    let c = ls[n - 1].count + 1;
    let a = ls[n - 1].amount + amount;
    ls[n - 1].count = c;
    ls[n - 1].amount = a;
    assert(ls@ =~= lengths_with_win(start, n as int, amount as int));
}

/// Whether a win of `amount` can be counted in a tally with this count and amount.
pub open spec fn win_fits(count: i64, total: i64, amount: int) -> bool {
    count < i64::MAX && i64::MIN <= total + amount <= i64::MAX
}

/// Whether a pay-line win can be counted in a spin's win tallies without overflow.
pub open spec fn winline_fits(w: Win, line: int, symbol: int, occurrences: int, amount: int) -> bool {
    &&& line <= w.by_lines@.len() ==> win_fits(w.by_lines@[line - 1].count, w.by_lines@[line - 1].amount, amount)
        && length_win_fits(w.by_lines@[line - 1].by_lengths@, occurrences, amount)
    &&& symbol <= w.by_symbols@.len() ==> win_fits(w.by_symbols@[symbol - 1].count, w.by_symbols@[symbol - 1].amount, amount)
        && length_win_fits(w.by_symbols@[symbol - 1].by_lengths@, occurrences, amount)
}

/// What counting a pay-line win (`record_winline`) makes of the win tallies.
pub open spec fn winline_recorded(w0: Win, w1: Win, line: i64, symbol: i64, occurrences: i64, amount: i64) -> bool {
    &&& w1.count == w0.count
    &&& w1.amount == w0.amount
    &&& w1.by_lines@.len() == if w0.by_lines@.len() < line { line as int } else { w0.by_lines@.len() as int }
    &&& forall|j: int|
        0 <= j < w1.by_lines@.len() ==> {
            let after = #[trigger] w1.by_lines@[j];
            let known = j < w0.by_lines@.len();
            if j == line - 1 {
                &&& after.id == if known { w0.by_lines@[j].id } else { (j + 1) as i64 }
                &&& after.count == (if known { w0.by_lines@[j].count as int } else { 0 }) + 1
                &&& after.amount == (if known { w0.by_lines@[j].amount as int } else { 0 }) + amount
                &&& after.by_lengths@ == lengths_with_win(
                    if known { w0.by_lines@[j].by_lengths@ } else { Seq::empty() },
                    occurrences as int,
                    amount as int,
                )
            } else if known {
                after == w0.by_lines@[j]
            } else {
                after.id == (j + 1) as i64 && after.count == 0 && after.amount == 0 && after.by_lengths@.len() == 0
            }
        }
    &&& w1.by_symbols@.len() == if w0.by_symbols@.len() < symbol { symbol as int } else { w0.by_symbols@.len() as int }
    &&& forall|j: int|
        0 <= j < w1.by_symbols@.len() ==> {
            let after = #[trigger] w1.by_symbols@[j];
            let known = j < w0.by_symbols@.len();
            if j == symbol - 1 {
                &&& after.id == if known { w0.by_symbols@[j].id } else { (j + 1) as i64 }
                &&& after.count == (if known { w0.by_symbols@[j].count as int } else { 0 }) + 1
                &&& after.amount == (if known { w0.by_symbols@[j].amount as int } else { 0 }) + amount
                &&& after.by_lengths@ == lengths_with_win(
                    if known { w0.by_symbols@[j].by_lengths@ } else { Seq::empty() },
                    occurrences as int,
                    amount as int,
                )
            } else if known {
                after == w0.by_symbols@[j]
            } else {
                after.id == (j + 1) as i64 && after.count == 0 && after.amount == 0 && after.by_lengths@.len() == 0
            }
        }
}

/// Counts one pay-line win of a spin: the win tallies of its line and of its symbol, and
/// within each the tally of its length (`occurrences`). Lines, symbols and lengths not
/// yet tallied are first added, numbered from 1, with empty tallies.
pub fn record_winline(win: &mut Win, line: i64, symbol: i64, occurrences: i64, amount: i64)
    requires
        1 <= line <= usize::MAX,
        1 <= symbol <= usize::MAX,
        1 <= occurrences <= usize::MAX,
        winline_fits(*old(win), line as int, symbol as int, occurrences as int, amount as int),
    ensures
        winline_recorded(*old(win), *final(win), line, symbol, occurrences, amount),

{
    let ghost w0 = *win;
    let l = line as usize;
    let s = symbol as usize;
    let o = occurrences as usize;
    while win.by_lines.len() < l
        invariant
            l == line,
            1 <= l,
            win.count == w0.count,
            win.amount == w0.amount,
            win.by_symbols == w0.by_symbols,
            w0.by_lines@.len() <= win.by_lines@.len(),
            win.by_lines@.len() <= (if w0.by_lines@.len() < l { l as int } else { w0.by_lines@.len() as int }),
            forall|j: int|
                0 <= j < win.by_lines@.len() ==> if j < w0.by_lines@.len() {
                    #[trigger] win.by_lines@[j] == w0.by_lines@[j]
                } else {
                    win.by_lines@[j].id == (j + 1) as i64 && win.by_lines@[j].count == 0 && win.by_lines@[j].amount == 0
                        && win.by_lines@[j].by_lengths@.len() == 0
                },
        decreases l - win.by_lines.len(),
    {
        let k = win.by_lines.len();
        win.by_lines.push(ByLine { id: (k + 1) as i64, count: 0, amount: 0, by_lengths: Vec::new() });
    }
    let c = win.by_lines[l - 1].count + 1;
    let a = win.by_lines[l - 1].amount + amount;
    win.by_lines[l - 1].count = c;
    win.by_lines[l - 1].amount = a;
    proof {
        if l - 1 >= w0.by_lines@.len() {
            assert(win.by_lines@[l - 1].by_lengths@ =~= Seq::<ByLenght>::empty());
        }
    }
    count_length_win(&mut win.by_lines[l - 1].by_lengths, o, amount);
    let ghost w1 = *win;
    while win.by_symbols.len() < s
        invariant
            win.by_lines == w1.by_lines,
            s == symbol,
            1 <= s,
            win.count == w0.count,
            win.amount == w0.amount,
            w0.by_symbols@.len() <= win.by_symbols@.len(),
            win.by_symbols@.len() <= (if w0.by_symbols@.len() < s { s as int } else { w0.by_symbols@.len() as int }),
            forall|j: int|
                0 <= j < win.by_symbols@.len() ==> if j < w0.by_symbols@.len() {
                    #[trigger] win.by_symbols@[j] == w0.by_symbols@[j]
                } else {
                    win.by_symbols@[j].id == (j + 1) as i64 && win.by_symbols@[j].count == 0 && win.by_symbols@[j].amount
                        == 0 && win.by_symbols@[j].by_lengths@.len() == 0
                },
        decreases s - win.by_symbols.len(),
    {
        let k = win.by_symbols.len();
        win.by_symbols.push(BySymbol { id: (k + 1) as i64, count: 0, amount: 0, by_lengths: Vec::new() });
    }
    let c = win.by_symbols[s - 1].count + 1;
    let a = win.by_symbols[s - 1].amount + amount;
    win.by_symbols[s - 1].count = c;
    win.by_symbols[s - 1].amount = a;
    proof {
        if s - 1 >= w0.by_symbols@.len() {
            assert(win.by_symbols@[s - 1].by_lengths@ =~= Seq::<ByLenght>::empty());
        }
    }
    count_length_win(&mut win.by_symbols[s - 1].by_lengths, o, amount);
}

/// How many of the first `r` cells of a column hold `x`.
pub open spec fn col_hits(col: Seq<i64>, x: i64, r: nat) -> nat
    decreases r,
{
    if r == 0 || r > col.len() {
        0
    } else {
        col_hits(col, x, (r - 1) as nat) + if col[r - 1] == x { 1nat } else { 0nat }
    }
}

/// How many cells of the first `c` columns of a board hold `x`.
pub open spec fn board_hits(b: Seq<Seq<i64>>, x: i64, c: nat) -> nat
    decreases c,
{
    if c == 0 || c > b.len() {
        0
    } else {
        board_hits(b, x, (c - 1) as nat) + col_hits(b[c - 1], x, b[c - 1].len())
    }
}

/// Whether cell (`c`, `r`) of a board holds `x`.
pub open spec fn cell_is(b: Seq<Seq<i64>>, c: int, r: int, x: i64) -> bool {
    0 <= c < b.len() && 0 <= r < b[c].len() && b[c][r] == x
}

/// Whether the landings of a board can be counted in the symbol tallies: every cell
/// holds a symbol id from 1 to the number of tallies, whose tally has that column and
/// row, and no count overflows.
pub open spec fn landings_fit(syms: Seq<Symbol>, b: Seq<Seq<i64>>) -> bool {
    &&& forall|c: int, r: int|
        0 <= c < b.len() && 0 <= r < b[c].len() ==> {
            let x = #[trigger] b[c][r];
            &&& 1 <= x <= syms.len()
            &&& c < syms[x - 1].cols@.len()
            &&& r < syms[x - 1].cols@[c].rows@.len()
            &&& syms[x - 1].cols@[c].rows@[r].count < i64::MAX
        }
    &&& forall|k: int| 0 <= k < syms.len() ==> (#[trigger] syms[k]).count + board_hits(b, (k + 1) as i64, b.len()) <= i64::MAX
    &&& forall|k: int, c: int|
        0 <= k < syms.len() && 0 <= c < b.len() && c < syms[k].cols@.len() ==> (#[trigger] syms[k].cols@[c]).count
            + col_hits(b[c], (k + 1) as i64, b[c].len()) <= i64::MAX
}

proof fn lemma_col_hits_grow(col: Seq<i64>, x: i64, r: nat, q: nat)
    requires
        r <= q <= col.len(),
    ensures
        col_hits(col, x, r) <= col_hits(col, x, q),
    decreases q - r,
{
    if r < q {
        lemma_col_hits_grow(col, x, r, (q - 1) as nat);
    }
}

proof fn lemma_board_hits_grow(b: Seq<Seq<i64>>, x: i64, c: nat, q: nat)
    requires
        c <= q <= b.len(),
    ensures
        board_hits(b, x, c) <= board_hits(b, x, q),
    decreases q - c,
{
    if c < q {
        lemma_board_hits_grow(b, x, c, (q - 1) as nat);
    }
}

/// The tally of symbol `x` after the cells before (`c`, `r`) are counted, column by
/// column, from the tally `s0`.
pub open spec fn tally_at(s: Symbol, s0: Symbol, b: Seq<Seq<i64>>, x: i64, c: nat, r: nat) -> bool {
    &&& s.id == s0.id
    &&& s.values == s0.values
    &&& s.multiplayers == s0.multiplayers
    &&& s.cols@.len() == s0.cols@.len()
    &&& s.count == s0.count + board_hits(b, x, c) + if c < b.len() { col_hits(b[c as int], x, r) } else { 0 }
    &&& forall|c2: int|
        0 <= c2 < s.cols@.len() ==> {
            &&& (#[trigger] s.cols@[c2]).rows@.len() == s0.cols@[c2].rows@.len()
            &&& s.cols@[c2].count == s0.cols@[c2].count + if c2 < c && c2 < b.len() {
                col_hits(b[c2], x, b[c2].len()) as int
            } else if c2 == c && c2 < b.len() {
                col_hits(b[c2], x, r) as int
            } else {
                0int
            }
        }
    &&& forall|c2: int, r2: int|
        0 <= c2 < s.cols@.len() && 0 <= r2 < s.cols@[c2].rows@.len() ==> (#[trigger] s.cols@[c2].rows@[r2]).count
            == s0.cols@[c2].rows@[r2].count + if cell_is(b, c2, r2, x) && (c2 < c || (c2 == c && r2 < r)) {
            1int
        } else {
            0int
        }
}

proof fn lemma_tally_miss(s: Symbol, s0: Symbol, b: Seq<Seq<i64>>, y: i64, c: nat, r: nat)
    requires
        c < b.len(),
        r < b[c as int].len(),
        b[c as int][r as int] != y,
        tally_at(s, s0, b, y, c, r),
    ensures
        tally_at(s, s0, b, y, c, r + 1),
{
    assert(col_hits(b[c as int], y, r + 1) == col_hits(b[c as int], y, r));
    assert forall|c2: int, r2: int|
        0 <= c2 < s.cols@.len() && 0 <= r2 < s.cols@[c2].rows@.len() implies (#[trigger] s.cols@[c2].rows@[r2]).count
            == s0.cols@[c2].rows@[r2].count + if cell_is(b, c2, r2, y) && (c2 < c || (c2 == c && r2 < r + 1)) {
            1int
        } else {
            0int
        } by {
        if c2 == c && r2 == r {
            assert(!cell_is(b, c2, r2, y));
        }
    }
}

proof fn lemma_tally_hit(s: Symbol, t: Symbol, s0: Symbol, b: Seq<Seq<i64>>, x: i64, c: nat, r: nat)
    requires
        c < b.len(),
        r < b[c as int].len(),
        b[c as int][r as int] == x,
        tally_at(s, s0, b, x, c, r),
        c < s.cols@.len(),
        r < s.cols@[c as int].rows@.len(),
        t.id == s.id,
        t.values == s.values,
        t.multiplayers == s.multiplayers,
        t.count == s.count + 1,
        t.cols@.len() == s.cols@.len(),
        forall|c2: int| 0 <= c2 < s.cols@.len() && c2 != c ==> #[trigger] t.cols@[c2] == s.cols@[c2],
        t.cols@[c as int].count == s.cols@[c as int].count + 1,
        t.cols@[c as int].rows@.len() == s.cols@[c as int].rows@.len(),
        forall|r2: int|
            0 <= r2 < s.cols@[c as int].rows@.len() && r2 != r ==> #[trigger] t.cols@[c as int].rows@[r2]
                == s.cols@[c as int].rows@[r2],
        t.cols@[c as int].rows@[r as int].count == s.cols@[c as int].rows@[r as int].count + 1,
    ensures
        tally_at(t, s0, b, x, c, r + 1),
{
    assert(col_hits(b[c as int], x, r + 1) == col_hits(b[c as int], x, r) + 1);
    assert forall|c2: int| 0 <= c2 < t.cols@.len() implies {
        &&& (#[trigger] t.cols@[c2]).rows@.len() == s0.cols@[c2].rows@.len()
        &&& t.cols@[c2].count == s0.cols@[c2].count + if c2 < c && c2 < b.len() {
            col_hits(b[c2], x, b[c2].len()) as int
        } else if c2 == c && c2 < b.len() {
            col_hits(b[c2], x, (r + 1) as nat) as int
        } else {
            0int
        }
    } by {
        assert(s.cols@[c2].rows@.len() == s0.cols@[c2].rows@.len());
    }
    assert forall|c2: int, r2: int|
        0 <= c2 < t.cols@.len() && 0 <= r2 < t.cols@[c2].rows@.len() implies (#[trigger] t.cols@[c2].rows@[r2]).count
            == s0.cols@[c2].rows@[r2].count + if cell_is(b, c2, r2, x) && (c2 < c || (c2 == c && r2 < r + 1)) {
            1int
        } else {
            0int
        } by {
        assert(s.cols@[c2].rows@.len() == s0.cols@[c2].rows@.len());
        if c2 == c {
            if r2 == r {
                assert(cell_is(b, c2, r2, x));
            } else {
                assert(t.cols@[c2].rows@[r2] == s.cols@[c2].rows@[r2]);
            }
        } else {
            assert(t.cols@[c2] == s.cols@[c2]);
        }
    }
}

proof fn lemma_tally_next_column(s: Symbol, s0: Symbol, b: Seq<Seq<i64>>, y: i64, c: nat)
    requires
        c < b.len(),
        tally_at(s, s0, b, y, c, b[c as int].len()),
    ensures
        tally_at(s, s0, b, y, c + 1, 0),
{
    assert forall|c2: int, r2: int|
        0 <= c2 < s.cols@.len() && 0 <= r2 < s.cols@[c2].rows@.len() implies (#[trigger] s.cols@[c2].rows@[r2]).count
            == s0.cols@[c2].rows@[r2].count + if cell_is(b, c2, r2, y) && (c2 < c + 1 || (c2 == c + 1 && r2 < 0)) {
            1int
        } else {
            0int
        } by {
        if c2 == c && cell_is(b, c2, r2, y) {
            assert(r2 < b[c as int].len());
        }
    }
}

/// Counts the landings of a board in the symbol tallies: for each cell, the tally of
/// the symbol it holds (symbol `k + 1` at place `k`) counts one landing in total, in
/// the cell's column and on the cell's row.
pub fn record_landings(syms: &mut Vec<Symbol>, board: &Vec<Vec<i64>>)
    requires
        old(syms)@.len() <= i64::MAX,
        landings_fit(old(syms)@, cols(board@)),
    ensures
        final(syms)@.len() == old(syms)@.len(),
        forall|k: int|
            0 <= k < old(syms)@.len() ==> tally_at(
                #[trigger] final(syms)@[k],
                old(syms)@[k],
                cols(board@),
                (k + 1) as i64,
                board@.len(),
                0,
            ),
{
    let ghost b = cols(board@);
    let ghost s0 = syms@;
    let mut c: usize = 0;
    while c < board.len()
        invariant
            b == cols(board@),
            landings_fit(s0, b),
            s0.len() <= i64::MAX,
            c <= b.len(),
            syms@.len() == s0.len(),
            forall|k: int| 0 <= k < s0.len() ==> tally_at(#[trigger] syms@[k], s0[k], b, (k + 1) as i64, c as nat, 0),
        decreases board.len() - c,
    {
        let col = &board[c];
        let mut r: usize = 0;
        while r < col.len()
            invariant
                b == cols(board@),
                landings_fit(s0, b),
                s0.len() <= i64::MAX,
                c < b.len(),
                col@ == b[c as int],
                r <= col@.len(),
                syms@.len() == s0.len(),
                forall|k: int|
                    0 <= k < s0.len() ==> tally_at(#[trigger] syms@[k], s0[k], b, (k + 1) as i64, c as nat, r as nat),
            decreases col.len() - r,
        {
            let x = col[r];
            assert(b[c as int][r as int] == x);
            assert(0 <= x - 1 < syms.len());
            let k = (x - 1) as usize;
            assert(k as int == x - 1);
            proof {
                assert(1 <= x <= s0.len());
                assert(((k as int + 1) as i64) == x);
                assert(tally_at(syms@[k as int], s0[k as int], b, (k as int + 1) as i64, c as nat, r as nat));
                lemma_col_hits_grow(b[c as int], x, (r + 1) as nat, b[c as int].len());
                lemma_board_hits_grow(b, x, (c + 1) as nat, b.len());
                assert(syms@[k as int].cols@[c as int].rows@[r as int].count == s0[k as int].cols@[c as int].rows@[r as int].count);
            }
            let ghost before = syms@;
            let n = syms[k].count + 1;
            syms[k].count = n;
            let n = syms[k].cols[c].count + 1;
            syms[k].cols[c].count = n;
            let n = syms[k].cols[c].rows[r].count + 1;
            syms[k].cols[c].rows[r].count = n;
            assert forall|k2: int| 0 <= k2 < s0.len() implies tally_at(
                #[trigger] syms@[k2],
                s0[k2],
                b,
                (k2 + 1) as i64,
                c as nat,
                (r + 1) as nat,
            ) by {
                assert(tally_at(before[k2], s0[k2], b, (k2 + 1) as i64, c as nat, r as nat));
                if k2 == k {
                    lemma_tally_hit(before[k2], syms@[k2], s0[k2], b, x, c as nat, r as nat);
                } else {
                    assert(syms@[k2] == before[k2]);
                    lemma_tally_miss(before[k2], s0[k2], b, (k2 + 1) as i64, c as nat, r as nat);
                }
            }
            r = r + 1;
        }
        assert forall|k2: int| 0 <= k2 < s0.len() implies tally_at(
            #[trigger] syms@[k2],
            s0[k2],
            b,
            (k2 + 1) as i64,
            (c + 1) as nat,
            0,
        ) by {
            assert(tally_at(syms@[k2], s0[k2], b, (k2 + 1) as i64, c as nat, col@.len() as nat));
            lemma_tally_next_column(syms@[k2], s0[k2], b, (k2 + 1) as i64, c as nat);
        }
        c = c + 1;
    }
}

/// What a bonus round's log entry records: the start of a bonus, a respin, or anything
/// else.
#[derive(Clone, Copy, Debug, PartialEq, Eq)]
pub enum BonusAction {
    Init,
    Respin,
    Other,
}

/// The bonus being played, as the log is read: its bonus symbol count as last tracked,
/// and its mechanics.
#[derive(Clone, Debug, Default)]
pub struct BonusTrack {
    pub bs_count: usize,
    pub mechanic: Vec<i64>,
}

/// The per-length tallies with one respin counted at length `t`, and one emergence when
/// `emerged`.
pub open spec fn lengths_after_respin(ls: Seq<ByBonusLenght>, t: int, emerged: bool) -> Seq<ByBonusLenght> {
    ls.update(
        t - 1,
        ByBonusLenght {
            respins: (ls[t - 1].respins + 1) as i64,
            emerged: (ls[t - 1].emerged + if emerged { 1int } else { 0int }) as i64,
            ..ls[t - 1]
        },
    )
}

/// Whether a respin at length `t` can be counted in per-length tallies: the length is
/// tallied and no count overflows.
pub open spec fn respin_fits(ls: Seq<ByBonusLenght>, t: int, emerged: bool) -> bool {
    &&& 1 <= t <= ls.len()
    &&& ls[t - 1].respins < i64::MAX
    &&& emerged ==> ls[t - 1].emerged < i64::MAX
}

/// Whether a bonus step can be counted without a fault: a start has at least one bonus
/// symbol, a respin's tracked length is tallied, and no count overflows.
pub open spec fn bonus_step_fits(
    cat: Category,
    track: BonusTrack,
    action: BonusAction,
    bs_count: usize,
    mechanic: Seq<i64>,
    round_win: i64,
) -> bool {
    let t = track.bs_count as int;
    let emerged = t != bs_count;
    let reinit = track.mechanic@ != mechanic;
    &&& cat.count < i64::MAX
    &&& action is Init ==> bs_count >= 1 && cat.bonus.inits < i64::MAX && match mechanic_index(
        cat.bonus.by_mechanics@,
        mechanic,
        0,
    ) {
        Some(m) => cat.bonus.by_mechanics@[m as int].inits < i64::MAX,
        None => true,
    }
    &&& action is Respin ==> {
        &&& cat.bonus.respins < i64::MAX
        &&& respin_fits(cat.bonus.by_bonus_lenghts@, t, emerged)
        &&& emerged ==> cat.bonus.emerged < i64::MAX
        &&& i64::MIN <= cat.bonus.amount + round_win <= i64::MAX
        &&& reinit ==> cat.bonus.reinits < i64::MAX
        &&& match mechanic_index(cat.bonus.by_mechanics@, track.mechanic@, 0) {
            Some(m) => {
                let bm = cat.bonus.by_mechanics@[m as int];
                &&& bm.respins < i64::MAX
                &&& respin_fits(bm.by_bonus_lenghts@, t, emerged)
                &&& emerged ==> bm.emerged < i64::MAX
                &&& i64::MIN <= bm.amount + round_win <= i64::MAX
                &&& reinit ==> bm.reinits < i64::MAX
            },
            None => true,
        }
    }
}

/// Whether two mechanics entries agree on all but their start and respin counters.
pub open spec fn same_but_counters(a: ByMechanic, b: ByMechanic) -> bool {
    &&& a.id == b.id
    &&& a.appearances == b.appearances
    &&& a.reappearances == b.reappearances
    &&& a.combo_symbols == b.combo_symbols
    &&& a.symbols == b.symbols
    &&& a.mystery_symbols == b.mystery_symbols
}

/// What counting a bonus step (`record_bonus_step`) makes of its category and of the
/// track of the bonus being played.
pub open spec fn bonus_step_recorded(c0: Category, t0: BonusTrack, c1: Category, t1: BonusTrack, action: BonusAction, bs_count: usize, mechanic: Seq<i64>, round_win: i64) -> bool {
    &&& c1.count == c0.count + 1
    &&& c1.spins == c0.spins
    &&& c1.boards == c0.boards
    &&& c1.reels == c0.reels
    &&& c1.bonus.appearances == c0.bonus.appearances
    &&& c1.bonus.reappearances == c0.bonus.reappearances
    &&& c1.bonus.symbols == c0.bonus.symbols
    &&& c1.bonus.mystery_symbols == c0.bonus.mystery_symbols
    &&& c1.bonus.combo_symbols == c0.bonus.combo_symbols
    &&& c1.bonus.id == c0.bonus.id
    &&& c1.bonus.by_mechanics@.len() == c0.bonus.by_mechanics@.len()
    &&& action is Other ==> c1.bonus == c0.bonus
    &&& action is Other ==> t1.bs_count == t0.bs_count && t1.mechanic@ == t0.mechanic@
    &&& action is Init ==> {
        let found = mechanic_index(c0.bonus.by_mechanics@, mechanic, 0);
        &&& c1.bonus.inits == c0.bonus.inits + 1
        &&& c1.bonus.respins == c0.bonus.respins
        &&& c1.bonus.emerged == c0.bonus.emerged
        &&& c1.bonus.amount == c0.bonus.amount
        &&& c1.bonus.reinits == c0.bonus.reinits
        &&& c1.bonus.by_bonus_lenghts == c0.bonus.by_bonus_lenghts
        &&& t1.mechanic@ == mechanic
        &&& t1.bs_count == if found is Some { bs_count as int } else { bs_count - 1 }
        &&& forall|k: int|
            0 <= k < c0.bonus.by_mechanics@.len() ==> {
                let before = c0.bonus.by_mechanics@[k];
                let after = #[trigger] c1.bonus.by_mechanics@[k];
                if found == Some(k as nat) {
                    after == ByMechanic { inits: (before.inits + 1) as i64, ..before }
                } else {
                    after == before
                }
            }
    }
    &&& action is Respin ==> {
        let t = t0.bs_count as int;
        let emerged = t != bs_count;
        let reinit = t0.mechanic@ != mechanic;
        let found = mechanic_index(c0.bonus.by_mechanics@, t0.mechanic@, 0);
        &&& c1.bonus.inits == c0.bonus.inits
        &&& c1.bonus.respins == c0.bonus.respins + 1
        &&& c1.bonus.emerged == c0.bonus.emerged + if emerged { 1int } else { 0int }
        &&& c1.bonus.amount == c0.bonus.amount + round_win
        &&& c1.bonus.reinits == c0.bonus.reinits + if reinit { 1int } else { 0int }
        &&& c1.bonus.by_bonus_lenghts@ == lengths_after_respin(c0.bonus.by_bonus_lenghts@, t, emerged)
        &&& t1.bs_count == if found is Some { bs_count as int } else { t }
        &&& t1.mechanic@ == if found is Some && reinit { mechanic } else { t0.mechanic@ }
        &&& forall|k: int|
            0 <= k < c0.bonus.by_mechanics@.len() ==> {
                let before = c0.bonus.by_mechanics@[k];
                let after = #[trigger] c1.bonus.by_mechanics@[k];
                if found == Some(k as nat) {
                    &&& same_but_counters(after, before)
                    &&& after.inits == before.inits
                    &&& after.respins == before.respins + 1
                    &&& after.emerged == before.emerged + if emerged { 1int } else { 0int }
                    &&& after.amount == before.amount + round_win
                    &&& after.reinits == before.reinits + if reinit { 1int } else { 0int }
                    &&& after.by_bonus_lenghts@ == lengths_after_respin(before.by_bonus_lenghts@, t, emerged)
                } else {
                    after == before
                }
            }
    }
}

/// Counts the start, respin and end steps of bonus rounds in their category, as a log of
/// plays is read, with the bonus being played tracked across steps. A start counts a
/// bonus start and tracks the bonus's mechanics and one bonus symbol less than it holds;
/// the mechanics' entry, when there is one, counts the start too, and the tracked count
/// comes back to the bonus symbols held. A respin counts a respin at the tracked length,
/// an emergence when the bonus symbols held differ from those tracked, its win, and a
/// re-start when the mechanics changed; the tracked mechanics' entry, when there is one,
/// counts the same and the track then takes the bonus symbols held and the mechanics.
/// Any other step counts only the round. The bonus symbols' landings and combinations
/// are not counted here.
pub fn record_bonus_step(
    cat: &mut Category,
    track: &mut BonusTrack,
    action: BonusAction,
    bs_count: usize,
    bonus_mechanic: &Vec<i64>,
    round_win: i64,
)
    requires
        bonus_step_fits(*old(cat), *old(track), action, bs_count, bonus_mechanic@, round_win),
    ensures
        bonus_step_recorded(*old(cat), *old(track), *final(cat), *final(track), action, bs_count, bonus_mechanic@, round_win),

{
    cat.count = cat.count + 1;
    match action {
        BonusAction::Init => {
            cat.bonus.inits = cat.bonus.inits + 1;
            track.mechanic = copy_i64(bonus_mechanic);
            track.bs_count = bs_count - 1;
            match find_mechanic(&cat.bonus.by_mechanics, &track.mechanic) {
                Some(m) => {
                    let v = cat.bonus.by_mechanics[m].inits + 1;
                    cat.bonus.by_mechanics[m].inits = v;
                    track.bs_count = track.bs_count + 1;
                },
                None => {},
            }
        },
        BonusAction::Respin => {
            let t = track.bs_count;
            let emerged = t != bs_count;
            let reinit = !same_ids(&track.mechanic, bonus_mechanic);
            let ghost bbl0 = cat.bonus.by_bonus_lenghts@;
            cat.bonus.respins = cat.bonus.respins + 1;
            let v = cat.bonus.by_bonus_lenghts[t - 1].respins + 1;
            cat.bonus.by_bonus_lenghts[t - 1].respins = v;
            if emerged {
                cat.bonus.emerged = cat.bonus.emerged + 1;
                let v = cat.bonus.by_bonus_lenghts[t - 1].emerged + 1;
                cat.bonus.by_bonus_lenghts[t - 1].emerged = v;
            }
            assert(cat.bonus.by_bonus_lenghts@ =~= lengths_after_respin(bbl0, t as int, emerged));
            cat.bonus.amount = cat.bonus.amount + round_win;
            if reinit {
                cat.bonus.reinits = cat.bonus.reinits + 1;
            }
            match find_mechanic(&cat.bonus.by_mechanics, &track.mechanic) {
                Some(m) => {
                    let ghost bm0 = cat.bonus.by_mechanics@[m as int];
                    let v = cat.bonus.by_mechanics[m].respins + 1;
                    cat.bonus.by_mechanics[m].respins = v;
                    let v = cat.bonus.by_mechanics[m].by_bonus_lenghts[t - 1].respins + 1;
                    cat.bonus.by_mechanics[m].by_bonus_lenghts[t - 1].respins = v;
                    if emerged {
                        let v = cat.bonus.by_mechanics[m].emerged + 1;
                        cat.bonus.by_mechanics[m].emerged = v;
                        let v = cat.bonus.by_mechanics[m].by_bonus_lenghts[t - 1].emerged + 1;
                        cat.bonus.by_mechanics[m].by_bonus_lenghts[t - 1].emerged = v;
                        track.bs_count = bs_count;
                    }
                    let v = cat.bonus.by_mechanics[m].amount + round_win;
                    cat.bonus.by_mechanics[m].amount = v;
                    assert(cat.bonus.by_mechanics@[m as int].by_bonus_lenghts@ =~= lengths_after_respin(
                        bm0.by_bonus_lenghts@,
                        t as int,
                        emerged,
                    ));
                    if reinit {
                        let v = cat.bonus.by_mechanics[m].reinits + 1;
                        cat.bonus.by_mechanics[m].reinits = v;
                        track.mechanic = copy_i64(bonus_mechanic);
                    }
                },
                None => {},
            }
        },
        BonusAction::Other => {},
    }
}


fn col_hits_exec(col: &Vec<i64>, x: i64) -> (r: u64)
    ensures
        r == col_hits(col@, x, col@.len()),
{
    let mut n: u64 = 0;
    let mut r: usize = 0;
    while r < col.len()
        invariant
            r <= col@.len(),
            n == col_hits(col@, x, r as nat),
            n <= r,
        decreases col.len() - r,
    {
        if col[r] == x {
            n = n + 1;
        }
        r = r + 1;
    }
    n
}

fn board_hits_exec(board: &Vec<Vec<i64>>, x: i64) -> (r: u128)
    ensures
        r == board_hits(cols(board@), x, board@.len()),
{
    let ghost b = cols(board@);
    let mut n: u128 = 0;
    let mut c: usize = 0;
    while c < board.len()
        invariant
            b == cols(board@),
            c <= board@.len(),
            n == board_hits(b, x, c as nat),
            n <= c * 0x1_0000_0000_0000_0000,
        decreases board.len() - c,
    {
        let h = col_hits_exec(&board[c], x);
        assert(b[c as int] == board@[c as int]@);
        n = n + h as u128;
        c = c + 1;
    }
    n
}

/// Whether the landings of a board can be counted in the symbol tallies
/// (`landings_fit`).
pub(crate) fn landings_fit_exec(syms: &Vec<Symbol>, board: &Vec<Vec<i64>>) -> (r: bool)
    requires
        syms@.len() <= i64::MAX,
    ensures
        r == landings_fit(syms@, cols(board@)),
{
    let ghost b = cols(board@);
    let mut c: usize = 0;
    while c < board.len()
        invariant
            b == cols(board@),
            c <= board@.len(),
            forall|c2: int, r2: int|
                0 <= c2 < c && 0 <= r2 < b[c2].len() ==> {
                    let x = #[trigger] b[c2][r2];
                    &&& 1 <= x <= syms@.len()
                    &&& c2 < syms@[x - 1].cols@.len()
                    &&& r2 < syms@[x - 1].cols@[c2].rows@.len()
                    &&& syms@[x - 1].cols@[c2].rows@[r2].count < i64::MAX
                },
        decreases board.len() - c,
    {
        let col = &board[c];
        let mut r: usize = 0;
        while r < col.len()
            invariant
                b == cols(board@),
                c < board@.len(),
                col@ == b[c as int],
                r <= col@.len(),
                forall|c2: int, r2: int|
                    0 <= c2 < c && 0 <= r2 < b[c2].len() ==> {
                        let x = #[trigger] b[c2][r2];
                        &&& 1 <= x <= syms@.len()
                        &&& c2 < syms@[x - 1].cols@.len()
                        &&& r2 < syms@[x - 1].cols@[c2].rows@.len()
                        &&& syms@[x - 1].cols@[c2].rows@[r2].count < i64::MAX
                    },
                forall|r2: int|
                    0 <= r2 < r ==> {
                        let x = #[trigger] b[c as int][r2];
                        &&& 1 <= x <= syms@.len()
                        &&& c < syms@[x - 1].cols@.len()
                        &&& r2 < syms@[x - 1].cols@[c as int].rows@.len()
                        &&& syms@[x - 1].cols@[c as int].rows@[r2].count < i64::MAX
                    },
            decreases col.len() - r,
        {
            let x = col[r];
            assert(b[c as int][r as int] == x);
            if x < 1 || x as u64 > syms.len() as u64 {
                return false;
            }
            let k = (x - 1) as usize;
            if c >= syms[k].cols.len() || r >= syms[k].cols[c].rows.len() || syms[k].cols[c].rows[r].count == i64::MAX {
                return false;
            }
            r = r + 1;
        }
        c = c + 1;
    }
    let mut k: usize = 0;
    while k < syms.len()
        invariant
            b == cols(board@),
            syms@.len() <= i64::MAX,
            k <= syms@.len(),
            forall|c2: int, r2: int|
                0 <= c2 < b.len() && 0 <= r2 < b[c2].len() ==> {
                    let x = #[trigger] b[c2][r2];
                    &&& 1 <= x <= syms@.len()
                    &&& c2 < syms@[x - 1].cols@.len()
                    &&& r2 < syms@[x - 1].cols@[c2].rows@.len()
                    &&& syms@[x - 1].cols@[c2].rows@[r2].count < i64::MAX
                },
            forall|k2: int|
                0 <= k2 < k ==> (#[trigger] syms@[k2]).count + board_hits(b, (k2 + 1) as i64, b.len()) <= i64::MAX,
            forall|k2: int, c2: int|
                0 <= k2 < k && 0 <= c2 < b.len() && c2 < syms@[k2].cols@.len() ==> (#[trigger] syms@[k2].cols@[c2]).count
                    + col_hits(b[c2], (k2 + 1) as i64, b[c2].len()) <= i64::MAX,
        decreases syms.len() - k,
    {
        let x = (k + 1) as i64;
        let h = board_hits_exec(board, x);
        let room: i128 = i64::MAX as i128 - syms[k].count as i128;
        if h > room as u128 {
            return false;
        }
        let mut c: usize = 0;
        while c < board.len()
            invariant
                b == cols(board@),
                k < syms@.len(),
                x == (k + 1) as i64,
                c <= b.len(),
                forall|c2: int|
                    0 <= c2 < c && c2 < syms@[k as int].cols@.len() ==> (#[trigger] syms@[k as int].cols@[c2]).count
                        + col_hits(b[c2], x, b[c2].len()) <= i64::MAX,
            decreases board.len() - c,
        {
            if c < syms[k].cols.len() {
                let hc = col_hits_exec(&board[c], x);
                assert(b[c as int] == board@[c as int]@);
                let room: i128 = i64::MAX as i128 - syms[k].cols[c].count as i128;
                if hc as i128 > room {
                    return false;
                }
            }
            c = c + 1;
        }
        k = k + 1;
    }
    true
}

/// Whether a spin round can be counted in a category (`spin_fits`).
pub(crate) fn spin_fits_exec(cat: &Category, round_bet: i64, round_win: i64, board: &Vec<Vec<i64>>, width: usize) -> (r: bool)
    ensures
        r == spin_fits(*cat, round_bet, round_win, cols(board@), width),
{
    let ghost b = cols(board@);
    if cat.count == i64::MAX || cat.spins.count == i64::MAX || cat.spins.bet.count == i64::MAX {
        return false;
    }
    let bet_sum = cat.spins.bet.amount as i128 + round_bet as i128;
    if bet_sum < i64::MIN as i128 || bet_sum > i64::MAX as i128 {
        return false;
    }
    if round_win > 0 && (cat.spins.win.count == i64::MAX || cat.spins.win.amount as i128 + round_win as i128
        > i64::MAX as i128) {
        return false;
    }
    let add = board_holds(board, 11);
    let twice = board_holds(board, 12);
    let cluster = board_holds(board, 13);
    if add || twice || cluster {
        let mut id: Vec<i64> = Vec::new();
        if add {
            id.push(1);
        }
        if twice {
            id.push(2);
        }
        if cluster {
            id.push(3);
        }
        assert(id@ =~= started_mechanic(b));
        if cat.bonus.appearances == i64::MAX {
            return false;
        }
        match find_mechanic(&cat.bonus.by_mechanics, &id) {
            Some(k) => {
                if cat.bonus.by_mechanics[k].appearances == i64::MAX {
                    return false;
                }
            },
            None => {},
        }
    } else {
        assert(started_mechanic(b) =~= Seq::<i64>::empty());
    }
    if width > board.len() || width > cat.boards.total.len() {
        return false;
    }
    if cat.spins.symbols.len() as u64 > i64::MAX as u64 {
        return false;
    }
    landings_fit_exec(&cat.spins.symbols, board)
}

fn respin_fits_exec(ls: &Vec<ByBonusLenght>, t: usize, emerged: bool) -> (r: bool)
    ensures
        r == respin_fits(ls@, t as int, emerged),
{
    1 <= t && t <= ls.len() && ls[t - 1].respins < i64::MAX && (!emerged || ls[t - 1].emerged < i64::MAX)
}

/// Whether a bonus step can be counted (`bonus_step_fits`).
pub(crate) fn bonus_step_fits_exec(
    cat: &Category,
    track: &BonusTrack,
    action: BonusAction,
    bs_count: usize,
    mechanic: &Vec<i64>,
    round_win: i64,
) -> (r: bool)
    ensures
        r == bonus_step_fits(*cat, *track, action, bs_count, mechanic@, round_win),
{
    if cat.count == i64::MAX {
        return false;
    }
    match action {
        BonusAction::Init => {
            if bs_count < 1 || cat.bonus.inits == i64::MAX {
                return false;
            }
            match find_mechanic(&cat.bonus.by_mechanics, mechanic) {
                Some(m) => cat.bonus.by_mechanics[m].inits < i64::MAX,
                None => true,
            }
        },
        BonusAction::Respin => {
            let t = track.bs_count;
            let emerged = t != bs_count;
            let reinit = !same_ids(&track.mechanic, mechanic);
            if cat.bonus.respins == i64::MAX || !respin_fits_exec(&cat.bonus.by_bonus_lenghts, t, emerged) {
                return false;
            }
            if emerged && cat.bonus.emerged == i64::MAX {
                return false;
            }
            let sum = cat.bonus.amount as i128 + round_win as i128;
            if sum < i64::MIN as i128 || sum > i64::MAX as i128 {
                return false;
            }
            if reinit && cat.bonus.reinits == i64::MAX {
                return false;
            }
            match find_mechanic(&cat.bonus.by_mechanics, &track.mechanic) {
                Some(m) => {
                    let bm = &cat.bonus.by_mechanics[m];
                    let sum = bm.amount as i128 + round_win as i128;
                    bm.respins < i64::MAX && respin_fits_exec(&bm.by_bonus_lenghts, t, emerged) && (!emerged
                        || bm.emerged < i64::MAX) && i64::MIN as i128 <= sum && sum <= i64::MAX as i128 && (!reinit
                        || bm.reinits < i64::MAX)
                },
                None => true,
            }
        },
        BonusAction::Other => true,
    }
}

fn length_win_fits_exec(ls: &Vec<ByLenght>, n: usize, amount: i64) -> (r: bool)
    requires
        n >= 1,
    ensures
        r == length_win_fits(ls@, n as int, amount as int),
{
    if n > ls.len() {
        return true;
    }
    let sum = ls[n - 1].amount as i128 + amount as i128;
    ls[n - 1].count < i64::MAX && i64::MIN as i128 <= sum && sum <= i64::MAX as i128
}

/// Whether a pay-line win can be counted (`winline_fits`).
pub(crate) fn winline_fits_exec(w: &Win, line: usize, symbol: usize, occurrences: usize, amount: i64) -> (r: bool)
    requires
        line >= 1,
        symbol >= 1,
        occurrences >= 1,
    ensures
        r == winline_fits(*w, line as int, symbol as int, occurrences as int, amount as int),
{
    if line <= w.by_lines.len() {
        let e = &w.by_lines[line - 1];
        let sum = e.amount as i128 + amount as i128;
        if !(e.count < i64::MAX && i64::MIN as i128 <= sum && sum <= i64::MAX as i128 && length_win_fits_exec(
            &e.by_lengths,
            occurrences,
            amount,
        )) {
            return false;
        }
    }
    if symbol <= w.by_symbols.len() {
        let e = &w.by_symbols[symbol - 1];
        let sum = e.amount as i128 + amount as i128;
        if !(e.count < i64::MAX && i64::MIN as i128 <= sum && sum <= i64::MAX as i128 && length_win_fits_exec(
            &e.by_lengths,
            occurrences,
            amount,
        )) {
            return false;
        }
    }
    true
}

} // verus!
