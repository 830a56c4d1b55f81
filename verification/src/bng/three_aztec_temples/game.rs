use vstd::prelude::*;

use crate::bng::three_aztec_temples::boards::{cols, copy_i64};
use crate::bng::three_aztec_temples::models::{
    bonus_lenghts_v, combos_v, copy_bonus_lenghts, copy_combos, copy_symbols, symbols_v, Bet, Board, Boards,
    BoardsInstanse, Bonus, ByBonusLenghtV, ByLenght, ByLine, ByMechanic, BySymbol, Category, Reel, Spins, SymbolV,
    UniqueBoardsInstanse, Win,
};
use crate::bng::three_aztec_temples::reels::{cand_v, cands_v, copy_cand, CandV};
use crate::bng::three_aztec_temples::spin_record::{
    bonus_step_fits, bonus_step_fits_exec, bonus_step_recorded, record_bonus_step, record_spin, record_winline,
    spin_fits, spin_fits_exec, spin_recorded, winline_fits, winline_fits_exec, winline_recorded, BonusAction,
    BonusTrack,
};
use crate::json::{
    as_int, as_list, as_text, at, copy_json, get, get_array, get_at, get_i64, get_key, is_text, jv, jv_list,
    lemma_jv_list, ov, Json, JsonV,
};

verus! {

/// The value of the wins of one line or symbol: id, count, amount and per-length tallies.
pub type WinRowV = (i64, i64, i64, Seq<ByLenght>);

/// The value of all wins.
pub struct WinV {
    pub count: i64,
    pub amount: i64,
    pub by_lines: Seq<WinRowV>,
    pub by_symbols: Seq<WinRowV>,
}

pub open spec fn win_v(w: Win) -> WinV {
    WinV {
        count: w.count,
        amount: w.amount,
        by_lines: Seq::new(
            w.by_lines@.len(),
            |i: int| (w.by_lines@[i].id, w.by_lines@[i].count, w.by_lines@[i].amount, w.by_lines@[i].by_lengths@),
        ),
        by_symbols: Seq::new(
            w.by_symbols@.len(),
            |i: int|
                (w.by_symbols@[i].id, w.by_symbols@[i].count, w.by_symbols@[i].amount, w.by_symbols@[i].by_lengths@),
        ),
    }
}

/// The value of the board collections of a kind of spin.
pub struct BoardsV {
    pub total: Seq<Seq<Seq<i64>>>,
    pub filtered: Seq<Seq<Seq<i64>>>,
    pub unique: Seq<(i64, i64, Seq<(i64, Seq<i64>)>)>,
    pub multiplied: Seq<Seq<Seq<i64>>>,
}

pub open spec fn instanses_v(s: Seq<BoardsInstanse>) -> Seq<Seq<Seq<i64>>> {
    Seq::new(s.len(), |i: int| cols(s[i].instanses@))
}

pub open spec fn unique_v(s: Seq<UniqueBoardsInstanse>) -> Seq<(i64, i64, Seq<(i64, Seq<i64>)>)> {
    Seq::new(
        s.len(),
        |i: int|
            (
                s[i].count,
                s[i].frequency_average,
                Seq::new(s[i].instanses@.len(), |k: int| (s[i].instanses@[k].count, s[i].instanses@[k].board@)),
            ),
    )
}

pub open spec fn boards_v(b: Boards) -> BoardsV {
    BoardsV {
        total: instanses_v(b.total@),
        filtered: instanses_v(b.filtered@),
        unique: unique_v(b.unique@),
        multiplied: instanses_v(b.multiplied@),
    }
}

pub open spec fn reels_v(s: Seq<Reel>) -> Seq<Seq<CandV>> {
    Seq::new(s.len(), |i: int| cands_v(s[i].instanses@))
}

/// The value of the bonuses of one combination of mechanics.
pub struct ByMechanicV {
    pub id: Seq<i64>,
    pub counters: (i64, i64, i64, i64, i64, i64, i64),
    pub combo_symbols: Seq<(Seq<i64>, i64)>,
    pub symbols: Seq<SymbolV>,
    pub mystery_symbols: Seq<SymbolV>,
    pub by_bonus_lenghts: Seq<ByBonusLenghtV>,
}

pub open spec fn by_mechanic_v(m: ByMechanic) -> ByMechanicV {
    ByMechanicV {
        id: m.id@,
        counters: (m.appearances, m.inits, m.respins, m.emerged, m.amount, m.reappearances, m.reinits),
        combo_symbols: combos_v(m.combo_symbols@),
        symbols: symbols_v(m.symbols@),
        mystery_symbols: symbols_v(m.mystery_symbols@),
        by_bonus_lenghts: bonus_lenghts_v(m.by_bonus_lenghts@),
    }
}

/// The value of all bonuses of a kind of spin.
pub struct BonusV {
    pub id: Seq<char>,
    pub counters: (i64, i64, i64, i64, i64, i64, i64),
    pub combo_symbols: Seq<(Seq<i64>, i64)>,
    pub symbols: Seq<SymbolV>,
    pub mystery_symbols: Seq<SymbolV>,
    pub by_bonus_lenghts: Seq<ByBonusLenghtV>,
    pub by_mechanics: Seq<ByMechanicV>,
}

pub open spec fn bonus_v(b: Bonus) -> BonusV {
    BonusV {
        id: b.id@,
        counters: (b.appearances, b.inits, b.respins, b.emerged, b.amount, b.reappearances, b.reinits),
        combo_symbols: combos_v(b.combo_symbols@),
        symbols: symbols_v(b.symbols@),
        mystery_symbols: symbols_v(b.mystery_symbols@),
        by_bonus_lenghts: bonus_lenghts_v(b.by_bonus_lenghts@),
        by_mechanics: Seq::new(b.by_mechanics@.len(), |i: int| by_mechanic_v(b.by_mechanics@[i])),
    }
}

/// The value of the spins of one kind.
pub struct SpinsV {
    pub id: Seq<char>,
    pub count: i64,
    pub bet: (i64, i64),
    pub win: WinV,
    pub symbols: Seq<SymbolV>,
    pub reels: Seq<Seq<CandV>>,
    pub boards: BoardsV,
}

pub open spec fn spins_v(s: Spins) -> SpinsV {
    SpinsV {
        id: s.id@,
        count: s.count,
        bet: (s.bet.count, s.bet.amount),
        win: win_v(s.win),
        symbols: symbols_v(s.symbols@),
        reels: reels_v(s.reels@),
        boards: boards_v(s.boards),
    }
}

/// The value of one category of play.
pub struct CategoryV {
    pub count: i64,
    pub spins: SpinsV,
    pub bonus: BonusV,
    pub boards: BoardsV,
    pub reels: Seq<Seq<CandV>>,
}

pub open spec fn category_v(c: Category) -> CategoryV {
    CategoryV {
        count: c.count,
        spins: spins_v(c.spins),
        bonus: bonus_v(c.bonus),
        boards: boards_v(c.boards),
        reels: reels_v(c.reels@),
    }
}

fn copy_lengths(v: &Vec<ByLenght>) -> (r: Vec<ByLenght>)
    ensures
        r@ == v@,
{
    let mut r: Vec<ByLenght> = Vec::new();
    let mut i: usize = 0;
    while i < v.len()
        invariant
            i <= v@.len(),
            r@ == v@.take(i as int),
        decreases v.len() - i,
    {
        r.push(ByLenght { length: v[i].length, count: v[i].count, amount: v[i].amount });
        assert(r@ =~= v@.take(i + 1));
        i = i + 1;
    }
    assert(v@.take(v@.len() as int) =~= v@);
    r
}

fn copy_win(w: &Win) -> (r: Win)
    ensures
        win_v(r) == win_v(*w),
{
    let mut lines: Vec<ByLine> = Vec::new();
    let mut i: usize = 0;
    while i < w.by_lines.len()
        invariant
            i <= w.by_lines@.len(),
            lines@.len() == i,
            forall|k: int|
                0 <= k < i ==> (#[trigger] lines@[k]).id == w.by_lines@[k].id && lines@[k].count == w.by_lines@[k].count
                    && lines@[k].amount == w.by_lines@[k].amount && lines@[k].by_lengths@ == w.by_lines@[k].by_lengths@,
        decreases w.by_lines.len() - i,
    {
        let l = &w.by_lines[i];
        lines.push(ByLine { id: l.id, count: l.count, amount: l.amount, by_lengths: copy_lengths(&l.by_lengths) });
        i = i + 1;
    }
    let mut syms: Vec<BySymbol> = Vec::new();
    let mut i: usize = 0;
    while i < w.by_symbols.len()
        invariant
            i <= w.by_symbols@.len(),
            syms@.len() == i,
            forall|k: int|
                0 <= k < i ==> (#[trigger] syms@[k]).id == w.by_symbols@[k].id && syms@[k].count
                    == w.by_symbols@[k].count && syms@[k].amount == w.by_symbols@[k].amount && syms@[k].by_lengths@
                    == w.by_symbols@[k].by_lengths@,
        decreases w.by_symbols.len() - i,
    {
        let l = &w.by_symbols[i];
        syms.push(BySymbol { id: l.id, count: l.count, amount: l.amount, by_lengths: copy_lengths(&l.by_lengths) });
        i = i + 1;
    }
    let r = Win { count: w.count, amount: w.amount, by_lines: lines, by_symbols: syms };
    assert(win_v(r).by_lines =~= win_v(*w).by_lines);
    assert(win_v(r).by_symbols =~= win_v(*w).by_symbols);
    r
}

fn copy_instanses(v: &Vec<BoardsInstanse>) -> (r: Vec<BoardsInstanse>)
    ensures
        instanses_v(r@) == instanses_v(v@),
{
    let mut r: Vec<BoardsInstanse> = Vec::new();
    let mut i: usize = 0;
    while i < v.len()
        invariant
            i <= v@.len(),
            r@.len() == i,
            forall|k: int| 0 <= k < i ==> cols((#[trigger] r@[k]).instanses@) == cols(v@[k].instanses@),
        decreases v.len() - i,
    {
        let mut bs: Vec<Vec<i64>> = Vec::new();
        let mut j: usize = 0;
        while j < v[i].instanses.len()
            invariant
                i < v@.len(),
                j <= v@[i as int].instanses@.len(),
                bs@.len() == j,
                forall|q: int| 0 <= q < j ==> (#[trigger] bs@[q])@ == v@[i as int].instanses@[q]@,
            decreases v@[i as int].instanses@.len() - j,
        {
            bs.push(copy_i64(&v[i].instanses[j]));
            j = j + 1;
        }
        assert(cols(bs@) =~= cols(v@[i as int].instanses@));
        r.push(BoardsInstanse { instanses: bs });
        i = i + 1;
    }
    assert(instanses_v(r@) =~= instanses_v(v@));
    r
}

fn copy_unique(v: &Vec<UniqueBoardsInstanse>) -> (r: Vec<UniqueBoardsInstanse>)
    ensures
        unique_v(r@) == unique_v(v@),
{
    let mut r: Vec<UniqueBoardsInstanse> = Vec::new();
    let mut i: usize = 0;
    while i < v.len()
        invariant
            i <= v@.len(),
            r@.len() == i,
            forall|k: int| 0 <= k < i ==> unique_v(r@)[k] == unique_v(v@)[k],
        decreases v.len() - i,
    {
        let mut bs: Vec<Board> = Vec::new();
        let mut j: usize = 0;
        while j < v[i].instanses.len()
            invariant
                i < v@.len(),
                j <= v@[i as int].instanses@.len(),
                bs@.len() == j,
                forall|q: int|
                    0 <= q < j ==> (#[trigger] bs@[q]).count == v@[i as int].instanses@[q].count && bs@[q].board@
                        == v@[i as int].instanses@[q].board@,
            decreases v@[i as int].instanses@.len() - j,
        {
            bs.push(Board { count: v[i].instanses[j].count, board: copy_i64(&v[i].instanses[j].board) });
            j = j + 1;
        }
        let ghost before = r@;
        r.push(UniqueBoardsInstanse { count: v[i].count, frequency_average: v[i].frequency_average, instanses: bs });
        assert forall|k: int| 0 <= k < i + 1 implies unique_v(r@)[k] == unique_v(v@)[k] by {
            if k < i {
                assert(r@[k] == before[k]);
                assert(unique_v(before)[k] == unique_v(v@)[k]);
            } else {
                assert(unique_v(r@)[k].2 =~= unique_v(v@)[k].2);
            }
        }
        i = i + 1;
    }
    assert(unique_v(r@) =~= unique_v(v@));
    r
}

fn copy_boards(b: &Boards) -> (r: Boards)
    ensures
        boards_v(r) == boards_v(*b),
{
    Boards {
        total: copy_instanses(&b.total),
        filtered: copy_instanses(&b.filtered),
        unique: copy_unique(&b.unique),
        multiplied: copy_instanses(&b.multiplied),
    }
}

fn copy_reels(v: &Vec<Reel>) -> (r: Vec<Reel>)
    ensures
        reels_v(r@) == reels_v(v@),
{
    let mut r: Vec<Reel> = Vec::new();
    let mut i: usize = 0;
    while i < v.len()
        invariant
            i <= v@.len(),
            r@.len() == i,
            forall|k: int| 0 <= k < i ==> cands_v((#[trigger] r@[k]).instanses@) == cands_v(v@[k].instanses@),
        decreases v.len() - i,
    {
        let mut cs = Vec::new();
        let mut j: usize = 0;
        while j < v[i].instanses.len()
            invariant
                i < v@.len(),
                j <= v@[i as int].instanses@.len(),
                cs@.len() == j,
                forall|q: int| 0 <= q < j ==> cand_v(#[trigger] cs@[q]) == cand_v(v@[i as int].instanses@[q]),
            decreases v@[i as int].instanses@.len() - j,
        {
            cs.push(copy_cand(&v[i].instanses[j]));
            j = j + 1;
        }
        assert(cands_v(cs@) =~= cands_v(v@[i as int].instanses@));
        r.push(Reel { instanses: cs });
        i = i + 1;
    }
    assert(reels_v(r@) =~= reels_v(v@));
    r
}

fn copy_by_mechanic(m: &ByMechanic) -> (r: ByMechanic)
    ensures
        by_mechanic_v(r) == by_mechanic_v(*m),
{
    ByMechanic {
        id: copy_i64(&m.id),
        appearances: m.appearances,
        inits: m.inits,
        respins: m.respins,
        emerged: m.emerged,
        amount: m.amount,
        reappearances: m.reappearances,
        combo_symbols: copy_combos(&m.combo_symbols),
        reinits: m.reinits,
        symbols: copy_symbols(&m.symbols),
        mystery_symbols: copy_symbols(&m.mystery_symbols),
        by_bonus_lenghts: copy_bonus_lenghts(&m.by_bonus_lenghts),
    }
}

fn copy_bonus(b: &Bonus) -> (r: Bonus)
    ensures
        bonus_v(r) == bonus_v(*b),
{
    let mut ms: Vec<ByMechanic> = Vec::new();
    let mut i: usize = 0;
    while i < b.by_mechanics.len()
        invariant
            i <= b.by_mechanics@.len(),
            ms@.len() == i,
            forall|k: int| 0 <= k < i ==> by_mechanic_v(#[trigger] ms@[k]) == by_mechanic_v(b.by_mechanics@[k]),
        decreases b.by_mechanics.len() - i,
    {
        ms.push(copy_by_mechanic(&b.by_mechanics[i]));
        i = i + 1;
    }
    let r = Bonus {
        id: b.id.clone(),
        appearances: b.appearances,
        inits: b.inits,
        respins: b.respins,
        emerged: b.emerged,
        amount: b.amount,
        reappearances: b.reappearances,
        combo_symbols: copy_combos(&b.combo_symbols),
        reinits: b.reinits,
        symbols: copy_symbols(&b.symbols),
        mystery_symbols: copy_symbols(&b.mystery_symbols),
        by_bonus_lenghts: copy_bonus_lenghts(&b.by_bonus_lenghts),
        by_mechanics: ms,
    };
    assert(bonus_v(r).by_mechanics =~= bonus_v(*b).by_mechanics);
    r
}

/// A copy of a category.
pub fn copy_category(c: &Category) -> (r: Category)
    ensures
        category_v(r) == category_v(*c),
{
    let spins = Spins {
        id: c.spins.id.clone(),
        count: c.spins.count,
        bet: Bet { count: c.spins.bet.count, amount: c.spins.bet.amount },
        win: copy_win(&c.spins.win),
        symbols: copy_symbols(&c.spins.symbols),
        reels: copy_reels(&c.spins.reels),
        boards: copy_boards(&c.spins.boards),
    };
    Category {
        count: c.count,
        spins,
        bonus: copy_bonus(&c.bonus),
        boards: copy_boards(&c.boards),
        reels: copy_reels(&c.reels),
    }
}


/// The categories of one way of playing (plain spins, or one of the two bought bonus
/// modes), with the number of its rounds counted.
pub struct Mode {
    pub count: i64,
    pub category: Vec<Category>,
}

/// The counts of a game over its log: plain play, the two bought modes, and the settings
/// of its last start.
pub struct Game {
    pub base: Mode,
    pub buy_1: Mode,
    pub buy_2: Mode,
    pub settings: Json,
}

/// A way of playing.
#[derive(Clone, Copy)]
pub enum ModeSel {
    Base,
    Buy1,
    Buy2,
}

pub open spec fn mode_of(g: Game, m: ModeSel) -> Mode {
    match m {
        ModeSel::Base => g.base,
        ModeSel::Buy1 => g.buy_1,
        ModeSel::Buy2 => g.buy_2,
    }
}

/// Whether two games are the same but for the mode `m`.
pub open spec fn same_but(g0: Game, g1: Game, m: ModeSel) -> bool {
    &&& g1.settings == g0.settings
    &&& !(m is Base) ==> g1.base == g0.base
    &&& !(m is Buy1) ==> g1.buy_1 == g0.buy_1
    &&& !(m is Buy2) ==> g1.buy_2 == g0.buy_2
}

/// A mode grown to at least `n` categories, the new ones copies of `d`.
pub open spec fn mode_grown(m0: Mode, m1: Mode, n: nat, d: Category) -> bool {
    &&& m1.count == m0.count
    &&& m1.category@.len() == if m0.category@.len() < n { n as int } else { m0.category@.len() as int }
    &&& forall|i: int| 0 <= i < m0.category@.len() ==> #[trigger] m1.category@[i] == m0.category@[i]
    &&& forall|i: int|
        m0.category@.len() <= i < m1.category@.len() ==> category_v(#[trigger] m1.category@[i]) == category_v(d)
}

/// A game with every mode grown to at least `n` categories.
pub open spec fn game_grown(g0: Game, g1: Game, n: nat, d: Category) -> bool {
    &&& g1.settings == g0.settings
    &&& mode_grown(g0.base, g1.base, n, d)
    &&& mode_grown(g0.buy_1, g1.buy_1, n, d)
    &&& mode_grown(g0.buy_2, g1.buy_2, n, d)
}

// ---------------------------------------------------------------------------------
// Reading a transaction.

pub open spec fn or_zero(o: Option<JsonV>) -> i64 {
    match as_int(o) {
        Some(n) => n,
        None => 0,
    }
}

/// The context of a transaction whose command `cmd` succeeded.
pub open spec fn ok_out(t: JsonV, cmd: Seq<char>) -> Option<JsonV> {
    let out = get(Some(t), "out"@);
    if as_text(get(out, "command"@)) == Some(cmd) && as_text(get(get(out, "status"@), "code"@)) == Some("OK"@) {
        out
    } else {
        None
    }
}

pub open spec fn play_context(t: JsonV) -> Option<JsonV> {
    get(ok_out(t, "play"@), "context"@)
}

pub open spec fn start_settings(t: JsonV) -> Option<JsonV> {
    get(ok_out(t, "start"@), "settings"@)
}

pub open spec fn is_spins(ctx: JsonV) -> bool {
    as_text(get(Some(ctx), "current"@)) == Some("spins"@)
}

pub open spec fn is_bonus(ctx: JsonV) -> bool {
    !is_spins(ctx) && as_text(get(Some(ctx), "current"@)) == Some("bonus"@)
}

/// The way of playing of a spin: a plain spin, or a bought spin of mode 1 or 2.
pub open spec fn spin_mode(ctx: JsonV) -> Option<ModeSel> {
    let action = as_text(get(Some(ctx), "last_action"@));
    let mode = as_text(get(get(Some(ctx), "spins"@), "selected_mode"@));
    if action == Some("spin"@) {
        Some(ModeSel::Base)
    } else if action == Some("buy_spin"@) && mode == Some("1"@) {
        Some(ModeSel::Buy1)
    } else if action == Some("buy_spin"@) && mode == Some("2"@) {
        Some(ModeSel::Buy2)
    } else {
        None
    }
}

/// The bet of a spin: its round bet (0 when it has none) for a plain spin; for a bought
/// spin the price of its mode (`buy_bonus_price`, first or second) times the first bet
/// factor of the settings (1 when there is none). `None` when the price is missing or
/// the product overflows.
pub open spec fn spin_bet(ctx: JsonV, settings: JsonV, m: ModeSel) -> Option<i64> {
    let factor = match as_int(at(get(Some(settings), "bet_factor"@), 0)) {
        Some(f) => f as int,
        None => 1int,
    };
    let price = match m {
        ModeSel::Buy1 => as_int(at(get(Some(settings), "buy_bonus_price"@), 0)),
        _ => as_int(at(get(Some(settings), "buy_bonus_price"@), 1)),
    };
    match m {
        ModeSel::Base => Some(or_zero(get(get(Some(ctx), "spins"@), "round_bet"@))),
        _ => match price {
            Some(p) => if i64::MIN <= p * factor <= i64::MAX {
                Some((p * factor) as i64)
            } else {
                None
            },
            None => None,
        },
    }
}

/// The integers of a list, in order (other values left out).
pub open spec fn ints_of(xs: Seq<JsonV>, n: nat) -> Seq<i64>
    decreases n,
{
    if n == 0 || n > xs.len() {
        Seq::empty()
    } else {
        ints_of(xs, (n - 1) as nat) + match as_int(Some(xs[n - 1])) {
            Some(v) => seq![v],
            None => Seq::empty(),
        }
    }
}

pub open spec fn int_list(o: Option<JsonV>) -> Seq<i64> {
    match as_list(o) {
        Some(xs) => ints_of(xs, xs.len()),
        None => Seq::empty(),
    }
}

/// The lists among the first `n` values, each read as its integers.
pub open spec fn int_rows_of(xs: Seq<JsonV>, n: nat) -> Seq<Seq<i64>>
    decreases n,
{
    if n == 0 || n > xs.len() {
        Seq::empty()
    } else {
        int_rows_of(xs, (n - 1) as nat) + match as_list(Some(xs[n - 1])) {
            Some(ys) => seq![ints_of(ys, ys.len())],
            None => Seq::empty(),
        }
    }
}

/// A board: the columns of a list of lists of integers (none when it is not a list).
pub open spec fn int_rows(o: Option<JsonV>) -> Seq<Seq<i64>> {
    match as_list(o) {
        Some(xs) => int_rows_of(xs, xs.len()),
        None => Seq::empty(),
    }
}

/// A pay-line win as (line, symbol, occurrences, amount), when it has all four.
pub open spec fn winline_of(w: JsonV) -> Option<(i64, i64, i64, i64)> {
    match (
        as_int(get(Some(w), "line"@)),
        as_int(get(Some(w), "symbol"@)),
        as_int(get(Some(w), "occurrences"@)),
        as_int(get(Some(w), "amount"@)),
    ) {
        (Some(l), Some(s), Some(o), Some(a)) => Some((l, s, o, a)),
        _ => None,
    }
}

pub open spec fn winlines_upto(ws: Seq<JsonV>, n: nat) -> Option<Seq<(i64, i64, i64, i64)>>
    decreases n,
{
    if n == 0 || n > ws.len() {
        Some(Seq::empty())
    } else {
        match (winlines_upto(ws, (n - 1) as nat), winline_of(ws[n - 1])) {
            (Some(p), Some(w)) => Some(p.push(w)),
            _ => None,
        }
    }
}

/// The pay-line wins of a spin, `None` when one lacks a field.
pub open spec fn spin_winlines(ctx: JsonV) -> Option<Seq<(i64, i64, i64, i64)>> {
    match as_list(get(get(Some(ctx), "spins"@), "winlines"@)) {
        Some(ws) => winlines_upto(ws, ws.len()),
        None => Some(Seq::empty()),
    }
}

/// The category number of a bonus round: its `bonus_game_type` less one (0 when it has
/// none); `None` when that is below 0.
pub open spec fn bonus_num(ctx: JsonV) -> Option<nat> {
    match as_int(get(get(Some(ctx), "bonus"@), "bonus_game_type"@)) {
        Some(n) => if n >= 1 {
            Some((n - 1) as nat)
        } else {
            None
        },
        None => Some(0),
    }
}

pub open spec fn bonus_mode(ctx: JsonV) -> ModeSel {
    let mode = as_text(get(get(Some(ctx), "bonus"@), "selected_mode"@));
    if mode == Some("1"@) {
        ModeSel::Buy1
    } else if mode == Some("2"@) {
        ModeSel::Buy2
    } else {
        ModeSel::Base
    }
}

pub open spec fn bonus_action(ctx: JsonV) -> BonusAction {
    let a = as_text(get(Some(ctx), "last_action"@));
    if a == Some("bonus_init"@) {
        BonusAction::Init
    } else if a == Some("respin"@) {
        BonusAction::Respin
    } else {
        BonusAction::Other
    }
}

// ---------------------------------------------------------------------------------
// Counting a transaction.

/// Whether pay-line wins can be counted one after another from `ws[0]`, each into the
/// next state (`record_winline`).
pub open spec fn winlines_chain(ws: Seq<Win>, lines: Seq<(i64, i64, i64, i64)>) -> bool {
    &&& ws.len() == lines.len() + 1
    &&& forall|k: int| 0 <= k < lines.len() ==> #[trigger] winline_step(ws[k], ws[k + 1], lines[k])
}

pub open spec fn winline_step(w0: Win, w1: Win, l: (i64, i64, i64, i64)) -> bool {
    &&& 1 <= l.0 <= usize::MAX
    &&& 1 <= l.1 <= usize::MAX
    &&& 1 <= l.2 <= usize::MAX
    &&& winline_fits(w0, l.0 as int, l.1 as int, l.2 as int, l.3 as int)
    &&& winline_recorded(w0, w1, l.0, l.1, l.2, l.3)
}

/// Whether the pay-line wins can be counted from win tallies of value `v`.
pub open spec fn winlines_countable(v: WinV, lines: Seq<(i64, i64, i64, i64)>) -> bool {
    exists|ws: Seq<Win>| #[trigger] winlines_chain(ws, lines) && win_v(ws[0]) == v
}

/// A spin counted in category 0 of a mode: the round (`record_spin`) and then its
/// pay-line wins, with the mode's round count.
pub open spec fn mode_spin(
    m0: Mode,
    m1: Mode,
    bet: i64,
    win: i64,
    board: Seq<Seq<i64>>,
    lines: Seq<(i64, i64, i64, i64)>,
    width: usize,
) -> bool {
    exists|cm: Category, ws: Seq<Win>| #[trigger] spin_parts(m0, m1, bet, win, board, lines, width, cm, ws)
}

pub open spec fn spin_parts(
    m0: Mode,
    m1: Mode,
    bet: i64,
    win: i64,
    board: Seq<Seq<i64>>,
    lines: Seq<(i64, i64, i64, i64)>,
    width: usize,
    cm: Category,
    ws: Seq<Win>,
) -> bool {
    let c0 = m0.category@[0];
    let c1 = m1.category@[0];
    &&& spin_recorded(c0, cm, bet, win, board, width)
    &&& winlines_chain(ws, lines)
    &&& win_v(ws[0]) == win_v(c0.spins.win)
    &&& c1 == Category {
        spins: Spins {
            win: Win { by_lines: ws.last().by_lines, by_symbols: ws.last().by_symbols, ..cm.spins.win },
            ..cm.spins
        },
        ..cm
    }
    &&& m1.count == m0.count + 1
    &&& m1.category@ == m0.category@.update(0, c1)
}

/// Whether a spin can be counted in category 0 of a mode.
pub open spec fn spin_countable(
    m0: Mode,
    bet: Option<i64>,
    win: i64,
    board: Seq<Seq<i64>>,
    lines: Option<Seq<(i64, i64, i64, i64)>>,
    width: usize,
) -> bool {
    &&& m0.count < i64::MAX
    &&& bet is Some
    &&& lines is Some
    &&& spin_fits(m0.category@[0], bet->0, win, board, width)
    &&& winlines_countable(win_v(m0.category@[0].spins.win), lines->0)
}

/// A bonus step counted in category `k` of a mode, with the mode's round count.
pub open spec fn mode_bonus(
    m0: Mode,
    t0: BonusTrack,
    m1: Mode,
    t1: BonusTrack,
    k: int,
    action: BonusAction,
    bs: usize,
    mech: Seq<i64>,
    win: i64,
) -> bool {
    &&& bonus_step_recorded(m0.category@[k], t0, m1.category@[k], t1, action, bs, mech, win)
    &&& m1.count == m0.count + 1
    &&& m1.category@ == m0.category@.update(k, m1.category@[k])
}

pub open spec fn bonus_countable(m0: Mode, t0: BonusTrack, k: int, action: BonusAction, bs: usize, mech: Seq<i64>, win: i64) -> bool {
    &&& m0.count < i64::MAX
    &&& bonus_step_fits(m0.category@[k], t0, action, bs, mech, win)
}

/// The category number a transaction's round is counted in: 0 for a spin, the bonus's
/// number for a bonus round; `None` for anything else and for a bonus round without a
/// usable number.
pub open spec fn round_num(t: JsonV) -> Option<nat> {
    match play_context(t) {
        Some(ctx) => if is_spins(ctx) {
            if spin_mode(ctx) is Some {
                Some(0nat)
            } else {
                None
            }
        } else if is_bonus(ctx) {
            bonus_num(ctx)
        } else {
            None
        },
        None => None,
    }
}

/// Whether a transaction is a bonus round whose number cannot be used.
pub open spec fn bad_bonus_num(t: JsonV) -> bool {
    play_context(t) matches Some(ctx) && is_bonus(ctx) && (bonus_num(ctx) is None || bonus_num(ctx)->0
        >= usize::MAX)
}

/// The game after the categories a transaction's round needs were added.
pub open spec fn tx_grown(g0: Game, t: JsonV, gg: Game, d: Category) -> bool {
    match round_num(t) {
        Some(k) => k < usize::MAX && game_grown(g0, gg, k + 1, d),
        None => gg == g0,
    }
}

/// Whether a transaction's round can be counted in the grown game `gg`.
pub open spec fn tx_countable(gg: Game, t0: BonusTrack, t: JsonV, width: usize) -> bool {
    match play_context(t) {
        Some(ctx) => if is_spins(ctx) {
            match spin_mode(ctx) {
                Some(m) => spin_countable(
                    mode_of(gg, m),
                    spin_bet(ctx, jv(gg.settings), m),
                    or_zero(get(get(Some(ctx), "spins"@), "round_win"@)),
                    int_rows(get(get(Some(ctx), "spins"@), "board"@)),
                    spin_winlines(ctx),
                    width,
                ),
                None => true,
            }
        } else if is_bonus(ctx) {
            match bonus_num(ctx) {
                Some(k) => bonus_countable(
                    mode_of(gg, bonus_mode(ctx)),
                    t0,
                    k as int,
                    bonus_action(ctx),
                    or_zero(get(get(Some(ctx), "bonus"@), "bs_count"@)) as usize,
                    int_list(get(get(Some(ctx), "bonus"@), "bonus_mechanic"@)),
                    or_zero(get(get(Some(ctx), "bonus"@), "round_win"@)),
                ),
                None => false,
            }
        } else {
            true
        },
        None => true,
    }
}

/// What counting a transaction makes of the grown game `gg` and of the bonus track.
pub open spec fn tx_counted(gg: Game, t0: BonusTrack, t: JsonV, g1: Game, t1: BonusTrack, width: usize) -> bool {
    match play_context(t) {
        Some(ctx) => if is_spins(ctx) {
            match spin_mode(ctx) {
                Some(m) => {
                    &&& same_but(gg, g1, m)
                    &&& t1 == t0
                    &&& mode_spin(
                        mode_of(gg, m),
                        mode_of(g1, m),
                        spin_bet(ctx, jv(gg.settings), m)->0,
                        or_zero(get(get(Some(ctx), "spins"@), "round_win"@)),
                        int_rows(get(get(Some(ctx), "spins"@), "board"@)),
                        spin_winlines(ctx)->0,
                        width,
                    )
                },
                None => g1 == gg && t1 == t0,
            }
        } else if is_bonus(ctx) {
            let m = bonus_mode(ctx);
            &&& same_but(gg, g1, m)
            &&& mode_bonus(
                mode_of(gg, m),
                t0,
                mode_of(g1, m),
                t1,
                bonus_num(ctx)->0 as int,
                bonus_action(ctx),
                or_zero(get(get(Some(ctx), "bonus"@), "bs_count"@)) as usize,
                int_list(get(get(Some(ctx), "bonus"@), "bonus_mechanic"@)),
                or_zero(get(get(Some(ctx), "bonus"@), "round_win"@)),
            )
        } else {
            g1 == gg && t1 == t0
        },
        None => match start_settings(t) {
            Some(s) => g1.base == gg.base && g1.buy_1 == gg.buy_1 && g1.buy_2 == gg.buy_2 && jv(g1.settings) == s
                && t1 == t0,
            None => g1 == gg && t1 == t0,
        },
    }
}

/// Whether the states `gs` (with the grown games `ggs` and the bonus tracks `ts`) count
/// the first `n` transactions one after another from the game `g0` and no bonus played.
pub open spec fn counted_upto(
    g0: Game,
    txs: Seq<JsonV>,
    gs: Seq<Game>,
    ggs: Seq<Game>,
    ts: Seq<BonusTrack>,
    n: nat,
    width: usize,
    d: Category,
) -> bool {
    &&& n <= txs.len()
    &&& gs.len() == n + 1
    &&& ggs.len() == n
    &&& ts.len() == n + 1
    &&& gs[0] == g0
    &&& ts[0].bs_count == 0
    &&& ts[0].mechanic@ == Seq::<i64>::empty()
    &&& forall|i: int| 0 <= i < n ==> tx_step(gs[i], ts[i], txs[i], #[trigger] ggs[i], gs[i + 1], ts[i + 1], width, d)
}

/// One transaction counted: from the game `g` and track `t`, its categories added
/// (`gg`), then the game `g1` and track `t1`.
pub open spec fn tx_step(
    g: Game,
    t: BonusTrack,
    tx: JsonV,
    gg: Game,
    g1: Game,
    t1: BonusTrack,
    width: usize,
    d: Category,
) -> bool {
    &&& !bad_bonus_num(tx)
    &&& tx_grown(g, tx, gg, d)
    &&& tx_countable(gg, t, tx, width)
    &&& tx_counted(gg, t, tx, g1, t1, width)
}


// ---------------------------------------------------------------------------------
// Readers.

fn ok_out_exec<'a>(t: &'a Json, cmd: &str) -> (r: Option<&'a Json>)
    ensures
        ov(r) == ok_out(jv(*t), cmd@),
{
    let out = get_key(Some(t), "out");
    if is_text(get_key(out, "command"), cmd) && is_text(get_key(get_key(out, "status"), "code"), "OK") {
        out
    } else {
        None
    }
}

fn or_zero_exec(o: Option<&Json>) -> (r: i64)
    ensures
        r == or_zero(ov(o)),
{
    match get_i64(o) {
        Some(n) => n,
        None => 0,
    }
}

fn ints_exec(xs: &Vec<Json>) -> (r: Vec<i64>)
    ensures
        r@ == ints_of(jv_list(xs@), xs@.len()),
{
    proof {
        lemma_jv_list(xs@);
    }
    let ghost v = jv_list(xs@);
    let mut out: Vec<i64> = Vec::new();
    let mut i: usize = 0;
    while i < xs.len()
        invariant
            v == jv_list(xs@),
            v.len() == xs@.len(),
            forall|j: int| 0 <= j < xs@.len() ==> #[trigger] v[j] == jv(xs@[j]),
            i <= xs@.len(),
            out@ == ints_of(v, i as nat),
        decreases xs.len() - i,
    {
        assert(v[i as int] == jv(xs@[i as int]));
        match get_i64(Some(&xs[i])) {
            Some(n) => {
                out.push(n);
            },
            None => {},
        }
        i = i + 1;
    }
    out
}

fn int_list_exec(o: Option<&Json>) -> (r: Vec<i64>)
    ensures
        r@ == int_list(ov(o)),
{
    match get_array(o) {
        Some(xs) => {
            proof {
                lemma_jv_list(xs@);
            }
            ints_exec(xs)
        },
        None => Vec::new(),
    }
}

fn int_rows_exec(o: Option<&Json>) -> (r: Vec<Vec<i64>>)
    ensures
        cols(r@) == int_rows(ov(o)),
{
    let mut out: Vec<Vec<i64>> = Vec::new();
    match get_array(o) {
        Some(xs) => {
            proof {
                lemma_jv_list(xs@);
            }
            let ghost v = jv_list(xs@);
            let mut i: usize = 0;
            while i < xs.len()
                invariant
                    v == jv_list(xs@),
                    v.len() == xs@.len(),
                    forall|j: int| 0 <= j < xs@.len() ==> #[trigger] v[j] == jv(xs@[j]),
                    i <= xs@.len(),
                    cols(out@) == int_rows_of(v, i as nat),
                decreases xs.len() - i,
            {
                assert(v[i as int] == jv(xs@[i as int]));
                match get_array(Some(&xs[i])) {
                    Some(ys) => {
                        proof {
                            lemma_jv_list(ys@);
                        }
                        let row = ints_exec(ys);
                        let ghost before = cols(out@);
                        out.push(row);
                        assert(cols(out@) =~= before.push(row@));
                    },
                    None => {},
                }
                i = i + 1;
            }
            out
        },
        None => {
            assert(cols(out@) =~= Seq::<Seq<i64>>::empty());
            out
        },
    }
}

fn winline_exec(w: &Json) -> (r: Option<(i64, i64, i64, i64)>)
    ensures
        r == winline_of(jv(*w)),
{
    let l = get_i64(get_key(Some(w), "line"));
    let s = get_i64(get_key(Some(w), "symbol"));
    let o = get_i64(get_key(Some(w), "occurrences"));
    let a = get_i64(get_key(Some(w), "amount"));
    match (l, s, o, a) {
        (Some(l), Some(s), Some(o), Some(a)) => Some((l, s, o, a)),
        _ => None,
    }
}

fn winlines_exec(ctx: &Json) -> (r: Option<Vec<(i64, i64, i64, i64)>>)
    ensures
        match r {
            Some(v) => spin_winlines(jv(*ctx)) == Some(v@),
            None => spin_winlines(jv(*ctx)) is None,
        },
{
    let wl = get_key(get_key(Some(ctx), "spins"), "winlines");
    match get_array(wl) {
        Some(ws) => {
            proof {
                lemma_jv_list(ws@);
            }
            let ghost v = jv_list(ws@);
            assert(spin_winlines(jv(*ctx)) == winlines_upto(v, v.len()));
            let mut out: Vec<(i64, i64, i64, i64)> = Vec::new();
            let mut i: usize = 0;
            while i < ws.len()
                invariant
                    v == jv_list(ws@),
                    v.len() == ws@.len(),
                    forall|j: int| 0 <= j < ws@.len() ==> #[trigger] v[j] == jv(ws@[j]),
                    i <= ws@.len(),
                    winlines_upto(v, i as nat) == Some(out@),
                    spin_winlines(jv(*ctx)) == winlines_upto(v, v.len()),
                decreases ws.len() - i,
            {
                assert(v[i as int] == jv(ws@[i as int]));
                assert(i + 1 <= v.len());
                match winline_exec(&ws[i]) {
                    Some(w) => {
                        out.push(w);
                    },
                    None => {
                        proof {
                            lemma_winlines_none(v, (i + 1) as nat, ws@.len());
                        }
                        assert(spin_winlines(jv(*ctx)) is None);
                        return None;
                    },
                }
                i = i + 1;
            }
            Some(out)
        },
        None => Some(Vec::new()),
    }
}

proof fn lemma_winlines_none(v: Seq<JsonV>, i: nat, n: nat)
    requires
        1 <= i <= n <= v.len(),
        winlines_upto(v, i) is None,
    ensures
        winlines_upto(v, n) is None,
    decreases n - i,
{
    if i < n {
        lemma_winlines_none(v, i, (n - 1) as nat);
    }
}

fn spin_mode_exec(ctx: &Json) -> (r: Option<ModeSel>)
    ensures
        r == spin_mode(jv(*ctx)),
{
    let action = get_key(Some(ctx), "last_action");
    let mode = get_key(get_key(Some(ctx), "spins"), "selected_mode");
    if is_text(action, "spin") {
        Some(ModeSel::Base)
    } else if is_text(action, "buy_spin") && is_text(mode, "1") {
        Some(ModeSel::Buy1)
    } else if is_text(action, "buy_spin") && is_text(mode, "2") {
        Some(ModeSel::Buy2)
    } else {
        None
    }
}

fn spin_bet_exec(ctx: &Json, settings: &Json, m: ModeSel) -> (r: Option<i64>)
    ensures
        r == spin_bet(jv(*ctx), jv(*settings), m),
{
    let factor: i128 = match get_i64(get_at(get_key(Some(settings), "bet_factor"), 0)) {
        Some(f) => f as i128,
        None => 1,
    };
    let price = match m {
        ModeSel::Buy1 => get_i64(get_at(get_key(Some(settings), "buy_bonus_price"), 0)),
        _ => get_i64(get_at(get_key(Some(settings), "buy_bonus_price"), 1)),
    };
    match m {
        ModeSel::Base => Some(or_zero_exec(get_key(get_key(Some(ctx), "spins"), "round_bet"))),
        _ => match price {
            Some(p) => {
                assert(-0x8000_0000_0000_0000 * 0x8000_0000_0000_0000 <= p * factor <= 0x8000_0000_0000_0000
                    * 0x8000_0000_0000_0000) by (nonlinear_arith)
                    requires
                        -0x8000_0000_0000_0000 <= p <= 0x7fff_ffff_ffff_ffff,
                        -0x8000_0000_0000_0000 <= factor <= 0x7fff_ffff_ffff_ffff,
                ;
                let prod = p as i128 * factor;
                if i64::MIN as i128 <= prod && prod <= i64::MAX as i128 {
                    Some(prod as i64)
                } else {
                    None
                }
            },
            None => None,
        },
    }
}

fn bonus_mode_exec(ctx: &Json) -> (r: ModeSel)
    ensures
        r == bonus_mode(jv(*ctx)),
{
    let mode = get_key(get_key(Some(ctx), "bonus"), "selected_mode");
    if is_text(mode, "1") {
        ModeSel::Buy1
    } else if is_text(mode, "2") {
        ModeSel::Buy2
    } else {
        ModeSel::Base
    }
}

fn bonus_action_exec(ctx: &Json) -> (r: BonusAction)
    ensures
        r == bonus_action(jv(*ctx)),
{
    let a = get_key(Some(ctx), "last_action");
    if is_text(a, "bonus_init") {
        BonusAction::Init
    } else if is_text(a, "respin") {
        BonusAction::Respin
    } else {
        BonusAction::Other
    }
}

/// The category number of a bonus round, `None` when it cannot be used.
fn bonus_num_exec(ctx: &Json) -> (r: Option<usize>)
    ensures
        match r {
            Some(k) => bonus_num(jv(*ctx)) == Some(k as nat) && k < usize::MAX,
            None => bonus_num(jv(*ctx)) is None || bonus_num(jv(*ctx))->0 >= usize::MAX,
        },
{
    match get_i64(get_key(get_key(Some(ctx), "bonus"), "bonus_game_type")) {
        Some(n) => {
            if n >= 1 {
                let k = (n - 1) as u64;
                if (k as u128) < (usize::MAX as u128) {
                    Some(k as usize)
                } else {
                    None
                }
            } else {
                None
            }
        },
        None => Some(0),
    }
}


// ---------------------------------------------------------------------------------
// Counting.

proof fn lemma_winline_view(w0: Win, w1: Win, v0: Win, v1: Win, l: (i64, i64, i64, i64))
    requires
        win_v(w0) == win_v(v0),
        winline_step(w0, w1, l),
        winline_step(v0, v1, l),
    ensures
        win_v(w1) == win_v(v1),
{
    assert(w0.by_lines@.len() == win_v(w0).by_lines.len());
    assert(v0.by_lines@.len() == win_v(v0).by_lines.len());
    assert(w0.by_symbols@.len() == win_v(w0).by_symbols.len());
    assert(v0.by_symbols@.len() == win_v(v0).by_symbols.len());
    assert forall|j: int| 0 <= j < w1.by_lines@.len() implies win_v(w1).by_lines[j] == win_v(v1).by_lines[j] by {
        if j < w0.by_lines@.len() {
            assert(win_v(w0).by_lines[j] == win_v(v0).by_lines[j]);
        } else if j != l.0 - 1 {
            assert(w1.by_lines@[j].by_lengths@ =~= v1.by_lines@[j].by_lengths@);
        }
    }
    assert forall|j: int| 0 <= j < w1.by_symbols@.len() implies win_v(w1).by_symbols[j] == win_v(v1).by_symbols[j] by {
        if j < w0.by_symbols@.len() {
            assert(win_v(w0).by_symbols[j] == win_v(v0).by_symbols[j]);
        } else if j != l.1 - 1 {
            assert(w1.by_symbols@[j].by_lengths@ =~= v1.by_symbols@[j].by_lengths@);
        }
    }
    assert(win_v(w1).by_lines =~= win_v(v1).by_lines);
    assert(win_v(w1).by_symbols =~= win_v(v1).by_symbols);
}

proof fn lemma_winline_fits_view(w: Win, v: Win, l: (i64, i64, i64, i64))
    requires
        win_v(w) == win_v(v),
        1 <= l.0,
        1 <= l.1,
    ensures
        winline_fits(w, l.0 as int, l.1 as int, l.2 as int, l.3 as int) == winline_fits(
            v,
            l.0 as int,
            l.1 as int,
            l.2 as int,
            l.3 as int,
        ),
{
    assert(w.by_lines@.len() == win_v(w).by_lines.len());
    assert(v.by_lines@.len() == win_v(v).by_lines.len());
    assert(w.by_symbols@.len() == win_v(w).by_symbols.len());
    assert(v.by_symbols@.len() == win_v(v).by_symbols.len());
    if l.0 <= w.by_lines@.len() {
        assert(win_v(w).by_lines[l.0 - 1] == win_v(v).by_lines[l.0 - 1]);
    }
    if l.1 <= w.by_symbols@.len() {
        assert(win_v(w).by_symbols[l.1 - 1] == win_v(v).by_symbols[l.1 - 1]);
    }
}

proof fn lemma_chains_agree(ws: Seq<Win>, ms: Seq<Win>, lines: Seq<(i64, i64, i64, i64)>, j: int)
    requires
        winlines_chain(ws, lines),
        0 <= j <= lines.len(),
        ms.len() > j,
        win_v(ws[0]) == win_v(ms[0]),
        forall|k: int| 0 <= k < j ==> #[trigger] winline_step(ms[k], ms[k + 1], lines[k]),
    ensures
        win_v(ws[j]) == win_v(ms[j]),
    decreases j,
{
    if j > 0 {
        let k = j - 1;
        lemma_chains_agree(ws, ms, lines, k);
        assert(winline_step(ws[k], ws[k + 1], lines[k]));
        assert(winline_step(ms[k], ms[k + 1], lines[k]));
        lemma_winline_view(ws[k], ws[k + 1], ms[k], ms[k + 1], lines[k]);
    }
}

/// Counts pay-line wins one after another, `false` (with the tallies partly counted)
/// when one cannot be counted.
fn count_winlines(w: &mut Win, lines: &Vec<(i64, i64, i64, i64)>) -> (r: bool)
    ensures
        r == winlines_countable(win_v(*old(w)), lines@),
        r ==> exists|ws: Seq<Win>| #[trigger] winlines_chain(ws, lines@) && ws[0] == *old(w) && ws.last() == *final(w),
{
    let ghost w0 = *w;
    let ghost mut ms: Seq<Win> = seq![*w];
    let mut k: usize = 0;
    while k < lines.len()
        invariant
            k <= lines@.len(),
            ms.len() == k + 1,
            w0 == *old(w),
            ms[0] == w0,
            ms[k as int] == *w,
            forall|q: int| 0 <= q < k ==> #[trigger] winline_step(ms[q], ms[q + 1], lines@[q]),
        decreases lines.len() - k,
    {
        let (l, s, o, a) = lines[k];
        let ok_range = 1 <= l && l as u64 as u128 <= usize::MAX as u128 && 1 <= s && s as u64 as u128
            <= usize::MAX as u128 && 1 <= o && o as u64 as u128 <= usize::MAX as u128;
        if !ok_range || !winline_fits_exec(w, l as usize, s as usize, o as usize, a) {
            assert(!winlines_countable(win_v(w0), lines@)) by {
                if winlines_countable(win_v(w0), lines@) {
                    let ws = choose|ws: Seq<Win>| #[trigger] winlines_chain(ws, lines@) && win_v(ws[0]) == win_v(w0);
                    lemma_chains_agree(ws, ms, lines@, k as int);
                    let kk = k as int;
                    assert(winline_step(ws[kk], ws[kk + 1], lines@[kk]));
                    assert(lines@[kk] == (l, s, o, a));
                    if ok_range {
                        assert(l as usize as int == l as int);
                        assert(s as usize as int == s as int);
                        assert(o as usize as int == o as int);
                        lemma_winline_fits_view(ws[kk], *w, lines@[kk]);
                        assert(!winline_fits(*w, l as int, s as int, o as int, a as int));
                    }
                    assert(false);
                }
            }
            return false;
        }
        record_winline(w, l, s, o, a);
        proof {
            ms = ms.push(*w);
            assert(winline_step(ms[k as int], ms[k + 1], lines@[k as int]));
        }
        k = k + 1;
    }
    assert(winlines_chain(ms, lines@));
    true
}

/// Counts a spin in category 0 of a mode (`mode_spin`), leaving the mode as it was when
/// the spin cannot be counted.
fn count_spin(
    md: &mut Mode,
    bet: i64,
    win: i64,
    board: &Vec<Vec<i64>>,
    lines: &Vec<(i64, i64, i64, i64)>,
    width: usize,
) -> (r: bool)
    requires
        old(md).category@.len() >= 1,
    ensures
        r == spin_countable(*old(md), Some(bet), win, cols(board@), Some(lines@), width),
        r ==> mode_spin(*old(md), *final(md), bet, win, cols(board@), lines@, width),
        !r ==> *final(md) == *old(md),
{
    let ghost m0 = *md;
    if md.count == i64::MAX {
        return false;
    }
    if !spin_fits_exec(&md.category[0], bet, win, board, width) {
        return false;
    }
    let mut w = copy_win(&md.category[0].spins.win);
    let ghost wc = w;
    if !count_winlines(&mut w, lines) {
        return false;
    }
    let ghost ws = choose|ws: Seq<Win>| #[trigger] winlines_chain(ws, lines@) && ws[0] == wc && ws.last() == w;
    record_spin(&mut md.category[0], bet, win, board, width);
    let ghost cm = md.category@[0];
    let Win { count: _, amount: _, by_lines, by_symbols } = w;
    md.category[0].spins.win.by_lines = by_lines;
    md.category[0].spins.win.by_symbols = by_symbols;
    md.count = md.count + 1;
    let ghost c1 = md.category@[0];
    assert(spin_recorded(m0.category@[0], cm, bet, win, cols(board@), width));
    assert(winlines_chain(ws, lines@));
    assert(win_v(ws[0]) == win_v(m0.category@[0].spins.win));
    assert(c1 == Category {
        spins: Spins {
            win: Win { by_lines: ws.last().by_lines, by_symbols: ws.last().by_symbols, ..cm.spins.win },
            ..cm.spins
        },
        ..cm
    });
    assert(md.category@ == m0.category@.update(0, c1));
    assert(spin_parts(m0, *md, bet, win, cols(board@), lines@, width, cm, ws));
    true
}

/// Counts a bonus step in category `k` of a mode (`mode_bonus`), leaving the mode and
/// the track as they were when the step cannot be counted.
fn count_bonus(
    md: &mut Mode,
    track: &mut BonusTrack,
    k: usize,
    action: BonusAction,
    bs: usize,
    mech: &Vec<i64>,
    win: i64,
) -> (r: bool)
    requires
        k < old(md).category@.len(),
    ensures
        r == bonus_countable(*old(md), *old(track), k as int, action, bs, mech@, win),
        r ==> mode_bonus(*old(md), *old(track), *final(md), *final(track), k as int, action, bs, mech@, win),
        !r ==> *final(md) == *old(md) && *final(track) == *old(track),
{
    if md.count == i64::MAX {
        return false;
    }
    if !bonus_step_fits_exec(&md.category[k], track, action, bs, mech, win) {
        return false;
    }
    record_bonus_step(&mut md.category[k], track, action, bs, mech, win);
    md.count = md.count + 1;
    true
}

fn grow_mode(md: &mut Mode, n: usize, d: &Category)
    ensures
        mode_grown(*old(md), *final(md), n as nat, *d),
{
    let ghost m0 = *md;
    while md.category.len() < n
        invariant
            md.count == m0.count,
            m0.category@.len() <= md.category@.len(),
            md.category@.len() <= (if m0.category@.len() < n { n as int } else { m0.category@.len() as int }),
            forall|i: int| 0 <= i < m0.category@.len() ==> #[trigger] md.category@[i] == m0.category@[i],
            forall|i: int|
                m0.category@.len() <= i < md.category@.len() ==> category_v(#[trigger] md.category@[i])
                    == category_v(*d),
        decreases n - md.category.len(),
    {
        md.category.push(copy_category(d));
    }
}

fn grow_game(g: &mut Game, n: usize, d: &Category)
    ensures
        game_grown(*old(g), *final(g), n as nat, *d),
{
    grow_mode(&mut g.base, n, d);
    grow_mode(&mut g.buy_1, n, d);
    grow_mode(&mut g.buy_2, n, d);
}

/// Whether the game `gf` counts the first `n` transactions from `g0` (`counted_upto`).
pub open spec fn extracted(g0: Game, txs: Seq<JsonV>, n: nat, gf: Game, width: usize, d: Category) -> bool {
    exists|gs: Seq<Game>, ggs: Seq<Game>, ts: Seq<BonusTrack>|
        #[trigger] counted_upto(g0, txs, gs, ggs, ts, n, width, d) && gs.last() == gf
}

/// Whether counting stopped at transaction `i`, with the game `gf`: the transactions
/// before it counted, and it cannot be counted (`bad_bonus_num`, or `tx_countable` not
/// holding once its categories were added).
pub open spec fn stopped_at(g0: Game, txs: Seq<JsonV>, i: nat, gf: Game, width: usize, d: Category) -> bool {
    exists|gs: Seq<Game>, ggs: Seq<Game>, ts: Seq<BonusTrack>|
        #[trigger] counted_upto(g0, txs, gs, ggs, ts, i, width, d) && stop_step(gs.last(), ts.last(), txs[i as int], gf, width, d)
}

pub open spec fn stop_step(g: Game, t: BonusTrack, tx: JsonV, gf: Game, width: usize, d: Category) -> bool {
    ||| bad_bonus_num(tx) && g == gf
    ||| !bad_bonus_num(tx) && tx_grown(g, tx, gf, d) && !tx_countable(gf, t, tx, width)
}

proof fn lemma_stopped(
    g0: Game,
    txs: Seq<JsonV>,
    gs: Seq<Game>,
    ggs: Seq<Game>,
    ts: Seq<BonusTrack>,
    i: nat,
    gf: Game,
    width: usize,
    d: Category,
)
    requires
        counted_upto(g0, txs, gs, ggs, ts, i, width, d),
        stop_step(gs.last(), ts.last(), txs[i as int], gf, width, d),
    ensures
        stopped_at(g0, txs, i, gf, width, d),
{
}

proof fn lemma_extracted(
    g0: Game,
    txs: Seq<JsonV>,
    gs: Seq<Game>,
    ggs: Seq<Game>,
    ts: Seq<BonusTrack>,
    n: nat,
    gf: Game,
    width: usize,
    d: Category,
)
    requires
        counted_upto(g0, txs, gs, ggs, ts, n, width, d),
        gs.last() == gf,
    ensures
        extracted(g0, txs, n, gf, width, d),
{
}

/// Counts a log of plays into a game, transaction by transaction: a successful start
/// takes its settings; a successful play round that is a plain or bought spin is
/// counted in category 0 of its way of playing, a bonus round in the category its
/// `bonus_game_type` names (one less), the categories the round needs first added to
/// every way of playing as copies of `default`; anything else is passed over
/// (`counted_upto`). A spin is counted with its pay-line wins; its coins and a bonus
/// round's symbols are not. `Err(i)` when transaction `i` cannot be counted: its bonus
/// number is below 1 or too large, its bought spin has no price, a pay-line win lacks a
/// field, or a count would overflow or leave its tallies (`tx_countable`); the
/// transactions before it are then counted, and its categories added.
pub fn extract(transactions: &Vec<Json>, game: &mut Game, default: &Category, width: usize) -> (r: Result<(), usize>)
    ensures
        match r {
            Ok(()) => extracted(*old(game), jv_list(transactions@), transactions@.len(), *final(game), width, *default),
            Err(i) => i < transactions@.len() && stopped_at(
                *old(game),
                jv_list(transactions@),
                i as nat,
                *final(game),
                width,
                *default,
            ),
        },
{
    proof {
        lemma_jv_list(transactions@);
    }
    let ghost txs = jv_list(transactions@);
    let ghost g0 = *game;
    let mut track = BonusTrack { bs_count: 0, mechanic: Vec::new() };
    let ghost mut gs: Seq<Game> = seq![*game];
    let ghost mut ggs: Seq<Game> = Seq::empty();
    let ghost mut ts: Seq<BonusTrack> = seq![track];
    let mut i: usize = 0;
    while i < transactions.len()
        invariant
            txs == jv_list(transactions@),
            txs.len() == transactions@.len(),
            forall|j: int| 0 <= j < transactions@.len() ==> #[trigger] txs[j] == jv(transactions@[j]),
            g0 == *old(game),
            i <= transactions@.len(),
            counted_upto(g0, txs, gs, ggs, ts, i as nat, width, *default),
            gs.last() == *game,
            ts.last() == track,
        decreases transactions.len() - i,
    {
        let t = &transactions[i];
        assert(txs[i as int] == jv(*t));
        let ghost gi = *game;
        let ghost ti = track;
        let ghost gs0 = gs;
        let ghost ggs0 = ggs;
        let ghost ts0 = ts;
        let ctx = get_key(ok_out_exec(t, "play"), "context");
        match ctx {
            Some(c) => {
                if is_text(get_key(Some(c), "current"), "spins") {
                    match spin_mode_exec(c) {
                        Some(m) => {
                            grow_game(game, 1, default);
                            let ghost gg = *game;
                            let bet = spin_bet_exec(c, &game.settings, m);
                            let win = or_zero_exec(get_key(get_key(Some(c), "spins"), "round_win"));
                            let board = int_rows_exec(get_key(get_key(Some(c), "spins"), "board"));
                            let lines = winlines_exec(c);
                            let counted = match (&bet, &lines) {
                                (Some(b), Some(ls)) => match m {
                                    ModeSel::Base => count_spin(&mut game.base, *b, win, &board, ls, width),
                                    ModeSel::Buy1 => count_spin(&mut game.buy_1, *b, win, &board, ls, width),
                                    ModeSel::Buy2 => count_spin(&mut game.buy_2, *b, win, &board, ls, width),
                                },
                                _ => false,
                            };
                            if !counted {
                                proof {
                                    lemma_stopped(g0, txs, gs, ggs, ts, i as nat, *game, width, *default);
                                }
                                return Err(i);
                            }
                            proof {
                                assert(tx_step(gi, ti, txs[i as int], gg, *game, track, width, *default));
                                ggs = ggs.push(gg);
                            }
                        },
                        None => {
                            proof {
                                assert(tx_step(gi, ti, txs[i as int], *game, *game, track, width, *default));
                                ggs = ggs.push(*game);
                            }
                        },
                    }
                } else if is_text(get_key(Some(c), "current"), "bonus") {
                    match bonus_num_exec(c) {
                        Some(k) => {
                            grow_game(game, k + 1, default);
                            let ghost gg = *game;
                            let m = bonus_mode_exec(c);
                            let action = bonus_action_exec(c);
                            let bs = or_zero_exec(get_key(get_key(Some(c), "bonus"), "bs_count")) as usize;
                            let mech = int_list_exec(get_key(get_key(Some(c), "bonus"), "bonus_mechanic"));
                            let win = or_zero_exec(get_key(get_key(Some(c), "bonus"), "round_win"));
                            let ok = match m {
                                ModeSel::Base => count_bonus(&mut game.base, &mut track, k, action, bs, &mech, win),
                                ModeSel::Buy1 => count_bonus(&mut game.buy_1, &mut track, k, action, bs, &mech, win),
                                ModeSel::Buy2 => count_bonus(&mut game.buy_2, &mut track, k, action, bs, &mech, win),
                            };
                            if !ok {
                                proof {
                                    lemma_stopped(g0, txs, gs, ggs, ts, i as nat, *game, width, *default);
                                }
                                return Err(i);
                            }
                            proof {
                                assert(tx_step(gi, ti, txs[i as int], gg, *game, track, width, *default));
                                ggs = ggs.push(gg);
                            }
                        },
                        None => {
                            proof {
                                lemma_stopped(g0, txs, gs, ggs, ts, i as nat, *game, width, *default);
                            }
                            return Err(i);
                        },
                    }
                } else {
                    proof {
                        assert(tx_step(gi, ti, txs[i as int], *game, *game, track, width, *default));
                        ggs = ggs.push(*game);
                    }
                }
            },
            None => {
                match get_key(ok_out_exec(t, "start"), "settings") {
                    Some(st) => {
                        game.settings = copy_json(st);
                    },
                    None => {},
                }
                proof {
                    assert(tx_step(gi, ti, txs[i as int], gi, *game, track, width, *default));
                    ggs = ggs.push(gi);
                }
            },
        }
        proof {
            gs = gs.push(*game);
            ts = ts.push(track);
            assert(tx_step(gi, ti, txs[i as int], ggs.last(), *game, track, width, *default));
            assert(counted_upto(g0, txs, gs, ggs, ts, (i + 1) as nat, width, *default)) by {
                assert forall|j: int| 0 <= j < i + 1 implies tx_step(
                    gs[j],
                    ts[j],
                    txs[j],
                    #[trigger] ggs[j],
                    gs[j + 1],
                    ts[j + 1],
                    width,
                    *default,
                ) by {
                    if j < i {
                        assert(gs[j] == gs0[j] && gs[j + 1] == gs0[j + 1] && ts[j] == ts0[j] && ts[j + 1] == ts0[j + 1]
                            && ggs[j] == ggs0[j]);
                        assert(tx_step(gs0[j], ts0[j], txs[j], ggs0[j], gs0[j + 1], ts0[j + 1], width, *default));
                    }
                }
            }
        }
        i = i + 1;
    }
    proof {
        lemma_extracted(g0, txs, gs, ggs, ts, transactions@.len() as nat, *game, width, *default);
    }
    Ok(())
}


/// How a round is filed: a plain spin in the base mode, a spin bought in mode `1` or `2`
/// in the first or second buy mode; a bought spin bets the price of its mode (first or
/// second `buy_bonus_price`) times the first bet factor; a bonus goes to category
/// `bonus_game_type - 1` of the mode its `selected_mode` names.
pub proof fn law_rounds_filed(ctx: JsonV, settings: JsonV, p1: i64, p2: i64, f: i64, n: i64)
    ensures
        ({
            let action = as_text(get(Some(ctx), "last_action"@));
            let mode = as_text(get(get(Some(ctx), "spins"@), "selected_mode"@));
            let bmode = as_text(get(get(Some(ctx), "bonus"@), "selected_mode"@));
            &&& action == Some("spin"@) ==> spin_mode(ctx) == Some(ModeSel::Base)
            &&& (action == Some("buy_spin"@) && mode == Some("1"@)) ==> spin_mode(ctx) == Some(ModeSel::Buy1)
            &&& (action == Some("buy_spin"@) && mode == Some("2"@)) ==> spin_mode(ctx) == Some(ModeSel::Buy2)
            &&& bmode == Some("1"@) ==> bonus_mode(ctx) == ModeSel::Buy1
            &&& bmode == Some("2"@) ==> bonus_mode(ctx) == ModeSel::Buy2
            &&& (as_int(at(get(Some(settings), "buy_bonus_price"@), 0)) == Some(p1) && as_int(
                at(get(Some(settings), "bet_factor"@), 0),
            ) == Some(f) && i64::MIN <= p1 * f <= i64::MAX) ==> spin_bet(ctx, settings, ModeSel::Buy1) == Some(
                (p1 * f) as i64,
            )
            &&& (as_int(at(get(Some(settings), "buy_bonus_price"@), 1)) == Some(p2) && as_int(
                at(get(Some(settings), "bet_factor"@), 0),
            ) == Some(f) && i64::MIN <= p2 * f <= i64::MAX) ==> spin_bet(ctx, settings, ModeSel::Buy2) == Some(
                (p2 * f) as i64,
            )
            &&& (as_int(get(get(Some(ctx), "bonus"@), "bonus_game_type"@)) == Some(n) && n >= 1) ==> bonus_num(ctx)
                == Some((n - 1) as nat)
        }),
{
    reveal_strlit("spin");
    reveal_strlit("buy_spin");
    reveal_strlit("1");
    reveal_strlit("2");
    assert("spin"@ != "buy_spin"@) by {
        assert("spin"@.len() != "buy_spin"@.len());
    }
    assert("1"@ != "2"@) by {
        assert("1"@[0] != "2"@[0]);
    }
}

} // verus!
