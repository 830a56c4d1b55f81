use vstd::prelude::*;

use crate::json::Json;

verus! {

/// How often a symbol landed on one row of a column.
#[derive(Clone, Debug, Default, PartialEq, Eq, Hash)]
pub struct Row {
    pub count: i64,
}

/// How often a symbol landed on one column, and on each of its rows.
#[derive(Clone, Debug, Default, PartialEq, Eq, Hash)]
pub struct Col {
    pub count: i64,
    pub rows: Vec<Row>,
}

/// The number of bets and their total amount.
#[derive(Clone, Debug, Default, PartialEq, Eq, Hash)]
pub struct Bet {
    pub count: i64,
    pub amount: i64,
}

/// The wins of one length: how many, and their total amount.
#[derive(Clone, Debug, Default, PartialEq, Eq, Hash)]
pub struct ByLenght {
    pub length: i64,
    pub count: i64,
    pub amount: i64,
}

/// The wins on one pay line, in total and per length.
#[derive(Clone, Debug, Default, PartialEq, Eq, Hash)]
pub struct ByLine {
    pub id: i64,
    pub count: i64,
    pub amount: i64,
    pub by_lengths: Vec<ByLenght>,
}

/// The wins of one symbol, in total and per length.
#[derive(Clone, Debug, Default, PartialEq, Eq, Hash)]
pub struct BySymbol {
    pub id: i64,
    pub count: i64,
    pub amount: i64,
    pub by_lengths: Vec<ByLenght>,
}

/// All wins, in total, per line and per symbol.
#[derive(Clone, Debug, Default, PartialEq, Eq, Hash)]
pub struct Win {
    pub count: i64,
    pub amount: i64,
    pub by_lines: Vec<ByLine>,
    pub by_symbols: Vec<BySymbol>,
}

/// A column of symbols seen on the screen, with how often it was seen.
#[derive(Clone, Debug, Default, PartialEq, Eq, Hash)]
pub struct Board {
    pub count: i64,
    pub board: Vec<i64>,
}

/// The distinct boards of one reel, with the total number of boards behind them.
#[derive(Clone, Debug, Default, PartialEq, Eq, Hash)]
pub struct UniqueBoardsInstanse {
    pub count: i64,
    pub frequency_average: i64,
    pub instanses: Vec<Board>,
}

/// The boards of one reel, one entry per observation.
#[derive(Clone, Debug, Default, PartialEq, Eq, Hash)]
pub struct BoardsInstanse {
    pub instanses: Vec<Vec<i64>>,
}

/// All board collections of a kind of spin, one entry per reel.
#[derive(Clone, Debug, Default, PartialEq, Eq, Hash)]
pub struct Boards {
    pub total: Vec<BoardsInstanse>,
    pub filtered: Vec<BoardsInstanse>,
    pub unique: Vec<UniqueBoardsInstanse>,
    pub multiplied: Vec<BoardsInstanse>,
}

/// A reel strip under construction and the boards it has still to cover.
#[derive(Clone, Debug, Default, PartialEq, Eq, Hash)]
pub struct ReelInstanse {
    pub reel: Vec<i64>,
    pub remaining: Vec<Vec<i64>>,
    pub correct: bool,
}

/// The candidate strips of one reel.
#[derive(Clone, Debug, Default, PartialEq, Eq, Hash)]
pub struct Reel {
    pub instanses: Vec<ReelInstanse>,
}

/// A symbol's landings: in total, per bonus value, per multiplier and per cell. A bonus
/// value is named by its rank among the game's bonus values (their order as values).
#[derive(Clone, Debug, Default, PartialEq, Eq, Hash)]
pub struct Symbol {
    pub id: i64,
    pub count: i64,
    pub values: Vec<(u64, i64)>,
    pub multiplayers: Vec<(i64, i64)>,
    pub cols: Vec<Col>,
}

/// The respins of bonuses of one length, with their symbol combinations and symbols.
#[derive(Clone, Debug, Default, PartialEq, Eq, Hash)]
pub struct ByBonusLenght {
    pub respins: i64,
    pub emerged: i64,
    pub combo_symbols: Vec<(Vec<i64>, i64)>,
    pub symbols: Vec<Symbol>,
    pub mystery_symbols: Vec<Symbol>,
}

/// The bonuses of one combination of mechanics.
#[derive(Clone, Debug, Default, PartialEq, Eq, Hash)]
pub struct ByMechanic {
    pub id: Vec<i64>,
    pub appearances: i64,
    pub inits: i64,
    pub respins: i64,
    pub emerged: i64,
    pub amount: i64,
    pub reappearances: i64,
    pub combo_symbols: Vec<(Vec<i64>, i64)>,
    pub reinits: i64,
    pub symbols: Vec<Symbol>,
    pub mystery_symbols: Vec<Symbol>,
    pub by_bonus_lenghts: Vec<ByBonusLenght>,
}

/// All bonuses of a kind of spin.
#[derive(Clone, Debug, Default, PartialEq, Eq, Hash)]
pub struct Bonus {
    pub id: String,
    pub appearances: i64,
    pub inits: i64,
    pub respins: i64,
    pub emerged: i64,
    pub amount: i64,
    pub reappearances: i64,
    pub combo_symbols: Vec<(Vec<i64>, i64)>,
    pub reinits: i64,
    pub symbols: Vec<Symbol>,
    pub mystery_symbols: Vec<Symbol>,
    pub by_bonus_lenghts: Vec<ByBonusLenght>,
    pub by_mechanics: Vec<ByMechanic>,
}

/// The spins of one kind: bets, wins, symbols, reels and boards.
#[derive(Clone, Debug, Default, PartialEq, Eq, Hash)]
pub struct Spins {
    pub id: String,
    pub count: i64,
    pub bet: Bet,
    pub win: Win,
    pub symbols: Vec<Symbol>,
    pub reels: Vec<Reel>,
    pub boards: Boards,
}

/// One category of play: how many rounds fell in it, its spins, bonuses, boards and
/// reels.
#[derive(Clone, Debug, Default, PartialEq, Eq, Hash)]
pub struct Category {
    pub count: i64,
    pub spins: Spins,
    pub bonus: Bonus,
    pub boards: Boards,
    pub reels: Vec<Reel>,
}

/// The categories of plain play and of each bought mode, with the game's settings.
#[derive(Debug)]
pub struct Categories {
    pub category: Vec<Category>,
    pub buy_category: Vec<Vec<Category>>,
    pub settings: Json,
}

/// The value of a column's landings: its count and each row's count.
pub open spec fn col_v(c: Col) -> (i64, Seq<i64>) {
    (c.count, Seq::new(c.rows@.len(), |r: int| c.rows@[r].count))
}

/// The value of a symbol's landings.
pub struct SymbolV {
    pub id: i64,
    pub count: i64,
    pub values: Seq<(u64, i64)>,
    pub multiplayers: Seq<(i64, i64)>,
    pub cols: Seq<(i64, Seq<i64>)>,
}

pub open spec fn symbol_v(s: Symbol) -> SymbolV {
    SymbolV {
        id: s.id,
        count: s.count,
        values: s.values@,
        multiplayers: s.multiplayers@,
        cols: Seq::new(s.cols@.len(), |c: int| col_v(s.cols@[c])),
    }
}

pub open spec fn symbols_v(s: Seq<Symbol>) -> Seq<SymbolV> {
    Seq::new(s.len(), |k: int| symbol_v(s[k]))
}

/// The value of a table of symbol combinations.
pub open spec fn combos_v(s: Seq<(Vec<i64>, i64)>) -> Seq<(Seq<i64>, i64)> {
    Seq::new(s.len(), |k: int| (s[k].0@, s[k].1))
}

/// The value of the respins of one bonus length.
pub struct ByBonusLenghtV {
    pub respins: i64,
    pub emerged: i64,
    pub combo_symbols: Seq<(Seq<i64>, i64)>,
    pub symbols: Seq<SymbolV>,
    pub mystery_symbols: Seq<SymbolV>,
}

pub open spec fn bonus_lenght_v(b: ByBonusLenght) -> ByBonusLenghtV {
    ByBonusLenghtV {
        respins: b.respins,
        emerged: b.emerged,
        combo_symbols: combos_v(b.combo_symbols@),
        symbols: symbols_v(b.symbols@),
        mystery_symbols: symbols_v(b.mystery_symbols@),
    }
}

pub open spec fn bonus_lenghts_v(s: Seq<ByBonusLenght>) -> Seq<ByBonusLenghtV> {
    Seq::new(s.len(), |k: int| bonus_lenght_v(s[k]))
}

fn copy_col(c: &Col) -> (r: Col)
    ensures
        col_v(r) == col_v(*c),
{
    let mut rows: Vec<Row> = Vec::new();
    let mut j: usize = 0;
    while j < c.rows.len()
        invariant
            j <= c.rows@.len(),
            rows@.len() == j,
            forall|k: int| 0 <= k < j ==> (#[trigger] rows@[k]).count == c.rows@[k].count,
        decreases c.rows@.len() - j,
    {
        rows.push(Row { count: c.rows[j].count });
        j = j + 1;
    }
    let r = Col { count: c.count, rows };
    assert(col_v(r).1 =~= col_v(*c).1);
    r
}

fn copy_pairs_u(v: &Vec<(u64, i64)>) -> (r: Vec<(u64, i64)>)
    ensures
        r@ == v@,
{
    let mut r: Vec<(u64, i64)> = Vec::new();
    let mut j: usize = 0;
    while j < v.len()
        invariant
            j <= v@.len(),
            r@ == v@.take(j as int),
        decreases v@.len() - j,
    {
        r.push(v[j]);
        assert(r@ =~= v@.take(j + 1));
        j = j + 1;
    }
    assert(v@.take(v@.len() as int) =~= v@);
    r
}

fn copy_pairs_i(v: &Vec<(i64, i64)>) -> (r: Vec<(i64, i64)>)
    ensures
        r@ == v@,
{
    let mut r: Vec<(i64, i64)> = Vec::new();
    let mut j: usize = 0;
    while j < v.len()
        invariant
            j <= v@.len(),
            r@ == v@.take(j as int),
        decreases v@.len() - j,
    {
        r.push(v[j]);
        assert(r@ =~= v@.take(j + 1));
        j = j + 1;
    }
    assert(v@.take(v@.len() as int) =~= v@);
    r
}

/// A copy of a symbol's landings.
pub fn copy_symbol(s: &Symbol) -> (r: Symbol)
    ensures
        symbol_v(r) == symbol_v(*s),
{
    let mut cols: Vec<Col> = Vec::new();
    let mut j: usize = 0;
    while j < s.cols.len()
        invariant
            j <= s.cols@.len(),
            cols@.len() == j,
            forall|k: int| 0 <= k < j ==> col_v(#[trigger] cols@[k]) == col_v(s.cols@[k]),
        decreases s.cols@.len() - j,
    {
        cols.push(copy_col(&s.cols[j]));
        j = j + 1;
    }
    let r = Symbol {
        id: s.id,
        count: s.count,
        values: copy_pairs_u(&s.values),
        multiplayers: copy_pairs_i(&s.multiplayers),
        cols,
    };
    assert(symbol_v(r).cols =~= symbol_v(*s).cols);
    r
}

/// A copy of a list of symbols' landings.
pub fn copy_symbols(v: &Vec<Symbol>) -> (r: Vec<Symbol>)
    ensures
        symbols_v(r@) == symbols_v(v@),
{
    let mut r: Vec<Symbol> = Vec::new();
    let mut j: usize = 0;
    while j < v.len()
        invariant
            j <= v@.len(),
            r@.len() == j,
            forall|k: int| 0 <= k < j ==> symbol_v(#[trigger] r@[k]) == symbol_v(v@[k]),
        decreases v@.len() - j,
    {
        r.push(copy_symbol(&v[j]));
        j = j + 1;
    }
    assert(symbols_v(r@) =~= symbols_v(v@));
    r
}

/// A copy of a table of symbol combinations.
pub fn copy_combos(v: &Vec<(Vec<i64>, i64)>) -> (r: Vec<(Vec<i64>, i64)>)
    ensures
        combos_v(r@) == combos_v(v@),
{
    let mut r: Vec<(Vec<i64>, i64)> = Vec::new();
    let mut j: usize = 0;
    while j < v.len()
        invariant
            j <= v@.len(),
            r@.len() == j,
            forall|k: int| 0 <= k < j ==> (#[trigger] r@[k]).0@ == v@[k].0@ && r@[k].1 == v@[k].1,
        decreases v@.len() - j,
    {
        let key = v[j].0.clone();
        assert(key@ =~= v@[j as int].0@);
        r.push((key, v[j].1));
        j = j + 1;
    }
    assert(combos_v(r@) =~= combos_v(v@));
    r
}

/// A copy of the respins of one bonus length.
pub fn copy_bonus_lenght(b: &ByBonusLenght) -> (r: ByBonusLenght)
    ensures
        bonus_lenght_v(r) == bonus_lenght_v(*b),
{
    ByBonusLenght {
        respins: b.respins,
        emerged: b.emerged,
        combo_symbols: copy_combos(&b.combo_symbols),
        symbols: copy_symbols(&b.symbols),
        mystery_symbols: copy_symbols(&b.mystery_symbols),
    }
}

/// A copy of a list of bonus lengths.
pub fn copy_bonus_lenghts(v: &Vec<ByBonusLenght>) -> (r: Vec<ByBonusLenght>)
    ensures
        bonus_lenghts_v(r@) == bonus_lenghts_v(v@),
{
    let mut r: Vec<ByBonusLenght> = Vec::new();
    let mut j: usize = 0;
    while j < v.len()
        invariant
            j <= v@.len(),
            r@.len() == j,
            forall|k: int| 0 <= k < j ==> bonus_lenght_v(#[trigger] r@[k]) == bonus_lenght_v(v@[k]),
        decreases v@.len() - j,
    {
        r.push(copy_bonus_lenght(&v[j]));
        j = j + 1;
    }
    assert(bonus_lenghts_v(r@) =~= bonus_lenghts_v(v@));
    r
}


/// A table key as written in the game's files: the JSON text of the key, without its
/// outer quotes where it is a string (two characters or more, `"` first and last).
pub open spec fn unquoted(text: Seq<char>) -> Seq<char> {
    if text.len() >= 2 && text[0] == '"' && text[text.len() - 1] == '"' {
        text.subrange(1, text.len() - 1)
    } else {
        text
    }
}

/// The JSON text serde_json writes for a list of integers, `None` where it refuses.
pub uninterp spec fn ints_json_text(k: Seq<i64>) -> Option<Seq<char>>;

/// The view of an optional text.
pub open spec fn opt_text(o: Option<String>) -> Option<Seq<char>> {
    match o {
        Some(t) => Some(t@),
        None => None,
    }
}

/// `serde_json::to_string` on a list of integers: its result, or `None` for its error, is
/// the text named by `ints_json_text` for the list.
#[verifier::external_body]
fn ints_to_json(k: &Vec<i64>) -> (r: Option<String>)
    ensures
        opt_text(r) == ints_json_text(k@),
{
    serde_json::to_string(k).ok()
}

/// A table keyed by symbol combinations, with each key written as its JSON text without
/// outer quotes (`unquoted`), in the table's order; `None` where a key has no JSON text.
pub fn serialize_map_as_string_keys(map: &Vec<(Vec<i64>, i64)>) -> (r: Option<Vec<(String, i64)>>)
    ensures
        r is Some <==> forall|j: int| 0 <= j < map@.len() ==> (#[trigger] ints_json_text(map@[j].0@)) is Some,
        r matches Some(v) ==> v@.len() == map@.len() && forall|j: int|
            0 <= j < map@.len() ==> (#[trigger] v@[j]).0@ == unquoted(ints_json_text(map@[j].0@)->0) && v@[j].1
                == map@[j].1,
{
    let mut out: Vec<(String, i64)> = Vec::new();
    let mut j: usize = 0;
    while j < map.len()
        invariant
            j <= map@.len(),
            out@.len() == j,
            forall|q: int| 0 <= q < j ==> (#[trigger] ints_json_text(map@[q].0@)) is Some,
            forall|q: int|
                0 <= q < j ==> (#[trigger] out@[q]).0@ == unquoted(ints_json_text(map@[q].0@)->0) && out@[q].1
                    == map@[q].1,
        decreases map.len() - j,
    {
        match ints_to_json(&map[j].0) {
            Some(t) => {
                out.push((unquoted_key(&t), map[j].1));
            },
            None => {
                return None;
            },
        }
        j = j + 1;
    }
    Some(out)
}

/// The key text `unquoted` makes of a key's JSON text.
pub fn unquoted_key(text: &str) -> (r: String)
    ensures
        r@ == unquoted(text@),
{
    let cs = crate::logs::text_chars(text);
    let n = cs.len();
    if n >= 2 && cs[0] == '"' && cs[n - 1] == '"' {
        text.substring_char(1, n - 1).to_string()
    } else {
        text.to_string()
    }
}

} // verus!
