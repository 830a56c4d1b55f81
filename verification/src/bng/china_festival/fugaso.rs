use vstd::prelude::*;

use crate::bng::china_festival::convert::{char_text, letter_number, num_str_to_letter};
use crate::bng::china_festival::tallies::{
    bonus_inits_total, inits_total, mechanic_tallies, mechanics_of, reel_text, reel_texts, rows_view, tally_rows,
};
use crate::bng::three_aztec_temples::models::{Categories, Category, Col, Symbol};
use crate::json::{
    as_int, get, get_array, get_i64, get_key, jv, jv_entries, jv_list, lemma_jv_entries, lemma_jv_list, ov, Json,
    JsonV,
};
use vstd::string::StringExecFns;

verus! {

/// The character a payline cell is drawn with: `-` for row 1, `^` for row 0, `_` for
/// row 2, `?` for anything else.
pub open spec fn payline_char(c: JsonV) -> char {
    let n = as_int(Some(c));
    if n == Some(1i64) {
        '-'
    } else if n == Some(0i64) {
        '^'
    } else if n == Some(2i64) {
        '_'
    } else {
        '?'
    }
}

/// A payline drawn as text, one character per cell.
pub open spec fn payline_text(row: Seq<JsonV>) -> Seq<char> {
    Seq::new(row.len(), |i: int| payline_char(row[i]))
}

/// The drawings of the first `n` paylines that are arrays, in order.
pub open spec fn payline_rows(rows: Seq<JsonV>, n: nat) -> Seq<Seq<char>>
    decreases n,
{
    if n == 0 || n > rows.len() {
        Seq::empty()
    } else {
        payline_rows(rows, (n - 1) as nat) + match rows[n - 1] {
            JsonV::Array(cells) => seq![payline_text(cells)],
            _ => Seq::empty(),
        }
    }
}

/// The paylines of the settings drawn as text; none when `paylines` is not an array, and
/// `None` when the settings have no `paylines`.
pub open spec fn payline_texts(settings: JsonV) -> Option<Seq<Seq<char>>> {
    match get(Some(settings), "paylines"@) {
        Some(JsonV::Array(rows)) => Some(payline_rows(rows, rows.len())),
        Some(_) => Some(Seq::empty()),
        None => None,
    }
}

/// The letter a number text names (`num_str_to_letter`), as a text.
pub open spec fn number_letter(s: Seq<char>) -> Option<Seq<char>> {
    match letter_number(s) {
        Some(n) => if 1 <= n <= 26 {
            Some(seq![(64 + n) as char])
        } else {
            None
        },
        None => None,
    }
}

/// A paytable entry as (occurrences, multiplier), when it is an object with both.
pub open spec fn pay_entry(item: JsonV) -> Option<(i64, i64)> {
    match item {
        JsonV::Object(_) => match (as_int(get(Some(item), "multiplier"@)), as_int(get(Some(item), "occurrences"@))) {
            (Some(m), Some(o)) => Some((o, m)),
            _ => None,
        },
        _ => None,
    }
}

/// The entries among the first `n` items of a paytable list, in order.
pub open spec fn pay_entries(items: Seq<JsonV>, n: nat) -> Seq<(i64, i64)>
    decreases n,
{
    if n == 0 || n > items.len() {
        Seq::empty()
    } else {
        pay_entries(items, (n - 1) as nat) + match pay_entry(items[n - 1]) {
            Some(e) => seq![e],
            None => Seq::empty(),
        }
    }
}

/// The wins of the first `n` paytable members whose name is a letter number and whose
/// value is a list: the letter and the (occurrences, multiplier) entries, in order.
pub open spec fn win_rows(es: Seq<(Seq<char>, JsonV)>, n: nat) -> Seq<(Seq<char>, Seq<(i64, i64)>)>
    decreases n,
{
    if n == 0 || n > es.len() {
        Seq::empty()
    } else {
        win_rows(es, (n - 1) as nat) + match (number_letter(es[n - 1].0), es[n - 1].1) {
            (Some(l), JsonV::Array(items)) => seq![(l, pay_entries(items, items.len()))],
            _ => Seq::empty(),
        }
    }
}

/// The wins of the paytable of the settings; none when it is not an object, `None` when
/// the settings have no `paytable`.
pub open spec fn paytable_wins(settings: JsonV) -> Option<Seq<(Seq<char>, Seq<(i64, i64)>)>> {
    match get(Some(settings), "paytable"@) {
        Some(JsonV::Object(es)) => Some(win_rows(es, es.len())),
        Some(_) => Some(Seq::empty()),
        None => None,
    }
}

/// The prices of the two bought bonuses, when the settings hold both as integers.
pub open spec fn bet_counters(settings: JsonV) -> Option<(i64, i64)> {
    match (as_int(get(Some(settings), "buy_bonus_price_1"@)), as_int(get(Some(settings), "buy_bonus_price_2"@))) {
        (Some(p1), Some(p2)) => Some((p1, p2)),
        _ => None,
    }
}

/// The letter of a symbol id from 1 to 26.
pub open spec fn id_letter(id: i64) -> Option<char> {
    if 1 <= id <= 26 {
        Some((64 + id) as char)
    } else {
        None
    }
}

/// The count of the first symbol with id `id` among the first `n`, 0 when none has it.
pub open spec fn first_count(syms: Seq<Symbol>, id: i64, n: nat) -> i64
    decreases n,
{
    if n == 0 || n > syms.len() {
        0
    } else if syms[syms.len() - n].id == id {
        syms[syms.len() - n].count
    } else {
        first_count(syms, id, (n - 1) as nat)
    }
}

/// Whether every mystery symbol has a letter.
pub open spec fn mysteries_lettered(ms: Seq<Symbol>) -> bool {
    forall|i: int| 0 <= i < ms.len() ==> id_letter(#[trigger] ms[i].id) is Some
}

fn payline_char_exec(c: &Json) -> (r: char)
    ensures
        r == payline_char(jv(*c)),
{
    let n = get_i64(Some(c));
    if n == Some(1i64) {
        '-'
    } else if n == Some(0i64) {
        '^'
    } else if n == Some(2i64) {
        '_'
    } else {
        '?'
    }
}

fn payline_text_exec(cells: &Vec<Json>) -> (r: String)
    ensures
        r@ == payline_text(jv_list(cells@)),
{
    proof {
        lemma_jv_list(cells@);
    }
    let ghost cv = jv_list(cells@);
    let mut t = String::new();
    let mut i: usize = 0;
    while i < cells.len()
        invariant
            cv == jv_list(cells@),
            cv.len() == cells@.len(),
            forall|j: int| 0 <= j < cells@.len() ==> #[trigger] cv[j] == jv(cells@[j]),
            i <= cells@.len(),
            t@ == payline_text(cv).take(i as int),
        decreases cells.len() - i,
    {
        assert(cv[i as int] == jv(cells@[i as int]));
        let c = char_text(payline_char_exec(&cells[i]));
        t.append(c.as_str());
        assert(payline_text(cv).take(i + 1) =~= payline_text(cv).take(i as int).push(payline_char(cv[i as int])));
        i = i + 1;
    }
    assert(payline_text(cv).take(cells.len() as int) =~= payline_text(cv));
    t
}

/// The paylines of the settings drawn as text (`payline_texts`): each payline that is a
/// list becomes one text, a cell of row 1 drawn `-`, row 0 `^`, row 2 `_` and any other
/// `?`. `None` when the settings have no `paylines`.
pub fn fugaso_lines(settings: &Json) -> (r: Option<Vec<String>>)
    ensures
        match payline_texts(jv(*settings)) {
            Some(ls) => r matches Some(v) && v@.len() == ls.len() && forall|i: int|
                0 <= i < ls.len() ==> (#[trigger] v@[i])@ == ls[i],
            None => r is None,
        },
{
    let p = get_key(Some(settings), "paylines");
    if p.is_none() {
        return None;
    }
    let mut out: Vec<String> = Vec::new();
    match get_array(p) {
        Some(rows) => {
            proof {
                lemma_jv_list(rows@);
            }
            let ghost rv = jv_list(rows@);
            let mut i: usize = 0;
            while i < rows.len()
                invariant
                    rv == jv_list(rows@),
                    rv.len() == rows@.len(),
                    forall|j: int| 0 <= j < rows@.len() ==> #[trigger] rv[j] == jv(rows@[j]),
                    i <= rows@.len(),
                    out@.len() == payline_rows(rv, i as nat).len(),
                    forall|k: int| 0 <= k < out@.len() ==> (#[trigger] out@[k])@ == payline_rows(rv, i as nat)[k],
                decreases rows.len() - i,
            {
                assert(rv[i as int] == jv(rows@[i as int]));
                match get_array(Some(&rows[i])) {
                    Some(cells) => {
                        let t = payline_text_exec(cells);
                        out.push(t);
                    },
                    None => {},
                }
                i = i + 1;
            }
        },
        None => {},
    }
    Some(out)
}

fn pay_entry_exec(item: &Json) -> (r: Option<(i64, i64)>)
    ensures
        r == pay_entry(jv(*item)),
{
    match item {
        Json::Object(_) => {
            let m = get_i64(get_key(Some(item), "multiplier"));
            let o = get_i64(get_key(Some(item), "occurrences"));
            match (m, o) {
                (Some(m), Some(o)) => Some((o, m)),
                _ => None,
            }
        },
        _ => None,
    }
}

fn pay_entries_exec(items: &Vec<Json>) -> (r: Vec<(i64, i64)>)
    ensures
        r@ == pay_entries(jv_list(items@), items@.len()),
{
    proof {
        lemma_jv_list(items@);
    }
    let ghost iv = jv_list(items@);
    let mut out: Vec<(i64, i64)> = Vec::new();
    let mut i: usize = 0;
    while i < items.len()
        invariant
            iv == jv_list(items@),
            iv.len() == items@.len(),
            forall|j: int| 0 <= j < items@.len() ==> #[trigger] iv[j] == jv(items@[j]),
            i <= items@.len(),
            out@ == pay_entries(iv, i as nat),
        decreases items.len() - i,
    {
        assert(iv[i as int] == jv(items@[i as int]));
        match pay_entry_exec(&items[i]) {
            Some(e) => {
                out.push(e);
            },
            None => {},
        }
        i = i + 1;
    }
    out
}

/// The wins of the paytable of the settings (`paytable_wins`): for each member, in
/// order, whose name is a number from 1 to 26 and whose value is a list, its letter and
/// its (occurrences, multiplier) entries. `None` when the settings have no `paytable`.
pub fn fugaso_wins(settings: &Json) -> (r: Option<Vec<(String, Vec<(i64, i64)>)>>)
    ensures
        match paytable_wins(jv(*settings)) {
            Some(ws) => r matches Some(v) && v@.len() == ws.len() && forall|i: int|
                0 <= i < ws.len() ==> (#[trigger] v@[i]).0@ == ws[i].0 && v@[i].1@ == ws[i].1,
            None => r is None,
        },
{
    let p = get_key(Some(settings), "paytable");
    match p {
        None => None,
        Some(Json::Object(es)) => {
            proof {
                lemma_jv_entries(es@);
            }
            let ghost ev = jv_entries(es@);
            assert(ov(p) == Some(JsonV::Object(ev)));
            let mut out: Vec<(String, Vec<(i64, i64)>)> = Vec::new();
            let mut i: usize = 0;
            while i < es.len()
                invariant
                    ev == jv_entries(es@),
                    ev.len() == es@.len(),
                    forall|j: int| 0 <= j < es@.len() ==> #[trigger] ev[j] == (es@[j].0@, jv(es@[j].1)),
                    i <= es@.len(),
                    out@.len() == win_rows(ev, i as nat).len(),
                    forall|k: int|
                        0 <= k < out@.len() ==> (#[trigger] out@[k]).0@ == win_rows(ev, i as nat)[k].0 && out@[k].1@
                            == win_rows(ev, i as nat)[k].1,
                decreases es.len() - i,
            {
                assert(ev[i as int] == (es@[i as int].0@, jv(es@[i as int].1)));
                let letter = num_str_to_letter(es[i].0.as_str());
                match (letter, get_array(Some(&es[i].1))) {
                    (Some(l), Some(items)) => {
                        proof {
                            lemma_jv_list(items@);
                        }
                        let entries = pay_entries_exec(items);
                        assert(number_letter(ev[i as int].0) == Some(l@));
                        assert(ev[i as int].1 == JsonV::Array(jv_list(items@)));
                        out.push((l, entries));
                        assert(win_rows(ev, (i + 1) as nat) == win_rows(ev, i as nat) + seq![(l@, entries@)]);
                    },
                    _ => {
                        assert(win_rows(ev, (i + 1) as nat) == win_rows(ev, i as nat));
                    },
                }
                i = i + 1;
            }
            Some(out)
        },
        Some(_) => Some(Vec::new()),
    }
}

/// The prices of the two bought bonuses (`bet_counters`), `None` when the settings lack
/// either as an integer.
pub fn fugaso_bet_counters(settings: &Json) -> (r: Option<(i64, i64)>)
    ensures
        r == bet_counters(jv(*settings)),
{
    let p1 = get_i64(get_key(Some(settings), "buy_bonus_price_1"));
    let p2 = get_i64(get_key(Some(settings), "buy_bonus_price_2"));
    match (p1, p2) {
        (Some(a), Some(b)) => Some((a, b)),
        _ => None,
    }
}

/// The spin counts of the categories, in order: the weights of the base categories.
pub fn base_category_counts(cats: &Vec<Category>) -> (r: Vec<i64>)
    ensures
        r@ == Seq::new(cats@.len(), |i: int| cats@[i].spins.count),
{
    let mut out: Vec<i64> = Vec::new();
    let mut i: usize = 0;
    while i < cats.len()
        invariant
            i <= cats@.len(),
            out@ == Seq::new(i as nat, |k: int| cats@[k].spins.count),
        decreases cats.len() - i,
    {
        out.push(cats[i].spins.count);
        assert(out@ =~= Seq::new((i + 1) as nat, |k: int| cats@[k].spins.count));
        i = i + 1;
    }
    out
}

fn first_count_exec(syms: &Vec<Symbol>, id: i64) -> (r: i64)
    ensures
        r == first_count(syms@, id, syms@.len()),
{
    let mut i: usize = 0;
    while i < syms.len()
        invariant
            i <= syms@.len(),
            first_count(syms@, id, syms@.len()) == first_count(syms@, id, (syms@.len() - i) as nat),
        decreases syms.len() - i,
    {
        if syms[i].id == id {
            return syms[i].count;
        }
        i = i + 1;
    }
    0
}

/// The mystery table of a category: the count of its bonus symbol 15 (0 when it has
/// none), and each mystery symbol's count with its letter, in order. `None` when a
/// mystery symbol's id is not from 1 to 26.
pub fn fugaso_mystery(cat: &Category) -> (r: Option<(i64, Vec<(i64, char)>)>)
    ensures
        mysteries_lettered(cat.bonus.mystery_symbols@) <==> r is Some,
        r matches Some((n, v)) ==> n == first_count(cat.bonus.symbols@, 15, cat.bonus.symbols@.len()) && v@.len()
            == cat.bonus.mystery_symbols@.len() && forall|i: int|
            0 <= i < v@.len() ==> Some((#[trigger] v@[i]).1) == id_letter(cat.bonus.mystery_symbols@[i].id) && v@[i].0
                == cat.bonus.mystery_symbols@[i].count,
{
    let n = first_count_exec(&cat.bonus.symbols, 15);
    let ms = &cat.bonus.mystery_symbols;
    let mut out: Vec<(i64, char)> = Vec::new();
    let mut i: usize = 0;
    while i < ms.len()
        invariant
            ms == &cat.bonus.mystery_symbols,
            i <= ms@.len(),
            out@.len() == i,
            forall|k: int| 0 <= k < i ==> id_letter(#[trigger] ms@[k].id) is Some,
            forall|k: int|
                0 <= k < i ==> Some((#[trigger] out@[k]).1) == id_letter(ms@[k].id) && out@[k].0 == ms@[k].count,
        decreases ms.len() - i,
    {
        let id = ms[i].id;
        if !(1 <= id && id <= 26) {
            assert(id_letter(ms@[i as int].id) is None);
            return None;
        }
        let b = id as u8;
        out.push((ms[i].count, (64u8 + b) as char));
        i = i + 1;
    }
    Some((n, out))
}

/// The first place of `x` in `v`.
pub open spec fn first_pos(v: Seq<i64>, x: i64, n: nat) -> Option<nat>
    decreases n,
{
    if n == 0 || n > v.len() {
        None
    } else {
        match first_pos(v, x, (n - 1) as nat) {
            Some(p) => Some(p),
            None => if v[n - 1] == x {
                Some((n - 1) as nat)
            } else {
                None
            },
        }
    }
}

/// A running sum with `x` added, `None` once it leaves the `i64` range.
pub open spec fn add_opt(o: Option<i64>, x: i64) -> Option<i64> {
    match o {
        Some(t) => if i64::MIN <= t + x <= i64::MAX {
            Some((t + x) as i64)
        } else {
            None
        },
        None => None,
    }
}

/// A running sum with row `r` of the first `n` columns added, in order.
pub open spec fn fold_cols(o: Option<i64>, cols: Seq<Col>, r: int, n: nat) -> Option<i64>
    decreases n,
{
    if n == 0 || n > cols.len() {
        o
    } else {
        let p = fold_cols(o, cols, r, (n - 1) as nat);
        if r < cols[n - 1].rows@.len() {
            add_opt(p, cols[n - 1].rows@[r].count)
        } else {
            p
        }
    }
}

/// A running sum with row `r` of the first `n` symbols counted under the appearing
/// symbol at place `j` added, in order.
pub open spec fn fold_syms(o: Option<i64>, syms: Seq<Symbol>, ap: Seq<i64>, j: nat, r: int, n: nat) -> Option<i64>
    decreases n,
{
    if n == 0 || n > syms.len() {
        o
    } else {
        let p = fold_syms(o, syms, ap, j, r, (n - 1) as nat);
        if first_pos(ap, syms[n - 1].id, ap.len()) == Some(j) {
            fold_cols(p, syms[n - 1].cols@, r, syms[n - 1].cols@.len())
        } else {
            p
        }
    }
}

/// The landings on row `r` of the appearing symbol at place `j`, summed over the spin
/// symbols of the first `n` categories, in order; `None` when a running sum overflows.
pub open spec fn row_sum(cats: Seq<Category>, ap: Seq<i64>, j: nat, r: int, n: nat) -> Option<i64>
    decreases n,
{
    if n == 0 || n > cats.len() {
        Some(0)
    } else {
        fold_syms(
            row_sum(cats, ap, j, r, (n - 1) as nat),
            cats[n - 1].spins.symbols@,
            ap,
            j,
            r,
            cats[n - 1].spins.symbols@.len(),
        )
    }
}

/// Whether every spin symbol counted under an appearing symbol has at most three rows
/// in each column.
pub open spec fn rows_fit(cats: Seq<Category>, ap: Seq<i64>) -> bool {
    forall|c: int, k: int, q: int|
        0 <= c < cats.len() && 0 <= k < cats[c].spins.symbols@.len() && 0 <= q
            < cats[c].spins.symbols@[k].cols@.len() && first_pos(ap, cats[c].spins.symbols@[k].id, ap.len()) is Some
            ==> #[trigger] cats[c].spins.symbols@[k].cols@[q].rows@.len() <= 3
}

proof fn lemma_first_pos_bound(v: Seq<i64>, x: i64, n: nat)
    ensures
        first_pos(v, x, n) matches Some(p) ==> p < n && p < v.len() && v[p as int] == x,
    decreases n,
{
    if n > 0 {
        lemma_first_pos_bound(v, x, (n - 1) as nat);
    }
}

fn first_pos_exec(v: &Vec<i64>, x: i64) -> (r: Option<usize>)
    ensures
        match first_pos(v@, x, v@.len()) {
            Some(p) => r == Some(p as usize),
            None => r is None,
        },
{
    let mut i: usize = 0;
    while i < v.len()
        invariant
            i <= v@.len(),
            first_pos(v@, x, i as nat) is None,
        decreases v.len() - i,
    {
        if v[i] == x {
            proof {
                lemma_first_pos_rest(v@, x, (i + 1) as nat, v@.len());
            }
            return Some(i);
        }
        i = i + 1;
    }
    None
}

proof fn lemma_first_pos_rest(v: Seq<i64>, x: i64, k: nat, n: nat)
    requires
        k <= n <= v.len(),
        first_pos(v, x, k) is Some,
    ensures
        first_pos(v, x, n) == first_pos(v, x, k),
    decreases n - k,
{
    if k < n {
        lemma_first_pos_rest(v, x, k, (n - 1) as nat);
    }
}

fn add_opt_exec(o: Option<i64>, x: i64) -> (r: Option<i64>)
    ensures
        r == add_opt(o, x),
{
    match o {
        Some(t) => {
            let s = t as i128 + x as i128;
            if i64::MIN as i128 <= s && s <= i64::MAX as i128 {
                Some(s as i64)
            } else {
                None
            }
        },
        None => None,
    }
}

fn fold_cols_exec(o: Option<i64>, cols: &Vec<Col>, r: usize) -> (res: Option<i64>)
    ensures
        res == fold_cols(o, cols@, r as int, cols@.len()),
{
    let mut acc = o;
    let mut q: usize = 0;
    while q < cols.len()
        invariant
            q <= cols@.len(),
            acc == fold_cols(o, cols@, r as int, q as nat),
        decreases cols.len() - q,
    {
        if r < cols[q].rows.len() {
            acc = add_opt_exec(acc, cols[q].rows[r].count);
        }
        q = q + 1;
    }
    acc
}

fn fold_syms_exec(o: Option<i64>, syms: &Vec<Symbol>, ap: &Vec<i64>, j: usize, r: usize) -> (res: Option<i64>)
    ensures
        res == fold_syms(o, syms@, ap@, j as nat, r as int, syms@.len()),
{
    let mut acc = o;
    let alen = ap.len();
    let mut k: usize = 0;
    while k < syms.len()
        invariant
            alen == ap@.len(),
            k <= syms@.len(),
            acc == fold_syms(o, syms@, ap@, j as nat, r as int, k as nat),
        decreases syms.len() - k,
    {
        proof {
            lemma_first_pos_bound(ap@, syms@[k as int].id, ap@.len());
        }
        let fp = first_pos_exec(ap, syms[k].id);
        assert((fp == Some(j)) == (first_pos(ap@, syms@[k as int].id, ap@.len()) == Some(j as nat)));
        if fp == Some(j) {
            acc = fold_cols_exec(acc, &syms[k].cols, r);
        }
        k = k + 1;
    }
    acc
}

fn rows_fit_exec(cats: &Vec<Category>, ap: &Vec<i64>) -> (r: bool)
    ensures
        r == rows_fit(cats@, ap@),
{
    let mut c: usize = 0;
    while c < cats.len()
        invariant
            c <= cats@.len(),
            forall|c2: int, k: int, q: int|
                0 <= c2 < c && 0 <= k < cats@[c2].spins.symbols@.len() && 0 <= q
                    < cats@[c2].spins.symbols@[k].cols@.len() && first_pos(
                    ap@,
                    cats@[c2].spins.symbols@[k].id,
                    ap@.len(),
                ) is Some ==> #[trigger] cats@[c2].spins.symbols@[k].cols@[q].rows@.len() <= 3,
        decreases cats.len() - c,
    {
        let syms = &cats[c].spins.symbols;
        let mut k: usize = 0;
        while k < syms.len()
            invariant
                c < cats@.len(),
                syms == &cats@[c as int].spins.symbols,
                k <= syms@.len(),
                forall|c2: int, k2: int, q: int|
                    0 <= c2 < c && 0 <= k2 < cats@[c2].spins.symbols@.len() && 0 <= q
                        < cats@[c2].spins.symbols@[k2].cols@.len() && first_pos(
                        ap@,
                        cats@[c2].spins.symbols@[k2].id,
                        ap@.len(),
                    ) is Some ==> #[trigger] cats@[c2].spins.symbols@[k2].cols@[q].rows@.len() <= 3,
                forall|k2: int, q: int|
                    0 <= k2 < k && 0 <= q < syms@[k2].cols@.len() && first_pos(ap@, syms@[k2].id, ap@.len()) is Some
                        ==> #[trigger] syms@[k2].cols@[q].rows@.len() <= 3,
            decreases syms.len() - k,
        {
            if first_pos_exec(ap, syms[k].id).is_some() {
                let cols = &syms[k].cols;
                let mut q: usize = 0;
                while q < cols.len()
                    invariant
                        c < cats@.len(),
                        syms == &cats@[c as int].spins.symbols,
                        k < syms@.len(),
                        first_pos(ap@, syms@[k as int].id, ap@.len()) is Some,
                        cols == &syms@[k as int].cols,
                        q <= cols@.len(),
                        forall|q2: int| 0 <= q2 < q ==> #[trigger] cols@[q2].rows@.len() <= 3,
                    decreases cols.len() - q,
                {
                    if cols[q].rows.len() > 3 {
                        assert(cats@[c as int].spins.symbols@[k as int].cols@[q as int].rows@.len() > 3);
                        return false;
                    }
                    q = q + 1;
                }
            }
            k = k + 1;
        }
        c = c + 1;
    }
    true
}

/// The symbol table of a Fugaso settings file: for each appearing symbol, in order, the
/// landings of the spin symbols with its id on rows 0, 1 and 2, summed over the columns
/// of all categories (a symbol whose id appears twice is counted at its first place).
/// `None` when such a symbol has more than three rows in a column, or a sum overflows.
pub fn fugaso_symbol_rows(cats: &Vec<Category>, appearing: &Vec<i64>) -> (r: Option<Vec<(i64, Vec<i64>)>>)
    ensures
        r is Some <==> rows_fit(cats@, appearing@) && forall|j: int, q: int|
            0 <= j < appearing@.len() && 0 <= q < 3 ==> #[trigger] row_sum(cats@, appearing@, j as nat, q, cats@.len())
                is Some,
        r matches Some(v) ==> v@.len() == appearing@.len() && forall|j: int|
            0 <= j < v@.len() ==> (#[trigger] v@[j]).0 == appearing@[j] && v@[j].1@.len() == 3 && forall|q: int|
                0 <= q < 3 ==> Some(#[trigger] v@[j].1@[q]) == row_sum(cats@, appearing@, j as nat, q, cats@.len()),
{
    if !rows_fit_exec(cats, appearing) {
        return None;
    }
    let mut out: Vec<(i64, Vec<i64>)> = Vec::new();
    let mut j: usize = 0;
    while j < appearing.len()
        invariant
            rows_fit(cats@, appearing@),
            j <= appearing@.len(),
            out@.len() == j,
            forall|j2: int, q: int|
                0 <= j2 < j && 0 <= q < 3 ==> #[trigger] row_sum(cats@, appearing@, j2 as nat, q, cats@.len()) is Some,
            forall|j2: int|
                0 <= j2 < j ==> (#[trigger] out@[j2]).0 == appearing@[j2] && out@[j2].1@.len() == 3 && forall|q: int|
                    0 <= q < 3 ==> Some(#[trigger] out@[j2].1@[q]) == row_sum(cats@, appearing@, j2 as nat, q, cats@.len()),
        decreases appearing.len() - j,
    {
        let mut sums: Vec<i64> = Vec::new();
        let mut q: usize = 0;
        while q < 3
            invariant
                j < appearing@.len(),
                q <= 3,
                sums@.len() == q,
                forall|q2: int| 0 <= q2 < q ==> Some(#[trigger] sums@[q2]) == row_sum(cats@, appearing@, j as nat, q2, cats@.len()),
            decreases 3 - q,
        {
            let mut acc: Option<i64> = Some(0);
            let mut c: usize = 0;
            while c < cats.len()
                invariant
                    c <= cats@.len(),
                    acc == row_sum(cats@, appearing@, j as nat, q as int, c as nat),
                decreases cats.len() - c,
            {
                acc = fold_syms_exec(acc, &cats[c].spins.symbols, appearing, j, q);
                c = c + 1;
            }
            match acc {
                Some(t) => {
                    sums.push(t);
                },
                None => {
                    let ghost jj = j as int;
                    let ghost qq = q as int;
                    assert(!(row_sum(cats@, appearing@, jj as nat, qq, cats@.len()) is Some));
                    return None;
                },
            }
            q = q + 1;
        }
        assert forall|q2: int| 0 <= q2 < 3 implies #[trigger] row_sum(cats@, appearing@, j as nat, q2, cats@.len()) is Some by {
            assert(Some(sums@[q2]) == row_sum(cats@, appearing@, j as nat, q2, cats@.len()));
        }
        out.push((appearing[j], sums));
        j = j + 1;
    }
    Some(out)
}

/// The first of the symbols from place `syms.len() - n` on with id `id`.
pub open spec fn first_symbol(syms: Seq<Symbol>, id: i64, n: nat) -> Option<Symbol>
    decreases n,
{
    if n == 0 || n > syms.len() {
        None
    } else if syms[syms.len() - n].id == id {
        Some(syms[syms.len() - n])
    } else {
        first_symbol(syms, id, (n - 1) as nat)
    }
}

/// The coin of a category: its first bonus symbol 14.
pub open spec fn coin_of(c: Category) -> Option<Symbol> {
    first_symbol(c.bonus.symbols@, 14, c.bonus.symbols@.len())
}

/// The (value rank, count) entries of the coins of the first `n` categories, in order.
pub open spec fn coin_entries(cats: Seq<Category>, n: nat) -> Seq<(u64, i64)>
    decreases n,
{
    if n == 0 || n > cats.len() {
        Seq::empty()
    } else {
        coin_entries(cats, (n - 1) as nat) + match coin_of(cats[n - 1]) {
            Some(s) => s.values@,
            None => Seq::empty(),
        }
    }
}

/// The coin counts of the first `n` categories summed.
pub open spec fn coin_total(cats: Seq<Category>, n: nat) -> int
    decreases n,
{
    if n == 0 || n > cats.len() {
        0
    } else {
        coin_total(cats, (n - 1) as nat) + match coin_of(cats[n - 1]) {
            Some(s) => s.count as int,
            None => 0,
        }
    }
}

/// The counts of the first `n` entries with rank `k` summed.
pub open spec fn rank_sum(es: Seq<(u64, i64)>, k: u64, n: nat) -> int
    decreases n,
{
    if n == 0 || n > es.len() {
        0
    } else {
        rank_sum(es, k, (n - 1) as nat) + if es[n - 1].0 == k {
            es[n - 1].1 as int
        } else {
            0
        }
    }
}

/// One more than the largest rank among the first `n` entries, 0 when there is none.
pub open spec fn rank_end(es: Seq<(u64, i64)>, n: nat) -> nat
    decreases n,
{
    if n == 0 || n > es.len() {
        0
    } else {
        let p = rank_end(es, (n - 1) as nat);
        if es[n - 1].0 + 1 > p {
            (es[n - 1].0 + 1) as nat
        } else {
            p
        }
    }
}

fn first_symbol_exec(syms: &Vec<Symbol>, id: i64) -> (r: Option<&Symbol>)
    ensures
        match first_symbol(syms@, id, syms@.len()) {
            Some(s) => r == Some(&s),
            None => r is None,
        },
{
    let mut i: usize = 0;
    while i < syms.len()
        invariant
            i <= syms@.len(),
            first_symbol(syms@, id, syms@.len()) == first_symbol(syms@, id, (syms@.len() - i) as nat),
        decreases syms.len() - i,
    {
        if syms[i].id == id {
            return Some(&syms[i]);
        }
        i = i + 1;
    }
    None
}

proof fn lemma_rank_sum_bound(es: Seq<(u64, i64)>, k: u64, n: nat)
    ensures
        -(n as int) * 0x8000_0000_0000_0000 <= rank_sum(es, k, n) <= (n as int) * 0x8000_0000_0000_0000,
    decreases n,
{
    if n > 0 && n <= es.len() {
        lemma_rank_sum_bound(es, k, (n - 1) as nat);
    } else if n > es.len() {
        assert(rank_sum(es, k, n) == 0);
        assert(0 <= (n as int) * 0x8000_0000_0000_0000) by (nonlinear_arith);
    }
}

/// The coin table of a Fugaso settings file: the coin counts of the categories summed
/// (`coin_total`), and for each value rank below `rank_end`, whether some coin has it
/// and its counts summed (`rank_sum`). `None` when the ranks run past what a list can
/// hold.
pub fn fugaso_coin_values(cats: &Vec<Category>) -> (r: Option<(i128, Vec<(bool, i128)>)>)
    ensures
        r matches Some((total, v)) ==> {
            let es = coin_entries(cats@, cats@.len());
            &&& total == coin_total(cats@, cats@.len())
            &&& v@.len() == rank_end(es, es.len())
            &&& forall|k: int|
                0 <= k < v@.len() ==> (#[trigger] v@[k]).0 == (exists|i: int| 0 <= i < es.len() && es[i].0 == k)
                    && v@[k].1 == rank_sum(es, k as u64, es.len())
        },
        r is None ==> rank_end(coin_entries(cats@, cats@.len()), coin_entries(cats@, cats@.len()).len()) >= usize::MAX,
{
    let mut flat: Vec<(u64, i64)> = Vec::new();
    let mut total: i128 = 0;
    let mut c: usize = 0;
    while c < cats.len()
        invariant
            c <= cats@.len(),
            flat@ == coin_entries(cats@, c as nat),
            total == coin_total(cats@, c as nat),
            -(c as int) * 0x8000_0000_0000_0000 <= total <= (c as int) * 0x8000_0000_0000_0000,
        decreases cats.len() - c,
    {
        match first_symbol_exec(&cats[c].bonus.symbols, 14) {
            Some(s) => {
                let ghost before = flat@;
                let mut q: usize = 0;
                while q < s.values.len()
                    invariant
                        q <= s.values@.len(),
                        flat@ == before + s.values@.take(q as int),
                    decreases s.values.len() - q,
                {
                    flat.push(s.values[q]);
                    assert(before + s.values@.take(q + 1) =~= (before + s.values@.take(q as int)).push(s.values@[q as int]));
                    q = q + 1;
                }
                assert(s.values@.take(s.values@.len() as int) =~= s.values@);
                total = total + s.count as i128;
            },
            None => {},
        }
        c = c + 1;
    }
    let ghost es = flat@;
    let mut end: u64 = 0;
    let mut i: usize = 0;
    while i < flat.len()
        invariant
            es == flat@,
            i <= flat@.len(),
            end as nat == rank_end(es, i as nat) || (end == u64::MAX && rank_end(es, i as nat) >= u64::MAX),
            end < u64::MAX ==> end as nat == rank_end(es, i as nat),
        decreases flat.len() - i,
    {
        let k = flat[i].0;
        if k == u64::MAX {
            end = u64::MAX;
        } else if end < u64::MAX && k + 1 > end {
            end = k + 1;
        }
        i = i + 1;
    }
    if end as u128 >= usize::MAX as u128 {
        return None;
    }
    let n = end as usize;
    let mut v: Vec<(bool, i128)> = Vec::new();
    let mut k: usize = 0;
    while k < n
        invariant
            es == flat@,
            n as nat == rank_end(es, es.len()),
            k <= n,
            v@.len() == k,
            forall|k2: int|
                0 <= k2 < k ==> (#[trigger] v@[k2]).0 == (exists|i: int| 0 <= i < es.len() && es[i].0 == k2) && v@[k2].1
                    == rank_sum(es, k2 as u64, es.len()),
        decreases n - k,
    {
        let mut seen = false;
        let mut sum: i128 = 0;
        let mut i: usize = 0;
        while i < flat.len()
            invariant
                es == flat@,
                k < n,
                i <= flat@.len(),
                sum == rank_sum(es, k as u64, i as nat),
                seen == (exists|j: int| 0 <= j < i && es[j].0 == k),
            decreases flat.len() - i,
        {
            proof {
                lemma_rank_sum_bound(es, k as u64, i as nat);
                assert((i as int) * 0x8000_0000_0000_0000 <= 0x1_0000_0000_0000_0000 * 0x8000_0000_0000_0000)
                    by (nonlinear_arith)
                    requires
                        i <= 0xffff_ffff_ffff_ffff,
                ;
            }
            if flat[i].0 == k as u64 {
                sum = sum + flat[i].1 as i128;
                seen = true;
            } else {
                assert(!(es[i as int].0 == k) || false);
            }
            i = i + 1;
        }
        v.push((seen, sum));
        k = k + 1;
    }
    Some((total, v))
}

/// The integer tables of a Fugaso settings file, before shares are taken.
pub struct FugasoTables {
    /// The prices of the two bought bonuses.
    pub bet_counters: (i64, i64),
    /// Per bought mode, the bonus starts and respin appearances per mechanics name.
    pub buy_mechanics: Vec<Vec<(String, i128, i128)>>,
    /// Per bought mode, the bonus starts of its categories summed.
    pub buy_inits: Vec<i128>,
    /// The bonus starts and appearances per mechanics name of the base categories.
    pub respin_mechanics: Vec<(String, i128, i128)>,
    /// The spin counts of the base categories.
    pub base_counts: Vec<i64>,
    /// The count of bonus symbol 15 in the first base category.
    pub mystery_count: i64,
    /// The mystery symbols of the first base category: count and letter.
    pub mysteries: Vec<(i64, char)>,
    /// The strips of the base categories' reels in letters.
    pub reels: Vec<Vec<String>>,
    /// Per appearing symbol, its landings on rows 0, 1 and 2 in the base categories.
    pub symbol_rows: Vec<(i64, Vec<i64>)>,
    /// The paylines drawn as text.
    pub lines: Vec<String>,
    /// The paytable: letter and (occurrences, multiplier) entries.
    pub wins: Vec<(String, Vec<(i64, i64)>)>,
}

/// Whether the categories give every table: two bought modes, a base category, lettered
/// mysteries, and settings with bonus prices, paylines and a paytable.
pub open spec fn fugaso_ready(c: Categories, appearing: Seq<i64>) -> bool {
    &&& c.buy_category@.len() >= 2
    &&& c.category@.len() >= 1
    &&& mysteries_lettered(c.category@[0].bonus.mystery_symbols@)
    &&& bet_counters(jv(c.settings)) is Some
    &&& payline_texts(jv(c.settings)) is Some
    &&& paytable_wins(jv(c.settings)) is Some
    &&& rows_fit(c.category@, appearing)
    &&& forall|j: int, q: int|
        0 <= j < appearing.len() && 0 <= q < 3 ==> #[trigger] row_sum(c.category@, appearing, j as nat, q, c.category@.len())
            is Some
}

/// The integer tables of a Fugaso settings file: each field as the function that makes
/// it states. `None` exactly when the categories do not give every table
/// (`fugaso_ready`).
pub fn fugaso_tables(c: &Categories, appearing: &Vec<i64>) -> (r: Option<FugasoTables>)
    ensures
        fugaso_ready(*c, appearing@) <==> r is Some,
        r matches Some(t) ==> {
            &&& Some(t.bet_counters) == bet_counters(jv(c.settings))
            &&& t.buy_mechanics@.len() == 2 && t.buy_inits@.len() == 2
            &&& forall|g: int|
                0 <= g < 2 ==> rows_view((#[trigger] t.buy_mechanics@[g])@) == tally_rows(
                    mechanics_of(c.buy_category@[g]@, c.buy_category@[g]@.len()),
                    8,
                ) && t.buy_inits@[g] == inits_total(c.buy_category@[g]@, c.buy_category@[g]@.len())
            &&& rows_view(t.respin_mechanics@) == tally_rows(mechanics_of(c.category@, c.category@.len()), 8)
            &&& t.base_counts@ == Seq::new(c.category@.len(), |i: int| c.category@[i].spins.count)
            &&& t.mystery_count == first_count(
                c.category@[0].bonus.symbols@,
                15,
                c.category@[0].bonus.symbols@.len(),
            )
            &&& t.mysteries@.len() == c.category@[0].bonus.mystery_symbols@.len()
            &&& forall|i: int|
                0 <= i < t.mysteries@.len() ==> Some((#[trigger] t.mysteries@[i]).1) == id_letter(
                    c.category@[0].bonus.mystery_symbols@[i].id,
                ) && t.mysteries@[i].0 == c.category@[0].bonus.mystery_symbols@[i].count
            &&& t.reels@.len() == c.category@.len()
            &&& forall|k: int| 0 <= k < c.category@.len() ==> (#[trigger] t.reels@[k])@.len() == c.category@[k].reels@.len()
            &&& forall|k: int, q: int|
                0 <= k < c.category@.len() && 0 <= q < c.category@[k].reels@.len() ==> #[trigger] t.reels@[k]@[q]@
                    == reel_text(c.category@[k].reels@[q])
            &&& t.symbol_rows@.len() == appearing@.len()
            &&& forall|j: int|
                0 <= j < appearing@.len() ==> (#[trigger] t.symbol_rows@[j]).0 == appearing@[j] && t.symbol_rows@[j].1@.len()
                    == 3 && forall|q: int|
                    0 <= q < 3 ==> Some(#[trigger] t.symbol_rows@[j].1@[q]) == row_sum(
                        c.category@,
                        appearing@,
                        j as nat,
                        q,
                        c.category@.len(),
                    )
            &&& payline_texts(jv(c.settings)) matches Some(ls) && t.lines@.len() == ls.len() && forall|i: int|
                0 <= i < ls.len() ==> (#[trigger] t.lines@[i])@ == ls[i]
            &&& paytable_wins(jv(c.settings)) matches Some(ws) && t.wins@.len() == ws.len() && forall|i: int|
                0 <= i < ws.len() ==> (#[trigger] t.wins@[i]).0@ == ws[i].0 && t.wins@[i].1@ == ws[i].1
        },
{
    if c.buy_category.len() < 2 || c.category.len() < 1 {
        return None;
    }
    let bet = match fugaso_bet_counters(&c.settings) {
        Some(b) => b,
        None => return None,
    };
    let lines = match fugaso_lines(&c.settings) {
        Some(l) => l,
        None => return None,
    };
    let wins = match fugaso_wins(&c.settings) {
        Some(w) => w,
        None => return None,
    };
    let (mystery_count, mysteries) = match fugaso_mystery(&c.category[0]) {
        Some(m) => m,
        None => return None,
    };
    let symbol_rows = match fugaso_symbol_rows(&c.category, appearing) {
        Some(s) => s,
        None => return None,
    };
    let g0 = mechanic_tallies(&c.buy_category[0]);
    let g1 = mechanic_tallies(&c.buy_category[1]);
    let i0 = bonus_inits_total(&c.buy_category[0]);
    let i1 = bonus_inits_total(&c.buy_category[1]);
    let buy_mechanics = vec![g0, g1];
    let buy_inits = vec![i0, i1];
    let respin_mechanics = mechanic_tallies(&c.category);
    let base_counts = base_category_counts(&c.category);
    let reels = reel_texts(&c.category);
    Some(
        FugasoTables {
            bet_counters: bet,
            buy_mechanics,
            buy_inits,
            respin_mechanics,
            base_counts,
            mystery_count,
            mysteries,
            reels,
            symbol_rows,
            lines,
            wins,
        },
    )
}


/// A payline is drawn cell by cell: row 0 as `^`, row 1 as `-`, row 2 as `_`, and any
/// other cell as `?`; the drawing has one character per cell.
pub proof fn law_payline_cells(row: Seq<JsonV>, i: int)
    requires
        0 <= i < row.len(),
    ensures
        payline_text(row).len() == row.len(),
        payline_text(row)[i] == '^' <==> row[i] == JsonV::Int(0i64),
        payline_text(row)[i] == '-' <==> row[i] == JsonV::Int(1i64),
        payline_text(row)[i] == '_' <==> row[i] == JsonV::Int(2i64),
        payline_text(row)[i] == '?' <==> !(row[i] == JsonV::Int(0i64) || row[i] == JsonV::Int(1i64) || row[i]
            == JsonV::Int(2i64)),
{
}

} // verus!
