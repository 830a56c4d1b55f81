use vstd::prelude::*;

use crate::json::{
    JsonV, Json, as_flag, as_int, as_list, as_text, at, get, get_array, get_at, get_bool, get_i64,
    get_key, is_text, jv, jv_list, lemma_jv_list, ov,
};

verus! {

/// `out.context` of a transaction.
pub open spec fn context_of(t: JsonV) -> Option<JsonV> {
    get(get(Some(t), "out"@), "context"@)
}

/// `out.context.spins`.
pub open spec fn spins_of(t: JsonV) -> Option<JsonV> {
    get(context_of(t), "spins"@)
}

/// `out.context.bonus`.
pub open spec fn bonus_of(t: JsonV) -> Option<JsonV> {
    get(context_of(t), "bonus"@)
}

/// `in.action.name`.
pub open spec fn action_name(t: JsonV) -> Option<Seq<char>> {
    as_text(get(get(get(Some(t), "in"@), "action"@), "name"@))
}

/// The number of the first `n` values that are integers from `lo` to `hi`.
pub open spec fn count_ints(xs: Seq<JsonV>, lo: i64, hi: i64, n: nat) -> nat
    decreases n,
{
    if n == 0 || n > xs.len() {
        0
    } else {
        count_ints(xs, lo, hi, (n - 1) as nat) + match as_int(Some(xs[n - 1])) {
            Some(v) => if lo <= v <= hi {
                1nat
            } else {
                0nat
            },
            None => 0nat,
        }
    }
}

/// `count_ints` summed over the first `n` values that are arrays; other values add nothing.
pub open spec fn nested_count(cols: Seq<JsonV>, lo: i64, hi: i64, n: nat) -> nat
    decreases n,
{
    if n == 0 || n > cols.len() {
        0
    } else {
        nested_count(cols, lo, hi, (n - 1) as nat) + match as_list(Some(cols[n - 1])) {
            Some(col) => count_ints(col, lo, hi, col.len()),
            None => 0nat,
        }
    }
}

/// The multiplier value under row `r` of column `c` in `spins.bs_values`.
pub open spec fn spin_value_at(t: JsonV, c: int, r: int) -> Option<i64> {
    as_int(at(at(get(spins_of(t), "bs_values"@), c), r))
}

/// Whether column `c` of the spin board shows a multiplier (symbol 12) of value `v`.
pub open spec fn column_has_multi(t: JsonV, col: Seq<JsonV>, c: int, v: i64) -> bool {
    exists|r: int| 0 <= r < col.len() && as_int(Some(col[r])) == Some(12i64) && #[trigger] spin_value_at(t, c, r) == Some(v)
}

/// Whether the spin board shows a multiplier of value `v`.
pub open spec fn board_has_multi(t: JsonV, v: i64) -> bool {
    match as_list(get(spins_of(t), "board"@)) {
        Some(cols) => exists|c: int|
            0 <= c < cols.len() && match as_list(Some(#[trigger] cols[c])) {
                Some(col) => column_has_multi(t, col, c, v),
                None => false,
            },
        None => false,
    }
}

/// Whether some column of the spin board holds two multipliers among the arrays it nests.
pub open spec fn board_has_double_multi(t: JsonV) -> bool {
    match as_list(get(spins_of(t), "board"@)) {
        Some(cols) => exists|c: int|
            0 <= c < cols.len() && match as_list(Some(#[trigger] cols[c])) {
                Some(col) => nested_count(col, 12, 12, col.len()) >= 2,
                None => false,
            },
        None => false,
    }
}

/// The number of the first `n` bonus changes whose `symbol` is the multiplier.
pub open spec fn multi_changes(cs: Seq<JsonV>, n: nat) -> nat
    decreases n,
{
    if n == 0 || n > cs.len() {
        0
    } else {
        multi_changes(cs, (n - 1) as nat) + if as_int(get(Some(cs[n - 1]), "symbol"@)) == Some(12i64) {
            1nat
        } else {
            0nat
        }
    }
}

/// Whether the first `n` bonus changes hold a multiplier object of value `m`, reading
/// them in order; `None` where an object change before the first such one lacks
/// `symbol`, or is a multiplier without `multiplier`.
pub open spec fn multi_change_of(cs: Seq<JsonV>, m: i64, n: nat) -> Option<bool>
    decreases n,
{
    if n == 0 || n > cs.len() {
        Some(false)
    } else {
        match multi_change_of(cs, m, (n - 1) as nat) {
            Some(false) => match cs[n - 1] {
                JsonV::Object(_) => {
                    let sym = get(Some(cs[n - 1]), "symbol"@);
                    let mul = get(Some(cs[n - 1]), "multiplier"@);
                    if sym is None {
                        None
                    } else if as_int(sym) == Some(12i64) {
                        if mul is None {
                            None
                        } else {
                            Some(as_int(mul) == Some(m))
                        }
                    } else {
                        Some(false)
                    }
                },
                _ => Some(false),
            },
            other => other,
        }
    }
}

/// The bonus changes of a transaction, when they are an array.
pub open spec fn changes_of(t: JsonV) -> Option<Seq<JsonV>> {
    as_list(get(bonus_of(t), "changes"@))
}

/// Whether every value is something other than the integer 0.
pub open spec fn none_zero(xs: Seq<JsonV>) -> bool {
    forall|i: int| 0 <= i < xs.len() ==> as_int(Some(#[trigger] xs[i])) != Some(0i64)
}

/// Whether the named filter picks the transaction; `None` where reading it fails.
///
/// The filters, in order: a spin with a back win and a multiplier of value 2, 3 or 5
/// on its board (0 to 2); a spin whose board nests two multipliers in one column (3);
/// two multiplier changes in the bonus (4); a respin whose bonus changes hold a
/// multiplier of value 2, 3 or 5 (5 to 7); a respin with changes whose grand values
/// are all non-zero (8); a bonus that keeps its `original_board` (9).
pub open spec fn filter_eval(k: int, t: JsonV) -> Option<bool> {
    let is_spin = action_name(t) == Some("spin"@);
    let is_respin = action_name(t) == Some("respin"@);
    let bac_win = as_flag(get(spins_of(t), "bac_win"@)) == Some(true);
    if k == 0 {
        Some(board_has_multi(t, 2) && bac_win && is_spin)
    } else if k == 1 {
        Some(board_has_multi(t, 3) && bac_win && is_spin)
    } else if k == 2 {
        Some(board_has_multi(t, 5) && bac_win && is_spin)
    } else if k == 3 {
        Some(board_has_double_multi(t) && is_spin)
    } else if k == 4 {
        Some(
            match changes_of(t) {
                Some(cs) => multi_changes(cs, cs.len()) > 1,
                None => false,
            },
        )
    } else if 5 <= k <= 7 {
        let m: i64 = if k == 5 {
            2
        } else if k == 6 {
            3
        } else {
            5
        };
        match changes_of(t) {
            Some(cs) => match multi_change_of(cs, m, cs.len()) {
                Some(b) => Some(b && is_respin),
                None => None,
            },
            None => Some(false),
        }
    } else if k == 8 {
        Some(
            match as_list(get(bonus_of(t), "grand"@)) {
                Some(g) => none_zero(g),
                None => false,
            } && match changes_of(t) {
                Some(cs) => cs.len() > 0,
                None => false,
            } && is_respin,
        )
    } else {
        Some(get(bonus_of(t), "original_board"@) matches Some(JsonV::Array(_)))
    }
}

/// The transactions that filter `k` picks among the first `n`, in order, up to five;
/// the reading stops at the fifth. `None` where a transaction read fails.
pub open spec fn filter_scan(ts: Seq<Json>, k: int, n: nat) -> Option<Seq<usize>>
    decreases n,
{
    if n == 0 || n > ts.len() {
        Some(Seq::empty())
    } else {
        match filter_scan(ts, k, (n - 1) as nat) {
            Some(found) => if found.len() >= 5 {
                Some(found)
            } else {
                match filter_eval(k, jv(ts[n - 1])) {
                    Some(true) => Some(found.push((n - 1) as usize)),
                    Some(false) => Some(found),
                    None => None,
                }
            },
            None => None,
        }
    }
}

proof fn lemma_filter_scan_stable(ts: Seq<Json>, k: int, i: nat, n: nat)
    requires
        i <= n <= ts.len(),
    ensures
        filter_scan(ts, k, i) is None ==> filter_scan(ts, k, n) is None,
        filter_scan(ts, k, i) matches Some(f) && f.len() >= 5 ==> filter_scan(ts, k, n) == filter_scan(ts, k, i),
        filter_scan(ts, k, n) matches Some(f) ==> f.len() <= 5,
    decreases n,
{
    if n > 0 {
        lemma_filter_scan_stable(ts, k, if i == n { (n - 1) as nat } else { i }, (n - 1) as nat);
        if i < n {
            lemma_filter_scan_stable(ts, k, i, (n - 1) as nat);
        }
    }
}

fn count_ints_exec(xs: &Vec<Json>, lo: i64, hi: i64) -> (r: usize)
    ensures
        r == count_ints(jv_list(xs@), lo, hi, xs@.len()),
{
    proof {
        lemma_jv_list(xs@);
    }
    let ghost v = jv_list(xs@);
    let mut k: usize = 0;
    let mut i: usize = 0;
    while i < xs.len()
        invariant
            v == jv_list(xs@),
            v.len() == xs@.len(),
            forall|j: int| 0 <= j < xs@.len() ==> #[trigger] v[j] == jv(xs@[j]),
            i <= xs.len(),
            k <= i,
            k == count_ints(v, lo, hi, i as nat),
        decreases xs.len() - i,
    {
        assert(v[i as int] == jv(xs@[i as int]));
        match get_i64(Some(&xs[i])) {
            Some(x) => {
                if lo <= x && x <= hi {
                    k = k + 1;
                }
            },
            None => {},
        }
        i = i + 1;
    }
    k
}

/// `nested_count` of the values, held at `cap` once it passes it.
fn nested_count_capped(cols: &Vec<Json>, lo: i64, hi: i64, cap: usize) -> (r: usize)
    ensures
        r == if nested_count(jv_list(cols@), lo, hi, cols@.len()) <= cap {
            nested_count(jv_list(cols@), lo, hi, cols@.len())
        } else {
            cap as nat
        },
{
    proof {
        lemma_jv_list(cols@);
    }
    let ghost v = jv_list(cols@);
    let mut total: usize = 0;
    let mut i: usize = 0;
    while i < cols.len()
        invariant
            v == jv_list(cols@),
            v.len() == cols@.len(),
            forall|j: int| 0 <= j < cols@.len() ==> #[trigger] v[j] == jv(cols@[j]),
            i <= cols.len(),
            total == if nested_count(v, lo, hi, i as nat) <= cap {
                nested_count(v, lo, hi, i as nat)
            } else {
                cap as nat
            },
        decreases cols.len() - i,
    {
        assert(v[i as int] == jv(cols@[i as int]));
        let ghost before = nested_count(v, lo, hi, i as nat);
        assert(nested_count(v, lo, hi, (i + 1) as nat) == before + match as_list(Some(v[i as int])) {
            Some(col) => count_ints(col, lo, hi, col.len()),
            None => 0nat,
        });
        match get_array(Some(&cols[i])) {
            Some(col) => {
                assert(as_list(Some(v[i as int])) == Some(jv_list(col@)));
                proof {
                    lemma_jv_list(col@);
                }
                let c = count_ints_exec(col, lo, hi);
                if c > cap - total {
                    total = cap;
                } else {
                    total = total + c;
                }
            },
            None => {},
        }
        i = i + 1;
    }
    total
}

/// The spin multiplier value under row `r` of column `c`.
fn spin_value_at_exec(t: &Json, c: usize, r: usize) -> (x: Option<i64>)
    ensures
        x == spin_value_at(jv(*t), c as int, r as int),
{
    let spins = get_key(get_key(get_key(Some(t), "out"), "context"), "spins");
    get_i64(get_at(get_at(get_key(spins, "bs_values"), c), r))
}

fn board_has_multi_exec(t: &Json, value: i64) -> (r: bool)
    ensures
        r == board_has_multi(jv(*t), value),
{
    let ghost jt = jv(*t);
    let spins = get_key(get_key(get_key(Some(t), "out"), "context"), "spins");
    let board = match get_array(get_key(spins, "board")) {
        Some(b) => b,
        None => {
            return false;
        },
    };
    proof {
        lemma_jv_list(board@);
    }
    let ghost cols = jv_list(board@);
    let mut c: usize = 0;
    while c < board.len()
        invariant
            jt == jv(*t),
            as_list(get(spins_of(jt), "board"@)) == Some(cols),
            cols == jv_list(board@),
            cols.len() == board@.len(),
            forall|j: int| 0 <= j < board@.len() ==> #[trigger] cols[j] == jv(board@[j]),
            c <= board.len(),
            forall|j: int| 0 <= j < c ==> !(match as_list(Some(#[trigger] cols[j])) {
                Some(col) => column_has_multi(jt, col, j, value),
                None => false,
            }),
        decreases board.len() - c,
    {
        assert(cols[c as int] == jv(board@[c as int]));
        match get_array(Some(&board[c])) {
            Some(col) => {
                proof {
                    lemma_jv_list(col@);
                }
                let ghost cv = jv_list(col@);
                assert(as_list(Some(cols[c as int])) == Some(cv));
                let mut r: usize = 0;
                while r < col.len()
                    invariant
                        jt == jv(*t),
                        as_list(get(spins_of(jt), "board"@)) == Some(cols),
                        0 <= c < cols.len(),
                        as_list(Some(cols[c as int])) == Some(cv),
                        cv == jv_list(col@),
                        cv.len() == col@.len(),
                        forall|j: int| 0 <= j < col@.len() ==> #[trigger] cv[j] == jv(col@[j]),
                        r <= col.len(),
                        forall|j: int| 0 <= j < r ==> !(as_int(Some(cv[j])) == Some(12i64) && #[trigger] spin_value_at(jt, c as int, j) == Some(value)),
                    decreases col.len() - r,
                {
                    assert(cv[r as int] == jv(col@[r as int]));
                    if get_i64(Some(&col[r])) == Some(12i64) && spin_value_at_exec(t, c, r) == Some(value) {
                        assert(column_has_multi(jt, cv, c as int, value)) by {
                            assert(spin_value_at(jt, c as int, r as int) == Some(value));
                        }
                        return true;
                    }
                    r = r + 1;
                }
                assert(!column_has_multi(jt, cv, c as int, value));
            },
            None => {},
        }
        c = c + 1;
    }
    false
}

fn board_has_double_multi_exec(t: &Json) -> (r: bool)
    ensures
        r == board_has_double_multi(jv(*t)),
{
    let ghost jt = jv(*t);
    let spins = get_key(get_key(get_key(Some(t), "out"), "context"), "spins");
    let board = match get_array(get_key(spins, "board")) {
        Some(b) => b,
        None => {
            return false;
        },
    };
    proof {
        lemma_jv_list(board@);
    }
    let ghost cols = jv_list(board@);
    let mut c: usize = 0;
    while c < board.len()
        invariant
            jt == jv(*t),
            as_list(get(spins_of(jt), "board"@)) == Some(cols),
            cols == jv_list(board@),
            cols.len() == board@.len(),
            forall|j: int| 0 <= j < board@.len() ==> #[trigger] cols[j] == jv(board@[j]),
            c <= board.len(),
            forall|j: int| 0 <= j < c ==> !(match as_list(Some(#[trigger] cols[j])) {
                Some(col) => nested_count(col, 12, 12, col.len()) >= 2,
                None => false,
            }),
        decreases board.len() - c,
    {
        assert(cols[c as int] == jv(board@[c as int]));
        match get_array(Some(&board[c])) {
            Some(col) => {
                assert(as_list(Some(cols[c as int])) == Some(jv_list(col@)));
                proof {
                    lemma_jv_list(col@);
                }
                if nested_count_capped(col, 12, 12, 2) >= 2 {
                    return true;
                }
            },
            None => {},
        }
        c = c + 1;
    }
    false
}

/// Whether more than one bonus change is a multiplier.
fn double_multi_changes_exec(cs: &Vec<Json>) -> (r: bool)
    ensures
        r == (multi_changes(jv_list(cs@), cs@.len()) > 1),
{
    proof {
        lemma_jv_list(cs@);
    }
    let ghost v = jv_list(cs@);
    let mut k: usize = 0;
    let mut i: usize = 0;
    while i < cs.len()
        invariant
            v == jv_list(cs@),
            v.len() == cs@.len(),
            forall|j: int| 0 <= j < cs@.len() ==> #[trigger] v[j] == jv(cs@[j]),
            i <= cs.len(),
            k == multi_changes(v, i as nat),
            k <= 1,
        decreases cs.len() - i,
    {
        assert(v[i as int] == jv(cs@[i as int]));
        if get_i64(get_key(Some(&cs[i]), "symbol")) == Some(12i64) {
            if k == 1 {
                assert(multi_changes(v, (i + 1) as nat) == 2);
                proof {
                    lemma_multi_changes_mono(v, (i + 1) as nat, cs@.len() as nat);
                }
                return true;
            }
            k = k + 1;
        }
        i = i + 1;
    }
    false
}

proof fn lemma_multi_changes_mono(cs: Seq<JsonV>, i: nat, n: nat)
    requires
        i <= n <= cs.len(),
    ensures
        multi_changes(cs, i) <= multi_changes(cs, n),
    decreases n,
{
    if i < n {
        lemma_multi_changes_mono(cs, i, (n - 1) as nat);
    }
}

fn multi_change_of_exec(cs: &Vec<Json>, m: i64) -> (r: Option<bool>)
    ensures
        r == multi_change_of(jv_list(cs@), m, cs@.len()),
{
    proof {
        lemma_jv_list(cs@);
    }
    let ghost v = jv_list(cs@);
    let mut i: usize = 0;
    while i < cs.len()
        invariant
            v == jv_list(cs@),
            v.len() == cs@.len(),
            forall|j: int| 0 <= j < cs@.len() ==> #[trigger] v[j] == jv(cs@[j]),
            i <= cs.len(),
            multi_change_of(v, m, i as nat) == Some(false),
        decreases cs.len() - i,
    {
        assert(v[i as int] == jv(cs@[i as int]));
        let ghost before = i as nat;
        match &cs[i] {
            Json::Object(_) => {
                let sym = get_key(Some(&cs[i]), "symbol");
                if sym.is_none() {
                    proof {
                        lemma_multi_change_settled(v, m, (i + 1) as nat, cs@.len() as nat);
                    }
                    return None;
                }
                if get_i64(sym) == Some(12i64) {
                    let mul = get_key(Some(&cs[i]), "multiplier");
                    if mul.is_none() {
                        proof {
                            lemma_multi_change_settled(v, m, (i + 1) as nat, cs@.len() as nat);
                        }
                        return None;
                    }
                    if get_i64(mul) == Some(m) {
                        proof {
                            lemma_multi_change_settled(v, m, (i + 1) as nat, cs@.len() as nat);
                        }
                        return Some(true);
                    }
                }
            },
            _ => {},
        }
        i = i + 1;
    }
    Some(false)
}

proof fn lemma_multi_change_settled(cs: Seq<JsonV>, m: i64, i: nat, n: nat)
    requires
        i <= n <= cs.len(),
        multi_change_of(cs, m, i) != Some(false),
    ensures
        multi_change_of(cs, m, n) == multi_change_of(cs, m, i),
    decreases n,
{
    if i < n {
        lemma_multi_change_settled(cs, m, i, (n - 1) as nat);
    }
}

fn none_zero_exec(xs: &Vec<Json>) -> (r: bool)
    ensures
        r == none_zero(jv_list(xs@)),
{
    proof {
        lemma_jv_list(xs@);
    }
    let ghost v = jv_list(xs@);
    let mut i: usize = 0;
    while i < xs.len()
        invariant
            v == jv_list(xs@),
            v.len() == xs@.len(),
            forall|j: int| 0 <= j < xs@.len() ==> #[trigger] v[j] == jv(xs@[j]),
            i <= xs.len(),
            forall|j: int| 0 <= j < i ==> as_int(Some(#[trigger] v[j])) != Some(0i64),
        decreases xs.len() - i,
    {
        assert(v[i as int] == jv(xs@[i as int]));
        if get_i64(Some(&xs[i])) == Some(0i64) {
            return false;
        }
        i = i + 1;
    }
    true
}

/// Reads filter `k` on one transaction.
fn eval_filter(k: usize, t: &Json) -> (r: Option<bool>)
    ensures
        r == filter_eval(k as int, jv(*t)),
{
    let action = get_key(get_key(get_key(Some(t), "in"), "action"), "name");
    let is_spin = is_text(action, "spin");
    let is_respin = is_text(action, "respin");
    let context = get_key(get_key(Some(t), "out"), "context");
    let spins = get_key(context, "spins");
    let bonus = get_key(context, "bonus");
    let bac_win = get_bool(get_key(spins, "bac_win")) == Some(true);
    let changes = get_array(get_key(bonus, "changes"));
    proof {
        match changes {
            Some(cs) => lemma_jv_list(cs@),
            None => {},
        }
    }
    if k == 0 {
        Some(board_has_multi_exec(t, 2) && bac_win && is_spin)
    } else if k == 1 {
        Some(board_has_multi_exec(t, 3) && bac_win && is_spin)
    } else if k == 2 {
        Some(board_has_multi_exec(t, 5) && bac_win && is_spin)
    } else if k == 3 {
        Some(board_has_double_multi_exec(t) && is_spin)
    } else if k == 4 {
        Some(
            match changes {
                Some(cs) => double_multi_changes_exec(cs),
                None => false,
            },
        )
    } else if 5 <= k && k <= 7 {
        let m: i64 = if k == 5 {
            2
        } else if k == 6 {
            3
        } else {
            5
        };
        match changes {
            Some(cs) => match multi_change_of_exec(cs, m) {
                Some(b) => Some(b && is_respin),
                None => None,
            },
            None => Some(false),
        }
    } else if k == 8 {
        let grand = match get_array(get_key(bonus, "grand")) {
            Some(g) => {
                proof {
                    lemma_jv_list(g@);
                }
                none_zero_exec(g)
            },
            None => false,
        };
        let has_changes = match changes {
            Some(cs) => cs.len() > 0,
            None => false,
        };
        Some(grand && has_changes && is_respin)
    } else {
        Some(get_array(get_key(bonus, "original_board")).is_some())
    }
}

/// The transactions that filter `k` picks, in order, up to five.
fn scan_filter(ts: &Vec<Json>, k: usize) -> (r: Vec<usize>)
    requires
        filter_scan(ts@, k as int, ts@.len()) is Some,
    ensures
        Some(r@) == filter_scan(ts@, k as int, ts@.len()),
{
    let mut found: Vec<usize> = Vec::new();
    let mut i: usize = 0;
    proof {
        lemma_filter_scan_stable(ts@, k as int, 0, ts@.len());
    }
    while i < ts.len() && found.len() < 5
        invariant
            i <= ts.len(),
            filter_scan(ts@, k as int, ts@.len()) is Some,
            filter_scan(ts@, k as int, i as nat) == Some(found@),
        decreases ts.len() - i,
    {
        proof {
            lemma_filter_scan_stable(ts@, k as int, (i + 1) as nat, ts@.len());
        }
        match eval_filter(k, &ts[i]) {
            Some(true) => {
                found.push(i);
            },
            Some(false) => {},
            None => {
                assert(filter_scan(ts@, k as int, (i + 1) as nat) is None);
            },
        }
        i = i + 1;
    }
    proof {
        lemma_filter_scan_stable(ts@, k as int, i as nat, ts@.len());
    }
    found
}

/// The specials (symbols 10 to 12) on a board of the spin, `absent` when it has none.
pub open spec fn specials_on(t: JsonV, key: Seq<char>, absent: nat) -> nat {
    match as_list(get(spins_of(t), key)) {
        Some(b) => nested_count(b, 10, 12, b.len()),
        None => absent,
    }
}

/// Over the first `n` transactions, up to the fifth spin that shows more than five
/// specials on its board and fewer than two on its `original_board`: those spins; and,
/// among back wins, the fewest and the most specials on the `original_board` and the most
/// on the board, each with the first transaction that set it.
pub open spec fn overlay_scan(ts: Seq<Json>, n: nat) -> (
    Seq<usize>,
    nat,
    Option<usize>,
    nat,
    Option<usize>,
    nat,
    Option<usize>,
)
    decreases n,
{
    if n == 0 || n > ts.len() {
        (Seq::empty(), 15, None, 0, None, 0, None)
    } else {
        let p = overlay_scan(ts, (n - 1) as nat);
        if p.0.len() >= 5 {
            p
        } else {
            let t = jv(ts[n - 1]);
            let i = (n - 1) as usize;
            let ex = specials_on(t, "original_board"@, 15);
            let ov = specials_on(t, "board"@, 0);
            let bac = as_flag(get(spins_of(t), "bac_win"@)) == Some(true);
            let less = ex < 2 && ov > 5 && action_name(t) == Some("spin"@);
            (
                if less {
                    p.0.push(i)
                } else {
                    p.0
                },
                if bac && p.1 > ex {
                    ex
                } else {
                    p.1
                },
                if bac && p.1 > ex {
                    Some(i)
                } else {
                    p.2
                },
                if bac && p.3 < ex {
                    ex
                } else {
                    p.3
                },
                if bac && p.3 < ex {
                    Some(i)
                } else {
                    p.4
                },
                if bac && p.5 < ov {
                    ov
                } else {
                    p.5
                },
                if bac && p.5 < ov {
                    Some(i)
                } else {
                    p.6
                },
            )
        }
    }
}

proof fn lemma_overlay_scan_stable(ts: Seq<Json>, i: nat, n: nat)
    requires
        i <= n <= ts.len(),
        overlay_scan(ts, i).0.len() >= 5,
    ensures
        overlay_scan(ts, n) == overlay_scan(ts, i),
    decreases n,
{
    if i < n {
        lemma_overlay_scan_stable(ts, i, (n - 1) as nat);
    }
}

/// The spins whose specials were mostly overlaid, and the extremes of the specials.
pub struct SpinOverlay {
    pub less: Vec<usize>,
    pub exists_min: usize,
    pub exists_min_at: Option<usize>,
    pub exists_max: usize,
    pub exists_max_at: Option<usize>,
    pub overlay_max: usize,
    pub overlay_max_at: Option<usize>,
}

/// Whether the special counts of a transaction fit a `usize`.
pub open spec fn specials_fit(t: JsonV) -> bool {
    specials_on(t, "board"@, 0) <= usize::MAX && specials_on(t, "original_board"@, 15) <= usize::MAX
}

fn specials_on_exec(t: &Json, key: &str, absent: usize) -> (r: usize)
    requires
        specials_on(jv(*t), key@, absent as nat) <= usize::MAX,
    ensures
        r == specials_on(jv(*t), key@, absent as nat),
{
    let spins = get_key(get_key(get_key(Some(t), "out"), "context"), "spins");
    match get_array(get_key(spins, key)) {
        Some(b) => {
            proof {
                lemma_jv_list(b@);
            }
            nested_count_capped(b, 10, 12, usize::MAX)
        },
        None => absent,
    }
}

fn scan_overlay(ts: &Vec<Json>) -> (r: SpinOverlay)
    requires
        forall|i: int| 0 <= i < ts@.len() ==> specials_fit(#[trigger] jv(ts@[i])),
    ensures
        ({
            let st = overlay_scan(ts@, ts@.len());
            &&& r.less@ == st.0
            &&& r.exists_min == st.1
            &&& r.exists_min_at == st.2
            &&& r.exists_max == st.3
            &&& r.exists_max_at == st.4
            &&& r.overlay_max == st.5
            &&& r.overlay_max_at == st.6
        }),
{
    let mut r = SpinOverlay {
        less: Vec::new(),
        exists_min: 15,
        exists_min_at: None,
        exists_max: 0,
        exists_max_at: None,
        overlay_max: 0,
        overlay_max_at: None,
    };
    let mut i: usize = 0;
    while i < ts.len() && r.less.len() < 5
        invariant
            i <= ts.len(),
            forall|i: int| 0 <= i < ts@.len() ==> specials_fit(#[trigger] jv(ts@[i])),
            ({
                let st = overlay_scan(ts@, i as nat);
                &&& r.less@ == st.0
                &&& r.exists_min == st.1
                &&& r.exists_min_at == st.2
                &&& r.exists_max == st.3
                &&& r.exists_max_at == st.4
                &&& r.overlay_max == st.5
                &&& r.overlay_max_at == st.6
            }),
        decreases ts.len() - i,
    {
        let t = &ts[i];
        assert(specials_fit(jv(ts@[i as int])));
        let ex = specials_on_exec(t, "original_board", 15);
        let ov = specials_on_exec(t, "board", 0);
        let spins = get_key(get_key(get_key(Some(t), "out"), "context"), "spins");
        let bac = get_bool(get_key(spins, "bac_win")) == Some(true);
        let is_spin = is_text(get_key(get_key(get_key(Some(t), "in"), "action"), "name"), "spin");
        if bac {
            if r.exists_min > ex {
                r.exists_min = ex;
                r.exists_min_at = Some(i);
            }
            if r.exists_max < ex {
                r.exists_max = ex;
                r.exists_max_at = Some(i);
            }
            if r.overlay_max < ov {
                r.overlay_max = ov;
                r.overlay_max_at = Some(i);
            }
        }
        if ex < 2 && ov > 5 && is_spin {
            r.less.push(i);
        }
        i = i + 1;
    }
    if i < ts.len() {
        proof {
            lemma_overlay_scan_stable(ts@, i as nat, ts@.len());
        }
    }
    r
}

/// The transactions picked by each filter of `filter_eval`, in its order, and the spin
/// overlay statistics.
pub struct FilteredTransactions {
    pub picked: Vec<Vec<usize>>,
    pub overlay: SpinOverlay,
}

/// Runs every filter over the transactions: each keeps the first five transactions it
/// picks, in order, and the overlay scan gives its statistics.
pub fn extract_by_filter(transactions: &Vec<Json>) -> (r: FilteredTransactions)
    requires
        forall|k: int| 5 <= k <= 7 ==> #[trigger] filter_scan(transactions@, k, transactions@.len()) is Some,
        forall|i: int| 0 <= i < transactions@.len() ==> specials_fit(#[trigger] jv(transactions@[i])),
    ensures
        r.picked@.len() == 10,
        forall|k: int| 0 <= k < 10 ==> Some(#[trigger] r.picked@[k]@) == filter_scan(transactions@, k, transactions@.len()),
        ({
            let st = overlay_scan(transactions@, transactions@.len());
            &&& r.overlay.less@ == st.0
            &&& r.overlay.exists_min == st.1
            &&& r.overlay.exists_min_at == st.2
            &&& r.overlay.exists_max == st.3
            &&& r.overlay.exists_max_at == st.4
            &&& r.overlay.overlay_max == st.5
            &&& r.overlay.overlay_max_at == st.6
        }),
{
    let mut picked: Vec<Vec<usize>> = Vec::new();
    let mut k: usize = 0;
    while k < 10
        invariant
            k <= 10,
            picked@.len() == k,
            forall|k: int| 5 <= k <= 7 ==> #[trigger] filter_scan(transactions@, k, transactions@.len()) is Some,
            forall|j: int| 0 <= j < k ==> Some(#[trigger] picked@[j]@) == filter_scan(transactions@, j, transactions@.len()),
        decreases 10 - k,
    {
        proof {
            if !(5 <= k <= 7) {
                lemma_filter_scan_total(transactions@, k as int, transactions@.len());
            }
        }
        picked.push(scan_filter(transactions, k));
        k = k + 1;
    }
    FilteredTransactions { picked, overlay: scan_overlay(transactions) }
}

proof fn lemma_filter_scan_total(ts: Seq<Json>, k: int, n: nat)
    requires
        !(5 <= k <= 7),
    ensures
        filter_scan(ts, k, n) is Some,
    decreases n,
{
    if n > 0 {
        lemma_filter_scan_total(ts, k, (n - 1) as nat);
    }
}

/// Whether the cell at row `r` of column `c` carries the coin value `x`: its
/// `bs_values` entry is a non-zero integer `v`, and the board shows anything but the
/// multiplier there (a missing board cell reads as the multiplier); the value kept is `v`
/// cut to 32 bits.
pub open spec fn coin_at(bs: Seq<JsonV>, brd: Seq<JsonV>, c: int, r: int, x: i32) -> bool {
    &&& 0 <= c < bs.len()
    &&& c < brd.len()
    &&& as_list(Some(bs[c])) matches Some(bs_col)
    &&& as_list(Some(brd[c])) is Some
    &&& 0 <= r < bs_col.len()
    &&& as_int(Some(bs_col[r])) matches Some(v)
    &&& v != 0
    &&& match as_int(at(Some(brd[c]), r)) {
        Some(b) => b != 12,
        None => false,
    }
    &&& x == v as i32
}

/// Whether `x` is a coin value of the pair of `bs_values` and board.
pub open spec fn coin_value_of(bs_values: Option<JsonV>, board: Option<JsonV>, x: i32) -> bool {
    match (as_list(bs_values), as_list(board)) {
        (Some(bs), Some(brd)) => exists|c: int, r: int| #[trigger] coin_at(bs, brd, c, r, x),
        _ => false,
    }
}

/// Whether `x` is a coin value of a transaction: of its spins, or of its bonus, whose
/// values lie on the bonus board when there is one and on the spin board otherwise.
pub open spec fn transaction_coin(t: JsonV, x: i32) -> bool {
    let spins = spins_of(t);
    let bonus = bonus_of(t);
    let bonus_board = if get(bonus, "board"@) matches Some(JsonV::Array(_)) {
        get(bonus, "board"@)
    } else {
        get(spins, "board"@)
    };
    coin_value_of(get(spins, "bs_values"@), get(spins, "board"@), x)
        || coin_value_of(get(bonus, "bs_values"@), bonus_board, x)
}

/// Whether the values rise strictly.
pub open spec fn strictly_ascending(v: Seq<i32>) -> bool {
    forall|i: int, j: int| 0 <= i < j < v.len() ==> #[trigger] v[i] < #[trigger] v[j]
}

fn insert_value(out: &mut Vec<i32>, x: i32)
    requires
        strictly_ascending(old(out)@),
    ensures
        strictly_ascending(final(out)@),
        forall|y: i32| #[trigger] final(out)@.contains(y) <==> (old(out)@.contains(y) || y == x),
{
    let mut p: usize = 0;
    while p < out.len() && out[p] < x
        invariant
            p <= out.len(),
            forall|q: int| 0 <= q < p ==> #[trigger] out@[q] < x,
        decreases out.len() - p,
    {
        p = p + 1;
    }
    if p < out.len() && out[p] == x {
        return;
    }
    let ghost before = out@;
    out.insert(p, x);
    assert forall|y: i32| #[trigger] out@.contains(y) <==> (before.contains(y) || y == x) by {
        if out@.contains(y) {
            let i = choose|i: int| 0 <= i < out@.len() && out@[i] == y;
            if i < p {
                assert(before[i] == y);
            } else if i > p {
                assert(before[i - 1] == y);
            }
        }
        if before.contains(y) {
            let i = choose|i: int| 0 <= i < before.len() && before[i] == y;
            if i < p {
                assert(out@[i] == y);
            } else {
                assert(out@[i + 1] == y);
            }
        }
        if y == x {
            assert(out@[p as int] == y);
        }
    }
}

/// Adds to `out` the coin values of a pair of `bs_values` and board.
pub fn collect_coin_values_from(bs_values: Option<&Json>, board: Option<&Json>, out: &mut Vec<i32>)
    requires
        strictly_ascending(old(out)@),
    ensures
        strictly_ascending(final(out)@),
        forall|y: i32|
            #[trigger] final(out)@.contains(y) <==> (old(out)@.contains(y) || coin_value_of(ov(bs_values), ov(board), y)),
{
    let bs_cols = match get_array(bs_values) {
        Some(v) => v,
        None => {
            return;
        },
    };
    let brd_cols = match get_array(board) {
        Some(v) => v,
        None => {
            return;
        },
    };
    proof {
        lemma_jv_list(bs_cols@);
        lemma_jv_list(brd_cols@);
    }
    let ghost bs = jv_list(bs_cols@);
    let ghost brd = jv_list(brd_cols@);
    let ghost start = out@;
    let mut c: usize = 0;
    while c < bs_cols.len()
        invariant
            bs == jv_list(bs_cols@),
            brd == jv_list(brd_cols@),
            as_list(ov(bs_values)) == Some(bs),
            as_list(ov(board)) == Some(brd),
            bs.len() == bs_cols@.len(),
            brd.len() == brd_cols@.len(),
            forall|j: int| 0 <= j < bs_cols@.len() ==> #[trigger] bs[j] == jv(bs_cols@[j]),
            forall|j: int| 0 <= j < brd_cols@.len() ==> #[trigger] brd[j] == jv(brd_cols@[j]),
            c <= bs_cols.len(),
            strictly_ascending(out@),
            forall|y: i32|
                #[trigger] out@.contains(y) <==> (start.contains(y) || exists|c2: int, r: int|
                    c2 < c && #[trigger] coin_at(bs, brd, c2, r, y)),
        decreases bs_cols.len() - c,
    {
        assert(bs[c as int] == jv(bs_cols@[c as int]));
        let ghost before = out@;
        if c < brd_cols.len() {
            assert(brd[c as int] == jv(brd_cols@[c as int]));
            match (get_array(Some(&bs_cols[c])), get_array(Some(&brd_cols[c]))) {
                (Some(bs_col), Some(brd_col)) => {
                    proof {
                        lemma_jv_list(bs_col@);
                    }
                    let ghost bc = jv_list(bs_col@);
                    let mut r: usize = 0;
                    while r < bs_col.len()
                        invariant
                            bs == jv_list(bs_cols@),
                            brd == jv_list(brd_cols@),
                            0 <= c < bs.len(),
                            c < brd.len(),
                            bs.len() == bs_cols@.len(),
                            brd.len() == brd_cols@.len(),
                            as_list(Some(bs[c as int])) == Some(bc),
                            as_list(Some(brd[c as int])) == Some(jv_list(brd_col@)),
                            brd[c as int] == jv(brd_cols@[c as int]),
                            bc == jv_list(bs_col@),
                            bc.len() == bs_col@.len(),
                            forall|j: int| 0 <= j < bs_col@.len() ==> #[trigger] bc[j] == jv(bs_col@[j]),
                            r <= bs_col.len(),
                            strictly_ascending(out@),
                            forall|y: i32|
                                #[trigger] out@.contains(y) <==> (before.contains(y) || exists|r2: int|
                                    r2 < r && #[trigger] coin_at(bs, brd, c as int, r2, y)),
                        decreases bs_col.len() - r,
                    {
                        assert(bc[r as int] == jv(bs_col@[r as int]));
                        let ghost prev = out@;
                        match get_i64(Some(&bs_col[r])) {
                            Some(v) => {
                                if v != 0 {
                                    let b = match get_i64(get_at(Some(&brd_cols[c]), r)) {
                                        Some(b) => b,
                                        None => 12,
                                    };
                                    if b != 12 {
                                        insert_value(out, v as i32);
                                        assert(coin_at(bs, brd, c as int, r as int, v as i32));
                                    }
                                }
                            },
                            None => {},
                        }
                        assert forall|y: i32|
                            #[trigger] out@.contains(y) <==> (before.contains(y) || exists|r2: int|
                                r2 < r + 1 && #[trigger] coin_at(bs, brd, c as int, r2, y)) by {
                            if exists|r2: int| r2 < r + 1 && #[trigger] coin_at(bs, brd, c as int, r2, y) {
                                let r2 = choose|r2: int| r2 < r + 1 && #[trigger] coin_at(bs, brd, c as int, r2, y);
                                if r2 < r {
                                    assert(prev.contains(y));
                                }
                            }
                            if prev.contains(y) && !before.contains(y) {
                                let r2 = choose|r2: int| r2 < r && #[trigger] coin_at(bs, brd, c as int, r2, y);
                                assert(r2 < r + 1 && coin_at(bs, brd, c as int, r2, y));
                            }
                        }
                        r = r + 1;
                    }
                    assert forall|y: i32| (exists|r2: int| #[trigger] coin_at(bs, brd, c as int, r2, y)) implies
                        out@.contains(y) by {
                        let r2 = choose|r2: int| #[trigger] coin_at(bs, brd, c as int, r2, y);
                        assert(r2 < bs_col.len());
                    }
                },
                _ => {},
            }
        }
        assert forall|y: i32|
            #[trigger] out@.contains(y) <==> (start.contains(y) || exists|c2: int, r: int|
                c2 < c + 1 && #[trigger] coin_at(bs, brd, c2, r, y)) by {
            if exists|c2: int, r: int| c2 < c + 1 && #[trigger] coin_at(bs, brd, c2, r, y) {
                let (c2, r2) = choose|c2: int, r: int| c2 < c + 1 && #[trigger] coin_at(bs, brd, c2, r, y);
                if c2 < c {
                    assert(before.contains(y));
                } else {
                    assert(coin_at(bs, brd, c as int, r2, y));
                }
            }
            if before.contains(y) && !start.contains(y) {
                let (c2, r2) = choose|c2: int, r: int| c2 < c && #[trigger] coin_at(bs, brd, c2, r, y);
                assert(c2 < c + 1 && coin_at(bs, brd, c2, r2, y));
            }
        }
        c = c + 1;
    }
    assert forall|y: i32| #[trigger] out@.contains(y) <==> (start.contains(y) || coin_value_of(ov(bs_values), ov(board), y)) by {
        if coin_value_of(ov(bs_values), ov(board), y) {
            let (c2, r2) = choose|c2: int, r: int| #[trigger] coin_at(bs, brd, c2, r, y);
            assert(c2 < c && coin_at(bs, brd, c2, r2, y));
        }
        if out@.contains(y) && !start.contains(y) {
            let (c2, r2) = choose|c2: int, r: int| c2 < c && #[trigger] coin_at(bs, brd, c2, r, y);
            assert(coin_at(bs, brd, c2, r2, y));
        }
    }
}

/// The coin values of all transactions, each once, in ascending order.
pub fn extract_coin_values(transactions: &Vec<Json>) -> (r: Vec<i32>)
    ensures
        strictly_ascending(r@),
        forall|y: i32|
            #[trigger] r@.contains(y) <==> exists|i: int|
                0 <= i < transactions@.len() && transaction_coin(jv(#[trigger] transactions@[i]), y),
{
    let mut out: Vec<i32> = Vec::new();
    let mut i: usize = 0;
    while i < transactions.len()
        invariant
            i <= transactions.len(),
            strictly_ascending(out@),
            forall|y: i32|
                #[trigger] out@.contains(y) <==> exists|j: int|
                    0 <= j < i && transaction_coin(jv(#[trigger] transactions@[j]), y),
        decreases transactions.len() - i,
    {
        let t = &transactions[i];
        let ghost before = out@;
        let context = get_key(get_key(Some(t), "out"), "context");
        let spins = get_key(context, "spins");
        let bonus = get_key(context, "bonus");
        let spins_board = get_key(spins, "board");
        collect_coin_values_from(get_key(spins, "bs_values"), spins_board, &mut out);
        let bonus_board = get_key(bonus, "board");
        if get_array(bonus_board).is_some() {
            collect_coin_values_from(get_key(bonus, "bs_values"), bonus_board, &mut out);
        } else {
            collect_coin_values_from(get_key(bonus, "bs_values"), spins_board, &mut out);
        }
        assert forall|y: i32|
            #[trigger] out@.contains(y) <==> exists|j: int|
                0 <= j < i + 1 && transaction_coin(jv(#[trigger] transactions@[j]), y) by {
            if transaction_coin(jv(transactions@[i as int]), y) {
                assert(0 <= i < i + 1);
            }
            if before.contains(y) {
                let j = choose|j: int| 0 <= j < i && transaction_coin(jv(#[trigger] transactions@[j]), y);
                assert(0 <= j < i + 1);
            }
            if exists|j: int| 0 <= j < i + 1 && transaction_coin(jv(#[trigger] transactions@[j]), y) {
                let j = choose|j: int| 0 <= j < i + 1 && transaction_coin(jv(#[trigger] transactions@[j]), y);
                if j < i {
                    assert(before.contains(y));
                }
            }
        }
        i = i + 1;
    }
    out
}

/// A filter keeps at most five transactions, in increasing order, each one it picks;
/// fewer than five only when it read all of them.
pub proof fn law_filter_picks(ts: Seq<Json>, k: int, n: nat)
    requires
        n <= ts.len() <= usize::MAX,
    ensures
        filter_scan(ts, k, n) matches Some(f) ==> {
            &&& f.len() <= 5
            &&& forall|i: int, j: int| 0 <= i < j < f.len() ==> #[trigger] f[i] < #[trigger] f[j]
            &&& forall|i: int| 0 <= i < f.len() ==> #[trigger] f[i] < n && filter_eval(k, jv(ts[f[i] as int])) == Some(true)
        },
    decreases n,
{
    if n > 0 {
        law_filter_picks(ts, k, (n - 1) as nat);
        match filter_scan(ts, k, (n - 1) as nat) {
            Some(f) => {
                if f.len() < 5 {
                    if filter_eval(k, jv(ts[n - 1])) == Some(true) {
                        let g = f.push((n - 1) as usize);
                        assert forall|i: int| 0 <= i < g.len() implies #[trigger] g[i] < n && filter_eval(k, jv(ts[g[i] as int])) == Some(true) by {
                            if i < f.len() {
                                assert(g[i] == f[i]);
                            }
                        }
                        assert forall|i: int, j: int| 0 <= i < j < g.len() implies #[trigger] g[i] < #[trigger] g[j] by {
                            if j < f.len() {
                                assert(g[i] == f[i] && g[j] == f[j]);
                            } else {
                                assert(g[i] == f[i]);
                            }
                        }
                    }
                }
            },
            None => {},
        }
    }
}

/// Whether filter `k` reads every transaction it reaches (`filter_scan` is `Some`).
fn filter_readable(ts: &Vec<Json>, k: usize) -> (r: bool)
    ensures
        r == (filter_scan(ts@, k as int, ts@.len()) is Some),
{
    let mut found: usize = 0;
    let mut i: usize = 0;
    proof {
        lemma_filter_scan_stable(ts@, k as int, 0, ts@.len());
    }
    while i < ts.len() && found < 5
        invariant
            i <= ts.len(),
            filter_scan(ts@, k as int, i as nat) matches Some(f) && f.len() == found,
        decreases ts.len() - i,
    {
        proof {
            lemma_filter_scan_stable(ts@, k as int, (i + 1) as nat, ts@.len());
        }
        match eval_filter(k, &ts[i]) {
            Some(true) => {
                found = found + 1;
            },
            Some(false) => {},
            None => {
                assert(filter_scan(ts@, k as int, (i + 1) as nat) is None);
                proof {
                    lemma_filter_scan_stable(ts@, k as int, (i + 1) as nat, ts@.len());
                }
                return false;
            },
        }
        i = i + 1;
    }
    proof {
        lemma_filter_scan_stable(ts@, k as int, i as nat, ts@.len());
    }
    true
}

/// Whether the multiplier filters (5 to 7) read every transaction they reach, as
/// `extract_by_filter` needs.
pub fn multiplier_filters_readable(ts: &Vec<Json>) -> (r: bool)
    ensures
        r == forall|k: int| 5 <= k <= 7 ==> #[trigger] filter_scan(ts@, k, ts@.len()) is Some,
{
    let a = filter_readable(ts, 5);
    let b = filter_readable(ts, 6);
    let c = filter_readable(ts, 7);
    assert((a && b && c) == forall|k: int| 5 <= k <= 7 ==> #[trigger] filter_scan(ts@, k, ts@.len()) is Some) by {
        if !(a && b && c) {
            if !a {
                assert(!(filter_scan(ts@, 5, ts@.len()) is Some));
            } else if !b {
                assert(!(filter_scan(ts@, 6, ts@.len()) is Some));
            } else {
                assert(!(filter_scan(ts@, 7, ts@.len()) is Some));
            }
        }
    }
    a && b && c
}


/// The grand filter (8) picks a transaction only when its bonus `grand` list is an array
/// with no integer 0 in it: a grand list that holds a 0 is never picked.
pub proof fn law_grand_filter_needs_no_zero(t: JsonV)
    ensures
        filter_eval(8, t) == Some(true) ==> (as_list(get(bonus_of(t), "grand"@)) matches Some(g) && forall|i: int|
            0 <= i < g.len() ==> as_int(Some(#[trigger] g[i])) != Some(0i64)),
        (as_list(get(bonus_of(t), "grand"@)) matches Some(g) && exists|i: int|
            0 <= i < g.len() && #[trigger] g[i] == JsonV::Int(0i64)) ==> filter_eval(8, t) == Some(false),
{
    match as_list(get(bonus_of(t), "grand"@)) {
        Some(g) => {
            if exists|i: int| 0 <= i < g.len() && #[trigger] g[i] == JsonV::Int(0i64) {
                let i = choose|i: int| 0 <= i < g.len() && #[trigger] g[i] == JsonV::Int(0i64);
                assert(as_int(Some(g[i])) == Some(0i64));
                assert(!none_zero(g));
            }
        },
        None => {},
    }
}


/// What each filter looks for: filters 0, 1 and 2 a spin with a back win whose board shows
/// a multiplier of value 2, 3 and 5; filter 3 a spin whose board nests two multipliers in
/// one column; filters 5, 6 and 7 a respin whose bonus changes hold a multiplier of value
/// 2, 3 and 5; filter 9 a bonus that keeps an `original_board` array.
pub proof fn law_filters_look_for(t: JsonV)
    ensures
        ({
            let spin = action_name(t) == Some("spin"@);
            let respin = action_name(t) == Some("respin"@);
            let back_win = as_flag(get(spins_of(t), "bac_win"@)) == Some(true);
            &&& filter_eval(0, t) == Some(true) <==> (board_has_multi(t, 2) && back_win && spin)
            &&& filter_eval(1, t) == Some(true) <==> (board_has_multi(t, 3) && back_win && spin)
            &&& filter_eval(2, t) == Some(true) <==> (board_has_multi(t, 5) && back_win && spin)
            &&& filter_eval(3, t) == Some(true) <==> (board_has_double_multi(t) && spin)
            &&& filter_eval(5, t) == Some(true) ==> (respin && changes_of(t) is Some && multi_change_of(
                changes_of(t)->0,
                2,
                (changes_of(t)->0).len(),
            ) == Some(true))
            &&& filter_eval(6, t) == Some(true) ==> (respin && changes_of(t) is Some && multi_change_of(
                changes_of(t)->0,
                3,
                (changes_of(t)->0).len(),
            ) == Some(true))
            &&& filter_eval(7, t) == Some(true) ==> (respin && changes_of(t) is Some && multi_change_of(
                changes_of(t)->0,
                5,
                (changes_of(t)->0).len(),
            ) == Some(true))
            &&& filter_eval(9, t) == Some(true) <==> get(bonus_of(t), "original_board"@) matches Some(JsonV::Array(_))
        }),
{
}

/// A cell gives no coin value where its `bs_values` entry is 0 or its board shows the
/// multiplier (symbol 12), and gives its entry, cut to 32 bits, otherwise.
pub proof fn law_coin_cells(bs: Seq<JsonV>, brd: Seq<JsonV>, c: int, r: int, x: i32, v: i64, b: i64)
    requires
        0 <= c < bs.len(),
        c < brd.len(),
        as_list(Some(bs[c])) matches Some(col) && 0 <= r < col.len(),
        as_list(Some(brd[c])) is Some,
    ensures
        as_int(Some(as_list(Some(bs[c]))->0[r])) == Some(0i64) ==> !coin_at(bs, brd, c, r, x),
        as_int(at(Some(brd[c]), r)) == Some(12i64) ==> !coin_at(bs, brd, c, r, x),
        (as_int(Some(as_list(Some(bs[c]))->0[r])) == Some(v) && v != 0 && as_int(at(Some(brd[c]), r)) == Some(b)
            && b != 12) ==> (coin_at(bs, brd, c, r, x) <==> x == v as i32),
{
}

} // verus!

