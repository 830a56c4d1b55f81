use vstd::prelude::*;

use crate::json::{
    JsonV, Json, as_int, as_list, as_text, at, get, get_array, get_at, get_i64, get_key,
    is_text, json_eq, json_same, jv, jv_list, lemma_jv_list, list_same, or_null, ov,
};
use crate::seqs::{count_of, lemma_count_of_push};

verus! {

/// `out.result.game.spins` of a transaction.
pub open spec fn spins_of(t: JsonV) -> Option<JsonV> {
    get(get(get(get(Some(t), "out"@), "result"@), "game"@), "spins"@)
}

/// `spinData` of the first spin.
pub open spec fn first_spin_data(t: JsonV) -> Option<JsonV> {
    get(at(spins_of(t), 0), "spinData"@)
}

fn spins_exec(t: &Json) -> (r: Option<&Json>)
    ensures
        ov(r) == spins_of(jv(*t)),
{
    get_key(get_key(get_key(get_key(Some(t), "out"), "result"), "game"), "spins")
}

fn first_spin_data_exec(t: &Json) -> (r: Option<&Json>)
    ensures
        ov(r) == first_spin_data(jv(*t)),
{
    get_key(get_at(spins_exec(t), 0), "spinData")
}

/// Whether the first spin of a transaction triggered the bonus and changed its reels:
/// it names an `activator`, its `reels` differ from its `reelsPayout` (a missing one
/// reads as `null`), and `reelsPayout` is an array.
pub open spec fn bonus_spin(t: JsonV) -> bool {
    let sd = first_spin_data(t);
    &&& get(sd, "activator"@) is Some
    &&& !json_same(or_null(get(sd, "reels"@)), or_null(get(sd, "reelsPayout"@)))
    &&& as_list(get(sd, "reelsPayout"@)) is Some
}

/// Whether a value is a symbol of 10 or more.
pub open spec fn is_high(v: JsonV) -> bool {
    match as_int(Some(v)) {
        Some(n) => n >= 10,
        None => false,
    }
}

pub open spec fn one_if(b: bool) -> nat {
    if b {
        1
    } else {
        0
    }
}

/// The number of rows 3 to 5 of a column that hold a symbol of 10 or more.
pub open spec fn high_rows(col: Seq<JsonV>) -> nat {
    one_if(is_high(col[3])) + one_if(is_high(col[4])) + one_if(is_high(col[5]))
}

/// `high_rows` summed over the first `n` columns that are arrays.
pub open spec fn high_count(cols: Seq<JsonV>, n: nat) -> nat
    decreases n,
{
    if n == 0 || n > cols.len() {
        0
    } else {
        high_count(cols, (n - 1) as nat) + match as_list(Some(cols[n - 1])) {
            Some(col) => high_rows(col),
            None => 0nat,
        }
    }
}

/// The high symbols of the payout reels of a transaction.
pub open spec fn payout_high(t: JsonV) -> nat {
    match as_list(get(first_spin_data(t), "reelsPayout"@)) {
        Some(cols) => high_count(cols, cols.len()),
        None => 0,
    }
}

/// Whether every array among the columns has at least six rows.
pub open spec fn columns_long(cols: Seq<JsonV>) -> bool {
    forall|c: int| 0 <= c < cols.len() ==> (as_list(Some(#[trigger] cols[c])) matches Some(col) ==> col.len() >= 6)
}

/// Whether a transaction reads without a short column where it is read.
pub open spec fn over_bonus_readable(t: JsonV) -> bool {
    bonus_spin(t) ==> columns_long(as_list(get(first_spin_data(t), "reelsPayout"@))->0)
}

/// How many of the first `n` transactions are bonus spins.
pub open spec fn bonus_spins(ts: Seq<Json>, n: nat) -> nat
    decreases n,
{
    if n == 0 || n > ts.len() {
        0
    } else {
        bonus_spins(ts, (n - 1) as nat) + if bonus_spin(jv(ts[n - 1])) {
            1nat
        } else {
            0nat
        }
    }
}

/// How many of the first `n` transactions are bonus spins with `k` high symbols.
pub open spec fn bonus_spins_with(ts: Seq<Json>, k: nat, n: nat) -> nat
    decreases n,
{
    if n == 0 || n > ts.len() {
        0
    } else {
        bonus_spins_with(ts, k, (n - 1) as nat) + if bonus_spin(jv(ts[n - 1])) && payout_high(jv(ts[n - 1])) == k {
            1nat
        } else {
            0nat
        }
    }
}

/// The transactions, the bonus spins among them, and the bonus spins per number of high
/// symbols from 5 to 15.
pub struct OverBonus {
    pub total: u64,
    pub matched: u64,
    pub counts: Vec<u64>,
}

fn high_rows_exec(col: &Vec<Json>) -> (r: u64)
    requires
        col@.len() >= 6,
    ensures
        r == high_rows(jv_list(col@)),
        r <= 3,
{
    proof {
        lemma_jv_list(col@);
    }
    let mut r: u64 = 0;
    let mut k: usize = 3;
    while k < 6
        invariant
            3 <= k <= 6,
            col@.len() >= 6,
            jv_list(col@).len() == col@.len(),
            forall|j: int| 0 <= j < col@.len() ==> #[trigger] jv_list(col@)[j] == jv(col@[j]),
            r <= k - 3,
            r == one_if(k > 3 && is_high(jv_list(col@)[3])) + one_if(k > 4 && is_high(jv_list(col@)[4]))
                + one_if(k > 5 && is_high(jv_list(col@)[5])),
        decreases 6 - k,
    {
        assert(jv_list(col@)[k as int] == jv(col@[k as int]));
        match get_i64(Some(&col[k])) {
            Some(n) => {
                if n >= 10 {
                    r = r + 1;
                }
            },
            None => {},
        }
        k = k + 1;
    }
    r
}

fn high_count_exec(cols: &Vec<Json>) -> (r: u128)
    requires
        columns_long(jv_list(cols@)),
    ensures
        r == high_count(jv_list(cols@), cols@.len()),
{
    proof {
        lemma_jv_list(cols@);
    }
    let ghost v = jv_list(cols@);
    let mut total: u128 = 0;
    let mut i: usize = 0;
    while i < cols.len()
        invariant
            v == jv_list(cols@),
            v.len() == cols@.len(),
            columns_long(v),
            forall|j: int| 0 <= j < cols@.len() ==> #[trigger] v[j] == jv(cols@[j]),
            i <= cols.len(),
            total <= 3 * i,
            total == high_count(v, i as nat),
        decreases cols.len() - i,
    {
        assert(v[i as int] == jv(cols@[i as int]));
        match get_array(Some(&cols[i])) {
            Some(col) => {
                proof {
                    lemma_jv_list(col@);
                }
                assert(as_list(Some(v[i as int])) == Some(jv_list(col@)));
                let h = high_rows_exec(col);
                total = total + h as u128;
            },
            None => {},
        }
        i = i + 1;
    }
    total
}

/// Counts the bonus spins of the transactions, and among them those with 5 to 15 high
/// symbols (10 or more) on rows 3 to 5 of their payout reels.
pub fn extract_spin_over_bonus(transactions: &Vec<Json>) -> (r: OverBonus)
    requires
        forall|i: int| 0 <= i < transactions@.len() ==> over_bonus_readable(#[trigger] jv(transactions@[i])),
    ensures
        r.total == transactions@.len(),
        r.matched == bonus_spins(transactions@, transactions@.len()),
        r.counts@.len() == 11,
        forall|k: int| 0 <= k < 11 ==> #[trigger] r.counts@[k] == bonus_spins_with(transactions@, (k + 5) as nat, transactions@.len()),
{
    let ghost ts = transactions@;
    let mut counts: Vec<u64> = Vec::new();
    while counts.len() < 11
        invariant
            counts@.len() <= 11,
            forall|k: int| 0 <= k < counts@.len() ==> #[trigger] counts@[k] == 0,
        decreases 11 - counts.len(),
    {
        counts.push(0);
    }
    let null = Json::Null;
    let mut total: u64 = 0;
    let mut matched: u64 = 0;
    let mut i: usize = 0;
    while i < transactions.len()
        invariant
            ts == transactions@,
            forall|i: int| 0 <= i < ts.len() ==> over_bonus_readable(#[trigger] jv(ts[i])),
            i <= ts.len(),
            total == i,
            matched == bonus_spins(ts, i as nat),
            matched <= i,
            counts@.len() == 11,
            forall|k: int| 0 <= k < 11 ==> #[trigger] counts@[k] == bonus_spins_with(ts, (k + 5) as nat, i as nat),
            forall|k: int| 0 <= k < 11 ==> #[trigger] counts@[k] <= i,
            null == Json::Null,
        decreases ts.len() - i,
    {
        let t = &transactions[i];
        assert(over_bonus_readable(jv(ts[i as int])));
        total = total + 1;
        let sd = first_spin_data_exec(t);
        let reels = match get_key(sd, "reels") {
            Some(x) => x,
            None => &null,
        };
        let payout_v = match get_key(sd, "reelsPayout") {
            Some(x) => x,
            None => &null,
        };
        let mut hit: Option<u128> = None;
        if get_key(sd, "activator").is_some() && !json_eq(reels, payout_v) {
            match get_array(get_key(sd, "reelsPayout")) {
                Some(payout) => {
                    proof {
                        lemma_jv_list(payout@);
                    }
                    hit = Some(high_count_exec(payout));
                },
                None => {},
            }
        }
        assert(hit is Some <==> bonus_spin(jv(ts[i as int])));
        assert(hit matches Some(h) ==> h == payout_high(jv(ts[i as int])));
        match hit {
            Some(h) => {
                matched = matched + 1;
                if 5 <= h && h <= 15 {
                    let k = (h - 5) as usize;
                    let v = counts[k] + 1;
                    counts.set(k, v);
                }
            },
            None => {},
        }
        i = i + 1;
    }
    OverBonus { total, matched, counts }
}

/// The cash tiles of a free spin.
pub open spec fn free_spin_tiles(spin: JsonV) -> Option<Seq<JsonV>> {
    if as_text(get(Some(spin), "type"@)) == Some("freeSpin"@) {
        as_list(get(get(Some(spin), "spinData"@), "cashTiles"@))
    } else {
        None
    }
}

/// The multiplier a coin tile (tile 11) starts from.
pub open spec fn tile_mult(tile: JsonV) -> Option<i64> {
    if as_int(get(Some(tile), "tileId"@)) == Some(11i64) {
        as_int(get(get(get(Some(tile), "features"@), "multiplier"@), "from"@))
    } else {
        None
    }
}

/// The multipliers of the first `n` tiles, in order.
pub open spec fn tile_mults(tiles: Seq<JsonV>, n: nat) -> Seq<i64>
    decreases n,
{
    if n == 0 || n > tiles.len() {
        Seq::empty()
    } else {
        tile_mults(tiles, (n - 1) as nat) + match tile_mult(tiles[n - 1]) {
            Some(m) => seq![m],
            None => Seq::empty(),
        }
    }
}

/// Whether some tile is a coin tile.
pub open spec fn has_coin_tile(tiles: Seq<JsonV>) -> bool {
    exists|k: int| 0 <= k < tiles.len() && as_int(get(Some(#[trigger] tiles[k]), "tileId"@)) == Some(11i64)
}

pub open spec fn spin_mults(spin: JsonV) -> Seq<i64> {
    match free_spin_tiles(spin) {
        Some(tl) => tile_mults(tl, tl.len()),
        None => Seq::empty(),
    }
}

/// The tiles a spin counts: all its cash tiles, or with `respin` only those of a spin
/// that holds a coin tile.
pub open spec fn spin_tiles(spin: JsonV, respin: bool) -> nat {
    match free_spin_tiles(spin) {
        Some(tl) => if !respin || has_coin_tile(tl) {
            tl.len()
        } else {
            0
        },
        None => 0,
    }
}

pub open spec fn spin_list(t: JsonV) -> Seq<JsonV> {
    match as_list(spins_of(t)) {
        Some(ss) => ss,
        None => Seq::empty(),
    }
}

pub open spec fn spins_mults(spins: Seq<JsonV>, n: nat) -> Seq<i64>
    decreases n,
{
    if n == 0 || n > spins.len() {
        Seq::empty()
    } else {
        spins_mults(spins, (n - 1) as nat) + spin_mults(spins[n - 1])
    }
}

pub open spec fn spins_tiles(spins: Seq<JsonV>, respin: bool, n: nat) -> nat
    decreases n,
{
    if n == 0 || n > spins.len() {
        0
    } else {
        spins_tiles(spins, respin, (n - 1) as nat) + spin_tiles(spins[n - 1], respin)
    }
}

/// The coin multipliers of the free spins of the first `n` transactions, in order.
pub open spec fn coin_mults(ts: Seq<Json>, n: nat) -> Seq<i64>
    decreases n,
{
    if n == 0 || n > ts.len() {
        Seq::empty()
    } else {
        let spins = spin_list(jv(ts[n - 1]));
        coin_mults(ts, (n - 1) as nat) + spins_mults(spins, spins.len())
    }
}

/// The tiles counted over the free spins of the first `n` transactions.
pub open spec fn coin_tiles(ts: Seq<Json>, respin: bool, n: nat) -> nat
    decreases n,
{
    if n == 0 || n > ts.len() {
        0
    } else {
        let spins = spin_list(jv(ts[n - 1]));
        coin_tiles(ts, respin, (n - 1) as nat) + spins_tiles(spins, respin, spins.len())
    }
}

/// Whether a table lists, in strictly ascending order of value, every value of `s` with
/// how often it occurs.
pub open spec fn tally_of(table: Seq<(i64, u64)>, s: Seq<i64>) -> bool {
    &&& forall|i: int, j: int| 0 <= i < j < table.len() ==> #[trigger] table[i].0 < #[trigger] table[j].0
    &&& forall|i: int| 0 <= i < table.len() ==> (#[trigger] table[i]).1 == count_of(s, table[i].0) && table[i].1 > 0
    &&& forall|x: i64| count_of(s, x) > 0 ==> exists|i: int| 0 <= i < table.len() && (#[trigger] table[i]).0 == x
}

proof fn lemma_count_of_le_len(s: Seq<i64>, x: i64)
    ensures
        count_of(s, x) <= s.len(),
    decreases s.len(),
{
    if s.len() > 0 {
        lemma_count_of_le_len(s.drop_last(), x);
    }
}

/// Counts one more occurrence of `m`.
fn tally_add(table: &mut Vec<(i64, u64)>, m: i64, Ghost(s): Ghost<Seq<i64>>)
    requires
        tally_of(old(table)@, s),
        s.len() < u64::MAX,
    ensures
        tally_of(final(table)@, s.push(m)),
{
    proof {
        lemma_count_of_le_len(s, m);
    }
    let ghost t0 = table@;
    let mut p: usize = 0;
    while p < table.len() && table[p].0 < m
        invariant
            table@ == t0,
            p <= table.len(),
            forall|q: int| 0 <= q < p ==> #[trigger] table@[q].0 < m,
        decreases table.len() - p,
    {
        p = p + 1;
    }
    if p < table.len() && table[p].0 == m {
        let c = table[p].1 + 1;
        table.set(p, (m, c));
        assert forall|x: i64| count_of(s.push(m), x) > 0 implies exists|i: int| 0 <= i < table@.len() && (#[trigger] table@[i]).0 == x by {
            lemma_count_of_push(s, m, x);
            if x != m {
                let i = choose|i: int| 0 <= i < t0.len() && (#[trigger] t0[i]).0 == x;
                assert(table@[i].0 == x);
            } else {
                assert(table@[p as int].0 == x);
            }
        }
        assert forall|i: int| 0 <= i < table@.len() implies (#[trigger] table@[i]).1 == count_of(s.push(m), table@[i].0) && table@[i].1 > 0 by {
            lemma_count_of_push(s, m, table@[i].0);
            if i != p {
                assert(table@[i] == t0[i]);
                assert(t0[i].0 != m) by {
                    if i < p {
                    } else {
                        assert(t0[p as int].0 < t0[i].0);
                    }
                }
            }
        }
    } else {
        assert(count_of(s, m) == 0) by {
            if count_of(s, m) > 0 {
                let i = choose|i: int| 0 <= i < t0.len() && (#[trigger] t0[i]).0 == m;
                if i < p {
                } else {
                    assert(t0[p as int].0 <= t0[i].0) by {
                        if i > p {
                            assert(t0[p as int].0 < t0[i].0);
                        }
                    }
                }
            }
        }
        table.insert(p, (m, 1));
        assert forall|i: int, j: int| 0 <= i < j < table@.len() implies #[trigger] table@[i].0 < #[trigger] table@[j].0 by {
            if j < p {
                assert(table@[i] == t0[i] && table@[j] == t0[j]);
            } else if j == p {
                assert(table@[i] == t0[i]);
            } else if i == p {
                assert(table@[j] == t0[j - 1]);
                assert(t0[p as int].0 >= m);
                if j - 1 > p {
                    assert(t0[p as int].0 < t0[j - 1].0);
                }
            } else if i < p {
                assert(table@[i] == t0[i] && table@[j] == t0[j - 1]);
                assert(t0[p as int].0 >= m);
                if j - 1 > p {
                    assert(t0[p as int].0 < t0[j - 1].0);
                }
            } else {
                assert(table@[i] == t0[i - 1] && table@[j] == t0[j - 1]);
            }
        }
        assert forall|i: int| 0 <= i < table@.len() implies (#[trigger] table@[i]).1 == count_of(s.push(m), table@[i].0) && table@[i].1 > 0 by {
            lemma_count_of_push(s, m, table@[i].0);
            if i < p {
                assert(table@[i] == t0[i]);
            } else if i > p {
                assert(table@[i] == t0[i - 1]);
                assert(t0[i - 1].0 != m) by {
                    assert(t0[p as int].0 >= m);
                    if i - 1 > p {
                        assert(t0[p as int].0 < t0[i - 1].0);
                    }
                    assert(t0[p as int].0 != m);
                }
            }
        }
        assert forall|x: i64| count_of(s.push(m), x) > 0 implies exists|i: int| 0 <= i < table@.len() && (#[trigger] table@[i]).0 == x by {
            lemma_count_of_push(s, m, x);
            if x != m {
                let i = choose|i: int| 0 <= i < t0.len() && (#[trigger] t0[i]).0 == x;
                if i < p {
                    assert(table@[i].0 == x);
                } else {
                    assert(table@[i + 1].0 == x);
                }
            } else {
                assert(table@[p as int].0 == x);
            }
        }
    }
}

proof fn lemma_coin_mono(ts: Seq<Json>, respin: bool, i: nat, n: nat)
    requires
        i <= n <= ts.len(),
    ensures
        coin_mults(ts, i).len() <= coin_mults(ts, n).len(),
        coin_tiles(ts, respin, i) <= coin_tiles(ts, respin, n),
    decreases n,
{
    if i < n {
        lemma_coin_mono(ts, respin, i, (n - 1) as nat);
    }
}

proof fn lemma_spins_mono(spins: Seq<JsonV>, respin: bool, i: nat, n: nat)
    requires
        i <= n <= spins.len(),
    ensures
        spins_mults(spins, i).len() <= spins_mults(spins, n).len(),
        spins_tiles(spins, respin, i) <= spins_tiles(spins, respin, n),
    decreases n,
{
    if i < n {
        lemma_spins_mono(spins, respin, i, (n - 1) as nat);
    }
}

/// Tallies the coin multipliers of one spin; returns the tiles it counts.
fn spin_tally(spin: &Json, table: &mut Vec<(i64, u64)>, respin: bool, Ghost(s): Ghost<Seq<i64>>, Ghost(bound): Ghost<int>) -> (tiles: usize)
    requires
        tally_of(old(table)@, s),
        s.len() + spin_mults(jv(*spin)).len() <= bound,
        bound <= u64::MAX,
    ensures
        tally_of(final(table)@, s + spin_mults(jv(*spin))),
        tiles == spin_tiles(jv(*spin), respin),
{
    let ghost js = jv(*spin);
    if !is_text(get_key(Some(spin), "type"), "freeSpin") {
        assert(s + spin_mults(js) =~= s);
        return 0;
    }
    let tiles = match get_array(get_key(get_key(Some(spin), "spinData"), "cashTiles")) {
        Some(tl) => tl,
        None => {
            assert(s + spin_mults(js) =~= s);
            return 0;
        },
    };
    proof {
        lemma_jv_list(tiles@);
    }
    let ghost tv = jv_list(tiles@);
    let mut have_coin = false;
    let mut k: usize = 0;
    while k < tiles.len()
        invariant
            tv == jv_list(tiles@),
            tv.len() == tiles@.len(),
            forall|j: int| 0 <= j < tiles@.len() ==> #[trigger] tv[j] == jv(tiles@[j]),
            free_spin_tiles(js) == Some(tv),
            k <= tiles.len(),
            s.len() + tile_mults(tv, tv.len()).len() <= bound,
            bound <= u64::MAX,
            tally_of(table@, s + tile_mults(tv, k as nat)),
            have_coin == exists|j: int| 0 <= j < k && as_int(get(Some(#[trigger] tv[j]), "tileId"@)) == Some(11i64),
        decreases tiles.len() - k,
    {
        assert(tv[k as int] == jv(tiles@[k as int]));
        proof {
            lemma_tile_mults_mono(tv, (k + 1) as nat, tv.len());
        }
        if get_i64(get_key(Some(&tiles[k]), "tileId")) == Some(11i64) {
            have_coin = true;
            match get_i64(get_key(get_key(get_key(Some(&tiles[k]), "features"), "multiplier"), "from")) {
                Some(m) => {
                    let ghost before = s + tile_mults(tv, k as nat);
                    tally_add(table, m, Ghost(before));
                    assert(before.push(m) =~= s + tile_mults(tv, (k + 1) as nat));
                },
                None => {
                    assert(s + tile_mults(tv, (k + 1) as nat) =~= s + tile_mults(tv, k as nat));
                },
            }
        } else {
            assert(s + tile_mults(tv, (k + 1) as nat) =~= s + tile_mults(tv, k as nat));
        }
        k = k + 1;
    }
    if !respin || have_coin {
        tiles.len()
    } else {
        0
    }
}

proof fn lemma_tile_mults_mono(tiles: Seq<JsonV>, i: nat, n: nat)
    requires
        i <= n <= tiles.len(),
    ensures
        tile_mults(tiles, i).len() <= tile_mults(tiles, n).len(),
    decreases n,
{
    if i < n {
        lemma_tile_mults_mono(tiles, i, (n - 1) as nat);
    }
}

/// The cash tiles counted and the coin multipliers of the free spins, each multiplier
/// with how often it occurs, in ascending order.
pub struct CoinDist {
    pub total_tiles: u64,
    pub counts: Vec<(i64, u64)>,
}

fn coin_dist(transactions: &Vec<Json>, respin: bool) -> (r: CoinDist)
    requires
        coin_tiles(transactions@, respin, transactions@.len()) <= u64::MAX,
        coin_mults(transactions@, transactions@.len()).len() <= u64::MAX,
    ensures
        r.total_tiles == coin_tiles(transactions@, respin, transactions@.len()),
        tally_of(r.counts@, coin_mults(transactions@, transactions@.len())),
{
    let ghost ts = transactions@;
    let ghost n = ts.len();
    let mut table: Vec<(i64, u64)> = Vec::new();
    let mut total: u64 = 0;
    let mut i: usize = 0;
    while i < transactions.len()
        invariant
            ts == transactions@,
            n == ts.len(),
            coin_tiles(ts, respin, n) <= u64::MAX,
            coin_mults(ts, n).len() <= u64::MAX,
            i <= ts.len(),
            total == coin_tiles(ts, respin, i as nat),
            tally_of(table@, coin_mults(ts, i as nat)),
        decreases ts.len() - i,
    {
        proof {
            lemma_coin_mono(ts, respin, (i + 1) as nat, n);
        }
        let ghost spins = spin_list(jv(ts[i as int]));
        let ghost base = coin_mults(ts, i as nat);
        let ghost base_tiles = coin_tiles(ts, respin, i as nat);
        match get_array(spins_exec(&transactions[i])) {
            Some(list) => {
                proof {
                    lemma_jv_list(list@);
                }
                assert(spins == jv_list(list@));
                let mut j: usize = 0;
                while j < list.len()
                    invariant
                        spins == jv_list(list@),
                        spins.len() == list@.len(),
                        forall|q: int| 0 <= q < list@.len() ==> #[trigger] spins[q] == jv(list@[q]),
                        j <= list.len(),
                        base.len() + spins_mults(spins, spins.len()).len() <= u64::MAX,
                        base_tiles + spins_tiles(spins, respin, spins.len()) <= u64::MAX,
                        tally_of(table@, base + spins_mults(spins, j as nat)),
                        total == base_tiles + spins_tiles(spins, respin, j as nat),
                    decreases list.len() - j,
                {
                    assert(spins[j as int] == jv(list@[j as int]));
                    proof {
                        lemma_spins_mono(spins, respin, (j + 1) as nat, spins.len());
                    }
                    let ghost before = base + spins_mults(spins, j as nat);
                    let tiles = spin_tally(&list[j], &mut table, respin, Ghost(before), Ghost(u64::MAX as int));
                    assert(before + spin_mults(spins[j as int]) =~= base + spins_mults(spins, (j + 1) as nat));
                    total = total + tiles as u64;
                    j = j + 1;
                }
            },
            None => {
                assert(spins == Seq::<JsonV>::empty());
            },
        }
        assert(coin_mults(ts, (i + 1) as nat) == base + spins_mults(spins, spins.len()));
        i = i + 1;
    }
    CoinDist { total_tiles: total, counts: table }
}

/// The coin multipliers of the free spins, over all their cash tiles.
pub fn extract_spin_coin_values(transactions: &Vec<Json>) -> (r: CoinDist)
    requires
        coin_tiles(transactions@, false, transactions@.len()) <= u64::MAX,
        coin_mults(transactions@, transactions@.len()).len() <= u64::MAX,
    ensures
        r.total_tiles == coin_tiles(transactions@, false, transactions@.len()),
        tally_of(r.counts@, coin_mults(transactions@, transactions@.len())),
{
    coin_dist(transactions, false)
}

/// The coin multipliers of the free spins, over the cash tiles of the spins that hold a
/// coin tile.
pub fn extract_respin_coin_values(transactions: &Vec<Json>) -> (r: CoinDist)
    requires
        coin_tiles(transactions@, true, transactions@.len()) <= u64::MAX,
        coin_mults(transactions@, transactions@.len()).len() <= u64::MAX,
    ensures
        r.total_tiles == coin_tiles(transactions@, true, transactions@.len()),
        tally_of(r.counts@, coin_mults(transactions@, transactions@.len())),
{
    coin_dist(transactions, true)
}

/// The symbols that rows 3 to 5 of column `c` of the first spin's reels show, when all
/// three are integers.
pub open spec fn combo_at(t: JsonV, c: int) -> Option<Seq<i64>> {
    match as_list(get(first_spin_data(t), "reels"@)) {
        Some(cols) => if 0 <= c < cols.len() {
            match as_list(Some(cols[c])) {
                Some(col) => match (as_int(Some(col[3])), as_int(Some(col[4])), as_int(Some(col[5]))) {
                    (Some(a), Some(b), Some(x)) => Some(seq![a, b, x]),
                    _ => None,
                },
                None => None,
            }
        } else {
            None
        },
        None => None,
    }
}

/// How many of the first `n` transactions show `combo` on column `c`.
pub open spec fn combo_count(ts: Seq<Json>, c: int, combo: Seq<i64>, n: nat) -> nat
    decreases n,
{
    if n == 0 || n > ts.len() {
        0
    } else {
        combo_count(ts, c, combo, (n - 1) as nat) + if combo_at(jv(ts[n - 1]), c) == Some(combo) {
            1nat
        } else {
            0nat
        }
    }
}

/// Whether the reels of a transaction have no array column of fewer than six rows.
pub open spec fn reels_long(t: JsonV) -> bool {
    match as_list(get(first_spin_data(t), "reels"@)) {
        Some(cols) => columns_long(cols),
        None => true,
    }
}

pub open spec fn entries_v(v: Seq<(Vec<i64>, u64)>) -> Seq<(Seq<i64>, u64)> {
    Seq::new(v.len(), |i: int| (v[i].0@, v[i].1))
}

/// Whether a table lists each combination that column `c` shows in the first `n`
/// transactions once, with how often it shows.
pub open spec fn combo_table(t: Seq<(Seq<i64>, u64)>, ts: Seq<Json>, c: int, n: nat) -> bool {
    &&& forall|i: int, j: int| 0 <= i < j < t.len() ==> #[trigger] t[i].0 != #[trigger] t[j].0
    &&& forall|i: int| 0 <= i < t.len() ==> (#[trigger] t[i]).1 == combo_count(ts, c, t[i].0, n) && t[i].1 > 0
    &&& forall|x: Seq<i64>| combo_count(ts, c, x, n) > 0 ==> exists|i: int| 0 <= i < t.len() && (#[trigger] t[i]).0 == x
}

fn vec_eq_i64(a: &Vec<i64>, b: &Vec<i64>) -> (r: bool)
    ensures
        r == (a@ == b@),
{
    if a.len() != b.len() {
        return false;
    }
    let mut i: usize = 0;
    while i < a.len()
        invariant
            i <= a.len(),
            a.len() == b.len(),
            forall|k: int| 0 <= k < i ==> a@[k] == b@[k],
        decreases a.len() - i,
    {
        if a[i] != b[i] {
            return false;
        }
        i = i + 1;
    }
    assert(a@ =~= b@);
    true
}

proof fn lemma_combo_count_le(ts: Seq<Json>, c: int, x: Seq<i64>, n: nat)
    ensures
        combo_count(ts, c, x, n) <= n,
    decreases n,
{
    if n > 0 {
        lemma_combo_count_le(ts, c, x, (n - 1) as nat);
    }
}

/// Counts one more sighting of `combo` in a column table.
fn table_count(row: &mut Vec<(Vec<i64>, u64)>, combo: Vec<i64>, Ghost(ts): Ghost<Seq<Json>>, Ghost(c): Ghost<int>, Ghost(n): Ghost<nat>)
    requires
        n < ts.len() <= usize::MAX,
        combo_at(jv(ts[n as int]), c) == Some(combo@),
        combo_table(entries_v(old(row)@), ts, c, n),
    ensures
        combo_table(entries_v(final(row)@), ts, c, (n + 1) as nat),
{
    let ghost t0 = entries_v(row@);
    let ghost n1 = (n + 1) as nat;
    proof {
        lemma_combo_count_le(ts, c, combo@, n);
    }
    assert forall|x: Seq<i64>| #[trigger] combo_count(ts, c, x, n1) == combo_count(ts, c, x, n) + if x == combo@ {
        1nat
    } else {
        0nat
    } by {}
    let mut p: usize = 0;
    while p < row.len()
        invariant
            t0 == entries_v(row@),
            combo_table(t0, ts, c, n),
            n < ts.len() <= usize::MAX,
            n1 == n + 1,
            combo_count(ts, c, combo@, n) <= n,
            forall|x: Seq<i64>| #[trigger] combo_count(ts, c, x, n1) == combo_count(ts, c, x, n) + if x == combo@ {
                1nat
            } else {
                0nat
            },
            p <= row.len(),
            forall|q: int| 0 <= q < p ==> #[trigger] t0[q].0 != combo@,
        decreases row.len() - p,
    {
        assert(t0[p as int] == (row@[p as int].0@, row@[p as int].1));
        if vec_eq_i64(&row[p].0, &combo) {
            let v = row[p].1 + 1;
            let key = row[p].0.clone();
            assert(key@ =~= row@[p as int].0@);
            row.set(p, (key, v));
            assert forall|i: int| 0 <= i < entries_v(row@).len() implies #[trigger] entries_v(row@)[i] == if i == p {
                (combo@, v)
            } else {
                t0[i]
            } by {}
            assert forall|x: Seq<i64>| #[trigger] combo_count(ts, c, x, n1) > 0 implies exists|i: int| 0 <= i < entries_v(row@).len() && (#[trigger] entries_v(row@)[i]).0 == x by {
                if x != combo@ {
                    let i = choose|i: int| 0 <= i < t0.len() && (#[trigger] t0[i]).0 == x;
                    assert(entries_v(row@)[i].0 == x);
                } else {
                    assert(entries_v(row@)[p as int].0 == x);
                }
            }
            return;
        }
        p = p + 1;
    }
    assert(combo_count(ts, c, combo@, n) == 0) by {
        if combo_count(ts, c, combo@, n) > 0 {
            let i = choose|i: int| 0 <= i < t0.len() && (#[trigger] t0[i]).0 == combo@;
        }
    }
    let ghost cv = combo@;
    row.push((combo, 1));
    assert(entries_v(row@) =~= t0.push((cv, 1u64)));
    assert forall|x: Seq<i64>| #[trigger] combo_count(ts, c, x, n1) > 0 implies exists|i: int| 0 <= i < entries_v(row@).len() && (#[trigger] entries_v(row@)[i]).0 == x by {
        if x != cv {
            let i = choose|i: int| 0 <= i < t0.len() && (#[trigger] t0[i]).0 == x;
            assert(entries_v(row@)[i].0 == x);
        } else {
            assert(entries_v(row@)[t0.len() as int].0 == x);
        }
    }
}

pub open spec fn keys_distinct(t: Seq<(Seq<i64>, u64)>) -> bool {
    forall|i: int, j: int| 0 <= i < j < t.len() ==> #[trigger] t[i].0 != #[trigger] t[j].0
}

pub open spec fn counts_ascending(t: Seq<(Seq<i64>, u64)>) -> bool {
    forall|i: int, j: int| 0 <= i < j < t.len() ==> #[trigger] t[i].1 <= #[trigger] t[j].1
}

/// The entries in ascending order of count; entries of equal count keep their order.
fn sort_by_count(src: &Vec<(Vec<i64>, u64)>) -> (r: Vec<(Vec<i64>, u64)>)
    requires
        keys_distinct(entries_v(src@)),
    ensures
        keys_distinct(entries_v(r@)),
        counts_ascending(entries_v(r@)),
        forall|e: (Seq<i64>, u64)| entries_v(r@).contains(e) <==> entries_v(src@).contains(e),
{
    let ghost sv = entries_v(src@);
    let mut out: Vec<(Vec<i64>, u64)> = Vec::new();
    let mut k: usize = 0;
    while k < src.len()
        invariant
            sv == entries_v(src@),
            sv.len() == src@.len(),
            keys_distinct(sv),
            k <= src.len(),
            keys_distinct(entries_v(out@)),
            counts_ascending(entries_v(out@)),
            forall|e: (Seq<i64>, u64)| entries_v(out@).contains(e) <==> sv.take(k as int).contains(e),
        decreases src.len() - k,
    {
        let ghost ov0 = entries_v(out@);
        let ghost e = sv[k as int];
        assert(e == (src@[k as int].0@, src@[k as int].1));
        let c = src[k].1;
        let mut p: usize = 0;
        while p < out.len() && out[p].1 <= c
            invariant
                ov0 == entries_v(out@),
                p <= out.len(),
                forall|q: int| 0 <= q < p ==> #[trigger] ov0[q].1 <= c,
            decreases out.len() - p,
        {
            assert(ov0[p as int].1 == out@[p as int].1);
            p = p + 1;
        }
        assert(p < out.len() ==> ov0[p as int].1 > c);
        let key = src[k].0.clone();
        assert(key@ =~= src@[k as int].0@);
        out.insert(p, (key, c));
        let ghost nv = entries_v(out@);
        assert(nv =~= ov0.insert(p as int, e));
        let ghost pre = sv.take(k as int);
        let ghost pre1 = sv.take(k + 1);
        assert(pre1 =~= pre.push(e));
        assert forall|x: (Seq<i64>, u64)| nv.contains(x) <==> pre1.contains(x) by {
            if nv.contains(x) {
                let i = choose|i: int| 0 <= i < nv.len() && nv[i] == x;
                if i < p {
                    assert(ov0[i] == x);
                    assert(ov0.contains(x));
                } else if i > p {
                    assert(ov0[i - 1] == x);
                    assert(ov0.contains(x));
                } else {
                    assert(pre1[k as int] == x);
                }
                if x != e {
                    let j = choose|j: int| 0 <= j < pre.len() && pre[j] == x;
                    assert(pre1[j] == x);
                }
            }
            if pre1.contains(x) {
                let j = choose|j: int| 0 <= j < pre1.len() && pre1[j] == x;
                if j < k {
                    assert(pre[j] == x);
                    assert(ov0.contains(x));
                    let i = choose|i: int| 0 <= i < ov0.len() && ov0[i] == x;
                    if i < p {
                        assert(nv[i] == x);
                    } else {
                        assert(nv[i + 1] == x);
                    }
                } else {
                    assert(nv[p as int] == x);
                }
            }
        }
        assert forall|i: int| 0 <= i < ov0.len() implies #[trigger] ov0[i].0 != e.0 by {
            assert(ov0.contains(ov0[i]));
            let j = choose|j: int| 0 <= j < pre.len() && pre[j] == ov0[i];
            assert(sv[j] == ov0[i]);
        }
        assert forall|i: int, j: int| 0 <= i < j < nv.len() implies #[trigger] nv[i].0 != #[trigger] nv[j].0 by {
            if j < p {
                assert(nv[i] == ov0[i] && nv[j] == ov0[j]);
            } else if j == p {
                assert(nv[i] == ov0[i]);
            } else if i == p {
                assert(nv[j] == ov0[j - 1]);
            } else if i < p {
                assert(nv[i] == ov0[i] && nv[j] == ov0[j - 1]);
            } else {
                assert(nv[i] == ov0[i - 1] && nv[j] == ov0[j - 1]);
            }
        }
        assert forall|i: int, j: int| 0 <= i < j < nv.len() implies #[trigger] nv[i].1 <= #[trigger] nv[j].1 by {
            if j < p {
                assert(nv[i] == ov0[i] && nv[j] == ov0[j]);
            } else if j == p {
                assert(nv[i] == ov0[i]);
            } else if i == p {
                assert(nv[j] == ov0[j - 1]);
                assert(ov0[p as int].1 > c);
                if j - 1 > p {
                    assert(ov0[p as int].1 <= ov0[j - 1].1);
                }
            } else if i < p {
                assert(nv[i] == ov0[i] && nv[j] == ov0[j - 1]);
            } else {
                assert(nv[i] == ov0[i - 1] && nv[j] == ov0[j - 1]);
            }
        }
        k = k + 1;
    }
    assert(sv.take(src.len() as int) =~= sv);
    out
}

fn copy_table(v: &Vec<(Vec<i64>, u64)>) -> (r: Vec<(Vec<i64>, u64)>)
    ensures
        entries_v(r@) == entries_v(v@),
{
    let mut r: Vec<(Vec<i64>, u64)> = Vec::new();
    let mut i: usize = 0;
    while i < v.len()
        invariant
            i <= v.len(),
            r@.len() == i,
            forall|q: int| 0 <= q < i ==> #[trigger] r@[q].0@ == v@[q].0@ && r@[q].1 == v@[q].1,
        decreases v.len() - i,
    {
        let key = v[i].0.clone();
        assert(key@ =~= v@[i as int].0@);
        r.push((key, v[i].1));
        i = i + 1;
    }
    assert(entries_v(r@) =~= entries_v(v@));
    r
}

/// Whether per-column tables account for the combinations of the first `n` transactions.
pub open spec fn combo_columns(cols: Seq<Seq<(Seq<i64>, u64)>>, ts: Seq<Json>, n: nat) -> bool {
    &&& forall|c: int| 0 <= c < cols.len() ==> combo_table(#[trigger] cols[c], ts, c, n)
    &&& forall|i: int, c: int| 0 <= i < n && c >= cols.len() ==> #[trigger] combo_at(jv(ts[i]), c) is None
    &&& cols.len() > 0 ==> exists|i: int| 0 <= i < n && #[trigger] combo_at(jv(ts[i]), cols.len() - 1) is Some
}

pub open spec fn tables_v(v: Seq<Vec<(Vec<i64>, u64)>>) -> Seq<Seq<(Seq<i64>, u64)>> {
    Seq::new(v.len(), |c: int| entries_v(v[c]@))
}

proof fn lemma_combo_count_none(ts: Seq<Json>, c: int, n: nat)
    requires
        n < ts.len(),
        combo_at(jv(ts[n as int]), c) is None,
    ensures
        forall|x: Seq<i64>| #[trigger] combo_count(ts, c, x, (n + 1) as nat) == combo_count(ts, c, x, n),
{
}

proof fn lemma_table_advance(t: Seq<(Seq<i64>, u64)>, ts: Seq<Json>, c: int, n: nat)
    requires
        n < ts.len(),
        combo_at(jv(ts[n as int]), c) is None,
        combo_table(t, ts, c, n),
    ensures
        combo_table(t, ts, c, (n + 1) as nat),
{
    lemma_combo_count_none(ts, c, n);
    assert forall|x: Seq<i64>| #[trigger] combo_count(ts, c, x, (n + 1) as nat) > 0 implies exists|i: int| 0 <= i < t.len() && (#[trigger] t[i]).0 == x by {
        assert(combo_count(ts, c, x, n) > 0);
    }
}

fn combos_step(t: &Json, cols: &mut Vec<Vec<(Vec<i64>, u64)>>, Ghost(ts): Ghost<Seq<Json>>, Ghost(n): Ghost<nat>)
    requires
        n < ts.len() <= usize::MAX,
        jv(ts[n as int]) == jv(*t),
        reels_long(jv(*t)),
        combo_columns(tables_v(old(cols)@), ts, n),
    ensures
        combo_columns(tables_v(final(cols)@), ts, (n + 1) as nat),
{
    let ghost jt = jv(*t);
    let ghost n1 = (n + 1) as nat;
    let reels = match get_array(get_key(first_spin_data_exec(t), "reels")) {
        Some(r) => r,
        None => {
            let ghost tv = tables_v(cols@);
            assert forall|c: int| 0 <= c < tv.len() implies combo_table(#[trigger] tv[c], ts, c, n1) by {
                lemma_table_advance(tv[c], ts, c, n);
            }
            assert forall|i: int, c: int| 0 <= i < n1 && c >= tv.len() implies #[trigger] combo_at(jv(ts[i]), c) is None by {}
            assert(tv.len() > 0 ==> exists|i: int| 0 <= i < n1 && #[trigger] combo_at(jv(ts[i]), tv.len() - 1) is Some) by {
                if tv.len() > 0 {
                    let i = choose|i: int| 0 <= i < n && #[trigger] combo_at(jv(ts[i]), tv.len() - 1) is Some;
                    assert(0 <= i < n1 && combo_at(jv(ts[i]), tv.len() - 1) is Some);
                }
            }
            return;
        },
    };
    proof {
        lemma_jv_list(reels@);
    }
    let ghost rv = jv_list(reels@);
    assert(as_list(get(first_spin_data(jt), "reels"@)) == Some(rv));
    let mut c: usize = 0;
    while c < reels.len()
        invariant
            n < ts.len() <= usize::MAX,
            n1 == n + 1,
            jv(ts[n as int]) == jt,
            as_list(get(first_spin_data(jt), "reels"@)) == Some(rv),
            rv == jv_list(reels@),
            rv.len() == reels@.len(),
            columns_long(rv),
            forall|j: int| 0 <= j < reels@.len() ==> #[trigger] rv[j] == jv(reels@[j]),
            c <= reels.len(),
            forall|k: int| 0 <= k < cols@.len() ==> (k < c ==> combo_table(#[trigger] tables_v(cols@)[k], ts, k, n1))
                && (k >= c ==> combo_table(tables_v(cols@)[k], ts, k, n)),
            forall|i: int, k: int| 0 <= i < n && k >= cols@.len() ==> #[trigger] combo_at(jv(ts[i]), k) is None,
            forall|k: int| 0 <= k < c && k >= cols@.len() ==> #[trigger] combo_at(jt, k) is None,
            cols@.len() > 0 ==> exists|i: int| 0 <= i < n1 && #[trigger] combo_at(jv(ts[i]), cols@.len() - 1) is Some,
        decreases reels.len() - c,
    {
        assert(rv[c as int] == jv(reels@[c as int]));
        let mut combo: Option<Vec<i64>> = None;
        match get_array(Some(&reels[c])) {
            Some(col) => {
                proof {
                    lemma_jv_list(col@);
                }
                assert(col@.len() >= 6);
                let a = get_i64(Some(&col[3]));
                let b = get_i64(Some(&col[4]));
                let x = get_i64(Some(&col[5]));
                assert(jv_list(col@)[3] == jv(col@[3]) && jv_list(col@)[4] == jv(col@[4]) && jv_list(col@)[5] == jv(col@[5]));
                match (a, b, x) {
                    (Some(a), Some(b), Some(x)) => {
                        let mut v: Vec<i64> = Vec::new();
                        v.push(a);
                        v.push(b);
                        v.push(x);
                        assert(v@ =~= seq![a, b, x]);
                        combo = Some(v);
                    },
                    _ => {},
                }
            },
            None => {},
        }
        assert(combo matches Some(v) ==> combo_at(jt, c as int) == Some(v@));
        assert(combo is None ==> combo_at(jt, c as int) is None);
        match combo {
            Some(v) => {
                while cols.len() <= c
                    invariant
                        n < ts.len(),
                        n1 == n + 1,
                        c < reels@.len(),
                        combo_at(jt, c as int) == Some(v@),
                        jv(ts[n as int]) == jt,
                        forall|k: int| 0 <= k < cols@.len() ==> (k < c ==> combo_table(#[trigger] tables_v(cols@)[k], ts, k, n1))
                            && (k >= c ==> combo_table(tables_v(cols@)[k], ts, k, n)),
                        forall|i: int, k: int| 0 <= i < n && k >= cols@.len() ==> #[trigger] combo_at(jv(ts[i]), k) is None,
                        forall|k: int| 0 <= k < c && k >= cols@.len() ==> #[trigger] combo_at(jt, k) is None,
                        cols@.len() <= c || exists|i: int| 0 <= i < n1 && #[trigger] combo_at(jv(ts[i]), cols@.len() - 1) is Some,
                    decreases c + 1 - cols.len(),
                {
                    let k0 = cols.len();
                    let ghost old_t = tables_v(cols@);
                    cols.push(Vec::new());
                    assert(entries_v(cols@[k0 as int]@) =~= Seq::<(Seq<i64>, u64)>::empty());
                    assert(tables_v(cols@) =~= old_t.push(Seq::empty()));
                    assert(combo_table(Seq::<(Seq<i64>, u64)>::empty(), ts, k0 as int, n)) by {
                        assert forall|x: Seq<i64>| #[trigger] combo_count(ts, k0 as int, x, n) == 0 by {
                            lemma_combo_count_zero(ts, k0 as int, x, n);
                        }
                    }
                    if k0 < c {
                        proof {
                            lemma_table_advance(Seq::empty(), ts, k0 as int, n);
                        }
                    } else {
                        assert(cols@.len() - 1 == c);
                        assert(combo_at(jv(ts[n as int]), cols@.len() - 1) is Some);
                        assert(0 <= n < n1);
                    }
                }
                let ghost tv0 = tables_v(cols@);
                assert(tv0[c as int] == entries_v(cols@[c as int]@));
                let mut row = copy_table(&cols[c]);
                table_count(&mut row, v, Ghost(ts), Ghost(c as int), Ghost(n));
                let ghost rowv = entries_v(row@);
                cols.set(c, row);
                assert(tables_v(cols@) =~= tv0.update(c as int, rowv));
            },
            None => {
                let ghost tv = tables_v(cols@);
                if c < cols.len() {
                    proof {
                        lemma_table_advance(tv[c as int], ts, c as int, n);
                    }
                }
            },
        }
        c = c + 1;
    }
    let ghost tv = tables_v(cols@);
    assert forall|k: int| 0 <= k < tv.len() implies combo_table(#[trigger] tv[k], ts, k, n1) by {
        if k >= c {
            assert(combo_at(jt, k) is None);
            lemma_table_advance(tv[k], ts, k, n);
        }
    }
    assert forall|i: int, k: int| 0 <= i < n1 && k >= tv.len() implies #[trigger] combo_at(jv(ts[i]), k) is None by {
        if i == n {
            if k < c {
                assert(combo_at(jt, k) is None);
            }
        }
    }
}

proof fn lemma_combo_count_zero(ts: Seq<Json>, c: int, x: Seq<i64>, n: nat)
    requires
        n <= ts.len(),
        forall|i: int, k: int| 0 <= i < n && k >= c ==> #[trigger] combo_at(jv(ts[i]), k) is None,
    ensures
        combo_count(ts, c, x, n) == 0,
    decreases n,
{
    if n > 0 {
        assert(combo_at(jv(ts[n - 1]), c) is None);
        lemma_combo_count_zero(ts, c, x, (n - 1) as nat);
    }
}

/// Per column of the first spin's reels, up to the last one that ever shows a
/// combination: each combination of rows 3 to 5 with how many transactions show it, in
/// ascending order of that number.
pub fn extract_spin_combos(transactions: &Vec<Json>) -> (r: Vec<Vec<(Vec<i64>, u64)>>)
    requires
        forall|i: int| 0 <= i < transactions@.len() ==> reels_long(#[trigger] jv(transactions@[i])),
    ensures
        combo_columns(tables_v(r@), transactions@, transactions@.len()),
        forall|c: int| 0 <= c < r@.len() ==> counts_ascending(#[trigger] tables_v(r@)[c]),
{
    let ghost ts = transactions@;
    let mut cols: Vec<Vec<(Vec<i64>, u64)>> = Vec::new();
    assert(tables_v(cols@) =~= Seq::<Seq<(Seq<i64>, u64)>>::empty());
    let mut i: usize = 0;
    while i < transactions.len()
        invariant
            ts == transactions@,
            forall|i: int| 0 <= i < ts.len() ==> reels_long(#[trigger] jv(ts[i])),
            i <= ts.len(),
            combo_columns(tables_v(cols@), ts, i as nat),
        decreases ts.len() - i,
    {
        assert(reels_long(jv(ts[i as int])));
        combos_step(&transactions[i], &mut cols, Ghost(ts), Ghost(i as nat));
        i = i + 1;
    }
    let ghost unsorted = tables_v(cols@);
    let mut out: Vec<Vec<(Vec<i64>, u64)>> = Vec::new();
    let mut c: usize = 0;
    while c < cols.len()
        invariant
            unsorted == tables_v(cols@),
            unsorted.len() == cols@.len(),
            combo_columns(unsorted, ts, ts.len()),
            c <= cols.len(),
            out@.len() == c,
            forall|k: int| 0 <= k < c ==> combo_table(#[trigger] tables_v(out@)[k], ts, k, ts.len()),
            forall|k: int| 0 <= k < c ==> counts_ascending(#[trigger] tables_v(out@)[k]),
        decreases cols.len() - c,
    {
        assert(unsorted[c as int] == entries_v(cols@[c as int]@));
        assert(combo_table(unsorted[c as int], ts, c as int, ts.len()));
        let sorted = sort_by_count(&cols[c]);
        let ghost sv = entries_v(sorted@);
        let ghost uv = unsorted[c as int];
        assert(combo_table(sv, ts, c as int, ts.len())) by {
            assert forall|k: int| 0 <= k < sv.len() implies (#[trigger] sv[k]).1 == combo_count(ts, c as int, sv[k].0, ts.len()) && sv[k].1 > 0 by {
                assert(sv.contains(sv[k]));
                let j = choose|j: int| 0 <= j < uv.len() && uv[j] == sv[k];
            }
            assert forall|x: Seq<i64>| combo_count(ts, c as int, x, ts.len()) > 0 implies exists|k: int| 0 <= k < sv.len() && (#[trigger] sv[k]).0 == x by {
                let j = choose|j: int| 0 <= j < uv.len() && (#[trigger] uv[j]).0 == x;
                assert(uv.contains(uv[j]));
                let k = choose|k: int| 0 <= k < sv.len() && sv[k] == uv[j];
                assert(sv[k].0 == x);
            }
        }
        let ghost before = tables_v(out@);
        out.push(sorted);
        assert(tables_v(out@) =~= before.push(sv));
        c = c + 1;
    }
    assert(tables_v(out@).len() == unsorted.len());
    out
}

/// The reels of a free spin and its payout reels.
pub open spec fn respin_reels_of(spin: JsonV) -> Option<Seq<JsonV>> {
    if as_text(get(Some(spin), "type"@)) == Some("freeSpin"@) {
        as_list(get(get(Some(spin), "spinData"@), "reels"@))
    } else {
        None
    }
}

pub open spec fn payout_reels_of(spin: JsonV) -> Option<Seq<JsonV>> {
    as_list(get(get(Some(spin), "spinData"@), "reelsPayout"@))
}

/// The integers of rows 3 to 5 of column `x`, first `k` of them, each with its row.
pub open spec fn row_marks(col: Seq<JsonV>, x: int, k: nat) -> Seq<(usize, usize, i64)>
    decreases k,
{
    if k == 0 || k > 3 {
        Seq::empty()
    } else {
        row_marks(col, x, (k - 1) as nat) + match as_int(Some(col[3 + k - 1])) {
            Some(sym) => seq![(x as usize, (k - 1) as usize, sym)],
            None => Seq::empty(),
        }
    }
}

/// For the third column, when its payout column is an array that differs from it: per
/// payout row, the payout symbol where the two differ, else 16.
pub open spec fn third_marks(col: Seq<JsonV>, payout: Option<Seq<JsonV>>) -> Seq<(usize, usize, i64)> {
    match payout {
        Some(p) => match as_list(Some(p[2])) {
            Some(b) => if !list_same(col, b) {
                Seq::new(
                    b.len(),
                    |y: int|
                        (
                            2usize,
                            y as usize,
                            if as_int(Some(col[y])) != as_int(Some(b[y])) {
                                as_int(Some(b[y]))->0
                            } else {
                                16i64
                            },
                        ),
                )
            } else {
                Seq::empty()
            },
            None => Seq::empty(),
        },
        None => Seq::empty(),
    }
}

/// The cell marks of the first `n` columns of a free spin.
pub open spec fn column_marks(reels: Seq<JsonV>, payout: Option<Seq<JsonV>>, n: nat) -> Seq<(usize, usize, i64)>
    decreases n,
{
    if n == 0 || n > reels.len() {
        Seq::empty()
    } else {
        let x = n - 1;
        column_marks(reels, payout, (n - 1) as nat) + match as_list(Some(reels[x])) {
            Some(col) => if x == 2 {
                third_marks(col, payout)
            } else {
                row_marks(col, x, 3)
            },
            None => Seq::empty(),
        }
    }
}

pub open spec fn spin_marks(spin: JsonV) -> Seq<(usize, usize, i64)> {
    match respin_reels_of(spin) {
        Some(reels) => column_marks(reels, payout_reels_of(spin), reels.len()),
        None => Seq::empty(),
    }
}

pub open spec fn spins_marks(spins: Seq<JsonV>, n: nat) -> Seq<(usize, usize, i64)>
    decreases n,
{
    if n == 0 || n > spins.len() {
        Seq::empty()
    } else {
        spins_marks(spins, (n - 1) as nat) + spin_marks(spins[n - 1])
    }
}

pub open spec fn spins_reels(spins: Seq<JsonV>, n: nat) -> nat
    decreases n,
{
    if n == 0 || n > spins.len() {
        0
    } else {
        spins_reels(spins, (n - 1) as nat) + if respin_reels_of(spins[n - 1]) is Some {
            1nat
        } else {
            0nat
        }
    }
}

/// The cell marks of the free spins of the first `n` transactions, in order.
pub open spec fn respin_marks(ts: Seq<Json>, n: nat) -> Seq<(usize, usize, i64)>
    decreases n,
{
    if n == 0 || n > ts.len() {
        Seq::empty()
    } else {
        let spins = spin_list(jv(ts[n - 1]));
        respin_marks(ts, (n - 1) as nat) + spins_marks(spins, spins.len())
    }
}

/// The free spins with reels among the first `n` transactions.
pub open spec fn respin_count(ts: Seq<Json>, n: nat) -> nat
    decreases n,
{
    if n == 0 || n > ts.len() {
        0
    } else {
        let spins = spin_list(jv(ts[n - 1]));
        respin_count(ts, (n - 1) as nat) + spins_reels(spins, spins.len())
    }
}

/// Whether every value is an integer.
pub open spec fn all_ints(xs: Seq<JsonV>) -> bool {
    forall|k: int| 0 <= k < xs.len() ==> as_int(Some(#[trigger] xs[k])) is Some
}

/// Whether a free spin reads without a short column or a missing number where it is read.
pub open spec fn spin_readable(spin: JsonV) -> bool {
    match respin_reels_of(spin) {
        Some(reels) => forall|x: int|
            0 <= x < reels.len() ==> match as_list(Some(#[trigger] reels[x])) {
                Some(col) => if x == 2 {
                    match payout_reels_of(spin) {
                        Some(p) => p.len() >= 3 && match as_list(Some(p[2])) {
                            Some(b) => !list_same(col, b) ==> all_ints(col) && all_ints(b) && col.len() >= b.len(),
                            None => true,
                        },
                        None => true,
                    }
                } else {
                    col.len() >= 6
                },
                None => true,
            },
        None => true,
    }
}

/// Whether every free spin of a transaction is readable.
pub open spec fn respin_readable(t: JsonV) -> bool {
    forall|k: int| 0 <= k < spin_list(t).len() ==> spin_readable(#[trigger] spin_list(t)[k])
}

/// The order of cells: by column, then by row.
pub open spec fn cell_lt(a: (usize, usize), b: (usize, usize)) -> bool {
    a.0 < b.0 || (a.0 == b.0 && a.1 < b.1)
}

pub open spec fn cells_ascending(t: Seq<((usize, usize), Vec<u64>)>) -> bool {
    forall|i: int, j: int| 0 <= i < j < t.len() ==> cell_lt(#[trigger] t[i].0, #[trigger] t[j].0)
}

pub open spec fn cell_rows_counted(t: Seq<((usize, usize), Vec<u64>)>, ms: Seq<(usize, usize, i64)>) -> bool {
    &&& forall|i: int| 0 <= i < t.len() ==> (#[trigger] t[i]).1@.len() == 7
    &&& forall|i: int, s: int| 0 <= i < t.len() && 0 <= s < 7 ==> #[trigger] t[i].1@[s] == count_of(ms, (t[i].0.0, t[i].0.1, (s + 10) as i64))
}

pub open spec fn cells_marked(t: Seq<((usize, usize), Vec<u64>)>, ms: Seq<(usize, usize, i64)>) -> bool {
    &&& forall|i: int| #![trigger t[i]] 0 <= i < t.len() ==> exists|k: int| #![trigger ms[k]] 0 <= k < ms.len() && ms[k].0 == t[i].0.0 && ms[k].1 == t[i].0.1
    &&& forall|k: int| #![trigger ms[k]] 0 <= k < ms.len() ==> exists|i: int| #![trigger t[i]] 0 <= i < t.len() && t[i].0 == (ms[k].0, ms[k].1)
}

/// Whether a table lists, in ascending order of cell, every cell that some mark names,
/// each with how many marks name it with each symbol from 10 to 16.
#[verifier::opaque]
pub open spec fn cell_table(t: Seq<((usize, usize), Vec<u64>)>, ms: Seq<(usize, usize, i64)>) -> bool {
    cells_ascending(t) && cell_rows_counted(t, ms) && cells_marked(t, ms)
}

proof fn lemma_count_of_le_len3(s: Seq<(usize, usize, i64)>, x: (usize, usize, i64))
    ensures
        count_of(s, x) <= s.len(),
    decreases s.len(),
{
    if s.len() > 0 {
        lemma_count_of_le_len3(s.drop_last(), x);
    }
}

/// Counts one more mark of `sym` on cell `(x, y)`.
fn cell_add(table: &mut Vec<((usize, usize), Vec<u64>)>, x: usize, y: usize, sym: i64, Ghost(ms): Ghost<Seq<(usize, usize, i64)>>)
    requires
        cell_table(old(table)@, ms),
        ms.len() < u64::MAX,
    ensures
        cell_table(final(table)@, ms.push((x, y, sym))),
{
    let ghost t0 = table@;
    let ghost m = (x, y, sym);
    let ghost ms1 = ms.push(m);
    assert forall|z: (usize, usize, i64)| #[trigger] count_of(ms1, z) == count_of(ms, z) + if z == m {
        1nat
    } else {
        0nat
    } by {
        lemma_count_of_push(ms, m, z);
    }
    assert(ms1[ms.len() as int] == m);
    assert forall|k: int| 0 <= k < ms.len() implies #[trigger] ms1[k] == ms[k] by {}
    let mut p: usize = 0;
    while p < table.len() && (table[p].0.0 < x || (table[p].0.0 == x && table[p].0.1 < y))
        invariant
            table@ == t0,
            p <= table.len(),
            forall|q: int| 0 <= q < p ==> cell_lt(#[trigger] t0[q].0, (x, y)),
        decreases table.len() - p,
    {
        p = p + 1;
    }
    let found = p < table.len() && table[p].0.0 == x && table[p].0.1 == y;
    proof {
        if !found {
            lemma_no_marks_on(t0, ms, x, y, p as int);
        }
    }
    let mut row: Vec<u64> = Vec::new();
    if found {
        let mut k: usize = 0;
        while k < table[p].1.len()
            invariant
                table@ == t0,
                p < table.len(),
                k <= table[p as int].1@.len(),
                row@ == table[p as int].1@.take(k as int),
            decreases table[p as int].1@.len() - k,
        {
            row.push(table[p].1[k]);
            assert(row@ =~= table[p as int].1@.take(k + 1));
            k = k + 1;
        }
        assert(row@ =~= t0[p as int].1@);
        assert(row@.len() == 7) by {
            reveal(cell_table);
        }
    } else {
        while row.len() < 7
            invariant
                row@.len() <= 7,
                forall|q: int| 0 <= q < row@.len() ==> #[trigger] row@[q] == 0,
            decreases 7 - row.len(),
        {
            row.push(0);
        }
    }
    assert(row@.len() == 7);
    let ghost row0 = row@;
    assert forall|s2: int| 0 <= s2 < 7 implies #[trigger] row0[s2] == count_of(ms, (x, y, (s2 + 10) as i64)) by {
        if found {
            reveal(cell_table);
            assert(t0[p as int].1@[s2] == count_of(ms, (t0[p as int].0.0, t0[p as int].0.1, (s2 + 10) as i64)));
        }
    }
    if 10 <= sym && sym <= 16 {
        let s = (sym - 10) as usize;
        proof {
            lemma_count_of_le_len3(ms, m);
        }
        let v = row[s] + 1;
        row.set(s, v);
    }
    assert forall|s2: int| 0 <= s2 < 7 implies #[trigger] row@[s2] == count_of(ms1, (x, y, (s2 + 10) as i64)) by {
        assert(count_of(ms1, (x, y, (s2 + 10) as i64)) == count_of(ms, (x, y, (s2 + 10) as i64)) + if (x, y, (s2 + 10) as i64) == m {
            1nat
        } else {
            0nat
        });
    }
    let ghost rv = row@;
    if found {
        table.set(p, ((x, y), row));
        proof {
            lemma_cell_table_update(t0, ms, m, p as int, table@);
        }
    } else {
        table.insert(p, ((x, y), row));
        proof {
            lemma_cell_table_insert(t0, ms, m, p as int, table@);
        }
    }
}

/// No mark names a cell that a table has no entry for.
proof fn lemma_no_marks_on(t0: Seq<((usize, usize), Vec<u64>)>, ms: Seq<(usize, usize, i64)>, x: usize, y: usize, p: int)
    requires
        cell_table(t0, ms),
        0 <= p <= t0.len(),
        forall|q: int| 0 <= q < p ==> cell_lt(#[trigger] t0[q].0, (x, y)),
        p < t0.len() ==> !cell_lt(t0[p].0, (x, y)),
        !(p < t0.len() && t0[p].0 == (x, y)),
    ensures
        forall|s: i64| #[trigger] count_of(ms, (x, y, s)) == 0,
        forall|k: int| 0 <= k < ms.len() ==> !(#[trigger] ms[k].0 == x && ms[k].1 == y),
{
    reveal(cell_table);
    assert forall|k: int| 0 <= k < ms.len() implies !(#[trigger] ms[k].0 == x && ms[k].1 == y) by {
        if ms[k].0 == x && ms[k].1 == y {
            let i = choose|i: int| #![trigger t0[i]] 0 <= i < t0.len() && t0[i].0 == (ms[k].0, ms[k].1);
            if i < p {
                assert(cell_lt(t0[i].0, (x, y)));
            } else if i > p {
                assert(cell_lt(t0[p].0, t0[i].0));
            }
        }
    }
    assert forall|s: i64| #[trigger] count_of(ms, (x, y, s)) == 0 by {
        if count_of(ms, (x, y, s)) > 0 {
            lemma_count_pos3(ms, (x, y, s));
            let k = choose|k: int| 0 <= k < ms.len() && ms[k] == (x, y, s);
            assert(ms[k].0 == x && ms[k].1 == y);
        }
    }
}

proof fn lemma_cell_table_update(
    t0: Seq<((usize, usize), Vec<u64>)>,
    ms: Seq<(usize, usize, i64)>,
    m: (usize, usize, i64),
    p: int,
    t1: Seq<((usize, usize), Vec<u64>)>,
)
    requires
        cell_table(t0, ms),
        0 <= p < t0.len(),
        t0[p].0 == (m.0, m.1),
        t1.len() == t0.len(),
        t1[p].0 == (m.0, m.1),
        t1[p].1@.len() == 7,
        forall|s2: int| 0 <= s2 < 7 ==> #[trigger] t1[p].1@[s2] == count_of(ms.push(m), (m.0, m.1, (s2 + 10) as i64)),
        forall|i: int| 0 <= i < t1.len() && i != p ==> #[trigger] t1[i] == t0[i],
    ensures
        cell_table(t1, ms.push(m)),
{
    reveal(cell_table);
    let ms1 = ms.push(m);
    assert forall|k: int| 0 <= k < ms.len() implies #[trigger] ms1[k] == ms[k] by {}
    assert forall|i: int, j: int| 0 <= i < j < t1.len() implies cell_lt(#[trigger] t1[i].0, #[trigger] t1[j].0) by {
        assert(t1[i].0 == t0[i].0 && t1[j].0 == t0[j].0);
    }
    assert forall|i: int, s: int| 0 <= i < t1.len() && 0 <= s < 7 implies #[trigger] t1[i].1@[s] == count_of(ms1, (t1[i].0.0, t1[i].0.1, (s + 10) as i64)) by {
        if i != p {
            lemma_count_of_push(ms, m, (t1[i].0.0, t1[i].0.1, (s + 10) as i64));
            assert(t0[i].0 != t0[p].0) by {
                if i < p {
                    assert(cell_lt(t0[i].0, t0[p].0));
                } else {
                    assert(cell_lt(t0[p].0, t0[i].0));
                }
            }
        }
    }
    assert forall|i: int| #![trigger t1[i]] 0 <= i < t1.len() implies exists|k: int| #![trigger ms1[k]] 0 <= k < ms1.len() && ms1[k].0 == t1[i].0.0 && ms1[k].1 == t1[i].0.1 by {
        if i == p {
            assert(ms1[ms.len() as int] == m);
        } else {
            assert(t1[i] == t0[i]);
            let k = choose|k: int| #![trigger ms[k]] 0 <= k < ms.len() && ms[k].0 == t0[i].0.0 && ms[k].1 == t0[i].0.1;
            assert(ms1[k] == ms[k]);
        }
    }
    assert forall|k: int| #![trigger ms1[k]] 0 <= k < ms1.len() implies exists|i: int| #![trigger t1[i]] 0 <= i < t1.len() && t1[i].0 == (ms1[k].0, ms1[k].1) by {
        if k == ms.len() {
            assert(t1[p].0 == (ms1[k].0, ms1[k].1));
        } else {
            assert(ms1[k] == ms[k]);
            let i = choose|i: int| #![trigger t0[i]] 0 <= i < t0.len() && t0[i].0 == (ms[k].0, ms[k].1);
            if i == p {
                assert(t1[p].0 == t0[p].0);
            } else {
                assert(t1[i] == t0[i]);
            }
        }
    }
}

proof fn lemma_cell_table_insert(
    t0: Seq<((usize, usize), Vec<u64>)>,
    ms: Seq<(usize, usize, i64)>,
    m: (usize, usize, i64),
    p: int,
    t1: Seq<((usize, usize), Vec<u64>)>,
)
    requires
        cell_table(t0, ms),
        0 <= p <= t0.len(),
        forall|q: int| 0 <= q < p ==> cell_lt(#[trigger] t0[q].0, (m.0, m.1)),
        p < t0.len() ==> !cell_lt(t0[p].0, (m.0, m.1)) && t0[p].0 != (m.0, m.1),
        forall|k: int| 0 <= k < ms.len() ==> !(#[trigger] ms[k].0 == m.0 && ms[k].1 == m.1),
        t1.len() == t0.len() + 1,
        t1[p].0 == (m.0, m.1),
        t1[p].1@.len() == 7,
        forall|s2: int| 0 <= s2 < 7 ==> #[trigger] t1[p].1@[s2] == count_of(ms.push(m), (m.0, m.1, (s2 + 10) as i64)),
        forall|i: int| 0 <= i < p ==> #[trigger] t1[i] == t0[i],
        forall|i: int| p < i < t1.len() ==> #[trigger] t1[i] == t0[i - 1],
    ensures
        cell_table(t1, ms.push(m)),
{
    reveal(cell_table);
    let c = (m.0, m.1);
    if p < t0.len() {
        assert(cell_lt(c, t0[p].0));
    }
    lemma_insert_ascending(t0, c, p, t1);
    lemma_insert_counted(t0, ms, m, p, t1);
    lemma_insert_marked(t0, ms, m, p, t1);
}

proof fn lemma_insert_ascending(t0: Seq<((usize, usize), Vec<u64>)>, c: (usize, usize), p: int, t1: Seq<((usize, usize), Vec<u64>)>)
    requires
        cells_ascending(t0),
        0 <= p <= t0.len(),
        forall|q: int| 0 <= q < p ==> cell_lt(#[trigger] t0[q].0, c),
        p < t0.len() ==> cell_lt(c, t0[p].0),
        t1.len() == t0.len() + 1,
        t1[p].0 == c,
        forall|i: int| 0 <= i < p ==> #[trigger] t1[i] == t0[i],
        forall|i: int| p < i < t1.len() ==> #[trigger] t1[i] == t0[i - 1],
    ensures
        cells_ascending(t1),
{
    assert forall|i: int, j: int| 0 <= i < j < t1.len() implies cell_lt(#[trigger] t1[i].0, #[trigger] t1[j].0) by {
        if j < p {
            assert(t1[i] == t0[i] && t1[j] == t0[j]);
        } else if j == p {
            assert(t1[i] == t0[i]);
        } else if i == p {
            assert(t1[j] == t0[j - 1]);
            if j - 1 > p {
                assert(cell_lt(t0[p].0, t0[j - 1].0));
            }
        } else if i < p {
            assert(t1[i] == t0[i] && t1[j] == t0[j - 1]);
            if j - 1 > p {
                assert(cell_lt(t0[p].0, t0[j - 1].0));
            }
        } else {
            assert(t1[i] == t0[i - 1] && t1[j] == t0[j - 1]);
        }
    }
}

proof fn lemma_insert_counted(
    t0: Seq<((usize, usize), Vec<u64>)>,
    ms: Seq<(usize, usize, i64)>,
    m: (usize, usize, i64),
    p: int,
    t1: Seq<((usize, usize), Vec<u64>)>,
)
    requires
        cells_ascending(t0),
        cell_rows_counted(t0, ms),
        0 <= p <= t0.len(),
        forall|q: int| 0 <= q < p ==> cell_lt(#[trigger] t0[q].0, (m.0, m.1)),
        p < t0.len() ==> cell_lt((m.0, m.1), t0[p].0),
        t1.len() == t0.len() + 1,
        t1[p].0 == (m.0, m.1),
        t1[p].1@.len() == 7,
        forall|s2: int| 0 <= s2 < 7 ==> #[trigger] t1[p].1@[s2] == count_of(ms.push(m), (m.0, m.1, (s2 + 10) as i64)),
        forall|i: int| 0 <= i < p ==> #[trigger] t1[i] == t0[i],
        forall|i: int| p < i < t1.len() ==> #[trigger] t1[i] == t0[i - 1],
    ensures
        cell_rows_counted(t1, ms.push(m)),
{
    let ms1 = ms.push(m);
    let c = (m.0, m.1);
    assert forall|i: int| 0 <= i < t1.len() implies (#[trigger] t1[i]).1@.len() == 7 by {
        if i < p {
            assert(t1[i] == t0[i]);
        } else if i > p {
            assert(t1[i] == t0[i - 1]);
        }
    }
    assert forall|i: int, s: int| 0 <= i < t1.len() && 0 <= s < 7 implies #[trigger] t1[i].1@[s] == count_of(ms1, (t1[i].0.0, t1[i].0.1, (s + 10) as i64)) by {
        if i != p {
            let i0 = if i < p {
                i
            } else {
                i - 1
            };
            assert(t1[i] == t0[i0]);
            lemma_count_of_push(ms, m, (t1[i].0.0, t1[i].0.1, (s + 10) as i64));
            assert(t0[i0].0 != c) by {
                if i0 < p {
                    assert(cell_lt(t0[i0].0, c));
                } else {
                    if i0 > p {
                        assert(cell_lt(t0[p].0, t0[i0].0));
                    }
                }
            }
        }
    }
}

proof fn lemma_insert_marked(
    t0: Seq<((usize, usize), Vec<u64>)>,
    ms: Seq<(usize, usize, i64)>,
    m: (usize, usize, i64),
    p: int,
    t1: Seq<((usize, usize), Vec<u64>)>,
)
    requires
        cells_marked(t0, ms),
        0 <= p <= t0.len(),
        t1.len() == t0.len() + 1,
        t1[p].0 == (m.0, m.1),
        forall|i: int| 0 <= i < p ==> #[trigger] t1[i] == t0[i],
        forall|i: int| p < i < t1.len() ==> #[trigger] t1[i] == t0[i - 1],
    ensures
        cells_marked(t1, ms.push(m)),
{
    let ms1 = ms.push(m);
    assert forall|k: int| 0 <= k < ms.len() implies #[trigger] ms1[k] == ms[k] by {}
    assert forall|i: int| #![trigger t1[i]] 0 <= i < t1.len() implies exists|k: int| #![trigger ms1[k]] 0 <= k < ms1.len() && ms1[k].0 == t1[i].0.0 && ms1[k].1 == t1[i].0.1 by {
        if i == p {
            assert(ms1[ms.len() as int] == m);
        } else {
            let i0 = if i < p {
                i
            } else {
                i - 1
            };
            assert(t1[i] == t0[i0]);
            let k = choose|k: int| #![trigger ms[k]] 0 <= k < ms.len() && ms[k].0 == t0[i0].0.0 && ms[k].1 == t0[i0].0.1;
            assert(ms1[k] == ms[k]);
        }
    }
    assert forall|k: int| #![trigger ms1[k]] 0 <= k < ms1.len() implies exists|i: int| #![trigger t1[i]] 0 <= i < t1.len() && t1[i].0 == (ms1[k].0, ms1[k].1) by {
        if k == ms.len() {
            assert(t1[p].0 == (ms1[k].0, ms1[k].1));
        } else {
            assert(ms1[k] == ms[k]);
            let i = choose|i: int| #![trigger t0[i]] 0 <= i < t0.len() && t0[i].0 == (ms[k].0, ms[k].1);
            if i < p {
                assert(t1[i] == t0[i]);
            } else {
                assert(t1[i + 1] == t0[i]);
            }
        }
    }
}

proof fn lemma_count_pos3(s: Seq<(usize, usize, i64)>, x: (usize, usize, i64))
    requires
        count_of(s, x) > 0,
    ensures
        exists|k: int| 0 <= k < s.len() && s[k] == x,
    decreases s.len(),
{
    if s.len() > 0 {
        if s.last() == x {
            assert(s[s.len() - 1] == x);
        } else {
            lemma_count_pos3(s.drop_last(), x);
            let k = choose|k: int| 0 <= k < s.drop_last().len() && s.drop_last()[k] == x;
            assert(s[k] == x);
        }
    }
}

fn list_eq(xs: &Vec<Json>, ys: &Vec<Json>) -> (r: bool)
    ensures
        r == list_same(jv_list(xs@), jv_list(ys@)),
{
    proof {
        lemma_jv_list(xs@);
        lemma_jv_list(ys@);
    }
    if xs.len() != ys.len() {
        return false;
    }
    let mut i: usize = 0;
    while i < xs.len()
        invariant
            xs.len() == ys.len(),
            i <= xs.len(),
            jv_list(xs@).len() == xs@.len(),
            jv_list(ys@).len() == ys@.len(),
            forall|k: int| 0 <= k < xs@.len() ==> #[trigger] jv_list(xs@)[k] == jv(xs@[k]),
            forall|k: int| 0 <= k < ys@.len() ==> #[trigger] jv_list(ys@)[k] == jv(ys@[k]),
            forall|k: int| 0 <= k < i ==> json_same(jv(#[trigger] xs@[k]), jv(ys@[k])),
        decreases xs.len() - i,
    {
        if !json_eq(&xs[i], &ys[i]) {
            assert(!json_same(jv_list(xs@)[i as int], jv_list(ys@)[i as int]));
            return false;
        }
        i = i + 1;
    }
    assert forall|k: int| 0 <= k < jv_list(xs@).len() implies json_same(
        #[trigger] jv_list(xs@)[k],
        jv_list(ys@)[k],
    ) by {
        assert(json_same(jv(xs@[k]), jv(ys@[k])));
    }
    true
}

proof fn lemma_column_marks_mono(reels: Seq<JsonV>, payout: Option<Seq<JsonV>>, i: nat, n: nat)
    requires
        i <= n <= reels.len(),
    ensures
        column_marks(reels, payout, i).len() <= column_marks(reels, payout, n).len(),
    decreases n,
{
    if i < n {
        lemma_column_marks_mono(reels, payout, i, (n - 1) as nat);
    }
}

/// Marks the cells of one free spin.
#[verifier::rlimit(40)]
fn spin_cells(spin: &Json, table: &mut Vec<((usize, usize), Vec<u64>)>, Ghost(ms): Ghost<Seq<(usize, usize, i64)>>, Ghost(bound): Ghost<int>) -> (counted: bool)
    requires
        spin_readable(jv(*spin)),
        cell_table(old(table)@, ms),
        ms.len() + spin_marks(jv(*spin)).len() <= bound,
        bound <= u64::MAX,
    ensures
        cell_table(final(table)@, ms + spin_marks(jv(*spin))),
        counted == respin_reels_of(jv(*spin)) is Some,
{
    let ghost js = jv(*spin);
    if !is_text(get_key(Some(spin), "type"), "freeSpin") {
        assert(ms + spin_marks(js) =~= ms);
        return false;
    }
    let data = get_key(Some(spin), "spinData");
    let reels = match get_array(get_key(data, "reels")) {
        Some(r) => r,
        None => {
            assert(ms + spin_marks(js) =~= ms);
            return false;
        },
    };
    let payout = get_array(get_key(data, "reelsPayout"));
    proof {
        lemma_jv_list(reels@);
        match payout {
            Some(p) => lemma_jv_list(p@),
            None => {},
        }
    }
    let ghost rv = jv_list(reels@);
    let ghost pv = payout_reels_of(js);
    assert(respin_reels_of(js) == Some(rv));
    assert(spin_marks(js) == column_marks(rv, pv, rv.len()));
    let mut x: usize = 0;
    while x < reels.len()
        invariant
            rv == jv_list(reels@),
            rv.len() == reels@.len(),
            forall|j: int| 0 <= j < reels@.len() ==> #[trigger] rv[j] == jv(reels@[j]),
            pv == payout_reels_of(js),
            respin_reels_of(js) == Some(rv),
            spin_readable(js),
            match payout {
                Some(p) => pv == Some(jv_list(p@)),
                None => pv is None,
            },
            x <= reels.len(),
            ms.len() + column_marks(rv, pv, rv.len()).len() <= bound,
            bound <= u64::MAX,
            cell_table(table@, ms + column_marks(rv, pv, x as nat)),
        decreases reels.len() - x,
    {
        assert(rv[x as int] == jv(reels@[x as int]));
        proof {
            lemma_column_marks_mono(rv, pv, (x + 1) as nat, rv.len());
        }
        let ghost base = ms + column_marks(rv, pv, x as nat);
        match get_array(Some(&reels[x])) {
            Some(col) => {
                proof {
                    lemma_jv_list(col@);
                }
                let ghost cv = jv_list(col@);
                assert(as_list(Some(rv[x as int])) == Some(cv));
                if x == 2 {
                    let ghost piece = third_marks(cv, pv);
                    match payout {
                        Some(p) => {
                            proof {
                                lemma_jv_list(p@);
                            }
                            assert(jv_list(p@).len() >= 3);
                            assert(p@.len() >= 3);
                            assert(jv_list(p@)[2] == jv(p@[2]));
                            match get_array(Some(&p[2])) {
                                Some(b) => {
                                    proof {
                                        lemma_jv_list(b@);
                                    }
                                    let ghost bv = jv_list(b@);
                                    assert(as_list(Some(jv_list(p@)[2])) == Some(bv));
                                    if !list_eq(col, b) {
                                        assert(all_ints(cv) && all_ints(bv) && cv.len() >= bv.len());
                                        let mut y: usize = 0;
                                        while y < b.len()
                                            invariant
                                                cv == jv_list(col@),
                                                bv == jv_list(b@),
                                                cv.len() == col@.len(),
                                                bv.len() == b@.len(),
                                                forall|j: int| 0 <= j < col@.len() ==> #[trigger] cv[j] == jv(col@[j]),
                                                forall|j: int| 0 <= j < b@.len() ==> #[trigger] bv[j] == jv(b@[j]),
                                                all_ints(cv),
                                                all_ints(bv),
                                                cv.len() >= bv.len(),
                                                piece == third_marks(cv, pv),
                                                pv == Some(jv_list(p@)),
                                                as_list(Some(jv_list(p@)[2])) == Some(bv),
                                                !list_same(cv, bv),
                                                y <= b.len(),
                                                base.len() + piece.len() <= bound,
                                                bound <= u64::MAX,
                                                cell_table(table@, base + piece.take(y as int)),
                                            decreases b.len() - y,
                                        {
                                            assert(cv[y as int] == jv(col@[y as int]));
                                            assert(bv[y as int] == jv(b@[y as int]));
                                            assert(as_int(Some(cv[y as int])) is Some);
                                            assert(as_int(Some(bv[y as int])) is Some);
                                            let a = get_i64(Some(&col[y])).unwrap();
                                            let pb = get_i64(Some(&b[y])).unwrap();
                                            let sym = if a != pb {
                                                pb
                                            } else {
                                                16
                                            };
                                            assert(piece[y as int] == (2usize, y, sym));
                                            cell_add(table, 2, y, sym, Ghost(base + piece.take(y as int)));
                                            assert((base + piece.take(y as int)).push((2usize, y, sym)) =~= base + piece.take(y + 1));
                                            y = y + 1;
                                        }
                                        assert(piece.take(b.len() as int) =~= piece);
                                    } else {
                                        assert(piece =~= Seq::<(usize, usize, i64)>::empty());
                                        assert(base + piece =~= base);
                                    }
                                },
                                None => {
                                    assert(base + piece =~= base);
                                },
                            }
                        },
                        None => {
                            assert(base + piece =~= base);
                        },
                    }
                    assert(column_marks(rv, pv, (x + 1) as nat) == column_marks(rv, pv, x as nat) + piece);
                    assert(ms + column_marks(rv, pv, (x + 1) as nat) =~= base + piece);
                } else {
                    assert(cv.len() >= 6);
                    let mut k: usize = 0;
                    while k < 3
                        invariant
                            cv == jv_list(col@),
                            cv.len() == col@.len(),
                            cv.len() >= 6,
                            forall|j: int| 0 <= j < col@.len() ==> #[trigger] cv[j] == jv(col@[j]),
                            k <= 3,
                            base.len() + row_marks(cv, x as int, 3).len() <= bound,
                            bound <= u64::MAX,
                            cell_table(table@, base + row_marks(cv, x as int, k as nat)),
                        decreases 3 - k,
                    {
                        proof {
                            lemma_row_marks_mono(cv, x as int, (k + 1) as nat, 3);
                        }
                        assert(cv[3 + k] == jv(col@[3 + k]));
                        match get_i64(Some(&col[3 + k])) {
                            Some(sym) => {
                                cell_add(table, x, k, sym, Ghost(base + row_marks(cv, x as int, k as nat)));
                                assert((base + row_marks(cv, x as int, k as nat)).push((x, k, sym)) =~= base + row_marks(cv, x as int, (k + 1) as nat));
                            },
                            None => {
                                assert(base + row_marks(cv, x as int, k as nat) =~= base + row_marks(cv, x as int, (k + 1) as nat));
                            },
                        }
                        k = k + 1;
                    }
                    assert(column_marks(rv, pv, (x + 1) as nat) == column_marks(rv, pv, x as nat) + row_marks(cv, x as int, 3));
                    assert(ms + column_marks(rv, pv, (x + 1) as nat) =~= base + row_marks(cv, x as int, 3));
                }
            },
            None => {
                assert(ms + column_marks(rv, pv, (x + 1) as nat) =~= base);
            },
        }
        x = x + 1;
    }
    true
}

proof fn lemma_row_marks_mono(col: Seq<JsonV>, x: int, i: nat, n: nat)
    requires
        i <= n <= 3,
    ensures
        row_marks(col, x, i).len() <= row_marks(col, x, n).len(),
    decreases n,
{
    if i < n {
        lemma_row_marks_mono(col, x, i, (n - 1) as nat);
    }
}

proof fn lemma_respin_mono(ts: Seq<Json>, i: nat, n: nat)
    requires
        i <= n <= ts.len(),
    ensures
        respin_marks(ts, i).len() <= respin_marks(ts, n).len(),
        respin_count(ts, i) <= respin_count(ts, n),
    decreases n,
{
    if i < n {
        lemma_respin_mono(ts, i, (n - 1) as nat);
    }
}

proof fn lemma_spins_marks_mono(spins: Seq<JsonV>, i: nat, n: nat)
    requires
        i <= n <= spins.len(),
    ensures
        spins_marks(spins, i).len() <= spins_marks(spins, n).len(),
        spins_reels(spins, i) <= spins_reels(spins, n),
    decreases n,
{
    if i < n {
        lemma_spins_marks_mono(spins, i, (n - 1) as nat);
    }
}

/// The free spins with reels, and per cell marked by them, in ascending order of cell,
/// the marks of each symbol from 10 to 16.
pub struct RespinReels {
    pub total_count: u64,
    pub cells: Vec<((usize, usize), Vec<u64>)>,
}

/// Marks the cells of the free spins: rows 3 to 5 of every column but the third with the
/// symbol they show, and, where the third column differs from its payout column, each
/// payout row with the payout symbol where the two differ, else 16.
pub fn extract_respin_reels(transactions: &Vec<Json>) -> (r: RespinReels)
    requires
        forall|i: int| 0 <= i < transactions@.len() ==> respin_readable(#[trigger] jv(transactions@[i])),
        respin_marks(transactions@, transactions@.len()).len() <= u64::MAX,
        respin_count(transactions@, transactions@.len()) <= u64::MAX,
    ensures
        r.total_count == respin_count(transactions@, transactions@.len()),
        cell_table(r.cells@, respin_marks(transactions@, transactions@.len())),
{
    let ghost ts = transactions@;
    let ghost n = ts.len();
    let mut table: Vec<((usize, usize), Vec<u64>)> = Vec::new();
    assert(cell_table(table@, Seq::empty())) by {
        reveal(cell_table);
    }
    let mut total: u64 = 0;
    let mut i: usize = 0;
    while i < transactions.len()
        invariant
            ts == transactions@,
            n == ts.len(),
            forall|i: int| 0 <= i < ts.len() ==> respin_readable(#[trigger] jv(ts[i])),
            respin_marks(ts, n).len() <= u64::MAX,
            respin_count(ts, n) <= u64::MAX,
            i <= ts.len(),
            total == respin_count(ts, i as nat),
            cell_table(table@, respin_marks(ts, i as nat)),
        decreases ts.len() - i,
    {
        proof {
            lemma_respin_mono(ts, (i + 1) as nat, n);
        }
        assert(respin_readable(jv(ts[i as int])));
        let ghost spins = spin_list(jv(ts[i as int]));
        let ghost base = respin_marks(ts, i as nat);
        let ghost base_count = respin_count(ts, i as nat);
        match get_array(spins_exec(&transactions[i])) {
            Some(list) => {
                proof {
                    lemma_jv_list(list@);
                }
                assert(spins == jv_list(list@));
                let mut j: usize = 0;
                while j < list.len()
                    invariant
                        spins == jv_list(list@),
                        spins.len() == list@.len(),
                        forall|q: int| 0 <= q < list@.len() ==> #[trigger] spins[q] == jv(list@[q]),
                        forall|k: int| 0 <= k < spins.len() ==> spin_readable(#[trigger] spins[k]),
                        j <= list.len(),
                        base.len() + spins_marks(spins, spins.len()).len() <= u64::MAX,
                        base_count + spins_reels(spins, spins.len()) <= u64::MAX,
                        cell_table(table@, base + spins_marks(spins, j as nat)),
                        total == base_count + spins_reels(spins, j as nat),
                    decreases list.len() - j,
                {
                    assert(spins[j as int] == jv(list@[j as int]));
                    proof {
                        lemma_spins_marks_mono(spins, (j + 1) as nat, spins.len());
                    }
                    let ghost before = base + spins_marks(spins, j as nat);
                    let counted = spin_cells(&list[j], &mut table, Ghost(before), Ghost(u64::MAX as int));
                    assert(before + spin_marks(spins[j as int]) =~= base + spins_marks(spins, (j + 1) as nat));
                    if counted {
                        total = total + 1;
                    }
                    j = j + 1;
                }
            },
            None => {
                assert(spins == Seq::<JsonV>::empty());
            },
        }
        assert(respin_marks(ts, (i + 1) as nat) == base + spins_marks(spins, spins.len()));
        i = i + 1;
    }
    RespinReels { total_count: total, cells: table }
}

/// How many of the first `n` transactions are bonus spins with from `lo` up to, not
/// including, `hi` high symbols.
pub open spec fn bonus_spins_between(ts: Seq<Json>, lo: nat, hi: nat, n: nat) -> nat
    decreases n,
{
    if n == 0 || n > ts.len() {
        0
    } else {
        bonus_spins_between(ts, lo, hi, (n - 1) as nat) + if bonus_spin(jv(ts[n - 1])) && lo <= payout_high(
            jv(ts[n - 1]),
        ) < hi {
            1nat
        } else {
            0nat
        }
    }
}

/// The per-count tallies from `lo` up to `hi`, added up.
pub open spec fn tallies_between(ts: Seq<Json>, lo: nat, hi: nat, n: nat) -> nat
    decreases hi - lo,
{
    if hi <= lo {
        0
    } else {
        tallies_between(ts, lo, (hi - 1) as nat, n) + bonus_spins_with(ts, (hi - 1) as nat, n)
    }
}

proof fn lemma_between_split(ts: Seq<Json>, lo: nat, hi: nat, n: nat)
    requires
        lo <= hi,
    ensures
        bonus_spins_between(ts, lo, hi + 1, n) == bonus_spins_between(ts, lo, hi, n) + bonus_spins_with(ts, hi, n),
    decreases n,
{
    if n > 0 {
        lemma_between_split(ts, lo, hi, (n - 1) as nat);
    }
}

proof fn lemma_between_tallies(ts: Seq<Json>, lo: nat, hi: nat, n: nat)
    requires
        lo <= hi,
    ensures
        tallies_between(ts, lo, hi, n) == bonus_spins_between(ts, lo, hi, n),
    decreases hi - lo,
{
    if hi > lo {
        lemma_between_tallies(ts, lo, (hi - 1) as nat, n);
        lemma_between_split(ts, lo, (hi - 1) as nat, n);
    } else {
        lemma_between_empty(ts, lo, hi, n);
    }
}

proof fn lemma_between_empty(ts: Seq<Json>, lo: nat, hi: nat, n: nat)
    requires
        hi <= lo,
    ensures
        bonus_spins_between(ts, lo, hi, n) == 0,
    decreases n,
{
    if n > 0 {
        lemma_between_empty(ts, lo, hi, (n - 1) as nat);
    }
}

proof fn lemma_between_le(ts: Seq<Json>, lo: nat, hi: nat, n: nat)
    ensures
        bonus_spins_between(ts, lo, hi, n) <= bonus_spins(ts, n),
        bonus_spins(ts, n) <= n,
    decreases n,
{
    if n > 0 {
        lemma_between_le(ts, lo, hi, (n - 1) as nat);
    }
}

/// Every bonus spin lands in at most one tally: the tallies for 5 to 15 high symbols
/// add up to no more than the bonus spins, which are no more than the transactions.
pub proof fn law_over_bonus_tallies(ts: Seq<Json>, n: nat)
    ensures
        tallies_between(ts, 5, 16, n) <= bonus_spins(ts, n),
        bonus_spins(ts, n) <= n,
{
    lemma_between_tallies(ts, 5, 16, n);
    lemma_between_le(ts, 5, 16, n);
}

/// Whether every array among the columns has at least six rows (`columns_long`).
fn columns_long_exec(cols: &Vec<Json>) -> (r: bool)
    ensures
        r == columns_long(jv_list(cols@)),
{
    proof {
        lemma_jv_list(cols@);
    }
    let ghost v = jv_list(cols@);
    let mut c: usize = 0;
    while c < cols.len()
        invariant
            v == jv_list(cols@),
            v.len() == cols@.len(),
            forall|j: int| 0 <= j < cols@.len() ==> #[trigger] v[j] == jv(cols@[j]),
            c <= cols.len(),
            forall|j: int| 0 <= j < c ==> (as_list(Some(#[trigger] v[j])) matches Some(col) ==> col.len() >= 6),
        decreases cols.len() - c,
    {
        assert(v[c as int] == jv(cols@[c as int]));
        match get_array(Some(&cols[c])) {
            Some(col) => {
                proof {
                    lemma_jv_list(col@);
                }
                if col.len() < 6 {
                    assert(as_list(Some(v[c as int])) == Some(jv_list(col@)));
                    return false;
                }
            },
            None => {},
        }
        c = c + 1;
    }
    true
}

/// Whether a transaction can be read for the bonus count (`over_bonus_readable`).
pub fn over_bonus_readable_exec(t: &Json) -> (r: bool)
    ensures
        r == over_bonus_readable(jv(*t)),
{
    let null = Json::Null;
    let sd = first_spin_data_exec(t);
    let reels = match get_key(sd, "reels") {
        Some(x) => x,
        None => &null,
    };
    let payout_v = match get_key(sd, "reelsPayout") {
        Some(x) => x,
        None => &null,
    };
    if get_key(sd, "activator").is_some() && !json_eq(reels, payout_v) {
        match get_array(get_key(sd, "reelsPayout")) {
            Some(payout) => {
                return columns_long_exec(payout);
            },
            None => {},
        }
    }
    true
}

/// Whether the first spin's reels of a transaction have no short column (`reels_long`).
pub fn reels_long_exec(t: &Json) -> (r: bool)
    ensures
        r == reels_long(jv(*t)),
{
    match get_array(get_key(first_spin_data_exec(t), "reels")) {
        Some(cols) => columns_long_exec(cols),
        None => true,
    }
}

fn all_ints_exec(xs: &Vec<Json>) -> (r: bool)
    ensures
        r == all_ints(jv_list(xs@)),
{
    proof {
        lemma_jv_list(xs@);
    }
    let ghost v = jv_list(xs@);
    let mut k: usize = 0;
    while k < xs.len()
        invariant
            v == jv_list(xs@),
            v.len() == xs@.len(),
            forall|j: int| 0 <= j < xs@.len() ==> #[trigger] v[j] == jv(xs@[j]),
            k <= xs.len(),
            forall|j: int| 0 <= j < k ==> as_int(Some(#[trigger] v[j])) is Some,
        decreases xs.len() - k,
    {
        assert(v[k as int] == jv(xs@[k as int]));
        if get_i64(Some(&xs[k])).is_none() {
            return false;
        }
        k = k + 1;
    }
    true
}

/// Whether a free spin can be read (`spin_readable`).
fn spin_readable_exec(spin: &Json) -> (r: bool)
    ensures
        r == spin_readable(jv(*spin)),
{
    let ghost js = jv(*spin);
    if !is_text(get_key(Some(spin), "type"), "freeSpin") {
        return true;
    }
    let data = get_key(Some(spin), "spinData");
    let reels = match get_array(get_key(data, "reels")) {
        Some(r) => r,
        None => {
            return true;
        },
    };
    let payout = get_array(get_key(data, "reelsPayout"));
    proof {
        lemma_jv_list(reels@);
        match payout {
            Some(p) => lemma_jv_list(p@),
            None => {},
        }
    }
    let ghost rv = jv_list(reels@);
    assert(respin_reels_of(js) == Some(rv));
    let mut x: usize = 0;
    while x < reels.len()
        invariant
            rv == jv_list(reels@),
            rv.len() == reels@.len(),
            forall|j: int| 0 <= j < reels@.len() ==> #[trigger] rv[j] == jv(reels@[j]),
            respin_reels_of(js) == Some(rv),
            js == jv(*spin),
            match payout {
                Some(p) => payout_reels_of(js) == Some(jv_list(p@)),
                None => payout_reels_of(js) is None,
            },
            x <= reels.len(),
            forall|y: int|
                0 <= y < x ==> match as_list(Some(#[trigger] rv[y])) {
                    Some(col) => if y == 2 {
                        match payout_reels_of(js) {
                            Some(p) => p.len() >= 3 && match as_list(Some(p[2])) {
                                Some(b) => !list_same(col, b) ==> all_ints(col) && all_ints(b) && col.len() >= b.len(),
                                None => true,
                            },
                            None => true,
                        }
                    } else {
                        col.len() >= 6
                    },
                    None => true,
                },
        decreases reels.len() - x,
    {
        assert(rv[x as int] == jv(reels@[x as int]));
        match get_array(Some(&reels[x])) {
            Some(col) => {
                proof {
                    lemma_jv_list(col@);
                }
                assert(as_list(Some(rv[x as int])) == Some(jv_list(col@)));
                if x == 2 {
                    match payout {
                        Some(p) => {
                            proof {
                                lemma_jv_list(p@);
                            }
                            if p.len() < 3 {
                                assert(!spin_readable(js));
                                return false;
                            }
                            assert(jv_list(p@)[2] == jv(p@[2]));
                            match get_array(Some(&p[2])) {
                                Some(b) => {
                                    proof {
                                        lemma_jv_list(b@);
                                    }
                                    if !json_eq(&reels[x], &p[2]) {
                                        if !(all_ints_exec(col) && all_ints_exec(b) && col.len() >= b.len()) {
                                            return false;
                                        }
                                    }
                                },
                                None => {},
                            }
                        },
                        None => {},
                    }
                } else if col.len() < 6 {
                    return false;
                }
            },
            None => {},
        }
        x = x + 1;
    }
    true
}

/// Whether every free spin of a transaction can be read (`respin_readable`).
pub fn respin_readable_exec(t: &Json) -> (r: bool)
    ensures
        r == respin_readable(jv(*t)),
{
    match get_array(spins_exec(t)) {
        Some(spins) => {
            proof {
                lemma_jv_list(spins@);
            }
            let ghost sv = jv_list(spins@);
            assert(spin_list(jv(*t)) == sv);
            let mut k: usize = 0;
            while k < spins.len()
                invariant
                    sv == jv_list(spins@),
                    sv.len() == spins@.len(),
                    forall|j: int| 0 <= j < spins@.len() ==> #[trigger] sv[j] == jv(spins@[j]),
                    spin_list(jv(*t)) == sv,
                    k <= spins.len(),
                    forall|j: int| 0 <= j < k ==> spin_readable(#[trigger] sv[j]),
                decreases spins.len() - k,
            {
                assert(sv[k as int] == jv(spins@[k as int]));
                if !spin_readable_exec(&spins[k]) {
                    return false;
                }
                k = k + 1;
            }
            true
        },
        None => {
            assert(spin_list(jv(*t)) =~= Seq::<JsonV>::empty());
            true
        },
    }
}

/// The letter that names symbol `n` in the reel tables: 1 is `A`, 2 is `B`, and so on,
/// `n` taken as a byte.
pub fn symbol_letter(n: i64) -> (c: char)
    requires
        1 <= n as u8 <= 191,
    ensures
        c as int == 64 + n as u8,
{
    let b = n as u8;
    (65u8 + (b - 1)) as char
}


/// Only rows 3, 4 and 5 of a payout column decide its high symbols: two columns that
/// agree on those rows count alike, whatever the other rows hold.
pub proof fn law_high_rows_read_rows_three_to_five(col: Seq<JsonV>, other: Seq<JsonV>)
    requires
        col.len() >= 6,
        other.len() >= 6,
        other[3] == col[3],
        other[4] == col[4],
        other[5] == col[5],
    ensures
        high_rows(other) == high_rows(col),
        high_rows(col) <= 3,
{
}

/// Each of rows 3, 4 and 5 counts once when it holds an integer of 10 or more and not
/// at all when it holds a smaller integer.
pub proof fn law_high_row_counts_ten_and_more(col: Seq<JsonV>, r: int, high: i64, low: i64)
    requires
        col.len() >= 6,
        3 <= r <= 5,
        high >= 10,
        low < 10,
    ensures
        high_rows(col.update(r, JsonV::Int(high))) == high_rows(col.update(r, JsonV::Int(low))) + 1,
{
    let a = col.update(r, JsonV::Int(high));
    let b = col.update(r, JsonV::Int(low));
    assert(a[r] == JsonV::Int(high));
    assert(b[r] == JsonV::Int(low));
    assert forall|j: int| 3 <= j <= 5 && j != r implies a[j] == b[j] by {
        assert(a[j] == col[j]);
        assert(b[j] == col[j]);
    }
}


/// The combination a reel column shows is the three integers of its rows 3, 4 and 5, in
/// that order: a column whose three rows hold integers shows exactly them, and one that
/// shows a combination holds it there.
pub proof fn law_combo_is_rows_three_to_five(t: JsonV, c: int)
    ensures
        match as_list(get(first_spin_data(t), "reels"@)) {
            Some(cols) => if 0 <= c < cols.len() {
                match as_list(Some(cols[c])) {
                    Some(col) => match combo_at(t, c) {
                        Some(s) => s.len() == 3 && col[3] == JsonV::Int(s[0]) && col[4] == JsonV::Int(s[1])
                            && col[5] == JsonV::Int(s[2]),
                        None => !(col[3] is Int && col[4] is Int && col[5] is Int),
                    },
                    None => combo_at(t, c) is None,
                }
            } else {
                combo_at(t, c) is None
            },
            None => combo_at(t, c) is None,
        },
{
}

/// A column other than the third marks its rows 3, 4 and 5 as cells 0, 1 and 2 of that
/// column, each with the integer it holds, and skips a row that holds no integer.
pub proof fn law_row_marks_read_rows_three_to_five(col: Seq<JsonV>, x: int, a: i64, b: i64, d: i64)
    requires
        col.len() >= 6,
        0 <= x < 5,
        col[3] == JsonV::Int(a),
        col[4] == JsonV::Int(b),
        col[5] == JsonV::Int(d),
    ensures
        row_marks(col, x, 3) == seq![(x as usize, 0usize, a), (x as usize, 1usize, b), (x as usize, 2usize, d)],
        row_marks(col.update(4, JsonV::Null), x, 3) == seq![(x as usize, 0usize, a), (x as usize, 2usize, d)],
{
    let c2 = col.update(4, JsonV::Null);
    assert(c2[3] == col[3] && c2[5] == col[5]);
    assert(row_marks(col, x, 3) =~= seq![(x as usize, 0usize, a), (x as usize, 1usize, b), (x as usize, 2usize, d)]) by {
        reveal_with_fuel(row_marks, 4);
    }
    assert(row_marks(c2, x, 3) =~= seq![(x as usize, 0usize, a), (x as usize, 2usize, d)]) by {
        reveal_with_fuel(row_marks, 4);
    }
}

/// A cash tile gives a coin multiplier only as tile 11, and then the one its
/// `features.multiplier.from` holds.
pub proof fn law_coin_multiplier_of_tile_eleven(tile: JsonV)
    ensures
        tile_mult(tile) is Some ==> get(Some(tile), "tileId"@) == Some(JsonV::Int(11i64)),
        get(Some(tile), "tileId"@) == Some(JsonV::Int(11i64)) ==> tile_mult(tile) == as_int(
            get(get(get(Some(tile), "features"@), "multiplier"@), "from"@),
        ),
{
}


/// A free spin counts all its cash tiles for the spin coin table; for the respin coin
/// table only when one of them is a coin tile (tile 11), and none otherwise.
pub proof fn law_tiles_counted(spin: JsonV)
    ensures
        free_spin_tiles(spin) matches Some(tl) ==> spin_tiles(spin, false) == tl.len(),
        free_spin_tiles(spin) matches Some(tl) ==> (spin_tiles(spin, true) == if exists|k: int|
            0 <= k < tl.len() && get(Some(#[trigger] tl[k]), "tileId"@) == Some(JsonV::Int(11i64)) {
            tl.len()
        } else {
            0
        }),
        free_spin_tiles(spin) is None ==> spin_tiles(spin, false) == 0 && spin_tiles(spin, true) == 0,
{
    match free_spin_tiles(spin) {
        Some(tl) => {
            if exists|k: int| 0 <= k < tl.len() && get(Some(#[trigger] tl[k]), "tileId"@) == Some(JsonV::Int(11i64)) {
                let k = choose|k: int| 0 <= k < tl.len() && get(Some(#[trigger] tl[k]), "tileId"@) == Some(JsonV::Int(11i64));
                assert(as_int(get(Some(tl[k]), "tileId"@)) == Some(11i64));
            }
            if has_coin_tile(tl) {
                let k = choose|k: int| 0 <= k < tl.len() && as_int(get(Some(#[trigger] tl[k]), "tileId"@)) == Some(11i64);
                assert(get(Some(tl[k]), "tileId"@) == Some(JsonV::Int(11i64)));
            }
        },
        None => {},
    }
}

/// On the third reel a free spin marks every row of its payout column, when that column
/// differs from the reel's: the payout symbol where the two rows differ, 16 where they
/// agree; a third reel equal to its payout column marks nothing.
pub proof fn law_third_reel_marks(col: Seq<JsonV>, p: Seq<JsonV>, y: int)
    requires
        p.len() > 2,
        as_list(Some(p[2])) matches Some(b) && 0 <= y < b.len(),
    ensures
        ({
            let b = as_list(Some(p[2]))->0;
            let ms = third_marks(col, Some(p));
            &&& list_same(col, b) ==> ms.len() == 0
            &&& !list_same(col, b) ==> ms.len() == b.len() && ms[y].0 == 2usize && ms[y].1 == y as usize && ms[y].2 == if as_int(
                Some(col[y]),
            ) != as_int(Some(b[y])) {
                as_int(Some(b[y]))->0
            } else {
                16i64
            }
        }),
{
}

} // verus!


