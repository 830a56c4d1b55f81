use vstd::prelude::*;
use vstd::string::*;

use crate::json::{
    JsonV, Json, as_list, as_text, get, get_array, get_key, get_str, is_text, jv, str_eq,
};

verus! {

/// The events of a round: `out.round.events`.
pub open spec fn events_of(t: JsonV) -> Seq<JsonV> {
    match as_list(get(get(get(Some(t), "out"@), "round"@), "events"@)) {
        Some(es) => es,
        None => Seq::empty(),
    }
}

/// The name of an event: `etn`.
pub open spec fn event_name(e: JsonV) -> Option<Seq<char>> {
    as_text(get(Some(e), "etn"@))
}

/// The grid text of an event: `c.grid`.
pub open spec fn event_grid(e: JsonV) -> Option<Seq<char>> {
    as_text(get(get(Some(e), "c"@), "grid"@))
}

/// The cells of a grid text: everything after its two leading characters.
pub open spec fn cells(g: Seq<char>) -> Seq<char> {
    if g.len() <= 2 {
        Seq::empty()
    } else {
        g.subrange(2, g.len() as int)
    }
}

/// What a round holds for the statistics: grids, and the free-spin step that a
/// cash win moves to.
pub enum Item {
    Grid(Vec<char>),
    Step(u64),
}

pub enum ItemV {
    Grid(Seq<char>),
    Step(u64),
}

pub open spec fn item_v(i: Item) -> ItemV {
    match i {
        Item::Grid(g) => ItemV::Grid(g@),
        Item::Step(n) => ItemV::Step(n),
    }
}

pub open spec fn items_v(s: Seq<Item>) -> Seq<ItemV> {
    Seq::new(s.len(), |k: int| item_v(s[k]))
}

pub open spec fn rounds_v(s: Seq<Vec<Item>>) -> Seq<Seq<ItemV>> {
    Seq::new(s.len(), |k: int| items_v(s[k]@))
}

/// Whether an event name is `pat`, or starts with it when `prefix` holds.
pub open spec fn name_matches(n: Option<Seq<char>>, pat: Seq<char>, prefix: bool) -> bool {
    match n {
        Some(s) => if prefix {
            s.len() >= pat.len() && s.subrange(0, pat.len() as int) == pat
        } else {
            s == pat
        },
        None => false,
    }
}

/// The actions of an event: `c.actions`.
pub open spec fn event_actions(e: JsonV) -> Seq<JsonV> {
    match as_list(get(get(Some(e), "c"@), "actions"@)) {
        Some(xs) => xs,
        None => Seq::empty(),
    }
}

/// The step a cash-win action moves to: the number of `1` in its `data.h`.
pub open spec fn action_step(a: JsonV) -> Option<nat> {
    if as_text(get(Some(a), "at"@)) == Some("cashWin"@) {
        match as_text(get(get(Some(a), "data"@), "h"@)) {
            Some(h) => Some(crate::seqs::count_of(h, '1')),
            None => None,
        }
    } else {
        None
    }
}

/// The steps announced by the first `n` actions.
pub open spec fn action_steps(xs: Seq<JsonV>, n: nat) -> Seq<ItemV>
    decreases n,
{
    if n == 0 || n > xs.len() {
        Seq::empty()
    } else {
        let prev = action_steps(xs, (n - 1) as nat);
        match action_step(xs[n - 1]) {
            Some(k) => prev.push(ItemV::Step(k as u64)),
            None => prev,
        }
    }
}

/// The items of one event: its grid cells when its name matches `pat`, then, when
/// `steps` holds and its name starts with `fs_coin_reveal_`, the steps of its actions.
pub open spec fn event_items(e: JsonV, pat: Seq<char>, prefix: bool, steps: bool) -> Seq<ItemV> {
    let g = if name_matches(event_name(e), pat, prefix) && event_grid(e) is Some {
        seq![ItemV::Grid(cells(event_grid(e)->0))]
    } else {
        Seq::empty()
    };
    if steps && name_matches(event_name(e), "fs_coin_reveal_"@, true) {
        g + action_steps(event_actions(e), event_actions(e).len())
    } else {
        g
    }
}

/// The items of the first `n` events.
pub open spec fn events_items(es: Seq<JsonV>, pat: Seq<char>, prefix: bool, steps: bool, n: nat) -> Seq<ItemV>
    decreases n,
{
    if n == 0 || n > es.len() {
        Seq::empty()
    } else {
        events_items(es, pat, prefix, steps, (n - 1) as nat) + event_items(es[n - 1], pat, prefix, steps)
    }
}

/// The items of a round.
pub open spec fn round_items(t: JsonV, pat: Seq<char>, prefix: bool, steps: bool) -> Seq<ItemV> {
    let es = events_of(t);
    events_items(es, pat, prefix, steps, es.len())
}

/// The items of every round, one list per transaction.
pub open spec fn rounds_items(ts: Seq<Json>, pat: Seq<char>, prefix: bool, steps: bool) -> Seq<Seq<ItemV>> {
    Seq::new(ts.len(), |k: int| round_items(jv(ts[k]), pat, prefix, steps))
}

fn starts_with_str(s: &str, p: &str) -> (r: bool)
    ensures
        r == (s@.len() >= p@.len() && s@.subrange(0, p@.len() as int) == p@),
{
    let n = s.unicode_len();
    let m = p.unicode_len();
    if n < m {
        return false;
    }
    let mut i: usize = 0;
    while i < m
        invariant
            n == s@.len(),
            m == p@.len(),
            m <= n,
            i <= m,
            forall|j: int| 0 <= j < i ==> s@[j] == p@[j],
        decreases m - i,
    {
        if s.get_char(i) != p.get_char(i) {
            assert(s@.subrange(0, m as int)[i as int] != p@[i as int]);
            return false;
        }
        i = i + 1;
    }
    assert(s@.subrange(0, m as int) =~= p@);
    true
}

fn name_matches_exec(e: &Json, pat: &str, prefix: bool) -> (r: bool)
    ensures
        r == name_matches(event_name(jv(*e)), pat@, prefix),
{
    match get_str(get_key(Some(e), "etn")) {
        Some(n) => if prefix {
            starts_with_str(n.as_str(), pat)
        } else {
            str_eq(n.as_str(), pat)
        },
        None => false,
    }
}

fn grid_cells(g: &String) -> (r: Vec<char>)
    ensures
        r@ == cells(g@),
{
    let s = g.as_str();
    let n = s.unicode_len();
    let mut r: Vec<char> = Vec::new();
    if n <= 2 {
        return r;
    }
    let mut i: usize = 2;
    while i < n
        invariant
            n == s@.len(),
            s@ == g@,
            2 <= i <= n,
            r@ == g@.subrange(2, i as int),
        decreases n - i,
    {
        r.push(s.get_char(i));
        assert(r@ =~= g@.subrange(2, i + 1));
        i = i + 1;
    }
    r
}

fn count_char_str(h: &String, c: char) -> (r: u64)
    ensures
        r == crate::seqs::count_of(h@, c),
{
    let s = h.as_str();
    let n = s.unicode_len();
    let mut k: u64 = 0;
    let mut i: usize = 0;
    while i < n
        invariant
            n == s@.len(),
            s@ == h@,
            i <= n,
            k == crate::seqs::count_of(h@.take(i as int), c),
            k <= i,
        decreases n - i,
    {
        proof {
            crate::seqs::lemma_count_of_take(h@, i as int, c);
        }
        if s.get_char(i) == c {
            k = k + 1;
        }
        i = i + 1;
    }
    assert(h@.take(n as int) =~= h@);
    k
}

fn action_step_exec(a: &Json) -> (r: Option<u64>)
    ensures
        match action_step(jv(*a)) {
            Some(k) => r == Some(k as u64),
            None => r is None,
        },
{
    if is_text(get_key(Some(a), "at"), "cashWin") {
        match get_str(get_key(get_key(Some(a), "data"), "h")) {
            Some(h) => Some(count_char_str(h, '1')),
            None => None,
        }
    } else {
        None
    }
}

fn event_items_exec(e: &Json, pat: &str, prefix: bool, steps: bool, out: &mut Vec<Item>)
    ensures
        items_v(final(out)@) == items_v(old(out)@) + event_items(jv(*e), pat@, prefix, steps),
{
    let ghost start = items_v(out@);
    let named = name_matches_exec(e, pat, prefix);
    let grid = get_str(get_key(get_key(Some(e), "c"), "grid"));
    let ghost g = if name_matches(event_name(jv(*e)), pat@, prefix) && event_grid(jv(*e)) is Some {
        seq![ItemV::Grid(cells(event_grid(jv(*e))->0))]
    } else {
        Seq::empty()
    };
    if named {
        match grid {
            Some(gs) => {
                out.push(Item::Grid(grid_cells(gs)));
                assert(items_v(out@) =~= start + g);
            },
            None => {
                assert(items_v(out@) =~= start + g);
            },
        }
    } else {
        assert(items_v(out@) =~= start + g);
    }
    if steps && name_matches_exec(e, "fs_coin_reveal_", true) {
        let ghost mid = items_v(out@);
        match get_array(get_key(get_key(Some(e), "c"), "actions")) {
            Some(xs) => {
                proof {
                    crate::json::lemma_jv_list(xs@);
                }
                let ghost xv = crate::json::jv_list(xs@);
                let mut i: usize = 0;
                while i < xs.len()
                    invariant
                        i <= xs.len(),
                        xv == crate::json::jv_list(xs@),
                        xv.len() == xs.len(),
                        forall|k: int| 0 <= k < xs.len() ==> #[trigger] xv[k] == jv(xs@[k]),
                        items_v(out@) == mid + action_steps(xv, i as nat),
                    decreases xs.len() - i,
                {
                    match action_step_exec(&xs[i]) {
                        Some(k) => {
                            let ghost pre = items_v(out@);
                            out.push(Item::Step(k));
                            assert(items_v(out@) =~= pre.push(ItemV::Step(k)));
                        },
                        None => {},
                    }
                    i = i + 1;
                }
                assert(event_actions(jv(*e)) == xv);
                assert(items_v(out@) =~= start + event_items(jv(*e), pat@, prefix, steps));
            },
            None => {
                assert(event_actions(jv(*e)) =~= Seq::<JsonV>::empty());
                assert(items_v(out@) =~= start + event_items(jv(*e), pat@, prefix, steps));
            },
        }
    }
}

/// The statistic items of every round, one list per transaction.
pub fn collect_rounds(ts: &Vec<Json>, pat: &str, prefix: bool, steps: bool) -> (r: Vec<Vec<Item>>)
    ensures
        rounds_v(r@) == rounds_items(ts@, pat@, prefix, steps),
{
    let mut r: Vec<Vec<Item>> = Vec::new();
    let mut i: usize = 0;
    while i < ts.len()
        invariant
            i <= ts.len(),
            r.len() == i,
            forall|k: int| 0 <= k < i ==> #[trigger] items_v(r@[k]@) == round_items(jv(ts@[k]), pat@, prefix, steps),
        decreases ts.len() - i,
    {
        let mut items: Vec<Item> = Vec::new();
        match events(&ts[i]) {
            Some(es) => {
                proof {
                    crate::json::lemma_jv_list(es@);
                }
                let ghost ev = crate::json::jv_list(es@);
                let mut j: usize = 0;
                while j < es.len()
                    invariant
                        j <= es.len(),
                        ev == crate::json::jv_list(es@),
                        ev.len() == es.len(),
                        forall|k: int| 0 <= k < es.len() ==> #[trigger] ev[k] == jv(es@[k]),
                        items_v(items@) == events_items(ev, pat@, prefix, steps, j as nat),
                    decreases es.len() - j,
                {
                    event_items_exec(&es[j], pat, prefix, steps, &mut items);
                    j = j + 1;
                }
                assert(events_of(jv(ts@[i as int])) == ev);
            },
            None => {
                assert(events_of(jv(ts@[i as int])) =~= Seq::<JsonV>::empty());
                assert(items_v(items@) =~= Seq::<ItemV>::empty());
            },
        }
        r.push(items);
        i = i + 1;
    }
    assert(rounds_v(r@) =~= rounds_items(ts@, pat@, prefix, steps));
    r
}

fn events<'a>(t: &'a Json) -> (r: Option<&'a Vec<Json>>)
    ensures
        match r {
            Some(es) => as_list(get(get(get(Some(jv(*t)), "out"@), "round"@), "events"@)) == Some(crate::json::jv_list(es@)),
            None => as_list(get(get(get(Some(jv(*t)), "out"@), "round"@), "events"@)) is None,
        },
{
    get_array(get_key(get_key(get_key(Some(t), "out"), "round"), "events"))
}


/// The size of an item: one, plus the cells of a grid.
pub open spec fn item_weight(i: ItemV) -> nat {
    match i {
        ItemV::Grid(g) => 1 + g.len(),
        ItemV::Step(_) => 1,
    }
}

pub open spec fn round_weight(r: Seq<ItemV>) -> nat
    decreases r.len(),
{
    if r.len() == 0 {
        0
    } else {
        round_weight(r.drop_last()) + item_weight(r.last())
    }
}

pub open spec fn rounds_weight(rs: Seq<Seq<ItemV>>) -> nat
    decreases rs.len(),
{
    if rs.len() == 0 {
        0
    } else {
        rounds_weight(rs.drop_last()) + round_weight(rs.last())
    }
}

proof fn lemma_round_weight_mono(r: Seq<ItemV>, j: int)
    requires
        0 <= j < r.len(),
    ensures
        round_weight(r.take(j)) + item_weight(r[j]) == round_weight(r.take(j + 1)),
        round_weight(r.take(j + 1)) <= round_weight(r),
    decreases r.len() - j,
{
    assert(r.take(j + 1).drop_last() =~= r.take(j));
    if j + 1 < r.len() {
        lemma_round_weight_mono(r, j + 1);
    } else {
        assert(r.take(j + 1) =~= r);
    }
}

proof fn lemma_rounds_weight_mono(rs: Seq<Seq<ItemV>>, i: int)
    requires
        0 <= i < rs.len(),
    ensures
        rounds_weight(rs.take(i)) + round_weight(rs[i]) == rounds_weight(rs.take(i + 1)),
        rounds_weight(rs.take(i + 1)) <= rounds_weight(rs),
    decreases rs.len() - i,
{
    assert(rs.take(i + 1).drop_last() =~= rs.take(i));
    if i + 1 < rs.len() {
        lemma_rounds_weight_mono(rs, i + 1);
    } else {
        assert(rs.take(i + 1) =~= rs);
    }
}

/// The number of grids among the items.
pub open spec fn grids_in(r: Seq<ItemV>) -> nat
    decreases r.len(),
{
    if r.len() == 0 {
        0
    } else {
        grids_in(r.drop_last()) + if r.last() is Grid {
            1nat
        } else {
            0nat
        }
    }
}

/// How often `c` shows in the grids among the items.
pub open spec fn char_in(r: Seq<ItemV>, c: char) -> nat
    decreases r.len(),
{
    if r.len() == 0 {
        0
    } else {
        char_in(r.drop_last(), c) + match r.last() {
            ItemV::Grid(g) => crate::seqs::count_of(g, c),
            ItemV::Step(_) => 0nat,
        }
    }
}

pub open spec fn grids_total(rs: Seq<Seq<ItemV>>) -> nat
    decreases rs.len(),
{
    if rs.len() == 0 {
        0
    } else {
        grids_total(rs.drop_last()) + grids_in(rs.last())
    }
}

pub open spec fn char_total(rs: Seq<Seq<ItemV>>, c: char) -> nat
    decreases rs.len(),
{
    if rs.len() == 0 {
        0
    } else {
        char_total(rs.drop_last(), c) + char_in(rs.last(), c)
    }
}

proof fn lemma_count_le_len<T>(s: Seq<T>, x: T)
    ensures
        crate::seqs::count_of(s, x) <= s.len(),
    decreases s.len(),
{
    if s.len() > 0 {
        lemma_count_le_len(s.drop_last(), x);
    }
}

proof fn lemma_char_le_weight(r: Seq<ItemV>, c: char)
    ensures
        grids_in(r) + char_in(r, c) <= round_weight(r),
    decreases r.len(),
{
    if r.len() > 0 {
        lemma_char_le_weight(r.drop_last(), c);
        match r.last() {
            ItemV::Grid(g) => lemma_count_le_len(g, c),
            ItemV::Step(_) => {},
        }
    }
}

proof fn lemma_chars_le_weight(rs: Seq<Seq<ItemV>>, c: char)
    ensures
        grids_total(rs) + char_total(rs, c) <= rounds_weight(rs),
    decreases rs.len(),
{
    if rs.len() > 0 {
        lemma_chars_le_weight(rs.drop_last(), c);
        lemma_char_le_weight(rs.last(), c);
    }
}

fn count_char_cells(g: &Vec<char>, c: char) -> (r: u64)
    ensures
        r == crate::seqs::count_of(g@, c),
{
    let mut k: u64 = 0;
    let mut i: usize = 0;
    while i < g.len()
        invariant
            i <= g.len(),
            k == crate::seqs::count_of(g@.take(i as int), c),
            k <= i,
        decreases g.len() - i,
    {
        proof {
            crate::seqs::lemma_count_of_take(g@, i as int, c);
        }
        if g[i] == c {
            k = k + 1;
        }
        i = i + 1;
    }
    assert(g@.take(g.len() as int) =~= g@);
    k
}

/// The number of grids, and how often one character shows in them.
pub struct GridCount {
    pub grids_count: u64,
    pub count: u64,
}

/// Counts the grids of the rounds and the cells holding `c`.
pub fn count_char_in_rounds(rounds: &Vec<Vec<Item>>, c: char) -> (r: GridCount)
    requires
        rounds_weight(rounds_v(rounds@)) <= u64::MAX,
    ensures
        r.grids_count == grids_total(rounds_v(rounds@)),
        r.count == char_total(rounds_v(rounds@), c),
{
    let ghost rs = rounds_v(rounds@);
    let mut grids: u64 = 0;
    let mut total: u64 = 0;
    let mut i: usize = 0;
    while i < rounds.len()
        invariant
            rs == rounds_v(rounds@),
            rounds_weight(rs) <= u64::MAX,
            i <= rounds.len(),
            grids == grids_total(rs.take(i as int)),
            total == char_total(rs.take(i as int), c),
        decreases rounds.len() - i,
    {
        let items = &rounds[i];
        let ghost r = rs[i as int];
        assert(r == items_v(items@));
        proof {
            lemma_rounds_weight_mono(rs, i as int);
            lemma_chars_le_weight(rs.take(i + 1), c);
            assert(rs.take(i + 1).drop_last() =~= rs.take(i as int));
        }
        let mut j: usize = 0;
        let mut g: u64 = 0;
        let mut t: u64 = 0;
        while j < items.len()
            invariant
                r == items_v(items@),
                j <= items.len(),
                g == grids_in(r.take(j as int)),
                t == char_in(r.take(j as int), c),
                grids + g + t <= grids_total(rs.take(i + 1)) + char_total(rs.take(i + 1), c),
                grids_total(rs.take(i + 1)) == grids_total(rs.take(i as int)) + grids_in(r),
                char_total(rs.take(i + 1), c) == char_total(rs.take(i as int), c) + char_in(r, c),
                grids_total(rs.take(i + 1)) + char_total(rs.take(i + 1), c) <= u64::MAX,
                grids == grids_total(rs.take(i as int)),
                total == char_total(rs.take(i as int), c),
            decreases items.len() - j,
        {
            assert(r.take(j + 1).drop_last() =~= r.take(j as int));
            proof {
                lemma_char_le_weight(r.take(j + 1), c);
                lemma_prefix_le(r, j + 1, c);
            }
            match &items[j] {
                Item::Grid(cells) => {
                    g = g + 1;
                    t = t + count_char_cells(cells, c);
                },
                Item::Step(_) => {},
            }
            j = j + 1;
        }
        assert(r.take(items.len() as int) =~= r);
        grids = grids + g;
        total = total + t;
        i = i + 1;
    }
    assert(rs.take(rounds.len() as int) =~= rs);
    GridCount { grids_count: grids, count: total }
}

proof fn lemma_prefix_le(r: Seq<ItemV>, n: int, c: char)
    requires
        0 <= n <= r.len(),
    ensures
        grids_in(r.take(n)) <= grids_in(r),
        char_in(r.take(n), c) <= char_in(r, c),
    decreases r.len() - n,
{
    if n < r.len() {
        lemma_prefix_le(r, n + 1, c);
        assert(r.take(n + 1).drop_last() =~= r.take(n));
    } else {
        assert(r.take(n) =~= r);
    }
}


/// Counts the `reveal` grids of the spins and their empty coin cells `(`.
pub fn extract_spin_coin_cell(transactions: &Vec<Json>) -> (r: GridCount)
    requires
        rounds_weight(rounds_items(transactions@, "reveal"@, false, false)) <= u64::MAX,
    ensures
        r.grids_count == grids_total(rounds_items(transactions@, "reveal"@, false, false)),
        r.count == char_total(rounds_items(transactions@, "reveal"@, false, false), '('),
{
    let rounds = collect_rounds(transactions, "reveal", false, false);
    count_char_in_rounds(&rounds, '(')
}

/// Counts the `reveal` grids of the spins and their bonus cells `3`.
pub fn extract_spin_bonus(transactions: &Vec<Json>) -> (r: GridCount)
    requires
        rounds_weight(rounds_items(transactions@, "reveal"@, false, false)) <= u64::MAX,
    ensures
        r.grids_count == grids_total(rounds_items(transactions@, "reveal"@, false, false)),
        r.count == char_total(rounds_items(transactions@, "reveal"@, false, false), '3'),
{
    let rounds = collect_rounds(transactions, "reveal", false, false);
    count_char_in_rounds(&rounds, '3')
}

/// Bit `b` of the coin mask of line `line`: whether cell `line + 5 b` holds something
/// other than an empty coin.
pub open spec fn mask_bit(g: Seq<char>, line: int, b: int, weight: int) -> int {
    if g[line + 5 * b] != '(' {
        weight
    } else {
        0
    }
}

/// The coin mask of a line of a grid.
pub open spec fn line_mask(g: Seq<char>, line: int) -> int {
    mask_bit(g, line, 0, 1) + mask_bit(g, line, 1, 2) + mask_bit(g, line, 2, 4) + mask_bit(
        g,
        line,
        3,
        8,
    ) + mask_bit(g, line, 4, 16)
}

/// How many grids among the items have mask `m` on line `line`.
pub open spec fn mask_in(r: Seq<ItemV>, line: int, m: int) -> nat
    decreases r.len(),
{
    if r.len() == 0 {
        0
    } else {
        mask_in(r.drop_last(), line, m) + match r.last() {
            ItemV::Grid(g) => if line_mask(g, line) == m {
                1nat
            } else {
                0nat
            },
            ItemV::Step(_) => 0nat,
        }
    }
}

pub open spec fn mask_total(rs: Seq<Seq<ItemV>>, line: int, m: int) -> nat
    decreases rs.len(),
{
    if rs.len() == 0 {
        0
    } else {
        mask_total(rs.drop_last(), line, m) + mask_in(rs.last(), line, m)
    }
}

/// Whether every grid among the items has at least 25 cells.
pub open spec fn full_grids(rs: Seq<Seq<ItemV>>) -> bool {
    forall|i: int, j: int|
        0 <= i < rs.len() && 0 <= j < rs[i].len() ==> (#[trigger] rs[i][j] matches ItemV::Grid(g)
            ==> g.len() >= 25)
}

/// The number of grids, and for each of the five lines how many grids show each of the
/// 32 coin masks.
pub struct LineCoins {
    pub grids_count: u64,
    pub combos: Vec<Vec<u64>>,
}

proof fn lemma_mask_le_grids(r: Seq<ItemV>, line: int, m: int)
    ensures
        mask_in(r, line, m) <= grids_in(r),
    decreases r.len(),
{
    if r.len() > 0 {
        lemma_mask_le_grids(r.drop_last(), line, m);
    }
}

proof fn lemma_masks_le_grids(rs: Seq<Seq<ItemV>>, line: int, m: int)
    ensures
        mask_total(rs, line, m) <= grids_total(rs),
    decreases rs.len(),
{
    if rs.len() > 0 {
        lemma_masks_le_grids(rs.drop_last(), line, m);
        lemma_mask_le_grids(rs.last(), line, m);
    }
}

fn line_mask_exec(g: &Vec<char>, line: usize) -> (r: usize)
    requires
        g.len() >= 25,
        line < 5,
    ensures
        r == line_mask(g@, line as int),
        r < 32,
{
    let mut m: usize = 0;
    if g[line] != '(' {
        m = m + 1;
    }
    if g[line + 5] != '(' {
        m = m + 2;
    }
    if g[line + 10] != '(' {
        m = m + 4;
    }
    if g[line + 15] != '(' {
        m = m + 8;
    }
    if g[line + 20] != '(' {
        m = m + 16;
    }
    m
}

/// Counts, per line and coin mask, the grids of the rounds.
pub fn count_line_masks(rounds: &Vec<Vec<Item>>) -> (r: LineCoins)
    requires
        rounds_weight(rounds_v(rounds@)) <= u64::MAX,
        full_grids(rounds_v(rounds@)),
    ensures
        r.grids_count == grids_total(rounds_v(rounds@)),
        r.combos@.len() == 5,
        forall|l: int| 0 <= l < 5 ==> #[trigger] r.combos@[l]@.len() == 32,
        forall|l: int, m: int|
            0 <= l < 5 && 0 <= m < 32 ==> #[trigger] r.combos@[l]@[m] == mask_total(
                rounds_v(rounds@),
                l,
                m,
            ),
{
    let ghost rs = rounds_v(rounds@);
    let mut flat: Vec<u64> = Vec::new();
    let mut k: usize = 0;
    while k < 160
        invariant
            k <= 160,
            flat.len() == k,
            forall|t: int| 0 <= t < k ==> flat@[t] == 0,
        decreases 160 - k,
    {
        flat.push(0);
        k = k + 1;
    }
    let mut grids: u64 = 0;
    let mut i: usize = 0;
    while i < rounds.len()
        invariant
            rs == rounds_v(rounds@),
            rounds_weight(rs) <= u64::MAX,
            full_grids(rs),
            i <= rounds.len(),
            flat.len() == 160,
            grids == grids_total(rs.take(i as int)),
            forall|l: int, m: int|
                0 <= l < 5 && 0 <= m < 32 ==> #[trigger] flat@[l * 32 + m] == mask_total(
                    rs.take(i as int),
                    l,
                    m,
                ),
        decreases rounds.len() - i,
    {
        let items = &rounds[i];
        let ghost r = rs[i as int];
        assert(r == items_v(items@));
        assert(rs.take(i + 1).drop_last() =~= rs.take(i as int));
        proof {
            lemma_rounds_weight_mono(rs, i as int);
            lemma_chars_le_weight(rs.take(i + 1), 'x');
        }
        let mut j: usize = 0;
        while j < items.len()
            invariant
                rs == rounds_v(rounds@),
                full_grids(rs),
                0 <= i < rs.len(),
                r == rs[i as int],
                r == items_v(items@),
                j <= items.len(),
                flat.len() == 160,
                grids == grids_total(rs.take(i as int)) + grids_in(r.take(j as int)),
                grids_total(rs.take(i + 1)) == grids_total(rs.take(i as int)) + grids_in(r),
                grids_total(rs.take(i + 1)) <= u64::MAX,
                forall|l: int, m: int|
                    0 <= l < 5 && 0 <= m < 32 ==> #[trigger] flat@[l * 32 + m] == mask_total(
                        rs.take(i as int),
                        l,
                        m,
                    ) + mask_in(r.take(j as int), l, m),
            decreases items.len() - j,
        {
            assert(r.take(j + 1).drop_last() =~= r.take(j as int));
            proof {
                lemma_prefix_le(r, j + 1, 'x');
            }
            match &items[j] {
                Item::Grid(cells) => {
                    assert(r[j as int] == ItemV::Grid(cells@));
                    assert(cells@.len() >= 25) by {
                        assert(rs[i as int][j as int] matches ItemV::Grid(g) ==> g.len() >= 25);
                    }
                    let ghost before = flat@;
                    assert forall|t: int| 0 <= t < 160 implies #[trigger] before[t] <= grids_total(
                        rs.take(i as int),
                    ) + grids_in(r.take(j as int)) by {
                        let l = t / 32;
                        let m = t % 32;
                        assert(t == l * 32 + m);
                        assert(flat@[l * 32 + m] == mask_total(rs.take(i as int), l, m) + mask_in(
                            r.take(j as int),
                            l,
                            m,
                        ));
                        lemma_masks_le_grids(rs.take(i as int), l, m);
                        lemma_mask_le_grids(r.take(j as int), l, m);
                    }
                    let mut line: usize = 0;
                    while line < 5
                        invariant
                            line <= 5,
                            cells@.len() >= 25,
                            flat.len() == 160,
                            forall|l: int, m: int|
                                0 <= l < 5 && 0 <= m < 32 ==> #[trigger] flat@[l * 32 + m] == before[l
                                    * 32 + m] + if l < line && line_mask(cells@, l) == m {
                                    1int
                                } else {
                                    0int
                                },
                            forall|t: int|
                                0 <= t < 160 ==> #[trigger] before[t] <= grids_total(
                                    rs.take(i as int),
                                ) + grids_in(r.take(j as int)),
                            grids_total(rs.take(i as int)) + grids_in(r.take(j as int)) < u64::MAX,
                        decreases 5 - line,
                    {
                        let m = line_mask_exec(cells, line);
                        let idx = line * 32 + m;
                        assert(before[idx as int] <= grids_total(rs.take(i as int)) + grids_in(
                            r.take(j as int),
                        ));
                        let v = flat[idx] + 1;
                        flat.set(idx, v);
                        assert forall|l: int, mm: int|
                            0 <= l < 5 && 0 <= mm < 32 implies #[trigger] flat@[l * 32 + mm]
                            == before[l * 32 + mm] + if l < line + 1 && line_mask(cells@, l) == mm {
                                1int
                            } else {
                                0int
                            } by {
                            if l * 32 + mm == idx {
                                assert(l == line && mm == m) by (nonlinear_arith)
                                    requires
                                        l * 32 + mm == line * 32 + m,
                                        0 <= mm < 32,
                                        0 <= m < 32,
                                ;
                            } else {
                                assert(l != line || mm != m);
                            }
                        }
                        line = line + 1;
                    }
                    grids = grids + 1;
                },
                Item::Step(_) => {},
            }
            j = j + 1;
        }
        assert(r.take(items.len() as int) =~= r);
        i = i + 1;
    }
    assert(rs.take(rounds.len() as int) =~= rs);
    let mut combos: Vec<Vec<u64>> = Vec::new();
    let mut l: usize = 0;
    while l < 5
        invariant
            l <= 5,
            flat.len() == 160,
            combos.len() == l,
            forall|a: int| 0 <= a < l ==> #[trigger] combos@[a]@.len() == 32,
            forall|a: int, m: int|
                0 <= a < l && 0 <= m < 32 ==> #[trigger] combos@[a]@[m] == flat@[a * 32 + m],
        decreases 5 - l,
    {
        let mut row: Vec<u64> = Vec::new();
        let mut m: usize = 0;
        while m < 32
            invariant
                l < 5,
                m <= 32,
                flat.len() == 160,
                row.len() == m,
                forall|t: int| 0 <= t < m ==> #[trigger] row@[t] == flat@[l * 32 + t],
            decreases 32 - m,
        {
            row.push(flat[l * 32 + m]);
            m = m + 1;
        }
        combos.push(row);
        l = l + 1;
    }
    LineCoins { grids_count: grids, combos }
}

/// For each of the five lines of the `reveal` grids, how many grids show each coin mask.
pub fn extract_spin_coins(transactions: &Vec<Json>) -> (r: LineCoins)
    requires
        rounds_weight(rounds_items(transactions@, "reveal"@, false, false)) <= u64::MAX,
        full_grids(rounds_items(transactions@, "reveal"@, false, false)),
    ensures
        r.grids_count == grids_total(rounds_items(transactions@, "reveal"@, false, false)),
        r.combos@.len() == 5,
        forall|l: int| 0 <= l < 5 ==> #[trigger] r.combos@[l]@.len() == 32,
        forall|l: int, m: int|
            0 <= l < 5 && 0 <= m < 32 ==> #[trigger] r.combos@[l]@[m] == mask_total(
                rounds_items(transactions@, "reveal"@, false, false),
                l,
                m,
            ),
{
    let rounds = collect_rounds(transactions, "reveal", false, false);
    count_line_masks(&rounds)
}

/// For each of the five lines of the free-spin `fs_reveal` grids, how many grids show
/// each coin mask.
pub fn extract_fs_spin_coins(transactions: &Vec<Json>) -> (r: LineCoins)
    requires
        rounds_weight(rounds_items(transactions@, "fs_reveal"@, false, false)) <= u64::MAX,
        full_grids(rounds_items(transactions@, "fs_reveal"@, false, false)),
    ensures
        r.grids_count == grids_total(rounds_items(transactions@, "fs_reveal"@, false, false)),
        r.combos@.len() == 5,
        forall|l: int| 0 <= l < 5 ==> #[trigger] r.combos@[l]@.len() == 32,
        forall|l: int, m: int|
            0 <= l < 5 && 0 <= m < 32 ==> #[trigger] r.combos@[l]@[m] == mask_total(
                rounds_items(transactions@, "fs_reveal"@, false, false),
                l,
                m,
            ),
{
    let rounds = collect_rounds(transactions, "fs_reveal", false, false);
    count_line_masks(&rounds)
}


/// The first position of `ch` in `table`, or -1.
pub open spec fn table_index(table: Seq<char>, ch: char) -> int
    decreases table.len(),
{
    if table.len() == 0 {
        -1
    } else if table_index(table.drop_last(), ch) >= 0 {
        table_index(table.drop_last(), ch)
    } else if table.last() == ch {
        table.len() - 1
    } else {
        -1
    }
}

proof fn lemma_table_index(table: Seq<char>, ch: char)
    ensures
        -1 <= table_index(table, ch) < table.len(),
        table_index(table, ch) >= 0 ==> table[table_index(table, ch)] == ch,
    decreases table.len(),
{
    if table.len() > 0 {
        lemma_table_index(table.drop_last(), ch);
    }
}

/// Scans the first `n` cells of a grid: a cell not seen before in this round that holds
/// a symbol of `table` is now seen, and counts for its symbol.
pub open spec fn scan_cells(
    seen: Set<int>,
    counts: Seq<int>,
    g: Seq<char>,
    table: Seq<char>,
    n: nat,
) -> (Set<int>, Seq<int>)
    decreases n,
{
    if n == 0 || n > g.len() {
        (seen, counts)
    } else {
        let prev = scan_cells(seen, counts, g, table, (n - 1) as nat);
        let i = n - 1;
        let k = table_index(table, g[i]);
        if !prev.0.contains(i) && k >= 0 {
            (prev.0.insert(i), prev.1.update(k, prev.1[k] + 1))
        } else {
            prev
        }
    }
}

/// Scans the grids among the first `n` items of a round.
pub open spec fn scan_round(
    seen: Set<int>,
    counts: Seq<int>,
    r: Seq<ItemV>,
    table: Seq<char>,
    n: nat,
) -> (Set<int>, Seq<int>)
    decreases n,
{
    if n == 0 || n > r.len() {
        (seen, counts)
    } else {
        let prev = scan_round(seen, counts, r, table, (n - 1) as nat);
        match r[n - 1] {
            ItemV::Grid(g) => scan_cells(prev.0, prev.1, g, table, g.len()),
            ItemV::Step(_) => prev,
        }
    }
}

/// The symbol counts after the first `n` rounds, each round starting with no cell seen.
pub open spec fn scan_rounds(rs: Seq<Seq<ItemV>>, table: Seq<char>, n: nat) -> Seq<int>
    decreases n,
{
    if n == 0 || n > rs.len() {
        Seq::new(table.len(), |k: int| 0int)
    } else {
        scan_round(
            Set::empty(),
            scan_rounds(rs, table, (n - 1) as nat),
            rs[n - 1],
            table,
            rs[n - 1].len(),
        ).1
    }
}

/// The number of grids, and how many cells first showed each symbol of a table.
pub struct SymbolCounts {
    pub grids_count: u64,
    pub counts: Vec<u64>,
}

fn table_index_exec(table: &Vec<char>, ch: char) -> (r: Option<usize>)
    ensures
        match r {
            Some(k) => table_index(table@, ch) == k,
            None => table_index(table@, ch) == -1,
        },
{
    let mut k: usize = 0;
    while k < table.len()
        invariant
            k <= table.len(),
            table_index(table@.take(k as int), ch) == -1,
        decreases table.len() - k,
    {
        assert(table@.take(k + 1).drop_last() =~= table@.take(k as int));
        if table[k] == ch {
            proof {
                lemma_table_prefix(table@, k as int + 1, ch);
            }
            return Some(k);
        }
        k = k + 1;
    }
    assert(table@.take(table.len() as int) =~= table@);
    None
}

proof fn lemma_table_prefix(table: Seq<char>, n: int, ch: char)
    requires
        0 < n <= table.len(),
        table_index(table.take(n), ch) >= 0,
    ensures
        table_index(table, ch) == table_index(table.take(n), ch),
    decreases table.len() - n,
{
    if n < table.len() {
        assert(table.take(n + 1).drop_last() =~= table.take(n));
        lemma_table_prefix(table, n + 1, ch);
    } else {
        assert(table.take(n) =~= table);
    }
}

fn contains_usize(v: &Vec<usize>, x: usize) -> (r: bool)
    ensures
        r == v@.contains(x),
{
    let mut i: usize = 0;
    while i < v.len()
        invariant
            i <= v.len(),
            forall|j: int| 0 <= j < i ==> v@[j] != x,
        decreases v.len() - i,
    {
        if v[i] == x {
            return true;
        }
        i = i + 1;
    }
    false
}

/// The positions listed in `v`.
pub open spec fn position_set(v: Seq<usize>) -> Set<int> {
    Set::new(|x: int| exists|q: int| 0 <= q < v.len() && v[q] as int == x)
}

proof fn lemma_position_set_push(v: Seq<usize>, i: usize)
    ensures
        position_set(v.push(i)) == position_set(v).insert(i as int),
{
    assert forall|x: int| position_set(v.push(i)).contains(x) <==> position_set(v).insert(i as int).contains(x) by {
        if position_set(v.push(i)).contains(x) {
            let q = choose|q: int| 0 <= q < v.push(i).len() && v.push(i)[q] as int == x;
            if q < v.len() {
                assert(v[q] as int == x);
            }
        }
        if position_set(v).contains(x) {
            let q = choose|q: int| 0 <= q < v.len() && v[q] as int == x;
            assert(v.push(i)[q] as int == x);
        }
        if x == i as int {
            assert(v.push(i)[v.len() as int] as int == x);
        }
    }
    assert(position_set(v.push(i)) =~= position_set(v).insert(i as int));
}

/// Scans one grid; `bound` caps every count before the scan.
fn scan_grid(
    fined: &mut Vec<usize>,
    counts: &mut Vec<u64>,
    g: &Vec<char>,
    table: &Vec<char>,
    Ghost(cs): Ghost<Seq<int>>,
    Ghost(bound): Ghost<int>,
)
    requires
        old(counts).len() == table.len(),
        cs.len() == table.len(),
        forall|k: int| 0 <= k < cs.len() ==> #[trigger] old(counts)@[k] == cs[k],
        forall|k: int| 0 <= k < cs.len() ==> #[trigger] cs[k] <= bound,
        bound + g.len() <= u64::MAX,
    ensures
        ({
            let post = scan_cells(position_set(old(fined)@), cs, g@, table@, g@.len());
            &&& post.0 == position_set(final(fined)@)
            &&& final(counts).len() == table.len()
            &&& post.1.len() == table.len()
            &&& forall|k: int| 0 <= k < table.len() ==> #[trigger] final(counts)@[k] == post.1[k]
            &&& forall|k: int| 0 <= k < table.len() ==> #[trigger] post.1[k] <= bound + g.len()
        }),
{
    let ghost seen = position_set(fined@);
    let mut i: usize = 0;
    while i < g.len()
        invariant
            i <= g.len(),
            bound + g.len() <= u64::MAX,
            counts.len() == table.len(),
            ({
                let st = scan_cells(seen, cs, g@, table@, i as nat);
                &&& st.0 == position_set(fined@)
                &&& st.1.len() == table.len()
                &&& forall|k: int| 0 <= k < table.len() ==> #[trigger] counts@[k] == st.1[k]
                &&& forall|k: int| 0 <= k < table.len() ==> #[trigger] st.1[k] <= bound + i
            }),
        decreases g.len() - i,
    {
        let ghost st = scan_cells(seen, cs, g@, table@, i as nat);
        proof {
            lemma_table_index(table@, g@[i as int]);
        }
        let ghost before = fined@;
        if !contains_usize(fined, i) {
            assert(!st.0.contains(i as int)) by {
                if st.0.contains(i as int) {
                    let q = choose|q: int| 0 <= q < before.len() && before[q] as int == i as int;
                    assert(before.contains(i));
                }
            }
            match table_index_exec(table, g[i]) {
                Some(k) => {
                    fined.push(i);
                    proof {
                        lemma_position_set_push(before, i);
                    }
                    let v = counts[k] + 1;
                    counts.set(k, v);
                },
                None => {},
            }
        } else {
            assert(st.0.contains(i as int)) by {
                let q = choose|q: int| 0 <= q < before.len() && before[q] == i;
                assert(before[q] as int == i as int);
            }
        }
        i = i + 1;
    }
}


proof fn lemma_scan_cells_bound(seen: Set<int>, cs: Seq<int>, g: Seq<char>, table: Seq<char>, n: nat, bound: int)
    requires
        cs.len() == table.len(),
        forall|k: int| 0 <= k < cs.len() ==> #[trigger] cs[k] <= bound,
    ensures
        scan_cells(seen, cs, g, table, n).1.len() == table.len(),
    decreases n,
{
    if !(n == 0 || n > g.len()) {
        lemma_scan_cells_bound(seen, cs, g, table, (n - 1) as nat, bound);
        lemma_table_index(table, g[n - 1]);
    }
}

/// Counts the grids of the rounds and, per symbol of `table`, the cells that first showed
/// it in their round.
pub fn count_first_seen(rounds: &Vec<Vec<Item>>, table: &Vec<char>) -> (r: SymbolCounts)
    requires
        rounds_weight(rounds_v(rounds@)) <= u64::MAX,
    ensures
        r.grids_count == grids_total(rounds_v(rounds@)),
        r.counts@.len() == table@.len(),
        forall|k: int|
            0 <= k < table@.len() ==> #[trigger] r.counts@[k] == scan_rounds(
                rounds_v(rounds@),
                table@,
                rounds@.len(),
            )[k],
{
    let ghost rs = rounds_v(rounds@);
    let mut counts: Vec<u64> = Vec::new();
    let mut k: usize = 0;
    while k < table.len()
        invariant
            k <= table.len(),
            counts.len() == k,
            forall|t: int| 0 <= t < k ==> #[trigger] counts@[t] == 0,
        decreases table.len() - k,
    {
        counts.push(0);
        k = k + 1;
    }
    let mut grids: u64 = 0;
    let mut i: usize = 0;
    while i < rounds.len()
        invariant
            rs == rounds_v(rounds@),
            rounds_weight(rs) <= u64::MAX,
            i <= rounds.len(),
            counts.len() == table.len(),
            grids == grids_total(rs.take(i as int)),
            scan_rounds(rs, table@, i as nat).len() == table.len(),
            forall|t: int|
                0 <= t < table.len() ==> #[trigger] counts@[t] == scan_rounds(rs, table@, i as nat)[t],
            forall|t: int|
                0 <= t < table.len() ==> #[trigger] scan_rounds(rs, table@, i as nat)[t] <= rounds_weight(rs.take(i as int)),
        decreases rounds.len() - i,
    {
        let items = &rounds[i];
        let ghost r = rs[i as int];
        let ghost base = scan_rounds(rs, table@, i as nat);
        assert(r == items_v(items@));
        assert(rs.take(i + 1).drop_last() =~= rs.take(i as int));
        proof {
            lemma_rounds_weight_mono(rs, i as int);
            lemma_chars_le_weight(rs.take(i + 1), 'x');
        }
        let mut fined: Vec<usize> = Vec::new();
        let mut j: usize = 0;
        while j < items.len()
            invariant
                rs == rounds_v(rounds@),
                0 <= i < rs.len(),
                r == rs[i as int],
                r == items_v(items@),
                j <= items.len(),
                counts.len() == table.len(),
                grids == grids_total(rs.take(i as int)) + grids_in(r.take(j as int)),
                grids_total(rs.take(i + 1)) == grids_total(rs.take(i as int)) + grids_in(r),
                grids_total(rs.take(i + 1)) <= u64::MAX,
                rounds_weight(rs.take(i as int)) + round_weight(r) == rounds_weight(rs.take(i + 1)),
                rounds_weight(rs.take(i + 1)) <= u64::MAX,
                base.len() == table.len(),
                forall|t: int| 0 <= t < table.len() ==> #[trigger] base[t] <= rounds_weight(rs.take(i as int)),
                ({
                    let st = scan_round(Set::empty(), base, r, table@, j as nat);
                    &&& st.0 == position_set(fined@)
                    &&& st.1.len() == table.len()
                    &&& forall|t: int| 0 <= t < table.len() ==> #[trigger] counts@[t] == st.1[t]
                    &&& forall|t: int|
                        0 <= t < table.len() ==> #[trigger] st.1[t] <= rounds_weight(rs.take(i as int))
                            + round_weight(r.take(j as int))
                }),
            decreases items.len() - j,
        {
            assert(r.take(j + 1).drop_last() =~= r.take(j as int));
            proof {
                lemma_prefix_le(r, j + 1, 'x');
                lemma_round_weight_mono(r, j as int);
            }
            match &items[j] {
                Item::Grid(cells) => {
                    let ghost st = scan_round(Set::empty(), base, r, table@, j as nat);
                    assert(r[j as int] == ItemV::Grid(cells@));
                    scan_grid(
                        &mut fined,
                        &mut counts,
                        cells,
                        table,
                        Ghost(st.1),
                        Ghost((rounds_weight(rs.take(i as int)) + round_weight(r.take(j as int))) as int),
                    );
                    grids = grids + 1;
                },
                Item::Step(_) => {},
            }
            j = j + 1;
        }
        assert(r.take(items.len() as int) =~= r);
        i = i + 1;
    }
    assert(rs.take(rounds.len() as int) =~= rs);
    SymbolCounts { grids_count: grids, counts }
}

/// The coin symbols of the spins, in the order of their letters `K L M N G H I J Q R S T`.
pub fn coin_symbols() -> (r: Vec<char>)
    ensures
        r@ == seq!['=', '>', '?', '@', 'G', 'H', 'I', 'J', 'Q', 'R', 'S', 'T'],
{
    let r = vec!['=', '>', '?', '@', 'G', 'H', 'I', 'J', 'Q', 'R', 'S', 'T'];
    assert(r@ =~= seq!['=', '>', '?', '@', 'G', 'H', 'I', 'J', 'Q', 'R', 'S', 'T']);
    r
}

/// The coin, collector and multiplier symbols, in the order of their letters
/// `K L M N G H I J Q R S T E U V W X Y Z`.
pub fn coin_and_multiplier_symbols() -> (r: Vec<char>)
    ensures
        r@ == seq![
            '=', '>', '?', '@', 'G', 'H', 'I', 'J', 'Q', 'R', 'S', 'T', ')', '+', ',', '-', '.', '/', '0'
        ],
{
    let r = vec!['=', '>', '?', '@', 'G', 'H', 'I', 'J', 'Q', 'R', 'S', 'T', ')', '+', ',', '-', '.', '/', '0'];
    assert(r@ =~= seq![
        '=', '>', '?', '@', 'G', 'H', 'I', 'J', 'Q', 'R', 'S', 'T', ')', '+', ',', '-', '.', '/', '0'
    ]);
    r
}

/// The multiplier symbols, in the order of their letters `U V W X Y Z`.
pub fn multiplier_symbols() -> (r: Vec<char>)
    ensures
        r@ == seq!['+', ',', '-', '.', '/', '0'],
{
    let r = vec!['+', ',', '-', '.', '/', '0'];
    assert(r@ =~= seq!['+', ',', '-', '.', '/', '0']);
    r
}

/// For the `coin_reveal_*` grids of the spins: the number of grids, and per coin symbol
/// the cells that first showed it in their round.
pub fn extract_spin_coin_values(transactions: &Vec<Json>) -> (r: SymbolCounts)
    requires
        rounds_weight(rounds_items(transactions@, "coin_reveal_"@, true, false)) <= u64::MAX,
    ensures
        r.grids_count == grids_total(rounds_items(transactions@, "coin_reveal_"@, true, false)),
        r.counts@.len() == 12,
        forall|k: int|
            0 <= k < 12 ==> #[trigger] r.counts@[k] == scan_rounds(
                rounds_items(transactions@, "coin_reveal_"@, true, false),
                seq!['=', '>', '?', '@', 'G', 'H', 'I', 'J', 'Q', 'R', 'S', 'T'],
                transactions@.len(),
            )[k],
{
    let rounds = collect_rounds(transactions, "coin_reveal_", true, false);
    count_first_seen(&rounds, &coin_symbols())
}

/// Like `extract_spin_coin_values`, with the collector and multiplier symbols too.
pub fn _extract_spin_coin_values(transactions: &Vec<Json>) -> (r: SymbolCounts)
    requires
        rounds_weight(rounds_items(transactions@, "coin_reveal_"@, true, false)) <= u64::MAX,
    ensures
        r.grids_count == grids_total(rounds_items(transactions@, "coin_reveal_"@, true, false)),
        r.counts@.len() == 19,
        forall|k: int|
            0 <= k < 19 ==> #[trigger] r.counts@[k] == scan_rounds(
                rounds_items(transactions@, "coin_reveal_"@, true, false),
                seq![
                    '=', '>', '?', '@', 'G', 'H', 'I', 'J', 'Q', 'R', 'S', 'T', ')', '+', ',', '-', '.', '/', '0'
                ],
                transactions@.len(),
            )[k],
{
    let rounds = collect_rounds(transactions, "coin_reveal_", true, false);
    count_first_seen(&rounds, &coin_and_multiplier_symbols())
}

/// For the `coin_reveal_*` grids of the spins: the number of grids, and the cells that
/// first showed a collector `)` in their round.
pub fn extract_spin_collector(transactions: &Vec<Json>) -> (r: GridCount)
    requires
        rounds_weight(rounds_items(transactions@, "coin_reveal_"@, true, false)) <= u64::MAX,
    ensures
        r.grids_count == grids_total(rounds_items(transactions@, "coin_reveal_"@, true, false)),
        r.count == scan_rounds(
            rounds_items(transactions@, "coin_reveal_"@, true, false),
            seq![')'],
            transactions@.len(),
        )[0],
{
    let rounds = collect_rounds(transactions, "coin_reveal_", true, false);
    let table = vec![')'];
    assert(table@ =~= seq![')']);
    let c = count_first_seen(&rounds, &table);
    GridCount { grids_count: c.grids_count, count: c.counts[0] }
}

/// For the `coin_reveal_*` grids of the spins: the number of grids, and per multiplier
/// symbol the cells that first showed it in their round.
pub fn extract_spin_multypliers(transactions: &Vec<Json>) -> (r: SymbolCounts)
    requires
        rounds_weight(rounds_items(transactions@, "coin_reveal_"@, true, false)) <= u64::MAX,
    ensures
        r.grids_count == grids_total(rounds_items(transactions@, "coin_reveal_"@, true, false)),
        r.counts@.len() == 6,
        forall|k: int|
            0 <= k < 6 ==> #[trigger] r.counts@[k] == scan_rounds(
                rounds_items(transactions@, "coin_reveal_"@, true, false),
                seq!['+', ',', '-', '.', '/', '0'],
                transactions@.len(),
            )[k],
{
    let rounds = collect_rounds(transactions, "coin_reveal_", true, false);
    count_first_seen(&rounds, &multiplier_symbols())
}

/// For the `fs_coin_reveal_*` grids of the free spins: the number of grids, and per coin,
/// collector and multiplier symbol the cells that first showed it in their round.
pub fn extract_fs_spin_coin_values(transactions: &Vec<Json>) -> (r: SymbolCounts)
    requires
        rounds_weight(rounds_items(transactions@, "fs_coin_reveal_"@, true, false)) <= u64::MAX,
    ensures
        r.grids_count == grids_total(rounds_items(transactions@, "fs_coin_reveal_"@, true, false)),
        r.counts@.len() == 19,
        forall|k: int|
            0 <= k < 19 ==> #[trigger] r.counts@[k] == scan_rounds(
                rounds_items(transactions@, "fs_coin_reveal_"@, true, false),
                seq![
                    '=', '>', '?', '@', 'G', 'H', 'I', 'J', 'Q', 'R', 'S', 'T', ')', '+', ',', '-', '.', '/', '0'
                ],
                transactions@.len(),
            )[k],
{
    let rounds = collect_rounds(transactions, "fs_coin_reveal_", true, false);
    count_first_seen(&rounds, &coin_and_multiplier_symbols())
}


/// The free-spin step in force at item `j` of a round: the last step announced before
/// it, 0 at first.
pub open spec fn step_before(r: Seq<ItemV>, j: int) -> int
    decreases j,
{
    if j <= 0 || j > r.len() {
        0
    } else {
        match r[j - 1] {
            ItemV::Step(n) => n as int,
            ItemV::Grid(_) => step_before(r, j - 1),
        }
    }
}

/// Whether every grid of every round comes at a step below 25.
pub open spec fn steps_in_range(rs: Seq<Seq<ItemV>>) -> bool {
    forall|i: int, j: int|
        0 <= i < rs.len() && 0 <= j < rs[i].len() ==> (#[trigger] rs[i][j] is Grid
            ==> step_before(rs[i], j) < 25)
}

/// Whether every grid of every round holds at least as many empty coin cells as its step.
pub open spec fn cells_cover_steps(rs: Seq<Seq<ItemV>>) -> bool {
    forall|i: int, j: int|
        0 <= i < rs.len() && 0 <= j < rs[i].len() ==> (#[trigger] rs[i][j] matches ItemV::Grid(g)
            ==> crate::seqs::count_of(g, '(') >= step_before(rs[i], j))
}

/// Per step: the number of grids, and the empty coin cells beyond the step, over the
/// first `n` items of a round.
pub open spec fn step_cells(r: Seq<ItemV>, n: nat, grids: Seq<int>, counts: Seq<int>) -> (Seq<int>, Seq<int>)
    decreases n,
{
    if n == 0 || n > r.len() {
        (grids, counts)
    } else {
        let prev = step_cells(r, (n - 1) as nat, grids, counts);
        match r[n - 1] {
            ItemV::Grid(g) => {
                let st = step_before(r, n - 1);
                (
                    prev.0.update(st, prev.0[st] + 1),
                    prev.1.update(st, prev.1[st] + crate::seqs::count_of(g, '(') - st),
                )
            },
            ItemV::Step(_) => prev,
        }
    }
}

/// `step_cells` over the first `n` rounds.
pub open spec fn step_cells_rounds(rs: Seq<Seq<ItemV>>, n: nat) -> (Seq<int>, Seq<int>)
    decreases n,
{
    if n == 0 || n > rs.len() {
        (Seq::new(25, |k: int| 0int), Seq::new(25, |k: int| 0int))
    } else {
        let prev = step_cells_rounds(rs, (n - 1) as nat);
        step_cells(rs[n - 1], rs[n - 1].len(), prev.0, prev.1)
    }
}

/// Per free-spin step: the number of grids, and a count per step.
pub struct StepCounts {
    pub grids_count: Vec<u64>,
    pub counts: Vec<u64>,
}

fn zeros(n: usize) -> (r: Vec<u64>)
    ensures
        r.len() == n,
        forall|k: int| 0 <= k < n ==> #[trigger] r@[k] == 0,
{
    let mut r: Vec<u64> = Vec::new();
    while r.len() < n
        invariant
            r.len() <= n,
            forall|k: int| 0 <= k < r.len() ==> #[trigger] r@[k] == 0,
        decreases n - r.len(),
    {
        r.push(0);
    }
    r
}

#[verifier::rlimit(60)]
#[verifier::spinoff_prover]
fn step_cells_round(
    items: &Vec<Item>,
    grids: &mut Vec<u64>,
    counts: &mut Vec<u64>,
    Ghost(base): Ghost<(Seq<int>, Seq<int>)>,
    Ghost(bound): Ghost<int>,
)
    requires
        forall|j: int| 0 <= j < items@.len() ==> (#[trigger] items_v(items@)[j] is Grid ==> step_before(items_v(items@), j) < 25),
        forall|j: int| 0 <= j < items@.len() ==> (#[trigger] items_v(items@)[j] matches ItemV::Grid(g)
            ==> crate::seqs::count_of(g, '(') >= step_before(items_v(items@), j)),
        old(grids).len() == 25,
        old(counts).len() == 25,
        base.0.len() == 25,
        base.1.len() == 25,
        forall|k: int| 0 <= k < 25 ==> #[trigger] old(grids)@[k] == base.0[k],
        forall|k: int| 0 <= k < 25 ==> #[trigger] old(counts)@[k] == base.1[k],
        forall|k: int| 0 <= k < 25 ==> 0 <= #[trigger] base.0[k] <= bound,
        forall|k: int| 0 <= k < 25 ==> 0 <= #[trigger] base.1[k] <= bound,
        bound + round_weight(items_v(items@)) <= u64::MAX,
    ensures
        ({
            let st = step_cells(items_v(items@), items@.len(), base.0, base.1);
            &&& st.0.len() == 25
            &&& st.1.len() == 25
            &&& final(grids).len() == 25
            &&& final(counts).len() == 25
            &&& forall|k: int| 0 <= k < 25 ==> #[trigger] final(grids)@[k] == st.0[k]
            &&& forall|k: int| 0 <= k < 25 ==> #[trigger] final(counts)@[k] == st.1[k]
            &&& forall|k: int| 0 <= k < 25 ==> 0 <= #[trigger] st.0[k] <= bound + round_weight(items_v(items@))
            &&& forall|k: int| 0 <= k < 25 ==> 0 <= #[trigger] st.1[k] <= bound + round_weight(items_v(items@))
        }),
{
    let ghost r = items_v(items@);
    let mut step: u64 = 0;
    let mut j: usize = 0;
    while j < items.len()
        invariant
            r == items_v(items@),
            forall|j: int| 0 <= j < items@.len() ==> (#[trigger] r[j] is Grid ==> step_before(r, j) < 25),
            forall|j: int| 0 <= j < items@.len() ==> (#[trigger] r[j] matches ItemV::Grid(g)
                ==> crate::seqs::count_of(g, '(') >= step_before(r, j)),
            j <= items.len(),
            step == step_before(r, j as int),
            grids.len() == 25,
            counts.len() == 25,
            base.0.len() == 25,
            base.1.len() == 25,
            bound + round_weight(r) <= u64::MAX,
            ({
                let st = step_cells(r, j as nat, base.0, base.1);
                &&& st.0.len() == 25
                &&& st.1.len() == 25
                &&& forall|k: int| 0 <= k < 25 ==> #[trigger] grids@[k] == st.0[k]
                &&& forall|k: int| 0 <= k < 25 ==> #[trigger] counts@[k] == st.1[k]
                &&& forall|k: int| 0 <= k < 25 ==> 0 <= #[trigger] st.0[k] <= bound + round_weight(r.take(j as int))
                &&& forall|k: int| 0 <= k < 25 ==> 0 <= #[trigger] st.1[k] <= bound + round_weight(r.take(j as int))
            }),
        decreases items.len() - j,
    {
        assert(r.take(j + 1).drop_last() =~= r.take(j as int));
        proof {
            lemma_round_weight_mono(r, j as int);
        }
        match &items[j] {
            Item::Grid(cells) => {
                assert(r[j as int] == ItemV::Grid(cells@));
                assert(step < 25);
                let c = count_char_cells(cells, '(');
                assert(c >= step);
                proof {
                    lemma_count_le_len(cells@, '(');
                }
                let s = step as usize;
                let gv = grids[s] + 1;
                grids.set(s, gv);
                let cv = counts[s] + (c - step);
                counts.set(s, cv);
            },
            Item::Step(n) => {
                step = *n;
            },
        }
        j = j + 1;
    }
    assert(r.take(items.len() as int) =~= r);
}

/// For the free-spin `fs_reveal` grids, per step reached by cash wins: the number of
/// grids, and the empty coin cells beyond the step.
pub fn extract_fs_spin_coin_cell(transactions: &Vec<Json>) -> (r: StepCounts)
    requires
        rounds_weight(rounds_items(transactions@, "fs_reveal"@, false, true)) <= u64::MAX,
        steps_in_range(rounds_items(transactions@, "fs_reveal"@, false, true)),
        cells_cover_steps(rounds_items(transactions@, "fs_reveal"@, false, true)),
    ensures
        r.grids_count@.len() == 25,
        r.counts@.len() == 25,
        forall|k: int|
            0 <= k < 25 ==> #[trigger] r.grids_count@[k] == step_cells_rounds(
                rounds_items(transactions@, "fs_reveal"@, false, true),
                transactions@.len(),
            ).0[k],
        forall|k: int|
            0 <= k < 25 ==> #[trigger] r.counts@[k] == step_cells_rounds(
                rounds_items(transactions@, "fs_reveal"@, false, true),
                transactions@.len(),
            ).1[k],
{
    let rounds = collect_rounds(transactions, "fs_reveal", false, true);
    let ghost rs = rounds_v(rounds@);
    let mut grids = zeros(25);
    let mut counts = zeros(25);
    let mut i: usize = 0;
    while i < rounds.len()
        invariant
            rs == rounds_v(rounds@),
            rounds_weight(rs) <= u64::MAX,
            steps_in_range(rs),
            cells_cover_steps(rs),
            i <= rounds.len(),
            grids.len() == 25,
            counts.len() == 25,
            step_cells_rounds(rs, i as nat).0.len() == 25,
            step_cells_rounds(rs, i as nat).1.len() == 25,
            forall|k: int| 0 <= k < 25 ==> #[trigger] grids@[k] == step_cells_rounds(rs, i as nat).0[k],
            forall|k: int| 0 <= k < 25 ==> #[trigger] counts@[k] == step_cells_rounds(rs, i as nat).1[k],
            forall|k: int| 0 <= k < 25 ==> 0 <= #[trigger] step_cells_rounds(rs, i as nat).0[k] <= rounds_weight(rs.take(i as int)),
            forall|k: int| 0 <= k < 25 ==> 0 <= #[trigger] step_cells_rounds(rs, i as nat).1[k] <= rounds_weight(rs.take(i as int)),
        decreases rounds.len() - i,
    {
        let ghost r = rs[i as int];
        let ghost base = step_cells_rounds(rs, i as nat);
        assert(r == items_v(rounds@[i as int]@));
        assert(rs.take(i + 1).drop_last() =~= rs.take(i as int));
        proof {
            lemma_rounds_weight_mono(rs, i as int);
            assert forall|j: int| 0 <= j < r.len() implies (#[trigger] r[j] is Grid ==> step_before(r, j) < 25) by {
                assert(rs[i as int][j] is Grid ==> step_before(rs[i as int], j) < 25);
            }
            assert forall|j: int| 0 <= j < r.len() implies (#[trigger] r[j] matches ItemV::Grid(g)
                ==> crate::seqs::count_of(g, '(') >= step_before(r, j)) by {
                assert(rs[i as int][j] matches ItemV::Grid(g) ==> crate::seqs::count_of(g, '(') >= step_before(rs[i as int], j));
            }
        }
        step_cells_round(&rounds[i], &mut grids, &mut counts, Ghost(base), Ghost(rounds_weight(rs.take(i as int)) as int));
        i = i + 1;
    }
    assert(rs.take(rounds.len() as int) =~= rs);
    StepCounts { grids_count: grids, counts }
}

/// Per free-spin step, the table counts of the grids scanned at that step, over the first
/// `n` items of a round; cells seen stay seen across steps.
pub open spec fn step_scan(
    r: Seq<ItemV>,
    table: Seq<char>,
    n: nat,
    grids: Seq<int>,
    rows: Seq<Seq<int>>,
) -> (Set<int>, Seq<int>, Seq<Seq<int>>)
    decreases n,
{
    if n == 0 || n > r.len() {
        (Set::empty(), grids, rows)
    } else {
        let prev = step_scan(r, table, (n - 1) as nat, grids, rows);
        match r[n - 1] {
            ItemV::Grid(g) => {
                let st = step_before(r, n - 1);
                let sc = scan_cells(prev.0, prev.2[st], g, table, g.len());
                (sc.0, prev.1.update(st, prev.1[st] + 1), prev.2.update(st, sc.1))
            },
            ItemV::Step(_) => prev,
        }
    }
}

/// `step_scan` over the first `n` rounds.
pub open spec fn step_scan_rounds(rs: Seq<Seq<ItemV>>, table: Seq<char>, n: nat) -> (Seq<int>, Seq<Seq<int>>)
    decreases n,
{
    if n == 0 || n > rs.len() {
        (Seq::new(25, |k: int| 0int), Seq::new(25, |k: int| Seq::new(table.len(), |t: int| 0int)))
    } else {
        let prev = step_scan_rounds(rs, table, (n - 1) as nat);
        let st = step_scan(rs[n - 1], table, rs[n - 1].len(), prev.0, prev.1);
        (st.1, st.2)
    }
}

/// Per free-spin step: the number of grids, and per symbol of a table the cells that first
/// showed it in their round.
pub struct StepSymbolCounts {
    pub grids_count: Vec<u64>,
    pub counts: Vec<Vec<u64>>,
}

fn zero_rows(width: usize) -> (r: Vec<Vec<u64>>)
    ensures
        r.len() == 25,
        forall|k: int| 0 <= k < 25 ==> (#[trigger] r@[k]).len() == width,
        forall|k: int, t: int| 0 <= k < 25 && 0 <= t < width ==> #[trigger] r@[k]@[t] == 0,
{
    let mut r: Vec<Vec<u64>> = Vec::new();
    while r.len() < 25
        invariant
            r.len() <= 25,
            forall|k: int| 0 <= k < r.len() ==> (#[trigger] r@[k]).len() == width,
            forall|k: int, t: int| 0 <= k < r.len() && 0 <= t < width ==> #[trigger] r@[k]@[t] == 0,
        decreases 25 - r.len(),
    {
        r.push(zeros(width));
    }
    r
}

#[verifier::rlimit(60)]
#[verifier::spinoff_prover]
fn step_scan_round(
    items: &Vec<Item>,
    table: &Vec<char>,
    grids: &mut Vec<u64>,
    rows: &mut Vec<Vec<u64>>,
    Ghost(base): Ghost<(Seq<int>, Seq<Seq<int>>)>,
    Ghost(bound): Ghost<int>,
)
    requires
        forall|j: int| 0 <= j < items@.len() ==> (#[trigger] items_v(items@)[j] is Grid ==> step_before(items_v(items@), j) < 25),
        old(grids).len() == 25,
        old(rows).len() == 25,
        base.0.len() == 25,
        base.1.len() == 25,
        forall|k: int| 0 <= k < 25 ==> #[trigger] old(grids)@[k] == base.0[k],
        forall|k: int| 0 <= k < 25 ==> (#[trigger] old(rows)@[k]).len() == table.len(),
        forall|k: int| 0 <= k < 25 ==> (#[trigger] base.1[k]).len() == table.len(),
        forall|k: int, t: int| 0 <= k < 25 && 0 <= t < table.len() ==> #[trigger] old(rows)@[k]@[t] == base.1[k][t],
        forall|k: int| 0 <= k < 25 ==> 0 <= #[trigger] base.0[k] <= bound,
        forall|k: int, t: int| 0 <= k < 25 && 0 <= t < table.len() ==> #[trigger] base.1[k][t] <= bound,
        bound + round_weight(items_v(items@)) <= u64::MAX,
    ensures
        ({
            let st = step_scan(items_v(items@), table@, items@.len(), base.0, base.1);
            let top = bound + round_weight(items_v(items@));
            &&& st.1.len() == 25
            &&& st.2.len() == 25
            &&& final(grids).len() == 25
            &&& final(rows).len() == 25
            &&& forall|k: int| 0 <= k < 25 ==> #[trigger] final(grids)@[k] == st.1[k]
            &&& forall|k: int| 0 <= k < 25 ==> (#[trigger] final(rows)@[k]).len() == table.len()
            &&& forall|k: int| 0 <= k < 25 ==> (#[trigger] st.2[k]).len() == table.len()
            &&& forall|k: int, t: int| 0 <= k < 25 && 0 <= t < table.len() ==> #[trigger] final(rows)@[k]@[t] == st.2[k][t]
            &&& forall|k: int| 0 <= k < 25 ==> 0 <= #[trigger] st.1[k] <= top
            &&& forall|k: int, t: int| 0 <= k < 25 && 0 <= t < table.len() ==> #[trigger] st.2[k][t] <= top
        }),
{
    let ghost r = items_v(items@);
    let mut fined: Vec<usize> = Vec::new();
    let mut step: u64 = 0;
    let mut j: usize = 0;
    while j < items.len()
        invariant
            r == items_v(items@),
            forall|j: int| 0 <= j < items@.len() ==> (#[trigger] r[j] is Grid ==> step_before(r, j) < 25),
            j <= items.len(),
            step == step_before(r, j as int),
            grids.len() == 25,
            rows.len() == 25,
            base.0.len() == 25,
            base.1.len() == 25,
            bound + round_weight(r) <= u64::MAX,
            ({
                let st = step_scan(r, table@, j as nat, base.0, base.1);
                let top = bound + round_weight(r.take(j as int));
                &&& st.0 == position_set(fined@)
                &&& st.1.len() == 25
                &&& st.2.len() == 25
                &&& forall|k: int| 0 <= k < 25 ==> #[trigger] grids@[k] == st.1[k]
                &&& forall|k: int| 0 <= k < 25 ==> (#[trigger] rows@[k]).len() == table.len()
                &&& forall|k: int| 0 <= k < 25 ==> (#[trigger] st.2[k]).len() == table.len()
                &&& forall|k: int, t: int| 0 <= k < 25 && 0 <= t < table.len() ==> #[trigger] rows@[k]@[t] == st.2[k][t]
                &&& forall|k: int| 0 <= k < 25 ==> 0 <= #[trigger] st.1[k] <= top
                &&& forall|k: int, t: int| 0 <= k < 25 && 0 <= t < table.len() ==> #[trigger] st.2[k][t] <= top
            }),
        decreases items.len() - j,
    {
        assert(r.take(j + 1).drop_last() =~= r.take(j as int));
        proof {
            lemma_round_weight_mono(r, j as int);
        }
        match &items[j] {
            Item::Grid(cells) => {
                let ghost st = step_scan(r, table@, j as nat, base.0, base.1);
                let ghost top = bound + round_weight(r.take(j as int));
                assert(r[j as int] == ItemV::Grid(cells@));
                assert(step < 25);
                let s = step as usize;
                let mut row = rows[s].clone();
                assert(row@ =~= rows@[s as int]@);
                assert forall|t: int| 0 <= t < st.2[s as int].len() implies #[trigger] st.2[s as int][t] <= top by {
                    assert(st.2[s as int][t] <= top);
                }
                assert forall|t: int| 0 <= t < st.2[s as int].len() implies #[trigger] row@[t] == st.2[s as int][t] by {
                    assert(rows@[s as int]@[t] == st.2[s as int][t]);
                }
                scan_grid(&mut fined, &mut row, cells, table, Ghost(st.2[s as int]), Ghost(top));
                rows.set(s, row);
                let gv = grids[s] + 1;
                grids.set(s, gv);
            },
            Item::Step(n) => {
                step = *n;
            },
        }
        j = j + 1;
    }
    assert(r.take(items.len() as int) =~= r);
}

/// Counts, per free-spin step, the grids and the cells that first showed each symbol of
/// `table` in their round.
pub fn count_first_seen_by_step(rounds: &Vec<Vec<Item>>, table: &Vec<char>) -> (r: StepSymbolCounts)
    requires
        rounds_weight(rounds_v(rounds@)) <= u64::MAX,
        steps_in_range(rounds_v(rounds@)),
    ensures
        ({
            let st = step_scan_rounds(rounds_v(rounds@), table@, rounds@.len());
            &&& r.grids_count@.len() == 25
            &&& r.counts@.len() == 25
            &&& forall|k: int| 0 <= k < 25 ==> #[trigger] r.grids_count@[k] == st.0[k]
            &&& forall|k: int| 0 <= k < 25 ==> (#[trigger] r.counts@[k]).len() == table.len()
            &&& forall|k: int, t: int| 0 <= k < 25 && 0 <= t < table.len() ==> #[trigger] r.counts@[k]@[t] == st.1[k][t]
        }),
{
    let ghost rs = rounds_v(rounds@);
    let mut grids = zeros(25);
    let mut rows = zero_rows(table.len());
    let mut i: usize = 0;
    while i < rounds.len()
        invariant
            rs == rounds_v(rounds@),
            rounds_weight(rs) <= u64::MAX,
            steps_in_range(rs),
            i <= rounds.len(),
            grids.len() == 25,
            rows.len() == 25,
            ({
                let st = step_scan_rounds(rs, table@, i as nat);
                let top = rounds_weight(rs.take(i as int));
                &&& st.0.len() == 25
                &&& st.1.len() == 25
                &&& forall|k: int| 0 <= k < 25 ==> #[trigger] grids@[k] == st.0[k]
                &&& forall|k: int| 0 <= k < 25 ==> (#[trigger] rows@[k]).len() == table.len()
                &&& forall|k: int| 0 <= k < 25 ==> (#[trigger] st.1[k]).len() == table.len()
                &&& forall|k: int, t: int| 0 <= k < 25 && 0 <= t < table.len() ==> #[trigger] rows@[k]@[t] == st.1[k][t]
                &&& forall|k: int| 0 <= k < 25 ==> 0 <= #[trigger] st.0[k] <= top
                &&& forall|k: int, t: int| 0 <= k < 25 && 0 <= t < table.len() ==> #[trigger] st.1[k][t] <= top
            }),
        decreases rounds.len() - i,
    {
        let ghost r = rs[i as int];
        let ghost base = step_scan_rounds(rs, table@, i as nat);
        assert(r == items_v(rounds@[i as int]@));
        assert(rs.take(i + 1).drop_last() =~= rs.take(i as int));
        proof {
            lemma_rounds_weight_mono(rs, i as int);
            assert forall|j: int| 0 <= j < r.len() implies (#[trigger] r[j] is Grid ==> step_before(r, j) < 25) by {
                assert(rs[i as int][j] is Grid ==> step_before(rs[i as int], j) < 25);
            }
        }
        step_scan_round(&rounds[i], table, &mut grids, &mut rows, Ghost(base), Ghost(rounds_weight(rs.take(i as int)) as int));
        i = i + 1;
    }
    assert(rs.take(rounds.len() as int) =~= rs);
    StepSymbolCounts { grids_count: grids, counts: rows }
}

/// For the free-spin `fs_coin_reveal_*` grids, per step reached by cash wins: the number
/// of grids, and the cells that first showed a collector `)` in their round.
pub fn extract_fs_spin_collector(transactions: &Vec<Json>) -> (r: StepCounts)
    requires
        rounds_weight(rounds_items(transactions@, "fs_coin_reveal_"@, true, true)) <= u64::MAX,
        steps_in_range(rounds_items(transactions@, "fs_coin_reveal_"@, true, true)),
    ensures
        ({
            let st = step_scan_rounds(
                rounds_items(transactions@, "fs_coin_reveal_"@, true, true),
                seq![')'],
                transactions@.len(),
            );
            &&& r.grids_count@.len() == 25
            &&& r.counts@.len() == 25
            &&& forall|k: int| 0 <= k < 25 ==> #[trigger] r.grids_count@[k] == st.0[k]
            &&& forall|k: int| 0 <= k < 25 ==> #[trigger] r.counts@[k] == st.1[k][0]
        }),
{
    let rounds = collect_rounds(transactions, "fs_coin_reveal_", true, true);
    let table = vec![')'];
    assert(table@ =~= seq![')']);
    let c = count_first_seen_by_step(&rounds, &table);
    let mut counts: Vec<u64> = Vec::new();
    let mut k: usize = 0;
    while k < 25
        invariant
            k <= 25,
            counts.len() == k,
            c.counts@.len() == 25,
            forall|q: int| 0 <= q < 25 ==> (#[trigger] c.counts@[q]).len() == 1,
            forall|q: int| 0 <= q < k ==> #[trigger] counts@[q] == c.counts@[q]@[0],
        decreases 25 - k,
    {
        counts.push(c.counts[k][0]);
        k = k + 1;
    }
    StepCounts { grids_count: c.grids_count, counts }
}

/// For the free-spin `fs_coin_reveal_*` grids, per step reached by cash wins: the number
/// of grids, and per multiplier symbol the cells that first showed it in their round.
pub fn extract_fs_spin_multypliers(transactions: &Vec<Json>) -> (r: StepSymbolCounts)
    requires
        rounds_weight(rounds_items(transactions@, "fs_coin_reveal_"@, true, true)) <= u64::MAX,
        steps_in_range(rounds_items(transactions@, "fs_coin_reveal_"@, true, true)),
    ensures
        ({
            let st = step_scan_rounds(
                rounds_items(transactions@, "fs_coin_reveal_"@, true, true),
                seq!['+', ',', '-', '.', '/', '0'],
                transactions@.len(),
            );
            &&& r.grids_count@.len() == 25
            &&& r.counts@.len() == 25
            &&& forall|k: int| 0 <= k < 25 ==> #[trigger] r.grids_count@[k] == st.0[k]
            &&& forall|k: int| 0 <= k < 25 ==> (#[trigger] r.counts@[k]).len() == 6
            &&& forall|k: int, t: int| 0 <= k < 25 && 0 <= t < 6 ==> #[trigger] r.counts@[k]@[t] == st.1[k][t]
        }),
{
    let rounds = collect_rounds(transactions, "fs_coin_reveal_", true, true);
    count_first_seen_by_step(&rounds, &multiplier_symbols())
}

/// The letter that a grid symbol stands for in the reel files: the empty cells
/// `\\ ^ [ ]` are `A B C D`, the collector `)` is `E` and `*` is `F`, the coins
/// `G H I J` keep their letters, `= > ? @` are `K L M N`, the empty coin `(` is `O`, the
/// bonus `3` is `P`, `Q R S T` keep theirs, and the multipliers `+ , - . / 0` are
/// `U V W X Y Z`. Any other symbol stands for itself.
pub open spec fn symbol_letter(symbol: char) -> char {
    match symbol {
        '\\' => 'A',
        '^' => 'B',
        '[' => 'C',
        ']' => 'D',
        ')' => 'E',
        '*' => 'F',
        'G' => 'G',
        'H' => 'H',
        'I' => 'I',
        'J' => 'J',
        '=' => 'K',
        '>' => 'L',
        '?' => 'M',
        '@' => 'N',
        '(' => 'O',
        '3' => 'P',
        'Q' => 'Q',
        'R' => 'R',
        'S' => 'S',
        'T' => 'T',
        '+' => 'U',
        ',' => 'V',
        '-' => 'W',
        '.' => 'X',
        '/' => 'Y',
        '0' => 'Z',
        _ => symbol,
    }
}

/// The letter of a grid symbol.
pub fn _convert_symbol_to_letter(symbol: char) -> (r: char)
    ensures
        r == symbol_letter(symbol),
{
    match symbol {
        '\\' => 'A',
        '^' => 'B',
        '[' => 'C',
        ']' => 'D',
        ')' => 'E',
        '*' => 'F',
        'G' => 'G',
        'H' => 'H',
        'I' => 'I',
        'J' => 'J',
        '=' => 'K',
        '>' => 'L',
        '?' => 'M',
        '@' => 'N',
        '(' => 'O',
        '3' => 'P',
        'Q' => 'Q',
        'R' => 'R',
        'S' => 'S',
        'T' => 'T',
        '+' => 'U',
        ',' => 'V',
        '-' => 'W',
        '.' => 'X',
        '/' => 'Y',
        '0' => 'Z',
        _ => symbol,
    }
}

/// Whether every grid of every round holds the 25 cells that are read (`full_grids`).
pub fn grids_full(rounds: &Vec<Vec<Item>>) -> (r: bool)
    ensures
        r == full_grids(rounds_v(rounds@)),
{
    let ghost rs = rounds_v(rounds@);
    let mut i: usize = 0;
    while i < rounds.len()
        invariant
            rs == rounds_v(rounds@),
            i <= rounds.len(),
            forall|a: int, b: int|
                0 <= a < i && 0 <= b < rs[a].len() ==> (#[trigger] rs[a][b] matches ItemV::Grid(g) ==> g.len() >= 25),
        decreases rounds.len() - i,
    {
        let items = &rounds[i];
        assert(rs[i as int] == items_v(items@));
        let mut j: usize = 0;
        while j < items.len()
            invariant
                rs == rounds_v(rounds@),
                i < rounds.len(),
                items == &rounds@[i as int],
                rs[i as int] == items_v(items@),
                j <= items.len(),
                forall|b: int| 0 <= b < j ==> (#[trigger] rs[i as int][b] matches ItemV::Grid(g) ==> g.len() >= 25),
            decreases items.len() - j,
        {
            assert(rs[i as int][j as int] == item_v(items@[j as int]));
            match &items[j] {
                Item::Grid(g) => {
                    if g.len() < 25 {
                        return false;
                    }
                },
                Item::Step(_) => {},
            }
            j = j + 1;
        }
        i = i + 1;
    }
    true
}

/// Whether every grid of every round comes at a step below 25 (`steps_in_range`) and,
/// when `cells` holds, has at least as many empty coin cells as its step
/// (`cells_cover_steps`).
pub fn steps_fit(rounds: &Vec<Vec<Item>>, cells: bool) -> (r: bool)
    ensures
        r == (steps_in_range(rounds_v(rounds@)) && (cells ==> cells_cover_steps(rounds_v(rounds@)))),
{
    let ghost rs = rounds_v(rounds@);
    let mut i: usize = 0;
    while i < rounds.len()
        invariant
            rs == rounds_v(rounds@),
            i <= rounds.len(),
            forall|a: int, b: int|
                0 <= a < i && 0 <= b < rs[a].len() ==> (#[trigger] rs[a][b] is Grid ==> step_before(rs[a], b) < 25),
            cells ==> forall|a: int, b: int|
                0 <= a < i && 0 <= b < rs[a].len() ==> (#[trigger] rs[a][b] matches ItemV::Grid(g)
                    ==> crate::seqs::count_of(g, '(') >= step_before(rs[a], b)),
        decreases rounds.len() - i,
    {
        let items = &rounds[i];
        let ghost r = rs[i as int];
        assert(r == items_v(items@));
        let mut step: u64 = 0;
        let mut j: usize = 0;
        while j < items.len()
            invariant
                rs == rounds_v(rounds@),
                i < rounds.len(),
                items == &rounds@[i as int],
                r == rs[i as int],
                r == items_v(items@),
                j <= items.len(),
                step == step_before(r, j as int),
                forall|b: int| 0 <= b < j ==> (#[trigger] r[b] is Grid ==> step_before(r, b) < 25),
                cells ==> forall|b: int| 0 <= b < j ==> (#[trigger] r[b] matches ItemV::Grid(g)
                    ==> crate::seqs::count_of(g, '(') >= step_before(r, b)),
            decreases items.len() - j,
        {
            assert(r[j as int] == item_v(items@[j as int]));
            match &items[j] {
                Item::Grid(g) => {
                    if step >= 25 {
                        return false;
                    }
                    if cells && count_char_cells(g, '(') < step {
                        return false;
                    }
                },
                Item::Step(n) => {
                    step = *n;
                },
            }
            j = j + 1;
        }
        i = i + 1;
    }
    true
}

/// Each count paired with the letter of its symbol, in the order of the symbols.
pub fn lettered_counts(symbols: &Vec<char>, counts: &Vec<u64>) -> (r: Vec<(char, u64)>)
    requires
        symbols.len() == counts.len(),
    ensures
        r@.len() == symbols@.len(),
        forall|k: int| 0 <= k < r@.len() ==> #[trigger] r@[k] == (symbol_letter(symbols@[k]), counts@[k]),
{
    let mut r: Vec<(char, u64)> = Vec::new();
    let mut k: usize = 0;
    while k < symbols.len()
        invariant
            symbols.len() == counts.len(),
            k <= symbols.len(),
            r@.len() == k,
            forall|j: int| 0 <= j < k ==> #[trigger] r@[j] == (symbol_letter(symbols@[j]), counts@[j]),
        decreases symbols.len() - k,
    {
        r.push((_convert_symbol_to_letter(symbols[k]), counts[k]));
        k = k + 1;
    }
    r
}

/// The coin and multiplier symbols of the spin table, in order.
pub open spec fn coin_table() -> Seq<char> {
    seq!['=', '>', '?', '@', 'G', 'H', 'I', 'J', 'Q', 'R', 'S', 'T', ')', '+', ',', '-', '.', '/', '0']
}

/// The letters the spin table lists its counts under, in order.
pub open spec fn coin_letters() -> Seq<char> {
    seq!['K', 'L', 'M', 'N', 'G', 'H', 'I', 'J', 'Q', 'R', 'S', 'T', 'E', 'U', 'V', 'W', 'X', 'Y', 'Z']
}

/// Each coin or multiplier symbol of the spin table is written with the letter at its
/// place among K L M N G H I J Q R S T E U V W X Y Z: the count of the symbol at place
/// `k` is listed under that letter, whatever the counts are.
pub proof fn law_coin_symbols_lettered()
    ensures
        forall|k: int| 0 <= k < 19 ==> symbol_letter(#[trigger] coin_table()[k]) == coin_letters()[k],
{
    let table = coin_table();
    let letters = coin_letters();
    assert forall|k: int| 0 <= k < 19 implies symbol_letter(#[trigger] table[k]) == letters[k] by {
        assert(table[0] == '=' && table[1] == '>' && table[2] == '?' && table[3] == '@');
        assert(table[4] == 'G' && table[5] == 'H' && table[6] == 'I' && table[7] == 'J');
        assert(table[8] == 'Q' && table[9] == 'R' && table[10] == 'S' && table[11] == 'T');
        assert(table[12] == ')' && table[13] == '+' && table[14] == ',' && table[15] == '-');
        assert(table[16] == '.' && table[17] == '/' && table[18] == '0');
        assert(letters[0] == 'K' && letters[1] == 'L' && letters[2] == 'M' && letters[3] == 'N');
        assert(letters[4] == 'G' && letters[5] == 'H' && letters[6] == 'I' && letters[7] == 'J');
        assert(letters[8] == 'Q' && letters[9] == 'R' && letters[10] == 'S' && letters[11] == 'T');
        assert(letters[12] == 'E' && letters[13] == 'U' && letters[14] == 'V' && letters[15] == 'W');
        assert(letters[16] == 'X' && letters[17] == 'Y' && letters[18] == 'Z');
    }
}

/// The table of `_extract_spin_coin_values`, by letter: the number of grids, and for
/// each of the letters `K L M N G H I J Q R S T E U V W X Y Z` in turn, the cells that
/// first showed the symbol it names in their round.
pub fn _extract_spin_coin_values_by_letter(transactions: &Vec<Json>) -> (r: (u64, Vec<(char, u64)>))
    requires
        rounds_weight(rounds_items(transactions@, "coin_reveal_"@, true, false)) <= u64::MAX,
    ensures
        r.0 == grids_total(rounds_items(transactions@, "coin_reveal_"@, true, false)),
        r.1@.len() == 19,
        forall|k: int|
            0 <= k < 19 ==> (#[trigger] r.1@[k]).0 == seq![
                'K', 'L', 'M', 'N', 'G', 'H', 'I', 'J', 'Q', 'R', 'S', 'T', 'E', 'U', 'V', 'W', 'X', 'Y', 'Z'
            ][k] && r.1@[k].0 == symbol_letter(seq![
                '=', '>', '?', '@', 'G', 'H', 'I', 'J', 'Q', 'R', 'S', 'T', ')', '+', ',', '-', '.', '/', '0'
            ][k]) && r.1@[k].1 == scan_rounds(
                rounds_items(transactions@, "coin_reveal_"@, true, false),
                seq![
                    '=', '>', '?', '@', 'G', 'H', 'I', 'J', 'Q', 'R', 'S', 'T', ')', '+', ',', '-', '.', '/', '0'
                ],
                transactions@.len(),
            )[k],
{
    let c = _extract_spin_coin_values(transactions);
    let symbols = coin_and_multiplier_symbols();
    let r = lettered_counts(&symbols, &c.counts);
    proof {
        law_coin_symbols_lettered();
    }
    (c.grids_count, r)
}


/// The coin mask of a line reads the line down the grid: bit `b` of the mask of line
/// `line` is set exactly when cell `line + 5 b` holds something other than an empty coin
/// `(`; the mask is below 32.
pub proof fn law_line_mask_bits(g: Seq<char>, line: int, b: int)
    requires
        g.len() >= 25,
        0 <= line < 5,
        0 <= b < 5,
    ensures
        0 <= line_mask(g, line) < 32,
        (line_mask(g, line) / (vstd::arithmetic::power2::pow2(b as nat) as int)) % 2 == if g[line + 5 * b] != '(' {
            1int
        } else {
            0int
        },
{
    vstd::arithmetic::power2::lemma2_to64();
    let a0: int = if g[line] != '(' { 1 } else { 0 };
    let a1: int = if g[line + 5] != '(' { 1 } else { 0 };
    let a2: int = if g[line + 10] != '(' { 1 } else { 0 };
    let a3: int = if g[line + 15] != '(' { 1 } else { 0 };
    let a4: int = if g[line + 20] != '(' { 1 } else { 0 };
    let m = line_mask(g, line);
    assert(m == a0 + 2 * a1 + 4 * a2 + 8 * a3 + 16 * a4);
    assert(0 <= m < 32);
    if b == 0 {
        assert((a0 + 2 * a1 + 4 * a2 + 8 * a3 + 16 * a4) / 1 % 2 == a0) by (nonlinear_arith)
            requires 0 <= a0 <= 1, 0 <= a1 <= 1, 0 <= a2 <= 1, 0 <= a3 <= 1, 0 <= a4 <= 1;
    } else if b == 1 {
        assert((a0 + 2 * a1 + 4 * a2 + 8 * a3 + 16 * a4) / 2 % 2 == a1) by (nonlinear_arith)
            requires 0 <= a0 <= 1, 0 <= a1 <= 1, 0 <= a2 <= 1, 0 <= a3 <= 1, 0 <= a4 <= 1;
    } else if b == 2 {
        assert((a0 + 2 * a1 + 4 * a2 + 8 * a3 + 16 * a4) / 4 % 2 == a2) by (nonlinear_arith)
            requires 0 <= a0 <= 1, 0 <= a1 <= 1, 0 <= a2 <= 1, 0 <= a3 <= 1, 0 <= a4 <= 1;
    } else if b == 3 {
        assert((a0 + 2 * a1 + 4 * a2 + 8 * a3 + 16 * a4) / 8 % 2 == a3) by (nonlinear_arith)
            requires 0 <= a0 <= 1, 0 <= a1 <= 1, 0 <= a2 <= 1, 0 <= a3 <= 1, 0 <= a4 <= 1;
    } else {
        assert((a0 + 2 * a1 + 4 * a2 + 8 * a3 + 16 * a4) / 16 % 2 == a4) by (nonlinear_arith)
            requires 0 <= a0 <= 1, 0 <= a1 <= 1, 0 <= a2 <= 1, 0 <= a3 <= 1, 0 <= a4 <= 1;
    }
}


/// The cells of a grid text are the text after its first two characters, in order.
pub proof fn law_cells_skip_two(g: Seq<char>)
    ensures
        cells(g).len() == if g.len() >= 2 {
            g.len() - 2
        } else {
            0
        },
        forall|i: int| 0 <= i < cells(g).len() ==> #[trigger] cells(g)[i] == g[i + 2],
{
}

proof fn lemma_scan_cells_seen(seen: Set<int>, counts: Seq<int>, g: Seq<char>, table: Seq<char>, n: nat)
    requires
        n <= g.len(),
    ensures
        forall|i: int| 0 <= i < n && table_index(table, g[i]) >= 0 ==> #[trigger] scan_cells(seen, counts, g, table, n).0.contains(i),
        forall|i: int| #[trigger] seen.contains(i) ==> scan_cells(seen, counts, g, table, n).0.contains(i),
    decreases n,
{
    if n > 0 {
        lemma_scan_cells_seen(seen, counts, g, table, (n - 1) as nat);
        let prev = scan_cells(seen, counts, g, table, (n - 1) as nat);
        let cur = scan_cells(seen, counts, g, table, n);
        assert(forall|i: int| prev.0.contains(i) ==> cur.0.contains(i));
        assert forall|i: int| 0 <= i < n && table_index(table, g[i]) >= 0 implies #[trigger] cur.0.contains(i) by {
            if i < n - 1 {
                assert(prev.0.contains(i));
            }
        }
    }
}

proof fn lemma_scan_cells_none_new(seen: Set<int>, counts: Seq<int>, g: Seq<char>, table: Seq<char>, n: nat)
    requires
        n <= g.len(),
        forall|i: int| 0 <= i < g.len() && table_index(table, g[i]) >= 0 ==> #[trigger] seen.contains(i),
    ensures
        scan_cells(seen, counts, g, table, n) == (seen, counts),
    decreases n,
{
    if n > 0 {
        lemma_scan_cells_none_new(seen, counts, g, table, (n - 1) as nat);
        assert(table_index(table, g[n - 1]) >= 0 ==> seen.contains(n - 1));
    }
}

/// A symbol counts once per cell and round: a grid shown again in the same round counts
/// nothing more than its first showing.
pub proof fn law_grid_shown_again_counts_nothing(counts: Seq<int>, g: Seq<char>, table: Seq<char>)
    ensures
        scan_round(Set::empty(), counts, seq![ItemV::Grid(g), ItemV::Grid(g)], table, 2).1 == scan_round(
            Set::empty(),
            counts,
            seq![ItemV::Grid(g)],
            table,
            1,
        ).1,
{
    let r1 = seq![ItemV::Grid(g)];
    let r2 = seq![ItemV::Grid(g), ItemV::Grid(g)];
    let first = scan_cells(Set::empty(), counts, g, table, g.len());
    assert(scan_round(Set::empty(), counts, r1, table, 0) == (Set::<int>::empty(), counts));
    assert(scan_round(Set::empty(), counts, r2, table, 0) == (Set::<int>::empty(), counts));
    assert(scan_round(Set::empty(), counts, r1, table, 1) == first);
    assert(scan_round(Set::empty(), counts, r2, table, 1) == first);
    lemma_scan_cells_seen(Set::empty(), counts, g, table, g.len());
    lemma_scan_cells_none_new(first.0, first.1, g, table, g.len());
    assert(scan_round(Set::empty(), counts, r2, table, 2) == scan_cells(first.0, first.1, g, table, g.len()));
}


/// A `cashWin` action moves to the step its `data.h` text counts in `1`s; any other action
/// announces no step. An event is read when its name is the pattern, or with `prefix`
/// when its name starts with it.
pub proof fn law_steps_and_names(a: JsonV, h: Seq<char>, name: Seq<char>, pat: Seq<char>)
    ensures
        (as_text(get(Some(a), "at"@)) == Some("cashWin"@) && as_text(get(get(Some(a), "data"@), "h"@)) == Some(h))
            ==> action_step(a) == Some(crate::seqs::count_of(h, '1')),
        as_text(get(Some(a), "at"@)) != Some("cashWin"@) ==> action_step(a) is None,
        name_matches(Some(name), pat, false) <==> name == pat,
        name_matches(Some(name), pat, true) <==> (pat.len() <= name.len() && forall|i: int|
            0 <= i < pat.len() ==> #[trigger] name[i] == pat[i]),
        !name_matches(None, pat, true) && !name_matches(None, pat, false),
{
    if pat.len() <= name.len() && forall|i: int| 0 <= i < pat.len() ==> #[trigger] name[i] == pat[i] {
        assert(name.subrange(0, pat.len() as int) =~= pat);
    }
    if name_matches(Some(name), pat, true) {
        assert forall|i: int| 0 <= i < pat.len() implies #[trigger] name[i] == pat[i] by {
            assert(name.subrange(0, pat.len() as int)[i] == name[i]);
        }
    }
}

} // verus!


