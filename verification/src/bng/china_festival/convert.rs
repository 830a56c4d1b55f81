use vstd::prelude::*;

use crate::json::{
    Json, JsonV, as_int, as_list, as_text, get, get_array, get_i64, get_key, is_text, jv, jv_list,
    lemma_jv_list, ov,
};

verus! {

// ---------------------------------------------------------------------------------
// Names.

/// The name of a set of bonus mechanics: `Add` when mechanic 1 is in it, then `Twice`
/// for mechanic 2, then `Cluster` for mechanic 3; other ids add nothing.
pub open spec fn mechanics_text(add: bool, twice: bool, cluster: bool) -> Seq<char> {
    (if add {
        "Add"@
    } else {
        Seq::empty()
    }) + (if twice {
        "Twice"@
    } else {
        Seq::empty()
    }) + (if cluster {
        "Cluster"@
    } else {
        Seq::empty()
    })
}

pub(crate) fn mechanics_text_exec(add: bool, twice: bool, cluster: bool) -> (r: String)
    ensures
        r@ == mechanics_text(add, twice, cluster),
{
    let mut s = String::new();
    if add {
        s.append("Add");
    }
    if twice {
        s.append("Twice");
    }
    if cluster {
        s.append("Cluster");
    }
    assert(s@ =~= mechanics_text(add, twice, cluster));
    s
}

pub(crate) fn contains_i64(v: &Vec<i64>, x: i64) -> (r: bool)
    ensures
        r == v@.contains(x),
{
    let mut i: usize = 0;
    while i < v.len()
        invariant
            i <= v.len(),
            forall|k: int| 0 <= k < i ==> v@[k] != x,
        decreases v.len() - i,
    {
        if v[i] == x {
            return true;
        }
        i = i + 1;
    }
    false
}

fn contains_char(s: &str, c: char) -> (r: bool)
    ensures
        r == s@.contains(c),
{
    let n = s.unicode_len();
    let mut i: usize = 0;
    while i < n
        invariant
            n == s@.len(),
            i <= n,
            forall|k: int| 0 <= k < i ==> s@[k] != c,
        decreases n - i,
    {
        if s.get_char(i) == c {
            return true;
        }
        i = i + 1;
    }
    false
}

/// The name of the mechanics with the given ids.
pub fn mechanics_name(ids: Vec<i64>) -> (r: String)
    ensures
        r@ == mechanics_text(ids@.contains(1), ids@.contains(2), ids@.contains(3)),
{
    let add = contains_i64(&ids, 1);
    let twice = contains_i64(&ids, 2);
    let cluster = contains_i64(&ids, 3);
    mechanics_text_exec(add, twice, cluster)
}

/// The name of the mechanics whose ids are the decimal digits of a text.
pub fn mechanics_str_name(ids_str: &str) -> (r: String)
    ensures
        r@ == mechanics_text(ids_str@.contains('1'), ids_str@.contains('2'), ids_str@.contains('3')),
{
    let add = contains_char(ids_str, '1');
    let twice = contains_char(ids_str, '2');
    let cluster = contains_char(ids_str, '3');
    mechanics_text_exec(add, twice, cluster)
}

/// Whether a character is a decimal digit.
pub open spec fn is_digit(c: char) -> bool {
    '0' <= c <= '9'
}

/// The value of a text of decimal digits.
pub open spec fn digits_value(s: Seq<char>) -> int
    decreases s.len(),
{
    if s.len() == 0 {
        0
    } else {
        10 * digits_value(s.drop_last()) + (s.last() as int - '0' as int)
    }
}

/// The number an unsigned decimal text stands for: an optional `+`, then at least one
/// digit and nothing else.
pub open spec fn letter_number(s: Seq<char>) -> Option<int> {
    let d = unsigned_part(s);
    if d.len() > 0 && all_digits(d) {
        Some(digits_value(d))
    } else {
        None
    }
}

/// A text without its leading `+`, if it has one.
pub open spec fn unsigned_part(s: Seq<char>) -> Seq<char> {
    if s.len() > 0 && s[0] == '+' {
        s.drop_first()
    } else {
        s
    }
}

/// Whether every character of a text is a decimal digit.
pub open spec fn all_digits(d: Seq<char>) -> bool {
    forall|k: int| 0 <= k < d.len() ==> is_digit(#[trigger] d[k])
}

proof fn lemma_digits_take(s: Seq<char>, i: int)
    requires
        0 <= i < s.len(),
    ensures
        digits_value(s.take(i + 1)) == 10 * digits_value(s.take(i)) + (s[i] as int - '0' as int),
{
    assert(s.take(i + 1).drop_last() =~= s.take(i));
}

proof fn lemma_digits_value_nonneg(s: Seq<char>)
    requires
        forall|k: int| 0 <= k < s.len() ==> is_digit(#[trigger] s[k]),
    ensures
        digits_value(s) >= 0,
    decreases s.len(),
{
    if s.len() > 0 {
        assert forall|k: int| 0 <= k < s.drop_last().len() implies is_digit(#[trigger] s.drop_last()[k]) by {
            assert(s.drop_last()[k] == s[k]);
        }
        lemma_digits_value_nonneg(s.drop_last());
        assert(is_digit(s[s.len() - 1]));
    }
}

/// `char::to_string` (std's `ToString` for `char`): the text of that one character, as
/// the contract claims.
#[verifier::external_body]
pub(crate) fn char_text(c: char) -> (r: String)
    ensures
        r@ == seq![c],
{
    c.to_string()
}

/// The letter that a number text from 1 to 26 stands for: `1` is `A`, `26` is `Z`.
/// Anything that does not read as an unsigned number in that range gives `None`.
pub fn num_str_to_letter(s: &str) -> (r: Option<String>)
    ensures
        match letter_number(s@) {
            Some(n) => if 1 <= n <= 26 {
                r matches Some(t) && t@ == seq![(64 + n) as char]
            } else {
                r is None
            },
            None => r is None,
        },
{
    let len = s.unicode_len();
    let start: usize = if len > 0 && s.get_char(0) == '+' {
        1
    } else {
        0
    };
    let ghost d = unsigned_part(s@);
    assert(d =~= s@.subrange(start as int, len as int));
    if start >= len {
        return None;
    }
    // the value, held at 27 once it passes 26
    let mut v: u64 = 0;
    let mut i: usize = start;
    while i < len
        invariant
            len == s@.len(),
            start <= i <= len,
            d == s@.subrange(start as int, len as int),
            d == unsigned_part(s@),
            forall|k: int| 0 <= k < i - start ==> is_digit(#[trigger] d[k]),
            v <= 27,
            v < 27 ==> v == digits_value(d.take(i - start)),
            v == 27 ==> digits_value(d.take(i - start)) > 26,
        decreases len - i,
    {
        let c = s.get_char(i);
        let ghost k = i - start;
        assert(d[k] == c);
        if !('0' <= c && c <= '9') {
            assert(!is_digit(d[k]));
            assert(!all_digits(d));
            return None;
        }
        proof {
            lemma_digits_take(d, k);
            assert forall|q: int| 0 <= q < k implies is_digit(#[trigger] d.take(k)[q]) by {
                assert(d.take(k)[q] == d[q]);
            }
            lemma_digits_value_nonneg(d.take(k));
        }
        let digit = (c as u32 - '0' as u32) as u64;
        if v == 27 {
            v = 27;
        } else {
            let w = 10 * v + digit;
            v = if w > 26 {
                27
            } else {
                w
            };
        }
        i = i + 1;
    }
    assert(d.take(d.len() as int) =~= d);
    if v >= 1 && v <= 26 {
        let b = v as u8;
        let letter = (64u8 + b) as char;
        Some(char_text(letter))
    } else {
        None
    }
}

/// The decimal text of a number below 100.
pub open spec fn decimal_text(n: nat) -> Seq<char> {
    if n < 10 {
        seq![(48 + n) as char]
    } else {
        seq![(48 + n / 10) as char, (48 + n % 10) as char]
    }
}

/// Every number from 1 to 26, written in decimal, reads back as itself, so it names the
/// letter at its place in the alphabet.
pub proof fn law_letter_numbers_read_back(n: nat)
    requires
        1 <= n <= 26,
    ensures
        letter_number(decimal_text(n)) == Some(n as int),
{
    let d = decimal_text(n);
    if n < 10 {
        assert(((48 + n) as char) as int == 48 + n);
        assert(d.drop_last() =~= Seq::<char>::empty());
        assert(digits_value(d.drop_last()) == 0);
        assert(d.last() == (48 + n) as char);
        assert(digits_value(d) == n);
    } else {
        let hi = (48 + n / 10) as char;
        let lo = (48 + n % 10) as char;
        assert(hi as int == 48 + n / 10);
        assert(lo as int == 48 + n % 10);
        assert(d.drop_last() =~= seq![hi]);
        assert(seq![hi].drop_last() =~= Seq::<char>::empty());
        assert(seq![hi].last() == hi);
        assert(digits_value(Seq::<char>::empty()) == 0);
        assert(digits_value(seq![hi]) == n / 10);
        assert(digits_value(d) == 10 * (n / 10) + n % 10);
    }
    assert(d[0] != '+');
}

// ---------------------------------------------------------------------------------
// Wins by amount.

/// The lower end of amount bin `i`, per unit of bet.
pub open spec fn bin_low(i: int) -> i64 {
    if i == 0 { 0 } else if i == 1 { 1 } else if i == 2 { 5 } else if i == 3 { 10 } else if i == 4 { 50 }
    else if i == 5 { 100 } else if i == 6 { 200 } else if i == 7 { 300 } else if i == 8 { 400 }
    else if i == 9 { 500 } else if i == 10 { 600 } else if i == 11 { 800 } else if i == 12 { 1000 }
    else if i == 13 { 2000 } else if i == 14 { 3000 } else if i == 15 { 5000 } else if i == 16 { 6000 }
    else if i == 17 { 7000 } else if i == 18 { 8000 } else if i == 19 { 9000 } else if i == 20 { 10000 }
    else { 11000 }
}

/// The upper end of amount bin `i` (left out of it), per unit of bet.
pub open spec fn bin_high(i: int) -> i64 {
    if i == 21 {
        1000000
    } else {
        bin_low(i + 1)
    }
}

/// The 22 amount bins, in order.
pub open spec fn amount_bins() -> Seq<(i64, i64)> {
    Seq::new(22, |i: int| (bin_low(i), bin_high(i)))
}

pub open spec fn fits_i64(x: int) -> bool {
    i64::MIN <= x <= i64::MAX
}

/// The first bin from `i` on whose range, scaled by the bet, holds the win.
pub open spec fn first_bin(win: i64, bet: i64, i: nat) -> Option<nat>
    decreases 22 - i,
{
    if i >= 22 {
        None
    } else if bet * amount_bins()[i as int].0 <= win && win < bet * amount_bins()[i as int].1 {
        Some(i)
    } else {
        first_bin(win, bet, i + 1)
    }
}

/// Whether reading the bins from `i` on computes only products that fit an `i64`: the
/// reading stops at the first bin that holds the win when `counted` holds, and the upper
/// product of a bin is computed only when the win reaches its lower one.
pub open spec fn bins_fit(win: i64, bet: i64, counted: bool, i: nat) -> bool
    decreases 22 - i,
{
    if i >= 22 {
        true
    } else {
        let lo = bet * amount_bins()[i as int].0;
        let hi = bet * amount_bins()[i as int].1;
        &&& fits_i64(lo)
        &&& (win >= lo ==> fits_i64(hi))
        &&& (counted && lo <= win && win < hi || bins_fit(win, bet, counted, i + 1))
    }
}

/// The context of a played transaction whose status is `OK`.
pub open spec fn played_context(t: JsonV) -> Option<JsonV> {
    let out = get(Some(t), "out"@);
    if as_text(get(out, "command"@)) == Some("play"@) && as_text(get(get(out, "status"@), "code"@)) == Some("OK"@) {
        get(out, "context"@)
    } else {
        None
    }
}

pub open spec fn int_or_zero(o: Option<JsonV>) -> i64 {
    match as_int(o) {
        Some(v) => v,
        None => 0,
    }
}

pub open spec fn list_len(o: Option<JsonV>) -> nat {
    match as_list(o) {
        Some(xs) => xs.len(),
        None => 0,
    }
}

/// How many of the first `n` values are arrays.
pub open spec fn arrays_in(xs: Seq<JsonV>, n: nat) -> nat
    decreases n,
{
    if n == 0 || n > xs.len() {
        0
    } else {
        arrays_in(xs, (n - 1) as nat) + if as_list(Some(xs[n - 1])) is Some {
            1nat
        } else {
            0nat
        }
    }
}

/// How many of the first `n` mysteries have an `id` from `lo` to `hi`.
pub open spec fn mysteries_with(xs: Seq<JsonV>, lo: i64, hi: i64, n: nat) -> nat
    decreases n,
{
    if n == 0 || n > xs.len() {
        0
    } else {
        mysteries_with(xs, lo, hi, (n - 1) as nat) + match as_int(get(Some(xs[n - 1]), "id"@)) {
            Some(v) => if lo <= v <= hi {
                1nat
            } else {
                0nat
            },
            None => 0nat,
        }
    }
}

/// Whether the integers among the values hold `x`.
pub open spec fn has_int(col: Seq<JsonV>, x: i64) -> bool {
    exists|k: int| 0 <= k < col.len() && as_int(Some(#[trigger] col[k])) == Some(x)
}

/// Whether some column of a board holds two of the bonus symbols 11, 12 and 13.
pub open spec fn board_two_bonus(board: Option<JsonV>) -> bool {
    match as_list(board) {
        Some(cols) => exists|c: int|
            0 <= c < cols.len() && match as_list(Some(#[trigger] cols[c])) {
                Some(col) => (has_int(col, 11) && has_int(col, 12)) || (has_int(col, 12) && has_int(col, 13))
                    || (has_int(col, 13) && has_int(col, 11)),
                None => false,
            },
        None => false,
    }
}

/// What the checks of a respin count.
pub struct RespinTally {
    pub new_bs: nat,
    pub collect: nat,
    pub double: nat,
    pub boost: nat,
    pub mystery: nat,
    pub mystery_bonus: nat,
    pub mystery_boost: nat,
    pub mystery_double: nat,
    pub mystery_collect: nat,
}

pub open spec fn respin_tally(bonus: Option<JsonV>) -> RespinTally {
    let new_bs = match as_list(get(bonus, "new_bs"@)) {
        Some(xs) => arrays_in(xs, xs.len()),
        None => 0,
    };
    let ms = match as_list(get(bonus, "mystery_values"@)) {
        Some(xs) => xs,
        None => Seq::empty(),
    };
    RespinTally {
        new_bs: new_bs,
        collect: list_len(get(bonus, "collect_values"@)),
        double: list_len(get(bonus, "double_values"@)),
        boost: list_len(get(bonus, "boost_values"@)),
        mystery: ms.len(),
        mystery_bonus: mysteries_with(ms, 11, 13, ms.len()),
        mystery_boost: mysteries_with(ms, 11, 11, ms.len()),
        mystery_double: mysteries_with(ms, 12, 12, ms.len()),
        mystery_collect: mysteries_with(ms, 13, 13, ms.len()),
    }
}

/// Whether the respin checks subtract nothing below zero.
pub open spec fn respin_tally_ok(r: RespinTally) -> bool {
    &&& r.new_bs >= r.collect + r.double + r.boost + (r.mystery - r.mystery_bonus)
    &&& r.new_bs >= r.mystery
    &&& r.collect >= r.mystery_collect
    &&& r.double >= r.mystery_double
    &&& r.boost >= r.mystery_boost
}

/// `more2` when `n` passes 2, else `more1` when it passes 1.
pub open spec fn level_label(n: int, more2: Seq<char>, more1: Seq<char>) -> Seq<Seq<char>> {
    if n > 2 {
        seq![more2]
    } else if n > 1 {
        seq![more1]
    } else {
        Seq::empty()
    }
}

/// `a` when the first holds, else `b` when the second does, else `c` when the third does.
pub open spec fn first_label(x: bool, a: Seq<char>, y: bool, b: Seq<char>, z: bool, c: Seq<char>) -> Seq<Seq<char>> {
    if x {
        seq![a]
    } else if y {
        seq![b]
    } else if z {
        seq![c]
    } else {
        Seq::empty()
    }
}

/// The labels of the checks of a respin, in order.
pub open spec fn respin_labels(r: RespinTally) -> Seq<Seq<char>> {
    respin_labels_after(Seq::empty(), r)
}

/// The labels `pre` followed by those of a respin's checks, in order.
pub open spec fn respin_labels_after(pre: Seq<Seq<char>>, r: RespinTally) -> Seq<Seq<char>> {
    let coins = r.new_bs - r.collect - r.double - r.boost - (r.mystery - r.mystery_bonus);
    let cf = r.collect - r.mystery_collect;
    let df = r.double - r.mystery_double;
    let bf = r.boost - r.mystery_boost;
    pre + level_label(coins, "coin_more_2_without_bonus_symbols_and_mystery"@, "coin_more_1_without_bonus_symbols_and_mystery"@)
        + level_label(r.new_bs - r.mystery, "coin_and_bonus_symbols_more_2_without_mystery"@, "coin_and_bonus_symbols_more_1_without_mystery"@)
        + level_label(r.mystery as int, "mystery_values_more_2"@, "mystery_values_more_1"@)
        + level_label(cf, "collect_values_more_2_without_mystery"@, "collect_values_more_1_without_mystery"@)
        + level_label(r.collect as int, "collect_values_with_mystery_more_2"@, "collect_values_with_mystery_more_1"@)
        + level_label(df, "double_values_more_2_without_mystery"@, "double_values_more_1_without_mystery"@)
        + level_label(r.double as int, "double_values_with_mystery_more_2"@, "double_values_with_mystery_more_1"@)
        + level_label(bf, "boost_values_more_2_without_mystery"@, "boost_values_more_1_without_mystery"@)
        + level_label(r.boost as int, "boost_values_with_mystery_more_2"@, "boost_values_with_mystery_more_1"@)
        + first_label(
            bf > 1 && df > 1, "boost_values_and_double_values_more_1_without_mystery"@,
            bf > 0 && df > 0, "boost_values_and_double_values_without_mystery"@,
            r.boost > 0 && r.double > 0, "boost_values_and_double_values_with_mystery"@,
        )
        + first_label(
            bf > 1 && cf > 1, "boost_values_and_collect_values_more_1_without_mystery"@,
            bf > 0 && cf > 0, "boost_values_and_collect_values_without_mystery"@,
            r.boost > 0 && r.collect > 0, "boost_values_and_collect_values_with_mystery"@,
        )
        + first_label(
            cf > 1 && df > 1, "collect_values_and_double_values_more_1_without_mystery"@,
            cf > 0 && df > 0, "collect_values_and_double_values_without_mystery"@,
            r.collect > 0 && r.double > 0, "collect_values_and_double_values_with_mystery"@,
        )
        + first_label(
            cf > 1 && df > 1 && bf > 1, "collect_values_and_double_valuess_and_boost_values_more_1_without_mystery"@,
            cf > 0 && df > 0 && bf > 0, "collect_values_and_double_values_and_boost_values_without_mystery"@,
            r.collect > 0 && r.double > 0 && r.boost > 0, "collect_values_and_double_values_and_boost_values_with_mystery"@,
        )
}

/// The labels of the checks of a bonus start.
pub open spec fn init_labels(bonus: Option<JsonV>) -> Seq<Seq<char>> {
    let bs_count = int_or_zero(get(bonus, "bs_count"@)) as usize;
    let others = list_len(get(bonus, "collect_values"@)) + list_len(get(bonus, "double_values"@)) + list_len(
        get(bonus, "boost_values"@),
    );
    (if list_len(get(bonus, "mystery_values"@)) > 0 {
        seq!["bonus_init_mystery_values"@]
    } else {
        Seq::empty()
    }) + (if bs_count > others + 5 {
        seq!["bonus_init_more_5"@]
    } else {
        Seq::empty()
    })
}

/// The labels of the checks of a transaction, in order.
pub open spec fn check_labels(t: JsonV) -> Seq<Seq<char>> {
    match played_context(t) {
        Some(ctx) => {
            let current = as_text(get(Some(ctx), "current"@));
            let action = as_text(get(Some(ctx), "last_action"@));
            if current == Some("spins"@) {
                if board_two_bonus(get(get(Some(ctx), "spins"@), "board"@)) {
                    seq!["base_game_more_one_bonus_in_column"@]
                } else {
                    Seq::empty()
                }
            } else if current == Some("bonus"@) {
                if action == Some("bonus_init"@) {
                    init_labels(get(Some(ctx), "bonus"@))
                } else if action == Some("respin"@) {
                    respin_labels(respin_tally(get(Some(ctx), "bonus"@)))
                } else {
                    Seq::empty()
                }
            } else {
                Seq::empty()
            }
        },
        None => Seq::empty(),
    }
}

/// The bet of a spin: its round bet, or for a bought mode 1 or 2, 100 or 300 times 20
/// times the bet per line.
pub open spec fn spin_bet(ctx: JsonV) -> int {
    let spins = get(Some(ctx), "spins"@);
    let action = as_text(get(Some(ctx), "last_action"@));
    let mode = as_text(get(spins, "selected_mode"@));
    let per_line = int_or_zero(get(get(Some(ctx), "last_args"@), "bet_per_line"@));
    if action == Some("spin"@) {
        int_or_zero(get(spins, "round_bet"@)) as int
    } else if action == Some("buy_spin"@) {
        if mode == Some("1"@) {
            100 * 20 * per_line
        } else if mode == Some("2"@) {
            300 * 20 * per_line
        } else {
            0
        }
    } else {
        0
    }
}

/// The section a spin counts in: 0 for a plain spin, 1 and 2 for bought modes.
pub open spec fn spin_section(ctx: JsonV) -> Option<nat> {
    let action = as_text(get(Some(ctx), "last_action"@));
    let mode = as_text(get(get(Some(ctx), "spins"@), "selected_mode"@));
    if action == Some("spin"@) {
        Some(0)
    } else if action == Some("buy_spin"@) && mode == Some("1"@) {
        Some(1)
    } else if action == Some("buy_spin"@) && mode == Some("2"@) {
        Some(2)
    } else {
        None
    }
}

/// The section a bonus counts in: 3, 4 and 5 for the bonus scenarios 0, 1 and 2.
pub open spec fn bonus_section(ctx: JsonV) -> Option<nat> {
    let sc = as_int(get(get(Some(ctx), "bonus"@), "bonus_scenario"@));
    if sc == Some(0i64) {
        Some(3)
    } else if sc == Some(1i64) {
        Some(4)
    } else if sc == Some(2i64) {
        Some(5)
    } else {
        None
    }
}

/// The win, the bet and the section of a played round, when it is a spin or a bonus.
pub open spec fn round_of(t: JsonV) -> Option<(i64, int, Option<nat>)> {
    match played_context(t) {
        Some(ctx) => {
            let current = as_text(get(Some(ctx), "current"@));
            if current == Some("spins"@) {
                Some((int_or_zero(get(get(Some(ctx), "spins"@), "round_win"@)), spin_bet(ctx), spin_section(ctx)))
            } else if current == Some("bonus"@) {
                let bonus = get(Some(ctx), "bonus"@);
                Some((int_or_zero(get(bonus, "round_win"@)), int_or_zero(get(bonus, "round_bet"@)) as int, bonus_section(ctx)))
            } else {
                None
            }
        },
        None => None,
    }
}

/// The section and bin a transaction counts in: a positive win of a counted section, in
/// the first bin whose range, scaled by the bet, holds it.
pub open spec fn amount_cell(t: JsonV) -> Option<(nat, nat)> {
    match round_of(t) {
        Some((win, bet, Some(sec))) => if win > 0 {
            match first_bin(win, bet as i64, 0) {
                Some(b) => Some((sec, b)),
                None => None,
            }
        } else {
            None
        },
        _ => None,
    }
}

/// Whether a transaction reads without overflow or underflow.
pub open spec fn amount_safe(t: JsonV) -> bool {
    match played_context(t) {
        Some(ctx) => {
            let current = as_text(get(Some(ctx), "current"@));
            let action = as_text(get(Some(ctx), "last_action"@));
            &&& (current == Some("bonus"@) && action != Some("bonus_init"@) && action == Some("respin"@)
                ==> respin_tally_ok(respin_tally(get(Some(ctx), "bonus"@))))
            &&& match round_of(t) {
                Some((win, bet, sec)) => fits_i64(bet) && (win > 0 ==> bins_fit(win, bet as i64, sec is Some, 0)),
                None => true,
            }
        },
        None => true,
    }
}

/// The labels of a list of checks, with the transaction each belongs to.
pub open spec fn labels_view(v: Seq<(String, usize)>) -> Seq<(Seq<char>, usize)> {
    v.map_values(|e: (String, usize)| (e.0@, e.1))
}

/// Labels tagged with the transaction `i`.
pub open spec fn tagged(ls: Seq<Seq<char>>, i: usize) -> Seq<(Seq<char>, usize)> {
    ls.map_values(|l: Seq<char>| (l, i))
}

/// Every check label of the first `n` transactions, each with its transaction.
pub open spec fn all_labels(ts: Seq<Json>, n: nat) -> Seq<(Seq<char>, usize)>
    decreases n,
{
    if n == 0 || n > ts.len() {
        Seq::empty()
    } else {
        all_labels(ts, (n - 1) as nat) + tagged(check_labels(jv(ts[n - 1])), (n - 1) as usize)
    }
}

/// How many of the first `n` transactions count in bin `b` of section `s`.
pub open spec fn cell_count(ts: Seq<Json>, s: nat, b: nat, n: nat) -> nat
    decreases n,
{
    if n == 0 || n > ts.len() {
        0
    } else {
        cell_count(ts, s, b, (n - 1) as nat) + if amount_cell(jv(ts[n - 1])) == Some((s, b)) {
            1nat
        } else {
            0nat
        }
    }
}

pub open spec fn texts(v: Seq<String>) -> Seq<Seq<char>> {
    v.map_values(|s: String| s@)
}

fn push_text(out: &mut Vec<String>, label: &str)
    ensures
        texts(final(out)@) == texts(old(out)@) + seq![label@],
{
    let ghost before = texts(out@);
    out.push(label.to_owned());
    assert(texts(out@) =~= before + seq![label@]);
}

fn push_level(out: &mut Vec<String>, n: i128, more2: &str, more1: &str)
    ensures
        texts(final(out)@) == texts(old(out)@) + level_label(n as int, more2@, more1@),
{
    if n > 2 {
        push_text(out, more2);
    } else if n > 1 {
        push_text(out, more1);
    } else {
        assert(texts(out@) =~= texts(out@) + Seq::<Seq<char>>::empty());
    }
}

fn push_first(out: &mut Vec<String>, x: bool, a: &str, y: bool, b: &str, z: bool, c: &str)
    ensures
        texts(final(out)@) == texts(old(out)@) + first_label(x, a@, y, b@, z, c@),
{
    if x {
        push_text(out, a);
    } else if y {
        push_text(out, b);
    } else if z {
        push_text(out, c);
    } else {
        assert(texts(out@) =~= texts(out@) + Seq::<Seq<char>>::empty());
    }
}

fn list_len_exec(o: Option<&Json>) -> (r: usize)
    ensures
        r == list_len(ov(o)),
{
    match get_array(o) {
        Some(xs) => {
            proof {
                lemma_jv_list(xs@);
            }
            xs.len()
        },
        None => 0,
    }
}

fn int_or_zero_exec(o: Option<&Json>) -> (r: i64)
    ensures
        r == int_or_zero(ov(o)),
{
    match get_i64(o) {
        Some(v) => v,
        None => 0,
    }
}

fn arrays_in_exec(xs: &Vec<Json>) -> (r: usize)
    ensures
        r == arrays_in(jv_list(xs@), xs@.len()),
{
    proof {
        lemma_jv_list(xs@);
    }
    let ghost v = jv_list(xs@);
    let mut k: usize = 0;
    let mut i: usize = 0;
    while i < xs.len()
        invariant
            v == jv_list(xs@),
            v.len() == xs@.len(),
            forall|j: int| 0 <= j < xs@.len() ==> #[trigger] v[j] == jv(xs@[j]),
            i <= xs.len(),
            k <= i,
            k == arrays_in(v, i as nat),
        decreases xs.len() - i,
    {
        assert(v[i as int] == jv(xs@[i as int]));
        if get_array(Some(&xs[i])).is_some() {
            k = k + 1;
        }
        i = i + 1;
    }
    k
}

fn mysteries_with_exec(xs: &Vec<Json>, lo: i64, hi: i64) -> (r: usize)
    ensures
        r == mysteries_with(jv_list(xs@), lo, hi, xs@.len()),
        r <= xs@.len(),
{
    proof {
        lemma_jv_list(xs@);
    }
    let ghost v = jv_list(xs@);
    let mut k: usize = 0;
    let mut i: usize = 0;
    while i < xs.len()
        invariant
            v == jv_list(xs@),
            v.len() == xs@.len(),
            forall|j: int| 0 <= j < xs@.len() ==> #[trigger] v[j] == jv(xs@[j]),
            i <= xs.len(),
            k <= i,
            k == mysteries_with(v, lo, hi, i as nat),
        decreases xs.len() - i,
    {
        assert(v[i as int] == jv(xs@[i as int]));
        match get_i64(get_key(Some(&xs[i]), "id")) {
            Some(x) => {
                if lo <= x && x <= hi {
                    k = k + 1;
                }
            },
            None => {},
        }
        i = i + 1;
    }
    k
}

fn has_int_exec(xs: &Vec<Json>, x: i64) -> (r: bool)
    ensures
        r == has_int(jv_list(xs@), x),
{
    proof {
        lemma_jv_list(xs@);
    }
    let ghost v = jv_list(xs@);
    let mut i: usize = 0;
    while i < xs.len()
        invariant
            v == jv_list(xs@),
            v.len() == xs@.len(),
            forall|j: int| 0 <= j < xs@.len() ==> #[trigger] v[j] == jv(xs@[j]),
            i <= xs.len(),
            forall|j: int| 0 <= j < i ==> as_int(Some(#[trigger] v[j])) != Some(x),
        decreases xs.len() - i,
    {
        assert(v[i as int] == jv(xs@[i as int]));
        if get_i64(Some(&xs[i])) == Some(x) {
            return true;
        }
        i = i + 1;
    }
    false
}

fn board_two_bonus_exec(board: Option<&Json>) -> (r: bool)
    ensures
        r == board_two_bonus(ov(board)),
{
    match get_array(board) {
        Some(cols) => {
            proof {
                lemma_jv_list(cols@);
            }
            let ghost v = jv_list(cols@);
            let mut c: usize = 0;
            while c < cols.len()
                invariant
                    v == jv_list(cols@),
                    v.len() == cols@.len(),
                    as_list(ov(board)) == Some(v),
                    forall|j: int| 0 <= j < cols@.len() ==> #[trigger] v[j] == jv(cols@[j]),
                    c <= cols.len(),
                    forall|j: int|
                        0 <= j < c ==> !(match as_list(Some(#[trigger] v[j])) {
                            Some(col) => (has_int(col, 11) && has_int(col, 12)) || (has_int(col, 12) && has_int(col, 13))
                                || (has_int(col, 13) && has_int(col, 11)),
                            None => false,
                        }),
                decreases cols.len() - c,
            {
                assert(v[c as int] == jv(cols@[c as int]));
                match get_array(Some(&cols[c])) {
                    Some(col) => {
                        proof {
                            lemma_jv_list(col@);
                        }
                        let a = has_int_exec(col, 11);
                        let b = has_int_exec(col, 12);
                        let d = has_int_exec(col, 13);
                        if (a && b) || (b && d) || (d && a) {
                            return true;
                        }
                    },
                    None => {},
                }
                c = c + 1;
            }
            false
        },
        None => false,
    }
}

/// The context of a played transaction whose status is `OK`.
fn played_context_exec(t: &Json) -> (r: Option<&Json>)
    ensures
        ov(r) == played_context(jv(*t)),
{
    let out = get_key(Some(t), "out");
    if is_text(get_key(out, "command"), "play") && is_text(get_key(get_key(out, "status"), "code"), "OK") {
        get_key(out, "context")
    } else {
        None
    }
}

/// The counts a respin's checks read.
fn respin_tally_exec(bonus: Option<&Json>) -> (r: (usize, usize, usize, usize, usize, usize, usize, usize, usize))
    ensures
        ({
            let rt = respin_tally(ov(bonus));
            r.0 == rt.new_bs && r.1 == rt.collect && r.2 == rt.double && r.3 == rt.boost && r.4 == rt.mystery
                && r.5 == rt.mystery_bonus && r.6 == rt.mystery_boost && r.7 == rt.mystery_double && r.8
                == rt.mystery_collect
        }),
        r.5 <= r.4,
{
    let new_bs = match get_array(get_key(bonus, "new_bs")) {
        Some(xs) => {
            proof {
                lemma_jv_list(xs@);
            }
            arrays_in_exec(xs)
        },
        None => 0,
    };
    let collect = list_len_exec(get_key(bonus, "collect_values"));
    let double = list_len_exec(get_key(bonus, "double_values"));
    let boost = list_len_exec(get_key(bonus, "boost_values"));
    match get_array(get_key(bonus, "mystery_values")) {
        Some(ms) => {
            proof {
                lemma_jv_list(ms@);
            }
            (
                new_bs,
                collect,
                double,
                boost,
                ms.len(),
                mysteries_with_exec(ms, 11, 13),
                mysteries_with_exec(ms, 11, 11),
                mysteries_with_exec(ms, 12, 12),
                mysteries_with_exec(ms, 13, 13),
            )
        },
        None => {
            assert(respin_tally(ov(bonus)).mystery == 0);
            (new_bs, collect, double, boost, 0, 0, 0, 0, 0)
        },
    }
}

fn respin_checks(bonus: Option<&Json>, out: &mut Vec<String>)
    requires
        respin_tally_ok(respin_tally(ov(bonus))),
    ensures
        texts(final(out)@) == respin_labels_after(texts(old(out)@), respin_tally(ov(bonus))),
{
    let ghost start = texts(out@);
    let (new_bs, collect, double, boost, mystery, mystery_bonus, m11, m12, m13) = respin_tally_exec(bonus);
    let nb = new_bs as i128;
    let c = collect as i128;
    let d = double as i128;
    let b = boost as i128;
    let m = mystery as i128;
    let cf = c - m13 as i128;
    let df = d - m12 as i128;
    let bf = b - m11 as i128;
    let coins = nb - c - d - b - (m - mystery_bonus as i128);
    push_level(out, coins, "coin_more_2_without_bonus_symbols_and_mystery", "coin_more_1_without_bonus_symbols_and_mystery");
    push_level(out, nb - m, "coin_and_bonus_symbols_more_2_without_mystery", "coin_and_bonus_symbols_more_1_without_mystery");
    push_level(out, m, "mystery_values_more_2", "mystery_values_more_1");
    push_level(out, cf, "collect_values_more_2_without_mystery", "collect_values_more_1_without_mystery");
    push_level(out, c, "collect_values_with_mystery_more_2", "collect_values_with_mystery_more_1");
    push_level(out, df, "double_values_more_2_without_mystery", "double_values_more_1_without_mystery");
    push_level(out, d, "double_values_with_mystery_more_2", "double_values_with_mystery_more_1");
    push_level(out, bf, "boost_values_more_2_without_mystery", "boost_values_more_1_without_mystery");
    push_level(out, b, "boost_values_with_mystery_more_2", "boost_values_with_mystery_more_1");
    push_first(
        out,
        bf > 1 && df > 1, "boost_values_and_double_values_more_1_without_mystery",
        bf > 0 && df > 0, "boost_values_and_double_values_without_mystery",
        b > 0 && d > 0, "boost_values_and_double_values_with_mystery",
    );
    push_first(
        out,
        bf > 1 && cf > 1, "boost_values_and_collect_values_more_1_without_mystery",
        bf > 0 && cf > 0, "boost_values_and_collect_values_without_mystery",
        b > 0 && c > 0, "boost_values_and_collect_values_with_mystery",
    );
    push_first(
        out,
        cf > 1 && df > 1, "collect_values_and_double_values_more_1_without_mystery",
        cf > 0 && df > 0, "collect_values_and_double_values_without_mystery",
        c > 0 && d > 0, "collect_values_and_double_values_with_mystery",
    );
    push_first(
        out,
        cf > 1 && df > 1 && bf > 1, "collect_values_and_double_valuess_and_boost_values_more_1_without_mystery",
        cf > 0 && df > 0 && bf > 0, "collect_values_and_double_values_and_boost_values_without_mystery",
        c > 0 && d > 0 && b > 0, "collect_values_and_double_values_and_boost_values_with_mystery",
    );
}

fn init_checks(bonus: Option<&Json>, out: &mut Vec<String>)
    ensures
        texts(final(out)@) == texts(old(out)@) + init_labels(ov(bonus)),
{
    let ghost start = texts(out@);
    let mystery = list_len_exec(get_key(bonus, "mystery_values"));
    if mystery > 0 {
        push_text(out, "bonus_init_mystery_values");
    }
    let bs_count = int_or_zero_exec(get_key(bonus, "bs_count")) as usize;
    let others = list_len_exec(get_key(bonus, "collect_values")) as u128 + list_len_exec(get_key(bonus, "double_values")) as u128
        + list_len_exec(get_key(bonus, "boost_values")) as u128;
    if bs_count as u128 > others + 5 {
        push_text(out, "bonus_init_more_5");
    }
    assert(texts(out@) =~= start + init_labels(ov(bonus)));
}

/// The labels of the checks of one transaction.
fn transaction_checks(t: &Json) -> (r: Vec<String>)
    requires
        amount_safe(jv(*t)),
    ensures
        texts(r@) == check_labels(jv(*t)),
{
    let mut out: Vec<String> = Vec::new();
    let ctx = played_context_exec(t);
    if ctx.is_none() {
        assert(texts(out@) =~= check_labels(jv(*t)));
        return out;
    }
    let current = get_key(ctx, "current");
    let action = get_key(ctx, "last_action");
    if is_text(current, "spins") {
        if board_two_bonus_exec(get_key(get_key(ctx, "spins"), "board")) {
            push_text(&mut out, "base_game_more_one_bonus_in_column");
        }
    } else if is_text(current, "bonus") {
        let bonus = get_key(ctx, "bonus");
        if is_text(action, "bonus_init") {
            init_checks(bonus, &mut out);
        } else if is_text(action, "respin") {
            assert(texts(out@) =~= Seq::<Seq<char>>::empty());
            respin_checks(bonus, &mut out);
        }
    }
    assert(texts(out@) =~= check_labels(jv(*t)));
    out
}

/// The win ranges of the amount bins, per unit of bet, in order.
pub fn amount_bin_ranges() -> (r: Vec<(i64, i64)>)
    ensures
        r@ == amount_bins(),
{
    let bins: Vec<(i64, i64)> = vec![
        (0, 1), (1, 5), (5, 10), (10, 50), (50, 100), (100, 200), (200, 300), (300, 400),
        (400, 500), (500, 600), (600, 800), (800, 1000), (1000, 2000), (2000, 3000), (3000, 5000),
        (5000, 6000), (6000, 7000), (7000, 8000), (8000, 9000), (9000, 10000), (10000, 11000),
        (11000, 1000000)
    ];
    assert(bins@ =~= amount_bins());
    bins
}

proof fn lemma_first_bin_range(win: i64, bet: i64, i: nat)
    ensures
        first_bin(win, bet, i) matches Some(k) ==> i <= k < 22,
    decreases 22 - i,
{
    if i < 22 {
        lemma_first_bin_range(win, bet, i + 1);
    }
}

proof fn lemma_bin_product(bet: int, x: int)
    requires
        i64::MIN <= bet <= i64::MAX,
        0 <= x <= 1000000,
    ensures
        -0x8000_0000_0000_0000 * 1000000 <= bet * x <= 0x7fff_ffff_ffff_ffff * 1000000,
{
    assert(-0x8000_0000_0000_0000 * 1000000 <= bet * x <= 0x7fff_ffff_ffff_ffff * 1000000) by (nonlinear_arith)
        requires
            -0x8000_0000_0000_0000 <= bet <= 0x7fff_ffff_ffff_ffff,
            0 <= x <= 1000000,
    ;
}

/// The first bin whose range, scaled by the bet, holds the win.
fn find_bin(win: i64, bet: i64) -> (r: Option<usize>)
    ensures
        match first_bin(win, bet, 0) {
            Some(b) => r == Some(b as usize),
            None => r is None,
        },
        r matches Some(b) ==> b < 22,
{
    let bins = amount_bin_ranges();
    proof {
        lemma_first_bin_range(win, bet, 0);
    }
    let mut i: usize = 0;
    while i < 22
        invariant
            bins@ == amount_bins(),
            i <= 22,
            first_bin(win, bet, 0) == first_bin(win, bet, i as nat),
        decreases 22 - i,
    {
        let (low, high) = bins[i];
        assert(0 <= low <= 1000000 && 0 <= high <= 1000000);
        proof {
            lemma_bin_product(bet as int, low as int);
            lemma_bin_product(bet as int, high as int);
        }
        let lo = bet as i128 * low as i128;
        let hi = bet as i128 * high as i128;
        let w = win as i128;
        if lo <= w && w < hi {
            return Some(i);
        }
        i = i + 1;
    }
    None
}

fn bins_fit_exec(win: i64, bet: i64, counted: bool) -> (r: bool)
    ensures
        r == bins_fit(win, bet, counted, 0),
{
    let bins = amount_bin_ranges();
    let mut i: usize = 22;
    let mut ok = true;
    while i > 0
        invariant
            bins@ == amount_bins(),
            i <= 22,
            ok == bins_fit(win, bet, counted, i as nat),
        decreases i,
    {
        i = i - 1;
        let (low, high) = bins[i];
        assert(0 <= low <= 1000000 && 0 <= high <= 1000000);
        proof {
            lemma_bin_product(bet as int, low as int);
            lemma_bin_product(bet as int, high as int);
        }
        let lo = bet as i128 * low as i128;
        let hi = bet as i128 * high as i128;
        let lo_fits = i64::MIN as i128 <= lo && lo <= i64::MAX as i128;
        let hi_fits = i64::MIN as i128 <= hi && hi <= i64::MAX as i128;
        let w = win as i128;
        ok = lo_fits && (w >= lo && hi_fits || w < lo) && (counted && lo <= w && w < hi || ok);
    }
    ok
}

/// The win, the bet and the section (`None` when the round is not counted) of a played
/// transaction's round, when it is a spin or a bonus.
fn round_exec(ctx: Option<&Json>, Ghost(t): Ghost<JsonV>) -> (r: Option<(i64, i128, Option<usize>)>)
    requires
        ov(ctx) == played_context(t),
        played_context(t) is Some,
    ensures
        match round_of(t) {
            Some((w, b, s)) => r matches Some((w2, b2, s2)) && w2 == w && b2 == b && match s {
                Some(x) => s2 == Some(x as usize) && x < 6,
                None => s2 is None,
            },
            None => r is None,
        },
{
    let current = get_key(ctx, "current");
    let action = get_key(ctx, "last_action");
    if is_text(current, "spins") {
        let spins = get_key(ctx, "spins");
        let per_line = int_or_zero_exec(get_key(get_key(ctx, "last_args"), "bet_per_line"));
        let mode = get_key(spins, "selected_mode");
        let win = int_or_zero_exec(get_key(spins, "round_win"));
        if is_text(action, "spin") {
            Some((win, int_or_zero_exec(get_key(spins, "round_bet")) as i128, Some(0)))
        } else if is_text(action, "buy_spin") {
            if is_text(mode, "1") {
                Some((win, 2000 * per_line as i128, Some(1)))
            } else if is_text(mode, "2") {
                Some((win, 6000 * per_line as i128, Some(2)))
            } else {
                Some((win, 0, None))
            }
        } else {
            Some((win, 0, None))
        }
    } else if is_text(current, "bonus") {
        let bonus = get_key(ctx, "bonus");
        let win = int_or_zero_exec(get_key(bonus, "round_win"));
        let bet = int_or_zero_exec(get_key(bonus, "round_bet")) as i128;
        let sc = get_i64(get_key(bonus, "bonus_scenario"));
        if sc == Some(0i64) {
            Some((win, bet, Some(3)))
        } else if sc == Some(1i64) {
            Some((win, bet, Some(4)))
        } else if sc == Some(2i64) {
            Some((win, bet, Some(5)))
        } else {
            Some((win, bet, None))
        }
    } else {
        None
    }
}

/// Whether a transaction can be counted without an arithmetic fault (`amount_safe`), as
/// `fugaso_by_amount` needs of every transaction.
pub fn amount_readable(t: &Json) -> (r: bool)
    ensures
        r == amount_safe(jv(*t)),
{
    let ghost jt = jv(*t);
    let ctx = played_context_exec(t);
    if ctx.is_none() {
        return true;
    }
    let current = get_key(ctx, "current");
    let action = get_key(ctx, "last_action");
    let mut tally_ok = true;
    if is_text(current, "bonus") && !is_text(action, "bonus_init") && is_text(action, "respin") {
        let (new_bs, collect, double, boost, mystery, mystery_bonus, m11, m12, m13) = respin_tally_exec(
            get_key(ctx, "bonus"),
        );
        let used = collect as i128 + double as i128 + boost as i128 + (mystery as i128 - mystery_bonus as i128);
        tally_ok = new_bs as i128 >= used && new_bs >= mystery && collect >= m13 && double >= m12 && boost >= m11;
    }
    let round_ok = match round_exec(ctx, Ghost(jt)) {
        Some((win, bet, sec)) => {
            let fits = i64::MIN as i128 <= bet && bet <= i64::MAX as i128;
            fits && (win <= 0 || bins_fit_exec(win, bet as i64, sec.is_some()))
        },
        None => true,
    };
    tally_ok && round_ok
}

/// The check labels and the win counts per section and amount bin.
pub struct AmountReport {
    pub checkings: Vec<(String, usize)>,
    pub counts: Vec<Vec<u64>>,
}

proof fn lemma_cell_count_bound(ts: Seq<Json>, s: nat, b: nat, n: nat)
    ensures
        cell_count(ts, s, b, n) <= n,
    decreases n,
{
    if n > 0 {
        lemma_cell_count_bound(ts, s, b, (n - 1) as nat);
    }
}

/// The checks and the amount counts of the transactions: per transaction, in order, the
/// labels of its checks; per section and bin, the wins that fall in it.
pub fn fugaso_by_amount(a_transactions: &Vec<Json>) -> (r: AmountReport)
    requires
        forall|i: int| 0 <= i < a_transactions@.len() ==> amount_safe(#[trigger] jv(a_transactions@[i])),
    ensures
        labels_view(r.checkings@) == all_labels(a_transactions@, a_transactions@.len()),
        r.counts@.len() == 6,
        forall|k: int| 0 <= k < 6 ==> (#[trigger] r.counts@[k]).len() == 22,
        forall|k: int, q: int|
            0 <= k < 6 && 0 <= q < 22 ==> #[trigger] r.counts@[k]@[q] == cell_count(
                a_transactions@,
                k as nat,
                q as nat,
                a_transactions@.len(),
            ),
{
    let ghost ts = a_transactions@;
    let mut counts: Vec<Vec<u64>> = Vec::new();
    while counts.len() < 6
        invariant
            counts@.len() <= 6,
            forall|k: int| 0 <= k < counts@.len() ==> (#[trigger] counts@[k]).len() == 22,
            forall|k: int, q: int| 0 <= k < counts@.len() && 0 <= q < 22 ==> #[trigger] counts@[k]@[q] == 0,
        decreases 6 - counts.len(),
    {
        let mut row: Vec<u64> = Vec::new();
        while row.len() < 22
            invariant
                row@.len() <= 22,
                forall|q: int| 0 <= q < row@.len() ==> #[trigger] row@[q] == 0,
            decreases 22 - row.len(),
        {
            row.push(0);
        }
        counts.push(row);
    }
    let mut checkings: Vec<(String, usize)> = Vec::new();
    let mut i: usize = 0;
    while i < a_transactions.len()
        invariant
            ts == a_transactions@,
            forall|j: int| 0 <= j < ts.len() ==> amount_safe(#[trigger] jv(ts[j])),
            i <= ts.len(),
            labels_view(checkings@) == all_labels(ts, i as nat),
            counts@.len() == 6,
            forall|k: int| 0 <= k < 6 ==> (#[trigger] counts@[k]).len() == 22,
            forall|k: int, q: int| 0 <= k < 6 && 0 <= q < 22 ==> #[trigger] counts@[k]@[q] == cell_count(ts, k as nat, q as nat, i as nat),
        decreases ts.len() - i,
    {
        let t = &a_transactions[i];
        assert(amount_safe(jv(ts[i as int])));
        let labels = transaction_checks(t);
        let ghost before = labels_view(checkings@);
        let mut j: usize = 0;
        while j < labels.len()
            invariant
                j <= labels.len(),
                labels_view(checkings@) == before + tagged(texts(labels@).take(j as int), i),
            decreases labels.len() - j,
        {
            let ghost prev = labels_view(checkings@);
            checkings.push((labels[j].clone(), i));
            assert(labels_view(checkings@) =~= prev.push((labels@[j as int]@, i)));
            assert(tagged(texts(labels@).take(j + 1), i) =~= tagged(texts(labels@).take(j as int), i).push((labels@[j as int]@, i)));
            j = j + 1;
        }
        assert(texts(labels@).take(labels.len() as int) =~= texts(labels@));
        assert(all_labels(ts, (i + 1) as nat) == all_labels(ts, i as nat) + tagged(check_labels(jv(ts[i as int])), i));
        let ghost cell = amount_cell(jv(ts[i as int]));
        let ctx = played_context_exec(t);
        let mut hit: Option<(usize, usize)> = None;
        if ctx.is_some() {
            match round_exec(ctx, Ghost(jv(*t))) {
                Some((win, bet, Some(sec))) => {
                    if win > 0 {
                        proof {
                            assert(round_of(jv(ts[i as int])) matches Some((w, bb, Some(x))) && w == win && bb == bet && x == sec);
                            assert(amount_safe(jv(ts[i as int])));
                            assert(fits_i64(bet as int));
                            assert((bet as i64) as int == bet as int);
                            lemma_first_bin_range(win, bet as i64, 0);
                        }
                        match find_bin(win, bet as i64) {
                            Some(b) => {
                                hit = Some((sec, b));
                                assert(cell == Some((sec as nat, b as nat)));
                            },
                            None => {
                                assert(cell is None);
                            },
                        }
                    }
                },
                _ => {},
            }
        }
        assert(match cell {
            Some((s, b)) => hit == Some((s as usize, b as usize)) && s < 6 && b < 22,
            None => hit is None,
        });
        let ghost old_counts = counts@;
        match hit {
            Some((s, b)) => {
                proof {
                    lemma_cell_count_bound(ts, s as nat, b as nat, i as nat);
                }
                let mut row = counts[s].clone();
                assert(row@ == counts@[s as int]@);
                let v = row[b] + 1;
                row.set(b, v);
                counts.set(s, row);
            },
            None => {},
        }
        assert forall|k: int, q: int| 0 <= k < 6 && 0 <= q < 22 implies #[trigger] counts@[k]@[q] == cell_count(ts, k as nat, q as nat, (i + 1) as nat) by {
            assert(old_counts[k]@[q] == cell_count(ts, k as nat, q as nat, i as nat));
        }
        i = i + 1;
    }
    AmountReport { checkings, counts }
}

proof fn lemma_bins_rise(i: int, j: int)
    requires
        0 <= i < j < 22,
    ensures
        bin_high(i) <= bin_low(j),
        bin_low(i) < bin_high(i),
    decreases j - i,
{
    if j > i + 1 {
        lemma_bins_rise(i + 1, j);
    }
}

proof fn lemma_first_bin_holds(win: i64, bet: i64, i: nat)
    ensures
        first_bin(win, bet, i) matches Some(b) ==> bet * amount_bins()[b as int].0 <= win && win < bet
            * amount_bins()[b as int].1 && forall|k: int|
            i <= k < b ==> !(bet * amount_bins()[k].0 <= win && win < bet * #[trigger] amount_bins()[k].1),
    decreases 22 - i,
{
    if i < 22 {
        lemma_first_bin_holds(win, bet, i + 1);
    }
}

/// With a positive bet, a win falls in at most one amount bin: the one the count uses.
pub proof fn law_amount_bin_unique(win: i64, bet: i64)
    requires
        bet > 0,
    ensures
        first_bin(win, bet, 0) matches Some(b) ==> forall|i: int|
            0 <= i < 22 && i != b ==> !(bet * amount_bins()[i].0 <= win && win < bet * #[trigger] amount_bins()[i].1),
{
    lemma_first_bin_holds(win, bet, 0);
    lemma_first_bin_range(win, bet, 0);
    match first_bin(win, bet, 0) {
        Some(b) => {
            assert forall|i: int| 0 <= i < 22 && i != b implies !(bet * amount_bins()[i].0 <= win && win < bet
                * #[trigger] amount_bins()[i].1) by {
                if i > b {
                    lemma_bins_rise(b as int, i);
                    let h = bin_high(b as int) as int;
                    let l = bin_low(i) as int;
                    assert(bet * h <= bet * l) by (nonlinear_arith)
                        requires
                            bet > 0,
                            h <= l,
                    ;
                }
            }
        },
        None => {},
    }
}


/// The section a counted transaction falls in follows its played context: a plain spin
/// (`last_action` `spin`) counts in section 0, a spin bought in mode `1` only in section
/// 1 and one bought in mode `2` only in section 2, and a bonus of scenario 0, 1 or 2 in
/// section 3, 4 or 5.
pub proof fn law_amount_sections(t: JsonV)
    ensures
        amount_cell(t) matches Some((s, _)) ==> played_context(t) matches Some(ctx) && {
            let current = as_text(get(Some(ctx), "current"@));
            let action = as_text(get(Some(ctx), "last_action"@));
            let mode = as_text(get(get(Some(ctx), "spins"@), "selected_mode"@));
            let scenario = as_int(get(get(Some(ctx), "bonus"@), "bonus_scenario"@));
            &&& s == 0 <==> (current == Some("spins"@) && action == Some("spin"@))
            &&& s == 1 <==> (current == Some("spins"@) && action == Some("buy_spin"@) && mode == Some("1"@))
            &&& s == 2 <==> (current == Some("spins"@) && action == Some("buy_spin"@) && mode == Some("2"@))
            &&& s == 3 <==> (current == Some("bonus"@) && scenario == Some(0i64))
            &&& s == 4 <==> (current == Some("bonus"@) && scenario == Some(1i64))
            &&& s == 5 <==> (current == Some("bonus"@) && scenario == Some(2i64))
        },
{
    reveal_strlit("spins");
    reveal_strlit("bonus");
    reveal_strlit("spin");
    reveal_strlit("buy_spin");
    reveal_strlit("1");
    reveal_strlit("2");
    assert("spins"@ != "bonus"@) by {
        assert("spins"@[0] != "bonus"@[0]);
    }
    assert("spin"@ != "buy_spin"@) by {
        assert("spin"@.len() != "buy_spin"@.len());
    }
    assert("1"@ != "2"@) by {
        assert("1"@[0] != "2"@[0]);
    }
    if let Some((s, _)) = amount_cell(t) {
        let ctx = played_context(t)->0;
        let current = as_text(get(Some(ctx), "current"@));
        if current == Some("spins"@) {
            assert(round_of(t) == Some((int_or_zero(get(get(Some(ctx), "spins"@), "round_win"@)), spin_bet(ctx), spin_section(ctx))));
            assert(Some(s) == spin_section(ctx));
        } else {
            assert(current == Some("bonus"@));
            assert(Some(s) == bonus_section(ctx));
        }
    }
}


/// The bet a spin is measured against: its `round_bet` for a plain spin, and for a spin
/// bought in mode `1` or `2`, 2000 or 6000 times its bet per line.
pub proof fn law_spin_bets(ctx: JsonV)
    ensures
        ({
            let action = as_text(get(Some(ctx), "last_action"@));
            let mode = as_text(get(get(Some(ctx), "spins"@), "selected_mode"@));
            let per_line = int_or_zero(get(get(Some(ctx), "last_args"@), "bet_per_line"@)) as int;
            &&& action == Some("spin"@) ==> spin_bet(ctx) == int_or_zero(get(get(Some(ctx), "spins"@), "round_bet"@))
            &&& (action == Some("buy_spin"@) && mode == Some("1"@)) ==> spin_bet(ctx) == 2000 * per_line
            &&& (action == Some("buy_spin"@) && mode == Some("2"@)) ==> spin_bet(ctx) == 6000 * per_line
        }),
{
    reveal_strlit("spin");
    reveal_strlit("buy_spin");
    reveal_strlit("1");
    reveal_strlit("2");
    assert("spin"@ != "buy_spin"@) by {
        assert("spin"@.len() != "buy_spin"@.len());
    }
    assert("1"@ != "2"@) by {
        assert("1"@[0] != "2"@[0]);
    }
}


/// A transaction counts only a positive win, in the bin whose range, scaled by its bet
/// (as an `i64`), holds the win.
pub proof fn law_amount_cell_holds_win(t: JsonV)
    ensures
        amount_cell(t) matches Some((s, b)) ==> round_of(t) is Some && {
            let (win, full_bet, _) = round_of(t)->0;
            let bet = full_bet as i64;
            &&& win > 0
            &&& b < 22
            &&& bet * bin_low(b as int) <= win
            &&& win < bet * bin_high(b as int)
        },
{
    match round_of(t) {
        Some((win, bet, Some(sec))) => {
            lemma_first_bin_holds(win, bet as i64, 0);
            lemma_first_bin_range(win, bet as i64, 0);
            match first_bin(win, bet as i64, 0) {
                Some(b) => {
                    assert(amount_bins()[b as int] == (bin_low(b as int), bin_high(b as int)));
                },
                None => {},
            }
        },
        _ => {},
    }
}

} // verus!
