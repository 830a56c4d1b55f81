use vstd::prelude::*;
use crate::clock::{clock_now, span_longer, time_since, whole_seconds};

use crate::netg::jocker_twenty::models::{
    Board, MultiplayedBoardsInstanse, board_v, boards_v, ReelInstanse, UniqueBoardsInstanse, board_columns, columns, copy_boards, reel_v, reels_v,
    total_count,
};
use crate::ratio::{lemma_round_div_small, round_div, round_div_u128, round_div_u64};
use crate::seqs::{
    all_equal_to_u8, all_equal_u8, copy_u8, is_perm, sort_asc, sorted_asc, window_eq_u8,
    count_of, distinct, lemma_count_of_push, lemma_count_of_zero, lemma_distinct_props,
    lemma_distinct_push, same_u8, counts_sum, lemma_distinct_counts_sum, lemma_count_of_insert,
};

verus! {

/// Whether a column shows one of the given symbols.
pub open spec fn shows_any(b: Seq<u8>, symbols: Seq<i64>) -> bool {
    exists|k: int| 0 <= k < b.len() && symbols.contains(b[k] as i64)
}

/// The columns that show none of the given symbols, in their order.
pub open spec fn without_symbols(bs: Seq<Seq<u8>>, symbols: Seq<i64>) -> Seq<Seq<u8>>
    decreases bs.len(),
{
    if bs.len() == 0 {
        Seq::empty()
    } else if shows_any(bs.last(), symbols) {
        without_symbols(bs.drop_last(), symbols)
    } else {
        without_symbols(bs.drop_last(), symbols).push(bs.last())
    }
}

fn contains_i64(v: &Vec<i64>, x: i64) -> (r: bool)
    ensures
        r == v@.contains(x),
{
    let mut i: usize = 0;
    while i < v.len()
        invariant
            i <= v.len(),
            forall|j: int| 0 <= j < i ==> v@[j] != x,
        decreases v.len() - i,
    {
        if v[i] == x {
            return true;
        }
        i = i + 1;
    }
    false
}

fn column_shows_any(b: &Vec<u8>, symbols: &Vec<i64>) -> (r: bool)
    ensures
        r == shows_any(b@, symbols@),
{
    let mut k: usize = 0;
    while k < b.len()
        invariant
            k <= b.len(),
            forall|j: int| 0 <= j < k ==> !symbols@.contains(b@[j] as i64),
        decreases b.len() - k,
    {
        if contains_i64(symbols, b[k] as i64) {
            return true;
        }
        k = k + 1;
    }
    false
}

/// Drops every board that shows one of `symbols`, keeping the others in order.
pub fn delete_boards_with_symbols(a_boards: Vec<Vec<u8>>, symbols: &Vec<i64>) -> (r: Vec<
    Vec<u8>,
>)
    ensures
        columns(r@) == without_symbols(columns(a_boards@), symbols@),
{
    let mut r: Vec<Vec<u8>> = Vec::new();
    let mut i: usize = 0;
    while i < a_boards.len()
        invariant
            i <= a_boards.len(),
            columns(r@) == without_symbols(columns(a_boards@).take(i as int), symbols@),
        decreases a_boards.len() - i,
    {
        let ghost before = columns(r@);
        assert(columns(a_boards@).take(i + 1).drop_last() =~= columns(a_boards@).take(i as int));
        if !column_shows_any(&a_boards[i], symbols) {
            r.push(copy_u8(&a_boards[i]));
            assert(columns(r@) =~= before.push(a_boards@[i as int]@));
        }
        i = i + 1;
    }
    assert(columns(a_boards@).take(a_boards.len() as int) =~= columns(a_boards@));
    r
}

/// What `select_unique_boards` computes from a list of observed boards: the
/// distinct boards in order of first sight, each with how often it was seen.
pub open spec fn unique_of(r: UniqueBoardsInstanse, bs: Seq<Seq<u8>>) -> bool {
    &&& r.count == bs.len()
    &&& r.frequency_average == 0
    &&& board_columns(r.instanses@) == distinct(bs)
    &&& forall|i: int|
        0 <= i < r.instanses@.len() ==> #[trigger] r.instanses@[i].count == count_of(
            bs,
            r.instanses@[i].board@,
        )
}

/// Groups equal boards: the distinct boards in order of first sight, each with
/// its number of occurrences, and the total number of boards.
pub fn select_unique_boards(a_boards: Vec<Vec<u8>>) -> (r: UniqueBoardsInstanse)
    requires
        a_boards.len() <= u64::MAX,
    ensures
        unique_of(r, columns(a_boards@)),
{
    let ghost bs = columns(a_boards@);
    let mut out: Vec<Board> = Vec::new();
    let mut total: u64 = 0;
    let mut i: usize = 0;
    while i < a_boards.len()
        invariant
            a_boards.len() <= u64::MAX,
            bs == columns(a_boards@),
            i <= a_boards.len(),
            total == i,
            board_columns(out@) == distinct(bs.take(i as int)),
            forall|j: int|
                0 <= j < out@.len() ==> #[trigger] out@[j].count == count_of(
                    bs.take(i as int),
                    out@[j].board@,
                ),
        decreases a_boards.len() - i,
    {
        let ghost pre = bs.take(i as int);
        let ghost x = bs[i as int];
        assert(bs.take(i + 1) =~= pre.push(x));
        proof {
            lemma_distinct_props(pre);
            lemma_distinct_push(pre, x);
        }
        let found_at = find_board(&out, &a_boards[i]);
        let found = found_at.is_some();
        let pos: usize = match found_at {
            Some(p) => p,
            None => out.len(),
        };
        let ghost old_out = out@;
        if !found {
            assert(!distinct(pre).contains(x)) by {
                if distinct(pre).contains(x) {
                    let k = choose|k: int| 0 <= k < distinct(pre).len() && distinct(pre)[k] == x;
                    assert(board_columns(out@)[k] == out@[k].board@);
                    assert(out@[k].board@ != x);
                }
            }
            proof {
                lemma_distinct_props(pre);
                lemma_count_of_zero(pre, x);
            }
            out.push(Board { count: 0, board: copy_u8(&a_boards[i]) });
            assert(board_columns(out@) =~= distinct(pre).push(x));
        } else {
            assert(board_columns(out@)[pos as int] == out@[pos as int].board@);
            assert(distinct(pre).contains(x));
        }
        let ghost mid = out@;
        assert(mid[pos as int].board@ == x);
        assert(mid[pos as int].count == count_of(pre, x)) by {
            if found {
            } else {
                assert(pos == old_out.len());
            }
        }
        proof {
            lemma_count_of_push(pre, x, x);
        }
        assert(count_of(pre, x) < i + 1) by {
            lemma_count_bound(pre, x);
        }
        let c = out[pos].count + 1;
        let b = copy_u8(&out[pos].board);
        out.set(pos, Board { count: c, board: b });
        assert(board_columns(out@) =~= board_columns(mid));
        assert forall|j: int| 0 <= j < out@.len() implies #[trigger] out@[j].count == count_of(
            bs.take(i + 1),
            out@[j].board@,
        ) by {
            lemma_count_of_push(pre, x, out@[j].board@);
            if j != pos {
                assert(board_columns(mid)[j] != board_columns(mid)[pos as int]) by {
                    lemma_distinct_props(pre.push(x));
                }
                if j < old_out.len() {
                    assert(out@[j] == old_out[j]);
                }
            }
        }
        total = total + 1;
        i = i + 1;
    }
    assert(bs.take(a_boards.len() as int) =~= bs);
    UniqueBoardsInstanse { count: total, frequency_average: 0, instanses: out }
}

/// The position of the first counted board equal to `b`.
pub fn find_board(out: &Vec<Board>, b: &Vec<u8>) -> (r: Option<usize>)
    ensures
        match r {
            Some(p) => p < out.len() && out@[p as int].board@ == b@ && forall|j: int|
                0 <= j < p ==> out@[j].board@ != b@,
            None => forall|j: int| 0 <= j < out.len() ==> out@[j].board@ != b@,
        },
{
    let mut pos: usize = 0;
    while pos < out.len()
        invariant
            0 <= pos <= out.len(),
            forall|j: int| 0 <= j < pos ==> out@[j].board@ != b@,
        decreases out.len() - pos,
    {
        if same_u8(&out[pos].board, b) {
            return Some(pos);
        }
        pos = pos + 1;
    }
    None
}

proof fn lemma_count_bound<T>(s: Seq<T>, x: T)
    ensures
        count_of(s, x) <= s.len(),
    decreases s.len(),
{
    if s.len() > 0 {
        lemma_count_bound(s.drop_last(), x);
    }
}


/// The counts of a list of counted boards.
pub open spec fn counts_of(s: Seq<Board>) -> Seq<u64> {
    Seq::new(s.len(), |i: int| s[i].count)
}

/// The first positive number of `s` (0 when there is none).
pub open spec fn first_positive(s: Seq<u64>) -> int
    decreases s.len(),
{
    if s.len() == 0 {
        0
    } else if s[0] > 0 {
        s[0] as int
    } else {
        first_positive(s.drop_first())
    }
}

/// Walks the first `n` counts of `s` in order, keeping a running average that starts
/// at `min`: a count joins when it rounds to once the running average and to at most
/// twice `min`; it then moves the average half-way towards itself.
/// The state is (running average, sum of joined counts, number of joined counts).
pub open spec fn average_walk(s: Seq<u64>, min: int, n: nat) -> (int, int, int)
    decreases n,
{
    if n == 0 || n > s.len() {
        (min, 0, 0)
    } else {
        let prev = average_walk(s, min, (n - 1) as nat);
        let x = s[n - 1] as int;
        if round_div(x, prev.0) == 1 && round_div(x, min) <= 2 {
            (round_div(prev.0 + x, 2), prev.1 + x, prev.2 + 1)
        } else {
            prev
        }
    }
}

/// The frequency average of counts listed in ascending order: the rounded mean of the
/// counts that the walk from the smallest positive count lets join.
pub open spec fn frequency_average_of(s: Seq<u64>) -> int {
    let w = average_walk(s, first_positive(s), s.len());
    if w.2 == 0 {
        0
    } else {
        round_div(w.1, w.2)
    }
}

proof fn lemma_first_positive(s: Seq<u64>, k: int)
    requires
        0 <= k < s.len(),
        s[k] > 0,
        forall|j: int| 0 <= j < k ==> s[j] == 0,
    ensures
        first_positive(s) == s[k],
    decreases k,
{
    if k > 0 {
        lemma_first_positive(s.drop_first(), k - 1);
    }
}

proof fn lemma_count_pos<T>(s: Seq<T>, i: int)
    requires
        0 <= i < s.len(),
    ensures
        count_of(s, s[i]) >= 1,
    decreases s.len(),
{
    if i < s.len() - 1 {
        lemma_count_pos(s.drop_last(), i);
    }
}

/// Sets `frequency_average` to the frequency average of the boards' counts taken in
/// ascending order (`frequency_average_of`).
pub fn calculate_frequency_average(boards_unique: &mut UniqueBoardsInstanse)
    requires
        exists|i: int| 0 <= i < old(boards_unique).instanses@.len() && #[trigger] old(boards_unique).instanses@[i].count > 0,
    ensures
        final(boards_unique).count == old(boards_unique).count,
        final(boards_unique).instanses == old(boards_unique).instanses,
        exists|s: Seq<u64>|
            sorted_asc(s) && is_perm(s, counts_of(old(boards_unique).instanses@))
                && final(boards_unique).frequency_average == frequency_average_of(s),
        final(boards_unique).frequency_average >= 1,
{
    let ghost cs = counts_of(boards_unique.instanses@);
    let mut counts: Vec<u64> = Vec::new();
    let mut i: usize = 0;
    while i < boards_unique.instanses.len()
        invariant
            i <= boards_unique.instanses.len(),
            cs == counts_of(boards_unique.instanses@),
            counts@ == cs.take(i as int),
        decreases boards_unique.instanses.len() - i,
    {
        counts.push(boards_unique.instanses[i].count);
        assert(counts@ =~= cs.take(i + 1));
        i = i + 1;
    }
    assert(counts@ =~= cs);
    let sorted = sort_asc(&counts);
    let ghost s = sorted@;
    let ghost wi = choose|i: int|
        0 <= i < boards_unique.instanses@.len() && #[trigger] boards_unique.instanses@[i].count > 0;
    proof {
        lemma_count_pos(cs, wi);
        assert(count_of(s, cs[wi]) >= 1);
        if !s.contains(cs[wi]) {
            crate::seqs::lemma_count_of_zero(s, cs[wi]);
        }
    }
    let ghost pos_at = choose|j: int| 0 <= j < s.len() && s[j] == cs[wi];
    let mut k: usize = 0;
    while sorted[k] == 0
        invariant
            0 <= k <= pos_at,
            s == sorted@,
            0 <= pos_at < sorted.len(),
            s[pos_at] > 0,
            forall|j: int| 0 <= j < k ==> s[j] == 0,
        decreases pos_at - k,
    {
        assert(k < pos_at);
        k = k + 1;
    }
    proof {
        lemma_first_positive(s, k as int);
    }
    let m: u64 = sorted[k];
    let ghost mi = m as int;
    let mut avg: u128 = m as u128;
    let mut sum: u128 = 0;
    let mut cnt: u128 = 0;
    let mut j: usize = 0;
    while j < sorted.len()
        invariant
            s == sorted@,
            j <= sorted.len(),
            k < sorted.len(),
            mi == m,
            m > 0,
            s[k as int] == m,
            forall|t: int| 0 <= t < k ==> s[t] == 0,
            (avg as int, sum as int, cnt as int) == average_walk(s, mi, j as nat),
            1 <= avg <= 0xffff_ffff_ffff_ffffu64,
            cnt <= j,
            sum <= cnt * 0xffff_ffff_ffff_ffffu64,
            sum >= cnt,
            j <= k ==> cnt == 0 && avg == m,
            j > k ==> cnt >= 1,
        decreases sorted.len() - j,
    {
        let x = sorted[j] as u128;
        let near_avg = round_div_u128(x, avg);
        let near_min = round_div_u128(x, m as u128);
        proof {
            if j < k {
                assert(x == 0);
                assert(round_div(0, avg as int) == 0) by (nonlinear_arith)
                    requires
                        avg >= 1,
                ;
            }
            if j == k {
                assert(round_div(m as int, m as int) == 1) by (nonlinear_arith)
                    requires
                        m >= 1,
                {
                    assert((2 * m + m) / (2 * m) == 1);
                }
            }
        }
        if near_avg == 1 && near_min <= 2 {
            assert(x >= 1) by {
                if x == 0 {
                    assert(round_div(0, avg as int) == 0) by (nonlinear_arith)
                        requires
                            avg >= 1,
                    ;
                }
            }
            let t = avg + x;
            avg = t / 2 + t % 2;
            proof {
                assert(avg == round_div(t as int, 2)) by (nonlinear_arith)
                    requires
                        avg == t / 2 + t % 2,
                {
                    assert((2 * t + 2) / 4 == t / 2 + t % 2);
                }
            }
            sum = sum + x;
            cnt = cnt + 1;
        }
        j = j + 1;
    }
    let r = if cnt == 0 {
        0u64
    } else {
        let q = round_div_u128(sum, cnt);
        proof {
            lemma_round_div_small(sum as int, cnt as int, 0xffff_ffff_ffff_ffffu64 as int);
            assert(round_div(sum as int, cnt as int) >= 1) by (nonlinear_arith)
                requires
                    sum >= cnt,
                    cnt >= 1,
            {
                assert(2 * sum + cnt >= 2 * cnt);
            }
        }
        q as u64
    };
    boards_unique.frequency_average = r;
}


/// The symbol that marks a strip position as covered by a board.
pub const COVERED: u8 = 254;

/// The symbol that ends a strip which could not be extended.
pub const STUCK: u8 = 253;

/// The first position `p >= from` where `board` lies on `reel` and `work` does not
/// yet hold the covered mark.
pub open spec fn mark_pos(reel: Seq<u8>, work: Seq<u8>, board: Seq<u8>, from: int) -> Option<int>
    decreases reel.len() - from,
{
    if from < 0 || from >= reel.len() || from + board.len() > reel.len() {
        None
    } else if reel.subrange(from, from + board.len()) == board && work[from] != COVERED {
        Some(from)
    } else {
        mark_pos(reel, work, board, from + 1)
    }
}

/// Places the first `n` boards on the strip one after the other, each at its first
/// free position: the marked strip, and whether every one of them found a place.
pub open spec fn mark_all(reel: Seq<u8>, boards: Seq<Seq<u8>>, n: nat) -> (Seq<u8>, bool)
    decreases n,
{
    if n == 0 || n > boards.len() {
        (reel, true)
    } else {
        let prev = mark_all(reel, boards, (n - 1) as nat);
        match mark_pos(reel, prev.0, boards[n - 1], 0) {
            Some(p) => (prev.0.update(p, COVERED), prev.1),
            None => (prev.0, false),
        }
    }
}

/// A strip longer than `height` is right when every board finds a place on it and
/// every position but the first and the last `height` ones is covered.
pub open spec fn strip_is_right(reel: Seq<u8>, boards: Seq<Seq<u8>>, height: int) -> bool {
    let m = mark_all(reel, boards, boards.len());
    m.1 && forall|j: int| 1 <= j < reel.len() - height ==> m.0[j] == COVERED
}

/// The longest strip from position `p` on.
pub open spec fn max_len_from(rs: Seq<(Seq<u8>, Seq<(u64, Seq<u8>)>, bool)>, p: int) -> int
    decreases rs.len() - p,
{
    if p < 0 || p >= rs.len() {
        0
    } else {
        let rest = max_len_from(rs, p + 1);
        if rs[p].0.len() >= rest {
            rs[p].0.len() as int
        } else {
            rest
        }
    }
}

/// A candidate after checking: short strips are right as they are; a right strip
/// loses a final stuck mark; a wrong one is marked wrong.
pub open spec fn checked_reel(
    r: (Seq<u8>, Seq<(u64, Seq<u8>)>, bool),
    boards: Seq<Seq<u8>>,
    height: int,
) -> (Seq<u8>, Seq<(u64, Seq<u8>)>, bool) {
    if r.0.len() <= height {
        (r.0, r.1, true)
    } else if strip_is_right(r.0, boards, height) {
        (if r.0.last() == STUCK {
            r.0.drop_last()
        } else {
            r.0
        }, r.1, true)
    } else {
        (r.0, r.1, false)
    }
}

/// A candidate stays unless its strip is wrong and shorter than a strip at or after it.
pub open spec fn reel_stays(
    rs: Seq<(Seq<u8>, Seq<(u64, Seq<u8>)>, bool)>,
    i: int,
    boards: Seq<Seq<u8>>,
    height: int,
) -> bool {
    rs[i].0.len() <= height || strip_is_right(rs[i].0, boards, height) || rs[i].0.len()
        >= max_len_from(rs, i)
}

/// The checked candidates among the first `n`, in order.
pub open spec fn checked_reels(
    rs: Seq<(Seq<u8>, Seq<(u64, Seq<u8>)>, bool)>,
    boards: Seq<Seq<u8>>,
    height: int,
    n: nat,
) -> Seq<(Seq<u8>, Seq<(u64, Seq<u8>)>, bool)>
    decreases n,
{
    if n == 0 || n > rs.len() {
        Seq::empty()
    } else {
        let prev = checked_reels(rs, boards, height, (n - 1) as nat);
        if reel_stays(rs, n - 1, boards, height) {
            prev.push(checked_reel(rs[n - 1], boards, height))
        } else {
            prev
        }
    }
}

proof fn lemma_mark_pos(reel: Seq<u8>, work: Seq<u8>, board: Seq<u8>, from: int)
    ensures
        mark_pos(reel, work, board, from) matches Some(p) ==> from <= p < reel.len() && p
            + board.len() <= reel.len(),
    decreases reel.len() - from,
{
    if !(from < 0 || from >= reel.len() || from + board.len() > reel.len()) {
        lemma_mark_pos(reel, work, board, from + 1);
    }
}

fn find_mark(reel: &Vec<u8>, work: &Vec<u8>, board: &Vec<u8>) -> (r: Option<usize>)
    requires
        work.len() == reel.len(),
    ensures
        match r {
            Some(p) => mark_pos(reel@, work@, board@, 0) == Some(p as int) && p < reel.len(),
            None => mark_pos(reel@, work@, board@, 0) is None,
        },
{
    proof {
        lemma_mark_pos(reel@, work@, board@, 0);
    }
    let mut p: usize = 0;
    while p < reel.len() && board.len() <= reel.len() - p
        invariant
            work.len() == reel.len(),
            mark_pos(reel@, work@, board@, 0) == mark_pos(reel@, work@, board@, p as int),
        decreases reel.len() - p,
    {
        if window_eq_u8(reel, p, board, 0, board.len()) && work[p] != COVERED {
            assert(board@.subrange(0, board.len() as int) =~= board@);
            return Some(p);
        }
        assert(board@.subrange(0, board.len() as int) =~= board@);
        p = p + 1;
    }
    None
}

fn strip_verdict(reel: &Vec<u8>, boards: &Vec<Board>, height: usize) -> (r: bool)
    requires
        reel.len() > height,
    ensures
        r == strip_is_right(reel@, board_columns(boards@), height as int),
{
    let ghost bs = board_columns(boards@);
    let mut work = copy_u8(reel);
    let mut ok = true;
    let mut i: usize = 0;
    while i < boards.len()
        invariant
            bs == board_columns(boards@),
            i <= boards.len(),
            (work@, ok) == mark_all(reel@, bs, i as nat),
            work.len() == reel.len(),
        decreases boards.len() - i,
    {
        assert(bs[i as int] == boards@[i as int].board@);
        match find_mark(reel, &work, &boards[i].board) {
            Some(p) => {
                work.set(p, COVERED);
            },
            None => {
                ok = false;
            },
        }
        i = i + 1;
    }
    assert(bs.len() == boards.len());
    assert(mark_all(reel@, bs, bs.len()) == (work@, ok));
    let all = all_equal_to_u8(&work, 1, reel.len() - height, COVERED);
    assert(all == (forall|j: int| 1 <= j < reel@.len() - height ==> work@[j] == COVERED));
    let ghost m = mark_all(reel@, bs, bs.len());
    assert(m.0 == work@);
    assert(m.1 == ok);
    assert(strip_is_right(reel@, bs, height as int) == (ok && all));
    ok && all
}

/// Checks every candidate against the boards: a candidate whose strip is at most
/// `height` long, or on which every board finds its own place covering all inner
/// positions, is right (losing a final stuck mark); any other is wrong, and is dropped
/// when a candidate at or after it has a longer strip.
pub fn check_reels(reels: &mut Vec<ReelInstanse>, boards: &Vec<Board>, height: usize)
    ensures
        reels_v(final(reels)@) == checked_reels(
            reels_v(old(reels)@),
            board_columns(boards@),
            height as int,
            old(reels)@.len(),
        ),
{
    let ghost rs = reels_v(reels@);
    let ghost bs = board_columns(boards@);
    let n = reels.len();
    let mut maxes: Vec<usize> = Vec::new();
    let mut k: usize = n;
    let mut running: usize = 0;
    while k > 0
        invariant
            k <= n,
            n == reels.len(),
            rs == reels_v(reels@),
            maxes.len() == n - k,
            running == max_len_from(rs, k as int),
            forall|t: int|
                0 <= t < n - k ==> #[trigger] maxes@[t] == max_len_from(rs, n - 1 - t),
        decreases k,
    {
        k = k - 1;
        if reels[k].reel.len() >= running {
            running = reels[k].reel.len();
        }
        maxes.push(running);
    }
    let mut out: Vec<ReelInstanse> = Vec::new();
    let mut i: usize = 0;
    while i < n
        invariant
            i <= n,
            n == reels.len(),
            rs == reels_v(reels@),
            bs == board_columns(boards@),
            maxes.len() == n,
            forall|t: int| 0 <= t < n ==> #[trigger] maxes@[t] == max_len_from(rs, n - 1 - t),
            reels_v(out@) == checked_reels(rs, bs, height as int, i as nat),
        decreases n - i,
    {
        let r = &reels[i];
        let len = r.reel.len();
        let ghost prev = reels_v(out@);
        if len <= height {
            out.push(ReelInstanse { reel: copy_u8(&r.reel), remaining: copy_boards(&r.remaining), correct: true });
        } else if strip_verdict(&r.reel, boards, height) {
            let mut strip = copy_u8(&r.reel);
            if strip[len - 1] == STUCK {
                strip.pop();
            }
            proof {
                if r.reel@.last() == STUCK {
                    assert(strip@ =~= r.reel@.drop_last());
                }
            }
            out.push(ReelInstanse { reel: strip, remaining: copy_boards(&r.remaining), correct: true });
        } else if len >= maxes[n - 1 - i] {
            out.push(ReelInstanse { reel: copy_u8(&r.reel), remaining: copy_boards(&r.remaining), correct: false });
        }
        assert(reels_v(out@) =~= checked_reels(rs, bs, height as int, (i + 1) as nat)) by {
            assert(rs[i as int] == reel_v(reels@[i as int]));
            if reel_stays(rs, i as int, bs, height as int) {
                assert(reels_v(out@) =~= prev.push(checked_reel(rs[i as int], bs, height as int)));
            } else {
                assert(reels_v(out@) =~= prev);
            }
        }
        i = i + 1;
    }
    *reels = out;
}


/// Whether board `b` may follow board `t` on a strip (`b` starts with `t` shifted by one).
pub open spec fn follows(b: Seq<u8>, t: Seq<u8>, height: int) -> bool {
    &&& t.len() >= 1
    &&& b.subrange(0, height - 1) == t.subrange(1, t.len() as int)
    &&& b != t
    &&& (!all_equal_u8(t, 1, t.len() as int, t[1]) || all_equal_u8(t, 0, t.len() as int, t[0])
        || all_equal_u8(b, 0, b.len() as int, b[0]))
}

/// Whether board `b` may precede board `t` on a strip.
pub open spec fn precedes(b: Seq<u8>, t: Seq<u8>, height: int) -> bool {
    &&& b.len() >= 1
    &&& b.subrange(1, b.len() as int) == t.subrange(0, height - 1)
    &&& b != t
    &&& (!all_equal_u8(t, 0, height - 1, t[0]) || all_equal_u8(t, 0, t.len() as int, t[0])
        || all_equal_u8(b, 0, b.len() as int, b[0]))
}

/// How many of the first `n` boards of `ds` may follow `t`.
pub open spec fn count_follows(ds: Seq<Seq<u8>>, t: Seq<u8>, height: int, n: nat) -> nat
    decreases n,
{
    if n == 0 || n > ds.len() {
        0
    } else {
        count_follows(ds, t, height, (n - 1) as nat) + if follows(ds[n - 1], t, height) {
            1nat
        } else {
            0nat
        }
    }
}

/// How many of the first `n` boards of `ds` may precede `t`.
pub open spec fn count_precedes(ds: Seq<Seq<u8>>, t: Seq<u8>, height: int, n: nat) -> nat
    decreases n,
{
    if n == 0 || n > ds.len() {
        0
    } else {
        count_precedes(ds, t, height, (n - 1) as nat) + if precedes(ds[n - 1], t, height) {
            1nat
        } else {
            0nat
        }
    }
}

/// How many more copies of `ub[i]` a strip needs: as many as there are distinct boards
/// that may follow it, or precede it, whichever is more, less the copies present; only
/// the first occurrence of a board asks for copies.
pub open spec fn extra_copies(ub: Seq<Seq<u8>>, height: int, i: int) -> int {
    let t = ub[i];
    let ds = distinct(ub);
    let f = count_follows(ds, t, height, ds.len());
    let p = count_precedes(ds, t, height, ds.len());
    let need: int = if f >= p {
        f as int
    } else {
        p as int
    };
    if ub.take(i).contains(t) || need <= count_of(ub, t) {
        0
    } else {
        need - count_of(ub, t)
    }
}

/// The copies added for the first `n` boards, in order.
pub open spec fn added_copies(ub: Seq<Seq<u8>>, height: int, n: nat) -> Seq<Seq<u8>>
    decreases n,
{
    if n == 0 || n > ub.len() {
        Seq::empty()
    } else {
        added_copies(ub, height, (n - 1) as nat) + Seq::new(
            extra_copies(ub, height, n - 1) as nat,
            |k: int| ub[n - 1],
        )
    }
}

/// A count divided by the frequency average, rounded, at least one.
pub open spec fn scaled_count(count: int, fa: int) -> int {
    if round_div(count, fa) == 0 {
        1
    } else {
        round_div(count, fa)
    }
}

/// The ratio of observed boards to distinct boards, rounded; an empty list of distinct
/// boards counts as an unbounded ratio unless nothing was observed.
pub open spec fn spread(observed: int, distinct_boards: int) -> int {
    if distinct_boards == 0 {
        if observed == 0 {
            0
        } else {
            100
        }
    } else {
        round_div(observed, distinct_boards)
    }
}

fn follows_exec(b: &Vec<u8>, t: &Vec<u8>, height: usize) -> (r: bool)
    requires
        height >= 1,
        b.len() >= height - 1,
    ensures
        r == follows(b@, t@, height as int),
{
    if t.len() < 1 {
        return false;
    }
    let shifted = height - 1 == t.len() - 1 && window_eq_u8(b, 0, t, 1, height - 1);
    proof {
        if height - 1 == t.len() - 1 {
            assert(t@.subrange(1, 1 + (height - 1)) =~= t@.subrange(1, t.len() as int));
        } else {
            if b@.subrange(0, height - 1) == t@.subrange(1, t.len() as int) {
                assert(b@.subrange(0, height - 1).len() == t@.subrange(1, t.len() as int).len());
            }
        }
        assert(b@.subrange(0, 0 + (height - 1)) =~= b@.subrange(0, height - 1));
    }
    if !shifted || same_u8(b, t) {
        return false;
    }
    let t1 = if t.len() > 1 { t[1] } else { 0 };
    let b0 = if b.len() > 0 { b[0] } else { 0 };
    !all_equal_to_u8(t, 1, t.len(), t1) || all_equal_to_u8(t, 0, t.len(), t[0]) || (b.len() > 0
        && all_equal_to_u8(b, 0, b.len(), b0)) || b.len() == 0
}

fn precedes_exec(b: &Vec<u8>, t: &Vec<u8>, height: usize) -> (r: bool)
    requires
        height >= 1,
        t.len() >= height - 1,
    ensures
        r == precedes(b@, t@, height as int),
{
    if b.len() < 1 {
        return false;
    }
    let shifted = b.len() - 1 == height - 1 && window_eq_u8(b, 1, t, 0, height - 1);
    proof {
        if b.len() - 1 == height - 1 {
            assert(b@.subrange(1, 1 + (height - 1)) =~= b@.subrange(1, b.len() as int));
        } else {
            if b@.subrange(1, b.len() as int) == t@.subrange(0, height - 1) {
                assert(b@.subrange(1, b.len() as int).len() == t@.subrange(0, height - 1).len());
            }
        }
        assert(t@.subrange(0, 0 + (height - 1)) =~= t@.subrange(0, height - 1));
    }
    if !shifted || same_u8(b, t) {
        return false;
    }
    let t0 = if t.len() > 0 { t[0] } else { 0 };
    !all_equal_to_u8(t, 0, height - 1, t0) || (t.len() > 0 && all_equal_to_u8(t, 0, t.len(), t0))
        || t.len() == 0 || all_equal_to_u8(b, 0, b.len(), b[0])
}

fn find_column(r: &Vec<Vec<u8>>, x: &Vec<u8>) -> (res: Option<usize>)
    ensures
        match res {
            Some(p) => p < r.len() && r@[p as int]@ == x@,
            None => forall|k: int| 0 <= k < r.len() ==> r@[k]@ != x@,
        },
{
    let mut j: usize = 0;
    while j < r.len()
        invariant
            j <= r.len(),
            forall|k: int| 0 <= k < j ==> r@[k]@ != x@,
        decreases r.len() - j,
    {
        if same_u8(&r[j], x) {
            return Some(j);
        }
        j = j + 1;
    }
    None
}

fn distinct_columns(ub: &Vec<Vec<u8>>) -> (r: Vec<Vec<u8>>)
    ensures
        columns(r@) == distinct(columns(ub@)),
{
    let ghost us = columns(ub@);
    let mut r: Vec<Vec<u8>> = Vec::new();
    let mut i: usize = 0;
    while i < ub.len()
        invariant
            us == columns(ub@),
            i <= ub.len(),
            columns(r@) == distinct(us.take(i as int)),
        decreases ub.len() - i,
    {
        proof {
            crate::seqs::lemma_distinct_push(us.take(i as int), us[i as int]);
            assert(us.take(i + 1) =~= us.take(i as int).push(us[i as int]));
        }
        let found = find_column(&r, &ub[i]);
        let seen = found.is_some();
        let j: usize = match found {
            Some(p) => p,
            None => 0,
        };
        let ghost before = columns(r@);
        if !seen {
            assert(!before.contains(us[i as int])) by {
                if before.contains(us[i as int]) {
                    let k = choose|k: int| 0 <= k < before.len() && before[k] == us[i as int];
                    assert(r@[k]@ == before[k]);
                }
            }
            r.push(copy_u8(&ub[i]));
            assert(columns(r@) =~= before.push(us[i as int]));
        } else {
            assert(before[j as int] == r@[j as int]@);
            assert(before.contains(us[i as int]));
        }
        i = i + 1;
    }
    assert(us.take(ub.len() as int) =~= us);
    r
}

fn count_column(v: &Vec<Vec<u8>>, x: &Vec<u8>, upto: usize) -> (r: usize)
    requires
        upto <= v.len(),
    ensures
        r == count_of(columns(v@).take(upto as int), x@),
{
    let ghost vs = columns(v@);
    let mut c: usize = 0;
    let mut i: usize = 0;
    while i < upto
        invariant
            vs == columns(v@),
            upto <= v.len(),
            i <= upto,
            c == count_of(vs.take(i as int), x@),
            c <= i,
        decreases upto - i,
    {
        proof {
            crate::seqs::lemma_count_of_take(vs, i as int, x@);
        }
        if same_u8(&v[i], x) {
            c = c + 1;
        }
        i = i + 1;
    }
    c
}

/// Decides how many copies of each distinct board a reel strip should hold.
///
/// With a spread (observed boards per distinct board, rounded) of 100 or more, the
/// frequency average of the distinct boards is recomputed and each board gets its count
/// divided by that average, rounded, at least one.  With a spread from 1 to 99, every
/// distinct board is held once, and each gets further copies up to the number of distinct
/// boards that may follow it or precede it on a strip (`added_copies`).  Otherwise every
/// distinct board is held once.
pub fn _multiply_unique_boards_by_frequency(
    a_boards_filtered: Vec<Vec<u8>>,
    boards_unique: &mut UniqueBoardsInstanse,
    height: usize,
) -> (r: MultiplayedBoardsInstanse)
    requires
        spread(a_boards_filtered.len() as int, old(boards_unique).instanses.len() as int) >= 100
            ==> exists|i: int|
            0 <= i < old(boards_unique).instanses@.len()
                && #[trigger] old(boards_unique).instanses@[i].count > 0,
        1 <= spread(a_boards_filtered.len() as int, old(boards_unique).instanses.len() as int)
            < 100 ==> height >= 1 && forall|i: int|
            0 <= i < old(boards_unique).instanses@.len() ==> #[trigger] old(
                boards_unique,
            ).instanses@[i].board.len() >= height - 1,
    ensures
        final(boards_unique).count == old(boards_unique).count,
        final(boards_unique).instanses == old(boards_unique).instanses,
        ({
            let ub = old(boards_unique).instanses@;
            let sp = spread(a_boards_filtered.len() as int, ub.len() as int);
            if sp >= 100 {
                let fa = final(boards_unique).frequency_average;
                &&& exists|s: Seq<u64>|
                    sorted_asc(s) && is_perm(s, counts_of(ub)) && fa == frequency_average_of(s)
                &&& fa >= 1
                &&& r.instanses@.len() == ub.len()
                &&& forall|i: int|
                    0 <= i < ub.len() ==> #[trigger] r.instanses@[i].board@ == ub[i].board@
                        && r.instanses@[i].count == scaled_count(ub[i].count as int, fa as int)
            } else {
                &&& final(boards_unique).frequency_average == old(
                    boards_unique,
                ).frequency_average
                &&& forall|i: int|
                    0 <= i < r.instanses@.len() ==> #[trigger] r.instanses@[i].count == 1
                &&& board_columns(r.instanses@) == if sp >= 1 {
                    board_columns(ub) + added_copies(board_columns(ub), height as int, ub.len())
                } else {
                    board_columns(ub)
                }
            }
        }),
{
    let f = a_boards_filtered.len();
    let u = boards_unique.instanses.len();
    let sp: usize = if u == 0 {
        if f == 0 {
            0
        } else {
            100
        }
    } else {
        round_div_u64(f as u64, u as u64) as usize
    };
    let ghost ub = boards_unique.instanses@;
    let mut out: Vec<Board> = Vec::new();
    if sp >= 100 {
        calculate_frequency_average(boards_unique);
        let fa = boards_unique.frequency_average;
        let mut i: usize = 0;
        while i < boards_unique.instanses.len()
            invariant
                boards_unique.instanses@ == ub,
                fa == boards_unique.frequency_average,
                fa >= 1,
                i <= ub.len(),
                out@.len() == i,
                forall|k: int| 0 <= k < i ==> #[trigger] out@[k].board@ == ub[k].board@,
                forall|k: int|
                    0 <= k < i ==> #[trigger] out@[k].count == scaled_count(
                        ub[k].count as int,
                        fa as int,
                    ),
            decreases ub.len() - i,
        {
            let mut c = round_div_u64(boards_unique.instanses[i].count, fa);
            if c == 0 {
                c = 1;
            }
            assert(c == scaled_count(ub[i as int].count as int, fa as int));
            let ghost pre = out@;
            out.push(Board { count: c, board: copy_u8(&boards_unique.instanses[i].board) });
            assert forall|k: int| 0 <= k < i + 1 implies #[trigger] out@[k].board@ == ub[k].board@ by {
                if k < i {
                    assert(out@[k] == pre[k]);
                    assert(pre[k].board@ == ub[k].board@);
                }
            }
            assert forall|k: int| 0 <= k < i + 1 implies #[trigger] out@[k].count == scaled_count(
                ub[k].count as int,
                fa as int,
            ) by {
                if k < i {
                    assert(out@[k] == pre[k]);
                    assert(pre[k].count == scaled_count(ub[k].count as int, fa as int));
                }
            }
            i = i + 1;
        }
        assert(counts_of(boards_unique.instanses@) == counts_of(ub));
        return MultiplayedBoardsInstanse { instanses: out };
    }
    let mut ubv: Vec<Vec<u8>> = Vec::new();
    let mut i: usize = 0;
    while i < boards_unique.instanses.len()
        invariant
            boards_unique.instanses@ == ub,
            i <= ub.len(),
            ubv@.len() == i,
            out@.len() == i,
            forall|k: int| 0 <= k < i ==> #[trigger] ubv@[k]@ == ub[k].board@,
            forall|k: int| 0 <= k < i ==> #[trigger] out@[k].board@ == ub[k].board@,
            forall|k: int| 0 <= k < i ==> #[trigger] out@[k].count == 1,
        decreases ub.len() - i,
    {
        ubv.push(copy_u8(&boards_unique.instanses[i].board));
        out.push(Board { count: 1, board: copy_u8(&boards_unique.instanses[i].board) });
        i = i + 1;
    }
    assert(columns(ubv@) =~= board_columns(ub));
    assert(board_columns(out@) =~= board_columns(ub));
    if sp == 0 {
        return MultiplayedBoardsInstanse { instanses: out };
    }
    assert(sp == spread(f as int, u as int));
    assert(forall|k: int| 0 <= k < ub.len() ==> #[trigger] ub[k].board@.len() >= height - 1) by {
        assert forall|k: int| 0 <= k < ub.len() implies #[trigger] ub[k].board@.len() >= height
            - 1 by {
            assert(ub[k].board.len() >= height - 1);
        }
    }
    let ghost us = board_columns(ub);
    let ds = distinct_columns(&ubv);
    let ghost dsv = columns(ds@);
    proof {
        crate::seqs::lemma_distinct_props(us);
    }
    let mut i: usize = 0;
    while i < ubv.len()
        invariant
            us == board_columns(ub),
            columns(ubv@) == us,
            dsv == columns(ds@),
            dsv == distinct(us),
            forall|x: Seq<u8>| us.contains(x) <==> #[trigger] dsv.contains(x),
            height >= 1,
            forall|k: int| 0 <= k < ub.len() ==> #[trigger] ub[k].board@.len() >= height - 1,
            i <= ubv.len(),
            board_columns(out@) == us + added_copies(us, height as int, i as nat),
            forall|k: int| 0 <= k < out@.len() ==> #[trigger] out@[k].count == 1,
        decreases ubv.len() - i,
    {
        let t = &ubv[i];
        assert(t@ == us[i as int]);
        let first = count_column(&ubv, t, i) == 0;
        proof {
            assert(columns(ubv@).take(i as int) == us.take(i as int));
            if us.take(i as int).contains(us[i as int]) {
                let k = choose|k: int| 0 <= k < i && us.take(i as int)[k] == us[i as int];
                crate::seqs::lemma_count_of_take(us, k, us[i as int]);
                lemma_count_mono(us, k + 1, i as int, us[i as int]);
            } else {
                crate::seqs::lemma_count_of_zero(us.take(i as int), us[i as int]);
            }
        }
        let mut nf: usize = 0;
        let mut np: usize = 0;
        let mut j: usize = 0;
        while j < ds.len()
            invariant
                dsv == columns(ds@),
                dsv == distinct(us),
                forall|x: Seq<u8>| us.contains(x) <==> #[trigger] dsv.contains(x),
                forall|k: int| 0 <= k < ub.len() ==> #[trigger] ub[k].board@.len() >= height - 1,
                us == board_columns(ub),
                height >= 1,
                t@ == us[i as int],
                0 <= i < us.len(),
                j <= ds.len(),
                nf == count_follows(dsv, t@, height as int, j as nat),
                np == count_precedes(dsv, t@, height as int, j as nat),
                nf <= j,
                np <= j,
            decreases ds.len() - j,
        {
            assert(dsv.contains(dsv[j as int]));
            let ghost kk = choose|kk: int| 0 <= kk < us.len() && us[kk] == dsv[j as int];
            assert(ub[kk].board@ == us[kk]);
            assert(ds@[j as int]@ == dsv[j as int]);
            assert(t@.len() >= height - 1) by {
                assert(ub[i as int].board@ == us[i as int]);
                assert(ub[i as int].board@.len() >= height - 1);
            }
            assert(ds@[j as int]@.len() >= height - 1) by {
                assert(ub[kk].board@.len() >= height - 1);
            }
            if follows_exec(&ds[j], t, height) {
                nf = nf + 1;
            }
            if precedes_exec(&ds[j], t, height) {
                np = np + 1;
            }
            j = j + 1;
        }
        let need = if nf >= np { nf } else { np };
        let have = count_column(&ubv, t, ubv.len());
        assert(columns(ubv@).take(ubv.len() as int) =~= us);
        let ghost before = board_columns(out@);
        let extra: usize = if !first || need <= have { 0 } else { need - have };
        assert(extra == extra_copies(us, height as int, i as int));
        let mut c: usize = 0;
        while c < extra
            invariant
                c <= extra,
                t@ == us[i as int],
                board_columns(out@) == before + Seq::new(c as nat, |k: int| us[i as int]),
                forall|k: int| 0 <= k < out@.len() ==> #[trigger] out@[k].count == 1,
            decreases extra - c,
        {
            let ghost pre = board_columns(out@);
            out.push(Board { count: 1, board: copy_u8(t) });
            assert(board_columns(out@) =~= pre.push(us[i as int]));
            assert(board_columns(out@) =~= before + Seq::new((c + 1) as nat, |k: int| us[i as int]));
            c = c + 1;
        }
        assert(added_copies(us, height as int, (i + 1) as nat) =~= added_copies(
            us,
            height as int,
            i as nat,
        ) + Seq::new(extra as nat, |k: int| us[i as int]));
        assert(board_columns(out@) =~= us + added_copies(us, height as int, (i + 1) as nat));
        i = i + 1;
    }
    assert(ubv.len() == ub.len());
    MultiplayedBoardsInstanse { instanses: out }
}

proof fn lemma_count_mono<T>(s: Seq<T>, a: int, b: int, x: T)
    requires
        0 <= a <= b <= s.len(),
    ensures
        count_of(s.take(a), x) <= count_of(s.take(b), x),
    decreases b - a,
{
    if a < b {
        lemma_count_mono(s, a, b - 1, x);
        crate::seqs::lemma_count_of_take(s, b - 1, x);
    }
}


/// How many of the last `height` symbols of a strip, read from its end, equal its last
/// one (counting from `k`).
pub open spec fn run_back(reel: Seq<u8>, height: int, k: int) -> int
    decreases height - k,
{
    if 0 <= k < height && k < reel.len() && reel[reel.len() - 1 - k] == reel.last() {
        run_back(reel, height, k + 1)
    } else {
        k
    }
}

/// How many of the first `height` symbols of a strip, read from its start, equal its
/// first one (counting from `k`).
pub open spec fn run_front(reel: Seq<u8>, height: int, k: int) -> int
    decreases height - k,
{
    if 0 <= k < height && k < reel.len() && reel[k] == reel[0] {
        run_front(reel, height, k + 1)
    } else {
        k
    }
}

/// Whether a board continues the strip at its end: the strip's last `height - 1`
/// symbols begin the board, and the run of equal symbols at the strip's end is neither
/// broken off short of `height` nor stretched past it.
pub open spec fn fits_right(reel: Seq<u8>, board: Seq<u8>, height: int) -> bool {
    let next_equal = reel.last() == board.last();
    let same = run_back(reel, height, 0);
    &&& reel.subrange(reel.len() - (height - 1), reel.len() as int) == board.subrange(0, height - 1)
    &&& !(2 <= same < height && !next_equal)
    &&& !(same == height && next_equal)
}

/// Whether a board continues the strip at its start, in the same way.
pub open spec fn fits_left(reel: Seq<u8>, board: Seq<u8>, height: int) -> bool {
    let next_equal = reel[0] == board[0];
    let same = run_front(reel, height, 0);
    &&& reel.subrange(0, height - 1) == board.subrange(board.len() - (height - 1), board.len() as int)
    &&& !(2 <= same < height && !next_equal)
    &&& !(same == height && next_equal)
}

/// The boards with one copy of board `p` used: its count drops by one, and it leaves
/// when none is left.
pub open spec fn take_one(bs: Seq<(u64, Seq<u8>)>, p: int) -> Seq<(u64, Seq<u8>)> {
    if bs[p].0 - 1 < 1 {
        bs.remove(p)
    } else {
        bs.update(p, ((bs[p].0 - 1) as u64, bs[p].1))
    }
}

/// The strip grown by board `p`, at its end when the board fits there, else at its
/// start when it fits there.
pub open spec fn grown(reel: Seq<u8>, bs: Seq<(u64, Seq<u8>)>, height: int, p: int) -> Seq<(Seq<u8>, Seq<(u64, Seq<u8>)>, bool)> {
    let b = bs[p].1;
    if fits_right(reel, b, height) {
        seq![(reel + b.subrange(height - 1, b.len() as int), take_one(bs, p), false)]
    } else if fits_left(reel, b, height) {
        seq![(seq![b[0]] + reel, take_one(bs, p), false)]
    } else {
        Seq::empty()
    }
}

/// The strips grown from a candidate by its first `n` boards, the last board first.
pub open spec fn children(reel: Seq<u8>, bs: Seq<(u64, Seq<u8>)>, height: int, n: nat) -> Seq<(Seq<u8>, Seq<(u64, Seq<u8>)>, bool)>
    decreases n,
{
    if n == 0 || n > bs.len() {
        Seq::empty()
    } else {
        grown(reel, bs, height, n - 1) + children(reel, bs, height, (n - 1) as nat)
    }
}

/// Whether a candidate ends in the stuck mark.
pub open spec fn is_stuck(r: (Seq<u8>, Seq<(u64, Seq<u8>)>, bool)) -> bool {
    r.0.last() == STUCK
}

pub open spec fn offspring(r: (Seq<u8>, Seq<(u64, Seq<u8>)>, bool), height: int) -> Seq<(Seq<u8>, Seq<(u64, Seq<u8>)>, bool)> {
    children(r.0, r.1, height, r.1.len())
}

/// The candidates among the first `n` that stay in place: stuck ones as they are, and
/// those no board grows, now marked stuck.
pub open spec fn kept(rs: Seq<(Seq<u8>, Seq<(u64, Seq<u8>)>, bool)>, height: int, n: nat) -> Seq<(Seq<u8>, Seq<(u64, Seq<u8>)>, bool)>
    decreases n,
{
    if n == 0 || n > rs.len() {
        Seq::empty()
    } else {
        let r = rs[n - 1];
        kept(rs, height, (n - 1) as nat) + if is_stuck(r) {
            seq![r]
        } else if offspring(r, height).len() == 0 {
            seq![(r.0.push(STUCK), r.1, r.2)]
        } else {
            Seq::empty()
        }
    }
}

/// The grown strips of the first `n` candidates, the last candidate's first.
pub open spec fn appended(rs: Seq<(Seq<u8>, Seq<(u64, Seq<u8>)>, bool)>, height: int, n: nat) -> Seq<(Seq<u8>, Seq<(u64, Seq<u8>)>, bool)>
    decreases n,
{
    if n == 0 || n > rs.len() {
        Seq::empty()
    } else {
        (if is_stuck(rs[n - 1]) {
            Seq::empty()
        } else {
            offspring(rs[n - 1], height)
        }) + appended(rs, height, (n - 1) as nat)
    }
}

/// The first occurrence of each candidate, in order.
pub open spec fn first_of_each(s: Seq<(Seq<u8>, Seq<(u64, Seq<u8>)>, bool)>) -> Seq<(Seq<u8>, Seq<(u64, Seq<u8>)>, bool)>
    decreases s.len(),
{
    if s.len() == 0 {
        s
    } else if s.drop_last().contains(s.last()) {
        first_of_each(s.drop_last())
    } else {
        first_of_each(s.drop_last()).push(s.last())
    }
}

/// One round of collection: every candidate that is not stuck is replaced by the strips
/// its boards grow, or marked stuck when none does; then repeats are dropped.
pub open spec fn collect_round(rs: Seq<(Seq<u8>, Seq<(u64, Seq<u8>)>, bool)>, height: int) -> Seq<(Seq<u8>, Seq<(u64, Seq<u8>)>, bool)> {
    first_of_each(kept(rs, height, rs.len()) + appended(rs, height, rs.len()))
}

pub open spec fn collect_rounds(rs: Seq<(Seq<u8>, Seq<(u64, Seq<u8>)>, bool)>, height: int, k: nat) -> Seq<(Seq<u8>, Seq<(u64, Seq<u8>)>, bool)>
    decreases k,
{
    if k == 0 {
        rs
    } else {
        collect_round(collect_rounds(rs, height, (k - 1) as nat), height)
    }
}

/// The candidate that starts from the first board.
pub open spec fn first_candidate(bs: Seq<(u64, Seq<u8>)>) -> (Seq<u8>, Seq<(u64, Seq<u8>)>, bool) {
    (bs[0].1, take_one(bs, 0), false)
}

/// Whether every board has a positive count and at least `height` symbols.
pub open spec fn boards_ok(bs: Seq<(u64, Seq<u8>)>, height: int) -> bool {
    forall|p: int| 0 <= p < bs.len() ==> #[trigger] bs[p].0 >= 1 && bs[p].1.len() >= height
}

/// Whether every candidate holds at least `height` symbols and well-formed boards.
pub open spec fn candidates_ok(rs: Seq<(Seq<u8>, Seq<(u64, Seq<u8>)>, bool)>, height: int) -> bool {
    forall|i: int| 0 <= i < rs.len() ==> (#[trigger] rs[i]).0.len() >= height && boards_ok(rs[i].1, height)
}


fn run_back_exec(reel: &Vec<u8>, height: usize) -> (r: usize)
    requires
        1 <= height <= reel.len(),
    ensures
        r == run_back(reel@, height as int, 0),
{
    let n = reel.len();
    let last = reel[n - 1];
    let mut k: usize = 0;
    while k < height && reel[n - 1 - k] == last
        invariant
            n == reel@.len(),
            1 <= height <= n,
            last == reel@.last(),
            k <= height,
            run_back(reel@, height as int, 0) == run_back(reel@, height as int, k as int),
        decreases height - k,
    {
        k = k + 1;
    }
    k
}

fn run_front_exec(reel: &Vec<u8>, height: usize) -> (r: usize)
    requires
        1 <= height <= reel.len(),
    ensures
        r == run_front(reel@, height as int, 0),
{
    let first = reel[0];
    let mut k: usize = 0;
    while k < height && reel[k] == first
        invariant
            1 <= height <= reel@.len(),
            first == reel@[0],
            k <= height,
            run_front(reel@, height as int, 0) == run_front(reel@, height as int, k as int),
        decreases height - k,
    {
        k = k + 1;
    }
    k
}

fn fits_right_exec(reel: &Vec<u8>, board: &Vec<u8>, height: usize) -> (r: bool)
    requires
        1 <= height <= reel.len(),
        height <= board.len(),
    ensures
        r == fits_right(reel@, board@, height as int),
{
    let n = reel.len();
    let m = board.len();
    let joins = window_eq_u8(reel, n - (height - 1), board, 0, height - 1);
    let next_equal = reel[n - 1] == board[m - 1];
    let same = run_back_exec(reel, height);
    joins && !(2 <= same && same < height && !next_equal) && !(same == height && next_equal)
}

fn fits_left_exec(reel: &Vec<u8>, board: &Vec<u8>, height: usize) -> (r: bool)
    requires
        1 <= height <= reel.len(),
        height <= board.len(),
    ensures
        r == fits_left(reel@, board@, height as int),
{
    let m = board.len();
    let joins = window_eq_u8(reel, 0, board, m - (height - 1), height - 1);
    let next_equal = reel[0] == board[0];
    let same = run_front_exec(reel, height);
    joins && !(2 <= same && same < height && !next_equal) && !(same == height && next_equal)
}

fn take_one_exec(bs: &Vec<Board>, p: usize) -> (r: Vec<Board>)
    requires
        p < bs.len(),
        bs@[p as int].count >= 1,
    ensures
        boards_v(r@) == take_one(boards_v(bs@), p as int),
{
    let mut r = copy_boards(bs);
    assert(boards_v(r@).len() == r@.len() && boards_v(bs@).len() == bs@.len());
    assert(boards_v(r@)[p as int] == boards_v(bs@)[p as int]);
    let c = r[p].count - 1;
    if c < 1 {
        r.remove(p);
        assert(boards_v(r@) =~= take_one(boards_v(bs@), p as int));
    } else {
        let b = copy_u8(&r[p].board);
        r.set(p, Board { count: c, board: b });
        assert(boards_v(r@) =~= take_one(boards_v(bs@), p as int));
    }
    r
}

proof fn lemma_take_one_ok(bs: Seq<(u64, Seq<u8>)>, p: int, height: int)
    requires
        0 <= p < bs.len(),
        boards_ok(bs, height),
    ensures
        boards_ok(take_one(bs, p), height),
{
    let t = take_one(bs, p);
    assert forall|q: int| 0 <= q < t.len() implies #[trigger] t[q].0 >= 1 && t[q].1.len() >= height by {
        if bs[p].0 - 1 < 1 {
            if q < p {
                assert(t[q] == bs[q]);
            } else {
                assert(t[q] == bs[q + 1]);
            }
        } else {
            assert(bs[q].0 >= 1);
        }
    }
}

/// The strips grown from a candidate by its boards, the last board first.
fn children_exec(reel: &Vec<u8>, bs: &Vec<Board>, height: usize) -> (r: Vec<ReelInstanse>)
    requires
        1 <= height <= reel.len(),
        boards_ok(boards_v(bs@), height as int),
    ensures
        reels_v(r@) == children(reel@, boards_v(bs@), height as int, bs@.len()),
        candidates_ok(reels_v(r@), height as int),
{
    let ghost bv = boards_v(bs@);
    let mut out: Vec<ReelInstanse> = Vec::new();
    let mut q: usize = bs.len();
    while q > 0
        invariant
            bv == boards_v(bs@),
            bv.len() == bs@.len(),
            1 <= height <= reel.len(),
            boards_ok(bv, height as int),
            q <= bs.len(),
            children(reel@, bv, height as int, bs@.len()) == reels_v(out@) + children(reel@, bv, height as int, q as nat),
            candidates_ok(reels_v(out@), height as int),
        decreases q,
    {
        let p = q - 1;
        assert(bv[p as int] == (bs@[p as int].count, bs@[p as int].board@));
        assert(bv[p as int].0 >= 1 && bv[p as int].1.len() >= height);
        let board = &bs[p].board;
        let ghost before = reels_v(out@);
        proof {
            lemma_take_one_ok(bv, p as int, height as int);
        }
        if fits_right_exec(reel, board, height) {
            let mut nr = copy_u8(reel);
            let mut k: usize = height - 1;
            while k < board.len()
                invariant
                    1 <= height <= board.len(),
                    height - 1 <= k <= board.len(),
                    nr@ == reel@ + board@.subrange(height - 1, k as int),
                decreases board.len() - k,
            {
                nr.push(board[k]);
                assert(nr@ =~= reel@ + board@.subrange(height - 1, k + 1));
                k = k + 1;
            }
            out.push(ReelInstanse { reel: nr, remaining: take_one_exec(bs, p), correct: false });
        } else if fits_left_exec(reel, board, height) {
            let mut nr: Vec<u8> = Vec::new();
            nr.push(board[0]);
            let mut k: usize = 0;
            while k < reel.len()
                invariant
                    k <= reel.len(),
                    board@.len() >= 1,
                    nr@ == seq![board@[0]] + reel@.subrange(0, k as int),
                decreases reel.len() - k,
            {
                nr.push(reel[k]);
                assert(nr@ =~= seq![board@[0]] + reel@.subrange(0, k + 1));
                k = k + 1;
            }
            assert(reel@.subrange(0, reel@.len() as int) =~= reel@);
            out.push(ReelInstanse { reel: nr, remaining: take_one_exec(bs, p), correct: false });
        }
        assert(reels_v(out@) =~= before + grown(reel@, bv, height as int, p as int));
        assert(children(reel@, bv, height as int, q as nat) == grown(reel@, bv, height as int, p as int) + children(reel@, bv, height as int, p as nat));
        assert(children(reel@, bv, height as int, bs@.len()) =~= reels_v(out@) + children(reel@, bv, height as int, p as nat));
        q = p;
    }
    assert(reels_v(out@) + children(reel@, bv, height as int, 0) =~= reels_v(out@));
    out
}


fn same_boards(a: &Vec<Board>, b: &Vec<Board>) -> (r: bool)
    ensures
        r == (boards_v(a@) == boards_v(b@)),
{
    if a.len() != b.len() {
        assert(boards_v(a@).len() != boards_v(b@).len());
        return false;
    }
    let mut i: usize = 0;
    while i < a.len()
        invariant
            a.len() == b.len(),
            i <= a.len(),
            forall|k: int| 0 <= k < i ==> board_v(#[trigger] a@[k]) == board_v(b@[k]),
        decreases a.len() - i,
    {
        if a[i].count != b[i].count || !same_u8(&a[i].board, &b[i].board) {
            assert(boards_v(a@)[i as int] != boards_v(b@)[i as int]);
            return false;
        }
        i = i + 1;
    }
    assert(boards_v(a@) =~= boards_v(b@));
    true
}

fn same_reel(a: &ReelInstanse, b: &ReelInstanse) -> (r: bool)
    ensures
        r == (reel_v(*a) == reel_v(*b)),
{
    same_u8(&a.reel, &b.reel) && same_boards(&a.remaining, &b.remaining) && a.correct == b.correct
}

proof fn lemma_first_of_each_contains(s: Seq<(Seq<u8>, Seq<(u64, Seq<u8>)>, bool)>, x: (Seq<u8>, Seq<(u64, Seq<u8>)>, bool))
    ensures
        first_of_each(s).contains(x) <==> s.contains(x),
    decreases s.len(),
{
    if s.len() > 0 {
        lemma_first_of_each_contains(s.drop_last(), x);
        let p = first_of_each(s.drop_last());
        if s.contains(x) {
            let i = choose|i: int| 0 <= i < s.len() && s[i] == x;
            if i < s.len() - 1 {
                assert(s.drop_last()[i] == x);
            }
        }
        if s.drop_last().contains(x) {
            let i = choose|i: int| 0 <= i < s.drop_last().len() && s.drop_last()[i] == x;
            assert(s[i] == x);
        }
        if !s.drop_last().contains(s.last()) {
            if p.push(s.last()).contains(x) && x != s.last() {
                let i = choose|i: int| 0 <= i < p.push(s.last()).len() && p.push(s.last())[i] == x;
                assert(p[i] == x);
            }
            if p.contains(x) {
                let i = choose|i: int| 0 <= i < p.len() && p[i] == x;
                assert(p.push(s.last())[i] == x);
            }
            if x == s.last() {
                assert(p.push(s.last())[p.len() as int] == x);
            }
        }
    }
}

fn first_of_each_exec(v: Vec<ReelInstanse>) -> (r: Vec<ReelInstanse>)
    ensures
        reels_v(r@) == first_of_each(reels_v(v@)),
{
    let ghost s = reels_v(v@);
    let mut out: Vec<ReelInstanse> = Vec::new();
    let mut i: usize = 0;
    while i < v.len()
        invariant
            s == reels_v(v@),
            s.len() == v@.len(),
            i <= v.len(),
            reels_v(out@) == first_of_each(s.take(i as int)),
        decreases v.len() - i,
    {
        assert(s.take(i + 1).drop_last() =~= s.take(i as int));
        assert(s.take(i + 1).last() == reel_v(v@[i as int]));
        let mut found = false;
        let mut j: usize = 0;
        while j < out.len()
            invariant
                j <= out.len(),
                i < v.len(),
                found == exists|k: int| 0 <= k < j && reel_v(out@[k]) == reel_v(v@[i as int]),
            decreases out.len() - j,
        {
            if same_reel(&out[j], &v[i]) {
                found = true;
            }
            j = j + 1;
        }
        proof {
            lemma_first_of_each_contains(s.take(i as int), reel_v(v@[i as int]));
            if found {
                let k = choose|k: int| 0 <= k < out.len() && reel_v(out@[k]) == reel_v(v@[i as int]);
                assert(reels_v(out@)[k] == reel_v(v@[i as int]));
            } else {
                assert forall|k: int| 0 <= k < reels_v(out@).len() implies reels_v(out@)[k] != reel_v(v@[i as int]) by {
                    assert(reels_v(out@)[k] == reel_v(out@[k]));
                }
            }
        }
        if !found {
            let ghost before = reels_v(out@);
            out.push(v[i].duplicate());
            assert(reels_v(out@) =~= before.push(reel_v(v@[i as int])));
        }
        i = i + 1;
    }
    assert(s.take(v.len() as int) =~= s);
    out
}

fn stuck_exec(r: &ReelInstanse) -> (b: bool)
    requires
        r.reel@.len() >= 1,
    ensures
        b == is_stuck(reel_v(*r)),
{
    r.reel[r.reel.len() - 1] == STUCK
}

proof fn lemma_stuck_ok(r: (Seq<u8>, Seq<(u64, Seq<u8>)>, bool), height: int)
    requires
        r.0.len() >= height,
        boards_ok(r.1, height),
    ensures
        candidates_ok(seq![(r.0.push(STUCK), r.1, r.2)], height),
        candidates_ok(seq![r], height),
{
}

proof fn lemma_candidates_ok_add(a: Seq<(Seq<u8>, Seq<(u64, Seq<u8>)>, bool)>, b: Seq<(Seq<u8>, Seq<(u64, Seq<u8>)>, bool)>, height: int)
    requires
        candidates_ok(a, height),
        candidates_ok(b, height),
    ensures
        candidates_ok(a + b, height),
{
    assert forall|i: int| 0 <= i < (a + b).len() implies (#[trigger] (a + b)[i]).0.len() >= height && boards_ok((a + b)[i].1, height) by {
        if i < a.len() {
            assert((a + b)[i] == a[i]);
        } else {
            assert((a + b)[i] == b[i - a.len()]);
        }
    }
}

/// One round of collection.
fn collect_round_exec(rs: &Vec<ReelInstanse>, height: usize) -> (r: Vec<ReelInstanse>)
    requires
        height >= 1,
        candidates_ok(reels_v(rs@), height as int),
    ensures
        reels_v(r@) == collect_round(reels_v(rs@), height as int),
        candidates_ok(reels_v(r@), height as int),
{
    let ghost s = reels_v(rs@);
    let mut staying: Vec<ReelInstanse> = Vec::new();
    let mut i: usize = 0;
    while i < rs.len()
        invariant
            s == reels_v(rs@),
            s.len() == rs@.len(),
            height >= 1,
            candidates_ok(s, height as int),
            i <= rs.len(),
            reels_v(staying@) == kept(s, height as int, i as nat),
            candidates_ok(reels_v(staying@), height as int),
        decreases rs.len() - i,
    {
        let r = &rs[i];
        assert(s[i as int] == reel_v(*r));
        let ghost before = reels_v(staying@);
        proof {
            lemma_stuck_ok(s[i as int], height as int);
        }
        if stuck_exec(r) {
            staying.push(r.duplicate());
            assert(reels_v(staying@) =~= before + seq![s[i as int]]);
        } else {
            let kids = children_exec(&r.reel, &r.remaining, height);
            if kids.len() == 0 {
                let mut nr = copy_u8(&r.reel);
                nr.push(STUCK);
                staying.push(ReelInstanse { reel: nr, remaining: copy_boards(&r.remaining), correct: r.correct });
                assert(reels_v(staying@) =~= before + seq![(s[i as int].0.push(STUCK), s[i as int].1, s[i as int].2)]);
            } else {
                assert(reels_v(staying@) =~= before + Seq::empty());
            }
        }
        proof {
            lemma_candidates_ok_add(before, reels_v(staying@).subrange(before.len() as int, reels_v(staying@).len() as int), height as int);
            assert(reels_v(staying@) =~= before + reels_v(staying@).subrange(before.len() as int, reels_v(staying@).len() as int));
        }
        i = i + 1;
    }
    let mut grown_all: Vec<ReelInstanse> = Vec::new();
    let mut q: usize = rs.len();
    while q > 0
        invariant
            s == reels_v(rs@),
            s.len() == rs@.len(),
            height >= 1,
            candidates_ok(s, height as int),
            q <= rs.len(),
            appended(s, height as int, rs@.len()) == reels_v(grown_all@) + appended(s, height as int, q as nat),
            candidates_ok(reels_v(grown_all@), height as int),
        decreases q,
    {
        let p = q - 1;
        let r = &rs[p];
        assert(s[p as int] == reel_v(*r));
        let ghost before = reels_v(grown_all@);
        let ghost piece = if is_stuck(s[p as int]) {
            Seq::<(Seq<u8>, Seq<(u64, Seq<u8>)>, bool)>::empty()
        } else {
            offspring(s[p as int], height as int)
        };
        if !stuck_exec(r) {
            let kids = children_exec(&r.reel, &r.remaining, height);
            let mut k: usize = 0;
            while k < kids.len()
                invariant
                    k <= kids.len(),
                    reels_v(grown_all@) == before + reels_v(kids@).take(k as int),
            decreases kids.len() - k,
            {
                let ghost old_v = reels_v(grown_all@);
                grown_all.push(kids[k].duplicate());
                assert(reels_v(grown_all@) =~= old_v.push(reel_v(kids@[k as int])));
                assert(reels_v(kids@).take(k + 1) =~= reels_v(kids@).take(k as int).push(reel_v(kids@[k as int])));
                assert(reels_v(grown_all@) =~= before + reels_v(kids@).take(k + 1));
                k = k + 1;
            }
            assert(reels_v(kids@).take(kids.len() as int) =~= reels_v(kids@));
            proof {
                lemma_candidates_ok_add(before, reels_v(kids@), height as int);
            }
        } else {
            assert(reels_v(grown_all@) =~= before + piece);
        }
        assert(appended(s, height as int, q as nat) == piece + appended(s, height as int, p as nat));
        assert(appended(s, height as int, rs@.len()) =~= reels_v(grown_all@) + appended(s, height as int, p as nat));
        q = p;
    }
    assert(reels_v(grown_all@) + appended(s, height as int, 0) =~= reels_v(grown_all@));
    let mut all = staying;
    let ghost sv = reels_v(all@);
    let mut k: usize = 0;
    while k < grown_all.len()
        invariant
            k <= grown_all.len(),
            reels_v(all@) == sv + reels_v(grown_all@).take(k as int),
        decreases grown_all.len() - k,
    {
        let ghost old_v = reels_v(all@);
        all.push(grown_all[k].duplicate());
        assert(reels_v(all@) =~= old_v.push(reel_v(grown_all@[k as int])));
        assert(reels_v(grown_all@).take(k + 1) =~= reels_v(grown_all@).take(k as int).push(reel_v(grown_all@[k as int])));
        assert(reels_v(all@) =~= sv + reels_v(grown_all@).take(k + 1));
        k = k + 1;
    }
    assert(reels_v(grown_all@).take(grown_all.len() as int) =~= reels_v(grown_all@));
    proof {
        lemma_candidates_ok_add(sv, reels_v(grown_all@), height as int);
        lemma_first_of_each_ok(reels_v(all@), height as int);
    }
    first_of_each_exec(all)
}

proof fn lemma_first_of_each_ok(s: Seq<(Seq<u8>, Seq<(u64, Seq<u8>)>, bool)>, height: int)
    requires
        candidates_ok(s, height),
    ensures
        candidates_ok(first_of_each(s), height),
    decreases s.len(),
{
    if s.len() > 0 {
        assert(candidates_ok(s.drop_last(), height)) by {
            assert forall|i: int| 0 <= i < s.drop_last().len() implies (#[trigger] s.drop_last()[i]).0.len() >= height && boards_ok(s.drop_last()[i].1, height) by {
                assert(s.drop_last()[i] == s[i]);
            }
        }
        lemma_first_of_each_ok(s.drop_last(), height);
        assert(s.last() == s[s.len() - 1]);
    }
}


proof fn lemma_total_count_prefix(s: Seq<Board>, i: int)
    requires
        0 <= i <= s.len(),
    ensures
        0 <= total_count(s.take(i)) <= total_count(s),
    decreases s.len() - i,
{
    if i < s.len() {
        assert(s.take(i + 1).drop_last() =~= s.take(i));
        lemma_total_count_prefix(s, i + 1);
    } else {
        assert(s.take(i) =~= s);
    }
    lemma_total_count_nonneg(s.take(i));
}

proof fn lemma_total_count_nonneg(s: Seq<Board>)
    ensures
        total_count(s) >= 0,
    decreases s.len(),
{
    if s.len() > 0 {
        lemma_total_count_nonneg(s.drop_last());
    }
}

fn sum_counts(bs: &Vec<Board>) -> (r: u64)
    requires
        total_count(bs@) <= u64::MAX,
    ensures
        r == total_count(bs@),
{
    let mut total: u64 = 0;
    let mut i: usize = 0;
    while i < bs.len()
        invariant
            i <= bs.len(),
            total_count(bs@) <= u64::MAX,
            total == total_count(bs@.take(i as int)),
        decreases bs.len() - i,
    {
        assert(bs@.take(i + 1).drop_last() =~= bs@.take(i as int));
        proof {
            lemma_total_count_prefix(bs@, i + 1);
        }
        total = total + bs[i].count;
        i = i + 1;
    }
    assert(bs@.take(bs.len() as int) =~= bs@);
    total
}

/// The number of collection rounds for boards whose counts add up to `total`.
pub open spec fn round_count(total: u64) -> nat {
    ((total - 1) as u64) as usize as nat
}

/// Collects reel strips from the boards: starting from the first board, it runs one
/// round per board copy but the first (`collect_round`), stopping after any round once
/// the time allowed has passed when `can_skip_reel_collect_after_timeout` holds.
pub fn _collect_reels(
    a_reel_num: String,
    a_boards: &Vec<Board>,
    height: usize,
    can_skip_reel_collect_after_timeout: bool,
    skip_collect_timeout_sec: u64,
) -> (r: Vec<ReelInstanse>)
    requires
        height >= 1,
        boards_ok(boards_v(a_boards@), height as int),
        total_count(a_boards@) <= u64::MAX,
    ensures
        total_count(a_boards@) == 0 ==> r@.len() == 0,
        total_count(a_boards@) > 0 ==> exists|k: nat|
            (k == round_count(total_count(a_boards@) as u64) || (can_skip_reel_collect_after_timeout && 1 <= k
                <= round_count(total_count(a_boards@) as u64))) && reels_v(r@) == #[trigger] collect_rounds(
                seq![first_candidate(boards_v(a_boards@))],
                height as int,
                k,
            ),
        candidates_ok(reels_v(r@), height as int),
{
    let total = sum_counts(a_boards);
    let mut reels: Vec<ReelInstanse> = Vec::new();
    if total == 0 {
        return reels;
    }
    let ghost bv = boards_v(a_boards@);
    assert(a_boards@.len() > 0) by {
        if a_boards@.len() == 0 {
            assert(total_count(a_boards@) == 0);
        }
    }
    assert(bv[0] == (a_boards@[0].count, a_boards@[0].board@));
    proof {
        lemma_take_one_ok(bv, 0, height as int);
    }
    let first = ReelInstanse { reel: copy_u8(&a_boards[0].board), remaining: take_one_exec(a_boards, 0), correct: false };
    reels.push(first);
    let ghost init = seq![first_candidate(bv)];
    assert(reels_v(reels@) =~= init);
    let start = clock_now();
    let rounds = (total - 1) as usize;
    let mut i: usize = 0;
    while i < rounds
        invariant
            height >= 1,
            i <= rounds,
            rounds == round_count(total),
            reels_v(reels@) == collect_rounds(init, height as int, i as nat),
            candidates_ok(reels_v(reels@), height as int),
        ensures
            reels_v(reels@) == collect_rounds(init, height as int, i as nat),
            i == rounds || (can_skip_reel_collect_after_timeout && 1 <= i <= rounds),
            candidates_ok(reels_v(reels@), height as int),
        decreases rounds - i,
    {
        reels = collect_round_exec(&reels, height);
        i = i + 1;
        if can_skip_reel_collect_after_timeout {
            let gone = time_since(&start);
            if span_longer(&gone, &whole_seconds(skip_collect_timeout_sec)) {
                break;
            }
        }
    }
    reels
}


/// Grows a strip in place by its boards `n - 1` down to `0`, each board tried against the
/// strip as grown so far: the strip, the boards left, and whether any board was used.
pub open spec fn grow_from(reel: Seq<u8>, bs: Seq<(u64, Seq<u8>)>, height: int, n: nat) -> (Seq<u8>, Seq<(u64, Seq<u8>)>, bool)
    decreases n,
{
    if n == 0 || n > bs.len() {
        (reel, bs, false)
    } else {
        let p = n - 1;
        let b = bs[p].1;
        let step: (Seq<u8>, Seq<(u64, Seq<u8>)>, bool) = if fits_right(reel, b, height) {
            (reel + b.subrange(height - 1, b.len() as int), take_one(bs, p), true)
        } else if fits_left(reel, b, height) {
            (seq![b[0]] + reel, take_one(bs, p), true)
        } else {
            (reel, bs, false)
        };
        let rest = grow_from(step.0, step.1, height, (n - 1) as nat);
        (rest.0, rest.1, step.2 || rest.2)
    }
}

/// A candidate after a round of in-place collection: grown, or marked stuck when no
/// board grows it; a stuck one stays as it is.
pub open spec fn grown_in_place(r: (Seq<u8>, Seq<(u64, Seq<u8>)>, bool), height: int) -> (Seq<u8>, Seq<(u64, Seq<u8>)>, bool) {
    if is_stuck(r) {
        r
    } else {
        let g = grow_from(r.0, r.1, height, r.1.len());
        if g.2 {
            (g.0, g.1, r.2)
        } else {
            (g.0.push(STUCK), g.1, r.2)
        }
    }
}

/// The candidate that a round starts from the boards left to one it marked stuck.
pub open spec fn spawned(r: (Seq<u8>, Seq<(u64, Seq<u8>)>, bool), height: int) -> Seq<(Seq<u8>, Seq<(u64, Seq<u8>)>, bool)> {
    if is_stuck(r) {
        Seq::empty()
    } else {
        let g = grow_from(r.0, r.1, height, r.1.len());
        if !g.2 && g.1.len() > 0 {
            seq![first_candidate(g.1)]
        } else {
            Seq::empty()
        }
    }
}

/// The candidates spawned by the first `n`, the last one's first.
pub open spec fn spawned_all(rs: Seq<(Seq<u8>, Seq<(u64, Seq<u8>)>, bool)>, height: int, n: nat) -> Seq<(Seq<u8>, Seq<(u64, Seq<u8>)>, bool)>
    decreases n,
{
    if n == 0 || n > rs.len() {
        Seq::empty()
    } else {
        spawned(rs[n - 1], height) + spawned_all(rs, height, (n - 1) as nat)
    }
}

/// One round of in-place collection: every candidate grown in place, then the spawned ones.
pub open spec fn collect_round_v2(rs: Seq<(Seq<u8>, Seq<(u64, Seq<u8>)>, bool)>, height: int) -> Seq<(Seq<u8>, Seq<(u64, Seq<u8>)>, bool)> {
    rs.map_values(|r: (Seq<u8>, Seq<(u64, Seq<u8>)>, bool)| grown_in_place(r, height)) + spawned_all(rs, height, rs.len())
}

pub open spec fn collect_rounds_v2(rs: Seq<(Seq<u8>, Seq<(u64, Seq<u8>)>, bool)>, height: int, k: nat) -> Seq<(Seq<u8>, Seq<(u64, Seq<u8>)>, bool)>
    decreases k,
{
    if k == 0 {
        rs
    } else {
        collect_round_v2(collect_rounds_v2(rs, height, (k - 1) as nat), height)
    }
}

/// Grows a strip in place: the grown strip, its boards left and whether a board was used.
fn grow_exec(reel: &Vec<u8>, bs: &Vec<Board>, height: usize) -> (r: (Vec<u8>, Vec<Board>, bool))
    requires
        1 <= height <= reel.len(),
        boards_ok(boards_v(bs@), height as int),
    ensures
        (r.0@, boards_v(r.1@), r.2) == grow_from(reel@, boards_v(bs@), height as int, bs@.len()),
        r.0@.len() >= height,
        boards_ok(boards_v(r.1@), height as int),
{
    let mut cur = copy_u8(reel);
    let mut left = copy_boards(bs);
    assert(boards_v(left@).len() == left@.len() && boards_v(bs@).len() == bs@.len());
    let mut pushed = false;
    let mut q: usize = bs.len();
    while q > 0
        invariant
            1 <= height <= cur.len(),
            boards_ok(boards_v(left@), height as int),
            q <= left.len(),
            grow_from(reel@, boards_v(bs@), height as int, bs@.len()) == ({
                let rest = grow_from(cur@, boards_v(left@), height as int, q as nat);
                (rest.0, rest.1, pushed || rest.2)
            }),
        decreases q,
    {
        let p = q - 1;
        let ghost lv = boards_v(left@);
        assert(lv[p as int] == (left@[p as int].count, left@[p as int].board@));
        assert(lv[p as int].0 >= 1 && lv[p as int].1.len() >= height);
        proof {
            lemma_take_one_ok(lv, p as int, height as int);
        }
        let board = copy_u8(&left[p].board);
        if fits_right_exec(&cur, &board, height) {
            let ghost before = cur@;
            let mut k: usize = height - 1;
            while k < board.len()
                invariant
                    1 <= height <= board.len(),
                    height - 1 <= k <= board.len(),
                    cur@ == before + board@.subrange(height - 1, k as int),
                decreases board.len() - k,
            {
                cur.push(board[k]);
                assert(cur@ =~= before + board@.subrange(height - 1, k + 1));
                k = k + 1;
            }
            left = take_one_exec(&left, p);
            assert(boards_v(left@).len() == left@.len());
            pushed = true;
        } else if fits_left_exec(&cur, &board, height) {
            let ghost before = cur@;
            let mut nr: Vec<u8> = Vec::new();
            nr.push(board[0]);
            let mut k: usize = 0;
            while k < cur.len()
                invariant
                    k <= cur.len(),
                    board@.len() >= 1,
                    nr@ == seq![board@[0]] + cur@.subrange(0, k as int),
                decreases cur.len() - k,
            {
                nr.push(cur[k]);
                assert(nr@ =~= seq![board@[0]] + cur@.subrange(0, k + 1));
                k = k + 1;
            }
            assert(cur@.subrange(0, cur@.len() as int) =~= cur@);
            cur = nr;
            left = take_one_exec(&left, p);
            assert(boards_v(left@).len() == left@.len());
            pushed = true;
        }
        q = p;
    }
    (cur, left, pushed)
}

/// One round of in-place collection.
fn collect_round_v2_exec(rs: &Vec<ReelInstanse>, height: usize) -> (r: Vec<ReelInstanse>)
    requires
        height >= 1,
        candidates_ok(reels_v(rs@), height as int),
    ensures
        reels_v(r@) == collect_round_v2(reels_v(rs@), height as int),
        candidates_ok(reels_v(r@), height as int),
{
    let ghost s = reels_v(rs@);
    let ghost upd = s.map_values(|r: (Seq<u8>, Seq<(u64, Seq<u8>)>, bool)| grown_in_place(r, height as int));
    let mut out: Vec<ReelInstanse> = Vec::new();
    let mut i: usize = 0;
    while i < rs.len()
        invariant
            s == reels_v(rs@),
            s.len() == rs@.len(),
            upd == s.map_values(|r: (Seq<u8>, Seq<(u64, Seq<u8>)>, bool)| grown_in_place(r, height as int)),
            height >= 1,
            candidates_ok(s, height as int),
            i <= rs.len(),
            reels_v(out@) == upd.take(i as int),
            candidates_ok(reels_v(out@), height as int),
        decreases rs.len() - i,
    {
        let r = &rs[i];
        assert(s[i as int] == reel_v(*r));
        let ghost before = reels_v(out@);
        if stuck_exec(r) {
            out.push(r.duplicate());
        } else {
            let (g0, g1, g2) = grow_exec(&r.reel, &r.remaining, height);
            if g2 {
                out.push(ReelInstanse { reel: g0, remaining: g1, correct: r.correct });
            } else {
                let mut g0 = g0;
                g0.push(STUCK);
                out.push(ReelInstanse { reel: g0, remaining: g1, correct: r.correct });
            }
        }
        assert(upd.take(i + 1) =~= upd.take(i as int).push(upd[i as int]));
        assert(reels_v(out@) =~= before.push(upd[i as int]));
        proof {
            lemma_candidates_ok_add(before, seq![upd[i as int]], height as int);
            assert(before + seq![upd[i as int]] =~= before.push(upd[i as int]));
        }
        i = i + 1;
    }
    assert(upd.take(rs.len() as int) =~= upd);
    let ghost updv = reels_v(out@);
    let mut q: usize = rs.len();
    while q > 0
        invariant
            s == reels_v(rs@),
            s.len() == rs@.len(),
            height >= 1,
            candidates_ok(s, height as int),
            q <= rs.len(),
            reels_v(out@) + spawned_all(s, height as int, q as nat) == updv + spawned_all(s, height as int, rs@.len()),
            candidates_ok(reels_v(out@), height as int),
        decreases q,
    {
        let p = q - 1;
        let r = &rs[p];
        assert(s[p as int] == reel_v(*r));
        let ghost before = reels_v(out@);
        if !stuck_exec(r) {
            let (g0, g1, g2) = grow_exec(&r.reel, &r.remaining, height);
            if !g2 && g1.len() > 0 {
                let ghost gv = boards_v(g1@);
                assert(gv[0] == (g1@[0].count, g1@[0].board@));
                proof {
                    lemma_take_one_ok(gv, 0, height as int);
                }
                out.push(ReelInstanse { reel: copy_u8(&g1[0].board), remaining: take_one_exec(&g1, 0), correct: false });
                assert(reels_v(out@) =~= before + spawned(s[p as int], height as int));
                proof {
                    lemma_candidates_ok_add(before, spawned(s[p as int], height as int), height as int);
                }
            } else {
                assert(reels_v(out@) =~= before + spawned(s[p as int], height as int));
            }
        } else {
            assert(reels_v(out@) =~= before + spawned(s[p as int], height as int));
        }
        assert(spawned_all(s, height as int, q as nat) == spawned(s[p as int], height as int) + spawned_all(s, height as int, p as nat));
        assert(reels_v(out@) + spawned_all(s, height as int, p as nat) =~= before + spawned_all(s, height as int, q as nat));
        q = p;
    }
    assert(reels_v(out@) + spawned_all(s, height as int, 0) =~= reels_v(out@));
    out
}

/// Collects reel strips from the boards by growing each candidate in place: starting
/// from the first board, it runs one round per board copy but the first
/// (`collect_round_v2`), stopping after any round once the time allowed has passed when
/// `can_skip_reel_collect_after_timeout` holds.
pub fn _collect_reels_v2(
    a_reel_num: String,
    a_boards: &Vec<Board>,
    height: usize,
    can_skip_reel_collect_after_timeout: bool,
    skip_collect_timeout_sec: u64,
) -> (r: Vec<ReelInstanse>)
    requires
        height >= 1,
        boards_ok(boards_v(a_boards@), height as int),
        total_count(a_boards@) <= u64::MAX,
    ensures
        total_count(a_boards@) == 0 ==> r@.len() == 0,
        total_count(a_boards@) > 0 ==> exists|k: nat|
            (k == round_count(total_count(a_boards@) as u64) || (can_skip_reel_collect_after_timeout && 1 <= k
                <= round_count(total_count(a_boards@) as u64))) && reels_v(r@) == #[trigger] collect_rounds_v2(
                seq![first_candidate(boards_v(a_boards@))],
                height as int,
                k,
            ),
{
    let total = sum_counts(a_boards);
    let mut reels: Vec<ReelInstanse> = Vec::new();
    if total == 0 {
        return reels;
    }
    let ghost bv = boards_v(a_boards@);
    assert(a_boards@.len() > 0) by {
        if a_boards@.len() == 0 {
            assert(total_count(a_boards@) == 0);
        }
    }
    assert(bv[0] == (a_boards@[0].count, a_boards@[0].board@));
    proof {
        lemma_take_one_ok(bv, 0, height as int);
    }
    let first = ReelInstanse { reel: copy_u8(&a_boards[0].board), remaining: take_one_exec(a_boards, 0), correct: false };
    reels.push(first);
    let ghost init = seq![first_candidate(bv)];
    assert(reels_v(reels@) =~= init);
    let start = clock_now();
    let rounds = (total - 1) as usize;
    let mut i: usize = 0;
    while i < rounds
        invariant
            height >= 1,
            i <= rounds,
            rounds == round_count(total),
            reels_v(reels@) == collect_rounds_v2(init, height as int, i as nat),
            candidates_ok(reels_v(reels@), height as int),
        ensures
            reels_v(reels@) == collect_rounds_v2(init, height as int, i as nat),
            i == rounds || (can_skip_reel_collect_after_timeout && 1 <= i <= rounds),
        decreases rounds - i,
    {
        reels = collect_round_v2_exec(&reels, height);
        i = i + 1;
        if can_skip_reel_collect_after_timeout {
            let gone = time_since(&start);
            if span_longer(&gone, &whole_seconds(skip_collect_timeout_sec)) {
                break;
            }
        }
    }
    reels
}


/// Whether every symbol of a board is its first one.
pub open spec fn uniform(b: Seq<u8>) -> bool {
    forall|j: int| 0 <= j < b.len() ==> #[trigger] b[j] == b[0]
}

/// The boards among the first `n` that show one symbol throughout, each once, in the
/// order in which they first come.
pub open spec fn uniform_firsts(rem: Seq<(u64, Seq<u8>)>, n: nat) -> Seq<Seq<u8>>
    decreases n,
{
    if n == 0 || n > rem.len() {
        Seq::empty()
    } else {
        let prev = uniform_firsts(rem, (n - 1) as nat);
        let b = rem[n - 1].1;
        if exists|j: int| 0 <= j < n - 1 && #[trigger] rem[j].1 == b {
            prev
        } else if uniform(b) {
            prev.push(b)
        } else {
            prev
        }
    }
}

/// The first position at or after `from` where `u` lies on the strip.
pub open spec fn window_at(reel: Seq<u8>, u: Seq<u8>, from: int) -> Option<int>
    decreases reel.len() - from,
{
    if from < 0 || from >= reel.len() || from + u.len() > reel.len() {
        None
    } else if reel.subrange(from, from + u.len()) == u {
        Some(from)
    } else {
        window_at(reel, u, from + 1)
    }
}

/// The boards without the first one that shows `u`.
pub open spec fn remove_board(rem: Seq<(u64, Seq<u8>)>, u: Seq<u8>, n: nat) -> Seq<(u64, Seq<u8>)>
    decreases n,
{
    if n == 0 || n > rem.len() {
        rem
    } else if exists|j: int| 0 <= j < n - 1 && #[trigger] rem[j].1 == u {
        remove_board(rem, u, (n - 1) as nat)
    } else if rem[n - 1].1 == u {
        rem.remove(n - 1)
    } else {
        rem
    }
}

/// How many of the first `n` boards show `u`.
pub open spec fn count_board(rem: Seq<(u64, Seq<u8>)>, u: Seq<u8>, n: nat) -> nat
    decreases n,
{
    if n == 0 || n > rem.len() {
        0
    } else {
        count_board(rem, u, (n - 1) as nat) + if rem[n - 1].1 == u {
            1nat
        } else {
            0nat
        }
    }
}

/// The strip with one more copy of `u`'s symbol at position `i`, the boards without
/// one copy of `u`, and where the next search starts.
pub open spec fn place(reel: Seq<u8>, rem: Seq<(u64, Seq<u8>)>, u: Seq<u8>, i: int) -> (Seq<u8>, Seq<(u64, Seq<u8>)>, int) {
    let r2 = reel.insert(i, u[0]);
    (r2, remove_board(rem, u, rem.len()), if i + 2 > r2.len() - u.len() {
        0
    } else {
        i + 2
    })
}

/// Places up to `k` copies of the uniform board `u` on the strip, each where `u`
/// next lies on it from `from`, or else from the start; it stops when `u` lies nowhere.
pub open spec fn fill(reel: Seq<u8>, rem: Seq<(u64, Seq<u8>)>, u: Seq<u8>, from: int, k: nat) -> (Seq<u8>, Seq<(u64, Seq<u8>)>)
    decreases k,
{
    if k == 0 {
        (reel, rem)
    } else {
        match window_at(reel, u, from) {
            Some(i) => {
                let p = place(reel, rem, u, i);
                fill(p.0, p.1, u, p.2, (k - 1) as nat)
            },
            None => match window_at(reel, u, 0) {
                Some(i) => {
                    let p = place(reel, rem, u, i);
                    fill(p.0, p.1, u, p.2, (k - 1) as nat)
                },
                None => (reel, rem),
            },
        }
    }
}

/// `fill` for the first `n` uniform boards, each as many times as it is left.
pub open spec fn complete_with(reel: Seq<u8>, rem: Seq<(u64, Seq<u8>)>, us: Seq<Seq<u8>>, n: nat) -> (Seq<u8>, Seq<(u64, Seq<u8>)>)
    decreases n,
{
    if n == 0 || n > us.len() {
        (reel, rem)
    } else {
        let prev = complete_with(reel, rem, us, (n - 1) as nat);
        let u = us[n - 1];
        fill(prev.0, prev.1, u, 0, count_board(prev.1, u, prev.1.len()))
    }
}

/// A candidate completed with its uniform boards, when `identical` holds.
pub open spec fn completed(r: (Seq<u8>, Seq<(u64, Seq<u8>)>, bool), identical: bool) -> (Seq<u8>, Seq<(u64, Seq<u8>)>, bool) {
    if identical && r.1.len() > 0 {
        let us = uniform_firsts(r.1, r.1.len());
        let c = complete_with(r.0, r.1, us, us.len());
        (c.0, c.1, r.2)
    } else {
        r
    }
}

/// Whether every board of every candidate shows at least one symbol.
pub open spec fn boards_nonempty(rs: Seq<(Seq<u8>, Seq<(u64, Seq<u8>)>, bool)>) -> bool {
    forall|i: int, p: int| 0 <= i < rs.len() && 0 <= p < rs[i].1.len() ==> (#[trigger] rs[i].1[p]).1.len() >= 1
}


fn uniform_exec(b: &Vec<u8>) -> (r: bool)
    ensures
        r == uniform(b@),
{
    if b.len() == 0 {
        return true;
    }
    let r = all_equal_to_u8(b, 0, b.len(), b[0]);
    assert(r == uniform(b@)) by {
        if r {
            assert forall|j: int| 0 <= j < b@.len() implies #[trigger] b@[j] == b@[0] by {
                assert(all_equal_u8(b@, 0, b@.len() as int, b@[0]));
            }
        } else {
            assert(!all_equal_u8(b@, 0, b@.len() as int, b@[0]));
        }
    }
    r
}

fn board_seen_before(rem: &Vec<Board>, n: usize) -> (r: bool)
    requires
        n < rem.len(),
    ensures
        r == exists|j: int| 0 <= j < n && #[trigger] boards_v(rem@)[j].1 == boards_v(rem@)[n as int].1,
{
    let mut j: usize = 0;
    while j < n
        invariant
            n < rem.len(),
            j <= n,
            forall|k: int| 0 <= k < j ==> #[trigger] boards_v(rem@)[k].1 != boards_v(rem@)[n as int].1,
        decreases n - j,
    {
        if same_u8(&rem[j].board, &rem[n].board) {
            assert(boards_v(rem@)[j as int].1 == boards_v(rem@)[n as int].1);
            return true;
        }
        j = j + 1;
    }
    false
}

fn uniform_firsts_exec(rem: &Vec<Board>) -> (r: Vec<Vec<u8>>)
    ensures
        columns(r@) == uniform_firsts(boards_v(rem@), rem@.len()),
{
    let ghost bv = boards_v(rem@);
    let mut out: Vec<Vec<u8>> = Vec::new();
    let mut n: usize = 0;
    while n < rem.len()
        invariant
            bv == boards_v(rem@),
            bv.len() == rem@.len(),
            n <= rem.len(),
            columns(out@) == uniform_firsts(bv, n as nat),
        decreases rem.len() - n,
    {
        assert(bv[n as int] == (rem@[n as int].count, rem@[n as int].board@));
        let ghost before = columns(out@);
        if !board_seen_before(rem, n) && uniform_exec(&rem[n].board) {
            out.push(copy_u8(&rem[n].board));
            assert(columns(out@) =~= before.push(bv[n as int].1));
        }
        n = n + 1;
    }
    out
}

fn find_window(reel: &Vec<u8>, u: &Vec<u8>, from: usize) -> (r: Option<usize>)
    ensures
        r matches Some(j) ==> window_at(reel@, u@, from as int) == Some(j as int) && j + u@.len() <= reel@.len(),
        r is None ==> window_at(reel@, u@, from as int) is None,
{
    let mut i = from;
    while i < reel.len() && u.len() <= reel.len() - i
        invariant
            from <= i,
            window_at(reel@, u@, from as int) == window_at(reel@, u@, i as int),
        decreases reel.len() - i,
    {
        if window_eq_u8(reel, i, u, 0, u.len()) {
            assert(u@.subrange(0, u@.len() as int) =~= u@);
            return Some(i);
        }
        assert(u@.subrange(0, u@.len() as int) =~= u@);
        i = i + 1;
    }
    None
}

fn count_board_exec(rem: &Vec<Board>, u: &Vec<u8>) -> (r: usize)
    ensures
        r == count_board(boards_v(rem@), u@, rem@.len()),
{
    let ghost bv = boards_v(rem@);
    let mut k: usize = 0;
    let mut i: usize = 0;
    while i < rem.len()
        invariant
            bv == boards_v(rem@),
            bv.len() == rem@.len(),
            i <= rem.len(),
            k <= i,
            k == count_board(bv, u@, i as nat),
        decreases rem.len() - i,
    {
        assert(bv[i as int] == (rem@[i as int].count, rem@[i as int].board@));
        if same_u8(&rem[i].board, u) {
            k = k + 1;
        }
        i = i + 1;
    }
    k
}

proof fn lemma_remove_board(rem: Seq<(u64, Seq<u8>)>, u: Seq<u8>, p: int, n: nat)
    requires
        0 <= p < n <= rem.len(),
        rem[p].1 == u,
        forall|j: int| 0 <= j < p ==> #[trigger] rem[j].1 != u,
    ensures
        remove_board(rem, u, n) == rem.remove(p),
    decreases n,
{
    if n - 1 > p {
        assert(rem[p].1 == u);
        lemma_remove_board(rem, u, p, (n - 1) as nat);
    } else {
        assert forall|j: int| 0 <= j < n - 1 implies #[trigger] rem[j].1 != u by {}
    }
}

proof fn lemma_remove_board_none(rem: Seq<(u64, Seq<u8>)>, u: Seq<u8>, n: nat)
    requires
        n <= rem.len(),
        forall|j: int| 0 <= j < n ==> #[trigger] rem[j].1 != u,
    ensures
        remove_board(rem, u, n) == rem,
    decreases n,
{
    if n > 0 {
        lemma_remove_board_none(rem, u, (n - 1) as nat);
    }
}

fn remove_board_exec(rem: &mut Vec<Board>, u: &Vec<u8>)
    ensures
        boards_v(final(rem)@) == remove_board(boards_v(old(rem)@), u@, old(rem)@.len()),
{
    let ghost bv = boards_v(rem@);
    let mut i: usize = 0;
    while i < rem.len()
        invariant
            bv == boards_v(rem@),
            rem@ == old(rem)@,
            bv.len() == rem@.len(),
            i <= rem.len(),
            forall|j: int| 0 <= j < i ==> #[trigger] bv[j].1 != u@,
        decreases rem.len() - i,
    {
        assert(bv[i as int] == (rem@[i as int].count, rem@[i as int].board@));
        if same_u8(&rem[i].board, u) {
            proof {
                lemma_remove_board(bv, u@, i as int, bv.len());
            }
            rem.remove(i);
            assert(boards_v(rem@) =~= bv.remove(i as int));
            return;
        }
        i = i + 1;
    }
    proof {
        lemma_remove_board_none(bv, u@, bv.len());
    }
}

/// Places the copies of one uniform board on a strip (`fill`).
fn fill_exec(reel: &mut Vec<u8>, rem: &mut Vec<Board>, u: &Vec<u8>, k: usize)
    requires
        u@.len() >= 1,
    ensures
        (final(reel)@, boards_v(final(rem)@)) == fill(old(reel)@, boards_v(old(rem)@), u@, 0, k as nat),
{
    let ghost target = fill(reel@, boards_v(rem@), u@, 0, k as nat);
    let mut search_start: usize = 0;
    let mut left = k;
    while left > 0
        invariant
            u@.len() >= 1,
            search_start <= reel@.len(),
            target == fill(old(reel)@, boards_v(old(rem)@), u@, 0, k as nat),
            target == fill(reel@, boards_v(rem@), u@, search_start as int, left as nat),
        decreases left,
    {
        let ghost ss0 = search_start as int;
        let ghost rv0 = reel@;
        let ghost bv0 = boards_v(rem@);
        let first_try = find_window(reel, u, search_start);
        let index: usize;
        if first_try.is_some() {
            index = first_try.unwrap();
            assert(window_at(rv0, u@, ss0) == Some(index as int));
        } else {
            let second = find_window(reel, u, 0);
            if second.is_none() {
                assert(window_at(rv0, u@, ss0) is None && window_at(rv0, u@, 0) is None);
                return;
            }
            index = second.unwrap();
            assert(window_at(rv0, u@, ss0) is None && window_at(rv0, u@, 0) == Some(index as int));
        }
        assert(index + u@.len() <= rv0.len());
        let ghost i0 = index as int;
        reel.insert(index, u[0]);
        assert(reel@.len() == rv0.len() + 1);
        remove_board_exec(rem, u);
        let len_now = reel.len();
        assert(index + 2 <= len_now);
        search_start = index + 2;
        if search_start > reel.len() - u.len() {
            search_start = 0;
        }
        assert((reel@, boards_v(rem@), search_start as int) == place(rv0, bv0, u@, i0));
        left = left - 1;
    }
}

proof fn lemma_uniform_firsts_from(rem: Seq<(u64, Seq<u8>)>, n: nat)
    ensures
        forall|q: int| 0 <= q < uniform_firsts(rem, n).len() ==> exists|p: int| 0 <= p < rem.len() && #[trigger] uniform_firsts(rem, n)[q] == rem[p].1,
    decreases n,
{
    if n > 0 && n <= rem.len() {
        lemma_uniform_firsts_from(rem, (n - 1) as nat);
        let prev = uniform_firsts(rem, (n - 1) as nat);
        let cur = uniform_firsts(rem, n);
        assert forall|q: int| 0 <= q < cur.len() implies exists|p: int| 0 <= p < rem.len() && #[trigger] cur[q] == rem[p].1 by {
            if q < prev.len() {
                assert(cur[q] == prev[q]);
                let p = choose|p: int| 0 <= p < rem.len() && prev[q] == rem[p].1;
                assert(cur[q] == rem[p].1);
            } else {
                assert(cur[q] == rem[n - 1].1);
            }
        }
    }
}

/// A candidate completed with its uniform boards (`completed`).
fn complete_one(r: &mut ReelInstanse, identical_complete: bool)
    requires
        identical_complete ==> forall|p: int| 0 <= p < old(r).remaining@.len() ==> (#[trigger] old(r).remaining@[p]).board@.len() >= 1,
    ensures
        reel_v(*final(r)) == completed(reel_v(*old(r)), identical_complete),
{
    if !(identical_complete && r.remaining.len() > 0) {
        return;
    }
    let ghost rv = reel_v(*r);
    let us = uniform_firsts_exec(&r.remaining);
    let ghost usv = columns(us@);
    proof {
        lemma_uniform_firsts_from(rv.1, rv.1.len());
        assert forall|q: int| 0 <= q < us@.len() implies (#[trigger] usv[q]).len() >= 1 by {
            let p = choose|p: int| 0 <= p < rv.1.len() && usv[q] == rv.1[p].1;
            assert(rv.1[p] == (r.remaining@[p].count, r.remaining@[p].board@));
        }
    }
    let mut n: usize = 0;
    while n < us.len()
        invariant
            usv == columns(us@),
            usv.len() == us@.len(),
            rv.1 == boards_v(old(r).remaining@),
            usv == uniform_firsts(rv.1, rv.1.len()),
            n <= us.len(),
            forall|q: int| 0 <= q < us@.len() ==> (#[trigger] usv[q]).len() >= 1,
            (r.reel@, boards_v(r.remaining@)) == complete_with(rv.0, rv.1, usv, n as nat),
            r.correct == rv.2,
        decreases us.len() - n,
    {
        assert(usv[n as int] == us@[n as int]@);
        let k = count_board_exec(&r.remaining, &us[n]);
        fill_exec(&mut r.reel, &mut r.remaining, &us[n], k);
        n = n + 1;
    }
}


/// Completes every candidate with the copies of its uniform boards left over, when
/// `identical_complete` holds: each copy is placed by doubling the symbol where the
/// board already lies on the strip (`completed`).
pub fn complete_reels(reels: &mut Vec<ReelInstanse>, identical_complete: bool)
    requires
        identical_complete ==> boards_nonempty(reels_v(old(reels)@)),
    ensures
        reels_v(final(reels)@) == reels_v(old(reels)@).map_values(
            |r: (Seq<u8>, Seq<(u64, Seq<u8>)>, bool)| completed(r, identical_complete),
        ),
{
    let ghost start = reels_v(reels@);
    let mut pos: usize = 0;
    while pos < reels.len()
        invariant
            start == reels_v(old(reels)@),
            identical_complete ==> boards_nonempty(start),
            reels@.len() == start.len(),
            pos <= reels.len(),
            forall|q: int| 0 <= q < pos ==> #[trigger] reel_v(reels@[q]) == completed(start[q], identical_complete),
            forall|q: int| pos <= q < reels@.len() ==> #[trigger] reel_v(reels@[q]) == start[q],
        decreases reels.len() - pos,
    {
        let mut r = reels[pos].duplicate();
        assert(reel_v(r) == start[pos as int]);
        if identical_complete {
            assert forall|p: int| 0 <= p < r.remaining@.len() implies (#[trigger] r.remaining@[p]).board@.len() >= 1 by {
                assert(boards_v(r.remaining@)[p] == (r.remaining@[p].count, r.remaining@[p].board@));
                assert(start[pos as int].1[p].1.len() >= 1);
            }
        }
        complete_one(&mut r, identical_complete);
        reels.set(pos, r);
        pos = pos + 1;
    }
    assert(reels_v(reels@) =~= start.map_values(
        |r: (Seq<u8>, Seq<(u64, Seq<u8>)>, bool)| completed(r, identical_complete),
    ));
}


/// Deleting the boards with given symbols twice deletes nothing more: no board that is
/// left shows one of them.
pub proof fn law_delete_boards_idempotent(bs: Seq<Seq<u8>>, symbols: Seq<i64>)
    ensures
        without_symbols(without_symbols(bs, symbols), symbols) == without_symbols(bs, symbols),
        forall|i: int| 0 <= i < without_symbols(bs, symbols).len() ==> !shows_any(#[trigger] without_symbols(bs, symbols)[i], symbols),
    decreases bs.len(),
{
    if bs.len() > 0 {
        law_delete_boards_idempotent(bs.drop_last(), symbols);
        let w = without_symbols(bs.drop_last(), symbols);
        if !shows_any(bs.last(), symbols) {
            assert(w.push(bs.last()).drop_last() =~= w);
            assert(w.push(bs.last()).last() == bs.last());
            assert forall|i: int| 0 <= i < w.push(bs.last()).len() implies !shows_any(#[trigger] w.push(bs.last())[i], symbols) by {
                if i < w.len() {
                    assert(w.push(bs.last())[i] == w[i]);
                }
            }
        }
    }
}

proof fn lemma_total_count_columns(s: Seq<Board>, bs: Seq<Seq<u8>>)
    requires
        forall|i: int| 0 <= i < s.len() ==> #[trigger] s[i].count == count_of(bs, s[i].board@),
    ensures
        total_count(s) == counts_sum(board_columns(s), bs),
    decreases s.len(),
{
    if s.len() > 0 {
        assert(board_columns(s.drop_last()) =~= board_columns(s).drop_last());
        assert forall|i: int| 0 <= i < s.drop_last().len() implies #[trigger] s.drop_last()[i].count == count_of(bs, s.drop_last()[i].board@) by {
            assert(s.drop_last()[i] == s[i]);
        }
        lemma_total_count_columns(s.drop_last(), bs);
        assert(s[s.len() - 1].count == count_of(bs, s[s.len() - 1].board@));
    }
}

/// The counts of the grouped boards add up to the number of boards grouped, which is
/// also the group's total.
pub proof fn law_unique_counts_add_up(r: UniqueBoardsInstanse, bs: Seq<Seq<u8>>)
    requires
        unique_of(r, bs),
    ensures
        total_count(r.instanses@) == bs.len(),
        r.count == total_count(r.instanses@),
{
    lemma_total_count_columns(r.instanses@, bs);
    lemma_distinct_counts_sum(bs);
}


proof fn lemma_count_of_pos_contains<T>(s: Seq<T>, x: T)
    requires
        count_of(s, x) > 0,
    ensures
        s.contains(x),
    decreases s.len(),
{
    if s.len() > 0 {
        if s.last() == x {
            assert(s[s.len() - 1] == x);
        } else {
            lemma_count_of_pos_contains(s.drop_last(), x);
            let k = choose|k: int| 0 <= k < s.drop_last().len() && s.drop_last()[k] == x;
            assert(s[k] == x);
        }
    }
}

proof fn lemma_sorted_drop_last(s: Seq<u64>)
    requires
        sorted_asc(s),
        s.len() > 0,
    ensures
        sorted_asc(s.drop_last()),
        forall|i: int| 0 <= i < s.len() ==> s[i] <= s.last(),
{
    assert forall|i: int, j: int| 0 <= i < j < s.drop_last().len() implies s.drop_last()[i] <= s.drop_last()[j] by {
        assert(s.drop_last()[i] == s[i] && s.drop_last()[j] == s[j]);
    }
    assert forall|i: int| 0 <= i < s.len() implies s[i] <= s.last() by {
        if i < s.len() - 1 {
            assert(s[i] <= s[s.len() - 1]);
        }
    }
}

/// Two ascending lists that hold the same numbers, each as often, are the same list.
proof fn lemma_sorted_perm_unique(a: Seq<u64>, b: Seq<u64>)
    requires
        sorted_asc(a),
        sorted_asc(b),
        is_perm(a, b),
    ensures
        a == b,
    decreases a.len() + b.len(),
{
    if a.len() == 0 || b.len() == 0 {
        if a.len() > 0 {
            lemma_count_pos(a, a.len() - 1);
            assert(count_of(b, a[a.len() - 1]) > 0);
            lemma_count_of_zero(b, a[a.len() - 1]);
        }
        if b.len() > 0 {
            lemma_count_pos(b, b.len() - 1);
            assert(count_of(a, b[b.len() - 1]) > 0);
            lemma_count_of_zero(a, b[b.len() - 1]);
        }
        assert(a =~= b);
    } else {
        let ma = a.last();
        let mb = b.last();
        lemma_sorted_drop_last(a);
        lemma_sorted_drop_last(b);
        lemma_count_pos(a, a.len() - 1);
        lemma_count_pos(b, b.len() - 1);
        assert(count_of(b, ma) > 0);
        assert(count_of(a, mb) > 0);
        lemma_count_of_pos_contains(b, ma);
        lemma_count_of_pos_contains(a, mb);
        let i = choose|i: int| 0 <= i < b.len() && b[i] == ma;
        let j = choose|j: int| 0 <= j < a.len() && a[j] == mb;
        assert(ma == mb);
        let a2 = a.drop_last();
        let b2 = b.drop_last();
        assert(a2.push(ma) =~= a);
        assert(b2.push(mb) =~= b);
        assert forall|x: u64| #[trigger] count_of(a2, x) == count_of(b2, x) by {
            lemma_count_of_push(a2, ma, x);
            lemma_count_of_push(b2, mb, x);
            assert(count_of(a, x) == count_of(b, x));
        }
        lemma_sorted_perm_unique(a2, b2);
    }
}

/// The frequency average depends on the counts alone, not on their order: any two
/// ascending arrangements of lists that hold the same counts give the same average.
pub proof fn law_frequency_average_order_free(a: Seq<u64>, b: Seq<u64>, sa: Seq<u64>, sb: Seq<u64>)
    requires
        is_perm(a, b),
        sorted_asc(sa),
        is_perm(sa, a),
        sorted_asc(sb),
        is_perm(sb, b),
    ensures
        sa == sb,
        frequency_average_of(sa) == frequency_average_of(sb),
{
    assert forall|x: u64| #[trigger] count_of(sa, x) == count_of(sb, x) by {
        assert(count_of(sa, x) == count_of(a, x));
        assert(count_of(a, x) == count_of(b, x));
        assert(count_of(sb, x) == count_of(b, x));
    }
    lemma_sorted_perm_unique(sa, sb);
}


proof fn lemma_first_of_each_unique(s: Seq<(Seq<u8>, Seq<(u64, Seq<u8>)>, bool)>)
    ensures
        first_of_each(s).no_duplicates(),
    decreases s.len(),
{
    if s.len() > 0 {
        lemma_first_of_each_unique(s.drop_last());
        let p = first_of_each(s.drop_last());
        if !s.drop_last().contains(s.last()) {
            lemma_first_of_each_contains(s.drop_last(), s.last());
            assert forall|i: int, j: int| 0 <= i < p.push(s.last()).len() && 0 <= j < p.push(s.last()).len() && i != j
                implies p.push(s.last())[i] != p.push(s.last())[j] by {
                if i < p.len() && j < p.len() {
                    assert(p.push(s.last())[i] == p[i] && p.push(s.last())[j] == p[j]);
                } else if i < p.len() {
                    assert(p.push(s.last())[i] == p[i]);
                    assert(p.contains(p[i]));
                } else if j < p.len() {
                    assert(p.push(s.last())[j] == p[j]);
                    assert(p.contains(p[j]));
                }
            }
        }
    }
}

/// A round of collection never holds the same candidate twice, and holds every strip
/// that its stuck, marked or grown candidates make.
pub proof fn law_collect_round_distinct(rs: Seq<(Seq<u8>, Seq<(u64, Seq<u8>)>, bool)>, height: int)
    ensures
        collect_round(rs, height).no_duplicates(),
        forall|r: (Seq<u8>, Seq<(u64, Seq<u8>)>, bool)|
            #[trigger] collect_round(rs, height).contains(r) <==> (kept(rs, height, rs.len()) + appended(
                rs,
                height,
                rs.len(),
            )).contains(r),
{
    let all = kept(rs, height, rs.len()) + appended(rs, height, rs.len());
    lemma_first_of_each_unique(all);
    assert forall|r: (Seq<u8>, Seq<(u64, Seq<u8>)>, bool)| #[trigger] collect_round(rs, height).contains(r) <==> all.contains(r) by {
        lemma_first_of_each_contains(all, r);
    }
}

/// The columns of counted boards, in order.
pub open spec fn board_faces(rem: Seq<(u64, Seq<u8>)>) -> Seq<Seq<u8>> {
    Seq::new(rem.len(), |i: int| rem[i].1)
}

proof fn lemma_count_board_is_count(rem: Seq<(u64, Seq<u8>)>, u: Seq<u8>, n: nat)
    requires
        n <= rem.len(),
    ensures
        count_board(rem, u, n) == count_of(board_faces(rem).take(n as int), u),
    decreases n,
{
    let f = board_faces(rem);
    if n > 0 {
        lemma_count_board_is_count(rem, u, (n - 1) as nat);
        assert(f.take(n as int) =~= f.take(n - 1).push(f[n - 1]));
        lemma_count_of_push(f.take(n - 1), f[n - 1], u);
    } else {
        assert(f.take(0) =~= Seq::<Seq<u8>>::empty());
    }
}

proof fn lemma_first_copy(f: Seq<Seq<u8>>, u: Seq<u8>, n: nat) -> (p: int)
    requires
        n <= f.len(),
        count_of(f.take(n as int), u) > 0,
    ensures
        0 <= p < n,
        f[p] == u,
        forall|j: int| 0 <= j < p ==> #[trigger] f[j] != u,
    decreases n,
{
    assert(f.take(n as int).drop_last() =~= f.take(n - 1));
    if count_of(f.take(n - 1), u) > 0 {
        lemma_first_copy(f, u, (n - 1) as nat)
    } else {
        assert(f.take(n as int).last() == f[n - 1]);
        assert forall|j: int| 0 <= j < n - 1 implies #[trigger] f[j] != u by {
            if f[j] == u {
                assert(f.take(n - 1)[j] == u);
                assert(f.take(n - 1) =~= f.take(n - 1).take(j).push(u) + f.take(n - 1).skip(j + 1));
                crate::seqs::lemma_count_of_concat(f.take(n - 1).take(j).push(u), f.take(n - 1).skip(j + 1), u);
                lemma_count_of_push(f.take(n - 1).take(j), u, u);
            }
        }
        n - 1
    }
}

/// Removing a board that is there takes one copy of it away.
proof fn lemma_remove_present(rem: Seq<(u64, Seq<u8>)>, u: Seq<u8>)
    requires
        count_of(board_faces(rem), u) > 0,
    ensures
        remove_board(rem, u, rem.len()).len() == rem.len() - 1,
        count_of(board_faces(remove_board(rem, u, rem.len())), u) == count_of(board_faces(rem), u) - 1,
{
    let f = board_faces(rem);
    assert(f.take(f.len() as int) =~= f);
    let p = lemma_first_copy(f, u, f.len());
    assert forall|j: int| 0 <= j < p implies #[trigger] rem[j].1 != u by {
        assert(f[j] == rem[j].1);
    }
    lemma_remove_board(rem, u, p, rem.len());
    assert(board_faces(rem.remove(p)).insert(p, u) =~= f);
    lemma_count_of_insert(board_faces(rem.remove(p)), p, u, u);
}

proof fn lemma_window_at(reel: Seq<u8>, u: Seq<u8>, from: int)
    ensures
        window_at(reel, u, from) matches Some(i) ==> 0 <= i && i + u.len() <= reel.len() && i < reel.len(),
    decreases reel.len() - from,
{
    if !(from < 0 || from >= reel.len() || from + u.len() > reel.len()) {
        lemma_window_at(reel, u, from + 1);
    }
}

proof fn lemma_fill_keeps_size(reel: Seq<u8>, rem: Seq<(u64, Seq<u8>)>, u: Seq<u8>, from: int, k: nat)
    requires
        count_of(board_faces(rem), u) >= k,
    ensures
        fill(reel, rem, u, from, k).0.len() + fill(reel, rem, u, from, k).1.len() == reel.len() + rem.len(),
    decreases k,
{
    if k > 0 {
        lemma_window_at(reel, u, from);
        lemma_window_at(reel, u, 0);
        let at = match window_at(reel, u, from) {
            Some(i) => Some(i),
            None => window_at(reel, u, 0),
        };
        if let Some(i) = at {
            let p = place(reel, rem, u, i);
            lemma_remove_present(rem, u);
            assert(p.0.len() == reel.len() + 1);
            lemma_fill_keeps_size(p.0, p.1, u, p.2, (k - 1) as nat);
        }
    }
}

proof fn lemma_complete_with_keeps_size(reel: Seq<u8>, rem: Seq<(u64, Seq<u8>)>, us: Seq<Seq<u8>>, n: nat)
    ensures
        complete_with(reel, rem, us, n).0.len() + complete_with(reel, rem, us, n).1.len() == reel.len() + rem.len(),
    decreases n,
{
    if n > 0 && n <= us.len() {
        lemma_complete_with_keeps_size(reel, rem, us, (n - 1) as nat);
        let prev = complete_with(reel, rem, us, (n - 1) as nat);
        let u = us[n - 1];
        lemma_count_board_is_count(prev.1, u, prev.1.len());
        assert(board_faces(prev.1).take(prev.1.len() as int) =~= board_faces(prev.1));
        lemma_fill_keeps_size(prev.0, prev.1, u, 0, count_board(prev.1, u, prev.1.len()));
    }
}

/// Completing a candidate adds to its strip exactly one symbol for each left-over board
/// it uses up, and keeps its verdict.
pub proof fn law_complete_uses_up_boards(r: (Seq<u8>, Seq<(u64, Seq<u8>)>, bool), identical: bool)
    ensures
        completed(r, identical).0.len() + completed(r, identical).1.len() == r.0.len() + r.1.len(),
        completed(r, identical).2 == r.2,
{
    if identical && r.1.len() > 0 {
        let us = uniform_firsts(r.1, r.1.len());
        lemma_complete_with_keeps_size(r.0, r.1, us, us.len());
    }
}


proof fn lemma_added_copies_count(ub: Seq<Seq<u8>>, height: int, t: Seq<u8>, i0: int, n: nat)
    requires
        0 <= i0 < ub.len(),
        ub[i0] == t,
        !ub.take(i0).contains(t),
        n <= ub.len(),
    ensures
        count_of(added_copies(ub, height, n), t) == if i0 < n {
            extra_copies(ub, height, i0)
        } else {
            0
        },
    decreases n,
{
    if n > 0 {
        lemma_added_copies_count(ub, height, t, i0, (n - 1) as nat);
        let e = extra_copies(ub, height, n - 1);
        crate::seqs::lemma_count_of_concat(
            added_copies(ub, height, (n - 1) as nat),
            Seq::new(e as nat, |k: int| ub[n - 1]),
            t,
        );
        crate::seqs::lemma_count_of_copies(e as nat, ub[n - 1], t);
        if ub[n - 1] == t && n - 1 != i0 {
            if n - 1 < i0 {
                assert(ub.take(i0)[n - 1] == t);
            } else {
                assert(ub.take(n - 1)[i0] == t);
            }
        }
    } else {
        assert(added_copies(ub, height, 0) =~= Seq::<Seq<u8>>::empty());
    }
}

/// With copies added, every board is held at least as many times as there are distinct
/// boards that may follow it on a strip, at least as many times as there are distinct
/// boards that may precede it, and no fewer times than it was held; and exactly the
/// largest of these three numbers.
pub proof fn law_copies_cover_neighbours(ub: Seq<Seq<u8>>, height: int, t: Seq<u8>)
    requires
        ub.contains(t),
    ensures
        ({
            let ds = distinct(ub);
            let f = count_follows(ds, t, height, ds.len());
            let p = count_precedes(ds, t, height, ds.len());
            let c = count_of(ub, t);
            let held = count_of(ub + added_copies(ub, height, ub.len()), t);
            &&& held >= f
            &&& held >= p
            &&& held >= c
            &&& (held == f || held == p || held == c)
        }),
{
    let i0 = crate::seqs::lemma_first_occurrence(ub, t);
    lemma_added_copies_count(ub, height, t, i0, ub.len());
    crate::seqs::lemma_count_of_concat(ub, added_copies(ub, height, ub.len()), t);
}


/// A board may follow another on a strip only when it is the other shifted up by one: its
/// first `height - 1` symbols are the other's last ones; and may precede it only the other
/// way round. A board neither follows nor precedes itself.
pub proof fn law_neighbours_shift_by_one(b: Seq<u8>, t: Seq<u8>, height: int)
    requires
        height >= 1,
        b.len() == height,
        t.len() == height,
    ensures
        follows(b, t, height) ==> b != t && forall|i: int| 0 <= i < height - 1 ==> #[trigger] b[i] == t[i + 1],
        precedes(b, t, height) ==> b != t && forall|i: int| 0 <= i < height - 1 ==> b[i + 1] == #[trigger] t[i],
{
    if follows(b, t, height) {
        assert forall|i: int| 0 <= i < height - 1 implies #[trigger] b[i] == t[i + 1] by {
            assert(b.subrange(0, height - 1)[i] == t.subrange(1, t.len() as int)[i]);
        }
    }
    if precedes(b, t, height) {
        assert forall|i: int| 0 <= i < height - 1 implies b[i + 1] == #[trigger] t[i] by {
            assert(b.subrange(1, b.len() as int)[i] == t.subrange(0, height - 1)[i]);
        }
    }
}

} // verus!

