use vstd::prelude::*;

use crate::bng::three_aztec_temples::models::{Board, UniqueBoardsInstanse};
use crate::netg::jocker_twenty::split::sorted_counts;
use crate::ratio::{round_div};
use crate::seqs::{
    count_of, counts_sum, distinct, is_perm, lemma_distinct_counts_sum, lemma_count_of_push,
    lemma_count_of_zero, lemma_distinct_props, lemma_distinct_push, sort_asc, sorted_asc,
};

verus! {

/// The symbol sequences of a list of columns.
pub open spec fn cols(s: Seq<Vec<i64>>) -> Seq<Seq<i64>> {
    Seq::new(s.len(), |i: int| s[i]@)
}

/// The symbol sequences of a list of counted boards.
pub open spec fn board_cols(s: Seq<Board>) -> Seq<Seq<i64>> {
    Seq::new(s.len(), |i: int| s[i].board@)
}

/// Element-wise equality of two columns.
pub fn same_i64(a: &Vec<i64>, b: &Vec<i64>) -> (r: bool)
    ensures
        r == (a@ == b@),
{
    if a.len() != b.len() {
        return false;
    }
    let mut i: usize = 0;
    while i < a.len()
        invariant
            a.len() == b.len(),
            i <= a.len(),
            forall|j: int| 0 <= j < i ==> a@[j] == b@[j],
        decreases a.len() - i,
    {
        if a[i] != b[i] {
            return false;
        }
        i = i + 1;
    }
    assert(a@ =~= b@);
    true
}

pub fn copy_i64(a: &Vec<i64>) -> (r: Vec<i64>)
    ensures
        r@ == a@,
{
    let r = a.clone();
    assert(r@ =~= a@);
    r
}

fn contains_i64(v: &Vec<i64>, x: i64) -> (r: bool)
    ensures
        r == v@.contains(x),
{
    let mut i: usize = 0;
    while i < v.len()
        invariant
            i <= v.len(),
            forall|j: int| 0 <= j < i ==> v@[j] != x,
        decreases v.len() - i,
    {
        if v[i] == x {
            return true;
        }
        i = i + 1;
    }
    false
}

/// Whether a column shows one of `symbols`.
pub open spec fn shows_any_of(b: Seq<i64>, symbols: Seq<i64>) -> bool {
    exists|k: int| 0 <= k < b.len() && symbols.contains(b[k])
}

/// The columns that show none of `symbols`, in their order.
pub open spec fn clear_of(bs: Seq<Seq<i64>>, symbols: Seq<i64>) -> Seq<Seq<i64>>
    decreases bs.len(),
{
    if bs.len() == 0 {
        Seq::empty()
    } else if shows_any_of(bs.last(), symbols) {
        clear_of(bs.drop_last(), symbols)
    } else {
        clear_of(bs.drop_last(), symbols).push(bs.last())
    }
}

fn shows_any_exec(b: &Vec<i64>, symbols: &Vec<i64>) -> (r: bool)
    ensures
        r == shows_any_of(b@, symbols@),
{
    let mut k: usize = 0;
    while k < b.len()
        invariant
            k <= b.len(),
            forall|j: int| 0 <= j < k ==> !symbols@.contains(b@[j]),
        decreases b.len() - k,
    {
        if contains_i64(symbols, b[k]) {
            return true;
        }
        k = k + 1;
    }
    false
}

/// Drops every board that shows one of `symbols`, keeping the others in order.
pub fn delete_boards_with_symbols(a_boards: Vec<Vec<i64>>, symbols: Vec<i64>) -> (r: Vec<Vec<i64>>)
    ensures
        cols(r@) == clear_of(cols(a_boards@), symbols@),
{
    let mut r: Vec<Vec<i64>> = Vec::new();
    let mut i: usize = 0;
    while i < a_boards.len()
        invariant
            i <= a_boards.len(),
            cols(r@) == clear_of(cols(a_boards@).take(i as int), symbols@),
        decreases a_boards.len() - i,
    {
        let ghost before = cols(r@);
        assert(cols(a_boards@).take(i + 1).drop_last() =~= cols(a_boards@).take(i as int));
        if !shows_any_exec(&a_boards[i], &symbols) {
            r.push(copy_i64(&a_boards[i]));
            assert(cols(r@) =~= before.push(a_boards@[i as int]@));
        }
        i = i + 1;
    }
    assert(cols(a_boards@).take(a_boards.len() as int) =~= cols(a_boards@));
    r
}

/// Whether `r` groups the observed boards `bs`: their number, no frequency average yet,
/// the distinct boards in order of first sight, each with its number of occurrences.
pub open spec fn grouping_of(r: UniqueBoardsInstanse, bs: Seq<Seq<i64>>) -> bool {
    &&& r.count == bs.len()
    &&& r.frequency_average == 0
    &&& board_cols(r.instanses@) == distinct(bs)
    &&& forall|i: int|
        0 <= i < r.instanses@.len() ==> #[trigger] r.instanses@[i].count == count_of(
            bs,
            r.instanses@[i].board@,
        )
}

fn find_board(out: &Vec<Board>, b: &Vec<i64>) -> (r: Option<usize>)
    ensures
        match r {
            Some(p) => p < out.len() && out@[p as int].board@ == b@,
            None => forall|j: int| 0 <= j < out.len() ==> out@[j].board@ != b@,
        },
{
    let mut pos: usize = 0;
    while pos < out.len()
        invariant
            0 <= pos <= out.len(),
            forall|j: int| 0 <= j < pos ==> out@[j].board@ != b@,
        decreases out.len() - pos,
    {
        if same_i64(&out[pos].board, b) {
            return Some(pos);
        }
        pos = pos + 1;
    }
    None
}

proof fn lemma_count_bound<T>(s: Seq<T>, x: T)
    ensures
        count_of(s, x) <= s.len(),
    decreases s.len(),
{
    if s.len() > 0 {
        lemma_count_bound(s.drop_last(), x);
    }
}

/// Groups equal boards (`grouping_of`).
pub fn select_unique_boards(a_boards: Vec<Vec<i64>>) -> (r: UniqueBoardsInstanse)
    requires
        a_boards.len() <= i64::MAX,
    ensures
        grouping_of(r, cols(a_boards@)),
{
    let ghost bs = cols(a_boards@);
    let mut out: Vec<Board> = Vec::new();
    let mut total: i64 = 0;
    let mut i: usize = 0;
    while i < a_boards.len()
        invariant
            a_boards.len() <= i64::MAX,
            bs == cols(a_boards@),
            i <= a_boards.len(),
            total == i,
            board_cols(out@) == distinct(bs.take(i as int)),
            forall|j: int|
                0 <= j < out@.len() ==> #[trigger] out@[j].count == count_of(
                    bs.take(i as int),
                    out@[j].board@,
                ),
        decreases a_boards.len() - i,
    {
        let ghost pre = bs.take(i as int);
        let ghost x = bs[i as int];
        assert(bs.take(i + 1) =~= pre.push(x));
        proof {
            lemma_distinct_props(pre);
            lemma_distinct_push(pre, x);
        }
        let found_at = find_board(&out, &a_boards[i]);
        let found = found_at.is_some();
        let pos: usize = match found_at {
            Some(p) => p,
            None => out.len(),
        };
        let ghost old_out = out@;
        if !found {
            assert(!distinct(pre).contains(x)) by {
                if distinct(pre).contains(x) {
                    let k = choose|k: int| 0 <= k < distinct(pre).len() && distinct(pre)[k] == x;
                    assert(board_cols(out@)[k] == out@[k].board@);
                    assert(out@[k].board@ != x);
                }
            }
            proof {
                lemma_distinct_props(pre);
                lemma_count_of_zero(pre, x);
            }
            out.push(Board { count: 0, board: copy_i64(&a_boards[i]) });
            assert(board_cols(out@) =~= distinct(pre).push(x));
        } else {
            assert(board_cols(out@)[pos as int] == out@[pos as int].board@);
            assert(distinct(pre).contains(x));
        }
        let ghost mid = out@;
        assert(mid[pos as int].board@ == x);
        assert(mid[pos as int].count == count_of(pre, x)) by {
            if !found {
                assert(pos == old_out.len());
            }
        }
        proof {
            lemma_count_of_push(pre, x, x);
        }
        assert(count_of(pre, x) < i + 1) by {
            lemma_count_bound(pre, x);
        }
        let c = out[pos].count + 1;
        let b = copy_i64(&out[pos].board);
        out.set(pos, Board { count: c, board: b });
        assert(board_cols(out@) =~= board_cols(mid));
        assert forall|j: int| 0 <= j < out@.len() implies #[trigger] out@[j].count == count_of(
            bs.take(i + 1),
            out@[j].board@,
        ) by {
            lemma_count_of_push(pre, x, out@[j].board@);
            if j != pos {
                assert(board_cols(mid)[j] != board_cols(mid)[pos as int]) by {
                    lemma_distinct_props(pre.push(x));
                }
                if j < old_out.len() {
                    assert(out@[j] == old_out[j]);
                }
            }
        }
        total = total + 1;
        i = i + 1;
    }
    assert(bs.take(a_boards.len() as int) =~= bs);
    UniqueBoardsInstanse { count: total, frequency_average: 0, instanses: out }
}

/// Whether every element of `s[from..to]` equals `x`.
pub open spec fn all_same(s: Seq<i64>, from: int, to: int, x: i64) -> bool {
    forall|j: int| from <= j < to ==> s[j] == x
}

fn all_same_exec(s: &Vec<i64>, from: usize, to: usize, x: i64) -> (r: bool)
    requires
        from <= to <= s.len(),
    ensures
        r == all_same(s@, from as int, to as int, x),
{
    let mut i = from;
    while i < to
        invariant
            from <= i <= to <= s.len(),
            forall|j: int| from <= j < i ==> s@[j] == x,
        decreases to - i,
    {
        if s[i] != x {
            return false;
        }
        i = i + 1;
    }
    true
}

fn window_eq(a: &Vec<i64>, a_from: usize, b: &Vec<i64>, b_from: usize, len: usize) -> (r: bool)
    requires
        a_from + len <= a.len(),
        b_from + len <= b.len(),
    ensures
        r == (a@.subrange(a_from as int, a_from + len) == b@.subrange(b_from as int, b_from + len)),
{
    let ghost sa = a@.subrange(a_from as int, a_from + len);
    let ghost sb = b@.subrange(b_from as int, b_from + len);
    let mut i: usize = 0;
    while i < len
        invariant
            a_from + len <= a.len(),
            b_from + len <= b.len(),
            sa == a@.subrange(a_from as int, a_from + len),
            sb == b@.subrange(b_from as int, b_from + len),
            i <= len,
            forall|j: int| 0 <= j < i ==> sa[j] == sb[j],
        decreases len - i,
    {
        if a[a_from + i] != b[b_from + i] {
            assert(sa[i as int] != sb[i as int]);
            return false;
        }
        i = i + 1;
    }
    assert(sa =~= sb);
    true
}

/// Whether board `b` may follow board `t` on a strip (`b` starts with `t` shifted by one).
pub open spec fn may_follow(b: Seq<i64>, t: Seq<i64>, height: int) -> bool {
    &&& t.len() >= 1
    &&& b.subrange(0, height - 1) == t.subrange(1, t.len() as int)
    &&& b != t
    &&& (!all_same(t, 1, t.len() as int, t[1]) || all_same(t, 0, t.len() as int, t[0]) || all_same(
        b,
        0,
        b.len() as int,
        b[0],
    ))
}

/// Whether board `b` may precede board `t` on a strip.
pub open spec fn may_precede(b: Seq<i64>, t: Seq<i64>, height: int) -> bool {
    &&& b.len() >= 1
    &&& b.subrange(1, b.len() as int) == t.subrange(0, height - 1)
    &&& b != t
    &&& (!all_same(t, 0, height - 1, t[0]) || all_same(t, 0, t.len() as int, t[0]) || all_same(
        b,
        0,
        b.len() as int,
        b[0],
    ))
}

/// How many of the first `n` boards of `ds` may follow `t`.
pub open spec fn n_follow(ds: Seq<Seq<i64>>, t: Seq<i64>, height: int, n: nat) -> nat
    decreases n,
{
    if n == 0 || n > ds.len() {
        0
    } else {
        n_follow(ds, t, height, (n - 1) as nat) + if may_follow(ds[n - 1], t, height) {
            1nat
        } else {
            0nat
        }
    }
}

/// How many of the first `n` boards of `ds` may precede `t`.
pub open spec fn n_precede(ds: Seq<Seq<i64>>, t: Seq<i64>, height: int, n: nat) -> nat
    decreases n,
{
    if n == 0 || n > ds.len() {
        0
    } else {
        n_precede(ds, t, height, (n - 1) as nat) + if may_precede(ds[n - 1], t, height) {
            1nat
        } else {
            0nat
        }
    }
}

/// How many more copies of `ub[i]` a strip needs: as many as there are distinct boards
/// that may follow it, or precede it, whichever is more, less the copies present; only
/// the first occurrence of a board asks for copies.
pub open spec fn more_copies(ub: Seq<Seq<i64>>, height: int, i: int) -> int {
    let t = ub[i];
    let ds = distinct(ub);
    let f = n_follow(ds, t, height, ds.len());
    let p = n_precede(ds, t, height, ds.len());
    let need: int = if f >= p {
        f as int
    } else {
        p as int
    };
    if ub.take(i).contains(t) || need <= count_of(ub, t) {
        0
    } else {
        need - count_of(ub, t)
    }
}

/// The copies added for the first `n` boards, in order.
pub open spec fn copies_added(ub: Seq<Seq<i64>>, height: int, n: nat) -> Seq<Seq<i64>>
    decreases n,
{
    if n == 0 || n > ub.len() {
        Seq::empty()
    } else {
        copies_added(ub, height, (n - 1) as nat) + Seq::new(
            more_copies(ub, height, n - 1) as nat,
            |k: int| ub[n - 1],
        )
    }
}

fn may_follow_exec(b: &Vec<i64>, t: &Vec<i64>, height: usize) -> (r: bool)
    requires
        height >= 1,
        b.len() >= height - 1,
    ensures
        r == may_follow(b@, t@, height as int),
{
    if t.len() < 1 {
        return false;
    }
    let shifted = height - 1 == t.len() - 1 && window_eq(b, 0, t, 1, height - 1);
    proof {
        if height - 1 == t.len() - 1 {
            assert(t@.subrange(1, 1 + (height - 1)) =~= t@.subrange(1, t.len() as int));
        } else {
            if b@.subrange(0, height - 1) == t@.subrange(1, t.len() as int) {
                assert(b@.subrange(0, height - 1).len() == t@.subrange(1, t.len() as int).len());
            }
        }
        assert(b@.subrange(0, 0 + (height - 1)) =~= b@.subrange(0, height - 1));
    }
    if !shifted || same_i64(b, t) {
        return false;
    }
    let t1 = if t.len() > 1 { t[1] } else { 0 };
    let b0 = if b.len() > 0 { b[0] } else { 0 };
    !all_same_exec(t, 1, t.len(), t1) || all_same_exec(t, 0, t.len(), t[0]) || (b.len() > 0
        && all_same_exec(b, 0, b.len(), b0)) || b.len() == 0
}

fn may_precede_exec(b: &Vec<i64>, t: &Vec<i64>, height: usize) -> (r: bool)
    requires
        height >= 1,
        t.len() >= height - 1,
    ensures
        r == may_precede(b@, t@, height as int),
{
    if b.len() < 1 {
        return false;
    }
    let shifted = b.len() - 1 == height - 1 && window_eq(b, 1, t, 0, height - 1);
    proof {
        if b.len() - 1 == height - 1 {
            assert(b@.subrange(1, 1 + (height - 1)) =~= b@.subrange(1, b.len() as int));
        } else {
            if b@.subrange(1, b.len() as int) == t@.subrange(0, height - 1) {
                assert(b@.subrange(1, b.len() as int).len() == t@.subrange(0, height - 1).len());
            }
        }
        assert(t@.subrange(0, 0 + (height - 1)) =~= t@.subrange(0, height - 1));
    }
    if !shifted || same_i64(b, t) {
        return false;
    }
    let t0 = if t.len() > 0 { t[0] } else { 0 };
    !all_same_exec(t, 0, height - 1, t0) || (t.len() > 0 && all_same_exec(t, 0, t.len(), t0))
        || t.len() == 0 || all_same_exec(b, 0, b.len(), b[0])
}

fn find_column(r: &Vec<Vec<i64>>, x: &Vec<i64>) -> (res: Option<usize>)
    ensures
        match res {
            Some(p) => p < r.len() && r@[p as int]@ == x@,
            None => forall|k: int| 0 <= k < r.len() ==> r@[k]@ != x@,
        },
{
    let mut j: usize = 0;
    while j < r.len()
        invariant
            j <= r.len(),
            forall|k: int| 0 <= k < j ==> r@[k]@ != x@,
        decreases r.len() - j,
    {
        if same_i64(&r[j], x) {
            return Some(j);
        }
        j = j + 1;
    }
    None
}

fn distinct_cols(ub: &Vec<Vec<i64>>) -> (r: Vec<Vec<i64>>)
    ensures
        cols(r@) == distinct(cols(ub@)),
{
    let ghost us = cols(ub@);
    let mut r: Vec<Vec<i64>> = Vec::new();
    let mut i: usize = 0;
    while i < ub.len()
        invariant
            us == cols(ub@),
            i <= ub.len(),
            cols(r@) == distinct(us.take(i as int)),
        decreases ub.len() - i,
    {
        proof {
            lemma_distinct_push(us.take(i as int), us[i as int]);
            assert(us.take(i + 1) =~= us.take(i as int).push(us[i as int]));
        }
        let found = find_column(&r, &ub[i]);
        let seen = found.is_some();
        let j: usize = match found {
            Some(p) => p,
            None => 0,
        };
        let ghost before = cols(r@);
        if !seen {
            assert(!before.contains(us[i as int])) by {
                if before.contains(us[i as int]) {
                    let k = choose|k: int| 0 <= k < before.len() && before[k] == us[i as int];
                    assert(r@[k]@ == before[k]);
                }
            }
            r.push(copy_i64(&ub[i]));
            assert(cols(r@) =~= before.push(us[i as int]));
        } else {
            assert(before[j as int] == r@[j as int]@);
            assert(before.contains(us[i as int]));
        }
        i = i + 1;
    }
    assert(us.take(ub.len() as int) =~= us);
    r
}

fn count_col(v: &Vec<Vec<i64>>, x: &Vec<i64>, upto: usize) -> (r: usize)
    requires
        upto <= v.len(),
    ensures
        r == count_of(cols(v@).take(upto as int), x@),
{
    let ghost vs = cols(v@);
    let mut c: usize = 0;
    let mut i: usize = 0;
    while i < upto
        invariant
            vs == cols(v@),
            upto <= v.len(),
            i <= upto,
            c == count_of(vs.take(i as int), x@),
            c <= i,
        decreases upto - i,
    {
        proof {
            crate::seqs::lemma_count_of_take(vs, i as int, x@);
        }
        if same_i64(&v[i], x) {
            c = c + 1;
        }
        i = i + 1;
    }
    c
}

proof fn lemma_count_mono<T>(s: Seq<T>, a: int, b: int, x: T)
    requires
        0 <= a <= b <= s.len(),
    ensures
        count_of(s.take(a), x) <= count_of(s.take(b), x),
    decreases b - a,
{
    if a < b {
        lemma_count_mono(s, a, b - 1, x);
        crate::seqs::lemma_count_of_take(s, b - 1, x);
    }
}

/// The distinct boards, then the extra copies each needs (`copies_added`).
fn boards_with_copies(ubv: &Vec<Vec<i64>>, height: usize) -> (out: Vec<Vec<i64>>)
    requires
        height >= 1,
        forall|k: int| 0 <= k < ubv@.len() ==> #[trigger] ubv@[k]@.len() >= height - 1,
    ensures
        cols(out@) == cols(ubv@) + copies_added(cols(ubv@), height as int, ubv@.len()),
{
    let ghost us = cols(ubv@);
    let mut out: Vec<Vec<i64>> = Vec::new();
    let mut i: usize = 0;
    while i < ubv.len()
        invariant
            us == cols(ubv@),
            i <= ubv.len(),
            out@.len() == i,
            forall|k: int| 0 <= k < i ==> (#[trigger] out@[k])@ == us[k],
        decreases ubv.len() - i,
    {
        out.push(copy_i64(&ubv[i]));
        i = i + 1;
    }
    assert(cols(out@) =~= us + copies_added(us, height as int, 0));
    let ds = distinct_cols(ubv);
    let ghost dsv = cols(ds@);
    proof {
        lemma_distinct_props(us);
    }
    let mut i: usize = 0;
    while i < ubv.len()
        invariant
            us == cols(ubv@),
            dsv == cols(ds@),
            dsv == distinct(us),
            forall|x: Seq<i64>| us.contains(x) <==> #[trigger] dsv.contains(x),
            height >= 1,
            forall|k: int| 0 <= k < ubv@.len() ==> #[trigger] ubv@[k]@.len() >= height - 1,
            i <= ubv.len(),
            cols(out@) == us + copies_added(us, height as int, i as nat),
        decreases ubv.len() - i,
    {
        let t = &ubv[i];
        assert(t@ == us[i as int]);
        let first = count_col(ubv, t, i) == 0;
        proof {
            if us.take(i as int).contains(us[i as int]) {
                let k = choose|k: int| 0 <= k < i && us.take(i as int)[k] == us[i as int];
                crate::seqs::lemma_count_of_take(us, k, us[i as int]);
                lemma_count_mono(us, k + 1, i as int, us[i as int]);
            } else {
                lemma_count_of_zero(us.take(i as int), us[i as int]);
            }
        }
        let mut nf: usize = 0;
        let mut np: usize = 0;
        let mut j: usize = 0;
        while j < ds.len()
            invariant
                dsv == cols(ds@),
                dsv == distinct(us),
                forall|x: Seq<i64>| us.contains(x) <==> #[trigger] dsv.contains(x),
                forall|k: int| 0 <= k < ubv@.len() ==> #[trigger] ubv@[k]@.len() >= height - 1,
                us == cols(ubv@),
                height >= 1,
                t@ == us[i as int],
                0 <= i < us.len(),
                j <= ds.len(),
                nf == n_follow(dsv, t@, height as int, j as nat),
                np == n_precede(dsv, t@, height as int, j as nat),
                nf <= j,
                np <= j,
            decreases ds.len() - j,
        {
            assert(dsv.contains(dsv[j as int]));
            let ghost kk = choose|kk: int| 0 <= kk < us.len() && us[kk] == dsv[j as int];
            assert(ubv@[kk]@ == us[kk]);
            assert(ds@[j as int]@ == dsv[j as int]);
            assert(t@.len() >= height - 1) by {
                assert(ubv@[i as int]@ == us[i as int]);
            }
            assert(ds@[j as int]@.len() >= height - 1) by {
                assert(ubv@[kk]@.len() >= height - 1);
            }
            if may_follow_exec(&ds[j], t, height) {
                nf = nf + 1;
            }
            if may_precede_exec(&ds[j], t, height) {
                np = np + 1;
            }
            j = j + 1;
        }
        let need = if nf >= np { nf } else { np };
        let have = count_col(ubv, t, ubv.len());
        assert(cols(ubv@).take(ubv.len() as int) =~= us);
        let ghost before = cols(out@);
        let extra: usize = if !first || need <= have { 0 } else { need - have };
        assert(extra == more_copies(us, height as int, i as int));
        let mut c: usize = 0;
        while c < extra
            invariant
                c <= extra,
                t@ == us[i as int],
                cols(out@) == before + Seq::new(c as nat, |k: int| us[i as int]),
            decreases extra - c,
        {
            let ghost pre = cols(out@);
            out.push(copy_i64(t));
            assert(cols(out@) =~= pre.push(us[i as int]));
            assert(cols(out@) =~= before + Seq::new((c + 1) as nat, |k: int| us[i as int]));
            c = c + 1;
        }
        assert(copies_added(us, height as int, (i + 1) as nat) =~= copies_added(
            us,
            height as int,
            i as nat,
        ) + Seq::new(extra as nat, |k: int| us[i as int]));
        assert(cols(out@) =~= us + copies_added(us, height as int, (i + 1) as nat));
        i = i + 1;
    }
    out
}

/// The counts of counted boards, as unsigned numbers.
pub open spec fn counts_u(s: Seq<Board>) -> Seq<u64> {
    Seq::new(s.len(), |j: int| s[j].count as u64)
}

/// The level over the first `n` of the ascending counts `s`: it starts at the smallest
/// count; a count that is, rounded, once the level moves the level half-way to it.
pub open spec fn level_walk(s: Seq<u64>, n: nat) -> int
    decreases n,
{
    if n == 0 || n > s.len() {
        if s.len() > 0 {
            s[0] as int
        } else {
            0
        }
    } else {
        let prev = level_walk(s, (n - 1) as nat);
        let x = s[n - 1] as int;
        if round_div(x, prev) == 1 {
            round_div(prev + x, 2)
        } else {
            prev
        }
    }
}

/// The level of a list of counted boards, its counts taken in ascending order.
pub open spec fn level_of(ub: Seq<Board>) -> int {
    let s = sorted_counts(counts_u(ub));
    level_walk(s, s.len())
}

/// `n` rounded, at least one.
pub open spec fn at_least_one(n: int) -> int {
    if n == 0 {
        1
    } else {
        n
    }
}

/// Each of the first `n` boards, in order, `count / level` times (rounded, at least once).
pub open spec fn scaled_copies(ub: Seq<Board>, fa: int, n: nat) -> Seq<Seq<i64>>
    decreases n,
{
    if n == 0 || n > ub.len() {
        Seq::empty()
    } else {
        scaled_copies(ub, fa, (n - 1) as nat) + Seq::new(
            at_least_one(round_div(ub[n - 1].count as int, fa)) as nat,
            |k: int| ub[n - 1].board@,
        )
    }
}

/// The largest count the level walk accepts (a sum of two stays within `i64`).
pub open spec fn count_cap() -> int {
    0x3fff_ffff_ffff_ffff
}

proof fn lemma_half_bound(a: int, b: int, m: int)
    requires
        1 <= a <= m,
        1 <= b <= m,
    ensures
        1 <= round_div(a + b, 2) <= m,
{
    assert(1 <= (2 * (a + b) + 2) / 4 <= m) by (nonlinear_arith)
        requires
            1 <= a <= m,
            1 <= b <= m,
    ;
}

/// Decides the boards a reel strip should hold. With 10000 observed boards or more, the
/// level of the distinct boards' counts (`level_of`) becomes their frequency average and
/// each board is repeated its count divided by the level, rounded, at least once. With 1
/// to 9999, every distinct board is held once, followed by the extra copies each needs
/// (`copies_added`). With none, the distinct boards are held once.
pub fn multiply_unique_boards_by_frequency(
    a_boards_filtered: Vec<Vec<i64>>,
    boards_unique: &mut UniqueBoardsInstanse,
    height: usize,
) -> (r: Vec<Vec<i64>>)
    requires
        a_boards_filtered.len() >= 10000 ==> old(boards_unique).instanses@.len() > 0 && forall|
            k: int,
        |
            0 <= k < old(boards_unique).instanses@.len() ==> 1 <= #[trigger] old(
                boards_unique,
            ).instanses@[k].count <= count_cap(),
        1 <= a_boards_filtered.len() < 10000 ==> height >= 1 && forall|k: int|
            0 <= k < old(boards_unique).instanses@.len() ==> #[trigger] old(
                boards_unique,
            ).instanses@[k].board@.len() >= height - 1,
    ensures
        final(boards_unique).count == old(boards_unique).count,
        final(boards_unique).instanses == old(boards_unique).instanses,
        a_boards_filtered.len() >= 10000 ==> final(boards_unique).frequency_average == level_of(
            old(boards_unique).instanses@,
        ) && cols(r@) == scaled_copies(
            old(boards_unique).instanses@,
            level_of(old(boards_unique).instanses@),
            old(boards_unique).instanses@.len(),
        ),
        a_boards_filtered.len() < 10000 ==> final(boards_unique).frequency_average == old(
            boards_unique,
        ).frequency_average,
        1 <= a_boards_filtered.len() < 10000 ==> cols(r@) == board_cols(old(boards_unique).instanses@)
            + copies_added(
            board_cols(old(boards_unique).instanses@),
            height as int,
            old(boards_unique).instanses@.len(),
        ),
        a_boards_filtered.len() == 0 ==> cols(r@) == board_cols(old(boards_unique).instanses@),
{
    let ghost ub = boards_unique.instanses@;
    let f = a_boards_filtered.len();
    if f >= 10000 {
        let mut counts: Vec<u64> = Vec::new();
        let mut j: usize = 0;
        while j < boards_unique.instanses.len()
            invariant
                ub == boards_unique.instanses@,
                j <= ub.len(),
                counts@ == counts_u(ub).take(j as int),
            decreases ub.len() - j,
        {
            counts.push(boards_unique.instanses[j].count as u64);
            assert(counts@ =~= counts_u(ub).take(j + 1));
            j = j + 1;
        }
        assert(counts@ =~= counts_u(ub));
        let sorted = sort_asc(&counts);
        let ghost cs = counts_u(ub);
        let ghost s = sorted@;
        proof {
            let t = sorted_counts(cs);
            assert(sorted_asc(s) && is_perm(s, cs));
            assert(sorted_asc(t) && is_perm(t, cs));
            crate::netg::jocker_twenty::actions::law_frequency_average_order_free(cs, cs, s, t);
            assert forall|k: int| 0 <= k < s.len() implies 1 <= #[trigger] s[k] <= count_cap() by {
                lemma_count_pos_u64(s, k);
                assert(count_of(cs, s[k]) >= 1);
                if !cs.contains(s[k]) {
                    crate::seqs::lemma_count_of_zero(cs, s[k]);
                }
                let q = choose|q: int| 0 <= q < cs.len() && cs[q] == s[k];
                assert(ub[q].count as u64 == s[k]);
                assert(1 <= ub[q].count <= count_cap());
            }
        }
        let mut fa: u64 = sorted[0];
        let mut k: usize = 0;
        while k < sorted.len()
            invariant
                s == sorted@,
                s.len() > 0,
                k <= s.len(),
                forall|q: int| 0 <= q < s.len() ==> 1 <= #[trigger] s[q] <= count_cap(),
                fa == level_walk(s, k as nat),
                1 <= fa <= count_cap(),
            decreases s.len() - k,
        {
            let x = sorted[k];
            assert(1 <= s[k as int] <= count_cap());
            if crate::ratio::round_div_u64(x, fa) == 1 {
                proof {
                    lemma_half_bound(fa as int, x as int, count_cap());
                }
                fa = crate::ratio::round_div_u64(fa + x, 2);
            }
            k = k + 1;
        }
        assert(fa == level_of(ub));
        boards_unique.frequency_average = fa as i64;
        let mut out: Vec<Vec<i64>> = Vec::new();
        let mut i: usize = 0;
        while i < boards_unique.instanses.len()
            invariant
                ub == boards_unique.instanses@,
                i <= ub.len(),
                fa >= 1,
                forall|q: int| 0 <= q < ub.len() ==> 1 <= #[trigger] ub[q].count <= count_cap(),
                cols(out@) == scaled_copies(ub, fa as int, i as nat),
            decreases ub.len() - i,
        {
            assert(1 <= ub[i as int].count);
            let mut c = crate::ratio::round_div_u64(boards_unique.instanses[i].count as u64, fa);
            if c == 0 {
                c = 1;
            }
            let ghost before = cols(out@);
            let mut n: u64 = 0;
            while n < c
                invariant
                    n <= c,
                    ub == boards_unique.instanses@,
                    i < ub.len(),
                    cols(out@) == before + Seq::new(n as nat, |q: int| ub[i as int].board@),
                decreases c - n,
            {
                let ghost pre = cols(out@);
                out.push(copy_i64(&boards_unique.instanses[i].board));
                assert(cols(out@) =~= pre.push(ub[i as int].board@));
                assert(cols(out@) =~= before + Seq::new((n + 1) as nat, |q: int| ub[i as int].board@));
                n = n + 1;
            }
            assert(scaled_copies(ub, fa as int, (i + 1) as nat) =~= scaled_copies(ub, fa as int, i as nat)
                + Seq::new(c as nat, |q: int| ub[i as int].board@));
            i = i + 1;
        }
        return out;
    }
    let mut ubv: Vec<Vec<i64>> = Vec::new();
    let mut i: usize = 0;
    while i < boards_unique.instanses.len()
        invariant
            ub == boards_unique.instanses@,
            i <= ub.len(),
            ubv@.len() == i,
            forall|q: int| 0 <= q < i ==> (#[trigger] ubv@[q])@ == ub[q].board@,
        decreases ub.len() - i,
    {
        ubv.push(copy_i64(&boards_unique.instanses[i].board));
        i = i + 1;
    }
    assert(cols(ubv@) =~= board_cols(ub));
    if f == 0 {
        return ubv;
    }
    assert forall|q: int| 0 <= q < ubv@.len() implies #[trigger] ubv@[q]@.len() >= height - 1 by {
        assert(ub[q].board@.len() >= height - 1);
    }
    boards_with_copies(&ubv, height)
}

proof fn lemma_count_pos_u64(s: Seq<u64>, k: int)
    requires
        0 <= k < s.len(),
    ensures
        count_of(s, s[k]) >= 1,
    decreases s.len(),
{
    if k < s.len() - 1 {
        lemma_count_pos_u64(s.drop_last(), k);
    }
}

/// Deleting the boards with given symbols twice deletes nothing more: no board that is
/// left shows one of them.
pub proof fn law_delete_boards_idempotent(bs: Seq<Seq<i64>>, symbols: Seq<i64>)
    ensures
        clear_of(clear_of(bs, symbols), symbols) == clear_of(bs, symbols),
        forall|i: int| 0 <= i < clear_of(bs, symbols).len() ==> !shows_any_of(#[trigger] clear_of(bs, symbols)[i], symbols),
    decreases bs.len(),
{
    if bs.len() > 0 {
        law_delete_boards_idempotent(bs.drop_last(), symbols);
        let w = clear_of(bs.drop_last(), symbols);
        if !shows_any_of(bs.last(), symbols) {
            assert(w.push(bs.last()).drop_last() =~= w);
            assert(w.push(bs.last()).last() == bs.last());
            assert forall|i: int| 0 <= i < w.push(bs.last()).len() implies !shows_any_of(#[trigger] w.push(bs.last())[i], symbols) by {
                if i < w.len() {
                    assert(w.push(bs.last())[i] == w[i]);
                }
            }
        }
    }
}

/// The sum of the counts of counted boards.
pub open spec fn count_total(s: Seq<Board>) -> int
    decreases s.len(),
{
    if s.len() == 0 {
        0
    } else {
        count_total(s.drop_last()) + s.last().count
    }
}

proof fn lemma_count_total_columns(s: Seq<Board>, bs: Seq<Seq<i64>>)
    requires
        forall|i: int| 0 <= i < s.len() ==> #[trigger] s[i].count == count_of(bs, s[i].board@),
    ensures
        count_total(s) == counts_sum(board_cols(s), bs),
    decreases s.len(),
{
    if s.len() > 0 {
        assert(board_cols(s.drop_last()) =~= board_cols(s).drop_last());
        assert forall|i: int| 0 <= i < s.drop_last().len() implies #[trigger] s.drop_last()[i].count == count_of(bs, s.drop_last()[i].board@) by {
            assert(s.drop_last()[i] == s[i]);
        }
        lemma_count_total_columns(s.drop_last(), bs);
        assert(s[s.len() - 1].count == count_of(bs, s[s.len() - 1].board@));
    }
}

/// The counts of the grouped boards add up to the number of boards grouped, which is
/// also the group's total.
pub proof fn law_unique_counts_add_up(r: UniqueBoardsInstanse, bs: Seq<Seq<i64>>)
    requires
        grouping_of(r, bs),
    ensures
        count_total(r.instanses@) == bs.len(),
        r.count == count_total(r.instanses@),
{
    lemma_count_total_columns(r.instanses@, bs);
    lemma_distinct_counts_sum(bs);
}

proof fn lemma_round_div_nonneg(a: int, b: int)
    requires
        a >= 0,
        b >= 1,
    ensures
        round_div(a, b) >= 0,
{
    assert((2 * a + b) / (2 * b) >= 0) by (nonlinear_arith)
        requires
            a >= 0,
            b >= 1,
    ;
}

/// Scaling the boards by a level keeps every board: each is held at least once, and
/// the boards come in their order.
pub proof fn law_scaling_keeps_every_board(ub: Seq<Board>, fa: int, n: nat)
    requires
        fa >= 1,
        n <= ub.len(),
        forall|i: int| 0 <= i < ub.len() ==> #[trigger] ub[i].count >= 0,
    ensures
        forall|i: int| 0 <= i < n ==> scaled_copies(ub, fa, n).contains(#[trigger] ub[i].board@),
        scaled_copies(ub, fa, n).len() >= n,
    decreases n,
{
    if n > 0 {
        law_scaling_keeps_every_board(ub, fa, (n - 1) as nat);
        let prev = scaled_copies(ub, fa, (n - 1) as nat);
        lemma_round_div_nonneg(ub[n - 1].count as int, fa);
        let k = at_least_one(round_div(ub[n - 1].count as int, fa));
        let piece = Seq::new(k as nat, |j: int| ub[n - 1].board@);
        assert(k >= 1);
        assert(scaled_copies(ub, fa, n) == prev + piece);
        assert forall|i: int| 0 <= i < n implies (prev + piece).contains(#[trigger] ub[i].board@) by {
            if i < n - 1 {
                let j = choose|j: int| 0 <= j < prev.len() && prev[j] == ub[i].board@;
                assert((prev + piece)[j] == ub[i].board@);
            } else {
                assert((prev + piece)[prev.len() as int] == ub[i].board@);
            }
        }
    }
}


proof fn lemma_copies_added_count(ub: Seq<Seq<i64>>, height: int, t: Seq<i64>, i0: int, n: nat)
    requires
        0 <= i0 < ub.len(),
        ub[i0] == t,
        !ub.take(i0).contains(t),
        n <= ub.len(),
    ensures
        count_of(copies_added(ub, height, n), t) == if i0 < n {
            more_copies(ub, height, i0)
        } else {
            0
        },
    decreases n,
{
    if n > 0 {
        lemma_copies_added_count(ub, height, t, i0, (n - 1) as nat);
        let e = more_copies(ub, height, n - 1);
        crate::seqs::lemma_count_of_concat(
            copies_added(ub, height, (n - 1) as nat),
            Seq::new(e as nat, |k: int| ub[n - 1]),
            t,
        );
        crate::seqs::lemma_count_of_copies(e as nat, ub[n - 1], t);
        if ub[n - 1] == t && n - 1 != i0 {
            if n - 1 < i0 {
                assert(ub.take(i0)[n - 1] == t);
            } else {
                assert(ub.take(n - 1)[i0] == t);
            }
        }
    } else {
        assert(copies_added(ub, height, 0) =~= Seq::<Seq<i64>>::empty());
    }
}

/// With copies added, every board is held at least as many times as there are distinct
/// boards that may follow it on a strip, at least as many times as there are distinct
/// boards that may precede it, and no fewer times than it was held; and exactly the
/// largest of these three numbers.
pub proof fn law_copies_cover_neighbours(ub: Seq<Seq<i64>>, height: int, t: Seq<i64>)
    requires
        ub.contains(t),
    ensures
        ({
            let ds = distinct(ub);
            let f = n_follow(ds, t, height, ds.len());
            let p = n_precede(ds, t, height, ds.len());
            let c = count_of(ub, t);
            let held = count_of(ub + copies_added(ub, height, ub.len()), t);
            &&& held >= f
            &&& held >= p
            &&& held >= c
            &&& (held == f || held == p || held == c)
        }),
{
    let i0 = crate::seqs::lemma_first_occurrence(ub, t);
    lemma_copies_added_count(ub, height, t, i0, ub.len());
    crate::seqs::lemma_count_of_concat(ub, copies_added(ub, height, ub.len()), t);
}


/// A board may follow another on a strip only when it is the other shifted up by one: its
/// first `height - 1` symbols are the other's last ones; and may precede it only the other
/// way round. A board neither follows nor precedes itself.
pub proof fn law_neighbours_shift_by_one(b: Seq<i64>, t: Seq<i64>, height: int)
    requires
        height >= 1,
        b.len() == height,
        t.len() == height,
    ensures
        may_follow(b, t, height) ==> b != t && forall|i: int| 0 <= i < height - 1 ==> #[trigger] b[i] == t[i + 1],
        may_precede(b, t, height) ==> b != t && forall|i: int| 0 <= i < height - 1 ==> b[i + 1] == #[trigger] t[i],
{
    if may_follow(b, t, height) {
        assert forall|i: int| 0 <= i < height - 1 implies #[trigger] b[i] == t[i + 1] by {
            assert(b.subrange(0, height - 1)[i] == t.subrange(1, t.len() as int)[i]);
        }
    }
    if may_precede(b, t, height) {
        assert forall|i: int| 0 <= i < height - 1 implies b[i + 1] == #[trigger] t[i] by {
            assert(b.subrange(1, b.len() as int)[i] == t.subrange(0, height - 1)[i]);
        }
    }
}

} // verus!


