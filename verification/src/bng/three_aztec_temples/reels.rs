use vstd::prelude::*;

use crate::bng::three_aztec_temples::boards::{cols, copy_i64, same_i64};
use crate::seqs::{count_of, lemma_count_of_insert, lemma_count_of_push};
use crate::bng::three_aztec_temples::models::ReelInstanse;
use crate::clock::{
    clock_now, span_longer, time_since, whole_seconds,
};

verus! {

/// The value of a reel candidate: (strip, boards still to place, verdict).
pub type CandV = (Seq<i64>, Seq<Seq<i64>>, bool);

/// The symbol that marks a strip position as covered by a board.
pub const COVERED: i64 = -1;

/// The symbol that ends a strip which could not be extended.
pub const STUCK: i64 = -2;

pub open spec fn cand_v(r: ReelInstanse) -> CandV {
    (r.reel@, cols(r.remaining@), r.correct)
}

pub open spec fn cands_v(s: Seq<ReelInstanse>) -> Seq<CandV> {
    Seq::new(s.len(), |i: int| cand_v(s[i]))
}

/// A copy of a list of columns.
pub fn copy_cols(v: &Vec<Vec<i64>>) -> (r: Vec<Vec<i64>>)
    ensures
        cols(r@) == cols(v@),
{
    let mut r: Vec<Vec<i64>> = Vec::new();
    let mut i: usize = 0;
    while i < v.len()
        invariant
            i <= v.len(),
            r.len() == i,
            forall|j: int| 0 <= j < i ==> (#[trigger] r@[j])@ == v@[j]@,
        decreases v.len() - i,
    {
        r.push(copy_i64(&v[i]));
        i = i + 1;
    }
    assert(cols(r@) =~= cols(v@));
    r
}

/// A copy of a candidate.
pub fn copy_cand(r: &ReelInstanse) -> (c: ReelInstanse)
    ensures
        cand_v(c) == cand_v(*r),
{
    ReelInstanse { reel: copy_i64(&r.reel), remaining: copy_cols(&r.remaining), correct: r.correct }
}

fn same_cols(a: &Vec<Vec<i64>>, b: &Vec<Vec<i64>>) -> (r: bool)
    ensures
        r == (cols(a@) == cols(b@)),
{
    if a.len() != b.len() {
        assert(cols(a@).len() != cols(b@).len());
        return false;
    }
    let mut i: usize = 0;
    while i < a.len()
        invariant
            a.len() == b.len(),
            i <= a.len(),
            forall|k: int| 0 <= k < i ==> (#[trigger] a@[k])@ == b@[k]@,
        decreases a.len() - i,
    {
        if !same_i64(&a[i], &b[i]) {
            assert(cols(a@)[i as int] != cols(b@)[i as int]);
            return false;
        }
        i = i + 1;
    }
    assert(cols(a@) =~= cols(b@));
    true
}

fn same_cand(a: &ReelInstanse, b: &ReelInstanse) -> (r: bool)
    ensures
        r == (cand_v(*a) == cand_v(*b)),
{
    same_i64(&a.reel, &b.reel) && same_cols(&a.remaining, &b.remaining) && a.correct == b.correct
}

fn window_eq(a: &Vec<i64>, a_from: usize, b: &Vec<i64>, b_from: usize, len: usize) -> (r: bool)
    requires
        a_from + len <= a.len(),
        b_from + len <= b.len(),
    ensures
        r == (a@.subrange(a_from as int, a_from + len) == b@.subrange(b_from as int, b_from + len)),
{
    let ghost sa = a@.subrange(a_from as int, a_from + len);
    let ghost sb = b@.subrange(b_from as int, b_from + len);
    let mut i: usize = 0;
    while i < len
        invariant
            a_from + len <= a.len(),
            b_from + len <= b.len(),
            sa == a@.subrange(a_from as int, a_from + len),
            sb == b@.subrange(b_from as int, b_from + len),
            i <= len,
            forall|j: int| 0 <= j < i ==> sa[j] == sb[j],
        decreases len - i,
    {
        if a[a_from + i] != b[b_from + i] {
            assert(sa[i as int] != sb[i as int]);
            return false;
        }
        i = i + 1;
    }
    assert(sa =~= sb);
    true
}

/// Whether every element of `s[from..to]` equals `x`.
pub open spec fn all_of(s: Seq<i64>, from: int, to: int, x: i64) -> bool {
    forall|j: int| from <= j < to ==> #[trigger] s[j] == x
}

fn all_of_exec(s: &Vec<i64>, from: usize, to: usize, x: i64) -> (r: bool)
    requires
        from <= to <= s.len(),
    ensures
        r == all_of(s@, from as int, to as int, x),
{
    let mut i = from;
    while i < to
        invariant
            from <= i <= to <= s.len(),
            forall|j: int| from <= j < i ==> s@[j] == x,
        decreases to - i,
    {
        if s[i] != x {
            return false;
        }
        i = i + 1;
    }
    true
}

// ---------------------------------------------------------------------------------
// Checking candidates.

/// The first position `p >= from` where `board` lies on `reel` and `work` does not
/// yet hold the covered mark.
pub open spec fn mark_pos(reel: Seq<i64>, work: Seq<i64>, board: Seq<i64>, from: int) -> Option<int>
    decreases reel.len() - from,
{
    if from < 0 || from >= reel.len() || from + board.len() > reel.len() {
        None
    } else if reel.subrange(from, from + board.len()) == board && work[from] != COVERED {
        Some(from)
    } else {
        mark_pos(reel, work, board, from + 1)
    }
}

/// Places the first `n` boards on the strip one after the other, each at its first
/// free position: the marked strip, and whether every one of them found a place.
pub open spec fn mark_all(reel: Seq<i64>, boards: Seq<Seq<i64>>, n: nat) -> (Seq<i64>, bool)
    decreases n,
{
    if n == 0 || n > boards.len() {
        (reel, true)
    } else {
        let prev = mark_all(reel, boards, (n - 1) as nat);
        match mark_pos(reel, prev.0, boards[n - 1], 0) {
            Some(p) => (prev.0.update(p, COVERED), prev.1),
            None => (prev.0, false),
        }
    }
}

/// A strip longer than `height` is right when every board finds a place on it and
/// every position but the first and the last `height` ones is covered.
pub open spec fn strip_is_right(reel: Seq<i64>, boards: Seq<Seq<i64>>, height: int) -> bool {
    let m = mark_all(reel, boards, boards.len());
    m.1 && forall|j: int| 1 <= j < reel.len() - height ==> m.0[j] == COVERED
}

/// The longest strip from position `p` on.
pub open spec fn max_len_from(rs: Seq<CandV>, p: int) -> int
    decreases rs.len() - p,
{
    if p < 0 || p >= rs.len() {
        0
    } else {
        let rest = max_len_from(rs, p + 1);
        if rs[p].0.len() >= rest {
            rs[p].0.len() as int
        } else {
            rest
        }
    }
}

/// A candidate after checking: short strips are right as they are; a right strip
/// loses a final stuck mark; a wrong one is marked wrong.
pub open spec fn checked_cand(r: CandV, boards: Seq<Seq<i64>>, height: int) -> CandV {
    if r.0.len() <= height {
        (r.0, r.1, true)
    } else if strip_is_right(r.0, boards, height) {
        (if r.0.last() == STUCK {
            r.0.drop_last()
        } else {
            r.0
        }, r.1, true)
    } else {
        (r.0, r.1, false)
    }
}

/// A candidate stays unless its strip is wrong and shorter than a strip at or after it.
pub open spec fn cand_stays(rs: Seq<CandV>, i: int, boards: Seq<Seq<i64>>, height: int) -> bool {
    rs[i].0.len() <= height || strip_is_right(rs[i].0, boards, height) || rs[i].0.len()
        >= max_len_from(rs, i)
}

/// The checked candidates among the first `n`, in order.
pub open spec fn checked_cands(rs: Seq<CandV>, boards: Seq<Seq<i64>>, height: int, n: nat) -> Seq<CandV>
    decreases n,
{
    if n == 0 || n > rs.len() {
        Seq::empty()
    } else {
        let prev = checked_cands(rs, boards, height, (n - 1) as nat);
        if cand_stays(rs, n - 1, boards, height) {
            prev.push(checked_cand(rs[n - 1], boards, height))
        } else {
            prev
        }
    }
}

/// Whether every board is searched for without fault on every candidate longer than
/// `height`: it holds a symbol and is no longer than the strip.
pub open spec fn boards_fit(rs: Seq<CandV>, boards: Seq<Seq<i64>>, height: int) -> bool {
    forall|i: int, b: int|
        0 <= i < rs.len() && 0 <= b < boards.len() && rs[i].0.len() > height ==> 1
            <= (#[trigger] boards[b]).len() <= (#[trigger] rs[i]).0.len()
}

proof fn lemma_mark_pos(reel: Seq<i64>, work: Seq<i64>, board: Seq<i64>, from: int)
    ensures
        mark_pos(reel, work, board, from) matches Some(p) ==> from <= p < reel.len() && p
            + board.len() <= reel.len(),
    decreases reel.len() - from,
{
    if !(from < 0 || from >= reel.len() || from + board.len() > reel.len()) {
        lemma_mark_pos(reel, work, board, from + 1);
    }
}

fn find_mark(reel: &Vec<i64>, work: &Vec<i64>, board: &Vec<i64>) -> (r: Option<usize>)
    requires
        work.len() == reel.len(),
    ensures
        match r {
            Some(p) => mark_pos(reel@, work@, board@, 0) == Some(p as int) && p < reel.len(),
            None => mark_pos(reel@, work@, board@, 0) is None,
        },
{
    proof {
        lemma_mark_pos(reel@, work@, board@, 0);
    }
    let mut p: usize = 0;
    while p < reel.len() && board.len() <= reel.len() - p
        invariant
            work.len() == reel.len(),
            mark_pos(reel@, work@, board@, 0) == mark_pos(reel@, work@, board@, p as int),
        decreases reel.len() - p,
    {
        if window_eq(reel, p, board, 0, board.len()) && work[p] != COVERED {
            assert(board@.subrange(0, board.len() as int) =~= board@);
            return Some(p);
        }
        assert(board@.subrange(0, board.len() as int) =~= board@);
        p = p + 1;
    }
    None
}

fn strip_verdict(reel: &Vec<i64>, boards: &Vec<Vec<i64>>, height: usize) -> (r: bool)
    requires
        reel.len() > height,
    ensures
        r == strip_is_right(reel@, cols(boards@), height as int),
{
    let ghost bs = cols(boards@);
    let mut work = copy_i64(reel);
    let mut ok = true;
    let mut i: usize = 0;
    while i < boards.len()
        invariant
            bs == cols(boards@),
            i <= boards.len(),
            (work@, ok) == mark_all(reel@, bs, i as nat),
            work.len() == reel.len(),
        decreases boards.len() - i,
    {
        assert(bs[i as int] == boards@[i as int]@);
        match find_mark(reel, &work, &boards[i]) {
            Some(p) => {
                work.set(p, COVERED);
            },
            None => {
                ok = false;
            },
        }
        i = i + 1;
    }
    assert(bs.len() == boards.len());
    let all = all_of_exec(&work, 1, reel.len() - height, COVERED);
    let ghost m = mark_all(reel@, bs, bs.len());
    assert(m.0 == work@);
    assert(m.1 == ok);
    assert(strip_is_right(reel@, bs, height as int) == (ok && all));
    ok && all
}

/// Checks every candidate against the boards: a candidate whose strip is at most
/// `height` long, or on which every board finds its own place covering all inner
/// positions, is right (losing a final stuck mark); any other is wrong, and is dropped
/// when a candidate at or after it has a longer strip.
pub fn _check_reels(reels: &mut Vec<ReelInstanse>, boards: &Vec<Vec<i64>>, height: usize)
    requires
        boards_fit(cands_v(old(reels)@), cols(boards@), height as int),
    ensures
        cands_v(final(reels)@) == checked_cands(
            cands_v(old(reels)@),
            cols(boards@),
            height as int,
            old(reels)@.len(),
        ),
{
    let ghost rs = cands_v(reels@);
    let ghost bs = cols(boards@);
    let n = reels.len();
    let mut maxes: Vec<usize> = Vec::new();
    let mut k: usize = n;
    let mut running: usize = 0;
    while k > 0
        invariant
            k <= n,
            n == reels.len(),
            rs == cands_v(reels@),
            maxes.len() == n - k,
            running == max_len_from(rs, k as int),
            forall|t: int|
                0 <= t < n - k ==> #[trigger] maxes@[t] == max_len_from(rs, n - 1 - t),
        decreases k,
    {
        k = k - 1;
        if reels[k].reel.len() >= running {
            running = reels[k].reel.len();
        }
        maxes.push(running);
    }
    let mut out: Vec<ReelInstanse> = Vec::new();
    let mut i: usize = 0;
    while i < n
        invariant
            i <= n,
            n == reels.len(),
            rs == cands_v(reels@),
            bs == cols(boards@),
            maxes.len() == n,
            forall|t: int| 0 <= t < n ==> #[trigger] maxes@[t] == max_len_from(rs, n - 1 - t),
            cands_v(out@) == checked_cands(rs, bs, height as int, i as nat),
        decreases n - i,
    {
        let r = &reels[i];
        let len = r.reel.len();
        let ghost prev = cands_v(out@);
        if len <= height {
            out.push(ReelInstanse { reel: copy_i64(&r.reel), remaining: copy_cols(&r.remaining), correct: true });
        } else if strip_verdict(&r.reel, boards, height) {
            let mut strip = copy_i64(&r.reel);
            if strip[len - 1] == STUCK {
                strip.pop();
            }
            proof {
                if r.reel@.last() == STUCK {
                    assert(strip@ =~= r.reel@.drop_last());
                }
            }
            out.push(ReelInstanse { reel: strip, remaining: copy_cols(&r.remaining), correct: true });
        } else if len >= maxes[n - 1 - i] {
            out.push(ReelInstanse { reel: copy_i64(&r.reel), remaining: copy_cols(&r.remaining), correct: false });
        }
        assert(cands_v(out@) =~= checked_cands(rs, bs, height as int, (i + 1) as nat)) by {
            assert(rs[i as int] == cand_v(reels@[i as int]));
            if cand_stays(rs, i as int, bs, height as int) {
                assert(cands_v(out@) =~= prev.push(checked_cand(rs[i as int], bs, height as int)));
            } else {
                assert(cands_v(out@) =~= prev);
            }
        }
        i = i + 1;
    }
    *reels = out;
}

// ---------------------------------------------------------------------------------
// Completing candidates.

/// Whether every symbol of a board is its first one.
pub open spec fn uniform(b: Seq<i64>) -> bool {
    forall|j: int| 0 <= j < b.len() ==> #[trigger] b[j] == b[0]
}

/// The boards among the first `n` that show one symbol throughout, each once, in the
/// order in which they first come.
pub open spec fn uniform_firsts(rem: Seq<Seq<i64>>, n: nat) -> Seq<Seq<i64>>
    decreases n,
{
    if n == 0 || n > rem.len() {
        Seq::empty()
    } else {
        let prev = uniform_firsts(rem, (n - 1) as nat);
        let b = rem[n - 1];
        if exists|j: int| 0 <= j < n - 1 && #[trigger] rem[j] == b {
            prev
        } else if uniform(b) {
            prev.push(b)
        } else {
            prev
        }
    }
}

/// The first position at or after `from` where `u` lies on the strip.
pub open spec fn window_at(reel: Seq<i64>, u: Seq<i64>, from: int) -> Option<int>
    decreases reel.len() - from,
{
    if from < 0 || from >= reel.len() || from + u.len() > reel.len() {
        None
    } else if reel.subrange(from, from + u.len()) == u {
        Some(from)
    } else {
        window_at(reel, u, from + 1)
    }
}

/// The boards without the first one equal to `u`.
pub open spec fn remove_board(rem: Seq<Seq<i64>>, u: Seq<i64>, n: nat) -> Seq<Seq<i64>>
    decreases n,
{
    if n == 0 || n > rem.len() {
        rem
    } else if exists|j: int| 0 <= j < n - 1 && #[trigger] rem[j] == u {
        remove_board(rem, u, (n - 1) as nat)
    } else if rem[n - 1] == u {
        rem.remove(n - 1)
    } else {
        rem
    }
}

/// How many of the first `n` boards equal `u`.
pub open spec fn count_board(rem: Seq<Seq<i64>>, u: Seq<i64>, n: nat) -> nat
    decreases n,
{
    if n == 0 || n > rem.len() {
        0
    } else {
        count_board(rem, u, (n - 1) as nat) + if rem[n - 1] == u {
            1nat
        } else {
            0nat
        }
    }
}

/// The strip with one more copy of `u`'s symbol at position `i`, the boards without
/// one copy of `u`, and where the next search starts.
pub open spec fn place(reel: Seq<i64>, rem: Seq<Seq<i64>>, u: Seq<i64>, i: int) -> (Seq<i64>, Seq<Seq<i64>>, int) {
    let r2 = reel.insert(i, u[0]);
    (r2, remove_board(rem, u, rem.len()), if i + 2 > r2.len() - u.len() {
        0
    } else {
        i + 2
    })
}

/// Places up to `k` copies of the uniform board `u` on the strip, each where `u`
/// next lies on it from `from`, or else from the start; it stops when `u` lies nowhere.
pub open spec fn fill(reel: Seq<i64>, rem: Seq<Seq<i64>>, u: Seq<i64>, from: int, k: nat) -> (Seq<i64>, Seq<Seq<i64>>)
    decreases k,
{
    if k == 0 {
        (reel, rem)
    } else {
        match window_at(reel, u, from) {
            Some(i) => {
                let p = place(reel, rem, u, i);
                fill(p.0, p.1, u, p.2, (k - 1) as nat)
            },
            None => match window_at(reel, u, 0) {
                Some(i) => {
                    let p = place(reel, rem, u, i);
                    fill(p.0, p.1, u, p.2, (k - 1) as nat)
                },
                None => (reel, rem),
            },
        }
    }
}

/// `fill` for the first `n` uniform boards, each as many times as it is left.
pub open spec fn complete_with(reel: Seq<i64>, rem: Seq<Seq<i64>>, us: Seq<Seq<i64>>, n: nat) -> (Seq<i64>, Seq<Seq<i64>>)
    decreases n,
{
    if n == 0 || n > us.len() {
        (reel, rem)
    } else {
        let prev = complete_with(reel, rem, us, (n - 1) as nat);
        let u = us[n - 1];
        fill(prev.0, prev.1, u, 0, count_board(prev.1, u, prev.1.len()))
    }
}

/// A candidate completed with its uniform boards, when `identical` holds.
pub open spec fn completed(r: CandV, identical: bool) -> CandV {
    if identical && r.1.len() > 0 {
        let us = uniform_firsts(r.1, r.1.len());
        let c = complete_with(r.0, r.1, us, us.len());
        (c.0, c.1, r.2)
    } else {
        r
    }
}

/// Whether every board of every candidate shows at least one symbol.
pub open spec fn boards_nonempty(rs: Seq<CandV>) -> bool {
    forall|i: int, p: int| 0 <= i < rs.len() && 0 <= p < rs[i].1.len() ==> (#[trigger] rs[i].1[p]).len() >= 1
}

fn uniform_exec(b: &Vec<i64>) -> (r: bool)
    ensures
        r == uniform(b@),
{
    if b.len() == 0 {
        return true;
    }
    let r = all_of_exec(b, 0, b.len(), b[0]);
    assert(r == uniform(b@)) by {
        if r {
            assert forall|j: int| 0 <= j < b@.len() implies #[trigger] b@[j] == b@[0] by {
                assert(all_of(b@, 0, b@.len() as int, b@[0]));
            }
        } else {
            assert(!all_of(b@, 0, b@.len() as int, b@[0]));
        }
    }
    r
}

fn board_seen_before(rem: &Vec<Vec<i64>>, n: usize) -> (r: bool)
    requires
        n < rem.len(),
    ensures
        r == exists|j: int| 0 <= j < n && #[trigger] cols(rem@)[j] == cols(rem@)[n as int],
{
    let mut j: usize = 0;
    while j < n
        invariant
            n < rem.len(),
            j <= n,
            forall|k: int| 0 <= k < j ==> #[trigger] cols(rem@)[k] != cols(rem@)[n as int],
        decreases n - j,
    {
        if same_i64(&rem[j], &rem[n]) {
            assert(cols(rem@)[j as int] == cols(rem@)[n as int]);
            return true;
        }
        j = j + 1;
    }
    false
}

fn uniform_firsts_exec(rem: &Vec<Vec<i64>>) -> (r: Vec<Vec<i64>>)
    ensures
        cols(r@) == uniform_firsts(cols(rem@), rem@.len()),
{
    let ghost bv = cols(rem@);
    let mut out: Vec<Vec<i64>> = Vec::new();
    let mut n: usize = 0;
    while n < rem.len()
        invariant
            bv == cols(rem@),
            bv.len() == rem@.len(),
            n <= rem.len(),
            cols(out@) == uniform_firsts(bv, n as nat),
        decreases rem.len() - n,
    {
        assert(bv[n as int] == rem@[n as int]@);
        let ghost before = cols(out@);
        if !board_seen_before(rem, n) && uniform_exec(&rem[n]) {
            out.push(copy_i64(&rem[n]));
            assert(cols(out@) =~= before.push(bv[n as int]));
        }
        n = n + 1;
    }
    out
}

fn find_window(reel: &Vec<i64>, u: &Vec<i64>, from: usize) -> (r: Option<usize>)
    ensures
        r matches Some(j) ==> window_at(reel@, u@, from as int) == Some(j as int) && j + u@.len() <= reel@.len(),
        r is None ==> window_at(reel@, u@, from as int) is None,
{
    let mut i = from;
    while i < reel.len() && u.len() <= reel.len() - i
        invariant
            from <= i,
            window_at(reel@, u@, from as int) == window_at(reel@, u@, i as int),
        decreases reel.len() - i,
    {
        if window_eq(reel, i, u, 0, u.len()) {
            assert(u@.subrange(0, u@.len() as int) =~= u@);
            return Some(i);
        }
        assert(u@.subrange(0, u@.len() as int) =~= u@);
        i = i + 1;
    }
    None
}

fn count_board_exec(rem: &Vec<Vec<i64>>, u: &Vec<i64>) -> (r: usize)
    ensures
        r == count_board(cols(rem@), u@, rem@.len()),
{
    let ghost bv = cols(rem@);
    let mut k: usize = 0;
    let mut i: usize = 0;
    while i < rem.len()
        invariant
            bv == cols(rem@),
            bv.len() == rem@.len(),
            i <= rem.len(),
            k <= i,
            k == count_board(bv, u@, i as nat),
        decreases rem.len() - i,
    {
        assert(bv[i as int] == rem@[i as int]@);
        if same_i64(&rem[i], u) {
            k = k + 1;
        }
        i = i + 1;
    }
    k
}

proof fn lemma_remove_board(rem: Seq<Seq<i64>>, u: Seq<i64>, p: int, n: nat)
    requires
        0 <= p < n <= rem.len(),
        rem[p] == u,
        forall|j: int| 0 <= j < p ==> #[trigger] rem[j] != u,
    ensures
        remove_board(rem, u, n) == rem.remove(p),
    decreases n,
{
    if n - 1 > p {
        assert(rem[p] == u);
        lemma_remove_board(rem, u, p, (n - 1) as nat);
    } else {
        assert forall|j: int| 0 <= j < n - 1 implies #[trigger] rem[j] != u by {}
    }
}

proof fn lemma_remove_board_none(rem: Seq<Seq<i64>>, u: Seq<i64>, n: nat)
    requires
        n <= rem.len(),
        forall|j: int| 0 <= j < n ==> #[trigger] rem[j] != u,
    ensures
        remove_board(rem, u, n) == rem,
    decreases n,
{
    if n > 0 {
        lemma_remove_board_none(rem, u, (n - 1) as nat);
    }
}

fn remove_board_exec(rem: &mut Vec<Vec<i64>>, u: &Vec<i64>)
    ensures
        cols(final(rem)@) == remove_board(cols(old(rem)@), u@, old(rem)@.len()),
{
    let ghost bv = cols(rem@);
    let mut i: usize = 0;
    while i < rem.len()
        invariant
            bv == cols(rem@),
            rem@ == old(rem)@,
            bv.len() == rem@.len(),
            i <= rem.len(),
            forall|j: int| 0 <= j < i ==> #[trigger] bv[j] != u@,
        decreases rem.len() - i,
    {
        assert(bv[i as int] == rem@[i as int]@);
        if same_i64(&rem[i], u) {
            proof {
                lemma_remove_board(bv, u@, i as int, bv.len());
            }
            rem.remove(i);
            assert(cols(rem@) =~= bv.remove(i as int));
            return;
        }
        i = i + 1;
    }
    proof {
        lemma_remove_board_none(bv, u@, bv.len());
    }
}

/// Places the copies of one uniform board on a strip (`fill`).
fn fill_exec(reel: &mut Vec<i64>, rem: &mut Vec<Vec<i64>>, u: &Vec<i64>, k: usize)
    requires
        u@.len() >= 1,
    ensures
        (final(reel)@, cols(final(rem)@)) == fill(old(reel)@, cols(old(rem)@), u@, 0, k as nat),
{
    let ghost target = fill(reel@, cols(rem@), u@, 0, k as nat);
    let mut search_start: usize = 0;
    let mut left = k;
    while left > 0
        invariant
            u@.len() >= 1,
            search_start <= reel@.len(),
            target == fill(old(reel)@, cols(old(rem)@), u@, 0, k as nat),
            target == fill(reel@, cols(rem@), u@, search_start as int, left as nat),
        decreases left,
    {
        let ghost ss0 = search_start as int;
        let ghost rv0 = reel@;
        let ghost bv0 = cols(rem@);
        let first_try = find_window(reel, u, search_start);
        let index: usize;
        if first_try.is_some() {
            index = first_try.unwrap();
            assert(window_at(rv0, u@, ss0) == Some(index as int));
        } else {
            let second = find_window(reel, u, 0);
            if second.is_none() {
                assert(window_at(rv0, u@, ss0) is None && window_at(rv0, u@, 0) is None);
                return;
            }
            index = second.unwrap();
            assert(window_at(rv0, u@, ss0) is None && window_at(rv0, u@, 0) == Some(index as int));
        }
        assert(index + u@.len() <= rv0.len());
        let ghost i0 = index as int;
        reel.insert(index, u[0]);
        assert(reel@.len() == rv0.len() + 1);
        remove_board_exec(rem, u);
        let len_now = reel.len();
        assert(index + 2 <= len_now);
        search_start = index + 2;
        if search_start > reel.len() - u.len() {
            search_start = 0;
        }
        assert((reel@, cols(rem@), search_start as int) == place(rv0, bv0, u@, i0));
        left = left - 1;
    }
}

proof fn lemma_uniform_firsts_from(rem: Seq<Seq<i64>>, n: nat)
    ensures
        forall|q: int| 0 <= q < uniform_firsts(rem, n).len() ==> exists|p: int| 0 <= p < rem.len() && #[trigger] uniform_firsts(rem, n)[q] == rem[p],
    decreases n,
{
    if n > 0 && n <= rem.len() {
        lemma_uniform_firsts_from(rem, (n - 1) as nat);
        let prev = uniform_firsts(rem, (n - 1) as nat);
        let cur = uniform_firsts(rem, n);
        assert forall|q: int| 0 <= q < cur.len() implies exists|p: int| 0 <= p < rem.len() && #[trigger] cur[q] == rem[p] by {
            if q < prev.len() {
                assert(cur[q] == prev[q]);
                let p = choose|p: int| 0 <= p < rem.len() && prev[q] == rem[p];
                assert(cur[q] == rem[p]);
            } else {
                assert(cur[q] == rem[n - 1]);
            }
        }
    }
}

/// A candidate completed with its uniform boards (`completed`).
fn complete_one(r: &mut ReelInstanse, identical_complete: bool)
    requires
        identical_complete ==> forall|p: int| 0 <= p < old(r).remaining@.len() ==> (#[trigger] old(r).remaining@[p])@.len() >= 1,
    ensures
        cand_v(*final(r)) == completed(cand_v(*old(r)), identical_complete),
{
    if !(identical_complete && r.remaining.len() > 0) {
        return;
    }
    let ghost rv = cand_v(*r);
    let us = uniform_firsts_exec(&r.remaining);
    let ghost usv = cols(us@);
    proof {
        lemma_uniform_firsts_from(rv.1, rv.1.len());
        assert forall|q: int| 0 <= q < us@.len() implies (#[trigger] usv[q]).len() >= 1 by {
            let p = choose|p: int| 0 <= p < rv.1.len() && usv[q] == rv.1[p];
            assert(rv.1[p] == r.remaining@[p]@);
        }
    }
    let mut n: usize = 0;
    while n < us.len()
        invariant
            usv == cols(us@),
            usv.len() == us@.len(),
            rv.1 == cols(old(r).remaining@),
            usv == uniform_firsts(rv.1, rv.1.len()),
            n <= us.len(),
            forall|q: int| 0 <= q < us@.len() ==> (#[trigger] usv[q]).len() >= 1,
            (r.reel@, cols(r.remaining@)) == complete_with(rv.0, rv.1, usv, n as nat),
            r.correct == rv.2,
        decreases us.len() - n,
    {
        assert(usv[n as int] == us@[n as int]@);
        let k = count_board_exec(&r.remaining, &us[n]);
        fill_exec(&mut r.reel, &mut r.remaining, &us[n], k);
        n = n + 1;
    }
}

/// Completes every candidate with the copies of its uniform boards left over, when
/// `identical_complete` holds: each copy is placed by doubling the symbol where the
/// board already lies on the strip (`completed`).
pub fn _complete_reels(reels: &mut Vec<ReelInstanse>, identical_complete: bool)
    requires
        identical_complete ==> boards_nonempty(cands_v(old(reels)@)),
    ensures
        cands_v(final(reels)@) == cands_v(old(reels)@).map_values(
            |r: CandV| completed(r, identical_complete),
        ),
{
    let ghost start = cands_v(reels@);
    let mut pos: usize = 0;
    while pos < reels.len()
        invariant
            start == cands_v(old(reels)@),
            identical_complete ==> boards_nonempty(start),
            reels@.len() == start.len(),
            pos <= reels.len(),
            forall|q: int| 0 <= q < pos ==> #[trigger] cand_v(reels@[q]) == completed(start[q], identical_complete),
            forall|q: int| pos <= q < reels@.len() ==> #[trigger] cand_v(reels@[q]) == start[q],
        decreases reels.len() - pos,
    {
        let mut r = copy_cand(&reels[pos]);
        assert(cand_v(r) == start[pos as int]);
        if identical_complete {
            assert forall|p: int| 0 <= p < r.remaining@.len() implies (#[trigger] r.remaining@[p])@.len() >= 1 by {
                assert(cols(r.remaining@)[p] == r.remaining@[p]@);
                assert(start[pos as int].1[p].len() >= 1);
            }
        }
        complete_one(&mut r, identical_complete);
        reels.set(pos, r);
        pos = pos + 1;
    }
    assert(cands_v(reels@) =~= start.map_values(
        |r: CandV| completed(r, identical_complete),
    ));
}

// ---------------------------------------------------------------------------------
// Collecting candidates.

/// How many of the last `height` symbols of a strip, read from its end, equal its last
/// one (counting from `k`).
pub open spec fn run_back(reel: Seq<i64>, height: int, k: int) -> int
    decreases height - k,
{
    if 0 <= k < height && k < reel.len() && reel[reel.len() - 1 - k] == reel.last() {
        run_back(reel, height, k + 1)
    } else {
        k
    }
}

/// Whether the strip's last `height - 1` symbols begin the board.
pub open spec fn joins(reel: Seq<i64>, board: Seq<i64>, height: int) -> bool {
    reel.subrange(reel.len() - (height - 1), reel.len() as int) == board.subrange(0, height - 1)
}

/// Whether a board continues the strip at its end: it joins it, and the run of equal
/// symbols at the strip's end is neither broken off short of `height` nor stretched past
/// it. With `loose`, joining is enough.
pub open spec fn fits(reel: Seq<i64>, board: Seq<i64>, height: int, loose: bool) -> bool {
    let next_equal = reel.last() == board.last();
    &&& joins(reel, board, height)
    &&& (loose || !(2 <= run_back(reel, height, 0) < height && !next_equal))
    &&& (loose || !(all_of(reel, reel.len() - height, reel.len() as int, reel.last()) && next_equal))
}

/// The strip grown by board `p` at its end, when the board fits there.
pub open spec fn grown(reel: Seq<i64>, bs: Seq<Seq<i64>>, height: int, loose: bool, p: int) -> Seq<CandV> {
    let b = bs[p];
    if fits(reel, b, height, loose) {
        seq![(reel + b.subrange(height - 1, b.len() as int), bs.remove(p), false)]
    } else {
        Seq::empty()
    }
}

/// The strips grown from a candidate by its first `n` boards, the last board first.
pub open spec fn children(reel: Seq<i64>, bs: Seq<Seq<i64>>, height: int, loose: bool, n: nat) -> Seq<CandV>
    decreases n,
{
    if n == 0 || n > bs.len() {
        Seq::empty()
    } else {
        grown(reel, bs, height, loose, n - 1) + children(reel, bs, height, loose, (n - 1) as nat)
    }
}

/// Whether a candidate ends in the stuck mark.
pub open spec fn is_stuck(r: CandV) -> bool {
    r.0.last() == STUCK
}

/// The strips that the boards of a candidate grow from it.
pub open spec fn offspring(r: CandV, height: int, loose: bool) -> Seq<CandV> {
    children(r.0, r.1, height, loose, r.1.len())
}

/// A candidate marked stuck.
pub open spec fn stuck(r: CandV) -> CandV {
    (r.0.push(STUCK), r.1, r.2)
}

/// The candidates among the first `n` that stay in place: stuck ones as they are, and
/// those no board grows, now marked stuck.
pub open spec fn kept(rs: Seq<CandV>, height: int, n: nat) -> Seq<CandV>
    decreases n,
{
    if n == 0 || n > rs.len() {
        Seq::empty()
    } else {
        let r = rs[n - 1];
        kept(rs, height, (n - 1) as nat) + if is_stuck(r) {
            seq![r]
        } else if offspring(r, height, false).len() == 0 {
            seq![stuck(r)]
        } else {
            Seq::empty()
        }
    }
}

/// The grown strips of the first `n` candidates, the last candidate's first.
pub open spec fn appended(rs: Seq<CandV>, height: int, n: nat) -> Seq<CandV>
    decreases n,
{
    if n == 0 || n > rs.len() {
        Seq::empty()
    } else {
        (if is_stuck(rs[n - 1]) {
            Seq::empty()
        } else {
            offspring(rs[n - 1], height, false)
        }) + appended(rs, height, (n - 1) as nat)
    }
}

/// The first occurrence of each candidate, in order.
pub open spec fn first_of_each(s: Seq<CandV>) -> Seq<CandV>
    decreases s.len(),
{
    if s.len() == 0 {
        s
    } else if s.drop_last().contains(s.last()) {
        first_of_each(s.drop_last())
    } else {
        first_of_each(s.drop_last()).push(s.last())
    }
}

/// One round of collection: every candidate that is not stuck is replaced by the strips
/// its boards grow, or marked stuck when none does; then repeats are dropped.
pub open spec fn collect_round(rs: Seq<CandV>, height: int) -> Seq<CandV> {
    first_of_each(kept(rs, height, rs.len()) + appended(rs, height, rs.len()))
}

pub open spec fn collect_rounds(rs: Seq<CandV>, height: int, k: nat) -> Seq<CandV>
    decreases k,
{
    if k == 0 {
        rs
    } else {
        collect_round(collect_rounds(rs, height, (k - 1) as nat), height)
    }
}

/// One round of depth-first collection: only the last candidate moves. Unless it is
/// stuck, it is replaced by the strips that the boards joining it grow, or marked stuck
/// when none does; then repeats are dropped.
pub open spec fn collect_round_v2(rs: Seq<CandV>, height: int) -> Seq<CandV> {
    if rs.len() == 0 {
        rs
    } else {
        let l = rs.last();
        let ch = offspring(l, height, true);
        first_of_each(
            if is_stuck(l) {
                rs
            } else if ch.len() > 0 {
                rs.drop_last() + ch
            } else {
                rs.drop_last().push(stuck(l))
            },
        )
    }
}

pub open spec fn collect_rounds_v2(rs: Seq<CandV>, height: int, k: nat) -> Seq<CandV>
    decreases k,
{
    if k == 0 {
        rs
    } else {
        collect_round_v2(collect_rounds_v2(rs, height, (k - 1) as nat), height)
    }
}

/// The candidate that starts from the first board.
pub open spec fn first_candidate(bs: Seq<Seq<i64>>) -> CandV {
    (bs[0], bs.remove(0), false)
}

/// Whether every board has at least `height` symbols.
pub open spec fn boards_ok(bs: Seq<Seq<i64>>, height: int) -> bool {
    forall|p: int| 0 <= p < bs.len() ==> (#[trigger] bs[p]).len() >= height
}

/// Whether every candidate holds at least `height` symbols and boards that long.
pub open spec fn cands_ok(rs: Seq<CandV>, height: int) -> bool {
    forall|i: int| 0 <= i < rs.len() ==> (#[trigger] rs[i]).0.len() >= height && boards_ok(rs[i].1, height)
}

fn run_back_exec(reel: &Vec<i64>, height: usize) -> (r: usize)
    requires
        1 <= height <= reel.len(),
    ensures
        r == run_back(reel@, height as int, 0),
{
    let n = reel.len();
    let last = reel[n - 1];
    let mut k: usize = 0;
    while k < height && reel[n - 1 - k] == last
        invariant
            n == reel@.len(),
            1 <= height <= n,
            last == reel@.last(),
            k <= height,
            run_back(reel@, height as int, 0) == run_back(reel@, height as int, k as int),
        decreases height - k,
    {
        k = k + 1;
    }
    k
}

fn fits_exec(reel: &Vec<i64>, board: &Vec<i64>, height: usize, loose: bool) -> (r: bool)
    requires
        1 <= height <= reel.len(),
        height <= board.len(),
    ensures
        r == fits(reel@, board@, height as int, loose),
{
    let n = reel.len();
    let m = board.len();
    let joined = window_eq(reel, n - (height - 1), board, 0, height - 1);
    if loose {
        return joined;
    }
    let last = reel[n - 1];
    let next_equal = last == board[m - 1];
    let same = run_back_exec(reel, height);
    let flat = all_of_exec(reel, n - height, n, last);
    joined && !(2 <= same && same < height && !next_equal) && !(flat && next_equal)
}

fn without_board(bs: &Vec<Vec<i64>>, p: usize) -> (r: Vec<Vec<i64>>)
    requires
        p < bs.len(),
    ensures
        cols(r@) == cols(bs@).remove(p as int),
{
    let mut r = copy_cols(bs);
    assert(cols(r@).len() == r@.len());
    assert(cols(bs@).len() == bs@.len());
    r.remove(p);
    assert(cols(r@) =~= cols(bs@).remove(p as int));
    r
}

proof fn lemma_remove_ok(bs: Seq<Seq<i64>>, p: int, height: int)
    requires
        0 <= p < bs.len(),
        boards_ok(bs, height),
    ensures
        boards_ok(bs.remove(p), height),
{
    let t = bs.remove(p);
    assert forall|q: int| 0 <= q < t.len() implies (#[trigger] t[q]).len() >= height by {
        if q < p {
            assert(t[q] == bs[q]);
        } else {
            assert(t[q] == bs[q + 1]);
        }
    }
}

/// The strips grown from a candidate by its boards, the last board first.
fn children_exec(reel: &Vec<i64>, bs: &Vec<Vec<i64>>, height: usize, loose: bool) -> (r: Vec<ReelInstanse>)
    requires
        1 <= height <= reel.len(),
        boards_ok(cols(bs@), height as int),
    ensures
        cands_v(r@) == children(reel@, cols(bs@), height as int, loose, bs@.len()),
        cands_ok(cands_v(r@), height as int),
{
    let ghost bv = cols(bs@);
    let mut out: Vec<ReelInstanse> = Vec::new();
    let mut q: usize = bs.len();
    while q > 0
        invariant
            bv == cols(bs@),
            bv.len() == bs@.len(),
            1 <= height <= reel.len(),
            boards_ok(bv, height as int),
            q <= bs.len(),
            children(reel@, bv, height as int, loose, bs@.len()) == cands_v(out@) + children(reel@, bv, height as int, loose, q as nat),
            cands_ok(cands_v(out@), height as int),
        decreases q,
    {
        let p = q - 1;
        assert(bv[p as int] == bs@[p as int]@);
        assert(bv[p as int].len() >= height);
        let board = &bs[p];
        let ghost before = cands_v(out@);
        proof {
            lemma_remove_ok(bv, p as int, height as int);
        }
        if fits_exec(reel, board, height, loose) {
            let mut nr = copy_i64(reel);
            let mut k: usize = height - 1;
            while k < board.len()
                invariant
                    1 <= height <= board.len(),
                    height - 1 <= k <= board.len(),
                    nr@ == reel@ + board@.subrange(height - 1, k as int),
                decreases board.len() - k,
            {
                nr.push(board[k]);
                assert(nr@ =~= reel@ + board@.subrange(height - 1, k + 1));
                k = k + 1;
            }
            out.push(ReelInstanse { reel: nr, remaining: without_board(bs, p), correct: false });
        }
        assert(cands_v(out@) =~= before + grown(reel@, bv, height as int, loose, p as int));
        assert(children(reel@, bv, height as int, loose, q as nat) == grown(reel@, bv, height as int, loose, p as int) + children(reel@, bv, height as int, loose, p as nat));
        assert(children(reel@, bv, height as int, loose, bs@.len()) =~= cands_v(out@) + children(reel@, bv, height as int, loose, p as nat));
        q = p;
    }
    assert(cands_v(out@) + children(reel@, bv, height as int, loose, 0) =~= cands_v(out@));
    out
}

proof fn lemma_first_of_each_contains(s: Seq<CandV>, x: CandV)
    ensures
        first_of_each(s).contains(x) <==> s.contains(x),
    decreases s.len(),
{
    if s.len() > 0 {
        lemma_first_of_each_contains(s.drop_last(), x);
        let p = first_of_each(s.drop_last());
        if s.contains(x) {
            let i = choose|i: int| 0 <= i < s.len() && s[i] == x;
            if i < s.len() - 1 {
                assert(s.drop_last()[i] == x);
            }
        }
        if s.drop_last().contains(x) {
            let i = choose|i: int| 0 <= i < s.drop_last().len() && s.drop_last()[i] == x;
            assert(s[i] == x);
        }
        if !s.drop_last().contains(s.last()) {
            if p.push(s.last()).contains(x) && x != s.last() {
                let i = choose|i: int| 0 <= i < p.push(s.last()).len() && p.push(s.last())[i] == x;
                assert(p[i] == x);
            }
            if p.contains(x) {
                let i = choose|i: int| 0 <= i < p.len() && p[i] == x;
                assert(p.push(s.last())[i] == x);
            }
            if x == s.last() {
                assert(p.push(s.last())[p.len() as int] == x);
            }
        }
    }
}

fn first_of_each_exec(v: Vec<ReelInstanse>) -> (r: Vec<ReelInstanse>)
    ensures
        cands_v(r@) == first_of_each(cands_v(v@)),
{
    let ghost s = cands_v(v@);
    let mut out: Vec<ReelInstanse> = Vec::new();
    let mut i: usize = 0;
    while i < v.len()
        invariant
            s == cands_v(v@),
            s.len() == v@.len(),
            i <= v.len(),
            cands_v(out@) == first_of_each(s.take(i as int)),
        decreases v.len() - i,
    {
        assert(s.take(i + 1).drop_last() =~= s.take(i as int));
        assert(s.take(i + 1).last() == cand_v(v@[i as int]));
        let mut found = false;
        let mut j: usize = 0;
        while j < out.len()
            invariant
                j <= out.len(),
                i < v.len(),
                found == exists|k: int| 0 <= k < j && cand_v(out@[k]) == cand_v(v@[i as int]),
            decreases out.len() - j,
        {
            if same_cand(&out[j], &v[i]) {
                found = true;
            }
            j = j + 1;
        }
        proof {
            lemma_first_of_each_contains(s.take(i as int), cand_v(v@[i as int]));
            if found {
                let k = choose|k: int| 0 <= k < out.len() && cand_v(out@[k]) == cand_v(v@[i as int]);
                assert(cands_v(out@)[k] == cand_v(v@[i as int]));
            } else {
                assert forall|k: int| 0 <= k < cands_v(out@).len() implies cands_v(out@)[k] != cand_v(v@[i as int]) by {
                    assert(cands_v(out@)[k] == cand_v(out@[k]));
                }
            }
        }
        if !found {
            let ghost before = cands_v(out@);
            out.push(copy_cand(&v[i]));
            assert(cands_v(out@) =~= before.push(cand_v(v@[i as int])));
        }
        i = i + 1;
    }
    assert(s.take(v.len() as int) =~= s);
    out
}

fn stuck_exec(r: &ReelInstanse) -> (b: bool)
    requires
        r.reel@.len() >= 1,
    ensures
        b == is_stuck(cand_v(*r)),
{
    r.reel[r.reel.len() - 1] == STUCK
}

fn mark_stuck(r: &ReelInstanse) -> (c: ReelInstanse)
    ensures
        cand_v(c) == stuck(cand_v(*r)),
{
    let mut nr = copy_i64(&r.reel);
    nr.push(STUCK);
    ReelInstanse { reel: nr, remaining: copy_cols(&r.remaining), correct: r.correct }
}

proof fn lemma_cands_ok_add(a: Seq<CandV>, b: Seq<CandV>, height: int)
    requires
        cands_ok(a, height),
        cands_ok(b, height),
    ensures
        cands_ok(a + b, height),
{
    assert forall|i: int| 0 <= i < (a + b).len() implies (#[trigger] (a + b)[i]).0.len() >= height && boards_ok((a + b)[i].1, height) by {
        if i < a.len() {
            assert((a + b)[i] == a[i]);
        } else {
            assert((a + b)[i] == b[i - a.len()]);
        }
    }
}

proof fn lemma_first_of_each_ok(s: Seq<CandV>, height: int)
    requires
        cands_ok(s, height),
    ensures
        cands_ok(first_of_each(s), height),
    decreases s.len(),
{
    if s.len() > 0 {
        assert(cands_ok(s.drop_last(), height)) by {
            assert forall|i: int| 0 <= i < s.drop_last().len() implies (#[trigger] s.drop_last()[i]).0.len() >= height && boards_ok(s.drop_last()[i].1, height) by {
                assert(s.drop_last()[i] == s[i]);
            }
        }
        lemma_first_of_each_ok(s.drop_last(), height);
        assert(s.last() == s[s.len() - 1]);
    }
}

/// Appends copies of `extra` to `all`.
fn append_cands(all: &mut Vec<ReelInstanse>, extra: &Vec<ReelInstanse>)
    ensures
        cands_v(final(all)@) == cands_v(old(all)@) + cands_v(extra@),
{
    let ghost start = cands_v(all@);
    let mut k: usize = 0;
    while k < extra.len()
        invariant
            k <= extra.len(),
            start == cands_v(old(all)@),
            cands_v(all@) == start + cands_v(extra@).take(k as int),
        decreases extra.len() - k,
    {
        let ghost old_v = cands_v(all@);
        all.push(copy_cand(&extra[k]));
        assert(cands_v(all@) =~= old_v.push(cand_v(extra@[k as int])));
        assert(cands_v(extra@).take(k + 1) =~= cands_v(extra@).take(k as int).push(cand_v(extra@[k as int])));
        k = k + 1;
    }
    assert(cands_v(extra@).take(extra.len() as int) =~= cands_v(extra@));
}

/// One round of collection (`collect_round`).
fn collect_round_exec(rs: &Vec<ReelInstanse>, height: usize) -> (r: Vec<ReelInstanse>)
    requires
        height >= 1,
        cands_ok(cands_v(rs@), height as int),
    ensures
        cands_v(r@) == collect_round(cands_v(rs@), height as int),
        cands_ok(cands_v(r@), height as int),
{
    let ghost s = cands_v(rs@);
    let mut staying: Vec<ReelInstanse> = Vec::new();
    let mut i: usize = 0;
    while i < rs.len()
        invariant
            s == cands_v(rs@),
            s.len() == rs@.len(),
            height >= 1,
            cands_ok(s, height as int),
            i <= rs.len(),
            cands_v(staying@) == kept(s, height as int, i as nat),
            cands_ok(cands_v(staying@), height as int),
        decreases rs.len() - i,
    {
        let r = &rs[i];
        assert(s[i as int] == cand_v(*r));
        let ghost before = cands_v(staying@);
        if stuck_exec(r) {
            staying.push(copy_cand(r));
            assert(cands_v(staying@) =~= before + seq![s[i as int]]);
        } else {
            let kids = children_exec(&r.reel, &r.remaining, height, false);
            if kids.len() == 0 {
                staying.push(mark_stuck(r));
                assert(cands_v(staying@) =~= before + seq![stuck(s[i as int])]);
            } else {
                assert(cands_v(staying@) =~= before + Seq::empty());
            }
        }
        proof {
            let added = cands_v(staying@).subrange(before.len() as int, cands_v(staying@).len() as int);
            assert(cands_ok(added, height as int)) by {
                assert forall|t: int| 0 <= t < added.len() implies (#[trigger] added[t]).0.len() >= height && boards_ok(added[t].1, height as int) by {
                    assert(added[t].1 == s[i as int].1);
                }
            }
            lemma_cands_ok_add(before, added, height as int);
            assert(cands_v(staying@) =~= before + added);
        }
        i = i + 1;
    }
    let mut grown_all: Vec<ReelInstanse> = Vec::new();
    let mut q: usize = rs.len();
    while q > 0
        invariant
            s == cands_v(rs@),
            s.len() == rs@.len(),
            height >= 1,
            cands_ok(s, height as int),
            q <= rs.len(),
            appended(s, height as int, rs@.len()) == cands_v(grown_all@) + appended(s, height as int, q as nat),
            cands_ok(cands_v(grown_all@), height as int),
        decreases q,
    {
        let p = q - 1;
        let r = &rs[p];
        assert(s[p as int] == cand_v(*r));
        let ghost before = cands_v(grown_all@);
        let ghost piece = if is_stuck(s[p as int]) {
            Seq::<CandV>::empty()
        } else {
            offspring(s[p as int], height as int, false)
        };
        if !stuck_exec(r) {
            let kids = children_exec(&r.reel, &r.remaining, height, false);
            append_cands(&mut grown_all, &kids);
            proof {
                lemma_cands_ok_add(before, cands_v(kids@), height as int);
            }
        } else {
            assert(cands_v(grown_all@) =~= before + piece);
        }
        assert(appended(s, height as int, q as nat) == piece + appended(s, height as int, p as nat));
        assert(appended(s, height as int, rs@.len()) =~= cands_v(grown_all@) + appended(s, height as int, p as nat));
        q = p;
    }
    assert(cands_v(grown_all@) + appended(s, height as int, 0) =~= cands_v(grown_all@));
    let mut all = staying;
    let ghost sv = cands_v(all@);
    append_cands(&mut all, &grown_all);
    proof {
        lemma_cands_ok_add(sv, cands_v(grown_all@), height as int);
        lemma_first_of_each_ok(cands_v(all@), height as int);
    }
    first_of_each_exec(all)
}

/// Collects reel strips from the boards: starting from the first board, it runs one
/// round per board but the first (`collect_round`), stopping after any round once the
/// time allowed has passed when `can_skip_reel_collect_after_timeout` holds.
pub fn _collect_reels(
    a_boards: &Vec<Vec<i64>>,
    height: usize,
    can_skip_reel_collect_after_timeout: bool,
    skip_collect_timeout_sec: u64,
) -> (r: Vec<ReelInstanse>)
    requires
        height >= 1,
        boards_ok(cols(a_boards@), height as int),
    ensures
        a_boards@.len() == 0 ==> r@.len() == 0,
        a_boards@.len() > 0 ==> exists|k: nat|
            (k == a_boards@.len() - 1 || (can_skip_reel_collect_after_timeout && 1 <= k
                <= a_boards@.len() - 1)) && cands_v(r@) == #[trigger] collect_rounds(
                seq![first_candidate(cols(a_boards@))],
                height as int,
                k,
            ),
        cands_ok(cands_v(r@), height as int),
{
    let mut reels: Vec<ReelInstanse> = Vec::new();
    if a_boards.len() == 0 {
        return reels;
    }
    let ghost bv = cols(a_boards@);
    assert(bv[0] == a_boards@[0]@);
    proof {
        lemma_remove_ok(bv, 0, height as int);
    }
    reels.push(ReelInstanse { reel: copy_i64(&a_boards[0]), remaining: without_board(a_boards, 0), correct: false });
    let ghost init = seq![first_candidate(bv)];
    assert(cands_v(reels@) =~= init);
    let start = clock_now();
    let rounds = a_boards.len() - 1;
    let mut i: usize = 0;
    while i < rounds
        invariant
            height >= 1,
            i <= rounds,
            rounds == a_boards@.len() - 1,
            cands_v(reels@) == collect_rounds(init, height as int, i as nat),
            cands_ok(cands_v(reels@), height as int),
        ensures
            cands_v(reels@) == collect_rounds(init, height as int, i as nat),
            i == rounds || (can_skip_reel_collect_after_timeout && 1 <= i <= rounds),
            cands_ok(cands_v(reels@), height as int),
        decreases rounds - i,
    {
        reels = collect_round_exec(&reels, height);
        i = i + 1;
        if can_skip_reel_collect_after_timeout {
            let gone = time_since(&start);
            if span_longer(&gone, &whole_seconds(skip_collect_timeout_sec)) {
                break;
            }
        }
    }
    reels
}

/// One round of depth-first collection (`collect_round_v2`).
fn collect_round_v2_exec(rs: &Vec<ReelInstanse>, height: usize) -> (r: Vec<ReelInstanse>)
    requires
        height >= 1,
        cands_ok(cands_v(rs@), height as int),
    ensures
        cands_v(r@) == collect_round_v2(cands_v(rs@), height as int),
        cands_ok(cands_v(r@), height as int),
{
    let ghost s = cands_v(rs@);
    if rs.len() == 0 {
        return Vec::new();
    }
    let last = rs.len() - 1;
    let l = &rs[last];
    assert(s.last() == cand_v(*l));
    let mut all: Vec<ReelInstanse> = Vec::new();
    let mut k: usize = 0;
    while k < last
        invariant
            s == cands_v(rs@),
            last == rs@.len() - 1,
            k <= last,
            cands_v(all@) == s.take(k as int),
        decreases last - k,
    {
        let ghost before = cands_v(all@);
        all.push(copy_cand(&rs[k]));
        assert(cands_v(all@) =~= before.push(cand_v(rs@[k as int])));
        assert(s[k as int] == cand_v(rs@[k as int]));
        assert(s.take(k + 1) =~= s.take(k as int).push(s[k as int]));
        k = k + 1;
    }
    assert(s.take(last as int) =~= s.drop_last());
    let ghost front = cands_v(all@);
    proof {
        assert(cands_ok(front, height as int)) by {
            assert forall|t: int| 0 <= t < front.len() implies (#[trigger] front[t]).0.len() >= height && boards_ok(front[t].1, height as int) by {
                assert(front[t] == s[t]);
            }
        }
    }
    if stuck_exec(l) {
        all.push(copy_cand(l));
        assert(cands_v(all@) =~= front.push(s.last()));
        assert(s =~= s.drop_last().push(s.last()));
    } else {
        let kids = children_exec(&l.reel, &l.remaining, height, true);
        if kids.len() > 0 {
            append_cands(&mut all, &kids);
            proof {
                lemma_cands_ok_add(front, cands_v(kids@), height as int);
            }
        } else {
            all.push(mark_stuck(l));
            assert(cands_v(all@) =~= front.push(stuck(s.last())));
            proof {
                lemma_cands_ok_add(front, seq![stuck(s.last())], height as int);
                assert(front + seq![stuck(s.last())] =~= front.push(stuck(s.last())));
            }
        }
    }
    proof {
        lemma_first_of_each_ok(cands_v(all@), height as int);
    }
    first_of_each_exec(all)
}

/// Collects reel strips depth first: starting from the first board, each round grows
/// only the newest candidate (`collect_round_v2`), one round per board but the first,
/// stopping after any round once more time than allowed has gone by when
/// `can_skip_reel_collect_after_timeout` holds.
pub fn _collect_reels_v2(
    a_boards: &Vec<Vec<i64>>,
    height: usize,
    can_skip_reel_collect_after_timeout: bool,
    skip_collect_timeout_sec: u64,
) -> (r: Vec<ReelInstanse>)
    requires
        height >= 1,
        boards_ok(cols(a_boards@), height as int),
    ensures
        a_boards@.len() == 0 ==> r@.len() == 0,
        a_boards@.len() > 0 ==> exists|k: nat|
            (k == a_boards@.len() - 1 || (can_skip_reel_collect_after_timeout && 1 <= k
                <= a_boards@.len() - 1)) && cands_v(r@) == #[trigger] collect_rounds_v2(
                seq![first_candidate(cols(a_boards@))],
                height as int,
                k,
            ),
        cands_ok(cands_v(r@), height as int),
{
    let mut reels: Vec<ReelInstanse> = Vec::new();
    if a_boards.len() == 0 {
        return reels;
    }
    let ghost bv = cols(a_boards@);
    assert(bv[0] == a_boards@[0]@);
    proof {
        lemma_remove_ok(bv, 0, height as int);
    }
    reels.push(ReelInstanse { reel: copy_i64(&a_boards[0]), remaining: without_board(a_boards, 0), correct: false });
    let ghost init = seq![first_candidate(bv)];
    assert(cands_v(reels@) =~= init);
    let start = clock_now();
    let rounds = a_boards.len() - 1;
    let mut i: usize = 0;
    while i < rounds
        invariant
            height >= 1,
            i <= rounds,
            rounds == a_boards@.len() - 1,
            cands_v(reels@) == collect_rounds_v2(init, height as int, i as nat),
            cands_ok(cands_v(reels@), height as int),
        ensures
            cands_v(reels@) == collect_rounds_v2(init, height as int, i as nat),
            i == rounds || (can_skip_reel_collect_after_timeout && 1 <= i <= rounds),
            cands_ok(cands_v(reels@), height as int),
        decreases rounds - i,
    {
        reels = collect_round_v2_exec(&reels, height);
        i = i + 1;
        if can_skip_reel_collect_after_timeout {
            let gone = time_since(&start);
            if span_longer(&gone, &whole_seconds(skip_collect_timeout_sec)) {
                break;
            }
        }
    }
    reels
}

proof fn lemma_first_of_each_unique(s: Seq<CandV>)
    ensures
        first_of_each(s).no_duplicates(),
    decreases s.len(),
{
    if s.len() > 0 {
        lemma_first_of_each_unique(s.drop_last());
        let p = first_of_each(s.drop_last());
        if !s.drop_last().contains(s.last()) {
            lemma_first_of_each_contains(s.drop_last(), s.last());
            assert forall|i: int, j: int| 0 <= i < p.push(s.last()).len() && 0 <= j < p.push(s.last()).len() && i != j
                implies p.push(s.last())[i] != p.push(s.last())[j] by {
                if i < p.len() && j < p.len() {
                    assert(p.push(s.last())[i] == p[i] && p.push(s.last())[j] == p[j]);
                } else if i < p.len() {
                    assert(p.push(s.last())[i] == p[i]);
                    assert(p.contains(p[i]));
                } else if j < p.len() {
                    assert(p.push(s.last())[j] == p[j]);
                    assert(p.contains(p[j]));
                }
            }
        }
    }
}

/// A round of collection never holds the same candidate twice, and holds every strip
/// that its stuck, marked or grown candidates make.
pub proof fn law_collect_round_distinct(rs: Seq<CandV>, height: int)
    ensures
        collect_round(rs, height).no_duplicates(),
        forall|r: CandV|
            #[trigger] collect_round(rs, height).contains(r) <==> (kept(rs, height, rs.len()) + appended(
                rs,
                height,
                rs.len(),
            )).contains(r),
{
    let all = kept(rs, height, rs.len()) + appended(rs, height, rs.len());
    lemma_first_of_each_unique(all);
    assert forall|r: CandV| #[trigger] collect_round(rs, height).contains(r) <==> all.contains(r) by {
        lemma_first_of_each_contains(all, r);
    }
}

/// A round of depth-first collection never holds the same candidate twice, and leaves
/// every candidate but the last where it was.
pub proof fn law_collect_round_v2_distinct(rs: Seq<CandV>, height: int)
    ensures
        collect_round_v2(rs, height).no_duplicates(),
        forall|k: int| 0 <= k < rs.len() - 1 ==> collect_round_v2(rs, height).contains(#[trigger] rs[k]),
{
    if rs.len() > 0 {
        let l = rs.last();
        let ch = offspring(l, height, true);
        let all = if is_stuck(l) {
            rs
        } else if ch.len() > 0 {
            rs.drop_last() + ch
        } else {
            rs.drop_last().push(stuck(l))
        };
        lemma_first_of_each_unique(all);
        assert forall|k: int| 0 <= k < rs.len() - 1 implies collect_round_v2(rs, height).contains(#[trigger] rs[k]) by {
            lemma_first_of_each_contains(all, rs[k]);
            assert(all[k] == rs[k]);
        }
    }
}

proof fn lemma_count_board_is_count(rem: Seq<Seq<i64>>, u: Seq<i64>, n: nat)
    requires
        n <= rem.len(),
    ensures
        count_board(rem, u, n) == count_of(rem.take(n as int), u),
    decreases n,
{
    if n > 0 {
        lemma_count_board_is_count(rem, u, (n - 1) as nat);
        assert(rem.take(n as int) =~= rem.take(n - 1).push(rem[n - 1]));
        lemma_count_of_push(rem.take(n - 1), rem[n - 1], u);
    } else {
        assert(rem.take(0) =~= Seq::<Seq<i64>>::empty());
    }
}

proof fn lemma_first_copy(rem: Seq<Seq<i64>>, u: Seq<i64>, n: nat) -> (p: int)
    requires
        n <= rem.len(),
        count_of(rem.take(n as int), u) > 0,
    ensures
        0 <= p < n,
        rem[p] == u,
        forall|j: int| 0 <= j < p ==> #[trigger] rem[j] != u,
    decreases n,
{
    assert(rem.take(n as int).drop_last() =~= rem.take(n - 1));
    if count_of(rem.take(n - 1), u) > 0 {
        lemma_first_copy(rem, u, (n - 1) as nat)
    } else {
        assert(rem.take(n as int).last() == rem[n - 1]);
        assert forall|j: int| 0 <= j < n - 1 implies #[trigger] rem[j] != u by {
            if rem[j] == u {
                assert(rem.take(n - 1)[j] == u);
                assert(rem.take(n - 1) =~= rem.take(n - 1).take(j).push(u) + rem.take(n - 1).skip(j + 1));
                crate::seqs::lemma_count_of_concat(rem.take(n - 1).take(j).push(u), rem.take(n - 1).skip(j + 1), u);
                lemma_count_of_push(rem.take(n - 1).take(j), u, u);
            }
        }
        n - 1
    }
}

/// Removing a board that is there takes one copy of it away.
proof fn lemma_remove_present(rem: Seq<Seq<i64>>, u: Seq<i64>)
    requires
        count_of(rem, u) > 0,
    ensures
        remove_board(rem, u, rem.len()).len() == rem.len() - 1,
        count_of(remove_board(rem, u, rem.len()), u) == count_of(rem, u) - 1,
{
    assert(rem.take(rem.len() as int) =~= rem);
    let p = lemma_first_copy(rem, u, rem.len());
    lemma_remove_board(rem, u, p, rem.len());
    assert(rem.remove(p).insert(p, u) =~= rem);
    lemma_count_of_insert(rem.remove(p), p, u, u);
}

proof fn lemma_fill_keeps_size(reel: Seq<i64>, rem: Seq<Seq<i64>>, u: Seq<i64>, from: int, k: nat)
    requires
        count_of(rem, u) >= k,
    ensures
        fill(reel, rem, u, from, k).0.len() + fill(reel, rem, u, from, k).1.len() == reel.len() + rem.len(),
    decreases k,
{
    if k > 0 {
        lemma_window_at(reel, u, from);
        lemma_window_at(reel, u, 0);
        let at = match window_at(reel, u, from) {
            Some(i) => Some(i),
            None => window_at(reel, u, 0),
        };
        if let Some(i) = at {
            let p = place(reel, rem, u, i);
            lemma_remove_present(rem, u);
            assert(p.0.len() == reel.len() + 1);
            lemma_fill_keeps_size(p.0, p.1, u, p.2, (k - 1) as nat);
        }
    }
}

proof fn lemma_window_at(reel: Seq<i64>, u: Seq<i64>, from: int)
    ensures
        window_at(reel, u, from) matches Some(i) ==> 0 <= i && i + u.len() <= reel.len() && i < reel.len(),
    decreases reel.len() - from,
{
    if !(from < 0 || from >= reel.len() || from + u.len() > reel.len()) {
        lemma_window_at(reel, u, from + 1);
    }
}

proof fn lemma_complete_with_keeps_size(reel: Seq<i64>, rem: Seq<Seq<i64>>, us: Seq<Seq<i64>>, n: nat)
    ensures
        complete_with(reel, rem, us, n).0.len() + complete_with(reel, rem, us, n).1.len() == reel.len() + rem.len(),
    decreases n,
{
    if n > 0 && n <= us.len() {
        lemma_complete_with_keeps_size(reel, rem, us, (n - 1) as nat);
        let prev = complete_with(reel, rem, us, (n - 1) as nat);
        let u = us[n - 1];
        lemma_count_board_is_count(prev.1, u, prev.1.len());
        assert(prev.1.take(prev.1.len() as int) =~= prev.1);
        lemma_fill_keeps_size(prev.0, prev.1, u, 0, count_board(prev.1, u, prev.1.len()));
    }
}

/// Completing a candidate adds to its strip exactly one symbol for each left-over board
/// it uses up, and keeps its verdict.
pub proof fn law_complete_uses_up_boards(r: CandV, identical: bool)
    ensures
        completed(r, identical).0.len() + completed(r, identical).1.len() == r.0.len() + r.1.len(),
        completed(r, identical).2 == r.2,
{
    if identical && r.1.len() > 0 {
        let us = uniform_firsts(r.1, r.1.len());
        lemma_complete_with_keeps_size(r.0, r.1, us, us.len());
    }
}

} // verus!


