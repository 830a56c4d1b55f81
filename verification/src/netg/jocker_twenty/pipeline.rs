use vstd::prelude::*;

use crate::netg::jocker_twenty::actions::{
    _collect_reels, _multiply_unique_boards_by_frequency, boards_ok, candidates_ok, check_reels,
    checked_reels, collect_rounds, complete_reels, completed, counts_of,
    delete_boards_with_symbols, first_candidate, frequency_average_of, added_copies,
    round_count, scaled_count, select_unique_boards, spread, unique_of, without_symbols,
    law_frequency_average_order_free,
};
use crate::netg::jocker_twenty::models::{
    Board, Categories, Category, MultiplayedBoardsInstanse, ReelInstanse, UniqueBoardsInstanse,
    board_columns, board_v, boards_v, columns, reels_v, total_count,
};
use crate::netg::jocker_twenty::split::{
    CategoryV, UniqueV, categories_v, copy_columns, lemma_with_filtered, lemma_with_unique,
};
use crate::netg::jocker_twenty::split::{has_positive_exec, total_exec, total_v};
use crate::ratio::round_div_u64;
use crate::json::{
    Json, as_flag, as_int, as_list, get, get_array, get_bool, get_i64, get_key, jv, jv_list,
    lemma_jv_list,
};
use crate::netg::jocker_twenty::intake::ints_in;
use crate::seqs::{count_of, distinct, is_perm, sorted_asc};

verus! {

/// The first position of `t` whose count is below `c` (its length when there is none).
pub open spec fn first_below(t: Seq<(u64, Seq<u8>)>, c: u64) -> int
    decreases t.len(),
{
    if t.len() == 0 {
        0
    } else if t[0].0 < c {
        0
    } else {
        1 + first_below(t.drop_first(), c)
    }
}

/// Counted boards ordered by count, largest first, boards of equal count in their order.
pub open spec fn by_count_desc(s: Seq<(u64, Seq<u8>)>) -> Seq<(u64, Seq<u8>)>
    decreases s.len(),
{
    if s.len() == 0 {
        Seq::empty()
    } else {
        let t = by_count_desc(s.drop_last());
        t.insert(first_below(t, s.last().0), s.last())
    }
}

proof fn lemma_first_below(t: Seq<(u64, Seq<u8>)>, c: u64, p: int)
    requires
        0 <= p <= t.len(),
        forall|k: int| 0 <= k < p ==> t[k].0 >= c,
        p == t.len() || t[p].0 < c,
    ensures
        first_below(t, c) == p,
    decreases p,
{
    if p > 0 {
        lemma_first_below(t.drop_first(), c, p - 1);
    }
}

proof fn lemma_by_count_desc_len(s: Seq<(u64, Seq<u8>)>)
    ensures
        by_count_desc(s).len() == s.len(),
        0 <= first_below(by_count_desc(s), 0) <= by_count_desc(s).len(),
    decreases s.len(),
{
    if s.len() > 0 {
        lemma_by_count_desc_len(s.drop_last());
        lemma_first_below_range(by_count_desc(s.drop_last()), s.last().0);
    }
    lemma_first_below_range(by_count_desc(s), 0);
}

proof fn lemma_first_below_range(t: Seq<(u64, Seq<u8>)>, c: u64)
    ensures
        0 <= first_below(t, c) <= t.len(),
    decreases t.len(),
{
    if t.len() > 0 {
        lemma_first_below_range(t.drop_first(), c);
    }
}

/// Orders counted boards by count, largest first, keeping the order of equal counts
/// (`by_count_desc`).
pub fn sort_by_count_desc(v: Vec<Board>) -> (r: Vec<Board>)
    ensures
        boards_v(r@) == by_count_desc(boards_v(v@)),
{
    let ghost s = boards_v(v@);
    let mut r: Vec<Board> = Vec::new();
    let mut i: usize = 0;
    while i < v.len()
        invariant
            i <= v@.len(),
            s == boards_v(v@),
            boards_v(r@) == by_count_desc(s.take(i as int)),
        decreases v@.len() - i,
    {
        let x = v[i].duplicate();
        let mut p: usize = 0;
        while p < r.len() && r[p].count >= x.count
            invariant
                p <= r@.len(),
                forall|k: int| 0 <= k < p ==> r@[k].count >= x.count,
            decreases r@.len() - p,
        {
            p = p + 1;
        }
        let ghost t = boards_v(r@);
        proof {
            assert(s.take(i + 1).drop_last() =~= s.take(i as int));
            assert(s.take(i + 1).last() == board_v(x));
            lemma_first_below(t, x.count, p as int);
        }
        let ghost old_r = r@;
        r.insert(p, x);
        assert(boards_v(r@) =~= t.insert(p as int, board_v(x)));
        i = i + 1;
    }
    assert(s.take(v@.len() as int) =~= s);
    r
}

/// The distinct boards of `bs` in order of first sight, each with its number of
/// occurrences.
pub open spec fn grouped(bs: Seq<Seq<u8>>) -> Seq<(u64, Seq<u8>)> {
    Seq::new(distinct(bs).len(), |k: int| (count_of(bs, distinct(bs)[k]) as u64, distinct(bs)[k]))
}

/// The first category after its boards were sorted: on every reel `0..width`, the kept
/// boards are all boards without the appearing symbols, and the distinct boards are
/// those kept, counted, largest count first, with no frequency average yet.
pub open spec fn prepared(st: Seq<CategoryV>, width: int, symbols: Seq<i64>) -> Seq<CategoryV> {
    let c = st[0];
    st.update(
        0,
        CategoryV {
            count: c.count,
            total: c.total,
            filtered: Seq::new(
                c.filtered.len(),
                |r: int| if r < width { without_symbols(c.total[r], symbols) } else { c.filtered[r] },
            ),
            unique: Seq::new(
                c.unique.len(),
                |r: int| if r < width {
                    UniqueV {
                        count: without_symbols(c.total[r], symbols).len() as u64,
                        fa: 0,
                        insts: by_count_desc(grouped(without_symbols(c.total[r], symbols))),
                    }
                } else {
                    c.unique[r]
                },
            ),
            multiplied: c.multiplied,
            reels: c.reels,
        },
    )
}

proof fn lemma_grouped(r: UniqueBoardsInstanse, bs: Seq<Seq<u8>>)
    requires
        unique_of(r, bs),
    ensures
        boards_v(r.instanses@) == grouped(bs),
{
    assert forall|k: int| 0 <= k < r.instanses@.len() implies #[trigger] boards_v(r.instanses@)[k] == grouped(bs)[k] by {
        assert(board_columns(r.instanses@)[k] == r.instanses@[k].board@);
    }
    assert(boards_v(r.instanses@) =~= grouped(bs));
}

/// Sorts out the boards of the first category for reels `0..width` (`prepared`): the
/// boards that show an appearing symbol are dropped, the rest grouped into distinct
/// boards, which are ordered by count, largest first.
pub fn prepare_boards(a_categories: &mut Categories, width: usize, appearing_symbols: &Vec<i64>)
    requires
        old(a_categories).category@.len() >= 1,
        old(a_categories).category@[0].boards.total@.len() >= width,
        old(a_categories).category@[0].boards.filtered@.len() >= width,
        old(a_categories).category@[0].boards.unique@.len() >= width,
    ensures
        categories_v(final(a_categories).category@) == prepared(
            categories_v(old(a_categories).category@),
            width as int,
            appearing_symbols@,
        ),
        final(a_categories).count == old(a_categories).count,
        final(a_categories).buy_category == old(a_categories).buy_category,
        final(a_categories).settings == old(a_categories).settings,
{
    let ghost st = categories_v(a_categories.category@);
    let ghost c = st[0];
    let ghost sym = appearing_symbols@;
    proof {
        let p0 = prepared(st, 0, sym);
        assert(p0[0].filtered =~= c.filtered);
        assert(p0[0].unique =~= c.unique);
        assert(p0 =~= st);
    }
    let mut i: usize = 0;
    while i < width
        invariant
            i <= width,
            st.len() >= 1,
            c == st[0],
            sym == appearing_symbols@,
            st == categories_v(old(a_categories).category@),
            a_categories.category@.len() == st.len(),
            c.total.len() >= width && c.filtered.len() >= width && c.unique.len() >= width,
            categories_v(a_categories.category@) == prepared(st, i as int, sym),
            a_categories.count == old(a_categories).count,
            a_categories.buy_category == old(a_categories).buy_category,
            a_categories.settings == old(a_categories).settings,
        decreases width - i,
    {
        let ghost c0 = a_categories.category@;
        let ghost v0 = categories_v(c0);
        assert(v0[0].total[i as int] == columns(c0[0].boards.total@[i as int].instanses@));
        assert(v0[0].filtered.len() == c0[0].boards.filtered@.len());
        assert(v0[0].unique.len() == c0[0].boards.unique@.len());
        assert(v0[0].filtered.len() == c.filtered.len());
        assert(v0[0].unique.len() == c.unique.len());
        let kept = delete_boards_with_symbols(copy_columns(&a_categories.category[0].boards.total[i].instanses), appearing_symbols);
        let ghost kv = columns(kept@);
        assert(kv == without_symbols(c.total[i as int], sym));
        let grouped_boards = select_unique_boards(copy_columns(&kept));
        proof {
            lemma_grouped(grouped_boards, kv);
        }
        let ordered = sort_by_count_desc(grouped_boards.instanses);
        let u = UniqueBoardsInstanse { count: grouped_boards.count, frequency_average: 0, instanses: ordered };
        a_categories.category[0].boards.filtered[i].instanses = kept;
        proof {
            assert(a_categories.category@[0].boards.filtered@ =~= c0[0].boards.filtered@.update(
                i as int,
                a_categories.category@[0].boards.filtered@[i as int],
            ));
            lemma_with_filtered(c0, a_categories.category@, 0, i as int);
        }
        let ghost c1 = a_categories.category@;
        a_categories.category[0].boards.unique[i] = u;
        proof {
            assert(a_categories.category@[0].boards.unique@ =~= c1[0].boards.unique@.update(i as int, u));
            lemma_with_unique(c1, a_categories.category@, 0, i as int);
            let a = categories_v(a_categories.category@);
            let b = prepared(st, i + 1, sym);
            assert(a[0].filtered =~= b[0].filtered);
            assert(a[0].unique =~= b[0].unique);
            assert(a =~= b);
        }
        i = i + 1;
    }
}

/// What the preconditions of `_multiply_unique_boards_by_frequency` ask of a reel with
/// `f` kept boards and distinct boards `ub`.
pub open spec fn multiply_ready(f: int, ub: UniqueBoardsInstanse, height: int) -> bool {
    &&& spread(f, ub.instanses@.len() as int) >= 100 ==> exists|i: int|
        0 <= i < ub.instanses@.len() && #[trigger] ub.instanses@[i].count > 0
    &&& 1 <= spread(f, ub.instanses@.len() as int) < 100 ==> height >= 1 && forall|i: int|
        0 <= i < ub.instanses@.len() ==> #[trigger] ub.instanses@[i].board.len() >= height - 1
}

/// What `_multiply_unique_boards_by_frequency` promises: `ub1` is `ub0` after the call,
/// `m` its result.
pub open spec fn multiplied_by(
    f: int,
    ub0: UniqueBoardsInstanse,
    ub1: UniqueBoardsInstanse,
    m: MultiplayedBoardsInstanse,
    height: int,
) -> bool {
    let ub = ub0.instanses@;
    let sp = spread(f, ub.len() as int);
    &&& ub1.count == ub0.count
    &&& ub1.instanses == ub0.instanses
    &&& if sp >= 100 {
        let fa = ub1.frequency_average;
        &&& exists|s: Seq<u64>| sorted_asc(s) && is_perm(s, counts_of(ub)) && fa == frequency_average_of(s)
        &&& fa >= 1
        &&& m.instanses@.len() == ub.len()
        &&& forall|i: int|
            0 <= i < ub.len() ==> #[trigger] m.instanses@[i].board@ == ub[i].board@
                && m.instanses@[i].count == scaled_count(ub[i].count as int, fa as int)
    } else {
        &&& ub1.frequency_average == ub0.frequency_average
        &&& forall|i: int| 0 <= i < m.instanses@.len() ==> #[trigger] m.instanses@[i].count == 1
        &&& board_columns(m.instanses@) == if sp >= 1 {
            board_columns(ub) + added_copies(board_columns(ub), height, ub.len())
        } else {
            board_columns(ub)
        }
    }
}

/// What `_collect_reels` promises of the strips `rs` collected from boards `bs`.
pub open spec fn collected(bs: Seq<Board>, height: int, can_skip: bool, rs: Seq<(Seq<u8>, Seq<(u64, Seq<u8>)>, bool)>) -> bool {
    &&& total_count(bs) == 0 ==> rs.len() == 0
    &&& total_count(bs) > 0 ==> exists|k: nat|
        (k == round_count(total_count(bs) as u64) || (can_skip && 1 <= k <= round_count(
            total_count(bs) as u64,
        ))) && rs == #[trigger] collect_rounds(seq![first_candidate(boards_v(bs))], height, k)
    &&& candidates_ok(rs, height)
}

/// The strips once completed and checked against the boards `bs`.
pub open spec fn finished(
    rs: Seq<(Seq<u8>, Seq<(u64, Seq<u8>)>, bool)>,
    identical: bool,
    bs: Seq<Seq<u8>>,
    height: int,
) -> Seq<(Seq<u8>, Seq<(u64, Seq<u8>)>, bool)> {
    checked_reels(
        rs.map_values(|r: (Seq<u8>, Seq<(u64, Seq<u8>)>, bool)| completed(r, identical)),
        bs,
        height,
        rs.len(),
    )
}

proof fn lemma_total_count_v(s: Seq<Board>)
    ensures
        total_count(s) == total_v(boards_v(s)),
    decreases s.len(),
{
    if s.len() > 0 {
        lemma_total_count_v(s.drop_last());
        assert(boards_v(s.drop_last()) =~= boards_v(s).drop_last());
    }
}

fn multiply_ready_exec(f: usize, ub: &UniqueBoardsInstanse, height: usize) -> (r: bool)
    ensures
        r == multiply_ready(f as int, *ub, height as int),
{
    let u = ub.instanses.len();
    let sp: usize = if u == 0 {
        if f == 0 {
            0
        } else {
            100
        }
    } else {
        round_div_u64(f as u64, u as u64) as usize
    };
    assert(sp == spread(f as int, u as int));
    if sp >= 100 {
        let ok = has_positive_exec(&ub.instanses);
        proof {
            if ok {
                let j = choose|j: int| 0 <= j < boards_v(ub.instanses@).len() && #[trigger] boards_v(ub.instanses@)[j].0 > 0;
                assert(ub.instanses@[j].count > 0);
            } else {
                if exists|i: int| 0 <= i < ub.instanses@.len() && #[trigger] ub.instanses@[i].count > 0 {
                    let i = choose|i: int| 0 <= i < ub.instanses@.len() && #[trigger] ub.instanses@[i].count > 0;
                    assert(boards_v(ub.instanses@)[i].0 > 0);
                }
            }
        }
        ok
    } else if sp >= 1 {
        if height == 0 {
            return false;
        }
        let mut i: usize = 0;
        while i < u
            invariant
                i <= u,
                u == ub.instanses@.len(),
                sp == spread(f as int, u as int),
                1 <= sp < 100,
                height >= 1,
                forall|k: int| 0 <= k < i ==> #[trigger] ub.instanses@[k].board.len() >= height - 1,
            decreases u - i,
        {
            if ub.instanses[i].board.len() < height - 1 {
                assert(!(ub.instanses@[i as int].board.len() >= height - 1));
                return false;
            }
            i = i + 1;
        }
        true
    } else {
        true
    }
}

fn boards_ok_exec(bs: &Vec<Board>, height: usize) -> (r: bool)
    ensures
        r == boards_ok(boards_v(bs@), height as int),
{
    let mut p: usize = 0;
    while p < bs.len()
        invariant
            p <= bs@.len(),
            forall|k: int| 0 <= k < p ==> bs@[k].count >= 1 && bs@[k].board@.len() >= height,
        decreases bs@.len() - p,
    {
        if bs[p].count < 1 || bs[p].board.len() < height {
            assert(boards_v(bs@)[p as int] == (bs@[p as int].count, bs@[p as int].board@));
            assert(!(boards_v(bs@)[p as int].0 >= 1 && boards_v(bs@)[p as int].1.len() >= height));
            assert(!boards_ok(boards_v(bs@), height as int));
            return false;
        }
        p = p + 1;
    }
    true
}

/// What the strips need of the boards a strip should hold (in the order they are
/// collected in): a height, every board counted and at least that long, and counts that
/// add up within `u64`.
pub open spec fn strips_buildable(sorted: Seq<(u64, Seq<u8>)>, height: int) -> bool {
    height >= 1 && boards_ok(sorted, height) && total_v(sorted) <= u64::MAX
}

/// Whether a reel is built from `f` kept boards and the distinct boards `ub0`: the
/// boards can be multiplied, and the strips built from what that gives.
pub open spec fn reel_builds(f: int, ub0: UniqueBoardsInstanse, height: int) -> bool {
    &&& multiply_ready(f, ub0, height)
    &&& forall|ub1: UniqueBoardsInstanse, m: MultiplayedBoardsInstanse|
        #[trigger] multiplied_by(f, ub0, ub1, m, height) ==> strips_buildable(
            by_count_desc(boards_v(m.instanses@)),
            height,
        )
}

/// The boards that multiplying gives are fixed by its inputs.
proof fn lemma_multiplied_by_unique(
    f: int,
    ub0: UniqueBoardsInstanse,
    ub1: UniqueBoardsInstanse,
    m: MultiplayedBoardsInstanse,
    ub2: UniqueBoardsInstanse,
    m2: MultiplayedBoardsInstanse,
    height: int,
)
    requires
        multiplied_by(f, ub0, ub1, m, height),
        multiplied_by(f, ub0, ub2, m2, height),
    ensures
        boards_v(m.instanses@) == boards_v(m2.instanses@),
{
    let ub = ub0.instanses@;
    if spread(f, ub.len() as int) >= 100 {
        let s1 = choose|s: Seq<u64>| sorted_asc(s) && is_perm(s, counts_of(ub)) && ub1.frequency_average == frequency_average_of(s);
        let s2 = choose|s: Seq<u64>| sorted_asc(s) && is_perm(s, counts_of(ub)) && ub2.frequency_average == frequency_average_of(s);
        assert(is_perm(counts_of(ub), counts_of(ub)));
        law_frequency_average_order_free(counts_of(ub), counts_of(ub), s1, s2);
        assert(boards_v(m.instanses@) =~= boards_v(m2.instanses@)) by {
            assert forall|i: int| 0 <= i < ub.len() implies boards_v(m.instanses@)[i] == boards_v(m2.instanses@)[i] by {
                assert(m.instanses@[i].board@ == ub[i].board@);
                assert(m2.instanses@[i].board@ == ub[i].board@);
            }
        }
    } else {
        let c1 = board_columns(m.instanses@);
        let c2 = board_columns(m2.instanses@);
        assert(c1 == c2);
        assert(c1.len() == m.instanses@.len() && c2.len() == m2.instanses@.len());
        assert(boards_v(m.instanses@) =~= boards_v(m2.instanses@)) by {
            assert forall|i: int| 0 <= i < m.instanses@.len() implies boards_v(m.instanses@)[i] == boards_v(m2.instanses@)[i] by {
                assert(c1[i] == m.instanses@[i].board@);
                assert(c2[i] == m2.instanses@[i].board@);
            }
        }
    }
}

/// Builds the boards and strips of one reel from its kept boards and distinct boards:
/// the boards a strip should hold (`_multiply_unique_boards_by_frequency`), ordered by
/// count, largest first; the strips collected from them (`_collect_reels`), completed
/// and checked. `None` where the build cannot go through: when the distinct boards do not
/// suit the multiplication, or the boards to hold are not all at least `height` long
/// with a positive count, or their total passes `u64::MAX`.
pub fn build_reel(
    filtered: &Vec<Vec<u8>>,
    unique: &mut UniqueBoardsInstanse,
    height: usize,
    can_skip_reel_collect_after_timeout: bool,
    skip_collect_timeout_sec: u64,
    identical_complete: bool,
) -> (r: Option<(MultiplayedBoardsInstanse, Vec<ReelInstanse>)>)
    ensures
        !multiply_ready(filtered@.len() as int, *old(unique), height as int) ==> r is None
            && *final(unique) == *old(unique),
        r is Some <==> reel_builds(filtered@.len() as int, *old(unique), height as int),
        multiply_ready(filtered@.len() as int, *old(unique), height as int) ==> exists|m: MultiplayedBoardsInstanse|
            #![trigger multiplied_by(filtered@.len() as int, *old(unique), *final(unique), m, height as int)]
            {
                let sorted = by_count_desc(boards_v(m.instanses@));
                &&& multiplied_by(filtered@.len() as int, *old(unique), *final(unique), m, height as int)
                &&& (r is Some <==> (height >= 1 && boards_ok(sorted, height as int) && total_v(sorted)
                    <= u64::MAX))
                &&& match r {
                    Some(built) => boards_v(built.0.instanses@) == sorted && exists|rs: Seq<(Seq<u8>, Seq<(u64, Seq<u8>)>, bool)>|
                        #![trigger finished(rs, identical_complete, board_columns(built.0.instanses@), height as int)]
                        collected(built.0.instanses@, height as int, can_skip_reel_collect_after_timeout, rs)
                            && reels_v(built.1@) == finished(
                            rs,
                            identical_complete,
                            board_columns(built.0.instanses@),
                            height as int,
                        ),
                    None => true,
                }
            },
{
    if !multiply_ready_exec(filtered.len(), unique, height) {
        return None;
    }
    let fc = copy_columns(filtered);
    assert(fc@.len() == columns(fc@).len() && filtered@.len() == columns(filtered@).len());
    let m = _multiply_unique_boards_by_frequency(fc, unique, height);
    assert(multiplied_by(filtered@.len() as int, *old(unique), *unique, m, height as int));
    let ghost mv = m;
    proof {
        let f = filtered@.len() as int;
        assert forall|ub2: UniqueBoardsInstanse, m2: MultiplayedBoardsInstanse|
            #[trigger] multiplied_by(f, *old(unique), ub2, m2, height as int) implies by_count_desc(boards_v(m2.instanses@))
                == by_count_desc(boards_v(mv.instanses@)) by {
            lemma_multiplied_by_unique(f, *old(unique), *unique, mv, ub2, m2, height as int);
        }
        assert(reel_builds(f, *old(unique), height as int) == strips_buildable(by_count_desc(boards_v(mv.instanses@)), height as int));
    }
    let sorted = sort_by_count_desc(m.instanses);
    if height == 0 || !boards_ok_exec(&sorted, height) {
        return None;
    }
    match total_exec(&sorted) {
        None => {
            return None;
        },
        Some(_) => {},
    }
    proof {
        lemma_total_count_v(sorted@);
    }
    let mut reels = _collect_reels(String::new(), &sorted, height, can_skip_reel_collect_after_timeout, skip_collect_timeout_sec);
    let ghost rs = reels_v(reels@);
    assert(collected(sorted@, height as int, can_skip_reel_collect_after_timeout, rs));
    proof {
        assert forall|i: int, p: int| 0 <= i < rs.len() && 0 <= p < rs[i].1.len() implies (#[trigger] rs[i].1[p]).1.len() >= 1 by {
            assert(boards_ok(rs[i].1, height as int));
            assert(rs[i].1[p].0 >= 1);
            assert(rs[i].1[p].1.len() >= height);
        }
    }
    complete_reels(&mut reels, identical_complete);
    check_reels(&mut reels, &sorted, height);
    assert(reels_v(reels@) == finished(rs, identical_complete, board_columns(sorted@), height as int));
    let ghost rv = reels@;
    let ghost sw = sorted@;
    let r = Some((MultiplayedBoardsInstanse { instanses: sorted }, reels));
    assert(multiplied_by(filtered@.len() as int, *old(unique), *unique, mv, height as int));
    let ghost sv = by_count_desc(boards_v(mv.instanses@));
    assert(boards_v(sw) == sv);
    assert(height >= 1 && boards_ok(sv, height as int));
    assert(total_v(sv) <= u64::MAX);
    assert(collected(sw, height as int, can_skip_reel_collect_after_timeout, rs));
    assert(reels_v(rv) == finished(rs, identical_complete, board_columns(sw), height as int));
    assert(r is Some <==> (height >= 1 && boards_ok(sv, height as int) && total_v(sv) <= u64::MAX));
    assert(match r {
        Some(built) => boards_v(built.0.instanses@) == sv,
        None => true,
    });
    assert(match r {
        Some(built) => exists|rs2: Seq<(Seq<u8>, Seq<(u64, Seq<u8>)>, bool)>|
            #![trigger finished(rs2, identical_complete, board_columns(built.0.instanses@), height as int)]
            collected(built.0.instanses@, height as int, can_skip_reel_collect_after_timeout, rs2)
                && reels_v(built.1@) == finished(rs2, identical_complete, board_columns(built.0.instanses@), height as int),
        None => true,
    });
    r
}

/// Whether a reel was built as `build_reel` builds it: from kept boards `filtered` and
/// distinct boards `ub0`, which became `ub1`, to the boards `mult` a strip should hold and
/// the strips `reels`.
pub open spec fn reel_made(
    filtered: Seq<Vec<u8>>,
    ub0: UniqueBoardsInstanse,
    ub1: UniqueBoardsInstanse,
    mult: Seq<Board>,
    reels: Seq<ReelInstanse>,
    height: int,
    can_skip: bool,
    identical: bool,
) -> bool {
    exists|m: MultiplayedBoardsInstanse|
        #![trigger multiplied_by(filtered.len() as int, ub0, ub1, m, height)]
        {
            let sorted = by_count_desc(boards_v(m.instanses@));
            &&& multiplied_by(filtered.len() as int, ub0, ub1, m, height)
            &&& boards_v(mult) == sorted
            &&& exists|rs: Seq<(Seq<u8>, Seq<(u64, Seq<u8>)>, bool)>|
                #![trigger finished(rs, identical, board_columns(mult), height)]
                collected(mult, height, can_skip, rs) && reels_v(reels) == finished(
                    rs,
                    identical,
                    board_columns(mult),
                    height,
                )
        }
}

/// Builds the boards and strips of every reel `0..width` of a category (`build_reel`);
/// `false`, after the reels before it, at the first reel that cannot be built.
pub fn build_category_reels(
    category: &mut Category,
    width: usize,
    height: usize,
    can_skip_reel_collect_after_timeout: bool,
    skip_collect_timeout_sec: u64,
    identical_complete: bool,
) -> (ok: bool)
    requires
        old(category).boards.filtered@.len() >= width,
        old(category).boards.unique@.len() >= width,
        old(category).boards.multiplied@.len() >= width,
        old(category).reels@.len() >= width,
    ensures
        ok ==> forall|i: int|
            0 <= i < width ==> #[trigger] reel_made(
                old(category).boards.filtered@[i].instanses@,
                old(category).boards.unique@[i],
                final(category).boards.unique@[i],
                final(category).boards.multiplied@[i].instanses@,
                final(category).reels@[i].instanses@,
                height as int,
                can_skip_reel_collect_after_timeout,
                identical_complete,
            ),
        ok ==> final(category).boards.filtered == old(category).boards.filtered,
        ok ==> final(category).boards.total == old(category).boards.total,
        ok ==> final(category).count == old(category).count,
        ok <==> forall|i: int|
            0 <= i < width ==> #[trigger] reel_builds(
                old(category).boards.filtered@[i].instanses@.len() as int,
                old(category).boards.unique@[i],
                height as int,
            ),
{
    let ghost c0 = *category;
    let mut i: usize = 0;
    while i < width
        invariant
            i <= width,
            c0 == *old(category),
            category.boards.filtered == c0.boards.filtered,
            category.boards.total == c0.boards.total,
            category.count == c0.count,
            category.boards.unique@.len() == c0.boards.unique@.len(),
            category.boards.multiplied@.len() == c0.boards.multiplied@.len(),
            category.reels@.len() == c0.reels@.len(),
            c0.boards.filtered@.len() >= width,
            c0.boards.unique@.len() >= width,
            c0.boards.multiplied@.len() >= width,
            c0.reels@.len() >= width,
            forall|k: int| i <= k < c0.boards.unique@.len() ==> category.boards.unique@[k] == c0.boards.unique@[k],
            forall|k: int|
                0 <= k < i ==> #[trigger] reel_builds(
                    c0.boards.filtered@[k].instanses@.len() as int,
                    c0.boards.unique@[k],
                    height as int,
                ),
            forall|k: int|
                0 <= k < i ==> #[trigger] reel_made(
                    c0.boards.filtered@[k].instanses@,
                    c0.boards.unique@[k],
                    category.boards.unique@[k],
                    category.boards.multiplied@[k].instanses@,
                    category.reels@[k].instanses@,
                    height as int,
                    can_skip_reel_collect_after_timeout,
                    identical_complete,
                ),
        decreases width - i,
    {
        let ghost before = *category;
        let built = build_reel(
            &category.boards.filtered[i].instanses,
            &mut category.boards.unique[i],
            height,
            can_skip_reel_collect_after_timeout,
            skip_collect_timeout_sec,
            identical_complete,
        );
        match built {
            None => {
                assert(!reel_builds(
                    c0.boards.filtered@[i as int].instanses@.len() as int,
                    c0.boards.unique@[i as int],
                    height as int,
                ));
                return false;
            },
            Some((m, reels)) => {
                let ghost after_unique = category.boards.unique@[i as int];
                category.boards.multiplied[i] = m;
                category.reels[i].instanses = reels;
                proof {
                    assert(c0.boards.unique@[i as int] == before.boards.unique@[i as int]);
                    assert(reel_made(
                        c0.boards.filtered@[i as int].instanses@,
                        c0.boards.unique@[i as int],
                        category.boards.unique@[i as int],
                        category.boards.multiplied@[i as int].instanses@,
                        category.reels@[i as int].instanses@,
                        height as int,
                        can_skip_reel_collect_after_timeout,
                        identical_complete,
                    ));
                    assert forall|k: int| 0 <= k < i implies #[trigger] reel_made(
                        c0.boards.filtered@[k].instanses@,
                        c0.boards.unique@[k],
                        category.boards.unique@[k],
                        category.boards.multiplied@[k].instanses@,
                        category.reels@[k].instanses@,
                        height as int,
                        can_skip_reel_collect_after_timeout,
                        identical_complete,
                    ) by {
                        assert(category.boards.unique@[k] == before.boards.unique@[k]);
                        assert(category.boards.multiplied@[k] == before.boards.multiplied@[k]);
                        assert(category.reels@[k] == before.reels@[k]);
                    }
                }
            },
        }
        i = i + 1;
    }
    true
}

/// The settings of a game's reel building.
pub struct GameSettings {
    pub width: usize,
    pub height: usize,
    pub appearing_symbols: Vec<i64>,
    pub can_skip_reel_collect_after_timeout: bool,
    pub skip_collect_timeout_sec: u64,
    pub identical_complete: bool,
}

/// An integer setting, or `default` when it is missing or not an integer.
pub open spec fn int_or(o: Option<i64>, default: i64) -> i64 {
    match o {
        Some(n) => n,
        None => default,
    }
}

/// A flag setting, or `default` when it is missing or not a flag.
pub open spec fn flag_or(o: Option<bool>, default: bool) -> bool {
    match o {
        Some(b) => b,
        None => default,
    }
}

/// Reads the settings from a game's configuration: `width` (5 by default), `height` (3),
/// the integers of `appearing_symbols` (none), `can_skip_reel_collect_after_timeout`
/// (yes), `skip_collect_timeout_sec` (5) and `identical_complete` (yes).
pub fn read_settings(config: &Json) -> (r: GameSettings)
    ensures
        r.width == int_or(as_int(get(Some(jv(*config)), "width"@)), 5) as usize,
        r.height == int_or(as_int(get(Some(jv(*config)), "height"@)), 3) as usize,
        r.appearing_symbols@ == match as_list(get(Some(jv(*config)), "appearing_symbols"@)) {
            Some(xs) => ints_in(xs),
            None => Seq::empty(),
        },
        r.can_skip_reel_collect_after_timeout == flag_or(
            as_flag(get(Some(jv(*config)), "can_skip_reel_collect_after_timeout"@)),
            true,
        ),
        r.skip_collect_timeout_sec == int_or(as_int(get(Some(jv(*config)), "skip_collect_timeout_sec"@)), 5) as u64,
        r.identical_complete == flag_or(as_flag(get(Some(jv(*config)), "identical_complete"@)), true),
{
    let c = Some(config);
    let width = match get_i64(get_key(c, "width")) {
        Some(n) => n,
        None => 5,
    };
    let height = match get_i64(get_key(c, "height")) {
        Some(n) => n,
        None => 3,
    };
    let mut appearing: Vec<i64> = Vec::new();
    match get_array(get_key(c, "appearing_symbols")) {
        Some(xs) => {
            proof {
                lemma_jv_list(xs@);
            }
            let ghost s = jv_list(xs@);
            let mut j: usize = 0;
            while j < xs.len()
                invariant
                    j <= xs@.len(),
                    s == jv_list(xs@),
                    s.len() == xs@.len(),
                    forall|t: int| 0 <= t < xs@.len() ==> #[trigger] s[t] == jv(xs@[t]),
                    appearing@ == ints_in(s.take(j as int)),
                decreases xs@.len() - j,
            {
                assert(s.take(j + 1).drop_last() =~= s.take(j as int));
                assert(s.take(j + 1).last() == jv(xs@[j as int]));
                match &xs[j] {
                    Json::Int(n) => {
                        appearing.push(*n);
                    },
                    _ => {},
                }
                j = j + 1;
            }
            assert(s.take(xs@.len() as int) =~= s);
        },
        None => {},
    }
    let can_skip = match get_bool(get_key(c, "can_skip_reel_collect_after_timeout")) {
        Some(b) => b,
        None => true,
    };
    let timeout = match get_i64(get_key(c, "skip_collect_timeout_sec")) {
        Some(n) => n,
        None => 5,
    };
    let identical = match get_bool(get_key(c, "identical_complete")) {
        Some(b) => b,
        None => true,
    };
    GameSettings {
        width: #[verifier::truncate] (width as usize),
        height: #[verifier::truncate] (height as usize),
        appearing_symbols: appearing,
        can_skip_reel_collect_after_timeout: can_skip,
        skip_collect_timeout_sec: #[verifier::truncate] (timeout as u64),
        identical_complete: identical,
    }
}

/// Multiplying the distinct boards keeps every one of them, in its place and with at
/// least one copy.
pub proof fn law_multiplying_keeps_every_board(
    f: int,
    ub0: UniqueBoardsInstanse,
    ub1: UniqueBoardsInstanse,
    m: MultiplayedBoardsInstanse,
    height: int,
)
    requires
        multiplied_by(f, ub0, ub1, m, height),
    ensures
        m.instanses@.len() >= ub0.instanses@.len(),
        forall|i: int|
            0 <= i < ub0.instanses@.len() ==> #[trigger] m.instanses@[i].board@ == ub0.instanses@[i].board@
                && m.instanses@[i].count >= 1,
{
    let ub = ub0.instanses@;
    if spread(f, ub.len() as int) >= 100 {
        let fa = ub1.frequency_average as int;
        assert forall|i: int| 0 <= i < ub0.instanses@.len() implies #[trigger] m.instanses@[i].board@
            == ub0.instanses@[i].board@ && m.instanses@[i].count >= 1 by {
            let c = ub[i].count as int;
            assert((2 * c + fa) / (2 * fa) >= 0) by (nonlinear_arith)
                requires
                    c >= 0,
                    fa >= 1,
            ;
            assert(m.instanses@[i].board@ == ub[i].board@);
            assert(m.instanses@[i].count == scaled_count(c, fa));
        }
    } else {
        let cm = board_columns(m.instanses@);
        let cu = board_columns(ub);
        let whole = if spread(f, ub.len() as int) >= 1 {
            cu + added_copies(cu, height, ub.len())
        } else {
            cu
        };
        assert(cm == whole);
        assert(cu.len() == ub.len());
        assert(cm.len() == m.instanses@.len());
        assert forall|i: int| 0 <= i < ub0.instanses@.len() implies #[trigger] m.instanses@[i].board@
            == ub0.instanses@[i].board@ && m.instanses@[i].count >= 1 by {
            assert(whole[i] == cu[i]);
            assert(cu[i] == ub[i].board@);
            assert(cm[i] == m.instanses@[i].board@);
        }
    }
}

} // verus!

