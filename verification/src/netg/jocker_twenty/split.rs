use vstd::prelude::*;

use crate::netg::jocker_twenty::actions::{
    calculate_frequency_average, counts_of, frequency_average_of,
};
use crate::netg::jocker_twenty::models::{
    Board, Boards, BoardsInstanse, Categories, Category, MultiplayedBoardsInstanse, Reel,
    UniqueBoardsInstanse, board_v, boards_v, columns, reels_v,
};
use crate::ratio::{round_div, round_div_u128, round_div_u64};
use crate::seqs::{
    copy_u8, count_of, is_perm, lemma_count_of_concat, lemma_count_of_insert, lemma_count_of_push,
    same_u8, sorted_asc,
};

verus! {

/// The value of a reel's distinct boards: their total, frequency average and boards.
pub struct UniqueV {
    pub count: u64,
    pub fa: u64,
    pub insts: Seq<(u64, Seq<u8>)>,
}

/// The value of a category, reel by reel.
pub struct CategoryV {
    pub count: i64,
    pub total: Seq<Seq<Seq<u8>>>,
    pub filtered: Seq<Seq<Seq<u8>>>,
    pub unique: Seq<UniqueV>,
    pub multiplied: Seq<Seq<(u64, Seq<u8>)>>,
    pub reels: Seq<Seq<(Seq<u8>, Seq<(u64, Seq<u8>)>, bool)>>,
}

pub open spec fn unique_v(u: UniqueBoardsInstanse) -> UniqueV {
    UniqueV { count: u.count, fa: u.frequency_average, insts: boards_v(u.instanses@) }
}

pub open spec fn category_v(c: Category) -> CategoryV {
    CategoryV {
        count: c.count,
        total: Seq::new(c.boards.total@.len(), |r: int| columns(c.boards.total@[r].instanses@)),
        filtered: Seq::new(
            c.boards.filtered@.len(),
            |r: int| columns(c.boards.filtered@[r].instanses@),
        ),
        unique: Seq::new(c.boards.unique@.len(), |r: int| unique_v(c.boards.unique@[r])),
        multiplied: Seq::new(
            c.boards.multiplied@.len(),
            |r: int| boards_v(c.boards.multiplied@[r].instanses@),
        ),
        reels: Seq::new(c.reels@.len(), |r: int| reels_v(c.reels@[r].instanses@)),
    }
}

pub open spec fn categories_v(s: Seq<Category>) -> Seq<CategoryV> {
    Seq::new(s.len(), |k: int| category_v(s[k]))
}

/// A category with `width` reels and nothing in them.
pub open spec fn empty_category(width: int) -> CategoryV {
    CategoryV {
        count: 0,
        total: Seq::new(width as nat, |r: int| Seq::empty()),
        filtered: Seq::new(width as nat, |r: int| Seq::empty()),
        unique: Seq::new(width as nat, |r: int| UniqueV { count: 0, fa: 0, insts: Seq::empty() }),
        multiplied: Seq::new(width as nat, |r: int| Seq::empty()),
        reels: Seq::new(width as nat, |r: int| Seq::empty()),
    }
}

/// Whether the kept and distinct boards of the category have an entry for each of
/// `width` reels.
pub open spec fn wide(c: CategoryV, width: int) -> bool {
    &&& c.filtered.len() >= width
    &&& c.unique.len() >= width
}

/// `st` with empty categories appended until it holds `n` of them.
pub open spec fn grow(st: Seq<CategoryV>, n: int, width: int) -> Seq<CategoryV> {
    if st.len() >= n {
        st
    } else {
        st + Seq::new((n - st.len()) as nat, |k: int| empty_category(width))
    }
}

pub open spec fn with_unique(st: Seq<CategoryV>, k: int, i: int, u: UniqueV) -> Seq<CategoryV> {
    st.update(
        k,
        CategoryV {
            count: st[k].count,
            total: st[k].total,
            filtered: st[k].filtered,
            unique: st[k].unique.update(i, u),
            multiplied: st[k].multiplied,
            reels: st[k].reels,
        },
    )
}

pub open spec fn with_filtered(st: Seq<CategoryV>, k: int, i: int, f: Seq<Seq<u8>>) -> Seq<CategoryV> {
    st.update(
        k,
        CategoryV {
            count: st[k].count,
            total: st[k].total,
            filtered: st[k].filtered.update(i, f),
            unique: st[k].unique,
            multiplied: st[k].multiplied,
            reels: st[k].reels,
        },
    )
}

pub open spec fn with_total(st: Seq<CategoryV>, k: int, i: int, t: Seq<Seq<u8>>) -> Seq<CategoryV> {
    st.update(
        k,
        CategoryV {
            count: st[k].count,
            total: st[k].total.update(i, t),
            filtered: st[k].filtered,
            unique: st[k].unique,
            multiplied: st[k].multiplied,
            reels: st[k].reels,
        },
    )
}

/// The counts of a list of counted boards.
pub open spec fn counts_v(s: Seq<(u64, Seq<u8>)>) -> Seq<u64> {
    Seq::new(s.len(), |j: int| s[j].0)
}

/// The counts of `s` in ascending order.
pub open spec fn sorted_counts(s: Seq<u64>) -> Seq<u64> {
    choose|t: Seq<u64>| sorted_asc(t) && is_perm(t, s)
}

/// The frequency average of a list of counted boards.
pub open spec fn average_of(s: Seq<(u64, Seq<u8>)>) -> int {
    frequency_average_of(sorted_counts(counts_v(s)))
}

pub open spec fn has_positive(s: Seq<(u64, Seq<u8>)>) -> bool {
    exists|j: int| 0 <= j < s.len() && #[trigger] s[j].0 > 0
}

pub open spec fn max_count(s: Seq<(u64, Seq<u8>)>) -> int
    decreases s.len(),
{
    if s.len() == 0 {
        0
    } else if max_count(s.drop_last()) >= s.last().0 {
        max_count(s.drop_last())
    } else {
        s.last().0 as int
    }
}

pub open spec fn total_v(s: Seq<(u64, Seq<u8>)>) -> int
    decreases s.len(),
{
    if s.len() == 0 {
        0
    } else {
        total_v(s.drop_last()) + s.last().0
    }
}

/// The boards whose count is less than five times `fa`, rounded.
pub open spec fn light(s: Seq<(u64, Seq<u8>)>, fa: int) -> Seq<(u64, Seq<u8>)>
    decreases s.len(),
{
    if s.len() == 0 {
        Seq::empty()
    } else if round_div(s.last().0 as int, fa) < 5 {
        light(s.drop_last(), fa).push(s.last())
    } else {
        light(s.drop_last(), fa)
    }
}

/// The boards whose count is more than five times `fa`, rounded.
pub open spec fn heavy(s: Seq<(u64, Seq<u8>)>, fa: int) -> Seq<(u64, Seq<u8>)>
    decreases s.len(),
{
    if s.len() == 0 {
        Seq::empty()
    } else if round_div(s.last().0 as int, fa) > 5 {
        heavy(s.drop_last(), fa).push(s.last())
    } else {
        heavy(s.drop_last(), fa)
    }
}

pub open spec fn lists_board(us: Seq<(u64, Seq<u8>)>, b: Seq<u8>) -> bool {
    exists|j: int| 0 <= j < us.len() && #[trigger] us[j].1 == b
}

/// The columns of `fs` that `us` lists (`keep`), or that it does not (`!keep`).
pub open spec fn sift(fs: Seq<Seq<u8>>, us: Seq<(u64, Seq<u8>)>, keep: bool) -> Seq<Seq<u8>>
    decreases fs.len(),
{
    if fs.len() == 0 {
        Seq::empty()
    } else if lists_board(us, fs.last()) == keep {
        sift(fs.drop_last(), us, keep).push(fs.last())
    } else {
        sift(fs.drop_last(), us, keep)
    }
}

proof fn lemma_counts_bridge(u: UniqueBoardsInstanse)
    ensures
        counts_v(boards_v(u.instanses@)) == counts_of(u.instanses@),
{
    assert(counts_v(boards_v(u.instanses@)) =~= counts_of(u.instanses@));
}

/// Sets the frequency average of `u` from its boards' counts (`average_of`).
pub fn refresh_average(u: &mut UniqueBoardsInstanse)
    requires
        has_positive(boards_v(old(u).instanses@)),
    ensures
        unique_v(*final(u)) == (UniqueV {
            count: old(u).count,
            fa: average_of(boards_v(old(u).instanses@)) as u64,
            insts: boards_v(old(u).instanses@),
        }),
        final(u).frequency_average >= 1,
        final(u).frequency_average == average_of(boards_v(old(u).instanses@)),
{
    let ghost s = boards_v(u.instanses@);
    proof {
        let j = choose|j: int| 0 <= j < s.len() && #[trigger] s[j].0 > 0;
        assert(u.instanses@[j].count > 0);
        lemma_counts_bridge(*u);
    }
    calculate_frequency_average(u);
    proof {
        let cs = counts_of(u.instanses@);
        let w = choose|t: Seq<u64>|
            sorted_asc(t) && is_perm(t, cs) && u.frequency_average == frequency_average_of(t);
        assert(sorted_asc(w) && is_perm(w, cs));
        let t = sorted_counts(cs);
        assert(sorted_asc(t) && is_perm(t, cs));
        crate::netg::jocker_twenty::actions::law_frequency_average_order_free(cs, cs, w, t);
        assert(boards_v(u.instanses@) == s);
    }
}

/// Whether some board of `v` has a positive count.
pub fn has_positive_exec(v: &Vec<Board>) -> (r: bool)
    ensures
        r == has_positive(boards_v(v@)),
{
    let mut j: usize = 0;
    while j < v.len()
        invariant
            j <= v.len(),
            forall|t: int| 0 <= t < j ==> v@[t].count == 0,
        decreases v.len() - j,
    {
        if v[j].count > 0 {
            assert(boards_v(v@)[j as int].0 > 0);
            return true;
        }
        j = j + 1;
    }
    proof {
        if has_positive(boards_v(v@)) {
            let t = choose|t: int| 0 <= t < boards_v(v@).len() && #[trigger] boards_v(v@)[t].0 > 0;
            assert(v@[t].count > 0);
        }
    }
    false
}

/// The largest count of `v` (0 when it is empty).
pub fn max_count_exec(v: &Vec<Board>) -> (r: u64)
    ensures
        r == max_count(boards_v(v@)),
{
    let ghost s = boards_v(v@);
    let mut m: u64 = 0;
    let mut j: usize = 0;
    while j < v.len()
        invariant
            j <= v.len(),
            s == boards_v(v@),
            m == max_count(s.take(j as int)),
        decreases v.len() - j,
    {
        assert(s.take(j + 1).drop_last() =~= s.take(j as int));
        if v[j].count > m {
            m = v[j].count;
        }
        j = j + 1;
    }
    assert(s.take(v.len() as int) =~= s);
    m
}

/// The sum of the counts of `v`, or `None` when it passes `u64::MAX`.
pub fn total_exec(v: &Vec<Board>) -> (r: Option<u64>)
    ensures
        match r {
            Some(t) => t == total_v(boards_v(v@)),
            None => total_v(boards_v(v@)) > u64::MAX,
        },
{
    let ghost s = boards_v(v@);
    let mut t: u64 = 0;
    let mut j: usize = 0;
    while j < v.len()
        invariant
            j <= v.len(),
            s == boards_v(v@),
            t == total_v(s.take(j as int)),
        decreases v.len() - j,
    {
        assert(s.take(j + 1).drop_last() =~= s.take(j as int));
        if v[j].count > u64::MAX - t {
            proof {
                lemma_total_prefix_mono(s, j + 1);
            }
            return None;
        }
        t = t + v[j].count;
        j = j + 1;
    }
    assert(s.take(v.len() as int) =~= s);
    Some(t)
}

proof fn lemma_total_prefix_mono(s: Seq<(u64, Seq<u8>)>, n: int)
    requires
        0 <= n <= s.len(),
    ensures
        total_v(s.take(n)) <= total_v(s),
    decreases s.len() - n,
{
    if n < s.len() {
        lemma_total_prefix_mono(s, n + 1);
        assert(s.take(n + 1).drop_last() =~= s.take(n));
    } else {
        assert(s.take(n) =~= s);
    }
}

/// The boards of `v` that are light and heavy against `fa`, in order, copied.
pub fn weigh(v: &Vec<Board>, fa: u64) -> (r: (Vec<Board>, Vec<Board>))
    requires
        fa >= 1,
    ensures
        boards_v(r.0@) == light(boards_v(v@), fa as int),
        boards_v(r.1@) == heavy(boards_v(v@), fa as int),
{
    let ghost s = boards_v(v@);
    let mut l: Vec<Board> = Vec::new();
    let mut h: Vec<Board> = Vec::new();
    let mut j: usize = 0;
    while j < v.len()
        invariant
            j <= v.len(),
            fa >= 1,
            s == boards_v(v@),
            boards_v(l@) == light(s.take(j as int), fa as int),
            boards_v(h@) == heavy(s.take(j as int), fa as int),
        decreases v.len() - j,
    {
        assert(s.take(j + 1).drop_last() =~= s.take(j as int));
        let q = round_div_u64(v[j].count, fa);
        if q < 5 {
            let b = v[j].duplicate();
            l.push(b);
            assert(boards_v(l@) =~= boards_v(l@.drop_last()).push(board_v(b)));
        } else if q > 5 {
            let b = v[j].duplicate();
            h.push(b);
            assert(boards_v(h@) =~= boards_v(h@.drop_last()).push(board_v(b)));
        }
        j = j + 1;
    }
    assert(s.take(v.len() as int) =~= s);
    (l, h)
}

/// Whether `us` lists the board `b`.
pub fn lists_board_exec(us: &Vec<Board>, b: &Vec<u8>) -> (r: bool)
    ensures
        r == lists_board(boards_v(us@), b@),
{
    let mut j: usize = 0;
    while j < us.len()
        invariant
            j <= us.len(),
            forall|t: int| 0 <= t < j ==> us@[t].board@ != b@,
        decreases us.len() - j,
    {
        if same_u8(&us[j].board, b) {
            assert(boards_v(us@)[j as int].1 == b@);
            return true;
        }
        j = j + 1;
    }
    proof {
        if lists_board(boards_v(us@), b@) {
            let t = choose|t: int| 0 <= t < boards_v(us@).len() && #[trigger] boards_v(us@)[t].1 == b@;
            assert(us@[t].board@ == b@);
        }
    }
    false
}

/// The columns of `fs` that `us` lists, and those it does not, in order, copied.
pub fn sift_exec(fs: &Vec<Vec<u8>>, us: &Vec<Board>) -> (r: (Vec<Vec<u8>>, Vec<Vec<u8>>))
    ensures
        columns(r.0@) == sift(columns(fs@), boards_v(us@), true),
        columns(r.1@) == sift(columns(fs@), boards_v(us@), false),
{
    let ghost s = columns(fs@);
    let ghost u = boards_v(us@);
    let mut a: Vec<Vec<u8>> = Vec::new();
    let mut b: Vec<Vec<u8>> = Vec::new();
    let mut j: usize = 0;
    while j < fs.len()
        invariant
            j <= fs.len(),
            s == columns(fs@),
            u == boards_v(us@),
            columns(a@) == sift(s.take(j as int), u, true),
            columns(b@) == sift(s.take(j as int), u, false),
        decreases fs.len() - j,
    {
        assert(s.take(j + 1).drop_last() =~= s.take(j as int));
        let c = copy_u8(&fs[j]);
        if lists_board_exec(us, &fs[j]) {
            a.push(c);
            assert(columns(a@) =~= columns(a@.drop_last()).push(c@));
        } else {
            b.push(c);
            assert(columns(b@) =~= columns(b@.drop_last()).push(c@));
        }
        j = j + 1;
    }
    assert(s.take(fs.len() as int) =~= s);
    (a, b)
}

/// Categories that agree everywhere except, in category `k`, on the distinct boards of reel `i`.
pub proof fn lemma_with_unique(a: Seq<Category>, b: Seq<Category>, k: int, i: int)
    requires
        0 <= k < a.len(),
        b.len() == a.len(),
        0 <= i < a[k].boards.unique@.len(),
        forall|j: int| 0 <= j < a.len() && j != k ==> b[j] == a[j],
        b[k].count == a[k].count,
        b[k].boards.total == a[k].boards.total,
        b[k].boards.filtered == a[k].boards.filtered,
        b[k].boards.multiplied == a[k].boards.multiplied,
        b[k].reels == a[k].reels,
        b[k].boards.unique@ == a[k].boards.unique@.update(i, b[k].boards.unique@[i]),
    ensures
        categories_v(b) == with_unique(categories_v(a), k, i, unique_v(b[k].boards.unique@[i])),
{
    let ca = category_v(a[k]);
    let cb = category_v(b[k]);
    assert(cb.unique =~= ca.unique.update(i, unique_v(b[k].boards.unique@[i])));
    assert(categories_v(b) =~= with_unique(categories_v(a), k, i, unique_v(b[k].boards.unique@[i])));
}

/// Categories that agree everywhere except, in category `k`, on the kept boards of reel `i`.
pub proof fn lemma_with_filtered(a: Seq<Category>, b: Seq<Category>, k: int, i: int)
    requires
        0 <= k < a.len(),
        b.len() == a.len(),
        0 <= i < a[k].boards.filtered@.len(),
        forall|j: int| 0 <= j < a.len() && j != k ==> b[j] == a[j],
        b[k].count == a[k].count,
        b[k].boards.total == a[k].boards.total,
        b[k].boards.unique == a[k].boards.unique,
        b[k].boards.multiplied == a[k].boards.multiplied,
        b[k].reels == a[k].reels,
        b[k].boards.filtered@ == a[k].boards.filtered@.update(i, b[k].boards.filtered@[i]),
    ensures
        categories_v(b) == with_filtered(
            categories_v(a),
            k,
            i,
            columns(b[k].boards.filtered@[i].instanses@),
        ),
{
    let ca = category_v(a[k]);
    let cb = category_v(b[k]);
    assert(cb.filtered =~= ca.filtered.update(i, columns(b[k].boards.filtered@[i].instanses@)));
    assert(categories_v(b) =~= with_filtered(
        categories_v(a),
        k,
        i,
        columns(b[k].boards.filtered@[i].instanses@),
    ));
}

/// Categories that agree everywhere except, in category `k`, on all boards of reel `i`.
pub proof fn lemma_with_total(a: Seq<Category>, b: Seq<Category>, k: int, i: int)
    requires
        0 <= k < a.len(),
        b.len() == a.len(),
        0 <= i < a[k].boards.total@.len(),
        forall|j: int| 0 <= j < a.len() && j != k ==> b[j] == a[j],
        b[k].count == a[k].count,
        b[k].boards.filtered == a[k].boards.filtered,
        b[k].boards.unique == a[k].boards.unique,
        b[k].boards.multiplied == a[k].boards.multiplied,
        b[k].reels == a[k].reels,
        b[k].boards.total@ == a[k].boards.total@.update(i, b[k].boards.total@[i]),
    ensures
        categories_v(b) == with_total(categories_v(a), k, i, columns(b[k].boards.total@[i].instanses@)),
{
    let ca = category_v(a[k]);
    let cb = category_v(b[k]);
    assert(cb.total =~= ca.total.update(i, columns(b[k].boards.total@[i].instanses@)));
    assert(categories_v(b) =~= with_total(
        categories_v(a),
        k,
        i,
        columns(b[k].boards.total@[i].instanses@),
    ));
}

/// A category with `width` empty reels.
pub fn empty_category_exec(width: usize) -> (c: Category)
    ensures
        category_v(c) == empty_category(width as int),
{
    let mut total: Vec<BoardsInstanse> = Vec::new();
    let mut filtered: Vec<BoardsInstanse> = Vec::new();
    let mut unique: Vec<UniqueBoardsInstanse> = Vec::new();
    let mut multiplied: Vec<MultiplayedBoardsInstanse> = Vec::new();
    let mut reels: Vec<Reel> = Vec::new();
    let mut j: usize = 0;
    while j < width
        invariant
            j <= width,
            total@.len() == j && filtered@.len() == j && unique@.len() == j,
            multiplied@.len() == j && reels@.len() == j,
            forall|t: int| 0 <= t < j ==> (#[trigger] total@[t]).instanses@.len() == 0,
            forall|t: int| 0 <= t < j ==> (#[trigger] filtered@[t]).instanses@.len() == 0,
            forall|t: int| 0 <= t < j ==> (#[trigger] multiplied@[t]).instanses@.len() == 0,
            forall|t: int| 0 <= t < j ==> (#[trigger] reels@[t]).instanses@.len() == 0,
            forall|t: int|
                0 <= t < j ==> (#[trigger] unique@[t]).count == 0 && unique@[t].frequency_average == 0
                    && unique@[t].instanses@.len() == 0,
        decreases width - j,
    {
        total.push(BoardsInstanse { instanses: Vec::new() });
        filtered.push(BoardsInstanse { instanses: Vec::new() });
        unique.push(UniqueBoardsInstanse { count: 0, frequency_average: 0, instanses: Vec::new() });
        multiplied.push(MultiplayedBoardsInstanse { instanses: Vec::new() });
        reels.push(Reel { instanses: Vec::new() });
        j = j + 1;
    }
    let c = Category {
        count: 0,
        boards: Boards { total, filtered, unique, multiplied },
        reels,
    };
    let ghost e = empty_category(width as int);
    let ghost v = category_v(c);
    assert forall|t: int| 0 <= t < width implies v.total[t] == e.total[t] && v.filtered[t]
        == e.filtered[t] && v.multiplied[t] == e.multiplied[t] && v.reels[t] == e.reels[t] by {
        assert(columns(c.boards.total@[t].instanses@) =~= Seq::<Seq<u8>>::empty());
        assert(columns(c.boards.filtered@[t].instanses@) =~= Seq::<Seq<u8>>::empty());
        assert(boards_v(c.boards.multiplied@[t].instanses@) =~= Seq::<(u64, Seq<u8>)>::empty());
        assert(reels_v(c.reels@[t].instanses@) =~= Seq::<(Seq<u8>, Seq<(u64, Seq<u8>)>, bool)>::empty());
    }
    assert(v.total =~= e.total);
    assert(v.filtered =~= e.filtered);
    assert(v.multiplied =~= e.multiplied);
    assert(v.reels =~= e.reels);
    assert forall|t: int| 0 <= t < width implies v.unique[t] == e.unique[t] by {
        assert(boards_v(c.boards.unique@[t].instanses@) =~= Seq::<(u64, Seq<u8>)>::empty());
    }
    assert(v.unique =~= e.unique);
    c
}

/// Appends empty categories of `width` reels until there are `n`.
pub fn grow_exec(cats: &mut Vec<Category>, n: usize, width: usize)
    ensures
        categories_v(final(cats)@) == grow(categories_v(old(cats)@), n as int, width as int),
        final(cats)@.len() == if old(cats)@.len() >= n { old(cats)@.len() as int } else { n as int },
{
    let ghost a = categories_v(cats@);
    let ghost n0 = cats@.len();
    while cats.len() < n
        invariant
            n0 == old(cats)@.len(),
            a == categories_v(old(cats)@),
            n0 <= cats@.len(),
            n0 < n ==> cats@.len() <= n,
            n0 >= n ==> cats@.len() == n0,
            categories_v(cats@) == a + Seq::new(
                (cats@.len() - n0) as nat,
                |k: int| empty_category(width as int),
            ),
        decreases n - cats.len(),
    {
        let c = empty_category_exec(width);
        let ghost before = categories_v(cats@);
        cats.push(c);
        assert(categories_v(cats@) =~= before.push(category_v(c)));
        assert(categories_v(cats@) =~= a + Seq::new(
            (cats@.len() - n0) as nat,
            |k: int| empty_category(width as int),
        ));
    }
    proof {
        if n0 >= n {
            assert(categories_v(cats@) =~= a);
        }
    }
}

/// Whether every category has an entry for each of `width` reels.
pub open spec fn all_wide(st: Seq<CategoryV>, width: int) -> bool {
    forall|k: int| 0 <= k < st.len() ==> wide(#[trigger] st[k], width)
}

/// One round on reel `i` of the first category: its frequency average is renewed; when
/// its largest count is more than five averages (rounded), the boards lighter than five
/// averages move with their count to category `cn + 1` (made if missing), whose average
/// is renewed; the first category keeps the boards heavier than five averages (those of
/// exactly five are dropped) and gives its kept columns of those boards to that category.
/// The flag says whether boards moved. `None` where the round cannot go through: a missing
/// positive count, a count that would go below zero or past `u64::MAX`.
pub open spec fn settle_round(st: Seq<CategoryV>, i: int, cn: int, width: int) -> Option<(Seq<CategoryV>, bool)> {
    let u = st[0].unique[i];
    if !has_positive(u.insts) {
        None
    } else {
        let fa = average_of(u.insts);
        let st0 = with_unique(st, 0, i, UniqueV { count: u.count, fa: fa as u64, insts: u.insts });
        if round_div(max_count(u.insts), fa) <= 5 {
            Some((st0, false))
        } else if cn + 2 > usize::MAX {
            None
        } else {
            let st1 = grow(st0, cn + 2, width);
            let pushed = light(u.insts, fa);
            let sum = total_v(pushed);
            let dinsts = st1[cn + 1].unique[i].insts + pushed;
            if sum > u64::MAX || !has_positive(dinsts) || u.count < sum {
                None
            } else {
                let st2 = with_unique(
                    st1,
                    cn + 1,
                    i,
                    UniqueV { count: sum as u64, fa: average_of(dinsts) as u64, insts: dinsts },
                );
                let st3 = with_unique(
                    st2,
                    0,
                    i,
                    UniqueV { count: (u.count - sum) as u64, fa: fa as u64, insts: heavy(u.insts, fa) },
                );
                let f0 = st3[0].filtered[i];
                let st4 = with_filtered(st3, cn + 1, i, st3[cn + 1].filtered[i] + sift(f0, dinsts, true));
                Some((with_filtered(st4, 0, i, sift(f0, dinsts, false)), true))
            }
        }
    }
}

/// The rounds on reel `i`, from target category `cn + 1`, until one moves nothing.
pub open spec fn settle_from(st: Seq<CategoryV>, i: int, cn: int, width: int) -> Option<Seq<CategoryV>>
    decreases st[0].unique[i].insts.len(),
{
    match settle_round(st, i, cn, width) {
        None => None,
        Some(r) => {
            if !r.1 {
                Some(r.0)
            } else if r.0[0].unique[i].insts.len() < st[0].unique[i].insts.len() {
                settle_from(r.0, i, cn + 1, width)
            } else {
                None
            }
        },
    }
}

proof fn lemma_grow_wide(st: Seq<CategoryV>, n: int, width: int)
    requires
        all_wide(st, width),
        width >= 0,
    ensures
        all_wide(grow(st, n, width), width),
        grow(st, n, width).len() >= n,
        grow(st, n, width).len() >= st.len(),
        forall|k: int| 0 <= k < st.len() ==> grow(st, n, width)[k] == st[k],
{
}

/// Runs the rounds on reel `i`; `false` exactly where `settle_from` is `None`.
fn settle_reel(cats: &mut Vec<Category>, i: usize, width: usize) -> (ok: bool)
    requires
        i < width,
        old(cats)@.len() >= 1,
        all_wide(categories_v(old(cats)@), width as int),
    ensures
        ok == settle_from(categories_v(old(cats)@), i as int, 0, width as int) is Some,
        ok ==> categories_v(final(cats)@) == settle_from(
            categories_v(old(cats)@),
            i as int,
            0,
            width as int,
        )->0,
        ok ==> final(cats)@.len() >= old(cats)@.len(),
        ok ==> all_wide(categories_v(final(cats)@), width as int),
{
    let ghost goal = settle_from(categories_v(cats@), i as int, 0, width as int);
    let ghost n0 = cats@.len();
    let mut cn: usize = 0;
    loop
        invariant
            i < width,
            cats@.len() >= n0,
            n0 >= 1,
            cn < cats@.len(),
            all_wide(categories_v(cats@), width as int),
            goal == settle_from(categories_v(cats@), i as int, cn as int, width as int),
            goal == settle_from(categories_v(old(cats)@), i as int, 0, width as int),
            n0 == old(cats)@.len(),
        decreases cats@[0].boards.unique@[i as int].instanses@.len(),
    {
        let ghost st = categories_v(cats@);
        let ghost c0 = cats@;
        assert(wide(st[0], width as int));
        assert(st[0].unique[i as int] == unique_v(cats@[0].boards.unique@[i as int]));
        if !has_positive_exec(&cats[0].boards.unique[i].instanses) {
            assert(settle_round(st, i as int, cn as int, width as int) is None);
            assert(settle_from(st, i as int, cn as int, width as int) is None);
            return false;
        }
        refresh_average(&mut cats[0].boards.unique[i]);
        proof {
            lemma_with_unique(c0, cats@, 0, i as int);
        }
        let fa = cats[0].boards.unique[i].frequency_average;
        let mx = max_count_exec(&cats[0].boards.unique[i].instanses);
        if round_div_u64(mx, fa) <= 5 {
            return true;
        }
        if cn > usize::MAX - 2 {
            return false;
        }
        let ghost st0 = categories_v(cats@);
        let len0 = cats[0].boards.unique[i].instanses.len();
        grow_exec(cats, cn + 2, width);
        proof {
            lemma_grow_wide(st0, cn + 2, width as int);
        }
        let ghost st1 = categories_v(cats@);
        let d = cn + 1;
        assert(wide(st1[d as int], width as int));
        let (pushed, heavier) = weigh(&cats[0].boards.unique[i].instanses, fa);
        let ghost u = st[0].unique[i as int];
        assert(st0[0].unique[i as int] == (UniqueV { count: u.count, fa: fa, insts: u.insts }));
        assert(st1[0] == st0[0]);
        assert(st1[0].unique[i as int] == unique_v(cats@[0].boards.unique@[i as int]));
        assert(u.insts == boards_v(cats@[0].boards.unique@[i as int].instanses@));
        assert(fa == average_of(u.insts));
        assert(st0 == with_unique(st, 0, i as int, UniqueV { count: u.count, fa: fa, insts: u.insts }));
        let sum = match total_exec(&pushed) {
            None => {
                assert(settle_round(st, i as int, cn as int, width as int) is None);
                return false;
            },
            Some(t) => t,
        };
        let ghost c1 = cats@;
        let ghost pv = boards_v(pushed@);
        let mut moving = pushed;
        cats[d].boards.unique[i].instanses.append(&mut moving);
        assert(boards_v(cats@[d as int].boards.unique@[i as int].instanses@) =~= boards_v(
            c1[d as int].boards.unique@[i as int].instanses@,
        ) + pv);
        if !has_positive_exec(&cats[d].boards.unique[i].instanses) {
            assert(st1[d as int].unique[i as int].insts == boards_v(c1[d as int].boards.unique@[i as int].instanses@));
            assert(settle_round(st, i as int, cn as int, width as int) is None);
            return false;
        }
        if cats[0].boards.unique[i].count < sum {
            return false;
        }
        cats[d].boards.unique[i].count = sum;
        refresh_average(&mut cats[d].boards.unique[i]);
        proof {
            assert(cats@[d as int].boards.unique@ =~= c1[d as int].boards.unique@.update(
                i as int,
                cats@[d as int].boards.unique@[i as int],
            ));
            lemma_with_unique(c1, cats@, d as int, i as int);
        }
        let ghost c2 = cats@;
        let left = cats[0].boards.unique[i].count - sum;
        cats[0].boards.unique[i].instanses = heavier;
        cats[0].boards.unique[i].count = left;
        proof {
            assert(cats@[0].boards.unique@ =~= c2[0].boards.unique@.update(
                i as int,
                cats@[0].boards.unique@[i as int],
            ));
            lemma_with_unique(c2, cats@, 0, i as int);
        }
        let (moved, kept) = sift_exec(&cats[0].boards.filtered[i].instanses, &cats[d].boards.unique[i].instanses);
        let ghost c3 = cats@;
        let ghost mv = columns(moved@);
        let mut moving_columns = moved;
        cats[d].boards.filtered[i].instanses.append(&mut moving_columns);
        assert(columns(cats@[d as int].boards.filtered@[i as int].instanses@) =~= columns(
            c3[d as int].boards.filtered@[i as int].instanses@,
        ) + mv);
        proof {
            lemma_with_filtered(c3, cats@, d as int, i as int);
        }
        let ghost c4 = cats@;
        cats[0].boards.filtered[i].instanses = kept;
        proof {
            lemma_with_filtered(c4, cats@, 0, i as int);
        }
        if cats[0].boards.unique[i].instanses.len() >= len0 {
            return false;
        }
        cn = d;
    }
}

/// The rounds of every reel `0..n` in turn, each after its list of all boards of the
/// first category is emptied.
pub open spec fn settle_reels(st: Seq<CategoryV>, width: int, n: nat) -> Option<Seq<CategoryV>>
    decreases n,
{
    if n == 0 {
        Some(st)
    } else {
        match settle_reels(st, width, (n - 1) as nat) {
            None => None,
            Some(s) => settle_from(with_total(s, 0, n - 1, Seq::empty()), n - 1, 0, width),
        }
    }
}

/// Whether the categories can be indexed for `width` reels as the split does.
pub open spec fn split_ready(st: Seq<CategoryV>, width: int) -> bool {
    width == 0 || (st.len() >= 1 && st[0].total.len() >= width && all_wide(st, width))
}

proof fn lemma_settle_keeps(st: Seq<CategoryV>, i: int, cn: int, width: int)
    requires
        all_wide(st, width),
        st.len() >= 1,
        0 <= i < width,
        cn >= 0,
        settle_from(st, i, cn, width) is Some,
    ensures
        all_wide(settle_from(st, i, cn, width)->0, width),
        settle_from(st, i, cn, width)->0.len() >= st.len(),
        settle_from(st, i, cn, width)->0[0].total == st[0].total,
    decreases st[0].unique[i].insts.len(),
{
    let r = settle_round(st, i, cn, width)->0;
    let u = st[0].unique[i];
    let fa = average_of(u.insts);
    let st0 = with_unique(st, 0, i, UniqueV { count: u.count, fa: fa as u64, insts: u.insts });
    assert(all_wide(st0, width)) by {
        assert forall|k: int| 0 <= k < st0.len() implies wide(#[trigger] st0[k], width) by {
            assert(wide(st[k], width));
        }
    }
    if round_div(max_count(u.insts), fa) > 5 {
        lemma_grow_wide(st0, cn + 2, width);
        let st1 = grow(st0, cn + 2, width);
        let pushed = light(u.insts, fa);
        let sum = total_v(pushed);
        let dinsts = st1[cn + 1].unique[i].insts + pushed;
        let st2 = with_unique(
            st1,
            cn + 1,
            i,
            UniqueV { count: sum as u64, fa: average_of(dinsts) as u64, insts: dinsts },
        );
        let st3 = with_unique(
            st2,
            0,
            i,
            UniqueV { count: (u.count - sum) as u64, fa: fa as u64, insts: heavy(u.insts, fa) },
        );
        let f0 = st3[0].filtered[i];
        let st4 = with_filtered(st3, cn + 1, i, st3[cn + 1].filtered[i] + sift(f0, dinsts, true));
        assert(r.0 == with_filtered(st4, 0, i, sift(f0, dinsts, false)));
        assert(r.0.len() == st1.len());
        assert(all_wide(r.0, width)) by {
            assert forall|k: int| 0 <= k < r.0.len() implies wide(#[trigger] r.0[k], width) by {
                assert(wide(st1[k], width));
            }
        }
        lemma_settle_keeps(r.0, i, cn + 1, width);
    }
}

/// Empties reel `i` of the first category's list of all boards.
fn clear_total(cats: &mut Vec<Category>, i: usize)
    requires
        old(cats)@.len() >= 1,
        i < old(cats)@[0].boards.total@.len(),
    ensures
        categories_v(final(cats)@) == with_total(categories_v(old(cats)@), 0, i as int, Seq::empty()),
        final(cats)@.len() == old(cats)@.len(),
{
    let ghost c0 = cats@;
    cats[0].boards.total[i].instanses.clear();
    proof {
        assert(cats@[0].boards.total@ =~= c0[0].boards.total@.update(i as int, cats@[0].boards.total@[i as int]));
        assert(columns(cats@[0].boards.total@[i as int].instanses@) =~= Seq::<Seq<u8>>::empty());
        lemma_with_total(c0, cats@, 0, i as int);
    }
}

/// The state of a move of boards between two categories on one reel: the running
/// average of the giving category, both distinct-board lists and both kept-board lists.
pub struct Transfer {
    pub fin: int,
    pub from: UniqueV,
    pub to: UniqueV,
    pub from_f: Seq<Seq<u8>>,
    pub to_f: Seq<Seq<u8>>,
}

/// What is left of `x` beyond the nearest multiple of `|fin|` (all of `x` when `fin` is 0).
pub open spec fn excess(x: int, fin: int) -> int {
    if fin == 0 {
        x
    } else {
        let f = if fin < 0 {
            -fin
        } else {
            fin
        };
        x - f * round_div(x, f)
    }
}

/// The first position of `b` in `fs`.
pub open spec fn first_index(fs: Seq<Seq<u8>>, b: Seq<u8>) -> Option<int>
    decreases fs.len(),
{
    if fs.len() == 0 {
        None
    } else if fs[0] == b {
        Some(0)
    } else {
        match first_index(fs.drop_first(), b) {
            Some(p) => Some(p + 1),
            None => None,
        }
    }
}

/// Moves up to `c` copies of `b`, first ones first, from `ff` to the end of `tf`.
pub open spec fn move_copies(ff: Seq<Seq<u8>>, tf: Seq<Seq<u8>>, b: Seq<u8>, c: nat) -> (Seq<Seq<u8>>, Seq<Seq<u8>>)
    decreases c,
{
    if c == 0 {
        (ff, tf)
    } else {
        match first_index(ff, b) {
            None => (ff, tf),
            Some(p) => move_copies(ff.remove(p), tf.push(b), b, (c - 1) as nat),
        }
    }
}

/// The share of a board's count that moves: the whole multiples of `fo` in its excess,
/// at least one.
pub open spec fn moved_count(b: int, fo: int) -> int {
    if b < fo {
        fo
    } else {
        (b / fo) * fo
    }
}

/// Board `k` of the giving list: when its excess over the running average `fin` lies
/// between a tenth and five times `fo`, a share (`moved_count`) of its count goes, as a
/// new entry, to the receiving list, with as many of its kept columns, and the running
/// average drops by the share spread over the `len` boards. `None` where the move cannot
/// go through: a share larger than the count, or a value past its integer type.
pub open spec fn transfer_at(t: Transfer, k: int, fo: int, len: int) -> Option<Transfer> {
    let x = t.from.insts[k].0 as int;
    let bd = t.from.insts[k].1;
    let f = if t.fin < 0 {
        -t.fin
    } else {
        t.fin
    };
    if x > i64::MAX || (t.fin != 0 && f * round_div(x, f) > i64::MAX) {
        None
    } else {
        let b = excess(x, t.fin);
        if fo > 0 && 10 * b >= fo && b <= 5 * fo {
            let c = moved_count(b, fo);
            if c > i64::MAX || t.to.count + c > u64::MAX || c > x || c > t.from.count || t.fin
                - round_div(c, len) < i64::MIN {
                None
            } else {
                let m = move_copies(t.from_f, t.to_f, bd, c as nat);
                Some(
                    Transfer {
                        fin: t.fin - round_div(c, len),
                        from: UniqueV {
                            count: (t.from.count - c) as u64,
                            fa: t.from.fa,
                            insts: t.from.insts.update(k, ((x - c) as u64, bd)),
                        },
                        to: UniqueV {
                            count: (t.to.count + c) as u64,
                            fa: t.to.fa,
                            insts: t.to.insts.push((c as u64, bd)),
                        },
                        from_f: m.0,
                        to_f: m.1,
                    },
                )
            }
        } else {
            Some(t)
        }
    }
}

/// `transfer_at` on boards `k..len` in turn.
pub open spec fn transfer_run(t: Transfer, fo: int, len: nat, k: nat) -> Option<Transfer>
    decreases len - k,
{
    if k >= len {
        Some(t)
    } else {
        match transfer_at(t, k as int, fo, len as int) {
            None => None,
            Some(t2) => transfer_run(t2, fo, len, k + 1),
        }
    }
}

/// The move on reel `i` from category `inn` to category `out`, after which both
/// frequency averages are renewed.
pub open spec fn pair_move(st: Seq<CategoryV>, i: int, out: int, inn: int) -> Option<Seq<CategoryV>> {
    let from = st[inn].unique[i];
    let to = st[out].unique[i];
    if from.fa > i64::MAX || to.fa > i64::MAX {
        None
    } else {
        let t0 = Transfer {
            fin: from.fa as int,
            from: from,
            to: to,
            from_f: st[inn].filtered[i],
            to_f: st[out].filtered[i],
        };
        match transfer_run(t0, to.fa as int, from.insts.len(), 0) {
            None => None,
            Some(t) => {
                if !has_positive(t.to.insts) || !has_positive(t.from.insts) {
                    None
                } else {
                    let s1 = with_unique(
                        st,
                        out,
                        i,
                        UniqueV { count: t.to.count, fa: average_of(t.to.insts) as u64, insts: t.to.insts },
                    );
                    let s2 = with_unique(
                        s1,
                        inn,
                        i,
                        UniqueV {
                            count: t.from.count,
                            fa: average_of(t.from.insts) as u64,
                            insts: t.from.insts,
                        },
                    );
                    let s3 = with_filtered(s2, inn, i, t.from_f);
                    Some(with_filtered(s3, out, i, t.to_f))
                }
            },
        }
    }
}

/// The moves on reel `i` into category `out` from categories `inn..out` in turn.
pub open spec fn pair_ins(st: Seq<CategoryV>, i: int, out: nat, inn: nat) -> Option<Seq<CategoryV>>
    decreases out - inn,
{
    if inn >= out {
        Some(st)
    } else {
        match pair_move(st, i, out as int, inn as int) {
            None => None,
            Some(s) => pair_ins(s, i, out, inn + 1),
        }
    }
}

/// The moves on reel `i` into categories `out..n` in turn.
pub open spec fn pair_outs(st: Seq<CategoryV>, i: int, out: nat, n: nat) -> Option<Seq<CategoryV>>
    decreases n - out,
{
    if out >= n {
        Some(st)
    } else {
        match pair_ins(st, i, out, 0) {
            None => None,
            Some(s) => pair_outs(s, i, out + 1, n),
        }
    }
}

/// The moves of reels `0..n` in turn, into every category from every earlier one.
pub open spec fn pair_reels(st: Seq<CategoryV>, n: nat) -> Option<Seq<CategoryV>>
    decreases n,
{
    if n == 0 {
        Some(st)
    } else {
        match pair_reels(st, (n - 1) as nat) {
            None => None,
            Some(s) => pair_outs(s, n - 1, 1, s.len()),
        }
    }
}

/// The first category, then the others in reverse order.
pub open spec fn reverse_tail(st: Seq<CategoryV>) -> Seq<CategoryV> {
    Seq::new(st.len(), |k: int| if k == 0 { st[0] } else { st[st.len() - k] })
}

/// What the split makes of the categories: every reel settled in turn; then, with more
/// than one category, the later ones reversed and the moves of every reel made. `None`
/// where one of these steps cannot go through.
pub open spec fn split_outcome(st: Seq<CategoryV>, width: int) -> Option<Seq<CategoryV>> {
    if !split_ready(st, width) {
        None
    } else {
        match settle_reels(st, width, width as nat) {
            None => None,
            Some(s) => {
                if s.len() > 1 {
                    pair_reels(reverse_tail(s), width as nat)
                } else {
                    Some(s)
                }
            },
        }
    }
}

proof fn lemma_round_div_times(x: int, f: int)
    requires
        x >= 0,
        f >= 1,
    ensures
        0 <= f * round_div(x, f) <= x + f,
        round_div(x, f) >= 0,
{
    assert(0 <= (2 * x + f) / (2 * f)) by (nonlinear_arith)
        requires
            x >= 0,
            f >= 1,
    ;
    assert(f * ((2 * x + f) / (2 * f)) <= x + f) by (nonlinear_arith)
        requires
            x >= 0,
            f >= 1,
    {
        let q = (2 * x + f) / (2 * f);
        assert(2 * f * q <= 2 * x + f);
    }
}

proof fn lemma_first_index(fs: Seq<Seq<u8>>, b: Seq<u8>, p: int)
    requires
        0 <= p <= fs.len(),
        forall|j: int| 0 <= j < p ==> fs[j] != b,
    ensures
        p < fs.len() && fs[p] == b ==> first_index(fs, b) == Some(p),
        p == fs.len() ==> first_index(fs, b) is None,
    decreases p,
{
    if p > 0 {
        lemma_first_index(fs.drop_first(), b, p - 1);
    } else if fs.len() > 0 {
    }
}

/// The first position of `b` in `fs`.
fn first_index_exec(fs: &Vec<Vec<u8>>, b: &Vec<u8>) -> (r: Option<usize>)
    ensures
        match r {
            Some(p) => first_index(columns(fs@), b@) == Some(p as int) && p < fs@.len(),
            None => first_index(columns(fs@), b@) is None,
        },
{
    let ghost s = columns(fs@);
    let mut p: usize = 0;
    while p < fs.len()
        invariant
            p <= fs.len(),
            s == columns(fs@),
            forall|j: int| 0 <= j < p ==> s[j] != b@,
        decreases fs.len() - p,
    {
        if same_u8(&fs[p], b) {
            proof {
                lemma_first_index(s, b@, p as int);
            }
            return Some(p);
        }
        p = p + 1;
    }
    proof {
        lemma_first_index(s, b@, p as int);
    }
    None
}

/// Moves up to `c` copies of `b` from `ff` to the end of `tf` (`move_copies`).
fn move_copies_exec(ff: &mut Vec<Vec<u8>>, tf: &mut Vec<Vec<u8>>, b: &Vec<u8>, c: u64)
    ensures
        (columns(final(ff)@), columns(final(tf)@)) == move_copies(
            columns(old(ff)@),
            columns(old(tf)@),
            b@,
            c as nat,
        ),
{
    let ghost goal = move_copies(columns(ff@), columns(tf@), b@, c as nat);
    let mut n: u64 = 0;
    while n < c
        invariant
            n <= c,
            goal == move_copies(columns(old(ff)@), columns(old(tf)@), b@, c as nat),
            goal == move_copies(columns(ff@), columns(tf@), b@, (c - n) as nat),
        decreases c - n,
    {
        match first_index_exec(ff, b) {
            None => {
                return;
            },
            Some(p) => {
                let ghost f0 = columns(ff@);
                let ghost t0 = columns(tf@);
                let col = ff.remove(p);
                tf.push(col);
                proof {
                    assert(f0[p as int] == b@) by {
                        lemma_first_index_found(f0, b@);
                    }
                    assert(columns(ff@) =~= f0.remove(p as int));
                    assert(columns(tf@) =~= t0.push(b@));
                }
            },
        }
        n = n + 1;
    }
}

proof fn lemma_first_index_found(fs: Seq<Seq<u8>>, b: Seq<u8>)
    requires
        first_index(fs, b) is Some,
    ensures
        0 <= first_index(fs, b)->0 < fs.len(),
        fs[first_index(fs, b)->0] == b,
    decreases fs.len(),
{
    if fs.len() > 0 && fs[0] != b {
        lemma_first_index_found(fs.drop_first(), b);
    }
}

/// A move between two categories on one reel, under way.
struct Moving {
    fin: i128,
    from_count: u64,
    from_fa: u64,
    from_insts: Vec<Board>,
    to_count: u64,
    to_fa: u64,
    to_insts: Vec<Board>,
    from_f: Vec<Vec<u8>>,
    to_f: Vec<Vec<u8>>,
}

spec fn moving_v(m: Moving) -> Transfer {
    Transfer {
        fin: m.fin as int,
        from: UniqueV { count: m.from_count, fa: m.from_fa, insts: boards_v(m.from_insts@) },
        to: UniqueV { count: m.to_count, fa: m.to_fa, insts: boards_v(m.to_insts@) },
        from_f: columns(m.from_f@),
        to_f: columns(m.to_f@),
    }
}

/// One step of a move (`transfer_at`); `false` exactly where it is `None`.
fn transfer_at_exec(m: &mut Moving, k: usize, fo: u64, len: usize) -> (ok: bool)
    requires
        k < old(m).from_insts@.len(),
        len >= 1,
        fo <= i64::MAX,
        i64::MIN <= old(m).fin <= i64::MAX,
    ensures
        ok == transfer_at(moving_v(*old(m)), k as int, fo as int, len as int) is Some,
        ok ==> moving_v(*final(m)) == transfer_at(moving_v(*old(m)), k as int, fo as int, len as int)->0,
        ok ==> final(m).from_insts@.len() == old(m).from_insts@.len(),
        ok ==> i64::MIN <= final(m).fin <= i64::MAX,
{
    let ghost t = moving_v(*m);
    let x = m.from_insts[k].count;
    if x > 0x7fff_ffff_ffff_ffffu64 {
        return false;
    }
    let f: u128 = if m.fin < 0 {
        (0 - m.fin) as u128
    } else {
        m.fin as u128
    };
    let b: i128 = if m.fin == 0 {
        x as i128
    } else {
        let q = round_div_u128(x as u128, f);
        proof {
            lemma_round_div_times(x as int, f as int);
        }
        let prod = f * q;
        if prod > 0x7fff_ffff_ffff_ffffu128 {
            return false;
        }
        x as i128 - prod as i128
    };
    assert(b == excess(x as int, t.fin));
    let fo_i = fo as i128;
    if fo_i > 0 && 10 * b >= fo_i && b <= 5 * fo_i {
        let c: i128 = if b < fo_i {
            fo_i
        } else {
            assert((b / fo_i) * fo_i <= b) by (nonlinear_arith)
                requires
                    b >= fo_i,
                    fo_i > 0,
            ;
            assert((b / fo_i) * fo_i >= 0) by (nonlinear_arith)
                requires
                    b >= fo_i,
                    fo_i > 0,
            ;
            (b / fo_i) * fo_i
        };
        assert(c == moved_count(b as int, fo as int));
        assert(c <= 5 * fo_i) by (nonlinear_arith)
            requires
                b < fo_i ==> c == fo_i,
                b >= fo_i ==> c == (b / fo_i) * fo_i,
                b <= 5 * fo_i,
                fo_i > 0,
        ;
        if c > 0x7fff_ffff_ffff_ffffi128 || m.to_count as i128 + c > 0xffff_ffff_ffff_ffffi128
            || c > x as i128 || c > m.from_count as i128 {
            return false;
        }
        let drop = round_div_u128(c as u128, len as u128);
        proof {
            lemma_round_div_times(c as int, len as int);
            assert(round_div(c as int, len as int) <= c) by (nonlinear_arith)
                requires
                    len >= 1,
                    len * round_div(c as int, len as int) <= c + len,
                    round_div(c as int, len as int) >= 0,
                    c >= 0,
            {
                let r = round_div(c as int, len as int);
                if r > c {
                    assert(len * r >= len * (c + 1));
                    assert(len * (c + 1) == len * c + len);
                    if c > 0 {
                        assert(len * c >= c);
                    }
                }
            }
        }
        if m.fin - (drop as i128) < -0x8000_0000_0000_0000i128 {
            return false;
        }
        let cu = c as u64;
        let bd = copy_u8(&m.from_insts[k].board);
        let ghost fi0 = m.from_insts@;
        let ghost ti0 = m.to_insts@;
        m.fin = m.fin - drop as i128;
        m.from_count = m.from_count - cu;
        m.to_count = m.to_count + cu;
        m.from_insts.set(k, Board { count: x - cu, board: copy_u8(&bd) });
        m.to_insts.push(Board { count: cu, board: copy_u8(&bd) });
        move_copies_exec(&mut m.from_f, &mut m.to_f, &bd, cu);
        proof {
            assert(boards_v(m.from_insts@) =~= boards_v(fi0).update(k as int, ((x - cu) as u64, bd@)));
            assert(boards_v(m.to_insts@) =~= boards_v(ti0).push((cu, bd@)));
        }
        true
    } else {
        true
    }
}

/// A copy of a list of columns.
pub fn copy_columns(v: &Vec<Vec<u8>>) -> (r: Vec<Vec<u8>>)
    ensures
        columns(r@) == columns(v@),
{
    let mut r: Vec<Vec<u8>> = Vec::new();
    let mut j: usize = 0;
    while j < v.len()
        invariant
            j <= v.len(),
            r@.len() == j,
            forall|t: int| 0 <= t < j ==> (#[trigger] r@[t])@ == v@[t]@,
        decreases v.len() - j,
    {
        let c = copy_u8(&v[j]);
        r.push(c);
        j = j + 1;
    }
    assert(columns(r@) =~= columns(v@));
    r
}

/// The move on reel `i` from category `inn` to category `out` (`pair_move`); `false`
/// exactly where it is `None`.
fn pair_move_exec(cats: &mut Vec<Category>, i: usize, out: usize, inn: usize, width: usize) -> (ok: bool)
    requires
        inn < out < old(cats)@.len(),
        i < width,
        all_wide(categories_v(old(cats)@), width as int),
    ensures
        ok == pair_move(categories_v(old(cats)@), i as int, out as int, inn as int) is Some,
        ok ==> categories_v(final(cats)@) == pair_move(
            categories_v(old(cats)@),
            i as int,
            out as int,
            inn as int,
        )->0,
        final(cats)@.len() == old(cats)@.len(),
        ok ==> all_wide(categories_v(final(cats)@), width as int),
{
    let ghost st = categories_v(cats@);
    assert(wide(st[inn as int], width as int) && wide(st[out as int], width as int));
    assert(st[inn as int].unique[i as int] == unique_v(cats@[inn as int].boards.unique@[i as int]));
    assert(st[out as int].unique[i as int] == unique_v(cats@[out as int].boards.unique@[i as int]));
    assert(st[inn as int].filtered[i as int] == columns(cats@[inn as int].boards.filtered@[i as int].instanses@));
    assert(st[out as int].filtered[i as int] == columns(cats@[out as int].boards.filtered@[i as int].instanses@));
    let from_fa = cats[inn].boards.unique[i].frequency_average;
    let to_fa = cats[out].boards.unique[i].frequency_average;
    if from_fa > 0x7fff_ffff_ffff_ffffu64 || to_fa > 0x7fff_ffff_ffff_ffffu64 {
        return false;
    }
    let mut m = Moving {
        fin: from_fa as i128,
        from_count: cats[inn].boards.unique[i].count,
        from_fa: from_fa,
        from_insts: crate::netg::jocker_twenty::models::copy_boards(&cats[inn].boards.unique[i].instanses),
        to_count: cats[out].boards.unique[i].count,
        to_fa: to_fa,
        to_insts: crate::netg::jocker_twenty::models::copy_boards(&cats[out].boards.unique[i].instanses),
        from_f: copy_columns(&cats[inn].boards.filtered[i].instanses),
        to_f: copy_columns(&cats[out].boards.filtered[i].instanses),
    };
    let ghost t0 = moving_v(m);
    let ghost goal = transfer_run(t0, to_fa as int, t0.from.insts.len(), 0);
    assert(t0 == Transfer {
        fin: st[inn as int].unique[i as int].fa as int,
        from: st[inn as int].unique[i as int],
        to: st[out as int].unique[i as int],
        from_f: st[inn as int].filtered[i as int],
        to_f: st[out as int].filtered[i as int],
    });
    assert(to_fa == st[out as int].unique[i as int].fa);
    assert(pair_move(st, i as int, out as int, inn as int) is Some ==> goal is Some);
    let len = m.from_insts.len();
    let mut k: usize = 0;
    while k < len
        invariant
            k <= len,
            len == m.from_insts@.len(),
            len == t0.from.insts.len(),
            to_fa <= i64::MAX,
            i64::MIN <= m.fin <= i64::MAX,
            goal == transfer_run(t0, to_fa as int, len as nat, 0),
            goal == transfer_run(moving_v(m), to_fa as int, len as nat, k as nat),
            pair_move(st, i as int, out as int, inn as int) is Some ==> goal is Some,
            st == categories_v(old(cats)@),
        decreases len - k,
    {
        let ghost tk = moving_v(m);
        if !transfer_at_exec(&mut m, k, to_fa, len) {
            assert(transfer_at(tk, k as int, to_fa as int, len as int) is None);
            assert(transfer_run(tk, to_fa as int, len as nat, k as nat) is None);
            assert(goal is None);
            return false;
        }
        k = k + 1;
    }
    let ghost t = moving_v(m);
    assert(goal == Some(t));
    if !has_positive_exec(&m.to_insts) || !has_positive_exec(&m.from_insts) {
        return false;
    }
    let mut tu = UniqueBoardsInstanse { count: m.to_count, frequency_average: m.to_fa, instanses: m.to_insts };
    refresh_average(&mut tu);
    let mut fu = UniqueBoardsInstanse { count: m.from_count, frequency_average: m.from_fa, instanses: m.from_insts };
    refresh_average(&mut fu);
    let ghost c0 = cats@;
    cats[out].boards.unique[i] = tu;
    proof {
        assert(cats@[out as int].boards.unique@ =~= c0[out as int].boards.unique@.update(i as int, tu));
        lemma_with_unique(c0, cats@, out as int, i as int);
    }
    let ghost c1 = cats@;
    cats[inn].boards.unique[i] = fu;
    proof {
        assert(cats@[inn as int].boards.unique@ =~= c1[inn as int].boards.unique@.update(i as int, fu));
        lemma_with_unique(c1, cats@, inn as int, i as int);
    }
    let ghost c2 = cats@;
    cats[inn].boards.filtered[i].instanses = m.from_f;
    proof {
        assert(cats@[inn as int].boards.filtered@ =~= c2[inn as int].boards.filtered@.update(
            i as int,
            cats@[inn as int].boards.filtered@[i as int],
        ));
        lemma_with_filtered(c2, cats@, inn as int, i as int);
    }
    let ghost c3 = cats@;
    cats[out].boards.filtered[i].instanses = m.to_f;
    proof {
        assert(cats@[out as int].boards.filtered@ =~= c3[out as int].boards.filtered@.update(
            i as int,
            cats@[out as int].boards.filtered@[i as int],
        ));
        lemma_with_filtered(c3, cats@, out as int, i as int);
        let fin = categories_v(cats@);
        assert forall|k: int| 0 <= k < fin.len() implies wide(#[trigger] fin[k], width as int) by {
            assert(wide(st[k], width as int));
        }
    }
    true
}

/// Reverses the order of the categories after the first.
fn reverse_tail_exec(cats: &mut Vec<Category>)
    requires
        old(cats)@.len() >= 1,
    ensures
        categories_v(final(cats)@) == reverse_tail(categories_v(old(cats)@)),
        final(cats)@.len() == old(cats)@.len(),
        final(cats)@[0] == old(cats)@[0],
{
    let ghost c0 = cats@;
    let n = cats.len();
    let mut rest = cats.split_off(1);
    while rest.len() > 0
        invariant
            n == c0.len(),
            n >= 1,
            cats@.len() + rest@.len() == n,
            rest@ == c0.subrange(1, rest@.len() as int + 1),
            cats@[0] == c0[0],
            cats@.len() >= 1,
            forall|k: int| 1 <= k < cats@.len() ==> #[trigger] cats@[k] == c0[n - k],
        decreases rest@.len(),
    {
        let x = rest.pop().unwrap();
        cats.push(x);
    }
    assert(categories_v(cats@) =~= reverse_tail(categories_v(c0)));
}

/// The moves on reel `i` into category `out` from every earlier one (`pair_ins`).
fn pair_ins_exec(cats: &mut Vec<Category>, i: usize, out: usize, width: usize) -> (ok: bool)
    requires
        out < old(cats)@.len(),
        i < width,
        all_wide(categories_v(old(cats)@), width as int),
    ensures
        ok == pair_ins(categories_v(old(cats)@), i as int, out as nat, 0) is Some,
        ok ==> categories_v(final(cats)@) == pair_ins(categories_v(old(cats)@), i as int, out as nat, 0)->0,
        final(cats)@.len() == old(cats)@.len(),
        ok ==> all_wide(categories_v(final(cats)@), width as int),
{
    let ghost goal = pair_ins(categories_v(cats@), i as int, out as nat, 0);
    let mut inn: usize = 0;
    while inn < out
        invariant
            inn <= out,
            out < cats@.len(),
            cats@.len() == old(cats)@.len(),
            i < width,
            all_wide(categories_v(cats@), width as int),
            goal == pair_ins(categories_v(old(cats)@), i as int, out as nat, 0),
            goal == pair_ins(categories_v(cats@), i as int, out as nat, inn as nat),
        decreases out - inn,
    {
        if !pair_move_exec(cats, i, out, inn, width) {
            return false;
        }
        inn = inn + 1;
    }
    true
}

/// The moves on reel `i` into every category after the first (`pair_outs`).
fn pair_outs_exec(cats: &mut Vec<Category>, i: usize, width: usize) -> (ok: bool)
    requires
        i < width,
        all_wide(categories_v(old(cats)@), width as int),
    ensures
        ok == pair_outs(categories_v(old(cats)@), i as int, 1, old(cats)@.len()) is Some,
        ok ==> categories_v(final(cats)@) == pair_outs(
            categories_v(old(cats)@),
            i as int,
            1,
            old(cats)@.len(),
        )->0,
        final(cats)@.len() == old(cats)@.len(),
        ok ==> all_wide(categories_v(final(cats)@), width as int),
{
    let ghost goal = pair_outs(categories_v(cats@), i as int, 1, cats@.len());
    let n = cats.len();
    if n <= 1 {
        return true;
    }
    let mut out: usize = 1;
    while out < n
        invariant
            1 <= out <= n,
            n == cats@.len(),
            cats@.len() == old(cats)@.len(),
            i < width,
            all_wide(categories_v(cats@), width as int),
            goal == pair_outs(categories_v(old(cats)@), i as int, 1, n as nat),
            goal == pair_outs(categories_v(cats@), i as int, out as nat, n as nat),
        decreases n - out,
    {
        if !pair_ins_exec(cats, i, out, width) {
            return false;
        }
        out = out + 1;
    }
    true
}

proof fn lemma_pair_ins_len(st: Seq<CategoryV>, i: int, out: nat, inn: nat)
    requires
        pair_ins(st, i, out, inn) is Some,
        out < st.len(),
    ensures
        pair_ins(st, i, out, inn)->0.len() == st.len(),
    decreases out - inn,
{
    if inn < out {
        let s = pair_move(st, i, out as int, inn as int)->0;
        lemma_pair_ins_len(s, i, out, inn + 1);
    }
}


proof fn lemma_settle_reels_none(st: Seq<CategoryV>, width: int, n: nat, m: nat)
    requires
        n <= m,
        settle_reels(st, width, n) is None,
    ensures
        settle_reels(st, width, m) is None,
    decreases m - n,
{
    if n < m {
        lemma_settle_reels_none(st, width, n, (m - 1) as nat);
    }
}

proof fn lemma_pair_reels_none(st: Seq<CategoryV>, n: nat, m: nat)
    requires
        n <= m,
        pair_reels(st, n) is None,
    ensures
        pair_reels(st, m) is None,
    decreases m - n,
{
    if n < m {
        lemma_pair_reels_none(st, n, (m - 1) as nat);
    }
}

/// Settles every reel in turn, then, with more than one category, reverses the later
/// ones and makes the moves of every reel (`split_outcome`); `false` exactly where a
/// step cannot go through, the categories then left part-way.
pub fn split_by_frequency_average_checked(width: usize, _height: usize, a_categories: &mut Categories) -> (ok: bool)
    ensures
        ok == split_outcome(categories_v(old(a_categories).category@), width as int) is Some,
        ok ==> categories_v(final(a_categories).category@) == split_outcome(
            categories_v(old(a_categories).category@),
            width as int,
        )->0,
        final(a_categories).count == old(a_categories).count,
        final(a_categories).buy_category == old(a_categories).buy_category,
        final(a_categories).settings == old(a_categories).settings,
{
    let ghost st = categories_v(a_categories.category@);
    if width > 0 {
        if a_categories.category.len() == 0 {
            return false;
        }
        if a_categories.category[0].boards.total.len() < width {
            return false;
        }
        let mut k: usize = 0;
        while k < a_categories.category.len()
            invariant
                k <= a_categories.category@.len(),
                st == categories_v(a_categories.category@),
                forall|j: int| 0 <= j < k ==> wide(#[trigger] st[j], width as int),
            decreases a_categories.category@.len() - k,
        {
            if a_categories.category[k].boards.filtered.len() < width
                || a_categories.category[k].boards.unique.len() < width {
                assert(!wide(st[k as int], width as int));
                return false;
            }
            k = k + 1;
        }
    }
    assert(split_ready(st, width as int));
    let ghost goal = settle_reels(st, width as int, width as nat);
    let mut i: usize = 0;
    while i < width
        invariant
            i <= width,
            st == categories_v(old(a_categories).category@),
            split_ready(st, width as int),
            goal == settle_reels(st, width as int, width as nat),
            settle_reels(st, width as int, i as nat) is Some,
            categories_v(a_categories.category@) == settle_reels(st, width as int, i as nat)->0,
            width > 0 ==> a_categories.category@.len() >= 1,
            width > 0 ==> a_categories.category@[0].boards.total@.len() >= width,
            all_wide(categories_v(a_categories.category@), width as int),
            a_categories.count == old(a_categories).count,
            a_categories.buy_category == old(a_categories).buy_category,
            a_categories.settings == old(a_categories).settings,
        decreases width - i,
    {
        let ghost s0 = categories_v(a_categories.category@);
        clear_total(&mut a_categories.category, i);
        let ghost s1 = categories_v(a_categories.category@);
        proof {
            assert(all_wide(s1, width as int)) by {
                assert forall|k: int| 0 <= k < s1.len() implies wide(#[trigger] s1[k], width as int) by {
                    assert(wide(s0[k], width as int));
                }
            }
        }
        if !settle_reel(&mut a_categories.category, i, width) {
            proof {
                assert(settle_reels(st, width as int, (i + 1) as nat) is None);
                lemma_settle_reels_none(st, width as int, (i + 1) as nat, width as nat);
            }
            return false;
        }
        proof {
            lemma_settle_keeps(s1, i as int, 0, width as int);
            assert(s1[0].total.len() == s0[0].total.len());
            assert(categories_v(a_categories.category@)[0].total.len() == a_categories.category@[0].boards.total@.len());
        }
        i = i + 1;
    }
    assert(goal == Some(categories_v(a_categories.category@)));
    if a_categories.category.len() > 1 {
        reverse_tail_exec(&mut a_categories.category);
        let ghost r = categories_v(a_categories.category@);
        proof {
            let s = goal->0;
            assert forall|k: int| 0 <= k < r.len() implies wide(#[trigger] r[k], width as int) by {
                if k == 0 {
                    assert(wide(s[0], width as int));
                } else {
                    assert(wide(s[s.len() - k], width as int));
                }
            }
        }
        assert(split_outcome(categories_v(old(a_categories).category@), width as int) == pair_reels(r, width as nat));
        let mut j: usize = 0;
        while j < width
            invariant
                j <= width,
                split_outcome(categories_v(old(a_categories).category@), width as int) == pair_reels(r, width as nat),
                pair_reels(r, j as nat) is Some,
                categories_v(a_categories.category@) == pair_reels(r, j as nat)->0,
                a_categories.category@.len() == r.len(),
                all_wide(categories_v(a_categories.category@), width as int),
                a_categories.count == old(a_categories).count,
                a_categories.buy_category == old(a_categories).buy_category,
                a_categories.settings == old(a_categories).settings,
            decreases width - j,
        {
            if !pair_outs_exec(&mut a_categories.category, j, width) {
                proof {
                    assert(pair_reels(r, (j + 1) as nat) is None);
                    lemma_pair_reels_none(r, (j + 1) as nat, width as nat);
                }
                return false;
            }
            j = j + 1;
        }
    }
    true
}

/// Settles every reel in turn, then, with more than one category, reverses the later
/// ones and makes the moves of every reel (`split_outcome`).
pub fn split_by_frequency_average(width: usize, _height: usize, a_categories: &mut Categories)
    requires
        split_outcome(categories_v(old(a_categories).category@), width as int) is Some,
    ensures
        categories_v(final(a_categories).category@) == split_outcome(
            categories_v(old(a_categories).category@),
            width as int,
        )->0,
        final(a_categories).count == old(a_categories).count,
        final(a_categories).buy_category == old(a_categories).buy_category,
        final(a_categories).settings == old(a_categories).settings,
{
    let _ = split_by_frequency_average_checked(width, _height, a_categories);
}

/// Whether a board of count `x` is copied from a category of average `fin` to one of
/// average `fo`: its excess over the nearest multiple of `fin` makes, rounded, between
/// one and five times `fo`.
pub open spec fn echoes(x: int, fin: int, fo: int) -> bool {
    let b = excess(x, fin);
    fo > 0 && b > 0 && 2 * b >= fo && 2 * b < 11 * fo
}

/// The boards of `s` that `echoes` picks, in order.
pub open spec fn echoed(s: Seq<(u64, Seq<u8>)>, fin: int, fo: int) -> Seq<(u64, Seq<u8>)>
    decreases s.len(),
{
    if s.len() == 0 {
        Seq::empty()
    } else if echoes(s.last().0 as int, fin, fo) {
        echoed(s.drop_last(), fin, fo).push(s.last())
    } else {
        echoed(s.drop_last(), fin, fo)
    }
}

/// Whether the excess of every count of `s` over `fin` stays within `i64`.
pub open spec fn echo_safe(s: Seq<(u64, Seq<u8>)>, fin: int) -> bool {
    forall|j: int|
        0 <= j < s.len() ==> #[trigger] s[j].0 <= i64::MAX && (fin == 0 || fin * round_div(
            s[j].0 as int,
            fin,
        ) <= i64::MAX)
}

/// The copies on reel `i` into category `out` of the boards of category `inn` that echo.
pub open spec fn copy_move(st: Seq<CategoryV>, i: int, out: int, inn: int) -> Option<Seq<CategoryV>> {
    let from = st[inn].unique[i];
    let to = st[out].unique[i];
    if from.fa > i64::MAX || !echo_safe(from.insts, from.fa as int) {
        None
    } else {
        Some(
            with_unique(
                st,
                out,
                i,
                UniqueV {
                    count: to.count,
                    fa: to.fa,
                    insts: to.insts + echoed(from.insts, from.fa as int, to.fa as int),
                },
            ),
        )
    }
}

pub open spec fn copy_ins(st: Seq<CategoryV>, i: int, out: nat, inn: nat) -> Option<Seq<CategoryV>>
    decreases out - inn,
{
    if inn >= out {
        Some(st)
    } else {
        match copy_move(st, i, out as int, inn as int) {
            None => None,
            Some(s) => copy_ins(s, i, out, inn + 1),
        }
    }
}

pub open spec fn copy_outs(st: Seq<CategoryV>, i: int, out: nat, n: nat) -> Option<Seq<CategoryV>>
    decreases n - out,
{
    if out >= n {
        Some(st)
    } else {
        match copy_ins(st, i, out, 0) {
            None => None,
            Some(s) => copy_outs(s, i, out + 1, n),
        }
    }
}

/// Reels `0..n` in turn: the reel is settled; then, with more than one category, the
/// later categories are reversed and each receives the echoing boards of every earlier
/// one on that reel.
pub open spec fn settle_copy_reels(st: Seq<CategoryV>, width: int, n: nat) -> Option<Seq<CategoryV>>
    decreases n,
{
    if n == 0 {
        Some(st)
    } else {
        match settle_copy_reels(st, width, (n - 1) as nat) {
            None => None,
            Some(s) => match settle_from(with_total(s, 0, n - 1, Seq::empty()), n - 1, 0, width) {
                None => None,
                Some(s2) => {
                    if s2.len() > 1 {
                        copy_outs(reverse_tail(s2), n - 1, 1, s2.len())
                    } else {
                        Some(s2)
                    }
                },
            },
        }
    }
}

/// What the second form of the split makes of the categories; `None` where one of its
/// steps cannot go through.
pub open spec fn split_v2_outcome(st: Seq<CategoryV>, width: int) -> Option<Seq<CategoryV>> {
    if !split_ready(st, width) {
        None
    } else {
        settle_copy_reels(st, width, width as nat)
    }
}

/// The boards of `v` that echo from average `fin` to average `fo`, copied; `None` where
/// some count's excess leaves `i64` (`echo_safe`).
fn echoed_exec(v: &Vec<Board>, fin: u64, fo: u64) -> (r: Option<Vec<Board>>)
    requires
        fin <= i64::MAX,
    ensures
        match r {
            Some(e) => echo_safe(boards_v(v@), fin as int) && boards_v(e@) == echoed(
                boards_v(v@),
                fin as int,
                fo as int,
            ),
            None => !echo_safe(boards_v(v@), fin as int),
        },
{
    let ghost s = boards_v(v@);
    let mut e: Vec<Board> = Vec::new();
    let mut j: usize = 0;
    while j < v.len()
        invariant
            j <= v.len(),
            fin <= i64::MAX,
            s == boards_v(v@),
            boards_v(e@) == echoed(s.take(j as int), fin as int, fo as int),
            echo_safe(s.take(j as int), fin as int),
        decreases v.len() - j,
    {
        assert(s.take(j + 1).drop_last() =~= s.take(j as int));
        let x = v[j].count;
        if x > 0x7fff_ffff_ffff_ffffu64 {
            assert(!(s[j as int].0 <= i64::MAX));
            return None;
        }
        let b: i128 = if fin == 0 {
            x as i128
        } else {
            let q = round_div_u128(x as u128, fin as u128);
            proof {
                lemma_round_div_times(x as int, fin as int);
            }
            let prod = (fin as u128) * q;
            if prod > 0x7fff_ffff_ffff_ffffu128 {
                assert(!(fin as int * round_div(s[j as int].0 as int, fin as int) <= i64::MAX));
                return None;
            }
            x as i128 - prod as i128
        };
        assert(b == excess(x as int, fin as int));
        let fo_i = fo as i128;
        let ghost st1 = s.take(j + 1);
        assert forall|t: int| 0 <= t < st1.len() implies #[trigger] st1[t].0 <= i64::MAX && (fin == 0
            || fin * round_div(st1[t].0 as int, fin as int) <= i64::MAX) by {
            if t < j {
                assert(st1[t] == s.take(j as int)[t]);
            }
        }
        if fo_i > 0 && b > 0 && 2 * b >= fo_i && 2 * b < 11 * fo_i {
            let c = v[j].duplicate();
            e.push(c);
            assert(boards_v(e@) =~= boards_v(e@.drop_last()).push(board_v(c)));
        }
        j = j + 1;
    }
    assert(s.take(v.len() as int) =~= s);
    Some(e)
}

/// The copies on reel `i` into category `out` from category `inn` (`copy_move`).
fn copy_move_exec(cats: &mut Vec<Category>, i: usize, out: usize, inn: usize, width: usize) -> (ok: bool)
    requires
        inn < out < old(cats)@.len(),
        i < width,
        all_wide(categories_v(old(cats)@), width as int),
    ensures
        ok == copy_move(categories_v(old(cats)@), i as int, out as int, inn as int) is Some,
        ok ==> categories_v(final(cats)@) == copy_move(
            categories_v(old(cats)@),
            i as int,
            out as int,
            inn as int,
        )->0,
        final(cats)@.len() == old(cats)@.len(),
        ok ==> all_wide(categories_v(final(cats)@), width as int),
        final(cats)@[0] == old(cats)@[0],
{
    let ghost st = categories_v(cats@);
    assert(wide(st[inn as int], width as int) && wide(st[out as int], width as int));
    assert(st[inn as int].unique[i as int] == unique_v(cats@[inn as int].boards.unique@[i as int]));
    assert(st[out as int].unique[i as int] == unique_v(cats@[out as int].boards.unique@[i as int]));
    let fin = cats[inn].boards.unique[i].frequency_average;
    let fo = cats[out].boards.unique[i].frequency_average;
    if fin > 0x7fff_ffff_ffff_ffffu64 {
        return false;
    }
    let mut picked = match echoed_exec(&cats[inn].boards.unique[i].instanses, fin, fo) {
        None => {
            return false;
        },
        Some(e) => e,
    };
    let ghost pv = boards_v(picked@);
    let ghost c0 = cats@;
    cats[out].boards.unique[i].instanses.append(&mut picked);
    proof {
        assert(boards_v(cats@[out as int].boards.unique@[i as int].instanses@) =~= boards_v(
            c0[out as int].boards.unique@[i as int].instanses@,
        ) + pv);
        assert(cats@[out as int].boards.unique@ =~= c0[out as int].boards.unique@.update(
            i as int,
            cats@[out as int].boards.unique@[i as int],
        ));
        lemma_with_unique(c0, cats@, out as int, i as int);
        let fin_st = categories_v(cats@);
        assert forall|k: int| 0 <= k < fin_st.len() implies wide(#[trigger] fin_st[k], width as int) by {
            assert(wide(st[k], width as int));
        }
    }
    true
}

fn copy_ins_exec(cats: &mut Vec<Category>, i: usize, out: usize, width: usize) -> (ok: bool)
    requires
        out < old(cats)@.len(),
        i < width,
        all_wide(categories_v(old(cats)@), width as int),
    ensures
        ok == copy_ins(categories_v(old(cats)@), i as int, out as nat, 0) is Some,
        ok ==> categories_v(final(cats)@) == copy_ins(categories_v(old(cats)@), i as int, out as nat, 0)->0,
        final(cats)@.len() == old(cats)@.len(),
        ok ==> all_wide(categories_v(final(cats)@), width as int),
        final(cats)@[0] == old(cats)@[0],
{
    let ghost goal = copy_ins(categories_v(cats@), i as int, out as nat, 0);
    let mut inn: usize = 0;
    while inn < out
        invariant
            inn <= out,
            out < cats@.len(),
            cats@.len() == old(cats)@.len(),
            i < width,
            all_wide(categories_v(cats@), width as int),
            goal == copy_ins(categories_v(old(cats)@), i as int, out as nat, 0),
            goal == copy_ins(categories_v(cats@), i as int, out as nat, inn as nat),
            cats@[0] == old(cats)@[0],
        decreases out - inn,
    {
        if !copy_move_exec(cats, i, out, inn, width) {
            return false;
        }
        inn = inn + 1;
    }
    true
}

fn copy_outs_exec(cats: &mut Vec<Category>, i: usize, width: usize) -> (ok: bool)
    requires
        i < width,
        all_wide(categories_v(old(cats)@), width as int),
    ensures
        ok == copy_outs(categories_v(old(cats)@), i as int, 1, old(cats)@.len()) is Some,
        ok ==> categories_v(final(cats)@) == copy_outs(
            categories_v(old(cats)@),
            i as int,
            1,
            old(cats)@.len(),
        )->0,
        final(cats)@.len() == old(cats)@.len(),
        ok ==> all_wide(categories_v(final(cats)@), width as int),
        old(cats)@.len() >= 1 ==> final(cats)@[0] == old(cats)@[0],
{
    let ghost goal = copy_outs(categories_v(cats@), i as int, 1, cats@.len());
    let n = cats.len();
    if n <= 1 {
        return true;
    }
    let mut out: usize = 1;
    while out < n
        invariant
            1 <= out <= n,
            n == cats@.len(),
            cats@.len() == old(cats)@.len(),
            i < width,
            all_wide(categories_v(cats@), width as int),
            goal == copy_outs(categories_v(old(cats)@), i as int, 1, n as nat),
            goal == copy_outs(categories_v(cats@), i as int, out as nat, n as nat),
            cats@[0] == old(cats)@[0],
        decreases n - out,
    {
        if !copy_ins_exec(cats, i, out, width) {
            return false;
        }
        out = out + 1;
    }
    true
}

proof fn lemma_settle_copy_reels_none(st: Seq<CategoryV>, width: int, n: nat, m: nat)
    requires
        n <= m,
        settle_copy_reels(st, width, n) is None,
    ensures
        settle_copy_reels(st, width, m) is None,
    decreases m - n,
{
    if n < m {
        lemma_settle_copy_reels_none(st, width, n, (m - 1) as nat);
    }
}

/// The second form of the split (`split_v2_outcome`); `false` exactly where one of its
/// steps cannot go through.
pub fn _split_by_frequency_average_v2_checked(width: usize, _height: usize, a_categories: &mut Categories) -> (ok: bool)
    ensures
        ok == split_v2_outcome(categories_v(old(a_categories).category@), width as int) is Some,
        ok ==> categories_v(final(a_categories).category@) == split_v2_outcome(
            categories_v(old(a_categories).category@),
            width as int,
        )->0,
        final(a_categories).count == old(a_categories).count,
        final(a_categories).buy_category == old(a_categories).buy_category,
        final(a_categories).settings == old(a_categories).settings,
{
    let ghost st = categories_v(a_categories.category@);
    if width > 0 {
        if a_categories.category.len() == 0 {
            return false;
        }
        if a_categories.category[0].boards.total.len() < width {
            return false;
        }
        let mut k: usize = 0;
        while k < a_categories.category.len()
            invariant
                k <= a_categories.category@.len(),
                st == categories_v(a_categories.category@),
                forall|j: int| 0 <= j < k ==> wide(#[trigger] st[j], width as int),
            decreases a_categories.category@.len() - k,
        {
            if a_categories.category[k].boards.filtered.len() < width
                || a_categories.category[k].boards.unique.len() < width {
                assert(!wide(st[k as int], width as int));
                return false;
            }
            k = k + 1;
        }
    }
    assert(split_ready(st, width as int));
    let mut i: usize = 0;
    while i < width
        invariant
            i <= width,
            st == categories_v(old(a_categories).category@),
            split_ready(st, width as int),
            settle_copy_reels(st, width as int, i as nat) is Some,
            categories_v(a_categories.category@) == settle_copy_reels(st, width as int, i as nat)->0,
            width > 0 ==> a_categories.category@.len() >= 1,
            width > 0 ==> a_categories.category@[0].boards.total@.len() >= width,
            all_wide(categories_v(a_categories.category@), width as int),
            a_categories.count == old(a_categories).count,
            a_categories.buy_category == old(a_categories).buy_category,
            a_categories.settings == old(a_categories).settings,
        decreases width - i,
    {
        let ghost s0 = categories_v(a_categories.category@);
        clear_total(&mut a_categories.category, i);
        let ghost s1 = categories_v(a_categories.category@);
        proof {
            assert(all_wide(s1, width as int)) by {
                assert forall|k: int| 0 <= k < s1.len() implies wide(#[trigger] s1[k], width as int) by {
                    assert(wide(s0[k], width as int));
                }
            }
        }
        if !settle_reel(&mut a_categories.category, i, width) {
            proof {
                assert(settle_copy_reels(st, width as int, (i + 1) as nat) is None);
                lemma_settle_copy_reels_none(st, width as int, (i + 1) as nat, width as nat);
            }
            return false;
        }
        proof {
            lemma_settle_keeps(s1, i as int, 0, width as int);
        }
        let ghost s2 = categories_v(a_categories.category@);
        let ghost c2 = a_categories.category@;
        assert(s2[0].total.len() == c2[0].boards.total@.len());
        if a_categories.category.len() > 1 {
            reverse_tail_exec(&mut a_categories.category);
            let ghost r = categories_v(a_categories.category@);
            proof {
                assert forall|k: int| 0 <= k < r.len() implies wide(#[trigger] r[k], width as int) by {
                    if k == 0 {
                        assert(wide(s2[0], width as int));
                    } else {
                        assert(wide(s2[s2.len() - k], width as int));
                    }
                }
            }
            if !copy_outs_exec(&mut a_categories.category, i, width) {
                proof {
                    assert(settle_copy_reels(st, width as int, (i + 1) as nat) is None);
                    lemma_settle_copy_reels_none(st, width as int, (i + 1) as nat, width as nat);
                }
                return false;
            }
        }
        proof {
            assert(s2[0].total == s1[0].total);
            assert(a_categories.category@[0] == c2[0]);
        }
        i = i + 1;
    }
    true
}

/// The second form of the split (`split_v2_outcome`).
pub fn _split_by_frequency_average_v2(width: usize, _height: usize, a_categories: &mut Categories)
    requires
        split_v2_outcome(categories_v(old(a_categories).category@), width as int) is Some,
    ensures
        categories_v(final(a_categories).category@) == split_v2_outcome(
            categories_v(old(a_categories).category@),
            width as int,
        )->0,
        final(a_categories).count == old(a_categories).count,
        final(a_categories).buy_category == old(a_categories).buy_category,
        final(a_categories).settings == old(a_categories).settings,
{
    let _ = _split_by_frequency_average_v2_checked(width, _height, a_categories);
}

/// Moving copies of a column between the kept columns of two categories loses and makes
/// none: every column occurs as often in the two lists together as before.
pub proof fn law_move_copies_keeps_columns(ff: Seq<Seq<u8>>, tf: Seq<Seq<u8>>, b: Seq<u8>, c: nat)
    ensures
        forall|x: Seq<u8>|
            #![trigger count_of(move_copies(ff, tf, b, c).0, x)]
            count_of(move_copies(ff, tf, b, c).0, x) + count_of(move_copies(ff, tf, b, c).1, x)
                == count_of(ff, x) + count_of(tf, x),
        move_copies(ff, tf, b, c).0.len() + move_copies(ff, tf, b, c).1.len() == ff.len() + tf.len(),
    decreases c,
{
    if c > 0 {
        match first_index(ff, b) {
            None => {},
            Some(p) => {
                lemma_first_index_found(ff, b);
                law_move_copies_keeps_columns(ff.remove(p), tf.push(b), b, (c - 1) as nat);
                assert forall|x: Seq<u8>| count_of(ff.remove(p), x) + count_of(tf.push(b), x) == count_of(ff, x) + count_of(tf, x) by {
                    assert(ff.remove(p).insert(p, b) =~= ff);
                    lemma_count_of_insert(ff.remove(p), p, b, x);
                    lemma_count_of_push(tf, b, x);
                }
            },
        }
    }
}

/// A transfer between two categories keeps their counts together: what one loses the
/// other gains, and so with their kept columns.
pub proof fn law_transfer_keeps_totals(t: Transfer, k: int, fo: int, len: int)
    requires
        0 <= k < t.from.insts.len(),
    ensures
        transfer_at(t, k, fo, len) matches Some(t2) ==> {
            &&& t2.from.count + t2.to.count == t.from.count + t.to.count
            &&& t2.from.insts.len() == t.from.insts.len()
            &&& forall|x: Seq<u8>|
                #![trigger count_of(t2.from_f, x)]
                count_of(t2.from_f, x) + count_of(t2.to_f, x) == count_of(t.from_f, x) + count_of(t.to_f, x)
        },
{
    let x = t.from.insts[k].0 as int;
    let b = excess(x, t.fin);
    let c = moved_count(b, fo);
    law_move_copies_keeps_columns(t.from_f, t.to_f, t.from.insts[k].1, c as nat);
}

/// A run of transfers keeps the two categories' counts, and their kept columns, together.
pub proof fn law_transfer_run_keeps_totals(t: Transfer, fo: int, len: nat, k: nat)
    requires
        len <= t.from.insts.len(),
    ensures
        transfer_run(t, fo, len, k) matches Some(t2) ==> {
            &&& t2.from.count + t2.to.count == t.from.count + t.to.count
            &&& forall|x: Seq<u8>|
                #![trigger count_of(t2.from_f, x)]
                count_of(t2.from_f, x) + count_of(t2.to_f, x) == count_of(t.from_f, x) + count_of(t.to_f, x)
        },
    decreases len - k,
{
    if k < len {
        law_transfer_keeps_totals(t, k as int, fo, len as int);
        match transfer_at(t, k as int, fo, len as int) {
            None => {},
            Some(t2) => {
                law_transfer_run_keeps_totals(t2, fo, len, k + 1);
                match transfer_run(t2, fo, len, k + 1) {
                    None => {},
                    Some(t3) => {
                        assert forall|x: Seq<u8>| #![trigger count_of(t3.from_f, x)]
                            count_of(t3.from_f, x) + count_of(t3.to_f, x) == count_of(t.from_f, x) + count_of(t.to_f, x) by {
                            assert(count_of(t3.from_f, x) + count_of(t3.to_f, x) == count_of(t2.from_f, x) + count_of(t2.to_f, x));
                            assert(count_of(t2.from_f, x) + count_of(t2.to_f, x) == count_of(t.from_f, x) + count_of(t.to_f, x));
                        }
                    },
                }
            },
        }
    }
}

/// Sifting the kept columns by a list of boards splits them: every column lands on
/// exactly one side, as often as it was kept.
pub proof fn law_sift_splits(fs: Seq<Seq<u8>>, us: Seq<(u64, Seq<u8>)>)
    ensures
        forall|x: Seq<u8>|
            #![trigger count_of(sift(fs, us, true), x)]
            count_of(sift(fs, us, true), x) + count_of(sift(fs, us, false), x) == count_of(fs, x),
        sift(fs, us, true).len() + sift(fs, us, false).len() == fs.len(),
    decreases fs.len(),
{
    if fs.len() > 0 {
        law_sift_splits(fs.drop_last(), us);
        let l = fs.last();
        assert forall|x: Seq<u8>| #![trigger count_of(sift(fs, us, true), x)]
            count_of(sift(fs, us, true), x) + count_of(sift(fs, us, false), x) == count_of(fs, x) by {
            assert(fs.drop_last().push(l) =~= fs);
            lemma_count_of_push(fs.drop_last(), l, x);
            lemma_count_of_push(sift(fs.drop_last(), us, true), l, x);
            lemma_count_of_push(sift(fs.drop_last(), us, false), l, x);
            assert(count_of(sift(fs.drop_last(), us, true), x) + count_of(sift(fs.drop_last(), us, false), x) == count_of(fs.drop_last(), x));
        }
    }
}

/// How often column `x` is kept on reel `i` by the first `n` categories together.
pub open spec fn kept_sum(st: Seq<CategoryV>, i: int, x: Seq<u8>, n: nat) -> nat
    decreases n,
{
    if n == 0 || n > st.len() {
        0
    } else {
        kept_sum(st, i, x, (n - 1) as nat) + count_of(st[n - 1].filtered[i], x)
    }
}

/// How often column `x` is kept on reel `i` by all the categories together.
pub open spec fn kept_total(st: Seq<CategoryV>, i: int, x: Seq<u8>) -> nat {
    kept_sum(st, i, x, st.len())
}

proof fn lemma_kept_update(a: Seq<CategoryV>, b: Seq<CategoryV>, i: int, x: Seq<u8>, k0: int, n: nat)
    requires
        a.len() == b.len(),
        n <= a.len(),
        0 <= k0 < a.len(),
        forall|k: int| 0 <= k < a.len() && k != k0 ==> #[trigger] b[k].filtered[i] == a[k].filtered[i],
    ensures
        kept_sum(b, i, x, n) + (if k0 < n { count_of(a[k0].filtered[i], x) } else { 0 }) == kept_sum(a, i, x, n)
            + (if k0 < n { count_of(b[k0].filtered[i], x) } else { 0 }),
    decreases n,
{
    if n > 0 {
        lemma_kept_update(a, b, i, x, k0, (n - 1) as nat);
        if n - 1 != k0 {
            assert(b[n - 1].filtered[i] == a[n - 1].filtered[i]);
        }
    }
}

proof fn lemma_kept_same(a: Seq<CategoryV>, b: Seq<CategoryV>, i: int, x: Seq<u8>)
    requires
        a.len() == b.len(),
        a.len() > 0,
        forall|k: int| 0 <= k < a.len() ==> #[trigger] b[k].filtered[i] == a[k].filtered[i],
    ensures
        kept_total(b, i, x) == kept_total(a, i, x),
{
    lemma_kept_update(a, b, i, x, 0, a.len());
}

proof fn lemma_kept_grow(st: Seq<CategoryV>, n: int, width: int, i: int, x: Seq<u8>, m: nat)
    requires
        0 <= i < width,
        st.len() <= m <= grow(st, n, width).len(),
    ensures
        kept_sum(grow(st, n, width), i, x, m) == kept_total(st, i, x),
    decreases m,
{
    let g = grow(st, n, width);
    if m > st.len() {
        lemma_kept_grow(st, n, width, i, x, (m - 1) as nat);
        assert(g[m - 1] == empty_category(width));
        assert(g[m - 1].filtered[i] == Seq::<Seq<u8>>::empty());
        crate::seqs::lemma_count_of_zero(Seq::<Seq<u8>>::empty(), x);
    } else {
        assert(m == st.len());
        lemma_kept_prefix_same(st, g, i, x, m);
    }
}

proof fn lemma_kept_prefix_same(a: Seq<CategoryV>, b: Seq<CategoryV>, i: int, x: Seq<u8>, n: nat)
    requires
        n <= a.len(),
        n <= b.len(),
        forall|k: int| 0 <= k < n ==> #[trigger] b[k] == a[k],
    ensures
        kept_sum(b, i, x, n) == kept_sum(a, i, x, n),
    decreases n,
{
    if n > 0 {
        lemma_kept_prefix_same(a, b, i, x, (n - 1) as nat);
        assert(b[n - 1] == a[n - 1]);
    }
}

proof fn lemma_kept_reverse(st: Seq<CategoryV>, i: int, x: Seq<u8>, n: nat)
    requires
        1 <= n <= st.len(),
    ensures
        kept_sum(reverse_tail(st), i, x, n) + kept_sum(st, i, x, (st.len() - n + 1) as nat) == count_of(
            st[0].filtered[i],
            x,
        ) + kept_total(st, i, x),
    decreases n,
{
    let r = reverse_tail(st);
    if n == 1 {
        assert(r[0] == st[0]);
        assert(kept_sum(r, i, x, 0) == 0);
    } else {
        lemma_kept_reverse(st, i, x, (n - 1) as nat);
        assert(r[n - 1] == st[st.len() - (n - 1)]);
        let m = (st.len() - n + 1) as nat;
        assert(kept_sum(st, i, x, (m + 1) as nat) == kept_sum(st, i, x, m) + count_of(st[m as int].filtered[i], x));
    }
}

/// A round on reel `i` keeps every column, on every reel, as often in all the categories
/// together as before.
proof fn lemma_settle_round_keeps(st: Seq<CategoryV>, i: int, cn: int, width: int, j: int, x: Seq<u8>)
    requires
        all_wide(st, width),
        st.len() >= 1,
        0 <= i < width,
        0 <= j < width,
        cn >= 0,
        settle_round(st, i, cn, width) is Some,
    ensures
        kept_total((settle_round(st, i, cn, width)->0).0, j, x) == kept_total(st, j, x),
        all_wide((settle_round(st, i, cn, width)->0).0, width),
        (settle_round(st, i, cn, width)->0).0.len() >= st.len(),
{
    let u = st[0].unique[i];
    let fa = average_of(u.insts);
    let st0 = with_unique(st, 0, i, UniqueV { count: u.count, fa: fa as u64, insts: u.insts });
    assert(all_wide(st0, width)) by {
        assert forall|k: int| 0 <= k < st0.len() implies wide(#[trigger] st0[k], width) by {
            assert(wide(st[k], width));
        }
    }
    lemma_kept_same(st, st0, j, x);
    if round_div(max_count(u.insts), fa) > 5 {
        lemma_grow_wide(st0, cn + 2, width);
        let st1 = grow(st0, cn + 2, width);
        lemma_kept_grow(st0, cn + 2, width, j, x, st1.len());
        let pushed = light(u.insts, fa);
        let sum = total_v(pushed);
        let dinsts = st1[cn + 1].unique[i].insts + pushed;
        let st2 = with_unique(st1, cn + 1, i, UniqueV { count: sum as u64, fa: average_of(dinsts) as u64, insts: dinsts });
        let st3 = with_unique(st2, 0, i, UniqueV { count: (u.count - sum) as u64, fa: fa as u64, insts: heavy(u.insts, fa) });
        lemma_kept_same(st1, st3, j, x);
        let f0 = st3[0].filtered[i];
        let fin = st3[cn + 1].filtered[i];
        let st4 = with_filtered(st3, cn + 1, i, fin + sift(f0, dinsts, true));
        let r = with_filtered(st4, 0, i, sift(f0, dinsts, false));
        assert(all_wide(r, width)) by {
            assert forall|k: int| 0 <= k < r.len() implies wide(#[trigger] r[k], width) by {
                assert(wide(st1[k], width));
            }
        }
        if j == i {
            lemma_kept_update(st3, st4, j, x, cn + 1, st3.len());
            assert(st4[0].filtered[i] == f0);
            lemma_kept_update(st4, r, j, x, 0, st4.len());
            lemma_count_of_concat(fin, sift(f0, dinsts, true), x);
            law_sift_splits(f0, dinsts);
        } else {
            lemma_kept_same(st3, st4, j, x);
            lemma_kept_same(st4, r, j, x);
        }
    }
}

proof fn lemma_settle_from_keeps(st: Seq<CategoryV>, i: int, cn: int, width: int, j: int, x: Seq<u8>)
    requires
        all_wide(st, width),
        st.len() >= 1,
        0 <= i < width,
        0 <= j < width,
        cn >= 0,
        settle_from(st, i, cn, width) is Some,
    ensures
        kept_total(settle_from(st, i, cn, width)->0, j, x) == kept_total(st, j, x),
    decreases st[0].unique[i].insts.len(),
{
    lemma_settle_round_keeps(st, i, cn, width, j, x);
    let r = settle_round(st, i, cn, width)->0;
    if r.1 {
        lemma_settle_from_keeps(r.0, i, cn + 1, width, j, x);
    }
}

proof fn lemma_settle_reels_keeps(st: Seq<CategoryV>, width: int, n: nat, j: int, x: Seq<u8>)
    requires
        split_ready(st, width),
        width > 0,
        n <= width,
        0 <= j < width,
        settle_reels(st, width, n) is Some,
    ensures
        kept_total(settle_reels(st, width, n)->0, j, x) == kept_total(st, j, x),
        all_wide(settle_reels(st, width, n)->0, width),
        settle_reels(st, width, n)->0.len() >= st.len(),
    decreases n,
{
    if n > 0 {
        lemma_settle_reels_keeps(st, width, (n - 1) as nat, j, x);
        let s = settle_reels(st, width, (n - 1) as nat)->0;
        let s2 = with_total(s, 0, n - 1, Seq::empty());
        assert(all_wide(s2, width)) by {
            assert forall|k: int| 0 <= k < s2.len() implies wide(#[trigger] s2[k], width) by {
                assert(wide(s[k], width));
            }
        }
        lemma_kept_same(s, s2, j, x);
        lemma_settle_from_keeps(s2, n - 1, 0, width, j, x);
        lemma_settle_keeps(s2, n - 1, 0, width);
    }
}

/// A move between two categories on reel `i` keeps every column, on every reel, as
/// often in all the categories together as before.
proof fn lemma_pair_move_keeps(st: Seq<CategoryV>, i: int, out: int, inn: int, width: int, j: int, x: Seq<u8>)
    requires
        all_wide(st, width),
        0 <= i < width,
        0 <= j < width,
        0 <= inn < st.len(),
        0 <= out < st.len(),
        inn != out,
        pair_move(st, i, out, inn) is Some,
    ensures
        kept_total(pair_move(st, i, out, inn)->0, j, x) == kept_total(st, j, x),
        all_wide(pair_move(st, i, out, inn)->0, width),
        pair_move(st, i, out, inn)->0.len() == st.len(),
{
    let from = st[inn].unique[i];
    let to = st[out].unique[i];
    let t0 = Transfer { fin: from.fa as int, from: from, to: to, from_f: st[inn].filtered[i], to_f: st[out].filtered[i] };
    law_transfer_run_keeps_totals(t0, to.fa as int, from.insts.len(), 0);
    let t = transfer_run(t0, to.fa as int, from.insts.len(), 0)->0;
    let s1 = with_unique(st, out, i, UniqueV { count: t.to.count, fa: average_of(t.to.insts) as u64, insts: t.to.insts });
    let s2 = with_unique(s1, inn, i, UniqueV { count: t.from.count, fa: average_of(t.from.insts) as u64, insts: t.from.insts });
    let s3 = with_filtered(s2, inn, i, t.from_f);
    let r = with_filtered(s3, out, i, t.to_f);
    assert(all_wide(r, width)) by {
        assert forall|k: int| 0 <= k < r.len() implies wide(#[trigger] r[k], width) by {
            assert(wide(st[k], width));
        }
    }
    lemma_kept_same(st, s2, j, x);
    if j == i {
        lemma_kept_update(s2, s3, j, x, inn, s2.len());
        assert(s3[out].filtered[i] == st[out].filtered[i]);
        lemma_kept_update(s3, r, j, x, out, s3.len());
    } else {
        lemma_kept_same(s2, s3, j, x);
        lemma_kept_same(s3, r, j, x);
    }
}

proof fn lemma_pair_ins_keeps(st: Seq<CategoryV>, i: int, out: nat, inn: nat, width: int, j: int, x: Seq<u8>)
    requires
        all_wide(st, width),
        0 <= i < width,
        0 <= j < width,
        out < st.len(),
        pair_ins(st, i, out, inn) is Some,
    ensures
        kept_total(pair_ins(st, i, out, inn)->0, j, x) == kept_total(st, j, x),
        all_wide(pair_ins(st, i, out, inn)->0, width),
        pair_ins(st, i, out, inn)->0.len() == st.len(),
    decreases out - inn,
{
    if inn < out {
        lemma_pair_move_keeps(st, i, out as int, inn as int, width, j, x);
        let s = pair_move(st, i, out as int, inn as int)->0;
        lemma_pair_ins_keeps(s, i, out, inn + 1, width, j, x);
    }
}

proof fn lemma_pair_outs_keeps(st: Seq<CategoryV>, i: int, out: nat, n: nat, width: int, j: int, x: Seq<u8>)
    requires
        all_wide(st, width),
        0 <= i < width,
        0 <= j < width,
        n == st.len(),
        pair_outs(st, i, out, n) is Some,
    ensures
        kept_total(pair_outs(st, i, out, n)->0, j, x) == kept_total(st, j, x),
        all_wide(pair_outs(st, i, out, n)->0, width),
        pair_outs(st, i, out, n)->0.len() == st.len(),
    decreases n - out,
{
    if out < n {
        lemma_pair_ins_keeps(st, i, out, 0, width, j, x);
        let s = pair_ins(st, i, out, 0)->0;
        lemma_pair_outs_keeps(s, i, out + 1, n, width, j, x);
    }
}

proof fn lemma_pair_reels_keeps(st: Seq<CategoryV>, n: nat, width: int, j: int, x: Seq<u8>)
    requires
        all_wide(st, width),
        n <= width,
        0 <= j < width,
        pair_reels(st, n) is Some,
    ensures
        kept_total(pair_reels(st, n)->0, j, x) == kept_total(st, j, x),
        all_wide(pair_reels(st, n)->0, width),
        pair_reels(st, n)->0.len() == st.len(),
    decreases n,
{
    if n > 0 {
        lemma_pair_reels_keeps(st, (n - 1) as nat, width, j, x);
        let s = pair_reels(st, (n - 1) as nat)->0;
        lemma_pair_outs_keeps(s, n - 1, 1, s.len(), width, j, x);
    }
}

/// The split loses and makes no board: on every reel, every column is kept as often in
/// all the categories together afterwards as before.
pub proof fn law_split_keeps_columns(st: Seq<CategoryV>, width: int, i: int, x: Seq<u8>)
    requires
        0 <= i < width,
        split_outcome(st, width) is Some,
    ensures
        kept_total(split_outcome(st, width)->0, i, x) == kept_total(st, i, x),
{
    lemma_settle_reels_keeps(st, width, width as nat, i, x);
    let s = settle_reels(st, width, width as nat)->0;
    if s.len() > 1 {
        let r = reverse_tail(s);
        assert(all_wide(r, width)) by {
            assert forall|k: int| 0 <= k < r.len() implies wide(#[trigger] r[k], width) by {
                if k == 0 {
                    assert(r[k] == s[0]);
                } else {
                    assert(r[k] == s[s.len() - k]);
                }
            }
        }
        lemma_kept_reverse(s, i, x, s.len());
        assert(kept_sum(s, i, x, 0) == 0);
        assert(kept_sum(s, i, x, 1) == count_of(s[0].filtered[i], x));
        lemma_pair_reels_keeps(r, width as nat, width, i, x);
    }
}

proof fn lemma_reverse_keeps(s: Seq<CategoryV>, width: int, i: int, x: Seq<u8>)
    requires
        all_wide(s, width),
        s.len() > 1,
    ensures
        kept_total(reverse_tail(s), i, x) == kept_total(s, i, x),
        all_wide(reverse_tail(s), width),
        reverse_tail(s).len() == s.len(),
{
    let r = reverse_tail(s);
    assert(all_wide(r, width)) by {
        assert forall|k: int| 0 <= k < r.len() implies wide(#[trigger] r[k], width) by {
            if k == 0 {
                assert(r[k] == s[0]);
            } else {
                assert(r[k] == s[s.len() - k]);
            }
        }
    }
    lemma_kept_reverse(s, i, x, s.len());
    assert(kept_sum(s, i, x, 0) == 0);
    assert(kept_sum(s, i, x, 1) == count_of(s[0].filtered[i], x));
}

proof fn lemma_copy_ins_keeps(st: Seq<CategoryV>, i: int, out: nat, inn: nat, width: int, j: int, x: Seq<u8>)
    requires
        all_wide(st, width),
        0 <= i < width,
        st.len() > 0,
        out < st.len(),
        copy_ins(st, i, out, inn) is Some,
    ensures
        kept_total(copy_ins(st, i, out, inn)->0, j, x) == kept_total(st, j, x),
        all_wide(copy_ins(st, i, out, inn)->0, width),
        copy_ins(st, i, out, inn)->0.len() == st.len(),
    decreases out - inn,
{
    if inn < out {
        let s = copy_move(st, i, out as int, inn as int)->0;
        let from = st[inn as int].unique[i];
        let to = st[out as int].unique[i];
        assert(s == with_unique(
            st,
            out as int,
            i,
            UniqueV { count: to.count, fa: to.fa, insts: to.insts + echoed(from.insts, from.fa as int, to.fa as int) },
        ));
        assert(all_wide(s, width)) by {
            assert forall|k: int| 0 <= k < s.len() implies wide(#[trigger] s[k], width) by {
                assert(wide(st[k], width));
            }
        }
        lemma_kept_same(st, s, j, x);
        lemma_copy_ins_keeps(s, i, out, inn + 1, width, j, x);
    }
}

proof fn lemma_copy_outs_keeps(st: Seq<CategoryV>, i: int, out: nat, n: nat, width: int, j: int, x: Seq<u8>)
    requires
        all_wide(st, width),
        0 <= i < width,
        st.len() > 0,
        n == st.len(),
        copy_outs(st, i, out, n) is Some,
    ensures
        kept_total(copy_outs(st, i, out, n)->0, j, x) == kept_total(st, j, x),
        all_wide(copy_outs(st, i, out, n)->0, width),
        copy_outs(st, i, out, n)->0.len() == st.len(),
    decreases n - out,
{
    if out < n {
        lemma_copy_ins_keeps(st, i, out, 0, width, j, x);
        let s = copy_ins(st, i, out, 0)->0;
        lemma_copy_outs_keeps(s, i, out + 1, n, width, j, x);
    }
}

proof fn lemma_settle_copy_reels_keeps(st: Seq<CategoryV>, width: int, n: nat, j: int, x: Seq<u8>)
    requires
        split_ready(st, width),
        width > 0,
        n <= width,
        0 <= j < width,
        settle_copy_reels(st, width, n) is Some,
    ensures
        kept_total(settle_copy_reels(st, width, n)->0, j, x) == kept_total(st, j, x),
        all_wide(settle_copy_reels(st, width, n)->0, width),
        settle_copy_reels(st, width, n)->0.len() >= st.len(),
    decreases n,
{
    if n > 0 {
        lemma_settle_copy_reels_keeps(st, width, (n - 1) as nat, j, x);
        let s = settle_copy_reels(st, width, (n - 1) as nat)->0;
        let s1 = with_total(s, 0, n - 1, Seq::empty());
        assert(all_wide(s1, width)) by {
            assert forall|k: int| 0 <= k < s1.len() implies wide(#[trigger] s1[k], width) by {
                assert(wide(s[k], width));
            }
        }
        lemma_kept_same(s, s1, j, x);
        lemma_settle_from_keeps(s1, n - 1, 0, width, j, x);
        lemma_settle_keeps(s1, n - 1, 0, width);
        let s2 = settle_from(s1, n - 1, 0, width)->0;
        if s2.len() > 1 {
            lemma_reverse_keeps(s2, width, j, x);
            lemma_copy_outs_keeps(reverse_tail(s2), n - 1, 1, s2.len(), width, j, x);
        }
    }
}

/// The second form of the split loses and makes no kept column either: its copies go
/// to the distinct boards only, so on every reel every column is kept as often in all
/// the categories together afterwards as before.
pub proof fn law_split_v2_keeps_columns(st: Seq<CategoryV>, width: int, i: int, x: Seq<u8>)
    requires
        0 <= i < width,
        split_v2_outcome(st, width) is Some,
    ensures
        kept_total(split_v2_outcome(st, width)->0, i, x) == kept_total(st, i, x),
{
    lemma_settle_copy_reels_keeps(st, width, width as nat, i, x);
}


/// A round that moves boards, into a category that has counted no distinct board of that
/// reel yet, shares the first category's count of that reel out: what the target gets is
/// what the first category gives up, and no other category's distinct boards change.
pub proof fn law_settle_round_keeps_count(st: Seq<CategoryV>, i: int, cn: int, width: int)
    requires
        0 <= i < width,
        0 <= cn,
        st.len() >= 1,
        all_wide(st, width),
        settle_round(st, i, cn, width) matches Some((_, moved)) && moved,
        cn + 1 < st.len() ==> st[cn + 1].unique[i].count == 0,
    ensures
        ({
            let (s2, _) = settle_round(st, i, cn, width)->0;
            &&& s2.len() == if st.len() > cn + 2 { st.len() as int } else { cn + 2 }
            &&& s2[0].unique[i].count + s2[cn + 1].unique[i].count == st[0].unique[i].count
            &&& forall|k: int| 0 < k < st.len() && k != cn + 1 ==> (#[trigger] s2[k]).unique == st[k].unique
        }),
{
    let u = st[0].unique[i];
    let fa = average_of(u.insts);
    let st0 = with_unique(st, 0, i, UniqueV { count: u.count, fa: fa as u64, insts: u.insts });
    let st1 = grow(st0, cn + 2, width);
    if cn + 1 >= st.len() {
        assert(st1[cn + 1] == empty_category(width));
    } else {
        assert(st1[cn + 1] == st[cn + 1]);
    }
    assert(st1[0].unique[i] == UniqueV { count: u.count, fa: fa as u64, insts: u.insts });
    assert forall|k: int| 0 < k < st.len() implies #[trigger] st1[k] == st[k] by {}
    let pushed = light(u.insts, fa);
    let sum = total_v(pushed);
    let dinsts = st1[cn + 1].unique[i].insts + pushed;
    let st2 = with_unique(st1, cn + 1, i, UniqueV { count: sum as u64, fa: average_of(dinsts) as u64, insts: dinsts });
    let st3 = with_unique(st2, 0, i, UniqueV { count: (u.count - sum) as u64, fa: fa as u64, insts: heavy(u.insts, fa) });
    let f0 = st3[0].filtered[i];
    let st4 = with_filtered(st3, cn + 1, i, st3[cn + 1].filtered[i] + sift(f0, dinsts, true));
    let st5 = with_filtered(st4, 0, i, sift(f0, dinsts, false));
    assert(settle_round(st, i, cn, width) == Some((st5, true)));
    assert(st1.len() == st5.len());
    assert(st5[0].unique[i].count == (u.count - sum) as u64);
    assert(st5[cn + 1].unique[i].count == sum as u64);
    lemma_total_prefix_mono(pushed, 0);
    assert(pushed.take(0).len() == 0);
    assert(u.count >= sum && sum >= 0);
    assert(st5[0].unique[i].count + st5[cn + 1].unique[i].count == u.count);
    assert(st5.len() == if st.len() > cn + 2 { st.len() as int } else { cn + 2 });
    assert forall|k: int| 0 < k < st.len() && k != cn + 1 implies (#[trigger] st5[k]).unique == st[k].unique by {
        assert(st5[k] == st1[k]);
    }
}


/// The distinct boards of reel `i` counted by the first `n` categories together.
pub open spec fn unique_sum(st: Seq<CategoryV>, i: int, n: nat) -> int
    decreases n,
{
    if n == 0 || n > st.len() {
        0
    } else {
        unique_sum(st, i, (n - 1) as nat) + st[n - 1].unique[i].count
    }
}

/// The distinct boards of reel `i` counted by all the categories together.
pub open spec fn unique_total(st: Seq<CategoryV>, i: int) -> int {
    unique_sum(st, i, st.len())
}

proof fn lemma_unique_update(a: Seq<CategoryV>, b: Seq<CategoryV>, i: int, k0: int, n: nat)
    requires
        a.len() == b.len(),
        n <= a.len(),
        0 <= k0 < a.len(),
        forall|k: int| 0 <= k < a.len() && k != k0 ==> #[trigger] b[k].unique[i].count == a[k].unique[i].count,
    ensures
        unique_sum(b, i, n) + (if k0 < n { a[k0].unique[i].count as int } else { 0 }) == unique_sum(a, i, n)
            + (if k0 < n { b[k0].unique[i].count as int } else { 0 }),
    decreases n,
{
    if n > 0 {
        lemma_unique_update(a, b, i, k0, (n - 1) as nat);
        if n - 1 != k0 {
            assert(b[n - 1].unique[i].count == a[n - 1].unique[i].count);
        }
    }
}

proof fn lemma_unique_prefix_same(a: Seq<CategoryV>, b: Seq<CategoryV>, i: int, n: nat)
    requires
        n <= a.len(),
        n <= b.len(),
        forall|k: int| 0 <= k < n ==> #[trigger] b[k].unique[i].count == a[k].unique[i].count,
    ensures
        unique_sum(b, i, n) == unique_sum(a, i, n),
    decreases n,
{
    if n > 0 {
        lemma_unique_prefix_same(a, b, i, (n - 1) as nat);
    }
}

proof fn lemma_unique_grow(st: Seq<CategoryV>, n: int, width: int, i: int, m: nat)
    requires
        0 <= i < width,
        st.len() <= m <= grow(st, n, width).len(),
    ensures
        unique_sum(grow(st, n, width), i, m) == unique_total(st, i),
    decreases m,
{
    let g = grow(st, n, width);
    if m > st.len() {
        lemma_unique_grow(st, n, width, i, (m - 1) as nat);
        assert(g[m - 1] == empty_category(width));
    } else {
        lemma_unique_prefix_same(st, g, i, m);
    }
}

proof fn lemma_settle_round_unique(st: Seq<CategoryV>, i: int, cn: int, width: int)
    requires
        all_wide(st, width),
        st.len() >= 1,
        0 <= i < width,
        cn >= 0,
        settle_round(st, i, cn, width) is Some,
        forall|k: int| cn < k < st.len() ==> (#[trigger] st[k]).unique[i].count == 0,
    ensures
        unique_total((settle_round(st, i, cn, width)->0).0, i) == unique_total(st, i),
        forall|k: int|
            cn + 1 < k < (settle_round(st, i, cn, width)->0).0.len() ==> (#[trigger] (settle_round(
                st,
                i,
                cn,
                width,
            )->0).0[k]).unique[i].count == 0,
{
    let u = st[0].unique[i];
    let fa = average_of(u.insts);
    let st0 = with_unique(st, 0, i, UniqueV { count: u.count, fa: fa as u64, insts: u.insts });
    lemma_unique_update(st, st0, i, 0, st.len());
    if round_div(max_count(u.insts), fa) > 5 {
        let st1 = grow(st0, cn + 2, width);
        lemma_unique_grow(st0, cn + 2, width, i, st1.len());
        let pushed = light(u.insts, fa);
        let sum = total_v(pushed);
        let dinsts = st1[cn + 1].unique[i].insts + pushed;
        let st2 = with_unique(st1, cn + 1, i, UniqueV { count: sum as u64, fa: average_of(dinsts) as u64, insts: dinsts });
        let st3 = with_unique(st2, 0, i, UniqueV { count: (u.count - sum) as u64, fa: fa as u64, insts: heavy(u.insts, fa) });
        let f0 = st3[0].filtered[i];
        let st4 = with_filtered(st3, cn + 1, i, st3[cn + 1].filtered[i] + sift(f0, dinsts, true));
        let st5 = with_filtered(st4, 0, i, sift(f0, dinsts, false));
        assert(settle_round(st, i, cn, width) == Some((st5, true)));
        if cn + 1 >= st.len() {
            assert(st1[cn + 1] == empty_category(width));
        } else {
            assert(st1[cn + 1] == st[cn + 1]);
        }
        lemma_unique_update(st1, st2, i, cn + 1, st1.len());
        lemma_unique_update(st2, st3, i, 0, st2.len());
        lemma_total_prefix_mono(pushed, 0);
        assert(pushed.take(0).len() == 0);
        assert(u.count >= sum && sum >= 0);
        lemma_unique_prefix_same(st3, st5, i, st5.len());
        assert forall|k: int| cn + 1 < k < st5.len() implies (#[trigger] st5[k]).unique[i].count == 0 by {
            assert(st5[k] == st1[k]);
            if k >= st.len() {
                assert(st1[k] == empty_category(width));
            } else {
                assert(st1[k] == st[k]);
            }
        }
    }
}

proof fn lemma_settle_from_unique(st: Seq<CategoryV>, i: int, cn: int, width: int)
    requires
        all_wide(st, width),
        st.len() >= 1,
        0 <= i < width,
        cn >= 0,
        settle_from(st, i, cn, width) is Some,
        forall|k: int| cn < k < st.len() ==> (#[trigger] st[k]).unique[i].count == 0,
    ensures
        unique_total(settle_from(st, i, cn, width)->0, i) == unique_total(st, i),
    decreases st[0].unique[i].insts.len(),
{
    lemma_settle_round_unique(st, i, cn, width);
    lemma_settle_round_keeps(st, i, cn, width, i, Seq::empty());
    let r = settle_round(st, i, cn, width)->0;
    if r.1 {
        lemma_settle_from_unique(r.0, i, cn + 1, width);
    }
}

/// Settling reel `i` keeps its count of distinct boards: where no category after the first
/// has counted a distinct board of that reel yet, all the categories together count
/// afterwards what the first one counted before.
pub proof fn law_settle_keeps_count(st: Seq<CategoryV>, i: int, width: int)
    requires
        0 <= i < width,
        st.len() >= 1,
        all_wide(st, width),
        settle_from(st, i, 0, width) is Some,
        forall|k: int| 0 < k < st.len() ==> (#[trigger] st[k]).unique[i].count == 0,
    ensures
        unique_total(settle_from(st, i, 0, width)->0, i) == st[0].unique[i].count,
{
    lemma_settle_from_unique(st, i, 0, width);
    lemma_unique_sum_first(st, i, st.len());
}

proof fn lemma_unique_sum_first(st: Seq<CategoryV>, i: int, n: nat)
    requires
        1 <= n <= st.len(),
        forall|k: int| 0 < k < st.len() ==> (#[trigger] st[k]).unique[i].count == 0,
    ensures
        unique_sum(st, i, n) == st[0].unique[i].count,
    decreases n,
{
    if n > 1 {
        lemma_unique_sum_first(st, i, (n - 1) as nat);
    } else {
        assert(unique_sum(st, i, 0) == 0);
    }
}


proof fn lemma_settle_reels_total(st: Seq<CategoryV>, width: int, n: nat)
    requires
        split_ready(st, width),
        width > 0,
        n <= width,
        settle_reels(st, width, n) is Some,
    ensures
        settle_reels(st, width, n)->0[0].total.len() == st[0].total.len(),
        forall|i: int| 0 <= i < n ==> (#[trigger] settle_reels(st, width, n)->0[0].total[i]) == Seq::<Seq<u8>>::empty(),
    decreases n,
{
    if n > 0 {
        lemma_settle_reels_total(st, width, (n - 1) as nat);
        lemma_settle_reels_keeps(st, width, (n - 1) as nat, 0, Seq::empty());
        let s = settle_reels(st, width, (n - 1) as nat)->0;
        let s2 = with_total(s, 0, n - 1, Seq::empty());
        assert(all_wide(s2, width)) by {
            assert forall|k: int| 0 <= k < s2.len() implies wide(#[trigger] s2[k], width) by {
                assert(wide(s[k], width));
            }
        }
        lemma_settle_keeps(s2, n - 1, 0, width);
        let r = settle_reels(st, width, n)->0;
        assert(r[0].total == s2[0].total);
        assert forall|i: int| 0 <= i < n implies (#[trigger] r[0].total[i]) == Seq::<Seq<u8>>::empty() by {
            if i < n - 1 {
                assert(s2[0].total[i] == s[0].total[i]);
            }
        }
    }
}

proof fn lemma_pair_ins_total(st: Seq<CategoryV>, i: int, out: nat, inn: nat)
    requires
        pair_ins(st, i, out, inn) is Some,
        out < st.len(),
    ensures
        pair_ins(st, i, out, inn)->0.len() == st.len(),
        pair_ins(st, i, out, inn)->0[0].total == st[0].total,
    decreases out - inn,
{
    if inn < out {
        let s = pair_move(st, i, out as int, inn as int)->0;
        lemma_pair_ins_total(s, i, out, inn + 1);
    }
}

proof fn lemma_pair_outs_total(st: Seq<CategoryV>, i: int, out: nat, n: nat)
    requires
        pair_outs(st, i, out, n) is Some,
        n == st.len(),
    ensures
        pair_outs(st, i, out, n)->0.len() == st.len(),
        pair_outs(st, i, out, n)->0[0].total == st[0].total,
    decreases n - out,
{
    if out < n {
        lemma_pair_ins_total(st, i, out, 0);
        let s = pair_ins(st, i, out, 0)->0;
        lemma_pair_outs_total(s, i, out + 1, n);
    }
}

proof fn lemma_pair_reels_total(st: Seq<CategoryV>, n: nat)
    requires
        pair_reels(st, n) is Some,
    ensures
        pair_reels(st, n)->0.len() == st.len(),
        pair_reels(st, n)->0[0].total == st[0].total,
    decreases n,
{
    if n > 0 {
        lemma_pair_reels_total(st, (n - 1) as nat);
        let s = pair_reels(st, (n - 1) as nat)->0;
        lemma_pair_outs_total(s, n - 1, 1, s.len());
    }
}

/// The split empties the first category's list of all the boards of every reel it
/// splits, and leaves the number of those lists as it was.
pub proof fn law_split_empties_totals(st: Seq<CategoryV>, width: int, i: int)
    requires
        0 <= i < width,
        split_outcome(st, width) is Some,
    ensures
        split_outcome(st, width)->0[0].total.len() == st[0].total.len(),
        split_outcome(st, width)->0[0].total[i] == Seq::<Seq<u8>>::empty(),
{
    lemma_settle_reels_total(st, width, width as nat);
    let s = settle_reels(st, width, width as nat)->0;
    if s.len() > 1 {
        let r = reverse_tail(s);
        assert(r[0] == s[0]);
        lemma_pair_reels_total(r, width as nat);
    }
}


proof fn lemma_copy_ins_total(st: Seq<CategoryV>, i: int, out: nat, inn: nat)
    requires
        copy_ins(st, i, out, inn) is Some,
        out < st.len(),
    ensures
        copy_ins(st, i, out, inn)->0.len() == st.len(),
        copy_ins(st, i, out, inn)->0[0].total == st[0].total,
    decreases out - inn,
{
    if inn < out {
        let s = copy_move(st, i, out as int, inn as int)->0;
        lemma_copy_ins_total(s, i, out, inn + 1);
    }
}

proof fn lemma_copy_outs_total(st: Seq<CategoryV>, i: int, out: nat, n: nat)
    requires
        copy_outs(st, i, out, n) is Some,
        n == st.len(),
    ensures
        copy_outs(st, i, out, n)->0.len() == st.len(),
        copy_outs(st, i, out, n)->0[0].total == st[0].total,
    decreases n - out,
{
    if out < n {
        lemma_copy_ins_total(st, i, out, 0);
        let s = copy_ins(st, i, out, 0)->0;
        lemma_copy_outs_total(s, i, out + 1, n);
    }
}

proof fn lemma_settle_copy_reels_total(st: Seq<CategoryV>, width: int, n: nat)
    requires
        split_ready(st, width),
        width > 0,
        n <= width,
        settle_copy_reels(st, width, n) is Some,
    ensures
        settle_copy_reels(st, width, n)->0[0].total.len() == st[0].total.len(),
        forall|i: int|
            0 <= i < n ==> (#[trigger] settle_copy_reels(st, width, n)->0[0].total[i]) == Seq::<Seq<u8>>::empty(),
    decreases n,
{
    if n > 0 {
        lemma_settle_copy_reels_total(st, width, (n - 1) as nat);
        lemma_settle_copy_reels_keeps(st, width, (n - 1) as nat, 0, Seq::empty());
        let s = settle_copy_reels(st, width, (n - 1) as nat)->0;
        let s1 = with_total(s, 0, n - 1, Seq::empty());
        assert(all_wide(s1, width)) by {
            assert forall|k: int| 0 <= k < s1.len() implies wide(#[trigger] s1[k], width) by {
                assert(wide(s[k], width));
            }
        }
        lemma_settle_keeps(s1, n - 1, 0, width);
        let s2 = settle_from(s1, n - 1, 0, width)->0;
        if s2.len() > 1 {
            let r = reverse_tail(s2);
            assert(r[0] == s2[0]);
            lemma_copy_outs_total(r, n - 1, 1, s2.len());
        }
        let q = settle_copy_reels(st, width, n)->0;
        assert(q[0].total == s1[0].total);
        assert forall|i: int| 0 <= i < n implies (#[trigger] q[0].total[i]) == Seq::<Seq<u8>>::empty() by {
            if i < n - 1 {
                assert(s1[0].total[i] == s[0].total[i]);
            }
        }
    }
}

/// The second form of the split empties the first category's list of all the boards of
/// every reel it splits too, and leaves the number of those lists as it was.
pub proof fn law_split_v2_empties_totals(st: Seq<CategoryV>, width: int, i: int)
    requires
        0 <= i < width,
        split_v2_outcome(st, width) is Some,
    ensures
        split_v2_outcome(st, width)->0[0].total.len() == st[0].total.len(),
        split_v2_outcome(st, width)->0[0].total[i] == Seq::<Seq<u8>>::empty(),
{
    lemma_settle_copy_reels_total(st, width, width as nat);
}


/// Splitting by five averages: the light boards are exactly the boards of the list whose
/// count is under five averages (rounded), and the heavy ones exactly those over five; a
/// board of exactly five averages is in neither.
pub proof fn law_light_and_heavy(s: Seq<(u64, Seq<u8>)>, fa: int)
    ensures
        forall|x: (u64, Seq<u8>)| #[trigger] light(s, fa).contains(x) <==> (s.contains(x) && round_div(x.0 as int, fa) < 5),
        forall|x: (u64, Seq<u8>)| #[trigger] heavy(s, fa).contains(x) <==> (s.contains(x) && round_div(x.0 as int, fa) > 5),
    decreases s.len(),
{
    if s.len() > 0 {
        law_light_and_heavy(s.drop_last(), fa);
        let p = s.drop_last();
        assert(s =~= p.push(s.last()));
        assert forall|x: (u64, Seq<u8>)| #[trigger] s.contains(x) <==> (p.contains(x) || x == s.last()) by {
            if s.contains(x) {
                let j = choose|j: int| 0 <= j < s.len() && s[j] == x;
                if j < s.len() - 1 {
                    assert(p[j] == x);
                }
            }
            if p.contains(x) {
                let j = choose|j: int| 0 <= j < p.len() && p[j] == x;
                assert(s[j] == x);
            }
            if x == s.last() {
                assert(s[s.len() - 1] == x);
            }
        }
        let lp = light(p, fa);
        let hp = heavy(p, fa);
        assert forall|x: (u64, Seq<u8>)| #[trigger] lp.push(s.last()).contains(x) <==> (lp.contains(x) || x == s.last()) by {
            if lp.push(s.last()).contains(x) {
                let j = choose|j: int| 0 <= j < lp.push(s.last()).len() && lp.push(s.last())[j] == x;
                if j < lp.len() {
                    assert(lp[j] == x);
                }
            }
            if lp.contains(x) {
                let j = choose|j: int| 0 <= j < lp.len() && lp[j] == x;
                assert(lp.push(s.last())[j] == x);
            }
            if x == s.last() {
                assert(lp.push(s.last())[lp.len() as int] == x);
            }
        }
        assert forall|x: (u64, Seq<u8>)| #[trigger] hp.push(s.last()).contains(x) <==> (hp.contains(x) || x == s.last()) by {
            if hp.push(s.last()).contains(x) {
                let j = choose|j: int| 0 <= j < hp.push(s.last()).len() && hp.push(s.last())[j] == x;
                if j < hp.len() {
                    assert(hp[j] == x);
                }
            }
            if hp.contains(x) {
                let j = choose|j: int| 0 <= j < hp.len() && hp[j] == x;
                assert(hp.push(s.last())[j] == x);
            }
            if x == s.last() {
                assert(hp.push(s.last())[hp.len() as int] == x);
            }
        }
    }
}

} // verus!



