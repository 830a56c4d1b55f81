use vstd::prelude::*;

use crate::json::{Json, JsonV, as_list, get, get_array, get_key, jv, jv_list, lemma_jv_list};
use crate::netg::jocker_twenty::models::{Categories, columns};
use crate::netg::jocker_twenty::split::{
    CategoryV, categories_v, empty_category, empty_category_exec,
};

verus! {

/// The integers of a JSON list, in order, other values skipped.
pub open spec fn ints_in(xs: Seq<JsonV>) -> Seq<i64>
    decreases xs.len(),
{
    if xs.len() == 0 {
        Seq::empty()
    } else {
        match xs.last() {
            JsonV::Int(n) => ints_in(xs.drop_last()).push(n),
            _ => ints_in(xs.drop_last()),
        }
    }
}

/// The rows of a JSON matrix: each list among `xs` as its integers, other values skipped.
pub open spec fn int_rows(xs: Seq<JsonV>) -> Seq<Seq<i64>>
    decreases xs.len(),
{
    if xs.len() == 0 {
        Seq::empty()
    } else {
        match xs.last() {
            JsonV::Array(ys) => int_rows(xs.drop_last()).push(ints_in(ys)),
            _ => int_rows(xs.drop_last()),
        }
    }
}

/// The screen of a transaction: the rows of its `initialMatrix`, empty when it has none.
pub open spec fn initial_matrix(t: JsonV) -> Seq<Seq<i64>> {
    match as_list(get(Some(t), "initialMatrix"@)) {
        Some(xs) => int_rows(xs),
        None => Seq::empty(),
    }
}

/// A row of symbol ids as bytes (each id taken modulo 256).
pub open spec fn as_symbols(r: Seq<i64>) -> Seq<u8> {
    Seq::new(r.len(), |j: int| r[j] as u8)
}

/// Column `i` of every transaction's screen, in order.
pub open spec fn gathered(ts: Seq<Json>, i: int) -> Seq<Seq<u8>> {
    Seq::new(ts.len(), |t: int| as_symbols(initial_matrix(jv(ts[t]))[i]))
}

/// The categories after an extraction: an empty category of `width` reels is appended,
/// and the first category's list of all boards gains, reel by reel, the columns of every
/// transaction's screen.
pub open spec fn extracted(st: Seq<CategoryV>, width: int, ts: Seq<Json>) -> Seq<CategoryV> {
    let s = st.push(empty_category(width));
    let c = s[0];
    s.update(
        0,
        CategoryV {
            count: c.count,
            total: Seq::new(
                c.total.len(),
                |r: int| if r < width { c.total[r] + gathered(ts, r) } else { c.total[r] },
            ),
            filtered: c.filtered,
            unique: c.unique,
            multiplied: c.multiplied,
            reels: c.reels,
        },
    )
}

/// The first category after the columns of transactions `0..t` went to every reel, and
/// that of transaction `t` to reels `0..i`.
pub open spec fn partly_gathered(c: CategoryV, width: int, ts: Seq<Json>, t: int, i: int) -> CategoryV {
    CategoryV {
        count: c.count,
        total: Seq::new(
            c.total.len(),
            |r: int| if r < width {
                c.total[r] + gathered(ts.take(if r < i { t + 1 } else { t }), r)
            } else {
                c.total[r]
            },
        ),
        filtered: c.filtered,
        unique: c.unique,
        multiplied: c.multiplied,
        reels: c.reels,
    }
}

/// A row of symbol ids as bytes (`as_symbols`).
fn symbols_exec(r: &Vec<i64>) -> (b: Vec<u8>)
    ensures
        b@ == as_symbols(r@),
{
    let mut b: Vec<u8> = Vec::new();
    let mut j: usize = 0;
    while j < r.len()
        invariant
            j <= r.len(),
            b@.len() == j,
            forall|k: int| 0 <= k < j ==> b@[k] == r@[k] as u8,
        decreases r.len() - j,
    {
        b.push(#[verifier::truncate] (r[j] as u8));
        j = j + 1;
    }
    assert(b@ =~= as_symbols(r@));
    b
}

/// The integers of a JSON list, in order (`ints_in`).
fn ints_exec(xs: &Vec<Json>) -> (r: Vec<i64>)
    ensures
        r@ == ints_in(jv_list(xs@)),
{
    proof {
        lemma_jv_list(xs@);
    }
    let ghost s = jv_list(xs@);
    let mut r: Vec<i64> = Vec::new();
    let mut j: usize = 0;
    while j < xs.len()
        invariant
            j <= xs.len(),
            s == jv_list(xs@),
            s.len() == xs@.len(),
            forall|t: int| 0 <= t < xs@.len() ==> #[trigger] s[t] == jv(xs@[t]),
            r@ == ints_in(s.take(j as int)),
        decreases xs.len() - j,
    {
        assert(s.take(j + 1).drop_last() =~= s.take(j as int));
        assert(s.take(j + 1).last() == jv(xs@[j as int]));
        match &xs[j] {
            Json::Int(n) => {
                r.push(*n);
            },
            _ => {},
        }
        j = j + 1;
    }
    assert(s.take(xs.len() as int) =~= s);
    r
}

/// The screen of a transaction (`initial_matrix`).
fn matrix_exec(t: &Json) -> (r: Vec<Vec<i64>>)
    ensures
        r@.len() == initial_matrix(jv(*t)).len(),
        forall|k: int| 0 <= k < r@.len() ==> (#[trigger] r@[k])@ == initial_matrix(jv(*t))[k],
{
    let mut r: Vec<Vec<i64>> = Vec::new();
    match get_array(get_key(Some(t), "initialMatrix")) {
        None => {
            r
        },
        Some(xs) => {
            proof {
                lemma_jv_list(xs@);
            }
            let ghost s = jv_list(xs@);
            let mut j: usize = 0;
            while j < xs.len()
                invariant
                    j <= xs.len(),
                    s == jv_list(xs@),
                    s.len() == xs@.len(),
                    forall|t: int| 0 <= t < xs@.len() ==> #[trigger] s[t] == jv(xs@[t]),
                    r@.len() == int_rows(s.take(j as int)).len(),
                    forall|k: int| 0 <= k < r@.len() ==> (#[trigger] r@[k])@ == int_rows(s.take(j as int))[k],
                decreases xs.len() - j,
            {
                assert(s.take(j + 1).drop_last() =~= s.take(j as int));
                assert(s.take(j + 1).last() == jv(xs@[j as int]));
                match &xs[j] {
                    Json::Array(ys) => {
                        let row = ints_exec(ys);
                        r.push(row);
                    },
                    _ => {},
                }
                j = j + 1;
            }
            assert(s.take(xs.len() as int) =~= s);
            r
        },
    }
}

/// Appends an empty category of `width` reels and adds, reel by reel, the columns of
/// every transaction's `initialMatrix` to the first category's list of all boards.
pub fn extract(a_transactions: &Vec<Json>, width: usize, _height: usize, a_categories: &mut Categories)
    requires
        forall|t: int|
            0 <= t < a_transactions@.len() ==> initial_matrix(jv(#[trigger] a_transactions@[t])).len()
                >= width,
        a_transactions@.len() > 0 && width > 0 && old(a_categories).category@.len() > 0
            ==> old(a_categories).category@[0].boards.total@.len() >= width,
    ensures
        categories_v(final(a_categories).category@) == extracted(
            categories_v(old(a_categories).category@),
            width as int,
            a_transactions@,
        ),
        final(a_categories).count == old(a_categories).count,
        final(a_categories).buy_category == old(a_categories).buy_category,
        final(a_categories).settings == old(a_categories).settings,
{
    let ghost st = categories_v(a_categories.category@);
    let ghost ts = a_transactions@;
    let fresh = empty_category_exec(width);
    a_categories.category.push(fresh);
    let ghost s = categories_v(a_categories.category@);
    assert(s =~= st.push(empty_category(width as int)));
    let ghost c = s[0];
    proof {
        let p0 = partly_gathered(c, width as int, ts, 0, 0);
        assert forall|r: int| 0 <= r < c.total.len() implies p0.total[r] == c.total[r] by {
            if r < width {
                assert(gathered(ts.take(0), r) =~= Seq::<Seq<u8>>::empty());
                assert(c.total[r] + gathered(ts.take(0), r) =~= c.total[r]);
            }
        }
        assert(p0.total =~= c.total);
        assert(s.update(0, p0) =~= s);
    }
    let mut t: usize = 0;
    while t < a_transactions.len()
        invariant
            t <= a_transactions@.len(),
            ts == a_transactions@,
            s.len() == a_categories.category@.len(),
            s == st.push(empty_category(width as int)),
            c == s[0],
            forall|u: int|
                0 <= u < ts.len() ==> initial_matrix(jv(#[trigger] ts[u])).len() >= width,
            ts.len() > 0 && width > 0 ==> c.total.len() >= width,
            categories_v(a_categories.category@) == s.update(
                0,
                partly_gathered(c, width as int, ts, t as int, 0),
            ),
            a_categories.count == old(a_categories).count,
            a_categories.buy_category == old(a_categories).buy_category,
            a_categories.settings == old(a_categories).settings,
        decreases a_transactions@.len() - t,
    {
        let m = matrix_exec(&a_transactions[t]);
        assert(m@.len() >= width) by {
            assert(initial_matrix(jv(ts[t as int])).len() >= width);
        }
        let mut i: usize = 0;
        while i < width
            invariant
                i <= width,
                t < ts.len(),
                ts == a_transactions@,
                m@.len() >= width,
                m@.len() == initial_matrix(jv(ts[t as int])).len(),
                forall|k: int| 0 <= k < m@.len() ==> (#[trigger] m@[k])@ == initial_matrix(jv(ts[t as int]))[k],
                s.len() == a_categories.category@.len(),
                s.len() >= 1,
                c == s[0],
                width > 0 ==> c.total.len() >= width,
                categories_v(a_categories.category@) == s.update(
                    0,
                    partly_gathered(c, width as int, ts, t as int, i as int),
                ),
                a_categories.count == old(a_categories).count,
                a_categories.buy_category == old(a_categories).buy_category,
                a_categories.settings == old(a_categories).settings,
            decreases width - i,
        {
            let row = symbols_exec(&m[i]);
            let ghost before = a_categories.category@;
            let ghost vb = categories_v(before);
            assert(vb[0] == partly_gathered(c, width as int, ts, t as int, i as int));
            assert(vb[0].total.len() == before[0].boards.total@.len());
            a_categories.category[0].boards.total[i].instanses.push(row);
            proof {
                assert(a_categories.category@[0].boards.total@ =~= before[0].boards.total@.update(
                    i as int,
                    a_categories.category@[0].boards.total@[i as int],
                ));
                crate::netg::jocker_twenty::split::lemma_with_total(before, a_categories.category@, 0, i as int);
                assert(columns(a_categories.category@[0].boards.total@[i as int].instanses@) =~= columns(
                    before[0].boards.total@[i as int].instanses@,
                ).push(row@));
                assert(ts.take(t + 1).drop_last() =~= ts.take(t as int));
                assert(gathered(ts.take(t + 1), i as int) =~= gathered(ts.take(t as int), i as int).push(row@));
                let nv = partly_gathered(c, width as int, ts, t as int, i + 1);
                assert(nv.total =~= vb[0].total.update(i as int, vb[0].total[i as int].push(row@)));
                assert(categories_v(a_categories.category@) =~= s.update(0, nv));
            }
            i = i + 1;
        }
        proof {
            let a = partly_gathered(c, width as int, ts, t as int, width as int);
            let b = partly_gathered(c, width as int, ts, (t + 1) as int, 0);
            assert(a.total =~= b.total);
        }
        t = t + 1;
    }
    proof {
        assert(ts.take(ts.len() as int) =~= ts);
        let a = partly_gathered(c, width as int, ts, ts.len() as int, 0);
        let e = extracted(st, width as int, ts);
        assert(a.total =~= e[0].total);
        assert(categories_v(a_categories.category@) =~= e);
    }
}

/// The number of columns of a transaction's screen (`initial_matrix`).
pub fn screen_columns(t: &Json) -> (n: usize)
    ensures
        n == initial_matrix(jv(*t)).len(),
{
    matrix_exec(t).len()
}


/// Extraction appends, to the list of all boards of reel `r` of the first category, one
/// board per transaction in order: row `r` of its `initialMatrix`, each symbol as a byte;
/// and adds one empty category at the end, leaving the others as they were.
pub proof fn law_extract_appends_screens(st: Seq<CategoryV>, width: int, ts: Seq<Json>, r: int, j: int)
    requires
        st.len() >= 1,
        0 <= r < width,
        r < st[0].total.len(),
        0 <= j < ts.len(),
    ensures
        ({
            let e = extracted(st, width, ts);
            &&& e.len() == st.len() + 1
            &&& e[st.len() as int] == empty_category(width)
            &&& forall|k: int| 0 < k < st.len() ==> #[trigger] e[k] == st[k]
            &&& e[0].total[r].len() == st[0].total[r].len() + ts.len()
            &&& e[0].total[r][st[0].total[r].len() + j] == as_symbols(initial_matrix(jv(ts[j]))[r])
            &&& forall|q: int| 0 <= q < st[0].total[r].len() ==> #[trigger] e[0].total[r][q] == st[0].total[r][q]
        }),
{
    let e = extracted(st, width, ts);
    let s = st.push(empty_category(width));
    assert(s[0] == st[0]);
    assert forall|k: int| 0 < k < st.len() implies #[trigger] e[k] == st[k] by {
        assert(s[k] == st[k]);
    }
}

} // verus!
