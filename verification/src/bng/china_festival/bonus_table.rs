use vstd::prelude::*;

use crate::bng::china_festival::tallies::mechanics_of;
use crate::bng::three_aztec_temples::boards::{copy_i64, same_i64};
use crate::bng::three_aztec_temples::models::{ByBonusLenght, ByMechanic, Category, Symbol};

verus! {

/// The values summed of the first `n` entries whose mechanics are `id`.
pub open spec fn id_sum(ps: Seq<(Seq<i64>, i64)>, id: Seq<i64>, n: nat) -> int
    decreases n,
{
    if n == 0 || n > ps.len() {
        0
    } else {
        id_sum(ps, id, (n - 1) as nat) + if ps[n - 1].0 == id {
            ps[n - 1].1 as int
        } else {
            0
        }
    }
}

/// The values summed of the first `n` entries whose mechanics are `id` and whose symbol
/// combination is `key`.
pub open spec fn key_sum(ts: Seq<(Seq<i64>, Seq<i64>, i64)>, id: Seq<i64>, key: Seq<i64>, n: nat) -> int
    decreases n,
{
    if n == 0 || n > ts.len() {
        0
    } else {
        key_sum(ts, id, key, (n - 1) as nat) + if ts[n - 1].0 == id && ts[n - 1].1 == key {
            ts[n - 1].2 as int
        } else {
            0
        }
    }
}

/// Whether one of the first `t` entries has mechanics `id` and combination `k`.
pub open spec fn key_seen(v: Seq<(Seq<i64>, Seq<i64>, i64)>, id: Seq<i64>, k: Seq<i64>, t: int) -> bool {
    exists|t2: int| 0 <= t2 < t && v[t2].0 == id && v[t2].1 == k
}

/// Whether one of the first `n` entries has mechanics `id`.
pub open spec fn id_seen(ps: Seq<(Seq<i64>, i64)>, id: Seq<i64>, n: int) -> bool {
    exists|i: int| 0 <= i < n && ps[i].0 == id
}

/// The combinations of mechanics `id`: each combination that an entry of `id` has, once,
/// with its values summed (`key_sum`), and no other.
pub open spec fn key_table(ts: Seq<(Seq<i64>, Seq<i64>, i64)>, id: Seq<i64>, ks: Seq<(Seq<i64>, int)>) -> bool {
    &&& forall|q: int| 0 <= q < ks.len() ==> key_seen(ts, id, (#[trigger] ks[q]).0, ts.len() as int)
    &&& forall|t: int| 0 <= t < ts.len() && (#[trigger] ts[t]).0 == id ==> exists|q: int| 0 <= q < ks.len() && ks[q].0 == ts[t].1
    &&& forall|q1: int, q2: int| 0 <= q1 < q2 < ks.len() ==> (#[trigger] ks[q1]).0 != (#[trigger] ks[q2]).0
    &&& forall|q: int| 0 <= q < ks.len() ==> (#[trigger] ks[q]).1 == key_sum(ts, id, ks[q].0, ts.len())
}

/// Whether mechanics `id` has a row.
pub open spec fn row_of(rows: Seq<(Seq<i64>, int, Seq<(Seq<i64>, int)>)>, id: Seq<i64>) -> bool {
    exists|j: int| 0 <= j < rows.len() && rows[j].0 == id
}

/// The bonus table by mechanics: each mechanics that an entry of `ps` has, once, with its
/// values summed (`id_sum`) and its combinations (`key_table`), and no other.
pub open spec fn bonus_table(
    ps: Seq<(Seq<i64>, i64)>,
    ts: Seq<(Seq<i64>, Seq<i64>, i64)>,
    rows: Seq<(Seq<i64>, int, Seq<(Seq<i64>, int)>)>,
) -> bool {
    &&& forall|j: int| 0 <= j < rows.len() ==> id_seen(ps, (#[trigger] rows[j]).0, ps.len() as int)
    &&& forall|i: int| 0 <= i < ps.len() ==> row_of(rows, (#[trigger] ps[i]).0)
    &&& forall|j1: int, j2: int| 0 <= j1 < j2 < rows.len() ==> (#[trigger] rows[j1]).0 != (#[trigger] rows[j2]).0
    &&& forall|j: int| 0 <= j < rows.len() ==> (#[trigger] rows[j]).1 == id_sum(ps, rows[j].0, ps.len())
    &&& forall|j: int| 0 <= j < rows.len() ==> key_table(ts, (#[trigger] rows[j]).0, rows[j].2)
}

pub open spec fn pairs_v(ps: Seq<(Vec<i64>, i64)>) -> Seq<(Seq<i64>, i64)> {
    Seq::new(ps.len(), |i: int| (ps[i].0@, ps[i].1))
}

pub open spec fn triples_v(ts: Seq<(Vec<i64>, Vec<i64>, i64)>) -> Seq<(Seq<i64>, Seq<i64>, i64)> {
    Seq::new(ts.len(), |i: int| (ts[i].0@, ts[i].1@, ts[i].2))
}

pub open spec fn keys_v(ks: Seq<(Vec<i64>, i128)>) -> Seq<(Seq<i64>, int)> {
    Seq::new(ks.len(), |q: int| (ks[q].0@, ks[q].1 as int))
}

pub open spec fn rows_v(rows: Seq<(Vec<i64>, i128, Vec<(Vec<i64>, i128)>)>) -> Seq<(Seq<i64>, int, Seq<(Seq<i64>, int)>)> {
    Seq::new(rows.len(), |j: int| (rows[j].0@, rows[j].1 as int, keys_v(rows[j].2@)))
}

proof fn lemma_id_sum_bound(ps: Seq<(Seq<i64>, i64)>, id: Seq<i64>, n: nat)
    ensures
        -(n as int) * 0x8000_0000_0000_0000 <= id_sum(ps, id, n) <= (n as int) * 0x8000_0000_0000_0000,
    decreases n,
{
    if n > 0 && n <= ps.len() {
        lemma_id_sum_bound(ps, id, (n - 1) as nat);
    } else if n > ps.len() {
        assert(0 <= (n as int) * 0x8000_0000_0000_0000) by (nonlinear_arith);
    }
}

proof fn lemma_key_sum_bound(ts: Seq<(Seq<i64>, Seq<i64>, i64)>, id: Seq<i64>, key: Seq<i64>, n: nat)
    ensures
        -(n as int) * 0x8000_0000_0000_0000 <= key_sum(ts, id, key, n) <= (n as int) * 0x8000_0000_0000_0000,
    decreases n,
{
    if n > 0 && n <= ts.len() {
        lemma_key_sum_bound(ts, id, key, (n - 1) as nat);
    } else if n > ts.len() {
        assert(0 <= (n as int) * 0x8000_0000_0000_0000) by (nonlinear_arith);
    }
}

proof fn lemma_fits(i: int)
    requires
        0 <= i < 0xffff_ffff_ffff_ffff,
    ensures
        (i + 1) * 0x8000_0000_0000_0000 < 0x8000_0000_0000_0000_0000_0000_0000_0000,
{
    assert((i + 1) * 0x8000_0000_0000_0000 <= 0xffff_ffff_ffff_ffff * 0x8000_0000_0000_0000) by (nonlinear_arith)
        requires
            0 <= i < 0xffff_ffff_ffff_ffff,
    ;
}

fn id_total(ps: &Vec<(Vec<i64>, i64)>, id: &Vec<i64>) -> (r: i128)
    ensures
        r == id_sum(pairs_v(ps@), id@, ps@.len()),
{
    let ghost v = pairs_v(ps@);
    let mut s: i128 = 0;
    let mut i: usize = 0;
    while i < ps.len()
        invariant
            v == pairs_v(ps@),
            i <= ps@.len(),
            s == id_sum(v, id@, i as nat),
        decreases ps.len() - i,
    {
        proof {
            lemma_id_sum_bound(v, id@, i as nat);
            lemma_fits(i as int);
        }
        if same_i64(&ps[i].0, id) {
            s = s + ps[i].1 as i128;
        }
        i = i + 1;
    }
    s
}

fn key_total(ts: &Vec<(Vec<i64>, Vec<i64>, i64)>, id: &Vec<i64>, key: &Vec<i64>) -> (r: i128)
    ensures
        r == key_sum(triples_v(ts@), id@, key@, ts@.len()),
{
    let ghost v = triples_v(ts@);
    let mut s: i128 = 0;
    let mut i: usize = 0;
    while i < ts.len()
        invariant
            v == triples_v(ts@),
            i <= ts@.len(),
            s == key_sum(v, id@, key@, i as nat),
        decreases ts.len() - i,
    {
        proof {
            lemma_key_sum_bound(v, id@, key@, i as nat);
            lemma_fits(i as int);
        }
        if same_i64(&ts[i].0, id) && same_i64(&ts[i].1, key) {
            s = s + ts[i].2 as i128;
        }
        i = i + 1;
    }
    s
}

fn has_key(ks: &Vec<(Vec<i64>, i128)>, k: &Vec<i64>) -> (r: bool)
    ensures
        r == exists|q: int| 0 <= q < ks@.len() && ks@[q].0@ == k@,
{
    let mut q: usize = 0;
    while q < ks.len()
        invariant
            q <= ks@.len(),
            forall|q2: int| 0 <= q2 < q ==> ks@[q2].0@ != k@,
        decreases ks.len() - q,
    {
        if same_i64(&ks[q].0, k) {
            return true;
        }
        q = q + 1;
    }
    false
}

/// Whether combination `k` has a row.
pub open spec fn key_listed(ks: Seq<(Vec<i64>, i128)>, k: Seq<i64>) -> bool {
    exists|q: int| 0 <= q < ks.len() && ks[q].0@ == k
}

fn key_rows(ts: &Vec<(Vec<i64>, Vec<i64>, i64)>, id: &Vec<i64>) -> (ks: Vec<(Vec<i64>, i128)>)
    ensures
        key_table(triples_v(ts@), id@, keys_v(ks@)),
{
    let ghost v = triples_v(ts@);
    let mut ks: Vec<(Vec<i64>, i128)> = Vec::new();
    let mut t: usize = 0;
    while t < ts.len()
        invariant
            v == triples_v(ts@),
            t <= ts@.len(),
            forall|q: int| 0 <= q < ks@.len() ==> key_seen(v, id@, (#[trigger] ks@[q]).0@, t as int),
            forall|t2: int| 0 <= t2 < t && (#[trigger] v[t2]).0 == id@ ==> key_listed(ks@, v[t2].1),
            forall|q1: int, q2: int| 0 <= q1 < q2 < ks@.len() ==> (#[trigger] ks@[q1]).0@ != (#[trigger] ks@[q2]).0@,
            forall|q: int| 0 <= q < ks@.len() ==> (#[trigger] ks@[q]).1 == key_sum(v, id@, ks@[q].0@, v.len()),
        decreases ts.len() - t,
    {
        let ghost old_ks = ks@;
        assert(v[t as int].0 == ts@[t as int].0@ && v[t as int].1 == ts@[t as int].1@);
        if same_i64(&ts[t].0, id) && !has_key(&ks, &ts[t].1) {
            let sum = key_total(ts, id, &ts[t].1);
            let key = copy_i64(&ts[t].1);
            ks.push((key, sum));
            proof {
                assert(ks@[old_ks.len() as int].0@ == v[t as int].1);
                assert(key_seen(v, id@, v[t as int].1, t + 1));
                assert forall|q: int| 0 <= q < ks@.len() implies key_seen(v, id@, (#[trigger] ks@[q]).0@, t + 1) by {
                    if q < old_ks.len() {
                        assert(ks@[q] == old_ks[q]);
                        assert(key_seen(v, id@, old_ks[q].0@, t as int));
                        let t2 = choose|t2: int| 0 <= t2 < t && v[t2].0 == id@ && v[t2].1 == old_ks[q].0@;
                    }
                }
                assert forall|t2: int| 0 <= t2 < t + 1 && (#[trigger] v[t2]).0 == id@ implies key_listed(ks@, v[t2].1) by {
                    if t2 < t {
                        assert(key_listed(old_ks, v[t2].1));
                        let q = choose|q: int| 0 <= q < old_ks.len() && old_ks[q].0@ == v[t2].1;
                        assert(ks@[q] == old_ks[q]);
                    } else {
                        assert(ks@[old_ks.len() as int].0@ == v[t2].1);
                    }
                }
                assert forall|q1: int, q2: int| 0 <= q1 < q2 < ks@.len() implies (#[trigger] ks@[q1]).0@ != (#[trigger] ks@[q2]).0@ by {
                    assert(ks@[q1] == old_ks[q1]);
                    if q2 < old_ks.len() {
                        assert(ks@[q2] == old_ks[q2]);
                    } else {
                        assert(!key_listed(old_ks, v[t as int].1));
                    }
                }
                assert forall|q: int| 0 <= q < ks@.len() implies (#[trigger] ks@[q]).1 == key_sum(v, id@, ks@[q].0@, v.len()) by {
                    if q < old_ks.len() {
                        assert(ks@[q] == old_ks[q]);
                    }
                }
            }
        } else {
            proof {
                assert forall|q: int| 0 <= q < ks@.len() implies key_seen(v, id@, (#[trigger] ks@[q]).0@, t + 1) by {
                    assert(key_seen(v, id@, ks@[q].0@, t as int));
                    let t2 = choose|t2: int| 0 <= t2 < t && v[t2].0 == id@ && v[t2].1 == ks@[q].0@;
                }
            }
        }
        t = t + 1;
    }
    proof {
        let kv = keys_v(ks@);
        assert forall|t2: int| 0 <= t2 < v.len() && (#[trigger] v[t2]).0 == id@ implies exists|q: int| 0 <= q < kv.len() && kv[q].0 == v[t2].1 by {
            assert(key_listed(ks@, v[t2].1));
            let q = choose|q: int| 0 <= q < ks@.len() && ks@[q].0@ == v[t2].1;
            assert(kv[q].0 == ks@[q].0@);
        }
        assert forall|q: int| 0 <= q < kv.len() implies key_seen(v, id@, (#[trigger] kv[q]).0, v.len() as int) by {
            assert(kv[q].0 == ks@[q].0@);
            assert(key_seen(v, id@, ks@[q].0@, v.len() as int));
        }
        assert forall|q1: int, q2: int| 0 <= q1 < q2 < kv.len() implies (#[trigger] kv[q1]).0 != (#[trigger] kv[q2]).0 by {
            assert(ks@[q1].0@ != ks@[q2].0@);
        }
        assert forall|q: int| 0 <= q < kv.len() implies (#[trigger] kv[q]).1 == key_sum(v, id@, kv[q].0, v.len()) by {
            assert(kv[q].0 == ks@[q].0@);
        }
    }
    ks
}

/// Whether mechanics `id` has a row.
pub open spec fn id_listed(rows: Seq<(Vec<i64>, i128, Vec<(Vec<i64>, i128)>)>, id: Seq<i64>) -> bool {
    exists|j: int| 0 <= j < rows.len() && rows[j].0@ == id
}

fn has_id(rows: &Vec<(Vec<i64>, i128, Vec<(Vec<i64>, i128)>)>, id: &Vec<i64>) -> (r: bool)
    ensures
        r == id_listed(rows@, id@),
{
    let mut j: usize = 0;
    while j < rows.len()
        invariant
            j <= rows@.len(),
            forall|j2: int| 0 <= j2 < j ==> rows@[j2].0@ != id@,
        decreases rows.len() - j,
    {
        if same_i64(&rows[j].0, id) {
            return true;
        }
        j = j + 1;
    }
    false
}

fn bonus_rows(ps: &Vec<(Vec<i64>, i64)>, ts: &Vec<(Vec<i64>, Vec<i64>, i64)>) -> (rows: Vec<(Vec<i64>, i128, Vec<(Vec<i64>, i128)>)>)
    ensures
        bonus_table(pairs_v(ps@), triples_v(ts@), rows_v(rows@)),
{
    let ghost v = pairs_v(ps@);
    let ghost w = triples_v(ts@);
    let mut rows: Vec<(Vec<i64>, i128, Vec<(Vec<i64>, i128)>)> = Vec::new();
    let mut i: usize = 0;
    while i < ps.len()
        invariant
            v == pairs_v(ps@),
            w == triples_v(ts@),
            i <= ps@.len(),
            forall|j: int| 0 <= j < rows@.len() ==> id_seen(v, (#[trigger] rows@[j]).0@, i as int),
            forall|i2: int| 0 <= i2 < i ==> id_listed(rows@, (#[trigger] v[i2]).0),
            forall|j1: int, j2: int| 0 <= j1 < j2 < rows@.len() ==> (#[trigger] rows@[j1]).0@ != (#[trigger] rows@[j2]).0@,
            forall|j: int| 0 <= j < rows@.len() ==> (#[trigger] rows@[j]).1 == id_sum(v, rows@[j].0@, v.len()),
            forall|j: int| 0 <= j < rows@.len() ==> key_table(w, (#[trigger] rows@[j]).0@, keys_v(rows@[j].2@)),
        decreases ps.len() - i,
    {
        let ghost old_rows = rows@;
        assert(v[i as int].0 == ps@[i as int].0@);
        if !has_id(&rows, &ps[i].0) {
            let sum = id_total(ps, &ps[i].0);
            let keys = key_rows(ts, &ps[i].0);
            let id = copy_i64(&ps[i].0);
            rows.push((id, sum, keys));
            proof {
                assert(rows@[old_rows.len() as int].0@ == v[i as int].0);
                assert(id_seen(v, v[i as int].0, i + 1));
                assert forall|j: int| 0 <= j < rows@.len() implies id_seen(v, (#[trigger] rows@[j]).0@, i + 1) by {
                    if j < old_rows.len() {
                        assert(rows@[j] == old_rows[j]);
                        assert(id_seen(v, old_rows[j].0@, i as int));
                        let i2 = choose|i2: int| 0 <= i2 < i && v[i2].0 == old_rows[j].0@;
                    }
                }
                assert forall|i2: int| 0 <= i2 < i + 1 implies id_listed(rows@, (#[trigger] v[i2]).0) by {
                    if i2 < i {
                        assert(id_listed(old_rows, v[i2].0));
                        let j = choose|j: int| 0 <= j < old_rows.len() && old_rows[j].0@ == v[i2].0;
                        assert(rows@[j] == old_rows[j]);
                    } else {
                        assert(rows@[old_rows.len() as int].0@ == v[i2].0);
                    }
                }
                assert forall|j1: int, j2: int| 0 <= j1 < j2 < rows@.len() implies (#[trigger] rows@[j1]).0@ != (#[trigger] rows@[j2]).0@ by {
                    assert(rows@[j1] == old_rows[j1]);
                    if j2 < old_rows.len() {
                        assert(rows@[j2] == old_rows[j2]);
                    } else {
                        assert(!id_listed(old_rows, v[i as int].0));
                    }
                }
                assert forall|j: int| 0 <= j < rows@.len() implies (#[trigger] rows@[j]).1 == id_sum(v, rows@[j].0@, v.len()) by {
                    if j < old_rows.len() {
                        assert(rows@[j] == old_rows[j]);
                    }
                }
                assert forall|j: int| 0 <= j < rows@.len() implies key_table(w, (#[trigger] rows@[j]).0@, keys_v(rows@[j].2@)) by {
                    if j < old_rows.len() {
                        assert(rows@[j] == old_rows[j]);
                    }
                }
            }
        } else {
            proof {
                assert forall|j: int| 0 <= j < rows@.len() implies id_seen(v, (#[trigger] rows@[j]).0@, i + 1) by {
                    assert(id_seen(v, rows@[j].0@, i as int));
                    let i2 = choose|i2: int| 0 <= i2 < i && v[i2].0 == rows@[j].0@;
                }
            }
        }
        i = i + 1;
    }
    proof {
        let rv = rows_v(rows@);
        assert forall|j: int| 0 <= j < rv.len() implies id_seen(v, (#[trigger] rv[j]).0, v.len() as int) by {
            assert(rv[j].0 == rows@[j].0@);
            assert(id_seen(v, rows@[j].0@, v.len() as int));
        }
        assert forall|i2: int| 0 <= i2 < v.len() implies row_of(rv, (#[trigger] v[i2]).0) by {
            assert(id_listed(rows@, v[i2].0));
            let j = choose|j: int| 0 <= j < rows@.len() && rows@[j].0@ == v[i2].0;
            assert(rv[j].0 == rows@[j].0@);
        }
        assert forall|j1: int, j2: int| 0 <= j1 < j2 < rv.len() implies (#[trigger] rv[j1]).0 != (#[trigger] rv[j2]).0 by {
            assert(rows@[j1].0@ != rows@[j2].0@);
        }
        assert forall|j: int| 0 <= j < rv.len() implies (#[trigger] rv[j]).1 == id_sum(v, rv[j].0, v.len()) by {
            assert(rv[j].0 == rows@[j].0@);
        }
        assert forall|j: int| 0 <= j < rv.len() implies key_table(w, (#[trigger] rv[j]).0, rv[j].2) by {
            assert(rv[j].0 == rows@[j].0@);
            assert(rv[j].2 == keys_v(rows@[j].2@));
        }
    }
    rows
}

/// The (mechanics, reappearances) of each bonus mechanics entry, in order.
pub open spec fn reap_entries(ms: Seq<ByMechanic>) -> Seq<(Seq<i64>, i64)> {
    Seq::new(ms.len(), |i: int| (ms[i].id@, ms[i].reappearances))
}

/// The (mechanics, combination, count) of each symbol combination of the first `n` bonus
/// mechanics entries, in order.
pub open spec fn combo_entries(ms: Seq<ByMechanic>, n: nat) -> Seq<(Seq<i64>, Seq<i64>, i64)>
    decreases n,
{
    if n == 0 || n > ms.len() {
        Seq::empty()
    } else {
        combo_entries(ms, (n - 1) as nat) + Seq::new(
            ms[n - 1].combo_symbols@.len(),
            |q: int| (ms[n - 1].id@, ms[n - 1].combo_symbols@[q].0@, ms[n - 1].combo_symbols@[q].1),
        )
    }
}

proof fn lemma_combo_prefix(s: Seq<ByMechanic>, t: Seq<ByMechanic>, k: nat)
    requires
        k <= s.len(),
        k <= t.len(),
        forall|i: int| 0 <= i < k ==> s[i] == t[i],
    ensures
        combo_entries(s, k) == combo_entries(t, k),
    decreases k,
{
    if k > 0 {
        lemma_combo_prefix(s, t, (k - 1) as nat);
    }
}

/// The integer part of the bonus table of a Fugaso settings file: over the bonus
/// mechanics entries of all the categories, each mechanics once with its reappearances
/// summed, and each of its symbol combinations once with their counts summed
/// (`bonus_table`).
pub fn fugaso_bonus_table(cats: &Vec<Category>) -> (r: Vec<(Vec<i64>, i128, Vec<(Vec<i64>, i128)>)>)
    ensures
        ({
            let ms = mechanics_of(cats@, cats@.len());
            bonus_table(reap_entries(ms), combo_entries(ms, ms.len()), rows_v(r@))
        }),
{
    let mut ps: Vec<(Vec<i64>, i64)> = Vec::new();
    let mut ts: Vec<(Vec<i64>, Vec<i64>, i64)> = Vec::new();
    let mut c: usize = 0;
    while c < cats.len()
        invariant
            c <= cats@.len(),
            pairs_v(ps@) == reap_entries(mechanics_of(cats@, c as nat)),
            triples_v(ts@) == combo_entries(mechanics_of(cats@, c as nat), mechanics_of(cats@, c as nat).len()),
        decreases cats.len() - c,
    {
        let bm = &cats[c].bonus.by_mechanics;
        let ghost base = mechanics_of(cats@, c as nat);
        let mut m: usize = 0;
        while m < bm.len()
            invariant
                bm == &cats@[c as int].bonus.by_mechanics,
                m <= bm@.len(),
                pairs_v(ps@) == reap_entries(base + bm@.take(m as int)),
                triples_v(ts@) == combo_entries(base + bm@.take(m as int), (base + bm@.take(m as int)).len()),
            decreases bm.len() - m,
        {
            let mech = &bm[m];
            let ghost done = base + bm@.take(m as int);
            let ghost next = base + bm@.take(m + 1);
            assert(next =~= done.push(bm@[m as int]));
            let ghost old_ps = ps@;
            assert(pairs_v(old_ps).len() == old_ps.len());
            assert(reap_entries(done).len() == done.len());
            assert(old_ps.len() == done.len());
            let id = copy_i64(&mech.id);
            ps.push((id, mech.reappearances));
            assert forall|i: int| 0 <= i < next.len() implies #[trigger] pairs_v(ps@)[i] == reap_entries(next)[i] by {
                if i < old_ps.len() {
                    assert(ps@[i] == old_ps[i]);
                    assert(pairs_v(old_ps)[i] == reap_entries(done)[i]);
                    assert(next[i] == done[i]);
                }
            }
            assert(pairs_v(ps@) =~= reap_entries(next));
            let ghost before = triples_v(ts@);
            let mut q: usize = 0;
            while q < mech.combo_symbols.len()
                invariant
                    m < bm@.len(),
                    mech == &bm@[m as int],
                    q <= mech.combo_symbols@.len(),
                    triples_v(ts@) == before + Seq::new(
                        q as nat,
                        |k: int| (mech.id@, mech.combo_symbols@[k].0@, mech.combo_symbols@[k].1),
                    ),
                decreases mech.combo_symbols.len() - q,
            {
                let ghost old_ts = ts@;
                let a = copy_i64(&mech.id);
                let b = copy_i64(&mech.combo_symbols[q].0);
                ts.push((a, b, mech.combo_symbols[q].1));
                let ghost want = before + Seq::new(
                    (q + 1) as nat,
                    |k: int| (mech.id@, mech.combo_symbols@[k].0@, mech.combo_symbols@[k].1),
                );
                let ghost have = before + Seq::new(
                    q as nat,
                    |k: int| (mech.id@, mech.combo_symbols@[k].0@, mech.combo_symbols@[k].1),
                );
                assert(triples_v(old_ts) == have);
                assert(old_ts.len() == have.len());
                assert(want.len() == ts@.len());
                assert forall|i: int| 0 <= i < want.len() implies #[trigger] triples_v(ts@)[i] == want[i] by {
                    if i < old_ts.len() {
                        assert(ts@[i] == old_ts[i]);
                        assert(triples_v(old_ts)[i] == triples_v(ts@)[i]);
                        assert(have[i] == want[i]);
                    } else {
                        assert(ts@[i] == (a, b, mech.combo_symbols@[q as int].1));
                    }
                }
                assert(triples_v(ts@) =~= before + Seq::new(
                    (q + 1) as nat,
                    |k: int| (mech.id@, mech.combo_symbols@[k].0@, mech.combo_symbols@[k].1),
                ));
                q = q + 1;
            }
            proof {
                lemma_combo_prefix(done, next, done.len());
                assert(combo_entries(next, next.len()) == combo_entries(next, done.len()) + Seq::new(
                    mech.combo_symbols@.len(),
                    |k: int| (mech.id@, mech.combo_symbols@[k].0@, mech.combo_symbols@[k].1),
                ));
                assert(triples_v(ts@) =~= combo_entries(next, next.len()));
            }
            m = m + 1;
        }
        assert(bm@.take(bm@.len() as int) =~= bm@);
        assert(mechanics_of(cats@, (c + 1) as nat) == base + bm@);
        c = c + 1;
    }
    bonus_rows(&ps, &ts)
}

/// The key of length `i` of mechanics `id`: the ids followed by `i`.
pub open spec fn len_key(id: Seq<i64>, i: int) -> Seq<i64> {
    id.push(i as i64)
}

/// The (length key, respins) of each bonus length of a mechanics entry, in order.
pub open spec fn respin_block(m: ByMechanic) -> Seq<(Seq<i64>, i64)> {
    Seq::new(m.by_bonus_lenghts@.len(), |i: int| (len_key(m.id@, i), m.by_bonus_lenghts@[i].respins))
}

/// The symbols of a bonus length, or its mystery symbols.
pub open spec fn picked(b: ByBonusLenght, mystery: bool) -> Seq<Symbol> {
    if mystery {
        b.mystery_symbols@
    } else {
        b.symbols@
    }
}

/// The (length key, symbol id, count) of each symbol (or mystery symbol) of the first
/// `k` bonus lengths of mechanics `id`, in order.
pub open spec fn symbol_block(id: Seq<i64>, bls: Seq<ByBonusLenght>, k: nat, mystery: bool) -> Seq<(Seq<i64>, Seq<i64>, i64)>
    decreases k,
{
    if k == 0 || k > bls.len() {
        Seq::empty()
    } else {
        let ss = picked(bls[k - 1], mystery);
        symbol_block(id, bls, (k - 1) as nat, mystery) + Seq::new(
            ss.len(),
            |q: int| (len_key(id, k - 1), seq![ss[q].id], ss[q].count),
        )
    }
}

/// `respin_block` of the first `n` mechanics entries, joined.
pub open spec fn respin_entries(ms: Seq<ByMechanic>, n: nat) -> Seq<(Seq<i64>, i64)>
    decreases n,
{
    if n == 0 || n > ms.len() {
        Seq::empty()
    } else {
        respin_entries(ms, (n - 1) as nat) + respin_block(ms[n - 1])
    }
}

/// `symbol_block` of the first `n` mechanics entries, joined.
pub open spec fn symbol_entries(ms: Seq<ByMechanic>, n: nat, mystery: bool) -> Seq<(Seq<i64>, Seq<i64>, i64)>
    decreases n,
{
    if n == 0 || n > ms.len() {
        Seq::empty()
    } else {
        symbol_entries(ms, (n - 1) as nat, mystery) + symbol_block(
            ms[n - 1].id@,
            ms[n - 1].by_bonus_lenghts@,
            ms[n - 1].by_bonus_lenghts@.len(),
            mystery,
        )
    }
}

fn push_respins(m: &ByMechanic, rs: &mut Vec<(Vec<i64>, i64)>)
    ensures
        pairs_v(final(rs)@) == pairs_v(old(rs)@) + respin_block(*m),
{
    let ghost before = pairs_v(rs@);
    let bls = &m.by_bonus_lenghts;
    let mut i: usize = 0;
    while i < bls.len()
        invariant
            bls == &m.by_bonus_lenghts,
            i <= bls@.len(),
            pairs_v(rs@) == before + respin_block(*m).take(i as int),
        decreases bls.len() - i,
    {
        let ghost old_rs = rs@;
        let mut key = copy_i64(&m.id);
        key.push(i as i64);
        assert(key@ == len_key(m.id@, i as int));
        rs.push((key, bls[i].respins));
        let ghost want = before + respin_block(*m).take(i + 1);
        assert(old_rs.len() == pairs_v(old_rs).len());
        assert(want.len() == rs@.len());
        assert forall|j: int| 0 <= j < want.len() implies #[trigger] pairs_v(rs@)[j] == want[j] by {
            if j < old_rs.len() {
                assert(rs@[j] == old_rs[j]);
                assert(pairs_v(old_rs)[j] == (before + respin_block(*m).take(i as int))[j]);
                if j >= before.len() {
                    assert(respin_block(*m).take(i as int)[j - before.len()] == respin_block(*m).take(i + 1)[j - before.len()]);
                }
            } else {
                assert(j == before.len() + i);
                assert(want[j] == respin_block(*m)[i as int]);
            }
        }
        assert(pairs_v(rs@) =~= want);
        i = i + 1;
    }
    assert(respin_block(*m).take(bls@.len() as int) =~= respin_block(*m));
}

fn push_symbols(id: &Vec<i64>, b: &ByBonusLenght, k: usize, mystery: bool, ts: &mut Vec<(Vec<i64>, Vec<i64>, i64)>)
    ensures
        triples_v(final(ts)@) == triples_v(old(ts)@) + Seq::new(
            picked(*b, mystery).len(),
            |q: int| (len_key(id@, k as int), seq![picked(*b, mystery)[q].id], picked(*b, mystery)[q].count),
        ),
{
    let ss = if mystery {
        &b.mystery_symbols
    } else {
        &b.symbols
    };
    let ghost before = triples_v(ts@);
    let ghost blk = Seq::new(
        picked(*b, mystery).len(),
        |q: int| (len_key(id@, k as int), seq![picked(*b, mystery)[q].id], picked(*b, mystery)[q].count),
    );
    let mut q: usize = 0;
    while q < ss.len()
        invariant
            ss@ == picked(*b, mystery),
            blk.len() == ss@.len(),
            blk == Seq::new(
                picked(*b, mystery).len(),
                |q: int| (len_key(id@, k as int), seq![picked(*b, mystery)[q].id], picked(*b, mystery)[q].count),
            ),
            q <= ss@.len(),
            triples_v(ts@) == before + blk.take(q as int),
        decreases ss.len() - q,
    {
        let ghost old_ts = ts@;
        let mut key = copy_i64(id);
        key.push(k as i64);
        let mut sid: Vec<i64> = Vec::new();
        sid.push(ss[q].id);
        assert(key@ == len_key(id@, k as int));
        ts.push((key, sid, ss[q].count));
        let ghost want = before + blk.take(q + 1);
        assert(sid@ =~= seq![ss@[q as int].id]);
        assert(old_ts.len() == triples_v(old_ts).len());
        assert(want.len() == ts@.len());
        assert forall|j: int| 0 <= j < want.len() implies #[trigger] triples_v(ts@)[j] == want[j] by {
            if j < old_ts.len() {
                assert(ts@[j] == old_ts[j]);
                assert(triples_v(old_ts)[j] == (before + blk.take(q as int))[j]);
                if j >= before.len() {
                    assert(blk.take(q as int)[j - before.len()] == blk.take(q + 1)[j - before.len()]);
                }
            } else {
                assert(j == before.len() + q);
                assert(want[j] == blk[q as int]);
            }
        }
        assert(triples_v(ts@) =~= want);
        q = q + 1;
    }
    assert(blk.take(ss@.len() as int) =~= blk);
}

fn push_all_symbols(m: &ByMechanic, mystery: bool, ts: &mut Vec<(Vec<i64>, Vec<i64>, i64)>)
    ensures
        triples_v(final(ts)@) == triples_v(old(ts)@) + symbol_block(
            m.id@,
            m.by_bonus_lenghts@,
            m.by_bonus_lenghts@.len(),
            mystery,
        ),
{
    let ghost before = triples_v(ts@);
    let bls = &m.by_bonus_lenghts;
    let mut k: usize = 0;
    while k < bls.len()
        invariant
            bls == &m.by_bonus_lenghts,
            k <= bls@.len(),
            triples_v(ts@) == before + symbol_block(m.id@, bls@, k as nat, mystery),
        decreases bls.len() - k,
    {
        push_symbols(&m.id, &bls[k], k, mystery, ts);
        assert(triples_v(ts@) =~= before + symbol_block(m.id@, bls@, (k + 1) as nat, mystery));
        k = k + 1;
    }
}

/// The (mechanics, number of bonus lengths) of each mechanics entry, in order.
pub open spec fn shapes(ms: Seq<ByMechanic>) -> Seq<(Seq<i64>, nat)> {
    Seq::new(ms.len(), |i: int| (ms[i].id@, ms[i].by_bonus_lenghts@.len()))
}

/// The number of bonus lengths of the first entry with mechanics `id` among the last `n`
/// entries, 0 when there is none.
pub open spec fn first_len(sh: Seq<(Seq<i64>, nat)>, id: Seq<i64>, n: nat) -> nat
    decreases n,
{
    if n == 0 || n > sh.len() {
        0
    } else if sh[sh.len() - n].0 == id {
        sh[sh.len() - n].1
    } else {
        first_len(sh, id, (n - 1) as nat)
    }
}

/// Whether no entry has more bonus lengths than the first entry with its mechanics.
pub open spec fn lengths_fit(sh: Seq<(Seq<i64>, nat)>) -> bool {
    forall|j: int| 0 <= j < sh.len() ==> (#[trigger] sh[j]).1 <= first_len(sh, sh[j].0, sh.len())
}

pub open spec fn lens_v(ls: Seq<(i128, Vec<(Vec<i64>, i128)>, Vec<(Vec<i64>, i128)>)>) -> Seq<(int, Seq<(Seq<i64>, int)>, Seq<(Seq<i64>, int)>)> {
    Seq::new(ls.len(), |i: int| (ls[i].0 as int, keys_v(ls[i].1@), keys_v(ls[i].2@)))
}

/// The row of mechanics `id`: one entry per bonus length of its first entry, each with the
/// respins of that length summed and its symbols and mystery symbols by id with their
/// counts summed.
pub open spec fn length_row(
    sh: Seq<(Seq<i64>, nat)>,
    rs: Seq<(Seq<i64>, i64)>,
    ss: Seq<(Seq<i64>, Seq<i64>, i64)>,
    ys: Seq<(Seq<i64>, Seq<i64>, i64)>,
    id: Seq<i64>,
    ls: Seq<(int, Seq<(Seq<i64>, int)>, Seq<(Seq<i64>, int)>)>,
) -> bool {
    &&& ls.len() == first_len(sh, id, sh.len())
    &&& forall|i: int| 0 <= i < ls.len() ==> (#[trigger] ls[i]).0 == id_sum(rs, len_key(id, i), rs.len())
    &&& forall|i: int| 0 <= i < ls.len() ==> key_table(ss, len_key(id, i), (#[trigger] ls[i]).1)
    &&& forall|i: int| 0 <= i < ls.len() ==> key_table(ys, len_key(id, i), (#[trigger] ls[i]).2)
}

fn first_len_exec(sh: &Vec<(Vec<i64>, usize)>, id: &Vec<i64>) -> (r: usize)
    ensures
        r as nat == first_len(shapes_v(sh@), id@, sh@.len()),
{
    let ghost v = shapes_v(sh@);
    let mut i: usize = 0;
    while i < sh.len()
        invariant
            v == shapes_v(sh@),
            i <= sh@.len(),
            first_len(v, id@, v.len()) == first_len(v, id@, (v.len() - i) as nat),
        decreases sh.len() - i,
    {
        if same_i64(&sh[i].0, id) {
            return sh[i].1;
        }
        i = i + 1;
    }
    0
}

pub open spec fn shapes_v(sh: Seq<(Vec<i64>, usize)>) -> Seq<(Seq<i64>, nat)> {
    Seq::new(sh.len(), |i: int| (sh[i].0@, sh[i].1 as nat))
}

fn lengths_fit_exec(sh: &Vec<(Vec<i64>, usize)>) -> (r: bool)
    ensures
        r == lengths_fit(shapes_v(sh@)),
{
    let ghost v = shapes_v(sh@);
    let mut j: usize = 0;
    while j < sh.len()
        invariant
            v == shapes_v(sh@),
            j <= sh@.len(),
            forall|j2: int| 0 <= j2 < j ==> (#[trigger] v[j2]).1 <= first_len(v, v[j2].0, v.len()),
        decreases sh.len() - j,
    {
        if sh[j].1 > first_len_exec(sh, &sh[j].0) {
            assert(!((v[j as int]).1 <= first_len(v, v[j as int].0, v.len())));
            return false;
        }
        j = j + 1;
    }
    true
}

fn length_entries(
    sh: &Vec<(Vec<i64>, usize)>,
    rs: &Vec<(Vec<i64>, i64)>,
    ss: &Vec<(Vec<i64>, Vec<i64>, i64)>,
    ys: &Vec<(Vec<i64>, Vec<i64>, i64)>,
    id: &Vec<i64>,
) -> (ls: Vec<(i128, Vec<(Vec<i64>, i128)>, Vec<(Vec<i64>, i128)>)>)
    ensures
        length_row(shapes_v(sh@), pairs_v(rs@), triples_v(ss@), triples_v(ys@), id@, lens_v(ls@)),
{
    let n = first_len_exec(sh, id);
    let mut ls: Vec<(i128, Vec<(Vec<i64>, i128)>, Vec<(Vec<i64>, i128)>)> = Vec::new();
    let mut k: usize = 0;
    while k < n
        invariant
            k <= n,
            n as nat == first_len(shapes_v(sh@), id@, sh@.len()),
            ls@.len() == k,
            forall|i: int| 0 <= i < k ==> (#[trigger] lens_v(ls@)[i]).0 == id_sum(pairs_v(rs@), len_key(id@, i), rs@.len()),
            forall|i: int| 0 <= i < k ==> key_table(triples_v(ss@), len_key(id@, i), (#[trigger] lens_v(ls@)[i]).1),
            forall|i: int| 0 <= i < k ==> key_table(triples_v(ys@), len_key(id@, i), (#[trigger] lens_v(ls@)[i]).2),
        decreases n - k,
    {
        let mut key = copy_i64(id);
        key.push(k as i64);
        assert(key@ == len_key(id@, k as int));
        let r = id_total(rs, &key);
        let a = key_rows(ss, &key);
        let b = key_rows(ys, &key);
        let ghost old_ls = ls@;
        ls.push((r, a, b));
        assert forall|i: int| 0 <= i < k + 1 implies #[trigger] lens_v(ls@)[i] == if i < k { lens_v(old_ls)[i] } else { (r as int, keys_v(a@), keys_v(b@)) } by {
            if i < k {
                assert(ls@[i] == old_ls[i]);
            }
        }
        k = k + 1;
    }
    ls
}

/// Whether some entry has mechanics `id`.
pub open spec fn shape_seen(sh: Seq<(Seq<i64>, nat)>, id: Seq<i64>) -> bool {
    exists|i: int| 0 <= i < sh.len() && sh[i].0 == id
}

/// Whether mechanics `id` has a row of the length table.
pub open spec fn length_row_of(rows: Seq<(Seq<i64>, Seq<(int, Seq<(Seq<i64>, int)>, Seq<(Seq<i64>, int)>)>)>, id: Seq<i64>) -> bool {
    exists|j: int| 0 <= j < rows.len() && rows[j].0 == id
}

/// The table by mechanics and bonus length: each mechanics that an entry has, once, with
/// its `length_row`, and no other.
pub open spec fn length_table(
    sh: Seq<(Seq<i64>, nat)>,
    rs: Seq<(Seq<i64>, i64)>,
    ss: Seq<(Seq<i64>, Seq<i64>, i64)>,
    ys: Seq<(Seq<i64>, Seq<i64>, i64)>,
    rows: Seq<(Seq<i64>, Seq<(int, Seq<(Seq<i64>, int)>, Seq<(Seq<i64>, int)>)>)>,
) -> bool {
    &&& forall|j: int| 0 <= j < rows.len() ==> shape_seen(sh, (#[trigger] rows[j]).0)
    &&& forall|i: int| 0 <= i < sh.len() ==> length_row_of(rows, (#[trigger] sh[i]).0)
    &&& forall|j1: int, j2: int| 0 <= j1 < j2 < rows.len() ==> (#[trigger] rows[j1]).0 != (#[trigger] rows[j2]).0
    &&& forall|j: int| 0 <= j < rows.len() ==> length_row(sh, rs, ss, ys, (#[trigger] rows[j]).0, rows[j].1)
}

pub open spec fn table_v(rows: Seq<(Vec<i64>, Vec<(i128, Vec<(Vec<i64>, i128)>, Vec<(Vec<i64>, i128)>)>)>) -> Seq<(Seq<i64>, Seq<(int, Seq<(Seq<i64>, int)>, Seq<(Seq<i64>, int)>)>)> {
    Seq::new(rows.len(), |j: int| (rows[j].0@, lens_v(rows[j].1@)))
}

fn length_rows(
    sh: &Vec<(Vec<i64>, usize)>,
    rs: &Vec<(Vec<i64>, i64)>,
    ss: &Vec<(Vec<i64>, Vec<i64>, i64)>,
    ys: &Vec<(Vec<i64>, Vec<i64>, i64)>,
) -> (rows: Vec<(Vec<i64>, Vec<(i128, Vec<(Vec<i64>, i128)>, Vec<(Vec<i64>, i128)>)>)>)
    ensures
        length_table(shapes_v(sh@), pairs_v(rs@), triples_v(ss@), triples_v(ys@), table_v(rows@)),
{
    let ghost v = shapes_v(sh@);
    let mut rows: Vec<(Vec<i64>, Vec<(i128, Vec<(Vec<i64>, i128)>, Vec<(Vec<i64>, i128)>)>)> = Vec::new();
    let mut i: usize = 0;
    while i < sh.len()
        invariant
            v == shapes_v(sh@),
            i <= sh@.len(),
            forall|j: int| 0 <= j < rows@.len() ==> shape_seen(v, (#[trigger] table_v(rows@)[j]).0),
            forall|i2: int| 0 <= i2 < i ==> length_row_of(table_v(rows@), (#[trigger] v[i2]).0),
            forall|j1: int, j2: int| 0 <= j1 < j2 < rows@.len() ==> (#[trigger] table_v(rows@)[j1]).0 != (#[trigger] table_v(rows@)[j2]).0,
            forall|j: int| 0 <= j < rows@.len() ==> length_row(v, pairs_v(rs@), triples_v(ss@), triples_v(ys@), (#[trigger] table_v(rows@)[j]).0, table_v(rows@)[j].1),
        decreases sh.len() - i,
    {
        let ghost old_rows = rows@;
        let mut found = false;
        let mut j: usize = 0;
        while j < rows.len()
            invariant
                j <= rows@.len(),
                found ==> length_row_of(table_v(rows@), sh@[i as int].0@),
                !found ==> forall|j2: int| 0 <= j2 < j ==> table_v(rows@)[j2].0 != sh@[i as int].0@,
                i < sh@.len(),
            decreases rows.len() - j,
        {
            if same_i64(&rows[j].0, &sh[i].0) {
                found = true;
                assert(table_v(rows@)[j as int].0 == sh@[i as int].0@);
            }
            j = j + 1;
        }
        assert(v[i as int].0 == sh@[i as int].0@);
        if !found {
            let ls = length_entries(sh, rs, ss, ys, &sh[i].0);
            let id = copy_i64(&sh[i].0);
            rows.push((id, ls));
            proof {
                let t = table_v(rows@);
                let ot = table_v(old_rows);
                assert forall|j2: int| 0 <= j2 < old_rows.len() implies #[trigger] t[j2] == ot[j2] by {
                    assert(rows@[j2] == old_rows[j2]);
                }
                assert(t[old_rows.len() as int].0 == v[i as int].0);
                assert forall|j2: int| 0 <= j2 < rows@.len() implies shape_seen(v, (#[trigger] t[j2]).0) by {
                    if j2 < old_rows.len() {
                        assert(t[j2] == ot[j2]);
                    } else {
                        assert(v[i as int].0 == t[j2].0);
                    }
                }
                assert forall|i2: int| 0 <= i2 < i + 1 implies length_row_of(t, (#[trigger] v[i2]).0) by {
                    if i2 < i {
                        assert(length_row_of(ot, v[i2].0));
                        let j3 = choose|j3: int| 0 <= j3 < ot.len() && ot[j3].0 == v[i2].0;
                        assert(t[j3] == ot[j3]);
                    } else {
                        assert(t[old_rows.len() as int].0 == v[i2].0);
                    }
                }
                assert forall|j1: int, j2: int| 0 <= j1 < j2 < rows@.len() implies (#[trigger] t[j1]).0 != (#[trigger] t[j2]).0 by {
                    assert(t[j1] == ot[j1]);
                    if j2 < old_rows.len() {
                        assert(t[j2] == ot[j2]);
                    }
                }
                assert forall|j2: int| 0 <= j2 < rows@.len() implies length_row(v, pairs_v(rs@), triples_v(ss@), triples_v(ys@), (#[trigger] t[j2]).0, t[j2].1) by {
                    if j2 < old_rows.len() {
                        assert(t[j2] == ot[j2]);
                    }
                }
            }
        } else {
            proof {
                assert(length_row_of(table_v(rows@), v[i as int].0));
            }
        }
        i = i + 1;
    }
    rows
}

proof fn lemma_entries_prefix(s: Seq<ByMechanic>, t: Seq<ByMechanic>, k: nat)
    requires
        k <= s.len(),
        k <= t.len(),
        forall|i: int| 0 <= i < k ==> s[i] == t[i],
    ensures
        respin_entries(s, k) == respin_entries(t, k),
        symbol_entries(s, k, false) == symbol_entries(t, k, false),
        symbol_entries(s, k, true) == symbol_entries(t, k, true),
    decreases k,
{
    if k > 0 {
        lemma_entries_prefix(s, t, (k - 1) as nat);
    }
}

/// The table by mechanics and bonus length of a Fugaso settings file, over the bonus
/// mechanics entries of all the categories (`length_table`); `None` where an entry has
/// more bonus lengths than the first entry with its mechanics.
pub fn fugaso_length_table(cats: &Vec<Category>) -> (r: Option<Vec<(Vec<i64>, Vec<(i128, Vec<(Vec<i64>, i128)>, Vec<(Vec<i64>, i128)>)>)>>)
    ensures
        ({
            let ms = mechanics_of(cats@, cats@.len());
            &&& r is Some <==> lengths_fit(shapes(ms))
            &&& r matches Some(rows) ==> length_table(
                shapes(ms),
                respin_entries(ms, ms.len()),
                symbol_entries(ms, ms.len(), false),
                symbol_entries(ms, ms.len(), true),
                table_v(rows@),
            )
        }),
{
    let mut sh: Vec<(Vec<i64>, usize)> = Vec::new();
    let mut rs: Vec<(Vec<i64>, i64)> = Vec::new();
    let mut ss: Vec<(Vec<i64>, Vec<i64>, i64)> = Vec::new();
    let mut ys: Vec<(Vec<i64>, Vec<i64>, i64)> = Vec::new();
    let mut c: usize = 0;
    while c < cats.len()
        invariant
            c <= cats@.len(),
            shapes_v(sh@) == shapes(mechanics_of(cats@, c as nat)),
            pairs_v(rs@) == respin_entries(mechanics_of(cats@, c as nat), mechanics_of(cats@, c as nat).len()),
            triples_v(ss@) == symbol_entries(mechanics_of(cats@, c as nat), mechanics_of(cats@, c as nat).len(), false),
            triples_v(ys@) == symbol_entries(mechanics_of(cats@, c as nat), mechanics_of(cats@, c as nat).len(), true),
        decreases cats.len() - c,
    {
        let bm = &cats[c].bonus.by_mechanics;
        let ghost base = mechanics_of(cats@, c as nat);
        let mut m: usize = 0;
        while m < bm.len()
            invariant
                bm == &cats@[c as int].bonus.by_mechanics,
                m <= bm@.len(),
                shapes_v(sh@) == shapes(base + bm@.take(m as int)),
                pairs_v(rs@) == respin_entries(base + bm@.take(m as int), (base + bm@.take(m as int)).len()),
                triples_v(ss@) == symbol_entries(base + bm@.take(m as int), (base + bm@.take(m as int)).len(), false),
                triples_v(ys@) == symbol_entries(base + bm@.take(m as int), (base + bm@.take(m as int)).len(), true),
            decreases bm.len() - m,
        {
            let mech = &bm[m];
            let ghost done = base + bm@.take(m as int);
            let ghost next = base + bm@.take(m + 1);
            assert(next =~= done.push(bm@[m as int]));
            let ghost old_sh = sh@;
            let id = copy_i64(&mech.id);
            sh.push((id, mech.by_bonus_lenghts.len()));
            assert(old_sh.len() == shapes_v(old_sh).len());
            assert(old_sh.len() == done.len());
            assert forall|i: int| 0 <= i < next.len() implies #[trigger] shapes_v(sh@)[i] == shapes(next)[i] by {
                if i < old_sh.len() {
                    assert(sh@[i] == old_sh[i]);
                    assert(shapes_v(old_sh)[i] == shapes(done)[i]);
                    assert(next[i] == done[i]);
                } else {
                    assert(next[i] == bm@[m as int]);
                }
            }
            assert(shapes_v(sh@) =~= shapes(next));
            push_respins(mech, &mut rs);
            push_all_symbols(mech, false, &mut ss);
            push_all_symbols(mech, true, &mut ys);
            proof {
                lemma_entries_prefix(done, next, done.len());
            }
            m = m + 1;
        }
        assert(bm@.take(bm@.len() as int) =~= bm@);
        assert(mechanics_of(cats@, (c + 1) as nat) == base + bm@);
        c = c + 1;
    }
    if !lengths_fit_exec(&sh) {
        return None;
    }
    Some(length_rows(&sh, &rs, &ss, &ys))
}

} // verus!
