use vstd::prelude::*;
use vstd::arithmetic::power2::{pow2, lemma2_to64, lemma_pow2_unfold};

use crate::bng::three_aztec_temples::models::{
    ByBonusLenght, ByBonusLenghtV, ByMechanic, Col, Row, Symbol, SymbolV, bonus_lenght_v,
    bonus_lenghts_v, combos_v, copy_bonus_lenghts, copy_combos, copy_symbols, symbol_v,
    symbols_v,
};

verus! {

/// The symbols of `s` that the bits of `mask` pick among its first `n` positions, in
/// their order in `s`.
pub open spec fn combo_of(s: Seq<i64>, mask: u64, n: nat) -> Seq<i64>
    decreases n,
{
    if n == 0 || n > s.len() {
        Seq::empty()
    } else {
        let prev = combo_of(s, mask, (n - 1) as nat);
        if (mask >> ((n - 1) as u64)) & 1u64 == 1u64 {
            prev.push(s[n - 1])
        } else {
            prev
        }
    }
}

/// The order of symbol lists, as `Vec<i64>` compares them: element by element, a
/// proper prefix first.
pub open spec fn lex_lt(a: Seq<i64>, b: Seq<i64>) -> bool
    decreases a.len(),
{
    if a.len() == 0 {
        b.len() > 0
    } else if b.len() == 0 {
        false
    } else if a[0] != b[0] {
        a[0] < b[0]
    } else {
        lex_lt(a.drop_first(), b.drop_first())
    }
}

/// The end of the range of masks that the subsets of `n` symbols run through: the
/// masks are 32-bit, so `1 .. 2^n` up to 30 symbols and an empty range at 31.
pub open spec fn mask_limit(n: nat) -> nat {
    if n <= 30 {
        pow2(n)
    } else {
        0
    }
}

/// Every list that a mask of the range picks out of `s`.
pub open spec fn combo_set(s: Seq<i64>) -> Set<Seq<i64>> {
    Set::new(|c: Seq<i64>| exists|m: u64| 1 <= m < mask_limit(s.len()) && c == combo_of(s, m, s.len()))
}

/// The keys of an ordered table of symbol lists.
pub open spec fn key_set(v: Seq<(Vec<i64>, i64)>) -> Set<Seq<i64>> {
    Set::new(|c: Seq<i64>| exists|i: int| 0 <= i < v.len() && v[i].0@ == c)
}

/// Whether the keys of a table rise strictly, as in a `BTreeMap`.
pub open spec fn keys_ascending(v: Seq<(Vec<i64>, i64)>) -> bool {
    forall|i: int, j: int| 0 <= i < j < v.len() ==> lex_lt(#[trigger] v[i].0@, #[trigger] v[j].0@)
}

pub proof fn lemma_lex_irreflexive(a: Seq<i64>)
    ensures
        !lex_lt(a, a),
    decreases a.len(),
{
    if a.len() > 0 {
        lemma_lex_irreflexive(a.drop_first());
    }
}

pub proof fn lemma_lex_transitive(a: Seq<i64>, b: Seq<i64>, c: Seq<i64>)
    requires
        lex_lt(a, b),
        lex_lt(b, c),
    ensures
        lex_lt(a, c),
    decreases a.len(),
{
    if a.len() > 0 && b.len() > 0 && c.len() > 0 && a[0] == b[0] && b[0] == c[0] {
        lemma_lex_transitive(a.drop_first(), b.drop_first(), c.drop_first());
    }
}

pub proof fn lemma_lex_total(a: Seq<i64>, b: Seq<i64>)
    requires
        a != b,
    ensures
        lex_lt(a, b) || lex_lt(b, a),
    decreases a.len(),
{
    if a.len() == 0 && b.len() == 0 {
        assert(a =~= b);
    } else if a.len() > 0 && b.len() > 0 && a[0] == b[0] {
        if a.drop_first() == b.drop_first() {
            assert(a.drop_first().len() == a.len() - 1);
            assert(b.drop_first().len() == b.len() - 1);
            assert(a.len() == b.len());
            assert forall|i: int| 0 <= i < a.len() implies a[i] == b[i] by {
                if i > 0 {
                    assert(a[i] == a.drop_first()[i - 1]);
                    assert(b[i] == b.drop_first()[i - 1]);
                }
            }
            assert(a =~= b);
        }
        lemma_lex_total(a.drop_first(), b.drop_first());
    }
}

fn vec_lt(a: &Vec<i64>, b: &Vec<i64>) -> (r: bool)
    ensures
        r == lex_lt(a@, b@),
{
    let mut i: usize = 0;
    assert(a@.subrange(0, a@.len() as int) =~= a@);
    assert(b@.subrange(0, b@.len() as int) =~= b@);
    while i < a.len() && i < b.len() && a[i] == b[i]
        invariant
            i <= a.len(),
            i <= b.len(),
            lex_lt(a@, b@) == lex_lt(a@.subrange(i as int, a@.len() as int), b@.subrange(i as int, b@.len() as int)),
        decreases a.len() - i,
    {
        let ghost sa = a@.subrange(i as int, a@.len() as int);
        let ghost sb = b@.subrange(i as int, b@.len() as int);
        assert(sa.drop_first() =~= a@.subrange(i + 1, a@.len() as int));
        assert(sb.drop_first() =~= b@.subrange(i + 1, b@.len() as int));
        i = i + 1;
    }
    let ghost sa = a@.subrange(i as int, a@.len() as int);
    let ghost sb = b@.subrange(i as int, b@.len() as int);
    if i == a.len() {
        i < b.len()
    } else if i == b.len() {
        false
    } else {
        assert(sa[0] == a@[i as int] && sb[0] == b@[i as int]);
        a[i] < b[i]
    }
}

fn vec_eq(a: &Vec<i64>, b: &Vec<i64>) -> (r: bool)
    ensures
        r == (a@ == b@),
{
    if a.len() != b.len() {
        return false;
    }
    let mut i: usize = 0;
    while i < a.len()
        invariant
            i <= a.len(),
            a.len() == b.len(),
            forall|k: int| 0 <= k < i ==> a@[k] == b@[k],
        decreases a.len() - i,
    {
        if a[i] != b[i] {
            return false;
        }
        i = i + 1;
    }
    assert(a@ =~= b@);
    true
}

/// Adds the key `c`, with the value 0, to an ascending table of zero counts.
fn insert_key(v: &mut Vec<(Vec<i64>, i64)>, c: Vec<i64>)
    requires
        keys_ascending(old(v)@),
        forall|i: int| 0 <= i < old(v)@.len() ==> (#[trigger] old(v)@[i]).1 == 0,
    ensures
        keys_ascending(final(v)@),
        forall|i: int| 0 <= i < final(v)@.len() ==> (#[trigger] final(v)@[i]).1 == 0,
        key_set(final(v)@) == key_set(old(v)@).insert(c@),
{
    let mut p: usize = 0;
    while p < v.len() && vec_lt(&v[p].0, &c)
        invariant
            p <= v.len(),
            forall|q: int| 0 <= q < p ==> lex_lt(#[trigger] v@[q].0@, c@),
        decreases v.len() - p,
    {
        p = p + 1;
    }
    if p < v.len() && vec_eq(&v[p].0, &c) {
        assert(key_set(v@).contains(c@));
        assert(key_set(v@).insert(c@) =~= key_set(v@));
        return;
    }
    let ghost old_v = v@;
    let ghost cv = c@;
    if p < v.len() {
        proof {
            lemma_lex_total(old_v[p as int].0@, cv);
        }
    }
    v.insert(p, (c, 0));
    assert forall|i: int, j: int| 0 <= i < j < v@.len() implies lex_lt(#[trigger] v@[i].0@, #[trigger] v@[j].0@) by {
        if j < p {
            assert(v@[i] == old_v[i] && v@[j] == old_v[j]);
        } else if j == p {
            assert(v@[i] == old_v[i]);
        } else if i == p {
            assert(v@[j] == old_v[j - 1]);
            if j - 1 > p {
                assert(lex_lt(old_v[p as int].0@, old_v[j - 1].0@));
                lemma_lex_transitive(cv, old_v[p as int].0@, old_v[j - 1].0@);
            }
        } else if i < p {
            assert(v@[i] == old_v[i] && v@[j] == old_v[j - 1]);
            if j - 1 > p {
                assert(lex_lt(old_v[p as int].0@, old_v[j - 1].0@));
                lemma_lex_transitive(cv, old_v[p as int].0@, old_v[j - 1].0@);
            }
            lemma_lex_transitive(old_v[i].0@, cv, old_v[j - 1].0@);
        } else {
            assert(v@[i] == old_v[i - 1] && v@[j] == old_v[j - 1]);
        }
    }
    assert forall|k: Seq<i64>| key_set(v@).contains(k) <==> key_set(old_v).insert(cv).contains(k) by {
        if key_set(v@).contains(k) {
            let i = choose|i: int| 0 <= i < v@.len() && v@[i].0@ == k;
            if i < p {
                assert(old_v[i].0@ == k);
            } else if i > p {
                assert(old_v[i - 1].0@ == k);
            }
        }
        if key_set(old_v).contains(k) {
            let i = choose|i: int| 0 <= i < old_v.len() && old_v[i].0@ == k;
            if i < p {
                assert(v@[i].0@ == k);
            } else {
                assert(v@[i + 1].0@ == k);
            }
        }
        if k == cv {
            assert(v@[p as int].0@ == k);
        }
    }
    assert(key_set(v@) =~= key_set(old_v).insert(cv));
}

/// The table of every non-empty combination of the symbols, each counted 0: for each
/// mask of the range, the symbols whose bit is set, in their order; equal lists are one
/// key, and the keys come in ascending order.
pub fn set_default_combo_symbols(a_symbols: &Vec<i64>) -> (r: Vec<(Vec<i64>, i64)>)
    requires
        a_symbols.len() < 32,
    ensures
        keys_ascending(r@),
        forall|i: int| 0 <= i < r@.len() ==> (#[trigger] r@[i]).1 == 0,
        key_set(r@) == combo_set(a_symbols@),
{
    let n = a_symbols.len();
    let ghost s = a_symbols@;
    let mut limit: u64 = 0;
    if n <= 30 {
        limit = 1;
        let mut k: usize = 0;
        proof {
            lemma2_to64();
        }
        while k < n
            invariant
                k <= n <= 30,
                limit == pow2(k as nat),
                pow2(30) == 0x4000_0000,
            decreases n - k,
        {
            proof {
                lemma_pow2_unfold((k + 1) as nat);
                vstd::arithmetic::power2::lemma_pow2_strictly_increases(k as nat, 30);
            }
            limit = limit * 2;
            k = k + 1;
        }
    }
    assert(limit == mask_limit(n as nat));
    let mut r: Vec<(Vec<i64>, i64)> = Vec::new();
    let mut mask: u64 = 1;
    assert(key_set(r@) =~= Set::new(|c: Seq<i64>| exists|m: u64| 1 <= m < mask && c == combo_of(s, m, n as nat)));
    while mask < limit
        invariant
            s == a_symbols@,
            n == s.len(),
            n < 32,
            1 <= mask,
            mask <= limit || limit == 0,
            limit == 0 ==> mask == 1,
            limit == mask_limit(n as nat),
            keys_ascending(r@),
            forall|i: int| 0 <= i < r@.len() ==> (#[trigger] r@[i]).1 == 0,
            key_set(r@) == Set::new(|c: Seq<i64>| exists|m: u64| 1 <= m < mask && c == combo_of(s, m, n as nat)),
        decreases limit - mask,
    {
        let mut combo: Vec<i64> = Vec::new();
        let mut i: usize = 0;
        while i < n
            invariant
                s == a_symbols@,
                n == s.len(),
                n < 32,
                i <= n,
                combo@ == combo_of(s, mask, i as nat),
            decreases n - i,
        {
            if (mask >> (i as u64)) & 1u64 == 1u64 {
                combo.push(a_symbols[i]);
            }
            i = i + 1;
        }
        let ghost before = key_set(r@);
        let ghost cv = combo@;
        insert_key(&mut r, combo);
        assert(key_set(r@) =~= Set::new(|c: Seq<i64>| exists|m: u64| 1 <= m < mask + 1 && c == combo_of(s, m, n as nat))) by {
            assert forall|c: Seq<i64>| key_set(r@).contains(c) implies exists|m: u64| 1 <= m < mask + 1 && c == combo_of(s, m, n as nat) by {
                if c == cv {
                    assert(1 <= mask < mask + 1 && c == combo_of(s, mask, n as nat));
                } else {
                    assert(before.contains(c));
                }
            }
            assert forall|c: Seq<i64>| (exists|m: u64| 1 <= m < mask + 1 && c == combo_of(s, m, n as nat)) implies key_set(r@).contains(c) by {
                let m = choose|m: u64| 1 <= m < mask + 1 && c == combo_of(s, m, n as nat);
                if m < mask {
                    assert(before.contains(c));
                }
            }
        }
        mask = mask + 1;
    }
    assert forall|c: Seq<i64>| key_set(r@).contains(c) <==> combo_set(s).contains(c) by {
        if limit == 0 {
            assert(!key_set(r@).contains(c));
        } else {
            assert(mask == limit);
        }
    }
    assert(key_set(r@) =~= combo_set(s));
    r
}

/// Whether the keys of a value table rise strictly, as in a `BTreeMap`.
pub open spec fn rises_strictly(v: Seq<(u64, i64)>) -> bool {
    forall|i: int, j: int| 0 <= i < j < v.len() ==> #[trigger] v[i].0 < #[trigger] v[j].0
}

/// Whether `v` holds each of `values` once as a key, counted 0, keys rising.
pub open spec fn zero_table(v: Seq<(u64, i64)>, values: Seq<u64>) -> bool {
    &&& rises_strictly(v)
    &&& forall|j: int| 0 <= j < v.len() ==> (#[trigger] v[j]).1 == 0
    &&& forall|x: u64| (exists|j: int| 0 <= j < v.len() && #[trigger] v[j].0 == x) <==> #[trigger] values.contains(x)
}

/// The multiplier table a symbol starts with: none for the multiplier symbol 13, else
/// multipliers 2, 3 and 5 counted 0.
pub open spec fn start_multipliers(id: i64) -> Seq<(i64, i64)> {
    if id == 13 {
        Seq::empty()
    } else {
        seq![(2i64, 0i64), (3i64, 0i64), (5i64, 0i64)]
    }
}

/// Whether `s` is symbol `id` with nothing counted yet, over `width` columns of `height`
/// rows and the bonus values `values`.
pub open spec fn fresh_symbol(s: SymbolV, id: i64, values: Seq<u64>, width: int, height: int) -> bool {
    &&& s.id == id
    &&& s.count == 0
    &&& s.multiplayers == start_multipliers(id)
    &&& zero_table(s.values, values)
    &&& s.cols == Seq::new(width as nat, |c: int| (0i64, Seq::new(height as nat, |r: int| 0i64)))
}

/// The bonus values, each once, in ascending order, counted 0.
fn zero_values(values: &Vec<u64>) -> (r: Vec<(u64, i64)>)
    ensures
        zero_table(r@, values@),
{
    let mut r: Vec<(u64, i64)> = Vec::new();
    let mut i: usize = 0;
    while i < values.len()
        invariant
            i <= values@.len(),
            zero_table(r@, values@.take(i as int)),
        decreases values@.len() - i,
    {
        let x = values[i];
        let mut p: usize = 0;
        while p < r.len() && r[p].0 < x
            invariant
                p <= r@.len(),
                forall|k: int| 0 <= k < p ==> r@[k].0 < x,
            decreases r@.len() - p,
        {
            p = p + 1;
        }
        let ghost old_r = r@;
        let ghost pre = values@.take(i as int);
        assert(values@.take(i + 1) =~= pre.push(x));
        if p < r.len() && r[p].0 == x {
            assert forall|y: u64| (exists|j: int| 0 <= j < r@.len() && #[trigger] r@[j].0 == y) <==> #[trigger] values@.take(i + 1).contains(y) by {
                let t = values@.take(i + 1);
                if y == x {
                    assert(t[i as int] == x);
                    assert(r@[p as int].0 == x);
                } else {
                    if t.contains(y) {
                        let q = choose|q: int| 0 <= q < t.len() && #[trigger] t[q] == y;
                        assert(pre[q] == y);
                        assert(pre.contains(y));
                    }
                    if exists|j: int| 0 <= j < r@.len() && #[trigger] r@[j].0 == y {
                        assert(pre.contains(y));
                        let q = choose|q: int| 0 <= q < pre.len() && #[trigger] pre[q] == y;
                        assert(t[q] == y);
                    }
                }
            }
        } else {
            r.insert(p, (x, 0));
            assert(r@ =~= old_r.insert(p as int, (x, 0i64)));
            assert forall|a: int, b: int| 0 <= a < b < r@.len() implies #[trigger] r@[a].0 < #[trigger] r@[b].0 by {
                if b < p {
                    assert(r@[a] == old_r[a] && r@[b] == old_r[b]);
                } else if b == p {
                    assert(r@[a] == old_r[a]);
                } else if a < p {
                    assert(r@[b] == old_r[b - 1]);
                    assert(r@[a] == old_r[a]);
                    if p < old_r.len() {
                        assert(old_r[p as int].0 > x);
                        if b - 1 > p {
                            assert(old_r[p as int].0 < old_r[b - 1].0);
                        }
                    }
                } else if a == p {
                    assert(r@[b] == old_r[b - 1]);
                    assert(old_r[p as int].0 > x);
                    if b - 1 > p {
                        assert(old_r[p as int].0 < old_r[b - 1].0);
                    }
                } else {
                    assert(r@[a] == old_r[a - 1] && r@[b] == old_r[b - 1]);
                }
            }
            assert forall|y: u64| (exists|j: int| 0 <= j < r@.len() && #[trigger] r@[j].0 == y) <==> #[trigger] values@.take(i + 1).contains(y) by {
                if y == x {
                    assert(r@[p as int].0 == x);
                    assert(values@.take(i + 1)[i as int] == x);
                }
                if values@.take(i + 1).contains(y) && y != x {
                    let q = choose|q: int| 0 <= q < i + 1 && #[trigger] values@.take(i + 1)[q] == y;
                    assert(pre[q] == y);
                    assert(pre.contains(y));
                    let j = choose|j: int| 0 <= j < old_r.len() && #[trigger] old_r[j].0 == y;
                    if j < p {
                        assert(r@[j] == old_r[j]);
                    } else {
                        assert(r@[j + 1] == old_r[j]);
                    }
                }
                if (exists|j: int| 0 <= j < r@.len() && #[trigger] r@[j].0 == y) && y != x {
                    let j = choose|j: int| 0 <= j < r@.len() && #[trigger] r@[j].0 == y;
                    if j < p {
                        assert(old_r[j].0 == y);
                    } else {
                        assert(old_r[j - 1].0 == y);
                    }
                    assert(pre.contains(y));
                    let q = choose|q: int| 0 <= q < pre.len() && #[trigger] pre[q] == y;
                    assert(values@.take(i + 1)[q] == y);
                }
            }
        }
        i = i + 1;
    }
    assert(values@.take(values@.len() as int) =~= values@);
    r
}

/// Symbol `id` with nothing counted yet, over `width` columns of `height` rows and the
/// bonus values (`fresh_symbol`).
fn fresh_symbol_exec(id: i64, values: &Vec<(u64, i64)>, width: usize, height: usize) -> (r: Symbol)
    ensures
        symbol_v(r) == (SymbolV {
            id: id,
            count: 0,
            values: values@,
            multiplayers: start_multipliers(id),
            cols: Seq::new(width as nat, |c: int| (0i64, Seq::new(height as nat, |r: int| 0i64))),
        }),
{
    let mut multiplayers: Vec<(i64, i64)> = Vec::new();
    if id != 13 {
        multiplayers.push((2, 0));
        multiplayers.push((3, 0));
        multiplayers.push((5, 0));
    }
    assert(multiplayers@ =~= start_multipliers(id));
    let mut cols: Vec<Col> = Vec::new();
    let mut c: usize = 0;
    while c < width
        invariant
            c <= width,
            cols@.len() == c,
            forall|k: int| 0 <= k < c ==> crate::bng::three_aztec_temples::models::col_v(#[trigger] cols@[k]) == (0i64, Seq::new(height as nat, |r: int| 0i64)),
        decreases width - c,
    {
        let mut rows: Vec<Row> = Vec::new();
        let mut j: usize = 0;
        while j < height
            invariant
                j <= height,
                rows@.len() == j,
                forall|k: int| 0 <= k < j ==> (#[trigger] rows@[k]).count == 0,
            decreases height - j,
        {
            rows.push(Row { count: 0 });
            j = j + 1;
        }
        let col = Col { count: 0, rows };
        assert(crate::bng::three_aztec_temples::models::col_v(col).1 =~= Seq::new(height as nat, |r: int| 0i64));
        cols.push(col);
        c = c + 1;
    }
    let mut vals: Vec<(u64, i64)> = Vec::new();
    let mut j: usize = 0;
    while j < values.len()
        invariant
            j <= values@.len(),
            vals@ == values@.take(j as int),
        decreases values@.len() - j,
    {
        vals.push(values[j]);
        assert(vals@ =~= values@.take(j + 1));
        j = j + 1;
    }
    assert(values@.take(values@.len() as int) =~= values@);
    let r = Symbol { id, count: 0, values: vals, multiplayers, cols };
    assert(symbol_v(r).cols =~= Seq::new(width as nat, |c: int| (0i64, Seq::new(height as nat, |r: int| 0i64))));
    r
}

/// Every symbol of `a_symbols`, in order, with nothing counted: the bonus values each
/// once, ascending; multipliers 2, 3 and 5 but for symbol 13; `width` columns of
/// `height` rows.
pub fn set_default_symbols(a_symbols: &Vec<i64>, a_bonus_symbol_values: &Vec<u64>, width: usize, height: usize) -> (r: Vec<Symbol>)
    ensures
        r@.len() == a_symbols@.len(),
        forall|k: int|
            0 <= k < r@.len() ==> fresh_symbol(
                symbol_v(#[trigger] r@[k]),
                a_symbols@[k],
                a_bonus_symbol_values@,
                width as int,
                height as int,
            ),
{
    let values = zero_values(a_bonus_symbol_values);
    let mut r: Vec<Symbol> = Vec::new();
    let mut k: usize = 0;
    while k < a_symbols.len()
        invariant
            k <= a_symbols@.len(),
            r@.len() == k,
            zero_table(values@, a_bonus_symbol_values@),
            forall|q: int|
                0 <= q < k ==> fresh_symbol(
                    symbol_v(#[trigger] r@[q]),
                    a_symbols@[q],
                    a_bonus_symbol_values@,
                    width as int,
                    height as int,
                ),
        decreases a_symbols@.len() - k,
    {
        let sym = fresh_symbol_exec(a_symbols[k], &values, width, height);
        r.push(sym);
        k = k + 1;
    }
    r
}

/// The respins of one bonus length with nothing counted, over the given combinations
/// and symbols.
pub open spec fn fresh_length(
    b: ByBonusLenghtV,
    combos: Seq<(Seq<i64>, i64)>,
    symbols: Seq<SymbolV>,
    mystery: Seq<SymbolV>,
) -> bool {
    b == ByBonusLenghtV { respins: 0, emerged: 0, combo_symbols: combos, symbols: symbols, mystery_symbols: mystery }
}

/// One entry per bonus length `1 ..= width * height`, each with nothing counted and
/// copies of the given combinations and symbols.
pub fn set_default_bonus_lenghts(
    a_combo_symbols: &Vec<(Vec<i64>, i64)>,
    a_bonus_symbols: &Vec<Symbol>,
    a_mystery_symbols: &Vec<Symbol>,
    width: usize,
    height: usize,
) -> (r: Vec<ByBonusLenght>)
    requires
        width * height <= usize::MAX,
    ensures
        r@.len() == width * height,
        forall|k: int|
            0 <= k < r@.len() ==> fresh_length(
                bonus_lenght_v(#[trigger] r@[k]),
                combos_v(a_combo_symbols@),
                symbols_v(a_bonus_symbols@),
                symbols_v(a_mystery_symbols@),
            ),
{
    let n = width * height;
    let mut r: Vec<ByBonusLenght> = Vec::new();
    let mut k: usize = 0;
    while k < n
        invariant
            k <= n,
            n == width * height,
            r@.len() == k,
            forall|q: int|
                0 <= q < k ==> fresh_length(
                    bonus_lenght_v(#[trigger] r@[q]),
                    combos_v(a_combo_symbols@),
                    symbols_v(a_bonus_symbols@),
                    symbols_v(a_mystery_symbols@),
                ),
        decreases n - k,
    {
        r.push(
            ByBonusLenght {
                respins: 0,
                emerged: 0,
                combo_symbols: copy_combos(a_combo_symbols),
                symbols: copy_symbols(a_bonus_symbols),
                mystery_symbols: copy_symbols(a_mystery_symbols),
            },
        );
        k = k + 1;
    }
    r
}

/// The end of the mask range for `n` symbols (`mask_limit`).
fn mask_end(n: usize) -> (limit: u64)
    requires
        n < 32,
    ensures
        limit == mask_limit(n as nat),
{
    let mut limit: u64 = 0;
    if n <= 30 {
        limit = 1;
        let mut k: usize = 0;
        proof {
            lemma2_to64();
        }
        while k < n
            invariant
                k <= n <= 30,
                limit == pow2(k as nat),
                pow2(30) == 0x4000_0000,
            decreases n - k,
        {
            proof {
                lemma_pow2_unfold((k + 1) as nat);
                vstd::arithmetic::power2::lemma_pow2_strictly_increases(k as nat, 30);
            }
            limit = limit * 2;
            k = k + 1;
        }
    }
    limit
}

/// The symbols of `s` that the bits of `mask` pick (`combo_of`).
fn combo_exec(s: &Vec<i64>, mask: u64) -> (r: Vec<i64>)
    ensures
        r@ == combo_of(s@, mask, s@.len()),
{
    let n = s.len();
    let mut combo: Vec<i64> = Vec::new();
    let mut i: usize = 0;
    while i < n
        invariant
            n == s@.len(),
            i <= n,
            combo@ == combo_of(s@, mask, i as nat),
        decreases n - i,
    {
        if i < 64 && (mask >> (i as u64)) & 1u64 == 1u64 {
            combo.push(s[i]);
        } else {
            assert(!((mask >> (i as u64)) & 1u64 == 1u64)) by {
                if i >= 64 {
                    assert(mask >> (i as u64) == 0u64) by (bit_vector)
                        requires
                            i >= 64,
                    ;
                    assert(0u64 & 1u64 == 0u64) by (bit_vector);
                }
            }
        }
        i = i + 1;
    }
    combo
}

/// Whether mechanic `a` comes before mechanic `b`: more mechanics first, then the
/// greater list.
pub open spec fn mech_before(a: Seq<i64>, b: Seq<i64>) -> bool {
    a.len() > b.len() || (a.len() == b.len() && lex_lt(b, a))
}

/// Whether no later list of `ids` comes before an earlier one.
pub open spec fn mechanics_ordered(ids: Seq<Seq<i64>>) -> bool {
    forall|i: int, j: int| 0 <= i < j < ids.len() ==> !mech_before(#[trigger] ids[j], #[trigger] ids[i])
}

/// The list each mask of the range picks out of `s`, in mask order.
pub open spec fn mask_combos(s: Seq<i64>) -> Seq<Seq<i64>> {
    let l = mask_limit(s.len());
    Seq::new(if l >= 1 { (l - 1) as nat } else { 0 }, |m: int| combo_of(s, (m + 1) as u64, s.len()))
}

pub open spec fn mechanic_ids(r: Seq<ByMechanic>) -> Seq<Seq<i64>> {
    Seq::new(r.len(), |k: int| r[k].id@)
}

/// Whether `m` has nothing counted and copies of the given tables.
pub open spec fn fresh_mechanic(
    m: ByMechanic,
    combos: Seq<(Seq<i64>, i64)>,
    symbols: Seq<SymbolV>,
    mystery: Seq<SymbolV>,
    lengths: Seq<ByBonusLenghtV>,
) -> bool {
    &&& m.appearances == 0 && m.inits == 0 && m.respins == 0 && m.emerged == 0
    &&& m.amount == 0 && m.reappearances == 0 && m.reinits == 0
    &&& combos_v(m.combo_symbols@) == combos
    &&& symbols_v(m.symbols@) == symbols
    &&& symbols_v(m.mystery_symbols@) == mystery
    &&& bonus_lenghts_v(m.by_bonus_lenghts@) == lengths
}

fn mech_before_exec(a: &Vec<i64>, b: &Vec<i64>) -> (r: bool)
    ensures
        r == mech_before(a@, b@),
{
    a.len() > b.len() || (a.len() == b.len() && vec_lt(b, a))
}

proof fn lemma_mech_before_transitive(a: Seq<i64>, b: Seq<i64>, c: Seq<i64>)
    requires
        mech_before(a, b),
        mech_before(b, c),
    ensures
        mech_before(a, c),
{
    if a.len() == b.len() && b.len() == c.len() {
        lemma_lex_transitive(c, b, a);
    }
}

/// One entry per combination of the mechanics `a_ids` (every non-empty choice a mask of
/// the range picks), with nothing counted and copies of the given tables, ordered with
/// more mechanics first and then the greater list first.
pub fn set_default_mechanics(
    a_ids: Vec<i64>,
    a_combo_symbols: &Vec<(Vec<i64>, i64)>,
    a_bonus_symbols: &Vec<Symbol>,
    a_mystery_symbols: &Vec<Symbol>,
    a_bonus_lenghts: &Vec<ByBonusLenght>,
) -> (r: Vec<ByMechanic>)
    requires
        a_ids.len() < 32,
    ensures
        mechanics_ordered(mechanic_ids(r@)),
        crate::seqs::is_perm(mechanic_ids(r@), mask_combos(a_ids@)),
        r@.len() == mask_combos(a_ids@).len(),
        forall|k: int|
            0 <= k < r@.len() ==> fresh_mechanic(
                #[trigger] r@[k],
                combos_v(a_combo_symbols@),
                symbols_v(a_bonus_symbols@),
                symbols_v(a_mystery_symbols@),
                bonus_lenghts_v(a_bonus_lenghts@),
            ),
{
    let ghost all = mask_combos(a_ids@);
    let limit = mask_end(a_ids.len());
    let mut r: Vec<ByMechanic> = Vec::new();
    let mut mask: u64 = 1;
    while mask < limit
        invariant
            a_ids.len() < 32,
            limit == mask_limit(a_ids@.len()),
            all == mask_combos(a_ids@),
            1 <= mask,
            mask <= limit || limit == 0,
            limit == 0 ==> mask == 1,
            r@.len() == mask - 1,
            mechanics_ordered(mechanic_ids(r@)),
            crate::seqs::is_perm(mechanic_ids(r@), all.take(mask - 1)),
            forall|k: int|
                0 <= k < r@.len() ==> fresh_mechanic(
                    #[trigger] r@[k],
                    combos_v(a_combo_symbols@),
                    symbols_v(a_bonus_symbols@),
                    symbols_v(a_mystery_symbols@),
                    bonus_lenghts_v(a_bonus_lenghts@),
                ),
        decreases limit - mask,
    {
        let id = combo_exec(&a_ids, mask);
        let mut p: usize = 0;
        while p < r.len() && !mech_before_exec(&id, &r[p].id)
            invariant
                p <= r@.len(),
                forall|k: int| 0 <= k < p ==> !mech_before(id@, #[trigger] r@[k].id@),
            decreases r@.len() - p,
        {
            p = p + 1;
        }
        let m = ByMechanic {
            id: id,
            appearances: 0,
            inits: 0,
            respins: 0,
            emerged: 0,
            amount: 0,
            reappearances: 0,
            combo_symbols: copy_combos(a_combo_symbols),
            reinits: 0,
            symbols: copy_symbols(a_bonus_symbols),
            mystery_symbols: copy_symbols(a_mystery_symbols),
            by_bonus_lenghts: copy_bonus_lenghts(a_bonus_lenghts),
        };
        let ghost old_r = r@;
        let ghost ids0 = mechanic_ids(old_r);
        let ghost x = m.id@;
        r.insert(p, m);
        proof {
            assert(r@ =~= old_r.insert(p as int, m));
            let ids = mechanic_ids(r@);
            assert(ids =~= ids0.insert(p as int, x));
            assert forall|i: int, j: int| 0 <= i < j < ids.len() implies !mech_before(#[trigger] ids[j], #[trigger] ids[i]) by {
                if j < p {
                    assert(ids[i] == ids0[i] && ids[j] == ids0[j]);
                } else if j == p {
                    assert(ids[i] == ids0[i]);
                    assert(!mech_before(x, old_r[i].id@));
                } else if i < p {
                    assert(ids[j] == ids0[j - 1] && ids[i] == ids0[i]);
                } else if i == p {
                    assert(ids[j] == ids0[j - 1]);
                    assert(mech_before(x, ids0[p as int]));
                    if mech_before(ids0[j - 1], x) {
                        lemma_mech_before_transitive(ids0[j - 1], x, ids0[p as int]);
                        if j - 1 > p {
                            assert(!mech_before(ids0[j - 1], ids0[p as int]));
                        } else {
                            lemma_lex_irreflexive(ids0[p as int]);
                        }
                    }
                } else {
                    assert(ids[j] == ids0[j - 1] && ids[i] == ids0[i - 1]);
                }
            }
            let t0 = all.take(mask - 1);
            let t1 = all.take(mask as int);
            assert(t1 =~= t0.push(x));
            assert forall|y: Seq<i64>| #[trigger] crate::seqs::count_of(ids, y) == crate::seqs::count_of(t1, y) by {
                crate::seqs::lemma_count_of_insert(ids0, p as int, x, y);
                crate::seqs::lemma_count_of_push(t0, x, y);
            }
            assert forall|k: int| 0 <= k < r@.len() implies fresh_mechanic(
                #[trigger] r@[k],
                combos_v(a_combo_symbols@),
                symbols_v(a_bonus_symbols@),
                symbols_v(a_mystery_symbols@),
                bonus_lenghts_v(a_bonus_lenghts@),
            ) by {
                if k < p {
                    assert(r@[k] == old_r[k]);
                } else if k > p {
                    assert(r@[k] == old_r[k - 1]);
                }
            }
        }
        mask = mask + 1;
    }
    proof {
        if limit >= 1 {
            assert(all.take(mask - 1) =~= all);
        } else {
            assert(all.take(mask - 1) =~= all);
        }
    }
    r
}

} // verus!
