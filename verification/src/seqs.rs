use vstd::prelude::*;

verus! {

/// How many times `x` occurs in `s`.
pub open spec fn count_of<T>(s: Seq<T>, x: T) -> nat
    decreases s.len(),
{
    if s.len() == 0 {
        0
    } else {
        count_of(s.drop_last(), x) + if s.last() == x {
            1nat
        } else {
            0nat
        }
    }
}

/// The distinct elements of `s`, in the order of their first occurrence.
pub open spec fn distinct<T>(s: Seq<T>) -> Seq<T>
    decreases s.len(),
{
    if s.len() == 0 {
        Seq::empty()
    } else if distinct(s.drop_last()).contains(s.last()) {
        distinct(s.drop_last())
    } else {
        distinct(s.drop_last()).push(s.last())
    }
}

pub proof fn lemma_count_of_push<T>(s: Seq<T>, x: T, y: T)
    ensures
        count_of(s.push(x), y) == count_of(s, y) + if x == y {
            1nat
        } else {
            0nat
        },
{
    assert(s.push(x).drop_last() =~= s);
}

pub proof fn lemma_count_of_take<T>(s: Seq<T>, i: int, y: T)
    requires
        0 <= i < s.len(),
    ensures
        count_of(s.take(i + 1), y) == count_of(s.take(i), y) + if s[i] == y {
            1nat
        } else {
            0nat
        },
{
    assert(s.take(i + 1) =~= s.take(i).push(s[i]));
    lemma_count_of_push(s.take(i), s[i], y);
}

pub proof fn lemma_distinct_push<T>(s: Seq<T>, x: T)
    ensures
        distinct(s.push(x)) == if distinct(s).contains(x) {
            distinct(s)
        } else {
            distinct(s).push(x)
        },
{
    assert(s.push(x).drop_last() =~= s);
}

pub proof fn lemma_distinct_props<T>(s: Seq<T>)
    ensures
        distinct(s).no_duplicates(),
        forall|x: T| s.contains(x) <==> #[trigger] distinct(s).contains(x),
    decreases s.len(),
{
    if s.len() > 0 {
        let p = s.drop_last();
        let l = s.last();
        lemma_distinct_props(p);
        let d = distinct(p);
        assert forall|x: T| s.contains(x) <==> #[trigger] distinct(s).contains(x) by {
            if s.contains(x) {
                let k = choose|k: int| 0 <= k < s.len() && s[k] == x;
                if k < s.len() - 1 {
                    assert(p[k] == x);
                    assert(p.contains(x));
                    assert(d.contains(x));
                    if !d.contains(l) {
                        let m = choose|m: int| 0 <= m < d.len() && d[m] == x;
                        assert(d.push(l)[m] == x);
                    }
                } else {
                    if !d.contains(l) {
                        assert(d.push(l)[d.len() as int] == x);
                    }
                }
            }
            if distinct(s).contains(x) {
                if d.contains(x) {
                    assert(p.contains(x));
                    let k = choose|k: int| 0 <= k < p.len() && p[k] == x;
                    assert(s[k] == x);
                } else {
                    assert(!d.contains(l));
                    let m = choose|m: int| 0 <= m < d.len() + 1 && d.push(l)[m] == x;
                    if m < d.len() {
                        assert(d[m] == x);
                    }
                    assert(s[s.len() - 1] == x);
                }
            }
        }
        if !d.contains(l) {
            assert forall|i: int, j: int|
                0 <= i < d.push(l).len() && 0 <= j < d.push(l).len() && i != j implies d.push(l)[i]
                != d.push(l)[j] by {
                if i < d.len() && j < d.len() {
                } else if i == d.len() {
                    assert(d[j] == d.push(l)[j]);
                } else {
                    assert(d[i] == d.push(l)[i]);
                }
            }
        }
    }
}

pub proof fn lemma_count_of_zero<T>(s: Seq<T>, x: T)
    requires
        !s.contains(x),
    ensures
        count_of(s, x) == 0,
    decreases s.len(),
{
    if s.len() > 0 {
        assert(!s.drop_last().contains(x)) by {
            if s.drop_last().contains(x) {
                let k = choose|k: int| 0 <= k < s.drop_last().len() && s.drop_last()[k] == x;
                assert(s[k] == x);
            }
        }
        lemma_count_of_zero(s.drop_last(), x);
    }
}

/// Element-wise equality of two symbol columns.
pub fn same_u8(a: &Vec<u8>, b: &Vec<u8>) -> (r: bool)
    ensures
        r == (a@ == b@),
{
    if a.len() != b.len() {
        return false;
    }
    let mut i: usize = 0;
    while i < a.len()
        invariant
            a.len() == b.len(),
            i <= a.len(),
            forall|j: int| 0 <= j < i ==> a@[j] == b@[j],
        decreases a.len() - i,
    {
        if a[i] != b[i] {
            return false;
        }
        i = i + 1;
    }
    assert(a@ =~= b@);
    true
}

/// Whether `a[a_from .. a_from + len]` equals `b[b_from .. b_from + len]`.
pub fn window_eq_u8(a: &Vec<u8>, a_from: usize, b: &Vec<u8>, b_from: usize, len: usize) -> (r:
    bool)
    requires
        a_from + len <= a.len(),
        b_from + len <= b.len(),
    ensures
        r == (a@.subrange(a_from as int, a_from + len) == b@.subrange(
            b_from as int,
            b_from + len,
        )),
{
    let ghost sa = a@.subrange(a_from as int, a_from + len);
    let ghost sb = b@.subrange(b_from as int, b_from + len);
    let mut i: usize = 0;
    while i < len
        invariant
            a_from + len <= a.len(),
            b_from + len <= b.len(),
            sa == a@.subrange(a_from as int, a_from + len),
            sb == b@.subrange(b_from as int, b_from + len),
            i <= len,
            forall|j: int| 0 <= j < i ==> sa[j] == sb[j],
        decreases len - i,
    {
        if a[a_from + i] != b[b_from + i] {
            assert(sa[i as int] != sb[i as int]);
            return false;
        }
        i = i + 1;
    }
    assert(sa =~= sb);
    true
}

/// Whether every element of `s[from..to]` equals `x`.
pub open spec fn all_equal_u8(s: Seq<u8>, from: int, to: int, x: u8) -> bool {
    forall|j: int| from <= j < to ==> s[j] == x
}

pub fn all_equal_to_u8(s: &Vec<u8>, from: usize, to: usize, x: u8) -> (r: bool)
    requires
        from <= to <= s.len(),
    ensures
        r == all_equal_u8(s@, from as int, to as int, x),
{
    let mut i = from;
    while i < to
        invariant
            from <= i <= to <= s.len(),
            forall|j: int| from <= j < i ==> s@[j] == x,
        decreases to - i,
    {
        if s[i] != x {
            return false;
        }
        i = i + 1;
    }
    true
}

pub fn copy_u8(a: &Vec<u8>) -> (r: Vec<u8>)
    ensures
        r@ == a@,
{
    let r = a.clone();
    assert(r@ =~= a@);
    r
}


pub proof fn lemma_count_of_concat<T>(a: Seq<T>, b: Seq<T>, y: T)
    ensures
        count_of(a + b, y) == count_of(a, y) + count_of(b, y),
    decreases b.len(),
{
    if b.len() > 0 {
        lemma_count_of_concat(a, b.drop_last(), y);
        assert((a + b).drop_last() =~= a + b.drop_last());
    } else {
        assert(a + b =~= a);
    }
}

pub proof fn lemma_count_of_insert<T>(s: Seq<T>, p: int, x: T, y: T)
    requires
        0 <= p <= s.len(),
    ensures
        count_of(s.insert(p, x), y) == count_of(s, y) + if x == y {
            1nat
        } else {
            0nat
        },
{
    assert(s.insert(p, x) =~= s.take(p) + (seq![x] + s.skip(p)));
    assert(s =~= s.take(p) + s.skip(p));
    lemma_count_of_concat(s.take(p), seq![x] + s.skip(p), y);
    lemma_count_of_concat(seq![x], s.skip(p), y);
    lemma_count_of_concat(s.take(p), s.skip(p), y);
    assert(seq![x].drop_last() =~= Seq::<T>::empty());
    assert(count_of(Seq::<T>::empty(), y) == 0);
    assert(seq![x].last() == x);
    assert(count_of(seq![x], y) == if x == y {
        1nat
    } else {
        0nat
    });
}

/// Whether `s` is in ascending order.
pub open spec fn sorted_asc(s: Seq<u64>) -> bool {
    forall|i: int, j: int| 0 <= i < j < s.len() ==> s[i] <= s[j]
}

/// Whether `a` and `b` hold the same elements, each as often.
pub open spec fn is_perm<T>(a: Seq<T>, b: Seq<T>) -> bool {
    forall|x: T| #[trigger] count_of(a, x) == count_of(b, x)
}

/// Sorts numbers in ascending order.
pub fn sort_asc(v: &Vec<u64>) -> (r: Vec<u64>)
    ensures
        sorted_asc(r@),
        is_perm(r@, v@),
        r.len() == v.len(),
{
    let mut r: Vec<u64> = Vec::new();
    let mut i: usize = 0;
    while i < v.len()
        invariant
            i <= v.len(),
            r.len() == i,
            sorted_asc(r@),
            is_perm(r@, v@.take(i as int)),
        decreases v.len() - i,
    {
        let x = v[i];
        let mut p: usize = 0;
        while p < r.len() && r[p] <= x
            invariant
                p <= r.len(),
                forall|k: int| 0 <= k < p ==> r@[k] <= x,
            decreases r.len() - p,
        {
            p = p + 1;
        }
        let ghost old_r = r@;
        r.insert(p, x);
        assert(r@ =~= old_r.insert(p as int, x));
        assert forall|a: int, b: int| 0 <= a < b < r@.len() implies r@[a] <= r@[b] by {
            if b < p {
            } else if b == p {
            } else if a < p {
                assert(r@[b] == old_r[b - 1]);
                if p < old_r.len() {
                    assert(old_r[p as int] > x);
                    assert(old_r[p as int] <= old_r[b - 1]);
                }
            } else if a == p {
                assert(old_r[p as int] > x);
                assert(old_r[p as int] <= old_r[b - 1]);
            } else {
            }
        }
        assert forall|y: u64| #[trigger] count_of(r@, y) == count_of(v@.take(i + 1), y) by {
            lemma_count_of_insert(old_r, p as int, x, y);
            lemma_count_of_take(v@, i as int, y);
        }
        i = i + 1;
    }
    assert(v@.take(v.len() as int) =~= v@);
    r
}

/// The sum, over the boards of `d`, of how often each occurs in `bs`.
pub open spec fn counts_sum<T>(d: Seq<T>, bs: Seq<T>) -> int
    decreases d.len(),
{
    if d.len() == 0 {
        0
    } else {
        counts_sum(d.drop_last(), bs) + count_of(bs, d.last())
    }
}

pub proof fn lemma_counts_sum_push<T>(d: Seq<T>, bs: Seq<T>, x: T)
    ensures
        counts_sum(d, bs.push(x)) == counts_sum(d, bs) + count_of(d, x),
    decreases d.len(),
{
    if d.len() > 0 {
        lemma_counts_sum_push(d.drop_last(), bs, x);
        lemma_count_of_push(bs, x, d.last());
    }
}

pub proof fn lemma_count_of_unique<T>(d: Seq<T>, x: T)
    requires
        d.no_duplicates(),
    ensures
        count_of(d, x) == if d.contains(x) {
            1nat
        } else {
            0nat
        },
    decreases d.len(),
{
    if d.len() > 0 {
        let p = d.drop_last();
        assert(p.no_duplicates()) by {
            assert forall|i: int, j: int| 0 <= i < p.len() && 0 <= j < p.len() && i != j implies p[i] != p[j] by {
                assert(p[i] == d[i] && p[j] == d[j]);
            }
        }
        lemma_count_of_unique(p, x);
        if d.last() == x {
            if p.contains(x) {
                let k = choose|k: int| 0 <= k < p.len() && p[k] == x;
                assert(d[k] == d[d.len() - 1]);
            }
            assert(d[d.len() - 1] == x);
        } else {
            if d.contains(x) {
                let k = choose|k: int| 0 <= k < d.len() && d[k] == x;
                assert(p[k] == x);
            }
            if p.contains(x) {
                let k = choose|k: int| 0 <= k < p.len() && p[k] == x;
                assert(d[k] == x);
            }
        }
    } else {
        lemma_count_of_zero(d, x);
    }
}

pub proof fn lemma_distinct_counts_sum<T>(bs: Seq<T>)
    ensures
        counts_sum(distinct(bs), bs) == bs.len(),
    decreases bs.len(),
{
    if bs.len() > 0 {
        let p = bs.drop_last();
        let l = bs.last();
        assert(p.push(l) =~= bs);
        lemma_distinct_counts_sum(p);
        lemma_distinct_props(p);
        let d = distinct(p);
        lemma_counts_sum_push(d, p, l);
        lemma_count_of_unique(d, l);
        if !d.contains(l) {
            lemma_count_of_push(p, l, l);
            if p.contains(l) {
                assert(d.contains(l));
            }
            lemma_count_of_zero(p, l);
            assert(distinct(bs) == d.push(l));
            assert(d.push(l).drop_last() =~= d);
            assert(counts_sum(d.push(l), bs) == counts_sum(d, bs) + count_of(bs, l));
        } else {
            assert(distinct(bs) == d);
        }
    }
}


/// How often `y` occurs in `k` copies of `x`.
pub proof fn lemma_count_of_copies<T>(k: nat, x: T, y: T)
    ensures
        count_of(Seq::new(k, |i: int| x), y) == if x == y {
            k
        } else {
            0
        },
    decreases k,
{
    if k > 0 {
        lemma_count_of_copies((k - 1) as nat, x, y);
        assert(Seq::new(k, |i: int| x).drop_last() =~= Seq::new((k - 1) as nat, |i: int| x));
    }
}

/// An element of a sequence has a first occurrence.
pub proof fn lemma_first_occurrence<T>(s: Seq<T>, x: T) -> (i: int)
    requires
        s.contains(x),
    ensures
        0 <= i < s.len(),
        s[i] == x,
        !s.take(i).contains(x),
    decreases s.len(),
{
    if s.drop_last().contains(x) {
        let j = choose|j: int| 0 <= j < s.drop_last().len() && s.drop_last()[j] == x;
        assert(s.drop_last()[j] == x);
        let i = lemma_first_occurrence(s.drop_last(), x);
        assert(s.take(i) =~= s.drop_last().take(i));
        i
    } else {
        let i = s.len() - 1;
        assert(s[i] == x) by {
            let j = choose|j: int| 0 <= j < s.len() && s[j] == x;
            if j < i {
                assert(s.drop_last()[j] == x);
            }
        }
        assert(s.take(i) =~= s.drop_last());
        i
    }
}

} // verus!
