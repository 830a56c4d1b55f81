use vstd::prelude::*;

use crate::bng::china_festival::convert::{char_text, contains_i64, mechanics_text, mechanics_text_exec};
use crate::bng::three_aztec_temples::models::{ByMechanic, Category, Reel, ReelInstanse};
use vstd::string::StringExecFns;

verus! {

/// Which of the mechanics 1 (`Add`), 2 (`Twice`) and 3 (`Cluster`) a bonus holds.
pub open spec fn mech_flags(m: ByMechanic) -> (bool, bool, bool) {
    (m.id@.contains(1), m.id@.contains(2), m.id@.contains(3))
}

/// The place of a mechanics name among the eight possible ones in alphabetical order:
/// ``, `Add`, `AddCluster`, `AddTwice`, `AddTwiceCluster`, `Cluster`, `Twice`,
/// `TwiceCluster`.
pub open spec fn name_rank(f: (bool, bool, bool)) -> int {
    if !f.0 && !f.1 && !f.2 {
        0
    } else if f.0 && !f.1 && !f.2 {
        1
    } else if f.0 && !f.1 && f.2 {
        2
    } else if f.0 && f.1 && !f.2 {
        3
    } else if f.0 && f.1 && f.2 {
        4
    } else if !f.0 && !f.1 && f.2 {
        5
    } else if !f.0 && f.1 && !f.2 {
        6
    } else {
        7
    }
}

/// The mechanics of the name at place `r` (`name_rank` read back).
pub open spec fn rank_flags(r: int) -> (bool, bool, bool) {
    if r == 0 {
        (false, false, false)
    } else if r == 1 {
        (true, false, false)
    } else if r == 2 {
        (true, false, true)
    } else if r == 3 {
        (true, true, false)
    } else if r == 4 {
        (true, true, true)
    } else if r == 5 {
        (false, false, true)
    } else if r == 6 {
        (false, true, false)
    } else {
        (false, true, true)
    }
}

/// The bonus mechanics entries of the first `n` categories, in order.
pub open spec fn mechanics_of(cats: Seq<Category>, n: nat) -> Seq<ByMechanic>
    decreases n,
{
    if n == 0 || n > cats.len() {
        Seq::empty()
    } else {
        mechanics_of(cats, (n - 1) as nat) + cats[n - 1].bonus.by_mechanics@
    }
}

/// Over the first `n` entries whose name has place `r`: how many there are, and their
/// inits and appearances summed.
pub open spec fn rank_tally(ms: Seq<ByMechanic>, r: int, n: nat) -> (nat, int, int)
    decreases n,
{
    if n == 0 || n > ms.len() {
        (0, 0, 0)
    } else {
        let p = rank_tally(ms, r, (n - 1) as nat);
        if name_rank(mech_flags(ms[n - 1])) == r {
            ((p.0 + 1) as nat, p.1 + ms[n - 1].inits, p.2 + ms[n - 1].appearances)
        } else {
            p
        }
    }
}

/// For the names at places `0..k` that some entry has, in that order: the name, the
/// inits and the appearances summed over its entries.
pub open spec fn tally_rows(ms: Seq<ByMechanic>, k: nat) -> Seq<(Seq<char>, int, int)>
    decreases k,
{
    if k == 0 {
        Seq::empty()
    } else {
        let prev = tally_rows(ms, (k - 1) as nat);
        let t = rank_tally(ms, k - 1, ms.len());
        let f = rank_flags(k - 1);
        if t.0 > 0 {
            prev.push((mechanics_text(f.0, f.1, f.2), t.1, t.2))
        } else {
            prev
        }
    }
}

pub open spec fn rows_view(v: Seq<(String, i128, i128)>) -> Seq<(Seq<char>, int, int)> {
    Seq::new(v.len(), |i: int| (v[i].0@, v[i].1 as int, v[i].2 as int))
}

/// The sum of the bonus inits of the first `n` categories.
pub open spec fn inits_total(cats: Seq<Category>, n: nat) -> int
    decreases n,
{
    if n == 0 || n > cats.len() {
        0
    } else {
        inits_total(cats, (n - 1) as nat) + cats[n - 1].bonus.inits
    }
}

proof fn lemma_rank_roundtrip(f: (bool, bool, bool))
    ensures
        0 <= name_rank(f) < 8,
        rank_flags(name_rank(f)) == f,
{
}

fn rank_of(m: &ByMechanic) -> (r: usize)
    ensures
        r as int == name_rank(mech_flags(*m)),
        r < 8,
{
    let a = contains_i64(&m.id, 1);
    let t = contains_i64(&m.id, 2);
    let c = contains_i64(&m.id, 3);
    if !a && !t && !c {
        0
    } else if a && !t && !c {
        1
    } else if a && !t && c {
        2
    } else if a && t && !c {
        3
    } else if a && t && c {
        4
    } else if !a && !t && c {
        5
    } else if !a && t && !c {
        6
    } else {
        7
    }
}

/// The entries of all categories as (place of name, inits, appearances).
fn flat_entries(cats: &Vec<Category>) -> (r: Vec<(usize, i64, i64)>)
    ensures
        r@.len() == mechanics_of(cats@, cats@.len()).len(),
        forall|i: int|
            0 <= i < r@.len() ==> {
                let m = #[trigger] mechanics_of(cats@, cats@.len())[i];
                r@[i] == (name_rank(mech_flags(m)) as usize, m.inits, m.appearances)
            },
{
    let mut r: Vec<(usize, i64, i64)> = Vec::new();
    let mut c: usize = 0;
    while c < cats.len()
        invariant
            c <= cats.len(),
            r@.len() == mechanics_of(cats@, c as nat).len(),
            forall|i: int|
                0 <= i < r@.len() ==> {
                    let m = #[trigger] mechanics_of(cats@, c as nat)[i];
                    r@[i] == (name_rank(mech_flags(m)) as usize, m.inits, m.appearances)
                },
        decreases cats.len() - c,
    {
        let ms = &cats[c].bonus.by_mechanics;
        let ghost before = mechanics_of(cats@, c as nat);
        let mut j: usize = 0;
        while j < ms.len()
            invariant
                c < cats.len(),
                ms == &cats@[c as int].bonus.by_mechanics,
                before == mechanics_of(cats@, c as nat),
                j <= ms.len(),
                r@.len() == before.len() + j,
                forall|i: int|
                    0 <= i < r@.len() ==> {
                        let m = #[trigger] (before + ms@.take(j as int))[i];
                        r@[i] == (name_rank(mech_flags(m)) as usize, m.inits, m.appearances)
                    },
            decreases ms.len() - j,
        {
            let k = rank_of(&ms[j]);
            r.push((k, ms[j].inits, ms[j].appearances));
            assert forall|i: int| 0 <= i < r@.len() implies {
                let m = #[trigger] (before + ms@.take(j + 1))[i];
                r@[i] == (name_rank(mech_flags(m)) as usize, m.inits, m.appearances)
            } by {
                if i < before.len() + j {
                    assert((before + ms@.take(j + 1))[i] == (before + ms@.take(j as int))[i]);
                } else {
                    assert((before + ms@.take(j + 1))[i] == ms@[j as int]);
                }
            }
            j = j + 1;
        }
        assert(ms@.take(ms.len() as int) =~= ms@);
        assert(mechanics_of(cats@, (c + 1) as nat) == before + ms@);
        c = c + 1;
    }
    r
}

/// The bonus mechanics of the categories tallied by name: for each name that some entry
/// has, in alphabetical order of the names (`name_rank`), the inits and the appearances
/// of its entries summed.
pub fn mechanic_tallies(cats: &Vec<Category>) -> (r: Vec<(String, i128, i128)>)
    ensures
        rows_view(r@) == tally_rows(mechanics_of(cats@, cats@.len()), 8),
{
    let flat = flat_entries(cats);
    let ghost ms = mechanics_of(cats@, cats@.len());
    let mut out: Vec<(String, i128, i128)> = Vec::new();
    let mut k: usize = 0;
    while k < 8
        invariant
            k <= 8,
            ms == mechanics_of(cats@, cats@.len()),
            flat@.len() == ms.len(),
            forall|i: int|
                0 <= i < flat@.len() ==> {
                    let m = #[trigger] ms[i];
                    flat@[i] == (name_rank(mech_flags(m)) as usize, m.inits, m.appearances)
                },
            rows_view(out@) == tally_rows(ms, k as nat),
        decreases 8 - k,
    {
        let mut n: usize = 0;
        let mut inits: i128 = 0;
        let mut apps: i128 = 0;
        let mut i: usize = 0;
        while i < flat.len()
            invariant
                k < 8,
                flat@.len() == ms.len(),
                forall|q: int|
                    0 <= q < flat@.len() ==> {
                        let m = #[trigger] ms[q];
                        flat@[q] == (name_rank(mech_flags(m)) as usize, m.inits, m.appearances)
                    },
                i <= flat.len(),
                n <= i,
                (n as nat, inits as int, apps as int) == rank_tally(ms, k as int, i as nat),
                -(i as int) * 0x8000_0000_0000_0000 <= inits <= (i as int) * 0x8000_0000_0000_0000,
                -(i as int) * 0x8000_0000_0000_0000 <= apps <= (i as int) * 0x8000_0000_0000_0000,
            decreases flat.len() - i,
        {
            let (rk, a, b) = flat[i];
            let ghost m = ms[i as int];
            assert(flat@[i as int] == (name_rank(mech_flags(m)) as usize, m.inits, m.appearances));
            proof {
                let f = mech_flags(m);
                lemma_rank_roundtrip(f);
            }
            if rk == k {
                n = n + 1;
                inits = inits + a as i128;
                apps = apps + b as i128;
            }
            i = i + 1;
        }
        if n > 0 {
            let add = k == 1 || k == 2 || k == 3 || k == 4;
            let twice = k == 3 || k == 4 || k == 6 || k == 7;
            let cluster = k == 2 || k == 4 || k == 5 || k == 7;
            assert((add, twice, cluster) == rank_flags(k as int));
            let name = mechanics_text_exec(add, twice, cluster);
            let ghost before = rows_view(out@);
            out.push((name, inits, apps));
            assert(rows_view(out@) =~= before.push((mechanics_text(add, twice, cluster), inits as int, apps as int)));
        }
        k = k + 1;
    }
    out
}

/// The bonus inits of the categories summed.
pub fn bonus_inits_total(cats: &Vec<Category>) -> (r: i128)
    ensures
        r == inits_total(cats@, cats@.len()),
{
    let mut t: i128 = 0;
    let mut c: usize = 0;
    while c < cats.len()
        invariant
            c <= cats.len(),
            t == inits_total(cats@, c as nat),
            -(c as int) * 0x8000_0000_0000_0000 <= t <= (c as int) * 0x8000_0000_0000_0000,
        decreases cats.len() - c,
    {
        t = t + cats[c].bonus.inits as i128;
        c = c + 1;
    }
    t
}

/// The letter a strip symbol is written with: `A` to `Z` for 1 to 26, `Z` for any other.
pub open spec fn strip_letter(x: i64) -> char {
    if 1 <= x <= 26 {
        (64 + x) as char
    } else {
        'Z'
    }
}

/// A strip written in letters, without its last two symbols when it has more than five.
pub open spec fn strip_text(reel: Seq<i64>) -> Seq<char> {
    let count = if reel.len() > 5 { reel.len() - 2 } else { reel.len() as int };
    Seq::new(count as nat, |i: int| strip_letter(reel[i]))
}

/// The last correct candidate among the first `n`.
pub open spec fn last_correct(is: Seq<ReelInstanse>, n: nat) -> Option<ReelInstanse>
    decreases n,
{
    if n == 0 || n > is.len() {
        None
    } else if is[n - 1].correct {
        Some(is[n - 1])
    } else {
        last_correct(is, (n - 1) as nat)
    }
}

/// The text of a reel: its last correct strip in letters, or nothing when no strip is
/// correct.
pub open spec fn reel_text(r: Reel) -> Seq<char> {
    match last_correct(r.instanses@, r.instanses@.len()) {
        Some(inst) => strip_text(inst.reel@),
        None => Seq::empty(),
    }
}

fn strip_letter_exec(x: i64) -> (r: char)
    ensures
        r == strip_letter(x),
{
    if 1 <= x && x <= 26 {
        let b = x as u8;
        (64u8 + b) as char
    } else {
        'Z'
    }
}

fn reel_text_exec(r: &Reel) -> (t: String)
    ensures
        t@ == reel_text(*r),
{
    let is = &r.instanses;
    let mut k: usize = is.len();
    while k > 0
        invariant
            k <= is@.len(),
            last_correct(is@, is@.len()) == last_correct(is@, k as nat),
        ensures
            last_correct(is@, is@.len()) == last_correct(is@, k as nat),
            k > 0 ==> is@[k - 1].correct,
        decreases k,
    {
        if is[k - 1].correct {
            break;
        }
        k = k - 1;
    }
    let mut t = String::new();
    if k == 0 {
        assert(t@ =~= reel_text(*r));
        return t;
    }
    let reel = &is[k - 1].reel;
    let count: usize = if reel.len() > 5 { reel.len() - 2 } else { reel.len() };
    let mut i: usize = 0;
    while i < count
        invariant
            count <= reel@.len(),
            count == (if reel@.len() > 5 { reel@.len() - 2 } else { reel@.len() as int }),
            i <= count,
            t@ =~= strip_text(reel@).take(i as int),
        decreases count - i,
    {
        let c = char_text(strip_letter_exec(reel[i]));
        t.append(c.as_str());
        assert(strip_text(reel@).take(i + 1) =~= strip_text(reel@).take(i as int).push(strip_letter(reel@[i as int])));
        i = i + 1;
    }
    assert(strip_text(reel@).take(count as int) =~= strip_text(reel@));
    t
}

/// The text of every reel of every category, in order.
pub fn reel_texts(cats: &Vec<Category>) -> (r: Vec<Vec<String>>)
    ensures
        r@.len() == cats@.len(),
        forall|c: int| 0 <= c < cats@.len() ==> (#[trigger] r@[c])@.len() == cats@[c].reels@.len(),
        forall|c: int, k: int|
            0 <= c < cats@.len() && 0 <= k < cats@[c].reels@.len() ==> #[trigger] r@[c]@[k]@ == reel_text(
                cats@[c].reels@[k],
            ),
{
    let mut out: Vec<Vec<String>> = Vec::new();
    let mut c: usize = 0;
    while c < cats.len()
        invariant
            c <= cats@.len(),
            out@.len() == c,
            forall|q: int| 0 <= q < c ==> (#[trigger] out@[q])@.len() == cats@[q].reels@.len(),
            forall|q: int, k: int|
                0 <= q < c && 0 <= k < cats@[q].reels@.len() ==> #[trigger] out@[q]@[k]@ == reel_text(cats@[q].reels@[k]),
        decreases cats.len() - c,
    {
        let reels = &cats[c].reels;
        let mut row: Vec<String> = Vec::new();
        let mut k: usize = 0;
        while k < reels.len()
            invariant
                reels == &cats@[c as int].reels,
                k <= reels@.len(),
                row@.len() == k,
                forall|j: int| 0 <= j < k ==> #[trigger] row@[j]@ == reel_text(reels@[j]),
            decreases reels.len() - k,
        {
            row.push(reel_text_exec(&reels[k]));
            k = k + 1;
        }
        out.push(row);
        c = c + 1;
    }
    out
}

} // verus!
