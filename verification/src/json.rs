use vstd::prelude::*;
use vstd::string::*;

verus! {

/// A JSON document as it appears in the transaction logs.
///
/// Numbers that fit an `i64` are `Int`; larger non-negative integers are `UInt`;
/// every other number keeps its decimal text in `Float`.  Object entries are held in
/// the order in which the reader hands them over, each key once; read from serde_json's
/// map that is key order, so two objects are equal when their entries are.
#[derive(Debug)]
pub enum Json {
    Null,
    Bool(bool),
    Int(i64),
    UInt(u64),
    Float(String),
    Str(String),
    Array(Vec<Json>),
    Object(Vec<(String, Json)>),
}

/// The mathematical value of a JSON document: strings are character sequences.
pub enum JsonV {
    Null,
    Bool(bool),
    Int(i64),
    UInt(u64),
    Float(Seq<char>),
    Str(Seq<char>),
    Array(Seq<JsonV>),
    Object(Seq<(Seq<char>, JsonV)>),
}

pub open spec fn jv(j: Json) -> JsonV
    decreases j,
{
    match j {
        Json::Null => JsonV::Null,
        Json::Bool(b) => JsonV::Bool(b),
        Json::Int(n) => JsonV::Int(n),
        Json::UInt(n) => JsonV::UInt(n),
        Json::Float(s) => JsonV::Float(s@),
        Json::Str(s) => JsonV::Str(s@),
        Json::Array(v) => {
            proof {
                assert(decreases_to!(j => v@));
            }
            JsonV::Array(jv_list(v@))
        },
        Json::Object(v) => {
            proof {
                assert(decreases_to!(j => v@));
            }
            JsonV::Object(jv_entries(v@))
        },
    }
}

pub open spec fn jv_list(s: Seq<Json>) -> Seq<JsonV>
    decreases s,
{
    if s.len() == 0 {
        Seq::empty()
    } else {
        proof {
            assert(decreases_to!(s => s[s.len() - 1]));
            assert(decreases_to!(s => s.drop_last()));
        }
        jv_list(s.drop_last()).push(jv(s[s.len() - 1]))
    }
}

pub open spec fn jv_entries(s: Seq<(String, Json)>) -> Seq<(Seq<char>, JsonV)>
    decreases s,
{
    if s.len() == 0 {
        Seq::empty()
    } else {
        proof {
            assert(decreases_to!(s => s[s.len() - 1]));
            assert(decreases_to!(s => s.drop_last()));
        }
        jv_entries(s.drop_last()).push((s[s.len() - 1].0@, jv(s[s.len() - 1].1)))
    }
}


pub proof fn lemma_jv_list(s: Seq<Json>)
    ensures
        jv_list(s).len() == s.len(),
        forall|i: int| 0 <= i < s.len() ==> #[trigger] jv_list(s)[i] == jv(s[i]),
    decreases s.len(),
{
    if s.len() > 0 {
        lemma_jv_list(s.drop_last());
    }
}

pub proof fn lemma_jv_entries(s: Seq<(String, Json)>)
    ensures
        jv_entries(s).len() == s.len(),
        forall|i: int|
            0 <= i < s.len() ==> #[trigger] jv_entries(s)[i] == (s[i].0@, jv(s[i].1)),
    decreases s.len(),
{
    if s.len() > 0 {
        lemma_jv_entries(s.drop_last());
    }
}

/// The view of an optional borrowed document.
pub open spec fn ov(o: Option<&Json>) -> Option<JsonV> {
    match o {
        Some(j) => Some(jv(*j)),
        None => None,
    }
}

/// The value of the first entry named `k`.
pub open spec fn first_value(es: Seq<(Seq<char>, JsonV)>, k: Seq<char>) -> Option<JsonV>
    decreases es.len(),
{
    if es.len() == 0 {
        None
    } else if es[0].0 == k {
        Some(es[0].1)
    } else {
        first_value(es.drop_first(), k)
    }
}

/// `o["k"]`: the member `k` of an object, `None` for anything else.
pub open spec fn get(o: Option<JsonV>, k: Seq<char>) -> Option<JsonV> {
    match o {
        Some(JsonV::Object(es)) => first_value(es, k),
        _ => None,
    }
}

/// `o[i]`: the element `i` of an array, `None` for anything else.
pub open spec fn at(o: Option<JsonV>, i: int) -> Option<JsonV> {
    match o {
        Some(JsonV::Array(xs)) => if 0 <= i < xs.len() {
            Some(xs[i])
        } else {
            None
        },
        _ => None,
    }
}

pub open spec fn as_int(o: Option<JsonV>) -> Option<i64> {
    match o {
        Some(JsonV::Int(n)) => Some(n),
        _ => None,
    }
}

pub open spec fn as_text(o: Option<JsonV>) -> Option<Seq<char>> {
    match o {
        Some(JsonV::Str(s)) => Some(s),
        _ => None,
    }
}

pub open spec fn as_flag(o: Option<JsonV>) -> Option<bool> {
    match o {
        Some(JsonV::Bool(b)) => Some(b),
        _ => None,
    }
}

pub open spec fn as_list(o: Option<JsonV>) -> Option<Seq<JsonV>> {
    match o {
        Some(JsonV::Array(xs)) => Some(xs),
        _ => None,
    }
}

/// A missing member reads as `null`.
pub open spec fn or_null(o: Option<JsonV>) -> JsonV {
    match o {
        Some(v) => v,
        None => JsonV::Null,
    }
}

proof fn lemma_first_value(es: Seq<(Seq<char>, JsonV)>, k: Seq<char>, i: int)
    requires
        0 <= i <= es.len(),
        forall|j: int| 0 <= j < i ==> es[j].0 != k,
    ensures
        i < es.len() && es[i].0 == k ==> first_value(es, k) == Some(es[i].1),
        i == es.len() ==> first_value(es, k) is None,
    decreases i,
{
    if i > 0 {
        lemma_first_value(es.drop_first(), k, i - 1);
    }
}

/// Character-wise equality of two strings.
pub fn str_eq(a: &str, b: &str) -> (r: bool)
    ensures
        r == (a@ == b@),
{
    let n = a.unicode_len();
    if n != b.unicode_len() {
        return false;
    }
    let mut i: usize = 0;
    while i < n
        invariant
            n == a@.len(),
            n == b@.len(),
            i <= n,
            forall|j: int| 0 <= j < i ==> a@[j] == b@[j],
        decreases n - i,
    {
        if a.get_char(i) != b.get_char(i) {
            return false;
        }
        i = i + 1;
    }
    assert(a@ =~= b@);
    true
}

/// `o["k"]`.
pub fn get_key<'a>(o: Option<&'a Json>, k: &str) -> (r: Option<&'a Json>)
    ensures
        ov(r) == get(ov(o), k@),
{
    match o {
        Some(Json::Object(es)) => {
            proof {
                lemma_jv_entries(es@);
            }
            let mut i: usize = 0;
            while i < es.len()
                invariant
                    ov(o) == Some(JsonV::Object(jv_entries(es@))),
                    i <= es.len(),
                    jv_entries(es@).len() == es.len(),
                    forall|j: int|
                        0 <= j < es.len() ==> #[trigger] jv_entries(es@)[j] == (
                            es@[j].0@,
                            jv(es@[j].1),
                        ),
                    forall|j: int| 0 <= j < i ==> jv_entries(es@)[j].0 != k@,
                decreases es.len() - i,
            {
                if str_eq(es[i].0.as_str(), k) {
                    proof {
                        assert(jv_entries(es@)[i as int].0 == k@);
                        lemma_first_value(jv_entries(es@), k@, i as int);
                    }
                    return Some(&es[i].1);
                }
                i = i + 1;
            }
            proof {
                lemma_first_value(jv_entries(es@), k@, i as int);
            }
            None
        },
        _ => None,
    }
}

/// `o[i]`.
pub fn get_at<'a>(o: Option<&'a Json>, i: usize) -> (r: Option<&'a Json>)
    ensures
        ov(r) == at(ov(o), i as int),
{
    match o {
        Some(Json::Array(xs)) => {
            proof {
                lemma_jv_list(xs@);
            }
            if i < xs.len() {
                Some(&xs[i])
            } else {
                None
            }
        },
        _ => None,
    }
}

pub fn get_i64(o: Option<&Json>) -> (r: Option<i64>)
    ensures
        r == as_int(ov(o)),
{
    match o {
        Some(Json::Int(n)) => Some(*n),
        _ => None,
    }
}

pub fn get_bool(o: Option<&Json>) -> (r: Option<bool>)
    ensures
        r == as_flag(ov(o)),
{
    match o {
        Some(Json::Bool(b)) => Some(*b),
        _ => None,
    }
}

pub fn get_str<'a>(o: Option<&'a Json>) -> (r: Option<&'a String>)
    ensures
        match r {
            Some(s) => as_text(ov(o)) == Some(s@),
            None => as_text(ov(o)) is None,
        },
{
    match o {
        Some(Json::Str(s)) => Some(s),
        _ => None,
    }
}

pub fn get_array<'a>(o: Option<&'a Json>) -> (r: Option<&'a Vec<Json>>)
    ensures
        match r {
            Some(xs) => as_list(ov(o)) == Some(jv_list(xs@)),
            None => as_list(ov(o)) is None,
        },
{
    match o {
        Some(Json::Array(xs)) => Some(xs),
        _ => None,
    }
}

/// Whether `o` is the string `lit`.
pub fn is_text(o: Option<&Json>, lit: &str) -> (r: bool)
    ensures
        r == (as_text(ov(o)) == Some(lit@)),
{
    match get_str(o) {
        Some(s) => str_eq(s.as_str(), lit),
        None => false,
    }
}

/// Whether a number's text is the text of zero, as a float (`0.0` or `-0.0`).
pub open spec fn zero_text(s: Seq<char>) -> bool {
    s == "0.0"@ || s == "-0.0"@
}

/// Whether two documents are the same value: as equal documents, but a float zero
/// equals a float zero whatever its sign.
pub open spec fn json_same(a: JsonV, b: JsonV) -> bool
    decreases a,
{
    match a {
        JsonV::Float(x) => match b {
            JsonV::Float(y) => x == y || (zero_text(x) && zero_text(y)),
            _ => false,
        },
        JsonV::Array(xs) => match b {
            JsonV::Array(ys) => xs.len() == ys.len() && forall|i: int|
                0 <= i < xs.len() ==> {
                    proof {
                        assert(decreases_to!(a => xs));
                        assert(decreases_to!(xs => xs[i]));
                    }
                    json_same(#[trigger] xs[i], ys[i])
                },
            _ => false,
        },
        JsonV::Object(es) => match b {
            JsonV::Object(fs) => es.len() == fs.len() && forall|i: int|
                0 <= i < es.len() ==> {
                    proof {
                        assert(decreases_to!(a => es));
                        assert(decreases_to!(es => es[i]));
                        assert(decreases_to!(es[i] => es[i].1));
                    }
                    (#[trigger] es[i]).0 == fs[i].0 && json_same(es[i].1, fs[i].1)
                },
            _ => false,
        },
        _ => a == b,
    }
}

/// Whether two lists of documents are the same values, place by place (`json_same`).
pub open spec fn list_same(xs: Seq<JsonV>, ys: Seq<JsonV>) -> bool {
    json_same(JsonV::Array(xs), JsonV::Array(ys))
}

fn zero_text_exec(s: &str) -> (r: bool)
    ensures
        r == zero_text(s@),
{
    str_eq(s, "0.0") || str_eq(s, "-0.0")
}

/// Whether two documents are the same value (`json_same`): as serde_json compares
/// them, float zeros of either sign are equal.
pub fn json_eq(a: &Json, b: &Json) -> (r: bool)
    ensures
        r == json_same(jv(*a), jv(*b)),
    decreases a,
{
    match (a, b) {
        (Json::Null, Json::Null) => true,
        (Json::Bool(x), Json::Bool(y)) => *x == *y,
        (Json::Int(x), Json::Int(y)) => *x == *y,
        (Json::UInt(x), Json::UInt(y)) => *x == *y,
        (Json::Float(x), Json::Float(y)) => str_eq(x.as_str(), y.as_str()) || (zero_text_exec(x.as_str())
            && zero_text_exec(y.as_str())),
        (Json::Str(x), Json::Str(y)) => str_eq(x.as_str(), y.as_str()),
        (Json::Array(xs), Json::Array(ys)) => {
            proof {
                lemma_jv_list(xs@);
                lemma_jv_list(ys@);
            }
            if xs.len() != ys.len() {
                return false;
            }
            let mut i: usize = 0;
            while i < xs.len()
                invariant
                    xs.len() == ys.len(),
                    i <= xs.len(),
                    *a == Json::Array(*xs),
                    *b == Json::Array(*ys),
                    jv_list(xs@).len() == xs@.len(),
                    jv_list(ys@).len() == ys@.len(),
                    forall|k: int| 0 <= k < xs@.len() ==> #[trigger] jv_list(xs@)[k] == jv(xs@[k]),
                    forall|k: int| 0 <= k < ys@.len() ==> #[trigger] jv_list(ys@)[k] == jv(ys@[k]),
                    forall|k: int| 0 <= k < i ==> json_same(jv(#[trigger] xs@[k]), jv(ys@[k])),
                decreases xs.len() - i,
            {
                proof {
                    assert(decreases_to!(*a => xs@[i as int]));
                }
                if !json_eq(&xs[i], &ys[i]) {
                    assert(!json_same(jv_list(xs@)[i as int], jv_list(ys@)[i as int]));
                    assert(jv(*a) == JsonV::Array(jv_list(xs@)));
                    assert(jv(*b) == JsonV::Array(jv_list(ys@)));
                    return false;
                }
                i = i + 1;
            }
            assert(jv(*a) == JsonV::Array(jv_list(xs@)));
            assert(jv(*b) == JsonV::Array(jv_list(ys@)));
            assert forall|k: int| 0 <= k < jv_list(xs@).len() implies json_same(
                #[trigger] jv_list(xs@)[k],
                jv_list(ys@)[k],
            ) by {
                assert(json_same(jv(xs@[k]), jv(ys@[k])));
            }
            true
        },
        (Json::Object(xs), Json::Object(ys)) => {
            proof {
                lemma_jv_entries(xs@);
                lemma_jv_entries(ys@);
            }
            if xs.len() != ys.len() {
                return false;
            }
            let mut i: usize = 0;
            while i < xs.len()
                invariant
                    xs.len() == ys.len(),
                    i <= xs.len(),
                    *a == Json::Object(*xs),
                    *b == Json::Object(*ys),
                    jv_entries(xs@).len() == xs@.len(),
                    jv_entries(ys@).len() == ys@.len(),
                    forall|k: int| 0 <= k < xs@.len() ==> #[trigger] jv_entries(xs@)[k] == (xs@[k].0@, jv(xs@[k].1)),
                    forall|k: int| 0 <= k < ys@.len() ==> #[trigger] jv_entries(ys@)[k] == (ys@[k].0@, jv(ys@[k].1)),
                    forall|k: int|
                        0 <= k < i ==> (#[trigger] jv_entries(xs@)[k]).0 == jv_entries(ys@)[k].0 && json_same(
                            jv_entries(xs@)[k].1,
                            jv_entries(ys@)[k].1,
                        ),
                decreases xs.len() - i,
            {
                proof {
                    assert(decreases_to!(*a => xs@[i as int].1));
                }
                assert(jv_entries(xs@)[i as int] == (xs@[i as int].0@, jv(xs@[i as int].1)));
                assert(jv_entries(ys@)[i as int] == (ys@[i as int].0@, jv(ys@[i as int].1)));
                if !str_eq(xs[i].0.as_str(), ys[i].0.as_str()) || !json_eq(&xs[i].1, &ys[i].1) {
                    assert(!(jv_entries(xs@)[i as int].0 == jv_entries(ys@)[i as int].0 && json_same(
                        jv_entries(xs@)[i as int].1,
                        jv_entries(ys@)[i as int].1,
                    )));
                    assert(jv(*a) == JsonV::Object(jv_entries(xs@)));
                    assert(jv(*b) == JsonV::Object(jv_entries(ys@)));
                    return false;
                }
                i = i + 1;
            }
            assert(jv(*a) == JsonV::Object(jv_entries(xs@)));
            assert(jv(*b) == JsonV::Object(jv_entries(ys@)));
            true
        },
        _ => false,
    }
}

/// A copy of a document.
pub fn copy_json(j: &Json) -> (r: Json)
    ensures
        jv(r) == jv(*j),
    decreases j,
{
    match j {
        Json::Null => Json::Null,
        Json::Bool(b) => Json::Bool(*b),
        Json::Int(n) => Json::Int(*n),
        Json::UInt(n) => Json::UInt(*n),
        Json::Float(t) => Json::Float(t.clone()),
        Json::Str(t) => Json::Str(t.clone()),
        Json::Array(xs) => {
            proof {
                lemma_jv_list(xs@);
            }
            let mut out: Vec<Json> = Vec::new();
            let mut i: usize = 0;
            while i < xs.len()
                invariant
                    *j == Json::Array(*xs),
                    i <= xs@.len(),
                    out@.len() == i,
                    forall|k: int| 0 <= k < i ==> jv(#[trigger] out@[k]) == jv(xs@[k]),
                decreases xs.len() - i,
            {
                proof {
                    assert(*xs == (*j)->Array_0);
                    assert(decreases_to!(*j => (*j)->Array_0));
                    assert(decreases_to!(*xs => xs@));
                    assert(decreases_to!(xs@ => xs@[i as int]));
                    assert(decreases_to!(*j => xs@[i as int]));
                }
                out.push(copy_json(&xs[i]));
                i = i + 1;
            }
            proof {
                lemma_jv_list(out@);
                assert(jv_list(out@) =~= jv_list(xs@));
            }
            Json::Array(out)
        },
        Json::Object(es) => {
            proof {
                lemma_jv_entries(es@);
            }
            let mut out: Vec<(String, Json)> = Vec::new();
            let mut i: usize = 0;
            while i < es.len()
                invariant
                    *j == Json::Object(*es),
                    i <= es@.len(),
                    out@.len() == i,
                    forall|k: int| 0 <= k < i ==> (#[trigger] out@[k]).0@ == es@[k].0@ && jv(out@[k].1) == jv(es@[k].1),
                decreases es.len() - i,
            {
                proof {
                    assert(*es == (*j)->Object_0);
                    assert(decreases_to!(*j => (*j)->Object_0));
                    assert(decreases_to!(*es => es@));
                    assert(decreases_to!(es@ => es@[i as int]));
                    assert(decreases_to!(es@[i as int] => es@[i as int].1));
                    assert(decreases_to!(*j => es@[i as int].1));
                }
                let v = copy_json(&es[i].1);
                out.push((es[i].0.clone(), v));
                i = i + 1;
            }
            proof {
                lemma_jv_entries(out@);
                assert(jv_entries(out@) =~= jv_entries(es@));
            }
            Json::Object(out)
        },
    }
}

} // verus!
