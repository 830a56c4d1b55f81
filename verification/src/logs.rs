use vstd::prelude::*;

use crate::json::{
    as_list, as_text, copy_json, get, get_array, get_key, is_text, jv, jv_entries, jv_list, lemma_jv_entries,
    lemma_jv_list, Json, JsonV,
};
use vstd::string::{StrSliceExecFns, StringExecFns};

verus! {

#[verifier::external_type_specification]
#[verifier::external_body]
pub struct ExValue(serde_json::Value);

/// The document a JSON text holds, as serde_json reads it, or `None` when it refuses the
/// text.
pub uninterp spec fn json_text_value(text: Seq<char>) -> Option<JsonV>;

/// The view of an optional document.
pub open spec fn opt_jv(o: Option<Json>) -> Option<JsonV> {
    match o {
        Some(j) => Some(jv(j)),
        None => None,
    }
}

/// serde_json's document converted one for one into the library's: integers that fit an
/// `i64` as `Int`, larger ones as `UInt`, other numbers by their text, members in
/// serde_json's order. It claims nothing on its own: `parse_json_text` names the whole
/// reading.
#[verifier::external_body]
fn json_of_value(v: &serde_json::Value) -> Json {
    match v {
        serde_json::Value::Null => Json::Null,
        serde_json::Value::Bool(b) => Json::Bool(*b),
        serde_json::Value::Number(n) => match (n.as_i64(), n.as_u64()) {
            (Some(i), _) => Json::Int(i),
            (None, Some(u)) => Json::UInt(u),
            _ => Json::Float(n.to_string()),
        },
        serde_json::Value::String(s) => Json::Str(s.clone()),
        serde_json::Value::Array(a) => Json::Array(a.iter().map(json_of_value).collect()),
        serde_json::Value::Object(m) => Json::Object(m.iter().map(|(k, x)| (k.clone(), json_of_value(x))).collect()),
    }
}

/// `serde_json::from_str` into a `serde_json::Value`, converted by `json_of_value`: the
/// contract claims that the result is the same for the same text (`json_text_value`),
/// `None` exactly when serde_json refuses the text. What serde_json reads from a given
/// text is left unsaid.
#[verifier::external_body]
pub(crate) fn parse_json_text(text: &str) -> (r: Option<Json>)
    ensures
        opt_jv(r) == json_text_value(text@),
{
    match serde_json::from_str::<serde_json::Value>(text) {
        Ok(v) => Some(json_of_value(&v)),
        Err(_) => None,
    }
}

/// The place of the last `}` among the first `n` characters.
pub open spec fn last_close(c: Seq<char>, n: nat) -> Option<nat>
    decreases n,
{
    if n == 0 || n > c.len() {
        None
    } else if c[n - 1] == '}' {
        Some((n - 1) as nat)
    } else {
        last_close(c, (n - 1) as nat)
    }
}

/// A log of JSON documents written one after another, as the text of one array: the log
/// up to its last `}` (all of it when it has none), in square brackets.
pub open spec fn log_array_text(c: Seq<char>) -> Seq<char> {
    let body = match last_close(c, c.len()) {
        Some(p) => c.take(p + 1 as int),
        None => c,
    };
    seq!['['] + body + seq![']']
}

pub fn log_array_text_exec(c: &str) -> (r: String)
    ensures
        r@ == log_array_text(c@),
{
    let cs = text_chars(c);
    let n = cs.len();
    let mut k: usize = n;
    while k > 0
        invariant
            cs@ == c@,
            n == c@.len(),
            k <= n,
            last_close(c@, n as nat) == last_close(c@, k as nat),
        ensures
            last_close(c@, n as nat) == last_close(c@, k as nat),
            k > 0 ==> c@[k - 1] == '}',
        decreases k,
    {
        if cs[k - 1] == '}' {
            break;
        }
        k = k - 1;
    }
    let body_len = if k > 0 {
        k
    } else {
        n
    };
    let mut r = String::new();
    r.append("[");
    r.append(c.substring_char(0, body_len));
    r.append("]");
    proof {
        reveal_strlit("[");
        reveal_strlit("]");
        if k == 0 {
            assert(c@.subrange(0, n as int) =~= c@);
        }
    }
    assert(r@ =~= log_array_text(c@));
    r
}

/// The document a JSON text holds (`json_text_value`), `None` when it is not JSON.
pub fn parse_document(text: &str) -> (r: Option<Json>)
    ensures
        opt_jv(r) == json_text_value(text@),
{
    parse_json_text(text)
}

/// The entries of a document that is an array.
pub open spec fn array_entries(d: Option<JsonV>) -> Option<Seq<JsonV>> {
    match d {
        Some(JsonV::Array(xs)) => Some(xs),
        _ => None,
    }
}

/// The entries of a document, when it is an array; `None` for any other document or
/// for none.
pub fn log_entries(doc: Option<Json>) -> (r: Option<Vec<Json>>)
    ensures
        match r {
            Some(v) => array_entries(opt_jv(doc)) == Some(jv_list(v@)),
            None => array_entries(opt_jv(doc)) is None,
        },
{
    match doc {
        Some(Json::Array(v)) => Some(v),
        _ => None,
    }
}

/// The documents of a log written one after another: the log read as one array
/// (`log_array_text`), or `None` when that text is not a JSON array.
pub fn parse_log(c: &str) -> (r: Option<Vec<Json>>)
    ensures
        match r {
            Some(v) => array_entries(json_text_value(log_array_text(c@))) == Some(jv_list(v@)),
            None => array_entries(json_text_value(log_array_text(c@))) is None,
        },
{
    let t = log_array_text_exec(c);
    log_entries(parse_json_text(t.as_str()))
}

/// The documents of a text that is one JSON array, or `None` when it is not.
pub fn parse_array(c: &str) -> (r: Option<Vec<Json>>)
    ensures
        match r {
            Some(v) => array_entries(json_text_value(c@)) == Some(jv_list(v@)),
            None => array_entries(json_text_value(c@)) is None,
        },
{
    log_entries(parse_json_text(c))
}

/// The screen of a game start response: `{"initialMatrix": m}` for a response whose
/// `action` is `GameStartBasicResponse` and whose `data` has an `initialMatrix` `m`.
pub open spec fn start_screen(resp: JsonV) -> Option<JsonV> {
    if as_text(get(Some(resp), "action"@)) == Some("GameStartBasicResponse"@) {
        match get(get(Some(resp), "data"@), "initialMatrix"@) {
            Some(m) => Some(JsonV::Object(seq![("initialMatrix"@, m)])),
            None => None,
        }
    } else {
        None
    }
}

/// The screens of the first `n` responses, in order.
pub open spec fn response_screens(rs: Seq<JsonV>, n: nat) -> Seq<JsonV>
    decreases n,
{
    if n == 0 || n > rs.len() {
        Seq::empty()
    } else {
        response_screens(rs, (n - 1) as nat) + match start_screen(rs[n - 1]) {
            Some(s) => seq![s],
            None => Seq::empty(),
        }
    }
}

/// The screens of the game starts among the responses (`out`, an array) of the first
/// `n` transactions, in order.
pub open spec fn screens_upto(txs: Seq<JsonV>, n: nat) -> Seq<JsonV>
    decreases n,
{
    if n == 0 || n > txs.len() {
        Seq::empty()
    } else {
        screens_upto(txs, (n - 1) as nat) + match as_list(get(Some(txs[n - 1]), "out"@)) {
            Some(rs) => response_screens(rs, rs.len()),
            None => Seq::empty(),
        }
    }
}

pub open spec fn start_screens(txs: Seq<JsonV>) -> Seq<JsonV> {
    screens_upto(txs, txs.len())
}

fn screen_of(resp: &Json) -> (r: Option<Json>)
    ensures
        opt_jv(r) == start_screen(jv(*resp)),
{
    if is_text(get_key(Some(resp), "action"), "GameStartBasicResponse") {
        match get_key(get_key(Some(resp), "data"), "initialMatrix") {
            Some(m) => {
                let e: Vec<(String, Json)> = vec![("initialMatrix".to_owned(), copy_json(m))];
                proof {
                    reveal_strlit("initialMatrix");
                    lemma_jv_entries(e@);
                    assert(jv_entries(e@) =~= seq![("initialMatrix"@, jv(*m))]);
                }
                Some(Json::Object(e))
            },
            None => None,
        }
    } else {
        None
    }
}

/// The screens of the game starts in a list of transactions: for each transaction, in
/// order, and each of its responses (`out`), in order, `{"initialMatrix": m}` for a
/// `GameStartBasicResponse` whose `data` holds `initialMatrix` `m`.
pub fn game_start_screens(data: &Vec<Json>) -> (r: Vec<Json>)
    ensures
        jv_list(r@) == start_screens(jv_list(data@)),
{
    proof {
        lemma_jv_list(data@);
    }
    let ghost txs = jv_list(data@);
    let mut out: Vec<Json> = Vec::new();
    let mut i: usize = 0;
    while i < data.len()
        invariant
            txs == jv_list(data@),
            txs.len() == data@.len(),
            forall|j: int| 0 <= j < data@.len() ==> #[trigger] txs[j] == jv(data@[j]),
            i <= data@.len(),
            jv_list(out@) == screens_upto(txs, i as nat),
        decreases data.len() - i,
    {
        assert(txs[i as int] == jv(data@[i as int]));
        let ghost before = jv_list(out@);
        match get_array(get_key(Some(&data[i]), "out")) {
            Some(rs) => {
                proof {
                    lemma_jv_list(rs@);
                }
                let ghost rv = jv_list(rs@);
                let mut k: usize = 0;
                while k < rs.len()
                    invariant
                        rv == jv_list(rs@),
                        rv.len() == rs@.len(),
                        forall|j: int| 0 <= j < rs@.len() ==> #[trigger] rv[j] == jv(rs@[j]),
                        k <= rs@.len(),
                        jv_list(out@) == before + response_screens(rv, k as nat),
                    decreases rs.len() - k,
                {
                    assert(rv[k as int] == jv(rs@[k as int]));
                    match screen_of(&rs[k]) {
                        Some(s) => {
                            let ghost prev = out@;
                            out.push(s);
                            assert(out@.drop_last() =~= prev);
                        },
                        None => {},
                    }
                    k = k + 1;
                }
            },
            None => {},
        }
        i = i + 1;
    }
    out
}

/// The characters of a text, in order.
pub fn text_chars(s: &str) -> (r: Vec<char>)
    ensures
        r@ == s@,
{
    broadcast use vstd::string::axiom_spec_iter;
    let mut v: Vec<char> = Vec::new();
    for c in it: s.chars()
        invariant
            it.seq() == s@,
            v@ == it.seq().take(it.index() as int),
    {
        v.push(c);
    }
    assert(v@ =~= s@);
    v
}

/// Whether a character is white space (`char::is_whitespace`, the Unicode property
/// White_Space).
pub open spec fn is_space(c: char) -> bool {
    ||| '\t' <= c <= '\r'
    ||| c == ' '
    ||| c == '\u{85}'
    ||| c == '\u{a0}'
    ||| c == '\u{1680}'
    ||| '\u{2000}' <= c <= '\u{200a}'
    ||| c == '\u{2028}'
    ||| c == '\u{2029}'
    ||| c == '\u{202f}'
    ||| c == '\u{205f}'
    ||| c == '\u{3000}'
}

fn is_space_exec(c: char) -> (r: bool)
    ensures
        r == is_space(c),
{
    ('\t' <= c && c <= '\r') || c == ' ' || c == '\u{85}' || c == '\u{a0}' || c == '\u{1680}' || ('\u{2000}' <= c
        && c <= '\u{200a}') || c == '\u{2028}' || c == '\u{2029}' || c == '\u{202f}' || c == '\u{205f}' || c
        == '\u{3000}'
}

/// A text without its leading white space.
pub open spec fn trim_start(s: Seq<char>) -> Seq<char>
    decreases s.len(),
{
    if s.len() > 0 && is_space(s[0]) {
        trim_start(s.drop_first())
    } else {
        s
    }
}

/// A text without its trailing white space.
pub open spec fn trim_end(s: Seq<char>) -> Seq<char>
    decreases s.len(),
{
    if s.len() > 0 && is_space(s.last()) {
        trim_end(s.drop_last())
    } else {
        s
    }
}

/// A text without its leading and trailing white space (`str::trim`).
pub open spec fn trimmed(s: Seq<char>) -> Seq<char> {
    trim_end(trim_start(s))
}

/// The pieces of a text between its line feeds, in order (one more than it has line
/// feeds).
pub open spec fn line_pieces(c: Seq<char>) -> Seq<Seq<char>>
    decreases c.len(),
{
    if c.len() == 0 {
        seq![Seq::empty()]
    } else if c.last() == '\n' {
        line_pieces(c.drop_last()).push(Seq::empty())
    } else {
        let p = line_pieces(c.drop_last());
        p.update(p.len() - 1, p.last().push(c.last()))
    }
}

/// The trimmed pieces that are not empty, in order.
pub open spec fn kept_lines(ps: Seq<Seq<char>>) -> Seq<Seq<char>>
    decreases ps.len(),
{
    if ps.len() == 0 {
        Seq::empty()
    } else {
        kept_lines(ps.drop_last()) + if trimmed(ps.last()).len() > 0 {
            seq![trimmed(ps.last())]
        } else {
            Seq::empty()
        }
    }
}

/// Texts joined with commas.
pub open spec fn joined(ls: Seq<Seq<char>>) -> Seq<char>
    decreases ls.len(),
{
    if ls.len() == 0 {
        Seq::empty()
    } else if ls.len() == 1 {
        ls[0]
    } else {
        joined(ls.drop_last()) + seq![','] + ls.last()
    }
}

/// A log of one JSON document per line, as the text of one array: its lines trimmed,
/// the empty ones left out, joined with commas, in square brackets.
pub open spec fn lines_array_text(c: Seq<char>) -> Seq<char> {
    seq!['['] + joined(kept_lines(line_pieces(c))) + seq![']']
}

proof fn lemma_trim_start(s: Seq<char>, a: int)
    requires
        0 <= a <= s.len(),
        forall|i: int| 0 <= i < a ==> is_space(#[trigger] s[i]),
        a == s.len() || !is_space(s[a]),
    ensures
        trim_start(s) == s.subrange(a, s.len() as int),
    decreases a,
{
    if a == 0 {
        assert(s.subrange(0, s.len() as int) =~= s);
    } else {
        assert(is_space(s[0]));
        let t = s.drop_first();
        assert forall|i: int| 0 <= i < a - 1 implies is_space(#[trigger] t[i]) by {
            assert(t[i] == s[i + 1]);
        }
        lemma_trim_start(t, a - 1);
        assert(t.subrange(a - 1, t.len() as int) =~= s.subrange(a, s.len() as int));
    }
}

proof fn lemma_trim_end(s: Seq<char>, b: int)
    requires
        0 <= b <= s.len(),
        forall|i: int| b <= i < s.len() ==> is_space(#[trigger] s[i]),
        b == 0 || !is_space(s[b - 1]),
    ensures
        trim_end(s) == s.subrange(0, b),
    decreases s.len() - b,
{
    if b == s.len() {
        assert(s.subrange(0, b) =~= s);
    } else {
        let t = s.drop_last();
        assert forall|i: int| b <= i < t.len() implies is_space(#[trigger] t[i]) by {
            assert(t[i] == s[i]);
        }
        lemma_trim_end(t, b);
        assert(t.subrange(0, b) =~= s.subrange(0, b));
    }
}

proof fn lemma_pieces_nonempty(c: Seq<char>)
    ensures
        line_pieces(c).len() >= 1,
    decreases c.len(),
{
    if c.len() > 0 {
        lemma_pieces_nonempty(c.drop_last());
    }
}

/// The trimmed text of a line.
fn trim_exec(line: &Vec<char>) -> (r: Vec<char>)
    ensures
        r@ == trimmed(line@),
{
    let n = line.len();
    let mut a: usize = 0;
    while a < n && is_space_exec(line[a])
        invariant
            n == line@.len(),
            a <= n,
            forall|i: int| 0 <= i < a ==> is_space(#[trigger] line@[i]),
        decreases n - a,
    {
        a = a + 1;
    }
    proof {
        lemma_trim_start(line@, a as int);
    }
    let ghost st = line@.subrange(a as int, n as int);
    let mut b: usize = n;
    while b > a && is_space_exec(line[b - 1])
        invariant
            n == line@.len(),
            a <= b <= n,
            forall|i: int| b <= i < n ==> is_space(#[trigger] line@[i]),
        decreases b,
    {
        b = b - 1;
    }
    proof {
        assert forall|i: int| b - a <= i < st.len() implies is_space(#[trigger] st[i]) by {
            assert(st[i] == line@[i + a]);
        }
        if b > a {
            assert(st[b - a - 1] == line@[b - 1]);
        }
        lemma_trim_end(st, (b - a) as int);
        assert(st.subrange(0, (b - a) as int) =~= line@.subrange(a as int, b as int));
    }
    let mut r: Vec<char> = Vec::new();
    let mut i: usize = a;
    while i < b
        invariant
            n == line@.len(),
            a <= i <= b <= n,
            r@ == line@.subrange(a as int, i as int),
        decreases b - i,
    {
        r.push(line[i]);
        assert(r@ =~= line@.subrange(a as int, i + 1));
        i = i + 1;
    }
    r
}

fn append_chars(out: &mut String, cs: &Vec<char>)
    ensures
        final(out)@ == old(out)@ + cs@,
{
    let mut i: usize = 0;
    while i < cs.len()
        invariant
            i <= cs@.len(),
            out@ == old(out)@ + cs@.take(i as int),
        decreases cs.len() - i,
    {
        let t = crate::bng::china_festival::convert::char_text(cs[i]);
        out.append(t.as_str());
        assert(old(out)@ + cs@.take(i + 1) =~= old(out)@ + cs@.take(i as int) + seq![cs@[i as int]]);
        i = i + 1;
    }
    assert(cs@.take(cs@.len() as int) =~= cs@);
}

/// Adds a finished line to the joined text.
fn keep_line(out: &mut String, count: &mut u128, line: &Vec<char>, Ghost(kept): Ghost<Seq<Seq<char>>>)
    requires
        old(out)@ == seq!['['] + joined(kept),
        *old(count) == kept.len(),
        *old(count) < u128::MAX,
    ensures
        final(out)@ == seq!['['] + joined(
            kept + if trimmed(line@).len() > 0 {
                seq![trimmed(line@)]
            } else {
                Seq::empty()
            },
        ),
        *final(count) == (kept + if trimmed(line@).len() > 0 {
            seq![trimmed(line@)]
        } else {
            Seq::empty()
        }).len(),
{
    let t = trim_exec(line);
    if t.len() > 0 {
        let ghost nk = kept + seq![trimmed(line@)];
        assert(nk.drop_last() =~= kept);
        if *count > 0 {
            out.append(",");
            proof {
                reveal_strlit(",");
            }
        }
        append_chars(out, &t);
        *count = *count + 1;
        assert(out@ =~= seq!['['] + joined(nk));
    } else {
        assert(kept + Seq::<Seq<char>>::empty() =~= kept);
    }
}

pub fn lines_array_text_exec(c: &str) -> (r: String)
    ensures
        r@ == lines_array_text(c@),
{
    let cs = text_chars(c);
    let mut out = String::new();
    out.append("[");
    proof {
        reveal_strlit("[");
        reveal_strlit("]");
        assert(out@ =~= seq!['['] + joined(Seq::<Seq<char>>::empty()));
    }
    let mut count: u128 = 0;
    let mut cur: Vec<char> = Vec::new();
    let ghost mut kept: Seq<Seq<char>> = Seq::empty();
    let mut i: usize = 0;
    while i < cs.len()
        invariant
            cs@ == c@,
            i <= cs@.len(),
            line_pieces(cs@.take(i as int)).last() == cur@,
            kept == kept_lines(line_pieces(cs@.take(i as int)).drop_last()),
            out@ == seq!['['] + joined(kept),
            count == kept.len(),
            count <= i,
        decreases cs.len() - i,
    {
        let ch = cs[i];
        let ghost p = cs@.take(i as int);
        proof {
            lemma_pieces_nonempty(p);
        }
        assert(cs@.take(i + 1).drop_last() =~= p);
        if ch == '\n' {
            keep_line(&mut out, &mut count, &cur, Ghost(kept));
            proof {
                let ps = line_pieces(p);
                assert(line_pieces(cs@.take(i + 1)) == ps.push(Seq::empty()));
                assert(ps.push(Seq::<char>::empty()).drop_last() =~= ps);
                assert(ps.drop_last().push(ps.last()) =~= ps);
                kept = kept + if trimmed(cur@).len() > 0 {
                    seq![trimmed(cur@)]
                } else {
                    Seq::empty()
                };
            }
            cur = Vec::new();
        } else {
            cur.push(ch);
            proof {
                let ps = line_pieces(p);
                let np = ps.update(ps.len() - 1, ps.last().push(ch));
                assert(line_pieces(cs@.take(i + 1)) == np);
                assert(np.drop_last() =~= ps.drop_last());
            }
        }
        i = i + 1;
    }
    proof {
        assert(cs@.take(cs@.len() as int) =~= c@);
        lemma_pieces_nonempty(c@);
        let ps = line_pieces(c@);
        assert(ps.drop_last().push(ps.last()) =~= ps);
    }
    keep_line(&mut out, &mut count, &cur, Ghost(kept));
    out.append("]");
    out
}

/// The documents of a log written one per line: its lines read as one array
/// (`lines_array_text`), or `None` when that text is not a JSON array.
pub fn parse_lines(c: &str) -> (r: Option<Vec<Json>>)
    ensures
        match r {
            Some(v) => array_entries(json_text_value(lines_array_text(c@))) == Some(jv_list(v@)),
            None => array_entries(json_text_value(lines_array_text(c@))) is None,
        },
{
    let t = lines_array_text_exec(c);
    log_entries(parse_json_text(t.as_str()))
}


proof fn lemma_last_close(c: Seq<char>, n: nat)
    requires
        n <= c.len(),
    ensures
        last_close(c, n) matches Some(p) ==> p < n && c[p as int] == '}' && forall|q: int| p < q < n ==> #[trigger] c[q] != '}',
        last_close(c, n) is None ==> forall|q: int| 0 <= q < n ==> #[trigger] c[q] != '}',
    decreases n,
{
    if n > 0 {
        lemma_last_close(c, (n - 1) as nat);
    }
}

/// A log is read as one array by cutting it after its last `}` and putting it in square
/// brackets: the text between the brackets is the log up to and including that `}`, with
/// no `}` after it in the log; a log without `}` is taken whole.
pub proof fn law_log_cut_after_last_brace(c: Seq<char>)
    ensures
        ({
            let r = log_array_text(c);
            let body = r.subrange(1, r.len() - 1);
            &&& r.len() >= 2
            &&& r[0] == '['
            &&& r[r.len() - 1] == ']'
            &&& body.len() <= c.len()
            &&& body == c.take(body.len() as int)
            &&& (exists|q: int| 0 <= q < c.len() && #[trigger] c[q] == '}') ==> (body.len() >= 1 && body[body.len()
                - 1] == '}' && forall|q: int| body.len() <= q < c.len() ==> #[trigger] c[q] != '}')
            &&& (forall|q: int| 0 <= q < c.len() ==> #[trigger] c[q] != '}') ==> body == c
        }),
{
    lemma_last_close(c, c.len());
    let r = log_array_text(c);
    let b = match last_close(c, c.len()) {
        Some(p) => c.take(p + 1 as int),
        None => c,
    };
    assert(r =~= seq!['['] + b + seq![']']);
    assert(r.subrange(1, r.len() - 1) =~= b);
    match last_close(c, c.len()) {
        Some(p) => {
            assert(b =~= c.take(b.len() as int));
        },
        None => {
            assert(c.take(c.len() as int) =~= c);
        },
    }
}

} // verus!
