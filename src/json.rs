//! A relaxed JSON reader: `null`, booleans, unsigned `i32` numbers, strings
//! without escapes, arrays, and objects whose keys are bare ASCII words.
//! White space (space, tab, carriage return, newline) may surround values.
//! An object keeps one entry per key, the last one given, in key order.
use vstd::prelude::*;
use crate::text::{chars_of, decimal_i32, is_ascii_digit, parse_i32, text_between};

verus! {

#[derive(Debug, PartialEq)]
pub enum Json {
    Null,
    Str(String),
    Num(i32),
    Bool(bool),
    Arr(Vec<Json>),
    Obj(Vec<(String, Json)>),
}

#[derive(Debug, PartialEq)]
pub struct ErrorMsg(pub String);

/// The model of a JSON value.
pub enum JsonV {
    Null,
    Str(Seq<char>),
    Num(i32),
    Bool(bool),
    Arr(Seq<JsonV>),
    Obj(Seq<(Seq<char>, JsonV)>),
}

pub open spec fn json_of(j: Json) -> JsonV
    decreases j,
{
    match j {
        Json::Null => JsonV::Null,
        Json::Str(s) => JsonV::Str(s@),
        Json::Num(n) => JsonV::Num(n),
        Json::Bool(b) => JsonV::Bool(b),
        Json::Arr(v) => JsonV::Arr(
            Seq::new(v.len() as nat, |i: int| if 0 <= i < v.len() { json_of(v[i]) } else { JsonV::Null }),
        ),
        Json::Obj(v) => JsonV::Obj(
            Seq::new(
                v.len() as nat,
                |i: int| if 0 <= i < v.len() { (v[i].0@, json_of(v[i].1)) } else { (seq![], JsonV::Null) },
            ),
        ),
    }
}

impl View for Json {
    type V = JsonV;

    open spec fn view(&self) -> JsonV {
        json_of(*self)
    }
}

pub open spec fn values_view(v: Seq<Json>) -> Seq<JsonV> {
    v.map_values(|j: Json| j@)
}

pub open spec fn entries_view(v: Seq<(String, Json)>) -> Seq<(Seq<char>, JsonV)> {
    v.map_values(|e: (String, Json)| (e.0@, e.1@))
}

pub proof fn lemma_arr_view(v: Vec<Json>)
    ensures
        Json::Arr(v)@ == JsonV::Arr(values_view(v@)),
{
    assert(Json::Arr(v)@->Arr_0 =~= values_view(v@));
}

pub proof fn lemma_obj_view(v: Vec<(String, Json)>)
    ensures
        Json::Obj(v)@ == JsonV::Obj(entries_view(v@)),
{
    assert(Json::Obj(v)@->Obj_0 =~= entries_view(v@));
}

/// Lexicographic order on keys, by character.
pub open spec fn key_lt(a: Seq<char>, b: Seq<char>) -> bool
    decreases a.len(),
{
    if a.len() == 0 {
        b.len() > 0
    } else if b.len() == 0 {
        false
    } else if a[0] != b[0] {
        a[0] < b[0]
    } else {
        key_lt(a.drop_first(), b.drop_first())
    }
}

/// Entries in key order with `(k, v)` put in: it replaces an entry with the
/// same key, or goes before the first entry with a greater key.
pub open spec fn entries_insert(es: Seq<(Seq<char>, JsonV)>, k: Seq<char>, v: JsonV) -> Seq<
    (Seq<char>, JsonV),
>
    decreases es.len(),
{
    if es.len() == 0 {
        seq![(k, v)]
    } else if es[0].0 == k {
        seq![(k, v)] + es.drop_first()
    } else if key_lt(k, es[0].0) {
        seq![(k, v)] + es
    } else {
        seq![es[0]] + entries_insert(es.drop_first(), k, v)
    }
}

/// The entries of an object given by these pairs, in order: a later pair
/// replaces an earlier one with the same key.
pub open spec fn entries_of(ps: Seq<(Seq<char>, JsonV)>) -> Seq<(Seq<char>, JsonV)>
    decreases ps.len(),
{
    if ps.len() == 0 {
        seq![]
    } else {
        entries_insert(entries_of(ps.drop_last()), ps.last().0, ps.last().1)
    }
}

/// Whether `a` comes before `b` in key order.
fn key_less(a: &String, b: &String) -> (r: bool)
    ensures
        r == key_lt(a@, b@),
{
    let x = chars_of(a.as_str());
    let y = chars_of(b.as_str());
    let mut i: usize = 0;
    assert(x@.subrange(0, x@.len() as int) =~= x@);
    assert(y@.subrange(0, y@.len() as int) =~= y@);
    while i < x.len() && i < y.len() && x[i] == y[i]
        invariant
            i <= x.len(),
            i <= y.len(),
            key_lt(a@, b@) == key_lt(x@.subrange(i as int, x@.len() as int), y@.subrange(i as int, y@.len() as int)),
            x@ == a@,
            y@ == b@,
        decreases x.len() - i,
    {
        assert(x@.subrange(i as int, x@.len() as int).drop_first() =~= x@.subrange(i + 1, x@.len() as int));
        assert(y@.subrange(i as int, y@.len() as int).drop_first() =~= y@.subrange(i + 1, y@.len() as int));
        i += 1;
    }
    if i == x.len() {
        i < y.len()
    } else if i == y.len() {
        false
    } else {
        x[i] < y[i]
    }
}

/// Puts `(k, v)` into entries kept in key order, as `entries_insert` says.
fn insert_entry(es: &mut Vec<(String, Json)>, k: String, v: Json)
    ensures
        entries_view(final(es)@) == entries_insert(entries_view(old(es)@), k@, v@),
{
    let ghost whole = entries_view(es@);
    let ghost key = k@;
    let ghost val = v@;
    let mut i: usize = 0;
    assert(whole.subrange(0, 0) =~= seq![]);
    assert(whole.subrange(0, whole.len() as int) =~= whole);
    while i < es.len()
        invariant
            i <= es.len(),
            es@ == old(es)@,
            whole == entries_view(es@),
            key == k@,
            val == v@,
            entries_insert(whole, key, val) == whole.subrange(0, i as int) + entries_insert(
                whole.subrange(i as int, whole.len() as int),
                key,
                val,
            ),
        decreases es.len() - i,
    {
        let ghost rest = whole.subrange(i as int, whole.len() as int);
        assert(rest[0] == whole[i as int]);
        assert(rest.drop_first() =~= whole.subrange(i + 1, whole.len() as int));
        if es[i].0.eq(&k) {
            es.set(i, (k, v));
            assert(entries_view(es@) =~= whole.subrange(0, i as int) + (seq![(key, val)] + rest.drop_first()));
            return;
        }
        if key_less(&k, &es[i].0) {
            es.insert(i, (k, v));
            assert(entries_view(es@) =~= whole.subrange(0, i as int) + (seq![(key, val)] + rest));
            return;
        }
        assert(whole.subrange(0, i + 1) =~= whole.subrange(0, i as int) + seq![whole[i as int]]);
        i += 1;
    }
    es.push((k, v));
    assert(whole.subrange(i as int, whole.len() as int) =~= seq![]);
    assert(entries_view(es@) =~= whole.subrange(0, i as int) + seq![(key, val)]);
}

impl Json {
    /// An object with the given entries; a later entry replaces an earlier
    /// one with the same key.
    pub fn obj(pairs: Vec<(String, Json)>) -> (r: Json)
        ensures
            r@ == JsonV::Obj(entries_of(entries_view(pairs@))),
    {
        let ghost all = entries_view(pairs@);
        let mut pairs = pairs;
        let mut es: Vec<(String, Json)> = Vec::new();
        let mut taken: usize = 0;
        assert(all.subrange(0, 0) =~= seq![]);
        assert(all.subrange(0, all.len() as int) =~= all);
        assert(all.len() == pairs.len());
        while pairs.len() > 0
            invariant
                taken + pairs.len() == all.len(),
                all.len() <= usize::MAX,
                entries_view(pairs@) == all.subrange(taken as int, all.len() as int),
                entries_view(es@) == entries_of(all.subrange(0, taken as int)),
            decreases pairs.len(),
        {
            let ghost before = entries_view(pairs@);
            let (k, v) = pairs.remove(0);
            assert(before[0] == (k@, v@));
            assert(entries_view(pairs@) =~= before.drop_first());
            insert_entry(&mut es, k, v);
            taken += 1;
            assert(all.subrange(0, taken as int).drop_last() =~= all.subrange(0, taken - 1));
        }
        assert(all.subrange(0, taken as int) =~= all);
        proof {
            lemma_obj_view(es);
        }
        Json::Obj(es)
    }
}

/// The kinds of character runs the reader skips over.
#[derive(Clone, Copy)]
pub enum Run {
    Space,
    Alpha,
    Digit,
    NotQuote,
}

pub open spec fn in_run(c: char, k: Run) -> bool {
    match k {
        Run::Space => c == ' ' || c == '\t' || c == '\r' || c == '\n',
        Run::Alpha => ('a' <= c <= 'z') || ('A' <= c <= 'Z'),
        Run::Digit => is_ascii_digit(c),
        Run::NotQuote => c != '"',
    }
}

/// The end of the run of kind `k` that starts at `i`.
pub open spec fn run_end(s: Seq<char>, i: int, k: Run) -> int
    decreases s.len() - i,
{
    if 0 <= i < s.len() && in_run(s[i], k) {
        run_end(s, i + 1, k)
    } else {
        i
    }
}

pub proof fn lemma_run_end(s: Seq<char>, i: int, k: Run)
    ensures
        run_end(s, i, k) >= i,
        0 <= i <= s.len() ==> run_end(s, i, k) <= s.len(),
    decreases s.len() - i,
{
    if 0 <= i < s.len() && in_run(s[i], k) {
        lemma_run_end(s, i + 1, k);
    }
}

pub open spec fn skip_ws(s: Seq<char>, i: int) -> int {
    run_end(s, i, Run::Space)
}

/// Whether `w` occurs in `s` at position `i`.
pub open spec fn has_word(s: Seq<char>, i: int, w: Seq<char>) -> bool {
    0 <= i && i + w.len() <= s.len() && s.subrange(i, i + w.len() as int) == w
}

/// The value that starts at `i`, after any white space, and the position
/// after it and the white space that follows; `None` when there is none.
pub open spec fn value_at(s: Seq<char>, i: int) -> Option<(JsonV, int)>
    decreases s.len() - i, 0nat,
{
    let j = skip_ws(s, i);
    proof {
        lemma_run_end(s, i, Run::Space);
    }
    if i < 0 || i > s.len() {
        None
    } else if has_word(s, j, seq!['n', 'u', 'l', 'l']) {
        Some((JsonV::Null, skip_ws(s, j + 4)))
    } else if has_word(s, j, seq!['t', 'r', 'u', 'e']) {
        Some((JsonV::Bool(true), skip_ws(s, j + 4)))
    } else if has_word(s, j, seq!['f', 'a', 'l', 's', 'e']) {
        Some((JsonV::Bool(false), skip_ws(s, j + 5)))
    } else if j < s.len() && is_ascii_digit(s[j]) {
        let e = run_end(s, j, Run::Digit);
        match decimal_i32(s.subrange(j, e)) {
            Some(n) => Some((JsonV::Num(n), skip_ws(s, e))),
            None => None,
        }
    } else if j < s.len() && s[j] == '"' {
        let q = run_end(s, j + 1, Run::NotQuote);
        if q < s.len() {
            Some((JsonV::Str(s.subrange(j + 1, q)), skip_ws(s, q + 1)))
        } else {
            None
        }
    } else if j < s.len() && s[j] == '[' {
        let (items, e) = list_at(s, j + 1);
        if 0 <= e < s.len() && s[e] == ']' {
            Some((JsonV::Arr(items), skip_ws(s, e + 1)))
        } else {
            None
        }
    } else if j < s.len() && s[j] == '{' {
        let (entries, e) = entries_at(s, j + 1, seq![]);
        let f = skip_ws(s, e);
        if 0 <= f < s.len() && s[f] == '}' {
            Some((JsonV::Obj(entries), skip_ws(s, f + 1)))
        } else {
            None
        }
    } else {
        None
    }
}

/// The comma-separated values from `p` on, and where they stop: before a
/// comma that no value follows, or at the first other character.
pub open spec fn list_at(s: Seq<char>, p: int) -> (Seq<JsonV>, int)
    decreases s.len() - p, 1nat,
{
    if p < 0 || p > s.len() {
        (seq![], p)
    } else {
        match value_at(s, p) {
            Some((v, k)) => if p < k <= s.len() {
                list_rest(s, k, seq![v])
            } else {
                (seq![v], k)
            },
            None => (seq![], p),
        }
    }
}

pub open spec fn list_rest(s: Seq<char>, p: int, acc: Seq<JsonV>) -> (Seq<JsonV>, int)
    decreases s.len() - p, 1nat,
{
    if 0 <= p < s.len() && s[p] == ',' {
        match value_at(s, p + 1) {
            Some((v, k)) => if p < k <= s.len() {
                list_rest(s, k, acc.push(v))
            } else {
                (acc, p)
            },
            None => (acc, p),
        }
    } else {
        (acc, p)
    }
}

/// One object entry at `p`: a word key, a colon, a value, and an optional
/// comma, each with white space around; the key, the value and the end.
pub open spec fn entry_at(s: Seq<char>, p: int) -> Option<(Seq<char>, JsonV, int)>
    decreases s.len() - p, 0nat,
{
    let a = skip_ws(s, p);
    let e = run_end(s, a, Run::Alpha);
    let b = skip_ws(s, e);
    proof {
        lemma_run_end(s, p, Run::Space);
        lemma_run_end(s, a, Run::Alpha);
        lemma_run_end(s, e, Run::Space);
        lemma_run_end(s, b + 1, Run::Space);
    }
    if p < 0 || p > s.len() || e == a || !(b < s.len() && s[b] == ':') {
        None
    } else {
        match value_at(s, skip_ws(s, b + 1)) {
            Some((v, k)) => {
                let d = skip_ws(s, k);
                let end = if 0 <= d < s.len() && s[d] == ',' {
                    skip_ws(s, d + 1)
                } else {
                    d
                };
                Some((s.subrange(a, e), v, end))
            },
            None => None,
        }
    }
}

/// The entries from `p` on, put into `acc` one by one, and where they stop.
pub open spec fn entries_at(s: Seq<char>, p: int, acc: Seq<(Seq<char>, JsonV)>) -> (
    Seq<(Seq<char>, JsonV)>,
    int,
)
    decreases s.len() - p, 1nat,
{
    if p < 0 || p > s.len() {
        (acc, p)
    } else {
        match entry_at(s, p) {
            Some((k, v, e)) => if p < e <= s.len() {
                entries_at(s, e, entries_insert(acc, k, v))
            } else {
                (acc, p)
            },
            None => (acc, p),
        }
    }
}

/// What `parse_json` reads from a text: the first value, or `None`.
pub open spec fn json_spec(s: Seq<char>) -> Option<JsonV> {
    match value_at(s, 0) {
        Some((v, _)) => Some(v),
        None => None,
    }
}

fn in_run_exec(c: char, k: Run) -> (r: bool)
    ensures
        r == in_run(c, k),
{
    match k {
        Run::Space => c == ' ' || c == '\t' || c == '\r' || c == '\n',
        Run::Alpha => ('a' <= c && c <= 'z') || ('A' <= c && c <= 'Z'),
        Run::Digit => '0' <= c && c <= '9',
        Run::NotQuote => c != '"',
    }
}

fn run_end_exec(s: &Vec<char>, i: usize, k: Run) -> (r: usize)
    requires
        i <= s.len(),
    ensures
        r == run_end(s@, i as int, k),
        i <= r <= s.len(),
{
    proof {
        lemma_run_end(s@, i as int, k);
    }
    let mut j = i;
    while j < s.len() && in_run_exec(s[j], k)
        invariant
            i <= j <= s.len(),
            run_end(s@, j as int, k) == run_end(s@, i as int, k),
        decreases s.len() - j,
    {
        j += 1;
    }
    j
}

fn has_word_exec(s: &Vec<char>, i: usize, w: &[char]) -> (r: bool)
    requires
        i <= s.len(),
    ensures
        r == has_word(s@, i as int, w@),
{
    if w.len() > s.len() - i {
        return false;
    }
    let mut k: usize = 0;
    while k < w.len()
        invariant
            k <= w.len(),
            i + w.len() <= s.len(),
            forall|m: int| 0 <= m < k ==> s@[i + m] == w@[m],
        decreases w.len() - k,
    {
        if s[i + k] != w[k] {
            assert(s@.subrange(i as int, i + w@.len())[k as int] != w@[k as int]);
            return false;
        }
        k += 1;
    }
    assert(s@.subrange(i as int, i + w@.len()) =~= w@);
    true
}

fn value_exec(s: &Vec<char>, i: usize) -> (r: Option<(Json, usize)>)
    requires
        i <= s.len(),
    ensures
        match r {
            Some((v, k)) => value_at(s@, i as int) == Some((v@, k as int)) && k <= s.len(),
            None => value_at(s@, i as int) is None,
        },
    decreases s.len() - i, 0nat,
{
    let j = run_end_exec(s, i, Run::Space);
    let null_word = ['n', 'u', 'l', 'l'];
    let true_word = ['t', 'r', 'u', 'e'];
    let false_word = ['f', 'a', 'l', 's', 'e'];
    assert(null_word@ =~= seq!['n', 'u', 'l', 'l']);
    assert(true_word@ =~= seq!['t', 'r', 'u', 'e']);
    assert(false_word@ =~= seq!['f', 'a', 'l', 's', 'e']);
    if has_word_exec(s, j, &null_word) {
        Some((Json::Null, run_end_exec(s, j + 4, Run::Space)))
    } else if has_word_exec(s, j, &true_word) {
        Some((Json::Bool(true), run_end_exec(s, j + 4, Run::Space)))
    } else if has_word_exec(s, j, &false_word) {
        Some((Json::Bool(false), run_end_exec(s, j + 5, Run::Space)))
    } else if j < s.len() && '0' <= s[j] && s[j] <= '9' {
        let e = run_end_exec(s, j, Run::Digit);
        let digits = text_between(s, j, e);
        match parse_i32(digits.as_str()) {
            Some(n) => Some((Json::Num(n), run_end_exec(s, e, Run::Space))),
            None => None,
        }
    } else if j < s.len() && s[j] == '"' {
        let q = run_end_exec(s, j + 1, Run::NotQuote);
        if q < s.len() {
            let text = text_between(s, j + 1, q);
            Some((Json::Str(text), run_end_exec(s, q + 1, Run::Space)))
        } else {
            None
        }
    } else if j < s.len() && s[j] == '[' {
        let (items, e) = list_exec(s, j + 1);
        if e < s.len() && s[e] == ']' {
            proof {
                lemma_arr_view(items);
            }
            Some((Json::Arr(items), run_end_exec(s, e + 1, Run::Space)))
        } else {
            None
        }
    } else if j < s.len() && s[j] == '{' {
        let start: Vec<(String, Json)> = Vec::new();
        assert(entries_view(start@) =~= seq![]);
        let (entries, e) = entries_exec(s, j + 1, start);
        let f = run_end_exec(s, e, Run::Space);
        if f < s.len() && s[f] == '}' {
            proof {
                lemma_obj_view(entries);
            }
            Some((Json::Obj(entries), run_end_exec(s, f + 1, Run::Space)))
        } else {
            None
        }
    } else {
        None
    }
}

fn list_exec(s: &Vec<char>, p: usize) -> (r: (Vec<Json>, usize))
    requires
        p <= s.len(),
    ensures
        list_at(s@, p as int) == (values_view(r.0@), r.1 as int),
        r.1 <= s.len(),
    decreases s.len() - p, 1nat,
{
    match value_exec(s, p) {
        Some((v, k)) => {
            let ghost vv = v@;
            let mut acc: Vec<Json> = Vec::new();
            acc.push(v);
            assert(values_view(acc@) =~= seq![vv]);
            if p < k {
                list_rest_exec(s, k, acc)
            } else {
                (acc, k)
            }
        },
        None => {
            let acc: Vec<Json> = Vec::new();
            assert(values_view(acc@) =~= seq![]);
            (acc, p)
        },
    }
}

fn list_rest_exec(s: &Vec<char>, p: usize, acc: Vec<Json>) -> (r: (Vec<Json>, usize))
    requires
        p <= s.len(),
    ensures
        list_rest(s@, p as int, values_view(acc@)) == (values_view(r.0@), r.1 as int),
        r.1 <= s.len(),
    decreases s.len() - p, 1nat,
{
    if p < s.len() && s[p] == ',' {
        match value_exec(s, p + 1) {
            Some((v, k)) => {
                if k <= p {
                    return (acc, p);
                }
                let ghost before = values_view(acc@);
                let ghost vv = v@;
                let mut acc = acc;
                acc.push(v);
                assert(values_view(acc@) =~= before.push(vv));
                list_rest_exec(s, k, acc)
            },
            None => (acc, p),
        }
    } else {
        (acc, p)
    }
}

fn entry_exec(s: &Vec<char>, p: usize) -> (r: Option<(String, Json, usize)>)
    requires
        p <= s.len(),
    ensures
        match r {
            Some((key, v, e)) => entry_at(s@, p as int) == Some((key@, v@, e as int)) && e <= s.len(),
            None => entry_at(s@, p as int) is None,
        },
    decreases s.len() - p, 0nat,
{
    let a = run_end_exec(s, p, Run::Space);
    let e = run_end_exec(s, a, Run::Alpha);
    let b = run_end_exec(s, e, Run::Space);
    if e == a || !(b < s.len() && s[b] == ':') {
        return None;
    }
    let c = run_end_exec(s, b + 1, Run::Space);
    match value_exec(s, c) {
        Some((v, k)) => {
            let d = run_end_exec(s, k, Run::Space);
            let end = if d < s.len() && s[d] == ',' {
                run_end_exec(s, d + 1, Run::Space)
            } else {
                d
            };
            Some((text_between(s, a, e), v, end))
        },
        None => None,
    }
}

fn entries_exec(s: &Vec<char>, p: usize, acc: Vec<(String, Json)>) -> (r: (Vec<(String, Json)>, usize))
    requires
        p <= s.len(),
    ensures
        entries_at(s@, p as int, entries_view(acc@)) == (entries_view(r.0@), r.1 as int),
        r.1 <= s.len(),
    decreases s.len() - p, 1nat,
{
    match entry_exec(s, p) {
        Some((k, v, e)) => {
            if p < e {
                let mut acc = acc;
                insert_entry(&mut acc, k, v);
                entries_exec(s, e, acc)
            } else {
                (acc, p)
            }
        },
        None => (acc, p),
    }
}

/// Reads the first JSON value of the text; what follows it is ignored. A
/// text that starts with no value is an error.
pub fn parse_json(input: &str) -> (r: Result<Json, ErrorMsg>)
    ensures
        match r {
            Ok(v) => json_spec(input@) == Some(v@),
            Err(_) => json_spec(input@) is None,
        },
{
    let chars = chars_of(input);
    match value_exec(&chars, 0) {
        Some((v, _)) => Ok(v),
        None => Err(ErrorMsg("no JSON value at the start of the text".to_owned())),
    }
}

} // verus!
