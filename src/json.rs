//! Decoding a buffer of concatenated JSON benchmark records, one at a time,
//! stepping past records that are valid JSON of the wrong shape and giving up
//! on a tail that is not JSON at all.
use vstd::prelude::*;

use crate::bench_id::{id_of, BenchId};

verus! {

/// serde_json's untyped value, opaque here; it is only turned into `Json`.
#[verifier::external_type_specification]
#[verifier::external_body]
pub struct ExJsonValue(serde_json::Value);

/// A JSON value as plain data. A number is held as the bit pattern of the
/// IEEE-754 double that it reads as.
pub enum Json {
    Null,
    Bool(bool),
    Number(u64),
    Str(String),
    Array(Vec<Json>),
    Object(Vec<(String, Json)>),
}

/// What the start of a buffer holds: nothing but whitespace, one JSON value
/// followed by the count of bytes up to its end, or bytes that are not JSON.
pub enum Scan {
    End,
    Value(Json, usize),
    Bad,
}

/// What serde_json's stream reader finds at the start of a buffer.
pub uninterp spec fn json_scan(b: Seq<u8>) -> Scan;

/// Relies on serde_json's `StreamDeserializer` over `serde_json::Value`, read
/// from `b[start..]`: `next` yields `None` at the end of input, the first value,
/// or an error; `byte_offset` is where that value ended, past at least one byte.
#[verifier::external_body]
fn scan_json(b: &[u8], start: usize) -> (r: Scan)
    requires
        start <= b@.len(),
    ensures
        r == json_scan(b@.subrange(start as int, b@.len() as int)),
        r matches Scan::Value(_, n) ==> 0 < n <= b@.len() - start,
{
    let mut s = serde_json::Deserializer::from_slice(&b[start..]).into_iter::<serde_json::Value>();
    match s.next() {
        None => Scan::End,
        Some(Ok(v)) => Scan::Value(json_from(v), s.byte_offset()),
        Some(Err(_)) => Scan::Bad,
    }
}

/// Relies on the variants of `serde_json::Value`: the same tree, node for
/// node; a number becomes the bits of `Number::as_f64`, which is never `None`
/// without serde_json's `arbitrary_precision` feature.
#[verifier::external_body]
fn json_from(v: serde_json::Value) -> Json {
    match v {
        serde_json::Value::Null => Json::Null,
        serde_json::Value::Bool(b) => Json::Bool(b),
        serde_json::Value::Number(n) => Json::Number(n.as_f64().map_or(0, |x| x.to_bits())),
        serde_json::Value::String(s) => Json::Str(s),
        serde_json::Value::Array(a) => Json::Array(a.into_iter().map(json_from).collect()),
        serde_json::Value::Object(o) => Json::Object(
            o.into_iter().map(|(k, x)| (k, json_from(x))).collect(),
        ),
    }
}

/// The value of the first member of `fs` named `key`.
pub open spec fn field(fs: Seq<(String, Json)>, key: Seq<char>) -> Option<Json>
    decreases fs.len(),
{
    if fs.len() == 0 {
        None
    } else if fs[0].0@ == key {
        Some(fs[0].1)
    } else {
        field(fs.drop_first(), key)
    }
}

proof fn lemma_field_step(fs: Seq<(String, Json)>, i: int, key: Seq<char>)
    requires
        0 <= i < fs.len(),
    ensures
        field(fs.subrange(i, fs.len() as int), key) == if fs[i].0@ == key {
            Some(fs[i].1)
        } else {
            field(fs.subrange(i + 1, fs.len() as int), key)
        },
{
    assert(fs.subrange(i, fs.len() as int).drop_first() == fs.subrange(i + 1, fs.len() as int));
}

fn find_field<'a>(fs: &'a Vec<(String, Json)>, key: &str) -> (r: Option<&'a Json>)
    ensures
        match r {
            Some(x) => field(fs@, key@) == Some(*x),
            None => field(fs@, key@) is None,
        },
{
    let k = key.to_owned();
    let mut i: usize = 0;
    assert(fs@.subrange(0, fs@.len() as int) == fs@);
    while i < fs.len()
        invariant
            i <= fs@.len(),
            k@ == key@,
            field(fs@, key@) == field(fs@.subrange(i as int, fs@.len() as int), key@),
        decreases fs@.len() - i,
    {
        proof {
            lemma_field_step(fs@, i as int, key@);
        }
        if fs[i].0 == k {
            return Some(&fs[i].1);
        }
        i = i + 1;
    }
    None
}

/// `b` is the bit pattern of a finite double: its exponent is not all ones.
pub open spec fn is_finite_bits(b: u64) -> bool {
    (b >> 52u64) & 0x7ffu64 != 0x7ffu64
}

/// A measured result; `time` is the bit pattern of a finite double.
pub struct BenchResult {
    pub time: u64,
}

/// One benchmark record: its identifier and its typical estimate.
pub struct BenchData {
    pub id: BenchId,
    pub result: BenchResult,
}

impl View for BenchData {
    type V = ((Seq<char>, Seq<char>, Seq<char>), u64);

    open spec fn view(&self) -> Self::V {
        (self.id@, self.result.time)
    }
}

/// The record that a JSON value holds, if it has the shape
/// `{"id": "<group>/<name>/<params>", "typical": {"estimate": <number>}}`.
pub open spec fn record_of(v: Json) -> Option<((Seq<char>, Seq<char>, Seq<char>), u64)> {
    match v {
        Json::Object(fs) => match (field(fs@, "id"@), field(fs@, "typical"@)) {
            (Some(Json::Str(s)), Some(Json::Object(t))) => match (id_of(s@), field(t@, "estimate"@)) {
                (Some(id), Some(Json::Number(b))) => if is_finite_bits(b) {
                    Some((id, b))
                } else {
                    None
                },
                _ => None,
            },
            _ => None,
        },
        _ => None,
    }
}

/// Reads the record that `v` holds, as `record_of` says.
pub fn read_record(v: &Json) -> (r: Option<BenchData>)
    ensures
        match r {
            Some(d) => record_of(*v) == Some(d@),
            None => record_of(*v) is None,
        },
{
    if let Json::Object(fs) = v {
        let id = find_field(fs, "id");
        let typical = find_field(fs, "typical");
        if let (Some(Json::Str(s)), Some(Json::Object(t))) = (id, typical) {
            let parsed = BenchId::parse(s.as_str());
            let estimate = find_field(t, "estimate");
            if let (Some(id), Some(Json::Number(b))) = (parsed, estimate) {
                let b: u64 = *b;
                if (b >> 52u64) & 0x7ffu64 != 0x7ffu64 {
                    return Some(BenchData { id, result: BenchResult { time: b } });
                }
            }
        }
    }
    None
}

/// Why a record could not be read: `value` holds the JSON value when the
/// bytes were valid JSON of the wrong shape, and is `None` when they were not
/// JSON at all.
pub struct JsonError {
    pub value: Option<Json>,
}

/// One pull of the decoder, seen from the bytes that remain: the record, or
/// the value of the wrong shape (`Err(Some(v))`), or the syntax error
/// (`Err(None)`).
pub type Outcome = Result<((Seq<char>, Seq<char>, Seq<char>), u64), Option<Json>>;

/// What one pull yields for a value `v` that was read whole.
pub open spec fn outcome_of(v: Json) -> Outcome {
    match record_of(v) {
        Some(m) => Ok(m),
        None => Err(Some(v)),
    }
}

/// The view of one item that the decoder yields.
pub open spec fn item_view(x: Result<BenchData, JsonError>) -> Outcome {
    match x {
        Ok(d) => Ok(d@),
        Err(e) => Err(e.value),
    }
}

/// The views of the items `s`.
pub open spec fn items_view(s: Seq<Result<BenchData, JsonError>>) -> Seq<Outcome> {
    s.map_values(|x: Result<BenchData, JsonError>| item_view(x))
}

/// The views of the records `s`, each as a read record.
pub open spec fn records_view(s: Seq<BenchData>) -> Seq<Outcome> {
    s.map_values(|d: BenchData| Ok::<_, Option<Json>>(d@))
}

/// The records among the items `s`.
pub open spec fn oks(s: Seq<Outcome>) -> Seq<Outcome> {
    s.filter(|o: Outcome| o is Ok)
}

/// Every item that decoding `b` yields, in order. A syntax error is the
/// last item; a value of the wrong shape is skipped over.
pub open spec fn decoded(b: Seq<u8>) -> Seq<Outcome>
    decreases b.len(),
{
    if b.len() == 0 {
        seq![]
    } else {
        match json_scan(b) {
            Scan::End => seq![],
            Scan::Bad => seq![Err(None)],
            Scan::Value(v, n) => if 0 < n <= b.len() {
                seq![outcome_of(v)] + decoded(b.subrange(n as int, b.len() as int))
            } else {
                seq![]
            },
        }
    }
}

/// The scanner reads the bytes of `b` as the values `vs`, the `k`-th ending
/// at `ends[k + 1]`, each holding a record, and nothing but whitespace after them.
pub open spec fn reads_records(b: Seq<u8>, ends: Seq<int>, vs: Seq<Json>) -> bool {
    &&& b.len() <= usize::MAX
    &&& ends.len() == vs.len() + 1
    &&& ends[0] == 0
    &&& forall|k: int|
        0 <= k < vs.len() ==> {
            &&& 0 <= ends[k] < ends[k + 1] <= b.len()
            &&& json_scan(b.subrange(ends[k], b.len() as int)) == Scan::Value(
                vs[k],
                (ends[k + 1] - ends[k]) as usize,
            )
            &&& record_of(#[trigger] vs[k]) is Some
        }
    &&& ends.last() == b.len() || json_scan(b.subrange(ends.last(), b.len() as int)) == Scan::End
}

proof fn lemma_records_from(b: Seq<u8>, ends: Seq<int>, vs: Seq<Json>, k: int)
    requires
        reads_records(b, ends, vs),
        0 <= k <= vs.len(),
    ensures
        decoded(b.subrange(ends[k], b.len() as int)) == vs.subrange(k, vs.len() as int).map_values(
            |v: Json| outcome_of(v),
        ),
    decreases vs.len() - k,
{
    let rest = b.subrange(ends[k], b.len() as int);
    if k == vs.len() {
        if k > 0 {
            assert(record_of(vs[k - 1]) is Some);
            assert(ends[k - 1] < ends[k] <= b.len());
        }
        assert(vs.subrange(k, vs.len() as int).map_values(|v: Json| outcome_of(v)) =~= Seq::<
            Outcome,
        >::empty());
    } else {
        lemma_records_from(b, ends, vs, k + 1);
        assert(record_of(vs[k]) is Some);
        assert(0 <= ends[k] < ends[k + 1] <= b.len());
        let n = (ends[k + 1] - ends[k]) as usize;
        assert(rest.subrange(n as int, rest.len() as int) =~= b.subrange(
            ends[k + 1],
            b.len() as int,
        ));
        assert(vs.subrange(k, vs.len() as int).map_values(|v: Json| outcome_of(v)) =~= seq![
            outcome_of(vs[k]),
        ] + vs.subrange(k + 1, vs.len() as int).map_values(|v: Json| outcome_of(v)));
    }
}

/// A buffer of well-formed records, one after another, decodes to exactly
/// those records, in order, and nothing else.
pub proof fn law_records_in_order(b: Seq<u8>, ends: Seq<int>, vs: Seq<Json>)
    requires
        reads_records(b, ends, vs),
    ensures
        decoded(b) == vs.map_values(|v: Json| outcome_of(v)),
        forall|k: int| 0 <= k < vs.len() ==> #[trigger] decoded(b)[k] is Ok,
{
    lemma_records_from(b, ends, vs, 0);
    assert(b.subrange(0, b.len() as int) =~= b);
    assert(vs.subrange(0, vs.len() as int) =~= vs);
    assert forall|k: int| 0 <= k < vs.len() implies #[trigger] decoded(b)[k] is Ok by {
        assert(record_of(vs[k]) is Some);
    }
}

/// A decoder over a buffer of concatenated JSON records: the buffer and the
/// offset of the first byte not yet accounted for.
pub struct ResilientStreamDeserializer {
    json: Vec<u8>,
    last_ok_pos: usize,
}

impl ResilientStreamDeserializer {
    /// The bytes not yet read.
    pub closed spec fn rest(&self) -> Seq<u8> {
        self.json@.subrange(self.last_ok_pos as int, self.json@.len() as int)
    }

    pub closed spec fn wf(&self) -> bool {
        self.last_ok_pos <= self.json@.len()
    }

    /// A decoder at the start of `json`.
    pub fn new(json: Vec<u8>) -> (r: Self)
        ensures
            r.wf(),
            r.rest() == json@,
    {
        let r = ResilientStreamDeserializer { json, last_ok_pos: 0 };
        assert(r.rest() == r.json@.subrange(0, r.json@.len() as int));
        r
    }

    /// Pulls the next item. Each pull that yields something moves past the
    /// value it read, or, on a syntax error, to the end of the buffer.
    pub fn next(&mut self) -> (r: Option<Result<BenchData, JsonError>>)
        requires
            old(self).wf(),
        ensures
            final(self).wf(),
            match r {
                None => decoded(old(self).rest()) == Seq::<Outcome>::empty(),
                Some(x) => decoded(old(self).rest()) == seq![item_view(x)] + decoded(final(self).rest()),
            },
            final(self).rest().len() < old(self).rest().len() || r is None,
    {
        let n = self.json.len();
        if self.last_ok_pos == n {
            return None;
        }
        let scan = scan_json(self.json.as_slice(), self.last_ok_pos);
        let ghost b = old(self).rest();
        match scan {
            Scan::End => {
                self.last_ok_pos = n;
                None
            },
            Scan::Bad => {
                self.last_ok_pos = n;
                assert(self.rest().len() == 0);
                assert(decoded(self.rest()) == Seq::<Outcome>::empty());
                assert(decoded(b) == seq![Err(None)] + decoded(self.rest()));
                Some(Err(JsonError { value: None }))
            },
            Scan::Value(v, used) => {
                self.last_ok_pos = self.last_ok_pos + used;
                assert(self.rest() == b.subrange(used as int, b.len() as int));
                let rec = read_record(&v);
                match rec {
                    Some(d) => Some(Ok(d)),
                    None => Some(Err(JsonError { value: Some(v) })),
                }
            },
        }
    }
}

/// Decodes every item of `json`, as `decoded` says.
#[verifier::loop_isolation(false)]
pub fn decode_all(json: Vec<u8>) -> (r: Vec<Result<BenchData, JsonError>>)
    ensures
        items_view(r@) == decoded(json@),
{
    let ghost bytes = json@;
    let mut d = ResilientStreamDeserializer::new(json);
    assert(d.rest() == bytes);
    let mut r: Vec<Result<BenchData, JsonError>> = Vec::new();
    let ghost all = d.rest();
    loop
        invariant
            d.wf(),
            decoded(all) == items_view(r@) + decoded(
                d.rest(),
            ),
        decreases d.rest().len(),
    {
        let ghost before = r@;
        match d.next() {
            None => {
                assert(decoded(all) =~= items_view(r@));
                return r;
            },
            Some(x) => {
                r.push(x);
                assert(items_view(r@)
                    =~= items_view(before).push(item_view(x)));
                assert(decoded(all) =~= items_view(r@) + decoded(
                    d.rest(),
                ));
            },
        }
    }
}

/// The records of `json`, in order, leaving out what could not be read.
#[verifier::loop_isolation(false)]
pub fn read_json(json: Vec<u8>) -> (r: Vec<BenchData>)
    ensures
        records_view(r@) == oks(decoded(json@)),
{
    let ghost bytes = json@;
    let mut d = ResilientStreamDeserializer::new(json);
    assert(d.rest() == bytes);
    let mut r: Vec<BenchData> = Vec::new();
    let ghost all = d.rest();
    loop
        invariant
            d.wf(),
            oks(decoded(all)) == records_view(r@) + oks(decoded(d.rest())),
        decreases d.rest().len(),
    {
        let ghost before = r@;
        let ghost rest0 = d.rest();
        let x = d.next();
        match x {
            None => {
                assert(oks(decoded(rest0)) =~= Seq::<Outcome>::empty());
                assert(oks(decoded(all)) =~= records_view(r@));
                return r;
            },
            Some(y) => {
                proof {
                    decoded(d.rest()).lemma_filter_prepend(item_view(y), |o: Outcome| o is Ok);
                    assert(oks(decoded(rest0)) == (if item_view(y) is Ok { seq![item_view(y)] } else { Seq::empty() }) + oks(decoded(d.rest())));
                }
                match y {
                    Ok(data) => {
                        r.push(data);
                        assert(records_view(r@)
                            =~= records_view(before).push(
                            item_view(Ok(data)),
                        ));
                    },
                    Err(_) => {},
                }
            },
        }
    }
}

} // verus!
