//! The record model: one decoded store entry, its typed payload, and the
//! derivation of display rows from it.
//!
//! A record's type tag comes from the prefix of its key before the first
//! `:`; its sort timestamp comes from the second `:`-delimited segment of
//! the key. The payload is the structured decode of the value bytes; when
//! decoding fails, the payload degrades to a one-field object wrapping the
//! bytes as (lossily decoded) text.

use vstd::prelude::*;
use vstd::slice::slice_to_vec;
use vstd::string::*;
use crate::strings::{spec_parse_u64, parse_u64, str_eq};

verus! {

/// One scalar cell value decoded from a structured payload field.
#[derive(Debug, Clone)]
pub enum JsonScalar {
    /// A text value, shown verbatim.
    Str(String),
    /// A numeric value, carried as its canonical rendering.
    Num(String),
    Bool(bool),
    Null,
    /// A nested array or object, carried as its generic rendering.
    Nested(String),
}

/// A named field of an object payload.
#[derive(Debug, Clone)]
pub struct Field {
    pub name: String,
    pub value: JsonScalar,
}

/// The structured payload of a record: an object with named fields, or
/// anything else (array, scalar, null), which renders as empty cells.
#[derive(Debug, Clone)]
pub enum Payload {
    Object(Vec<Field>),
    Other,
}

/// One decoded store entry.
#[derive(Debug, Clone)]
pub struct Record {
    pub record_type: String,
    pub key: String,
    pub data: Payload,
    pub raw_data: Vec<u8>,
}

pub enum ScalarV {
    Str(Seq<char>),
    Num(Seq<char>),
    Bool(bool),
    Null,
    Nested(Seq<char>),
}

pub struct FieldV {
    pub name: Seq<char>,
    pub value: ScalarV,
}

pub enum PayloadV {
    Object(Seq<FieldV>),
    Other,
}

pub struct RecordV {
    pub record_type: Seq<char>,
    pub key: Seq<char>,
    pub data: PayloadV,
    pub raw_data: Seq<u8>,
}

impl View for JsonScalar {
    type V = ScalarV;

    open spec fn view(&self) -> ScalarV {
        match self {
            JsonScalar::Str(s) => ScalarV::Str(s@),
            JsonScalar::Num(s) => ScalarV::Num(s@),
            JsonScalar::Bool(b) => ScalarV::Bool(*b),
            JsonScalar::Null => ScalarV::Null,
            JsonScalar::Nested(s) => ScalarV::Nested(s@),
        }
    }
}

impl View for Field {
    type V = FieldV;

    open spec fn view(&self) -> FieldV {
        FieldV { name: self.name@, value: self.value@ }
    }
}

/// The views of a sequence of fields.
pub open spec fn field_views(s: Seq<Field>) -> Seq<FieldV> {
    s.map_values(|f: Field| f@)
}

/// The views of a sequence of records.
pub open spec fn rec_views(s: Seq<Record>) -> Seq<RecordV> {
    s.map_values(|r: Record| r@)
}

/// The views of a sequence of strings.
pub open spec fn str_views(s: Seq<String>) -> Seq<Seq<char>> {
    s.map_values(|x: String| x@)
}

impl View for Payload {
    type V = PayloadV;

    open spec fn view(&self) -> PayloadV {
        match self {
            Payload::Object(fs) => PayloadV::Object(field_views(fs@)),
            Payload::Other => PayloadV::Other,
        }
    }
}

impl View for Record {
    type V = RecordV;

    open spec fn view(&self) -> RecordV {
        RecordV {
            record_type: self.record_type@,
            key: self.key@,
            data: self.data@,
            raw_data: self.raw_data@,
        }
    }
}

/// What the structured decoder yields for the given value bytes: `None`
/// when the bytes do not decode, the (name, value) fields in the decoder's
/// own (sorted) order for an object, and `Other` for any other document.
/// The result depends on the bytes alone.
pub uninterp spec fn json_fields(bytes: Seq<u8>) -> Option<PayloadV>;

/// The lossy text decoding of arbitrary bytes; depends on the bytes alone.
pub uninterp spec fn lossy_of(bytes: Seq<u8>) -> Seq<char>;

/// Relies on serde_json::from_slice, serde_json's (sorted) object map
/// iteration, and the canonical rendering of numbers and nested values:
/// all are functions of the input bytes alone.
#[verifier::external_body]
fn decode_fields(bytes: &[u8]) -> (r: Option<Payload>)
    ensures
        (r is Some) == (json_fields(bytes@) is Some),
        r matches Some(p) ==> json_fields(bytes@) == Some(p@),
{
    match serde_json::from_slice::<serde_json::Value>(bytes) {
        Err(_) => None,
        Ok(serde_json::Value::Object(m)) => Some(Payload::Object(m.iter().map(|(k, v)| Field {
            name: k.clone(),
            value: match v {
                serde_json::Value::String(s) => JsonScalar::Str(s.clone()),
                serde_json::Value::Number(n) => JsonScalar::Num(n.to_string()),
                serde_json::Value::Bool(b) => JsonScalar::Bool(*b),
                serde_json::Value::Null => JsonScalar::Null,
                other => JsonScalar::Nested(other.to_string()),
            },
        }).collect())),
        Ok(_) => Some(Payload::Other),
    }
}

/// Relies on String::from_utf8_lossy: the result depends on the bytes
/// alone.
#[verifier::external_body]
fn lossy_text(bytes: &[u8]) -> (r: String)
    ensures
        r@ == lossy_of(bytes@),
{
    String::from_utf8_lossy(bytes).into_owned()
}

/// How a scalar renders in a table cell: strings verbatim, numbers and
/// nested values by their carried rendering, booleans as `true`/`false`,
/// null as the empty string.
pub open spec fn spec_scalar_text(s: ScalarV) -> Seq<char> {
    match s {
        ScalarV::Str(t) => t,
        ScalarV::Num(t) => t,
        ScalarV::Bool(b) => if b {
            "true"@
        } else {
            "false"@
        },
        ScalarV::Null => Seq::empty(),
        ScalarV::Nested(t) => t,
    }
}

/// Renders one scalar payload value as cell text.
pub fn value_to_string(v: &JsonScalar) -> (r: String)
    ensures
        r@ == spec_scalar_text(v@),
{
    match v {
        JsonScalar::Str(s) => s.clone(),
        JsonScalar::Num(s) => s.clone(),
        JsonScalar::Bool(b) => {
            if *b {
                "true".to_owned()
            } else {
                "false".to_owned()
            }
        },
        JsonScalar::Null => String::new(),
        JsonScalar::Nested(s) => s.clone(),
    }
}

/// Index of the first `:` in `s`, or `s.len()` when there is none.
pub open spec fn first_delim(s: Seq<char>) -> int
    decreases s.len(),
{
    if s.len() == 0 {
        0
    } else if s[0] == ':' {
        0
    } else {
        1 + first_delim(s.drop_first())
    }
}
/// The record type derived from a key: the segment before the first `:`,
/// or `unknown` when that segment is empty.
pub open spec fn spec_type_of_key(k: Seq<char>) -> Seq<char> {
    if first_delim(k) == 0 {
        "unknown"@
    } else {
        k.subrange(0, first_delim(k))
    }
}

/// The second `:`-delimited segment of a key (empty when absent).
pub open spec fn spec_second_segment(k: Seq<char>) -> Seq<char> {
    if first_delim(k) == k.len() {
        Seq::empty()
    } else {
        let rest = k.skip(first_delim(k) + 1);
        rest.subrange(0, first_delim(rest))
    }
}

/// The sort timestamp derived from a key: its second segment parsed as a
/// decimal number, or 0 when that fails.
pub open spec fn spec_timestamp(k: Seq<char>) -> u64 {
    match spec_parse_u64(spec_second_segment(k)) {
        Some(v) => v,
        None => 0,
    }
}

/// Finds the first `:` at or after `start`, returning its position, or
/// the string's length when there is none from `start` on.
fn find_delim(s: &str, start: usize) -> (r: usize)
    requires
        start <= s@.len(),
    ensures
        start <= r <= s@.len(),
        r - start == first_delim(s@.skip(start as int)),
{
    let n: usize = s.unicode_len();
    let mut i: usize = start;
    while i < n
        invariant
            start <= i <= n,
            n == s@.len(),
            first_delim(s@.skip(start as int)) == i - start + first_delim(s@.skip(i as int)),
            forall|k: int| start <= k < i ==> s@[k] != ':',
        decreases n - i,
    {
        let c = s.get_char(i);
        proof {
            assert(s@.skip(i as int)[0] == s@[i as int]);
        }
        if c == ':' {
            proof {
                assert(first_delim(s@.skip(i as int)) == 0);
            }
            return i;
        }
        proof {
            assert(s@.skip(i as int).drop_first() =~= s@.skip(i as int + 1));
            assert(first_delim(s@.skip(i as int)) == 1 + first_delim(s@.skip(i as int + 1)));
        }
        i = i + 1;
    }
    proof {
        assert(s@.skip(i as int).len() == 0);
        assert(first_delim(s@.skip(i as int)) == 0);
    }
    i
}

/// Derives the record type tag from a store key.
pub fn record_type_of_key(key: &str) -> (r: String)
    ensures
        r@ == spec_type_of_key(key@),
{
    proof {
        assert(key@.skip(0) =~= key@);
    }
    let d = find_delim(key, 0);
    if d == 0 {
        "unknown".to_owned()
    } else {
        key.substring_char(0, d).to_owned()
    }
}

/// Derives the sort timestamp from a store key.
pub fn timestamp_of_key(key: &str) -> (r: u64)
    ensures
        r == spec_timestamp(key@),
{
    proof {
        assert(key@.skip(0) =~= key@);
    }
    let n: usize = key.unicode_len();
    let d = find_delim(key, 0);
    if d == n {
        proof {
            assert(spec_second_segment(key@).len() == 0);
        }
        0
    } else {
        let e = find_delim(key, d + 1);
        let seg = key.substring_char(d + 1, e);
        proof {
            let rest = key@.skip(d + 1);
            assert(rest.subrange(0, first_delim(rest)) =~= key@.subrange(d + 1, e as int));
        }
        match parse_u64(seg) {
            Some(v) => v,
            None => 0,
        }
    }
}

/// The payload decoded from value bytes, with the degradation rule: bytes
/// that do not decode become a one-field object `{ "value": <lossy text> }`.
pub open spec fn spec_payload_of(bytes: Seq<u8>) -> PayloadV {
    match json_fields(bytes) {
        Some(p) => p,
        None => PayloadV::Object(
            seq![FieldV { name: "value"@, value: ScalarV::Str(lossy_of(bytes)) }],
        ),
    }
}

/// The record parsed from one raw store entry.
pub open spec fn spec_record(k: Seq<char>, v: Seq<u8>) -> RecordV {
    RecordV {
        record_type: spec_type_of_key(k),
        key: k,
        data: spec_payload_of(v),
        raw_data: v,
    }
}

/// Parses one raw store entry into a record. Never fails: an undecodable
/// value degrades to a wrapped-text payload.
pub fn deserialize_record(key: &str, value: &[u8]) -> (r: Record)
    ensures
        r@ == spec_record(key@, value@),
{
    let record_type = record_type_of_key(key);
    let data = match decode_fields(value) {
        Some(p) => p,
        None => {
            let mut fs: Vec<Field> = Vec::new();
            fs.push(Field { name: "value".to_owned(), value: JsonScalar::Str(lossy_text(value)) });
            proof {
                assert(field_views(fs@) =~= seq![
                    FieldV { name: "value"@, value: ScalarV::Str(lossy_of(value@)) },
                ]);
            }
            Payload::Object(fs)
        },
    };
    Record {
        record_type: record_type,
        key: key.to_owned(),
        data: data,
        raw_data: slice_to_vec(value),
    }
}

/// The scalar found under the (first) field with the given name.
pub open spec fn lookup_field(fs: Seq<FieldV>, h: Seq<char>) -> Option<ScalarV>
    decreases fs.len(),
{
    if fs.len() == 0 {
        None
    } else if fs[0].name == h {
        Some(fs[0].value)
    } else {
        lookup_field(fs.drop_first(), h)
    }
}

/// The cell text of payload `p` under header `h`: the rendered field value
/// for an object that has the field, otherwise empty.
pub open spec fn spec_cell(p: PayloadV, h: Seq<char>) -> Seq<char> {
    match p {
        PayloadV::Object(fs) => match lookup_field(fs, h) {
            Some(v) => spec_scalar_text(v),
            None => Seq::empty(),
        },
        PayloadV::Other => Seq::empty(),
    }
}

/// The display row of a record under the given headers: the key first,
/// then one cell per remaining header.
pub open spec fn spec_row(r: RecordV, headers: Seq<Seq<char>>) -> Seq<Seq<char>> {
    seq![r.key] + Seq::new(
        if headers.len() >= 1 {
            (headers.len() - 1) as nat
        } else {
            0
        },
        |i: int| spec_cell(r.data, headers[i + 1]),
    )
}

/// Renders the cell of an object payload under one header.
pub fn cell_text(fields: &Vec<Field>, h: &String) -> (r: String)
    ensures
        r@ == spec_cell(PayloadV::Object(field_views(fields@)), h@),
{
    let ghost fv = field_views(fields@);
    proof {
        assert(fv.skip(0) =~= fv);
    }
    let mut j: usize = 0;
    while j < fields.len()
        invariant
            j <= fields@.len(),
            fv == field_views(fields@),
            lookup_field(fv, h@) == lookup_field(fv.skip(j as int), h@),
        decreases fields@.len() - j,
    {
        proof {
            assert(fv.skip(j as int)[0] == fv[j as int]);
        }
        if str_eq(fields[j].name.as_str(), h.as_str()) {
            return value_to_string(&fields[j].value);
        }
        proof {
            assert(fv.skip(j as int).drop_first() =~= fv.skip(j as int + 1));
        }
        j = j + 1;
    }
    proof {
        assert(fv.skip(j as int).len() == 0);
    }
    String::new()
}

/// A deep copy of a scalar whose view equals the original's.
fn duplicate_scalar(v: &JsonScalar) -> (r: JsonScalar)
    ensures
        r@ == v@,
{
    match v {
        JsonScalar::Str(s) => JsonScalar::Str(s.clone()),
        JsonScalar::Num(s) => JsonScalar::Num(s.clone()),
        JsonScalar::Bool(b) => JsonScalar::Bool(*b),
        JsonScalar::Null => JsonScalar::Null,
        JsonScalar::Nested(s) => JsonScalar::Nested(s.clone()),
    }
}

impl Record {
    /// Computes the display row of this record for the given header list
    /// (whose first entry is the synthetic key column).
    pub fn to_table_row(&self, all_headers: &Vec<String>) -> (r: Vec<String>)
        requires
            all_headers@.len() >= 1,
        ensures
            str_views(r@) == spec_row(self@, str_views(all_headers@)),
    {
        let ghost hv = str_views(all_headers@);
        let mut row: Vec<String> = Vec::new();
        row.push(self.key.clone());
        let mut i: usize = 1;
        while i < all_headers.len()
            invariant
                1 <= i <= all_headers@.len(),
                hv == str_views(all_headers@),
                row@.len() == i,
                str_views(row@)[0] == self@.key,
                forall|k: int| 1 <= k < i ==> str_views(row@)[k] == spec_cell(self@.data, hv[k]),
            decreases all_headers@.len() - i,
        {
            let cell = match &self.data {
                Payload::Object(fields) => {
                    let c = cell_text(fields, &all_headers[i]);
                    proof {
                        assert(self@.data == PayloadV::Object(field_views(fields@)));
                    }
                    c
                },
                Payload::Other => String::new(),
            };
            proof {
                assert(cell@ == spec_cell(self@.data, hv[i as int]));
            }
            let ghost prev = row@;
            row.push(cell);
            proof {
                assert forall|k: int| 1 <= k < i + 1 implies str_views(row@)[k] == spec_cell(
                    self@.data,
                    hv[k],
                ) by {
                    if k < i {
                        assert(row@[k] == prev[k]);
                        assert(str_views(prev)[k] == spec_cell(self@.data, hv[k]));
                    } else {
                        assert(row@[k] == cell);
                    }
                }
                assert(str_views(row@)[0] == self@.key);
            }
            i = i + 1;
        }
        proof {
            assert(str_views(row@) =~= spec_row(self@, hv));
        }
        row
    }

    /// A deep copy whose view equals this record's view.
    pub fn duplicate(&self) -> (r: Record)
        ensures
            r@ == self@,
    {
        let data = match &self.data {
            Payload::Object(fields) => {
                let mut fs: Vec<Field> = Vec::new();
                let mut i: usize = 0;
                while i < fields.len()
                    invariant
                        i <= fields@.len(),
                        field_views(fs@) == field_views(fields@).subrange(0, i as int),
                    decreases fields@.len() - i,
                {
                    let ghost prev = fs@;
                    proof {
                        assert(field_views(prev).len() == prev.len());
                        assert(field_views(prev).len() == i as int);
                        assert(prev.len() == i as int);
                    }
                    let value = duplicate_scalar(&fields[i].value);
                    fs.push(Field { name: fields[i].name.clone(), value: value });
                    proof {
                        assert(fs@ == prev.push(fs@.last()));
                        assert(fs@.len() == i + 1);
                        assert(fs@.last()@ == fields@[i as int]@);
                        assert forall|k: int| 0 <= k < fs@.len() implies field_views(fs@)[k]
                            == field_views(fields@).subrange(0, i + 1)[k] by {
                            if k < i {
                                assert(fs@[k] == prev[k]);
                                assert(field_views(prev)[k] == field_views(fields@).subrange(
                                    0,
                                    i as int,
                                )[k]);
                            } else {
                                assert(fs@[k] == fs@.last());
                            }
                        }
                        assert(field_views(fs@) =~= field_views(fields@).subrange(0, i + 1));
                    }
                    i = i + 1;
                }
                proof {
                    assert(field_views(fields@).subrange(0, fields@.len() as int) =~= field_views(
                        fields@,
                    ));
                }
                Payload::Object(fs)
            },
            Payload::Other => Payload::Other,
        };
        Record {
            record_type: self.record_type.clone(),
            key: self.key.clone(),
            data: data,
            raw_data: slice_to_vec(self.raw_data.as_slice()),
        }
    }
}

} // verus!
