//! The structural mapping protocol: converting native composite values to
//! and from the value tree.
//!
//! `ToJson` fixes each type's canonical encoding; `FromJson` decodes a tree
//! back, reporting `TypeMismatch`, `KeyNotFound`, `ArityMismatch` or
//! `UnknownVariant` as recoverable errors.  Every implementation proves the
//! round-trip law `decode_encode`: decoding a value's encoding succeeds and
//! pins down the canonical encoding of what comes back.

use vstd::prelude::*;
use crate::json_basic::JsonData;
use crate::json_basic::JsonError;
use crate::json_basic::JsonNode;
use crate::json_basic::entries_data;
use crate::json_basic::lemma_entries_data;
use crate::json_basic::lemma_entries_data_push;
use crate::json_basic::lemma_nodes_data;
use crate::json_basic::lemma_nodes_data_push;
use crate::json_basic::nodes_data;
use crate::json_basic::spec_obj_get;
use crate::json_basic::str_eq;
use crate::json_number::JsonNumber;
use crate::json_number::int_text;
use crate::json_number::int_val;
use crate::json_number::is_int_text;
use crate::json_number::lemma_int_round_trip;

verus! {

/// A value with a canonical encoding in the value tree.
pub trait ToJson {
    /// The canonical encoding of this value.
    spec fn encoded(&self) -> JsonData;

    /// Encode this value.
    fn to_json(&self) -> (r: JsonNode)
        ensures
            r@ == self.encoded(),
    ;
}

/// A value that can be read back from its value-tree encoding.
pub trait FromJson: ToJson + Sized {
    /// Does the tree `j` decode to the value `v`?
    spec fn decode_rel(j: JsonData, v: Self) -> bool;

    /// The error decoding `j` reports, if decoding fails.
    spec fn decode_err(j: JsonData) -> Option<JsonError>;

    /// Decode a tree: `Ok` exactly when `decode_err` finds no fault, and
    /// the value then stands in `decode_rel` with the tree.
    fn from_json(json: &JsonNode) -> (r: Result<Self, JsonError>)
        ensures
            match r {
                Ok(v) => Self::decode_err(json@) is None && Self::decode_rel(json@, v),
                Err(e) => Self::decode_err(json@) == Some(e),
            },
    ;

    /// Law: decoding inverts encoding.  Decoding the encoding of `v`
    /// succeeds, `v` itself is a decoding of it, and every decoding of it
    /// carries the same canonical encoding as `v`.
    proof fn decode_encode(v: Self)
        ensures
            Self::decode_err(v.encoded()) is None,
            Self::decode_rel(v.encoded(), v),
            forall|w: Self| #[trigger] Self::decode_rel(v.encoded(), w) ==> w.encoded()
                == v.encoded(),
    ;
}

impl ToJson for bool {
    open spec fn encoded(&self) -> JsonData {
        JsonData::Boolean(*self)
    }

    fn to_json(&self) -> (r: JsonNode) {
        JsonNode::Boolean(*self)
    }
}

impl FromJson for bool {
    open spec fn decode_rel(j: JsonData, v: Self) -> bool {
        j == JsonData::Boolean(v)
    }

    open spec fn decode_err(j: JsonData) -> Option<JsonError> {
        if j is Boolean {
            None
        } else {
            Some(JsonError::TypeMismatch)
        }
    }

    fn from_json(json: &JsonNode) -> (r: Result<Self, JsonError>) {
        match json {
            JsonNode::Boolean(b) => Ok(*b),
            _ => Err(JsonError::TypeMismatch),
        }
    }

    proof fn decode_encode(v: Self) {
    }
}

impl ToJson for i64 {
    open spec fn encoded(&self) -> JsonData {
        JsonData::Number(int_text(*self as int))
    }

    fn to_json(&self) -> (r: JsonNode) {
        JsonNode::Number(JsonNumber::from_i64(*self))
    }
}

impl FromJson for i64 {
    open spec fn decode_rel(j: JsonData, v: Self) -> bool {
        j matches JsonData::Number(t) && is_int_text(t) && int_val(t) == v as int
    }

    open spec fn decode_err(j: JsonData) -> Option<JsonError> {
        match j {
            JsonData::Number(t) => if is_int_text(t) && i64::MIN <= int_val(t) <= i64::MAX {
                None
            } else {
                Some(JsonError::TypeMismatch)
            },
            _ => Some(JsonError::TypeMismatch),
        }
    }

    fn from_json(json: &JsonNode) -> (r: Result<Self, JsonError>) {
        match json {
            JsonNode::Number(num) => match num.to_i64() {
                Some(v) => Ok(v),
                None => Err(JsonError::TypeMismatch),
            },
            _ => Err(JsonError::TypeMismatch),
        }
    }

    proof fn decode_encode(v: Self) {
        lemma_int_round_trip(v as int);
    }
}

impl ToJson for String {
    open spec fn encoded(&self) -> JsonData {
        JsonData::Text(self@)
    }

    fn to_json(&self) -> (r: JsonNode) {
        JsonNode::Text(self.clone())
    }
}

impl FromJson for String {
    open spec fn decode_rel(j: JsonData, v: Self) -> bool {
        j == JsonData::Text(v@)
    }

    open spec fn decode_err(j: JsonData) -> Option<JsonError> {
        if j is Text {
            None
        } else {
            Some(JsonError::TypeMismatch)
        }
    }

    fn from_json(json: &JsonNode) -> (r: Result<Self, JsonError>) {
        match json {
            JsonNode::Text(s) => Ok(s.clone()),
            _ => Err(JsonError::TypeMismatch),
        }
    }

    proof fn decode_encode(v: Self) {
    }
}

impl ToJson for JsonNumber {
    open spec fn encoded(&self) -> JsonData {
        JsonData::Number(self@)
    }

    fn to_json(&self) -> (r: JsonNode) {
        JsonNode::Number(self.duplicate())
    }
}

impl FromJson for JsonNumber {
    open spec fn decode_rel(j: JsonData, v: Self) -> bool {
        j == JsonData::Number(v@)
    }

    open spec fn decode_err(j: JsonData) -> Option<JsonError> {
        if j is Number {
            None
        } else {
            Some(JsonError::TypeMismatch)
        }
    }

    fn from_json(json: &JsonNode) -> (r: Result<Self, JsonError>) {
        match json {
            JsonNode::Number(num) => Ok(num.duplicate()),
            _ => Err(JsonError::TypeMismatch),
        }
    }

    proof fn decode_encode(v: Self) {
    }
}

impl ToJson for JsonNode {
    open spec fn encoded(&self) -> JsonData {
        self@
    }

    fn to_json(&self) -> (r: JsonNode) {
        self.deep_clone()
    }
}

impl FromJson for JsonNode {
    open spec fn decode_rel(j: JsonData, v: Self) -> bool {
        v@ == j
    }

    open spec fn decode_err(j: JsonData) -> Option<JsonError> {
        None
    }

    fn from_json(json: &JsonNode) -> (r: Result<Self, JsonError>) {
        Ok(json.deep_clone())
    }

    proof fn decode_encode(v: Self) {
    }
}

/// The element-wise encodings of a sequence of values.
pub open spec fn seq_enc<T: ToJson>(vs: Seq<T>) -> Seq<JsonData> {
    Seq::new(vs.len(), |i: int| vs[i].encoded())
}

/// The first element-wise decoding error in `els`, if any.
pub open spec fn seq_dec_err<T: FromJson>(els: Seq<JsonData>) -> Option<JsonError>
    decreases els.len(),
{
    if els.len() == 0 {
        None
    } else {
        match T::decode_err(els[0]) {
            Some(e) => Some(e),
            None => seq_dec_err::<T>(els.drop_first()),
        }
    }
}

/// A first element-wise error at `i` is the sequence's error.
pub proof fn lemma_seq_dec_err_at<T: FromJson>(els: Seq<JsonData>, i: int, e: JsonError)
    requires
        0 <= i < els.len(),
        forall|k: int| 0 <= k < i ==> T::decode_err(#[trigger] els[k]) is None,
        T::decode_err(els[i]) == Some(e),
    ensures
        seq_dec_err::<T>(els) == Some(e),
    decreases i,
{
    if i > 0 {
        lemma_seq_dec_err_at::<T>(els.drop_first(), i - 1, e);
    }
}

/// Without element-wise errors the sequence has none.
pub proof fn lemma_seq_dec_err_none<T: FromJson>(els: Seq<JsonData>)
    requires
        forall|k: int| 0 <= k < els.len() ==> T::decode_err(#[trigger] els[k]) is None,
    ensures
        seq_dec_err::<T>(els) is None,
    decreases els.len(),
{
    if els.len() > 0 {
        lemma_seq_dec_err_none::<T>(els.drop_first());
    }
}

impl<T: ToJson> ToJson for Vec<T> {
    open spec fn encoded(&self) -> JsonData {
        JsonData::Array(seq_enc(self@))
    }

    fn to_json(&self) -> (r: JsonNode) {
        let mut items: Vec<JsonNode> = Vec::new();
        let n = self.len();
        let mut i: usize = 0;
        while i < n
            invariant
                n == self@.len(),
                i <= n,
                nodes_data(items@) =~= seq_enc(self@).take(i as int),
            decreases n - i,
        {
            let ghost pre = items@;
            let node = self[i].to_json();
            let ghost nodesnap = node;
            items.push(node);
            proof {
                lemma_nodes_data_push(pre, nodesnap);
                assert(seq_enc(self@).take(i as int + 1) =~= seq_enc(self@).take(i as int).push(
                    seq_enc(self@)[i as int],
                ));
            }
            i = i + 1;
        }
        proof {
            assert(seq_enc(self@).take(n as int) =~= seq_enc(self@));
        }
        JsonNode::Array(items)
    }
}

impl<T: FromJson> FromJson for Vec<T> {
    open spec fn decode_rel(j: JsonData, v: Self) -> bool {
        j matches JsonData::Array(els) && els.len() == v@.len() && (forall|i: int|
            0 <= i < els.len() ==> T::decode_rel(#[trigger] els[i], v@[i]))
    }

    open spec fn decode_err(j: JsonData) -> Option<JsonError> {
        match j {
            JsonData::Array(els) => seq_dec_err::<T>(els),
            _ => Some(JsonError::TypeMismatch),
        }
    }

    fn from_json(json: &JsonNode) -> (r: Result<Self, JsonError>) {
        match json {
            JsonNode::Array(els) => {
                proof {
                    lemma_nodes_data(els@);
                }
                let ghost data = nodes_data(els@);
                let mut out: Vec<T> = Vec::new();
                let n = els.len();
                let mut i: usize = 0;
                while i < n
                    invariant
                        n == els@.len(),
                        i <= n,
                        json@ == JsonData::Array(data),
                        data == nodes_data(els@),
                        data.len() == n,
                        forall|k: int| 0 <= k < n ==> data[k] == els@[k]@,
                        out@.len() == i,
                        forall|k: int| 0 <= k < i ==> T::decode_err(#[trigger] data[k]) is None,
                        forall|k: int| 0 <= k < i ==> T::decode_rel(#[trigger] data[k], out@[k]),
                    decreases n - i,
                {
                    match T::from_json(&els[i]) {
                        Ok(v) => {
                            out.push(v);
                        },
                        Err(e) => {
                            proof {
                                lemma_seq_dec_err_at::<T>(data, i as int, e);
                            }
                            return Err(e);
                        },
                    }
                    i = i + 1;
                }
                proof {
                    lemma_seq_dec_err_none::<T>(data);
                }
                Ok(out)
            },
            _ => Err(JsonError::TypeMismatch),
        }
    }

    proof fn decode_encode(v: Self) {
        let enc = seq_enc(v@);
        assert forall|k: int| 0 <= k < enc.len() implies T::decode_err(#[trigger] enc[k])
            is None && T::decode_rel(enc[k], v@[k]) by {
            T::decode_encode(v@[k]);
        }
        lemma_seq_dec_err_none::<T>(enc);
        assert forall|w: Vec<T>| #[trigger] Self::decode_rel(v.encoded(), w) implies w.encoded()
            == v.encoded() by {
            assert forall|k: int| 0 <= k < w@.len() implies #[trigger] w@[k].encoded()
                == v@[k].encoded() by {
                T::decode_encode(v@[k]);
                assert(T::decode_rel(enc[k], w@[k]));
            }
            assert(seq_enc(w@) =~= seq_enc(v@));
        }
    }
}

/// The entry-wise encodings of a keyed sequence of values.
pub open spec fn map_enc<T: ToJson>(es: Seq<(String, T)>) -> Seq<(Seq<char>, JsonData)> {
    Seq::new(es.len(), |i: int| (es[i].0@, es[i].1.encoded()))
}

/// The first entry-wise decoding error in `es`, if any.
pub open spec fn map_dec_err<T: FromJson>(es: Seq<(Seq<char>, JsonData)>) -> Option<JsonError>
    decreases es.len(),
{
    if es.len() == 0 {
        None
    } else {
        match T::decode_err(es[0].1) {
            Some(e) => Some(e),
            None => map_dec_err::<T>(es.drop_first()),
        }
    }
}

pub proof fn lemma_map_dec_err_at<T: FromJson>(
    es: Seq<(Seq<char>, JsonData)>,
    i: int,
    e: JsonError,
)
    requires
        0 <= i < es.len(),
        forall|k: int| 0 <= k < i ==> T::decode_err(#[trigger] es[k].1) is None,
        T::decode_err(es[i].1) == Some(e),
    ensures
        map_dec_err::<T>(es) == Some(e),
    decreases i,
{
    if i > 0 {
        lemma_map_dec_err_at::<T>(es.drop_first(), i - 1, e);
    }
}

pub proof fn lemma_map_dec_err_none<T: FromJson>(es: Seq<(Seq<char>, JsonData)>)
    requires
        forall|k: int| 0 <= k < es.len() ==> T::decode_err(#[trigger] es[k].1) is None,
    ensures
        map_dec_err::<T>(es) is None,
    decreases es.len(),
{
    if es.len() > 0 {
        lemma_map_dec_err_none::<T>(es.drop_first());
    }
}

/// A string-keyed mapping of encodable values, kept as an ordered entry
/// list: it encodes as an object of recursively encoded members, in entry
/// order.
#[derive(Debug, Clone, PartialEq)]
pub struct JsonMap<T>(pub Vec<(String, T)>);

impl<T: ToJson> ToJson for JsonMap<T> {
    open spec fn encoded(&self) -> JsonData {
        JsonData::Object(map_enc(self.0@))
    }

    fn to_json(&self) -> (r: JsonNode) {
        let mut es: Vec<(String, JsonNode)> = Vec::new();
        let n = self.0.len();
        let mut i: usize = 0;
        while i < n
            invariant
                n == self.0@.len(),
                i <= n,
                entries_data(es@) =~= map_enc(self.0@).take(i as int),
            decreases n - i,
        {
            let ghost pre = es@;
            let entry = &self.0[i];
            let pair = (entry.0.clone(), entry.1.to_json());
            let ghost psnap = pair;
            es.push(pair);
            proof {
                lemma_entries_data_push(pre, psnap);
                assert(map_enc(self.0@).take(i as int + 1) =~= map_enc(self.0@).take(
                    i as int,
                ).push(map_enc(self.0@)[i as int]));
            }
            i = i + 1;
        }
        proof {
            assert(map_enc(self.0@).take(n as int) =~= map_enc(self.0@));
        }
        JsonNode::Object(es)
    }
}

impl<T: FromJson> FromJson for JsonMap<T> {
    open spec fn decode_rel(j: JsonData, v: Self) -> bool {
        j matches JsonData::Object(es) && es.len() == v.0@.len() && (forall|i: int|
            0 <= i < es.len() ==> (#[trigger] es[i]).0 == v.0@[i].0@ && T::decode_rel(
            es[i].1,
            v.0@[i].1,
        ))
    }

    open spec fn decode_err(j: JsonData) -> Option<JsonError> {
        match j {
            JsonData::Object(es) => map_dec_err::<T>(es),
            _ => Some(JsonError::TypeMismatch),
        }
    }

    fn from_json(json: &JsonNode) -> (r: Result<Self, JsonError>) {
        match json {
            JsonNode::Object(es) => {
                proof {
                    lemma_entries_data(es@);
                }
                let ghost data = entries_data(es@);
                let mut out: Vec<(String, T)> = Vec::new();
                let n = es.len();
                let mut i: usize = 0;
                while i < n
                    invariant
                        n == es@.len(),
                        i <= n,
                        json@ == JsonData::Object(data),
                        data == entries_data(es@),
                        data.len() == n,
                        forall|k: int| 0 <= k < n ==> data[k] == (es@[k].0@, es@[k].1@),
                        out@.len() == i,
                        forall|k: int| 0 <= k < i ==> T::decode_err(
                            #[trigger] data[k].1,
                        ) is None,
                        forall|k: int| 0 <= k < i ==> (#[trigger] data[k]).0 == out@[k].0@
                            && T::decode_rel(data[k].1, out@[k].1),
                    decreases n - i,
                {
                    let entry = &es[i];
                    match T::from_json(&entry.1) {
                        Ok(v) => {
                            out.push((entry.0.clone(), v));
                        },
                        Err(e) => {
                            proof {
                                lemma_map_dec_err_at::<T>(data, i as int, e);
                            }
                            return Err(e);
                        },
                    }
                    i = i + 1;
                }
                proof {
                    lemma_map_dec_err_none::<T>(data);
                }
                Ok(JsonMap(out))
            },
            _ => Err(JsonError::TypeMismatch),
        }
    }

    proof fn decode_encode(v: Self) {
        let enc = map_enc(v.0@);
        assert forall|k: int| 0 <= k < enc.len() implies T::decode_err(
            #[trigger] enc[k].1,
        ) is None && T::decode_rel(enc[k].1, v.0@[k].1) by {
            T::decode_encode(v.0@[k].1);
        }
        lemma_map_dec_err_none::<T>(enc);
        assert forall|w: JsonMap<T>| #[trigger] Self::decode_rel(v.encoded(), w) implies w.encoded()
            == v.encoded() by {
            assert forall|k: int| 0 <= k < w.0@.len() implies (
            #[trigger] map_enc(w.0@)[k]) == map_enc(v.0@)[k] by {
                T::decode_encode(v.0@[k].1);
                assert(enc[k].0 == w.0@[k].0@ && T::decode_rel(enc[k].1, w.0@[k].1));
            }
            assert(map_enc(w.0@) =~= map_enc(v.0@));
        }
    }
}

/// A record with named fields: encoded as an object keyed by field name.
#[derive(Debug, Clone, PartialEq)]
pub struct TestStruct {
    pub field1: i64,
    pub field2: JsonNumber,
    pub field3: String,
}

impl ToJson for TestStruct {
    open spec fn encoded(&self) -> JsonData {
        JsonData::Object(
            seq![
                ("field1"@, self.field1.encoded()),
                ("field2"@, self.field2.encoded()),
                ("field3"@, self.field3.encoded()),
            ],
        )
    }

    fn to_json(&self) -> (r: JsonNode) {
        let mut es: Vec<(String, JsonNode)> = Vec::new();
        es.push((String::from_str("field1"), self.field1.to_json()));
        es.push((String::from_str("field2"), self.field2.to_json()));
        es.push((String::from_str("field3"), self.field3.to_json()));
        proof {
            lemma_entries_data(es@);
            assert(entries_data(es@) =~= seq![
                ("field1"@, self.field1.encoded()),
                ("field2"@, self.field2.encoded()),
                ("field3"@, self.field3.encoded()),
            ]);
        }
        JsonNode::Object(es)
    }
}

impl FromJson for TestStruct {
    open spec fn decode_rel(j: JsonData, v: Self) -> bool {
        match j {
            JsonData::Object(es) => {
                &&& (spec_obj_get(es, "field1"@) matches Some(j1) && i64::decode_rel(j1, v.field1))
                &&& (spec_obj_get(es, "field2"@) matches Some(j2) && JsonNumber::decode_rel(
                    j2,
                    v.field2,
                ))
                &&& (spec_obj_get(es, "field3"@) matches Some(j3) && String::decode_rel(
                    j3,
                    v.field3,
                ))
            },
            _ => false,
        }
    }

    open spec fn decode_err(j: JsonData) -> Option<JsonError> {
        match j {
            JsonData::Object(es) => match spec_obj_get(es, "field1"@) {
                None => Some(JsonError::KeyNotFound),
                Some(j1) => match i64::decode_err(j1) {
                    Some(e) => Some(e),
                    None => match spec_obj_get(es, "field2"@) {
                        None => Some(JsonError::KeyNotFound),
                        Some(j2) => match JsonNumber::decode_err(j2) {
                            Some(e) => Some(e),
                            None => match spec_obj_get(es, "field3"@) {
                                None => Some(JsonError::KeyNotFound),
                                Some(j3) => String::decode_err(j3),
                            },
                        },
                    },
                },
            },
            _ => Some(JsonError::TypeMismatch),
        }
    }

    fn from_json(json: &JsonNode) -> (r: Result<Self, JsonError>) {
        let j1 = match json.index_key("field1") {
            Ok(node) => node,
            Err(e) => {
                return Err(e);
            },
        };
        let field1 = match i64::from_json(j1) {
            Ok(v) => v,
            Err(e) => {
                return Err(e);
            },
        };
        let j2 = match json.index_key("field2") {
            Ok(node) => node,
            Err(e) => {
                return Err(e);
            },
        };
        let field2 = match JsonNumber::from_json(j2) {
            Ok(v) => v,
            Err(e) => {
                return Err(e);
            },
        };
        let j3 = match json.index_key("field3") {
            Ok(node) => node,
            Err(e) => {
                return Err(e);
            },
        };
        let field3 = match String::from_json(j3) {
            Ok(v) => v,
            Err(e) => {
                return Err(e);
            },
        };
        Ok(TestStruct { field1, field2, field3 })
    }

    proof fn decode_encode(v: Self) {
        reveal_strlit("field1");
        reveal_strlit("field2");
        reveal_strlit("field3");
        reveal_with_fuel(crate::json_basic::spec_obj_get, 4);
        assert("field1"@[5] == '1' && "field2"@[5] == '2' && "field3"@[5] == '3');
        let es = seq![
            ("field1"@, v.field1.encoded()),
            ("field2"@, v.field2.encoded()),
            ("field3"@, v.field3.encoded()),
        ];
        assert(es.drop_first() =~= seq![
            ("field2"@, v.field2.encoded()),
            ("field3"@, v.field3.encoded()),
        ]);
        assert(es.drop_first().drop_first() =~= seq![("field3"@, v.field3.encoded())]);
        assert(spec_obj_get(es, "field1"@) == Some(v.field1.encoded()));
        assert(spec_obj_get(es, "field2"@) == Some(v.field2.encoded()));
        assert(spec_obj_get(es, "field3"@) == Some(v.field3.encoded()));
        i64::decode_encode(v.field1);
        JsonNumber::decode_encode(v.field2);
        String::decode_encode(v.field3);
        assert forall|w: Self| #[trigger] Self::decode_rel(v.encoded(), w) implies w.encoded()
            == v.encoded() by {
            assert(i64::decode_rel(v.field1.encoded(), w.field1));
            assert(JsonNumber::decode_rel(v.field2.encoded(), w.field2));
            assert(String::decode_rel(v.field3.encoded(), w.field3));
            assert(w.encoded() =~= v.encoded());
        }
    }
}

/// A record holding another record: nesting composes encodings.
#[derive(Debug, Clone, PartialEq)]
pub struct TestStruct2 {
    pub field1: i64,
    pub field2: TestStruct,
}

impl ToJson for TestStruct2 {
    open spec fn encoded(&self) -> JsonData {
        JsonData::Object(
            seq![("field1"@, self.field1.encoded()), ("field2"@, self.field2.encoded())],
        )
    }

    fn to_json(&self) -> (r: JsonNode) {
        let mut es: Vec<(String, JsonNode)> = Vec::new();
        es.push((String::from_str("field1"), self.field1.to_json()));
        es.push((String::from_str("field2"), self.field2.to_json()));
        proof {
            lemma_entries_data(es@);
            assert(entries_data(es@) =~= seq![
                ("field1"@, self.field1.encoded()),
                ("field2"@, self.field2.encoded()),
            ]);
        }
        JsonNode::Object(es)
    }
}

impl FromJson for TestStruct2 {
    open spec fn decode_rel(j: JsonData, v: Self) -> bool {
        match j {
            JsonData::Object(es) => {
                &&& (spec_obj_get(es, "field1"@) matches Some(j1) && i64::decode_rel(j1, v.field1))
                &&& (spec_obj_get(es, "field2"@) matches Some(j2) && TestStruct::decode_rel(
                    j2,
                    v.field2,
                ))
            },
            _ => false,
        }
    }

    open spec fn decode_err(j: JsonData) -> Option<JsonError> {
        match j {
            JsonData::Object(es) => match spec_obj_get(es, "field1"@) {
                None => Some(JsonError::KeyNotFound),
                Some(j1) => match i64::decode_err(j1) {
                    Some(e) => Some(e),
                    None => match spec_obj_get(es, "field2"@) {
                        None => Some(JsonError::KeyNotFound),
                        Some(j2) => TestStruct::decode_err(j2),
                    },
                },
            },
            _ => Some(JsonError::TypeMismatch),
        }
    }

    fn from_json(json: &JsonNode) -> (r: Result<Self, JsonError>) {
        let j1 = match json.index_key("field1") {
            Ok(node) => node,
            Err(e) => {
                return Err(e);
            },
        };
        let field1 = match i64::from_json(j1) {
            Ok(v) => v,
            Err(e) => {
                return Err(e);
            },
        };
        let j2 = match json.index_key("field2") {
            Ok(node) => node,
            Err(e) => {
                return Err(e);
            },
        };
        let field2 = match TestStruct::from_json(j2) {
            Ok(v) => v,
            Err(e) => {
                return Err(e);
            },
        };
        Ok(TestStruct2 { field1, field2 })
    }

    proof fn decode_encode(v: Self) {
        reveal_strlit("field1");
        reveal_strlit("field2");
        reveal_with_fuel(crate::json_basic::spec_obj_get, 3);
        assert("field1"@[5] == '1' && "field2"@[5] == '2');
        let es = seq![("field1"@, v.field1.encoded()), ("field2"@, v.field2.encoded())];
        assert(es.drop_first() =~= seq![("field2"@, v.field2.encoded())]);
        assert(spec_obj_get(es, "field1"@) == Some(v.field1.encoded()));
        assert(spec_obj_get(es, "field2"@) == Some(v.field2.encoded()));
        i64::decode_encode(v.field1);
        TestStruct::decode_encode(v.field2);
        assert forall|w: Self| #[trigger] Self::decode_rel(v.encoded(), w) implies w.encoded()
            == v.encoded() by {
            assert(i64::decode_rel(v.field1.encoded(), w.field1));
            assert(TestStruct::decode_rel(v.field2.encoded(), w.field2));
            assert(w.encoded() =~= v.encoded());
        }
    }
}

/// A positional composite: encoded as an array, decoded with an exact
/// arity check.
#[derive(Debug, Clone, PartialEq)]
pub struct TpType(pub i64, pub i64, pub JsonNumber);

impl ToJson for TpType {
    open spec fn encoded(&self) -> JsonData {
        JsonData::Array(seq![self.0.encoded(), self.1.encoded(), self.2.encoded()])
    }

    fn to_json(&self) -> (r: JsonNode) {
        let mut items: Vec<JsonNode> = Vec::new();
        items.push(self.0.to_json());
        items.push(self.1.to_json());
        items.push(self.2.to_json());
        proof {
            lemma_nodes_data(items@);
            assert(nodes_data(items@) =~= seq![
                self.0.encoded(),
                self.1.encoded(),
                self.2.encoded(),
            ]);
        }
        JsonNode::Array(items)
    }
}

impl FromJson for TpType {
    open spec fn decode_rel(j: JsonData, v: Self) -> bool {
        match j {
            JsonData::Array(ps) => ps.len() == 3 && i64::decode_rel(ps[0], v.0)
                && i64::decode_rel(ps[1], v.1) && JsonNumber::decode_rel(ps[2], v.2),
            _ => false,
        }
    }

    open spec fn decode_err(j: JsonData) -> Option<JsonError> {
        match j {
            JsonData::Array(ps) => if ps.len() != 3 {
                Some(JsonError::ArityMismatch)
            } else {
                match i64::decode_err(ps[0]) {
                    Some(e) => Some(e),
                    None => match i64::decode_err(ps[1]) {
                        Some(e) => Some(e),
                        None => JsonNumber::decode_err(ps[2]),
                    },
                }
            },
            _ => Some(JsonError::TypeMismatch),
        }
    }

    fn from_json(json: &JsonNode) -> (r: Result<Self, JsonError>) {
        match json {
            JsonNode::Array(ps) => {
                proof {
                    lemma_nodes_data(ps@);
                }
                if ps.len() != 3 {
                    return Err(JsonError::ArityMismatch);
                }
                let p0 = match i64::from_json(&ps[0]) {
                    Ok(v) => v,
                    Err(e) => {
                        return Err(e);
                    },
                };
                let p1 = match i64::from_json(&ps[1]) {
                    Ok(v) => v,
                    Err(e) => {
                        return Err(e);
                    },
                };
                let p2 = match JsonNumber::from_json(&ps[2]) {
                    Ok(v) => v,
                    Err(e) => {
                        return Err(e);
                    },
                };
                Ok(TpType(p0, p1, p2))
            },
            _ => Err(JsonError::TypeMismatch),
        }
    }

    proof fn decode_encode(v: Self) {
        i64::decode_encode(v.0);
        i64::decode_encode(v.1);
        JsonNumber::decode_encode(v.2);
        assert forall|w: Self| #[trigger] Self::decode_rel(v.encoded(), w) implies w.encoded()
            == v.encoded() by {
            assert(i64::decode_rel(v.0.encoded(), w.0));
            assert(i64::decode_rel(v.1.encoded(), w.1));
            assert(JsonNumber::decode_rel(v.2.encoded(), w.2));
            assert(w.encoded() =~= v.encoded());
        }
    }
}

/// A two-field positional composite.
#[derive(Debug, Clone, PartialEq)]
pub struct Pair(pub i64, pub JsonNumber);

impl ToJson for Pair {
    open spec fn encoded(&self) -> JsonData {
        JsonData::Array(seq![self.0.encoded(), self.1.encoded()])
    }

    fn to_json(&self) -> (r: JsonNode) {
        let mut items: Vec<JsonNode> = Vec::new();
        items.push(self.0.to_json());
        items.push(self.1.to_json());
        proof {
            lemma_nodes_data(items@);
            assert(nodes_data(items@) =~= seq![self.0.encoded(), self.1.encoded()]);
        }
        JsonNode::Array(items)
    }
}

impl FromJson for Pair {
    open spec fn decode_rel(j: JsonData, v: Self) -> bool {
        match j {
            JsonData::Array(ps) => ps.len() == 2 && i64::decode_rel(ps[0], v.0)
                && JsonNumber::decode_rel(ps[1], v.1),
            _ => false,
        }
    }

    open spec fn decode_err(j: JsonData) -> Option<JsonError> {
        match j {
            JsonData::Array(ps) => if ps.len() != 2 {
                Some(JsonError::ArityMismatch)
            } else {
                match i64::decode_err(ps[0]) {
                    Some(e) => Some(e),
                    None => JsonNumber::decode_err(ps[1]),
                }
            },
            _ => Some(JsonError::TypeMismatch),
        }
    }

    fn from_json(json: &JsonNode) -> (r: Result<Self, JsonError>) {
        match json {
            JsonNode::Array(ps) => {
                proof {
                    lemma_nodes_data(ps@);
                }
                if ps.len() != 2 {
                    return Err(JsonError::ArityMismatch);
                }
                let p0 = match i64::from_json(&ps[0]) {
                    Ok(v) => v,
                    Err(e) => {
                        return Err(e);
                    },
                };
                let p1 = match JsonNumber::from_json(&ps[1]) {
                    Ok(v) => v,
                    Err(e) => {
                        return Err(e);
                    },
                };
                Ok(Pair(p0, p1))
            },
            _ => Err(JsonError::TypeMismatch),
        }
    }

    proof fn decode_encode(v: Self) {
        i64::decode_encode(v.0);
        JsonNumber::decode_encode(v.1);
        assert forall|w: Self| #[trigger] Self::decode_rel(v.encoded(), w) implies w.encoded()
            == v.encoded() by {
            assert(i64::decode_rel(v.0.encoded(), w.0));
            assert(JsonNumber::decode_rel(v.1.encoded(), w.1));
            assert(w.encoded() =~= v.encoded());
        }
    }
}

/// A tagged union covering the four payload shapes: none, one unnamed,
/// several unnamed, and named fields.  A variant encodes as an object whose
/// `"type"` entry names it; any payload stands under `"value"`.
#[derive(Debug, Clone, PartialEq)]
pub enum TestEnum {
    Variant0,
    Variant1(),
    Variant2(String),
    Variant3(i64, JsonNumber),
    Variant4 { field1: i64, field2: JsonNumber },
}

impl Default for TestEnum {
    /// The default variant carries no payload.
    fn default() -> (r: TestEnum)
        ensures
            r == TestEnum::Variant0,
    {
        TestEnum::Variant0
    }
}

/// The encoding of a no-payload variant: only the `"type"` entry.
pub open spec fn enc_tag_only(name: Seq<char>) -> JsonData {
    JsonData::Object(seq![("type"@, JsonData::Text(name))])
}

/// The encoding of a variant with a payload under `"value"`.
pub open spec fn enc_tag_value(name: Seq<char>, payload: JsonData) -> JsonData {
    JsonData::Object(seq![("type"@, JsonData::Text(name)), ("value"@, payload)])
}

impl ToJson for TestEnum {
    open spec fn encoded(&self) -> JsonData {
        match self {
            TestEnum::Variant0 => enc_tag_only("Variant0"@),
            TestEnum::Variant1() => enc_tag_only("Variant1"@),
            TestEnum::Variant2(s) => enc_tag_value("Variant2"@, s.encoded()),
            TestEnum::Variant3(a, b) => enc_tag_value(
                "Variant3"@,
                JsonData::Array(seq![a.encoded(), b.encoded()]),
            ),
            TestEnum::Variant4 { field1, field2 } => enc_tag_value(
                "Variant4"@,
                JsonData::Object(
                    seq![("field1"@, field1.encoded()), ("field2"@, field2.encoded())],
                ),
            ),
        }
    }

    fn to_json(&self) -> (r: JsonNode) {
        match self {
            TestEnum::Variant0 => {
                let mut es: Vec<(String, JsonNode)> = Vec::new();
                es.push((String::from_str("type"), JsonNode::Text(String::from_str("Variant0"))));
                proof {
                    lemma_entries_data(es@);
                    assert(entries_data(es@) =~= seq![("type"@, JsonData::Text("Variant0"@))]);
                }
                JsonNode::Object(es)
            },
            TestEnum::Variant1() => {
                let mut es: Vec<(String, JsonNode)> = Vec::new();
                es.push((String::from_str("type"), JsonNode::Text(String::from_str("Variant1"))));
                proof {
                    lemma_entries_data(es@);
                    assert(entries_data(es@) =~= seq![("type"@, JsonData::Text("Variant1"@))]);
                }
                JsonNode::Object(es)
            },
            TestEnum::Variant2(s) => {
                let mut es: Vec<(String, JsonNode)> = Vec::new();
                es.push((String::from_str("type"), JsonNode::Text(String::from_str("Variant2"))));
                es.push((String::from_str("value"), s.to_json()));
                proof {
                    lemma_entries_data(es@);
                    assert(entries_data(es@) =~= seq![
                        ("type"@, JsonData::Text("Variant2"@)),
                        ("value"@, s.encoded()),
                    ]);
                }
                JsonNode::Object(es)
            },
            TestEnum::Variant3(a, b) => {
                let mut items: Vec<JsonNode> = Vec::new();
                items.push(a.to_json());
                items.push(b.to_json());
                proof {
                    lemma_nodes_data(items@);
                    assert(nodes_data(items@) =~= seq![a.encoded(), b.encoded()]);
                }
                let mut es: Vec<(String, JsonNode)> = Vec::new();
                es.push((String::from_str("type"), JsonNode::Text(String::from_str("Variant3"))));
                es.push((String::from_str("value"), JsonNode::Array(items)));
                proof {
                    lemma_entries_data(es@);
                    assert(entries_data(es@) =~= seq![
                        ("type"@, JsonData::Text("Variant3"@)),
                        ("value"@, JsonData::Array(seq![a.encoded(), b.encoded()])),
                    ]);
                }
                JsonNode::Object(es)
            },
            TestEnum::Variant4 { field1, field2 } => {
                let mut fs: Vec<(String, JsonNode)> = Vec::new();
                fs.push((String::from_str("field1"), field1.to_json()));
                fs.push((String::from_str("field2"), field2.to_json()));
                proof {
                    lemma_entries_data(fs@);
                    assert(entries_data(fs@) =~= seq![
                        ("field1"@, field1.encoded()),
                        ("field2"@, field2.encoded()),
                    ]);
                }
                let mut es: Vec<(String, JsonNode)> = Vec::new();
                es.push((String::from_str("type"), JsonNode::Text(String::from_str("Variant4"))));
                es.push((String::from_str("value"), JsonNode::Object(fs)));
                proof {
                    lemma_entries_data(es@);
                    assert(entries_data(es@) =~= seq![
                        ("type"@, JsonData::Text("Variant4"@)),
                        (
                            "value"@,
                            JsonData::Object(
                                seq![
                                    ("field1"@, field1.encoded()),
                                    ("field2"@, field2.encoded()),
                                ],
                            ),
                        ),
                    ]);
                }
                JsonNode::Object(es)
            },
        }
    }
}

impl FromJson for TestEnum {
    open spec fn decode_rel(j: JsonData, v: Self) -> bool {
        match j {
            JsonData::Object(es) => match spec_obj_get(es, "type"@) {
                Some(JsonData::Text(tn)) => if tn == "Variant0"@ {
                    v == TestEnum::Variant0
                } else if tn == "Variant1"@ {
                    v == TestEnum::Variant1()
                } else if tn == "Variant2"@ {
                    spec_obj_get(es, "value"@) matches Some(jv) && (v matches TestEnum::Variant2(
                        s,
                    ) && String::decode_rel(jv, s))
                } else if tn == "Variant3"@ {
                    spec_obj_get(es, "value"@) matches Some(jv) && (jv matches JsonData::Array(ps)
                        && ps.len() == 2 && (v matches TestEnum::Variant3(a, b)
                        && i64::decode_rel(ps[0], a) && JsonNumber::decode_rel(ps[1], b)))
                } else if tn == "Variant4"@ {
                    spec_obj_get(es, "value"@) matches Some(jv) && (jv matches JsonData::Object(fs)
                        && (spec_obj_get(fs, "field1"@) matches Some(f1) && (spec_obj_get(
                        fs,
                        "field2"@,
                    ) matches Some(f2) && (v matches TestEnum::Variant4 { field1, field2 }
                        && i64::decode_rel(f1, field1) && JsonNumber::decode_rel(f2, field2)))))
                } else {
                    false
                },
                _ => false,
            },
            _ => false,
        }
    }

    open spec fn decode_err(j: JsonData) -> Option<JsonError> {
        match j {
            JsonData::Object(es) => match spec_obj_get(es, "type"@) {
                Some(JsonData::Text(tn)) => if tn == "Variant0"@ || tn == "Variant1"@ {
                    None
                } else if tn == "Variant2"@ {
                    match spec_obj_get(es, "value"@) {
                        None => Some(JsonError::KeyNotFound),
                        Some(jv) => String::decode_err(jv),
                    }
                } else if tn == "Variant3"@ {
                    match spec_obj_get(es, "value"@) {
                        None => Some(JsonError::KeyNotFound),
                        Some(jv) => match jv {
                            JsonData::Array(ps) => if ps.len() != 2 {
                                Some(JsonError::ArityMismatch)
                            } else {
                                match i64::decode_err(ps[0]) {
                                    Some(e) => Some(e),
                                    None => JsonNumber::decode_err(ps[1]),
                                }
                            },
                            _ => Some(JsonError::TypeMismatch),
                        },
                    }
                } else if tn == "Variant4"@ {
                    match spec_obj_get(es, "value"@) {
                        None => Some(JsonError::KeyNotFound),
                        Some(jv) => match jv {
                            JsonData::Object(fs) => match spec_obj_get(fs, "field1"@) {
                                None => Some(JsonError::KeyNotFound),
                                Some(f1) => match i64::decode_err(f1) {
                                    Some(e) => Some(e),
                                    None => match spec_obj_get(fs, "field2"@) {
                                        None => Some(JsonError::KeyNotFound),
                                        Some(f2) => JsonNumber::decode_err(f2),
                                    },
                                },
                            },
                            _ => Some(JsonError::TypeMismatch),
                        },
                    }
                } else {
                    Some(JsonError::UnknownVariant)
                },
                _ => Some(JsonError::UnknownVariant),
            },
            _ => Some(JsonError::TypeMismatch),
        }
    }

    #[verifier::rlimit(100)]
    fn from_json(json: &JsonNode) -> (r: Result<Self, JsonError>) {
        let tag = match json.index_key("type") {
            Ok(node) => node,
            Err(JsonError::KeyNotFound) => {
                return Err(JsonError::UnknownVariant);
            },
            Err(e) => {
                return Err(e);
            },
        };
        let tn = match tag {
            JsonNode::Text(s) => s,
            _ => {
                return Err(JsonError::UnknownVariant);
            },
        };
        if str_eq(tn.as_str(), "Variant0") {
            Ok(TestEnum::Variant0)
        } else if str_eq(tn.as_str(), "Variant1") {
            Ok(TestEnum::Variant1())
        } else if str_eq(tn.as_str(), "Variant2") {
            let jv = match json.index_key("value") {
                Ok(node) => node,
                Err(e) => {
                    return Err(e);
                },
            };
            match String::from_json(jv) {
                Ok(s) => Ok(TestEnum::Variant2(s)),
                Err(e) => Err(e),
            }
        } else if str_eq(tn.as_str(), "Variant3") {
            let jv = match json.index_key("value") {
                Ok(node) => node,
                Err(e) => {
                    return Err(e);
                },
            };
            match jv {
                JsonNode::Array(ps) => {
                    proof {
                        lemma_nodes_data(ps@);
                    }
                    if ps.len() != 2 {
                        return Err(JsonError::ArityMismatch);
                    }
                    let a = match i64::from_json(&ps[0]) {
                        Ok(v) => v,
                        Err(e) => {
                            return Err(e);
                        },
                    };
                    let b = match JsonNumber::from_json(&ps[1]) {
                        Ok(v) => v,
                        Err(e) => {
                            return Err(e);
                        },
                    };
                    Ok(TestEnum::Variant3(a, b))
                },
                _ => Err(JsonError::TypeMismatch),
            }
        } else if str_eq(tn.as_str(), "Variant4") {
            let jv = match json.index_key("value") {
                Ok(node) => node,
                Err(e) => {
                    return Err(e);
                },
            };
            let f1 = match jv.index_key("field1") {
                Ok(node) => node,
                Err(e) => {
                    return Err(e);
                },
            };
            let field1 = match i64::from_json(f1) {
                Ok(v) => v,
                Err(e) => {
                    return Err(e);
                },
            };
            let f2 = match jv.index_key("field2") {
                Ok(node) => node,
                Err(e) => {
                    return Err(e);
                },
            };
            let field2 = match JsonNumber::from_json(f2) {
                Ok(v) => v,
                Err(e) => {
                    return Err(e);
                },
            };
            Ok(TestEnum::Variant4 { field1, field2 })
        } else {
            Err(JsonError::UnknownVariant)
        }
    }

    proof fn decode_encode(v: Self) {
        reveal_strlit("type");
        reveal_strlit("value");
        reveal_strlit("field1");
        reveal_strlit("field2");
        reveal_strlit("Variant0");
        reveal_strlit("Variant1");
        reveal_strlit("Variant2");
        reveal_strlit("Variant3");
        reveal_strlit("Variant4");
        reveal_with_fuel(crate::json_basic::spec_obj_get, 4);
        assert("type"@[0] == 't' && "value"@[0] == 'v');
        assert("field1"@[5] == '1' && "field2"@[5] == '2');
        assert("Variant0"@[7] == '0' && "Variant1"@[7] == '1' && "Variant2"@[7] == '2'
            && "Variant3"@[7] == '3' && "Variant4"@[7] == '4');
        match v {
            TestEnum::Variant0 => {
            },
            TestEnum::Variant1() => {
            },
            TestEnum::Variant2(s) => {
                let es = seq![("type"@, JsonData::Text("Variant2"@)), ("value"@, s.encoded())];
                assert(es.drop_first() =~= seq![("value"@, s.encoded())]);
                assert(spec_obj_get(es, "value"@) == Some(s.encoded()));
                String::decode_encode(s);
            },
            TestEnum::Variant3(a, b) => {
                let payload = JsonData::Array(seq![a.encoded(), b.encoded()]);
                let es = seq![("type"@, JsonData::Text("Variant3"@)), ("value"@, payload)];
                assert(es.drop_first() =~= seq![("value"@, payload)]);
                assert(spec_obj_get(es, "value"@) == Some(payload));
                i64::decode_encode(a);
                JsonNumber::decode_encode(b);
            },
            TestEnum::Variant4 { field1, field2 } => {
                let fs = seq![("field1"@, field1.encoded()), ("field2"@, field2.encoded())];
                let payload = JsonData::Object(fs);
                let es = seq![("type"@, JsonData::Text("Variant4"@)), ("value"@, payload)];
                assert(es.drop_first() =~= seq![("value"@, payload)]);
                assert(spec_obj_get(es, "value"@) == Some(payload));
                assert(fs.drop_first() =~= seq![("field2"@, field2.encoded())]);
                assert(spec_obj_get(fs, "field1"@) == Some(field1.encoded()));
                assert(spec_obj_get(fs, "field2"@) == Some(field2.encoded()));
                i64::decode_encode(field1);
                JsonNumber::decode_encode(field2);
            },
        }
        assert forall|w: Self| #[trigger] Self::decode_rel(v.encoded(), w) implies w.encoded()
            == v.encoded() by {
            match v {
                TestEnum::Variant0 => {
                },
                TestEnum::Variant1() => {
                },
                TestEnum::Variant2(s) => {
                    assert(w matches TestEnum::Variant2(ws) && String::decode_rel(
                        s.encoded(),
                        ws,
                    ));
                    assert(w.encoded() =~= v.encoded());
                },
                TestEnum::Variant3(a, b) => {
                    assert(w matches TestEnum::Variant3(wa, wb) && i64::decode_rel(
                        a.encoded(),
                        wa,
                    ) && JsonNumber::decode_rel(b.encoded(), wb));
                    assert(w.encoded() =~= v.encoded());
                },
                TestEnum::Variant4 { field1, field2 } => {
                    assert(w matches TestEnum::Variant4 { field1: w1, field2: w2 }
                        && i64::decode_rel(field1.encoded(), w1) && JsonNumber::decode_rel(
                        field2.encoded(),
                        w2,
                    ));
                    assert(w.encoded() =~= v.encoded());
                },
            }
        }
    }
}

/// A small tagged union: a no-payload variant named `Idle` and one variant
/// with a single payload.
#[derive(Debug, Clone, PartialEq)]
pub enum Mode {
    Idle,
    Level(i64),
}

impl ToJson for Mode {
    open spec fn encoded(&self) -> JsonData {
        match self {
            Mode::Idle => enc_tag_only("Idle"@),
            Mode::Level(n) => enc_tag_value("Level"@, n.encoded()),
        }
    }

    fn to_json(&self) -> (r: JsonNode) {
        match self {
            Mode::Idle => {
                let mut es: Vec<(String, JsonNode)> = Vec::new();
                es.push((String::from_str("type"), JsonNode::Text(String::from_str("Idle"))));
                proof {
                    lemma_entries_data(es@);
                    assert(entries_data(es@) =~= seq![("type"@, JsonData::Text("Idle"@))]);
                }
                JsonNode::Object(es)
            },
            Mode::Level(n) => {
                let mut es: Vec<(String, JsonNode)> = Vec::new();
                es.push((String::from_str("type"), JsonNode::Text(String::from_str("Level"))));
                es.push((String::from_str("value"), n.to_json()));
                proof {
                    lemma_entries_data(es@);
                    assert(entries_data(es@) =~= seq![
                        ("type"@, JsonData::Text("Level"@)),
                        ("value"@, n.encoded()),
                    ]);
                }
                JsonNode::Object(es)
            },
        }
    }
}

impl FromJson for Mode {
    open spec fn decode_rel(j: JsonData, v: Self) -> bool {
        match j {
            JsonData::Object(es) => match spec_obj_get(es, "type"@) {
                Some(JsonData::Text(tn)) => if tn == "Idle"@ {
                    v == Mode::Idle
                } else if tn == "Level"@ {
                    spec_obj_get(es, "value"@) matches Some(jv) && (v matches Mode::Level(n)
                        && i64::decode_rel(jv, n))
                } else {
                    false
                },
                _ => false,
            },
            _ => false,
        }
    }

    open spec fn decode_err(j: JsonData) -> Option<JsonError> {
        match j {
            JsonData::Object(es) => match spec_obj_get(es, "type"@) {
                Some(JsonData::Text(tn)) => if tn == "Idle"@ {
                    None
                } else if tn == "Level"@ {
                    match spec_obj_get(es, "value"@) {
                        None => Some(JsonError::KeyNotFound),
                        Some(jv) => i64::decode_err(jv),
                    }
                } else {
                    Some(JsonError::UnknownVariant)
                },
                _ => Some(JsonError::UnknownVariant),
            },
            _ => Some(JsonError::TypeMismatch),
        }
    }

    fn from_json(json: &JsonNode) -> (r: Result<Self, JsonError>) {
        let tag = match json.index_key("type") {
            Ok(node) => node,
            Err(JsonError::KeyNotFound) => {
                return Err(JsonError::UnknownVariant);
            },
            Err(e) => {
                return Err(e);
            },
        };
        let tn = match tag {
            JsonNode::Text(s) => s,
            _ => {
                return Err(JsonError::UnknownVariant);
            },
        };
        if str_eq(tn.as_str(), "Idle") {
            Ok(Mode::Idle)
        } else if str_eq(tn.as_str(), "Level") {
            let jv = match json.index_key("value") {
                Ok(node) => node,
                Err(e) => {
                    return Err(e);
                },
            };
            match i64::from_json(jv) {
                Ok(n) => Ok(Mode::Level(n)),
                Err(e) => Err(e),
            }
        } else {
            Err(JsonError::UnknownVariant)
        }
    }

    proof fn decode_encode(v: Self) {
        reveal_strlit("type");
        reveal_strlit("value");
        reveal_strlit("Idle");
        reveal_strlit("Level");
        reveal_with_fuel(crate::json_basic::spec_obj_get, 3);
        assert("type"@[0] == 't' && "value"@[0] == 'v');
        assert("Idle"@[0] == 'I' && "Level"@[0] == 'L');
        match v {
            Mode::Idle => {
            },
            Mode::Level(n) => {
                let es = seq![("type"@, JsonData::Text("Level"@)), ("value"@, n.encoded())];
                assert(es.drop_first() =~= seq![("value"@, n.encoded())]);
                assert(spec_obj_get(es, "value"@) == Some(n.encoded()));
                i64::decode_encode(n);
            },
        }
        assert forall|w: Self| #[trigger] Self::decode_rel(v.encoded(), w) implies w.encoded()
            == v.encoded() by {
            match v {
                Mode::Idle => {
                },
                Mode::Level(n) => {
                    assert(w matches Mode::Level(wn) && i64::decode_rel(n.encoded(), wn));
                    assert(w.encoded() =~= v.encoded());
                },
            }
        }
    }
}

} // verus!
