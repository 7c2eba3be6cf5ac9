//! The value tree and its mathematical model.
//!
//! `JsonNode` is the executable tree; `JsonData` is its spec-level view, a
//! pure datatype over `Seq`.  Objects are kept as ordered key/value entry
//! lists with unique keys, so member order is insertion order and dumps are
//! deterministic.

use vstd::prelude::*;
use crate::json_number::JsonNumber;
use crate::json_number::is_number_text;

verus! {

/// The spec-level value tree.
#[verifier::ext_equal]
pub enum JsonData {
    Object(Seq<(Seq<char>, JsonData)>),
    Array(Seq<JsonData>),
    Text(Seq<char>),
    Number(Seq<char>),
    Boolean(bool),
    Null,
}

/// The value tree: one node is exactly one of the six JSON shapes.
#[derive(Debug, PartialEq)]
pub enum JsonNode {
    Object(Vec<(String, JsonNode)>),
    Array(Vec<JsonNode>),
    Text(String),
    Number(JsonNumber),
    Boolean(bool),
    Null,
}

/// View of an array node's elements.
pub open spec fn nodes_data(ns: Seq<JsonNode>) -> Seq<JsonData>
    decreases ns,
{
    if ns.len() == 0 {
        Seq::empty()
    } else {
        nodes_data(ns.drop_last()).push(node_data(ns.last()))
    }
}

/// View of an object node's entry list.
pub open spec fn entries_data(es: Seq<(String, JsonNode)>) -> Seq<(Seq<char>, JsonData)>
    decreases es,
{
    if es.len() == 0 {
        Seq::empty()
    } else {
        entries_data(es.drop_last()).push((es.last().0@, node_data(es.last().1)))
    }
}

/// View of one node.
pub open spec fn node_data(n: JsonNode) -> JsonData
    decreases n,
{
    match n {
        JsonNode::Object(es) => JsonData::Object(entries_data(es@)),
        JsonNode::Array(ns) => JsonData::Array(nodes_data(ns@)),
        JsonNode::Text(s) => JsonData::Text(s@),
        JsonNode::Number(num) => JsonData::Number(num@),
        JsonNode::Boolean(b) => JsonData::Boolean(b),
        JsonNode::Null => JsonData::Null,
    }
}

impl View for JsonNode {
    type V = JsonData;

    open spec fn view(&self) -> JsonData {
        node_data(*self)
    }
}

pub proof fn lemma_nodes_data(ns: Seq<JsonNode>)
    ensures
        nodes_data(ns).len() == ns.len(),
        forall|i: int| 0 <= i < ns.len() ==> nodes_data(ns)[i] == node_data(ns[i]),
    decreases ns.len(),
{
    if ns.len() > 0 {
        lemma_nodes_data(ns.drop_last());
    }
}

pub proof fn lemma_entries_data(es: Seq<(String, JsonNode)>)
    ensures
        entries_data(es).len() == es.len(),
        forall|i: int| 0 <= i < es.len() ==> entries_data(es)[i]
            == (es[i].0@, node_data(es[i].1)),
    decreases es.len(),
{
    if es.len() > 0 {
        lemma_entries_data(es.drop_last());
    }
}

/// No two entries share a key.
pub open spec fn keys_unique(es: Seq<(Seq<char>, JsonData)>) -> bool {
    forall|i: int, j: int| 0 <= i < j < es.len() ==> es[i].0 != es[j].0
}

pub proof fn lemma_nodes_data_push(ns: Seq<JsonNode>, n: JsonNode)
    ensures
        nodes_data(ns.push(n)) =~= nodes_data(ns).push(node_data(n)),
{
    assert(ns.push(n).drop_last() =~= ns);
}

pub proof fn lemma_entries_data_push(es: Seq<(String, JsonNode)>, e: (String, JsonNode))
    ensures
        entries_data(es.push(e)) =~= entries_data(es).push((e.0@, node_data(e.1))),
{
    assert(es.push(e).drop_last() =~= es);
}

pub proof fn lemma_nodes_data_update(ns: Seq<JsonNode>, i: int, n: JsonNode)
    requires
        0 <= i < ns.len(),
    ensures
        nodes_data(ns.update(i, n)) =~= nodes_data(ns).update(i, node_data(n)),
{
    lemma_nodes_data(ns);
    lemma_nodes_data(ns.update(i, n));
}

pub proof fn lemma_entries_data_update(es: Seq<(String, JsonNode)>, i: int, e: (String, JsonNode))
    requires
        0 <= i < es.len(),
    ensures
        entries_data(es.update(i, e)) =~= entries_data(es).update(i, (e.0@, node_data(e.1))),
{
    lemma_entries_data(es);
    lemma_entries_data(es.update(i, e));
}

/// Relies on `str`'s `PartialEq`: equal character sequences compare equal.
#[verifier::external_body]
pub(crate) fn str_eq(a: &str, b: &str) -> (r: bool)
    ensures
        r == (a@ == b@),
{
    a == b
}

/// Relies on `String`'s `FromIterator` over `char`: the built string holds
/// exactly the given characters, in order.
#[verifier::external_body]
pub fn chars_to_string(v: &Vec<char>) -> (s: String)
    ensures
        s@ == v@,
{
    v.iter().collect()
}

/// The recoverable errors of indexing, mutation and the mapping protocol.
/// Lexing and parsing report failure as an absent result instead; see
/// `json_lexer` and `json_parser`.
#[derive(Debug, Clone, Copy, PartialEq, Eq, Structural)]
pub enum JsonError {
    TypeMismatch,
    KeyNotFound,
    IndexOutOfBounds,
    UnknownVariant,
    ArityMismatch,
}

/// Mutable access to the value of entry `i`; the key stays as it is.
fn entry_val_mut(es: &mut Vec<(String, JsonNode)>, i: usize) -> (r: &mut JsonNode)
    requires
        i < old(es).len(),
    ensures
        *r == old(es)@[i as int].1,
        final(es)@ == old(es)@.update(i as int, (old(es)@[i as int].0, *final(r))),
{
    let entry = &mut es[i];
    &mut entry.1
}

/// First entry of `es` whose key is `k`, scanning from the front.
pub open spec fn spec_obj_get(es: Seq<(Seq<char>, JsonData)>, k: Seq<char>) -> Option<JsonData>
    decreases es.len(),
{
    if es.len() == 0 {
        None
    } else if es[0].0 == k {
        Some(es[0].1)
    } else {
        spec_obj_get(es.drop_first(), k)
    }
}

/// Does some entry of `es` carry the key `k`?
pub open spec fn spec_obj_has(es: Seq<(Seq<char>, JsonData)>, k: Seq<char>) -> bool {
    spec_obj_get(es, k) is Some
}

/// Replace the value of the first entry keyed `k`, or append a new entry.
pub open spec fn spec_obj_insert(
    es: Seq<(Seq<char>, JsonData)>,
    k: Seq<char>,
    v: JsonData,
) -> Seq<(Seq<char>, JsonData)>
    decreases es.len(),
{
    if es.len() == 0 {
        seq![(k, v)]
    } else if es[0].0 == k {
        seq![(k, v)] + es.drop_first()
    } else {
        seq![es[0]] + spec_obj_insert(es.drop_first(), k, v)
    }
}

/// Drop the first entry keyed `k`, if any.
pub open spec fn spec_obj_remove(
    es: Seq<(Seq<char>, JsonData)>,
    k: Seq<char>,
) -> Seq<(Seq<char>, JsonData)>
    decreases es.len(),
{
    if es.len() == 0 {
        es
    } else if es[0].0 == k {
        es.drop_first()
    } else {
        seq![es[0]] + spec_obj_remove(es.drop_first(), k)
    }
}

/// A first match at position `i` fixes what `spec_obj_get` returns.
pub proof fn lemma_obj_get_at(es: Seq<(Seq<char>, JsonData)>, k: Seq<char>, i: int)
    requires
        0 <= i < es.len(),
        es[i].0 == k,
        forall|j: int| 0 <= j < i ==> es[j].0 != k,
    ensures
        spec_obj_get(es, k) == Some(es[i].1),
    decreases i,
{
    if i > 0 {
        lemma_obj_get_at(es.drop_first(), k, i - 1);
    }
}

/// Without a match, `spec_obj_get` finds nothing.
pub proof fn lemma_obj_get_none(es: Seq<(Seq<char>, JsonData)>, k: Seq<char>)
    requires
        forall|j: int| 0 <= j < es.len() ==> es[j].0 != k,
    ensures
        spec_obj_get(es, k) is None,
    decreases es.len(),
{
    if es.len() > 0 {
        lemma_obj_get_none(es.drop_first(), k);
    }
}

/// With a first match at `i`, inserting updates that entry in place.
pub proof fn lemma_obj_insert_at(
    es: Seq<(Seq<char>, JsonData)>,
    k: Seq<char>,
    v: JsonData,
    i: int,
)
    requires
        0 <= i < es.len(),
        es[i].0 == k,
        forall|j: int| 0 <= j < i ==> es[j].0 != k,
    ensures
        spec_obj_insert(es, k, v) =~= es.update(i, (k, v)),
    decreases i,
{
    if i > 0 {
        lemma_obj_insert_at(es.drop_first(), k, v, i - 1);
        assert(es.drop_first().update(i - 1, (k, v)) =~= es.update(i, (k, v)).drop_first());
    }
}

/// Without a match, inserting appends a new entry.
pub proof fn lemma_obj_insert_absent(es: Seq<(Seq<char>, JsonData)>, k: Seq<char>, v: JsonData)
    requires
        forall|j: int| 0 <= j < es.len() ==> es[j].0 != k,
    ensures
        spec_obj_insert(es, k, v) =~= es.push((k, v)),
    decreases es.len(),
{
    if es.len() > 0 {
        lemma_obj_insert_absent(es.drop_first(), k, v);
        assert(es.drop_first().push((k, v)) =~= es.push((k, v)).drop_first());
    }
}

/// With a first match at `i`, removal deletes exactly that entry.
pub proof fn lemma_obj_remove_at(es: Seq<(Seq<char>, JsonData)>, k: Seq<char>, i: int)
    requires
        0 <= i < es.len(),
        es[i].0 == k,
        forall|j: int| 0 <= j < i ==> es[j].0 != k,
    ensures
        spec_obj_remove(es, k) =~= es.subrange(0, i) + es.subrange(i + 1, es.len() as int),
    decreases i,
{
    if i > 0 {
        lemma_obj_remove_at(es.drop_first(), k, i - 1);
        assert(es.drop_first().subrange(0, i - 1) =~= es.subrange(1, i));
        assert(seq![es[0]] + (es.subrange(1, i) + es.drop_first().subrange(
            i,
            es.drop_first().len() as int,
        )) =~= es.subrange(0, i) + es.subrange(i + 1, es.len() as int));
    }
}

/// Without a match, removal changes nothing.
pub proof fn lemma_obj_remove_absent(es: Seq<(Seq<char>, JsonData)>, k: Seq<char>)
    requires
        forall|j: int| 0 <= j < es.len() ==> es[j].0 != k,
    ensures
        spec_obj_remove(es, k) =~= es,
    decreases es.len(),
{
    if es.len() > 0 {
        lemma_obj_remove_absent(es.drop_first(), k);
        assert(seq![es[0]] + es.drop_first() =~= es);
    }
}

/// Law: insertion keeps keys unique and every held value well-formed.
pub proof fn lemma_obj_insert_wf(es: Seq<(Seq<char>, JsonData)>, k: Seq<char>, v: JsonData)
    requires
        keys_unique(es),
        forall|i: int| 0 <= i < es.len() ==> wf_data(#[trigger] es[i].1),
        wf_data(v),
    ensures
        keys_unique(spec_obj_insert(es, k, v)),
        forall|i: int| 0 <= i < spec_obj_insert(es, k, v).len() ==> wf_data(
            #[trigger] spec_obj_insert(es, k, v)[i].1,
        ),
        forall|i: int| 0 <= i < spec_obj_insert(es, k, v).len() ==> (
        #[trigger] spec_obj_insert(es, k, v)[i].0 == k || exists|j: int|
            0 <= j < es.len() && es[j].0 == spec_obj_insert(es, k, v)[i].0),
    decreases es.len(),
{
    let out = spec_obj_insert(es, k, v);
    if es.len() == 0 {
    } else if es[0].0 == k {
        assert(out =~= seq![(k, v)] + es.drop_first());
        assert forall|i: int| 0 <= i < out.len() implies wf_data(#[trigger] out[i].1) by {
            if i > 0 {
                assert(out[i] == es[i]);
            }
        }
        assert forall|i: int, j: int| 0 <= i < j < out.len() implies out[i].0 != out[j].0 by {
            if i > 0 {
                assert(out[i] == es[i] && out[j] == es[j]);
            } else {
                assert(out[j] == es[j]);
            }
        }
        assert forall|i: int| 0 <= i < out.len() implies (#[trigger] out[i].0 == k
            || exists|j: int| 0 <= j < es.len() && es[j].0 == out[i].0) by {
            if i > 0 {
                assert(es[i].0 == out[i].0);
            }
        }
    } else {
        let sub = spec_obj_insert(es.drop_first(), k, v);
        assert forall|i: int| 0 <= i < es.drop_first().len() implies wf_data(
            #[trigger] es.drop_first()[i].1,
        ) by {
            assert(es.drop_first()[i] == es[i + 1]);
        }
        assert(keys_unique(es.drop_first())) by {
            let sub0 = es.drop_first();
            assert forall|i: int, j: int| 0 <= i < j < sub0.len() implies sub0[i].0
                != sub0[j].0 by {
                assert(sub0[i] == es[i + 1] && sub0[j] == es[j + 1]);
            }
        }
        lemma_obj_insert_wf(es.drop_first(), k, v);
        assert(out =~= seq![es[0]] + sub);
        assert forall|i: int| 0 <= i < out.len() implies wf_data(#[trigger] out[i].1) by {
            if i > 0 {
                assert(out[i] == sub[i - 1]);
            }
        }
        assert forall|i: int| 0 <= i < out.len() implies (#[trigger] out[i].0 == k
            || exists|j: int| 0 <= j < es.len() && es[j].0 == out[i].0) by {
            if i > 0 {
                assert(out[i] == sub[i - 1]);
                if sub[i - 1].0 != k {
                    let j0 = choose|j0: int|
                        0 <= j0 < es.drop_first().len() && es.drop_first()[j0].0 == sub[i - 1].0;
                    assert(es[j0 + 1].0 == out[i].0);
                }
            }
        }
        assert forall|i: int, j: int| 0 <= i < j < out.len() implies out[i].0 != out[j].0 by {
            if i == 0 {
                assert(out[0] == es[0]);
                assert(out[j] == sub[j - 1]);
                if sub[j - 1].0 == k {
                } else {
                    let j0 = choose|j0: int|
                        0 <= j0 < es.drop_first().len() && es.drop_first()[j0].0 == sub[j - 1].0;
                    assert(es[j0 + 1].0 == sub[j - 1].0);
                }
            } else {
                assert(out[i] == sub[i - 1] && out[j] == sub[j - 1]);
            }
        }
    }
}

/// Law: a value just inserted under a key is what a read of that key finds.
/// In particular, write-indexing an absent key first inserts `Null` there,
/// and a subsequent read of that key finds `Null` rather than no entry.
pub proof fn lemma_obj_insert_get(es: Seq<(Seq<char>, JsonData)>, k: Seq<char>, v: JsonData)
    ensures
        spec_obj_get(spec_obj_insert(es, k, v), k) == Some(v),
    decreases es.len(),
{
    if es.len() > 0 && es[0].0 != k {
        lemma_obj_insert_get(es.drop_first(), k, v);
        assert((seq![es[0]] + spec_obj_insert(es.drop_first(), k, v)).drop_first()
            =~= spec_obj_insert(es.drop_first(), k, v));
    }
}

/// Law: inserting under one key leaves what every other key holds alone.
pub proof fn lemma_obj_insert_get_other(
    es: Seq<(Seq<char>, JsonData)>,
    k: Seq<char>,
    v: JsonData,
    k2: Seq<char>,
)
    requires
        k2 != k,
    ensures
        spec_obj_get(spec_obj_insert(es, k, v), k2) == spec_obj_get(es, k2),
    decreases es.len(),
{
    reveal_with_fuel(spec_obj_get, 3);
    reveal_with_fuel(spec_obj_insert, 3);
    if es.len() == 0 {
        assert(spec_obj_insert(es, k, v) == seq![(k, v)]);
        assert(seq![(k, v)].drop_first() =~= Seq::<(Seq<char>, JsonData)>::empty());
    } else if es[0].0 == k {
        assert((seq![(k, v)] + es.drop_first()).drop_first() =~= es.drop_first());
        assert((seq![(k, v)] + es.drop_first())[0] == (k, v));
    } else {
        lemma_obj_insert_get_other(es.drop_first(), k, v, k2);
        assert((seq![es[0]] + spec_obj_insert(es.drop_first(), k, v)).drop_first()
            =~= spec_obj_insert(es.drop_first(), k, v));
        assert((seq![es[0]] + spec_obj_insert(es.drop_first(), k, v))[0] == es[0]);
    }
}

/// Well-formed data: unique keys in every object and valid number texts.
pub open spec fn wf_data(d: JsonData) -> bool
    decreases d,
{
    match d {
        JsonData::Object(es) => keys_unique(es) && (forall|i: int|
            0 <= i < es.len() ==> wf_data(#[trigger] es[i].1)),
        JsonData::Array(els) => forall|i: int| 0 <= i < els.len() ==> wf_data(#[trigger] els[i]),
        JsonData::Text(_) => true,
        JsonData::Number(t) => is_number_text(t),
        JsonData::Boolean(_) => true,
        JsonData::Null => true,
    }
}

impl Default for JsonNode {
    /// A fresh node is `Null`.
    fn default() -> (r: JsonNode)
        ensures
            r@ == JsonData::Null,
    {
        JsonNode::Null
    }
}

/// First entry of `es` keyed `key`, scanning from the front.
fn find_entry(es: &Vec<(String, JsonNode)>, key: &str) -> (r: Option<usize>)
    ensures
        match r {
            Some(i) => i < es@.len() && es@[i as int].0@ == key@ && forall|j: int|
                0 <= j < i ==> es@[j].0@ != key@,
            None => forall|j: int| 0 <= j < es@.len() ==> es@[j].0@ != key@,
        },
{
    let n = es.len();
    let mut i: usize = 0;
    while i < n
        invariant
            n == es@.len(),
            i <= n,
            forall|j: int| 0 <= j < i ==> es@[j].0@ != key@,
        decreases n - i,
    {
        if str_eq(es[i].0.as_str(), key) {
            return Some(i);
        }
        i = i + 1;
    }
    None
}

/// Insert `value` under `key` in an entry list, replacing the value of the
/// first entry under that key and otherwise appending a new entry.
pub fn entries_insert(es: &mut Vec<(String, JsonNode)>, key: String, value: JsonNode)
    ensures
        entries_data(final(es)@) == spec_obj_insert(entries_data(old(es)@), key@, value@),
{
    proof {
        lemma_entries_data(es@);
    }
    match find_entry(es, key.as_str()) {
        Some(i) => {
            proof {
                lemma_obj_insert_at(entries_data(es@), key@, value@, i as int);
                lemma_entries_data_update(es@, i as int, (key, value));
            }
            let entry = &mut es[i];
            *entry = (key, value);
        },
        None => {
            proof {
                lemma_obj_insert_absent(entries_data(es@), key@, value@);
                lemma_entries_data_push(es@, (key, value));
            }
            es.push((key, value));
        },
    }
}

impl JsonNode {
    /// A fresh node: `Null`.
    pub fn new() -> (r: JsonNode)
        ensures
            r@ == JsonData::Null,
    {
        JsonNode::Null
    }

    /// String-key read: the value under `key` of an object node.
    pub fn index_key(&self, key: &str) -> (r: Result<&JsonNode, JsonError>)
        ensures
            match self@ {
                JsonData::Object(es) => match r {
                    Ok(node) => spec_obj_get(es, key@) == Some((*node)@),
                    Err(e) => e == JsonError::KeyNotFound && !spec_obj_has(es, key@),
                },
                _ => r == Err::<&JsonNode, JsonError>(JsonError::TypeMismatch),
            },
    {
        match self {
            JsonNode::Object(es) => {
                proof {
                    lemma_entries_data(es@);
                }
                match find_entry(es, key) {
                    Some(i) => {
                        proof {
                            lemma_obj_get_at(entries_data(es@), key@, i as int);
                        }
                        Ok(&es[i].1)
                    },
                    None => {
                        proof {
                            lemma_obj_get_none(entries_data(es@), key@);
                        }
                        Err(JsonError::KeyNotFound)
                    },
                }
            },
            _ => Err(JsonError::TypeMismatch),
        }
    }

    /// String-key write access.  On an object node this hands back a mutable
    /// handle to the value under `key`, first inserting `Null` there when the
    /// key is absent; on any other node it fails with `TypeMismatch`.
    pub fn index_key_mut(&mut self, key: &str) -> (r: Result<&mut JsonNode, JsonError>)
        ensures
            match old(self)@ {
                JsonData::Object(es) => match r {
                    Ok(handle) => {
                        &&& (*handle)@ == (match spec_obj_get(es, key@) {
                            Some(v) => v,
                            None => JsonData::Null,
                        })
                        &&& final(self)@ == JsonData::Object(
                            spec_obj_insert(es, key@, (*final(handle))@),
                        )
                    },
                    Err(_) => false,
                },
                _ => (r matches Err(e) && e == JsonError::TypeMismatch) && final(self)@
                    == old(self)@,
            },
    {
        match self {
            JsonNode::Object(es) => {
                let ghost orig = es@;
                proof {
                    lemma_entries_data(orig);
                }
                let found = find_entry(es, key);
                if found.is_none() {
                    es.push((String::from_str(key), JsonNode::Null));
                    proof {
                        lemma_obj_get_none(entries_data(orig), key@);
                        lemma_entries_data_push(orig, es@.last());
                    }
                }
                let i = match found {
                    Some(i) => i,
                    None => es.len() - 1,
                };
                let ghost es0 = es@;
                let ghost data0 = entries_data(es0);
                let ghost pair = es0[i as int];
                proof {
                    lemma_entries_data(es0);
                }
                let handle = entry_val_mut(es, i);
                proof {
                    lemma_obj_get_at(data0, key@, i as int);
                    lemma_entries_data_update(es0, i as int, (pair.0, *final(handle)));
                    if found is Some {
                        lemma_obj_insert_at(data0, key@, node_data(*final(handle)), i as int);
                    } else {
                        lemma_obj_insert_absent(
                            entries_data(orig),
                            key@,
                            node_data(*final(handle)),
                        );
                        assert(data0.update(i as int, (key@, node_data(*final(handle))))
                            =~= entries_data(orig).push((key@, node_data(*final(handle)))));
                    }
                    assert(entries_data(es0.update(i as int, (pair.0, *final(handle))))
                        =~= spec_obj_insert(entries_data(orig), key@, node_data(*final(handle))));
                }
                Ok(handle)
            },
            _ => Err(JsonError::TypeMismatch),
        }
    }

    /// Integer-index read: element `index` of an array node, strictly
    /// bounds-checked.
    pub fn index_at(&self, index: usize) -> (r: Result<&JsonNode, JsonError>)
        ensures
            match self@ {
                JsonData::Array(els) => match r {
                    Ok(node) => index < els.len() && (*node)@ == els[index as int],
                    Err(e) => e == JsonError::IndexOutOfBounds && index >= els.len(),
                },
                _ => r == Err::<&JsonNode, JsonError>(JsonError::TypeMismatch),
            },
    {
        match self {
            JsonNode::Array(els) => {
                proof {
                    lemma_nodes_data(els@);
                }
                if index < els.len() {
                    Ok(&els[index])
                } else {
                    Err(JsonError::IndexOutOfBounds)
                }
            },
            _ => Err(JsonError::TypeMismatch),
        }
    }

    /// Integer-index write access, strictly bounds-checked: no auto-extension.
    pub fn index_at_mut(&mut self, index: usize) -> (r: Result<&mut JsonNode, JsonError>)
        ensures
            match old(self)@ {
                JsonData::Array(els) => match r {
                    Ok(handle) => {
                        &&& index < els.len()
                        &&& (*handle)@ == els[index as int]
                        &&& final(self)@ == JsonData::Array(
                            els.update(index as int, (*final(handle))@),
                        )
                    },
                    Err(e) => e == JsonError::IndexOutOfBounds && index >= els.len() && final(self)@ == old(self)@,
                },
                _ => (r matches Err(e) && e == JsonError::TypeMismatch) && final(self)@
                    == old(self)@,
            },
    {
        match self {
            JsonNode::Array(els) => {
                proof {
                    lemma_nodes_data(els@);
                }
                if index < els.len() {
                    let ghost old_els = els@;
                    let handle = &mut els[index];
                    proof {
                        lemma_nodes_data_update(old_els, index as int, *final(handle));
                    }
                    Ok(handle)
                } else {
                    Err(JsonError::IndexOutOfBounds)
                }
            },
            _ => Err(JsonError::TypeMismatch),
        }
    }

    /// Insert `value` under `key` in an object node, replacing any previous
    /// value under that key and otherwise appending a new entry.
    pub fn insert(&mut self, key: String, value: JsonNode) -> (r: Result<(), JsonError>)
        ensures
            match old(self)@ {
                JsonData::Object(es) => r is Ok && final(self)@ == JsonData::Object(
                    spec_obj_insert(es, key@, value@),
                ),
                _ => r == Err::<(), JsonError>(JsonError::TypeMismatch) && final(self)@ == old(
                    self,
                )@,
            },
    {
        match self {
            JsonNode::Object(es) => {
                entries_insert(es, key, value);
                Ok(())
            },
            _ => Err(JsonError::TypeMismatch),
        }
    }

    /// Append `value` to an array node.
    pub fn push(&mut self, value: JsonNode) -> (r: Result<(), JsonError>)
        ensures
            match old(self)@ {
                JsonData::Array(els) => r is Ok && final(self)@ == JsonData::Array(
                    els.push(value@),
                ),
                _ => r == Err::<(), JsonError>(JsonError::TypeMismatch) && final(self)@ == old(
                    self,
                )@,
            },
    {
        match self {
            JsonNode::Array(els) => {
                proof {
                    lemma_nodes_data_push(els@, value);
                }
                els.push(value);
                Ok(())
            },
            _ => Err(JsonError::TypeMismatch),
        }
    }

    /// Reserve capacity in an array node; the contents stay as they are.
    pub fn reserve(&mut self, additional: usize) -> (r: Result<(), JsonError>)
        ensures
            final(self)@ == old(self)@,
            match old(self)@ {
                JsonData::Array(_) => r is Ok,
                _ => r == Err::<(), JsonError>(JsonError::TypeMismatch),
            },
    {
        match self {
            JsonNode::Array(els) => {
                els.reserve(additional);
                Ok(())
            },
            _ => Err(JsonError::TypeMismatch),
        }
    }

    /// Member count of an object or array node.
    pub fn len(&self) -> (r: Result<usize, JsonError>)
        ensures
            match self@ {
                JsonData::Object(es) => r == Ok::<usize, JsonError>(es.len() as usize),
                JsonData::Array(els) => r == Ok::<usize, JsonError>(els.len() as usize),
                _ => r == Err::<usize, JsonError>(JsonError::TypeMismatch),
            },
    {
        match self {
            JsonNode::Object(es) => {
                proof {
                    lemma_entries_data(es@);
                }
                Ok(es.len())
            },
            JsonNode::Array(els) => {
                proof {
                    lemma_nodes_data(els@);
                }
                Ok(els.len())
            },
            _ => Err(JsonError::TypeMismatch),
        }
    }

    /// Resize an array node: truncate, or pad with `Null`.
    pub fn resize(&mut self, new_len: usize) -> (r: Result<(), JsonError>)
        ensures
            match old(self)@ {
                JsonData::Array(els) => r is Ok && final(self)@ == JsonData::Array(
                    if new_len <= els.len() {
                        els.take(new_len as int)
                    } else {
                        els + Seq::new((new_len - els.len()) as nat, |i: int| JsonData::Null)
                    },
                ),
                _ => r == Err::<(), JsonError>(JsonError::TypeMismatch) && final(self)@ == old(
                    self,
                )@,
            },
    {
        match self {
            JsonNode::Array(els) => {
                proof {
                    lemma_nodes_data(els@);
                }
                if new_len <= els.len() {
                    let ghost old_els = els@;
                    els.truncate(new_len);
                    proof {
                        lemma_nodes_data(els@);
                        assert(nodes_data(els@) =~= nodes_data(old_els).take(new_len as int));
                    }
                } else {
                    let ghost old_els = els@;
                    let ghost target = nodes_data(old_els) + Seq::new(
                        (new_len - els@.len()) as nat,
                        |i: int| JsonData::Null,
                    );
                    while els.len() < new_len
                        invariant
                            old_els.len() <= els@.len() <= new_len,
                            nodes_data(els@) =~= nodes_data(old_els) + Seq::new(
                                (els@.len() - old_els.len()) as nat,
                                |i: int| JsonData::Null,
                            ),
                        decreases new_len - els@.len(),
                    {
                        proof {
                            lemma_nodes_data_push(els@, JsonNode::Null);
                        }
                        els.push(JsonNode::Null);
                    }
                    proof {
                        assert(nodes_data(els@) =~= target);
                    }
                }
                Ok(())
            },
            _ => Err(JsonError::TypeMismatch),
        }
    }

    /// Empty an object or array node; its kind stays as it is.
    pub fn clear(&mut self) -> (r: Result<(), JsonError>)
        ensures
            match old(self)@ {
                JsonData::Object(_) => r is Ok && final(self)@ == JsonData::Object(
                    Seq::<(Seq<char>, JsonData)>::empty(),
                ),
                JsonData::Array(_) => r is Ok && final(self)@ == JsonData::Array(
                    Seq::<JsonData>::empty(),
                ),
                _ => r == Err::<(), JsonError>(JsonError::TypeMismatch) && final(self)@ == old(
                    self,
                )@,
            },
    {
        match self {
            JsonNode::Object(es) => {
                es.clear();
                Ok(())
            },
            JsonNode::Array(els) => {
                els.clear();
                Ok(())
            },
            _ => Err(JsonError::TypeMismatch),
        }
    }

    /// Remove the entry under `key` from an object node, handing back the
    /// previous value, if any.
    pub fn remove(&mut self, key: &str) -> (r: Result<Option<JsonNode>, JsonError>)
        ensures
            match old(self)@ {
                JsonData::Object(es) => {
                    &&& r is Ok
                    &&& final(self)@ == JsonData::Object(spec_obj_remove(es, key@))
                    &&& (match r {
                        Ok(prev) => match spec_obj_get(es, key@) {
                            Some(v) => prev matches Some(p) && p@ == v,
                            None => prev is None,
                        },
                        Err(_) => false,
                    })
                },
                _ => r == Err::<Option<JsonNode>, JsonError>(JsonError::TypeMismatch) && final(self)@ == old(self)@,
            },
    {
        match self {
            JsonNode::Object(es) => {
                proof {
                    lemma_entries_data(es@);
                }
                match find_entry(es, key) {
                    Some(i) => {
                        proof {
                            lemma_obj_get_at(entries_data(es@), key@, i as int);
                            lemma_obj_remove_at(entries_data(es@), key@, i as int);
                        }
                        let ghost old_es = es@;
                        let entry = es.remove(i);
                        proof {
                            lemma_entries_data(old_es);
                            lemma_entries_data(es@);
                            assert(entries_data(es@) =~= entries_data(old_es).subrange(
                                0,
                                i as int,
                            ) + entries_data(old_es).subrange(
                                i as int + 1,
                                old_es.len() as int,
                            ));
                        }
                        Ok(Some(entry.1))
                    },
                    None => {
                        proof {
                            lemma_obj_get_none(entries_data(es@), key@);
                            lemma_obj_remove_absent(entries_data(es@), key@);
                        }
                        Ok(None)
                    },
                }
            },
            _ => Err(JsonError::TypeMismatch),
        }
    }

    /// Does an object node carry an entry under `key`?
    pub fn contains_key(&self, key: &str) -> (r: Result<bool, JsonError>)
        ensures
            match self@ {
                JsonData::Object(es) => r == Ok::<bool, JsonError>(spec_obj_has(es, key@)),
                _ => r == Err::<bool, JsonError>(JsonError::TypeMismatch),
            },
    {
        match self {
            JsonNode::Object(es) => {
                proof {
                    lemma_entries_data(es@);
                }
                match find_entry(es, key) {
                    Some(i) => {
                        proof {
                            lemma_obj_get_at(entries_data(es@), key@, i as int);
                        }
                        Ok(true)
                    },
                    None => {
                        proof {
                            lemma_obj_get_none(entries_data(es@), key@);
                        }
                        Ok(false)
                    },
                }
            },
            _ => Err(JsonError::TypeMismatch),
        }
    }

    /// Overwrite this node, of whatever kind, with `Null`.
    pub fn set_null(&mut self)
        ensures
            final(self)@ == JsonData::Null,
    {
        *self = JsonNode::Null;
    }

    /// A deep copy: every child of the copy is a fresh, exclusively owned
    /// subtree with the same view.
    pub fn deep_clone(&self) -> (r: JsonNode)
        ensures
            r@ == self@,
        decreases *self,
    {
        match self {
            JsonNode::Object(es) => {
                let mut out: Vec<(String, JsonNode)> = Vec::new();
                let n = es.len();
                let mut idx: usize = 0;
                while idx < n
                    invariant
                        n == es@.len(),
                        idx <= n,
                        *self == JsonNode::Object(*es),
                        entries_data(out@) =~= entries_data(es@.take(idx as int)),
                    decreases n - idx,
                {
                    let ghost pre = out@;
                    let entry = &es[idx];
                    proof {
                        assert(decreases_to!(*self => (*self)->Object_0));
                        assert(decreases_to!(*es => es@));
                        assert(decreases_to!(es@ => es@[idx as int]));
                        assert(decreases_to!(es@[idx as int] => es@[idx as int].1));
                    }
                    let k = entry.0.clone();
                    let v = entry.1.deep_clone();
                    let ghost kv = (k, v);
                    out.push((k, v));
                    proof {
                        lemma_entries_data_push(pre, kv);
                        lemma_entries_data_push(es@.take(idx as int), es@[idx as int]);
                        assert(es@.take(idx as int).push(es@[idx as int]) =~= es@.take(
                            idx as int + 1,
                        ));
                    }
                    idx = idx + 1;
                }
                proof {
                    assert(es@.take(n as int) =~= es@);
                }
                JsonNode::Object(out)
            },
            JsonNode::Array(els) => {
                let mut out: Vec<JsonNode> = Vec::new();
                let n = els.len();
                let mut idx: usize = 0;
                while idx < n
                    invariant
                        n == els@.len(),
                        idx <= n,
                        *self == JsonNode::Array(*els),
                        nodes_data(out@) =~= nodes_data(els@.take(idx as int)),
                    decreases n - idx,
                {
                    let ghost pre = out@;
                    proof {
                        assert(decreases_to!(*self => (*self)->Array_0));
                        assert(decreases_to!(*els => els@));
                        assert(decreases_to!(els@ => els@[idx as int]));
                    }
                    let v = els[idx].deep_clone();
                    let ghost vv = v;
                    out.push(v);
                    proof {
                        lemma_nodes_data_push(pre, vv);
                        lemma_nodes_data_push(els@.take(idx as int), els@[idx as int]);
                        assert(els@.take(idx as int).push(els@[idx as int]) =~= els@.take(
                            idx as int + 1,
                        ));
                    }
                    idx = idx + 1;
                }
                proof {
                    assert(els@.take(n as int) =~= els@);
                }
                JsonNode::Array(out)
            },
            JsonNode::Text(s) => JsonNode::Text(s.clone()),
            JsonNode::Number(num) => JsonNode::Number(num.duplicate()),
            JsonNode::Boolean(b) => JsonNode::Boolean(*b),
            JsonNode::Null => JsonNode::Null,
        }
    }

    /// The entry list of an object node.
    pub fn obj_entries(&self) -> (r: Option<&Vec<(String, JsonNode)>>)
        ensures
            match r {
                Some(es) => self@ == JsonData::Object(entries_data((*es)@)),
                None => !(self@ is Object),
            },
    {
        match self {
            JsonNode::Object(es) => Some(es),
            _ => None,
        }
    }

    /// The element list of an array node.
    pub fn arr_items(&self) -> (r: Option<&Vec<JsonNode>>)
        ensures
            match r {
                Some(els) => self@ == JsonData::Array(nodes_data((*els)@)),
                None => !(self@ is Array),
            },
    {
        match self {
            JsonNode::Array(els) => Some(els),
            _ => None,
        }
    }
}

} // verus!
