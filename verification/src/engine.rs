//! The trusted surface towards the CRDT engine (the automerge crate).
//!
//! Every item here is believed, not proved: each wrapper makes one
//! engine call and converts values one for one.  The engine's tree is
//! opaque to the verifier; the client keeps its own verified table in
//! lockstep and states nothing here beyond what the engine's source
//! plainly shows.

use vstd::prelude::*;
use crate::table::Scalar;

verus! {

#[verifier::external_type_specification]
#[verifier::external_body]
pub struct ExAutoCommit(automerge::AutoCommit);

#[verifier::external_type_specification]
#[verifier::external_body]
pub struct ExObjId(automerge::ObjId);

#[verifier::external_type_specification]
#[verifier::external_body]
pub struct ExScalarValue(automerge::ScalarValue);

#[verifier::external_type_specification]
#[verifier::external_body]
pub struct ExChange(automerge::Change);

#[verifier::external_type_specification]
#[verifier::external_body]
pub struct ExValue<'a>(automerge::Value<'a>);

/// Relies on the Clone automerge derives for ObjId: a deep copy of a
/// plain identifier value.
pub assume_specification[ <automerge::ObjId as Clone>::clone ](v: &automerge::ObjId) -> (r:
    automerge::ObjId)
    ensures
        r == *v,
;

/// One node of the engine's tree, as a read hands it out.
pub enum EngNode {
    /// A map (or table) object and its identifier.
    MapObj(automerge::ObjId),
    /// A list object and its identifier.
    ListObj(automerge::ObjId),
    /// A collaborative-text object; the core does not type it.
    TextObj,
    Str(String),
    Int(i64),
    /// A floating-point scalar, rendered as decimal text.
    Double(String),
    Bool(bool),
    /// Any other scalar (unsigned integer, counter, timestamp, raw
    /// bytes, null, unknown).
    Opaque,
}

/// Whether the engine accepts a byte string as one encoded change; a
/// property of the bytes alone.
pub uninterp spec fn change_parses(bytes: Seq<u8>) -> bool;

/// Whether the host's standard floating-point parse accepts a string;
/// a property of the characters alone.
pub uninterp spec fn double_parses(s: Seq<char>) -> bool;

/// Whether the engine accepts a byte string as a document snapshot;
/// a property of the bytes alone.
pub uninterp spec fn snapshot_parses(bytes: Seq<u8>) -> bool;

/// Relies on automerge::AutoCommit::new: a fresh document holding
/// only the empty root map.
#[verifier::external_body]
pub fn new_doc() -> automerge::AutoCommit {
    automerge::AutoCommit::new()
}

/// Relies on automerge::AutoCommit::load: rebuilds a document from
/// snapshot bytes; it accepts exactly the byte strings that encode a
/// document, a property of the bytes alone.
#[verifier::external_body]
pub fn load_doc(bytes: &[u8]) -> (r: Option<automerge::AutoCommit>)
    ensures
        r.is_some() == snapshot_parses(bytes@),
{
    automerge::AutoCommit::load(bytes).ok()
}

/// Relies on automerge::AutoCommit::save: the engine's canonical
/// byte encoding of the whole document.
#[verifier::external_body]
pub fn save_doc(doc: &mut automerge::AutoCommit) -> Vec<u8> {
    doc.save()
}

/// Relies on automerge::ROOT: the identifier of the root map.
#[verifier::external_body]
pub fn root_obj() -> automerge::ObjId {
    automerge::ROOT
}

/// Relies on the automerge ScalarValue constructors: each arm moves
/// one library scalar into the engine scalar of the same type.  A
/// double's decimal text is parsed by the host's standard
/// floating-point parse; callers check `double_parses` first, the
/// fallback value never materializes.
#[verifier::external_body]
fn scalar_value_of(v: &Scalar) -> automerge::ScalarValue {
    match v {
        Scalar::Text(s) => automerge::ScalarValue::Str(s.as_str().into()),
        Scalar::Int(i) => automerge::ScalarValue::Int(*i),
        Scalar::Double(s) => automerge::ScalarValue::F64(s.as_str().parse().unwrap_or_default()),
        Scalar::Bool(b) => automerge::ScalarValue::Boolean(*b),
    }
}

/// Relies on str::parse for the host's floating-point type, anchored
/// by the automerge F64 constructor: acceptance depends on the
/// characters alone.
#[verifier::external_body]
pub fn parse_double_ok(s: &str) -> (r: bool)
    ensures
        r == double_parses(s@),
{
    match s.parse() {
        Ok(f) => {
            let _ = automerge::ScalarValue::F64(f);
            true
        },
        Err(_) => false,
    }
}

/// Relies on the automerge Value and ObjType enums: each arm moves
/// one engine value into the library's node of the same kind.
#[verifier::external_body]
fn node_of(v: &automerge::Value<'_>, id: automerge::ObjId) -> EngNode {
    match v {
        automerge::Value::Object(automerge::ObjType::List) => EngNode::ListObj(id),
        automerge::Value::Object(automerge::ObjType::Text) => EngNode::TextObj,
        automerge::Value::Object(_) => EngNode::MapObj(id),
        automerge::Value::Scalar(s) => match s.as_ref() {
            automerge::ScalarValue::Str(t) => EngNode::Str(t.to_string()),
            automerge::ScalarValue::Int(i) => EngNode::Int(*i),
            automerge::ScalarValue::F64(f) => EngNode::Double(format!("{}", f)),
            automerge::ScalarValue::Boolean(b) => EngNode::Bool(*b),
            _ => EngNode::Opaque,
        },
    }
}

/// Relies on automerge's ReadDoc::get with a string key: the child of
/// a map under that key, if any; a read error counts as a miss.
#[verifier::external_body]
pub fn get_key(doc: &automerge::AutoCommit, obj: &automerge::ObjId, key: &str) -> Option<EngNode> {
    match automerge::ReadDoc::get(doc, obj, key) {
        Ok(Some((v, id))) => Some(node_of(&v, id)),
        _ => None,
    }
}

/// Relies on automerge's ReadDoc::get with a position: the element of
/// a list at that position, if any; a read error counts as a miss.
#[verifier::external_body]
pub fn get_index(doc: &automerge::AutoCommit, obj: &automerge::ObjId, idx: usize) -> Option<
    EngNode,
> {
    match automerge::ReadDoc::get(doc, obj, idx) {
        Ok(Some((v, id))) => Some(node_of(&v, id)),
        _ => None,
    }
}

/// Relies on automerge's ReadDoc::keys: the keys of a map object,
/// which a map holds pairwise distinct.
#[verifier::external_body]
pub fn keys_of(doc: &automerge::AutoCommit, obj: &automerge::ObjId) -> (r: Vec<String>)
    ensures
        forall|i: int, j: int| 0 <= i < j < r@.len() ==> r@[i]@ != r@[j]@,
{
    automerge::ReadDoc::keys(doc, obj).collect()
}

/// Relies on automerge's ReadDoc::length: the number of elements of a
/// list object, or of keys of a map object.
#[verifier::external_body]
pub fn length_of(doc: &automerge::AutoCommit, obj: &automerge::ObjId) -> usize {
    automerge::ReadDoc::length(doc, obj)
}

/// Relies on automerge's Transactable::put with a string key.  The
/// engine refuses a put only on identifiers the client never hands
/// it, so the outcome is dropped.
#[verifier::external_body]
pub fn put_scalar_key(
    doc: &mut automerge::AutoCommit,
    obj: &automerge::ObjId,
    key: &str,
    v: &Scalar,
) {
    let _ = automerge::transaction::Transactable::put(doc, obj, key, scalar_value_of(v));
}

/// Relies on automerge's Transactable::put at a list position.
#[verifier::external_body]
pub fn put_scalar_index(
    doc: &mut automerge::AutoCommit,
    obj: &automerge::ObjId,
    idx: usize,
    v: &Scalar,
) {
    let _ = automerge::transaction::Transactable::put(doc, obj, idx, scalar_value_of(v));
}

/// Relies on automerge's Transactable::insert: places an element at a
/// position, shifting the tail; the client only ever inserts at the
/// list's length.
#[verifier::external_body]
pub fn insert_scalar(
    doc: &mut automerge::AutoCommit,
    obj: &automerge::ObjId,
    idx: usize,
    v: &Scalar,
) {
    let _ = automerge::transaction::Transactable::insert(doc, obj, idx, scalar_value_of(v));
}

/// Relies on automerge's Transactable::put_object with ObjType::Map:
/// creates an empty map under the key and returns its identifier.
#[verifier::external_body]
pub fn put_map_key(doc: &mut automerge::AutoCommit, obj: &automerge::ObjId, key: &str) -> Option<
    automerge::ObjId,
> {
    automerge::transaction::Transactable::put_object(doc, obj, key, automerge::ObjType::Map).ok()
}

/// Relies on automerge's Transactable::put_object with ObjType::List:
/// creates an empty list under the key and returns its identifier.
#[verifier::external_body]
pub fn put_list_key(doc: &mut automerge::AutoCommit, obj: &automerge::ObjId, key: &str) -> Option<
    automerge::ObjId,
> {
    automerge::transaction::Transactable::put_object(doc, obj, key, automerge::ObjType::List).ok()
}

/// Relies on automerge's AutoCommit::commit, get_change_by_hash and
/// Change::raw_bytes: seals the open transaction and hands back the
/// raw bytes of the change it produced, or nothing for a no-op.
#[verifier::external_body]
pub fn commit_capture(doc: &mut automerge::AutoCommit) -> Option<Vec<u8>> {
    match doc.commit() {
        Some(h) => match doc.get_change_by_hash(&h) {
            Some(c) => Some(c.raw_bytes().to_vec()),
            None => None,
        },
        None => None,
    }
}

/// Relies on automerge's Change::raw_bytes: the bytes the change was
/// decoded from, as an owned copy.
#[verifier::external_body]
pub fn change_raw(c: &automerge::Change) -> Vec<u8> {
    c.raw_bytes().to_vec()
}

/// Relies on automerge's Change::from_bytes: decodes one change; it
/// accepts exactly the byte strings that encode a change, a property
/// of the bytes alone.
#[verifier::external_body]
pub fn parse_change(bytes: &Vec<u8>) -> (r: Option<automerge::Change>)
    ensures
        r.is_some() == change_parses(bytes@),
{
    automerge::Change::from_bytes(bytes.clone()).ok()
}

/// Relies on automerge's AutoCommit::apply_changes: merges a batch of
/// decoded changes into the document; reports acceptance.
#[verifier::external_body]
pub fn apply_changes(doc: &mut automerge::AutoCommit, changes: Vec<automerge::Change>) -> bool {
    doc.apply_changes(changes).is_ok()
}

} // verus!
