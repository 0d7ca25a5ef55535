//! The laws of the typed field API, proved over the document
//! semantics in `sem`.  Foreign-apply atomicity is stated directly
//! in the `ensures` of `apply_bytes`; snapshot round-trips and
//! replica convergence belong to the CRDT engine and are exercised
//! by tests.

use vstd::prelude::*;
use crate::client::blobs_of;
use crate::path::SegView;
use crate::sem::{
    doc_wf, lemma_with_created_wf, spec_append, spec_create_list, spec_get, spec_get_bool,
    spec_get_double, spec_get_int, spec_get_text, spec_list_len, spec_put, with_created,
};
use crate::table::{EntryV, ScalarV};

verus! {

/// Law (change capture): a successful mutation that captured blob
/// `x` over buffer `b` leaves the buffer at `b + [x]` — the `ensures`
/// of every mutating method — so the very next drain, which returns
/// the whole buffer and empties it (the `ensures` of `commands`),
/// yields `x` as its final entry, right after everything buffered
/// before the call.
pub proof fn lemma_capture_then_drain(b: Seq<Seq<u8>>, x: Vec<u8>)
    ensures
        (b + blobs_of(Option::Some(x))).len() == b.len() + 1,
        (b + blobs_of(Option::Some(x))).last() == x@,
        (b + blobs_of(Option::Some(x))).subrange(0, b.len() as int) == b,
{
    assert((b + blobs_of(Option::Some(x))).subrange(0, b.len() as int) =~= b);
}

/// Law (put/get consistency and type isolation): after a successful
/// typed write of `sv` at `segs`, the same-type read returns exactly
/// the written value, and each of the other typed reads returns
/// `None`.
pub proof fn lemma_put_get(
    m: Map<Seq<SegView>, EntryV>,
    segs: Seq<SegView>,
    sv: ScalarV,
    m2: Map<Seq<SegView>, EntryV>,
)
    requires
        doc_wf(m),
        spec_put(m, segs, sv) == Result::<Map<Seq<SegView>, EntryV>, crate::AmError>::Ok(m2),
    ensures
        spec_get(m2, segs) == Option::Some(EntryV::Val(sv)),
        spec_get_text(m2, segs) == (match sv {
            ScalarV::Text(s) => Option::Some(s),
            _ => Option::<Seq<char>>::None,
        }),
        spec_get_int(m2, segs) == (match sv {
            ScalarV::Int(i) => Option::Some(i),
            _ => Option::<i64>::None,
        }),
        spec_get_double(m2, segs) == (match sv {
            ScalarV::Double(s) => Option::Some(s),
            _ => Option::<Seq<char>>::None,
        }),
        spec_get_bool(m2, segs) == (match sv {
            ScalarV::Bool(b) => Option::Some(b),
            _ => Option::<bool>::None,
        }),
{
    assert(m2.dom().contains(segs));
    assert(m2[segs] == EntryV::Val(sv));
}

/// Law (auto-create idempotence): writing a path twice, when no
/// proper prefix is anything but a missing node or an interior map,
/// leaves every proper prefix an interior map and the read sees the
/// second value.
pub proof fn lemma_put_put(
    m: Map<Seq<SegView>, EntryV>,
    segs: Seq<SegView>,
    v1: ScalarV,
    v2: ScalarV,
    m2: Map<Seq<SegView>, EntryV>,
    m3: Map<Seq<SegView>, EntryV>,
)
    requires
        doc_wf(m),
        forall|j: int|
            1 <= j < segs.len() && m.dom().contains(#[trigger] segs.subrange(0, j))
                ==> m[segs.subrange(0, j)] is MapObj,
        spec_put(m, segs, v1) == Result::<Map<Seq<SegView>, EntryV>, crate::AmError>::Ok(m2),
        spec_put(m2, segs, v2) == Result::<Map<Seq<SegView>, EntryV>, crate::AmError>::Ok(m3),
    ensures
        spec_get(m3, segs) == Option::Some(EntryV::Val(v2)),
        forall|j: int|
            1 <= j < segs.len() ==> m3.dom().contains(#[trigger] segs.subrange(0, j))
                && m3[segs.subrange(0, j)] is MapObj,
{
    lemma_with_created_wf(m, segs);
    let m1 = with_created(m, segs);
    assert forall|j: int| 1 <= j < segs.len() implies m2.dom().contains(
        #[trigger] segs.subrange(0, j),
    ) && m2[segs.subrange(0, j)] is MapObj by {
        let p = segs.subrange(0, j);
        assert(m1.dom().contains(p));
        assert(m1[p] is MapObj);
        assert(!crate::table::strict_under(p, segs));
        assert(p != segs);
    }
    crate::sem::lemma_put_wf(m, segs, v1, m2);
    lemma_with_created_wf(m2, segs);
    let m2c = with_created(m2, segs);
    assert forall|j: int| 1 <= j < segs.len() implies m3.dom().contains(
        #[trigger] segs.subrange(0, j),
    ) && m3[segs.subrange(0, j)] is MapObj by {
        let p = segs.subrange(0, j);
        assert(m2c.dom().contains(p));
        assert(m2c[p] == m2[p]);
        assert(!crate::table::strict_under(p, segs));
        assert(p != segs);
    }
}

/// Law (no auto-created lists, refusal half): an append at a path
/// that does not hold a list fails.
pub proof fn lemma_append_needs_list(
    m: Map<Seq<SegView>, EntryV>,
    segs: Seq<SegView>,
    v: ScalarV,
)
    requires
        doc_wf(m),
        !(m.dom().contains(segs) && m[segs] is ListObj),
    ensures
        spec_append(m, segs, v) == Result::<Map<Seq<SegView>, EntryV>, crate::AmError>::Err(
            crate::AmError::NotFound,
        ),
{
}

/// Law (no auto-created lists, success half): right after a list is
/// created at `segs`, an append there succeeds, the list has length
/// one and its single element is the appended value.
pub proof fn lemma_create_then_append(
    m: Map<Seq<SegView>, EntryV>,
    segs: Seq<SegView>,
    v: ScalarV,
    m2: Map<Seq<SegView>, EntryV>,
)
    requires
        doc_wf(m),
        spec_create_list(m, segs) == Result::<Map<Seq<SegView>, EntryV>, crate::AmError>::Ok(m2),
    ensures
        spec_append(m2, segs, v) is Ok,
        ({
            let m3 = spec_append(m2, segs, v)->Ok_0;
            &&& spec_list_len(m3, segs) == Option::Some(1int)
            &&& spec_get(m3, segs.push(SegView::Index(0))) == Option::Some(EntryV::Val(v))
        }),
{
    assert(m2.dom().contains(segs));
    assert(m2[segs] == EntryV::ListObj(0));
    let m3 = spec_append(m2, segs, v)->Ok_0;
    assert(m3[segs] == EntryV::ListObj(1));
    assert(segs.push(SegView::Index(0)) != segs);
}

} // verus!
