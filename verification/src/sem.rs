//! The meaning of the document operations, stated over the path map.
//!
//! A document is a map from full paths to nodes (see `table`).  This
//! module defines what a well-formed document is, and what each
//! operation of the client returns and how it transforms the map:
//! the create-maps walk with its error kinds, scalar writes, list
//! creation, appends, reads and lengths.  The client's contracts and
//! the laws in `laws` all speak in these terms.

use vstd::prelude::*;
use crate::path::SegView;
use crate::table::{EntryV, ScalarV, strict_under, child_of, prune, children};
use crate::AmError;

verus! {

/// An interior node: a map or a list.
pub open spec fn is_object(e: EntryV) -> bool {
    match e {
        EntryV::MapObj => true,
        EntryV::ListObj(_) => true,
        _ => false,
    }
}

pub open spec fn list_len_of(e: EntryV) -> int {
    match e {
        EntryV::ListObj(n) => n,
        _ => 0,
    }
}

/// The node above `p` exists, is an interior node, and admits `p`'s
/// last segment: keys hang off maps, indices address list elements
/// below the list's length.
pub open spec fn parent_ok(m: Map<Seq<SegView>, EntryV>, p: Seq<SegView>) -> bool {
    let par = p.drop_last();
    m.dom().contains(par) && match (m[par], p.last()) {
        (EntryV::MapObj, SegView::Key(_)) => true,
        (EntryV::ListObj(n), SegView::Index(i)) => 0 <= i < n,
        _ => false,
    }
}

/// A well-formed document: a map at the root, every non-root node
/// properly attached to its parent, and every list fully populated
/// below its length.
pub open spec fn doc_wf(m: Map<Seq<SegView>, EntryV>) -> bool {
    &&& m.dom().contains(Seq::<SegView>::empty())
    &&& m[Seq::<SegView>::empty()] is MapObj
    &&& forall|p: Seq<SegView>| #[trigger] m.dom().contains(p) && p.len() > 0 ==> parent_ok(m, p)
    &&& forall|p: Seq<SegView>| m.dom().contains(p) ==> 0 <= list_len_of(#[trigger] m[p])
    &&& forall|p: Seq<SegView>, i: int|
        m.dom().contains(p) && 0 <= i < list_len_of(m[p])
            ==> m.dom().contains(#[trigger] p.push(SegView::Index(i)))
}

/// The empty document: a bare root map.
pub open spec fn empty_doc() -> Map<Seq<SegView>, EntryV> {
    Map::empty().insert(Seq::empty(), EntryV::MapObj)
}

pub proof fn lemma_empty_doc_wf()
    ensures
        doc_wf(empty_doc()),
{
}

/// The kind of the node at prefix `segs[..j]` as the create-maps walk
/// sees it: the document's node if present, else the interior map
/// the walk creates there.
pub open spec fn pk(m: Map<Seq<SegView>, EntryV>, segs: Seq<SegView>, j: int) -> EntryV {
    let par = segs.subrange(0, j);
    if m.dom().contains(par) {
        m[par]
    } else {
        EntryV::MapObj
    }
}

/// Step `j` of the create-maps walk (into `segs[..j]`) goes through:
/// a key segment needs a map above it and no scalar in its place, an
/// index segment needs a list above it with a populated slot, and the
/// slot itself must be an interior node.
pub open spec fn step_ok(m: Map<Seq<SegView>, EntryV>, segs: Seq<SegView>, j: int) -> bool {
    let p = segs.subrange(0, j);
    match segs[j - 1] {
        SegView::Key(_) => pk(m, segs, j - 1) is MapObj
            && (m.dom().contains(p) ==> is_object(m[p])),
        SegView::Index(i) => (match pk(m, segs, j - 1) {
            EntryV::ListObj(n) => 0 <= i < n,
            _ => false,
        }) && (m.dom().contains(p) ==> is_object(m[p])),
    }
}

/// The error a failing step raises.
pub open spec fn step_err(m: Map<Seq<SegView>, EntryV>, segs: Seq<SegView>, j: int) -> AmError {
    match segs[j - 1] {
        SegView::Key(_) => AmError::PathTypeMismatch,
        SegView::Index(i) => (match pk(m, segs, j - 1) {
            EntryV::ListObj(n) => if 0 <= i < n {
                AmError::PathTypeMismatch
            } else {
                AmError::IndexOutOfRange
            },
            _ => AmError::IndexOutOfRange,
        }),
    }
}

/// Every proper prefix of `segs` can be walked in create-maps mode.
pub open spec fn walk_ok(m: Map<Seq<SegView>, EntryV>, segs: Seq<SegView>) -> bool {
    forall|j: int| 1 <= j < segs.len() ==> #[trigger] step_ok(m, segs, j)
}

/// The first failing step, or `segs.len()` when all steps go through.
pub open spec fn first_bad_from(m: Map<Seq<SegView>, EntryV>, segs: Seq<SegView>, j: int) -> int
    decreases segs.len() - j,
{
    if j < 1 || j >= segs.len() {
        segs.len() as int
    } else if !step_ok(m, segs, j) {
        j
    } else {
        first_bad_from(m, segs, j + 1)
    }
}

pub open spec fn first_bad(m: Map<Seq<SegView>, EntryV>, segs: Seq<SegView>) -> int {
    first_bad_from(m, segs, 1)
}

/// The error of the whole walk: that of its first failing step.
pub open spec fn walk_err(m: Map<Seq<SegView>, EntryV>, segs: Seq<SegView>) -> AmError {
    step_err(m, segs, first_bad(m, segs))
}

pub proof fn lemma_first_bad_from(m: Map<Seq<SegView>, EntryV>, segs: Seq<SegView>, j: int)
    requires
        1 <= j <= segs.len(),
        forall|x: int| 1 <= x < j ==> #[trigger] step_ok(m, segs, x),
    ensures
        j <= first_bad_from(m, segs, j) <= segs.len(),
        first_bad_from(m, segs, j) == first_bad(m, segs),
        first_bad(m, segs) < segs.len() ==> !step_ok(m, segs, first_bad(m, segs)),
        first_bad(m, segs) < segs.len() ==> forall|x: int|
            1 <= x < first_bad(m, segs) ==> #[trigger] step_ok(m, segs, x),
        first_bad(m, segs) == segs.len() ==> walk_ok(m, segs),
    decreases segs.len() - j,
{
    if j < segs.len() && step_ok(m, segs, j) {
        lemma_first_bad_from(m, segs, j + 1);
    } else {
        assert forall|x: int| 1 <= x < j implies first_bad_from(m, segs, x) == first_bad_from(m, segs, j) by {
            lemma_first_bad_chain(m, segs, x, j);
        }
    }
}

proof fn lemma_first_bad_chain(m: Map<Seq<SegView>, EntryV>, segs: Seq<SegView>, x: int, j: int)
    requires
        1 <= x <= j <= segs.len(),
        forall|y: int| 1 <= y < j ==> #[trigger] step_ok(m, segs, y),
    ensures
        first_bad_from(m, segs, x) == first_bad_from(m, segs, j),
    decreases j - x,
{
    if x < j {
        lemma_first_bad_chain(m, segs, x + 1, j);
    }
}

/// `k` is one of the interior maps the walk over `segs` creates.
pub open spec fn created_at(m: Map<Seq<SegView>, EntryV>, segs: Seq<SegView>, k: Seq<SegView>) -> bool {
    exists|j: int| 1 <= j < segs.len() && k == #[trigger] segs.subrange(0, j) && !m.dom().contains(k)
}

/// The document after the create-maps walk: missing proper prefixes
/// of `segs` become empty interior maps.
pub open spec fn with_created(m: Map<Seq<SegView>, EntryV>, segs: Seq<SegView>) -> Map<Seq<SegView>, EntryV> {
    Map::new(
        |k: Seq<SegView>| m.dom().contains(k) || created_at(m, segs, k),
        |k: Seq<SegView>| if m.dom().contains(k) {
            m[k]
        } else {
            EntryV::MapObj
        },
    )
}

/// `k` is an interior map created by one of the first `j` steps.
pub open spec fn created_upto(
    m: Map<Seq<SegView>, EntryV>,
    segs: Seq<SegView>,
    k: Seq<SegView>,
    j: int,
) -> bool {
    exists|x: int| 1 <= x <= j && k == #[trigger] segs.subrange(0, x) && !m.dom().contains(k)
}

/// The document after the first `j` steps of the create-maps walk.
pub open spec fn with_created_upto(
    m: Map<Seq<SegView>, EntryV>,
    segs: Seq<SegView>,
    j: int,
) -> Map<Seq<SegView>, EntryV> {
    Map::new(
        |k: Seq<SegView>| m.dom().contains(k) || created_upto(m, segs, k, j),
        |k: Seq<SegView>| if m.dom().contains(k) {
            m[k]
        } else {
            EntryV::MapObj
        },
    )
}

pub proof fn lemma_upto_zero(m: Map<Seq<SegView>, EntryV>, segs: Seq<SegView>)
    ensures
        with_created_upto(m, segs, 0) == m,
{
    assert(with_created_upto(m, segs, 0) =~= m);
}

pub proof fn lemma_upto_full(m: Map<Seq<SegView>, EntryV>, segs: Seq<SegView>)
    requires
        segs.len() > 0,
    ensures
        with_created_upto(m, segs, segs.len() - 1) == with_created(m, segs),
{
    assert forall|k: Seq<SegView>|
        created_upto(m, segs, k, segs.len() - 1) == created_at(m, segs, k) by {
        if created_upto(m, segs, k, segs.len() - 1) {
            assert(created_at(m, segs, k));
        }
        if created_at(m, segs, k) {
            assert(created_upto(m, segs, k, segs.len() - 1));
        }
    }
    assert(with_created_upto(m, segs, segs.len() - 1) =~= with_created(m, segs));
}

pub proof fn lemma_upto_step(m: Map<Seq<SegView>, EntryV>, segs: Seq<SegView>, j: int)
    requires
        1 <= j < segs.len(),
    ensures
        with_created_upto(m, segs, j - 1).dom().contains(segs.subrange(0, j))
            <==> m.dom().contains(segs.subrange(0, j)),
        with_created_upto(m, segs, j - 1).dom().contains(segs.subrange(0, j))
            ==> with_created_upto(m, segs, j - 1)[segs.subrange(0, j)] == m[segs.subrange(0, j)],
        m.dom().contains(segs.subrange(0, j)) ==> with_created_upto(m, segs, j)
            == with_created_upto(m, segs, j - 1),
        !m.dom().contains(segs.subrange(0, j)) ==> with_created_upto(m, segs, j)
            == with_created_upto(m, segs, j - 1).insert(segs.subrange(0, j), EntryV::MapObj),
{
    let p = segs.subrange(0, j);
    assert forall|x: int| 1 <= x <= segs.len() implies (segs.subrange(0, x) =~= p <==> x == j) by {
        assert(segs.subrange(0, x).len() == x);
    }
    if m.dom().contains(p) {
        assert forall|k: Seq<SegView>|
            created_upto(m, segs, k, j) == created_upto(m, segs, k, j - 1) by {
            if created_upto(m, segs, k, j) {
                let x = choose|x: int| 1 <= x <= j && k == #[trigger] segs.subrange(0, x)
                    && !m.dom().contains(k);
                if x == j {
                    assert(k == p);
                    assert(false);
                }
            }
        }
        assert(with_created_upto(m, segs, j) =~= with_created_upto(m, segs, j - 1));
    } else {
        assert(created_upto(m, segs, p, j));
        assert forall|k: Seq<SegView>| k != p implies (created_upto(m, segs, k, j) == created_upto(
            m,
            segs,
            k,
            j - 1,
        )) by {
            if created_upto(m, segs, k, j) {
                let x = choose|x: int| 1 <= x <= j && k == #[trigger] segs.subrange(0, x)
                    && !m.dom().contains(k);
                if x == j {
                    assert(k == p);
                }
            }
        }
        assert(with_created_upto(m, segs, j) =~= with_created_upto(m, segs, j - 1).insert(
            p,
            EntryV::MapObj,
        ));
    }
}

/// How the walk's parent bookkeeping encodes the node kind.
pub open spec fn pk_matches(
    m: Map<Seq<SegView>, EntryV>,
    segs: Seq<SegView>,
    j: int,
    par: Option<usize>,
) -> bool {
    match par {
        Option::None => pk(m, segs, j) is MapObj,
        Option::Some(n) => pk(m, segs, j) == EntryV::ListObj(n as int),
    }
}

/// Put node `e` at `p`: everything below the old node goes away.
pub open spec fn place(m: Map<Seq<SegView>, EntryV>, p: Seq<SegView>, e: EntryV) -> Map<Seq<SegView>, EntryV> {
    prune(m, p).insert(p, e)
}

/// What a typed write at `segs` does: reject the empty path, walk the
/// proper prefixes creating interior maps, then place the scalar
/// under a map key or over an existing list slot.
pub open spec fn spec_put(m: Map<Seq<SegView>, EntryV>, segs: Seq<SegView>, v: ScalarV) -> Result<
    Map<Seq<SegView>, EntryV>,
    AmError,
> {
    if segs.len() == 0 {
        Result::Err(AmError::BadPath)
    } else if !walk_ok(m, segs) {
        Result::Err(walk_err(m, segs))
    } else {
        let m1 = with_created(m, segs);
        match (m1[segs.drop_last()], segs.last()) {
            (EntryV::MapObj, SegView::Key(_)) => Result::Ok(place(m1, segs, EntryV::Val(v))),
            (EntryV::MapObj, SegView::Index(_)) => Result::Err(AmError::IndexOutOfRange),
            (EntryV::ListObj(n), SegView::Index(i)) => if 0 <= i < n {
                Result::Ok(place(m1, segs, EntryV::Val(v)))
            } else {
                Result::Err(AmError::IndexOutOfRange)
            },
            (EntryV::ListObj(_), SegView::Key(_)) => Result::Err(AmError::PathTypeMismatch),
            _ => Result::Err(AmError::PathTypeMismatch),
        }
    }
}

/// What list creation at `segs` does: as a write, but the leaf must
/// be a map key and the node placed is an empty list.
pub open spec fn spec_create_list(m: Map<Seq<SegView>, EntryV>, segs: Seq<SegView>) -> Result<
    Map<Seq<SegView>, EntryV>,
    AmError,
> {
    if segs.len() == 0 {
        Result::Err(AmError::BadPath)
    } else if !walk_ok(m, segs) {
        Result::Err(walk_err(m, segs))
    } else {
        let m1 = with_created(m, segs);
        match (m1[segs.drop_last()], segs.last()) {
            (_, SegView::Index(_)) => Result::Err(AmError::BadPath),
            (EntryV::MapObj, SegView::Key(_)) => Result::Ok(place(m1, segs, EntryV::ListObj(0))),
            _ => Result::Err(AmError::PathTypeMismatch),
        }
    }
}

/// What an append at `segs` does: the path must already resolve to a
/// list (never auto-created); the value lands at the old length.
pub open spec fn spec_append(m: Map<Seq<SegView>, EntryV>, segs: Seq<SegView>, v: ScalarV) -> Result<
    Map<Seq<SegView>, EntryV>,
    AmError,
> {
    if !m.dom().contains(segs) {
        Result::Err(AmError::NotFound)
    } else {
        match m[segs] {
            EntryV::ListObj(n) => if n < usize::MAX as int {
                Result::Ok(
                    m.insert(segs, EntryV::ListObj(n + 1)).insert(
                        segs.push(SegView::Index(n)),
                        EntryV::Val(v),
                    ),
                )
            } else {
                Result::Err(AmError::IndexOutOfRange)
            },
            _ => Result::Err(AmError::NotFound),
        }
    }
}

/// What a read at `segs` sees: the node, if the path resolves.
pub open spec fn spec_get(m: Map<Seq<SegView>, EntryV>, segs: Seq<SegView>) -> Option<EntryV> {
    if m.dom().contains(segs) {
        Option::Some(m[segs])
    } else {
        Option::None
    }
}

/// The typed read of a text leaf; the empty path is a miss, as is any
/// node that is not a text scalar.
pub open spec fn spec_get_text(m: Map<Seq<SegView>, EntryV>, segs: Seq<SegView>) -> Option<Seq<char>> {
    if segs.len() == 0 {
        Option::None
    } else {
        match spec_get(m, segs) {
            Option::Some(EntryV::Val(ScalarV::Text(s))) => Option::Some(s),
            _ => Option::None,
        }
    }
}

pub open spec fn spec_get_int(m: Map<Seq<SegView>, EntryV>, segs: Seq<SegView>) -> Option<i64> {
    if segs.len() == 0 {
        Option::None
    } else {
        match spec_get(m, segs) {
            Option::Some(EntryV::Val(ScalarV::Int(i))) => Option::Some(i),
            _ => Option::None,
        }
    }
}

pub open spec fn spec_get_double(m: Map<Seq<SegView>, EntryV>, segs: Seq<SegView>) -> Option<Seq<char>> {
    if segs.len() == 0 {
        Option::None
    } else {
        match spec_get(m, segs) {
            Option::Some(EntryV::Val(ScalarV::Double(s))) => Option::Some(s),
            _ => Option::None,
        }
    }
}

pub open spec fn spec_get_bool(m: Map<Seq<SegView>, EntryV>, segs: Seq<SegView>) -> Option<bool> {
    if segs.len() == 0 {
        Option::None
    } else {
        match spec_get(m, segs) {
            Option::Some(EntryV::Val(ScalarV::Bool(b))) => Option::Some(b),
            _ => Option::None,
        }
    }
}

/// The create-maps walk leaves a well-formed document, touches no
/// present node, and ends on an interior node above the leaf.
pub proof fn lemma_with_created_wf(m: Map<Seq<SegView>, EntryV>, segs: Seq<SegView>)
    requires
        doc_wf(m),
        walk_ok(m, segs),
        segs.len() > 0,
    ensures
        ({
            let m1 = with_created(m, segs);
            &&& doc_wf(m1)
            &&& forall|k: Seq<SegView>| #[trigger] m.dom().contains(k) ==> m1.dom().contains(k)
                && m1[k] == m[k]
            &&& m1.dom().contains(segs.drop_last())
            &&& m1[segs.drop_last()] == pk(m, segs, segs.len() - 1)
            &&& is_object(m1[segs.drop_last()])
            &&& (m1.dom().contains(segs) <==> m.dom().contains(segs))
            &&& (m1.dom().contains(segs) ==> m1[segs] == m[segs])
        }),
{
    let m1 = with_created(m, segs);
    assert forall|k: Seq<SegView>| #[trigger] created_at(m, segs, k) implies k.len() < segs.len() by {
        let j = choose|j: int| 1 <= j < segs.len() && k == #[trigger] segs.subrange(0, j)
            && !m.dom().contains(k);
    }
    assert(!created_at(m, segs, segs));
    assert(!created_at(m, segs, Seq::<SegView>::empty()));

    // every created node is a map hanging off a map by a key
    assert forall|p: Seq<SegView>| m1.dom().contains(p) && p.len() > 0 implies parent_ok(m1, p) by {
        if m.dom().contains(p) {
            assert(parent_ok(m, p));
            let par = p.drop_last();
            assert(m1.dom().contains(par) && m1[par] == m[par]);
        } else {
            let j = choose|j: int| 1 <= j < segs.len() && p == #[trigger] segs.subrange(0, j)
                && !m.dom().contains(p);
            assert(step_ok(m, segs, j));
            let par = segs.subrange(0, j - 1);
            assert(p.drop_last() =~= par);
            assert(p.last() == segs[j - 1]);
            match segs[j - 1] {
                SegView::Key(_) => {
                    if m.dom().contains(par) {
                        assert(m1[par] == m[par]);
                        assert(m[par] is MapObj);
                    } else {
                        assert(par.len() == j - 1);
                        if j - 1 == 0 {
                            assert(par =~= Seq::<SegView>::empty());
                            assert(false);
                        } else {
                            assert(created_at(m, segs, par));
                            assert(m1[par] is MapObj);
                        }
                    }
                },
                SegView::Index(i) => {
                    match pk(m, segs, j - 1) {
                        EntryV::ListObj(n) => {
                            assert(m.dom().contains(par));
                            assert(m[par] == EntryV::ListObj(n));
                            assert(list_len_of(m[par]) == n);
                            assert(m.dom().contains(par.push(SegView::Index(i))));
                            assert(par.push(SegView::Index(i)) =~= p);
                            assert(false);
                        },
                        _ => {
                            assert(false);
                        },
                    }
                },
            }
        }
    }
    assert forall|p: Seq<SegView>, i: int|
        m1.dom().contains(p) && 0 <= i < list_len_of(m1[p]) implies m1.dom().contains(
        #[trigger] p.push(SegView::Index(i)),
    ) by {
        if m.dom().contains(p) {
            assert(m1[p] == m[p]);
        } else {
            assert(list_len_of(m1[p]) == 0);
        }
    }

    // the node above the leaf
    let par = segs.drop_last();
    assert(par =~= segs.subrange(0, segs.len() - 1));
    if segs.len() == 1 {
        assert(par =~= Seq::<SegView>::empty());
    } else {
        let j = segs.len() - 1;
        assert(step_ok(m, segs, j));
        if m.dom().contains(par) {
            assert(m1[par] == m[par]);
            assert(is_object(m[par]));
        } else {
            assert(created_at(m, segs, par));
        }
    }
}

/// Placing a leaf (or an empty list) over a matching parent slot
/// keeps the document well-formed.
pub proof fn lemma_place_wf(m1: Map<Seq<SegView>, EntryV>, p: Seq<SegView>, e: EntryV)
    requires
        doc_wf(m1),
        p.len() > 0,
        m1.dom().contains(p.drop_last()),
        match (m1[p.drop_last()], p.last()) {
            (EntryV::MapObj, SegView::Key(_)) => true,
            (EntryV::ListObj(n), SegView::Index(i)) => 0 <= i < n,
            _ => false,
        },
        list_len_of(e) == 0,
        !(e is MapObj),
    ensures
        doc_wf(place(m1, p, e)),
{
    let m2 = place(m1, p, e);
    assert(!strict_under(Seq::<SegView>::empty(), p));
    assert(m2.dom().contains(Seq::<SegView>::empty()));
    assert(m2[Seq::<SegView>::empty()] is MapObj);

    assert forall|q: Seq<SegView>| #[trigger] m2.dom().contains(q) && q.len() > 0 implies parent_ok(
        m2,
        q,
    ) by {
        if q == p {
            let par = p.drop_last();
            assert(!strict_under(par, p));
            assert(m2[par] == m1[par]);
        } else {
            assert(m1.dom().contains(q) && !strict_under(q, p));
            assert(parent_ok(m1, q));
            let par = q.drop_last();
            if par == p {
                assert(q.subrange(0, p.len() as int) =~= p);
                assert(strict_under(q, p));
                assert(false);
            } else if strict_under(par, p) {
                assert(q.subrange(0, p.len() as int) =~= par.subrange(0, p.len() as int));
                assert(strict_under(q, p));
                assert(false);
            } else {
                assert(m2.dom().contains(par));
                assert(m2[par] == m1[par]);
            }
        }
    }

    assert forall|q: Seq<SegView>, i: int|
        m2.dom().contains(q) && 0 <= i < list_len_of(m2[q]) implies m2.dom().contains(
        #[trigger] q.push(SegView::Index(i)),
    ) by {
        if q == p {
            assert(list_len_of(m2[q]) == 0);
        } else {
            assert(m1.dom().contains(q) && !strict_under(q, p) && m2[q] == m1[q]);
            let c = q.push(SegView::Index(i));
            assert(m1.dom().contains(c));
            if c == p {
                assert(m2.dom().contains(c));
            } else if strict_under(c, p) {
                assert(c.subrange(0, c.len() - 1) =~= q);
                if p.len() < c.len() - 1 {
                    assert(q.subrange(0, p.len() as int) =~= c.subrange(0, p.len() as int));
                    assert(strict_under(q, p));
                    assert(false);
                } else {
                    assert(p.len() == c.len() - 1);
                    assert(p =~= q);
                    assert(list_len_of(m2[q]) == 0);
                    assert(false);
                }
            } else {
                assert(m2.dom().contains(c));
            }
        }
    }
}

/// A successful typed write leaves a well-formed document.
pub proof fn lemma_put_wf(
    m: Map<Seq<SegView>, EntryV>,
    segs: Seq<SegView>,
    v: ScalarV,
    m2: Map<Seq<SegView>, EntryV>,
)
    requires
        doc_wf(m),
        spec_put(m, segs, v) == Result::<Map<Seq<SegView>, EntryV>, AmError>::Ok(m2),
    ensures
        doc_wf(m2),
{
    lemma_with_created_wf(m, segs);
    let m1 = with_created(m, segs);
    lemma_place_wf(m1, segs, EntryV::Val(v));
}

/// A successful list creation leaves a well-formed document.
pub proof fn lemma_create_list_wf(
    m: Map<Seq<SegView>, EntryV>,
    segs: Seq<SegView>,
    m2: Map<Seq<SegView>, EntryV>,
)
    requires
        doc_wf(m),
        spec_create_list(m, segs) == Result::<Map<Seq<SegView>, EntryV>, AmError>::Ok(m2),
    ensures
        doc_wf(m2),
{
    lemma_with_created_wf(m, segs);
    let m1 = with_created(m, segs);
    lemma_place_wf(m1, segs, EntryV::ListObj(0));
}

/// A successful append leaves a well-formed document.
pub proof fn lemma_append_wf(
    m: Map<Seq<SegView>, EntryV>,
    segs: Seq<SegView>,
    v: ScalarV,
    m2: Map<Seq<SegView>, EntryV>,
)
    requires
        doc_wf(m),
        spec_append(m, segs, v) == Result::<Map<Seq<SegView>, EntryV>, AmError>::Ok(m2),
    ensures
        doc_wf(m2),
{
    let n = list_len_of(m[segs]);
    let c = segs.push(SegView::Index(n));
    assert(segs.len() > 0) by {
        if segs.len() == 0 {
            assert(segs =~= Seq::<SegView>::empty());
            assert(m[segs] is MapObj);
        }
    }
    assert(!m.dom().contains(c)) by {
        if m.dom().contains(c) {
            assert(parent_ok(m, c));
            assert(c.drop_last() =~= segs);
            assert(c.last() == SegView::Index(n));
        }
    }
    assert(c.drop_last() =~= segs);

    assert forall|q: Seq<SegView>| #[trigger] m2.dom().contains(q) && q.len() > 0 implies parent_ok(
        m2,
        q,
    ) by {
        if q == c {
            assert(m2[segs] == EntryV::ListObj(n + 1));
        } else {
            assert(m.dom().contains(q));
            assert(parent_ok(m, q));
            let par = q.drop_last();
            assert(par != c);
            if par == segs {
                match q.last() {
                    SegView::Index(i) => {
                        assert(0 <= i < n);
                    },
                    _ => {
                        assert(false);
                    },
                }
            }
        }
    }

    assert forall|q: Seq<SegView>, i: int|
        m2.dom().contains(q) && 0 <= i < list_len_of(m2[q]) implies m2.dom().contains(
        #[trigger] q.push(SegView::Index(i)),
    ) by {
        if q == c {
            assert(list_len_of(m2[q]) == 0);
        } else if q == segs {
            if i < n {
                assert(m.dom().contains(q.push(SegView::Index(i))));
            } else {
                assert(i == n);
                assert(q.push(SegView::Index(i)) == c);
            }
        } else {
            assert(m.dom().contains(q) && m2[q] == m[q]);
            assert(m.dom().contains(q.push(SegView::Index(i))));
        }
    }
    assert(m2.dom().contains(Seq::<SegView>::empty()));
    assert(m2[Seq::<SegView>::empty()] is MapObj) by {
        assert(Seq::<SegView>::empty() != c);
        assert(Seq::<SegView>::empty() != segs);
    }
}

proof fn lemma_prefixes_contained(m: Map<Seq<SegView>, EntryV>, segs: Seq<SegView>, j: int)
    requires
        doc_wf(m),
        m.dom().contains(segs),
        0 <= j <= segs.len(),
    ensures
        m.dom().contains(segs.subrange(0, j)),
    decreases segs.len() - j,
{
    if j == segs.len() {
        assert(segs.subrange(0, j) =~= segs);
    } else {
        lemma_prefixes_contained(m, segs, j + 1);
        let p1 = segs.subrange(0, j + 1);
        assert(parent_ok(m, p1));
        assert(p1.drop_last() =~= segs.subrange(0, j));
    }
}

/// A path that already resolves can always be written over: the
/// walk to it cannot fail and its leaf hangs off a fitting parent.
pub proof fn lemma_resolved_put_ok(m: Map<Seq<SegView>, EntryV>, segs: Seq<SegView>, v: ScalarV)
    requires
        doc_wf(m),
        m.dom().contains(segs),
        segs.len() > 0,
    ensures
        spec_put(m, segs, v) is Ok,
{
    assert forall|j: int| 1 <= j < segs.len() implies #[trigger] step_ok(m, segs, j) by {
        lemma_prefixes_contained(m, segs, j - 1);
        lemma_prefixes_contained(m, segs, j);
        lemma_prefixes_contained(m, segs, j + 1);
        let p = segs.subrange(0, j);
        let par = segs.subrange(0, j - 1);
        let child = segs.subrange(0, j + 1);
        assert(parent_ok(m, p));
        assert(p.drop_last() =~= par);
        assert(p.last() == segs[j - 1]);
        assert(parent_ok(m, child));
        assert(child.drop_last() =~= p);
        assert(is_object(m[p]));
    }
    lemma_with_created_wf(m, segs);
    let m1 = with_created(m, segs);
    let par = segs.drop_last();
    assert(parent_ok(m, segs));
    assert(m1[par] == m[par]);
}

/// What a length query sees: a list's length, a map's number of
/// children (the engine's notion of a map's length), a miss on
/// everything else.
pub open spec fn spec_list_len(m: Map<Seq<SegView>, EntryV>, segs: Seq<SegView>) -> Option<int> {
    if !m.dom().contains(segs) {
        Option::None
    } else {
        match m[segs] {
            EntryV::ListObj(n) => Option::Some(n),
            EntryV::MapObj => Option::Some(children(m, segs).len() as int),
            _ => Option::None,
        }
    }
}

} // verus!
