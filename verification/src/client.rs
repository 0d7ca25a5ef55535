//! The client: one CRDT document handle per server key, a verified
//! path table mirroring the document tree, and a buffer of change
//! blobs for the host to drain.
//!
//! Every mutation validates against the table first, then applies to
//! both table and engine, commits one engine transaction and captures
//! the raw bytes of the change it produced.  Reads are answered from
//! the table alone.

use vstd::prelude::*;
use crate::AmError;
use crate::engine;
use crate::path::{parse_path, spec_parse, Segment, SegView, segs_view};
use crate::sem::{
    doc_wf, empty_doc, lemma_append_wf, lemma_empty_doc_wf, lemma_first_bad_from, lemma_place_wf,
    lemma_upto_full, lemma_upto_step, lemma_upto_zero, lemma_with_created_wf, pk, pk_matches,
    place, spec_append, spec_create_list, spec_get_bool, spec_get_double, spec_get_int,
    spec_get_text, spec_list_len, spec_put, step_err, step_ok, walk_err, walk_ok, with_created,
    with_created_upto,
};
use crate::table::{dup_path, Entry, EntryV, PathTable, Scalar, ScalarV};

verus! {

/// The blobs a capture contributes to the buffer: one or none.
pub open spec fn blobs_of(b: Option<Vec<u8>>) -> Seq<Seq<u8>> {
    match b {
        Option::Some(x) => seq![x@],
        Option::None => Seq::<Seq<u8>>::empty(),
    }
}

/// The segments a path denotes, where it denotes any.
pub open spec fn parsed(path: Seq<char>) -> Seq<SegView> {
    match spec_parse(path) {
        Option::Some(sv) => sv,
        Option::None => Seq::<SegView>::empty(),
    }
}

pub open spec fn opt_str_view(o: Option<String>) -> Option<Seq<char>> {
    match o {
        Option::Some(s) => Option::Some(s@),
        Option::None => Option::None,
    }
}

pub open spec fn opt_usize_view(o: Option<usize>) -> Option<int> {
    match o {
        Option::Some(n) => Option::Some(n as int),
        Option::None => Option::None,
    }
}

/// What a diff application at `sv` comes to: the post-image text,
/// or the error that stops it — a missing value, a value that is
/// not text, or a diff that does not align.
pub open spec fn diff_outcome(
    m: Map<Seq<SegView>, EntryV>,
    sv: Seq<SegView>,
    diff: Seq<char>,
) -> Result<Seq<char>, AmError> {
    if sv.len() == 0 {
        Result::Err(AmError::BadPath)
    } else {
        match crate::sem::spec_get(m, sv) {
            Option::Some(EntryV::Val(ScalarV::Text(s))) => match crate::diff::spec_apply_diff(
                s,
                diff,
            ) {
                Option::Some(t) => Result::Ok(t),
                Option::None => Result::Err(AmError::DiffMismatch),
            },
            Option::Some(_) => Result::Err(AmError::TypeMismatch),
            Option::None => Result::Err(AmError::NotFound),
        }
    }
}

/// A CRDT document under one server key, with its change buffer.
pub struct RedisAutomergeClient {
    doc: automerge::AutoCommit,
    table: PathTable,
    aof: Vec<Vec<u8>>,
}

impl RedisAutomergeClient {
    /// The document tree as a map from paths to nodes.
    pub closed spec fn model(&self) -> Map<Seq<SegView>, EntryV> {
        self.table@
    }

    /// The buffered change blobs, in order of production.
    pub closed spec fn buffer(&self) -> Seq<Seq<u8>> {
        self.aof.deep_view()
    }

    /// The table is duplicate-free and shapes a well-formed document.
    pub closed spec fn wf(&self) -> bool {
        self.table.distinct() && doc_wf(self.table@)
    }

    /// A well-formed client shapes a well-formed document: the
    /// bridge that lets the laws in `laws` speak about any client's
    /// model.
    pub proof fn lemma_wf_doc(&self)
        requires
            self.wf(),
        ensures
            doc_wf(self.model()),
    {
    }

    /// A fresh client: an empty document, an empty change buffer.
    pub fn new() -> (r: RedisAutomergeClient)
        ensures
            r.wf(),
            r.model() == empty_doc(),
            r.buffer() == Seq::<Seq<u8>>::empty(),
    {
        let mut table = PathTable::new();
        let root: Vec<Segment> = Vec::new();
        table.set(&root, Entry::MapObj);
        proof {
            assert(segs_view(root@) =~= Seq::<SegView>::empty());
            assert(table@ =~= empty_doc());
            lemma_empty_doc_wf();
        }
        let aof: Vec<Vec<u8>> = Vec::new();
        proof {
            assert(aof.deep_view() =~= Seq::<Seq<u8>>::empty());
        }
        RedisAutomergeClient { doc: engine::new_doc(), table, aof }
    }

    /// Validate the create-maps walk over all proper prefixes of
    /// `segs` against the table, without touching anything.  Returns
    /// the kind of the node the leaf will hang off: `None` for a map
    /// (present or to be created), `Some(n)` for a list of length `n`.
    fn check_walk(&self, segs: &Vec<Segment>) -> (r: Result<Option<usize>, AmError>)
        requires
            self.wf(),
            segs@.len() > 0,
        ensures
            match r {
                Result::Ok(par) => walk_ok(self.model(), segs_view(segs@)) && pk_matches(
                    self.model(),
                    segs_view(segs@),
                    segs_view(segs@).len() - 1,
                    par,
                ),
                Result::Err(e) => !walk_ok(self.model(), segs_view(segs@)) && e == walk_err(
                    self.model(),
                    segs_view(segs@),
                ),
            },
    {
        let ghost m = self.model();
        let ghost sv = segs_view(segs@);
        let n = segs.len();
        let mut prefix: Vec<Segment> = Vec::new();
        let mut par: Option<usize> = Option::None;
        proof {
            assert(segs_view(prefix@) =~= sv.subrange(0, 0));
            assert(sv.subrange(0, 0) =~= Seq::<SegView>::empty());
            assert(pk(m, sv, 0) is MapObj);
        }
        let mut j: usize = 1;
        while j < n
            invariant
                self.wf(),
                m == self.model(),
                sv == segs_view(segs@),
                n == segs@.len(),
                sv.len() == n,
                1 <= j <= n,
                prefix@.len() == j - 1,
                segs_view(prefix@) == sv.subrange(0, j - 1),
                forall|x: int| 1 <= x < j ==> #[trigger] step_ok(m, sv, x),
                pk_matches(m, sv, j - 1, par),
            decreases n - j,
        {
            let seg = segs[j - 1].dup();
            prefix.push(seg);
            proof {
                assert(segs_view(prefix@) =~= sv.subrange(0, j as int));
                assert(sv[j - 1] == segs@[j - 1]@);
            }
            let e = self.table.get(&prefix);
            let next: Option<usize>;
            match (&segs[j - 1], &par) {
                (Segment::Key(_), Option::Some(_)) => {
                    proof {
                        assert(!step_ok(m, sv, j as int));
                        lemma_first_bad_from(m, sv, j as int);
                        assert(step_err(m, sv, j as int) == AmError::PathTypeMismatch);
                    }
                    return Result::Err(AmError::PathTypeMismatch);
                },
                (Segment::Key(_), Option::None) => {
                    match e {
                        Option::Some(Entry::MapObj) => {
                            next = Option::None;
                        },
                        Option::Some(Entry::ListObj(ln)) => {
                            next = Option::Some(*ln);
                        },
                        Option::Some(_) => {
                            proof {
                                assert(!step_ok(m, sv, j as int));
                                lemma_first_bad_from(m, sv, j as int);
                            }
                            return Result::Err(AmError::PathTypeMismatch);
                        },
                        Option::None => {
                            next = Option::None;
                        },
                    }
                },
                (Segment::Index(_), Option::None) => {
                    proof {
                        assert(!step_ok(m, sv, j as int));
                        lemma_first_bad_from(m, sv, j as int);
                        assert(step_err(m, sv, j as int) == AmError::IndexOutOfRange);
                    }
                    return Result::Err(AmError::IndexOutOfRange);
                },
                (Segment::Index(i), Option::Some(ln)) => {
                    if *i >= *ln {
                        proof {
                            assert(!step_ok(m, sv, j as int));
                            lemma_first_bad_from(m, sv, j as int);
                            assert(step_err(m, sv, j as int) == AmError::IndexOutOfRange);
                        }
                        return Result::Err(AmError::IndexOutOfRange);
                    }
                    match e {
                        Option::Some(Entry::MapObj) => {
                            next = Option::None;
                        },
                        Option::Some(Entry::ListObj(l2)) => {
                            next = Option::Some(*l2);
                        },
                        Option::Some(_) => {
                            proof {
                                assert(!step_ok(m, sv, j as int));
                                lemma_first_bad_from(m, sv, j as int);
                                assert(step_err(m, sv, j as int) == AmError::PathTypeMismatch);
                            }
                            return Result::Err(AmError::PathTypeMismatch);
                        },
                        Option::None => {
                            proof {
                                let parp = sv.subrange(0, j - 1);
                                assert(m.dom().contains(parp));
                                assert(m[parp] == EntryV::ListObj(*ln as int));
                                assert(m.dom().contains(parp.push(SegView::Index(*i as int))));
                                assert(parp.push(SegView::Index(*i as int)) =~= sv.subrange(
                                    0,
                                    j as int,
                                ));
                                assert(false);
                            }
                            next = Option::None;
                        },
                    }
                },
            }
            proof {
                assert(step_ok(m, sv, j as int));
            }
            par = next;
            j += 1;
        }
        proof {
            assert(walk_ok(m, sv));
        }
        Result::Ok(par)
    }

    /// Perform the create-maps walk: insert the missing interior
    /// maps into the table and mirror them into the engine, tracking
    /// the engine object that will hold the leaf.  The engine hand
    /// is dropped (`None`) if the engine ever disagrees with the
    /// table, which the lockstep discipline rules out.
    fn materialize_walk(&mut self, segs: &Vec<Segment>) -> (r: Option<automerge::ObjId>)
        requires
            old(self).wf(),
            segs@.len() > 0,
            walk_ok(old(self).model(), segs_view(segs@)),
        ensures
            final(self).wf(),
            final(self).model() == with_created(old(self).model(), segs_view(segs@)),
            final(self).buffer() == old(self).buffer(),
    {
        let ghost m = old(self).model();
        let ghost sv = segs_view(segs@);
        let n = segs.len();
        let mut prefix: Vec<Segment> = Vec::new();
        let mut cur: Option<automerge::ObjId> = Option::Some(engine::root_obj());
        proof {
            lemma_upto_zero(m, sv);
            assert(segs_view(prefix@) =~= sv.subrange(0, 0));
        }
        let mut j: usize = 1;
        while j < n
            invariant
                old(self).wf(),
                m == old(self).model(),
                sv == segs_view(segs@),
                walk_ok(m, sv),
                n == segs@.len(),
                sv.len() == n,
                1 <= j <= n,
                prefix@.len() == j - 1,
                segs_view(prefix@) == sv.subrange(0, j - 1),
                self.table.distinct(),
                self.table@ == with_created_upto(m, sv, j - 1),
                self.aof == old(self).aof,
            decreases n - j,
        {
            let ghost table0 = self.table@;
            let seg = segs[j - 1].dup();
            prefix.push(seg);
            proof {
                assert(segs_view(prefix@) =~= sv.subrange(0, j as int));
                lemma_upto_step(m, sv, j as int);
            }
            let e = self.table.get(&prefix);
            match e {
                Option::Some(Entry::MapObj) | Option::Some(Entry::ListObj(_)) => {
                    // descend in the engine
                    let stepped: Option<automerge::ObjId> = match (&cur, &segs[j - 1]) {
                        (Option::Some(o), Segment::Key(k)) => {
                            match engine::get_key(&self.doc, o, k.as_str()) {
                                Option::Some(engine::EngNode::MapObj(id)) => Option::Some(id),
                                Option::Some(engine::EngNode::ListObj(id)) => Option::Some(id),
                                _ => Option::None,
                            }
                        },
                        (Option::Some(o), Segment::Index(i)) => {
                            match engine::get_index(&self.doc, o, *i) {
                                Option::Some(engine::EngNode::MapObj(id)) => Option::Some(id),
                                Option::Some(engine::EngNode::ListObj(id)) => Option::Some(id),
                                _ => Option::None,
                            }
                        },
                        (Option::None, _) => Option::None,
                    };
                    cur = stepped;
                },
                Option::Some(_) => {
                    proof {
                        assert(step_ok(m, sv, j as int));
                        assert(m.dom().contains(sv.subrange(0, j as int)));
                        assert(crate::sem::is_object(m[sv.subrange(0, j as int)]));
                        assert(false);
                    }
                    cur = Option::None;
                },
                Option::None => {
                    proof {
                        assert(!m.dom().contains(sv.subrange(0, j as int)));
                        assert(step_ok(m, sv, j as int));
                        match sv[j - 1] {
                            SegView::Index(i) => {
                                let parp = sv.subrange(0, j - 1);
                                assert(m.dom().contains(parp));
                                assert(m.dom().contains(parp.push(SegView::Index(i))));
                                assert(parp.push(SegView::Index(i)) =~= sv.subrange(0, j as int));
                                assert(false);
                            },
                            SegView::Key(_) => {},
                        }
                    }
                    self.table.set(&prefix, Entry::MapObj);
                    let stepped: Option<automerge::ObjId> = match (&cur, &segs[j - 1]) {
                        (Option::Some(o), Segment::Key(k)) => {
                            engine::put_map_key(&mut self.doc, o, k.as_str())
                        },
                        _ => Option::None,
                    };
                    cur = stepped;
                },
            }
            j += 1;
        }
        proof {
            lemma_upto_full(m, sv);
            lemma_with_created_wf(m, sv);
        }
        cur
    }

    /// Seal the open engine transaction; buffer and return the raw
    /// bytes of the change it produced, if it produced one.
    fn commit_and_buffer(&mut self) -> (r: Option<Vec<u8>>)
        requires
            old(self).wf(),
        ensures
            final(self).wf(),
            final(self).model() == old(self).model(),
            final(self).buffer() == old(self).buffer() + blobs_of(r),
    {
        let blob = engine::commit_capture(&mut self.doc);
        match &blob {
            Option::Some(b) => {
                let ghost aof0 = self.aof.deep_view();
                let ghost va0 = self.aof@;
                let copy = copy_bytes(b);
                self.aof.push(copy);
                proof {
                    let dv = self.aof.deep_view();
                    assert forall|i: int| 0 <= i < dv.len() implies dv[i] == (aof0 + blobs_of(
                        blob,
                    ))[i] by {
                        assert(dv[i] == self.aof@[i].deep_view());
                        assert(self.aof@[i].deep_view() =~= self.aof@[i]@);
                        if i < dv.len() - 1 {
                            assert(self.aof@[i] == va0[i]);
                            assert(aof0[i] == va0[i].deep_view());
                            assert(va0[i].deep_view() =~= va0[i]@);
                        }
                    }
                    assert(dv =~= aof0 + blobs_of(blob));
                }
            },
            Option::None => {
                proof {
                    assert(self.buffer() =~= old(self).buffer() + blobs_of(blob));
                }
            },
        }
        blob
    }

    /// Walk the engine's tree read-only to the object at `segs`.
    /// Purely a hand for the engine mirror; the table decides.
    fn engine_resolve(&self, segs: &Vec<Segment>) -> Option<automerge::ObjId> {
        let n = segs.len();
        let mut cur: Option<automerge::ObjId> = Option::Some(engine::root_obj());
        let mut i: usize = 0;
        while i < n
            invariant
                n == segs@.len(),
                0 <= i <= n,
            decreases n - i,
        {
            let stepped: Option<automerge::ObjId> = match (&cur, &segs[i]) {
                (Option::Some(o), Segment::Key(k)) => {
                    match engine::get_key(&self.doc, o, k.as_str()) {
                        Option::Some(engine::EngNode::MapObj(id)) => Option::Some(id),
                        Option::Some(engine::EngNode::ListObj(id)) => Option::Some(id),
                        _ => Option::None,
                    }
                },
                (Option::Some(o), Segment::Index(x)) => {
                    match engine::get_index(&self.doc, o, *x) {
                        Option::Some(engine::EngNode::MapObj(id)) => Option::Some(id),
                        Option::Some(engine::EngNode::ListObj(id)) => Option::Some(id),
                        _ => Option::None,
                    }
                },
                (Option::None, _) => Option::None,
            };
            cur = stepped;
            i += 1;
        }
        cur
    }

    /// Write scalar `val` at `segs`: the shared skeleton of the four
    /// typed puts.  On success the returned blob (if any) is the
    /// change the commit produced, already buffered.
    fn put_scalar(&mut self, segs: &Vec<Segment>, val: Scalar) -> (r: Result<
        Option<Vec<u8>>,
        AmError,
    >)
        requires
            old(self).wf(),
        ensures
            final(self).wf(),
            match r {
                Result::Ok(blob) => spec_put(old(self).model(), segs_view(segs@), val@)
                    == Result::<Map<Seq<SegView>, EntryV>, AmError>::Ok(final(self).model())
                    && final(self).buffer() == old(self).buffer() + blobs_of(blob),
                Result::Err(e) => spec_put(old(self).model(), segs_view(segs@), val@)
                    == Result::<Map<Seq<SegView>, EntryV>, AmError>::Err(e)
                    && *final(self) == *old(self),
            },
    {
        let ghost m = old(self).model();
        let ghost sv = segs_view(segs@);
        let n = segs.len();
        if n == 0 {
            return Result::Err(AmError::BadPath);
        }
        let par = match self.check_walk(segs) {
            Result::Ok(p) => p,
            Result::Err(e) => {
                return Result::Err(e);
            },
        };
        proof {
            lemma_with_created_wf(m, sv);
            assert(sv.drop_last() =~= sv.subrange(0, sv.len() - 1));
            assert(sv.last() == segs@[n - 1]@);
        }
        let ghost m1 = with_created(m, sv);
        match (&segs[n - 1], &par) {
            (Segment::Key(_), Option::Some(_)) => {
                return Result::Err(AmError::PathTypeMismatch);
            },
            (Segment::Index(_), Option::None) => {
                return Result::Err(AmError::IndexOutOfRange);
            },
            (Segment::Index(i), Option::Some(ln)) => {
                if *i >= *ln {
                    return Result::Err(AmError::IndexOutOfRange);
                }
            },
            (Segment::Key(_), Option::None) => {},
        }
        let eng_parent = self.materialize_walk(segs);
        match (&segs[n - 1], &eng_parent) {
            (Segment::Key(k), Option::Some(o)) => {
                engine::put_scalar_key(&mut self.doc, o, k.as_str(), &val);
            },
            (Segment::Index(i), Option::Some(o)) => {
                engine::put_scalar_index(&mut self.doc, o, *i, &val);
            },
            (_, Option::None) => {},
        }
        let ghost vv = val@;
        self.table.remove_descendants(segs);
        self.table.set(segs, Entry::Val(val));
        proof {
            assert(self.model() == place(m1, sv, EntryV::Val(vv)));
            lemma_place_wf(m1, sv, EntryV::Val(vv));
        }
        let blob = self.commit_and_buffer();
        Result::Ok(blob)
    }

    /// Create an empty list at `segs`, overwriting whatever was
    /// there; the leaf must be a map key.
    fn create_list_at(&mut self, segs: &Vec<Segment>) -> (r: Result<Option<Vec<u8>>, AmError>)
        requires
            old(self).wf(),
        ensures
            final(self).wf(),
            match r {
                Result::Ok(blob) => spec_create_list(old(self).model(), segs_view(segs@))
                    == Result::<Map<Seq<SegView>, EntryV>, AmError>::Ok(final(self).model())
                    && final(self).buffer() == old(self).buffer() + blobs_of(blob),
                Result::Err(e) => spec_create_list(old(self).model(), segs_view(segs@))
                    == Result::<Map<Seq<SegView>, EntryV>, AmError>::Err(e)
                    && *final(self) == *old(self),
            },
    {
        let ghost m = old(self).model();
        let ghost sv = segs_view(segs@);
        let n = segs.len();
        if n == 0 {
            return Result::Err(AmError::BadPath);
        }
        let par = match self.check_walk(segs) {
            Result::Ok(p) => p,
            Result::Err(e) => {
                return Result::Err(e);
            },
        };
        proof {
            lemma_with_created_wf(m, sv);
            assert(sv.drop_last() =~= sv.subrange(0, sv.len() - 1));
            assert(sv.last() == segs@[n - 1]@);
        }
        let ghost m1 = with_created(m, sv);
        match (&segs[n - 1], &par) {
            (Segment::Index(_), _) => {
                return Result::Err(AmError::BadPath);
            },
            (Segment::Key(_), Option::Some(_)) => {
                return Result::Err(AmError::PathTypeMismatch);
            },
            (Segment::Key(_), Option::None) => {},
        }
        let eng_parent = self.materialize_walk(segs);
        match (&segs[n - 1], &eng_parent) {
            (Segment::Key(k), Option::Some(o)) => {
                let _ = engine::put_list_key(&mut self.doc, o, k.as_str());
            },
            _ => {},
        }
        self.table.remove_descendants(segs);
        self.table.set(segs, Entry::ListObj(0));
        proof {
            assert(self.model() == place(m1, sv, EntryV::ListObj(0)));
            lemma_place_wf(m1, sv, EntryV::ListObj(0));
        }
        let blob = self.commit_and_buffer();
        Result::Ok(blob)
    }

    /// Append scalar `val` to the list at `segs`; the list must
    /// already exist, appends never create it.
    fn append_scalar(&mut self, segs: &Vec<Segment>, val: Scalar) -> (r: Result<
        Option<Vec<u8>>,
        AmError,
    >)
        requires
            old(self).wf(),
        ensures
            final(self).wf(),
            match r {
                Result::Ok(blob) => spec_append(old(self).model(), segs_view(segs@), val@)
                    == Result::<Map<Seq<SegView>, EntryV>, AmError>::Ok(final(self).model())
                    && final(self).buffer() == old(self).buffer() + blobs_of(blob),
                Result::Err(e) => spec_append(old(self).model(), segs_view(segs@), val@)
                    == Result::<Map<Seq<SegView>, EntryV>, AmError>::Err(e)
                    && *final(self) == *old(self),
            },
    {
        let ghost m = old(self).model();
        let ghost sv = segs_view(segs@);
        let n: usize = match self.table.get(segs) {
            Option::Some(Entry::ListObj(ln)) => *ln,
            Option::Some(_) => {
                return Result::Err(AmError::NotFound);
            },
            Option::None => {
                return Result::Err(AmError::NotFound);
            },
        };
        if n == usize::MAX {
            return Result::Err(AmError::IndexOutOfRange);
        }
        let lobj = self.engine_resolve(segs);
        match &lobj {
            Option::Some(o) => {
                engine::insert_scalar(&mut self.doc, o, n, &val);
            },
            Option::None => {},
        }
        let ghost vv = val@;
        self.table.set(segs, Entry::ListObj(n + 1));
        let mut child = dup_path(segs);
        child.push(Segment::Index(n));
        proof {
            assert(segs_view(child@) =~= sv.push(SegView::Index(n as int)));
        }
        self.table.set(&child, Entry::Val(val));
        proof {
            lemma_append_wf(m, sv, vv, self.model());
        }
        let blob = self.commit_and_buffer();
        Result::Ok(blob)
    }
}

impl RedisAutomergeClient {
    /// Append one blob to the change buffer.
    fn buf_push(&mut self, b: &Vec<u8>)
        requires
            old(self).wf(),
        ensures
            final(self).wf(),
            final(self).model() == old(self).model(),
            final(self).buffer() == old(self).buffer().push(b@),
    {
        let ghost aof0 = self.aof.deep_view();
        let ghost va0 = self.aof@;
        let copy = copy_bytes(b);
        self.aof.push(copy);
        proof {
            let dv = self.aof.deep_view();
            assert forall|i: int| 0 <= i < dv.len() implies dv[i] == aof0.push(b@)[i] by {
                assert(dv[i] == self.aof@[i].deep_view());
                assert(self.aof@[i].deep_view() =~= self.aof@[i]@);
                if i < dv.len() - 1 {
                    assert(self.aof@[i] == va0[i]);
                    assert(aof0[i] == va0[i].deep_view());
                    assert(va0[i].deep_view() =~= va0[i]@);
                }
            }
            assert(dv =~= aof0.push(b@));
        }
    }

    /// Rebuild the path table from the engine's tree, as after a
    /// snapshot load or a foreign merge.  A rendering the walk could
    /// not shape well-formed (which the lockstep discipline rules
    /// out) is replaced by the bare root.
    fn rebuild_table(&mut self)
        requires
            old(self).wf(),
        ensures
            final(self).wf(),
            final(self).buffer() == old(self).buffer(),
    {
        let mut table = root_table();
        let root = engine::root_obj();
        let rootp: Vec<Segment> = Vec::new();
        fill_map(&self.doc, &root, &mut table, &rootp, RENDER_DEPTH);
        if table.check_wf() {
            self.table = table;
        } else {
            let t = root_table();
            proof {
                lemma_empty_doc_wf();
            }
            self.table = t;
        }
    }

    /// The engine's canonical byte encoding of the whole document.
    pub fn save(&mut self) -> (r: Vec<u8>)
        requires
            old(self).wf(),
        ensures
            final(self).wf(),
            final(self).model() == old(self).model(),
            final(self).buffer() == old(self).buffer(),
    {
        engine::save_doc(&mut self.doc)
    }

    /// A new client rebuilt from snapshot bytes, with an empty
    /// change buffer; it succeeds exactly when the engine accepts
    /// the bytes as a snapshot.
    pub fn load(bytes: &[u8]) -> (r: Result<RedisAutomergeClient, AmError>)
        ensures
            match r {
                Result::Ok(c) => engine::snapshot_parses(bytes@) && c.wf() && c.buffer()
                    == Seq::<Seq<u8>>::empty(),
                Result::Err(e) => !engine::snapshot_parses(bytes@) && e == AmError::InvalidChange,
            },
    {
        match engine::load_doc(bytes) {
            Option::None => Result::Err(AmError::InvalidChange),
            Option::Some(doc) => {
                let table = root_table();
                let aof: Vec<Vec<u8>> = Vec::new();
                proof {
                    lemma_empty_doc_wf();
                    assert(aof.deep_view() =~= Seq::<Seq<u8>>::empty());
                }
                let mut client = RedisAutomergeClient { doc, table, aof };
                client.rebuild_table();
                Result::Ok(client)
            },
        }
    }

    /// Drain the change buffer: every blob applied or produced since
    /// the last drain, in order of production; the buffer is empty
    /// afterwards.
    pub fn commands(&mut self) -> (r: Vec<Vec<u8>>)
        requires
            old(self).wf(),
        ensures
            final(self).wf(),
            final(self).model() == old(self).model(),
            r.deep_view() == old(self).buffer(),
            final(self).buffer() == Seq::<Seq<u8>>::empty(),
    {
        let mut out: Vec<Vec<u8>> = Vec::new();
        proof {
            assert(out.deep_view() =~= Seq::<Seq<u8>>::empty());
        }
        core::mem::swap(&mut self.aof, &mut out);
        out
    }

    /// Ingest a batch of foreign change blobs.  Every blob must
    /// decode; the whole batch is handed to the engine at once, and
    /// the blobs are buffered exactly when the batch goes through.
    /// A batch with an undecodable blob changes nothing.
    pub fn apply_bytes(&mut self, blobs: &Vec<Vec<u8>>) -> (r: Result<(), AmError>)
        requires
            old(self).wf(),
        ensures
            final(self).wf(),
            match r {
                Result::Ok(()) => (forall|x: int|
                    0 <= x < blobs@.len() ==> engine::change_parses(#[trigger] blobs@[x]@))
                    && final(self).buffer() == old(self).buffer() + blobs.deep_view(),
                Result::Err(e) => e == AmError::InvalidChange && final(self).model() == old(
                    self,
                ).model() && final(self).buffer() == old(self).buffer() && ((exists|x: int|
                    0 <= x < blobs@.len() && !engine::change_parses(#[trigger] blobs@[x]@))
                    ==> *final(self) == *old(self)),
            },
    {
        let nb = blobs.len();
        let mut parsed: Vec<automerge::Change> = Vec::new();
        let mut i: usize = 0;
        while i < nb
            invariant
                old(self).wf(),
                *self == *old(self),
                nb == blobs@.len(),
                0 <= i <= nb,
                forall|x: int| 0 <= x < i ==> engine::change_parses(#[trigger] blobs@[x]@),
            decreases nb - i,
        {
            match engine::parse_change(&blobs[i]) {
                Option::Some(c) => {
                    parsed.push(c);
                },
                Option::None => {
                    return Result::Err(AmError::InvalidChange);
                },
            }
            i += 1;
        }
        let len0 = self.aof.len();
        let ghost buf0 = self.buffer();
        let mut i: usize = 0;
        while i < nb
            invariant
                old(self).wf(),
                self.wf(),
                self.model() == old(self).model(),
                nb == blobs@.len(),
                0 <= i <= nb,
                buf0 == old(self).buffer(),
                len0 == buf0.len(),
                self.buffer() == buf0 + blobs.deep_view().subrange(0, i as int),
            decreases nb - i,
        {
            let ghost b0 = self.buffer();
            self.buf_push(&blobs[i]);
            proof {
                assert(blobs.deep_view()[i as int] == blobs@[i as int].deep_view());
                assert(blobs@[i as int].deep_view() =~= blobs@[i as int]@);
                assert(b0.push(blobs@[i as int]@) =~= buf0 + blobs.deep_view().subrange(
                    0,
                    i as int + 1,
                ));
            }
            i += 1;
        }
        if engine::apply_changes(&mut self.doc, parsed) {
            proof {
                assert(blobs.deep_view().subrange(0, nb as int) =~= blobs.deep_view());
            }
            self.rebuild_table();
            Result::Ok(())
        } else {
            let ghost va_pre = self.aof@;
            let ghost pre = self.aof.deep_view();
            proof {
                assert(blobs.deep_view().subrange(0, nb as int) =~= blobs.deep_view());
            }
            self.aof.truncate(len0);
            proof {
                let dv = self.aof.deep_view();
                assert forall|x: int| 0 <= x < dv.len() implies dv[x] == buf0[x] by {
                    assert(dv[x] == self.aof@[x].deep_view());
                    assert(self.aof@[x] == va_pre[x]);
                    assert(pre[x] == va_pre[x].deep_view());
                    assert(pre[x] == (buf0 + blobs.deep_view())[x]);
                }
                assert(dv =~= buf0);
            }
            Result::Err(AmError::InvalidChange)
        }
    }
}

impl RedisAutomergeClient {
    /// Trim the change buffer back to its first `len0` blobs.
    fn buf_rollback(&mut self, len0: usize)
        requires
            old(self).wf(),
            len0 <= old(self).buffer().len(),
        ensures
            final(self).wf(),
            final(self).model() == old(self).model(),
            final(self).buffer() == old(self).buffer().subrange(0, len0 as int),
    {
        let ghost va_pre = self.aof@;
        let ghost pre = self.aof.deep_view();
        self.aof.truncate(len0);
        proof {
            let dv = self.aof.deep_view();
            assert forall|x: int| 0 <= x < dv.len() implies dv[x] == pre.subrange(
                0,
                len0 as int,
            )[x] by {
                assert(dv[x] == self.aof@[x].deep_view());
                assert(self.aof@[x] == va_pre[x]);
                assert(pre[x] == va_pre[x].deep_view());
            }
            assert(dv =~= pre.subrange(0, len0 as int));
        }
    }

    /// Write a text value at `path`, returning the captured change.
    pub fn put_text_with_change(&mut self, path: &str, value: &str) -> (r: Result<
        Option<Vec<u8>>,
        AmError,
    >)
        requires
            old(self).wf(),
        ensures
            final(self).wf(),
            match r {
                Result::Ok(blob) => spec_parse(path@) is Some && spec_put(
                    old(self).model(),
                    parsed(path@),
                    ScalarV::Text(value@),
                ) == Result::<Map<Seq<SegView>, EntryV>, AmError>::Ok(final(self).model())
                    && final(self).buffer() == old(self).buffer() + blobs_of(blob),
                Result::Err(e) => *final(self) == *old(self) && match spec_parse(path@) {
                    Option::None => e == AmError::BadPath,
                    Option::Some(sv) => spec_put(old(self).model(), sv, ScalarV::Text(value@))
                        == Result::<Map<Seq<SegView>, EntryV>, AmError>::Err(e),
                },
            },
    {
        let segs = match parse_path(path) {
            Result::Ok(s) => s,
            Result::Err(e) => {
                return Result::Err(e);
            },
        };
        self.put_scalar(&segs, Scalar::Text(value.to_owned()))
    }

    /// Write a text value at `path`.
    pub fn put_text(&mut self, path: &str, value: &str) -> (r: Result<(), AmError>)
        requires
            old(self).wf(),
        ensures
            final(self).wf(),
            match r {
                Result::Ok(()) => spec_parse(path@) is Some && spec_put(
                    old(self).model(),
                    parsed(path@),
                    ScalarV::Text(value@),
                ) == Result::<Map<Seq<SegView>, EntryV>, AmError>::Ok(final(self).model())
                    && old(self).buffer().is_prefix_of(final(self).buffer())
                    && final(self).buffer().len() <= old(self).buffer().len() + 1,
                Result::Err(e) => *final(self) == *old(self) && match spec_parse(path@) {
                    Option::None => e == AmError::BadPath,
                    Option::Some(sv) => spec_put(old(self).model(), sv, ScalarV::Text(value@))
                        == Result::<Map<Seq<SegView>, EntryV>, AmError>::Err(e),
                },
            },
    {
        match self.put_text_with_change(path, value) {
            Result::Ok(_) => Result::Ok(()),
            Result::Err(e) => Result::Err(e),
        }
    }

    /// Write an integer value at `path`, returning the captured
    /// change.
    pub fn put_int_with_change(&mut self, path: &str, value: i64) -> (r: Result<
        Option<Vec<u8>>,
        AmError,
    >)
        requires
            old(self).wf(),
        ensures
            final(self).wf(),
            match r {
                Result::Ok(blob) => spec_parse(path@) is Some && spec_put(
                    old(self).model(),
                    parsed(path@),
                    ScalarV::Int(value),
                ) == Result::<Map<Seq<SegView>, EntryV>, AmError>::Ok(final(self).model())
                    && final(self).buffer() == old(self).buffer() + blobs_of(blob),
                Result::Err(e) => *final(self) == *old(self) && match spec_parse(path@) {
                    Option::None => e == AmError::BadPath,
                    Option::Some(sv) => spec_put(old(self).model(), sv, ScalarV::Int(value))
                        == Result::<Map<Seq<SegView>, EntryV>, AmError>::Err(e),
                },
            },
    {
        let segs = match parse_path(path) {
            Result::Ok(s) => s,
            Result::Err(e) => {
                return Result::Err(e);
            },
        };
        self.put_scalar(&segs, Scalar::Int(value))
    }

    /// Write an integer value at `path`.
    pub fn put_int(&mut self, path: &str, value: i64) -> (r: Result<(), AmError>)
        requires
            old(self).wf(),
        ensures
            final(self).wf(),
            match r {
                Result::Ok(()) => spec_parse(path@) is Some && spec_put(
                    old(self).model(),
                    parsed(path@),
                    ScalarV::Int(value),
                ) == Result::<Map<Seq<SegView>, EntryV>, AmError>::Ok(final(self).model())
                    && old(self).buffer().is_prefix_of(final(self).buffer())
                    && final(self).buffer().len() <= old(self).buffer().len() + 1,
                Result::Err(e) => *final(self) == *old(self) && match spec_parse(path@) {
                    Option::None => e == AmError::BadPath,
                    Option::Some(sv) => spec_put(old(self).model(), sv, ScalarV::Int(value))
                        == Result::<Map<Seq<SegView>, EntryV>, AmError>::Err(e),
                },
            },
    {
        match self.put_int_with_change(path, value) {
            Result::Ok(_) => Result::Ok(()),
            Result::Err(e) => Result::Err(e),
        }
    }

    /// Write a double at `path`, given as decimal text, returning
    /// the captured change.  Text the host's floating-point parse
    /// refuses is `InvalidValue`.
    pub fn put_double_with_change(&mut self, path: &str, value: &str) -> (r: Result<
        Option<Vec<u8>>,
        AmError,
    >)
        requires
            old(self).wf(),
        ensures
            final(self).wf(),
            match r {
                Result::Ok(blob) => spec_parse(path@) is Some && engine::double_parses(value@)
                    && spec_put(old(self).model(), parsed(path@), ScalarV::Double(value@))
                    == Result::<Map<Seq<SegView>, EntryV>, AmError>::Ok(final(self).model())
                    && final(self).buffer() == old(self).buffer() + blobs_of(blob),
                Result::Err(e) => *final(self) == *old(self) && match spec_parse(path@) {
                    Option::None => e == AmError::BadPath,
                    Option::Some(sv) => if !engine::double_parses(value@) {
                        e == AmError::InvalidValue
                    } else {
                        spec_put(old(self).model(), sv, ScalarV::Double(value@))
                            == Result::<Map<Seq<SegView>, EntryV>, AmError>::Err(e)
                    },
                },
            },
    {
        let segs = match parse_path(path) {
            Result::Ok(s) => s,
            Result::Err(e) => {
                return Result::Err(e);
            },
        };
        if !engine::parse_double_ok(value) {
            return Result::Err(AmError::InvalidValue);
        }
        self.put_scalar(&segs, Scalar::Double(value.to_owned()))
    }

    /// Write a double at `path`, given as decimal text.
    pub fn put_double(&mut self, path: &str, value: &str) -> (r: Result<(), AmError>)
        requires
            old(self).wf(),
        ensures
            final(self).wf(),
            match r {
                Result::Ok(()) => spec_parse(path@) is Some && engine::double_parses(value@)
                    && spec_put(old(self).model(), parsed(path@), ScalarV::Double(value@))
                    == Result::<Map<Seq<SegView>, EntryV>, AmError>::Ok(final(self).model())
                    && old(self).buffer().is_prefix_of(final(self).buffer())
                    && final(self).buffer().len() <= old(self).buffer().len() + 1,
                Result::Err(e) => *final(self) == *old(self) && match spec_parse(path@) {
                    Option::None => e == AmError::BadPath,
                    Option::Some(sv) => if !engine::double_parses(value@) {
                        e == AmError::InvalidValue
                    } else {
                        spec_put(old(self).model(), sv, ScalarV::Double(value@))
                            == Result::<Map<Seq<SegView>, EntryV>, AmError>::Err(e)
                    },
                },
            },
    {
        match self.put_double_with_change(path, value) {
            Result::Ok(_) => Result::Ok(()),
            Result::Err(e) => Result::Err(e),
        }
    }

    /// Write a boolean at `path`, returning the captured change.
    pub fn put_bool_with_change(&mut self, path: &str, value: bool) -> (r: Result<
        Option<Vec<u8>>,
        AmError,
    >)
        requires
            old(self).wf(),
        ensures
            final(self).wf(),
            match r {
                Result::Ok(blob) => spec_parse(path@) is Some && spec_put(
                    old(self).model(),
                    parsed(path@),
                    ScalarV::Bool(value),
                ) == Result::<Map<Seq<SegView>, EntryV>, AmError>::Ok(final(self).model())
                    && final(self).buffer() == old(self).buffer() + blobs_of(blob),
                Result::Err(e) => *final(self) == *old(self) && match spec_parse(path@) {
                    Option::None => e == AmError::BadPath,
                    Option::Some(sv) => spec_put(old(self).model(), sv, ScalarV::Bool(value))
                        == Result::<Map<Seq<SegView>, EntryV>, AmError>::Err(e),
                },
            },
    {
        let segs = match parse_path(path) {
            Result::Ok(s) => s,
            Result::Err(e) => {
                return Result::Err(e);
            },
        };
        self.put_scalar(&segs, Scalar::Bool(value))
    }

    /// Write a boolean at `path`.
    pub fn put_bool(&mut self, path: &str, value: bool) -> (r: Result<(), AmError>)
        requires
            old(self).wf(),
        ensures
            final(self).wf(),
            match r {
                Result::Ok(()) => spec_parse(path@) is Some && spec_put(
                    old(self).model(),
                    parsed(path@),
                    ScalarV::Bool(value),
                ) == Result::<Map<Seq<SegView>, EntryV>, AmError>::Ok(final(self).model())
                    && old(self).buffer().is_prefix_of(final(self).buffer())
                    && final(self).buffer().len() <= old(self).buffer().len() + 1,
                Result::Err(e) => *final(self) == *old(self) && match spec_parse(path@) {
                    Option::None => e == AmError::BadPath,
                    Option::Some(sv) => spec_put(old(self).model(), sv, ScalarV::Bool(value))
                        == Result::<Map<Seq<SegView>, EntryV>, AmError>::Err(e),
                },
            },
    {
        match self.put_bool_with_change(path, value) {
            Result::Ok(_) => Result::Ok(()),
            Result::Err(e) => Result::Err(e),
        }
    }

    /// Read the text value at `path`; a miss or any other node kind
    /// is `None`, never an error.  Only a path that fails the
    /// grammar or denotes the root is refused.
    pub fn get_text(&self, path: &str) -> (r: Result<Option<String>, AmError>)
        requires
            self.wf(),
        ensures
            match r {
                Result::Ok(o) => spec_parse(path@) is Some && parsed(path@).len() > 0
                    && opt_str_view(o) == spec_get_text(self.model(), parsed(path@)),
                Result::Err(e) => e == AmError::BadPath && (spec_parse(path@) is None
                    || parsed(path@).len() == 0),
            },
    {
        let segs = match parse_path(path) {
            Result::Ok(s) => s,
            Result::Err(e) => {
                return Result::Err(e);
            },
        };
        if segs.len() == 0 {
            return Result::Err(AmError::BadPath);
        }
        match self.table.get(&segs) {
            Option::Some(Entry::Val(Scalar::Text(s))) => Result::Ok(Option::Some(s.clone())),
            _ => Result::Ok(Option::None),
        }
    }

    /// Read the integer value at `path`.
    pub fn get_int(&self, path: &str) -> (r: Result<Option<i64>, AmError>)
        requires
            self.wf(),
        ensures
            match r {
                Result::Ok(o) => spec_parse(path@) is Some && parsed(path@).len() > 0
                    && o == spec_get_int(self.model(), parsed(path@)),
                Result::Err(e) => e == AmError::BadPath && (spec_parse(path@) is None
                    || parsed(path@).len() == 0),
            },
    {
        let segs = match parse_path(path) {
            Result::Ok(s) => s,
            Result::Err(e) => {
                return Result::Err(e);
            },
        };
        if segs.len() == 0 {
            return Result::Err(AmError::BadPath);
        }
        match self.table.get(&segs) {
            Option::Some(Entry::Val(Scalar::Int(v))) => Result::Ok(Option::Some(*v)),
            _ => Result::Ok(Option::None),
        }
    }

    /// Read the double at `path`, as decimal text.
    pub fn get_double(&self, path: &str) -> (r: Result<Option<String>, AmError>)
        requires
            self.wf(),
        ensures
            match r {
                Result::Ok(o) => spec_parse(path@) is Some && parsed(path@).len() > 0
                    && opt_str_view(o) == spec_get_double(self.model(), parsed(path@)),
                Result::Err(e) => e == AmError::BadPath && (spec_parse(path@) is None
                    || parsed(path@).len() == 0),
            },
    {
        let segs = match parse_path(path) {
            Result::Ok(s) => s,
            Result::Err(e) => {
                return Result::Err(e);
            },
        };
        if segs.len() == 0 {
            return Result::Err(AmError::BadPath);
        }
        match self.table.get(&segs) {
            Option::Some(Entry::Val(Scalar::Double(s))) => Result::Ok(Option::Some(s.clone())),
            _ => Result::Ok(Option::None),
        }
    }

    /// Read the boolean at `path`.
    pub fn get_bool(&self, path: &str) -> (r: Result<Option<bool>, AmError>)
        requires
            self.wf(),
        ensures
            match r {
                Result::Ok(o) => spec_parse(path@) is Some && parsed(path@).len() > 0
                    && o == spec_get_bool(self.model(), parsed(path@)),
                Result::Err(e) => e == AmError::BadPath && (spec_parse(path@) is None
                    || parsed(path@).len() == 0),
            },
    {
        let segs = match parse_path(path) {
            Result::Ok(s) => s,
            Result::Err(e) => {
                return Result::Err(e);
            },
        };
        if segs.len() == 0 {
            return Result::Err(AmError::BadPath);
        }
        match self.table.get(&segs) {
            Option::Some(Entry::Val(Scalar::Bool(b))) => Result::Ok(Option::Some(*b)),
            _ => Result::Ok(Option::None),
        }
    }

    /// Create an empty list at `path`, returning the captured
    /// change.
    pub fn create_list_with_change(&mut self, path: &str) -> (r: Result<Option<Vec<u8>>, AmError>)
        requires
            old(self).wf(),
        ensures
            final(self).wf(),
            match r {
                Result::Ok(blob) => spec_parse(path@) is Some && spec_create_list(
                    old(self).model(),
                    parsed(path@),
                ) == Result::<Map<Seq<SegView>, EntryV>, AmError>::Ok(final(self).model())
                    && final(self).buffer() == old(self).buffer() + blobs_of(blob),
                Result::Err(e) => *final(self) == *old(self) && match spec_parse(path@) {
                    Option::None => e == AmError::BadPath,
                    Option::Some(sv) => spec_create_list(old(self).model(), sv)
                        == Result::<Map<Seq<SegView>, EntryV>, AmError>::Err(e),
                },
            },
    {
        let segs = match parse_path(path) {
            Result::Ok(s) => s,
            Result::Err(e) => {
                return Result::Err(e);
            },
        };
        self.create_list_at(&segs)
    }

    /// Create an empty list at `path`.
    pub fn create_list(&mut self, path: &str) -> (r: Result<(), AmError>)
        requires
            old(self).wf(),
        ensures
            final(self).wf(),
            match r {
                Result::Ok(()) => spec_parse(path@) is Some && spec_create_list(
                    old(self).model(),
                    parsed(path@),
                ) == Result::<Map<Seq<SegView>, EntryV>, AmError>::Ok(final(self).model())
                    && old(self).buffer().is_prefix_of(final(self).buffer())
                    && final(self).buffer().len() <= old(self).buffer().len() + 1,
                Result::Err(e) => *final(self) == *old(self) && match spec_parse(path@) {
                    Option::None => e == AmError::BadPath,
                    Option::Some(sv) => spec_create_list(old(self).model(), sv)
                        == Result::<Map<Seq<SegView>, EntryV>, AmError>::Err(e),
                },
            },
    {
        match self.create_list_with_change(path) {
            Result::Ok(_) => Result::Ok(()),
            Result::Err(e) => Result::Err(e),
        }
    }

    /// Append a text value to the list at `path`, returning the
    /// captured change.
    pub fn append_text_with_change(&mut self, path: &str, value: &str) -> (r: Result<
        Option<Vec<u8>>,
        AmError,
    >)
        requires
            old(self).wf(),
        ensures
            final(self).wf(),
            match r {
                Result::Ok(blob) => spec_parse(path@) is Some && spec_append(
                    old(self).model(),
                    parsed(path@),
                    ScalarV::Text(value@),
                ) == Result::<Map<Seq<SegView>, EntryV>, AmError>::Ok(final(self).model())
                    && final(self).buffer() == old(self).buffer() + blobs_of(blob),
                Result::Err(e) => *final(self) == *old(self) && match spec_parse(path@) {
                    Option::None => e == AmError::BadPath,
                    Option::Some(sv) => spec_append(old(self).model(), sv, ScalarV::Text(value@))
                        == Result::<Map<Seq<SegView>, EntryV>, AmError>::Err(e),
                },
            },
    {
        let segs = match parse_path(path) {
            Result::Ok(s) => s,
            Result::Err(e) => {
                return Result::Err(e);
            },
        };
        self.append_scalar(&segs, Scalar::Text(value.to_owned()))
    }

    /// Append a text value to the list at `path`.
    pub fn append_text(&mut self, path: &str, value: &str) -> (r: Result<(), AmError>)
        requires
            old(self).wf(),
        ensures
            final(self).wf(),
            match r {
                Result::Ok(()) => spec_parse(path@) is Some && spec_append(
                    old(self).model(),
                    parsed(path@),
                    ScalarV::Text(value@),
                ) == Result::<Map<Seq<SegView>, EntryV>, AmError>::Ok(final(self).model())
                    && old(self).buffer().is_prefix_of(final(self).buffer())
                    && final(self).buffer().len() <= old(self).buffer().len() + 1,
                Result::Err(e) => *final(self) == *old(self) && match spec_parse(path@) {
                    Option::None => e == AmError::BadPath,
                    Option::Some(sv) => spec_append(old(self).model(), sv, ScalarV::Text(value@))
                        == Result::<Map<Seq<SegView>, EntryV>, AmError>::Err(e),
                },
            },
    {
        match self.append_text_with_change(path, value) {
            Result::Ok(_) => Result::Ok(()),
            Result::Err(e) => Result::Err(e),
        }
    }

    /// Append an integer to the list at `path`, returning the
    /// captured change.
    pub fn append_int_with_change(&mut self, path: &str, value: i64) -> (r: Result<
        Option<Vec<u8>>,
        AmError,
    >)
        requires
            old(self).wf(),
        ensures
            final(self).wf(),
            match r {
                Result::Ok(blob) => spec_parse(path@) is Some && spec_append(
                    old(self).model(),
                    parsed(path@),
                    ScalarV::Int(value),
                ) == Result::<Map<Seq<SegView>, EntryV>, AmError>::Ok(final(self).model())
                    && final(self).buffer() == old(self).buffer() + blobs_of(blob),
                Result::Err(e) => *final(self) == *old(self) && match spec_parse(path@) {
                    Option::None => e == AmError::BadPath,
                    Option::Some(sv) => spec_append(old(self).model(), sv, ScalarV::Int(value))
                        == Result::<Map<Seq<SegView>, EntryV>, AmError>::Err(e),
                },
            },
    {
        let segs = match parse_path(path) {
            Result::Ok(s) => s,
            Result::Err(e) => {
                return Result::Err(e);
            },
        };
        self.append_scalar(&segs, Scalar::Int(value))
    }

    /// Append an integer to the list at `path`.
    pub fn append_int(&mut self, path: &str, value: i64) -> (r: Result<(), AmError>)
        requires
            old(self).wf(),
        ensures
            final(self).wf(),
            match r {
                Result::Ok(()) => spec_parse(path@) is Some && spec_append(
                    old(self).model(),
                    parsed(path@),
                    ScalarV::Int(value),
                ) == Result::<Map<Seq<SegView>, EntryV>, AmError>::Ok(final(self).model())
                    && old(self).buffer().is_prefix_of(final(self).buffer())
                    && final(self).buffer().len() <= old(self).buffer().len() + 1,
                Result::Err(e) => *final(self) == *old(self) && match spec_parse(path@) {
                    Option::None => e == AmError::BadPath,
                    Option::Some(sv) => spec_append(old(self).model(), sv, ScalarV::Int(value))
                        == Result::<Map<Seq<SegView>, EntryV>, AmError>::Err(e),
                },
            },
    {
        match self.append_int_with_change(path, value) {
            Result::Ok(_) => Result::Ok(()),
            Result::Err(e) => Result::Err(e),
        }
    }

    /// Append a double, given as decimal text, to the list at
    /// `path`, returning the captured change.
    pub fn append_double_with_change(&mut self, path: &str, value: &str) -> (r: Result<
        Option<Vec<u8>>,
        AmError,
    >)
        requires
            old(self).wf(),
        ensures
            final(self).wf(),
            match r {
                Result::Ok(blob) => spec_parse(path@) is Some && engine::double_parses(value@)
                    && spec_append(old(self).model(), parsed(path@), ScalarV::Double(value@))
                    == Result::<Map<Seq<SegView>, EntryV>, AmError>::Ok(final(self).model())
                    && final(self).buffer() == old(self).buffer() + blobs_of(blob),
                Result::Err(e) => *final(self) == *old(self) && match spec_parse(path@) {
                    Option::None => e == AmError::BadPath,
                    Option::Some(sv) => if !engine::double_parses(value@) {
                        e == AmError::InvalidValue
                    } else {
                        spec_append(old(self).model(), sv, ScalarV::Double(value@))
                            == Result::<Map<Seq<SegView>, EntryV>, AmError>::Err(e)
                    },
                },
            },
    {
        let segs = match parse_path(path) {
            Result::Ok(s) => s,
            Result::Err(e) => {
                return Result::Err(e);
            },
        };
        if !engine::parse_double_ok(value) {
            return Result::Err(AmError::InvalidValue);
        }
        self.append_scalar(&segs, Scalar::Double(value.to_owned()))
    }

    /// Append a double, given as decimal text, to the list at `path`.
    pub fn append_double(&mut self, path: &str, value: &str) -> (r: Result<(), AmError>)
        requires
            old(self).wf(),
        ensures
            final(self).wf(),
            match r {
                Result::Ok(()) => spec_parse(path@) is Some && engine::double_parses(value@)
                    && spec_append(old(self).model(), parsed(path@), ScalarV::Double(value@))
                    == Result::<Map<Seq<SegView>, EntryV>, AmError>::Ok(final(self).model())
                    && old(self).buffer().is_prefix_of(final(self).buffer())
                    && final(self).buffer().len() <= old(self).buffer().len() + 1,
                Result::Err(e) => *final(self) == *old(self) && match spec_parse(path@) {
                    Option::None => e == AmError::BadPath,
                    Option::Some(sv) => if !engine::double_parses(value@) {
                        e == AmError::InvalidValue
                    } else {
                        spec_append(old(self).model(), sv, ScalarV::Double(value@))
                            == Result::<Map<Seq<SegView>, EntryV>, AmError>::Err(e)
                    },
                },
            },
    {
        match self.append_double_with_change(path, value) {
            Result::Ok(_) => Result::Ok(()),
            Result::Err(e) => Result::Err(e),
        }
    }

    /// Append a boolean to the list at `path`, returning the
    /// captured change.
    pub fn append_bool_with_change(&mut self, path: &str, value: bool) -> (r: Result<
        Option<Vec<u8>>,
        AmError,
    >)
        requires
            old(self).wf(),
        ensures
            final(self).wf(),
            match r {
                Result::Ok(blob) => spec_parse(path@) is Some && spec_append(
                    old(self).model(),
                    parsed(path@),
                    ScalarV::Bool(value),
                ) == Result::<Map<Seq<SegView>, EntryV>, AmError>::Ok(final(self).model())
                    && final(self).buffer() == old(self).buffer() + blobs_of(blob),
                Result::Err(e) => *final(self) == *old(self) && match spec_parse(path@) {
                    Option::None => e == AmError::BadPath,
                    Option::Some(sv) => spec_append(old(self).model(), sv, ScalarV::Bool(value))
                        == Result::<Map<Seq<SegView>, EntryV>, AmError>::Err(e),
                },
            },
    {
        let segs = match parse_path(path) {
            Result::Ok(s) => s,
            Result::Err(e) => {
                return Result::Err(e);
            },
        };
        self.append_scalar(&segs, Scalar::Bool(value))
    }

    /// Append a boolean to the list at `path`.
    pub fn append_bool(&mut self, path: &str, value: bool) -> (r: Result<(), AmError>)
        requires
            old(self).wf(),
        ensures
            final(self).wf(),
            match r {
                Result::Ok(()) => spec_parse(path@) is Some && spec_append(
                    old(self).model(),
                    parsed(path@),
                    ScalarV::Bool(value),
                ) == Result::<Map<Seq<SegView>, EntryV>, AmError>::Ok(final(self).model())
                    && old(self).buffer().is_prefix_of(final(self).buffer())
                    && final(self).buffer().len() <= old(self).buffer().len() + 1,
                Result::Err(e) => *final(self) == *old(self) && match spec_parse(path@) {
                    Option::None => e == AmError::BadPath,
                    Option::Some(sv) => spec_append(old(self).model(), sv, ScalarV::Bool(value))
                        == Result::<Map<Seq<SegView>, EntryV>, AmError>::Err(e),
                },
            },
    {
        match self.append_bool_with_change(path, value) {
            Result::Ok(_) => Result::Ok(()),
            Result::Err(e) => Result::Err(e),
        }
    }

    /// The length of the node at `path`: a list's element count, a
    /// map's key count, `None` for a missing path or a leaf.
    pub fn list_len(&self, path: &str) -> (r: Result<Option<usize>, AmError>)
        requires
            self.wf(),
        ensures
            match r {
                Result::Ok(o) => spec_parse(path@) is Some && opt_usize_view(o) == spec_list_len(
                    self.model(),
                    parsed(path@),
                ),
                Result::Err(e) => spec_parse(path@) is None && e == AmError::BadPath,
            },
    {
        let segs = match parse_path(path) {
            Result::Ok(s) => s,
            Result::Err(e) => {
                return Result::Err(e);
            },
        };
        match self.table.get(&segs) {
            Option::Some(Entry::ListObj(n)) => Result::Ok(Option::Some(*n)),
            Option::Some(Entry::MapObj) => Result::Ok(
                Option::Some(self.table.count_children(&segs)),
            ),
            _ => Result::Ok(Option::None),
        }
    }

    /// Apply a unified diff to the text at `path`, returning the
    /// captured change.  The post-image replaces the whole value.
    pub fn put_diff_with_change(&mut self, path: &str, diff: &str) -> (r: Result<
        Option<Vec<u8>>,
        AmError,
    >)
        requires
            old(self).wf(),
        ensures
            final(self).wf(),
            match r {
                Result::Ok(blob) => spec_parse(path@) is Some && diff_outcome(
                    old(self).model(),
                    parsed(path@),
                    diff@,
                ) is Ok && spec_put(
                    old(self).model(),
                    parsed(path@),
                    ScalarV::Text(diff_outcome(old(self).model(), parsed(path@), diff@)->Ok_0),
                ) == Result::<Map<Seq<SegView>, EntryV>, AmError>::Ok(final(self).model())
                    && final(self).buffer() == old(self).buffer() + blobs_of(blob),
                Result::Err(e) => *final(self) == *old(self) && match spec_parse(path@) {
                    Option::None => e == AmError::BadPath,
                    Option::Some(sv) => diff_outcome(old(self).model(), sv, diff@)
                        == Result::<Seq<char>, AmError>::Err(e),
                },
            },
    {
        let segs = match parse_path(path) {
            Result::Ok(s) => s,
            Result::Err(e) => {
                return Result::Err(e);
            },
        };
        if segs.len() == 0 {
            return Result::Err(AmError::BadPath);
        }
        let cur: String = match self.table.get(&segs) {
            Option::Some(Entry::Val(Scalar::Text(s))) => s.clone(),
            Option::Some(_) => {
                return Result::Err(AmError::TypeMismatch);
            },
            Option::None => {
                return Result::Err(AmError::NotFound);
            },
        };
        let newtext = match crate::diff::apply_diff(cur.as_str(), diff) {
            Option::Some(t) => t,
            Option::None => {
                return Result::Err(AmError::DiffMismatch);
            },
        };
        proof {
            crate::sem::lemma_resolved_put_ok(
                self.model(),
                segs_view(segs@),
                ScalarV::Text(newtext@),
            );
        }
        // A path that already resolved always accepts a write.
        match self.put_scalar(&segs, Scalar::Text(newtext)) {
            Result::Ok(blob) => Result::Ok(blob),
            Result::Err(e) => {
                proof {
                    assert(false);
                }
                Result::Err(e)
            },
        }
    }

    /// Apply a unified diff to the text at `path`.
    pub fn put_diff(&mut self, path: &str, diff: &str) -> (r: Result<(), AmError>)
        requires
            old(self).wf(),
        ensures
            final(self).wf(),
            match r {
                Result::Ok(()) => spec_parse(path@) is Some && diff_outcome(
                    old(self).model(),
                    parsed(path@),
                    diff@,
                ) is Ok && spec_put(
                    old(self).model(),
                    parsed(path@),
                    ScalarV::Text(diff_outcome(old(self).model(), parsed(path@), diff@)->Ok_0),
                ) == Result::<Map<Seq<SegView>, EntryV>, AmError>::Ok(final(self).model())
                    && old(self).buffer().is_prefix_of(final(self).buffer())
                    && final(self).buffer().len() <= old(self).buffer().len() + 1,
                Result::Err(e) => *final(self) == *old(self) && match spec_parse(path@) {
                    Option::None => e == AmError::BadPath,
                    Option::Some(sv) => diff_outcome(old(self).model(), sv, diff@)
                        == Result::<Seq<char>, AmError>::Err(e),
                },
            },
    {
        match self.put_diff_with_change(path, diff) {
            Result::Ok(_) => Result::Ok(()),
            Result::Err(e) => Result::Err(e),
        }
    }

    /// Ingest one foreign change blob.
    pub fn apply_change_bytes(&mut self, bytes: &[u8]) -> (r: Result<(), AmError>)
        requires
            old(self).wf(),
        ensures
            final(self).wf(),
            match r {
                Result::Ok(()) => engine::change_parses(bytes@) && final(self).buffer() == old(
                    self,
                ).buffer().push(bytes@),
                Result::Err(e) => e == AmError::InvalidChange && final(self).model() == old(
                    self,
                ).model() && final(self).buffer() == old(self).buffer() && (!engine::change_parses(
                    bytes@,
                ) ==> *final(self) == *old(self)),
            },
    {
        let v = copy_slice(bytes);
        let c = match engine::parse_change(&v) {
            Option::Some(c) => c,
            Option::None => {
                return Result::Err(AmError::InvalidChange);
            },
        };
        let len0 = self.aof.len();
        let ghost buf0 = self.buffer();
        self.buf_push(&v);
        let mut cs: Vec<automerge::Change> = Vec::new();
        cs.push(c);
        if engine::apply_changes(&mut self.doc, cs) {
            self.rebuild_table();
            Result::Ok(())
        } else {
            proof {
                assert(buf0.push(bytes@).subrange(0, len0 as int) =~= buf0);
            }
            self.buf_rollback(len0);
            Result::Err(AmError::InvalidChange)
        }
    }

    /// Ingest a batch of already decoded changes, buffering each
    /// change's raw bytes; a refused batch leaves the buffer as it
    /// was.
    pub fn apply(&mut self, changes: Vec<automerge::Change>) -> (r: Result<(), AmError>)
        requires
            old(self).wf(),
        ensures
            final(self).wf(),
            match r {
                Result::Ok(()) => final(self).buffer().len() == old(self).buffer().len()
                    + changes@.len() && old(self).buffer().is_prefix_of(final(self).buffer()),
                Result::Err(e) => e == AmError::InvalidChange && final(self).model() == old(
                    self,
                ).model() && final(self).buffer() == old(self).buffer(),
            },
    {
        let len0 = self.aof.len();
        let ghost buf0 = self.buffer();
        let nc = changes.len();
        let mut i: usize = 0;
        while i < nc
            invariant
                old(self).wf(),
                self.wf(),
                self.model() == old(self).model(),
                nc == changes@.len(),
                0 <= i <= nc,
                buf0 == old(self).buffer(),
                len0 == buf0.len(),
                self.buffer().len() == buf0.len() + i,
                self.buffer().subrange(0, len0 as int) == buf0,
            decreases nc - i,
        {
            let raw = engine::change_raw(&changes[i]);
            let ghost b0 = self.buffer();
            self.buf_push(&raw);
            proof {
                assert(self.buffer().subrange(0, len0 as int) =~= b0.subrange(0, len0 as int));
            }
            i += 1;
        }
        if engine::apply_changes(&mut self.doc, changes) {
            proof {
                assert(buf0.is_prefix_of(self.buffer()));
            }
            self.rebuild_table();
            Result::Ok(())
        } else {
            self.buf_rollback(len0);
            proof {
                assert(final(self).buffer() =~= buf0);
            }
            Result::Err(AmError::InvalidChange)
        }
    }
}

/// Convenience methods for the host's persistence layers.
pub trait RedisAutomergeExt: Sized {
    /// The implementor's own well-formedness.
    spec fn ext_wf(&self) -> bool;

    /// The implementor's document tree.
    spec fn ext_model(&self) -> Map<Seq<SegView>, EntryV>;

    /// The implementor's buffered change blobs.
    spec fn ext_buffer(&self) -> Seq<Seq<u8>>;

    /// Rebuild from persisted snapshot bytes; succeeds exactly when
    /// the engine accepts them, with an empty change buffer.
    fn load(bytes: &[u8]) -> (r: Result<Self, AmError>)
        ensures
            match r {
                Result::Ok(c) => crate::engine::snapshot_parses(bytes@) && c.ext_wf()
                    && c.ext_buffer() == Seq::<Seq<u8>>::empty(),
                Result::Err(e) => !crate::engine::snapshot_parses(bytes@) && e
                    == AmError::InvalidChange,
            },
    ;

    /// The snapshot bytes of the current state; the document and
    /// the buffer stay as they were.
    fn save(&mut self) -> (r: Vec<u8>)
        requires
            old(self).ext_wf(),
        ensures
            final(self).ext_wf(),
            final(self).ext_model() == old(self).ext_model(),
            final(self).ext_buffer() == old(self).ext_buffer(),
    ;

    /// Apply decoded changes, recording their raw bytes for drain;
    /// a refused batch leaves the document and the buffer as they
    /// were.
    fn apply(&mut self, changes: Vec<automerge::Change>) -> (r: Result<(), AmError>)
        requires
            old(self).ext_wf(),
        ensures
            final(self).ext_wf(),
            match r {
                Result::Ok(()) => final(self).ext_buffer().len() == old(self).ext_buffer().len()
                    + changes@.len() && old(self).ext_buffer().is_prefix_of(
                    final(self).ext_buffer(),
                ),
                Result::Err(e) => e == AmError::InvalidChange && final(self).ext_model() == old(
                    self,
                ).ext_model() && final(self).ext_buffer() == old(self).ext_buffer(),
            },
    ;

    /// Drain the recorded change blobs: everything buffered since
    /// the last drain, in order; the buffer is empty afterwards.
    fn commands(&mut self) -> (r: Vec<Vec<u8>>)
        requires
            old(self).ext_wf(),
        ensures
            final(self).ext_wf(),
            final(self).ext_model() == old(self).ext_model(),
            r.deep_view() == old(self).ext_buffer(),
            final(self).ext_buffer() == Seq::<Seq<u8>>::empty(),
    ;
}

impl RedisAutomergeExt for RedisAutomergeClient {
    open spec fn ext_wf(&self) -> bool {
        self.wf()
    }

    open spec fn ext_model(&self) -> Map<Seq<SegView>, EntryV> {
        self.model()
    }

    open spec fn ext_buffer(&self) -> Seq<Seq<u8>> {
        self.buffer()
    }

    fn load(bytes: &[u8]) -> (r: Result<RedisAutomergeClient, AmError>) {
        RedisAutomergeClient::load(bytes)
    }

    fn save(&mut self) -> Vec<u8> {
        RedisAutomergeClient::save(self)
    }

    fn apply(&mut self, changes: Vec<automerge::Change>) -> (r: Result<(), AmError>) {
        RedisAutomergeClient::apply(self, changes)
    }

    fn commands(&mut self) -> Vec<Vec<u8>> {
        RedisAutomergeClient::commands(self)
    }
}

impl Default for RedisAutomergeClient {
    /// The same client `new` builds.
    fn default() -> (r: RedisAutomergeClient)
        ensures
            r.wf(),
            r.model() == empty_doc(),
            r.buffer() == Seq::<Seq<u8>>::empty(),
    {
        RedisAutomergeClient::new()
    }
}

/// A byte-for-byte copy of a byte slice.
fn copy_slice(b: &[u8]) -> (r: Vec<u8>)
    ensures
        r@ == b@,
{
    let mut out: Vec<u8> = Vec::new();
    let n = b.len();
    let mut i: usize = 0;
    while i < n
        invariant
            n == b@.len(),
            0 <= i <= n,
            out@ == b@.subrange(0, i as int),
        decreases n - i,
    {
        out.push(b[i]);
        proof {
            assert(out@ =~= b@.subrange(0, i as int + 1));
        }
        i += 1;
    }
    proof {
        assert(out@ =~= b@);
    }
    out
}

/// How deep a foreign document is rendered into the table; nodes
/// below this depth are dropped (the table stays well-formed).
const RENDER_DEPTH: usize = 512;

/// A fresh table holding only the root map.
fn root_table() -> (t: PathTable)
    ensures
        t@ == empty_doc(),
        t.distinct(),
{
    let mut table = PathTable::new();
    let root: Vec<Segment> = Vec::new();
    table.set(&root, Entry::MapObj);
    proof {
        assert(segs_view(root@) =~= Seq::<SegView>::empty());
        assert(table@ =~= empty_doc());
    }
    table
}

/// Render the children of an engine map object into the table, at
/// path `at`, descending at most `fuel` levels further.
fn fill_map(
    doc: &automerge::AutoCommit,
    obj: &automerge::ObjId,
    table: &mut PathTable,
    at: &Vec<Segment>,
    fuel: usize,
)
    requires
        old(table).distinct(),
    ensures
        final(table).distinct(),
    decreases fuel, 1int,
{
    let keys = engine::keys_of(doc, obj);
    let nk = keys.len();
    let mut kdx: usize = 0;
    while kdx < nk
        invariant
            nk == keys@.len(),
            0 <= kdx <= nk,
            table.distinct(),
        decreases nk - kdx,
    {
        let k = keys[kdx].clone();
        let mut child = dup_path(at);
        child.push(Segment::Key(k.clone()));
        match engine::get_key(doc, obj, k.as_str()) {
            Option::Some(engine::EngNode::MapObj(id)) => {
                table.set(&child, Entry::MapObj);
                if fuel > 0 {
                    fill_map(doc, &id, table, &child, fuel - 1);
                }
            },
            Option::Some(engine::EngNode::ListObj(id)) => {
                fill_list(doc, &id, table, &child, fuel);
            },
            Option::Some(engine::EngNode::TextObj) => {
                table.set(&child, Entry::Other);
            },
            Option::Some(engine::EngNode::Str(s)) => {
                table.set(&child, Entry::Val(Scalar::Text(s)));
            },
            Option::Some(engine::EngNode::Int(v)) => {
                table.set(&child, Entry::Val(Scalar::Int(v)));
            },
            Option::Some(engine::EngNode::Double(s)) => {
                table.set(&child, Entry::Val(Scalar::Double(s)));
            },
            Option::Some(engine::EngNode::Bool(b)) => {
                table.set(&child, Entry::Val(Scalar::Bool(b)));
            },
            Option::Some(engine::EngNode::Opaque) => {
                table.set(&child, Entry::Other);
            },
            Option::None => {},
        }
        kdx += 1;
    }
}

/// Render an engine list object into the table at path `at`: its
/// entry with its length, and one entry per element.
fn fill_list(
    doc: &automerge::AutoCommit,
    obj: &automerge::ObjId,
    table: &mut PathTable,
    at: &Vec<Segment>,
    fuel: usize,
)
    requires
        old(table).distinct(),
    ensures
        final(table).distinct(),
    decreases fuel, 0int,
{
    let n = engine::length_of(doc, obj);
    table.set(at, Entry::ListObj(n));
    let mut i: usize = 0;
    while i < n
        invariant
            0 <= i <= n,
            table.distinct(),
        decreases n - i,
    {
        let mut child = dup_path(at);
        child.push(Segment::Index(i));
        match engine::get_index(doc, obj, i) {
            Option::Some(engine::EngNode::MapObj(id)) => {
                table.set(&child, Entry::MapObj);
                if fuel > 0 {
                    fill_map(doc, &id, table, &child, fuel - 1);
                }
            },
            Option::Some(engine::EngNode::ListObj(id)) => {
                if fuel > 0 {
                    fill_list(doc, &id, table, &child, fuel - 1);
                } else {
                    table.set(&child, Entry::ListObj(0));
                }
            },
            Option::Some(engine::EngNode::Str(s)) => {
                table.set(&child, Entry::Val(Scalar::Text(s)));
            },
            Option::Some(engine::EngNode::Int(v)) => {
                table.set(&child, Entry::Val(Scalar::Int(v)));
            },
            Option::Some(engine::EngNode::Double(s)) => {
                table.set(&child, Entry::Val(Scalar::Double(s)));
            },
            Option::Some(engine::EngNode::Bool(b)) => {
                table.set(&child, Entry::Val(Scalar::Bool(b)));
            },
            Option::Some(engine::EngNode::TextObj) => {
                table.set(&child, Entry::Other);
            },
            Option::Some(engine::EngNode::Opaque) => {
                table.set(&child, Entry::Other);
            },
            Option::None => {
                table.set(&child, Entry::Other);
            },
        }
        i += 1;
    }
}

/// A byte-for-byte copy of a blob.
fn copy_bytes(b: &Vec<u8>) -> (r: Vec<u8>)
    ensures
        r@ == b@,
{
    let mut out: Vec<u8> = Vec::new();
    let n = b.len();
    let mut i: usize = 0;
    while i < n
        invariant
            n == b@.len(),
            0 <= i <= n,
            out@ == b@.subrange(0, i as int),
        decreases n - i,
    {
        out.push(b[i]);
        proof {
            assert(out@ =~= b@.subrange(0, i as int + 1));
        }
        i += 1;
    }
    proof {
        assert(out@ =~= b@);
    }
    out
}

} // verus!
