//! The core's own rendering of the document tree: a flat table from
//! full paths to nodes.
//!
//! The CRDT engine's tree is opaque to the verifier, so the client
//! keeps this table in lockstep with it and all navigation, type
//! checks and reads are verified against the table.  A row maps a
//! whole path (a segment vector) to the node found there; interior
//! nodes appear as `MapObj` / `ListObj`, leaves as scalars.

use vstd::prelude::*;
use crate::path::{Segment, SegView, segs_view};

verus! {

/// A scalar leaf value.  Doubles travel as their decimal text: the
/// verified core never touches floating point, and the engine parses
/// the text into its native number on write.
#[derive(Debug)]
pub enum Scalar {
    Text(String),
    Int(i64),
    Double(String),
    Bool(bool),
}

/// The mathematical image of a scalar.
pub enum ScalarV {
    Text(Seq<char>),
    Int(i64),
    Double(Seq<char>),
    Bool(bool),
}

impl View for Scalar {
    type V = ScalarV;

    open spec fn view(&self) -> ScalarV {
        match self {
            Scalar::Text(s) => ScalarV::Text(s@),
            Scalar::Int(i) => ScalarV::Int(*i),
            Scalar::Double(s) => ScalarV::Double(s@),
            Scalar::Bool(b) => ScalarV::Bool(*b),
        }
    }
}

impl Scalar {
    /// An owned copy with the same value.
    pub fn dup(&self) -> (r: Scalar)
        ensures
            r@ == self@,
    {
        match self {
            Scalar::Text(s) => Scalar::Text(s.clone()),
            Scalar::Int(i) => Scalar::Int(*i),
            Scalar::Double(s) => Scalar::Double(s.clone()),
            Scalar::Bool(b) => Scalar::Bool(*b),
        }
    }
}

/// One node of the document tree.
#[derive(Debug)]
pub enum Entry {
    /// An interior map.
    MapObj,
    /// An interior list, with its length.
    ListObj(usize),
    /// A scalar leaf.
    Val(Scalar),
    /// A node of a kind the core does not type: foreign scalars
    /// (counters, timestamps, raw bytes, unsigned integers, nulls)
    /// and text objects, which can arrive in foreign changes or
    /// snapshots.  Reads of typed values treat it as a miss.
    Other,
}

/// The mathematical image of a node.
pub enum EntryV {
    MapObj,
    ListObj(int),
    Val(ScalarV),
    Other,
}

impl View for Entry {
    type V = EntryV;

    open spec fn view(&self) -> EntryV {
        match self {
            Entry::MapObj => EntryV::MapObj,
            Entry::ListObj(n) => EntryV::ListObj(*n as int),
            Entry::Val(s) => EntryV::Val(s@),
            Entry::Other => EntryV::Other,
        }
    }
}

impl Entry {
    /// An owned copy with the same value.
    pub fn dup(&self) -> (r: Entry)
        ensures
            r@ == self@,
    {
        match self {
            Entry::MapObj => Entry::MapObj,
            Entry::ListObj(n) => Entry::ListObj(*n),
            Entry::Val(s) => Entry::Val(s.dup()),
            Entry::Other => Entry::Other,
        }
    }
}

/// `k` lies strictly below `p` in the tree.
pub open spec fn strict_under(k: Seq<SegView>, p: Seq<SegView>) -> bool {
    k.len() > p.len() && k.subrange(0, p.len() as int) == p
}

/// `k` is a direct child of `p`.
pub open spec fn child_of(k: Seq<SegView>, p: Seq<SegView>) -> bool {
    k.len() == p.len() + 1 && k.subrange(0, p.len() as int) == p
}

/// Compare two segments by value.
pub fn seg_eq(a: &Segment, b: &Segment) -> (r: bool)
    ensures
        r == (a@ == b@),
{
    match (a, b) {
        (Segment::Key(x), Segment::Key(y)) => x.eq(y),
        (Segment::Index(x), Segment::Index(y)) => x == y,
        _ => false,
    }
}

/// Compare two paths by value.
pub fn path_eq(a: &Vec<Segment>, b: &Vec<Segment>) -> (r: bool)
    ensures
        r == (segs_view(a@) == segs_view(b@)),
{
    if a.len() != b.len() {
        assert(segs_view(a@).len() != segs_view(b@).len());
        return false;
    }
    let n = a.len();
    let mut i: usize = 0;
    while i < n
        invariant
            n == a@.len() && n == b@.len(),
            0 <= i <= n,
            forall|j: int| 0 <= j < i ==> #[trigger] a@[j]@ == b@[j]@,
        decreases n - i,
    {
        if !seg_eq(&a[i], &b[i]) {
            assert(segs_view(a@)[i as int] != segs_view(b@)[i as int]);
            return false;
        }
        i += 1;
    }
    proof {
        assert(segs_view(a@) =~= segs_view(b@));
    }
    true
}

/// An owned copy of a path.
pub fn dup_path(p: &Vec<Segment>) -> (r: Vec<Segment>)
    ensures
        segs_view(r@) == segs_view(p@),
{
    let mut out: Vec<Segment> = Vec::new();
    let n = p.len();
    let mut i: usize = 0;
    while i < n
        invariant
            n == p@.len(),
            0 <= i <= n,
            out@.len() == i,
            forall|j: int| 0 <= j < i ==> #[trigger] out@[j]@ == p@[j]@,
        decreases n - i,
    {
        let s = match &p[i] {
            Segment::Key(k) => Segment::Key(k.clone()),
            Segment::Index(x) => Segment::Index(*x),
        };
        assert(s@ == p@[i as int]@);
        out.push(s);
        i += 1;
    }
    proof {
        assert(segs_view(out@) =~= segs_view(p@));
    }
    out
}

/// Does the path `k` lie strictly below `p`?
pub fn path_strict_under(k: &Vec<Segment>, p: &Vec<Segment>) -> (r: bool)
    ensures
        r == strict_under(segs_view(k@), segs_view(p@)),
{
    if k.len() <= p.len() {
        return false;
    }
    let n = p.len();
    let mut i: usize = 0;
    while i < n
        invariant
            n == p@.len(),
            k@.len() > n,
            0 <= i <= n,
            forall|j: int| 0 <= j < i ==> #[trigger] k@[j]@ == p@[j]@,
        decreases n - i,
    {
        if !seg_eq(&k[i], &p[i]) {
            assert(segs_view(k@).subrange(0, n as int)[i as int] != segs_view(p@)[i as int]);
            return false;
        }
        i += 1;
    }
    proof {
        assert(segs_view(k@).subrange(0, n as int) =~= segs_view(p@));
    }
    true
}

/// Is the path `k` a direct child of `p`?
pub fn path_child_of(k: &Vec<Segment>, p: &Vec<Segment>) -> (r: bool)
    ensures
        r == child_of(segs_view(k@), segs_view(p@)),
{
    if k.len() < 1 || k.len() - 1 != p.len() {
        return false;
    }
    let n = p.len();
    let mut i: usize = 0;
    while i < n
        invariant
            n == p@.len(),
            k@.len() == n + 1,
            0 <= i <= n,
            forall|j: int| 0 <= j < i ==> #[trigger] k@[j]@ == p@[j]@,
        decreases n - i,
    {
        if !seg_eq(&k[i], &p[i]) {
            assert(segs_view(k@).subrange(0, n as int)[i as int] != segs_view(p@)[i as int]);
            return false;
        }
        i += 1;
    }
    proof {
        assert(segs_view(k@).subrange(0, n as int) =~= segs_view(p@));
    }
    true
}

/// The map denoted by a row sequence; a later row with the same path
/// would win, though well-formed tables keep paths distinct.
pub open spec fn to_map(s: Seq<(Vec<Segment>, Entry)>) -> Map<Seq<SegView>, EntryV>
    decreases s.len(),
{
    if s.len() == 0 {
        Map::empty()
    } else {
        to_map(s.drop_last()).insert(segs_view(s.last().0@), s.last().1@)
    }
}

/// No two rows name the same path.
pub open spec fn keys_distinct(s: Seq<(Vec<Segment>, Entry)>) -> bool {
    forall|i: int, j: int|
        #![trigger s[i], s[j]]
        0 <= i < j < s.len() ==> segs_view(s[i].0@) != segs_view(s[j].0@)
}

pub proof fn lemma_to_map_contains(s: Seq<(Vec<Segment>, Entry)>, k: Seq<SegView>)
    ensures
        to_map(s).contains_key(k) <==> exists|i: int|
            0 <= i < s.len() && segs_view(#[trigger] s[i].0@) == k,
    decreases s.len(),
{
    if s.len() > 0 {
        let s0 = s.drop_last();
        lemma_to_map_contains(s0, k);
        let lk = segs_view(s.last().0@);
        if k == lk {
            assert(segs_view(s[s.len() - 1].0@) == k);
        } else {
            if to_map(s).contains_key(k) {
                let i = choose|i: int| 0 <= i < s0.len() && segs_view(#[trigger] s0[i].0@) == k;
                assert(s0[i] == s[i]);
            }
            if exists|i: int| 0 <= i < s.len() && segs_view(#[trigger] s[i].0@) == k {
                let i = choose|i: int| 0 <= i < s.len() && segs_view(#[trigger] s[i].0@) == k;
                assert(i < s.len() - 1);
                assert(s0[i] == s[i]);
            }
        }
    }
}

pub proof fn lemma_to_map_value(s: Seq<(Vec<Segment>, Entry)>, i: int)
    requires
        keys_distinct(s),
        0 <= i < s.len(),
    ensures
        to_map(s).contains_key(segs_view(s[i].0@)),
        to_map(s)[segs_view(s[i].0@)] == s[i].1@,
    decreases s.len(),
{
    let s0 = s.drop_last();
    if i == s.len() - 1 {
    } else {
        assert(keys_distinct(s0)) by {
            assert(forall|x: int, y: int|
                0 <= x < y < s0.len() ==> s0[x] == s[x] && s0[y] == s[y]);
        }
        assert(s0[i] == s[i]);
        lemma_to_map_value(s0, i);
        assert(segs_view(s[s.len() - 1].0@) != segs_view(s[i].0@));
    }
}

pub proof fn lemma_to_map_push(s: Seq<(Vec<Segment>, Entry)>, row: (Vec<Segment>, Entry))
    ensures
        to_map(s.push(row)) == to_map(s).insert(segs_view(row.0@), row.1@),
{
    assert(s.push(row).drop_last() =~= s);
    assert(s.push(row).last() == row);
}

/// The finite domain of a row map.
pub proof fn lemma_to_map_finite(s: Seq<(Vec<Segment>, Entry)>)
    ensures
        to_map(s).dom().finite(),
    decreases s.len(),
{
    if s.len() > 0 {
        lemma_to_map_finite(s.drop_last());
    }
}

/// The flat path table.  All typed reads and the whole navigation
/// logic of the client run against it.
pub struct PathTable {
    rows: Vec<(Vec<Segment>, Entry)>,
}

impl View for PathTable {
    type V = Map<Seq<SegView>, EntryV>;

    closed spec fn view(&self) -> Map<Seq<SegView>, EntryV> {
        to_map(self.rows@)
    }
}

impl PathTable {
    /// Rows name pairwise distinct paths.
    pub closed spec fn distinct(&self) -> bool {
        keys_distinct(self.rows@)
    }

    pub proof fn lemma_finite(&self)
        ensures
            self@.dom().finite(),
    {
        lemma_to_map_finite(self.rows@);
    }

    /// The empty table.
    pub fn new() -> (r: PathTable)
        ensures
            r@ == Map::<Seq<SegView>, EntryV>::empty(),
            r.distinct(),
    {
        PathTable { rows: Vec::new() }
    }

    /// The row index holding path `p`, if any.
    fn find(&self, p: &Vec<Segment>) -> (r: Option<usize>)
        requires
            self.distinct(),
        ensures
            match r {
                Option::Some(i) => i < self.rows@.len()
                    && segs_view(self.rows@[i as int].0@) == segs_view(p@)
                    && self@.contains_key(segs_view(p@))
                    && self@[segs_view(p@)] == self.rows@[i as int].1@,
                Option::None => !self@.contains_key(segs_view(p@)),
            },
    {
        let n = self.rows.len();
        let mut i: usize = 0;
        while i < n
            invariant
                self.distinct(),
                n == self.rows@.len(),
                0 <= i <= n,
                forall|j: int| 0 <= j < i ==> segs_view(#[trigger] self.rows@[j].0@) != segs_view(p@),
            decreases n - i,
        {
            if path_eq(&self.rows[i].0, p) {
                proof {
                    lemma_to_map_value(self.rows@, i as int);
                }
                return Option::Some(i);
            }
            i += 1;
        }
        proof {
            lemma_to_map_contains(self.rows@, segs_view(p@));
        }
        Option::None
    }

    /// The node at path `p`, if any.
    pub fn get<'a>(&'a self, p: &Vec<Segment>) -> (r: Option<&'a Entry>)
        requires
            self.distinct(),
        ensures
            match r {
                Option::Some(e) => self@.contains_key(segs_view(p@))
                    && self@[segs_view(p@)] == e@,
                Option::None => !self@.contains_key(segs_view(p@)),
            },
    {
        match self.find(p) {
            Option::Some(i) => Option::Some(&self.rows[i].1),
            Option::None => Option::None,
        }
    }

    /// Bind path `p` to node `e`, replacing any previous binding.
    pub fn set(&mut self, p: &Vec<Segment>, e: Entry)
        requires
            old(self).distinct(),
        ensures
            final(self).distinct(),
            final(self)@ == old(self)@.insert(segs_view(p@), e@),
    {
        let ghost pv = segs_view(p@);
        match self.find(p) {
            Option::Some(i) => {
                let ghost s = self.rows@;
                let row = (dup_path(p), e);
                self.rows.set(i, row);
                proof {
                    lemma_set_row(s, i as int, row);
                }
            },
            Option::None => {
                let ghost s = self.rows@;
                let row = (dup_path(p), e);
                self.rows.push(row);
                proof {
                    lemma_to_map_push(s, row);
                    lemma_to_map_contains(s, pv);
                    assert forall|x: int, y: int|
                        0 <= x < y < self.rows@.len() implies segs_view(#[trigger] self.rows@[x].0@)
                        != segs_view(#[trigger] self.rows@[y].0@) by {
                        if y < s.len() {
                            assert(self.rows@[x] == s[x] && self.rows@[y] == s[y]);
                        } else {
                            assert(self.rows@[x] == s[x]);
                        }
                    }
                }
            },
        }
    }

    /// Drop every row strictly below `p`.
    pub fn remove_descendants(&mut self, p: &Vec<Segment>)
        requires
            old(self).distinct(),
        ensures
            final(self).distinct(),
            final(self)@ == prune(old(self)@, segs_view(p@)),
    {
        let ghost pv = segs_view(p@);
        let ghost s = self.rows@;
        let mut out: Vec<(Vec<Segment>, Entry)> = Vec::new();
        let n = self.rows.len();
        let mut i: usize = 0;
        while i < n
            invariant
                n == s.len(),
                self.rows@ == s,
                keys_distinct(s),
                pv == segs_view(p@),
                0 <= i <= n,
                keys_distinct(out@),
                to_map(out@) == prune(to_map(s.take(i as int)), pv),
                forall|x: int| 0 <= x < out@.len() ==> exists|y: int|
                    0 <= y < i && segs_view(#[trigger] out@[x].0@) == segs_view(#[trigger] s[y].0@),
            decreases n - i,
        {
            let ghost out0 = out@;
            let ghost m0 = to_map(s.take(i as int));
            proof {
                assert(s.take(i as int + 1).drop_last() =~= s.take(i as int));
                assert(s.take(i as int + 1).last() == s[i as int]);
            }
            let keep = !path_strict_under(&self.rows[i].0, p);
            let ghost ki = segs_view(s[i as int].0@);
            proof {
                lemma_to_map_contains(s.take(i as int), ki);
                assert(forall|y: int| 0 <= y < i ==> s.take(i as int)[y] == s[y]);
                assert(!to_map(s.take(i as int)).contains_key(ki));
            }
            if keep {
                let row = (dup_path(&self.rows[i].0), self.rows[i].1.dup());
                out.push(row);
                proof {
                    lemma_to_map_push(out0, row);
                    assert(to_map(out@) =~= prune(to_map(s.take(i as int + 1)), pv));
                    assert forall|x: int, y: int|
                        0 <= x < y < out@.len() implies segs_view(#[trigger] out@[x].0@)
                        != segs_view(#[trigger] out@[y].0@) by {
                        if y < out0.len() {
                            assert(out@[x] == out0[x] && out@[y] == out0[y]);
                        } else {
                            assert(out@[x] == out0[x]);
                            lemma_to_map_contains(out0, segs_view(out0[x].0@));
                        }
                    }
                }
            } else {
                proof {
                    assert(to_map(out@) =~= prune(to_map(s.take(i as int + 1)), pv));
                }
            }
            i += 1;
        }
        proof {
            assert(s.take(n as int) =~= s);
        }
        self.rows = out;
    }

    /// How many direct children `p` has.
    pub fn count_children(&self, p: &Vec<Segment>) -> (r: usize)
        requires
            self.distinct(),
        ensures
            r as int == children(self@, segs_view(p@)).len(),
    {
        let ghost pv = segs_view(p@);
        let ghost s = self.rows@;
        let n = self.rows.len();
        let mut count: usize = 0;
        let mut i: usize = 0;
        proof {
            assert(s.take(0) =~= Seq::<(Vec<Segment>, Entry)>::empty());
            assert(children(to_map(s.take(0)), pv) =~= Set::<Seq<SegView>>::empty());
        }
        while i < n
            invariant
                n == s.len(),
                self.rows@ == s,
                keys_distinct(s),
                pv == segs_view(p@),
                0 <= i <= n,
                count <= i,
                count as int == children(to_map(s.take(i as int)), pv).len(),
            decreases n - i,
        {
            proof {
                assert(s.take(i as int + 1).drop_last() =~= s.take(i as int));
                assert(s.take(i as int + 1).last() == s[i as int]);
            }
            let ghost ki = segs_view(s[i as int].0@);
            let ghost m0 = to_map(s.take(i as int));
            proof {
                lemma_to_map_contains(s.take(i as int), ki);
                assert(forall|y: int| 0 <= y < i ==> s.take(i as int)[y] == s[y]);
                assert(!m0.contains_key(ki));
                lemma_to_map_finite(s.take(i as int));
                children_finite(m0, pv);
            }
            if path_child_of(&self.rows[i].0, p) {
                proof {
                    assert(children(to_map(s.take(i as int + 1)), pv)
                        =~= children(m0, pv).insert(ki));
                    assert(!children(m0, pv).contains(ki));
                }
                count += 1;
            } else {
                proof {
                    assert(children(to_map(s.take(i as int + 1)), pv)
                        =~= children(m0, pv));
                }
            }
            i += 1;
        }
        proof {
            assert(s.take(n as int) =~= s);
        }
        count
    }
}

/// The first `k` segments of a path, as an owned copy.
pub fn prefix_path(p: &Vec<Segment>, k: usize) -> (r: Vec<Segment>)
    requires
        k <= p@.len(),
    ensures
        segs_view(r@) == segs_view(p@).subrange(0, k as int),
{
    let mut out: Vec<Segment> = Vec::new();
    let mut i: usize = 0;
    while i < k
        invariant
            k <= p@.len(),
            0 <= i <= k,
            out@.len() == i,
            forall|j: int| 0 <= j < i ==> #[trigger] out@[j]@ == p@[j]@,
        decreases k - i,
    {
        out.push(p[i].dup());
        i += 1;
    }
    proof {
        assert(segs_view(out@) =~= segs_view(p@).subrange(0, k as int));
    }
    out
}

/// One row's contribution to well-formedness: attached to a fitting
/// parent, and, if a list, fully populated.
spec fn row_ok(m: Map<Seq<SegView>, EntryV>, row: (Vec<Segment>, Entry)) -> bool {
    let p = segs_view(row.0@);
    &&& (p.len() > 0 ==> crate::sem::parent_ok(m, p))
    &&& (forall|i: int|
        0 <= i < crate::sem::list_len_of(row.1@) ==> m.dom().contains(
            #[trigger] p.push(SegView::Index(i)),
        ))
}

impl PathTable {
    /// Decide whether the table shapes a well-formed document.
    pub fn check_wf(&self) -> (r: bool)
        requires
            self.distinct(),
        ensures
            r == crate::sem::doc_wf(self@),
    {
        let ghost m = self@;
        let rootp: Vec<Segment> = Vec::new();
        proof {
            assert(segs_view(rootp@) =~= Seq::<SegView>::empty());
        }
        match self.get(&rootp) {
            Option::Some(Entry::MapObj) => {},
            _ => {
                return false;
            },
        }
        let n = self.rows.len();
        let mut idx: usize = 0;
        while idx < n
            invariant
                self.distinct(),
                m == self@,
                m.dom().contains(Seq::<SegView>::empty()),
                m[Seq::<SegView>::empty()] is MapObj,
                n == self.rows@.len(),
                0 <= idx <= n,
                forall|x: int| 0 <= x < idx ==> row_ok(m, #[trigger] self.rows@[x]),
            decreases n - idx,
        {
            proof {
                lemma_to_map_value(self.rows@, idx as int);
            }
            let ghost pv = segs_view(self.rows@[idx as int].0@);
            let plen = self.rows[idx].0.len();
            if plen > 0 {
                let parent = prefix_path(&self.rows[idx].0, plen - 1);
                proof {
                    assert(pv.drop_last() =~= segs_view(parent@));
                    assert(pv.last() == self.rows@[idx as int].0@[plen - 1]@);
                }
                let ok: bool = match self.get(&parent) {
                    Option::None => false,
                    Option::Some(pe) => match (pe, &self.rows[idx].0[plen - 1]) {
                        (Entry::MapObj, Segment::Key(_)) => true,
                        (Entry::ListObj(ln), Segment::Index(i)) => *i < *ln,
                        _ => false,
                    },
                };
                if !ok {
                    assert(!crate::sem::parent_ok(m, pv));
                    return false;
                }
            }
            let ln: usize = match &self.rows[idx].1 {
                Entry::ListObj(ln) => *ln,
                _ => 0,
            };
            let mut i: usize = 0;
            while i < ln
                invariant
                    self.distinct(),
                    m == self@,
                    n == self.rows@.len(),
                    idx < n,
                    ln as int == crate::sem::list_len_of(self.rows@[idx as int].1@),
                    pv == segs_view(self.rows@[idx as int].0@),
                    plen == self.rows@[idx as int].0@.len(),
                    0 <= i <= ln,
                    forall|x: int|
                        0 <= x < i ==> m.dom().contains(#[trigger] pv.push(SegView::Index(x))),
                decreases ln - i,
            {
                let mut child = prefix_path(&self.rows[idx].0, plen);
                proof {
                    assert(segs_view(child@) =~= pv);
                }
                child.push(Segment::Index(i));
                proof {
                    assert(segs_view(child@) =~= pv.push(SegView::Index(i as int)));
                }
                match self.get(&child) {
                    Option::Some(_) => {},
                    Option::None => {
                        proof {
                            lemma_to_map_value(self.rows@, idx as int);
                        }
                        return false;
                    },
                }
                i += 1;
            }
            proof {
                assert(row_ok(m, self.rows@[idx as int]));
            }
            idx += 1;
        }
        proof {
            assert forall|p: Seq<SegView>| #[trigger] m.dom().contains(p) && p.len() > 0
                implies crate::sem::parent_ok(m, p) by {
                lemma_to_map_contains(self.rows@, p);
                let x = choose|x: int| 0 <= x < self.rows@.len()
                    && segs_view(#[trigger] self.rows@[x].0@) == p;
                assert(row_ok(m, self.rows@[x]));
            }
            assert forall|p: Seq<SegView>| #[trigger] m.dom().contains(p)
                implies 0 <= crate::sem::list_len_of(m[p]) by {
                lemma_to_map_contains(self.rows@, p);
                let x = choose|x: int| 0 <= x < self.rows@.len()
                    && segs_view(#[trigger] self.rows@[x].0@) == p;
                lemma_to_map_value(self.rows@, x);
            }
            assert forall|p: Seq<SegView>, i: int|
                m.dom().contains(p) && 0 <= i < crate::sem::list_len_of(m[p])
                implies m.dom().contains(#[trigger] p.push(SegView::Index(i))) by {
                lemma_to_map_contains(self.rows@, p);
                let x = choose|x: int| 0 <= x < self.rows@.len()
                    && segs_view(#[trigger] self.rows@[x].0@) == p;
                lemma_to_map_value(self.rows@, x);
                assert(row_ok(m, self.rows@[x]));
            }
        }
        true
    }
}

/// `m` with everything strictly below `p` removed.
pub open spec fn prune(m: Map<Seq<SegView>, EntryV>, p: Seq<SegView>) -> Map<Seq<SegView>, EntryV> {
    Map::new(
        |k: Seq<SegView>| m.dom().contains(k) && !strict_under(k, p),
        |k: Seq<SegView>| m[k],
    )
}

/// The direct children of `p` in `m`.
pub open spec fn children(m: Map<Seq<SegView>, EntryV>, p: Seq<SegView>) -> Set<Seq<SegView>> {
    m.dom().filter(|k: Seq<SegView>| child_of(k, p))
}

pub proof fn children_finite(m: Map<Seq<SegView>, EntryV>, p: Seq<SegView>)
    requires
        m.dom().finite(),
    ensures
        children(m, p).finite(),
{
    vstd::set_lib::lemma_len_subset(children(m, p), m.dom());
}

proof fn lemma_set_row(s: Seq<(Vec<Segment>, Entry)>, i: int, row: (Vec<Segment>, Entry))
    requires
        keys_distinct(s),
        0 <= i < s.len(),
        segs_view(row.0@) == segs_view(s[i].0@),
    ensures
        keys_distinct(s.update(i, row)),
        to_map(s.update(i, row)) == to_map(s).insert(segs_view(row.0@), row.1@),
    decreases s.len(),
{
    let t = s.update(i, row);
    assert forall|x: int, y: int|
        0 <= x < y < t.len() implies segs_view(#[trigger] t[x].0@) != segs_view(#[trigger] t[y].0@) by {
        assert(segs_view(t[x].0@) == segs_view(s[x].0@));
        assert(segs_view(t[y].0@) == segs_view(s[y].0@));
    }
    if i == s.len() - 1 {
        assert(t.drop_last() =~= s.drop_last());
        assert(t.last() == row);
    } else {
        assert(keys_distinct(s.drop_last())) by {
            assert(forall|x: int, y: int|
                0 <= x < y < s.len() - 1 ==> s.drop_last()[x] == s[x] && s.drop_last()[y] == s[y]);
        }
        assert(t.drop_last() =~= s.drop_last().update(i, row));
        assert(s.drop_last()[i] == s[i]);
        lemma_set_row(s.drop_last(), i, row);
        assert(t.last() == s.last());
        assert(segs_view(s.last().0@) != segs_view(s[i].0@));
        assert(to_map(t) =~= to_map(s).insert(segs_view(row.0@), row.1@));
    }
}

} // verus!
