//! Column storage: a fixed-length sequence of cells behind a shared-ownership
//! handle, plus a value-to-positions index built once at construction and
//! stored alongside the cells, consistent with them forever after. Every
//! access to the same instance, or to a clone sharing it, reuses that one
//! index.

use std::rc::Rc;
use vstd::prelude::*;

use crate::value::Value;

verus! {

/// Positions are strictly ascending.
pub open spec fn strictly_increasing(ps: Seq<usize>) -> bool {
    forall|i: int, j: int| 0 <= i < j < ps.len() ==> ps[i] < ps[j]
}

/// `ps` holds position `p`.
pub open spec fn contains_pos(ps: Seq<usize>, p: int) -> bool {
    exists|i: int| 0 <= i < ps.len() && ps[i] == p
}

/// Some entry of `ix` is for `key`.
pub open spec fn has_key(ix: Seq<(Seq<char>, Seq<usize>)>, key: Seq<char>) -> bool {
    exists|j: int| 0 <= j < ix.len() && ix[j].0 == key
}

/// `ps` is exactly the ascending list of the positions of `cells` that hold
/// `key`.
pub open spec fn is_positions_for(ps: Seq<usize>, cells: Seq<Seq<char>>, key: Seq<char>) -> bool {
    &&& strictly_increasing(ps)
    &&& forall|i: int|
        0 <= i < ps.len() ==> (#[trigger] ps[i]) < cells.len() && cells[ps[i] as int] == key
    &&& forall|p: int|
        0 <= p < cells.len() && (#[trigger] cells[p]) == key ==> contains_pos(ps, p)
}

/// `ix` is the index of `cells`: one entry per distinct cell value, holding
/// all of that value's positions, entries ordered by first occurrence.
pub open spec fn is_index_for(ix: Seq<(Seq<char>, Seq<usize>)>, cells: Seq<Seq<char>>) -> bool {
    &&& forall|j: int|
        0 <= j < ix.len() ==> is_positions_for((#[trigger] ix[j]).1, cells, ix[j].0)
    &&& forall|j: int| 0 <= j < ix.len() ==> (#[trigger] ix[j]).1.len() > 0
    &&& forall|j: int, k: int| 0 <= j < k < ix.len() ==> ix[j].1[0] < ix[k].1[0]
    &&& forall|j: int, k: int| 0 <= j < k < ix.len() ==> ix[j].0 != ix[k].0
    &&& forall|p: int| 0 <= p < cells.len() ==> has_key(ix, #[trigger] cells[p])
}

/// The value-to-positions index of one column: one `(value, positions)` entry
/// per distinct cell value, behind a shared-ownership handle.
pub struct ColumnIndex {
    entries: Rc<Vec<(Value, Vec<usize>)>>,
}

/// Relies on `Rc::clone`: returns a new handle to the same entry list.
#[verifier::external_body]
fn rc_entries_clone(t: &Rc<Vec<(Value, Vec<usize>)>>) -> (r: Rc<Vec<(Value, Vec<usize>)>>)
    ensures
        r == *t,
{
    Rc::clone(t)
}

/// Relies on `Rc::clone`: returns a new handle to the same cell list.
#[verifier::external_body]
fn rc_cells_clone(t: &Rc<Vec<Value>>) -> (r: Rc<Vec<Value>>)
    ensures
        r == *t,
{
    Rc::clone(t)
}

pub open spec fn entries_view(s: Seq<(Value, Vec<usize>)>) -> Seq<(Seq<char>, Seq<usize>)> {
    Seq::new(s.len(), |j: int| (s[j].0@, s[j].1@))
}

impl View for ColumnIndex {
    type V = Seq<(Seq<char>, Seq<usize>)>;

    closed spec fn view(&self) -> Seq<(Seq<char>, Seq<usize>)> {
        entries_view(self.entries@)
    }
}

impl ColumnIndex {
    /// How many distinct values the indexed column holds.
    pub fn len(&self) -> (n: usize)
        ensures
            n == self@.len(),
    {
        let e: &Vec<(Value, Vec<usize>)> = &self.entries;
        e.len()
    }

    /// The value of the entry at `j`.
    pub fn key_at(&self, j: usize) -> (k: &Value)
        requires
            j < self@.len(),
        ensures
            k@ == self@[j as int].0,
    {
        let e: &Vec<(Value, Vec<usize>)> = &self.entries;
        &e[j].0
    }

    /// The positions of the entry at `j`.
    pub fn positions_at(&self, j: usize) -> (ps: &Vec<usize>)
        requires
            j < self@.len(),
        ensures
            ps@ == self@[j as int].1,
    {
        let e: &Vec<(Value, Vec<usize>)> = &self.entries;
        &e[j].1
    }

    /// The positions recorded for `key`, if the value occurs at all.
    pub fn lookup(&self, key: &Value) -> (r: Option<&Vec<usize>>)
        ensures
            match r {
                Some(ps) => exists|j: int|
                    0 <= j < self@.len() && (#[trigger] self@[j]).0 == key@ && self@[j].1 == ps@,
                None => forall|j: int| 0 <= j < self@.len() ==> (#[trigger] self@[j]).0 != key@,
            },
    {
        let e: &Vec<(Value, Vec<usize>)> = &self.entries;
        let mut j: usize = 0;
        while j < e.len()
            invariant
                j <= e@.len(),
                self@ == entries_view(e@),
                forall|k: int| 0 <= k < j ==> (#[trigger] self@[k]).0 != key@,
            decreases e@.len() - j,
        {
            if e[j].0.eq_value(key) {
                assert(self@[j as int].0 == key@);
                return Some(&e[j].1);
            }
            j += 1;
        }
        None
    }

    /// Whether `key` occurs in the indexed column.
    pub fn contains_key(&self, key: &Value) -> (b: bool)
        ensures
            b == exists|j: int| 0 <= j < self@.len() && (#[trigger] self@[j]).0 == key@,
    {
        match self.lookup(key) {
            Some(_) => true,
            None => false,
        }
    }

    /// A second handle to the same index contents.
    pub fn duplicate(&self) -> (ix: ColumnIndex)
        ensures
            ix == *self,
    {
        ColumnIndex { entries: rc_entries_clone(&self.entries) }
    }
}

/// An immutable ordered sequence of cells, plus its value-to-positions
/// index, built once at construction and stored alongside the cells (the
/// pre-built form of the compute-once cache). Cloning a column shares both
/// parts; nothing is ever copied cell by cell.
pub struct Column {
    cells: Rc<Vec<Value>>,
    index: ColumnIndex,
}

impl View for Column {
    type V = Seq<Seq<char>>;

    closed spec fn view(&self) -> Seq<Seq<char>> {
        Seq::new(self.cells@.len(), |i: int| self.cells@[i]@)
    }
}

impl Column {
    /// The stored index is consistent with the cells for the whole
    /// lifetime of the column instance.
    pub closed spec fn wf(&self) -> bool {
        is_index_for(self.index@, self@)
    }

    /// Whether the index is populated: always, since every constructor
    /// builds it. Kept because the join strategy is specified over it.
    pub open spec fn has_index_spec(&self) -> bool {
        true
    }

    /// Wraps a fixed sequence of cells and builds their index.
    pub fn new(cells: Vec<Value>) -> (c: Column)
        ensures
            c@.len() == cells@.len(),
            forall|i: int| 0 <= i < cells@.len() ==> c@[i] == (#[trigger] cells@[i])@,
            c.has_index_spec(),
            c.wf(),
    {
        let index = build_index(&cells);
        let c = Column { cells: Rc::new(cells), index };
        proof {
            assert(c@ =~= Seq::new(cells@.len(), |i: int| cells@[i]@));
        }
        c
    }

    /// The number of rows.
    pub fn len(&self) -> (n: usize)
        ensures
            n == self@.len(),
    {
        let c: &Vec<Value> = &self.cells;
        c.len()
    }

    /// Read-only view of the cells.
    pub fn cells(&self) -> (s: &Vec<Value>)
        ensures
            s@.len() == self@.len(),
            forall|i: int| 0 <= i < s@.len() ==> (#[trigger] s@[i])@ == self@[i],
    {
        let c: &Vec<Value> = &self.cells;
        c
    }

    /// The cell at position `i`.
    pub fn cell_at(&self, i: usize) -> (v: &Value)
        requires
            i < self@.len(),
        ensures
            v@ == self@[i as int],
    {
        let c: &Vec<Value> = &self.cells;
        &c[i]
    }

    /// A second handle to the same column instance: cells and index are
    /// shared, not copied.
    pub fn duplicate(&self) -> (c: Column)
        ensures
            c == *self,
    {
        Column { cells: rc_cells_clone(&self.cells), index: self.index.duplicate() }
    }

    /// Whether the index is already populated; the join strategy consults
    /// this. With the pre-built index it is always so.
    pub fn has_index(&self) -> (b: bool)
        ensures
            b == self.has_index_spec(),
    {
        true
    }

    /// A new column whose cells are `self.cells()[positions[i]]` for each
    /// `i`, duplicates and order preserved. The index is deliberately not
    /// carried over: the new column builds its own from its (possibly
    /// reordered or duplicated) contents.
    pub fn remap(&self, positions: &Vec<usize>) -> (c: Column)
        requires
            forall|i: int| 0 <= i < positions@.len() ==> (#[trigger] positions@[i]) < self@.len(),
        ensures
            c@.len() == positions@.len(),
            forall|i: int|
                0 <= i < positions@.len() ==> c@[i] == self@[(#[trigger] positions@[i]) as int],
            c.has_index_spec(),
            c.wf(),
    {
        let mut out: Vec<Value> = Vec::new();
        let mut i: usize = 0;
        while i < positions.len()
            invariant
                i <= positions@.len(),
                out@.len() == i,
                forall|k: int|
                    0 <= k < positions@.len() ==> (#[trigger] positions@[k]) < self@.len(),
                forall|k: int|
                    0 <= k < i ==> (#[trigger] out@[k])@ == self@[positions@[k] as int],
            decreases positions@.len() - i,
        {
            out.push(self.cell_at(positions[i]).duplicate());
            i += 1;
        }
        let c = Column::new(out);
        proof {
            assert forall|k: int| 0 <= k < positions@.len() implies c@[k] == self@[(
            #[trigger] positions@[k]) as int] by {
                assert(c@[k] == out@[k]@);
            }
        }
        c
    }

    /// Returns the value-to-positions index: a second handle to the one
    /// built at construction, never a rebuild; every later access to this
    /// instance, or to a clone sharing it, reuses the same contents.
    pub fn get_index(&self) -> (ix: ColumnIndex)
        requires
            self.wf(),
        ensures
            is_index_for(ix@, self@),
    {
        self.index.duplicate()
    }
}

/// One scan over the cells, appending each position to its value's entry.
fn build_index(cells: &Vec<Value>) -> (ix: ColumnIndex)
    ensures
        is_index_for(ix@, Seq::new(cells@.len(), |i: int| cells@[i]@)),
{
    let cs: &Vec<Value> = cells;
    let ghost cv = Seq::new(cells@.len(), |i: int| cells@[i]@);
    let mut entries: Vec<(Value, Vec<usize>)> = Vec::new();
    let mut p: usize = 0;
    while p < cs.len()
        invariant
            p <= cv.len(),
            cv == Seq::new(cs@.len(), |i: int| cs@[i]@),
            is_index_for(entries_view(entries@), cv.take(p as int)),
        decreases cv.len() - p,
    {
        let ghost pre = entries_view(entries@);
        let ghost prefix = cv.take(p as int);
        let ghost prefix1 = cv.take(p + 1);
        proof {
            assert(prefix1 =~= prefix.push(cv[p as int]));
        }
        let cell = &cs[p];
        match find_key(&entries, cell) {
            Some(j) => {
                let (k, mut ps) = entries.remove(j);
                ps.push(p);
                entries.insert(j, (k, ps));
                proof {
                    let post = entries_view(entries@);
                    assert(post =~= pre.update(j as int, (pre[j as int].0, pre[j as int].1.push(p))));
                    lemma_index_extend_hit(pre, post, prefix, cv[p as int], j as int);
                }
            },
            None => {
                let mut ps: Vec<usize> = Vec::new();
                ps.push(p);
                entries.push((cell.duplicate(), ps));
                proof {
                    let post = entries_view(entries@);
                    assert(post =~= pre.push((cv[p as int], seq![p])));
                    lemma_index_extend_miss(pre, post, prefix, cv[p as int]);
                }
            },
        }
        p += 1;
    }
    proof {
        assert(cv.take(cv.len() as int) =~= cv);
    }
    ColumnIndex { entries: Rc::new(entries) }
}

/// Finds the entry holding `key`, if any.
fn find_key(entries: &Vec<(Value, Vec<usize>)>, key: &Value) -> (r: Option<usize>)
    ensures
        match r {
            Some(j) => 0 <= j < entries@.len() && entries@[j as int].0@ == key@,
            None => forall|j: int| 0 <= j < entries@.len() ==> (#[trigger] entries@[j]).0@ != key@,
        },
{
    let mut j: usize = 0;
    while j < entries.len()
        invariant
            j <= entries@.len(),
            forall|k: int| 0 <= k < j ==> (#[trigger] entries@[k]).0@ != key@,
        decreases entries@.len() - j,
    {
        if entries[j].0.eq_value(key) {
            return Some(j);
        }
        j += 1;
    }
    None
}

/// Extending the indexed prefix by a cell whose value already has the entry
/// at `j` keeps the index exact, once position `prefix.len()` is appended to
/// that entry.
proof fn lemma_index_extend_hit(
    pre: Seq<(Seq<char>, Seq<usize>)>,
    post: Seq<(Seq<char>, Seq<usize>)>,
    prefix: Seq<Seq<char>>,
    cell: Seq<char>,
    j: int,
)
    requires
        is_index_for(pre, prefix),
        0 <= j < pre.len(),
        pre[j].0 == cell,
        prefix.len() < usize::MAX,
        post == pre.update(j, (pre[j].0, pre[j].1.push(prefix.len() as usize))),
    ensures
        is_index_for(post, prefix.push(cell)),
{
    let p = prefix.len() as usize;
    let ext = prefix.push(cell);
    assert forall|k: int| 0 <= k < post.len() implies is_positions_for(
        (#[trigger] post[k]).1,
        ext,
        post[k].0,
    ) by {
        if k == j {
            let ps = pre[j].1;
            let qs = post[j].1;
            assert(qs == ps.push(p));
            assert forall|i: int| 0 <= i < qs.len() implies (#[trigger] qs[i]) < ext.len()
                && ext[qs[i] as int] == cell by {
                if i < ps.len() {
                    assert(qs[i] == ps[i]);
                    assert(ps[i] < prefix.len());
                    assert(ext[ps[i] as int] == prefix[ps[i] as int]);
                } else {
                    assert(qs[i] == p);
                }
            }
            assert forall|q: int| 0 <= q < ext.len() && (#[trigger] ext[q]) == cell implies contains_pos(
                qs,
                q,
            ) by {
                if q < prefix.len() {
                    assert(contains_pos(ps, q));
                    let i = choose|i: int| 0 <= i < ps.len() && ps[i] == q;
                    assert(qs[i] == q);
                } else {
                    assert(qs[ps.len() as int] == p);
                }
                assert(contains_pos(qs, q));
            }
            assert(strictly_increasing(qs)) by {
                assert forall|a: int, b: int| 0 <= a < b < qs.len() implies qs[a] < qs[b] by {
                    if b == ps.len() {
                        assert(qs[a] == ps[a]);
                        assert(ps[a] < prefix.len());
                    }
                }
            }
        } else {
            let ps = post[k].1;
            assert(post[k] == pre[k]);
            assert forall|i: int| 0 <= i < ps.len() implies (#[trigger] ps[i]) < ext.len()
                && ext[ps[i] as int] == post[k].0 by {
                assert(ps[i] < prefix.len());
                assert(ext[ps[i] as int] == prefix[ps[i] as int]);
            }
            assert forall|q: int| 0 <= q < ext.len() && (#[trigger] ext[q]) == post[k].0 implies contains_pos(
                ps,
                q,
            ) by {
                if q < prefix.len() {
                    assert(prefix[q] == ext[q]);
                    assert(contains_pos(ps, q));
                } else {
                    assert(ext[q] == cell);
                    assert(pre[k].0 != pre[j].0);
                }
            }
        }
    }
    assert forall|k: int| 0 <= k < post.len() implies (#[trigger] post[k]).1.len() > 0 by {
        if k != j {
            assert(post[k] == pre[k]);
        }
    }
    assert forall|k: int, l: int| 0 <= k < l < post.len() implies post[k].1[0] < post[l].1[0] by {
        assert(post[j].1[0] == pre[j].1[0]);
        if k != j {
            assert(post[k] == pre[k]);
        }
        if l != j {
            assert(post[l] == pre[l]);
        }
    }
    assert forall|k: int, l: int| 0 <= k < l < post.len() implies post[k].0 != post[l].0 by {
        if k != j {
            assert(post[k] == pre[k]);
        }
        if l != j {
            assert(post[l] == pre[l]);
        }
    }
    assert forall|q: int| 0 <= q < ext.len() implies has_key(post, #[trigger] ext[q]) by {
        if q < prefix.len() {
            assert(has_key(pre, prefix[q]));
            let k = choose|k: int| 0 <= k < pre.len() && pre[k].0 == prefix[q];
            assert(post[k].0 == ext[q]);
        } else {
            assert(post[j].0 == ext[q]);
        }
        assert(has_key(post, ext[q]));
    }
}

/// Extending the indexed prefix by a cell value not seen before keeps the
/// index exact, once a new entry for that value is appended.
proof fn lemma_index_extend_miss(
    pre: Seq<(Seq<char>, Seq<usize>)>,
    post: Seq<(Seq<char>, Seq<usize>)>,
    prefix: Seq<Seq<char>>,
    cell: Seq<char>,
)
    requires
        is_index_for(pre, prefix),
        forall|j: int| 0 <= j < pre.len() ==> (#[trigger] pre[j]).0 != cell,
        prefix.len() < usize::MAX,
        post == pre.push((cell, seq![prefix.len() as usize])),
    ensures
        is_index_for(post, prefix.push(cell)),
{
    let p = prefix.len() as usize;
    let ext = prefix.push(cell);
    assert forall|k: int| 0 <= k < post.len() implies is_positions_for(
        (#[trigger] post[k]).1,
        ext,
        post[k].0,
    ) by {
        if k < pre.len() {
            let ps = post[k].1;
            assert(post[k] == pre[k]);
            assert forall|i: int| 0 <= i < ps.len() implies (#[trigger] ps[i]) < ext.len()
                && ext[ps[i] as int] == post[k].0 by {
                assert(ps[i] < prefix.len());
                assert(ext[ps[i] as int] == prefix[ps[i] as int]);
            }
            assert forall|q: int| 0 <= q < ext.len() && (#[trigger] ext[q]) == post[k].0 implies contains_pos(
                ps,
                q,
            ) by {
                if q >= prefix.len() {
                    assert(ext[q] == cell);
                } else {
                    assert(prefix[q] == ext[q]);
                    assert(contains_pos(ps, q));
                }
            }
        } else {
            let qs = post[k].1;
            assert(qs == seq![p]);
            assert(qs[0] == p);
            assert(ext[p as int] == cell);
            assert forall|q: int| 0 <= q < ext.len() && (#[trigger] ext[q]) == cell implies contains_pos(
                qs,
                q,
            ) by {
                if q < prefix.len() {
                    assert(has_key(pre, prefix[q]));
                    let m = choose|m: int| 0 <= m < pre.len() && pre[m].0 == prefix[q];
                    assert(pre[m].0 != cell);
                    assert(false);
                } else {
                    assert(qs[0] == q);
                    assert(contains_pos(qs, q));
                }
            }
        }
    }
    assert forall|k: int| 0 <= k < post.len() implies (#[trigger] post[k]).1.len() > 0 by {
        if k < pre.len() {
            assert(post[k] == pre[k]);
        } else {
            assert(post[k].1 == seq![p]);
        }
    }
    assert forall|k: int, l: int| 0 <= k < l < post.len() implies post[k].1[0] < post[l].1[0] by {
        if l < pre.len() {
        } else {
            assert(post[l].1 == seq![p]);
            assert(post[k] == pre[k]);
            assert(is_positions_for(pre[k].1, prefix, pre[k].0));
            assert(pre[k].1.len() > 0);
            assert(pre[k].1[0] < prefix.len());
        }
    }
    assert forall|k: int, l: int| 0 <= k < l < post.len() implies post[k].0 != post[l].0 by {
        if l < pre.len() {
        } else {
            assert(post[k] == pre[k]);
        }
    }
    assert forall|q: int| 0 <= q < ext.len() implies has_key(post, #[trigger] ext[q]) by {
        if q < prefix.len() {
            assert(has_key(pre, prefix[q]));
            let k = choose|k: int| 0 <= k < pre.len() && pre[k].0 == prefix[q];
            assert(post[k].0 == ext[q]);
        } else {
            assert(post[pre.len() as int].0 == ext[q]);
        }
        assert(has_key(post, ext[q]));
    }
}

/// No earlier position of `cells` holds the value at `p`.
pub open spec fn is_first_occurrence(cells: Seq<Seq<char>>, p: int) -> bool {
    forall|q: int| 0 <= q < p ==> cells[q] != cells[p]
}

/// Some entry of `ix` has `p` as its first position.
pub open spec fn is_entry_first(ix: Seq<(Seq<char>, Seq<usize>)>, p: int) -> bool {
    exists|j: int| 0 <= j < ix.len() && ix[j].1.len() > 0 && ix[j].1[0] == p
}

/// A key stands in the index exactly when some cell holds it.
pub proof fn lemma_index_keys(ix: Seq<(Seq<char>, Seq<usize>)>, cells: Seq<Seq<char>>)
    requires
        is_index_for(ix, cells),
    ensures
        forall|key: Seq<char>| #[trigger] has_key(ix, key) ==> cells.contains(key),
        forall|key: Seq<char>| #[trigger] cells.contains(key) ==> has_key(ix, key),
{
    assert forall|key: Seq<char>| #[trigger] has_key(ix, key) implies cells.contains(key) by {
        let j = choose|j: int| 0 <= j < ix.len() && ix[j].0 == key;
        assert(ix[j].1.len() > 0);
        assert(cells[ix[j].1[0] as int] == key);
    }
    assert forall|key: Seq<char>| #[trigger] cells.contains(key) implies has_key(ix, key) by {
        let q = choose|q: int| 0 <= q < cells.len() && cells[q] == key;
        assert(has_key(ix, cells[q]));
    }
}

/// The first positions of the index entries are exactly the positions where
/// a value occurs for the first time.
pub proof fn lemma_index_firsts(ix: Seq<(Seq<char>, Seq<usize>)>, cells: Seq<Seq<char>>)
    requires
        is_index_for(ix, cells),
    ensures
        forall|j: int|
            0 <= j < ix.len() ==> is_first_occurrence(cells, (#[trigger] ix[j]).1[0] as int),
        forall|p: int|
            0 <= p < cells.len() && #[trigger] is_first_occurrence(cells, p) ==> is_entry_first(
                ix,
                p,
            ),
{
    assert forall|j: int| 0 <= j < ix.len() implies is_first_occurrence(
        cells,
        (#[trigger] ix[j]).1[0] as int,
    ) by {
        let ps = ix[j].1;
        let key = ix[j].0;
        assert(ps.len() > 0);
        assert(cells[ps[0] as int] == key);
        assert forall|q: int| 0 <= q < ps[0] implies (#[trigger] cells[q]) != cells[ps[0] as int] by {
            if cells[q] == key {
                assert(contains_pos(ps, q));
                let i = choose|i: int| 0 <= i < ps.len() && ps[i] == q;
                if i > 0 {
                    assert(ps[0] < ps[i]);
                }
            }
        }
    }
    assert forall|p: int|
        0 <= p < cells.len() && #[trigger] is_first_occurrence(cells, p) implies is_entry_first(
        ix,
        p,
    ) by {
        assert(has_key(ix, cells[p]));
        let j = choose|j: int| 0 <= j < ix.len() && ix[j].0 == cells[p];
        let ps = ix[j].1;
        assert(contains_pos(ps, p));
        let i = choose|i: int| 0 <= i < ps.len() && ps[i] == p;
        if i > 0 {
            assert(ps[0] < ps[i]);
            assert(cells[ps[0] as int] == cells[p]);
            assert(false);
        }
        assert(ps[0] == p);
        assert(is_entry_first(ix, p));
    }
}

/// How many cells hold `v`.
pub open spec fn count_eq(cells: Seq<Seq<char>>, v: Seq<char>) -> nat
    decreases cells.len(),
{
    if cells.len() == 0 {
        0
    } else {
        count_eq(cells.drop_last(), v) + if cells.last() == v {
            1nat
        } else {
            0nat
        }
    }
}

/// A value no cell holds counts zero.
pub proof fn lemma_count_absent(cells: Seq<Seq<char>>, v: Seq<char>)
    requires
        !cells.contains(v),
    ensures
        count_eq(cells, v) == 0,
    decreases cells.len(),
{
    if cells.len() > 0 {
        assert(!cells.drop_last().contains(v)) by {
            if cells.drop_last().contains(v) {
                let i = choose|i: int|
                    0 <= i < cells.drop_last().len() && cells.drop_last()[i] == v;
                assert(cells[i] == v);
            }
        }
        lemma_count_absent(cells.drop_last(), v);
        assert(cells.last() != v) by {
            assert(cells[cells.len() - 1] == cells.last());
        }
    }
}

/// The exact position list of a value has one entry per occurrence.
pub proof fn lemma_positions_count(ps: Seq<usize>, cells: Seq<Seq<char>>, key: Seq<char>)
    requires
        is_positions_for(ps, cells, key),
    ensures
        ps.len() == count_eq(cells, key),
    decreases cells.len(),
{
    if cells.len() == 0 {
        if ps.len() > 0 {
            assert(ps[0] < cells.len());
        }
    } else {
        let pre = cells.drop_last();
        if cells.last() == key {
            assert(cells[cells.len() - 1] == key);
            assert(contains_pos(ps, cells.len() - 1));
            let i = choose|i: int| 0 <= i < ps.len() && ps[i] == cells.len() - 1;
            assert(i == ps.len() - 1) by {
                if i < ps.len() - 1 {
                    assert(ps[i] < ps[ps.len() - 1]);
                    assert(ps[ps.len() - 1] < cells.len());
                }
            }
            let qs = ps.drop_last();
            assert(is_positions_for(qs, pre, key)) by {
                assert forall|z: int| 0 <= z < qs.len() implies (#[trigger] qs[z]) < pre.len()
                    && pre[qs[z] as int] == key by {
                    assert(qs[z] == ps[z]);
                    assert(ps[z] < ps[ps.len() - 1]);
                    assert(pre[ps[z] as int] == cells[ps[z] as int]);
                }
                assert forall|p: int|
                    0 <= p < pre.len() && (#[trigger] pre[p]) == key implies contains_pos(
                    qs,
                    p,
                ) by {
                    assert(cells[p] == pre[p]);
                    assert(contains_pos(ps, p));
                    let z = choose|z: int| 0 <= z < ps.len() && ps[z] == p;
                    if z == ps.len() - 1 {
                        assert(ps[z] == cells.len() - 1);
                        assert(false);
                    }
                    assert(qs[z] == p);
                    assert(contains_pos(qs, p));
                }
            }
            lemma_positions_count(qs, pre, key);
            assert(count_eq(cells, key) == count_eq(pre, key) + 1);
        } else {
            assert(is_positions_for(ps, pre, key)) by {
                assert forall|z: int| 0 <= z < ps.len() implies (#[trigger] ps[z]) < pre.len()
                    && pre[ps[z] as int] == key by {
                    assert(cells[ps[z] as int] == key);
                    if ps[z] == cells.len() - 1 {
                        assert(cells.last() == cells[cells.len() - 1]);
                        assert(false);
                    }
                    assert(pre[ps[z] as int] == cells[ps[z] as int]);
                }
                assert forall|p: int|
                    0 <= p < pre.len() && (#[trigger] pre[p]) == key implies contains_pos(
                    ps,
                    p,
                ) by {
                    assert(cells[p] == pre[p]);
                    assert(contains_pos(ps, p));
                }
            }
            lemma_positions_count(ps, pre, key);
            assert(count_eq(cells, key) == count_eq(pre, key));
        }
    }
}

} // verus!
