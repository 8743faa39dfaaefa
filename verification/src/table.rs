//! The table: an immutable mapping from column name to column, every column
//! of equal length, names unique. Operators yield new tables; columns they do
//! not touch are shared by handle, never copied.

use vstd::prelude::*;

use crate::column::Column;
use crate::column::contains_pos;
use crate::column::has_key;
use crate::column::is_index_for;
use crate::column::is_positions_for;
use crate::column::is_first_occurrence;
use crate::column::is_entry_first;
use crate::column::lemma_index_firsts;
use crate::column::lemma_index_keys;
use crate::column::count_eq;
use crate::column::lemma_count_absent;
use crate::column::lemma_positions_count;
use crate::column::strictly_increasing;
use crate::value::Value;
use crate::value::str_eq;
use crate::value::str_to_chars;
use crate::value::chars_to_string;
use crate::text::split_on;
use crate::text::trimmed;
use crate::text::joined;
use crate::text::split_chars_from;
use crate::text::trim_chars;
use crate::text::blank_line;
use crate::text::clean_field;
use crate::text::lemma_joined_free;
use crate::text::lemma_split_joined;
use crate::value::lex_lt;
use crate::value::lemma_lex_transitive;
use crate::value::lemma_lex_trichotomy;

verus! {

/// The explicit failure outcomes of the fallible operators.
#[derive(Debug)]
pub enum TableError {
    /// The named column does not exist.
    MissingColumn(Value),
    /// A row carried this many fields where that many were declared
    /// (expected, then actual).
    ColumnCountMismatch(usize, usize),
    /// Delimited text had no usable header line.
    MissingHeader,
    /// The second table of a concatenation lacks this column.
    ConcatenateColumnMismatch(Value),
    /// A file could not be read or written: the path, then the cause.
    IoFailure(String, String),
}

/// The contents of a table: column name to cell sequence.
pub type TableMap = Map<Seq<char>, Seq<Seq<char>>>;

/// No two entries share a name.
pub open spec fn distinct_names(s: Seq<(Value, Column)>) -> bool {
    forall|i: int, j: int| 0 <= i < j < s.len() ==> s[i].0@ != s[j].0@
}

/// Some entry carries the name `n`.
pub open spec fn seq_has_name(s: Seq<(Value, Column)>, n: Seq<char>) -> bool {
    exists|i: int| 0 <= i < s.len() && s[i].0@ == n
}

/// The mapping that a list of named columns denotes.
pub open spec fn cols_map(s: Seq<(Value, Column)>) -> TableMap
    decreases s.len(),
{
    if s.len() == 0 {
        Map::empty()
    } else {
        cols_map(s.drop_last()).insert(s.last().0@, s.last().1@)
    }
}

/// How `cols_map` relates to the entry list it is built from.
pub proof fn lemma_cols_map(s: Seq<(Value, Column)>)
    ensures
        forall|n: Seq<char>| #[trigger] cols_map(s).contains_key(n) ==> seq_has_name(s, n),
        forall|i: int|
            0 <= i < s.len() ==> cols_map(s).contains_key((#[trigger] s[i]).0@),
        distinct_names(s) ==> forall|i: int|
            0 <= i < s.len() ==> cols_map(s)[(#[trigger] s[i]).0@] == s[i].1@,
        cols_map(s).dom().finite(),
    decreases s.len(),
{
    if s.len() > 0 {
        let pre = s.drop_last();
        lemma_cols_map(pre);
        assert forall|n: Seq<char>| #[trigger] cols_map(s).contains_key(n) implies seq_has_name(
            s,
            n,
        ) by {
            if n == s.last().0@ {
                assert(s[s.len() - 1].0@ == n);
            } else {
                assert(cols_map(pre).contains_key(n));
                let i = choose|i: int| 0 <= i < pre.len() && pre[i].0@ == n;
                assert(s[i].0@ == n);
            }
        }
        assert forall|i: int| 0 <= i < s.len() implies cols_map(s).contains_key(
            (#[trigger] s[i]).0@,
        ) by {
            if i < s.len() - 1 {
                assert(pre[i] == s[i]);
                assert(cols_map(pre).contains_key(s[i].0@));
            }
        }
        if distinct_names(s) {
            assert(distinct_names(pre)) by {
                assert forall|i: int, j: int| 0 <= i < j < pre.len() implies pre[i].0@
                    != pre[j].0@ by {
                    assert(s[i].0@ != s[j].0@);
                }
            }
            assert forall|i: int| 0 <= i < s.len() implies cols_map(s)[(#[trigger] s[i]).0@]
                == s[i].1@ by {
                if i < s.len() - 1 {
                    assert(pre[i] == s[i]);
                    assert(cols_map(pre)[s[i].0@] == s[i].1@);
                    assert(s[i].0@ != s.last().0@);
                }
            }
        }
    }
}

/// `post` holds, for every name of `pre`, the rows of `pre` picked out by
/// `ps`, in the order of `ps`.
pub open spec fn remapped(pre: TableMap, post: TableMap, ps: Seq<usize>) -> bool {
    &&& post.dom() == pre.dom()
    &&& forall|n: Seq<char>| #[trigger] post.contains_key(n) ==> post[n].len() == ps.len()
    &&& forall|n: Seq<char>, j: int|
        post.contains_key(n) && 0 <= j < ps.len() ==> #[trigger] post[n][j] == pre[n][ps[j] as int]
}

/// An immutable named collection of equal-length columns.
pub struct Table {
    cols: Vec<(Value, Column)>,
}

impl View for Table {
    type V = TableMap;

    closed spec fn view(&self) -> TableMap {
        cols_map(self.cols@)
    }
}

impl Table {
    /// Names are unique, every column is well formed and all lengths agree.
    pub closed spec fn wf(&self) -> bool {
        &&& distinct_names(self.cols@)
        &&& forall|i: int| 0 <= i < self.cols@.len() ==> (#[trigger] self.cols@[i]).1.wf()
        &&& forall|i: int|
            0 <= i < self.cols@.len() ==> (#[trigger] self.cols@[i]).1@.len() == self.nrows()
    }

    /// Whether the named column of this table instance has its index cache
    /// populated; the join strategy is specified over this.
    pub closed spec fn col_has_index(&self, n: Seq<char>) -> bool {
        exists|i: int|
            0 <= i < self.cols@.len() && self.cols@[i].0@ == n
                && self.cols@[i].1.has_index_spec()
    }

    /// The table's column count.
    pub closed spec fn ncols(&self) -> nat {
        self.cols@.len() as nat
    }

    /// The table's row count: the common length of its columns (0 for a
    /// table of no columns).
    pub closed spec fn nrows(&self) -> nat {
        if self.cols@.len() == 0 {
            0
        } else {
            self.cols@[0].1@.len()
        }
    }

    /// What well-formedness gives every caller: the mapping is finite and
    /// every column has the table's row count.
    pub proof fn wf_facts(&self)
        requires
            self.wf(),
        ensures
            self@.dom().finite(),
            forall|n: Seq<char>| #[trigger] self@.contains_key(n) ==> self@[n].len()
                == self.nrows(),
    {
        lemma_cols_map(self.cols@);
        assert forall|n: Seq<char>| #[trigger] self@.contains_key(n) implies self@[n].len()
            == self.nrows() by {
            let i = choose|i: int| 0 <= i < self.cols@.len() && self.cols@[i].0@ == n;
            assert(self@[self.cols@[i].0@] == self.cols@[i].1@);
        }
    }

    /// A column name carries an index exactly when the table has it: with
    /// the pre-built index every held column is indexed.
    pub proof fn lemma_col_has_index_iff(&self)
        ensures
            forall|n: Seq<char>| #[trigger] self.col_has_index(n) == self@.contains_key(n),
    {
        lemma_cols_map(self.cols@);
        assert forall|n: Seq<char>| #[trigger] self.col_has_index(n) == self@.contains_key(
            n,
        ) by {
            if self.col_has_index(n) {
                let i = choose|i: int|
                    0 <= i < self.cols@.len() && self.cols@[i].0@ == n
                        && self.cols@[i].1.has_index_spec();
                assert(self@.contains_key(self.cols@[i].0@));
            }
            if self@.contains_key(n) {
                let i = choose|i: int| 0 <= i < self.cols@.len() && self.cols@[i].0@ == n;
                assert(self.cols@[i].1.has_index_spec());
                assert(self.col_has_index(n));
            }
        }
    }

    /// Builds a table from an entry list; the builder and the operators call
    /// this after establishing the invariants.
    fn from_cols(cols: Vec<(Value, Column)>) -> (t: Table)
        requires
            distinct_names(cols@),
            forall|i: int| 0 <= i < cols@.len() ==> (#[trigger] cols@[i]).1.wf(),
            forall|i: int, j: int|
                0 <= i < cols@.len() && 0 <= j < cols@.len() ==> cols@[i].1@.len()
                    == cols@[j].1@.len(),
        ensures
            t.wf(),
            t.cols@ == cols@,
            t@ == cols_map(cols@),
            t.nrows() == if cols@.len() == 0 {
                0
            } else {
                cols@[0].1@.len()
            },
    {
        Table { cols }
    }

    /// How many columns the table has.
    pub fn columns_count(&self) -> (n: usize)
        requires
            self.wf(),
        ensures
            n == self@.dom().len(),
            n == self.ncols(),
    {
        proof {
            lemma_cols_map_card(self.cols@);
        }
        self.cols.len()
    }

    /// How many rows the table has.
    pub fn rows_count(&self) -> (n: usize)
        requires
            self.wf(),
        ensures
            n == self.nrows(),
    {
        if self.cols.len() == 0 {
            0
        } else {
            self.cols[0].1.len()
        }
    }

    /// The position of the named column in the entry list, if present.
    fn find_col(&self, name: &str) -> (r: Option<usize>)
        ensures
            match r {
                Some(i) => i < self.cols@.len() && self.cols@[i as int].0@ == name@
                    && self@.contains_key(name@),
                None => !self@.contains_key(name@),
            },
    {
        let mut i: usize = 0;
        while i < self.cols.len()
            invariant
                i <= self.cols@.len(),
                forall|k: int| 0 <= k < i ==> (#[trigger] self.cols@[k]).0@ != name@,
            decreases self.cols@.len() - i,
        {
            if str_eq(self.cols[i].0.as_str(), name) {
                proof {
                    lemma_cols_map(self.cols@);
                    assert(cols_map(self.cols@).contains_key(self.cols@[i as int].0@));
                    assert(self@.contains_key(self.cols@[i as int].0@));
                }
                return Some(i);
            }
            i += 1;
        }
        proof {
            lemma_cols_map(self.cols@);
            if self@.contains_key(name@) {
                let i = choose|i: int| 0 <= i < self.cols@.len() && self.cols@[i].0@ == name@;
                assert(false);
            }
        }
        None
    }

    /// Looks the named column up; fails with `MissingColumn` when absent.
    pub fn column(&self, col_name: &str) -> (r: Result<Column, TableError>)
        requires
            self.wf(),
        ensures
            match r {
                Ok(c) => self@.contains_key(col_name@) && c@ == self@[col_name@] && c.wf(),
                Err(e) => !self@.contains_key(col_name@) && (e matches TableError::MissingColumn(
                    n,
                ) && n@ == col_name@),
            },
    {
        match self.find_col(col_name) {
            Some(i) => {
                proof {
                    lemma_cols_map(self.cols@);
                }
                Ok(self.cols[i].1.duplicate())
            },
            None => Err(TableError::MissingColumn(Value::new(col_name.to_owned()))),
        }
    }

    /// A second handle to the same table: shares every column.
    pub fn duplicate(&self) -> (t: Table)
        ensures
            t@ == self@,
            t.nrows() == self.nrows(),
            t.ncols() == self.ncols(),
            self.wf() ==> t.wf(),
            forall|n: Seq<char>| t.col_has_index(n) == self.col_has_index(n),
    {
        let mut cols: Vec<(Value, Column)> = Vec::new();
        let mut i: usize = 0;
        while i < self.cols.len()
            invariant
                i <= self.cols@.len(),
                cols@.len() == i,
                forall|k: int| 0 <= k < i ==> cols@[k] == self.cols@[k],
            decreases self.cols@.len() - i,
        {
            cols.push((self.cols[i].0.duplicate(), self.cols[i].1.duplicate()));
            i += 1;
        }
        proof {
            assert(cols@ =~= self.cols@);
        }
        let t = Table { cols };
        proof {
            assert forall|n: Seq<char>| t.col_has_index(n) == self.col_has_index(n) by {
                if t.col_has_index(n) {
                    let i = choose|i: int|
                        0 <= i < t.cols@.len() && t.cols@[i].0@ == n
                            && t.cols@[i].1.has_index_spec();
                    assert(self.cols@[i].0@ == n && self.cols@[i].1.has_index_spec());
                }
                if self.col_has_index(n) {
                    let i = choose|i: int|
                        0 <= i < self.cols@.len() && self.cols@[i].0@ == n
                            && self.cols@[i].1.has_index_spec();
                    assert(t.cols@[i].0@ == n && t.cols@[i].1.has_index_spec());
                }
            }
        }
        t
    }
}

/// With distinct names the mapping has exactly one key per entry.
proof fn lemma_cols_map_card(s: Seq<(Value, Column)>)
    requires
        distinct_names(s),
    ensures
        cols_map(s).dom().finite(),
        cols_map(s).dom().len() == s.len(),
    decreases s.len(),
{
    if s.len() > 0 {
        let pre = s.drop_last();
        assert(distinct_names(pre)) by {
            assert forall|i: int, j: int| 0 <= i < j < pre.len() implies pre[i].0@
                != pre[j].0@ by {
                assert(s[i].0@ != s[j].0@);
            }
        }
        lemma_cols_map_card(pre);
        lemma_cols_map(pre);
        assert(!cols_map(pre).contains_key(s.last().0@)) by {
            if cols_map(pre).contains_key(s.last().0@) {
                let i = choose|i: int| 0 <= i < pre.len() && pre[i].0@ == s.last().0@;
                assert(s[i].0@ != s[s.len() - 1].0@);
            }
        }
        assert(cols_map(s).dom() =~= cols_map(pre).dom().insert(s.last().0@));
    }
}

/// Appending an entry keeps every name already present and adds its own.
proof fn lemma_push_keeps_names(pre: Seq<(Value, Column)>, x: (Value, Column))
    ensures
        forall|n: Seq<char>| seq_has_name(pre, n) ==> #[trigger] seq_has_name(pre.push(x), n),
        seq_has_name(pre.push(x), x.0@),
{
    assert forall|n: Seq<char>| seq_has_name(pre, n) implies #[trigger] seq_has_name(
        pre.push(x),
        n,
    ) by {
        let i = choose|i: int| 0 <= i < pre.len() && pre[i].0@ == n;
        assert(pre.push(x)[i].0@ == n);
    }
    assert(pre.push(x)[pre.len() as int] == x);
}

/// Name-for-name rebuilds keep distinctness and the key set.
proof fn lemma_same_names(a: Seq<(Value, Column)>, b: Seq<(Value, Column)>)
    requires
        distinct_names(a),
        a.len() == b.len(),
        forall|i: int| 0 <= i < a.len() ==> (#[trigger] b[i]).0@ == a[i].0@,
    ensures
        distinct_names(b),
        cols_map(b).dom() == cols_map(a).dom(),
{
    lemma_cols_map(a);
    lemma_cols_map(b);
    assert forall|n: Seq<char>| cols_map(b).contains_key(n) == cols_map(
        a,
    ).contains_key(n) by {
        if cols_map(b).contains_key(n) {
            let i = choose|i: int| 0 <= i < b.len() && b[i].0@ == n;
            assert(a[i].0@ == n);
            assert(cols_map(a).contains_key(a[i].0@));
        }
        if cols_map(a).contains_key(n) {
            let i = choose|i: int| 0 <= i < a.len() && a[i].0@ == n;
            assert(b[i].0@ == n);
            assert(cols_map(b).contains_key(b[i].0@));
        }
    }
    assert(cols_map(b).dom() =~= cols_map(a).dom());
}

impl Table {
    /// Applies one position list to every column: the primitive behind all
    /// row-subsetting and row-reordering operators.
    fn remap(&self, positions: &Vec<usize>) -> (t: Table)
        requires
            self.wf(),
            forall|k: int| 0 <= k < positions@.len() ==> (#[trigger] positions@[k]) < self.nrows(),
        ensures
            t.wf(),
            t.ncols() == self.ncols(),
            self.ncols() > 0 ==> t.nrows() == positions@.len(),
            self.ncols() == 0 ==> t.nrows() == 0,
            remapped(self@, t@, positions@),
    {
        let mut cols: Vec<(Value, Column)> = Vec::new();
        let mut i: usize = 0;
        while i < self.cols.len()
            invariant
                self.wf(),
                forall|k: int|
                    0 <= k < positions@.len() ==> (#[trigger] positions@[k]) < self.nrows(),
                i <= self.cols@.len(),
                cols@.len() == i,
                forall|k: int| 0 <= k < i ==> (#[trigger] cols@[k]).0 == self.cols@[k].0,
                forall|k: int| 0 <= k < i ==> (#[trigger] cols@[k]).1.wf(),
                forall|k: int| 0 <= k < i ==> (#[trigger] cols@[k]).1@.len() == positions@.len(),
                forall|k: int, j: int|
                    0 <= k < i && 0 <= j < positions@.len() ==> (#[trigger] cols@[k].1@[j])
                        == self.cols@[k].1@[positions@[j] as int],
            decreases self.cols@.len() - i,
        {
            let name = self.cols[i].0.duplicate();
            let newc = self.cols[i].1.remap(positions);
            cols.push((name, newc));
            i += 1;
        }
        proof {
            lemma_same_names(self.cols@, cols@);
        }
        let t = Table::from_cols(cols);
        proof {
            lemma_cols_map(self.cols@);
            lemma_cols_map(t.cols@);
            assert forall|n: Seq<char>| #[trigger] t@.contains_key(n) implies t@[n].len()
                == positions@.len() by {
                let i = choose|i: int| 0 <= i < t.cols@.len() && t.cols@[i].0@ == n;
                assert(t@[t.cols@[i].0@] == t.cols@[i].1@);
            }
            assert forall|n: Seq<char>, j: int|
                t@.contains_key(n) && 0 <= j < positions@.len() implies #[trigger] t@[n][j]
                == self@[n][positions@[j] as int] by {
                let i = choose|i: int| 0 <= i < t.cols@.len() && t.cols@[i].0@ == n;
                assert(t@[t.cols@[i].0@] == t.cols@[i].1@);
                assert(self@[self.cols@[i].0@] == self.cols@[i].1@);
                assert(t.cols@[i].1@[j] == self.cols@[i].1@[positions@[j] as int]);
            }
        }
        t
    }

    /// Projects to exactly the named columns (duplicates collapse); fails
    /// with `MissingColumn` on the first absent name.
    pub fn select_columns(&self, col_names: &[&str]) -> (r: Result<Table, TableError>)
        requires
            self.wf(),
        ensures
            match r {
                Ok(t) => {
                    &&& t.wf()
                    &&& forall|k: int|
                        0 <= k < col_names@.len() ==> self@.contains_key(
                            (#[trigger] col_names@[k])@,
                        )
                    &&& forall|k: int|
                        0 <= k < col_names@.len() ==> t@.contains_key((#[trigger] col_names@[k])@)
                            && t@[col_names@[k]@] == self@[col_names@[k]@]
                    &&& forall|n: Seq<char>|
                        #[trigger] t@.contains_key(n) ==> exists|k: int|
                            0 <= k < col_names@.len() && col_names@[k]@ == n
                },
                Err(e) => {
                    &&& e matches TableError::MissingColumn(m) && exists|k: int|
                        0 <= k < col_names@.len() && (#[trigger] col_names@[k])@ == m@
                            && !self@.contains_key(m@)
                },
            },
    {
        let mut cols: Vec<(Value, Column)> = Vec::new();
        let mut k: usize = 0;
        while k < col_names.len()
            invariant
                self.wf(),
                k <= col_names@.len(),
                distinct_names(cols@),
                forall|i: int| 0 <= i < cols@.len() ==> (#[trigger] cols@[i]).1.wf(),
                forall|i: int|
                    0 <= i < cols@.len() ==> (#[trigger] cols@[i]).1@.len() == self.nrows(),
                forall|i: int|
                    0 <= i < cols@.len() ==> self@.contains_key((#[trigger] cols@[i]).0@)
                        && cols@[i].1@ == self@[cols@[i].0@],
                forall|j: int|
                    0 <= j < k ==> self@.contains_key((#[trigger] col_names@[j])@)
                        && seq_has_name(cols@, col_names@[j]@),
                forall|i: int|
                    0 <= i < cols@.len() ==> exists|j: int|
                        0 <= j < k && (#[trigger] cols@[i]).0@ == col_names@[j]@,
            decreases col_names@.len() - k,
        {
            let name: &str = col_names[k];
            match self.find_col(name) {
                Some(i) => {
                    proof {
                        lemma_cols_map(self.cols@);
                    }
                    let mut present = false;
                    let mut c: usize = 0;
                    while c < cols.len()
                        invariant
                            c <= cols@.len(),
                            present == exists|i2: int|
                                0 <= i2 < c && (#[trigger] cols@[i2]).0@ == name@,
                        decreases cols@.len() - c,
                    {
                        if str_eq(cols[c].0.as_str(), name) {
                            present = true;
                            proof {
                                assert(cols@[c as int].0@ == name@);
                            }
                        }
                        c += 1;
                    }
                    if !present {
                        let ghost pre = cols@;
                        cols.push((self.cols[i].0.duplicate(), self.cols[i].1.duplicate()));
                        proof {
                            lemma_push_keeps_names(pre, cols@.last());
                            assert(cols@ == pre.push(cols@.last()));
                            assert(cols@.last().0@ == name@);
                            assert(seq_has_name(cols@, name@));
                        }
                    } else {
                        proof {
                            assert(seq_has_name(cols@, name@));
                        }
                    }
                },
                None => {
                    return Err(TableError::MissingColumn(Value::new(name.to_owned())));
                },
            }
            k += 1;
        }
        proof {
            lemma_cols_map(cols@);
        }
        let t = Table::from_cols(cols);
        proof {
            lemma_cols_map(t.cols@);
            assert forall|j: int| 0 <= j < col_names@.len() implies t@.contains_key(
                (#[trigger] col_names@[j])@,
            ) && t@[col_names@[j]@] == self@[col_names@[j]@] by {
                let i = choose|i: int|
                    0 <= i < t.cols@.len() && t.cols@[i].0@ == col_names@[j]@;
                assert(t@[t.cols@[i].0@] == t.cols@[i].1@);
            }
            assert forall|n: Seq<char>| #[trigger] t@.contains_key(n) implies exists|j: int|
                0 <= j < col_names@.len() && col_names@[j]@ == n by {
                let i = choose|i: int| 0 <= i < t.cols@.len() && t.cols@[i].0@ == n;
            }
        }
        Ok(t)
    }

    /// Drops the one named column; fails with `MissingColumn` when absent.
    pub fn deselect_column(&self, col_name: &str) -> (r: Result<Table, TableError>)
        requires
            self.wf(),
        ensures
            match r {
                Ok(t) => {
                    &&& t.wf()
                    &&& self@.contains_key(col_name@)
                    &&& t@ == self@.remove(col_name@)
                    &&& t.nrows() == if self@.dom().len() == 1 {
                        0nat
                    } else {
                        self.nrows()
                    }
                },
                Err(e) => !self@.contains_key(col_name@) && (e
                    matches TableError::MissingColumn(n) && n@ == col_name@),
            },
    {
        match self.find_col(col_name) {
            None => Err(TableError::MissingColumn(Value::new(col_name.to_owned()))),
            Some(fi) => {
                let mut cols: Vec<(Value, Column)> = Vec::new();
                let mut i: usize = 0;
                while i < self.cols.len()
                    invariant
                        self.wf(),
                        i <= self.cols@.len(),
                        forall|k: int|
                            0 <= k < cols@.len() ==> exists|k2: int|
                                0 <= k2 < i && (#[trigger] cols@[k]) == self.cols@[k2],
                        forall|k2: int|
                            0 <= k2 < i && (#[trigger] self.cols@[k2]).0@ != col_name@
                                ==> seq_has_name(cols@, self.cols@[k2].0@),
                        forall|k: int|
                            0 <= k < cols@.len() ==> (#[trigger] cols@[k]).0@ != col_name@,
                        distinct_names(cols@),
                    decreases self.cols@.len() - i,
                {
                    if !str_eq(self.cols[i].0.as_str(), col_name) {
                        let ghost pre = cols@;
                        cols.push((self.cols[i].0.duplicate(), self.cols[i].1.duplicate()));
                        proof {
                            lemma_push_keeps_names(pre, cols@.last());
                            assert(cols@ == pre.push(cols@.last()));
                            assert(cols@.last() == self.cols@[i as int]);
                            assert(distinct_names(cols@)) by {
                                assert forall|a: int, b: int|
                                    0 <= a < b < cols@.len() implies cols@[a].0@
                                    != cols@[b].0@ by {
                                    if b == cols@.len() - 1 {
                                        let a2 = choose|a2: int|
                                            0 <= a2 < i && cols@[a] == self.cols@[a2];
                                        assert(self.cols@[a2].0@ != self.cols@[i as int].0@);
                                    } else {
                                        assert(pre[a].0@ != pre[b].0@);
                                    }
                                }
                            }
                        }
                    }
                    i += 1;
                }
                proof {
                    lemma_cols_map(self.cols@);
                    lemma_cols_map(cols@);
                }
                let t = Table::from_cols(cols);
                proof {
                    lemma_cols_map(t.cols@);
                    assert forall|n: Seq<char>|
                        t@.contains_key(n) == self@.remove(col_name@).contains_key(n) by {
                        if t@.contains_key(n) {
                            let k = choose|k: int| 0 <= k < t.cols@.len() && t.cols@[k].0@ == n;
                            let k2 = choose|k2: int|
                                0 <= k2 < self.cols@.len() && t.cols@[k as int] == self.cols@[k2];
                            assert(self@.contains_key(self.cols@[k2].0@));
                        }
                        if self@.remove(col_name@).contains_key(n) {
                            let k2 = choose|k2: int|
                                0 <= k2 < self.cols@.len() && self.cols@[k2].0@ == n;
                            assert(seq_has_name(t.cols@, n));
                            let k = choose|k: int| 0 <= k < t.cols@.len() && t.cols@[k].0@ == n;
                            assert(t@.contains_key(t.cols@[k].0@));
                        }
                    }
                    assert forall|n: Seq<char>| #[trigger] t@.contains_key(n) implies t@[n]
                        == self@[n] by {
                        let k = choose|k: int| 0 <= k < t.cols@.len() && t.cols@[k].0@ == n;
                        let k2 = choose|k2: int|
                            0 <= k2 < self.cols@.len() && t.cols@[k as int] == self.cols@[k2];
                        assert(t@[t.cols@[k].0@] == t.cols@[k].1@);
                        assert(self@[self.cols@[k2].0@] == self.cols@[k2].1@);
                    }
                    assert(t@ =~= self@.remove(col_name@));
                    lemma_cols_map_card(self.cols@);
                    if t.cols@.len() == 0 {
                        if self.cols@.len() >= 2 {
                            let k3: int = if fi == 0 {
                                1
                            } else {
                                0
                            };
                            assert(self.cols@[k3].0@ != self.cols@[fi as int].0@);
                            assert(seq_has_name(t.cols@, self.cols@[k3].0@));
                            assert(false);
                        }
                    } else {
                        let k2 = choose|k2: int|
                            0 <= k2 < self.cols@.len() && t.cols@[0] == self.cols@[k2];
                        assert(t.nrows() == self.cols@[k2].1@.len());
                        if self@.dom().len() == 1 {
                            assert(self.cols@.len() == 1);
                            assert(k2 == fi);
                            assert(false);
                        }
                    }
                }
                Ok(t)
            },
        }
    }
}

/// Entry `e` of a rename's output stems from one of the first `bound`
/// source entries: the renamed column under its new name, or an untouched
/// column whose name is neither the old nor the new one.
pub open spec fn renamed_from(
    src: Seq<(Value, Column)>,
    e: (Value, Column),
    old_name: Seq<char>,
    new_name: Seq<char>,
    bound: int,
) -> bool {
    exists|k2: int|
        0 <= k2 < bound && ((src[k2].0@ == old_name && e.0@ == new_name && e.1 == src[k2].1) || (
        src[k2].0@ != old_name && src[k2].0@ != new_name && e == src[k2]))
}

/// A wider source range keeps every `renamed_from` fact.
proof fn lemma_renamed_from_widen(
    src: Seq<(Value, Column)>,
    e: (Value, Column),
    old_name: Seq<char>,
    new_name: Seq<char>,
    bound: int,
    wider: int,
)
    requires
        renamed_from(src, e, old_name, new_name, bound),
        bound <= wider,
    ensures
        renamed_from(src, e, old_name, new_name, wider),
{
    let k2 = choose|k2: int|
        0 <= k2 < bound && ((src[k2].0@ == old_name && e.0@ == new_name && e.1 == src[k2].1) || (
        src[k2].0@ != old_name && src[k2].0@ != new_name && e == src[k2]));
    assert(0 <= k2 < wider && ((src[k2].0@ == old_name && e.0@ == new_name && e.1 == src[k2].1) || (
    src[k2].0@ != old_name && src[k2].0@ != new_name && e == src[k2])));
}

/// The filter called on (a string slice holding) `cell` may return `b`.
pub open spec fn cell_test<F: Fn(&str) -> bool>(f: F, cell: Seq<char>, b: bool) -> bool {
    exists|a: &str| a@ == cell && call_ensures(f, (a,), b)
}

/// The map called on (a string slice holding) `from` may return a string
/// holding `to`.
pub open spec fn cell_map<F: Fn(&str) -> String>(f: F, from: Seq<char>, to: Seq<char>) -> bool {
    exists|a: &str, r: String| a@ == from && r@ == to && call_ensures(f, (a,), r)
}

/// In a strictly ascending position list the values grow at least as fast as
/// the indices.
pub proof fn lemma_increasing_gap(ps: Seq<usize>, i: int, j: int)
    requires
        strictly_increasing(ps),
        0 <= i <= j < ps.len(),
    ensures
        ps[j] - ps[i] >= j - i,
    decreases j - i,
{
    if i < j {
        lemma_increasing_gap(ps, i, j - 1);
    }
}

/// A strictly ascending list of `n` positions below `n` is the identity.
pub proof fn lemma_increasing_identity(ps: Seq<usize>, n: int)
    requires
        strictly_increasing(ps),
        ps.len() == n,
        forall|i: int| 0 <= i < ps.len() ==> (#[trigger] ps[i]) < n,
    ensures
        forall|i: int| 0 <= i < ps.len() ==> (#[trigger] ps[i]) == i,
{
    assert forall|i: int| 0 <= i < ps.len() implies (#[trigger] ps[i]) == i by {
        lemma_increasing_gap(ps, 0, i);
        lemma_increasing_gap(ps, i, n - 1);
    }
}

/// What a successful `filter_column` leaves: exactly the rows whose cell in
/// the key column the filter accepted, in their original order.
pub open spec fn filtered<F: Fn(&str) -> bool>(
    pre: TableMap,
    key: Seq<char>,
    f: F,
    post: TableMap,
    ps: Seq<usize>,
) -> bool {
    &&& strictly_increasing(ps)
    &&& forall|i: int| 0 <= i < ps.len() ==> (#[trigger] ps[i]) < pre[key].len()
    &&& remapped(pre, post, ps)
    &&& forall|i: int|
        0 <= i < ps.len() ==> cell_test(f, pre[key][(#[trigger] ps[i]) as int], true)
    &&& forall|p: int|
        0 <= p < pre[key].len() && !(#[trigger] contains_pos(ps, p)) ==> cell_test(
            f,
            pre[key][p],
            false,
        )
}

impl Table {
    /// Renames one column; if the new name collides with another existing
    /// column, the renamed column overwrites it. Fails with `MissingColumn`
    /// when the old name is absent.
    pub fn rename_column(&self, old_col_name: &str, new_col_name: &str) -> (r: Result<
        Table,
        TableError,
    >)
        requires
            self.wf(),
        ensures
            match r {
                Ok(t) => {
                    &&& t.wf()
                    &&& self@.contains_key(old_col_name@)
                    &&& t@ == self@.remove(old_col_name@).insert(
                        new_col_name@,
                        self@[old_col_name@],
                    )
                },
                Err(e) => !self@.contains_key(old_col_name@) && (e
                    matches TableError::MissingColumn(n) && n@ == old_col_name@),
            },
    {
        match self.find_col(old_col_name) {
            None => Err(TableError::MissingColumn(Value::new(old_col_name.to_owned()))),
            Some(fi) => {
                let mut cols: Vec<(Value, Column)> = Vec::new();
                let mut i: usize = 0;
                while i < self.cols.len()
                    invariant
                        self.wf(),
                        i <= self.cols@.len(),
                        fi < self.cols@.len(),
                        self.cols@[fi as int].0@ == old_col_name@,
                        forall|k: int|
                            0 <= k < cols@.len() ==> renamed_from(
                                self.cols@,
                                #[trigger] cols@[k],
                                old_col_name@,
                                new_col_name@,
                                i as int,
                            ),
                        forall|k2: int|
                            0 <= k2 < i && (#[trigger] self.cols@[k2]).0@ != old_col_name@
                                && self.cols@[k2].0@ != new_col_name@ ==> seq_has_name(
                                cols@,
                                self.cols@[k2].0@,
                            ),
                        i > fi ==> seq_has_name(cols@, new_col_name@),
                        distinct_names(cols@),
                        forall|k: int|
                            0 <= k < cols@.len() ==> (#[trigger] cols@[k]).1.wf()
                                && cols@[k].1@.len() == self.nrows(),
                    decreases self.cols@.len() - i,
                {
                    let ghost pre = cols@;
                    if i == fi {
                        cols.push(
                            (Value::new(new_col_name.to_owned()), self.cols[i].1.duplicate()),
                        );
                        proof {
                            lemma_push_keeps_names(pre, cols@.last());
                            assert(cols@ == pre.push(cols@.last()));
                            assert(renamed_from(
                                self.cols@,
                                cols@[cols@.len() - 1],
                                old_col_name@,
                                new_col_name@,
                                i + 1,
                            )) by {
                                assert(self.cols@[i as int].0@ == old_col_name@ && cols@[cols@.len()
                                    - 1].0@ == new_col_name@ && cols@[cols@.len() - 1].1
                                    == self.cols@[i as int].1);
                            }
                            assert forall|k: int| 0 <= k < cols@.len() implies renamed_from(
                                self.cols@,
                                #[trigger] cols@[k],
                                old_col_name@,
                                new_col_name@,
                                i + 1,
                            ) by {
                                if k < pre.len() {
                                    assert(renamed_from(
                                        self.cols@,
                                        pre[k],
                                        old_col_name@,
                                        new_col_name@,
                                        i as int,
                                    ));
                                    lemma_renamed_from_widen(
                                        self.cols@,
                                        pre[k],
                                        old_col_name@,
                                        new_col_name@,
                                        i as int,
                                        i + 1,
                                    );
                                    assert(cols@[k] == pre[k]);
                                }
                            }
                            assert forall|a: int, b: int|
                                0 <= a < b < cols@.len() implies cols@[a].0@ != cols@[b].0@ by {
                                if b == cols@.len() - 1 {
                                    let a2 = choose|a2: int|
                                        0 <= a2 < i && ((self.cols@[a2].0@ == old_col_name@
                                            && pre[a].0@ == new_col_name@ && pre[a].1
                                            == self.cols@[a2].1) || (self.cols@[a2].0@
                                            != old_col_name@ && self.cols@[a2].0@ != new_col_name@
                                            && pre[a] == self.cols@[a2]));
                                    assert(self.cols@[a2].0@ != self.cols@[fi as int].0@);
                                }
                            }
                        }
                    } else if !str_eq(self.cols[i].0.as_str(), new_col_name) && !str_eq(
                        self.cols[i].0.as_str(),
                        old_col_name,
                    ) {
                        cols.push((self.cols[i].0.duplicate(), self.cols[i].1.duplicate()));
                        proof {
                            lemma_push_keeps_names(pre, cols@.last());
                            assert(cols@ == pre.push(cols@.last()));
                            assert(cols@.last() == self.cols@[i as int]);
                            assert(renamed_from(
                                self.cols@,
                                cols@[cols@.len() - 1],
                                old_col_name@,
                                new_col_name@,
                                i + 1,
                            )) by {
                                assert(self.cols@[i as int].0@ != old_col_name@
                                    && self.cols@[i as int].0@ != new_col_name@ && cols@[cols@.len()
                                    - 1] == self.cols@[i as int]);
                            }
                            assert forall|k: int| 0 <= k < cols@.len() implies renamed_from(
                                self.cols@,
                                #[trigger] cols@[k],
                                old_col_name@,
                                new_col_name@,
                                i + 1,
                            ) by {
                                if k < pre.len() {
                                    assert(renamed_from(
                                        self.cols@,
                                        pre[k],
                                        old_col_name@,
                                        new_col_name@,
                                        i as int,
                                    ));
                                    lemma_renamed_from_widen(
                                        self.cols@,
                                        pre[k],
                                        old_col_name@,
                                        new_col_name@,
                                        i as int,
                                        i + 1,
                                    );
                                    assert(cols@[k] == pre[k]);
                                }
                            }
                            assert forall|a: int, b: int|
                                0 <= a < b < cols@.len() implies cols@[a].0@ != cols@[b].0@ by {
                                if b == cols@.len() - 1 {
                                    let a2 = choose|a2: int|
                                        0 <= a2 < i && ((self.cols@[a2].0@ == old_col_name@
                                            && pre[a].0@ == new_col_name@ && pre[a].1
                                            == self.cols@[a2].1) || (self.cols@[a2].0@
                                            != old_col_name@ && self.cols@[a2].0@ != new_col_name@
                                            && pre[a] == self.cols@[a2]));
                                    if self.cols@[a2].0@ == old_col_name@ {
                                        assert(cols@[a].0@ == new_col_name@);
                                    } else {
                                        assert(self.cols@[a2].0@ != self.cols@[i as int].0@);
                                    }
                                }
                            }
                        }
                    } else {
                        proof {
                            assert forall|k: int| 0 <= k < cols@.len() implies renamed_from(
                                self.cols@,
                                #[trigger] cols@[k],
                                old_col_name@,
                                new_col_name@,
                                i + 1,
                            ) by {
                                lemma_renamed_from_widen(
                                    self.cols@,
                                    cols@[k],
                                    old_col_name@,
                                    new_col_name@,
                                    i as int,
                                    i + 1,
                                );
                            }
                        }
                    }
                    i += 1;
                }
                proof {
                    lemma_cols_map(cols@);
                }
                let t = Table::from_cols(cols);
                proof {
                    lemma_cols_map(self.cols@);
                    lemma_cols_map(t.cols@);
                    let target = self@.remove(old_col_name@).insert(
                        new_col_name@,
                        self@[old_col_name@],
                    );
                    assert forall|n: Seq<char>|
                        t@.contains_key(n) == target.contains_key(n) by {
                        if t@.contains_key(n) {
                            let k = choose|k: int| 0 <= k < t.cols@.len() && t.cols@[k].0@ == n;
                            assert(renamed_from(
                                self.cols@,
                                t.cols@[k],
                                old_col_name@,
                                new_col_name@,
                                self.cols@.len() as int,
                            ));
                            let k2 = choose|k2: int|
                                0 <= k2 < self.cols@.len() && ((self.cols@[k2].0@ == old_col_name@
                                    && t.cols@[k].0@ == new_col_name@ && t.cols@[k].1
                                    == self.cols@[k2].1) || (self.cols@[k2].0@ != old_col_name@
                                    && self.cols@[k2].0@ != new_col_name@ && t.cols@[k]
                                    == self.cols@[k2]));
                            if self.cols@[k2].0@ == old_col_name@ {
                                assert(target.contains_key(new_col_name@));
                            } else {
                                assert(self@.contains_key(self.cols@[k2].0@));
                            }
                        }
                        if target.contains_key(n) {
                            if n == new_col_name@ {
                                assert(seq_has_name(t.cols@, new_col_name@));
                                let k = choose|k: int|
                                    0 <= k < t.cols@.len() && t.cols@[k].0@ == n;
                                assert(t@.contains_key(t.cols@[k].0@));
                            } else {
                                let k2 = choose|k2: int|
                                    0 <= k2 < self.cols@.len() && self.cols@[k2].0@ == n;
                                assert(seq_has_name(t.cols@, n));
                                let k = choose|k: int|
                                    0 <= k < t.cols@.len() && t.cols@[k].0@ == n;
                                assert(t@.contains_key(t.cols@[k].0@));
                            }
                        }
                    }
                    assert forall|n: Seq<char>| #[trigger] t@.contains_key(n) implies t@[n]
                        == target[n] by {
                        let k = choose|k: int| 0 <= k < t.cols@.len() && t.cols@[k].0@ == n;
                        assert(renamed_from(
                            self.cols@,
                            t.cols@[k],
                            old_col_name@,
                            new_col_name@,
                            self.cols@.len() as int,
                        ));
                        let k2 = choose|k2: int|
                            0 <= k2 < self.cols@.len() && ((self.cols@[k2].0@ == old_col_name@
                                && t.cols@[k].0@ == new_col_name@ && t.cols@[k].1
                                == self.cols@[k2].1) || (self.cols@[k2].0@ != old_col_name@
                                && self.cols@[k2].0@ != new_col_name@ && t.cols@[k]
                                == self.cols@[k2]));
                        assert(t@[t.cols@[k].0@] == t.cols@[k].1@);
                        assert(self@[self.cols@[k2].0@] == self.cols@[k2].1@);
                        if self.cols@[k2].0@ == old_col_name@ {
                            assert(k2 == fi);
                            assert(n == new_col_name@);
                        }
                    }
                    assert(t@ =~= target);
                }
                Ok(t)
            },
        }
    }

    /// Keeps the rows whose cell in the named column satisfies the filter,
    /// in their original order; when every row is retained the result shares
    /// the whole table. Fails with `MissingColumn` when absent.
    pub fn filter_column<F: Fn(&str) -> bool>(&self, col_name: &str, filter: F) -> (r: Result<
        Table,
        TableError,
    >)
        requires
            self.wf(),
            forall|a: &str| #[trigger] call_requires(filter, (a,)),
        ensures
            match r {
                Ok(t) => {
                    &&& t.wf()
                    &&& self@.contains_key(col_name@)
                    &&& t.ncols() == self.ncols()
                    &&& t.nrows() <= self.nrows()
                    &&& forall|n: Seq<char>| t.col_has_index(n) == self.col_has_index(n)
                    &&& exists|ps: Seq<usize>|
                        #[trigger] filtered(self@, col_name@, filter, t@, ps) && t.nrows()
                            == ps.len()
                },
                Err(e) => !self@.contains_key(col_name@) && (e
                    matches TableError::MissingColumn(n) && n@ == col_name@),
            },
    {
        match self.find_col(col_name) {
            None => Err(TableError::MissingColumn(Value::new(col_name.to_owned()))),
            Some(fi) => {
                proof {
                    lemma_cols_map(self.cols@);
                    self.wf_facts();
                }
                let column = &self.cols[fi].1;
                let mut ps: Vec<usize> = Vec::new();
                let mut p: usize = 0;
                let n = column.len();
                while p < n
                    invariant
                        self.wf(),
                        forall|a: &str| #[trigger] call_requires(filter, (a,)),
                        fi < self.cols@.len(),
                        self.cols@[fi as int].0@ == col_name@,
                        self@.contains_key(col_name@),
                        self@[col_name@] == self.cols@[fi as int].1@,
                        column == self.cols@[fi as int].1,
                        n == self.nrows(),
                        p <= n,
                        strictly_increasing(ps@),
                        forall|i: int| 0 <= i < ps@.len() ==> (#[trigger] ps@[i]) < p,
                        forall|i: int|
                            0 <= i < ps@.len() ==> cell_test(
                                filter,
                                self@[col_name@][(#[trigger] ps@[i]) as int],
                                true,
                            ),
                        forall|q: int|
                            0 <= q < p && !(#[trigger] contains_pos(ps@, q)) ==> cell_test(
                                filter,
                                self@[col_name@][q],
                                false,
                            ),
                    decreases n - p,
                {
                    let ghost pre = ps@;
                    let cell = column.cell_at(p);
                    let keep = filter(cell.as_str());
                    if keep {
                        ps.push(p);
                        proof {
                            assert forall|q: int|
                                0 <= q < p + 1 && !(#[trigger] contains_pos(ps@, q)) implies cell_test(
                                filter,
                                self@[col_name@][q],
                                false,
                            ) by {
                                if q < p {
                                    if contains_pos(pre, q) {
                                        let i = choose|i: int|
                                            0 <= i < pre.len() && pre[i] == q;
                                        assert(ps@[i] == q);
                                        assert(contains_pos(ps@, q));
                                    }
                                } else {
                                    assert(ps@[pre.len() as int] == q);
                                    assert(contains_pos(ps@, q));
                                }
                            }
                        }
                    } else {
                        proof {
                            assert forall|q: int|
                                0 <= q < p + 1 && !(#[trigger] contains_pos(ps@, q)) implies cell_test(
                                filter,
                                self@[col_name@][q],
                                false,
                            ) by {
                                if q == p {
                                    assert(cell@ == self@[col_name@][q]);
                                }
                            }
                        }
                    }
                    p += 1;
                }
                if ps.len() == self.rows_count() {
                    let t = self.duplicate();
                    proof {
                        lemma_increasing_identity(ps@, self.nrows() as int);
                        assert(filtered(self@, col_name@, filter, t@, ps@)) by {
                            self.wf_facts();
                            assert forall|nm: Seq<char>, j: int|
                                t@.contains_key(nm) && 0 <= j < ps@.len() implies #[trigger] t@[nm][j]
                                == self@[nm][ps@[j] as int] by {
                                assert(ps@[j] == j);
                            }
                        }
                    }
                    Ok(t)
                } else {
                    let t = self.remap(&ps);
                    proof {
                        if self.ncols() == 0 {
                            assert(self@.contains_key(col_name@));
                            lemma_cols_map(self.cols@);
                            let k = choose|k: int|
                                0 <= k < self.cols@.len() && self.cols@[k].0@ == col_name@;
                            assert(false);
                        }
                        if ps@.len() > 0 {
                            lemma_increasing_gap(ps@, 0, ps@.len() - 1);
                        }
                        assert(filtered(self@, col_name@, filter, t@, ps@));
                        self.lemma_col_has_index_iff();
                        t.lemma_col_has_index_iff();
                    }
                    Ok(t)
                }
            },
        }
    }

    /// Replaces the named column's cells with the map applied to each; every
    /// other column is shared unchanged. Fails with `MissingColumn`.
    pub fn map_column<F: Fn(&str) -> String>(&self, col_name: &str, map: F) -> (r: Result<
        Table,
        TableError,
    >)
        requires
            self.wf(),
            forall|a: &str| #[trigger] call_requires(map, (a,)),
        ensures
            match r {
                Ok(t) => {
                    &&& t.wf()
                    &&& self@.contains_key(col_name@)
                    &&& t@.dom() == self@.dom()
                    &&& t.nrows() == self.nrows()
                    &&& t.ncols() == self.ncols()
                    &&& forall|n: Seq<char>|
                        #[trigger] t@.contains_key(n) && n != col_name@ ==> t@[n] == self@[n]
                    &&& t@[col_name@].len() == self.nrows()
                    &&& forall|j: int|
                        0 <= j < self.nrows() ==> cell_map(
                            map,
                            self@[col_name@][j],
                            #[trigger] t@[col_name@][j],
                        )
                },
                Err(e) => !self@.contains_key(col_name@) && (e
                    matches TableError::MissingColumn(n) && n@ == col_name@),
            },
    {
        match self.find_col(col_name) {
            None => Err(TableError::MissingColumn(Value::new(col_name.to_owned()))),
            Some(fi) => {
                proof {
                    lemma_cols_map(self.cols@);
                    self.wf_facts();
                }
                let source = &self.cols[fi].1;
                let mut cells: Vec<Value> = Vec::new();
                let mut p: usize = 0;
                let n = source.len();
                while p < n
                    invariant
                        forall|a: &str| #[trigger] call_requires(map, (a,)),
                        fi < self.cols@.len(),
                        source == self.cols@[fi as int].1,
                        n == source@.len(),
                        p <= n,
                        cells@.len() == p,
                        forall|j: int|
                            0 <= j < p ==> cell_map(
                                map,
                                source@[j],
                                (#[trigger] cells@[j])@,
                            ),
                    decreases n - p,
                {
                    let cell = source.cell_at(p);
                    let mapped = map(cell.as_str());
                    cells.push(Value::new(mapped));
                    p += 1;
                }
                let newcol = Column::new(cells);
                proof {
                    assert(self.cols@[fi as int].1@.len() == self.nrows());
                    assert forall|j: int| 0 <= j < self.nrows() implies cell_map(
                        map,
                        self.cols@[fi as int].1@[j],
                        #[trigger] newcol@[j],
                    ) by {
                        assert(newcol@[j] == cells@[j]@);
                    }
                }
                let mut cols: Vec<(Value, Column)> = Vec::new();
                let mut i: usize = 0;
                let mut placed = false;
                while i < self.cols.len()
                    invariant
                        self.wf(),
                        fi < self.cols@.len(),
                        self.cols@[fi as int].0@ == col_name@,
                        newcol.wf(),
                        newcol@.len() == self.nrows(),
                        forall|j: int|
                            0 <= j < self.nrows() ==> cell_map(
                                map,
                                self.cols@[fi as int].1@[j],
                                #[trigger] newcol@[j],
                            ),
                        i <= self.cols@.len(),
                        cols@.len() == i,
                        forall|k: int| 0 <= k < i ==> (#[trigger] cols@[k]).0 == self.cols@[k].0,
                        forall|k: int|
                            0 <= k < i && k != fi ==> (#[trigger] cols@[k]).1 == self.cols@[k].1,
                        i > fi ==> cols@[fi as int].1 == newcol,
                        placed == (i > fi),
                    decreases self.cols@.len() - i,
                {
                    if !placed && str_eq(self.cols[i].0.as_str(), col_name) {
                        proof {
                            if i != fi {
                                assert(self.cols@[i as int].0@ != self.cols@[fi as int].0@);
                            }
                        }
                        cols.push((self.cols[i].0.duplicate(), newcol.duplicate()));
                        placed = true;
                    } else {
                        cols.push((self.cols[i].0.duplicate(), self.cols[i].1.duplicate()));
                    }
                    i += 1;
                }
                proof {
                    lemma_same_names(self.cols@, cols@);
                }
                let t = Table::from_cols(cols);
                proof {
                    lemma_cols_map(self.cols@);
                    lemma_cols_map(t.cols@);
                    assert forall|n: Seq<char>|
                        #[trigger] t@.contains_key(n) && n != col_name@ implies t@[n]
                        == self@[n] by {
                        let k = choose|k: int| 0 <= k < t.cols@.len() && t.cols@[k].0@ == n;
                        assert(t@[t.cols@[k].0@] == t.cols@[k].1@);
                        assert(self@[self.cols@[k].0@] == self.cols@[k].1@);
                        assert(k != fi);
                    }
                    assert(t@[t.cols@[fi as int].0@] == t.cols@[fi as int].1@);
                    assert(self@[self.cols@[fi as int].0@] == self.cols@[fi as int].1@);
                }
                Ok(t)
            },
        }
    }
}

impl Table {
    /// Keeps, for each value of the named column, only the earliest row
    /// holding it; first-seen order is preserved. Fails with
    /// `MissingColumn`.
    pub fn dinstinct_column(&self, col_name: &str) -> (r: Result<Table, TableError>)
        requires
            self.wf(),
        ensures
            match r {
                Ok(t) => {
                    &&& t.wf()
                    &&& self@.contains_key(col_name@)
                    &&& t.ncols() == self.ncols()
                    &&& exists|ps: Seq<usize>|
                        {
                            &&& strictly_increasing(ps)
                            &&& #[trigger] remapped(self@, t@, ps)
                            &&& t.nrows() == ps.len()
                            &&& forall|i: int|
                                0 <= i < ps.len() ==> (#[trigger] ps[i]) < self.nrows()
                            &&& forall|p: int|
                                0 <= p < self.nrows() ==> (contains_pos(ps, p)
                                    == is_first_occurrence(self@[col_name@], p))
                        }
                },
                Err(e) => !self@.contains_key(col_name@) && (e
                    matches TableError::MissingColumn(n) && n@ == col_name@),
            },
    {
        match self.find_col(col_name) {
            None => Err(TableError::MissingColumn(Value::new(col_name.to_owned()))),
            Some(fi) => {
                proof {
                    lemma_cols_map(self.cols@);
                    self.wf_facts();
                }
                let ix = self.cols[fi].1.get_index();
                proof {
                    lemma_index_firsts(ix@, self@[col_name@]);
                }
                let mut ps: Vec<usize> = Vec::new();
                let mut j: usize = 0;
                let m = ix.len();
                while j < m
                    invariant
                        self.wf(),
                        fi < self.cols@.len(),
                        self.cols@[fi as int].0@ == col_name@,
                        self@.contains_key(col_name@),
                        self@[col_name@] == self.cols@[fi as int].1@,
                        self@[col_name@].len() == self.nrows(),
                        is_index_for(ix@, self@[col_name@]),
                        m == ix@.len(),
                        j <= m,
                        ps@.len() == j,
                        forall|k: int| 0 <= k < j ==> (#[trigger] ps@[k]) == ix@[k].1[0],
                    decreases m - j,
                {
                    let entry = ix.positions_at(j);
                    ps.push(entry[0]);
                    j += 1;
                }
                proof {
                    lemma_index_firsts(ix@, self@[col_name@]);
                    assert(strictly_increasing(ps@)) by {
                        assert forall|a: int, b: int|
                            0 <= a < b < ps@.len() implies ps@[a] < ps@[b] by {
                            assert(ix@[a].1[0] < ix@[b].1[0]);
                        }
                    }
                    assert forall|i: int| 0 <= i < ps@.len() implies (#[trigger] ps@[i])
                        < self.nrows() by {
                        assert(is_positions_for(ix@[i].1, self@[col_name@], ix@[i].0));
                        assert(ix@[i].1[0] < self@[col_name@].len());
                    }
                    assert forall|p: int|
                        0 <= p < self.nrows() implies (contains_pos(ps@, p)
                        == is_first_occurrence(self@[col_name@], p)) by {
                        if contains_pos(ps@, p) {
                            let k = choose|k: int| 0 <= k < ps@.len() && ps@[k] == p;
                            assert(is_first_occurrence(self@[col_name@], ix@[k].1[0] as int));
                        }
                        if is_first_occurrence(self@[col_name@], p) {
                            assert(is_entry_first(ix@, p));
                            let k = choose|k: int|
                                0 <= k < ix@.len() && ix@[k].1.len() > 0 && ix@[k].1[0] == p;
                            assert(ps@[k] == p);
                            assert(contains_pos(ps@, p));
                        }
                    }
                }
                let t = self.remap(&ps);
                proof {
                    lemma_cols_map(self.cols@);
                    if self.ncols() == 0 {
                        let k = choose|k: int|
                            0 <= k < self.cols@.len() && self.cols@[k].0@ == col_name@;
                        assert(false);
                    }
                }
                Ok(t)
            },
        }
    }

    /// Keeps the rows of `self` whose value in `col_name_self` appears
    /// nowhere in `other`'s `col_name_other` column (an anti-join). Fails
    /// with `MissingColumn` for either absent key.
    #[verifier::rlimit(60)]
    #[verifier::spinoff_prover]
    pub fn diff_on_columns(&self, col_name_self: &str, other: &Table, col_name_other: &str) -> (r:
        Result<Table, TableError>)
        requires
            self.wf(),
            other.wf(),
        ensures
            match r {
                Ok(t) => {
                    &&& t.wf()
                    &&& self@.contains_key(col_name_self@)
                    &&& other@.contains_key(col_name_other@)
                    &&& t.ncols() == self.ncols()
                    &&& exists|ps: Seq<usize>|
                        {
                            &&& strictly_increasing(ps)
                            &&& #[trigger] remapped(self@, t@, ps)
                            &&& t.nrows() == ps.len()
                            &&& forall|i: int|
                                0 <= i < ps.len() ==> (#[trigger] ps[i]) < self.nrows()
                            &&& forall|p: int|
                                0 <= p < self.nrows() ==> (contains_pos(ps, p)
                                    == !other@[col_name_other@].contains(
                                    self@[col_name_self@][p]))
                        }
                },
                Err(e) => e matches TableError::MissingColumn(n) && ((n@ == col_name_self@
                    && !self@.contains_key(col_name_self@)) || (n@ == col_name_other@ && !other@
                    .contains_key(col_name_other@) && self@.contains_key(col_name_self@))),
            },
    {
        match self.find_col(col_name_self) {
            None => Err(TableError::MissingColumn(Value::new(col_name_self.to_owned()))),
            Some(fi) => {
                match other.find_col(col_name_other) {
                    None => Err(
                        TableError::MissingColumn(Value::new(col_name_other.to_owned())),
                    ),
                    Some(oi) => {
                        proof {
                            lemma_cols_map(self.cols@);
                            lemma_cols_map(other.cols@);
                            self.wf_facts();
                            other.wf_facts();
                        }
                        let ix = other.cols[oi].1.get_index();
                        let column = &self.cols[fi].1;
                        let mut ps: Vec<usize> = Vec::new();
                        let mut p: usize = 0;
                        let n = column.len();
                        while p < n
                            invariant
                                self.wf(),
                                fi < self.cols@.len(),
                                self.cols@[fi as int].0@ == col_name_self@,
                                self@.contains_key(col_name_self@),
                                self@[col_name_self@] == self.cols@[fi as int].1@,
                                column == self.cols@[fi as int].1,
                                other.wf(),
                                other@.contains_key(col_name_other@),
                                self@[col_name_self@].len() == self.nrows(),
                                is_index_for(ix@, other@[col_name_other@]),
                                n == self.nrows(),
                                p <= n,
                                strictly_increasing(ps@),
                                forall|i: int| 0 <= i < ps@.len() ==> (#[trigger] ps@[i]) < p,
                                forall|q: int|
                                    0 <= q < p ==> (contains_pos(ps@, q)
                                        == !other@[col_name_other@].contains(
                                        self@[col_name_self@][q])),
                            decreases n - p,
                        {
                            let ghost pre = ps@;
                            let cell = column.cell_at(p);
                            let hit = ix.contains_key(cell);
                            proof {
                                lemma_index_keys(ix@, other@[col_name_other@]);
                                assert(hit == has_key(ix@, cell@));
                                if has_key(ix@, cell@) {
                                    assert(other@[col_name_other@].contains(cell@));
                                }
                                if other@[col_name_other@].contains(cell@) {
                                    assert(has_key(ix@, cell@));
                                }
                            }
                            if !hit {
                                ps.push(p);
                            }
                            proof {
                                assert forall|q: int|
                                    0 <= q < p + 1 implies (contains_pos(ps@, q)
                                    == !other@[col_name_other@].contains(
                                    self@[col_name_self@][q])) by {
                                    if q < p {
                                        if contains_pos(pre, q) {
                                            let i = choose|i: int|
                                                0 <= i < pre.len() && pre[i] == q;
                                            assert(ps@[i] == q);
                                            assert(contains_pos(ps@, q));
                                        }
                                        if contains_pos(ps@, q) {
                                            let i = choose|i: int|
                                                0 <= i < ps@.len() && ps@[i] == q;
                                            if i < pre.len() {
                                                assert(pre[i] == q);
                                                assert(contains_pos(pre, q));
                                            }
                                        }
                                    } else {
                                        if !hit {
                                            assert(ps@[ps@.len() - 1] == q);
                                            assert(contains_pos(ps@, q));
                                        } else {
                                            if contains_pos(ps@, q) {
                                                let i = choose|i: int|
                                                    0 <= i < ps@.len() && ps@[i] == q;
                                            }
                                        }
                                    }
                                }
                            }
                            p += 1;
                        }
                        let t = self.remap(&ps);
                        proof {
                            lemma_cols_map(self.cols@);
                            if self.ncols() == 0 {
                                let k = choose|k: int|
                                    0 <= k < self.cols@.len() && self.cols@[k].0@
                                        == col_name_self@;
                                assert(false);
                            }
                        }
                        Ok(t)
                    },
                }
            },
        }
    }
}

/// Row `p` sorts before row `q`: its key cell is lexicographically smaller,
/// or the keys tie and `p` came first (the tie rule that makes the sort
/// stable).
pub open spec fn pos_lt(cells: Seq<Seq<char>>, p: int, q: int) -> bool {
    lex_lt(cells[p], cells[q]) || (cells[p] == cells[q] && p < q)
}

/// The stable-sort order on rows is transitive.
pub proof fn lemma_pos_lt_trans(cells: Seq<Seq<char>>, a: int, b: int, c: int)
    requires
        pos_lt(cells, a, b),
        pos_lt(cells, b, c),
    ensures
        pos_lt(cells, a, c),
{
    if lex_lt(cells[a], cells[b]) {
        if lex_lt(cells[b], cells[c]) {
            lemma_lex_transitive(cells[a], cells[b], cells[c]);
        }
    } else {
        if lex_lt(cells[b], cells[c]) {
        }
    }
}

/// `ps` lists every row position exactly once, ordered by the stable-sort
/// rule for the given key cells.
pub open spec fn sorted_run(cells: Seq<Seq<char>>, ps: Seq<usize>) -> bool {
    &&& ps.len() == cells.len()
    &&& forall|i: int| 0 <= i < ps.len() ==> (#[trigger] ps[i]) < cells.len()
    &&& forall|p: int| 0 <= p < cells.len() ==> contains_pos(ps, p)
    &&& forall|a: int, b: int| 0 <= a < b < ps.len() ==> pos_lt(cells, ps[a] as int, ps[b] as int)
}

/// The comparator called on (string slices holding) `x` and `y` may return
/// `o`.
pub open spec fn cmp_test<F: Fn(&str, &str) -> core::cmp::Ordering>(
    f: F,
    x: Seq<char>,
    y: Seq<char>,
    o: core::cmp::Ordering,
) -> bool {
    exists|a: &str, b: &str| a@ == x && b@ == y && call_ensures(f, (a, b), o)
}

/// Adjacent rows of a comparator sort are justified by a comparator answer:
/// the later row compared not-less against the earlier, or the earlier
/// compared less against the later.
pub open spec fn adj_ok<F: Fn(&str, &str) -> core::cmp::Ordering>(
    f: F,
    u_cell: Seq<char>,
    v_cell: Seq<char>,
) -> bool {
    ||| exists|o: core::cmp::Ordering|
        #[trigger] cmp_test(f, v_cell, u_cell, o) && o != core::cmp::Ordering::Less
    ||| cmp_test(f, u_cell, v_cell, core::cmp::Ordering::Less)
}

impl Table {
    /// Stable sort of all rows by the named column under byte-wise key
    /// ordering; equal keys keep their original relative order. Fails with
    /// `MissingColumn`.
    pub fn sort_column(&self, col_name: &str) -> (r: Result<Table, TableError>)
        requires
            self.wf(),
        ensures
            match r {
                Ok(t) => {
                    &&& t.wf()
                    &&& self@.contains_key(col_name@)
                    &&& t.ncols() == self.ncols()
                    &&& t.nrows() == self.nrows()
                    &&& exists|ps: Seq<usize>|
                        #[trigger] sorted_run(self@[col_name@], ps) && remapped(self@, t@, ps)
                },
                Err(e) => !self@.contains_key(col_name@) && (e
                    matches TableError::MissingColumn(n) && n@ == col_name@),
            },
    {
        match self.find_col(col_name) {
            None => Err(TableError::MissingColumn(Value::new(col_name.to_owned()))),
            Some(fi) => {
                proof {
                    lemma_cols_map(self.cols@);
                    self.wf_facts();
                }
                let column = &self.cols[fi].1;
                let ghost cells = self@[col_name@];
                let n = column.len();
                let mut ps: Vec<usize> = Vec::new();
                let mut p: usize = 0;
                while p < n
                    invariant
                        self.wf(),
                        fi < self.cols@.len(),
                        self.cols@[fi as int].0@ == col_name@,
                        self@.contains_key(col_name@),
                        cells == self@[col_name@],
                        cells == self.cols@[fi as int].1@,
                        column == self.cols@[fi as int].1,
                        n == cells.len(),
                        p <= n,
                        ps@.len() == p,
                        forall|i: int| 0 <= i < ps@.len() ==> (#[trigger] ps@[i]) < p,
                        forall|q: int| 0 <= q < p ==> contains_pos(ps@, q),
                        forall|a: int, b: int|
                            0 <= a < b < ps@.len() ==> pos_lt(cells, ps@[a] as int, ps@[b] as int),
                    decreases n - p,
                {
                    let mut idx: usize = ps.len();
                    let mut stopped = false;
                    while idx > 0 && !stopped
                        invariant
                            self.wf(),
                            fi < self.cols@.len(),
                            cells == self.cols@[fi as int].1@,
                            column == self.cols@[fi as int].1,
                            n == cells.len(),
                            p < n,
                            ps@.len() == p,
                            idx <= ps@.len(),
                            forall|i: int| 0 <= i < ps@.len() ==> (#[trigger] ps@[i]) < p,
                            forall|q: int| 0 <= q < p ==> contains_pos(ps@, q),
                            forall|a: int, b: int|
                                0 <= a < b < ps@.len() ==> pos_lt(
                                    cells,
                                    ps@[a] as int,
                                    ps@[b] as int,
                                ),
                            forall|k: int|
                                idx <= k < ps@.len() ==> pos_lt(
                                    cells,
                                    p as int,
                                    (#[trigger] ps@[k]) as int,
                                ),
                            stopped && idx > 0 ==> pos_lt(cells, ps@[idx - 1] as int, p as int),
                        decreases idx + if stopped {
                            0int
                        } else {
                            1int
                        },
                    {
                        let prev = ps[idx - 1];
                        if column.cell_at(p).lt_value(column.cell_at(prev)) {
                            idx -= 1;
                        } else {
                            proof {
                                lemma_lex_trichotomy(cells[p as int], cells[prev as int]);
                            }
                            stopped = true;
                        }
                    }
                    let ghost pre = ps@;
                    ps.insert(idx, p);
                    proof {
                        assert(ps@ == pre.insert(idx as int, p));
                        assert forall|a: int, b: int|
                            0 <= a < b < ps@.len() implies pos_lt(
                            cells,
                            ps@[a] as int,
                            ps@[b] as int,
                        ) by {
                            if b < idx {
                            } else if a == idx && b > idx {
                                assert(ps@[b] == pre[b - 1]);
                            } else if b == idx && a < idx {
                                assert(pos_lt(cells, pre[idx - 1] as int, p as int));
                                if a < idx - 1 {
                                    lemma_pos_lt_trans(
                                        cells,
                                        pre[a] as int,
                                        pre[idx - 1] as int,
                                        p as int,
                                    );
                                }
                            } else if a < idx && b > idx {
                                assert(ps@[b] == pre[b - 1]);
                            } else if a > idx {
                                assert(ps@[a] == pre[a - 1]);
                                assert(ps@[b] == pre[b - 1]);
                            }
                        }
                        assert forall|q: int| 0 <= q < p + 1 implies contains_pos(ps@, q) by {
                            if q < p {
                                assert(contains_pos(pre, q));
                                let i = choose|i: int| 0 <= i < pre.len() && pre[i] == q;
                                if i < idx {
                                    assert(ps@[i] == q);
                                } else {
                                    assert(ps@[i + 1] == q);
                                }
                                assert(contains_pos(ps@, q));
                            } else {
                                assert(ps@[idx as int] == q);
                                assert(contains_pos(ps@, q));
                            }
                        }
                    }
                    p += 1;
                }
                let t = self.remap(&ps);
                proof {
                    lemma_cols_map(self.cols@);
                    if self.ncols() == 0 {
                        let k = choose|k: int|
                            0 <= k < self.cols@.len() && self.cols@[k].0@ == col_name@;
                        assert(false);
                    }
                    assert(sorted_run(cells, ps@));
                }
                Ok(t)
            },
        }
    }

    /// Sorts all rows by the named column under a caller-supplied ordering
    /// of two raw cell values; every adjacent pair of the result is
    /// justified by an answer the comparator actually gave, and any pair of
    /// rows out of their original relative order is justified by a strict
    /// `Less` answer on their key cells — rows whose keys the comparator
    /// never orders strictly keep their input order, so the sort is stable.
    /// Fails with `MissingColumn`.
    #[verifier::rlimit(100)]
    #[verifier::spinoff_prover]
    pub fn sort_column_by<F: Fn(&str, &str) -> core::cmp::Ordering>(
        &self,
        col_name: &str,
        order: F,
    ) -> (r: Result<Table, TableError>)
        requires
            self.wf(),
            forall|a: &str, b: &str| #[trigger] call_requires(order, (a, b)),
        ensures
            match r {
                Ok(t) => {
                    &&& t.wf()
                    &&& self@.contains_key(col_name@)
                    &&& t.ncols() == self.ncols()
                    &&& t.nrows() == self.nrows()
                    &&& exists|ps: Seq<usize>|
                        {
                            &&& ps.len() == self.nrows()
                            &&& forall|i: int|
                                0 <= i < ps.len() ==> (#[trigger] ps[i]) < self.nrows()
                            &&& forall|p: int| 0 <= p < self.nrows() ==> contains_pos(ps, p)
                            &&& #[trigger] remapped(self@, t@, ps)
                            &&& forall|a: int|
                                0 < a < ps.len() ==> adj_ok(
                                    order,
                                    self@[col_name@][ps[a - 1] as int],
                                    self@[col_name@][(#[trigger] ps[a]) as int],
                                )
                            &&& forall|x: int, y: int|
                                #![trigger ps[x], ps[y]]
                                0 <= x < y < ps.len() && ps[x] > ps[y] ==> cmp_test(
                                    order,
                                    self@[col_name@][ps[x] as int],
                                    self@[col_name@][ps[y] as int],
                                    core::cmp::Ordering::Less,
                                )
                        }
                },
                Err(e) => !self@.contains_key(col_name@) && (e
                    matches TableError::MissingColumn(n) && n@ == col_name@),
            },
    {
        match self.find_col(col_name) {
            None => Err(TableError::MissingColumn(Value::new(col_name.to_owned()))),
            Some(fi) => {
                proof {
                    lemma_cols_map(self.cols@);
                    self.wf_facts();
                }
                let column = &self.cols[fi].1;
                let ghost cells = self@[col_name@];
                let n = column.len();
                let mut ps: Vec<usize> = Vec::new();
                let mut p: usize = 0;
                while p < n
                    invariant
                        self.wf(),
                        forall|a: &str, b: &str| #[trigger] call_requires(order, (a, b)),
                        fi < self.cols@.len(),
                        self.cols@[fi as int].0@ == col_name@,
                        self@.contains_key(col_name@),
                        cells == self@[col_name@],
                        cells == self.cols@[fi as int].1@,
                        column == self.cols@[fi as int].1,
                        n == cells.len(),
                        p <= n,
                        ps@.len() == p,
                        forall|i: int| 0 <= i < ps@.len() ==> (#[trigger] ps@[i]) < p,
                        forall|q: int| 0 <= q < p ==> contains_pos(ps@, q),
                        forall|a: int|
                            0 < a < ps@.len() ==> adj_ok(
                                order,
                                cells[ps@[a - 1] as int],
                                cells[(#[trigger] ps@[a]) as int],
                            ),
                        forall|x: int, y: int|
                            #![trigger ps@[x], ps@[y]]
                            0 <= x < y < ps@.len() && ps@[x] > ps@[y] ==> cmp_test(
                                order,
                                cells[ps@[x] as int],
                                cells[ps@[y] as int],
                                core::cmp::Ordering::Less,
                            ),
                    decreases n - p,
                {
                    let mut idx: usize = ps.len();
                    let mut stopped = false;
                    while idx > 0 && !stopped
                        invariant
                            self.wf(),
                            forall|a: &str, b: &str| #[trigger] call_requires(order, (a, b)),
                            fi < self.cols@.len(),
                            cells == self.cols@[fi as int].1@,
                            column == self.cols@[fi as int].1,
                            n == cells.len(),
                            p < n,
                            ps@.len() == p,
                            idx <= ps@.len(),
                            forall|i: int| 0 <= i < ps@.len() ==> (#[trigger] ps@[i]) < p,
                            forall|q: int| 0 <= q < p ==> contains_pos(ps@, q),
                            forall|a: int|
                                0 < a < ps@.len() ==> adj_ok(
                                    order,
                                    cells[ps@[a - 1] as int],
                                    cells[(#[trigger] ps@[a]) as int],
                                ),
                            forall|x: int, y: int|
                            #![trigger ps@[x], ps@[y]]
                            0 <= x < y < ps@.len() && ps@[x] > ps@[y] ==> cmp_test(
                                order,
                                cells[ps@[x] as int],
                                cells[ps@[y] as int],
                                core::cmp::Ordering::Less,
                            ),
                            forall|k: int|
                                idx <= k < ps@.len() ==> cmp_test(
                                    order,
                                    cells[p as int],
                                    cells[(#[trigger] ps@[k]) as int],
                                    core::cmp::Ordering::Less,
                                ),
                            stopped && idx > 0 ==> exists|o: core::cmp::Ordering|
                                #[trigger] cmp_test(
                                    order,
                                    cells[p as int],
                                    cells[ps@[idx - 1] as int],
                                    o,
                                ) && o != core::cmp::Ordering::Less,
                        decreases idx + if stopped {
                            0int
                        } else {
                            1int
                        },
                    {
                        let prev = ps[idx - 1];
                        let pa = column.cell_at(p).as_str();
                        let pb = column.cell_at(prev).as_str();
                        let o = order(pa, pb);
                        proof {
                            assert(cmp_test(order, cells[p as int], cells[prev as int], o));
                        }
                        if matches!(o, core::cmp::Ordering::Less) {
                            idx -= 1;
                        } else {
                            stopped = true;
                        }
                    }
                    let ghost pre = ps@;
                    ps.insert(idx, p);
                    proof {
                        assert(ps@ == pre.insert(idx as int, p));
                        assert forall|a: int|
                            0 < a < ps@.len() implies adj_ok(
                            order,
                            cells[ps@[a - 1] as int],
                            cells[(#[trigger] ps@[a]) as int],
                        ) by {
                            if a < idx {
                                assert(ps@[a - 1] == pre[a - 1]);
                                assert(ps@[a] == pre[a]);
                                assert(adj_ok(
                                    order,
                                    cells[pre[a - 1] as int],
                                    cells[pre[a] as int],
                                ));
                            } else if a == idx {
                                assert(ps@[a - 1] == pre[a - 1]);
                                assert(ps@[a] == p);
                                let o = choose|o: core::cmp::Ordering|
                                    #[trigger] cmp_test(
                                        order,
                                        cells[p as int],
                                        cells[pre[idx - 1] as int],
                                        o,
                                    ) && o != core::cmp::Ordering::Less;
                                assert(cmp_test(
                                    order,
                                    cells[ps@[a as int] as int],
                                    cells[ps@[a - 1] as int],
                                    o,
                                ));
                                assert(adj_ok(
                                    order,
                                    cells[ps@[a - 1] as int],
                                    cells[ps@[a as int] as int],
                                ));
                            } else if a == idx + 1 {
                                assert(ps@[a - 1] == p);
                                assert(ps@[a] == pre[a - 1]);
                                assert(cmp_test(
                                    order,
                                    cells[ps@[a - 1] as int],
                                    cells[ps@[a as int] as int],
                                    core::cmp::Ordering::Less,
                                ));
                                assert(adj_ok(
                                    order,
                                    cells[ps@[a - 1] as int],
                                    cells[ps@[a as int] as int],
                                ));
                            } else {
                                assert(ps@[a - 1] == pre[a - 2]);
                                assert(ps@[a] == pre[a - 1]);
                                assert(adj_ok(
                                    order,
                                    cells[pre[a - 2] as int],
                                    cells[pre[a - 1] as int],
                                ));
                            }
                        }
                        assert forall|q: int| 0 <= q < p + 1 implies contains_pos(ps@, q) by {
                            if q < p {
                                assert(contains_pos(pre, q));
                                let i = choose|i: int| 0 <= i < pre.len() && pre[i] == q;
                                if i < idx {
                                    assert(ps@[i] == q);
                                } else {
                                    assert(ps@[i + 1] == q);
                                }
                                assert(contains_pos(ps@, q));
                            } else {
                                assert(ps@[idx as int] == q);
                                assert(contains_pos(ps@, q));
                            }
                        }
                        assert forall|x: int, y: int|
                            #![trigger ps@[x], ps@[y]]
                            0 <= x < y < ps@.len() && ps@[x] > ps@[y] implies cmp_test(
                            order,
                            cells[ps@[x] as int],
                            cells[ps@[y] as int],
                            core::cmp::Ordering::Less,
                        ) by {
                            if x < idx && y < idx {
                                assert(ps@[x] == pre[x] && ps@[y] == pre[y]);
                            } else if x == idx {
                                assert(ps@[x] == p);
                                assert(ps@[y] == pre[y - 1]);
                                assert(cmp_test(
                                    order,
                                    cells[p as int],
                                    cells[pre[y - 1] as int],
                                    core::cmp::Ordering::Less,
                                ));
                            } else if y == idx {
                                assert(ps@[x] == pre[x]);
                                assert(ps@[y] == p);
                                assert(pre[x] < p);
                            } else if x < idx {
                                assert(ps@[x] == pre[x] && ps@[y] == pre[y - 1]);
                            } else {
                                assert(ps@[x] == pre[x - 1] && ps@[y] == pre[y - 1]);
                            }
                        }
                    }
                    p += 1;
                }
                let t = self.remap(&ps);
                proof {
                    lemma_cols_map(self.cols@);
                    if self.ncols() == 0 {
                        let k = choose|k: int|
                            0 <= k < self.cols@.len() && self.cols@[k].0@ == col_name@;
                        assert(false);
                    }
                    assert(ps@.len() == self.nrows());
                    assert(remapped(self@, t@, ps@));
                    assert forall|a: int| 0 < a < ps@.len() implies adj_ok(
                        order,
                        self@[col_name@][ps@[a - 1] as int],
                        self@[col_name@][(#[trigger] ps@[a]) as int],
                    ) by {
                        assert(adj_ok(order, cells[ps@[a - 1] as int], cells[ps@[a] as int]));
                    }
                    assert forall|x: int, y: int|
                        #![trigger ps@[x], ps@[y]]
                        0 <= x < y < ps@.len() && ps@[x] > ps@[y] implies cmp_test(
                        order,
                        self@[col_name@][ps@[x] as int],
                        self@[col_name@][ps@[y] as int],
                        core::cmp::Ordering::Less,
                    ) by {
                        assert(cmp_test(
                            order,
                            cells[ps@[x] as int],
                            cells[ps@[y] as int],
                            core::cmp::Ordering::Less,
                        ));
                    }
                }
                Ok(t)
            },
        }
    }
}

/// A caller-supplied aggregation or derivation strategy: a callable from a
/// list of raw cell texts to one output text, with its mathematical meaning.
pub trait CellsFn: Sized {
    /// What the callable computes, as a function of the cell texts alone.
    spec fn spec_apply(&self, vals: Seq<Seq<char>>) -> Seq<char>;

    /// Runs the strategy on one list of raw values.
    fn apply(&self, vals: &Vec<String>) -> (r: String)
        ensures
            r@ == self.spec_apply(vals.deep_view()),
    ;
}

/// Binds an aggregation strategy to the column it reads.
pub struct Op<F: CellsFn> {
    column_name: String,
    operation: F,
}

impl<F: CellsFn> Op<F> {
    /// The bound column's name.
    pub closed spec fn spec_name(&self) -> Seq<char> {
        self.column_name@
    }

    /// The bound strategy.
    pub closed spec fn spec_op(&self) -> F {
        self.operation
    }

    /// Binds `operation` to the column `column_name`.
    pub fn new(column_name: &str, operation: F) -> (op: Op<F>)
        ensures
            op.spec_name() == column_name@,
            op.spec_op() == operation,
    {
        Op { column_name: column_name.to_owned(), operation }
    }
}

/// Binds a derivation strategy to its ordered input columns and its output
/// column.
pub struct MiOp<F: CellsFn> {
    out_column: String,
    in_columns: Vec<String>,
    operation: F,
}

impl<F: CellsFn> MiOp<F> {
    /// The output column's name.
    pub closed spec fn spec_out(&self) -> Seq<char> {
        self.out_column@
    }

    /// The input columns' names, in order.
    pub closed spec fn spec_inputs(&self) -> Seq<Seq<char>> {
        self.in_columns.deep_view()
    }

    /// The bound strategy.
    pub closed spec fn spec_op(&self) -> F {
        self.operation
    }

    /// Binds `operation` to the inputs `input`, writing to `output`.
    pub fn new(input: &[&str], output: &str, operation: F) -> (op: MiOp<F>)
        ensures
            op.spec_out() == output@,
            op.spec_inputs().len() == input@.len(),
            forall|k: int|
                0 <= k < input@.len() ==> op.spec_inputs()[k] == (#[trigger] input@[k])@,
            op.spec_op() == operation,
    {
        let mut in_columns: Vec<String> = Vec::new();
        let mut k: usize = 0;
        while k < input.len()
            invariant
                k <= input@.len(),
                in_columns@.len() == k,
                forall|i: int| 0 <= i < k ==> (#[trigger] in_columns@[i])@ == input@[i]@,
            decreases input@.len() - k,
        {
            in_columns.push(input[k].to_owned());
            k += 1;
        }
        let op = MiOp { out_column: output.to_owned(), in_columns, operation };
        proof {
            assert forall|k2: int| 0 <= k2 < input@.len() implies op.spec_inputs()[k2] == (
            #[trigger] input@[k2])@ by {
                assert(op.spec_inputs()[k2] == op.in_columns@[k2]@);
            }
        }
        op
    }
}

impl Table {
    /// Replaces or appends one named column, leaving every other column
    /// shared.
    fn with_column(&self, name: &Value, col: Column) -> (t: Table)
        requires
            self.wf(),
            col.wf(),
            self.ncols() > 0 ==> col@.len() == self.nrows(),
        ensures
            t.wf(),
            t@ == self@.insert(name@, col@),
            t.nrows() == if self.ncols() > 0 {
                self.nrows()
            } else {
                col@.len()
            },
    {
        let mut cols: Vec<(Value, Column)> = Vec::new();
        let mut i: usize = 0;
        let mut placed = false;
        while i < self.cols.len()
            invariant
                self.wf(),
                col.wf(),
                self.ncols() > 0 ==> col@.len() == self.nrows(),
                i <= self.cols@.len(),
                placed == exists|k2: int|
                    0 <= k2 < i && (#[trigger] self.cols@[k2]).0@ == name@,
                cols@.len() == i,
                forall|k: int| 0 <= k < i ==> (#[trigger] cols@[k]).0@ == self.cols@[k].0@,
                forall|k: int|
                    0 <= k < i && (#[trigger] self.cols@[k]).0@ != name@ ==> cols@[k]
                        == self.cols@[k],
                forall|k: int|
                    0 <= k < i && (#[trigger] self.cols@[k]).0@ == name@ ==> cols@[k].1 == col,
            decreases self.cols@.len() - i,
        {
            if str_eq(self.cols[i].0.as_str(), name.as_str()) {
                cols.push((self.cols[i].0.duplicate(), col.duplicate()));
                placed = true;
                proof {
                    assert(self.cols@[i as int].0@ == name@);
                }
            } else {
                cols.push((self.cols[i].0.duplicate(), self.cols[i].1.duplicate()));
            }
            i += 1;
        }
        if !placed {
            cols.push((name.duplicate(), col));
            proof {
                assert(cols@.last().0@ == name@);
            }
        }
        proof {
            lemma_same_seq_distinct(self.cols@, cols@, name@, placed);
            lemma_cols_map(cols@);
        }
        let t = Table::from_cols(cols);
        proof {
            lemma_cols_map(self.cols@);
            lemma_cols_map(t.cols@);
            assert forall|n: Seq<char>|
                t@.contains_key(n) == self@.insert(name@, col@).contains_key(n) by {
                if t@.contains_key(n) {
                    let k = choose|k: int| 0 <= k < t.cols@.len() && t.cols@[k].0@ == n;
                    if k < self.cols@.len() {
                        assert(self@.contains_key(self.cols@[k].0@));
                    }
                }
                if self@.insert(name@, col@).contains_key(n) && n != name@ {
                    let k2 = choose|k2: int|
                        0 <= k2 < self.cols@.len() && self.cols@[k2].0@ == n;
                    assert(t.cols@[k2].0@ == n);
                    assert(t@.contains_key(t.cols@[k2].0@));
                }
                if n == name@ {
                    if placed {
                        let k2 = choose|k2: int|
                            0 <= k2 < self.cols@.len() && self.cols@[k2].0@ == name@;
                        assert(t.cols@[k2].0@ == n);
                        assert(t@.contains_key(t.cols@[k2].0@));
                    } else {
                        assert(t.cols@[t.cols@.len() - 1].0@ == n);
                        assert(t@.contains_key(t.cols@[t.cols@.len() - 1].0@));
                    }
                }
            }
            assert forall|n: Seq<char>| #[trigger] t@.contains_key(n) implies t@[n]
                == self@.insert(name@, col@)[n] by {
                let k = choose|k: int| 0 <= k < t.cols@.len() && t.cols@[k].0@ == n;
                assert(t@[t.cols@[k].0@] == t.cols@[k].1@);
                if n == name@ {
                    assert(t.cols@[k].1 == col || (!placed && k == t.cols@.len() - 1));
                } else {
                    assert(k < self.cols@.len());
                    assert(t.cols@[k] == self.cols@[k]);
                    assert(self@[self.cols@[k].0@] == self.cols@[k].1@);
                }
            }
            assert(t@ =~= self@.insert(name@, col@));
        }
        t
    }

    /// Appends `other`'s rows after `self`'s, column by column; fails with
    /// `ConcatenateColumnMismatch` on the first column of `self` that
    /// `other` lacks. Extra columns of `other` are dropped.
    pub fn concatenate(&self, other: &Table) -> (r: Result<Table, TableError>)
        requires
            self.wf(),
            other.wf(),
            self.nrows() + other.nrows() <= usize::MAX,
        ensures
            match r {
                Ok(t) => {
                    &&& t.wf()
                    &&& t@.dom() == self@.dom()
                    &&& forall|n: Seq<char>|
                        #[trigger] self@.contains_key(n) ==> other@.contains_key(n)
                    &&& forall|n: Seq<char>|
                        #[trigger] t@.contains_key(n) ==> t@[n] == self@[n] + other@[n]
                    &&& t.ncols() == self.ncols()
                    &&& self.ncols() > 0 ==> t.nrows() == self.nrows() + other.nrows()
                },
                Err(e) => e matches TableError::ConcatenateColumnMismatch(n)
                    && self@.contains_key(n@) && !other@.contains_key(n@),
            },
    {
        let mut cols: Vec<(Value, Column)> = Vec::new();
        let mut i: usize = 0;
        while i < self.cols.len()
            invariant
                self.wf(),
                other.wf(),
                self.nrows() + other.nrows() <= usize::MAX,
                i <= self.cols@.len(),
                cols@.len() == i,
                forall|k: int| 0 <= k < i ==> (#[trigger] cols@[k]).0 == self.cols@[k].0,
                forall|k: int|
                    0 <= k < i ==> other@.contains_key((#[trigger] self.cols@[k]).0@),
                forall|k: int| 0 <= k < i ==> (#[trigger] cols@[k]).1.wf(),
                forall|k: int|
                    0 <= k < i ==> (#[trigger] cols@[k]).1@ == self.cols@[k].1@ + other@[self.cols@[k].0@],
            decreases self.cols@.len() - i,
        {
            proof {
                lemma_cols_map(self.cols@);
                self.wf_facts();
                other.wf_facts();
            }
            let name = &self.cols[i].0;
            match other.find_col(name.as_str()) {
                None => {
                    return Err(TableError::ConcatenateColumnMismatch(name.duplicate()));
                },
                Some(oi) => {
                    let mut cells: Vec<Value> = Vec::new();
                    let own = &self.cols[i].1;
                    let theirs = &other.cols[oi].1;
                    let mut p: usize = 0;
                    while p < own.len()
                        invariant
                            self.wf(),
                            i < self.cols@.len(),
                            own == self.cols@[i as int].1,
                            p <= own@.len(),
                            cells@.len() == p,
                            forall|j: int|
                                0 <= j < p ==> (#[trigger] cells@[j])@ == own@[j],
                        decreases own@.len() - p,
                    {
                        cells.push(own.cell_at(p).duplicate());
                        p += 1;
                    }
                    let mut q: usize = 0;
                    while q < theirs.len()
                        invariant
                            self.wf(),
                            other.wf(),
                            i < self.cols@.len(),
                            oi < other.cols@.len(),
                            other.cols@[oi as int].0@ == self.cols@[i as int].0@,
                            own == self.cols@[i as int].1,
                            theirs == other.cols@[oi as int].1,
                            q <= theirs@.len(),
                            cells@.len() == own@.len() + q,
                            forall|j: int|
                                0 <= j < own@.len() ==> (#[trigger] cells@[j])@ == own@[j],
                            forall|j: int|
                                0 <= j < q ==> (#[trigger] cells@[own@.len() + j])@
                                    == theirs@[j],
                        decreases theirs@.len() - q,
                    {
                        cells.push(theirs.cell_at(q).duplicate());
                        q += 1;
                    }
                    let newcol = Column::new(cells);
                    proof {
                        other.wf_facts();
                        lemma_cols_map(other.cols@);
                        assert(other@[other.cols@[oi as int].0@] == other.cols@[oi as int].1@);
                        let target = self.cols@[i as int].1@ + other@[self.cols@[i as int].0@];
                        assert forall|j: int| 0 <= j < newcol@.len() implies newcol@[j]
                            == target[j] by {
                            assert(newcol@[j] == cells@[j]@);
                            if j >= own@.len() {
                                assert(cells@[own@.len() + (j - own@.len())]@ == theirs@[j
                                    - own@.len()]);
                            }
                        }
                        assert(newcol@ =~= target);
                    }
                    cols.push((name.duplicate(), newcol));
                },
            }
            i += 1;
        }
        proof {
            lemma_same_names(self.cols@, cols@);
            self.wf_facts();
            other.wf_facts();
            lemma_cols_map(self.cols@);
        }
        let t = Table::from_cols(cols);
        proof {
            lemma_cols_map(t.cols@);
            assert forall|n: Seq<char>| #[trigger] self@.contains_key(n) implies other@
                .contains_key(n) by {
                let k = choose|k: int| 0 <= k < self.cols@.len() && self.cols@[k].0@ == n;
            }
            assert forall|n: Seq<char>| #[trigger] t@.contains_key(n) implies t@[n] == self@[n]
                + other@[n] by {
                let k = choose|k: int| 0 <= k < t.cols@.len() && t.cols@[k].0@ == n;
                assert(t@[t.cols@[k].0@] == t.cols@[k].1@);
                assert(self@[self.cols@[k].0@] == self.cols@[k].1@);
            }
        }
        Ok(t)
    }

    /// Adds, or overwrites, a column holding `fixed_value` once per row;
    /// never fails.
    pub fn create_fixed_column(&self, col_name: &str, fixed_value: &str) -> (t: Table)
        requires
            self.wf(),
        ensures
            t.wf(),
            t@ == self@.insert(
                col_name@,
                Seq::new(self.nrows(), |i: int| fixed_value@),
            ),
            self.ncols() > 0 ==> t.nrows() == self.nrows(),
    {
        let value = Value::new(fixed_value.to_owned());
        let mut cells: Vec<Value> = Vec::new();
        let n = self.rows_count();
        let mut p: usize = 0;
        while p < n
            invariant
                p <= n,
                cells@.len() == p,
                value@ == fixed_value@,
                forall|j: int| 0 <= j < p ==> (#[trigger] cells@[j])@ == fixed_value@,
            decreases n - p,
        {
            cells.push(value.duplicate());
            p += 1;
        }
        let col = Column::new(cells);
        proof {
            assert forall|j: int| 0 <= j < col@.len() implies col@[j] == fixed_value@ by {
                assert(col@[j] == cells@[j]@);
            }
            assert(col@ =~= Seq::new(self.nrows(), |i: int| fixed_value@));
        }
        self.with_column(&Value::new(col_name.to_owned()), col)
    }

    /// Adds, or overwrites, a column computed row by row from the
    /// descriptor's input columns, in their given order. Fails with
    /// `MissingColumn` on the first absent input.
    pub fn create_column<F: CellsFn>(&self, expr: MiOp<F>) -> (r: Result<Table, TableError>)
        requires
            self.wf(),
        ensures
            match r {
                Ok(t) => {
                    &&& t.wf()
                    &&& forall|k: int|
                        0 <= k < expr.spec_inputs().len() ==> self@.contains_key(
                            #[trigger] expr.spec_inputs()[k],
                        )
                    &&& t@.dom() == self@.dom().insert(expr.spec_out())
                    &&& forall|n: Seq<char>|
                        #[trigger] t@.contains_key(n) && n != expr.spec_out() ==> t@[n]
                            == self@[n]
                    &&& t@[expr.spec_out()].len() == self.nrows()
                    &&& forall|j: int|
                        0 <= j < self.nrows() ==> #[trigger] t@[expr.spec_out()][j]
                            == expr.spec_op().spec_apply(
                            Seq::new(
                                expr.spec_inputs().len(),
                                |k: int| self@[expr.spec_inputs()[k]][j],
                            ),
                        )
                },
                Err(e) => e matches TableError::MissingColumn(m) && !self@.contains_key(m@)
                    && exists|k: int|
                    0 <= k < expr.spec_inputs().len() && #[trigger] expr.spec_inputs()[k] == m@,
            },
    {
        let mut input_cols: Vec<Column> = Vec::new();
        let mut k: usize = 0;
        let m = expr.in_columns.len();
        while k < m
            invariant
                self.wf(),
                m == expr.spec_inputs().len(),
                expr.spec_inputs() == expr.in_columns.deep_view(),
                k <= m,
                input_cols@.len() == k,
                forall|k2: int|
                    0 <= k2 < k ==> self@.contains_key(#[trigger] expr.spec_inputs()[k2]),
                forall|k2: int|
                    0 <= k2 < k ==> (#[trigger] input_cols@[k2])@ == self@[expr.spec_inputs()[k2]],
            decreases m - k,
        {
            proof {
                assert(expr.in_columns@[k as int]@ == expr.spec_inputs()[k as int]);
            }
            match self.column(expr.in_columns[k].as_str()) {
                Err(e) => {
                    return Err(e);
                },
                Ok(c) => {
                    input_cols.push(c);
                },
            }
            k += 1;
        }
        proof {
            self.wf_facts();
        }
        let n = self.rows_count();
        let mut cells: Vec<Value> = Vec::new();
        let mut j: usize = 0;
        while j < n
            invariant
                self.wf(),
                m == expr.spec_inputs().len(),
                n == self.nrows(),
                input_cols@.len() == m,
                forall|k2: int|
                    0 <= k2 < m ==> self@.contains_key(#[trigger] expr.spec_inputs()[k2]),
                forall|k2: int|
                    0 <= k2 < m ==> (#[trigger] input_cols@[k2])@ == self@[expr.spec_inputs()[k2]],
                forall|k2: int|
                    0 <= k2 < m ==> (#[trigger] input_cols@[k2])@.len() == self.nrows(),
                j <= n,
                cells@.len() == j,
                forall|j2: int|
                    0 <= j2 < j ==> (#[trigger] cells@[j2])@ == expr.spec_op().spec_apply(
                        Seq::new(m as nat, |k2: int| self@[expr.spec_inputs()[k2]][j2]),
                    ),
            decreases n - j,
        {
            let mut args: Vec<String> = Vec::new();
            let mut k2: usize = 0;
            while k2 < input_cols.len()
                invariant
                    m == expr.spec_inputs().len(),
                    input_cols@.len() == m,
                    j < n,
                    n == self.nrows(),
                    forall|k3: int|
                        0 <= k3 < m ==> (#[trigger] input_cols@[k3])@ == self@[expr.spec_inputs()[k3]],
                    forall|k3: int|
                        0 <= k3 < m ==> (#[trigger] input_cols@[k3])@.len() == self.nrows(),
                    k2 <= m,
                    args@.len() == k2,
                    forall|k3: int|
                        0 <= k3 < k2 ==> (#[trigger] args@[k3])@ == self@[expr.spec_inputs()[k3]][j as int],
                decreases input_cols@.len() - k2,
            {
                args.push(input_cols[k2].cell_at(j).as_str().to_owned());
                k2 += 1;
            }
            let out = expr.operation.apply(&args);
            proof {
                assert(args.deep_view() =~= Seq::new(
                    m as nat,
                    |k3: int| self@[expr.spec_inputs()[k3]][j as int],
                ));
            }
            cells.push(Value::new(out));
            j += 1;
        }
        let col = Column::new(cells);
        proof {
            assert forall|j2: int| 0 <= j2 < self.nrows() implies #[trigger] col@[j2]
                == expr.spec_op().spec_apply(
                Seq::new(m as nat, |k3: int| self@[expr.spec_inputs()[k3]][j2]),
            ) by {
                assert(col@[j2] == cells@[j2]@);
            }
        }
        let t = self.with_column(&Value::new(expr.out_column.as_str().to_owned()), col);
        proof {
            assert(t@.dom() =~= self@.dom().insert(expr.spec_out()));
        }
        Ok(t)
    }

    /// Adds, or overwrites, a column whose row `i` is `col_1[i]`, the
    /// separator, then `col_2[i]`. Fails with `MissingColumn` on the first
    /// absent input.
    pub fn concatenate_columns(&self, col_1: &str, separator: char, col_2: &str, new_col: &str)
        -> (r: Result<Table, TableError>)
        requires
            self.wf(),
        ensures
            match r {
                Ok(t) => {
                    &&& t.wf()
                    &&& self@.contains_key(col_1@)
                    &&& self@.contains_key(col_2@)
                    &&& t@.dom() == self@.dom().insert(new_col@)
                    &&& forall|n: Seq<char>|
                        #[trigger] t@.contains_key(n) && n != new_col@ ==> t@[n] == self@[n]
                    &&& t@[new_col@].len() == self.nrows()
                    &&& forall|j: int|
                        0 <= j < self.nrows() ==> #[trigger] t@[new_col@][j] == self@[col_1@][j]
                            + seq![separator] + self@[col_2@][j]
                },
                Err(e) => e matches TableError::MissingColumn(m) && !self@.contains_key(m@) && (
                m@ == col_1@ || m@ == col_2@),
            },
    {
        let a = match self.column(col_1) {
            Ok(c) => c,
            Err(e) => {
                return Err(e);
            },
        };
        let b = match self.column(col_2) {
            Ok(c) => c,
            Err(e) => {
                return Err(e);
            },
        };
        proof {
            self.wf_facts();
        }
        let n = self.rows_count();
        let mut cells: Vec<Value> = Vec::new();
        let mut j: usize = 0;
        while j < n
            invariant
                self.wf(),
                a@ == self@[col_1@],
                b@ == self@[col_2@],
                a@.len() == self.nrows(),
                b@.len() == self.nrows(),
                n == self.nrows(),
                j <= n,
                cells@.len() == j,
                forall|j2: int|
                    0 <= j2 < j ==> (#[trigger] cells@[j2])@ == self@[col_1@][j2] + seq![separator]
                        + self@[col_2@][j2],
            decreases n - j,
        {
            let mut chars = str_to_chars(a.cell_at(j).as_str());
            chars.push(separator);
            let more = str_to_chars(b.cell_at(j).as_str());
            let mut q: usize = 0;
            while q < more.len()
                invariant
                    q <= more@.len(),
                    chars@ == a@[j as int] + seq![separator] + more@.take(q as int),
                    j < a@.len(),
                decreases more@.len() - q,
            {
                chars.push(more[q]);
                proof {
                    assert(chars@ =~= a@[j as int] + seq![separator] + more@.take(q + 1));
                }
                q += 1;
            }
            proof {
                assert(chars@ =~= a@[j as int] + seq![separator] + more@);
            }
            cells.push(Value::new(chars_to_string(&chars)));
            proof {
                assert(chars@ == a@[j as int] + seq![separator] + more@);
            }
            j += 1;
        }
        let col = Column::new(cells);
        proof {
            assert forall|j2: int| 0 <= j2 < self.nrows() implies #[trigger] col@[j2] == self@[col_1@][j2] + seq![separator]
                + self@[col_2@][j2] by {
                assert(col@[j2] == cells@[j2]@);
            }
        }
        let t = self.with_column(&Value::new(new_col.to_owned()), col);
        proof {
            assert(t@.dom() =~= self@.dom().insert(new_col@));
        }
        Ok(t)
    }
}

/// After a replace-or-append pass the names are the old ones, plus the new
/// one when it was appended; distinctness carries over.
proof fn lemma_same_seq_distinct(
    a: Seq<(Value, Column)>,
    b: Seq<(Value, Column)>,
    name: Seq<char>,
    placed: bool,
)
    requires
        distinct_names(a),
        placed ==> b.len() == a.len(),
        !placed ==> b.len() == a.len() + 1 && b[a.len() as int].0@ == name,
        forall|k: int| 0 <= k < a.len() ==> (#[trigger] b[k]).0@ == a[k].0@,
        !placed ==> forall|k: int| 0 <= k < a.len() ==> (#[trigger] a[k]).0@ != name,
    ensures
        distinct_names(b),
{
    assert forall|i: int, j: int| 0 <= i < j < b.len() implies b[i].0@ != b[j].0@ by {
        if j < a.len() {
            assert(a[i].0@ != a[j].0@);
        } else {
            assert(a[i].0@ != name);
        }
    }
}

/// Entry `e` carries the name of one of the first `bound` columns of
/// `src`.
pub open spec fn named_from_prefix(
    src: Seq<(Value, Column)>,
    e: (Value, Column),
    bound: int,
) -> bool {
    exists|j2: int| 0 <= j2 < bound && e.0@ == src[j2].0@
}

/// A wider prefix keeps every `named_from_prefix` fact.
proof fn lemma_named_from_widen(
    src: Seq<(Value, Column)>,
    e: (Value, Column),
    bound: int,
    wider: int,
)
    requires
        named_from_prefix(src, e, bound),
        bound <= wider,
    ensures
        named_from_prefix(src, e, wider),
{
    let j2 = choose|j2: int| 0 <= j2 < bound && e.0@ == src[j2].0@;
    assert(0 <= j2 < wider && e.0@ == src[j2].0@);
}

/// Output row `i` pairs row `p` of the first side with row `q` of the
/// second.
pub open spec fn pair_at(psa: Seq<usize>, psb: Seq<usize>, p: int, q: int) -> bool {
    exists|i: int| 0 <= i < psa.len() && psa[i] == p && psb[i] == q
}

/// The two position lists enumerate, without repetition, exactly the pairs
/// of rows whose key cells agree: the full cross product within each
/// matching key group.
pub open spec fn join_pairs(
    akey: Seq<Seq<char>>,
    bkey: Seq<Seq<char>>,
    psa: Seq<usize>,
    psb: Seq<usize>,
) -> bool {
    &&& psa.len() == psb.len()
    &&& forall|i: int|
        0 <= i < psa.len() ==> (#[trigger] psa[i]) < akey.len() && psb[i] < bkey.len()
            && akey[psa[i] as int] == bkey[psb[i] as int]
    &&& forall|i: int, j: int|
        #![trigger psa[i], psa[j]]
        0 <= i < j < psa.len() ==> !(psa[i] == psa[j] && psb[i] == psb[j])
    &&& forall|p: int, q: int|
        #![trigger akey[p], bkey[q]]
        0 <= p < akey.len() && 0 <= q < bkey.len() && akey[p] == bkey[q] ==> pair_at(
            psa,
            psb,
            p,
            q,
        )
}

/// The number of matching row pairs: for each probing-side row, the count
/// of indexed-side rows holding its key. Grouping the probing rows by key
/// value, this is exactly the sum, over every key value present on both
/// sides, of (count on one side) times (count on the other); a value on
/// one side only contributes nothing.
pub open spec fn match_total(akey: Seq<Seq<char>>, bkey: Seq<Seq<char>>) -> nat
    decreases bkey.len(),
{
    if bkey.len() == 0 {
        0
    } else {
        match_total(akey, bkey.drop_last()) + count_eq(akey, bkey.last())
    }
}

/// The join output: the union of both sides' columns, rows taken through
/// the pair lists; on a shared name the second (probing) side's column
/// wins.
pub open spec fn join_rows(
    a: TableMap,
    b: TableMap,
    psa: Seq<usize>,
    psb: Seq<usize>,
    t: TableMap,
) -> bool {
    &&& t.dom() == a.dom().union(b.dom())
    &&& forall|n: Seq<char>| #[trigger] t.contains_key(n) ==> t[n].len() == psa.len()
    &&& forall|n: Seq<char>, j: int|
        b.contains_key(n) && 0 <= j < psb.len() ==> #[trigger] t[n][j] == b[n][psb[j] as int]
    &&& forall|n: Seq<char>, j: int|
        a.contains_key(n) && !b.contains_key(n) && 0 <= j < psa.len() ==> #[trigger] t[n][j]
            == a[n][psa[j] as int]
}

/// The join strategy: index the first side when it already has an index,
/// or when neither side has one and the first side is no larger.
pub open spec fn join_self_indexed(a_has: bool, b_has: bool, an: nat, bn: nat) -> bool {
    a_has || (!b_has && an <= bn)
}

impl Table {
    /// Joins with `a` as the indexed side and `b` as the probing side.
    fn join_indexed(a: &Table, a_fi: usize, b: &Table, b_fi: usize) -> (t: Table)
        requires
            a.wf(),
            b.wf(),
            a_fi < a.cols@.len(),
            b_fi < b.cols@.len(),
        ensures
            t.wf(),
            exists|psa: Seq<usize>, psb: Seq<usize>|
                #[trigger] join_pairs(a.cols@[a_fi as int].1@, b.cols@[b_fi as int].1@, psa, psb)
                    && join_rows(a@, b@, psa, psb, t@) && t.nrows() == psa.len(),
            t.nrows() == match_total(a.cols@[a_fi as int].1@, b.cols@[b_fi as int].1@),
    {
        let ghost akey = a.cols@[a_fi as int].1@;
        let ghost bkey = b.cols@[b_fi as int].1@;
        let ix = a.cols[a_fi].1.get_index();
        let bcol = &b.cols[b_fi].1;
        let mut psa: Vec<usize> = Vec::new();
        let mut psb: Vec<usize> = Vec::new();
        let mut q: usize = 0;
        let n = bcol.len();
        while q < n
            invariant
                a.wf(),
                b.wf(),
                a_fi < a.cols@.len(),
                b_fi < b.cols@.len(),
                akey == a.cols@[a_fi as int].1@,
                bkey == b.cols@[b_fi as int].1@,
                bcol == b.cols@[b_fi as int].1,
                is_index_for(ix@, akey),
                n == bkey.len(),
                q <= n,
                psa@.len() == psb@.len(),
                psa@.len() == match_total(akey, bkey.take(q as int)),
                forall|i: int|
                    0 <= i < psa@.len() ==> (#[trigger] psa@[i]) < akey.len() && psb@[i] < q
                        && akey[psa@[i] as int] == bkey[psb@[i] as int],
                forall|i: int, j: int|
                    #![trigger psa@[i], psa@[j]]
                    0 <= i < j < psa@.len() ==> !(psa@[i] == psa@[j] && psb@[i] == psb@[j]),
                forall|p: int, q0: int|
                    #![trigger akey[p], bkey[q0]]
                    0 <= p < akey.len() && 0 <= q0 < q && akey[p] == bkey[q0] ==> pair_at(
                        psa@,
                        psb@,
                        p,
                        q0,
                    ),
            decreases n - q,
        {
            let cell = bcol.cell_at(q);
            let ghost pre_a = psa@;
            let ghost pre_b = psb@;
            match ix.lookup(cell) {
                Some(eps) => {
                    let ghost jx = choose|jx: int|
                        0 <= jx < ix@.len() && ix@[jx].0 == cell@ && ix@[jx].1 == eps@;
                    proof {
                        assert(is_positions_for(ix@[jx].1, akey, ix@[jx].0));
                    }
                    let ghost s = psa@.len();
                    proof {
                        assert forall|i: int| 0 <= i < s implies (#[trigger] psb@[i]) < q by {
                            assert(psa@[i] < akey.len());
                        }
                    }
                    let mut k: usize = 0;
                    while k < eps.len()
                        invariant
                            is_positions_for(eps@, akey, cell@),
                            q < bkey.len(),
                            cell@ == bkey[q as int],
                            k <= eps@.len(),
                            psa@.len() == psb@.len(),
                            psa@.len() == s + k,
                            s == pre_a.len(),
                            psa@ == pre_a + eps@.take(k as int),
                            forall|i: int| 0 <= i < s ==> psa@[i] == pre_a[i] && psb@[i]
                                == pre_b[i],
                            forall|i: int| 0 <= i < s ==> (#[trigger] psb@[i]) < q,
                            forall|i: int|
                                s <= i < psa@.len() ==> (#[trigger] psa@[i]) == eps@[i - s]
                                    && psb@[i] == q,
                            forall|i: int|
                                0 <= i < psa@.len() ==> (#[trigger] psa@[i]) < akey.len()
                                    && psb@[i] < q + 1 && akey[psa@[i] as int] == bkey[psb@[i] as int],
                            forall|i: int, j: int|
                                #![trigger psa@[i], psa@[j]]
                                0 <= i < j < psa@.len() ==> !(psa@[i] == psa@[j] && psb@[i]
                                    == psb@[j]),
                        decreases eps@.len() - k,
                    {
                        let ghost ia = psa@;
                        let ghost ib = psb@;
                        psa.push(eps[k]);
                        psb.push(q);
                        proof {
                            assert(psa@ =~= pre_a + eps@.take(k + 1));
                            assert(psa@[s + k] == eps@[k as int]);
                            assert(psb@[s + k] == q);
                            assert forall|i: int| 0 <= i < ia.len() implies psa@[i] == ia[i]
                                && psb@[i] == ib[i] by {
                                assert(psa@[i] == ia.push(eps@[k as int])[i]);
                                assert(psb@[i] == ib.push(q as usize)[i]);
                            }
                            assert forall|i: int|
                                s <= i < psa@.len() implies (#[trigger] psa@[i]) == eps@[i - s]
                                && psb@[i] == q by {
                                if i < ia.len() {
                                    assert(psa@[i] == ia[i] && psb@[i] == ib[i]);
                                    assert(ia[i] == eps@[i - s]);
                                }
                            }
                            assert forall|i: int|
                                0 <= i < psa@.len() implies (#[trigger] psa@[i]) < akey.len()
                                && psb@[i] < q + 1 && akey[psa@[i] as int] == bkey[psb@[i] as int] by {
                                if i < ia.len() {
                                    assert(psa@[i] == ia[i] && psb@[i] == ib[i]);
                                } else {
                                    assert(psa@[i] == eps@[k as int]);
                                    assert(akey[eps@[k as int] as int] == cell@);
                                }
                            }
                            assert forall|i: int, j: int|
                                #![trigger psa@[i], psa@[j]]
                                0 <= i < j < psa@.len() implies !(psa@[i] == psa@[j] && psb@[i]
                                == psb@[j]) by {
                                if j == psa@.len() - 1 {
                                    if i >= s {
                                        assert(psa@[i] == eps@[i - s]);
                                        assert(psa@[j] == eps@[j - s]);
                                    } else {
                                        assert(psb@[i] < q + 1 && psb@[i] != q);
                                    }
                                }
                            }
                        }
                        k += 1;
                    }
                    proof {
                        assert forall|p: int, q0: int|
                            #![trigger akey[p], bkey[q0]]
                            0 <= p < akey.len() && 0 <= q0 < q + 1 && akey[p] == bkey[q0]
                            implies pair_at(psa@, psb@, p, q0) by {
                            if q0 < q {
                                assert(pair_at(pre_a, pre_b, p, q0));
                                let i = choose|i: int|
                                    0 <= i < pre_a.len() && pre_a[i] == p && pre_b[i] == q0;
                                assert(psa@[i] == p && psb@[i] == q0);
                                assert(pair_at(psa@, psb@, p, q0));
                            } else {
                                assert(akey[p] == cell@);
                                assert(contains_pos(eps@, p));
                                let k0 = choose|k0: int|
                                    0 <= k0 < eps@.len() && eps@[k0] == p;
                                assert(psa@[s + k0] == eps@[k0]);
                                assert(psb@[s + k0] == q);
                                assert(pair_at(psa@, psb@, p, q0));
                            }
                        }
                        lemma_positions_count(eps@, akey, cell@);
                        assert(psa@.len() == match_total(akey, bkey.take(q + 1))) by {
                            assert(bkey.take(q + 1).drop_last() =~= bkey.take(q as int));
                            assert(bkey.take(q + 1).last() == bkey[q as int]);
                        }
                    }
                },
                None => {
                    proof {
                        assert forall|p: int, q0: int|
                            #![trigger akey[p], bkey[q0]]
                            0 <= p < akey.len() && 0 <= q0 < q + 1 && akey[p] == bkey[q0]
                            implies pair_at(psa@, psb@, p, q0) by {
                            if q0 < q {
                                assert(pair_at(pre_a, pre_b, p, q0));
                            } else {
                                assert(has_key(ix@, akey[p]));
                                let jx = choose|jx: int|
                                    0 <= jx < ix@.len() && ix@[jx].0 == akey[p];
                                assert(ix@[jx].0 != cell@);
                                assert(false);
                            }
                        }
                        lemma_index_keys(ix@, akey);
                        assert(count_eq(akey, bkey[q as int]) == 0) by {
                            if akey.contains(bkey[q as int]) {
                                assert(has_key(ix@, bkey[q as int]));
                                let jx = choose|jx: int|
                                    0 <= jx < ix@.len() && ix@[jx].0 == bkey[q as int];
                                assert(ix@[jx].0 != cell@);
                                assert(false);
                            }
                            lemma_count_absent(akey, bkey[q as int]);
                        }
                        assert(psa@.len() == match_total(akey, bkey.take(q + 1))) by {
                            assert(bkey.take(q + 1).drop_last() =~= bkey.take(q as int));
                            assert(bkey.take(q + 1).last() == bkey[q as int]);
                        }
                    }
                },
            }
            q += 1;
        }
        proof {
            assert(bkey.take(bkey.len() as int) =~= bkey);
            assert(psa@.len() == match_total(akey, bkey));
            assert(a.cols@[a_fi as int].1@.len() == a.nrows());
            assert(b.cols@[b_fi as int].1@.len() == b.nrows());
            assert forall|i: int| 0 <= i < psb@.len() implies (#[trigger] psb@[i])
                < b.nrows() by {
                assert(psa@[i] < akey.len());
            }
            assert forall|i: int| 0 <= i < psa@.len() implies (#[trigger] psa@[i])
                < a.nrows() by {
                assert(psa@[i] < akey.len());
            }
        }
        let ta = a.remap(&psa);
        let tb = b.remap(&psb);
        proof {
            lemma_cols_map(a.cols@);
            lemma_cols_map(b.cols@);
        }
        let t = Table::merge_over(&ta, &tb);
        proof {
            assert(join_pairs(akey, bkey, psa@, psb@));
            assert(join_rows(a@, b@, psa@, psb@, t@)) by {
                assert(remapped(a@, ta@, psa@));
                assert(remapped(b@, tb@, psb@));
                assert(t@.dom() =~= a@.dom().union(b@.dom()));
            }
        }
        t
    }

    /// All columns of `base` and `over` together; on a shared name `over`'s
    /// column wins. Both must have equal row counts.
    fn merge_over(base: &Table, over: &Table) -> (t: Table)
        requires
            base.wf(),
            over.wf(),
            base.nrows() == over.nrows(),
        ensures
            t.wf(),
            t@.dom() == base@.dom().union(over@.dom()),
            forall|n: Seq<char>| #[trigger] over@.contains_key(n) ==> t@[n] == over@[n],
            forall|n: Seq<char>|
                #[trigger] base@.contains_key(n) && !over@.contains_key(n) ==> t@[n] == base@[n],
            t.ncols() > 0 ==> t.nrows() == base.nrows() || t.nrows() == over.nrows(),
            t.nrows() == base.nrows() || t.nrows() == over.nrows(),
    {
        let mut cols: Vec<(Value, Column)> = Vec::new();
        let mut i: usize = 0;
        while i < base.cols.len()
            invariant
                base.wf(),
                over.wf(),
                base.nrows() == over.nrows(),
                i <= base.cols@.len(),
                cols@.len() == i,
                forall|k: int| 0 <= k < i ==> (#[trigger] cols@[k]).0@ == base.cols@[k].0@,
                forall|k: int|
                    0 <= k < i ==> (#[trigger] cols@[k]).1.wf() && cols@[k].1@.len()
                        == base.nrows(),
                forall|k: int|
                    0 <= k < i && over@.contains_key((#[trigger] base.cols@[k]).0@)
                        ==> cols@[k].1@ == over@[base.cols@[k].0@],
                forall|k: int|
                    0 <= k < i && !over@.contains_key((#[trigger] base.cols@[k]).0@)
                        ==> cols@[k].1@ == base.cols@[k].1@,
            decreases base.cols@.len() - i,
        {
            let name = &base.cols[i].0;
            match over.find_col(name.as_str()) {
                Some(oi) => {
                    proof {
                        lemma_cols_map(over.cols@);
                        over.wf_facts();
                    }
                    cols.push((name.duplicate(), over.cols[oi].1.duplicate()));
                },
                None => {
                    cols.push((name.duplicate(), base.cols[i].1.duplicate()));
                },
            }
            i += 1;
        }
        let mut j: usize = 0;
        while j < over.cols.len()
            invariant
                base.wf(),
                over.wf(),
                base.nrows() == over.nrows(),
                j <= over.cols@.len(),
                cols@.len() >= base.cols@.len(),
                forall|k: int|
                    0 <= k < base.cols@.len() ==> (#[trigger] cols@[k]).0@ == base.cols@[k].0@,
                forall|k: int|
                    0 <= k < cols@.len() ==> (#[trigger] cols@[k]).1.wf() && cols@[k].1@.len()
                        == base.nrows(),
                forall|k: int|
                    0 <= k < base.cols@.len() && over@.contains_key(
                        (#[trigger] base.cols@[k]).0@,
                    ) ==> cols@[k].1@ == over@[base.cols@[k].0@],
                forall|k: int|
                    0 <= k < base.cols@.len() && !over@.contains_key(
                        (#[trigger] base.cols@[k]).0@,
                    ) ==> cols@[k].1@ == base.cols@[k].1@,
                forall|k: int|
                    base.cols@.len() <= k < cols@.len() ==> !base@.contains_key(
                        (#[trigger] cols@[k]).0@,
                    ) && over@.contains_key(cols@[k].0@) && cols@[k].1@ == over@[cols@[k].0@],
                forall|k2: int|
                    0 <= k2 < j && !base@.contains_key((#[trigger] over.cols@[k2]).0@)
                        ==> seq_has_name(cols@, over.cols@[k2].0@),
                forall|k: int|
                    base.cols@.len() <= k < cols@.len() ==> named_from_prefix(
                        over.cols@,
                        #[trigger] cols@[k],
                        j as int,
                    ),
                distinct_names(cols@),
            decreases over.cols@.len() - j,
        {
            let name = &over.cols[j].0;
            let ghost pre = cols@;
            match base.find_col(name.as_str()) {
                Some(_) => {
                    proof {
                        lemma_cols_map(base.cols@);
                        let k2 = choose|k2: int|
                            0 <= k2 < base.cols@.len() && base.cols@[k2].0@ == name@;
                        assert(seq_has_name(cols@, name@)) by {
                            assert(cols@[k2].0@ == name@);
                        }
                        assert forall|k: int|
                            base.cols@.len() <= k < cols@.len() implies named_from_prefix(
                            over.cols@,
                            #[trigger] cols@[k],
                            j + 1,
                        ) by {
                            lemma_named_from_widen(over.cols@, cols@[k], j as int, j + 1);
                        }
                    }
                },
                None => {
                    proof {
                        lemma_cols_map(over.cols@);
                        over.wf_facts();
                        assert(over@.contains_key(over.cols@[j as int].0@));
                        assert(over@[over.cols@[j as int].0@] == over.cols@[j as int].1@);
                    }
                    cols.push((name.duplicate(), over.cols[j].1.duplicate()));
                    proof {
                        lemma_push_keeps_names(pre, cols@.last());
                        assert(cols@ == pre.push(cols@.last()));
                        assert(cols@.last().0@ == over.cols@[j as int].0@);
                        assert forall|k: int|
                            base.cols@.len() <= k < cols@.len() implies named_from_prefix(
                            over.cols@,
                            #[trigger] cols@[k],
                            j + 1,
                        ) by {
                            if k < pre.len() {
                                assert(cols@[k] == pre[k]);
                                lemma_named_from_widen(over.cols@, pre[k], j as int, j + 1);
                            } else {
                                assert(cols@[k].0@ == over.cols@[j as int].0@);
                                assert(named_from_prefix(over.cols@, cols@[k], j + 1));
                            }
                        }
                        assert forall|a2: int, b2: int|
                            0 <= a2 < b2 < cols@.len() implies cols@[a2].0@ != cols@[b2].0@ by {
                            if b2 == cols@.len() - 1 {
                                if a2 < base.cols@.len() {
                                    assert(cols@[a2] == pre[a2]);
                                    assert(pre[a2].0@ == base.cols@[a2].0@);
                                    assert(base@.contains_key(base.cols@[a2].0@)) by {
                                        lemma_cols_map(base.cols@);
                                    }
                                } else {
                                    assert(cols@[a2] == pre[a2]);
                                    assert(named_from_prefix(over.cols@, pre[a2], j as int));
                                    if cols@[a2].0@ == name@ {
                                        let x2 = choose|x2: int|
                                            0 <= x2 < j && pre[a2].0@ == over.cols@[x2].0@;
                                        assert(over.cols@[x2].0@ == over.cols@[j as int].0@);
                                        assert(false);
                                    }
                                }
                            } else {
                                assert(pre[a2].0@ != pre[b2].0@);
                            }
                        }
                    }
                },
            }
            j += 1;
        }
        proof {
            lemma_cols_map(cols@);
            lemma_cols_map(base.cols@);
            lemma_cols_map(over.cols@);
            base.wf_facts();
            over.wf_facts();
        }
        let t = Table::from_cols(cols);
        proof {
            lemma_cols_map(t.cols@);
            assert forall|n: Seq<char>|
                t@.contains_key(n) == base@.dom().union(over@.dom()).contains(n) by {
                if t@.contains_key(n) {
                    let k = choose|k: int| 0 <= k < t.cols@.len() && t.cols@[k].0@ == n;
                    if k < base.cols@.len() {
                        assert(base@.contains_key(base.cols@[k].0@));
                    } else {
                        assert(over@.contains_key(t.cols@[k].0@));
                    }
                }
                if base@.contains_key(n) {
                    let k2 = choose|k2: int|
                        0 <= k2 < base.cols@.len() && base.cols@[k2].0@ == n;
                    assert(t.cols@[k2].0@ == n);
                    assert(t@.contains_key(t.cols@[k2].0@));
                }
                if over@.contains_key(n) && !base@.contains_key(n) {
                    let k2 = choose|k2: int|
                        0 <= k2 < over.cols@.len() && over.cols@[k2].0@ == n;
                    assert(seq_has_name(t.cols@, n));
                    let k = choose|k: int| 0 <= k < t.cols@.len() && t.cols@[k].0@ == n;
                    assert(t@.contains_key(t.cols@[k].0@));
                }
            }
            assert(t@.dom() =~= base@.dom().union(over@.dom()));
            assert forall|n: Seq<char>| #[trigger] over@.contains_key(n) implies t@[n]
                == over@[n] by {
                let k = choose|k: int| 0 <= k < t.cols@.len() && t.cols@[k].0@ == n;
                assert(t@[t.cols@[k].0@] == t.cols@[k].1@);
                if k < base.cols@.len() {
                    assert(over@.contains_key(base.cols@[k].0@));
                }
            }
            assert forall|n: Seq<char>|
                #[trigger] base@.contains_key(n) && !over@.contains_key(n) implies t@[n]
                == base@[n] by {
                let k = choose|k: int| 0 <= k < t.cols@.len() && t.cols@[k].0@ == n;
                assert(t@[t.cols@[k].0@] == t.cols@[k].1@);
                assert(k < base.cols@.len());
                assert(base@[base.cols@[k].0@] == base.cols@[k].1@);
            }
            if t.cols@.len() > 0 {
            }
        }
        t
    }

    /// Inner equality join on the two key columns. The strategy prefers a
    /// side whose key column already carries an index, falling back to the
    /// smaller side; with the pre-built index the first arm always holds.
    /// Within each matching key the full cross product of row pairs is
    /// emitted; on a column-name collision the probing side's column wins.
    /// Fails with `MissingColumn` for either absent key.
    pub fn join_on_columns(&self, col_name_self: &str, other: &Table, col_name_other: &str) -> (r:
        Result<Table, TableError>)
        requires
            self.wf(),
            other.wf(),
        ensures
            match r {
                Ok(t) => {
                    &&& t.wf()
                    &&& self@.contains_key(col_name_self@)
                    &&& other@.contains_key(col_name_other@)
                    &&& (join_self_indexed(
                        self.col_has_index(col_name_self@),
                        other.col_has_index(col_name_other@),
                        self.nrows(),
                        other.nrows(),
                    ) ==> exists|psa: Seq<usize>, psb: Seq<usize>|
                        #[trigger] join_pairs(
                            self@[col_name_self@],
                            other@[col_name_other@],
                            psa,
                            psb,
                        ) && join_rows(self@, other@, psa, psb, t@) && t.nrows() == psa.len())
                    &&& (join_self_indexed(
                        self.col_has_index(col_name_self@),
                        other.col_has_index(col_name_other@),
                        self.nrows(),
                        other.nrows(),
                    ) ==> t.nrows() == match_total(
                        self@[col_name_self@],
                        other@[col_name_other@],
                    ))
                    &&& (!join_self_indexed(
                        self.col_has_index(col_name_self@),
                        other.col_has_index(col_name_other@),
                        self.nrows(),
                        other.nrows(),
                    ) ==> exists|psa: Seq<usize>, psb: Seq<usize>|
                        #[trigger] join_pairs(
                            other@[col_name_other@],
                            self@[col_name_self@],
                            psa,
                            psb,
                        ) && join_rows(other@, self@, psa, psb, t@) && t.nrows() == psa.len())
                    &&& (!join_self_indexed(
                        self.col_has_index(col_name_self@),
                        other.col_has_index(col_name_other@),
                        self.nrows(),
                        other.nrows(),
                    ) ==> t.nrows() == match_total(
                        other@[col_name_other@],
                        self@[col_name_self@],
                    ))
                },
                Err(e) => e matches TableError::MissingColumn(n) && ((n@ == col_name_self@
                    && !self@.contains_key(col_name_self@)) || (n@ == col_name_other@ && !other@
                    .contains_key(col_name_other@) && self@.contains_key(col_name_self@))),
            },
    {
        match self.find_col(col_name_self) {
            None => Err(TableError::MissingColumn(Value::new(col_name_self.to_owned()))),
            Some(fi) => {
                match other.find_col(col_name_other) {
                    None => Err(
                        TableError::MissingColumn(Value::new(col_name_other.to_owned())),
                    ),
                    Some(oi) => {
                        proof {
                            lemma_cols_map(self.cols@);
                            lemma_cols_map(other.cols@);
                            self.wf_facts();
                            other.wf_facts();
                            assert(self.cols@[fi as int].1.has_index_spec()
                                ==> self.col_has_index(col_name_self@));
                            if self.col_has_index(col_name_self@) {
                                let k = choose|k: int|
                                    0 <= k < self.cols@.len() && self.cols@[k].0@
                                        == col_name_self@ && self.cols@[k].1.has_index_spec();
                                assert(k == fi);
                            }
                            assert(other.cols@[oi as int].1.has_index_spec()
                                ==> other.col_has_index(col_name_other@));
                            if other.col_has_index(col_name_other@) {
                                let k = choose|k: int|
                                    0 <= k < other.cols@.len() && other.cols@[k].0@
                                        == col_name_other@ && other.cols@[k].1.has_index_spec();
                                assert(k == oi);
                            }
                        }
                        let cond = self.cols[fi].1.has_index() || (!other.cols[oi].1.has_index()
                            && self.cols[fi].1.len() <= other.cols[oi].1.len());
                        if cond {
                            Ok(Table::join_indexed(self, fi, other, oi))
                        } else {
                            Ok(Table::join_indexed(other, oi, self, fi))
                        }
                    },
                }
            },
        }
    }
}

/// The output cells `out` are, group by group, the last descriptor bound
/// to `name` applied to the column's values at that group's positions.
pub open spec fn agg_entry<F: CellsFn>(
    ops: Seq<Op<F>>,
    name: Seq<char>,
    vals: Seq<Seq<char>>,
    ix: Seq<(Seq<char>, Seq<usize>)>,
    out: Seq<Seq<char>>,
) -> bool {
    exists|ko: int|
        0 <= ko < ops.len() && ops[ko].spec_name() == name && (forall|l: int|
            ko < l < ops.len() ==> (#[trigger] ops[l]).spec_name() != name) && out.len()
            == ix.len() && (forall|g: int|
            0 <= g < ix.len() ==> #[trigger] out[g] == ops[ko].spec_op().spec_apply(
                Seq::new(ix[g].1.len(), |z: int| vals[ix[g].1[z] as int]),
            ))
}

/// Some descriptor is bound to the column named `n`.
pub open spec fn op_named<F: CellsFn>(ops: Seq<Op<F>>, n: Seq<char>) -> bool {
    exists|k: int| 0 <= k < ops.len() && ops[k].spec_name() == n
}

/// `out` is the strategy applied to the values of `vals` at the positions
/// where the grouping cells hold `key`, in original row order.
pub open spec fn group_agg<F: CellsFn>(
    op_f: F,
    vals: Seq<Seq<char>>,
    gcells: Seq<Seq<char>>,
    key: Seq<char>,
    out: Seq<char>,
) -> bool {
    exists|gps: Seq<usize>|
        #[trigger] is_positions_for(gps, gcells, key) && out == op_f.spec_apply(
            Seq::new(gps.len(), |i: int| vals[gps[i] as int]),
        )
}

/// The group keys, by first occurrence: `dps` lists exactly the positions
/// where a grouping value appears for the first time, ascending.
pub open spec fn grouped_firsts(gcells: Seq<Seq<char>>, dps: Seq<usize>) -> bool {
    &&& strictly_increasing(dps)
    &&& forall|i: int| 0 <= i < dps.len() ==> (#[trigger] dps[i]) < gcells.len()
    &&& forall|p: int|
        0 <= p < gcells.len() ==> (contains_pos(dps, p) == is_first_occurrence(gcells, p))
}

impl Table {
    /// The index of the last descriptor bound to `name`, if any.
    fn find_last_op<F: CellsFn>(ops: &Vec<Op<F>>, name: &str) -> (r: Option<usize>)
        ensures
            match r {
                Some(k) => k < ops@.len() && ops@[k as int].spec_name() == name@ && forall|l: int|
                    k < l < ops@.len() ==> (#[trigger] ops@[l]).spec_name() != name@,
                None => !op_named(ops@, name@),
            },
    {
        let mut k: usize = ops.len();
        while k > 0
            invariant
                k <= ops@.len(),
                forall|l: int| k <= l < ops@.len() ==> (#[trigger] ops@[l]).spec_name() != name@,
            decreases k,
        {
            if str_eq(ops[k - 1].column_name.as_str(), name) {
                return Some(k - 1);
            }
            k -= 1;
        }
        proof {
            if op_named(ops@, name@) {
                let k2 = choose|k2: int| 0 <= k2 < ops@.len() && ops@[k2].spec_name() == name@;
                assert(false);
            }
        }
        None
    }

    /// Partitions the rows by the value of the named column, one output row
    /// per distinct value, in first-occurrence order. Each descriptor's
    /// column holds, per group, its strategy applied to that group's raw
    /// values in original row order; every other column keeps the value of
    /// the group's earliest row. Fails with `MissingColumn` for the
    /// grouping column or any descriptor column that is absent.
    pub fn group_by_column<F: CellsFn>(&self, col_name: &str, column_operations: &Vec<Op<F>>)
        -> (r: Result<Table, TableError>)
        requires
            self.wf(),
        ensures
            match r {
                Ok(t) => {
                    &&& t.wf()
                    &&& self@.contains_key(col_name@)
                    &&& forall|k: int|
                        0 <= k < column_operations@.len() ==> self@.contains_key(
                            (#[trigger] column_operations@[k]).spec_name(),
                        )
                    &&& t@.dom() == self@.dom()
                    &&& exists|dps: Seq<usize>|
                        {
                            &&& #[trigger] grouped_firsts(self@[col_name@], dps)
                            &&& t.nrows() == dps.len()
                            &&& forall|n: Seq<char>|
                                #[trigger] t@.contains_key(n) ==> t@[n].len() == dps.len()
                            &&& forall|n: Seq<char>, g: int|
                                t@.contains_key(n) && !op_named(column_operations@, n) && 0 <= g
                                    < dps.len() ==> #[trigger] t@[n][g] == self@[n][dps[g] as int]
                            &&& forall|k: int, g: int|
                                0 <= k < column_operations@.len() && (forall|l: int|
                                    k < l < column_operations@.len()
                                        ==> (#[trigger] column_operations@[l]).spec_name()
                                        != column_operations@[k].spec_name()) && 0 <= g
                                    < dps.len() ==> group_agg(
                                    column_operations@[k].spec_op(),
                                    self@[column_operations@[k].spec_name()],
                                    self@[col_name@],
                                    self@[col_name@][dps[g] as int],
                                    #[trigger] t@[column_operations@[k].spec_name()][g],
                                )
                        }
                },
                Err(e) => e matches TableError::MissingColumn(m) && !self@.contains_key(m@) && (
                m@ == col_name@ || op_named(column_operations@, m@)),
            },
    {
        match self.find_col(col_name) {
            None => {
                return Err(TableError::MissingColumn(Value::new(col_name.to_owned())));
            },
            Some(fi) => {
                let mut k: usize = 0;
                while k < column_operations.len()
                    invariant
                        self.wf(),
                        k <= column_operations@.len(),
                        forall|k2: int|
                            0 <= k2 < k ==> self@.contains_key(
                                (#[trigger] column_operations@[k2]).spec_name(),
                            ),
                    decreases column_operations@.len() - k,
                {
                    match self.find_col(column_operations[k].column_name.as_str()) {
                        None => {
                            return Err(
                                TableError::MissingColumn(
                                    Value::new(
                                        column_operations[k].column_name.as_str().to_owned(),
                                    ),
                                ),
                            );
                        },
                        Some(_) => {
                        },
                    }
                    k += 1;
                }
                proof {
                    lemma_cols_map(self.cols@);
                    self.wf_facts();
                }
                let ghost gcells = self@[col_name@];
                let ix = self.cols[fi].1.get_index();
                proof {
                    lemma_index_firsts(ix@, gcells);
                }
                let mut dps: Vec<usize> = Vec::new();
                let mut g: usize = 0;
                let m = ix.len();
                while g < m
                    invariant
                        self.wf(),
                        fi < self.cols@.len(),
                        self.cols@[fi as int].0@ == col_name@,
                        self@.contains_key(col_name@),
                        gcells == self@[col_name@],
                        gcells == self.cols@[fi as int].1@,
                        is_index_for(ix@, gcells),
                        m == ix@.len(),
                        g <= m,
                        dps@.len() == g,
                        forall|k2: int| 0 <= k2 < g ==> (#[trigger] dps@[k2]) == ix@[k2].1[0],
                    decreases m - g,
                {
                    let entry = ix.positions_at(g);
                    dps.push(entry[0]);
                    g += 1;
                }
                proof {
                    lemma_index_firsts(ix@, gcells);
                    assert(grouped_firsts(gcells, dps@)) by {
                        assert forall|a: int, b: int|
                            0 <= a < b < dps@.len() implies dps@[a] < dps@[b] by {
                            assert(ix@[a].1[0] < ix@[b].1[0]);
                        }
                        assert forall|i: int| 0 <= i < dps@.len() implies (#[trigger] dps@[i])
                            < gcells.len() by {
                            assert(is_positions_for(ix@[i].1, gcells, ix@[i].0));
                        }
                        assert forall|p: int| 0 <= p < gcells.len() implies (contains_pos(
                            dps@,
                            p,
                        ) == is_first_occurrence(gcells, p)) by {
                            if contains_pos(dps@, p) {
                                let k2 = choose|k2: int| 0 <= k2 < dps@.len() && dps@[k2] == p;
                                assert(is_first_occurrence(gcells, ix@[k2].1[0] as int));
                            }
                            if is_first_occurrence(gcells, p) {
                                assert(is_entry_first(ix@, p));
                                let k2 = choose|k2: int|
                                    0 <= k2 < ix@.len() && ix@[k2].1.len() > 0 && ix@[k2].1[0]
                                        == p;
                                assert(dps@[k2] == p);
                                assert(contains_pos(dps@, p));
                            }
                        }
                    }
                }
                let mut cols: Vec<(Value, Column)> = Vec::new();
                let mut i: usize = 0;
                while i < self.cols.len()
                    invariant
                        self.wf(),
                        fi < self.cols@.len(),
                        self.cols@[fi as int].0@ == col_name@,
                        self@.contains_key(col_name@),
                        gcells == self@[col_name@],
                        gcells == self.cols@[fi as int].1@,
                        is_index_for(ix@, gcells),
                        m == ix@.len(),
                        dps@.len() == m,
                        forall|k2: int| 0 <= k2 < m ==> (#[trigger] dps@[k2]) == ix@[k2].1[0],
                        i <= self.cols@.len(),
                        cols@.len() == i,
                        forall|k2: int|
                            0 <= k2 < i ==> (#[trigger] cols@[k2]).0@ == self.cols@[k2].0@,
                        forall|k2: int|
                            0 <= k2 < i ==> (#[trigger] cols@[k2]).1.wf() && cols@[k2].1@.len()
                                == m,
                        forall|k2: int, g2: int|
                            0 <= k2 < i && !op_named(
                                column_operations@,
                                self.cols@[k2].0@,
                            ) && 0 <= g2 < m ==> (#[trigger] cols@[k2].1@[g2])
                                == self.cols@[k2].1@[dps@[g2] as int],
                        forall|k2: int|
                            0 <= k2 < i && op_named(column_operations@, self.cols@[k2].0@)
                                ==> agg_entry(
                                column_operations@,
                                self.cols@[k2].0@,
                                self.cols@[k2].1@,
                                ix@,
                                (#[trigger] cols@[k2]).1@,
                            ),
                    decreases self.cols@.len() - i,
                {
                    proof {
                        lemma_cols_map(self.cols@);
                        self.wf_facts();
                    }
                    let name = &self.cols[i].0;
                    let source = &self.cols[i].1;
                    let mut cells: Vec<Value> = Vec::new();
                    match Table::find_last_op(column_operations, name.as_str()) {
                        Some(ko) => {
                            let op = &column_operations[ko];
                            let mut g2: usize = 0;
                            while g2 < m
                                invariant
                                    self.wf(),
                                    i < self.cols@.len(),
                                    source == self.cols@[i as int].1,
                                    self.cols@[i as int].1@.len() == gcells.len(),
                                    gcells == self.cols@[fi as int].1@,
                                    fi < self.cols@.len(),
                                    is_index_for(ix@, gcells),
                                    m == ix@.len(),
                                    ko < column_operations@.len(),
                                    op == column_operations@[ko as int],
                                    g2 <= m,
                                    cells@.len() == g2,
                                    forall|g3: int|
                                        0 <= g3 < g2 ==> (#[trigger] cells@[g3])@
                                            == column_operations@[ko as int].spec_op().spec_apply(
                                            Seq::new(
                                                ix@[g3].1.len(),
                                                |z: int| self.cols@[i as int].1@[ix@[g3].1[z] as int],
                                            ),
                                        ),
                                decreases m - g2,
                            {
                                let gps = ix.positions_at(g2);
                                let mut args: Vec<String> = Vec::new();
                                let mut z: usize = 0;
                                while z < gps.len()
                                    invariant
                                        self.wf(),
                                        i < self.cols@.len(),
                                        source == self.cols@[i as int].1,
                                        self.cols@[i as int].1@.len() == gcells.len(),
                                        is_index_for(ix@, gcells),
                                        g2 < ix@.len(),
                                        gps@ == ix@[g2 as int].1,
                                        is_positions_for(gps@, gcells, ix@[g2 as int].0),
                                        z <= gps@.len(),
                                        args@.len() == z,
                                        forall|z2: int|
                                            0 <= z2 < z ==> (#[trigger] args@[z2])@
                                                == self.cols@[i as int].1@[gps@[z2] as int],
                                    decreases gps@.len() - z,
                                {
                                    let pz = gps[z];
                                    args.push(source.cell_at(pz).as_str().to_owned());
                                    z += 1;
                                }
                                let out = op.operation.apply(&args);
                                proof {
                                    assert(args.deep_view() =~= Seq::new(
                                        ix@[g2 as int].1.len(),
                                        |z2: int| self.cols@[i as int].1@[ix@[g2 as int].1[z2] as int],
                                    ));
                                    assert(op.spec_op() == column_operations@[ko as int].spec_op());
                                }
                                cells.push(Value::new(out));
                                g2 += 1;
                            }
                        },
                        None => {
                            let mut g2: usize = 0;
                            while g2 < m
                                invariant
                                    self.wf(),
                                    i < self.cols@.len(),
                                    source == self.cols@[i as int].1,
                                    self.cols@[i as int].1@.len() == gcells.len(),
                                    is_index_for(ix@, gcells),
                                    m == ix@.len(),
                                    dps@.len() == m,
                                    forall|k2: int|
                                        0 <= k2 < m ==> (#[trigger] dps@[k2]) == ix@[k2].1[0],
                                    g2 <= m,
                                    cells@.len() == g2,
                                    forall|g3: int|
                                        0 <= g3 < g2 ==> (#[trigger] cells@[g3])@
                                            == self.cols@[i as int].1@[dps@[g3] as int],
                                decreases m - g2,
                            {
                                let gps = ix.positions_at(g2);
                                proof {
                                    assert(is_positions_for(ix@[g2 as int].1, gcells, ix@[
                                        g2 as int].0));
                                    assert(ix@[g2 as int].1.len() > 0);
                                }
                                cells.push(source.cell_at(gps[0]).duplicate());
                                g2 += 1;
                            }
                        },
                    }
                    let newcol = Column::new(cells);
                    let ghost pre = cols@;
                    let ghost had_op = op_named(column_operations@, self.cols@[i as int].0@);
                    cols.push((name.duplicate(), newcol));
                    proof {
                        assert(cols@ == pre.push((cols@.last().0, newcol)));
                        assert forall|k2: int| 0 <= k2 < i implies cols@[k2] == pre[k2] by {}
                        assert forall|g3: int| 0 <= g3 < m implies newcol@[g3]
                            == cells@[g3]@ by {}
                        if had_op {
                            let ko = choose|ko: int|
                                0 <= ko < column_operations@.len()
                                    && column_operations@[ko].spec_name()
                                    == self.cols@[i as int].0@ && (forall|l: int|
                                    ko < l < column_operations@.len()
                                        ==> (#[trigger] column_operations@[l]).spec_name()
                                        != self.cols@[i as int].0@) && (forall|g3: int|
                                    0 <= g3 < m ==> (#[trigger] cells@[g3])@
                                        == column_operations@[ko].spec_op().spec_apply(
                                        Seq::new(
                                            ix@[g3].1.len(),
                                            |z: int| self.cols@[i as int].1@[ix@[g3].1[z] as int],
                                        ),
                                    ));
                            assert(agg_entry(
                                column_operations@,
                                self.cols@[i as int].0@,
                                self.cols@[i as int].1@,
                                ix@,
                                newcol@,
                            )) by {
                                assert(newcol@.len() == ix@.len());
                                assert forall|g3: int| 0 <= g3 < ix@.len() implies #[trigger]
                                newcol@[g3] == column_operations@[ko].spec_op().spec_apply(
                                    Seq::new(
                                        ix@[g3].1.len(),
                                        |z: int| self.cols@[i as int].1@[ix@[g3].1[z] as int],
                                    ),
                                ) by {
                                    assert(newcol@[g3] == cells@[g3]@);
                                }
                            }
                        }
                    }
                    i += 1;
                }
                proof {
                    lemma_same_names(self.cols@, cols@);
                }
                let t = Table::from_cols(cols);
                proof {
                    lemma_cols_map(self.cols@);
                    lemma_cols_map(t.cols@);
                    self.wf_facts();
                    assert forall|n: Seq<char>| #[trigger] t@.contains_key(n) implies t@[n].len()
                        == dps@.len() by {
                        let k2 = choose|k2: int| 0 <= k2 < t.cols@.len() && t.cols@[k2].0@ == n;
                        assert(t@[t.cols@[k2].0@] == t.cols@[k2].1@);
                    }
                    assert forall|n: Seq<char>, g2: int|
                        t@.contains_key(n) && !op_named(column_operations@, n) && 0 <= g2
                            < dps@.len() implies #[trigger] t@[n][g2] == self@[n][dps@[g2] as int] by {
                        let k2 = choose|k2: int| 0 <= k2 < t.cols@.len() && t.cols@[k2].0@ == n;
                        assert(t@[t.cols@[k2].0@] == t.cols@[k2].1@);
                        assert(self@[self.cols@[k2].0@] == self.cols@[k2].1@);
                        assert(t.cols@[k2].1@[g2] == self.cols@[k2].1@[dps@[g2] as int]);
                    }
                    assert forall|k: int, g2: int|
                        0 <= k < column_operations@.len() && (forall|l: int|
                            k < l < column_operations@.len()
                                ==> (#[trigger] column_operations@[l]).spec_name()
                                != column_operations@[k].spec_name()) && 0 <= g2
                            < dps@.len() implies group_agg(
                        column_operations@[k].spec_op(),
                        self@[column_operations@[k].spec_name()],
                        gcells,
                        gcells[dps@[g2] as int],
                        #[trigger] t@[column_operations@[k].spec_name()][g2],
                    ) by {
                        let n = column_operations@[k].spec_name();
                        assert(self@.contains_key(n));
                        let k2 = choose|k2: int|
                            0 <= k2 < self.cols@.len() && self.cols@[k2].0@ == n;
                        assert(op_named(column_operations@, self.cols@[k2].0@));
                        assert(agg_entry(
                            column_operations@,
                            self.cols@[k2].0@,
                            self.cols@[k2].1@,
                            ix@,
                            t.cols@[k2].1@,
                        ));
                        let ko = choose|ko: int|
                            0 <= ko < column_operations@.len()
                                && column_operations@[ko].spec_name() == n && (forall|l: int|
                                ko < l < column_operations@.len()
                                    ==> (#[trigger] column_operations@[l]).spec_name() != n)
                                && t.cols@[k2].1@.len() == ix@.len() && (forall|g3: int|
                                0 <= g3 < ix@.len() ==> #[trigger] t.cols@[k2].1@[g3]
                                    == column_operations@[ko].spec_op().spec_apply(
                                    Seq::new(
                                        ix@[g3].1.len(),
                                        |z: int| self.cols@[k2].1@[ix@[g3].1[z] as int],
                                    ),
                                ));
                        assert(ko == k) by {
                            if ko < k {
                                assert(column_operations@[k].spec_name() != n);
                            } else if k < ko {
                                assert(column_operations@[ko].spec_name() != n);
                            }
                        }
                        assert(t@[t.cols@[k2].0@] == t.cols@[k2].1@);
                        assert(self@[self.cols@[k2].0@] == self.cols@[k2].1@);
                        let gps = ix@[g2].1;
                        assert(is_positions_for(gps, gcells, ix@[g2].0));
                        assert(gps.len() > 0);
                        assert(gcells[gps[0] as int] == ix@[g2].0);
                        assert(dps@[g2] == gps[0]);
                        assert(t@[n][g2] == column_operations@[k].spec_op().spec_apply(
                            Seq::new(gps.len(), |z: int| self@[n][gps[z] as int]),
                        )) by {
                            assert(t.cols@[k2].1@[g2] == column_operations@[ko
                            ].spec_op().spec_apply(
                                Seq::new(
                                    ix@[g2].1.len(),
                                    |z: int| self.cols@[k2].1@[ix@[g2].1[z] as int],
                                ),
                            ));
                            assert(Seq::new(
                                ix@[g2].1.len(),
                                |z: int| self.cols@[k2].1@[ix@[g2].1[z] as int],
                            ) =~= Seq::new(gps.len(), |z: int| self@[n][gps[z] as int]));
                        }
                        assert(group_agg(
                            column_operations@[k].spec_op(),
                            self@[n],
                            gcells,
                            gcells[dps@[g2] as int],
                            t@[n][g2],
                        ));
                    }
                    assert(t@.dom() =~= self@.dom());
                }
                Ok(t)
            },
        }
    }
}

/// The trimmed tab-separated fields of one line.
pub open spec fn line_fields(line: Seq<char>) -> Seq<Seq<char>> {
    Seq::new(split_on(line, '\t').len(), |k: int| trimmed(split_on(line, '\t')[k]))
}

/// The position of the first non-blank line at or after `s`, or the line
/// count when none is left. A line of nothing but whitespace is blank.
pub open spec fn first_nonblank(lines: Seq<Seq<char>>, s: int) -> int
    decreases lines.len() - s,
{
    if s < 0 || s >= lines.len() {
        lines.len() as int
    } else if trimmed(lines[s]).len() > 0 {
        s
    } else {
        first_nonblank(lines, s + 1)
    }
}

/// The trimmed field lists of the non-blank lines from `s` on; a line of
/// nothing but whitespace is blank and contributes no row.
pub open spec fn rows_after(lines: Seq<Seq<char>>, s: int) -> Seq<Seq<Seq<char>>>
    decreases lines.len() - s,
{
    if s < 0 || s >= lines.len() {
        Seq::empty()
    } else if trimmed(lines[s]).len() == 0 {
        rows_after(lines, s + 1)
    } else {
        seq![line_fields(lines[s])] + rows_after(lines, s + 1)
    }
}

/// Whether a later accumulated column shares the name of column `i`.
fn name_repeats_after(columns: &Vec<(Value, Vec<Value>)>, i: usize) -> (b: bool)
    requires
        i < columns@.len(),
    ensures
        b == exists|l: int|
            i < l < columns@.len() && (#[trigger] columns@[l]).0@ == columns@[i as int].0@,
{
    let total = columns.len();
    let mut l: usize = i + 1;
    let mut found = false;
    while l < total
        invariant
            total == columns@.len(),
            i < columns@.len(),
            i + 1 <= l <= columns@.len(),
            found == exists|l2: int|
                i < l2 < l && (#[trigger] columns@[l2]).0@ == columns@[i as int].0@,
        decreases columns@.len() - l,
    {
        if str_eq(columns[l].0.as_str(), columns[i].0.as_str()) {
            found = true;
            proof {
                assert(columns@[l as int].0@ == columns@[i as int].0@);
            }
        }
        l += 1;
    }
    found
}

/// Second handles to all the cells of one list.
fn duplicate_cells(src: &Vec<Value>) -> (r: Vec<Value>)
    ensures
        r@ == src@,
{
    let mut r: Vec<Value> = Vec::new();
    let mut p: usize = 0;
    while p < src.len()
        invariant
            p <= src@.len(),
            r@ == src@.take(p as int),
        decreases src@.len() - p,
    {
        r.push(src[p].duplicate());
        proof {
            assert(r@ =~= src@.take(p + 1));
        }
        p += 1;
    }
    proof {
        assert(src@.take(src@.len() as int) =~= src@);
    }
    r
}

/// Accumulates declared column names, then rows of equal width, and
/// materializes a table.
pub struct TableBuilder {
    columns: Vec<(Value, Vec<Value>)>,
}

impl TableBuilder {
    /// The declared column names, in order (duplicates possible).
    pub closed spec fn names(&self) -> Seq<Seq<char>> {
        Seq::new(self.columns@.len(), |i: int| self.columns@[i].0@)
    }

    /// The accumulated cells, one sequence per declared name.
    pub closed spec fn data(&self) -> Seq<Seq<Seq<char>>> {
        Seq::new(self.columns@.len(), |i: int| self.columns@[i].1.deep_view())
    }

    /// All accumulated columns hold one cell per added row.
    pub closed spec fn consistent(&self) -> bool {
        forall|i: int, j: int|
            0 <= i < self.columns@.len() && 0 <= j < self.columns@.len()
                ==> self.columns@[i].1@.len() == self.columns@[j].1@.len()
    }

    /// How many rows were added.
    pub closed spec fn brows(&self) -> nat {
        if self.columns@.len() == 0 {
            0
        } else {
            self.columns@[0].1@.len()
        }
    }

    /// Declares the column names; no rows yet.
    pub fn new(column_names: Vec<String>) -> (b: TableBuilder)
        ensures
            b.consistent(),
            b.brows() == 0,
            b.names().len() == column_names@.len(),
            forall|i: int|
                0 <= i < column_names@.len() ==> b.names()[i] == (#[trigger] column_names@[i])@,
    {
        let mut columns: Vec<(Value, Vec<Value>)> = Vec::new();
        let mut i: usize = 0;
        while i < column_names.len()
            invariant
                i <= column_names@.len(),
                columns@.len() == i,
                forall|k: int|
                    0 <= k < i ==> (#[trigger] columns@[k]).0@ == column_names@[k]@
                        && columns@[k].1@.len() == 0,
            decreases column_names@.len() - i,
        {
            columns.push((Value::new(column_names[i].clone()), Vec::new()));
            i += 1;
        }
        TableBuilder { columns }
    }

    /// Appends one row; fails with `ColumnCountMismatch` when the field
    /// count differs from the declared column count.
    pub fn add_row(self, cells: Vec<String>) -> (r: Result<TableBuilder, TableError>)
        requires
            self.consistent(),
            self.brows() < usize::MAX,
        ensures
            match r {
                Ok(b) => {
                    &&& cells@.len() == self.names().len()
                    &&& b.consistent()
                    &&& b.brows() == if self.names().len() == 0 {
                        0nat
                    } else {
                        self.brows() + 1
                    }
                    &&& b.names() == self.names()
                    &&& forall|i: int|
                        0 <= i < self.names().len() ==> #[trigger] b.data()[i]
                            == self.data()[i].push(cells@[i]@)
                },
                Err(e) => cells@.len() != self.names().len() && (e
                    matches TableError::ColumnCountMismatch(exp, act) && exp == self.names().len()
                    && act == cells@.len()),
            },
    {
        if cells.len() != self.columns.len() {
            return Err(TableError::ColumnCountMismatch(self.columns.len(), cells.len()));
        }
        let ghost old_self = self;
        let mut columns = self.columns;
        let mut i: usize = 0;
        while i < cells.len()
            invariant
                cells@.len() == columns@.len(),
                i <= cells@.len(),
                forall|k: int|
                    0 <= k < columns@.len() ==> (#[trigger] columns@[k]).0
                        == old_self.columns@[k].0,
                forall|k: int|
                    0 <= k < i ==> ((#[trigger] columns@[k]).1@.len() == old_self.columns@[
                        k].1@.len() + 1 && columns@[k].1@.last()@ == cells@[k]@
                        && columns@[k].1@.take(columns@[k].1@.len() - 1)
                        == old_self.columns@[k].1@),
                forall|k: int|
                    i <= k < columns@.len() ==> (#[trigger] columns@[k]).1
                        == old_self.columns@[k].1,
            decreases cells@.len() - i,
        {
            let (name, mut col) = columns.remove(i);
            col.push(Value::new(cells[i].clone()));
            columns.insert(i, (name, col));
            proof {
                assert forall|k: int| 0 <= k < i + 1 implies ((#[trigger] columns@[k]).1@.len()
                    == old_self.columns@[k].1@.len() + 1 && columns@[k].1@.last()@ == cells@[k]@
                    && columns@[k].1@.take(columns@[k].1@.len() - 1)
                    == old_self.columns@[k].1@) by {
                    if k == i {
                        assert(columns@[k].1@.take(columns@[k].1@.len() - 1)
                            =~= old_self.columns@[k].1@);
                    } else {
                        assert(columns@[k].1@.take(columns@[k].1@.len() - 1)
                            =~= old_self.columns@[k].1@);
                    }
                }
            }
            i += 1;
        }
        let b = TableBuilder { columns };
        proof {
            assert forall|k: int| 0 <= k < old_self.names().len() implies #[trigger] b.data()[k]
                == old_self.data()[k].push(cells@[k]@) by {
                assert(b.data()[k] =~= old_self.data()[k].push(cells@[k]@)) by {
                    assert(b.columns@[k].1@.take(b.columns@[k].1@.len() - 1)
                        == old_self.columns@[k].1@);
                    assert forall|z: int| 0 <= z < b.data()[k].len() implies b.data()[k][z]
                        == old_self.data()[k].push(cells@[k]@)[z] by {
                        assert(b.data()[k][z] == b.columns@[k].1@[z]@);
                        if z < b.columns@[k].1@.len() - 1 {
                            assert(b.columns@[k].1@[z]
                                == b.columns@[k].1@.take(b.columns@[k].1@.len() - 1)[z]);
                        } else {
                            assert(b.columns@[k].1@[z] == b.columns@[k].1@.last());
                        }
                    }
                }
            }
            assert(b.names() =~= old_self.names());
        }
        Ok(b)
    }

    /// Materializes the table: one column per declared name; when a name
    /// was declared more than once the last declaration wins.
    pub fn build(self) -> (t: Table)
        requires
            self.consistent(),
        ensures
            t.wf(),
            t@ == built_map(self.names(), self.data(), self.names().len() as int),
            forall|k: int|
                0 <= k < self.names().len() && (forall|l: int|
                    k < l < self.names().len() ==> self.names()[l] != self.names()[k])
                    ==> t@.contains_key(#[trigger] self.names()[k]) && t@[self.names()[k]]
                    == self.data()[k],
            forall|n: Seq<char>|
                #[trigger] t@.contains_key(n) ==> exists|k: int|
                    0 <= k < self.names().len() && self.names()[k] == n,
            t.nrows() == if self.names().len() == 0 {
                0
            } else {
                self.brows()
            },
    {
        let empty: Vec<(Value, Column)> = Vec::new();
        let mut t = Table::from_cols(empty);
        let mut i: usize = 0;
        let n = self.columns.len();
        while i < n
            invariant
                self.consistent(),
                n == self.columns@.len(),
                i <= n,
                t.wf(),
                t@ == built_map(self.names(), self.data(), i as int),
                t.ncols() > 0 ==> t.nrows() == self.brows(),
                i > 0 ==> t.ncols() > 0,
            decreases n - i,
        {
            let cells = duplicate_cells(&self.columns[i].1);
            let newcol = Column::new(cells);
            proof {
                assert(newcol@ =~= self.data()[i as int]) by {
                    assert forall|z: int| 0 <= z < newcol@.len() implies newcol@[z]
                        == self.data()[i as int][z] by {
                        assert(newcol@[z] == self.columns@[i as int].1@[z]@);
                    }
                }
                assert(newcol@.len() == self.brows());
                if t.ncols() == 0 {
                    if t@.contains_key(self.names()[0]) {
                        t.wf_facts();
                        lemma_cols_map_card(t.cols@);
                        assert(t@.dom().contains(self.names()[0]));
                        assert(t@.dom().len() > 0) by {
                            assert(t@.dom() =~= t@.dom());
                            if t@.dom().len() == 0 {
                                assert(t@.dom() =~= Set::<Seq<char>>::empty());
                            }
                        }
                        assert(false);
                    }
                }
            }
            let t2 = t.with_column(&self.columns[i].0, newcol);
            proof {
                assert(t2@ == built_map(self.names(), self.data(), i + 1)) by {
                    assert(self.names()[i as int] == self.columns@[i as int].0@);
                }
                lemma_cols_map_card(t2.cols@);
                assert(t2@.contains_key(self.columns@[i as int].0@));
                if t2.ncols() == 0 {
                    assert(t2@.dom().len() == 0);
                    assert(!t2@.dom().contains(self.columns@[i as int].0@)) by {
                        if t2@.dom().len() == 0 {
                            assert(t2@.dom().finite());
                            if t2@.dom().contains(self.columns@[i as int].0@) {
                                vstd::set_lib::lemma_set_empty_equivalency_len(t2@.dom());
                                assert(false);
                            }
                        }
                    }
                    assert(false);
                }
            }
            t = t2;
            i += 1;
        }
        proof {
            lemma_built_map(self.names(), self.data(), n as int);
            if n == 0 {
                assert(t@ =~= Map::<Seq<char>, Seq<Seq<char>>>::empty());
                if t.ncols() > 0 {
                    lemma_cols_map(t.cols@);
                    assert(t@.contains_key(t.cols@[0].0@));
                    assert(false);
                }
            }
        }
        t
    }
}

/// The mapping that declaring these columns in order denotes: each later
/// declaration overwrites an earlier one of the same name.
pub open spec fn built_map(
    names: Seq<Seq<char>>,
    data: Seq<Seq<Seq<char>>>,
    upto: int,
) -> TableMap
    decreases upto,
{
    if upto <= 0 {
        Map::empty()
    } else {
        built_map(names, data, upto - 1).insert(names[upto - 1], data[upto - 1])
    }
}

/// Last declaration wins: the mapping holds, for each name, the data of
/// its final declaration.
pub proof fn lemma_built_map(names: Seq<Seq<char>>, data: Seq<Seq<Seq<char>>>, upto: int)
    requires
        0 <= upto <= names.len(),
    ensures
        forall|k: int|
            0 <= k < upto && (forall|l: int| k < l < upto ==> names[l] != names[k])
                ==> built_map(names, data, upto).contains_key(#[trigger] names[k]) && built_map(
                names,
                data,
                upto,
            )[names[k]] == data[k],
        forall|n: Seq<char>|
            #[trigger] built_map(names, data, upto).contains_key(n) ==> exists|k: int|
                0 <= k < upto && names[k] == n,
    decreases upto,
{
    if upto > 0 {
        lemma_built_map(names, data, upto - 1);
        assert forall|k: int|
            0 <= k < upto && (forall|l: int| k < l < upto ==> names[l] != names[k]) implies built_map(
            names,
            data,
            upto,
        ).contains_key(#[trigger] names[k]) && built_map(names, data, upto)[names[k]]
            == data[k] by {
            if k < upto - 1 {
                assert forall|l: int| k < l < upto - 1 implies names[l] != names[k] by {
                    assert(k < l < upto);
                }
                assert(built_map(names, data, upto - 1).contains_key(names[k]));
                assert(names[upto - 1] != names[k]);
            }
        }
        assert forall|n: Seq<char>|
            #[trigger] built_map(names, data, upto).contains_key(n) implies exists|k: int|
            0 <= k < upto && names[k] == n by {
            if n == names[upto - 1] {
            } else {
                assert(built_map(names, data, upto - 1).contains_key(n));
                let k = choose|k: int| 0 <= k < upto - 1 && names[k] == n;
                assert(names[k] == n);
            }
        }
    }
}

/// One line of the delimited text per row: the header first, then each
/// row's cells in header order, fields tab-joined.
pub open spec fn tsv_lines(tm: TableMap, header: Seq<Seq<char>>, rows: nat) -> Seq<Seq<char>> {
    seq![joined(header, '\t')] + Seq::new(
        rows,
        |r: int| joined(Seq::new(header.len(), |k: int| tm[header[k]][r]), '\t'),
    )
}

/// Row `b` is the first one whose field count differs from the header's,
/// and the error reports both counts.
pub open spec fn ccm_at(
    rows: Seq<Seq<Seq<char>>>,
    header_len: int,
    e: TableError,
    b: int,
) -> bool {
    &&& 0 <= b < rows.len()
    &&& rows[b].len() != header_len
    &&& forall|c: int| 0 <= c < b ==> (#[trigger] rows[c]).len() == header_len
    &&& e matches TableError::ColumnCountMismatch(exp, act) && exp == header_len && act
        == rows[b].len()
}

/// The error reports the first row of the wrong width.
pub open spec fn ccm_err(rows: Seq<Seq<Seq<char>>>, header_len: int, e: TableError) -> bool {
    exists|b: int| #[trigger] ccm_at(rows, header_len, e, b)
}

/// Some row has the wrong width.
pub open spec fn some_bad_row(rows: Seq<Seq<Seq<char>>>, header_len: int) -> bool {
    exists|b: int| 0 <= b < rows.len() && (#[trigger] rows[b]).len() != header_len
}

/// What parsing delimited text yields: no usable header line, a row of the
/// wrong width, or the table the header and rows denote.
pub open spec fn parse_outcome(
    input: Seq<char>,
    skip: int,
    r: Result<Table, TableError>,
) -> bool {
    let lines = split_on(input, '\n');
    let start = if skip <= lines.len() {
        skip
    } else {
        lines.len() as int
    };
    let hi = first_nonblank(lines, start);
    if hi >= lines.len() {
        r matches Err(e) && e is MissingHeader
    } else {
        let header = line_fields(lines[hi]);
        let rows = rows_after(lines, hi + 1);
        if some_bad_row(rows, header.len() as int) {
            r matches Err(e) && ccm_err(rows, header.len() as int, e)
        } else {
            r matches Ok(t) && t.wf() && t.nrows() == rows.len() && t@ == built_map(
                header,
                Seq::new(header.len(), |k: int| Seq::new(rows.len(), |q: int| rows[q][k])),
                header.len() as int,
            )
        }
    }
}

impl Table {
    /// Trimmed fields of one line, as owned strings.
    fn split_fields(line: &Vec<char>) -> (r: Vec<String>)
        ensures
            r.deep_view() == line_fields(line@),
    {
        let parts = split_chars_from(line, 0, '\t');
        proof {
            assert(line@.skip(0) =~= line@);
        }
        let mut out: Vec<String> = Vec::new();
        let mut k: usize = 0;
        while k < parts.len()
            invariant
                parts.deep_view() == split_on(line@, '\t'),
                k <= parts@.len(),
                out@.len() == k,
                forall|j: int|
                    0 <= j < k ==> (#[trigger] out@[j])@ == trimmed(split_on(line@, '\t')[j]),
            decreases parts@.len() - k,
        {
            let tf = trim_chars(&parts[k]);
            proof {
                assert(parts@[k as int]@ == parts.deep_view()[k as int]);
            }
            out.push(chars_to_string(&tf));
            k += 1;
        }
        proof {
            assert(out.deep_view() =~~= line_fields(line@));
        }
        out
    }

    /// Parses tab-delimited text: skips `skip_lines` lines and any further
    /// blank lines, reads the next line as the header, then every later
    /// non-blank line as one row. A line holding only whitespace counts as
    /// blank, so a carriage return left by a CRLF line ending never becomes
    /// a row of its own. Fails with `MissingHeader` when no header line is
    /// left, and with `ColumnCountMismatch` on the first row whose field
    /// count differs from the header's.
    pub fn parse_tsv(input: &str, skip_lines: usize) -> (r: Result<Table, TableError>)
        ensures
            parse_outcome(input@, skip_lines as int, r),
    {
        let chars = str_to_chars(input);
        let lines = split_chars_from(&chars, 0, '\n');
        proof {
            assert(chars@.skip(0) =~= chars@);
        }
        let ghost slines = split_on(input@, '\n');
        let nl = lines.len();
        let mut li: usize = if skip_lines < nl {
            skip_lines
        } else {
            nl
        };
        let ghost start = li as int;
        while li < nl && blank_line(&lines[li])
            invariant
                slines == split_on(input@, '\n'),
                lines.deep_view() == slines,
                nl == slines.len(),
                start == if skip_lines as int <= slines.len() {
                    skip_lines as int
                } else {
                    slines.len() as int
                },
                start <= li <= nl,
                first_nonblank(slines, start) == first_nonblank(slines, li as int),
            decreases nl - li,
        {
            proof {
                assert(trimmed(slines[li as int]).len() == 0) by {
                    assert(lines.deep_view()[li as int] == lines@[li as int]@);
                }
            }
            li += 1;
        }
        if li == nl {
            proof {
                assert(first_nonblank(slines, li as int) == slines.len());
                let sstart = if skip_lines as int <= slines.len() {
                    skip_lines as int
                } else {
                    slines.len() as int
                };
                assert(sstart == start);
                assert(first_nonblank(slines, sstart) >= slines.len());
                assert(parse_outcome(
                    input@,
                    skip_lines as int,
                    Result::Err(TableError::MissingHeader),
                ));
            }
            return Err(TableError::MissingHeader);
        }
        let ghost hi = li as int;
        proof {
            assert(trimmed(slines[hi]).len() > 0) by {
                assert(lines.deep_view()[hi] == lines@[hi]@);
            }
            assert(first_nonblank(slines, hi) == hi);
        }
        let names = Table::split_fields(&lines[li]);
        let mut builder = TableBuilder::new(names);
        let ghost header = line_fields(slines[hi]);
        proof {
            assert(names.deep_view() == line_fields(slines[hi])) by {
                assert(lines@[hi]@ == lines.deep_view()[hi]);
            }
            assert forall|i2: int| 0 <= i2 < header.len() implies builder.names()[i2]
                == header[i2] by {
                assert(builder.names()[i2] == names@[i2]@);
                assert(names@[i2]@ == names.deep_view()[i2]);
            }
            assert(builder.names() =~= header);
        }
        let mut lj: usize = li + 1;
        let ghost mut done: Seq<Seq<Seq<char>>> = Seq::empty();
        while lj < nl
            invariant
                slines == split_on(input@, '\n'),
                lines.deep_view() == slines,
                nl == slines.len(),
                0 <= hi < nl,
                start == if skip_lines as int <= slines.len() {
                    skip_lines as int
                } else {
                    slines.len() as int
                },
                first_nonblank(slines, start) == hi,
                hi < lj <= nl,
                header == line_fields(slines[hi]),
                builder.names() == header,
                builder.consistent(),
                builder.brows() == done.len(),
                done.len() <= lj,
                rows_after(slines, hi + 1) == done + rows_after(slines, lj as int),
                forall|c: int| 0 <= c < done.len() ==> (#[trigger] done[c]).len() == header.len(),
                forall|k: int|
                    0 <= k < header.len() ==> #[trigger] builder.data()[k] == Seq::new(
                        done.len(),
                        |q: int| done[q][k],
                    ),
            decreases nl - lj,
        {
            let ghost pre_done = done;
            if !blank_line(&lines[lj]) {
                proof {
                    assert(trimmed(slines[lj as int]).len() > 0) by {
                        assert(lines.deep_view()[lj as int] == lines@[lj as int]@);
                    }
                    assert(rows_after(slines, lj as int) == seq![line_fields(slines[lj as int])]
                        + rows_after(slines, lj + 1));
                }
                let vals = Table::split_fields(&lines[lj]);
                let ghost row = line_fields(slines[lj as int]);
                let ghost pre_builder = builder;
                proof {
                    assert(row == vals.deep_view()) by {
                        assert(lines@[lj as int]@ == lines.deep_view()[lj as int]);
                    }
                    assert(row.len() == vals@.len()) by {
                        assert(vals.deep_view().len() == vals@.len());
                    }
                }
                match builder.add_row(vals) {
                    Err(e) => {
                        proof {
                            let rows = rows_after(slines, hi + 1);
                            assert(rows =~~= pre_done + (seq![row] + rows_after(
                                slines,
                                lj + 1,
                            )));
                            assert((pre_done + (seq![row] + rows_after(slines, lj + 1)))[
                                pre_done.len() as int] == row);
                            assert(rows[pre_done.len() as int] == row);
                            assert(row.len() != header.len());
                            assert forall|c: int| 0 <= c < pre_done.len() implies (
                            #[trigger] rows[c]).len() == header.len() by {
                                assert(rows[c] == pre_done[c]);
                            }
                            let sstart = if skip_lines as int <= slines.len() {
                                skip_lines as int
                            } else {
                                slines.len() as int
                            };
                            assert(sstart == start);
                            assert(first_nonblank(slines, sstart) == hi);
                            assert(e matches TableError::ColumnCountMismatch(exp, act)
                                && exp == header.len() && act == rows[pre_done.len() as int].len());
                            let b0 = pre_done.len() as int;
                            assert(0 <= b0 < rows.len() && rows[b0].len() != header.len());
                            assert(some_bad_row(rows, header.len() as int));
                            assert(ccm_at(rows, header.len() as int, e, b0));
                            assert(ccm_err(rows, header.len() as int, e));
                            assert(parse_outcome(input@, skip_lines as int, Result::Err(e)));
                        }
                        return Err(e);
                    },
                    Ok(b) => {
                        builder = b;
                        proof {
                            done = done.push(row);
                            assert(rows_after(slines, hi + 1) =~~= done + rows_after(
                                slines,
                                lj + 1,
                            )) by {
                                assert(rows_after(slines, hi + 1) == pre_done + (seq![row]
                                    + rows_after(slines, lj + 1)));
                            }
                            assert(row.len() == header.len());
                            assert forall|k: int|
                                0 <= k < header.len() implies #[trigger] builder.data()[k]
                                == Seq::new(done.len(), |q: int| done[q][k]) by {
                                assert(builder.data()[k] == pre_builder.data()[k].push(
                                    vals@[k]@,
                                ));
                                assert(vals@[k]@ == vals.deep_view()[k]);
                                assert(pre_builder.data()[k] == Seq::new(
                                    pre_done.len(),
                                    |q: int| pre_done[q][k],
                                ));
                                assert forall|q: int|
                                    0 <= q < done.len() implies builder.data()[k][q] == Seq::new(
                                    done.len(),
                                    |q2: int| done[q2][k],
                                )[q] by {
                                    if q < pre_done.len() {
                                        assert(done[q] == pre_done[q]);
                                        assert(builder.data()[k][q]
                                            == pre_builder.data()[k][q]);
                                    } else {
                                        assert(done[q] == row);
                                    }
                                }
                                assert(builder.data()[k] =~= Seq::new(
                                    done.len(),
                                    |q: int| done[q][k],
                                ));
                            }
                        }
                    },
                }
            } else {
                proof {
                    assert(trimmed(slines[lj as int]).len() == 0) by {
                        assert(lines.deep_view()[lj as int] == lines@[lj as int]@);
                    }
                    assert(rows_after(slines, lj as int) == rows_after(slines, lj + 1));
                }
            }
            lj += 1;
        }
        proof {
            assert(rows_after(slines, nl as int) =~~= Seq::<Seq<Seq<char>>>::empty());
            assert(rows_after(slines, hi + 1) =~~= done);
        }
        let t = builder.build();
        proof {
            let rows = rows_after(slines, hi + 1);
            assert(builder.data() =~~= Seq::new(
                header.len(),
                |k: int| Seq::new(rows.len(), |q: int| rows[q][k]),
            ));
            assert(header.len() > 0) by {
                crate::text::lemma_split_nonempty(slines[hi], '\t');
            }
            let sstart = if skip_lines as int <= slines.len() {
                skip_lines as int
            } else {
                slines.len() as int
            };
            assert(sstart == start);
            assert(first_nonblank(slines, sstart) == hi);
            assert(t.nrows() == rows.len());
            assert(t@ == built_map(
                header,
                Seq::new(header.len(), |k: int| Seq::new(rows.len(), |q: int| rows[q][k])),
                header.len() as int,
            ));
            assert(!some_bad_row(rows, header.len() as int)) by {
                if some_bad_row(rows, header.len() as int) {
                    let b = choose|b: int|
                        0 <= b < rows.len() && (#[trigger] rows[b]).len() != header.len();
                    assert(rows[b] == done[b]);
                    assert(done[b].len() == header.len());
                }
            }
            assert(parse_outcome(input@, skip_lines as int, Result::Ok(t)));
        }
        Ok(t)
    }

    /// Serializes to delimited text: the given header line, then one
    /// tab-joined line per row, lines joined by newlines. Fails with
    /// `MissingColumn` on the first requested name the table lacks.
    pub fn to_tsv(&self, header: Vec<String>) -> (r: Result<String, TableError>)
        requires
            self.wf(),
        ensures
            match r {
                Ok(s) => {
                    &&& forall|k: int|
                        0 <= k < header@.len() ==> self@.contains_key((#[trigger] header@[k])@)
                    &&& s@ == joined(
                        tsv_lines(self@, header.deep_view(), self.nrows()),
                        '\n',
                    )
                },
                Err(e) => e matches TableError::MissingColumn(m) && !self@.contains_key(m@)
                    && exists|k: int| 0 <= k < header@.len() && (#[trigger] header@[k])@ == m@,
            },
    {
        let mut cols: Vec<Column> = Vec::new();
        let mut k: usize = 0;
        while k < header.len()
            invariant
                self.wf(),
                k <= header@.len(),
                cols@.len() == k,
                forall|j: int|
                    0 <= j < k ==> self@.contains_key((#[trigger] header@[j])@),
                forall|j: int|
                    0 <= j < k ==> (#[trigger] cols@[j])@ == self@[header@[j]@]
                        && cols@[j]@.len() == self.nrows(),
            decreases header@.len() - k,
        {
            match self.column(header[k].as_str()) {
                Err(e) => {
                    return Err(e);
                },
                Ok(c) => {
                    proof {
                        self.wf_facts();
                    }
                    cols.push(c);
                },
            }
            k += 1;
        }
        let mut out: Vec<char> = Vec::new();
        let mut j: usize = 0;
        while j < header.len()
            invariant
                self.wf(),
                j <= header@.len(),
                out@ == joined(header.deep_view().take(j as int), '\t'),
            decreases header@.len() - j,
        {
            let ghost pre = out@;
            if j > 0 {
                out.push('\t');
            }
            let nm = str_to_chars(header[j].as_str());
            let mut z: usize = 0;
            while z < nm.len()
                invariant
                    z <= nm@.len(),
                    j > 0 ==> out@ == pre + seq!['\t'] + nm@.take(z as int),
                    j == 0 ==> out@ == pre + nm@.take(z as int),
                decreases nm@.len() - z,
            {
                out.push(nm[z]);
                proof {
                    if j > 0 {
                        assert(out@ =~= pre + seq!['\t'] + nm@.take(z + 1));
                    } else {
                        assert(out@ =~= pre + nm@.take(z + 1));
                    }
                }
                z += 1;
            }
            proof {
                assert(nm@.take(nm@.len() as int) =~= nm@);
                lemma_joined_take(header.deep_view(), '\t', j as int);
                assert(out@ == joined(header.deep_view().take(j + 1), '\t'));
            }
            j += 1;
        }
        proof {
            assert(header.deep_view().take(header@.len() as int) =~= header.deep_view());
        }
        let n = self.rows_count();
        let ghost lines = tsv_lines(self@, header.deep_view(), self.nrows());
        proof {
            assert(lines[0] == joined(header.deep_view(), '\t'));
            assert(out@ == joined(lines.take(1), '\t')) by {
                assert(lines.take(1) =~= seq![lines[0]]);
            }
            assert(out@ == joined(lines.take(1), '\n')) by {
                assert(lines.take(1) =~= seq![lines[0]]);
            }
        }
        let mut row: usize = 0;
        while row < n
            invariant
                self.wf(),
                n == self.nrows(),
                row <= n,
                cols@.len() == header@.len(),
                forall|j2: int|
                    0 <= j2 < header@.len() ==> (#[trigger] cols@[j2])@ == self@[header@[j2]@]
                        && cols@[j2]@.len() == self.nrows(),
                lines == tsv_lines(self@, header.deep_view(), self.nrows()),
                lines.len() == n + 1,
                out@ == joined(lines.take(row + 1), '\n'),
            decreases n - row,
        {
            let ghost pre = out@;
            out.push('\n');
            let mut j2: usize = 0;
            let ghost fields = Seq::new(
                header.deep_view().len(),
                |k2: int| self@[header.deep_view()[k2]][row as int],
            );
            while j2 < cols.len()
                invariant
                    self.wf(),
                    row < n,
                    n == self.nrows(),
                    cols@.len() == header@.len(),
                    forall|j3: int|
                        0 <= j3 < header@.len() ==> (#[trigger] cols@[j3])@ == self@[header@[j3]@]
                            && cols@[j3]@.len() == self.nrows(),
                    fields == Seq::new(
                        header.deep_view().len(),
                        |k2: int| self@[header.deep_view()[k2]][row as int],
                    ),
                    j2 <= cols@.len(),
                    out@ == pre + seq!['\n'] + joined(fields.take(j2 as int), '\t'),
                decreases cols@.len() - j2,
            {
                let ghost pre2 = out@;
                if j2 > 0 {
                    out.push('\t');
                }
                let cell = str_to_chars(cols[j2].cell_at(row).as_str());
                let mut z: usize = 0;
                while z < cell.len()
                    invariant
                        z <= cell@.len(),
                        j2 > 0 ==> out@ == pre2 + seq!['\t'] + cell@.take(z as int),
                        j2 == 0 ==> out@ == pre2 + cell@.take(z as int),
                    decreases cell@.len() - z,
                {
                    out.push(cell[z]);
                    proof {
                        if j2 > 0 {
                            assert(out@ =~= pre2 + seq!['\t'] + cell@.take(z + 1));
                        } else {
                            assert(out@ =~= pre2 + cell@.take(z + 1));
                        }
                    }
                    z += 1;
                }
                proof {
                    assert(cell@.take(cell@.len() as int) =~= cell@);
                    assert(cell@ == fields[j2 as int]);
                    lemma_joined_take(fields, '\t', j2 as int);
                    assert(out@ =~= pre + seq!['\n'] + joined(fields.take(j2 + 1), '\t'));
                }
                j2 += 1;
            }
            proof {
                assert(fields.take(fields.len() as int) =~= fields);
                assert(lines[row + 1] == joined(fields, '\t')) by {
                    assert(lines[row + 1] == joined(
                        Seq::new(
                            header.deep_view().len(),
                            |k2: int| self@[header.deep_view()[k2]][row as int],
                        ),
                        '\t',
                    ));
                }
                lemma_joined_take(lines, '\n', row + 1);
                assert(lines.take(row + 1 + 1).drop_last() =~= lines.take(row + 1));
                assert(out@ == joined(lines.take(row + 2), '\n'));
            }
            row += 1;
        }
        proof {
            assert(lines.take(n + 1) =~= lines);
        }
        Ok(chars_to_string(&out))
    }
}

/// Joining one more field appends one separator and the field.
pub proof fn lemma_joined_take(fields: Seq<Seq<char>>, sep: char, j: int)
    requires
        0 <= j < fields.len(),
    ensures
        j > 0 ==> joined(fields.take(j + 1), sep) == joined(fields.take(j), sep) + seq![sep]
            + fields[j],
        j == 0 ==> joined(fields.take(j + 1), sep) == fields[0],
{
    if j > 0 {
        assert(fields.take(j + 1).drop_last() =~= fields.take(j));
        assert(fields.take(j + 1).last() == fields[j]);
    } else {
        assert(fields.take(1) =~= seq![fields[0]]);
    }
}

impl Table {
    /// A fixed-width textual rendering for human inspection: columns in
    /// alphabetical name order, each as wide as its widest cell or its
    /// name. A diagnostic view only; no caller may rely on its exact shape.
    pub fn to_repr(&self) -> (r: String)
        requires
            self.wf(),
        ensures
            r@.len() > 0,
    {
        let mut order: Vec<usize> = Vec::new();
        let mut i: usize = 0;
        while i < self.cols.len()
            invariant
                self.wf(),
                i <= self.cols@.len(),
                order@.len() == i,
                forall|k: int| 0 <= k < order@.len() ==> (#[trigger] order@[k]) < self.cols@.len(),
            decreases self.cols@.len() - i,
        {
            let mut idx: usize = order.len();
            let mut stopped = false;
            while idx > 0 && !stopped
                invariant
                    self.wf(),
                    i < self.cols@.len(),
                    order@.len() == i,
                    idx <= order@.len(),
                    forall|k: int|
                        0 <= k < order@.len() ==> (#[trigger] order@[k]) < self.cols@.len(),
                decreases idx + if stopped {
                    0int
                } else {
                    1int
                },
            {
                let prev = order[idx - 1];
                if self.cols[i].0.lt_value(&self.cols[prev].0) {
                    idx -= 1;
                } else {
                    stopped = true;
                }
            }
            order.insert(idx, i);
            proof {
                assert forall|k: int| 0 <= k < order@.len() implies (#[trigger] order@[k])
                    < self.cols@.len() by {}
            }
            i += 1;
        }
        let mut widths: Vec<usize> = Vec::new();
        let mut k: usize = 0;
        while k < order.len()
            invariant
                self.wf(),
                order@.len() == self.cols@.len(),
                forall|k2: int|
                    0 <= k2 < order@.len() ==> (#[trigger] order@[k2]) < self.cols@.len(),
                k <= order@.len(),
                widths@.len() == k,
            decreases order@.len() - k,
        {
            let ci = order[k];
            let mut w = str_to_chars(self.cols[ci].0.as_str()).len();
            let col = &self.cols[ci].1;
            let mut p: usize = 0;
            while p < col.len()
                invariant
                    col == self.cols@[ci as int].1,
                    ci < self.cols@.len(),
                    p <= col@.len(),
                decreases col@.len() - p,
            {
                let cl = str_to_chars(col.cell_at(p).as_str()).len();
                if cl > w {
                    w = cl;
                }
                p += 1;
            }
            widths.push(w);
            k += 1;
        }
        let mut out: Vec<char> = Vec::new();
        let m = order.len();
        render_border(&mut out, &widths, '_');
        let mut k2: usize = 0;
        while k2 < m
            invariant
                self.wf(),
                order@.len() == self.cols@.len(),
                widths@.len() == order@.len(),
                forall|k3: int|
                    0 <= k3 < order@.len() ==> (#[trigger] order@[k3]) < self.cols@.len(),
                m == order@.len(),
                k2 <= m,
            decreases m - k2,
        {
            out.push('|');
            out.push(' ');
            let name = str_to_chars(self.cols[order[k2]].0.as_str());
            render_padded(&mut out, &name, widths[k2]);
            out.push(' ');
            k2 += 1;
        }
        if m > 0 {
            out.push('|');
        }
        out.push('\n');
        render_border(&mut out, &widths, '-');
        let n = self.rows_count();
        let mut row: usize = 0;
        while row < n
            invariant
                self.wf(),
                n == self.nrows(),
                order@.len() == self.cols@.len(),
                widths@.len() == order@.len(),
                forall|k3: int|
                    0 <= k3 < order@.len() ==> (#[trigger] order@[k3]) < self.cols@.len(),
                m == order@.len(),
                row <= n,
            decreases n - row,
        {
            let mut k3: usize = 0;
            while k3 < m
                invariant
                    self.wf(),
                    n == self.nrows(),
                    row < n,
                    order@.len() == self.cols@.len(),
                    widths@.len() == order@.len(),
                    forall|k4: int|
                        0 <= k4 < order@.len() ==> (#[trigger] order@[k4]) < self.cols@.len(),
                    m == order@.len(),
                    k3 <= m,
                decreases m - k3,
            {
                out.push('|');
                out.push(' ');
                proof {
                    assert(self.cols@[order@[k3 as int] as int].1@.len() == self.nrows());
                }
                let cell = str_to_chars(self.cols[order[k3]].1.cell_at(row).as_str());
                render_padded(&mut out, &cell, widths[k3]);
                out.push(' ');
                k3 += 1;
            }
            if m > 0 {
                out.push('|');
            }
            out.push('\n');
            row += 1;
        }
        render_border(&mut out, &widths, '_');
        chars_to_string(&out)
    }
}

/// One frame line: for every column, its width plus three of the frame
/// character.
fn render_border(out: &mut Vec<char>, widths: &Vec<usize>, frame: char)
    ensures
        final(out)@.len() >= old(out)@.len() + 1,
{
    let mut k: usize = 0;
    while k < widths.len()
        invariant
            out@.len() >= old(out)@.len(),
            k <= widths@.len(),
        decreases widths@.len() - k,
    {
        out.push(frame);
        out.push(frame);
        out.push(frame);
        let w = widths[k];
        let mut z: usize = 0;
        while z < w
            invariant
                out@.len() >= old(out)@.len(),
                z <= w,
            decreases w - z,
        {
            out.push(frame);
            z += 1;
        }
        k += 1;
    }
    out.push('\n');
}

/// The text, padded on the right with spaces up to the column width.
fn render_padded(out: &mut Vec<char>, text: &Vec<char>, width: usize)
    ensures
        final(out)@.len() >= old(out)@.len(),
{
    let mut z: usize = 0;
    while z < text.len()
        invariant
            out@.len() >= old(out)@.len(),
            z <= text@.len(),
        decreases text@.len() - z,
    {
        out.push(text[z]);
        z += 1;
    }
    let pad = if width >= text.len() {
        width - text.len()
    } else {
        0
    };
    let mut y: usize = 0;
    while y < pad
        invariant
            out@.len() >= old(out)@.len(),
            y <= pad,
        decreases pad - y,
    {
        out.push(' ');
        y += 1;
    }
}

/// Subtracting a table from itself retains nothing: every key value of a
/// row occurs in the other side's key column, so no row position can be in
/// the retained list.
pub proof fn lemma_diff_with_itself_is_empty(
    key_cells: Seq<Seq<char>>,
    ps: Seq<usize>,
    n: nat,
)
    requires
        key_cells.len() == n,
        forall|i: int| 0 <= i < ps.len() ==> (#[trigger] ps[i]) < n,
        forall|p: int|
            0 <= p < n ==> (contains_pos(ps, p) == !key_cells.contains(key_cells[p])),
    ensures
        ps.len() == 0,
{
    if ps.len() > 0 {
        let p = ps[0];
        assert(contains_pos(ps, p as int)) by {
            assert(ps[0] == p);
        }
        assert(key_cells.contains(key_cells[p as int]));
        assert(false);
    }
}

/// Row `p` belongs to some group: a group key equals its own value.
pub open spec fn has_group(gcells: Seq<Seq<char>>, dps: Seq<usize>, p: int) -> bool {
    exists|g: int| 0 <= g < dps.len() && gcells[(#[trigger] dps[g]) as int] == gcells[p]
}

/// The groups of a grouping cover every row exactly once: each row belongs
/// to the one group keyed by its own value, and no two groups share a key.
pub proof fn lemma_groups_partition(gcells: Seq<Seq<char>>, dps: Seq<usize>)
    requires
        grouped_firsts(gcells, dps),
    ensures
        forall|p: int| 0 <= p < gcells.len() ==> #[trigger] has_group(gcells, dps, p),
        forall|g1: int, g2: int|
            0 <= g1 < g2 < dps.len() ==> gcells[(#[trigger] dps[g1]) as int] != gcells[(
            #[trigger] dps[g2]) as int],
{
    assert forall|p: int| 0 <= p < gcells.len() implies #[trigger] has_group(
        gcells,
        dps,
        p,
    ) by {
        lemma_row_has_group(gcells, dps, p);
    }
    assert forall|g1: int, g2: int| 0 <= g1 < g2 < dps.len() implies gcells[(
    #[trigger] dps[g1]) as int] != gcells[(#[trigger] dps[g2]) as int] by {
        assert(contains_pos(dps, dps[g1] as int)) by {
            assert(dps[g1] == dps[g1]);
        }
        assert(dps[g1] < dps[g2]);
        assert(is_first_occurrence(gcells, dps[g2] as int));
    }
}

/// Every row's value was first seen at the first position of some group.
proof fn lemma_row_has_group(gcells: Seq<Seq<char>>, dps: Seq<usize>, p: int)
    requires
        grouped_firsts(gcells, dps),
        0 <= p < gcells.len(),
    ensures
        has_group(gcells, dps, p),
    decreases p,
{
    if is_first_occurrence(gcells, p) {
        assert(contains_pos(dps, p));
        let g = choose|g: int| 0 <= g < dps.len() && dps[g] == p;
        assert(gcells[dps[g] as int] == gcells[p]);
        assert(has_group(gcells, dps, p));
    } else {
        let q = choose|q: int| 0 <= q < p && gcells[q] == gcells[p];
        lemma_row_has_group(gcells, dps, q);
        let g = choose|g: int|
            0 <= g < dps.len() && gcells[(#[trigger] dps[g]) as int] == gcells[q];
        assert(gcells[dps[g] as int] == gcells[p]);
        assert(has_group(gcells, dps, p));
    }
}

/// The ready-made aggregation strategy: joins a group's raw values with a
/// single separator character.
pub struct JoinCells {
    pub sep: char,
}

impl CellsFn for JoinCells {
    open spec fn spec_apply(&self, vals: Seq<Seq<char>>) -> Seq<char> {
        joined(vals, self.sep)
    }

    fn apply(&self, vals: &Vec<String>) -> (r: String)
        ensures
            r@ == self.spec_apply(vals.deep_view()),
    {
        let mut out: Vec<char> = Vec::new();
        let mut j: usize = 0;
        while j < vals.len()
            invariant
                j <= vals@.len(),
                out@ == joined(vals.deep_view().take(j as int), self.sep),
            decreases vals@.len() - j,
        {
            let ghost pre = out@;
            if j > 0 {
                out.push(self.sep);
            }
            let cs = str_to_chars(vals[j].as_str());
            let mut z: usize = 0;
            while z < cs.len()
                invariant
                    z <= cs@.len(),
                    j > 0 ==> out@ == pre + seq![self.sep] + cs@.take(z as int),
                    j == 0 ==> out@ == pre + cs@.take(z as int),
                decreases cs@.len() - z,
            {
                out.push(cs[z]);
                proof {
                    if j > 0 {
                        assert(out@ =~= pre + seq![self.sep] + cs@.take(z + 1));
                    } else {
                        assert(out@ =~= pre + cs@.take(z + 1));
                    }
                }
                z += 1;
            }
            proof {
                assert(cs@.take(cs@.len() as int) =~= cs@);
                assert(cs@ == vals.deep_view()[j as int]);
                lemma_joined_take(vals.deep_view(), self.sep, j as int);
                assert(out@ == joined(vals.deep_view().take(j + 1), self.sep));
            }
            j += 1;
        }
        proof {
            assert(vals.deep_view().take(vals@.len() as int) =~= vals.deep_view());
        }
        chars_to_string(&out)
    }
}

/// A line joined from clean fields: it carries no newline, trimming leaves
/// it whole, it is non-blank, and splitting it back recovers the fields.
proof fn lemma_clean_line(fields: Seq<Seq<char>>)
    requires
        fields.len() > 0,
        forall|k: int| 0 <= k < fields.len() ==> clean_field(#[trigger] fields[k]),
    ensures
        !joined(fields, '\t').contains('\n'),
        joined(fields, '\t').len() > 0,
        trimmed(joined(fields, '\t')).len() > 0,
        line_fields(joined(fields, '\t')) == fields,
    decreases fields.len(),
{
    let line = joined(fields, '\t');
    lemma_joined_free(fields, '\t', '\n');
    assert forall|k: int| 0 <= k < fields.len() implies !(#[trigger] fields[k]).contains(
        '\t',
    ) by {}
    lemma_split_joined(fields, '\t');
    if fields.len() == 1 {
        assert(line == fields[0]);
        crate::text::lemma_trimmed_identity(line);
    } else {
        crate::text::lemma_joined_cons(fields, '\t');
        assert(line[0] == fields[0][0]) by {
            assert(line == fields[0] + seq!['\t'] + joined(fields.skip(1), '\t'));
        }
        assert(line.len() > 0);
        assert(line[line.len() - 1] == fields.last()[fields.last().len() - 1]) by {
            assert(line == joined(fields.drop_last(), '\t') + seq!['\t'] + fields.last());
            assert(fields.last().len() > 0) by {
                assert(clean_field(fields[fields.len() - 1]));
            }
        }
        assert(clean_field(fields[0]));
        assert(clean_field(fields[fields.len() - 1]));
        crate::text::lemma_trimmed_identity(line);
    }
    assert(line_fields(line) =~~= fields) by {
        assert forall|k: int| 0 <= k < fields.len() implies line_fields(line)[k]
            == fields[k] by {
            assert(split_on(line, '\t')[k] == fields[k]);
            crate::text::lemma_trimmed_identity(fields[k]);
        }
    }
}

/// The non-blank lines from `s` on each contribute exactly their fields.
proof fn lemma_rows_after_all(lines: Seq<Seq<char>>, s: int)
    requires
        0 <= s <= lines.len(),
        forall|q: int| s <= q < lines.len() ==> trimmed(#[trigger] lines[q]).len() > 0,
    ensures
        rows_after(lines, s) == Seq::new(
            (lines.len() - s) as nat,
            |r: int| line_fields(lines[s + r]),
        ),
    decreases lines.len() - s,
{
    if s == lines.len() {
        assert(rows_after(lines, s) =~~= Seq::new(
            (lines.len() - s) as nat,
            |r: int| line_fields(lines[s + r]),
        ));
    } else {
        lemma_rows_after_all(lines, s + 1);
        assert(trimmed(lines[s]).len() > 0);
        assert(rows_after(lines, s) =~~= Seq::new(
            (lines.len() - s) as nat,
            |r: int| line_fields(lines[s + r]),
        ));
    }
}

/// The round trip: serializing a table whose requested names and cells are
/// clean fields, then parsing the text back with no lines skipped, yields a
/// table with identical cell sequences under every requested name, in the
/// same row order. A cell holding a tab, a newline, or surrounding
/// whitespace — or an empty cell — is excluded: the text format cannot
/// carry it unchanged.
pub proof fn lemma_tsv_round_trip(
    tm: TableMap,
    header: Seq<Seq<char>>,
    rows: nat,
    r: Result<Table, TableError>,
)
    requires
        header.len() > 0,
        forall|k1: int, k2: int| 0 <= k1 < k2 < header.len() ==> header[k1] != header[k2],
        forall|k: int| 0 <= k < header.len() ==> clean_field(#[trigger] header[k]),
        forall|k: int|
            0 <= k < header.len() ==> tm.contains_key(#[trigger] header[k]) && tm[header[k]].len()
                == rows,
        forall|k: int, q: int|
            0 <= k < header.len() && 0 <= q < rows ==> clean_field(
                #[trigger] tm[header[k]][q],
            ),
        parse_outcome(joined(tsv_lines(tm, header, rows), '\n'), 0, r),
    ensures
        r matches Ok(t2) && t2.nrows() == rows && forall|k: int|
            0 <= k < header.len() ==> t2@.contains_key(#[trigger] header[k]) && t2@[header[k]]
                == tm[header[k]],
{
    let lines = tsv_lines(tm, header, rows);
    let text = joined(lines, '\n');
    assert(lines.len() == rows + 1);
    assert(lines[0] == joined(header, '\t'));
    assert forall|q: int| 0 <= q < lines.len() implies !(#[trigger] lines[q]).contains('\n')
        && trimmed(lines[q]).len() > 0 && line_fields(lines[q]) == (if q == 0 {
        header
    } else {
        Seq::new(header.len(), |k: int| tm[header[k]][q - 1])
    }) by {
        if q == 0 {
            lemma_clean_line(header);
        } else {
            let fields = Seq::new(header.len(), |k: int| tm[header[k]][q - 1]);
            assert forall|k: int| 0 <= k < fields.len() implies clean_field(
                #[trigger] fields[k],
            ) by {
                assert(fields[k] == tm[header[k]][q - 1]);
            }
            lemma_clean_line(fields);
            assert(lines[q] == joined(fields, '\t'));
        }
    }
    crate::text::lemma_split_joined(lines, '\n');
    assert(split_on(text, '\n') == lines);
    assert(first_nonblank(lines, 0) == 0);
    let hfields = line_fields(lines[0]);
    assert(hfields == header);
    lemma_rows_after_all(lines, 1);
    let rlist = rows_after(lines, 1);
    assert(rlist.len() == rows);
    assert forall|b: int| 0 <= b < rlist.len() implies (#[trigger] rlist[b]).len()
        == header.len() by {
        assert(rlist[b] == line_fields(lines[1 + b]));
        assert(line_fields(lines[1 + b]) == Seq::new(
            header.len(),
            |k: int| tm[header[k]][b],
        ));
    }
    assert(!some_bad_row(rlist, header.len() as int)) by {
        if some_bad_row(rlist, header.len() as int) {
            let b = choose|b: int|
                0 <= b < rlist.len() && (#[trigger] rlist[b]).len() != header.len();
        }
    }
    assert(r matches Ok(t2) && t2.wf() && t2.nrows() == rlist.len() && t2@ == built_map(
        header,
        Seq::new(header.len(), |k: int| Seq::new(rlist.len(), |q: int| rlist[q][k])),
        header.len() as int,
    ));
    let data = Seq::new(header.len(), |k: int| Seq::new(rlist.len(), |q: int| rlist[q][k]));
    lemma_built_map(header, data, header.len() as int);
    let t2 = r->Ok_0;
    assert forall|k: int| 0 <= k < header.len() implies t2@.contains_key(
        #[trigger] header[k],
    ) && t2@[header[k]] == tm[header[k]] by {
        assert forall|l: int| k < l < header.len() implies header[l] != header[k] by {}
        assert(t2@.contains_key(header[k]) && t2@[header[k]] == data[k]);
        assert(data[k] =~= tm[header[k]]) by {
            assert forall|q: int| 0 <= q < rows implies data[k][q] == tm[header[k]][q] by {
                assert(rlist[q] == line_fields(lines[1 + q]));
                assert(rlist[q][k] == tm[header[k]][q]);
            }
        }
    }
}

/// The per-group form of the matching-pair count: one product of counts
/// per distinct probing-side value, taken over the first `g` groups.
pub open spec fn products_upto(
    akey: Seq<Seq<char>>,
    bkey: Seq<Seq<char>>,
    dps: Seq<usize>,
    g: int,
) -> nat
    decreases g,
{
    if g <= 0 {
        0
    } else {
        products_upto(akey, bkey, dps, g - 1) + count_eq(akey, bkey[dps[g - 1] as int])
            * count_eq(bkey, bkey[dps[g - 1] as int])
    }
}

/// Dropping the last probing row lowers exactly one product term: the one
/// for that row's value, by one factor of its left-side count.
proof fn lemma_products_drop_hit(
    akey: Seq<Seq<char>>,
    bkey: Seq<Seq<char>>,
    dps: Seq<usize>,
    gv: int,
    g: int,
)
    requires
        bkey.len() > 0,
        0 <= g <= dps.len(),
        0 <= gv < dps.len(),
        forall|i: int| 0 <= i < dps.len() ==> (#[trigger] dps[i]) < bkey.len() - 1,
        bkey[dps[gv] as int] == bkey.last(),
        forall|i: int|
            0 <= i < dps.len() && i != gv ==> bkey[(#[trigger] dps[i]) as int] != bkey.last(),
    ensures
        products_upto(akey, bkey, dps, g) == products_upto(akey, bkey.drop_last(), dps, g) + if g
            > gv {
            count_eq(akey, bkey.last())
        } else {
            0nat
        },
    decreases g,
{
    if g > 0 {
        lemma_products_drop_hit(akey, bkey, dps, gv, g - 1);
        let key = bkey[dps[g - 1] as int];
        assert(bkey.drop_last()[dps[g - 1] as int] == key);
        assert(count_eq(bkey, key) == count_eq(bkey.drop_last(), key) + if bkey.last() == key {
            1nat
        } else {
            0nat
        });
        if g - 1 == gv {
            assert(bkey.last() == key);
            let ca = count_eq(akey, key);
            let cb = count_eq(bkey, key);
            let cb2 = count_eq(bkey.drop_last(), key);
            assert(ca * cb == ca * cb2 + ca) by (nonlinear_arith)
                requires
                    cb == cb2 + 1,
            ;
        } else {
            assert(key != bkey.last());
        }
    }
}

/// Dropping the last probing row leaves every product term alone when its
/// value heads no group in the prefix.
proof fn lemma_products_drop_miss(
    akey: Seq<Seq<char>>,
    bkey: Seq<Seq<char>>,
    dps: Seq<usize>,
    g: int,
)
    requires
        bkey.len() > 0,
        0 <= g <= dps.len(),
        forall|i: int| 0 <= i < dps.len() ==> (#[trigger] dps[i]) < bkey.len() - 1,
        forall|i: int|
            0 <= i < dps.len() ==> bkey[(#[trigger] dps[i]) as int] != bkey.last(),
    ensures
        products_upto(akey, bkey, dps, g) == products_upto(akey, bkey.drop_last(), dps, g),
    decreases g,
{
    if g > 0 {
        lemma_products_drop_miss(akey, bkey, dps, g - 1);
        let key = bkey[dps[g - 1] as int];
        assert(bkey.drop_last()[dps[g - 1] as int] == key);
        assert(key != bkey.last());
        assert(count_eq(bkey, key) == count_eq(bkey.drop_last(), key));
    }
}

/// The matching-pair count regrouped by value: it equals the sum, over the
/// distinct values of the probing side in first-occurrence order, of the
/// product of both sides' occurrence counts. A value missing from either
/// side contributes a zero factor.
pub proof fn lemma_match_total_products(
    akey: Seq<Seq<char>>,
    bkey: Seq<Seq<char>>,
    dps: Seq<usize>,
)
    requires
        grouped_firsts(bkey, dps),
    ensures
        match_total(akey, bkey) == products_upto(akey, bkey, dps, dps.len() as int),
    decreases bkey.len(),
{
    lemma_groups_partition(bkey, dps);
    if bkey.len() == 0 {
        if dps.len() > 0 {
            assert(dps[0] < bkey.len());
        }
    } else {
        let b2 = bkey.drop_last();
        let v = bkey.last();
        let last = bkey.len() - 1;
        assert(bkey[last] == v);
        assert forall|i: int| 0 <= i < dps.len() implies is_first_occurrence(
            bkey,
            (#[trigger] dps[i]) as int,
        ) by {
            assert(contains_pos(dps, dps[i] as int)) by {
                assert(dps[i] == dps[i]);
            }
        }
        if is_first_occurrence(bkey, last) {
            assert(contains_pos(dps, last));
            let gv = choose|gv: int| 0 <= gv < dps.len() && dps[gv] == last;
            assert(gv == dps.len() - 1) by {
                if gv < dps.len() - 1 {
                    assert(dps[gv] < dps[dps.len() - 1]);
                    assert(dps[dps.len() - 1] < bkey.len());
                }
            }
            let dps2 = dps.drop_last();
            assert forall|i: int| 0 <= i < dps2.len() implies (#[trigger] dps2[i]) < last by {
                assert(dps2[i] == dps[i]);
                assert(dps[i] < dps[dps.len() - 1]);
            }
            assert(grouped_firsts(b2, dps2)) by {
                assert forall|i: int, j: int|
                    0 <= i < j < dps2.len() implies dps2[i] < dps2[j] by {
                    assert(dps2[i] == dps[i] && dps2[j] == dps[j]);
                }
                assert forall|p: int| 0 <= p < b2.len() implies (contains_pos(dps2, p)
                    == is_first_occurrence(b2, p)) by {
                    assert(is_first_occurrence(b2, p) == is_first_occurrence(bkey, p)) by {
                        assert forall|q: int| 0 <= q < p implies b2[q] == bkey[q] by {}
                        assert(b2[p] == bkey[p]);
                    }
                    if contains_pos(dps2, p) {
                        let i = choose|i: int| 0 <= i < dps2.len() && dps2[i] == p;
                        assert(dps[i] == p);
                        assert(contains_pos(dps, p));
                    }
                    if is_first_occurrence(bkey, p) {
                        assert(contains_pos(dps, p));
                        let i = choose|i: int| 0 <= i < dps.len() && dps[i] == p;
                        assert(i < dps.len() - 1) by {
                            if i == dps.len() - 1 {
                                assert(dps[i] == last);
                            }
                        }
                        assert(dps2[i] == p);
                        assert(contains_pos(dps2, p));
                    }
                }
            }
            lemma_match_total_products(akey, b2, dps2);
            assert(!b2.contains(v)) by {
                if b2.contains(v) {
                    let q = choose|q: int| 0 <= q < b2.len() && b2[q] == v;
                    assert(bkey[q] == v);
                    assert(is_first_occurrence(bkey, last));
                    assert(false);
                }
            }
            lemma_count_absent(b2, v);
            assert(count_eq(bkey, v) == 1);
            assert forall|i: int| 0 <= i < dps2.len() implies bkey[(
            #[trigger] dps2[i]) as int] != v by {
                assert(dps2[i] == dps[i]);
                assert(bkey[dps[i] as int] != bkey[dps[gv] as int]);
            }
            lemma_products_drop_miss(akey, bkey, dps2, dps2.len() as int);
            assert(products_upto(akey, bkey, dps, dps.len() as int) == products_upto(
                akey,
                bkey,
                dps,
                dps.len() - 1,
            ) + count_eq(akey, v) * count_eq(bkey, v));
            assert(products_upto(akey, bkey, dps, dps.len() - 1) == products_upto(
                akey,
                bkey,
                dps2,
                dps2.len() as int,
            )) by {
                lemma_products_shrink(akey, bkey, dps, dps.len() - 1);
            }
        } else {
            let p0 = choose|q: int| 0 <= q < last && bkey[q] == v;
            assert(b2.contains(v)) by {
                assert(b2[p0] == v);
            }
            assert forall|i: int| 0 <= i < dps.len() implies (#[trigger] dps[i]) < last by {
                assert(is_first_occurrence(bkey, dps[i] as int));
                if dps[i] == last {
                    assert(false);
                }
            }
            assert(grouped_firsts(b2, dps)) by {
                assert forall|p: int| 0 <= p < b2.len() implies (contains_pos(dps, p)
                    == is_first_occurrence(b2, p)) by {
                    assert(is_first_occurrence(b2, p) == is_first_occurrence(bkey, p)) by {
                        assert forall|q: int| 0 <= q < p implies b2[q] == bkey[q] by {}
                        assert(b2[p] == bkey[p]);
                    }
                }
            }
            lemma_match_total_products(akey, b2, dps);
            assert(has_group(bkey, dps, last));
            let gv = choose|gv: int|
                0 <= gv < dps.len() && bkey[(#[trigger] dps[gv]) as int] == bkey[last];
            assert forall|i: int|
                0 <= i < dps.len() && i != gv implies bkey[(#[trigger] dps[i]) as int]
                != bkey.last() by {
                if i < gv {
                    assert(bkey[dps[i] as int] != bkey[dps[gv] as int]);
                } else {
                    assert(bkey[dps[gv] as int] != bkey[dps[i] as int]);
                }
            }
            lemma_products_drop_hit(akey, bkey, dps, gv, dps.len() as int);
        }
    }
}

/// A product prefix over fewer groups ignores the dropped group entry.
proof fn lemma_products_shrink(
    akey: Seq<Seq<char>>,
    bkey: Seq<Seq<char>>,
    dps: Seq<usize>,
    g: int,
)
    requires
        0 <= g <= dps.len() - 1,
    ensures
        products_upto(akey, bkey, dps, g) == products_upto(akey, bkey, dps.drop_last(), g),
    decreases g,
{
    if g > 0 {
        lemma_products_shrink(akey, bkey, dps, g - 1);
        assert(dps.drop_last()[g - 1] == dps[g - 1]);
    }
}

} // verus!
