//! Character-level text helpers for the tab-delimited format: splitting on
//! a separator, trimming surrounding ASCII whitespace, and joining fields.

use vstd::prelude::*;

verus! {

/// ASCII whitespace, the characters trimmed off a field's ends. Non-ASCII
/// whitespace (a no-break space, say) is deliberately kept: trimming is
/// specified over this fixed set, not over the full Unicode property.
pub open spec fn ws(c: char) -> bool {
    c == ' ' || c == '\t' || c == '\r' || c == '\n' || c == '\u{0B}' || c == '\u{0C}'
}

/// Splitting on `sep`: always at least one field; a separator ends the
/// current field and starts the next.
pub open spec fn split_on(s: Seq<char>, sep: char) -> Seq<Seq<char>>
    decreases s.len(),
{
    if s.len() == 0 {
        seq![Seq::<char>::empty()]
    } else {
        let rest = split_on(s.skip(1), sep);
        if s[0] == sep {
            seq![Seq::<char>::empty()] + rest
        } else {
            seq![seq![s[0]] + rest[0]] + rest.skip(1)
        }
    }
}

/// The text with leading ASCII whitespace removed.
pub open spec fn trim_front(s: Seq<char>) -> Seq<char>
    decreases s.len(),
{
    if s.len() > 0 && ws(s[0]) {
        trim_front(s.skip(1))
    } else {
        s
    }
}

/// The text with trailing ASCII whitespace removed.
pub open spec fn trim_back(s: Seq<char>) -> Seq<char>
    decreases s.len(),
{
    if s.len() > 0 && ws(s.last()) {
        trim_back(s.drop_last())
    } else {
        s
    }
}

/// The text with surrounding ASCII whitespace removed.
pub open spec fn trimmed(s: Seq<char>) -> Seq<char> {
    trim_back(trim_front(s))
}

/// The fields joined with one separator between neighbours.
pub open spec fn joined(fields: Seq<Seq<char>>, sep: char) -> Seq<char>
    decreases fields.len(),
{
    if fields.len() == 0 {
        Seq::empty()
    } else if fields.len() == 1 {
        fields[0]
    } else {
        joined(fields.drop_last(), sep) + seq![sep] + fields.last()
    }
}

/// Splits the characters from position `i` on.
pub fn split_chars_from(v: &Vec<char>, i: usize, sep: char) -> (r: Vec<Vec<char>>)
    requires
        i <= v@.len(),
    ensures
        r.deep_view() == split_on(v@.skip(i as int), sep),
    decreases v@.len() - i,
{
    if i == v.len() {
        let mut r: Vec<Vec<char>> = Vec::new();
        r.push(Vec::new());
        proof {
            assert(v@.skip(i as int) =~= Seq::<char>::empty());
            assert(r.deep_view() =~~= split_on(v@.skip(i as int), sep));
        }
        r
    } else {
        let mut rest = split_chars_from(v, i + 1, sep);
        let ghost spec_rest = split_on(v@.skip(i + 1), sep);
        proof {
            assert(v@.skip(i as int).len() > 0);
            assert(v@.skip(i as int)[0] == v@[i as int]);
            assert(v@.skip(i as int).skip(1) =~= v@.skip(i + 1));
            assert(spec_rest.len() > 0) by {
                lemma_split_nonempty(v@.skip(i + 1), sep);
            }
        }
        if v[i] == sep {
            rest.insert(0, Vec::new());
            proof {
                assert(rest.deep_view() =~~= seq![Seq::<char>::empty()] + spec_rest);
            }
            rest
        } else {
            let first = rest.remove(0);
            let mut nf: Vec<char> = Vec::new();
            nf.push(v[i]);
            let mut tail = first;
            nf.append(&mut tail);
            proof {
                assert(nf@ =~= seq![v@[i as int]] + spec_rest[0]);
            }
            rest.insert(0, nf);
            proof {
                assert(rest.deep_view() =~~= seq![seq![v@[i as int]] + spec_rest[0]]
                    + spec_rest.skip(1));
            }
            rest
        }
    }
}

/// A split has at least one field.
pub proof fn lemma_split_nonempty(s: Seq<char>, sep: char)
    ensures
        split_on(s, sep).len() > 0,
    decreases s.len(),
{
    if s.len() > 0 {
        lemma_split_nonempty(s.skip(1), sep);
    }
}

/// The first position from `i` on that is not whitespace.
fn skip_ws_front(v: &Vec<char>, i: usize) -> (r: usize)
    requires
        i <= v@.len(),
    ensures
        i <= r <= v@.len(),
        v@.skip(r as int) == trim_front(v@.skip(i as int)),
    decreases v@.len() - i,
{
    if i < v.len() {
        let c = v[i];
        if c == ' ' || c == '\t' || c == '\r' || c == '\n' || c == '\u{0B}' || c == '\u{0C}' {
            proof {
                assert(v@.skip(i as int)[0] == v@[i as int]);
                assert(v@.skip(i as int).skip(1) =~= v@.skip(i + 1));
            }
            skip_ws_front(v, i + 1)
        } else {
            proof {
                assert(v@.skip(i as int)[0] == v@[i as int]);
            }
            i
        }
    } else {
        proof {
            assert(v@.skip(i as int) =~= Seq::<char>::empty());
        }
        i
    }
}

/// The end, at most `j` and at least `lo`, of the text once trailing
/// whitespace is dropped.
fn skip_ws_back(v: &Vec<char>, lo: usize, j: usize) -> (r: usize)
    requires
        lo <= j <= v@.len(),
    ensures
        lo <= r <= j,
        v@.subrange(lo as int, r as int) == trim_back(v@.subrange(lo as int, j as int)),
    decreases j - lo,
{
    if j > lo {
        let c = v[j - 1];
        if c == ' ' || c == '\t' || c == '\r' || c == '\n' || c == '\u{0B}' || c == '\u{0C}' {
            proof {
                assert(v@.subrange(lo as int, j as int).last() == v@[j - 1]);
                assert(v@.subrange(lo as int, j as int).drop_last() =~= v@.subrange(
                    lo as int,
                    j - 1,
                ));
            }
            skip_ws_back(v, lo, j - 1)
        } else {
            proof {
                assert(v@.subrange(lo as int, j as int).last() == v@[j - 1]);
            }
            j
        }
    } else {
        proof {
            assert(v@.subrange(lo as int, j as int) =~= Seq::<char>::empty());
        }
        j
    }
}

/// Whether the line holds nothing but whitespace; such lines are skipped
/// by the delimited-text parser, so a carriage return left by a CRLF line
/// ending never counts as data.
pub fn blank_line(line: &Vec<char>) -> (b: bool)
    ensures
        b == (trimmed(line@).len() == 0),
{
    let t = trim_chars(line);
    t.len() == 0
}

/// The characters with surrounding ASCII whitespace removed.
pub fn trim_chars(v: &Vec<char>) -> (r: Vec<char>)
    ensures
        r@ == trimmed(v@),
{
    let start = skip_ws_front(v, 0);
    proof {
        assert(v@.skip(0) =~= v@);
    }
    let end = skip_ws_back(v, start, v.len());
    proof {
        assert(v@.subrange(start as int, v@.len() as int) =~= v@.skip(start as int));
    }
    let mut r: Vec<char> = Vec::new();
    let mut k: usize = start;
    while k < end
        invariant
            start <= k <= end <= v@.len(),
            r@ == v@.subrange(start as int, k as int),
        decreases end - k,
    {
        r.push(v[k]);
        proof {
            assert(r@ =~= v@.subrange(start as int, k + 1));
        }
        k += 1;
    }
    proof {
        assert(r@ == v@.subrange(start as int, end as int));
    }
    r
}

/// A field that survives a round trip through the text format: non-empty,
/// no whitespace at either end, and free of the two delimiters.
pub open spec fn clean_field(f: Seq<char>) -> bool {
    &&& f.len() > 0
    &&& !ws(f[0])
    &&& !ws(f[f.len() - 1])
    &&& !f.contains('\t')
    &&& !f.contains('\n')
}

/// Trimming does not touch a text with non-whitespace ends.
pub proof fn lemma_trimmed_identity(s: Seq<char>)
    requires
        s.len() > 0,
        !ws(s[0]),
        !ws(s[s.len() - 1]),
    ensures
        trimmed(s) == s,
{
    assert(trim_front(s) == s);
    assert(s.last() == s[s.len() - 1]);
    assert(trim_back(s) == s);
}

/// A text without the separator splits into itself alone.
pub proof fn lemma_split_no_sep(s: Seq<char>, sep: char)
    requires
        !s.contains(sep),
    ensures
        split_on(s, sep) == seq![s],
    decreases s.len(),
{
    if s.len() == 0 {
        assert(split_on(s, sep) =~~= seq![s]);
    } else {
        assert(s[0] != sep);
        assert(!s.skip(1).contains(sep)) by {
            if s.skip(1).contains(sep) {
                let i = choose|i: int| 0 <= i < s.skip(1).len() && s.skip(1)[i] == sep;
                assert(s[i + 1] == sep);
            }
        }
        lemma_split_no_sep(s.skip(1), sep);
        assert(split_on(s, sep) =~~= seq![s]) by {
            assert(seq![s[0]] + s.skip(1) =~= s);
        }
    }
}

/// Joining from the front: the first field, a separator, then the rest.
pub proof fn lemma_joined_cons(fields: Seq<Seq<char>>, sep: char)
    requires
        fields.len() >= 2,
    ensures
        joined(fields, sep) == fields[0] + seq![sep] + joined(fields.skip(1), sep),
    decreases fields.len(),
{
    if fields.len() == 2 {
        assert(joined(fields.drop_last(), sep) == fields[0]) by {
            assert(fields.drop_last() =~= seq![fields[0]]);
            assert(joined(seq![fields[0]], sep) == seq![fields[0]][0]);
        }
        assert(joined(fields.skip(1), sep) == fields[1]) by {
            assert(fields.skip(1) =~= seq![fields[1]]);
            assert(joined(seq![fields[1]], sep) == seq![fields[1]][0]);
        }
        assert(fields.last() == fields[1]);
    } else {
        lemma_joined_cons(fields.drop_last(), sep);
        assert(fields.drop_last()[0] == fields[0]);
        assert(fields.drop_last().skip(1) =~= fields.skip(1).drop_last());
        assert(fields.skip(1).last() == fields.last());
        assert(fields.skip(1).len() >= 2);
        assert(joined(fields.skip(1), sep) == joined(fields.skip(1).drop_last(), sep) + seq![
            sep,
        ] + fields.skip(1).last());
        assert(joined(fields, sep) =~= fields[0] + seq![sep] + joined(fields.skip(1), sep));
    }
}

/// Splitting a separator-free prefix off: the prefix is the first field.
pub proof fn lemma_split_front(x: Seq<char>, y: Seq<char>, sep: char)
    requires
        !x.contains(sep),
    ensures
        split_on(x + seq![sep] + y, sep) == seq![x] + split_on(y, sep),
    decreases x.len(),
{
    let s = x + seq![sep] + y;
    if x.len() == 0 {
        assert(s.len() > 0);
        assert(s[0] == sep);
        assert(s.skip(1) =~= y);
        assert(split_on(s, sep) =~~= seq![x] + split_on(y, sep)) by {
            assert(x =~= Seq::<char>::empty());
        }
    } else {
        assert(s[0] == x[0]);
        assert(x[0] != sep);
        assert(!x.skip(1).contains(sep)) by {
            if x.skip(1).contains(sep) {
                let i = choose|i: int| 0 <= i < x.skip(1).len() && x.skip(1)[i] == sep;
                assert(x[i + 1] == sep);
            }
        }
        assert(s.skip(1) =~= x.skip(1) + seq![sep] + y);
        lemma_split_front(x.skip(1), y, sep);
        lemma_split_nonempty(y, sep);
        assert(split_on(s.skip(1), sep) == seq![x.skip(1)] + split_on(y, sep));
        assert(split_on(s.skip(1), sep)[0] == x.skip(1));
        assert(seq![s[0]] + x.skip(1) =~= x);
        assert(split_on(s, sep) =~~= seq![x] + split_on(y, sep)) by {
            assert((seq![x.skip(1)] + split_on(y, sep)).skip(1) =~= split_on(y, sep));
        }
    }
}

/// Splitting inverts joining when no field holds the separator.
pub proof fn lemma_split_joined(fields: Seq<Seq<char>>, sep: char)
    requires
        fields.len() > 0,
        forall|k: int| 0 <= k < fields.len() ==> !(#[trigger] fields[k]).contains(sep),
    ensures
        split_on(joined(fields, sep), sep) == fields,
    decreases fields.len(),
{
    if fields.len() == 1 {
        lemma_split_no_sep(fields[0], sep);
        assert(split_on(joined(fields, sep), sep) =~~= fields);
    } else {
        lemma_joined_cons(fields, sep);
        lemma_split_front(fields[0], joined(fields.skip(1), sep), sep);
        assert forall|k: int| 0 <= k < fields.skip(1).len() implies !(
        #[trigger] fields.skip(1)[k]).contains(sep) by {
            assert(fields.skip(1)[k] == fields[k + 1]);
        }
        lemma_split_joined(fields.skip(1), sep);
        assert(split_on(joined(fields, sep), sep) =~~= fields) by {
            assert((seq![fields[0]] + fields.skip(1)) =~= fields);
        }
    }
}

/// A join of fields free of some other character stays free of it.
pub proof fn lemma_joined_free(fields: Seq<Seq<char>>, sep: char, c: char)
    requires
        c != sep,
        forall|k: int| 0 <= k < fields.len() ==> !(#[trigger] fields[k]).contains(c),
    ensures
        !joined(fields, sep).contains(c),
    decreases fields.len(),
{
    if fields.len() == 0 {
    } else if fields.len() == 1 {
        assert(joined(fields, sep) == fields[0]);
    } else {
        assert forall|k: int| 0 <= k < fields.drop_last().len() implies !(
        #[trigger] fields.drop_last()[k]).contains(c) by {
            assert(fields.drop_last()[k] == fields[k]);
        }
        lemma_joined_free(fields.drop_last(), sep, c);
        let j = joined(fields, sep);
        if j.contains(c) {
            let i = choose|i: int| 0 <= i < j.len() && j[i] == c;
            let a = joined(fields.drop_last(), sep);
            if i < a.len() {
                assert(a[i] == c);
            } else if i == a.len() {
                assert(j[i] == sep);
            } else {
                assert(fields.last()[i - a.len() - 1] == c);
                assert(fields.last().contains(c));
            }
            assert(false);
        }
    }
}

} // verus!
