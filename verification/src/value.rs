//! The scalar cell type: an immutable, cheaply cloneable string value.
//! Equality and ordering are by content, never by identity.

use std::rc::Rc;
use vstd::prelude::*;

verus! {

/// One cell of a column: an immutable piece of text behind a shared-ownership
/// handle, so that duplicating a value never copies the underlying bytes.
#[derive(Debug)]
pub struct Value {
    text: Rc<String>,
}

impl View for Value {
    type V = Seq<char>;

    closed spec fn view(&self) -> Seq<char> {
        self.text@
    }
}

impl DeepView for Value {
    type V = Seq<char>;

    open spec fn deep_view(&self) -> Seq<char> {
        self.view()
    }
}

/// Relies on `Rc::clone`: returns a new handle to the same string.
#[verifier::external_body]
fn rc_text_clone(t: &Rc<String>) -> (r: Rc<String>)
    ensures
        r == *t,
{
    Rc::clone(t)
}

/// Relies on `str::chars` (through `collect`): yields exactly the characters
/// of the string, in order, which is what the string's view consists of.
#[verifier::external_body]
pub fn str_to_chars(s: &str) -> (v: Vec<char>)
    ensures
        v@ == s@,
{
    s.chars().collect()
}

/// Relies on `String::from_iter` over `char`s (through `collect`): builds the
/// string holding exactly the given characters, in order.
#[verifier::external_body]
pub fn chars_to_string(v: &Vec<char>) -> (s: String)
    ensures
        s@ == v@,
{
    v.iter().collect()
}

/// Content equality of two string slices.
pub fn str_eq(a: &str, b: &str) -> (r: bool)
    ensures
        r == (a@ == b@),
{
    let sa = a.to_owned();
    let sb = b.to_owned();
    sa.eq(&sb)
}

/// Strict lexicographic order on character sequences, by code point; for the
/// text of a cell this coincides with byte-wise ordering of its UTF-8 form.
pub open spec fn lex_lt(a: Seq<char>, b: Seq<char>) -> bool
    decreases a.len(),
{
    if b.len() == 0 {
        false
    } else if a.len() == 0 {
        true
    } else if a[0] != b[0] {
        a[0] < b[0]
    } else {
        lex_lt(a.skip(1), b.skip(1))
    }
}

/// Exactly one of `lex_lt(a, b)`, `a == b`, `lex_lt(b, a)` holds.
pub proof fn lemma_lex_trichotomy(a: Seq<char>, b: Seq<char>)
    ensures
        lex_lt(a, b) || lex_lt(b, a) || a == b,
        lex_lt(a, b) ==> !lex_lt(b, a) && a != b,
        lex_lt(b, a) ==> !lex_lt(a, b) && a != b,
    decreases a.len(),
{
    if a.len() == 0 && b.len() == 0 {
        assert(a =~= b);
    } else if a.len() == 0 || b.len() == 0 {
    } else if a[0] != b[0] {
    } else {
        lemma_lex_trichotomy(a.skip(1), b.skip(1));
        if a.skip(1) == b.skip(1) {
            assert forall|i: int| 0 <= i < a.len() implies a[i] == b[i] by {
                if i > 0 {
                    assert(a[i] == a.skip(1)[i - 1]);
                    assert(b[i] == b.skip(1)[i - 1]);
                }
            }
            assert(a =~= b);
        }
    }
}

/// Lexicographic order is transitive.
pub proof fn lemma_lex_transitive(a: Seq<char>, b: Seq<char>, c: Seq<char>)
    requires
        lex_lt(a, b),
        lex_lt(b, c),
    ensures
        lex_lt(a, c),
    decreases a.len(),
{
    if a.len() == 0 {
    } else if b.len() == 0 {
    } else if c.len() == 0 {
    } else {
        if a[0] == b[0] && b[0] == c[0] {
            lemma_lex_transitive(a.skip(1), b.skip(1), c.skip(1));
        }
    }
}

/// Compares the characters of `a` and `b` from position `i` on; the base of
/// the executable lexicographic comparison.
fn cmp_chars_from(a: &Vec<char>, b: &Vec<char>, i: usize) -> (o: i8)
    requires
        i <= a@.len(),
        i <= b@.len(),
    ensures
        (o == -1) == lex_lt(a@.skip(i as int), b@.skip(i as int)),
        (o == 0) == (a@.skip(i as int) == b@.skip(i as int)),
        (o == 1) == lex_lt(b@.skip(i as int), a@.skip(i as int)),
    decreases a@.len() - i,
{
    proof {
        lemma_lex_trichotomy(a@.skip(i as int), b@.skip(i as int));
    }
    if i == a.len() && i == b.len() {
        proof {
            assert(a@.skip(i as int) =~= b@.skip(i as int));
        }
        0
    } else if i == a.len() {
        -1
    } else if i == b.len() {
        1
    } else {
        let ca: char = a[i];
        let cb: char = b[i];
        if ca < cb {
            proof {
                assert(a@.skip(i as int)[0] == a@[i as int]);
                assert(b@.skip(i as int)[0] == b@[i as int]);
            }
            -1
        } else if cb < ca {
            proof {
                assert(a@.skip(i as int)[0] == a@[i as int]);
                assert(b@.skip(i as int)[0] == b@[i as int]);
            }
            1
        } else {
            let o = cmp_chars_from(a, b, i + 1);
            proof {
                assert(a@[i as int] == b@[i as int]);
                assert(a@.skip(i as int)[0] == a@[i as int]);
                assert(b@.skip(i as int)[0] == b@[i as int]);
                assert(a@.skip(i as int).skip(1) =~= a@.skip(i + 1));
                assert(b@.skip(i as int).skip(1) =~= b@.skip(i + 1));
                if a@.skip(i + 1) == b@.skip(i + 1) {
                    assert(a@.skip(i as int) =~= b@.skip(i as int));
                }
                if a@.skip(i as int) == b@.skip(i as int) {
                    assert(a@.skip(i + 1) =~= b@.skip(i + 1));
                }
            }
            o
        }
    }
}

impl Value {
    /// Wraps a string into a cell value.
    pub fn new(text: String) -> (v: Value)
        ensures
            v@ == text@,
    {
        Value { text: Rc::new(text) }
    }

    /// Read access to the underlying text.
    pub fn as_str(&self) -> (s: &str)
        ensures
            s@ == self@,
    {
        self.text.as_str()
    }

    /// A second handle to the same contents; never copies the text.
    pub fn duplicate(&self) -> (v: Value)
        ensures
            v == *self,
    {
        Value { text: rc_text_clone(&self.text) }
    }

    /// Content equality.
    pub fn eq_value(&self, other: &Value) -> (b: bool)
        ensures
            b == (self@ == other@),
    {
        let a: &String = &self.text;
        let c: &String = &other.text;
        a.eq(c)
    }

    /// Strict content ordering, lexicographic by code point.
    pub fn lt_value(&self, other: &Value) -> (b: bool)
        ensures
            b == lex_lt(self@, other@),
    {
        let a = str_to_chars(self.as_str());
        let c = str_to_chars(other.as_str());
        let o = cmp_chars_from(&a, &c, 0);
        proof {
            assert(a@.skip(0) =~= a@);
            assert(c@.skip(0) =~= c@);
        }
        o == -1
    }
}

} // verus!
