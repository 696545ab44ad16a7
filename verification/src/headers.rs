//! Header fields: an ordered list of name/value pairs in which no name occurs
//! twice.
//!
//! The list is what a response is written from, in the order in which the names
//! were first inserted. Read as a mapping it is what a request is looked up in:
//! a later value for a name replaces the earlier one.

use vstd::prelude::*;
use vstd::std_specs::cmp::PartialEqSpecImpl;

verus! {

/// The model of a header list: pairs of name and value.
pub type Pairs = Seq<(Seq<char>, Seq<char>)>;

/// The index of the first pair of `s` named `name`, or the length of `s` where
/// there is none.
pub open spec fn name_index(s: Pairs, name: Seq<char>) -> nat
    decreases s.len(),
{
    if s.len() > 0 && s[0].0 != name {
        1 + name_index(s.drop_first(), name)
    } else {
        0
    }
}

/// No name occurs twice in `s`.
pub open spec fn distinct_names(s: Pairs) -> bool {
    forall|i: int, j: int| 0 <= i < j < s.len() ==> (#[trigger] s[i]).0 != (#[trigger] s[j]).0
}

/// `s` with `value` under `name`: in the place of the pair that had the name,
/// or at the end.
pub open spec fn put(s: Pairs, name: Seq<char>, value: Seq<char>) -> Pairs {
    let i: nat = name_index(s, name);
    if i < s.len() {
        s.update(i as int, (name, value))
    } else {
        s.push((name, value))
    }
}

/// The value that `s` holds under `name`.
pub open spec fn lookup(s: Pairs, name: Seq<char>) -> Option<Seq<char>> {
    let i: nat = name_index(s, name);
    if i < s.len() {
        Some(s[i as int].1)
    } else {
        None
    }
}

/// `s` read as a mapping from names to values.
pub open spec fn to_map(s: Pairs) -> Map<Seq<char>, Seq<char>> {
    Map::new(|k: Seq<char>| lookup(s, k) is Some, |k: Seq<char>| lookup(s, k)->0)
}

/// `name_index(s, name)` is `n` once the first `n` pairs have other names and
/// the next one, if any, has this one.
pub proof fn lemma_name_index_is(s: Pairs, name: Seq<char>, n: int)
    requires
        0 <= n <= s.len(),
        forall|i: int| 0 <= i < n ==> (#[trigger] s[i]).0 != name,
        n < s.len() ==> s[n].0 == name,
    ensures
        name_index(s, name) == n,
    decreases n,
{
    if n > 0 {
        let t: Pairs = s.drop_first();
        assert(s[0].0 != name);
        assert forall|i: int| 0 <= i < n - 1 implies (#[trigger] t[i]).0 != name by {
            assert(t[i] == s[i + 1]);
        }
        if n - 1 < t.len() {
            assert(t[n - 1] == s[n]);
        }
        lemma_name_index_is(t, name, n - 1);
    }
}

/// What `name_index(s, name)` finds: the first pair with the name, after pairs
/// with other names.
pub proof fn lemma_name_index_bounds(s: Pairs, name: Seq<char>)
    ensures
        name_index(s, name) <= s.len(),
        forall|i: int| 0 <= i < name_index(s, name) ==> (#[trigger] s[i]).0 != name,
        name_index(s, name) < s.len() ==> s[name_index(s, name) as int].0 == name,
    decreases s.len(),
{
    if s.len() > 0 && s[0].0 != name {
        let t: Pairs = s.drop_first();
        lemma_name_index_bounds(t, name);
        assert forall|i: int| 0 <= i < name_index(s, name) implies (#[trigger] s[i]).0
            != name by {
            if i > 0 {
                assert(s[i] == t[i - 1]);
            }
        }
        if name_index(s, name) < s.len() {
            assert(s[name_index(s, name) as int] == t[name_index(t, name) as int]);
        }
    }
}

/// Putting a value keeps the names distinct.
pub proof fn lemma_put_distinct(s: Pairs, name: Seq<char>, value: Seq<char>)
    requires
        distinct_names(s),
    ensures
        distinct_names(put(s, name, value)),
{
    lemma_name_index_bounds(s, name);
    let r: Pairs = put(s, name, value);
    let n: int = name_index(s, name) as int;
    assert forall|i: int, j: int| 0 <= i < j < r.len() implies (#[trigger] r[i]).0 != (
    #[trigger] r[j]).0 by {
        if n < s.len() {
            assert(r[i].0 == s[i].0);
            assert(r[j].0 == s[j].0);
        } else if j < s.len() {
            assert(r[i] == s[i]);
            assert(r[j] == s[j]);
        } else {
            assert(r[i] == s[i]);
        }
    }
}

/// What is looked up after a put: the new value under that name, and under
/// every other name what was there before.
pub proof fn lemma_lookup_put(s: Pairs, name: Seq<char>, value: Seq<char>, other: Seq<char>)
    ensures
        lookup(put(s, name, value), other) == if other == name {
            Some(value)
        } else {
            lookup(s, other)
        },
{
    lemma_name_index_bounds(s, name);
    lemma_name_index_bounds(s, other);
    let r: Pairs = put(s, name, value);
    let n: int = name_index(s, name) as int;
    let m: int = name_index(s, other) as int;
    if other == name {
        assert forall|i: int| 0 <= i < n implies (#[trigger] r[i]).0 != name by {
            assert(r[i] == s[i]);
        }
        lemma_name_index_is(r, name, n);
    } else {
        assert forall|i: int| 0 <= i < m implies (#[trigger] r[i]).0 != other by {
            if i == n {
            } else {
                assert(r[i] == s[i]);
            }
        }
        if m < s.len() {
            assert(m != n);
            assert(r[m] == s[m]);
            lemma_name_index_is(r, other, m);
        } else {
            lemma_name_index_is(r, other, r.len() as int);
        }
    }
}

/// Read as a mapping, a put is an insertion: the last value for a name wins.
pub proof fn lemma_put_is_insert(s: Pairs, name: Seq<char>, value: Seq<char>)
    ensures
        to_map(put(s, name, value)) == to_map(s).insert(name, value),
{
    let a = to_map(put(s, name, value));
    let b = to_map(s).insert(name, value);
    assert forall|k: Seq<char>| #[trigger] a.dom().contains(k) == b.dom().contains(k) by {
        lemma_lookup_put(s, name, value, k);
    }
    assert forall|k: Seq<char>| #[trigger] a.dom().contains(k) implies a[k] == b[k] by {
        lemma_lookup_put(s, name, value, k);
    }
    assert(a =~= b);
}

/// Two fields with different names, put one after the other, stand one
/// after the other, and each is found under its name.
pub proof fn lemma_two_fields(a: Seq<char>, x: Seq<char>, b: Seq<char>, y: Seq<char>)
    requires
        a != b,
    ensures
        put(put(Seq::empty(), a, x), b, y) == seq![(a, x), (b, y)],
        lookup(seq![(a, x), (b, y)], a) == Some(x),
        lookup(seq![(a, x), (b, y)], b) == Some(y),
{
    let e: Pairs = Seq::empty();
    let one: Pairs = put(e, a, x);
    assert(one == seq![(a, x)]);
    lemma_name_index_is(one, b, 1);
    assert(put(one, b, y) == seq![(a, x), (b, y)]);
    lemma_lookup_put(one, b, y, a);
    lemma_lookup_put(one, b, y, b);
    lemma_lookup_put(e, a, x, a);
}

/// Every field of `small` is found in `big`, with its value.
pub open spec fn covers(big: Pairs, small: Pairs) -> bool {
    forall|i: int|
        0 <= i < small.len() ==> lookup(big, (#[trigger] small[i]).0) == Some(small[i].1)
}

/// Every field of a list with distinct names is found in it.
pub proof fn lemma_lookup_own(s: Pairs, i: int)
    requires
        distinct_names(s),
        0 <= i < s.len(),
    ensures
        lookup(s, s[i].0) == Some(s[i].1),
{
    assert forall|j: int| 0 <= j < i implies (#[trigger] s[j]).0 != s[i].0 by {
        assert(s[j].0 != s[i].0);
    }
    lemma_name_index_is(s, s[i].0, i);
}

/// Two lists are the same mapping exactly where each holds the fields of the
/// other.
pub proof fn lemma_same_mapping(a: Pairs, b: Pairs)
    requires
        distinct_names(a),
        distinct_names(b),
    ensures
        (covers(b, a) && covers(a, b)) <==> to_map(a) == to_map(b),
{
    if covers(b, a) && covers(a, b) {
        assert forall|k: Seq<char>| lookup(a, k) == lookup(b, k) by {
            lemma_name_index_bounds(a, k);
            lemma_name_index_bounds(b, k);
            let ia: int = name_index(a, k) as int;
            let ib: int = name_index(b, k) as int;
            if ia < a.len() {
                assert(lookup(b, a[ia].0) == Some(a[ia].1));
            } else if ib < b.len() {
                assert(lookup(a, b[ib].0) == Some(b[ib].1));
            }
        }
        assert forall|k: Seq<char>| #[trigger]
            to_map(a).dom().contains(k) == to_map(b).dom().contains(k) by {
            assert(lookup(a, k) == lookup(b, k));
        }
        assert forall|k: Seq<char>| #[trigger] to_map(a).dom().contains(k) implies to_map(a)[k]
            == to_map(b)[k] by {
            assert(lookup(a, k) == lookup(b, k));
        }
        assert(to_map(a) =~= to_map(b));
    }
    if to_map(a) == to_map(b) {
        assert forall|i: int| 0 <= i < a.len() implies lookup(b, (#[trigger] a[i]).0) == Some(
            a[i].1,
        ) by {
            lemma_lookup_own(a, i);
            assert(to_map(a).dom().contains(a[i].0));
            assert(to_map(b).dom().contains(a[i].0));
            assert(to_map(a)[a[i].0] == to_map(b)[a[i].0]);
        }
        assert forall|i: int| 0 <= i < b.len() implies lookup(a, (#[trigger] b[i]).0) == Some(
            b[i].1,
        ) by {
            lemma_lookup_own(b, i);
            assert(to_map(b).dom().contains(b[i].0));
            assert(to_map(a).dom().contains(b[i].0));
            assert(to_map(a)[b[i].0] == to_map(b)[b[i].0]);
        }
    }
}

/// One header field as a line of text.
pub open spec fn field_line(name: Seq<char>, value: Seq<char>) -> Seq<char> {
    name + ": "@ + value + "\r\n"@
}

/// The header fields as lines, in their order.
pub open spec fn field_lines(h: Pairs) -> Seq<char>
    decreases h.len(),
{
    if h.len() == 0 {
        Seq::empty()
    } else {
        field_line(h[0].0, h[0].1) + field_lines(h.drop_first())
    }
}

/// The lines of a longer list are those of the shorter one and one more.
pub proof fn lemma_field_lines_push(h: Pairs, name: Seq<char>, value: Seq<char>)
    ensures
        field_lines(h.push((name, value))) == field_lines(h) + field_line(name, value),
    decreases h.len(),
{
    let g: Pairs = h.push((name, value));
    if h.len() == 0 {
        assert(g[0] == (name, value));
        assert(g.drop_first() == h);
        assert(field_lines(g) == field_line(name, value) + field_lines(h));
        assert(field_lines(h) + field_line(name, value) == field_line(name, value)
            + field_lines(h));
    } else {
        assert(g.drop_first() == h.drop_first().push((name, value)));
        lemma_field_lines_push(h.drop_first(), name, value);
        assert(g[0] == h[0]);
        assert(field_lines(g) == field_line(h[0].0, h[0].1) + (field_lines(h.drop_first())
            + field_line(name, value)));
    }
}

/// One header field.
#[derive(Debug, Clone, PartialEq, Eq)]
pub struct Header {
    pub name: String,
    pub value: String,
}

impl View for Header {
    type V = (Seq<char>, Seq<char>);

    open spec fn view(&self) -> (Seq<char>, Seq<char>) {
        (self.name@, self.value@)
    }
}

/// Header fields in the order of their first insertion, no name twice. Two
/// values are equal where they hold the same fields, in whatever order.
#[derive(Debug, Eq)]
pub struct Headers {
    entries: Vec<Header>,
}

impl View for Headers {
    type V = Pairs;

    closed spec fn view(&self) -> Pairs {
        Seq::new(self.entries@.len(), |i: int| self.entries@[i]@)
    }
}

impl PartialEq for Headers {
    /// Whether the two hold the same fields, in whatever order.
    fn eq(&self, other: &Headers) -> (r: bool) {
        proof {
            use_type_invariant(self);
            use_type_invariant(other);
            lemma_same_mapping(self@, other@);
        }
        self.within(other) && other.within(self)
    }
}

impl PartialEqSpecImpl for Headers {
    open spec fn obeys_eq_spec() -> bool {
        true
    }

    open spec fn eq_spec(&self, other: &Headers) -> bool {
        self.map() == other.map()
    }
}

impl Clone for Headers {
    fn clone(&self) -> (r: Self)
        ensures
            r@ == self@,
    {
        proof {
            use_type_invariant(self);
        }
        let mut r = Headers::new();
        let mut i: usize = 0;
        while i < self.entries.len()
            invariant
                i <= self.entries@.len(),
                distinct_names(self@),
                r@ == self@.take(i as int),
            decreases self.entries@.len() - i,
        {
            let name: String = self.entries[i].name.clone();
            let value: String = self.entries[i].value.clone();
            proof {
                assert(self@[i as int] == (name@, value@));
                assert forall|k: int| 0 <= k < i implies (#[trigger] r@[k]).0 != name@ by {
                    assert(r@[k] == self@[k]);
                }
                lemma_name_index_is(r@, name@, i as int);
                assert(self@.take(i + 1) == self@.take(i as int).push(self@[i as int]));
            }
            r.insert(name, value);
            i += 1;
        }
        assert(self@.take(i as int) == self@);
        r
    }
}

impl Headers {
    #[verifier::type_invariant]
    spec fn well_formed(self) -> bool {
        distinct_names(self@)
    }

    /// The fields read as a mapping from names to values.
    pub open spec fn map(self) -> Map<Seq<char>, Seq<char>> {
        to_map(self@)
    }

    /// No fields.
    pub fn new() -> (h: Headers)
        ensures
            h@ == Seq::<(Seq<char>, Seq<char>)>::empty(),
    {
        Headers { entries: Vec::new() }
    }

    /// The number of fields. No name occurs twice among them: this holds of
    /// every value of the type.
    pub fn len(&self) -> (n: usize)
        ensures
            n == self@.len(),
            distinct_names(self@),
    {
        proof {
            use_type_invariant(self);
        }
        self.entries.len()
    }

    /// The field at position `i`, in the order of first insertion.
    pub fn entry(&self, i: usize) -> (r: Option<&Header>)
        ensures
            i < self@.len() ==> r is Some && r->0@ == self@[i as int],
            i >= self@.len() ==> r is None,
    {
        if i < self.entries.len() {
            Some(&self.entries[i])
        } else {
            None
        }
    }

    /// The position of the field named `name`, or the number of fields.
    fn find(&self, name: &String) -> (i: usize)
        ensures
            i == name_index(self@, name@),
            i <= self.entries@.len(),
    {
        let mut i: usize = 0;
        while i < self.entries.len()
            invariant
                i <= self.entries@.len(),
                forall|k: int| 0 <= k < i ==> (#[trigger] self@[k]).0 != name@,
            decreases self.entries@.len() - i,
        {
            if self.entries[i].name == *name {
                proof {
                    assert(self@[i as int].0 == name@);
                    lemma_name_index_is(self@, name@, i as int);
                }
                return i;
            }
            assert(self@[i as int].0 != name@);
            i += 1;
        }
        proof {
            lemma_name_index_is(self@, name@, i as int);
        }
        i
    }

    /// Whether every field of `self` is found in `other`, with its value.
    fn within(&self, other: &Headers) -> (r: bool)
        ensures
            r == covers(other@, self@),
    {
        let mut i: usize = 0;
        while i < self.entries.len()
            invariant
                i <= self.entries@.len(),
                forall|k: int|
                    0 <= k < i ==> lookup(other@, (#[trigger] self@[k]).0) == Some(self@[k].1),
            decreases self.entries@.len() - i,
        {
            let j: usize = other.find(&self.entries[i].name);
            if j >= other.entries.len() {
                assert(lookup(other@, self@[i as int].0) is None);
                return false;
            }
            if other.entries[j].value != self.entries[i].value {
                assert(lookup(other@, self@[i as int].0) == Some(other@[j as int].1));
                assert(other@[j as int].1 != self@[i as int].1);
                return false;
            }
            assert(lookup(other@, self@[i as int].0) == Some(self@[i as int].1));
            i += 1;
        }
        true
    }

    /// Sets the field `name` to `value`. A field of that name keeps its place
    /// and takes the new value; a new name goes to the end.
    pub fn insert(&mut self, name: String, value: String)
        ensures
            final(self)@ == put(old(self)@, name@, value@),
            final(self).map() == old(self).map().insert(name@, value@),
    {
        proof {
            use_type_invariant(&*self);
            lemma_put_distinct(self@, name@, value@);
            lemma_put_is_insert(self@, name@, value@);
        }
        let i: usize = self.find(&name);
        let ghost before: Pairs = self@;
        let mut entries: Vec<Header> = Vec::new();
        core::mem::swap(&mut entries, &mut self.entries);
        if i < entries.len() {
            entries[i] = Header { name, value };
        } else {
            entries.push(Header { name, value });
        }
        assert(Seq::new(entries@.len(), |k: int| entries@[k]@) =~= put(before, name@, value@));
        self.entries = entries;
    }

    /// The value of the field named `name`.
    pub fn get(&self, name: &str) -> (r: Option<&String>)
        ensures
            r is Some ==> lookup(self@, name@) == Some(r->0@),
            r is None ==> lookup(self@, name@) is None,
    {
        let key: String = name.to_owned();
        let i: usize = self.find(&key);
        if i < self.entries.len() {
            Some(&self.entries[i].value)
        } else {
            None
        }
    }
}

} // verus!
