//! The values that a template is rendered against.

use vstd::prelude::*;
use vstd::string::*;
use std::cell::RefCell;
use crate::text::str_eq;

verus! {

/// A callable from text to text, held by a data value. It may change between
/// calls, so nothing is known of what a call returns.
///
/// Trusted: the struct hides a boxed closure behind a `RefCell`, neither of
/// which the verifier can hold in a field.
#[verifier::external_body]
pub struct Lambda {
    f: RefCell<Box<dyn FnMut(String) -> String + Send>>,
}

impl Lambda {
    /// Wraps a closure.
    ///
    /// Trusted: calls `Box::new` and `RefCell::new` on the closure; nothing is
    /// claimed of the result.
    #[verifier::external_body]
    pub(crate) fn new<F: FnMut(String) -> String + Send + 'static>(f: F) -> (r: Lambda) {
        Lambda { f: RefCell::new(Box::new(f)) }
    }

    /// Calls the closure on `text`.
    ///
    /// Trusted: borrows the cell with `RefCell::borrow_mut` and calls the
    /// closure; nothing is claimed of what it returns. The closure must return,
    /// and must not call itself through this value.
    #[verifier::external_body]
    pub(crate) fn call(&self, text: String) -> (r: String) {
        (self.f.borrow_mut())(text)
    }
}

/// A map from keys to data values, in which no key occurs twice.
pub struct DataMap {
    entries: Vec<(String, Data)>,
}

/// A value that a template can be rendered against.
pub enum Data {
    /// A string.
    Str(String),
    /// A truth value.
    Bool(bool),
    /// A list of values.
    Vec(Vec<Data>),
    /// A map from keys to values.
    Dict(DataMap),
    /// A callable.
    Fun(Lambda),
    /// A value that may be absent.
    Opt(Option<Box<Data>>),
}

/// The first index at which `entries` holds the key `k`, or its length.
pub open spec fn index_of(entries: Seq<(String, Data)>, k: Seq<char>) -> int
    decreases entries.len(),
{
    if entries.len() == 0 {
        0
    } else if entries[0].0@ == k {
        0
    } else {
        1 + index_of(entries.skip(1), k)
    }
}

pub proof fn lemma_index_of(entries: Seq<(String, Data)>, k: Seq<char>, i: int)
    requires
        0 <= i <= entries.len(),
        forall|j: int| 0 <= j < i ==> (#[trigger] entries[j]).0@ != k,
        i < entries.len() ==> entries[i].0@ == k,
    ensures
        index_of(entries, k) == i,
    decreases i,
{
    if i > 0 {
        let t = entries.skip(1);
        assert forall|j: int| 0 <= j < i - 1 implies (#[trigger] t[j]).0@ != k by {
            assert(t[j] == entries[j + 1]);
        }
        if i < entries.len() {
            assert(t[i - 1] == entries[i]);
        }
        lemma_index_of(t, k, i - 1);
    }
}

pub proof fn lemma_index_of_bounds(entries: Seq<(String, Data)>, k: Seq<char>)
    ensures
        0 <= index_of(entries, k) <= entries.len(),
        index_of(entries, k) < entries.len() ==> entries[index_of(entries, k)].0@ == k,
        forall|j: int| 0 <= j < index_of(entries, k) ==> (#[trigger] entries[j]).0@ != k,
    decreases entries.len(),
{
    if entries.len() > 0 && entries[0].0@ != k {
        let t = entries.skip(1);
        lemma_index_of_bounds(t, k);
        assert forall|j: int| 0 <= j < index_of(entries, k) implies (#[trigger] entries[j]).0@
            != k by {
            if j > 0 {
                assert(entries[j] == t[j - 1]);
            }
        }
        if index_of(entries, k) < entries.len() {
            assert(entries[index_of(entries, k)] == t[index_of(t, k)]);
        }
    }
}

/// The keys that `entries` holds.
pub open spec fn keys_of(entries: Seq<(String, Data)>) -> Set<Seq<char>> {
    Set::new(|k: Seq<char>| index_of(entries, k) < entries.len())
}

/// Entries with distinct keys hold as many keys as there are entries.
pub proof fn lemma_keys_len(entries: Seq<(String, Data)>)
    requires
        forall|i: int, j: int|
            0 <= i < entries.len() && 0 <= j < entries.len() && i != j ==> (
            #[trigger] entries[i]).0@ != (#[trigger] entries[j]).0@,
    ensures
        keys_of(entries).finite(),
        keys_of(entries).len() == entries.len(),
    decreases entries.len(),
{
    if entries.len() == 0 {
        assert(keys_of(entries) =~= Set::<Seq<char>>::empty());
    } else {
        let shorter = entries.drop_last();
        let key = entries.last().0@;
        assert forall|i: int, j: int|
            0 <= i < shorter.len() && 0 <= j < shorter.len() && i != j implies (
        #[trigger] shorter[i]).0@ != (#[trigger] shorter[j]).0@ by {
            assert(shorter[i] == entries[i]);
            assert(shorter[j] == entries[j]);
        }
        lemma_keys_len(shorter);
        assert forall|k: Seq<char>| keys_of(entries).contains(k) == keys_of(shorter).insert(
            key,
        ).contains(k) by {
            lemma_index_of_bounds(entries, k);
            lemma_index_of_bounds(shorter, k);
            let a = index_of(entries, k);
            let b = index_of(shorter, k);
            if b < shorter.len() {
                assert(entries[b] == shorter[b]);
                if a >= entries.len() {
                    assert(entries[b].0@ != k);
                }
            }
            if a < entries.len() && k != key {
                assert(a < shorter.len());
                assert(shorter[a] == entries[a]);
                if b >= shorter.len() {
                    assert(shorter[a].0@ != k);
                }
            }
            if k == key && a >= entries.len() {
                assert(entries[entries.len() - 1].0@ != k);
            }
        }
        assert(keys_of(entries) =~= keys_of(shorter).insert(key));
        assert(!keys_of(shorter).contains(key)) by {
            lemma_index_of_bounds(shorter, key);
            let b = index_of(shorter, key);
            if b < shorter.len() {
                assert(shorter[b] == entries[b]);
                assert(entries[b].0@ != entries[entries.len() - 1].0@);
            }
        }
    }
}

impl DataMap {
    #[verifier::type_invariant]
    spec fn unique_keys(self) -> bool {
        forall|i: int, j: int|
            0 <= i < self.entries@.len() && 0 <= j < self.entries@.len() && i != j ==> (
            #[trigger] self.entries@[i]).0@ != (#[trigger] self.entries@[j]).0@
    }

    /// The map that the entries stand for.
    pub closed spec fn view(&self) -> Map<Seq<char>, Data> {
        Map::new(
            |k: Seq<char>| index_of(self.entries@, k) < self.entries@.len(),
            |k: Seq<char>| self.entries@[index_of(self.entries@, k)].1,
        )
    }

    /// The entries, in the order in which their keys were last inserted: a
    /// key that is inserted again moves to the end.
    pub closed spec fn entries(&self) -> Seq<(String, Data)> {
        self.entries@
    }

    /// Every entry is in the map, and the map holds nothing else.
    pub proof fn lemma_entries(&self)
        ensures
            forall|k: Seq<char>| #[trigger]
                self@.contains_key(k) <==> index_of(self.entries(), k) < self.entries().len(),
            forall|k: Seq<char>| #[trigger]
                self@.contains_key(k) ==> self@[k] == self.entries()[index_of(
                    self.entries(),
                    k,
                )].1,
    {
    }

    /// The value of an entry is a smaller value than the map.
    pub proof fn lemma_value_smaller(&self, i: int)
        requires
            0 <= i < self.entries().len(),
        ensures
            decreases_to!(self => self.entries()[i].1),
    {
    }

    /// The empty map.
    pub fn new() -> (m: DataMap)
        ensures
            m@ == Map::<Seq<char>, Data>::empty(),
            m.entries().len() == 0,
    {
        let m = DataMap { entries: Vec::new() };
        assert(m@ =~= Map::<Seq<char>, Data>::empty());
        m
    }

    /// The number of keys.
    pub fn len(&self) -> (n: usize)
        ensures
            n == self.entries().len(),
            self@.dom().finite(),
            n == self@.dom().len(),
    {
        proof {
            use_type_invariant(self);
            lemma_keys_len(self.entries@);
            assert(self@.dom() =~= keys_of(self.entries@));
        }
        self.entries.len()
    }

    /// The position of `key` among the entries, or their number.
    fn position(&self, key: &str) -> (i: usize)
        ensures
            i == index_of(self.entries@, key@),
            i <= self.entries@.len(),
    {
        let mut i: usize = 0;
        while i < self.entries.len()
            invariant
                0 <= i <= self.entries@.len(),
                forall|j: int| 0 <= j < i ==> (#[trigger] self.entries@[j]).0@ != key@,
            decreases self.entries@.len() - i,
        {
            if str_eq(self.entries[i].0.as_str(), key) {
                proof {
                    lemma_index_of(self.entries@, key@, i as int);
                }
                return i;
            }
            i += 1;
        }
        proof {
            lemma_index_of(self.entries@, key@, i as int);
        }
        i
    }

    /// The value under `key`, if the map holds the key.
    pub fn get(&self, key: &str) -> (r: Option<&Data>)
        ensures
            match r {
                Some(v) => self@.contains_key(key@) && *v == self@[key@],
                None => !self@.contains_key(key@),
            },
    {
        let i = self.position(key);
        if i < self.entries.len() {
            Some(&self.entries[i].1)
        } else {
            None
        }
    }

    /// Does the map hold `key`?
    pub fn contains_key(&self, key: &str) -> (r: bool)
        ensures
            r == self@.contains_key(key@),
    {
        let i = self.position(key);
        i < self.entries.len()
    }

    /// The key of the entry at `i`.
    pub fn key_at(&self, i: usize) -> (k: &String)
        requires
            i < self.entries().len(),
        ensures
            *k == self.entries()[i as int].0,
            self@.contains_key(k@),
    {
        proof {
            use_type_invariant(self);
            lemma_index_of(self.entries@, self.entries@[i as int].0@, i as int);
        }
        &self.entries[i].0
    }

    /// The value of the entry at `i`.
    pub fn value_at(&self, i: usize) -> (v: &Data)
        requires
            i < self.entries().len(),
        ensures
            *v == self.entries()[i as int].1,
            *v == self@[self.entries()[i as int].0@],
    {
        proof {
            use_type_invariant(self);
            lemma_index_of(self.entries@, self.entries@[i as int].0@, i as int);
        }
        &self.entries[i].1
    }

    /// Puts `value` under `key`, as the last entry, and returns the value
    /// that was there; the entry that held it is gone.
    pub fn insert(&mut self, key: String, value: Data) -> (r: Option<Data>)
        ensures
            final(self)@ == old(self)@.insert(key@, value),
            final(self).entries() == (if old(self)@.contains_key(key@) {
                old(self).entries().remove(index_of(old(self).entries(), key@))
            } else {
                old(self).entries()
            }).push((key, value)),
            match r {
                Some(v) => old(self)@.contains_key(key@) && v == old(self)@[key@],
                None => !old(self)@.contains_key(key@),
            },
    {
        proof {
            use_type_invariant(&*self);
        }
        let ghost before = self.entries@;
        let i = self.position(key.as_str());
        let mut entries: Vec<(String, Data)> = Vec::new();
        std::mem::swap(&mut entries, &mut self.entries);
        let previous = if i < entries.len() {
            let entry = entries.remove(i);
            Some(entry.1)
        } else {
            None
        };
        let ghost mid = entries@;
        entries.push((key, value));
        proof {
            let after = entries@;
            lemma_index_of_bounds(before, key@);
            assert(mid.len() == after.len() - 1);
            if i < before.len() {
                assert(mid == before.remove(i as int));
                assert(mid.len() == before.len() - 1);
            } else {
                assert(mid == before);
            }
            assert forall|j: int| 0 <= j < after.len() - 1 implies #[trigger] after[j] == before[if j
                < i {
                j
            } else {
                j + 1
            }] by {
                assert(after[j] == mid[j]);
            }
            assert forall|k: Seq<char>| index_of(after, k) < after.len() <==> (k == key@
                || index_of(before, k) < before.len()) by {
                lemma_index_of_bounds(after, k);
                lemma_index_of_bounds(before, k);
                let a = index_of(after, k);
                let b = index_of(before, k);
                if b < before.len() && k != key@ {
                    let b2 = if b < i { b } else { b - 1 };
                    assert(after[b2] == before[b]);
                    if a >= after.len() {
                        assert(after[b2].0@ != k);
                    }
                }
                if a < after.len() && k != key@ {
                    let a2 = if a < i { a } else { a + 1 };
                    assert(after[a] == before[a2]);
                    if b >= before.len() {
                        assert(before[a2].0@ != k);
                    }
                }
                if k == key@ {
                    assert(after[after.len() - 1].0@ == k);
                    if a >= after.len() {
                        assert(after[after.len() - 1].0@ != k);
                    }
                }
            }
            assert forall|k: Seq<char>| index_of(after, k) < after.len() implies after[index_of(
                after,
                k,
            )].1 == (if k == key@ {
                value
            } else {
                before[index_of(before, k)].1
            }) by {
                lemma_index_of_bounds(after, k);
                lemma_index_of_bounds(before, k);
                let a = index_of(after, k);
                let b = index_of(before, k);
                if k == key@ {
                    if a < after.len() - 1 {
                        let a2 = if a < i { a } else { a + 1 };
                        assert(after[a] == before[a2]);
                        assert(before[a2].0@ == key@);
                        assert(a2 == i);
                    }
                } else {
                    let a2 = if a < i { a } else { a + 1 };
                    assert(after[a] == before[a2]);
                    assert(before[a2].0@ == k);
                    assert(before[b].0@ == k);
                    assert(a2 == b);
                }
            }
            assert forall|x: int, y: int|
                0 <= x < after.len() && 0 <= y < after.len() && x != y implies (
            #[trigger] after[x]).0@ != (#[trigger] after[y]).0@ by {
                let x2 = if x < i { x } else { x + 1 };
                let y2 = if y < i { y } else { y + 1 };
                if x < after.len() - 1 {
                    assert(after[x] == before[x2]);
                }
                if y < after.len() - 1 {
                    assert(after[y] == before[y2]);
                }
            }
        }
        self.entries = entries;
        assert(self@ =~= old(self)@.insert(key@, value));
        previous
    }
}

/// Are the two values equal? Strings, truth values, lists and optional
/// values are compared part by part, and maps key by key, whatever the
/// order of their entries. A callable equals no value of another variant;
/// between two callables there is nothing to compare, and the answer is no.
pub open spec fn data_eq(a: Data, b: Data) -> bool
    decreases a,
{
    match a {
        Data::Str(x) => b matches Data::Str(y) && x@ == y@,
        Data::Bool(x) => b matches Data::Bool(y) && x == y,
        Data::Vec(x) => b matches Data::Vec(y) && x@.len() == y@.len() && forall|i: int|
            0 <= i < x@.len() ==> data_eq(#[trigger] x@[i], y@[i]),
        Data::Dict(x) => b matches Data::Dict(y) && (forall|i: int|
            0 <= i < x.entries().len() ==> y@.contains_key((#[trigger] x.entries()[i]).0@)
                && data_eq(x.entries()[i].1, y@[x.entries()[i].0@])) && (forall|j: int|
            0 <= j < y.entries().len() ==> x@.contains_key((#[trigger] y.entries()[j]).0@)),
        Data::Fun(_) => false,
        Data::Opt(x) => b matches Data::Opt(y) && match x {
            None => y is None,
            Some(inner) => y matches Some(other) && data_eq(*inner, *other),
        },
    }
}

/// Holds when comparing the two values part by part sets no callable
/// against another callable.
pub open spec fn comparable(a: Data, b: Data) -> bool
    decreases a,
{
    match a {
        Data::Fun(_) => !(b is Fun),
        Data::Vec(x) => b matches Data::Vec(y) ==> forall|i: int|
            0 <= i < x@.len() && i < y@.len() ==> comparable(#[trigger] x@[i], y@[i]),
        Data::Dict(x) => b matches Data::Dict(y) ==> forall|i: int|
            0 <= i < x.entries().len() && y@.contains_key((#[trigger] x.entries()[i]).0@)
                ==> comparable(x.entries()[i].1, y@[x.entries()[i].0@]),
        Data::Opt(x) => match x {
            None => true,
            Some(inner) => b matches Data::Opt(Some(other)) ==> comparable(*inner, *other),
        },
        _ => true,
    }
}

/// Holds of a value that neither is a callable nor holds one, at any depth.
pub open spec fn fun_free(d: Data) -> bool
    decreases d,
{
    match d {
        Data::Fun(_) => false,
        Data::Vec(v) => forall|i: int| 0 <= i < v@.len() ==> fun_free(#[trigger] v@[i]),
        Data::Dict(m) => forall|i: int|
            0 <= i < m.entries().len() ==> fun_free((#[trigger] m.entries()[i]).1),
        Data::Opt(o) => match o {
            None => true,
            Some(inner) => fun_free(*inner),
        },
        _ => true,
    }
}

/// What separates the parts of a list or map in a description: nothing
/// before the first part, a comma and a space before the others.
pub open spec fn separator(i: int) -> Seq<char> {
    if i > 0 {
        ", "@
    } else {
        Seq::empty()
    }
}

/// The description of a value, for diagnostics: the name of its kind, and
/// in brackets what it holds. A callable is described by three dots.
pub open spec fn describe_spec(d: Data) -> Seq<char>
    decreases d, 0nat,
{
    match d {
        Data::Str(s) => "Str("@ + s@ + ")"@,
        Data::Bool(b) => if b {
            "Bool(true)"@
        } else {
            "Bool(false)"@
        },
        Data::Vec(v) => "Vec(["@ + describe_items(v@, v@.len()) + "])"@,
        Data::Dict(m) => "Map({"@ + describe_entries(m.entries(), m.entries().len()) + "})"@,
        Data::Fun(_) => "Fun(...)"@,
        Data::Opt(o) => match o {
            None => "Opt(None)"@,
            Some(inner) => "Opt(Some("@ + describe_spec(*inner) + "))"@,
        },
    }
}

/// The descriptions of the first `n` of `items`, separated by commas.
pub open spec fn describe_items(items: Seq<Data>, n: nat) -> Seq<char>
    decreases items, n,
{
    if n == 0 || n > items.len() {
        Seq::empty()
    } else {
        describe_items(items, (n - 1) as nat) + separator(n - 1) + describe_spec(items[n - 1])
    }
}

/// The descriptions of the first `n` of `entries`, each a key, a colon and
/// a value, separated by commas.
pub open spec fn describe_entries(entries: Seq<(String, Data)>, n: nat) -> Seq<char>
    decreases entries, n,
{
    if n == 0 || n > entries.len() {
        Seq::empty()
    } else {
        describe_entries(entries, (n - 1) as nat) + separator(n - 1) + entries[n - 1].0@ + ": "@
            + describe_spec(entries[n - 1].1)
    }
}

impl PartialEq for Data {
    /// As [`Data::equals`]; where two callables meet, which that function
    /// leaves out, they count as different.
    fn eq(&self, other: &Data) -> (r: bool) {
        self.same(other)
    }
}

impl vstd::std_specs::cmp::PartialEqSpecImpl for Data {
    open spec fn obeys_eq_spec() -> bool {
        true
    }

    open spec fn eq_spec(&self, other: &Data) -> bool {
        data_eq(*self, *other)
    }
}

impl Data {
    /// Compares two values in which no callable stands against another one;
    /// see [`data_eq`].
    pub fn equals(&self, other: &Data) -> (r: bool)
        requires
            comparable(*self, *other),
        ensures
            r == data_eq(*self, *other),
    {
        self.same(other)
    }

    /// Compares two values, part by part.
    fn same(&self, other: &Data) -> (r: bool)
        ensures
            r == data_eq(*self, *other),
        decreases self,
    {
        match self {
            Data::Str(x) => match other {
                Data::Str(y) => str_eq(x.as_str(), y.as_str()),
                _ => false,
            },
            Data::Bool(x) => match other {
                Data::Bool(y) => *x == *y,
                _ => false,
            },
            Data::Vec(x) => match other {
                Data::Vec(y) => {
                    if x.len() != y.len() {
                        return false;
                    }
                    let mut i: usize = 0;
                    while i < x.len()
                        invariant
                            0 <= i <= x@.len(),
                            x@.len() == y@.len(),
                            *self == Data::Vec(*x),
                            *other == Data::Vec(*y),
                            forall|j: int| 0 <= j < i ==> data_eq(#[trigger] x@[j], y@[j]),
                        decreases x@.len() - i,
                    {
                        assert(decreases_to!(*self => self->Vec_0));
                        if !x[i].same(&y[i]) {
                            return false;
                        }
                        i += 1;
                    }
                    true
                },
                _ => false,
            },
            Data::Dict(x) => match other {
                Data::Dict(y) => {
                    let mut i: usize = 0;
                    while i < x.len()
                        invariant
                            0 <= i <= x.entries().len(),
                            *self == Data::Dict(*x),
                            *other == Data::Dict(*y),
                            forall|j: int|
                                0 <= j < i ==> y@.contains_key((#[trigger] x.entries()[j]).0@)
                                    && data_eq(x.entries()[j].1, y@[x.entries()[j].0@]),
                        decreases x.entries().len() - i,
                    {
                        let key = x.key_at(i);
                        match y.get(key.as_str()) {
                            None => {
                                assert(!y@.contains_key(x.entries()[i as int].0@));
                                assert(self->Dict_0 == *x && other->Dict_0 == *y);
                                assert(data_eq(*self, *other) ==> (forall|i: int|
                                    0 <= i < x.entries().len() ==> y@.contains_key(
                                        (#[trigger] x.entries()[i]).0@,
                                    )));
                                return false;
                            },
                            Some(v) => {
                                proof {
                                    assert(decreases_to!(*self => self->Dict_0));
                                    x.lemma_value_smaller(i as int);
                                }
                                if !x.value_at(i).same(v) {
                                    return false;
                                }
                            },
                        }
                        i += 1;
                    }
                    let mut j: usize = 0;
                    while j < y.len()
                        invariant
                            0 <= j <= y.entries().len(),
                            *self == Data::Dict(*x),
                            *other == Data::Dict(*y),
                            forall|i: int|
                                0 <= i < x.entries().len() ==> y@.contains_key(
                                    (#[trigger] x.entries()[i]).0@,
                                ) && data_eq(x.entries()[i].1, y@[x.entries()[i].0@]),
                            forall|k: int|
                                0 <= k < j ==> x@.contains_key((#[trigger] y.entries()[k]).0@),
                        decreases y.entries().len() - j,
                    {
                        let key = y.key_at(j);
                        if !x.contains_key(key.as_str()) {
                            assert(!x@.contains_key(y.entries()[j as int].0@));
                            assert(self->Dict_0 == *x && other->Dict_0 == *y);
                            assert(data_eq(*self, *other) ==> (forall|j: int|
                                0 <= j < y.entries().len() ==> x@.contains_key(
                                    (#[trigger] y.entries()[j]).0@,
                                )));
                            return false;
                        }
                        j += 1;
                    }
                    true
                },
                _ => false,
            },
            Data::Fun(_) => false,
            Data::Opt(x) => match other {
                Data::Opt(y) => match x {
                    None => y.is_none(),
                    Some(inner) => match y {
                        None => false,
                        Some(o) => (&**inner).same(&**o),
                    },
                },
                _ => false,
            },
        }
    }

    /// Appends the description of this value to `out`.
    fn describe_into(&self, out: &mut String)
        ensures
            final(out)@ == old(out)@ + describe_spec(*self),
        decreases self,
    {
        let ghost before = out@;
        match self {
            Data::Str(s) => {
                out.append("Str(");
                out.append(s.as_str());
                out.append(")");
                assert(out@ =~= before + ("Str("@ + s@ + ")"@));
            },
            Data::Bool(b) => {
                if *b {
                    out.append("Bool(true)");
                } else {
                    out.append("Bool(false)");
                }
            },
            Data::Vec(v) => {
                out.append("Vec([");
                let ghost start = out@;
                let mut i: usize = 0;
                assert(start + Seq::<char>::empty() =~= start);
                while i < v.len()
                    invariant
                        0 <= i <= v@.len(),
                        *self == Data::Vec(*v),
                        out@ == start + describe_items(v@, i as nat),
                    decreases v@.len() - i,
                {
                    let ghost mid = out@;
                    if i > 0 {
                        out.append(", ");
                    }
                    assert(out@ =~= mid + separator(i as int));
                    assert(decreases_to!(*self => self->Vec_0));
                    v[i].describe_into(out);
                    assert(out@ =~= start + (describe_items(v@, i as nat) + separator(i as int)
                        + describe_spec(v@[i as int])));
                    i += 1;
                }
                out.append("])");
                assert(out@ =~= before + ("Vec(["@ + describe_items(v@, v@.len()) + "])"@));
            },
            Data::Dict(m) => {
                out.append("Map({");
                let ghost start = out@;
                let mut i: usize = 0;
                assert(start + Seq::<char>::empty() =~= start);
                while i < m.len()
                    invariant
                        0 <= i <= m.entries().len(),
                        *self == Data::Dict(*m),
                        out@ == start + describe_entries(m.entries(), i as nat),
                    decreases m.entries().len() - i,
                {
                    let ghost mid = out@;
                    if i > 0 {
                        out.append(", ");
                    }
                    assert(out@ =~= mid + separator(i as int));
                    out.append(m.key_at(i).as_str());
                    out.append(": ");
                    proof {
                        assert(decreases_to!(*self => self->Dict_0));
                        m.lemma_value_smaller(i as int);
                    }
                    m.value_at(i).describe_into(out);
                    assert(out@ =~= start + (describe_entries(m.entries(), i as nat) + separator(
                        i as int,
                    ) + m.entries()[i as int].0@ + ": "@ + describe_spec(
                        m.entries()[i as int].1,
                    )));
                    i += 1;
                }
                out.append("})");
                assert(out@ =~= before + ("Map({"@ + describe_entries(
                    m.entries(),
                    m.entries().len(),
                ) + "})"@));
            },
            Data::Fun(_) => {
                out.append("Fun(...)");
            },
            Data::Opt(o) => {
                match o {
                    None => {
                        out.append("Opt(None)");
                    },
                    Some(inner) => {
                        out.append("Opt(Some(");
                        (&**inner).describe_into(out);
                        out.append("))");
                        assert(out@ =~= before + ("Opt(Some("@ + describe_spec(**inner)
                            + "))"@));
                    },
                }
            },
        }
    }

    /// The description of this value, for diagnostics.
    pub fn describe(&self) -> (s: String)
        ensures
            s@ == describe_spec(*self),
    {
        let mut s = String::new();
        self.describe_into(&mut s);
        assert(Seq::<char>::empty() + describe_spec(*self) =~= describe_spec(*self));
        s
    }

    /// Calls the callable that this value holds, if it holds one.
    pub fn call(&self, text: String) -> (r: Option<String>)
        ensures
            r is Some <==> self is Fun,
    {
        match self {
            Data::Fun(f) => Some(f.call(text)),
            _ => None,
        }
    }

    /// Is this value one that an inverted section renders for, and a section
    /// does not: `false`, an empty list, or an absent value?
    pub open spec fn is_falsy(self) -> bool {
        match self {
            Data::Bool(b) => !b,
            Data::Vec(v) => v@.len() == 0,
            Data::Opt(o) => o is None,
            _ => false,
        }
    }
}

} // verus!
