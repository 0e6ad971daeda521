//! Builders that put data values together step by step.

use vstd::prelude::*;
use vstd::string::*;
use crate::data::{Data, DataMap, Lambda};

verus! {

/// What can be turned into an owned string: a `String`, or a string slice.
pub trait StrAllocating: Sized {
    /// The characters of the value.
    spec fn text(&self) -> Seq<char>;

    /// The value as an owned string.
    fn into_string(self) -> (s: String)
        ensures
            s@ == self.text(),
    ;
}

impl StrAllocating for String {
    open spec fn text(&self) -> Seq<char> {
        self@
    }

    fn into_string(self) -> (s: String) {
        self
    }
}

impl<'a> StrAllocating for &'a str {
    open spec fn text(&self) -> Seq<char> {
        (*self)@
    }

    fn into_string(self) -> (s: String) {
        self.to_owned()
    }
}

/// Builds a map of data values.
pub struct MapBuilder {
    data: DataMap,
}

/// Builds a list of data values.
pub struct VecBuilder {
    data: Vec<Data>,
}

impl View for MapBuilder {
    type V = Map<Seq<char>, Data>;

    closed spec fn view(&self) -> Map<Seq<char>, Data> {
        self.data@
    }
}

impl View for VecBuilder {
    type V = Seq<Data>;

    closed spec fn view(&self) -> Seq<Data> {
        self.data@
    }
}

impl MapBuilder {
    /// A builder that holds nothing.
    pub fn new() -> (b: MapBuilder)
        ensures
            b@ == Map::<Seq<char>, Data>::empty(),
    {
        MapBuilder { data: DataMap::new() }
    }

    /// Puts `value` under `key`.
    fn put(self, key: String, value: Data) -> (r: MapBuilder)
        ensures
            r@ == self@.insert(key@, value),
    {
        let mut data = self.data;
        data.insert(key, value);
        MapBuilder { data }
    }

    /// Puts the value `value` under `key`.
    pub fn insert_data<K: StrAllocating>(self, key: K, value: Data) -> (r: MapBuilder)
        ensures
            r@ == self@.insert(key.text(), value),
    {
        self.put(key.into_string(), value)
    }

    /// Puts the string `value` under `key`.
    pub fn insert_str<K: StrAllocating, V: StrAllocating>(self, key: K, value: V) -> (r:
        MapBuilder)
        ensures
            r@ == self@.insert(key.text(), r@[key.text()]),
            r@[key.text()] matches Data::Str(s) && s@ == value.text(),
    {
        self.put(key.into_string(), Data::Str(value.into_string()))
    }

    /// Puts the truth value `value` under `key`.
    pub fn insert_bool<K: StrAllocating>(self, key: K, value: bool) -> (r: MapBuilder)
        ensures
            r@ == self@.insert(key.text(), Data::Bool(value)),
    {
        self.put(key.into_string(), Data::Bool(value))
    }

    /// Puts under `key` the list that `f` builds from an empty builder.
    pub fn insert_vec<K: StrAllocating, F: FnOnce(VecBuilder) -> VecBuilder>(
        self,
        key: K,
        f: F,
    ) -> (r: MapBuilder)
        requires
            forall|b: VecBuilder| b@.len() == 0 ==> call_requires(f, (b,)),
        ensures
            r@ == self@.insert(key.text(), r@[key.text()]),
            exists|b0: VecBuilder, b1: VecBuilder|
                b0@.len() == 0 && call_ensures(f, (b0,), b1) && (r@[key.text()] matches Data::Vec(
                    v,
                ) && v@ == b1@),
    {
        let start = VecBuilder::new();
        let builder = f(start);
        let ghost built = builder;
        let value = builder.build();
        let r = self.put(key.into_string(), value);
        assert(call_ensures(f, (start,), built) && (r@[key.text()] matches Data::Vec(v) && v@
            == built@));
        r
    }

    /// Puts under `key` the map that `f` builds from an empty builder.
    pub fn insert_map<K: StrAllocating, F: FnOnce(MapBuilder) -> MapBuilder>(
        self,
        key: K,
        f: F,
    ) -> (r: MapBuilder)
        requires
            forall|b: MapBuilder| b@ == Map::<Seq<char>, Data>::empty() ==> call_requires(f, (b,)),
        ensures
            r@ == self@.insert(key.text(), r@[key.text()]),
            exists|b0: MapBuilder, b1: MapBuilder|
                b0@ == Map::<Seq<char>, Data>::empty() && call_ensures(f, (b0,), b1) && (r@[key.text()] matches Data::Dict(
                    m,
                ) && m@ == b1@),
    {
        let start = MapBuilder::new();
        let builder = f(start);
        let ghost built = builder;
        let value = builder.build();
        let r = self.put(key.into_string(), value);
        assert(call_ensures(f, (start,), built) && (r@[key.text()] matches Data::Dict(m) && m@
            == built@));
        r
    }

    /// Puts the callable `f` under `key`.
    pub fn insert_fn<K: StrAllocating, F: FnMut(String) -> String + Send + 'static>(
        self,
        key: K,
        f: F,
    ) -> (r: MapBuilder)
        ensures
            r@ == self@.insert(key.text(), r@[key.text()]),
            r@[key.text()] is Fun,
    {
        self.put(key.into_string(), Data::Fun(Lambda::new(f)))
    }

    /// The map that was built.
    pub fn build(self) -> (d: Data)
        ensures
            d matches Data::Dict(m) && m@ == self@,
    {
        Data::Dict(self.data)
    }
}

impl VecBuilder {
    /// A builder that holds nothing.
    pub fn new() -> (b: VecBuilder)
        ensures
            b@ == Seq::<Data>::empty(),
    {
        VecBuilder { data: Vec::new() }
    }

    /// Adds `value` at the end.
    fn put(self, value: Data) -> (r: VecBuilder)
        ensures
            r@ == self@.push(value),
    {
        let mut data = self.data;
        data.push(value);
        VecBuilder { data }
    }

    /// Adds the value `value`.
    pub fn push_data(self, value: Data) -> (r: VecBuilder)
        ensures
            r@ == self@.push(value),
    {
        self.put(value)
    }

    /// Adds the string `value`.
    pub fn push_str<T: StrAllocating>(self, value: T) -> (r: VecBuilder)
        ensures
            r@ == self@.push(r@.last()),
            r@.last() matches Data::Str(s) && s@ == value.text(),
    {
        self.put(Data::Str(value.into_string()))
    }

    /// Adds the truth value `value`.
    pub fn push_bool(self, value: bool) -> (r: VecBuilder)
        ensures
            r@ == self@.push(Data::Bool(value)),
    {
        self.put(Data::Bool(value))
    }

    /// Adds the list that `f` builds from an empty builder.
    pub fn push_vec<F: FnOnce(VecBuilder) -> VecBuilder>(self, f: F) -> (r: VecBuilder)
        requires
            forall|b: VecBuilder| b@.len() == 0 ==> call_requires(f, (b,)),
        ensures
            r@ == self@.push(r@.last()),
            exists|b0: VecBuilder, b1: VecBuilder|
                b0@.len() == 0 && call_ensures(f, (b0,), b1) && (r@.last() matches Data::Vec(v)
                    && v@ == b1@),
    {
        let start = VecBuilder::new();
        let builder = f(start);
        let ghost built = builder;
        let value = builder.build();
        let r = self.put(value);
        assert(call_ensures(f, (start,), built) && (r@.last() matches Data::Vec(v) && v@
            == built@));
        r
    }

    /// Adds the map that `f` builds from an empty builder.
    pub fn push_map<F: FnOnce(MapBuilder) -> MapBuilder>(self, f: F) -> (r: VecBuilder)
        requires
            forall|b: MapBuilder| b@ == Map::<Seq<char>, Data>::empty() ==> call_requires(f, (b,)),
        ensures
            r@ == self@.push(r@.last()),
            exists|b0: MapBuilder, b1: MapBuilder|
                b0@ == Map::<Seq<char>, Data>::empty() && call_ensures(f, (b0,), b1) && (
                r@.last() matches Data::Dict(m) && m@ == b1@),
    {
        let start = MapBuilder::new();
        let builder = f(start);
        let ghost built = builder;
        let value = builder.build();
        let r = self.put(value);
        assert(call_ensures(f, (start,), built) && (r@.last() matches Data::Dict(m) && m@
            == built@));
        r
    }

    /// Adds the callable `f`.
    pub fn push_fn<F: FnMut(String) -> String + Send + 'static>(self, f: F) -> (r: VecBuilder)
        ensures
            r@ == self@.push(r@.last()),
            r@.last() is Fun,
    {
        self.put(Data::Fun(Lambda::new(f)))
    }

    /// The list that was built.
    pub fn build(self) -> (d: Data)
        ensures
            d matches Data::Vec(v) && v@ == self@,
    {
        Data::Vec(self.data)
    }
}

} // verus!
