//! The encoder: a stack machine that builds a data value from the events of
//! a serialisation.
//!
//! A serialiser walks a host value and reports what it finds: a string, a
//! number, the start of a sequence, an element, and so on. Each report is one
//! call here. Where the serialiser has to walk a part of the value between
//! two halves of a report, the report has a `_begin` and an `_end`.

use vstd::prelude::*;
use vstd::string::*;
use crate::data::{Data, DataMap};
use crate::error::Error;
use crate::text::string_push;

verus! {

/// The stack of values under construction.
pub struct Encoder {
    data: Vec<Data>,
}

/// What the events of the encoder return.
pub type EncoderResult = Result<(), Error>;

/// The character of the decimal digit `d`.
pub open spec fn digit_char(d: nat) -> char {
    if d == 0 {
        '0'
    } else if d == 1 {
        '1'
    } else if d == 2 {
        '2'
    } else if d == 3 {
        '3'
    } else if d == 4 {
        '4'
    } else if d == 5 {
        '5'
    } else if d == 6 {
        '6'
    } else if d == 7 {
        '7'
    } else if d == 8 {
        '8'
    } else {
        '9'
    }
}

/// The decimal digits of `n`, without leading zeros.
pub open spec fn decimal(n: nat) -> Seq<char>
    decreases n,
{
    if n < 10 {
        seq![digit_char(n)]
    } else {
        decimal(n / 10).push(digit_char(n % 10))
    }
}

/// The decimal form of the integer `v`, with a minus sign where it is negative.
pub open spec fn signed_decimal(v: int) -> Seq<char> {
    if v < 0 {
        seq!['-'] + decimal((-v) as nat)
    } else {
        decimal(v as nat)
    }
}

/// The character of the digit `d`.
fn digit(d: u64) -> (c: char)
    requires
        d < 10,
    ensures
        c == digit_char(d as nat),
{
    if d == 0 {
        '0'
    } else if d == 1 {
        '1'
    } else if d == 2 {
        '2'
    } else if d == 3 {
        '3'
    } else if d == 4 {
        '4'
    } else if d == 5 {
        '5'
    } else if d == 6 {
        '6'
    } else if d == 7 {
        '7'
    } else if d == 8 {
        '8'
    } else {
        '9'
    }
}

/// Appends the decimal digits of `n` to `s`.
fn push_decimal(s: &mut String, n: u64)
    ensures
        final(s)@ == old(s)@ + decimal(n as nat),
    decreases n,
{
    if n >= 10 {
        push_decimal(s, n / 10);
    }
    string_push(s, digit(n % 10));
    assert(s@ =~= old(s)@ + decimal(n as nat));
}

/// The decimal form of `n`.
pub fn unsigned_to_string(n: u64) -> (s: String)
    ensures
        s@ == decimal(n as nat),
{
    let mut s = String::new();
    push_decimal(&mut s, n);
    assert(Seq::<char>::empty() + decimal(n as nat) =~= decimal(n as nat));
    s
}

/// The decimal form of `v`.
pub fn signed_to_string(v: i64) -> (s: String)
    ensures
        s@ == signed_decimal(v as int),
{
    let mut s = String::new();
    if v < 0 {
        string_push(&mut s, '-');
        let magnitude: u64 = (-(v + 1)) as u64 + 1;
        push_decimal(&mut s, magnitude);
        assert(s@ =~= seq!['-'] + decimal((-v) as nat));
    } else {
        push_decimal(&mut s, v as u64);
        assert(Seq::<char>::empty() + decimal(v as nat) =~= decimal(v as nat));
    }
    s
}

impl View for Encoder {
    type V = Seq<Data>;

    closed spec fn view(&self) -> Seq<Data> {
        self.data@
    }
}

impl Encoder {
    /// An encoder that holds nothing.
    pub fn new() -> (e: Encoder)
        ensures
            e@ == Seq::<Data>::empty(),
    {
        Encoder { data: Vec::new() }
    }

    /// A unit value: not supported.
    pub fn emit_nil(&mut self) -> (r: EncoderResult)
        ensures
            r == Err::<(), Error>(Error::UnsupportedType),
            final(self)@ == old(self)@,
    {
        Err(Error::UnsupportedType)
    }

    /// An unsigned integer: pushed as the string of its decimal form.
    pub fn emit_usize(&mut self, v: usize) -> (r: EncoderResult)
        ensures
            r is Ok,
            final(self)@ == old(self)@.push(final(self)@.last()),
            final(self)@.last() matches Data::Str(s) && s@ == decimal(v as nat),
    {
        self.emit_u64(v as u64)
    }

    /// An unsigned integer: pushed as the string of its decimal form.
    pub fn emit_u64(&mut self, v: u64) -> (r: EncoderResult)
        ensures
            r is Ok,
            final(self)@ == old(self)@.push(final(self)@.last()),
            final(self)@.last() matches Data::Str(s) && s@ == decimal(v as nat),
    {
        let s = unsigned_to_string(v);
        self.emit_str(s.as_str())
    }

    /// An unsigned integer: pushed as the string of its decimal form.
    pub fn emit_u32(&mut self, v: u32) -> (r: EncoderResult)
        ensures
            r is Ok,
            final(self)@ == old(self)@.push(final(self)@.last()),
            final(self)@.last() matches Data::Str(s) && s@ == decimal(v as nat),
    {
        self.emit_u64(v as u64)
    }

    /// An unsigned integer: pushed as the string of its decimal form.
    pub fn emit_u16(&mut self, v: u16) -> (r: EncoderResult)
        ensures
            r is Ok,
            final(self)@ == old(self)@.push(final(self)@.last()),
            final(self)@.last() matches Data::Str(s) && s@ == decimal(v as nat),
    {
        self.emit_u64(v as u64)
    }

    /// An unsigned integer: pushed as the string of its decimal form.
    pub fn emit_u8(&mut self, v: u8) -> (r: EncoderResult)
        ensures
            r is Ok,
            final(self)@ == old(self)@.push(final(self)@.last()),
            final(self)@.last() matches Data::Str(s) && s@ == decimal(v as nat),
    {
        self.emit_u64(v as u64)
    }

    /// A signed integer: pushed as the string of its decimal form.
    pub fn emit_isize(&mut self, v: isize) -> (r: EncoderResult)
        ensures
            r is Ok,
            final(self)@ == old(self)@.push(final(self)@.last()),
            final(self)@.last() matches Data::Str(s) && s@ == signed_decimal(v as int),
    {
        self.emit_i64(v as i64)
    }

    /// A signed integer: pushed as the string of its decimal form.
    pub fn emit_i64(&mut self, v: i64) -> (r: EncoderResult)
        ensures
            r is Ok,
            final(self)@ == old(self)@.push(final(self)@.last()),
            final(self)@.last() matches Data::Str(s) && s@ == signed_decimal(v as int),
    {
        let s = signed_to_string(v);
        self.emit_str(s.as_str())
    }

    /// A signed integer: pushed as the string of its decimal form.
    pub fn emit_i32(&mut self, v: i32) -> (r: EncoderResult)
        ensures
            r is Ok,
            final(self)@ == old(self)@.push(final(self)@.last()),
            final(self)@.last() matches Data::Str(s) && s@ == signed_decimal(v as int),
    {
        self.emit_i64(v as i64)
    }

    /// A signed integer: pushed as the string of its decimal form.
    pub fn emit_i16(&mut self, v: i16) -> (r: EncoderResult)
        ensures
            r is Ok,
            final(self)@ == old(self)@.push(final(self)@.last()),
            final(self)@.last() matches Data::Str(s) && s@ == signed_decimal(v as int),
    {
        self.emit_i64(v as i64)
    }

    /// A signed integer: pushed as the string of its decimal form.
    pub fn emit_i8(&mut self, v: i8) -> (r: EncoderResult)
        ensures
            r is Ok,
            final(self)@ == old(self)@.push(final(self)@.last()),
            final(self)@.last() matches Data::Str(s) && s@ == signed_decimal(v as int),
    {
        self.emit_i64(v as i64)
    }

    /// A truth value: pushed as it is.
    pub fn emit_bool(&mut self, v: bool) -> (r: EncoderResult)
        ensures
            r is Ok,
            final(self)@ == old(self)@.push(Data::Bool(v)),
    {
        self.data.push(Data::Bool(v));
        Ok(())
    }

    /// A character: pushed as a string of that character.
    pub fn emit_char(&mut self, v: char) -> (r: EncoderResult)
        ensures
            r is Ok,
            final(self)@ == old(self)@.push(final(self)@.last()),
            final(self)@.last() matches Data::Str(s) && s@ == seq![v],
    {
        let mut s = String::new();
        string_push(&mut s, v);
        assert(s@ =~= seq![v]);
        self.data.push(Data::Str(s));
        Ok(())
    }

    /// A string: pushed as it is.
    pub fn emit_str(&mut self, v: &str) -> (r: EncoderResult)
        ensures
            r is Ok,
            final(self)@ == old(self)@.push(final(self)@.last()),
            final(self)@.last() matches Data::Str(s) && s@ == v@,
    {
        self.data.push(Data::Str(v.to_owned()));
        Ok(())
    }

    /// An enumeration: not supported.
    pub fn emit_enum(&mut self) -> (r: EncoderResult)
        ensures
            r == Err::<(), Error>(Error::UnsupportedType),
            final(self)@ == old(self)@,
    {
        Err(Error::UnsupportedType)
    }

    /// A variant of an enumeration: not supported.
    pub fn emit_enum_variant(&mut self) -> (r: EncoderResult)
        ensures
            r == Err::<(), Error>(Error::UnsupportedType),
            final(self)@ == old(self)@,
    {
        Err(Error::UnsupportedType)
    }

    /// An argument of a variant: not supported.
    pub fn emit_enum_variant_arg(&mut self) -> (r: EncoderResult)
        ensures
            r == Err::<(), Error>(Error::UnsupportedType),
            final(self)@ == old(self)@,
    {
        Err(Error::UnsupportedType)
    }

    /// A variant with named fields: not supported.
    pub fn emit_enum_struct_variant(&mut self) -> (r: EncoderResult)
        ensures
            r == Err::<(), Error>(Error::UnsupportedType),
            final(self)@ == old(self)@,
    {
        Err(Error::UnsupportedType)
    }

    /// A field of such a variant: not supported.
    pub fn emit_enum_struct_variant_field(&mut self) -> (r: EncoderResult)
        ensures
            r == Err::<(), Error>(Error::UnsupportedType),
            final(self)@ == old(self)@,
    {
        Err(Error::UnsupportedType)
    }

    /// The start of a struct: an empty map is pushed, which the fields fill.
    pub fn emit_struct(&mut self) -> (r: EncoderResult)
        ensures
            r is Ok,
            final(self)@ == old(self)@.push(final(self)@.last()),
            final(self)@.last() matches Data::Dict(m) && m@ == Map::<Seq<char>, Data>::empty(),
    {
        self.data.push(Data::Dict(DataMap::new()));
        Ok(())
    }

    /// The start of a field: the map on top of the stack is taken off, for
    /// the field's value to be encoded in its place.
    pub fn emit_struct_field_begin(&mut self) -> (r: Result<DataMap, Error>)
        ensures
            match r {
                Ok(m) => old(self)@.len() > 0 && old(self)@.last() == Data::Dict(m)
                    && final(self)@ == old(self)@.drop_last(),
                Err(e) => e == Error::UnsupportedType && (old(self)@.len() == 0 || !(
                old(self)@.last() is Dict)),
            },
    {
        match self.data.pop() {
            Some(Data::Dict(m)) => Ok(m),
            _ => Err(Error::UnsupportedType),
        }
    }

    /// The end of a field: the value on top of the stack is taken off and put
    /// into `m` under `name`, and the map is pushed back.
    pub fn emit_struct_field_end(&mut self, m: DataMap, name: &str) -> (r: EncoderResult)
        ensures
            match r {
                Ok(()) => old(self)@.len() > 0 && final(self)@ == old(self)@.drop_last().push(
                    final(self)@.last(),
                ) && (final(self)@.last() matches Data::Dict(n) && n@ == m@.insert(
                    name@,
                    old(self)@.last(),
                )),
                Err(e) => e == Error::UnsupportedType && old(self)@.len() == 0 && final(self)@
                    == old(self)@,
            },
    {
        let value = match self.data.pop() {
            Some(d) => d,
            None => {
                return Err(Error::UnsupportedType);
            },
        };
        let mut m = m;
        m.insert(name.to_owned(), value);
        self.data.push(Data::Dict(m));
        Ok(())
    }

    /// The start of a tuple: as that of a sequence.
    pub fn emit_tuple(&mut self) -> (r: EncoderResult)
        ensures
            r is Ok,
            final(self)@ == old(self)@.push(final(self)@.last()),
            final(self)@.last() matches Data::Vec(v) && v@.len() == 0,
    {
        self.emit_seq()
    }

    /// The start of an element of a tuple: as that of a sequence.
    pub fn emit_tuple_arg_begin(&mut self) -> (r: Result<Vec<Data>, Error>)
        ensures
            match r {
                Ok(v) => old(self)@.len() > 0 && old(self)@.last() == Data::Vec(v)
                    && final(self)@ == old(self)@.drop_last(),
                Err(e) => e == Error::UnsupportedType && (old(self)@.len() == 0 || !(
                old(self)@.last() is Vec)),
            },
    {
        self.emit_seq_elt_begin()
    }

    /// The end of an element of a tuple: as that of a sequence.
    pub fn emit_tuple_arg_end(&mut self, v: Vec<Data>) -> (r: EncoderResult)
        ensures
            match r {
                Ok(()) => old(self)@.len() > 0 && final(self)@ == old(self)@.drop_last().push(
                    final(self)@.last(),
                ) && (final(self)@.last() matches Data::Vec(w) && w@ == v@.push(
                    old(self)@.last(),
                )),
                Err(e) => e == Error::UnsupportedType && old(self)@.len() == 0 && final(self)@
                    == old(self)@,
            },
    {
        self.emit_seq_elt_end(v)
    }

    /// The start of a tuple struct: as that of a sequence.
    pub fn emit_tuple_struct(&mut self) -> (r: EncoderResult)
        ensures
            r is Ok,
            final(self)@ == old(self)@.push(final(self)@.last()),
            final(self)@.last() matches Data::Vec(v) && v@.len() == 0,
    {
        self.emit_seq()
    }

    /// The start of an element of a tuple struct: as that of a sequence.
    pub fn emit_tuple_struct_arg_begin(&mut self) -> (r: Result<Vec<Data>, Error>)
        ensures
            match r {
                Ok(v) => old(self)@.len() > 0 && old(self)@.last() == Data::Vec(v)
                    && final(self)@ == old(self)@.drop_last(),
                Err(e) => e == Error::UnsupportedType && (old(self)@.len() == 0 || !(
                old(self)@.last() is Vec)),
            },
    {
        self.emit_seq_elt_begin()
    }

    /// The end of an element of a tuple struct: as that of a sequence.
    pub fn emit_tuple_struct_arg_end(&mut self, v: Vec<Data>) -> (r: EncoderResult)
        ensures
            match r {
                Ok(()) => old(self)@.len() > 0 && final(self)@ == old(self)@.drop_last().push(
                    final(self)@.last(),
                ) && (final(self)@.last() matches Data::Vec(w) && w@ == v@.push(
                    old(self)@.last(),
                )),
                Err(e) => e == Error::UnsupportedType && old(self)@.len() == 0 && final(self)@
                    == old(self)@,
            },
    {
        self.emit_seq_elt_end(v)
    }

    /// An optional value: not supported.
    pub fn emit_option(&mut self) -> (r: EncoderResult)
        ensures
            r == Err::<(), Error>(Error::UnsupportedType),
            final(self)@ == old(self)@,
    {
        Err(Error::UnsupportedType)
    }

    /// An absent optional value: not supported.
    pub fn emit_option_none(&mut self) -> (r: EncoderResult)
        ensures
            r == Err::<(), Error>(Error::UnsupportedType),
            final(self)@ == old(self)@,
    {
        Err(Error::UnsupportedType)
    }

    /// A present optional value: not supported.
    pub fn emit_option_some(&mut self) -> (r: EncoderResult)
        ensures
            r == Err::<(), Error>(Error::UnsupportedType),
            final(self)@ == old(self)@,
    {
        Err(Error::UnsupportedType)
    }

    /// The start of a sequence: an empty list is pushed, which the elements fill.
    pub fn emit_seq(&mut self) -> (r: EncoderResult)
        ensures
            r is Ok,
            final(self)@ == old(self)@.push(final(self)@.last()),
            final(self)@.last() matches Data::Vec(v) && v@.len() == 0,
    {
        self.data.push(Data::Vec(Vec::new()));
        Ok(())
    }

    /// The start of an element: the list on top of the stack is taken off,
    /// for the element to be encoded in its place.
    pub fn emit_seq_elt_begin(&mut self) -> (r: Result<Vec<Data>, Error>)
        ensures
            match r {
                Ok(v) => old(self)@.len() > 0 && old(self)@.last() == Data::Vec(v)
                    && final(self)@ == old(self)@.drop_last(),
                Err(e) => e == Error::UnsupportedType && (old(self)@.len() == 0 || !(
                old(self)@.last() is Vec)),
            },
    {
        match self.data.pop() {
            Some(Data::Vec(v)) => Ok(v),
            _ => Err(Error::UnsupportedType),
        }
    }

    /// The end of an element: the value on top of the stack is taken off and
    /// added to `v`, and the list is pushed back.
    pub fn emit_seq_elt_end(&mut self, v: Vec<Data>) -> (r: EncoderResult)
        ensures
            match r {
                Ok(()) => old(self)@.len() > 0 && final(self)@ == old(self)@.drop_last().push(
                    final(self)@.last(),
                ) && (final(self)@.last() matches Data::Vec(w) && w@ == v@.push(
                    old(self)@.last(),
                )),
                Err(e) => e == Error::UnsupportedType && old(self)@.len() == 0 && final(self)@
                    == old(self)@,
            },
    {
        let value = match self.data.pop() {
            Some(d) => d,
            None => {
                return Err(Error::UnsupportedType);
            },
        };
        let mut v = v;
        v.push(value);
        self.data.push(Data::Vec(v));
        Ok(())
    }

    /// The start of a map: an empty map is pushed, which the entries fill.
    pub fn emit_map(&mut self) -> (r: EncoderResult)
        ensures
            r is Ok,
            final(self)@ == old(self)@.push(final(self)@.last()),
            final(self)@.last() matches Data::Dict(m) && m@ == Map::<Seq<char>, Data>::empty(),
    {
        self.data.push(Data::Dict(DataMap::new()));
        Ok(())
    }

    /// The end of a key: the value on top of the stack must be a string.
    pub fn emit_map_elt_key_end(&self) -> (r: EncoderResult)
        ensures
            r == (if self@.len() == 0 {
                Err::<(), Error>(Error::MissingElements)
            } else if self@.last() is Str {
                Ok::<(), Error>(())
            } else {
                Err::<(), Error>(Error::KeyIsNotString)
            }),
    {
        let n = self.data.len();
        if n == 0 {
            return Err(Error::MissingElements);
        }
        match &self.data[n - 1] {
            Data::Str(_) => Ok(()),
            _ => Err(Error::KeyIsNotString),
        }
    }

    /// The start of an entry's value: the key and the map below it are taken
    /// off the stack, for the value to be encoded in their place. A key that
    /// is no string is an error; so is a stack that holds no map below it.
    pub fn emit_map_elt_val_begin(&mut self) -> (r: Result<(String, DataMap), Error>)
        ensures
            match r {
                Ok((k, m)) => old(self)@.len() >= 2 && old(self)@.last() == Data::Str(k)
                    && old(self)@[old(self)@.len() - 2] == Data::Dict(m) && final(self)@
                    == old(self)@.take(old(self)@.len() - 2),
                Err(e) => if old(self)@.len() == 0 || !(old(self)@.last() is Str) {
                    e == Error::KeyIsNotString
                } else {
                    e == Error::UnsupportedType && (old(self)@.len() < 2 || !(
                    old(self)@[old(self)@.len() - 2] is Dict))
                },
            },
    {
        let k = match self.data.pop() {
            Some(Data::Str(s)) => s,
            _ => {
                return Err(Error::KeyIsNotString);
            },
        };
        let m = match self.data.pop() {
            Some(Data::Dict(m)) => m,
            _ => {
                return Err(Error::UnsupportedType);
            },
        };
        assert(self@ =~= old(self)@.take(old(self)@.len() - 2));
        Ok((k, m))
    }

    /// The end of an entry's value: the value on top of the stack is taken
    /// off and put into `m` under `k`, and the map is pushed back.
    pub fn emit_map_elt_val_end(&mut self, k: String, m: DataMap) -> (r: EncoderResult)
        ensures
            match r {
                Ok(()) => old(self)@.len() > 0 && final(self)@ == old(self)@.drop_last().push(
                    final(self)@.last(),
                ) && (final(self)@.last() matches Data::Dict(n) && n@ == m@.insert(
                    k@,
                    old(self)@.last(),
                )),
                Err(e) => e == Error::MissingElements && old(self)@.len() == 0 && final(self)@
                    == old(self)@,
            },
    {
        let value = match self.data.pop() {
            Some(d) => d,
            None => {
                return Err(Error::MissingElements);
            },
        };
        let mut m = m;
        m.insert(k, value);
        self.data.push(Data::Dict(m));
        Ok(())
    }

    /// The value that was encoded: the one value that the stack holds.
    pub fn finish(self) -> (r: Result<Data, Error>)
        ensures
            match r {
                Ok(d) => self@.len() == 1 && d == self@[0],
                Err(e) => e == Error::MissingElements && self@.len() != 1,
            },
    {
        let mut data = self.data;
        if data.len() != 1 {
            return Err(Error::MissingElements);
        }
        match data.pop() {
            Some(d) => Ok(d),
            None => Err(Error::MissingElements),
        }
    }
}

} // verus!
