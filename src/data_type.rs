//! Decoded values.
use crate::basic::{Int96, PhysicalType};
use crate::memory::Buffer;
use vstd::prelude::*;

verus! {

/// A variable-length run of bytes, held as a shared sub-range of a page.
#[derive(Debug)]
pub struct ByteArray {
    data: Buffer,
}

impl View for ByteArray {
    type V = Seq<u8>;

    closed spec fn view(&self) -> Seq<u8> {
        self.data@
    }
}

impl ByteArray {
    pub fn new(data: Buffer) -> (r: ByteArray)
        ensures
            r@ == data@,
    {
        ByteArray { data }
    }

    pub fn from_vec(v: Vec<u8>) -> (r: ByteArray)
        ensures
            r@ == v@,
    {
        ByteArray { data: Buffer::new(v) }
    }

    pub fn len(&self) -> (r: usize)
        ensures
            r == self@.len(),
    {
        self.data.len()
    }

    pub fn get(&self, i: usize) -> (r: u8)
        requires
            i < self@.len(),
        ensures
            r == self@[i as int],
    {
        self.data.get(i)
    }

    /// A copy of the bytes.
    pub fn data(&self) -> (r: Vec<u8>)
        ensures
            r@ == self@,
    {
        self.data.to_vec()
    }

    /// Another handle on the same bytes.
    pub fn share(&self) -> (r: ByteArray)
        ensures
            r@ == self@,
    {
        ByteArray { data: self.data.all() }
    }
}

/// A value of any physical type. Floating-point values are kept as their
/// IEEE-754 bit patterns.
#[derive(Debug, PartialEq)]
pub enum Value {
    Bool(bool),
    Int32(i32),
    Int64(i64),
    Int96(Int96),
    Float(u32),
    Double(u64),
    Bytes(ByteArray),
}

impl PartialEq for ByteArray {
    /// Byte arrays are equal when they hold the same bytes.
    fn eq(&self, other: &ByteArray) -> (r: bool) {
        let n = self.len();
        if n != other.len() {
            return false;
        }
        let mut i: usize = 0;
        while i < n
            invariant
                n == self@.len() == other@.len(),
                i <= n,
                self@.take(i as int) == other@.take(i as int),
            decreases n - i,
        {
            if self.get(i) != other.get(i) {
                return false;
            }
            i = i + 1;
            assert(self@.take(i as int) =~= other@.take(i as int)) by {
                assert(self@.take(i as int) =~= self@.take(i - 1).push(self@[i - 1]));
                assert(other@.take(i as int) =~= other@.take(i - 1).push(other@[i - 1]));
            }
        }
        assert(self@ =~= self@.take(n as int));
        assert(other@ =~= other@.take(n as int));
        true
    }
}

impl vstd::std_specs::cmp::PartialEqSpecImpl for ByteArray {
    open spec fn obeys_eq_spec() -> bool {
        true
    }

    open spec fn eq_spec(&self, other: &ByteArray) -> bool {
        self@ == other@
    }
}

impl Eq for ByteArray {

}

/// The mathematical content of a `Value`.
pub enum ValueView {
    Bool(bool),
    Int32(i32),
    Int64(i64),
    Int96(Int96),
    Float(u32),
    Double(u64),
    Bytes(Seq<u8>),
}

impl View for Value {
    type V = ValueView;

    open spec fn view(&self) -> ValueView {
        match self {
            Value::Bool(b) => ValueView::Bool(*b),
            Value::Int32(x) => ValueView::Int32(*x),
            Value::Int64(x) => ValueView::Int64(*x),
            Value::Int96(x) => ValueView::Int96(*x),
            Value::Float(x) => ValueView::Float(*x),
            Value::Double(x) => ValueView::Double(*x),
            Value::Bytes(b) => ValueView::Bytes(b@),
        }
    }
}

/// The views of a sequence of values.
pub open spec fn views(s: Seq<Value>) -> Seq<ValueView> {
    s.map_values(|v: Value| v@)
}

/// `v` is a value of physical type `t`; fixed-length byte arrays are
/// `type_length` bytes long.
pub open spec fn has_type(v: ValueView, t: PhysicalType, type_length: i32) -> bool {
    match t {
        PhysicalType::BOOLEAN => v is Bool,
        PhysicalType::INT32 => v is Int32,
        PhysicalType::INT64 => v is Int64,
        PhysicalType::INT96 => v is Int96,
        PhysicalType::FLOAT => v is Float,
        PhysicalType::DOUBLE => v is Double,
        PhysicalType::BYTE_ARRAY => v is Bytes,
        PhysicalType::FIXED_LEN_BYTE_ARRAY => v matches ValueView::Bytes(b) && b.len()
            == type_length,
    }
}

/// Every value of `s` is of physical type `t`.
pub open spec fn all_typed(s: Seq<ValueView>, t: PhysicalType, type_length: i32) -> bool {
    forall|i: int| 0 <= i < s.len() ==> #[trigger] has_type(s[i], t, type_length)
}

impl Value {
    /// A value with the same content; byte arrays share their bytes.
    pub fn duplicate(&self) -> (r: Value)
        ensures
            r@ == self@,
    {
        match self {
            Value::Bool(b) => Value::Bool(*b),
            Value::Int32(x) => Value::Int32(*x),
            Value::Int64(x) => Value::Int64(*x),
            Value::Int96(x) => Value::Int96(*x),
            Value::Float(x) => Value::Float(*x),
            Value::Double(x) => Value::Double(*x),
            Value::Bytes(b) => Value::Bytes(b.share()),
        }
    }
}

} // verus!
