//! Values that can be kept in a key-value store: how they are written as
//! bytes and read back.
//!
//! Numbers are written in their fixed width, least significant byte first;
//! strings as UTF-8; vectors of values of one fixed width as their values
//! one after the other.

use vstd::bytes::{
    lemma_auto_spec_u128_to_from_le_bytes, lemma_auto_spec_u16_to_from_le_bytes,
    lemma_auto_spec_u32_to_from_le_bytes, lemma_auto_spec_u64_to_from_le_bytes,
    spec_u128_from_le_bytes, spec_u128_to_le_bytes, spec_u16_from_le_bytes, spec_u16_to_le_bytes,
    spec_u32_from_le_bytes, spec_u32_to_le_bytes, spec_u64_from_le_bytes, spec_u64_to_le_bytes,
    u128_from_le_bytes, u128_to_le_bytes, u16_from_le_bytes, u16_to_le_bytes, u32_from_le_bytes,
    u32_to_le_bytes, u64_from_le_bytes, u64_to_le_bytes,
};
use vstd::prelude::*;
use vstd::utf8::{decode_utf8, encode_utf8, valid_utf8};

verus! {

/// The bytes are no value of the type asked for.
#[derive(Copy, Clone, Debug, Default, Eq, Hash, Ord, PartialEq, PartialOrd)]
pub struct ParseError;

/// A key-value store.
pub trait Store {
    /// What goes wrong in the store.
    type Error;

    /// The value kept under `key`.
    fn get<T: StoreValue>(&self, key: &str) -> Result<T, Self::Error>;

    /// Keeps `value` under `key`.
    fn set<T: StoreValue>(&mut self, key: &str, value: &T) -> Result<(), Self::Error>;
}

/// A value that can be written as bytes and read back.
pub trait StoreValue: Clone + Sized {
    /// The bytes that the value is written as.
    spec fn encoded(&self) -> Seq<u8>;

    /// Whether `bytes` are what some value is written as.
    spec fn decodable(bytes: Seq<u8>) -> bool;

    /// The number of bytes that every value is written as, or `None` where
    /// that differs from value to value.
    spec fn width() -> Option<nat>;

    /// The width of the type.
    fn size() -> (r: Option<usize>)
        ensures
            match r {
                Some(w) => Self::width() == Some(w as nat),
                None => Self::width().is_none(),
            },
    ;

    /// Writes the value as bytes.
    fn to_bytes(self) -> (r: Vec<u8>)
        ensures
            r@ == self.encoded(),
    ;

    /// Reads a value from `bytes`: the value that is written as `bytes`,
    /// or an error where there is none.
    fn from_bytes(bytes: &[u8]) -> (r: Result<Self, ParseError>)
        ensures
            match r {
                Ok(v) => v.encoded() == bytes@ && Self::decodable(bytes@),
                Err(_) => !Self::decodable(bytes@),
            },
    ;

    /// A value is written in the width of its type.
    proof fn lemma_width(v: Self)
        ensures
            Self::width() matches Some(w) ==> v.encoded().len() == w,
    ;
}

impl StoreValue for u8 {
    open spec fn encoded(&self) -> Seq<u8> {
        seq![*self]
    }

    open spec fn decodable(bytes: Seq<u8>) -> bool {
        bytes.len() == 1
    }

    open spec fn width() -> Option<nat> {
        Some(1)
    }

    fn size() -> (r: Option<usize>) {
        Some(1)
    }

    fn to_bytes(self) -> (r: Vec<u8>) {
        let mut out: Vec<u8> = Vec::new();
        out.push(self);
        assert(out@ =~= seq![self]);
        out
    }

    fn from_bytes(bytes: &[u8]) -> (r: Result<Self, ParseError>) {
        if bytes.len() == 1 {
            assert(seq![bytes@[0]] =~= bytes@);
            Ok(bytes[0])
        } else {
            Err(ParseError)
        }
    }

    proof fn lemma_width(v: Self) {
    }
}

impl StoreValue for u16 {
    open spec fn encoded(&self) -> Seq<u8> {
        spec_u16_to_le_bytes(*self)
    }

    open spec fn decodable(bytes: Seq<u8>) -> bool {
        bytes.len() == 2
    }

    open spec fn width() -> Option<nat> {
        Some(2)
    }

    fn size() -> (r: Option<usize>) {
        Some(2)
    }

    fn to_bytes(self) -> (r: Vec<u8>) {
        u16_to_le_bytes(self)
    }

    fn from_bytes(bytes: &[u8]) -> (r: Result<Self, ParseError>) {
        if bytes.len() == 2 {
            proof {
                lemma_auto_spec_u16_to_from_le_bytes();
            }
            Ok(u16_from_le_bytes(bytes))
        } else {
            Err(ParseError)
        }
    }

    proof fn lemma_width(v: Self) {
        lemma_auto_spec_u16_to_from_le_bytes();
    }
}

impl StoreValue for u32 {
    open spec fn encoded(&self) -> Seq<u8> {
        spec_u32_to_le_bytes(*self)
    }

    open spec fn decodable(bytes: Seq<u8>) -> bool {
        bytes.len() == 4
    }

    open spec fn width() -> Option<nat> {
        Some(4)
    }

    fn size() -> (r: Option<usize>) {
        Some(4)
    }

    fn to_bytes(self) -> (r: Vec<u8>) {
        u32_to_le_bytes(self)
    }

    fn from_bytes(bytes: &[u8]) -> (r: Result<Self, ParseError>) {
        if bytes.len() == 4 {
            proof {
                lemma_auto_spec_u32_to_from_le_bytes();
            }
            Ok(u32_from_le_bytes(bytes))
        } else {
            Err(ParseError)
        }
    }

    proof fn lemma_width(v: Self) {
        lemma_auto_spec_u32_to_from_le_bytes();
    }
}

impl StoreValue for u64 {
    open spec fn encoded(&self) -> Seq<u8> {
        spec_u64_to_le_bytes(*self)
    }

    open spec fn decodable(bytes: Seq<u8>) -> bool {
        bytes.len() == 8
    }

    open spec fn width() -> Option<nat> {
        Some(8)
    }

    fn size() -> (r: Option<usize>) {
        Some(8)
    }

    fn to_bytes(self) -> (r: Vec<u8>) {
        u64_to_le_bytes(self)
    }

    fn from_bytes(bytes: &[u8]) -> (r: Result<Self, ParseError>) {
        if bytes.len() == 8 {
            proof {
                lemma_auto_spec_u64_to_from_le_bytes();
            }
            Ok(u64_from_le_bytes(bytes))
        } else {
            Err(ParseError)
        }
    }

    proof fn lemma_width(v: Self) {
        lemma_auto_spec_u64_to_from_le_bytes();
    }
}

impl StoreValue for u128 {
    open spec fn encoded(&self) -> Seq<u8> {
        spec_u128_to_le_bytes(*self)
    }

    open spec fn decodable(bytes: Seq<u8>) -> bool {
        bytes.len() == 16
    }

    open spec fn width() -> Option<nat> {
        Some(16)
    }

    fn size() -> (r: Option<usize>) {
        Some(16)
    }

    fn to_bytes(self) -> (r: Vec<u8>) {
        u128_to_le_bytes(self)
    }

    fn from_bytes(bytes: &[u8]) -> (r: Result<Self, ParseError>) {
        if bytes.len() == 16 {
            proof {
                lemma_auto_spec_u128_to_from_le_bytes();
            }
            Ok(u128_from_le_bytes(bytes))
        } else {
            Err(ParseError)
        }
    }

    proof fn lemma_width(v: Self) {
        lemma_auto_spec_u128_to_from_le_bytes();
    }
}

impl StoreValue for i16 {
    /// The number in 2 bytes, least significant first, in two's complement.
    open spec fn encoded(&self) -> Seq<u8> {
        spec_u16_to_le_bytes(*self as u16)
    }

    open spec fn decodable(bytes: Seq<u8>) -> bool {
        bytes.len() == 2
    }

    open spec fn width() -> Option<nat> {
        Some(2)
    }

    fn size() -> (r: Option<usize>) {
        Some(2)
    }

    fn to_bytes(self) -> (r: Vec<u8>) {
        u16_to_le_bytes(#[verifier::truncate] (self as u16))
    }

    fn from_bytes(bytes: &[u8]) -> (r: Result<Self, ParseError>) {
        if bytes.len() == 2 {
            proof {
                lemma_auto_spec_u16_to_from_le_bytes();
            }
            let raw = u16_from_le_bytes(bytes);
            let value = #[verifier::truncate] (raw as i16);
            assert(value as u16 == raw) by (bit_vector)
                requires
                    value == raw as i16,
            ;
            Ok(value)
        } else {
            Err(ParseError)
        }
    }

    proof fn lemma_width(v: Self) {
        lemma_auto_spec_u16_to_from_le_bytes();
    }
}

impl StoreValue for i32 {
    /// The number in 4 bytes, least significant first, in two's complement.
    open spec fn encoded(&self) -> Seq<u8> {
        spec_u32_to_le_bytes(*self as u32)
    }

    open spec fn decodable(bytes: Seq<u8>) -> bool {
        bytes.len() == 4
    }

    open spec fn width() -> Option<nat> {
        Some(4)
    }

    fn size() -> (r: Option<usize>) {
        Some(4)
    }

    fn to_bytes(self) -> (r: Vec<u8>) {
        u32_to_le_bytes(#[verifier::truncate] (self as u32))
    }

    fn from_bytes(bytes: &[u8]) -> (r: Result<Self, ParseError>) {
        if bytes.len() == 4 {
            proof {
                lemma_auto_spec_u32_to_from_le_bytes();
            }
            let raw = u32_from_le_bytes(bytes);
            let value = #[verifier::truncate] (raw as i32);
            assert(value as u32 == raw) by (bit_vector)
                requires
                    value == raw as i32,
            ;
            Ok(value)
        } else {
            Err(ParseError)
        }
    }

    proof fn lemma_width(v: Self) {
        lemma_auto_spec_u32_to_from_le_bytes();
    }
}

impl StoreValue for i64 {
    /// The number in 8 bytes, least significant first, in two's complement.
    open spec fn encoded(&self) -> Seq<u8> {
        spec_u64_to_le_bytes(*self as u64)
    }

    open spec fn decodable(bytes: Seq<u8>) -> bool {
        bytes.len() == 8
    }

    open spec fn width() -> Option<nat> {
        Some(8)
    }

    fn size() -> (r: Option<usize>) {
        Some(8)
    }

    fn to_bytes(self) -> (r: Vec<u8>) {
        u64_to_le_bytes(#[verifier::truncate] (self as u64))
    }

    fn from_bytes(bytes: &[u8]) -> (r: Result<Self, ParseError>) {
        if bytes.len() == 8 {
            proof {
                lemma_auto_spec_u64_to_from_le_bytes();
            }
            let raw = u64_from_le_bytes(bytes);
            let value = #[verifier::truncate] (raw as i64);
            assert(value as u64 == raw) by (bit_vector)
                requires
                    value == raw as i64,
            ;
            Ok(value)
        } else {
            Err(ParseError)
        }
    }

    proof fn lemma_width(v: Self) {
        lemma_auto_spec_u64_to_from_le_bytes();
    }
}

impl StoreValue for i128 {
    /// The number in 16 bytes, least significant first, in two's complement.
    open spec fn encoded(&self) -> Seq<u8> {
        spec_u128_to_le_bytes(*self as u128)
    }

    open spec fn decodable(bytes: Seq<u8>) -> bool {
        bytes.len() == 16
    }

    open spec fn width() -> Option<nat> {
        Some(16)
    }

    fn size() -> (r: Option<usize>) {
        Some(16)
    }

    fn to_bytes(self) -> (r: Vec<u8>) {
        u128_to_le_bytes(#[verifier::truncate] (self as u128))
    }

    fn from_bytes(bytes: &[u8]) -> (r: Result<Self, ParseError>) {
        if bytes.len() == 16 {
            proof {
                lemma_auto_spec_u128_to_from_le_bytes();
            }
            let raw = u128_from_le_bytes(bytes);
            let value = #[verifier::truncate] (raw as i128);
            assert(value as u128 == raw) by (bit_vector)
                requires
                    value == raw as i128,
            ;
            Ok(value)
        } else {
            Err(ParseError)
        }
    }

    proof fn lemma_width(v: Self) {
        lemma_auto_spec_u128_to_from_le_bytes();
    }
}

impl StoreValue for i8 {
    /// The number in one byte, in two's complement.
    open spec fn encoded(&self) -> Seq<u8> {
        seq![*self as u8]
    }

    open spec fn decodable(bytes: Seq<u8>) -> bool {
        bytes.len() == 1
    }

    open spec fn width() -> Option<nat> {
        Some(1)
    }

    fn size() -> (r: Option<usize>) {
        Some(1)
    }

    fn to_bytes(self) -> (r: Vec<u8>) {
        let mut out: Vec<u8> = Vec::new();
        out.push(#[verifier::truncate] (self as u8));
        assert(out@ =~= seq![self as u8]);
        out
    }

    fn from_bytes(bytes: &[u8]) -> (r: Result<Self, ParseError>) {
        if bytes.len() == 1 {
            let raw = bytes[0];
            let value = #[verifier::truncate] (raw as i8);
            assert(value as u8 == raw) by (bit_vector)
                requires
                    value == raw as i8,
            ;
            assert(seq![bytes@[0]] =~= bytes@);
            Ok(value)
        } else {
            Err(ParseError)
        }
    }

    proof fn lemma_width(v: Self) {
    }
}

impl StoreValue for usize {
    /// The number in eight bytes, least significant first, whatever the
    /// width of the machine.
    open spec fn encoded(&self) -> Seq<u8> {
        spec_u64_to_le_bytes(*self as u64)
    }

    open spec fn decodable(bytes: Seq<u8>) -> bool {
        bytes.len() == 8 && spec_u64_from_le_bytes(bytes) <= usize::MAX
    }

    open spec fn width() -> Option<nat> {
        Some(8)
    }

    fn size() -> (r: Option<usize>) {
        Some(8)
    }

    fn to_bytes(self) -> (r: Vec<u8>) {
        u64_to_le_bytes(self as u64)
    }

    fn from_bytes(bytes: &[u8]) -> (r: Result<Self, ParseError>) {
        if bytes.len() == 8 {
            proof {
                lemma_auto_spec_u64_to_from_le_bytes();
            }
            let raw = u64_from_le_bytes(bytes);
            if raw <= usize::MAX as u64 {
                Ok(raw as usize)
            } else {
                Err(ParseError)
            }
        } else {
            Err(ParseError)
        }
    }

    proof fn lemma_width(v: Self) {
        lemma_auto_spec_u64_to_from_le_bytes();
    }
}

impl StoreValue for isize {
    /// The number in eight bytes, least significant first, in two's
    /// complement, whatever the width of the machine.
    open spec fn encoded(&self) -> Seq<u8> {
        spec_u64_to_le_bytes((*self as i64) as u64)
    }

    open spec fn decodable(bytes: Seq<u8>) -> bool {
        bytes.len() == 8 && isize::MIN <= (spec_u64_from_le_bytes(bytes) as i64) <= isize::MAX
    }

    open spec fn width() -> Option<nat> {
        Some(8)
    }

    fn size() -> (r: Option<usize>) {
        Some(8)
    }

    fn to_bytes(self) -> (r: Vec<u8>) {
        let wide = self as i64;
        u64_to_le_bytes(#[verifier::truncate] (wide as u64))
    }

    fn from_bytes(bytes: &[u8]) -> (r: Result<Self, ParseError>) {
        if bytes.len() == 8 {
            proof {
                lemma_auto_spec_u64_to_from_le_bytes();
            }
            let raw = u64_from_le_bytes(bytes);
            let wide = #[verifier::truncate] (raw as i64);
            assert(wide as u64 == raw) by (bit_vector)
                requires
                    wide == raw as i64,
            ;
            if isize::MIN as i64 <= wide && wide <= isize::MAX as i64 {
                Ok(wide as isize)
            } else {
                Err(ParseError)
            }
        } else {
            Err(ParseError)
        }
    }

    proof fn lemma_width(v: Self) {
        lemma_auto_spec_u64_to_from_le_bytes();
    }
}

/// `String::from_utf8`: the string that the bytes spell in UTF-8, or
/// `None` where they spell none.
#[verifier::external_body]
fn string_from_utf8(bytes: &[u8]) -> (r: Option<String>)
    ensures
        match r {
            Some(s) => valid_utf8(bytes@) && s@ == decode_utf8(bytes@),
            None => !valid_utf8(bytes@),
        },
{
    String::from_utf8(bytes.to_vec()).ok()
}

impl StoreValue for String {
    open spec fn encoded(&self) -> Seq<u8> {
        encode_utf8(self@)
    }

    open spec fn decodable(bytes: Seq<u8>) -> bool {
        valid_utf8(bytes)
    }

    open spec fn width() -> Option<nat> {
        None
    }

    fn size() -> (r: Option<usize>) {
        None
    }

    fn to_bytes(self) -> (r: Vec<u8>) {
        vstd::slice::slice_to_vec(self.as_str().as_bytes())
    }

    fn from_bytes(bytes: &[u8]) -> (r: Result<Self, ParseError>) {
        match string_from_utf8(bytes) {
            Some(s) => {
                proof {
                    vstd::utf8::decode_utf8_encode_utf8(bytes@);
                }
                Ok(s)
            },
            None => Err(ParseError),
        }
    }

    proof fn lemma_width(v: Self) {
    }
}

/// The values written one after the other.
pub open spec fn joined<T: StoreValue>(values: Seq<T>) -> Seq<u8>
    decreases values.len(),
{
    if values.len() == 0 {
        Seq::empty()
    } else {
        joined(values.drop_last()) + values.last().encoded()
    }
}

/// Whether `bytes` are chunks of `w` bytes, each of which is what some
/// value of the type `T` is written as.
pub open spec fn chunks_decodable<T: StoreValue>(bytes: Seq<u8>, w: nat) -> bool {
    &&& w > 0
    &&& bytes.len() % w == 0
    &&& forall|i: int|
        0 <= i < bytes.len() / w ==> T::decodable(
            #[trigger] bytes.subrange(i * w, i * w + w),
        )
}

impl<T: StoreValue> StoreValue for Vec<T> {
    open spec fn encoded(&self) -> Seq<u8> {
        joined(self@)
    }

    /// Vectors can be read back where their values have one fixed width.
    open spec fn decodable(bytes: Seq<u8>) -> bool {
        match T::width() {
            Some(w) => chunks_decodable::<T>(bytes, w),
            None => false,
        }
    }

    open spec fn width() -> Option<nat> {
        None
    }

    fn size() -> (r: Option<usize>) {
        None
    }

    fn to_bytes(self) -> (r: Vec<u8>) {
        let ghost whole = self@;
        let mut items = self;
        let mut blocks: Vec<Vec<u8>> = Vec::new();
        while items.len() > 0
            invariant
                items@.len() <= whole.len(),
                items@ == whole.take(items@.len() as int),
                blocks@.len() == whole.len() - items@.len(),
                forall|k: int|
                    0 <= k < blocks@.len() ==> (#[trigger] blocks@[k])@ == whole[whole.len()
                        - 1 - k].encoded(),
            decreases items@.len(),
        {
            let ghost before = items@;
            match items.pop() {
                Some(item) => {
                    proof {
                        assert(item == whole[before.len() - 1]);
                        assert(items@ =~= whole.take(items@.len() as int));
                    }
                    blocks.push(item.to_bytes());
                },
                None => {},
            }
        }
        let n = blocks.len();
        let mut out: Vec<u8> = Vec::new();
        let mut j: usize = 0;
        while j < n
            invariant
                j <= n,
                n == blocks@.len(),
                n == whole.len(),
                out@ == joined(whole.take(j as int)),
                forall|k: int|
                    0 <= k < blocks@.len() ==> (#[trigger] blocks@[k])@ == whole[whole.len()
                        - 1 - k].encoded(),
            decreases n - j,
        {
            proof {
                assert(whole.take(j + 1).drop_last() =~= whole.take(j as int));
            }
            out.extend_from_slice(blocks[n - 1 - j].as_slice());
            j += 1;
        }
        proof {
            assert(whole.take(n as int) =~= whole);
        }
        out
    }

    fn from_bytes(bytes: &[u8]) -> (r: Result<Self, ParseError>) {
        let w = match T::size() {
            Some(w) => w,
            None => { return Err(ParseError); },
        };
        if w == 0 || bytes.len() % w != 0 {
            return Err(ParseError);
        }
        let count = bytes.len() / w;
        let mut values: Vec<T> = Vec::new();
        let mut i: usize = 0;
        proof {
            assert(bytes@.take(0) =~= Seq::<u8>::empty());
            assert(count * w == bytes@.len()) by (nonlinear_arith)
                requires
                    count == bytes@.len() / (w as nat),
                    bytes@.len() % (w as nat) == 0,
                    w > 0,
            ;
        }
        while i < count
            invariant
                i <= count,
                w > 0,
                T::width() == Some(w as nat),
                count * w == bytes@.len(),
                bytes@.len() <= usize::MAX,
                count == bytes@.len() / (w as nat),
                bytes@.len() % (w as nat) == 0,
                values@.len() == i,
                joined(values@) == bytes@.take(i * w),
                forall|k: int|
                    0 <= k < i ==> T::decodable(#[trigger] bytes@.subrange(k * w, k * w + w)),
            decreases count - i,
        {
            proof {
                assert(0 <= i * w && i * w + w <= count * w) by (nonlinear_arith)
                    requires
                        0 <= i < count,
                        w > 0,
                ;
                assert((i + 1) * w == i * w + w) by (nonlinear_arith);
                assert(i * w + w <= bytes@.len());
            }
            let chunk = vstd::slice::slice_subrange(bytes, i * w, i * w + w);
            match T::from_bytes(chunk) {
                Ok(v) => {
                    let ghost before = values@;
                    values.push(v);
                    proof {
                        assert(values@.drop_last() =~= before);
                        assert(bytes@.take(i * w) + chunk@ =~= bytes@.take((i + 1) * w));
                    }
                },
                Err(e) => {
                    proof {
                        assert(!T::decodable(bytes@.subrange(i * w, i * w + w)));
                    }
                    return Err(e);
                },
            }
            i += 1;
        }
        proof {
            assert(bytes@.take(count * w) =~= bytes@);
        }
        Ok(values)
    }

    proof fn lemma_width(v: Self) {
    }
}

} // verus!
