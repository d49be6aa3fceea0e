//! Fixed-capacity byte strings, stored inline so that an event has a fixed
//! size: a length and a byte buffer, of which the first `length` bytes hold
//! the text.

use vstd::prelude::*;
use vstd::slice::slice_subrange;
use vstd::utf8::*;
use vstd::string::*;

verus! {

/// Capacity of a [`TinyString`] in bytes.
pub const TINYSTRING_LENGTH: usize = 104;

/// Capacity of a [`LargeString`] in bytes.
pub const LARGESTRING_LEN: usize = 400;

/// `std::str::from_utf8`, keeping only whether it succeeded: it succeeds
/// exactly when the bytes are valid UTF-8, and the string it returns is made
/// of those very bytes.
#[verifier::external_body]
fn str_from_utf8(bytes: &[u8]) -> (s: Option<&str>)
    ensures
        s is Some <==> valid_utf8(bytes@),
        s matches Some(s) ==> s.spec_bytes() == bytes@,
{
    std::str::from_utf8(bytes).ok()
}

/// The number of bytes a write of `n` bytes keeps in a buffer of `cap` bytes.
pub open spec fn kept_len(n: nat, cap: nat) -> nat {
    if n <= cap {
        n
    } else {
        cap
    }
}

/// The buffer holds `bytes` cut to `cap` bytes, then zeros, and the length
/// is the number of bytes kept.
pub open spec fn holds_bytes(length: u32, buffer: Seq<u8>, bytes: Seq<u8>, cap: nat) -> bool {
    &&& length == kept_len(bytes.len(), cap)
    &&& buffer == bytes.take(length as int) + Seq::new((cap - length) as nat, |i: int| 0u8)
}

/// A fixed-capacity string: a length and a byte buffer.
pub trait CustomStringTrait: Default + Sized {
    /// The stored length.
    spec fn spec_length(&self) -> u32;

    /// The whole buffer, text and unused tail.
    spec fn spec_buffer(&self) -> Seq<u8>;

    /// The buffer capacity, the same for every value of the type.
    spec fn spec_capacity() -> nat;

    /// Every buffer has the type's capacity, which fits in a `u32`.
    proof fn lemma_buffer_len(&self)
        ensures
            self.spec_buffer().len() == Self::spec_capacity(),
            Self::spec_capacity() <= u32::MAX,
    ;

    fn length(&self) -> (l: u32)
        ensures
            l == self.spec_length(),
    ;

    fn set_length(&mut self, l: u32)
        ensures
            final(self).spec_length() == l,
            final(self).spec_buffer() == old(self).spec_buffer(),
    ;

    fn buffer(&self) -> (b: &[u8])
        ensures
            b@ == self.spec_buffer(),
    ;

    fn buffer_mut(&mut self) -> (b: &mut [u8])
        ensures
            b@ == old(self).spec_buffer(),
            final(self).spec_buffer() == final(b)@,
            final(self).spec_length() == old(self).spec_length(),
    ;

    /// Stores as much of `input` as fits: the length becomes the number of
    /// bytes kept, the buffer starts with them and keeps its old tail.
    fn write(&mut self, input: &[u8])
        ensures
            final(self).spec_length() == kept_len(input@.len(), Self::spec_capacity()),
            final(self).spec_buffer() == input@.take(
                kept_len(input@.len(), Self::spec_capacity()) as int,
            ) + old(self).spec_buffer().skip(
                kept_len(input@.len(), Self::spec_capacity()) as int,
            ),
    {
        proof {
            self.lemma_buffer_len();
        }
        let capacity = self.buffer().len();
        let l: usize = if input.len() < capacity {
            input.len()
        } else {
            capacity
        };
        self.set_length(l as u32);
        let length = self.length() as usize;
        let ghost old_buffer = self.spec_buffer();
        let buffer = self.buffer_mut();
        let mut i: usize = 0;
        while i < length
            invariant
                length == l,
                l <= input@.len(),
                l <= old_buffer.len(),
                buffer@.len() == old_buffer.len(),
                0 <= i <= length,
                buffer@ == input@.take(i as int) + old_buffer.skip(i as int),
            decreases length - i,
        {
            buffer[i] = input[i];
            i = i + 1;
            assert(buffer@ =~= input@.take(i as int) + old_buffer.skip(i as int));
        }
    }

    /// `self` after [`CustomStringTrait::write`].
    fn build_write(self, input: &[u8]) -> (r: Self)
        ensures
            r.spec_length() == kept_len(input@.len(), Self::spec_capacity()),
            r.spec_buffer() == input@.take(kept_len(input@.len(), Self::spec_capacity()) as int)
                + self.spec_buffer().skip(kept_len(input@.len(), Self::spec_capacity()) as int),
    {
        let mut s = self;
        s.write(input);
        s
    }

    /// A default value holding the UTF-8 bytes of `input`, cut to capacity.
    fn from_str(input: &str) -> (r: Self)
        ensures
            r.spec_length() == kept_len(input.spec_bytes().len(), Self::spec_capacity()),
            r.spec_buffer().take(r.spec_length() as int) == input.spec_bytes().take(
                r.spec_length() as int,
            ),
    {
        let s = Self::default();
        let r = s.build_write(input.as_bytes());
        proof {
            s.lemma_buffer_len();
            let k = r.spec_length() as int;
            assert(r.spec_buffer().take(k) =~= input.spec_bytes().take(k));
        }
        r
    }

    /// Whether [`CustomStringTrait::as_str`] accepts the string: the length
    /// is within the buffer and the text is valid UTF-8.
    fn is_readable(&self) -> (b: bool)
        ensures
            b == (self.spec_length() <= self.spec_buffer().len() && valid_utf8(
                self.spec_buffer().take(self.spec_length() as int),
            )),
    {
        let length = self.length() as usize;
        let buffer = self.buffer();
        if length > buffer.len() {
            return false;
        }
        let bytes = slice_subrange(buffer, 0, length);
        proof {
            assert(bytes@ =~= self.spec_buffer().take(length as int));
        }
        str_from_utf8(bytes).is_some()
    }

    /// The stored text.  The first `length` bytes must be valid UTF-8.
    fn as_str(&self) -> (s: &str)
        requires
            self.spec_length() <= self.spec_buffer().len(),
            valid_utf8(self.spec_buffer().take(self.spec_length() as int)),
        ensures
            s.spec_bytes() == self.spec_buffer().take(self.spec_length() as int),
            s@ == decode_utf8(self.spec_buffer().take(self.spec_length() as int)),
    {
        let length = self.length() as usize;
        let bytes = slice_subrange(self.buffer(), 0, length);
        proof {
            assert(bytes@ =~= self.spec_buffer().take(length as int));
        }
        match str_from_utf8(bytes) {
            Some(s) => {
                proof {
                    encode_utf8_decode_utf8(s@);
                }
                s
            },
            None => {
                proof {
                    assert(false);
                }
                ""
            },
        }
    }
}

/// A string of at most [`TINYSTRING_LENGTH`] bytes.
#[derive(PartialEq, Eq, Debug)]
pub struct TinyString {
    pub length: u32,
    pub buffer: [u8; 104],
}

/// A string of at most [`LARGESTRING_LEN`] bytes.
#[derive(PartialEq, Eq, Debug)]
pub struct LargeString {
    pub length: u32,
    pub buffer: [u8; 400],
}

impl Default for TinyString {
    fn default() -> (s: TinyString)
        ensures
            s.length == 0,
            forall|i: int| 0 <= i < 104 ==> s.buffer@[i] == 0,
    {
        TinyString { length: 0, buffer: [0u8; 104] }
    }
}

impl Default for LargeString {
    fn default() -> (s: LargeString)
        ensures
            s.length == 0,
            forall|i: int| 0 <= i < 400 ==> s.buffer@[i] == 0,
    {
        LargeString { length: 0, buffer: [0u8; 400] }
    }
}

impl CustomStringTrait for TinyString {
    open spec fn spec_length(&self) -> u32 {
        self.length
    }

    open spec fn spec_buffer(&self) -> Seq<u8> {
        self.buffer@
    }

    open spec fn spec_capacity() -> nat {
        104
    }

    proof fn lemma_buffer_len(&self) {
    }

    fn length(&self) -> (l: u32) {
        self.length
    }

    fn set_length(&mut self, l: u32) {
        self.length = l;
    }

    fn buffer(&self) -> (b: &[u8]) {
        self.buffer.as_slice()
    }

    fn buffer_mut(&mut self) -> (b: &mut [u8]) {
        &mut self.buffer
    }

    /// A fresh string holding the UTF-8 bytes of `input` cut to capacity,
    /// the rest of the buffer zero.
    fn from_str(input: &str) -> (r: Self)
        ensures
            holds_bytes(r.length, r.buffer@, input.spec_bytes(), 104),
    {
        let r = Self::default().build_write(input.as_bytes());
        proof {
            let k = r.length as int;
            assert(r.buffer@ =~= input.spec_bytes().take(k) + Seq::new((104 - k) as nat, |i: int| 0u8));
        }
        r
    }
}

impl CustomStringTrait for LargeString {
    open spec fn spec_length(&self) -> u32 {
        self.length
    }

    open spec fn spec_buffer(&self) -> Seq<u8> {
        self.buffer@
    }

    open spec fn spec_capacity() -> nat {
        400
    }

    proof fn lemma_buffer_len(&self) {
    }

    fn length(&self) -> (l: u32) {
        self.length
    }

    fn set_length(&mut self, l: u32) {
        self.length = l;
    }

    fn buffer(&self) -> (b: &[u8]) {
        self.buffer.as_slice()
    }

    fn buffer_mut(&mut self) -> (b: &mut [u8]) {
        &mut self.buffer
    }

    /// A fresh string holding the UTF-8 bytes of `input` cut to capacity,
    /// the rest of the buffer zero.
    fn from_str(input: &str) -> (r: Self)
        ensures
            holds_bytes(r.length, r.buffer@, input.spec_bytes(), 400),
    {
        let r = Self::default().build_write(input.as_bytes());
        proof {
            let k = r.length as int;
            assert(r.buffer@ =~= input.spec_bytes().take(k) + Seq::new((400 - k) as nat, |i: int| 0u8));
        }
        r
    }
}

} // verus!
