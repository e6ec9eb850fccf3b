//! Values that an arena can hold: a fixed number of bytes each, copied in and
//! out byte by byte.

use vstd::prelude::*;

verus! {

/// A value of fixed size that is stored as plain bytes.
pub trait Value: Copy + Sized {
    /// The number of bytes that every value of the type takes.
    spec fn size() -> nat;

    /// The bytes that stand for the value.
    spec fn to_bytes(self) -> Seq<u8>;

    /// The value that `bytes` stand for.
    spec fn from_bytes(bytes: Seq<u8>) -> Self;

    /// A value takes `size()` bytes, and reading them gives the value back.
    proof fn lemma_round_trip(self)
        ensures
            self.to_bytes().len() == Self::size(),
            Self::from_bytes(self.to_bytes()) == self,
    ;

    /// The size, at run time.
    fn byte_size() -> (n: usize)
        ensures
            n == Self::size(),
    ;

    /// Writes the value over `out`.
    fn store(&self, out: &mut [u8])
        requires
            old(out)@.len() == Self::size(),
        ensures
            final(out)@ == self.to_bytes(),
    ;

    /// Reads a value from `bytes`.
    fn load(bytes: &[u8]) -> (v: Self)
        requires
            bytes@.len() == Self::size(),
        ensures
            v == Self::from_bytes(bytes@),
    ;
}

impl Value for u8 {
    open spec fn size() -> nat {
        1
    }

    open spec fn to_bytes(self) -> Seq<u8> {
        seq![self]
    }

    open spec fn from_bytes(bytes: Seq<u8>) -> u8 {
        bytes[0]
    }

    proof fn lemma_round_trip(self) {
    }

    fn byte_size() -> (n: usize) {
        1
    }

    fn store(&self, out: &mut [u8]) {
        out[0] = *self;
        assert(out@ =~= self.to_bytes());
    }

    fn load(bytes: &[u8]) -> (v: u8) {
        bytes[0]
    }
}

impl Value for u16 {
    open spec fn size() -> nat {
        2
    }

    open spec fn to_bytes(self) -> Seq<u8> {
        seq![(self % 256) as u8, (self / 256) as u8]
    }

    open spec fn from_bytes(bytes: Seq<u8>) -> u16 {
        (bytes[0] + 256 * bytes[1]) as u16
    }

    proof fn lemma_round_trip(self) {
    }

    fn byte_size() -> (n: usize) {
        2
    }

    fn store(&self, out: &mut [u8]) {
        let x: u16 = *self;
        out[0] = (x % 256) as u8;
        out[1] = (x / 256) as u8;
        assert(out@ =~= self.to_bytes());
    }

    fn load(bytes: &[u8]) -> (v: u16) {
        (bytes[0] as u16) + 256 * (bytes[1] as u16)
    }
}

impl Value for u32 {
    open spec fn size() -> nat {
        4
    }

    open spec fn to_bytes(self) -> Seq<u8> {
        seq![
            (self % 256) as u8,
            (self / 0x100 % 256) as u8,
            (self / 0x1_0000 % 256) as u8,
            (self / 0x100_0000) as u8,
        ]
    }

    open spec fn from_bytes(bytes: Seq<u8>) -> u32 {
        (bytes[0] + 0x100 * bytes[1] + 0x1_0000 * bytes[2] + 0x100_0000 * bytes[3]) as u32
    }

    proof fn lemma_round_trip(self) {
    }

    fn byte_size() -> (n: usize) {
        4
    }

    fn store(&self, out: &mut [u8]) {
        let x: u32 = *self;
        out[0] = (x % 256) as u8;
        out[1] = (x / 0x100 % 256) as u8;
        out[2] = (x / 0x1_0000 % 256) as u8;
        out[3] = (x / 0x100_0000) as u8;
        assert(out@ =~= self.to_bytes());
    }

    fn load(bytes: &[u8]) -> (v: u32) {
        (bytes[0] as u32) + 0x100 * (bytes[1] as u32) + 0x1_0000 * (bytes[2] as u32) + 0x100_0000
            * (bytes[3] as u32)
    }
}

impl Value for u64 {
    open spec fn size() -> nat {
        8
    }

    open spec fn to_bytes(self) -> Seq<u8> {
        (((self % 0x1_0000_0000) as u32).to_bytes() + ((self / 0x1_0000_0000) as u32).to_bytes())
    }

    open spec fn from_bytes(bytes: Seq<u8>) -> u64 {
        (u32::from_bytes(bytes.subrange(0, 4)) + 0x1_0000_0000 * u32::from_bytes(
            bytes.subrange(4, 8),
        )) as u64
    }

    proof fn lemma_round_trip(self) {
        let lo = (self % 0x1_0000_0000) as u32;
        let hi = (self / 0x1_0000_0000) as u32;
        lo.lemma_round_trip();
        hi.lemma_round_trip();
        assert(self.to_bytes().subrange(0, 4) =~= lo.to_bytes());
        assert(self.to_bytes().subrange(4, 8) =~= hi.to_bytes());
    }

    fn byte_size() -> (n: usize) {
        8
    }

    fn store(&self, out: &mut [u8]) {
        let x: u64 = *self;
        let lo: u32 = (x % 0x1_0000_0000) as u32;
        let hi: u32 = (x / 0x1_0000_0000) as u32;
        out[0] = (lo % 256) as u8;
        out[1] = (lo / 0x100 % 256) as u8;
        out[2] = (lo / 0x1_0000 % 256) as u8;
        out[3] = (lo / 0x100_0000) as u8;
        out[4] = (hi % 256) as u8;
        out[5] = (hi / 0x100 % 256) as u8;
        out[6] = (hi / 0x1_0000 % 256) as u8;
        out[7] = (hi / 0x100_0000) as u8;
        assert(out@ =~= self.to_bytes());
    }

    fn load(bytes: &[u8]) -> (v: u64) {
        let lo: u32 = (bytes[0] as u32) + 0x100 * (bytes[1] as u32) + 0x1_0000 * (bytes[2] as u32)
            + 0x100_0000 * (bytes[3] as u32);
        let hi: u32 = (bytes[4] as u32) + 0x100 * (bytes[5] as u32) + 0x1_0000 * (bytes[6] as u32)
            + 0x100_0000 * (bytes[7] as u32);
        proof {
            assert(bytes@.subrange(0, 4)[0] == bytes@[0]);
            assert(bytes@.subrange(0, 4)[3] == bytes@[3]);
            assert(bytes@.subrange(4, 8)[0] == bytes@[4]);
            assert(bytes@.subrange(4, 8)[3] == bytes@[7]);
        }
        (lo as u64) + 0x1_0000_0000 * (hi as u64)
    }
}

} // verus!
