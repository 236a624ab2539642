use vstd::prelude::*;
use crate::voxels::brick::Brick64;

verus! {

/// Payloads that can be tested for equality, as compaction needs.
pub trait Comparable: Copy + Sized {
    fn same(&self, other: &Self) -> (r: bool)
        ensures
            r == (*self == *other),
    ;
}

/// Payloads that turn into bytes and back, as serialization needs.
pub trait Payload: Comparable {
    /// The bytes that stand for a value.
    spec fn bytes_of(v: Self) -> Seq<u8>;

    /// The value that a run of bytes stands for, if any.
    spec fn value_of(b: Seq<u8>) -> Option<Self>;

    /// Reading back the bytes of a value gives the value.
    proof fn lemma_bytes_round_trip(v: Self)
        ensures
            Self::value_of(Self::bytes_of(v)) == Some(v),
    ;

    fn to_bytes(&self) -> (r: Vec<u8>)
        ensures
            r@ == Self::bytes_of(*self),
    ;

    fn from_bytes(b: &[u8]) -> (r: Option<Self>)
        ensures
            r == Self::value_of(b@),
    ;
}

impl Comparable for bool {
    fn same(&self, other: &bool) -> (r: bool) {
        *self == *other
    }
}

impl Payload for bool {
    open spec fn bytes_of(v: bool) -> Seq<u8> {
        seq![if v { 1u8 } else { 0u8 }]
    }

    open spec fn value_of(b: Seq<u8>) -> Option<bool> {
        if b.len() == 1 && b[0] < 2 {
            Some(b[0] == 1)
        } else {
            None
        }
    }

    proof fn lemma_bytes_round_trip(v: bool) {
    }


    fn to_bytes(&self) -> (r: Vec<u8>) {
        let b: u8 = if *self { 1 } else { 0 };
        let r = vec![b];
        assert(r@ =~= Self::bytes_of(*self));
        r
    }

    fn from_bytes(b: &[u8]) -> (r: Option<bool>) {
        if b.len() == 1 && b[0] < 2 {
            Some(b[0] == 1)
        } else {
            None
        }
    }
}

/// The four bytes of a `u32`, least significant first.
pub open spec fn le4(v: u32) -> Seq<u8> {
    seq![(v % 256) as u8, (v / 256 % 256) as u8, (v / 65536 % 256) as u8, (v / 16777216) as u8]
}

/// The `u32` of four bytes, least significant first.
pub open spec fn from_le4(b: Seq<u8>) -> u32 {
    (b[0] + 256 * b[1] + 65536 * b[2] + 16777216 * b[3]) as u32
}

fn push_le4(out: &mut Vec<u8>, v: u32)
    ensures
        final(out)@ == old(out)@ + le4(v),
{
    out.push((v % 256) as u8);
    out.push((v / 256 % 256) as u8);
    out.push((v / 65536 % 256) as u8);
    out.push((v / 16777216) as u8);
    assert(final(out)@ =~= old(out)@ + le4(v));
}

fn read_le4(b: &[u8], at: usize) -> (r: u32)
    requires
        at + 4 <= b@.len(),
    ensures
        r == from_le4(b@.subrange(at as int, at + 4)),
{
    let r = b[at] as u32 + 256 * (b[at + 1] as u32) + 65536 * (b[at + 2] as u32) + 16777216 * (
    b[at + 3] as u32);
    assert(b@.subrange(at as int, at + 4)[0] == b[at as int]);
    assert(b@.subrange(at as int, at + 4)[1] == b[at + 1]);
    assert(b@.subrange(at as int, at + 4)[2] == b[at + 2]);
    assert(b@.subrange(at as int, at + 4)[3] == b[at + 3]);
    r
}

proof fn lemma_le4_round_trip(v: u32)
    ensures
        from_le4(le4(v)) == v,
        le4(v).len() == 4,
{
    let b = le4(v);
    assert(b[0] + 256 * b[1] + 65536 * b[2] + 16777216 * b[3] == v);
}

impl Comparable for u32 {
    fn same(&self, other: &u32) -> (r: bool) {
        *self == *other
    }
}

impl Payload for u32 {
    open spec fn bytes_of(v: u32) -> Seq<u8> {
        le4(v)
    }

    open spec fn value_of(b: Seq<u8>) -> Option<u32> {
        if b.len() == 4 {
            Some(from_le4(b))
        } else {
            None
        }
    }

    proof fn lemma_bytes_round_trip(v: u32) {
        lemma_le4_round_trip(v);
    }


    fn to_bytes(&self) -> (r: Vec<u8>) {
        let mut r: Vec<u8> = Vec::new();
        push_le4(&mut r, *self);
        assert(r@ =~= le4(*self));
        r
    }

    fn from_bytes(b: &[u8]) -> (r: Option<u32>) {
        if b.len() == 4 {
            let v = read_le4(b, 0);
            assert(b@.subrange(0, 4) =~= b@);
            Some(v)
        } else {
            None
        }
    }
}

impl Comparable for Brick64 {
    fn same(&self, other: &Brick64) -> (r: bool) {
        self.occupancy == other.occupancy
    }
}

impl Payload for Brick64 {
    /// The low word's four bytes, then the high word's.
    open spec fn bytes_of(v: Brick64) -> Seq<u8> {
        le4((v.occupancy % 0x1_0000_0000) as u32) + le4((v.occupancy / 0x1_0000_0000) as u32)
    }

    open spec fn value_of(b: Seq<u8>) -> Option<Brick64> {
        if b.len() == 8 {
            Some(
                Brick64 {
                    occupancy: (from_le4(b.subrange(0, 4)) + 0x1_0000_0000 * from_le4(
                        b.subrange(4, 8),
                    )) as u64,
                },
            )
        } else {
            None
        }
    }

    proof fn lemma_bytes_round_trip(v: Brick64) {
        let lo = (v.occupancy % 0x1_0000_0000) as u32;
        let hi = (v.occupancy / 0x1_0000_0000) as u32;
        lemma_le4_round_trip(lo);
        lemma_le4_round_trip(hi);
        let b = Self::bytes_of(v);
        assert(b.subrange(0, 4) =~= le4(lo));
        assert(b.subrange(4, 8) =~= le4(hi));
    }


    fn to_bytes(&self) -> (r: Vec<u8>) {
        let mut r: Vec<u8> = Vec::new();
        push_le4(&mut r, (self.occupancy % 0x1_0000_0000) as u32);
        push_le4(&mut r, (self.occupancy / 0x1_0000_0000) as u32);
        assert(r@ =~= Self::bytes_of(*self));
        r
    }

    fn from_bytes(b: &[u8]) -> (r: Option<Brick64>) {
        if b.len() == 8 {
            let lo = read_le4(b, 0);
            let hi = read_le4(b, 4);
            Some(Brick64 { occupancy: lo as u64 + 0x1_0000_0000 * (hi as u64) })
        } else {
            None
        }
    }
}

} // verus!
