//! Fixed-size records: values written as a fixed number of raw little-endian
//! bytes, every byte string of that length being the record of one value.

use vstd::prelude::*;
use crate::bytes::{
    u32_le, u32_of_le, lemma_u32_le, lemma_le_u32, push_u32, read_u32_at,
};
use crate::math::{Vec2, Vec3, Vec4, Mat4};

verus! {

pub trait Record: Sized + Copy {
    /// Number of bytes in the record of a value.
    spec fn record_size() -> nat;

    /// Alignment of the value in memory.
    spec fn record_align() -> nat;

    spec fn to_bytes(self) -> Seq<u8>;

    spec fn from_bytes(b: Seq<u8>) -> Self;

    proof fn lemma_record(self)
        ensures
            self.to_bytes().len() == Self::record_size(),
            Self::from_bytes(self.to_bytes()) == self,
    ;

    proof fn lemma_layout()
        ensures
            0 < Self::record_size() <= 64,
            0 < Self::record_align() <= 16,
    ;

    proof fn lemma_bytes(b: Seq<u8>)
        requires
            b.len() == Self::record_size(),
        ensures
            Self::from_bytes(b).to_bytes() == b,
    ;

    fn size() -> (r: u64)
        ensures
            r == Self::record_size(),
    ;

    fn align() -> (r: u64)
        ensures
            r == Self::record_align(),
    ;

    fn write_record(&self, buf: &mut Vec<u8>)
        ensures
            final(buf)@ == old(buf)@ + self.to_bytes(),
    ;

    fn read_record(b: &[u8], pos: usize) -> (r: Self)
        requires
            pos + Self::record_size() <= b@.len() <= usize::MAX,
        ensures
            r == Self::from_bytes(b@.subrange(pos as int, pos + Self::record_size())),
    ;
}

impl Record for u8 {
    open spec fn record_size() -> nat {
        1
    }

    open spec fn record_align() -> nat {
        1
    }

    open spec fn to_bytes(self) -> Seq<u8> {
        seq![self]
    }

    open spec fn from_bytes(b: Seq<u8>) -> u8 {
        b[0]
    }

    proof fn lemma_record(self) {
    }

    proof fn lemma_layout() {
    }

    proof fn lemma_bytes(b: Seq<u8>) {
        assert(seq![b[0]] =~= b);
    }

    fn size() -> (r: u64) {
        1
    }

    fn align() -> (r: u64) {
        1
    }

    fn write_record(&self, buf: &mut Vec<u8>) {
        buf.push(*self);
        assert(final(buf)@ =~= old(buf)@ + seq![*self]);
    }

    fn read_record(b: &[u8], pos: usize) -> (r: u8) {
        b[pos]
    }
}

impl Record for u32 {
    open spec fn record_size() -> nat {
        4
    }

    open spec fn record_align() -> nat {
        4
    }

    open spec fn to_bytes(self) -> Seq<u8> {
        u32_le(self)
    }

    open spec fn from_bytes(b: Seq<u8>) -> u32 {
        u32_of_le(b)
    }

    proof fn lemma_record(self) {
        lemma_u32_le(self);
    }

    proof fn lemma_layout() {
    }

    proof fn lemma_bytes(b: Seq<u8>) {
        lemma_le_u32(b);
    }

    fn size() -> (r: u64) {
        4
    }

    fn align() -> (r: u64) {
        4
    }

    fn write_record(&self, buf: &mut Vec<u8>) {
        push_u32(buf, *self);
    }

    fn read_record(b: &[u8], pos: usize) -> (r: u32) {
        read_u32_at(b, pos)
    }
}

/// The `i`-th group of four bytes of `b`.
pub open spec fn word(b: Seq<u8>, i: int) -> Seq<u8> {
    b.subrange(4 * i, 4 * i + 4)
}

impl Record for Vec2 {
    open spec fn record_size() -> nat {
        8
    }

    open spec fn record_align() -> nat {
        4
    }

    open spec fn to_bytes(self) -> Seq<u8> {
        u32_le(self.x) + u32_le(self.y)
    }

    open spec fn from_bytes(b: Seq<u8>) -> Vec2 {
        Vec2 { x: u32_of_le(word(b, 0)), y: u32_of_le(word(b, 1)) }
    }

    proof fn lemma_record(self) {
        lemma_u32_le(self.x);
        lemma_u32_le(self.y);
        let b = self.to_bytes();
        assert(word(b, 0) =~= u32_le(self.x));
        assert(word(b, 1) =~= u32_le(self.y));
    }

    proof fn lemma_layout() {
    }

    proof fn lemma_bytes(b: Seq<u8>) {
        lemma_le_u32(word(b, 0));
        lemma_le_u32(word(b, 1));
        assert(Self::from_bytes(b).to_bytes() =~= b);
    }

    fn size() -> (r: u64) {
        8
    }

    fn align() -> (r: u64) {
        4
    }

    fn write_record(&self, buf: &mut Vec<u8>) {
        push_u32(buf, self.x);
        push_u32(buf, self.y);
        assert(final(buf)@ =~= old(buf)@ + self.to_bytes());
    }

    fn read_record(b: &[u8], pos: usize) -> (r: Vec2) {
        let r = Vec2 { x: read_u32_at(b, pos), y: read_u32_at(b, pos + 4) };
        let ghost s = b@.subrange(pos as int, pos + 8);
        assert(word(s, 0) =~= b@.subrange(pos as int, pos + 4));
        assert(word(s, 1) =~= b@.subrange(pos + 4, pos + 8));
        r
    }
}

impl Record for Vec3 {
    open spec fn record_size() -> nat {
        12
    }

    open spec fn record_align() -> nat {
        4
    }

    open spec fn to_bytes(self) -> Seq<u8> {
        u32_le(self.x) + u32_le(self.y) + u32_le(self.z)
    }

    open spec fn from_bytes(b: Seq<u8>) -> Vec3 {
        Vec3 { x: u32_of_le(word(b, 0)), y: u32_of_le(word(b, 1)), z: u32_of_le(word(b, 2)) }
    }

    proof fn lemma_record(self) {
        lemma_u32_le(self.x);
        lemma_u32_le(self.y);
        lemma_u32_le(self.z);
        let b = self.to_bytes();
        assert(word(b, 0) =~= u32_le(self.x));
        assert(word(b, 1) =~= u32_le(self.y));
        assert(word(b, 2) =~= u32_le(self.z));
    }

    proof fn lemma_layout() {
    }

    proof fn lemma_bytes(b: Seq<u8>) {
        lemma_le_u32(word(b, 0));
        lemma_le_u32(word(b, 1));
        lemma_le_u32(word(b, 2));
        assert(Self::from_bytes(b).to_bytes() =~= b);
    }

    fn size() -> (r: u64) {
        12
    }

    fn align() -> (r: u64) {
        4
    }

    fn write_record(&self, buf: &mut Vec<u8>) {
        push_u32(buf, self.x);
        push_u32(buf, self.y);
        push_u32(buf, self.z);
        assert(final(buf)@ =~= old(buf)@ + self.to_bytes());
    }

    fn read_record(b: &[u8], pos: usize) -> (r: Vec3) {
        let r = Vec3 {
            x: read_u32_at(b, pos),
            y: read_u32_at(b, pos + 4),
            z: read_u32_at(b, pos + 8),
        };
        let ghost s = b@.subrange(pos as int, pos + 12);
        assert(word(s, 0) =~= b@.subrange(pos as int, pos + 4));
        assert(word(s, 1) =~= b@.subrange(pos + 4, pos + 8));
        assert(word(s, 2) =~= b@.subrange(pos + 8, pos + 12));
        r
    }
}

impl Record for Vec4 {
    open spec fn record_size() -> nat {
        16
    }

    open spec fn record_align() -> nat {
        4
    }

    open spec fn to_bytes(self) -> Seq<u8> {
        u32_le(self.x) + u32_le(self.y) + u32_le(self.z) + u32_le(self.w)
    }

    open spec fn from_bytes(b: Seq<u8>) -> Vec4 {
        Vec4 {
            x: u32_of_le(word(b, 0)),
            y: u32_of_le(word(b, 1)),
            z: u32_of_le(word(b, 2)),
            w: u32_of_le(word(b, 3)),
        }
    }

    proof fn lemma_record(self) {
        lemma_u32_le(self.x);
        lemma_u32_le(self.y);
        lemma_u32_le(self.z);
        lemma_u32_le(self.w);
        let b = self.to_bytes();
        assert(word(b, 0) =~= u32_le(self.x));
        assert(word(b, 1) =~= u32_le(self.y));
        assert(word(b, 2) =~= u32_le(self.z));
        assert(word(b, 3) =~= u32_le(self.w));
    }

    proof fn lemma_layout() {
    }

    proof fn lemma_bytes(b: Seq<u8>) {
        lemma_le_u32(word(b, 0));
        lemma_le_u32(word(b, 1));
        lemma_le_u32(word(b, 2));
        lemma_le_u32(word(b, 3));
        assert(Self::from_bytes(b).to_bytes() =~= b);
    }

    fn size() -> (r: u64) {
        16
    }

    fn align() -> (r: u64) {
        4
    }

    fn write_record(&self, buf: &mut Vec<u8>) {
        push_u32(buf, self.x);
        push_u32(buf, self.y);
        push_u32(buf, self.z);
        push_u32(buf, self.w);
        assert(final(buf)@ =~= old(buf)@ + self.to_bytes());
    }

    fn read_record(b: &[u8], pos: usize) -> (r: Vec4) {
        let r = Vec4 {
            x: read_u32_at(b, pos),
            y: read_u32_at(b, pos + 4),
            z: read_u32_at(b, pos + 8),
            w: read_u32_at(b, pos + 12),
        };
        let ghost s = b@.subrange(pos as int, pos + 16);
        assert(word(s, 0) =~= b@.subrange(pos as int, pos + 4));
        assert(word(s, 1) =~= b@.subrange(pos + 4, pos + 8));
        assert(word(s, 2) =~= b@.subrange(pos + 8, pos + 12));
        assert(word(s, 3) =~= b@.subrange(pos + 12, pos + 16));
        r
    }
}

/// The `i`-th group of sixteen bytes of `b`.
pub open spec fn column(b: Seq<u8>, i: int) -> Seq<u8> {
    b.subrange(16 * i, 16 * i + 16)
}

impl Record for Mat4 {
    open spec fn record_size() -> nat {
        64
    }

    open spec fn record_align() -> nat {
        4
    }

    open spec fn to_bytes(self) -> Seq<u8> {
        self.c0.to_bytes() + self.c1.to_bytes() + self.c2.to_bytes() + self.c3.to_bytes()
    }

    open spec fn from_bytes(b: Seq<u8>) -> Mat4 {
        Mat4 {
            c0: Vec4::from_bytes(column(b, 0)),
            c1: Vec4::from_bytes(column(b, 1)),
            c2: Vec4::from_bytes(column(b, 2)),
            c3: Vec4::from_bytes(column(b, 3)),
        }
    }

    proof fn lemma_record(self) {
        self.c0.lemma_record();
        self.c1.lemma_record();
        self.c2.lemma_record();
        self.c3.lemma_record();
        let b = self.to_bytes();
        assert(column(b, 0) =~= self.c0.to_bytes());
        assert(column(b, 1) =~= self.c1.to_bytes());
        assert(column(b, 2) =~= self.c2.to_bytes());
        assert(column(b, 3) =~= self.c3.to_bytes());
    }

    proof fn lemma_layout() {
    }

    proof fn lemma_bytes(b: Seq<u8>) {
        Vec4::lemma_bytes(column(b, 0));
        Vec4::lemma_bytes(column(b, 1));
        Vec4::lemma_bytes(column(b, 2));
        Vec4::lemma_bytes(column(b, 3));
        assert(Self::from_bytes(b).to_bytes() =~= b);
    }

    fn size() -> (r: u64) {
        64
    }

    fn align() -> (r: u64) {
        4
    }

    fn write_record(&self, buf: &mut Vec<u8>) {
        self.c0.write_record(buf);
        self.c1.write_record(buf);
        self.c2.write_record(buf);
        self.c3.write_record(buf);
        assert(final(buf)@ =~= old(buf)@ + self.to_bytes());
    }

    fn read_record(b: &[u8], pos: usize) -> (r: Mat4) {
        let r = Mat4 {
            c0: Vec4::read_record(b, pos),
            c1: Vec4::read_record(b, pos + 16),
            c2: Vec4::read_record(b, pos + 32),
            c3: Vec4::read_record(b, pos + 48),
        };
        let ghost s = b@.subrange(pos as int, pos + 64);
        assert(column(s, 0) =~= b@.subrange(pos as int, pos + 16));
        assert(column(s, 1) =~= b@.subrange(pos + 16, pos + 32));
        assert(column(s, 2) =~= b@.subrange(pos + 32, pos + 48));
        assert(column(s, 3) =~= b@.subrange(pos + 48, pos + 64));
        r
    }
}

} // verus!
