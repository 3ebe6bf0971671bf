//! The structural codec: how values are written to a growing byte buffer and
//! read back from a cursor, and the length-prefixed sequence of records.

use vstd::prelude::*;
use vstd::arithmetic::div_mod::{lemma_mod_multiples_basic, lemma_fundamental_div_mod};
use crate::bytes::{u64_le, u64_of_le, lemma_u64_le, lemma_le_u64, push_u64, ReadCursor};
use crate::record::Record;
use crate::allocator::{
    AllocError, SeqAllocator, HeapAllocator, reserve_all, lemma_heap_grants_all,
    lemma_reserve_all_append,
};
use crate::math::Mat4;

verus! {

#[derive(Clone, Copy, Debug, PartialEq, Eq, Structural)]
pub enum DecodeError {
    /// The bytes are not the encoding of a value of the expected type.
    Format,
    /// The allocator refused memory for a sequence.
    Alloc(AllocError),
}

pub trait Serialize {
    /// The bytes that encode this value.
    spec fn wire(&self) -> Seq<u8>;

    /// Appends the encoding of this value to `buf`.
    fn serialize_buf(&self, buf: &mut Vec<u8>)
        requires
            old(buf)@.len() + self.wire().len() <= usize::MAX,
        ensures
            final(buf)@ == old(buf)@ + self.wire(),
    ;

    /// The encoding of this value.
    fn serialize(&self) -> (r: Vec<u8>)
        requires
            self.wire().len() <= usize::MAX,
        ensures
            r@ == self.wire(),
    {
        let mut buf: Vec<u8> = Vec::new();
        self.serialize_buf(&mut buf);
        assert(buf@ =~= self.wire());
        buf
    }
}

pub trait Deserialize: Serialize + View + Sized {
    /// The allocations, as `(size, align)` pairs in order, that decoding
    /// this value makes.
    spec fn requests(&self) -> Seq<(nat, nat)>;

    /// No encoding is a proper prefix of another one.
    proof fn lemma_prefix_free(&self, other: &Self, s: Seq<u8>)
        requires
            s.len() <= usize::MAX,
            self.wire().is_prefix_of(s),
            other.wire().is_prefix_of(s),
        ensures
            self.wire() == other.wire(),
            self.requests() == other.requests(),
    ;

    /// Values with the same encoding are equal.
    proof fn lemma_wire_injective(&self, other: &Self)
        requires
            self.wire().len() <= usize::MAX,
            self.wire() == other.wire(),
        ensures
            self@ == other@,
    ;

    proof fn lemma_wire_nonempty(&self)
        ensures
            self.wire().len() > 0,
    ;

    /// Decodes a value at the cursor, taking the memory of its sequences
    /// from `a`. On success the cursor has moved past exactly the value's
    /// encoding. A format error means that no value's encoding starts at
    /// the cursor; an allocation error, that no such value's allocations
    /// all fit in `a`.
    fn deserialize_in<A: SeqAllocator>(cur: &mut ReadCursor, a: &mut A) -> (r: Result<Self, DecodeError>)
        requires
            old(cur).wf(),
            old(a).wf(),
        ensures
            final(cur).wf(),
            final(cur).bytes == old(cur).bytes,
            final(a).wf(),
            match r {
                Ok(v) => {
                    &&& v.wire().is_prefix_of(old(cur).rest())
                    &&& final(cur).pos == old(cur).pos + v.wire().len()
                    &&& reserve_all(*old(a), v.requests()) == Some(*final(a))
                },
                Err(DecodeError::Format) => forall|v: Self|
                    !(#[trigger] v.wire()).is_prefix_of(old(cur).rest()),
                Err(DecodeError::Alloc(_)) => forall|v: Self|
                    (#[trigger] v.wire()).is_prefix_of(old(cur).rest()) ==> reserve_all(
                        *old(a),
                        v.requests(),
                    ) is None,
            },
    ;

    /// Decodes a value at the cursor with the general heap. It fails
    /// exactly when no value's encoding starts at the cursor.
    fn deserialize(cur: &mut ReadCursor) -> (r: Result<Self, DecodeError>)
        requires
            old(cur).wf(),
        ensures
            final(cur).wf(),
            final(cur).bytes == old(cur).bytes,
            match r {
                Ok(v) => {
                    &&& v.wire().is_prefix_of(old(cur).rest())
                    &&& final(cur).pos == old(cur).pos + v.wire().len()
                },
                Err(e) => e == DecodeError::Format && forall|v: Self|
                    !(#[trigger] v.wire()).is_prefix_of(old(cur).rest()),
            },
    {
        let mut heap = HeapAllocator;
        let r = Self::deserialize_in(cur, &mut heap);
        proof {
            if let Err(DecodeError::Alloc(_)) = r {
                assert forall|v: Self| !(#[trigger] v.wire()).is_prefix_of(old(cur).rest()) by {
                    lemma_heap_grants_all(v.requests());
                }
            }
        }
        match r {
            Ok(v) => Ok(v),
            Err(_) => Err(DecodeError::Format),
        }
    }
}

/// The records of `s`, one after the other.
pub open spec fn records<T: Record>(s: Seq<T>) -> Seq<u8>
    decreases s.len(),
{
    if s.len() == 0 {
        seq![]
    } else {
        records(s.drop_last()) + s.last().to_bytes()
    }
}

/// A sequence on the wire: its length in bytes, then its records.
pub open spec fn seq_wire<T: Record>(s: Seq<T>) -> Seq<u8> {
    u64_le((s.len() * T::record_size()) as u64) + records(s)
}

pub proof fn lemma_records_len<T: Record>(s: Seq<T>)
    ensures
        records(s).len() == s.len() * T::record_size(),
    decreases s.len(),
{
    if s.len() > 0 {
        lemma_records_len(s.drop_last());
        s.last().lemma_record();
        let n = s.len() as int;
        let k = T::record_size() as int;
        assert((n - 1) * k + k == n * k) by (nonlinear_arith);
    }
}

pub proof fn lemma_records_injective<T: Record>(s: Seq<T>, t: Seq<T>)
    requires
        s.len() == t.len(),
        records(s) == records(t),
    ensures
        s == t,
    decreases s.len(),
{
    if s.len() > 0 {
        lemma_records_len(s.drop_last());
        lemma_records_len(t.drop_last());
        s.last().lemma_record();
        t.last().lemma_record();
        let n = records(s.drop_last()).len();
        let r = records(s);
        assert(records(s.drop_last()) =~= r.subrange(0, n as int));
        assert(records(t.drop_last()) =~= r.subrange(0, n as int));
        assert(s.last().to_bytes() =~= r.subrange(n as int, r.len() as int));
        assert(t.last().to_bytes() =~= r.subrange(n as int, r.len() as int));
        lemma_records_injective(s.drop_last(), t.drop_last());
        assert(s =~= t.drop_last().push(t.last()));
    } else {
        assert(s =~= t);
    }
}

/// The header of a sequence on the wire gives its length in bytes.
proof fn lemma_seq_header<T: Record>(s: Seq<T>, rest: Seq<u8>)
    requires
        rest.len() <= usize::MAX,
        seq_wire(s).is_prefix_of(rest),
    ensures
        rest.len() >= 8,
        u64_of_le(rest.take(8)) == s.len() * T::record_size(),
        8 + s.len() * T::record_size() <= rest.len(),
{
    lemma_records_len(s);
    let n = (s.len() * T::record_size()) as u64;
    lemma_u64_le(n);
    assert(rest.take(8) =~= u64_le(n));
}

/// Every decoded sequence holds a whole number of elements: the byte
/// length in its header is its element count times the element size. A
/// header whose length is not a multiple of the element size starts no
/// sequence's encoding, so decoding it fails with a format error.
pub proof fn lemma_seq_framing<T: Record>(v: Vec<T>, rest: Seq<u8>)
    requires
        rest.len() <= usize::MAX,
        v.wire().is_prefix_of(rest),
    ensures
        u64_of_le(rest.take(8)) == v@.len() * T::record_size(),
        u64_of_le(rest.take(8)) as int % T::record_size() as int == 0,
{
    lemma_seq_header(v@, rest);
    T::lemma_layout();
    lemma_mod_multiples_basic(v@.len() as int, T::record_size() as int);
}

impl<T: Record> Serialize for Vec<T> {
    open spec fn wire(&self) -> Seq<u8> {
        seq_wire(self@)
    }

    fn serialize_buf(&self, buf: &mut Vec<u8>) {
        proof {
            lemma_records_len(self@);
            lemma_u64_le((self@.len() * T::record_size()) as u64);
        }
        let len = self.len() as u64;
        let size = T::size();
        assert(len * size <= usize::MAX);
        push_u64(buf, len * size);
        let ghost start = buf@;
        let mut i: usize = 0;
        while i < self.len()
            invariant
                i <= self@.len(),
                buf@ == start + records(self@.take(i as int)),
                start == old(buf)@ + u64_le((self@.len() * T::record_size()) as u64),
            decreases self@.len() - i,
        {
            self[i].write_record(buf);
            assert(self@.take(i + 1).drop_last() =~= self@.take(i as int));
            assert(buf@ =~= start + records(self@.take(i + 1)));
            i = i + 1;
        }
        assert(self@.take(i as int) =~= self@);
        assert(final(buf)@ =~= old(buf)@ + self.wire());
    }
}

impl<T: Record> Deserialize for Vec<T> {
    open spec fn requests(&self) -> Seq<(nat, nat)> {
        seq![((self@.len() * T::record_size()) as nat, T::record_align())]
    }

    proof fn lemma_prefix_free(&self, other: &Self, s: Seq<u8>) {
        lemma_seq_header(self@, s);
        lemma_seq_header(other@, s);
        lemma_records_len(self@);
        lemma_records_len(other@);
        assert(self.wire() =~= s.take(self.wire().len() as int));
        assert(other.wire() =~= s.take(other.wire().len() as int));
        let k = T::record_size();
        if self@.len() != other@.len() {
            T::lemma_layout();
            assert(self@.len() * k != other@.len() * k) by (nonlinear_arith)
                requires
                    self@.len() != other@.len(),
                    k > 0,
            ;
        }
    }

    proof fn lemma_wire_injective(&self, other: &Self) {
        lemma_seq_header(self@, self.wire());
        lemma_seq_header(other@, self.wire());
        lemma_records_len(self@);
        lemma_records_len(other@);
        let k = T::record_size();
        T::lemma_layout();
        if self@.len() != other@.len() {
            assert(self@.len() * k != other@.len() * k) by (nonlinear_arith)
                requires
                    self@.len() != other@.len(),
                    k > 0,
            ;
        }
        assert(records(self@) =~= self.wire().skip(8));
        assert(records(other@) =~= self.wire().skip(8));
        lemma_records_injective(self@, other@);
    }

    proof fn lemma_wire_nonempty(&self) {
        lemma_records_len(self@);
    }

    fn deserialize_in<A: SeqAllocator>(cur: &mut ReadCursor, a: &mut A) -> (r: Result<Vec<T>, DecodeError>) {
        let ghost rest = cur.rest();
        let ghost a0 = *a;
        proof {
            T::lemma_layout();
        }
        let k = T::size();
        let n = match cur.take_u64() {
            Some(n) => n,
            None => {
                assert forall|v: Vec<T>| !(#[trigger] v.wire()).is_prefix_of(rest) by {
                    if v.wire().is_prefix_of(rest) {
                        lemma_seq_header(v@, rest);
                    }
                }
                return Err(DecodeError::Format);
            },
        };
        if n % k != 0 || n > cur.remaining() as u64 {
            assert forall|v: Vec<T>| !(#[trigger] v.wire()).is_prefix_of(rest) by {
                if v.wire().is_prefix_of(rest) {
                    lemma_seq_header(v@, rest);
                    lemma_mod_multiples_basic(v@.len() as int, k as int);
                }
            }
            return Err(DecodeError::Format);
        }
        let count = n / k;
        proof {
            lemma_fundamental_div_mod(n as int, k as int);
        }
        assert(count * k == n) by (nonlinear_arith)
            requires
                n == k * (n / k) + n % k,
                n % k == 0,
                count == n / k,
        ;
        let ghost req = seq![(n as nat, T::record_align())];
        assert forall|v: Vec<T>| (#[trigger] v.wire()).is_prefix_of(rest) implies v.requests()
            == req by {
            lemma_seq_header(v@, rest);
        }
        match a.reserve(count, k, T::align()) {
            Ok(()) => {},
            Err(e) => {
                assert forall|v: Vec<T>| (#[trigger] v.wire()).is_prefix_of(rest) implies reserve_all(
                    a0,
                    v.requests(),
                ) is None by {
                    assert(v.requests() == req);
                    reveal_with_fuel(reserve_all, 2);
                }
                return Err(DecodeError::Alloc(e));
            },
        }
        proof {
            assert(req.drop_first() =~= Seq::<(nat, nat)>::empty());
            reveal_with_fuel(reserve_all, 2);
            assert(reserve_all(a0, req) == Some(*a));
        }
        let ghost start = cur.pos as int;
        let mut out: Vec<T> = Vec::new();
        let mut i: u64 = 0;
        while i < count
            invariant
                cur.wf(),
                cur.bytes == old(cur).bytes,
                i <= count,
                count * k == n,
                k == T::record_size(),
                0 < k <= 64,
                start + n <= cur.bytes@.len(),
                0 <= start <= cur.pos <= start + n,
                cur.pos == start + i * k,
                out@.len() == i,
                records(out@) == cur.bytes@.subrange(start, cur.pos as int),
            decreases count - i,
        {
            assert((i + 1) * k <= count * k) by (nonlinear_arith)
                requires
                    i < count,
            ;
            assert((i + 1) * k == i * k + k) by (nonlinear_arith);
            let x = T::read_record(cur.bytes, cur.pos);
            proof {
                T::lemma_bytes(cur.bytes@.subrange(cur.pos as int, cur.pos + k));
            }
            let ghost old_out = out@;
            out.push(x);
            assert(out@.drop_last() =~= old_out);
            assert(records(out@) == records(old_out) + x.to_bytes());
            assert(records(out@) =~= cur.bytes@.subrange(start, cur.pos + k));
            cur.pos = cur.pos + k as usize;
            i = i + 1;
        }
        proof {
            lemma_le_u64(rest.take(8));
            assert(out.wire() =~= rest.subrange(0, 8 + n as int));
            assert(out.requests() == req);
        }
        Ok(out)
    }
}

/// Splitting a prefix in two.
pub proof fn lemma_prefix_split(x: Seq<u8>, y: Seq<u8>, s: Seq<u8>)
    ensures
        (x + y).is_prefix_of(s) <==> (x.is_prefix_of(s) && y.is_prefix_of(
            s.subrange(x.len() as int, s.len() as int),
        )),
{
    if (x + y).is_prefix_of(s) {
        assert(x =~= s.subrange(0, x.len() as int));
        assert forall|i: int| 0 <= i < y.len() implies y[i] == s[x.len() + i] by {
            assert((x + y)[x.len() + i] == y[i]);
        }
        assert(y =~= s.subrange(x.len() as int, s.len() as int).subrange(0, y.len() as int));
    }
    if x.is_prefix_of(s) && y.is_prefix_of(s.subrange(x.len() as int, s.len() as int)) {
        assert(x + y =~= s.subrange(0, (x + y).len() as int));
    }
}

/// The cursor's rest after moving `n` bytes forward.
pub proof fn lemma_rest_advance(c0: ReadCursor, c1: ReadCursor, n: nat)
    requires
        c0.wf(),
        c1.wf(),
        c1.bytes == c0.bytes,
        c1.pos == c0.pos + n,
    ensures
        c1.rest() == c0.rest().subrange(n as int, c0.rest().len() as int),
{
    assert(c1.rest() =~= c0.rest().subrange(n as int, c0.rest().len() as int));
}

/// Reads one record at the cursor, or returns `None` if too few bytes are left.
pub fn take_record<T: Record>(cur: &mut ReadCursor) -> (r: Option<T>)
    requires
        old(cur).wf(),
    ensures
        final(cur).wf(),
        final(cur).bytes == old(cur).bytes,
        old(cur).rest().len() >= T::record_size() ==> {
            &&& r == Some(T::from_bytes(old(cur).rest().take(T::record_size() as int)))
            &&& final(cur).pos == old(cur).pos + T::record_size()
        },
        old(cur).rest().len() < T::record_size() ==> r is None && final(cur).pos == old(cur).pos,
{
    proof {
        T::lemma_layout();
    }
    let k = T::size() as usize;
    if cur.remaining() < k {
        return None;
    }
    let x = T::read_record(cur.bytes, cur.pos);
    assert(cur.bytes@.subrange(cur.pos as int, cur.pos + k) =~= cur.rest().take(k as int));
    cur.pos = cur.pos + k;
    Some(x)
}

/// Decodes a single record as a value of the codec: no allocation.
fn deserialize_record<T: Record>(cur: &mut ReadCursor) -> (r: Result<T, DecodeError>)
    requires
        old(cur).wf(),
    ensures
        final(cur).wf(),
        final(cur).bytes == old(cur).bytes,
        match r {
            Ok(v) => {
                &&& v.to_bytes().is_prefix_of(old(cur).rest())
                &&& final(cur).pos == old(cur).pos + v.to_bytes().len()
            },
            Err(DecodeError::Format) => forall|v: T|
                !(#[trigger] v.to_bytes()).is_prefix_of(old(cur).rest()),
            Err(DecodeError::Alloc(_)) => false,
        },
{
    let ghost rest = cur.rest();
    match take_record::<T>(cur) {
        Some(x) => {
            proof {
                T::lemma_bytes(rest.take(T::record_size() as int));
                x.lemma_record();
            }
            Ok(x)
        },
        None => {
            assert forall|v: T| !(#[trigger] v.to_bytes()).is_prefix_of(rest) by {
                v.lemma_record();
            }
            Err(DecodeError::Format)
        },
    }
}

proof fn lemma_record_prefix_free<T: Record>(x: T, y: T, s: Seq<u8>)
    requires
        x.to_bytes().is_prefix_of(s),
        y.to_bytes().is_prefix_of(s),
    ensures
        x.to_bytes() == y.to_bytes(),
{
    x.lemma_record();
    y.lemma_record();
    assert(x.to_bytes() =~= s.take(T::record_size() as int));
    assert(y.to_bytes() =~= s.take(T::record_size() as int));
}

impl Serialize for u32 {
    open spec fn wire(&self) -> Seq<u8> {
        self.to_bytes()
    }

    fn serialize_buf(&self, buf: &mut Vec<u8>) {
        self.write_record(buf);
    }
}

impl Deserialize for u32 {
    open spec fn requests(&self) -> Seq<(nat, nat)> {
        seq![]
    }

    proof fn lemma_prefix_free(&self, other: &Self, s: Seq<u8>) {
        lemma_record_prefix_free(*self, *other, s);
    }

    proof fn lemma_wire_injective(&self, other: &Self) {
        self.lemma_record();
        other.lemma_record();
    }

    proof fn lemma_wire_nonempty(&self) {
        self.lemma_record();
    }

    fn deserialize_in<A: SeqAllocator>(cur: &mut ReadCursor, a: &mut A) -> (r: Result<u32, DecodeError>) {
        let r = deserialize_record::<u32>(cur);
        if let Ok(v) = r {
            assert(reserve_all(*a, v.requests()) == Some(*a));
        }
        r
    }
}

impl Serialize for Mat4 {
    open spec fn wire(&self) -> Seq<u8> {
        self.to_bytes()
    }

    fn serialize_buf(&self, buf: &mut Vec<u8>) {
        self.write_record(buf);
    }
}

impl Deserialize for Mat4 {
    open spec fn requests(&self) -> Seq<(nat, nat)> {
        seq![]
    }

    proof fn lemma_prefix_free(&self, other: &Self, s: Seq<u8>) {
        lemma_record_prefix_free(*self, *other, s);
    }

    proof fn lemma_wire_injective(&self, other: &Self) {
        self.lemma_record();
        other.lemma_record();
    }

    proof fn lemma_wire_nonempty(&self) {
        self.lemma_record();
    }

    fn deserialize_in<A: SeqAllocator>(cur: &mut ReadCursor, a: &mut A) -> (r: Result<Mat4, DecodeError>) {
        let r = deserialize_record::<Mat4>(cur);
        if let Ok(v) = r {
            assert(reserve_all(*a, v.requests()) == Some(*a));
        }
        r
    }
}

/// Two values one after the other.
impl<X: Deserialize, Y: Deserialize> Serialize for (X, Y) {
    open spec fn wire(&self) -> Seq<u8> {
        self.0.wire() + self.1.wire()
    }

    fn serialize_buf(&self, buf: &mut Vec<u8>) {
        self.0.serialize_buf(buf);
        self.1.serialize_buf(buf);
        assert(final(buf)@ =~= old(buf)@ + self.wire());
    }
}

impl<X: Deserialize, Y: Deserialize> Deserialize for (X, Y) {
    open spec fn requests(&self) -> Seq<(nat, nat)> {
        self.0.requests() + self.1.requests()
    }

    proof fn lemma_prefix_free(&self, other: &Self, s: Seq<u8>) {
        lemma_prefix_split(self.0.wire(), self.1.wire(), s);
        lemma_prefix_split(other.0.wire(), other.1.wire(), s);
        self.0.lemma_prefix_free(&other.0, s);
        self.1.lemma_prefix_free(&other.1, s.subrange(self.0.wire().len() as int, s.len() as int));
    }

    proof fn lemma_wire_injective(&self, other: &Self) {
        let s = self.wire();
        lemma_prefix_split(self.0.wire(), self.1.wire(), s);
        lemma_prefix_split(other.0.wire(), other.1.wire(), s);
        self.0.lemma_prefix_free(&other.0, s);
        assert(self.1.wire() =~= s.skip(self.0.wire().len() as int));
        assert(other.1.wire() =~= s.skip(self.0.wire().len() as int));
        self.0.lemma_wire_injective(&other.0);
        self.1.lemma_wire_injective(&other.1);
    }

    proof fn lemma_wire_nonempty(&self) {
        self.0.lemma_wire_nonempty();
    }

    fn deserialize_in<A: SeqAllocator>(cur: &mut ReadCursor, a: &mut A) -> (r: Result<(X, Y), DecodeError>) {
        let ghost c0 = *cur;
        let ghost rest = cur.rest();
        let ghost a0 = *a;
        let x = match X::deserialize_in(cur, a) {
            Ok(x) => x,
            Err(e) => {
                assert forall|v: (X, Y)| (#[trigger] v.wire()).is_prefix_of(rest) implies (
                e is Alloc && reserve_all(a0, v.requests()) is None) by {
                    lemma_prefix_split(v.0.wire(), v.1.wire(), rest);
                    lemma_reserve_all_append(a0, v.0.requests(), v.1.requests());
                }
                return Err(e);
            },
        };
        let ghost c1 = *cur;
        let ghost a1 = *a;
        proof {
            lemma_rest_advance(c0, c1, x.wire().len());
        }
        let y = match Y::deserialize_in(cur, a) {
            Ok(y) => y,
            Err(e) => {
                assert forall|v: (X, Y)| (#[trigger] v.wire()).is_prefix_of(rest) implies (
                e is Alloc && reserve_all(a0, v.requests()) is None) by {
                    lemma_prefix_split(v.0.wire(), v.1.wire(), rest);
                    x.lemma_prefix_free(&v.0, rest);
                    lemma_reserve_all_append(a0, v.0.requests(), v.1.requests());
                }
                return Err(e);
            },
        };
        proof {
            lemma_rest_advance(c1, *cur, y.wire().len());
            lemma_prefix_split(x.wire(), y.wire(), rest);
            lemma_reserve_all_append(a0, x.requests(), y.requests());
        }
        Ok((x, y))
    }
}

/// The encodings of the items of `s`, one after the other.
pub open spec fn wires<T: Serialize>(s: Seq<T>) -> Seq<u8>
    decreases s.len(),
{
    if s.len() == 0 {
        seq![]
    } else {
        wires(s.drop_last()) + s.last().wire()
    }
}

/// The allocations that decoding the items of `s` makes, in order.
pub open spec fn all_requests<T: Deserialize>(s: Seq<T>) -> Seq<(nat, nat)>
    decreases s.len(),
{
    if s.len() == 0 {
        seq![]
    } else {
        all_requests(s.drop_last()) + s.last().requests()
    }
}

pub proof fn lemma_wires_take<T: Deserialize>(s: Seq<T>, i: int)
    requires
        0 <= i <= s.len(),
    ensures
        wires(s.take(i)).is_prefix_of(wires(s)),
        all_requests(s.take(i)).is_prefix_of(all_requests(s)),
    decreases s.len(),
{
    if i == s.len() {
        assert(s.take(i) =~= s);
    } else {
        assert(s.drop_last().take(i) =~= s.take(i));
        lemma_wires_take(s.drop_last(), i);
    }
}

proof fn lemma_wires_step<T: Deserialize>(s: Seq<T>, i: int)
    requires
        0 <= i < s.len(),
    ensures
        wires(s.take(i + 1)) == wires(s.take(i)) + s[i].wire(),
        all_requests(s.take(i + 1)) == all_requests(s.take(i)) + s[i].requests(),
{
    assert(s.take(i + 1).drop_last() =~= s.take(i));
}

/// A request sequence that fails on a prefix fails as a whole.
proof fn lemma_reserve_prefix<A: SeqAllocator>(a: A, p: Seq<(nat, nat)>, q: Seq<(nat, nat)>)
    requires
        p.is_prefix_of(q),
        reserve_all(a, p) is None,
    ensures
        reserve_all(a, q) is None,
{
    let tail = q.subrange(p.len() as int, q.len() as int);
    assert(q =~= p + tail);
    lemma_reserve_all_append(a, p, tail);
}

pub proof fn lemma_list_prefix_free<T: Deserialize>(u: Seq<T>, w: Seq<T>, s: Seq<u8>)
    requires
        s.len() <= usize::MAX,
        u.len() == w.len(),
        wires(u).is_prefix_of(s),
        wires(w).is_prefix_of(s),
    ensures
        wires(u) == wires(w),
        all_requests(u) == all_requests(w),
    decreases u.len(),
{
    if u.len() > 0 {
        let (ud, wd) = (u.drop_last(), w.drop_last());
        lemma_prefix_split(wires(ud), u.last().wire(), s);
        lemma_prefix_split(wires(wd), w.last().wire(), s);
        lemma_list_prefix_free(ud, wd, s);
        u.last().lemma_prefix_free(&w.last(), s.subrange(wires(ud).len() as int, s.len() as int));
    }
}


/// Appends the encodings of all items.
pub fn serialize_all<T: Deserialize>(items: &Vec<T>, buf: &mut Vec<u8>)
    requires
        old(buf)@.len() + wires(items@).len() <= usize::MAX,
    ensures
        final(buf)@ == old(buf)@ + wires(items@),
{
    let mut i: usize = 0;
    while i < items.len()
        invariant
            i <= items@.len(),
            buf@ == old(buf)@ + wires(items@.take(i as int)),
            old(buf)@.len() + wires(items@).len() <= usize::MAX,
        decreases items@.len() - i,
    {
        proof {
            lemma_wires_step(items@, i as int);
            lemma_wires_take(items@, i + 1);
        }
        items[i].serialize_buf(buf);
        assert(buf@ =~= old(buf)@ + wires(items@.take(i + 1)));
        i = i + 1;
    }
    assert(items@.take(i as int) =~= items@);
}

/// Decodes `count` items one after the other, with the same contract as
/// `Deserialize::deserialize_in` over the lists of `count` items.
pub fn deserialize_list<T: Deserialize, A: SeqAllocator>(cur: &mut ReadCursor, a: &mut A, count: u64) -> (r:
    Result<Vec<T>, DecodeError>)
    requires
        old(cur).wf(),
        old(a).wf(),
    ensures
        final(cur).wf(),
        final(cur).bytes == old(cur).bytes,
        final(a).wf(),
        match r {
            Ok(v) => {
                &&& v@.len() == count
                &&& wires(v@).is_prefix_of(old(cur).rest())
                &&& final(cur).pos == old(cur).pos + wires(v@).len()
                &&& reserve_all(*old(a), all_requests(v@)) == Some(*final(a))
            },
            Err(DecodeError::Format) => forall|v: Seq<T>|
                v.len() == count ==> !(#[trigger] wires(v)).is_prefix_of(old(cur).rest()),
            Err(DecodeError::Alloc(_)) => forall|v: Seq<T>|
                v.len() == count && (#[trigger] wires(v)).is_prefix_of(old(cur).rest())
                    ==> reserve_all(*old(a), all_requests(v)) is None,
        },
{
    let ghost c0 = *cur;
    let ghost rest = cur.rest();
    let ghost a0 = *a;
    let mut out: Vec<T> = Vec::new();
    let mut i: u64 = 0;
    assert(wires(out@) =~= rest.take(0));
    while i < count
        invariant
            c0 == *old(cur),
            a0 == *old(a),
            c0.wf(),
            rest == c0.rest(),
            cur.wf(),
            cur.bytes == c0.bytes,
            a.wf(),
            i <= count,
            out@.len() == i,
            wires(out@).is_prefix_of(rest),
            cur.pos == c0.pos + wires(out@).len(),
            reserve_all(a0, all_requests(out@)) == Some(*a),
        decreases count - i,
    {
        let ghost ci = *cur;
        let ghost ai = *a;
        proof {
            lemma_rest_advance(c0, ci, wires(out@).len());
        }
        let x = match T::deserialize_in(cur, a) {
            Ok(x) => x,
            Err(e) => {
                assert forall|v: Seq<T>| v.len() == count && (#[trigger] wires(v)).is_prefix_of(rest)
                    implies (e is Alloc && reserve_all(a0, all_requests(v)) is None) by {
                    lemma_wires_take(v, i as int);
                    lemma_wires_take(v, i + 1);
                    lemma_wires_step(v, i as int);
                    lemma_list_prefix_free(v.take(i as int), out@, rest);
                    lemma_prefix_split(wires(v.take(i as int)), v[i as int].wire(), rest);
                    lemma_reserve_all_append(a0, all_requests(v.take(i as int)), v[i as int].requests());
                    lemma_reserve_prefix(a0, all_requests(v.take(i + 1)), all_requests(v));
                }
                return Err(e);
            },
        };
        proof {
            lemma_rest_advance(ci, *cur, x.wire().len());
            lemma_prefix_split(wires(out@), x.wire(), rest);
            lemma_reserve_all_append(a0, all_requests(out@), x.requests());
        }
        let ghost old_out = out@;
        out.push(x);
        assert(out@.drop_last() =~= old_out);
        i = i + 1;
    }
    Ok(out)
}

proof fn lemma_wires_len<T: Deserialize>(s: Seq<T>)
    ensures
        wires(s).len() >= s.len(),
    decreases s.len(),
{
    if s.len() > 0 {
        lemma_wires_len(s.drop_last());
        s.last().lemma_wire_nonempty();
    }
}

/// Lists of the same length with the same encoding are equal.
pub proof fn lemma_list_injective<T: Deserialize>(u: Seq<T>, w: Seq<T>)
    requires
        u.len() == w.len(),
        wires(u) == wires(w),
        wires(u).len() <= usize::MAX,
    ensures
        u.map_values(|x: T| x@) == w.map_values(|x: T| x@),
    decreases u.len(),
{
    if u.len() > 0 {
        let s = wires(u);
        let (ud, wd) = (u.drop_last(), w.drop_last());
        lemma_prefix_split(wires(ud), u.last().wire(), s);
        lemma_prefix_split(wires(wd), w.last().wire(), s);
        lemma_list_prefix_free(ud, wd, s);
        assert(u.last().wire() =~= s.skip(wires(ud).len() as int));
        assert(w.last().wire() =~= s.skip(wires(ud).len() as int));
        u.last().lemma_wire_injective(&w.last());
        lemma_list_injective(ud, wd);
        assert(u.map_values(|x: T| x@) =~= ud.map_values(|x: T| x@).push(u.last()@));
        assert(w.map_values(|x: T| x@) =~= wd.map_values(|x: T| x@).push(w.last()@));
    }
    assert(u.map_values(|x: T| x@) =~= w.map_values(|x: T| x@));
}

/// A list on the wire: its number of items, then the items.
pub open spec fn counted_wire<T: Deserialize>(s: Seq<T>) -> Seq<u8> {
    u64_le(s.len() as u64) + wires(s)
}

/// The allocations of decoding a list: the list itself, with `size` bytes
/// per item at alignment `align`, then those of its items.
pub open spec fn counted_requests<T: Deserialize>(s: Seq<T>, size: nat, align: nat) -> Seq<(nat, nat)> {
    seq![(s.len() * size, align)] + all_requests(s)
}

/// The header of a list on the wire gives its number of items.
proof fn lemma_counted_header<T: Deserialize>(s: Seq<T>, rest: Seq<u8>)
    requires
        rest.len() <= usize::MAX,
        counted_wire(s).is_prefix_of(rest),
    ensures
        rest.len() >= 8,
        u64_of_le(rest.take(8)) == s.len(),
        wires(s).is_prefix_of(rest.subrange(8, rest.len() as int)),
{
    lemma_wires_len(s);
    lemma_u64_le(s.len() as u64);
    lemma_prefix_split(u64_le(s.len() as u64), wires(s), rest);
    assert(rest.take(8) =~= u64_le(s.len() as u64));
}

pub proof fn lemma_counted_prefix_free<T: Deserialize>(u: Seq<T>, w: Seq<T>, s: Seq<u8>)
    requires
        s.len() <= usize::MAX,
        counted_wire(u).is_prefix_of(s),
        counted_wire(w).is_prefix_of(s),
    ensures
        counted_wire(u) == counted_wire(w),
        u.len() == w.len(),
        all_requests(u) == all_requests(w),
{
    lemma_counted_header(u, s);
    lemma_counted_header(w, s);
    lemma_list_prefix_free(u, w, s.subrange(8, s.len() as int));
}

/// Lists with the same encoding are equal.
pub proof fn lemma_counted_injective<T: Deserialize>(u: Seq<T>, w: Seq<T>)
    requires
        counted_wire(u) == counted_wire(w),
        counted_wire(u).len() <= usize::MAX,
    ensures
        u.map_values(|x: T| x@) == w.map_values(|x: T| x@),
{
    let s = counted_wire(u);
    lemma_counted_prefix_free(u, w, s);
    assert(wires(u) =~= s.skip(8));
    assert(wires(w) =~= s.skip(8));
    lemma_list_injective(u, w);
}

/// Appends a list: its number of items, then the items.
pub fn serialize_counted<T: Deserialize>(items: &Vec<T>, buf: &mut Vec<u8>)
    requires
        old(buf)@.len() + counted_wire(items@).len() <= usize::MAX,
    ensures
        final(buf)@ == old(buf)@ + counted_wire(items@),
{
    proof {
        lemma_u64_le(items@.len() as u64);
    }
    push_u64(buf, items.len() as u64);
    serialize_all(items, buf);
    assert(final(buf)@ =~= old(buf)@ + counted_wire(items@));
}

/// Decodes a list: its number of items, a reservation for the list of
/// `elem_size` bytes per item at alignment `elem_align`, then the items.
pub fn deserialize_counted<T: Deserialize, A: SeqAllocator>(
    cur: &mut ReadCursor,
    a: &mut A,
    elem_size: u64,
    elem_align: u64,
) -> (r: Result<Vec<T>, DecodeError>)
    requires
        old(cur).wf(),
        old(a).wf(),
        elem_align > 0,
    ensures
        final(cur).wf(),
        final(cur).bytes == old(cur).bytes,
        final(a).wf(),
        match r {
            Ok(v) => {
                &&& counted_wire(v@).is_prefix_of(old(cur).rest())
                &&& final(cur).pos == old(cur).pos + counted_wire(v@).len()
                &&& reserve_all(*old(a), counted_requests(v@, elem_size as nat, elem_align as nat))
                    == Some(*final(a))
            },
            Err(DecodeError::Format) => forall|v: Seq<T>|
                !(#[trigger] counted_wire(v)).is_prefix_of(old(cur).rest()),
            Err(DecodeError::Alloc(_)) => forall|v: Seq<T>|
                (#[trigger] counted_wire(v)).is_prefix_of(old(cur).rest()) ==> reserve_all(
                    *old(a),
                    counted_requests(v, elem_size as nat, elem_align as nat),
                ) is None,
        },
{
    let ghost c0 = *cur;
    let ghost rest = cur.rest();
    let ghost a0 = *a;
    let count = match cur.take_u64() {
        Some(n) => n,
        None => {
            assert forall|v: Seq<T>| !(#[trigger] counted_wire(v)).is_prefix_of(rest) by {
                if counted_wire(v).is_prefix_of(rest) {
                    lemma_counted_header(v, rest);
                }
            }
            return Err(DecodeError::Format);
        },
    };
    let ghost head = seq![(count as nat * elem_size as nat, elem_align as nat)];
    assert forall|v: Seq<T>| (#[trigger] counted_wire(v)).is_prefix_of(rest) implies v.len() == count
        && counted_requests(v, elem_size as nat, elem_align as nat) == head + all_requests(v) by {
        lemma_counted_header(v, rest);
    }
    match a.reserve(count, elem_size, elem_align) {
        Ok(()) => {},
        Err(e) => {
            assert forall|v: Seq<T>| (#[trigger] counted_wire(v)).is_prefix_of(rest) implies reserve_all(
                a0,
                counted_requests(v, elem_size as nat, elem_align as nat),
            ) is None by {
                reveal_with_fuel(reserve_all, 2);
                lemma_reserve_all_append(a0, head, all_requests(v));
            }
            return Err(DecodeError::Alloc(e));
        },
    }
    let ghost c1 = *cur;
    let ghost a1 = *a;
    proof {
        lemma_rest_advance(c0, c1, 8);
        reveal_with_fuel(reserve_all, 2);
        assert(reserve_all(a0, head) == Some(a1));
    }
    match deserialize_list::<T, A>(cur, a, count) {
        Ok(v) => {
            proof {
                lemma_le_u64(rest.take(8));
                lemma_prefix_split(u64_le(count), wires(v@), rest);
                lemma_reserve_all_append(a0, head, all_requests(v@));
            }
            Ok(v)
        },
        Err(e) => {
            assert forall|v: Seq<T>| (#[trigger] counted_wire(v)).is_prefix_of(rest) implies (e is Alloc
                && reserve_all(a0, counted_requests(v, elem_size as nat, elem_align as nat)) is None) by {
                lemma_counted_header(v, rest);
                lemma_reserve_all_append(a0, head, all_requests(v));
            }
            Err(e)
        },
    }
}

} // verus!
