//! A minimal protobuf wire reader: only the shapes a tokenizer model needs.

use vstd::arithmetic::power2::{
    lemma2_to64, lemma2_to64_rest, lemma_pow2_pos, lemma_pow2_strictly_increases, lemma_pow2_adds,
    pow2,
};
use vstd::bits::lemma_u64_shl_is_mul;
use vstd::prelude::*;
use vstd::slice::slice_subrange;

verus! {

/// What a vocabulary piece stands for.
#[derive(Clone, Copy, Debug, PartialEq, Eq, Structural)]
pub enum PieceKind {
    Normal,
    Unknown,
    Control,
    UserDefined,
    Byte,
    Unused,
}

impl PieceKind {
    /// The kind a protobuf enum value denotes; anything unlisted is a normal piece.
    pub open spec fn of_proto(v: int) -> PieceKind {
        if v == 2 {
            PieceKind::Unknown
        } else if v == 3 {
            PieceKind::Control
        } else if v == 4 {
            PieceKind::UserDefined
        } else if v == 5 {
            PieceKind::Unused
        } else if v == 6 {
            PieceKind::Byte
        } else {
            PieceKind::Normal
        }
    }

    /// Decodes the enum value stored in a model file.
    pub fn from_proto(v: u64) -> (kind: PieceKind)
        ensures
            kind == PieceKind::of_proto(v as int),
    {
        match v {
            1 => PieceKind::Normal,
            2 => PieceKind::Unknown,
            3 => PieceKind::Control,
            4 => PieceKind::UserDefined,
            5 => PieceKind::Unused,
            6 => PieceKind::Byte,
            _ => PieceKind::Normal,
        }
    }

    /// Whether pieces of this kind may come out of a merge.
    pub open spec fn merges(self) -> bool {
        self == PieceKind::Normal || self == PieceKind::UserDefined
    }
}

/// The number spelled by `b` in groups of seven bits, least significant first.
pub open spec fn groups(b: Seq<u8>) -> nat
    decreases b.len(),
{
    if b.len() == 0 {
        0
    } else {
        groups(b.drop_last()) + (b.last() as nat % 128) * pow2((7 * (b.len() - 1)) as nat)
    }
}

/// How many bytes reading a varint at `i` takes, `k` of them being taken
/// already: up to and with the first byte below 128, never more than ten, and
/// never past the end.
pub open spec fn varint_extent(b: Seq<u8>, i: int, k: nat) -> nat
    decreases 10 - k,
{
    if k >= 10 || i + k >= b.len() {
        k
    } else if b[i + k] < 128 {
        k + 1
    } else {
        varint_extent(b, i, k + 1)
    }
}

/// Where the reader stands after a varint at `i`, complete or not.
pub open spec fn varint_end(b: Seq<u8>, i: int) -> int {
    i + varint_extent(b, i, 0)
}

/// The varint at `i`, if it is complete; what does not fit 64 bits is dropped.
pub open spec fn varint_at(b: Seq<u8>, i: int) -> Option<nat> {
    let end = varint_end(b, i);
    if end > i && b[end - 1] < 128 {
        Some(groups(b.subrange(i, end)) % pow2(64))
    } else {
        None
    }
}

/// Where a length-delimited field at `i` ends, if it lies inside `b`. It starts
/// at `varint_end(b, i)`.
pub open spec fn bytes_end(b: Seq<u8>, i: int) -> Option<int> {
    match varint_at(b, i) {
        Some(len) => if varint_end(b, i) + len <= b.len() {
            Some(varint_end(b, i) + len)
        } else {
            None
        },
        None => None,
    }
}

/// The four bytes at `i` as a little-endian number, if they are there.
pub open spec fn fixed32_at(b: Seq<u8>, i: int) -> Option<u32> {
    if i + 4 <= b.len() {
        Some((b[i] + 0x100 * b[i + 1] + 0x1_0000 * b[i + 2] + 0x100_0000 * b[i + 3]) as u32)
    } else {
        None
    }
}

/// Where the reader stands after skipping a field of wire type `wire` at `i`,
/// if the field could be skipped.
pub open spec fn skip_end(b: Seq<u8>, i: int, wire: int) -> Option<int> {
    if wire == 0 {
        match varint_at(b, i) {
            Some(_) => Some(varint_end(b, i)),
            None => None,
        }
    } else if wire == 1 {
        Some(i + 8)
    } else if wire == 2 {
        bytes_end(b, i)
    } else if wire == 5 {
        if i + 4 <= b.len() {
            Some(i + 4)
        } else {
            None
        }
    } else {
        None
    }
}

/// Adding one more group on top of `out`, with the bits past 64 dropped.
proof fn lemma_or_group(out: u64, low: u64, shift: u64)
    requires
        shift <= 56 || shift == 63,
        out < pow2(shift as nat),
        low < 128,
    ensures
        (out | (low << shift)) == (out + low * pow2(shift as nat)) % (pow2(64) as int),
        shift <= 56 ==> (out | (low << shift)) == out + low * pow2(shift as nat),
{
    lemma2_to64();
    lemma2_to64_rest();
    lemma_pow2_pos(shift as nat);
    if shift < 56 {
        lemma_pow2_strictly_increases(shift as nat, 56);
    } else if shift == 63 {
        lemma_pow2_strictly_increases(56, 63);
    }
    assert(pow2(shift as nat) <= pow2(63));
    lemma_u64_shl_is_mul(1, shift);
    assert(out | (low << shift) == out + (low << shift)) by (bit_vector)
        requires
            shift < 64,
            out < (1u64 << shift),
    ;
    if shift <= 56 {
        assert(low * pow2(shift as nat) <= 127 * pow2(56)) by (nonlinear_arith)
            requires
                low < 128,
                pow2(shift as nat) <= pow2(56),
        ;
        lemma_u64_shl_is_mul(low, shift);
    } else {
        assert(low << 63u64 == (low % 2) << 63u64) by (bit_vector);
        let bit = low % 2;
        assert(bit * pow2(63) <= pow2(63)) by (nonlinear_arith)
            requires
                bit <= 1,
        ;
        lemma_u64_shl_is_mul(bit, 63);
        assert(low * pow2(63) == (low / 2) * pow2(64) + bit * pow2(63)) by (nonlinear_arith)
            requires
                low == 2 * (low / 2) + bit,
                pow2(64) == 2 * pow2(63),
        ;
        let r = out + bit * pow2(63);
        assert(r < pow2(64));
        assert((out + low * pow2(63)) % (pow2(64) as int) == r) by {
            vstd::arithmetic::div_mod::lemma_mod_multiples_vanish(
                (low / 2) as int,
                r,
                pow2(64) as int,
            );
        }
    }
}

/// The extent does not depend on where the count of taken bytes starts, as long
/// as those taken all ask for more.
proof fn lemma_extent_unfold(b: Seq<u8>, i: int, k: nat)
    requires
        k < 10,
        0 <= i,
        i + k < b.len(),
        forall|j: int| i <= j < i + k ==> b[j] >= 128,
        varint_end(b, i) == i + varint_extent(b, i, k),
    ensures
        b[i + k] >= 128 ==> varint_end(b, i) == i + varint_extent(b, i, k + 1),
        b[i + k] < 128 ==> varint_end(b, i) == i + k + 1,
{
}

proof fn lemma_extent(b: Seq<u8>, i: int, k: nat)
    requires
        0 <= i,
        i + k <= b.len() || k == 0,
    ensures
        varint_extent(b, i, k) >= k,
        varint_extent(b, i, k) > 0 ==> i + varint_extent(b, i, k) <= b.len(),
        k < 10 && i + k < b.len() ==> varint_extent(b, i, k) > k,
    decreases 10 - k,
{
    if k < 10 && i + k < b.len() && b[i + k] >= 128 {
        lemma_extent(b, i, k + 1);
    }
}

/// Reading never goes back, a number takes at least one byte where there is
/// one, and a field that was read lies inside the message.
pub proof fn lemma_reads_advance(b: Seq<u8>, i: int)
    requires
        0 <= i,
    ensures
        varint_end(b, i) >= i,
        i < b.len() ==> i < varint_end(b, i) <= b.len(),
        varint_at(b, i) is Some ==> i < varint_end(b, i) <= b.len(),
        bytes_end(b, i) matches Some(end) ==> varint_end(b, i) <= end <= b.len(),
        forall|wire: int| (#[trigger] skip_end(b, i, wire)) matches Some(end) ==> i < end,
{
    lemma_extent(b, i, 0);
}

/// A reader over one message.
pub struct Wire<'a> {
    b: &'a [u8],
    i: usize,
}

impl<'a> Wire<'a> {
    /// The message.
    pub closed spec fn data(&self) -> Seq<u8> {
        self.b@
    }

    /// The index of the next byte to read.
    pub closed spec fn pos(&self) -> int {
        self.i as int
    }

    /// A reader at the start of `b`.
    pub fn new(b: &'a [u8]) -> (w: Self)
        ensures
            w.data() == b@,
            w.pos() == 0,
    {
        Wire { b, i: 0 }
    }

    /// Whether everything has been read.
    pub fn done(&self) -> (r: bool)
        ensures
            r == (self.pos() >= self.data().len()),
    {
        self.i >= self.b.len()
    }

    /// Reads a base-128 number. Nothing comes back from a number that the end
    /// of the message cuts off or that goes on past its tenth byte; the bytes
    /// looked at are taken all the same.
    pub fn varint(&mut self) -> (r: Option<u64>)
        ensures
            final(self).data() == old(self).data(),
            final(self).pos() == varint_end(old(self).data(), old(self).pos()),
            r is Some <==> varint_at(old(self).data(), old(self).pos()) is Some,
            r is Some ==> r->0 == varint_at(old(self).data(), old(self).pos())->0,
    {
        let ghost b = self.b@;
        let ghost i0 = self.i as int;
        let mut out: u64 = 0;
        let mut shift: u64 = 0;
        proof {
            lemma2_to64();
            lemma2_to64_rest();
        }
        loop
            invariant
                self.b@ == b,
                b == old(self).data(),
                i0 == old(self).pos(),
                0 <= i0 <= self.i,
                shift == 7 * (self.i - i0),
                shift <= 63,
                self.i > i0 ==> self.i <= b.len(),
                forall|j: int| i0 <= j < self.i ==> b[j] >= 128,
                varint_end(b, i0) == i0 + varint_extent(b, i0, (self.i - i0) as nat),
                i0 < b.len() ==> out == groups(b.subrange(i0, self.i as int)),
                out < pow2(shift as nat),
                pow2(0) == 1,
                pow2(64) == 0x1_0000_0000_0000_0000,
            decreases 70 - shift,
        {
            if self.i >= self.b.len() {
                return None;
            }
            let byte: u8 = self.b[self.i];
            let low: u64 = (byte % 128) as u64;
            let ghost k = (self.i - i0) as nat;
            proof {
                lemma_extent_unfold(b, i0, k);
                lemma_or_group(out, low, shift);
                let longer = b.subrange(i0, self.i + 1);
                assert(longer.drop_last() =~= b.subrange(i0, self.i as int));
                assert(longer.last() == byte);
                assert(groups(longer) == out + low * pow2(shift as nat));
            }
            self.i = self.i + 1;
            let ghost before = out;
            out = out | (low << shift);
            if byte < 128 {
                return Some(out);
            }
            if shift == 63 {
                return None;
            }
            proof {
                lemma_pow2_adds(shift as nat, 7);
                assert(before + low * pow2(shift as nat) < pow2(shift as nat) * 128)
                    by (nonlinear_arith)
                    requires
                        before < pow2(shift as nat),
                        low < 128,
                ;
                assert(pow2(7) == 128) by {
                    lemma2_to64();
                }
            }
            shift = shift + 7;
        }
    }

    /// Reads a length and that many bytes.
    pub fn bytes(&mut self) -> (r: Option<&'a [u8]>)
        ensures
            final(self).data() == old(self).data(),
            r is Some <==> bytes_end(old(self).data(), old(self).pos()) is Some,
            match bytes_end(old(self).data(), old(self).pos()) {
                Some(end) => {
                    &&& final(self).pos() == end
                    &&& r->0@ == old(self).data().subrange(
                        varint_end(old(self).data(), old(self).pos()),
                        end,
                    )
                },
                None => final(self).pos() == varint_end(old(self).data(), old(self).pos()),
            },
    {
        let len: u64 = match self.varint() {
            Some(len) => len,
            None => return None,
        };
        if self.i > self.b.len() || len > (self.b.len() - self.i) as u64 {
            return None;
        }
        let end: usize = self.i + len as usize;
        let out = slice_subrange(self.b, self.i, end);
        self.i = end;
        Some(out)
    }

    /// Reads four bytes as a little-endian number.
    pub fn fixed32(&mut self) -> (r: Option<u32>)
        ensures
            final(self).data() == old(self).data(),
            r == fixed32_at(old(self).data(), old(self).pos()),
            final(self).pos() == old(self).pos() + (if r is Some {
                4int
            } else {
                0
            }),
    {
        if self.b.len() < 4 || self.i > self.b.len() - 4 {
            return None;
        }
        let i = self.i;
        let raw: u32 = self.b[i] as u32 + 0x100 * (self.b[i + 1] as u32) + 0x1_0000 * (self.b[i + 2]
            as u32) + 0x100_0000 * (self.b[i + 3] as u32);
        self.i = i + 4;
        Some(raw)
    }

    /// Advances past a field whose contents are not wanted.
    pub fn skip(&mut self, wire: u8) -> (r: Option<()>)
        requires
            old(self).pos() + 8 <= usize::MAX,
        ensures
            final(self).data() == old(self).data(),
            r is Some <==> skip_end(old(self).data(), old(self).pos(), wire as int) is Some,
            match skip_end(old(self).data(), old(self).pos(), wire as int) {
                Some(end) => final(self).pos() == end,
                None => final(self).pos() == if wire == 0 || wire == 2 {
                    varint_end(old(self).data(), old(self).pos())
                } else {
                    old(self).pos()
                },
            },
    {
        match wire {
            0 => match self.varint() {
                Some(_) => Some(()),
                None => None,
            },
            1 => {
                self.i = self.i + 8;
                Some(())
            },
            2 => match self.bytes() {
                Some(_) => Some(()),
                None => None,
            },
            5 => match self.fixed32() {
                Some(_) => Some(()),
                None => None,
            },
            _ => None,
        }
    }
}

/// A number as it is written: in groups of seven bits, the lowest first, all but
/// the last marked.
pub open spec fn varint_bytes(n: nat) -> Seq<u8>
    decreases n,
{
    if n < 128 {
        seq![n as u8]
    } else {
        seq![(n % 128 + 128) as u8] + varint_bytes(n / 128)
    }
}

/// A group in front of others is worth itself, and the others a group more.
proof fn lemma_groups_front(b: u8, rest: Seq<u8>)
    ensures
        groups(seq![b] + rest) == b as nat % 128 + 128 * groups(rest),
    decreases rest.len(),
{
    let all = seq![b] + rest;
    lemma2_to64();
    if rest.len() == 0 {
        assert(all =~= seq![b]);
        assert(all.drop_last() =~= Seq::<u8>::empty());
        reveal_with_fuel(groups, 2);
        assert((b as nat % 128) * pow2(0) == b as nat % 128) by (nonlinear_arith)
            requires
                pow2(0) == 1,
        ;
    } else {
        let short = rest.drop_last();
        lemma_groups_front(b, short);
        assert(all.drop_last() =~= seq![b] + short);
        assert(all.last() == rest.last());
        let k = (7 * (rest.len() - 1)) as nat;
        lemma_pow2_adds(7, k);
        assert(7 + k == 7 * (all.len() - 1));
        let (x, p) = (rest.last() as nat % 128, pow2(k));
        assert(x * (128 * p) == 128 * (x * p)) by (nonlinear_arith);
        assert(128 * (groups(short) + x * p) == 128 * groups(short) + 128 * (x * p))
            by (nonlinear_arith);
    }
}

/// The shape of a number as it is written.
proof fn lemma_varint_bytes(n: nat, k: nat)
    requires
        n < pow2(7 * k),
        k >= 1,
    ensures
        1 <= varint_bytes(n).len() <= k,
        varint_bytes(n).last() < 128,
        forall|j: int|
            0 <= j < varint_bytes(n).len() - 1 ==> (#[trigger] varint_bytes(n)[j]) >= 128,
        groups(varint_bytes(n)) == n,
    decreases n,
{
    lemma2_to64();
    let all = varint_bytes(n);
    if n < 128 {
        assert(all =~= seq![n as u8] + Seq::<u8>::empty());
        lemma_groups_front(n as u8, Seq::empty());
    } else {
        if k == 1 {
            assert(pow2(7) == 128);
        }
        let rest = varint_bytes(n / 128);
        lemma_pow2_adds(7, (7 * (k - 1)) as nat);
        assert(7 + 7 * (k - 1) == 7 * k);
        let p = pow2((7 * (k - 1)) as nat);
        assert(n / 128 < p) by (nonlinear_arith)
            requires
                n < 128 * p,
        ;
        lemma_varint_bytes(n / 128, (k - 1) as nat);
        lemma_groups_front((n % 128 + 128) as u8, rest);
        assert forall|j: int| 0 <= j < all.len() - 1 implies (#[trigger] all[j]) >= 128 by {
            if j > 0 {
                assert(all[j] == rest[j - 1]);
            }
        }
        assert(all.last() == rest.last());
    }
}

/// A reader takes the marked groups and the one after them.
proof fn lemma_extent_of(b: Seq<u8>, i: int, k: nat, len: nat)
    requires
        0 <= i,
        k < len <= 10,
        i + len <= b.len(),
        forall|j: int| 0 <= j < len - 1 ==> (#[trigger] b[i + j]) >= 128,
        b[i + len - 1] < 128,
    ensures
        varint_extent(b, i, k) == len,
    decreases len - k,
{
    if k + 1 < len {
        assert(b[i + k] >= 128);
        lemma_extent_of(b, i, k + 1, len);
    }
}

/// A number that was written is read back, wherever it stands and whatever comes
/// after it, and the reader then stands behind it.
pub proof fn law_varints_come_back(before: Seq<u8>, n: nat, after: Seq<u8>)
    requires
        n < pow2(64),
    ensures
        varint_at(before + varint_bytes(n) + after, before.len() as int) == Some(n),
        varint_end(before + varint_bytes(n) + after, before.len() as int) == before.len()
            + varint_bytes(n).len(),
{
    let w = varint_bytes(n);
    let b = before + w + after;
    let i = before.len() as int;
    lemma_pow2_strictly_increases(64, 70);
    lemma_varint_bytes(n, 10);
    assert forall|j: int| 0 <= j < w.len() - 1 implies (#[trigger] b[i + j]) >= 128 by {
        assert(b[i + j] == w[j]);
    }
    assert(b[i + w.len() - 1] == w.last());
    lemma_extent_of(b, i, 0, w.len());
    assert(b.subrange(i, i + w.len()) =~= w);
    vstd::arithmetic::div_mod::lemma_small_mod(n, pow2(64));
}

/// A field of bytes as it is written: its length and the bytes.
pub open spec fn field_bytes(payload: Seq<u8>) -> Seq<u8> {
    varint_bytes(payload.len()) + payload
}

/// A field of bytes that was written is read back whole.
pub proof fn law_fields_come_back(before: Seq<u8>, payload: Seq<u8>, after: Seq<u8>)
    requires
        payload.len() < pow2(64),
    ensures
        ({
            let b = before + field_bytes(payload) + after;
            let i = before.len() as int;
            &&& bytes_end(b, i) == Some(i + field_bytes(payload).len())
            &&& b.subrange(varint_end(b, i), i + field_bytes(payload).len()) == payload
        }),
{
    let b = before + field_bytes(payload) + after;
    let i = before.len() as int;
    let w = varint_bytes(payload.len());
    assert(b =~= before + w + (payload + after));
    law_varints_come_back(before, payload.len(), payload + after);
    assert(b.subrange(i + w.len(), i + field_bytes(payload).len()) =~= payload);
}

/// Four bytes as they are written, the lowest first.
pub open spec fn fixed32_bytes(v: u32) -> Seq<u8> {
    seq![
        (v % 256) as u8,
        (v / 256 % 256) as u8,
        (v / 65536 % 256) as u8,
        (v / 16777216) as u8,
    ]
}

/// Four bytes that were written are read back.
pub proof fn law_fixed32_comes_back(before: Seq<u8>, v: u32, after: Seq<u8>)
    ensures
        fixed32_at(before + fixed32_bytes(v) + after, before.len() as int) == Some(v),
{
    let w = fixed32_bytes(v);
    let b = before + w + after;
    let i = before.len() as int;
    assert(b[i] == w[0] && b[i + 1] == w[1] && b[i + 2] == w[2] && b[i + 3] == w[3]);
}

/// Fields that are not known are passed over: a number, eight bytes, a field of
/// bytes, four bytes; and no other kind is.
pub proof fn law_fields_are_passed_over(before: Seq<u8>, n: nat, payload: Seq<u8>, after: Seq<u8>)
    requires
        n < pow2(64),
        payload.len() < pow2(64),
    ensures
        skip_end(before + varint_bytes(n) + after, before.len() as int, 0) == Some(
            before.len() as int + varint_bytes(n).len(),
        ),
        skip_end(before + payload, before.len() as int, 1) == Some(before.len() as int + 8),
        skip_end(before + field_bytes(payload) + after, before.len() as int, 2) == Some(
            before.len() as int + field_bytes(payload).len(),
        ),
        payload.len() >= 4 ==> skip_end(before + payload, before.len() as int, 5) == Some(
            before.len() as int + 4,
        ),
        payload.len() < 4 ==> skip_end(before + payload, before.len() as int, 5) is None,
        skip_end(before, 0, 3) is None,
        skip_end(before, 0, 4) is None,
        skip_end(before, 0, 6) is None,
        skip_end(before, 0, 7) is None,
{
    law_varints_come_back(before, n, after);
    law_fields_come_back(before, payload, after);
}

/// The kinds are numbered from one; whatever has no number of its own is a normal
/// piece, and only normal pieces and those of the user's come out of merges.
pub proof fn law_kinds_have_numbers(v: int)
    ensures
        PieceKind::of_proto(1) == PieceKind::Normal,
        PieceKind::of_proto(2) == PieceKind::Unknown,
        PieceKind::of_proto(3) == PieceKind::Control,
        PieceKind::of_proto(4) == PieceKind::UserDefined,
        PieceKind::of_proto(5) == PieceKind::Unused,
        PieceKind::of_proto(6) == PieceKind::Byte,
        v < 1 || v > 6 ==> PieceKind::of_proto(v) == PieceKind::Normal,
        PieceKind::of_proto(v).merges() <==> !(v == 2 || v == 3 || v == 5 || v == 6),
{
}

} // verus!
