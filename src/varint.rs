//! LEB128 variable-length integers as protobuf writes them.
use vstd::prelude::*;

verus! {

/// The LEB128 bytes of `v`: seven bits per byte, least significant group
/// first, the high bit set on every byte but the last.
pub open spec fn varint_bytes(v: nat) -> Seq<u8>
    decreases v,
{
    if v < 128 {
        seq![v as u8]
    } else {
        seq![(v % 128 + 128) as u8] + varint_bytes(v / 128)
    }
}

/// The value of a sequence of seven-bit groups, least significant first.
pub open spec fn groups_value(b: Seq<u8>) -> nat
    decreases b.len(),
{
    if b.len() == 0 {
        0
    } else {
        (b[0] % 128) as nat + 128 * groups_value(b.drop_first())
    }
}

/// Where the varint that starts at the front of `b` ends, looking from index
/// `i` on: the first byte without the high bit among the first ten. A tenth
/// byte above one would overflow 64 bits and ends nothing.
pub open spec fn varint_end(b: Seq<u8>, i: nat) -> Option<nat>
    decreases 10 - i,
{
    if i >= 10 || i >= b.len() {
        None
    } else if b[i as int] < 128 {
        if i == 9 && b[i as int] >= 2 {
            None
        } else {
            Some(i + 1)
        }
    } else {
        varint_end(b, i + 1)
    }
}

/// The varint at the front of `b`, as (value, number of bytes), if there is one.
pub open spec fn read_varint(b: Seq<u8>) -> Option<(nat, nat)> {
    match varint_end(b, 0) {
        Some(n) => Some((groups_value(b.take(n as int)), n)),
        None => None,
    }
}

/// 128 to the power `k`.
pub open spec fn pow128(k: nat) -> nat
    decreases k,
{
    if k == 0 {
        1
    } else {
        128 * pow128((k - 1) as nat)
    }
}

/// The error type of prost's decoders, carried through opaque.
#[verifier::external_type_specification]
#[verifier::external_body]
pub struct ExDecodeError(prost::DecodeError);

/// Relies on prost::encoding::encode_varint: it appends the LEB128 bytes of
/// the value to the buffer.
#[verifier::external_body]
pub(crate) fn put_varint(buf: &mut Vec<u8>, v: u64)
    ensures
        final(buf)@ == old(buf)@ + varint_bytes(v as nat),
{
    prost::encoding::encode_varint(v, buf)
}

/// Relies on prost::encoding::decode_varint: on a byte slice it reads the
/// varint at its front and advances the slice past it, or fails where the
/// bytes run out or pass ten, or a tenth byte overflows 64 bits. Returns the
/// value and the length of what is left.
#[verifier::external_body]
pub(crate) fn take_varint(b: &[u8]) -> (r: Result<(u64, usize), prost::DecodeError>)
    ensures
        r is Ok <==> read_varint(b@) is Some,
        r matches Ok((v, rest)) ==> read_varint(b@) == Some(
            (v as nat, (b@.len() - rest) as nat),
        ) && rest <= b@.len(),
{
    let mut s = b;
    match prost::encoding::decode_varint(&mut s) {
        Ok(v) => Ok((v, s.len())),
        Err(e) => Err(e),
    }
}

/// The value of a varint's own bytes is the number it encodes.
pub proof fn lemma_varint_value(v: nat)
    ensures
        groups_value(varint_bytes(v)) == v,
        varint_bytes(v).len() >= 1,
        varint_bytes(v).last() < 128,
        forall|i: int| 0 <= i < varint_bytes(v).len() - 1 ==> varint_bytes(v)[i] >= 128,
    decreases v,
{
    let b = varint_bytes(v);
    if v < 128 {
        assert(b.drop_first() =~= Seq::<u8>::empty());
        assert(groups_value(b) == (b[0] % 128) as nat + 128 * groups_value(b.drop_first()));
    } else {
        lemma_varint_value(v / 128);
        assert(b.drop_first() =~= varint_bytes(v / 128));
        assert(b[0] == (v % 128 + 128) as u8);
        assert((b[0] % 128) as nat == v % 128);
        assert(groups_value(b) == v % 128 + 128 * (v / 128));
    }
}

/// A number below `2 * 128^k` takes at most `k + 1` bytes, and when it takes
/// exactly that many its last byte is 0 or 1.
pub proof fn lemma_varint_len(v: nat, k: nat)
    requires
        v < 2 * pow128(k),
    ensures
        varint_bytes(v).len() <= k + 1,
        varint_bytes(v).len() == k + 1 ==> varint_bytes(v).last() < 2,
    decreases v,
{
    if v >= 128 {
        if k == 0 {
            assert(pow128(0) == 1);
        } else {
            let k1 = (k - 1) as nat;
            assert(pow128(k) == 128 * pow128(k1));
            assert(v / 128 < 2 * pow128(k1)) by (nonlinear_arith)
                requires
                    v < 2 * (128 * pow128(k1)),
            ;
            lemma_varint_len(v / 128, k1);
            assert(varint_bytes(v).last() == varint_bytes(v / 128).last());
        }
    }
}

proof fn lemma_varint_end_from(b: Seq<u8>, n: nat, i: nat)
    requires
        1 <= n <= 10,
        n <= b.len(),
        i < n,
        b[n - 1] < 128,
        n == 10 ==> b[9] < 2,
        forall|j: int| 0 <= j < n - 1 ==> b[j] >= 128,
    ensures
        varint_end(b, i) == Some(n),
    decreases n - i,
{
    if i + 1 < n {
        lemma_varint_end_from(b, n, i + 1);
    }
}

/// Reading a varint back from the front of any byte sequence that starts with
/// its encoding gives the value and the encoding's length.
pub proof fn lemma_read_varint(v: nat, rest: Seq<u8>)
    requires
        v < 0x1_0000_0000_0000_0000,
    ensures
        read_varint(varint_bytes(v) + rest) == Some((v, varint_bytes(v).len())),
{
    let e = varint_bytes(v);
    let b = e + rest;
    lemma_varint_value(v);
    reveal_with_fuel(pow128, 10);
    lemma_varint_len(v, 9);
    assert forall|j: int| 0 <= j < e.len() - 1 implies b[j] >= 128 by {
        assert(b[j] == e[j]);
    }
    assert(b[e.len() - 1] == e.last());
    lemma_varint_end_from(b, e.len(), 0);
    assert(b.take(e.len() as int) =~= e);
}

/// A varint that is read takes between one and ten bytes, all of them
/// inside the input.
pub proof fn lemma_read_varint_len(b: Seq<u8>)
    ensures
        read_varint(b) matches Some((_, n)) ==> 1 <= n <= 10 && n <= b.len(),
{
    lemma_varint_end_bounds(b, 0);
}

proof fn lemma_varint_end_bounds(b: Seq<u8>, i: nat)
    ensures
        varint_end(b, i) matches Some(n) ==> i < n <= 10 && n <= b.len(),
    decreases 10 - i,
{
    if i < 10 && i < b.len() && b[i as int] >= 128 {
        lemma_varint_end_bounds(b, i + 1);
    }
}

} // verus!
