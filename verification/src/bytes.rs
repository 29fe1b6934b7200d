//! Byte-level integer packing: mathematical definitions of big- and
//! little-endian byte strings of a given width, their round-trip lemmas, and
//! the trusted wrappers around the primitive reader/writer library that
//! performs the packing at run time.
use vstd::prelude::*;

verus! {

/// The number of values a `w`-byte unsigned field can hold: `256^w`.
pub open spec fn bound(w: nat) -> nat
    decreases w,
{
    if w == 0 {
        1
    } else {
        256 * bound((w - 1) as nat)
    }
}

/// The `w`-byte big-endian representation of `n % bound(w)`: most
/// significant byte first.
pub open spec fn be_bytes(n: nat, w: nat) -> Seq<u8>
    decreases w,
{
    if w == 0 {
        Seq::empty()
    } else {
        be_bytes(n / 256, (w - 1) as nat).push((n % 256) as u8)
    }
}

/// The `w`-byte little-endian representation of `n % bound(w)`: least
/// significant byte first.
pub open spec fn le_bytes(n: nat, w: nat) -> Seq<u8>
    decreases w,
{
    if w == 0 {
        Seq::empty()
    } else {
        seq![(n % 256) as u8] + le_bytes(n / 256, (w - 1) as nat)
    }
}

/// The unsigned value a byte string denotes when read big-endian.
pub open spec fn be_uint(s: Seq<u8>) -> nat
    decreases s.len(),
{
    if s.len() == 0 {
        0
    } else {
        (be_uint(s.drop_last()) * 256 + s.last()) as nat
    }
}

/// The unsigned value a byte string denotes when read little-endian.
pub open spec fn le_uint(s: Seq<u8>) -> nat
    decreases s.len(),
{
    if s.len() == 0 {
        0
    } else {
        (s[0] + 256 * le_uint(s.drop_first())) as nat
    }
}

pub broadcast proof fn lemma_be_bytes_len(n: nat, w: nat)
    ensures
        (#[trigger] be_bytes(n, w)).len() == w,
    decreases w,
{
    if w > 0 {
        lemma_be_bytes_len(n / 256, (w - 1) as nat);
    }
}

pub broadcast proof fn lemma_le_bytes_len(n: nat, w: nat)
    ensures
        (#[trigger] le_bytes(n, w)).len() == w,
    decreases w,
{
    if w > 0 {
        lemma_le_bytes_len(n / 256, (w - 1) as nat);
    }
}

pub broadcast proof fn lemma_bound_positive(w: nat)
    ensures
        #[trigger] bound(w) >= 1,
    decreases w,
{
    if w > 0 {
        lemma_bound_positive((w - 1) as nat);
    }
}

/// Reading back the big-endian bytes of a value that fits the width gives
/// the value itself.
pub proof fn lemma_be_uint_of_be_bytes(n: nat, w: nat)
    requires
        n < bound(w),
    ensures
        be_uint(be_bytes(n, w)) == n,
    decreases w,
{
    if w == 0 {
    } else {
        let q = n / 256;
        let r = n % 256;
        assert(n == q * 256 + r && r < 256 && q * 256 <= n) by (nonlinear_arith)
            requires
                q == n / 256,
                r == n % 256,
        ;
        assert(q < bound((w - 1) as nat)) by {
            assert(bound(w) == 256 * bound((w - 1) as nat));
            assert(q * 256 <= n < 256 * bound((w - 1) as nat) ==> q < bound((w - 1) as nat))
                by (nonlinear_arith);
        }
        lemma_be_uint_of_be_bytes(q, (w - 1) as nat);
        lemma_be_bytes_len(q, (w - 1) as nat);
        let s = be_bytes(n, w);
        assert(s.drop_last() =~= be_bytes(q, (w - 1) as nat));
        assert(s.last() == r as u8);
    }
}

/// Reading back the little-endian bytes of a value that fits the width gives
/// the value itself.
pub proof fn lemma_le_uint_of_le_bytes(n: nat, w: nat)
    requires
        n < bound(w),
    ensures
        le_uint(le_bytes(n, w)) == n,
    decreases w,
{
    if w == 0 {
    } else {
        let q = n / 256;
        let r = n % 256;
        assert(n == q * 256 + r && r < 256 && q * 256 <= n) by (nonlinear_arith)
            requires
                q == n / 256,
                r == n % 256,
        ;
        assert(q < bound((w - 1) as nat)) by {
            assert(bound(w) == 256 * bound((w - 1) as nat));
            assert(q * 256 <= n < 256 * bound((w - 1) as nat) ==> q < bound((w - 1) as nat))
                by (nonlinear_arith);
        }
        lemma_le_uint_of_le_bytes(q, (w - 1) as nat);
        lemma_le_bytes_len(q, (w - 1) as nat);
        let s = le_bytes(n, w);
        assert(s.drop_first() =~= le_bytes(q, (w - 1) as nat));
        assert(s[0] == r as u8);
    }
}

/// Any byte string of length `w` denotes a value below `bound(w)`, read
/// either way.
pub proof fn lemma_uint_below_bound(s: Seq<u8>)
    ensures
        be_uint(s) < bound(s.len()),
        le_uint(s) < bound(s.len()),
    decreases s.len(),
{
    if s.len() > 0 {
        lemma_uint_below_bound(s.drop_last());
        lemma_uint_below_bound(s.drop_first());
        assert(s.drop_last().len() == s.len() - 1);
        assert(s.drop_first().len() == s.len() - 1);
        let b = bound((s.len() - 1) as nat);
        assert(be_uint(s.drop_last()) <= b - 1);
        assert(be_uint(s.drop_last()) * 256 <= (b - 1) * 256) by (nonlinear_arith)
            requires
                be_uint(s.drop_last()) <= b - 1,
        ;
        assert(256 * le_uint(s.drop_first()) <= 256 * (b - 1)) by (nonlinear_arith)
            requires
                le_uint(s.drop_first()) <= b - 1,
        ;
        assert(bound(s.len()) == 256 * b);
    }
}

/// Sixteen bytes cannot exceed the range of the widest cataloged integer.
pub proof fn lemma_bound_16()
    ensures
        bound(16) == 0x1_0000_0000_0000_0000_0000_0000_0000_0000,
{
    reveal_with_fuel(bound, 17);
}

/// Relies on `byteorder::BigEndian::write_uint128`: it packs the `nbytes`
/// least significant bytes of `n`, most significant first, into the start of
/// the buffer, provided `n` fits in `nbytes` bytes.
#[verifier::external_body]
pub(crate) fn put_uint_be(n: u128, nbytes: usize) -> (r: Vec<u8>)
    requires
        1 <= nbytes <= 16,
        (n as nat) < bound(nbytes as nat),
    ensures
        r@ == be_bytes(n as nat, nbytes as nat),
{
    let mut buf = [0u8; 16];
    <byteorder::BigEndian as byteorder::ByteOrder>::write_uint128(&mut buf, n, nbytes);
    buf[..nbytes].to_vec()
}

/// Relies on `byteorder::LittleEndian::write_uint128`: it packs the `nbytes`
/// least significant bytes of `n`, least significant first, into the start
/// of the buffer, provided `n` fits in `nbytes` bytes.
#[verifier::external_body]
pub(crate) fn put_uint_le(n: u128, nbytes: usize) -> (r: Vec<u8>)
    requires
        1 <= nbytes <= 16,
        (n as nat) < bound(nbytes as nat),
    ensures
        r@ == le_bytes(n as nat, nbytes as nat),
{
    let mut buf = [0u8; 16];
    <byteorder::LittleEndian as byteorder::ByteOrder>::write_uint128(&mut buf, n, nbytes);
    buf[..nbytes].to_vec()
}

/// Relies on `byteorder::BigEndian::read_uint128`: it reads the first
/// `nbytes` bytes of the slice as an unsigned big-endian integer.
#[verifier::external_body]
pub(crate) fn get_uint_be(b: &Vec<u8>, pos: usize, nbytes: usize) -> (r: u128)
    requires
        1 <= nbytes <= 16,
        pos + nbytes <= b@.len(),
    ensures
        r as nat == be_uint(b@.subrange(pos as int, pos as int + nbytes as int)),
{
    <byteorder::BigEndian as byteorder::ByteOrder>::read_uint128(&b[pos..], nbytes)
}

/// Relies on `byteorder::LittleEndian::read_uint128`: it reads the first
/// `nbytes` bytes of the slice as an unsigned little-endian integer.
#[verifier::external_body]
pub(crate) fn get_uint_le(b: &Vec<u8>, pos: usize, nbytes: usize) -> (r: u128)
    requires
        1 <= nbytes <= 16,
        pos + nbytes <= b@.len(),
    ensures
        r as nat == le_uint(b@.subrange(pos as int, pos as int + nbytes as int)),
{
    <byteorder::LittleEndian as byteorder::ByteOrder>::read_uint128(&b[pos..], nbytes)
}

} // verus!
