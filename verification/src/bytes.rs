//! Little-endian integers and byte ranges: the vocabulary of every on-disk format.
use vstd::prelude::*;

verus! {

/// The two bytes of `x`, least significant first.
pub open spec fn le16(x: u16) -> Seq<u8> {
    seq![(x % 256) as u8, (x / 256) as u8]
}

/// The four bytes of `x`, least significant first.
pub open spec fn le32(x: u32) -> Seq<u8> {
    seq![
        (x % 256) as u8,
        (x / 0x100 % 256) as u8,
        (x / 0x1_0000 % 256) as u8,
        (x / 0x100_0000) as u8,
    ]
}

/// The eight bytes of `x`, least significant first.
pub open spec fn le64(x: u64) -> Seq<u8> {
    le32((x % 0x1_0000_0000) as u32) + le32((x / 0x1_0000_0000) as u32)
}

/// The two's complement bit pattern of `n`.
pub open spec fn bits_of(n: i64) -> u64 {
    if n >= 0 {
        n as u64
    } else {
        (n + 0x1_0000_0000_0000_0000) as u64
    }
}

/// The signed number whose two's complement bit pattern is `x`.
pub open spec fn signed_of(x: u64) -> i64 {
    if x < 0x8000_0000_0000_0000 {
        x as i64
    } else {
        (x - 0x1_0000_0000_0000_0000) as i64
    }
}

/// The number stored in the two bytes of `s` from `off`.
pub open spec fn un16(s: Seq<u8>, off: int) -> u16 {
    (s[off] + 256 * s[off + 1]) as u16
}

/// The number stored in the four bytes of `s` from `off`.
pub open spec fn un32(s: Seq<u8>, off: int) -> u32 {
    (s[off] + 0x100 * s[off + 1] + 0x1_0000 * s[off + 2] + 0x100_0000 * s[off + 3]) as u32
}

/// The number stored in the eight bytes of `s` from `off`.
pub open spec fn un64(s: Seq<u8>, off: int) -> u64 {
    (un32(s, off) + 0x1_0000_0000 * un32(s, off + 4)) as u64
}

/// `s` holds `part` from position `off` on.
pub open spec fn holds_at(s: Seq<u8>, off: int, part: Seq<u8>) -> bool {
    &&& 0 <= off
    &&& off + part.len() <= s.len()
    &&& forall|i: int| 0 <= i < part.len() ==> #[trigger] s[off + i] == part[i]
}

/// `d` with the bytes from `off` on replaced by `part`.
pub open spec fn splice(d: Seq<u8>, off: int, part: Seq<u8>) -> Seq<u8> {
    Seq::new(
        d.len(),
        |i: int|
            if off <= i < off + part.len() {
                part[i - off]
            } else {
                d[i]
            },
    )
}

/// Writing a number and reading it back gives the number.
pub proof fn lemma_un16(s: Seq<u8>, off: int, x: u16)
    requires
        holds_at(s, off, le16(x)),
    ensures
        un16(s, off) == x,
{
    assert(s[off + 0] == le16(x)[0]);
    assert(s[off + 1] == le16(x)[1]);
}

/// Writing a number and reading it back gives the number.
pub proof fn lemma_un32(s: Seq<u8>, off: int, x: u32)
    requires
        holds_at(s, off, le32(x)),
    ensures
        un32(s, off) == x,
{
    assert(s[off + 0] == le32(x)[0]);
    assert(s[off + 1] == le32(x)[1]);
    assert(s[off + 2] == le32(x)[2]);
    assert(s[off + 3] == le32(x)[3]);
    assert(x / 0x1_0000 == x / 0x100 / 0x100);
    assert(x / 0x100_0000 == x / 0x1_0000 / 0x100);
}

/// Writing a number and reading it back gives the number.
pub proof fn lemma_un64(s: Seq<u8>, off: int, x: u64)
    requires
        holds_at(s, off, le64(x)),
    ensures
        un64(s, off) == x,
{
    let lo = (x % 0x1_0000_0000) as u32;
    let hi = (x / 0x1_0000_0000) as u32;
    assert forall|i: int| 0 <= i < le32(lo).len() implies #[trigger] s[off + i] == le32(lo)[i] by {
        assert(s[off + i] == le64(x)[i]);
    }
    assert forall|i: int| 0 <= i < le32(hi).len() implies #[trigger] s[off + 4 + i] == le32(
        hi,
    )[i] by {
        assert(s[off + (4 + i)] == le64(x)[4 + i]);
    }
    lemma_un32(s, off, lo);
    lemma_un32(s, off + 4, hi);
}

/// The bit pattern of a signed number determines it.
pub proof fn lemma_signed(n: i64)
    ensures
        signed_of(bits_of(n)) == n,
{
}

/// Appends the little-endian bytes of `x` to `buf`.
pub fn put_u16(buf: &mut Vec<u8>, x: u16)
    ensures
        final(buf)@ == old(buf)@ + le16(x),
{
    buf.push((x % 256) as u8);
    buf.push((x / 256) as u8);
    assert(buf@ =~= old(buf)@ + le16(x));
}

/// Appends the little-endian bytes of `x` to `buf`.
pub fn put_u32(buf: &mut Vec<u8>, x: u32)
    ensures
        final(buf)@ == old(buf)@ + le32(x),
{
    buf.push((x % 256) as u8);
    buf.push((x / 0x100 % 256) as u8);
    buf.push((x / 0x1_0000 % 256) as u8);
    buf.push((x / 0x100_0000) as u8);
    assert(buf@ =~= old(buf)@ + le32(x));
}

/// Appends the little-endian bytes of `x` to `buf`.
pub fn put_u64(buf: &mut Vec<u8>, x: u64)
    ensures
        final(buf)@ == old(buf)@ + le64(x),
{
    put_u32(buf, (x % 0x1_0000_0000) as u32);
    put_u32(buf, (x / 0x1_0000_0000) as u32);
    assert(buf@ =~= old(buf)@ + le64(x));
}

/// Appends the little-endian two's complement bytes of `n` to `buf`.
pub fn put_i64(buf: &mut Vec<u8>, n: i64)
    ensures
        final(buf)@ == old(buf)@ + le64(bits_of(n)),
{
    assert(n < 0 ==> n as u64 == n + 0x1_0000_0000_0000_0000) by (bit_vector);
    put_u64(buf, n as u64);
}

/// Appends `part` to `buf`.
pub fn put_bytes(buf: &mut Vec<u8>, part: &[u8])
    ensures
        final(buf)@ == old(buf)@ + part@,
{
    buf.extend_from_slice(part);
    assert(buf@ =~= old(buf)@ + part@);
}

/// Reads the number stored in the two bytes of `s` from `off`.
pub fn get_u16(s: &[u8], off: usize) -> (x: u16)
    requires
        off + 2 <= s@.len(),
    ensures
        x == un16(s@, off as int),
{
    s[off] as u16 + 256 * s[off + 1] as u16
}

/// Reads the number stored in the four bytes of `s` from `off`.
pub fn get_u32(s: &[u8], off: usize) -> (x: u32)
    requires
        off + 4 <= s@.len(),
    ensures
        x == un32(s@, off as int),
{
    s[off] as u32 + 0x100 * s[off + 1] as u32 + 0x1_0000 * s[off + 2] as u32 + 0x100_0000 * s[off
        + 3] as u32
}

/// Reads the number stored in the eight bytes of `s` from `off`.
pub fn get_u64(s: &[u8], off: usize) -> (x: u64)
    requires
        off + 8 <= s@.len(),
    ensures
        x == un64(s@, off as int),
{
    let n: usize = s.len();
    assert(off + 8 <= n);
    get_u32(s, off) as u64 + 0x1_0000_0000 * get_u32(s, off + 4) as u64
}

/// Reads the signed number stored in the eight bytes of `s` from `off`.
pub fn get_i64(s: &[u8], off: usize) -> (n: i64)
    requires
        off + 8 <= s@.len(),
    ensures
        n == signed_of(un64(s@, off as int)),
{
    let x: u64 = get_u64(s, off);
    assert(x < 0x8000_0000_0000_0000 ==> x as i64 == x) by (bit_vector);
    assert(x >= 0x8000_0000_0000_0000 ==> x as i64 == x - 0x1_0000_0000_0000_0000) by (bit_vector);
    x as i64
}

/// Copies the bytes of `s` from `from` up to `to`.
pub fn copy_range(s: &[u8], from: usize, to: usize) -> (v: Vec<u8>)
    requires
        from <= to <= s@.len(),
    ensures
        v@ == s@.subrange(from as int, to as int),
{
    vstd::slice::slice_to_vec(vstd::slice::slice_subrange(s, from, to))
}

/// Each byte counts 256 times as much as the one before it.
pub proof fn law_least_significant_first(x: u16, y: u32, z: u64)
    ensures
        le16(x).len() == 2,
        le16(x)[0] + 256 * le16(x)[1] == x,
        le32(y).len() == 4,
        le32(y)[0] + 256 * (le32(y)[1] + 256 * (le32(y)[2] + 256 * le32(y)[3])) == y,
        le64(z).len() == 8,
        le64(z)[0] + 256 * (le64(z)[1] + 256 * (le64(z)[2] + 256 * (le64(z)[3] + 256 * (le64(z)[4]
            + 256 * (le64(z)[5] + 256 * (le64(z)[6] + 256 * le64(z)[7])))))) == z,
{
}

/// A negative number is stored as two to the power of 64 less its amount, any other as it is.
pub proof fn law_sign_is_twos_complement(n: i64)
    ensures
        bits_of(n) == if n < 0 {
            0x1_0000_0000_0000_0000 + n
        } else {
            n as int
        },
        signed_of(bits_of(n)) == n,
{
}

} // verus!
