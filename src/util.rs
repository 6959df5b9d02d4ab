use vstd::prelude::*;
use vstd::slice::slice_subrange;

verus! {

/// The outcome of work run under a deadline: the work's own error, or
/// the deadline passed first.
#[derive(Debug)]
pub enum ExecutionErr<E> {
    Failed(E),
    TimedOut,
}

/// The big-endian value of four bytes.
pub open spec fn be_u32(b0: u8, b1: u8, b2: u8, b3: u8) -> int {
    b0 as int * 16777216 + b1 as int * 65536 + b2 as int * 256 + b3 as int
}

/// The value of the first four bytes of `s`, big-endian.
pub open spec fn be_u32_at(s: Seq<u8>, i: int) -> int {
    be_u32(s[i], s[i + 1], s[i + 2], s[i + 3])
}

/// The four big-endian bytes of `n`.
pub open spec fn be_bytes(n: u32) -> Seq<u8> {
    seq![
        (n / 16777216) as u8,
        (n / 65536 % 256) as u8,
        (n / 256 % 256) as u8,
        (n % 256) as u8,
    ]
}

/// The concatenation of all the parts, in order.
pub open spec fn joined(parts: Seq<Seq<u8>>) -> Seq<u8>
    decreases parts.len(),
{
    if parts.len() == 0 {
        Seq::empty()
    } else {
        joined(parts.drop_last()) + parts.last()
    }
}

/// Reading the four bytes back gives the number.
pub proof fn lemma_be_bytes_round_trip(n: u32)
    ensures
        be_u32_at(be_bytes(n), 0) == n,
{
}

/// Reads a big-endian `u32` from the front of `input` and advances past it;
/// with fewer than four bytes left, nothing is read.
pub fn read_be_u32(input: &mut &[u8]) -> (r: Option<u32>)
    ensures
        old(input)@.len() >= 4 ==> r == Some(be_u32_at(old(input)@, 0) as u32) && final(input)@
            == old(input)@.subrange(4, old(input)@.len() as int),
        old(input)@.len() < 4 ==> r is None && final(input)@ == old(input)@,
{
    let bytes: &[u8] = *input;
    if bytes.len() < 4 {
        return None;
    }
    let value = bytes[0] as u32 * 16777216 + bytes[1] as u32 * 65536 + bytes[2] as u32 * 256
        + bytes[3] as u32;
    *input = slice_subrange(bytes, 4, bytes.len());
    Some(value)
}

/// Appends the four big-endian bytes of `n`.
pub fn push_be_u32(out: &mut Vec<u8>, n: u32)
    ensures
        final(out)@ == old(out)@ + be_bytes(n),
{
    out.push((n / 16777216) as u8);
    out.push((n / 65536 % 256) as u8);
    out.push((n / 256 % 256) as u8);
    out.push((n % 256) as u8);
    assert(final(out)@ =~= old(out)@ + be_bytes(n));
}

/// Whether two byte sequences are equal.
pub fn bytes_equal(a: &[u8], b: &[u8]) -> (r: bool)
    ensures
        r == (a@ == b@),
{
    if a.len() != b.len() {
        return false;
    }
    let mut k: usize = 0;
    while k < a.len()
        invariant
            k <= a@.len(),
            a@.len() == b@.len(),
            forall|i: int| 0 <= i < k ==> a@[i] == b@[i],
        decreases a@.len() - k,
    {
        if a[k] != b[k] {
            return false;
        }
        k = k + 1;
    }
    assert(a@ =~= b@);
    true
}

/// Appends all of `src`.
pub fn push_all(out: &mut Vec<u8>, src: &[u8])
    ensures
        final(out)@ == old(out)@ + src@,
{
    let mut k: usize = 0;
    while k < src.len()
        invariant
            k <= src@.len(),
            out@ == old(out)@ + src@.subrange(0, k as int),
        decreases src@.len() - k,
    {
        out.push(src[k]);
        k = k + 1;
        assert(out@ =~= old(out)@ + src@.subrange(0, k as int));
    }
    assert(src@.subrange(0, k as int) =~= src@);
}

/// The parts, one after another, in a single vector.
pub fn attach_bytes(parts: &[&[u8]]) -> (r: Vec<u8>)
    ensures
        r@ == joined(parts@.map_values(|p: &[u8]| p@)),
{
    let ghost views = parts@.map_values(|p: &[u8]| p@);
    let mut out: Vec<u8> = Vec::new();
    let mut k: usize = 0;
    while k < parts.len()
        invariant
            k <= parts@.len(),
            views == parts@.map_values(|p: &[u8]| p@),
            out@ == joined(views.subrange(0, k as int)),
        decreases parts@.len() - k,
    {
        push_all(&mut out, parts[k]);
        proof {
            assert(views.subrange(0, k + 1).drop_last() =~= views.subrange(0, k as int));
        }
        k = k + 1;
    }
    assert(views.subrange(0, k as int) =~= views);
    out
}

} // verus!
