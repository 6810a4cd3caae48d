//! Little-endian encoding of the integer fields written to the binary files,
//! zero padding, and the UTF-8 bytes of names.
use vstd::prelude::*;
use vstd::utf8::encode_utf8;

verus! {

/// The two little-endian bytes of a `u16`.
pub open spec fn le_u16(x: u16) -> Seq<u8> {
    seq![(x % 256) as u8, (x / 256) as u8]
}

/// The two little-endian bytes of an `i16` (two's complement).
pub open spec fn le_i16(x: i16) -> Seq<u8> {
    le_u16(x as u16)
}

/// The four little-endian bytes of a `u32`.
pub open spec fn le_u32(x: u32) -> Seq<u8> {
    seq![
        (x % 256) as u8,
        ((x / 256) % 256) as u8,
        ((x / 65536) % 256) as u8,
        (x / 16777216) as u8,
    ]
}

/// The four little-endian bytes of an `i32` (two's complement).
pub open spec fn le_i32(x: i32) -> Seq<u8> {
    le_u32(x as u32)
}

/// The concatenation of `f` applied to each element of `s`, in order.
pub open spec fn concat_map<A>(s: Seq<A>, f: spec_fn(A) -> Seq<u8>) -> Seq<u8>
    decreases s.len(),
{
    if s.len() == 0 {
        seq![]
    } else {
        concat_map(s.drop_last(), f) + f(s.last())
    }
}

/// One more element appends its encoding.
pub proof fn lemma_concat_map_step<A>(s: Seq<A>, f: spec_fn(A) -> Seq<u8>, i: int)
    requires
        0 <= i < s.len(),
    ensures
        concat_map(s.take(i + 1), f) == concat_map(s.take(i), f) + f(s[i]),
{
    assert(s.take(i + 1).drop_last() =~= s.take(i));
}

/// When every element encodes to `w` bytes, the encoding has `w` bytes per
/// element and the `k`-th `w`-byte record is the encoding of element `k`.
pub proof fn lemma_concat_map_record<A>(s: Seq<A>, f: spec_fn(A) -> Seq<u8>, w: int, k: int)
    requires
        0 <= w,
        0 <= k < s.len(),
        forall|a: A| #[trigger] f(a).len() == w,
    ensures
        concat_map(s, f).len() == s.len() * w,
        k * w + w <= s.len() * w,
        concat_map(s, f).subrange(k * w, k * w + w) == f(s[k]),
    decreases s.len(),
{
    lemma_concat_map_len(s.drop_last(), f, w);
    let n = s.len();
    let pre = concat_map(s.drop_last(), f);
    assert((n - 1) * w + w == n * w) by (nonlinear_arith);
    assert(k * w + w <= n * w) by (nonlinear_arith)
        requires
            0 <= k < n,
            0 <= w,
    ;
    if k == n - 1 {
        assert(concat_map(s, f).subrange(k * w, k * w + w) =~= f(s.last()));
    } else {
        lemma_concat_map_record(s.drop_last(), f, w, k);
        assert(k * w + w <= (n - 1) * w) by (nonlinear_arith)
            requires
                0 <= k < n - 1,
                0 <= w,
        ;
        assert(concat_map(s, f).subrange(k * w, k * w + w) =~= pre.subrange(k * w, k * w + w));
    }
}

/// When every element encodes to `w` bytes, the encoding has `w` bytes per element.
pub proof fn lemma_concat_map_len<A>(s: Seq<A>, f: spec_fn(A) -> Seq<u8>, w: int)
    requires
        0 <= w,
        forall|a: A| #[trigger] f(a).len() == w,
    ensures
        concat_map(s, f).len() == s.len() * w,
    decreases s.len(),
{
    if s.len() > 0 {
        lemma_concat_map_len(s.drop_last(), f, w);
        assert((s.len() - 1) * w + w == s.len() * w) by (nonlinear_arith);
    }
}

/// `n` zero bytes.
pub open spec fn zeros(n: nat) -> Seq<u8> {
    Seq::new(n, |i: int| 0u8)
}

/// How many zero bytes bring a length of `len` to a multiple of four.
pub open spec fn pad4(len: nat) -> nat {
    ((4 - len % 4) % 4) as nat
}

/// The UTF-8 bytes of a string.
pub fn string_bytes(s: &String) -> (res: Vec<u8>)
    ensures
        res@ == encode_utf8(s@),
{
    s.as_str().as_bytes_vec()
}

/// Appends one byte.
pub fn push_u8(out: &mut Vec<u8>, x: u8)
    ensures
        final(out)@ == old(out)@ + seq![x],
{
    out.push(x);
}

/// Appends the little-endian bytes of `x`.
pub fn push_u16(out: &mut Vec<u8>, x: u16)
    ensures
        final(out)@ == old(out)@ + le_u16(x),
{
    out.push((x % 256) as u8);
    out.push((x / 256) as u8);
}

/// Appends the little-endian bytes of `x`.
pub fn push_i16(out: &mut Vec<u8>, x: i16)
    ensures
        final(out)@ == old(out)@ + le_i16(x),
{
    push_u16(out, x as u16);
}

/// Appends the little-endian bytes of `x`.
pub fn push_u32(out: &mut Vec<u8>, x: u32)
    ensures
        final(out)@ == old(out)@ + le_u32(x),
{
    out.push((x % 256) as u8);
    out.push(((x / 256) % 256) as u8);
    out.push(((x / 65536) % 256) as u8);
    out.push((x / 16777216) as u8);
}

/// Appends the little-endian bytes of `x`.
pub fn push_i32(out: &mut Vec<u8>, x: i32)
    ensures
        final(out)@ == old(out)@ + le_i32(x),
{
    push_u32(out, x as u32);
}

/// Appends all bytes of `src`.
pub fn extend_bytes(out: &mut Vec<u8>, src: &Vec<u8>)
    ensures
        final(out)@ == old(out)@ + src@,
{
    let ghost start = out@;
    let mut i: usize = 0;
    while i < src.len()
        invariant
            i <= src.len(),
            out@ == start + src@.subrange(0, i as int),
        decreases src.len() - i,
    {
        out.push(src[i]);
        assert(src@.subrange(0, i + 1) =~= src@.subrange(0, i as int).push(src@[i as int]));
        i += 1;
    }
    assert(src@.subrange(0, src.len() as int) =~= src@);
}

/// Appends `n` zero bytes.
pub fn push_zeros(out: &mut Vec<u8>, n: usize)
    ensures
        final(out)@ == old(out)@ + zeros(n as nat),
{
    let ghost start = out@;
    let mut i: usize = 0;
    while i < n
        invariant
            i <= n,
            out@ == start + zeros(i as nat),
        decreases n - i,
    {
        out.push(0);
        assert(zeros((i + 1) as nat) =~= zeros(i as nat).push(0u8));
        i += 1;
    }
}

/// Appends zero bytes until the length is a multiple of four.
pub fn pad_to_4(out: &mut Vec<u8>)
    ensures
        final(out)@ == old(out)@ + zeros(pad4(old(out)@.len())),
        final(out)@.len() % 4 == 0,
{
    let ghost start = out@;
    while out.len() % 4 != 0
        invariant
            start.len() <= out@.len() <= start.len() + 3,
            out@ == start + zeros((out@.len() - start.len()) as nat),
            (out@.len() - start.len()) as nat <= pad4(start.len()),
            out@.len() % 4 != 0 ==> ((out@.len() - start.len()) as nat) < pad4(start.len()),
            out@.len() % 4 == 0 ==> (out@.len() - start.len()) as nat == pad4(start.len()),
        decreases 4 - (out@.len() - start.len()),
    {
        let ghost k = (out@.len() - start.len()) as nat;
        out.push(0);
        assert(zeros(k + 1) =~= zeros(k).push(0u8));
    }
}

} // verus!
