//! Little-endian field access and small byte-string helpers shared by both
//! container formats.
use vstd::prelude::*;

verus! {

/// The unsigned 16-bit little-endian value stored at `p`.
pub open spec fn u16_at(s: Seq<u8>, p: int) -> u16 {
    (s[p] as int + s[p + 1] as int * 256) as u16
}

/// The unsigned 32-bit little-endian value stored at `p`.
pub open spec fn u32_at(s: Seq<u8>, p: int) -> u32 {
    (s[p] as int + s[p + 1] as int * 256 + s[p + 2] as int * 65536 + s[p + 3] as int
        * 16777216) as u32
}

/// The four little-endian bytes of `v`.
pub open spec fn u32_le(v: u32) -> Seq<u8> {
    seq![
        (v % 256) as u8,
        (v / 256 % 256) as u8,
        (v / 65536 % 256) as u8,
        (v / 16777216) as u8,
    ]
}

/// `n` zero bytes.
pub open spec fn zeros(n: nat) -> Seq<u8> {
    Seq::new(n, |i: int| 0u8)
}

/// `s` with every trailing NUL byte removed.
pub open spec fn trim_nul(s: Seq<u8>) -> Seq<u8>
    decreases s.len(),
{
    if s.len() > 0 && s.last() == 0 {
        trim_nul(s.drop_last())
    } else {
        s
    }
}

/// `s` extended with NUL bytes to `width` bytes.
pub open spec fn pad_nul(s: Seq<u8>, width: nat) -> Seq<u8> {
    s + zeros((width - s.len()) as nat)
}

/// The index of the first NUL byte at or after `p`, if there is one.
pub open spec fn first_nul_from(s: Seq<u8>, p: int) -> Option<int>
    decreases s.len() - p,
{
    if p < 0 || p >= s.len() {
        None
    } else if s[p] == 0 {
        Some(p)
    } else {
        first_nul_from(s, p + 1)
    }
}

/// The NUL-terminated byte string that starts at `p` (without its terminator).
pub open spec fn nul_terminated_at(s: Seq<u8>, p: int) -> Option<Seq<u8>> {
    match first_nul_from(s, p) {
        Some(q) => Some(s.subrange(p, q)),
        None => None,
    }
}

/// Writing a value and reading it back yields the value.
pub proof fn lemma_u32_round_trip(s: Seq<u8>, p: int, v: u32)
    requires
        0 <= p,
        p + 4 <= s.len(),
        s.subrange(p, p + 4) == u32_le(v),
    ensures
        u32_at(s, p) == v,
{
    assert(s[p] == u32_le(v)[0]);
    assert(s[p + 1] == u32_le(v)[1]);
    assert(s[p + 2] == u32_le(v)[2]);
    assert(s[p + 3] == u32_le(v)[3]);
    let a = v as int;
    assert(a == a % 256 + (a / 256 % 256) * 256 + (a / 65536 % 256) * 65536 + (a / 16777216)
        * 16777216) by (nonlinear_arith)
        requires
            0 <= a < 0x1_0000_0000,
    ;
}

/// Reads the 16-bit little-endian value at `pos`, or `None` past the end.
pub fn read_u16(data: &[u8], pos: u64) -> (r: Option<u16>)
    ensures
        r == (if pos + 2 <= data@.len() {
            Some(u16_at(data@, pos as int))
        } else {
            None
        }),
{
    let len = data.len() as u64;
    if pos > len || len - pos < 2 {
        return None;
    }
    let p = pos as usize;
    let v: u16 = data[p] as u16 + (data[p + 1] as u16) * 256;
    Some(v)
}

/// Reads the 32-bit little-endian value at `pos`, or `None` past the end.
pub fn read_u32(data: &[u8], pos: u64) -> (r: Option<u32>)
    ensures
        r == (if pos + 4 <= data@.len() {
            Some(u32_at(data@, pos as int))
        } else {
            None
        }),
{
    let len = data.len() as u64;
    if pos > len || len - pos < 4 {
        return None;
    }
    let p = pos as usize;
    let v: u32 = data[p] as u32 + (data[p + 1] as u32) * 256 + (data[p + 2] as u32) * 65536
        + (data[p + 3] as u32) * 16777216;
    Some(v)
}

/// Appends the four little-endian bytes of `v`.
pub fn push_u32(out: &mut Vec<u8>, v: u32)
    ensures
        final(out)@ == old(out)@ + u32_le(v),
{
    out.push((v % 256) as u8);
    out.push((v / 256 % 256) as u8);
    out.push((v / 65536 % 256) as u8);
    out.push((v / 16777216) as u8);
    assert(final(out)@ =~= old(out)@ + u32_le(v));
}

/// Appends every byte of `b`.
pub fn push_bytes(out: &mut Vec<u8>, b: &[u8])
    ensures
        final(out)@ == old(out)@ + b@,
{
    let ghost start = out@;
    let mut i: usize = 0;
    while i < b.len()
        invariant
            i <= b@.len(),
            out@ == start + b@.subrange(0, i as int),
        decreases b@.len() - i,
    {
        out.push(b[i]);
        i += 1;
        assert(out@ =~= start + b@.subrange(0, i as int));
    }
    assert(b@.subrange(0, b@.len() as int) =~= b@);
}

/// Appends `n` zero bytes.
pub fn push_zeros(out: &mut Vec<u8>, n: u64)
    ensures
        final(out)@ == old(out)@ + zeros(n as nat),
{
    let ghost start = out@;
    let mut i: u64 = 0;
    while i < n
        invariant
            i <= n,
            out@ == start + zeros(i as nat),
        decreases n - i,
    {
        out.push(0u8);
        i += 1;
        assert(out@ =~= start + zeros(i as nat));
    }
}

/// Copies the bytes `data[start..end]`.
pub fn copy_range(data: &[u8], start: usize, end: usize) -> (r: Vec<u8>)
    requires
        start <= end <= data@.len(),
    ensures
        r@ == data@.subrange(start as int, end as int),
{
    let mut r: Vec<u8> = Vec::new();
    let mut i: usize = start;
    while i < end
        invariant
            start <= i <= end,
            end <= data@.len(),
            r@ == data@.subrange(start as int, i as int),
        decreases end - i,
    {
        r.push(data[i]);
        i += 1;
        assert(r@ =~= data@.subrange(start as int, i as int));
    }
    r
}

/// Copies `data[pos..pos + len]`, or `None` when the range runs past the end.
pub fn read_range(data: &[u8], pos: u64, len: u64) -> (r: Option<Vec<u8>>)
    ensures
        match r {
            Some(v) => pos + len <= data@.len() && v@ == data@.subrange(pos as int, pos + len),
            None => pos + len > data@.len(),
        },
{
    let total = data.len() as u64;
    if pos > total || total - pos < len {
        return None;
    }
    Some(copy_range(data, pos as usize, (pos + len) as usize))
}

/// `s` without its trailing NUL bytes.
pub fn trim_nul_bytes(s: &[u8]) -> (r: Vec<u8>)
    ensures
        r@ == trim_nul(s@),
{
    let mut e: usize = s.len();
    assert(s@.subrange(0, e as int) =~= s@);
    while e > 0 && s[e - 1] == 0
        invariant
            e <= s@.len(),
            trim_nul(s@.subrange(0, e as int)) == trim_nul(s@),
        decreases e,
    {
        assert(s@.subrange(0, e as int).drop_last() =~= s@.subrange(0, e - 1));
        e -= 1;
    }
    assert(s@.subrange(0, e as int).len() == 0 || s@.subrange(0, e as int).last() != 0);
    copy_range(s, 0, e)
}

/// Whether two byte strings are equal.
pub fn bytes_eq(a: &[u8], b: &[u8]) -> (r: bool)
    ensures
        r == (a@ == b@),
{
    if a.len() != b.len() {
        return false;
    }
    let mut i: usize = 0;
    while i < a.len()
        invariant
            a@.len() == b@.len(),
            i <= a@.len(),
            forall|j: int| 0 <= j < i ==> a@[j] == b@[j],
        decreases a@.len() - i,
    {
        if a[i] != b[i] {
            return false;
        }
        i += 1;
    }
    assert(a@ =~= b@);
    true
}

/// The NUL-terminated byte string that starts at `pos`, or `None` when no NUL
/// byte follows it.
pub fn read_nul_terminated(data: &[u8], pos: u64) -> (r: Option<Vec<u8>>)
    ensures
        match r {
            Some(v) => nul_terminated_at(data@, pos as int) == Some(v@),
            None => nul_terminated_at(data@, pos as int) is None,
        },
{
    if pos >= data.len() as u64 {
        return None;
    }
    let start = pos as usize;
    let mut q: usize = start;
    while q < data.len() && data[q] != 0
        invariant
            start <= q <= data@.len(),
            first_nul_from(data@, start as int) == first_nul_from(data@, q as int),
        decreases data@.len() - q,
    {
        q += 1;
    }
    if q == data.len() {
        return None;
    }
    Some(copy_range(data, start, q))
}

} // verus!
