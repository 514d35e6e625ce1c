//! Byte-level building blocks of the wire formats: big-endian integers,
//! appending, slicing and comparing.
use vstd::prelude::*;

verus! {

/// The big-endian bytes of a 16-bit integer.
pub open spec fn be16(x: u16) -> Seq<u8> {
    seq![(x / 256) as u8, (x % 256) as u8]
}

/// The big-endian bytes of a 32-bit integer.
pub open spec fn be32(x: u32) -> Seq<u8> {
    seq![
        (x / 0x100_0000) as u8,
        (x / 0x1_0000 % 256) as u8,
        (x / 256 % 256) as u8,
        (x % 256) as u8,
    ]
}

/// The 16-bit integer whose big-endian bytes start at `i`.
pub open spec fn u16_at(s: Seq<u8>, i: int) -> u16 {
    (s[i] * 256 + s[i + 1]) as u16
}

/// The 32-bit integer whose big-endian bytes start at `i`.
pub open spec fn u32_at(s: Seq<u8>, i: int) -> u32 {
    (s[i] * 0x100_0000 + s[i + 1] * 0x1_0000 + s[i + 2] * 256 + s[i + 3]) as u32
}

/// A length as a 16-bit field carries it: only its low 16 bits survive.
pub open spec fn low16(n: nat) -> u16 {
    (n % 0x1_0000) as u16
}

/// `n` zero bytes.
pub open spec fn zero_bytes(n: nat) -> Seq<u8> {
    Seq::new(n, |i: int| 0u8)
}

/// Byte strings put one behind the other.
pub open spec fn joined(parts: Seq<Seq<u8>>) -> Seq<u8>
    decreases parts.len(),
{
    if parts.len() == 0 {
        Seq::empty()
    } else {
        parts[0] + joined(parts.skip(1))
    }
}

/// The number of pieces of at most `max` bytes that `len` bytes make.
pub open spec fn piece_count(len: nat, max: nat) -> nat {
    if len == 0 {
        0
    } else {
        ((len - 1) / (max as int) + 1) as nat
    }
}

/// The piece at position `i` of `payload` cut into pieces of `max` bytes; the
/// last may be shorter.
pub open spec fn piece(payload: Seq<u8>, max: nat, i: int) -> Seq<u8> {
    let start = i * max;
    payload.subrange(
        start,
        if start + max < payload.len() {
            start + max
        } else {
            payload.len() as int
        },
    )
}

/// The pieces of at most `max` bytes that `payload` is cut into, in order.
pub open spec fn pieces(payload: Seq<u8>, max: nat) -> Seq<Seq<u8>> {
    Seq::new(piece_count(payload.len(), max), |i: int| piece(payload, max, i))
}

/// A 16-bit integer written at `i` reads back as itself.
pub proof fn lemma_be16_at(s: Seq<u8>, i: int, x: u16)
    requires
        0 <= i,
        i + 2 <= s.len(),
        s.subrange(i, i + 2) == be16(x),
    ensures
        u16_at(s, i) == x,
{
    assert(s[i] == s.subrange(i, i + 2)[0]);
    assert(s[i + 1] == s.subrange(i, i + 2)[1]);
}

/// A 32-bit integer written at `i` reads back as itself.
pub proof fn lemma_be32_at(s: Seq<u8>, i: int, x: u32)
    requires
        0 <= i,
        i + 4 <= s.len(),
        s.subrange(i, i + 4) == be32(x),
    ensures
        u32_at(s, i) == x,
{
    assert(s[i] == s.subrange(i, i + 4)[0]);
    assert(s[i + 1] == s.subrange(i, i + 4)[1]);
    assert(s[i + 2] == s.subrange(i, i + 4)[2]);
    assert(s[i + 3] == s.subrange(i, i + 4)[3]);
}

/// Appends `data` to `out`.
pub fn append_bytes(out: &mut Vec<u8>, data: &[u8])
    ensures
        final(out)@ == old(out)@ + data@,
{
    out.extend_from_slice(data);
    assert(out@ =~= old(out)@ + data@);
}

/// Appends the big-endian bytes of `x` to `out`.
pub fn append_be16(out: &mut Vec<u8>, x: u16)
    ensures
        final(out)@ == old(out)@ + be16(x),
{
    out.push((x / 256) as u8);
    out.push((x % 256) as u8);
    assert(out@ =~= old(out)@ + be16(x));
}

/// Appends the big-endian bytes of `x` to `out`.
pub fn append_be32(out: &mut Vec<u8>, x: u32)
    ensures
        final(out)@ == old(out)@ + be32(x),
{
    out.push((x / 0x100_0000) as u8);
    out.push((x / 0x1_0000 % 256) as u8);
    out.push((x / 256 % 256) as u8);
    out.push((x % 256) as u8);
    assert(out@ =~= old(out)@ + be32(x));
}

/// Reads the 16-bit integer whose big-endian bytes start at `i`.
pub fn read_be16(data: &[u8], i: usize) -> (r: u16)
    requires
        i + 2 <= data.len(),
    ensures
        r == u16_at(data@, i as int),
{
    data[i] as u16 * 256 + data[i + 1] as u16
}

/// Reads the 32-bit integer whose big-endian bytes start at `i`.
pub fn read_be32(data: &[u8], i: usize) -> (r: u32)
    requires
        i + 4 <= data.len(),
    ensures
        r == u32_at(data@, i as int),
{
    data[i] as u32 * 0x100_0000 + data[i + 1] as u32 * 0x1_0000 + data[i + 2] as u32 * 256 + data[i
        + 3] as u32
}

/// The low 16 bits of a length.
pub fn length_field(n: usize) -> (r: u16)
    ensures
        r == low16(n as nat),
{
    (n % 0x1_0000) as u16
}

/// `n` zero bytes.
pub fn zeros(n: usize) -> (r: Vec<u8>)
    ensures
        r@ == zero_bytes(n as nat),
{
    let r: Vec<u8> = vec![0u8; n];
    assert(r@ =~= zero_bytes(n as nat));
    r
}

/// Whether two byte strings are equal.
pub fn same_bytes(a: &[u8], b: &[u8]) -> (r: bool)
    ensures
        r == (a@ == b@),
{
    if a.len() != b.len() {
        return false;
    }
    let mut i: usize = 0;
    while i < a.len()
        invariant
            i <= a.len(),
            a.len() == b.len(),
            forall|j: int| 0 <= j < i ==> a@[j] == b@[j],
        decreases a.len() - i,
    {
        if a[i] != b[i] {
            return false;
        }
        i = i + 1;
    }
    assert(a@ =~= b@);
    true
}

/// Every piece that is counted starts inside the payload.
pub proof fn lemma_piece_start(len: nat, max: nat, i: int)
    requires
        len > 0,
        max > 0,
        0 <= i < piece_count(len, max),
    ensures
        0 <= i * max < len,
{
    let m = max as int;
    let l = len as int;
    assert(0 <= i * m < l) by (nonlinear_arith)
        requires
            m > 0,
            l > 0,
            0 <= i <= (l - 1) / m,
    ;
}

/// The pieces of a payload, put together, are the payload.
pub proof fn law_pieces_make_whole(payload: Seq<u8>, max: nat)
    requires
        max > 0,
    ensures
        joined(pieces(payload, max)) == payload,
        forall|i: int|
            0 <= i < pieces(payload, max).len() ==> 0 < (#[trigger] pieces(
                payload,
                max,
            )[i]).len() <= max,
{
    let n = piece_count(payload.len(), max);
    lemma_pieces_from(payload, max, 0);
    assert(payload.skip(0) =~= payload);
    assert(Seq::new((n - 0) as nat, |i: int| piece(payload, max, 0 + i)) =~= Seq::new(
        n,
        |i: int| piece(payload, max, i),
    ));
    assert forall|i: int| 0 <= i < n implies 0 < (#[trigger] pieces(payload, max)[i]).len()
        <= max by {
        lemma_piece_start(payload.len(), max, i);
    }
}

proof fn lemma_pieces_from(payload: Seq<u8>, max: nat, k: nat)
    requires
        max > 0,
        k <= piece_count(payload.len(), max),
    ensures
        k < piece_count(payload.len(), max) ==> k * max < payload.len(),
        joined(
            Seq::new(
                (piece_count(payload.len(), max) - k) as nat,
                |i: int| piece(payload, max, k + i),
            ),
        ) == payload.skip(if k * max < payload.len() {
            (k * max) as int
        } else {
            payload.len() as int
        }),
    decreases piece_count(payload.len(), max) - k,
{
    let len = payload.len();
    let n = piece_count(len, max);
    let all = Seq::new((n - k) as nat, |i: int| piece(payload, max, k + i));
    if k == n {
        assert(k * max >= len) by (nonlinear_arith)
            requires
                max > 0,
                k == (if len == 0 {
                    0
                } else {
                    ((len - 1) / (max as int) + 1) as nat
                }),
        ;
        assert(payload.skip(len as int) =~= Seq::<u8>::empty());
        assert(all =~= Seq::<Seq<u8>>::empty());
    } else {
        lemma_piece_start(len, max, k as int);
        lemma_pieces_from(payload, max, k + 1);
        let rest = Seq::new((n - (k + 1)) as nat, |i: int| piece(payload, max, (k + 1) + i));
        assert(all.skip(1) =~= rest);
        assert((k + 1) * max == k * max + max) by (nonlinear_arith);
        let start = (k * max) as int;
        assert(all[0] == piece(payload, max, k as int));
        if start + max < len {
            assert(piece(payload, max, k as int) + payload.skip(start + max)
                =~= payload.skip(start));
        } else {
            assert(piece(payload, max, k as int) + payload.skip(len as int) =~= payload.skip(
                start,
            ));
        }
    }
}

/// Byte strings joined in two goes are those of both.
pub proof fn lemma_joined_add(a: Seq<Seq<u8>>, b: Seq<Seq<u8>>)
    ensures
        joined(a + b) == joined(a) + joined(b),
    decreases a.len(),
{
    if a.len() == 0 {
        assert(a + b =~= b);
        assert(joined(a) + joined(b) =~= joined(b));
    } else {
        assert((a + b).skip(1) =~= a.skip(1) + b);
        lemma_joined_add(a.skip(1), b);
        assert(joined(a + b) =~= joined(a) + joined(b));
    }
}

/// All pieces but the last are as large as they may be, and the last is not
/// empty.
pub proof fn law_pieces_are_full(payload: Seq<u8>, max: nat, i: int)
    requires
        max > 0,
        0 <= i < pieces(payload, max).len(),
    ensures
        i < pieces(payload, max).len() - 1 ==> pieces(payload, max)[i].len() == max,
        0 < pieces(payload, max)[i].len() <= max,
{
    law_pieces_make_whole(payload, max);
    let n = piece_count(payload.len(), max);
    if i < n - 1 {
        lemma_piece_start(payload.len(), max, i + 1);
        assert((i + 1) * max == i * max + max) by (nonlinear_arith);
        lemma_piece_start(payload.len(), max, i);
    }
}

/// Byte strings are put together in order, each whole.
pub proof fn law_joined(a: Seq<u8>, parts: Seq<Seq<u8>>, more: Seq<Seq<u8>>)
    ensures
        joined(Seq::empty()) == Seq::<u8>::empty(),
        joined(seq![a]) == a,
        joined(parts + more) == joined(parts) + joined(more),
{
    lemma_joined_add(parts, more);
    assert(seq![a].skip(1) =~= Seq::<Seq<u8>>::empty());
    assert(joined(seq![a].skip(1)) =~= Seq::<u8>::empty());
    assert(joined(seq![a]) =~= a);
}

/// Integers go out with their highest byte first, and read back from there.
pub proof fn law_big_endian(x: u16, y: u32)
    ensures
        be16(x).len() == 2,
        be16(x)[0] * 256 + be16(x)[1] == x,
        u16_at(be16(x), 0) == x,
        be32(y).len() == 4,
        be32(y)[0] * 16777216 + be32(y)[1] * 65536 + be32(y)[2] * 256 + be32(y)[3] == y,
        u32_at(be32(y), 0) == y,
{
}

/// Lengths up to 65535 are described by a 16-bit field as they are.
pub proof fn law_length_field(n: nat)
    ensures
        n <= 65535 ==> low16(n) == n,
        low16(n + 65536) == low16(n),
{
}

} // verus!
