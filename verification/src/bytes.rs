//! Little-endian bytes of integers and of lists of numbers.

use vstd::prelude::*;

verus! {

/// The four bytes of `x`, lowest first.
pub open spec fn le4(x: u32) -> Seq<u8> {
    seq![
        (x % 0x100) as u8,
        (x / 0x100 % 0x100) as u8,
        (x / 0x1_0000 % 0x100) as u8,
        (x / 0x100_0000) as u8,
    ]
}

/// The eight bytes of `x`, lowest first.
pub open spec fn le8(x: u64) -> Seq<u8> {
    le4((x % 0x1_0000_0000) as u32) + le4((x / 0x1_0000_0000) as u32)
}

/// The bytes of the first `n` numbers of `v`.
pub open spec fn flat(v: Seq<u32>, n: int) -> Seq<u8>
    decreases n,
{
    if n <= 0 {
        Seq::empty()
    } else {
        flat(v, n - 1) + le4(v[n - 1])
    }
}

/// The number whose bytes stand at `at`.
pub open spec fn word(s: Seq<u8>, at: int) -> u32 {
    (s[at] + 0x100 * s[at + 1] + 0x1_0000 * s[at + 2] + 0x100_0000 * s[at + 3]) as u32
}

/// Appends the bytes of `x`.
pub fn push_le4(out: &mut Vec<u8>, x: u32)
    ensures
        final(out)@ == old(out)@ + le4(x),
{
    out.push((x % 0x100) as u8);
    out.push((x / 0x100 % 0x100) as u8);
    out.push((x / 0x1_0000 % 0x100) as u8);
    out.push((x / 0x100_0000) as u8);
    assert(out@ =~= old(out)@ + le4(x));
}

/// Appends the bytes of `x`.
pub fn push_le8(out: &mut Vec<u8>, x: u64)
    ensures
        final(out)@ == old(out)@ + le8(x),
{
    push_le4(out, (x % 0x1_0000_0000) as u32);
    push_le4(out, (x / 0x1_0000_0000) as u32);
    assert(out@ =~= old(out)@ + le8(x));
}

/// Appends the bytes of the numbers of `v`.
pub fn push_flat(out: &mut Vec<u8>, v: &[u32])
    ensures
        final(out)@ == old(out)@ + flat(v@, v@.len() as int),
{
    let ghost start = out@;
    let mut i: usize = 0;
    assert(out@ =~= start + flat(v@, 0));
    while i < v.len()
        invariant
            i <= v@.len(),
            out@ == start + flat(v@, i as int),
        decreases v@.len() - i,
    {
        push_le4(out, v[i]);
        proof {
            assert((start + flat(v@, i as int)) + le4(v@[i as int]) =~= start + flat(v@, i + 1));
        }
        i += 1;
    }
}

/// Reads the number whose bytes stand at `at`.
pub fn read_word(s: &[u8], at: usize) -> (r: u32)
    requires
        at + 4 <= s@.len(),
    ensures
        r == word(s@, at as int),
{
    s[at] as u32 + 0x100 * (s[at + 1] as u32) + 0x1_0000 * (s[at + 2] as u32) + 0x100_0000 * (
    s[at + 3] as u32)
}

/// Reading gives back what was written.
pub proof fn word_of_bytes(s: Seq<u8>, at: int, x: u32)
    requires
        0 <= at,
        at + 4 <= s.len(),
        s.subrange(at, at + 4) == le4(x),
    ensures
        word(s, at) == x,
{
    let b = s.subrange(at, at + 4);
    assert(b[0] == s[at] && b[1] == s[at + 1] && b[2] == s[at + 2] && b[3] == s[at + 3]);
}

/// The bytes of a list, and where each number stands in them.
pub proof fn flat_words(v: Seq<u32>, n: int)
    requires
        0 <= n <= v.len(),
    ensures
        flat(v, n).len() == 4 * n,
        forall|i: int| 0 <= i < n ==> #[trigger] word(flat(v, n), 4 * i) == v[i],
    decreases n,
{
    if n > 0 {
        flat_words(v, n - 1);
        let f = flat(v, n);
        let g = flat(v, n - 1);
        assert(f.subrange(4 * (n - 1), 4 * n) =~= le4(v[n - 1]));
        word_of_bytes(f, 4 * (n - 1), v[n - 1]);
        assert forall|i: int| 0 <= i < n implies #[trigger] word(f, 4 * i) == v[i] by {
            if i < n - 1 {
                assert(word(g, 4 * i) == v[i]);
            }
        }
    }
}

/// Lists with the same bytes are the same.
pub proof fn flat_tells_apart(a: Seq<u32>, b: Seq<u32>)
    requires
        flat(a, a.len() as int) == flat(b, b.len() as int),
    ensures
        a == b,
{
    let x = flat(a, a.len() as int);
    let y = flat(b, b.len() as int);
    flat_words(a, a.len() as int);
    flat_words(b, b.len() as int);
    assert(x.len() == y.len());
    assert forall|i: int| 0 <= i < a.len() implies #[trigger] a[i] == b[i] by {
        assert(word(x, 4 * i) == a[i]);
        assert(word(y, 4 * i) == b[i]);
    }
    assert(a =~= b);
}

/// Integers with the same four bytes are the same.
pub proof fn le4_tells_apart(a: u32, b: u32)
    requires
        le4(a) == le4(b),
    ensures
        a == b,
{
    assert(le4(a).subrange(0, 4) =~= le4(a));
    assert(le4(b).subrange(0, 4) =~= le4(b));
    word_of_bytes(le4(a), 0, a);
    word_of_bytes(le4(b), 0, b);
}

/// Integers with the same eight bytes are the same.
pub proof fn le8_tells_apart(a: u64, b: u64)
    requires
        le8(a) == le8(b),
    ensures
        a == b,
{
    let x = (a % 0x1_0000_0000) as u32;
    let y = (b % 0x1_0000_0000) as u32;
    let u = (a / 0x1_0000_0000) as u32;
    let v = (b / 0x1_0000_0000) as u32;
    assert(le4(x) =~= le8(a).subrange(0, 4));
    assert(le4(y) =~= le8(b).subrange(0, 4));
    assert(le4(u) =~= le8(a).subrange(4, 8));
    assert(le4(v) =~= le8(b).subrange(4, 8));
    le4_tells_apart(x, y);
    le4_tells_apart(u, v);
}

} // verus!
