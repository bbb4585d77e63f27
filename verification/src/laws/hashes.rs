//! Which vectors have the same content hash.

use vstd::prelude::*;

use crate::arith::Arith;
use crate::bytes;
use crate::db;
use crate::db::LatentDb;

verus! {

/// The `k`-th byte of `x`, from the lowest on.
pub open spec fn byte_of(x: u32, k: int) -> u8 {
    if k == 0 {
        (x % 0x100) as u8
    } else if k == 1 {
        (x / 0x100 % 0x100) as u8
    } else if k == 2 {
        (x / 0x1_0000 % 0x100) as u8
    } else {
        (x / 0x100_0000 % 0x100) as u8
    }
}

/// All bytes of a vector: four for every coordinate, the lowest first.
pub open spec fn little_endian(v: Seq<u32>) -> Seq<u8> {
    Seq::new(4 * v.len(), |k: int| byte_of(v[k / 4], k % 4))
}

/// One step of FNV-1a in 64 bits.
pub open spec fn mixed(h: u64, b: u8) -> u64 {
    (((h ^ (b as u64)) * 0x100_0000_01b3) % 0x1_0000_0000_0000_0000) as u64
}

/// FNV-1a in 64 bits, over all of `s`.
pub open spec fn fnv1a(s: Seq<u8>) -> u64 {
    s.fold_left(0xcbf2_9ce4_8422_2325u64, |h: u64, b: u8| mixed(h, b))
}

proof fn lemma_fnv(s: Seq<u8>, n: int)
    requires
        0 <= n <= s.len(),
    ensures
        db::fnv(s, n) == fnv1a(s.take(n)),
    decreases n,
{
    if n > 0 {
        lemma_fnv(s, n - 1);
        assert(s.take(n).drop_last() =~= s.take(n - 1));
        assert(s.take(n).last() == s[n - 1]);
    } else {
        assert(s.take(0) =~= Seq::<u8>::empty());
    }
}

/// The bytes of the first `n` numbers are the first of all bytes.
pub proof fn lemma_flat(v: Seq<u32>, n: int)
    requires
        0 <= n <= v.len(),
    ensures
        bytes::flat(v, n) == little_endian(v).take(4 * n),
    decreases n,
{
    let s = little_endian(v);
    if n > 0 {
        lemma_flat(v, n - 1);
        let x = v[n - 1];
        assert(bytes::le4(x) =~= s.subrange(4 * n - 4, 4 * n)) by {
            assert(x / 0x100_0000 < 0x100);
            assert(s[4 * n - 4] == byte_of(x, 0));
            assert(s[4 * n - 3] == byte_of(x, 1));
            assert(s[4 * n - 2] == byte_of(x, 2));
            assert(s[4 * n - 1] == byte_of(x, 3));
        }
        assert(s.take(4 * n) =~= s.take(4 * n - 4) + s.subrange(4 * n - 4, 4 * n));
    } else {
        assert(s.take(0) =~= bytes::flat(v, 0));
    }
}

/// The content hash of a vector is FNV-1a over all its bytes.
pub proof fn hashes_cover_all_bytes(v: Seq<u32>)
    ensures
        db::content_hash(v) == fnv1a(little_endian(v)),
        little_endian(v).len() == 4 * v.len(),
{
    let n = v.len() as int;
    let s = bytes::flat(v, n);
    lemma_flat(v, n);
    assert(little_endian(v).take(4 * n) =~= little_endian(v));
    lemma_fnv(s, s.len() as int);
    assert(s.take(s.len() as int) =~= s);
}

proof fn lemma_products_differ(x: u64, y: u64)
    requires
        (x * 0x100_0000_01b3) % 0x1_0000_0000_0000_0000 == (y * 0x100_0000_01b3)
            % 0x1_0000_0000_0000_0000,
    ensures
        x == y,
{
    let m: int = 0x1_0000_0000_0000_0000;
    let p: int = 0x100_0000_01b3;
    let q: int = 0xce96_5057_aff6_957b;
    let d: int = x - y;
    let a: int = (x * 0x100_0000_01b3) / m - (y * 0x100_0000_01b3) / m;
    assert(d * p == a * m);
    assert(p * q == 1 + 887285111055 * m) by (nonlinear_arith)
        requires
            m == 0x1_0000_0000_0000_0000,
            p == 0x100_0000_01b3,
            q == 0xce96_5057_aff6_957b,
    ;
    let t: int = a * q - 887285111055 * d;
    assert(d == m * t) by (nonlinear_arith)
        requires
            d * p == a * m,
            p * q == 1 + 887285111055 * m,
            t == a * q - 887285111055 * d,
    {
        assert((d * p) * q == (a * m) * q);
        assert((d * p) * q == d * (p * q));
        assert(d * (1 + 887285111055 * m) == d + 887285111055 * (d * m));
        assert((a * m) * q == m * (a * q));
        assert(m * (a * q - 887285111055 * d) == m * (a * q) - 887285111055 * (d * m));
    }
    assert(-m < d < m);
    assert(t == 0) by (nonlinear_arith)
        requires
            d == m * t,
            -m < d < m,
            m > 0,
    ;
}

/// A step of FNV-1a loses nothing: neither two running values nor two bytes
/// give the same next value.
pub proof fn steps_tell_apart(h: u64, g: u64, b: u8, c: u8)
    ensures
        h != g ==> mixed(h, b) != mixed(g, b),
        b != c ==> mixed(h, b) != mixed(h, c),
{
    if mixed(h, b) == mixed(g, b) {
        lemma_products_differ(h ^ (b as u64), g ^ (b as u64));
        let x = b as u64;
        assert(h ^ x == g ^ x ==> h == g) by (bit_vector);
    }
    if mixed(h, b) == mixed(h, c) {
        lemma_products_differ(h ^ (b as u64), h ^ (c as u64));
        let x = b as u64;
        let y = c as u64;
        assert(h ^ x == h ^ y ==> x == y) by (bit_vector);
    }
}

proof fn lemma_one_byte(s: Seq<u8>, t: Seq<u8>, p: int, n: int)
    requires
        s.len() == t.len(),
        0 <= p < s.len(),
        0 <= n <= s.len(),
        s[p] != t[p],
        forall|i: int| 0 <= i < s.len() && i != p ==> s[i] == t[i],
    ensures
        fnv1a(s.take(n)) == fnv1a(t.take(n)) <==> n <= p,
    decreases n,
{
    if n > 0 {
        lemma_one_byte(s, t, p, n - 1);
        assert(s.take(n).drop_last() =~= s.take(n - 1));
        assert(t.take(n).drop_last() =~= t.take(n - 1));
        let h = fnv1a(s.take(n - 1));
        let g = fnv1a(t.take(n - 1));
        assert(fnv1a(s.take(n)) == mixed(h, s[n - 1]));
        assert(fnv1a(t.take(n)) == mixed(g, t[n - 1]));
        steps_tell_apart(h, g, s[n - 1], t[n - 1]);
    } else {
        assert(s.take(0) =~= t.take(0));
    }
}

/// Every byte of every coordinate counts: vectors that differ in one byte of
/// one coordinate have different content hashes.
pub proof fn every_byte_counts(v: Seq<u32>, w: Seq<u32>, i: int, k: int)
    requires
        v.len() == w.len(),
        0 <= i < v.len(),
        0 <= k < 4,
        forall|j: int| 0 <= j < v.len() && j != i ==> v[j] == w[j],
        byte_of(v[i], k) != byte_of(w[i], k),
        forall|m: int| 0 <= m < 4 && m != k ==> byte_of(v[i], m) == byte_of(w[i], m),
    ensures
        db::content_hash(v) != db::content_hash(w),
{
    let s = little_endian(v);
    let t = little_endian(w);
    let p = 4 * i + k;
    hashes_cover_all_bytes(v);
    hashes_cover_all_bytes(w);
    assert(p / 4 == i && p % 4 == k);
    assert(s[p] == byte_of(v[i], k) && t[p] == byte_of(w[i], k));
    assert forall|q: int| 0 <= q < s.len() && q != p implies s[q] == t[q] by {
        if q / 4 == i {
            assert(q % 4 != k);
        } else {
            assert(v[q / 4] == w[q / 4]);
        }
    }
    lemma_one_byte(s, t, p, s.len() as int);
    assert(s.take(s.len() as int) =~= s);
    assert(t.take(t.len() as int) =~= t);
}

/// A vector that is recognised as a stored one has the same bytes, or a
/// string of bytes that collides with the stored one's under FNV-1a.
pub proof fn recognised_vectors_have_the_hash_of_the_stored_one(
    ar: Arith,
    before: LatentDb,
    stored: LatentDb,
    later: LatentDb,
    v: Seq<u32>,
    w: Seq<u32>,
    metadata: Seq<char>,
)
    requires
        stored.stores(ar, before, v, metadata),
        later.wf(),
        later.contents().contains_key(before.next_id),
        later.contents()[before.next_id] == stored.contents()[before.next_id],
        later.hash_to_id@.contains_key(db::content_hash(w)),
        later.hash_to_id@[db::content_hash(w)] == before.next_id,
    ensures
        v == w || (little_endian(v) != little_endian(w) && fnv1a(little_endian(v)) == fnv1a(
            little_endian(w),
        )),
{
    let id = before.next_id;
    assert(later.contents()[id] == later.records.record(id));
    assert(stored.contents()[id].hash == db::content_hash(v));
    assert(later.records.record(id).hash == db::content_hash(w));
    hashes_cover_all_bytes(v);
    hashes_cover_all_bytes(w);
    if little_endian(v) == little_endian(w) {
        let n = v.len() as int;
        assert(w.len() == n);
        lemma_flat(v, n);
        lemma_flat(w, n);
        bytes::flat_tells_apart(v, w);
    }
}

/// A vector is recognised once it is stored: as long as its record lives, its
/// hash leads to it.
pub proof fn stored_vectors_are_recognised(
    ar: Arith,
    before: LatentDb,
    stored: LatentDb,
    later: LatentDb,
    v: Seq<u32>,
    metadata: Seq<char>,
)
    requires
        stored.stores(ar, before, v, metadata),
        later.wf(),
        later.contents().contains_key(before.next_id),
        later.contents()[before.next_id] == stored.contents()[before.next_id],
    ensures
        later.hash_to_id@.contains_key(fnv1a(little_endian(v))),
        later.hash_to_id@[fnv1a(little_endian(v))] == before.next_id,
{
    let id = before.next_id;
    hashes_cover_all_bytes(v);
    assert(later.contents()[id] == later.records.record(id));
    assert(later.fits(id));
}

} // verus!
