//! What the command line prints and accepts.

use vstd::prelude::*;

use crate::db::EvictionPolicy;
use crate::text::digits;
use crate::text::push_digit;

verus! {

/// The number of results of a search that names none.
pub fn default_k() -> (r: usize)
    ensures
        r == 10,
{
    10
}

/// The number of buckets that a search looks into if it names none.
pub fn default_nprobe() -> (r: usize)
    ensures
        r == 4,
{
    4
}

/// The name of an eviction policy.
pub open spec fn policy_name(p: EvictionPolicy) -> Seq<char> {
    match p {
        EvictionPolicy::OldestFirst => "oldest-first"@,
        EvictionPolicy::LowestEnergy => "lowest-energy"@,
    }
}

/// The name of an eviction policy.
pub fn eviction_policy_name(p: EvictionPolicy) -> (r: &'static str)
    ensures
        r@ == policy_name(p),
{
    match p {
        EvictionPolicy::OldestFirst => "oldest-first",
        EvictionPolicy::LowestEnergy => "lowest-energy",
    }
}

/// The bytes in hexadecimal, two digits each, the higher one first.
pub open spec fn hex_of(bytes: Seq<u8>) -> Seq<char> {
    Seq::new(
        2 * bytes.len(),
        |i: int|
            if i % 2 == 0 {
                digits()[bytes[i / 2] as int / 16]
            } else {
                digits()[bytes[i / 2] as int % 16]
            },
    )
}

/// The bytes in hexadecimal.
pub fn hex(bytes: &[u8]) -> (r: String)
    ensures
        r@ == hex_of(bytes@),
{
    let mut r: String = String::new();
    let mut i: usize = 0;
    while i < bytes.len()
        invariant
            i <= bytes@.len(),
            r@ == hex_of(bytes@.take(i as int)),
        decreases bytes@.len() - i,
    {
        let b: u8 = bytes[i];
        push_digit(&mut r, b / 16);
        push_digit(&mut r, b % 16);
        i += 1;
        assert(r@ =~= hex_of(bytes@.take(i as int)));
    }
    assert(bytes@.take(bytes@.len() as int) =~= bytes@);
    r
}

proof fn lemma_digits(x: int, y: int)
    requires
        0 <= x < 16,
        0 <= y < 16,
        digits()[x] == digits()[y],
    ensures
        x == y,
{
    let value = |c: char| if c as int >= 'a' as int {
        c as int - 'a' as int + 10
    } else {
        c as int - '0' as int
    };
    assert forall|z: int| 0 <= z < 16 implies value(#[trigger] digits()[z]) == z by {}
    assert(value(digits()[x]) == value(digits()[y]));
}

/// Bytes that are written alike are the same.
pub proof fn hex_tells_apart(a: Seq<u8>, b: Seq<u8>)
    requires
        hex_of(a) == hex_of(b),
    ensures
        a == b,
{
    assert(hex_of(a).len() == 2 * a.len());
    assert(hex_of(b).len() == 2 * b.len());
    assert forall|i: int| 0 <= i < a.len() implies a[i] == b[i] by {
        let x = a[i] as int;
        let y = b[i] as int;
        assert((2 * i) % 2 == 0 && (2 * i) / 2 == i);
        assert((2 * i + 1) % 2 == 1 && (2 * i + 1) / 2 == i);
        assert(hex_of(a)[2 * i] == digits()[x / 16]);
        assert(hex_of(b)[2 * i] == digits()[y / 16]);
        assert(hex_of(a)[2 * i + 1] == digits()[x % 16]);
        assert(hex_of(b)[2 * i + 1] == digits()[y % 16]);
        lemma_digits(x / 16, y / 16);
        lemma_digits(x % 16, y % 16);
    }
    assert(a =~= b);
}

} // verus!
