//! Flat storage of records.
//!
//! The records' codes, hashes and metadata stand in parallel arrays, each
//! record in the slot with the number of its id. Ids are not reused, so a
//! slot once emptied stays empty; its metadata stays behind in the buffer.

use vstd::prelude::*;
use vstd::string::StringExecFns;
use vstd::utf8::decode_utf8;
use vstd::utf8::encode_utf8;
use vstd::utf8::valid_utf8;

use crate::sorting;
use crate::text;
use crate::text::decimal;
use crate::text::push_decimal;

verus! {

/// What is stored of a record.
#[verifier::ext_equal]
pub struct Record {
    pub hash: u64,
    pub codes: Seq<u8>,
    pub text: Seq<char>,
}

/// What can be wrong with an arena that was not built by insertions.
#[derive(Debug, Clone, Copy, PartialEq, Eq, Structural)]
pub enum ArenaFault {
    /// There are not `code_len` codes for each slot.
    CodesLength { codes: usize, capacity: usize, code_len: usize },
    /// Not every slot has a hash and a span.
    TableLength { hash: usize, meta_span: usize, capacity: usize },
    /// `len` is not the number of live slots.
    LiveCount { len: usize, live: usize },
    /// The metadata of a live slot ends beyond the buffer.
    SpanOutOfBounds { id: usize, offset: u64, end: u64, meta_len: usize },
    /// The metadata of a live slot is not UTF-8.
    NotUtf8 { id: usize },
}

/// A fault in words; `detail` is what is wrong with text that is not UTF-8.
pub open spec fn fault_text(f: ArenaFault, detail: Seq<char>) -> Seq<char> {
    match f {
        ArenaFault::CodesLength { codes, capacity, code_len } => "codes length "@ + decimal(
            codes as int,
        ) + " does not match capacity "@ + decimal(capacity as int) + " * code_len "@ + decimal(
            code_len as int,
        ),
        ArenaFault::TableLength { hash, meta_span, capacity } => "hash length "@ + decimal(
            hash as int,
        ) + " / meta_span length "@ + decimal(meta_span as int) + " does not match capacity "@
            + decimal(capacity as int),
        ArenaFault::LiveCount { len, live } => "len "@ + decimal(len as int) + " does not match "@
            + decimal(live as int) + " live slots"@,
        ArenaFault::SpanOutOfBounds { id, offset, end, meta_len } => "id "@ + decimal(id as int)
            + ": metadata span "@ + decimal(offset as int) + ".."@ + decimal(end as int)
            + " is out of bounds (meta_bytes len "@ + decimal(meta_len as int) + ")"@,
        ArenaFault::NotUtf8 { id } => "id "@ + decimal(id as int)
            + ": metadata bytes are not valid utf8: "@ + detail,
    }
}

/// Puts a fault into words.
fn describe(f: ArenaFault, detail: &str) -> (r: String)
    ensures
        r@ == fault_text(f, detail@),
{
    let mut r: String = String::new();
    match f {
        ArenaFault::CodesLength { codes, capacity, code_len } => {
            r.append("codes length ");
            push_decimal(&mut r, codes as u64);
            r.append(" does not match capacity ");
            push_decimal(&mut r, capacity as u64);
            r.append(" * code_len ");
            push_decimal(&mut r, code_len as u64);
        },
        ArenaFault::TableLength { hash, meta_span, capacity } => {
            r.append("hash length ");
            push_decimal(&mut r, hash as u64);
            r.append(" / meta_span length ");
            push_decimal(&mut r, meta_span as u64);
            r.append(" does not match capacity ");
            push_decimal(&mut r, capacity as u64);
        },
        ArenaFault::LiveCount { len, live } => {
            r.append("len ");
            push_decimal(&mut r, len as u64);
            r.append(" does not match ");
            push_decimal(&mut r, live as u64);
            r.append(" live slots");
        },
        ArenaFault::SpanOutOfBounds { id, offset, end, meta_len } => {
            r.append("id ");
            push_decimal(&mut r, id as u64);
            r.append(": metadata span ");
            push_decimal(&mut r, offset);
            r.append("..");
            push_decimal(&mut r, end);
            r.append(" is out of bounds (meta_bytes len ");
            push_decimal(&mut r, meta_len as u64);
            r.append(")");
        },
        ArenaFault::NotUtf8 { id } => {
            r.append("id ");
            push_decimal(&mut r, id as u64);
            r.append(": metadata bytes are not valid utf8: ");
            r.append(detail);
        },
    }
    assert(r@ =~= fault_text(f, detail@));
    r
}

/// The storage.
#[derive(Debug)]
pub struct RecordArena {
    pub code_len: usize,
    pub codes: Vec<u8>,
    pub hash: Vec<u64>,
    pub meta_span: Vec<(u32, u32)>,
    pub meta_bytes: Vec<u8>,
    pub live: Vec<bool>,
    pub len: usize,
}

/// The number of live slots below `n`.
pub open spec fn live_count(live: Seq<bool>, n: int) -> int
    decreases n,
{
    if n <= 0 {
        0
    } else if live[n - 1] {
        live_count(live, n - 1) + 1
    } else {
        live_count(live, n - 1)
    }
}

/// The live slots below `n`, in order.
pub open spec fn live_ids(live: Seq<bool>, n: int) -> Seq<u64>
    decreases n,
{
    if n <= 0 {
        Seq::empty()
    } else if live[n - 1] {
        live_ids(live, n - 1).push((n - 1) as u64)
    } else {
        live_ids(live, n - 1)
    }
}

/// The capacity that an arena of `capacity` slots grows to when it needs
/// `needed`: at least double, and at least sixteen.
pub open spec fn grown(capacity: int, needed: int) -> int {
    let double = if capacity * 2 <= usize::MAX {
        capacity * 2
    } else {
        usize::MAX as int
    };
    let more = if needed >= double {
        needed
    } else {
        double
    };
    if more >= 16 {
        more
    } else {
        16
    }
}

fn grow(capacity: usize, needed: usize) -> (r: usize)
    ensures
        r == grown(capacity as int, needed as int),
{
    let double: usize = if capacity <= usize::MAX / 2 {
        capacity * 2
    } else {
        usize::MAX
    };
    let more: usize = if needed >= double {
        needed
    } else {
        double
    };
    if more >= 16 {
        more
    } else {
        16
    }
}

/// The capacity after making room for `needed` slots.
pub open spec fn capacity_for(capacity: int, needed: int) -> int {
    if capacity >= needed {
        capacity
    } else {
        grown(capacity, needed)
    }
}

impl RecordArena {
    /// Whether slot `id` is live.
    pub open spec fn lives(&self, id: u64) -> bool {
        id < self.live@.len() && self.live@[id as int]
    }

    /// The codes in slot `id`.
    pub open spec fn codes_at(&self, id: int) -> Seq<u8> {
        self.codes@.subrange(id * self.code_len, id * self.code_len + self.code_len)
    }

    /// Where the metadata of slot `id` ends.
    pub open spec fn meta_end(&self, id: int) -> int {
        self.meta_span@[id].0 + self.meta_span@[id].1
    }

    /// The bytes of the metadata of slot `id`.
    pub open spec fn meta_at(&self, id: int) -> Seq<u8> {
        self.meta_bytes@.subrange(self.meta_span@[id].0 as int, self.meta_end(id))
    }

    /// The metadata of slot `id` is text.
    pub open spec fn has_text(&self, id: int) -> bool {
        self.meta_end(id) <= self.meta_bytes@.len() && valid_utf8(self.meta_at(id))
    }

    /// The arrays fit together, and every live slot has text.
    pub open spec fn wf(&self) -> bool {
        &&& self.codes@.len() == self.live@.len() * self.code_len
        &&& self.hash@.len() == self.live@.len()
        &&& self.meta_span@.len() == self.live@.len()
        &&& self.len == live_count(self.live@, self.live@.len() as int)
        &&& forall|i: int| 0 <= i < self.live@.len() && self.live@[i] ==> #[trigger] self.has_text(i)
    }

    /// The record in slot `id`.
    pub open spec fn record(&self, id: u64) -> Record {
        Record {
            hash: self.hash@[id as int],
            codes: self.codes_at(id as int),
            text: decode_utf8(self.meta_at(id as int)),
        }
    }

    /// The records by id.
    pub open spec fn contents(&self) -> Map<u64, Record> {
        Map::new(|id: u64| self.lives(id), |id: u64| self.record(id))
    }

    /// The ids of the records, in order.
    pub open spec fn id_list(&self) -> Seq<u64> {
        live_ids(self.live@, self.live@.len() as int)
    }

    /// There is room for a record with the id `id` and `size` bytes of
    /// metadata.
    pub open spec fn has_room(&self, id: u64, size: int) -> bool {
        &&& id < usize::MAX
        &&& self.meta_bytes@.len() + size <= u32::MAX
        &&& capacity_for(self.live@.len() as int, id + 1) * self.code_len <= usize::MAX
    }

    /// There are no slots.
    pub open spec fn fresh(&self) -> bool {
        &&& self.codes@.len() == 0
        &&& self.hash@.len() == 0
        &&& self.meta_span@.len() == 0
        &&& self.meta_bytes@.len() == 0
        &&& self.live@.len() == 0
        &&& self.len == 0
    }

    /// This is `before` with the given record under `id`.
    pub open spec fn puts(
        &self,
        before: RecordArena,
        id: u64,
        hash: u64,
        codes: Seq<u8>,
        text: Seq<char>,
    ) -> bool {
        &&& self.wf()
        &&& self.code_len == before.code_len
        &&& self.contents() == before.contents().insert(id, Record { hash, codes, text })
        &&& self.live@.len() == capacity_for(before.live@.len() as int, id + 1)
        &&& self.meta_bytes@.len() == before.meta_bytes@.len() + encode_utf8(text).len()
        &&& self.len == before.len + if before.lives(id) {
            0int
        } else {
            1int
        }
    }

    /// This is `before` without what stood under `id`.
    pub open spec fn drops(&self, before: RecordArena, id: u64) -> bool {
        &&& self.wf()
        &&& self.code_len == before.code_len
        &&& self.live@.len() == before.live@.len()
        &&& self.meta_bytes@ == before.meta_bytes@
        &&& self.contents() == before.contents().remove(id)
        &&& self.len == before.len - if before.lives(id) {
            1int
        } else {
            0int
        }
    }

    /// What is wrong with live slot `id`, if anything.
    pub open spec fn fault_at(&self, id: int) -> Option<ArenaFault> {
        if self.meta_end(id) > self.meta_bytes@.len() {
            Some(
                ArenaFault::SpanOutOfBounds {
                    id: id as usize,
                    offset: self.meta_span@[id].0 as u64,
                    end: self.meta_end(id) as u64,
                    meta_len: self.meta_bytes@.len() as usize,
                },
            )
        } else if !valid_utf8(self.meta_at(id)) {
            Some(ArenaFault::NotUtf8 { id: id as usize })
        } else {
            None
        }
    }

    /// What is wrong with the first of the slots below `n` with which
    /// something is.
    pub open spec fn first_fault(&self, n: int) -> Option<ArenaFault>
        decreases n,
    {
        if n <= 0 {
            None
        } else if self.first_fault(n - 1) is Some {
            self.first_fault(n - 1)
        } else if self.live@[n - 1] {
            self.fault_at(n - 1)
        } else {
            None
        }
    }

    /// What is wrong with the arena, if anything.
    pub open spec fn fault(&self) -> Option<ArenaFault> {
        let capacity = self.live@.len();
        if self.codes@.len() != capacity * self.code_len {
            Some(
                ArenaFault::CodesLength {
                    codes: self.codes@.len() as usize,
                    capacity: capacity as usize,
                    code_len: self.code_len,
                },
            )
        } else if self.hash@.len() != capacity || self.meta_span@.len() != capacity {
            Some(
                ArenaFault::TableLength {
                    hash: self.hash@.len() as usize,
                    meta_span: self.meta_span@.len() as usize,
                    capacity: capacity as usize,
                },
            )
        } else if live_count(self.live@, capacity as int) != self.len {
            Some(
                ArenaFault::LiveCount {
                    len: self.len,
                    live: live_count(self.live@, capacity as int) as usize,
                },
            )
        } else {
            self.first_fault(capacity as int)
        }
    }

    /// What is wrong with the arena, in words.
    pub open spec fn complaint(&self) -> Option<Seq<char>> {
        match self.fault() {
            Some(f) => Some(
                fault_text(
                    f,
                    match f {
                        ArenaFault::NotUtf8 { id } => text::utf8_complaint(self.meta_at(id as int)),
                        _ => ""@,
                    },
                ),
            ),
            None => None,
        }
    }

    /// An empty arena for records of `code_len` codes.
    pub fn new(code_len: usize) -> (r: Self)
        ensures
            r.wf(),
            r.code_len == code_len,
            r.contents() == Map::<u64, Record>::empty(),
            r.fresh(),
    {
        let r: RecordArena = RecordArena {
            code_len,
            codes: Vec::new(),
            hash: Vec::new(),
            meta_span: Vec::new(),
            meta_bytes: Vec::new(),
            live: Vec::new(),
            len: 0,
        };
        assert(0 * code_len == 0);
        assert(r.contents() =~= Map::<u64, Record>::empty());
        r
    }

    /// The number of slots.
    pub fn capacity(&self) -> (r: usize)
        ensures
            r == self.live@.len(),
    {
        self.live.len()
    }

    /// Grows the arrays so that there are at least `min_capacity` slots.
    pub fn ensure_capacity(&mut self, min_capacity: usize)
        requires
            old(self).wf(),
            capacity_for(old(self).live@.len() as int, min_capacity as int) * old(self).code_len
                <= usize::MAX,
        ensures
            final(self).wf(),
            old(self).live@.len() >= min_capacity ==> *final(self) == *old(self),
            final(self).live@.len() == capacity_for(
                old(self).live@.len() as int,
                min_capacity as int,
            ),
            final(self).live@.len() >= min_capacity,
            final(self).code_len == old(self).code_len,
            final(self).meta_bytes@ == old(self).meta_bytes@,
            final(self).len == old(self).len,
            final(self).contents() == old(self).contents(),
            final(self).id_list() == old(self).id_list(),
            forall|id: u64| #[trigger] final(self).lives(id) <==> old(self).lives(id),
    {
        let capacity: usize = self.capacity();
        if capacity >= min_capacity {
            return;
        }
        let size: usize = grow(capacity, min_capacity);
        self.codes.resize(size * self.code_len, 0);
        self.hash.resize(size, 0);
        self.meta_span.resize(size, (0, 0));
        self.live.resize(size, false);
        proof {
            let a = *old(self);
            let b = *self;
            assert(a.live@.len() * a.code_len <= size * a.code_len) by (nonlinear_arith)
                requires
                    a.live@.len() <= size,
            ;
            assert forall|i: int| 0 <= i < a.live@.len() implies #[trigger] b.live@[i] == a.live@[i] by {
                assert(b.live@.subrange(0, a.live@.len() as int)[i] == a.live@[i]);
            }
            assert forall|i: int| 0 <= i < a.codes@.len() implies #[trigger] b.codes@[i]
                == a.codes@[i] by {
                assert(b.codes@.subrange(0, a.codes@.len() as int)[i] == a.codes@[i]);
            }
            assert forall|i: int| 0 <= i < a.live@.len() implies #[trigger] b.hash@[i]
                == a.hash@[i] by {
                assert(b.hash@.subrange(0, a.hash@.len() as int)[i] == a.hash@[i]);
            }
            assert forall|i: int| 0 <= i < a.live@.len() implies #[trigger] b.meta_span@[i]
                == a.meta_span@[i] by {
                assert(b.meta_span@.subrange(0, a.meta_span@.len() as int)[i] == a.meta_span@[i]);
            }
            assert forall|i: int| a.live@.len() <= i < size implies !#[trigger] b.live@[i] by {}
            lemma_live_extends(a.live@, b.live@, size as int);
            assert forall|id: u64| #[trigger] b.lives(id) <==> a.lives(id) by {
                if id < a.live@.len() {
                    assert(b.live@[id as int] == a.live@[id as int]);
                } else if id < size {
                    assert(!b.live@[id as int]);
                }
            }
            assert forall|i: int| 0 <= i < b.live@.len() && b.live@[i] implies #[trigger] b.has_text(
                i,
            ) by {
                assert(a.live@[i]);
                assert(a.has_text(i));
                assert(b.meta_at(i) =~= a.meta_at(i));
            }
            assert forall|id: u64| #[trigger] a.lives(id) implies b.record(id) == a.record(id) by {
                lemma_slot_fits(a, id as int);
                assert(b.codes_at(id as int) =~= a.codes_at(id as int));
                assert(b.meta_at(id as int) =~= a.meta_at(id as int));
            }
            assert(b.contents() =~= a.contents());
        }
    }

    /// Whether there is room for a record with the id `id` and `size` bytes of
    /// metadata.
    pub fn can_hold(&self, id: u64, size: usize) -> (r: bool)
        ensures
            r == self.has_room(id, size as int),
    {
        if id >= usize::MAX as u64 {
            return false;
        }
        let used: usize = self.meta_bytes.len();
        if used > u32::MAX as usize || size > u32::MAX as usize - used {
            return false;
        }
        let needed: usize = id as usize + 1;
        let capacity: usize = self.capacity();
        let slots: usize = if capacity >= needed {
            capacity
        } else {
            grow(capacity, needed)
        };
        let total: u128 = {
            proof {
                let x = slots as int;
                let y = self.code_len as int;
                assert(0 <= x * y <= u64::MAX * u64::MAX) by (nonlinear_arith)
                    requires
                        0 <= x <= u64::MAX,
                        0 <= y <= u64::MAX,
                ;
            }
            slots as u128 * self.code_len as u128
        };
        total <= usize::MAX as u128
    }

    /// Stores the record `id`, in place of what was stored under it.
    pub fn insert(&mut self, id: u64, hash: u64, metadata: &str, codes: &Vec<u8>)
        requires
            old(self).wf(),
            codes@.len() == old(self).code_len,
            old(self).has_room(id, encode_utf8(metadata@).len() as int),
        ensures
            final(self).puts(*old(self), id, hash, codes@, metadata@),
            forall|x: u64| #[trigger]
                final(self).lives(x) <==> x == id || old(self).lives(x),
    {
        broadcast use vstd::utf8::encode_utf8_valid_utf8;
        broadcast use vstd::utf8::encode_utf8_decode_utf8;

        let at: usize = id as usize;
        self.ensure_capacity(at + 1);
        let ghost a = *self;
        let stride: usize = self.code_len;
        proof {
            assert((at + 1) * stride <= a.live@.len() * stride) by (nonlinear_arith)
                requires
                    at + 1 <= a.live@.len(),
            ;
            assert((at + 1) * stride == at * stride + stride) by (nonlinear_arith);
            assert(0 <= at * stride) by (nonlinear_arith);
            lemma_live_count(a.live@, a.live@.len() as int);
        }
        let ghost total = self.codes@.len();
        let size: usize = self.codes.len();
        let start: usize = at * stride;
        let mut k: usize = 0;
        while k < stride
            invariant
                k <= stride,
                stride == codes@.len(),
                stride == a.code_len,
                start == at * stride,
                start + stride <= total,
                total <= usize::MAX,
                self.codes@.len() == total,
                total == a.codes@.len(),
                self.code_len == a.code_len,
                self.hash@ == a.hash@,
                self.meta_span@ == a.meta_span@,
                self.meta_bytes@ == a.meta_bytes@,
                self.live@ == a.live@,
                self.len == a.len,
                forall|i: int|
                    0 <= i < total && !(start <= i < start + k) ==> #[trigger] self.codes@[i]
                        == a.codes@[i],
                forall|i: int| start <= i < start + k ==> #[trigger] self.codes@[i] == codes@[i - start],
            decreases stride - k,
        {
            self.codes.set(start + k, codes[k]);
            k += 1;
        }
        self.hash.set(at, hash);
        let offset: usize = self.meta_bytes.len();
        let text: &[u8] = metadata.as_bytes();
        let text_len: usize = text.len();
        self.meta_bytes.extend_from_slice(text);
        self.meta_span.set(at, (offset as u32, text_len as u32));
        let slots: usize = self.live.len();
        let was_live: bool = self.live[at];
        assert(a.lives(id) <==> old(self).lives(id));
        if !was_live {
            proof {
                lemma_count_set(a.live@, at as int, a.live@.len() as int);
            }
            self.len = self.len + 1;
        } else {
            assert(a.live@.update(at as int, true) =~= a.live@);
        }
        self.live.set(at, true);
        proof {
            let b = *self;
            let bytes = encode_utf8(metadata@);
            assert(b.meta_bytes@ =~= a.meta_bytes@ + bytes);
            assert(b.meta_at(at as int) =~= bytes);
            assert(b.has_text(at as int));
            assert forall|i: int| 0 <= i < b.live@.len() && b.live@[i] implies #[trigger] b.has_text(
                i,
            ) by {
                if i != at {
                    assert(a.live@[i]);
                    assert(a.has_text(i));
                    assert(b.meta_at(i) =~= a.meta_at(i));
                }
            }
            assert(b.codes_at(at as int) =~= codes@);
            let want = old(self).contents().insert(
                id,
                Record { hash, codes: codes@, text: metadata@ },
            );
            assert(a.contents() == old(self).contents());
            assert forall|x: u64| #[trigger] b.lives(x) <==> x == id || old(self).lives(x) by {
                assert(a.lives(x) <==> old(self).lives(x));
            }
            assert forall|x: u64| b.lives(x) implies #[trigger] b.contents()[x] == want[x] by {
                if x == id {
                    assert(b.record(x) == want[x]);
                } else {
                    assert(a.lives(x));
                    assert(a.has_text(x as int));
                    lemma_slot_fits(a, x as int);
                    lemma_slots_apart(stride as int, x as int, at as int);
                    assert(b.codes_at(x as int) =~= a.codes_at(x as int));
                    assert(b.meta_at(x as int) =~= a.meta_at(x as int));
                    assert(b.record(x) == a.record(x));
                    assert(a.contents()[x] == a.record(x));
                }
            }
            assert forall|x: u64| #[trigger] b.contents().contains_key(x) <==> want.contains_key(x) by {
                assert(a.contents().contains_key(x) <==> a.lives(x));
            }
            assert(b.contents() =~= want);
        }
    }

    /// Whether `id` is stored.
    pub fn is_live(&self, id: u64) -> (r: bool)
        ensures
            r == self.lives(id),
            r ==> id <= usize::MAX,
    {
        id < self.live.len() as u64 && self.live[id as usize]
    }

    /// The codes of `id`, if it is stored.
    pub fn codes(&self, id: u64) -> (r: Option<&[u8]>)
        requires
            self.wf(),
        ensures
            r is Some <==> self.lives(id),
            r is Some ==> r->0@ == self.contents()[id].codes,
    {
        if !self.is_live(id) {
            return None;
        }
        proof {
            lemma_slot_fits(*self, id as int);
        }
        let size: usize = self.codes.len();
        let start: usize = id as usize * self.code_len;
        Some(
            vstd::slice::slice_subrange(self.codes.as_slice(), start, start + self.code_len),
        )
    }

    /// The hash of `id`, if it is stored.
    pub fn hash(&self, id: u64) -> (r: Option<u64>)
        requires
            self.wf(),
        ensures
            r == (if self.lives(id) {
                Some(self.contents()[id].hash)
            } else {
                None
            }),
    {
        if self.is_live(id) {
            Some(self.hash[id as usize])
        } else {
            None
        }
    }

    /// The metadata of `id`, if it is stored.
    pub fn metadata(&self, id: u64) -> (r: Option<&str>)
        requires
            self.wf(),
        ensures
            r is Some <==> self.lives(id),
            r is Some ==> r->0@ == self.contents()[id].text,
    {
        if !self.is_live(id) {
            return None;
        }
        let (offset, size) = self.meta_span[id as usize];
        assert(self.has_text(id as int));
        let total: usize = self.meta_bytes.len();
        let bytes: &[u8] = vstd::slice::slice_subrange(
            self.meta_bytes.as_slice(),
            offset as usize,
            offset as usize + size as usize,
        );
        assert(bytes@ == self.meta_at(id as int));
        match text::from_utf8(bytes) {
            Ok(text) => Some(text),
            Err(_) => None,
        }
    }

    /// Removes `id` and gives back its hash; nothing changes if it is not
    /// stored.
    pub fn remove(&mut self, id: u64) -> (r: Option<u64>)
        requires
            old(self).wf(),
        ensures
            final(self).drops(*old(self), id),
            r == (if old(self).lives(id) {
                Some(old(self).contents()[id].hash)
            } else {
                None
            }),
            forall|x: u64| #[trigger] final(self).lives(x) <==> x != id && old(self).lives(x),
            !old(self).lives(id) ==> *final(self) == *old(self),
    {
        if !self.is_live(id) {
            assert(self.contents().remove(id) =~= self.contents());
            return None;
        }
        let at: usize = id as usize;
        let ghost a = *self;
        proof {
            lemma_count_set(a.live@.update(at as int, false), at as int, a.live@.len() as int);
            assert(a.live@.update(at as int, false).update(at as int, true) =~= a.live@);
            lemma_live_count(a.live@.update(at as int, false), a.live@.len() as int);
        }
        self.live.set(at, false);
        self.len = self.len - 1;
        proof {
            let b = *self;
            assert forall|i: int| 0 <= i < b.live@.len() && b.live@[i] implies #[trigger] b.has_text(
                i,
            ) by {
                assert(a.live@[i]);
                assert(a.has_text(i));
                assert(b.meta_at(i) =~= a.meta_at(i));
            }
            assert forall|x: u64| b.lives(x) implies #[trigger] b.contents()[x] == a.contents()[x] by {
                assert(a.lives(x));
                assert(b.codes_at(x as int) =~= a.codes_at(x as int));
                assert(b.meta_at(x as int) =~= a.meta_at(x as int));
                assert(b.record(x) == a.record(x));
            }
            assert(b.contents() =~= a.contents().remove(id));
        }
        Some(self.hash[at])
    }

    /// The number of records.
    pub fn len(&self) -> (r: usize)
        ensures
            r == self.len,
    {
        self.len
    }

    /// Whether there are no records.
    pub fn is_empty(&self) -> (r: bool)
        ensures
            r == (self.len == 0),
    {
        self.len == 0
    }

    /// The ids of the records, in order.
    pub fn ids(&self) -> (r: Vec<u64>)
        ensures
            r@ == self.id_list(),
    {
        let mut r: Vec<u64> = Vec::new();
        let mut i: usize = 0;
        while i < self.live.len()
            invariant
                i <= self.live@.len(),
                r@ == live_ids(self.live@, i as int),
            decreases self.live@.len() - i,
        {
            if self.live[i] {
                r.push(i as u64);
            }
            i += 1;
        }
        r
    }

    /// The number of `terms` that are words of the record `id`.
    pub open spec fn matches_in(&self, terms: Seq<Seq<char>>, id: u64) -> int {
        text::overlap(
            terms,
            text::lowered(text::words_of(self.record(id).text)),
            terms.len() as int,
        )
    }

    /// Those of the first `n` records that match any of `terms`, each under
    /// a key that is lower the more terms match.
    pub open spec fn matching(&self, terms: Seq<Seq<char>>, n: int) -> Seq<(u64, u64)>
        decreases n,
    {
        if n <= 0 {
            Seq::empty()
        } else {
            let id = self.id_list()[n - 1];
            let m = self.matches_in(terms, id);
            if m > 0 {
                self.matching(terms, n - 1).push(((u64::MAX - m) as u64, id))
            } else {
                self.matching(terms, n - 1)
            }
        }
    }

    /// The records that match any of `terms`, those that match more first,
    /// and of those that match as many the lower ids first.
    pub open spec fn lexical_order(&self, terms: Seq<Seq<char>>) -> Seq<(u64, u64)> {
        sorting::ranked(self.matching(terms, self.id_list().len() as int))
    }

    /// The records that have at least one of `query_terms`, in lower case
    /// and all different, among their words, with how many they have: those
    /// that have more first, and of those that have as many the lower ids
    /// first.
    pub fn lexical_rank(&self, query_terms: &Vec<String>) -> (r: Vec<(u64, usize)>)
        requires
            self.wf(),
        ensures
            r@.len() == self.lexical_order(text::texts(query_terms@)).len(),
            forall|i: int|
                0 <= i < r@.len() ==> (#[trigger] r@[i]).0 == self.lexical_order(
                    text::texts(query_terms@),
                )[i].1 && r@[i].1 == u64::MAX - self.lexical_order(text::texts(query_terms@))[i].0
                    && self.lives(r@[i].0),
    {
        let ghost terms = text::texts(query_terms@);
        let capacity: usize = self.capacity();
        let limit: usize = query_terms.len();
        let ids: Vec<u64> = self.ids();
        proof {
            lemma_live_ids(self.live@, self.live@.len() as int);
        }
        let mut scored: Vec<(u64, u64)> = Vec::new();
        let mut i: usize = 0;
        while i < ids.len()
            invariant
                i <= ids@.len(),
                self.wf(),
                ids@ == self.id_list(),
                forall|j: int| 0 <= j < ids@.len() ==> self.lives(#[trigger] ids@[j]),
                terms == text::texts(query_terms@),
                scored@ == self.matching(terms, i as int),
                forall|j: int|
                    0 <= j < scored@.len() ==> self.lives((#[trigger] scored@[j]).1) && u64::MAX
                        - scored@[j].0 <= query_terms@.len(),
            decreases ids@.len() - i,
        {
            let id: u64 = ids[i];
            assert(self.lives(id));
            let metadata: &str = self.metadata(id).unwrap();
            let words: Vec<String> = text::lowercase_words(metadata);
            let m: usize = text::count_overlap(query_terms, &words);
            if m > 0 {
                scored.push((u64::MAX - m as u64, id));
            }
            i += 1;
        }
        let ranked: Vec<(u64, u64)> = sorting::rank_pairs(scored);
        proof {
            sorting::lemma_ranked(scored@);
        }
        let mut r: Vec<(u64, usize)> = Vec::new();
        let mut j: usize = 0;
        while j < ranked.len()
            invariant
                j <= ranked@.len(),
                ranked@ == self.lexical_order(terms),
                ranked@ == sorting::ranked(scored@),
                forall|k: int|
                    0 <= k < scored@.len() ==> self.lives((#[trigger] scored@[k]).1) && u64::MAX
                        - scored@[k].0 <= query_terms@.len(),
                limit == query_terms@.len(),
                r@.len() == j,
                forall|k: int|
                    0 <= k < j ==> (#[trigger] r@[k]).0 == ranked@[k].1 && r@[k].1 == u64::MAX
                        - ranked@[k].0 && self.lives(r@[k].0),
            decreases ranked@.len() - j,
        {
            proof {
                sorting::lemma_ranked(scored@);
                assert(ranked@.contains(ranked@[j as int]));
                assert(scored@.contains(ranked@[j as int]));
                let k = choose|k: int| 0 <= k < scored@.len() && scored@[k] == ranked@[j as int];
                assert(self.lives(scored@[k].1));
            }
            r.push((ranked[j].1, (u64::MAX - ranked[j].0) as usize));
            j += 1;
        }
        r
    }

    /// Checks an arena that did not come from insertions. It is sound exactly
    /// if there is nothing wrong with it; otherwise the error says what.
    pub fn validate(&self) -> (r: Result<(), String>)
        ensures
            r is Ok <==> self.wf(),
            r is Ok <==> self.fault() is None,
            r is Err ==> self.complaint() is Some && r->Err_0@ == self.complaint()->0,
    {
        let capacity: usize = self.live.len();
        let ghost cap = capacity as int;
        proof {
            let c = capacity as int;
            let l = self.code_len as int;
            assert(0 <= c * l <= u64::MAX * u64::MAX) by (nonlinear_arith)
                requires
                    0 <= c <= u64::MAX,
                    0 <= l <= u64::MAX,
            ;
            lemma_fault(*self);
        }
        if self.codes.len() as u128 != capacity as u128 * self.code_len as u128 {
            return Err(
                describe(
                    ArenaFault::CodesLength {
                        codes: self.codes.len(),
                        capacity,
                        code_len: self.code_len,
                    },
                    "",
                ),
            );
        }
        if self.hash.len() != capacity || self.meta_span.len() != capacity {
            return Err(
                describe(
                    ArenaFault::TableLength {
                        hash: self.hash.len(),
                        meta_span: self.meta_span.len(),
                        capacity,
                    },
                    "",
                ),
            );
        }
        let mut live: usize = 0;
        let mut i: usize = 0;
        while i < capacity
            invariant
                i <= capacity,
                capacity == self.live@.len(),
                live <= i,
                live == live_count(self.live@, i as int),
            decreases capacity - i,
        {
            if self.live[i] {
                live += 1;
            }
            i += 1;
        }
        if live != self.len {
            return Err(describe(ArenaFault::LiveCount { len: self.len, live }, ""));
        }
        let mut id: usize = 0;
        while id < capacity
            invariant
                id <= capacity,
                capacity == self.live@.len(),
                self.codes@.len() == capacity * self.code_len,
                self.hash@.len() == capacity,
                self.meta_span@.len() == capacity,
                self.len == live_count(self.live@, capacity as int),
                self.first_fault(id as int) is None,
                self.wf() <==> self.fault() is None,
            decreases capacity - id,
        {
            if self.live[id] {
                let (offset, size) = self.meta_span[id];
                let end: u64 = offset as u64 + size as u64;
                let total: usize = self.meta_bytes.len();
                if end > total as u64 {
                    proof {
                        lemma_first_fault(*self, id + 1, capacity as int);
                    }
                    return Err(
                        describe(
                            ArenaFault::SpanOutOfBounds {
                                id,
                                offset: offset as u64,
                                end,
                                meta_len: total,
                            },
                            "",
                        ),
                    );
                }
                let bytes: &[u8] = vstd::slice::slice_subrange(
                    self.meta_bytes.as_slice(),
                    offset as usize,
                    end as usize,
                );
                assert(bytes@ == self.meta_at(id as int));
                if let Err(detail) = text::from_utf8(bytes) {
                    proof {
                        lemma_first_fault(*self, id + 1, capacity as int);
                    }
                    return Err(describe(ArenaFault::NotUtf8 { id }, detail.as_str()));
                }
            }
            id += 1;
        }
        Ok(())
    }
}

proof fn lemma_first_fault(a: RecordArena, i: int, n: int)
    requires
        i <= n,
        a.first_fault(i) is Some,
    ensures
        a.first_fault(n) == a.first_fault(i),
    decreases n - i,
{
    if i < n {
        lemma_first_fault(a, i, n - 1);
    }
}

proof fn lemma_no_fault(a: RecordArena, n: int, i: int)
    requires
        a.first_fault(n) is None,
        0 <= i < n,
        a.live@[i],
    ensures
        a.fault_at(i) is None,
    decreases n,
{
    if i < n - 1 {
        lemma_no_fault(a, n - 1, i);
    }
}

proof fn lemma_all_text(a: RecordArena, n: int)
    requires
        0 <= n <= a.live@.len(),
        forall|i: int| 0 <= i < a.live@.len() && a.live@[i] ==> #[trigger] a.has_text(i),
    ensures
        a.first_fault(n) is None,
    decreases n,
{
    if n > 0 {
        lemma_all_text(a, n - 1);
        if a.live@[n - 1] {
            assert(a.has_text(n - 1));
        }
    }
}

/// An arena is sound exactly if there is nothing wrong with it.
pub proof fn lemma_fault(a: RecordArena)
    ensures
        a.wf() <==> a.fault() is None,
{
    let n = a.live@.len() as int;
    if a.wf() {
        lemma_all_text(a, n);
    }
    if a.fault() is None {
        assert forall|i: int| 0 <= i < a.live@.len() && a.live@[i] implies #[trigger] a.has_text(
            i,
        ) by {
            lemma_no_fault(a, n, i);
        }
    }
}

pub(crate) proof fn lemma_slot_fits(a: RecordArena, i: int)
    requires
        a.codes@.len() == a.live@.len() * a.code_len,
        0 <= i < a.live@.len(),
    ensures
        0 <= i * a.code_len,
        i * a.code_len + a.code_len <= a.codes@.len(),
{
    let l = a.code_len as int;
    let n = a.live@.len() as int;
    assert((i + 1) * l <= n * l) by (nonlinear_arith)
        requires
            i + 1 <= n,
            0 <= l,
    ;
    assert((i + 1) * l == i * l + l) by (nonlinear_arith);
    assert(0 <= i * l) by (nonlinear_arith)
        requires
            0 <= i,
            0 <= l,
    ;
}

proof fn lemma_slots_apart(l: int, i: int, j: int)
    requires
        i != j,
        0 <= i,
        0 <= j,
        0 <= l,
    ensures
        i * l + l <= j * l || j * l + l <= i * l,
{
    if i < j {
        assert(i * l + l <= j * l) by (nonlinear_arith)
            requires
                i + 1 <= j,
                0 <= l,
        ;
    } else {
        assert(j * l + l <= i * l) by (nonlinear_arith)
            requires
                j + 1 <= i,
                0 <= l,
        ;
    }
}

proof fn lemma_live_count(live: Seq<bool>, n: int)
    requires
        0 <= n,
    ensures
        0 <= live_count(live, n) <= n,
    decreases n,
{
    if n > 0 {
        lemma_live_count(live, n - 1);
    }
}

proof fn lemma_live_same(a: Seq<bool>, b: Seq<bool>, n: int)
    requires
        forall|i: int| 0 <= i < n ==> a[i] == b[i],
    ensures
        live_count(a, n) == live_count(b, n),
        live_ids(a, n) == live_ids(b, n),
    decreases n,
{
    if n > 0 {
        lemma_live_same(a, b, n - 1);
    }
}

proof fn lemma_live_extends(a: Seq<bool>, b: Seq<bool>, n: int)
    requires
        a.len() <= n <= b.len(),
        forall|i: int| 0 <= i < a.len() ==> a[i] == #[trigger] b[i],
        forall|i: int| a.len() <= i < n ==> !#[trigger] b[i],
    ensures
        live_count(b, n) == live_count(a, a.len() as int),
        live_ids(b, n) == live_ids(a, a.len() as int),
    decreases n - a.len(),
{
    if n > a.len() {
        lemma_live_extends(a, b, n - 1);
    } else {
        lemma_live_same(a, b, n);
    }
}

proof fn lemma_count_set(live: Seq<bool>, i: int, n: int)
    requires
        0 <= i < n <= live.len(),
        !live[i],
    ensures
        live_count(live.update(i, true), n) == live_count(live, n) + 1,
        live_count(live, n) < n,
    decreases n,
{
    if i == n - 1 {
        lemma_live_same(live, live.update(i, true), n - 1);
        lemma_live_count(live, n - 1);
    } else {
        lemma_count_set(live, i, n - 1);
    }
}

/// `after` comes of `before` by storing or removing one record.
pub open spec fn changes(before: RecordArena, after: RecordArena) -> bool {
    ||| exists|id: u64, hash: u64, codes: Seq<u8>, text: Seq<char>| #[trigger]
        after.puts(before, id, hash, codes, text)
    ||| exists|id: u64| #[trigger] after.drops(before, id)
}

/// Nothing is wrong with an arena that comes of a fresh one by storing and
/// removing. `history` lists its states from one change to the next.
pub proof fn changes_do_no_harm(history: Seq<RecordArena>)
    requires
        history.len() > 0,
        history[0].fresh(),
        forall|k: int|
            0 <= k < history.len() - 1 ==> changes(#[trigger] history[k], history[k + 1]),
    ensures
        history.last().wf(),
        history.last().fault() is None,
{
    let n = history.len();
    if n == 1 {
        let a = history[0];
        assert(0 * a.code_len == 0);
    } else {
        assert(changes(history[n - 2], history[n - 2 + 1]));
    }
    lemma_fault(history.last());
}

/// With nothing wrong, whatever is stored can be read: codes, hash and
/// metadata stand within their arrays, and the metadata is text.
pub proof fn valid_arenas_can_be_read(a: RecordArena, id: u64)
    requires
        a.fault() is None,
    ensures
        a.wf(),
        a.lives(id) ==> {
            &&& 0 <= id * a.code_len
            &&& id * a.code_len + a.code_len <= a.codes@.len()
            &&& id < a.hash@.len()
            &&& id < a.meta_span@.len()
            &&& a.meta_end(id as int) <= a.meta_bytes@.len()
            &&& valid_utf8(a.meta_at(id as int))
        },
{
    lemma_fault(a);
    if a.lives(id) {
        assert(a.has_text(id as int));
        lemma_slot_fits(a, id as int);
    }
}

/// The list of live slots: in order, each live slot once.
pub proof fn lemma_live_ids(live: Seq<bool>, n: int)
    requires
        0 <= n <= live.len(),
        n <= u64::MAX,
    ensures
        sorting::rising(live_ids(live, n)),
        live_ids(live, n).len() == live_count(live, n),
        forall|j: int|
            0 <= j < live_ids(live, n).len() ==> (#[trigger] live_ids(live, n)[j]) < n
                && live[live_ids(live, n)[j] as int],
        forall|i: int| 0 <= i < n && live[i] ==> live_ids(live, n).contains(#[trigger] (i as u64)),
    decreases n,
{
    if n > 0 {
        lemma_live_ids(live, n - 1);
        let before = live_ids(live, n - 1);
        let all = live_ids(live, n);
        if live[n - 1] {
            assert forall|i: int| 0 <= i < n && live[i] implies all.contains(
                #[trigger] (i as u64),
            ) by {
                if i < n - 1 {
                    assert(before.contains(i as u64));
                    let k = choose|k: int| 0 <= k < before.len() && before[k] == i as u64;
                    assert(all[k] == i as u64);
                } else {
                    assert(all[before.len() as int] == i as u64);
                }
            }
        }
    }
}

} // verus!
