//! A fixed-capacity, order-preserving store of header name/value spans.
//!
//! Headers are kept as index pairs into an arena buffer owned by the
//! caller (the request buffer on the way out, the response head buffer on
//! the way in); the store itself never copies name or value bytes.

use vstd::prelude::*;
use crate::text::ci_eq;
use crate::Error;

verus! {

/// One header, as spans into an arena of bytes: `name` is
/// `arena[name_start..name_end]` and `value` is
/// `arena[value_start..value_end]`.
#[derive(Clone, Copy, Debug, PartialEq, Eq, Structural)]
pub struct HeaderSpan {
    pub name_start: usize,
    pub name_end: usize,
    pub value_start: usize,
    pub value_end: usize,
}

impl HeaderSpan {
    /// The spans lie in order inside an arena of `bound` bytes.
    pub open spec fn wf(self, bound: int) -> bool {
        self.name_start <= self.name_end <= bound && self.value_start <= self.value_end <= bound
    }

    /// The header name as the bytes the span denotes.
    pub open spec fn name_of(self, arena: Seq<u8>) -> Seq<u8> {
        arena.subrange(self.name_start as int, self.name_end as int)
    }

    /// The header value as the bytes the span denotes.
    pub open spec fn value_of(self, arena: Seq<u8>) -> Seq<u8> {
        arena.subrange(self.value_start as int, self.value_end as int)
    }
}

/// The value of the first header, in insertion order, whose name equals
/// `name` under ASCII case folding (first header wins).
pub open spec fn first_value(headers: Seq<(Seq<u8>, Seq<u8>)>, name: Seq<u8>) -> Option<Seq<u8>>
    decreases headers.len(),
{
    if headers.len() == 0 {
        None
    } else if ci_eq(headers[0].0, name) {
        Some(headers[0].1)
    } else {
        first_value(headers.drop_first(), name)
    }
}

/// Dropping a prefix with no matching name leaves the first match as it was.
pub proof fn lemma_first_value_skip(headers: Seq<(Seq<u8>, Seq<u8>)>, name: Seq<u8>, i: int)
    requires
        0 <= i <= headers.len(),
        forall|j: int| 0 <= j < i ==> !ci_eq(headers[j].0, name),
    ensures
        first_value(headers, name) == first_value(headers.skip(i), name),
    decreases i,
{
    if i > 0 {
        assert(headers.skip(1) =~= headers.drop_first());
        assert(headers.drop_first().skip(i - 1) =~= headers.skip(i));
        assert(forall|j: int|
            0 <= j < i - 1 ==> headers.drop_first()[j] == headers[j + 1]);
        lemma_first_value_skip(headers.drop_first(), name, i - 1);
    } else {
        assert(headers.skip(0) =~= headers);
    }
}

/// A fixed-capacity, order-preserving collection of header spans.
/// `insert` fails once the capacity is exhausted; nothing inserted earlier
/// is lost or changed by a failing insert.
pub struct HeaderStore {
    entries: Vec<HeaderSpan>,
    cap: usize,
}

impl View for HeaderStore {
    type V = Seq<HeaderSpan>;

    closed spec fn view(&self) -> Seq<HeaderSpan> {
        self.entries@
    }
}

impl HeaderStore {
    /// The fixed number of headers this store can hold.
    pub closed spec fn capacity(self) -> nat {
        self.cap as nat
    }

    /// The store never holds more entries than its capacity.
    pub open spec fn wf(self) -> bool {
        self@.len() <= self.capacity()
    }

    /// Every stored span lies inside an arena of `bound` bytes.
    pub open spec fn spans_wf(self, bound: int) -> bool {
        forall|i: int| 0 <= i < self@.len() ==> (#[trigger] self@[i]).wf(bound)
    }

    /// The headers as (name, value) byte sequences read from `arena`,
    /// in insertion order.
    pub open spec fn pairs(self, arena: Seq<u8>) -> Seq<(Seq<u8>, Seq<u8>)> {
        self@.map(|i: int, h: HeaderSpan| (h.name_of(arena), h.value_of(arena)))
    }

    /// Creates an empty store that can hold at most `cap` headers.
    pub fn new(cap: usize) -> (r: HeaderStore)
        ensures
            r@ == Seq::<HeaderSpan>::empty(),
            r.capacity() == cap,
            r.wf(),
    {
        let r = HeaderStore { entries: Vec::new(), cap };
        proof {
            assert(r@ =~= Seq::<HeaderSpan>::empty());
        }
        r
    }

    /// Number of headers currently stored.
    pub fn len(&self) -> (r: usize)
        ensures
            r == self@.len(),
    {
        self.entries.len()
    }

    /// Returns the header at position `i` in insertion order.
    pub fn get(&self, i: usize) -> (r: HeaderSpan)
        requires
            i < self@.len(),
        ensures
            r == self@[i as int],
    {
        self.entries[i]
    }

    /// Appends a header.  Once the capacity is reached the insert fails
    /// with `BufferTooSmall` and the store is left exactly as it was.
    pub fn insert(&mut self, h: HeaderSpan) -> (r: Result<(), Error>)
        requires
            old(self).wf(),
        ensures
            final(self).wf(),
            final(self).capacity() == old(self).capacity(),
            match r {
                Ok(()) => old(self)@.len() < old(self).capacity() && final(self)@ == old(
                    self,
                )@.push(h),
                Err(e) => e == Error::BufferTooSmall && old(self)@.len() == old(self).capacity()
                    && final(self)@ == old(self)@,
            },
    {
        if self.entries.len() < self.cap {
            self.entries.push(h);
            Ok(())
        } else {
            Err(Error::BufferTooSmall)
        }
    }

    /// Case-insensitive lookup of the first header whose name equals
    /// `name`, returning its position; HTTP's first-header-wins policy.
    pub fn find(&self, arena: &[u8], name: &[u8]) -> (r: Option<usize>)
        requires
            self.spans_wf(arena@.len() as int),
        ensures
            match r {
                Some(i) => i < self@.len() && ci_eq(self@[i as int].name_of(arena@), name@)
                    && (forall|j: int|
                    0 <= j < i ==> !ci_eq((#[trigger] self@[j]).name_of(arena@), name@))
                    && first_value(self.pairs(arena@), name@) == Some(
                    self@[i as int].value_of(arena@),
                ),
                None => forall|j: int|
                    0 <= j < self@.len() ==> !ci_eq((#[trigger] self@[j]).name_of(arena@), name@),
            },
    {
        let ghost pairs = self.pairs(arena@);
        let mut i: usize = 0;
        while i < self.entries.len()
            invariant
                self.spans_wf(arena@.len() as int),
                pairs == self.pairs(arena@),
                0 <= i <= self@.len(),
                forall|j: int| 0 <= j < i ==> !ci_eq((#[trigger] self@[j]).name_of(arena@), name@),
            decreases self@.len() - i,
        {
            let h = self.entries[i];
            let hname = vstd::slice::slice_subrange(arena, h.name_start, h.name_end);
            if crate::text::eq_ignore_case(hname, name) {
                proof {
                    assert(pairs.len() == self@.len());
                    assert(forall|j: int|
                        0 <= j < pairs.len() ==> (#[trigger] pairs[j]) == (
                        self@[j].name_of(arena@),
                        self@[j].value_of(arena@),
                        ));
                    lemma_first_value_skip(pairs, name@, i as int);
                    assert(pairs.skip(i as int)[0] == pairs[i as int]);
                    assert(first_value(pairs.skip(i as int), name@) == Some(
                        self@[i as int].value_of(arena@),
                    ));
                }
                return Some(i);
            }
            i += 1;
        }
        None
    }
}

} // verus!
