use vstd::prelude::*;
use vstd::std_specs::iter::IteratorSpec;

verus! {

/// The cache length after a read of `index` that yields a value, from a cache of `len` items.
pub open spec fn cache_len_after_read(len: nat, index: nat) -> nat {
    if index < len {
        len
    } else {
        index + 1
    }
}

/// What one read of `index` does to a cache that held `before` and a poll count `polls_before`:
/// the cache only grows, every poll that yields an item fills the next slot, and the read
/// hands out a clone of the item at `index`, or nothing where the source ended first.
pub open spec fn read_step<A: Clone>(
    before: Seq<A>,
    polls_before: nat,
    after: Seq<A>,
    polls_after: nat,
    index: nat,
    r: Option<A>,
) -> bool {
    &&& before.is_prefix_of(after)
    &&& match r {
        Some(v) => {
            &&& after.len() == cache_len_after_read(before.len(), index)
            &&& polls_after == polls_before + (after.len() - before.len())
            &&& vstd::pervasive::strictly_cloned(after[index as int], v)
        },
        None => {
            &&& before.len() <= after.len() <= index
            &&& polls_after == polls_before + (after.len() - before.len()) + 1
        },
    }
}

/// What one read of `index` does, for a source whose remaining items are known: the items
/// move from the source to the cache in order, and the read comes back empty exactly when the
/// cache and the source together hold no item at `index`.
pub open spec fn source_step<A>(
    cache_before: Seq<A>,
    rest_before: Seq<A>,
    cache_after: Seq<A>,
    rest_after: Seq<A>,
    index: nat,
    r: Option<A>,
) -> bool {
    &&& cache_after + rest_after == cache_before + rest_before
    &&& (r is None <==> cache_before.len() + rest_before.len() <= index)
    &&& (r is None ==> cache_after == cache_before + rest_before)
}

/// A read at or past the end of a finite source of `items` returns nothing, keeps every slot
/// the cache held, and leaves the cache holding all of `items`.
pub proof fn law_end_of_sequence<A: Clone>(
    items: Seq<A>,
    c0: Seq<A>,
    rest0: Seq<A>,
    polls0: nat,
    c1: Seq<A>,
    rest1: Seq<A>,
    polls1: nat,
    index: nat,
    r: Option<A>,
)
    requires
        read_step(c0, polls0, c1, polls1, index, r),
        source_step(c0, rest0, c1, rest1, index, r),
        c0 + rest0 == items,
        index >= items.len(),
    ensures
        r is None,
        c1 == items,
        c0.is_prefix_of(c1),
{
}

/// The largest of a non-empty run of indices.
pub open spec fn highest(qs: Seq<nat>) -> nat
    decreases qs.len(),
{
    if qs.len() <= 1 {
        if qs.len() == 1 { qs[0] } else { 0 }
    } else {
        let h = highest(qs.drop_last());
        if qs.last() > h { qs.last() } else { h }
    }
}

/// Reads of the indices `qs`, in that order and from any cursors, on a fresh memoized
/// sequence, each answered with a value: the source is polled exactly once for each index up to
/// the highest one requested, and never more. `caches[k]` and `polls[k]` are the sequence's
/// state before the `k`-th read and `rs[k]` what that read returned.
pub proof fn law_polls_follow_highest_index<A: Clone>(
    caches: Seq<Seq<A>>,
    polls: Seq<nat>,
    qs: Seq<nat>,
    rs: Seq<Option<A>>,
)
    requires
        qs.len() > 0,
        caches.len() == qs.len() + 1,
        polls.len() == qs.len() + 1,
        rs.len() == qs.len(),
        caches[0].len() == 0,
        polls[0] == 0,
        forall|k: int|
            0 <= k < qs.len() ==> #[trigger] read_step(
                caches[k],
                polls[k],
                caches[k + 1],
                polls[k + 1],
                qs[k],
                rs[k],
            ) && rs[k] is Some,
    ensures
        polls.last() == highest(qs) + 1,
        caches.last().len() == highest(qs) + 1,
    decreases qs.len(),
{
    let n = qs.len();
    let k = n - 1;
    assert(read_step(caches[k], polls[k], caches[k + 1], polls[k + 1], qs[k], rs[k]));
    if n > 1 {
        law_polls_follow_highest_index(caches.drop_last(), polls.drop_last(), qs.drop_last(), rs.drop_last());
        assert forall|j: int| 0 <= j < qs.drop_last().len() implies #[trigger] read_step(
            caches.drop_last()[j],
            polls.drop_last()[j],
            caches.drop_last()[j + 1],
            polls.drop_last()[j + 1],
            qs.drop_last()[j],
            rs.drop_last()[j],
        ) && rs.drop_last()[j] is Some by {
            assert(read_step(caches[j], polls[j], caches[j + 1], polls[j + 1], qs[j], rs[j]));
        }
    }
}

/// Reading one index twice, through the same cursor position or a fresh cursor on the same
/// sequence, hands out clones of one cached item, and the second read leaves the cache and the
/// source alone.
pub proof fn law_read_idempotent<A: Clone>(
    c0: Seq<A>,
    polls0: nat,
    c1: Seq<A>,
    polls1: nat,
    c2: Seq<A>,
    polls2: nat,
    index: nat,
    r1: Option<A>,
    r2: Option<A>,
)
    requires
        read_step(c0, polls0, c1, polls1, index, r1),
        read_step(c1, polls1, c2, polls2, index, r2),
        r1 is Some,
    ensures
        r2 is Some,
        c2 == c1,
        polls2 == polls1,
        vstd::pervasive::strictly_cloned(c1[index as int], r1->0),
        vstd::pervasive::strictly_cloned(c1[index as int], r2->0),
{
    assert(c1.len() > index);
    assert(c2 =~= c1);
}

/// Wraps a source into a memoized sequence.
pub trait IteratorExtensions: Iterator + Sized {
    fn memoized(self) -> (r: MemoizedSequence<Self>)
        ensures
            r.source() == self,
            r.cache().len() == 0,
            r.polls() == 0,
    ;
}

impl<T> IteratorExtensions for T where T::Item: Clone, T: Iterator {
    fn memoized(self) -> (r: MemoizedSequence<T>) {
        MemoizedSequence { cache: Vec::new(), source: self, polls: Ghost(0) }
    }
}

/// A source that knows what its items are: the `j`-th item it hands out meets `is_term(j, _)`.
pub trait Terms: Iterator {
    /// How many items have been handed out.
    spec fn handed_out(&self) -> nat;

    /// Whether `v` can be the item at index `j`.
    spec fn is_term(j: nat, v: Self::Item) -> bool;

    /// Whether the source never signals its end.
    spec fn endless() -> bool;

    /// Hands out the next item, or signals the end.
    fn next_term(&mut self) -> (r: Option<Self::Item>)
        ensures
            r matches Some(v) ==> Self::is_term(old(self).handed_out(), v) && final(self).handed_out()
                == old(self).handed_out() + 1,
            r is None ==> !Self::endless() && final(self).handed_out() == old(self).handed_out(),
    ;
}

/// A source together with every item it has produced so far, in order.
pub struct MemoizedSequence<T: Iterator> {
    cache: Vec<T::Item>,
    source: T,
    polls: Ghost<nat>,
}

impl<T: Iterator> MemoizedSequence<T> {
    /// The items produced so far: slot `i` holds the `i`-th item of the source.
    pub closed spec fn cache(&self) -> Seq<T::Item> {
        self.cache@
    }

    /// The wrapped source.
    pub closed spec fn source(&self) -> T {
        self.source
    }

    /// How many times the source has been asked for an item.
    pub closed spec fn polls(&self) -> nat {
        self.polls@
    }

    /// How many items the cache holds.
    pub fn cached_len(&self) -> (n: usize)
        ensures
            n == self.cache().len(),
    {
        self.cache.len()
    }

    /// A cursor at index 0 over this sequence.
    pub fn into_iter(&self) -> (r: MemoizedIteraror)
        ensures
            r.index() == 0,
    {
        MemoizedIteraror { index: 0usize }
    }
}

impl<T: Terms> MemoizedSequence<T> {
    /// Slot `j` of the cache holds the source's item `j`, and the source has handed out
    /// exactly the cached items.
    pub open spec fn tracks_terms(&self) -> bool {
        &&& self.source().handed_out() == self.cache().len()
        &&& forall|j: int| 0 <= j < self.cache().len() ==> T::is_term(j as nat, #[trigger] self.cache()[j])
    }
}

/// Files one polled outcome: an item goes to the end of the cache, the end signal leaves
/// the cache alone. Returns whether an item came.
fn store_polled<A>(cache: &mut Vec<A>, polled: Option<A>) -> (more: bool)
    ensures
        more == polled is Some,
        polled matches Some(v) ==> final(cache)@ == old(cache)@.push(v),
        polled is None ==> final(cache)@ == old(cache)@,
{
    match polled {
        Some(v) => {
            cache.push(v);
            true
        },
        None => false,
    }
}

/// A read position over a memoized sequence.
pub struct MemoizedIteraror {
    index: usize,
}

impl MemoizedIteraror {
    pub closed spec fn index(&self) -> nat {
        self.index as nat
    }

    /// Reads the item at this cursor's index and advances the cursor: from the cache where it
    /// is there, else by polling the source once for each missing slot.
    pub fn next<T: Iterator>(&mut self, seq: &mut MemoizedSequence<T>) -> (r: Option<T::Item>)
        where T::Item: Clone,
        requires
            old(self).index() < usize::MAX,
        ensures
            read_step(
                old(seq).cache(),
                old(seq).polls(),
                final(seq).cache(),
                final(seq).polls(),
                old(self).index(),
                r,
            ),
            old(self).index() < old(seq).cache().len() ==> final(seq).cache() == old(seq).cache()
                && final(seq).polls() == old(seq).polls(),
            old(seq).source().obeys_prophetic_iter_laws() ==> source_step(
                old(seq).cache(),
                old(seq).source().remaining(),
                final(seq).cache(),
                final(seq).source().remaining(),
                old(self).index(),
                r,
            ),
            final(self).index() == if r is Some { old(self).index() + 1 } else { old(self).index() },
    {
        let ghost before = seq.cache@;
        while seq.cache.len() <= self.index
            invariant
                self.index == old(self).index,
                before == old(seq).cache@,
                before.is_prefix_of(seq.cache@),
                before.len() <= self.index ==> seq.cache@.len() <= self.index + 1,
                before.len() > self.index ==> seq.cache@ == before && seq.polls@ == old(seq).polls@,
                seq.polls@ == old(seq).polls@ + (seq.cache@.len() - before.len()),
                seq.source.obeys_prophetic_iter_laws() == old(seq).source.obeys_prophetic_iter_laws(),
                seq.source.obeys_prophetic_iter_laws() ==> seq.cache@ + seq.source.remaining() == before
                    + old(seq).source.remaining(),
            decreases self.index + 1 - seq.cache.len(),
        {
            let ghost rem0 = seq.source.remaining();
            let ghost cache0 = seq.cache@;
            let c = seq.source.next();
            proof {
                seq.polls@ = seq.polls@ + 1;
            }
            let more = store_polled(&mut seq.cache, c);
            if !more {
                proof {
                    if seq.source.obeys_prophetic_iter_laws() {
                        assert(rem0.len() == 0);
                        assert(seq.cache@ =~= cache0 + rem0);
                    }
                }
                return None;
            }
            proof {
                if seq.source.obeys_prophetic_iter_laws() {
                    assert(seq.cache@ + seq.source.remaining() =~= cache0 + rem0);
                }
            }
        }
        let r = seq.cache[self.index].clone();
        self.index = self.index + 1;
        Some(r)
    }
    /// As `next`, for a source that knows its items: every slot stays tied to the item of
    /// that index, and a source that never ends always yields a value.
    pub fn next_term<T: Terms>(&mut self, seq: &mut MemoizedSequence<T>) -> (r: Option<T::Item>)
        where T::Item: Clone,
        requires
            old(self).index() < usize::MAX,
            old(seq).tracks_terms(),
        ensures
            final(seq).tracks_terms(),
            read_step(
                old(seq).cache(),
                old(seq).polls(),
                final(seq).cache(),
                final(seq).polls(),
                old(self).index(),
                r,
            ),
            T::endless() ==> r is Some,
            final(self).index() == if r is Some { old(self).index() + 1 } else { old(self).index() },
    {
        let ghost before = seq.cache@;
        while seq.cache.len() <= self.index
            invariant
                self.index == old(self).index,
                before == old(seq).cache@,
                before.is_prefix_of(seq.cache@),
                before.len() <= self.index ==> seq.cache@.len() <= self.index + 1,
                before.len() > self.index ==> seq.cache@ == before && seq.polls@ == old(seq).polls@,
                seq.polls@ == old(seq).polls@ + (seq.cache@.len() - before.len()),
                seq.tracks_terms(),
            decreases self.index + 1 - seq.cache.len(),
        {
            let c = seq.source.next_term();
            proof {
                seq.polls@ = seq.polls@ + 1;
            }
            let more = store_polled(&mut seq.cache, c);
            if !more {
                return None;
            }
        }
        let r = seq.cache[self.index].clone();
        self.index = self.index + 1;
        Some(r)
    }
}

} // verus!
