use vstd::prelude::*;
use std::collections::HashSet;

use crate::error::ConversionError;
use crate::store::TextureStore;
use crate::texture::{after_conversion, conversion_outcome, is_stacked_skybox, TextureView};

verus! {

broadcast use vstd::std_specs::hash::group_hash_axioms;

/// Pending references hold no repeats, and none of them has been converted already.
pub open spec fn queue_wf(pending: Seq<u64>, converted: Set<u64>) -> bool {
    &&& pending.no_duplicates()
    &&& forall|i: int| 0 <= i < pending.len() ==> !converted.contains(#[trigger] pending[i])
}

/// The references still pending after a maintenance pass: those whose data was not resident,
/// in the order they were queued.
pub open spec fn pending_after_pass(pending: Seq<u64>, store: Map<u64, TextureView>) -> Seq<u64> {
    pending.filter(|h: u64| !store.contains_key(h))
}

/// The references known to be converted after a maintenance pass.
pub open spec fn converted_after_pass(
    pending: Seq<u64>,
    converted: Set<u64>,
    store: Map<u64, TextureView>,
) -> Set<u64> {
    converted.union(
        Set::new(
            |h: u64| pending.contains(h) && store.contains_key(h) && is_stacked_skybox(store[h]),
        ),
    )
}

/// The resident images after a maintenance pass: each pending one has gone through one
/// conversion request, the others are untouched.
pub open spec fn store_after_pass(pending: Seq<u64>, store: Map<u64, TextureView>) -> Map<
    u64,
    TextureView,
> {
    Map::new(
        |h: u64| store.contains_key(h),
        |h: u64|
            if pending.contains(h) {
                after_conversion(store[h])
            } else {
                store[h]
            },
    )
}

/// What a maintenance pass reports: each pending reference whose data was resident, in queue
/// order, with the outcome of its conversion.
pub open spec fn pass_report(pending: Seq<u64>, store: Map<u64, TextureView>) -> Seq<
    (u64, Result<(), ConversionError>),
> {
    pending.filter_map(
        |h: u64|
            if store.contains_key(h) {
                Some((h, conversion_outcome(store[h])))
            } else {
                None
            },
    )
}

proof fn lemma_filter_no_duplicates(s: Seq<u64>, p: spec_fn(u64) -> bool)
    requires
        s.no_duplicates(),
    ensures
        s.filter(p).no_duplicates(),
    decreases s.len(),
{
    broadcast use vstd::seq_lib::group_filter_ensures;

    if s.len() > 0 {
        let init = s.drop_last();
        let x = s.last();
        assert(init.push(x) =~= s);
        init.lemma_filter_push(x, p);
        lemma_filter_no_duplicates(init, p);
        if p(x) {
            let f = init.filter(p);
            if f.contains(x) {
                init.lemma_filter_contains_rev(p, x);
                let j = choose|j: int| 0 <= j < init.len() && init[j] == x;
                assert(s[j] == s[s.len() - 1]);
            }
            let g = f.push(x);
            assert forall|a: int, b: int| 0 <= a < b < g.len() implies g[a] != g[b] by {
                if b == g.len() - 1 {
                    assert(f.contains(g[a]));
                }
            }
        }
    }
}

/// A maintenance pass keeps the queue well formed.
pub proof fn lemma_pass_keeps_wf(
    pending: Seq<u64>,
    converted: Set<u64>,
    store: Map<u64, TextureView>,
)
    requires
        queue_wf(pending, converted),
    ensures
        queue_wf(
            pending_after_pass(pending, store),
            converted_after_pass(pending, converted, store),
        ),
{
    broadcast use vstd::seq_lib::group_filter_ensures;

    let p = |h: u64| !store.contains_key(h);
    lemma_filter_no_duplicates(pending, p);
    let rest = pending_after_pass(pending, store);
    assert forall|i: int| 0 <= i < rest.len() implies !converted_after_pass(
        pending,
        converted,
        store,
    ).contains(#[trigger] rest[i]) by {
        assert(rest.contains(rest[i]));
        pending.lemma_filter_contains_rev(p, rest[i]);
        assert(pending.contains(rest[i]));
        assert(!store.contains_key(rest[i]));
    }
}

proof fn lemma_pass_step(
    prefix: Seq<u64>,
    h: u64,
    converted: Set<u64>,
    store: Map<u64, TextureView>,
)
    ensures
        pending_after_pass(prefix.push(h), store) == if store.contains_key(h) {
            pending_after_pass(prefix, store)
        } else {
            pending_after_pass(prefix, store).push(h)
        },
        pass_report(prefix.push(h), store) == if store.contains_key(h) {
            pass_report(prefix, store).push((h, conversion_outcome(store[h])))
        } else {
            pass_report(prefix, store)
        },
        converted_after_pass(prefix.push(h), converted, store) == if store.contains_key(h)
            && is_stacked_skybox(store[h]) {
            converted_after_pass(prefix, converted, store).insert(h)
        } else {
            converted_after_pass(prefix, converted, store)
        },
        store_after_pass(prefix.push(h), store) == if store.contains_key(h) {
            store_after_pass(prefix, store).insert(h, after_conversion(store[h]))
        } else {
            store_after_pass(prefix, store)
        },
{
    let s = prefix.push(h);
    prefix.lemma_filter_push(h, |x: u64| !store.contains_key(x));
    assert(s.drop_last() =~= prefix);
    assert(s.last() == h);
    assert forall|x: u64| #[trigger] s.contains(x) <==> prefix.contains(x) || x == h by {
        if s.contains(x) && x != h {
            let j = choose|j: int| 0 <= j < s.len() && s[j] == x;
            assert(prefix[j] == x);
        }
        if prefix.contains(x) {
            let j = choose|j: int| 0 <= j < prefix.len() && prefix[j] == x;
            assert(s[j] == x);
        }
        if x == h {
            assert(s[prefix.len() as int] == x);
        }
    }
    if store.contains_key(h) {
        assert(pass_report(prefix, store) + seq![(h, conversion_outcome(store[h]))] =~= pass_report(
            prefix,
            store,
        ).push((h, conversion_outcome(store[h]))));
    }
    assert(converted_after_pass(s, converted, store) =~= if store.contains_key(h)
        && is_stacked_skybox(store[h]) {
        converted_after_pass(prefix, converted, store).insert(h)
    } else {
        converted_after_pass(prefix, converted, store)
    });
    assert(store_after_pass(s, store) =~= if store.contains_key(h) {
        store_after_pass(prefix, store).insert(h, after_conversion(store[h]))
    } else {
        store_after_pass(prefix, store)
    });
}

/// The queue of images waiting to be turned from a stacked image into a skybox array texture.
pub struct SkyboxTextureConversion {
    handles: Vec<u64>,
    converted: HashSet<u64>,
}

impl SkyboxTextureConversion {
    /// The references waiting for their data, in the order they were queued.
    pub closed spec fn pending(&self) -> Seq<u64> {
        self.handles@
    }

    /// The references whose image this queue has converted.
    pub closed spec fn converted(&self) -> Set<u64> {
        self.converted@
    }

    /// The queue holds each waiting reference once, and none that it has already converted.
    pub open spec fn wf(&self) -> bool {
        queue_wf(self.pending(), self.converted())
    }

    /// An empty queue.
    pub fn new() -> (r: SkyboxTextureConversion)
        ensures
            r.wf(),
            r.pending() == Seq::<u64>::empty(),
            r.converted() == Set::<u64>::empty(),
    {
        SkyboxTextureConversion { handles: Vec::new(), converted: HashSet::new() }
    }

    /// Asks for the image of `handle`, an image of `N` by `6 * N` pixels, to become a six-layer
    /// array texture as soon as its data is resident. A reference already waiting stays
    /// queued once; a reference whose image was already converted is refused.
    pub fn make_array(&mut self, handle: u64) -> (r: Result<(), ConversionError>)
        requires
            old(self).wf(),
        ensures
            final(self).wf(),
            final(self).converted() == old(self).converted(),
            old(self).converted().contains(handle) ==> r == Err::<(), ConversionError>(
                ConversionError::DuplicateConversion,
            ) && final(self).pending() == old(self).pending(),
            !old(self).converted().contains(handle) ==> r is Ok && final(self).pending() == if old(
                self,
            ).pending().contains(handle) {
                old(self).pending()
            } else {
                old(self).pending().push(handle)
            },
    {
        if self.converted.contains(&handle) {
            return Err(ConversionError::DuplicateConversion);
        }
        let mut i: usize = 0;
        while i < self.handles.len()
            invariant
                0 <= i <= self.handles@.len(),
                forall|j: int| 0 <= j < i ==> self.handles@[j] != handle,
                self.handles@ == old(self).handles@,
                self.converted@ == old(self).converted@,
                old(self).wf(),
                !old(self).converted().contains(handle),
            decreases self.handles@.len() - i,
        {
            if self.handles[i] == handle {
                assert(self.handles@.contains(handle));
                return Ok(());
            }
            i = i + 1;
        }
        self.handles.push(handle);
        proof {
            let s = self.handles@;
            assert(s.drop_last() == old(self).handles@);
            assert forall|a: int, b: int| 0 <= a < b < s.len() implies s[a] != s[b] by {
                if b < s.len() - 1 {
                    assert(old(self).handles@[a] != old(self).handles@[b]);
                }
            }
        }
        Ok(())
    }

    /// One maintenance pass. Walks the queue from the front; each reference whose data is
    /// resident in `store` leaves the queue and its image is converted in place, the others
    /// stay, in their order, until a later pass. Returns, in queue order, each reference that
    /// left the queue with the outcome of its conversion: an image whose layout is not six
    /// square faces stacked vertically is reported as malformed and left unchanged.
    pub fn convert_skyboxes(&mut self, store: &mut TextureStore) -> (report: Vec<
        (u64, Result<(), ConversionError>),
    >)
        requires
            old(self).wf(),
        ensures
            final(self).wf(),
            final(self).pending() == pending_after_pass(old(self).pending(), old(store)@),
            final(self).converted() == converted_after_pass(
                old(self).pending(),
                old(self).converted(),
                old(store)@,
            ),
            final(store)@ == store_after_pass(old(self).pending(), old(store)@),
            report@ == pass_report(old(self).pending(), old(store)@),
    {
        let ghost pending0 = self.handles@;
        let ghost converted0 = self.converted@;
        let ghost store0 = store@;
        let mut remaining: Vec<u64> = Vec::new();
        let mut report: Vec<(u64, Result<(), ConversionError>)> = Vec::new();
        let n = self.handles.len();
        let mut i: usize = 0;
        proof {
            assert(pending0.subrange(0, 0) =~= Seq::<u64>::empty());
            assert(store_after_pass(Seq::<u64>::empty(), store0) =~= store0);
            assert(converted_after_pass(Seq::<u64>::empty(), converted0, store0) =~= converted0);
        }
        while i < n
            invariant
                0 <= i <= n,
                n == pending0.len(),
                self.handles@ == pending0,
                queue_wf(pending0, converted0),
                remaining@ == pending_after_pass(pending0.subrange(0, i as int), store0),
                self.converted@ == converted_after_pass(
                    pending0.subrange(0, i as int),
                    converted0,
                    store0,
                ),
                store@ == store_after_pass(pending0.subrange(0, i as int), store0),
                report@ == pass_report(pending0.subrange(0, i as int), store0),
            decreases n - i,
        {
            let handle = self.handles[i];
            let ghost prefix = pending0.subrange(0, i as int);
            proof {
                assert(pending0.subrange(0, i + 1) =~= prefix.push(handle));
                lemma_pass_step(prefix, handle, converted0, store0);
                if prefix.contains(handle) {
                    let j = choose|j: int| 0 <= j < prefix.len() && prefix[j] == handle;
                    assert(pending0[j] == pending0[i as int]);
                }
            }
            match store.convert(handle) {
                None => {
                    remaining.push(handle);
                },
                Some(outcome) => {
                    if outcome.is_ok() {
                        self.converted.insert(handle);
                    }
                    report.push((handle, outcome));
                },
            }
            i = i + 1;
        }
        proof {
            assert(pending0.subrange(0, n as int) =~= pending0);
            lemma_pass_keeps_wf(pending0, converted0, store0);
        }
        self.handles = remaining;
        report
    }

    /// Number of references waiting for their data.
    pub fn len(&self) -> (r: usize)
        ensures
            r == self.pending().len(),
    {
        self.handles.len()
    }

    /// Whether no reference is waiting.
    pub fn is_empty(&self) -> (r: bool)
        ensures
            r == (self.pending().len() == 0),
    {
        self.handles.len() == 0
    }

    /// Whether `handle` is waiting for its data.
    pub fn is_pending(&self, handle: u64) -> (r: bool)
        ensures
            r == self.pending().contains(handle),
    {
        let mut i: usize = 0;
        while i < self.handles.len()
            invariant
                0 <= i <= self.handles@.len(),
                forall|j: int| 0 <= j < i ==> self.handles@[j] != handle,
            decreases self.handles@.len() - i,
        {
            if self.handles[i] == handle {
                assert(self.handles@.contains(handle));
                return true;
            }
            i = i + 1;
        }
        false
    }

    /// Whether this queue has converted the image of `handle`.
    pub fn is_converted(&self, handle: u64) -> (r: bool)
        ensures
            r == self.converted().contains(handle),
    {
        self.converted.contains(&handle)
    }

    /// The references waiting for their data, in queue order.
    pub fn pending_handles(&self) -> (r: Vec<u64>)
        ensures
            r@ == self.pending(),
    {
        self.handles.clone()
    }
}

impl Default for SkyboxTextureConversion {
    fn default() -> (r: SkyboxTextureConversion)
        ensures
            r.wf(),
            r.pending() == Seq::<u64>::empty(),
            r.converted() == Set::<u64>::empty(),
    {
        SkyboxTextureConversion::new()
    }
}

} // verus!
