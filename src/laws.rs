//! Properties of the conversion queue across enqueues and maintenance passes, stated over the
//! same models that the contracts of [`crate::SkyboxTextureConversion`] use.
use vstd::prelude::*;

use crate::conversion::{converted_after_pass, pass_report, pending_after_pass, store_after_pass};
use crate::error::ConversionError;
use crate::texture::{as_layered, is_stacked_skybox, layer_bytes, TextureView, SKYBOX_LAYERS};

verus! {

broadcast use vstd::seq_lib::group_filter_ensures;

/// A reference queued while its data is not resident stays queued through the passes before
/// its data arrives; the first pass after that takes it out of the queue and leaves its image
/// as six layers, layer `i` being strip `i` of the stacked image.
pub proof fn lemma_converted_at_first_pass_after_residency(
    pending: Seq<u64>,
    store: Map<u64, TextureView>,
    r: u64,
    texture: TextureView,
)
    requires
        pending.contains(r),
        !store.contains_key(r),
        is_stacked_skybox(texture),
    ensures
        ({
            let waiting = pending_after_pass(pending, store);
            let loaded = store_after_pass(pending, store).insert(r, texture);
            let done = store_after_pass(waiting, loaded)[r];
            &&& waiting.contains(r)
            &&& !pending_after_pass(waiting, loaded).contains(r)
            &&& done == as_layered(texture)
            &&& done.layers == SKYBOX_LAYERS
            &&& done.data == texture.data
            &&& forall|i: int|
                0 <= i < SKYBOX_LAYERS ==> #[trigger] layer_bytes(done, i) == texture.data.subrange(
                    i * (texture.data.len() / 6),
                    (i + 1) * (texture.data.len() / 6),
                )
        }),
{
    let waiting = pending_after_pass(pending, store);
    let loaded = store_after_pass(pending, store).insert(r, texture);
    let j = choose|j: int| 0 <= j < pending.len() && pending[j] == r;
    pending.lemma_filter_contains(|h: u64| !store.contains_key(h), j);
    if pending_after_pass(waiting, loaded).contains(r) {
        waiting.lemma_filter_contains_rev(|h: u64| !loaded.contains_key(h), r);
    }
}

/// A pass never drops a reference whose data is not resident: it keeps exactly those, in
/// their order, so a queue none of whose references become resident keeps its length.
pub proof fn lemma_unresident_stay_queued(pending: Seq<u64>, store: Map<u64, TextureView>)
    ensures
        forall|r: u64|
            pending.contains(r) && !store.contains_key(r) ==> #[trigger] pending_after_pass(
                pending,
                store,
            ).contains(r),
        (forall|i: int| 0 <= i < pending.len() ==> !store.contains_key(#[trigger] pending[i]))
            ==> pending_after_pass(pending, store) == pending,
{
    let p = |h: u64| !store.contains_key(h);
    assert forall|r: u64|
        pending.contains(r) && !store.contains_key(r) implies #[trigger] pending_after_pass(
        pending,
        store,
    ).contains(r) by {
        let j = choose|j: int| 0 <= j < pending.len() && pending[j] == r;
        pending.lemma_filter_contains(p, j);
    }
    if forall|i: int| 0 <= i < pending.len() ==> !store.contains_key(#[trigger] pending[i]) {
        lemma_filter_keeps_all(pending, p);
    }
}

/// A second pass right after a first one converts nothing again: the images, the queue and
/// the set of converted references stay as the first pass left them, and nothing is reported.
pub proof fn lemma_second_pass_changes_nothing(
    pending: Seq<u64>,
    converted: Set<u64>,
    store: Map<u64, TextureView>,
)
    ensures
        ({
            let p1 = pending_after_pass(pending, store);
            let c1 = converted_after_pass(pending, converted, store);
            let s1 = store_after_pass(pending, store);
            &&& store_after_pass(p1, s1) == s1
            &&& pending_after_pass(p1, s1) == p1
            &&& converted_after_pass(p1, c1, s1) == c1
            &&& pass_report(p1, s1) == Seq::<(u64, Result<(), ConversionError>)>::empty()
        }),
{
    let p = |h: u64| !store.contains_key(h);
    let p1 = pending_after_pass(pending, store);
    let c1 = converted_after_pass(pending, converted, store);
    let s1 = store_after_pass(pending, store);
    assert forall|h: u64| #[trigger] p1.contains(h) implies !s1.contains_key(h) by {
        pending.lemma_filter_contains_rev(p, h);
    }
    assert forall|i: int| 0 <= i < p1.len() implies !s1.contains_key(#[trigger] p1[i]) by {
        assert(p1.contains(p1[i]));
    }
    lemma_filter_keeps_all(p1, |h: u64| !s1.contains_key(h));
    assert(store_after_pass(p1, s1) =~= s1);
    assert(converted_after_pass(p1, c1, s1) =~= c1);
    lemma_report_empty(p1, s1);
}

proof fn lemma_filter_keeps_all(s: Seq<u64>, p: spec_fn(u64) -> bool)
    requires
        forall|i: int| 0 <= i < s.len() ==> p(#[trigger] s[i]),
    ensures
        s.filter(p) == s,
    decreases s.len(),
{
    if s.len() == 0 {
        reveal_with_fuel(Seq::filter, 1);
    } else {
        let init = s.drop_last();
        assert forall|i: int| 0 <= i < init.len() implies p(#[trigger] init[i]) by {
            assert(init[i] == s[i]);
        }
        lemma_filter_keeps_all(init, p);
        init.lemma_filter_push(s.last(), p);
        assert(init.push(s.last()) =~= s);
    }
}

proof fn lemma_report_empty(pending: Seq<u64>, store: Map<u64, TextureView>)
    requires
        forall|i: int| 0 <= i < pending.len() ==> !store.contains_key(#[trigger] pending[i]),
    ensures
        pass_report(pending, store) == Seq::<(u64, Result<(), ConversionError>)>::empty(),
    decreases pending.len(),
{
    if pending.len() > 0 {
        let init = pending.drop_last();
        assert forall|i: int| 0 <= i < init.len() implies !store.contains_key(
            #[trigger] init[i],
        ) by {
            assert(init[i] == pending[i]);
        }
        lemma_report_empty(init, store);
    }
}

/// Two references queued in either order, the second one's data arriving first: each is
/// converted at the pass after its own data arrives, and both orders leave the same queue and
/// the same images after each pass.
pub proof fn lemma_enqueue_order_does_not_matter(
    r1: u64,
    r2: u64,
    store: Map<u64, TextureView>,
    texture1: TextureView,
)
    requires
        r1 != r2,
        !store.contains_key(r1),
        store.contains_key(r2),
        is_stacked_skybox(store[r2]),
        is_stacked_skybox(texture1),
    ensures
        ({
            let a = seq![r1, r2];
            let b = seq![r2, r1];
            let s1 = store_after_pass(a, store);
            let s2 = s1.insert(r1, texture1);
            &&& pending_after_pass(a, store) == seq![r1]
            &&& pending_after_pass(b, store) == seq![r1]
            &&& store_after_pass(b, store) == s1
            &&& s1[r2] == as_layered(store[r2])
            &&& pending_after_pass(seq![r1], s2) == Seq::<u64>::empty()
            &&& store_after_pass(seq![r1], s2)[r1] == as_layered(texture1)
            &&& store_after_pass(seq![r1], s2)[r2] == as_layered(store[r2])
        }),
{
    reveal_with_fuel(Seq::filter, 3);
    let a = seq![r1, r2];
    let b = seq![r2, r1];
    assert(a.contains(r2) && b.contains(r2)) by {
        assert(a[1] == r2 && b[0] == r2);
    }
    assert(a.contains(r1) && b.contains(r1)) by {
        assert(a[0] == r1 && b[1] == r1);
    }
    assert forall|h: u64| a.contains(h) <==> b.contains(h) by {
        if a.contains(h) {
            let j = choose|j: int| 0 <= j < a.len() && a[j] == h;
            assert(b[1 - j] == h);
        }
        if b.contains(h) {
            let j = choose|j: int| 0 <= j < b.len() && b[j] == h;
            assert(a[1 - j] == h);
        }
    }
    assert(pending_after_pass(a, store) =~= seq![r1]);
    assert(pending_after_pass(b, store) =~= seq![r1]);
    assert(store_after_pass(b, store) =~= store_after_pass(a, store));
    let s2 = store_after_pass(a, store).insert(r1, texture1);
    assert(pending_after_pass(seq![r1], s2) =~= Seq::<u64>::empty());
    assert(seq![r1].contains(r1)) by {
        assert(seq![r1][0] == r1);
    }
    assert(!seq![r1].contains(r2));
}

} // verus!
