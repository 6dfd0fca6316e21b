//! The pool as a queue: what a database looks like that holds a run of
//! consecutively numbered entries, and what storing and taking do to it.

use crate::address::{PetAddressInfoView, PetAddressView};
use crate::codec::{entry_text, lemma_entry_round_trip};
use crate::layout::{
    entry_key, entry_prefix, has_prefix, key_before, lemma_be_round_trip, lemma_entry_key_before,
    lemma_entry_key_has_prefix, lemma_entry_key_injective,
};
use crate::storage::{
    advance, counter_of, dequeue, enqueue, info_of, is_front, lemma_front_none,
    lemma_front_unique, live_keys, no_key_with_prefix, write_entry,
};
use vstd::prelude::*;

verus! {

/// The database holds exactly the entries `es` as its pool, numbered from `lo`
/// upward without a gap, each under the key of its number, and its counter is
/// at the last number given out.
pub open spec fn holds_queue(m: Map<Seq<u8>, Seq<u8>>, lo: nat, es: Seq<PetAddressInfoView>) -> bool {
    &&& lo >= 1
    &&& lo + es.len() - 1 <= u64::MAX
    &&& counter_of(m) == Some((lo + es.len() - 1) as u64)
    &&& forall|i: int|
        0 <= i < es.len() ==> (#[trigger] es[i]).id == lo + i && m.contains_key(
            entry_key((lo + i) as u64),
        ) && m[entry_key((lo + i) as u64)] == entry_text(es[i])
    &&& forall|k: Seq<u8>| #[trigger]
        m.contains_key(k) && has_prefix(k, entry_prefix()) ==> exists|i: int|
            0 <= i < es.len() && k == #[trigger] entry_key((lo + i) as u64)
}

/// The database after storing `items` one after the other.
pub open spec fn enqueue_all(
    m: Map<Seq<u8>, Seq<u8>>,
    items: Seq<(PetAddressView, Seq<char>)>,
) -> Map<Seq<u8>, Seq<u8>>
    decreases items.len(),
{
    if items.len() == 0 {
        m
    } else {
        enqueue(enqueue_all(m, items.drop_last()), items.last().0, items.last().1).0
    }
}

/// The identifiers that storing `items` one after the other gives them.
pub open spec fn enqueue_ids(m: Map<Seq<u8>, Seq<u8>>, items: Seq<(PetAddressView, Seq<char>)>) -> Seq<
    u64,
>
    decreases items.len(),
{
    if items.len() == 0 {
        Seq::empty()
    } else {
        enqueue_ids(m, items.drop_last()).push(
            enqueue(enqueue_all(m, items.drop_last()), items.last().0, items.last().1).1,
        )
    }
}

/// The database after taking `n` times, and what each take gave.
pub open spec fn dequeue_n(m: Map<Seq<u8>, Seq<u8>>, n: nat) -> (
    Map<Seq<u8>, Seq<u8>>,
    Seq<Option<PetAddressInfoView>>,
)
    decreases n,
{
    if n == 0 {
        (m, Seq::empty())
    } else {
        let first = dequeue(m);
        let rest = dequeue_n(first.0, (n - 1) as nat);
        (rest.0, seq![first.1] + rest.1)
    }
}

/// The entries that `items` become when they are numbered from `lo` upward.
pub open spec fn numbered(lo: nat, items: Seq<(PetAddressView, Seq<char>)>) -> Seq<PetAddressInfoView> {
    Seq::new(items.len(), |i: int| info_of((lo + i) as u64, items[i].0, items[i].1))
}

/// A database that holds nothing is an empty queue whose counter stands at zero.
pub proof fn lemma_fresh_database(m: Map<Seq<u8>, Seq<u8>>)
    requires
        m == Map::<Seq<u8>, Seq<u8>>::empty(),
    ensures
        holds_queue(m, 1, Seq::empty()),
        counter_of(m) == Some(0u64),
{
}

/// Storing moves the counter on by one, whatever else the database holds.
pub proof fn lemma_enqueue_counter(m: Map<Seq<u8>, Seq<u8>>, address: PetAddressView, created_at: Seq<char>)
    requires
        counter_of(m) matches Some(c) && c < u64::MAX,
    ensures
        enqueue(m, address, created_at).1 == counter_of(m)->0 + 1,
        counter_of(enqueue(m, address, created_at).0) == Some(enqueue(m, address, created_at).1),
{
    let id = enqueue(m, address, created_at).1;
    lemma_entry_key_has_prefix(id);
    lemma_be_round_trip(id);
}

/// Storing an address puts it at the back of the queue, under the next number.
pub proof fn lemma_enqueue_appends(
    m: Map<Seq<u8>, Seq<u8>>,
    lo: nat,
    es: Seq<PetAddressInfoView>,
    address: PetAddressView,
    created_at: Seq<char>,
)
    requires
        holds_queue(m, lo, es),
        lo + es.len() <= u64::MAX,
    ensures
        enqueue(m, address, created_at).1 == lo + es.len(),
        holds_queue(
            enqueue(m, address, created_at).0,
            lo,
            es.push(info_of((lo + es.len()) as u64, address, created_at)),
        ),
{
    let (m2, id) = enqueue(m, address, created_at);
    let e = info_of(id, address, created_at);
    let es2 = es.push(e);
    lemma_enqueue_counter(m, address, created_at);
    lemma_entry_key_has_prefix(id);
    assert forall|i: int| 0 <= i < es2.len() implies (#[trigger] es2[i]).id == lo + i
        && m2.contains_key(entry_key((lo + i) as u64)) && m2[entry_key((lo + i) as u64)]
        == entry_text(es2[i]) by {
        if i < es.len() {
            assert(es2[i] == es[i]);
            lemma_entry_key_has_prefix((lo + i) as u64);
            if entry_key((lo + i) as u64) == entry_key(id) {
                lemma_entry_key_injective((lo + i) as u64, id);
            }
        }
    }
    assert forall|k: Seq<u8>| #[trigger]
        m2.contains_key(k) && has_prefix(k, entry_prefix()) implies exists|i: int|
        0 <= i < es2.len() && k == #[trigger] entry_key((lo + i) as u64) by {
        if k == entry_key(id) {
            assert(k == entry_key((lo + es.len()) as u64));
        } else {
            assert(m.contains_key(k));
            let i = choose|i: int| 0 <= i < es.len() && k == #[trigger] entry_key((lo + i) as u64);
            assert(0 <= i < es2.len() && k == entry_key((lo + i) as u64));
        }
    }
}

/// Taking from a queue that holds entries gives the one at the front, removes
/// it for good, and leaves the others in their order.
pub proof fn lemma_dequeue_front(m: Map<Seq<u8>, Seq<u8>>, lo: nat, es: Seq<PetAddressInfoView>)
    requires
        holds_queue(m, lo, es),
        es.len() > 0,
    ensures
        dequeue(m).1 == Some(es[0]),
        dequeue(m).0 == m.remove(entry_key(lo as u64)),
        !dequeue(m).0.contains_key(entry_key(es[0].id)),
        holds_queue(dequeue(m).0, lo + 1, es.drop_first()),
{
    let k0 = entry_key(lo as u64);
    lemma_entry_key_has_prefix(lo as u64);
    assert(es[0].id == lo + 0 && m.contains_key(entry_key((lo + 0) as u64)));
    assert forall|k2: Seq<u8>| #[trigger]
        m.contains_key(k2) && has_prefix(k2, entry_prefix()) implies k2 == k0 || key_before(k0, k2) by {
        let i = choose|i: int| 0 <= i < es.len() && k2 == #[trigger] entry_key((lo + i) as u64);
        if i > 0 {
            lemma_entry_key_before(lo as u64, (lo + i) as u64);
        }
    }
    assert(is_front(m, k0));
    lemma_front_unique(m, k0);
    lemma_entry_round_trip(es[0]);
    let m2 = m.remove(k0);
    let rest = es.drop_first();
    assert(dequeue(m).0 == m2);
    assert(counter_of(m2) == counter_of(m));
    let lo1: nat = lo + 1;
    assert forall|i: int| 0 <= i < rest.len() implies (#[trigger] rest[i]).id == lo1 + i
        && m2.contains_key(entry_key((lo1 + i) as u64)) && m2[entry_key((lo1 + i) as u64)]
        == entry_text(rest[i]) by {
        assert(rest[i] == es[i + 1]);
        assert(es[i + 1].id == lo + (i + 1));
        assert((lo1 + i) as u64 == (lo + (i + 1)) as u64);
        if entry_key((lo1 + i) as u64) == k0 {
            lemma_entry_key_injective((lo1 + i) as u64, lo as u64);
        }
    }
    assert forall|k: Seq<u8>| #[trigger]
        m2.contains_key(k) && has_prefix(k, entry_prefix()) implies exists|i: int|
        0 <= i < rest.len() && k == #[trigger] entry_key((lo1 + i) as u64) by {
        assert(m.contains_key(k));
        let i = choose|i: int| 0 <= i < es.len() && k == #[trigger] entry_key((lo + i) as u64);
        assert(i != 0);
        assert((lo1 + (i - 1)) as u64 == (lo + i) as u64);
        assert(0 <= i - 1 < rest.len() && k == entry_key((lo1 + (i - 1)) as u64));
    }
    assert(lo1 + rest.len() - 1 <= u64::MAX);
    assert(counter_of(m2) == Some((lo1 + rest.len() - 1) as u64));
    assert(holds_queue(m2, lo1, rest));
}

/// Taking from an empty queue gives nothing and changes nothing.
pub proof fn lemma_dequeue_empty(m: Map<Seq<u8>, Seq<u8>>, lo: nat)
    requires
        holds_queue(m, lo, Seq::empty()),
    ensures
        dequeue(m) == (m, None::<PetAddressInfoView>),
{
    assert(no_key_with_prefix(m, entry_prefix())) by {
        assert forall|k: Seq<u8>| #[trigger] m.contains_key(k) implies !has_prefix(
            k,
            entry_prefix(),
        ) by {
            if has_prefix(k, entry_prefix()) {
                let i = choose|i: int|
                    0 <= i < 0 && k == #[trigger] entry_key((lo + i) as u64);
            }
        }
    }
    lemma_front_none(m);
}

/// Storing several addresses puts them at the back of the queue in the order
/// in which they were stored, numbered on from the counter.
pub proof fn lemma_enqueue_all_appends(
    m: Map<Seq<u8>, Seq<u8>>,
    lo: nat,
    es: Seq<PetAddressInfoView>,
    items: Seq<(PetAddressView, Seq<char>)>,
)
    requires
        holds_queue(m, lo, es),
        lo + es.len() + items.len() - 1 <= u64::MAX,
    ensures
        holds_queue(enqueue_all(m, items), lo, es + numbered(lo + es.len(), items)),
    decreases items.len(),
{
    let next: nat = lo + es.len();
    if items.len() == 0 {
        assert(es + numbered(next, items) =~= es);
    } else {
        let head = items.drop_last();
        lemma_enqueue_all_appends(m, lo, es, head);
        let mid = es + numbered(next, head);
        lemma_enqueue_appends(enqueue_all(m, head), lo, mid, items.last().0, items.last().1);
        assert(mid.push(info_of((lo + mid.len()) as u64, items.last().0, items.last().1)) =~= es
            + numbered(next, items));
    }
}

/// Taking `n` times from a queue that holds at least `n` entries gives its
/// first `n` entries in their order.
pub proof fn lemma_dequeue_n_in_order(m: Map<Seq<u8>, Seq<u8>>, lo: nat, es: Seq<PetAddressInfoView>, n: nat)
    requires
        holds_queue(m, lo, es),
        n <= es.len(),
    ensures
        dequeue_n(m, n).1 == Seq::new(n, |i: int| Some(es[i])),
        holds_queue(dequeue_n(m, n).0, lo + n, es.subrange(n as int, es.len() as int)),
    decreases n,
{
    if n == 0 {
        assert(dequeue_n(m, n).1 =~= Seq::new(n, |i: int| Some(es[i])));
        assert(es.subrange(0, es.len() as int) =~= es);
    } else {
        lemma_dequeue_front(m, lo, es);
        let rest = es.drop_first();
        lemma_dequeue_n_in_order(dequeue(m).0, lo + 1, rest, (n - 1) as nat);
        assert(rest.subrange(n - 1, rest.len() as int) =~= es.subrange(n as int, es.len() as int));
        assert(dequeue_n(m, n).1 =~= Seq::new(n, |i: int| Some(es[i])));
    }
}

/// First in, first out: when `items` are stored in an empty pool and as many
/// entries are then taken, the entries come out in the order in which they went
/// in, which is the order of their identifiers, and one more take gives nothing.
pub proof fn lemma_fifo_order(m: Map<Seq<u8>, Seq<u8>>, counter: u64, items: Seq<(PetAddressView, Seq<char>)>)
    requires
        holds_queue(m, (counter + 1) as nat, Seq::empty()),
        counter + items.len() <= u64::MAX,
    ensures
        dequeue_n(enqueue_all(m, items), items.len()).1 == Seq::new(
            items.len(),
            |i: int| Some(info_of((counter + 1 + i) as u64, items[i].0, items[i].1)),
        ),
        dequeue(dequeue_n(enqueue_all(m, items), items.len()).0).1 is None,
{
    let lo: nat = (counter + 1) as nat;
    let es = numbered(lo, items);
    lemma_enqueue_all_appends(m, lo, Seq::empty(), items);
    assert(Seq::<PetAddressInfoView>::empty() + es =~= es);
    let filled = enqueue_all(m, items);
    lemma_dequeue_n_in_order(filled, lo, es, items.len());
    assert(es.subrange(es.len() as int, es.len() as int) =~= Seq::<PetAddressInfoView>::empty());
    lemma_dequeue_empty(dequeue_n(filled, items.len()).0, lo + items.len());
    assert(dequeue_n(filled, items.len()).1 =~= Seq::new(
        items.len(),
        |i: int| Some(info_of((counter + 1 + i) as u64, items[i].0, items[i].1)),
    ));
}

/// Consecutive identifiers: from a counter at `counter`, the stores that
/// follow one another get the identifiers `counter + 1`, `counter + 2` and so
/// on, each once and none left out, and the counter ends at the last of them.
pub proof fn lemma_ids_consecutive(
    m: Map<Seq<u8>, Seq<u8>>,
    counter: u64,
    items: Seq<(PetAddressView, Seq<char>)>,
)
    requires
        counter_of(m) == Some(counter),
        counter + items.len() <= u64::MAX,
    ensures
        enqueue_ids(m, items) == Seq::new(items.len(), |i: int| (counter + 1 + i) as u64),
        counter_of(enqueue_all(m, items)) == Some((counter + items.len()) as u64),
    decreases items.len(),
{
    if items.len() == 0 {
        assert(enqueue_ids(m, items) =~= Seq::new(items.len(), |i: int| (counter + 1 + i) as u64));
    } else {
        let head = items.drop_last();
        lemma_ids_consecutive(m, counter, head);
        lemma_enqueue_counter(enqueue_all(m, head), items.last().0, items.last().1);
        assert(enqueue_ids(m, items) =~= Seq::new(items.len(), |i: int| (counter + 1 + i) as u64));
    }
}

/// Durability: the state of the store is what its database holds. A store that
/// is opened on a database which holds a queue of entries and a counter gives
/// the next address the number after the counter, and hands out the entries
/// that were waiting in their old order.
pub proof fn lemma_reopened_store(
    m: Map<Seq<u8>, Seq<u8>>,
    lo: nat,
    es: Seq<PetAddressInfoView>,
    address: PetAddressView,
    created_at: Seq<char>,
)
    requires
        holds_queue(m, lo, es),
        lo + es.len() <= u64::MAX,
    ensures
        enqueue(m, address, created_at).1 == counter_of(m)->0 + 1,
        dequeue_n(m, es.len()).1 == Seq::new(es.len(), |i: int| Some(es[i])),
{
    lemma_enqueue_counter(m, address, created_at);
    lemma_dequeue_n_in_order(m, lo, es, es.len());
}

/// One step of a store, as the database carries it out whole.
pub enum StoreStep {
    /// The counter is moved on and its new value taken as an identifier.
    Advance,
    /// An entry is written under the key of its identifier.
    Write(PetAddressInfoView),
}

/// The database after the steps of several stores in the order in which they
/// reach it, and the identifiers that the `Advance` steps took, in that order.
pub open spec fn run_steps(m: Map<Seq<u8>, Seq<u8>>, steps: Seq<StoreStep>) -> (
    Map<Seq<u8>, Seq<u8>>,
    Seq<u64>,
)
    decreases steps.len(),
{
    if steps.len() == 0 {
        (m, Seq::empty())
    } else {
        let before = run_steps(m, steps.drop_last());
        match steps.last() {
            StoreStep::Advance => (advance(before.0).0, before.1.push(advance(before.0).1)),
            StoreStep::Write(e) => (write_entry(before.0, e), before.1),
        }
    }
}

/// Identifiers under interleaving: however the steps of several stores are
/// interleaved, the stores get the identifiers that follow the counter, each
/// once and none left out, in the order in which they moved the counter on.
pub proof fn lemma_ids_under_interleaving(m: Map<Seq<u8>, Seq<u8>>, counter: u64, steps: Seq<StoreStep>)
    requires
        counter_of(m) == Some(counter),
        counter + steps.len() <= u64::MAX,
    ensures
        forall|i: int|
            0 <= i < run_steps(m, steps).1.len() ==> #[trigger] run_steps(m, steps).1[i] == counter
                + 1 + i,
        run_steps(m, steps).1.len() <= steps.len(),
        counter_of(run_steps(m, steps).0) == Some((counter + run_steps(m, steps).1.len()) as u64),
    decreases steps.len(),
{
    if steps.len() > 0 {
        let head = steps.drop_last();
        lemma_ids_under_interleaving(m, counter, head);
        let before = run_steps(m, head);
        match steps.last() {
            StoreStep::Advance => {
                let id = advance(before.0).1;
                lemma_be_round_trip(id);
            },
            StoreStep::Write(e) => {
                lemma_entry_key_has_prefix(e.id);
            },
        }
    }
}

/// The pool of a queue has as many entries as the queue holds.
pub proof fn lemma_queue_count(m: Map<Seq<u8>, Seq<u8>>, lo: nat, es: Seq<PetAddressInfoView>)
    requires
        holds_queue(m, lo, es),
    ensures
        live_keys(m).finite(),
        live_keys(m).len() == es.len(),
{
    let ks = Seq::new(es.len(), |i: int| entry_key((lo + i) as u64));
    assert forall|i: int, j: int| 0 <= i < ks.len() && 0 <= j < ks.len() && i != j implies ks[i]
        != ks[j] by {
        if ks[i] == ks[j] {
            lemma_entry_key_injective((lo + i) as u64, (lo + j) as u64);
        }
    }
    assert(ks.no_duplicates());
    ks.unique_seq_to_set();
    vstd::seq_lib::seq_to_set_is_finite(ks);
    assert forall|k: Seq<u8>| live_keys(m).contains(k) implies ks.to_set().contains(k) by {
        assert(m.contains_key(k) && has_prefix(k, entry_prefix()));
        let i = choose|i: int| 0 <= i < es.len() && k == #[trigger] entry_key((lo + i) as u64);
        assert(ks[i] == k);
    }
    assert forall|k: Seq<u8>| ks.to_set().contains(k) implies live_keys(m).contains(k) by {
        let i = choose|i: int| 0 <= i < ks.len() && ks[i] == k;
        assert(es[i].id == lo + i);
        lemma_entry_key_has_prefix((lo + i) as u64);
    }
    assert(ks.to_set() =~= live_keys(m));
}

/// Every store raises the count of the pool by one: after `items` are stored
/// in a queue, the pool holds as many entries more as there are items.
pub proof fn lemma_stores_raise_count(
    m: Map<Seq<u8>, Seq<u8>>,
    lo: nat,
    es: Seq<PetAddressInfoView>,
    items: Seq<(PetAddressView, Seq<char>)>,
)
    requires
        holds_queue(m, lo, es),
        lo + es.len() + items.len() - 1 <= u64::MAX,
    ensures
        live_keys(m).finite(),
        live_keys(enqueue_all(m, items)).finite(),
        live_keys(enqueue_all(m, items)).len() == live_keys(m).len() + items.len(),
{
    lemma_queue_count(m, lo, es);
    lemma_enqueue_all_appends(m, lo, es, items);
    lemma_queue_count(enqueue_all(m, items), lo, es + numbered(lo + es.len(), items));
}

/// Every take lowers the count of the pool by one, and leaves the counter as it is.
pub proof fn lemma_take_lowers_count(m: Map<Seq<u8>, Seq<u8>>, lo: nat, es: Seq<PetAddressInfoView>)
    requires
        holds_queue(m, lo, es),
        es.len() > 0,
    ensures
        live_keys(dequeue(m).0).finite(),
        live_keys(dequeue(m).0).len() == live_keys(m).len() - 1,
        counter_of(dequeue(m).0) == counter_of(m),
{
    lemma_queue_count(m, lo, es);
    lemma_dequeue_front(m, lo, es);
    lemma_queue_count(dequeue(m).0, lo + 1, es.drop_first());
}

} // verus!
