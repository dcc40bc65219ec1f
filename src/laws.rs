use vstd::prelude::*;
use crate::shape::{handle_of, has_key, index_of, lemma_handle_of};
use crate::tree::{
    inserted, lemma_bst_order, lemma_records_valid, merged, ScapegoatTree,
};

verus! {

/// Round trip: after `insert(k, server, date)` the tree holds `k`, and its
/// record is a fresh one of `server` and `date` when `k` was new, else the
/// earlier record with `server` added once and the later date kept. A search
/// for `k` then gives the handle of that record.
pub proof fn lemma_round_trip(
    t0: ScapegoatTree,
    k: Seq<u8>,
    server: u16,
    date: u32,
    t1: ScapegoatTree,
    created: bool,
)
    requires
        t0.wf(),
        t1.wf(),
        inserted(t0, k, server, date, t1, created),
    ensures
        has_key(t1.entries(), k),
        handle_of(t1.entries(), k) < t1.records().len(),
        t1.record_of(k).key_view() == k,
        created ==> t1.record_of(k).servers() == seq![server] && t1.record_of(k).date() == date,
        !created ==> has_key(t0.entries(), k) && merged(
            t0.record_of(k),
            t1.record_of(k),
            server,
            date,
        ),
        t1.record_of(k).servers().contains(server),
        t1.record_of(k).servers().no_duplicates(),
        t1.record_of(k).date() >= date,
{
    lemma_bst_order(t0);
    lemma_bst_order(t1);
    lemma_records_valid(t0);
    lemma_records_valid(t1);
    let e0 = t0.entries();
    let e1 = t1.entries();
    if created {
        let n = t0.records().len();
        let i = choose|i: int| 0 <= i <= e0.len() && e1 == e0.insert(i, (k, n));
        assert(e1[i] == (k, n));
        lemma_handle_of(e1, i);
        assert(t1.record_of(k).servers()[0] == server);
    } else {
        let i = index_of(e0, k);
        lemma_handle_of(e0, i);
        let h = handle_of(e0, k) as int;
        assert(e0[i].1 < t0.records().len());
        let before = t0.records()[h];
        if !before.servers().contains(server) {
            assert(t1.record_of(k).servers()[before.servers().len() as int] == server);
        }
        assert(t1.record_of(k).key_view() == before.key_view());
    }
}

/// Inserting the same key, server and date twice: the second insertion
/// creates nothing, and leaves the key's servers, each listed once, and its
/// date as the first left them.
pub proof fn lemma_idempotent_merge(
    t0: ScapegoatTree,
    k: Seq<u8>,
    server: u16,
    date: u32,
    t1: ScapegoatTree,
    c1: bool,
    t2: ScapegoatTree,
    c2: bool,
)
    requires
        t0.wf(),
        t1.wf(),
        t2.wf(),
        inserted(t0, k, server, date, t1, c1),
        inserted(t1, k, server, date, t2, c2),
    ensures
        !c2,
        t2.entries() == t1.entries(),
        t2.record_of(k).servers() == t1.record_of(k).servers(),
        t2.record_of(k).date() == t1.record_of(k).date(),
        t2.record_of(k).servers().contains(server),
        t2.record_of(k).servers().no_duplicates(),
{
    lemma_round_trip(t0, k, server, date, t1, c1);
    lemma_round_trip(t1, k, server, date, t2, c2);
}

/// The date of a key is the latest of its ban dates: after inserting
/// `(k, s1, d1)` and then `(k, s2, d2)` for a key that was not held, it is
/// `max(d1, d2)`, in either order of the two dates.
pub proof fn lemma_monotone_date(
    t0: ScapegoatTree,
    k: Seq<u8>,
    s1: u16,
    d1: u32,
    t1: ScapegoatTree,
    c1: bool,
    s2: u16,
    d2: u32,
    t2: ScapegoatTree,
    c2: bool,
)
    requires
        t0.wf(),
        t1.wf(),
        t2.wf(),
        !has_key(t0.entries(), k),
        inserted(t0, k, s1, d1, t1, c1),
        inserted(t1, k, s2, d2, t2, c2),
    ensures
        t2.record_of(k).date() == if d1 >= d2 {
            d1
        } else {
            d2
        },
{
    lemma_round_trip(t0, k, s1, d1, t1, c1);
    lemma_round_trip(t1, k, s2, d2, t2, c2);
}

/// However many times `(k, s, d)` is inserted, the record of `k` lists `s`
/// exactly once.
pub proof fn lemma_dedup_ban_list(
    t0: ScapegoatTree,
    k: Seq<u8>,
    server: u16,
    date: u32,
    t1: ScapegoatTree,
    created: bool,
)
    requires
        t0.wf(),
        t1.wf(),
        inserted(t0, k, server, date, t1, created),
    ensures
        t1.record_of(k).servers().filter(|x: u16| x == server).len() == 1,
{
    lemma_round_trip(t0, k, server, date, t1, created);
    let v = t1.record_of(k).servers();
    lemma_filter_single(v, server);
}

proof fn lemma_filter_single(v: Seq<u16>, x: u16)
    requires
        v.contains(x),
        v.no_duplicates(),
    ensures
        v.filter(|y: u16| y == x).len() == 1,
    decreases v.len(),
{
    let f = |y: u16| y == x;
    let w = v.drop_last();
    assert(v =~= w.push(v.last()));
    reveal(Seq::filter);
    if v.last() == x {
        assert(!w.contains(x)) by {
            if w.contains(x) {
                let j = choose|j: int| 0 <= j < w.len() && w[j] == x;
                assert(v[j] == v[v.len() - 1]);
            }
        }
        lemma_filter_none(w, x);
        assert(v.filter(f) =~= w.filter(f).push(x));
    } else {
        let j = choose|j: int| 0 <= j < v.len() && v[j] == x;
        assert(w[j] == x);
        assert(w.no_duplicates());
        lemma_filter_single(w, x);
        assert(v.filter(f) =~= w.filter(f));
    }
}

proof fn lemma_filter_none(v: Seq<u16>, x: u16)
    requires
        !v.contains(x),
    ensures
        v.filter(|y: u16| y == x).len() == 0,
    decreases v.len(),
{
    reveal(Seq::filter);
    if v.len() > 0 {
        let w = v.drop_last();
        assert(!w.contains(x)) by {
            if w.contains(x) {
                let j = choose|j: int| 0 <= j < w.len() && w[j] == x;
                assert(v[j] == x);
            }
        }
        lemma_filter_none(w, x);
    }
}

} // verus!
