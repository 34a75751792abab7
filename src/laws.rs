//! Facts that relate the store's operations to one another.
use crate::cli::{lemma_rank_bijection, priority_at, rank, Order, Priority, PRIORITY_COUNT};
use crate::errands::{
    added, bucket_or_empty, fresh, from_pairs, listing, pairs_through, removed, selection, stored,
    target, tagged, without,
};
use crate::listing::ignored_by;
use vstd::prelude::*;

verus! {

/// A fresh store has exactly the six priorities as keys, each with an empty
/// bucket.
pub proof fn lemma_fresh_shape()
    ensures
        fresh().dom() == set![
            Priority::Emergency,
            Priority::Urgent,
            Priority::High,
            Priority::Medium,
            Priority::Routine,
            Priority::Deferred,
        ],
        fresh().dom().len() == PRIORITY_COUNT,
        forall|p: Priority| #[trigger] fresh().dom().contains(p) && fresh()[p].len() == 0,
{
    let all = set![
        Priority::Emergency,
        Priority::Urgent,
        Priority::High,
        Priority::Medium,
        Priority::Routine,
        Priority::Deferred,
    ];
    assert forall|p: Priority| #[trigger] fresh().dom().contains(p) <==> all.contains(p) by {
        match p {
            Priority::Emergency => {},
            Priority::Urgent => {},
            Priority::High => {},
            Priority::Medium => {},
            Priority::Routine => {},
            Priority::Deferred => {},
        }
    }
    assert(fresh().dom() =~= all);
    let s0 = Set::<Priority>::empty();
    let s1 = s0.insert(Priority::Emergency);
    let s2 = s1.insert(Priority::Urgent);
    let s3 = s2.insert(Priority::High);
    let s4 = s3.insert(Priority::Medium);
    let s5 = s4.insert(Priority::Routine);
    assert(!s5.contains(Priority::Deferred));
    assert(!s4.contains(Priority::Routine));
    assert(!s3.contains(Priority::Medium));
    assert(!s2.contains(Priority::High));
    assert(!s1.contains(Priority::Urgent));
    assert(all == s5.insert(Priority::Deferred));
}

/// Building a store from the first `n` ranks' stored buckets gives the store
/// restricted to those ranks.
proof fn lemma_rebuild_through(m: Map<Priority, Seq<Seq<char>>>, n: nat)
    requires
        n <= PRIORITY_COUNT,
    ensures
        from_pairs(pairs_through(m, n)) == m.restrict(Set::new(|p: Priority| rank(p) < n)),
    decreases n,
{
    lemma_rank_bijection();
    if n > 0 {
        lemma_rebuild_through(m, (n - 1) as nat);
        let p = priority_at(n - 1);
        let rest = pairs_through(m, (n - 1) as nat);
        if m.dom().contains(p) {
            assert(rest.push((p, m[p])).drop_last() =~= rest);
        }
        assert(from_pairs(pairs_through(m, n)) =~= m.restrict(Set::new(|q: Priority| rank(q) < n)));
    } else {
        assert(from_pairs(pairs_through(m, n)) =~= m.restrict(Set::new(|q: Priority| rank(q) < n)));
    }
}

/// Storing a store's buckets and building a store from them gives the same
/// store back; in particular a fresh store survives the round trip.
pub proof fn lemma_round_trip(m: Map<Priority, Seq<Seq<char>>>)
    ensures
        from_pairs(stored(m)) == m,
        from_pairs(stored(fresh())) == fresh(),
{
    lemma_rank_bijection();
    lemma_rebuild_through(m, PRIORITY_COUNT as nat);
    assert(m.restrict(Set::new(|p: Priority| rank(p) < PRIORITY_COUNT)) =~= m);
    lemma_rebuild_through(fresh(), PRIORITY_COUNT as nat);
    assert(fresh().restrict(Set::new(|p: Priority| rank(p) < PRIORITY_COUNT)) =~= fresh());
}

/// After adding `x` to `p`, the bucket of `p` exists and listing it shows `x`;
/// adding without a priority is adding to routine.
pub proof fn lemma_add_then_list(m: Map<Priority, Seq<Seq<char>>>, x: Seq<char>, p: Priority)
    ensures
        added(m, x, p).dom().contains(p),
        listing(added(m, x, p), None, None, Some(p), None).contains((p, x)),
        added(m, x, target(None)) == added(m, x, Priority::Routine),
{
    let s = listing(added(m, x, p), None, None, Some(p), None);
    let b = bucket_or_empty(m, p).push(x);
    assert(s == tagged(p, b));
    assert(s[s.len() - 1] == (p, x));
}

/// Removing `x` from every bucket after adding it to `p` leaves no bucket
/// holding `x`, keeps the same buckets, and keeps every other errand in order.
pub proof fn lemma_remove_after_add(m: Map<Priority, Seq<Seq<char>>>, x: Seq<char>, p: Priority)
    ensures
        removed(added(m, x, p), None, seq![x]).dom() == added(m, x, p).dom(),
        forall|q: Priority| #[trigger] removed(added(m, x, p), None, seq![x]).dom().contains(q)
            ==> !removed(added(m, x, p), None, seq![x])[q].contains(x),
        forall|q: Priority| #[trigger] removed(added(m, x, p), None, seq![x]).dom().contains(q)
            ==> removed(added(m, x, p), None, seq![x])[q] == without(bucket_or_empty(m, q), seq![x]),
{
    let a = added(m, x, p);
    let r = removed(a, None, seq![x]);
    assert(r.dom() =~= a.dom());
    assert forall|q: Priority| #[trigger] r.dom().contains(q) implies !r[q].contains(x) && r[q] == without(
        bucket_or_empty(m, q),
        seq![x],
    ) by {
        let pred = |t: Seq<char>| !seq![x].contains(t);
        assert(!pred(x)) by {
            assert(seq![x][0] == x);
        }
        broadcast use vstd::seq_lib::group_filter_ensures;
        if r[q].contains(x) {
            let i = choose|i: int| 0 <= i < r[q].len() && r[q][i] == x;
            assert(pred(r[q][i]));
        }
        if q == p {
            let b = bucket_or_empty(m, p);
            reveal(Seq::filter);
            assert(b.push(x).drop_last() =~= b);
        }
    }
}

/// The filter stage commutes with reversal.
proof fn lemma_filter_reverse<A>(s: Seq<A>, pred: spec_fn(A) -> bool)
    ensures
        s.reverse().filter(pred) == s.filter(pred).reverse(),
    decreases s.len(),
{
    broadcast use Seq::filter_distributes_over_add;
    reveal(Seq::filter);
    if s.len() > 0 {
        let t = s.drop_last();
        let one = seq![s.last()];
        lemma_filter_reverse(t, pred);
        assert(s.reverse() =~= one + t.reverse());
        assert(s =~= t + one);
        let f1 = one.filter(pred);
        assert(one.drop_last() =~= Seq::<A>::empty());
        assert(f1.reverse() =~= f1);
        let ft = t.filter(pred);
        assert((ft + f1).reverse() =~= f1.reverse() + ft.reverse());
    } else {
        assert(s.reverse() =~= s);
        assert(s.filter(pred).reverse() =~= s.filter(pred));
    }
}

/// Without a count, an ascending listing is the exact reverse of a descending
/// one, for the same selection and ignore pattern.
pub proof fn lemma_ascending_reverses(
    m: Map<Priority, Seq<Seq<char>>>,
    ignore: Option<Seq<char>>,
    priority: Option<Priority>,
)
    ensures
        listing(m, ignore, Some(Order::Ascending), priority, None) == listing(
            m,
            ignore,
            Some(Order::Descending),
            priority,
            None,
        ).reverse(),
        listing(m, ignore, None, priority, None) == listing(m, ignore, Some(Order::Descending), priority, None),
{
    if let Some(pattern) = ignore {
        lemma_filter_reverse(
            selection(m, priority),
            |e: (Priority, Seq<char>)| !ignored_by(pattern, e),
        );
    }
}

/// An ignore pattern drops exactly the errands whose text it matches and keeps
/// the others in their order.
pub proof fn lemma_ignore_drops_matches(
    m: Map<Priority, Seq<Seq<char>>>,
    pattern: Seq<char>,
    order: Option<Order>,
    priority: Option<Priority>,
)
    ensures
        listing(m, Some(pattern), order, priority, None) == listing(m, None, order, priority, None).filter(
            |e: (Priority, Seq<char>)| !ignored_by(pattern, e),
        ),
        forall|i: int| 0 <= i < listing(m, Some(pattern), order, priority, None).len()
            ==> !ignored_by(pattern, #[trigger] listing(m, Some(pattern), order, priority, None)[i]),
        forall|e: (Priority, Seq<char>)| #[trigger] listing(m, None, order, priority, None).contains(e)
            && !ignored_by(pattern, e) ==> listing(m, Some(pattern), order, priority, None).contains(e),
{
    broadcast use vstd::seq_lib::group_filter_ensures;
}

/// A count keeps a prefix of the uncounted listing, of length the smaller of
/// the count and the number of errands that pass.
pub proof fn lemma_count_prefix(
    m: Map<Priority, Seq<Seq<char>>>,
    ignore: Option<Seq<char>>,
    order: Option<Order>,
    priority: Option<Priority>,
    n: usize,
)
    ensures
        listing(m, ignore, order, priority, Some(n)).len() == if n < listing(m, ignore, order, priority, None).len() {
            n as int
        } else {
            listing(m, ignore, order, priority, None).len() as int
        },
        listing(m, ignore, order, priority, Some(n)) == listing(m, ignore, order, priority, None).take(
            listing(m, ignore, order, priority, Some(n)).len() as int,
        ),
{
    let full = listing(m, ignore, order, priority, None);
    if n >= full.len() {
        assert(full.take(full.len() as int) =~= full);
    }
}

} // verus!
