//! The errand store: one bucket of errands per priority, in rank order.
use crate::cli::{lemma_rank_bijection, priority_at, rank, Order, Priority, PRIORITY_COUNT};
use crate::listing::{
    arrange, arranged, cap, capped, drop_ignored, entries_of, is_reordering,
    lemma_entries_arranged, lemma_entries_capped, lemma_entries_reordering, pattern_of,
    regex_compiles, unignored, Errand,
};
use vstd::prelude::*;

verus! {

/// The views of a sequence of strings.
pub open spec fn texts(v: Seq<String>) -> Seq<Seq<char>> {
    v.map_values(|s: String| s@)
}

/// A bucket's errands, or none where the bucket is absent.
pub open spec fn bucket_or_empty(m: Map<Priority, Seq<Seq<char>>>, p: Priority) -> Seq<Seq<char>> {
    if m.dom().contains(p) {
        m[p]
    } else {
        Seq::empty()
    }
}

/// A fresh store: every priority present, every bucket empty.
pub open spec fn fresh() -> Map<Priority, Seq<Seq<char>>> {
    Map::new(|p: Priority| true, |p: Priority| Seq::empty())
}

/// The priority an errand goes to: the given one, or routine.
pub open spec fn target(priority: Option<Priority>) -> Priority {
    match priority {
        Some(p) => p,
        None => Priority::Routine,
    }
}

/// The store after appending `x` to the bucket of `p`, which is created if absent.
pub open spec fn added(m: Map<Priority, Seq<Seq<char>>>, x: Seq<char>, p: Priority) -> Map<Priority, Seq<Seq<char>>> {
    m.insert(p, bucket_or_empty(m, p).push(x))
}

/// The store after removing one bucket, or every bucket.
pub open spec fn cleaned(m: Map<Priority, Seq<Seq<char>>>, priority: Option<Priority>) -> Map<Priority, Seq<Seq<char>>> {
    match priority {
        Some(p) => m.remove(p),
        None => Map::empty(),
    }
}

/// The items that are not among `names`, in their order.
pub open spec fn without(items: Seq<Seq<char>>, names: Seq<Seq<char>>) -> Seq<Seq<char>> {
    items.filter(|t: Seq<char>| !names.contains(t))
}

/// The store after dropping the errands named in `names`, from one bucket
/// (created if absent) or from every present bucket.
pub open spec fn removed(
    m: Map<Priority, Seq<Seq<char>>>,
    priority: Option<Priority>,
    names: Seq<Seq<char>>,
) -> Map<Priority, Seq<Seq<char>>> {
    match priority {
        Some(p) => m.insert(p, without(bucket_or_empty(m, p), names)),
        None => Map::new(|p: Priority| m.dom().contains(p), |p: Priority| without(m[p], names)),
    }
}

/// The errands of one bucket, each with its priority.
pub open spec fn tagged(p: Priority, items: Seq<Seq<char>>) -> Seq<(Priority, Seq<char>)> {
    items.map_values(|t: Seq<char>| (p, t))
}

/// The errands of the buckets of the first `n` ranks, in rank order.
pub open spec fn entries_through(m: Map<Priority, Seq<Seq<char>>>, n: nat) -> Seq<(Priority, Seq<char>)>
    decreases n,
{
    if n == 0 {
        Seq::empty()
    } else {
        entries_through(m, (n - 1) as nat) + tagged(priority_at(n - 1), bucket_or_empty(m, priority_at(n - 1)))
    }
}

/// The select stage: one bucket's errands, or all errands in rank order.
pub open spec fn selection(m: Map<Priority, Seq<Seq<char>>>, priority: Option<Priority>) -> Seq<(Priority, Seq<char>)> {
    match priority {
        Some(p) => tagged(p, bucket_or_empty(m, p)),
        None => entries_through(m, PRIORITY_COUNT as nat),
    }
}

/// What a listing with a non-random order returns.
pub open spec fn listing(
    m: Map<Priority, Seq<Seq<char>>>,
    ignore: Option<Seq<char>>,
    order: Option<Order>,
    priority: Option<Priority>,
    count: Option<usize>,
) -> Seq<(Priority, Seq<char>)> {
    capped(unignored(arranged(selection(m, priority), order), ignore), count)
}

/// The present buckets of the first `n` ranks, in rank order.
pub open spec fn pairs_through(m: Map<Priority, Seq<Seq<char>>>, n: nat) -> Seq<(Priority, Seq<Seq<char>>)>
    decreases n,
{
    if n == 0 {
        Seq::empty()
    } else {
        let p = priority_at(n - 1);
        let rest = pairs_through(m, (n - 1) as nat);
        if m.dom().contains(p) {
            rest.push((p, m[p]))
        } else {
            rest
        }
    }
}

/// The present buckets in rank order: what a stored list holds.
pub open spec fn stored(m: Map<Priority, Seq<Seq<char>>>) -> Seq<(Priority, Seq<Seq<char>>)> {
    pairs_through(m, PRIORITY_COUNT as nat)
}

/// The store built from buckets in turn; a later bucket of the same priority
/// replaces an earlier one.
pub open spec fn from_pairs(s: Seq<(Priority, Seq<Seq<char>>)>) -> Map<Priority, Seq<Seq<char>>>
    decreases s.len(),
{
    if s.len() == 0 {
        Map::empty()
    } else {
        from_pairs(s.drop_last()).insert(s.last().0, s.last().1)
    }
}

/// The views of buckets given as vectors.
pub open spec fn pair_views(s: Seq<(Priority, Vec<String>)>) -> Seq<(Priority, Seq<Seq<char>>)> {
    s.map_values(|e: (Priority, Vec<String>)| (e.0, texts(e.1@)))
}

/// Why a listing failed.
#[derive(Debug)]
pub enum ListError {
    /// The requested priority has no bucket.
    PriorityNotFound,
    /// The ignore pattern is not a valid regular expression.
    InvalidPattern(regex::Error),
}

/// An errand list: for each present priority, its errands in insertion order.
pub struct Errands {
    buckets: Vec<Option<Vec<String>>>,
}

impl View for Errands {
    type V = Map<Priority, Seq<Seq<char>>>;

    closed spec fn view(&self) -> Map<Priority, Seq<Seq<char>>> {
        Map::new(
            |p: Priority| self.buckets@[rank(p)] is Some,
            |p: Priority| texts(self.buckets@[rank(p)]->Some_0@),
        )
    }
}

impl Errands {
    /// The store holds one slot per priority.
    pub closed spec fn wf(&self) -> bool {
        self.buckets@.len() == PRIORITY_COUNT
    }

    /// A bucket's errands at its rank, or none where it is absent.
    proof fn lemma_slot(&self, r: int)
        requires
            self.wf(),
            0 <= r < PRIORITY_COUNT,
        ensures
            self@.dom().contains(priority_at(r)) <==> self.buckets@[r] is Some,
            self.buckets@[r] is Some ==> bucket_or_empty(self@, priority_at(r)) == texts(self.buckets@[r]->Some_0@),
            self.buckets@[r] is None ==> bucket_or_empty(self@, priority_at(r)) == Seq::<Seq<char>>::empty(),
    {
        lemma_rank_bijection();
    }

    /// A store with all six buckets, each empty.
    pub fn new() -> (e: Errands)
        ensures
            e.wf(),
            e@ == fresh(),
    {
        let mut buckets: Vec<Option<Vec<String>>> = Vec::new();
        let mut i: usize = 0;
        while i < PRIORITY_COUNT
            invariant
                i <= PRIORITY_COUNT,
                buckets@.len() == i,
                forall|j: int| 0 <= j < i ==> buckets@[j] is Some && buckets@[j]->Some_0@.len() == 0,
            decreases PRIORITY_COUNT - i,
        {
            let v: Vec<String> = Vec::new();
            buckets.push(Some(v));
            i = i + 1;
        }
        let e = Errands { buckets };
        proof {
            lemma_rank_bijection();
            assert(e@ =~= fresh()) by {
                assert forall|p: Priority| #[trigger] e@.dom().contains(p) by {}
                assert forall|p: Priority| e@[p] =~= #[trigger] fresh()[p] by {}
            }
        }
        e
    }

    /// The priorities that have a bucket, in rank order.
    pub fn keys(&self) -> (r: Vec<Priority>)
        requires
            self.wf(),
        ensures
            r@ == stored(self@).map_values(|e: (Priority, Seq<Seq<char>>)| e.0),
    {
        let mut out: Vec<Priority> = Vec::new();
        let mut r: usize = 0;
        while r < PRIORITY_COUNT
            invariant
                self.wf(),
                r <= PRIORITY_COUNT,
                out@ == pairs_through(self@, r as nat).map_values(|e: (Priority, Seq<Seq<char>>)| e.0),
            decreases PRIORITY_COUNT - r,
        {
            proof {
                self.lemma_slot(r as int);
            }
            let ghost before = out@;
            if self.buckets[r].is_some() {
                out.push(Priority::from_rank(r));
            }
            proof {
                assert(out@ =~= pairs_through(self@, (r + 1) as nat).map_values(|e: (Priority, Seq<Seq<char>>)| e.0));
            }
            r = r + 1;
        }
        out
    }

    /// The bucket of `p`, where present.
    pub fn bucket(&self, p: &Priority) -> (r: Option<&Vec<String>>)
        requires
            self.wf(),
        ensures
            r is Some <==> self@.dom().contains(*p),
            r is Some ==> texts(r->Some_0@) == self@[*p],
    {
        proof {
            lemma_rank_bijection();
        }
        self.buckets[p.rank()].as_ref()
    }

    /// The present buckets, in rank order, with copies of their errands.
    pub fn contents(&self) -> (r: Vec<(Priority, Vec<String>)>)
        requires
            self.wf(),
        ensures
            pair_views(r@) == stored(self@),
    {
        let mut out: Vec<(Priority, Vec<String>)> = Vec::new();
        let mut r: usize = 0;
        while r < PRIORITY_COUNT
            invariant
                self.wf(),
                r <= PRIORITY_COUNT,
                pair_views(out@) == pairs_through(self@, r as nat),
            decreases PRIORITY_COUNT - r,
        {
            proof {
                self.lemma_slot(r as int);
            }
            let ghost before = out@;
            match &self.buckets[r] {
                Some(items) => {
                    let copy = copy_texts(items);
                    out.push((Priority::from_rank(r), copy));
                },
                None => {},
            }
            proof {
                assert(pair_views(out@) =~= pairs_through(self@, (r + 1) as nat));
            }
            r = r + 1;
        }
        out
    }

    /// The store made of the given buckets; priorities without one are absent,
    /// and a later bucket of the same priority replaces an earlier one.
    pub fn from_buckets(pairs: Vec<(Priority, Vec<String>)>) -> (e: Errands)
        ensures
            e.wf(),
            e@ == from_pairs(pair_views(pairs@)),
    {
        let ghost orig = pair_views(pairs@);
        let ghost len = pairs@.len();
        let mut pairs = pairs;
        let mut buckets: Vec<Option<Vec<String>>> = Vec::new();
        let mut k: usize = 0;
        while k < PRIORITY_COUNT
            invariant
                k <= PRIORITY_COUNT,
                buckets@.len() == k,
                forall|j: int| 0 <= j < k ==> buckets@[j] is None,
            decreases PRIORITY_COUNT - k,
        {
            buckets.push(None);
            k = k + 1;
        }
        let mut e = Errands { buckets };
        proof {
            assert(e@ =~= from_pairs(orig.take(0)));
        }
        let mut i: usize = 0;
        while i < pairs.len()
            invariant
                e.wf(),
                pairs@.len() == len,
                orig.len() == len,
                i <= len,
                forall|j: int| i <= j < len ==> (#[trigger] pairs@[j]).0 == orig[j].0 && texts(pairs@[j].1@) == orig[j].1,
                e@ == from_pairs(orig.take(i as int)),
            decreases len - i,
        {
            let mut pair: (Priority, Vec<String>) = (Priority::Emergency, Vec::new());
            pairs.set_and_swap(i, &mut pair);
            let ghost prev = e@;
            let (p, items) = pair;
            let r = p.rank();
            e.buckets.set(r, Some(items));
            proof {
                lemma_rank_bijection();
                assert(orig.take(i + 1).drop_last() =~= orig.take(i as int));
                let goal = from_pairs(orig.take(i + 1));
                assert(goal == prev.insert(p, orig[i as int].1));
                assert forall|q: Priority| #[trigger] e@.dom().contains(q) <==> goal.dom().contains(q) by {
                    if q != p {
                        assert(rank(q) != rank(p));
                    }
                }
                assert forall|q: Priority| #[trigger] e@.dom().contains(q) implies e@[q] == goal[q] by {
                    if q != p {
                        assert(rank(q) != rank(p));
                    }
                }
                assert(e@ =~= goal);
            }
            i = i + 1;
        }
        assert(orig.take(len as int) =~= orig);
        e
    }

    /// Appends an errand to the bucket of `priority`, routine where none is
    /// given; an absent bucket is created.
    pub fn add(&mut self, errand: String, priority: &Option<Priority>)
        requires
            old(self).wf(),
        ensures
            final(self).wf(),
            final(self)@ == added(old(self)@, errand@, target(*priority)),
    {
        let p = match priority {
            Some(p) => *p,
            None => Priority::Routine,
        };
        let r = p.rank();
        let ghost x = errand@;
        let mut slot: Option<Vec<String>> = None;
        self.buckets.set_and_swap(r, &mut slot);
        let mut list = match slot {
            Some(v) => v,
            None => Vec::new(),
        };
        let ghost before = list@;
        list.push(errand);
        self.buckets.set(r, Some(list));
        proof {
            lemma_rank_bijection();
            old(self).lemma_slot(r as int);
            assert(bucket_or_empty(old(self)@, p) == texts(before));
            assert(texts(list@) =~= texts(before).push(x));
            let goal = added(old(self)@, x, p);
            assert forall|q: Priority| #[trigger] self@.dom().contains(q) <==> goal.dom().contains(q) by {
                if q != p {
                    assert(rank(q) != rank(p));
                }
            }
            assert forall|q: Priority| #[trigger] self@.dom().contains(q) implies self@[q] == goal[q] by {
                if q != p {
                    assert(rank(q) != rank(p));
                }
            }
            assert(self@ =~= goal);
        }
    }

    /// Removes the bucket of `priority` (key and errands), or every bucket
    /// where none is given.
    pub fn clean(&mut self, priority: &Option<Priority>)
        requires
            old(self).wf(),
        ensures
            final(self).wf(),
            final(self)@ == cleaned(old(self)@, *priority),
    {
        match priority {
            Some(p) => {
                self.buckets.set(p.rank(), None);
                proof {
                    lemma_rank_bijection();
                    assert(self@ =~= cleaned(old(self)@, *priority));
                }
            },
            None => {
                let mut i: usize = 0;
                while i < PRIORITY_COUNT
                    invariant
                        i <= PRIORITY_COUNT,
                        self.buckets@.len() == PRIORITY_COUNT,
                        forall|j: int| 0 <= j < i ==> self.buckets@[j] is None,
                    decreases PRIORITY_COUNT - i,
                {
                    self.buckets.set(i, None);
                    i = i + 1;
                }
                proof {
                    lemma_rank_bijection();
                    assert(self@ =~= cleaned(old(self)@, *priority));
                }
            },
        }
    }

    /// Drops every errand named in `errands` from the bucket of `priority`
    /// (an absent bucket is created empty), or from every present bucket where
    /// no priority is given. Matching is exact.
    pub fn remove(&mut self, priority: &Option<Priority>, errands: Vec<String>)
        requires
            old(self).wf(),
        ensures
            final(self).wf(),
            final(self)@ == removed(old(self)@, *priority, texts(errands@)),
    {
        let ghost names = texts(errands@);
        match priority {
            Some(p) => {
                let r = p.rank();
                let mut slot: Option<Vec<String>> = None;
                self.buckets.set_and_swap(r, &mut slot);
                let list = match slot {
                    Some(v) => v,
                    None => Vec::new(),
                };
                let ghost before = list@;
                let kept = without_names(list, &errands);
                self.buckets.set(r, Some(kept));
                proof {
                    lemma_rank_bijection();
                    old(self).lemma_slot(r as int);
                    assert(bucket_or_empty(old(self)@, *p) == texts(before));
                    let goal = removed(old(self)@, *priority, names);
                    assert forall|q: Priority| #[trigger] self@.dom().contains(q) <==> goal.dom().contains(q) by {
                        if q != *p {
                            assert(rank(q) != rank(*p));
                        }
                    }
                    assert forall|q: Priority| #[trigger] self@.dom().contains(q) implies self@[q] == goal[q] by {
                        if q != *p {
                            assert(rank(q) != rank(*p));
                        }
                    }
                    assert(self@ =~= goal);
                }
            },
            None => {
                let mut i: usize = 0;
                while i < PRIORITY_COUNT
                    invariant
                        i <= PRIORITY_COUNT,
                        self.buckets@.len() == PRIORITY_COUNT,
                        old(self).buckets@.len() == PRIORITY_COUNT,
                        names == texts(errands@),
                        forall|j: int| 0 <= j < i ==> (#[trigger] self.buckets@[j] is Some <==> old(self).buckets@[j] is Some),
                        forall|j: int| 0 <= j < i && self.buckets@[j] is Some ==>
                            texts(#[trigger] self.buckets@[j]->Some_0@) == without(texts(old(self).buckets@[j]->Some_0@), names),
                        forall|j: int| i <= j < PRIORITY_COUNT ==> #[trigger] self.buckets@[j] == old(self).buckets@[j],
                    decreases PRIORITY_COUNT - i,
                {
                    let mut slot: Option<Vec<String>> = None;
                    self.buckets.set_and_swap(i, &mut slot);
                    match slot {
                        Some(v) => {
                            let kept = without_names(v, &errands);
                            self.buckets.set(i, Some(kept));
                        },
                        None => {},
                    }
                    i = i + 1;
                }
                proof {
                    lemma_rank_bijection();
                    assert(self@ =~= removed(old(self)@, *priority, names));
                }
            },
        }
    }

    /// The select stage: the errands of one bucket, or of all buckets in rank
    /// order; `None` where the requested bucket is absent.
    pub fn select(&self, priority: &Option<Priority>) -> (r: Option<Vec<Errand>>)
        requires
            self.wf(),
        ensures
            r is None <==> (priority is Some && !self@.dom().contains(priority->Some_0)),
            r is Some ==> entries_of(r->Some_0@) == selection(self@, *priority),
    {
        let mut out: Vec<Errand> = Vec::new();
        match priority {
            Some(p) => {
                let r = p.rank();
                proof {
                    lemma_rank_bijection();
                    self.lemma_slot(r as int);
                }
                match &self.buckets[r] {
                    Some(items) => {
                        tag_into(&mut out, *p, items);
                        assert(entries_of(out@) =~= selection(self@, *priority));
                        Some(out)
                    },
                    None => None,
                }
            },
            None => {
                let mut r: usize = 0;
                while r < PRIORITY_COUNT
                    invariant
                        self.wf(),
                        r <= PRIORITY_COUNT,
                        entries_of(out@) == entries_through(self@, r as nat),
                    decreases PRIORITY_COUNT - r,
                {
                    proof {
                        self.lemma_slot(r as int);
                    }
                    let p = Priority::from_rank(r);
                    match &self.buckets[r] {
                        Some(items) => {
                            tag_into(&mut out, p, items);
                        },
                        None => {
                            assert(entries_of(out@) =~= entries_through(self@, (r + 1) as nat));
                        },
                    }
                    r = r + 1;
                }
                Some(out)
            },
        }
    }

    /// Lists errands: select one bucket or all, order them, drop those the
    /// ignore pattern matches, and keep the first `count`.
    pub fn list(
        &self,
        ignore: &Option<String>,
        order: &Option<Order>,
        priority: &Option<Priority>,
        count: &Option<usize>,
    ) -> (r: Result<Vec<Errand>, ListError>)
        requires
            self.wf(),
        ensures
            (r matches Err(ListError::PriorityNotFound)) <==> (priority is Some && !self@.dom().contains(priority->Some_0)),
            (r matches Err(ListError::InvalidPattern(_))) <==> ((priority is None || self@.dom().contains(priority->Some_0))
                && ignore is Some && !regex_compiles(ignore->Some_0@)),
            r is Ok && *order != Some(Order::Random) ==>
                entries_of(r->Ok_0@) == listing(self@, pattern_of(*ignore), *order, *priority, *count),
            r is Ok && *order == Some(Order::Random) ==> exists|s: Seq<(Priority, Seq<char>)>|
                is_reordering(s, selection(self@, *priority))
                    && entries_of(r->Ok_0@) == #[trigger] capped(unignored(s, pattern_of(*ignore)), *count),
    {
        let selected = match self.select(priority) {
            Some(v) => v,
            None => {
                return Err(ListError::PriorityNotFound);
            },
        };
        let ordered = arrange(selected, order);
        let ghost ordered_view = ordered@;
        let kept = match drop_ignored(ordered, ignore) {
            Ok(v) => v,
            Err(e) => {
                return Err(ListError::InvalidPattern(e));
            },
        };
        let r = cap(kept, count);
        proof {
            lemma_entries_capped(kept@, *count);
            if *order == Some(Order::Random) {
                lemma_entries_reordering(ordered_view, selected@);
                assert(is_reordering(entries_of(ordered_view), selection(self@, *priority)));
            } else {
                lemma_entries_arranged(selected@, *order);
            }
        }
        Ok(r)
    }
}

/// A copy of a vector of strings.
fn copy_texts(v: &Vec<String>) -> (r: Vec<String>)
    ensures
        texts(r@) == texts(v@),
{
    let mut r: Vec<String> = Vec::new();
    let mut i: usize = 0;
    while i < v.len()
        invariant
            i <= v@.len(),
            texts(r@) == texts(v@).take(i as int),
        decreases v@.len() - i,
    {
        let t = v[i].clone();
        assert(t@ == v@[i as int]@);
        let ghost before = r@;
        r.push(t);
        assert(texts(r@) =~= texts(before).push(t@));
        assert(texts(v@).take(i + 1) =~= texts(v@).take(i as int).push(t@));
        i = i + 1;
    }
    assert(texts(v@).take(i as int) =~= texts(v@));
    r
}

/// Appends each errand of `items`, tagged with `p`.
fn tag_into(out: &mut Vec<Errand>, p: Priority, items: &Vec<String>)
    ensures
        entries_of(final(out)@) == entries_of(old(out)@) + tagged(p, texts(items@)),
{
    let ghost start = entries_of(out@);
    let mut j: usize = 0;
    while j < items.len()
        invariant
            j <= items@.len(),
            start == entries_of(old(out)@),
            entries_of(out@) == start + tagged(p, texts(items@)).take(j as int),
        decreases items@.len() - j,
    {
        let ghost before = out@;
        out.push(Errand { priority: p, text: items[j].clone() });
        proof {
            assert(entries_of(out@) =~= entries_of(before).push((p, items@[j as int]@)));
            assert(tagged(p, texts(items@)).take(j + 1) =~= tagged(p, texts(items@)).take(j as int).push(
                (p, items@[j as int]@),
            ));
        }
        j = j + 1;
    }
    assert(tagged(p, texts(items@)).take(j as int) =~= tagged(p, texts(items@)));
}

/// Whether `t` is among `names`.
fn is_named(names: &Vec<String>, t: &String) -> (b: bool)
    ensures
        b == texts(names@).contains(t@),
{
    let mut i: usize = 0;
    while i < names.len()
        invariant
            i <= names@.len(),
            forall|j: int| 0 <= j < i ==> names@[j]@ != t@,
        decreases names@.len() - i,
    {
        if names[i] == *t {
            assert(texts(names@)[i as int] == t@);
            return true;
        }
        i = i + 1;
    }
    proof {
        if texts(names@).contains(t@) {
            let k = choose|k: int| 0 <= k < texts(names@).len() && texts(names@)[k] == t@;
            assert(names@[k]@ == t@);
        }
    }
    false
}

/// The items not named in `names`, in their order.
fn without_names(items: Vec<String>, names: &Vec<String>) -> (r: Vec<String>)
    ensures
        texts(r@) == without(texts(items@), texts(names@)),
{
    let ghost orig = texts(items@);
    let ghost n = texts(names@);
    let ghost len = items@.len();
    let mut items = items;
    let mut r: Vec<String> = Vec::new();
    let mut i: usize = 0;
    while i < items.len()
        invariant
            items@.len() == len,
            orig.len() == len,
            i <= len,
            n == texts(names@),
            forall|j: int| i <= j < len ==> #[trigger] items@[j]@ == orig[j],
            texts(r@) == without(orig.take(i as int), n),
        decreases len - i,
    {
        let mut t = String::new();
        items.set_and_swap(i, &mut t);
        let ghost before = r@;
        let named = is_named(names, &t);
        proof {
            reveal(Seq::filter);
            assert(orig.take(i + 1).drop_last() =~= orig.take(i as int));
            assert(orig.take(i + 1).last() == t@);
        }
        if !named {
            r.push(t);
            assert(texts(r@) =~= texts(before).push(orig[i as int]));
        }
        i = i + 1;
    }
    assert(orig.take(len as int) =~= orig);
    r
}

} // verus!
