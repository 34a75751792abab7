//! The stages of a listing: order, filter by an ignore pattern, truncate.
use crate::cli::{Order, Priority};
use rand::seq::SliceRandom;
use vstd::prelude::*;

verus! {

/// One listed errand, with the priority of the bucket it came from.
#[derive(Debug)]
pub struct Errand {
    pub priority: Priority,
    pub text: String,
}

impl View for Errand {
    type V = (Priority, Seq<char>);

    open spec fn view(&self) -> (Priority, Seq<char>) {
        (self.priority, self.text@)
    }
}

/// The views of a sequence of listed errands.
pub open spec fn entries_of(v: Seq<Errand>) -> Seq<(Priority, Seq<char>)> {
    v.map_values(|e: Errand| e@)
}

/// Whether `pattern` compiles as a regular expression.
pub uninterp spec fn regex_compiles(pattern: Seq<char>) -> bool;

/// Whether the compiled `pattern` matches somewhere in `text`.
pub uninterp spec fn regex_finds(pattern: Seq<char>, text: Seq<char>) -> bool;

/// `f` maps each position of `a` to a distinct position of `b` holding the same item.
pub open spec fn reorders<A>(f: spec_fn(int) -> int, a: Seq<A>, b: Seq<A>) -> bool {
    &&& forall|i: int| 0 <= i < a.len() ==> 0 <= #[trigger] f(i) < b.len() && a[i] == b[f(i)]
    &&& forall|i: int, j: int| 0 <= i < a.len() && 0 <= j < a.len() && i != j ==> #[trigger] f(i) != #[trigger] f(j)
}

/// `a` holds the items of `b`, each as often, in some order.
pub open spec fn is_reordering<A>(a: Seq<A>, b: Seq<A>) -> bool {
    a.len() == b.len() && exists|f: spec_fn(int) -> int| reorders(f, a, b)
}

/// The order stage for a non-random order: the reverse for ascending, else unchanged.
pub open spec fn arranged<A>(s: Seq<A>, order: Option<Order>) -> Seq<A> {
    match order {
        Some(Order::Ascending) => s.reverse(),
        _ => s,
    }
}

/// Whether an entry's text is hit by the ignore pattern.
pub open spec fn ignored_by(pattern: Seq<char>, e: (Priority, Seq<char>)) -> bool {
    regex_finds(pattern, e.1)
}

/// The filter stage: drop every entry whose text the pattern matches.
pub open spec fn unignored(s: Seq<(Priority, Seq<char>)>, ignore: Option<Seq<char>>) -> Seq<(Priority, Seq<char>)> {
    match ignore {
        Some(pattern) => s.filter(|e: (Priority, Seq<char>)| !ignored_by(pattern, e)),
        None => s,
    }
}

/// The truncate stage: keep at most `count` entries from the front.
pub open spec fn capped<A>(s: Seq<A>, count: Option<usize>) -> Seq<A> {
    match count {
        Some(n) => if n < s.len() { s.take(n as int) } else { s },
        None => s,
    }
}

/// The items of `s` whose flag in `hits` is false, in their order.
pub open spec fn kept_by<A>(s: Seq<A>, hits: Seq<bool>) -> Seq<A>
    decreases s.len(),
{
    if s.len() == 0 {
        s
    } else {
        let rest = kept_by(s.drop_last(), hits.take(s.len() - 1));
        if hits[s.len() - 1] {
            rest
        } else {
            rest.push(s.last())
        }
    }
}

/// Relies on `regex::Regex::new`, which fails exactly on patterns that do not
/// compile, and on `Regex::is_match`, whose answer depends on the pattern and
/// the text alone.
#[verifier::external_body]
fn ignore_hits(pattern: &String, items: &Vec<Errand>) -> (r: Result<Vec<bool>, regex::Error>)
    ensures
        r is Ok <==> regex_compiles(pattern@),
        r is Ok ==> r->Ok_0@.len() == items@.len(),
        r is Ok ==> forall|i: int| 0 <= i < items@.len() ==> r->Ok_0@[i] == regex_finds(pattern@, #[trigger] items@[i].text@),
{
    let re = regex::Regex::new(pattern)?;
    Ok(items.iter().map(|e| re.is_match(&e.text)).collect())
}

/// Relies on `rand`'s `SliceRandom::shuffle` with the thread-local generator,
/// which only swaps items: the result is a reordering of the input.
#[verifier::external_body]
fn shuffle(items: &mut Vec<Errand>)
    ensures
        is_reordering(final(items)@, old(items)@),
{
    items.shuffle(&mut rand::thread_rng());
}

#[verifier::external_type_specification]
#[verifier::external_body]
pub struct ExRegexError(regex::Error);

/// Reverses a vector.
pub fn reversed(items: Vec<Errand>) -> (r: Vec<Errand>)
    ensures
        r@ == items@.reverse(),
{
    let ghost orig = items@;
    let mut rest = items;
    let mut r: Vec<Errand> = Vec::new();
    while rest.len() > 0
        invariant
            rest@ == orig.take(rest@.len() as int),
            rest@.len() <= orig.len(),
            r@.len() == orig.len() - rest@.len(),
            forall|k: int| 0 <= k < r@.len() ==> r@[k] == orig[orig.len() - 1 - k],
        decreases rest@.len(),
    {
        let x = rest.pop().unwrap();
        r.push(x);
    }
    assert(r@ =~= orig.reverse());
    r
}

/// The order stage: unchanged for descending or no order, reversed for
/// ascending, and shuffled for random.
pub fn arrange(items: Vec<Errand>, order: &Option<Order>) -> (r: Vec<Errand>)
    ensures
        *order != Some(Order::Random) ==> r@ == arranged(items@, *order),
        *order == Some(Order::Random) ==> is_reordering(r@, items@),
{
    match order {
        Some(Order::Ascending) => reversed(items),
        Some(Order::Random) => {
            let mut items = items;
            shuffle(&mut items);
            items
        },
        _ => items,
    }
}

/// Keeps the items whose flag in `hits` is false, in their order.
pub fn drop_hits(items: Vec<Errand>, hits: &Vec<bool>) -> (r: Vec<Errand>)
    requires
        hits@.len() == items@.len(),
    ensures
        r@ == kept_by(items@, hits@),
        entries_of(r@) == kept_by(entries_of(items@), hits@),
{
    let ghost orig = items@;
    let mut items = items;
    let mut r: Vec<Errand> = Vec::new();
    let mut i: usize = 0;
    while i < items.len()
        invariant
            items@.len() == orig.len(),
            hits@.len() == orig.len(),
            i <= orig.len(),
            forall|j: int| i <= j < orig.len() ==> items@[j] == orig[j],
            r@ == kept_by(orig.take(i as int), hits@.take(i as int)),
            entries_of(r@) == kept_by(entries_of(orig).take(i as int), hits@.take(i as int)),
        decreases orig.len() - i,
    {
        let mut e = Errand { priority: Priority::Emergency, text: String::new() };
        items.set_and_swap(i, &mut e);
        let ghost old_r = r@;
        proof {
            assert(orig.take(i + 1).drop_last() =~= orig.take(i as int));
            assert(entries_of(orig).take(i + 1).drop_last() =~= entries_of(orig).take(i as int));
            assert(hits@.take(i + 1).take(i as int) =~= hits@.take(i as int));
        }
        if !hits[i] {
            r.push(e);
            assert(entries_of(r@) =~= entries_of(old_r).push(e@));
        }
        i = i + 1;
    }
    assert(orig.take(orig.len() as int) =~= orig);
    assert(hits@.take(orig.len() as int) =~= hits@);
    assert(entries_of(orig).take(orig.len() as int) =~= entries_of(orig));
    r
}

/// The truncate stage: keeps the first `count` items, where a count is given.
pub fn cap(items: Vec<Errand>, count: &Option<usize>) -> (r: Vec<Errand>)
    ensures
        r@ == capped(items@, *count),
{
    let mut items = items;
    if let Some(n) = count {
        items.truncate(*n);
    }
    items
}

/// The pattern of an optional ignore string.
pub open spec fn pattern_of(ignore: Option<String>) -> Option<Seq<char>> {
    match ignore {
        Some(p) => Some(p@),
        None => None,
    }
}

/// The filter stage: drops every item whose text the ignore pattern matches,
/// where one is given; fails if the pattern does not compile.
pub fn drop_ignored(items: Vec<Errand>, ignore: &Option<String>) -> (r: Result<Vec<Errand>, regex::Error>)
    ensures
        r is Err <==> (ignore is Some && !regex_compiles(ignore->Some_0@)),
        r is Ok ==> entries_of(r->Ok_0@) == unignored(entries_of(items@), pattern_of(*ignore)),
{
    match ignore {
        None => Ok(items),
        Some(pattern) => {
            let hits = ignore_hits(pattern, &items)?;
            let r = drop_hits(items, &hits);
            proof {
                let s = entries_of(items@);
                assert forall|i: int| 0 <= i < s.len() implies hits@[i] == ignored_by(pattern@, #[trigger] s[i]) by {
                    assert(s[i].1 == items@[i].text@);
                }
                lemma_hits_filter(s, hits@, pattern@);
            }
            Ok(r)
        },
    }
}

/// Viewing commutes with the order stage.
pub proof fn lemma_entries_arranged(s: Seq<Errand>, order: Option<Order>)
    ensures
        entries_of(arranged(s, order)) == arranged(entries_of(s), order),
{
    assert(entries_of(s.reverse()) =~= entries_of(s).reverse());
}

/// Viewing commutes with the truncate stage.
pub proof fn lemma_entries_capped(s: Seq<Errand>, count: Option<usize>)
    ensures
        entries_of(capped(s, count)) == capped(entries_of(s), count),
{
    if let Some(n) = count {
        if n < s.len() {
            assert(entries_of(s.take(n as int)) =~= entries_of(s).take(n as int));
        }
    }
}

/// Viewing keeps a reordering a reordering.
pub proof fn lemma_entries_reordering(a: Seq<Errand>, b: Seq<Errand>)
    requires
        is_reordering(a, b),
    ensures
        is_reordering(entries_of(a), entries_of(b)),
{
    let f = choose|f: spec_fn(int) -> int| reorders(f, a, b);
    assert(reorders(f, entries_of(a), entries_of(b)));
}

/// Filtering by flags that record where the pattern matches is filtering by
/// the pattern.
pub proof fn lemma_hits_filter(s: Seq<(Priority, Seq<char>)>, hits: Seq<bool>, pattern: Seq<char>)
    requires
        hits.len() == s.len(),
        forall|i: int| 0 <= i < s.len() ==> hits[i] == ignored_by(pattern, #[trigger] s[i]),
    ensures
        kept_by(s, hits) == s.filter(|e: (Priority, Seq<char>)| !ignored_by(pattern, e)),
    decreases s.len(),
{
    reveal(Seq::filter);
    if s.len() > 0 {
        let t = s.drop_last();
        let h = hits.take(s.len() - 1);
        assert forall|i: int| 0 <= i < t.len() implies h[i] == ignored_by(pattern, #[trigger] t[i]) by {
            assert(s[i] == t[i]);
        }
        lemma_hits_filter(t, h, pattern);
    }
}

} // verus!
