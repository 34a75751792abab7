use errands::cli::{candidates, resolve, Location, Order, Priority};
use errands::errands::{Errands, ListError};
use errands::listing::{cap, drop_hits, drop_ignored, reversed, Errand};

const PRIORITIES: [Priority; 6] = [
    Priority::Emergency,
    Priority::Urgent,
    Priority::High,
    Priority::Medium,
    Priority::Routine,
    Priority::Deferred,
];

fn texts(v: &[Errand]) -> Vec<String> {
    v.iter().map(|e| e.text.clone()).collect()
}

fn sample() -> Errands {
    let mut e = Errands::new();
    e.add(String::from("call bank"), &Some(Priority::Urgent));
    e.add(String::from("buy milk"), &Some(Priority::Routine));
    e.add(String::from("water plants"), &Some(Priority::Routine));
    e
}

#[test]
fn it_works() {
    assert_eq!(2 + 2, 4);
}

#[test]
fn construction() {
    let errands = Errands::new();
    assert_eq!(errands.keys().len(), 6);

    errands
        .keys()
        .iter()
        .zip(PRIORITIES.iter())
        .for_each(|(found, expected)| assert_eq!(found, expected));
}

#[test]
fn add() {
    let mut errands = Errands::new();
    errands.add(String::from("Something"), &Some(Priority::Emergency));
    assert!(errands
        .bucket(&Priority::Emergency)
        .unwrap()
        .contains(&String::from("Something")));
}

#[test]
fn remove() {
    let mut errands = Errands::new();
    errands.add(String::from("Something"), &None);
    errands.remove(&None, vec![String::from("Something")]);
    assert!(PRIORITIES
        .iter()
        .all(|p| errands.bucket(p).unwrap().is_empty()));
}

#[test]
fn fresh_store_has_six_empty_buckets() {
    let e = Errands::new();
    for p in PRIORITIES.iter() {
        assert_eq!(e.bucket(p).map(|b| b.len()), Some(0));
    }
    let contents = e.contents();
    assert_eq!(contents.len(), 6);
    assert!(contents.iter().all(|(_, items)| items.is_empty()));
}

#[test]
fn contents_round_trip() {
    let mut e = sample();
    e.clean(&Some(Priority::High));
    let back = Errands::from_buckets(e.contents());
    assert_eq!(back.keys(), e.keys());
    for p in PRIORITIES.iter() {
        assert_eq!(back.bucket(p), e.bucket(p));
    }
    let fresh = Errands::from_buckets(Errands::new().contents());
    assert_eq!(fresh.keys(), PRIORITIES.to_vec());
}

#[test]
fn from_buckets_later_bucket_wins() {
    let e = Errands::from_buckets(vec![
        (Priority::High, vec![String::from("a")]),
        (Priority::Urgent, vec![]),
        (Priority::High, vec![String::from("b"), String::from("c")]),
    ]);
    assert_eq!(e.keys(), vec![Priority::Urgent, Priority::High]);
    assert_eq!(
        e.bucket(&Priority::High).unwrap(),
        &vec![String::from("b"), String::from("c")]
    );
    assert!(e.bucket(&Priority::Routine).is_none());
}

#[test]
fn add_then_list_shows_errand() {
    let mut e = Errands::new();
    e.add(String::from("x"), &Some(Priority::Medium));
    let r = e.list(&None, &None, &Some(Priority::Medium), &None).unwrap();
    assert_eq!(texts(&r), vec![String::from("x")]);
    assert_eq!(r[0].priority, Priority::Medium);
}

#[test]
fn add_without_priority_goes_to_routine() {
    let mut a = Errands::new();
    a.add(String::from("x"), &None);
    let mut b = Errands::new();
    b.add(String::from("x"), &Some(Priority::Routine));
    assert_eq!(a.contents(), b.contents());
    assert_eq!(a.bucket(&Priority::Routine).unwrap(), &vec![String::from("x")]);
}

#[test]
fn add_recreates_cleaned_bucket() {
    let mut e = Errands::new();
    e.clean(&Some(Priority::High));
    assert!(e.bucket(&Priority::High).is_none());
    e.add(String::from("y"), &Some(Priority::High));
    assert_eq!(e.bucket(&Priority::High).unwrap(), &vec![String::from("y")]);
}

#[test]
fn remove_everywhere_after_add() {
    let mut e = sample();
    e.add(String::from("buy milk"), &Some(Priority::Emergency));
    e.remove(&None, vec![String::from("buy milk")]);
    for p in PRIORITIES.iter() {
        assert!(!e.bucket(p).unwrap().contains(&String::from("buy milk")));
    }
    assert_eq!(e.bucket(&Priority::Urgent).unwrap(), &vec![String::from("call bank")]);
    assert_eq!(e.bucket(&Priority::Routine).unwrap(), &vec![String::from("water plants")]);
}

#[test]
fn remove_is_exact_and_case_sensitive() {
    let mut e = sample();
    e.remove(&Some(Priority::Routine), vec![String::from("Buy milk"), String::from("buy")]);
    assert_eq!(
        e.bucket(&Priority::Routine).unwrap(),
        &vec![String::from("buy milk"), String::from("water plants")]
    );
}

#[test]
fn remove_from_absent_bucket_creates_it() {
    let mut e = sample();
    e.clean(&Some(Priority::High));
    e.remove(&Some(Priority::High), vec![String::from("anything")]);
    assert_eq!(e.bucket(&Priority::High).map(|b| b.len()), Some(0));
}

#[test]
fn remove_keeps_duplicates_of_other_names() {
    let mut e = Errands::new();
    e.add(String::from("a"), &None);
    e.add(String::from("b"), &None);
    e.add(String::from("a"), &None);
    e.add(String::from("b"), &None);
    e.remove(&None, vec![String::from("a")]);
    assert_eq!(
        e.bucket(&Priority::Routine).unwrap(),
        &vec![String::from("b"), String::from("b")]
    );
}

#[test]
fn clean_all_leaves_no_bucket() {
    let mut e = sample();
    e.clean(&None);
    assert!(e.keys().is_empty());
    assert!(matches!(
        e.list(&None, &None, &Some(Priority::Routine), &None),
        Err(ListError::PriorityNotFound)
    ));
    assert!(e.list(&None, &None, &None, &None).unwrap().is_empty());
}

#[test]
fn scenario_bank_milk_plants() {
    let mut e = sample();
    let all = e.list(&None, &None, &None, &None).unwrap();
    assert_eq!(texts(&all), vec!["call bank", "buy milk", "water plants"]);
    let routine = e.list(&None, &None, &Some(Priority::Routine), &None).unwrap();
    assert_eq!(texts(&routine), vec!["buy milk", "water plants"]);
    e.remove(&Some(Priority::Routine), vec![String::from("buy milk")]);
    assert_eq!(e.bucket(&Priority::Routine).unwrap(), &vec![String::from("water plants")]);
    e.clean(&Some(Priority::Urgent));
    assert!(!e.keys().contains(&Priority::Urgent));
    assert!(matches!(
        e.list(&None, &None, &Some(Priority::Urgent), &None),
        Err(ListError::PriorityNotFound)
    ));
}

#[test]
fn ascending_is_reverse_of_descending() {
    let e = sample();
    let down = e.list(&None, &Some(Order::Descending), &None, &None).unwrap();
    let up = e.list(&None, &Some(Order::Ascending), &None, &None).unwrap();
    let mut rev = texts(&down);
    rev.reverse();
    assert_eq!(texts(&up), rev);
    assert_eq!(texts(&up), vec!["water plants", "buy milk", "call bank"]);
    let plain = e.list(&None, &None, &None, &None).unwrap();
    assert_eq!(texts(&plain), texts(&down));
}

#[test]
fn ascending_with_ignore_is_reverse() {
    let e = sample();
    let ig = Some(String::from("^b"));
    let down = e.list(&ig, &Some(Order::Descending), &None, &None).unwrap();
    let up = e.list(&ig, &Some(Order::Ascending), &None, &None).unwrap();
    assert_eq!(texts(&down), vec!["call bank", "water plants"]);
    assert_eq!(texts(&up), vec!["water plants", "call bank"]);
}

#[test]
fn ignore_drops_matches_keeps_order() {
    let e = sample();
    let r = e.list(&Some(String::from("an")), &None, &None, &None).unwrap();
    assert_eq!(texts(&r), vec!["buy milk"]);
    let r = e.list(&Some(String::from("milk|bank")), &None, &None, &None).unwrap();
    assert_eq!(texts(&r), vec!["water plants"]);
    let r = e.list(&Some(String::from("zzz")), &None, &None, &None).unwrap();
    assert_eq!(texts(&r), vec!["call bank", "buy milk", "water plants"]);
}

#[test]
fn invalid_pattern_is_an_error() {
    let e = sample();
    assert!(matches!(
        e.list(&Some(String::from("(")), &None, &None, &None),
        Err(ListError::InvalidPattern(_))
    ));
    assert!(matches!(
        e.list(&Some(String::from("(")), &None, &Some(Priority::High), &None),
        Err(ListError::InvalidPattern(_))
    ));
}

#[test]
fn missing_priority_wins_over_invalid_pattern() {
    let mut e = sample();
    e.clean(&Some(Priority::High));
    assert!(matches!(
        e.list(&Some(String::from("(")), &None, &Some(Priority::High), &None),
        Err(ListError::PriorityNotFound)
    ));
}

#[test]
fn count_keeps_a_prefix() {
    let e = sample();
    let r = e.list(&None, &None, &None, &Some(2)).unwrap();
    assert_eq!(texts(&r), vec!["call bank", "buy milk"]);
    let r = e.list(&None, &None, &None, &Some(0)).unwrap();
    assert!(r.is_empty());
    let r = e.list(&None, &None, &None, &Some(10)).unwrap();
    assert_eq!(r.len(), 3);
    let r = e.list(&None, &Some(Order::Ascending), &None, &Some(1)).unwrap();
    assert_eq!(texts(&r), vec!["water plants"]);
    let r = e.list(&Some(String::from("^c")), &None, &None, &Some(usize::MAX)).unwrap();
    assert_eq!(texts(&r), vec!["buy milk", "water plants"]);
}

#[test]
fn random_order_is_a_permutation() {
    let e = sample();
    let r = e.list(&None, &Some(Order::Random), &None, &None).unwrap();
    let mut got = texts(&r);
    got.sort();
    assert_eq!(got, vec!["buy milk", "call bank", "water plants"]);
}

#[test]
fn duplicates_are_kept() {
    let mut e = Errands::new();
    e.add(String::from("same"), &Some(Priority::High));
    e.add(String::from("same"), &Some(Priority::High));
    e.add(String::from("same"), &Some(Priority::Deferred));
    let r = e.list(&None, &None, &None, &None).unwrap();
    assert_eq!(texts(&r), vec!["same", "same", "same"]);
    assert_eq!(r[2].priority, Priority::Deferred);
}

fn errand(p: Priority, t: &str) -> Errand {
    Errand { priority: p, text: String::from(t) }
}

#[test]
fn stage_reversed() {
    let v = vec![errand(Priority::High, "a"), errand(Priority::Deferred, "b")];
    assert_eq!(texts(&reversed(v)), vec!["b", "a"]);
    assert!(reversed(vec![]).is_empty());
}

#[test]
fn stage_drop_hits() {
    let v = vec![errand(Priority::High, "a"), errand(Priority::Urgent, "b"), errand(Priority::Urgent, "c")];
    let r = drop_hits(v, &vec![false, true, false]);
    assert_eq!(texts(&r), vec!["a", "c"]);
}

#[test]
fn stage_drop_ignored() {
    let v = vec![errand(Priority::High, "apple"), errand(Priority::Urgent, "banana")];
    let r = drop_ignored(v, &Some(String::from("^a"))).unwrap();
    assert_eq!(texts(&r), vec!["banana"]);
    let v = vec![errand(Priority::High, "apple")];
    assert!(drop_ignored(v, &Some(String::from("[a-"))).is_err());
    let v = vec![errand(Priority::High, "apple")];
    assert_eq!(texts(&drop_ignored(v, &None).unwrap()), vec!["apple"]);
}

#[test]
fn stage_cap() {
    let v = vec![errand(Priority::High, "a"), errand(Priority::Urgent, "b")];
    assert_eq!(texts(&cap(v, &Some(1))), vec!["a"]);
    let v = vec![errand(Priority::High, "a"), errand(Priority::Urgent, "b")];
    assert_eq!(texts(&cap(v, &None)).len(), 2);
}

#[test]
fn priority_ranks() {
    for (i, p) in PRIORITIES.iter().enumerate() {
        assert_eq!(p.rank(), i);
        assert_eq!(Priority::from_rank(i), *p);
    }
    assert_eq!(Priority::all(), PRIORITIES.to_vec());
    assert!(Priority::Emergency < Priority::Deferred);
}

#[test]
fn location_probing() {
    assert_eq!(candidates(&None), vec![Location::Local, Location::User, Location::Global]);
    assert_eq!(candidates(&Some(Location::User)), vec![Location::User]);
    assert_eq!(resolve(&None, &vec![false, true, true]), Some(Location::User));
    assert_eq!(resolve(&None, &vec![false, false, true]), Some(Location::Global));
    assert_eq!(resolve(&None, &vec![true, true, true]), Some(Location::Local));
    assert_eq!(resolve(&None, &vec![false, false, false]), None);
    assert_eq!(resolve(&Some(Location::Global), &vec![true]), Some(Location::Global));
    assert_eq!(resolve(&Some(Location::Local), &vec![false]), None);
}
