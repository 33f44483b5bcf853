use rofitodo::AcceptAll;
use rofitodo::Indexer;
use rofitodo::LexOrder;
use rofitodo::Task;
use rofitodo::TaskFilter;
use rofitodo::TaskOrder;
use rofitodo::trim_newline;
use rofitodo::vec2str;

// The concrete scenario: three words, one lexicographic projection, one
// removal.
#[test]
fn three_words_one_removal() {
    let mut id = Indexer::<String, AcceptAll, LexOrder>::new();
    id.new_index(String::from("Alpha"), AcceptAll, LexOrder::Forward);
    id.add(String::from("bar"));
    let baz = id.add(String::from("baz"));
    id.add(String::from("foo"));

    assert_eq!(id.get_main_index().size(), 3);
    let mut it = id.get_index(&String::from("Alpha")).unwrap();
    let h0 = it.next().unwrap();
    let h1 = it.next().unwrap();
    let h2 = it.next().unwrap();
    assert_eq!(id.read(&h0), &String::from("bar"));
    assert_eq!(id.read(&h1), &String::from("baz"));
    assert_eq!(id.read(&h2), &String::from("foo"));

    id.remove(baz);
    let mut it2 = id.get_index(&String::from("Alpha")).unwrap();
    assert_eq!(it2.size(), 2);
    let g0 = it2.next().unwrap();
    let g1 = it2.next().unwrap();
    assert_eq!(id.read(&g0), &String::from("bar"));
    assert_eq!(id.read(&g1), &String::from("foo"));
    assert_eq!(id.get_main_index().size(), 2);
}

// Conservation: the canonical size is the number of additions minus the
// number of removals that give the element back.
#[test]
fn conservation_of_elements() {
    let mut id = Indexer::<String, AcceptAll, LexOrder>::new();
    let a = id.add(String::from("a"));
    let b = id.add(String::from("b"));
    let c = id.add(String::from("c"));
    assert_eq!(canonical_size(&mut id), 3);

    let got = id.remove(b);
    assert_eq!(got, Some(String::from("b")));
    assert_eq!(canonical_size(&mut id), 2);

    let got2 = id.remove(a);
    assert_eq!(got2, Some(String::from("a")));
    let got3 = id.remove(c);
    assert_eq!(got3, Some(String::from("c")));
    assert_eq!(canonical_size(&mut id), 0);
}

// Counts the canonical elements, giving every handle the iteration minted
// back to the store.
fn canonical_size(id: &mut Indexer<String, AcceptAll, LexOrder>) -> usize {
    let mut it = id.get_main_index();
    let n = it.size();
    while let Some(h) = it.next() {
        id.release(h);
    }
    n
}

// A second handle to the same element keeps the value alive: the removal
// detaches the element but does not give the value back until the last
// handle is gone.
#[test]
fn still_referenced_element() {
    let mut id = Indexer::<String, AcceptAll, LexOrder>::new();
    let h = id.add(String::from("shared"));
    let mut it = id.get_main_index();
    let h2 = it.next().unwrap();

    assert_eq!(id.remove(h), None);
    assert_eq!(id.get_main_index().size(), 0);
    assert_eq!(id.remove(h2), Some(String::from("shared")));
}

// Ties under the natural order coalesce into one canonical slot.
#[test]
fn natural_ties_coalesce() {
    let mut id = Indexer::<String, AcceptAll, LexOrder>::new();
    id.add(String::from("same"));
    id.add(String::from("same"));
    assert_eq!(id.get_main_index().size(), 1);
}

// Creating an index twice under one name leaves the first projection alone.
#[test]
fn index_creation_is_idempotent() {
    let mut id = Indexer::<String, AcceptAll, LexOrder>::new();
    id.new_index(String::from("Alpha"), AcceptAll, LexOrder::Forward);
    id.add(String::from("x"));
    id.new_index(String::from("Alpha"), AcceptAll, LexOrder::Reverse);
    let mut it = id.get_index(&String::from("Alpha")).unwrap();
    assert_eq!(it.size(), 1);
    let h = it.next().unwrap();
    assert_eq!(id.read(&h), &String::from("x"));
}

// Projection correctness over a filter: a pending-only view holds exactly
// the pending tasks.
#[test]
fn filtered_projection_is_exact() {
    let mut id = Indexer::<Task, TaskFilter, TaskOrder>::new();
    id.new_index(String::from("pending"), TaskFilter::Pending, TaskOrder::ByContent);
    id.new_index(String::from("done"), TaskFilter::Done, TaskOrder::ByContent);
    let t1 = Task::from_todotxt(String::from("water the plants")).unwrap();
    let t2 = Task::from_todotxt(String::from("x call the bank")).unwrap();
    let t3 = Task::from_todotxt(String::from("buy milk")).unwrap();
    id.add(t1);
    id.add(t2);
    id.add(t3);

    let mut pending = id.get_index(&String::from("pending")).unwrap();
    assert_eq!(pending.size(), 2);
    let p0 = pending.next().unwrap();
    let p1 = pending.next().unwrap();
    assert_eq!(id.read(&p0).get_content(), "buy milk");
    assert_eq!(id.read(&p1).get_content(), "water the plants");

    let mut done = id.get_index(&String::from("done")).unwrap();
    assert_eq!(done.size(), 1);
    let d0 = done.next().unwrap();
    assert_eq!(id.read(&d0).get_content(), "call the bank");
}

// A projection created late is populated retroactively from the canonical
// collection.
#[test]
fn retroactive_population() {
    let mut id = Indexer::<String, AcceptAll, LexOrder>::new();
    id.add(String::from("c"));
    id.add(String::from("a"));
    id.add(String::from("b"));
    id.new_index(String::from("late"), AcceptAll, LexOrder::Forward);
    let mut it = id.get_index(&String::from("late")).unwrap();
    assert_eq!(it.size(), 3);
    assert_eq!(id.read(&it.next().unwrap()), &String::from("a"));
    assert_eq!(id.read(&it.next().unwrap()), &String::from("b"));
    assert_eq!(id.read(&it.next().unwrap()), &String::from("c"));
}

// A fresh task gets today's date from the clock.
#[test]
fn new_task_is_dated_today() {
    let t = Task::new(String::from("anything"));
    assert!(t.creation_date.is_some());
    let (y, m, d) = t.creation_date.unwrap().ymd();
    assert!(y >= 2020);
    assert!((1..=12).contains(&m));
    assert!((1..=31).contains(&d));
}

// Menu entries become one line each.
#[test]
fn entries_to_lines() {
    let v = vec![String::from("one"), String::from("two")];
    assert_eq!(vec2str(v), String::from("one\ntwo\n"));
}

// One trailing line break goes, and only one.
#[test]
fn trailing_line_break_is_trimmed() {
    let mut a = String::from("pick\n");
    trim_newline(&mut a);
    assert_eq!(a, "pick");
    let mut b = String::from("pick\r\n");
    trim_newline(&mut b);
    assert_eq!(b, "pick");
    let mut c = String::from("pick\n\n");
    trim_newline(&mut c);
    assert_eq!(c, "pick\n");
    let mut d = String::from("pick");
    trim_newline(&mut d);
    assert_eq!(d, "pick");
}
