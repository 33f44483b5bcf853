use rofitodo::AcceptAll;
use rofitodo::Index;
use rofitodo::Indexer;
use rofitodo::LexOrder;
use rofitodo::Store;

#[test]
fn create_index() {
    let idx = Index::<String, AcceptAll, LexOrder>::new(AcceptAll, LexOrder::Forward);
    assert_eq!(idx.is_empty(), true);
    assert_eq!(idx.remove_if_empty(), false);
}

#[test]
fn create_remove_if_empty_index() {
    let idx = Index::<String, AcceptAll, LexOrder>::new_autoremove(AcceptAll, LexOrder::Forward);
    assert_eq!(idx.is_empty(), true);
    assert_eq!(idx.remove_if_empty(), true);
}

#[test]
fn indexing_elements() {
    let mut store: Store<String> = Store::new();
    let mut idx = Index::<String, AcceptAll, LexOrder>::new_autoremove(AcceptAll, LexOrder::Forward);
    let foo = store.place(String::from("Foo"));
    let bar = store.place(String::from("Bar"));
    let baz = store.place(String::from("Baz"));
    idx.register(&store, &foo);
    idx.register(&store, &bar);
    idx.register(&store, &baz);

    let mut it = idx.iter(&mut store);
    let h0 = it.next().unwrap();
    let h1 = it.next().unwrap();
    let h2 = it.next().unwrap();
    assert_eq!(store.read(&h0), &String::from("Bar"));
    assert_eq!(store.read(&h1), &String::from("Baz"));
    assert_eq!(store.read(&h2), &String::from("Foo"));
    assert_eq!(idx.is_empty(), false);
}

#[test]
fn iter_dont_consume() {
    let mut store: Store<String> = Store::new();
    let mut idx = Index::<String, AcceptAll, LexOrder>::new_autoremove(AcceptAll, LexOrder::Forward);
    let foo = store.place(String::from("Foo"));
    let bar = store.place(String::from("Bar"));
    let baz = store.place(String::from("Baz"));
    idx.register(&store, &foo);
    idx.register(&store, &bar);
    idx.register(&store, &baz);

    // iterating hands out fresh handles and leaves the projection untouched
    let mut it1 = idx.iter(&mut store);
    let mut data1 = Vec::new();
    while let Some(h) = it1.next() {
        data1.push(h);
    }
    let mut it2 = idx.iter(&mut store);
    let mut data2 = Vec::new();
    while let Some(h) = it2.next() {
        data2.push(h);
    }
    assert_eq!(data1.len(), 3);
    assert_eq!(data2.len(), 3);
    for i in 0..3 {
        assert_eq!(store.read(&data1[i]), store.read(&data2[i]));
    }
}

#[test]
fn remove_elements() {
    let mut store: Store<String> = Store::new();
    let mut idx = Index::<String, AcceptAll, LexOrder>::new_autoremove(AcceptAll, LexOrder::Forward);
    let foo = store.place(String::from("Foo"));
    let bar = store.place(String::from("Bar"));
    let baz = store.place(String::from("Baz"));
    idx.register(&store, &foo);
    idx.register(&store, &bar);
    idx.register(&store, &baz);

    let mut it = idx.iter(&mut store);
    let h0 = it.next().unwrap();
    let h1 = it.next().unwrap();
    let h2 = it.next().unwrap();

    assert!(!idx.is_empty());

    idx.remove(&store, &h0);
    idx.remove(&store, &h2);
    idx.remove(&store, &h1);

    assert!(idx.is_empty());
}

#[test]
fn create_indexer() {
    let idxname = String::from("Alpha");
    let mut id = Indexer::<String, AcceptAll, LexOrder>::new();
    id.new_index(idxname.clone(), AcceptAll, LexOrder::Forward);
    id.add(String::from("foo"));
    id.add(String::from("bar"));

    let mut iter = id.get_index(&idxname).unwrap();
    let h0 = iter.next().unwrap();
    let h1 = iter.next().unwrap();
    assert_eq!(id.read(&h0), &String::from("bar"));
    assert_eq!(id.read(&h1), &String::from("foo"));
}

#[test]
fn create_multiple_indexes() {
    let idxname1 = String::from("Alpha");
    let idxname2 = String::from("AlphaRev");
    let mut id = Indexer::<String, AcceptAll, LexOrder>::new();
    id.new_index(idxname1.clone(), AcceptAll, LexOrder::Forward);
    id.add(String::from("foo"));
    id.add(String::from("bar"));
    id.add(String::from("hello"));

    id.new_index(idxname2.clone(), AcceptAll, LexOrder::Reverse);

    let mut lexico = Vec::new();
    let mut it1 = id.get_index(&idxname1).unwrap();
    while let Some(h) = it1.next() {
        lexico.push(h);
    }
    let mut lexicorev = Vec::new();
    let mut it2 = id.get_index(&idxname2).unwrap();
    while let Some(h) = it2.next() {
        lexicorev.push(h);
    }

    let l = lexico.len();
    for i in 0..l {
        assert_eq!(id.read(&lexico[i]), id.read(&lexicorev[l - 1 - i]));
    }
}

#[test]
fn remove_indexes() {
    let idxname1 = String::from("Alpha");
    let idxname2 = String::from("AlphaRev");
    let mut id = Indexer::<String, AcceptAll, LexOrder>::new();
    id.new_index(idxname1.clone(), AcceptAll, LexOrder::Forward);
    id.new_index(idxname2.clone(), AcceptAll, LexOrder::Reverse);
    id.add(String::from("foo"));
    id.add(String::from("bar"));
    id.add(String::from("hello"));

    id.remove_index(&idxname1);
    assert!(id.index(&idxname1).is_none());
    assert!(!id.index(&idxname2).is_none());
    assert!(!id.index(&idxname2).unwrap().is_empty());
}

#[test]
fn auto_remove_indexes() {
    let idxname1 = String::from("Alpha");
    let idxname2 = String::from("AlphaRev");
    let mut id = Indexer::<String, AcceptAll, LexOrder>::new();
    id.new_autoremove_index(idxname1.clone(), AcceptAll, LexOrder::Forward);
    id.new_index(idxname2.clone(), AcceptAll, LexOrder::Forward);
    id.add(String::from("foo"));
    id.add(String::from("bar"));
    id.add(String::from("baz"));

    assert!(!id.index(&idxname1).is_none());
    assert!(!id.index(&idxname2).is_none());

    let mut elems = Vec::new();
    let mut it = id.get_index(&idxname1).unwrap();
    while let Some(h) = it.next() {
        elems.push(h);
    }
    for elem in elems {
        id.remove(elem);
    }

    assert!(id.index(&idxname1).is_none());
    assert!(!id.index(&idxname2).is_none());
}

#[test]
fn testing_iterator() {
    let idxname = String::from("Alpha");
    let mut id = Indexer::<String, AcceptAll, LexOrder>::new();
    id.new_index(idxname.clone(), AcceptAll, LexOrder::Forward);
    id.add(String::from("foo"));
    id.add(String::from("bar"));
    id.add(String::from("foobar"));

    // two iterations over the same projection agree entry for entry
    let mut iter = id.get_index(&idxname).unwrap();
    let mut other = id.get_index(&idxname).unwrap();
    while let Some(x) = other.next() {
        let y = iter.next().unwrap();
        assert_eq!(id.read(&y), id.read(&x));
    }
}

#[test]
fn testing_remove() {
    let idxname1 = String::from("Alpha");
    let idxname2 = String::from("AlphaRev");
    let mut id = Indexer::<String, AcceptAll, LexOrder>::new();
    id.new_index(idxname1.clone(), AcceptAll, LexOrder::Forward);
    id.new_index(idxname2.clone(), AcceptAll, LexOrder::Reverse);
    id.add(String::from("foo"));
    id.add(String::from("bar"));
    id.add(String::from("hello"));

    let item = id.get_index(&idxname1).unwrap().next().unwrap();

    id.remove(item);

    let mut l1 = id.get_index(&idxname1).unwrap();
    let mut l2 = id.get_index(&idxname1).unwrap();
    let l3 = id.get_main_index();
    assert_eq!(l1.size(), 2);
    assert_eq!(l2.size(), 2);
    assert_eq!(l3.size(), 2);
    let _ = l1.next();
    let _ = l2.next();
}
