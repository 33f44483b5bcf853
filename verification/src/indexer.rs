//! The multi-index store: one canonical, naturally ordered collection viewed
//! through any number of named, filtered, independently ordered projections.
//!
//! Elements live in an arena with a liveness and reference-count table and
//! are addressed by stable integer keys; a `Handle` is one counted,
//! non-copyable reference to one element. The canonical collection and the
//! projections store keys, so no element is ever stored twice, and an
//! element's slot is reclaimed only when no handle and no collection refers
//! to it any more. Because handles carry no destructor, a caller gives a
//! handle back either by removing the element through it or by releasing it
//! explicitly.
//!
//! A projection's sorted content keeps at most one entry per element; where
//! two distinct elements are tied under the projection's comparator, the tie
//! is broken by the elements' allocation keys, so that allocation order
//! decides the placement and no element is ever hidden from a projection.
//! This tie-break is part of every contract below.

use core::marker::PhantomData;
use vstd::pervasive::unreached;
use vstd::prelude::*;

use crate::order::Classifier;
use crate::order::Comparator;
use crate::order::NaturalOrder;
use crate::order::strictly_before;
use crate::order::tied;

verus! {


/// One counted reference to one element of a `Store`. Handles cannot be
/// copied or forged; they are minted only by the store that owns the element.
pub struct Handle {
    pub(crate) key: usize,
}

impl Handle {
    /// The key of the element this handle refers to.
    pub closed spec fn id(self) -> int {
        self.key as int
    }
}

struct Slot<T> {
    val: Option<T>,
    refs: usize,
}

/// The arena: element storage, liveness and reference counts, addressed by
/// stable keys. Keys are handed out in allocation order and never reused.
pub struct Store<T> {
    slots: Vec<Slot<T>>,
}

impl<T> Store<T> {
    /// The key the next allocation will receive.
    pub closed spec fn next_key(self) -> int {
        self.slots@.len() as int
    }

    /// Whether key `k` currently holds an element.
    pub closed spec fn live(self, k: int) -> bool {
        0 <= k < self.slots@.len() && self.slots@[k].val is Some
    }

    /// The element stored at key `k`.
    pub closed spec fn at(self, k: int) -> T
        recommends
            self.live(k),
    {
        self.slots@[k].val.unwrap()
    }

    /// How many handles to key `k` are outstanding.
    pub closed spec fn refs_of(self, k: int) -> nat {
        if 0 <= k < self.slots@.len() {
            self.slots@[k].refs as nat
        } else {
            0
        }
    }

    /// `h` is a handle minted by this store and not yet given back.
    pub open spec fn owns(self, h: Handle) -> bool {
        self.live(h.id()) && self.refs_of(h.id()) >= 1
    }

    /// Every reference count still has room for one more handle.
    pub open spec fn refs_below_max(self) -> bool {
        forall|k: int| self.live(k) ==> self.refs_of(k) < usize::MAX
    }

    /// An empty store.
    pub fn new() -> (s: Store<T>)
        ensures
            s.next_key() == 0,
            forall|k: int| !s.live(k),
            forall|k: int| s.refs_of(k) == 0,
    {
        Store { slots: Vec::new() }
    }

    /// Stores `e` in a fresh slot and mints the first handle to it.
    pub fn place(&mut self, e: T) -> (h: Handle)
        ensures
            h.id() == old(self).next_key(),
            final(self).next_key() == old(self).next_key() + 1,
            final(self).live(h.id()),
            final(self).at(h.id()) == e,
            final(self).refs_of(h.id()) == 1,
            forall|k: int|
                k != h.id() ==> #[trigger] final(self).live(k) == old(self).live(k),
            forall|k: int|
                k != h.id() ==> #[trigger] final(self).refs_of(k) == old(self).refs_of(k),
            forall|k: int|
                k != h.id() && old(self).live(k) ==> #[trigger] final(self).at(k) == old(
                    self,
                ).at(k),
    {
        let key = self.slots.len();
        self.slots.push(Slot { val: Some(e), refs: 1 });
        Handle { key }
    }

    /// Reads the element a handle refers to.
    pub fn read(&self, h: &Handle) -> (r: &T)
        requires
            self.live(h.id()),
        ensures
            *r == self.at(h.id()),
    {
        self.read_key(h.key)
    }

    /// Reads the element at key `k`.
    pub(crate) fn read_key(&self, k: usize) -> (r: &T)
        requires
            self.live(k as int),
        ensures
            *r == self.at(k as int),
    {
        match &self.slots[k].val {
            Some(v) => v,
            None => unreached(),
        }
    }

    /// Mints one more handle to the live key `k`.
    pub(crate) fn mint(&mut self, k: usize) -> (h: Handle)
        requires
            old(self).live(k as int),
            old(self).refs_of(k as int) < usize::MAX,
        ensures
            h.id() == k as int,
            final(self).live(k as int),
            final(self).at(k as int) == old(self).at(k as int),
            final(self).refs_of(k as int) == old(self).refs_of(k as int) + 1,
            final(self).next_key() == old(self).next_key(),
            forall|j: int|
                j != k as int ==> #[trigger] final(self).live(j) == old(self).live(j),
            forall|j: int|
                j != k as int ==> #[trigger] final(self).refs_of(j) == old(self).refs_of(j),
            forall|j: int|
                j != k as int && old(self).live(j) ==> #[trigger] final(self).at(j) == old(
                    self,
                ).at(j),
    {
        let Slot { val, refs } = self.slots.remove(k);
        self.slots.insert(k, Slot { val, refs: refs + 1 });
        proof {
            assert(forall|j: int|
                0 <= j < old(self).slots@.len() && j != k as int ==> self.slots@[j]
                    == old(self).slots@[j]);
        }
        Handle { key: k }
    }

    /// Mints a second handle to the element `h` refers to, like cloning a
    /// shared pointer.
    pub fn share(&mut self, h: &Handle) -> (h2: Handle)
        requires
            old(self).owns(*h),
            old(self).refs_of(h.id()) < usize::MAX,
        ensures
            h2.id() == h.id(),
            final(self).live(h.id()),
            final(self).at(h.id()) == old(self).at(h.id()),
            final(self).refs_of(h.id()) == old(self).refs_of(h.id()) + 1,
            final(self).next_key() == old(self).next_key(),
            forall|j: int|
                j != h.id() ==> #[trigger] final(self).live(j) == old(self).live(j),
            forall|j: int|
                j != h.id() ==> #[trigger] final(self).refs_of(j) == old(self).refs_of(j),
            forall|j: int|
                j != h.id() && old(self).live(j) ==> #[trigger] final(self).at(j) == old(
                    self,
                ).at(j),
    {
        self.mint(h.key)
    }

    /// Gives one handle to key `k` back; the element itself stays in place.
    pub(crate) fn decref(&mut self, k: usize)
        requires
            old(self).live(k as int),
            old(self).refs_of(k as int) >= 1,
        ensures
            final(self).live(k as int),
            final(self).at(k as int) == old(self).at(k as int),
            final(self).refs_of(k as int) == old(self).refs_of(k as int) - 1,
            final(self).next_key() == old(self).next_key(),
            forall|j: int|
                j != k as int ==> #[trigger] final(self).live(j) == old(self).live(j),
            forall|j: int|
                j != k as int ==> #[trigger] final(self).refs_of(j) == old(self).refs_of(j),
            forall|j: int|
                j != k as int && old(self).live(j) ==> #[trigger] final(self).at(j) == old(
                    self,
                ).at(j),
    {
        let Slot { val, refs } = self.slots.remove(k);
        self.slots.insert(k, Slot { val, refs: refs - 1 });
        proof {
            assert(forall|j: int|
                0 <= j < old(self).slots@.len() && j != k as int ==> self.slots@[j]
                    == old(self).slots@[j]);
        }
    }

    /// Reclaims the slot at key `k` if no handle refers to it any more,
    /// returning the owned element; otherwise changes nothing.
    pub(crate) fn try_free(&mut self, k: usize) -> (r: Option<T>)
        requires
            old(self).live(k as int),
        ensures
            old(self).refs_of(k as int) == 0 ==> {
                &&& r == Some(old(self).at(k as int))
                &&& !final(self).live(k as int)
                &&& final(self).refs_of(k as int) == 0
            },
            old(self).refs_of(k as int) != 0 ==> {
                &&& r is None
                &&& final(self).live(k as int) == old(self).live(k as int)
                &&& final(self).refs_of(k as int) == old(self).refs_of(k as int)
                &&& final(self).at(k as int) == old(self).at(k as int)
            },
            final(self).next_key() == old(self).next_key(),
            forall|j: int|
                j != k as int ==> #[trigger] final(self).live(j) == old(self).live(j),
            forall|j: int|
                j != k as int ==> #[trigger] final(self).refs_of(j) == old(self).refs_of(j),
            forall|j: int|
                j != k as int && old(self).live(j) ==> #[trigger] final(self).at(j) == old(
                    self,
                ).at(j),
    {
        if self.slots[k].refs == 0 {
            let Slot { val, refs } = self.slots.remove(k);
            self.slots.insert(k, Slot { val: None, refs: 0 });
            proof {
                assert(forall|j: int|
                    0 <= j < old(self).slots@.len() && j != k as int ==> self.slots@[j]
                        == old(self).slots@[j]);
            }
            val
        } else {
            None
        }
    }
}


/// An entry of a projection: an uncounted reference to one element of the
/// store, placed by the projection's comparator with allocation keys breaking
/// ties.
pub struct ElementWrapper {
    pub(crate) key: usize,
}

impl ElementWrapper {
    /// The key of the element this entry refers to.
    pub closed spec fn id(self) -> int {
        self.key as int
    }

    /// Reads the element this entry refers to.
    pub fn _content<'a, T>(&self, store: &'a Store<T>) -> (r: &'a T)
        requires
            store.live(self.id()),
        ensures
            *r == store.at(self.id()),
    {
        store.read_key(self.key)
    }
}

/// The placement order of a projection: the comparator decides, and the
/// allocation keys break its ties.
pub open spec fn key_before<T, C: Comparator<T>>(c: C, s: Store<T>, k1: int, k2: int) -> bool {
    ||| strictly_before(c, s.at(k1), s.at(k2))
    ||| (tied(c, s.at(k1), s.at(k2)) && k1 < k2)
}

/// The placement order is transitive.
pub proof fn lemma_key_before_trans<T, C: Comparator<T>>(c: C, s: Store<T>, k1: int, k2: int, k3: int)
    requires
        key_before(c, s, k1, k2),
        key_before(c, s, k2, k3),
    ensures
        key_before(c, s, k1, k3),
{
    let a = s.at(k1);
    let b = s.at(k2);
    let d = s.at(k3);
    c.cle_trans(a, b, d);
    if c.cle(d, a) {
        c.cle_trans(d, a, b);
        c.cle_trans(b, d, a);
    }
}

/// For distinct keys the placement order runs one way or the other.
pub proof fn lemma_key_before_connected<T, C: Comparator<T>>(c: C, s: Store<T>, k1: int, k2: int)
    requires
        k1 != k2,
    ensures
        key_before(c, s, k1, k2) || key_before(c, s, k2, k1),
{
    c.cle_total(s.at(k1), s.at(k2));
}

/// No key is placed before itself.
pub proof fn lemma_key_before_irreflexive<T, C: Comparator<T>>(c: C, s: Store<T>, k: int)
    ensures
        !key_before(c, s, k, k),
{
}

/// One named projection: a filter, a comparator, a sorted list of entries and
/// the flag that asks for automatic removal once the projection is empty.
pub struct Index<T, F, C> {
    content: Vec<ElementWrapper>,
    is_indexable: F,
    compare: C,
    remove_if_empty: bool,
    elem: PhantomData<T>,
}

impl<T, F: Classifier<T>, C: Comparator<T>> Index<T, F, C> {
    /// The keys of the projection's entries, in placement order.
    pub closed spec fn keys(self) -> Seq<int> {
        Seq::new(self.content@.len(), |i: int| self.content@[i].key as int)
    }

    /// The projection's filter.
    pub closed spec fn cls(self) -> F {
        self.is_indexable
    }

    /// The projection's comparator.
    pub closed spec fn cmp(self) -> C {
        self.compare
    }

    /// Whether the projection asks to be dropped once empty.
    pub closed spec fn autoremove(self) -> bool {
        self.remove_if_empty
    }

    /// The element at key `k` is a member of the projection.
    pub open spec fn has_key(self, k: int) -> bool {
        self.keys().contains(k)
    }

    /// Well-formed with respect to the store `s`: every entry refers to a
    /// live element accepted by the filter, and the entries are strictly
    /// sorted by the placement order.
    pub open spec fn wf(self, s: Store<T>) -> bool {
        &&& forall|i: int| 0 <= i < self.keys().len() ==> s.live(#[trigger] self.keys()[i])
        &&& forall|i: int|
            0 <= i < self.keys().len() ==> self.cls().accepted(s.at(#[trigger] self.keys()[i]))
        &&& forall|i: int, j: int|
            0 <= i < j < self.keys().len() ==> key_before(
                self.cmp(),
                s,
                #[trigger] self.keys()[i],
                #[trigger] self.keys()[j],
            )
    }

    /// The filter, comparator and auto-removal flag of the projection are
    /// unchanged.
    pub open spec fn same_shape(self, other: Index<T, F, C>) -> bool {
        &&& other.cls() == self.cls()
        &&& other.cmp() == self.cmp()
        &&& other.autoremove() == self.autoremove()
    }

    /// After withdrawing the element at key `k`, the projection would still
    /// be wanted in the registry: either it never asked for automatic
    /// removal, or some other element keeps it non-empty.
    pub open spec fn survives(self, k: int) -> bool {
        !self.autoremove() || exists|k2: int| #[trigger] self.has_key(k2) && k2 != k
    }

    /// A well-formed projection holds at most one entry per key.
    pub proof fn lemma_keys_distinct(self, s: Store<T>)
        requires
            self.wf(s),
        ensures
            forall|i: int, j: int|
                #![trigger self.keys()[i], self.keys()[j]]
                0 <= i < self.keys().len() && 0 <= j < self.keys().len() && i != j
                    ==> self.keys()[i] != self.keys()[j],
    {
        assert forall|i: int, j: int|
            #![trigger self.keys()[i], self.keys()[j]]
            0 <= i < self.keys().len() && 0 <= j < self.keys().len() && i != j
                implies self.keys()[i] != self.keys()[j] by {
            if i < j {
                lemma_key_before_irreflexive(self.cmp(), s, self.keys()[i]);
            } else {
                lemma_key_before_irreflexive(self.cmp(), s, self.keys()[j]);
            }
        }
    }

    /// A fresh, empty projection that is kept even when empty.
    pub fn new(is_indexable: F, compare: C) -> (idx: Index<T, F, C>)
        ensures
            idx.keys() =~= Seq::<int>::empty(),
            idx.cls() == is_indexable,
            idx.cmp() == compare,
            !idx.autoremove(),
    {
        Index {
            content: Vec::new(),
            is_indexable,
            compare,
            remove_if_empty: false,
            elem: PhantomData,
        }
    }

    /// A fresh, empty projection that asks to be dropped once it becomes
    /// empty again.
    pub fn new_autoremove(is_indexable: F, compare: C) -> (idx: Index<T, F, C>)
        ensures
            idx.keys() =~= Seq::<int>::empty(),
            idx.cls() == is_indexable,
            idx.cmp() == compare,
            idx.autoremove(),
    {
        Index {
            content: Vec::new(),
            is_indexable,
            compare,
            remove_if_empty: true,
            elem: PhantomData,
        }
    }

    /// Offers the element behind `element` to the projection: it becomes a
    /// member exactly when the filter accepts it, taking its place in the
    /// placement order; an element already present is left as is.
    pub fn register(&mut self, store: &Store<T>, element: &Handle)
        requires
            old(self).wf(*store),
            store.live(element.id()),
        ensures
            final(self).wf(*store),
            old(self).same_shape(*final(self)),
            old(self).cls().accepted(store.at(element.id())) ==> forall|k: int|
                final(self).has_key(k) <==> old(self).has_key(k) || k == element.id(),
            !old(self).cls().accepted(store.at(element.id())) ==> final(self).keys() == old(
                self,
            ).keys(),
            final(self).keys().len() == old(self).keys().len() + (
            if old(self).cls().accepted(store.at(element.id())) && !old(self).has_key(
                element.id(),
            ) {
                1int
            } else {
                0int
            }),
    {
        self.register_key(store, element.key);
    }

    /// Offers the element at key `k` to the projection; the workhorse behind
    /// `register`, also used to populate a fresh projection retroactively.
    pub(crate) fn register_key(&mut self, store: &Store<T>, k: usize)
        requires
            old(self).wf(*store),
            store.live(k as int),
        ensures
            final(self).wf(*store),
            old(self).same_shape(*final(self)),
            old(self).cls().accepted(store.at(k as int)) ==> forall|k2: int|
                final(self).has_key(k2) <==> old(self).has_key(k2) || k2 == k as int,
            !old(self).cls().accepted(store.at(k as int)) ==> final(self).keys() == old(
                self,
            ).keys(),
            final(self).keys().len() == old(self).keys().len() + (
            if old(self).cls().accepted(store.at(k as int)) && !old(self).has_key(k as int) {
                1int
            } else {
                0int
            }),
    {
        let ghost element = Handle { key: k };
        let e = store.read_key(k);
        if !self.is_indexable.classify(e) {
            return ;
        }
        let ghost nk = element.id();
        let mut i: usize = 0;
        loop
            invariant
                *self == *old(self),
                self.wf(*store),
                nk == k as int,
                store.live(nk),
                *e == store.at(nk),
                i <= self.content.len(),
                forall|j: int| 0 <= j < i ==> key_before(self.cmp(), *store, #[trigger] self.keys()[j], nk),
            ensures
                *self == *old(self),
                i <= self.content@.len(),
                forall|j: int| 0 <= j < i ==> key_before(self.cmp(), *store, #[trigger] self.keys()[j], nk),
                i < self.content@.len() ==> key_before(self.cmp(), *store, nk, self.keys()[i as int]),
            decreases self.content@.len() - i,
        {
            if i == self.content.len() {
                break ;
            }
            let ki = self.content[i].key;
            proof {
                assert(self.keys()[i as int] == ki as int);
                assert(store.live(self.keys()[i as int]));
            }
            if ki == k {
                proof {
                    assert(self.keys()[i as int] == nk);
                    assert(self.has_key(nk));
                }
                return ;
            }
            let a = store.read_key(ki);
            let le1 = self.compare.le(a, e);
            let le2 = self.compare.le(e, a);
            let goes_after = (le1 && !le2) || (le1 && le2 && ki < k);
            if !goes_after {
                proof {
                    lemma_key_before_connected(self.cmp(), *store, self.keys()[i as int], nk);
                    assert(key_before(self.cmp(), *store, nk, self.keys()[i as int]));
                }
                break ;
            }
            i = i + 1;
        }
        // `i` is the placement position: everything before it precedes the
        // new entry, and if `i` is not the end, the new entry precedes the
        // entry standing at `i`.
        proof {
            assert forall|j: int| 0 <= j < self.keys().len() implies self.keys()[j] != nk by {
                if j < i {
                    lemma_key_before_irreflexive(self.cmp(), *store, nk);
                } else if i < self.keys().len() {
                    if j == i {
                        lemma_key_before_irreflexive(self.cmp(), *store, nk);
                    } else {
                        lemma_key_before_trans(
                            self.cmp(),
                            *store,
                            nk,
                            self.keys()[i as int],
                            self.keys()[j],
                        );
                        lemma_key_before_irreflexive(self.cmp(), *store, nk);
                    }
                }
            }
            assert(!old(self).has_key(nk));
        }
        let ghost pre = self.keys();
        self.content.insert(i, ElementWrapper { key: k });
        proof {
            assert(self.keys() =~= pre.insert(i as int, nk));
            assert forall|p: int, q: int|
                0 <= p < q < self.keys().len() implies key_before(
                self.cmp(),
                *store,
                #[trigger] self.keys()[p],
                #[trigger] self.keys()[q],
            ) by {
                let ii = i as int;
                if p == ii {
                    // new entry against a later one
                    if q == ii + 1 {
                        assert(self.keys()[q] == pre[ii]);
                    } else {
                        lemma_key_before_trans(self.cmp(), *store, nk, pre[ii], pre[q - 1]);
                    }
                } else if q == ii {
                    assert(self.keys()[p] == pre[p]);
                } else if p < ii && q > ii {
                    assert(self.keys()[p] == pre[p]);
                    assert(self.keys()[q] == pre[q - 1]);
                    if q - 1 == p {
                        assert(pre[q - 1] == pre[p]);
                        lemma_key_before_trans(self.cmp(), *store, pre[p], nk, pre[p]);
                    }
                }
            }
            assert forall|k: int| final(self).has_key(k) implies old(self).has_key(k) || k == nk by {
                let j = choose|j: int| 0 <= j < self.keys().len() && self.keys()[j] == k;
                if j != i {
                    let jj = if j < i { j } else { j - 1 };
                    assert(pre[jj] == k);
                }
            }
            assert(final(self).keys()[i as int] == nk);
            assert forall|k: int| old(self).has_key(k) implies final(self).has_key(k) by {
                let j = choose|j: int| 0 <= j < pre.len() && pre[j] == k;
                let jj = if j < i { j } else { j + 1 };
                assert(final(self).keys()[jj] == k);
            }
        }
    }

    /// Withdraws the element behind `element` from the projection, if it is a
    /// member; everything else keeps its place.
    pub fn remove(&mut self, store: &Store<T>, element: &Handle)
        requires
            old(self).wf(*store),
            store.live(element.id()),
        ensures
            final(self).wf(*store),
            old(self).same_shape(*final(self)),
            forall|k: int| final(self).has_key(k) <==> old(self).has_key(k) && k != element.id(),
            final(self).keys().len() == old(self).keys().len() - (
            if old(self).has_key(element.id()) {
                1int
            } else {
                0int
            }),
    {
        let e = store.read(element);
        if !self.is_indexable.classify(e) {
            // members always pass the filter, so a rejected element is no
            // member
            proof {
                assert forall|k: int|
                    final(self).has_key(k) implies old(self).has_key(k) && k != element.id() by {
                    let j = choose|j: int| 0 <= j < self.keys().len() && self.keys()[j] == k;
                    assert(self.cls().accepted(store.at(self.keys()[j])));
                }
            }
            return ;
        }
        let mut i: usize = 0;
        loop
            invariant
                *self == *old(self),
                self.wf(*store),
                store.live(element.id()),
                i <= self.content.len(),
                forall|j: int| 0 <= j < i ==> #[trigger] self.keys()[j] != element.id(),
            ensures
                *self == *old(self),
                i < self.content@.len(),
                self.keys()[i as int] == element.id(),
            decreases self.content@.len() - i,
        {
            if i == self.content.len() {
                proof {
                    assert(forall|j: int|
                        0 <= j < self.keys().len() ==> #[trigger] self.keys()[j] != element.id());
                }
                return ;
            }
            if self.content[i].key == element.key {
                break ;
            }
            proof {
                assert(self.keys()[i as int] != element.id());
            }
            i = i + 1;
        }
        let ghost pre = self.keys();
        proof {
            self.lemma_keys_distinct(*store);
            assert(pre[i as int] == element.id());
        }
        self.content.remove(i);
        proof {
            assert(self.keys() =~= pre.remove(i as int));
            assert forall|k: int|
                final(self).has_key(k) implies old(self).has_key(k) && k != element.id() by {
                let j = choose|j: int| 0 <= j < self.keys().len() && self.keys()[j] == k;
                let jj = if j < i { j } else { j + 1 };
                assert(pre[jj] == k);
            }
            assert forall|k: int|
                old(self).has_key(k) && k != element.id() implies final(self).has_key(k) by {
                let j = choose|j: int| 0 <= j < pre.len() && pre[j] == k;
                let jj = if j < i { j } else { j - 1 };
                assert(final(self).keys()[jj] == k);
            }
        }
    }

    /// Whether the projection has no members.
    pub fn is_empty(&self) -> (r: bool)
        ensures
            r == (self.keys().len() == 0),
    {
        self.content.len() == 0
    }

    /// Whether the projection asks to be dropped once empty.
    pub fn remove_if_empty(&self) -> (r: bool)
        ensures
            r == self.autoremove(),
    {
        self.remove_if_empty
    }

    /// The number of members.
    pub fn len(&self) -> (r: usize)
        ensures
            r == self.keys().len(),
    {
        self.content.len()
    }

    /// Reads the member standing at position `i` of the placement order.
    pub fn get<'a>(&self, store: &'a Store<T>, i: usize) -> (r: &'a T)
        requires
            self.wf(*store),
            i < self.keys().len(),
        ensures
            *r == store.at(self.keys()[i as int]),
    {
        proof {
            assert(store.live(self.keys()[i as int]));
        }
        store.read_key(self.content[i].key)
    }

    /// Mints one handle per member, in placement order, for iteration that
    /// leaves the projection untouched.
    #[verifier::loop_isolation(false)]
    pub fn iter(&self, store: &mut Store<T>) -> (it: IndexIntoIterator)
        requires
            self.wf(*old(store)),
            old(store).refs_below_max(),
        ensures
            it.remaining() =~= self.keys(),
            forall|k: int| #[trigger]
                final(store).refs_of(k) == old(store).refs_of(k) + (
                if self.has_key(k) {
                    1int
                } else {
                    0int
                }),
            forall|k: int| final(store).live(k) == old(store).live(k),
            forall|k: int| old(store).live(k) ==> final(store).at(k) == old(store).at(k),
            final(store).next_key() == old(store).next_key(),
    {
        proof {
            self.lemma_keys_distinct(*store);
        }
        let mut handles: Vec<Handle> = Vec::new();
        let mut i: usize = 0;
        while i < self.content.len()
            invariant
                i <= self.content.len(),
                self.wf(*old(store)),
                old(store).refs_below_max(),
                handles@.len() == i,
                forall|j: int| 0 <= j < i ==> #[trigger] handles@[j].id() == self.keys()[j],
                forall|j1: int, j2: int|
                    #![trigger self.keys()[j1], self.keys()[j2]]
                    0 <= j1 < self.keys().len() && 0 <= j2 < self.keys().len() && j1 != j2
                        ==> self.keys()[j1] != self.keys()[j2],
                forall|k: int| #[trigger]
                    store.refs_of(k) == old(store).refs_of(k) + (
                    if self.keys().take(i as int).contains(k) {
                        1int
                    } else {
                        0int
                    }),
                forall|k: int| store.live(k) == old(store).live(k),
                forall|k: int| old(store).live(k) ==> store.at(k) == old(store).at(k),
                store.next_key() == old(store).next_key(),
            decreases self.content@.len() - i,
        {
            let ki = self.content[i].key;
            proof {
                assert(self.keys()[i as int] == ki as int);
                assert(!self.keys().take(i as int).contains(ki as int));
            }
            let h = store.mint(ki);
            handles.push(h);
            i = i + 1;
            proof {
                assert forall|k: int| #[trigger]
                    store.refs_of(k) == old(store).refs_of(k) + (
                    if self.keys().take(i as int).contains(k) {
                        1int
                    } else {
                        0int
                    }) by {
                    if k == ki as int {
                        assert(self.keys().take(i as int)[i - 1] == k);
                    } else {
                        assert(self.keys().take(i as int).contains(k) == self.keys().take(
                            i as int - 1,
                        ).contains(k));
                    }
                }
            }
        }
        proof {
            assert(self.keys().take(self.keys().len() as int) =~= self.keys());
        }
        IndexIntoIterator { handles }
    }
}

/// Iteration over a projection's members: a sequence of counted handles,
/// handed out front to back.
pub struct IndexIntoIterator {
    handles: Vec<Handle>,
}

impl IndexIntoIterator {
    /// The keys of the handles not yet handed out, in order.
    pub closed spec fn remaining(self) -> Seq<int> {
        Seq::new(self.handles@.len(), |i: int| self.handles@[i].id())
    }

    /// Hands out the next handle, front first.
    pub fn next(&mut self) -> (r: Option<Handle>)
        ensures
            old(self).remaining().len() > 0 ==> {
                &&& r is Some
                &&& r.unwrap().id() == old(self).remaining()[0]
                &&& final(self).remaining() =~= old(self).remaining().skip(1)
            },
            old(self).remaining().len() == 0 ==> r is None && final(self).remaining()
                =~= old(self).remaining(),
    {
        if self.handles.len() > 0 {
            Some(self.handles.remove(0))
        } else {
            None
        }
    }

    /// How many handles are still to come.
    pub fn size(&self) -> (r: usize)
        ensures
            r == self.remaining().len(),
    {
        self.handles.len()
    }
}


/// The canonical order: the element at `k1` comes strictly before the one at
/// `k2` under the natural order of the element type. Elements tied under the
/// natural order share one canonical slot, so no tie-break is needed here.
pub open spec fn nat_before<T: NaturalOrder>(s: Store<T>, k1: int, k2: int) -> bool {
    T::nle(s.at(k1), s.at(k2)) && !T::nle(s.at(k2), s.at(k1))
}

/// The element at key `k` and the element `e` are tied under the natural
/// order: they stand for the same canonical slot.
pub open spec fn nat_tied_at<T: NaturalOrder>(s: Store<T>, k: int, e: T) -> bool {
    T::nle(s.at(k), e) && T::nle(e, s.at(k))
}

/// The element at key `k` comes strictly before the value `e` in the natural
/// order.
pub open spec fn elem_before<T: NaturalOrder>(s: Store<T>, k: int, e: T) -> bool {
    T::nle(s.at(k), e) && !T::nle(e, s.at(k))
}

/// The value `e` comes strictly before the element at key `k` in the natural
/// order.
pub open spec fn elem_after<T: NaturalOrder>(s: Store<T>, k: int, e: T) -> bool {
    T::nle(e, s.at(k)) && !T::nle(s.at(k), e)
}

/// The registry: the canonical collection, the arena behind it, and the named
/// projections, every one of them kept exact on every insert and removal.
pub struct Indexer<T, F, C> {
    store: Store<T>,
    main_index: Vec<ElementWrapper>,
    indexes: Vec<(String, Index<T, F, C>)>,
}

impl<T: NaturalOrder, F: Classifier<T>, C: Comparator<T>> Indexer<T, F, C> {
    /// The arena holding the elements.
    pub closed spec fn arena(self) -> Store<T> {
        self.store
    }

    /// The keys of the canonical collection, in natural order.
    pub closed spec fn canon(self) -> Seq<int> {
        Seq::new(self.main_index@.len(), |i: int| self.main_index@[i].key as int)
    }

    /// The named projections, as pairs of name and projection.
    pub closed spec fn registry(self) -> Seq<(Seq<char>, Index<T, F, C>)> {
        Seq::new(self.indexes@.len(), |i: int| (self.indexes@[i].0@, self.indexes@[i].1))
    }

    /// A projection is registered under the name `n`.
    pub open spec fn has_index(self, n: Seq<char>) -> bool {
        exists|i: int| 0 <= i < self.registry().len() && (#[trigger] self.registry()[i]).0 == n
    }

    /// The position of the projection named `n` in the registry.
    pub open spec fn index_pos(self, n: Seq<char>) -> int {
        choose|i: int| 0 <= i < self.registry().len() && (#[trigger] self.registry()[i]).0 == n
    }

    /// The projection registered under the name `n`.
    pub open spec fn index_named(self, n: Seq<char>) -> Index<T, F, C> {
        self.registry()[self.index_pos(n)].1
    }

    /// The projection `idx` holds exactly the canonical elements its filter
    /// accepts: the heart of the structure's invariant.
    pub open spec fn projection_exact(self, idx: Index<T, F, C>) -> bool {
        forall|k: int|
            #[trigger] idx.has_key(k) <==> self.canon().contains(k) && idx.cls().accepted(
                self.arena().at(k),
            )
    }

    /// The canonical collection holds live keys, strictly sorted by the
    /// natural order of their elements, so no two of its elements are tied.
    pub open spec fn canon_wf(self) -> bool {
        &&& forall|i: int|
            0 <= i < self.canon().len() ==> self.arena().live(#[trigger] self.canon()[i])
        &&& forall|i: int, j: int|
            #![trigger self.canon()[i], self.canon()[j]]
            0 <= i < j < self.canon().len() ==> nat_before(
                self.arena(),
                self.canon()[i],
                self.canon()[j],
            )
    }

    /// The whole structure is consistent: the canonical collection is sorted
    /// and live, every registered projection is well-formed and holds exactly
    /// the filtered canonical content, and names are unique.
    pub open spec fn wf(self) -> bool {
        &&& self.canon_wf()
        &&& forall|i: int|
            0 <= i < self.registry().len() ==> (#[trigger] self.registry()[i]).1.wf(self.arena())
        &&& forall|i: int|
            0 <= i < self.registry().len() ==> self.projection_exact(
                (#[trigger] self.registry()[i]).1,
            )
        &&& forall|i: int, j: int|
            #![trigger self.registry()[i], self.registry()[j]]
            0 <= i < j < self.registry().len() ==> self.registry()[i].0 != self.registry()[j].0
    }

    /// With unique names, a registry position carrying the name `n` settles
    /// what `index_named(n)` is.
    pub proof fn lemma_registry_lookup(self, n: Seq<char>, i: int)
        requires
            self.wf(),
            0 <= i < self.registry().len(),
            self.registry()[i].0 == n,
        ensures
            self.has_index(n),
            self.index_pos(n) == i,
            self.index_named(n) == self.registry()[i].1,
    {
        assert(self.has_index(n));
        let p = self.index_pos(n);
        assert(0 <= p < self.registry().len() && self.registry()[p].0 == n);
        if p != i {
            assert(self.registry()[p].0 != self.registry()[i].0);
        }
    }

    /// The canonical collection never holds one key twice.
    pub proof fn lemma_canon_distinct(self)
        requires
            self.canon_wf(),
        ensures
            forall|i: int, j: int|
                #![trigger self.canon()[i], self.canon()[j]]
                0 <= i < self.canon().len() && 0 <= j < self.canon().len() && i != j
                    ==> self.canon()[i] != self.canon()[j],
    {
        assert forall|i: int, j: int|
            #![trigger self.canon()[i], self.canon()[j]]
            0 <= i < self.canon().len() && 0 <= j < self.canon().len() && i != j
                implies self.canon()[i] != self.canon()[j] by {
            if i < j {
                assert(nat_before(self.arena(), self.canon()[i], self.canon()[j]));
            } else {
                assert(nat_before(self.arena(), self.canon()[j], self.canon()[i]));
            }
        }
    }

    /// Consistency only looks at the slots the canonical collection holds: a
    /// change of the arena outside those slots cannot break it.
    pub proof fn lemma_wf_untouched_canon(pre: Self, post: Self)
        requires
            pre.wf(),
            post.canon() == pre.canon(),
            post.registry() == pre.registry(),
            forall|k: int|
                pre.canon().contains(k) ==> post.arena().live(k) && post.arena().at(k)
                    == pre.arena().at(k),
        ensures
            post.wf(),
    {
        assert forall|i: int|
            0 <= i < post.canon().len() implies post.arena().live(#[trigger] post.canon()[i]) by {
            assert(pre.canon().contains(pre.canon()[i]));
        }
        assert forall|i: int, j: int|
            #![trigger post.canon()[i], post.canon()[j]]
            0 <= i < j < post.canon().len() implies nat_before(
            post.arena(),
            post.canon()[i],
            post.canon()[j],
        ) by {
            assert(pre.canon().contains(pre.canon()[i]));
            assert(pre.canon().contains(pre.canon()[j]));
            assert(nat_before(pre.arena(), pre.canon()[i], pre.canon()[j]));
        }
        assert forall|i: int|
            0 <= i < post.registry().len() implies (#[trigger] post.registry()[i]).1.wf(
            post.arena(),
        ) && post.projection_exact(post.registry()[i].1) by {
            let idx = pre.registry()[i].1;
            assert(idx.wf(pre.arena()));
            assert(pre.projection_exact(idx));
            assert forall|j: int| 0 <= j < idx.keys().len() implies post.arena().live(
                #[trigger] idx.keys()[j],
            ) && post.arena().at(idx.keys()[j]) == pre.arena().at(idx.keys()[j]) by {
                assert(idx.has_key(idx.keys()[j]));
                assert(pre.canon().contains(idx.keys()[j]));
            }
            assert forall|p: int, q: int|
                0 <= p < q < idx.keys().len() implies key_before(
                idx.cmp(),
                post.arena(),
                #[trigger] idx.keys()[p],
                #[trigger] idx.keys()[q],
            ) by {
                assert(key_before(idx.cmp(), pre.arena(), idx.keys()[p], idx.keys()[q]));
            }
            assert forall|k: int| #[trigger] idx.has_key(k) <==> post.canon().contains(k)
                && idx.cls().accepted(post.arena().at(k)) by {
                if pre.canon().contains(k) {
                    assert(post.arena().at(k) == pre.arena().at(k));
                }
            }
        }
    }

    /// A fresh registry: empty canonical collection, no projections.
    pub fn new() -> (r: Indexer<T, F, C>)
        ensures
            r.wf(),
            r.canon() == Seq::<int>::empty(),
            r.registry() == Seq::<(Seq<char>, Index<T, F, C>)>::empty(),
            forall|k: int| !r.arena().live(k),
            forall|k: int| r.arena().refs_of(k) == 0,
    {
        let r = Indexer {
            store: Store::new(),
            main_index: Vec::new(),
            indexes: Vec::new(),
        };
        proof {
            assert(r.canon() =~= Seq::<int>::empty());
            assert(r.registry() =~= Seq::<(Seq<char>, Index<T, F, C>)>::empty());
        }
        r
    }

    /// Reads the element a handle refers to.
    pub fn read(&self, element: &Handle) -> (r: &T)
        requires
            self.arena().live(element.id()),
        ensures
            *r == self.arena().at(element.id()),
    {
        self.store.read(element)
    }

    /// Returns the projection registered under `name`, or nothing when no
    /// such projection exists (for example because it removed itself).
    pub fn index(&self, name: &String) -> (r: Option<&Index<T, F, C>>)
        requires
            self.wf(),
        ensures
            r is Some <==> self.has_index(name@),
            r is Some ==> *r.unwrap() == self.index_named(name@),
    {
        let mut i: usize = 0;
        loop
            invariant
                self.wf(),
                i <= self.indexes@.len(),
                forall|j: int| 0 <= j < i ==> (#[trigger] self.registry()[j]).0 != name@,
            ensures
                i <= self.indexes@.len(),
                forall|j: int| 0 <= j < i ==> (#[trigger] self.registry()[j]).0 != name@,
                i < self.indexes@.len() ==> self.registry()[i as int].0 == name@,
            decreases self.indexes@.len() - i,
        {
            if i == self.indexes.len() {
                break ;
            }
            if self.indexes[i].0.eq(name) {
                proof {
                    assert(self.registry()[i as int].0 == name@);
                }
                break ;
            }
            i = i + 1;
        }
        if i == self.indexes.len() {
            proof {
                assert forall|j: int|
                    0 <= j < self.registry().len() implies (#[trigger] self.registry()[j]).0
                        != name@ by {}
            }
            None
        } else {
            proof {
                self.lemma_registry_lookup(name@, i as int);
            }
            Some(&self.indexes[i].1)
        }
    }

    /// Drops the projection registered under `name`, whatever it holds; a
    /// name that is not registered is left as absent.
    pub fn remove_index(&mut self, name: &String)
        requires
            old(self).wf(),
        ensures
            final(self).wf(),
            final(self).arena() == old(self).arena(),
            final(self).canon() == old(self).canon(),
            forall|n: Seq<char>|
                #[trigger] final(self).has_index(n) <==> old(self).has_index(n) && n != name@,
            forall|n: Seq<char>|
                #[trigger] final(self).has_index(n) ==> final(self).index_named(n) == old(
                    self,
                ).index_named(n),
    {
        let ghost pre = *self;
        let mut i: usize = 0;
        loop
            invariant
                *self == pre,
                pre.wf(),
                i <= self.indexes@.len(),
                forall|j: int| 0 <= j < i ==> (#[trigger] self.registry()[j]).0 != name@,
            ensures
                *self == pre,
                i <= self.indexes@.len(),
                forall|j: int| 0 <= j < i ==> (#[trigger] self.registry()[j]).0 != name@,
                i < self.indexes@.len() ==> self.registry()[i as int].0 == name@,
            decreases self.indexes@.len() - i,
        {
            if i == self.indexes.len() {
                break ;
            }
            if self.indexes[i].0.eq(name) {
                proof {
                    assert(self.registry()[i as int].0 == name@);
                }
                break ;
            }
            i = i + 1;
        }
        if i == self.indexes.len() {
            proof {
                assert(!self.has_index(name@));
                assert(self.wf());
            }
            return ;
        }
        let ghost oldreg = self.registry();
        self.indexes.remove(i);
        proof {
            assert(self.registry() =~= oldreg.remove(i as int));
            let ii = i as int;
            assert forall|n: Seq<char>|
                #[trigger] self.has_index(n) implies pre.has_index(n) && n != name@ by {
                let j = choose|j: int|
                    0 <= j < self.registry().len() && (#[trigger] self.registry()[j]).0 == n;
                let jj = if j < ii {
                    j
                } else {
                    j + 1
                };
                assert(pre.registry()[jj].0 == n);
                if n == name@ {
                    assert(pre.registry()[jj].0 != pre.registry()[ii].0);
                }
            }
            assert forall|n: Seq<char>|
                pre.has_index(n) && n != name@ implies #[trigger] self.has_index(n) by {
                let j = choose|j: int|
                    0 <= j < pre.registry().len() && (#[trigger] pre.registry()[j]).0 == n;
                let jj = if j < ii {
                    j
                } else {
                    j - 1
                };
                assert(self.registry()[jj].0 == n);
            }
            assert forall|p: int, q: int|
                #![trigger self.registry()[p], self.registry()[q]]
                0 <= p < q < self.registry().len() implies self.registry()[p].0
                    != self.registry()[q].0 by {
                let pp = if p < ii {
                    p
                } else {
                    p + 1
                };
                let qq = if q < ii {
                    q
                } else {
                    q + 1
                };
                assert(pre.registry()[pp].0 != pre.registry()[qq].0);
            }
            assert forall|j: int|
                0 <= j < self.registry().len() implies (#[trigger] self.registry()[j]).1.wf(
                self.arena(),
            ) && self.projection_exact(self.registry()[j].1) by {
                let jj = if j < ii {
                    j
                } else {
                    j + 1
                };
                assert(self.registry()[j] == pre.registry()[jj]);
                assert(pre.registry()[jj].1.wf(pre.arena()));
                assert(pre.projection_exact(pre.registry()[jj].1));
            }
            assert(self.main_index == pre.main_index);
            assert(self.store == pre.store);
            assert(self.canon() =~= pre.canon());
            assert(self.arena() == pre.arena());
            assert(self.canon_wf());
            assert(self.wf());
            assert forall|n: Seq<char>|
                #[trigger] self.has_index(n) implies self.index_named(n) == pre.index_named(
                n,
            ) by {
                let j = choose|j: int|
                    0 <= j < self.registry().len() && (#[trigger] self.registry()[j]).0 == n;
                let jj = if j < ii {
                    j
                } else {
                    j + 1
                };
                assert(pre.registry()[jj].0 == n);
                self.lemma_registry_lookup(n, j);
                pre.lemma_registry_lookup(n, jj);
            }
        }
    }


    /// Some canonical element is tied with `e` under the natural order, so
    /// `e` would share its slot.
    pub open spec fn canon_has_tie(self, e: T) -> bool {
        exists|i: int|
            0 <= i < self.canon().len() && nat_tied_at(self.arena(), #[trigger] self.canon()[i], e)
    }

    /// Stores `element` and offers it to the canonical collection and to
    /// every live projection. Ties under the natural order silently coalesce:
    /// the new value is discarded and the returned handle refers to the
    /// element already holding the canonical slot. Otherwise the element
    /// takes a fresh key, enters the canonical collection at its place in the
    /// natural order, and becomes a member of exactly the projections whose
    /// filters accept it.
    pub fn add(&mut self, element: T) -> (h: Handle)
        requires
            old(self).wf(),
            old(self).arena().refs_below_max(),
        ensures
            final(self).wf(),
            final(self).arena().owns(h),
            final(self).canon().contains(h.id()),
            nat_tied_at(final(self).arena(), h.id(), element),
            final(self).registry().len() == old(self).registry().len(),
            forall|i: int|
                0 <= i < old(self).registry().len() ==> (#[trigger] final(self).registry()[i]).0
                    == old(self).registry()[i].0 && old(self).registry()[i].1.same_shape(
                    final(self).registry()[i].1,
                ),
            old(self).canon_has_tie(element) ==> {
                &&& final(self).canon() == old(self).canon()
                &&& old(self).canon().contains(h.id())
                &&& final(self).arena().at(h.id()) == old(self).arena().at(h.id())
                &&& final(self).arena().refs_of(h.id()) == old(self).arena().refs_of(h.id()) + 1
                &&& final(self).registry() == old(self).registry()
                &&& forall|k: int| k != h.id()
                    ==> #[trigger] final(self).arena().refs_of(k) == old(self).arena().refs_of(k)
                &&& forall|k: int| k != h.id()
                    ==> #[trigger] final(self).arena().live(k) == old(self).arena().live(k)
                &&& forall|k: int| k != h.id() && old(self).arena().live(k)
                    ==> #[trigger] final(self).arena().at(k) == old(self).arena().at(k)
            },
            !old(self).canon_has_tie(element) ==> {
                &&& h.id() == old(self).arena().next_key()
                &&& final(self).arena().at(h.id()) == element
                &&& final(self).arena().refs_of(h.id()) == 1
                &&& forall|k: int|
                    #[trigger] final(self).canon().contains(k) <==> old(self).canon().contains(k)
                        || k == h.id()
                &&& final(self).canon().len() == old(self).canon().len() + 1
                &&& forall|k: int| k != h.id()
                    ==> #[trigger] final(self).arena().refs_of(k) == old(self).arena().refs_of(k)
                &&& forall|k: int| k != h.id()
                    ==> #[trigger] final(self).arena().live(k) == old(self).arena().live(k)
                &&& forall|k: int| k != h.id() && old(self).arena().live(k)
                    ==> #[trigger] final(self).arena().at(k) == old(self).arena().at(k)
            },
    {
        let ghost pre = *self;
        let mut i: usize = 0;
        loop
            invariant
                *self == pre,
                pre == *old(self),
                pre.wf(),
                pre.arena().refs_below_max(),
                i <= self.main_index@.len(),
                forall|j: int|
                    0 <= j < i ==> elem_before(self.arena(), #[trigger] self.canon()[j], element),
            ensures
                *self == pre,
                i <= self.main_index@.len(),
                forall|j: int|
                    0 <= j < i ==> elem_before(self.arena(), #[trigger] self.canon()[j], element),
                i < self.main_index@.len() ==> elem_after(
                    self.arena(),
                    self.canon()[i as int],
                    element,
                ),
            decreases self.main_index@.len() - i,
        {
            if i == self.main_index.len() {
                break ;
            }
            let ki = self.main_index[i].key;
            proof {
                assert(self.canon()[i as int] == ki as int);
                assert(self.arena().live(ki as int));
            }
            let a = self.store.read_key(ki);
            let le1 = T::nat_le(a, &element);
            let le2 = T::nat_le(&element, a);
            if le1 && le2 {
                // a natural-order tie: the slot is already taken
                let h = self.store.mint(ki);
                proof {
                    assert(nat_tied_at(pre.arena(), ki as int, element));
                    assert(pre.canon_has_tie(element));
                    assert(self.canon() =~= pre.canon());
                    assert(self.registry() =~= pre.registry());
                    assert(pre.canon().contains(ki as int));
                    assert forall|k2: int|
                        pre.canon().contains(k2) implies self.store.live(k2) && self.store.at(k2)
                            == pre.arena().at(k2) by {}
                    Self::lemma_wf_untouched_canon(pre, *self);
                }
                return h;
            }
            if !le1 {
                proof {
                    T::nle_total(self.store.at(ki as int), element);
                    assert(elem_after(self.arena(), self.canon()[i as int], element));
                }
                break ;
            }
            i = i + 1;
        }
        // no tie anywhere: everything before position `i` precedes the new
        // element, everything from `i` on follows it
        proof {
            assert forall|j: int|
                0 <= j < self.canon().len() implies !nat_tied_at(
                self.arena(),
                #[trigger] self.canon()[j],
                element,
            ) by {
                if j >= i && i < self.canon().len() {
                    if j > i {
                        assert(nat_before(self.arena(), self.canon()[i as int], self.canon()[j]));
                        let a = self.arena().at(self.canon()[i as int]);
                        let b = self.arena().at(self.canon()[j]);
                        if T::nle(b, element) {
                            T::nle_trans(a, b, element);
                        }
                        T::nle_trans(element, a, b);
                    }
                }
            }
            assert(!pre.canon_has_tie(element));
        }
        let ghost nk = pre.arena().next_key();
        let h = self.store.place(element);
        let key = h.key;
        proof {
            assert(h.id() == nk);
            // the canonical keys live in the old arena, so none equals `nk`
            assert forall|j: int|
                0 <= j < self.canon().len() implies #[trigger] self.canon()[j] != nk
                    && self.store.live(self.canon()[j]) && self.store.at(self.canon()[j])
                    == pre.arena().at(self.canon()[j]) by {
                assert(pre.arena().live(self.canon()[j]));
            }
        }
        let ghost precanon = self.canon();
        self.main_index.insert(i, ElementWrapper { key });
        proof {
            assert(self.canon() =~= precanon.insert(i as int, nk));
            assert forall|p: int, q: int|
                #![trigger self.canon()[p], self.canon()[q]]
                0 <= p < q < self.canon().len() implies nat_before(
                self.arena(),
                self.canon()[p],
                self.canon()[q],
            ) by {
                let ii = i as int;
                let s = self.arena();
                if p == ii {
                    if q == ii + 1 {
                        assert(self.canon()[q] == precanon[ii]);
                        assert(elem_after(s, precanon[ii], element));
                    } else {
                        assert(elem_after(s, precanon[ii], element));
                        assert(nat_before(s, precanon[ii], precanon[q - 1]));
                        let a = s.at(nk);
                        let b = s.at(precanon[ii]);
                        let d = s.at(precanon[q - 1]);
                        T::nle_trans(a, b, d);
                        if T::nle(d, a) {
                            T::nle_trans(d, a, b);
                        }
                    }
                } else if q == ii {
                    assert(self.canon()[p] == precanon[p]);
                    assert(elem_before(s, precanon[p], element));
                } else if p < ii && q > ii {
                    assert(self.canon()[p] == precanon[p]);
                    assert(self.canon()[q] == precanon[q - 1]);
                    if q - 1 == p {
                        let a = s.at(precanon[p]);
                        if T::nle(a, element) && !T::nle(element, a) {
                            assert(elem_after(s, precanon[p], element));
                        }
                    } else {
                        assert(nat_before(s, precanon[p], precanon[q - 1]));
                    }
                }
            }
            assert forall|i2: int|
                0 <= i2 < self.canon().len() implies self.arena().live(
                #[trigger] self.canon()[i2],
            ) by {
                let ii = i as int;
                if i2 != ii {
                    let jj = if i2 < ii { i2 } else { i2 - 1 };
                    assert(self.canon()[i2] == precanon[jj]);
                }
            }
            // canonical membership after the insertion
            assert forall|k: int|
                #[trigger] self.canon().contains(k) implies precanon.contains(k) || k == nk by {
                let j = choose|j: int| 0 <= j < self.canon().len() && self.canon()[j] == k;
                if j != i {
                    let jj = if j < i { j } else { j - 1 };
                    assert(precanon[jj] == k);
                }
            }
            assert forall|k: int|
                precanon.contains(k) || k == nk implies #[trigger] self.canon().contains(k) by {
                if k == nk {
                    assert(self.canon()[i as int] == k);
                } else {
                    let j = choose|j: int| 0 <= j < precanon.len() && precanon[j] == k;
                    let jj = if j < i { j } else { j + 1 };
                    assert(self.canon()[jj] == k);
                }
            }
        }
        // offer the new element to every projection
        let ghost mid = *self;
        let mut j: usize = 0;
        while j < self.indexes.len()
            invariant
                j <= self.indexes@.len(),
                pre.wf(),
                self.store == mid.store,
                self.main_index == mid.main_index,
                self.indexes@.len() == mid.indexes@.len(),
                mid.arena().live(nk),
                mid.arena().at(nk) == element,
                nk == key as int,
                nk == pre.arena().next_key(),
                self.canon() == mid.canon(),
                forall|k: int|
                    k != nk ==> #[trigger] mid.arena().live(k) == pre.arena().live(k),
                forall|k: int|
                    k != nk && pre.arena().live(k) ==> #[trigger] mid.arena().at(k)
                        == pre.arena().at(k),
                forall|k: int| #[trigger]
                    mid.canon().contains(k) <==> pre.canon().contains(k) || k == nk,
                forall|p: int|
                    0 <= p < self.registry().len() ==> (#[trigger] self.registry()[p]).0
                        == pre.registry()[p].0,
                forall|p: int|
                    j <= p < self.registry().len() ==> (#[trigger] self.registry()[p]).1
                        == pre.registry()[p].1,
                forall|p: int|
                    0 <= p < j ==> pre.registry()[p].1.same_shape(
                        (#[trigger] self.registry()[p]).1,
                    ),
                forall|p: int|
                    0 <= p < j ==> (#[trigger] self.registry()[p]).1.wf(mid.arena())
                        && mid.projection_exact(self.registry()[p].1),
                forall|p: int|
                    j <= p < self.registry().len() ==> (#[trigger] self.registry()[p]).1.wf(
                        pre.arena(),
                    ) && pre.projection_exact(self.registry()[p].1),
            decreases self.indexes@.len() - j,
        {
            let ghost before = self.registry();
            let (name, mut idx) = self.indexes.remove(j);
            proof {
                assert(before[j as int].1 == idx);
                assert(idx.wf(pre.arena()));
                // the old arena and the new one agree on the slots the
                // projection can hold, so it is well-formed in both
                assert forall|q: int|
                    0 <= q < idx.keys().len() implies self.store.live(#[trigger] idx.keys()[q])
                        && self.store.at(idx.keys()[q]) == pre.arena().at(idx.keys()[q]) by {
                    assert(idx.has_key(idx.keys()[q]));
                    assert(pre.canon().contains(idx.keys()[q]));
                    assert(pre.arena().live(idx.keys()[q]));
                    assert(idx.keys()[q] != nk);
                }
                assert forall|p2: int, q2: int|
                    0 <= p2 < q2 < idx.keys().len() implies key_before(
                    idx.cmp(),
                    self.store,
                    #[trigger] idx.keys()[p2],
                    #[trigger] idx.keys()[q2],
                ) by {
                    assert(key_before(idx.cmp(), pre.arena(), idx.keys()[p2], idx.keys()[q2]));
                }
                assert(idx.wf(self.store));
            }
            let ghost unregistered = idx;
            idx.register_key(&self.store, key);
            proof {
                // the updated projection holds exactly the filtered new canon
                assert forall|k: int|
                    #[trigger] idx.has_key(k) <==> mid.canon().contains(k) && idx.cls().accepted(
                        mid.arena().at(k),
                    ) by {
                    if k != nk {
                        if pre.canon().contains(k) {
                            assert(pre.arena().live(k));
                            assert(mid.arena().at(k) == pre.arena().at(k));
                        }
                        if unregistered.has_key(k) {
                            assert(pre.canon().contains(k));
                        }
                    }
                }
            }
            self.indexes.insert(j, (name, idx));
            j = j + 1;
            proof {
                assert(self.registry() =~= before.update(j - 1, (before[j - 1].0, idx)));
            }
        }
        proof {
            assert(self.wf());
            assert(self.canon() == mid.canon());
            assert(self.canon().contains(nk));
            assert(self.registry().len() == pre.registry().len());
            T::nle_total(element, element);
            assert(nat_tied_at(self.arena(), nk, element));
        }
        h
    }

    /// Registers a fresh projection under `name`, retroactively populated
    /// with every canonical element its filter accepts; an existing name is
    /// left untouched. The projection stays registered even when empty.
    pub fn new_index(&mut self, name: String, is_indexable: F, compare: C)
        requires
            old(self).wf(),
        ensures
            final(self).wf(),
            final(self).arena() == old(self).arena(),
            final(self).canon() == old(self).canon(),
            old(self).has_index(name@) ==> *final(self) == *old(self),
            !old(self).has_index(name@) ==> {
                &&& final(self).has_index(name@)
                &&& final(self).index_named(name@).cls() == is_indexable
                &&& final(self).index_named(name@).cmp() == compare
                &&& !final(self).index_named(name@).autoremove()
                &&& forall|n: Seq<char>| n != name@
                    ==> (#[trigger] final(self).has_index(n) <==> old(self).has_index(n))
                &&& forall|n: Seq<char>| n != name@ && old(self).has_index(n)
                    ==> #[trigger] final(self).index_named(n) == old(self).index_named(n)
            },
    {
        let idx = Index::new(is_indexable, compare);
        self.install_index(name, idx);
    }

    /// Registers a fresh projection under `name`, retroactively populated,
    /// that will drop itself from the registry as soon as a removal leaves it
    /// empty; an existing name is left untouched.
    pub fn new_autoremove_index(&mut self, name: String, is_indexable: F, compare: C)
        requires
            old(self).wf(),
        ensures
            final(self).wf(),
            final(self).arena() == old(self).arena(),
            final(self).canon() == old(self).canon(),
            old(self).has_index(name@) ==> *final(self) == *old(self),
            !old(self).has_index(name@) ==> {
                &&& final(self).has_index(name@)
                &&& final(self).index_named(name@).cls() == is_indexable
                &&& final(self).index_named(name@).cmp() == compare
                &&& final(self).index_named(name@).autoremove()
                &&& forall|n: Seq<char>| n != name@
                    ==> (#[trigger] final(self).has_index(n) <==> old(self).has_index(n))
                &&& forall|n: Seq<char>| n != name@ && old(self).has_index(n)
                    ==> #[trigger] final(self).index_named(n) == old(self).index_named(n)
            },
    {
        let idx = Index::new_autoremove(is_indexable, compare);
        self.install_index(name, idx);
    }

    /// Populates the fresh projection `idx` from the canonical collection
    /// and registers it under `name`, unless the name is taken.
    fn install_index(&mut self, name: String, idx: Index<T, F, C>)
        requires
            old(self).wf(),
            idx.keys() == Seq::<int>::empty(),
        ensures
            final(self).wf(),
            final(self).arena() == old(self).arena(),
            final(self).canon() == old(self).canon(),
            old(self).has_index(name@) ==> *final(self) == *old(self),
            !old(self).has_index(name@) ==> {
                &&& final(self).has_index(name@)
                &&& final(self).index_named(name@).cls() == idx.cls()
                &&& final(self).index_named(name@).cmp() == idx.cmp()
                &&& final(self).index_named(name@).autoremove() == idx.autoremove()
                &&& forall|n: Seq<char>| n != name@
                    ==> (#[trigger] final(self).has_index(n) <==> old(self).has_index(n))
                &&& forall|n: Seq<char>| n != name@ && old(self).has_index(n)
                    ==> #[trigger] final(self).index_named(n) == old(self).index_named(n)
            },
    {
        let ghost pre = *self;
        let mut i: usize = 0;
        loop
            invariant
                *self == pre,
                pre.wf(),
                i <= self.indexes@.len(),
                forall|j: int| 0 <= j < i ==> (#[trigger] self.registry()[j]).0 != name@,
            ensures
                *self == pre,
                i <= self.indexes@.len(),
                forall|j: int| 0 <= j < i ==> (#[trigger] self.registry()[j]).0 != name@,
                i < self.indexes@.len() ==> self.registry()[i as int].0 == name@,
            decreases self.indexes@.len() - i,
        {
            if i == self.indexes.len() {
                break ;
            }
            if self.indexes[i].0.eq(&name) {
                proof {
                    assert(self.registry()[i as int].0 == name@);
                }
                break ;
            }
            i = i + 1;
        }
        if i < self.indexes.len() {
            // idempotent creation: the name is taken
            return ;
        }
        proof {
            assert(!pre.has_index(name@));
        }
        let mut fresh = idx;
        let mut p: usize = 0;
        while p < self.main_index.len()
            invariant
                *self == pre,
                pre.wf(),
                p <= self.main_index@.len(),
                fresh.wf(self.store),
                fresh.cls() == idx.cls(),
                fresh.cmp() == idx.cmp(),
                fresh.autoremove() == idx.autoremove(),
                forall|k: int| #[trigger]
                    fresh.has_key(k) <==> (exists|q: int| 0 <= q < p && self.canon()[q] == k)
                        && fresh.cls().accepted(self.arena().at(k)),
            decreases self.main_index@.len() - p,
        {
            let kp = self.main_index[p].key;
            proof {
                assert(self.canon()[p as int] == kp as int);
                assert(self.arena().live(kp as int));
                pre.lemma_canon_distinct();
            }
            let ghost prefresh = fresh;
            fresh.register_key(&self.store, kp);
            p = p + 1;
            proof {
                assert forall|k: int| #[trigger]
                    fresh.has_key(k) <==> (exists|q: int| 0 <= q < p && self.canon()[q] == k)
                        && fresh.cls().accepted(self.arena().at(k)) by {
                    if k == kp as int {
                        assert(self.canon()[p - 1] == k);
                        if fresh.cls().accepted(self.arena().at(k)) {
                            assert(fresh.has_key(k));
                        }
                    } else {
                        assert(prefresh.has_key(k) == fresh.has_key(k));
                        assert forall|q: int|
                            0 <= q < p && self.canon()[q] == k implies q < p - 1 by {}
                    }
                }
            }
        }
        proof {
            assert forall|k: int| #[trigger]
                fresh.has_key(k) <==> self.canon().contains(k) && fresh.cls().accepted(
                    self.arena().at(k),
                ) by {}
        }
        let ghost preself = *self;
        self.indexes.push((name, fresh));
        proof {
            assert(self.registry() =~= preself.registry().push((name@, fresh)));
            let newlen = self.registry().len();
            assert(self.registry()[newlen - 1].0 == name@);
            assert(self.registry()[newlen - 1].1 == fresh);
            assert(self.canon() =~= pre.canon());
            assert(self.arena() == pre.arena());
            // consistency of the extended registry
            assert forall|q: int|
                0 <= q < self.registry().len() implies (#[trigger] self.registry()[q]).1.wf(
                self.arena(),
            ) && self.projection_exact(self.registry()[q].1) by {
                if q < newlen - 1 {
                    assert(self.registry()[q] == pre.registry()[q]);
                    assert(pre.registry()[q].1.wf(pre.arena()));
                    assert(pre.projection_exact(pre.registry()[q].1));
                }
            }
            assert forall|p2: int, q2: int|
                #![trigger self.registry()[p2], self.registry()[q2]]
                0 <= p2 < q2 < self.registry().len() implies self.registry()[p2].0
                    != self.registry()[q2].0 by {
                if q2 == newlen - 1 {
                    assert(self.registry()[p2] == pre.registry()[p2]);
                } else {
                    assert(self.registry()[p2] == pre.registry()[p2]);
                    assert(self.registry()[q2] == pre.registry()[q2]);
                }
            }
            assert(self.wf());
            self.lemma_registry_lookup(name@, newlen - 1);
            assert forall|n: Seq<char>| n != name@ implies (#[trigger] self.has_index(n)
                <==> pre.has_index(n)) by {
                if self.has_index(n) {
                    let j = choose|j: int|
                        0 <= j < self.registry().len() && (#[trigger] self.registry()[j]).0 == n;
                    assert(j < newlen - 1);
                    assert(pre.registry()[j].0 == n);
                }
                if pre.has_index(n) {
                    let j = choose|j: int|
                        0 <= j < pre.registry().len() && (#[trigger] pre.registry()[j]).0 == n;
                    assert(self.registry()[j].0 == n);
                }
            }
            assert forall|n: Seq<char>| n != name@ && pre.has_index(n) implies #[trigger] self
                .index_named(n) == pre.index_named(n) by {
                let j = choose|j: int|
                    0 <= j < pre.registry().len() && (#[trigger] pre.registry()[j]).0 == n;
                pre.lemma_registry_lookup(n, j);
                self.lemma_registry_lookup(n, j);
            }
        }
    }


    /// Mints one handle per canonical element, in natural order, for
    /// iteration over everything the store holds.
    pub fn get_main_index(&mut self) -> (it: IndexIntoIterator)
        requires
            old(self).wf(),
            old(self).arena().refs_below_max(),
        ensures
            final(self).wf(),
            final(self).canon() == old(self).canon(),
            final(self).registry() == old(self).registry(),
            it.remaining() == old(self).canon(),
            forall|k: int| #[trigger]
                final(self).arena().refs_of(k) == old(self).arena().refs_of(k) + (
                if old(self).canon().contains(k) {
                    1int
                } else {
                    0int
                }),
            forall|k: int| #[trigger]
                final(self).arena().live(k) == old(self).arena().live(k),
            forall|k: int|
                old(self).arena().live(k) ==> #[trigger] final(self).arena().at(k) == old(
                    self,
                ).arena().at(k),
    {
        let ghost pre = *self;
        proof {
            pre.lemma_canon_distinct();
        }
        let mut handles: Vec<Handle> = Vec::new();
        let mut i: usize = 0;
        while i < self.main_index.len()
            invariant
                pre.wf(),
                pre.arena().refs_below_max(),
                i <= self.main_index@.len(),
                self.main_index == pre.main_index,
                self.indexes == pre.indexes,
                handles@.len() == i,
                forall|j: int| 0 <= j < i ==> #[trigger] handles@[j].id() == pre.canon()[j],
                forall|j1: int, j2: int|
                    #![trigger pre.canon()[j1], pre.canon()[j2]]
                    0 <= j1 < pre.canon().len() && 0 <= j2 < pre.canon().len() && j1 != j2
                        ==> pre.canon()[j1] != pre.canon()[j2],
                forall|k: int| #[trigger]
                    self.store.refs_of(k) == pre.arena().refs_of(k) + (
                    if pre.canon().take(i as int).contains(k) {
                        1int
                    } else {
                        0int
                    }),
                forall|k: int| self.store.live(k) == pre.arena().live(k),
                forall|k: int| pre.arena().live(k) ==> self.store.at(k) == pre.arena().at(k),
            decreases self.main_index@.len() - i,
        {
            let ki = self.main_index[i].key;
            proof {
                assert(pre.canon()[i as int] == ki as int);
                assert(pre.arena().live(ki as int));
                assert(!pre.canon().take(i as int).contains(ki as int));
            }
            let h = self.store.mint(ki);
            handles.push(h);
            i = i + 1;
            proof {
                assert forall|k: int| #[trigger]
                    self.store.refs_of(k) == pre.arena().refs_of(k) + (
                    if pre.canon().take(i as int).contains(k) {
                        1int
                    } else {
                        0int
                    }) by {
                    if k == ki as int {
                        assert(pre.canon().take(i as int)[i - 1] == k);
                    } else {
                        assert(pre.canon().take(i as int).contains(k) == pre.canon().take(
                            i as int - 1,
                        ).contains(k));
                    }
                }
            }
        }
        proof {
            assert(pre.canon().take(pre.canon().len() as int) =~= pre.canon());
            assert(self.canon() =~= pre.canon());
            assert(self.registry() =~= pre.registry());
            assert forall|k2: int|
                pre.canon().contains(k2) implies self.store.live(k2) && self.store.at(k2)
                    == pre.arena().at(k2) by {
                assert(pre.arena().live(k2));
            }
            Self::lemma_wf_untouched_canon(pre, *self);
        }
        let it = IndexIntoIterator { handles };
        proof {
            assert(it.remaining() =~= pre.canon());
        }
        it
    }

    /// Mints one handle per member of the projection named `name`, in the
    /// projection's placement order; absent when no such projection exists.
    /// Iterating does not touch the projection, so iterating twice hands out
    /// the same sequence of elements both times.
    pub fn get_index(&mut self, name: &String) -> (r: Option<IndexIntoIterator>)
        requires
            old(self).wf(),
            old(self).arena().refs_below_max(),
        ensures
            final(self).wf(),
            final(self).canon() == old(self).canon(),
            final(self).registry() == old(self).registry(),
            r is Some <==> old(self).has_index(name@),
            !old(self).has_index(name@) ==> *final(self) == *old(self),
            old(self).has_index(name@) ==> {
                &&& r.unwrap().remaining() == old(self).index_named(name@).keys()
                &&& forall|k: int| #[trigger]
                    final(self).arena().refs_of(k) == old(self).arena().refs_of(k) + (
                    if old(self).index_named(name@).has_key(k) {
                        1int
                    } else {
                        0int
                    })
                &&& forall|k: int| #[trigger]
                    final(self).arena().live(k) == old(self).arena().live(k)
                &&& forall|k: int|
                    old(self).arena().live(k) ==> #[trigger] final(self).arena().at(k) == old(
                        self,
                    ).arena().at(k)
            },
    {
        let ghost pre = *self;
        let mut i: usize = 0;
        loop
            invariant
                *self == pre,
                pre.wf(),
                i <= self.indexes@.len(),
                forall|j: int| 0 <= j < i ==> (#[trigger] self.registry()[j]).0 != name@,
            ensures
                *self == pre,
                i <= self.indexes@.len(),
                forall|j: int| 0 <= j < i ==> (#[trigger] self.registry()[j]).0 != name@,
                i < self.indexes@.len() ==> self.registry()[i as int].0 == name@,
            decreases self.indexes@.len() - i,
        {
            if i == self.indexes.len() {
                break ;
            }
            if self.indexes[i].0.eq(name) {
                proof {
                    assert(self.registry()[i as int].0 == name@);
                }
                break ;
            }
            i = i + 1;
        }
        if i == self.indexes.len() {
            proof {
                assert(!pre.has_index(name@));
            }
            return None;
        }
        proof {
            pre.lemma_registry_lookup(name@, i as int);
            assert(self.indexes@[i as int].1.wf(self.store));
        }
        let it = self.indexes[i].1.iter(&mut self.store);
        proof {
            let idx = pre.registry()[i as int].1;
            assert(self.canon() =~= pre.canon());
            assert(self.registry() =~= pre.registry());
            assert forall|k2: int|
                pre.canon().contains(k2) implies self.store.live(k2) && self.store.at(k2)
                    == pre.arena().at(k2) by {
                assert(pre.arena().live(k2));
            }
            Self::lemma_wf_untouched_canon(pre, *self);
            assert(it.remaining() == idx.keys());
        }
        Some(it)
    }

    /// Removes the element behind `element` from the canonical collection
    /// and from every projection holding it, consuming the handle. Every
    /// auto-remove projection this leaves empty is dropped from the registry.
    /// The owned element comes back exactly when this was the last
    /// outstanding handle; otherwise the element stays readable through the
    /// remaining handles.
    pub fn remove(&mut self, element: Handle) -> (r: Option<T>)
        requires
            old(self).wf(),
            old(self).arena().owns(element),
        ensures
            final(self).wf(),
            forall|k: int|
                #[trigger] final(self).canon().contains(k) <==> old(self).canon().contains(k)
                    && k != element.id(),
            final(self).canon().len() == old(self).canon().len() - (
            if old(self).canon().contains(element.id()) {
                1int
            } else {
                0int
            }),
            final(self).arena().refs_of(element.id()) == old(self).arena().refs_of(
                element.id(),
            ) - 1,
            r is Some <==> old(self).arena().refs_of(element.id()) == 1,
            old(self).arena().refs_of(element.id()) == 1 ==> r == Some(
                old(self).arena().at(element.id()),
            ) && !final(self).arena().live(element.id()),
            old(self).arena().refs_of(element.id()) > 1 ==> final(self).arena().live(
                element.id(),
            ) && final(self).arena().at(element.id()) == old(self).arena().at(element.id()),
            forall|k: int| k != element.id()
                ==> #[trigger] final(self).arena().refs_of(k) == old(self).arena().refs_of(k),
            forall|k: int| k != element.id()
                ==> #[trigger] final(self).arena().live(k) == old(self).arena().live(k),
            forall|k: int| k != element.id() && old(self).arena().live(k)
                ==> #[trigger] final(self).arena().at(k) == old(self).arena().at(k),
            forall|n: Seq<char>|
                #[trigger] final(self).has_index(n) <==> old(self).has_index(n) && old(
                    self,
                ).index_named(n).survives(element.id()),
            forall|n: Seq<char>|
                #[trigger] final(self).has_index(n) ==> old(self).index_named(n).same_shape(
                    final(self).index_named(n),
                ) && forall|k: int|
                    #[trigger] final(self).index_named(n).has_key(k) <==> old(
                        self,
                    ).index_named(n).has_key(k) && k != element.id(),
    {
        let ghost pre = *self;
        let kid = element.key;
        // withdraw the key from the canonical collection
        let mut found = false;
        let mut i: usize = 0;
        loop
            invariant_except_break
                !found,
            invariant
                *self == pre,
                pre.wf(),
                i <= self.main_index@.len(),
                forall|j: int| 0 <= j < i ==> #[trigger] self.canon()[j] != kid as int,
            ensures
                *self == pre,
                i <= self.main_index@.len(),
                forall|j: int| 0 <= j < i ==> #[trigger] self.canon()[j] != kid as int,
                found ==> i < self.main_index@.len() && self.canon()[i as int] == kid as int,
                !found ==> i == self.main_index@.len(),
            decreases self.main_index@.len() - i,
        {
            if i == self.main_index.len() {
                break ;
            }
            if self.main_index[i].key == kid {
                proof {
                    assert(self.canon()[i as int] == kid as int);
                }
                found = true;
                break ;
            }
            i = i + 1;
        }
        let ghost precanon = self.canon();
        if found {
            proof {
                pre.lemma_canon_distinct();
            }
            self.main_index.remove(i);
            proof {
                assert(self.canon() =~= precanon.remove(i as int));
                assert forall|k: int|
                    #[trigger] self.canon().contains(k) implies precanon.contains(k) && k
                        != kid as int by {
                    let j = choose|j: int| 0 <= j < self.canon().len() && self.canon()[j] == k;
                    let jj = if j < i {
                        j
                    } else {
                        j + 1
                    };
                    assert(precanon[jj] == k);
                    if k == kid as int {
                        assert(precanon[jj] != precanon[i as int]);
                    }
                }
                assert forall|k: int|
                    precanon.contains(k) && k != kid as int implies #[trigger] self.canon().contains(
                    k,
                ) by {
                    let j = choose|j: int| 0 <= j < precanon.len() && precanon[j] == k;
                    let jj = if j < i {
                        j
                    } else {
                        j - 1
                    };
                    assert(self.canon()[jj] == k);
                }
                assert forall|p: int, q2: int|
                    #![trigger self.canon()[p], self.canon()[q2]]
                    0 <= p < q2 < self.canon().len() implies nat_before(
                    self.arena(),
                    self.canon()[p],
                    self.canon()[q2],
                ) by {
                    let pp = if p < i {
                        p
                    } else {
                        p + 1
                    };
                    let qq = if q2 < i {
                        q2
                    } else {
                        q2 + 1
                    };
                    assert(nat_before(pre.arena(), precanon[pp], precanon[qq]));
                }
            }
        } else {
            proof {
                assert forall|k: int|
                    #[trigger] self.canon().contains(k) implies precanon.contains(k) && k
                        != kid as int by {
                    if k == kid as int {
                        let j = choose|j: int|
                            0 <= j < self.canon().len() && self.canon()[j] == k;
                        assert(self.canon()[j] != kid as int);
                    }
                }
            }
        }
        // walk the projections: withdraw the element, drop emptied
        // auto-remove projections on the spot
        let ghost mid = *self;
        let ghost mut consumed: int = 0;
        let ghost mut origin: Seq<int> = Seq::empty();
        let mut j: usize = 0;
        while j < self.indexes.len()
            invariant
                pre.wf(),
                pre.arena().owns(element),
                element.id() == kid as int,
                self.store == pre.store,
                mid.store == pre.store,
                self.main_index == mid.main_index,
                self.canon() == mid.canon(),
                forall|k: int|
                    #[trigger] mid.canon().contains(k) <==> pre.canon().contains(k) && k
                        != kid as int,
                j <= self.indexes@.len(),
                j <= consumed <= pre.registry().len(),
                self.registry().len() == j + pre.registry().len() - consumed,
                origin.len() == j,
                forall|p: int|
                    j <= p < self.registry().len() ==> (#[trigger] self.registry()[p])
                        == pre.registry()[p - j + consumed],
                forall|p: int|
                    0 <= p < j ==> 0 <= #[trigger] origin[p] < consumed,
                forall|p1: int, p2: int|
                    #![trigger origin[p1], origin[p2]]
                    0 <= p1 < p2 < j ==> origin[p1] < origin[p2],
                forall|p: int|
                    0 <= p < j ==> (#[trigger] self.registry()[p]).0
                        == pre.registry()[origin[p]].0,
                forall|p: int|
                    0 <= p < j ==> pre.registry()[origin[p]].1.same_shape(
                        (#[trigger] self.registry()[p]).1,
                    ),
                forall|p: int|
                    0 <= p < j ==> pre.registry()[origin[p]].1.survives(kid as int),
                forall|p: int, k: int|
                    #![trigger (self.registry()[p]).1.has_key(k)]
                    0 <= p < j ==> ((self.registry()[p]).1.has_key(k) <==> pre.registry()[origin[p]].1.has_key(
                        k,
                    ) && k != kid as int),
                forall|p: int|
                    0 <= p < j ==> (#[trigger] self.registry()[p]).1.wf(self.store)
                        && mid.projection_exact(self.registry()[p].1),
                forall|pp: int|
                    0 <= pp < consumed && (#[trigger] pre.registry()[pp]).1.survives(kid as int)
                        ==> exists|p: int| 0 <= p < j && origin[p] == pp,
            decreases self.indexes@.len() - j,
        {
            let ghost before = self.registry();
            let (name, mut idx) = self.indexes.remove(j);
            proof {
                assert(before[j as int] == pre.registry()[consumed]);
                assert(idx == pre.registry()[consumed].1);
                assert(idx.wf(pre.arena()));
                assert(pre.projection_exact(idx));
            }
            let ghost unremoved = idx;
            idx.remove(&self.store, &element);
            let drop_it = idx.remove_if_empty() && idx.is_empty();
            if drop_it {
                proof {
                    // all old members were the removed key, so the
                    // projection does not survive
                    assert forall|k2: int|
                        #[trigger] unremoved.has_key(k2) implies k2 == kid as int by {
                        if k2 != kid as int {
                            assert(idx.has_key(k2));
                        }
                    }
                    assert(!unremoved.survives(kid as int));
                    assert(self.registry() =~= before.remove(j as int));
                    let ghost consumed0 = consumed;
                    consumed = consumed + 1;
                    assert forall|pp: int|
                        0 <= pp < consumed && (#[trigger] pre.registry()[pp]).1.survives(
                            kid as int,
                        ) implies exists|p: int| 0 <= p < j && origin[p] == pp by {
                        if pp == consumed0 {
                            assert(!pre.registry()[pp].1.survives(kid as int));
                        } else {
                            let p = choose|p: int| 0 <= p < j && origin[p] == pp;
                            assert(origin[p] == pp);
                        }
                    }
                }
            } else {
                proof {
                    if unremoved.autoremove() {
                        assert(idx.keys().len() > 0);
                        assert(idx.has_key(idx.keys()[0]));
                        assert(unremoved.has_key(idx.keys()[0]) && idx.keys()[0] != kid as int);
                        assert(unremoved.survives(kid as int));
                    } else {
                        assert(unremoved.survives(kid as int));
                    }
                }
                self.indexes.insert(j, (name, idx));
                j = j + 1;
                proof {
                    assert(self.registry() =~= before.update(j - 1, (before[j - 1].0, idx)));
                    let ghost origin0 = origin;
                    let ghost consumed0 = consumed;
                    origin = origin.push(consumed);
                    consumed = consumed + 1;
                    assert(origin[j - 1] == consumed0);
                    assert forall|pp: int|
                        0 <= pp < consumed && (#[trigger] pre.registry()[pp]).1.survives(
                            kid as int,
                        ) implies exists|p: int| 0 <= p < j && origin[p] == pp by {
                        if pp == consumed0 {
                            assert(origin[j - 1] == pp);
                        } else {
                            let p = choose|p: int| 0 <= p < j - 1 && origin0[p] == pp;
                            assert(origin[p] == pp);
                        }
                    }
                    // the updated projection is exact for the new canon
                    assert forall|k: int|
                        #[trigger] idx.has_key(k) <==> mid.canon().contains(k)
                            && idx.cls().accepted(mid.arena().at(k)) by {
                        if unremoved.has_key(k) {
                            assert(pre.canon().contains(k));
                        }
                    }
                }
            }
        }
        proof {
            assert(consumed == pre.registry().len());
        }
        // give the handle back; the element comes out when it was the last
        self.store.decref(kid);
        let out = self.store.try_free(kid);
        proof {
            let ghost last = *self;
            assert forall|k2: int|
                mid.canon().contains(k2) implies self.store.live(k2) && self.store.at(k2)
                    == mid.arena().at(k2) by {
                assert(k2 != kid as int);
                assert(pre.canon().contains(k2));
                assert(pre.arena().live(k2));
            }
            assert(last.canon() =~= mid.canon());
            // consistency of the final state
            assert forall|p: int|
                0 <= p < last.registry().len() implies (#[trigger] last.registry()[p]).1.wf(
                last.arena(),
            ) && last.projection_exact(last.registry()[p].1) by {
                let idx = last.registry()[p].1;
                assert(idx.wf(mid.arena()));
                assert(mid.projection_exact(idx));
                assert forall|q2: int|
                    0 <= q2 < idx.keys().len() implies last.arena().live(
                    #[trigger] idx.keys()[q2],
                ) && last.arena().at(idx.keys()[q2]) == mid.arena().at(idx.keys()[q2]) by {
                    assert(idx.has_key(idx.keys()[q2]));
                    assert(mid.canon().contains(idx.keys()[q2]));
                }
                assert forall|p2: int, q2: int|
                    0 <= p2 < q2 < idx.keys().len() implies key_before(
                    idx.cmp(),
                    last.arena(),
                    #[trigger] idx.keys()[p2],
                    #[trigger] idx.keys()[q2],
                ) by {
                    assert(key_before(idx.cmp(), mid.arena(), idx.keys()[p2], idx.keys()[q2]));
                    assert(idx.has_key(idx.keys()[p2]));
                    assert(idx.has_key(idx.keys()[q2]));
                    assert(mid.canon().contains(idx.keys()[p2]));
                    assert(mid.canon().contains(idx.keys()[q2]));
                }
                assert forall|k: int| #[trigger] idx.has_key(k) <==> last.canon().contains(k)
                    && idx.cls().accepted(last.arena().at(k)) by {
                    if mid.canon().contains(k) {
                        assert(last.arena().at(k) == mid.arena().at(k));
                    }
                }
            }
            assert forall|i2: int|
                0 <= i2 < last.canon().len() implies last.arena().live(
                #[trigger] last.canon()[i2],
            ) by {
                assert(mid.canon().contains(mid.canon()[i2]));
            }
            assert forall|p2: int, q2: int|
                #![trigger last.canon()[p2], last.canon()[q2]]
                0 <= p2 < q2 < last.canon().len() implies nat_before(
                last.arena(),
                last.canon()[p2],
                last.canon()[q2],
            ) by {
                assert(nat_before(mid.arena(), mid.canon()[p2], mid.canon()[q2]));
                assert(mid.canon().contains(mid.canon()[p2]));
                assert(mid.canon().contains(mid.canon()[q2]));
            }
            assert(last.wf());
            // the registry ensures
            assert forall|n: Seq<char>|
                #[trigger] last.has_index(n) implies pre.has_index(n) && pre.index_named(
                n,
            ).survives(kid as int) by {
                let p = choose|p: int|
                    0 <= p < last.registry().len() && (#[trigger] last.registry()[p]).0 == n;
                assert(pre.registry()[origin[p]].0 == n);
                pre.lemma_registry_lookup(n, origin[p]);
            }
            assert forall|n: Seq<char>|
                pre.has_index(n) && pre.index_named(n).survives(kid as int) implies #[trigger] last
                .has_index(n) by {
                let pp = choose|pp: int|
                    0 <= pp < pre.registry().len() && (#[trigger] pre.registry()[pp]).0 == n;
                pre.lemma_registry_lookup(n, pp);
                assert(pre.registry()[pp].1.survives(kid as int));
                let p = choose|p: int| 0 <= p < j && origin[p] == pp;
                assert(last.registry()[p].0 == n);
            }
            assert forall|n: Seq<char>|
                #[trigger] last.has_index(n) implies pre.index_named(n).same_shape(
                last.index_named(n),
            ) && forall|k: int|
                #[trigger] last.index_named(n).has_key(k) <==> pre.index_named(n).has_key(k) && k
                    != kid as int by {
                let p = choose|p: int|
                    0 <= p < last.registry().len() && (#[trigger] last.registry()[p]).0 == n;
                assert(pre.registry()[origin[p]].0 == n);
                pre.lemma_registry_lookup(n, origin[p]);
                last.lemma_registry_lookup(n, p);
            }
        }
        out
    }


    /// The names of the live projections, in registry order.
    pub fn get_index_list(&self) -> (r: Vec<String>)
        ensures
            r@.len() == self.registry().len(),
            forall|i: int|
                0 <= i < r@.len() ==> (#[trigger] r@[i])@ == self.registry()[i].0,
    {
        let mut names: Vec<String> = Vec::new();
        let mut i: usize = 0;
        while i < self.indexes.len()
            invariant
                i <= self.indexes@.len(),
                names@.len() == i,
                forall|j: int|
                    0 <= j < i ==> (#[trigger] names@[j])@ == self.registry()[j].0,
            decreases self.indexes@.len() - i,
        {
            names.push(self.indexes[i].0.clone());
            i = i + 1;
        }
        names
    }

    /// Gives the handle `element` back without removing the element: the
    /// element stays wherever it is held, and its storage is reclaimed only
    /// when this was the last reference to an element no collection holds.
    pub fn release(&mut self, element: Handle)
        requires
            old(self).wf(),
            old(self).arena().owns(element),
        ensures
            final(self).wf(),
            final(self).canon() == old(self).canon(),
            final(self).registry() == old(self).registry(),
            final(self).arena().refs_of(element.id()) == old(self).arena().refs_of(
                element.id(),
            ) - 1,
            forall|k: int| k != element.id()
                ==> #[trigger] final(self).arena().refs_of(k) == old(self).arena().refs_of(k),
            forall|k: int| k != element.id()
                ==> #[trigger] final(self).arena().live(k) == old(self).arena().live(k),
            forall|k: int| k != element.id() && old(self).arena().live(k)
                ==> #[trigger] final(self).arena().at(k) == old(self).arena().at(k),
            old(self).canon().contains(element.id()) || old(self).arena().refs_of(element.id())
                > 1 ==> final(self).arena().live(element.id()) && final(self).arena().at(
                element.id(),
            ) == old(self).arena().at(element.id()),
            !old(self).canon().contains(element.id()) && old(self).arena().refs_of(element.id())
                == 1 ==> !final(self).arena().live(element.id()),
    {
        let ghost pre = *self;
        let k = element.key;
        let mut present = false;
        let mut i: usize = 0;
        while i < self.main_index.len()
            invariant
                *self == pre,
                i <= self.main_index@.len(),
                present ==> self.canon().contains(k as int),
                !present ==> forall|j: int| 0 <= j < i ==> #[trigger] self.canon()[j] != k as int,
            decreases self.main_index@.len() - i,
        {
            if self.main_index[i].key == k {
                proof {
                    assert(self.canon()[i as int] == k as int);
                }
                present = true;
            }
            i = i + 1;
        }
        proof {
            if !present {
                assert forall|j: int|
                    0 <= j < self.canon().len() implies #[trigger] self.canon()[j]
                        != k as int by {}
                assert(!self.canon().contains(k as int));
            }
        }
        self.store.decref(k);
        if !present {
            let _leftover = self.store.try_free(k);
        }
        proof {
            assert(self.canon() =~= pre.canon());
            assert(self.registry() =~= pre.registry());
            assert forall|k2: int|
                pre.canon().contains(k2) implies self.store.live(k2) && self.store.at(k2)
                    == pre.arena().at(k2) by {
                if k2 == k as int {
                    assert(present);
                }
            }
            Self::lemma_wf_untouched_canon(pre, *self);
        }
    }
}


/// Two strictly sorted key sequences with the same members are equal.
pub proof fn lemma_sorted_keys_unique<T, C: Comparator<T>>(c: C, s: Store<T>, a: Seq<int>, b: Seq<int>)
    requires
        forall|p: int, q: int|
            #![trigger a[p], a[q]]
            0 <= p < q < a.len() ==> key_before(c, s, a[p], a[q]),
        forall|p: int, q: int|
            #![trigger b[p], b[q]]
            0 <= p < q < b.len() ==> key_before(c, s, b[p], b[q]),
        forall|k: int| #[trigger] a.contains(k) <==> b.contains(k),
    ensures
        a == b,
    decreases a.len(),
{
    if a.len() == 0 {
        if b.len() > 0 {
            assert(b.contains(b[0]));
            assert(a.contains(b[0]));
        }
        assert(a =~= b);
    } else {
        assert(a.contains(a[0]));
        assert(b.contains(a[0]));
        let j = choose|j: int| 0 <= j < b.len() && b[j] == a[0];
        assert(b.contains(b[0]));
        assert(a.contains(b[0]));
        let i = choose|i: int| 0 <= i < a.len() && a[i] == b[0];
        if i > 0 && j > 0 {
            assert(key_before(c, s, a[0], a[i]));
            assert(key_before(c, s, b[0], b[j]));
            lemma_key_before_trans(c, s, a[0], b[0], a[0]);
            lemma_key_before_irreflexive(c, s, a[0]);
        }
        assert(a[0] == b[0]);
        let a1 = a.skip(1);
        let b1 = b.skip(1);
        assert forall|k: int| #[trigger] a1.contains(k) <==> b1.contains(k) by {
            if a1.contains(k) {
                let p = choose|p: int| 0 <= p < a1.len() && a1[p] == k;
                assert(a[p + 1] == k);
                assert(key_before(c, s, a[0], a[p + 1]));
                lemma_key_before_irreflexive(c, s, a[0]);
                assert(k != b[0]);
                assert(a.contains(k));
                assert(b.contains(k));
                let q = choose|q: int| 0 <= q < b.len() && b[q] == k;
                assert(q != 0);
                assert(b1[q - 1] == k);
            }
            if b1.contains(k) {
                let p = choose|p: int| 0 <= p < b1.len() && b1[p] == k;
                assert(b[p + 1] == k);
                assert(key_before(c, s, b[0], b[p + 1]));
                lemma_key_before_irreflexive(c, s, b[0]);
                assert(k != a[0]);
                assert(b.contains(k));
                assert(a.contains(k));
                let q = choose|q: int| 0 <= q < a.len() && a[q] == k;
                assert(q != 0);
                assert(a1[q - 1] == k);
            }
        }
        assert forall|p: int, q: int|
            #![trigger a1[p], a1[q]]
            0 <= p < q < a1.len() implies key_before(c, s, a1[p], a1[q]) by {
            assert(key_before(c, s, a[p + 1], a[q + 1]));
        }
        assert forall|p: int, q: int|
            #![trigger b1[p], b1[q]]
            0 <= p < q < b1.len() implies key_before(c, s, b1[p], b1[q]) by {
            assert(key_before(c, s, b[p + 1], b[q + 1]));
        }
        lemma_sorted_keys_unique(c, s, a1, b1);
        assert(a.len() == b.len());
        assert forall|i2: int| 0 <= i2 < a.len() implies a[i2] == #[trigger] b[i2] by {
            if i2 > 0 {
                assert(a1[i2 - 1] == b1[i2 - 1]);
            }
        }
        assert(a =~= b);
    }
}

impl<T: NaturalOrder, F: Classifier<T>, C: Comparator<T>> Indexer<T, F, C> {
    /// Projection correctness: at any time, a live projection holds exactly
    /// the canonical elements its filter accepts — membership in a named
    /// projection is decided by canonical membership and the filter alone.
    pub proof fn lemma_live_projection_exact(self, n: Seq<char>, k: int)
        requires
            self.wf(),
            self.has_index(n),
        ensures
            self.index_named(n).has_key(k) <==> self.canon().contains(k) && self.index_named(
                n,
            ).cls().accepted(self.arena().at(k)),
    {
        let p = self.index_pos(n);
        assert(0 <= p < self.registry().len() && self.registry()[p].0 == n);
        assert(self.projection_exact(self.registry()[p].1));
        assert(self.index_named(n).has_key(k) == self.registry()[p].1.has_key(k));
    }

    /// Projection correctness, order half: a live projection presents its
    /// members strictly sorted by its own placement order.
    pub proof fn lemma_live_projection_sorted(self, n: Seq<char>, p: int, q: int)
        requires
            self.wf(),
            self.has_index(n),
            0 <= p < q < self.index_named(n).keys().len(),
        ensures
            key_before(
                self.index_named(n).cmp(),
                self.arena(),
                self.index_named(n).keys()[p],
                self.index_named(n).keys()[q],
            ),
    {
        let i = self.index_pos(n);
        assert(0 <= i < self.registry().len() && self.registry()[i].0 == n);
        assert(self.registry()[i].1.wf(self.arena()));
        assert(key_before(
            self.registry()[i].1.cmp(),
            self.arena(),
            self.registry()[i].1.keys()[p],
            self.registry()[i].1.keys()[q],
        ));
    }

    /// Mirror symmetry: two projections over the same filter whose
    /// comparators are exact inverses of one another hold the same members
    /// in exactly opposite orders, as long as no two canonical elements are
    /// tied under the comparator (ties are placed by allocation key, which
    /// does not flip with the comparator).
    pub proof fn lemma_mirror_symmetry(self, n1: Seq<char>, n2: Seq<char>)
        requires
            self.wf(),
            self.has_index(n1),
            self.has_index(n2),
            forall|e: T|
                #[trigger] self.index_named(n1).cls().accepted(e) <==> self.index_named(
                    n2,
                ).cls().accepted(e),
            forall|x: T, y: T|
                #[trigger] self.index_named(n1).cmp().cle(x, y) <==> self.index_named(
                    n2,
                ).cmp().cle(y, x),
            forall|k1: int, k2: int|
                #![trigger self.arena().at(k1), self.arena().at(k2)]
                self.canon().contains(k1) && self.canon().contains(k2) && k1 != k2 ==> !tied(
                    self.index_named(n1).cmp(),
                    self.arena().at(k1),
                    self.arena().at(k2),
                ),
        ensures
            self.index_named(n2).keys().len() == self.index_named(n1).keys().len(),
            forall|p: int|
                0 <= p < self.index_named(n1).keys().len()
                    ==> #[trigger] self.index_named(n2).keys()[p] == self.index_named(
                    n1,
                ).keys()[self.index_named(n1).keys().len() - 1 - p],
    {
        let i1 = self.index_named(n1);
        let i2 = self.index_named(n2);
        let p1 = self.index_pos(n1);
        let p2 = self.index_pos(n2);
        assert(self.projection_exact(self.registry()[p1].1));
        assert(self.projection_exact(self.registry()[p2].1));
        assert(self.registry()[p1].1.wf(self.arena()));
        assert(self.registry()[p2].1.wf(self.arena()));
        let a = i1.keys();
        let bkeys = i2.keys();
        let len2 = bkeys.len() as int;
        let b = Seq::new(bkeys.len(), |p: int| bkeys[len2 - 1 - p]);
        // same membership
        assert forall|k: int| #[trigger] a.contains(k) <==> b.contains(k) by {
            if a.contains(k) {
                assert(i1.has_key(k));
                assert(self.canon().contains(k) && i1.cls().accepted(self.arena().at(k)));
                assert(i2.cls().accepted(self.arena().at(k)));
                assert(i2.has_key(k));
                let q = choose|q: int| 0 <= q < bkeys.len() && bkeys[q] == k;
                assert(b[len2 - 1 - q] == k);
            }
            if b.contains(k) {
                let q = choose|q: int| 0 <= q < b.len() && b[q] == k;
                assert(bkeys[len2 - 1 - q] == k);
                assert(i2.has_key(k));
                assert(self.canon().contains(k) && i2.cls().accepted(self.arena().at(k)));
                assert(i1.has_key(k));
            }
        }
        // the reversed second projection is sorted by the first placement
        // order, because members are never tied
        assert forall|p: int, q: int|
            #![trigger b[p], b[q]]
            0 <= p < q < b.len() implies key_before(i1.cmp(), self.arena(), b[p], b[q]) by {
            let kp = bkeys[len2 - 1 - p];
            let kq = bkeys[len2 - 1 - q];
            assert(key_before(i2.cmp(), self.arena(), bkeys[len2 - 1 - q], bkeys[len2 - 1 - p]));
            assert(i2.has_key(kp));
            assert(i2.has_key(kq));
            assert(self.canon().contains(kp));
            assert(self.canon().contains(kq));
            i2.lemma_keys_distinct(self.arena());
            assert(kp != kq);
            assert(!tied(i1.cmp(), self.arena().at(kp), self.arena().at(kq)));
            assert(!tied(i2.cmp(), self.arena().at(kq), self.arena().at(kp)));
            assert(strictly_before(i2.cmp(), self.arena().at(kq), self.arena().at(kp)));
            assert(strictly_before(i1.cmp(), self.arena().at(kp), self.arena().at(kq)));
        }
        lemma_sorted_keys_unique(i1.cmp(), self.arena(), a, b);
        assert forall|p: int|
            0 <= p < a.len() implies #[trigger] bkeys[p] == a[a.len() - 1 - p] by {
            assert(a[a.len() - 1 - p] == b[len2 - 1 - p]);
        }
    }
}

} // verus!
