use core::cmp::Ordering;
use vstd::prelude::*;
use vstd::std_specs::cmp::PartialOrdSpec;

verus! {

/// The best items seen so far, best first: a list that never holds more
/// than its capacity.
///
/// Which of two items is better is a matter of `T`'s order: the greater
/// one, or in a reversed list the lesser one.
#[derive(Debug, Clone, PartialEq, PartialOrd)]
pub struct BestList<T: PartialOrd + Clone> {
    list: Vec<T>,
    capacity: usize,
    rev: bool,
}

/// The order of `T` is the one its specification gives.
pub open spec fn lawful<T: PartialOrd>() -> bool {
    T::obeys_partial_cmp_spec()
}

/// The first item is strictly better than the second.
pub open spec fn better<T: PartialOrd>(rev: bool, a: T, b: T) -> bool {
    if rev {
        a.partial_cmp_spec(&b) == Some(Ordering::Less)
    } else {
        a.partial_cmp_spec(&b) == Some(Ordering::Greater)
    }
}

/// Where a new item goes into a list: in front of the items at the end
/// of the list that it is strictly better than.
pub open spec fn rank_of<T: PartialOrd>(rev: bool, list: Seq<T>, item: T) -> int
    decreases list.len(),
{
    if list.len() > 0 && better(rev, item, list.last()) {
        rank_of(rev, list.drop_last(), item)
    } else {
        list.len() as int
    }
}

/// The list after an item has been offered to it. A list with room takes
/// the item at its rank. A full list drops the item where its last item
/// is strictly better, and else lets the item take the place of the last
/// one and move up to its rank.
pub open spec fn offered<T: PartialOrd>(rev: bool, capacity: nat, list: Seq<T>, item: T) -> Seq<T> {
    if list.len() < capacity {
        list.insert(rank_of(rev, list, item), item)
    } else if list.len() == 0 || better(rev, list.last(), item) {
        list
    } else {
        list.drop_last().insert(rank_of(rev, list.drop_last(), item), item)
    }
}

/// The list after the first `k` of the items have been offered in turn.
pub open spec fn offered_all<T: PartialOrd>(
    rev: bool,
    capacity: nat,
    list: Seq<T>,
    items: Seq<T>,
    k: nat,
) -> Seq<T>
    decreases k,
{
    if k == 0 {
        list
    } else {
        offered(rev, capacity, offered_all(rev, capacity, list, items, (k - 1) as nat), items[k - 1])
    }
}

/// The rank of an item is a place in the list.
pub proof fn lemma_rank_of<T: PartialOrd>(rev: bool, list: Seq<T>, item: T)
    ensures
        0 <= rank_of(rev, list, item) <= list.len(),
    decreases list.len(),
{
    if list.len() > 0 && better(rev, item, list.last()) {
        lemma_rank_of(rev, list.drop_last(), item);
    }
}

/// Offering an item never makes a list longer than its capacity.
pub proof fn lemma_offered_fits<T: PartialOrd>(rev: bool, capacity: nat, list: Seq<T>, item: T)
    requires
        list.len() <= capacity,
    ensures
        offered(rev, capacity, list, item).len() <= capacity,
{
    lemma_rank_of(rev, list, item);
    if list.len() > 0 {
        lemma_rank_of(rev, list.drop_last(), item);
    }
}

/// No item of the list is strictly better than one in front of it.
pub open spec fn best_first<T: PartialOrd>(rev: bool, list: Seq<T>) -> bool {
    forall|i: int, j: int| 0 <= i < j < list.len() ==> !better(rev, list[j], list[i])
}

/// The order of `T` ranks its values: of two items at most one is
/// strictly better, and an item that is not better than a second, which
/// is not better than a third, is not better than the third.
pub open spec fn ranks<T: PartialOrd>(rev: bool) -> bool {
    &&& forall|a: T, b: T| #[trigger] better(rev, a, b) ==> !better(rev, b, a)
    &&& forall|a: T, b: T, c: T|
        !#[trigger] better(rev, a, b) && !#[trigger] better(rev, b, c) ==> !better(rev, a, c)
}

/// The items behind the rank of a new item are those it is strictly
/// better than, and the item in front of its rank is not one of them.
pub proof fn lemma_rank_splits<T: PartialOrd>(rev: bool, list: Seq<T>, item: T)
    ensures
        forall|j: int| rank_of(rev, list, item) <= j < list.len() ==> better(rev, item, list[j]),
        rank_of(rev, list, item) > 0 ==> !better(rev, item, list[rank_of(rev, list, item) - 1]),
    decreases list.len(),
{
    lemma_rank_of(rev, list, item);
    if list.len() > 0 && better(rev, item, list.last()) {
        lemma_rank_splits(rev, list.drop_last(), item);
        lemma_rank_of(rev, list.drop_last(), item);
        let at = rank_of(rev, list.drop_last(), item);
        assert forall|j: int| at <= j < list.len() implies better(rev, item, list[j]) by {
            if j < list.len() - 1 {
                assert(list.drop_last()[j] == list[j]);
            }
        }
        if at > 0 {
            assert(list.drop_last()[at - 1] == list[at - 1]);
        }
    }
}

/// An item placed at its rank leaves a list that is best first so.
pub proof fn lemma_ranked_insert<T: PartialOrd>(rev: bool, list: Seq<T>, item: T)
    requires
        ranks::<T>(rev),
        best_first(rev, list),
    ensures
        best_first(rev, list.insert(rank_of(rev, list, item), item)),
{
    let at = rank_of(rev, list, item);
    let now = list.insert(at, item);
    lemma_rank_of(rev, list, item);
    lemma_rank_splits(rev, list, item);
    assert forall|i: int, j: int| 0 <= i < j < now.len() implies !better(rev, now[j], now[i]) by {
        if j == at {
            assert(now[i] == list[i]);
            if i < at - 1 {
                assert(!better(rev, list[at - 1], list[i]));
                assert(!better(rev, item, list[at - 1]));
            }
        } else if i == at {
            assert(now[j] == list[j - 1]);
            assert(better(rev, item, list[j - 1]));
        } else {
            let i0 = if i < at {
                i
            } else {
                i - 1
            };
            let j0 = if j < at {
                j
            } else {
                j - 1
            };
            assert(now[i] == list[i0]);
            assert(now[j] == list[j0]);
        }
    }
}

/// A list that is best first stays so when an item is offered to it.
pub proof fn lemma_offered_best_first<T: PartialOrd>(
    rev: bool,
    capacity: nat,
    list: Seq<T>,
    item: T,
)
    requires
        ranks::<T>(rev),
        best_first(rev, list),
    ensures
        best_first(rev, offered(rev, capacity, list, item)),
{
    if list.len() < capacity {
        lemma_ranked_insert(rev, list, item);
    } else if list.len() == 0 || better(rev, list.last(), item) {
    } else {
        let head = list.drop_last();
        assert forall|i: int, j: int| 0 <= i < j < head.len() implies !better(
            rev,
            head[j],
            head[i],
        ) by {
            assert(head[i] == list[i] && head[j] == list[j]);
        }
        lemma_ranked_insert(rev, head, item);
    }
}

impl<T: PartialOrd + Clone> View for BestList<T> {
    type V = Seq<T>;

    closed spec fn view(&self) -> Seq<T> {
        self.list@
    }
}

impl<T: PartialOrd + Clone> BestList<T> {
    /// The items as a vector.
    pub closed spec fn items(self) -> Vec<T> {
        self.list
    }

    /// The most items the list holds.
    pub closed spec fn room(&self) -> nat {
        self.capacity as nat
    }

    /// Whether the lesser of two items is the better one.
    pub closed spec fn reversed(&self) -> bool {
        self.rev
    }

    /// The list holds no more than its capacity.
    pub open spec fn wf(&self) -> bool {
        self@.len() <= self.room()
    }

    /// An empty list in which the greater item is the better one.
    pub fn new(capacity: usize) -> (l: BestList<T>)
        ensures
            l@.len() == 0,
            l.room() == capacity,
            !l.reversed(),
    {
        BestList { list: Vec::with_capacity(capacity), capacity, rev: false }
    }

    /// An empty list in which the lesser item is the better one.
    pub fn new_rev(capacity: usize) -> (l: BestList<T>)
        ensures
            l@.len() == 0,
            l.room() == capacity,
            l.reversed(),
    {
        BestList { list: Vec::with_capacity(capacity), capacity, rev: true }
    }

    /// The items, best first.
    pub fn get(&self) -> (r: &Vec<T>)
        ensures
            r@ == self@,
    {
        &self.list
    }

    /// Whether `a` is strictly better than `b`.
    fn is_better(rev: bool, a: &T, b: &T) -> (r: bool)
        ensures
            T::obeys_partial_cmp_spec() ==> r == better(rev, *a, *b),
    {
        if !rev {
            a > b
        } else {
            a < b
        }
    }

    /// Offers an item to the list.
    pub fn add(&mut self, item: T)
        ensures
            final(self).room() == old(self).room(),
            final(self).reversed() == old(self).reversed(),
            old(self).wf() && lawful::<T>() ==> final(self).wf(),
            lawful::<T>() ==> final(self)@ == offered(
                old(self).reversed(),
                old(self).room(),
                old(self)@,
                item,
            ),
    {
        proof {
            if self.wf() {
                lemma_offered_fits(self.rev, self.capacity as nat, self.list@, item);
            }
        }
        if self.list.len() >= self.capacity {
            if self.list.len() == 0 {
                return ;
            }
            if Self::is_better(self.rev, &self.list[self.list.len() - 1], &item) {
                return ;
            }
            self.list.pop();
        }
        let ghost base = self.list@;
        let mut id: usize = self.list.len();
        assert(base.take(id as int) =~= base);
        while id > 0 && Self::is_better(self.rev, &item, &self.list[id - 1])
            invariant
                0 <= id <= self.list.len(),
                self.list@ == base,
                self.rev == old(self).rev,
                self.capacity == old(self).capacity,
                lawful::<T>() ==> rank_of(self.rev, base, item) == rank_of(
                    self.rev,
                    base.take(id as int),
                    item,
                ),
            decreases id,
        {
            proof {
                let part = base.take(id as int);
                assert(part.last() == base[id - 1]);
                assert(part.drop_last() =~= base.take(id - 1));
            }
            id -= 1;
        }
        proof {
            let part = base.take(id as int);
            if id > 0 {
                assert(part.last() == base[id - 1]);
            }
            assert(base.take(base.len() as int) =~= base);
        }
        self.list.insert(id, item);
    }

    /// The best of the items of a slice: each item is cloned and offered
    /// to an empty list, in the order of the slice.
    pub fn from_vec(vec: &[T], capacity: usize) -> (l: BestList<T>)
        ensures
            l.room() == capacity,
            !l.reversed(),
            lawful::<T>() ==> exists|items: Seq<T>|
                items.len() == vec@.len() && (forall|i: int|
                    0 <= i < items.len() ==> cloned(vec@[i], #[trigger] items[i])) && l@
                    == offered_all(false, capacity as nat, Seq::empty(), items, items.len()),
    {
        let mut res: BestList<T> = BestList::new(capacity);
        let ghost mut items: Seq<T> = Seq::empty();
        let mut i: usize = 0;
        while i < vec.len()
            invariant
                0 <= i <= vec@.len(),
                res.room() == capacity,
                !res.reversed(),
                items.len() == i,
                forall|j: int| 0 <= j < i ==> cloned(vec@[j], #[trigger] items[j]),
                lawful::<T>() ==> res@ == offered_all(
                    false,
                    capacity as nat,
                    Seq::empty(),
                    items,
                    i as nat,
                ),
            decreases vec@.len() - i,
        {
            let v = vec[i].clone();
            let ghost old_items = items;
            proof {
                items = items.push(v);
                lemma_offered_prefix(false, capacity as nat, Seq::empty(), old_items, items, i as nat);
            }
            res.add(v);
            i += 1;
        }
        res
    }

    /// The best of the given items: each is offered to an empty list, in
    /// order.
    pub fn from_iter(iter: Vec<T>, capacity: usize) -> (l: BestList<T>)
        ensures
            l.room() == capacity,
            !l.reversed(),
            lawful::<T>() ==> l@ == offered_all(
                false,
                capacity as nat,
                Seq::empty(),
                iter@,
                iter@.len(),
            ),
    {
        let mut res: BestList<T> = BestList::new(capacity);
        let mut rest = iter;
        let ghost all = rest@;
        let mut taken: Vec<T> = Vec::new();
        // The items are taken from the back, so their order is turned
        // round first.
        while rest.len() > 0
            invariant
                taken@ + rest@.reverse() == all.reverse(),
            decreases rest.len(),
        {
            let ghost r0 = rest@;
            let v = rest.pop().unwrap();
            taken.push(v);
            assert(r0.reverse() =~= seq![v] + rest@.reverse());
            assert(taken@ + rest@.reverse() =~= all.reverse());
        }
        assert(taken@ =~= all.reverse());
        let n = taken.len();
        let mut i: usize = 0;
        while taken.len() > 0
            invariant
                i + taken@.len() == n,
                n == all.len(),
                taken@ == all.reverse().take(taken@.len() as int),
                res.room() == capacity,
                !res.reversed(),
                lawful::<T>() ==> res@ == offered_all(
                    false,
                    capacity as nat,
                    Seq::empty(),
                    all,
                    i as nat,
                ),
            decreases taken.len(),
        {
            let ghost t0 = taken@;
            let v = taken.pop().unwrap();
            assert(v == all[i as int]) by {
                assert(v == t0[t0.len() - 1]);
                assert(t0[t0.len() - 1] == all.reverse()[t0.len() - 1]);
            }
            res.add(v);
            i += 1;
            assert(taken@ =~= all.reverse().take(taken@.len() as int));
        }
        res
    }

    /// The items, best first.
    pub fn into_vec(self) -> (r: Vec<T>)
        ensures
            r@ == self@,
            r == self.items(),
    {
        self.list
    }
}

impl<T: PartialOrd + Clone> From<BestList<T>> for Vec<T> {
    /// The items, best first.
    fn from(val: BestList<T>) -> (r: Vec<T>) {
        val.into_vec()
    }
}

impl<T: PartialOrd + Clone> vstd::std_specs::convert::FromSpecImpl<BestList<T>> for Vec<T> {
    open spec fn obeys_from_spec() -> bool {
        true
    }

    open spec fn from_spec(val: BestList<T>) -> Vec<T> {
        val.items()
    }
}

/// Offering the first `k` items gives the same list whatever follows
/// them.
pub proof fn lemma_offered_prefix<T: PartialOrd>(
    rev: bool,
    capacity: nat,
    list: Seq<T>,
    a: Seq<T>,
    b: Seq<T>,
    k: nat,
)
    requires
        k <= a.len(),
        k <= b.len(),
        forall|i: int| 0 <= i < k ==> a[i] == b[i],
    ensures
        offered_all(rev, capacity, list, a, k) == offered_all(rev, capacity, list, b, k),
    decreases k,
{
    if k > 0 {
        lemma_offered_prefix(rev, capacity, list, a, b, (k - 1) as nat);
    }
}

} // verus!
