//! The order in which lists are shown: a stable sort by textual keys.
use vstd::prelude::*;

verus! {

/// Lexicographic order of byte strings.
pub open spec fn bytes_le(a: Seq<u8>, b: Seq<u8>) -> bool
    decreases a.len(),
{
    if a.len() == 0 {
        true
    } else if b.len() == 0 {
        false
    } else {
        a.first() < b.first() || (a.first() == b.first() && bytes_le(
            a.drop_first(),
            b.drop_first(),
        ))
    }
}

/// What an item is sorted by: two byte strings, then a number.
pub ghost struct Rank {
    pub first: Seq<u8>,
    pub second: Seq<u8>,
    pub third: int,
}

/// Ranks are ordered by their first parts, then by their second, then by
/// their third.
pub open spec fn rank_le(a: Rank, b: Rank) -> bool {
    if a.first != b.first {
        bytes_le(a.first, b.first)
    } else if a.second != b.second {
        bytes_le(a.second, b.second)
    } else {
        a.third <= b.third
    }
}

/// A list of positions that puts the items of the given ranks in order: every
/// position once, in ascending rank, and positions of equal rank in ascending
/// order.
pub open spec fn is_stable_order(ranks: Seq<Rank>, order: Seq<int>) -> bool {
    &&& order.len() == ranks.len()
    &&& forall|i: int| 0 <= i < order.len() ==> 0 <= #[trigger] order[i] < ranks.len()
    &&& order.no_duplicates()
    &&& forall|i: int, j: int|
        0 <= i < j < order.len() ==> precedes(ranks, #[trigger] order[i], #[trigger] order[j])
}

/// Position `a` comes before position `b`: its rank is lower, or the same and
/// the position is smaller.
pub open spec fn precedes(ranks: Seq<Rank>, a: int, b: int) -> bool {
    rank_le(ranks[a], ranks[b]) && (rank_le(ranks[b], ranks[a]) ==> a < b)
}

/// Where in `order` a further item of rank `rank` goes: behind every item of
/// its rank or a lower one.
pub open spec fn place(ranks: Seq<Rank>, order: Seq<int>, rank: Rank) -> int
    decreases order.len(),
{
    if order.len() == 0 || rank_le(ranks[order.last()], rank) {
        order.len() as int
    } else {
        place(ranks, order.drop_last(), rank)
    }
}

/// The positions of `ranks` in stable ascending order.
pub open spec fn stable_order(ranks: Seq<Rank>) -> Seq<int>
    decreases ranks.len(),
{
    if ranks.len() == 0 {
        Seq::empty()
    } else {
        let earlier = stable_order(ranks.drop_last());
        earlier.insert(place(ranks, earlier, ranks.last()), ranks.len() - 1)
    }
}

/// `items` taken in the order of the positions `order`.
pub open spec fn arranged<T>(items: Seq<T>, order: Seq<int>) -> Seq<T> {
    Seq::new(order.len(), |i: int| items[order[i]])
}

// ---------------------------------------------------------------------------
// The order of ranks is a total order
// ---------------------------------------------------------------------------

/// `bytes_le` holds one way or the other, and both ways only of equal strings.
pub proof fn bytes_le_total(a: Seq<u8>, b: Seq<u8>)
    ensures
        bytes_le(a, b) || bytes_le(b, a),
        bytes_le(a, b) && bytes_le(b, a) ==> a == b,
        bytes_le(a, a),
    decreases a.len(),
{
    if a.len() > 0 && b.len() > 0 {
        bytes_le_total(a.drop_first(), b.drop_first());
        if a.first() == b.first() && a.drop_first() == b.drop_first() {
            assert(a =~= seq![a.first()] + a.drop_first());
            assert(b =~= seq![b.first()] + b.drop_first());
        }
    } else if a.len() == 0 && b.len() == 0 {
        assert(a =~= b);
    } else if a.len() > 0 {
        bytes_le_total(a.drop_first(), a.drop_first());
    }
}

/// `bytes_le` is transitive.
pub proof fn bytes_le_transitive(a: Seq<u8>, b: Seq<u8>, c: Seq<u8>)
    requires
        bytes_le(a, b),
        bytes_le(b, c),
    ensures
        bytes_le(a, c),
    decreases a.len(),
{
    if a.len() > 0 && b.len() > 0 && c.len() > 0 {
        if a.first() == b.first() && b.first() == c.first() {
            bytes_le_transitive(a.drop_first(), b.drop_first(), c.drop_first());
        }
    }
}

/// `rank_le` holds one way or the other, and both ways only of equal ranks.
pub proof fn rank_le_total(a: Rank, b: Rank)
    ensures
        rank_le(a, b) || rank_le(b, a),
        rank_le(a, b) && rank_le(b, a) ==> a == b,
        rank_le(a, a),
{
    bytes_le_total(a.first, b.first);
    bytes_le_total(a.second, b.second);
}

/// `rank_le` is transitive.
pub proof fn rank_le_transitive(a: Rank, b: Rank, c: Rank)
    requires
        rank_le(a, b),
        rank_le(b, c),
    ensures
        rank_le(a, c),
{
    bytes_le_total(a.first, b.first);
    bytes_le_total(b.first, c.first);
    bytes_le_total(a.first, c.first);
    bytes_le_total(a.second, b.second);
    bytes_le_total(b.second, c.second);
    bytes_le_total(a.second, c.second);
    if bytes_le(a.first, b.first) && bytes_le(b.first, c.first) {
        bytes_le_transitive(a.first, b.first, c.first);
    }
    if bytes_le(a.second, b.second) && bytes_le(b.second, c.second) {
        bytes_le_transitive(a.second, b.second, c.second);
    }
}

// ---------------------------------------------------------------------------
// The stable order
// ---------------------------------------------------------------------------

proof fn lemma_place_splits(ranks: Seq<Rank>, order: Seq<int>, rank: Rank)
    requires
        forall|i: int, j: int|
            0 <= i < j < order.len() ==> precedes(ranks, #[trigger] order[i], #[trigger] order[j]),
    ensures
        0 <= place(ranks, order, rank) <= order.len(),
        forall|i: int|
            0 <= i < place(ranks, order, rank) ==> rank_le(ranks[#[trigger] order[i]], rank),
        forall|i: int|
            place(ranks, order, rank) <= i < order.len() ==> !rank_le(
                ranks[#[trigger] order[i]],
                rank,
            ),
    decreases order.len(),
{
    if order.len() == 0 {
    } else if rank_le(ranks[order.last()], rank) {
        assert forall|i: int| 0 <= i < order.len() implies rank_le(
            ranks[#[trigger] order[i]],
            rank,
        ) by {
            if i < order.len() - 1 {
                assert(precedes(ranks, order[i], order[order.len() - 1]));
                rank_le_transitive(ranks[order[i]], ranks[order.last()], rank);
            }
        }
    } else {
        let shorter = order.drop_last();
        lemma_place_splits(ranks, shorter, rank);
        let p = place(ranks, shorter, rank);
        assert forall|i: int| 0 <= i < p implies rank_le(ranks[#[trigger] order[i]], rank) by {
            assert(shorter[i] == order[i]);
        }
        assert forall|i: int| p <= i < order.len() implies !rank_le(
            ranks[#[trigger] order[i]],
            rank,
        ) by {
            if i < shorter.len() {
                assert(shorter[i] == order[i]);
            }
        }
    }
}

/// `stable_order` lists every position once, in ascending rank, and keeps the
/// positions of equal rank in their order.
pub proof fn stable_order_is_stable(ranks: Seq<Rank>)
    ensures
        is_stable_order(ranks, stable_order(ranks)),
    decreases ranks.len(),
{
    if ranks.len() > 0 {
        let shorter = ranks.drop_last();
        let earlier = stable_order(shorter);
        let n = ranks.len() - 1;
        stable_order_is_stable(shorter);
        assert forall|i: int, j: int| 0 <= i < j < earlier.len() implies precedes(
            ranks,
            #[trigger] earlier[i],
            #[trigger] earlier[j],
        ) by {
            assert(precedes(shorter, earlier[i], earlier[j]));
        }
        lemma_place_splits(ranks, earlier, ranks.last());
        let p = place(ranks, earlier, ranks.last());
        let order = earlier.insert(p, n);
        assert(order == stable_order(ranks));
        assert forall|i: int, j: int| 0 <= i < j < order.len() implies precedes(
            ranks,
            #[trigger] order[i],
            #[trigger] order[j],
        ) by {
            if j < p {
                assert(order[i] == earlier[i] && order[j] == earlier[j]);
            } else if j == p {
                assert(order[i] == earlier[i]);
                assert(rank_le(ranks[earlier[i]], ranks.last()));
            } else if i == p {
                assert(order[j] == earlier[j - 1]);
                assert(!rank_le(ranks[earlier[j - 1]], ranks.last()));
                rank_le_total(ranks[earlier[j - 1]], ranks.last());
            } else if i < p {
                assert(order[i] == earlier[i] && order[j] == earlier[j - 1]);
            } else {
                assert(order[i] == earlier[i - 1] && order[j] == earlier[j - 1]);
            }
        }
        assert forall|i: int| 0 <= i < order.len() implies 0 <= #[trigger] order[i]
            < ranks.len() by {
            if i < p {
                assert(order[i] == earlier[i]);
            } else if i > p {
                assert(order[i] == earlier[i - 1]);
            }
        }
        assert forall|i: int, j: int|
            0 <= i < order.len() && 0 <= j < order.len() && i != j implies order[i] != order[j] by {
            if i < j {
                assert(precedes(ranks, order[i], order[j]));
                rank_le_total(ranks[order[i]], ranks[order[i]]);
            } else {
                assert(precedes(ranks, order[j], order[i]));
                rank_le_total(ranks[order[i]], ranks[order[i]]);
            }
        }
    }
}

/// There is one stable order only.
pub proof fn stable_order_unique(ranks: Seq<Rank>, order: Seq<int>)
    requires
        is_stable_order(ranks, order),
    ensures
        order == stable_order(ranks),
{
    let other = stable_order(ranks);
    stable_order_is_stable(ranks);
    lemma_orders_agree(ranks, order, other, order.len() as int);
    assert(order =~= other);
}

proof fn lemma_order_covers(ranks: Seq<Rank>, order: Seq<int>, x: int)
    requires
        is_stable_order(ranks, order),
        0 <= x < ranks.len(),
    ensures
        order.contains(x),
{
    let all = vstd::set_lib::set_int_range(0, ranks.len() as int);
    vstd::set_lib::lemma_int_range(0, ranks.len() as int);
    order.unique_seq_to_set();
    assert forall|y: int| order.to_set().contains(y) implies all.contains(y) by {
        let i = choose|i: int| 0 <= i < order.len() && order[i] == y;
        assert(0 <= order[i] < ranks.len());
    }
    vstd::set_lib::lemma_subset_equality(order.to_set(), all);
    assert(all.contains(x));
    assert(order.to_set().contains(x));
}

proof fn lemma_orders_agree(ranks: Seq<Rank>, a: Seq<int>, b: Seq<int>, n: int)
    requires
        is_stable_order(ranks, a),
        is_stable_order(ranks, b),
        0 <= n <= a.len(),
    ensures
        forall|i: int| 0 <= i < n ==> a[i] == b[i],
    decreases n,
{
    if n > 0 {
        lemma_orders_agree(ranks, a, b, n - 1);
        let k = n - 1;
        if a[k] != b[k] {
            lemma_order_covers(ranks, b, a[k]);
            lemma_order_covers(ranks, a, b[k]);
            let i = choose|i: int| 0 <= i < b.len() && b[i] == a[k];
            let j = choose|j: int| 0 <= j < a.len() && a[j] == b[k];
            if i < k {
                assert(a[i] == b[i]);
                assert(a[i] == a[k]);
                assert(false);
            }
            if j < k {
                assert(a[j] == b[j]);
                assert(b[j] == b[k]);
                assert(false);
            }
            assert(precedes(ranks, b[k], b[i]));
            assert(precedes(ranks, a[k], a[j]));
            assert(false);
        }
    }
}

/// Sorting neither loses nor invents an item.
pub proof fn arranged_keeps_items<T>(items: Seq<T>, ranks: Seq<Rank>)
    requires
        items.len() == ranks.len(),
    ensures
        arranged(items, stable_order(ranks)).len() == items.len(),
        arranged(items, stable_order(ranks)).to_multiset() == items.to_multiset(),
    decreases items.len(),
{
    stable_order_is_stable(ranks);
    if ranks.len() == 0 {
        assert(arranged(items, stable_order(ranks)) =~= items);
    } else {
        let shorter = ranks.drop_last();
        let earlier = stable_order(shorter);
        let before = arranged(items.drop_last(), earlier);
        let p = place(ranks, earlier, ranks.last());
        arranged_keeps_items(items.drop_last(), shorter);
        stable_order_is_stable(shorter);
        assert forall|i: int, j: int| 0 <= i < j < earlier.len() implies precedes(
            ranks,
            #[trigger] earlier[i],
            #[trigger] earlier[j],
        ) by {
            assert(precedes(shorter, earlier[i], earlier[j]));
        }
        lemma_place_splits(ranks, earlier, ranks.last());
        assert(arranged(items, stable_order(ranks)) =~= before.insert(p, items.last()));
        vstd::seq_lib::to_multiset_insert(before, p, items.last());
        assert(items =~= items.drop_last().push(items.last()));
        vstd::seq_lib::to_multiset_build(items.drop_last(), items.last());
    }
}

// ---------------------------------------------------------------------------
// Sorting
// ---------------------------------------------------------------------------

/// What an item is sorted by.
pub struct SortKey {
    pub first: Vec<u8>,
    pub second: Vec<u8>,
    pub third: u32,
}

impl View for SortKey {
    type V = Rank;

    open spec fn view(&self) -> Rank {
        Rank { first: self.first@, second: self.second@, third: self.third as int }
    }
}

/// The ranks that the keys stand for.
pub open spec fn ranks_of(keys: Seq<SortKey>) -> Seq<Rank> {
    keys.map_values(|key: SortKey| key@)
}

/// Positions as integers.
pub open spec fn positions(order: Seq<usize>) -> Seq<int> {
    order.map_values(|i: usize| i as int)
}

proof fn lemma_bytes_le_at(a: Seq<u8>, b: Seq<u8>, n: int)
    requires
        0 <= n <= a.len(),
        n <= b.len(),
        forall|i: int| 0 <= i < n ==> a[i] == b[i],
    ensures
        bytes_le(a, b) == bytes_le(a.skip(n), b.skip(n)),
    decreases n,
{
    if n == 0 {
        assert(a.skip(0) =~= a);
        assert(b.skip(0) =~= b);
    } else {
        assert(a[0] == b[0]);
        let c = a.drop_first();
        let d = b.drop_first();
        assert forall|i: int| 0 <= i < n - 1 implies c[i] == d[i] by {
            assert(a[i + 1] == b[i + 1]);
        }
        lemma_bytes_le_at(c, d, n - 1);
        assert(c.skip(n - 1) =~= a.skip(n));
        assert(d.skip(n - 1) =~= b.skip(n));
    }
}

/// Whether `a` is at most `b`, byte by byte, and whether the two are equal.
fn bytes_at_most(a: &Vec<u8>, b: &Vec<u8>) -> (r: (bool, bool))
    ensures
        r.0 == bytes_le(a@, b@),
        r.1 == (a@ == b@),
{
    let mut n: usize = 0;
    while n < a.len() && n < b.len() && a[n] == b[n]
        invariant
            n <= a.len(),
            n <= b.len(),
            forall|i: int| 0 <= i < n ==> a@[i] == b@[i],
        ensures
            n < a.len() && n < b.len() ==> a@[n as int] != b@[n as int],
        decreases a.len() - n,
    {
        n += 1;
    }
    proof {
        lemma_bytes_le_at(a@, b@, n as int);
    }
    if n == a.len() {
        proof {
            if n == b.len() {
                assert(a@ =~= b@);
            }
        }
        (true, n == b.len())
    } else if n == b.len() {
        (false, false)
    } else {
        (a[n] < b[n], false)
    }
}

impl SortKey {
    /// Whether `self` sorts before `other` or together with it.
    pub fn at_most(&self, other: &SortKey) -> (b: bool)
        ensures
            b == rank_le(self@, other@),
    {
        let (first, same_first) = bytes_at_most(&self.first, &other.first);
        if !same_first {
            return first;
        }
        let (second, same_second) = bytes_at_most(&self.second, &other.second);
        if !same_second {
            return second;
        }
        self.third <= other.third
    }
}

proof fn lemma_place_is(ranks: Seq<Rank>, order: Seq<int>, rank: Rank, p: int)
    requires
        0 <= p <= order.len(),
        forall|i: int| 0 <= i < p ==> rank_le(ranks[#[trigger] order[i]], rank),
        forall|i: int| p <= i < order.len() ==> !rank_le(ranks[#[trigger] order[i]], rank),
    ensures
        place(ranks, order, rank) == p,
    decreases order.len(),
{
    if order.len() > 0 && p < order.len() {
        let shorter = order.drop_last();
        assert forall|i: int| 0 <= i < p implies rank_le(
            ranks[#[trigger] shorter[i]],
            rank,
        ) by {
            assert(shorter[i] == order[i]);
        }
        assert forall|i: int| p <= i < shorter.len() implies !rank_le(
            ranks[#[trigger] shorter[i]],
            rank,
        ) by {
            assert(shorter[i] == order[i]);
        }
        assert(!rank_le(ranks[order[order.len() - 1]], rank));
        lemma_place_is(ranks, shorter, rank, p);
    } else if order.len() > 0 {
        assert(rank_le(ranks[order[order.len() - 1]], rank));
    }
}

/// The place of the key at position `n` among the sorted positions `order`.
fn find_place(keys: &Vec<SortKey>, order: &Vec<usize>, n: usize) -> (p: usize)
    requires
        n < keys.len(),
        forall|i: int| 0 <= i < order.len() ==> #[trigger] order@[i] < keys.len(),
        forall|i: int, j: int|
            0 <= i < j < order.len() ==> precedes(
                ranks_of(keys@),
                #[trigger] positions(order@)[i],
                #[trigger] positions(order@)[j],
            ),
    ensures
        p <= order.len(),
        p == place(ranks_of(keys@), positions(order@), ranks_of(keys@)[n as int]),
{
    let ghost ranks = ranks_of(keys@);
    let ghost sorted = positions(order@);
    let ghost rank = ranks[n as int];
    let ghost target = place(ranks, sorted, rank);
    let mut low: usize = 0;
    let mut high: usize = order.len();
    proof {
        lemma_place_splits(ranks, sorted, rank);
    }
    while low < high
        invariant
            n < keys.len(),
            ranks == ranks_of(keys@),
            sorted == positions(order@),
            rank == ranks[n as int],
            low <= high <= order.len(),
            low <= target <= high,
            forall|i: int| 0 <= i < order.len() ==> #[trigger] order@[i] < keys.len(),
            forall|i: int| 0 <= i < target ==> rank_le(ranks[#[trigger] sorted[i]], rank),
            forall|i: int|
                target <= i < sorted.len() ==> !rank_le(ranks[#[trigger] sorted[i]], rank),
        decreases high - low,
    {
        let mid: usize = low + (high - low) / 2;
        assert(sorted[mid as int] == order@[mid as int]);
        if keys[order[mid]].at_most(&keys[n]) {
            low = mid + 1;
        } else {
            high = mid;
        }
    }
    low
}

/// The positions of `keys` in ascending order; keys that sort together keep
/// their order.
pub fn sort_positions(keys: &Vec<SortKey>) -> (order: Vec<usize>)
    ensures
        positions(order@) == stable_order(ranks_of(keys@)),
{
    let ghost ranks = ranks_of(keys@);
    let mut order: Vec<usize> = Vec::new();
    let mut n: usize = 0;
    assert(ranks.take(0) =~= Seq::<Rank>::empty());
    assert(positions(order@) =~= stable_order(ranks.take(0)));
    while n < keys.len()
        invariant
            ranks == ranks_of(keys@),
            n <= keys.len(),
            positions(order@) == stable_order(ranks.take(n as int)),
        decreases keys.len() - n,
    {
        let ghost earlier = positions(order@);
        let ghost so_far = ranks.take(n as int);
        proof {
            stable_order_is_stable(so_far);
            assert forall|i: int| 0 <= i < order.len() implies #[trigger] order@[i]
                < keys.len() by {
                assert(earlier[i] == order@[i]);
            }
            assert forall|i: int, j: int| 0 <= i < j < earlier.len() implies precedes(
                ranks,
                #[trigger] earlier[i],
                #[trigger] earlier[j],
            ) by {
                assert(precedes(so_far, earlier[i], earlier[j]));
            }
        }
        let p: usize = find_place(keys, &order, n);
        proof {
            let next = ranks.take(n + 1);
            assert(next.drop_last() =~= so_far);
            assert forall|i: int, j: int| 0 <= i < j < earlier.len() implies precedes(
                next,
                #[trigger] earlier[i],
                #[trigger] earlier[j],
            ) by {
                assert(precedes(so_far, earlier[i], earlier[j]));
            }
            lemma_place_splits(ranks, earlier, ranks[n as int]);
            assert forall|i: int| 0 <= i < p implies rank_le(
                next[#[trigger] earlier[i]],
                next.last(),
            ) by {
                assert(rank_le(ranks[earlier[i]], ranks[n as int]));
            }
            assert forall|i: int| p <= i < earlier.len() implies !rank_le(
                next[#[trigger] earlier[i]],
                next.last(),
            ) by {
                assert(!rank_le(ranks[earlier[i]], ranks[n as int]));
            }
            lemma_place_is(next, earlier, next.last(), p as int);
            assert(stable_order(next) == earlier.insert(p as int, n as int));
        }
        order.insert(p, n);
        assert(positions(order@) =~= earlier.insert(p as int, n as int));
        n += 1;
    }
    assert(ranks.take(n as int) =~= ranks);
    order
}

// ---------------------------------------------------------------------------
// Laws
// ---------------------------------------------------------------------------

/// Byte strings are ordered by the first byte in which they differ; one that
/// another begins with comes first.
pub proof fn first_difference_decides(a: Seq<u8>, b: Seq<u8>, n: int)
    requires
        0 <= n <= a.len(),
        n <= b.len(),
        forall|i: int| 0 <= i < n ==> a[i] == b[i],
    ensures
        n == a.len() ==> bytes_le(a, b),
        n == b.len() && n < a.len() ==> !bytes_le(a, b),
        n < a.len() && n < b.len() && a[n] < b[n] ==> bytes_le(a, b),
        n < a.len() && n < b.len() && a[n] > b[n] ==> !bytes_le(a, b),
{
    lemma_bytes_le_at(a, b, n);
}

/// Ranks are ordered by the first part in which they differ.
pub proof fn first_part_decides(a: Rank, b: Rank)
    ensures
        a.first != b.first ==> rank_le(a, b) == bytes_le(a.first, b.first),
        a.first == b.first && a.second != b.second ==> rank_le(a, b) == bytes_le(a.second, b.second),
        a.first == b.first && a.second == b.second ==> rank_le(a, b) == (a.third <= b.third),
{
}

/// Sorted, every item comes once; of two items the one of the lower rank comes
/// first, and of two items of the same rank the one that came first before.
pub proof fn sorting_is_stable<T>(items: Seq<T>, ranks: Seq<Rank>)
    requires
        items.len() == ranks.len(),
    ensures
        ({
            let order = stable_order(ranks);
            let sorted = arranged(items, order);
            &&& order.len() == items.len()
            &&& sorted.len() == items.len()
            &&& forall|i: int|
                0 <= i < order.len() ==> 0 <= #[trigger] order[i] < items.len() && sorted[i]
                    == items[order[i]]
            &&& forall|i: int, j: int|
                0 <= i < j < order.len() ==> #[trigger] order[i] != #[trigger] order[j] && rank_le(
                    ranks[order[i]],
                    ranks[order[j]],
                ) && (ranks[order[i]] == ranks[order[j]] ==> order[i] < order[j])
        }),
{
    let order = stable_order(ranks);
    stable_order_is_stable(ranks);
    assert forall|i: int, j: int| 0 <= i < j < order.len() implies #[trigger] order[i]
        != #[trigger] order[j] && rank_le(ranks[order[i]], ranks[order[j]]) && (ranks[order[i]]
        == ranks[order[j]] ==> order[i] < order[j]) by {
        assert(precedes(ranks, order[i], order[j]));
        rank_le_total(ranks[order[i]], ranks[order[j]]);
    }
}

/// Keys stand for their ranks and positions for integers, one for one.
pub proof fn keys_are_one_for_one(keys: Seq<SortKey>, order: Seq<usize>)
    ensures
        ranks_of(keys).len() == keys.len(),
        forall|i: int|
            0 <= i < keys.len() ==> (#[trigger] ranks_of(keys)[i]).first == keys[i].first@
                && ranks_of(keys)[i].second == keys[i].second@ && ranks_of(keys)[i].third
                == keys[i].third,
        positions(order).len() == order.len(),
        forall|i: int| 0 <= i < order.len() ==> #[trigger] positions(order)[i] == order[i],
{
}

} // verus!
