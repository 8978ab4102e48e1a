//! Byte-wise lexicographic order, the order of records ranked by byte strings, and a stable
//! sort over it.

use vstd::prelude::*;

verus! {

/// Outcome of comparing two values.
#[derive(Clone, Copy, Debug, PartialEq, Eq, Structural)]
pub enum Relation {
    Before,
    Same,
    After,
}

/// `a` comes strictly before `b`, looking at the positions from `i` on: at the first
/// position where they differ `a` holds the smaller byte, or `a` ends there first.
pub open spec fn bytes_before_from(a: Seq<u8>, b: Seq<u8>, i: int) -> bool
    decreases b.len() - i,
{
    if i < 0 || i >= b.len() {
        false
    } else if i >= a.len() {
        true
    } else if a[i] != b[i] {
        a[i] < b[i]
    } else {
        bytes_before_from(a, b, i + 1)
    }
}

/// Strict lexicographic order of byte strings.
pub open spec fn bytes_before(a: Seq<u8>, b: Seq<u8>) -> bool {
    bytes_before_from(a, b, 0)
}

/// Strict lexicographic order of ranks, looking at the positions from `i` on.
pub open spec fn rank_before_from(a: Seq<Seq<u8>>, b: Seq<Seq<u8>>, i: int) -> bool
    decreases b.len() - i,
{
    if i < 0 || i >= b.len() {
        false
    } else if i >= a.len() {
        true
    } else if a[i] != b[i] {
        bytes_before(a[i], b[i])
    } else {
        rank_before_from(a, b, i + 1)
    }
}

/// Strict lexicographic order of sequences of byte strings.
pub open spec fn rank_before(a: Seq<Seq<u8>>, b: Seq<Seq<u8>>) -> bool {
    rank_before_from(a, b, 0)
}

proof fn lemma_bytes_from_irreflexive(a: Seq<u8>, i: int)
    ensures
        !bytes_before_from(a, a, i),
    decreases a.len() - i,
{
    if 0 <= i < a.len() {
        lemma_bytes_from_irreflexive(a, i + 1);
    }
}

proof fn lemma_bytes_from_transitive(a: Seq<u8>, b: Seq<u8>, c: Seq<u8>, i: int)
    requires
        0 <= i,
        bytes_before_from(a, b, i),
        bytes_before_from(b, c, i),
    ensures
        bytes_before_from(a, c, i),
    decreases c.len() - i,
{
    if i < a.len() && i < b.len() && i < c.len() && a[i] == b[i] && b[i] == c[i] {
        lemma_bytes_from_transitive(a, b, c, i + 1);
    }
}

proof fn lemma_bytes_from_total(a: Seq<u8>, b: Seq<u8>, i: int)
    requires
        0 <= i <= a.len(),
        i <= b.len(),
        forall|k: int| 0 <= k < i ==> a[k] == b[k],
    ensures
        a == b || bytes_before_from(a, b, i) || bytes_before_from(b, a, i),
    decreases a.len() - i,
{
    if i < a.len() && i < b.len() {
        if a[i] == b[i] {
            lemma_bytes_from_total(a, b, i + 1);
        }
    } else if i == a.len() && i == b.len() {
        assert(a =~= b);
    }
}

/// The order of byte strings is a strict total order.
pub proof fn lemma_bytes_order(a: Seq<u8>, b: Seq<u8>, c: Seq<u8>)
    ensures
        !bytes_before(a, a),
        bytes_before(a, b) && bytes_before(b, c) ==> bytes_before(a, c),
        a == b || bytes_before(a, b) || bytes_before(b, a),
        !(bytes_before(a, b) && bytes_before(b, a)),
{
    lemma_bytes_from_irreflexive(a, 0);
    if bytes_before(a, b) && bytes_before(b, c) {
        lemma_bytes_from_transitive(a, b, c, 0);
    }
    lemma_bytes_from_total(a, b, 0);
    if bytes_before(a, b) && bytes_before(b, a) {
        lemma_bytes_from_transitive(a, b, a, 0);
    }
}

proof fn lemma_rank_from_irreflexive(a: Seq<Seq<u8>>, i: int)
    ensures
        !rank_before_from(a, a, i),
    decreases a.len() - i,
{
    if 0 <= i < a.len() {
        lemma_rank_from_irreflexive(a, i + 1);
    }
}

proof fn lemma_rank_from_transitive(
    a: Seq<Seq<u8>>,
    b: Seq<Seq<u8>>,
    c: Seq<Seq<u8>>,
    i: int,
)
    requires
        0 <= i,
        rank_before_from(a, b, i),
        rank_before_from(b, c, i),
    ensures
        rank_before_from(a, c, i),
    decreases c.len() - i,
{
    if i < a.len() && i < b.len() && i < c.len() {
        lemma_bytes_order(a[i], b[i], c[i]);
        lemma_bytes_order(c[i], b[i], a[i]);
        lemma_bytes_order(b[i], a[i], c[i]);
        if a[i] == b[i] && b[i] == c[i] {
            lemma_rank_from_transitive(a, b, c, i + 1);
        }
    }
}

proof fn lemma_rank_from_total(a: Seq<Seq<u8>>, b: Seq<Seq<u8>>, i: int)
    requires
        0 <= i <= a.len(),
        i <= b.len(),
        forall|k: int| 0 <= k < i ==> a[k] == b[k],
    ensures
        a == b || rank_before_from(a, b, i) || rank_before_from(b, a, i),
    decreases a.len() - i,
{
    if i < a.len() && i < b.len() {
        lemma_bytes_order(a[i], b[i], b[i]);
        if a[i] == b[i] {
            lemma_rank_from_total(a, b, i + 1);
        }
    } else if i == a.len() && i == b.len() {
        assert(a =~= b);
    }
}

/// The order of ranks is a strict total order.
pub proof fn lemma_rank_order(a: Seq<Seq<u8>>, b: Seq<Seq<u8>>, c: Seq<Seq<u8>>)
    ensures
        !rank_before(a, a),
        rank_before(a, b) && rank_before(b, c) ==> rank_before(a, c),
        a == b || rank_before(a, b) || rank_before(b, a),
        !(rank_before(a, b) && rank_before(b, a)),
{
    lemma_rank_from_irreflexive(a, 0);
    if rank_before(a, b) && rank_before(b, c) {
        lemma_rank_from_transitive(a, b, c, 0);
    }
    lemma_rank_from_total(a, b, 0);
    if rank_before(a, b) && rank_before(b, a) {
        lemma_rank_from_transitive(a, b, a, 0);
    }
}

/// What a comparison of two ranks yields.
pub open spec fn relation_of(a: Seq<Seq<u8>>, b: Seq<Seq<u8>>) -> Relation {
    if a == b {
        Relation::Same
    } else if rank_before(a, b) {
        Relation::Before
    } else {
        Relation::After
    }
}

/// Compares two byte strings lexicographically.
pub fn compare_bytes(a: &[u8], b: &[u8]) -> (relation: Relation)
    ensures
        relation == (if a@ == b@ {
            Relation::Same
        } else if bytes_before(a@, b@) {
            Relation::Before
        } else {
            Relation::After
        }),
{
    let mut i: usize = 0;
    while i < a.len() && i < b.len() && a[i] == b[i]
        invariant
            0 <= i <= a@.len(),
            i <= b@.len(),
            forall|k: int| 0 <= k < i ==> a@[k] == b@[k],
            bytes_before(a@, b@) == bytes_before_from(a@, b@, i as int),
            bytes_before(b@, a@) == bytes_before_from(b@, a@, i as int),
        decreases a@.len() - i,
    {
        i += 1;
    }
    if i == a.len() {
        if i == b.len() {
            assert(a@ =~= b@);
            Relation::Same
        } else {
            Relation::Before
        }
    } else if i == b.len() {
        Relation::After
    } else if a[i] < b[i] {
        Relation::Before
    } else {
        Relation::After
    }
}

/// A value that is ordered by a sequence of byte strings.
pub trait Ranked {
    spec fn rank(&self) -> Seq<Seq<u8>>;

    fn relation(&self, other: &Self) -> (relation: Relation)
        ensures
            relation == relation_of(self.rank(), other.rank()),
    ;
}

/// Whether the item at `i` is placed before the item at `j` by a stable sort.
pub open spec fn placed_before<T: Ranked>(items: Seq<T>, i: int, j: int) -> bool {
    rank_before(items[i].rank(), items[j].rank()) || (items[i].rank() == items[j].rank() && i < j)
}

/// `order` lists positions of `items` in the order of a stable sort.
pub open spec fn in_stable_order<T: Ranked>(items: Seq<T>, order: Seq<usize>) -> bool {
    forall|x: int, y: int|
        #![trigger order[x], order[y]]
        0 <= x < y < order.len() ==> placed_before(items, order[x] as int, order[y] as int)
}

/// `order` holds exactly the positions from `low` to `high`.
pub open spec fn holds_positions(order: Seq<usize>, low: int, high: int) -> bool {
    &&& forall|x: int| 0 <= x < order.len() ==> low <= #[trigger] order[x] < high
    &&& forall|p: usize| low <= p < high ==> #[trigger] order.contains(p)
}

proof fn lemma_placed_transitive<T: Ranked>(items: Seq<T>, i: int, j: int, k: int)
    requires
        placed_before(items, i, j),
        placed_before(items, j, k),
    ensures
        placed_before(items, i, k),
{
    lemma_rank_order(items[i].rank(), items[j].rank(), items[k].rank());
}

fn merge_orders<T: Ranked>(
    items: &Vec<T>,
    left: &Vec<usize>,
    right: &Vec<usize>,
    low: usize,
    middle: usize,
    high: usize,
) -> (merged: Vec<usize>)
    requires
        low <= middle <= high <= items@.len(),
        holds_positions(left@, low as int, middle as int),
        holds_positions(right@, middle as int, high as int),
        in_stable_order(items@, left@),
        in_stable_order(items@, right@),
        left@.len() == middle - low,
        right@.len() == high - middle,
    ensures
        holds_positions(merged@, low as int, high as int),
        in_stable_order(items@, merged@),
        merged@.len() == high - low,
{
    let mut merged: Vec<usize> = Vec::new();
    let mut i: usize = 0;
    let mut j: usize = 0;
    while i < left.len() || j < right.len()
        invariant
            low <= middle <= high <= items@.len(),
            i <= left@.len(),
            j <= right@.len(),
            left@.len() == middle - low,
            right@.len() == high - middle,
            merged@.len() == i + j,
            holds_positions(left@, low as int, middle as int),
            holds_positions(right@, middle as int, high as int),
            in_stable_order(items@, left@),
            in_stable_order(items@, right@),
            in_stable_order(items@, merged@),
            forall|x: int| 0 <= x < merged@.len() ==> low <= #[trigger] merged@[x] < high,
            forall|x: int, y: int|
                #![trigger merged@[x], left@[y]]
                0 <= x < merged@.len() && i <= y < left@.len() ==> placed_before(
                    items@,
                    merged@[x] as int,
                    left@[y] as int,
                ),
            forall|x: int, y: int|
                #![trigger merged@[x], right@[y]]
                0 <= x < merged@.len() && j <= y < right@.len() ==> placed_before(
                    items@,
                    merged@[x] as int,
                    right@[y] as int,
                ),
            forall|y: int| 0 <= y < i ==> merged@.contains(#[trigger] left@[y]),
            forall|y: int| 0 <= y < j ==> merged@.contains(#[trigger] right@[y]),
        decreases left@.len() + right@.len() - i - j,
    {
        let ghost before = merged@;
        let take_left = if i == left.len() {
            false
        } else if j == right.len() {
            true
        } else {
            match items[right[j]].relation(&items[left[i]]) {
                Relation::Before => false,
                _ => true,
            }
        };
        if take_left {
            proof {
                let chosen = left@[i as int];
                assert(before.push(chosen)[before.len() as int] == chosen);
                assert forall|y: int| j <= y < right@.len() implies placed_before(
                    items@,
                    chosen as int,
                    #[trigger] right@[y] as int,
                ) by {
                    lemma_rank_order(
                        items@[chosen as int].rank(),
                        items@[right@[j as int] as int].rank(),
                        items@[right@[j as int] as int].rank(),
                    );
                    assert(placed_before(items@, chosen as int, right@[j as int] as int));
                    if y > j {
                        lemma_placed_transitive(
                            items@,
                            chosen as int,
                            right@[j as int] as int,
                            right@[y] as int,
                        );
                    }
                }
                assert forall|p: usize| before.contains(p) implies before.push(chosen).contains(
                    p,
                ) by {
                    let x = choose|x: int| 0 <= x < before.len() && before[x] == p;
                    assert(before.push(chosen)[x] == p);
                }
            }
            merged.push(left[i]);
            i += 1;
        } else {
            proof {
                let chosen = right@[j as int];
                assert(before.push(chosen)[before.len() as int] == chosen);
                assert forall|y: int| i <= y < left@.len() implies placed_before(
                    items@,
                    chosen as int,
                    #[trigger] left@[y] as int,
                ) by {
                    lemma_rank_order(
                        items@[chosen as int].rank(),
                        items@[left@[i as int] as int].rank(),
                        items@[left@[i as int] as int].rank(),
                    );
                    assert(placed_before(items@, chosen as int, left@[i as int] as int));
                    if y > i {
                        lemma_placed_transitive(
                            items@,
                            chosen as int,
                            left@[i as int] as int,
                            left@[y] as int,
                        );
                    }
                }
                assert forall|p: usize| before.contains(p) implies before.push(chosen).contains(
                    p,
                ) by {
                    let x = choose|x: int| 0 <= x < before.len() && before[x] == p;
                    assert(before.push(chosen)[x] == p);
                }
            }
            merged.push(right[j]);
            j += 1;
        }
    }
    proof {
        assert forall|p: usize| low <= p < high implies #[trigger] merged@.contains(p) by {
            if p < middle {
                assert(left@.contains(p));
                let y = choose|y: int| 0 <= y < left@.len() && left@[y] == p;
                assert(merged@.contains(left@[y]));
            } else {
                assert(right@.contains(p));
                let y = choose|y: int| 0 <= y < right@.len() && right@[y] == p;
                assert(merged@.contains(right@[y]));
            }
        }
    }
    merged
}

fn order_range<T: Ranked>(items: &Vec<T>, low: usize, high: usize) -> (order: Vec<usize>)
    requires
        low <= high <= items@.len(),
    ensures
        holds_positions(order@, low as int, high as int),
        in_stable_order(items@, order@),
        order@.len() == high - low,
    decreases high - low,
{
    if high - low == 0 {
        Vec::new()
    } else if high - low == 1 {
        let mut order: Vec<usize> = Vec::new();
        order.push(low);
        assert(order@[0] == low);
        order
    } else {
        let middle: usize = low + (high - low) / 2;
        let left = order_range(items, low, middle);
        let right = order_range(items, middle, high);
        merge_orders(items, &left, &right, low, middle, high)
    }
}

/// Positions of `items` in the order of a stable sort by rank.
pub fn stable_order<T: Ranked>(items: &Vec<T>) -> (order: Vec<usize>)
    ensures
        holds_positions(order@, 0, items@.len() as int),
        in_stable_order(items@, order@),
        order@.len() == items@.len(),
{
    order_range(items, 0, items.len())
}

/// The listed positions stand in strictly increasing rank order.
pub open spec fn strictly_ranked<T: Ranked>(items: Seq<T>, kept: Seq<usize>) -> bool {
    forall|x: int, y: int|
        #![trigger kept[x], kept[y]]
        0 <= x < y < kept.len() ==> rank_before(
            items[kept[x] as int].rank(),
            items[kept[y] as int].rank(),
        )
}

/// `kept` lists, in rank order, the first position of every rank that occurs in `items`.
pub open spec fn first_of_each<T: Ranked>(items: Seq<T>, kept: Seq<usize>) -> bool {
    &&& forall|x: int| 0 <= x < kept.len() ==> 0 <= #[trigger] kept[x] < items.len()
    &&& strictly_ranked(items, kept)
    &&& forall|p: int| 0 <= p < items.len() ==> #[trigger] kept_one(items, p, kept)
}

/// Every rank among the first `n` positions of `order` is kept at an earlier or equal position.
spec fn kept_so_far<T: Ranked>(
    items: Seq<T>,
    order: Seq<usize>,
    n: int,
    kept: Seq<usize>,
) -> bool {
    forall|k: int| 0 <= k < n ==> kept_one(items, #[trigger] order[k] as int, kept)
}

/// Some kept position no later than `p` holds the rank of the item at `p`.
pub open spec fn kept_one<T: Ranked>(items: Seq<T>, p: int, kept: Seq<usize>) -> bool {
    exists|x: int|
        0 <= x < kept.len() && #[trigger] kept[x] <= p && items[kept[x] as int].rank()
            == items[p].rank()
}

proof fn lemma_kept_one_grows<T: Ranked>(items: Seq<T>, p: int, kept: Seq<usize>, more: usize)
    requires
        kept_one(items, p, kept),
    ensures
        kept_one(items, p, kept.push(more)),
{
    let x = choose|x: int|
        0 <= x < kept.len() && #[trigger] kept[x] <= p && items[kept[x] as int].rank()
            == items[p].rank();
    assert(kept.push(more)[x] == kept[x]);
}

/// Sorts by rank and drops every item whose rank already occurred, like a stable sort
/// followed by the removal of consecutive repetitions.
pub fn sorted_unique_order<T: Ranked>(items: &Vec<T>) -> (kept: Vec<usize>)
    ensures
        first_of_each(items@, kept@),
{
    let order = stable_order(items);
    let mut kept: Vec<usize> = Vec::new();
    let mut i: usize = 0;
    while i < order.len()
        invariant
            i <= order@.len(),
            order@.len() == items@.len(),
            holds_positions(order@, 0, items@.len() as int),
            in_stable_order(items@, order@),
            forall|x: int| 0 <= x < kept@.len() ==> 0 <= #[trigger] kept@[x] < items@.len(),
            strictly_ranked(items@, kept@),
            kept_so_far(items@, order@, i as int, kept@),
            (i > 0) == (kept@.len() > 0),
            i > 0 ==> items@[kept@.last() as int].rank() == items@[order@[i - 1] as int].rank(),
            i > 0 ==> kept@.last() <= order@[i - 1],
        decreases order@.len() - i,
    {
        let position = order[i];
        let ghost before = kept@;
        let ghost rank = items@[position as int].rank();
        if i > 0 {
            assert(placed_before(items@, order@[i - 1] as int, order@[i as int] as int));
        }
        let repeated = if i == 0 {
            false
        } else {
            match items[position].relation(&items[kept[kept.len() - 1]]) {
                Relation::Same => true,
                _ => false,
            }
        };
        if repeated {
            proof {
                lemma_rank_order(rank, rank, rank);
                let x = before.len() - 1;
                assert(before[x] <= position && items@[before[x] as int].rank() == rank);
                assert(kept_one(items@, position as int, before));
            }
        } else {
            kept.push(position);
            proof {
                assert(kept@[before.len() as int] == position);
                assert(kept_one(items@, position as int, kept@));
                assert forall|k: int| 0 <= k < i implies kept_one(
                    items@,
                    #[trigger] order@[k] as int,
                    kept@,
                ) by {
                    lemma_kept_one_grows(items@, order@[k] as int, before, position);
                }
                assert forall|x: int, y: int|
                    #![trigger kept@[x], kept@[y]]
                    0 <= x < y < kept@.len() implies rank_before(
                    items@[kept@[x] as int].rank(),
                    items@[kept@[y] as int].rank(),
                ) by {
                    assert(kept@[x] == before[x]);
                    if y == before.len() {
                        let last = before.len() - 1;
                        if x < last {
                            assert(rank_before(
                                items@[before[x] as int].rank(),
                                items@[before[last] as int].rank(),
                            ));
                        }
                        lemma_rank_order(
                            items@[before[x] as int].rank(),
                            items@[before[last] as int].rank(),
                            rank,
                        );
                    } else {
                        assert(before[y] == kept@[y]);
                    }
                }
            }
        }
        i += 1;
    }
    proof {
        assert forall|p: int| 0 <= p < items@.len() implies kept_one(items@, p, kept@) by {
            assert(order@.contains(p as usize));
            let k = choose|k: int| 0 <= k < order@.len() && order@[k] == p as usize;
            assert(kept_one(items@, order@[k] as int, kept@));
        }
    }
    kept
}

/// Two items have the same rank.
pub open spec fn repeats<T: Ranked>(items: Seq<T>) -> bool {
    exists|i: int, j: int|
        0 <= i < j < items.len() && (#[trigger] items[i]).rank() == (#[trigger] items[j]).rank()
}

/// Whether two items have the same rank.
pub fn has_repeat<T: Ranked>(items: &Vec<T>) -> (result: bool)
    ensures
        result == repeats(items@),
{
    let order = stable_order(items);
    let mut i: usize = 1;
    while i < order.len()
        invariant
            1 <= i,
            order@.len() > 0 ==> i <= order@.len(),
            order@.len() == items@.len(),
            holds_positions(order@, 0, items@.len() as int),
            in_stable_order(items@, order@),
            order@.len() > 0 ==> strictly_ranked(items@, order@.take(i as int)),
        decreases order@.len() - i,
    {
        let left = order[i - 1];
        let right = order[i];
        assert(placed_before(items@, left as int, right as int));
        match items[left].relation(&items[right]) {
            Relation::Same => {
                proof {
                    lemma_rank_order(
                        items@[left as int].rank(),
                        items@[right as int].rank(),
                        items@[right as int].rank(),
                    );
                    assert(items@[left as int].rank() == items@[right as int].rank());
                }
                return true;
            },
            _ => {},
        }
        proof {
            let shorter = order@.take(i as int);
            let longer = order@.take(i + 1);
            assert forall|x: int, y: int|
                #![trigger longer[x], longer[y]]
                0 <= x < y < longer.len() implies rank_before(
                items@[longer[x] as int].rank(),
                items@[longer[y] as int].rank(),
            ) by {
                assert(longer[x] == order@[x] && longer[y] == order@[y]);
                assert(shorter[x] == order@[x]);
                if y < i {
                    assert(shorter[y] == order@[y]);
                } else {
                    assert(shorter[i - 1] == left);
                    lemma_rank_order(
                        items@[order@[x] as int].rank(),
                        items@[left as int].rank(),
                        items@[right as int].rank(),
                    );
                }
            }
        }
        i += 1;
    }
    proof {
        assert(order@.take(order@.len() as int) =~= order@);
        if repeats(items@) {
            let (p, q) = choose|p: int, q: int|
                0 <= p < q < items@.len() && (#[trigger] items@[p]).rank() == (
                #[trigger] items@[q]).rank();
            assert(order@.contains(p as usize));
            assert(order@.contains(q as usize));
            let x = choose|x: int| 0 <= x < order@.len() && order@[x] == p as usize;
            let y = choose|y: int| 0 <= y < order@.len() && order@[y] == q as usize;
            lemma_rank_order(items@[p].rank(), items@[q].rank(), items@[p].rank());
            if x < y {
                assert(rank_before(items@[order@[x] as int].rank(), items@[order@[y] as int].rank()));
            } else {
                assert(rank_before(items@[order@[y] as int].rank(), items@[order@[x] as int].rank()));
            }
        }
    }
    false
}

proof fn lemma_first_difference(a: Seq<u8>, b: Seq<u8>, k: int, i: int)
    requires
        0 <= k <= i <= a.len(),
        i <= b.len(),
        forall|j: int| k <= j < i ==> a[j] == b[j],
    ensures
        bytes_before_from(a, b, k) == bytes_before_from(a, b, i),
    decreases i - k,
{
    if k < i {
        lemma_first_difference(a, b, k + 1, i);
    }
}

/// Bytes are ordered by the first place where they differ, and what comes to an end before that
/// comes first.
pub proof fn law_the_first_difference_decides(a: Seq<u8>, b: Seq<u8>, i: int)
    requires
        0 <= i <= a.len(),
        i <= b.len(),
        forall|j: int| 0 <= j < i ==> a[j] == b[j],
    ensures
        i < a.len() && i < b.len() && a[i] < b[i] ==> bytes_before(a, b) && !bytes_before(b, a),
        i == a.len() && i < b.len() ==> bytes_before(a, b) && !bytes_before(b, a),
        i == a.len() && i == b.len() ==> !bytes_before(a, b),
{
    lemma_first_difference(a, b, 0, i);
    lemma_first_difference(b, a, 0, i);
}

proof fn lemma_first_other_rank(a: Seq<Seq<u8>>, b: Seq<Seq<u8>>, k: int, i: int)
    requires
        0 <= k <= i <= a.len(),
        i <= b.len(),
        forall|j: int| k <= j < i ==> a[j] == b[j],
    ensures
        rank_before_from(a, b, k) == rank_before_from(a, b, i),
    decreases i - k,
{
    if k < i {
        lemma_first_other_rank(a, b, k + 1, i);
    }
}

/// Ranks are ordered by the first part in which they differ, and what comes to an end before
/// that comes first. Two ranks stand in exactly one relation.
pub proof fn law_the_first_other_part_decides(a: Seq<Seq<u8>>, b: Seq<Seq<u8>>, i: int)
    requires
        0 <= i <= a.len(),
        i <= b.len(),
        forall|j: int| 0 <= j < i ==> a[j] == b[j],
    ensures
        i < a.len() && i < b.len() && a[i] != b[i] ==> rank_before(a, b) == bytes_before(
            a[i],
            b[i],
        ),
        i == a.len() && i < b.len() ==> rank_before(a, b) && !rank_before(b, a),
        i == a.len() && i == b.len() ==> !rank_before(a, b),
        relation_of(a, b) == Relation::Same <==> a == b,
        a != b && rank_before(a, b) <==> relation_of(a, b) == Relation::Before,
{
    lemma_first_other_rank(a, b, 0, i);
    lemma_first_other_rank(b, a, 0, i);
}

/// Items repeat exactly if two of them, at different places, have the same rank.
pub proof fn law_repeats_are_two_items<T: Ranked>(items: Seq<T>, i: int, j: int)
    ensures
        0 <= i < j < items.len() && items[i].rank() == items[j].rank() ==> repeats(items),
        items.len() < 2 ==> !repeats(items),
        (forall|x: int, y: int|
            0 <= x < y < items.len() ==> (#[trigger] items[x]).rank() != (
            #[trigger] items[y]).rank()) ==> !repeats(items),
{
}

/// A stable order goes by rank, and by place where the ranks are the same. It lists every place
/// once and no other.
pub proof fn law_stable_orders<T: Ranked>(items: Seq<T>, order: Seq<usize>, x: int, y: int, p: usize)
    requires
        holds_positions(order, 0, items.len() as int),
        in_stable_order(items, order),
    ensures
        0 <= x < y < order.len() ==> rank_before(
            items[order[x] as int].rank(),
            items[order[y] as int].rank(),
        ) || (items[order[x] as int].rank() == items[order[y] as int].rank() && order[x] < order[y]),
        0 <= x < order.len() ==> order[x] < items.len(),
        p < items.len() ==> order.contains(p),
{
}

/// Of the items with the same rank the first one is kept, and of different ones all, in the
/// order of their ranks.
pub proof fn law_the_first_of_each_is_kept<T: Ranked>(
    items: Seq<T>,
    kept: Seq<usize>,
    p: int,
    x: int,
    y: int,
)
    requires
        first_of_each(items, kept),
    ensures
        0 <= p < items.len() ==> exists|k: int|
            0 <= k < kept.len() && #[trigger] kept[k] <= p && items[kept[k] as int].rank()
                == items[p].rank(),
        0 <= x < y < kept.len() ==> rank_before(
            items[kept[x] as int].rank(),
            items[kept[y] as int].rank(),
        ),
        0 <= x < kept.len() ==> kept[x] < items.len(),
{
    if 0 <= p < items.len() {
        assert(kept_one(items, p, kept));
    }
}

} // verus!
