//! What a plain walk of a directory tree lists, and that a walk with an inventory lists the
//! same.

use vstd::multiset::Multiset;
use vstd::prelude::*;
use crate::inventory::EntryType;
use crate::path::joined;
use crate::walk::{child_visit, child_visits, leading_files, one_more, visit_all, Visit, WalkState};

verus! {

/// The entries that a plain walk from `visits` lists: each entry itself, and after a directory
/// everything below it. Symbolic links are listed and not followed. `tree` holds the children
/// of each directory, and no directory is followed further than `height` levels down.
pub open spec fn plain_walk(
    visits: Seq<Visit>,
    tree: spec_fn(Seq<u8>) -> Seq<(Seq<u8>, EntryType)>,
    height: nat,
) -> Seq<(Seq<u8>, usize, EntryType)>
    decreases height, visits.len(),
{
    if visits.len() == 0 {
        Seq::empty()
    } else {
        let first = visits[0];
        let below = if first.kind == EntryType::Directory && height > 0 {
            plain_walk(child_visits(first, tree(first.path)), tree, (height - 1) as nat)
        } else {
            Seq::empty()
        };
        seq![first.entry()] + below + plain_walk(visits.drop_first(), tree, height)
    }
}

/// Nothing lies further than `height` levels below the visits.
pub open spec fn shallow(
    visits: Seq<Visit>,
    tree: spec_fn(Seq<u8>) -> Seq<(Seq<u8>, EntryType)>,
    height: nat,
) -> bool
    decreases height,
{
    forall|i: int|
        0 <= i < visits.len() && (#[trigger] visits[i]).kind == EntryType::Directory ==> height > 0
            && shallow(
            child_visits(visits[i], tree(visits[i].path)),
            tree,
            (height - 1) as nat,
        )
}

/// The listings are those that `tree` has for the directories met when `pending` is visited,
/// one for each of them, each in any order.
pub open spec fn shows(
    pending: Seq<Visit>,
    listings: Seq<Seq<(Seq<u8>, EntryType)>>,
    tree: spec_fn(Seq<u8>) -> Seq<(Seq<u8>, EntryType)>,
) -> bool
    decreases listings.len(), pending.len(),
{
    if pending.len() == 0 {
        listings.len() == 0
    } else {
        let first = pending[0];
        let rest = pending.drop_first();
        if first.kind != EntryType::Directory {
            shows(rest, listings, tree)
        } else {
            listings.len() > 0 && listings[0].to_multiset() == tree(first.path).to_multiset()
                && shows(child_visits(first, listings[0]) + rest, listings.drop_first(), tree)
        }
    }
}

/// An entry is a child of a directory that `tree` shows.
pub open spec fn follows(
    parent: (Seq<u8>, usize, EntryType),
    entry: (Seq<u8>, usize, EntryType),
    tree: spec_fn(Seq<u8>) -> Seq<(Seq<u8>, EntryType)>,
) -> bool {
    parent.2 == EntryType::Directory && exists|k: int|
        0 <= k < tree(parent.0).len() && entry == (
            joined(parent.0, (#[trigger] tree(parent.0)[k]).0),
            one_more(parent.1),
            tree(parent.0)[k].1,
        )
}

/// The directory that holds an entry comes before it.
pub open spec fn comes_after_its_parent(
    entries: Seq<(Seq<u8>, usize, EntryType)>,
    index: int,
    tree: spec_fn(Seq<u8>) -> Seq<(Seq<u8>, EntryType)>,
) -> bool {
    exists|i: int| 0 <= i < index && #[trigger] follows(entries[i], entries[index], tree)
}

proof fn lemma_plain_concat(
    left: Seq<Visit>,
    right: Seq<Visit>,
    tree: spec_fn(Seq<u8>) -> Seq<(Seq<u8>, EntryType)>,
    height: nat,
)
    ensures
        plain_walk(left + right, tree, height) == plain_walk(left, tree, height) + plain_walk(
            right,
            tree,
            height,
        ),
    decreases left.len(),
{
    if left.len() == 0 {
        assert(left + right =~= right);
        assert(plain_walk(left, tree, height) + plain_walk(right, tree, height) =~= plain_walk(
            right,
            tree,
            height,
        ));
    } else {
        lemma_plain_concat(left.drop_first(), right, tree, height);
        assert((left + right)[0] == left[0]);
        assert((left + right).drop_first() =~= left.drop_first() + right);
        assert(plain_walk(left + right, tree, height) =~= plain_walk(left, tree, height)
            + plain_walk(right, tree, height));
    }
}

proof fn lemma_higher(
    visits: Seq<Visit>,
    tree: spec_fn(Seq<u8>) -> Seq<(Seq<u8>, EntryType)>,
    height: nat,
)
    requires
        shallow(visits, tree, height),
    ensures
        shallow(visits, tree, height + 1),
        plain_walk(visits, tree, height + 1) == plain_walk(visits, tree, height),
    decreases height, visits.len(),
{
    assert forall|i: int|
        0 <= i < visits.len() && (#[trigger] visits[i]).kind == EntryType::Directory implies
        shallow(child_visits(visits[i], tree(visits[i].path)), tree, height) by {
        lemma_higher(
            child_visits(visits[i], tree(visits[i].path)),
            tree,
            (height - 1) as nat,
        );
    }
    if visits.len() > 0 {
        let first = visits[0];
        let rest = visits.drop_first();
        assert forall|i: int|
            0 <= i < rest.len() && (#[trigger] rest[i]).kind == EntryType::Directory implies height
            > 0 && shallow(
            child_visits(rest[i], tree(rest[i].path)),
            tree,
            (height - 1) as nat,
        ) by {
            assert(rest[i] == visits[i + 1]);
        }
        lemma_higher(rest, tree, height);
        if first.kind == EntryType::Directory {
            lemma_higher(child_visits(first, tree(first.path)), tree, (height - 1) as nat);
        }
    }
}

/// Adds what lies below a child.
spec fn grown(
    parent: Visit,
    tree: spec_fn(Seq<u8>) -> Seq<(Seq<u8>, EntryType)>,
    height: nat,
) -> spec_fn((Seq<u8>, EntryType), Multiset<(Seq<u8>, usize, EntryType)>) -> Multiset<
    (Seq<u8>, usize, EntryType),
> {
    |child: (Seq<u8>, EntryType), sum: Multiset<(Seq<u8>, usize, EntryType)>|
        sum.add(plain_walk(seq![child_visit(parent, child)], tree, height).to_multiset())
}

proof fn lemma_children_sum(
    parent: Visit,
    children: Seq<(Seq<u8>, EntryType)>,
    tree: spec_fn(Seq<u8>) -> Seq<(Seq<u8>, EntryType)>,
    height: nat,
)
    ensures
        plain_walk(child_visits(parent, children), tree, height).to_multiset()
            == children.fold_right(grown(parent, tree, height), Multiset::empty()),
    decreases children.len(),
{
    broadcast use vstd::seq_lib::group_to_multiset_ensures;

    let f = grown(parent, tree, height);
    if children.len() == 0 {
        assert(child_visits(parent, children) =~= Seq::empty());
        assert(plain_walk(child_visits(parent, children), tree, height).to_multiset()
            =~= Multiset::empty());
    } else {
        let shorter = children.drop_last();
        let last = children.last();
        let one = seq![child_visit(parent, last)];
        lemma_children_sum(parent, shorter, tree, height);
        assert(child_visits(parent, children) =~= child_visits(parent, shorter) + one);
        lemma_plain_concat(child_visits(parent, shorter), one, tree, height);
        vstd::seq_lib::lemma_multiset_commutative(
            plain_walk(child_visits(parent, shorter), tree, height),
            plain_walk(one, tree, height),
        );
        let more = plain_walk(one, tree, height).to_multiset();
        lemma_fold_moves(shorter, parent, tree, height, Multiset::empty(), more);
        assert(Multiset::empty().add(more) =~= f(last, Multiset::empty()));
        assert(children.fold_right(f, Multiset::empty()) == shorter.fold_right(
            f,
            f(last, Multiset::empty()),
        ));
    }
}

proof fn lemma_fold_moves(
    children: Seq<(Seq<u8>, EntryType)>,
    parent: Visit,
    tree: spec_fn(Seq<u8>) -> Seq<(Seq<u8>, EntryType)>,
    height: nat,
    start: Multiset<(Seq<u8>, usize, EntryType)>,
    more: Multiset<(Seq<u8>, usize, EntryType)>,
)
    ensures
        children.fold_right(grown(parent, tree, height), start.add(more)) == children.fold_right(
            grown(parent, tree, height),
            start,
        ).add(more),
    decreases children.len(),
{
    if children.len() > 0 {
        let f = grown(parent, tree, height);
        let last = children.last();
        let one = plain_walk(seq![child_visit(parent, last)], tree, height).to_multiset();
        assert(f(last, start.add(more)) =~= f(last, start).add(more));
        lemma_fold_moves(children.drop_last(), parent, tree, height, f(last, start), more);
    }
}

proof fn lemma_order_is_free(
    parent: Visit,
    left: Seq<(Seq<u8>, EntryType)>,
    right: Seq<(Seq<u8>, EntryType)>,
    tree: spec_fn(Seq<u8>) -> Seq<(Seq<u8>, EntryType)>,
    height: nat,
)
    requires
        left.to_multiset() == right.to_multiset(),
    ensures
        plain_walk(child_visits(parent, left), tree, height).to_multiset() == plain_walk(
            child_visits(parent, right),
            tree,
            height,
        ).to_multiset(),
{
    let f = grown(parent, tree, height);
    lemma_children_sum(parent, left, tree, height);
    lemma_children_sum(parent, right, tree, height);
    assert forall|
        x: (Seq<u8>, EntryType),
        y: (Seq<u8>, EntryType),
        sum: Multiset<(Seq<u8>, usize, EntryType)>,
    | #[trigger] f(x, f(y, sum)) == f(y, f(x, sum)) by {
        assert(f(x, f(y, sum)) =~= f(y, f(x, sum)));
    }
    vstd::seq_lib::lemma_fold_right_permutation(left, right, f, Multiset::empty());
}

proof fn lemma_child_occurs(
    left: Seq<(Seq<u8>, EntryType)>,
    right: Seq<(Seq<u8>, EntryType)>,
    index: int,
) -> (other: int)
    requires
        left.to_multiset() == right.to_multiset(),
        0 <= index < left.len(),
    ensures
        0 <= other < right.len(),
        right[other] == left[index],
{
    broadcast use vstd::seq_lib::group_to_multiset_ensures;

    assert(left.contains(left[index]));
    assert(left.to_multiset().count(left[index]) > 0);
    assert(right.contains(left[index]));
    choose|other: int| 0 <= other < right.len() && right[other] == left[index]
}

proof fn lemma_next_is_shallow(
    pending: Seq<Visit>,
    children: Seq<(Seq<u8>, EntryType)>,
    tree: spec_fn(Seq<u8>) -> Seq<(Seq<u8>, EntryType)>,
    height: nat,
)
    requires
        pending.len() > 0,
        pending[0].kind == EntryType::Directory,
        shallow(pending, tree, height),
        children.to_multiset() == tree(pending[0].path).to_multiset(),
    ensures
        shallow(child_visits(pending[0], children) + pending.drop_first(), tree, height),
{
    let first = pending[0];
    let next = child_visits(first, children) + pending.drop_first();
    let held = child_visits(first, tree(first.path));
    lemma_higher(held, tree, (height - 1) as nat);
    assert forall|i: int|
        0 <= i < next.len() && (#[trigger] next[i]).kind == EntryType::Directory implies height > 0
        && shallow(child_visits(next[i], tree(next[i].path)), tree, (height - 1) as nat) by {
        if i < children.len() {
            let other = lemma_child_occurs(children, tree(first.path), i);
            assert(held[other] == next[i]);
        } else {
            assert(next[i] == pending[i - children.len() + 1]);
        }
    }
}

proof fn lemma_rest_is_shallow(
    pending: Seq<Visit>,
    tree: spec_fn(Seq<u8>) -> Seq<(Seq<u8>, EntryType)>,
    height: nat,
)
    requires
        pending.len() > 0,
        shallow(pending, tree, height),
    ensures
        shallow(pending.drop_first(), tree, height),
{
    let rest = pending.drop_first();
    assert forall|i: int|
        0 <= i < rest.len() && (#[trigger] rest[i]).kind == EntryType::Directory implies height > 0
        && shallow(child_visits(rest[i], tree(rest[i].path)), tree, (height - 1) as nat) by {
        assert(rest[i] == pending[i + 1]);
    }
}

proof fn lemma_visits_list_the_tree(
    pending: Seq<Visit>,
    listings: Seq<Seq<(Seq<u8>, EntryType)>>,
    tree: spec_fn(Seq<u8>) -> Seq<(Seq<u8>, EntryType)>,
    height: nat,
)
    requires
        shows(pending, listings, tree),
        shallow(pending, tree, height),
    ensures
        visit_all(pending, listings).to_multiset() == plain_walk(
            pending,
            tree,
            height,
        ).to_multiset(),
    decreases listings.len(), pending.len(),
{
    broadcast use vstd::seq_lib::group_to_multiset_ensures;

    if pending.len() > 0 {
        let first = pending[0];
        let rest = pending.drop_first();
        let entry = seq![first.entry()];
        let after = plain_walk(rest, tree, height);
        lemma_rest_is_shallow(pending, tree, height);
        if first.kind != EntryType::Directory {
            lemma_visits_list_the_tree(rest, listings, tree, height);
            assert(entry + Seq::empty() + after =~= entry + after);
            vstd::seq_lib::lemma_multiset_commutative(entry, after);
            vstd::seq_lib::lemma_multiset_commutative(entry, visit_all(rest, listings));
        } else {
            let children = child_visits(first, listings[0]);
            let held = child_visits(first, tree(first.path));
            let fewer = listings.drop_first();
            lemma_next_is_shallow(pending, listings[0], tree, height);
            lemma_visits_list_the_tree(children + rest, fewer, tree, height);
            lemma_plain_concat(children, rest, tree, height);
            lemma_order_is_free(first, listings[0], tree(first.path), tree, height);
            lemma_higher(held, tree, (height - 1) as nat);
            let below = plain_walk(held, tree, (height - 1) as nat);
            vstd::seq_lib::lemma_multiset_commutative(
                plain_walk(children, tree, height),
                after,
            );
            vstd::seq_lib::lemma_multiset_commutative(entry, visit_all(children + rest, fewer));
            assert(entry + below + after =~= entry + (below + after));
            vstd::seq_lib::lemma_multiset_commutative(entry, below + after);
            vstd::seq_lib::lemma_multiset_commutative(below, after);
        }
    }
}

proof fn lemma_parents_first(
    pending: Seq<Visit>,
    listings: Seq<Seq<(Seq<u8>, EntryType)>>,
    tree: spec_fn(Seq<u8>) -> Seq<(Seq<u8>, EntryType)>,
    j: int,
)
    requires
        shows(pending, listings, tree),
        0 <= j < visit_all(pending, listings).len(),
    ensures
        ({
            let entries = visit_all(pending, listings);
            ||| exists|k: int| 0 <= k < pending.len() && (#[trigger] pending[k]).entry() == entries[j]
            ||| comes_after_its_parent(entries, j, tree)
        }),
    decreases listings.len(), pending.len(),
{
    let entries = visit_all(pending, listings);
    let first = pending[0];
    let rest = pending.drop_first();
    assert(entries[0] == first.entry());
    if j > 0 {
        let (next, fewer) = if first.kind != EntryType::Directory {
            (rest, listings)
        } else {
            (child_visits(first, listings[0]) + rest, listings.drop_first())
        };
        let later = visit_all(next, fewer);
        assert(entries =~= seq![first.entry()] + later);
        assert(entries[j] == later[j - 1]);
        lemma_parents_first(next, fewer, tree, j - 1);
        if exists|k: int| 0 <= k < next.len() && (#[trigger] next[k]).entry() == later[j - 1] {
            let k = choose|k: int|
                0 <= k < next.len() && (#[trigger] next[k]).entry() == later[j - 1];
            let held = next.len() - rest.len();
            if k < held {
                let other = lemma_child_occurs(listings[0], tree(first.path), k);
                assert(tree(entries[0].0)[other] == listings[0][k]);
                assert(follows(entries[0], entries[j], tree));
            } else {
                assert(next[k] == pending[k - held + 1]);
            }
        } else {
            let i = choose|i: int|
                0 <= i < j - 1 && #[trigger] follows(later[i], later[j - 1], tree);
            assert(entries[i + 1] == later[i]);
            assert(follows(entries[i + 1], entries[j], tree));
        }
    }
}

impl WalkState {
    /// The visits that are coming, the current one first.
    pub open spec fn coming(self) -> Seq<Visit> {
        match self.current {
            Some(visit) => seq![visit] + self.pending,
            None => self.pending,
        }
    }

    /// The listings so far are those of the tree: if the rest of the walk sees the tree, then
    /// the whole walk from `start` did.
    pub open spec fn faithful(
        self,
        start: Visit,
        tree: spec_fn(Seq<u8>) -> Seq<(Seq<u8>, EntryType)>,
    ) -> bool {
        &&& self.current matches Some(visit) ==> visit.kind == EntryType::Directory
        &&& forall|more: Seq<Seq<(Seq<u8>, EntryType)>>| #[trigger]
            shows(self.coming(), more, tree) ==> shows(seq![start], self.listings + more, tree)
    }
}

proof fn lemma_files_need_no_listing(
    pending: Seq<Visit>,
    more: Seq<Seq<(Seq<u8>, EntryType)>>,
    tree: spec_fn(Seq<u8>) -> Seq<(Seq<u8>, EntryType)>,
)
    ensures
        leading_files(pending) <= pending.len(),
        shows(pending, more, tree) == shows(
            pending.skip(leading_files(pending) as int),
            more,
            tree,
        ),
        leading_files(pending) < pending.len() ==> pending[leading_files(pending) as int].kind
            == EntryType::Directory,
    decreases pending.len(),
{
    if pending.len() > 0 && pending[0].kind != EntryType::Directory {
        let rest = pending.drop_first();
        lemma_files_need_no_listing(rest, more, tree);
        assert(rest.skip(leading_files(rest) as int) =~= pending.skip(
            leading_files(pending) as int,
        ));
    } else {
        assert(pending.skip(0) =~= pending);
    }
}

/// A walk stays faithful to a tree: it is so when it starts, when it moves on, and when it
/// descends by the children that the tree has for the current directory, in any order.
pub proof fn law_walks_stay_faithful(
    walk: WalkState,
    start: Visit,
    tree: spec_fn(Seq<u8>) -> Seq<(Seq<u8>, EntryType)>,
    children: Seq<(Seq<u8>, EntryType)>,
)
    ensures
        walk.current is None && walk.pending == seq![start] && walk.listings.len() == 0
            ==> walk.faithful(start, tree),
        walk.faithful(start, tree) ==> walk.advanced().faithful(start, tree),
        walk.faithful(start, tree) && (walk.current matches Some(visit)
            ==> children.to_multiset() == tree(visit.path).to_multiset()) ==> walk.descended(
            children,
        ).faithful(start, tree),
{
    if walk.current is None && walk.pending == seq![start] && walk.listings.len() == 0 {
        assert forall|more: Seq<Seq<(Seq<u8>, EntryType)>>| #[trigger]
            shows(walk.coming(), more, tree) implies shows(
            seq![start],
            walk.listings + more,
            tree,
        ) by {
            assert(walk.listings + more =~= more);
        }
    }
    if walk.faithful(start, tree) && walk.current is None {
        let next = walk.advanced();
        let files = leading_files(walk.pending) as int;
        lemma_files_need_no_listing(walk.pending, Seq::empty(), tree);
        assert(next.coming() =~= walk.pending.skip(files));
        assert forall|more: Seq<Seq<(Seq<u8>, EntryType)>>| #[trigger]
            shows(next.coming(), more, tree) implies shows(
            seq![start],
            next.listings + more,
            tree,
        ) by {
            lemma_files_need_no_listing(walk.pending, more, tree);
            assert(shows(walk.coming(), more, tree));
        }
    }
    if walk.faithful(start, tree) && walk.current is Some {
        let visit = walk.current.unwrap();
        if children.to_multiset() == tree(visit.path).to_multiset() {
            let next = walk.descended(children);
            assert forall|more: Seq<Seq<(Seq<u8>, EntryType)>>| #[trigger]
                shows(next.coming(), more, tree) implies shows(
                seq![start],
                next.listings + more,
                tree,
            ) by {
                let longer = seq![children] + more;
                assert(walk.coming()[0] == visit);
                assert(walk.coming().drop_first() =~= walk.pending);
                assert(longer[0] == children);
                assert(longer.drop_first() =~= more);
                assert(shows(walk.coming(), longer, tree));
                assert(walk.listings + longer =~= next.listings + more);
            }
        }
    }
}

/// A walk that was faithful to a tree until its end lists what a plain walk of the tree lists,
/// each entry as often, whichever of its listings were reused. The root comes first, and every
/// other entry comes after the directory that holds it.
pub proof fn law_walks_list_what_plain_walks_list(
    walk: WalkState,
    start: Visit,
    tree: spec_fn(Seq<u8>) -> Seq<(Seq<u8>, EntryType)>,
    height: nat,
)
    requires
        walk.faithful(start, tree),
        walk.finished(),
        shallow(seq![start], tree, height),
    ensures
        ({
            let entries = visit_all(seq![start], walk.listings);
            &&& entries.to_multiset() == plain_walk(seq![start], tree, height).to_multiset()
            &&& entries.len() > 0
            &&& entries[0] == start.entry()
            &&& forall|j: int|
                0 < j < entries.len() ==> #[trigger] comes_after_its_parent(entries, j, tree)
        }),
{
    let none = Seq::<Seq<(Seq<u8>, EntryType)>>::empty();
    assert(walk.coming() =~= Seq::empty());
    assert(shows(walk.coming(), none, tree));
    assert(walk.listings + none =~= walk.listings);
    let pending = seq![start];
    let entries = visit_all(pending, walk.listings);
    lemma_visits_list_the_tree(pending, walk.listings, tree, height);
    assert forall|j: int| 0 < j < entries.len() implies #[trigger] comes_after_its_parent(
        entries,
        j,
        tree,
    ) by {
        let rest = pending.drop_first();
        if start.kind != EntryType::Directory {
            assert(visit_all(rest, walk.listings).len() == 0);
            assert(entries.len() == 1);
        } else {
            let next = child_visits(start, walk.listings[0]) + rest;
            let fewer = walk.listings.drop_first();
            let later = visit_all(next, fewer);
            assert(entries =~= seq![start.entry()] + later);
            lemma_parents_first(next, fewer, tree, j - 1);
            if exists|k: int| 0 <= k < next.len() && (#[trigger] next[k]).entry() == later[j - 1] {
                let k = choose|k: int|
                    0 <= k < next.len() && (#[trigger] next[k]).entry() == later[j - 1];
                let other = lemma_child_occurs(walk.listings[0], tree(start.path), k);
                assert(tree(entries[0].0)[other] == walk.listings[0][k]);
                assert(follows(entries[0], entries[j], tree));
            } else {
                let i = choose|i: int|
                    0 <= i < j - 1 && #[trigger] follows(later[i], later[j - 1], tree);
                assert(entries[i + 1] == later[i]);
                assert(follows(entries[i + 1], entries[j], tree));
            }
        }
    }
}

} // verus!
