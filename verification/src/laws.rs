//! What holds of whole runs: of the traversal over a directory tree, of the
//! account that the deletion stage keeps, and of the measurement of a size.

use vstd::prelude::*;

use crate::analysis::descent;
use crate::analysis::lemma_reserved_remove;
use crate::analysis::reserved;
use crate::analysis::DeleterView;
use crate::analysis::PendingView;
use crate::detectors::claimed;
use crate::detectors::merged;
use crate::detectors::EntryView;
use crate::detectors::MeasurerView;
use crate::detectors::RulesView;

verus! {

/// A directory tree as a traversal finds it: an entry, and below a directory
/// the trees of its children in listing order.
pub struct Tree {
    pub entry: EntryView,
    pub children: Seq<Tree>,
}

/// The paths of the roots of `forest`.
pub open spec fn paths(forest: Seq<Tree>) -> Seq<Seq<char>> {
    forest.map_values(|tree: Tree| tree.entry.path)
}

/// The listing of the directory at the root of `tree`.
pub open spec fn listing(tree: Tree) -> Seq<EntryView> {
    tree.children.map_values(|child: Tree| child.entry)
}

/// The children that the traversal queues when it visits the root of `tree`:
/// none where detectors nominate entries of its listing; else its
/// directories whose name no detector claims.
pub open spec fn entered(registry: Seq<RulesView>, tree: Tree) -> Seq<Tree> {
    if merged(registry, listing(tree)).len() > 0 {
        Seq::empty()
    } else {
        tree.children.filter(|child: Tree| child.entry.is_dir && !claimed(registry, child.entry.name))
    }
}

/// How many entries `tree` holds.
pub open spec fn tree_size(tree: Tree) -> nat
    decreases tree,
{
    1 + forest_size(tree.children)
}

/// How many entries the trees of `forest` hold together.
pub open spec fn forest_size(forest: Seq<Tree>) -> nat
    decreases forest,
{
    if forest.len() == 0 {
        0
    } else {
        forest_size(forest.drop_last()) + tree_size(forest.last())
    }
}

/// The size of a forest is the sum of the sizes of its two parts.
pub proof fn lemma_forest_size_add(front: Seq<Tree>, back: Seq<Tree>)
    ensures
        forest_size(front + back) == forest_size(front) + forest_size(back),
    decreases back.len(),
{
    if back.len() == 0 {
        assert(front + back =~= front);
    } else {
        lemma_forest_size_add(front, back.drop_last());
        assert((front + back).drop_last() =~= front + back.drop_last());
        assert((front + back).last() == back.last());
    }
}

/// Leaving trees out of a forest does not make it larger.
pub proof fn lemma_forest_size_filter(forest: Seq<Tree>, keep: spec_fn(Tree) -> bool)
    ensures
        forest_size(forest.filter(keep)) <= forest_size(forest),
    decreases forest.len(),
{
    reveal(Seq::filter);
    if forest.len() > 0 {
        lemma_forest_size_filter(forest.drop_last(), keep);
        if keep(forest.last()) {
            let kept = forest.drop_last().filter(keep).push(forest.last());
            assert(kept.drop_last() =~= forest.drop_last().filter(keep));
        }
    }
}

/// The queue after the traversal has visited its first directory.
pub open spec fn advance(registry: Seq<RulesView>, queue: Seq<Tree>) -> Seq<Tree> {
    queue.drop_first() + entered(registry, queue[0])
}

/// The directories that the traversal visits, in the order in which it
/// visits them, when it starts with `queue`.
pub open spec fn visited(registry: Seq<RulesView>, queue: Seq<Tree>) -> Seq<Tree>
    decreases forest_size(queue),
    via visited_terminates
{
    if queue.len() == 0 {
        Seq::empty()
    } else {
        seq![queue[0]] + visited(registry, advance(registry, queue))
    }
}

#[via_fn]
proof fn visited_terminates(registry: Seq<RulesView>, queue: Seq<Tree>) {
    if queue.len() > 0 {
        lemma_advance_shrinks(registry, queue);
    }
}

/// Visiting a directory leaves less to visit.
pub proof fn lemma_advance_shrinks(registry: Seq<RulesView>, queue: Seq<Tree>)
    requires
        queue.len() > 0,
    ensures
        forest_size(advance(registry, queue)) < forest_size(queue),
{
    let first = queue[0];
    let rest = queue.drop_first();
    assert(queue =~= seq![first] + rest);
    lemma_forest_size_add(seq![first], rest);
    lemma_forest_size_add(rest, entered(registry, first));
    assert(seq![first].drop_last() =~= Seq::<Tree>::empty());
    assert(forest_size(Seq::<Tree>::empty()) == 0);
    assert(seq![first].last() == first);
    assert(forest_size(seq![first]) == tree_size(first));
    if merged(registry, listing(first)).len() > 0 {
    } else {
        lemma_forest_size_filter(
            first.children,
            |child: Tree| child.entry.is_dir && !claimed(registry, child.entry.name),
        );
    }
}

/// What the traversal emits, in order, when it starts with `queue`: for each
/// directory it visits, what the detectors nominate in its listing.
pub open spec fn emitted(registry: Seq<RulesView>, queue: Seq<Tree>) -> Seq<EntryView>
    decreases forest_size(queue),
    via emitted_terminates
{
    if queue.len() == 0 {
        Seq::empty()
    } else {
        merged(registry, listing(queue[0])) + emitted(registry, advance(registry, queue))
    }
}

#[via_fn]
proof fn emitted_terminates(registry: Seq<RulesView>, queue: Seq<Tree>) {
    if queue.len() > 0 {
        lemma_advance_shrinks(registry, queue);
    }
}

/// The paths of the children that the traversal queues are what the engine
/// queues from their entries.
proof fn lemma_descent_of_children(registry: Seq<RulesView>, children: Seq<Tree>)
    ensures
        paths(
            children.filter(
                |child: Tree| child.entry.is_dir && !claimed(registry, child.entry.name),
            ),
        ) == descent(registry, children.map_values(|child: Tree| child.entry)),
    decreases children.len(),
{
    reveal(Seq::filter);
    let wanted = |child: Tree| child.entry.is_dir && !claimed(registry, child.entry.name);
    let entries = children.map_values(|child: Tree| child.entry);
    if children.len() == 0 {
        assert(paths(children.filter(wanted)) =~= descent(registry, entries));
    } else {
        let front = children.drop_last();
        let last = children.last();
        let front_entries = front.map_values(|child: Tree| child.entry);
        let keeps = |e: EntryView| e.is_dir && !claimed(registry, e.name);
        lemma_descent_of_children(registry, front);
        assert(children =~= front.push(last));
        assert(entries =~= front_entries.push(last.entry));
        front.lemma_filter_push(last, wanted);
        front_entries.lemma_filter_push(last.entry, keeps);
        if wanted(last) {
            assert(paths(front.filter(wanted).push(last)) =~= paths(front.filter(wanted)).push(
                last.entry.path,
            ));
            assert(front_entries.filter(keeps).push(last.entry).map_values(
                |e: EntryView| e.path,
            ) =~= front_entries.filter(keeps).map_values(|e: EntryView| e.path).push(
                last.entry.path,
            ));
        }
    }
}

/// The traversal over a tree does what the traversal engine does over
/// paths: where the engine's queue holds the paths of `queue` and the first
/// directory is listed as the tree has it, the engine's next queue holds the
/// paths of the next queue over the tree.
pub proof fn lemma_engine_follows_tree(registry: Seq<RulesView>, queue: Seq<Tree>)
    requires
        queue.len() > 0,
    ensures
        paths(advance(registry, queue)) == if merged(registry, listing(queue[0])).len() > 0 {
            paths(queue).drop_first()
        } else {
            paths(queue).drop_first() + descent(registry, listing(queue[0]))
        },
{
    lemma_descent_of_children(registry, queue[0].children);
    if merged(registry, listing(queue[0])).len() > 0 {
        assert(paths(advance(registry, queue)) =~= paths(queue).drop_first());
    } else {
        assert(paths(advance(registry, queue)) =~= paths(queue).drop_first() + descent(
            registry,
            listing(queue[0]),
        ));
    }
}

/// Whatever the traversal queues from a directory is a child of it, is a
/// directory, and carries a name that no registered detector claims: a
/// child that a detector nominates, or would nominate, is never entered.
pub proof fn lemma_claimed_children_stay_out(registry: Seq<RulesView>, tree: Tree, child: Tree)
    requires
        entered(registry, tree).contains(child),
    ensures
        tree.children.contains(child),
        child.entry.is_dir,
        !claimed(registry, child.entry.name),
        merged(registry, listing(tree)).len() == 0,
{
    let wanted = |child: Tree| child.entry.is_dir && !claimed(registry, child.entry.name);
    tree.children.lemma_filter_contains_rev(wanted, child);
    let i = choose|i: int|
        0 <= i < tree.children.filter(wanted).len() && tree.children.filter(wanted)[i] == child;
    tree.children.lemma_filter_pred(wanted, i);
}

/// Every directory that the traversal visits is one that it started with,
/// or a directory whose name no registered detector claims.
pub proof fn lemma_claimed_never_visited(registry: Seq<RulesView>, queue: Seq<Tree>, i: int)
    requires
        0 <= i < visited(registry, queue).len(),
    ensures
        queue.contains(visited(registry, queue)[i]) || (visited(registry, queue)[i].entry.is_dir
            && !claimed(registry, visited(registry, queue)[i].entry.name)),
    decreases forest_size(queue),
{
    if queue.len() > 0 {
        if i == 0 {
            assert(queue[0] == visited(registry, queue)[0]);
        } else {
            let next = advance(registry, queue);
            lemma_advance_shrinks(registry, queue);
            lemma_claimed_never_visited(registry, next, i - 1);
            let tree = visited(registry, next)[i - 1];
            assert(tree == visited(registry, queue)[i]);
            if next.contains(tree) {
                vstd::seq_lib::lemma_seq_concat_contains_all_elements(
                    queue.drop_first(),
                    entered(registry, queue[0]),
                    tree,
                );
                if queue.drop_first().contains(tree) {
                    let k = choose|k: int|
                        0 <= k < queue.drop_first().len() && queue.drop_first()[k] == tree;
                    assert(queue[k + 1] == tree);
                } else {
                    lemma_claimed_children_stay_out(registry, queue[0], tree);
                }
            }
        }
    }
}

/// Every directory of `tree`, its root first; `tree` is taken to be a
/// directory.
pub open spec fn directories(tree: Tree) -> Seq<Tree>
    decreases tree,
{
    seq![tree] + directories_below(tree.children)
}

/// Every directory of the trees of `forest` that are directories.
pub open spec fn directories_below(forest: Seq<Tree>) -> Seq<Tree>
    decreases forest,
{
    if forest.len() == 0 {
        Seq::empty()
    } else {
        directories_below(forest.drop_last()) + if forest.last().entry.is_dir {
            directories(forest.last())
        } else {
            Seq::empty()
        }
    }
}

/// No detector nominates anything in the listing of any directory of `tree`.
pub open spec fn unmatched(registry: Seq<RulesView>, tree: Tree) -> bool
    decreases tree,
{
    &&& merged(registry, listing(tree)).len() == 0
    &&& forall|i: int|
        0 <= i < tree.children.len() && (#[trigger] tree.children[i]).entry.is_dir ==> unmatched(
            registry,
            tree.children[i],
        )
}

/// No directory below the root of `tree` carries a name that a registered
/// detector claims.
pub open spec fn unclaimed(registry: Seq<RulesView>, tree: Tree) -> bool
    decreases tree,
{
    forall|i: int|
        0 <= i < tree.children.len() && (#[trigger] tree.children[i]).entry.is_dir ==> !claimed(
            registry,
            tree.children[i].entry.name,
        ) && unclaimed(registry, tree.children[i])
}

/// The directories of a forest are those of its two parts.
proof fn lemma_directories_below_add(front: Seq<Tree>, back: Seq<Tree>)
    ensures
        directories_below(front + back) == directories_below(front) + directories_below(back),
    decreases back.len(),
{
    if back.len() == 0 {
        assert(front + back =~= front);
        assert(directories_below(front + back) =~= directories_below(front) + directories_below(
            back,
        ));
    } else {
        lemma_directories_below_add(front, back.drop_last());
        assert((front + back).drop_last() =~= front + back.drop_last());
        assert((front + back).last() == back.last());
        assert(directories_below(front + back) =~= directories_below(front) + directories_below(
            back,
        ));
    }
}

/// Where `keep` holds of every directory of `forest`, the forest has the
/// directories of what `keep` leaves of it.
proof fn lemma_directories_below_filter(forest: Seq<Tree>, keep: spec_fn(Tree) -> bool)
    requires
        forall|i: int| 0 <= i < forest.len() ==> keep(#[trigger] forest[i]) == forest[i].entry.is_dir,
    ensures
        directories_below(forest.filter(keep)) == directories_below(forest),
    decreases forest.len(),
{
    reveal(Seq::filter);
    if forest.len() > 0 {
        let front = forest.drop_last();
        let last = forest.last();
        assert forall|i: int| 0 <= i < front.len() implies keep(#[trigger] front[i])
            == front[i].entry.is_dir by {
            assert(front[i] == forest[i]);
        }
        lemma_directories_below_filter(front, keep);
        assert(forest =~= front.push(last));
        front.lemma_filter_push(last, keep);
        if keep(last) {
            assert(front.filter(keep).push(last).drop_last() =~= front.filter(keep));
        }
    }
}

/// Over a queue of directories in which no detector nominates anything and
/// no directory carries a claimed name, the traversal visits every
/// directory exactly once and emits nothing.
proof fn lemma_quiet_walk(registry: Seq<RulesView>, queue: Seq<Tree>)
    requires
        forall|i: int|
            0 <= i < queue.len() ==> (#[trigger] queue[i]).entry.is_dir && unmatched(
                registry,
                queue[i],
            ) && unclaimed(registry, queue[i]),
    ensures
        visited(registry, queue).to_multiset() == directories_below(queue).to_multiset(),
        emitted(registry, queue) == Seq::<EntryView>::empty(),
    decreases forest_size(queue),
{
    if queue.len() == 0 {
        assert(visited(registry, queue) =~= directories_below(queue));
    } else {
        let first = queue[0];
        let rest = queue.drop_first();
        let wanted = |child: Tree| child.entry.is_dir && !claimed(registry, child.entry.name);
        let next = advance(registry, queue);
        lemma_advance_shrinks(registry, queue);
        assert(entered(registry, first) == first.children.filter(wanted));
        assert forall|i: int| 0 <= i < next.len() implies (#[trigger] next[i]).entry.is_dir
            && unmatched(registry, next[i]) && unclaimed(registry, next[i]) by {
            if i < rest.len() {
                assert(next[i] == queue[i + 1]);
            } else {
                let child = next[i];
                assert(child == entered(registry, first)[i - rest.len()]);
                assert(entered(registry, first).contains(child));
                lemma_claimed_children_stay_out(registry, first, child);
                let k = choose|k: int| 0 <= k < first.children.len() && first.children[k] == child;
                assert(first.children[k].entry.is_dir);
            }
        }
        lemma_quiet_walk(registry, next);
        assert forall|i: int| 0 <= i < first.children.len() implies wanted(
            #[trigger] first.children[i],
        ) == first.children[i].entry.is_dir by {}
        lemma_directories_below_filter(first.children, wanted);
        lemma_directories_below_add(rest, entered(registry, first));
        assert(queue =~= seq![first] + rest);
        lemma_directories_below_add(seq![first], rest);
        assert(seq![first].drop_last() =~= Seq::<Tree>::empty());
        assert(directories_below(Seq::<Tree>::empty()) =~= Seq::<Tree>::empty());
        assert(seq![first].last() == first);
        assert(directories_below(seq![first]) =~= directories(first));
        let below = directories_below(first.children);
        let others = directories_below(rest);
        assert(directories_below(queue) =~= seq![first] + below + others);
        assert(directories_below(next) =~= others + below);
        vstd::seq_lib::lemma_multiset_commutative(seq![first], visited(registry, next));
        vstd::seq_lib::lemma_multiset_commutative(others, below);
        vstd::seq_lib::lemma_multiset_commutative(below, others);
        vstd::seq_lib::lemma_multiset_commutative(seq![first], below + others);
        assert(seq![first] + below + others =~= seq![first] + (below + others));
        assert(visited(registry, queue).to_multiset() =~= directories_below(queue).to_multiset());
        assert(emitted(registry, queue) =~= Seq::<EntryView>::empty());
    }
}

/// In a tree in which no detector nominates anything anywhere, and in which
/// no directory below the root carries a name that a detector claims, the
/// traversal visits every directory exactly once, and emits nothing: the
/// deletion stage receives nothing, and its total stays zero.
pub proof fn lemma_unmatched_tree_is_walked_once(
    registry: Seq<RulesView>,
    root: Tree,
    verbose: bool,
    dry_run: bool,
)
    requires
        root.entry.is_dir,
        unmatched(registry, root),
        unclaimed(registry, root),
    ensures
        visited(registry, seq![root]).to_multiset() == directories(root).to_multiset(),
        emitted(registry, seq![root]) == Seq::<EntryView>::empty(),
        receive_all(DeleterView::fresh(verbose, dry_run), Seq::empty()).total == 0,
{
    lemma_quiet_walk(registry, seq![root]);
    assert(seq![root].drop_last() =~= Seq::<Tree>::empty());
    assert(directories_below(Seq::<Tree>::empty()) =~= Seq::<Tree>::empty());
    assert(seq![root].last() == root);
    assert(directories_below(seq![root]) =~= directories(root));
}

/// The outcome of the removal that was dispatched under a ticket.
pub struct Completion {
    pub ticket: nat,
    pub removed: bool,
}

/// The account after deletables of these sizes were received, one after the
/// other.
pub open spec fn receive_all(view: DeleterView, sizes: Seq<nat>) -> DeleterView
    decreases sizes.len(),
{
    if sizes.len() == 0 {
        view
    } else {
        receive_all(view, sizes.drop_last()).receive(sizes.last())
    }
}

/// The account after these removals completed, one after the other.
pub open spec fn complete_all(view: DeleterView, completions: Seq<Completion>) -> DeleterView
    decreases completions.len(),
{
    if completions.len() == 0 {
        view
    } else {
        complete_all(
            view.complete(completions[0].ticket, completions[0].removed),
            completions.drop_first(),
        )
    }
}

/// The sum of `sizes`.
pub open spec fn sum(sizes: Seq<nat>) -> nat
    decreases sizes.len(),
{
    if sizes.len() == 0 {
        0
    } else {
        sum(sizes.drop_last()) + sizes.last()
    }
}

/// What one completion adds to the account: the size that was received
/// under its ticket, if the removal succeeded.
pub open spec fn gain(sizes: Seq<nat>, completion: Completion) -> nat {
    if completion.removed && completion.ticket < sizes.len() {
        sizes[completion.ticket as int]
    } else {
        0
    }
}

/// The sizes of the deletables whose removal succeeded, summed.
pub open spec fn removed_bytes(sizes: Seq<nat>, completions: Seq<Completion>) -> nat
    decreases completions.len(),
{
    if completions.len() == 0 {
        0
    } else {
        gain(sizes, completions[0]) + removed_bytes(sizes, completions.drop_first())
    }
}

/// Each of the first `count` tickets completes exactly once.
pub open spec fn completes_each_once(count: nat, completions: Seq<Completion>) -> bool {
    &&& completions.len() == count
    &&& forall|i: int| 0 <= i < completions.len() ==> (#[trigger] completions[i]).ticket < count
    &&& forall|i: int, j: int|
        0 <= i < j < completions.len() ==> (#[trigger] completions[i]).ticket != (
        #[trigger] completions[j]).ticket
}

/// The removals that are outstanding after deletables of these sizes were
/// received by a run that is not dry: one for each, under its number.
pub open spec fn all_outstanding(sizes: Seq<nat>) -> Seq<PendingView> {
    Seq::new(sizes.len(), |t: int| PendingView { ticket: t as nat, size: sizes[t] })
}

/// The account after deletables of these sizes were received by a fresh
/// deletion stage, and what is reserved for them in a run that is not dry.
proof fn lemma_received(verbose: bool, dry_run: bool, sizes: Seq<nat>)
    ensures
        receive_all(DeleterView::fresh(verbose, dry_run), sizes) == if dry_run {
            DeleterView { total: sum(sizes), ..DeleterView::fresh(verbose, dry_run) }
        } else {
            DeleterView {
                issued: sizes.len(),
                outstanding: all_outstanding(sizes),
                ..DeleterView::fresh(verbose, dry_run)
            }
        },
        reserved(all_outstanding(sizes)) == sum(sizes),
    decreases sizes.len(),
{
    if sizes.len() == 0 {
        assert(all_outstanding(sizes) =~= Seq::<PendingView>::empty());
    } else {
        let front = sizes.drop_last();
        lemma_received(verbose, dry_run, front);
        let added = PendingView { ticket: front.len(), size: sizes.last() };
        assert(all_outstanding(sizes) =~= all_outstanding(front).push(added));
        assert(all_outstanding(sizes).drop_last() =~= all_outstanding(front));
    }
}

/// The outstanding removals of `view` are those that `completions` complete,
/// each once, and each holds the size that was received under its ticket.
spec fn covers(view: DeleterView, sizes: Seq<nat>, completions: Seq<Completion>) -> bool {
    &&& completions.len() == view.outstanding.len()
    &&& forall|i: int|
        0 <= i < completions.len() ==> view.is_outstanding((#[trigger] completions[i]).ticket)
    &&& forall|i: int, j: int|
        0 <= i < j < completions.len() ==> (#[trigger] completions[i]).ticket != (
        #[trigger] completions[j]).ticket
    &&& forall|k: int|
        0 <= k < view.outstanding.len() ==> (#[trigger] view.outstanding[k]).ticket < sizes.len()
            && view.outstanding[k].size == sizes[view.outstanding[k].ticket as int]
}

/// One completion of an outstanding removal: the rest stays covered, the
/// total gains what the completion brings, and what is reserved loses the
/// size of the removal.
proof fn lemma_complete_one(view: DeleterView, sizes: Seq<nat>, completions: Seq<Completion>)
    requires
        covers(view, sizes, completions),
        completions.len() > 0,
    ensures
        covers(
            view.complete(completions[0].ticket, completions[0].removed),
            sizes,
            completions.drop_first(),
        ),
        view.complete(completions[0].ticket, completions[0].removed).total == view.total + gain(
            sizes,
            completions[0],
        ),
        reserved(view.outstanding) == reserved(
            view.complete(completions[0].ticket, completions[0].removed).outstanding,
        ) + sizes[completions[0].ticket as int],
        completions[0].ticket < sizes.len(),
{
    let first = completions[0];
    let rest = completions.drop_first();
    assert(view.is_outstanding(first.ticket));
    let at = view.position(first.ticket);
    let after = view.complete(first.ticket, first.removed);
    assert(after.outstanding == view.outstanding.remove(at));
    assert(view.outstanding[at].ticket == first.ticket);
    lemma_reserved_remove(view.outstanding, at);
    assert forall|i: int| 0 <= i < rest.len() implies after.is_outstanding(
        (#[trigger] rest[i]).ticket,
    ) by {
        assert(rest[i] == completions[i + 1]);
        assert(view.is_outstanding(completions[i + 1].ticket));
        let k = choose|k: int|
            0 <= k < view.outstanding.len() && (#[trigger] view.outstanding[k]).ticket
                == completions[i + 1].ticket;
        assert(completions[0].ticket != completions[i + 1].ticket);
        if k < at {
            assert(after.outstanding[k] == view.outstanding[k]);
        } else {
            assert(after.outstanding[k - 1] == view.outstanding[k]);
        }
    }
    assert forall|i: int, j: int| 0 <= i < j < rest.len() implies (#[trigger] rest[i]).ticket != (
    #[trigger] rest[j]).ticket by {
        assert(rest[i] == completions[i + 1]);
        assert(rest[j] == completions[j + 1]);
    }
    assert forall|k: int| 0 <= k < after.outstanding.len() implies (
    #[trigger] after.outstanding[k]).ticket < sizes.len() && after.outstanding[k].size
        == sizes[after.outstanding[k].ticket as int] by {
        if k < at {
            assert(after.outstanding[k] == view.outstanding[k]);
        } else {
            assert(after.outstanding[k] == view.outstanding[k + 1]);
        }
    }
}

/// Completing every outstanding removal once leaves none outstanding and
/// adds to the total what the completions bring.
proof fn lemma_complete_covered(view: DeleterView, sizes: Seq<nat>, completions: Seq<Completion>)
    requires
        covers(view, sizes, completions),
    ensures
        complete_all(view, completions).outstanding.len() == 0,
        complete_all(view, completions).total == view.total + removed_bytes(sizes, completions),
        (forall|i: int| 0 <= i < completions.len() ==> (#[trigger] completions[i]).removed)
            ==> complete_all(view, completions).total == view.total + reserved(view.outstanding),
    decreases completions.len(),
{
    if completions.len() > 0 {
        lemma_complete_one(view, sizes, completions);
        let after = view.complete(completions[0].ticket, completions[0].removed);
        let rest = completions.drop_first();
        lemma_complete_covered(after, sizes, rest);
        if forall|i: int| 0 <= i < completions.len() ==> (#[trigger] completions[i]).removed {
            assert(completions[0].removed);
            assert forall|i: int| 0 <= i < rest.len() implies (#[trigger] rest[i]).removed by {
                assert(rest[i] == completions[i + 1]);
            }
        }
    } else {
        assert(view.outstanding =~= Seq::<PendingView>::empty());
    }
}

/// After every removal has completed, whatever the order, none is
/// outstanding and the total is the sum of the sizes of exactly those
/// deletables whose removal succeeded: none counts twice, none is left out,
/// and a failed removal adds nothing.
pub proof fn lemma_total_counts_what_was_removed(
    verbose: bool,
    sizes: Seq<nat>,
    completions: Seq<Completion>,
)
    requires
        completes_each_once(sizes.len(), completions),
    ensures
        complete_all(
            receive_all(DeleterView::fresh(verbose, false), sizes),
            completions,
        ).outstanding.len() == 0,
        complete_all(receive_all(DeleterView::fresh(verbose, false), sizes), completions).total
            == removed_bytes(sizes, completions),
{
    lemma_received(verbose, false, sizes);
    let view = receive_all(DeleterView::fresh(verbose, false), sizes);
    assert forall|i: int| 0 <= i < completions.len() implies view.is_outstanding(
        (#[trigger] completions[i]).ticket,
    ) by {
        let t = completions[i].ticket as int;
        assert(view.outstanding[t].ticket == completions[i].ticket);
    }
    lemma_complete_covered(view, sizes, completions);
}

/// What one completion brings does not depend on where it stands.
proof fn lemma_removed_bytes_remove(sizes: Seq<nat>, completions: Seq<Completion>, at: int)
    requires
        0 <= at < completions.len(),
    ensures
        removed_bytes(sizes, completions) == gain(sizes, completions[at]) + removed_bytes(
            sizes,
            completions.remove(at),
        ),
    decreases completions.len(),
{
    if at == 0 {
        assert(completions.remove(0) =~= completions.drop_first());
    } else {
        lemma_removed_bytes_remove(sizes, completions.drop_first(), at - 1);
        assert(completions.remove(at).drop_first() =~= completions.drop_first().remove(at - 1));
        assert(completions.remove(at)[0] == completions[0]);
    }
}

/// The total does not depend on the order in which the removals complete.
pub proof fn lemma_total_ignores_order(
    sizes: Seq<nat>,
    one: Seq<Completion>,
    other: Seq<Completion>,
)
    requires
        one.to_multiset() == other.to_multiset(),
    ensures
        removed_bytes(sizes, one) == removed_bytes(sizes, other),
    decreases one.len(),
{
    vstd::seq_lib::to_multiset_len(one);
    vstd::seq_lib::to_multiset_len(other);
    assert(one.len() == other.len());
    if one.len() > 0 {
        let first = one[0];
        vstd::seq_lib::to_multiset_contains(one, first);
        vstd::seq_lib::to_multiset_contains(other, first);
        assert(one.contains(first));
        assert(other.contains(first));
        let at = choose|at: int| 0 <= at < other.len() && other[at] == first;
        vstd::seq_lib::to_multiset_remove(one, 0);
        vstd::seq_lib::to_multiset_remove(other, at);
        assert(one.remove(0) =~= one.drop_first());
        lemma_total_ignores_order(sizes, one.drop_first(), other.remove(at));
        lemma_removed_bytes_remove(sizes, other, at);
    }
}

/// A dry run dispatches no removal, and reports the same total as a run in
/// which every deletable is removed with success.
pub proof fn lemma_dry_run_reports_the_same(
    verbose: bool,
    sizes: Seq<nat>,
    completions: Seq<Completion>,
)
    requires
        completes_each_once(sizes.len(), completions),
        forall|i: int| 0 <= i < completions.len() ==> (#[trigger] completions[i]).removed,
    ensures
        receive_all(DeleterView::fresh(verbose, true), sizes).issued == 0,
        receive_all(DeleterView::fresh(verbose, true), sizes).outstanding.len() == 0,
        receive_all(DeleterView::fresh(verbose, true), sizes).total == sum(sizes),
        receive_all(DeleterView::fresh(verbose, true), sizes).total == complete_all(
            receive_all(DeleterView::fresh(verbose, false), sizes),
            completions,
        ).total,
{
    lemma_received(verbose, true, sizes);
    lemma_received(verbose, false, sizes);
    let view = receive_all(DeleterView::fresh(verbose, false), sizes);
    assert forall|i: int| 0 <= i < completions.len() implies view.is_outstanding(
        (#[trigger] completions[i]).ticket,
    ) by {
        let t = completions[i].ticket as int;
        assert(view.outstanding[t].ticket == completions[i].ticket);
    }
    lemma_complete_covered(view, sizes, completions);
}

/// One thing that happens to the deletion stage: a deletable of some size
/// is received, or a removal completes.
pub enum Step {
    Receive(nat),
    Complete(Completion),
}

/// The account after one step.
pub open spec fn step(view: DeleterView, step: Step) -> DeleterView {
    match step {
        Step::Receive(size) => view.receive(size),
        Step::Complete(completion) => view.complete(completion.ticket, completion.removed),
    }
}

/// The account after these steps, one after the other.
pub open spec fn run(view: DeleterView, steps: Seq<Step>) -> DeleterView
    decreases steps.len(),
{
    if steps.len() == 0 {
        view
    } else {
        step(run(view, steps.drop_last()), steps.last())
    }
}

/// The sizes that were received in `steps`, in order.
pub open spec fn receipts(steps: Seq<Step>) -> Seq<nat>
    decreases steps.len(),
{
    if steps.len() == 0 {
        Seq::empty()
    } else {
        match steps.last() {
            Step::Receive(size) => receipts(steps.drop_last()).push(size),
            Step::Complete(_) => receipts(steps.drop_last()),
        }
    }
}

/// The completions in `steps`, in order.
pub open spec fn completions(steps: Seq<Step>) -> Seq<Completion>
    decreases steps.len(),
{
    if steps.len() == 0 {
        Seq::empty()
    } else {
        match steps.last() {
            Step::Receive(_) => completions(steps.drop_last()),
            Step::Complete(completion) => completions(steps.drop_last()).push(completion),
        }
    }
}

/// Every completion in `steps` reports a removal that was dispatched before
/// and has not completed before.
pub open spec fn orderly(view: DeleterView, steps: Seq<Step>) -> bool {
    forall|i: int|
        0 <= i < steps.len() ==> ((#[trigger] steps[i]) matches Step::Complete(completion) ==> run(
            view,
            steps.take(i),
        ).is_outstanding(completion.ticket))
}

/// A completion behind the others adds what it brings.
proof fn lemma_removed_bytes_push(sizes: Seq<nat>, done: Seq<Completion>, last: Completion)
    ensures
        removed_bytes(sizes, done.push(last)) == removed_bytes(sizes, done) + gain(sizes, last),
{
    let all = done.push(last);
    lemma_removed_bytes_remove(sizes, all, all.len() - 1);
    assert(all.remove(all.len() - 1) =~= done);
}

/// A size received later changes nothing of what earlier tickets bring.
proof fn lemma_removed_bytes_more_sizes(sizes: Seq<nat>, size: nat, done: Seq<Completion>)
    requires
        forall|j: int| 0 <= j < done.len() ==> (#[trigger] done[j]).ticket < sizes.len(),
    ensures
        removed_bytes(sizes.push(size), done) == removed_bytes(sizes, done),
    decreases done.len(),
{
    if done.len() > 0 {
        assert(done[0].ticket < sizes.len());
        assert forall|j: int| 0 <= j < done.drop_first().len() implies (
        #[trigger] done.drop_first()[j]).ticket < sizes.len() by {
            assert(done.drop_first()[j] == done[j + 1]);
        }
        lemma_removed_bytes_more_sizes(sizes, size, done.drop_first());
    }
}

/// What holds of the account of a run that is not dry after any orderly
/// steps.
proof fn lemma_run_account(verbose: bool, steps: Seq<Step>)
    requires
        orderly(DeleterView::fresh(verbose, false), steps),
    ensures
        run(DeleterView::fresh(verbose, false), steps).total == removed_bytes(
            receipts(steps),
            completions(steps),
        ),
        run(DeleterView::fresh(verbose, false), steps).issued == receipts(steps).len(),
        !run(DeleterView::fresh(verbose, false), steps).dry_run,
        forall|k: int|
            0 <= k < run(DeleterView::fresh(verbose, false), steps).outstanding.len() ==> (
            #[trigger] run(DeleterView::fresh(verbose, false), steps).outstanding[k]).ticket
                < receipts(steps).len() && run(
                DeleterView::fresh(verbose, false),
                steps,
            ).outstanding[k].size == receipts(steps)[run(
                DeleterView::fresh(verbose, false),
                steps,
            ).outstanding[k].ticket as int],
        forall|j: int|
            0 <= j < completions(steps).len() ==> (#[trigger] completions(steps)[j]).ticket
                < receipts(steps).len(),
    decreases steps.len(),
{
    let fresh = DeleterView::fresh(verbose, false);
    if steps.len() > 0 {
        let front = steps.drop_last();
        assert forall|i: int| 0 <= i < front.len() implies ((#[trigger] front[i]) matches Step::Complete(
            completion,
        ) ==> run(fresh, front.take(i)).is_outstanding(completion.ticket)) by {
            assert(front[i] == steps[i]);
            assert(front.take(i) =~= steps.take(i));
        }
        lemma_run_account(verbose, front);
        let before = run(fresh, front);
        let after = run(fresh, steps);
        let sizes = receipts(front);
        let done = completions(front);
        match steps.last() {
            Step::Receive(size) => {
                lemma_removed_bytes_more_sizes(sizes, size, done);
                assert forall|k: int| 0 <= k < after.outstanding.len() implies (
                #[trigger] after.outstanding[k]).ticket < receipts(steps).len()
                    && after.outstanding[k].size == receipts(
                    steps,
                )[after.outstanding[k].ticket as int] by {
                    if k < before.outstanding.len() {
                        assert(after.outstanding[k] == before.outstanding[k]);
                    }
                }
            },
            Step::Complete(completion) => {
                assert(steps[steps.len() - 1] == steps.last());
                assert(steps.take(steps.len() - 1) =~= front);
                assert(before.is_outstanding(completion.ticket));
                let at = before.position(completion.ticket);
                assert(before.outstanding[at].ticket == completion.ticket);
                lemma_removed_bytes_push(sizes, done, completion);
                assert forall|k: int| 0 <= k < after.outstanding.len() implies (
                #[trigger] after.outstanding[k]).ticket < receipts(steps).len()
                    && after.outstanding[k].size == receipts(
                    steps,
                )[after.outstanding[k].ticket as int] by {
                    if k < at {
                        assert(after.outstanding[k] == before.outstanding[k]);
                    } else {
                        assert(after.outstanding[k] == before.outstanding[k + 1]);
                    }
                }
                assert forall|j: int| 0 <= j < completions(steps).len() implies (
                #[trigger] completions(steps)[j]).ticket < receipts(steps).len() by {
                    if j < done.len() {
                        assert(completions(steps)[j] == done[j]);
                    }
                }
            },
        }
    }
}

/// However receipts and completions interleave, as long as each completion
/// reports a removal that is outstanding, the total is the sum of the sizes
/// of exactly those deletables whose removal succeeded: what a removal adds
/// does not depend on when it completes.
pub proof fn lemma_total_of_any_interleaving(verbose: bool, steps: Seq<Step>)
    requires
        orderly(DeleterView::fresh(verbose, false), steps),
    ensures
        run(DeleterView::fresh(verbose, false), steps).total == removed_bytes(
            receipts(steps),
            completions(steps),
        ),
{
    lemma_run_account(verbose, steps);
}

/// A dry run dispatches no removal whatever happens, and its total is the
/// sum of the sizes it received.
pub proof fn lemma_dry_run_removes_nothing(verbose: bool, steps: Seq<Step>)
    ensures
        run(DeleterView::fresh(verbose, true), steps).outstanding.len() == 0,
        run(DeleterView::fresh(verbose, true), steps).issued == 0,
        run(DeleterView::fresh(verbose, true), steps).dry_run,
        run(DeleterView::fresh(verbose, true), steps).total == sum(receipts(steps)),
    decreases steps.len(),
{
    if steps.len() > 0 {
        lemma_dry_run_removes_nothing(verbose, steps.drop_last());
        let before = run(DeleterView::fresh(verbose, true), steps.drop_last());
        match steps.last() {
            Step::Receive(size) => {
                assert(receipts(steps).drop_last() =~= receipts(steps.drop_last()));
            },
            Step::Complete(completion) => {
                assert(!before.is_outstanding(completion.ticket));
            },
        }
    }
}

/// What stands at a path whose size is measured.
pub enum Content {
    /// A file of this many bytes.
    File(nat),
    /// A directory with these children.
    Directory(Seq<Measured>),
    /// Nothing that can be read.
    Unreadable,
}

/// A path and what stands at it.
pub struct Measured {
    pub path: Seq<char>,
    pub content: Content,
}

/// The paths of `nodes`.
pub open spec fn measured_paths(nodes: Seq<Measured>) -> Seq<Seq<char>> {
    nodes.map_values(|node: Measured| node.path)
}

/// The bytes of the files at and below `node`; what cannot be read counts as
/// nothing.
pub open spec fn bytes_of(node: Measured) -> nat
    decreases node,
{
    match node.content {
        Content::File(bytes) => bytes,
        Content::Directory(children) => bytes_below(children),
        Content::Unreadable => 0,
    }
}

/// The bytes of the files at and below `nodes`.
pub open spec fn bytes_below(nodes: Seq<Measured>) -> nat
    decreases nodes,
{
    if nodes.len() == 0 {
        0
    } else {
        bytes_below(nodes.drop_last()) + bytes_of(nodes.last())
    }
}

/// How many paths stand at and below `node`.
pub open spec fn weight_of(node: Measured) -> nat
    decreases node,
{
    match node.content {
        Content::Directory(children) => 1 + weight_below(children),
        _ => 1,
    }
}

/// How many paths stand at and below `nodes`.
pub open spec fn weight_below(nodes: Seq<Measured>) -> nat
    decreases nodes,
{
    if nodes.len() == 0 {
        0
    } else {
        weight_below(nodes.drop_last()) + weight_of(nodes.last())
    }
}

/// The paths that wait after the last of `waiting` was probed: the others,
/// and behind them the children of a directory.
pub open spec fn after_probe(waiting: Seq<Measured>) -> Seq<Measured> {
    match waiting.last().content {
        Content::Directory(children) => waiting.drop_last() + children,
        _ => waiting.drop_last(),
    }
}

/// The measurement after the last of `waiting` was handed out and probed.
pub open spec fn probed(view: MeasurerView, node: Measured) -> MeasurerView {
    match node.content {
        Content::File(bytes) => view.next().add_file(bytes),
        Content::Directory(children) => view.next().add_directory(measured_paths(children)),
        Content::Unreadable => view.next(),
    }
}

/// The sum that a measurement ends with when it starts with `total` and
/// `waiting` waits to be probed.
pub open spec fn measured(total: nat, waiting: Seq<Measured>) -> nat
    decreases weight_below(waiting),
    via measured_terminates
{
    if waiting.len() == 0 {
        total
    } else {
        measured(
            total + match waiting.last().content {
                Content::File(bytes) => bytes,
                _ => 0,
            },
            after_probe(waiting),
        )
    }
}

#[via_fn]
proof fn measured_terminates(total: nat, waiting: Seq<Measured>) {
    if waiting.len() > 0 {
        lemma_probe_shrinks(waiting);
    }
}

/// The weight and the bytes of two runs of paths are the sums of theirs.
proof fn lemma_below_add(front: Seq<Measured>, back: Seq<Measured>)
    ensures
        weight_below(front + back) == weight_below(front) + weight_below(back),
        bytes_below(front + back) == bytes_below(front) + bytes_below(back),
    decreases back.len(),
{
    if back.len() == 0 {
        assert(front + back =~= front);
    } else {
        lemma_below_add(front, back.drop_last());
        assert((front + back).drop_last() =~= front + back.drop_last());
        assert((front + back).last() == back.last());
    }
}

/// Probing a path leaves less to probe.
proof fn lemma_probe_shrinks(waiting: Seq<Measured>)
    requires
        waiting.len() > 0,
    ensures
        weight_below(after_probe(waiting)) < weight_below(waiting),
{
    let last = waiting.last();
    assert(weight_below(waiting) == weight_below(waiting.drop_last()) + weight_of(last));
    match last.content {
        Content::Directory(children) => {
            assert(weight_of(last) == 1 + weight_below(children));
            lemma_below_add(waiting.drop_last(), children);
        },
        _ => {
            assert(weight_of(last) == 1);
        },
    }
}

/// The measurer does over paths what the measurement does over what stands
/// at them: where its pending paths are those of `waiting` and the last is
/// probed as it stands, its pending paths are then those that wait next.
pub proof fn lemma_measurer_follows(total: nat, waiting: Seq<Measured>)
    requires
        waiting.len() > 0,
    ensures
        probed(
            MeasurerView { pending: measured_paths(waiting), total },
            waiting.last(),
        ) == (MeasurerView {
            pending: measured_paths(after_probe(waiting)),
            total: total + match waiting.last().content {
                Content::File(bytes) => bytes,
                _ => 0,
            },
        }),
{
    let view = MeasurerView { pending: measured_paths(waiting), total };
    assert(view.next().pending =~= measured_paths(waiting.drop_last()));
    match waiting.last().content {
        Content::Directory(children) => {
            assert(measured_paths(waiting.drop_last()) + measured_paths(children)
                =~= measured_paths(waiting.drop_last() + children));
        },
        _ => {},
    }
}

/// A measurement ends with the bytes of every file at and below the paths
/// it started with, added to what it started with: a directory counts for
/// the sum of what is in it, and what cannot be read counts as nothing.
pub proof fn lemma_measured_is_the_recursive_sum(total: nat, waiting: Seq<Measured>)
    ensures
        measured(total, waiting) == total + bytes_below(waiting),
    decreases weight_below(waiting),
{
    if waiting.len() > 0 {
        lemma_probe_shrinks(waiting);
        let gained: nat = match waiting.last().content {
            Content::File(bytes) => bytes,
            _ => 0,
        };
        lemma_measured_is_the_recursive_sum(total + gained, after_probe(waiting));
        let last = waiting.last();
        assert(bytes_below(waiting) == bytes_below(waiting.drop_last()) + bytes_of(last));
        match last.content {
            Content::Directory(children) => {
                assert(bytes_of(last) == bytes_below(children));
                lemma_below_add(waiting.drop_last(), children);
            },
            Content::File(bytes) => {
                assert(bytes_of(last) == bytes);
            },
            Content::Unreadable => {
                assert(bytes_of(last) == 0);
            },
        }
    } else {
        assert(bytes_below(waiting) == 0);
    }
}

} // verus!
