//! The two stages of a run and how a run is set up: the traversal that finds
//! what may be deleted, and the stage that deletes and keeps the account.

use std::collections::VecDeque;
use vstd::prelude::*;
use vstd::string::StringExecFns;

use crate::config::Config;
use crate::detectors::claimed;
use crate::detectors::javascript::Javascript;
use crate::detectors::merged;
use crate::detectors::Deletable;
use crate::detectors::Detector;
use crate::detectors::Entry;
use crate::detectors::EntryView;
use crate::detectors::Registry;
use crate::detectors::RulesView;
use crate::error::RmStuffError;
use crate::pipeline::BoundedPipeline;
use crate::pipeline::PipelineView;
use crate::size::rendering;
use crate::size::FileSize;
use crate::text::decimal;
use crate::text::decimal_text;

verus! {

/// The texts of `paths`.
pub open spec fn texts(paths: Seq<String>) -> Seq<Seq<char>> {
    paths.map_values(|p: String| p@)
}

/// The paths that a listing in which no detector nominated anything adds to
/// the work queue: those of its directories whose name is not a candidate of
/// any registered detector, in listing order.
pub open spec fn descent(registry: Seq<RulesView>, entries: Seq<EntryView>) -> Seq<Seq<char>> {
    entries.filter(|e: EntryView| e.is_dir && !claimed(registry, e.name)).map_values(
        |e: EntryView| e.path,
    )
}

/// What a `Finder` stands for: its detectors, the directories that wait to
/// be listed, the next one first, and whether the next listing is that of
/// the root.
pub struct FinderView {
    pub registry: Seq<RulesView>,
    pub queue: Seq<Seq<char>>,
    pub at_root: bool,
}

/// The traversal engine: a first-in, first-out queue of directories to list,
/// and the detectors that judge each listing.
pub struct Finder {
    registry: Registry,
    queue: VecDeque<String>,
    at_root: bool,
}

impl View for Finder {
    type V = FinderView;

    closed spec fn view(&self) -> FinderView {
        FinderView { registry: self.registry@, queue: texts(self.queue@), at_root: self.at_root }
    }
}

/// What the traversal made of one listing.
pub enum Visit {
    /// Detectors nominated these entries: they are to be measured and sent
    /// down the pipeline, and nothing below this directory is entered.
    Matched(Vec<Entry>),
    /// No detector nominated anything: the subdirectories were queued.
    Descended,
    /// The directory could not be listed: it is skipped, the error is to be
    /// reported, and the scan goes on.
    Unreadable(RmStuffError),
    /// The root itself could not be listed: the run fails with this error.
    Inaccessible(RmStuffError),
}

impl Finder {
    /// A traversal that starts at `root`.
    pub fn new(registry: Registry, root: String) -> (finder: Finder)
        ensures
            finder@ == (FinderView { registry: registry@, queue: seq![root@], at_root: true }),
    {
        let mut queue: VecDeque<String> = VecDeque::new();
        queue.push_back(root);
        let finder = Finder { registry, queue, at_root: true };
        assert(finder@.queue =~= seq![root@]);
        finder
    }

    /// Takes the next directory to list off the queue; `None` when the
    /// traversal is exhausted.
    pub fn next(&mut self) -> (dir: Option<String>)
        ensures
            final(self)@.registry == old(self)@.registry,
            final(self)@.at_root == old(self)@.at_root,
            match dir {
                Some(dir) => old(self)@.queue.len() > 0 && dir@ == old(self)@.queue[0]
                    && final(self)@.queue == old(self)@.queue.drop_first(),
                None => old(self)@.queue.len() == 0 && final(self)@.queue == old(self)@.queue,
            },
    {
        let dir = self.queue.pop_front();
        assert(dir is Some ==> self@.queue =~= old(self)@.queue.drop_first());
        dir
    }

    /// Judges the listing of the directory that `next` handed out last.
    ///
    /// A failed listing leaves the queue as it is and hands the error back:
    /// as fatal where it is the listing of the root, else to be reported.
    /// Where the detectors nominate entries, these are handed out and the
    /// queue stays as it is. Otherwise every directory of the listing whose
    /// name no detector claims joins the back of the queue.
    pub fn visit(&mut self, listing: Result<Vec<Entry>, RmStuffError>) -> (visit: Visit)
        ensures
            final(self)@.registry == old(self)@.registry,
            !final(self)@.at_root,
            match listing {
                Err(error) => {
                    &&& final(self)@.queue == old(self)@.queue
                    &&& if old(self)@.at_root {
                        visit == Visit::Inaccessible(error)
                    } else {
                        visit == Visit::Unreadable(error)
                    }
                },
                Ok(entries) => {
                    let found = merged(old(self)@.registry, entries.deep_view());
                    if found.len() > 0 {
                        &&& visit matches Visit::Matched(emitted)
                        &&& emitted.deep_view() == found
                        &&& final(self)@.queue == old(self)@.queue
                    } else {
                        &&& visit is Descended
                        &&& final(self)@.queue == old(self)@.queue + descent(
                            old(self)@.registry,
                            entries.deep_view(),
                        )
                    }
                },
            },
    {
        let at_root = self.at_root;
        self.at_root = false;
        match listing {
            Err(error) => {
                if at_root {
                    Visit::Inaccessible(error)
                } else {
                    Visit::Unreadable(error)
                }
            },
            Ok(entries) => {
                let found = self.registry.evaluate(&entries);
                if found.len() > 0 {
                    Visit::Matched(found)
                } else {
                    self.descend(&entries);
                    Visit::Descended
                }
            },
        }
    }

    /// Queues the directories of `entries` whose name no detector claims.
    fn descend(&mut self, entries: &Vec<Entry>)
        ensures
            final(self)@.registry == old(self)@.registry,
            final(self)@.at_root == old(self)@.at_root,
            final(self)@.queue == old(self)@.queue + descent(
                old(self)@.registry,
                entries.deep_view(),
            ),
    {
        let ghost views = entries.deep_view();
        let ghost registry = self@.registry;
        let mut i: usize = 0;
        proof {
            reveal(Seq::filter);
            assert(views.take(0) =~= Seq::<EntryView>::empty());
            assert(self@.queue =~= old(self)@.queue + descent(registry, views.take(0)));
        }
        while i < entries.len()
            invariant
                i <= entries.len(),
                views == entries.deep_view(),
                registry == old(self)@.registry,
                self@.registry == registry,
                self@.at_root == old(self)@.at_root,
                self@.queue == old(self)@.queue + descent(registry, views.take(i as int)),
            decreases entries.len() - i,
        {
            let ghost before = self@.queue;
            proof {
                assert(views.take(i + 1) =~= views.take(i as int).push(views[i as int]));
                views.take(i as int).lemma_filter_push(
                    views[i as int],
                    |e: EntryView| e.is_dir && !claimed(registry, e.name),
                );
            }
            if entries[i].is_dir && !self.registry.claims(&entries[i].name) {
                self.queue.push_back(entries[i].path.clone());
                assert(self@.queue =~= before.push(views[i as int].path));
                assert(descent(registry, views.take(i + 1)) =~= descent(
                    registry,
                    views.take(i as int),
                ).push(views[i as int].path));
            }
            i += 1;
        }
        assert(views.take(entries.len() as int) =~= views);
    }
}

/// A removal that was dispatched and has not completed yet: the ticket it
/// was dispatched under and the size measured for what it removes.
pub struct PendingView {
    pub ticket: nat,
    pub size: nat,
}

/// The bytes that the outstanding removals would add to the account if all
/// of them succeeded.
pub open spec fn reserved(outstanding: Seq<PendingView>) -> nat
    decreases outstanding.len(),
{
    if outstanding.len() == 0 {
        0
    } else {
        reserved(outstanding.drop_last()) + outstanding.last().size
    }
}

/// What a `Deleter` stands for: its two flags, how many tickets it has
/// issued, the removals that are outstanding in the order of dispatch, and
/// the bytes accounted as reclaimed so far.
pub struct DeleterView {
    pub verbose: bool,
    pub dry_run: bool,
    pub issued: nat,
    pub outstanding: Seq<PendingView>,
    pub total: nat,
}

impl DeleterView {
    /// The account of a deleter that has received nothing yet.
    pub open spec fn fresh(verbose: bool, dry_run: bool) -> DeleterView {
        DeleterView { verbose, dry_run, issued: 0, outstanding: Seq::empty(), total: 0 }
    }

    /// Every outstanding ticket was issued, none stands twice, and the
    /// account fits in 64 bits even if every outstanding removal succeeds.
    pub open spec fn wf(self) -> bool {
        &&& self.issued <= u64::MAX
        &&& self.total + reserved(self.outstanding) <= u64::MAX
        &&& forall|i: int|
            0 <= i < self.outstanding.len() ==> (#[trigger] self.outstanding[i]).ticket
                < self.issued
        &&& forall|i: int, j: int|
            0 <= i < j < self.outstanding.len() ==> (#[trigger] self.outstanding[i]).ticket != (
            #[trigger] self.outstanding[j]).ticket
    }

    /// There is room in the account for `size` more bytes, and a ticket left
    /// to dispatch a removal under.
    pub open spec fn accepts(self, size: nat) -> bool {
        &&& self.total + reserved(self.outstanding) + size <= u64::MAX
        &&& self.dry_run || self.issued < u64::MAX
    }

    /// A removal is outstanding under `ticket`.
    pub open spec fn is_outstanding(self, ticket: nat) -> bool {
        exists|i: int|
            0 <= i < self.outstanding.len() && (#[trigger] self.outstanding[i]).ticket == ticket
    }

    /// Where the removal under `ticket` stands among the outstanding ones.
    pub open spec fn position(self, ticket: nat) -> int {
        choose|i: int|
            0 <= i < self.outstanding.len() && (#[trigger] self.outstanding[i]).ticket == ticket
    }

    /// The account after a deletable of `size` bytes was received: a dry run
    /// counts it at once; otherwise its removal is outstanding under the next
    /// ticket.
    pub open spec fn receive(self, size: nat) -> DeleterView {
        if self.dry_run {
            DeleterView { total: self.total + size, ..self }
        } else {
            DeleterView {
                issued: self.issued + 1,
                outstanding: self.outstanding.push(PendingView { ticket: self.issued, size }),
                ..self
            }
        }
    }

    /// The account after the removal under `ticket` completed: it is no
    /// longer outstanding, and its size is counted if it succeeded. A ticket
    /// under which nothing is outstanding changes nothing.
    pub open spec fn complete(self, ticket: nat, removed: bool) -> DeleterView {
        if self.is_outstanding(ticket) {
            let at = self.position(ticket);
            DeleterView {
                outstanding: self.outstanding.remove(at),
                total: self.total + if removed {
                    self.outstanding[at].size
                } else {
                    0
                },
                ..self
            }
        } else {
            self
        }
    }

    /// The line that reports the end of the run.
    pub open spec fn summary(self) -> Seq<char> {
        if self.dry_run {
            "would delete "@ + rendering(self.total)
        } else {
            "deleted "@ + rendering(self.total)
        }
    }
}

/// The line that reports one deletable when the run is verbose: its path, a
/// tab, and its size in bytes.
pub open spec fn report_line(path: Seq<char>, size: nat) -> Seq<char> {
    path + seq!['\t'] + decimal(size)
}

/// Removing one outstanding removal lowers what is reserved by its size.
pub proof fn lemma_reserved_remove(outstanding: Seq<PendingView>, at: int)
    requires
        0 <= at < outstanding.len(),
    ensures
        reserved(outstanding) == reserved(outstanding.remove(at)) + outstanding[at].size,
    decreases outstanding.len(),
{
    if at == outstanding.len() - 1 {
        assert(outstanding.remove(at) =~= outstanding.drop_last());
    } else {
        lemma_reserved_remove(outstanding.drop_last(), at);
        assert(outstanding.remove(at).drop_last() =~= outstanding.drop_last().remove(at));
        assert(outstanding.remove(at).last() == outstanding.last());
    }
}

/// A removal that was dispatched and has not completed yet.
struct Pending {
    ticket: u64,
    size: u64,
}

/// The views of `pending`.
spec fn pending_views(pending: Seq<Pending>) -> Seq<PendingView> {
    pending.map_values(|p: Pending| PendingView { ticket: p.ticket as nat, size: p.size as nat })
}

/// The deletion stage: it takes what comes out of the pipeline, decides what
/// is removed, and keeps the account of the bytes reclaimed.
pub struct Deleter {
    verbose: bool,
    dry_run: bool,
    issued: u64,
    pending: Vec<Pending>,
    total: u64,
}

impl View for Deleter {
    type V = DeleterView;

    closed spec fn view(&self) -> DeleterView {
        DeleterView {
            verbose: self.verbose,
            dry_run: self.dry_run,
            issued: self.issued as nat,
            outstanding: pending_views(self.pending@),
            total: self.total as nat,
        }
    }
}

/// What is to be done with a deletable that was received.
pub struct Receipt {
    /// The line to print, when the run is verbose.
    pub line: Option<String>,
    /// The ticket under which the deletable is to be removed; `None` in a dry
    /// run, in which nothing is removed.
    pub ticket: Option<u64>,
}

impl Deleter {
    /// A deletion stage with the given flags that has received nothing yet.
    pub fn new(verbose: bool, dry_run: bool) -> (deleter: Deleter)
        ensures
            deleter@ == DeleterView::fresh(verbose, dry_run),
            deleter@.wf(),
    {
        let deleter = Deleter { verbose, dry_run, issued: 0, pending: Vec::new(), total: 0 };
        assert(deleter@.outstanding =~= Seq::empty());
        deleter
    }

    /// The bytes accounted as reclaimed so far.
    pub fn total(&self) -> (total: FileSize)
        ensures
            total@ == self@.total,
    {
        FileSize::new(self.total)
    }

    /// How many removals are outstanding.
    pub fn outstanding(&self) -> (count: usize)
        ensures
            count == self@.outstanding.len(),
    {
        self.pending.len()
    }

    /// The bytes that the outstanding removals would add to the account.
    fn reserved(&self) -> (bytes: u64)
        requires
            self@.wf(),
        ensures
            bytes == reserved(self@.outstanding),
    {
        let ghost views = self@.outstanding;
        let mut bytes: u64 = 0;
        let mut i: usize = 0;
        assert(views.take(0) =~= Seq::<PendingView>::empty());
        while i < self.pending.len()
            invariant
                i <= self.pending.len(),
                views == self@.outstanding,
                views.len() == self.pending.len(),
                bytes == reserved(views.take(i as int)),
                reserved(views) <= u64::MAX,
            decreases self.pending.len() - i,
        {
            proof {
                assert(views.take(i + 1).drop_last() =~= views.take(i as int));
                assert(views.take(i + 1).last() == views[i as int]);
                lemma_reserved_prefix(views, i + 1);
            }
            bytes = bytes + self.pending[i].size;
            i += 1;
        }
        assert(views.take(self.pending.len() as int) =~= views);
        bytes
    }

    /// Whether the account has room for a deletable of `size`, and a ticket
    /// left to remove it under.
    pub fn accepts(&self, size: &FileSize) -> (accepts: bool)
        requires
            self@.wf(),
        ensures
            accepts == self@.accepts(size@),
    {
        let committed = self.total + self.reserved();
        size.bytes() <= u64::MAX - committed && (self.dry_run || self.issued < u64::MAX)
    }

    /// Takes a deletable that came out of the pipeline, with the size that
    /// was measured for it. A verbose run gets the line to print. A dry run
    /// counts the size at once and removes nothing; any other run gets the
    /// ticket under which the removal is to be reported back.
    pub fn receive(&mut self, deletable: &Deletable, size: &FileSize) -> (receipt: Receipt)
        requires
            old(self)@.wf(),
            old(self)@.accepts(size@),
        ensures
            final(self)@ == old(self)@.receive(size@),
            final(self)@.wf(),
            match receipt.line {
                Some(line) => old(self)@.verbose && line@ == report_line(
                    deletable@.path,
                    size@,
                ),
                None => !old(self)@.verbose,
            },
            match receipt.ticket {
                Some(ticket) => !old(self)@.dry_run && ticket == old(self)@.issued,
                None => old(self)@.dry_run,
            },
    {
        let line = if self.verbose {
            let mut line = deletable.path.clone();
            proof {
                reveal_strlit("\t");
            }
            line.append("\t");
            let digits = decimal_text(size.bytes() as u128);
            line.append(digits.as_str());
            assert(line@ =~= report_line(deletable@.path, size@));
            Some(line)
        } else {
            None
        };
        if self.dry_run {
            self.total = self.total + size.bytes();
            Receipt { line, ticket: None }
        } else {
            let ticket = self.issued;
            let ghost before = self@.outstanding;
            self.pending.push(Pending { ticket, size: size.bytes() });
            self.issued = self.issued + 1;
            proof {
                let added = PendingView { ticket: ticket as nat, size: size@ };
                assert(self@.outstanding =~= before.push(added));
                assert(before.push(added).drop_last() =~= before);
            }
            Receipt { line, ticket: Some(ticket) }
        }
    }

    /// Takes the outcome of the removal that was dispatched under `ticket`:
    /// the removal is no longer outstanding, and its size joins the account
    /// if it succeeded. A failure is handed back to be reported. A ticket
    /// under which nothing is outstanding changes nothing.
    pub fn complete(&mut self, ticket: u64, outcome: Result<(), RmStuffError>) -> (failure: Option<
        RmStuffError,
    >)
        requires
            old(self)@.wf(),
        ensures
            final(self)@ == old(self)@.complete(ticket as nat, outcome is Ok),
            final(self)@.wf(),
            match outcome {
                Ok(_) => failure is None,
                Err(error) => failure == Some(error),
            },
    {
        let ghost views = self@.outstanding;
        let mut at: usize = 0;
        while at < self.pending.len() && self.pending[at].ticket != ticket
            invariant
                at <= self.pending.len(),
                views == self@.outstanding,
                *self == *old(self),
                forall|j: int| 0 <= j < at ==> (#[trigger] views[j]).ticket != ticket,
            decreases self.pending.len() - at,
        {
            at += 1;
        }
        if at < self.pending.len() {
            proof {
                assert(views[at as int].ticket == ticket);
                assert(old(self)@.is_outstanding(ticket as nat));
                let chosen = old(self)@.position(ticket as nat);
                assert(chosen == at) by {
                    if chosen < at {
                        assert(views[chosen].ticket != views[at as int].ticket);
                    } else if chosen > at {
                        assert(views[at as int].ticket != views[chosen].ticket);
                    }
                }
                lemma_reserved_remove(views, at as int);
            }
            let removal = self.pending.remove(at);
            assert(self@.outstanding =~= views.remove(at as int));
            if outcome.is_ok() {
                self.total = self.total + removal.size;
            }
        } else {
            assert(!old(self)@.is_outstanding(ticket as nat));
        }
        match outcome {
            Ok(_) => None,
            Err(error) => Some(error),
        }
    }

    /// The line that ends the run, once no removal is outstanding: the total
    /// behind `would delete ` in a dry run, behind `deleted ` otherwise.
    /// `None` while removals are outstanding.
    pub fn finish(&self) -> (summary: Option<String>)
        ensures
            match summary {
                Some(text) => self@.outstanding.len() == 0 && text@ == self@.summary(),
                None => self@.outstanding.len() > 0,
            },
    {
        if self.pending.len() > 0 {
            return None;
        }
        let mut text = if self.dry_run {
            String::from_str("would delete ")
        } else {
            String::from_str("deleted ")
        };
        let figure = FileSize::new(self.total).human_readable_output();
        text.append(figure.as_str());
        Some(text)
    }
}

/// What is reserved for the first `n` outstanding removals is no more than
/// what is reserved for all of them.
proof fn lemma_reserved_prefix(outstanding: Seq<PendingView>, n: int)
    requires
        0 <= n <= outstanding.len(),
    ensures
        reserved(outstanding.take(n)) <= reserved(outstanding),
    decreases outstanding.len() - n,
{
    if n == outstanding.len() {
        assert(outstanding.take(n) =~= outstanding);
    } else {
        lemma_reserved_prefix(outstanding, n + 1);
        assert(outstanding.take(n + 1).drop_last() =~= outstanding.take(n));
    }
}

/// How many deletables the pipeline between the two stages holds at most.
pub const PIPELINE_CAPACITY: usize = 128;

/// The stages of one run and the pipeline between them.
pub struct Stages {
    pub finder: Finder,
    pub pipeline: BoundedPipeline,
    pub deleter: Deleter,
}

/// Sets up a run over `conf`: a traversal that starts at the root directory
/// with the JavaScript detector registered, an open and empty pipeline of
/// `PIPELINE_CAPACITY`, and a deletion stage with the flags of `conf` that
/// has accounted for nothing yet.
pub fn scheduler(conf: Config) -> (stages: Stages)
    ensures
        stages.finder@ == (FinderView {
            registry: seq![
                RulesView {
                    markers: Javascript {  }.marker_set(),
                    candidates: Javascript {  }.candidate_set(),
                },
            ],
            queue: seq![conf@.dir],
            at_root: true,
        }),
        stages.pipeline@ == (PipelineView {
            items: Seq::empty(),
            capacity: PIPELINE_CAPACITY as nat,
            closed: false,
        }),
        stages.deleter@ == DeleterView::fresh(conf@.verbose, conf@.dry_run),
        stages.deleter@.wf(),
{
    let mut registry = Registry::new();
    let javascript = Javascript::new();
    registry.register(&javascript);
    assert(registry@ =~= seq![
        RulesView {
            markers: Javascript {  }.marker_set(),
            candidates: Javascript {  }.candidate_set(),
        },
    ]);
    let deleter = Deleter::new(conf.verbose, conf.dry_run);
    Stages {
        finder: Finder::new(registry, conf.dir),
        pipeline: BoundedPipeline::new(PIPELINE_CAPACITY),
        deleter,
    }
}

} // verus!
