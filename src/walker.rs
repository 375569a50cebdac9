//! The content walker: expands a directory of the remote into download tasks,
//! breadth first, with an explicit FIFO queue of entries.

use vstd::prelude::*;
use std::collections::VecDeque;
use crate::error::ErrorKind;
use crate::text::str_equal;

verus! {

/// What a content listing says an entry is.
#[derive(Clone, Copy, Debug, PartialEq, Eq, Structural)]
pub enum ContentKind {
    File,
    Directory,
}

/// One entry of a content listing, as the remote reported it.
pub struct ContentItem {
    /// Slash-separated path from the repository root.
    pub path: String,
    /// The kind as the remote spells it (`file`, `dir`, ...).
    pub item_type: String,
    pub download_url: Option<String>,
    pub size: Option<u64>,
}

/// A content listing response: one object for a file, an array for a directory.
pub enum ContentListing {
    SingleFile(ContentItem),
    Listing(Vec<ContentItem>),
}

impl ContentListing {
    /// The entries that the listing contributes to a walk.
    pub open spec fn entries(&self) -> Seq<ContentItem> {
        match self {
            ContentListing::SingleFile(item) => seq![*item],
            ContentListing::Listing(items) => items@,
        }
    }
}

/// One file to fetch: from `source_url` to `destination_path`, relative to
/// the output directory.
pub struct DownloadTask {
    pub source_url: String,
    pub destination_path: String,
    pub expected_size: Option<u64>,
}

pub struct DownloadTaskView {
    pub source_url: Seq<char>,
    pub destination_path: Seq<char>,
    pub expected_size: Option<u64>,
}

impl View for DownloadTask {
    type V = DownloadTaskView;

    open spec fn view(&self) -> DownloadTaskView {
        DownloadTaskView {
            source_url: self.source_url@,
            destination_path: self.destination_path@,
            expected_size: self.expected_size,
        }
    }
}

/// What the walker asks for next.
pub enum WalkStep {
    /// Fetch the listing of this directory and hand it to `add_listing`.
    List(String),
    /// Every entry has been expanded.
    Done,
    Failed(ErrorKind),
}

pub enum WalkStepView {
    List(Seq<char>),
    Done,
    Failed(ErrorKind),
}

impl View for WalkStep {
    type V = WalkStepView;

    open spec fn view(&self) -> WalkStepView {
        match self {
            WalkStep::List(p) => WalkStepView::List(p@),
            WalkStep::Done => WalkStepView::Done,
            WalkStep::Failed(e) => WalkStepView::Failed(*e),
        }
    }
}

pub open spec fn kind_spec(item_type: Seq<char>) -> Option<ContentKind> {
    if item_type == "file"@ {
        Some(ContentKind::File)
    } else if item_type == "dir"@ {
        Some(ContentKind::Directory)
    } else {
        None
    }
}

/// Reads the kind of a content entry: `file` or `dir`; any other is unknown.
pub fn content_kind(item_type: &str) -> (r: Option<ContentKind>)
    ensures
        r == kind_spec(item_type@),
{
    if str_equal(item_type, "file") {
        Some(ContentKind::File)
    } else if str_equal(item_type, "dir") {
        Some(ContentKind::Directory)
    } else {
        None
    }
}

pub open spec fn task_of(item: ContentItem, url: Seq<char>) -> DownloadTaskView {
    DownloadTaskView { source_url: url, destination_path: item.path@, expected_size: item.size }
}

/// Expansion of the queue `pending` with the tasks found so far `tasks`: files
/// become tasks in queue order until a directory is met (its listing is
/// needed), the queue runs out, or an entry is invalid. Returns how many
/// entries were taken from the queue, the tasks, and the step.
pub open spec fn advance(pending: Seq<ContentItem>, tasks: Seq<DownloadTaskView>) -> (
    nat,
    Seq<DownloadTaskView>,
    WalkStepView,
)
    decreases pending.len(),
{
    if pending.len() == 0 {
        (0, tasks, WalkStepView::Done)
    } else {
        let item = pending[0];
        match kind_spec(item.item_type@) {
            None => (1, tasks, WalkStepView::Failed(ErrorKind::UnknownKind)),
            Some(ContentKind::Directory) => (1, tasks, WalkStepView::List(item.path@)),
            Some(ContentKind::File) => match item.download_url {
                None => (1, tasks, WalkStepView::Failed(ErrorKind::InvalidEntry)),
                Some(u) => {
                    let (n, ts, step) = advance(pending.drop_first(), tasks.push(task_of(item, u@)));
                    (n + 1, ts, step)
                },
            },
        }
    }
}

/// A walk in progress: the queue of entries not yet expanded and the tasks found.
pub struct ContentWalker {
    queue: VecDeque<ContentItem>,
    tasks: Vec<DownloadTask>,
}

impl ContentWalker {
    pub closed spec fn pending(&self) -> Seq<ContentItem> {
        self.queue@
    }

    pub closed spec fn found(&self) -> Seq<DownloadTaskView> {
        self.tasks@.map_values(|t: DownloadTask| t@)
    }

    /// A walk seeded with the root listing: its one file, or its entries in order.
    pub fn start(root: ContentListing) -> (r: ContentWalker)
        ensures
            r.pending() == root.entries(),
            r.found() == Seq::<DownloadTaskView>::empty(),
    {
        let mut queue: VecDeque<ContentItem> = VecDeque::new();
        let ghost expected = root.entries();
        match root {
            ContentListing::SingleFile(item) => {
                queue.push_back(item);
            },
            ContentListing::Listing(items) => {
                queue = Self::queue_of(items);
            },
        }
        let tasks: Vec<DownloadTask> = Vec::new();
        assert(tasks@.map_values(|t: DownloadTask| t@) =~= Seq::<DownloadTaskView>::empty());
        assert(queue@ =~= expected);
        ContentWalker { queue, tasks }
    }

    fn queue_of(items: Vec<ContentItem>) -> (q: VecDeque<ContentItem>)
        ensures
            q@ == items@,
    {
        let mut q: VecDeque<ContentItem> = VecDeque::new();
        let mut items = items;
        let ghost all = items@;
        let mut rev: Vec<ContentItem> = Vec::new();
        while items.len() > 0
            invariant
                items@ + rev@.reverse() == all,
            decreases items.len(),
        {
            let ghost before = items@;
            let item = items.pop().unwrap();
            assert(before =~= items@.push(item));
            let ghost rb = rev@;
            rev.push(item);
            assert(rev@.reverse() =~= seq![item] + rb.reverse());
            assert(items@ + rev@.reverse() =~= all);
        }
        assert(items@ =~= Seq::<ContentItem>::empty());
        assert(rev@.reverse() =~= all);
        let mut items = rev;
        while items.len() > 0
            invariant
                q@ + items@.reverse() == all,
            decreases items.len(),
        {
            let ghost before = items@;
            let item = items.pop().unwrap();
            assert(before =~= items@.push(item));
            assert(before.reverse() =~= seq![item] + items@.reverse());
            let ghost qb = q@;
            q.push_back(item);
            assert(q@ =~= qb.push(item));
            assert(q@ + items@.reverse() =~= all);
        }
        assert(items@ =~= Seq::<ContentItem>::empty());
        assert(items@.reverse() =~= Seq::<ContentItem>::empty());
        assert(q@ =~= all);
        q
    }

    /// Expands queued entries in FIFO order: each file becomes a task, until a
    /// directory needs its listing, the queue is empty, or an entry is invalid
    /// (a file without download URL, or a kind other than file or directory).
    pub fn next_step(&mut self) -> (r: WalkStep)
        ensures
            ({
                let (n, ts, step) = advance(old(self).pending(), old(self).found());
                &&& final(self).pending() == old(self).pending().subrange(
                    n as int,
                    old(self).pending().len() as int,
                )
                &&& final(self).found() == ts
                &&& r@ == step
            }),
    {
        loop
            invariant
                advance(self.pending(), self.found()) == ({
                    let (n, ts, step) = advance(old(self).pending(), old(self).found());
                    (
                        (n - (old(self).pending().len() - self.pending().len())) as nat,
                        ts,
                        step,
                    )
                }),
                self.pending() == old(self).pending().subrange(
                    old(self).pending().len() - self.pending().len(),
                    old(self).pending().len() as int,
                ),
                self.pending().len() <= old(self).pending().len(),
                advance(old(self).pending(), old(self).found()).0 >= old(self).pending().len()
                    - self.pending().len(),
            decreases self.queue@.len(),
        {
            let ghost before = self.queue@;
            let ghost found_before = self.found();
            match self.queue.pop_front() {
                None => {
                    return WalkStep::Done;
                },
                Some(item) => {
                    assert(self.queue@ =~= before.drop_first());
                    match content_kind(item.item_type.as_str()) {
                        None => {
                            return WalkStep::Failed(ErrorKind::UnknownKind);
                        },
                        Some(ContentKind::Directory) => {
                            return WalkStep::List(item.path);
                        },
                        Some(ContentKind::File) => match item.download_url {
                            None => {
                                return WalkStep::Failed(ErrorKind::InvalidEntry);
                            },
                            Some(url) => {
                                let task = DownloadTask {
                                    source_url: url,
                                    destination_path: item.path,
                                    expected_size: item.size,
                                };
                                self.tasks.push(task);
                                assert(self.found() =~= found_before.push(task@));
                            },
                        },
                    }
                },
            }
        }
    }

    /// Queues the entries of the listing that the last `List` step asked for,
    /// behind those already waiting.
    pub fn add_listing(&mut self, items: Vec<ContentItem>)
        ensures
            final(self).pending() == old(self).pending() + items@,
            final(self).found() == old(self).found(),
    {
        let mut q = Self::queue_of(items);
        let ghost added = q@;
        let ghost before = self.queue@;
        while q.len() > 0
            invariant
                self.queue@ + q@ == before + added,
                self.found() == old(self).found(),
            decreases q@.len(),
        {
            let ghost qb = q@;
            let item = q.pop_front().unwrap();
            self.queue.push_back(item);
            assert(self.queue@ + q@ =~= before + added) by {
                assert(qb =~= seq![item] + q@);
            }
        }
        assert(q@ =~= Seq::<ContentItem>::empty());
        assert(self.queue@ =~= before + added);
    }

    /// The tasks found so far, in the order their entries were expanded.
    pub fn tasks(&self) -> (r: &Vec<DownloadTask>)
        ensures
            r@.map_values(|t: DownloadTask| t@) == self.found(),
    {
        &self.tasks
    }

    /// Ends the walk and hands over its tasks.
    pub fn into_tasks(self) -> (r: Vec<DownloadTask>)
        ensures
            r@.map_values(|t: DownloadTask| t@) == self.found(),
    {
        self.tasks
    }
}

} // verus!
