use vstd::prelude::*;

use crate::node::{nodes_view, FSNode, NodeView};
use vstd::string::*;

verus! {

// A tree walk alternates two moves: the walker names a directory it wants
// listed, and the caller (which alone touches the filesystem) hands back the
// outcome of that listing. Everything between those hand-offs -- turning
// entries into leaves, descending into subdirectories, assembling the nested
// `Dir` nodes -- happens here and is verified. The transition the walker
// makes on each listing is pinned down by `spec_feed`.

/// What kind of entry a directory listing reported.
pub enum EntryKind {
    /// A regular file.
    Regular,
    /// A subdirectory.
    Directory,
    /// Anything else (symlink, device, ...); the walk does not disambiguate.
    Other,
}

/// One entry of a directory listing, as the caller observed it.
pub enum ListEntry {
    /// An entry that could be read, with its name and kind.
    Readable { name: String, kind: EntryKind },
    /// An entry that failed to read while iterating; `detail` is the
    /// caller's rendering of the error.
    Unreadable { detail: String },
}

/// The outcome of listing one directory.
pub enum Listing {
    /// The directory was listed, with its entries in enumeration order.
    Entries(Vec<ListEntry>),
    /// The directory could not be listed; `detail` is the caller's
    /// rendering of the error.
    Failed(String),
}

/// The shape of a `ListEntry`.
pub enum ListEntryView {
    Readable { name: Seq<char>, kind: EntryKind },
    Unreadable { detail: Seq<char> },
}

/// The shape of a `Listing`.
pub enum ListingView {
    Entries(Seq<ListEntryView>),
    Failed(Seq<char>),
}

impl View for ListEntry {
    type V = ListEntryView;

    open spec fn view(&self) -> ListEntryView {
        match self {
            ListEntry::Readable { name, kind } => ListEntryView::Readable {
                name: name@,
                kind: *kind,
            },
            ListEntry::Unreadable { detail } => ListEntryView::Unreadable { detail: detail@ },
        }
    }
}

/// The shapes of a sequence of listing entries, in order.
pub open spec fn entries_view(s: Seq<ListEntry>) -> Seq<ListEntryView> {
    Seq::new(s.len(), |i: int| s[i]@)
}

impl View for Listing {
    type V = ListingView;

    open spec fn view(&self) -> ListingView {
        match self {
            Listing::Entries(v) => ListingView::Entries(entries_view(v@)),
            Listing::Failed(d) => ListingView::Failed(d@),
        }
    }
}

/// One suspended directory during the walk: the path key it will carry, its
/// raw entries, how many of them have been consumed, and the children built
/// so far.
pub struct Frame {
    pub key: String,
    pub entries: Vec<ListEntry>,
    pub next: usize,
    pub children: Vec<FSNode>,
}

/// The shape of a `Frame`.
pub struct FrameView {
    pub key: Seq<char>,
    pub entries: Seq<ListEntryView>,
    pub next: int,
    pub children: Seq<NodeView>,
}

impl View for Frame {
    type V = FrameView;

    open spec fn view(&self) -> FrameView {
        FrameView {
            key: self.key@,
            entries: entries_view(self.entries@),
            next: self.next as int,
            children: nodes_view(self.children@),
        }
    }
}

/// The shapes of a stack of frames, bottom first.
pub open spec fn frames_view(s: Seq<Frame>) -> Seq<FrameView> {
    Seq::new(s.len(), |i: int| s[i]@)
}

/// The walker's whole state: the stack of unfinished directories, the path
/// whose listing it is waiting for (if any), and the finished tree (if any).
#[verifier::ext_equal]
pub struct WalkerView {
    pub stack: Seq<FrameView>,
    pub pending: Option<Seq<char>>,
    pub result: Option<NodeView>,
}

/// The text of the leaf that stands in for a directory that could not be
/// listed.
pub open spec fn error_leaf(path: Seq<char>, detail: Seq<char>) -> Seq<char> {
    "path: "@ + path + ", error, "@ + detail
}

/// The text of the leaf that stands in for an entry that failed to read.
pub open spec fn entry_error(detail: Seq<char>) -> Seq<char> {
    "error, "@ + detail
}

/// The text of the leaf that stands in for an entry that is neither a
/// regular file nor a directory.
pub open spec fn other_leaf_text() -> Seq<char> {
    "this may be a symlink"@
}

/// The key of a child directory: the parent's key, a slash, the child's
/// name.
pub open spec fn dir_key(parent: Seq<char>, name: Seq<char>) -> Seq<char> {
    parent + "/"@ + name
}

/// The leaf a non-directory listing entry turns into.
pub open spec fn entry_leaf(e: ListEntryView) -> NodeView {
    match e {
        ListEntryView::Readable { name, kind } => match kind {
            EntryKind::Regular => NodeView::File(name),
            EntryKind::Other => NodeView::File(other_leaf_text()),
            EntryKind::Directory => arbitrary(),
        },
        ListEntryView::Unreadable { detail } => NodeView::File(entry_error(detail)),
    }
}

/// How many entries of one frame are still unconsumed.
pub open spec fn frame_rem(f: FrameView) -> nat {
    if f.next <= f.entries.len() {
        (f.entries.len() - f.next) as nat
    } else {
        0
    }
}

/// How many entries are still unconsumed over the whole stack.
pub open spec fn stack_weight(stack: Seq<FrameView>) -> nat
    decreases stack.len(),
{
    if stack.len() == 0 {
        0
    } else {
        stack_weight(stack.drop_last()) + frame_rem(stack.last())
    }
}

/// The walker state that holds a finished tree.
pub open spec fn walk_done(n: NodeView) -> WalkerView {
    WalkerView { stack: Seq::empty(), pending: Option::None, result: Option::Some(n) }
}

/// The stack after pushing one finished child node into its topmost frame.
pub open spec fn attach_last(stack: Seq<FrameView>, n: NodeView) -> Seq<FrameView>
    recommends
        stack.len() > 0,
{
    let f = stack.last();
    stack.update(stack.len() - 1, FrameView { children: f.children.push(n), ..f })
}

/// Runs the walk as far as it can go without another listing: consumes
/// non-directory entries into leaves, closes exhausted frames into `Dir`
/// nodes and attaches them to their parents, and stops either on the first
/// subdirectory entry (asking for its listing) or with the finished tree.
pub open spec fn spec_advance(stack: Seq<FrameView>) -> WalkerView
    decreases stack_weight(stack), stack.len(),
    via spec_advance_decreases
{
    if stack.len() == 0 {
        WalkerView { stack, pending: Option::None, result: Option::None }
    } else {
        let f = stack.last();
        if f.next < f.entries.len() {
            let e = f.entries[f.next];
            if e matches ListEntryView::Readable { name, kind: EntryKind::Directory } {
                WalkerView {
                    stack: stack.update(
                        stack.len() - 1,
                        FrameView { next: f.next + 1, ..f },
                    ),
                    pending: Option::Some(dir_key(f.key, e->Readable_name)),
                    result: Option::None,
                }
            } else {
                spec_advance(
                    stack.update(
                        stack.len() - 1,
                        FrameView {
                            next: f.next + 1,
                            children: f.children.push(entry_leaf(e)),
                            ..f
                        },
                    ),
                )
            }
        } else {
            let node = NodeView::Dir { key: f.key, children: f.children };
            if stack.len() == 1 {
                walk_done(node)
            } else {
                spec_advance(attach_last(stack.drop_last(), node))
            }
        }
    }
}

/// Updating the topmost frame leaves the weight of the rest alone.
proof fn lemma_weight_update_last(stack: Seq<FrameView>, f: FrameView)
    requires
        stack.len() > 0,
    ensures
        stack_weight(stack.update(stack.len() - 1, f)) == stack_weight(stack.drop_last())
            + frame_rem(f),
{
    let s2 = stack.update(stack.len() - 1, f);
    assert(s2.drop_last() =~= stack.drop_last());
    assert(s2.last() == f);
}

#[via_fn]
proof fn spec_advance_decreases(stack: Seq<FrameView>) {
    if stack.len() > 0 {
        let f = stack.last();
        if f.next < f.entries.len() {
            let e = f.entries[f.next];
            if !(e matches ListEntryView::Readable { name, kind: EntryKind::Directory }) {
                let f2 = FrameView {
                    next: f.next + 1,
                    children: f.children.push(entry_leaf(e)),
                    ..f
                };
                lemma_weight_update_last(stack, f2);
            }
        } else {
            if stack.len() > 1 {
                let node = NodeView::Dir { key: f.key, children: f.children };
                let rest = stack.drop_last();
                let p = rest.last();
                let p2 = FrameView { children: p.children.push(node), ..p };
                lemma_weight_update_last(rest, p2);
                assert(stack_weight(stack) == stack_weight(rest) + frame_rem(f));
                assert(frame_rem(f) == 0);
                assert(frame_rem(p2) == frame_rem(p));
                assert(stack_weight(rest) == stack_weight(rest.drop_last()) + frame_rem(p));
            }
        }
    }
}

/// The walker's move on one listing: a failed listing turns the awaited
/// directory into an inline error leaf; a successful one opens a new frame.
/// Either way the walk then runs on as far as `spec_advance` carries it.
pub open spec fn spec_feed(w: WalkerView, l: ListingView) -> WalkerView
    recommends
        w.pending is Some,
        w.result is None,
{
    match l {
        ListingView::Failed(detail) => {
            let leaf = NodeView::File(error_leaf(w.pending.unwrap(), detail));
            if w.stack.len() == 0 {
                walk_done(leaf)
            } else {
                spec_advance(attach_last(w.stack, leaf))
            }
        },
        ListingView::Entries(es) => spec_advance(
            w.stack.push(
                FrameView {
                    key: w.pending.unwrap(),
                    entries: es,
                    next: 0,
                    children: Seq::empty(),
                },
            ),
        ),
    }
}

/// A fresh walk: no frames yet, the root's listing awaited.
pub open spec fn spec_new(root: Seq<char>) -> WalkerView {
    WalkerView { stack: Seq::empty(), pending: Option::Some(root), result: Option::None }
}

/// Pushing a frame pushes its shape.
proof fn lemma_frames_view_push(s: Seq<Frame>, f: Frame)
    ensures
        frames_view(s.push(f)) =~= frames_view(s).push(f@),
{
}

/// Dropping the last frame drops its shape.
proof fn lemma_frames_view_drop(s: Seq<Frame>)
    requires
        s.len() > 0,
    ensures
        frames_view(s.subrange(0, s.len() - 1)) =~= frames_view(s).drop_last(),
{
}

/// Builds the inline error text for a directory that could not be listed.
pub fn error_leaf_exec(path: &str, detail: &str) -> (r: String)
    ensures
        r@ == error_leaf(path@, detail@),
{
    let mut s = String::from_str("path: ");
    s.append(path);
    s.append(", error, ");
    s.append(detail);
    proof {
        assert(s@ =~= error_leaf(path@, detail@));
    }
    s
}

/// Builds the inline error text for an entry that failed to read.
pub fn entry_error_exec(detail: &str) -> (r: String)
    ensures
        r@ == entry_error(detail@),
{
    let mut s = String::from_str("error, ");
    s.append(detail);
    s
}

/// Builds the leaf text for an entry that is neither file nor directory.
pub fn other_leaf_exec() -> (r: String)
    ensures
        r@ == other_leaf_text(),
{
    String::from_str("this may be a symlink")
}

/// Joins a parent key and a child name with a slash.
pub fn join_path(parent: &str, name: &str) -> (r: String)
    ensures
        r@ == dir_key(parent@, name@),
{
    let mut s = String::from_str(parent);
    s.append("/");
    s.append(name);
    proof {
        assert(s@ =~= dir_key(parent@, name@));
    }
    s
}

/// What one consumed entry asks of the walk: record a finished leaf, or
/// descend into the named subdirectory.
enum StepAct {
    Leaf(FSNode),
    Descend(String),
}

/// The tree walk, driven from outside: the caller asks `next_request` which
/// directory to list, does the listing, hands the outcome to `feed`, and
/// repeats until `take_result` yields the finished tree. Every transition
/// equals the one `spec_feed` prescribes.
pub struct TreeWalker {
    stack: Vec<Frame>,
    pending: Option<String>,
    result: Option<FSNode>,
}

impl View for TreeWalker {
    type V = WalkerView;

    closed spec fn view(&self) -> WalkerView {
        WalkerView {
            stack: frames_view(self.stack@),
            pending: match self.pending {
                Option::Some(p) => Option::Some(p@),
                Option::None => Option::None,
            },
            result: match self.result {
                Option::Some(n) => Option::Some(n@),
                Option::None => Option::None,
            },
        }
    }
}

impl TreeWalker {
    /// Starts a walk at `root`; the first listing asked for is `root`'s.
    pub fn new(root: String) -> (w: TreeWalker)
        ensures
            w@ == spec_new(root@),
    {
        let w = TreeWalker { stack: Vec::new(), pending: Option::Some(root), result: Option::None };
        proof {
            assert(frames_view(w.stack@) =~= Seq::<FrameView>::empty());
            assert(w@ =~= spec_new(root@));
        }
        w
    }

    /// The directory whose listing the walk is waiting for, if any.
    pub fn next_request(&self) -> (r: Option<String>)
        ensures
            match r {
                Option::Some(p) => self@.pending == Option::Some(p@),
                Option::None => self@.pending is None,
            },
    {
        match &self.pending {
            Option::Some(p) => Option::Some(p.clone()),
            Option::None => Option::None,
        }
    }

    /// Whether the walk has finished its tree.
    pub fn finished(&self) -> (r: bool)
        ensures
            r == (self@.result is Some),
    {
        self.result.is_some()
    }

    /// The finished tree, once no listing is awaited any more.
    pub fn take_result(self) -> (r: Option<FSNode>)
        ensures
            match r {
                Option::Some(n) => self@.result == Option::Some(n@),
                Option::None => self@.result is None,
            },
    {
        self.result
    }

    /// Hands the walker the outcome of the listing it asked for; the state
    /// afterwards is exactly `spec_feed` of the state before.
    pub fn feed(&mut self, listing: Listing)
        requires
            old(self)@.pending is Some,
            old(self)@.result is None,
        ensures
            final(self)@ == spec_feed(old(self)@, listing@),
    {
        let path = self.pending.as_ref().unwrap().clone();
        self.pending = Option::None;
        match listing {
            Listing::Failed(detail) => {
                let leaf = FSNode::File(error_leaf_exec(path.as_str(), detail.as_str()));
                if self.stack.len() == 0 {
                    self.result = Option::Some(leaf);
                    proof {
                        assert(frames_view(self.stack@) =~= Seq::<FrameView>::empty());
                        assert(self@ =~= spec_feed(old(self)@, listing@));
                    }
                } else {
                    let ghost s0 = old(self)@.stack;
                    proof {
                        lemma_frames_view_drop(self.stack@);
                    }
                    let mut f = self.stack.pop().unwrap();
                    let ghost fv = f@;
                    let ghost oc = f.children@;
                    let ghost gleaf = leaf;
                    let ghost minus = self.stack@;
                    f.children.push(leaf);
                    proof {
                        crate::node::lemma_nodes_view_push(oc, gleaf);
                    }
                    let ghost gf = f;
                    self.stack.push(f);
                    proof {
                        lemma_frames_view_push(minus, gf);
                        assert(gf@.children == fv.children.push(gleaf@));
                        assert(frames_view(self.stack@) =~= attach_last(
                            s0,
                            NodeView::File(error_leaf(path@, detail@)),
                        ));
                    }
                    self.advance();
                }
            },
            Listing::Entries(entries) => {
                let f = Frame { key: path, entries, next: 0, children: Vec::new() };
                let ghost s0 = old(self)@.stack;
                let ghost fv = f@;
                let ghost minus = self.stack@;
                let ghost gf = f;
                self.stack.push(f);
                proof {
                    lemma_frames_view_push(minus, gf);
                    assert(fv.children =~= Seq::<NodeView>::empty());
                    assert(frames_view(self.stack@) =~= s0.push(
                        FrameView {
                            key: fv.key,
                            entries: fv.entries,
                            next: 0,
                            children: Seq::empty(),
                        },
                    ));
                }
                self.advance();
            },
        }
    }

    /// Runs the walk forward until it either needs another listing or has
    /// finished the tree; the outcome is exactly `spec_advance` of the
    /// stack it started from.
    fn advance(&mut self)
        requires
            old(self).stack@.len() > 0,
            old(self)@.pending is None,
            old(self)@.result is None,
        ensures
            final(self)@ == spec_advance(old(self)@.stack),
    {
        let ghost target = spec_advance(frames_view(self.stack@));
        loop
            invariant
                self.stack@.len() > 0,
                self@.pending is None,
                self@.result is None,
                spec_advance(frames_view(self.stack@)) == target,
                target == spec_advance(old(self)@.stack),
            ensures
                self@ == target,
            decreases stack_weight(frames_view(self.stack@)), self.stack@.len(),
        {
            let ghost s = frames_view(self.stack@);
            proof {
                lemma_frames_view_drop(self.stack@);
            }
            let mut f = self.stack.pop().unwrap();
            let ghost fv = f@;
            if f.next < f.entries.len() {
                let act = {
                    let e = &f.entries[f.next];
                    match e {
                        ListEntry::Readable { name, kind } => match kind {
                            EntryKind::Regular => StepAct::Leaf(FSNode::File(name.clone())),
                            EntryKind::Directory => StepAct::Descend(
                                join_path(f.key.as_str(), name.as_str()),
                            ),
                            EntryKind::Other => StepAct::Leaf(FSNode::File(other_leaf_exec())),
                        },
                        ListEntry::Unreadable { detail } => StepAct::Leaf(
                            FSNode::File(entry_error_exec(detail.as_str())),
                        ),
                    }
                };
                f.next = f.next + 1;
                match act {
                    StepAct::Leaf(node) => {
                        let ghost nv = node@;
                        let ghost oc = f.children@;
                        let ghost gnode = node;
                        f.children.push(node);
                        proof {
                            crate::node::lemma_nodes_view_push(oc, gnode);
                        }
                        let ghost minus = self.stack@;
                        let ghost gf = f;
                        self.stack.push(f);
                        proof {
                            lemma_frames_view_push(minus, gf);
                            assert(gf@.children == fv.children.push(nv));
                            assert(nv == entry_leaf(fv.entries[fv.next]));
                            assert(frames_view(self.stack@) =~= s.update(
                                s.len() - 1,
                                FrameView {
                                    next: fv.next + 1,
                                    children: fv.children.push(entry_leaf(fv.entries[fv.next])),
                                    ..fv
                                },
                            ));
                            lemma_weight_update_last(
                                s,
                                FrameView {
                                    next: fv.next + 1,
                                    children: fv.children.push(entry_leaf(fv.entries[fv.next])),
                                    ..fv
                                },
                            );
                        }
                    },
                    StepAct::Descend(child) => {
                        let ghost minus = self.stack@;
                        let ghost gf = f;
                        self.stack.push(f);
                        self.pending = Option::Some(child);
                        proof {
                            lemma_frames_view_push(minus, gf);
                            assert(frames_view(self.stack@) =~= s.update(
                                s.len() - 1,
                                FrameView { next: fv.next + 1, ..fv },
                            ));
                            assert(self@ =~= spec_advance(s));
                        }
                        return ;
                    },
                }
            } else {
                let node = FSNode::Dir { key: f.key, children: f.children };
                let ghost nv = node@;
                proof {
                    assert(nv == NodeView::Dir { key: fv.key, children: fv.children });
                }
                if self.stack.len() == 0 {
                    self.result = Option::Some(node);
                    proof {
                        assert(frames_view(self.stack@) =~= Seq::<FrameView>::empty());
                        assert(self@ =~= walk_done(nv));
                        assert(self@ =~= spec_advance(s));
                    }
                    return ;
                } else {
                    proof {
                        lemma_frames_view_drop(self.stack@);
                    }
                    let mut parent = self.stack.pop().unwrap();
                    let ghost pv = parent@;
                    let ghost opc = parent.children@;
                    let ghost gnode2 = node;
                    parent.children.push(node);
                    proof {
                        crate::node::lemma_nodes_view_push(opc, gnode2);
                    }
                    let ghost minus = self.stack@;
                    let ghost gp = parent;
                    self.stack.push(parent);
                    proof {
                        lemma_frames_view_push(minus, gp);
                        assert(gp@.children == pv.children.push(nv));
                        assert(frames_view(self.stack@) =~= attach_last(s.drop_last(), nv));
                        lemma_weight_update_last(s.drop_last(), frames_view(self.stack@).last());
                        assert(stack_weight(s) == stack_weight(s.drop_last()) + frame_rem(
                            s.last(),
                        ));
                    }
                }
            }
        }
    }
}

} // verus!
