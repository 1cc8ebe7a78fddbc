use vstd::prelude::*;

use crate::node::NodeView;
use crate::tree::{
    dir_key, entry_leaf, error_leaf, spec_advance, spec_feed, spec_new, walk_done, EntryKind,
    FrameView, ListEntryView, ListingView, WalkerView,
};

verus! {

// What the tree walk guarantees, stated once and for all over the walker's
// transitions: a flat directory becomes one `Dir` of `File` leaves, an
// unlistable root becomes a `File` leaf naming the requested path, and a
// nested directory's node carries the parent's key extended by a slash and
// its name.

/// The entry does not name a subdirectory.
pub open spec fn non_dir(e: ListEntryView) -> bool {
    !(e matches ListEntryView::Readable { kind: EntryKind::Directory, .. })
}

/// The leaves of the entries `k..e`, in order.
pub open spec fn leaves_between(es: Seq<ListEntryView>, k: int, e: int) -> Seq<NodeView>
    decreases e - k,
{
    if k >= e {
        Seq::empty()
    } else {
        seq![entry_leaf(es[k])] + leaves_between(es, k + 1, e)
    }
}

/// There is one leaf per entry, in the entries' order.
proof fn lemma_leaves_between_index(es: Seq<ListEntryView>, k: int, e: int)
    requires
        0 <= k <= e <= es.len(),
    ensures
        leaves_between(es, k, e).len() == e - k,
        forall|i: int| k <= i < e ==> leaves_between(es, k, e)[i - k] == entry_leaf(es[i]),
    decreases e - k,
{
    if k < e {
        lemma_leaves_between_index(es, k + 1, e);
    }
}

/// Running the walk on a single frame whose remaining entries are all
/// non-directories finishes the tree: one `Dir` with those entries'
/// leaves appended to the children built so far.
proof fn lemma_advance_flat(key: Seq<char>, es: Seq<ListEntryView>, k: int, cs: Seq<NodeView>)
    requires
        0 <= k <= es.len(),
        forall|i: int| k <= i < es.len() ==> non_dir(#[trigger] es[i]),
    ensures
        spec_advance(seq![FrameView { key, entries: es, next: k, children: cs }]) == walk_done(
            NodeView::Dir { key, children: cs + leaves_between(es, k, es.len() as int) },
        ),
    decreases es.len() - k,
{
    let stack = seq![FrameView { key, entries: es, next: k, children: cs }];
    if k < es.len() {
        let e = es[k];
        let f2 = FrameView {
            key,
            entries: es,
            next: k + 1,
            children: cs.push(entry_leaf(e)),
        };
        assert(stack.update(0, f2) =~= seq![f2]);
        lemma_advance_flat(key, es, k + 1, cs.push(entry_leaf(e)));
        lemma_leaves_between_index(es, k, es.len() as int);
        lemma_leaves_between_index(es, k + 1, es.len() as int);
        assert(cs.push(entry_leaf(e)) + leaves_between(es, k + 1, es.len() as int) =~= cs
            + leaves_between(es, k, es.len() as int));
    } else {
        assert(cs + leaves_between(es, k, es.len() as int) =~= cs);
    }
}

/// Running the walk on two frames -- an exhausted parent above one child
/// whose remaining entries are all non-directories -- closes the child,
/// attaches it, and finishes the parent.
proof fn lemma_advance_two(
    parent: FrameView,
    key2: Seq<char>,
    sub: Seq<ListEntryView>,
    k: int,
    cs: Seq<NodeView>,
)
    requires
        parent.next == parent.entries.len(),
        0 <= k <= sub.len(),
        forall|i: int| k <= i < sub.len() ==> non_dir(#[trigger] sub[i]),
    ensures
        spec_advance(seq![parent, FrameView { key: key2, entries: sub, next: k, children: cs }])
            == walk_done(
            NodeView::Dir {
                key: parent.key,
                children: parent.children.push(
                    NodeView::Dir {
                        key: key2,
                        children: cs + leaves_between(sub, k, sub.len() as int),
                    },
                ),
            },
        ),
    decreases sub.len() - k,
{
    let child = FrameView { key: key2, entries: sub, next: k, children: cs };
    let stack = seq![parent, child];
    if k < sub.len() {
        let e = sub[k];
        let c2 = FrameView {
            key: key2,
            entries: sub,
            next: k + 1,
            children: cs.push(entry_leaf(e)),
        };
        assert(stack.update(1, c2) =~= seq![parent, c2]);
        lemma_advance_two(parent, key2, sub, k + 1, cs.push(entry_leaf(e)));
        lemma_leaves_between_index(sub, k, sub.len() as int);
        lemma_leaves_between_index(sub, k + 1, sub.len() as int);
        assert(cs.push(entry_leaf(e)) + leaves_between(sub, k + 1, sub.len() as int) =~= cs
            + leaves_between(sub, k, sub.len() as int));
    } else {
        let node = NodeView::Dir { key: key2, children: cs };
        assert(cs + leaves_between(sub, k, sub.len() as int) =~= cs);
        let rest = stack.drop_last();
        assert(rest =~= seq![parent]);
        let p2 = FrameView { children: parent.children.push(node), ..parent };
        assert(crate::tree::attach_last(rest, node) =~= seq![p2]);
        reveal_with_fuel(spec_advance, 2);
        assert(spec_advance(seq![p2]) == walk_done(
            NodeView::Dir { key: parent.key, children: parent.children.push(node) },
        ));
    }
}

/// Consuming non-directory entries up to a final directory entry leaves
/// one frame with everything consumed and asks for the subdirectory's
/// listing under the parent's key, a slash and its name.
proof fn lemma_advance_until_dir(
    key: Seq<char>,
    es: Seq<ListEntryView>,
    k: int,
    cs: Seq<NodeView>,
)
    requires
        0 <= k < es.len(),
        forall|i: int| k <= i < es.len() - 1 ==> non_dir(#[trigger] es[i]),
        es.last() matches ListEntryView::Readable { kind: EntryKind::Directory, .. },
    ensures
        spec_advance(seq![FrameView { key, entries: es, next: k, children: cs }]) == (WalkerView {
            stack: seq![
                FrameView {
                    key,
                    entries: es,
                    next: es.len() as int,
                    children: cs + leaves_between(es, k, es.len() - 1),
                },
            ],
            pending: Option::Some(dir_key(key, es.last()->Readable_name)),
            result: Option::None,
        }),
    decreases es.len() - k,
{
    let stack = seq![FrameView { key, entries: es, next: k, children: cs }];
    if k == es.len() - 1 {
        let f2 = FrameView { key, entries: es, next: k + 1, children: cs };
        assert(stack.update(0, f2) =~= seq![f2]);
        assert(cs + leaves_between(es, k, es.len() - 1) =~= cs);
    } else {
        let e = es[k];
        let f2 = FrameView {
            key,
            entries: es,
            next: k + 1,
            children: cs.push(entry_leaf(e)),
        };
        assert(stack.update(0, f2) =~= seq![f2]);
        lemma_advance_until_dir(key, es, k + 1, cs.push(entry_leaf(e)));
        lemma_leaves_between_index(es, k, es.len() - 1);
        lemma_leaves_between_index(es, k + 1, es.len() - 1);
        assert(cs.push(entry_leaf(e)) + leaves_between(es, k + 1, es.len() - 1) =~= cs
            + leaves_between(es, k, es.len() - 1));
    }
}

/// For a directory holding only regular files, the finished tree is a
/// single `Dir` node keyed by the root path, and its children are `File`
/// leaves carrying exactly the listed names, in listing order.
pub proof fn lemma_flat_directory(root: Seq<char>, es: Seq<ListEntryView>)
    requires
        forall|i: int|
            0 <= i < es.len() ==> #[trigger] es[i] matches ListEntryView::Readable {
                kind: EntryKind::Regular,
                ..
            },
    ensures
        ({
            let w = spec_feed(spec_new(root), ListingView::Entries(es));
            &&& w.result is Some
            &&& w.result.unwrap() matches NodeView::Dir { key, children } && key == root
                && children.len() == es.len() && (forall|i: int|
                0 <= i < es.len() ==> children[i] == NodeView::File(
                    #[trigger] es[i]->Readable_name,
                ))
        }),
{
    let frame = FrameView { key: root, entries: es, next: 0, children: Seq::empty() };
    assert(Seq::<FrameView>::empty().push(frame) =~= seq![frame]);
    lemma_advance_flat(root, es, 0, Seq::empty());
    lemma_leaves_between_index(es, 0, es.len() as int);
    let children = Seq::<NodeView>::empty() + leaves_between(es, 0, es.len() as int);
    assert(children =~= leaves_between(es, 0, es.len() as int));
    assert forall|i: int| 0 <= i < es.len() implies children[i] == NodeView::File(
        #[trigger] es[i]->Readable_name,
    ) by {
        assert(children[i] == entry_leaf(es[i]));
    }
}

/// For a root that cannot be listed, the walk yields a `File` leaf, not a
/// `Dir`, and its text contains the requested path (right after the six
/// characters "path: ").
pub proof fn lemma_unlistable_root(root: Seq<char>, detail: Seq<char>)
    ensures
        spec_feed(spec_new(root), ListingView::Failed(detail)) == walk_done(
            NodeView::File(error_leaf(root, detail)),
        ),
        error_leaf(root, detail).subrange(6, 6 + root.len() as int) == root,
{
    reveal_strlit("path: ");
    assert("path: "@.len() == 6);
    assert(error_leaf(root, detail).subrange(6, 6 + root.len() as int) =~= root);
}

/// A subdirectory's node sits nested inside its parent's node, and its key
/// is the parent's key, a slash, and the subdirectory's name.
pub proof fn lemma_nested_dir_keys(
    root: Seq<char>,
    files: Seq<ListEntryView>,
    dname: Seq<char>,
    sub: Seq<ListEntryView>,
)
    requires
        forall|i: int| 0 <= i < files.len() ==> non_dir(#[trigger] files[i]),
        forall|i: int| 0 <= i < sub.len() ==> non_dir(#[trigger] sub[i]),
    ensures
        ({
            let entries = files.push(
                ListEntryView::Readable { name: dname, kind: EntryKind::Directory },
            );
            let w1 = spec_feed(spec_new(root), ListingView::Entries(entries));
            let w2 = spec_feed(w1, ListingView::Entries(sub));
            &&& w1.pending == Option::Some(dir_key(root, dname))
            &&& w1.result is None
            &&& w2.result is Some
            &&& w2.result.unwrap() matches NodeView::Dir { key, children } && key == root
                && children.len() == files.len() + 1 && (children.last() matches NodeView::Dir {
                key: ckey,
                children: sub_children,
            } && ckey == dir_key(root, dname) && sub_children.len() == sub.len())
        }),
{
    let entries = files.push(ListEntryView::Readable { name: dname, kind: EntryKind::Directory });
    let frame = FrameView { key: root, entries, next: 0, children: Seq::empty() };
    assert(Seq::<FrameView>::empty().push(frame) =~= seq![frame]);
    assert(forall|i: int| 0 <= i < entries.len() - 1 ==> non_dir(#[trigger] entries[i]));
    lemma_advance_until_dir(root, entries, 0, Seq::empty());
    let w1 = spec_feed(spec_new(root), ListingView::Entries(entries));
    let parent = FrameView {
        key: root,
        entries,
        next: entries.len() as int,
        children: Seq::<NodeView>::empty() + leaves_between(entries, 0, entries.len() - 1),
    };
    assert(w1.stack =~= seq![parent]);
    let child = FrameView { key: dir_key(root, dname), entries: sub, next: 0, children: Seq::empty() };
    assert(w1.stack.push(child) =~= seq![parent, child]);
    lemma_advance_two(parent, dir_key(root, dname), sub, 0, Seq::empty());
    lemma_leaves_between_index(entries, 0, entries.len() - 1);
    lemma_leaves_between_index(sub, 0, sub.len() as int);
    assert(Seq::<NodeView>::empty() + leaves_between(entries, 0, entries.len() - 1)
        =~= leaves_between(entries, 0, entries.len() - 1));
    assert(Seq::<NodeView>::empty() + leaves_between(sub, 0, sub.len() as int) =~= leaves_between(
        sub,
        0,
        sub.len() as int,
    ));
}

} // verus!
