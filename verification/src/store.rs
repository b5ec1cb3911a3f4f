//! The entry store: the single source of truth for one replica's tree.
//!
//! The store owns its tree exclusively; the process that embeds the library
//! serializes all mutations through one owner (for example behind a lock),
//! so the operations here are specified as sequential state transitions.
//! Each successful append raises an edge-triggered change notice for at most
//! one interested subscriber; with no subscriber registered the notice is
//! dropped, and notices are never queued.

use vstd::prelude::*;

use crate::data::{
    add_spec, entries_of, lemma_add_spec, tree_wf, Entry, EntryV, Tree, TreeV,
};

verus! {

/// One replica's store: the tree plus the change-notification state.
pub struct EntryStore {
    pub tree: Tree,
    pub has_subscriber: bool,
    pub notice_pending: bool,
}

/// The store's invariant: its tree has no duplicate category.
pub open spec fn store_wf(s: EntryStore) -> bool {
    tree_wf(s.tree@)
}

impl EntryStore {
    /// A fresh store: empty tree, no subscriber, no pending notice.
    pub fn new() -> (s: EntryStore)
        ensures
            s.tree@ == Seq::<(Seq<char>, Seq<EntryV>)>::empty(),
            !s.has_subscriber,
            !s.notice_pending,
            store_wf(s),
    {
        EntryStore { tree: Tree::new(), has_subscriber: false, notice_pending: false }
    }

    /// Registers the single interested subscriber (for example, the UI).
    pub fn subscribe(&mut self)
        ensures
            *final(self) == (EntryStore { has_subscriber: true, ..*old(self) }),
    {
        self.has_subscriber = true;
    }

    /// Drops the subscriber; later notices are discarded, not queued.
    pub fn unsubscribe(&mut self)
        ensures
            *final(self) == (EntryStore { has_subscriber: false, ..*old(self) }),
    {
        self.has_subscriber = false;
    }

    /// Consumes the pending change notice, if any (test-and-clear).
    pub fn take_notice(&mut self) -> (r: bool)
        ensures
            r == old(self).notice_pending,
            *final(self) == (EntryStore { notice_pending: false, ..*old(self) }),
    {
        let r = self.notice_pending;
        self.notice_pending = false;
        r
    }

    /// A consistent point-in-time copy of the tree.
    pub fn snapshot(&self) -> (t: Tree)
        ensures
            t@ == self.tree@,
    {
        self.tree.duplicate()
    }
}

/// Appends one entry to the named category of the store, creating the
/// category if absent, and raises the change notice if a subscriber is
/// registered. Always reports success: the one failure the wider system
/// knows here — the store's synchronization found corrupted by the caller
/// that owns it — is reported by that caller, not by the store itself.
pub fn add_entry(store: &mut EntryStore, category: String, name: String, url: String) -> (r: bool)
    requires
        store_wf(*old(store)),
    ensures
        r,
        store_wf(*final(store)),
        final(store).tree@ == add_spec(
            old(store).tree@,
            category@,
            EntryV { name: name@, url: url@ },
        ),
        final(store).has_subscriber == old(store).has_subscriber,
        final(store).notice_pending == (old(store).notice_pending
            || old(store).has_subscriber),
{
    store.tree.add(category, Entry::new(name, url));
    if store.has_subscriber {
        store.notice_pending = true;
    }
    true
}

/// The tree reached from `t` by a sequence of append operations, each a
/// `(category, entry)` pair, applied in order.
pub open spec fn add_all(t: TreeV, ops: Seq<(Seq<char>, EntryV)>) -> TreeV
    decreases ops.len(),
{
    if ops.len() == 0 {
        t
    } else {
        add_all(add_spec(t, ops[0].0, ops[0].1), ops.drop_first())
    }
}

/// The entries that a sequence of append operations sends to category `c`,
/// in operation order.
pub open spec fn added_to(ops: Seq<(Seq<char>, EntryV)>, c: Seq<char>) -> Seq<EntryV>
    decreases ops.len(),
{
    if ops.len() == 0 {
        Seq::empty()
    } else if ops[0].0 == c {
        seq![ops[0].1] + added_to(ops.drop_first(), c)
    } else {
        added_to(ops.drop_first(), c)
    }
}

/// Law: after any serialized sequence of append operations — in particular,
/// any interleaving of several callers' operations — each category holds
/// exactly its old entries followed by the entries appended to it, each
/// exactly once, in operation order. Since an interleaving preserves every
/// caller's own order, each caller's entries appear in its program order.
pub proof fn lemma_interleaved_adds(t: TreeV, ops: Seq<(Seq<char>, EntryV)>, c: Seq<char>)
    requires
        tree_wf(t),
    ensures
        tree_wf(add_all(t, ops)),
        entries_of(add_all(t, ops), c) == entries_of(t, c) + added_to(ops, c),
    decreases ops.len(),
{
    if ops.len() == 0 {
        assert(entries_of(t, c) + added_to(ops, c) =~= entries_of(t, c));
    } else {
        let t2 = add_spec(t, ops[0].0, ops[0].1);
        lemma_add_spec(t, ops[0].0, ops[0].1);
        lemma_interleaved_adds(t2, ops.drop_first(), c);
        if ops[0].0 == c {
            assert(entries_of(t2, c) == entries_of(t, c).push(ops[0].1));
            assert(entries_of(t, c).push(ops[0].1) + added_to(ops.drop_first(), c) =~= entries_of(
                t,
                c,
            ) + (seq![ops[0].1] + added_to(ops.drop_first(), c)));
        } else {
            assert(entries_of(t2, c) == entries_of(t, c));
        }
    }
}

} // verus!
