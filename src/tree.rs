use vstd::prelude::*;
use vstd::slice::slice_to_vec;
use vstd::string::StringSliceAdditionalSpecFns;
use crate::balance::{lemma_within_monotone, within_alpha_height};
use crate::shape::{
    descend, descent_depth, grown, level_passes, rebuilt_at, scapegoat_at,
    handle_of, has_key, height, height_of, in_order, insert_key, lemma_handle_of,
    lemma_height_le_len, search_from, sorted, Branch, KeyedHandle,
};

verus! {

/// The ban record of one user: the key, the servers that banned it (each
/// once) and the most recent ban date.
pub struct ScapegoatNode {
    key: Vec<u8>,
    ban_list: Vec<u16>,
    ban_date: u32,
}

impl ScapegoatNode {
    pub closed spec fn key_view(&self) -> Seq<u8> {
        self.key@
    }

    pub closed spec fn servers(&self) -> Seq<u16> {
        self.ban_list@
    }

    pub closed spec fn date(&self) -> u32 {
        self.ban_date
    }

    /// An empty record: no key, no server, date zero.
    pub fn new() -> (n: Self)
        ensures
            n.key_view() == Seq::<u8>::empty(),
            n.servers() == Seq::<u16>::empty(),
            n.date() == 0,
    {
        ScapegoatNode { key: Vec::new(), ban_list: Vec::new(), ban_date: 0 }
    }

    pub fn key(&self) -> (k: &[u8])
        ensures
            k@ == self.key_view(),
    {
        self.key.as_slice()
    }

    /// The number of servers that banned this user.
    pub fn ban_count(&self) -> (n: usize)
        ensures
            n == self.servers().len(),
    {
        self.ban_list.len()
    }

    pub fn last_ban_date(&self) -> (d: u32)
        ensures
            d == self.date(),
    {
        self.ban_date
    }

    pub fn is_banned_by(&self, server: u16) -> (r: bool)
        ensures
            r == self.servers().contains(server),
    {
        let mut i: usize = 0;
        while i < self.ban_list.len()
            invariant
                i <= self.ban_list@.len(),
                forall|j: int| 0 <= j < i ==> self.ban_list@[j] != server,
            decreases self.ban_list@.len() - i,
        {
            if self.ban_list[i] == server {
                return true;
            }
            i = i + 1;
        }
        false
    }
}

/// A scapegoat tree of ban records keyed by user name. The records live in
/// an append-only arena and are addressed by stable handles; the tree's
/// shape orders the keys and is partly rebuilt whenever an insertion lands
/// deeper than the alpha-height of the tree, with alpha fixed at 1/sqrt(2).
pub struct ScapegoatTree {
    root: Option<Box<Branch>>,
    arena: Vec<ScapegoatNode>,
}

/// The record that an insertion of `(k, server, date)` leaves for a key that
/// already had record `before`.
pub open spec fn merged(before: ScapegoatNode, after: ScapegoatNode, server: u16, date: u32) -> bool {
    &&& after.key_view() == before.key_view()
    &&& after.date() == if before.date() >= date {
        before.date()
    } else {
        date
    }
    &&& after.servers() == if before.servers().contains(server) {
        before.servers()
    } else {
        before.servers().push(server)
    }
}

/// What `insert(k, server, date)` does to a tree, `created` being its result.
pub open spec fn inserted(
    before: ScapegoatTree,
    k: Seq<u8>,
    server: u16,
    date: u32,
    after: ScapegoatTree,
    created: bool,
) -> bool {
    let e = before.entries();
    let rs = before.records();
    let n = rs.len();
    &&& created == !has_key(e, k)
    &&& created ==> {
        &&& exists|i: int| 0 <= i <= e.len() && after.entries() == e.insert(i, (k, n))
        &&& after.records().len() == n + 1
        &&& forall|j: int| 0 <= j < n ==> #[trigger] after.records()[j] == rs[j]
        &&& after.records()[n as int].key_view() == k
        &&& after.records()[n as int].servers() == seq![server]
        &&& after.records()[n as int].date() == date
        &&& within_alpha_height(before.depth_for(k), n + 1) ==> after.grown_from(before, k)
        &&& !within_alpha_height(before.depth_for(k), n + 1) ==> after.rebuilt_from(before, k)
    }
    &&& !created ==> {
        let h = handle_of(e, k) as int;
        &&& after.entries() == e
        &&& after.same_shape(before)
        &&& after.records().len() == n
        &&& forall|j: int| 0 <= j < n && j != h ==> #[trigger] after.records()[j] == rs[j]
        &&& merged(rs[h], after.records()[h], server, date)
    }
}

impl ScapegoatTree {
    /// The keys of the tree in order, each with the handle of its record.
    pub closed spec fn entries(&self) -> Seq<KeyedHandle> {
        in_order(self.root)
    }

    /// The arena: the records by handle.
    pub closed spec fn records(&self) -> Seq<ScapegoatNode> {
        self.arena@
    }

    /// The number of levels of the tree's shape.
    pub closed spec fn levels(&self) -> nat {
        height(self.root)
    }

    /// The number of links from the top to the empty link where the descent
    /// for an absent key `k` ends: the depth a new branch for `k` gets.
    pub closed spec fn depth_for(&self, k: Seq<u8>) -> nat {
        descent_depth(self.root, k)
    }

    /// `self` has the shape of `before` with one more branch, a leaf for `k`
    /// and the next handle, hung where the descent for `k` ends; no other
    /// link differs.
    pub closed spec fn grown_from(&self, before: ScapegoatTree, k: Seq<u8>) -> bool {
        grown(before.root, self.root, k, before.arena@.len() as nat)
    }

    /// `self` is `before` with `k` added and the scapegoat rebuilt: of the
    /// levels on the descent for `k`, the lowest whose height above the new
    /// branch exceeds the alpha-height of its size (with `k`) is rebuilt in
    /// minimum height, and the links above it are those of `before`.
    pub closed spec fn rebuilt_from(&self, before: ScapegoatTree, k: Seq<u8>) -> bool {
        exists|j: nat|
            scapegoat_at(before.root, k, j) && #[trigger] rebuilt_at(
                before.root,
                self.root,
                k,
                before.arena@.len() as nat,
                j,
            )
    }

    /// Both trees have the same shape: the same links, keys and handles.
    pub closed spec fn same_shape(&self, other: ScapegoatTree) -> bool {
        self.root == other.root
    }

    /// The record that the tree holds for key `k`.
    pub open spec fn record_of(&self, k: Seq<u8>) -> ScapegoatNode {
        self.records()[handle_of(self.entries(), k) as int]
    }

    /// The keys are in order, each record belongs to exactly one key, a
    /// record lists each server once, and no branch lies deeper than the
    /// alpha-height of the tree.
    pub closed spec fn wf(&self) -> bool {
        let e = in_order(self.root);
        let rs = self.arena@;
        &&& sorted(e)
        &&& e.len() == rs.len()
        &&& forall|i: int|
            0 <= i < e.len() ==> #[trigger] e[i].1 < rs.len() && rs[e[i].1 as int].key@ == e[i].0
        &&& forall|i: int, j: int| 0 <= i < j < e.len() ==> #[trigger] e[i].1 != #[trigger] e[j].1
        &&& forall|h: int| 0 <= h < rs.len() ==> (#[trigger] rs[h]).ban_list@.no_duplicates()
        &&& height(self.root) == 0 || within_alpha_height(
            (height(self.root) - 1) as nat,
            rs.len() as nat,
        )
    }

    pub fn new() -> (t: Self)
        ensures
            t.wf(),
            t.entries() == Seq::<KeyedHandle>::empty(),
            t.records() == Seq::<ScapegoatNode>::empty(),
    {
        ScapegoatTree { root: None, arena: Vec::new() }
    }

    /// The number of records, which is the number of keys.
    pub fn len(&self) -> (n: usize)
        ensures
            n == self.records().len(),
    {
        self.arena.len()
    }

    /// A fresh record for `user`, banned by `server` on `date`.
    fn new_node(user: &[u8], server: u16, date: u32) -> (n: ScapegoatNode)
        ensures
            n.key_view() == user@,
            n.servers() == seq![server],
            n.date() == date,
    {
        let mut n = ScapegoatNode::new();
        n.key = slice_to_vec(user);
        n.ban_list.push(server);
        assert(n.ban_list@ =~= seq![server]);
        n.ban_date = date;
        n
    }

    /// The record behind a handle that `search` or an insertion gave.
    pub fn node(&self, handle: usize) -> (n: &ScapegoatNode)
        requires
            handle < self.records().len(),
        ensures
            *n == self.records()[handle as int],
    {
        &self.arena[handle]
    }

    /// The handle of the record of `key`, if the tree holds it.
    pub fn search(&self, key: &str) -> (r: Option<usize>)
        requires
            self.wf(),
        ensures
            r.is_some() <==> has_key(self.entries(), key.spec_bytes()),
            r.is_some() ==> r.unwrap() == handle_of(self.entries(), key.spec_bytes()),
            r.is_some() ==> r.unwrap() < self.records().len(),
    {
        let k = key.as_bytes();
        let r = search_from(&self.root, k);
        proof {
            if r.is_some() {
                let e = in_order(self.root);
                let i = choose|i: int| 0 <= i < e.len() && e[i] == (k@, r.unwrap() as nat);
                lemma_handle_of(e, i);
            }
        }
        r
    }

    /// Records that `server` banned `user` on `date`. A new key gets a fresh
    /// record and `true`; a known key keeps its record, which takes the later
    /// of the two dates and lists `server` once, and gives `false`.
    pub fn insert(&mut self, user: &str, server: u16, date: u32) -> (created: bool)
        requires
            old(self).wf(),
            old(self).records().len() < usize::MAX,
        ensures
            final(self).wf(),
            inserted(*old(self), user.spec_bytes(), server, date, *final(self), created),
    {
        let ghost t0 = *self;
        let k = user.as_bytes();
        let handle = self.arena.len();
        let root = self.root.take();
        let ghost e = in_order(root);
        proof {
            lemma_height_le_len(root);
        }
        let (nr, p) = insert_key(root, k, 0, handle);
        self.root = nr;
        match p.found {
            Some(h) => {
                let ghost i = choose|i: int| 0 <= i < e.len() && e[i] == (k@, h as nat);
                proof {
                    lemma_handle_of(e, i);
                }
                let ghost rs = self.arena@;
                let mut rec = ScapegoatNode::new();
                self.arena.set_and_swap(h, &mut rec);
                if rec.ban_date < date {
                    rec.ban_date = date;
                }
                if !rec.is_banned_by(server) {
                    proof {
                        assert forall|a: int, b: int|
                            0 <= a < b < rec.ban_list@.len() + 1 implies rec.ban_list@.push(
                            server,
                        )[a] != rec.ban_list@.push(server)[b] by {
                            if b == rec.ban_list@.len() {
                                assert(rec.ban_list@[a] != server);
                            }
                        }
                    }
                    rec.ban_list.push(server);
                }
                let ghost updated = rec;
                self.arena.set_and_swap(h, &mut rec);
                assert(self.arena@ == rs.update(h as int, updated));
                assert(forall|j: int|
                    0 <= j < rs.len() && j != h ==> #[trigger] self.arena@[j] == rs[j]);
                assert(t0.entries() == e && self.entries() == e);
                assert(t0.records() == rs && handle_of(e, k@) == h);
                assert(self.records().len() == rs.len());
                assert(merged(rs[h as int], self.records()[h as int], server, date));
                assert(has_key(e, k@));
                assert(inserted(t0, k@, server, date, *self, false));
                false
            },
            None => {
                let ghost i = choose|i: int|
                    0 <= i <= e.len() && in_order(nr) == e.insert(i, (k@, handle as nat));
                let ghost rs = self.arena@;
                let node = Self::new_node(k, server, date);
                self.arena.push(node);
                proof {
                    let ne = in_order(nr);
                    let nrs = self.arena@;
                    assert forall|j: int| 0 <= j < ne.len() implies #[trigger] ne[j].1 < nrs.len()
                        && nrs[ne[j].1 as int].key@ == ne[j].0 by {
                        if j < i {
                            assert(ne[j] == e[j]);
                        } else if j > i {
                            assert(ne[j] == e[j - 1]);
                        }
                    }
                    assert forall|a: int, b: int| 0 <= a < b < ne.len() implies #[trigger] ne[a].1
                        != #[trigger] ne[b].1 by {
                        if b < i {
                        } else if b == i {
                            assert(e[a].1 < rs.len());
                        } else if a < i {
                            assert(ne[b] == e[b - 1]);
                        } else if a == i {
                            assert(ne[b] == e[b - 1]);
                            assert(e[b - 1].1 < rs.len());
                        } else {
                            assert(ne[a] == e[a - 1] && ne[b] == e[b - 1]);
                        }
                    }
                    assert forall|h: int| 0 <= h < nrs.len() implies (
                    #[trigger] nrs[h]).ban_list@.no_duplicates() by {
                        if h < rs.len() {
                            assert(nrs[h] == rs[h]);
                        }
                    }
                    assert(p.pending ==> level_passes(root, k@, 0));
                    assert(descend(root, k@, 0) == root);
                    let ho = height(root);
                    let hn = height(nr);
                    if hn > 0 {
                        if p.violated {
                            assert(!p.pending);
                            lemma_within_monotone(
                                (hn - 1) as nat,
                                rs.len() as nat,
                                (ho - 1) as nat,
                                nrs.len() as nat,
                            );
                        } else if hn <= ho {
                            lemma_within_monotone(
                                (hn - 1) as nat,
                                rs.len() as nat,
                                (ho - 1) as nat,
                                nrs.len() as nat,
                            );
                        } else {
                            lemma_within_monotone(
                                (hn - 1) as nat,
                                nrs.len() as nat,
                                p.depth as nat,
                                nrs.len() as nat,
                            );
                        }
                    }
                }
                true
            },
        }
    }

    /// The number of levels of the tree's shape: one more than the depth of
    /// its deepest branch, zero when empty.
    pub fn height(&self) -> (h: usize)
        requires
            self.wf(),
        ensures
            h == self.levels(),
    {
        let n = self.arena.len();
        proof {
            lemma_height_le_len(self.root);
            assert(height(self.root) <= n);
        }
        height_of(&self.root)
    }
}

/// Search-tree order: after any sequence of insertions the keys read in
/// order strictly increase, so every key left of a branch is below its key
/// and every key right of it is above.
pub proof fn lemma_bst_order(t: ScapegoatTree)
    requires
        t.wf(),
    ensures
        sorted(t.entries()),
{
}

/// Balance: after every insertion, rebuild included, no branch lies deeper
/// than the alpha-height `floor(log_{1/alpha}(n))` of the tree's `n` records.
pub proof fn lemma_depth_bound(t: ScapegoatTree)
    requires
        t.wf(),
    ensures
        t.levels() == 0 || within_alpha_height((t.levels() - 1) as nat, t.records().len()),
{
}

/// Each key points to a record of the arena that carries the same key and
/// lists each server once.
pub proof fn lemma_records_valid(t: ScapegoatTree)
    requires
        t.wf(),
    ensures
        t.entries().len() == t.records().len(),
        forall|i: int|
            0 <= i < t.entries().len() ==> #[trigger] t.entries()[i].1 < t.records().len()
                && t.records()[t.entries()[i].1 as int].key_view() == t.entries()[i].0,
        forall|h: int|
            0 <= h < t.records().len() ==> (#[trigger] t.records()[h]).servers().no_duplicates(),
{
}

} // verus!
