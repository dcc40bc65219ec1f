use vstd::prelude::*;
use vstd::slice::slice_to_vec;
use crate::balance::{
    alpha_height_allows, lemma_log2_within, lemma_two_pow_positive, lemma_within_monotone,
    two_pow, within_alpha_height,
};
use crate::keys::{compare_keys, key_lt, lemma_key_lt_asymmetric, lemma_key_lt_transitive};

verus! {

/// A key of the tree together with the arena handle of its record.
pub type KeyedHandle = (Seq<u8>, nat);

/// A link of the tree's shape: each branch holds a key and the handle of the
/// record that belongs to it.
pub(crate) struct Branch {
    pub(crate) key: Vec<u8>,
    pub(crate) handle: usize,
    pub(crate) left: Option<Box<Branch>>,
    pub(crate) right: Option<Box<Branch>>,
}

/// A branch taken apart: what a flattened subtree lists in key order.
pub(crate) struct Entry {
    pub(crate) key: Vec<u8>,
    pub(crate) handle: usize,
}

/// The in-order sequence of keys and handles of a subtree.
pub(crate) open spec fn in_order(t: Option<Box<Branch>>) -> Seq<KeyedHandle>
    decreases t,
{
    match t {
        None => Seq::empty(),
        Some(b) => in_order(b.left) + seq![(b.key@, b.handle as nat)] + in_order(b.right),
    }
}

/// The number of branches on the longest path down from the top of a subtree.
pub(crate) open spec fn height(t: Option<Box<Branch>>) -> nat
    decreases t,
{
    match t {
        None => 0,
        Some(b) => {
            let hl = height(b.left);
            let hr = height(b.right);
            1 + if hl >= hr {
                hl
            } else {
                hr
            }
        },
    }
}

pub(crate) open spec fn entries_of(v: Seq<Entry>) -> Seq<KeyedHandle> {
    v.map_values(|e: Entry| (e.key@, e.handle as nat))
}

/// Keys strictly increase along the sequence.
pub open spec fn sorted(s: Seq<KeyedHandle>) -> bool {
    forall|i: int, j: int| 0 <= i < j < s.len() ==> key_lt(#[trigger] s[i].0, #[trigger] s[j].0)
}

pub open spec fn has_key(s: Seq<KeyedHandle>, k: Seq<u8>) -> bool {
    exists|i: int| 0 <= i < s.len() && #[trigger] s[i].0 == k
}

/// A place where key `k` stands in the sequence.
pub open spec fn index_of(s: Seq<KeyedHandle>, k: Seq<u8>) -> int {
    choose|i: int| 0 <= i < s.len() && #[trigger] s[i].0 == k
}

/// The handle that a sequence with key `k` gives it.
pub open spec fn handle_of(s: Seq<KeyedHandle>, k: Seq<u8>) -> nat {
    s[index_of(s, k)].1
}

proof fn lemma_sorted_split(l: Seq<KeyedHandle>, x: KeyedHandle, r: Seq<KeyedHandle>)
    requires
        sorted(l + seq![x] + r),
    ensures
        sorted(l),
        sorted(r),
        forall|i: int| 0 <= i < l.len() ==> key_lt(#[trigger] l[i].0, x.0),
        forall|j: int| 0 <= j < r.len() ==> key_lt(x.0, #[trigger] r[j].0),
{
    let s = l + seq![x] + r;
    assert forall|i: int, j: int| 0 <= i < j < l.len() implies key_lt(l[i].0, l[j].0) by {
        assert(s[i] == l[i] && s[j] == l[j]);
    }
    assert forall|i: int, j: int| 0 <= i < j < r.len() implies key_lt(r[i].0, r[j].0) by {
        assert(s[l.len() + 1 + i] == r[i] && s[l.len() + 1 + j] == r[j]);
    }
    assert forall|i: int| 0 <= i < l.len() implies key_lt(#[trigger] l[i].0, x.0) by {
        assert(s[i] == l[i] && s[l.len() as int] == x);
    }
    assert forall|j: int| 0 <= j < r.len() implies key_lt(x.0, #[trigger] r[j].0) by {
        assert(s[l.len() + 1 + j] == r[j] && s[l.len() as int] == x);
    }
}

proof fn lemma_sorted_join(l: Seq<KeyedHandle>, x: KeyedHandle, r: Seq<KeyedHandle>)
    requires
        sorted(l),
        sorted(r),
        forall|i: int| 0 <= i < l.len() ==> key_lt(#[trigger] l[i].0, x.0),
        forall|j: int| 0 <= j < r.len() ==> key_lt(x.0, #[trigger] r[j].0),
    ensures
        sorted(l + seq![x] + r),
{
    let s = l + seq![x] + r;
    assert forall|i: int, j: int| 0 <= i < j < s.len() implies key_lt(
        #[trigger] s[i].0,
        #[trigger] s[j].0,
    ) by {
        let n = l.len() as int;
        if j < n {
            assert(s[i] == l[i] && s[j] == l[j]);
        } else if j == n {
            assert(s[i] == l[i]);
        } else if i > n {
            assert(s[i] == r[i - n - 1] && s[j] == r[j - n - 1]);
        } else if i == n {
            assert(s[j] == r[j - n - 1]);
        } else {
            assert(s[i] == l[i] && s[j] == r[j - n - 1]);
            lemma_key_lt_transitive(l[i].0, x.0, r[j - n - 1].0);
        }
    }
}

/// In a sorted sequence a key stands at one place only.
proof fn lemma_sorted_unique(s: Seq<KeyedHandle>, i: int, j: int)
    requires
        sorted(s),
        0 <= i < s.len(),
        0 <= j < s.len(),
        s[i].0 == s[j].0,
    ensures
        i == j,
{
    if i < j {
        lemma_key_lt_asymmetric(s[i].0, s[j].0);
    } else if j < i {
        lemma_key_lt_asymmetric(s[j].0, s[i].0);
    }
}

pub proof fn lemma_handle_of(s: Seq<KeyedHandle>, i: int)
    requires
        sorted(s),
        0 <= i < s.len(),
    ensures
        has_key(s, s[i].0),
        handle_of(s, s[i].0) == s[i].1,
{
    let k = s[i].0;
    assert(has_key(s, k));
    let j = index_of(s, k);
    assert(0 <= j < s.len() && s[j].0 == k);
    lemma_sorted_unique(s, i, j);
}

pub(crate) proof fn lemma_height_le_len(t: Option<Box<Branch>>)
    ensures
        height(t) <= in_order(t).len(),
    decreases t,
{
    if let Some(b) = t {
        lemma_height_le_len(b.left);
        lemma_height_le_len(b.right);
    }
}

/// Looks `key` up below `t` by descent.
pub(crate) fn search_from(t: &Option<Box<Branch>>, key: &[u8]) -> (r: Option<usize>)
    requires
        sorted(in_order(*t)),
    ensures
        r.is_some() <==> has_key(in_order(*t), key@),
        r.is_some() ==> in_order(*t).contains((key@, r.unwrap() as nat)),
    decreases *t,
{
    match t {
        None => {
            assert(in_order(*t).len() == 0);
            assert(!has_key(in_order(*t), key@));
            None
        },
        Some(b) => {
            let ghost l = in_order(b.left);
            let ghost r = in_order(b.right);
            let ghost x = (b.key@, b.handle as nat);
            let ghost s = in_order(*t);
            assert(s == l + seq![x] + r);
            proof {
                lemma_sorted_split(l, x, r);
            }
            let c = compare_keys(key, b.key.as_slice());
            if c == 0 {
                assert(s[l.len() as int] == x);
                assert(s[l.len() as int].0 == key@);
                Some(b.handle)
            } else if c < 0 {
                let found = search_from(&b.left, key);
                proof {
                    if found.is_some() {
                        let i = choose|i: int|
                            0 <= i < l.len() && l[i] == (key@, found.unwrap() as nat);
                        assert(s[i] == l[i]);
                        assert(s[i].0 == key@);
                    } else {
                        assert forall|i: int| 0 <= i < s.len() implies #[trigger] s[i].0
                            != key@ by {
                            if l.len() < i {
                                assert(s[i] == r[i - l.len() - 1]);
                                lemma_key_lt_transitive(key@, x.0, r[i - l.len() - 1].0);
                                lemma_key_lt_asymmetric(key@, key@);
                            } else if i < l.len() {
                                assert(s[i] == l[i]);
                            }
                        }
                    }
                }
                found
            } else {
                let found = search_from(&b.right, key);
                proof {
                    if found.is_some() {
                        let i = choose|i: int|
                            0 <= i < r.len() && r[i] == (key@, found.unwrap() as nat);
                        assert(s[l.len() + 1 + i] == r[i]);
                        assert(s[l.len() + 1 + i].0 == key@);
                    } else {
                        assert forall|i: int| 0 <= i < s.len() implies #[trigger] s[i].0
                            != key@ by {
                            if i < l.len() {
                                assert(s[i] == l[i]);
                                lemma_key_lt_transitive(l[i].0, x.0, key@);
                                lemma_key_lt_asymmetric(key@, key@);
                            } else if l.len() < i {
                                assert(s[i] == r[i - l.len() - 1]);
                            }
                        }
                    }
                }
                found
            }
        },
    }
}

/// The exact number of branches below `t`, counted by traversal.
pub(crate) fn subtree_size(t: &Option<Box<Branch>>) -> (n: usize)
    requires
        in_order(*t).len() <= usize::MAX,
    ensures
        n == in_order(*t).len(),
    decreases *t,
{
    match t {
        None => 0,
        Some(b) => {
            let nl = subtree_size(&b.left);
            let nr = subtree_size(&b.right);
            nl + 1 + nr
        },
    }
}

/// Appends the entries of `t` to `out` in key order, taking `t` apart.
pub(crate) fn flatten_tree(t: Option<Box<Branch>>, out: &mut Vec<Entry>)
    ensures
        entries_of(final(out)@) == entries_of(old(out)@) + in_order(t),
    decreases t,
{
    match t {
        None => {
            assert(entries_of(old(out)@) + in_order(t) =~= entries_of(old(out)@));
        },
        Some(b) => {
            let ghost before = entries_of(out@);
            let Branch { key, handle, left, right } = *b;
            let ghost lpart = in_order(left);
            let ghost x = (key@, handle as nat);
            flatten_tree(left, out);
            let ghost mid = out@;
            out.push(Entry { key, handle });
            assert(entries_of(out@) =~= entries_of(mid).push(x));
            flatten_tree(right, out);
            assert(entries_of(out@) =~= before + in_order(t));
        },
    }
}

/// At every branch the two halves below differ in size by at most one.
pub(crate) open spec fn size_balanced(t: Option<Box<Branch>>) -> bool
    decreases t,
{
    match t {
        None => true,
        Some(b) => {
            let a = in_order(b.left).len();
            let c = in_order(b.right).len();
            &&& a <= c + 1
            &&& c <= a + 1
            &&& size_balanced(b.left)
            &&& size_balanced(b.right)
        },
    }
}

/// Builds a minimum-height subtree whose in-order sequence is `v`: the entry
/// at index `len / 2` on top, the entries before and after it built below
/// in the same way.
#[verifier::rlimit(30)]
pub(crate) fn build_balanced_tree(v: Vec<Entry>) -> (t: Option<Box<Branch>>)
    ensures
        in_order(t) == entries_of(v@),
        size_balanced(t),
        v@.len() == 0 ==> t.is_none(),
        v@.len() > 0 ==> t.is_some() && (t.unwrap().key@, t.unwrap().handle as nat) == entries_of(
            v@,
        )[(v@.len() / 2) as int] && in_order(t.unwrap().left).len() == v@.len() / 2,
        v@.len() == 0 ==> height(t) == 0,
        v@.len() > 0 ==> height(t) > 0 && two_pow((height(t) - 1) as nat) <= v@.len(),
    decreases v@.len(),
{
    let mut v = v;
    let n = v.len();
    if n == 0 {
        assert(entries_of(v@) =~= Seq::<KeyedHandle>::empty());
        return None;
    }
    let ghost all = v@;
    let mid = n / 2;
    let upper = v.split_off(mid + 1);
    let median = v.pop();
    match median {
        None => {
            assert(false);
            None
        },
        Some(e) => {
            assert(v@ =~= all.subrange(0, mid as int));
            assert(e == all[mid as int]);
            let left = build_balanced_tree(v);
            let right = build_balanced_tree(upper);
            let t = Some(Box::new(Branch { key: e.key, handle: e.handle, left, right }));
            assert(entries_of(all) =~= entries_of(all.subrange(0, mid as int)) + seq![
                (e.key@, e.handle as nat),
            ] + entries_of(all.subrange(mid + 1, n as int)));
            assert(entries_of(all)[mid as int] == (e.key@, e.handle as nat));
            proof {
                let hl = height(left);
                let hr = height(right);
                if hl > 0 {
                    lemma_two_pow_positive((hl - 1) as nat);
                }
                if hr > 0 {
                    lemma_two_pow_positive((hr - 1) as nat);
                }
                if hl == 0 && hr == 0 {
                } else if hl >= hr {
                    assert(two_pow(hl) == 2 * two_pow((hl - 1) as nat));
                } else {
                    assert(two_pow(hr) == 2 * two_pow((hr - 1) as nat));
                }
            }
            t
        },
    }
}

/// Rebuilds a subtree in minimum-height shape. Its keys and handles keep
/// their in-order sequence, and the records they point to are not touched.
pub(crate) fn rebuild_tree(t: Option<Box<Branch>>) -> (r: Option<Box<Branch>>)
    ensures
        in_order(r) == in_order(t),
        size_balanced(r),
        height(r) == 0 || two_pow((height(r) - 1) as nat) <= in_order(t).len(),
{
    let mut v: Vec<Entry> = Vec::new();
    flatten_tree(t, &mut v);
    assert(entries_of(Seq::<Entry>::empty()) + in_order(t) =~= in_order(t));
    build_balanced_tree(v)
}

/// What an insertion below a link reports to the level above it.
pub(crate) struct Placement {
    /// The handle of the key, where it was already present.
    pub(crate) found: Option<usize>,
    /// The depth at which the new branch was placed.
    pub(crate) depth: usize,
    /// The new branch lies deeper than the alpha-height of the whole tree.
    pub(crate) violated: bool,
    /// A violation whose scapegoat has not been found yet below this level.
    pub(crate) pending: bool,
}

/// The subtree reached from `t` by `j` steps of the descent for key `k`.
pub(crate) open spec fn descend(t: Option<Box<Branch>>, k: Seq<u8>, j: nat) -> Option<
    Box<Branch>,
>
    decreases j,
{
    if j == 0 {
        t
    } else {
        match t {
            None => None,
            Some(b) => if key_lt(k, b.key@) {
                descend(b.left, k, (j - 1) as nat)
            } else {
                descend(b.right, k, (j - 1) as nat)
            },
        }
    }
}

/// The number of steps the descent for an absent key `k` takes from `t` to
/// the empty link where `k` belongs.
pub(crate) open spec fn descent_depth(t: Option<Box<Branch>>, k: Seq<u8>) -> nat
    decreases t,
{
    match t {
        None => 0,
        Some(b) => 1 + if key_lt(k, b.key@) {
            descent_depth(b.left, k)
        } else {
            descent_depth(b.right, k)
        },
    }
}

/// `r` is `t` with a new leaf `(k, h)`, without children, hung at the empty
/// link where the descent for `k` ends; no other link differs.
pub(crate) open spec fn grown(t: Option<Box<Branch>>, r: Option<Box<Branch>>, k: Seq<u8>, h: nat) -> bool
    decreases t,
{
    match (t, r) {
        (None, Some(c)) => c.key@ == k && c.handle == h && c.left.is_none() && c.right.is_none(),
        (Some(b), Some(c)) => {
            &&& c.key == b.key
            &&& c.handle == b.handle
            &&& if key_lt(k, b.key@) {
                c.right == b.right && grown(b.left, c.left, k, h)
            } else {
                c.left == b.left && grown(b.right, c.right, k, h)
            }
        },
        _ => false,
    }
}

/// The balance check of the level `j` steps down the descent for `k`, once
/// `k` is added: its height above the new leaf is within the alpha-height
/// of its size.
pub(crate) open spec fn level_passes(t: Option<Box<Branch>>, k: Seq<u8>, j: nat) -> bool {
    within_alpha_height(
        (descent_depth(t, k) - j) as nat,
        in_order(descend(t, k, j)).len() + 1,
    )
}

/// Level `j` of the descent for `k` is the scapegoat: it fails its check and
/// every level below it, down to the new leaf, passes.
pub(crate) open spec fn scapegoat_at(t: Option<Box<Branch>>, k: Seq<u8>, j: nat) -> bool {
    &&& j <= descent_depth(t, k)
    &&& !level_passes(t, k, j)
    &&& forall|i: nat| j < i <= descent_depth(t, k) ==> #[trigger] level_passes(t, k, i)
}

/// `r` is `t` with `(k, h)` added, where the subtree `j` steps down the
/// descent for `k` was rebuilt in minimum height and size balance; the links
/// above it are those of `t`.
pub(crate) open spec fn rebuilt_at(
    t: Option<Box<Branch>>,
    r: Option<Box<Branch>>,
    k: Seq<u8>,
    h: nat,
    j: nat,
) -> bool
    decreases j,
{
    if j == 0 {
        &&& exists|i: int|
            0 <= i <= in_order(t).len() && in_order(r) == in_order(t).insert(i, (k, h))
        &&& height(r) > 0
        &&& two_pow((height(r) - 1) as nat) <= in_order(t).len() + 1
        &&& size_balanced(r)
    } else {
        match (t, r) {
            (Some(b), Some(c)) => {
                &&& c.key == b.key
                &&& c.handle == b.handle
                &&& if key_lt(k, b.key@) {
                    c.right == b.right && rebuilt_at(b.left, c.left, k, h, (j - 1) as nat)
                } else {
                    c.left == b.left && rebuilt_at(b.right, c.right, k, h, (j - 1) as nat)
                }
            },
            _ => false,
        }
    }
}

/// Whether `r` is `t` with a new branch for `(k, handle)` placed by the
/// descent, and repaired at the scapegoat where the placement broke the
/// balance of the whole tree.
pub(crate) open spec fn placed(
    t: Option<Box<Branch>>,
    k: Seq<u8>,
    depth: nat,
    handle: nat,
    r: Option<Box<Branch>>,
    p: Placement,
) -> bool {
    let d = p.depth as nat;
    &&& !has_key(in_order(t), k)
    &&& exists|i: int|
        0 <= i <= in_order(t).len() && in_order(r) == in_order(t).insert(i, (k, handle))
    &&& sorted(in_order(r))
    &&& d == depth + descent_depth(t, k)
    &&& d <= depth + height(t)
    &&& p.violated == !within_alpha_height(d, handle + 1)
    &&& p.pending ==> p.violated
    &&& !p.violated || p.pending ==> grown(t, r, k, handle)
    &&& p.pending ==> forall|i: nat| i <= descent_depth(t, k) ==> #[trigger] level_passes(t, k, i)
    &&& p.violated && !p.pending ==> exists|j: nat|
        scapegoat_at(t, k, j) && #[trigger] rebuilt_at(t, r, k, handle, j)
    &&& p.violated && !p.pending ==> height(r) <= height(t)
    &&& !p.violated || p.pending ==> height(r) <= height(t) || height(r) <= d - depth + 1
}

/// One step of the descent for an absent key: depths and level checks seen
/// from `t` are those of the child the descent enters, one step further.
proof fn lemma_descent_step(t: Option<Box<Branch>>, k: Seq<u8>)
    requires
        t.is_some(),
        k != t.unwrap().key@,
    ensures
        ({
            let b = t.unwrap();
            let c = if key_lt(k, b.key@) {
                b.left
            } else {
                b.right
            };
            &&& descent_depth(t, k) == 1 + descent_depth(c, k)
            &&& descend(t, k, 0) == t
            &&& forall|i: nat| #[trigger] level_passes(t, k, i + 1) == level_passes(c, k, i)
        }),
{
    let b = t.unwrap();
    let c = if key_lt(k, b.key@) {
        b.left
    } else {
        b.right
    };
    assert forall|i: nat| #[trigger] level_passes(t, k, i + 1) == level_passes(c, k, i) by {
        assert(descend(t, k, i + 1) == descend(c, k, i));
    }
}

/// The check and repair of one level on the way back up from a new branch:
/// while a violation is pending, the subtree `t`, lying `above` levels over
/// the new branch, is counted exactly; when `above` exceeds the alpha-height
/// of that count, `t` is the scapegoat and is rebuilt. Otherwise `t` comes
/// back as it was.
fn repair_level(t: Option<Box<Branch>>, above: usize, pending: bool) -> (res: (
    Option<Box<Branch>>,
    bool,
))
    requires
        in_order(t).len() <= usize::MAX,
    ensures
        pending && !within_alpha_height(above as nat, in_order(t).len()) ==> {
            &&& in_order(res.0) == in_order(t)
            &&& size_balanced(res.0)
            &&& height(res.0) == 0 || two_pow((height(res.0) - 1) as nat) <= in_order(t).len()
            &&& !res.1
        },
        !(pending && !within_alpha_height(above as nat, in_order(t).len())) ==> res.0 == t
            && res.1 == pending,
{
    if !pending {
        return (t, false);
    }
    let n = subtree_size(&t);
    if alpha_height_allows(above, n) {
        (t, true)
    } else {
        (rebuild_tree(t), false)
    }
}

proof fn lemma_insert_bounded(l: Seq<KeyedHandle>, i: int, a: KeyedHandle, x: Seq<u8>, below: bool)
    requires
        0 <= i <= l.len(),
        below ==> forall|j: int| 0 <= j < l.len() ==> key_lt(#[trigger] l[j].0, x),
        !below ==> forall|j: int| 0 <= j < l.len() ==> key_lt(x, #[trigger] l[j].0),
        below ==> key_lt(a.0, x),
        !below ==> key_lt(x, a.0),
    ensures
        below ==> forall|j: int|
            0 <= j < l.insert(i, a).len() ==> key_lt(#[trigger] l.insert(i, a)[j].0, x),
        !below ==> forall|j: int|
            0 <= j < l.insert(i, a).len() ==> key_lt(x, #[trigger] l.insert(i, a)[j].0),
{
    let m = l.insert(i, a);
    assert forall|j: int| 0 <= j < m.len() implies (below ==> key_lt(#[trigger] m[j].0, x)) && (
    !below ==> key_lt(x, m[j].0)) by {
        if j < i {
            assert(m[j] == l[j]);
        } else if j > i {
            assert(m[j] == l[j - 1]);
        }
    }
}

/// Places `key` with `handle` below `t`, whose top lies at `depth`: a known
/// key reports its handle, a new one hangs as a leaf where the descent ends.
/// When that leaf lies deeper than the alpha-height of the whole tree, each
/// level on the way back up goes through `repair_level`, from the leaf's
/// parent to the top, until the scapegoat is found and rebuilt.
#[verifier::rlimit(60)]
pub(crate) fn insert_key(t: Option<Box<Branch>>, key: &[u8], depth: usize, handle: usize) -> (res: (
    Option<Box<Branch>>,
    Placement,
))
    requires
        sorted(in_order(t)),
        in_order(t).len() <= handle,
        handle < usize::MAX,
        depth + height(t) <= handle,
    ensures
        res.1.found.is_some() ==> res.0 == t && in_order(t).contains(
            (key@, res.1.found.unwrap() as nat),
        ),
        res.1.found.is_none() ==> placed(t, key@, depth as nat, handle as nat, res.0, res.1),
    decreases t,
{
    match t {
        None => {
            let node = Some(
                Box::new(Branch { key: slice_to_vec(key), handle, left: None, right: None }),
            );
            let violated = !alpha_height_allows(depth, handle + 1);
            assert(in_order(node) =~= in_order(t).insert(0, (key@, handle as nat)));
            assert(two_pow(0) == 1);
            assert(descend(t, key@, 0) == t);
            assert(descent_depth(t, key@) == 0);
            assert(in_order(t).len() == 0);
            assert(within_alpha_height(0, 1));
            assert(level_passes(t, key@, 0));
            (node, Placement { found: None, depth, violated, pending: violated })
        },
        Some(b) => {
            let Branch { key: bkey, handle: bh, left, right } = *b;
            let ghost l = in_order(left);
            let ghost r = in_order(right);
            let ghost x = (bkey@, bh as nat);
            let ghost s = in_order(t);
            assert(s == l + seq![x] + r);
            proof {
                lemma_sorted_split(l, x, r);
            }
            let c = compare_keys(key, bkey.as_slice());
            if c == 0 {
                assert(s[l.len() as int] == x);
                let same = Some(Box::new(Branch { key: bkey, handle: bh, left, right }));
                return (
                    same,
                    Placement { found: Some(bh), depth, violated: false, pending: false },
                );
            }
            if c < 0 {
                let (nl, p) = insert_key(left, key, depth + 1, handle);
                if let Some(h) = p.found {
                    let same = Some(Box::new(Branch { key: bkey, handle: bh, left: nl, right }));
                    assert(exists|i: int| 0 <= i < l.len() && l[i] == (key@, h as nat));
                    let ghost i = choose|i: int| 0 <= i < l.len() && l[i] == (key@, h as nat);
                    assert(s[i] == l[i]);
                    return (same, p);
                }
                let ghost nls = in_order(nl);
                let ghost i = choose|i: int|
                    0 <= i <= l.len() && nls == l.insert(i, (key@, handle as nat));
                proof {
                    lemma_insert_bounded(l, i, (key@, handle as nat), x.0, true);
                    lemma_sorted_join(nls, x, r);
                    assert(nls + seq![x] + r =~= s.insert(i, (key@, handle as nat)));
                    assert forall|j: int| 0 <= j < s.len() implies #[trigger] s[j].0 != key@ by {
                        if l.len() < j {
                            assert(s[j] == r[j - l.len() - 1]);
                            lemma_key_lt_transitive(key@, x.0, r[j - l.len() - 1].0);
                            lemma_key_lt_asymmetric(key@, key@);
                        } else if j < l.len() {
                            assert(s[j] == l[j]);
                        } else {
                            lemma_key_lt_asymmetric(key@, key@);
                        }
                    }
                }
                let ghost d = p.depth as nat;
                proof {
                    if false {
                        lemma_key_lt_asymmetric(key@, bkey@);
                    }
                    lemma_descent_step(t, key@);
                }
                let node = Some(Box::new(Branch { key: bkey, handle: bh, left: nl, right }));
                let ghost grown_node = node;
                assert(in_order(node) == in_order(t).insert(i, (key@, handle as nat)));
                let (node, pending) = repair_level(node, p.depth - depth, p.pending);
                proof {
                    let dd = descent_depth(t, key@);
                    assert(level_passes(t, key@, 0) == within_alpha_height(
                        dd,
                        in_order(grown_node).len(),
                    ));
                    if p.pending {
                        assert forall|j: nat| j <= dd implies #[trigger] level_passes(t, key@, j)
                            || j == 0 by {
                            if j > 0 {
                                assert(level_passes(t, key@, ((j - 1) as nat) + 1));
                            }
                        }
                        if !pending {
                            lemma_scapegoat_rebuilt(grown_node, node, (d - depth) as nat);
                            assert(rebuilt_at(t, node, key@, handle as nat, 0));
                            assert(scapegoat_at(t, key@, 0));
                        }
                    } else if p.violated {
                        let jc = choose|jc: nat|
                            scapegoat_at(left, key@, jc) && #[trigger] rebuilt_at(
                                left,
                                nl,
                                key@,
                                handle as nat,
                                jc,
                            );
                        assert(level_passes(t, key@, jc + 1) == level_passes(left, key@, jc));
                        assert forall|j: nat| jc + 1 < j <= dd implies #[trigger] level_passes(
                            t,
                            key@,
                            j,
                        ) by {
                            assert(level_passes(t, key@, ((j - 1) as nat) + 1));
                        }
                        assert(scapegoat_at(t, key@, jc + 1));
                        assert(rebuilt_at(t, node, key@, handle as nat, jc + 1));
                    }
                }
                (node, Placement { found: None, depth: p.depth, violated: p.violated, pending })
            } else {
                let (nr, p) = insert_key(right, key, depth + 1, handle);
                if let Some(h) = p.found {
                    let same = Some(Box::new(Branch { key: bkey, handle: bh, left, right: nr }));
                    assert(exists|i: int| 0 <= i < r.len() && r[i] == (key@, h as nat));
                    let ghost i = choose|i: int| 0 <= i < r.len() && r[i] == (key@, h as nat);
                    assert(s[l.len() + 1 + i] == r[i]);
                    return (same, p);
                }
                let ghost nrs = in_order(nr);
                let ghost i = choose|i: int|
                    0 <= i <= r.len() && nrs == r.insert(i, (key@, handle as nat));
                proof {
                    lemma_insert_bounded(r, i, (key@, handle as nat), x.0, false);
                    lemma_sorted_join(l, x, nrs);
                    assert(l + seq![x] + nrs =~= s.insert(l.len() + 1 + i, (key@, handle as nat)));
                    assert forall|j: int| 0 <= j < s.len() implies #[trigger] s[j].0 != key@ by {
                        if j < l.len() {
                            assert(s[j] == l[j]);
                            lemma_key_lt_transitive(l[j].0, x.0, key@);
                            lemma_key_lt_asymmetric(key@, key@);
                        } else if l.len() < j {
                            assert(s[j] == r[j - l.len() - 1]);
                        } else {
                            lemma_key_lt_asymmetric(key@, key@);
                        }
                    }
                }
                let ghost d = p.depth as nat;
                proof {
                    if c > 0 {
                        lemma_key_lt_asymmetric(key@, bkey@);
                    }
                    lemma_descent_step(t, key@);
                }
                let node = Some(Box::new(Branch { key: bkey, handle: bh, left, right: nr }));
                let ghost grown_node = node;
                assert(in_order(node) == in_order(t).insert(i + l.len() + 1, (key@, handle as nat)));
                let (node, pending) = repair_level(node, p.depth - depth, p.pending);
                proof {
                    let dd = descent_depth(t, key@);
                    assert(level_passes(t, key@, 0) == within_alpha_height(
                        dd,
                        in_order(grown_node).len(),
                    ));
                    if p.pending {
                        assert forall|j: nat| j <= dd implies #[trigger] level_passes(t, key@, j)
                            || j == 0 by {
                            if j > 0 {
                                assert(level_passes(t, key@, ((j - 1) as nat) + 1));
                            }
                        }
                        if !pending {
                            lemma_scapegoat_rebuilt(grown_node, node, (d - depth) as nat);
                            assert(rebuilt_at(t, node, key@, handle as nat, 0));
                            assert(scapegoat_at(t, key@, 0));
                        }
                    } else if p.violated {
                        let jc = choose|jc: nat|
                            scapegoat_at(right, key@, jc) && #[trigger] rebuilt_at(
                                right,
                                nr,
                                key@,
                                handle as nat,
                                jc,
                            );
                        assert(level_passes(t, key@, jc + 1) == level_passes(right, key@, jc));
                        assert forall|j: nat| jc + 1 < j <= dd implies #[trigger] level_passes(
                            t,
                            key@,
                            j,
                        ) by {
                            assert(level_passes(t, key@, ((j - 1) as nat) + 1));
                        }
                        assert(scapegoat_at(t, key@, jc + 1));
                        assert(rebuilt_at(t, node, key@, handle as nat, jc + 1));
                    }
                }
                (node, Placement { found: None, depth: p.depth, violated: p.violated, pending })
            }
        },
    }
}

/// A subtree rebuilt at a scapegoat, one whose height `k` above the new
/// branch exceeds its alpha-height, ends up lower than `k`.
proof fn lemma_scapegoat_rebuilt(before: Option<Box<Branch>>, after: Option<Box<Branch>>, k: nat)
    requires
        in_order(after) == in_order(before),
        height(after) == 0 || two_pow((height(after) - 1) as nat) <= in_order(before).len(),
        !within_alpha_height(k, in_order(before).len()),
    ensures
        height(after) <= k,
{
    if height(after) > k {
        let h = (height(after) - 1) as nat;
        lemma_log2_within(h, in_order(before).len());
        lemma_within_monotone(k, in_order(before).len(), h, in_order(before).len());
    }
}

pub(crate) fn height_of(t: &Option<Box<Branch>>) -> (h: usize)
    requires
        height(*t) <= usize::MAX,
    ensures
        h == height(*t),
    decreases *t,
{
    match t {
        None => 0,
        Some(b) => {
            let hl = height_of(&b.left);
            let hr = height_of(&b.right);
            if hl >= hr {
                hl + 1
            } else {
                hr + 1
            }
        },
    }
}

} // verus!
