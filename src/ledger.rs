use vstd::prelude::*;

use crate::heap::Candidate;

verus! {

/// A node's composite key: its display identity together with its graph address,
/// so that two accounts that share a name stay apart.
pub struct NodeKey {
    pub identity: String,
    pub address: String,
}

/// The mathematical form of a composite key: (identity, address).
pub type KeyView = (Seq<char>, Seq<char>);

impl View for NodeKey {
    type V = KeyView;

    open spec fn view(&self) -> KeyView {
        (self.identity@, self.address@)
    }
}

impl NodeKey {
    pub fn new(identity: String, address: String) -> (r: NodeKey)
        ensures
            r.identity == identity,
            r.address == address,
    {
        NodeKey { identity, address }
    }

    /// The composite key of a candidate.
    pub fn of(c: &Candidate) -> (r: NodeKey)
        ensures
            r@ == (c.identity@, c.key@),
            r.address == c.key,
    {
        NodeKey { identity: c.identity.clone(), address: c.key.clone() }
    }

    /// A field-by-field copy.
    pub fn duplicate(&self) -> (r: NodeKey)
        ensures
            r == *self,
    {
        NodeKey { identity: self.identity.clone(), address: self.address.clone() }
    }

    /// Whether both parts of the two keys agree.
    pub fn same(&self, other: &NodeKey) -> (r: bool)
        ensures
            r == (self@ == other@),
    {
        self.identity == other.identity && self.address == other.address
    }
}

/// The views of a sequence of keys.
pub open spec fn key_views(v: Seq<NodeKey>) -> Seq<KeyView> {
    v.map_values(|k: NodeKey| k@)
}

/// The predecessor map after recording `child` as discovered by `pred`: a node
/// already present keeps its predecessor (first discovery wins), and nothing is
/// recorded for a discoverer that is itself unknown.
pub open spec fn record_one(
    m: Map<KeyView, Option<KeyView>>,
    child: KeyView,
    pred: KeyView,
) -> Map<KeyView, Option<KeyView>> {
    if m.contains_key(child) || !m.contains_key(pred) {
        m
    } else {
        m.insert(child, Some(pred))
    }
}

/// The predecessor map after recording each `(child, pred)` link in order.
pub open spec fn record_all(
    m: Map<KeyView, Option<KeyView>>,
    links: Seq<(KeyView, KeyView)>,
) -> Map<KeyView, Option<KeyView>>
    decreases links.len(),
{
    if links.len() == 0 {
        m
    } else {
        let prev = record_all(m, links.drop_last());
        record_one(prev, links.last().0, links.last().1)
    }
}

/// The views of a sequence of `(child, pred)` links.
pub open spec fn link_views(links: Seq<(NodeKey, NodeKey)>) -> Seq<(KeyView, KeyView)> {
    links.map_values(|l: (NodeKey, NodeKey)| (l.0@, l.1@))
}

struct Entry {
    key: NodeKey,
    pred: Option<usize>,
}

/// Number of discovery steps from the root to entry `i`.
spec fn depth_at(s: Seq<Entry>, i: int) -> nat
    decreases i,
{
    if 0 < i < s.len() && s[i].pred is Some && s[i].pred.unwrap() < i {
        depth_at(s, s[i].pred.unwrap() as int) + 1
    } else {
        0
    }
}

/// The keys met when walking predecessors from entry `i` back to the root,
/// listed root first.
spec fn chain_at(s: Seq<Entry>, i: int) -> Seq<KeyView>
    decreases i,
{
    if 0 < i < s.len() && s[i].pred is Some && s[i].pred.unwrap() < i {
        chain_at(s, s[i].pred.unwrap() as int).push(s[i].key@)
    } else {
        seq![s[i].key@]
    }
}

/// The predecessor map: for each visited node, the node that discovered it
/// (`None` for the root, the search's source).
///
/// Entries are kept in order of discovery and each one names its discoverer by
/// position, always an earlier one; so walking predecessors always ends at the root.
pub struct Ledger {
    entries: Vec<Entry>,
}

impl View for Ledger {
    type V = Map<KeyView, Option<KeyView>>;

    closed spec fn view(&self) -> Map<KeyView, Option<KeyView>> {
        Map::new(
            |k: KeyView| exists|i: int| 0 <= i < self.entries@.len() && self.entries@[i].key@ == k,
            |k: KeyView| self.pred_view(self.index_of(k)),
        )
    }
}

impl Ledger {
    spec fn index_of(&self, k: KeyView) -> int {
        choose|i: int| 0 <= i < self.entries@.len() && self.entries@[i].key@ == k
    }

    spec fn pred_view(&self, i: int) -> Option<KeyView> {
        match self.entries@[i].pred {
            None => None,
            Some(j) => Some(self.entries@[j as int].key@),
        }
    }

    /// One root at the first position, every other entry discovered by an earlier
    /// one, and no key recorded twice.
    pub closed spec fn wf(&self) -> bool {
        let s = self.entries@;
        &&& s.len() >= 1
        &&& s[0].pred is None
        &&& forall|i: int|
            0 < i < s.len() ==> (#[trigger] s[i]).pred is Some && s[i].pred.unwrap() < i
        &&& forall|i: int, j: int|
            #![trigger s[i], s[j]]
            0 <= i < s.len() && 0 <= j < s.len() && i != j ==> s[i].key@ != s[j].key@
    }

    /// The node the ledger was started from.
    pub closed spec fn root(&self) -> KeyView {
        self.entries@[0].key@
    }

    /// How many discovery steps separate `k` from the root.
    pub closed spec fn depth(&self, k: KeyView) -> nat {
        depth_at(self.entries@, self.index_of(k))
    }

    /// The nodes met when walking predecessors from `k` back to the root, root first.
    pub closed spec fn chain(&self, k: KeyView) -> Seq<KeyView> {
        chain_at(self.entries@, self.index_of(k))
    }

    proof fn lemma_index_of(&self, i: int)
        requires
            self.wf(),
            0 <= i < self.entries@.len(),
        ensures
            self.index_of(self.entries@[i].key@) == i,
            self@.contains_key(self.entries@[i].key@),
            self@[self.entries@[i].key@] == self.pred_view(i),
    {
        let k = self.entries@[i].key@;
        assert(exists|j: int| 0 <= j < self.entries@.len() && self.entries@[j].key@ == k);
        let j = self.index_of(k);
        if j != i {
            assert(self.entries@[i].key@ != self.entries@[j].key@);
        }
    }

    /// The walk from entry `i`: its length, its ends, each step a recorded
    /// predecessor link, and no node met twice.
    proof fn lemma_chain_at(&self, i: int)
        requires
            self.wf(),
            0 <= i < self.entries@.len(),
        ensures
            ({
                let c = chain_at(self.entries@, i);
                &&& c.len() == depth_at(self.entries@, i) + 1
                &&& c[0] == self.root()
                &&& c.last() == self.entries@[i].key@
                &&& c.no_duplicates()
                &&& forall|t: int|
                    0 <= t < c.len() ==> exists|e: int|
                        0 <= e <= i && #[trigger] c[t] == self.entries@[e].key@
                &&& forall|t: int|
                    0 <= t < c.len() - 1 ==> self@[#[trigger] c[t + 1]] == Some(c[t])
                &&& forall|t: int| 0 <= t < c.len() ==> self@.contains_key(#[trigger] c[t])
            }),
        decreases i,
    {
        let s = self.entries@;
        let c = chain_at(s, i);
        self.lemma_index_of(i);
        if i == 0 {
            assert(c == seq![s[0].key@]);
            assert forall|t: int| 0 <= t < c.len() implies exists|e: int|
                0 <= e <= i && #[trigger] c[t] == self.entries@[e].key@ by {
                assert(c[t] == s[0].key@);
            }
        } else {
            assert(s[i].pred is Some);
            let j = s[i].pred.unwrap() as int;
            self.lemma_chain_at(j);
            self.lemma_index_of(j);
            let prev = chain_at(s, j);
            assert(c == prev.push(s[i].key@));
            assert forall|t: int| 0 <= t < c.len() implies exists|e: int|
                0 <= e <= i && #[trigger] c[t] == self.entries@[e].key@ by {
                if t < prev.len() {
                    assert(c[t] == prev[t]);
                    let e = choose|e: int| 0 <= e <= j && #[trigger] prev[t] == self.entries@[e].key@;
                    assert(c[t] == self.entries@[e].key@);
                } else {
                    assert(c[t] == self.entries@[i].key@);
                }
            }
            assert forall|a: int, b: int| 0 <= a < c.len() && 0 <= b < c.len() && a != b implies c[a]
                != c[b] by {
                if a < prev.len() && b < prev.len() {
                    assert(c[a] == prev[a] && c[b] == prev[b]);
                } else if a < prev.len() {
                    assert(c[a] == prev[a]);
                    let e = choose|e: int| 0 <= e <= j && #[trigger] prev[a] == self.entries@[e].key@;
                    assert(s[e].key@ != s[i].key@);
                } else {
                    assert(c[b] == prev[b]);
                    let e = choose|e: int| 0 <= e <= j && #[trigger] prev[b] == self.entries@[e].key@;
                    assert(s[e].key@ != s[i].key@);
                }
            }
            assert forall|t: int| 0 <= t < c.len() - 1 implies self@[#[trigger] c[t + 1]] == Some(
                c[t],
            ) by {
                if t + 1 < prev.len() {
                    assert(c[t + 1] == prev[t + 1] && c[t] == prev[t]);
                } else {
                    assert(c[t] == prev.last());
                }
            }
            assert forall|t: int| 0 <= t < c.len() implies self@.contains_key(#[trigger] c[t]) by {
                if t < prev.len() {
                    assert(c[t] == prev[t]);
                }
            }
        }
    }

    /// Walking predecessors from any recorded node `k` meets each node at most once
    /// and ends at the root after exactly `depth(k)` steps, which cannot exceed the
    /// number of recorded nodes; every step follows a recorded link.
    pub proof fn lemma_predecessor_walk(&self, k: KeyView)
        requires
            self.wf(),
            self@.contains_key(k),
        ensures
            self.chain(k).len() == self.depth(k) + 1,
            self.chain(k)[0] == self.root(),
            self@.contains_key(self.root()),
            self@[self.root()] is None,
            self.chain(k).last() == k,
            self.chain(k).no_duplicates(),
            forall|t: int|
                0 <= t < self.chain(k).len() - 1 ==> self@[#[trigger] self.chain(k)[t + 1]] == Some(
                    self.chain(k)[t],
                ),
            forall|t: int| 0 <= t < self.chain(k).len() ==> self@.contains_key(#[trigger] self.chain(k)[t]),
            self.chain(k).len() <= self@.dom().len(),
    {
        let i = self.index_of(k);
        self.lemma_chain_at(i);
        self.lemma_index_of(0);
        self.lemma_dom_finite();
        let c = self.chain(k);
        assert(c.to_set().subset_of(self@.dom()));
        c.unique_seq_to_set();
        vstd::set_lib::lemma_len_subset(c.to_set(), self@.dom());
    }

    /// The recorded nodes form a finite set.
    pub proof fn lemma_finite(&self)
        ensures
            self@.dom().finite(),
    {
        self.lemma_dom_finite();
    }

    proof fn lemma_dom_finite(&self)
        ensures
            self@.dom().finite(),
            self.wf() ==> self@.dom().len() == self.entries@.len(),
    {
        let keys = self.entries@.map_values(|e: Entry| e.key@);
        assert(self@.dom() =~= keys.to_set()) by {
            assert forall|k: KeyView| self@.dom().contains(k) implies keys.to_set().contains(k) by {
                let i = choose|i: int| 0 <= i < self.entries@.len() && self.entries@[i].key@ == k;
                assert(keys[i] == k);
            }
        }
        vstd::seq_lib::seq_to_set_is_finite(keys);
        if self.wf() {
            assert(keys.no_duplicates()) by {
                assert forall|i: int, j: int| 0 <= i < keys.len() && 0 <= j < keys.len() && i != j
                    implies keys[i] != keys[j] by {
                    assert(self.entries@[i].key@ != self.entries@[j].key@);
                }
            }
            keys.unique_seq_to_set();
        }
    }

    /// Number of recorded nodes.
    pub fn len(&self) -> (r: usize)
        requires
            self.wf(),
        ensures
            r == self@.dom().len(),
    {
        proof {
            self.lemma_dom_finite();
        }
        self.entries.len()
    }

    /// A ledger holding only `root`, which has no predecessor.
    pub fn new(root: NodeKey) -> (r: Ledger)
        ensures
            r.wf(),
            r@ == map![root@ => None::<KeyView>],
            r.root() == root@,
            r.depth(root@) == 0,
    {
        let mut entries: Vec<Entry> = Vec::new();
        entries.push(Entry { key: root, pred: None });
        let r = Ledger { entries };
        proof {
            r.lemma_index_of(0);
            assert(r@ =~= map![root@ => None::<KeyView>]);
        }
        r
    }

    fn find(&self, k: &NodeKey) -> (r: Option<usize>)
        requires
            self.wf(),
        ensures
            r is None <==> !self@.contains_key(k@),
            r matches Some(i) ==> i < self.entries@.len() && self.entries@[i as int].key@ == k@,
    {
        let mut i: usize = 0;
        while i < self.entries.len()
            invariant
                i <= self.entries@.len(),
                forall|j: int| 0 <= j < i ==> #[trigger] self.entries@[j].key@ != k@,
            decreases self.entries@.len() - i,
        {
            if self.entries[i].key.same(k) {
                return Some(i);
            }
            i += 1;
        }
        None
    }

    /// Whether `k` has been recorded.
    pub fn contains(&self, k: &NodeKey) -> (r: bool)
        requires
            self.wf(),
        ensures
            r == self@.contains_key(k@),
    {
        self.find(k).is_some()
    }

    /// Records that `pred` discovered `child`. Nothing changes when `child` is already
    /// recorded (the first discovery wins) or when `pred` is not.
    pub fn record(&mut self, child: NodeKey, pred: &NodeKey)
        requires
            old(self).wf(),
        ensures
            final(self).wf(),
            final(self)@ == record_one(old(self)@, child@, pred@),
            final(self).root() == old(self).root(),
            !old(self)@.contains_key(child@) && old(self)@.contains_key(pred@) ==> final(self).depth(
                child@,
            ) == old(self).depth(pred@) + 1,
            forall|k: KeyView| #[trigger]
                old(self)@.contains_key(k) ==> final(self).depth(k) == old(self).depth(k)
                    && final(self).chain(k) == old(self).chain(k),
    {
        if self.find(&child).is_some() {
            return;
        }
        let p = match self.find(pred) {
            None => {
                return;
            },
            Some(p) => p,
        };
        let ghost old_ledger = *self;
        let ghost ck = child@;
        self.entries.push(Entry { key: child, pred: Some(p) });
        proof {
            let s = self.entries@;
            let n = s.len() - 1;
            assert(s[n].key@ == ck);
            assert forall|i: int| 0 <= i < n implies s[i] == old_ledger.entries@[i] by {}
            assert(self.wf()) by {
                assert forall|i: int, j: int|
                    0 <= i < s.len() && 0 <= j < s.len() && i != j implies #[trigger] s[i].key@
                    != #[trigger] s[j].key@ by {
                    if i == n {
                        assert(old_ledger.entries@[j].key@ != ck);
                    } else if j == n {
                        assert(old_ledger.entries@[i].key@ != ck);
                    }
                }
            }
            assert forall|k: KeyView| #[trigger] self@.contains_key(k) == old_ledger@.insert(
                ck,
                Some(pred@),
            ).contains_key(k) by {
                if old_ledger@.contains_key(k) {
                    let i = choose|i: int|
                        0 <= i < old_ledger.entries@.len() && old_ledger.entries@[i].key@ == k;
                    assert(s[i].key@ == k);
                }
                if self@.contains_key(k) && k != ck {
                    let i = choose|i: int| 0 <= i < s.len() && s[i].key@ == k;
                    assert(i != n);
                    assert(old_ledger.entries@[i].key@ == k);
                }
            }
            assert forall|k: KeyView| #[trigger] self@.contains_key(k) implies self@[k]
                == old_ledger@.insert(ck, Some(pred@))[k] by {
                if k == ck {
                    self.lemma_index_of(n);
                } else {
                    let i = choose|i: int| 0 <= i < s.len() && s[i].key@ == k;
                    assert(i != n);
                    self.lemma_index_of(i);
                    old_ledger.lemma_index_of(i);
                }
            }
            assert(self@ =~= old_ledger@.insert(ck, Some(pred@)));
            self.lemma_index_of(n);
            old_ledger.lemma_index_of(p as int);
            assert(depth_at(s, p as int) == depth_at(old_ledger.entries@, p as int)) by {
                lemma_depth_prefix(old_ledger.entries@, s, p as int);
            }
            assert forall|k: KeyView| #[trigger]
                old_ledger@.contains_key(k) implies self.depth(k) == old_ledger.depth(k)
                && self.chain(k) == old_ledger.chain(k) by {
                let i = choose|i: int|
                    0 <= i < old_ledger.entries@.len() && old_ledger.entries@[i].key@ == k;
                old_ledger.lemma_index_of(i);
                self.lemma_index_of(i);
                lemma_depth_prefix(old_ledger.entries@, s, i);
                lemma_chain_prefix(old_ledger.entries@, s, i);
            }
        }
    }

    /// Records every `(child, pred)` link of `links`, in order.
    pub fn merge(&mut self, links: &Vec<(NodeKey, NodeKey)>)
        requires
            old(self).wf(),
        ensures
            final(self).wf(),
            final(self)@ == record_all(old(self)@, link_views(links@)),
            final(self).root() == old(self).root(),
    {
        let ghost start = self@;
        let mut i: usize = 0;
        while i < links.len()
            invariant
                self.wf(),
                i <= links@.len(),
                self@ == record_all(start, link_views(links@.subrange(0, i as int))),
                self.root() == old(self).root(),
            decreases links@.len() - i,
        {
            proof {
                let done = links@.subrange(0, i as int);
                let next = links@.subrange(0, i + 1 as int);
                assert(link_views(next).drop_last() =~= link_views(done));
            }
            self.record(links[i].0.duplicate(), &links[i].1);
            i += 1;
        }
        assert(links@.subrange(0, links@.len() as int) == links@);
    }

    /// The path from the root to `k`, root first; `None` when `k` was never recorded.
    pub fn path_to(&self, k: &NodeKey) -> (r: Option<Vec<NodeKey>>)
        requires
            self.wf(),
        ensures
            r is None <==> !self@.contains_key(k@),
            r matches Some(p) ==> {
                &&& key_views(p@) == self.chain(k@)
                &&& p@.len() >= 1
                &&& p@[0]@ == self.root()
                &&& p@.last()@ == k@
                &&& forall|t: int|
                    0 <= t < p@.len() - 1 ==> self@[(#[trigger] p@[t + 1])@] == Some(p@[t]@)
            },
    {
        let start = match self.find(k) {
            None => {
                return None;
            },
            Some(i) => i,
        };
        let ghost s = self.entries@;
        let mut cur = start;
        let mut path: Vec<NodeKey> = Vec::new();
        path.push(self.entries[cur].key.duplicate());
        while cur > 0
            invariant
                self.wf(),
                s == self.entries@,
                cur < s.len(),
                path@.len() >= 1,
                path@[0]@ == s[cur as int].key@,
                chain_at(s, start as int) == chain_at(s, cur as int) + key_views(path@).drop_first(),
            decreases cur,
        {
            let ghost old_path = path@;
            let prev = match self.entries[cur].pred {
                Some(j) => j,
                None => 0,
            };
            assert(s[cur as int].pred is Some);
            path.insert(0, self.entries[prev].key.duplicate());
            proof {
                assert(key_views(path@).drop_first() =~= key_views(old_path));
                assert(chain_at(s, cur as int) == chain_at(s, prev as int).push(s[cur as int].key@));
                assert(key_views(old_path) =~= seq![s[cur as int].key@] + key_views(old_path).drop_first());
                assert(chain_at(s, start as int) =~= chain_at(s, prev as int) + key_views(path@).drop_first());
            }
            cur = prev;
        }
        proof {
            assert(chain_at(s, 0) == seq![s[0].key@]);
            assert(key_views(path@) =~= seq![s[0].key@] + key_views(path@).drop_first());
            self.lemma_index_of(start as int);
            self.lemma_chain_at(start as int);
            let c = self.chain(k@);
            assert(key_views(path@) == c);
            assert forall|t: int| 0 <= t < path@.len() - 1 implies self@[(#[trigger] path@[t + 1])@]
                == Some(path@[t]@) by {
                assert(key_views(path@)[t + 1] == path@[t + 1]@);
                assert(key_views(path@)[t] == path@[t]@);
                assert(self@[c[t + 1]] == Some(c[t]));
            }
            assert(key_views(path@)[0] == path@[0]@);
            assert(key_views(path@).last() == path@.last()@);
        }
        Some(path)
    }
}

/// The walk from an entry is decided by the entries up to it.
proof fn lemma_chain_prefix(a: Seq<Entry>, b: Seq<Entry>, i: int)
    requires
        0 <= i < a.len() <= b.len(),
        forall|j: int| 0 <= j < a.len() ==> a[j] == b[j],
    ensures
        chain_at(a, i) == chain_at(b, i),
    decreases i,
{
    if 0 < i && a[i].pred is Some && a[i].pred.unwrap() < i {
        lemma_chain_prefix(a, b, a[i].pred.unwrap() as int);
    }
}

/// Depth is decided by the entries up to the one asked about.
proof fn lemma_depth_prefix(a: Seq<Entry>, b: Seq<Entry>, i: int)
    requires
        0 <= i < a.len() <= b.len(),
        forall|j: int| 0 <= j < a.len() ==> a[j] == b[j],
    ensures
        depth_at(a, i) == depth_at(b, i),
    decreases i,
{
    if 0 < i && a[i].pred is Some && a[i].pred.unwrap() < i {
        lemma_depth_prefix(a, b, a[i].pred.unwrap() as int);
    }
}

} // verus!
