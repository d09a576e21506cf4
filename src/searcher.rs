use vstd::prelude::*;

use crate::heap::{
    distinct_keys, dominates, has_key, merged, non_increasing, unique_keys, Candidate, MaxHeap,
};
use crate::ledger::{key_views, link_views, record_all, KeyView, Ledger, NodeKey};

verus! {

/// How many candidates the frontier keeps between rounds.
pub const FRONTIER_LIMIT: usize = 100000;

/// The composite key of a candidate.
pub open spec fn node_of(c: Candidate) -> KeyView {
    (c.identity@, c.key@)
}

/// The scored neighbours that an expansion keeps: those that were scored
/// (`Some`) and whose node the ledger `m` has not seen, in order.
pub open spec fn admitted(
    m: Map<KeyView, Option<KeyView>>,
    scored: Seq<Option<Candidate>>,
) -> Seq<Candidate>
    decreases scored.len(),
{
    if scored.len() == 0 {
        Seq::empty()
    } else {
        let prev = admitted(m, scored.drop_last());
        match scored.last() {
            Some(c) => if m.contains_key(node_of(c)) {
                prev
            } else {
                prev.push(c)
            },
            None => prev,
        }
    }
}

/// The frontier `s` after inserting each of `items` in order (a key already
/// resident keeps its candidate).
pub open spec fn inserted_all(s: Set<Candidate>, items: Seq<Candidate>) -> Set<Candidate>
    decreases items.len(),
{
    if items.len() == 0 {
        s
    } else {
        let prev = inserted_all(s, items.drop_last());
        if has_key(prev, items.last().key@) {
            prev
        } else {
            prev.insert(items.last())
        }
    }
}

/// The frontier one expansion produces from its scored neighbours.
pub open spec fn local_frontier(
    m: Map<KeyView, Option<KeyView>>,
    scored: Seq<Option<Candidate>>,
) -> Set<Candidate> {
    inserted_all(Set::empty(), admitted(m, scored))
}

/// The ledger links one expansion of `person` produces: each kept neighbour
/// was discovered by `person`.
pub open spec fn local_links(
    m: Map<KeyView, Option<KeyView>>,
    person: Candidate,
    scored: Seq<Option<Candidate>>,
) -> Seq<(KeyView, KeyView)> {
    admitted(m, scored).map_values(|c: Candidate| (node_of(c), node_of(person)))
}

/// The frontier `f` after folding in the first `n` expansions of `batch`, each
/// filtered against the ledger `m0` as it stood before the round.
pub open spec fn absorbed_frontier(
    f: Set<Candidate>,
    m0: Map<KeyView, Option<KeyView>>,
    results: Seq<Vec<Option<Candidate>>>,
    n: int,
) -> Set<Candidate>
    decreases n,
{
    if n <= 0 {
        f
    } else {
        merged(absorbed_frontier(f, m0, results, n - 1), local_frontier(m0, results[n - 1]@))
    }
}

/// The ledger `m0` after recording the links of the first `n` expansions of
/// `batch`, in batch order; on a node found twice the earlier expansion wins.
pub open spec fn absorbed_ledger(
    m0: Map<KeyView, Option<KeyView>>,
    batch: Seq<Candidate>,
    results: Seq<Vec<Option<Candidate>>>,
    n: int,
) -> Map<KeyView, Option<KeyView>>
    decreases n,
{
    if n <= 0 {
        m0
    } else {
        record_all(
            absorbed_ledger(m0, batch, results, n - 1),
            local_links(m0, batch[n - 1], results[n - 1]@),
        )
    }
}

/// The neighbours, as (identity, address) pairs, whose node `m` has not seen.
pub open spec fn unvisited_of(
    m: Map<KeyView, Option<KeyView>>,
    neighbors: Seq<(String, String)>,
) -> Seq<(String, String)>
    decreases neighbors.len(),
{
    if neighbors.len() == 0 {
        Seq::empty()
    } else {
        let prev = unvisited_of(m, neighbors.drop_last());
        let n = neighbors.last();
        if m.contains_key((n.0@, n.1@)) {
            prev
        } else {
            prev.push(n)
        }
    }
}

/// The graph addresses along a path of composite keys.
pub open spec fn addresses(c: Seq<KeyView>) -> Seq<Seq<char>> {
    c.map_values(|k: KeyView| k.1)
}

/// The views of a sequence of strings.
pub open spec fn string_views(v: Seq<String>) -> Seq<Seq<char>> {
    v.map_values(|s: String| s@)
}

proof fn lemma_record_all_grows(m: Map<KeyView, Option<KeyView>>, links: Seq<(KeyView, KeyView)>)
    ensures
        m.dom().subset_of(record_all(m, links).dom()),
        forall|t: int|
            0 <= t < links.len() && m.contains_key(#[trigger] links[t].1) ==> record_all(
                m,
                links,
            ).contains_key(links[t].0),
    decreases links.len(),
{
    if links.len() > 0 {
        let prev_links = links.drop_last();
        lemma_record_all_grows(m, prev_links);
        let prev = record_all(m, prev_links);
        assert forall|t: int|
            0 <= t < links.len() && m.contains_key(#[trigger] links[t].1) implies record_all(
            m,
            links,
        ).contains_key(links[t].0) by {
            if t < links.len() - 1 {
                assert(prev_links[t] == links[t]);
            }
        }
    }
}

proof fn lemma_inserted_all_from(s: Set<Candidate>, items: Seq<Candidate>, c: Candidate)
    requires
        inserted_all(s, items).contains(c),
    ensures
        s.contains(c) || items.contains(c),
    decreases items.len(),
{
    if items.len() > 0 {
        let prev = inserted_all(s, items.drop_last());
        if prev.contains(c) {
            lemma_inserted_all_from(s, items.drop_last(), c);
            if items.drop_last().contains(c) {
                let i = choose|i: int| 0 <= i < items.drop_last().len() && items.drop_last()[i] == c;
                assert(items[i] == c);
            }
        } else {
            assert(items[items.len() - 1] == c);
        }
    }
}

/// How many batch members have results: the shorter of the two lengths.
pub open spec fn paired(batch_len: nat, results_len: nat) -> int {
    if batch_len < results_len {
        batch_len as int
    } else {
        results_len as int
    }
}

/// Some candidate of `b` has key `k`.
pub open spec fn holds_key(b: Seq<Candidate>, k: Seq<char>) -> bool {
    exists|i: int| 0 <= i < b.len() && #[trigger] b[i].key@ == k
}

/// `b` is what `pop_many(n)` takes from a frontier holding `f`: the `n` best
/// candidates (all of them when fewer), best first, each once.
pub open spec fn is_top_batch(f: Set<Candidate>, b: Seq<Candidate>, n: int) -> bool {
    &&& b.len() == if n < f.len() {
        n
    } else {
        f.len() as int
    }
    &&& non_increasing(b)
    &&& distinct_keys(b)
    &&& forall|i: int| 0 <= i < b.len() ==> f.contains(#[trigger] b[i])
}

/// The position of the first candidate of `v` whose key is `k`.
fn position_of_key(v: &Vec<Candidate>, k: &String) -> (r: Option<usize>)
    ensures
        r is None ==> forall|j: int| 0 <= j < v@.len() ==> #[trigger] v@[j].key@ != k@,
        r matches Some(i) ==> i < v@.len() && v@[i as int].key@ == k@,
{
    let mut i: usize = 0;
    while i < v.len()
        invariant
            i <= v@.len(),
            forall|j: int| 0 <= j < i ==> #[trigger] v@[j].key@ != k@,
        decreases v@.len() - i,
    {
        if v[i].key == *k {
            return Some(i);
        }
        i += 1;
    }
    None
}

/// The graph address of each key, in order.
fn addresses_of(keys: &Vec<NodeKey>) -> (r: Vec<String>)
    ensures
        string_views(r@) == addresses(key_views(keys@)),
        r@.len() == keys@.len(),
        forall|j: int| 0 <= j < keys@.len() ==> #[trigger] r@[j]@ == keys@[j].address@,
{
    let mut out: Vec<String> = Vec::new();
    let mut t: usize = 0;
    while t < keys.len()
        invariant
            t <= keys@.len(),
            out@.len() == t,
            forall|j: int| 0 <= j < t ==> #[trigger] out@[j]@ == keys@[j].address@,
        decreases keys@.len() - t,
    {
        out.push(keys[t].address.clone());
        t += 1;
    }
    assert(string_views(out@) =~= addresses(key_views(keys@)));
    out
}

proof fn lemma_admitted_unseen(m: Map<KeyView, Option<KeyView>>, scored: Seq<Option<Candidate>>, t: int)
    requires
        0 <= t < admitted(m, scored).len(),
    ensures
        !m.contains_key(node_of(admitted(m, scored)[t])),
    decreases scored.len(),
{
    let prev = admitted(m, scored.drop_last());
    if t < prev.len() {
        lemma_admitted_unseen(m, scored.drop_last(), t);
    }
}

/// When every candidate new to a frontier is a node new to a ledger, the frontier
/// grew by no more than the ledger did.
proof fn lemma_growth_bound(
    f0: Set<Candidate>,
    f1: Set<Candidate>,
    m0: Map<KeyView, Option<KeyView>>,
    m1: Map<KeyView, Option<KeyView>>,
)
    requires
        f0.finite(),
        f1.finite(),
        m1.dom().finite(),
        unique_keys(f1),
        m0.dom().subset_of(m1.dom()),
        forall|c: Candidate| #[trigger] f1.contains(c) ==> m1.contains_key(node_of(c)),
        forall|c: Candidate|
            #[trigger] f1.contains(c) && !f0.contains(c) ==> !m0.contains_key(node_of(c)),
    ensures
        f1.len() + m0.dom().len() <= f0.len() + m1.dom().len(),
{
    let fresh = f1.difference(f0);
    let nodes = fresh.map(|c: Candidate| node_of(c));
    let gained = m1.dom().difference(m0.dom());
    vstd::set_lib::lemma_set_difference_len(f1, f0);
    vstd::set_lib::lemma_len_subset(f1.intersect(f0), f0);
    assert(vstd::relations::injective_on(|c: Candidate| node_of(c), fresh)) by {
        assert forall|a: Candidate, b: Candidate|
            fresh.contains(a) && fresh.contains(b) && #[trigger] node_of(a) == #[trigger] node_of(b)
            implies a == b by {
            assert(a.key@ == b.key@);
        }
    }
    vstd::set_lib::lemma_map_size(fresh, nodes, |c: Candidate| node_of(c));
    assert(nodes.subset_of(gained)) by {
        assert forall|k: KeyView| nodes.contains(k) implies gained.contains(k) by {
            let c = choose|c: Candidate| fresh.contains(c) && node_of(c) == k;
        }
    }
    vstd::set_lib::lemma_len_subset(nodes, gained);
    vstd::set_lib::lemma_len_subset(m0.dom(), m1.dom());
    vstd::set_lib::lemma_set_difference_len(m1.dom(), m0.dom());
    assert(m1.dom().intersect(m0.dom()) =~= m0.dom());
}

/// The outcome of fetching and scoring one neighbour's account.
pub enum Profile {
    /// The account could not be fetched or read.
    Unavailable,
    /// The account is private: a dead end, not an error.
    Private,
    /// The account was scored against the destination.
    Scored(u64),
}

/// What the search asks for next.
pub enum Step {
    /// Expand these candidates (best first) and hand the results to `absorb`.
    Expand(Vec<Candidate>),
    /// The destination was reached: the graph addresses from source to destination.
    Found(Vec<String>),
    /// The frontier ran dry, or the round budget was spent: no path was found.
    Exhausted,
}

/// The search state: a frontier of candidates still to expand, the ledger of who
/// discovered whom, and the batch currently out for expansion.
///
/// The search itself is driven from outside: `collect_batch` says what to do next,
/// the caller fetches and scores the neighbours of each batch member, and
/// `absorb` folds the results back in.
pub struct Searcher {
    source: String,
    target_link: String,
    frontier: MaxHeap,
    ledger: Ledger,
    batch: Vec<Candidate>,
    rounds: usize,
}

impl Searcher {
    /// The identity given to the source node.
    pub open spec fn source_identity() -> Seq<char> {
        seq!['S', 'T', 'A', 'R', 'T']
    }

    /// Both structures are well formed, the ledger is rooted at the source, and
    /// every candidate waiting or out for expansion is a node the ledger knows.
    pub closed spec fn wf(&self) -> bool {
        &&& self.frontier.wf()
        &&& self.ledger.wf()
        &&& self.ledger.root() == (Self::source_identity(), self.source@)
        &&& forall|c: Candidate| #[trigger]
            self.frontier@.contains(c) ==> self.ledger@.contains_key(node_of(c))
        &&& forall|i: int|
            0 <= i < self.batch@.len() ==> self.ledger@.contains_key(
                #[trigger] node_of(self.batch@[i]),
            )
    }

    /// The candidates waiting to be expanded.
    pub closed spec fn frontier_view(&self) -> Set<Candidate> {
        self.frontier@
    }

    /// Who discovered whom.
    pub closed spec fn ledger_view(&self) -> Map<KeyView, Option<KeyView>> {
        self.ledger@
    }

    /// The candidates last taken out of the frontier, best first.
    pub closed spec fn batch_view(&self) -> Seq<Candidate> {
        self.batch@
    }

    /// The source's graph address.
    pub closed spec fn source_view(&self) -> Seq<char> {
        self.source@
    }

    /// The destination's graph address.
    pub closed spec fn target_view(&self) -> Seq<char> {
        self.target_link@
    }

    /// How many rounds of expansion have been handed out.
    pub closed spec fn rounds_view(&self) -> nat {
        self.rounds as nat
    }

    /// The path the ledger holds from the source to `k`.
    pub closed spec fn chain_to(&self, k: KeyView) -> Seq<KeyView> {
        self.ledger.chain(k)
    }

    /// A search from `source` towards `target_link`: the frontier holds the source
    /// alone, with the lowest score, and the ledger holds it as the root.
    pub fn new(source: String, target_link: String) -> (r: Searcher)
        ensures
            r.wf(),
            r.source_view() == source@,
            r.target_view() == target_link@,
            r.frontier_view().len() == 1,
            forall|c: Candidate| #[trigger]
                r.frontier_view().contains(c) ==> c.identity@ == Self::source_identity() && c.key
                    == source && c.score == 0,
            r.ledger_view() == map![(Self::source_identity(), source@) => None::<KeyView>],
            r.batch_view().len() == 0,
            r.rounds_view() == 0,
    {
        let start = String::from_str("START");
        proof {
            reveal_strlit("START");
            assert(start@ =~= Self::source_identity());
        }
        let mut frontier = MaxHeap::new();
        let seed = Candidate::new(start.clone(), source.clone(), 0);
        let ghost seed_v = seed;
        frontier.insert(seed);
        let ledger = Ledger::new(NodeKey::new(start, source.clone()));
        let r = Searcher { source, target_link, frontier, ledger, batch: Vec::new(), rounds: 0 };
        proof {
            assert(r.frontier@ =~= set![seed_v]);
            assert(r.frontier@.len() == 1);
        }
        r
    }

    /// Builds the candidate for a neighbour once its account was fetched and scored;
    /// unavailable and private accounts give none.
    pub fn score_friend(name: String, link: String, profile: Profile) -> (r: Option<Candidate>)
        ensures
            profile matches Profile::Scored(s) ==> r == Some(
                Candidate { identity: name, key: link, score: s },
            ),
            !(profile is Scored) ==> r is None,
    {
        match profile {
            Profile::Scored(score) => Some(Candidate { identity: name, key: link, score }),
            _ => None,
        }
    }

    /// The neighbours (identity, address) that the ledger has not seen yet, in order:
    /// only these need to be fetched and scored.
    pub fn unvisited(&self, neighbors: &Vec<(String, String)>) -> (r: Vec<(String, String)>)
        requires
            self.wf(),
        ensures
            r@ == unvisited_of(self.ledger_view(), neighbors@),
    {
        let mut r: Vec<(String, String)> = Vec::new();
        let mut i: usize = 0;
        while i < neighbors.len()
            invariant
                self.wf(),
                i <= neighbors@.len(),
                r@ == unvisited_of(self.ledger@, neighbors@.subrange(0, i as int)),
            decreases neighbors@.len() - i,
        {
            proof {
                assert(neighbors@.subrange(0, i + 1 as int).drop_last() =~= neighbors@.subrange(
                    0,
                    i as int,
                ));
            }
            let key = NodeKey::new(neighbors[i].0.clone(), neighbors[i].1.clone());
            if !self.ledger.contains(&key) {
                r.push((neighbors[i].0.clone(), neighbors[i].1.clone()));
            }
            i += 1;
        }
        assert(neighbors@.subrange(0, neighbors@.len() as int) == neighbors@);
        r
    }

    /// The local results of expanding `person`: a frontier of its scored neighbours
    /// that `preds` has not seen, and a link from each of them to `person`.
    pub fn search_node_with_score(
        preds: &Ledger,
        person: &Candidate,
        scored: &Vec<Option<Candidate>>,
    ) -> (r: (MaxHeap, Vec<(NodeKey, NodeKey)>))
        requires
            preds.wf(),
        ensures
            r.0.wf(),
            r.0@ == local_frontier(preds@, scored@),
            link_views(r.1@) == local_links(preds@, *person, scored@),
    {
        let mut queue = MaxHeap::new();
        let mut links: Vec<(NodeKey, NodeKey)> = Vec::new();
        let mut i: usize = 0;
        while i < scored.len()
            invariant
                preds.wf(),
                queue.wf(),
                i <= scored@.len(),
                queue@ == local_frontier(preds@, scored@.subrange(0, i as int)),
                link_views(links@) == local_links(preds@, *person, scored@.subrange(0, i as int)),
            decreases scored@.len() - i,
        {
            let ghost done = scored@.subrange(0, i as int);
            proof {
                assert(scored@.subrange(0, i + 1 as int).drop_last() =~= done);
            }
            match &scored[i] {
                Some(c) => {
                    let node = NodeKey::of(c);
                    if !preds.contains(&node) {
                        let ghost before = links@;
                        queue.insert(c.duplicate());
                        links.push((node, NodeKey::of(person)));
                        proof {
                            let adm = admitted(preds@, done);
                            assert(admitted(preds@, scored@.subrange(0, i + 1 as int)) == adm.push(*c));
                            assert(link_views(links@) =~= link_views(before).push(
                                (node_of(*c), node_of(*person)),
                            ));
                            assert(local_links(preds@, *person, scored@.subrange(0, i + 1 as int))
                                =~= local_links(preds@, *person, done).push(
                                (node_of(*c), node_of(*person)),
                            ));
                            assert(adm.push(*c).drop_last() =~= adm);
                        }
                    }
                },
                None => {},
            }
            i += 1;
        }
        assert(scored@.subrange(0, scored@.len() as int) == scored@);
        (queue, links)
    }

    /// Pops the next batch of up to `batch_size` best candidates and decides:
    /// `Found` when one of them is the destination, `Exhausted` when the frontier
    /// was empty or `max_depth` rounds of expansion have been spent, and `Expand`
    /// otherwise. The popped candidates are kept as the batch `absorb` expects.
    /// A batch size of 0 takes nothing out, and such rounds still count against
    /// `max_depth`.
    pub fn collect_batch(&mut self, batch_size: usize, max_depth: usize) -> (r: Step)
        requires
            old(self).wf(),
        ensures
            final(self).wf(),
            final(self).ledger_view() == old(self).ledger_view(),
            final(self).source_view() == old(self).source_view(),
            final(self).target_view() == old(self).target_view(),
            is_top_batch(old(self).frontier_view(), final(self).batch_view(), batch_size as int),
            final(self).frontier_view() == old(self).frontier_view().difference(
                final(self).batch_view().to_set(),
            ),
            dominates(final(self).batch_view().to_set(), final(self).frontier_view()),
            final(self).frontier_view().len() + final(self).batch_view().len() == old(
                self,
            ).frontier_view().len(),
            old(self).frontier_view().len() == 0 ==> r is Exhausted,
            holds_key(final(self).batch_view(), old(self).target_view()) ==> r is Found,
            !holds_key(final(self).batch_view(), old(self).target_view())
                && old(self).frontier_view().len() > 0 && old(self).rounds_view() >= max_depth
                ==> r is Exhausted,
            !holds_key(final(self).batch_view(), old(self).target_view())
                && old(self).frontier_view().len() > 0 && old(self).rounds_view() < max_depth
                ==> r is Expand && final(self).rounds_view() == old(self).rounds_view() + 1,
            r matches Step::Expand(v) ==> v@ == final(self).batch_view(),
            r matches Step::Found(p) ==> exists|i: int|
                0 <= i < final(self).batch_view().len() && #[trigger] final(self).batch_view()[i].key@
                    == old(self).target_view() && string_views(p@) == addresses(
                    final(self).chain_to(node_of(final(self).batch_view()[i])),
                ),
            r matches Step::Found(p) ==> p@.len() >= 1 && p@[0]@ == old(self).source_view()
                && p@.last()@ == old(self).target_view(),
    {
        proof {
            self.frontier.lemma_wf();
        }
        let ghost f = self.frontier@;
        if self.frontier.len() == 0 {
            self.batch = Vec::new();
            assert(self.frontier@ =~= f.difference(self.batch@.to_set()));
            return Step::Exhausted;
        }
        let popped = self.frontier.pop_many(batch_size);
        proof {
            let b = popped@;
            assert(b.no_duplicates()) by {
                assert forall|i: int, j: int| 0 <= i < b.len() && 0 <= j < b.len() && i != j implies b[i]
                    != b[j] by {
                    assert(b[i].key@ != b[j].key@);
                }
            }
            b.unique_seq_to_set();
            vstd::seq_lib::seq_to_set_is_finite(b);
            assert(f.intersect(b.to_set()) =~= b.to_set());
            vstd::set_lib::lemma_set_difference_len(f, b.to_set());
        }
        self.batch = popped;
        if let Some(i) = position_of_key(&self.batch, &self.target_link) {
            let node = NodeKey::of(&self.batch[i]);
            let keys = match self.ledger.path_to(&node) {
                Some(p) => p,
                None => Vec::new(),
            };
            let out = addresses_of(&keys);
            proof {
                // The witness for the path's description is the found candidate.
                assert(exists|j: int|
                    0 <= j < self.batch_view().len() && #[trigger] self.batch_view()[j].key@
                        == self.target_view() && string_views(out@) == addresses(
                        self.chain_to(node_of(self.batch_view()[j])),
                    ));
            }
            return Step::Found(out);
        }
        if self.rounds >= max_depth {
            return Step::Exhausted;
        }
        self.rounds = self.rounds + 1;
        let mut out: Vec<Candidate> = Vec::new();
        let mut t: usize = 0;
        while t < self.batch.len()
            invariant
                t <= self.batch@.len(),
                out@ == self.batch@.subrange(0, t as int),
            decreases self.batch@.len() - t,
        {
            out.push(self.batch[t].duplicate());
            t += 1;
        }
        assert(out@ =~= self.batch@);
        Step::Expand(out)
    }
    /// Folds the results of expanding the current batch into the search.
    ///
    /// `results[i]` holds the scored neighbours of the `i`-th batch member, in the
    /// order they were listed (`None` for those that were unavailable or private).
    /// Each expansion is filtered against the ledger as it stood before this call;
    /// the resulting frontiers are combined into the global one and their links
    /// recorded in the ledger in batch order, so that when two members found the
    /// same node the earlier, better-scored one stays its discoverer. The frontier
    /// is then cut down to its `FRONTIER_LIMIT` best candidates.
    ///
    /// Only nodes the ledger had not seen enter the frontier, so the frontier grows
    /// by no more than the ledger does; as each round also takes at least one
    /// candidate out, a search over a finite graph comes to an end.
    pub fn absorb(&mut self, results: &Vec<Vec<Option<Candidate>>>)
        requires
            old(self).wf(),
        ensures
            final(self).wf(),
            final(self).batch_view().len() == 0,
            final(self).source_view() == old(self).source_view(),
            final(self).target_view() == old(self).target_view(),
            final(self).rounds_view() == old(self).rounds_view(),
            old(self).ledger_view().dom().subset_of(final(self).ledger_view().dom()),
            forall|c: Candidate|
                #[trigger] final(self).frontier_view().contains(c) && !old(
                    self,
                ).frontier_view().contains(c) ==> !old(self).ledger_view().contains_key(node_of(c)),
            final(self).frontier_view().len() + old(self).ledger_view().dom().len() <= old(
                self,
            ).frontier_view().len() + final(self).ledger_view().dom().len(),
            final(self).ledger_view() == absorbed_ledger(
                old(self).ledger_view(),
                old(self).batch_view(),
                results@,
                paired(old(self).batch_view().len(), results@.len()),
            ),
            ({
                let g = absorbed_frontier(
                    old(self).frontier_view(),
                    old(self).ledger_view(),
                    results@,
                    paired(old(self).batch_view().len(), results@.len()),
                );
                &&& g.len() <= FRONTIER_LIMIT ==> final(self).frontier_view() == g
                &&& g.len() > FRONTIER_LIMIT ==> {
                    &&& final(self).frontier_view().subset_of(g)
                    &&& final(self).frontier_view().len() == FRONTIER_LIMIT
                    &&& dominates(final(self).frontier_view(), g.difference(final(self).frontier_view()))
                }
            }),
    {
        let n = if self.batch.len() < results.len() {
            self.batch.len()
        } else {
            results.len()
        };
        let ghost m0 = self.ledger@;
        let ghost f0 = self.frontier@;
        let ghost b0 = self.batch@;
        let mut locals: Vec<(MaxHeap, Vec<(NodeKey, NodeKey)>)> = Vec::new();
        let mut i: usize = 0;
        while i < n
            invariant
                self.wf(),
                *self == *old(self),
                self.batch@ == b0,
                self.ledger@ == m0,
                n <= self.batch@.len(),
                n <= results@.len(),
                i <= n,
                locals@.len() == i,
                forall|j: int|
                    0 <= j < i ==> (#[trigger] locals@[j]).0.wf() && locals@[j].0@ == local_frontier(
                        m0,
                        results@[j]@,
                    ) && link_views(locals@[j].1@) == local_links(m0, b0[j], results@[j]@),
            decreases n - i,
        {
            locals.push(Self::search_node_with_score(&self.ledger, &self.batch[i], &results[i]));
            i += 1;
        }
        let mut i: usize = 0;
        while i < n
            invariant
                self.frontier.wf(),
                self.ledger.wf(),
                self.ledger.root() == old(self).ledger.root(),
                self.source == old(self).source,
                self.target_link == old(self).target_link,
                self.rounds == old(self).rounds,
                self.batch@ == b0,
                n <= b0.len(),
                n <= results@.len(),
                i <= n,
                locals@.len() == n,
                forall|j: int|
                    0 <= j < n ==> (#[trigger] locals@[j]).0.wf() && locals@[j].0@ == local_frontier(
                        m0,
                        results@[j]@,
                    ) && link_views(locals@[j].1@) == local_links(m0, b0[j], results@[j]@),
                self.frontier@ == absorbed_frontier(f0, m0, results@, i as int),
                self.ledger@ == absorbed_ledger(m0, b0, results@, i as int),
                forall|c: Candidate| #[trigger]
                    self.frontier@.contains(c) ==> self.ledger@.contains_key(node_of(c)),
                forall|j: int|
                    0 <= j < b0.len() ==> self.ledger@.contains_key(#[trigger] node_of(b0[j])),
                m0.dom().subset_of(self.ledger@.dom()),
                forall|c: Candidate|
                    #[trigger] self.frontier@.contains(c) && !f0.contains(c) ==> !m0.contains_key(
                        node_of(c),
                    ),
            decreases n - i,
        {
            let ghost f_before = self.frontier@;
            let ghost m_before = self.ledger@;
            self.frontier.merge_in(&locals[i].0);
            self.ledger.merge(&locals[i].1);
            proof {
                let lv = link_views(locals@[i as int].1@);
                let adm = admitted(m0, results@[i as int]@);
                lemma_record_all_grows(m_before, lv);
                assert(lv == local_links(m0, b0[i as int], results@[i as int]@));
                assert forall|c: Candidate| #[trigger]
                    self.frontier@.contains(c) implies self.ledger@.contains_key(node_of(c)) by {
                    if f_before.contains(c) {
                        assert(m_before.contains_key(node_of(c)));
                    } else {
                        assert(locals@[i as int].0@.contains(c));
                        lemma_inserted_all_from(Set::empty(), adm, c);
                        let t = choose|t: int| 0 <= t < adm.len() && adm[t] == c;
                        assert(lv[t] == (node_of(c), node_of(b0[i as int])));
                        assert(m_before.contains_key(lv[t].1));
                    }
                }
                assert forall|j: int| 0 <= j < b0.len() implies self.ledger@.contains_key(
                    #[trigger] node_of(b0[j]),
                ) by {
                    assert(m_before.contains_key(node_of(b0[j])));
                }
                assert forall|c: Candidate|
                    #[trigger] self.frontier@.contains(c) && !f0.contains(c) implies !m0.contains_key(
                    node_of(c),
                ) by {
                    if !f_before.contains(c) {
                        assert(locals@[i as int].0@.contains(c));
                        lemma_inserted_all_from(Set::empty(), adm, c);
                        let t = choose|t: int| 0 <= t < adm.len() && adm[t] == c;
                        lemma_admitted_unseen(m0, results@[i as int]@, t);
                    }
                }
            }
            i += 1;
        }
        self.batch = Vec::new();
        let ghost g = self.frontier@;
        self.frontier.truncate(FRONTIER_LIMIT);
        proof {
            assert forall|c: Candidate| #[trigger]
                self.frontier@.contains(c) implies self.ledger@.contains_key(node_of(c)) by {
                assert(g.contains(c));
            }
            self.ledger.lemma_finite();
            self.frontier.lemma_wf();
            old(self).frontier.lemma_wf();
            lemma_growth_bound(f0, self.frontier@, m0, self.ledger@);
        }
    }

    /// The candidates still waiting to be expanded.
    pub fn frontier(&self) -> (r: &MaxHeap)
        requires
            self.wf(),
        ensures
            r.wf(),
            r@ == self.frontier_view(),
    {
        &self.frontier
    }

    /// Who discovered whom so far.
    pub fn ledger(&self) -> (r: &Ledger)
        requires
            self.wf(),
        ensures
            r.wf(),
            r@ == self.ledger_view(),
    {
        &self.ledger
    }

    /// How many rounds of expansion have been handed out.
    pub fn rounds(&self) -> (r: usize)
        ensures
            r == self.rounds_view(),
    {
        self.rounds
    }

    /// The destination's graph address.
    pub fn target_link(&self) -> (r: &String)
        ensures
            r@ == self.target_view(),
    {
        &self.target_link
    }
}

} // verus!
