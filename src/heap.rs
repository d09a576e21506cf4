use vstd::prelude::*;

verus! {

/// Outcome of comparing two candidates by score.
pub enum Order {
    Greater,
    Equal,
    Smaller,
}

/// How two scores compare.
pub open spec fn order_of(a: u64, b: u64) -> Order {
    if a > b {
        Order::Greater
    } else if a == b {
        Order::Equal
    } else {
        Order::Smaller
    }
}

/// A scored graph node waiting to be expanded.
///
/// `key` addresses the node in the graph and is what the frontier deduplicates on;
/// `identity` is a display label; `score` only orders candidates.
pub struct Candidate {
    pub identity: String,
    pub key: String,
    pub score: u64,
}

impl Candidate {
    pub fn new(identity: String, key: String, score: u64) -> (r: Candidate)
        ensures
            r.identity == identity,
            r.key == key,
            r.score == score,
    {
        Candidate { identity, key, score }
    }

    /// A field-by-field copy.
    pub fn duplicate(&self) -> (r: Candidate)
        ensures
            r == *self,
    {
        Candidate { identity: self.identity.clone(), key: self.key.clone(), score: self.score }
    }
}

/// The comparator the frontier orders its candidates by: their scores.
pub fn compare(a: &Candidate, b: &Candidate) -> (r: Order)
    ensures
        r == order_of(a.score, b.score),
{
    if a.score > b.score {
        Order::Greater
    } else if a.score == b.score {
        Order::Equal
    } else {
        Order::Smaller
    }
}

/// `c` sits directly below `p` in an array-backed binary tree.
pub open spec fn is_child(p: int, c: int) -> bool {
    c == 2 * p + 1 || c == 2 * p + 2
}

/// Every node of the array-backed tree scores at least as high as its children.
pub open spec fn heap_ordered(s: Seq<Candidate>) -> bool {
    forall|p: int, c: int|
        #![trigger s[p], s[c]]
        0 <= p < c < s.len() && is_child(p, c) ==> s[p].score >= s[c].score
}

/// No two positions hold candidates with the same key.
pub open spec fn distinct_keys(s: Seq<Candidate>) -> bool {
    forall|i: int, j: int|
        #![trigger s[i], s[j]]
        0 <= i < s.len() && 0 <= j < s.len() && i != j ==> s[i].key@ != s[j].key@
}

/// Some candidate of `s` has key `k`.
pub open spec fn has_key(s: Set<Candidate>, k: Seq<char>) -> bool {
    exists|c: Candidate| #[trigger] s.contains(c) && c.key@ == k
}

/// A key identifies at most one candidate of `s`.
pub open spec fn unique_keys(s: Set<Candidate>) -> bool {
    forall|a: Candidate, b: Candidate|
        #![trigger s.contains(a), s.contains(b)]
        s.contains(a) && s.contains(b) && a.key@ == b.key@ ==> a == b
}

/// Every candidate of `hi` scores at least as high as every candidate of `lo`.
pub open spec fn dominates(hi: Set<Candidate>, lo: Set<Candidate>) -> bool {
    forall|a: Candidate, b: Candidate|
        #![trigger hi.contains(a), lo.contains(b)]
        hi.contains(a) && lo.contains(b) ==> a.score >= b.score
}

/// `c` belongs to `s` and no candidate of `s` scores higher.
pub open spec fn is_max(c: Candidate, s: Set<Candidate>) -> bool {
    &&& s.contains(c)
    &&& forall|d: Candidate| #[trigger] s.contains(d) ==> c.score >= d.score
}

/// What `combine_with` yields: all of `base`, and each candidate of `other`
/// whose key `base` does not hold.
pub open spec fn merged(base: Set<Candidate>, other: Set<Candidate>) -> Set<Candidate> {
    base.union(other.filter(|c: Candidate| !has_key(base, c.key@)))
}

/// Heap order holds everywhere except possibly on the edge above position `i`,
/// and the parent of `i` still dominates the children of `i`.
pub open spec fn ordered_except_above(s: Seq<Candidate>, i: int) -> bool {
    &&& forall|p: int, c: int|
        #![trigger s[p], s[c]]
        0 <= p < c < s.len() && is_child(p, c) && c != i ==> s[p].score >= s[c].score
    &&& forall|c: int|
        #![trigger s[c]]
        0 < i && 0 <= c < s.len() && is_child(i, c) ==> s[(i - 1) / 2].score >= s[c].score
}

/// Heap order holds everywhere except possibly on the edges below position `i`,
/// and the parent of `i` still dominates the children of `i`.
pub open spec fn ordered_except_below(s: Seq<Candidate>, i: int) -> bool {
    &&& forall|p: int, c: int|
        #![trigger s[p], s[c]]
        0 <= p < c < s.len() && is_child(p, c) && p != i ==> s[p].score >= s[c].score
    &&& forall|c: int|
        #![trigger s[c]]
        0 < i && 0 <= c < s.len() && is_child(i, c) ==> s[(i - 1) / 2].score >= s[c].score
}

/// `s` with the entries at `a` and `b` exchanged.
pub open spec fn swapped(s: Seq<Candidate>, a: int, b: int) -> Seq<Candidate> {
    s.update(a, s[b]).update(b, s[a])
}

/// Exchanging two entries keeps the set of entries and the distinctness of keys.
proof fn lemma_swap_keeps(s: Seq<Candidate>, a: int, b: int)
    requires
        0 <= a < s.len(),
        0 <= b < s.len(),
    ensures
        swapped(s, a, b).len() == s.len(),
        swapped(s, a, b).to_set() == s.to_set(),
        distinct_keys(s) ==> distinct_keys(swapped(s, a, b)),
{
    let t = swapped(s, a, b);
    assert forall|x: Candidate| t.contains(x) implies s.contains(x) by {
        let i = choose|i: int| 0 <= i < t.len() && t[i] == x;
        if i == b {
            assert(s[a] == x);
        } else if i == a {
            assert(s[b] == x);
        } else {
            assert(s[i] == x);
        }
    }
    assert forall|x: Candidate| s.contains(x) implies t.contains(x) by {
        let i = choose|i: int| 0 <= i < s.len() && s[i] == x;
        if i == a {
            assert(t[b] == x);
        } else if i == b {
            assert(t[a] == x);
        } else {
            assert(t[i] == x);
        }
    }
    assert(t.to_set() =~= s.to_set());
    if distinct_keys(s) {
        assert forall|i: int, j: int|
            0 <= i < t.len() && 0 <= j < t.len() && i != j implies #[trigger] t[i].key@
            != #[trigger] t[j].key@ by {
            let si = if i == a {
                b
            } else if i == b {
                a
            } else {
                i
            };
            let sj = if j == a {
                b
            } else if j == b {
                a
            } else {
                j
            };
            assert(t[i] == s[si]);
            assert(t[j] == s[sj]);
            assert(s[si].key@ != s[sj].key@);
        }
    }
}

/// Scores never increase along `s`.
pub open spec fn non_increasing(s: Seq<Candidate>) -> bool {
    forall|i: int, j: int| #![trigger s[i], s[j]] 0 <= i < j < s.len() ==> s[i].score >= s[j].score
}

/// A sorted array is in heap order.
proof fn lemma_sorted_is_heap(s: Seq<Candidate>)
    requires
        non_increasing(s),
    ensures
        heap_ordered(s),
{
}

/// A key-deduplicated max-heap of candidates, stored as an array-backed binary tree.
pub struct MaxHeap {
    data: Vec<Candidate>,
}

impl View for MaxHeap {
    type V = Set<Candidate>;

    /// The resident candidates.
    closed spec fn view(&self) -> Set<Candidate> {
        self.data@.to_set()
    }
}

proof fn lemma_distinct_no_duplicates(s: Seq<Candidate>)
    requires
        distinct_keys(s),
    ensures
        s.no_duplicates(),
        s.to_set().len() == s.len(),
        s.to_set().finite(),
        unique_keys(s.to_set()),
{
    assert(s.no_duplicates()) by {
        assert forall|i: int, j: int| 0 <= i < s.len() && 0 <= j < s.len() && i != j implies s[i]
            != s[j] by {
            assert(s[i].key@ != s[j].key@);
        }
    }
    s.unique_seq_to_set();
    vstd::seq_lib::seq_to_set_is_finite(s);
}

/// In a heap-ordered array the root scores at least as high as position `i`.
proof fn lemma_root_is_max(s: Seq<Candidate>, i: int)
    requires
        heap_ordered(s),
        0 <= i < s.len(),
    ensures
        s[0].score >= s[i].score,
    decreases i,
{
    if i > 0 {
        let p = (i - 1) / 2;
        assert(is_child(p, i));
        assert(s[p].score >= s[i].score);
        lemma_root_is_max(s, p);
    }
}

impl MaxHeap {
    /// The heap invariant: heap order and at most one candidate per key.
    pub closed spec fn wf(&self) -> bool {
        &&& heap_ordered(self.data@)
        &&& distinct_keys(self.data@)
    }

    /// A well-formed heap is a finite set of candidates with distinct keys.
    pub proof fn lemma_wf(&self)
        requires
            self.wf(),
        ensures
            self@.finite(),
            unique_keys(self@),
    {
        lemma_distinct_no_duplicates(self.data@);
    }

    pub fn new() -> (r: Self)
        ensures
            r.wf(),
            r@ == Set::<Candidate>::empty(),
    {
        let r = MaxHeap { data: Vec::new() };
        assert(r@ =~= Set::<Candidate>::empty());
        r
    }

    /// An empty heap ordered the same way as `self`.
    pub fn new_similar(&self) -> (r: Self)
        ensures
            r.wf(),
            r@ == Set::<Candidate>::empty(),
    {
        Self::new()
    }

    pub fn len(&self) -> (r: usize)
        requires
            self.wf(),
        ensures
            r == self@.len(),
    {
        proof {
            lemma_distinct_no_duplicates(self.data@);
        }
        self.data.len()
    }

    /// Whether a candidate with `item`'s key is resident.
    pub fn in_heap(&self, item: &Candidate) -> (r: bool)
        ensures
            r == has_key(self@, item.key@),
    {
        let mut i: usize = 0;
        while i < self.data.len()
            invariant
                0 <= i <= self.data@.len(),
                forall|j: int| 0 <= j < i ==> #[trigger] self.data@[j].key@ != item.key@,
            decreases self.data@.len() - i,
        {
            if self.data[i].key == item.key {
                assert(self@.contains(self.data@[i as int]));
                return true;
            }
            i += 1;
        }
        assert forall|c: Candidate| #[trigger] self@.contains(c) implies c.key@ != item.key@ by {
            let j = choose|j: int| 0 <= j < self.data@.len() && self.data@[j] == c;
            assert(self.data@[j].key@ != item.key@);
        }
        false
    }

    /// The highest-scoring candidate, if any.
    pub fn peek(&self) -> (r: Option<&Candidate>)
        requires
            self.wf(),
        ensures
            r is None <==> self@.len() == 0,
            r matches Some(c) ==> is_max(*c, self@),
    {
        proof {
            lemma_distinct_no_duplicates(self.data@);
        }
        if self.data.len() == 0 {
            None
        } else {
            proof {
                assert(self@.contains(self.data@[0]));
                assert forall|d: Candidate| #[trigger] self@.contains(d) implies self.data@[0].score
                    >= d.score by {
                    let j = choose|j: int| 0 <= j < self.data@.len() && self.data@[j] == d;
                    lemma_root_is_max(self.data@, j);
                }
            }
            Some(&self.data[0])
        }
    }
    /// Number of positions in the backing array.
    pub closed spec fn slots(&self) -> int {
        self.data@.len() as int
    }

    /// Position `index` may score higher than its parent; the rest is in heap order.
    pub closed spec fn swim_ready(&self, index: int) -> bool {
        &&& 0 <= index < self.data@.len()
        &&& distinct_keys(self.data@)
        &&& ordered_except_above(self.data@, index)
    }

    /// Position `index` may score lower than its children; the rest is in heap order.
    pub closed spec fn sink_ready(&self, index: int) -> bool {
        &&& 0 <= index < self.data@.len()
        &&& distinct_keys(self.data@)
        &&& ordered_except_below(self.data@, index)
    }

    /// Moves the candidate at `index` down until heap order is restored.
    pub fn sink(&mut self, index: usize)
        requires
            old(self).sink_ready(index as int),
        ensures
            final(self).wf(),
            final(self)@ == old(self)@,
        decreases old(self).slots() - index,
    {
        if let Some(largest) = self.largest_child(index) {
            if let Order::Smaller = compare(&self.data[index], &self.data[largest]) {
                let ghost s = self.data@;
                self.swap(index, largest);
                proof {
                    lemma_swap_keeps(s, index as int, largest as int);
                    let t = self.data@;
                    let i = index as int;
                    let m = largest as int;
                    assert forall|p: int, c: int|
                        0 <= p < c < t.len() && is_child(p, c) && p != m implies #[trigger] t[p].score
                        >= #[trigger] t[c].score by {
                        if p == i {
                            if c != m {
                                assert(s[m].score >= s[c].score);
                            }
                        } else if c == i {
                            assert(s[(i - 1) / 2].score >= s[m].score);
                        } else {
                            assert(s[p].score >= s[c].score);
                        }
                    }
                    assert forall|c: int| 0 < m && 0 <= c < t.len() && is_child(m, c) implies t[(m
                        - 1) / 2].score >= #[trigger] t[c].score by {
                        assert(s[m].score >= s[c].score);
                    }
                }
                self.sink(largest);
            } else {
                proof {
                    let s = self.data@;
                    let i = index as int;
                    let m = largest as int;
                    assert forall|p: int, c: int|
                        0 <= p < c < s.len() && is_child(p, c) implies #[trigger] s[p].score
                        >= #[trigger] s[c].score by {
                        if p == i {
                            assert(s[m].score >= s[c].score);
                        }
                    }
                }
            }
        } else {
            proof {
                let s = self.data@;
                assert forall|p: int, c: int|
                    0 <= p < c < s.len() && is_child(p, c) implies #[trigger] s[p].score
                    >= #[trigger] s[c].score by {
                    if p == index {
                        assert(false);
                    }
                }
            }
        }
    }

    /// Moves the candidate at `index` up until heap order is restored.
    pub fn swim(&mut self, index: usize)
        requires
            old(self).swim_ready(index as int),
        ensures
            final(self).wf(),
            final(self)@ == old(self)@,
        decreases index,
    {
        if let Some(parent) = self.parent(index) {
            if let Order::Smaller = compare(&self.data[parent], &self.data[index]) {
                let ghost s = self.data@;
                self.swap(parent, index);
                proof {
                    lemma_swap_keeps(s, parent as int, index as int);
                    let t = self.data@;
                    let i = index as int;
                    let q = parent as int;
                    assert(is_child(q, i));
                    assert forall|p: int, c: int|
                        0 <= p < c < t.len() && is_child(p, c) && c != q implies #[trigger] t[p].score
                        >= #[trigger] t[c].score by {
                        if p == q {
                            if c != i {
                                assert(s[q].score >= s[c].score);
                            }
                        } else if p == i {
                            assert(s[(i - 1) / 2].score >= s[c].score);
                        } else {
                            assert(s[p].score >= s[c].score);
                        }
                    }
                    assert forall|c: int| 0 < q && 0 <= c < t.len() && is_child(q, c) implies t[(q
                        - 1) / 2].score >= #[trigger] t[c].score by {
                        let g = (q - 1) / 2;
                        assert(is_child(g, q));
                        assert(s[g].score >= s[q].score);
                        if c != i {
                            assert(s[q].score >= s[c].score);
                        }
                    }
                }
                self.swim(parent);
            } else {
                proof {
                    let s = self.data@;
                    assert forall|p: int, c: int|
                        0 <= p < c < s.len() && is_child(p, c) implies #[trigger] s[p].score
                        >= #[trigger] s[c].score by {
                        if c == index {
                            assert(p == parent);
                        }
                    }
                }
            }
        }
    }

    /// Adds `item` unless a candidate with its key is already resident, in which case
    /// the resident one stays as it is.
    pub fn insert(&mut self, item: Candidate)
        requires
            old(self).wf(),
        ensures
            final(self).wf(),
            has_key(old(self)@, item.key@) ==> final(self)@ == old(self)@,
            !has_key(old(self)@, item.key@) ==> final(self)@ == old(self)@.insert(item),
    {
        if self.in_heap(&item) {
            return;
        }
        let ghost s = self.data@;
        let ghost it = item;
        self.data.push(item);
        proof {
            let t = self.data@;
            assert(t == s.push(it));
            assert forall|j: int| 0 <= j < s.len() implies #[trigger] s[j].key@ != it.key@ by {
                assert(s.to_set().contains(s[j]));
            }
            assert(distinct_keys(t));
            assert forall|c: int| 0 <= c < t.len() implies t[c] == #[trigger] s.push(it)[c] by {}
            s.lemma_push_to_set_commute(it);
        }
        self.swim(self.data.len() - 1);
    }

    /// Removes and returns the highest-scoring candidate; `None` when empty.
    pub fn pop(&mut self) -> (r: Option<Candidate>)
        requires
            old(self).wf(),
        ensures
            final(self).wf(),
            r is None <==> old(self)@.len() == 0,
            r is None ==> final(self)@ == old(self)@,
            r matches Some(c) ==> is_max(c, old(self)@) && final(self)@ == old(self)@.remove(c),
    {
        proof {
            lemma_distinct_no_duplicates(self.data@);
        }
        if self.data.is_empty() {
            return None;
        }
        let ghost s = self.data@;
        let last = self.data.len() - 1;
        self.swap(0, last);
        proof {
            lemma_swap_keeps(s, 0, last as int);
        }
        let result = self.data.pop();
        proof {
            let t = self.data@;
            let top = s[0];
            assert(t =~= swapped(s, 0, last as int).drop_last());
            assert(s.no_duplicates());
            assert forall|x: Candidate| t.contains(x) <==> s.to_set().remove(top).contains(x) by {
                if t.contains(x) {
                    let i = choose|i: int| 0 <= i < t.len() && t[i] == x;
                    if i == 0 {
                        assert(s[last as int] == x);
                        assert(s.contains(x));
                    } else {
                        assert(s[i] == x);
                    }
                }
                if s.to_set().remove(top).contains(x) {
                    let i = choose|i: int| 0 <= i < s.len() && s[i] == x;
                    if i == last {
                        assert(t[0] == x);
                    } else {
                        assert(t[i] == x);
                    }
                }
            }
            assert(t.to_set() =~= s.to_set().remove(top));
            assert forall|d: Candidate| #[trigger] s.to_set().contains(d) implies top.score
                >= d.score by {
                let j = choose|j: int| 0 <= j < s.len() && s[j] == d;
                lemma_root_is_max(s, j);
            }
            assert(distinct_keys(t));
            assert forall|p: int, c: int|
                0 <= p < c < t.len() && is_child(p, c) && p != 0 implies #[trigger] t[p].score
                >= #[trigger] t[c].score by {
                assert(s[p].score >= s[c].score);
            }
        }
        if !self.data.is_empty() {
            self.sink(0);
        }
        result
    }

    fn swap(&mut self, a: usize, b: usize)
        requires
            a < old(self).data@.len(),
            b < old(self).data@.len(),
        ensures
            final(self).data@ == swapped(old(self).data@, a as int, b as int),
    {
        if a == b {
            assert(self.data@ =~= swapped(self.data@, a as int, b as int));
            return;
        }
        let mut hole = Candidate { identity: String::new(), key: String::new(), score: 0 };
        self.data.set_and_swap(a, &mut hole);
        self.data.set_and_swap(b, &mut hole);
        self.data.set_and_swap(a, &mut hole);
    }

    fn parent(&self, index: usize) -> (r: Option<usize>)
        ensures
            index == 0 ==> r is None,
            index > 0 ==> r == Some(((index - 1) / 2) as usize),
    {
        if index == 0 {
            None
        } else {
            let parent = (index - 1) / 2 + 1;
            Some(parent - 1)
        }
    }

    fn largest_child(&self, index: usize) -> (r: Option<usize>)
        ensures
            r is None <==> 2 * index + 1 >= self.data@.len(),
            r matches Some(m) ==> {
                &&& is_child(index as int, m as int)
                &&& m < self.data@.len()
                &&& forall|c: int|
                    0 <= c < self.data@.len() && is_child(index as int, c) ==> self.data@[m as int].score
                        >= #[trigger] self.data@[c].score
            },
    {
        if index >= self.data.len() / 2 {
            return None;
        }
        let (left, right) = self.children(index);
        if right >= self.data.len() {
            Some(left)
        } else if let Order::Greater = compare(&self.data[left], &self.data[right]) {
            Some(left)
        } else {
            Some(right)
        }
    }

    fn children(&self, index: usize) -> (r: (usize, usize))
        requires
            index < usize::MAX / 2,
        ensures
            r.0 == 2 * index + 1,
            r.1 == 2 * index + 2,
    {
        let right_child = (index + 1) * 2;
        (right_child - 1, right_child)
    }
    /// Removes the `amount` highest-scoring candidates (all of them when fewer are
    /// resident) by repeated `pop`, and returns them best first.
    pub fn pop_many(&mut self, amount: usize) -> (r: Vec<Candidate>)
        requires
            old(self).wf(),
        ensures
            final(self).wf(),
            r@.len() == if amount < old(self)@.len() {
                amount as int
            } else {
                old(self)@.len() as int
            },
            non_increasing(r@),
            distinct_keys(r@),
            forall|i: int| 0 <= i < r@.len() ==> old(self)@.contains(#[trigger] r@[i]),
            final(self)@ == old(self)@.difference(r@.to_set()),
            dominates(r@.to_set(), final(self)@),
    {
        let ghost start = self@;
        proof {
            self.lemma_wf();
            lemma_distinct_no_duplicates(self.data@);
        }
        let mut result: Vec<Candidate> = Vec::new();
        loop
            invariant
                self.wf(),
                start.finite(),
                unique_keys(start),
                result@.len() <= amount,
                result@.len() + self@.len() == start.len(),
                non_increasing(result@),
                distinct_keys(result@),
                forall|i: int| 0 <= i < result@.len() ==> start.contains(#[trigger] result@[i]),
                self@ == start.difference(result@.to_set()),
                dominates(result@.to_set(), self@),
            ensures
                self.wf(),
                result@.len() == if amount < start.len() {
                    amount as int
                } else {
                    start.len() as int
                },
                non_increasing(result@),
                distinct_keys(result@),
                forall|i: int| 0 <= i < result@.len() ==> start.contains(#[trigger] result@[i]),
                self@ == start.difference(result@.to_set()),
                dominates(result@.to_set(), self@),
            decreases amount - result@.len(),
        {
            if result.len() >= amount {
                break;
            }
            proof {
                self.lemma_wf();
            }
            let ghost pre = self@;
            match self.pop() {
                None => {
                    break;
                },
                Some(c) => {
                    let ghost before = result@;
                    let ghost rest = self@;
                    proof {
                        assert(!before.to_set().contains(c)) by {
                            assert(start.difference(before.to_set()).contains(c));
                        }
                        assert forall|i: int| 0 <= i < before.len() implies #[trigger] before[i].key@
                            != c.key@ by {
                            assert(before.to_set().contains(before[i]));
                            if before[i].key@ == c.key@ {
                                assert(start.contains(c));
                            }
                        }
                    }
                    result.push(c);
                    proof {
                        let now = result@;
                        assert(now == before.push(c));
                        before.lemma_push_to_set_commute(c);
                        assert(now.to_set() == before.to_set().insert(c));
                        assert(self@ =~= start.difference(now.to_set()));
                        assert forall|i: int, j: int| 0 <= i < j < now.len() implies #[trigger] now[i].score
                            >= #[trigger] now[j].score by {
                            if j == now.len() - 1 {
                                assert(before.to_set().contains(before[i]));
                                assert(pre.contains(c));
                            } else {
                                assert(now[i] == before[i] && now[j] == before[j]);
                            }
                        }
                        assert forall|i: int, j: int|
                            0 <= i < now.len() && 0 <= j < now.len() && i != j implies #[trigger] now[i].key@
                            != #[trigger] now[j].key@ by {
                            if i == now.len() - 1 {
                                assert(before[j].key@ != c.key@);
                            } else if j == now.len() - 1 {
                                assert(before[i].key@ != c.key@);
                            } else {
                                assert(now[i] == before[i] && now[j] == before[j]);
                            }
                        }
                        assert forall|a: Candidate, b: Candidate|
                            now.to_set().contains(a) && self@.contains(b) implies a.score >= b.score by {
                            assert(pre.contains(b));
                            if a != c {
                                assert(before.to_set().contains(a));
                            }
                        }
                        lemma_distinct_no_duplicates(self.data@);
                    }
                },
            }
        }
        result
    }

    fn copy_data(&self) -> (r: Vec<Candidate>)
        ensures
            r@ == self.data@,
    {
        let mut r: Vec<Candidate> = Vec::new();
        let mut i: usize = 0;
        while i < self.data.len()
            invariant
                i <= self.data@.len(),
                r@ == self.data@.subrange(0, i as int),
            decreases self.data@.len() - i,
        {
            r.push(self.data[i].duplicate());
            i += 1;
        }
        assert(r@ =~= self.data@);
        r
    }

    /// The resident candidates in storage order, which is not score order.
    pub fn unsorted_iter(&self) -> (r: Vec<Candidate>)
        requires
            self.wf(),
        ensures
            r@.len() == self@.len(),
            r@.to_set() == self@,
            distinct_keys(r@),
    {
        proof {
            lemma_distinct_no_duplicates(self.data@);
        }
        self.copy_data()
    }

    /// A new heap holding every candidate of `self` and every candidate of `other`
    /// whose key `self` does not hold; `self` wins on shared keys.
    pub fn combine_with(&self, other: &MaxHeap) -> (r: Self)
        requires
            self.wf(),
            other.wf(),
        ensures
            r.wf(),
            r@ == merged(self@, other@),
    {
        let mut new_heap = MaxHeap { data: self.copy_data() };
        new_heap.merge_in(other);
        new_heap
    }

    /// Inserts every candidate of `other` in turn, which is what `combine_with`
    /// does, without copying `self` first.
    pub fn merge_in(&mut self, other: &MaxHeap)
        requires
            old(self).wf(),
            other.wf(),
        ensures
            final(self).wf(),
            final(self)@ == merged(old(self)@, other@),
    {
        let ghost base = self@;
        let items = other.unsorted_iter();
        let mut i: usize = 0;
        while i < items.len()
            invariant
                self.wf(),
                i <= items@.len(),
                distinct_keys(items@),
                items@.to_set() == other@,
                self@ == merged(base, items@.subrange(0, i as int).to_set()),
            decreases items@.len() - i,
        {
            let ghost before = self@;
            let ghost c = items@[i as int];
            let ghost done = items@.subrange(0, i as int);
            let ghost next = items@.subrange(0, i + 1 as int);
            proof {
                assert(next == done.push(c));
                done.lemma_push_to_set_commute(c);
            }
            self.insert(items[i].duplicate());
            proof {
                if has_key(before, c.key@) {
                    if !has_key(base, c.key@) {
                        let d = choose|d: Candidate| #[trigger] before.contains(d) && d.key@ == c.key@;
                        assert(done.to_set().contains(d));
                        let j = choose|j: int| 0 <= j < done.len() && done[j] == d;
                        assert(items@[j] == d);
                        assert(items@[j].key@ != items@[i as int].key@);
                    }
                    assert(self@ =~= merged(base, next.to_set()));
                } else {
                    assert(!has_key(base, c.key@)) by {
                        if has_key(base, c.key@) {
                            let d = choose|d: Candidate| #[trigger] base.contains(d) && d.key@ == c.key@;
                            assert(before.contains(d));
                        }
                    }
                    assert(self@ =~= merged(base, next.to_set()));
                }
            }
            i += 1;
        }
        assert(items@.subrange(0, items@.len() as int) == items@);
    }

    /// Keeps only the `size` highest-scoring candidates.
    ///
    /// The survivors are taken by repeated `pop`, never by cutting the backing array,
    /// since only the root of the array is known to be maximal.
    pub fn truncate(&mut self, size: usize)
        requires
            old(self).wf(),
        ensures
            final(self).wf(),
            old(self)@.len() <= size ==> final(self)@ == old(self)@,
            old(self)@.len() > size ==> {
                &&& final(self)@.subset_of(old(self)@)
                &&& final(self)@.len() == size
                &&& dominates(final(self)@, old(self)@.difference(final(self)@))
            },
    {
        if self.len() <= size {
            return;
        }
        let ghost start = self@;
        let top = self.pop_many(size);
        proof {
            lemma_distinct_no_duplicates(top@);
            lemma_sorted_is_heap(top@);
        }
        self.data = top;
        proof {
            assert(start.difference(self@) =~= start.difference(top@.to_set()));
        }
    }

    /// Combining a frontier with itself yields the same resident keys and scores:
    /// every candidate of `other` is dropped because `self` already holds its key.
    pub proof fn lemma_combine_with_itself(h: &MaxHeap)
        requires
            h.wf(),
        ensures
            merged(h@, h@) == h@,
    {
        assert forall|c: Candidate| h@.contains(c) implies has_key(h@, c.key@) by {}
        assert(merged(h@, h@) =~= h@);
    }
}

} // verus!
