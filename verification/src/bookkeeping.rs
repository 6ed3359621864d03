//! Shared per-run bookkeeping of the search algorithms: the visited set, the
//! best-known-cost map of the cost-aware searches, and the parent map used
//! for root-to-goal path reconstruction.
//!
//! All three are association vectors rather than hash structures, so that
//! every operation carries a full functional contract.

use vstd::prelude::*;
use crate::graph::node_eq_facts;
use crate::graph::Graph;
use crate::graph::WeightedGraph;
use crate::graph::connects;
use crate::graph::is_walk;
use crate::graph::walk_cost;
use crate::graph::lemma_walk_cost_prefix_extend;
use crate::heapelement::HeapElement;

verus! {

/// The set of nodes already discovered in the current run.
///
/// Stored as a duplicate-free vector; its length is therefore the number of
/// distinct nodes visited.
pub struct VisitedSet<N> {
    items: Vec<N>,
}

impl<N: Copy + PartialEq + Eq> VisitedSet<N> {
    /// The distinct nodes, in discovery order.
    pub closed spec fn view(&self) -> Seq<N> {
        self.items@
    }

    pub closed spec fn wf(&self) -> bool {
        self.items@.no_duplicates()
    }

    /// The visited nodes as a set.
    pub open spec fn as_set(&self) -> Set<N> {
        self@.to_set()
    }

    pub fn new() -> (r: Self)
        ensures
            r@ == Seq::<N>::empty(),
            r.wf(),
    {
        VisitedSet { items: Vec::new() }
    }

    pub fn len(&self) -> (r: usize)
        requires
            self.wf(),
        ensures
            r == self.as_set().len(),
            r == self@.len(),
    {
        proof {
            self.items@.unique_seq_to_set();
        }
        self.items.len()
    }

    /// The visited set is finite and no larger than its vector.
    pub proof fn lemma_card(&self)
        requires
            self.wf(),
        ensures
            self.as_set().finite(),
            self.as_set().len() == self@.len(),
    {
        vstd::seq_lib::seq_to_set_is_finite::<N>(self.items@);
        self.items@.unique_seq_to_set();
    }

    pub fn contains(&self, x: N) -> (r: bool)
        requires
            node_eq_facts::<N>(),
        ensures
            r == self@.contains(x),
            r == self.as_set().contains(x),
    {
        let n = self.items.len();
        let mut i: usize = 0;
        while i < n
            invariant
                node_eq_facts::<N>(),
                n == self.items@.len(),
                0 <= i <= n,
                forall|j: int| 0 <= j < i ==> self.items@[j] != x,
            decreases n - i,
        {
            if self.items[i] == x {
                return true;
            }
            i = i + 1;
        }
        false
    }

    /// Record a newly discovered node.
    pub fn insert(&mut self, x: N)
        requires
            old(self).wf(),
            !old(self)@.contains(x),
        ensures
            final(self).wf(),
            final(self)@ == old(self)@.push(x),
            final(self).as_set() == old(self).as_set().insert(x),
    {
        self.items.push(x);
        proof {
            old(self)@.lemma_push_to_set_commute(x);
        }
    }
}

/// The association-vector entries `s`, read as a map from key to value.
/// A later entry for the same key overrides an earlier one.
pub open spec fn assoc_map<N>(s: Seq<(N, i64)>) -> Map<N, int>
    decreases s.len(),
{
    if s.len() == 0 {
        Map::empty()
    } else {
        assoc_map(s.drop_last()).insert(s.last().0, s.last().1 as int)
    }
}

/// No two entries of `s` carry the same key.
pub open spec fn keys_distinct<N>(s: Seq<(N, i64)>) -> bool {
    forall|i: int, j: int| #![trigger s[i], s[j]] 0 <= i < j < s.len() ==> s[i].0 != s[j].0
}

proof fn lemma_assoc_map_dom<N>(s: Seq<(N, i64)>, n: N)
    ensures
        assoc_map(s).dom().contains(n) <==> exists|i: int| 0 <= i < s.len() && s[i].0 == n,
    decreases s.len(),
{
    if s.len() > 0 {
        lemma_assoc_map_dom(s.drop_last(), n);
        if s.last().0 == n {
            assert(s[s.len() - 1].0 == n);
        } else {
            if exists|i: int| 0 <= i < s.len() && s[i].0 == n {
                let i = choose|i: int| 0 <= i < s.len() && s[i].0 == n;
                assert(s.drop_last()[i] == s[i]);
            }
            if exists|i: int| 0 <= i < s.drop_last().len() && s.drop_last()[i].0 == n {
                let i = choose|i: int| 0 <= i < s.drop_last().len() && s.drop_last()[i].0 == n;
                assert(s[i].0 == n);
            }
        }
    }
}

proof fn lemma_assoc_map_get<N>(s: Seq<(N, i64)>, i: int)
    requires
        keys_distinct(s),
        0 <= i < s.len(),
    ensures
        assoc_map(s).dom().contains(s[i].0),
        assoc_map(s)[s[i].0] == s[i].1 as int,
    decreases s.len(),
{
    if i == s.len() - 1 {
    } else {
        assert(s.drop_last()[i] == s[i]);
        lemma_assoc_map_get(s.drop_last(), i);
        assert(s.last() == s[s.len() - 1]);
        assert(s.last().0 != s[i].0);
    }
}

proof fn lemma_assoc_map_push<N>(s: Seq<(N, i64)>, n: N, v: i64)
    ensures
        assoc_map(s.push((n, v))) == assoc_map(s).insert(n, v as int),
{
    assert(s.push((n, v)).drop_last() =~= s);
    assert(s.push((n, v)).last() == (n, v));
}

proof fn lemma_assoc_map_update<N>(s: Seq<(N, i64)>, i: int, v: i64)
    requires
        keys_distinct(s),
        0 <= i < s.len(),
    ensures
        assoc_map(s.update(i, (s[i].0, v))) == assoc_map(s).insert(s[i].0, v as int),
    decreases s.len(),
{
    let n = s[i].0;
    let t = s.update(i, (n, v));
    if i == s.len() - 1 {
        assert(t.drop_last() =~= s.drop_last());
        assert(t.last() == (n, v));
        assert(assoc_map(t) == assoc_map(s.drop_last()).insert(n, v as int));
        assert(assoc_map(s).insert(n, v as int) =~= assoc_map(s.drop_last()).insert(
            n,
            v as int,
        ));
    } else {
        assert(t.drop_last() =~= s.drop_last().update(i, (n, v)));
        assert(s.drop_last()[i] == s[i]);
        lemma_assoc_map_update(s.drop_last(), i, v);
        assert(t.last() == s.last());
        assert(s.last() == s[s.len() - 1]);
        assert(s.last().0 != n);
        assert(assoc_map(t) == assoc_map(s.drop_last()).insert(n, v as int).insert(
            s.last().0,
            s.last().1 as int,
        ));
        assert(assoc_map(s).insert(n, v as int) =~= assoc_map(s.drop_last()).insert(
            n,
            v as int,
        ).insert(s.last().0, s.last().1 as int));
    }
}

proof fn lemma_assoc_map_len<N>(s: Seq<(N, i64)>)
    requires
        keys_distinct(s),
    ensures
        assoc_map(s).dom().finite(),
        assoc_map(s).dom().len() == s.len(),
    decreases s.len(),
{
    if s.len() > 0 {
        lemma_assoc_map_len(s.drop_last());
        lemma_assoc_map_dom(s.drop_last(), s.last().0);
        assert(s.last() == s[s.len() - 1]);
        assert forall|i: int| 0 <= i < s.drop_last().len() implies s.drop_last()[i].0
            != s.last().0 by {
            assert(s.drop_last()[i] == s[i]);
        }
        assert(!assoc_map(s.drop_last()).dom().contains(s.last().0));
    }
}

/// The best-known cumulative cost from the root to each discovered node,
/// kept by the cost-aware searches.
pub struct CostMap<N> {
    items: Vec<(N, i64)>,
}

impl<N: Copy + PartialEq + Eq> CostMap<N> {
    /// The recorded costs as a map from node to cost.
    pub closed spec fn view(&self) -> Map<N, int> {
        assoc_map(self.items@)
    }

    pub closed spec fn wf(&self) -> bool {
        keys_distinct(self.items@)
    }

    pub fn new() -> (r: Self)
        ensures
            r@ == Map::<N, int>::empty(),
            r.wf(),
    {
        CostMap { items: Vec::new() }
    }

    pub fn len(&self) -> (r: usize)
        requires
            self.wf(),
        ensures
            r == self@.dom().len(),
    {
        proof {
            lemma_assoc_map_len(self.items@);
        }
        self.items.len()
    }

    /// The set of recorded nodes is finite.
    pub proof fn lemma_card(&self)
        requires
            self.wf(),
        ensures
            self@.dom().finite(),
    {
        lemma_assoc_map_len(self.items@);
    }

    /// The cost recorded for `n`, if any.
    pub fn get(&self, n: N) -> (r: Option<i64>)
        requires
            node_eq_facts::<N>(),
            self.wf(),
        ensures
            r is Some <==> self@.dom().contains(n),
            r matches Some(v) ==> self@[n] == v as int,
    {
        let len = self.items.len();
        let mut i: usize = 0;
        while i < len
            invariant
                node_eq_facts::<N>(),
                self.wf(),
                len == self.items@.len(),
                0 <= i <= len,
                forall|j: int| 0 <= j < i ==> self.items@[j].0 != n,
            decreases len - i,
        {
            let e = self.items[i];
            if e.0 == n {
                proof {
                    lemma_assoc_map_get(self.items@, i as int);
                }
                return Some(e.1);
            }
            i = i + 1;
        }
        proof {
            lemma_assoc_map_dom(self.items@, n);
        }
        None
    }

    /// Record `v` as the best known cost of `n`, overriding any earlier one.
    pub fn set(&mut self, n: N, v: i64)
        requires
            node_eq_facts::<N>(),
            old(self).wf(),
        ensures
            final(self).wf(),
            final(self)@ == old(self)@.insert(n, v as int),
    {
        let len = self.items.len();
        let mut i: usize = 0;
        while i < len
            invariant
                node_eq_facts::<N>(),
                self.wf(),
                self == old(self),
                len == self.items@.len(),
                0 <= i <= len,
                forall|j: int| 0 <= j < i ==> self.items@[j].0 != n,
            decreases len - i,
        {
            let e = self.items[i];
            if e.0 == n {
                proof {
                    lemma_assoc_map_update(self.items@, i as int, v);
                }
                self.items[i] = (n, v);
                proof {
                    assert forall|a: int, b: int| #![trigger self.items@[a], self.items@[b]]
                        0 <= a < b < self.items@.len() implies self.items@[a].0
                        != self.items@[b].0 by {
                        assert(old(self).items@[a].0 != old(self).items@[b].0);
                    }
                }
                return ;
            }
            i = i + 1;
        }
        proof {
            lemma_assoc_map_push(self.items@, n, v);
            assert forall|a: int, b: int| #![trigger self.items@.push((n, v))[a], self.items@.push(
                (n, v),
            )[b]] 0 <= a < b < self.items@.push((n, v)).len() implies self.items@.push(
                (n, v),
            )[a].0 != self.items@.push((n, v))[b].0 by {
                if b < self.items@.len() {
                    assert(self.items@[a].0 != self.items@[b].0);
                } else {
                    assert(self.items@[a].0 != n);
                }
            }
        }
        self.items.push((n, v));
    }
}

/// The index of the latest entry of the parent map recorded for child `c`,
/// or `-1` when none was.
pub open spec fn last_entry_for<N>(s: Seq<(N, N)>, c: N) -> int
    decreases s.len(),
{
    if s.len() == 0 {
        -1
    } else if s.last().0 == c {
        s.len() - 1
    } else {
        last_entry_for(s.drop_last(), c)
    }
}

/// Whether the parent map entries `s` record a predecessor for `c`.
pub open spec fn has_parent<N>(s: Seq<(N, N)>, c: N) -> bool {
    last_entry_for(s, c) >= 0
}

/// The predecessor most recently recorded for `c`.
pub open spec fn parent_of<N>(s: Seq<(N, N)>, c: N) -> N {
    s[last_entry_for(s, c)].1
}

pub proof fn lemma_last_entry_bounds<N>(s: Seq<(N, N)>, c: N)
    ensures
        -1 <= last_entry_for(s, c) < s.len(),
        last_entry_for(s, c) >= 0 ==> s[last_entry_for(s, c)].0 == c,
        forall|j: int| last_entry_for(s, c) < j < s.len() ==> s[j].0 != c,
    decreases s.len(),
{
    if s.len() > 0 && s.last().0 != c {
        lemma_last_entry_bounds(s.drop_last(), c);
        assert(s.last() == s[s.len() - 1]);
        assert forall|j: int| last_entry_for(s, c) < j < s.len() implies s[j].0 != c by {
            if j < s.len() - 1 {
                assert(s.drop_last()[j] == s[j]);
            }
        }
    }
}

pub proof fn lemma_last_entry_found<N>(s: Seq<(N, N)>, i: int, c: N)
    requires
        0 <= i < s.len(),
        s[i].0 == c,
        forall|j: int| i < j < s.len() ==> s[j].0 != c,
    ensures
        last_entry_for(s, c) == i,
    decreases s.len(),
{
    if i == s.len() - 1 {
        assert(s.last() == s[s.len() - 1]);
    } else {
        assert(s.last() == s[s.len() - 1]);
        assert(s.last().0 != c);
        assert(s.drop_last()[i] == s[i]);
        assert forall|j: int| i < j < s.drop_last().len() implies s.drop_last()[j].0 != c by {
            assert(s.drop_last()[j] == s[j]);
        }
        lemma_last_entry_found(s.drop_last(), i, c);
    }
}

pub proof fn lemma_last_entry_push<N>(s: Seq<(N, N)>, e: (N, N), c: N)
    ensures
        e.0 == c ==> last_entry_for(s.push(e), c) == s.len(),
        e.0 != c ==> last_entry_for(s.push(e), c) == last_entry_for(s, c),
        e.0 != c && has_parent(s, c) ==> parent_of(s.push(e), c) == parent_of(s, c),
        has_parent(s.push(e), c) <==> e.0 == c || has_parent(s, c),
{
    assert(s.push(e).drop_last() =~= s);
    assert(s.push(e).last() == e);
    if e.0 != c && has_parent(s, c) {
        lemma_last_entry_bounds(s, c);
        assert(s.push(e)[last_entry_for(s, c)] == s[last_entry_for(s, c)]);
    }
}

/// The parent map of a run: for each node discovered through an edge, the
/// node it was discovered (or last improved) from. Entries are appended,
/// never overwritten; the latest entry for a child is the one that counts.
pub struct ParentMap<N> {
    entries: Vec<(N, N)>,
}

impl<N: Copy + PartialEq + Eq> ParentMap<N> {
    /// The recorded `(child, parent)` entries, in recording order.
    pub closed spec fn view(&self) -> Seq<(N, N)> {
        self.entries@
    }

    pub fn new() -> (r: Self)
        ensures
            r@ == Seq::<(N, N)>::empty(),
    {
        ParentMap { entries: Vec::new() }
    }

    /// Record that `c` was reached from `p`.
    pub fn record(&mut self, c: N, p: N)
        ensures
            final(self)@ == old(self)@.push((c, p)),
    {
        self.entries.push((c, p));
    }

    /// The recorded predecessor of `c`, if any.
    pub fn parent(&self, c: N) -> (r: Option<N>)
        requires
            node_eq_facts::<N>(),
        ensures
            r is Some <==> has_parent(self@, c),
            r matches Some(p) ==> p == parent_of(self@, c),
    {
        let len = self.entries.len();
        let mut i: usize = len;
        while i > 0
            invariant
                node_eq_facts::<N>(),
                len == self.entries@.len(),
                0 <= i <= len,
                forall|j: int| i <= j < len ==> self.entries@[j].0 != c,
            decreases i,
        {
            i = i - 1;
            let e = self.entries[i];
            if e.0 == c {
                proof {
                    lemma_last_entry_found(self.entries@, i as int, c);
                }
                return Some(e.1);
            }
        }
        proof {
            lemma_last_entry_bounds(self.entries@, c);
        }
        None
    }
}

/// The parent entries `s` form a well-founded forest over the edges of `g`,
/// rooted at `root`: every recorded child is a graph child of its parent,
/// every parent is itself recorded (or is the root), and `rank` strictly
/// decreases from child to parent, which rules out cycles.
pub open spec fn links_ok<G: Graph>(
    s: Seq<(G::Node, G::Node)>,
    g: G,
    root: G::Node,
    rank: Map<G::Node, int>,
) -> bool {
    forall|c: G::Node| #[trigger] has_parent(s, c) ==> {
        let p = parent_of(s, c);
        &&& c != root
        &&& g.spec_children(p).contains(c)
        &&& (p == root || has_parent(s, p))
        &&& 0 <= rank[p] < rank[c]
    }
}

/// The rank that orders an append-only parent forest: a node recorded later
/// ranks above one recorded earlier, and unrecorded nodes (the root among
/// them) rank lowest. Searches that record each node at most once — after
/// its parent — keep [`links_ok`] with this rank.
pub open spec fn entry_rank<N>(s: Seq<(N, N)>) -> Map<N, int> {
    Map::new(|x: N| true, |x: N| last_entry_for(s, x) + 1)
}

/// Appending an entry for a never-recorded child of a recorded (or root)
/// parent keeps the parent forest well founded under [`entry_rank`].
pub proof fn lemma_links_ok_extend<G: Graph>(
    s: Seq<(G::Node, G::Node)>,
    g: G,
    root: G::Node,
    c: G::Node,
    p: G::Node,
)
    requires
        links_ok(s, g, root, entry_rank(s)),
        !has_parent(s, c),
        c != root,
        g.spec_children(p).contains(c),
        p == root || has_parent(s, p),
        forall|x: G::Node| #[trigger] has_parent(s, x) ==> parent_of(s, x) != c,
    ensures
        links_ok(s.push((c, p)), g, root, entry_rank(s.push((c, p)))),
{
    let t = s.push((c, p));
    assert forall|x: G::Node| #[trigger] has_parent(t, x) implies {
        let q = parent_of(t, x);
        &&& x != root
        &&& g.spec_children(q).contains(x)
        &&& (q == root || has_parent(t, q))
        &&& 0 <= entry_rank(t)[q] < entry_rank(t)[x]
    } by {
        lemma_last_entry_push(s, (c, p), x);
        if x == c {
            assert(parent_of(t, x) == p);
            lemma_last_entry_push(s, (c, p), p);
            lemma_last_entry_bounds(s, p);
            assert(entry_rank(t)[x] == s.len() + 1);
            assert(entry_rank(t)[p] == last_entry_for(s, p) + 1);
        } else {
            assert(has_parent(s, x));
            let q = parent_of(s, x);
            assert(parent_of(t, x) == q);
            lemma_last_entry_push(s, (c, p), q);
            assert(q != c);
            assert(entry_rank(t)[x] == entry_rank(s)[x]);
            assert(entry_rank(t)[q] == entry_rank(s)[q]);
        }
    }
}

/// The measure that bounds walking up the parent forest from `c`.
pub open spec fn rank_from<N>(rank: Map<N, int>, root: N, c: N) -> int {
    if c == root {
        0
    } else {
        rank[c]
    }
}

/// Rebuild the root-to-goal path recorded in a parent map by following
/// predecessors from the goal back to the root and reversing the result.
pub fn rebuild_path<G: Graph>(
    pm: &ParentMap<G::Node>,
    root: G::Node,
    goal: G::Node,
    Ghost(g): Ghost<G>,
    Ghost(rank): Ghost<Map<G::Node, int>>,
) -> (r: Vec<G::Node>)
    requires
        node_eq_facts::<G::Node>(),
        links_ok(pm@, g, root, rank),
        goal == root || has_parent(pm@, goal),
    ensures
        connects(g, r@, root, goal),
        forall|i: int|
            0 <= i < r@.len() - 1 ==> has_parent(pm@, #[trigger] r@[i + 1]) && parent_of(
                pm@,
                r@[i + 1],
            ) == r@[i],
{
    let mut rev: Vec<G::Node> = Vec::new();
    rev.push(goal);
    let mut cur = goal;
    while cur != root
        invariant
            node_eq_facts::<G::Node>(),
            links_ok(pm@, g, root, rank),
            rev@.len() >= 1,
            rev@[0] == goal,
            rev@[rev@.len() - 1] == cur,
            cur == root || has_parent(pm@, cur),
            forall|i: int|
                0 <= i < rev@.len() - 1 ==> (#[trigger] g.spec_children(rev@[i + 1])).contains(
                    rev@[i],
                ),
            forall|i: int|
                0 <= i < rev@.len() - 1 ==> has_parent(pm@, #[trigger] rev@[i]) && parent_of(
                    pm@,
                    rev@[i],
                ) == rev@[i + 1],
        decreases rank_from(rank, root, cur),
    {
        let p = match pm.parent(cur) {
            Some(p) => p,
            None => vstd::pervasive::unreached(),
        };
        rev.push(p);
        cur = p;
    }
    let n = rev.len();
    let mut path: Vec<G::Node> = Vec::new();
    let mut i: usize = n;
    while i > 0
        invariant
            0 <= i <= n,
            n == rev@.len(),
            path@.len() == n - i,
            forall|k: int| 0 <= k < path@.len() ==> path@[k] == rev@[n - 1 - k],
        decreases i,
    {
        i = i - 1;
        path.push(rev[i]);
    }
    proof {
        assert(path@[0] == rev@[n - 1]);
        assert(path@[path@.len() - 1] == rev@[0]);
        assert forall|k: int| 0 <= k < path@.len() - 1 implies (#[trigger] g.spec_children(
            path@[k],
        )).contains(path@[k + 1]) by {
            let j = n - 2 - k;
            assert(path@[k] == rev@[j + 1]);
            assert(path@[k + 1] == rev@[j]);
            assert(g.spec_children(rev@[j + 1]).contains(rev@[j]));
        }
        assert forall|k: int| 0 <= k < path@.len() - 1 implies has_parent(
            pm@,
            #[trigger] path@[k + 1],
        ) && parent_of(pm@, path@[k + 1]) == path@[k] by {
            let j = n - 2 - k;
            assert(path@[k] == rev@[j + 1]);
            assert(path@[k + 1] == rev@[j]);
            assert(has_parent(pm@, rev@[j]) && parent_of(pm@, rev@[j]) == rev@[j + 1]);
        }
    }
    path
}

/// Copy a vector of nodes element by element.
pub fn copy_nodes<N: Copy>(v: &Vec<N>) -> (r: Vec<N>)
    ensures
        r@ == v@,
{
    let mut out: Vec<N> = Vec::new();
    let n = v.len();
    let mut i: usize = 0;
    while i < n
        invariant
            n == v@.len(),
            0 <= i <= n,
            out@ == v@.subrange(0, i as int),
        decreases n - i,
    {
        out.push(v[i]);
        proof {
            assert(out@ =~= v@.subrange(0, i + 1));
        }
        i = i + 1;
    }
    proof {
        assert(v@.subrange(0, n as int) =~= v@);
    }
    out
}

/// Remove and return the frontier element with the smallest key; among equal
/// keys, the one that entered the frontier first.
pub fn pop_min<N>(frontier: &mut Vec<HeapElement<N>>) -> (r: Option<HeapElement<N>>)
    ensures
        old(frontier)@.len() == 0 ==> r is None && final(frontier)@ == old(frontier)@,
        old(frontier)@.len() > 0 ==> (r matches Some(e) && exists|i: int|
            0 <= i < old(frontier)@.len() && old(frontier)@[i] == e && final(frontier)@ == old(
                frontier,
            )@.remove(i)),
        r matches Some(e) ==> forall|j: int|
            0 <= j < old(frontier)@.len() ==> e.cost <= old(frontier)@[j].cost,
{
    let len = frontier.len();
    if len == 0 {
        return None;
    }
    let mut best: usize = 0;
    let mut i: usize = 1;
    while i < len
        invariant
            len == frontier@.len(),
            0 <= best < i <= len,
            forall|j: int| 0 <= j < i ==> frontier@[best as int].cost <= frontier@[j].cost,
        decreases len - i,
    {
        if frontier[i].cost < frontier[best].cost {
            best = i;
        }
        i = i + 1;
    }
    let e = frontier.remove(best);
    proof {
        assert(old(frontier)@[best as int] == e);
        assert(frontier@ == old(frontier)@.remove(best as int));
    }
    Some(e)
}


/// Whether some frontier entry carries node `n`.
pub open spec fn frontier_has<N>(f: Seq<HeapElement<N>>, n: N) -> bool {
    exists|i: int| 0 <= i < f.len() && f[i].node == n
}

/// Removing one entry keeps every other node's entries in the frontier.
pub proof fn lemma_frontier_remove<N>(f: Seq<HeapElement<N>>, i: int, n: N)
    requires
        0 <= i < f.len(),
        frontier_has(f, n),
        f[i].node != n,
    ensures
        frontier_has(f.remove(i), n),
{
    let j = choose|j: int| 0 <= j < f.len() && f[j].node == n;
    if j < i {
        assert(f.remove(i)[j] == f[j]);
    } else {
        assert(f.remove(i)[j - 1] == f[j]);
    }
}

/// The parent entries `s` form a forest over the edges of `g`, rooted at
/// `root`, ordered by recorded cost: a parent ranks strictly below its child
/// by cost, or ties on cost and was then recorded earlier. The cost-aware
/// searches keep this while they relax, since a relaxation records a child
/// at a cost no better than its parent's.
pub open spec fn links_lex<G: Graph>(
    s: Seq<(G::Node, G::Node)>,
    g: G,
    root: G::Node,
    dist: Map<G::Node, int>,
) -> bool {
    forall|c: G::Node| #[trigger] has_parent(s, c) ==> {
        let p = parent_of(s, c);
        &&& c != root
        &&& g.spec_children(p).contains(c)
        &&& dist.dom().contains(c)
        &&& dist.dom().contains(p)
        &&& (p == root || has_parent(s, p))
        &&& (dist[p] < dist[c] || (dist[p] == dist[c] && last_entry_for(s, p) < last_entry_for(
            s,
            c,
        )))
    }
}

/// Recording the relaxation of `c` through `p` at cost `v` keeps the parent
/// forest ordered, provided the relaxation strictly improves `c`'s cost and
/// `v` is no better than `p`'s own cost.
pub proof fn lemma_links_lex_relax<G: Graph>(
    s: Seq<(G::Node, G::Node)>,
    g: G,
    root: G::Node,
    dist: Map<G::Node, int>,
    c: G::Node,
    p: G::Node,
    v: int,
)
    requires
        links_lex(s, g, root, dist),
        c != root,
        g.spec_children(p).contains(c),
        dist.dom().contains(p),
        p != c,
        p == root || has_parent(s, p),
        dist[p] <= v,
        dist.dom().contains(c) ==> v < dist[c],
    ensures
        links_lex(s.push((c, p)), g, root, dist.insert(c, v)),
{
    let t = s.push((c, p));
    let d2 = dist.insert(c, v);
    assert forall|x: G::Node| #[trigger] has_parent(t, x) implies {
        let q = parent_of(t, x);
        &&& x != root
        &&& g.spec_children(q).contains(x)
        &&& d2.dom().contains(x)
        &&& d2.dom().contains(q)
        &&& (q == root || has_parent(t, q))
        &&& (d2[q] < d2[x] || (d2[q] == d2[x] && last_entry_for(t, q) < last_entry_for(t, x)))
    } by {
        lemma_last_entry_push(s, (c, p), x);
        if x == c {
            assert(parent_of(t, x) == p);
            lemma_last_entry_push(s, (c, p), p);
            lemma_last_entry_bounds(s, p);
            assert(last_entry_for(t, c) == s.len());
            assert(last_entry_for(t, p) < s.len());
        } else {
            assert(has_parent(s, x));
            let q = parent_of(s, x);
            assert(parent_of(t, x) == q);
            lemma_last_entry_push(s, (c, p), q);
            lemma_last_entry_bounds(s, q);
            lemma_last_entry_bounds(s, x);
            if q == c {
                // c's cost strictly improved, so the ordering toward x stays
                assert(d2[q] == v);
                assert(v < dist[c]);
            }
        }
    }
}

/// The flat rank that realises the lexicographic cost order of
/// [`links_lex`], for path reconstruction.
pub open spec fn lex_rank<N>(s: Seq<(N, N)>, dist: Map<N, int>) -> Map<N, int> {
    Map::new(|x: N| true, |x: N| dist[x] * (s.len() + 1) + last_entry_for(s, x) + 1)
}

/// An ordered parent forest is well founded under its flat rank.
pub proof fn lemma_links_lex_to_rank<G: Graph>(
    s: Seq<(G::Node, G::Node)>,
    g: G,
    root: G::Node,
    dist: Map<G::Node, int>,
)
    requires
        links_lex(s, g, root, dist),
        forall|k: G::Node| #[trigger] dist.dom().contains(k) ==> dist[k] >= 0,
    ensures
        links_ok(s, g, root, lex_rank(s, dist)),
{
    let rank = lex_rank(s, dist);
    let big = s.len() as int + 1;
    assert forall|c: G::Node| #[trigger] has_parent(s, c) implies {
        let p = parent_of(s, c);
        &&& c != root
        &&& g.spec_children(p).contains(c)
        &&& (p == root || has_parent(s, p))
        &&& 0 <= rank[p] < rank[c]
    } by {
        let p = parent_of(s, c);
        lemma_last_entry_bounds(s, p);
        lemma_last_entry_bounds(s, c);
        let lp = last_entry_for(s, p);
        let lc = last_entry_for(s, c);
        let dp = dist[p];
        let dc = dist[c];
        assert(rank[p] == dp * big + lp + 1);
        assert(rank[c] == dc * big + lc + 1);
        assert(dp * big >= 0) by (nonlinear_arith)
            requires
                dp >= 0,
                big >= 1,
        ;
        if dp < dc {
            assert(dp * big + lp + 1 < dc * big + lc + 1) by (nonlinear_arith)
                requires
                    dp + 1 <= dc,
                    big >= 1,
                    lp <= big - 2,
                    -1 <= lc,
            ;
        }
    }
}

/// A cost map that satisfies the closure the cost-aware searches establish
/// when their frontier runs dry admits no walk to a goal cheaper than the
/// representable maximum: along any cheaper walk, every node would carry a
/// cost no larger than its prefix cost, and would have been goal-tested.
pub proof fn lemma_settled_no_cheap_goal<G: WeightedGraph>(
    g: G,
    dist: Map<G::Node, int>,
    root: G::Node,
    p: Seq<G::Node>,
    m: G::Node,
)
    requires
        dist.dom().contains(root),
        dist[root] == 0,
        forall|a: G::Node, b: G::Node| 0 <= #[trigger] g.spec_edge_weight(a, b),
        forall|k: G::Node| #[trigger] dist.dom().contains(k) ==> !g.spec_is_goal(k),
        forall|k: G::Node, c: G::Node|
            dist.dom().contains(k) && (#[trigger] g.spec_children(k).contains(c)) ==> ((
            dist.dom().contains(c) && dist[c] <= dist[k] + g.spec_edge_weight(k, c))
                || dist[k] + g.spec_edge_weight(k, c) >= i64::MAX),
        connects(g, p, root, m),
        g.spec_is_goal(m),
    ensures
        walk_cost(g, p) >= i64::MAX,
{
    if walk_cost(g, p) < i64::MAX {
        lemma_settled_dist_bound(g, dist, root, p);
    }
}

/// Under the same closure, every walk from the root that costs less than
/// the representable maximum ends at a recorded node, within its cost.
pub proof fn lemma_settled_dist_bound<G: WeightedGraph>(
    g: G,
    dist: Map<G::Node, int>,
    root: G::Node,
    p: Seq<G::Node>,
)
    requires
        dist.dom().contains(root),
        dist[root] == 0,
        forall|a: G::Node, b: G::Node| 0 <= #[trigger] g.spec_edge_weight(a, b),
        forall|k: G::Node, c: G::Node|
            dist.dom().contains(k) && (#[trigger] g.spec_children(k).contains(c)) ==> ((
            dist.dom().contains(c) && dist[c] <= dist[k] + g.spec_edge_weight(k, c))
                || dist[k] + g.spec_edge_weight(k, c) >= i64::MAX),
        is_walk(g, p),
        p[0] == root,
        walk_cost(g, p) < i64::MAX,
    ensures
        dist.dom().contains(p[p.len() - 1]),
        dist[p[p.len() - 1]] <= walk_cost(g, p),
    decreases p.len(),
{
    if p.len() == 1 {
        assert(walk_cost(g, p) == 0);
    } else {
        let q = p.drop_last();
        let i = p.len() - 2;
        assert forall|j: int| 0 <= j < q.len() - 1 implies (#[trigger] g.spec_children(
            q[j],
        )).contains(q[j + 1]) by {
            assert(q[j] == p[j] && q[j + 1] == p[j + 1]);
            assert(g.spec_children(p[j]).contains(p[j + 1]));
        }
        assert(q[0] == root);
        lemma_walk_cost_prefix_extend(g, p, i as int);
        assert(p.subrange(0, p.len() as int) =~= p);
        assert(p.subrange(0, p.len() - 1) =~= q);
        let w = g.spec_edge_weight(p[i], p[i + 1]);
        assert(walk_cost(g, p) == walk_cost(g, q) + w);
        assert(0 <= w);
        assert(walk_cost(g, q) < i64::MAX);
        lemma_settled_dist_bound(g, dist, root, q);
        assert(q[q.len() - 1] == p[i]);
        assert(g.spec_children(p[i]).contains(p[i + 1]));
        if dist[p[i]] + w >= i64::MAX {
            assert(dist[p[i]] <= walk_cost(g, q));
            assert(false);
        }
    }
}

/// The termination potential of a cost-aware search: over a listing of the
/// node universe, each node contributes its recorded cost, or one more than
/// the largest representable cost while undiscovered. Every relaxation
/// strictly shrinks it.
pub open spec fn node_pot<N>(dist: Map<N, int>, n: N) -> int {
    if dist.dom().contains(n) {
        dist[n]
    } else {
        i64::MAX as int + 1
    }
}

/// The sum of [`node_pot`] over a node listing.
pub open spec fn pot_sum<N>(s: Seq<N>, dist: Map<N, int>) -> int
    decreases s.len(),
{
    if s.len() == 0 {
        0
    } else {
        node_pot(dist, s[0]) + pot_sum(s.drop_first(), dist)
    }
}

pub proof fn lemma_pot_sum_nonneg<N>(s: Seq<N>, dist: Map<N, int>)
    requires
        forall|k: N| #[trigger] dist.dom().contains(k) ==> dist[k] >= 0,
    ensures
        pot_sum(s, dist) >= 0,
    decreases s.len(),
{
    if s.len() > 0 {
        lemma_pot_sum_nonneg(s.drop_first(), dist);
    }
}

/// A pointwise-improved cost map has a no-larger potential sum.
pub proof fn lemma_pot_sum_le<N>(s: Seq<N>, d1: Map<N, int>, d2: Map<N, int>)
    requires
        forall|i: int| 0 <= i < s.len() ==> node_pot(d2, #[trigger] s[i]) <= node_pot(d1, s[i]),
    ensures
        pot_sum(s, d2) <= pot_sum(s, d1),
    decreases s.len(),
{
    if s.len() > 0 {
        assert(node_pot(d2, s[0]) <= node_pot(d1, s[0]));
        assert forall|i: int| 0 <= i < s.drop_first().len() implies node_pot(
            d2,
            #[trigger] s.drop_first()[i],
        ) <= node_pot(d1, s.drop_first()[i]) by {
            assert(s.drop_first()[i] == s[i + 1]);
            assert(node_pot(d2, s[i + 1]) <= node_pot(d1, s[i + 1]));
        }
        lemma_pot_sum_le(s.drop_first(), d1, d2);
    }
}

/// A cost map improved pointwise, and strictly at some listed node, has a
/// strictly smaller potential sum.
pub proof fn lemma_pot_sum_lt<N>(s: Seq<N>, d1: Map<N, int>, d2: Map<N, int>, c: N)
    requires
        forall|i: int| 0 <= i < s.len() ==> node_pot(d2, #[trigger] s[i]) <= node_pot(d1, s[i]),
        s.contains(c),
        node_pot(d2, c) < node_pot(d1, c),
    ensures
        pot_sum(s, d2) < pot_sum(s, d1),
    decreases s.len(),
{
    assert forall|i: int| 0 <= i < s.drop_first().len() implies node_pot(
        d2,
        #[trigger] s.drop_first()[i],
    ) <= node_pot(d1, s.drop_first()[i]) by {
        assert(s.drop_first()[i] == s[i + 1]);
        assert(node_pot(d2, s[i + 1]) <= node_pot(d1, s[i + 1]));
    }
    if s[0] == c {
        lemma_pot_sum_le(s.drop_first(), d1, d2);
    } else {
        let j = choose|j: int| 0 <= j < s.len() && s[j] == c;
        assert(s.drop_first()[j - 1] == c);
        lemma_pot_sum_lt(s.drop_first(), d1, d2, c);
    }
}

} // verus!
