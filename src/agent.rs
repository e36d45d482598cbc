use vstd::prelude::*;
use std::collections::HashMap;
use crate::puzzle::{ActionType, GridView, Puzzle, inversion_count, key_of, lemma_step_wf, manhattan, misplaced};
use crate::queue::{CostQueue, queued, queue_new, queue_pop, queue_push, queue_remove};

verus! {

/// A node of the search tree: a state, the move that produced it, its
/// priority, its depth, and its parent's index in the tree.
#[derive(Clone)]
pub struct Path {
    state: Puzzle,
    action: ActionType,
    path_cost: u32,
    depth: u32,
    parent: Option<usize>,
    dropped: bool,
}

impl Path {
    pub fn new(state: Puzzle, action: ActionType, path_cost: u32) -> (r: Path)
        ensures
            r.state() == state,
            r.action() == action,
            r.path_cost() == path_cost,
    {
        Path { state, action, path_cost, depth: 0, parent: None, dropped: false }
    }

    pub closed spec fn state(&self) -> Puzzle {
        self.state
    }

    pub closed spec fn action(&self) -> ActionType {
        self.action
    }

    pub closed spec fn path_cost(&self) -> u32 {
        self.path_cost
    }
}

/// A path of states found by a search, from the goal back to the initial
/// state, and the number of moves along it.
pub struct Solution {
    pub state_path: Vec<Puzzle>,
    pub steps: u32,
}

/// How a successor's priority is formed from its heuristic value.
#[derive(Clone, Copy, PartialEq, Eq, Structural, Debug)]
pub enum SearchStrategy {
    /// The heuristic value alone.
    BestFirst,
    /// The heuristic value plus the successor's depth.
    AStar,
}

/// The distance estimate used to rank states.
#[derive(Clone, Copy, PartialEq, Eq, Structural, Debug)]
pub enum Heuristic {
    Misplaced,
    OrthoDistance,
    Inversions,
}

/// What one search step did.
pub enum StepOutcome {
    /// The frontier was empty; nothing changed.
    Empty,
    /// A node holding the goal was popped; the path to it.
    Goal(Solution),
    /// A node was popped, marked expanded, and its successors offered.
    Expanded,
}

/// How a search ended.
pub enum SearchOutcome {
    /// The goal was popped from the frontier.
    Solved(Solution),
    /// The frontier ran empty.
    Exhausted,
    /// The iteration budget ran out first.
    BudgetExceeded,
}

impl SearchStrategy {
    pub fn to_string(&self) -> (r: String)
        ensures
            r@ == (match self {
                SearchStrategy::BestFirst => "Best First"@,
                SearchStrategy::AStar => "AStar"@,
            }),
    {
        match self {
            SearchStrategy::BestFirst => "Best First".to_string(),
            SearchStrategy::AStar => "AStar".to_string(),
        }
    }
}

impl Heuristic {
    pub fn to_string(&self) -> (r: String)
        ensures
            r@ == (match self {
                Heuristic::Misplaced => "Misplaced"@,
                Heuristic::OrthoDistance => "Orthogonal Distance"@,
                Heuristic::Inversions => "Inversions"@,
            }),
    {
        match self {
            Heuristic::Misplaced => "Misplaced".to_string(),
            Heuristic::OrthoDistance => "Orthogonal Distance".to_string(),
            Heuristic::Inversions => "Inversions".to_string(),
        }
    }
}

/// The value of heuristic `h` for grid `s` against goal `g`.
pub open spec fn heuristic_value(s: GridView, g: GridView, h: Heuristic) -> int {
    match h {
        Heuristic::Misplaced => misplaced(s.tiles, g.tiles),
        Heuristic::OrthoDistance => manhattan(s.tiles, g.tiles, s.cols),
        Heuristic::Inversions => inversion_count(s.tiles),
    }
}

/// The priority of a successor at `depth` whose heuristic value is `h`,
/// capped at `u32::MAX`.
pub open spec fn priority(strategy: SearchStrategy, h: int, depth: int) -> int {
    match strategy {
        SearchStrategy::BestFirst => h,
        SearchStrategy::AStar => if h + depth > u32::MAX {
            u32::MAX as int
        } else {
            h + depth
        },
    }
}

/// `b` is `a` after one move in one of the four directions.
pub open spec fn one_move(a: GridView, b: GridView) -> bool {
    exists|m: ActionType| m != ActionType::NoMove && #[trigger] a.step(m) == b
}

/// The states of `s` have pairwise different arrangements.
pub open spec fn distinct_states(s: Seq<Puzzle>) -> bool {
    forall|i: int, j: int| 0 <= i < j < s.len() ==> (#[trigger] s[i])@.tiles != (#[trigger] s[j])@.tiles
}

/// `s` leads from the goal back to `initial`, one move per link.
pub open spec fn is_solution_path(s: Seq<Puzzle>, initial: GridView, goal: GridView) -> bool {
    &&& s.len() >= 1
    &&& s[0]@.tiles == goal.tiles
    &&& s[s.len() - 1]@ == initial
    &&& forall|i: int| 0 <= i < s.len() ==> (#[trigger] s[i]).wf()
    &&& forall|i: int| 0 <= i < s.len() - 1 ==> one_move(#[trigger] s[i + 1]@, s[i]@)
}

/// The heuristic value of `state` against `goal`.
pub fn get_heuristic(state: &Puzzle, goal: &Puzzle, heuristic: Heuristic) -> (r: u32)
    requires
        state.wf(),
        goal.wf(),
        state@.rows == goal@.rows,
        state@.cols == goal@.cols,
    ensures
        r == heuristic_value(state@, goal@, heuristic),
{
    match heuristic {
        Heuristic::Misplaced => state.heuristic_misplaced(goal) as u32,
        Heuristic::OrthoDistance => state.heuristic_distances(goal),
        Heuristic::Inversions => state.inversions(),
    }
}

/// Every node id held in the buckets of `m` is below `n`.
pub open spec fn ids_below(m: Map<u64, Vec<usize>>, n: int) -> bool {
    forall|key: u64, i: int|
        #![trigger m[key]@[i]]
        m.contains_key(key) && 0 <= i < m[key]@.len() ==> m[key]@[i] < n
}

/// Node `k` of tree `t` holds a well-formed grid of the goal's size and, but
/// for the root, lies one move below an earlier node.
pub closed spec fn node_ok(t: Seq<Path>, g: GridView, k: int) -> bool {
    &&& t[k].state.wf()
    &&& t[k].state@.rows == g.rows
    &&& t[k].state@.cols == g.cols
    &&& k > 0 ==> {
        &&& t[k].parent matches Some(p)
        &&& p < k
        &&& t[k].state@ == t[p as int].state@.step(t[k].action)
        &&& t[k].action != ActionType::NoMove
        &&& t[k].depth == t[p as int].depth + 1
    }
}

/// `b` keeps every node of `a` with its state, parent, move, depth and cost.
pub open spec fn keeps_nodes(a: Agent, b: Agent) -> bool {
    &&& a.node_count() <= b.node_count()
    &&& forall|k: int|
        0 <= k < a.node_count() ==> {
            &&& #[trigger] b.node_state(k) == a.node_state(k)
            &&& b.node_parent(k) == a.node_parent(k)
            &&& b.node_action(k) == a.node_action(k)
            &&& b.node_depth(k) == a.node_depth(k)
            &&& b.node_cost(k) == a.node_cost(k)
        }
}

/// `b` is `a` with one more node: state `s`, reached from node `p` by move
/// `m`, at cost `c`.
pub open spec fn added_child(a: Agent, b: Agent, p: usize, m: ActionType, s: GridView, c: int) -> bool {
    let n = a.node_count() as int;
    &&& b.node_count() == n + 1
    &&& b.node_state(n) == s
    &&& b.node_parent(n) == Some(p)
    &&& b.node_action(n) == m
    &&& b.node_depth(n) == a.node_depth(p as int) + 1
    &&& b.node_cost(n) == c
    &&& !b.node_dropped(n)
}

/// `b` is `a` after the successor of node `p` by move `m` is offered to the
/// frontier at its priority: a node at the greatest depth a `u32` holds, or
/// an expanded arrangement, changes nothing; an arrangement neither pending
/// nor expanded is inserted; a pending one is replaced only when the new
/// priority is strictly lower.
pub open spec fn offered(
    a: Agent,
    b: Agent,
    p: usize,
    m: ActionType,
    strategy: SearchStrategy,
    h: Heuristic,
) -> bool {
    let s = a.node_state(p as int).step(m);
    let c = priority(strategy, heuristic_value(s, a.goal_state(), h), a.node_depth(p as int) + 1);
    let n = a.node_count() as usize;
    &&& b.wf()
    &&& b.initial() == a.initial()
    &&& b.goal_state() == a.goal_state()
    &&& b.expanded() == a.expanded()
    &&& b.popped() == a.popped()
    &&& keeps_nodes(a, b)
    &&& if a.node_depth(p as int) >= u32::MAX || a.has_explored(s.tiles) {
        b.frontier() == a.frontier() && b.node_count() == a.node_count()
    } else if !a.has_pending(s.tiles) {
        b.frontier() == a.frontier().insert(n, c as u32) && added_child(a, b, p, m, s, c)
    } else {
        forall|q: usize|
            #[trigger] a.frontier().contains_key(q) && a.node_state(q as int).tiles == s.tiles ==> if c
                < a.frontier()[q] {
                &&& b.frontier() == a.frontier().remove(q).insert(n, c as u32)
                &&& added_child(a, b, p, m, s, c)
                &&& b.node_dropped(q as int)
            } else {
                b.frontier() == a.frontier() && b.node_count() == a.node_count()
            }
    }
}

/// `b` is `a` with a least-cost pending node `p` taken off the frontier and
/// appended to the pop log; every node is kept.
pub open spec fn popped_to(a: Agent, b: Agent, p: usize) -> bool {
    &&& a.frontier().contains_key(p)
    &&& forall|k: usize|
        #[trigger] a.frontier().contains_key(k) ==> a.frontier()[p] <= a.frontier()[k]
    &&& b.frontier() == a.frontier().remove(p)
    &&& b.popped() == a.popped().push(p)
    &&& keeps_nodes(a, b)
    &&& b.node_count() == a.node_count()
    &&& b.initial() == a.initial()
    &&& b.goal_state() == a.goal_state()
    &&& b.wf()
}

/// `b` is `a` after a step that pops node `p`, which does not hold the goal,
/// marks it expanded, and offers its successors by Up, Down, Left and Right,
/// in that order.
pub open spec fn expanded_step(
    a: Agent,
    b: Agent,
    p: usize,
    strategy: SearchStrategy,
    h: Heuristic,
) -> bool {
    exists|m0: Agent, a1: Agent, a2: Agent, a3: Agent|
        #![trigger offered(m0, a1, p, ActionType::Up, strategy, h), offered(a2, a3, p, ActionType::Left, strategy, h)]
        {
            &&& popped_to(a, m0, p)
            &&& a.node_state(p as int).tiles != a.goal_state().tiles
            &&& m0.is_expanded(p)
            &&& forall|k: u64, j: usize|
                #[trigger] filed(m0.expanded(), k, j) <==> filed(a.expanded(), k, j) || (k as int
                    == key_of(a.node_state(p as int).tiles) && j == p)
            &&& offered(m0, a1, p, ActionType::Up, strategy, h)
            &&& offered(a1, a2, p, ActionType::Down, strategy, h)
            &&& offered(a2, a3, p, ActionType::Left, strategy, h)
            &&& offered(a3, b, p, ActionType::Right, strategy, h)
        }
}

/// `b` is `a` after a step that pops node `p`, whose arrangement is the
/// goal's; `sol` is the path from `p` back to the root.
pub open spec fn goal_step(a: Agent, b: Agent, p: usize, sol: Solution) -> bool {
    &&& popped_to(a, b, p)
    &&& b.expanded() == a.expanded()
    &&& a.node_state(p as int).tiles == a.goal_state().tiles
    &&& sol.steps == b.node_depth(p as int)
    &&& sol.state_path@.len() == sol.steps + 1
    &&& forall|i: int|
        0 <= i < sol.state_path@.len() ==> #[trigger] sol.state_path@[i]@ == b.node_state(
            b.ancestor(p as int, i as nat),
        )
    &&& is_solution_path(sol.state_path@, a.initial(), a.goal_state())
    &&& distinct_states(sol.state_path@)
}

/// `b` is `a` unchanged but for the frontier's storage.
pub open spec fn idle(a: Agent, b: Agent) -> bool {
    &&& b.wf()
    &&& b.frontier() == a.frontier()
    &&& keeps_nodes(a, b)
    &&& b.node_count() == a.node_count()
    &&& b.expanded() == a.expanded()
    &&& b.popped() == a.popped()
    &&& b.initial() == a.initial()
    &&& b.goal_state() == a.goal_state()
}

/// `chain` is a run of `ps.len()` expanding steps: step `i` pops node
/// `ps[i]` and leads from `chain[i]` to `chain[i + 1]`.
pub open spec fn is_run(chain: Seq<Agent>, ps: Seq<usize>, strategy: SearchStrategy, h: Heuristic) -> bool {
    &&& chain.len() == ps.len() + 1
    &&& forall|i: int|
        0 <= i < ps.len() ==> #[trigger] expanded_step(chain[i], chain[i + 1], ps[i], strategy, h)
}

/// `b` is `a` after `k` expanding steps.
pub open spec fn run_of(a: Agent, b: Agent, k: nat, strategy: SearchStrategy, h: Heuristic) -> bool {
    exists|chain: Seq<Agent>, ps: Seq<usize>|
        #[trigger] is_run(chain, ps, strategy, h) && ps.len() == k && chain[0] == a && chain[k as int]
            == b
}

/// A search agent: the tree of discovered states, the frontier of states
/// awaiting expansion, and the states already expanded.
pub struct Agent {
    tree: Vec<Path>,
    frontier_prique: CostQueue,
    frontier_hmap: HashMap<u64, Vec<usize>>,
    explored_hmap: HashMap<u64, Vec<usize>>,
    goal: Puzzle,
    popped: Ghost<Seq<usize>>,
}

/// Id `j` is filed in the bucket of `key` in `m`.
pub open spec fn filed(m: Map<u64, Vec<usize>>, key: u64, j: usize) -> bool {
    m.contains_key(key) && m[key]@.contains(j)
}

/// Looks in the bucket of `key` for a node of `tree` whose state has the
/// arrangement of `state`.
fn bucket_find(m: &HashMap<u64, Vec<usize>>, tree: &Vec<Path>, state: &Puzzle, key: u64) -> (r:
    Option<usize>)
    requires
        ids_below(m@, tree@.len() as int),
    ensures
        r matches Some(id) ==> id < tree@.len() && tree@[id as int].state@.tiles == state@.tiles
            && filed(m@, key, id),
        r is None ==> forall|j: usize|
            #[trigger] filed(m@, key, j) ==> tree@[j as int].state@.tiles != state@.tiles,
{
    match m.get(&key) {
        None => None,
        Some(bucket) => {
            let mut i: usize = 0;
            while i < bucket.len()
                invariant
                    m@.contains_key(key),
                    m@[key] == *bucket,
                    ids_below(m@, tree@.len() as int),
                    forall|a: int|
                        0 <= a < i ==> tree@[bucket@[a] as int].state@.tiles != state@.tiles,
                decreases bucket@.len() - i,
            {
                let id = bucket[i];
                assert(id == m@[key]@[i as int]);
                if tree[id].state.is_goal(state) {
                    return Some(id);
                }
                i = i + 1;
            }
            None
        },
    }
}

/// Adds `id` to the bucket of `key`.
fn bucket_insert(m: &mut HashMap<u64, Vec<usize>>, key: u64, id: usize, n: Ghost<int>)
    requires
        ids_below(old(m)@, n@),
        id < n@,
    ensures
        ids_below(final(m)@, n@),
        filed(final(m)@, key, id),
        forall|k: u64, j: usize|
            #[trigger] filed(final(m)@, k, j) <==> filed(old(m)@, k, j) || (k == key && j == id),
{
    let mut bucket = match m.remove(&key) {
        Some(b) => b,
        None => Vec::new(),
    };
    let ghost old_bucket = bucket@;
    proof {
        assert forall|i: int| 0 <= i < bucket@.len() implies bucket@[i] < n@ by {
            assert(old(m)@[key]@[i] < n@);
        }
    }
    bucket.push(id);
    let ghost b = bucket;
    m.insert(key, bucket);
    assert(final(m)@[key]@[b@.len() - 1] == id);
    assert forall|k: u64, j: usize|
        #[trigger] filed(final(m)@, k, j) <==> filed(old(m)@, k, j) || (k == key && j == id) by {
        if k == key {
            if filed(final(m)@, k, j) && j != id {
                let i = choose|i: int| 0 <= i < b@.len() && b@[i] == j;
                assert(old_bucket[i] == j);
            }
            if filed(old(m)@, k, j) {
                let i = choose|i: int| 0 <= i < old_bucket.len() && old_bucket[i] == j;
                assert(b@[i] == j);
            }
        }
    }
}

/// Takes `id` out of the bucket of `key`.
fn bucket_remove(m: &mut HashMap<u64, Vec<usize>>, key: u64, id: usize, n: Ghost<int>)
    requires
        ids_below(old(m)@, n@),
    ensures
        ids_below(final(m)@, n@),
        forall|k: u64, j: usize|
            #[trigger] filed(final(m)@, k, j) <==> filed(old(m)@, k, j) && !(k == key && j == id),
{
    match m.remove(&key) {
        None => {},
        Some(bucket) => {
            let mut kept: Vec<usize> = Vec::new();
            let mut i: usize = 0;
            while i < bucket.len()
                invariant
                    i <= bucket@.len(),
                    forall|j: int| 0 <= j < bucket@.len() ==> bucket@[j] < n@,
                    forall|j: int| 0 <= j < kept@.len() ==> kept@[j] < n@,
                    forall|j: usize|
                        kept@.contains(j) <==> j != id && exists|a: int|
                            0 <= a < i && #[trigger] bucket@[a] == j,
                decreases bucket@.len() - i,
            {
                let ghost before = kept@;
                if bucket[i] != id {
                    kept.push(bucket[i]);
                }
                proof {
                    assert forall|j: usize|
                        kept@.contains(j) <==> j != id && exists|a: int|
                            0 <= a < i + 1 && #[trigger] bucket@[a] == j by {
                        if kept@.contains(j) {
                            let c = choose|c: int| 0 <= c < kept@.len() && kept@[c] == j;
                            if c < before.len() {
                                assert(before[c] == j);
                                assert(before.contains(j));
                            } else {
                                assert(bucket@[i as int] == j);
                            }
                        }
                        if j != id && exists|a: int| 0 <= a < i + 1 && #[trigger] bucket@[a] == j {
                            let a = choose|a: int| 0 <= a < i + 1 && #[trigger] bucket@[a] == j;
                            if a < i {
                                assert(before.contains(j));
                                let c = choose|c: int| 0 <= c < before.len() && before[c] == j;
                                assert(kept@[c] == j);
                            } else {
                                assert(kept@[kept@.len() - 1] == j);
                            }
                        }
                    }
                }
                i = i + 1;
            }
            let ghost kept_view = kept@;
            if kept.len() > 0 {
                m.insert(key, kept);
            }
            assert forall|k: u64, j: usize|
                #[trigger] filed(final(m)@, k, j) <==> filed(old(m)@, k, j) && !(k == key && j
                    == id) by {
                if k == key {
                    if filed(old(m)@, k, j) && j != id {
                        let a = choose|a: int| 0 <= a < bucket@.len() && bucket@[a] == j;
                        assert(kept_view.contains(j));
                    }
                    if kept_view.contains(j) {
                        let a = choose|a: int| 0 <= a < i && #[trigger] bucket@[a] == j;
                        assert(old(m)@[key]@[a] == j);
                    }
                }
            }
        },
    }
}

impl Agent {
    /// The tree links each node to its parent by one move and the frontier and
    /// both indexes refer to nodes of the tree.
    pub closed spec fn wf(&self) -> bool {
        let t = self.tree@;
        &&& self.goal.wf()
        &&& t.len() >= 1
        &&& t[0].parent is None
        &&& t[0].depth == 0
        &&& forall|k: int| 0 <= k < t.len() ==> node_ok(t, self.goal@, k)
        &&& forall|id: usize| #[trigger]
            queued(self.frontier_prique).contains_key(id) ==> {
                &&& id < t.len()
                &&& queued(self.frontier_prique)[id] == t[id as int].path_cost
                &&& filed(self.frontier_hmap@, key_of(t[id as int].state@.tiles) as u64, id)
            }
        &&& forall|k: u64, j: usize| #[trigger]
            filed(self.frontier_hmap@, k, j) ==> queued(self.frontier_prique).contains_key(j) && k
                as int == key_of(t[j as int].state@.tiles)
        &&& forall|i: usize, j: usize|
            #[trigger] queued(self.frontier_prique).contains_key(i) && #[trigger] queued(
                self.frontier_prique,
            ).contains_key(j) && i != j ==> t[i as int].state@.tiles != t[j as int].state@.tiles
        &&& ids_below(self.frontier_hmap@, t.len() as int)
        &&& ids_below(self.explored_hmap@, t.len() as int)
        &&& forall|k: u64, j: usize| #[trigger]
            filed(self.explored_hmap@, k, j) ==> k as int == key_of(t[j as int].state@.tiles)
                && !self.has_pending(t[j as int].state@.tiles)
        &&& forall|k: int|
            #![trigger t[k]]
            0 < k < t.len() ==> t[k].parent is Some && self.is_expanded(t[k].parent.unwrap())
        &&& forall|k1: u64, j1: usize, k2: u64, j2: usize|
            #[trigger] filed(self.explored_hmap@, k1, j1) && #[trigger] filed(
                self.explored_hmap@,
                k2,
                j2,
            ) && j1 != j2 ==> t[j1 as int].state@.tiles != t[j2 as int].state@.tiles
    }


    /// Some pending node holds the arrangement `t`.
    pub closed spec fn has_pending(&self, t: Seq<u8>) -> bool {
        exists|j: usize|
            #[trigger] queued(self.frontier_prique).contains_key(j) && self.tree@[j as int].state@.tiles
                == t
    }

    /// Some expanded node holds the arrangement `t`.
    pub closed spec fn has_explored(&self, t: Seq<u8>) -> bool {
        exists|k: u64, j: usize|
            #[trigger] filed(self.explored_hmap@, k, j) && self.tree@[j as int].state@.tiles == t
    }

    /// No arrangement is both pending and expanded.
    pub proof fn lemma_pending_not_expanded(&self, t: Seq<u8>)
        requires
            self.wf(),
            self.has_explored(t),
        ensures
            !self.has_pending(t),
    {
        let (k, j) = choose|k: u64, j: usize|
            #[trigger] filed(self.explored_hmap@, k, j) && self.tree@[j as int].state@.tiles == t;
    }

    /// An expanded node with the arrangement `t` is filed under the key of
    /// `t`, so a search of that bucket that finds none shows there is none.
    proof fn lemma_not_filed_not_explored(&self, t: Seq<u8>, key: u64)
        requires
            self.wf(),
            key as int == key_of(t),
            forall|j: usize|
                #[trigger] filed(self.explored_hmap@, key, j) ==> self.tree@[j as int].state@.tiles
                    != t,
        ensures
            !self.has_explored(t),
    {
        if self.has_explored(t) {
            let (k, j) = choose|k: u64, j: usize|
                #[trigger] filed(self.explored_hmap@, k, j) && self.tree@[j as int].state@.tiles == t;
            assert(filed(self.explored_hmap@, key, j));
        }
    }

    /// A pending node with the arrangement `t` is filed under the key of `t`,
    /// so a search of that bucket that finds none shows there is none.
    proof fn lemma_not_filed_not_pending(&self, t: Seq<u8>, key: u64)
        requires
            self.wf(),
            key as int == key_of(t),
            forall|j: usize|
                #[trigger] filed(self.frontier_hmap@, key, j) ==> self.tree@[j as int].state@.tiles
                    != t,
        ensures
            !self.has_pending(t),
    {
        if self.has_pending(t) {
            let j = choose|j: usize|
                #[trigger] queued(self.frontier_prique).contains_key(j)
                    && self.tree@[j as int].state@.tiles == t;
            assert(filed(self.frontier_hmap@, key_of(self.tree@[j as int].state@.tiles) as u64, j));
        }
    }

    /// The frontier holds at most one node for each arrangement.
    pub proof fn lemma_pending_unique(&self, i: usize, j: usize)
        requires
            self.wf(),
            self.frontier().contains_key(i),
            self.frontier().contains_key(j),
            self.node_state(i as int).tiles == self.node_state(j as int).tiles,
        ensures
            i == j,
    {
    }

    /// The state the search starts from.
    pub closed spec fn initial(&self) -> GridView {
        self.tree@[0].state@
    }

    /// The state the search looks for.
    pub closed spec fn goal_state(&self) -> GridView {
        self.goal@
    }

    /// The number of nodes awaiting expansion.
    pub closed spec fn frontier_size(&self) -> nat {
        queued(self.frontier_prique).len()
    }

    /// Sets up a search from `initial` towards `goal`: the tree holds the
    /// initial state alone, and the frontier holds it at cost 0.
    pub fn new(initial: Puzzle, goal: Puzzle) -> (r: Agent)
        requires
            initial.wf(),
            goal.wf(),
            initial@.rows == goal@.rows,
            initial@.cols == goal@.cols,
        ensures
            r.wf(),
            r.initial() == initial@,
            r.goal_state() == goal@,
            r.frontier_size() == 1,
            r.frontier().dom() == set![0usize],
            r.frontier()[0] == 0,
            r.node_count() == 1,
            r.node_state(0) == initial@,
            r.node_depth(0) == 0,
            r.node_parent(0) is None,
            r.node_action(0) == ActionType::NoMove,
            r.node_cost(0) == 0,
            r.expanded().dom() == Set::<u64>::empty(),
            r.popped() == Seq::<usize>::empty(),
    {
        let key = initial.key();
        let root = Path {
            state: initial,
            action: ActionType::NoMove,
            path_cost: 0,
            depth: 0,
            parent: None,
            dropped: false,
        };
        let mut tree: Vec<Path> = Vec::new();
        tree.push(root);
        let mut frontier = queue_new();
        queue_push(&mut frontier, 0, 0);
        let mut frontier_hash: HashMap<u64, Vec<usize>> = HashMap::new();
        bucket_insert(&mut frontier_hash, key, 0, Ghost(1));
        let explored: HashMap<u64, Vec<usize>> = HashMap::new();
        let r = Agent {
            tree,
            frontier_prique: frontier,
            frontier_hmap: frontier_hash,
            explored_hmap: explored,
            goal,
            popped: Ghost(Seq::empty()),
        };
        assert(queued(r.frontier_prique).dom() =~= set![0usize]);
        assert(node_ok(r.tree@, r.goal@, 0));
        assert(forall|k: u64, j: usize| !#[trigger] filed(Map::<u64, Vec<usize>>::empty(), k, j));
        r
    }

    /// The parent of node `id`, if it has one.
    pub closed spec fn node_parent(&self, id: int) -> Option<usize> {
        self.tree@[id].parent
    }

    /// The move that produced node `id` from its parent.
    pub closed spec fn node_action(&self, id: int) -> ActionType {
        self.tree@[id].action
    }

    /// Node `id` was taken out of the frontier in favour of a cheaper one.
    pub closed spec fn node_dropped(&self, id: int) -> bool {
        self.tree@[id].dropped
    }

    /// The index of expanded nodes: each key's bucket of node ids.
    pub closed spec fn expanded(&self) -> Map<u64, Vec<usize>> {
        self.explored_hmap@
    }

    /// Node `id` has been expanded.
    pub closed spec fn is_expanded(&self, id: usize) -> bool {
        exists|k: u64| #[trigger] filed(self.explored_hmap@, k, id)
    }

    /// The ids of the nodes popped from the frontier so far, in order.
    pub closed spec fn popped(&self) -> Seq<usize> {
        self.popped@
    }

    /// Node `id`'s `i`-th ancestor: the node itself for `i == 0`.
    pub closed spec fn ancestor(&self, id: int, i: nat) -> int
        decreases i,
    {
        if i == 0 {
            id
        } else {
            match self.tree@[self.ancestor(id, (i - 1) as nat)].parent {
                Some(p) => p as int,
                None => 0,
            }
        }
    }

    /// The number of nodes in the tree.
    pub closed spec fn node_count(&self) -> nat {
        self.tree@.len()
    }

    /// The state of node `id`.
    pub closed spec fn node_state(&self, id: int) -> GridView {
        self.tree@[id].state@
    }

    /// The number of moves from the root to node `id`.
    pub closed spec fn node_depth(&self, id: int) -> int {
        self.tree@[id].depth as int
    }

    /// The priority recorded in node `id`.
    pub closed spec fn node_cost(&self, id: int) -> int {
        self.tree@[id].path_cost as int
    }

    /// The frontier: each queued node id with its priority.
    pub closed spec fn frontier(&self) -> Map<usize, u32> {
        queued(self.frontier_prique)
    }

    /// The number of nodes awaiting expansion.
    pub fn frontier_len(&self) -> (r: usize)
        requires
            self.wf(),
        ensures
            r == self.frontier_size(),
    {
        crate::queue::queue_len(&self.frontier_prique)
    }

    /// Appends `child` to the tree under `parent_id`, queues it at its cost,
    /// and records its state as pending.
    pub fn frontier_insert(&mut self, parent_id: usize, child: Path)
        requires
            old(self).wf(),
            parent_id < old(self).node_count(),
            old(self).node_depth(parent_id as int) < u32::MAX,
            child.state()@ == old(self).node_state(parent_id as int).step(child.action()),
            child.action() != ActionType::NoMove,
            old(self).is_expanded(parent_id),
            !old(self).has_pending(child.state()@.tiles),
            !old(self).has_explored(child.state()@.tiles),
        ensures
            final(self).wf(),
            keeps_nodes(*old(self), *final(self)),
            added_child(
                *old(self),
                *final(self),
                parent_id,
                child.action(),
                child.state()@,
                child.path_cost() as int,
            ),
            final(self).expanded() == old(self).expanded(),
            final(self).popped() == old(self).popped(),
            final(self).node_parent(old(self).node_count() as int) == Some(parent_id),
            final(self).node_action(old(self).node_count() as int) == child.action(),
            final(self).node_depth(old(self).node_count() as int) == old(self).node_depth(
                parent_id as int,
            ) + 1,
            !final(self).node_dropped(old(self).node_count() as int),
            forall|k: int|
                0 <= k < old(self).node_count() ==> #[trigger] final(self).node_dropped(k)
                    == old(self).node_dropped(k),
            final(self).initial() == old(self).initial(),
            final(self).goal_state() == old(self).goal_state(),
            final(self).node_count() == old(self).node_count() + 1,
            final(self).node_state(old(self).node_count() as int) == child.state()@,
            final(self).node_cost(old(self).node_count() as int) == child.path_cost(),
            forall|k: int|
                0 <= k < old(self).node_count() ==> #[trigger] final(self).node_state(k)
                    == old(self).node_state(k),
            final(self).frontier() == old(self).frontier().insert(
                old(self).node_count() as usize,
                child.path_cost(),
            ),
    {
        let child_id = self.tree.len();
        let key = child.state.key();
        let cost = child.path_cost;
        let depth = self.tree[parent_id].depth + 1;
        let node = Path {
            state: child.state,
            action: child.action,
            path_cost: cost,
            depth,
            parent: Some(parent_id),
            dropped: false,
        };
        let ghost n = child_id as int + 1;
        let ghost old_tree = self.tree@;
        proof {
            assert(node_ok(old(self).tree@, old(self).goal@, parent_id as int));
            lemma_step_wf(old(self).node_state(parent_id as int), child.action());
        }
        self.tree.push(node);
        queue_push(&mut self.frontier_prique, child_id, cost);
        bucket_insert(&mut self.frontier_hmap, key, child_id, Ghost(n));
        assert forall|k: usize| #[trigger] queued(self.frontier_prique).contains_key(k) implies k < n by {
            if k != child_id {
                assert(queued(old(self).frontier_prique).contains_key(k));
            }
        }
        assert(ids_below(self.explored_hmap@, n));
        let ghost t = self.tree@;
        let ghost q = queued(self.frontier_prique);
        assert forall|j: usize| #[trigger] q.contains_key(j) implies {
            &&& j < t.len()
            &&& q[j] == t[j as int].path_cost
            &&& filed(self.frontier_hmap@, key_of(t[j as int].state@.tiles) as u64, j)
        } by {
            if j != child_id {
                assert(queued(old(self).frontier_prique).contains_key(j));
                assert(t[j as int] == old_tree[j as int]);
            }
        }
        assert forall|k: u64, j: usize| #[trigger] filed(self.frontier_hmap@, k, j) implies q.contains_key(j)
            && k as int == key_of(t[j as int].state@.tiles) by {
            if j != child_id || k != key {
                assert(filed(old(self).frontier_hmap@, k, j));
                assert(queued(old(self).frontier_prique).contains_key(j));
                assert(t[j as int] == old_tree[j as int]);
            }
        }
        assert forall|i: usize, j: usize|
            #[trigger] q.contains_key(i) && #[trigger] q.contains_key(j) && i != j implies t[i as int].state@.tiles
                != t[j as int].state@.tiles by {
            if i != child_id {
                assert(queued(old(self).frontier_prique).contains_key(i));
                assert(t[i as int] == old_tree[i as int]);
            }
            if j != child_id {
                assert(queued(old(self).frontier_prique).contains_key(j));
                assert(t[j as int] == old_tree[j as int]);
            }
        }
        assert forall|k: u64, j: usize| #[trigger] filed(self.explored_hmap@, k, j) implies k as int
            == key_of(t[j as int].state@.tiles) && !self.has_pending(t[j as int].state@.tiles) by {
            assert(filed(old(self).explored_hmap@, k, j));
            let i = choose|i: int| 0 <= i < old(self).explored_hmap@[k]@.len() && old(self).explored_hmap@[k]@[i] == j;
            assert(old(self).explored_hmap@[k]@[i] < old_tree.len());
            assert(t[j as int] == old_tree[j as int]);
            if self.has_pending(t[j as int].state@.tiles) {
                let w = choose|w: usize|
                    #[trigger] queued(self.frontier_prique).contains_key(w) && self.tree@[w as int].state@.tiles
                        == t[j as int].state@.tiles;
                if w == child_id {
                    assert(old(self).has_explored(child.state()@.tiles));
                } else {
                    assert(queued(old(self).frontier_prique).contains_key(w));
                    assert(t[w as int] == old_tree[w as int]);
                    assert(old(self).has_pending(t[j as int].state@.tiles));
                }
            }
        }
        assert forall|k: int| 0 <= k < self.tree@.len() implies node_ok(self.tree@, self.goal@, k) by {
            if k < child_id {
                assert(node_ok(old(self).tree@, old(self).goal@, k));
                assert(self.tree@[k] == old_tree[k]);
            }
        }
        assert(self.tree@[0] == old_tree[0]);
        assert forall|k: int| 0 <= k < old(self).node_count() implies #[trigger] self.node_state(k)
            == old(self).node_state(k) && self.tree@[k] == old_tree[k] by {
            assert(self.tree@[k] == old_tree[k]);
        }
    }

    /// Where a node with the arrangement of `child`'s state is pending at a
    /// greater cost than `child`'s, takes it out of the frontier and inserts
    /// `child` under `parent_id` in its place; otherwise changes nothing.
    pub fn replace_if_better(&mut self, parent_id: usize, child: Path) -> (r: bool)
        requires
            old(self).wf(),
            parent_id < old(self).node_count(),
            old(self).node_depth(parent_id as int) < u32::MAX,
            child.state()@ == old(self).node_state(parent_id as int).step(child.action()),
            child.action() != ActionType::NoMove,
            old(self).is_expanded(parent_id),
        ensures
            final(self).wf(),
            keeps_nodes(*old(self), *final(self)),
            r ==> added_child(
                *old(self),
                *final(self),
                parent_id,
                child.action(),
                child.state()@,
                child.path_cost() as int,
            ),
            final(self).expanded() == old(self).expanded(),
            final(self).popped() == old(self).popped(),
            final(self).initial() == old(self).initial(),
            final(self).goal_state() == old(self).goal_state(),
            final(self).node_count() >= old(self).node_count(),
            forall|k: int|
                0 <= k < old(self).node_count() ==> #[trigger] final(self).node_state(k)
                    == old(self).node_state(k),
            r == exists|id: usize|
                {
                    &&& #[trigger] old(self).frontier().contains_key(id)
                    &&& old(self).node_state(id as int).tiles == child.state()@.tiles
                    &&& child.path_cost() < old(self).node_cost(id as int)
                },
            !r ==> final(self).frontier() == old(self).frontier() && final(self).node_count()
                == old(self).node_count(),
            r ==> exists|id: usize|
                {
                    &&& old(self).frontier().contains_key(id)
                    &&& old(self).node_state(id as int).tiles == child.state()@.tiles
                    &&& child.path_cost() < #[trigger] old(self).node_cost(id as int)
                    &&& final(self).node_dropped(id as int)
                    &&& final(self).frontier() == old(self).frontier().remove(id).insert(
                        old(self).node_count() as usize,
                        child.path_cost(),
                    )
                },
            r ==> final(self).node_count() == old(self).node_count() + 1 && final(self).node_state(
                old(self).node_count() as int,
            ) == child.state()@ && final(self).node_parent(old(self).node_count() as int) == Some(
                parent_id,
            ),
    {
        let key = child.state.key();
        match bucket_find(&self.frontier_hmap, &self.tree, &child.state, key) {
            None => {
                proof {
                    self.lemma_not_filed_not_pending(child.state()@.tiles, key);
                }
                false
            },
            Some(id) => {
                if child.path_cost < self.tree[id].path_cost {
                    self.frontier_remove(id, key);
                    assert(self.tree@[parent_id as int].state@ == old(self).tree@[
                        parent_id as int].state@);
                    assert(self.tree@[id as int].state@ == old(self).tree@[id as int].state@);
                    let ghost mid = *self;
                    proof {
                        if mid.has_explored(child.state()@.tiles) {
                            let (k, j) = choose|k: u64, j: usize|
                                #[trigger] filed(mid.explored_hmap@, k, j)
                                    && mid.tree@[j as int].state@.tiles == child.state()@.tiles;
                            let i = choose|i: int|
                                0 <= i < old(self).explored_hmap@[k]@.len()
                                    && old(self).explored_hmap@[k]@[i] == j;
                            assert(old(self).explored_hmap@[k]@[i] < old(self).tree@.len());
                            assert(mid.tree@[j as int].state@ == old(self).tree@[j as int].state@);
                            assert(queued(old(self).frontier_prique).contains_key(id));
                            assert(old(self).has_pending(old(self).tree@[j as int].state@.tiles));
                        }
                    }
                    self.frontier_insert(parent_id, child);
                    assert(self.node_dropped(id as int) == mid.node_dropped(id as int));
                    assert forall|k: int| 0 <= k < old(self).node_count() implies #[trigger] self.node_state(k)
                        == old(self).node_state(k) && self.node_parent(k) == old(self).node_parent(k)
                        && self.node_action(k) == old(self).node_action(k) && self.node_depth(k)
                        == old(self).node_depth(k) && self.node_cost(k) == old(self).node_cost(k) by {
                        assert(mid.tree@[k].state@ == old(self).tree@[k].state@);
                        assert(self.node_state(k) == mid.node_state(k));
                    }
                    assert(self.frontier() == old(self).frontier().remove(id).insert(
                        old(self).node_count() as usize,
                        child.path_cost(),
                    ));
                    assert(child.path_cost() < old(self).node_cost(id as int));
                    assert(self.node_dropped(id as int));
                    true
                } else {
                    false
                }
            },
        }
    }

    /// Takes node `id` out of the frontier and out of the pending index, and
    /// marks it dropped in the tree. The node was never expanded, so it has no
    /// children; no index refers to it afterwards.
    fn frontier_remove(&mut self, id: usize, key: u64)
        requires
            old(self).wf(),
            id < old(self).node_count(),
            key as int == key_of(old(self).node_state(id as int).tiles),
        ensures
            final(self).wf(),
            final(self).tree@.len() == old(self).tree@.len(),
            forall|k: int|
                0 <= k < old(self).tree@.len() ==> {
                    &&& #[trigger] final(self).tree@[k].state@ == old(self).tree@[k].state@
                    &&& final(self).tree@[k].parent == old(self).tree@[k].parent
                    &&& final(self).tree@[k].action == old(self).tree@[k].action
                    &&& final(self).tree@[k].depth == old(self).tree@[k].depth
                    &&& final(self).tree@[k].path_cost == old(self).tree@[k].path_cost
                    &&& final(self).tree@[k].dropped == (k == id || old(self).tree@[k].dropped)
                },
            final(self).goal == old(self).goal,
            final(self).explored_hmap == old(self).explored_hmap,
            final(self).popped == old(self).popped,
            final(self).frontier() == old(self).frontier().remove(id),
    {
        let ghost n = self.tree@.len() as int;
        queue_remove(&mut self.frontier_prique, id);
        bucket_remove(&mut self.frontier_hmap, key, id, Ghost(n));
        let old_node = &self.tree[id];
        let marked = Path {
            state: old_node.state.duplicate(),
            action: old_node.action,
            path_cost: old_node.path_cost,
            depth: old_node.depth,
            parent: old_node.parent,
            dropped: true,
        };
        self.tree.set(id, marked);
        let ghost t = self.tree@;
        assert forall|k: int| 0 <= k < t.len() implies #[trigger] t[k].state@ == old(self).tree@[k].state@
            && t[k].state.wf() == old(self).tree@[k].state.wf() by {}
        let ghost q = queued(self.frontier_prique);
        assert forall|j: usize| #[trigger] q.contains_key(j) implies {
            &&& j < t.len()
            &&& q[j] == t[j as int].path_cost
            &&& filed(self.frontier_hmap@, key_of(t[j as int].state@.tiles) as u64, j)
        } by {
            assert(queued(old(self).frontier_prique).contains_key(j));
        }
        assert forall|k: u64, j: usize| #[trigger] filed(self.frontier_hmap@, k, j) implies q.contains_key(j)
            && k as int == key_of(t[j as int].state@.tiles) by {
            assert(filed(old(self).frontier_hmap@, k, j));
        }
        assert forall|i: usize, j: usize|
            #[trigger] q.contains_key(i) && #[trigger] q.contains_key(j) && i != j implies t[i as int].state@.tiles
                != t[j as int].state@.tiles by {
            assert(queued(old(self).frontier_prique).contains_key(i));
            assert(queued(old(self).frontier_prique).contains_key(j));
        }
        assert forall|k: u64, j: usize| #[trigger] filed(self.explored_hmap@, k, j) implies k as int
            == key_of(t[j as int].state@.tiles) && !self.has_pending(t[j as int].state@.tiles) by {
            let i = choose|i: int| 0 <= i < old(self).explored_hmap@[k]@.len() && old(self).explored_hmap@[k]@[i] == j;
            assert(old(self).explored_hmap@[k]@[i] < old(self).tree@.len());
            assert(t[j as int].state@ == old(self).tree@[j as int].state@);
            if self.has_pending(t[j as int].state@.tiles) {
                let w = choose|w: usize|
                    #[trigger] queued(self.frontier_prique).contains_key(w) && self.tree@[w as int].state@.tiles
                        == t[j as int].state@.tiles;
                assert(queued(old(self).frontier_prique).contains_key(w));
                assert(t[w as int].state@ == old(self).tree@[w as int].state@);
                assert(old(self).has_pending(t[j as int].state@.tiles));
            }
        }
        assert forall|k: int| 0 <= k < self.tree@.len() implies node_ok(self.tree@, self.goal@, k) by {
            assert(node_ok(old(self).tree@, old(self).goal@, k));
            if k > 0 {
                let p = old(self).tree@[k].parent.unwrap();
                assert(t[p as int].state@ == old(self).tree@[p as int].state@);
            }
        }
    }

    /// The states from node `start` back to the root, and the number of
    /// moves between them.
    pub fn solution(&self, start: usize) -> (r: Solution)
        requires
            self.wf(),
            start < self.node_count(),
        ensures
            r.state_path@.len() == r.steps + 1,
            r.steps == self.node_depth(start as int),
            forall|i: int|
                0 <= i < r.state_path@.len() ==> #[trigger] r.state_path@[i]@ == self.node_state(
                    self.ancestor(start as int, i as nat),
                ),
            self.ancestor(start as int, r.steps as nat) == 0,
            !self.has_explored(self.node_state(start as int).tiles) ==> distinct_states(
                r.state_path@,
            ),
            r.state_path@[0]@ == self.node_state(start as int),
            r.state_path@[r.state_path@.len() - 1]@ == self.initial(),
            forall|i: int| 0 <= i < r.state_path@.len() ==> (#[trigger] r.state_path@[i]).wf(),
            forall|i: int|
                0 <= i < r.state_path@.len() - 1 ==> one_move(
                    #[trigger] r.state_path@[i + 1]@,
                    r.state_path@[i]@,
                ),
    {
        let mut state_path: Vec<Puzzle> = Vec::new();
        state_path.push(self.tree[start].state.duplicate());
        let mut steps: u32 = 0;
        let mut cur: usize = start;
        let ghost mut ids: Seq<usize> = seq![start];
        proof {
            assert(node_ok(self.tree@, self.goal@, start as int));
        }
        while cur > 0
            invariant
                self.wf(),
                ids.len() == state_path@.len(),
                ids[0] == start,
                ids[ids.len() - 1] == cur,
                forall|i: int| 0 <= i < ids.len() ==> ids[i] < self.tree@.len(),
                forall|i: int|
                    0 <= i < ids.len() ==> (#[trigger] state_path@[i])@ == self.tree@[ids[i] as int].state@,
                forall|i: int, j: int| 0 <= i < j < ids.len() ==> ids[j] < ids[i],
                forall|i: int| 1 <= i < ids.len() ==> self.is_expanded(#[trigger] ids[i]),
                !self.has_explored(self.tree@[start as int].state@.tiles) ==> distinct_states(
                    state_path@,
                ),
                cur < self.tree@.len(),
                start < self.tree@.len(),
                state_path@.len() == steps + 1,
                steps + self.tree@[cur as int].depth == self.tree@[start as int].depth,
                state_path@[0]@ == self.tree@[start as int].state@,
                state_path@[steps as int]@ == self.tree@[cur as int].state@,
                cur == self.ancestor(start as int, steps as nat),
                forall|i: int|
                    0 <= i < state_path@.len() ==> #[trigger] state_path@[i]@ == self.node_state(
                        self.ancestor(start as int, i as nat),
                    ),
                forall|i: int| 0 <= i < state_path@.len() ==> (#[trigger] state_path@[i]).wf(),
                forall|i: int|
                    0 <= i < state_path@.len() - 1 ==> one_move(
                        #[trigger] state_path@[i + 1]@,
                        state_path@[i]@,
                    ),
            decreases cur,
        {
            proof {
                assert(node_ok(self.tree@, self.goal@, cur as int));
            }
            let p = self.tree[cur].parent.unwrap();
            proof {
                assert(node_ok(self.tree@, self.goal@, p as int));
                let a = self.tree@[cur as int].action;
                assert(self.tree@[p as int].state@.step(a) == self.tree@[cur as int].state@);
            }
            let ghost old_path = state_path@;
            let ghost old_ids = ids;
            state_path.push(self.tree[p].state.duplicate());
            proof {
                assert(self.ancestor(start as int, (steps + 1) as nat) == p);
                assert(self.tree@[cur as int].parent is Some && self.is_expanded(
                    self.tree@[cur as int].parent.unwrap(),
                ));
                ids = ids.push(p);
                assert(forall|i: int| 0 <= i < old_ids.len() ==> ids[i] == old_ids[i]);
                assert(forall|i: int| 0 <= i < old_path.len() ==> state_path@[i] == old_path[i]);
                if !self.has_explored(self.tree@[start as int].state@.tiles) {
                    let m = old_path.len() as int;
                    assert forall|i: int, j: int| 0 <= i < j < state_path@.len() implies (
                    #[trigger] state_path@[i])@.tiles != (#[trigger] state_path@[j])@.tiles by {
                        if j == m {
                            let (kp, wp) = choose|kp: u64, wp: usize|
                                #[trigger] filed(self.explored_hmap@, kp, wp) && wp == p;
                            if i == 0 {
                                if state_path@[i]@.tiles == state_path@[j]@.tiles {
                                    assert(filed(self.explored_hmap@, kp, p));
                                    assert(self.has_explored(self.tree@[start as int].state@.tiles));
                                }
                            } else {
                                assert(self.is_expanded(ids[i]));
                                let ki = choose|ki: u64| #[trigger] filed(self.explored_hmap@, ki, ids[i]);
                                assert(filed(self.explored_hmap@, kp, p));
                                assert(ids[i] != p);
                            }
                        } else {
                            assert(old_path[i] == state_path@[i]);
                            assert(old_path[j] == state_path@[j]);
                        }
                    }
                }
            }
            steps = steps + 1;
            cur = p;
        }
        Solution { state_path, steps }
    }

    /// The cost recorded for the pending node whose state has the
    /// arrangement of `state`, if there is one.
    pub fn frontier_cost(&self, state: &Puzzle) -> (r: Option<u32>)
        requires
            self.wf(),
        ensures
            r is None <==> !self.has_pending(state@.tiles),
            r matches Some(c) ==> exists|id: usize|
                #[trigger] self.frontier().contains_key(id) && self.node_state(id as int).tiles
                    == state@.tiles && self.frontier()[id] == c,
    {
        let key = state.key();
        match bucket_find(&self.frontier_hmap, &self.tree, state, key) {
            None => {
                proof {
                    self.lemma_not_filed_not_pending(state@.tiles, key);
                }
                None
            },
            Some(id) => {
                assert(self.node_state(id as int).tiles == state@.tiles);
                assert(self.frontier().contains_key(id));
                assert(self.has_pending(state@.tiles));
                Some(self.tree[id].path_cost)
            },
        }
    }

    /// Generates the successor of node `parent_id` by `action`. A state seen
    /// neither pending nor expanded is inserted; a pending one is replaced when
    /// the new priority is lower. A node at the greatest depth a `u32` holds
    /// is not expanded.
    fn expand(
        &mut self,
        parent_id: usize,
        parent_state: &Puzzle,
        action: ActionType,
        search_strategy: SearchStrategy,
        heuristic: Heuristic,
    )
        requires
            old(self).wf(),
            parent_id < old(self).node_count(),
            parent_state@ == old(self).node_state(parent_id as int),
            action != ActionType::NoMove,
            old(self).is_expanded(parent_id),
        ensures
            offered(*old(self), *final(self), parent_id, action, search_strategy, heuristic),
    {
        let depth = self.tree[parent_id].depth;
        if depth == u32::MAX {
            return;
        }
        proof {
            assert(node_ok(self.tree@, self.goal@, parent_id as int));
            lemma_step_wf(parent_state@, action);
        }
        let state = parent_state.act(action);
        let h = get_heuristic(&state, &self.goal, heuristic);
        let cost = match search_strategy {
            SearchStrategy::BestFirst => h,
            SearchStrategy::AStar => h.saturating_add(depth + 1),
        };
        let ghost succ = parent_state@.step(action);
        assert(cost as int == priority(
            search_strategy,
            heuristic_value(succ, self.goal@, heuristic),
            depth + 1,
        ));
        let key = state.key();
        let pending = bucket_find(&self.frontier_hmap, &self.tree, &state, key);
        let expanded = bucket_find(&self.explored_hmap, &self.tree, &state, key);
        let child = Path::new(state, action, cost);
        match (pending, expanded) {
            (None, None) => {
                proof {
                    self.lemma_not_filed_not_explored(succ.tiles, key);
                    self.lemma_not_filed_not_pending(succ.tiles, key);
                }
                self.frontier_insert(parent_id, child);
            },
            (Some(q0), _) => {
                proof {
                    assert(queued(self.frontier_prique).contains_key(q0));
                    assert(self.has_pending(succ.tiles));
                    if self.has_explored(succ.tiles) {
                        self.lemma_pending_not_expanded(succ.tiles);
                    }
                }
                let ghost before = *self;
                let replaced = self.replace_if_better(parent_id, child);
                proof {
                    assert forall|q: usize|
                        #[trigger] before.frontier().contains_key(q) && before.node_state(
                            q as int,
                        ).tiles == succ.tiles implies q == q0 by {
                        before.lemma_pending_unique(q, q0);
                    }
                    assert(before.frontier()[q0] as int == before.node_cost(q0 as int));
                    if cost < before.tree@[q0 as int].path_cost {
                        assert(replaced);
                    } else {
                        assert(!replaced);
                    }
                }
            },
            (None, Some(e)) => {
                proof {
                    assert(self.has_explored(succ.tiles));
                }
            },
        }
    }

    /// One search step: pops a least-cost pending node; stops on a node whose
    /// arrangement is the goal's; otherwise marks it expanded and offers its
    /// successors by Up, Down, Left and Right to the frontier.
    pub fn search_step(&mut self, search_strategy: SearchStrategy, heuristic: Heuristic) -> (r:
        StepOutcome)
        requires
            old(self).wf(),
        ensures
            final(self).wf(),
            final(self).initial() == old(self).initial(),
            final(self).goal_state() == old(self).goal_state(),
            r is Empty <==> old(self).frontier().dom() == Set::<usize>::empty(),
            r is Empty ==> idle(*old(self), *final(self)),
            r matches StepOutcome::Goal(sol) ==> goal_step(
                *old(self),
                *final(self),
                final(self).popped().last(),
                sol,
            ),
            r is Expanded ==> expanded_step(
                *old(self),
                *final(self),
                final(self).popped().last(),
                search_strategy,
                heuristic,
            ),
    {
        let ghost before = self.frontier_prique;
        let ghost pre = *self;
        let popped = queue_pop(&mut self.frontier_prique);
        let parent_id = match popped {
            None => {
                proof {
                    assert(queued(before).dom() =~= Set::<usize>::empty());
                    assert forall|k: usize| #[trigger] queued(self.frontier_prique).contains_key(k) implies k
                        < self.tree@.len() by {
                        assert(queued(before).contains_key(k));
                    }
                    assert(self.tree == pre.tree);
                }
                return StepOutcome::Empty;
            },
            Some((id, _)) => id,
        };
        assert(queued(before).contains_key(parent_id));
        assert(pre.frontier().dom().contains(parent_id));
        self.popped = Ghost(self.popped@.push(parent_id));
        let parent_state = self.tree[parent_id].state.duplicate();
        let key = parent_state.key();
        let ghost n = self.tree@.len() as int;
        bucket_remove(&mut self.frontier_hmap, key, parent_id, Ghost(n));
        proof {
            assert forall|k: usize| #[trigger] queued(self.frontier_prique).contains_key(k) implies k
                < self.tree@.len() by {
                assert(queued(before).contains_key(k));
            }
            assert forall|k: u64, j: usize| #[trigger] filed(self.explored_hmap@, k, j) implies k as int
                == key_of(self.tree@[j as int].state@.tiles) && !self.has_pending(
                self.tree@[j as int].state@.tiles,
            ) by {
                assert(filed(pre.explored_hmap@, k, j));
                if self.has_pending(self.tree@[j as int].state@.tiles) {
                    let w = choose|w: usize|
                        #[trigger] queued(self.frontier_prique).contains_key(w)
                            && self.tree@[w as int].state@.tiles == self.tree@[j as int].state@.tiles;
                    assert(queued(before).contains_key(w));
                    assert(pre.has_pending(self.tree@[j as int].state@.tiles));
                }
            }
            assert(self.tree == pre.tree);
        }
        if parent_state.is_goal(&self.goal) {
            let sol = self.solution(parent_id);
            proof {
                assert(popped_to(pre, *self, parent_id));
                assert(self.expanded() == pre.expanded());
                assert(pre.node_state(parent_id as int).tiles == pre.goal_state().tiles);
                assert(sol.steps == self.node_depth(parent_id as int));
                assert(is_solution_path(sol.state_path@, pre.initial(), pre.goal_state()));
                assert(goal_step(pre, *self, parent_id, sol));
                assert(self.popped().last() == parent_id);
            }
            return StepOutcome::Goal(sol);
        }
        let ghost popped_state = *self;
        bucket_insert(&mut self.explored_hmap, key, parent_id, Ghost(n));
        proof {
            assert forall|k: u64, j: usize| #[trigger] filed(self.explored_hmap@, k, j) implies k as int
                == key_of(self.tree@[j as int].state@.tiles) && !self.has_pending(
                self.tree@[j as int].state@.tiles,
            ) by {
                if k == key && j == parent_id {
                    if self.has_pending(self.tree@[j as int].state@.tiles) {
                        let w = choose|w: usize|
                            #[trigger] queued(self.frontier_prique).contains_key(w)
                                && self.tree@[w as int].state@.tiles == self.tree@[j as int].state@.tiles;
                        assert(queued(before).contains_key(w));
                        assert(queued(before).contains_key(parent_id));
                        assert(w != parent_id);
                    }
                } else {
                    assert(filed(popped_state.explored_hmap@, k, j));
                }
            }
        }
        proof {
            assert forall|k: int|
                #![trigger self.tree@[k]]
                0 < k < self.tree@.len() implies self.tree@[k].parent is Some && self.is_expanded(
                    self.tree@[k].parent.unwrap(),
                ) by {
                assert(popped_state.tree@[k] == self.tree@[k]);
                assert(popped_state.is_expanded(popped_state.tree@[k].parent.unwrap()));
                let kk = choose|kk: u64|
                    #[trigger] filed(popped_state.explored_hmap@, kk, popped_state.tree@[k].parent.unwrap());
                assert(filed(self.explored_hmap@, kk, self.tree@[k].parent.unwrap()));
            }
            assert(pre.has_pending(pre.tree@[parent_id as int].state@.tiles));
            assert forall|k1: u64, j1: usize, k2: u64, j2: usize|
                #[trigger] filed(self.explored_hmap@, k1, j1) && #[trigger] filed(
                    self.explored_hmap@,
                    k2,
                    j2,
                ) && j1 != j2 implies self.tree@[j1 as int].state@.tiles
                != self.tree@[j2 as int].state@.tiles by {
                if j1 == parent_id {
                    assert(filed(pre.explored_hmap@, k2, j2));
                } else if j2 == parent_id {
                    assert(filed(pre.explored_hmap@, k1, j1));
                } else {
                    assert(filed(pre.explored_hmap@, k1, j1));
                    assert(filed(pre.explored_hmap@, k2, j2));
                }
            }
        }
        let ghost e0 = *self;
        assert(filed(e0.explored_hmap@, key, parent_id));
        assert(e0.is_expanded(parent_id));
        assert(popped_to(pre, e0, parent_id));
        self.expand(parent_id, &parent_state, ActionType::Up, search_strategy, heuristic);
        let ghost e1 = *self;
        self.expand(parent_id, &parent_state, ActionType::Down, search_strategy, heuristic);
        let ghost e2 = *self;
        self.expand(parent_id, &parent_state, ActionType::Left, search_strategy, heuristic);
        let ghost e3 = *self;
        self.expand(parent_id, &parent_state, ActionType::Right, search_strategy, heuristic);
        proof {
            assert(offered(e0, e1, parent_id, ActionType::Up, search_strategy, heuristic));
            assert(offered(e2, e3, parent_id, ActionType::Left, search_strategy, heuristic));
            assert(expanded_step(pre, *self, parent_id, search_strategy, heuristic));
            assert(self.popped().last() == parent_id);
        }
        StepOutcome::Expanded
    }

    /// Runs at most `loop_count` search steps: it ends `Exhausted` on a step
    /// that finds the frontier empty, `Solved` on a step that pops the goal,
    /// and `BudgetExceeded` after `loop_count` expanding steps. A successor's
    /// priority is its heuristic value for best-first search, and that value
    /// plus its depth (the parent's depth plus one) for A*.
    pub fn uniform_cost_search(
        &mut self,
        search_strategy: SearchStrategy,
        heuristic: Heuristic,
        loop_count: u32,
    ) -> (r: SearchOutcome)
        requires
            old(self).wf(),
        ensures
            final(self).wf(),
            final(self).initial() == old(self).initial(),
            final(self).goal_state() == old(self).goal_state(),
            loop_count == 0 ==> r is BudgetExceeded && *final(self) == *old(self),
            r is BudgetExceeded ==> run_of(
                *old(self),
                *final(self),
                loop_count as nat,
                search_strategy,
                heuristic,
            ),
            r is Exhausted ==> exists|k: nat, mid: Agent|
                #![trigger run_of(*old(self), mid, k, search_strategy, heuristic)]
                {
                    &&& k < loop_count
                    &&& run_of(*old(self), mid, k, search_strategy, heuristic)
                    &&& mid.frontier().dom() == Set::<usize>::empty()
                    &&& idle(mid, *final(self))
                },
            r matches SearchOutcome::Solved(sol) ==> exists|k: nat, mid: Agent|
                #![trigger run_of(*old(self), mid, k, search_strategy, heuristic)]
                {
                    &&& k < loop_count
                    &&& run_of(*old(self), mid, k, search_strategy, heuristic)
                    &&& goal_step(mid, *final(self), final(self).popped().last(), sol)
                },
            r matches SearchOutcome::Solved(sol) ==> is_solution_path(
                sol.state_path@,
                old(self).initial(),
                old(self).goal_state(),
            ),
    {
        let mut counter = loop_count;
        proof {
            let chain = seq![*old(self)];
            let ps = Seq::<usize>::empty();
            assert(is_run(chain, ps, search_strategy, heuristic));
            assert(run_of(*old(self), *self, 0, search_strategy, heuristic));
        }
        while counter > 0
            invariant
                counter <= loop_count,
                self.wf(),
                self.initial() == old(self).initial(),
                self.goal_state() == old(self).goal_state(),
                run_of(*old(self), *self, (loop_count - counter) as nat, search_strategy, heuristic),
            decreases counter,
        {
            let ghost pre = *self;
            let ghost k = (loop_count - counter) as nat;
            let step = self.search_step(search_strategy, heuristic);
            match step {
                StepOutcome::Empty => {
                    assert(run_of(*old(self), pre, k, search_strategy, heuristic));
                    return SearchOutcome::Exhausted;
                },
                StepOutcome::Goal(sol) => {
                    proof {
                        assert(run_of(*old(self), pre, k, search_strategy, heuristic));
                        assert(is_solution_path(sol.state_path@, pre.initial(), pre.goal_state()));
                    }
                    return SearchOutcome::Solved(sol);
                },
                StepOutcome::Expanded => {
                    proof {
                        let p = self.popped().last();
                        assert(run_of(*old(self), pre, k, search_strategy, heuristic));
                        let (chain, ps) = choose|chain: Seq<Agent>, ps: Seq<usize>|
                            #[trigger] is_run(chain, ps, search_strategy, heuristic) && ps.len() == k
                                && chain[0] == *old(self) && chain[k as int] == pre;
                        let chain2 = chain.push(*self);
                        let ps2 = ps.push(p);
                        assert forall|i: int| 0 <= i < ps2.len() implies #[trigger] expanded_step(
                            chain2[i],
                            chain2[i + 1],
                            ps2[i],
                            search_strategy,
                            heuristic,
                        ) by {
                            if i < ps.len() {
                                assert(chain2[i] == chain[i]);
                                assert(chain2[i + 1] == chain[i + 1]);
                                assert(ps2[i] == ps[i]);
                                assert(expanded_step(chain[i], chain[i + 1], ps[i], search_strategy, heuristic));
                            }
                        }
                        assert(is_run(chain2, ps2, search_strategy, heuristic));
                        assert(run_of(*old(self), *self, (k + 1) as nat, search_strategy, heuristic));
                    }
                },
            }
            counter = counter - 1;
        }
        SearchOutcome::BudgetExceeded
    }
}

} // verus!
