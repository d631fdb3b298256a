use vstd::prelude::*;

use std::marker::PhantomData;

use probability::source::Source;
use vstd::laws_eq::obeys_concrete_eq;

use crate::game::{Game, Player};

verus! {

#[verifier::external_type_specification]
#[verifier::external_body]
pub struct ExXorshift128Plus(probability::source::Xorshift128Plus);

/// The seed an agent made by `MonteCarloAgent::new` starts from.
pub const DEFAULT_SEED_LOW: u64 = 42;

/// The second word of that seed.
pub const DEFAULT_SEED_HIGH: u64 = 69;

/// Relies on `random::Xorshift128Plus::new` (re-exported by
/// `probability::source`): an owned generator in the given state.  The seed
/// must not be all zero bits (the generator asserts this).
#[verifier::external_body]
fn xorshift(seed: [u64; 2]) -> probability::source::Xorshift128Plus
    requires
        seed[0] != 0 || seed[1] != 0,
{
    probability::source::Xorshift128Plus::new(seed)
}

/// Relies on `random::Source::read_u64` for `Xorshift128Plus`: the next raw
/// value of the generator, which advances its state.
#[verifier::external_body]
fn next_u64(source: &mut probability::source::Xorshift128Plus) -> u64 {
    source.read_u64()
}

/// Equality of two moves, for a move type whose `==` is plain equality.
fn same_move<Move: Eq>(a: &Move, b: &Move) -> (r: bool)
    requires
        obeys_concrete_eq::<Move>(),
    ensures
        r == (*a == *b),
{
    proof {
        reveal(obeys_concrete_eq);
    }
    a.eq(b)
}

/// One vertex of the search tree: outcome counters and the edges to its
/// expanded children, each a move and the arena index of the child.
pub struct MCTSNode<Move> {
    pub moves: Vec<(Move, usize)>,
    pub successes: u64,
    pub failures: u64,
}

impl<Move> MCTSNode<Move> {
    pub open spec fn visits(&self) -> int {
        self.successes + self.failures
    }

    /// For the node at arena index `idx` of `len`: edge targets lie after it
    /// in the arena, no move labels two edges, and the visit count fits in a
    /// `u64`.
    pub open spec fn wf_node(&self, idx: int, len: nat) -> bool {
        &&& self.visits() <= u64::MAX
        &&& forall|i: int|
            0 <= i < self.moves@.len() ==> idx < (#[trigger] self.moves@[i]).1 < len
        &&& forall|i: int, j: int|
            0 <= i < j < self.moves@.len() ==> (#[trigger] self.moves@[i]).0 != (
            #[trigger] self.moves@[j]).0
    }

    pub open spec fn has_child(&self, m: Move) -> bool {
        exists|i: int| 0 <= i < self.moves@.len() && (#[trigger] self.moves@[i]).0 == m
    }

    /// Arena index of the child under `m` (meaningful where `has_child(m)`).
    pub open spec fn child_spec(&self, m: Move) -> usize {
        self.moves@[choose|i: int| 0 <= i < self.moves@.len() && (#[trigger] self.moves@[i]).0 == m].1
    }

    /// A node with no children and no recorded playout.
    pub fn new() -> (n: MCTSNode<Move>)
        ensures
            n.moves@.len() == 0,
            n.successes == 0,
            n.failures == 0,
    {
        MCTSNode { moves: Vec::new(), successes: 0, failures: 0 }
    }

    /// A childless node with the given counters.
    pub fn from_data(wins: u64, losses: u64) -> (n: MCTSNode<Move>)
        ensures
            n.moves@.len() == 0,
            n.successes == wins,
            n.failures == losses,
    {
        MCTSNode { moves: Vec::new(), successes: wins, failures: losses }
    }
}

/// `i` is the first position of a largest value of `s`.
pub open spec fn is_first_max(s: Seq<u64>, i: int) -> bool {
    &&& 0 <= i < s.len()
    &&& forall|j: int| 0 <= j < s.len() ==> #[trigger] s[j] <= s[i]
    &&& forall|j: int| 0 <= j < i ==> #[trigger] s[j] < s[i]
}

/// Position of the first largest value; ties go to the earliest position.
pub fn first_max(s: &Vec<u64>) -> (i: usize)
    requires
        s@.len() > 0,
    ensures
        is_first_max(s@, i as int),
{
    let mut best: usize = 0;
    let mut k: usize = 1;
    while k < s.len()
        invariant
            1 <= k <= s@.len(),
            best < k,
            forall|j: int| 0 <= j < k ==> #[trigger] s@[j] <= s@[best as int],
            forall|j: int| 0 <= j < best ==> #[trigger] s@[j] < s@[best as int],
        decreases s@.len() - k,
    {
        if s[k] > s[best] {
            best = k;
        }
        k = k + 1;
    }
    best
}

/// The player who made the move into the node at depth `d` of a path whose
/// root has `root_player` to move (for the root itself: the opponent, who
/// moved last).
pub open spec fn mover(root_player: Player, d: int) -> Player {
    if d % 2 == 1 {
        root_player
    } else {
        root_player.opponent_spec()
    }
}

/// A playout won by `winner` counts as a success at depth `d` exactly when
/// the winner made the move into that node; a draw is a failure everywhere.
pub open spec fn credited(root_player: Player, winner: Option<Player>, d: int) -> bool {
    winner == Some(mover(root_player, d))
}

/// `b` is the arena `a` after one playout along `path` (root first) has been
/// counted: each node on the path has one more success or failure, as
/// `credited` says, and every other node is as it was.
pub open spec fn backpropagated<Move>(
    a: Seq<MCTSNode<Move>>,
    b: Seq<MCTSNode<Move>>,
    path: Seq<usize>,
    root_player: Player,
    winner: Option<Player>,
) -> bool {
    &&& b.len() == a.len()
    &&& forall|k: int|
        0 <= k < path.len() ==> {
            let n = #[trigger] path[k] as int;
            &&& b[n].moves == a[n].moves
            &&& b[n].successes == a[n].successes + if credited(root_player, winner, k) {
                1int
            } else {
                0int
            }
            &&& b[n].failures == a[n].failures + if credited(root_player, winner, k) {
                0int
            } else {
                1int
            }
        }
    &&& forall|n: int| 0 <= n < a.len() && !path.contains(n as usize) ==> #[trigger] b[n] == a[n]
}

/// Who moves after `k` moves played from a position with `player` to move.
pub open spec fn turn(player: Player, k: int) -> Player {
    if k % 2 == 0 {
        player
    } else {
        player.opponent_spec()
    }
}

/// The position at the current node of a descent: `root` until a move has
/// been played, then the position it led to.
pub open spec fn at_node<State>(root: State, cur: Option<State>) -> State {
    match cur {
        Some(s) => s,
        None => root,
    }
}

/// The draw for a Thompson-sampling choice among children.
///
/// `sample` scores a child with the given counters, drawn from the posterior
/// Beta(successes + 1, failures + 1) or any other rule the implementor picks;
/// larger scores are preferred.
pub trait Sampler {
    fn sample(&mut self, successes: u64, failures: u64) -> u64;
}

/// The end of one simulated playout: the moves played, the final position,
/// and the winner (`None` for a draw, including a playout cut at the ply cap).
pub struct Rollout<State, Move> {
    pub moves: Vec<Move>,
    pub state: State,
    pub winner: Option<Player>,
}

/// A search could not recommend a move.
#[derive(Clone, Copy, PartialEq, Eq, Structural, Debug)]
pub enum SearchError {
    /// The budget allowed no iteration.
    NoIterations,
    /// The position is terminal: a player has won or no legal move is left.
    Terminal,
}

/// `a` has a strictly better record than `b`: a higher success ratio, or the
/// same ratio over more visits.  A node with no visit ranks above none.
/// Ratios are compared by cross-multiplying, which is exact.
pub open spec fn ranks_above<Move>(a: MCTSNode<Move>, b: MCTSNode<Move>) -> bool {
    &&& a.visits() > 0
    &&& {
        ||| b.visits() == 0
        ||| a.successes * b.visits() > b.successes * a.visits()
        ||| (a.successes * b.visits() == b.successes * a.visits() && a.visits() > b.visits())
    }
}

proof fn lemma_cross_step(sj: int, vj: int, sb: int, vb: int, sk: int, vk: int)
    requires
        sj >= 0,
        sb >= 0,
        sk >= 0,
        vj > 0,
        vb > 0,
        vk > 0,
        sj * vb <= sb * vj,
        sk * vb >= sb * vk,
    ensures
        sj * vk <= sk * vj,
        sj * vk == sk * vj ==> sj * vb == sb * vj && sk * vb == sb * vk,
{
    assert(sj * vb * vk <= sb * vj * vk) by (nonlinear_arith)
        requires
            sj * vb <= sb * vj,
            vk > 0,
    ;
    assert(sk * vb * vj >= sb * vk * vj) by (nonlinear_arith)
        requires
            sk * vb >= sb * vk,
            vj > 0,
    ;
    assert(sb * vj * vk == sb * vk * vj) by (nonlinear_arith);
    assert(sj * vk <= sk * vj) by (nonlinear_arith)
        requires
            sj * vb * vk <= sk * vb * vj,
            vb > 0,
    ;
    if sj * vk == sk * vj {
        assert(sj * vb * vk == sk * vb * vj) by (nonlinear_arith)
            requires
                sj * vk == sk * vj,
        ;
        assert(sj * vb * vk == sb * vj * vk);
        assert(sj * vb == sb * vj) by (nonlinear_arith)
            requires
                sj * vb * vk == sb * vj * vk,
                vk > 0,
        ;
        assert(sk * vb == sb * vk) by (nonlinear_arith)
            requires
                sk * vb * vj == sb * vk * vj,
                vj > 0,
        ;
    }
}

/// Ranking is a strict weak order: what beats `b` beats whatever `b` is not
/// beaten by.
pub proof fn lemma_rank_step<Move>(j: MCTSNode<Move>, b: MCTSNode<Move>, k: MCTSNode<Move>)
    requires
        ranks_above(k, b),
        !ranks_above(j, b),
    ensures
        ranks_above(k, j),
        !ranks_above(j, k),
{
    if j.visits() > 0 {
        lemma_cross_step(
            j.successes as int,
            j.visits(),
            b.successes as int,
            b.visits(),
            k.successes as int,
            k.visits(),
        );
    }
}

fn ranks_above_exec<Move>(a: &MCTSNode<Move>, b: &MCTSNode<Move>) -> (r: bool)
    requires
        a.visits() <= u64::MAX,
        b.visits() <= u64::MAX,
    ensures
        r == ranks_above(*a, *b),
{
    let va = a.successes + a.failures;
    let vb = b.successes + b.failures;
    if va == 0 {
        return false;
    }
    if vb == 0 {
        return true;
    }
    proof {
        assert((a.successes as int) * (vb as int) <= u64::MAX * u64::MAX) by (nonlinear_arith)
            requires
                a.successes <= u64::MAX,
                vb <= u64::MAX,
        ;
        assert((b.successes as int) * (va as int) <= u64::MAX * u64::MAX) by (nonlinear_arith)
            requires
                b.successes <= u64::MAX,
                va <= u64::MAX,
        ;
    }
    let lhs = (a.successes as u128) * (vb as u128);
    let rhs = (b.successes as u128) * (va as u128);
    lhs > rhs || (lhs == rhs && va > vb)
}

/// Counters count playouts: counting one playout along a path without
/// repeated nodes adds exactly one visit to each node on it and none
/// elsewhere, so a node's `successes + failures` is the number of playouts
/// that passed through it.
pub proof fn lemma_one_visit_per_playout<Move>(
    a: Seq<MCTSNode<Move>>,
    b: Seq<MCTSNode<Move>>,
    path: Seq<usize>,
    root_player: Player,
    winner: Option<Player>,
)
    requires
        backpropagated(a, b, path, root_player, winner),
        path.no_duplicates(),
        forall|k: int| 0 <= k < path.len() ==> #[trigger] path[k] < a.len(),
    ensures
        forall|k: int|
            0 <= k < path.len() ==> #[trigger] b[path[k] as int].visits() == a[path[k] as int].visits()
                + 1,
        forall|n: int|
            0 <= n < a.len() && !path.contains(n as usize) ==> #[trigger] b[n].visits()
                == a[n].visits(),
{
}

/// Lookup after expansion: once `mv` has been expanded at a node into child
/// `c`, the node has a child under `mv` and it is `c`, so every later
/// `child_for(node, mv)` returns that same child.
pub proof fn lemma_lookup_after_expand<Move>(
    before: MCTSNode<Move>,
    after: MCTSNode<Move>,
    idx: int,
    len: nat,
    mv: Move,
    c: usize,
)
    requires
        !before.has_child(mv),
        after.moves@ == before.moves@.push((mv, c)),
        after.wf_node(idx, len),
    ensures
        after.has_child(mv),
        after.child_spec(mv) == c,
{
    let e = after.moves@;
    let last = e.len() - 1;
    assert(e[last].0 == mv);
    let k = choose|k: int| 0 <= k < e.len() && (#[trigger] e[k]).0 == mv;
    if k < last {
        assert(e[k].0 != e[last].0);
    }
}

/// The search agent: a game, an arena of statistics nodes whose index 0 is
/// the root, and the random source that drives its choices.
pub struct MonteCarloAgent<State, Move, G> {
    game: G,
    playouts: Vec<MCTSNode<Move>>,
    phantom: PhantomData<State>,
    source: probability::source::Xorshift128Plus,
}

impl<State, Move: Copy + Eq, G: Game<State, Move>> MonteCarloAgent<State, Move, G> {
    /// The nodes of the arena.
    pub closed spec fn tree(&self) -> Seq<MCTSNode<Move>> {
        self.playouts@
    }

    pub closed spec fn game_spec(&self) -> G {
        self.game
    }

    /// `states` are the positions of a game that starts at `start` with
    /// `player` to move and plays `moves`: each move is legal for the side
    /// to move and leads to the next position.
    pub open spec fn is_playout(
        start: State,
        player: Player,
        moves: Seq<Move>,
        states: Seq<State>,
    ) -> bool {
        &&& states.len() == moves.len() + 1
        &&& states[0] == start
        &&& forall|i: int|
            0 <= i < moves.len() ==> G::legal(#[trigger] states[i], turn(player, i), moves[i])
                && G::transition(states[i], turn(player, i), moves[i], states[i + 1])
    }

    pub open spec fn wf(&self) -> bool {
        &&& self.tree().len() >= 1
        &&& forall|n: int|
            0 <= n < self.tree().len() ==> (#[trigger] self.tree()[n]).wf_node(n, self.tree().len())
    }

    /// The arena can take no more node, or some node can count no more
    /// playout: the limits at which an iteration is refused.
    pub open spec fn full(t: Seq<MCTSNode<Move>>) -> bool {
        ||| t.len() == usize::MAX
        ||| exists|n: int| 0 <= n < t.len() && #[trigger] t[n].visits() == u64::MAX
    }

    /// A tree that is a lone root with no recorded playout.
    pub open spec fn fresh(&self) -> bool {
        &&& self.tree().len() == 1
        &&& self.tree()[0].moves@.len() == 0
        &&& self.tree()[0].successes == 0
        &&& self.tree()[0].failures == 0
    }

    /// An agent over `game`, with a generator of its own seeded with the
    /// default seed.
    pub fn new(game: G) -> (a: Self)
        ensures
            a.wf(),
            a.fresh(),
            a.game_spec() == game,
    {
        let mut playouts: Vec<MCTSNode<Move>> = Vec::new();
        playouts.push(MCTSNode::new());
        MonteCarloAgent { game, playouts, phantom: PhantomData, source: xorshift([DEFAULT_SEED_LOW, DEFAULT_SEED_HIGH]) }
    }

    /// An agent over `game`, with a generator of its own seeded with `seed`.
    pub fn new_seeded(game: G, seed: [u64; 2]) -> (a: Self)
        requires
            seed[0] != 0 || seed[1] != 0,
        ensures
            a.wf(),
            a.fresh(),
            a.game_spec() == game,
    {
        let mut playouts: Vec<MCTSNode<Move>> = Vec::new();
        playouts.push(MCTSNode::new());
        MonteCarloAgent { game, playouts, phantom: PhantomData, source: xorshift(seed) }
    }

    /// Number of nodes in the tree.
    pub fn node_count(&self) -> (r: usize)
        ensures
            r == self.tree().len(),
    {
        self.playouts.len()
    }

    /// The child of `node` under `mv`, if that move has been expanded.
    pub fn child_for(&self, node: usize, mv: Move) -> (r: Option<usize>)
        requires
            self.wf(),
            node < self.tree().len(),
            obeys_concrete_eq::<Move>(),
        ensures
            r is Some <==> self.tree()[node as int].has_child(mv),
            r matches Some(c) ==> c == self.tree()[node as int].child_spec(mv) && node < c < self.tree().len(),
    {
        let edges = &self.playouts[node].moves;
        let ghost n = self.tree()[node as int];
        assert(n.wf_node(node as int, self.tree().len()));
        let mut i: usize = 0;
        while i < edges.len()
            invariant
                i <= edges@.len(),
                *edges == n.moves,
                n == self.tree()[node as int],
                n.wf_node(node as int, self.tree().len()),
                obeys_concrete_eq::<Move>(),
                forall|k: int| 0 <= k < i ==> (#[trigger] edges@[k]).0 != mv,
            decreases edges@.len() - i,
        {
            if same_move(&edges[i].0, &mv) {
                proof {
                    assert(n.moves@[i as int].0 == mv);
                    assert(n.has_child(mv));
                    let k = choose|k: int| 0 <= k < n.moves@.len() && (#[trigger] n.moves@[k]).0 == mv;
                    if k < i {
                        assert(n.moves@[k].0 != n.moves@[i as int].0);
                    } else if k > i {
                        assert(n.moves@[i as int].0 != n.moves@[k].0);
                    }
                    assert(k == i);
                    assert(n.moves@[i as int].1 < self.tree().len());
                }
                return Some(edges[i].1);
            }
            i = i + 1;
        }
        None
    }

    /// Adds a fresh child of `node` under `mv`; returns its arena index.
    pub fn expand(&mut self, node: usize, mv: Move) -> (c: usize)
        requires
            old(self).wf(),
            node < old(self).tree().len(),
            !old(self).tree()[node as int].has_child(mv),
            old(self).tree().len() < usize::MAX,
        ensures
            final(self).wf(),
            c == old(self).tree().len(),
            final(self).tree().len() == old(self).tree().len() + 1,
            final(self).tree()[c as int].moves@.len() == 0,
            final(self).tree()[c as int].successes == 0,
            final(self).tree()[c as int].failures == 0,
            final(self).tree()[node as int].moves@ == old(self).tree()[node as int].moves@.push((mv, c)),
            final(self).tree()[node as int].successes == old(self).tree()[node as int].successes,
            final(self).tree()[node as int].failures == old(self).tree()[node as int].failures,
            forall|n: int|
                0 <= n < old(self).tree().len() && n != node ==> #[trigger] final(self).tree()[n]
                    == old(self).tree()[n],
            final(self).game_spec() == old(self).game_spec(),
    {
        let c = self.playouts.len();
        self.playouts.push(MCTSNode::new());
        let mut target = self.playouts.remove(node);
        target.moves.push((mv, c));
        self.playouts.insert(node, target);
        proof {
            let len = self.tree().len();
            assert forall|n: int| 0 <= n < len implies (#[trigger] self.tree()[n]).wf_node(n, len) by {
                if n != node && n < c {
                    assert(old(self).tree()[n].wf_node(n, c as nat));
                } else if n == node {
                    let o = old(self).tree()[n];
                    assert(o.wf_node(n, c as nat));
                    let e = self.tree()[n].moves@;
                    assert forall|i: int, j: int| 0 <= i < j < e.len() implies (#[trigger] e[i]).0 != (
                    #[trigger] e[j]).0 by {
                        if j == e.len() - 1 {
                            assert(o.moves@[i] == e[i]);
                            assert(!(o.moves@[i].0 == mv));
                        } else {
                            assert(o.moves@[i] == e[i]);
                            assert(o.moves@[j] == e[j]);
                        }
                    }
                    assert forall|i: int| 0 <= i < e.len() implies n < (#[trigger] e[i]).1 < len by {
                        if i < e.len() - 1 {
                            assert(o.moves@[i] == e[i]);
                        }
                    }
                }
            }
        }
        c
    }

    /// Counts one more playout through `node`, won or not.
    pub fn record(&mut self, node: usize, success: bool)
        requires
            old(self).wf(),
            node < old(self).tree().len(),
            old(self).tree()[node as int].visits() < u64::MAX,
        ensures
            final(self).wf(),
            final(self).tree().len() == old(self).tree().len(),
            final(self).tree()[node as int].moves == old(self).tree()[node as int].moves,
            final(self).tree()[node as int].successes == old(self).tree()[node as int].successes + if success {
                1int
            } else {
                0int
            },
            final(self).tree()[node as int].failures == old(self).tree()[node as int].failures + if success {
                0int
            } else {
                1int
            },
            forall|n: int|
                0 <= n < old(self).tree().len() && n != node ==> #[trigger] final(self).tree()[n]
                    == old(self).tree()[n],
            final(self).game_spec() == old(self).game_spec(),
    {
        let mut target = self.playouts.remove(node);
        if success {
            target.successes = target.successes + 1;
        } else {
            target.failures = target.failures + 1;
        }
        self.playouts.insert(node, target);
        proof {
            let len = self.tree().len();
            assert forall|n: int| 0 <= n < len implies (#[trigger] self.tree()[n]).wf_node(n, len) by {
                assert(old(self).tree()[n].wf_node(n, len));
            }
        }
    }

    /// Successes recorded at `node`.
    pub fn successes(&self, node: usize) -> (r: u64)
        requires
            node < self.tree().len(),
        ensures
            r == self.tree()[node as int].successes,
    {
        self.playouts[node].successes
    }

    /// Failures recorded at `node`.
    pub fn failures(&self, node: usize) -> (r: u64)
        requires
            node < self.tree().len(),
        ensures
            r == self.tree()[node as int].failures,
    {
        self.playouts[node].failures
    }

    /// Picks the child of `node` with the largest sample: `samples[i]` is the
    /// draw for the `i`-th edge of `node`, ties go to the earlier edge.
    pub fn pick_move(&self, node: usize, samples: &Vec<u64>) -> (m: Move)
        requires
            node < self.tree().len(),
            self.tree()[node as int].moves@.len() > 0,
            samples@.len() == self.tree()[node as int].moves@.len(),
        ensures
            exists|i: int|
                is_first_max(samples@, i) && m == (#[trigger] self.tree()[node as int].moves@[i]).0,
    {
        let i = first_max(samples);
        let m = self.playouts[node].moves[i].0;
        assert(self.tree()[node as int].moves@[i as int].0 == m);
        m
    }

    /// Counts one playout along `path` (root first, then each node chosen
    /// below it), updating from the deepest node back to the root.
    pub fn backpropagate(&mut self, path: &Vec<usize>, root_player: Player, winner: Option<Player>)
        requires
            old(self).wf(),
            path@.no_duplicates(),
            forall|k: int|
                0 <= k < path@.len() ==> #[trigger] path@[k] < old(self).tree().len()
                    && old(self).tree()[path@[k] as int].visits() < u64::MAX,
        ensures
            final(self).wf(),
            backpropagated(old(self).tree(), final(self).tree(), path@, root_player, winner),
            final(self).game_spec() == old(self).game_spec(),
    {
        let mut j: usize = path.len();
        while j > 0
            invariant
                j <= path@.len(),
                self.wf(),
                self.game_spec() == old(self).game_spec(),
                self.tree().len() == old(self).tree().len(),
                path@.no_duplicates(),
                forall|k: int|
                    0 <= k < path@.len() ==> #[trigger] path@[k] < old(self).tree().len()
                        && old(self).tree()[path@[k] as int].visits() < u64::MAX,
                forall|k: int|
                    j <= k < path@.len() ==> {
                        let n = #[trigger] path@[k] as int;
                        &&& self.tree()[n].moves == old(self).tree()[n].moves
                        &&& self.tree()[n].successes == old(self).tree()[n].successes + if credited(
                            root_player,
                            winner,
                            k,
                        ) {
                            1int
                        } else {
                            0int
                        }
                        &&& self.tree()[n].failures == old(self).tree()[n].failures + if credited(
                            root_player,
                            winner,
                            k,
                        ) {
                            0int
                        } else {
                            1int
                        }
                    },
                forall|k: int|
                    0 <= k < j ==> #[trigger] self.tree()[path@[k] as int] == old(self).tree()[path@[k] as int],
                forall|n: int|
                    0 <= n < self.tree().len() && !path@.contains(n as usize) ==> #[trigger] self.tree()[n]
                        == old(self).tree()[n],
            decreases j,
        {
            j = j - 1;
            let node = path[j];
            let mover = if j % 2 == 1 {
                root_player
            } else {
                root_player.opponent()
            };
            let success = match winner {
                Some(w) => w == mover,
                None => false,
            };
            assert(success == credited(root_player, winner, j as int));
            let ghost before = self.tree();
            assert(self.tree()[node as int] == old(self).tree()[node as int]);
            self.record(node, success);
            proof {
                assert forall|k: int| 0 <= k < path@.len() && k != j implies path@[k] != node by {
                    assert(path@[j as int] == node);
                }
                assert forall|n: int|
                    0 <= n < self.tree().len() && !path@.contains(n as usize) implies #[trigger] self.tree()[n]
                    == old(self).tree()[n] by {
                    assert(path@[j as int] == node);
                    assert(n != node);
                    assert(before[n] == old(self).tree()[n]);
                }
                assert forall|k: int| 0 <= k < j implies #[trigger] self.tree()[path@[k] as int]
                    == old(self).tree()[path@[k] as int] by {
                    assert(path@[k] != node);
                    assert(before[path@[k] as int] == old(self).tree()[path@[k] as int]);
                }
            }
        }
    }

    /// Plays uniformly random legal moves from `start`, `player` first,
    /// until a player has won, no move is left, or `max_plies` moves were
    /// played (counted as a draw).
    pub fn rollout(&mut self, start: State, player: Player, max_plies: usize) -> (r: Rollout<
        State,
        Move,
    >)
        requires
            old(self).wf(),
            G::valid_state(start),
        ensures
            final(self).wf(),
            final(self).tree() == old(self).tree(),
            final(self).game_spec() == old(self).game_spec(),
            G::valid_state(r.state),
            r.moves@.len() <= max_plies,
            r.winner matches Some(w) ==> G::wins(r.state, w),
            r.winner is None ==> !G::wins(r.state, Player::One) && !G::wins(r.state, Player::Two),
            r.moves@.len() == 0 ==> r.state == start,
            exists|states: Seq<State>|
                Self::is_playout(start, player, r.moves@, states) && states.last() == r.state,
            r.winner is None && r.moves@.len() < max_plies ==> forall|m: Move|
                !G::legal(r.state, turn(player, r.moves@.len() as int), m),
    {
        let mut state = start;
        let mut to_move = player;
        let mut played: Vec<Move> = Vec::new();
        let ghost mut states: Seq<State> = seq![start];
        loop
            invariant
                self.wf(),
                self.tree() == old(self).tree(),
                self.game_spec() == old(self).game_spec(),
                G::valid_state(state),
                played@.len() <= max_plies,
                played@.len() == 0 ==> state == start,
                Self::is_playout(start, player, played@, states),
                states.last() == state,
                to_move == turn(player, played@.len() as int),
            decreases max_plies - played@.len(),
        {
            if G::won(&state, Player::One) {
                return Rollout { moves: played, state, winner: Some(Player::One) };
            }
            if G::won(&state, Player::Two) {
                return Rollout { moves: played, state, winner: Some(Player::Two) };
            }
            if played.len() >= max_plies {
                return Rollout { moves: played, state, winner: None };
            }
            let options = G::moves(&state, to_move);
            if options.len() == 0 {
                proof {
                    assert forall|m: Move| !G::legal(state, to_move, m) by {
                        if G::legal(state, to_move, m) {
                            assert(options@.contains(m));
                        }
                    }
                }
                return Rollout { moves: played, state, winner: None };
            }
            let draw = next_u64(&mut self.source);
            let idx = (draw % (options.len() as u64)) as usize;
            let mv = options[idx];
            assert(options@.contains(mv));
            let ghost prev = state;
            let ghost prev_played = played@;
            match G::evaluate(&state, to_move, mv) {
                Ok(next) => {
                    state = next;
                    proof {
                        states = states.push(next);
                    }
                },
                Err(_) => {
                    proof {
                        assert(false);
                    }
                    return Rollout { moves: played, state, winner: None };
                },
            }
            played.push(mv);
            to_move = to_move.opponent();
            proof {
                assert forall|i: int| 0 <= i < played@.len() implies G::legal(
                    #[trigger] states[i],
                    turn(player, i),
                    played@[i],
                ) && G::transition(states[i], turn(player, i), played@[i], states[i + 1]) by {
                    if i < prev_played.len() {
                        assert(played@[i] == prev_played[i]);
                    } else {
                        assert(states[i] == prev);
                    }
                }
            }
        }
    }

    /// The first legal move of `player` in `state` that has no child at
    /// `node` yet, if any.
    pub fn unexpanded_move(&self, node: usize, state: &State, player: Player) -> (r: Option<Move>)
        requires
            self.wf(),
            node < self.tree().len(),
            G::valid_state(*state),
            obeys_concrete_eq::<Move>(),
        ensures
            r matches Some(m) ==> G::legal(*state, player, m) && !self.tree()[node as int].has_child(m),
            r is None ==> forall|m: Move|
                G::legal(*state, player, m) ==> self.tree()[node as int].has_child(m),
    {
        let options = G::moves(state, player);
        let mut i: usize = 0;
        while i < options.len()
            invariant
                i <= options@.len(),
                self.wf(),
                node < self.tree().len(),
                obeys_concrete_eq::<Move>(),
                forall|m: Move| options@.contains(m) <==> G::legal(*state, player, m),
                forall|k: int| 0 <= k < i ==> self.tree()[node as int].has_child(#[trigger] options@[k]),
            decreases options@.len() - i,
        {
            let m = options[i];
            if self.child_for(node, m).is_none() {
                assert(options@.contains(m));
                return Some(m);
            }
            i = i + 1;
        }
        proof {
            assert forall|m: Move| G::legal(*state, player, m) implies self.tree()[node as int].has_child(
                m,
            ) by {
                assert(options@.contains(m));
                let k = choose|k: int| 0 <= k < options@.len() && options@[k] == m;
                assert(self.tree()[node as int].has_child(options@[k]));
            }
        }
        None
    }

    /// Every node on `path` can count one more playout.
    pub fn has_room(&self, path: &Vec<usize>) -> (r: bool)
        requires
            forall|i: int| 0 <= i < path@.len() ==> #[trigger] path@[i] < self.tree().len(),
        ensures
            r <==> forall|i: int|
                0 <= i < path@.len() ==> self.tree()[(#[trigger] path@[i]) as int].visits() < u64::MAX,
    {
        let mut k: usize = 0;
        while k < path.len()
            invariant
                k <= path@.len(),
                forall|i: int| 0 <= i < path@.len() ==> #[trigger] path@[i] < self.tree().len(),
                forall|i: int|
                    0 <= i < k ==> self.tree()[(#[trigger] path@[i]) as int].visits() < u64::MAX,
            decreases path@.len() - k,
        {
            let n = path[k];
            if self.playouts[n].successes as u128 + self.playouts[n].failures as u128 >= u64::MAX as u128 {
                return false;
            }
            k = k + 1;
        }
        true
    }

    /// Runs one iteration from the root, which holds `root` with `player`
    /// to move: descends by sampled choice among the children of the legal
    /// moves while every legal move of a node has a child, expands one new
    /// child, plays a random game from it and counts the result along the
    /// path.  Returns false, leaving the tree as it was, only where the arena
    /// or a counter on the path is full.
    pub fn iterate<S: Sampler>(
        &mut self,
        root: &State,
        player: Player,
        max_plies: usize,
        sampler: &mut S,
    ) -> (r: bool)
        requires
            old(self).wf(),
            G::valid_state(*root),
            obeys_concrete_eq::<Move>(),
            forall|i: int|
                0 <= i < old(self).tree()[0].moves@.len() ==> G::legal(
                    *root,
                    player,
                    (#[trigger] old(self).tree()[0].moves@[i]).0,
                ),
        ensures
            final(self).wf(),
            final(self).game_spec() == old(self).game_spec(),
            final(self).tree()[0].moves@.len() >= old(self).tree()[0].moves@.len(),
            forall|i: int|
                0 <= i < final(self).tree()[0].moves@.len() ==> G::legal(
                    *root,
                    player,
                    (#[trigger] final(self).tree()[0].moves@[i]).0,
                ),
            !r ==> final(self).tree() == old(self).tree(),
            r ==> final(self).tree()[0].visits() == old(self).tree()[0].visits() + 1,
            r ==> old(self).tree().len() <= final(self).tree().len() <= old(self).tree().len() + 1,
            old(self).tree().len() < usize::MAX && (forall|n: int|
                0 <= n < old(self).tree().len() ==> #[trigger] old(self).tree()[n].visits() < u64::MAX)
                ==> r,
            old(self).tree().len() == 1 && old(self).tree()[0].visits() == 0 && (exists|m: Move|
                G::legal(*root, player, m)) && !G::wins(*root, Player::One) && !G::wins(
                *root,
                Player::Two,
            ) ==> r && final(self).tree()[0].moves@.len() > 0,
    {
        let mut node: usize = 0;
        let mut path: Vec<usize> = Vec::new();
        path.push(0);
        let mut to_move = player;
        let mut cur: Option<State> = None;
        let mut pending: Option<Move> = None;
        let ghost first = old(self).tree().len() == 1 && old(self).tree()[0].visits() == 0 && (exists|
            m: Move,
        | G::legal(*root, player, m)) && !G::wins(*root, Player::One) && !G::wins(*root, Player::Two);
        loop
            invariant_except_break
                pending is None,
            invariant
                self.wf(),
                self.tree() == old(self).tree(),
                G::valid_state(*root),
                obeys_concrete_eq::<Move>(),
                node < self.tree().len(),
                path@.len() >= 1,
                path@[0] == 0,
                path@.last() == node,
                forall|k: int| 0 <= k < path@.len() ==> #[trigger] path@[k] < self.tree().len(),
                forall|i: int, j: int| 0 <= i < j < path@.len() ==> path@[i] < path@[j],
                cur is None <==> node == 0,
                node == 0 ==> to_move == player,
                G::valid_state(at_node(*root, cur)),
                pending matches Some(m) ==> G::legal(at_node(*root, cur), to_move, m)
                    && !self.tree()[node as int].has_child(m),
                first ==> node == 0,
                first == (old(self).tree().len() == 1 && old(self).tree()[0].visits() == 0 && (exists|
                    m: Move,
                | G::legal(*root, player, m)) && !G::wins(*root, Player::One) && !G::wins(
                    *root,
                    Player::Two,
                )),
            ensures
                first ==> pending is Some,
            decreases self.tree().len() - node,
        {
            let here: &State = match &cur {
                Some(s) => s,
                None => root,
            };
            if G::won(here, Player::One) || G::won(here, Player::Two) {
                break ;
            }
            match self.unexpanded_move(node, here, to_move) {
                Some(m) => {
                    pending = Some(m);
                    break ;
                },
                None => {},
            }
            let options = G::moves(here, to_move);
            if options.len() == 0 {
                proof {
                    if first {
                        let w = choose|m: Move| G::legal(*root, player, m);
                        assert(options@.contains(w));
                    }
                }
                break ;
            }
            let mut samples: Vec<u64> = Vec::new();
            let mut children: Vec<usize> = Vec::new();
            let mut i: usize = 0;
            while i < options.len()
                invariant
                    i <= options@.len(),
                    self.wf(),
                    node < self.tree().len(),
                    obeys_concrete_eq::<Move>(),
                    forall|m: Move| options@.contains(m) ==> self.tree()[node as int].has_child(m),
                    samples@.len() == i,
                    children@.len() == i,
                    forall|k: int| 0 <= k < i ==> node < #[trigger] children@[k] < self.tree().len(),
                decreases options@.len() - i,
            {
                assert(options@.contains(options@[i as int]));
                let c = match self.child_for(node, options[i]) {
                    Some(c) => c,
                    None => {
                        proof {
                            assert(false);
                        }
                        0
                    },
                };
                let score = sampler.sample(self.playouts[c].successes, self.playouts[c].failures);
                samples.push(score);
                children.push(c);
                i = i + 1;
            }
            let k = first_max(&samples);
            let m = options[k];
            let c = children[k];
            assert(options@.contains(m));
            let next = match G::evaluate(here, to_move, m) {
                Ok(n) => n,
                Err(_) => {
                    proof {
                        assert(false);
                    }
                    break ;
                },
            };
            path.push(c);
            node = c;
            cur = Some(next);
            to_move = to_move.opponent();
        }
        if !self.has_room(&path) {
            return false;
        }
        match pending {
            Some(m) => {
                if self.playouts.len() == usize::MAX {
                    return false;
                }
                let here: &State = match &cur {
                    Some(s) => s,
                    None => root,
                };
                let next = match G::evaluate(here, to_move, m) {
                    Ok(n) => n,
                    Err(_) => {
                        proof {
                            assert(false);
                        }
                        return false;
                    },
                };
                let ghost before = self.tree();
                let c = self.expand(node, m);
                proof {
                    if node == 0 {
                        assert forall|i: int|
                            0 <= i < self.tree()[0].moves@.len() implies G::legal(
                            *root,
                            player,
                            (#[trigger] self.tree()[0].moves@[i]).0,
                        ) by {
                            if i < before[0].moves@.len() {
                                assert(self.tree()[0].moves@[i] == before[0].moves@[i]);
                            }
                        }
                    } else {
                        assert(self.tree()[0] == before[0]);
                    }
                }
                path.push(c);
                cur = Some(next);
                to_move = to_move.opponent();
            },
            None => {},
        }
        let winner = match cur {
            Some(s) => self.rollout(s, to_move, max_plies).winner,
            None => {
                if G::won(root, Player::One) {
                    Some(Player::One)
                } else if G::won(root, Player::Two) {
                    Some(Player::Two)
                } else {
                    None
                }
            },
        };
        proof {
            assert forall|i: int, j: int|
                0 <= i < path@.len() && 0 <= j < path@.len() && i != j implies path@[i] != path@[j] by {
                if i < j {
                    assert(path@[i] < path@[j]);
                } else {
                    assert(path@[j] < path@[i]);
                }
            }
            assert forall|k: int| 0 <= k < path@.len() implies #[trigger] path@[k] < self.tree().len()
                && self.tree()[path@[k] as int].visits() < u64::MAX by {}
        }
        let ghost before = self.tree();
        self.backpropagate(&path, player, winner);
        assert(path@[0] == 0);
        assert(self.tree()[0].moves == before[0].moves);
        true
    }

    /// `i` is the first edge of `node` whose child has the best record.
    pub open spec fn is_best_edge(&self, node: int, i: int) -> bool {
        let e = self.tree()[node].moves@;
        &&& 0 <= i < e.len()
        &&& forall|j: int|
            0 <= j < e.len() ==> !ranks_above(
                self.tree()[(#[trigger] e[j]).1 as int],
                self.tree()[e[i].1 as int],
            )
        &&& forall|j: int|
            0 <= j < i ==> ranks_above(self.tree()[e[i].1 as int], self.tree()[(#[trigger] e[j]).1 as int])
    }

    /// The edge of `node` whose child has the highest success ratio; ties
    /// go to more visits, then to the earlier edge.  `None` where `node` has
    /// no child.
    pub fn best_edge(&self, node: usize) -> (r: Option<usize>)
        requires
            self.wf(),
            node < self.tree().len(),
        ensures
            r is None <==> self.tree()[node as int].moves@.len() == 0,
            r matches Some(i) ==> self.is_best_edge(node as int, i as int),
    {
        let edges = &self.playouts[node].moves;
        if edges.len() == 0 {
            return None;
        }
        let ghost e = self.tree()[node as int].moves@;
        let ghost t = self.tree();
        assert(t[node as int].wf_node(node as int, t.len()));
        let mut best: usize = 0;
        let mut k: usize = 1;
        while k < edges.len()
            invariant
                edges@ == e,
                e == t[node as int].moves@,
                t == self.tree(),
                self.wf(),
                node < t.len(),
                t[node as int].wf_node(node as int, t.len()),
                1 <= k <= e.len(),
                best < k,
                forall|j: int| 0 <= j < k ==> !ranks_above(t[(#[trigger] e[j]).1 as int], t[e[best as int].1 as int]),
                forall|j: int| 0 <= j < best ==> ranks_above(t[e[best as int].1 as int], t[(#[trigger] e[j]).1 as int]),
            decreases e.len() - k,
        {
            let ck = edges[k].1;
            let cb = edges[best].1;
            assert(t[ck as int].wf_node(ck as int, t.len()));
            assert(t[cb as int].wf_node(cb as int, t.len()));
            if ranks_above_exec(&self.playouts[ck], &self.playouts[cb]) {
                proof {
                    assert forall|j: int| 0 <= j < k + 1 implies !ranks_above(
                        t[(#[trigger] e[j]).1 as int],
                        t[e[k as int].1 as int],
                    ) by {
                        if j < k {
                            lemma_rank_step(t[e[j].1 as int], t[cb as int], t[ck as int]);
                        }
                    }
                    assert forall|j: int| 0 <= j < k implies ranks_above(
                        t[e[k as int].1 as int],
                        t[(#[trigger] e[j]).1 as int],
                    ) by {
                        lemma_rank_step(t[e[j].1 as int], t[cb as int], t[ck as int]);
                    }
                }
                best = k;
            }
            k = k + 1;
        }
        Some(best)
    }

    /// Drops the whole tree: a lone root with no recorded playout.
    pub fn reset(&mut self)
        ensures
            final(self).wf(),
            final(self).fresh(),
            final(self).game_spec() == old(self).game_spec(),
    {
        let mut playouts: Vec<MCTSNode<Move>> = Vec::new();
        playouts.push(MCTSNode::new());
        self.playouts = playouts;
    }

    /// Searches from `root`, `player` to move, for `iterations` iterations
    /// (each playout cut after `max_plies` moves) and recommends the root
    /// move with the best record.  The tree is rebuilt from a lone root at
    /// the start of every search: nothing is kept from earlier calls.  The
    /// root's visit count tells how many iterations ran: all of them, unless
    /// the tree filled up first, which the contract states.
    pub fn search<S: Sampler>(
        &mut self,
        root: &State,
        player: Player,
        iterations: usize,
        max_plies: usize,
        sampler: &mut S,
    ) -> (r: Result<Move, SearchError>)
        requires
            old(self).wf(),
            G::valid_state(*root),
            obeys_concrete_eq::<Move>(),
        ensures
            final(self).wf(),
            final(self).game_spec() == old(self).game_spec(),
            r == Err::<Move, SearchError>(SearchError::NoIterations) <==> iterations == 0,
            r == Err::<Move, SearchError>(SearchError::Terminal) <==> iterations > 0 && (G::wins(
                *root,
                Player::One,
            ) || G::wins(*root, Player::Two) || forall|m: Move| !G::legal(*root, player, m)),
            r matches Ok(m) ==> G::legal(*root, player, m) && exists|i: int|
                final(self).is_best_edge(0, i) && (#[trigger] final(self).tree()[0].moves@[i]).0 == m,
            r is Ok ==> final(self).tree()[0].visits() <= iterations,
            r is Ok ==> final(self).tree()[0].visits() == iterations || Self::full(final(self).tree()),
    {
        if iterations == 0 {
            return Err(SearchError::NoIterations);
        }
        if G::won(root, Player::One) || G::won(root, Player::Two) {
            return Err(SearchError::Terminal);
        }
        let options = G::moves(root, player);
        if options.len() == 0 {
            proof {
                assert forall|m: Move| !G::legal(*root, player, m) by {
                    if G::legal(*root, player, m) {
                        assert(options@.contains(m));
                    }
                }
            }
            return Err(SearchError::Terminal);
        }
        assert(options@.contains(options@[0]));
        self.reset();
        let mut it: usize = 0;
        while it < iterations
            invariant
                self.wf(),
                self.game_spec() == old(self).game_spec(),
                G::valid_state(*root),
                obeys_concrete_eq::<Move>(),
                G::legal(*root, player, options@[0]),
                !G::wins(*root, Player::One),
                !G::wins(*root, Player::Two),
                it <= iterations,
                iterations > 0,
                self.tree()[0].visits() == it,
                it == 0 ==> self.fresh(),
                it > 0 ==> self.tree()[0].moves@.len() > 0,
                forall|i: int|
                    0 <= i < self.tree()[0].moves@.len() ==> G::legal(
                        *root,
                        player,
                        (#[trigger] self.tree()[0].moves@[i]).0,
                    ),
            ensures
                self.wf(),
                self.game_spec() == old(self).game_spec(),
                self.tree()[0].moves@.len() > 0,
                self.tree()[0].visits() <= iterations,
                self.tree()[0].visits() == iterations || Self::full(self.tree()),
                forall|i: int|
                    0 <= i < self.tree()[0].moves@.len() ==> G::legal(
                        *root,
                        player,
                        (#[trigger] self.tree()[0].moves@[i]).0,
                    ),
            decreases iterations - it,
        {
            assert(exists|m: Move| G::legal(*root, player, m)) by {
                assert(G::legal(*root, player, options@[0]));
            }
            if !self.iterate(root, player, max_plies, sampler) {
                assert(it > 0);
                let n_nodes = self.playouts.len();
                proof {
                    assert(n_nodes == self.tree().len());
                    if !Self::full(self.tree()) {
                        assert forall|n: int| 0 <= n < self.tree().len() implies #[trigger] self.tree()[n].visits()
                            < u64::MAX by {
                            assert(self.tree()[n].wf_node(n, self.tree().len()));
                        }
                    }
                }
                break ;
            }
            it = it + 1;
        }
        match self.best_edge(0) {
            Some(i) => {
                let m = self.playouts[0].moves[i].0;
                assert(self.tree()[0].moves@[i as int].0 == m);
                Ok(m)
            },
            None => Err(SearchError::Terminal),
        }
    }
}

} // verus!
