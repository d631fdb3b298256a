use mcts::game::{Game, Player};
use mcts::mcts::{first_max, MCTSNode, MonteCarloAgent, Sampler, SearchError};
use mcts::tictactoe::TicTacToeBoard;
use mcts::TicTacToe;
use probability::distribution::{Beta, Sample};
use probability::source::Source;

type Agent = MonteCarloAgent<TicTacToeBoard, (usize, usize), TicTacToe>;

struct BetaDraws<S: Source> {
    source: S,
}

impl<S: Source> Sampler for BetaDraws<S> {
    fn sample(&mut self, successes: u64, failures: u64) -> u64 {
        let b = Beta::new(successes as f64 + 1.0, failures as f64 + 1.0, 0.0, 1.0);
        b.sample(&mut self.source).to_bits()
    }
}

fn sampler() -> BetaDraws<probability::source::Xorshift128Plus> {
    BetaDraws { source: probability::source::Xorshift128Plus::new([7, 11]) }
}

fn board(rows: [[u8; 3]; 3]) -> TicTacToeBoard {
    rows.iter()
        .map(|r| {
            r.iter()
                .map(|c| match c {
                    1 => Some(Player::One),
                    2 => Some(Player::Two),
                    _ => None,
                })
                .collect()
        })
        .collect()
}

fn ratio(agent: &Agent, node: usize) -> f64 {
    let s = agent.successes(node) as f64;
    let f = agent.failures(node) as f64;
    s / (s + f)
}

#[test]
fn node_constructors_set_counters() {
    let n: MCTSNode<u8> = MCTSNode::new();
    assert_eq!((n.successes, n.failures, n.moves.len()), (0, 0, 0));
    let d: MCTSNode<u8> = MCTSNode::from_data(4, 9);
    assert_eq!((d.successes, d.failures, d.moves.len()), (4, 9, 0));
}

#[test]
fn new_agent_has_lone_root() {
    let a: Agent = MonteCarloAgent::new(TicTacToe::new());
    assert_eq!(a.node_count(), 1);
    assert_eq!((a.successes(0), a.failures(0)), (0, 0));
    let b: Agent = MonteCarloAgent::new_seeded(TicTacToe::new(), [1, 1]);
    assert_eq!(b.node_count(), 1);
}

#[test]
fn lookup_after_expand_is_stable() {
    let mut a: Agent = MonteCarloAgent::new_seeded(TicTacToe::new(), [1, 2]);
    assert_eq!(a.child_for(0, (1, 1)), None);
    let c = a.expand(0, (1, 1));
    assert_eq!(c, 1);
    assert_eq!(a.child_for(0, (1, 1)), Some(c));
    assert_eq!(a.child_for(0, (1, 1)), Some(c));
    assert_eq!(a.child_for(0, (0, 0)), None);
    let d = a.expand(0, (0, 0));
    assert_eq!(d, 2);
    assert_eq!(a.child_for(0, (1, 1)), Some(c));
    assert_eq!(a.child_for(0, (0, 0)), Some(d));
}

#[test]
fn record_counts_one_outcome() {
    let mut a: Agent = MonteCarloAgent::new_seeded(TicTacToe::new(), [1, 2]);
    a.record(0, true);
    a.record(0, false);
    a.record(0, false);
    assert_eq!((a.successes(0), a.failures(0)), (1, 2));
}

#[test]
fn backpropagate_credits_the_mover_into_each_node() {
    let mut a: Agent = MonteCarloAgent::new_seeded(TicTacToe::new(), [3, 4]);
    let c = a.expand(0, (0, 0));
    let g = a.expand(c, (1, 1));
    a.backpropagate(&vec![0, c, g], Player::One, Some(Player::One));
    assert_eq!((a.successes(0), a.failures(0)), (0, 1));
    assert_eq!((a.successes(c), a.failures(c)), (1, 0));
    assert_eq!((a.successes(g), a.failures(g)), (0, 1));
    a.backpropagate(&vec![0, c], Player::One, None);
    assert_eq!((a.successes(0), a.failures(0)), (0, 2));
    assert_eq!((a.successes(c), a.failures(c)), (1, 1));
    assert_eq!((a.successes(g), a.failures(g)), (0, 1));
}

#[test]
fn visits_equal_completed_iterations() {
    let mut a: Agent = MonteCarloAgent::new_seeded(TicTacToe::new(), [5, 6]);
    let mut s = sampler();
    let root = TicTacToe::new().get_state().clone();
    for _ in 0..50 {
        assert!(a.iterate(&root, Player::One, 9, &mut s));
    }
    assert_eq!(a.successes(0) + a.failures(0), 50);
    assert_eq!(a.node_count(), 51);
}

#[test]
fn first_max_prefers_earliest_tie() {
    assert_eq!(first_max(&vec![3, 9, 2, 9]), 1);
    assert_eq!(first_max(&vec![5]), 0);
    assert_eq!(first_max(&vec![1, 2, 3]), 2);
}

#[test]
fn pick_move_takes_largest_sample() {
    let mut a: Agent = MonteCarloAgent::new_seeded(TicTacToe::new(), [1, 2]);
    a.expand(0, (0, 0));
    a.expand(0, (0, 1));
    a.expand(0, (0, 2));
    assert_eq!(a.pick_move(0, &vec![10, 30, 20]), (0, 1));
    assert_eq!(a.pick_move(0, &vec![30, 30, 20]), (0, 0));
}

#[test]
fn best_edge_prefers_ratio_then_visits() {
    let mut a: Agent = MonteCarloAgent::new_seeded(TicTacToe::new(), [1, 2]);
    let x = a.expand(0, (0, 0));
    let y = a.expand(0, (0, 1));
    let z = a.expand(0, (0, 2));
    a.record(x, true);
    a.record(x, false);
    a.record(y, true);
    a.record(y, true);
    a.record(y, false);
    a.record(y, false);
    assert_eq!(a.best_edge(0), Some(1));
    a.record(z, true);
    assert_eq!(a.best_edge(0), Some(2));
    assert_eq!(a.best_edge(x), None);
}

#[test]
fn rollout_reaches_a_terminal_position() {
    let mut a: Agent = MonteCarloAgent::new_seeded(TicTacToe::new(), [9, 9]);
    let start = TicTacToe::new().get_state().clone();
    let r = a.rollout(start, Player::One, 9);
    assert!(r.moves.len() >= 5 && r.moves.len() <= 9);
    match r.winner {
        Some(p) => assert!(TicTacToe::won(&r.state, p)),
        None => {
            assert!(!TicTacToe::won(&r.state, Player::One));
            assert!(!TicTacToe::won(&r.state, Player::Two));
            assert!(TicTacToe::moves(&r.state, Player::One).is_empty());
        }
    }
}

#[test]
fn rollout_stops_at_the_ply_cap() {
    let mut a: Agent = MonteCarloAgent::new_seeded(TicTacToe::new(), [9, 9]);
    let start = TicTacToe::new().get_state().clone();
    let r = a.rollout(start, Player::One, 2);
    assert_eq!(r.moves.len(), 2);
    assert_eq!(r.winner, None);
}

#[test]
fn search_with_no_budget_is_refused() {
    let mut a: Agent = MonteCarloAgent::new_seeded(TicTacToe::new(), [1, 2]);
    let root = TicTacToe::new().get_state().clone();
    assert_eq!(a.search(&root, Player::One, 0, 9, &mut sampler()), Err(SearchError::NoIterations));
}

#[test]
fn search_on_drawn_board_reports_terminal() {
    let mut a: Agent = MonteCarloAgent::new_seeded(TicTacToe::new(), [1, 2]);
    let root = board([[1, 2, 1], [1, 2, 2], [2, 1, 1]]);
    assert!(!TicTacToe::won(&root, Player::One));
    assert!(!TicTacToe::won(&root, Player::Two));
    assert_eq!(a.search(&root, Player::One, 10, 9, &mut sampler()), Err(SearchError::Terminal));
}

#[test]
fn search_on_won_board_reports_terminal() {
    let mut a: Agent = MonteCarloAgent::new_seeded(TicTacToe::new(), [1, 2]);
    let root = board([[1, 1, 1], [2, 2, 0], [0, 0, 0]]);
    assert_eq!(a.search(&root, Player::Two, 10, 9, &mut sampler()), Err(SearchError::Terminal));
}

#[test]
fn search_completes_the_open_line() {
    let mut a: Agent = MonteCarloAgent::new_seeded(TicTacToe::new(), [1, 2]);
    let root = board([[1, 1, 0], [2, 0, 0], [0, 0, 2]]);
    assert_eq!(a.search(&root, Player::One, 2000, 9, &mut sampler()), Ok((0, 2)));
}

#[test]
fn search_converges_on_the_winning_move() {
    let mut a: Agent = MonteCarloAgent::new_seeded(TicTacToe::new(), [3, 5]);
    let root = board([[1, 1, 0], [2, 2, 0], [0, 0, 0]]);
    assert_eq!(a.search(&root, Player::One, 2000, 9, &mut sampler()), Ok((0, 2)));
    let win = a.child_for(0, (0, 2)).unwrap();
    assert!(ratio(&a, win) > 0.99);
    for m in TicTacToe::moves(&root, Player::One) {
        if m != (0, 2) {
            let c = a.child_for(0, m).unwrap();
            assert!(ratio(&a, c) < ratio(&a, win) - 0.1);
        }
    }
}

#[test]
fn rollout_moves_replay_to_its_final_state() {
    let mut a: Agent = MonteCarloAgent::new_seeded(TicTacToe::new(), [2, 8]);
    let start = board([[1, 0, 0], [0, 2, 0], [0, 0, 0]]);
    let r = a.rollout(start.clone(), Player::One, 9);
    let mut state = start;
    let mut to_move = Player::One;
    for m in r.moves.iter() {
        state = TicTacToe::evaluate(&state, to_move, *m).unwrap();
        to_move = to_move.opponent();
    }
    assert_eq!(state, r.state);
    if r.winner.is_none() {
        assert!(TicTacToe::moves(&r.state, to_move).is_empty());
    }
}

#[test]
fn search_runs_the_whole_budget() {
    let mut a: Agent = MonteCarloAgent::new_seeded(TicTacToe::new(), [4, 4]);
    let root = TicTacToe::new().get_state().clone();
    assert!(a.search(&root, Player::One, 137, 9, &mut sampler()).is_ok());
    assert_eq!(a.successes(0) + a.failures(0), 137);
    assert!(a.node_count() <= 138);
}

#[test]
fn iteration_adds_at_most_one_node() {
    let mut a: Agent = MonteCarloAgent::new_seeded(TicTacToe::new(), [6, 1]);
    let mut s = sampler();
    let root = board([[1, 2, 1], [2, 1, 0], [0, 0, 0]]);
    for _ in 0..40 {
        let before = a.node_count();
        let visits = a.successes(0) + a.failures(0);
        assert!(a.iterate(&root, Player::Two, 9, &mut s));
        assert!(a.node_count() <= before + 1);
        assert_eq!(a.successes(0) + a.failures(0), visits + 1);
    }
}
