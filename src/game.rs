use vstd::prelude::*;

verus! {

/// One of the two sides of a two-player game.
#[derive(Clone, Copy, PartialEq, Eq, Structural, Debug)]
pub enum Player {
    One,
    Two,
}

impl Player {
    /// The side that is not `self`.
    pub open spec fn opponent_spec(self) -> Player {
        match self {
            Player::One => Player::Two,
            Player::Two => Player::One,
        }
    }

    pub fn opponent(self) -> (r: Player)
        ensures
            r == self.opponent_spec(),
    {
        match self {
            Player::One => Player::Two,
            Player::Two => Player::One,
        }
    }
}

/// A move that the rules of the game do not allow in the given position.
#[derive(Clone, Copy, PartialEq, Eq, Structural, Debug)]
pub struct IllegalMove;

/// A Game is an entity that the search can run over.
///
/// A game provides a constructor, the player to move, a getter and setter
/// for its state, the legal moves of a position, the position that a move
/// leads to, and a check whether a player has won.  Each operation is tied
/// to a spec function, so that code generic over games can reason about it.
pub trait Game<State, Move>: Sized {
    /// The invariant of a game instance.
    spec fn inv(&self) -> bool;

    /// The state the instance holds.
    spec fn state_spec(&self) -> State;

    /// Whose turn it is in the held state.
    spec fn player_spec(&self) -> Player;

    /// States that the rule functions accept.
    spec fn valid_state(state: State) -> bool;

    /// `action` is a legal move of `player` in `state`.
    spec fn legal(state: State, player: Player, action: Move) -> bool;

    /// `next` is the position that `action` by `player` leads to from `state`.
    spec fn transition(state: State, player: Player, action: Move, next: State) -> bool;

    /// `player` holds a winning configuration in `state`.
    spec fn wins(state: State, player: Player) -> bool;

    /// The legal moves of `player` in `state`, in the order `moves` lists
    /// them: the same list for the same arguments.
    spec fn moves_spec(state: State, player: Player) -> Seq<Move>;

    fn new() -> (g: Self)
        ensures
            g.inv(),
    ;

    fn get_player(&self) -> (p: Player)
        requires
            self.inv(),
        ensures
            p == self.player_spec(),
    ;

    fn get_state(&self) -> (s: &State)
        ensures
            *s == self.state_spec(),
    ;

    fn set_state(&mut self, state: State)
        requires
            Self::valid_state(state),
        ensures
            final(self).state_spec() == state,
    ;

    /// All legal moves of `player` in `state`, each once.
    fn moves(state: &State, player: Player) -> (r: Vec<Move>)
        requires
            Self::valid_state(*state),
        ensures
            r@ == Self::moves_spec(*state, player),
            r@.no_duplicates(),
            forall|m: Move| r@.contains(m) <==> Self::legal(*state, player, m),
    ;

    /// The position after `action`, or `IllegalMove` where it is not legal.
    fn evaluate(state: &State, player: Player, action: Move) -> (r: Result<State, IllegalMove>)
        requires
            Self::valid_state(*state),
        ensures
            r is Ok <==> Self::legal(*state, player, action),
            r matches Ok(next) ==> Self::transition(*state, player, action, next)
                && Self::valid_state(next),
    ;

    /// Whether `player` has won in `state`.
    fn won(state: &State, player: Player) -> (r: bool)
        requires
            Self::valid_state(*state),
        ensures
            r == Self::wins(*state, player),
    ;
}

} // verus!
