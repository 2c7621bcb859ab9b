use core::marker::PhantomData;
use vstd::prelude::*;

verus! {

/// One of the two sides of a game.
#[derive(Debug, Clone, Copy, PartialEq, Eq, Structural)]
pub enum Player {
    X,
    O,
}

/// What a cell holds: nobody, or one player's stone.
pub type Position = Option<Player>;

/// The outcome of a board: decided for a player, drawn, or still open.
#[derive(Debug, Clone, Copy, PartialEq, Eq, Structural)]
pub enum State {
    Winner(Player),
    InProgress,
    Draw,
}

pub open spec fn opponent_of(p: Player) -> Player {
    match p {
        Player::X => Player::O,
        Player::O => Player::X,
    }
}

/// The small integer a cell counts for when four cells are summed: a run
/// of four sums to 4 only when all are `X`, and to 64 only when all are `O`.
pub open spec fn position_value(pos: Position) -> u8 {
    match pos {
        None => 0,
        Some(Player::X) => 1,
        Some(Player::O) => 16,
    }
}

/// The code of a cell in the exchange format: 0 for `X`, 1 for `O`, 2 for empty.
pub open spec fn position_code(pos: Position) -> u8 {
    match pos {
        Some(Player::X) => 0,
        Some(Player::O) => 1,
        None => 2,
    }
}

pub fn position_as_int(pos: Position) -> (r: u8)
    ensures
        r == position_value(pos),
{
    match pos {
        None => 0,
        Some(Player::X) => 1,
        Some(Player::O) => 16,
    }
}

impl Player {
    pub fn opponent(self) -> (r: Self)
        ensures
            r == opponent_of(self),
            r != self,
    {
        match self {
            Player::X => Player::O,
            Player::O => Player::X,
        }
    }

    pub fn from_u8(num: u8) -> (r: Result<Option<Self>, ()>)
        ensures
            num < 3 <==> r is Ok,
            r matches Ok(pos) ==> position_code(pos) == num,
    {
        match num {
            0 => Ok(Some(Player::X)),
            1 => Ok(Some(Player::O)),
            2 => Ok(None),
            _ => Err(()),
        }
    }

    pub fn as_u8(this: Option<Player>) -> (r: u8)
        ensures
            r == position_code(this),
    {
        match this {
            Some(Player::X) => 0,
            Some(Player::O) => 1,
            None => 2,
        }
    }
}

/// A side of the search tree that a score is measured for. Negating a
/// score hands it over to the other side.
pub trait MinmaxPlayer {
    type Enemy;
}

pub struct GoodPlayer;

pub struct EvilPlayer;

pub struct IgnorePlayer;

impl MinmaxPlayer for GoodPlayer {
    type Enemy = EvilPlayer;
}

impl MinmaxPlayer for EvilPlayer {
    type Enemy = GoodPlayer;
}

impl MinmaxPlayer for IgnorePlayer {
    type Enemy = IgnorePlayer;
}

/// The largest score: the side it is measured for has won.
pub const WON: i32 = 2147483647;

/// The smallest score, one above `i32::MIN` so that it can be negated.
pub const LOST: i32 = -2147483647;

/// The score of a drawn game.
pub const TIE: i32 = 0;

/// A rating of a position, for the side `P`.
pub struct Score<P>(pub i32, pub PhantomData<P>);

impl<P> Clone for Score<P> {
    fn clone(&self) -> (r: Self)
        ensures
            r.0 == self.0,
    {
        Score(self.0, PhantomData)
    }
}

impl<P> Copy for Score<P> {
}

impl Score<IgnorePlayer> {
    pub fn for_player<Q>(self) -> (r: Score<Q>)
        ensures
            r.0 == self.0,
    {
        Score(self.0, PhantomData)
    }
}

impl<P> Score<P> {
    pub fn new(value: i32) -> (r: Self)
        ensures
            r.0 == value,
    {
        Score(value, PhantomData)
    }

    pub fn ignore_side(self) -> (r: Score<IgnorePlayer>)
        ensures
            r.0 == self.0,
    {
        Score(self.0, PhantomData)
    }
}

impl<P: MinmaxPlayer> Score<P> {
    /// The same rating seen from the other side.
    pub fn negate(self) -> (r: Score<P::Enemy>)
        requires
            self.0 > i32::MIN,
        ensures
            r.0 == -self.0,
    {
        Score(-self.0, PhantomData)
    }
}

/// The number of empty cells.
pub open spec fn empty_count(c: Seq<Position>) -> nat
    decreases c.len(),
{
    if c.len() == 0 {
        0
    } else {
        empty_count(c.drop_last()) + if c.last() is None {
            1nat
        } else {
            0nat
        }
    }
}

/// Putting a stone into an empty cell leaves one empty cell less.
pub proof fn lemma_fill_cell(c: Seq<Position>, i: int, p: Player)
    requires
        0 <= i < c.len(),
        c[i] is None,
    ensures
        empty_count(c.update(i, Some(p))) + 1 == empty_count(c),
    decreases c.len(),
{
    let d = c.update(i, Some(p));
    if i < c.len() - 1 {
        assert(d.drop_last() =~= c.drop_last().update(i, Some(p)));
        lemma_fill_cell(c.drop_last(), i, p);
    } else {
        assert(d.drop_last() =~= c.drop_last());
    }
}

pub proof fn lemma_empty_count_bound(c: Seq<Position>)
    ensures
        empty_count(c) <= c.len(),
    decreases c.len(),
{
    if c.len() > 0 {
        lemma_empty_count_bound(c.drop_last());
    }
}

/// A board with an empty cell has a positive count of empty cells.
pub proof fn lemma_has_empty_cell(c: Seq<Position>, i: int)
    requires
        0 <= i < c.len(),
        c[i] is None,
    ensures
        empty_count(c) > 0,
    decreases c.len(),
{
    if i < c.len() - 1 {
        lemma_has_empty_cell(c.drop_last(), i);
    }
}

} // verus!
