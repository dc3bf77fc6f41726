//! The game engine: marking, revealing with its cascade, and the end of a
//! game.
use vstd::prelude::*;

use crate::board::{Board, MineOrHint, Tile};
use crate::count::{lemma_count_le_len, lemma_count_none, lemma_count_same, lemma_count_update};

verus! {

/// How a game stands.
#[derive(Clone, Copy, Debug, PartialEq, Eq, Structural)]
pub enum Winstate {
    Won,
    Lost,
    InProgress,
}

impl Winstate {
    /// The line shown to the player for this state.
    pub fn message(&self) -> (r: &'static str)
        ensures
            *self == Winstate::Won ==> r@ == "You won!"@,
            *self == Winstate::Lost ==> r@ == "You lost!"@,
            *self == Winstate::InProgress ==> r@ == "Game in progress..."@,
    {
        match self {
            Winstate::Won => "You won!",
            Winstate::Lost => "You lost!",
            Winstate::InProgress => "Game in progress...",
        }
    }
}

/// Why an operation was refused.
#[derive(Clone, Copy, Debug, PartialEq, Eq, Structural)]
pub enum GameError {
    /// The width or the height is zero.
    InvalidDimensions,
    /// More mines were asked for than there are tiles.
    InvalidMineCount,
    /// The tile does not exist, or its state forbids the operation.
    InvalidTileState,
    /// The game is already won or lost.
    GameEnded,
}

/// One game: the board, how it stands, and how many tiles are marked.
pub struct Game {
    pub board: Board,
    pub winstate: Winstate,
    pub marked_count: usize,
}

/// The mathematical state of a game.
pub struct GameView {
    pub tiles: Seq<Tile>,
    pub width: nat,
    pub height: nat,
    pub winstate: Winstate,
    pub marked_count: nat,
}

impl View for Game {
    type V = GameView;

    open spec fn view(&self) -> GameView {
        GameView {
            tiles: self.board.tiles@,
            width: self.board.width as nat,
            height: self.board.height as nat,
            winstate: self.winstate,
            marked_count: self.marked_count as nat,
        }
    }
}

/// The view of a game after tile `id` gets mark `m`, the count following.
pub open spec fn with_mark(v: GameView, id: int, m: bool) -> GameView {
    GameView {
        tiles: v.tiles.update(id, Tile { marked: m, ..v.tiles[id] }),
        marked_count: if m {
            v.marked_count + 1
        } else {
            (v.marked_count - 1) as nat
        },
        ..v
    }
}

/// Whether tile `id` may be marked: the game goes on and the tile is hidden
/// and unmarked.
pub open spec fn can_mark(v: GameView, id: int) -> bool {
    &&& v.winstate == Winstate::InProgress
    &&& 0 <= id < v.tiles.len()
    &&& v.tiles[id].hidden
    &&& !v.tiles[id].marked
}

/// Whether tile `id` may be unmarked: the game goes on and the tile is
/// marked.
pub open spec fn can_unmark(v: GameView, id: int) -> bool {
    &&& v.winstate == Winstate::InProgress
    &&& 0 <= id < v.tiles.len()
    &&& v.tiles[id].marked
}

/// Whether tile `id` may be revealed: the game goes on and the tile is
/// hidden and unmarked.
pub open spec fn can_reveal(v: GameView, id: int) -> bool {
    &&& v.winstate == Winstate::InProgress
    &&& 0 <= id < v.tiles.len()
    &&& v.tiles[id].hidden
    &&& !v.tiles[id].marked
}

/// The error for a refused mark, unmark or reveal.
pub open spec fn move_error(v: GameView) -> GameError {
    if v.winstate != Winstate::InProgress {
        GameError::GameEnded
    } else {
        GameError::InvalidTileState
    }
}

/// Relies on `rand::seq::index::sample`, drawing from `rand::thread_rng` and
/// read out with `IndexVec::into_vec`: exactly `amount` distinct indices from
/// `0..length`, in random order. It panics when `amount > length`, hence the
/// precondition.
#[verifier::external_body]
fn sample_indices(length: usize, amount: usize) -> (r: Vec<usize>)
    requires
        amount <= length,
    ensures
        r@.len() == amount,
        r@.no_duplicates(),
        forall|k: int| 0 <= k < r@.len() ==> #[trigger] r@[k] < length,
{
    rand::seq::index::sample(&mut rand::thread_rng(), length, amount).into_vec()
}

/// Tile `n` was opened from tile `p`: `p` is a revealed neighbour that the
/// cascade expands (the tile `id` first revealed, or one without mines
/// around it), and either `n` or `p` has no mined neighbour.
pub open spec fn opened_via(b0: &Board, b: &Board, id: int, n: int, p: int) -> bool {
    &&& 0 <= p < b0.tiles@.len()
    &&& b0.neighbour_set(p).contains(n as usize)
    &&& !b.tiles@[p].hidden
    &&& (p == id || (!b0.tiles@[p].mined && b0.hint(p) == 0))
    &&& (b0.hint(n) == 0 || b0.hint(p) == 0)
}

/// Tile `n` was opened from `p`, and `p` is the tile `id` or was itself
/// opened earlier: `rank` orders the tiles by when they were opened.
pub open spec fn opened_after(
    b0: &Board,
    b: &Board,
    id: int,
    n: int,
    p: int,
    rank: Map<int, nat>,
) -> bool {
    &&& opened_via(b0, b, id, n, p)
    &&& (p == id || (b0.tiles@[p].hidden && rank[p] < rank[n]))
}

/// Each tile free of mines that `b` reveals beyond `b0`, other than `id`, was
/// opened from `via[i]`, in the order that `rank` gives.
pub open spec fn reached_in_order(
    b0: &Board,
    b: &Board,
    id: int,
    via: Map<int, int>,
    rank: Map<int, nat>,
) -> bool {
    forall|i: int|
        0 <= i < b0.tiles@.len() && i != id && b0.tiles@[i].hidden && !(
        #[trigger] b.tiles@[i]).hidden && !b0.tiles@[i].mined ==> opened_after(
            b0,
            b,
            id,
            i,
            via[i],
            rank,
        )
}

/// Every tile free of mines that `b` reveals beyond `b0` was reached from
/// `id` by a chain of openings, each from a tile opened before it.
pub open spec fn reached_from(b0: &Board, b: &Board, id: int) -> bool {
    exists|via: Map<int, int>, rank: Map<int, nat>| reached_in_order(b0, b, id, via, rank)
}

/// Each tile of `b` is as in `b0`, or was hidden there, holds no mine, and
/// has been opened through its recorded neighbour `via[i]` before `step`.
pub open spec fn cascade_so_far(
    b0: &Board,
    b: &Board,
    id: int,
    via: Map<int, int>,
    rank: Map<int, nat>,
    step: nat,
) -> bool {
    forall|i: int|
        0 <= i < b0.tiles@.len() ==> #[trigger] b.tiles@[i] == b0.tiles@[i] || (b0.tiles@[i].hidden
            && b.tiles@[i] == Tile { hidden: false, marked: false, ..b0.tiles@[i] }
            && !b0.tiles@[i].mined && opened_after(b0, b, id, i, via[i], rank) && rank[i] < step)
}

/// Every revealed tile of `b` without mines around it, other than `skip` and
/// those still waiting in `pending`, has all its neighbours revealed.
pub open spec fn closed_except(b0: &Board, b: &Board, pending: Seq<usize>, skip: int) -> bool {
    forall|p: usize, n: usize|
        #![trigger b.tiles@[p as int], b0.neighbour_set(p as int).contains(n)]
        (p as int) < b0.tiles@.len() && !b.tiles@[p as int].hidden && !b0.tiles@[p as int].mined
            && b0.hint(p as int) == 0 && !pending.contains(p) && p != skip
            && b0.neighbour_set(p as int).contains(n) ==> !b.tiles@[n as int].hidden
}

/// Reaching from `id` survives a start board that differs only at `id`, and
/// revealing mines on top.
proof fn lemma_reached_moves(b0: &Board, c0: &Board, b: &Board, c: &Board, id: int)
    requires
        b0.width == c0.width,
        b0.tiles@.len() == c0.tiles@.len(),
        b.tiles@.len() == b0.tiles@.len(),
        c.tiles@.len() == b0.tiles@.len(),
        forall|i: int|
            0 <= i < b0.tiles@.len() ==> (#[trigger] b0.tiles@[i]).mined == c0.tiles@[i].mined,
        forall|i: int|
            0 <= i < b0.tiles@.len() && i != id ==> (#[trigger] b0.tiles@[i]).hidden
                == c0.tiles@[i].hidden,
        forall|i: int|
            0 <= i < b0.tiles@.len() ==> (#[trigger] b.tiles@[i]).hidden == c.tiles@[i].hidden
                || c.tiles@[i].mined,
        forall|i: int|
            0 <= i < b0.tiles@.len() ==> (#[trigger] c.tiles@[i]).mined == c0.tiles@[i].mined,
        0 <= id < b0.tiles@.len(),
        !b0.tiles@[id].mined,
        reached_from(b0, b, id),
    ensures
        reached_from(c0, c, id),
{
    b0.lemma_same_mines(c0);
    let (via, rank) = choose|via: Map<int, int>, rank: Map<int, nat>|
        reached_in_order(b0, b, id, via, rank);
    assert forall|i: int|
        0 <= i < c0.tiles@.len() && i != id && c0.tiles@[i].hidden && !(
        #[trigger] c.tiles@[i]).hidden && !c0.tiles@[i].mined implies opened_after(
        c0,
        c,
        id,
        i,
        via[i],
        rank,
    ) by {
        assert(b0.tiles@[i].hidden);
        assert(!b.tiles@[i].hidden);
        assert(opened_after(b0, b, id, i, via[i], rank));
        let p = via[i];
        assert(b0.neighbour_set(p) =~= c0.neighbour_set(p));
        assert(!b0.tiles@[p].mined);
        assert(!c.tiles@[p].mined);
        assert(!c.tiles@[p].hidden);
    }
    assert(reached_in_order(c0, c, id, via, rank));
}

impl Game {
    /// The board is well formed and the marked count is the number of marked
    /// tiles.
    pub open spec fn counts_ok(&self) -> bool {
        &&& self.board.wf()
        &&& self.marked_count == self.board.marked_total()
    }

    /// The invariant of every game: counts agree and the board is closed.
    pub open spec fn wf(&self) -> bool {
        &&& self.counts_ok()
        &&& self.board.closed()
    }

    /// A board of `width` by `height` hidden, unmarked tiles without mines.
    pub fn gen_empty(width: usize, height: usize) -> (r: Result<Board, GameError>)
        requires
            width * height <= usize::MAX,
        ensures
            r is Err <==> width == 0 || height == 0,
            r is Err ==> r->Err_0 == GameError::InvalidDimensions,
            r is Ok ==> {
                &&& r->Ok_0.wf()
                &&& r->Ok_0.width == width
                &&& r->Ok_0.height == height
                &&& r->Ok_0.is_fresh()
            },
    {
        if width == 0 || height == 0 {
            return Err(GameError::InvalidDimensions);
        }
        let n: usize = width * height;
        let mut out: Vec<Tile> = Vec::new();
        let mut id: usize = 0;
        while id < n
            invariant
                id <= n,
                out@.len() == id,
                forall|i: int|
                    0 <= i < id ==> #[trigger] out@[i] == (Tile {
                        mined: false,
                        hidden: true,
                        marked: false,
                        id: i as usize,
                    }),
            decreases n - id,
        {
            out.push(Tile { mined: false, hidden: true, marked: false, id });
            id = id + 1;
        }
        Ok(Board { tiles: out, width, height })
    }

    /// A game in progress on `board`, whose tiles are all hidden and
    /// unmarked.
    pub fn from_board(board: Board) -> (r: Game)
        requires
            board.wf(),
            forall|i: int|
                0 <= i < board.tiles@.len() ==> (#[trigger] board.tiles@[i]).hidden
                    && !board.tiles@[i].marked,
        ensures
            r.wf(),
            r.board == board,
            r.winstate == Winstate::InProgress,
            r.marked_count == 0,
    {
        proof {
            lemma_count_none(board.tiles@, |t: Tile| t.marked);
        }
        Game { board, winstate: Winstate::InProgress, marked_count: 0 }
    }

    /// Marks hidden tile `id` as holding a mine.
    pub fn mark(&mut self, id: usize) -> (r: Result<(), GameError>)
        requires
            old(self).wf(),
        ensures
            final(self).wf(),
            r is Ok <==> can_mark(old(self)@, id as int),
            r is Ok ==> final(self)@ == with_mark(old(self)@, id as int, true),
            r is Err ==> r->Err_0 == move_error(old(self)@) && final(self)@ == old(self)@,
    {
        if self.winstate != Winstate::InProgress {
            return Err(GameError::GameEnded);
        }
        if id >= self.board.tiles.len() || !self.board.tiles[id].hidden
            || self.board.tiles[id].marked {
            return Err(GameError::InvalidTileState);
        }
        let mut t = self.board.tiles[id];
        proof {
            lemma_count_update(self.board.tiles@, |t: Tile| t.marked, id as int, Tile { marked: true, ..t });
            lemma_count_le_len(self.board.tiles@.update(id as int, Tile { marked: true, ..t }), |t: Tile| t.marked);
        }
        t.marked = true;
        self.board.tiles.set(id, t);
        self.marked_count = self.marked_count + 1;
        proof {
            assert(self.board.tiles@ == with_mark(old(self)@, id as int, true).tiles);
            self.board.lemma_closed_keeps(&old(self).board);
        }
        Ok(())
    }

    /// Takes the mark off tile `id`.
    pub fn unmark(&mut self, id: usize) -> (r: Result<(), GameError>)
        requires
            old(self).wf(),
        ensures
            final(self).wf(),
            r is Ok <==> can_unmark(old(self)@, id as int),
            r is Ok ==> final(self)@ == with_mark(old(self)@, id as int, false),
            r is Err ==> r->Err_0 == move_error(old(self)@) && final(self)@ == old(self)@,
    {
        if self.winstate != Winstate::InProgress {
            return Err(GameError::GameEnded);
        }
        if id >= self.board.tiles.len() || !self.board.tiles[id].marked {
            return Err(GameError::InvalidTileState);
        }
        let mut t = self.board.tiles[id];
        proof {
            lemma_count_update(self.board.tiles@, |t: Tile| t.marked, id as int, Tile { marked: false, ..t });
        }
        t.marked = false;
        self.board.tiles.set(id, t);
        self.marked_count = self.marked_count - 1;
        proof {
            assert(self.board.tiles@ == with_mark(old(self)@, id as int, false).tiles);
            self.board.lemma_closed_keeps(&old(self).board);
        }
        Ok(())
    }


    /// Lays `mine_count` mines on distinct tiles drawn at random, on a fresh
    /// board.
    pub fn set_mines(&mut self, mine_count: usize) -> (r: Result<(), GameError>)
        requires
            old(self).wf(),
            old(self).board.is_fresh(),
        ensures
            final(self).wf(),
            r is Err <==> mine_count > old(self).board.tiles@.len(),
            r is Err ==> r->Err_0 == GameError::InvalidMineCount && final(self)@ == old(self)@,
            r is Ok ==> {
                &&& final(self).board.mine_count() == mine_count
                &&& final(self).board.width == old(self).board.width
                &&& final(self).board.height == old(self).board.height
                &&& final(self).winstate == old(self).winstate
                &&& final(self).marked_count == 0
                &&& final(self).board.tiles@.len() == old(self).board.tiles@.len()
                &&& forall|i: int|
                    0 <= i < final(self).board.tiles@.len() ==> (#[trigger] final(self).board.tiles@[i]).hidden
                        && !final(self).board.tiles@[i].marked
            },
    {
        if mine_count > self.board.tiles.len() {
            return Err(GameError::InvalidMineCount);
        }
        let mines = sample_indices(self.board.tiles.len(), mine_count);
        proof {
            lemma_count_none(self.board.tiles@, |t: Tile| t.marked);
        }
        self.place_mines_at(&mines);
        proof {
            assert forall|i: int| 0 <= i < self.board.tiles@.len() implies (
            #[trigger] self.board.tiles@[i]).hidden && !self.board.tiles@[i].marked by {
                assert(old(self).board.tiles@[i].hidden);
            }
        }
        Ok(())
    }

    /// Lays a mine on each tile listed in `mines`, on a fresh board.
    pub fn place_mines_at(&mut self, mines: &Vec<usize>)
        requires
            old(self).wf(),
            old(self).board.is_fresh(),
            mines@.no_duplicates(),
            forall|k: int| 0 <= k < mines@.len() ==> #[trigger] mines@[k] < old(self).board.tiles@.len(),
        ensures
            final(self).wf(),
            final(self).board.mine_count() == mines@.len(),
            final(self).board.width == old(self).board.width,
            final(self).board.height == old(self).board.height,
            final(self).winstate == old(self).winstate,
            final(self).marked_count == old(self).marked_count,
            final(self).board.tiles@.len() == old(self).board.tiles@.len(),
            forall|i: int|
                0 <= i < final(self).board.tiles@.len() ==> #[trigger] final(self).board.tiles@[i]
                    == (Tile { mined: mines@.contains(i as usize), ..old(self).board.tiles@[i] }),
    {
        self.board.place_mines_at(mines);
        proof {
            lemma_count_same(self.board.tiles@, old(self).board.tiles@, |t: Tile| t.marked);
            assert forall|p: usize| !#[trigger] self.board.is_open_empty(p) by {
                if (p as int) < self.board.tiles@.len() {
                    assert(old(self).board.tiles@[p as int].hidden);
                }
            }
        }
    }

    /// A new game in progress on a `width` by `height` board holding
    /// `mine_count` mines.
    pub fn new_game(width: usize, height: usize, mine_count: usize) -> (r: Result<Game, GameError>)
        requires
            width * height <= usize::MAX,
        ensures
            r is Ok <==> width > 0 && height > 0 && mine_count <= width * height,
            r == Err::<Game, GameError>(GameError::InvalidDimensions) <==> width == 0 || height == 0,
            r == Err::<Game, GameError>(GameError::InvalidMineCount) <==> width > 0 && height > 0
                && mine_count > width * height,
            r is Ok ==> {
                let g = r->Ok_0;
                &&& g.wf()
                &&& g.board.width == width
                &&& g.board.height == height
                &&& g.board.mine_count() == mine_count
                &&& g.winstate == Winstate::InProgress
                &&& g.marked_count == 0
                &&& forall|i: int|
                    0 <= i < g.board.tiles@.len() ==> (#[trigger] g.board.tiles@[i]).hidden
                        && !g.board.tiles@[i].marked
            },
    {
        let board = match Game::gen_empty(width, height) {
            Ok(b) => b,
            Err(e) => return Err(e),
        };
        let mut game = Game::from_board(board);
        match game.set_mines(mine_count) {
            Ok(()) => Ok(game),
            Err(e) => Err(e),
        }
    }

    /// Reveals tile `n` and takes its mark off.
    fn unmark_and_unhide(&mut self, n: usize)
        requires
            old(self).counts_ok(),
            n < old(self).board.tiles@.len(),
        ensures
            final(self).counts_ok(),
            final(self).board.width == old(self).board.width,
            final(self).board.height == old(self).board.height,
            final(self).winstate == old(self).winstate,
            final(self).board.tiles@ == old(self).board.tiles@.update(
                n as int,
                Tile { hidden: false, marked: false, ..old(self).board.tiles@[n as int] },
            ),
            final(self).board.hidden_total() + (if old(self).board.tiles@[n as int].hidden {
                1int
            } else {
                0int
            }) == old(self).board.hidden_total(),
    {
        let mut t = self.board.tiles[n];
        let ghost t1 = Tile { hidden: false, marked: false, ..t };
        proof {
            lemma_count_update(self.board.tiles@, |t: Tile| t.marked, n as int, t1);
            lemma_count_update(self.board.tiles@, |t: Tile| t.hidden, n as int, t1);
        }
        if t.marked {
            self.marked_count = self.marked_count - 1;
        }
        t.marked = false;
        t.hidden = false;
        self.board.tiles.set(n, t);
    }

    /// The cascade from the revealed tile `id`: every hidden neighbour of an
    /// expanded tile is revealed when it has no mined neighbour, and then
    /// expanded in turn, or when the expanded tile has none.
    #[verifier::rlimit(100)]
    #[verifier::spinoff_prover]
    fn reveal_empty_and_neighbouring_tiles(&mut self, id: usize)
        requires
            old(self).counts_ok(),
            id < old(self).board.tiles@.len(),
            !old(self).board.tiles@[id as int].hidden,
            !old(self).board.tiles@[id as int].mined,
            closed_except(&old(self).board, &old(self).board, Seq::empty(), id as int),
        ensures
            final(self).counts_ok(),
            final(self).board.width == old(self).board.width,
            final(self).board.height == old(self).board.height,
            final(self).winstate == old(self).winstate,
            final(self).board.tiles@.len() == old(self).board.tiles@.len(),
            forall|i: int|
                0 <= i < old(self).board.tiles@.len() ==> #[trigger] final(self).board.tiles@[i]
                    == old(self).board.tiles@[i] || (old(self).board.tiles@[i].hidden
                    && final(self).board.tiles@[i] == Tile {
                    hidden: false,
                    marked: false,
                    ..old(self).board.tiles@[i]
                } && !old(self).board.tiles@[i].mined),
            reached_from(&old(self).board, &final(self).board, id as int),
            closed_except(&old(self).board, &final(self).board, Seq::empty(), -1),
            forall|n: usize|
                #[trigger] old(self).board.neighbour_set(id as int).contains(n)
                    && !old(self).board.tiles@[n as int].mined && old(self).board.hint(n as int)
                    == 0 ==> !final(self).board.tiles@[n as int].hidden,
    {
        let ghost b0 = old(self).board;
        let ghost mut via: Map<int, int> = Map::empty();
        let ghost mut rank: Map<int, nat> = Map::empty();
        let ghost mut step: nat = 0;
        let mut stack: Vec<usize> = Vec::new();
        stack.push(id);
        proof {
            assert(stack@[0] == id);
            assert(stack@.contains(id));
            assert forall|p: usize, n: usize|
                (p as int) < b0.tiles@.len() && !self.board.tiles@[p as int].hidden
                    && !b0.tiles@[p as int].mined && b0.hint(p as int) == 0 && !stack@.contains(p)
                    && #[trigger] b0.neighbour_set(p as int).contains(n) implies !self.board.tiles@[n as int].hidden by {
                assert(p != id);
                assert(!self.board.tiles@[p as int].hidden);
            }
        }
        while stack.len() > 0
            invariant
                self.counts_ok(),
                self.board.width == b0.width,
                self.board.height == b0.height,
                self.winstate == old(self).winstate,
                self.board.tiles@.len() == b0.tiles@.len(),
                b0 == old(self).board,
                b0.wf(),
                id < b0.tiles@.len(),
                !b0.tiles@[id as int].hidden,
                !b0.tiles@[id as int].mined,
                cascade_so_far(&b0, &self.board, id as int, via, rank, step),
                stack@.no_duplicates(),
                forall|q: int|
                    0 <= q < stack@.len() ==> {
                        let s = #[trigger] stack@[q];
                        &&& (s as int) < b0.tiles@.len()
                        &&& !self.board.tiles@[s as int].hidden
                        &&& !b0.tiles@[s as int].mined
                        &&& (s == id || b0.hint(s as int) == 0)
                        &&& (s == id || (b0.tiles@[s as int].hidden && rank[s as int] < step))
                    },
                closed_except(&b0, &self.board, stack@, -1),
                !stack@.contains(id) ==> forall|n: usize|
                    #[trigger] b0.neighbour_set(id as int).contains(n)
                        && !b0.tiles@[n as int].mined && b0.hint(n as int) == 0
                        ==> !self.board.tiles@[n as int].hidden,
            decreases 2 * self.board.hidden_total() + stack@.len(),
        {
            let ghost bound = 2 * self.board.hidden_total() + stack@.len();
            let ghost full = stack@;
            let p = stack.pop().unwrap();
            proof {
                self.board.lemma_same_mines(&b0);
                assert(full == stack@.push(p));
                assert(full[full.len() - 1] == p);
                assert(!stack@.contains(p));
                assert forall|x: usize| stack@.contains(x) implies #[trigger] full.contains(x) by {
                    let q = choose|q: int| 0 <= q < stack@.len() && stack@[q] == x;
                    assert(full[q] == x);
                }
                assert forall|x: usize| full.contains(x) && x != p implies #[trigger] stack@.contains(x) by {
                    let q = choose|q: int| 0 <= q < full.len() && full[q] == x;
                    assert(stack@[q] == x);
                }
                assert forall|q: int| 0 <= q < stack@.len() implies #[trigger] full[q] == stack@[q] by {}
            }
            let nbrs = self.board.neighbours(p);
            let zero_here: bool = self.board.mine_or_hint(p) == MineOrHint::Hint(0);
            proof {
                assert(self.board.neighbour_set(p as int) =~= b0.neighbour_set(p as int));
                assert(zero_here == (b0.hint(p as int) == 0));
            }
            let mut k: usize = 0;
            while k < nbrs.len()
                invariant
                    self.counts_ok(),
                    self.board.width == b0.width,
                    self.board.height == b0.height,
                    self.winstate == old(self).winstate,
                    self.board.tiles@.len() == b0.tiles@.len(),
                    b0 == old(self).board,
                    b0.wf(),
                    id < b0.tiles@.len(),
                    !b0.tiles@[id as int].mined,
                    (p as int) < b0.tiles@.len(),
                    !self.board.tiles@[p as int].hidden,
                    !b0.tiles@[p as int].mined,
                    p == id || b0.hint(p as int) == 0,
                    p == id || (b0.tiles@[p as int].hidden && rank[p as int] < step),
                    zero_here == (b0.hint(p as int) == 0),
                    b0.hint(p as int) == 0 ==> forall|n: usize|
                        #[trigger] b0.neighbour_set(p as int).contains(n) ==> !b0.is_mined(n),
                    k <= nbrs@.len(),
                    forall|q: int|
                        0 <= q < nbrs@.len() ==> #[trigger] b0.neighbour_set(p as int).contains(
                            nbrs@[q],
                        ),
                    nbrs@.to_set() == b0.neighbour_set(p as int),
                    forall|q: int|
                        0 <= q < k ==> {
                            let n = #[trigger] nbrs@[q];
                            !self.board.tiles@[n as int].hidden || (!zero_here && (
                            b0.tiles@[n as int].mined || b0.hint(n as int) != 0))
                        },
                    cascade_so_far(&b0, &self.board, id as int, via, rank, step),
                    stack@.no_duplicates(),
                    !stack@.contains(p),
                    forall|q: int|
                        0 <= q < stack@.len() ==> {
                            let s = #[trigger] stack@[q];
                            &&& (s as int) < b0.tiles@.len()
                            &&& !self.board.tiles@[s as int].hidden
                            &&& !b0.tiles@[s as int].mined
                            &&& (s == id || b0.hint(s as int) == 0)
                            &&& (s == id || (b0.tiles@[s as int].hidden && rank[s as int] < step))
                        },
                    closed_except(&b0, &self.board, stack@, p as int),
                    !stack@.contains(id) && p != id ==> forall|n: usize|
                        #[trigger] b0.neighbour_set(id as int).contains(n)
                            && !b0.tiles@[n as int].mined && b0.hint(n as int) == 0
                            ==> !self.board.tiles@[n as int].hidden,
                    2 * self.board.hidden_total() + stack@.len() < bound,
                decreases nbrs@.len() - k,
            {
                let n = nbrs[k];
                let ghost before = self.board;
                let ghost pending = stack@;
                proof {
                    assert(nbrs@.to_set().contains(n));
                }
                if self.board.tiles[n].hidden {
                    proof {
                        self.board.lemma_same_mines(&b0);
                    }
                    let c = self.board.mine_or_hint(n);
                    proof {
                        assert((c == MineOrHint::Hint(0)) == (!b0.tiles@[n as int].mined && b0.hint(
                            n as int,
                        ) == 0));
                    }
                    if c == MineOrHint::Hint(0) || zero_here {
                        self.unmark_and_unhide(n);
                        proof {
                            via = via.insert(n as int, p as int);
                            rank = rank.insert(n as int, step);
                            step = step + 1;
                            assert(opened_after(&b0, &self.board, id as int, n as int, p as int, rank));
                        }
                        if c == MineOrHint::Hint(0) {
                            stack.push(n);
                            proof {
                                assert(stack@[stack@.len() - 1] == n);
                            }
                        }
                    }
                }
                proof {
                    assert forall|i: int|
                        0 <= i < b0.tiles@.len() && i != n implies #[trigger] self.board.tiles@[i]
                        == before.tiles@[i] by {}
                    assert forall|x: usize| #[trigger] pending.contains(x) implies stack@.contains(x) by {
                        let q = choose|q: int| 0 <= q < pending.len() && pending[q] == x;
                        assert(stack@[q] == x);
                    }
                    assert forall|p2: usize, m: usize|
                        (p2 as int) < b0.tiles@.len() && !self.board.tiles@[p2 as int].hidden
                            && !b0.tiles@[p2 as int].mined && b0.hint(p2 as int) == 0
                            && !stack@.contains(p2) && p2 != p && #[trigger] b0.neighbour_set(
                            p2 as int,
                        ).contains(m) implies !self.board.tiles@[m as int].hidden by {
                        if p2 != n {
                            assert(!before.tiles@[p2 as int].hidden);
                            assert(!pending.contains(p2));
                            assert(!before.tiles@[m as int].hidden);
                        }
                    }
                    assert forall|q: int| 0 <= q <= k implies {
                        let m = #[trigger] nbrs@[q];
                        !self.board.tiles@[m as int].hidden || (!zero_here && (
                        b0.tiles@[m as int].mined || b0.hint(m as int) != 0))
                    } by {
                        if q < k {
                            let m = nbrs@[q];
                            assert(b0.neighbour_set(p as int).contains(m));
                            assert((m as int) < b0.tiles@.len());
                            if !before.tiles@[m as int].hidden && m != n {
                                assert(self.board.tiles@[m as int] == before.tiles@[m as int]);
                            }
                        }
                    }
                }
                k = k + 1;
            }
            proof {
                assert forall|m: usize| #[trigger] b0.neighbour_set(p as int).contains(m) implies {
                    !self.board.tiles@[m as int].hidden || (!zero_here && (
                    b0.tiles@[m as int].mined || b0.hint(m as int) != 0))
                } by {
                    assert(nbrs@.to_set().contains(m));
                    let q = choose|q: int| 0 <= q < nbrs@.len() && nbrs@[q] == m;
                }
            }
        }
        proof {
            assert(reached_in_order(&b0, &self.board, id as int, via, rank));
        }
    }

    /// Reveals tile `id`. A mine loses the game and uncovers every unmarked
    /// mine; otherwise the cascade runs, and the game is won once every tile
    /// without a mine is revealed, which uncovers every mine.
    #[verifier::rlimit(100)]
    #[verifier::spinoff_prover]
    pub fn guess(&mut self, id: usize) -> (r: Result<Winstate, GameError>)
        requires
            old(self).wf(),
        ensures
            final(self).wf(),
            r is Ok <==> can_reveal(old(self)@, id as int),
            r is Err ==> r->Err_0 == move_error(old(self)@) && final(self)@ == old(self)@,
            r is Ok ==> {
                &&& r->Ok_0 == final(self).winstate
                &&& final(self).board.width == old(self).board.width
                &&& final(self).board.height == old(self).board.height
                &&& final(self).board.tiles@.len() == old(self).board.tiles@.len()
                &&& !final(self).board.tiles@[id as int].hidden
            },
            r is Ok && old(self).board.tiles@[id as int].mined ==> {
                &&& final(self).winstate == Winstate::Lost
                &&& forall|i: int|
                    0 <= i < old(self).board.tiles@.len() ==> #[trigger] final(self).board.tiles@[i]
                        == if i == id || (old(self).board.tiles@[i].mined
                        && !old(self).board.tiles@[i].marked) {
                        Tile { hidden: false, ..old(self).board.tiles@[i] }
                    } else {
                        old(self).board.tiles@[i]
                    }
            },
            r is Ok && !old(self).board.tiles@[id as int].mined ==> {
                &&& final(self).winstate != Winstate::Lost
                &&& (final(self).winstate == Winstate::Won <==> forall|i: int|
                    0 <= i < final(self).board.tiles@.len() && !(
                    #[trigger] final(self).board.tiles@[i]).mined
                        ==> !final(self).board.tiles@[i].hidden)
                &&& forall|i: int|
                    0 <= i < old(self).board.tiles@.len() && (
                    #[trigger] old(self).board.tiles@[i]).mined ==> final(self).board.tiles@[i]
                        == if final(self).winstate == Winstate::Won {
                        Tile { hidden: false, ..old(self).board.tiles@[i] }
                    } else {
                        old(self).board.tiles@[i]
                    }
                &&& forall|i: int|
                    0 <= i < old(self).board.tiles@.len() && !(
                    #[trigger] old(self).board.tiles@[i]).mined ==> final(self).board.tiles@[i]
                        == old(self).board.tiles@[i] || (i == id && final(self).board.tiles@[i]
                        == Tile { hidden: false, ..old(self).board.tiles@[i] }) || (
                    old(self).board.tiles@[i].hidden && final(self).board.tiles@[i] == Tile {
                        hidden: false,
                        marked: false,
                        ..old(self).board.tiles@[i]
                    })
                &&& reached_from(&old(self).board, &final(self).board, id as int)
                &&& forall|n: usize|
                    #[trigger] old(self).board.neighbour_set(id as int).contains(n)
                        && !old(self).board.tiles@[n as int].mined && old(self).board.hint(n as int)
                        == 0 ==> !final(self).board.tiles@[n as int].hidden
            },
    {
        if self.winstate != Winstate::InProgress {
            return Err(GameError::GameEnded);
        }
        if id >= self.board.tiles.len() || !self.board.tiles[id].hidden
            || self.board.tiles[id].marked {
            return Err(GameError::InvalidTileState);
        }
        let ghost b_old = self.board;
        let mut t = self.board.tiles[id];
        proof {
            lemma_count_update(self.board.tiles@, |t: Tile| t.marked, id as int, Tile { hidden: false, ..t });
        }
        t.hidden = false;
        self.board.tiles.set(id, t);
        let ghost b_t = self.board;
        proof {
            b_t.lemma_same_mines(&b_old);
        }
        if t.mined {
            self.board.reveal_all_mines(true);
            self.winstate = Winstate::Lost;
            proof {
                lemma_count_same(self.board.tiles@, b_t.tiles@, |t: Tile| t.marked);
                self.board.lemma_same_mines(&b_old);
                self.board.lemma_closed_keeps(&b_old);
            }
            return Ok(Winstate::Lost);
        }
        proof {
            assert forall|p: usize, n: usize|
                (p as int) < b_t.tiles@.len() && !b_t.tiles@[p as int].hidden
                    && !b_t.tiles@[p as int].mined && b_t.hint(p as int) == 0
                    && !Seq::<usize>::empty().contains(p) && p != id
                    && #[trigger] b_t.neighbour_set(p as int).contains(n) implies !b_t.tiles@[n as int].hidden by {
                assert(b_t.neighbour_set(p as int) =~= b_old.neighbour_set(p as int));
                assert(b_old.is_open_empty(p));
                assert(b_old.neighbour_set(p as int).contains(n));
            }
        }
        self.reveal_empty_and_neighbouring_tiles(id);
        let ghost b_c = self.board;
        proof {
            b_c.lemma_same_mines(&b_t);
            assert forall|p: usize, n: usize|
                b_c.is_open_empty(p) && #[trigger] b_c.neighbour_set(p as int).contains(n) implies !b_c.tiles@[n as int].hidden by {
                assert(b_c.neighbour_set(p as int) =~= b_t.neighbour_set(p as int));
                assert(!Seq::<usize>::empty().contains(p));
                assert(b_t.neighbour_set(p as int).contains(n));
                assert(!b_c.tiles@[p as int].hidden);
            }
        }
        let mut is_won = true;
        let mut k: usize = 0;
        while k < self.board.tiles.len()
            invariant
                self.board == b_c,
                k <= b_c.tiles@.len(),
                is_won == forall|j: int|
                    0 <= j < k ==> (#[trigger] b_c.tiles@[j]).mined || !b_c.tiles@[j].hidden,
            decreases b_c.tiles@.len() - k,
        {
            if !self.board.tiles[k].mined && self.board.tiles[k].hidden {
                is_won = false;
            }
            k = k + 1;
        }
        if is_won {
            self.board.reveal_all_mines(false);
            self.winstate = Winstate::Won;
            proof {
                lemma_count_same(self.board.tiles@, b_c.tiles@, |t: Tile| t.marked);
                self.board.lemma_same_mines(&b_c);
                self.board.lemma_closed_keeps(&b_c);
            }
        }
        proof {
            let b_f = self.board;
            b_f.lemma_same_mines(&b_old);
            assert(b_t.neighbour_set(id as int) =~= b_old.neighbour_set(id as int));
            assert forall|i: int|
                0 <= i < b_old.tiles@.len() && !(#[trigger] b_old.tiles@[i]).mined implies b_f.tiles@[i]
                    == b_old.tiles@[i] || (i == id && b_f.tiles@[i] == Tile {
                    hidden: false,
                    ..b_old.tiles@[i]
                }) || (b_old.tiles@[i].hidden && b_f.tiles@[i] == Tile {
                    hidden: false,
                    marked: false,
                    ..b_old.tiles@[i]
                }) by {
                assert(b_c.tiles@[i] == b_f.tiles@[i]);
            }
            lemma_reached_moves(&b_t, &b_old, &b_c, &b_f, id as int);
        }
        Ok(self.winstate)
    }
}

/// Marking a tile and then unmarking it gives back the game as it was,
/// marked count included.
pub proof fn lemma_mark_then_unmark(v: GameView, id: int)
    requires
        can_mark(v, id),
    ensures
        can_unmark(with_mark(v, id, true), id),
        with_mark(with_mark(v, id, true), id, false) == v,
{
    let once = with_mark(v, id, true);
    assert(with_mark(once, id, false).tiles =~= v.tiles);
}

/// On a closed board (as every game is), what a revealed tile without mined
/// neighbours reaches is revealed: `path` starts at such a tile, each of its
/// tiles is a neighbour of the one before, and every tile but the last is
/// free of mines with no mined neighbour. So a revealed tile without mined
/// neighbours has its whole connected region of such tiles revealed, and the
/// border of that region too.
pub proof fn lemma_zero_region_revealed(b: &Board, path: Seq<usize>)
    requires
        b.wf(),
        b.closed(),
        path.len() > 0,
        (path[0] as int) < b.tiles@.len(),
        !b.tiles@[path[0] as int].hidden,
        forall|k: int|
            0 <= k < path.len() - 1 ==> {
                &&& !b.tiles@[#[trigger] path[k] as int].mined
                &&& (path[k] as int) < b.tiles@.len()
                &&& b.hint(path[k] as int) == 0
                &&& b.neighbour_set(path[k] as int).contains(path[k + 1])
            },
    ensures
        forall|k: int| 0 <= k < path.len() ==> !b.tiles@[#[trigger] path[k] as int].hidden,
    decreases path.len(),
{
    if path.len() > 1 {
        let front = path.drop_last();
        assert forall|k: int| 0 <= k < front.len() - 1 implies {
            &&& !b.tiles@[#[trigger] front[k] as int].mined
            &&& (front[k] as int) < b.tiles@.len()
            &&& b.hint(front[k] as int) == 0
            &&& b.neighbour_set(front[k] as int).contains(front[k + 1])
        } by {
            assert(front[k] == path[k]);
            assert(front[k + 1] == path[k + 1]);
        }
        lemma_zero_region_revealed(b, front);
        let last = path.len() - 1;
        assert(front[last - 1] == path[last - 1]);
        let q = path[last - 1];
        assert(!b.tiles@[q as int].mined);
        assert(b.is_open_empty(q));
        assert(b.neighbour_set(q as int).contains(path[last]));
        assert forall|k: int| 0 <= k < path.len() implies !b.tiles@[#[trigger] path[k] as int].hidden by {
            if k < last {
                assert(front[k] == path[k]);
            }
        }
    }
}

} // verus!
