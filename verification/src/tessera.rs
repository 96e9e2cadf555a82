use vstd::prelude::*;
use crate::constraint::Row;
use crate::constraint::RowError;
use crate::constraint::Stuck;
use crate::constraint::adjacent_fit;
use crate::constraint::self_consistent;
use crate::constraint::lemma_successor_fits;
use crate::constraint::sweep;
use crate::constraint::candidates;
use crate::constraint::unanimous;
use crate::constraint::tiles_at;
use crate::constraint::successor;
use crate::constraint::unsat_context;
use crate::io_buffer::IoBuffer;
use crate::io_buffer::IoError;
use crate::tiling::Domino;
use crate::tiling::DominoPile;
use crate::tiling::PileModel;
use crate::tiling::SideEffects;
use crate::tiling::Tile;
use crate::tiling::TileRef;
use crate::tiling::UNALLOCATED_PIP;
use crate::tiling::is_last_index;
use crate::tiling::laid_out;
use crate::tiling::lemma_alts_carry_over;
use crate::tiling::lemma_laid_out_holds;
use crate::constraint::lemma_successor_visible;
use crate::tiling::tile_count;

verus! {

/// What is wrong with the parts of a machine.
#[derive(Copy, Clone, Debug, PartialEq, Eq)]
pub enum ModelFault {
    /// The initial row holds no tile.
    EmptyInitialState,
    /// The border tile is not a tile of the set.
    InvalidTileBorder { tile: Tile },
    /// A tile of the initial row is not a tile of the set.
    InvalidTile { tile: Tile },
    /// An alternate of the input domino with this tile differs from the
    /// tile in another pip than the south one.
    DivergentAlternate { tile: Tile },
    /// Two neighbours of the initial row do not fit, or an end of the row
    /// does not fit the border.
    InconsistentState,
}

/// Why a machine could not be built or could not go on.
#[derive(Debug)]
pub enum MosaicError {
    /// The set holds too many tiles for the pips to tell them apart.
    TooManyTiles,
    /// The set, the border and the initial row do not make a machine.
    InvalidModel(ModelFault),
    /// The next row could not be laid down.
    Row(RowError),
    /// An input tile was placed and the input had no bit left.
    Io(IoError),
}

/// The set holds a domino with this tile.
pub open spec fn has_tile(set: Seq<Domino>, tile: Tile) -> bool {
    exists|i: int| 0 <= i < set.len() && (#[trigger] set[i]).tile == tile
}

/// The first tile of the row that the set does not hold.
pub open spec fn first_missing(set: Seq<Domino>, row: Seq<Tile>) -> Option<Tile>
    decreases row.len(),
{
    if row.len() == 0 {
        None
    } else if !has_tile(set, row[0]) {
        Some(row[0])
    } else {
        first_missing(set, row.drop_first())
    }
}

/// The tile of the first input domino with an alternate that does not fit.
pub open spec fn first_divergent(set: Seq<Domino>) -> Option<Tile>
    decreases set.len(),
{
    if set.len() == 0 {
        None
    } else if !set[0].alts_fit() {
        Some(set[0].tile)
    } else {
        first_divergent(set.drop_first())
    }
}

/// What is wrong with the parts of a machine, if anything; of several
/// faults the first in the order of the checks is named.
pub open spec fn model_fault(set: Seq<Domino>, border: Tile, initial: Seq<Tile>) -> Option<
    ModelFault,
> {
    if initial.len() == 0 {
        Some(ModelFault::EmptyInitialState)
    } else if !has_tile(set, border) {
        Some(ModelFault::InvalidTileBorder { tile: border })
    } else if first_missing(set, initial) is Some {
        Some(ModelFault::InvalidTile { tile: first_missing(set, initial)->0 })
    } else if first_divergent(set) is Some {
        Some(ModelFault::DivergentAlternate { tile: first_divergent(set)->0 })
    } else if !self_consistent(initial, border) {
        Some(ModelFault::InconsistentState)
    } else {
        None
    }
}

/// Whether the set holds a domino with this tile.
fn find_tile(set: &Vec<Domino>, tile: &Tile) -> (found: bool)
    ensures
        found == has_tile(set@, *tile),
{
    let mut i: usize = 0;
    while i < set.len()
        invariant
            i <= set@.len(),
            forall|j: int| 0 <= j < i ==> (#[trigger] set@[j]).tile != *tile,
        decreases set@.len() - i,
    {
        if set[i].tile == *tile {
            return true;
        }
        i += 1;
    }
    false
}

/// The first tile of the row that the set does not hold.
fn find_missing(set: &Vec<Domino>, row: &Vec<Tile>) -> (missing: Option<Tile>)
    ensures
        missing == first_missing(set@, row@),
{
    let mut i: usize = 0;
    assert(row@.skip(0) == row@);
    while i < row.len()
        invariant
            i <= row@.len(),
            first_missing(set@, row@) == first_missing(set@, row@.skip(i as int)),
        decreases row@.len() - i,
    {
        proof {
            assert(row@.skip(i as int).drop_first() == row@.skip(i + 1));
        }
        if !find_tile(set, &row[i]) {
            return Some(row[i]);
        }
        i += 1;
    }
    None
}

/// Whether each alternate of the domino differs from its tile in the south
/// pip at most.
fn fits(domino: &Domino) -> (yes: bool)
    ensures
        yes == domino.alts_fit(),
{
    match domino.side_effect {
        SideEffects::In(alts) => {
            let tile = domino.tile;
            let zero = alts[0];
            let one = alts[1];
            let yes = zero.north == tile.north && zero.east == tile.east && zero.west == tile.west
                && one.north == tile.north && one.east == tile.east && one.west == tile.west;
            proof {
                if yes {
                    assert forall|k: int| 0 <= k < 2 implies {
                        &&& (#[trigger] domino.alts()[k]).north == domino.tile.north
                        &&& domino.alts()[k].east == domino.tile.east
                        &&& domino.alts()[k].west == domino.tile.west
                    } by {
                        if k == 0 {
                            assert(domino.alts()[k] == zero);
                        } else {
                            assert(domino.alts()[k] == one);
                        }
                    }
                } else {
                    assert(domino.alts()[0] == zero);
                    assert(domino.alts()[1] == one);
                }
            }
            yes
        },
        _ => true,
    }
}

/// The tile of the first input domino with an alternate that does not fit.
fn find_divergent(set: &Vec<Domino>) -> (divergent: Option<Tile>)
    ensures
        divergent == first_divergent(set@),
{
    let mut i: usize = 0;
    assert(set@.skip(0) == set@);
    while i < set.len()
        invariant
            i <= set@.len(),
            first_divergent(set@) == first_divergent(set@.skip(i as int)),
        decreases set@.len() - i,
    {
        proof {
            assert(set@.skip(i as int).drop_first() == set@.skip(i + 1));
        }
        if !fits(&set[i]) {
            return Some(set[i].tile);
        }
        i += 1;
    }
    None
}

/// Whether the row is self-consistent with this border.
pub fn is_self_consistent(row: &Vec<Tile>, border: &Tile) -> (yes: bool)
    ensures
        yes == self_consistent(row@, *border),
{
    let n = row.len();
    if n == 0 {
        return true;
    }
    if row[0].west != border.east || row[n - 1].east != border.west {
        return false;
    }
    let mut i: usize = 0;
    while i + 1 < n
        invariant
            n == row@.len(),
            n > 0,
            i < n,
            forall|j: int| 0 <= j < i ==> (#[trigger] row@[j]).east == row@[j + 1].west,
        decreases n - i,
    {
        if row[i].east != row[i + 1].west {
            return false;
        }
        i += 1;
    }
    true
}

/// What is wrong with the parts of a machine, if anything.
fn find_fault(set: &Vec<Domino>, border: &Tile, initial: &Vec<Tile>) -> (fault: Option<ModelFault>)
    ensures
        fault == model_fault(set@, *border, initial@),
{
    if initial.len() == 0 {
        return Some(ModelFault::EmptyInitialState);
    }
    if !find_tile(set, border) {
        return Some(ModelFault::InvalidTileBorder { tile: *border });
    }
    if let Some(tile) = find_missing(set, initial) {
        return Some(ModelFault::InvalidTile { tile });
    }
    if let Some(tile) = find_divergent(set) {
        return Some(ModelFault::DivergentAlternate { tile });
    }
    if !is_self_consistent(initial, border) {
        return Some(ModelFault::InconsistentState);
    }
    None
}

/// A row after its side effects: the tiles that stay, the bits of input
/// that were read and the bits of output that were written.
pub struct Resolved {
    pub row: Seq<TileRef>,
    pub used: nat,
    pub emitted: Seq<bool>,
}

/// The side effects of a row that was laid down, cell by cell from west to
/// east: a pure tile stays, an output tile stays and writes its bit, an
/// input tile reads a bit and gives way to the alternate of that bit.
/// `None` if the input has fewer bits than the row has input tiles.
pub open spec fn resolve(pile: PileModel, row: Seq<TileRef>, input: Seq<bool>) -> Option<Resolved>
    decreases row.len(),
{
    if row.len() == 0 {
        Some(Resolved { row: Seq::empty(), used: 0, emitted: Seq::empty() })
    } else {
        match resolve(pile, row.drop_last(), input) {
            None => None,
            Some(west) => match pile.effects_at(row.last()) {
                SideEffects::Pure(_) => Some(
                    Resolved { row: west.row.push(row.last()), used: west.used, emitted: west.emitted },
                ),
                SideEffects::Out(bit) => Some(
                    Resolved {
                        row: west.row.push(row.last()),
                        used: west.used,
                        emitted: west.emitted.push(bit),
                    },
                ),
                SideEffects::In(alts) => if west.used < input.len() {
                    Some(
                        Resolved {
                            row: west.row.push(
                                if input[west.used as int] {
                                    alts@[1]
                                } else {
                                    alts@[0]
                                },
                            ),
                            used: west.used + 1,
                            emitted: west.emitted,
                        },
                    )
                } else {
                    None
                },
            },
        }
    }
}

/// How many tiles of the row are input tiles.
pub open spec fn input_count(pile: PileModel, row: Seq<TileRef>) -> nat
    decreases row.len(),
{
    if row.len() == 0 {
        0
    } else {
        input_count(pile, row.drop_last()) + if pile.effects_at(row.last()) is In {
            1nat
        } else {
            0nat
        }
    }
}

/// The side effects of a row can be had if and only if the input has a bit
/// for each input tile; they read that many bits and keep the length of
/// the row.
pub proof fn lemma_resolve(pile: PileModel, row: Seq<TileRef>, input: Seq<bool>)
    ensures
        resolve(pile, row, input) is Some <==> input_count(pile, row) <= input.len(),
        resolve(pile, row, input) matches Some(done) ==> done.used == input_count(pile, row)
            && done.row.len() == row.len(),
    decreases row.len(),
{
    if row.len() > 0 {
        lemma_resolve(pile, row.drop_last(), input);
    }
}

/// A longer part of a row has no fewer input tiles.
proof fn lemma_input_count_grows(pile: PileModel, row: Seq<TileRef>, i: int)
    requires
        0 <= i <= row.len(),
    ensures
        input_count(pile, row.take(i)) <= input_count(pile, row),
    decreases row.len() - i,
{
    if i < row.len() {
        lemma_input_count_grows(pile, row, i + 1);
        assert(row.take(i + 1).drop_last() == row.take(i));
    } else {
        assert(row.take(i) == row);
    }
}

/// What can be seen of a machine: its pile, its border, its current row
/// and its bit buffer.
pub struct ProgramView {
    pub pile: DominoPile,
    pub border: TileRef,
    pub state: Seq<TileRef>,
    pub io: IoBuffer,
}

/// What decides the run of a machine: its pile, its border, its current
/// row and the bits of input that it has not read.
pub struct Machine {
    pub pile: PileModel,
    pub border: TileRef,
    pub state: Seq<TileRef>,
    pub input: Seq<bool>,
}

/// How a step of a machine ends.
pub enum StepOutcome {
    /// The next row was laid down and its side effects were had.
    Stepped,
    /// No tile is left for a cell of the next row.
    Unsatisfiable(Stuck),
    /// The next row holds more input tiles than the input has bits.
    InputExhausted,
}

impl Machine {
    /// The tiles of the current row.
    pub open spec fn tiles(self) -> Seq<Tile> {
        self.state.map_values(|r: TileRef| self.pile.tiles[r as int])
    }

    /// The row that follows the current one before its side effects, or
    /// the cell for which no tile is left.
    pub open spec fn successor(self) -> Result<Seq<TileRef>, Stuck> {
        successor(self.pile.hidden_mark, self.pile.tiles, self.border, self.state)
    }

    /// How a step of the machine ends.
    pub open spec fn outcome(self) -> StepOutcome {
        match self.successor() {
            Err(stuck) => StepOutcome::Unsatisfiable(stuck),
            Ok(row) => match resolve(self.pile, row, self.input) {
                None => StepOutcome::InputExhausted,
                Some(_) => StepOutcome::Stepped,
            },
        }
    }

    /// The next row after its side effects, with the bits that they read
    /// and wrote, for a step that succeeds.
    pub open spec fn resolved(self) -> Resolved {
        resolve(self.pile, self.successor()->Ok_0, self.input)->0
    }

    /// The bits of output that a step that succeeds writes.
    pub open spec fn emitted(self) -> Seq<bool> {
        self.resolved().emitted
    }

    /// The machine after a step that succeeds.
    pub open spec fn next(self) -> Machine {
        Machine {
            pile: self.pile,
            border: self.border,
            state: self.resolved().row,
            input: self.input.skip(self.resolved().used as int),
        }
    }
}

impl ProgramView {
    /// The tiles of the current row.
    pub open spec fn tiles(self) -> Seq<Tile> {
        self.state.map_values(|r: TileRef| self.pile@[r as int])
    }

    /// What decides the run of the machine.
    pub open spec fn machine(self) -> Machine {
        Machine {
            pile: self.pile.model(),
            border: self.border,
            state: self.state,
            input: self.io.pending_input(),
        }
    }
}

/// A tile machine at one moment of its run.
#[derive(Debug)]
pub struct Program {
    pile: DominoPile,
    border: TileRef,
    state: Vec<TileRef>,
    io: IoBuffer,
}

impl View for Program {
    type V = ProgramView;

    closed spec fn view(&self) -> ProgramView {
        ProgramView { pile: self.pile, border: self.border, state: self.state@, io: self.io }
    }
}

impl Program {
    /// The border and the tiles of the row are tiles of the pile, the row
    /// is not empty, and the alternates of every input tile fit it.
    pub open spec fn wf(&self) -> bool {
        &&& self@.pile.wf()
        &&& self@.io.wf()
        &&& self@.border < self@.pile@.len()
        &&& self@.state.len() > 0
        &&& forall|i: int| 0 <= i < self@.state.len() ==> #[trigger] self@.state[i] < self@.pile@.len()
        &&& forall|r: TileRef| #[trigger] self@.pile.alts_fit_at(r)
    }

    /// Builds a machine from a set of dominoes, the tile of the void and
    /// the tiles of the first row.
    ///
    /// The parts are checked in this order: the pile must hold fewer than
    /// `UNALLOCATED_PIP` tiles; the row must not be empty; the set must
    /// hold the border; the set must hold every tile of the row; the
    /// alternates of every input domino must fit its tile; the row must be
    /// self-consistent. The first check that fails is reported.
    pub fn new(set: Vec<Domino>, border_tile: Tile, initial_state: Vec<Tile>) -> (res: Result<
        Program,
        MosaicError,
    >)
        ensures
            match res {
                Ok(program) => {
                    &&& tile_count(set@) < UNALLOCATED_PIP
                    &&& model_fault(set@, border_tile, initial_state@) is None
                    &&& program.wf()
                    &&& built(set@, border_tile, initial_state@, program@)
                    &&& program@.tiles() == initial_state@
                    &&& self_consistent(program@.tiles(), program@.pile@[program@.border as int])
                },
                Err(MosaicError::TooManyTiles) => tile_count(set@) >= UNALLOCATED_PIP,
                Err(MosaicError::InvalidModel(fault)) => tile_count(set@) < UNALLOCATED_PIP
                    && model_fault(set@, border_tile, initial_state@) == Some(fault),
                Err(_) => false,
            },
    {
        let fault = find_fault(&set, &border_tile, &initial_state);
        let ghost dominoes = set@;
        let pile = match DominoPile::new(set) {
            Ok(pile) => pile,
            Err(_) => {
                return Err(MosaicError::TooManyTiles);
            },
        };
        if let Some(fault) = fault {
            return Err(MosaicError::InvalidModel(fault));
        }
        proof {
            lemma_no_divergent(dominoes);
            lemma_alts_carry_over(pile, dominoes);
            lemma_set_tile_in_pile(dominoes, border_tile);
        }
        let border = match pile.get(&border_tile) {
            Some(border) => border,
            None => {
                proof {
                    assert(false);
                }
                return Err(MosaicError::TooManyTiles);
            },
        };
        let n = initial_state.len();
        let mut state: Vec<TileRef> = Vec::new();
        let mut i: usize = 0;
        assert(initial_state@.skip(0) == initial_state@);
        while i < n
            invariant
                pile.wf(),
                pile@ == laid_out(dominoes),
                n == initial_state@.len(),
                i <= n,
                first_missing(dominoes, initial_state@.skip(i as int)) is None,
                state@.len() == i,
                forall|k: int|
                    0 <= k < i ==> is_last_index(pile@, initial_state@[k], #[trigger] state@[k] as int),
            decreases n - i,
        {
            proof {
                assert(initial_state@.skip(i as int).drop_first() == initial_state@.skip(i + 1));
                assert(initial_state@.skip(i as int)[0] == initial_state@[i as int]);
                lemma_set_tile_in_pile(dominoes, initial_state@[i as int]);
            }
            match pile.get(&initial_state[i]) {
                Some(tile_ref) => {
                    state.push(tile_ref);
                },
                None => {
                    proof {
                        assert(false);
                    }
                    return Err(MosaicError::TooManyTiles);
                },
            }
            i += 1;
        }
        let program = Program { pile, border, state, io: IoBuffer::with_io(Vec::new(), Vec::new()) };
        proof {
            assert(program@.tiles() =~= initial_state@);
            assert(crate::io_buffer::unpack(Seq::<u8>::empty()) =~= Seq::<bool>::empty());
        }
        Ok(program)
    }

    /// The tile of the void around the row.
    pub fn border(&self) -> (tile: Tile)
        requires
            self.wf(),
        ensures
            tile == self@.pile@[self@.border as int],
    {
        self.pile[self.border]
    }

    /// The tiles of the current row, from west to east.
    pub fn state(&self) -> (tiles: Vec<Tile>)
        requires
            self.wf(),
        ensures
            tiles@ == self@.tiles(),
    {
        let mut tiles: Vec<Tile> = Vec::new();
        let n = self.state.len();
        let mut i: usize = 0;
        while i < n
            invariant
                self.wf(),
                n == self@.state.len(),
                i <= n,
                tiles@ == self@.tiles().take(i as int),
            decreases n - i,
        {
            let tile_ref = self.state[i];
            assert(self@.state[i as int] == tile_ref);
            assert(tile_ref < self.pile@.len());
            tiles.push(self.pile[tile_ref]);
            assert(tiles@ =~= self@.tiles().take(i + 1));
            i += 1;
        }
        assert(self@.tiles().take(n as int) == self@.tiles());
        tiles
    }

    /// The current row by reference, from west to east.
    pub fn state_refs(&self) -> (refs: &Vec<TileRef>)
        ensures
            refs@ == self@.state,
    {
        &self.state
    }

    /// The pile of the machine.
    pub fn pile(&self) -> (pile: &DominoPile)
        ensures
            *pile == self@.pile,
    {
        &self.pile
    }

    /// The reference of the tile of the void.
    pub fn border_ref(&self) -> (border: TileRef)
        ensures
            border == self@.border,
    {
        self.border
    }

    /// The bit buffer of the machine.
    pub fn io(&self) -> (io: &IoBuffer)
        ensures
            *io == self@.io,
    {
        &self.io
    }

    /// Adds a byte to the end of the input of the machine.
    pub fn feed_input(&mut self, byte: u8)
        requires
            old(self).wf(),
        ensures
            final(self).wf(),
            final(self)@.pile == old(self)@.pile,
            final(self)@.border == old(self)@.border,
            final(self)@.state == old(self)@.state,
            final(self)@.io.pending_input() == old(self)@.io.pending_input()
                + crate::io_buffer::bits_of_byte(byte),
            final(self)@.io.emitted() == old(self)@.io.emitted(),
            final(self)@.io.pending_output() == old(self)@.io.pending_output(),
    {
        self.io.feed(byte);
    }

    /// Takes the complete bytes of output out of the machine.
    pub fn take_output(&mut self) -> (bytes: Vec<u8>)
        requires
            old(self).wf(),
        ensures
            final(self).wf(),
            final(self)@.pile == old(self)@.pile,
            final(self)@.border == old(self)@.border,
            final(self)@.state == old(self)@.state,
            bytes@ == old(self)@.io.emitted(),
            final(self)@.io.emitted() == Seq::<u8>::empty(),
            final(self)@.io.pending_input() == old(self)@.io.pending_input(),
            final(self)@.io.pending_output() == old(self)@.io.pending_output(),
    {
        self.io.take_output()
    }
}

/// What holds of a machine before and after a step, and of what the step
/// returned.
pub open spec fn step_post(before: ProgramView, after: ProgramView, res: Result<(), MosaicError>) -> bool {
    match before.machine().outcome() {
        StepOutcome::Unsatisfiable(stuck) => {
            &&& res matches Err(MosaicError::Row(RowError::UnsatisfiableConstraints { context }))
            &&& context@ == unsat_context(before.pile@, stuck)
            &&& after == before
        },
        StepOutcome::InputExhausted => {
            &&& res matches Err(MosaicError::Io(IoError::UnexpectedEof))
            &&& after == before
        },
        StepOutcome::Stepped => {
            &&& res is Ok
            &&& after.machine() == before.machine().next()
            &&& after.io.written() == before.io.written() + before.machine().emitted()
        },
    }
}

impl Program {
    /// Lays down the next row and has its side effects, from west to east:
    /// an output tile writes its bit, an input tile reads a bit and gives
    /// way to the alternate of that bit.
    ///
    /// Fails, with the machine unchanged, if no tile is left for a cell of
    /// the next row, or if the row holds more input tiles than the input
    /// has bits.
    pub fn step(&mut self) -> (res: Result<(), MosaicError>)
        requires
            old(self).wf(),
        ensures
            final(self).wf(),
            step_post(old(self)@, final(self)@, res),
            res is Ok ==> old(self)@.state.len() <= final(self)@.state.len() <= old(
                self,
            )@.state.len() + 2,
    {
        let ghost before = self@;
        let ghost model = before.pile.model();
        let row = match Row::new(&self.pile, &self.border, &self.state) {
            Ok(row) => row,
            Err(source) => {
                proof {
                    assert(false);
                }
                return Err(MosaicError::Row(source));
            },
        };
        let next = match row.to_vec() {
            Ok(next) => next,
            Err(source) => {
                return Err(MosaicError::Row(source));
            },
        };
        proof {
            assert(before.machine().successor() == Ok::<Seq<TileRef>, Stuck>(next@));
            lemma_successor_visible(before.pile.hidden_mark(), before.pile@, before.border, before.state);
            lemma_resolve(model, next@, before.io.pending_input());
        }
        let needed = self.count_inputs(&next);
        if !self.io.has_input(needed) {
            return Err(MosaicError::Io(IoError::UnexpectedEof));
        }
        let ghost input = before.io.pending_input();
        let ghost written = before.io.written();
        let n = next.len();
        let mut resolved: Vec<TileRef> = Vec::new();
        let mut i: usize = 0;
        while i < n
            invariant
                n == next@.len(),
                i <= n,
                self.pile == before.pile,
                self.border == before.border,
                self.state@ == before.state,
                before.pile.wf(),
                self.io.wf(),
                input == before.io.pending_input(),
                written == before.io.written(),
                model == before.pile.model(),
                input_count(model, next@) <= input.len(),
                forall|k: int| 0 <= k < n ==> #[trigger] next@[k] < before.pile.hidden_mark(),
                resolve(model, next@.take(i as int), input) matches Some(done) && {
                    &&& done.row == resolved@
                    &&& self.io.pending_input() == input.skip(done.used as int)
                    &&& self.io.written() == written + done.emitted
                    &&& done.used == input_count(model, next@.take(i as int))
                },
                forall|k: int| 0 <= k < resolved@.len() ==> #[trigger] resolved@[k] < before.pile@.len(),
            decreases n - i,
        {
            let tile_ref = next[i];
            let ghost west = resolve(model, next@.take(i as int), input)->0;
            proof {
                assert(next@.take(i + 1).drop_last() == next@.take(i as int));
                assert(next@.take(i + 1).last() == tile_ref);
                lemma_input_count_grows(model, next@, i + 1);
                lemma_resolve(model, next@.take(i + 1), input);
            }
            match self.pile.get_side_effects(&tile_ref) {
                SideEffects::Pure(_) => {
                    resolved.push(tile_ref);
                },
                SideEffects::Out(bit) => {
                    self.io.put(bit);
                    resolved.push(tile_ref);
                    assert(self.io.written() =~= written + west.emitted.push(bit));
                },
                SideEffects::In(alts) => {
                    let bit = match self.io.get() {
                        Ok(bit) => bit,
                        Err(_) => {
                            proof {
                                assert(false);
                            }
                            false
                        },
                    };
                    assert(bit == input[west.used as int]);
                    assert(self.io.pending_input() =~= input.skip(west.used as int + 1));
                    let at: usize = (tile_ref as usize) - self.pile.output_len();
                    assert(alts@[0] < before.pile@.len() && alts@[1] < before.pile@.len()) by {
                        assert(before.pile.alt_table()[at as int] == alts);
                    }
                    if bit {
                        resolved.push(alts[1]);
                    } else {
                        resolved.push(alts[0]);
                    }
                },
            }
            i += 1;
        }
        proof {
            assert(next@.take(n as int) == next@);
        }
        self.state = resolved;
        Ok(())
    }

    /// How many tiles of the row are input tiles.
    fn count_inputs(&self, row: &Vec<TileRef>) -> (count: usize)
        requires
            self@.pile.wf(),
        ensures
            count == input_count(self@.pile.model(), row@),
    {
        let mut count: usize = 0;
        let n = row.len();
        let mut i: usize = 0;
        while i < n
            invariant
                self@.pile.wf(),
                n == row@.len(),
                i <= n,
                count <= i,
                count == input_count(self@.pile.model(), row@.take(i as int)),
            decreases n - i,
        {
            proof {
                assert(row@.take(i + 1).drop_last() == row@.take(i as int));
            }
            if self.pile.get_side_effects(&row[i]).is_input() {
                count += 1;
            }
            i += 1;
        }
        proof {
            assert(row@.take(n as int) == row@);
        }
        count
    }
}

/// What holds of a machine that `new` has built from a set, a border and
/// a first row.
pub open spec fn built(
    set: Seq<Domino>,
    border_tile: Tile,
    initial_state: Seq<Tile>,
    program: ProgramView,
) -> bool {
    &&& program.pile.wf()
    &&& program.pile.built_from(set)
    &&& is_last_index(program.pile@, border_tile, program.border as int)
    &&& program.state.len() == initial_state.len()
    &&& forall|i: int|
        0 <= i < initial_state.len() ==> is_last_index(
            program.pile@,
            initial_state[i],
            #[trigger] program.state[i] as int,
        )
    &&& program.io.pending_input().len() == 0
    &&& program.io.written().len() == 0
}

/// Two machines that were built from the same set, border and first row
/// agree in all that decides their run.
pub proof fn lemma_built_machines_agree(
    set: Seq<Domino>,
    border_tile: Tile,
    initial_state: Seq<Tile>,
    first: ProgramView,
    second: ProgramView,
)
    requires
        built(set, border_tile, initial_state, first),
        built(set, border_tile, initial_state, second),
    ensures
        first.machine() == second.machine(),
{
    crate::tiling::lemma_built_alike(first.pile, second.pile, set);
    assert(first.state =~= second.state) by {
        assert forall|i: int| 0 <= i < first.state.len() implies first.state[i]
            == second.state[i] by {
            assert(is_last_index(first.pile@, initial_state[i], first.state[i] as int));
            assert(is_last_index(second.pile@, initial_state[i], second.state[i] as int));
        }
    }
    assert(first.io.pending_input() =~= second.io.pending_input());
}

/// A step is decided by the pile, the border, the row and the input that
/// is not read: two machines that agree in these end their step alike,
/// agree in them after it, and write the same bits.
pub proof fn lemma_step_deterministic(
    before: ProgramView,
    after: ProgramView,
    res: Result<(), MosaicError>,
    other_before: ProgramView,
    other_after: ProgramView,
    other_res: Result<(), MosaicError>,
)
    requires
        step_post(before, after, res),
        step_post(other_before, other_after, other_res),
        before.machine() == other_before.machine(),
    ensures
        after.machine() == other_after.machine(),
        res is Ok <==> other_res is Ok,
        res matches Err(MosaicError::Io(_)) <==> other_res matches Err(MosaicError::Io(_)),
        res matches Err(MosaicError::Row(RowError::UnsatisfiableConstraints { context }))
            ==> other_res matches Err(
            MosaicError::Row(RowError::UnsatisfiableConstraints { context: other_context }),
        ) && context@ == other_context@,
        res is Ok ==> exists|written: Seq<bool>|
            after.io.written() == before.io.written() + written && other_after.io.written()
                == other_before.io.written() + written,
{
    if res is Ok {
        let written = before.machine().emitted();
        assert(after.io.written() == before.io.written() + written);
        assert(other_after.io.written() == other_before.io.written() + written);
    }
}

/// The alternates of an input tile of a machine differ from the tile in
/// the south pip at most: they carry its north, east and west pips.
pub proof fn lemma_alternates_fit(program: Program, tile_ref: TileRef, alts: [TileRef; 2], k: int)
    requires
        program.wf(),
        program@.pile.effects_at(tile_ref) == SideEffects::In(alts),
        0 <= k < 2,
    ensures
        alts@[k] < program@.pile@.len(),
        program@.pile@[alts@[k] as int].north == program@.pile@[tile_ref as int].north,
        program@.pile@[alts@[k] as int].east == program@.pile@[tile_ref as int].east,
        program@.pile@[alts@[k] as int].west == program@.pile@[tile_ref as int].west,
{
    let pile = program@.pile;
    assert(pile.alts_fit_at(tile_ref));
    let at = tile_ref - pile.out_bits().len();
    assert(pile.alt_table()[at] == alts);
    if let SideEffects::In(found) = pile.effects_at(tile_ref) {
        assert(found == alts);
        assert(found@[0] < pile@.len() && found@[1] < pile@.len());
        assert(pile@[found@[0] as int].north == pile@[tile_ref as int].north);
        assert(pile@[found@[1] as int].north == pile@[tile_ref as int].north);
    }
}

/// The side effects of a row leave the east and the west pip of each of
/// its tiles as they are, if the alternates of every input tile fit it.
pub proof fn lemma_resolve_keeps_sides(pile: DominoPile, row: Seq<TileRef>, input: Seq<bool>)
    requires
        pile.wf(),
        forall|r: TileRef| #[trigger] pile.alts_fit_at(r),
        forall|i: int| 0 <= i < row.len() ==> #[trigger] row[i] < pile.hidden_mark(),
    ensures
        resolve(pile.model(), row, input) matches Some(done) ==> done.row.len() == row.len()
            && forall|i: int|
            0 <= i < row.len() ==> {
                &&& (#[trigger] done.row[i]) < pile@.len()
                &&& pile@[done.row[i] as int].east == pile@[row[i] as int].east
                &&& pile@[done.row[i] as int].west == pile@[row[i] as int].west
            },
    decreases row.len(),
{
    if row.len() > 0 {
        let front = row.drop_last();
        lemma_resolve_keeps_sides(pile, front, input);
        if let Some(done) = resolve(pile.model(), row, input) {
            let west = resolve(pile.model(), front, input)->0;
            let last = row.last();
            assert(pile.alts_fit_at(last));
            assert forall|i: int| 0 <= i < row.len() implies {
                &&& (#[trigger] done.row[i]) < pile@.len()
                &&& pile@[done.row[i] as int].east == pile@[row[i] as int].east
                &&& pile@[done.row[i] as int].west == pile@[row[i] as int].west
            } by {
                if i < front.len() {
                    assert(done.row[i] == west.row[i]);
                    assert(front[i] == row[i]);
                } else {
                    assert(row[i] == last);
                    if let SideEffects::In(alts) = pile.effects_at(last) {
                        let at = last - pile.out_bits().len();
                        assert(pile.alt_table()[at] == alts);
                        assert(done.row[i] == alts@[0] || done.row[i] == alts@[1]);
                    }
                }
            }
        }
    }
}

/// Each tile of a row that a step lays down fits its eastern neighbour,
/// if the sweep leaves each cloud but the easternmost with one east pip.
///
/// A sweep looks at each cloud once, so where it leaves a cloud with
/// tiles of several east pips, the tile that the cloud gives and the tile
/// that its neighbour gives need not fit.
pub proof fn lemma_stepped_row_fits(program: Program)
    requires
        program.wf(),
        program@.machine().outcome() is Stepped,
        sweep(
            program@.pile@,
            candidates(program@.pile.hidden_mark(), program@.pile@, program@.border, program@.state),
            0,
        ) matches Ok(swept) && forall|k: int|
            0 <= k < swept.len() - 1 ==> unanimous(
                program@.pile@,
                #[trigger] swept[k],
                crate::tiling::Direction::East,
            ),
    ensures
        adjacent_fit(program@.machine().next().tiles()),
{
    let view = program@;
    let machine = view.machine();
    let tiles = view.pile@;
    let row = machine.successor()->Ok_0;
    lemma_successor_fits(view.pile.hidden_mark(), tiles, view.border, view.state);
    lemma_successor_visible(view.pile.hidden_mark(), tiles, view.border, view.state);
    lemma_resolve_keeps_sides(view.pile, row, machine.input);
    let done = machine.resolved();
    let laid = tiles_at(tiles, row);
    let next = machine.next().tiles();
    assert forall|i: int| 0 <= i < next.len() - 1 implies (#[trigger] next[i]).east == next[i
        + 1].west by {
        assert(laid[i].east == laid[i + 1].west);
        assert(next[i] == tiles[done.row[i] as int]);
        assert(next[i + 1] == tiles[done.row[i + 1] as int]);
        assert(laid[i] == tiles[row[i] as int]);
        assert(laid[i + 1] == tiles[row[i + 1] as int]);
    }
}

/// If no input domino of a set is reported, the alternates of each fit.
proof fn lemma_no_divergent(set: Seq<Domino>)
    requires
        first_divergent(set) is None,
    ensures
        forall|i: int| 0 <= i < set.len() ==> (#[trigger] set[i]).alts_fit(),
    decreases set.len(),
{
    if set.len() > 0 {
        let tail = set.drop_first();
        lemma_no_divergent(tail);
        assert forall|i: int| 0 <= i < set.len() implies (#[trigger] set[i]).alts_fit() by {
            if i > 0 {
                assert(tail[i - 1] == set[i]);
            }
        }
    }
}

/// A pile holds every tile that its set holds.
proof fn lemma_set_tile_in_pile(set: Seq<Domino>, tile: Tile)
    requires
        has_tile(set, tile),
    ensures
        laid_out(set).contains(tile),
{
    let i = choose|i: int| 0 <= i < set.len() && (#[trigger] set[i]).tile == tile;
    lemma_laid_out_holds(set, i);
    let r = choose|r: int|
        0 <= r < set.len() && r < laid_out(set).len() && laid_out(set)[r] == set[i].tile;
    assert(laid_out(set)[r] == tile);
}

} // verus!
