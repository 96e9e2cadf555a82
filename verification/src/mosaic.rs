use vstd::prelude::*;
use crate::compiler::CompileError;
use crate::compiler::border_tile;
use crate::compiler::code_fits;
use crate::compiler::initial_row;
use crate::tessera::Machine;
use crate::tessera::MosaicError;
use crate::tessera::Program;
use crate::tessera::ProgramView;
use crate::tessera::step_post;
use crate::tiling::Pip;
use crate::tiling::Tile;
use crate::wmach::WmachErr;
use crate::wmach::program_of;

verus! {

/// Which places `get_tile` answers for.
#[derive(Debug, Clone, Copy, PartialEq, Eq, Structural)]
pub enum TileRetrieval {
    /// The places where a tile was laid down.
    OnlyComputed,
    /// Those, and beside each row that was laid down the void.
    IncludeBorder,
}

/// A tile with its place: the column of its cell, then the number of its
/// row.
#[derive(Debug, Clone, Copy)]
pub struct DapperTile {
    pub coord: (i32, i32),
    pub tile: Tile,
}

/// The range of places for which a mosaic has computed its rows.
#[derive(Debug)]
pub struct ComputeCertificate {
    row_start: i32,
    row_end: i32,
    col_start: i32,
    col_end: i32,
}

/// One row that was laid down.
#[derive(Debug)]
struct TileRow {
    offset: i32,
    tiles: Vec<Tile>,
}

/// One row that was laid down: its tiles from west to east, and the column
/// of the first of them. The first row begins at column 0; a row that has
/// grown to the west begins at a column below that of the row before it.
pub struct RowView {
    pub offset: int,
    pub tiles: Seq<Tile>,
}

/// The westernmost tile of a row that is not the border.
pub open spec fn first_non_border(tiles: Seq<Tile>, border: Tile) -> Option<Tile>
    decreases tiles.len(),
{
    if tiles.len() == 0 {
        None
    } else if tiles[0] != border {
        Some(tiles[0])
    } else {
        first_non_border(tiles.drop_first(), border)
    }
}

/// The place of the westernmost tile of a row whose north pip is `pip`.
pub open spec fn first_with_north(tiles: Seq<Tile>, pip: Pip) -> Option<nat>
    decreases tiles.len(),
{
    if tiles.len() == 0 {
        None
    } else if tiles[0].north == pip {
        Some(0)
    } else {
        match first_with_north(tiles.drop_first(), pip) {
            Some(at) => Some(at + 1),
            None => None,
        }
    }
}

/// How many cells a row has grown to the west of the row before it.
///
/// A row as long as the one before it has not grown. Else the westernmost
/// tile of the row before that is not the border is taken, and the
/// westernmost tile of the row that fits below it: the place of that tile
/// is the number of cells. If there is no such tile, the row has not
/// grown to the west.
pub open spec fn west_shift(prev: Seq<Tile>, next: Seq<Tile>, border: Tile) -> nat {
    if next.len() == prev.len() {
        0
    } else {
        match first_non_border(prev, border) {
            Some(tile) => match first_with_north(next, tile.south) {
                Some(at) => at,
                None => 0,
            },
            None => 0,
        }
    }
}

/// The column at which a row begins that has grown `shift` cells to the
/// west of a row that begins at `prev`; no column lies below `i32::MIN`.
pub open spec fn shifted(prev: int, shift: nat) -> int {
    if prev - shift < i32::MIN {
        i32::MIN as int
    } else {
        prev - shift
    }
}

/// The row that a machine lays down next, after the row `last`.
pub open spec fn next_row(machine: Machine, last: RowView) -> RowView {
    let tiles = machine.next().tiles();
    RowView {
        offset: shifted(
            last.offset,
            west_shift(last.tiles, tiles, machine.pile.tiles[machine.border as int]),
        ),
        tiles,
    }
}

/// The rows that a machine lays down in `count` steps after the row
/// `last`, or in fewer if a step fails.
pub open spec fn extension(machine: Machine, last: RowView, count: nat) -> Seq<RowView>
    decreases count,
{
    if count == 0 || !(machine.outcome() is Stepped) {
        Seq::empty()
    } else {
        seq![next_row(machine, last)] + extension(
            machine.next(),
            next_row(machine, last),
            (count - 1) as nat,
        )
    }
}

/// The bits of output that a machine writes in `count` steps, or in fewer
/// if a step fails.
pub open spec fn emitted_in(machine: Machine, count: nat) -> Seq<bool>
    decreases count,
{
    if count == 0 || !(machine.outcome() is Stepped) {
        Seq::empty()
    } else {
        machine.emitted() + emitted_in(machine.next(), (count - 1) as nat)
    }
}

/// The machine after `count` steps, or after fewer if a step fails.
pub open spec fn advanced(machine: Machine, count: nat) -> Machine
    decreases count,
{
    if count == 0 || !(machine.outcome() is Stepped) {
        machine
    } else {
        advanced(machine.next(), (count - 1) as nat)
    }
}

/// The tile at a place: `row` is the column of the cell, `col` the number
/// of the row.
///
/// Before the first row every place is void. In a row that was laid down,
/// a place holds the tile that was laid there, and the places beside the
/// row are void. Of the rows that were not laid down nothing is known.
/// The void is answered with the border if `options` asks for it.
pub open spec fn tile_at(
    rows: Seq<RowView>,
    border: Tile,
    row: int,
    col: int,
    options: TileRetrieval,
) -> Option<Tile> {
    let void = if options == TileRetrieval::IncludeBorder {
        Some(border)
    } else {
        None
    };
    if col < 0 {
        void
    } else if col < rows.len() {
        let at = row - rows[col].offset;
        if 0 <= at < rows[col].tiles.len() {
            Some(rows[col].tiles[at])
        } else {
            void
        }
    } else {
        None
    }
}

/// Why a source could not be made a mosaic.
#[derive(Debug)]
pub enum LoadError {
    /// The source is no program.
    Parse(WmachErr),
    /// The program could not be turned into tiles.
    Compile(CompileError),
}

/// A machine together with the rows that it has laid down.
#[derive(Debug)]
pub struct Mosaic {
    program: Program,
    mosaic: Vec<TileRow>,
    running: bool,
}

impl Mosaic {
    /// The machine.
    pub closed spec fn program(&self) -> ProgramView {
        self.program@
    }

    /// The rows that were laid down, the first row first.
    pub closed spec fn rows(&self) -> Seq<RowView> {
        self.mosaic@.map_values(|r: TileRow| RowView { offset: r.offset as int, tiles: r.tiles@ })
    }

    /// Whether no step of the machine has failed.
    pub closed spec fn running(&self) -> bool {
        self.running
    }

    /// The tile of the void.
    pub open spec fn border(&self) -> Tile {
        self.program().pile@[self.program().border as int]
    }

    /// The machine is well formed, the last row is its current row, and
    /// no row begins east of column 0.
    pub closed spec fn wf(&self) -> bool {
        &&& self.program.wf()
        &&& self.mosaic@.len() > 0
        &&& self.mosaic@.last().tiles@ == self.program@.tiles()
        &&& forall|j: int| 0 <= j < self.mosaic@.len() ==> (#[trigger] self.mosaic@[j]).offset <= 0
    }

    /// A mosaic of the machine and its current row.
    pub fn from_program(program: Program) -> (mosaic: Self)
        requires
            program.wf(),
        ensures
            mosaic.wf(),
            mosaic.program() == program@,
            mosaic.running(),
            mosaic.rows() == seq![RowView { offset: 0, tiles: program@.tiles() }],
    {
        let mut rows: Vec<TileRow> = Vec::new();
        rows.push(TileRow { offset: 0, tiles: program.state() });
        let mosaic = Mosaic { program: program, mosaic: rows, running: true };
        assert(mosaic.rows() =~= seq![RowView { offset: 0, tiles: program@.tiles() }]);
        mosaic
    }

    /// A mosaic of the machine of a source, with the first row of that
    /// machine.
    ///
    /// Fails if the source is no program, or if the pips cannot hold the
    /// program.
    pub fn new(source_code: &str) -> (res: Result<Self, LoadError>)
        ensures
            match program_of(source_code@) {
                Err(error) => res matches Err(LoadError::Parse(e)) && e@ == error,
                Ok((code, _)) => if code_fits(code) {
                    &&& res matches Ok(mosaic)
                    &&& mosaic.wf()
                    &&& mosaic.running()
                    &&& mosaic.border() == border_tile()
                    &&& mosaic.rows() == seq![RowView { offset: 0, tiles: initial_row() }]
                } else {
                    res matches Err(LoadError::Compile(_))
                },
            },
    {
        let parsed = match crate::wmach::Program::from_str(source_code) {
            Ok(parsed) => parsed,
            Err(error) => {
                return Err(LoadError::Parse(error));
            },
        };
        let program = match parsed.compile() {
            Ok(program) => program,
            Err(error) => {
                return Err(LoadError::Compile(error));
            },
        };
        Ok(Mosaic::from_program(program))
    }

    /// The tile at a place: `row` is the column of the cell, `col` the
    /// number of the row.
    pub fn get_tile(&self, row: i32, col: i32, options: &TileRetrieval) -> (found: Option<Tile>)
        requires
            self.wf(),
        ensures
            found == tile_at(self.rows(), self.border(), row as int, col as int, *options),
    {
        let default = if *options == TileRetrieval::IncludeBorder {
            Some(self.program.border())
        } else {
            None
        };
        if col < 0 {
            return default;
        }
        let col = col as usize;
        if col < self.mosaic.len() {
            let lower = self.mosaic[col].offset;
            let upper = self.mosaic[col].tiles.len();
            assert(self.rows()[col as int].offset == lower);
            assert(self.rows()[col as int].tiles == self.mosaic@[col as int].tiles@);
            if row < lower {
                return default;
            }
            let adjusted = (row as i64 - lower as i64) as usize;
            if adjusted >= upper {
                return default;
            }
            return Some(self.mosaic[col].tiles[adjusted]);
        }
        None
    }
}

/// The westernmost tile of a row that is not the border.
fn find_non_border(tiles: &Vec<Tile>, border: &Tile) -> (found: Option<Tile>)
    ensures
        found == first_non_border(tiles@, *border),
{
    let mut i: usize = 0;
    assert(tiles@.skip(0) == tiles@);
    while i < tiles.len()
        invariant
            i <= tiles@.len(),
            first_non_border(tiles@, *border) == first_non_border(tiles@.skip(i as int), *border),
        decreases tiles@.len() - i,
    {
        proof {
            assert(tiles@.skip(i as int).drop_first() == tiles@.skip(i + 1));
        }
        if tiles[i] != *border {
            return Some(tiles[i]);
        }
        i += 1;
    }
    None
}

/// The place of the westernmost tile of a row whose north pip is `pip`.
fn find_with_north(tiles: &Vec<Tile>, pip: Pip) -> (found: Option<usize>)
    ensures
        match first_with_north(tiles@, pip) {
            Some(at) => found == Some(at as usize) && at < tiles@.len(),
            None => found is None,
        },
{
    let mut i: usize = 0;
    proof {
        assert(tiles@.skip(0) == tiles@);
        lemma_first_with_north_bound(tiles@, pip);
    }
    while i < tiles.len()
        invariant
            i <= tiles@.len(),
            first_with_north(tiles@, pip) == match first_with_north(tiles@.skip(i as int), pip) {
                Some(at) => Some(at + i as nat),
                None => None,
            },
            first_with_north(tiles@.skip(i as int), pip) matches Some(at) ==> at < tiles@.len() - i,
        decreases tiles@.len() - i,
    {
        proof {
            assert(tiles@.skip(i as int).drop_first() == tiles@.skip(i + 1));
            lemma_first_with_north_bound(tiles@.skip(i + 1), pip);
        }
        if tiles[i].north == pip {
            return Some(i);
        }
        i += 1;
    }
    None
}

/// The place that `first_with_north` finds is a place of the row.
proof fn lemma_first_with_north_bound(tiles: Seq<Tile>, pip: Pip)
    ensures
        first_with_north(tiles, pip) matches Some(at) ==> at < tiles.len(),
    decreases tiles.len(),
{
    if tiles.len() > 0 {
        lemma_first_with_north_bound(tiles.drop_first(), pip);
    }
}

/// How many cells a row has grown to the west of the row before it.
fn westward(prev: &Vec<Tile>, next: &Vec<Tile>, border: &Tile) -> (shift: usize)
    ensures
        shift == west_shift(prev@, next@, *border),
{
    if next.len() == prev.len() {
        return 0;
    }
    match find_non_border(prev, border) {
        Some(tile) => match find_with_north(next, tile.south) {
            Some(at) => at,
            None => 0,
        },
        None => 0,
    }
}

/// The column at which a row begins that has grown `shift` cells to the
/// west of a row that begins at `prev`.
fn shift_west(prev: i32, shift: usize) -> (offset: i32)
    requires
        prev <= 0,
    ensures
        offset == shifted(prev as int, shift as nat),
        offset <= 0,
{
    if shift > 0xffff_ffff {
        return i32::MIN;
    }
    let wide: i64 = prev as i64 - shift as i64;
    if wide < i32::MIN as i64 {
        i32::MIN
    } else {
        wide as i32
    }
}

impl Mosaic {
    /// Lets the machine lay down its next row and keeps the row.
    ///
    /// If the step of the machine fails, the mosaic keeps its rows and
    /// runs no more.
    pub fn step(&mut self) -> (res: Result<(), MosaicError>)
        requires
            old(self).wf(),
        ensures
            final(self).wf(),
            step_post(old(self).program(), final(self).program(), res),
            res is Ok <==> old(self).program().machine().outcome() is Stepped,
            final(self).rows() == old(self).rows() + extension(
                old(self).program().machine(),
                old(self).rows().last(),
                1,
            ),
            final(self).program().machine() == advanced(old(self).program().machine(), 1),
            final(self).program().io.written() == old(self).program().io.written() + emitted_in(
                old(self).program().machine(),
                1,
            ),
            final(self).running() == (old(self).running() && res is Ok),
    {
        let ghost machine = self.program@.machine();
        let ghost last = self.rows().last();
        let ghost written = self.program@.io.written();
        if let Err(error) = self.program.step() {
            self.running = false;
            proof {
                assert(self.rows() =~= old(self).rows() + Seq::<RowView>::empty());
                assert(written =~= written + Seq::<bool>::empty());
            }
            return Err(error);
        }
        let state = self.program.state();
        let border = self.program.border();
        let at = self.mosaic.len() - 1;
        let shift = westward(&self.mosaic[at].tiles, &state, &border);
        let offset = shift_west(self.mosaic[at].offset, shift);
        proof {
            assert(self.program@.tiles() == machine.next().tiles());
            assert(last.tiles == old(self).mosaic@[at as int].tiles@);
            assert(last.offset == old(self).mosaic@[at as int].offset);
            let row = next_row(machine, last);
            assert(row == RowView { offset: offset as int, tiles: state@ });
            assert(extension(machine.next(), row, 0) =~= Seq::<RowView>::empty());
            assert(extension(machine, last, 1) =~= seq![row]);
            assert(advanced(machine.next(), 0) == machine.next());
            assert(emitted_in(machine.next(), 0) =~= Seq::<bool>::empty());
            assert(emitted_in(machine, 1) =~= machine.emitted());
        }
        self.mosaic.push(TileRow { offset: offset, tiles: state });
        proof {
            assert(self.rows() =~= old(self).rows() + extension(machine, last, 1));
        }
        Ok(())
    }

    /// Lets the machine run until the row with the number `col_end` is
    /// laid down, or until a step fails, and certifies the range of places
    /// for which rows are there.
    ///
    /// A mosaic that runs no more lays down no row.
    pub fn compute(&mut self, row_start: i32, row_end: i32, col_start: i32, col_end: i32) -> (res:
        Result<ComputeCertificate, MosaicError>)
        requires
            old(self).wf(),
        ensures
            final(self).wf(),
            res matches Ok(certificate) && certificate.wf() && certificate@ == (
                row_start,
                row_end,
                col_start,
                if final(self).rows().len() - 1 < i32::MAX {
                    (final(self).rows().len() - 1) as i32
                } else {
                    (i32::MAX - 1) as i32
                },
            ),
            final(self).rows() == old(self).rows() + extension(
                old(self).program().machine(),
                old(self).rows().last(),
                wanted(old(self).rows().len(), col_end as int, old(self).running()),
            ),
            final(self).program().machine() == advanced(
                old(self).program().machine(),
                wanted(old(self).rows().len(), col_end as int, old(self).running()),
            ),
            final(self).program().io.written() == old(self).program().io.written() + emitted_in(
                old(self).program().machine(),
                wanted(old(self).rows().len(), col_end as int, old(self).running()),
            ),
            final(self).running() == (old(self).running() && final(self).rows().len()
                == old(self).rows().len() + wanted(
                old(self).rows().len(),
                col_end as int,
                old(self).running(),
            )),
    {
        let ghost machine = self.program@.machine();
        let ghost last = self.rows().last();
        let ghost rows = self.rows();
        let ghost count = wanted(rows.len(), col_end as int, self.running);
        let ghost written = self.program@.io.written();
        proof {
            assert(self.rows() =~= rows + Seq::<RowView>::empty());
            assert(written =~= written + Seq::<bool>::empty());
            if count == 0 {
                assert(extension(machine, last, 0) =~= Seq::<RowView>::empty());
                assert(emitted_in(machine, 0) =~= Seq::<bool>::empty());
            }
        }
        if col_end >= 0 {
            let mut done: Ghost<nat> = Ghost(0);
            while self.mosaic.len() <= (col_end as usize) && self.running
                invariant
                    self.wf(),
                    col_end >= 0,
                    done@ <= count,
                    self.rows().len() == rows.len() + done@,
                    self.running ==> count - done@ == wanted(
                        self.rows().len(),
                        col_end as int,
                        true,
                    ),
                    !self.running ==> rows + extension(machine, last, count) == self.rows(),
                    !self.running ==> advanced(machine, count) == self.program@.machine(),
                    !self.running ==> written + emitted_in(machine, count)
                        == self.program@.io.written(),
                    self.running ==> written + emitted_in(machine, count)
                        == self.program@.io.written() + emitted_in(
                        self.program@.machine(),
                        (count - done@) as nat,
                    ),
                    self.running ==> rows + extension(machine, last, count) == self.rows()
                        + extension(
                        self.program@.machine(),
                        self.rows().last(),
                        (count - done@) as nat,
                    ),
                    self.running ==> advanced(machine, count) == advanced(
                        self.program@.machine(),
                        (count - done@) as nat,
                    ),
                    self.running ==> old(self).running(),
                    !self.running && old(self).running() ==> self.rows().len() < rows.len() + count,
                decreases count - done@, if self.running {
                        1int
                    } else {
                        0int
                    },
            {
                let ghost here = self.program@.machine();
                let ghost here_last = self.rows().last();
                let ghost here_rows = self.rows();
                let ghost left = (count - done@) as nat;
                let ghost here_written = self.program@.io.written();
                let stepped = self.step();
                proof {
                    assert(left > 0);
                    if stepped is Ok {
                        assert(extension(here.next(), next_row(here, here_last), 0)
                            =~= Seq::<RowView>::empty());
                        assert(extension(here, here_last, 1) =~= seq![next_row(here, here_last)]);
                        assert(advanced(here.next(), 0) == here.next());
                        assert(self.rows().last() == next_row(here, here_last));
                        assert(here_rows + extension(here, here_last, left) =~= self.rows()
                            + extension(here.next(), next_row(here, here_last), (left - 1) as nat));
                        done@ = done@ + 1;
                    } else {
                        assert(extension(here, here_last, left) =~= Seq::<RowView>::empty());
                        assert(here_rows + extension(here, here_last, left) =~= self.rows());
                        assert(emitted_in(here, 1) =~= Seq::<bool>::empty());
                        assert(emitted_in(here, left) =~= Seq::<bool>::empty());
                        assert(here_written + emitted_in(here, left) =~= self.program@.io.written());
                    }
                }
            }
            proof {
                if self.running {
                    assert(count == done@);
                    assert(extension(self.program@.machine(), self.rows().last(), 0)
                        =~= Seq::<RowView>::empty());
                    assert(rows + extension(machine, last, count) =~= self.rows());
                    assert(emitted_in(self.program@.machine(), 0) =~= Seq::<bool>::empty());
                    assert(written + emitted_in(machine, count) =~= self.program@.io.written());
                }
            }
        }
        let at: usize = self.mosaic.len() - 1;
        let last_col: i32 = if at >= 0x7fff_ffff {
            0x7fff_fffe
        } else {
            at as i32
        };
        Ok(ComputeCertificate { row_start, row_end, col_start, col_end: last_col })
    }

    /// The tiles of a range of places, with their places.
    ///
    /// The places are gone through row by row, from the row `col_start` of
    /// the certificate to its row `col_end`, and in each row from the
    /// column `row_start` to the column `row_end`.
    pub fn tile_range<'a>(&'a self, proof: ComputeCertificate, options: TileRetrieval) -> (view:
        TileView<'a>)
        requires
            self.wf(),
            proof.wf(),
        ensures
            view.wf(),
            view.model() == *self,
            view.options() == options,
            view.bounds() == (proof@.0 as int, proof@.1 as int, proof@.3 as int),
            view.cursor() == (proof@.0 as int, proof@.2 as int),
    {
        TileView {
            row_start: proof.row_start,
            row_end: proof.row_end,
            _col_start: proof.col_start,
            col_end: proof.col_end,
            x: proof.row_start,
            y: proof.col_start,
            model: self,
            options: options,
        }
    }
}

/// How many rows are to be laid down so that the row with the number
/// `col_end` is there.
pub open spec fn wanted(rows: nat, col_end: int, running: bool) -> nat {
    if running && col_end >= rows {
        (col_end + 1 - rows) as nat
    } else {
        0
    }
}

impl View for ComputeCertificate {
    type V = (i32, i32, i32, i32);

    /// The first and the last column, then the first and the last row.
    closed spec fn view(&self) -> (i32, i32, i32, i32) {
        (self.row_start, self.row_end, self.col_start, self.col_end)
    }
}

impl ComputeCertificate {
    /// The last row is not the last number that a row can have.
    pub closed spec fn wf(&self) -> bool {
        self.col_end < i32::MAX
    }
}

/// Where a walk through a range of places has found a tile, and where it
/// goes on.
pub struct Hit {
    pub x: int,
    pub y: int,
    pub tile: Tile,
    pub next_x: int,
    pub next_y: int,
}

/// The first place at or after `(x, y)` that holds a tile, in a walk that
/// goes through each row from `row_start` to `row_end` and ends after the
/// row `col_end`.
pub open spec fn scan(
    rows: Seq<RowView>,
    border: Tile,
    options: TileRetrieval,
    row_start: int,
    row_end: int,
    col_end: int,
    x: int,
    y: int,
) -> Option<Hit>
    decreases col_end - y + 1, if x < row_end {
        row_end - x
    } else {
        0
    },
{
    if y > col_end {
        None
    } else {
        let next_x = if x >= row_end {
            row_start
        } else {
            x + 1
        };
        let next_y = if x >= row_end {
            y + 1
        } else {
            y
        };
        match tile_at(rows, border, x, y, options) {
            Some(tile) => Some(Hit { x, y, tile, next_x, next_y }),
            None => scan(rows, border, options, row_start, row_end, col_end, next_x, next_y),
        }
    }
}

/// A walk through the tiles of a range of places of a mosaic.
#[derive(Debug)]
pub struct TileView<'a> {
    row_start: i32,
    row_end: i32,
    _col_start: i32,
    col_end: i32,
    x: i32,
    y: i32,
    model: &'a Mosaic,
    options: TileRetrieval,
}

impl<'a> TileView<'a> {
    /// The mosaic that is walked through.
    pub closed spec fn model(&self) -> Mosaic {
        *self.model
    }

    /// Which places are answered for.
    pub closed spec fn options(&self) -> TileRetrieval {
        self.options
    }

    /// The first and the last column of each row, and the last row.
    pub closed spec fn bounds(&self) -> (int, int, int) {
        (self.row_start as int, self.row_end as int, self.col_end as int)
    }

    /// The place that is looked at next: its column, then its row.
    pub closed spec fn cursor(&self) -> (int, int) {
        (self.x as int, self.y as int)
    }

    /// The mosaic is well formed, and the last row is not the last number
    /// that a row can have.
    pub closed spec fn wf(&self) -> bool {
        &&& self.model.wf()
        &&& self.col_end < i32::MAX
    }

    /// The next place of the walk that holds a tile, with the tile; `None`
    /// when the walk is over.
    pub fn next(&mut self) -> (res: Option<DapperTile>)
        requires
            old(self).wf(),
        ensures
            final(self).wf(),
            final(self).model() == old(self).model(),
            final(self).options() == old(self).options(),
            final(self).bounds() == old(self).bounds(),
            match scan(
                old(self).model().rows(),
                old(self).model().border(),
                old(self).options(),
                old(self).bounds().0,
                old(self).bounds().1,
                old(self).bounds().2,
                old(self).cursor().0,
                old(self).cursor().1,
            ) {
                Some(hit) => res matches Some(found) && found.coord.0 == hit.x && found.coord.1
                    == hit.y && found.tile == hit.tile && final(self).cursor() == (
                    hit.next_x,
                    hit.next_y,
                ),
                None => res is None && final(self).cursor().1 > final(self).bounds().2,
            },
    {
        loop
            invariant
                self.wf(),
                self.model() == old(self).model(),
                self.options() == old(self).options(),
                self.bounds() == old(self).bounds(),
                scan(
                    old(self).model().rows(),
                    old(self).model().border(),
                    old(self).options(),
                    old(self).bounds().0,
                    old(self).bounds().1,
                    old(self).bounds().2,
                    old(self).cursor().0,
                    old(self).cursor().1,
                ) == scan(
                    self.model().rows(),
                    self.model().border(),
                    self.options(),
                    self.bounds().0,
                    self.bounds().1,
                    self.bounds().2,
                    self.cursor().0,
                    self.cursor().1,
                ),
            decreases self.col_end - self.y + 1, if self.x < self.row_end {
                    self.row_end - self.x
                } else {
                    0
                },
        {
            let coord = (self.x, self.y);
            if self.y > self.col_end {
                return None;
            }
            if self.x >= self.row_end {
                self.x = self.row_start;
                self.y = self.y + 1;
            } else {
                self.x = self.x + 1;
            }
            if let Some(tile) = self.model.get_tile(coord.0, coord.1, &self.options) {
                return Some(DapperTile { coord: coord, tile: tile });
            }
        }
    }
}

} // verus!
