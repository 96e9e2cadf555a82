use vstd::prelude::*;
use crate::tessera::Program;
use crate::tessera::built;
use crate::tessera::first_divergent;
use crate::tessera::first_missing;
use crate::tessera::has_tile;
use crate::tessera::model_fault;
use crate::constraint::self_consistent;
use crate::tiling::Domino;
use crate::tiling::EMPTY_PIP;
use crate::tiling::ONE_PIP;
use crate::tiling::Pip;
use crate::tiling::PurityBias;
use crate::tiling::SideEffects;
use crate::tiling::Tile;
use crate::tiling::UNALLOCATED_PIP;
use crate::tiling::ZERO_PIP;
use crate::tiling::inputs;
use crate::tiling::pip_from_components;
use crate::tiling::pip_of;
use crate::tiling::tile_count;
use crate::wmach::Insn;
use crate::wmach::IoOp;
use crate::wmach::SeekOp;
use crate::wmach::WriteOp;

verus! {

/// The position of the first instruction; position 0 is that of the first
/// row, which no instruction lays down.
pub const BASE_OFFSET: usize = 1;

/// The south pip of an input tile before its bit is read. No tile carries
/// it on its north edge, so nothing can be laid below such a tile.
pub const SOUTH_U: Pip = 0xdead;

/// The pip that joins the three tiles of the first row. No other tile
/// carries it.
pub const MAGIC_PIP: Pip = 0xffff_ffff;

/// The pip before the first pip that binds a seek to its landing tiles.
pub const BIND_BASE: Pip = 0x1_0000;

/// The first position that the pips cannot hold: the pips of every
/// position below it lie below `SOUTH_U`.
pub const MAX_POSITION: usize = 28502;

/// Why a program could not be turned into tiles.
#[derive(Copy, Clone, Debug, PartialEq, Eq)]
pub enum CompileError {
    /// The program has an instruction, or a branch has a target, at a
    /// position that the pips cannot hold.
    PipSpaceExhausted,
}

/// Something that turns a program into what runs it.
pub trait Backend {
    type Target;

    fn compile(&self) -> Result<Self::Target, CompileError>;
}

/// A pure domino with these pips.
pub open spec fn pure_domino(north: Pip, east: Pip, south: Pip, west: Pip) -> Domino {
    Domino {
        side_effect: SideEffects::Pure(PurityBias::Nothing),
        tile: Tile { north, east, south, west },
    }
}

/// The tile of the void: every pip is `UNALLOCATED_PIP`.
pub open spec fn border_tile() -> Tile {
    Tile {
        north: UNALLOCATED_PIP,
        east: UNALLOCATED_PIP,
        south: UNALLOCATED_PIP,
        west: UNALLOCATED_PIP,
    }
}

/// The tile at the west end of the first row.
pub open spec fn initial_west() -> Tile {
    Tile { north: UNALLOCATED_PIP, east: MAGIC_PIP, south: EMPTY_PIP, west: UNALLOCATED_PIP }
}

/// The tile of the head in the first row: below it the first instruction
/// finds a cell that holds zero.
pub open spec fn initial_head() -> Tile {
    Tile { north: UNALLOCATED_PIP, east: MAGIC_PIP, south: pip_of(BASE_OFFSET, 0), west: MAGIC_PIP }
}

/// The tile at the east end of the first row.
pub open spec fn initial_east() -> Tile {
    Tile { north: UNALLOCATED_PIP, east: UNALLOCATED_PIP, south: EMPTY_PIP, west: MAGIC_PIP }
}

/// The first row of every compiled machine.
pub open spec fn initial_row() -> Seq<Tile> {
    seq![initial_west(), initial_head(), initial_east()]
}

/// The dominoes that every compiled machine holds: the border, the two
/// alcoves that end a row against the void, the two tiles that carry a
/// cell on unchanged, and the three tiles of the first row.
pub open spec fn boilerplate() -> Seq<Domino> {
    seq![
        Domino { side_effect: SideEffects::Pure(PurityBias::Nothing), tile: border_tile() },
        pure_domino(UNALLOCATED_PIP, EMPTY_PIP, UNALLOCATED_PIP, UNALLOCATED_PIP),
        pure_domino(UNALLOCATED_PIP, UNALLOCATED_PIP, UNALLOCATED_PIP, EMPTY_PIP),
        pure_domino(ZERO_PIP, EMPTY_PIP, ZERO_PIP, EMPTY_PIP),
        pure_domino(ONE_PIP, EMPTY_PIP, ONE_PIP, EMPTY_PIP),
        Domino { side_effect: SideEffects::Pure(PurityBias::Nothing), tile: initial_west() },
        Domino { side_effect: SideEffects::Pure(PurityBias::Nothing), tile: initial_head() },
        Domino { side_effect: SideEffects::Pure(PurityBias::Nothing), tile: initial_east() },
    ]
}

/// The pip that binds the seek at `position` to its landing tiles.
pub open spec fn bind_pip(position: usize) -> Pip {
    (BIND_BASE + position) as usize
}

/// The dominoes of the instruction at `position`.
///
/// Each family has a tile for either value of the cell under the head; the
/// north pip of the tile names the position and the value, the south pip
/// the position of the next instruction and the value that the cell then
/// holds. A seek has two tiles that send its bind pip east or west and
/// leave the plain value behind, and three tiles that take the bind pip
/// up on the cell beside: over a zero, over a one and over the void. The
/// tile over the void carries the pip of the void on its far side, so it
/// fits at the end of a row, and a cell that the head finds there holds
/// zero. `Debug` is reserved: it has no tiles, and a machine that comes
/// to it halts.
pub open spec fn family(insn: Insn, position: usize) -> Seq<Domino> {
    let n0 = pip_of(position, 0);
    let n1 = pip_of(position, 1);
    let s0 = pip_of((position + 1) as usize, 0);
    let s1 = pip_of((position + 1) as usize, 1);
    let bind = bind_pip(position);
    match insn {
        Insn::Write(WriteOp::Unset) => seq![
            pure_domino(n0, EMPTY_PIP, s0, EMPTY_PIP),
            pure_domino(n1, EMPTY_PIP, s0, EMPTY_PIP),
        ],
        Insn::Write(WriteOp::SetBit) => seq![
            pure_domino(n0, EMPTY_PIP, s1, EMPTY_PIP),
            pure_domino(n1, EMPTY_PIP, s1, EMPTY_PIP),
        ],
        Insn::Seek(SeekOp::Right) => seq![
            pure_domino(n0, bind, ZERO_PIP, EMPTY_PIP),
            pure_domino(n1, bind, ONE_PIP, EMPTY_PIP),
            pure_domino(ZERO_PIP, EMPTY_PIP, s0, bind),
            pure_domino(ONE_PIP, EMPTY_PIP, s1, bind),
            pure_domino(UNALLOCATED_PIP, UNALLOCATED_PIP, s0, bind),
        ],
        Insn::Seek(SeekOp::Left) => seq![
            pure_domino(n0, EMPTY_PIP, ZERO_PIP, bind),
            pure_domino(n1, EMPTY_PIP, ONE_PIP, bind),
            pure_domino(ZERO_PIP, bind, s0, EMPTY_PIP),
            pure_domino(ONE_PIP, bind, s1, EMPTY_PIP),
            pure_domino(UNALLOCATED_PIP, bind, s0, UNALLOCATED_PIP),
        ],
        Insn::Io(IoOp::Out) => seq![
            Domino {
                side_effect: SideEffects::Out(false),
                tile: Tile { north: n0, east: EMPTY_PIP, south: s0, west: EMPTY_PIP },
            },
            Domino {
                side_effect: SideEffects::Out(true),
                tile: Tile { north: n1, east: EMPTY_PIP, south: s1, west: EMPTY_PIP },
            },
        ],
        Insn::Io(IoOp::In) => seq![
            Domino {
                side_effect: SideEffects::In(
                    [
                        Tile { north: n0, east: EMPTY_PIP, south: s0, west: EMPTY_PIP },
                        Tile { north: n0, east: EMPTY_PIP, south: s1, west: EMPTY_PIP },
                    ],
                ),
                tile: Tile { north: n0, east: EMPTY_PIP, south: SOUTH_U, west: EMPTY_PIP },
            },
            Domino {
                side_effect: SideEffects::In(
                    [
                        Tile { north: n1, east: EMPTY_PIP, south: s0, west: EMPTY_PIP },
                        Tile { north: n1, east: EMPTY_PIP, south: s1, west: EMPTY_PIP },
                    ],
                ),
                tile: Tile { north: n1, east: EMPTY_PIP, south: SOUTH_U, west: EMPTY_PIP },
            },
        ],
        Insn::Jmp(if_one, if_zero) => seq![
            pure_domino(n0, EMPTY_PIP, pip_of((if_zero + BASE_OFFSET) as usize, 0), EMPTY_PIP),
            pure_domino(n1, EMPTY_PIP, pip_of((if_one + BASE_OFFSET) as usize, 1), EMPTY_PIP),
        ],
        Insn::Debug => Seq::empty(),
    }
}

/// The dominoes of the instructions of a program, in the order of the
/// program.
pub open spec fn families(code: Seq<Insn>) -> Seq<Domino>
    decreases code.len(),
{
    if code.len() == 0 {
        Seq::empty()
    } else {
        families(code.drop_last()) + family(code.last(), code.len() as usize)
    }
}

/// The dominoes of the machine of a program.
pub open spec fn compiled_set(code: Seq<Insn>) -> Seq<Domino> {
    boilerplate() + families(code)
}

/// Whether the pips can hold the program: the position after its last
/// instruction, and the position of every target of a branch, lies below
/// `MAX_POSITION`.
pub open spec fn code_fits(code: Seq<Insn>) -> bool {
    &&& code.len() + BASE_OFFSET < MAX_POSITION
    &&& forall|i: int|
        0 <= i < code.len() ==> (#[trigger] code[i] matches Insn::Jmp(if_one, if_zero) ==> if_one
            + BASE_OFFSET < MAX_POSITION && if_zero + BASE_OFFSET < MAX_POSITION)
}

/// Whether the pips can hold the program.
pub fn fits(code: &Vec<Insn>) -> (yes: bool)
    ensures
        yes == code_fits(code@),
{
    let n = code.len();
    if n >= MAX_POSITION - BASE_OFFSET {
        return false;
    }
    let mut i: usize = 0;
    while i < n
        invariant
            n == code@.len(),
            i <= n,
            forall|k: int|
                0 <= k < i ==> (#[trigger] code@[k] matches Insn::Jmp(if_one, if_zero) ==> if_one
                    + BASE_OFFSET < MAX_POSITION && if_zero + BASE_OFFSET < MAX_POSITION),
        decreases n - i,
    {
        if let Insn::Jmp(if_one, if_zero) = code[i] {
            if if_one >= MAX_POSITION - BASE_OFFSET || if_zero >= MAX_POSITION - BASE_OFFSET {
                return false;
            }
        }
        i += 1;
    }
    true
}

/// A tile with pure side effect, as a domino.
fn pure_of(north: Pip, east: Pip, south: Pip, west: Pip) -> (domino: Domino)
    ensures
        domino == pure_domino(north, east, south, west),
{
    Domino::pure(Tile::new(north, east, south, west))
}

/// Appends the dominoes of the instruction at `position`.
fn emit(set: &mut Vec<Domino>, insn: &Insn, position: usize)
    requires
        0 < position,
        position + 1 < MAX_POSITION,
        *insn matches Insn::Jmp(if_one, if_zero) ==> if_one + BASE_OFFSET < MAX_POSITION && if_zero
            + BASE_OFFSET < MAX_POSITION,
    ensures
        final(set)@ == old(set)@ + family(*insn, position),
{
    let ghost before = set@;
    let n0 = pip_from_components(position, 0);
    let n1 = pip_from_components(position, 1);
    let s0 = pip_from_components(position + 1, 0);
    let s1 = pip_from_components(position + 1, 1);
    let bind: Pip = BIND_BASE + position;
    match insn {
        Insn::Write(WriteOp::Unset) => {
            set.push(pure_of(n0, EMPTY_PIP, s0, EMPTY_PIP));
            set.push(pure_of(n1, EMPTY_PIP, s0, EMPTY_PIP));
        },
        Insn::Write(WriteOp::SetBit) => {
            set.push(pure_of(n0, EMPTY_PIP, s1, EMPTY_PIP));
            set.push(pure_of(n1, EMPTY_PIP, s1, EMPTY_PIP));
        },
        Insn::Seek(SeekOp::Right) => {
            set.push(pure_of(n0, bind, ZERO_PIP, EMPTY_PIP));
            set.push(pure_of(n1, bind, ONE_PIP, EMPTY_PIP));
            set.push(pure_of(ZERO_PIP, EMPTY_PIP, s0, bind));
            set.push(pure_of(ONE_PIP, EMPTY_PIP, s1, bind));
            set.push(pure_of(UNALLOCATED_PIP, UNALLOCATED_PIP, s0, bind));
        },
        Insn::Seek(SeekOp::Left) => {
            set.push(pure_of(n0, EMPTY_PIP, ZERO_PIP, bind));
            set.push(pure_of(n1, EMPTY_PIP, ONE_PIP, bind));
            set.push(pure_of(ZERO_PIP, bind, s0, EMPTY_PIP));
            set.push(pure_of(ONE_PIP, bind, s1, EMPTY_PIP));
            set.push(pure_of(UNALLOCATED_PIP, bind, s0, UNALLOCATED_PIP));
        },
        Insn::Io(IoOp::Out) => {
            set.push(Domino::output(Tile::new(n0, EMPTY_PIP, s0, EMPTY_PIP), false));
            set.push(Domino::output(Tile::new(n1, EMPTY_PIP, s1, EMPTY_PIP), true));
        },
        Insn::Io(IoOp::In) => {
            set.push(
                Domino::input(
                    Tile::new(n0, EMPTY_PIP, SOUTH_U, EMPTY_PIP),
                    [
                        Tile::new(n0, EMPTY_PIP, s0, EMPTY_PIP),
                        Tile::new(n0, EMPTY_PIP, s1, EMPTY_PIP),
                    ],
                ),
            );
            set.push(
                Domino::input(
                    Tile::new(n1, EMPTY_PIP, SOUTH_U, EMPTY_PIP),
                    [
                        Tile::new(n1, EMPTY_PIP, s0, EMPTY_PIP),
                        Tile::new(n1, EMPTY_PIP, s1, EMPTY_PIP),
                    ],
                ),
            );
        },
        Insn::Jmp(if_one, if_zero) => {
            let zero = pip_from_components(*if_zero + BASE_OFFSET, 0);
            let one = pip_from_components(*if_one + BASE_OFFSET, 1);
            set.push(pure_of(n0, EMPTY_PIP, zero, EMPTY_PIP));
            set.push(pure_of(n1, EMPTY_PIP, one, EMPTY_PIP));
        },
        Insn::Debug => {},
    }
    assert(set@ =~= before + family(*insn, position));
}

/// The dominoes of the machine of a program.
///
/// Fails if the pips cannot hold the program.
pub fn tile_set(code: &Vec<Insn>) -> (res: Result<Vec<Domino>, CompileError>)
    ensures
        match res {
            Ok(set) => code_fits(code@) && set@ == compiled_set(code@),
            Err(_) => !code_fits(code@),
        },
{
    if !fits(code) {
        return Err(CompileError::PipSpaceExhausted);
    }
    let border = Tile::new(UNALLOCATED_PIP, UNALLOCATED_PIP, UNALLOCATED_PIP, UNALLOCATED_PIP);
    let head_south = pip_from_components(BASE_OFFSET, 0);
    let mut set: Vec<Domino> = Vec::new();
    set.push(Domino::pure(border));
    set.push(pure_of(UNALLOCATED_PIP, EMPTY_PIP, UNALLOCATED_PIP, UNALLOCATED_PIP));
    set.push(pure_of(UNALLOCATED_PIP, UNALLOCATED_PIP, UNALLOCATED_PIP, EMPTY_PIP));
    set.push(pure_of(ZERO_PIP, EMPTY_PIP, ZERO_PIP, EMPTY_PIP));
    set.push(pure_of(ONE_PIP, EMPTY_PIP, ONE_PIP, EMPTY_PIP));
    set.push(pure_of(UNALLOCATED_PIP, MAGIC_PIP, EMPTY_PIP, UNALLOCATED_PIP));
    set.push(pure_of(UNALLOCATED_PIP, MAGIC_PIP, head_south, MAGIC_PIP));
    set.push(pure_of(UNALLOCATED_PIP, UNALLOCATED_PIP, EMPTY_PIP, MAGIC_PIP));
    assert(set@ =~= boilerplate());
    let n = code.len();
    let mut i: usize = 0;
    while i < n
        invariant
            n == code@.len(),
            code_fits(code@),
            i <= n,
            set@ == boilerplate() + families(code@.take(i as int)),
        decreases n - i,
    {
        let ghost before = set@;
        proof {
            assert(code@.take(i + 1).drop_last() == code@.take(i as int));
            assert(code@.take(i + 1).last() == code@[i as int]);
        }
        emit(&mut set, &code[i], i + BASE_OFFSET);
        proof {
            assert(set@ =~= boilerplate() + families(code@.take(i + 1)));
        }
        i += 1;
    }
    proof {
        assert(code@.take(n as int) == code@);
    }
    Ok(set)
}

/// The alternates of every input domino of a family fit its tile, and a
/// family has five dominoes at most.
proof fn lemma_family(insn: Insn, position: usize)
    ensures
        family(insn, position).len() <= 5,
        forall|k: int| 0 <= k < family(insn, position).len() ==> (#[trigger] family(
            insn,
            position,
        )[k]).alts_fit(),
{
    let all = family(insn, position);
    assert forall|k: int| 0 <= k < all.len() implies (#[trigger] all[k]).alts_fit() by {
        if let Insn::Io(IoOp::In) = insn {
            let d = all[k];
            assert(d.side_effect is In);
            assert forall|j: int| 0 <= j < 2 implies {
                &&& (#[trigger] d.alts()[j]).north == d.tile.north
                &&& d.alts()[j].east == d.tile.east
                &&& d.alts()[j].west == d.tile.west
            } by {
                if k == 0 {
                    if j == 0 {
                    } else {
                    }
                } else {
                    if j == 0 {
                    } else {
                    }
                }
            }
        }
    }
}

/// The alternates of every input domino of a compiled machine fit its
/// tile, and the machine has five dominoes for each instruction at most.
proof fn lemma_families(code: Seq<Insn>)
    ensures
        families(code).len() <= 5 * code.len(),
        forall|k: int| 0 <= k < families(code).len() ==> (#[trigger] families(code)[k]).alts_fit(),
    decreases code.len(),
{
    if code.len() > 0 {
        lemma_families(code.drop_last());
        lemma_family(code.last(), code.len() as usize);
    }
}

/// If the alternates of every input domino of a set fit, none is reported.
proof fn lemma_all_fit(set: Seq<Domino>)
    requires
        forall|k: int| 0 <= k < set.len() ==> (#[trigger] set[k]).alts_fit(),
    ensures
        first_divergent(set) is None,
    decreases set.len(),
{
    if set.len() > 0 {
        let tail = set.drop_first();
        assert forall|k: int| 0 <= k < tail.len() implies (#[trigger] tail[k]).alts_fit() by {
            assert(tail[k] == set[k + 1]);
        }
        lemma_all_fit(tail);
    }
}

/// The parts of a compiled machine make a machine: the set holds the
/// border and the tiles of the first row, the alternates of its input
/// dominoes fit, the first row is self-consistent, and the pile holds
/// fewer than `UNALLOCATED_PIP` tiles.
pub proof fn lemma_compiled_model(code: Seq<Insn>)
    requires
        code.len() < MAX_POSITION,
    ensures
        model_fault(compiled_set(code), border_tile(), initial_row()) is None,
        tile_count(compiled_set(code)) < UNALLOCATED_PIP,
{
    broadcast use vstd::seq_lib::group_filter_ensures;

    let set = compiled_set(code);
    let row = initial_row();
    lemma_families(code);
    assert(set[0].tile == border_tile());
    assert(set[5].tile == initial_west());
    assert(set[6].tile == initial_head());
    assert(set[7].tile == initial_east());
    assert(has_tile(set, row[0]));
    assert(has_tile(set, row[1]));
    assert(has_tile(set, row[2]));
    let one = row.drop_first();
    let two = one.drop_first();
    let three = two.drop_first();
    assert(one[0] == row[1]);
    assert(two[0] == row[2]);
    assert(three.len() == 0);
    assert(first_missing(set, three) is None);
    assert(first_missing(set, two) is None);
    assert(first_missing(set, one) is None);
    assert(first_missing(set, row) is None);
    assert forall|k: int| 0 <= k < set.len() implies (#[trigger] set[k]).alts_fit() by {
        if k >= 8 {
            assert(set[k] == families(code)[k - 8]);
        }
    }
    lemma_all_fit(set);
    assert(self_consistent(row, border_tile()));
    assert(inputs(set).len() <= set.len());
}

/// The machine of a program: its dominoes are those of `compiled_set`, its
/// border is the void, and its first row holds the head between the two
/// tiles that end the row, over a cell that holds zero and with the first
/// instruction about to run.
///
/// Fails if the pips cannot hold the program.
pub fn compile_code(code: &Vec<Insn>) -> (res: Result<Program, CompileError>)
    ensures
        res is Ok <==> code_fits(code@),
        res matches Ok(program) ==> {
            &&& program.wf()
            &&& built(compiled_set(code@), border_tile(), initial_row(), program@)
            &&& program@.pile@[program@.border as int] == border_tile()
            &&& program@.tiles() == initial_row()
            &&& program@.tiles()[1].south == pip_of(BASE_OFFSET, 0)
            &&& self_consistent(program@.tiles(), border_tile())
        },
{
    let set = match tile_set(code) {
        Ok(set) => set,
        Err(error) => {
            return Err(error);
        },
    };
    let border = Tile::new(UNALLOCATED_PIP, UNALLOCATED_PIP, UNALLOCATED_PIP, UNALLOCATED_PIP);
    let head_south = pip_from_components(BASE_OFFSET, 0);
    let mut initial: Vec<Tile> = Vec::new();
    initial.push(Tile::new(UNALLOCATED_PIP, MAGIC_PIP, EMPTY_PIP, UNALLOCATED_PIP));
    initial.push(Tile::new(UNALLOCATED_PIP, MAGIC_PIP, head_south, MAGIC_PIP));
    initial.push(Tile::new(UNALLOCATED_PIP, UNALLOCATED_PIP, EMPTY_PIP, MAGIC_PIP));
    proof {
        assert(initial@ =~= initial_row());
        lemma_compiled_model(code@);
    }
    match Program::new(set, border, initial) {
        Ok(program) => Ok(program),
        Err(_) => {
            proof {
                assert(false);
            }
            Err(CompileError::PipSpaceExhausted)
        },
    }
}

impl Backend for crate::wmach::Program {
    type Target = Program;

    fn compile(&self) -> (res: Result<Program, CompileError>)
        ensures
            res is Ok <==> code_fits(self.code()),
            res matches Ok(program) ==> {
                &&& program.wf()
                &&& built(compiled_set(self.code()), border_tile(), initial_row(), program@)
                &&& program@.tiles() == initial_row()
            },
    {
        compile_code(self.instructions())
    }
}

} // verus!
