use vstd::prelude::*;
use vstd::string::StringExecFns;
use std::cmp::Ordering;
use std::ops::Index;
use std::ops::Neg;
use crate::text::hex_digits;
use crate::text::push_hexadecimal;

verus! {

/// An edge colour. Two tiles may share an edge iff their facing pips are equal.
pub type Pip = usize;

/// The neutral east/west pip carried by most tiles.
pub const EMPTY_PIP: Pip = 0;

/// The north/south pip of a tape cell that holds a zero bit.
pub const ZERO_PIP: Pip = 0;

/// The north/south pip of a tape cell that holds a one bit.
pub const ONE_PIP: Pip = 1;

/// The pip of the void that surrounds the tape.
pub const UNALLOCATED_PIP: Pip = 0x7fff_ffff;

/// The pip that marks a tape cell under the head: the upper bits hold the
/// position of the instruction about to run, the lowest bit the cell's value.
pub open spec fn pip_of(position: usize, value: usize) -> Pip {
    (position << 1usize) | (value & 1usize)
}

/// Builds the pip of a head cell from an instruction position and a bit.
pub fn pip_from_components(position: usize, value: usize) -> (pip: Pip)
    requires
        position < usize::MAX - 1,
    ensures
        pip == pip_of(position, value),
        position <= 0x7fff_ffff ==> pip == 2 * position + value % 2,
{
    proof {
        lemma_pip_of_arith(position, value);
    }
    (position << 1) | (value & 1)
}

/// While the position fits in 31 bits, the pip is twice the position plus the
/// bit, so distinct (position, bit) pairs give distinct pips.
pub proof fn lemma_pip_of_arith(position: usize, value: usize)
    ensures
        position <= 0x7fff_ffff ==> pip_of(position, value) == 2 * position + value % 2,
{
    assert(position <= 0x7fff_ffffusize ==> ((position << 1usize) | (value & 1usize)) == 2
        * position + value % 2) by (bit_vector);
}

/// One of the four edges of a tile, or the side on which a neighbour lies.
#[derive(Copy, Clone, Debug, PartialEq, Eq, Hash, Structural)]
pub enum Direction {
    North,
    East,
    South,
    West,
}

pub type Orientation = Direction;

impl Direction {
    /// The edge that faces this one: north and south swap, east and west swap.
    pub open spec fn opposite(self) -> Direction {
        match self {
            Direction::North => Direction::South,
            Direction::South => Direction::North,
            Direction::East => Direction::West,
            Direction::West => Direction::East,
        }
    }
}

impl Direction {
    /// The name of the direction.
    pub open spec fn name(self) -> Seq<char> {
        match self {
            Direction::North => "North"@,
            Direction::East => "East"@,
            Direction::South => "South"@,
            Direction::West => "West"@,
        }
    }

    /// The name of the direction.
    pub fn to_string(&self) -> (text: String)
        ensures
            text@ == self.name(),
    {
        String::from_str(
            match self {
                Direction::North => "North",
                Direction::East => "East",
                Direction::South => "South",
                Direction::West => "West",
            },
        )
    }
}

impl vstd::std_specs::ops::NegSpecImpl for Direction {
    open spec fn obeys_neg_spec() -> bool {
        true
    }

    open spec fn neg_req(self) -> bool {
        true
    }

    open spec fn neg_spec(self) -> Direction {
        self.opposite()
    }
}

impl std::ops::Neg for Direction {
    type Output = Direction;

    fn neg(self) -> (res: Direction) {
        match self {
            Direction::North => Direction::South,
            Direction::South => Direction::North,
            Direction::East => Direction::West,
            Direction::West => Direction::East,
        }
    }
}

/// A square with a pip on each of its four edges.
#[derive(Copy, Clone, Debug, PartialEq, Eq, Hash, Structural)]
pub struct Tile {
    pub north: Pip,
    pub east: Pip,
    pub south: Pip,
    pub west: Pip,
}

impl Tile {
    pub fn new(north: Pip, east: Pip, south: Pip, west: Pip) -> (tile: Self)
        ensures
            tile == (Tile { north, east, south, west }),
    {
        Self { north, east, south, west }
    }

    /// The pip on the given edge.
    pub open spec fn pip(self, direction: Direction) -> Pip {
        match direction {
            Direction::North => self.north,
            Direction::East => self.east,
            Direction::South => self.south,
            Direction::West => self.west,
        }
    }

    pub fn cardinal(&self, direction: &Direction) -> (pip: Pip)
        ensures
            pip == self.pip(*direction),
    {
        match direction {
            Direction::North => self.north,
            Direction::East => self.east,
            Direction::South => self.south,
            Direction::West => self.west,
        }
    }
}

/// A pip in writing: `U` for the pip of the void, else its digits in base
/// sixteen.
pub open spec fn pip_text(pip: Pip) -> Seq<char> {
    if pip == UNALLOCATED_PIP {
        "U"@
    } else {
        hex_digits(pip as nat)
    }
}

/// Appends a pip in writing.
fn push_pip(text: &mut String, pip: Pip)
    ensures
        final(text)@ == old(text)@ + pip_text(pip),
{
    if pip == UNALLOCATED_PIP {
        text.append("U");
    } else {
        push_hexadecimal(text, pip);
    }
}

impl Tile {
    /// The tile in writing: its pips from north by east to west.
    pub open spec fn text(self) -> Seq<char> {
        "Tile("@ + pip_text(self.north) + ", "@ + pip_text(self.east) + ", "@ + pip_text(
            self.south,
        ) + ", "@ + pip_text(self.west) + ")"@
    }

    /// Appends the tile in writing.
    pub fn push_to(&self, text: &mut String)
        ensures
            final(text)@ == old(text)@ + self.text(),
    {
        let ghost before = text@;
        text.append("Tile(");
        push_pip(text, self.north);
        text.append(", ");
        push_pip(text, self.east);
        text.append(", ");
        push_pip(text, self.south);
        text.append(", ");
        push_pip(text, self.west);
        text.append(")");
        assert(text@ =~= before + self.text());
    }

    /// The tile in writing.
    pub fn to_string(&self) -> (text: String)
        ensures
            text@ == self.text(),
    {
        let mut text = String::new();
        self.push_to(&mut text);
        assert(text@ =~= self.text());
        text
    }
}

/// Some tiles in writing, a comma and a blank between one and the next.
pub open spec fn tiles_text(tiles: Seq<Tile>) -> Seq<char>
    decreases tiles.len(),
{
    if tiles.len() == 0 {
        Seq::empty()
    } else if tiles.len() == 1 {
        tiles[0].text()
    } else {
        tiles_text(tiles.drop_last()) + ", "@ + tiles.last().text()
    }
}

/// Whether a pure tile may be chosen for a cell, or only placed.
#[derive(Copy, Clone, Debug, PartialEq, Eq, Hash)]
pub enum PurityBias {
    Nothing,
    Hidden,
}

/// What placing a tile does besides filling its cell.
///
/// `T` is how the two alternates of an input tile are named: by the tiles
/// themselves in a domino, by references into the pile at run time.
#[derive(Copy, Clone, Debug, PartialEq, Eq, Hash)]
pub enum SideEffects<T> {
    Pure(PurityBias),
    In([T; 2]),
    Out(bool),
}

impl<T> SideEffects<T> {
    /// The place of the tag in the order `Out < In < Pure`.
    pub open spec fn rank(self) -> int {
        match self {
            SideEffects::Out(_) => 0,
            SideEffects::In(_) => 1,
            SideEffects::Pure(_) => 2,
        }
    }

    pub fn is_input(&self) -> (yes: bool)
        ensures
            yes == (*self is In),
    {
        match self {
            SideEffects::In(_) => true,
            _ => false,
        }
    }

    pub fn is_output(&self) -> (yes: bool)
        ensures
            yes == (*self is Out),
    {
        match self {
            SideEffects::Out(_) => true,
            _ => false,
        }
    }

    /// The name of the tag.
    pub open spec fn name(self) -> Seq<char> {
        match self {
            SideEffects::Pure(PurityBias::Hidden) => "Pure(hidden)"@,
            SideEffects::Pure(_) => "Pure"@,
            SideEffects::In(_) => "In"@,
            SideEffects::Out(_) => "Out"@,
        }
    }

    /// The name of the tag.
    pub fn to_string(&self) -> (text: String)
        ensures
            text@ == self.name(),
    {
        String::from_str(
            match self {
                SideEffects::Pure(PurityBias::Hidden) => "Pure(hidden)",
                SideEffects::Pure(_) => "Pure",
                SideEffects::In(_) => "In",
                SideEffects::Out(_) => "Out",
            },
        )
    }

    /// Compares two tags by rank alone; what a tag carries plays no part.
    pub fn cmp(&self, other: &Self) -> (order: Ordering)
        ensures
            order == Ordering::Less <==> self.rank() < other.rank(),
            order == Ordering::Equal <==> self.rank() == other.rank(),
            order == Ordering::Greater <==> self.rank() > other.rank(),
    {
        match self {
            SideEffects::Out(_) => match other {
                SideEffects::Out(_) => Ordering::Equal,
                SideEffects::In(_) => Ordering::Less,
                SideEffects::Pure(_) => Ordering::Less,
            },
            SideEffects::In(_) => match other {
                SideEffects::Out(_) => Ordering::Greater,
                SideEffects::In(_) => Ordering::Equal,
                SideEffects::Pure(_) => Ordering::Less,
            },
            SideEffects::Pure(_) => match other {
                SideEffects::Out(_) => Ordering::Greater,
                SideEffects::In(_) => Ordering::Greater,
                SideEffects::Pure(_) => Ordering::Equal,
            },
        }
    }
}

impl<T: PartialEq> vstd::std_specs::cmp::PartialOrdSpecImpl for SideEffects<T> {
    open spec fn obeys_partial_cmp_spec() -> bool {
        true
    }

    open spec fn partial_cmp_spec(&self, other: &SideEffects<T>) -> Option<Ordering> {
        if self.rank() < other.rank() {
            Some(Ordering::Less)
        } else if self.rank() == other.rank() {
            Some(Ordering::Equal)
        } else {
            Some(Ordering::Greater)
        }
    }
}

impl<T: PartialEq> PartialOrd for SideEffects<T> {
    /// Orders two tags by rank alone, as `cmp` does.
    fn partial_cmp(&self, other: &SideEffects<T>) -> (order: Option<Ordering>) {
        Some(self.cmp(other))
    }
}

/// A tile together with what placing it does.
#[derive(Copy, Clone, Debug, PartialEq, Eq, Hash)]
pub struct Domino {
    pub side_effect: SideEffects<Tile>,
    pub tile: Tile,
}

impl Domino {
    pub fn pure(tile: Tile) -> (domino: Domino)
        ensures
            domino.tile == tile,
            domino.side_effect == SideEffects::<Tile>::Pure(PurityBias::Nothing),
    {
        Domino { side_effect: SideEffects::Pure(PurityBias::Nothing), tile: tile }
    }

    pub fn input(tile: Tile, alts: [Tile; 2]) -> (domino: Domino)
        ensures
            domino.tile == tile,
            domino.side_effect == SideEffects::In(alts),
    {
        Domino { side_effect: SideEffects::In(alts), tile: tile }
    }

    pub fn output(tile: Tile, bit: bool) -> (domino: Domino)
        ensures
            domino.tile == tile,
            domino.side_effect == SideEffects::<Tile>::Out(bit),
    {
        Domino { side_effect: SideEffects::Out(bit), tile: tile }
    }

    /// The domino in writing: its side effect, then its tile.
    pub open spec fn text(self) -> Seq<char> {
        "Domino("@ + self.side_effect.name() + ", "@ + self.tile.text() + ")"@
    }

    /// The domino in writing.
    pub fn to_string(&self) -> (text: String)
        ensures
            text@ == self.text(),
    {
        let mut text = String::from_str("Domino(");
        let effect = self.side_effect.to_string();
        text.append(effect.as_str());
        text.append(", ");
        self.tile.push_to(&mut text);
        text.append(")");
        assert(text@ =~= self.text());
        text
    }

    /// The two tiles that may replace the tile of an input domino.
    pub open spec fn alts(self) -> Seq<Tile> {
        self.side_effect->In_0@
    }

    /// Each alternate of an input domino differs from its tile in the south
    /// pip at most, so it fits wherever the tile fits.
    pub open spec fn alts_fit(self) -> bool {
        self.side_effect is In ==> forall|k: int|
            0 <= k < 2 ==> {
                &&& (#[trigger] self.alts()[k]).north == self.tile.north
                &&& self.alts()[k].east == self.tile.east
                &&& self.alts()[k].west == self.tile.west
            }
    }
}

/// A handle on a tile of a pile: its index in the pile's buffer.
pub type TileRef = u32;

/// The output dominoes of a set, in the order in which the set holds them.
pub open spec fn outputs(dominoes: Seq<Domino>) -> Seq<Domino> {
    dominoes.filter(|d: Domino| d.side_effect is Out)
}

/// The input dominoes of a set, in the order in which the set holds them.
pub open spec fn inputs(dominoes: Seq<Domino>) -> Seq<Domino> {
    dominoes.filter(|d: Domino| d.side_effect is In)
}

/// The pure dominoes of a set, in the order in which the set holds them.
pub open spec fn pures(dominoes: Seq<Domino>) -> Seq<Domino> {
    dominoes.filter(|d: Domino| d.side_effect is Pure)
}

/// The set sorted stably by side effect, in the order `Out < In < Pure`.
pub open spec fn by_effect(dominoes: Seq<Domino>) -> Seq<Domino> {
    outputs(dominoes) + inputs(dominoes) + pures(dominoes)
}

/// The tiles of a sequence of dominoes.
pub open spec fn tiles_of(dominoes: Seq<Domino>) -> Seq<Tile> {
    dominoes.map_values(|d: Domino| d.tile)
}

/// The bits of a sequence of output dominoes.
pub open spec fn bits_of(outs: Seq<Domino>) -> Seq<bool> {
    outs.map_values(|d: Domino| d.side_effect->Out_0)
}

/// The alternates of a sequence of input dominoes, two for each domino.
pub open spec fn alternates(ins: Seq<Domino>) -> Seq<Tile> {
    Seq::new(2 * ins.len(), |j: int| ins[j / 2].alts()[j % 2])
}

/// How many tiles a pile built from the set holds.
pub open spec fn tile_count(dominoes: Seq<Domino>) -> nat {
    dominoes.len() + 2 * inputs(dominoes).len()
}

/// The buffer of a pile built from the set: the tiles of the dominoes sorted
/// by side effect, then the alternates of the input dominoes.
pub open spec fn laid_out(dominoes: Seq<Domino>) -> Seq<Tile> {
    tiles_of(by_effect(dominoes)) + alternates(inputs(dominoes))
}

/// `at` is the last place where `tiles` holds `tile`.
pub open spec fn is_last_index(tiles: Seq<Tile>, tile: Tile, at: int) -> bool {
    &&& 0 <= at < tiles.len()
    &&& tiles[at] == tile
    &&& forall|j: int| at < j < tiles.len() ==> tiles[j] != tile
}

/// The references below `n` that `keep` accepts, in ascending order.
pub open spec fn refs_where(n: nat, keep: spec_fn(TileRef) -> bool) -> Seq<TileRef>
    decreases n,
{
    if n == 0 {
        Seq::empty()
    } else {
        let rest = refs_where((n - 1) as nat, keep);
        if keep((n - 1) as TileRef) {
            rest.push((n - 1) as TileRef)
        } else {
            rest
        }
    }
}

/// The references of the tiles whose pip on `edge` is `pip`, in ascending order.
pub open spec fn refs_with_pip(tiles: Seq<Tile>, pip: Pip, edge: Direction) -> Seq<TileRef> {
    refs_where(tiles.len(), |r: TileRef| tiles[r as int].pip(edge) == pip)
}

/// `refs_where` holds exactly the accepted references below `n`, each once
/// and in ascending order.
pub proof fn lemma_refs_where(n: nat, keep: spec_fn(TileRef) -> bool)
    requires
        n <= u32::MAX,
    ensures
        forall|r: TileRef| #[trigger]
            refs_where(n, keep).contains(r) <==> r < n && keep(r),
        forall|i: int, j: int|
            0 <= i < j < refs_where(n, keep).len() ==> refs_where(n, keep)[i] < refs_where(
                n,
                keep,
            )[j],
        forall|i: int| 0 <= i < refs_where(n, keep).len() ==> #[trigger] refs_where(n, keep)[i] < n,
        refs_where(n, keep).len() <= n,
    decreases n,
{
    if n > 0 {
        let m = (n - 1) as nat;
        lemma_refs_where(m, keep);
        let rest = refs_where(m, keep);
        let all = refs_where(n, keep);
        let last = m as TileRef;
        assert forall|r: TileRef| #[trigger] all.contains(r) <==> r < n && keep(r) by {
            if keep(last) {
                assert(all == rest.push(last));
                if all.contains(r) {
                    let i = choose|i: int| 0 <= i < all.len() && all[i] == r;
                    if i < rest.len() {
                        assert(rest[i] == r);
                        assert(rest.contains(r));
                    }
                }
                if r < n && keep(r) {
                    if r == last {
                        assert(all[rest.len() as int] == r);
                    } else {
                        assert(rest.contains(r));
                        let i = choose|i: int| 0 <= i < rest.len() && rest[i] == r;
                        assert(all[i] == r);
                    }
                }
            } else {
                assert(all == rest);
                assert(rest.contains(r) <==> r < m && keep(r));
            }
        }
    }
}

/// Why a pile could not be built.
#[derive(Copy, Clone, Debug, PartialEq, Eq)]
pub enum PileError {
    /// The pile would hold as many tiles as `UNALLOCATED_PIP`, or more.
    TooManyTiles,
}

/// What a pile holds, as plain values: its tiles, the bit of each output
/// tile, the two alternates of each input tile, and the two marks between
/// its regions.
pub struct PileModel {
    pub tiles: Seq<Tile>,
    pub out_bits: Seq<bool>,
    pub alt_table: Seq<[TileRef; 2]>,
    pub impure_mark: TileRef,
    pub hidden_mark: TileRef,
}

impl PileModel {
    /// What placing the tile at `tile_ref` does, as the region of the
    /// reference tells it.
    pub open spec fn effects_at(self, tile_ref: TileRef) -> SideEffects<TileRef> {
        if tile_ref >= self.hidden_mark {
            SideEffects::Pure(PurityBias::Hidden)
        } else if tile_ref >= self.impure_mark {
            SideEffects::Pure(PurityBias::Nothing)
        } else if tile_ref >= self.out_bits.len() {
            SideEffects::In(self.alt_table[tile_ref - self.out_bits.len()])
        } else {
            SideEffects::Out(self.out_bits[tile_ref as int])
        }
    }
}

/// The tiles available to a machine, each with a stable reference.
///
/// The buffer is laid out in four regions: output tiles, input tiles, pure
/// tiles that may be chosen for a cell, and hidden tiles, which are the
/// alternates of the input tiles and may only be placed in their stead.
#[derive(Debug)]
pub struct DominoPile {
    buffer: Vec<Tile>,
    input: Vec<[TileRef; 2]>,
    output: Vec<bool>,
    impure_watermark: TileRef,
    hidden_watermark: TileRef,
}

impl View for DominoPile {
    type V = Seq<Tile>;

    closed spec fn view(&self) -> Seq<Tile> {
        self.buffer@
    }
}

impl DominoPile {
    /// The bit of each output tile; the output tiles are the first in the pile.
    pub closed spec fn out_bits(&self) -> Seq<bool> {
        self.output@
    }

    /// The two alternates of each input tile, by reference; the input tiles
    /// follow the output tiles.
    pub closed spec fn alt_table(&self) -> Seq<[TileRef; 2]> {
        self.input@
    }

    /// The first reference that is not an output or input tile.
    pub closed spec fn impure_mark(&self) -> TileRef {
        self.impure_watermark
    }

    /// The first reference of a hidden tile.
    pub closed spec fn hidden_mark(&self) -> TileRef {
        self.hidden_watermark
    }

    /// The regions are in order and fill the buffer, every reference fits
    /// below `UNALLOCATED_PIP`, and the alternates of the input tiles are the
    /// hidden tiles, two by two and in order.
    pub open spec fn wf(&self) -> bool {
        &&& self@.len() < UNALLOCATED_PIP
        &&& self.out_bits().len() + self.alt_table().len() == self.impure_mark()
        &&& self.impure_mark() <= self.hidden_mark()
        &&& self.hidden_mark() + 2 * self.alt_table().len() == self@.len()
        &&& forall|j: int|
            0 <= j < self.alt_table().len() ==> {
                &&& (#[trigger] self.alt_table()[j])@[0] == self.hidden_mark() + 2 * j
                &&& self.alt_table()[j]@[1] == self.hidden_mark() + 2 * j + 1
            }
    }

    /// The pile is the one that `new` builds from `dominoes`.
    pub open spec fn built_from(&self, dominoes: Seq<Domino>) -> bool {
        &&& self@ == laid_out(dominoes)
        &&& self.out_bits() == bits_of(outputs(dominoes))
        &&& self.alt_table().len() == inputs(dominoes).len()
        &&& self.hidden_mark() == dominoes.len()
    }

    /// What the pile holds, as plain values.
    pub open spec fn model(&self) -> PileModel {
        PileModel {
            tiles: self@,
            out_bits: self.out_bits(),
            alt_table: self.alt_table(),
            impure_mark: self.impure_mark(),
            hidden_mark: self.hidden_mark(),
        }
    }

    /// What placing the tile at `tile_ref` does, as the region of the
    /// reference tells it.
    pub open spec fn effects_at(&self, tile_ref: TileRef) -> SideEffects<TileRef> {
        self.model().effects_at(tile_ref)
    }

    /// The reference of a tile that may be chosen for a cell.
    pub open spec fn visible(&self, tile_ref: TileRef) -> bool {
        tile_ref < self.hidden_mark()
    }

    /// If the tile at `tile_ref` is an input tile, each of its alternates
    /// differs from it in the south pip at most.
    pub open spec fn alts_fit_at(&self, tile_ref: TileRef) -> bool {
        self.effects_at(tile_ref) matches SideEffects::In(alts) ==> forall|k: int|
            0 <= k < 2 ==> {
                &&& self@[(#[trigger] alts@[k]) as int].north == self@[tile_ref as int].north
                &&& self@[alts@[k] as int].east == self@[tile_ref as int].east
                &&& self@[alts@[k] as int].west == self@[tile_ref as int].west
            }
    }

    /// Builds the pile of a set of dominoes.
    ///
    /// The dominoes are sorted stably by side effect, in the order
    /// `Out < In < Pure`; the alternates of the input dominoes follow as
    /// hidden tiles. Fails if the pile would hold `UNALLOCATED_PIP` tiles or
    /// more.
    pub fn new(dominoes: Vec<Domino>) -> (res: Result<DominoPile, PileError>)
        ensures
            res is Ok <==> tile_count(dominoes@) < UNALLOCATED_PIP,
            res matches Ok(pile) ==> pile.wf() && pile.built_from(dominoes@),
    {
        let n = dominoes.len();
        let ghost ds = dominoes@;
        if n >= UNALLOCATED_PIP {
            return Err(PileError::TooManyTiles);
        }
        let mut buffer: Vec<Tile> = Vec::new();
        let mut output: Vec<bool> = Vec::new();
        let mut i: usize = 0;
        while i < n
            invariant
                n == ds.len(),
                ds == dominoes@,
                i <= n,
                buffer@ == tiles_of(outputs(ds.take(i as int))),
                output@ == bits_of(outputs(ds.take(i as int))),
            decreases n - i,
        {
            proof {
                lemma_partition_step(ds, i as int);
            }
            if let SideEffects::Out(bit) = dominoes[i].side_effect {
                buffer.push(dominoes[i].tile);
                output.push(bit);
            }
            i += 1;
        }
        assert(ds.take(n as int) == ds);
        let mut alts: Vec<Tile> = Vec::new();
        i = 0;
        while i < n
            invariant
                n == ds.len(),
                ds == dominoes@,
                i <= n,
                n < UNALLOCATED_PIP,
                buffer@ == tiles_of(outputs(ds)) + tiles_of(inputs(ds.take(i as int))),
                alts@ == alternates(inputs(ds.take(i as int))),
                inputs(ds.take(i as int)).len() <= i,
            decreases n - i,
        {
            proof {
                lemma_partition_step(ds, i as int);
                lemma_alternates_push(inputs(ds.take(i as int)), ds[i as int]);
            }
            if let SideEffects::In(pair) = dominoes[i].side_effect {
                buffer.push(dominoes[i].tile);
                alts.push(pair[0]);
                alts.push(pair[1]);
            }
            i += 1;
        }
        let hidden = alts.len();
        if hidden >= UNALLOCATED_PIP - n {
            return Err(PileError::TooManyTiles);
        }
        let impure = buffer.len();
        i = 0;
        while i < n
            invariant
                n == ds.len(),
                ds == dominoes@,
                i <= n,
                buffer@ == tiles_of(outputs(ds)) + tiles_of(inputs(ds)) + tiles_of(
                    pures(ds.take(i as int)),
                ),
            decreases n - i,
        {
            proof {
                lemma_partition_step(ds, i as int);
            }
            if let SideEffects::Pure(_) = dominoes[i].side_effect {
                buffer.push(dominoes[i].tile);
            }
            i += 1;
        }
        proof {
            lemma_partition_len(ds);
            assert(buffer@ =~= tiles_of(by_effect(ds)));
        }
        let mut input: Vec<[TileRef; 2]> = Vec::new();
        let mut j: usize = 0;
        while j < hidden
            invariant
                j <= hidden,
                j % 2 == 0,
                hidden == alts.len(),
                hidden % 2 == 0,
                n + hidden < UNALLOCATED_PIP,
                buffer@ == tiles_of(by_effect(ds)) + alts@.take(j as int),
                tiles_of(by_effect(ds)).len() == n,
                input.len() == j / 2,
                forall|k: int|
                    0 <= k < input.len() ==> {
                        &&& (#[trigger] input[k])@[0] == n + 2 * k
                        &&& input[k]@[1] == n + 2 * k + 1
                    },
            decreases hidden - j,
        {
            buffer.push(alts[j]);
            buffer.push(alts[j + 1]);
            let zero: TileRef = (n + j) as TileRef;
            let one: TileRef = (n + j + 1) as TileRef;
            input.push([zero, one]);
            assert(alts@.take(j + 2) =~= alts@.take(j as int).push(alts@[j as int]).push(
                alts@[j + 1],
            ));
            j += 2;
        }
        assert(alts@.take(hidden as int) == alts@);
        let pile = DominoPile {
            buffer,
            input,
            output,
            impure_watermark: impure as TileRef,
            hidden_watermark: n as TileRef,
        };
        Ok(pile)
    }
}

impl DominoPile {
    /// How many tiles the pile holds, hidden ones included.
    pub fn len(&self) -> (n: usize)
        ensures
            n == self@.len(),
    {
        self.buffer.len()
    }

    /// How many output tiles the pile holds; they are the first tiles.
    pub fn output_len(&self) -> (n: usize)
        ensures
            n == self.out_bits().len(),
    {
        self.output.len()
    }

    /// The first reference that is not an output or input tile.
    pub fn impure_watermark(&self) -> (mark: TileRef)
        ensures
            mark == self.impure_mark(),
    {
        self.impure_watermark
    }

    /// The first reference of a hidden tile.
    pub fn hidden_watermark(&self) -> (mark: TileRef)
        ensures
            mark == self.hidden_mark(),
    {
        self.hidden_watermark
    }

    /// The pile in writing: its tiles in the order of their references.
    pub open spec fn text(&self) -> Seq<char> {
        "DominoPile("@ + tiles_text(self@) + ")"@
    }

    /// The pile in writing.
    pub fn to_string(&self) -> (text: String)
        ensures
            text@ == self.text(),
    {
        let mut text = String::from_str("DominoPile(");
        let n = self.buffer.len();
        let mut i: usize = 0;
        while i < n
            invariant
                n == self@.len(),
                i <= n,
                text@ == "DominoPile("@ + tiles_text(self@.take(i as int)),
            decreases n - i,
        {
            let ghost before = text@;
            if i > 0 {
                text.append(", ");
            }
            self.buffer[i].push_to(&mut text);
            proof {
                let upto = self@.take(i + 1);
                assert(upto.drop_last() == self@.take(i as int));
                assert(upto.last() == self@[i as int]);
                if i == 0 {
                    assert(upto[0] == self@[0]);
                    assert(tiles_text(self@.take(0)) =~= Seq::<char>::empty());
                    assert(text@ =~= "DominoPile("@ + tiles_text(upto));
                } else {
                    assert(text@ =~= "DominoPile("@ + tiles_text(upto));
                }
            }
            i += 1;
        }
        proof {
            assert(self@.take(n as int) == self@);
            assert(tiles_text(self@.take(0)) =~= Seq::<char>::empty());
        }
        text.append(")");
        text
    }

    /// The reference of a tile: the last place where the pile holds it.
    pub fn get(&self, tile: &Tile) -> (found: Option<TileRef>)
        requires
            self.wf(),
        ensures
            match found {
                Some(tile_ref) => is_last_index(self@, *tile, tile_ref as int),
                None => !self@.contains(*tile),
            },
    {
        let mut i: usize = self.buffer.len();
        while i > 0
            invariant
                self.wf(),
                i <= self@.len(),
                forall|j: int| i <= j < self@.len() ==> self@[j] != *tile,
            decreases i,
        {
            i -= 1;
            if self.buffer[i] == *tile {
                return Some(i as TileRef);
            }
        }
        None
    }

    /// What placing the tile at `tile_ref` does.
    pub fn get_side_effects(&self, tile_ref: &TileRef) -> (effects: SideEffects<TileRef>)
        requires
            self.wf(),
        ensures
            effects == self.effects_at(*tile_ref),
    {
        if *tile_ref >= self.hidden_watermark {
            return SideEffects::Pure(PurityBias::Hidden);
        } else if *tile_ref >= self.impure_watermark {
            return SideEffects::Pure(PurityBias::Nothing);
        }
        let at: usize = *tile_ref as usize;
        if at >= self.output.len() {
            SideEffects::In(self.input[at - self.output.len()])
        } else {
            SideEffects::Out(self.output[at])
        }
    }

    /// What placing `tile` does, by the last reference that holds it.
    pub fn get_tile_side_effects(&self, tile: &Tile) -> (effects: SideEffects<TileRef>)
        requires
            self.wf(),
            self@.contains(*tile),
        ensures
            exists|tile_ref: TileRef|
                is_last_index(self@, *tile, tile_ref as int) && effects == self.effects_at(
                    tile_ref,
                ),
    {
        match self.get(tile) {
            Some(tile_ref) => self.get_side_effects(&tile_ref),
            None => {
                proof {
                    assert(false);
                }
                SideEffects::Pure(PurityBias::Hidden)
            },
        }
    }

    /// The tiles that can lie next to an edge that carries `pip`.
    ///
    /// `direction` is the edge of the tile that carries `pip`; the result
    /// holds, in ascending order, the reference of every tile whose pip on
    /// the facing edge is `pip`.
    pub fn matches_pip(&self, pip: &Pip, direction: Orientation) -> (found: Vec<TileRef>)
        requires
            self.wf(),
        ensures
            found@ == refs_with_pip(self@, *pip, direction.opposite()),
    {
        let next = direction.neg();
        let ghost keep = |r: TileRef| self@[r as int].pip(next) == *pip;
        let mut found: Vec<TileRef> = Vec::new();
        let n = self.buffer.len();
        let mut i: usize = 0;
        while i < n
            invariant
                self.wf(),
                n == self@.len(),
                i <= n,
                next == direction.opposite(),
                keep == (|r: TileRef| self@[r as int].pip(next) == *pip),
                found@ == refs_where(i as nat, keep),
            decreases n - i,
        {
            if self.buffer[i].cardinal(&next) == *pip {
                found.push(i as TileRef);
            }
            i += 1;
        }
        found
    }

    /// The tiles that can lie next to `tile` on its `direction` side.
    pub fn matches_tile(&self, tile: &Tile, direction: Orientation) -> (found: Vec<TileRef>)
        requires
            self.wf(),
        ensures
            found@ == refs_with_pip(self@, tile.pip(direction), direction.opposite()),
    {
        let pip = tile.cardinal(&direction);
        self.matches_pip(&pip, direction)
    }

    /// The tiles that can lie next to the tile at `tile_ref` on its
    /// `direction` side.
    pub fn matches(&self, tile_ref: &TileRef, direction: Orientation) -> (found: Vec<TileRef>)
        requires
            self.wf(),
            *tile_ref < self@.len(),
        ensures
            found@ == refs_with_pip(
                self@,
                self@[*tile_ref as int].pip(direction),
                direction.opposite(),
            ),
    {
        let tile = self.buffer[*tile_ref as usize];
        self.matches_tile(&tile, direction)
    }
}

impl vstd::std_specs::core::IndexSpecImpl<TileRef> for DominoPile {
    open spec fn index_req(&self, index: &TileRef) -> bool {
        *index < self@.len()
    }
}

impl Index<TileRef> for DominoPile {
    type Output = Tile;

    fn index(&self, index: TileRef) -> (tile: &Tile)
        ensures
            *tile == self@[index as int],
    {
        &self.buffer[index as usize]
    }
}

/// Every match of a pip carries it on the facing edge, and every tile that
/// carries it there is a match.
pub proof fn lemma_matches_exact(pile: DominoPile, tile_ref: TileRef, direction: Direction, r: TileRef)
    requires
        pile.wf(),
        tile_ref < pile@.len(),
    ensures
        refs_with_pip(
            pile@,
            pile@[tile_ref as int].pip(direction),
            direction.opposite(),
        ).contains(r) <==> r < pile@.len() && pile@[r as int].pip(direction.opposite())
            == pile@[tile_ref as int].pip(direction),
{
    let pip = pile@[tile_ref as int].pip(direction);
    let edge = direction.opposite();
    lemma_refs_where(pile@.len(), |r: TileRef| pile@[r as int].pip(edge) == pip);
}

/// The side effects never go down as the reference goes up, in the order
/// `Out < In < Pure`, and after a hidden tile every tile is hidden.
pub proof fn lemma_pile_ordering(pile: DominoPile, r1: TileRef, r2: TileRef)
    requires
        pile.wf(),
        r1 < r2,
    ensures
        pile.effects_at(r1).rank() <= pile.effects_at(r2).rank(),
        pile.effects_at(r1) == SideEffects::<TileRef>::Pure(PurityBias::Hidden)
            ==> pile.effects_at(r2) == SideEffects::<TileRef>::Pure(PurityBias::Hidden),
        pile.effects_at(r1) == SideEffects::<TileRef>::Pure(PurityBias::Hidden) <==> r1
            >= pile.hidden_mark(),
{
}

/// What one more domino adds to each of the three classes of a set.
proof fn lemma_partition_step(ds: Seq<Domino>, i: int)
    requires
        0 <= i < ds.len(),
    ensures
        outputs(ds.take(i + 1)) == if ds[i].side_effect is Out {
            outputs(ds.take(i)).push(ds[i])
        } else {
            outputs(ds.take(i))
        },
        inputs(ds.take(i + 1)) == if ds[i].side_effect is In {
            inputs(ds.take(i)).push(ds[i])
        } else {
            inputs(ds.take(i))
        },
        pures(ds.take(i + 1)) == if ds[i].side_effect is Pure {
            pures(ds.take(i)).push(ds[i])
        } else {
            pures(ds.take(i))
        },
        tiles_of(outputs(ds.take(i)).push(ds[i])) == tiles_of(outputs(ds.take(i))).push(ds[i].tile),
        tiles_of(inputs(ds.take(i)).push(ds[i])) == tiles_of(inputs(ds.take(i))).push(ds[i].tile),
        tiles_of(pures(ds.take(i)).push(ds[i])) == tiles_of(pures(ds.take(i))).push(ds[i].tile),
        bits_of(outputs(ds.take(i)).push(ds[i])) == bits_of(outputs(ds.take(i))).push(
            ds[i].side_effect->Out_0,
        ),
        outputs(ds.take(0)).len() == 0,
        inputs(ds.take(0)).len() == 0,
        pures(ds.take(0)).len() == 0,
{
    broadcast use vstd::seq_lib::group_filter_ensures;

    reveal(Seq::filter);
    assert(ds.take(i + 1) =~= ds.take(i).push(ds[i]));
    ds.take(i).lemma_filter_push(ds[i], |d: Domino| d.side_effect is Out);
    ds.take(i).lemma_filter_push(ds[i], |d: Domino| d.side_effect is In);
    ds.take(i).lemma_filter_push(ds[i], |d: Domino| d.side_effect is Pure);
    assert(tiles_of(outputs(ds.take(i)).push(ds[i])) =~= tiles_of(outputs(ds.take(i))).push(
        ds[i].tile,
    ));
    assert(tiles_of(inputs(ds.take(i)).push(ds[i])) =~= tiles_of(inputs(ds.take(i))).push(
        ds[i].tile,
    ));
    assert(tiles_of(pures(ds.take(i)).push(ds[i])) =~= tiles_of(pures(ds.take(i))).push(
        ds[i].tile,
    ));
    assert(bits_of(outputs(ds.take(i)).push(ds[i])) =~= bits_of(outputs(ds.take(i))).push(
        ds[i].side_effect->Out_0,
    ));
}

/// The three classes of a set hold each of its dominoes once.
pub proof fn lemma_partition_len(ds: Seq<Domino>)
    ensures
        outputs(ds).len() + inputs(ds).len() + pures(ds).len() == ds.len(),
        by_effect(ds).len() == ds.len(),
        tiles_of(by_effect(ds)).len() == ds.len(),
        tiles_of(by_effect(ds)) == tiles_of(outputs(ds)) + tiles_of(inputs(ds)) + tiles_of(
            pures(ds),
        ),
    decreases ds.len(),
{
    reveal(Seq::filter);
    if ds.len() > 0 {
        let i = ds.len() - 1;
        lemma_partition_len(ds.take(i));
        lemma_partition_step(ds, i);
        assert(ds.take(i + 1) == ds);
    }
    assert(tiles_of(by_effect(ds)) =~= tiles_of(outputs(ds)) + tiles_of(inputs(ds)) + tiles_of(
        pures(ds),
    ));
}

/// The alternates of one more input domino follow those of the others.
proof fn lemma_alternates_push(ins: Seq<Domino>, d: Domino)
    ensures
        alternates(ins.push(d)) == alternates(ins).push(d.alts()[0]).push(d.alts()[1]),
        alternates(ins).len() == 2 * ins.len(),
{
    assert(alternates(ins.push(d)) =~= alternates(ins).push(d.alts()[0]).push(d.alts()[1]));
}

/// Every member of a class is a domino of the set.
proof fn lemma_class_member(ds: Seq<Domino>, class: spec_fn(Domino) -> bool, j: int)
    requires
        0 <= j < ds.filter(class).len(),
    ensures
        ds.contains(ds.filter(class)[j]),
        class(ds.filter(class)[j]),
    decreases ds.len(),
{
    reveal(Seq::filter);
    if ds.len() > 0 {
        let front = ds.drop_last();
        if j < front.filter(class).len() {
            lemma_class_member(front, class, j);
            let k = choose|k: int| 0 <= k < front.len() && front[k] == front.filter(class)[j];
            assert(ds[k] == ds.filter(class)[j]);
        } else {
            assert(ds[ds.len() - 1] == ds.filter(class)[j]);
        }
    }
}

/// A pile holds the tile of every domino of its set, at a reference that
/// is not hidden.
pub proof fn lemma_laid_out_holds(ds: Seq<Domino>, i: int)
    requires
        0 <= i < ds.len(),
    ensures
        exists|r: int| 0 <= r < ds.len() && r < laid_out(ds).len() && laid_out(ds)[r] == ds[i].tile,
{
    broadcast use vstd::seq_lib::group_filter_ensures;

    lemma_partition_len(ds);
    let sorted = by_effect(ds);
    let d = ds[i];
    match d.side_effect {
        SideEffects::Out(_) => {
            assert(outputs(ds).contains(ds[i]));
            let j = choose|j: int| 0 <= j < outputs(ds).len() && outputs(ds)[j] == d;
            assert(sorted[j] == d);
            assert(laid_out(ds)[j] == d.tile);
        },
        SideEffects::In(_) => {
            assert(inputs(ds).contains(ds[i]));
            let j = choose|j: int| 0 <= j < inputs(ds).len() && inputs(ds)[j] == d;
            assert(sorted[outputs(ds).len() + j] == d);
            assert(laid_out(ds)[outputs(ds).len() + j] == d.tile);
        },
        SideEffects::Pure(_) => {
            assert(pures(ds).contains(ds[i]));
            let j = choose|j: int| 0 <= j < pures(ds).len() && pures(ds)[j] == d;
            assert(sorted[outputs(ds).len() + inputs(ds).len() + j] == d);
            assert(laid_out(ds)[outputs(ds).len() + inputs(ds).len() + j] == d.tile);
        },
    }
}

/// If the alternates of every input domino of the set fit its tile, the
/// alternates of every input tile of the pile fit it.
pub proof fn lemma_alts_carry_over(pile: DominoPile, ds: Seq<Domino>)
    requires
        pile.wf(),
        pile.built_from(ds),
        forall|i: int| 0 <= i < ds.len() ==> (#[trigger] ds[i]).alts_fit(),
    ensures
        forall|r: TileRef| #[trigger] pile.alts_fit_at(r),
{
    lemma_partition_len(ds);
    let ins = inputs(ds);
    let n_out = outputs(ds).len();
    assert(bits_of(outputs(ds)).len() == n_out);
    assert forall|r: TileRef| #[trigger] pile.alts_fit_at(r) by {
        if let SideEffects::In(alts) = pile.effects_at(r) {
            let j = r - n_out;
            let d = ins[j];
            lemma_class_member(ds, |d: Domino| d.side_effect is In, j);
            let i = choose|i: int| 0 <= i < ds.len() && ds[i] == d;
            assert(ds[i].alts_fit());
            assert(by_effect(ds)[r as int] == d);
            assert(pile@[r as int] == d.tile);
            assert(pile.alt_table()[j] == alts);
            assert forall|k: int| 0 <= k < 2 implies {
                &&& pile@[(#[trigger] alts@[k]) as int].north == pile@[r as int].north
                &&& pile@[alts@[k] as int].east == pile@[r as int].east
                &&& pile@[alts@[k] as int].west == pile@[r as int].west
            } by {
                let at = pile.hidden_mark() + 2 * j + k;
                assert(alts@[k] == at);
                assert(alternates(ins)[2 * j + k] == d.alts()[k]);
                assert(pile@[at] == d.alts()[k]);
            }
        }
    }
}

/// Two piles of one set hold the same.
pub proof fn lemma_built_alike(first: DominoPile, second: DominoPile, ds: Seq<Domino>)
    requires
        first.wf(),
        first.built_from(ds),
        second.wf(),
        second.built_from(ds),
    ensures
        first.model() == second.model(),
{
    assert(first.alt_table() =~= second.alt_table()) by {
        assert forall|j: int| 0 <= j < first.alt_table().len() implies first.alt_table()[j]
            == second.alt_table()[j] by {
            assert(first.alt_table()[j]@[0] == second.alt_table()[j]@[0]);
            assert(first.alt_table()[j]@[1] == second.alt_table()[j]@[1]);
            assert(first.alt_table()[j] =~= second.alt_table()[j]);
        }
    }
}

} // verus!
