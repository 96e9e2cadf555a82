use vstd::prelude::*;
use vstd::string::StringExecFns;
use std::collections::HashSet;
use std::ops::Neg;
use crate::tiling::Direction;
use crate::tiling::DominoPile;
use crate::tiling::Orientation;
use crate::tiling::Pip;
use crate::tiling::PurityBias;
use crate::tiling::SideEffects;
use crate::tiling::Tile;
use crate::tiling::TileRef;
use crate::tiling::refs_with_pip;
use crate::tiling::tiles_text;
use crate::text::decimal_digits;
use crate::text::push_decimal;

verus! {

broadcast use vstd::std_specs::hash::group_hash_axioms;

/// Why a cloud could not give a tile.
#[derive(Copy, Clone, Debug, PartialEq, Eq)]
pub enum TileCloudError {
    /// The cloud holds no tile.
    NoTilesLeft,
}

/// Which member a cloud gives when it holds several.
#[derive(Copy, Clone, Debug, PartialEq, Eq)]
pub enum TileCloudConf {
    /// This tile, if the cloud holds it.
    Prefer(TileRef),
    /// Any tile but this one, if the cloud holds another.
    Avoid(TileRef),
    /// Any tile.
    Whatever,
}

/// The candidates of a list that a cloud admits: those that may be chosen
/// for a cell, each once, in the order in which the list first names them.
pub open spec fn admitted(hidden_mark: TileRef, initial: Seq<TileRef>) -> Seq<TileRef>
    decreases initial.len(),
{
    if initial.len() == 0 {
        Seq::empty()
    } else {
        let rest = admitted(hidden_mark, initial.drop_last());
        let tile_ref = initial.last();
        if tile_ref < hidden_mark && !rest.contains(tile_ref) {
            rest.push(tile_ref)
        } else {
            rest
        }
    }
}

/// The admitted candidates are the visible ones of the list, each once.
pub proof fn lemma_admitted(hidden_mark: TileRef, initial: Seq<TileRef>)
    ensures
        forall|r: TileRef| #[trigger]
            admitted(hidden_mark, initial).contains(r) <==> initial.contains(r) && r < hidden_mark,
        admitted(hidden_mark, initial).no_duplicates(),
        admitted(hidden_mark, initial).len() <= initial.len(),
    decreases initial.len(),
{
    let all = admitted(hidden_mark, initial);
    if initial.len() > 0 {
        let front = initial.drop_last();
        let rest = admitted(hidden_mark, front);
        let last = initial.last();
        lemma_admitted(hidden_mark, front);
        let grows = last < hidden_mark && !rest.contains(last);
        if grows {
            assert(all == rest.push(last));
        } else {
            assert(all == rest);
        }
        assert forall|r: TileRef| #[trigger]
            all.contains(r) <==> initial.contains(r) && r < hidden_mark by {
            if all.contains(r) {
                let i = choose|i: int| 0 <= i < all.len() && all[i] == r;
                if i < rest.len() {
                    assert(rest[i] == r);
                    assert(rest.contains(r));
                    let k = choose|k: int| 0 <= k < front.len() && front[k] == r;
                    assert(initial[k] == r);
                } else {
                    assert(r == last);
                    assert(initial[initial.len() - 1] == r);
                }
            }
            if initial.contains(r) && r < hidden_mark {
                let k = choose|k: int| 0 <= k < initial.len() && initial[k] == r;
                if k < front.len() {
                    assert(front[k] == r);
                    assert(front.contains(r));
                    assert(rest.contains(r));
                    let i = choose|i: int| 0 <= i < rest.len() && rest[i] == r;
                    assert(all[i] == r);
                } else if rest.contains(r) {
                    let i = choose|i: int| 0 <= i < rest.len() && rest[i] == r;
                    assert(all[i] == r);
                } else {
                    assert(r == last);
                    assert(all[rest.len() as int] == r);
                }
            }
        }
    }
}

/// The pips that the tiles of `members` carry on `edge`.
pub open spec fn pips_of(tiles: Seq<Tile>, members: Seq<TileRef>, edge: Direction) -> Set<Pip> {
    Set::new(
        |pip: Pip|
            exists|i: int| 0 <= i < members.len() && tiles[#[trigger] members[i] as int].pip(edge) == pip,
    )
}

/// The members whose pip on `edge` is one of `pips`, in their order.
pub open spec fn retained(
    tiles: Seq<Tile>,
    members: Seq<TileRef>,
    pips: Set<Pip>,
    edge: Direction,
) -> Seq<TileRef> {
    members.filter(|r: TileRef| pips.contains(tiles[r as int].pip(edge)))
}

/// The members that can lie beside some tile of `other`, which lies on
/// their `orientation` side.
pub open spec fn narrowed(
    tiles: Seq<Tile>,
    members: Seq<TileRef>,
    other: Seq<TileRef>,
    orientation: Direction,
) -> Seq<TileRef> {
    retained(tiles, members, pips_of(tiles, other, orientation.opposite()), orientation)
}

/// The first member that is not `avoided`.
pub open spec fn first_other(members: Seq<TileRef>, avoided: TileRef) -> Option<TileRef>
    decreases members.len(),
{
    if members.len() == 0 {
        None
    } else if members[0] != avoided {
        Some(members[0])
    } else {
        first_other(members.drop_first(), avoided)
    }
}

/// The member that a cloud gives under a preference.
pub open spec fn choice(members: Seq<TileRef>, conf: TileCloudConf) -> Option<TileRef> {
    if members.len() == 0 {
        None
    } else {
        match conf {
            TileCloudConf::Prefer(tile_ref) => if members.contains(tile_ref) {
                Some(tile_ref)
            } else {
                Some(members[0])
            },
            TileCloudConf::Avoid(tile_ref) => match first_other(members, tile_ref) {
                Some(other) => Some(other),
                None => Some(members[0]),
            },
            TileCloudConf::Whatever => Some(members[0]),
        }
    }
}

/// What `first_other` finds is a member other than `avoided`, and no member
/// before it is.
pub proof fn lemma_first_other(members: Seq<TileRef>, avoided: TileRef)
    ensures
        match first_other(members, avoided) {
            Some(found) => exists|i: int|
                {
                    &&& 0 <= i < members.len()
                    &&& #[trigger] members[i] == found
                    &&& found != avoided
                    &&& forall|j: int| 0 <= j < i ==> members[j] == avoided
                },
            None => forall|j: int| 0 <= j < members.len() ==> members[j] == avoided,
        },
    decreases members.len(),
{
    if members.len() > 0 {
        if members[0] != avoided {
            assert(members[0] == first_other(members, avoided)->0);
        } else {
            let tail = members.drop_first();
            lemma_first_other(tail, avoided);
            match first_other(tail, avoided) {
                Some(found) => {
                    let i = choose|i: int|
                        {
                            &&& 0 <= i < tail.len()
                            &&& #[trigger] tail[i] == found
                            &&& found != avoided
                            &&& forall|j: int| 0 <= j < i ==> tail[j] == avoided
                        };
                    assert(members[i + 1] == found);
                    assert forall|j: int| 0 <= j < i + 1 implies members[j] == avoided by {
                        if j > 0 {
                            assert(tail[j - 1] == avoided);
                        }
                    }
                },
                None => {
                    assert forall|j: int| 0 <= j < members.len() implies members[j] == avoided by {
                        if j > 0 {
                            assert(tail[j - 1] == avoided);
                        }
                    }
                },
            }
        }
    }
}

/// The candidate tiles of one cell of the next row.
#[derive(Debug)]
pub struct TileCloud<'process> {
    tiles: &'process DominoPile,
    cloud: Vec<TileRef>,
    conf: TileCloudConf,
}

impl<'process> View for TileCloud<'process> {
    type V = Seq<TileRef>;

    /// The members, in the order in which `select` looks at them.
    closed spec fn view(&self) -> Seq<TileRef> {
        self.cloud@
    }
}

impl<'process> TileCloud<'process> {
    /// The pile that the members refer to.
    pub closed spec fn pile(&self) -> DominoPile {
        *self.tiles
    }

    /// The preference that `select` follows.
    pub closed spec fn conf(&self) -> TileCloudConf {
        self.conf
    }

    /// Every member is a tile of the pile that may be chosen, and none
    /// occurs twice.
    pub open spec fn wf(&self) -> bool {
        &&& self.pile().wf()
        &&& self@.no_duplicates()
        &&& forall|i: int| 0 <= i < self@.len() ==> self.pile().visible(#[trigger] self@[i])
    }

    /// The pips that the members carry on `direction`.
    pub open spec fn pips_on(&self, direction: Direction) -> Set<Pip> {
        pips_of(self.pile()@, self@, direction)
    }

    /// A cloud of the candidates in `initial` that may be chosen for a cell.
    ///
    /// Hidden tiles, and references that the pile does not hold, are left
    /// out; a candidate named twice is taken once.
    pub fn new(tiles: &'process DominoPile, initial: Vec<TileRef>, conf: TileCloudConf) -> (cloud:
        Self)
        requires
            tiles.wf(),
        ensures
            cloud.wf(),
            cloud.pile() == *tiles,
            cloud.conf() == conf,
            cloud@ == admitted(tiles.hidden_mark(), initial@),
            forall|r: TileRef| #[trigger]
                cloud@.contains(r) <==> initial@.contains(r) && tiles.effects_at(r)
                    != SideEffects::<TileRef>::Pure(PurityBias::Hidden),
    {
        let mut cloud: Vec<TileRef> = Vec::new();
        let n = initial.len();
        let mut i: usize = 0;
        while i < n
            invariant
                tiles.wf(),
                n == initial@.len(),
                i <= n,
                cloud@ == admitted(tiles.hidden_mark(), initial@.take(i as int)),
            decreases n - i,
        {
            let tile_ref = initial[i];
            proof {
                assert(initial@.take(i + 1).drop_last() == initial@.take(i as int));
            }
            let admissible = match tiles.get_side_effects(&tile_ref) {
                SideEffects::Pure(PurityBias::Hidden) => false,
                _ => true,
            };
            if admissible && !holds(&cloud, tile_ref) {
                cloud.push(tile_ref);
            }
            i += 1;
        }
        proof {
            assert(initial@.take(n as int) == initial@);
            lemma_admitted(tiles.hidden_mark(), initial@);
            assert forall|k: int| 0 <= k < cloud@.len() implies tiles.visible(
                #[trigger] cloud@[k],
            ) by {
                assert(cloud@.contains(cloud@[k]));
            }
        }
        Self { tiles, cloud, conf }
    }

    /// The pips that the members carry on `direction`.
    pub fn positional_pips(&self, direction: &Direction) -> (pips: HashSet<Pip>)
        requires
            self.wf(),
        ensures
            pips@ == self.pips_on(*direction),
    {
        let mut pips: HashSet<Pip> = HashSet::new();
        let n = self.cloud.len();
        let mut i: usize = 0;
        while i < n
            invariant
                self.wf(),
                n == self@.len(),
                i <= n,
                pips@ == pips_of(self.pile()@, self@.take(i as int), *direction),
            decreases n - i,
        {
            let tile_ref = self.cloud[i];
            assert(self.pile().visible(self@[i as int]));
            let pip = self.tiles[tile_ref].cardinal(direction);
            pips.insert(pip);
            proof {
                let before = self@.take(i as int);
                let after = self@.take(i + 1);
                let tiles = self.pile()@;
                assert(after[i as int] == tile_ref);
                assert forall|p: Pip|
                    pips_of(tiles, after, *direction).contains(p) <==> pips_of(
                        tiles,
                        before,
                        *direction,
                    ).insert(pip).contains(p) by {
                    if pips_of(tiles, after, *direction).contains(p) {
                        let k = choose|k: int|
                            0 <= k < after.len() && tiles[#[trigger] after[k] as int].pip(
                                *direction,
                            ) == p;
                        if k < i {
                            assert(before[k] == after[k]);
                        }
                    }
                    if pips_of(tiles, before, *direction).contains(p) {
                        let k = choose|k: int|
                            0 <= k < before.len() && tiles[#[trigger] before[k] as int].pip(
                                *direction,
                            ) == p;
                        assert(after[k] == before[k]);
                    }
                }
                assert(pips_of(tiles, after, *direction) =~= pips_of(
                    tiles,
                    before,
                    *direction,
                ).insert(pip));
            }
            i += 1;
        }
        proof {
            assert(self@.take(n as int) == self@);
            assert(pips_of(self.pile()@, self@.take(0), *direction) =~= Set::<Pip>::empty());
        }
        pips
    }
}

/// The tiles of some members.
pub open spec fn tiles_at(tiles: Seq<Tile>, members: Seq<TileRef>) -> Seq<Tile> {
    members.map_values(|r: TileRef| tiles[r as int])
}

/// A cloud in writing: the tiles of its members, in their order.
pub open spec fn cloud_text(tiles: Seq<Tile>, members: Seq<TileRef>) -> Seq<char> {
    "TileCloud("@ + tiles_text(tiles_at(tiles, members)) + ")"@
}

impl<'process> TileCloud<'process> {
    /// The cloud in writing.
    pub open spec fn text(&self) -> Seq<char> {
        cloud_text(self.pile()@, self@)
    }

    /// Appends the cloud in writing.
    pub fn push_to(&self, text: &mut String)
        requires
            self.wf(),
        ensures
            final(text)@ == old(text)@ + self.text(),
    {
        let ghost before = text@;
        let ghost shown = tiles_at(self.pile()@, self@);
        text.append("TileCloud(");
        let n = self.cloud.len();
        let mut i: usize = 0;
        while i < n
            invariant
                self.wf(),
                n == self@.len(),
                i <= n,
                shown == tiles_at(self.pile()@, self@),
                text@ == before + "TileCloud("@ + tiles_text(shown.take(i as int)),
            decreases n - i,
        {
            if i > 0 {
                text.append(", ");
            }
            let tile_ref = self.cloud[i];
            assert(self.pile().visible(self@[i as int]));
            self.tiles[tile_ref].push_to(text);
            proof {
                let upto = shown.take(i + 1);
                assert(upto.drop_last() == shown.take(i as int));
                assert(upto.last() == self.pile()@[tile_ref as int]);
                if i == 0 {
                    assert(upto[0] == upto.last());
                    assert(tiles_text(shown.take(0)) =~= Seq::<char>::empty());
                }
                assert(text@ =~= before + "TileCloud("@ + tiles_text(upto));
            }
            i += 1;
        }
        proof {
            assert(shown.take(n as int) == shown);
            assert(tiles_text(shown.take(0)) =~= Seq::<char>::empty());
        }
        text.append(")");
        assert(text@ =~= before + self.text());
    }

    /// The cloud in writing.
    pub fn to_string(&self) -> (text: String)
        requires
            self.wf(),
        ensures
            text@ == self.text(),
    {
        let mut text = String::new();
        self.push_to(&mut text);
        assert(text@ =~= self.text());
        text
    }

    /// Keeps the members whose pip on `edge` is one of `pips`.
    fn retain_pips(&mut self, pips: &HashSet<Pip>, edge: &Direction)
        requires
            old(self).wf(),
        ensures
            final(self).wf(),
            final(self).pile() == old(self).pile(),
            final(self).conf() == old(self).conf(),
            final(self)@ == retained(old(self).pile()@, old(self)@, pips@, *edge),
    {
        let ghost tiles = self.pile()@;
        let ghost members = self@;
        let ghost keep = |r: TileRef| pips@.contains(tiles[r as int].pip(*edge));
        let mut kept: Vec<TileRef> = Vec::new();
        let n = self.cloud.len();
        let mut i: usize = 0;
        while i < n
            invariant
                self.wf(),
                tiles == self.pile()@,
                members == self@,
                n == members.len(),
                i <= n,
                keep == (|r: TileRef| pips@.contains(tiles[r as int].pip(*edge))),
                kept@ == members.take(i as int).filter(keep),
                kept@.no_duplicates(),
                forall|k: int|
                    0 <= k < kept@.len() ==> exists|j: int|
                        0 <= j < i && members[j] == #[trigger] kept@[k],
            decreases n - i,
        {
            let tile_ref = self.cloud[i];
            assert(self.pile().visible(self@[i as int]));
            proof {
                assert(members.take(i + 1) =~= members.take(i as int).push(tile_ref));
                members.take(i as int).lemma_filter_push(tile_ref, keep);
            }
            let pip = self.tiles[tile_ref].cardinal(edge);
            if pips.contains(&pip) {
                kept.push(tile_ref);
            }
            i += 1;
        }
        proof {
            assert(members.take(n as int) == members);
            assert forall|k: int| 0 <= k < kept@.len() implies self.pile().visible(
                #[trigger] kept@[k],
            ) by {
                let j = choose|j: int| 0 <= j < n && members[j] == kept@[k];
                assert(self.pile().visible(self@[j]));
            }
        }
        self.cloud = kept;
    }

    /// Narrows the cloud to the members that can lie beside some member of
    /// `other`, the cloud of the cell on the `orientation` side.
    ///
    /// Fails, with the cloud left empty, if no member can.
    pub fn constrain(&mut self, other: &TileCloud, orientation: &Orientation) -> (res: Result<
        (),
        TileCloudError,
    >)
        requires
            old(self).wf(),
            other.wf(),
            *orientation == Direction::East || *orientation == Direction::West,
        ensures
            final(self).wf(),
            final(self).pile() == old(self).pile(),
            final(self).conf() == old(self).conf(),
            final(self)@ == retained(
                old(self).pile()@,
                old(self)@,
                other.pips_on(orientation.opposite()),
                *orientation,
            ),
            res is Ok <==> final(self)@.len() > 0,
    {
        let next = orientation.neg();
        let available_pips = other.positional_pips(&next);
        self.retain_pips(&available_pips, orientation);
        if self.cloud.len() == 0 {
            Err(TileCloudError::NoTilesLeft)
        } else {
            Ok(())
        }
    }

    /// The member that the preference of the cloud picks.
    ///
    /// `Prefer(r)` gives `r` if the cloud holds it, `Avoid(r)` the first
    /// member other than `r` if there is one; in every other case the first
    /// member is given. Fails if the cloud is empty.
    pub fn select(&self) -> (res: Result<TileRef, TileCloudError>)
        ensures
            match choice(self@, self.conf()) {
                Some(tile_ref) => res == Ok::<TileRef, TileCloudError>(tile_ref),
                None => res == Err::<TileRef, TileCloudError>(TileCloudError::NoTilesLeft),
            },
    {
        let n = self.cloud.len();
        let mut i: usize = 0;
        while i < n
            invariant
                n == self@.len(),
                i <= n,
                self.conf() matches TileCloudConf::Prefer(tile_ref) ==> forall|j: int|
                    0 <= j < i ==> self@[j] != tile_ref,
                self.conf() matches TileCloudConf::Avoid(tile_ref) ==> forall|j: int|
                    0 <= j < i ==> self@[j] == tile_ref,
            decreases n - i,
        {
            let member = self.cloud[i];
            match self.conf {
                TileCloudConf::Prefer(tile_ref) => {
                    if tile_ref == member {
                        return Ok(member);
                    }
                },
                TileCloudConf::Avoid(tile_ref) => {
                    if tile_ref != member {
                        proof {
                            lemma_first_other(self@, tile_ref);
                        }
                        return Ok(member);
                    }
                },
                TileCloudConf::Whatever => {},
            }
            i += 1;
        }
        proof {
            if let TileCloudConf::Avoid(tile_ref) = self.conf() {
                lemma_first_other(self@, tile_ref);
            }
        }
        if n > 0 {
            Ok(self.cloud[0])
        } else {
            Err(TileCloudError::NoTilesLeft)
        }
    }
}

/// Whether `members` holds `tile_ref`.
fn holds(members: &Vec<TileRef>, tile_ref: TileRef) -> (found: bool)
    ensures
        found == members@.contains(tile_ref),
{
    let mut i: usize = 0;
    while i < members.len()
        invariant
            i <= members@.len(),
            forall|j: int| 0 <= j < i ==> members@[j] != tile_ref,
        decreases members@.len() - i,
    {
        if members[i] == tile_ref {
            return true;
        }
        i += 1;
    }
    false
}

/// The members of `longitude` that `latitude` holds too, in their order.
pub open spec fn shared(longitude: Seq<TileRef>, latitude: Seq<TileRef>) -> Seq<TileRef> {
    longitude.filter(|r: TileRef| latitude.contains(r))
}

/// The tiles that fit below the tile at `above`.
pub open spec fn below(tiles: Seq<Tile>, above: TileRef) -> Seq<TileRef> {
    refs_with_pip(tiles, tiles[above as int].south, Direction::North)
}

/// The tiles that fit in the cell west of the row: below the void, and
/// east of the void.
pub open spec fn west_frontier(tiles: Seq<Tile>, border: TileRef) -> Seq<TileRef> {
    shared(refs_with_pip(tiles, tiles[border as int].east, Direction::West), below(tiles, border))
}

/// The tiles that fit in the cell east of the row: below the void, and
/// west of the void.
pub open spec fn east_frontier(tiles: Seq<Tile>, border: TileRef) -> Seq<TileRef> {
    shared(refs_with_pip(tiles, tiles[border as int].west, Direction::East), below(tiles, border))
}

/// The clouds from which the row below `board` is chosen: one for the cell
/// west of the row, one below each cell, one for the cell east of the row.
pub open spec fn candidates(
    hidden_mark: TileRef,
    tiles: Seq<Tile>,
    border: TileRef,
    board: Seq<TileRef>,
) -> Seq<Seq<TileRef>> {
    seq![admitted(hidden_mark, west_frontier(tiles, border))] + board.map_values(
        |above: TileRef| admitted(hidden_mark, below(tiles, above)),
    ) + seq![admitted(hidden_mark, east_frontier(tiles, border))]
}

/// The preference of the cloud at `at` in a row of `len` clouds: the two
/// outer clouds prefer the border, the others avoid it.
pub open spec fn conf_at(at: int, len: int, border: TileRef) -> TileCloudConf {
    if at == 0 || at == len - 1 {
        TileCloudConf::Prefer(border)
    } else {
        TileCloudConf::Avoid(border)
    }
}

/// Where a sweep found a cell for which no tile is left.
pub struct Stuck {
    /// The side of the neighbour that left no tile: west or east.
    pub side: Direction,
    /// The place of the cloud in the row, the west frontier being 0.
    pub cell: nat,
    /// The members of the cloud of that neighbour.
    pub other: Seq<TileRef>,
}

/// The clouds after one sweep from west to east, begun at `at`.
///
/// Each cloud is narrowed against its western neighbour, which has been
/// narrowed already, and then against its eastern neighbour, which has not.
pub open spec fn sweep(tiles: Seq<Tile>, clouds: Seq<Seq<TileRef>>, at: nat) -> Result<
    Seq<Seq<TileRef>>,
    Stuck,
>
    decreases clouds.len() - at,
{
    if at >= clouds.len() {
        Ok(clouds)
    } else {
        let from_west = if at > 0 {
            narrowed(tiles, clouds[at as int], clouds[at - 1], Direction::West)
        } else {
            clouds[at as int]
        };
        if at > 0 && from_west.len() == 0 {
            Err(Stuck { side: Direction::West, cell: at, other: clouds[at - 1] })
        } else {
            let from_east = if at + 1 < clouds.len() {
                narrowed(tiles, from_west, clouds[at as int + 1], Direction::East)
            } else {
                from_west
            };
            if at + 1 < clouds.len() && from_east.len() == 0 {
                Err(Stuck { side: Direction::East, cell: at, other: clouds[at as int + 1] })
            } else {
                sweep(tiles, clouds.update(at as int, from_east), at + 1)
            }
        }
    }
}

/// The tile that each cloud gives, the outer clouds preferring the border
/// and the others avoiding it.
pub open spec fn selections(clouds: Seq<Seq<TileRef>>, border: TileRef) -> Seq<Option<TileRef>> {
    Seq::new(clouds.len(), |i: int| choice(clouds[i], conf_at(i, clouds.len() as int, border)))
}

/// A row of chosen tiles without the border at its two ends.
pub open spec fn trimmed(chosen: Seq<TileRef>, border: TileRef) -> Seq<TileRef>
    recommends
        chosen.len() >= 2,
{
    let from = if chosen[0] == border {
        1int
    } else {
        0int
    };
    let to = if chosen.last() == border {
        chosen.len() - 1
    } else {
        chosen.len() as int
    };
    chosen.subrange(from, to)
}

/// The row that follows `board`, or the cell for which no tile is left.
pub open spec fn successor(
    hidden_mark: TileRef,
    tiles: Seq<Tile>,
    border: TileRef,
    board: Seq<TileRef>,
) -> Result<Seq<TileRef>, Stuck> {
    match sweep(tiles, candidates(hidden_mark, tiles, border, board), 0) {
        Ok(clouds) => Ok(
            trimmed(selections(clouds, border).map_values(|c: Option<TileRef>| c->0), border),
        ),
        Err(stuck) => Err(stuck),
    }
}

/// The text that names the cell for which no tile is left: the side of
/// the neighbour, the place of the cloud, the cloud, which is empty, and
/// the cloud of the neighbour.
pub open spec fn unsat_context(tiles: Seq<Tile>, stuck: Stuck) -> Seq<char> {
    (if stuck.side == Direction::West {
        "western: cloud "@
    } else {
        "eastern: cloud "@
    }) + decimal_digits(stuck.cell) + ": "@ + cloud_text(tiles, Seq::empty()) + ", other: "@
        + cloud_text(tiles, stuck.other)
}

/// Why the row below a row could not be laid down.
#[derive(Debug)]
pub enum RowError {
    /// A cloud had no tile to give.
    Cloud { source: TileCloudError },
    /// No tile fits a cell together with its neighbours; `context` names
    /// the cell.
    UnsatisfiableConstraints { context: String },
}

/// The clouds of the cells of the row below a row of placed tiles.
#[derive(Debug)]
pub struct Row<'process> {
    pile: &'process DominoPile,
    row: Vec<TileCloud<'process>>,
    border: TileRef,
}

impl<'process> View for Row<'process> {
    type V = Seq<Seq<TileRef>>;

    /// The members of each cloud, from west to east.
    closed spec fn view(&self) -> Seq<Seq<TileRef>> {
        self.row@.map_values(|cloud: TileCloud| cloud@)
    }
}

/// The members of each of a sequence of clouds.
pub open spec fn members_of(clouds: Seq<TileCloud>) -> Seq<Seq<TileRef>> {
    clouds.map_values(|cloud: TileCloud| cloud@)
}

/// Each cloud is well formed, refers to `pile` and has the preference of
/// its place.
pub open spec fn clouds_wf(clouds: Seq<TileCloud>, pile: DominoPile, border: TileRef) -> bool {
    forall|i: int|
        0 <= i < clouds.len() ==> {
            &&& (#[trigger] clouds[i]).wf()
            &&& clouds[i].pile() == pile
            &&& clouds[i].conf() == conf_at(i, clouds.len() as int, border)
        }
}

impl<'process> Row<'process> {
    /// The pile that the clouds refer to.
    pub closed spec fn pile(&self) -> DominoPile {
        *self.pile
    }

    /// The tile of the void around the row.
    pub closed spec fn border(&self) -> TileRef {
        self.border
    }

    /// The clouds, from west to east.
    pub closed spec fn clouds(&self) -> Seq<TileCloud<'process>> {
        self.row@
    }

    /// There is a cloud for each frontier at least, the border is a tile of
    /// the pile, and each cloud is well formed.
    pub open spec fn wf(&self) -> bool {
        &&& self.pile().wf()
        &&& self.border() < self.pile()@.len()
        &&& self.clouds().len() >= 2
        &&& self@ == members_of(self.clouds())
        &&& clouds_wf(self.clouds(), self.pile(), self.border())
    }

    /// The clouds of the row below `board`: for each cell the tiles that fit
    /// below the tile above it, and for the cell at either end of the row
    /// the tiles that fit below the void and beside it.
    pub fn new(pile: &'process DominoPile, border: &TileRef, board: &Vec<TileRef>) -> (res: Result<
        Self,
        RowError,
    >)
        requires
            pile.wf(),
            *border < pile@.len(),
            forall|i: int| 0 <= i < board@.len() ==> board@[i] < pile@.len(),
        ensures
            res matches Ok(row) && row.wf() && row.pile() == *pile && row.border() == *border
                && row@ == candidates(pile.hidden_mark(), pile@, *border, board@),
    {
        let mut row: Vec<TileCloud> = Vec::new();
        let latitude = pile.matches(border, Direction::South);
        let longitude = pile.matches(border, Direction::East);
        let west = TileCloud::new(pile, common(&longitude, &latitude), TileCloudConf::Prefer(*border));
        row.push(west);
        let n = board.len();
        let mut i: usize = 0;
        while i < n
            invariant
                pile.wf(),
                *border < pile@.len(),
                n == board@.len(),
                forall|i: int| 0 <= i < board@.len() ==> board@[i] < pile@.len(),
                i <= n,
                row@.len() == i + 1,
                members_of(row@) == seq![
                    admitted(pile.hidden_mark(), west_frontier(pile@, *border)),
                ] + board@.take(i as int).map_values(
                    |above: TileRef| admitted(pile.hidden_mark(), below(pile@, above)),
                ),
                forall|k: int|
                    0 <= k < row@.len() ==> {
                        &&& (#[trigger] row@[k]).wf()
                        &&& row@[k].pile() == *pile
                        &&& row@[k].conf() == conf_at(k, n + 2, *border)
                    },
            decreases n - i,
        {
            let cloud = TileCloud::new(
                pile,
                pile.matches(&board[i], Direction::South),
                TileCloudConf::Avoid(*border),
            );
            proof {
                assert(board@.take(i + 1) =~= board@.take(i as int).push(board@[i as int]));
                assert(members_of(row@.push(cloud)) =~= members_of(row@).push(cloud@));
                assert(members_of(row@).push(cloud@) =~= seq![
                    admitted(pile.hidden_mark(), west_frontier(pile@, *border)),
                ] + board@.take(i + 1).map_values(
                    |above: TileRef| admitted(pile.hidden_mark(), below(pile@, above)),
                ));
            }
            row.push(cloud);
            i += 1;
        }
        let longitude = pile.matches(border, Direction::West);
        let east = TileCloud::new(pile, common(&longitude, &latitude), TileCloudConf::Prefer(*border));
        proof {
            assert(board@.take(n as int) == board@);
            assert(members_of(row@.push(east)) =~= candidates(
                pile.hidden_mark(),
                pile@,
                *border,
                board@,
            ));
        }
        row.push(east);
        Ok(Self { pile: pile, row: row, border: *border })
    }
}

impl<'process> Row<'process> {
    /// Lays down the row: one sweep from west to east narrows each cloud
    /// against its two neighbours, each cloud then gives a tile, and a
    /// frontier tile that is the border is dropped.
    ///
    /// Fails if the sweep leaves a cloud without a tile.
    pub fn to_vec(self) -> (res: Result<Vec<TileRef>, RowError>)
        requires
            self.wf(),
        ensures
            match sweep(self.pile()@, self@, 0) {
                Ok(clouds) => res matches Ok(next) && next@ == trimmed(
                    selections(clouds, self.border()).map_values(|c: Option<TileRef>| c->0),
                    self.border(),
                ),
                Err(stuck) => res matches Err(RowError::UnsatisfiableConstraints { context })
                    && context@ == unsat_context(self.pile()@, stuck),
            },
    {
        let ghost tiles = self.pile()@;
        let ghost initial = self@;
        let ghost pile = self.pile();
        let border = self.border;
        let mut row = self.row;
        let n = row.len();
        let last: usize = n - 1;
        let mut west_pips: Vec<HashSet<Pip>> = Vec::new();
        let mut i: usize = 0;
        while i < n
            invariant
                n == row@.len(),
                i <= n,
                clouds_wf(row@, pile, border),
                tiles == pile@,
                west_pips@.len() == i,
                forall|k: int|
                    0 <= k < i ==> (#[trigger] west_pips@[k])@ == pips_of(
                        tiles,
                        row@[k]@,
                        Direction::West,
                    ),
            decreases n - i,
        {
            let pips = row[i].positional_pips(&Direction::West);
            west_pips.push(pips);
            i += 1;
        }
        let mut east_pips: HashSet<Pip> = HashSet::new();
        i = 0;
        while i < n
            invariant
                n == row@.len(),
                n >= 2,
                last == n - 1,
                i <= n,
                clouds_wf(row@, pile, border),
                tiles == pile@,
                pile == self.pile(),
                initial == self@,
                initial.len() == n,
                west_pips@.len() == n,
                forall|k: int|
                    0 <= k < n ==> (#[trigger] west_pips@[k])@ == pips_of(
                        tiles,
                        initial[k],
                        Direction::West,
                    ),
                forall|k: int| i <= k < n ==> (#[trigger] row@[k])@ == initial[k],
                forall|k: int| 0 <= k < i ==> (#[trigger] row@[k])@.len() > 0,
                i > 0 ==> east_pips@ == pips_of(tiles, row@[i - 1]@, Direction::East),
                sweep(tiles, initial, 0) == sweep(tiles, members_of(row@), i as nat),
            decreases n - i,
        {
            let ghost before = members_of(row@);
            let ghost from_west = if i > 0 {
                narrowed(tiles, before[i as int], before[i - 1], Direction::West)
            } else {
                before[i as int]
            };
            let ghost from_east = if i + 1 < n {
                narrowed(tiles, from_west, before[i + 1], Direction::East)
            } else {
                from_west
            };
            assert(before[i as int] == row@[i as int]@);
            if i > 0 {
                assert(before[i - 1] == row@[i - 1]@);
                row[i].retain_pips(&east_pips, &Direction::West);
                assert(row@[i as int]@ == from_west);
                if row[i].cloud.len() == 0 {
                    let mut context = String::from_str("western: cloud ");
                    push_decimal(&mut context, i);
                    context.append(": ");
                    row[i].push_to(&mut context);
                    context.append(", other: ");
                    row[i - 1].push_to(&mut context);
                    proof {
                        let stuck = Stuck {
                            side: Direction::West,
                            cell: i as nat,
                            other: before[i - 1],
                        };
                        assert(row@[i as int]@ =~= Seq::<TileRef>::empty());
                        assert(context@ =~= unsat_context(tiles, stuck));
                    }
                    return Err(RowError::UnsatisfiableConstraints { context });
                }
            }
            if i < last {
                assert(before[i + 1] == initial[i + 1]);
                row[i].retain_pips(&west_pips[i + 1], &Direction::East);
                assert(row@[i as int]@ == from_east);
                if row[i].cloud.len() == 0 {
                    let mut context = String::from_str("eastern: cloud ");
                    push_decimal(&mut context, i);
                    context.append(": ");
                    row[i].push_to(&mut context);
                    context.append(", other: ");
                    row[i + 1].push_to(&mut context);
                    proof {
                        let stuck = Stuck {
                            side: Direction::East,
                            cell: i as nat,
                            other: before[i + 1],
                        };
                        assert(row@[i as int]@ =~= Seq::<TileRef>::empty());
                        assert(context@ =~= unsat_context(tiles, stuck));
                    }
                    return Err(RowError::UnsatisfiableConstraints { context });
                }
            }
            east_pips = row[i].positional_pips(&Direction::East);
            proof {
                assert(members_of(row@) =~= before.update(i as int, row@[i as int]@));
            }
            i += 1;
        }
        let ghost clouds = members_of(row@);
        let ghost chosen = selections(clouds, border).map_values(|c: Option<TileRef>| c->0);
        let mut next: Vec<TileRef> = Vec::new();
        i = 0;
        while i < n
            invariant
                n == row@.len(),
                n >= 2,
                i <= n,
                clouds == members_of(row@),
                clouds_wf(row@, pile, border),
                pile == self.pile(),
                border == self.border(),
                sweep(self.pile()@, self@, 0) == Ok::<Seq<Seq<TileRef>>, Stuck>(clouds),
                chosen == selections(clouds, border).map_values(|c: Option<TileRef>| c->0),
                chosen.len() == n,
                forall|k: int| 0 <= k < n ==> (#[trigger] clouds[k]).len() > 0,
                i < n ==> next@ == chosen.subrange(
                    if i > 0 && chosen[0] == border {
                        1int
                    } else {
                        0int
                    },
                    i as int,
                ),
                i == n ==> next@ == trimmed(chosen, border),
            decreases n - i,
        {
            let tile_ref = match row[i].select() {
                Ok(tile_ref) => tile_ref,
                Err(source) => {
                    proof {
                        assert(clouds[i as int].len() > 0);
                        assert(false);
                    }
                    return Err(RowError::Cloud { source });
                },
            };
            let in_border_position = i == 0 || i == n - 1;
            let is_border = tile_ref == border;
            let keep = !(in_border_position && is_border);
            assert(tile_ref == chosen[i as int]);
            let ghost so_far = next@;
            if keep {
                next.push(tile_ref);
            }
            i += 1;
            proof {
                let from = if chosen[0] == border {
                    1int
                } else {
                    0int
                };
                if i < n {
                    assert(next@ =~= chosen.subrange(from, i as int));
                } else {
                    assert(next@ =~= trimmed(chosen, border));
                }
            }
        }
        Ok(next)
    }
}

/// The members of `longitude` that `latitude` holds too, in their order.
fn common(longitude: &Vec<TileRef>, latitude: &Vec<TileRef>) -> (both: Vec<TileRef>)
    ensures
        both@ == shared(longitude@, latitude@),
{
    let ghost keep = |r: TileRef| latitude@.contains(r);
    let mut both: Vec<TileRef> = Vec::new();
    let n = longitude.len();
    let mut i: usize = 0;
    while i < n
        invariant
            n == longitude@.len(),
            i <= n,
            keep == (|r: TileRef| latitude@.contains(r)),
            both@ == longitude@.take(i as int).filter(keep),
        decreases n - i,
    {
        proof {
            assert(longitude@.take(i + 1) =~= longitude@.take(i as int).push(longitude@[i as int]));
            longitude@.take(i as int).lemma_filter_push(longitude@[i as int], keep);
        }
        if holds(latitude, longitude[i]) {
            both.push(longitude[i]);
        }
        i += 1;
    }
    proof {
        assert(longitude@.take(n as int) == longitude@);
    }
    both
}

/// What a cloud gives is one of its members.
pub proof fn lemma_choice_member(members: Seq<TileRef>, conf: TileCloudConf)
    requires
        members.len() > 0,
    ensures
        choice(members, conf) is Some,
        members.contains(choice(members, conf)->0),
{
    assert(members.contains(members[0]));
    if let TileCloudConf::Avoid(avoided) = conf {
        lemma_first_other(members, avoided);
    }
}

/// A sweep keeps the number of clouds, takes no tile into a cloud, and
/// leaves no cloud of a row of two or more empty.
pub proof fn lemma_sweep(tiles: Seq<Tile>, clouds: Seq<Seq<TileRef>>, at: nat)
    requires
        clouds.len() >= 2,
        forall|k: int| 0 <= k < at && k < clouds.len() ==> (#[trigger] clouds[k]).len() > 0,
    ensures
        sweep(tiles, clouds, at) matches Ok(swept) ==> {
            &&& swept.len() == clouds.len()
            &&& forall|k: int| 0 <= k < swept.len() ==> (#[trigger] swept[k]).len() > 0
            &&& forall|k: int, r: TileRef|
                0 <= k < swept.len() && (#[trigger] swept[k]).contains(r) ==> #[trigger] clouds[k].contains(
                    r,
                )
        },
    decreases clouds.len() - at,
{
    broadcast use vstd::seq_lib::group_filter_ensures;

    if at < clouds.len() {
        let from_west = if at > 0 {
            narrowed(tiles, clouds[at as int], clouds[at - 1], Direction::West)
        } else {
            clouds[at as int]
        };
        let from_east = if at + 1 < clouds.len() {
            narrowed(tiles, from_west, clouds[at as int + 1], Direction::East)
        } else {
            from_west
        };
        if !(at > 0 && from_west.len() == 0) && !(at + 1 < clouds.len() && from_east.len() == 0) {
            let next = clouds.update(at as int, from_east);
            lemma_sweep(tiles, next, at + 1);
            if let Ok(swept) = sweep(tiles, next, at + 1) {
                assert forall|k: int, r: TileRef|
                    0 <= k < swept.len() && (#[trigger] swept[k]).contains(
                        r,
                    ) implies #[trigger] clouds[k].contains(r) by {
                    assert(next[k].contains(r));
                    if k == at {
                        lemma_retained_member(
                            tiles,
                            from_west,
                            pips_of(tiles, clouds[at as int + 1], Direction::West),
                            Direction::East,
                            r,
                        );
                        if at > 0 {
                            lemma_retained_member(
                                tiles,
                                clouds[at as int],
                                pips_of(tiles, clouds[at - 1], Direction::East),
                                Direction::West,
                                r,
                            );
                        }
                    }
                }
            }
        }
    }
}

/// A member that is retained was a member before.
pub proof fn lemma_retained_member(
    tiles: Seq<Tile>,
    members: Seq<TileRef>,
    pips: Set<Pip>,
    edge: Direction,
    r: TileRef,
)
    ensures
        retained(tiles, members, pips, edge).contains(r) ==> members.contains(r) && pips.contains(
            tiles[r as int].pip(edge),
        ),
{
    let keep = |r: TileRef| pips.contains(tiles[r as int].pip(edge));
    if members.filter(keep).contains(r) {
        members.lemma_filter_contains_rev(keep, r);
    }
}

/// Every tile of the row that follows a row is a tile of the pile that may
/// be chosen, and the row is no shorter than the one before it and at most
/// two tiles longer.
pub proof fn lemma_successor_visible(
    hidden_mark: TileRef,
    tiles: Seq<Tile>,
    border: TileRef,
    board: Seq<TileRef>,
)
    ensures
        successor(hidden_mark, tiles, border, board) matches Ok(next) ==> {
            &&& board.len() <= next.len() <= board.len() + 2
            &&& forall|i: int| 0 <= i < next.len() ==> #[trigger] next[i] < hidden_mark
        },
{
    let initial = candidates(hidden_mark, tiles, border, board);
    lemma_sweep(tiles, initial, 0);
    if let Ok(swept) = sweep(tiles, initial, 0) {
        let chosen = selections(swept, border).map_values(|c: Option<TileRef>| c->0);
        let next = trimmed(chosen, border);
        assert forall|k: int| 0 <= k < chosen.len() implies #[trigger] chosen[k] < hidden_mark by {
            lemma_choice_member(swept[k], conf_at(k, swept.len() as int, border));
            assert(swept[k].contains(chosen[k]));
            assert(initial[k].contains(chosen[k]));
            if k == 0 {
                lemma_admitted(hidden_mark, west_frontier(tiles, border));
            } else if k == initial.len() - 1 {
                lemma_admitted(hidden_mark, east_frontier(tiles, border));
            } else {
                lemma_admitted(hidden_mark, below(tiles, board[k - 1]));
            }
        }
    }
}

/// Each tile of the row fits its eastern neighbour.
pub open spec fn adjacent_fit(row: Seq<Tile>) -> bool {
    forall|i: int| 0 <= i < row.len() - 1 ==> (#[trigger] row[i]).east == row[i + 1].west
}

/// The two ends of the row fit the border.
pub open spec fn fits_border(row: Seq<Tile>, border: Tile) -> bool {
    row.len() > 0 ==> row[0].west == border.east && row.last().east == border.west
}

/// The row is self-consistent: neighbours fit, and the ends fit the border.
pub open spec fn self_consistent(row: Seq<Tile>, border: Tile) -> bool {
    adjacent_fit(row) && fits_border(row, border)
}

/// Every member of a cloud carries the same pip on `edge`.
pub open spec fn unanimous(tiles: Seq<Tile>, members: Seq<TileRef>, edge: Direction) -> bool {
    forall|i: int, j: int|
        0 <= i < members.len() && 0 <= j < members.len() ==> tiles[#[trigger] members[i] as int].pip(
            edge,
        ) == tiles[#[trigger] members[j] as int].pip(edge)
}

/// Each member of each cloud but the westernmost fits some member of its
/// western neighbour.
pub open spec fn west_supported(tiles: Seq<Tile>, clouds: Seq<Seq<TileRef>>, upto: int) -> bool {
    forall|k: int, r: TileRef|
        1 <= k < upto && k < clouds.len() && (#[trigger] clouds[k]).contains(r) ==> pips_of(
            tiles,
            clouds[k - 1],
            Direction::East,
        ).contains(#[trigger] tiles[r as int].pip(Direction::West))
}

/// After a sweep each member of each cloud but the westernmost fits some
/// member of its western neighbour.
pub proof fn lemma_sweep_west_supported(tiles: Seq<Tile>, clouds: Seq<Seq<TileRef>>, at: nat)
    requires
        west_supported(tiles, clouds, at as int),
    ensures
        sweep(tiles, clouds, at) matches Ok(swept) ==> swept.len() == clouds.len()
            && west_supported(tiles, swept, swept.len() as int) && forall|k: int|
            0 <= k < at && k < clouds.len() ==> #[trigger] swept[k] == clouds[k],
    decreases clouds.len() - at,
{
    if at < clouds.len() {
        let from_west = if at > 0 {
            narrowed(tiles, clouds[at as int], clouds[at - 1], Direction::West)
        } else {
            clouds[at as int]
        };
        let from_east = if at + 1 < clouds.len() {
            narrowed(tiles, from_west, clouds[at as int + 1], Direction::East)
        } else {
            from_west
        };
        if !(at > 0 && from_west.len() == 0) && !(at + 1 < clouds.len() && from_east.len() == 0) {
            let next = clouds.update(at as int, from_east);
            assert forall|k: int, r: TileRef|
                1 <= k < at + 1 && k < next.len() && (#[trigger] next[k]).contains(
                    r,
                ) implies pips_of(tiles, next[k - 1], Direction::East).contains(
                #[trigger] tiles[r as int].pip(Direction::West),
            ) by {
                if k == at {
                    if at + 1 < clouds.len() {
                        lemma_retained_member(
                            tiles,
                            from_west,
                            pips_of(tiles, clouds[at as int + 1], Direction::West),
                            Direction::East,
                            r,
                        );
                    }
                    lemma_retained_member(
                        tiles,
                        clouds[at as int],
                        pips_of(tiles, clouds[at - 1], Direction::East),
                        Direction::West,
                        r,
                    );
                } else {
                    assert(clouds[k].contains(r));
                }
            }
            lemma_sweep_west_supported(tiles, next, at + 1);
        }
    }
}

/// Each tile of the row that follows a row fits its eastern neighbour, if
/// the sweep leaves each cloud but the easternmost with one east pip.
pub proof fn lemma_successor_fits(
    hidden_mark: TileRef,
    tiles: Seq<Tile>,
    border: TileRef,
    board: Seq<TileRef>,
)
    requires
        sweep(tiles, candidates(hidden_mark, tiles, border, board), 0) matches Ok(swept)
            && forall|k: int|
            0 <= k < swept.len() - 1 ==> unanimous(tiles, #[trigger] swept[k], Direction::East),
    ensures
        successor(hidden_mark, tiles, border, board) matches Ok(next) && adjacent_fit(
            tiles_at(tiles, next),
        ),
{
    let initial = candidates(hidden_mark, tiles, border, board);
    lemma_sweep(tiles, initial, 0);
    lemma_sweep_west_supported(tiles, initial, 0);
    let swept = sweep(tiles, initial, 0)->Ok_0;
    let chosen = selections(swept, border).map_values(|c: Option<TileRef>| c->0);
    let next = trimmed(chosen, border);
    let from = if chosen[0] == border {
        1int
    } else {
        0int
    };
    assert forall|k: int| 0 <= k < chosen.len() - 1 implies tiles[chosen[k] as int].east
        == tiles[chosen[k + 1] as int].west by {
        lemma_choice_member(swept[k], conf_at(k, swept.len() as int, border));
        lemma_choice_member(swept[k + 1], conf_at(k + 1, swept.len() as int, border));
        assert(swept[k + 1].contains(chosen[k + 1]));
        let pip = tiles[chosen[k + 1] as int].pip(Direction::West);
        assert(pips_of(tiles, swept[k], Direction::East).contains(pip));
        let i = choose|i: int|
            0 <= i < swept[k].len() && tiles[#[trigger] swept[k][i] as int].pip(Direction::East)
                == pip;
        let j = choose|j: int| 0 <= j < swept[k].len() && swept[k][j] == chosen[k];
        assert(unanimous(tiles, swept[k], Direction::East));
        assert(tiles[swept[k][i] as int].pip(Direction::East) == tiles[swept[k][j] as int].pip(
            Direction::East,
        ));
    }
    let laid = tiles_at(tiles, next);
    assert forall|i: int| 0 <= i < laid.len() - 1 implies (#[trigger] laid[i]).east == laid[i
        + 1].west by {
        assert(next[i] == chosen[from + i]);
        assert(next[i + 1] == chosen[from + i + 1]);
    }
}

/// A sweep is never stuck on the western side of a cloud: each cloud is
/// held against its eastern neighbour before that neighbour is held
/// against it, so some tile of the neighbour fits.
pub proof fn lemma_sweep_stuck_east(tiles: Seq<Tile>, clouds: Seq<Seq<TileRef>>, at: nat)
    requires
        0 < at < clouds.len() ==> clouds[at - 1].len() > 0 && forall|i: int|
            0 <= i < clouds[at - 1].len() ==> pips_of(
                tiles,
                clouds[at as int],
                Direction::West,
            ).contains(tiles[#[trigger] clouds[at - 1][i] as int].pip(Direction::East)),
    ensures
        sweep(tiles, clouds, at) matches Err(stuck) ==> stuck.side == Direction::East,
    decreases clouds.len() - at,
{
    broadcast use vstd::seq_lib::group_filter_ensures;

    if at < clouds.len() {
        let here = clouds[at as int];
        let from_west = if at > 0 {
            narrowed(tiles, here, clouds[at - 1], Direction::West)
        } else {
            here
        };
        if at > 0 {
            let west = clouds[at - 1];
            let pip = tiles[west[0] as int].pip(Direction::East);
            assert(pips_of(tiles, here, Direction::West).contains(pip));
            let i = choose|i: int|
                0 <= i < here.len() && tiles[#[trigger] here[i] as int].pip(Direction::West) == pip;
            assert(pips_of(tiles, west, Direction::East).contains(pip));
            let keep = |r: TileRef|
                pips_of(tiles, west, Direction::East).contains(
                    tiles[r as int].pip(Direction::West),
                );
            assert(keep(here[i]));
            assert(here.filter(keep).contains(here[i]));
            assert(from_west.len() > 0);
        }
        let from_east = if at + 1 < clouds.len() {
            narrowed(tiles, from_west, clouds[at as int + 1], Direction::East)
        } else {
            from_west
        };
        if !(at + 1 < clouds.len() && from_east.len() == 0) {
            let next = clouds.update(at as int, from_east);
            if at + 1 < clouds.len() {
                assert forall|i: int| 0 <= i < next[at as int].len() implies pips_of(
                    tiles,
                    next[at as int + 1],
                    Direction::West,
                ).contains(tiles[#[trigger] next[at as int][i] as int].pip(Direction::East)) by {
                    let r = from_east[i];
                    assert(from_east.contains(r));
                    lemma_retained_member(
                        tiles,
                        from_west,
                        pips_of(tiles, clouds[at as int + 1], Direction::West),
                        Direction::East,
                        r,
                    );
                }
            }
            lemma_sweep_stuck_east(tiles, next, at + 1);
        }
    }
}

} // verus!
