use bones::tiling::pip_from_components;
use bones::tiling::Direction;
use bones::tiling::Domino;
use bones::tiling::DominoPile;
use bones::tiling::PileError;
use bones::tiling::PurityBias;
use bones::tiling::SideEffects;
use bones::tiling::Tile;
use bones::tiling::TileRef;
use bones::tiling::EMPTY_PIP;
use bones::tiling::ONE_PIP;
use bones::tiling::UNALLOCATED_PIP;
use bones::tiling::ZERO_PIP;
use std::cmp::Ordering;

#[derive(Copy, Clone, Debug, PartialEq, Eq, Hash)]
enum LookingFor {
    Out,
    In,
    Pure,
    Hidden,
}

fn pile_of(tiles: &[Tile]) -> DominoPile {
    DominoPile::new(tiles.iter().map(|tile| Domino::pure(*tile)).collect()).expect("a small pile")
}

#[test]
fn make_tile() {
    let (north, east, south, west) = (0, 1, 2, 3);
    let tile = Tile::new(north, east, south, west);

    assert!(tile.cardinal(&Direction::North) == north);
    assert!(tile.cardinal(&Direction::East) == east);
    assert!(tile.cardinal(&Direction::South) == south);
    assert!(tile.cardinal(&Direction::West) == west);
}

#[test]
fn direction_negation() {
    let (n, e, s, w) = (
        Direction::North,
        Direction::East,
        Direction::South,
        Direction::West,
    );
    assert!(n == -s);
    assert!(e == -w);
    assert!(s == -n);
    assert!(w == -e);
}

#[test]
fn tile_to_ref() {
    let tile = Tile::new(0, 0, 0, 0);
    let dominoes = vec![tile].into_iter().map(Domino::pure).collect();
    let pile = DominoPile::new(dominoes).expect("a small pile");

    let tile_ref = pile.get(&tile).expect("tile should be present");
    assert!(tile == pile[tile_ref]);
}

#[test]
fn matches() {
    let pip0 = 0;
    let pip1 = 1;
    let fancy = Tile::new(pip0, pip1, pip0, pip1);
    let zero = Tile::new(pip0, 100, 100, 100);
    let tiles = vec![fancy, zero];
    let dominoes = tiles.clone().into_iter().map(Domino::pure).collect();
    let pile = DominoPile::new(dominoes).expect("a small pile");
    let tile_refs: Vec<TileRef> = tiles
        .iter()
        .map(|tile| pile.get(tile).expect("tile should be present"))
        .collect();

    // Assume pip0 is the southernmost pip. This means it will attempt to match it with
    // northern pips.
    let matches = pile.matches_pip(&pip0, Direction::South);
    assert!(matches.len() == 2);
    for r in tile_refs.iter() {
        assert!(matches.contains(r));
    }

    // Take the southernmost pip from fancy and find all the (northern) matches
    let matches = pile.matches_tile(&fancy, Direction::South);
    assert!(matches.len() == 2);
    for r in tile_refs.iter() {
        assert!(matches.contains(r));
    }

    // Take the northernmost pip from fancy and find all the (southern) matches
    let matches = pile.matches_tile(&fancy, Direction::North);
    assert!(matches.len() == 1);
    assert!(pile[matches[0]] == fancy);

    // Take any reference and verify the east/west pips match up.
    let chosen_ref = tile_refs[0];
    let chosen_tile = pile[chosen_ref];
    let matches = pile.matches(&chosen_ref, Direction::West);
    assert!(matches.len() == 1);
    assert!(pile[matches[0]] == chosen_tile);
}

#[test]
fn watermark_border() {
    let doms = vec![
        Domino::pure(Tile::new(0, 0, 0, 0)),
        Domino::pure(Tile::new(0, 0, 0, 0)),
        Domino::pure(Tile::new(0, 0, 0, 0)),
        Domino::input(
            Tile::new(1, 1, 1, 1),
            [Tile::new(255, 255, 255, 255), Tile::new(127, 127, 127, 127)],
        ),
        Domino::pure(Tile::new(0, 0, 0, 0)),
        Domino::pure(Tile::new(0, 0, 0, 0)),
        Domino::output(Tile::new(2, 2, 2, 2), false),
        Domino::pure(Tile::new(0, 0, 0, 0)),
    ];

    let pile = DominoPile::new(doms).expect("a small pile");
    let watermark = pile.impure_watermark();

    match pile.get_side_effects(&watermark) {
        SideEffects::Pure(_) => (),
        _ => panic!("At and above the watermark should be pure Tiles!"),
    };

    let below = pile.get_side_effects(&(watermark - 1));
    match below {
        SideEffects::Pure(_) => panic!("Beneath the watermark should be impure Tiles!"),
        _ => (),
    };
}

#[test]
fn essence_ordering() {
    let doms = vec![
        Domino::pure(Tile::new(0, 0, 0, 0)),
        Domino::input(
            Tile::new(1, 1, 1, 1),
            [Tile::new(255, 255, 255, 255), Tile::new(127, 127, 127, 127)],
        ),
        Domino::output(Tile::new(2, 2, 2, 2), false),
    ];

    let pile = DominoPile::new(doms).expect("a small pile");
    let mut state = LookingFor::Out;
    for at in 0..pile.len() {
        let tile = &pile[at as TileRef];
        if state == LookingFor::Out {
            match pile.get_tile_side_effects(tile) {
                SideEffects::Out(_) => (),
                _ => {
                    state = LookingFor::In;
                    ()
                }
            };
        } else if state == LookingFor::In {
            match pile.get_tile_side_effects(tile) {
                SideEffects::In(_) => (),
                SideEffects::Out(_) => panic!("DominoPile::buffer is misordered"),
                SideEffects::Pure(_) => {
                    state = LookingFor::Pure;
                    ()
                }
            };
        } else if state == LookingFor::Pure {
            match pile.get_tile_side_effects(tile) {
                SideEffects::Pure(PurityBias::Nothing) => (),
                SideEffects::Pure(PurityBias::Hidden) => {
                    state = LookingFor::Hidden;
                    ()
                }
                _ => panic!("DominoPile::buffer is misordered"),
            };
        } else if state == LookingFor::Hidden {
            match pile.get_tile_side_effects(tile) {
                SideEffects::Pure(PurityBias::Hidden) => (),
                _ => panic!("DominoPile::buffer is misordered"),
            }
        } else {
            panic!("Test is broken. Fix the state transitions");
        }
    }
    assert_eq!(state, LookingFor::Hidden);
}

#[test]
fn pip_namespace() {
    assert_eq!(EMPTY_PIP, 0);
    assert_eq!(ZERO_PIP, 0);
    assert_eq!(ONE_PIP, 1);
    assert_eq!(UNALLOCATED_PIP, (u32::MAX >> 1) as usize);
}

#[test]
fn pip_of_position_and_bit() {
    assert_eq!(pip_from_components(1, 0), 2);
    assert_eq!(pip_from_components(1, 1), 3);
    assert_eq!(pip_from_components(5, 0), 10);
    assert_eq!(pip_from_components(5, 1), 11);
    // Only the lowest bit of the value counts.
    assert_eq!(pip_from_components(5, 3), 11);
    assert_eq!(pip_from_components(5, 2), 10);
}

#[test]
fn side_effects_order_by_tag_alone() {
    let out: SideEffects<Tile> = SideEffects::Out(true);
    let other_out: SideEffects<Tile> = SideEffects::Out(false);
    let input: SideEffects<Tile> = SideEffects::In([Tile::new(1, 2, 3, 4), Tile::new(1, 2, 5, 4)]);
    let pure: SideEffects<Tile> = SideEffects::Pure(PurityBias::Nothing);
    let hidden: SideEffects<Tile> = SideEffects::Pure(PurityBias::Hidden);
    assert_eq!(out.cmp(&input), Ordering::Less);
    assert_eq!(out.cmp(&pure), Ordering::Less);
    assert_eq!(input.cmp(&pure), Ordering::Less);
    assert_eq!(input.cmp(&out), Ordering::Greater);
    assert_eq!(pure.cmp(&out), Ordering::Greater);
    assert_eq!(pure.cmp(&input), Ordering::Greater);
    assert_eq!(out.cmp(&other_out), Ordering::Equal);
    assert_eq!(pure.cmp(&hidden), Ordering::Equal);
    assert!(out < input && input < pure && out < pure);
    assert!(!(pure < hidden) && pure <= hidden && pure >= hidden);
    assert_eq!(input.partial_cmp(&out), Some(Ordering::Greater));
    assert!(input.is_input() && !input.is_output());
    assert!(out.is_output() && !out.is_input());
    assert!(!pure.is_input() && !pure.is_output());
}

#[test]
fn pile_is_sorted_stably_with_alternates_last() {
    let a = Tile::new(10, 0, 0, 0);
    let b = Tile::new(11, 0, 0, 0);
    let in1 = Tile::new(20, 0, 0, 0);
    let in1_alts = [Tile::new(20, 0, 1, 0), Tile::new(20, 0, 2, 0)];
    let in2 = Tile::new(21, 0, 0, 0);
    let in2_alts = [Tile::new(21, 0, 3, 0), Tile::new(21, 0, 4, 0)];
    let out1 = Tile::new(30, 0, 0, 0);
    let out2 = Tile::new(31, 0, 0, 0);
    let doms = vec![
        Domino::pure(a),
        Domino::input(in1, in1_alts),
        Domino::output(out1, true),
        Domino::pure(b),
        Domino::output(out2, false),
        Domino::input(in2, in2_alts),
    ];
    let pile = DominoPile::new(doms).expect("a small pile");
    let expected = vec![
        out1,
        out2,
        in1,
        in2,
        a,
        b,
        in1_alts[0],
        in1_alts[1],
        in2_alts[0],
        in2_alts[1],
    ];
    assert_eq!(pile.len(), expected.len());
    for (at, tile) in expected.iter().enumerate() {
        assert_eq!(pile[at as TileRef], *tile);
    }
    assert_eq!(pile.output_len(), 2);
    assert_eq!(pile.impure_watermark(), 4);
    assert_eq!(pile.hidden_watermark(), 6);
    assert_eq!(pile.get_side_effects(&0), SideEffects::Out(true));
    assert_eq!(pile.get_side_effects(&1), SideEffects::Out(false));
    assert_eq!(pile.get_side_effects(&2), SideEffects::In([6, 7]));
    assert_eq!(pile.get_side_effects(&3), SideEffects::In([8, 9]));
    assert_eq!(pile.get_side_effects(&4), SideEffects::Pure(PurityBias::Nothing));
    assert_eq!(pile.get_side_effects(&5), SideEffects::Pure(PurityBias::Nothing));
    for hidden in 6..10 {
        assert_eq!(pile.get_side_effects(&hidden), SideEffects::Pure(PurityBias::Hidden));
    }
    // A reference beyond the pile counts as hidden.
    assert_eq!(pile.get_side_effects(&1000), SideEffects::Pure(PurityBias::Hidden));
}

#[test]
fn side_effects_never_go_down_along_the_pile() {
    let doms = vec![
        Domino::pure(Tile::new(1, 0, 0, 0)),
        Domino::output(Tile::new(2, 0, 0, 0), true),
        Domino::input(Tile::new(3, 0, 0, 0), [Tile::new(3, 0, 1, 0), Tile::new(3, 0, 2, 0)]),
        Domino::pure(Tile::new(4, 0, 0, 0)),
        Domino::output(Tile::new(5, 0, 0, 0), false),
    ];
    let pile = DominoPile::new(doms).expect("a small pile");
    let n = pile.len() as TileRef;
    let mut seen_hidden = false;
    for r in 0..n {
        let here = pile.get_side_effects(&r);
        if here == SideEffects::Pure(PurityBias::Hidden) {
            seen_hidden = true;
        } else {
            assert!(!seen_hidden);
        }
        for later in (r + 1)..n {
            assert_ne!(here.cmp(&pile.get_side_effects(&later)), Ordering::Greater);
        }
    }
    assert!(seen_hidden);
}

#[test]
fn get_gives_the_last_place_of_a_tile() {
    let twice = Tile::new(7, 7, 7, 7);
    let once = Tile::new(8, 8, 8, 8);
    let pile = pile_of(&[twice, once, twice]);
    assert_eq!(pile.get(&twice), Some(2));
    assert_eq!(pile.get(&once), Some(1));
    assert_eq!(pile.get(&Tile::new(9, 9, 9, 9)), None);
}

#[test]
fn matches_are_exactly_the_tiles_with_the_facing_pip() {
    let tiles = [
        Tile::new(1, 2, 3, 4),
        Tile::new(3, 4, 1, 2),
        Tile::new(3, 9, 9, 2),
        Tile::new(5, 2, 3, 9),
        Tile::new(1, 2, 3, 4),
    ];
    let pile = pile_of(&tiles);
    for r in 0..tiles.len() as TileRef {
        for direction in [Direction::North, Direction::East, Direction::South, Direction::West] {
            let found = pile.matches(&r, direction);
            let pip = tiles[r as usize].cardinal(&direction);
            let expected: Vec<TileRef> = (0..tiles.len() as TileRef)
                .filter(|other| tiles[*other as usize].cardinal(&-direction) == pip)
                .collect();
            assert_eq!(found, expected);
        }
    }
    assert_eq!(pile.matches(&0, Direction::South), vec![1, 2]);
    assert_eq!(pile.matches(&0, Direction::East), vec![1, 2]);
    assert_eq!(pile.matches(&1, Direction::North), vec![0, 3, 4]);
}

#[test]
fn an_empty_set_makes_an_empty_pile() {
    let pile = DominoPile::new(Vec::new()).expect("an empty pile");
    assert_eq!(pile.len(), 0);
    assert_eq!(pile.impure_watermark(), 0);
    assert_eq!(pile.hidden_watermark(), 0);
    assert_eq!(pile.get(&Tile::new(0, 0, 0, 0)), None);
    assert!(pile.matches_pip(&0, Direction::North).is_empty());
    assert!(!matches!(DominoPile::new(Vec::new()), Err(PileError::TooManyTiles)));
}

#[test]
fn tiles_and_dominoes_in_writing() {
    assert_eq!(Direction::North.to_string(), "North");
    assert_eq!(Direction::East.to_string(), "East");
    assert_eq!(Direction::South.to_string(), "South");
    assert_eq!(Direction::West.to_string(), "West");
    let tile = Tile::new(0, 0xdead, UNALLOCATED_PIP, 0x10);
    assert_eq!(tile.to_string(), "Tile(0, dead, U, 10)");
    assert_eq!(Tile::new(9, 10, 15, 16).to_string(), "Tile(9, a, f, 10)");
    assert_eq!(
        Tile::new(UNALLOCATED_PIP - 1, UNALLOCATED_PIP + 1, 0xffff_ffff, 0x1234_abcd).to_string(),
        "Tile(7ffffffe, 80000000, ffffffff, 1234abcd)"
    );
    let pure: SideEffects<Tile> = SideEffects::Pure(PurityBias::Nothing);
    let hidden: SideEffects<Tile> = SideEffects::Pure(PurityBias::Hidden);
    let input: SideEffects<Tile> = SideEffects::In([tile, tile]);
    let output: SideEffects<Tile> = SideEffects::Out(true);
    assert_eq!(pure.to_string(), "Pure");
    assert_eq!(hidden.to_string(), "Pure(hidden)");
    assert_eq!(input.to_string(), "In");
    assert_eq!(output.to_string(), "Out");
    assert_eq!(Domino::pure(tile).to_string(), "Domino(Pure, Tile(0, dead, U, 10))");
    assert_eq!(Domino::output(tile, false).to_string(), "Domino(Out, Tile(0, dead, U, 10))");
    assert_eq!(Domino::input(tile, [tile, tile]).to_string(), "Domino(In, Tile(0, dead, U, 10))");
}

#[test]
fn a_pile_in_writing() {
    assert_eq!(pile_of(&[]).to_string(), "DominoPile()");
    assert_eq!(pile_of(&[Tile::new(1, 2, 3, 4)]).to_string(), "DominoPile(Tile(1, 2, 3, 4))");
    let pile = DominoPile::new(vec![
        Domino::pure(Tile::new(1, 2, 3, 4)),
        Domino::input(Tile::new(5, 0, 6, 0), [Tile::new(5, 0, 7, 0), Tile::new(5, 0, 8, 0)]),
    ])
    .expect("a small pile");
    assert_eq!(
        pile.to_string(),
        "DominoPile(Tile(5, 0, 6, 0), Tile(1, 2, 3, 4), Tile(5, 0, 7, 0), Tile(5, 0, 8, 0))"
    );
}
