use bones::constraint::RowError;
use bones::io_buffer::IoError;
use bones::tessera::is_self_consistent;
use bones::tessera::ModelFault;
use bones::tessera::MosaicError;
use bones::tessera::Program;
use bones::tiling::Domino;
use bones::tiling::Tile;
use bones::tiling::TileRef;

fn pure_set(tiles: &[Tile]) -> Vec<Domino> {
    tiles.iter().map(|tile| Domino::pure(*tile)).collect()
}

fn fits_side_by_side(row: &[Tile]) -> bool {
    row.windows(2).all(|pair| pair[0].east == pair[1].west)
}

#[test]
fn set_and_shift_program() {
    let border = Tile::new(0, 0, 0, 0);
    let starter_tile = Tile::new(0, 0, 10, 0);
    let set_and_shift = Tile::new(10, 7, 1, 0);
    let stay_set = Tile::new(1, 0, 1, 0);
    let shift_and_repeat = Tile::new(0, 0, 10, 7);
    let set: Vec<Domino> = vec![
        border,
        starter_tile,
        set_and_shift,
        stay_set,
        shift_and_repeat,
    ]
    .into_iter()
    .map(Domino::pure)
    .collect();
    let init: Vec<Tile> = vec![starter_tile];
    let mut board = Program::new(set, border, init).expect("should construct successfully");

    for _ in 0..3 {
        board.step().expect("should step successfully");
    }

    let state: Vec<TileRef> = vec![stay_set, stay_set, set_and_shift, shift_and_repeat]
        .iter()
        .map(|tile| board.pile().get(tile).expect("tile present"))
        .collect();
    assert_eq!(&state, board.state_refs());
    assert_eq!(
        board.state(),
        vec![stay_set, stay_set, set_and_shift, shift_and_repeat]
    );
    assert_eq!(board.border(), border);
}

#[test]
fn every_row_of_set_and_shift_fits_side_by_side() {
    let border = Tile::new(0, 0, 0, 0);
    let starter_tile = Tile::new(0, 0, 10, 0);
    let set = pure_set(&[
        border,
        starter_tile,
        Tile::new(10, 7, 1, 0),
        Tile::new(1, 0, 1, 0),
        Tile::new(0, 0, 10, 7),
    ]);
    let mut board = Program::new(set, border, vec![starter_tile]).expect("a machine");
    assert!(is_self_consistent(&board.state(), &border));
    for step in 0..40 {
        board.step().expect("should step successfully");
        let row = board.state();
        assert_eq!(row.len(), step + 2);
        assert!(fits_side_by_side(&row));
        assert!(is_self_consistent(&row, &border));
    }
}

#[test]
fn an_impossible_initial_bit_cannot_be_stepped() {
    let border = Tile::new(0, 0, 0, 0);
    let bad_starter_tile = Tile::new(0, 0, 0xbad, 0);
    let set = pure_set(&[
        border,
        bad_starter_tile,
        Tile::new(10, 7, 1, 0),
        Tile::new(1, 0, 1, 0),
        Tile::new(0, 0, 10, 7),
    ]);
    let mut board = Program::new(set, border, vec![bad_starter_tile]).expect("a machine");
    let before = board.state_refs().clone();
    match board.step() {
        Err(MosaicError::Row(RowError::UnsatisfiableConstraints { context })) => {
            assert_eq!(context, "eastern: cloud 0: TileCloud(), other: TileCloud()")
        }
        other => panic!("expected an error, have {:?}", other),
    }
    // The row is as it was, and the step fails again.
    assert_eq!(&before, board.state_refs());
    assert!(matches!(
        board.step(),
        Err(MosaicError::Row(RowError::UnsatisfiableConstraints { .. }))
    ));
}

#[test]
fn an_empty_initial_row_is_no_model() {
    let border = Tile::new(0, 0, 0, 0);
    let built = Program::new(pure_set(&[border]), border, Vec::new());
    assert!(matches!(
        built,
        Err(MosaicError::InvalidModel(ModelFault::EmptyInitialState))
    ));
    // Of an empty row and a missing border, the empty row is reported.
    let built = Program::new(Vec::new(), border, Vec::new());
    assert!(matches!(
        built,
        Err(MosaicError::InvalidModel(ModelFault::EmptyInitialState))
    ));
}

#[test]
fn the_faults_of_a_model_are_reported_in_order() {
    let border = Tile::new(0, 0, 0, 0);
    let start = Tile::new(0, 0, 10, 0);
    let stranger = Tile::new(4, 4, 4, 4);
    let main = Tile::new(1, 2, 3, 4);
    let good = [Tile::new(1, 2, 30, 4), Tile::new(1, 2, 31, 4)];
    let bad = [Tile::new(1, 2, 30, 4), Tile::new(1, 9, 31, 4)];

    let built = Program::new(pure_set(&[start]), border, vec![start]);
    assert!(matches!(
        built,
        Err(MosaicError::InvalidModel(ModelFault::InvalidTileBorder { tile })) if tile == border
    ));

    let built = Program::new(pure_set(&[border, start]), border, vec![start, stranger, main]);
    assert!(matches!(
        built,
        Err(MosaicError::InvalidModel(ModelFault::InvalidTile { tile })) if tile == stranger
    ));

    let mut set = pure_set(&[border, start]);
    set.push(Domino::input(main, good));
    set.push(Domino::input(Tile::new(5, 2, 3, 4), bad));
    let built = Program::new(set, border, vec![start]);
    assert!(matches!(
        built,
        Err(MosaicError::InvalidModel(ModelFault::DivergentAlternate { tile }))
            if tile == Tile::new(5, 2, 3, 4)
    ));

    // Neighbours that do not fit.
    let left = Tile::new(0, 5, 0, 0);
    let right = Tile::new(0, 0, 0, 6);
    let built = Program::new(pure_set(&[border, left, right]), border, vec![left, right]);
    assert!(matches!(
        built,
        Err(MosaicError::InvalidModel(ModelFault::InconsistentState))
    ));
    // An end that does not fit the border.
    let built = Program::new(pure_set(&[border, left, right]), border, vec![left]);
    assert!(matches!(
        built,
        Err(MosaicError::InvalidModel(ModelFault::InconsistentState))
    ));
    let built = Program::new(pure_set(&[border, left, right]), border, vec![right]);
    assert!(matches!(
        built,
        Err(MosaicError::InvalidModel(ModelFault::InconsistentState))
    ));

    let mut set = pure_set(&[border, start]);
    set.push(Domino::input(main, good));
    let built = Program::new(set, border, vec![start]).expect("a machine");
    assert_eq!(built.state(), vec![start]);
    assert_eq!(built.border(), border);
    assert_eq!(built.border_ref(), built.pile().get(&border).expect("the border"));
}

#[test]
fn self_consistency_of_rows() {
    let border = Tile::new(8, 1, 8, 2);
    let a = Tile::new(0, 5, 0, 1);
    let b = Tile::new(0, 2, 0, 5);
    assert!(is_self_consistent(&vec![a, b], &border));
    assert!(!is_self_consistent(&vec![b, a], &border));
    assert!(!is_self_consistent(&vec![a], &border));
    assert!(is_self_consistent(&Vec::new(), &border));
    assert!(is_self_consistent(&vec![Tile::new(3, 2, 3, 1)], &border));
}

// The eight tiles of rule 110: the north pip is the value of a cell, the
// south pip its next value, and the west and east pips name the values of
// the cell and of its neighbour on that side.
fn rule_110_tile(left: bool, center: bool, right: bool) -> Tile {
    match (left, center, right) {
        (false, false, false) => Tile::new(0, 0, 0, 0),
        (true, true, true) => Tile::new(1, 1, 0, 1),
        (false, false, true) => Tile::new(0, 2, 1, 0),
        (true, true, false) => Tile::new(1, 3, 1, 1),
        (true, false, false) => Tile::new(0, 0, 0, 3),
        (false, true, true) => Tile::new(1, 1, 1, 2),
        (true, false, true) => Tile::new(0, 2, 1, 3),
        (false, true, false) => Tile::new(1, 3, 1, 2),
    }
}

#[test]
fn rule_110_seed() {
    let n229 = Tile::new(0, 0, 0, 0);
    let n44 = Tile::new(1, 1, 0, 1);
    let n3158 = Tile::new(0, 2, 1, 0);
    let n54 = Tile::new(1, 3, 1, 1);
    let n1538 = Tile::new(0, 0, 0, 3);
    let n1539 = Tile::new(1, 1, 1, 2);
    let n14876 = Tile::new(0, 2, 1, 3);
    let n18144 = Tile::new(1, 3, 1, 2);
    let x = 4;
    let y = 5;
    let tiles = [
        n229,
        n44,
        n3158,
        n54,
        n1538,
        n1539,
        n14876,
        n18144,
        Tile::new(y, x, 1, x),
        Tile::new(y, x, 0, x),
        Tile::new(0, x, y, x),
        Tile::new(y, x, 0, 0),
        Tile::new(y, x, 1, 0),
        Tile::new(y, 0, 0, x),
        Tile::new(y, 0, 1, x),
    ];
    let initial = vec![tiles[2], tiles[5], tiles[3], tiles[4]];
    let mut program = Program::new(pure_set(&tiles), n229, initial.clone()).expect("a machine");
    assert_eq!(program.state(), vec![n3158, n1539, n54, n1538]);

    // The first generations, as the tiles lay them down.
    program.step().expect("generation 1");
    assert_eq!(program.state(), vec![n3158, n1539, n44, n54, n1538]);
    program.step().expect("generation 2");
    assert_eq!(program.state(), vec![n3158, n1539, n54, n14876, n18144, n1538]);

    // And against the rule itself, cell by cell.
    let mut program = Program::new(pure_set(&tiles), n229, initial).expect("a machine");
    let mut cells: Vec<bool> = program.state().iter().map(|tile| tile.north == 1).collect();
    for generation in 0..24 {
        // Among quiescent cells the next row holds a tile for each cell and
        // for the cell beside either end, unless that tile is the border.
        let mut wide = vec![false, false];
        wide.extend(cells.iter().copied());
        wide.push(false);
        wide.push(false);
        let next: Vec<bool> = (1..wide.len() - 1)
            .map(|at| rule_110_tile(wide[at - 1], wide[at], wide[at + 1]).south == 1)
            .collect();
        let mut next_wide = vec![false];
        next_wide.extend(next.iter().copied());
        next_wide.push(false);
        let mut expected: Vec<Tile> = (1..next_wide.len() - 1)
            .map(|at| rule_110_tile(next_wide[at - 1], next_wide[at], next_wide[at + 1]))
            .collect();
        let mut kept = next.clone();
        if *expected.last().expect("a tile") == n229 {
            expected.pop();
            kept.pop();
        }
        if expected[0] == n229 {
            expected.remove(0);
            kept.remove(0);
        }
        program.step().unwrap_or_else(|e| panic!("generation {}: {:?}", generation + 1, e));
        assert_eq!(program.state(), expected, "generation {}", generation + 1);
        assert!(fits_side_by_side(&program.state()));
        cells = kept;
    }
}

fn echo_machine() -> (Program, [Tile; 6]) {
    let border = Tile::new(0, 0, 0, 0);
    let start = Tile::new(0, 0, 10, 0);
    let read = Tile::new(10, 0, 99, 0);
    let zero = Tile::new(10, 0, 20, 0);
    let one = Tile::new(10, 0, 21, 0);
    let write_zero = Tile::new(20, 0, 10, 0);
    let write_one = Tile::new(21, 0, 10, 0);
    let set = vec![
        Domino::pure(border),
        Domino::pure(start),
        Domino::input(read, [zero, one]),
        Domino::output(write_zero, false),
        Domino::output(write_one, true),
    ];
    let program = Program::new(set, border, vec![start]).expect("a machine");
    (program, [start, read, zero, one, write_zero, write_one])
}

#[test]
fn input_tiles_give_way_to_the_alternate_of_the_bit_read() {
    let (mut program, [_, _, zero, one, write_zero, write_one]) = echo_machine();
    program.feed_input(0b0000_0110);
    let mut rows = Vec::new();
    for _ in 0..8 {
        program.step().expect("a step");
        rows.push(program.state()[0]);
    }
    assert_eq!(
        rows,
        vec![zero, write_zero, one, write_one, one, write_one, zero, write_zero]
    );
    assert_eq!(
        program.io().written_bits(),
        vec![false, true, true, false]
    );
    assert_eq!(program.take_output(), Vec::<u8>::new());
    for _ in 0..8 {
        program.step().expect("a step");
    }
    assert_eq!(program.take_output(), vec![0b0000_0110]);
    assert!(program.io().written_bits().is_empty());
}

#[test]
fn a_step_without_input_fails_and_changes_nothing() {
    let (mut program, [start, _, _, one, _, write_one]) = echo_machine();
    assert_eq!(program.state(), vec![start]);
    for _ in 0..3 {
        assert!(matches!(
            program.step(),
            Err(MosaicError::Io(IoError::UnexpectedEof))
        ));
        assert_eq!(program.state(), vec![start]);
        assert!(program.io().written_bits().is_empty());
    }
    program.feed_input(0xff);
    assert!(program.step().is_ok());
    assert_eq!(program.state(), vec![one]);
    assert!(program.step().is_ok());
    assert_eq!(program.state(), vec![write_one]);
    assert_eq!(program.io().written_bits(), vec![true]);
}

#[test]
fn the_side_effects_of_a_row_are_had_from_west_to_east() {
    let border = Tile::new(0, 0, 0, 0);
    let seed = Tile::new(0, 0, 5, 0);
    let west_main = Tile::new(0, 7, 90, 0);
    let west_alts = [Tile::new(0, 7, 91, 0), Tile::new(0, 7, 92, 0)];
    let middle = Tile::new(5, 8, 6, 7);
    let east_main = Tile::new(0, 0, 90, 8);
    let east_alts = [Tile::new(0, 0, 93, 8), Tile::new(0, 0, 94, 8)];
    let set = vec![
        Domino::pure(border),
        Domino::pure(seed),
        Domino::input(west_main, west_alts),
        Domino::output(middle, true),
        Domino::input(east_main, east_alts),
    ];
    let mut program = Program::new(set, border, vec![seed]).expect("a machine");
    program.feed_input(0b0000_0001);
    // Without a bit for each of the two input tiles of the next row no step is made.
    let mut short = Program::new(
        vec![
            Domino::pure(border),
            Domino::pure(seed),
            Domino::input(west_main, west_alts),
            Domino::output(middle, true),
            Domino::input(east_main, east_alts),
        ],
        border,
        vec![seed],
    )
    .expect("a machine");
    assert!(matches!(short.step(), Err(MosaicError::Io(IoError::UnexpectedEof))));
    assert!(short.io().written_bits().is_empty());
    assert_eq!(short.state(), vec![seed]);
    // With a byte, the western tile reads the first bit and the eastern the second.
    program.step().expect("a step");
    assert_eq!(program.state(), vec![west_alts[1], middle, east_alts[0]]);
    assert_eq!(program.io().written_bits(), vec![true]);
    assert!(program.io().has_input(6));
    assert!(!program.io().has_input(7));
}
