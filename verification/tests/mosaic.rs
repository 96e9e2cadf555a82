use bones::compiler::CompileError;
use bones::mosaic::DapperTile;
use bones::mosaic::LoadError;
use bones::mosaic::Mosaic;
use bones::mosaic::TileRetrieval;
use bones::tessera::MosaicError;
use bones::tessera::Program;
use bones::tiling::Domino;
use bones::tiling::Tile;
use bones::tiling::UNALLOCATED_PIP;
use bones::wmach::WmachErr;

const U: usize = UNALLOCATED_PIP;

fn walk(mosaic: &mut Mosaic, rows: (i32, i32), cols: (i32, i32), options: TileRetrieval) -> Vec<DapperTile> {
    let certificate = mosaic.compute(rows.0, rows.1, cols.0, cols.1).expect("a certificate");
    let mut view = mosaic.tile_range(certificate, options);
    let mut found = Vec::new();
    while let Some(tile) = view.next() {
        found.push(tile);
    }
    assert!(view.next().is_none());
    found
}

#[test]
fn a_mosaic_begins_with_the_first_row() {
    let mosaic = Mosaic::new("+").expect("a mosaic");
    let border = Tile::new(U, U, U, U);
    for options in [TileRetrieval::OnlyComputed, TileRetrieval::IncludeBorder] {
        assert_eq!(mosaic.get_tile(0, 0, &options).map(|t| t.south), Some(0));
        assert_eq!(mosaic.get_tile(1, 0, &options).map(|t| t.south), Some(2));
        assert_eq!(mosaic.get_tile(2, 0, &options).map(|t| t.south), Some(0));
        // Of a row that is not laid down nothing is known.
        assert_eq!(mosaic.get_tile(0, 1, &options), None);
    }
    assert_eq!(mosaic.get_tile(-1, 0, &TileRetrieval::OnlyComputed), None);
    assert_eq!(mosaic.get_tile(3, 0, &TileRetrieval::OnlyComputed), None);
    assert_eq!(mosaic.get_tile(-1, 0, &TileRetrieval::IncludeBorder), Some(border));
    assert_eq!(mosaic.get_tile(3, 0, &TileRetrieval::IncludeBorder), Some(border));
    assert_eq!(mosaic.get_tile(i32::MAX, 0, &TileRetrieval::IncludeBorder), Some(border));
    assert_eq!(mosaic.get_tile(i32::MIN, 0, &TileRetrieval::IncludeBorder), Some(border));
    // Time does not go backward.
    assert_eq!(mosaic.get_tile(1, -1, &TileRetrieval::OnlyComputed), None);
    assert_eq!(mosaic.get_tile(1, -1, &TileRetrieval::IncludeBorder), Some(border));
    assert_eq!(mosaic.get_tile(1, i32::MIN, &TileRetrieval::IncludeBorder), Some(border));
}

#[test]
fn a_source_that_is_no_program_makes_no_mosaic() {
    assert!(matches!(
        Mosaic::new("+ ?"),
        Err(LoadError::Parse(WmachErr::GeneralError { .. }))
    ));
    assert!(matches!(
        Mosaic::new("a: a:"),
        Err(LoadError::Parse(WmachErr::DuplicateLabel { .. }))
    ));
    assert!(matches!(
        Mosaic::new("jmp a"),
        Err(LoadError::Parse(WmachErr::UnknownTarget { .. }))
    ));
    let long = "+".repeat(28501);
    assert!(matches!(
        Mosaic::new(&long),
        Err(LoadError::Compile(CompileError::PipSpaceExhausted))
    ));
    assert!(Mosaic::new(&long[1..]).is_ok());
}

#[test]
fn rows_that_grow_to_the_west_begin_at_lower_columns() {
    let mut mosaic = Mosaic::new("<<<+").expect("a mosaic");
    let certificate = mosaic.compute(-10, 10, 0, 4).expect("a certificate");
    let view = mosaic.tile_range(certificate, TileRetrieval::OnlyComputed);
    drop(view);
    let first = |mosaic: &Mosaic, col: i32| -> i32 {
        (-10..10)
            .find(|row| mosaic.get_tile(*row, col, &TileRetrieval::OnlyComputed).is_some())
            .expect("a tile")
    };
    let count = |mosaic: &Mosaic, col: i32| -> usize {
        (-10..20)
            .filter(|row| mosaic.get_tile(*row, col, &TileRetrieval::OnlyComputed).is_some())
            .count()
    };
    // The first row; the row with an alcove at either end; the head on the
    // western alcove; the head beyond it; and a new alcove west of the head.
    assert_eq!((first(&mosaic, 0), count(&mosaic, 0)), (0, 3));
    assert_eq!((first(&mosaic, 1), count(&mosaic, 1)), (-1, 5));
    assert_eq!((first(&mosaic, 2), count(&mosaic, 2)), (-1, 5));
    assert_eq!((first(&mosaic, 3), count(&mosaic, 3)), (-2, 6));
    assert_eq!((first(&mosaic, 4), count(&mosaic, 4)), (-3, 7));
    // Each tile lies below the tile whose south pip it carries.
    for col in 1..5 {
        for row in -10..20 {
            let here = mosaic.get_tile(row, col, &TileRetrieval::OnlyComputed);
            let above = mosaic.get_tile(row, col - 1, &TileRetrieval::OnlyComputed);
            if let (Some(here), Some(above)) = (here, above) {
                assert_eq!(here.north, above.south, "column {} of row {}", row, col);
            }
        }
    }
}

#[test]
fn rows_that_grow_to_the_east_keep_their_column() {
    let mut mosaic = Mosaic::new(">>>").expect("a mosaic");
    mosaic.compute(0, 0, 0, 3).expect("a certificate");
    let cells = |mosaic: &Mosaic, col: i32| -> Vec<i32> {
        (-10..20)
            .filter(|row| mosaic.get_tile(*row, col, &TileRetrieval::OnlyComputed).is_some())
            .collect()
    };
    assert_eq!(cells(&mosaic, 0), vec![0, 1, 2]);
    assert_eq!(cells(&mosaic, 1), vec![-1, 0, 1, 2, 3]);
    assert_eq!(cells(&mosaic, 2), vec![-1, 0, 1, 2, 3]);
    assert_eq!(cells(&mosaic, 3), vec![-1, 0, 1, 2, 3, 4]);
}

#[test]
fn compute_stops_when_the_machine_halts() {
    let mut mosaic = Mosaic::new("+-").expect("a mosaic");
    assert_eq!(walk(&mut mosaic, (0, 2), (0, 0), TileRetrieval::OnlyComputed).len(), 3);
    // Rows 0 to 2 are laid down; the third step fails.
    let found = walk(&mut mosaic, (-1, 3), (0, 10), TileRetrieval::OnlyComputed);
    assert_eq!(found.len(), 3 + 5 + 5);
    assert_eq!(found[0].coord, (0, 0));
    assert_eq!(found[2].coord, (2, 0));
    assert_eq!(found[3].coord, (-1, 1));
    assert_eq!(found[3].tile, Tile::new(U, 0, U, U));
    assert_eq!(found[7].coord, (3, 1));
    assert_eq!(found[8].coord, (-1, 2));
    assert_eq!(found[12].coord, (3, 2));
    assert!(mosaic.get_tile(0, 3, &TileRetrieval::IncludeBorder).is_none());
    assert!(matches!(mosaic.step(), Err(MosaicError::Row(_))));
    // A mosaic that has halted lays down no more rows.
    let again = walk(&mut mosaic, (-1, 3), (0, 10), TileRetrieval::OnlyComputed);
    assert_eq!(again.len(), 13);
}

#[test]
fn a_walk_goes_row_by_row_and_may_include_the_void() {
    let mut mosaic = Mosaic::new("+").expect("a mosaic");
    let found = walk(&mut mosaic, (-2, 4), (-1, 1), TileRetrieval::IncludeBorder);
    let coords: Vec<(i32, i32)> = found.iter().map(|tile| tile.coord).collect();
    let mut expected = Vec::new();
    for col in -1..=1 {
        for row in -2..=4 {
            expected.push((row, col));
        }
    }
    assert_eq!(coords, expected);
    let border = Tile::new(U, U, U, U);
    for tile in found.iter() {
        let (row, col) = tile.coord;
        let laid = match col {
            0 => (0..3).contains(&row),
            1 => (-1..4).contains(&row),
            _ => false,
        };
        assert_eq!(tile.tile == border, !laid, "{:?}", tile);
    }
    // Without the void only the tiles that were laid down are found.
    let found = walk(&mut mosaic, (-2, 4), (-1, 1), TileRetrieval::OnlyComputed);
    assert_eq!(found.len(), 3 + 5);
    // A walk whose first column lies east of its last looks at the first column of each row.
    let found = walk(&mut mosaic, (3, 0), (0, 1), TileRetrieval::OnlyComputed);
    assert_eq!(found.len(), 1);
    assert_eq!(found[0].coord, (3, 1));
    assert_eq!(found[0].tile, Tile::new(U, U, U, 0));
    // A walk whose first row lies after its last is over at once.
    assert!(walk(&mut mosaic, (0, 2), (2, 1), TileRetrieval::OnlyComputed).is_empty());
    // A walk goes on to the last row that is laid down, whatever row was asked for.
    let found = walk(&mut mosaic, (1, 1), (0, 0), TileRetrieval::OnlyComputed);
    let coords: Vec<(i32, i32)> = found.iter().map(|tile| tile.coord).collect();
    assert_eq!(coords, vec![(1, 0), (1, 1)]);
}

#[test]
fn a_step_of_the_mosaic_keeps_the_row() {
    let border = Tile::new(0, 0, 0, 0);
    let start = Tile::new(0, 0, 10, 0);
    let a = Tile::new(10, 7, 1, 0);
    let b = Tile::new(1, 0, 1, 0);
    let c = Tile::new(0, 0, 10, 7);
    let set = [border, start, a, b, c].iter().map(|tile| Domino::pure(*tile)).collect();
    let program = Program::new(set, border, vec![start]).expect("a machine");
    let mut mosaic = Mosaic::from_program(program);
    for _ in 0..3 {
        mosaic.step().expect("a step");
    }
    let row = |mosaic: &Mosaic, col: i32| -> Vec<Tile> {
        (0..10)
            .filter_map(|row| mosaic.get_tile(row, col, &TileRetrieval::OnlyComputed))
            .collect()
    };
    assert_eq!(row(&mosaic, 0), vec![start]);
    assert_eq!(row(&mosaic, 1), vec![a, c]);
    assert_eq!(row(&mosaic, 2), vec![b, a, c]);
    assert_eq!(row(&mosaic, 3), vec![b, b, a, c]);
    assert_eq!(mosaic.get_tile(-1, 3, &TileRetrieval::OnlyComputed), None);
    assert_eq!(mosaic.get_tile(0, 4, &TileRetrieval::OnlyComputed), None);
}
