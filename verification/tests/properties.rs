use life_engine::{Board, Cell, CellEvent, CellView, Cells, Coord};
use rand::rngs::StdRng;
use rand::SeedableRng;

fn mean(views: Vec<CellView<u32>>) -> u32 {
    assert_eq!(views.len(), 3);
    views.iter().map(|v| *v.data).sum::<u32>() / 3
}

fn numbered(size: usize) -> Board<u32> {
    Board::new(size, mean)
}

fn plain(size: usize) -> Board {
    Board::new(size, |_cells| ())
}

fn living(board: &Board<u32>) -> Vec<(Coord, u32)> {
    let mut cells: Vec<(Coord, u32)> = board
        .cells()
        .iter()
        .map(|v| (*v.coords, *v.data))
        .collect();
    cells.sort();
    cells
}

fn sorted<D: Ord>(mut events: Vec<CellEvent<D>>) -> Vec<CellEvent<D>> {
    events.sort();
    events
}

fn born(x: i32, y: i32, data: u32) -> CellEvent<u32> {
    CellEvent::Born(Cell {
        coords: Coord(x, y),
        data,
    })
}

fn died(x: i32, y: i32, data: u32) -> CellEvent<u32> {
    CellEvent::Died(Cell {
        coords: Coord(x, y),
        data,
    })
}

#[test]
fn insert_off_the_board_is_refused() {
    let size: usize = 7;
    let mut board = numbered(size);
    assert!(board.insert(Coord(3, 4), 11));
    let before = living(&board);

    assert!(!board.insert(Coord(-1, 0), 1));
    assert!(!board.insert(Coord(size as i32, 0), 2));
    assert!(!board.insert(Coord(0, -1), 3));
    assert!(!board.insert(Coord(0, size as i32), 4));

    assert_eq!(living(&board), before);
    assert_eq!(before, vec![(Coord(3, 4), 11)]);
}

#[test]
fn insert_on_the_edge_is_accepted() {
    let mut board = numbered(7);
    assert!(board.insert(Coord(0, 0), 1));
    assert!(board.insert(Coord(6, 6), 2));
    assert!(board.insert(Coord(0, 6), 3));
    assert!(!board.insert(Coord(7, 7), 4));
    assert_eq!(
        living(&board),
        vec![(Coord(0, 0), 1), (Coord(0, 6), 3), (Coord(6, 6), 2)]
    );
}

#[test]
fn board_of_side_zero_holds_nothing() {
    let mut board = numbered(0);
    assert!(!board.insert(Coord(0, 0), 1));
    assert_eq!(board.cells().len(), 0);
    assert_eq!(board.tick(), vec![]);
}

#[test]
fn insert_overwrites_a_living_cell() {
    let mut board = numbered(10);
    assert!(board.insert(Coord(2, 2), 5));
    assert!(board.insert(Coord(2, 2), 9));
    assert_eq!(living(&board), vec![(Coord(2, 2), 9)]);
    let cell = board.get(&Coord(2, 2)).expect("alive");
    assert_eq!((cell.coords, cell.data), (&Coord(2, 2), &9));
}

#[test]
fn remove_of_a_dead_coordinate_changes_nothing() {
    let mut board = numbered(10);
    board.insert(Coord(2, 2), 5);
    board.remove(&Coord(3, 3));
    board.remove(&Coord(-4, 100));
    assert_eq!(living(&board), vec![(Coord(2, 2), 5)]);
    board.remove(&Coord(2, 2));
    assert_eq!(living(&board), vec![]);
    assert_eq!(board.get(&Coord(2, 2)), None);
}

#[test]
fn get_tells_negative_from_positive_coordinates() {
    let mut board = numbered(10);
    board.insert(Coord(1, 2), 5);
    assert_eq!(board.get(&Coord(2, 1)), None);
    assert_eq!(board.get(&Coord(-1, 2)), None);
    assert_eq!(board.get(&Coord(1, -2)), None);
    assert_eq!(board.get(&Coord(i32::MIN, i32::MIN)), None);
    assert_eq!(board.get(&Coord(i32::MAX, i32::MAX)), None);
    assert!(board.get(&Coord(1, 2)).is_some());
}

#[test]
fn neighbours_come_in_visiting_order_with_their_data() {
    let mut board = numbered(5);
    board.insert(Coord(1, 1), 10);
    board.insert(Coord(3, 3), 20);
    board.insert(Coord(2, 1), 30);
    board.insert(Coord(2, 2), 40);
    board.insert(Coord(4, 4), 50);

    let found: Vec<(Coord, u32)> = board
        .get_neighbours(&Coord(2, 2))
        .iter()
        .map(|v| (*v.coords, *v.data))
        .collect();

    assert_eq!(
        found,
        vec![(Coord(3, 3), 20), (Coord(2, 1), 30), (Coord(1, 1), 10)]
    );
}

#[test]
fn neighbours_are_at_most_eight_and_never_the_cell_itself() {
    let mut board = plain(3);
    for x in 0..3 {
        for y in 0..3 {
            board.insert(Coord(x, y), ());
        }
    }
    for x in -1..4 {
        for y in -1..4 {
            let centre = Coord(x, y);
            let found = board.get_neighbours(&centre);
            assert!(found.len() <= 8);
            assert!(found.iter().all(|v| *v.coords != centre));
        }
    }
    assert_eq!(board.get_neighbours(&Coord(1, 1)).len(), 8);
    assert_eq!(board.get_neighbours(&Coord(0, 0)).len(), 3);
    assert_eq!(board.get_neighbours(&Coord(-1, -1)).len(), 1);
    assert_eq!(board.get_neighbours(&Coord(5, 5)).len(), 0);
}

#[test]
fn neighbours_at_the_ends_of_the_range_are_dead() {
    let mut board = plain(usize::MAX);
    assert!(board.insert(Coord(i32::MAX, i32::MAX), ()));
    assert!(board.insert(Coord(i32::MAX - 1, i32::MAX), ()));
    let found: Vec<Coord> = board
        .get_neighbours(&Coord(i32::MAX, i32::MAX))
        .iter()
        .map(|v| *v.coords)
        .collect();
    assert_eq!(found, vec![Coord(i32::MAX - 1, i32::MAX)]);
    assert_eq!(board.get_neighbours(&Coord(i32::MIN, i32::MIN)).len(), 0);
    assert_eq!(board.get_neighbours(&Coord(i32::MIN, i32::MAX)).len(), 0);

    let mut dead = board.all_dead_neighbours();
    dead.sort();
    assert_eq!(
        dead,
        vec![
            Coord(i32::MAX - 2, i32::MAX - 1),
            Coord(i32::MAX - 2, i32::MAX),
            Coord(i32::MAX - 1, i32::MAX - 1),
            Coord(i32::MAX, i32::MAX - 1),
        ]
    );
}

#[test]
fn neighbour_steps_are_eight_in_order() {
    let centre = Coord(10, 20);
    let around: Vec<Option<Coord>> = (0..9).map(|i| centre.neighbour(i)).collect();
    assert_eq!(
        around,
        vec![
            Some(Coord(11, 21)),
            Some(Coord(11, 20)),
            Some(Coord(11, 19)),
            Some(Coord(10, 21)),
            Some(Coord(10, 19)),
            Some(Coord(9, 21)),
            Some(Coord(9, 20)),
            Some(Coord(9, 19)),
            None,
        ]
    );
    assert_eq!(Coord(i32::MAX, 0).neighbour(0), None);
    assert_eq!(Coord(i32::MAX, 0).neighbour(3), Some(Coord(i32::MAX, 1)));
    assert_eq!(Coord(0, i32::MIN).neighbour(2), None);
}

#[test]
fn is_within_checks_both_components() {
    assert!(Coord(0, 0).is_within(1));
    assert!(!Coord(0, 0).is_within(0));
    assert!(!Coord(1, 0).is_within(1));
    assert!(!Coord(0, 1).is_within(1));
    assert!(!Coord(-1, 0).is_within(10));
    assert!(Coord(9, 9).is_within(10));
    assert!(Coord(i32::MAX, i32::MAX).is_within(usize::MAX));
}

#[test]
fn dead_neighbours_come_once_and_reach_off_the_board() {
    let mut board = plain(4);
    board.insert(Coord(0, 0), ());
    board.insert(Coord(0, 1), ());

    let mut dead = board.all_dead_neighbours();
    dead.sort();

    assert_eq!(
        dead,
        vec![
            Coord(-1, -1),
            Coord(-1, 0),
            Coord(-1, 1),
            Coord(-1, 2),
            Coord(0, -1),
            Coord(0, 2),
            Coord(1, -1),
            Coord(1, 0),
            Coord(1, 1),
            Coord(1, 2),
        ]
    );
}

#[test]
fn empty_board_has_no_dead_neighbours() {
    let board = plain(4);
    assert_eq!(board.all_dead_neighbours(), vec![]);
    assert_eq!(board.cells(), vec![]);
}

#[test]
fn isolated_cell_dies_with_its_data() {
    let mut board = numbered(100);
    board.insert(Coord(5, 5), 42);

    let events = board.tick();

    assert_eq!(events, vec![died(5, 5, 42)]);
    assert_eq!(living(&board), vec![]);
}

#[test]
fn cells_with_one_neighbour_each_die() {
    let mut board = numbered(100);
    board.insert(Coord(5, 5), 1);
    board.insert(Coord(6, 6), 2);

    let events = sorted(board.tick());

    assert_eq!(events, vec![died(5, 5, 1), died(6, 6, 2)]);
    assert_eq!(living(&board), vec![]);
}

#[test]
fn only_the_crowded_cell_dies() {
    let mut board = numbered(100);
    board.insert(Coord(0, 0), 1);
    board.insert(Coord(0, 1), 2);
    board.insert(Coord(0, 2), 3);
    board.insert(Coord(1, 1), 4);
    board.insert(Coord(2, 0), 5);
    board.insert(Coord(2, 1), 6);

    let events = sorted(board.tick());

    assert_eq!(events, vec![born(-1, 1, 2), died(1, 1, 4)]);
    assert_eq!(
        living(&board),
        vec![
            (Coord(0, 0), 1),
            (Coord(0, 1), 2),
            (Coord(0, 2), 3),
            (Coord(2, 0), 5),
            (Coord(2, 1), 6),
        ]
    );
}

#[test]
fn blinker_on_the_edge_turns_and_fuses_the_mean() {
    let mut board = numbered(100);
    board.insert(Coord(0, 0), 3);
    board.insert(Coord(0, 1), 6);
    board.insert(Coord(0, 2), 12);

    let events = board.tick();

    assert_eq!(
        events.iter().filter(|e| matches!(e, CellEvent::Died(_))).count(),
        2
    );
    assert!(events[..2].iter().all(|e| matches!(e, CellEvent::Died(_))));
    assert!(events[2..].iter().all(|e| matches!(e, CellEvent::Born(_))));
    assert_eq!(
        sorted(events),
        vec![born(-1, 1, 7), born(1, 1, 7), died(0, 0, 3), died(0, 2, 12)]
    );
    assert_eq!(living(&board), vec![(Coord(0, 1), 6), (Coord(1, 1), 7)]);
    assert_eq!(board.get(&Coord(-1, 1)), None);
}

#[test]
fn block_is_stable() {
    let mut board = numbered(10);
    board.insert(Coord(4, 4), 1);
    board.insert(Coord(4, 5), 2);
    board.insert(Coord(5, 4), 3);
    board.insert(Coord(5, 5), 4);

    assert_eq!(board.tick(), vec![]);
    assert_eq!(
        living(&board),
        vec![
            (Coord(4, 4), 1),
            (Coord(4, 5), 2),
            (Coord(5, 4), 3),
            (Coord(5, 5), 4),
        ]
    );
}

#[test]
fn fusion_sees_the_three_parents_in_visiting_order() {
    fn first_parent(views: Vec<CellView<u32>>) -> u32 {
        assert_eq!(views.len(), 3);
        *views[0].data * 100 + *views[1].data * 10 + *views[2].data
    }
    let mut board: Board<u32> = Board::new(10, first_parent);
    board.insert(Coord(5, 4), 1);
    board.insert(Coord(5, 5), 2);
    board.insert(Coord(5, 6), 3);

    let events = sorted(board.tick());

    assert_eq!(
        events,
        vec![born(4, 5, 321), born(6, 5, 321), died(5, 4, 1), died(5, 6, 3)]
    );
}

#[test]
fn no_coordinate_is_both_born_and_dead_in_one_generation() {
    let mut rng = StdRng::seed_from_u64(7);
    let mut board = numbered(12);
    board.randomize(12, (1u64 << 32) / 3, || 1, &mut rng);

    for _ in 0..8 {
        let before = living(&board);
        let events = board.tick();

        let born: Vec<Coord> = events
            .iter()
            .filter_map(|e| match e {
                CellEvent::Born(cell) => Some(cell.coords),
                CellEvent::Died(_) => None,
            })
            .collect();
        let died: Vec<Coord> = events
            .iter()
            .filter_map(|e| match e {
                CellEvent::Died(cell) => Some(cell.coords),
                CellEvent::Born(_) => None,
            })
            .collect();

        assert!(born.iter().all(|c| !died.contains(c)));
        assert!(died.iter().all(|c| before.iter().any(|(b, _)| b == c)));
        assert!(born.iter().all(|c| before.iter().all(|(b, _)| b != c)));

        let mut all: Vec<Coord> = events
            .iter()
            .map(|e| match e {
                CellEvent::Born(cell) => cell.coords,
                CellEvent::Died(cell) => cell.coords,
            })
            .collect();
        all.sort();
        let reported = all.len();
        all.dedup();
        assert_eq!(all.len(), reported);

        let mut expected: Vec<Coord> = before
            .iter()
            .map(|(c, _)| *c)
            .filter(|c| !died.contains(c))
            .chain(born.iter().copied().filter(|c| c.is_within(12)))
            .collect();
        expected.sort();
        let after: Vec<Coord> = living(&board).iter().map(|(c, _)| *c).collect();
        assert_eq!(after, expected);
    }
}

#[test]
fn randomize_with_full_chance_fills_the_square() {
    let mut rng = StdRng::seed_from_u64(1);
    let mut board = numbered(5);
    board.insert(Coord(4, 4), 9);

    board.randomize(3, 1u64 << 32, || 1, &mut rng);

    let mut expected: Vec<(Coord, u32)> = Vec::new();
    for x in 0..3 {
        for y in 0..3 {
            expected.push((Coord(x, y), 1));
        }
    }
    expected.push((Coord(4, 4), 9));
    assert_eq!(living(&board), expected);
}

#[test]
fn randomize_stays_on_the_board() {
    let mut rng = StdRng::seed_from_u64(1);
    let mut board = numbered(2);

    board.randomize(6, 1u64 << 32, || 3, &mut rng);

    assert_eq!(
        living(&board),
        vec![
            (Coord(0, 0), 3),
            (Coord(0, 1), 3),
            (Coord(1, 0), 3),
            (Coord(1, 1), 3),
        ]
    );
}

#[test]
fn randomize_draws_from_the_generator_it_is_given() {
    let mut first = numbered(16);
    let mut second = numbered(16);
    let mut third = numbered(16);

    first.randomize(16, 1u64 << 31, || 1, &mut StdRng::seed_from_u64(99));
    second.randomize(16, 1u64 << 31, || 1, &mut StdRng::seed_from_u64(99));
    third.randomize(16, 1u64 << 31, || 1, &mut StdRng::seed_from_u64(100));

    assert_eq!(living(&first), living(&second));
    assert_ne!(living(&first), living(&third));
    let alive = living(&first).len();
    assert!(0 < alive && alive < 256);
}

#[test]
fn randomize_with_no_chance_changes_nothing() {
    let mut rng = StdRng::seed_from_u64(3);
    let mut board = numbered(8);
    board.insert(Coord(1, 1), 50);
    board.insert(Coord(7, 7), 60);

    board.randomize(8, 0, || 1, &mut rng);

    assert_eq!(living(&board), vec![(Coord(1, 1), 50), (Coord(7, 7), 60)]);
}

#[test]
fn randomize_with_no_chance_leaves_an_empty_board_empty() {
    let mut rng = StdRng::seed_from_u64(0);
    let mut board = plain(3);

    board.randomize(3, 0, || (), &mut rng);

    assert_eq!(board.cells(), vec![]);
}

#[test]
fn randomize_keeps_what_was_alive() {
    let mut rng = StdRng::seed_from_u64(3);
    let mut board = numbered(8);
    board.insert(Coord(1, 1), 50);
    board.insert(Coord(7, 7), 60);

    board.randomize(4, 1u64 << 31, || 1, &mut rng);

    let cells = living(&board);
    assert!(cells.contains(&(Coord(7, 7), 60)));
    assert!(cells.contains(&(Coord(1, 1), 50)) || cells.contains(&(Coord(1, 1), 1)));
    assert!(cells
        .iter()
        .all(|(c, d)| (c.is_within(4) && *d == 1) || *d >= 50));
}

#[test]
fn randomize_with_more_than_full_chance_fills_the_square() {
    let mut rng = StdRng::seed_from_u64(5);
    let mut board = numbered(2);

    board.randomize(2, u64::MAX, || 4, &mut rng);

    assert_eq!(living(&board).len(), 4);
}

#[test]
fn seed_takes_a_draw_below_the_chance() {
    let mut board = numbered(4);

    assert!(board.seed(Coord(1, 1), 9, 10, &|| 5));
    assert!(!board.seed(Coord(1, 2), 10, 10, &|| 6));
    assert!(!board.seed(Coord(1, 2), 11, 10, &|| 6));
    assert!(!board.seed(Coord(1, 3), 0, 0, &|| 7));
    assert!(board.seed(Coord(1, 3), 0, 1, &|| 7));
    assert!(!board.seed(Coord(2, 2), 1, 1, &|| 8));
    assert!(!board.seed(Coord(2, 3), u32::MAX, u32::MAX as u64, &|| 9));
    assert!(board.seed(Coord(2, 3), u32::MAX, 1u64 << 32, &|| 9));
    assert!(!board.seed(Coord(4, 0), 0, 1u64 << 32, &|| 10));
    assert!(board.seed(Coord(1, 1), 3, 4, &|| 11));

    assert_eq!(
        living(&board),
        vec![(Coord(1, 1), 11), (Coord(1, 3), 7), (Coord(2, 3), 9)]
    );
}

#[test]
fn lowest_draws_with_no_chance_seed_nothing() {
    let mut board = plain(3);
    let draws: Vec<u32> = vec![0, 0, 0];

    for row in 0..3 {
        board.seed_row(row, &draws, 0, &|| ());
    }

    assert_eq!(board.cells(), vec![]);
}

#[test]
fn seed_row_gives_each_column_its_own_draw() {
    let mut board = numbered(5);
    board.insert(Coord(2, 0), 70);
    board.insert(Coord(2, 3), 80);
    board.insert(Coord(3, 1), 90);

    board.seed_row(2, &vec![100, 99, 500, 100, 0, 0, 0], 100, &|| 1);

    assert_eq!(
        living(&board),
        vec![
            (Coord(2, 0), 70),
            (Coord(2, 1), 1),
            (Coord(2, 3), 80),
            (Coord(2, 4), 1),
            (Coord(3, 1), 90),
        ]
    );
}

#[test]
fn seed_row_off_the_board_changes_nothing() {
    let mut board = numbered(3);
    board.insert(Coord(1, 1), 5);

    board.seed_row(-1, &vec![0, 0, 0], 1u64 << 32, &|| 1);
    board.seed_row(3, &vec![0, 0, 0], 1u64 << 32, &|| 1);
    board.seed_row(1, &vec![], 1u64 << 32, &|| 1);

    assert_eq!(living(&board), vec![(Coord(1, 1), 5)]);
}

#[test]
fn state_reports_every_living_cell_as_born() {
    let mut board = numbered(10);
    assert_eq!(board.get_state(), vec![]);
    board.insert(Coord(4, 5), 2);
    board.insert(Coord(1, 1), 1);
    board.insert(Coord(9, 0), 3);

    assert_eq!(
        sorted(board.get_state()),
        vec![born(1, 1, 1), born(4, 5, 2), born(9, 0, 3)]
    );
    assert_eq!(living(&board).len(), 3);
}

#[test]
fn order_of_insertion_does_not_change_the_generation() {
    let cells = [
        (Coord(3, 3), 1),
        (Coord(3, 4), 2),
        (Coord(3, 5), 3),
        (Coord(4, 4), 4),
        (Coord(5, 5), 5),
        (Coord(0, 0), 6),
        (Coord(0, 1), 7),
        (Coord(1, 0), 8),
    ];
    let mut forwards = numbered(8);
    let mut backwards = numbered(8);
    for (coords, data) in cells.iter() {
        forwards.insert(*coords, *data);
    }
    for (coords, data) in cells.iter().rev() {
        backwards.insert(*coords, *data);
    }

    for _ in 0..4 {
        let first = sorted(forwards.tick());
        let second = sorted(backwards.tick());
        assert_eq!(first, second);
        assert_eq!(living(&forwards), living(&backwards));
    }
}
