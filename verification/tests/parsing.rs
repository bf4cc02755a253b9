use sokoban::grid::Direction;
use sokoban::level::Level;
use sokoban::parse::{is_puzzle_line, parse_row};
use sokoban::tile::{Feature, Tile, TileKind, TileOccupant};

fn tile(kind: TileKind, occupant: TileOccupant) -> Tile {
    Tile { kind, occupant }
}

#[test]
fn wall_symbol_is_a_wall_on_floor() {
    let wall = tile(TileKind::Floor, TileOccupant::Wall);
    assert_eq!(Tile::from_symbol('#', false), Some(wall));
    assert_eq!(Tile::from_symbol('#', true), Some(wall));
}

#[test]
fn pusher_symbols() {
    let on_floor = tile(TileKind::Floor, TileOccupant::Pusher);
    let on_goal = tile(TileKind::Goal, TileOccupant::Pusher);
    assert_eq!(Tile::from_symbol('p', true), Some(on_floor));
    assert_eq!(Tile::from_symbol('@', true), Some(on_floor));
    assert_eq!(Tile::from_symbol('P', true), Some(on_goal));
    assert_eq!(Tile::from_symbol('+', true), Some(on_goal));
}

#[test]
fn box_symbols() {
    let on_floor = tile(TileKind::Floor, TileOccupant::Box);
    let on_goal = tile(TileKind::Goal, TileOccupant::Box);
    assert_eq!(Tile::from_symbol('b', true), Some(on_floor));
    assert_eq!(Tile::from_symbol('$', true), Some(on_floor));
    assert_eq!(Tile::from_symbol('B', true), Some(on_goal));
    assert_eq!(Tile::from_symbol('*', true), Some(on_goal));
}

#[test]
fn goal_symbol_is_a_free_goal() {
    assert_eq!(Tile::from_symbol('.', false), Some(tile(TileKind::Goal, TileOccupant::Empty)));
    assert_eq!(Tile::from_symbol('.', true), Some(tile(TileKind::Goal, TileOccupant::Empty)));
}

#[test]
fn blank_symbols_depend_on_the_walls_seen() {
    let floor = tile(TileKind::Floor, TileOccupant::Empty);
    let outside = tile(TileKind::Outside, TileOccupant::Empty);
    assert_eq!(Tile::from_symbol('-', true), Some(floor));
    assert_eq!(Tile::from_symbol('_', true), Some(floor));
    assert_eq!(Tile::from_symbol('-', false), Some(outside));
    assert_eq!(Tile::from_symbol('_', false), Some(outside));
}

#[test]
fn other_symbols_give_no_tile() {
    for c in [' ', 'x', '0', ';', '\r', '\n', '\t', 'é', '|'] {
        assert_eq!(Tile::from_symbol(c, false), None);
        assert_eq!(Tile::from_symbol(c, true), None);
    }
}

#[test]
fn tile_features() {
    let wall = tile(TileKind::Floor, TileOccupant::Wall);
    assert!(wall.shows(Feature::Wall));
    assert!(wall.shows(Feature::Floor));
    assert!(!wall.shows(Feature::Goal));
    assert!(!wall.shows(Feature::Box));
    assert!(!wall.shows(Feature::Pusher));
    let boxed_goal = tile(TileKind::Goal, TileOccupant::Box);
    assert!(boxed_goal.shows(Feature::Box));
    assert!(boxed_goal.shows(Feature::Goal));
    assert!(boxed_goal.shows(Feature::Floor));
    assert!(!boxed_goal.shows(Feature::Wall));
    let outside = tile(TileKind::Outside, TileOccupant::Empty);
    assert!(!outside.shows(Feature::Floor));
    assert!(!outside.shows(Feature::Goal));
    let pusher = tile(TileKind::Floor, TileOccupant::Pusher);
    assert!(pusher.shows(Feature::Pusher));
    assert!(!pusher.shows(Feature::Box));
}

#[test]
fn puzzle_line_needs_two_walls() {
    assert!(!is_puzzle_line(""));
    assert!(!is_puzzle_line("; a comment"));
    assert!(!is_puzzle_line("#"));
    assert!(!is_puzzle_line("  # level 3"));
    assert!(is_puzzle_line("##"));
    assert!(is_puzzle_line("#@.#"));
    assert!(is_puzzle_line("  #   #  "));
    assert!(is_puzzle_line("#####"));
    assert!(is_puzzle_line("title #1 of #2"));
}

#[test]
fn parse_row_follows_the_table() {
    let row = parse_row("#.@$.#");
    assert_eq!(
        row,
        vec![
            tile(TileKind::Floor, TileOccupant::Wall),
            tile(TileKind::Goal, TileOccupant::Empty),
            tile(TileKind::Floor, TileOccupant::Pusher),
            tile(TileKind::Floor, TileOccupant::Box),
            tile(TileKind::Goal, TileOccupant::Empty),
            tile(TileKind::Floor, TileOccupant::Wall),
        ]
    );
}

#[test]
fn parse_row_tells_padding_from_floor() {
    let row = parse_row("--#-_#-");
    assert_eq!(
        row,
        vec![
            tile(TileKind::Outside, TileOccupant::Empty),
            tile(TileKind::Outside, TileOccupant::Empty),
            tile(TileKind::Floor, TileOccupant::Wall),
            tile(TileKind::Floor, TileOccupant::Empty),
            tile(TileKind::Floor, TileOccupant::Empty),
            tile(TileKind::Floor, TileOccupant::Wall),
            tile(TileKind::Floor, TileOccupant::Empty),
        ]
    );
}

#[test]
fn parse_row_drops_unknown_symbols() {
    assert_eq!(parse_row("# x@ y#\r"), parse_row("#@#"));
    assert_eq!(parse_row("# x@ y#\r").len(), 3);
    assert_eq!(parse_row("hello world").len(), 0);
    assert_eq!(parse_row("").len(), 0);
}

#[test]
fn parse_row_spaces_do_not_count_as_tiles() {
    let row = parse_row("  #-#");
    assert_eq!(
        row,
        vec![
            tile(TileKind::Floor, TileOccupant::Wall),
            tile(TileKind::Floor, TileOccupant::Empty),
            tile(TileKind::Floor, TileOccupant::Wall),
        ]
    );
}

#[test]
fn parse_row_all_occupied_symbols() {
    let row = parse_row("#pP+bB*@$#");
    let occupants: Vec<TileOccupant> = row.iter().map(|t| t.occupant).collect();
    assert_eq!(
        occupants,
        vec![
            TileOccupant::Wall,
            TileOccupant::Pusher,
            TileOccupant::Pusher,
            TileOccupant::Pusher,
            TileOccupant::Box,
            TileOccupant::Box,
            TileOccupant::Box,
            TileOccupant::Pusher,
            TileOccupant::Box,
            TileOccupant::Wall,
        ]
    );
    let kinds: Vec<TileKind> = row.iter().map(|t| t.kind).collect();
    assert_eq!(
        kinds,
        vec![
            TileKind::Floor,
            TileKind::Floor,
            TileKind::Goal,
            TileKind::Goal,
            TileKind::Floor,
            TileKind::Goal,
            TileKind::Goal,
            TileKind::Floor,
            TileKind::Floor,
            TileKind::Floor,
        ]
    );
}

#[test]
fn empty_level() {
    let level = Level::new();
    assert!(level.is_empty());
    assert_eq!(level.width(), 0);
    assert_eq!(level.height(), 0);
    assert_eq!(level.walls(), vec![]);
    assert_eq!(level.find_pusher(), None);
    assert_eq!(level.tile(0, 0), None);
}

#[test]
fn level_width_is_the_longest_row() {
    let level = Level::parse(&["###", "#@--#", "####"]);
    assert_eq!(level.width(), 5);
    assert_eq!(level.height(), 3);
    assert!(!level.is_empty());
}

#[test]
fn push_row_grows_the_level() {
    let mut level = Level::new();
    level.push_row(parse_row("####"));
    assert_eq!((level.width(), level.height()), (4, 1));
    level.push_row(parse_row("#@$-.#"));
    assert_eq!((level.width(), level.height()), (6, 2));
    level.push_row(parse_row("##"));
    assert_eq!((level.width(), level.height()), (6, 3));
    assert_eq!(level.pusher(), (1, 1));
    assert_eq!(level.boxes(), vec![(2, 1)]);
}

#[test]
fn level_queries_list_positions_row_by_row() {
    let level = Level::parse(&["-####", "-#.@#", "##$*#", "#---#", "#####"]);
    assert_eq!(
        level.walls(),
        vec![
            (1, 0),
            (2, 0),
            (3, 0),
            (4, 0),
            (1, 1),
            (4, 1),
            (0, 2),
            (1, 2),
            (4, 2),
            (0, 3),
            (4, 3),
            (0, 4),
            (1, 4),
            (2, 4),
            (3, 4),
            (4, 4),
        ]
    );
    assert_eq!(level.goals(), vec![(2, 1), (3, 2)]);
    assert_eq!(level.boxes(), vec![(2, 2), (3, 2)]);
    assert_eq!(level.pusher(), (3, 1));
    assert_eq!(level.find_pusher(), Some((3, 1)));
    let floors = level.floors();
    assert_eq!(floors.len(), 23);
    assert!(!floors.contains(&(0, 0)));
    assert!(!floors.contains(&(0, 1)));
    assert!(floors.contains(&(1, 0)));
    assert!(floors.contains(&(2, 1)));
    assert!(floors.contains(&(3, 2)));
    assert!(floors.contains(&(2, 3)));
}

#[test]
fn floors_are_floor_and_goal_terrain() {
    let level = Level::parse(&["_#.@$*-#"]);
    assert_eq!(level.floors(), vec![(1, 0), (2, 0), (3, 0), (4, 0), (5, 0), (6, 0), (7, 0)]);
    assert_eq!(level.goals(), vec![(2, 0), (5, 0)]);
}

#[test]
fn tile_lookup_respects_ragged_rows() {
    let level = Level::parse(&["##", "#@.#"]);
    assert_eq!(level.tile(1, 0), Some(tile(TileKind::Floor, TileOccupant::Wall)));
    assert_eq!(level.tile(2, 0), None);
    assert_eq!(level.tile(2, 1), Some(tile(TileKind::Goal, TileOccupant::Empty)));
    assert_eq!(level.tile(4, 1), None);
    assert_eq!(level.tile(0, 2), None);
}

#[test]
fn first_pusher_is_reported_when_there_are_several() {
    let level = Level::parse(&["#-@#", "#@-#"]);
    assert_eq!(level.pusher(), (2, 0));
    assert_eq!(level.find_pusher(), Some((2, 0)));
}

#[test]
fn level_without_pusher_has_none_to_find() {
    let level = Level::parse(&["#-$.#"]);
    assert_eq!(level.find_pusher(), None);
}

#[test]
fn box_count_matches_box_symbols() {
    let lines = ["#########", "#@$b.B*p#", "#-$-$-+-#", "#########"];
    let level = Level::parse(&lines);
    let symbols = lines
        .iter()
        .flat_map(|line| line.chars())
        .filter(|c| matches!(c, '$' | 'b' | 'B' | '*'))
        .count();
    assert_eq!(symbols, 6);
    assert_eq!(level.boxes().len(), symbols);
}

#[test]
fn stepping_off_the_representable_range() {
    assert_eq!(Direction::Up.apply(3, 0), None);
    assert_eq!(Direction::Left.apply(0, 3), None);
    assert_eq!(Direction::Right.apply(usize::MAX, 3), None);
    assert_eq!(Direction::Down.apply(3, usize::MAX), None);
    assert_eq!(Direction::Up.apply(3, 1), Some((3, 0)));
    assert_eq!(Direction::Left.apply(1, 3), Some((0, 3)));
    assert_eq!(Direction::Right.apply(3, 3), Some((4, 3)));
    assert_eq!(Direction::Down.apply(3, 3), Some((3, 4)));
}

#[test]
fn symbols_of_several_bytes_are_dropped() {
    assert!(is_puzzle_line("#é→#"));
    assert_eq!(parse_row("#é→@#").len(), 3);
    let level = Level::parse(&["#é@→#"]);
    assert_eq!(level.width(), 3);
    assert_eq!(level.pusher(), (1, 0));
}

#[test]
fn parsing_no_lines_gives_an_empty_level() {
    let level = Level::parse(&[]);
    assert!(level.is_empty());
    assert_eq!((level.width(), level.height()), (0, 0));
}

#[test]
fn parse_takes_every_line_as_a_row() {
    let level = Level::parse(&["", "#", "-@-"]);
    assert_eq!(level.height(), 3);
    assert_eq!(level.width(), 3);
    assert_eq!(level.tile(0, 0), None);
    assert_eq!(level.pusher(), (1, 2));
    assert_eq!(level.floors(), vec![(0, 1), (1, 2)]);
}
