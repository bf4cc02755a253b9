use sokoban::collection::LevelCollection;
use sokoban::grid::Direction;
use sokoban::level::Level;

fn rows(level: &Level) -> Vec<Vec<(usize, usize)>> {
    vec![level.walls(), level.floors(), level.goals(), level.boxes()]
}

#[test]
fn two_blocks_give_two_levels_in_order() {
    let text = "#####\n#@$.#\n#####\n\n; the second puzzle\n######\n#.$-@#\n#-$-.#\n######\n";
    let collection = LevelCollection::from_source(text);
    assert_eq!(collection.len(), 2);
    let mut levels = collection.into_iter();
    let first = levels.next().unwrap();
    assert_eq!((first.width(), first.height()), (5, 3));
    assert_eq!(first.pusher(), (1, 1));
    assert_eq!(first.boxes(), vec![(2, 1)]);
    let second = levels.next().unwrap();
    assert_eq!((second.width(), second.height()), (6, 4));
    assert_eq!(second.pusher(), (4, 1));
    assert_eq!(second.boxes(), vec![(2, 1), (2, 2)]);
    assert!(levels.next().is_none());
    assert!(levels.next().is_none());
}

#[test]
fn lines_and_source_agree() {
    let lines = ["Level 1", "####", "#@.#", "####", "", "; note", "#####", "#@$.#", "#####"];
    let from_lines = LevelCollection::from_lines(&lines);
    let from_source = LevelCollection::from_source(&lines.join("\n"));
    assert_eq!(from_lines.len(), 2);
    assert_eq!(from_source.len(), 2);
    let mut a = from_lines.into_iter();
    let mut b = from_source.into_iter();
    for _ in 0..2 {
        let x = a.next().unwrap();
        let y = b.next().unwrap();
        assert_eq!(rows(&x), rows(&y));
        assert_eq!(x.find_pusher(), y.find_pusher());
        assert_eq!((x.width(), x.height()), (y.width(), y.height()));
    }
    assert!(a.next().is_none());
    assert!(b.next().is_none());
}

#[test]
fn empty_text_has_no_levels() {
    assert_eq!(LevelCollection::from_source("").len(), 0);
    assert_eq!(LevelCollection::from_source("\n\n\n").len(), 0);
    assert_eq!(LevelCollection::from_source("no puzzle here\n# one wall only\n").len(), 0);
    assert_eq!(LevelCollection::from_lines(&[]).len(), 0);
    assert!(LevelCollection::from_lines(&[]).into_iter().next().is_none());
}

#[test]
fn trailing_block_without_line_feed_is_a_level() {
    let collection = LevelCollection::from_source("####\n#@.#\n####");
    assert_eq!(collection.len(), 1);
    let level = collection.into_iter().next().unwrap();
    assert_eq!(level.height(), 3);
    assert_eq!(level.walls().len(), 10);
}

#[test]
fn several_separators_make_no_empty_level() {
    let text = "\n\n####\n#@.#\n####\n\n\n\n; c\n\n####\n#.@#\n####\n\n\n";
    let collection = LevelCollection::from_source(text);
    assert_eq!(collection.len(), 2);
}

#[test]
fn adjacent_puzzle_lines_share_a_level() {
    let collection = LevelCollection::from_lines(&["####", "#@.#", "####", "####", "#.@#", "####"]);
    assert_eq!(collection.len(), 1);
    let level = collection.into_iter().next().unwrap();
    assert_eq!(level.height(), 6);
    assert_eq!(level.pusher(), (1, 1));
}

#[test]
fn carriage_returns_are_ignored() {
    let collection = LevelCollection::from_source("####\r\n#@$.#\r\n####\r\n\r\n###\r\n#@#\r\n###\r\n");
    assert_eq!(collection.len(), 2);
    let mut levels = collection.into_iter();
    let first = levels.next().unwrap();
    assert_eq!((first.width(), first.height()), (5, 3));
    assert_eq!(first.boxes(), vec![(2, 1)]);
    let second = levels.next().unwrap();
    assert_eq!((second.width(), second.height()), (3, 3));
}

#[test]
fn a_line_with_one_wall_ends_a_block() {
    let collection = LevelCollection::from_lines(&["####", "#@.#", "#", "####", "#.@#"]);
    assert_eq!(collection.len(), 2);
    let mut levels = collection.into_iter();
    assert_eq!(levels.next().unwrap().height(), 2);
    assert_eq!(levels.next().unwrap().height(), 2);
}

#[test]
fn padding_before_the_first_wall_is_outside() {
    let collection = LevelCollection::from_source("--###\n--#@#\n###-#\n#---#\n#####\n");
    let level = collection.into_iter().next().unwrap();
    assert_eq!(level.width(), 5);
    assert_eq!(level.floors().len(), 21);
    assert!(!level.floors().contains(&(0, 0)));
    assert!(!level.floors().contains(&(1, 1)));
    assert!(level.floors().contains(&(0, 2)));
}

#[test]
fn levels_from_a_collection_can_be_played() {
    let mut levels = LevelCollection::from_source("#####\n#@$.#\n#####\n").into_iter();
    let mut level = levels.next().unwrap();
    assert_eq!(level.move_pusher(Direction::Left), None);
    assert_eq!(level.move_pusher(Direction::Right), Some((2, 1)));
    assert_eq!(level.boxes(), vec![(3, 1)]);
    assert_eq!(level.boxes(), level.goals());
}

#[test]
fn a_level_keeps_its_lines_in_order() {
    let collection = LevelCollection::from_lines(&["#--#", "#-@-#", "#$#"]);
    let level = collection.into_iter().next().unwrap();
    assert_eq!(level.width(), 5);
    assert_eq!(level.pusher(), (2, 1));
    assert_eq!(level.boxes(), vec![(1, 2)]);
}

#[test]
fn text_with_wide_symbols_is_read_symbol_by_symbol() {
    let collection = LevelCollection::from_source("; niveau n°1 — début\n#####\n#@$.#\n#####\n");
    assert_eq!(collection.len(), 1);
    let level = collection.into_iter().next().unwrap();
    assert_eq!(level.pusher(), (1, 1));
    assert_eq!(level.goals(), vec![(3, 1)]);
}

#[test]
fn iterator_hands_out_each_level_once() {
    let mut levels = LevelCollection::from_lines(&["##", "", "###", "", "####"]).into_iter();
    assert_eq!(levels.next().map(|level| level.width()), Some(2));
    assert_eq!(levels.next().map(|level| level.width()), Some(3));
    assert_eq!(levels.next().map(|level| level.width()), Some(4));
    assert_eq!(levels.next().map(|level| level.width()), None);
}
