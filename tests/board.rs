use cch24::{Board, BoardTile, PlayOutcome};
use rand::rngs::StdRng;
use rand::SeedableRng;

#[test]
fn tiles_report_emptiness_and_emoji() {
    assert!(BoardTile::Empty.is_empty());
    assert!(!BoardTile::Milk.is_empty());
    assert_eq!(BoardTile::Cookie.emoji(), '\u{1F36A}');
    assert_eq!(BoardTile::Milk.emoji(), '\u{1F95B}');
    assert_eq!(BoardTile::Empty.emoji(), '\u{2B1B}');
}

#[test]
fn new_board_prints_empty() {
    let b = Board::new();
    let row = "\u{2B1C}\u{2B1B}\u{2B1B}\u{2B1B}\u{2B1B}\u{2B1C}\n";
    let expected = format!("{row}{row}{row}{row}\u{2B1C}\u{2B1C}\u{2B1C}\u{2B1C}\u{2B1C}\u{2B1C}\n");
    assert_eq!(b.to_string(), expected);
    assert!(b.get_result().is_none());
}

#[test]
fn tiles_fall_to_the_bottom() {
    let mut b = Board::new();
    b.place_tile("cookie".to_string(), 1).unwrap();
    b.place_tile("milk".to_string(), 1).unwrap();
    let text = b.to_string();
    let lines: Vec<&str> = text.lines().collect();
    assert_eq!(lines[3], "\u{2B1C}\u{1F36A}\u{2B1B}\u{2B1B}\u{2B1B}\u{2B1C}");
    assert_eq!(lines[2], "\u{2B1C}\u{1F95B}\u{2B1B}\u{2B1B}\u{2B1B}\u{2B1C}");
}

#[test]
fn place_tile_errors() {
    let mut b = Board::new();
    assert_eq!(b.place_tile("chocolate".to_string(), 1), Err("Invalid team".to_string()));
    assert_eq!(b.place_tile("cookie".to_string(), 0), Err("Invalid column".to_string()));
    assert_eq!(b.place_tile("cookie".to_string(), 5), Err("Invalid column".to_string()));
    for _ in 0..4 {
        b.place_tile("milk".to_string(), 2).unwrap();
    }
    assert_eq!(b.place_tile("cookie".to_string(), 2), Err("Column full".to_string()));
}

#[test]
fn a_full_column_wins() {
    let mut b = Board::new();
    for _ in 0..4 {
        b.place_tile("cookie".to_string(), 1).unwrap();
    }
    assert_eq!(b.get_winner(), BoardTile::Cookie);
    assert_eq!(b.get_result(), Some("\u{1F36A} wins!".to_string()));
    assert!(b.to_string().ends_with("\u{1F36A} wins!\n"));
}

#[test]
fn an_empty_line_searched_first_hides_a_win() {
    // Column 1 and row 1 are searched before the bottom row and are still
    // empty, so their (empty) tile is what the search finds.
    let mut b = Board::new();
    for c in 1..=4 {
        b.place_tile("milk".to_string(), c).unwrap();
    }
    assert_eq!(b.get_winner(), BoardTile::Empty);
    assert_eq!(b.get_result(), None);
}

#[test]
fn a_diagonal_wins() {
    let mut b = Board::new();
    // Builds the rising diagonal from the bottom left.
    b.place_tile("cookie".to_string(), 1).unwrap();
    b.place_tile("milk".to_string(), 2).unwrap();
    b.place_tile("cookie".to_string(), 2).unwrap();
    b.place_tile("milk".to_string(), 3).unwrap();
    b.place_tile("milk".to_string(), 3).unwrap();
    b.place_tile("cookie".to_string(), 3).unwrap();
    b.place_tile("milk".to_string(), 4).unwrap();
    b.place_tile("milk".to_string(), 4).unwrap();
    b.place_tile("milk".to_string(), 4).unwrap();
    b.place_tile("cookie".to_string(), 4).unwrap();
    assert_eq!(b.get_winner(), BoardTile::Cookie);
}

#[test]
fn full_board_without_line_is_a_draw() {
    let mut b = Board::new();
    let order = [
        ("milk", 1), ("cookie", 1), ("milk", 1), ("cookie", 1),
        ("milk", 2), ("cookie", 2), ("milk", 2), ("cookie", 2),
        ("cookie", 3), ("milk", 3), ("cookie", 3), ("milk", 3),
        ("cookie", 4), ("milk", 4), ("cookie", 4), ("milk", 4),
    ];
    for (team, col) in order {
        b.place_tile(team.to_string(), col).unwrap();
    }
    assert_eq!(b.get_winner(), BoardTile::Empty);
    assert_eq!(b.get_result(), Some("No winner.".to_string()));
}

#[test]
fn random_board_is_full() {
    let mut rng = StdRng::seed_from_u64(2024);
    let b = Board::new_random(&mut rng);
    assert!(!b.to_string().contains('\u{2B1B}'));
    assert!(b.get_result().is_some());
}

#[test]
fn coins_fill_the_board_row_by_row() {
    let mut coins = [false; 16];
    coins[0] = true;
    coins[5] = true;
    let b = Board::from_coins(coins);
    let text = b.to_string();
    let lines: Vec<&str> = text.lines().collect();
    assert_eq!(lines[0], "\u{2B1C}\u{1F36A}\u{1F95B}\u{1F95B}\u{1F95B}\u{2B1C}");
    assert_eq!(lines[1], "\u{2B1C}\u{1F95B}\u{1F36A}\u{1F95B}\u{1F95B}\u{2B1C}");
    assert_eq!(lines[2], "\u{2B1C}\u{1F95B}\u{1F95B}\u{1F95B}\u{1F95B}\u{2B1C}");
}

#[test]
fn play_refuses_moves_after_the_game_ends() {
    let mut b = Board::new();
    assert_eq!(b.play("tea".to_string(), 1), PlayOutcome::BadMove);
    assert_eq!(b.play("milk".to_string(), 9), PlayOutcome::BadMove);
    for _ in 0..4 {
        assert_eq!(b.play("cookie".to_string(), 1), PlayOutcome::Placed);
    }
    assert_eq!(b.play("milk".to_string(), 2), PlayOutcome::GameOver);
}

#[test]
fn play_reports_a_full_column() {
    let mut b = Board::new();
    for team in ["milk", "cookie", "milk", "cookie"] {
        assert_eq!(b.play(team.to_string(), 2), PlayOutcome::Placed);
    }
    assert_eq!(b.play("milk".to_string(), 2), PlayOutcome::ColumnFull);
}
