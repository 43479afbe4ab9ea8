use workpool::board::{Boat, Board, Error};

const EMPTY_ROW: &str = "                    ";

#[test]
fn test_new_board_initialization() {
    let b = Board::new(&[4, 3, 2, 1]);
    assert_eq!(b.boats(), vec![4, 3, 2, 1]);
    for r in 0..20 {
        for c in 0..20 {
            assert_eq!(b.get_cell(r, c), 0);
        }
    }
}

#[test]
fn test_board_to_string_empty() {
    let b = Board::new(&[1, 2, 3, 4]);
    let board_string = b.to_string();
    let lines: Vec<&str> = board_string.lines().collect();
    assert_eq!(lines[0], "1 2 3 4");
    for line in &lines[1..] {
        assert_eq!(*line, EMPTY_ROW);
    }
}

#[test]
fn test_parse_from_string_and_back() {
    let input = format!(
        "2 2 2 2\n{}",
        std::iter::repeat(EMPTY_ROW).take(20).collect::<Vec<_>>().join("\n")
    );
    let board = Board::from(input.clone()).unwrap();
    assert_eq!(board.to_string(), input);
}

#[test]
fn test_add_boat_success_horizontal() {
    let board = Board::new(&[1, 1, 1, 1]);
    let result = board.add_boat(Boat::Horizontal(3), (5, 5));
    assert!(result.is_ok());
    let new_board = result.unwrap();
    assert_eq!(new_board.get_cell(4, 4), 1);
    assert_eq!(new_board.get_cell(4, 5), 1);
    assert_eq!(new_board.get_cell(4, 6), 1);
    assert_eq!(new_board.boats(), vec![1, 1, 0, 1]);
}

#[test]
fn test_add_boat_success_vertical() {
    let board = Board::new(&[1, 1, 1, 1]);
    let result = board.add_boat(Boat::Vertical(2), (3, 3));
    assert!(result.is_ok());
    let b = result.unwrap();
    assert_eq!(b.get_cell(2, 2), 1);
    assert_eq!(b.get_cell(3, 2), 1);
    assert_eq!(b.boats(), vec![1, 0, 1, 1]);
}

#[test]
fn test_add_boat_out_of_bounds() {
    let board = Board::new(&[0, 0, 1, 0]);
    let result = board.add_boat(Boat::Horizontal(3), (20, 19));
    assert!(matches!(result, Err(Error::OutOfBounds)));
}

#[test]
fn test_add_boat_overlap_error() {
    let board = Board::new(&[0, 2, 0, 0])
        .add_boat(Boat::Vertical(2), (10, 10))
        .unwrap();
    let result = board.add_boat(Boat::Vertical(2), (9, 9));
    assert!(matches!(result, Err(Error::Overlap)));
}

#[test]
fn test_add_boat_too_many_error() {
    let board = Board::new(&[0, 0, 0, 0]);
    let result = board.add_boat(Boat::Horizontal(2), (5, 5));
    assert!(matches!(result, Err(Error::BoatCount)));
}

#[test]
fn boat_length_outside_one_to_four_is_refused() {
    let board = Board::new(&[1, 1, 1, 1]);
    assert!(matches!(board.add_boat(Boat::Vertical(5), (1, 1)), Err(Error::BoatCount)));
    let board = Board::new(&[1, 1, 1, 1]);
    assert!(matches!(board.add_boat(Boat::Vertical(0), (1, 1)), Err(Error::BoatCount)));
}

#[test]
fn position_zero_or_past_the_edge_is_out_of_bounds() {
    let board = Board::new(&[1, 1, 1, 1]);
    assert!(matches!(board.add_boat(Boat::Horizontal(1), (0, 3)), Err(Error::OutOfBounds)));
    let board = Board::new(&[1, 1, 1, 1]);
    assert!(matches!(board.add_boat(Boat::Vertical(2), (20, 1)), Err(Error::OutOfBounds)));
    let board = Board::new(&[1, 1, 1, 1]);
    assert!(matches!(board.add_boat(Boat::Horizontal(1), (21, 1)), Err(Error::OutOfBounds)));
}

#[test]
fn boats_may_not_touch_diagonally() {
    let board = Board::new(&[2, 0, 0, 0])
        .add_boat(Boat::Horizontal(1), (1, 1))
        .unwrap();
    assert!(matches!(board.add_boat(Boat::Horizontal(1), (2, 2)), Err(Error::Overlap)));
}

#[test]
fn placed_boats_survive_the_text_round_trip() {
    let board = Board::new(&[1, 0, 12, 255])
        .add_boat(Boat::Vertical(1), (1, 20))
        .unwrap();
    let text = board.to_string();
    assert!(text.starts_with("0 0 12 255\n"));
    let again = Board::from(text.clone()).unwrap();
    assert_eq!(again.get_cell(0, 19), 1);
    assert_eq!(again.boats(), vec![0, 0, 12, 255]);
    assert_eq!(again.to_string(), text);
}

#[test]
fn malformed_board_text_is_refused() {
    assert!(Board::from(String::new()).is_none());
    assert!(Board::from("1 2 3".to_string()).is_none());
    assert!(Board::from("1 2 3 256".to_string()).is_none());
    assert!(Board::from("1 2 3 x".to_string()).is_none());
    assert!(Board::from("1 2 3 4\n  X".to_string()).is_none());
    let short = Board::from("+1 2 3 4\r\n B".to_string()).unwrap();
    assert_eq!(short.boats(), vec![1, 2, 3, 4]);
    assert_eq!(short.get_cell(0, 1), 1);
    assert_eq!(short.get_cell(0, 0), 0);
}
