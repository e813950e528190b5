use threes::bitboard::{bonus_or_largest, init_threes_game_bitboard, ThreesGameBitBoard};
use threes::grid::{highest_on, open_squares, place_card};
use threes::dealer::{cards_in, deck_from, is_leftover, new_deck, take_card};
use threes::score::{pow3, score_board};
use threes::table::build_table;
use threes::text::{board_to_string, cards_to_string, list_to_string, push_number};
use threes::tile::num_to_bit;
use std::collections::VecDeque;

fn board_of(rows: [[u32; 4]; 4]) -> u64 {
    let mut board: u64 = 0;
    for r in 0..4 {
        for c in 0..4 {
            board |= num_to_bit(rows[r][c]) << (4 * (4 * r + c));
        }
    }
    board
}

fn cell(board: u64, p: usize) -> u64 {
    (board >> (4 * p)) & 15
}

fn tiles_on(board: u64) -> usize {
    (0..16).filter(|p| cell(board, *p) != 0).count()
}

fn game(rows: [[u32; 4]; 4], deck: Vec<u64>, highest: u64, next: u32) -> ThreesGameBitBoard {
    ThreesGameBitBoard::with_state(board_of(rows), deck, highest, next).unwrap()
}

// The cells where `after` differs from `slid`: the card that a move dealt.
fn dealt_cells(slid: u64, after: u64) -> Vec<usize> {
    (0..16).filter(|p| cell(slid, *p) != cell(after, *p)).collect()
}

#[test]
fn table_holds_every_line_at_every_place() {
    for dir in 0..4 {
        assert_eq!(build_table(dir).len(), 4 * 0xFFFF + 1);
    }
}

#[test]
fn table_rows_slide_left_and_right() {
    let left = build_table(0);
    let right = build_table(2);
    let key = board_of([[0; 4], [1, 2, 0, 0], [0; 4], [0; 4]]);
    assert_eq!(left.get(&key), Some(&board_of([[0; 4], [3, 0, 0, 0], [0; 4], [0; 4]])));
    assert_eq!(right.get(&key), Some(&board_of([[0; 4], [0, 1, 2, 0], [0; 4], [0; 4]])));
    let key = board_of([[0; 4], [0; 4], [0; 4], [0, 0, 3, 3]]);
    assert_eq!(left.get(&key), Some(&board_of([[0; 4], [0; 4], [0; 4], [0, 3, 3, 0]])));
    assert_eq!(right.get(&key), Some(&board_of([[0; 4], [0; 4], [0; 4], [0, 0, 0, 6]])));
}

#[test]
fn table_columns_slide_up_and_down() {
    let up = build_table(1);
    let down = build_table(3);
    let key = board_of([[0, 0, 6, 0], [0, 0, 6, 0], [0, 0, 1, 0], [0, 0, 0, 0]]);
    assert_eq!(
        up.get(&key),
        Some(&board_of([[0, 0, 12, 0], [0, 0, 1, 0], [0, 0, 0, 0], [0, 0, 0, 0]]))
    );
    assert_eq!(
        down.get(&key),
        Some(&board_of([[0, 0, 0, 0], [0, 0, 6, 0], [0, 0, 6, 0], [0, 0, 1, 0]]))
    );
}

#[test]
fn table_has_no_entry_for_a_board_with_two_lines() {
    let left = build_table(0);
    assert_eq!(left.get(&board_of([[1, 0, 0, 0], [1, 0, 0, 0], [0; 4], [0; 4]])), None);
    let up = build_table(1);
    assert_eq!(up.get(&board_of([[1, 1, 0, 0], [0; 4], [0; 4], [0; 4]])), None);
}

#[test]
fn open_squares_lists_the_empty_cells_of_the_far_edge() {
    let board = board_of([[1, 0, 0, 0], [0, 0, 0, 2], [3, 0, 0, 0], [0, 1, 0, 3]]);
    assert_eq!(open_squares(board, 0), vec![3, 11]);
    assert_eq!(open_squares(board, 1), vec![12, 14]);
    assert_eq!(open_squares(board, 2), vec![4, 12]);
    assert_eq!(open_squares(board, 3), vec![1, 2, 3]);
}

#[test]
fn open_squares_of_a_full_edge_is_empty() {
    let board = board_of([[1, 1, 1, 1], [0; 4], [0; 4], [0; 4]]);
    assert_eq!(open_squares(board, 3), Vec::<usize>::new());
    assert_eq!(open_squares(0, 0), vec![3, 7, 11, 15]);
}

#[test]
fn place_card_fills_one_cell() {
    let board = board_of([[1, 0, 0, 0], [0; 4], [0; 4], [0; 4]]);
    assert_eq!(place_card(board, 3, Some(5)), board_of([[1, 0, 0, 0], [0, 3, 0, 0], [0; 4], [0; 4]]));
    assert_eq!(place_card(board, 2, Some(15)), board_of([[1, 0, 0, 0], [0; 4], [0; 4], [0, 0, 0, 2]]));
    assert_eq!(place_card(board, 3, None), board);
}

#[test]
fn highest_on_finds_the_largest_code() {
    assert_eq!(highest_on(0), 0);
    assert_eq!(highest_on(board_of([[1, 2, 3, 0], [0; 4], [0, 96, 0, 0], [6, 0, 0, 0]])), 8);
    assert_eq!(highest_on(0xF000_0000_0000_0001), 15);
}

#[test]
fn bonus_falls_back_to_the_largest() {
    assert_eq!(bonus_or_largest(Some(4), 8), 4);
    assert_eq!(bonus_or_largest(None, 8), 5);
    assert_eq!(bonus_or_largest(None, 15), 12);
}

#[test]
fn powers_of_three() {
    assert_eq!(pow3(0), 1);
    assert_eq!(pow3(1), 3);
    assert_eq!(pow3(2), 9);
    assert_eq!(pow3(13), 1594323);
}

#[test]
fn small_tiles_score_nothing() {
    assert_eq!(score_board(0), 0);
    assert_eq!(score_board(board_of([[1, 2, 1, 2], [2, 1, 2, 1], [0; 4], [1, 1, 2, 2]])), 0);
}

#[test]
fn a_three_scores_three_and_each_doubling_triples() {
    assert_eq!(score_board(board_of([[3, 0, 0, 0], [0; 4], [0; 4], [0; 4]])), 3);
    assert_eq!(score_board(board_of([[6, 0, 0, 0], [0; 4], [0; 4], [0; 4]])), 9);
    assert_eq!(score_board(board_of([[0; 4], [0, 12, 0, 0], [0; 4], [0; 4]])), 27);
    assert_eq!(score_board(board_of([[0; 4], [0; 4], [0; 4], [0, 0, 0, 96]])), 729);
    assert_eq!(score_board(board_of([[3, 6, 1, 2], [0; 4], [0, 96, 0, 0], [0; 4]])), 741);
}

#[test]
fn a_full_board_of_top_tiles_scores_without_overflow() {
    assert_eq!(score_board(u64::MAX), 16 * 1594323);
}

#[test]
fn score_does_not_depend_on_where_the_tiles_lie() {
    let a = board_of([[3, 6, 1, 2], [0, 0, 0, 0], [0, 96, 0, 0], [12, 0, 0, 3]]);
    let b = board_of([[0, 3, 0, 96], [12, 0, 0, 0], [2, 0, 3, 0], [6, 0, 1, 0]]);
    assert_eq!(score_board(a), score_board(b));
    assert_eq!(score_board(a), 3 + 9 + 729 + 27 + 3);
}

#[test]
fn merging_one_and_two_scores_three() {
    let mut g = game([[1, 2, 0, 0], [0; 4], [0; 4], [0; 4]], vec![1, 1], 8, 5);
    assert_eq!(g.calculate_score(), 0);
    g.swipe(0);
    assert_eq!(cell(g.board(), 0), 3);
    assert_eq!(cell(g.board(), 1), 0);
    assert_eq!(g.calculate_score(), 3);
}

#[test]
fn merging_two_threes_scores_nine() {
    let mut g = game([[3, 3, 0, 0], [0; 4], [0; 4], [0; 4]], vec![1, 1], 8, 5);
    assert_eq!(g.calculate_score(), 6);
    g.swipe(0);
    assert_eq!(cell(g.board(), 0), 4);
    assert_eq!(cell(g.board(), 1), 0);
    assert_eq!(g.calculate_score(), 9);
}

#[test]
fn board_text_shows_faces_row_by_row() {
    let board = board_of([[3, 6, 1, 2], [0, 0, 0, 0], [0, 96, 0, 0], [12288, 0, 0, 3]]);
    assert_eq!(board_to_string(board), "3 6 1 2 \n0 0 0 0 \n0 96 0 0 \n12288 0 0 3 \n");
    let g = ThreesGameBitBoard::with_state(board, vec![], 15, 1).unwrap();
    assert_eq!(g.board_string(), "3 6 1 2 \n0 0 0 0 \n0 96 0 0 \n12288 0 0 3 \n");
}

#[test]
fn deck_text_shows_the_next_card_first() {
    let g = game([[0; 4]; 4], vec![2, 3, 1], 8, 1);
    assert_eq!(g.deck_string(), "2 3 1 \n");
    let g = game([[0; 4]; 4], vec![], 8, 1);
    assert_eq!(g.deck_string(), "\n");
    assert_eq!(cards_to_string(&VecDeque::from(vec![3u64, 4, 8])), "3 6 96 \n");
}

#[test]
fn numbers_in_decimal() {
    for (n, text) in [
        (0u64, "0"),
        (7, "7"),
        (10, "10"),
        (96, "96"),
        (1000, "1000"),
        (12288, "12288"),
        (3221225472, "3221225472"),
        (u64::MAX, "18446744073709551615"),
    ] {
        let mut s = String::from("n=");
        push_number(&mut s, n);
        assert_eq!(s, format!("n={}", text));
        assert_eq!(s, format!("n={}", n));
    }
}

#[test]
fn lists_in_square_brackets() {
    assert_eq!(list_to_string(&VecDeque::new()), "[]");
    assert_eq!(list_to_string(&VecDeque::from(vec![3u64])), "[3]");
    assert_eq!(list_to_string(&VecDeque::from(vec![3u64, 10, 0])), "[3, 10, 0]");
    let deck = VecDeque::from(vec![1u64, 2, 3, 96]);
    assert_eq!(list_to_string(&deck), format!("{:?}", deck));
}

#[test]
fn leftover_decks() {
    assert!(is_leftover(&vec![]));
    assert!(is_leftover(&vec![1, 1, 1, 1, 2, 2, 2, 2, 3, 3, 3, 3]));
    assert!(is_leftover(&vec![3, 1, 3]));
    assert!(!is_leftover(&vec![1, 1, 1, 1, 1]));
    assert!(!is_leftover(&vec![2, 2, 3, 2, 2, 2]));
    assert!(!is_leftover(&vec![3, 3, 3, 3, 3]));
    assert!(!is_leftover(&vec![0]));
    assert!(!is_leftover(&vec![1, 4]));
}

#[test]
fn with_state_refuses_invalid_states() {
    let board = board_of([[96, 0, 0, 0], [0; 4], [0; 4], [0; 4]]);
    assert!(ThreesGameBitBoard::with_state(board, vec![1, 2], 8, 0).is_some());
    assert!(ThreesGameBitBoard::with_state(board, vec![1, 2], 7, 0).is_none());
    assert!(ThreesGameBitBoard::with_state(board, vec![1, 2], 16, 0).is_none());
    assert!(ThreesGameBitBoard::with_state(board, vec![1, 2], 8, 21).is_none());
    assert!(ThreesGameBitBoard::with_state(board, vec![1, 5], 8, 0).is_none());
    assert!(ThreesGameBitBoard::with_state(board, vec![1, 1, 1, 1, 1], 8, 0).is_none());
    let high = board_of([[192, 0, 0, 0], [0; 4], [0; 4], [0; 4]]);
    assert!(ThreesGameBitBoard::with_state(high, vec![], 8, 0).is_none());
    assert!(ThreesGameBitBoard::with_state(high, vec![], 9, 0).is_some());
}

#[test]
fn with_state_keeps_what_it_was_given() {
    let board = board_of([[96, 1, 0, 0], [0; 4], [0, 2, 0, 0], [0; 4]]);
    let g = ThreesGameBitBoard::with_state(board, vec![3, 1, 2], 10, 4).unwrap();
    assert_eq!(g.board(), board);
    assert_eq!(g.deck(), vec![3, 1, 2]);
    assert_eq!(g.highest(), 10);
    assert!(!g.next_is_bonus());
    assert_eq!(g.current_bonus_values(), [7, 6, 5]);
    let g = ThreesGameBitBoard::with_state(board, vec![], 8, 0).unwrap();
    assert!(g.next_is_bonus());
    assert_eq!(g.current_bonus_values(), [5, 4, 3]);
}

#[test]
fn slide_board_moves_every_line() {
    let g = game([[1, 2, 0, 0], [0, 3, 3, 0], [6, 6, 1, 1], [1, 1, 0, 2]], vec![], 8, 1);
    assert_eq!(g.slide_board(0), board_of([[3, 0, 0, 0], [3, 3, 0, 0], [12, 1, 1, 0], [1, 1, 2, 0]]));
    assert_eq!(g.slide_board(2), board_of([[0, 1, 2, 0], [0, 0, 3, 3], [0, 12, 1, 1], [0, 1, 1, 2]]));
    assert_eq!(g.slide_board(1), board_of([[1, 2, 3, 0], [6, 3, 1, 1], [1, 6, 0, 2], [0, 1, 0, 0]]));
    assert_eq!(g.slide_board(3), board_of([[0, 2, 0, 0], [1, 3, 0, 0], [6, 6, 3, 0], [1, 1, 1, 3]]));
}

#[test]
fn slide_board_does_not_change_the_game() {
    let g = game([[1, 2, 0, 0], [0; 4], [0; 4], [0; 4]], vec![1], 8, 1);
    let before = g.board();
    let _ = g.slide_board(0);
    assert_eq!(g.board(), before);
    assert_eq!(g.deck(), vec![1]);
}

#[test]
fn a_move_that_changes_nothing_leaves_the_game_as_it_was() {
    let rows = [[3, 0, 0, 0], [1, 1, 0, 0], [96, 6, 3, 1], [0; 4]];
    for next in [0u32, 7] {
        let mut g = game(rows, vec![2, 3, 1], 9, next);
        g.swipe(0);
        assert_eq!(g.board(), board_of(rows));
        assert_eq!(g.deck(), vec![2, 3, 1]);
        assert_eq!(g.highest(), 9);
        assert_eq!(g.next_is_bonus(), next == 0);
    }
}

#[test]
fn a_move_deals_the_front_card_onto_the_far_edge() {
    for dir in 0..4 {
        let rows = [[0, 0, 0, 0], [0, 1, 2, 0], [0, 2, 1, 0], [0, 0, 0, 0]];
        let mut g = game(rows, vec![3, 1, 2], 8, 5);
        let slid = g.slide_board(dir);
        let open = open_squares(slid, dir);
        g.swipe(dir);
        let changed = dealt_cells(slid, g.board());
        assert_eq!(changed.len(), 1);
        assert!(open.contains(&changed[0]));
        assert_eq!(cell(g.board(), changed[0]), 3);
        assert_eq!(g.deck(), vec![1, 2]);
        assert_eq!(g.highest(), 8);
    }
}

#[test]
fn a_move_into_a_single_opening_fills_it() {
    let rows = [[1, 1, 1, 1], [2, 2, 2, 2], [3, 6, 3, 6], [0, 0, 0, 1]];
    let mut g = game(rows, vec![2], 8, 3);
    g.swipe(0);
    assert_eq!(g.board(), board_of([[1, 1, 1, 1], [2, 2, 2, 2], [3, 6, 3, 6], [0, 0, 1, 2]]));
    assert_eq!(g.deck(), Vec::<u64>::new());
}

#[test]
fn a_bonus_move_deals_one_of_the_bonus_tiles_and_keeps_the_deck() {
    for _ in 0..5 {
        let rows = [[0, 1, 0, 0], [0; 4], [0; 4], [0, 0, 0, 768]];
        let mut g = game(rows, vec![3, 1, 2], 11, 0);
        assert_eq!(g.current_bonus_values(), [8, 7, 6]);
        let slid = g.slide_board(1);
        g.swipe(1);
        let changed = dealt_cells(slid, g.board());
        assert_eq!(changed.len(), 1);
        assert!(changed[0] >= 12);
        assert!([8, 7, 6].contains(&cell(g.board(), changed[0])));
        assert_eq!(g.deck(), vec![3, 1, 2]);
    }
}

#[test]
fn a_move_on_an_empty_deck_opens_a_fresh_bag() {
    let rows = [[0, 1, 0, 0], [0; 4], [0; 4], [0; 4]];
    let mut g = game(rows, vec![], 8, 2);
    let slid = g.slide_board(0);
    g.swipe(0);
    let changed = dealt_cells(slid, g.board());
    assert_eq!(changed.len(), 1);
    let mut cards = g.deck();
    assert_eq!(cards.len(), 11);
    cards.push(cell(g.board(), changed[0]));
    cards.sort();
    assert_eq!(cards, vec![1, 1, 1, 1, 2, 2, 2, 2, 3, 3, 3, 3]);
}

#[test]
fn highest_follows_a_merge() {
    let rows = [[96, 96, 0, 0], [0; 4], [0; 4], [0; 4]];
    let mut g = game(rows, vec![1], 8, 2);
    g.swipe(0);
    assert_eq!(cell(g.board(), 0), 9);
    assert_eq!(g.highest(), 9);
    assert_eq!(g.current_bonus_values(), [6, 5, 4]);
}

#[test]
fn highest_never_falls() {
    let rows = [[3, 3, 0, 0], [0; 4], [0; 4], [0; 4]];
    let mut g = game(rows, vec![1], 12, 2);
    g.swipe(0);
    assert_eq!(g.highest(), 12);
}

#[test]
fn draw_card_deals_the_deck_in_order() {
    let mut g = game([[0; 4]; 4], vec![2, 3, 1], 8, 1);
    let mut dealt = Vec::new();
    while dealt.len() < 3 {
        let bonus = g.next_is_bonus();
        let card = g.draw_card();
        if bonus {
            assert!([5, 4, 3].contains(&card));
        } else {
            dealt.push(card);
        }
    }
    assert_eq!(dealt, vec![2, 3, 1]);
    assert_eq!(g.deck(), Vec::<u64>::new());
}

#[test]
fn twelve_cards_from_a_fresh_bag_are_four_of_each() {
    let mut rng = rand::thread_rng();
    for _ in 0..20 {
        let mut deck = new_deck(&mut rng);
        assert_eq!(deck.len(), 12);
        let mut counts = [0usize; 4];
        for _ in 0..12 {
            let card = take_card(&mut deck);
            assert!((1..=3).contains(&card));
            counts[card as usize] += 1;
        }
        assert_eq!(counts, [0, 4, 4, 4]);
        assert_eq!(deck.len(), 0);
        assert_eq!(take_card(&mut deck), 3);
        assert_eq!(deck.len(), 0);
    }
}

#[test]
fn the_thirteenth_card_comes_from_a_fresh_bag() {
    let mut g = game([[0; 4]; 4], vec![1, 1, 1, 1, 2, 2, 2, 2, 3, 3, 3, 3], 8, 1);
    let mut from_deck = 0;
    let mut thirteenth = 0;
    while from_deck < 13 {
        let bonus = g.next_is_bonus();
        let before = g.deck().len();
        let card = g.draw_card();
        if bonus {
            assert_eq!(g.deck().len(), before);
        } else {
            from_deck += 1;
            thirteenth = card;
        }
    }
    let mut cards = g.deck();
    assert_eq!(cards.len(), 11);
    cards.push(thirteenth);
    cards.sort();
    assert_eq!(cards, vec![1, 1, 1, 1, 2, 2, 2, 2, 3, 3, 3, 3]);
}

#[test]
fn a_bonus_comes_sooner_or_later() {
    let mut g = game([[0; 4]; 4], vec![], 8, 1);
    let mut seen = false;
    for _ in 0..5000 {
        g.draw_card();
        seen = seen || g.next_is_bonus();
    }
    assert!(seen);
}

#[test]
fn fresh_bags_come_in_different_orders() {
    let mut rng = rand::thread_rng();
    let first: Vec<u64> = new_deck(&mut rng).into_iter().collect();
    let mut differs = false;
    for _ in 0..50 {
        let next: Vec<u64> = new_deck(&mut rng).into_iter().collect();
        differs = differs || next != first;
    }
    assert!(differs);
}

#[test]
fn commit_places_the_card_and_raises_highest() {
    let mut g = game([[0; 4]; 4], vec![1, 2], 8, 4);
    let slid = board_of([[192, 0, 0, 0], [0; 4], [0; 4], [0; 4]]);
    g.commit(slid, 3, Some(7));
    assert_eq!(g.board(), board_of([[192, 0, 0, 0], [0, 0, 0, 3], [0; 4], [0; 4]]));
    assert_eq!(g.highest(), 9);
    assert_eq!(g.deck(), vec![1, 2]);
    g.commit(board_of([[1, 0, 0, 0], [0; 4], [0; 4], [0; 4]]), 2, None);
    assert_eq!(g.board(), board_of([[1, 0, 0, 0], [0; 4], [0; 4], [0; 4]]));
    assert_eq!(g.highest(), 9);
}

#[test]
fn decks_and_card_lists_convert_both_ways() {
    let deck = deck_from(&vec![3, 1, 2]);
    assert_eq!(deck, VecDeque::from(vec![3u64, 1, 2]));
    assert_eq!(cards_in(&deck), vec![3, 1, 2]);
    assert_eq!(cards_in(&deck_from(&vec![])), Vec::<u64>::new());
}

#[test]
fn take_card_takes_the_front() {
    let mut deck = VecDeque::from(vec![2u64, 1, 3]);
    assert_eq!(take_card(&mut deck), 2);
    assert_eq!(deck, VecDeque::from(vec![1u64, 3]));
    assert_eq!(take_card(&mut deck), 1);
    assert_eq!(take_card(&mut deck), 3);
    assert_eq!(take_card(&mut deck), 3);
    assert!(deck.is_empty());
}

#[test]
fn a_new_game_has_the_starting_tile_and_nine_cards_on_the_board() {
    for _ in 0..3 {
        let g = init_threes_game_bitboard();
        let board = g.board();
        assert_eq!(cell(board, 0), 8);
        assert_eq!(tiles_on(board), 10);
        assert_eq!(g.highest(), 8);
        assert_eq!(g.current_bonus_values(), [5, 4, 3]);
        let mut cards = g.deck();
        assert_eq!(cards.len(), 3);
        for p in 1..16 {
            if cell(board, p) != 0 {
                cards.push(cell(board, p));
            }
        }
        cards.sort();
        assert_eq!(cards, vec![1, 1, 1, 1, 2, 2, 2, 2, 3, 3, 3, 3]);
        assert_eq!(g.calculate_score(), 729 + 3 * cards_on_board_that_are_threes(&g));
    }
}

fn cards_on_board_that_are_threes(g: &ThreesGameBitBoard) -> u32 {
    (1..16).filter(|p| cell(g.board(), *p) == 3).count() as u32
}

#[test]
fn a_game_keeps_its_tiles_in_range_over_many_moves() {
    let mut g = init_threes_game_bitboard();
    for step in 0..400 {
        let before = g.board();
        let highest = g.highest();
        g.swipe(step % 4);
        assert!(g.highest() >= highest);
        assert!(highest_on(g.board()) <= g.highest());
        assert!(g.deck().len() <= 12);
        if g.board() != before {
            assert!(tiles_on(g.board()) <= tiles_on(before) + 1);
        }
    }
}
