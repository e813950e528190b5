use threes::bitboard::ThreesGameBitBoard;
use threes::faces::{line_top, slide_face_line};
use threes::game::{init_threes_game, ThreesGame};
use threes::gridwork::cell_of;
use threes::tile::{bit_to_num, num_to_bit};

fn plain(rows: [[u32; 4]; 4], deck: Vec<u64>, highest: u32, next: u32) -> ThreesGame {
    let faces: Vec<u32> = rows.iter().flatten().copied().collect();
    ThreesGame::with_state(faces, deck, highest, next).unwrap()
}

fn flat(rows: [[u32; 4]; 4]) -> Vec<u32> {
    rows.iter().flatten().copied().collect()
}

fn differing(a: &[u32], b: &[u32]) -> Vec<usize> {
    (0..16).filter(|p| a[*p] != b[*p]).collect()
}

#[test]
fn cells_of_lines_in_each_direction() {
    assert_eq!(cell_of(0, 2, 0), (2, 0));
    assert_eq!(cell_of(0, 2, 3), (2, 3));
    assert_eq!(cell_of(1, 2, 0), (0, 2));
    assert_eq!(cell_of(1, 2, 3), (3, 2));
    assert_eq!(cell_of(2, 1, 0), (1, 3));
    assert_eq!(cell_of(2, 1, 3), (1, 0));
    assert_eq!(cell_of(3, 1, 0), (3, 1));
    assert_eq!(cell_of(3, 1, 3), (0, 1));
}

#[test]
fn face_lines_slide_as_the_rules_say() {
    assert_eq!(slide_face_line([1, 2, 0, 0]), ([3, 0, 0, 0], true));
    assert_eq!(slide_face_line([2, 1, 6, 6]), ([3, 6, 6, 0], true));
    assert_eq!(slide_face_line([3, 3, 0, 0]), ([6, 0, 0, 0], true));
    assert_eq!(slide_face_line([0, 1, 0, 2]), ([1, 0, 2, 0], true));
    assert_eq!(slide_face_line([1, 1, 0, 2]), ([1, 1, 2, 0], true));
    assert_eq!(slide_face_line([1, 1, 2, 2]), ([1, 3, 2, 0], true));
    assert_eq!(slide_face_line([3, 6, 12, 24]), ([3, 6, 12, 24], false));
    assert_eq!(slide_face_line([1, 1, 6, 3]), ([1, 1, 6, 3], false));
    assert_eq!(slide_face_line([12288, 12288, 0, 0]), ([24576, 0, 0, 0], true));
}

#[test]
fn face_lines_that_look_the_same_have_not_changed() {
    assert_eq!(slide_face_line([0, 0, 0, 0]), ([0, 0, 0, 0], false));
    assert_eq!(slide_face_line([3, 0, 0, 0]), ([3, 0, 0, 0], false));
    assert_eq!(slide_face_line([6, 0, 0, 0]), ([6, 0, 0, 0], false));
    assert_eq!(slide_face_line([1, 0, 0, 0]), ([1, 0, 0, 0], false));
    assert_eq!(slide_face_line([1, 1, 0, 0]), ([1, 1, 0, 0], false));
    assert_eq!(slide_face_line([3, 6, 3, 0]), ([3, 6, 3, 0], false));
}

#[test]
fn face_lines_report_a_change_exactly_when_they_differ() {
    let tiles = [0u32, 1, 2, 3, 6, 12];
    for a in tiles {
        for b in tiles {
            for c in tiles {
                for d in tiles {
                    let (out, changed) = slide_face_line([a, b, c, d]);
                    assert_eq!(changed, out != [a, b, c, d]);
                }
            }
        }
    }
}

#[test]
fn line_top_is_the_largest() {
    assert_eq!(line_top([0, 0, 0, 0]), 0);
    assert_eq!(line_top([3, 96, 1, 2]), 96);
    assert_eq!(line_top([3, 6, 1, 192]), 192);
}

#[test]
fn face_lines_agree_with_code_lines() {
    for row in 0..0x10000u64 {
        let codes = [row & 15, (row >> 4) & 15, (row >> 8) & 15, (row >> 12) & 15];
        if codes.contains(&15) {
            continue;
        }
        let faces = [
            bit_to_num(codes[0]),
            bit_to_num(codes[1]),
            bit_to_num(codes[2]),
            bit_to_num(codes[3]),
        ];
        let slid = threes::line::slide_row(row, 1);
        let (out, _) = slide_face_line(faces);
        for j in 0..4 {
            assert_eq!(num_to_bit(out[j]), (slid >> (4 * j)) & 15);
        }
    }
}

#[test]
fn plain_with_state_keeps_what_it_was_given() {
    let rows = [[96, 1, 0, 0], [0; 4], [0, 2, 0, 0], [0, 0, 0, 3]];
    let g = plain(rows, vec![3, 1], 192, 4);
    assert_eq!(g.faces(), flat(rows));
    assert_eq!(g.deck(), vec![3, 1]);
    assert_eq!(g.highest(), 192);
    assert!(!g.next_is_bonus());
    assert_eq!(g.current_bonus_values(), [24, 12, 6]);
}

#[test]
fn plain_with_state_refuses_invalid_states() {
    let faces = flat([[96, 0, 0, 0], [0; 4], [0; 4], [0; 4]]);
    assert!(ThreesGame::with_state(faces.clone(), vec![], 96, 0).is_some());
    assert!(ThreesGame::with_state(faces.clone(), vec![], 48, 0).is_none());
    assert!(ThreesGame::with_state(faces.clone(), vec![], 100, 0).is_none());
    assert!(ThreesGame::with_state(faces.clone(), vec![], 96, 21).is_none());
    assert!(ThreesGame::with_state(faces.clone(), vec![4], 96, 0).is_none());
    assert!(ThreesGame::with_state(faces[..15].to_vec(), vec![], 96, 0).is_none());
    let mut five = faces.clone();
    five[3] = 5;
    assert!(ThreesGame::with_state(five, vec![], 96, 0).is_none());
    let mut high = faces.clone();
    high[3] = 192;
    assert!(ThreesGame::with_state(high.clone(), vec![], 96, 0).is_none());
    assert!(ThreesGame::with_state(high, vec![], 192, 0).is_some());
}

#[test]
fn plain_texts() {
    let g = plain([[96, 1, 0, 0], [0; 4], [0, 2, 0, 0], [0, 0, 0, 3]], vec![2, 3, 1], 96, 4);
    assert_eq!(g.deck_string(), "[2, 3, 1]");
    assert_eq!(
        g.board_string(),
        "[[96, 1, 0, 0],\n [0, 0, 0, 0],\n [0, 2, 0, 0],\n [0, 0, 0, 3]], shape=[4, 4], strides=[4, 1], layout=Cc (0x5), const ndim=2"
    );
    let g = plain([[0; 4]; 4], vec![], 96, 4);
    assert_eq!(g.deck_string(), "[]");
    let g = plain([[0; 4]; 4], vec![3], 96, 4);
    assert_eq!(g.deck_string(), "[3]");
}

#[test]
fn plain_scores() {
    let g = plain([[3, 6, 1, 2], [0; 4], [0, 96, 0, 0], [12, 0, 0, 3]], vec![], 96, 4);
    assert_eq!(g.calculate_score(), 3 + 9 + 729 + 27 + 3);
    let g = plain([[1, 2, 1, 2], [0; 4], [0; 4], [0; 4]], vec![], 96, 4);
    assert_eq!(g.calculate_score(), 0);
    let g = plain([[196608; 4]; 4], vec![], 196608, 4);
    assert_eq!(g.calculate_score(), 16 * 129140163);
    let g = plain([[196608; 4]; 4], vec![], 1572864, 4);
    assert_eq!(g.calculate_score(), 16 * 129140163);
}

#[test]
fn plain_and_packed_games_score_alike() {
    let rows = [[3, 6, 1, 2], [0, 768, 0, 0], [0, 96, 0, 0], [12, 0, 0, 3]];
    let g = plain(rows, vec![], 768, 4);
    let mut board: u64 = 0;
    for (p, face) in flat(rows).iter().enumerate() {
        board |= num_to_bit(*face) << (4 * p);
    }
    let packed = ThreesGameBitBoard::with_state(board, vec![], 11, 4).unwrap();
    assert_eq!(g.calculate_score(), packed.calculate_score());
}

#[test]
fn a_plain_move_on_still_lines_changes_nothing() {
    let rows = [[1, 1, 1, 1], [2, 2, 2, 2], [6, 12, 6, 12], [96, 3, 1, 3]];
    for dir in [0u32, 2] {
        let mut g = plain(rows, vec![1, 2, 3], 96, 5);
        g.swipe(dir);
        assert_eq!(g.faces(), flat(rows));
        assert_eq!(g.deck(), vec![1, 2, 3]);
        assert_eq!(g.highest(), 96);
    }
}

#[test]
fn a_plain_move_slides_every_line_and_deals_a_card() {
    let rows = [[1, 2, 0, 0], [0, 3, 3, 0], [6, 6, 1, 1], [1, 1, 0, 2]];
    let slid = [
        flat([[3, 0, 0, 0], [3, 3, 0, 0], [12, 1, 1, 0], [1, 1, 2, 0]]),
        flat([[1, 2, 3, 0], [6, 3, 1, 1], [1, 6, 0, 2], [0, 1, 0, 0]]),
        flat([[0, 1, 2, 0], [0, 0, 3, 3], [0, 12, 1, 1], [0, 1, 1, 2]]),
        flat([[0, 2, 0, 0], [1, 3, 0, 0], [6, 6, 3, 0], [1, 1, 1, 3]]),
    ];
    let edges: [[usize; 4]; 4] = [[3, 7, 11, 15], [12, 13, 14, 15], [0, 4, 8, 12], [0, 1, 2, 3]];
    for dir in 0..4usize {
        let mut g = plain(rows, vec![2, 1], 96, 5);
        g.swipe(dir as u32);
        let after = g.faces();
        let changed = differing(&slid[dir], &after);
        assert_eq!(changed.len(), 1);
        assert!(edges[dir].contains(&changed[0]));
        assert_eq!(slid[dir][changed[0]], 0);
        assert_eq!(after[changed[0]], 2);
        assert_eq!(g.deck(), vec![1]);
    }
}

#[test]
fn any_direction_from_three_up_is_down() {
    let rows = [[1, 0, 0, 0], [2, 0, 0, 0], [0; 4], [0, 1, 1, 1]];
    for dir in [3u32, 4, 100] {
        let mut g = plain(rows, vec![3], 96, 5);
        g.swipe(dir);
        let after = g.faces();
        assert_eq!(&after[4..], &flat([[0; 4], [1, 0, 0, 0], [2, 0, 0, 0], [0, 1, 1, 1]])[4..]);
        assert_eq!(after[..4].iter().filter(|f| **f == 3).count(), 1);
        assert_eq!(after[..4].iter().filter(|f| **f == 0).count(), 3);
    }
}

#[test]
fn a_plain_move_that_leaves_the_board_as_it_was_changes_nothing() {
    let rows = [[3, 0, 0, 0], [1, 1, 1, 1], [2, 2, 2, 2], [0, 0, 0, 0]];
    for next in [0u32, 5] {
        let mut g = plain(rows, vec![1, 2], 96, next);
        g.swipe(0);
        assert_eq!(g.faces(), flat(rows));
        assert_eq!(g.deck(), vec![1, 2]);
        assert_eq!(g.highest(), 96);
        assert_eq!(g.next_is_bonus(), next == 0);
    }
    let mut g = plain([[0; 4]; 4], vec![3], 96, 5);
    for dir in 0..4 {
        g.swipe(dir);
        assert_eq!(g.faces(), flat([[0; 4]; 4]));
        assert_eq!(g.deck(), vec![3]);
    }
}

#[test]
fn a_plain_move_deals_a_card_only_into_a_line_that_the_move_emptied_or_left_empty() {
    let rows = [[3, 0, 0, 0], [1, 1, 1, 1], [2, 2, 2, 2], [0, 1, 0, 0]];
    let mut g = plain(rows, vec![2, 1], 96, 5);
    g.swipe(0);
    let after = g.faces();
    assert_eq!(&after[..3], &[3, 0, 0]);
    assert_eq!(&after[4..15], &flat([[0; 4], [1, 1, 1, 1], [2, 2, 2, 2], [1, 0, 0, 0]])[4..15]);
    assert_eq!([after[3], after[15]].iter().filter(|f| **f == 2).count(), 1);
    assert_eq!([after[3], after[15]].iter().filter(|f| **f == 0).count(), 1);
    assert_eq!(g.deck(), vec![1]);
}

#[test]
fn plain_highest_follows_a_merge() {
    let rows = [[96, 96, 0, 0], [0; 4], [0; 4], [1, 1, 1, 1]];
    let mut g = plain(rows, vec![1], 96, 5);
    g.swipe(0);
    assert_eq!(g.faces()[0], 192);
    assert_eq!(g.highest(), 192);
    assert_eq!(g.current_bonus_values(), [24, 12, 6]);
}

#[test]
fn a_plain_bonus_is_earned_by_the_highest_tile_after_the_move() {
    for _ in 0..5 {
        let rows = [[96, 96, 0, 1], [1, 1, 1, 1], [2, 2, 2, 2], [1, 1, 1, 1]];
        let mut g = plain(rows, vec![1], 96, 0);
        g.swipe(0);
        let after = g.faces();
        assert_eq!(&after[..3], &[192, 0, 1]);
        assert!([24, 12, 6].contains(&after[3]));
        assert_eq!(g.deck(), vec![1]);
    }
}

#[test]
fn plain_draws_deal_the_deck_in_order_and_open_a_fresh_bag() {
    let mut g = plain([[0; 4]; 4], vec![2, 3], 96, 1);
    let mut dealt = Vec::new();
    while dealt.len() < 3 {
        let bonus = g.next_is_bonus();
        let card = g.draw_card();
        if bonus {
            assert!([12, 6, 3].contains(&card));
        } else {
            dealt.push(card);
        }
    }
    assert_eq!(&dealt[..2], &[2, 3]);
    let mut cards = g.deck();
    assert_eq!(cards.len(), 11);
    cards.push(dealt[2] as u64);
    cards.sort();
    assert_eq!(cards, vec![1, 1, 1, 1, 2, 2, 2, 2, 3, 3, 3, 3]);
}

#[test]
fn a_new_plain_game_has_the_starting_tile_and_nine_cards() {
    for _ in 0..5 {
        let g = init_threes_game();
        let faces = g.faces();
        assert_eq!(faces[0], 96);
        assert_eq!(faces.iter().filter(|f| **f != 0).count(), 10);
        assert_eq!(g.highest(), 96);
        let mut cards = g.deck();
        assert_eq!(cards.len(), 3);
        for p in 1..16 {
            if faces[p] != 0 {
                cards.push(faces[p] as u64);
            }
        }
        cards.sort();
        assert_eq!(cards, vec![1, 1, 1, 1, 2, 2, 2, 2, 3, 3, 3, 3]);
    }
}

#[test]
fn a_plain_game_stays_valid_over_many_moves() {
    let mut g = init_threes_game();
    for step in 0..400u32 {
        if g.highest() > 0x7FFF_FFFF {
            break;
        }
        let highest = g.highest();
        g.swipe(step % 4);
        assert!(g.highest() >= highest);
        let faces = g.faces();
        assert!(faces.iter().all(|f| *f <= g.highest()));
        assert!(g.deck().len() <= 12);
    }
}
