//! The plain game: the same rules on a grid of face values, cell by cell
//! and without tables. It is slow and easy to read, and the game on codes
//! is held against it.

use rand::rngs::ThreadRng;
use std::collections::VecDeque;
use vstd::prelude::*;
use vstd::arithmetic::power2::lemma2_to64;
use crate::bitboard::{start_squares, INITIAL_STEPS, INIT_HIGHEST};
use crate::chance::{local_rng, pick_one, roll};
use crate::dealer::{
    cards_in, deck_from, full_bag, is_leftover, is_part_of_bag, lemma_part_of_bag, lemma_rest_keeps_to_bag,
    lemma_rest_of_bag, new_deck, take_card, BAG_SIZE, BONUS_DIV, BONUS_ODDS,
};
use crate::facegrid::{grid_cols, grid_debug, grid_debug_text, grid_faces, zeros, FaceGrid};
use crate::faces::{
    as_nats, codes_from, has_opening, lemma_bonus_faces, lemma_faces_compare,
    lemma_changed_opens, lemma_swiped_faces_are_faces, swiped_faces, way,
    MAX_SAFE_FACE,
};
use crate::grid::{
    is_opening, lemma_top_code_bounds, lemma_top_code_is_there, top_code,
};
use crate::gridwork::{grid_top, open_cells, read_cell, slide_grid, write_cell};
use crate::line::BOARD_SIZE;
use crate::score::{lemma_powers_of_three, pow3, score_of};
use crate::text::{list_text, list_to_string};
use crate::tile::{
    checked_num_to_bit, code_of, face_of, is_face_value, lemma_face_of_increases, num_to_bit,
};

verus! {

/// The largest tile of which sixteen score within a `u32`.
pub const MAX_SCORED_FACE: u32 = 196608;

/// What a plain game is, apart from its source of chance.
pub struct PlainView {
    /// The face values of the sixteen cells, row by row from the top left.
    pub faces: Seq<nat>,
    /// The cards still to be dealt, the next one first.
    pub deck: Seq<u64>,
    /// The largest face value that was ever on the board.
    pub highest: nat,
    /// The last roll; 0 makes the next card a bonus tile.
    pub next: nat,
}

/// Every cell shows a face value, the deck is left over from one bag, and
/// `highest` is a face value, at least the starting tile and every tile on
/// the board.
pub open spec fn valid_plain(v: PlainView) -> bool {
    &&& v.faces.len() == 16
    &&& forall|p: int|
        0 <= p < 16 ==> is_face_value(#[trigger] v.faces[p]) && v.faces[p] <= v.highest
    &&& is_face_value(v.highest)
    &&& v.highest >= INIT_HIGHEST
    &&& is_part_of_bag(v.deck)
    &&& v.next < BONUS_ODDS
}

/// The three bonus tiles that a highest tile of face `highest` earns.
pub open spec fn plain_bonus_values(highest: nat) -> Seq<u32> {
    seq![
        (highest / 8) as u32,
        (highest / 8 / 2) as u32,
        (highest / 8 / 4) as u32,
    ]
}

/// How dealing `card` changes deck and roll: a bonus tile if the last roll
/// was 0, earned by the highest tile as it stands after the move; else the
/// front card of the deck, from a fresh bag if the deck was empty; and a new
/// roll.
pub open spec fn plain_dealt(before: PlainView, after: PlainView, card: u32) -> bool {
    &&& after.next < BONUS_ODDS
    &&& if before.next == 0 {
        after.deck == before.deck && plain_bonus_values(after.highest).contains(card)
    } else if before.deck.len() > 0 {
        card == before.deck[0] && after.deck == before.deck.subrange(1, before.deck.len() as int)
    } else {
        after.deck.len() == BAG_SIZE - 1 && after.deck.to_multiset().insert(card as u64)
            == full_bag()
    }
}

/// The plain game.
pub struct ThreesGame {
    board: FaceGrid,
    deck: VecDeque<u64>,
    highest: u32,
    rng: ThreadRng,
    next: u32,
}

impl View for ThreesGame {
    type V = PlainView;

    closed spec fn view(&self) -> PlainView {
        PlainView {
            faces: as_nats(grid_faces(self.board)),
            deck: self.deck@,
            highest: self.highest as nat,
            next: self.next as nat,
        }
    }
}

impl ThreesGame {
    /// The grid has four rows of four cells.
    pub closed spec fn is_four_by_four(&self) -> bool {
        &&& grid_cols(self.board) == 4
        &&& grid_faces(self.board).len() == 16
    }

    /// The grid has four rows of four cells, and the state is valid.
    pub open spec fn wf(&self) -> bool {
        &&& self.is_four_by_four()
        &&& valid_plain(self@)
    }

    /// The face values on the board, row by row from the top left.
    pub fn faces(&self) -> (faces: Vec<u32>)
        requires
            self.wf(),
        ensures
            as_nats(faces@) == self@.faces,
    {
        let mut faces: Vec<u32> = Vec::new();
        let mut p: usize = 0;
        while p < 16
            invariant
                self.wf(),
                p <= 16,
                faces@ =~= grid_faces(self.board).take(p as int),
            decreases 16 - p,
        {
            faces.push(read_cell(&self.board, p / 4, p % 4));
            p += 1;
        }
        assert(faces@ =~= grid_faces(self.board));
        faces
    }

    /// The largest face value that was ever on the board.
    pub fn highest(&self) -> (highest: u32)
        ensures
            highest == self@.highest,
    {
        self.highest
    }

    /// The cards still to be dealt, the next one first.
    pub fn deck(&self) -> (deck: Vec<u64>)
        ensures
            deck@ == self@.deck,
    {
        cards_in(&self.deck)
    }

    /// The deck as a list in square brackets, the next card first.
    pub fn deck_string(&self) -> (text: String)
        ensures
            text@ == list_text(self@.deck),
    {
        list_to_string(&self.deck)
    }

    /// The board as `ndarray` writes a two-dimensional array.
    pub fn board_string(&self) -> (text: String)
        requires
            self.wf(),
        ensures
            text@ == grid_debug_text(Seq::new(16, |p: int| self@.faces[p] as u32), 4, 4),
    {
        assert(Seq::new(16, |p: int| self@.faces[p] as u32) =~= grid_faces(self.board));
        grid_debug(&self.board)
    }

    /// Whether the next card dealt is a bonus tile.
    pub fn next_is_bonus(&self) -> (bonus: bool)
        ensures
            bonus == (self@.next == 0),
    {
        self.next == 0
    }

    /// The three tiles of which one is dealt as a bonus.
    pub fn current_bonus_values(&self) -> (values: [u32; 3])
        ensures
            values@ == plain_bonus_values(self@.highest),
    {
        let values: [u32; 3] = [
            self.highest / BONUS_DIV,
            self.highest / BONUS_DIV / 2,
            self.highest / BONUS_DIV / 4,
        ];
        assert(values@ =~= plain_bonus_values(self@.highest));
        values
    }

    /// Deals one card: a bonus tile if the last roll was 0, else the front
    /// card of the deck, which is filled from a fresh bag when it is empty.
    /// Then rolls again.
    pub fn draw_card(&mut self) -> (card: u32)
        requires
            old(self).wf(),
        ensures
            final(self).wf(),
            plain_dealt(old(self)@, final(self)@, card),
            final(self)@.faces == old(self)@.faces,
            final(self)@.highest == old(self)@.highest,
            is_face_value(card as nat),
            1 <= card <= old(self)@.highest,
    {
        let card: u32;
        if self.next == 0 {
            let bonuses: [u32; 3] = self.current_bonus_values();
            let options: Vec<u32> = vec![bonuses[0], bonuses[1], bonuses[2]];
            assert(options@ =~= plain_bonus_values(self@.highest));
            proof {
                lemma_bonus_faces(self@.highest);
            }
            card = match pick_one(&mut self.rng, &options) {
                Some(bonus) => bonus,
                None => self.highest / BONUS_DIV,
            };
        } else {
            if self.deck.len() == 0 {
                self.deck = new_deck(&mut self.rng);
                assert(is_part_of_bag(self.deck@));
            }
            proof {
                lemma_rest_of_bag(self.deck@);
                lemma_part_of_bag(self.deck@);
                lemma2_to64();
                assert(face_of(1) == 1 && face_of(2) == 2 && face_of(3) == 3);
            }
            card = take_card(&mut self.deck) as u32;
        }
        self.next = roll(&mut self.rng, BONUS_ODDS);
        card
    }

    /// One move. The tiles slide toward the edge that `dir` names: 0 left,
    /// 1 up, 2 right, anything else down. If that leaves the board as it
    /// was, nothing changes at all. If not, `highest` follows the board, and
    /// one card is dealt into an empty cell of the opposite edge.
    pub fn swipe(&mut self, dir: u32)
        requires
            old(self).wf(),
            old(self)@.highest <= MAX_SAFE_FACE,
        ensures
            final(self).wf(),
            swiped_faces(old(self)@.faces, way(dir)) == old(self)@.faces ==> *final(self) == *old(
                self,
            ),
            swiped_faces(old(self)@.faces, way(dir)) != old(self)@.faces ==> final(self)@.highest
                == (if top_code(
                swiped_faces(old(self)@.faces, way(dir)),
            ) > old(self)@.highest {
                top_code(swiped_faces(old(self)@.faces, way(dir)))
            } else {
                old(self)@.highest
            }),
            swiped_faces(old(self)@.faces, way(dir)) != old(self)@.faces ==> exists|
                card: u32,
                at: int,
            |
                {
                    &&& #[trigger] is_opening(
                        swiped_faces(old(self)@.faces, way(dir)),
                        way(dir),
                        at,
                    )
                    &&& #[trigger] plain_dealt(old(self)@, final(self)@, card)
                    &&& final(self)@.faces == swiped_faces(old(self)@.faces, way(dir)).update(
                        at,
                        card as nat,
                    )
                },
    {
        let d: usize = if dir < 3 {
            dir as usize
        } else {
            3
        };
        let ghost start = self@;
        let ghost slid = swiped_faces(start.faces, d as int);
        proof {
            assert forall|p: int| 0 <= p < 16 implies #[trigger] grid_faces(self.board)[p]
                <= MAX_SAFE_FACE by {
                assert(start.faces[p] <= start.highest);
            }
        }
        let changed: bool = slide_grid(&mut self.board, d);
        if changed {
            proof {
                lemma_swiped_faces_are_faces(start.faces, d as int);
            }
            self.raise_highest();
            let ghost raised = self@;
            self.deal_into_opening(d);
            proof {
                lemma_changed_opens(start.faces, d as int);
                if has_opening(slid, d as int) {
                    let (card, at) = choose|card: u32, at: int|
                        {
                            &&& #[trigger] is_opening(raised.faces, d as int, at)
                            &&& #[trigger] plain_dealt(raised, self@, card)
                            &&& self@.faces == raised.faces.update(at, card as nat)
                        };
                    assert(is_opening(slid, d as int, at));
                    assert(plain_dealt(start, self@, card));
                }
            }
        }
    }

    /// Raises `highest` to the largest tile on the board.
    fn raise_highest(&mut self)
        requires
            grid_cols(old(self).board) == 4,
            grid_faces(old(self).board).len() == 16,
            forall|p: int| 0 <= p < 16 ==> is_face_value(#[trigger] old(self)@.faces[p]),
            is_face_value(old(self)@.highest),
            old(self)@.highest >= INIT_HIGHEST,
            is_part_of_bag(old(self)@.deck),
            old(self)@.next < BONUS_ODDS,
        ensures
            final(self).wf(),
            final(self)@.faces == old(self)@.faces,
            final(self)@.deck == old(self)@.deck,
            final(self)@.next == old(self)@.next,
            final(self)@.highest == (if top_code(old(self)@.faces) > old(self)@.highest {
                top_code(old(self)@.faces)
            } else {
                old(self)@.highest
            }),
    {
        let top: u32 = grid_top(&self.board);
        proof {
            let c = self@.faces;
            assert forall|p: int| 0 <= p < 16 implies c[p] <= top by {
                lemma_top_code_bounds(c, p);
            }
            lemma_top_code_is_there(c);
        }
        if top > self.highest {
            self.highest = top;
        }
    }

    /// Deals one card into an empty cell of the edge that direction `dir`
    /// pushes away from; nothing if that edge is full.
    fn deal_into_opening(&mut self, dir: usize)
        requires
            old(self).wf(),
            dir < 4,
        ensures
            final(self).wf(),
            final(self)@.highest == old(self)@.highest,
            !has_opening(old(self)@.faces, dir as int) ==> *final(self) == *old(self),
            has_opening(old(self)@.faces, dir as int) ==> exists|card: u32, at: int|
                {
                    &&& #[trigger] is_opening(old(self)@.faces, dir as int, at)
                    &&& #[trigger] plain_dealt(old(self)@, final(self)@, card)
                    &&& final(self)@.faces == old(self)@.faces.update(at, card as nat)
                },
    {
        let open: Vec<usize> = open_cells(&self.board, dir);
        let ghost start = self@;
        if open.len() > 0 {
            let card: u32 = self.draw_card();
            let picked: Option<usize> = pick_one(&mut self.rng, &open);
            let at: usize = match picked {
                Some(at) => at,
                None => 0,
            };
            proof {
                assert(open@.contains(at));
                assert(is_opening(start.faces, dir as int, at as int));
            }
            let ghost drawn = self@;
            write_cell(&mut self.board, at / 4, at % 4, card);
            proof {
                assert(self@.faces =~= start.faces.update(at as int, card as nat));
                assert forall|p: int| 0 <= p < 16 implies is_face_value(#[trigger] self@.faces[p])
                    && self@.faces[p] <= self.highest by {
                    assert(drawn.faces[p] == start.faces[p]);
                }
                assert(has_opening(start.faces, dir as int));
                assert(plain_dealt(start, self@, card));
            }
        } else {
            proof {
                if has_opening(start.faces, dir as int) {
                    let p = choose|p: int| is_opening(start.faces, dir as int, p);
                    assert(open@.contains(p as usize));
                }
            }
        }
    }
}

/// The cell that holds the card dealt for start square `sq`: the squares
/// are counted down the columns.
pub open spec fn start_cell(sq: int) -> int {
    4 * (sq % 4) + sq / 4
}

/// The start of a plain game: the starting tile in the first cell, the
/// first cards of a shuffled bag on as many other cells, the rest of the bag
/// as the deck.
pub open spec fn plain_seeded(v: PlainView, bag: Seq<u64>, squares: Seq<usize>) -> bool {
    &&& bag.to_multiset() == full_bag()
    &&& squares.len() == INITIAL_STEPS
    &&& squares.no_duplicates()
    &&& forall|i: int| 0 <= i < squares.len() ==> 1 <= #[trigger] squares[i] < 16
    &&& v.deck == bag.subrange(INITIAL_STEPS as int, BAG_SIZE as int)
    &&& v.highest == INIT_HIGHEST
    &&& v.faces.len() == 16
    &&& v.faces[0] == INIT_HIGHEST
    &&& forall|i: int|
        0 <= i < squares.len() ==> v.faces[start_cell(#[trigger] squares[i] as int)] == bag[i]
    &&& forall|p: int|
        1 <= p < 16 && (forall|i: int|
            0 <= i < squares.len() ==> start_cell(squares[i] as int) != p)
            ==> #[trigger] v.faces[p] == 0
}

impl ThreesGame {
    /// The score of the board: 3 for a 3, and three times as much for each
    /// doubling.
    pub fn calculate_score(&self) -> (score: u32)
        requires
            self.wf(),
            forall|p: int| 0 <= p < 16 ==> #[trigger] self@.faces[p] <= MAX_SCORED_FACE,
        ensures
            score == score_of(codes_from(self@.faces)),
    {
        let ghost c = codes_from(self@.faces);
        let mut score: u32 = 0;
        let mut p: usize = 0;
        while p < 16
            invariant
                p <= 16,
                self.wf(),
                forall|p: int| 0 <= p < 16 ==> #[trigger] self@.faces[p] <= MAX_SCORED_FACE,
                c == codes_from(self@.faces),
                score == score_of(c.take(p as int)),
                score <= p * 129140163,
            decreases 16 - p,
        {
            let face: u32 = read_cell(&self.board, p / 4, p % 4);
            proof {
                let now = c.take(p + 1);
                assert(now.drop_last() =~= c.take(p as int));
                assert(now.last() == code_of(face as nat));
                assert(self@.faces[p as int] == face);
                let code = code_of(face as nat);
                lemma2_to64();
                if code > 19 {
                    lemma_face_of_increases(19, code);
                }
                lemma_faces_compare(code, code);
                lemma_powers_of_three();
            }
            if face >= 3 {
                let code: u64 = num_to_bit(face);
                score += pow3((code - 2) as u32);
            }
            p += 1;
        }
        assert(c.take(16) =~= c);
        score
    }

    /// A plain game in the given state, with the thread's source of chance;
    /// `None` if the state is not valid.
    pub fn with_state(faces: Vec<u32>, deck: Vec<u64>, highest: u32, next: u32) -> (game: Option<
        ThreesGame,
    >)
        ensures
            game is Some <==> valid_plain(
                PlainView {
                    faces: as_nats(faces@),
                    deck: deck@,
                    highest: highest as nat,
                    next: next as nat,
                },
            ),
            game is Some ==> game->0.wf() && game->0@ == (PlainView {
                faces: as_nats(faces@),
                deck: deck@,
                highest: highest as nat,
                next: next as nat,
            }),
    {
        if faces.len() != 16 || highest < INIT_HIGHEST || next >= BONUS_ODDS {
            return None;
        }
        match checked_num_to_bit(highest) {
            Ok(_) => {},
            Err(_) => {
                return None;
            },
        }
        if !is_leftover(&deck) {
            return None;
        }
        let mut board: FaceGrid = zeros(4, 4);
        let mut p: usize = 0;
        while p < 16
            invariant
                p <= 16,
                faces@.len() == 16,
                grid_cols(board) == 4,
                grid_faces(board).len() == 16,
                forall|q: int| 0 <= q < p ==> #[trigger] grid_faces(board)[q] == faces@[q],
                forall|q: int|
                    0 <= q < p ==> is_face_value(#[trigger] faces@[q] as nat) && faces@[q]
                        <= highest,
            decreases 16 - p,
        {
            let face: u32 = faces[p];
            match checked_num_to_bit(face) {
                Ok(_) => {},
                Err(_) => {
                    assert(as_nats(faces@)[p as int] == face);
                    return None;
                },
            }
            if face > highest {
                assert(as_nats(faces@)[p as int] == face);
                return None;
            }
            write_cell(&mut board, p / 4, p % 4, face);
            p += 1;
        }
        let cards: VecDeque<u64> = deck_from(&deck);
        proof {
            assert(as_nats(grid_faces(board)) =~= as_nats(faces@));
            assert forall|q: int| 0 <= q < 16 implies is_face_value(
                #[trigger] as_nats(faces@)[q],
            ) && as_nats(faces@)[q] <= highest by {
                assert(is_face_value(faces@[q] as nat));
            }
        }
        Some(ThreesGame { board, deck: cards, highest, rng: local_rng(), next })
    }
}

/// A new plain game: a 96 in the top left cell, nine cards of a freshly
/// shuffled bag on nine of the other cells, the last three cards as the deck.
pub fn init_threes_game() -> (game: ThreesGame)
    ensures
        game.wf(),
        exists|bag: Seq<u64>, squares: Seq<usize>| plain_seeded(game@, bag, squares),
{
    let mut board: FaceGrid = zeros(BOARD_SIZE, BOARD_SIZE);
    let mut rng: ThreadRng = local_rng();
    let mut deck: VecDeque<u64> = new_deck(&mut rng);
    let highest: u32 = INIT_HIGHEST;
    let next: u32 = roll(&mut rng, BONUS_ODDS);
    let ghost bag = deck@;
    write_cell(&mut board, 0, 0, highest);
    let picked: Vec<usize> = start_squares(&mut rng);
    proof {
        lemma_part_of_bag(bag);
        lemma2_to64();
        assert(face_of(0) == 0 && face_of(1) == 1 && face_of(2) == 2 && face_of(3) == 3
            && face_of(8) == 96);
    }
    let mut i: usize = 0;
    while i < picked.len()
        invariant
            i <= picked@.len() == INITIAL_STEPS,
            bag.len() == BAG_SIZE,
            is_part_of_bag(bag),
            deck@ =~= bag.subrange(i as int, BAG_SIZE as int),
            picked@.no_duplicates(),
            forall|j: int| 0 <= j < picked@.len() ==> 1 <= #[trigger] picked@[j] < 16,
            grid_cols(board) == 4,
            grid_faces(board).len() == 16,
            grid_faces(board)[0] == INIT_HIGHEST,
            forall|j: int|
                0 <= j < i ==> grid_faces(board)[start_cell(#[trigger] picked@[j] as int)]
                    == bag[j],
            forall|p: int|
                1 <= p < 16 && (forall|j: int| 0 <= j < i ==> start_cell(picked@[j] as int) != p)
                    ==> #[trigger] grid_faces(board)[p] == 0,
        decreases picked@.len() - i,
    {
        let sq: usize = picked[i];
        let card: u64 = match deck.pop_front() {
            Some(card) => card,
            None => 3,
        };
        proof {
            lemma_part_of_bag(bag);
            assert(card == bag[i as int]);
            assert forall|j: int| 0 <= j < i implies start_cell(picked@[j] as int) != start_cell(
                sq as int,
            ) by {
                assert(picked@[j] != picked@[i as int]);
            }
        }
        write_cell(&mut board, sq % BOARD_SIZE, sq / BOARD_SIZE, card as u32);
        if deck.len() == 0 {
            deck = new_deck(&mut rng);
        }
        i += 1;
    }
    let game = ThreesGame { board, deck, highest, rng, next };
    proof {
        lemma_rest_keeps_to_bag(bag, INITIAL_STEPS as int);
        assert forall|p: int| 0 <= p < 16 implies is_face_value(#[trigger] game@.faces[p])
            && game@.faces[p] <= INIT_HIGHEST by {
            if p >= 1 && exists|j: int| 0 <= j < 9 && start_cell(picked@[j] as int) == p {
                let j = choose|j: int| 0 <= j < 9 && start_cell(picked@[j] as int) == p;
                assert(grid_faces(board)[start_cell(picked@[j] as int)] == bag[j]);
                assert(1 <= bag[j] <= 3);
            }
        }
        assert(plain_seeded(game@, bag, picked@));
    }
    game
}

} // verus!
