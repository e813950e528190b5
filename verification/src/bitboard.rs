//! The game: a board of sixteen cells in one `u64`, moved by table lookup,
//! with the deck that feeds it.

use rand::rngs::ThreadRng;
use std::collections::{HashMap, VecDeque};
use vstd::prelude::*;
use vstd::arithmetic::power2::lemma2_to64;
use vstd::seq_lib::to_multiset_contains;
use crate::bits::{lemma_nib_of_code, lemma_nib_or, nib};
use crate::chance::{local_rng, pick_one, pick_several, roll};
use crate::dealer::{
    bonus_values, cards_in, deck_from, full_bag, is_leftover, is_part_of_bag, lemma_part_of_bag,
    lemma_rest_keeps_to_bag, lemma_rest_of_bag, new_deck, take_card, BAG_SIZE, BIT_BONUS_SUB,
    BONUS_ODDS,
};
use crate::grid::{
    cells, highest_on, is_grid, is_opening, lemma_cells_determine, lemma_cells_is_grid,
    lemma_cells_of_masked, lemma_swipe_opens, lemma_top_code_bounds, lemma_top_code_within,
    line_mask, line_of, line_through, open_squares, place_card, place_in_line, square, swiped,
    top_code,
};
use crate::line::{slide_cells, BOARD_SIZE, TOP_CODE};
use crate::score::{score_board, score_of};
use crate::table::{build_table, is_table};
use crate::text::{board_text, board_to_string, cards_to_string, codes_of, line_text};
use crate::tile::{face_of, lemma_code_of_face_of, num_to_bit};

verus! {

broadcast use vstd::std_specs::hash::group_hash_axioms;

/// The code of the tile that a game starts with in its first cell, a 96.
pub const INIT_HIGHEST_CODE: u64 = 8;

/// The face of the tile that a game starts with in its first cell.
pub const INIT_HIGHEST: u32 = 96;

/// Tiles dealt onto the board before the first move.
pub const INITIAL_STEPS: usize = 9;

/// What a game is, apart from its source of chance and its tables.
pub struct GameView {
    /// The sixteen cells, row by row from the top left.
    pub cells: Seq<nat>,
    /// The cards still to be dealt, the next one first.
    pub deck: Seq<u64>,
    /// The largest code that was ever on the board.
    pub highest: nat,
    /// The last roll; 0 makes the next card a bonus tile.
    pub next: nat,
}

/// The cells fit, the deck is left over from one bag, and `highest` is at
/// least the starting tile and every tile on the board.
pub open spec fn valid_state(v: GameView) -> bool {
    &&& is_grid(v.cells)
    &&& is_part_of_bag(v.deck)
    &&& v.next < BONUS_ODDS
    &&& INIT_HIGHEST_CODE <= v.highest <= TOP_CODE
    &&& forall|p: int| 0 <= p < 16 ==> v.cells[p] <= v.highest
}

/// How dealing `card` changes deck and roll: a bonus tile if the last roll
/// was 0, else the front card of the deck, from a fresh bag if the deck was
/// empty; and a new roll.
pub open spec fn dealt(before: GameView, after: GameView, card: u64) -> bool {
    &&& after.next < BONUS_ODDS
    &&& if before.next == 0 {
        after.deck == before.deck && bonus_values(before.highest).contains(card)
    } else if before.deck.len() > 0 {
        card == before.deck[0] && after.deck == before.deck.subrange(1, before.deck.len() as int)
    } else {
        after.deck.len() == BAG_SIZE - 1 && after.deck.to_multiset().insert(card) == full_bag()
    }
}

/// A game of Threes.
pub struct ThreesGameBitBoard {
    board: u64,
    deck: VecDeque<u64>,
    highest: u64,
    rng: ThreadRng,
    next: u32,
    lookup_table: Vec<HashMap<u64, u64>>,
}

impl View for ThreesGameBitBoard {
    type V = GameView;

    closed spec fn view(&self) -> GameView {
        GameView {
            cells: cells(self.board),
            deck: self.deck@,
            highest: self.highest as nat,
            next: self.next as nat,
        }
    }
}

/// Four tables, one for each direction.
pub open spec fn are_tables(tables: Seq<HashMap<u64, u64>>) -> bool {
    &&& tables.len() == 4
    &&& forall|dir: int| 0 <= dir < 4 ==> is_table(#[trigger] tables[dir]@, dir)
}

/// The bonus tile that was picked; the largest one if none was.
pub fn bonus_or_largest(picked: Option<u64>, highest: u64) -> (card: u64)
    requires
        highest >= BIT_BONUS_SUB,
    ensures
        card == (match picked {
            Some(bonus) => bonus,
            None => (highest - BIT_BONUS_SUB) as u64,
        }),
{
    match picked {
        Some(bonus) => bonus,
        None => highest - BIT_BONUS_SUB,
    }
}

impl ThreesGameBitBoard {
    /// Each of the four tables answers every line.
    pub closed spec fn has_tables(&self) -> bool {
        are_tables(self.lookup_table@)
    }

    /// The state is valid and the tables are there.
    pub open spec fn wf(&self) -> bool {
        &&& valid_state(self@)
        &&& self.has_tables()
    }

    /// The board as one word, cell `p` in bits `4p` to `4p + 3`.
    pub fn board(&self) -> (board: u64)
        ensures
            cells(board) == self@.cells,
    {
        self.board
    }

    /// The largest code that was ever on the board.
    pub fn highest(&self) -> (highest: u64)
        ensures
            highest == self@.highest,
    {
        self.highest
    }

    /// The cards still to be dealt, the next one first.
    pub fn deck(&self) -> (deck: Vec<u64>)
        ensures
            deck@ == self@.deck,
    {
        cards_in(&self.deck)
    }

    /// Whether the next card dealt is a bonus tile.
    pub fn next_is_bonus(&self) -> (bonus: bool)
        ensures
            bonus == (self@.next == 0),
    {
        self.next == 0
    }

    /// The three tiles of which one is dealt as a bonus.
    pub fn current_bonus_values(&self) -> (values: [u64; 3])
        requires
            self.wf(),
        ensures
            values@ == bonus_values(self@.highest),
    {
        let values: [u64; 3] = [
            self.highest - BIT_BONUS_SUB,
            self.highest - BIT_BONUS_SUB - 1,
            self.highest - BIT_BONUS_SUB - 2,
        ];
        assert(values@ =~= bonus_values(self@.highest));
        values
    }

    /// The board after a swipe in direction `dir`, before a card is added:
    /// the four lines are looked up in the table and put together.
    pub fn slide_board(&self, dir: usize) -> (new: u64)
        requires
            self.wf(),
            dir < 4,
        ensures
            cells(new) == swiped(self@.cells, dir as int),
    {
        let group: u64 = if dir & 1 == 0 {
            0xFFFF
        } else {
            0x000F_000F_000F_000F
        };
        let gap: u64 = if dir & 1 == 0 {
            16
        } else {
            4
        };
        assert(dir & 1 == 0 <==> dir % 2 == 0) by (bit_vector);
        let ghost c = cells(self.board);
        let mut new: u64 = 0;
        assert(forall|p: u64| p < 16 ==> nib(0, p) == 0) by (bit_vector);
        let mut i: usize = 0;
        while i < BOARD_SIZE
            invariant
                self.wf(),
                dir < 4,
                i <= 4,
                c == cells(self.board),
                dir % 2 == 0 ==> group == 0xFFFF && gap == 16,
                dir % 2 != 0 ==> group == 0x000F_000F_000F_000F && gap == 4,
                forall|p: int|
                    0 <= p < 16 ==> #[trigger] cells(new)[p] == (if line_through(dir as int, p)
                        < i {
                        swiped(c, dir as int)[p]
                    } else {
                        0
                    }),
            decreases 4 - i,
        {
            let key: u64 = self.board & (group << (gap * (i as u64)));
            proof {
                assert(key == self.board & line_mask(dir as int, i as int));
                lemma_cells_of_masked(self.board, dir as int, i as int);
                assert(is_table(self.lookup_table@[dir as int]@, dir as int));
            }
            let found: Option<&u64> = self.lookup_table[dir].get(&key);
            let row: u64 = *found.unwrap();
            let ghost before = new;
            new = new | row;
            proof {
                assert(cells(row) == swiped(cells(key), dir as int));
                assert forall|p: int| 0 <= p < 16 implies #[trigger] cells(new)[p] == (
                if line_through(dir as int, p) < i + 1 {
                    swiped(c, dir as int)[p]
                } else {
                    0
                }) by {
                    lemma_nib_or(before, row, p as u64);
                    let on = line_through(dir as int, p);
                    let l = line_of(cells(key), dir as int, on);
                    assert forall|j: int| 0 <= j < 4 implies l[j] == (if on == i {
                        line_of(c, dir as int, on)[j]
                    } else {
                        0
                    }) by {
                        let sq = square(dir as int, on, j);
                        assert(line_through(dir as int, sq) == on);
                        assert(l[j] == cells(key)[sq]);
                    }
                    assert(cells(row)[p] == slide_cells(l)[place_in_line(dir as int, p)]);
                    if on == i {
                        assert(l =~= line_of(c, dir as int, on));
                        assert(cells(row)[p] == swiped(c, dir as int)[p]);
                        assert(cells(before)[p] == 0);
                    } else {
                        assert(slide_cells(l) =~= seq![0nat, 0nat, 0nat, 0nat]);
                        assert(cells(row)[p] == 0);
                    }
                    assert(cells(before)[p] == nib(before, p as u64));
                }
            }
            i += 1;
        }
        assert(cells(new) =~= swiped(c, dir as int));
        new
    }

    /// The score of the board.
    pub fn calculate_score(&self) -> (score: u32)
        ensures
            score == score_of(self@.cells),
    {
        score_board(self.board)
    }

    /// The board as four lines of text, the top row first; each tile is
    /// its face value followed by a blank.
    pub fn board_string(&self) -> (text: String)
        ensures
            text@ == board_text(self@.cells),
    {
        board_to_string(self.board)
    }

    /// The deck as one line of text, the next card first.
    pub fn deck_string(&self) -> (text: String)
        requires
            self.wf(),
        ensures
            text@ == line_text(codes_of(self@.deck)),
    {
        proof {
            lemma_part_of_bag(self.deck@);
        }
        cards_to_string(&self.deck)
    }

    /// Deals one card: a bonus tile if the last roll was 0, else the front
    /// card of the deck, which is filled from a fresh bag when it is empty.
    /// Then rolls again.
    pub fn draw_card(&mut self) -> (card: u64)
        requires
            old(self).wf(),
        ensures
            final(self).wf(),
            dealt(old(self)@, final(self)@, card),
            final(self)@.cells == old(self)@.cells,
            final(self)@.highest == old(self)@.highest,
            1 <= card <= old(self)@.highest,
    {
        let card: u64;
        if self.next == 0 {
            let bonuses: [u64; 3] = self.current_bonus_values();
            let options: Vec<u64> = vec![bonuses[0], bonuses[1], bonuses[2]];
            assert(options@ =~= bonus_values(self@.highest));
            let picked: Option<u64> = pick_one(&mut self.rng, &options);
            card = bonus_or_largest(picked, self.highest);
        } else {
            if self.deck.len() == 0 {
                self.deck = new_deck(&mut self.rng);
                assert(is_part_of_bag(self.deck@));
            }
            proof {
                lemma_rest_of_bag(self.deck@);
                lemma_part_of_bag(self.deck@);
            }
            card = take_card(&mut self.deck);
        }
        self.next = roll(&mut self.rng, BONUS_ODDS);
        card
    }

    /// One move. The tiles slide toward the edge that `dir` names: 0 left,
    /// 1 up, 2 right, 3 down. If that changes the board, one card is dealt
    /// into an empty cell of the opposite edge, and `highest` follows the
    /// board; if not, nothing changes at all.
    pub fn swipe(&mut self, dir: usize)
        requires
            old(self).wf(),
            dir < 4,
        ensures
            final(self).wf(),
            swiped(old(self)@.cells, dir as int) == old(self)@.cells ==> *final(self) == *old(self),
            swiped(old(self)@.cells, dir as int) != old(self)@.cells ==> exists|card: u64, at: int|
                {
                    &&& #[trigger] is_opening(swiped(old(self)@.cells, dir as int), dir as int, at)
                    &&& #[trigger] dealt(old(self)@, final(self)@, card)
                    &&& final(self)@.cells == swiped(old(self)@.cells, dir as int).update(
                        at,
                        card as nat,
                    )
                    &&& final(self)@.highest == if top_code(final(self)@.cells) > old(
                        self,
                    )@.highest {
                        top_code(final(self)@.cells)
                    } else {
                        old(self)@.highest
                    }
                },
    {
        let new: u64 = self.slide_board(dir);
        let ghost slid = swiped(self@.cells, dir as int);
        proof {
            lemma_cells_is_grid(self.board);
            lemma_cells_is_grid(new);
            if slid == self@.cells {
                lemma_cells_determine(new, self.board);
            }
        }
        if self.board != new {
            let open: Vec<usize> = open_squares(new, dir);
            let ghost start = self@;
            let card: u64 = self.draw_card();
            let ghost drawn = self@;
            let picked: Option<usize> = pick_one(&mut self.rng, &open);
            proof {
                let p = lemma_swipe_opens(start.cells, dir as int);
                assert(open@.contains(p as usize));
                assert(picked is Some);
                let at = picked->0;
                assert(open@.contains(at));
                let i = choose|i: int| 0 <= i < open@.len() && open@[i] == at;
                assert(at < 16);
                assert(is_opening(cells(new), dir as int, at as int));
            }
            self.commit(new, card, picked);
            proof {
                let at = picked->0 as int;
                assert(is_opening(slid, dir as int, at));
                assert(dealt(start, drawn, card));
                assert(dealt(start, self@, card));
                assert(self@.cells == slid.update(at, card as nat));
            }
        }
    }

    /// Ends a move: `slid` with `card` in cell `at`, if there is one, becomes
    /// the board, and `highest` rises to the largest tile on it.
    pub fn commit(&mut self, slid: u64, card: u64, at: Option<usize>)
        requires
            old(self).wf(),
            card <= TOP_CODE,
            at is Some ==> at->0 < 16 && cells(slid)[at->0 as int] == 0,
        ensures
            final(self).wf(),
            final(self)@.cells == (match at {
                Some(p) => cells(slid).update(p as int, card as nat),
                None => cells(slid),
            }),
            final(self)@.highest == if top_code(final(self)@.cells) > old(self)@.highest {
                top_code(final(self)@.cells)
            } else {
                old(self)@.highest
            },
            final(self)@.deck == old(self)@.deck,
            final(self)@.next == old(self)@.next,
    {
        let placed: u64 = place_card(slid, card, at);
        self.board = placed;
        let top: u64 = highest_on(placed);
        proof {
            lemma_cells_is_grid(placed);
            lemma_top_code_within(cells(placed), TOP_CODE as nat);
            assert forall|p: int| 0 <= p < 16 implies cells(placed)[p] <= top by {
                lemma_top_code_bounds(cells(placed), p);
            }
        }
        if top > self.highest {
            self.highest = top;
        }
    }
}

/// The start of a game: the starting tile in the first cell, the first
/// cards of a shuffled bag on as many other cells, the rest of the bag as
/// the deck.
pub open spec fn seeded(v: GameView, bag: Seq<u64>, squares: Seq<usize>) -> bool {
    &&& bag.to_multiset() == full_bag()
    &&& squares.len() == INITIAL_STEPS
    &&& squares.no_duplicates()
    &&& forall|i: int| 0 <= i < squares.len() ==> 1 <= #[trigger] squares[i] < 16
    &&& v.deck == bag.subrange(INITIAL_STEPS as int, BAG_SIZE as int)
    &&& v.highest == INIT_HIGHEST_CODE
    &&& v.cells.len() == 16
    &&& v.cells[0] == INIT_HIGHEST_CODE
    &&& forall|i: int| 0 <= i < squares.len() ==> v.cells[#[trigger] squares[i] as int] == bag[i]
    &&& forall|p: int| 1 <= p < 16 && !squares.contains(p as usize) ==> #[trigger] v.cells[p] == 0
}

/// The four tables, one for each direction.
pub fn build_tables() -> (tables: Vec<HashMap<u64, u64>>)
    ensures
        are_tables(tables@),
{
    let mut tables: Vec<HashMap<u64, u64>> = Vec::new();
    let mut dir: usize = 0;
    while dir < 4
        invariant
            dir <= 4,
            tables@.len() == dir,
            forall|d: int| 0 <= d < dir ==> is_table(#[trigger] tables@[d]@, d),
        decreases 4 - dir,
    {
        tables.push(build_table(dir));
        dir += 1;
    }
    tables
}

impl ThreesGameBitBoard {
    /// A game in the given state, with tables of its own and the thread's
    /// source of chance; `None` if the state is not valid.
    pub fn with_state(board: u64, deck: Vec<u64>, highest: u64, next: u32) -> (game: Option<
        ThreesGameBitBoard,
    >)
        ensures
            game is Some <==> valid_state(
                GameView {
                    cells: cells(board),
                    deck: deck@,
                    highest: highest as nat,
                    next: next as nat,
                },
            ),
            game is Some ==> game->0.wf() && game->0@ == (GameView {
                cells: cells(board),
                deck: deck@,
                highest: highest as nat,
                next: next as nat,
            }),
    {
        proof {
            lemma_cells_is_grid(board);
        }
        let top: u64 = highest_on(board);
        proof {
            if top <= highest {
                assert forall|p: int| 0 <= p < 16 implies cells(board)[p] <= highest by {
                    lemma_top_code_bounds(cells(board), p);
                }
            } else if forall|p: int| 0 <= p < 16 ==> cells(board)[p] <= highest {
                lemma_top_code_within(cells(board), highest as nat);
            }
        }
        if !(INIT_HIGHEST_CODE <= highest && highest <= TOP_CODE && next < BONUS_ODDS && top
            <= highest && is_leftover(&deck)) {
            return None;
        }
        let cards: VecDeque<u64> = deck_from(&deck);
        Some(
            ThreesGameBitBoard {
                board,
                deck: cards,
                highest,
                rng: local_rng(),
                next,
                lookup_table: build_tables(),
            },
        )
    }
}

/// Picks the cells that hold a card when a game starts: `INITIAL_STEPS` of
/// the cells after the first, no cell twice.
pub fn start_squares(rng: &mut ThreadRng) -> (picked: Vec<usize>)
    ensures
        picked@.len() == INITIAL_STEPS,
        picked@.no_duplicates(),
        forall|i: int| 0 <= i < picked@.len() ==> 1 <= #[trigger] picked@[i] < 16,
{
    broadcast use vstd::multiset::group_multiset_axioms;

    let mut others: Vec<usize> = Vec::new();
    let mut sq: usize = 1;
    while sq < BOARD_SIZE * BOARD_SIZE
        invariant
            1 <= sq <= 16,
            others@.len() == sq - 1,
            forall|i: int| 0 <= i < others@.len() ==> others@[i] == i + 1,
        decreases 16 - sq,
    {
        others.push(sq);
        sq += 1;
    }
    let picked: Vec<usize> = pick_several(rng, &others, INITIAL_STEPS);
    proof {
        assert(others@.no_duplicates());
        others@.lemma_multiset_has_no_duplicates();
        assert forall|x: usize| picked@.to_multiset().contains(x) implies picked@.to_multiset().count(
            x,
        ) == 1 && 1 <= x < 16 by {
            to_multiset_contains(others@, x);
            let i = choose|i: int| 0 <= i < others@.len() && others@[i] == x;
        }
        picked@.lemma_multiset_has_no_duplicates_conv();
        assert forall|i: int| 0 <= i < picked@.len() implies 1 <= #[trigger] picked@[i] < 16 by {
            to_multiset_contains(picked@, picked@[i]);
            assert(picked@.contains(picked@[i]));
        }
    }
    picked
}

/// A new game: a 96 in the top left cell, nine cards of a freshly shuffled
/// bag on nine of the other cells, the last three cards as the deck.
pub fn init_threes_game_bitboard() -> (game: ThreesGameBitBoard)
    ensures
        game.wf(),
        exists|bag: Seq<u64>, squares: Seq<usize>| seeded(game@, bag, squares),
{
    broadcast use vstd::multiset::group_multiset_axioms;

    proof {
        lemma2_to64();
        assert(face_of(8) == 96);
        lemma_code_of_face_of(8);
    }
    let highest: u64 = num_to_bit(INIT_HIGHEST);
    let mut board: u64 = highest;
    let mut rng: ThreadRng = local_rng();
    let mut deck: VecDeque<u64> = new_deck(&mut rng);
    let next: u32 = roll(&mut rng, BONUS_ODDS);
    let ghost bag = deck@;

    let picked: Vec<usize> = start_squares(&mut rng);
    proof {
        assert forall|p: int| 0 <= p < 16 implies cells(board)[p] == (if p == 0 {
            8nat
        } else {
            0
        }) by {
            lemma_nib_of_code(board, p as u64);
        }
        lemma_part_of_bag(bag);
    }
    let mut i: usize = 0;
    while i < picked.len()
        invariant
            i <= picked@.len() == INITIAL_STEPS,
            bag.len() == BAG_SIZE,
            is_part_of_bag(bag),
            deck@ =~= bag.subrange(i as int, BAG_SIZE as int),
            picked@.no_duplicates(),
            forall|j: int| 0 <= j < picked@.len() ==> 1 <= #[trigger] picked@[j] < 16,
            cells(board)[0] == INIT_HIGHEST_CODE,
            forall|j: int| 0 <= j < i ==> cells(board)[#[trigger] picked@[j] as int] == bag[j],
            forall|p: int|
                1 <= p < 16 && !picked@.take(i as int).contains(p as usize) ==> #[trigger] cells(
                    board,
                )[p] == 0,
        decreases picked@.len() - i,
    {
        let at: usize = picked[i];
        let card: u64 = match deck.pop_front() {
            Some(card) => card,
            None => 0,
        };
        proof {
            lemma_part_of_bag(bag);
            assert(card == bag[i as int]);
            if picked@.take(i as int).contains(at) {
                let j = choose|j: int| 0 <= j < i && picked@.take(i as int)[j] == at;
                assert(picked@[j] == picked@[i as int]);
            }
        }
        let ghost before = board;
        board = place_card(board, card, Some(at));
        if deck.len() == 0 {
            deck = new_deck(&mut rng);
        }
        proof {
            assert forall|p: int|
                1 <= p < 16 && !picked@.take(i + 1).contains(p as usize) implies #[trigger] cells(
                board,
            )[p] == 0 by {
                if picked@.take(i as int).contains(p as usize) {
                    let j = choose|j: int| 0 <= j < i && picked@.take(i as int)[j] == p as usize;
                    assert(picked@.take(i + 1)[j] == p as usize);
                }
                assert(picked@.take(i + 1)[i as int] == at);
            }
            assert forall|j: int| 0 <= j < i + 1 implies cells(board)[#[trigger] picked@[j] as int]
                == bag[j] by {
                if j < i {
                    assert(picked@[j] != picked@[i as int]);
                }
            }
        }
        i += 1;
    }
    let tables: Vec<HashMap<u64, u64>> = build_tables();
    let game = ThreesGameBitBoard { board, deck, highest, rng, next, lookup_table: tables };
    proof {
        assert(picked@.take(i as int) =~= picked@);
        lemma_cells_is_grid(board);
        assert(bag.subrange(INITIAL_STEPS as int, BAG_SIZE as int).to_multiset().subset_of(
            bag.to_multiset(),
        )) by {
            lemma_rest_keeps_to_bag(bag, INITIAL_STEPS as int);
        }
        assert forall|p: int| 0 <= p < 16 implies cells(board)[p] <= INIT_HIGHEST_CODE by {
            if p >= 1 && picked@.contains(p as usize) {
                let j = choose|j: int| 0 <= j < picked@.len() && picked@[j] == p as usize;
                assert(cells(board)[picked@[j] as int] == bag[j]);
            }
        }
        assert(seeded(game@, bag, picked@));
    }
    game
}

} // verus!
