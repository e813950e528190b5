//! Boards and decks as text: face values in decimal, a blank after each.

use std::collections::VecDeque;
use vstd::prelude::*;
use vstd::string::StringExecFns;
use crate::bits::code_at;
use crate::grid::cells;
use crate::tile::{bit_to_num, face_of, MAX_FACE_CODE};

verus! {

/// The character for one decimal digit.
pub open spec fn digit(d: nat) -> char {
    seq!['0', '1', '2', '3', '4', '5', '6', '7', '8', '9'][d as int]
}

/// A number in decimal, without leading zeros.
pub open spec fn decimal(n: nat) -> Seq<char>
    decreases n,
{
    if n < 10 {
        seq![digit(n)]
    } else {
        decimal(n / 10).push(digit(n % 10))
    }
}

/// One tile as text: its face value and a blank.
pub open spec fn tile_text(code: nat) -> Seq<char> {
    decimal(face_of(code)).push(' ')
}

/// Some tiles as text, one after the other.
pub open spec fn tiles_text(codes: Seq<nat>) -> Seq<char>
    decreases codes.len(),
{
    if codes.len() == 0 {
        Seq::empty()
    } else {
        tiles_text(codes.drop_last()) + tile_text(codes.last())
    }
}

/// Some tiles as one line of text.
pub open spec fn line_text(codes: Seq<nat>) -> Seq<char> {
    tiles_text(codes).push('\n')
}

/// A board as four lines of text, the top row first.
pub open spec fn board_text(c: Seq<nat>) -> Seq<char> {
    line_text(c.subrange(0, 4)) + line_text(c.subrange(4, 8)) + line_text(c.subrange(8, 12))
        + line_text(c.subrange(12, 16))
}

/// The codes of some cards.
pub open spec fn codes_of(cards: Seq<u64>) -> Seq<nat> {
    Seq::new(cards.len(), |i: int| cards[i] as nat)
}

/// Some numbers in decimal with a comma and a blank between them.
pub open spec fn numbers_text(items: Seq<u64>) -> Seq<char>
    decreases items.len(),
{
    if items.len() == 0 {
        Seq::empty()
    } else if items.len() == 1 {
        decimal(items[0] as nat)
    } else {
        numbers_text(items.drop_last()) + seq![',', ' '] + decimal(items.last() as nat)
    }
}

/// Some numbers as a list in square brackets.
pub open spec fn list_text(items: Seq<u64>) -> Seq<char> {
    seq!['['] + numbers_text(items) + seq![']']
}

/// The text of one decimal digit.
fn digit_text(d: u64) -> (s: &'static str)
    requires
        d < 10,
    ensures
        s@ == seq![digit(d as nat)],
{
    proof {
        reveal_strlit("0");
        reveal_strlit("1");
        reveal_strlit("2");
        reveal_strlit("3");
        reveal_strlit("4");
        reveal_strlit("5");
        reveal_strlit("6");
        reveal_strlit("7");
        reveal_strlit("8");
        reveal_strlit("9");
    }
    let s: &'static str = if d == 0 {
        "0"
    } else if d == 1 {
        "1"
    } else if d == 2 {
        "2"
    } else if d == 3 {
        "3"
    } else if d == 4 {
        "4"
    } else if d == 5 {
        "5"
    } else if d == 6 {
        "6"
    } else if d == 7 {
        "7"
    } else if d == 8 {
        "8"
    } else {
        "9"
    };
    assert(s@ =~= seq![digit(d as nat)]);
    s
}

/// Some digits as text, the last one first.
pub open spec fn digits_backward(digits: Seq<u64>) -> Seq<char> {
    Seq::new(digits.len(), |i: int| digit(digits[digits.len() - 1 - i] as nat))
}

/// Adds a number in decimal to the text.
pub fn push_number(text: &mut String, n: u64)
    ensures
        final(text)@ == old(text)@ + decimal(n as nat),
{
    let mut digits: Vec<u64> = Vec::new();
    let mut rest: u64 = n;
    loop
        invariant_except_break
            decimal(n as nat) =~= decimal(rest as nat) + digits_backward(digits@),
        invariant
            forall|i: int| 0 <= i < digits@.len() ==> digits@[i] < 10,
            *text == *old(text),
        ensures
            decimal(n as nat) =~= digits_backward(digits@),
        decreases rest,
    {
        let ghost before = digits@;
        digits.push(rest % 10);
        proof {
            assert(digits_backward(digits@) =~= seq![digit((rest % 10) as nat)] + digits_backward(
                before,
            ));
        }
        if rest < 10 {
            break;
        }
        rest = rest / 10;
    }
    let ghost start = text@;
    let ghost whole = digits_backward(digits@);
    let mut left: usize = digits.len();
    while left > 0
        invariant
            left <= digits@.len(),
            forall|i: int| 0 <= i < digits@.len() ==> digits@[i] < 10,
            whole == digits_backward(digits@),
            text@ =~= start + whole.take(digits@.len() - left),
        decreases left,
    {
        left -= 1;
        text.append(digit_text(digits[left]));
        proof {
            let k = digits@.len() - left;
            assert(whole.take(k) =~= whole.take(k - 1).push(digit(digits@[left as int] as nat)));
        }
    }
    assert(whole.take(digits@.len() as int) =~= whole);
}

/// The numbers as a list in square brackets, as `Debug` writes a deque.
pub fn list_to_string(items: &VecDeque<u64>) -> (text: String)
    ensures
        text@ == list_text(items@),
{
    let mut text: String = String::new();
    text.append("[");
    proof {
        reveal_strlit("[");
        reveal_strlit("]");
        reveal_strlit(", ");
        assert("["@ =~= seq!['[']);
        assert("]"@ =~= seq![']']);
        assert(", "@ =~= seq![',', ' ']);
    }
    let mut i: usize = 0;
    while i < items.len()
        invariant
            i <= items@.len(),
            text@ =~= seq!['['] + numbers_text(items@.take(i as int)),
            ", "@ == seq![',', ' '],
        decreases items@.len() - i,
    {
        proof {
            let now = items@.take(i + 1);
            assert(now.drop_last() =~= items@.take(i as int));
            assert(now.last() == items@[i as int]);
        }
        if i > 0 {
            text.append(", ");
        }
        push_number(&mut text, items[i]);
        i += 1;
    }
    text.append("]");
    assert(items@.take(i as int) =~= items@);
    text
}

/// Adds one tile to the text.
fn push_tile(text: &mut String, code: u64)
    requires
        code <= MAX_FACE_CODE,
    ensures
        final(text)@ == old(text)@ + tile_text(code as nat),
{
    push_number(text, bit_to_num(code) as u64);
    text.append(" ");
    proof {
        reveal_strlit(" ");
        assert(" "@ =~= seq![' ']);
        assert(final(text)@ =~= old(text)@ + tile_text(code as nat));
    }
}

/// The board as four lines of text.
pub fn board_to_string(board: u64) -> (text: String)
    ensures
        text@ == board_text(cells(board)),
{
    let ghost c = cells(board);
    let mut text: String = String::new();
    let mut r: u64 = 0;
    while r < 4
        invariant
            r <= 4,
            c == cells(board),
            r == 0 ==> text@ =~= Seq::<char>::empty(),
            r == 1 ==> text@ =~= line_text(c.subrange(0, 4)),
            r == 2 ==> text@ =~= line_text(c.subrange(0, 4)) + line_text(c.subrange(4, 8)),
            r == 3 ==> text@ =~= line_text(c.subrange(0, 4)) + line_text(c.subrange(4, 8))
                + line_text(c.subrange(8, 12)),
            r == 4 ==> text@ =~= board_text(c),
        decreases 4 - r,
    {
        let ghost start = text@;
        let ghost row = c.subrange(4 * r, 4 * r + 4);
        let mut j: u64 = 0;
        while j < 4
            invariant
                r < 4,
                j <= 4,
                c == cells(board),
                row == c.subrange(4 * r, 4 * r + 4),
                text@ =~= start + tiles_text(row.take(j as int)),
            decreases 4 - j,
        {
            let code: u64 = code_at(board, 4 * r + j);
            proof {
                let now = row.take(j + 1);
                assert(now.drop_last() =~= row.take(j as int));
                assert(now.last() == code);
            }
            push_tile(&mut text, code);
            j += 1;
        }
        text.append("\n");
        proof {
            reveal_strlit("\n");
            assert("\n"@ =~= seq!['\n']);
            assert(row.take(4) =~= row);
            assert(text@ =~= start + line_text(row));
        }
        r += 1;
    }
    text
}

/// The cards as one line of text, the next one first.
pub fn cards_to_string(cards: &VecDeque<u64>) -> (text: String)
    requires
        forall|i: int| 0 <= i < cards@.len() ==> cards@[i] <= MAX_FACE_CODE,
    ensures
        text@ == line_text(codes_of(cards@)),
{
    let ghost codes = codes_of(cards@);
    let mut text: String = String::new();
    let mut i: usize = 0;
    while i < cards.len()
        invariant
            i <= cards@.len(),
            codes == codes_of(cards@),
            forall|i: int| 0 <= i < cards@.len() ==> cards@[i] <= MAX_FACE_CODE,
            text@ =~= tiles_text(codes.take(i as int)),
        decreases cards@.len() - i,
    {
        proof {
            let now = codes.take(i + 1);
            assert(now.drop_last() =~= codes.take(i as int));
            assert(now.last() == cards@[i as int]);
        }
        push_tile(&mut text, cards[i]);
        i += 1;
    }
    text.append("\n");
    proof {
        reveal_strlit("\n");
        assert("\n"@ =~= seq!['\n']);
        assert(codes.take(i as int) =~= codes);
    }
    text
}

} // verus!
