use threes::tile::{bit_to_num, checked_num_to_bit, num_to_bit, NotAFaceValue, MAX_FACE_CODE};

#[test]
fn small_codes_are_their_own_faces() {
    assert_eq!(bit_to_num(0), 0);
    assert_eq!(bit_to_num(1), 1);
    assert_eq!(bit_to_num(2), 2);
    assert_eq!(num_to_bit(0), 0);
    assert_eq!(num_to_bit(1), 1);
    assert_eq!(num_to_bit(2), 2);
}

#[test]
fn faces_double_from_three_on() {
    assert_eq!(bit_to_num(3), 3);
    assert_eq!(bit_to_num(4), 6);
    assert_eq!(bit_to_num(5), 12);
    assert_eq!(bit_to_num(8), 96);
    assert_eq!(bit_to_num(15), 12288);
    assert_eq!(bit_to_num(33), 3221225472);
}

#[test]
fn codes_of_faces() {
    assert_eq!(num_to_bit(3), 3);
    assert_eq!(num_to_bit(6), 4);
    assert_eq!(num_to_bit(96), 8);
    assert_eq!(num_to_bit(12288), 15);
    assert_eq!(num_to_bit(3221225472), 33);
}

#[test]
fn decoding_then_encoding_gives_the_code_back() {
    for code in 0..=MAX_FACE_CODE {
        assert_eq!(num_to_bit(bit_to_num(code)), code);
    }
}

#[test]
fn encoding_then_decoding_gives_the_face_back() {
    let mut face: u32 = 3;
    for _ in 0..31 {
        assert_eq!(bit_to_num(num_to_bit(face)), face);
        assert_eq!(checked_num_to_bit(face), Ok(num_to_bit(face)));
        if face < 3221225472 {
            face *= 2;
        }
    }
}

#[test]
fn values_that_no_tile_shows_are_refused() {
    assert_eq!(checked_num_to_bit(4), Err(NotAFaceValue { value: 4 }));
    assert_eq!(checked_num_to_bit(5), Err(NotAFaceValue { value: 5 }));
    assert_eq!(checked_num_to_bit(9), Err(NotAFaceValue { value: 9 }));
    assert_eq!(checked_num_to_bit(18), Err(NotAFaceValue { value: 18 }));
    assert_eq!(checked_num_to_bit(97), Err(NotAFaceValue { value: 97 }));
    assert_eq!(checked_num_to_bit(u32::MAX), Err(NotAFaceValue { value: u32::MAX }));
}

#[test]
fn checked_encoding_accepts_every_face() {
    assert_eq!(checked_num_to_bit(0), Ok(0));
    assert_eq!(checked_num_to_bit(1), Ok(1));
    assert_eq!(checked_num_to_bit(2), Ok(2));
    assert_eq!(checked_num_to_bit(3), Ok(3));
    assert_eq!(checked_num_to_bit(48), Ok(7));
    assert_eq!(checked_num_to_bit(3221225472), Ok(33));
}

#[test]
fn checked_encoding_agrees_with_a_search() {
    for v in 0..5000u32 {
        let mut found: Option<u64> = None;
        for code in 0..=15u64 {
            if bit_to_num(code) == v {
                found = Some(code);
            }
        }
        match found {
            Some(code) => assert_eq!(checked_num_to_bit(v), Ok(code)),
            None => assert_eq!(checked_num_to_bit(v), Err(NotAFaceValue { value: v })),
        }
    }
}
