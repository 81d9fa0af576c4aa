use r4g_base::splitter::from_char::{
    bulk_to_owned_into, char_offsets, utf8_by_chars_borrowed, utf8_width, Utf8Splitter,
};

#[test]
fn simple_ascii_nonoverlapping() {
    let s = "abcdef";
    let v = utf8_by_chars_borrowed(s, 2, 0, false);
    assert_eq!(v, vec!["ab", "cd", "ef"]);
}

#[test]
fn overlapping_ascii() {
    let s = "abcdef";
    let v = utf8_by_chars_borrowed(s, 3, 1, false);
    assert_eq!(v, vec!["abc", "bcd", "cde", "def"]);
}

#[test]
fn multi_byte_unicode() {
    let s = "a😀b😃c";
    let v = utf8_by_chars_borrowed(s, 2, 0, false);
    assert_eq!(v, vec!["a😀", "b😃"]);
}

#[test]
fn from_char_with_tail() {
    let s = "abcdefg";
    let v = utf8_by_chars_borrowed(s, 3, 0, true);
    assert_eq!(v, vec!["abc", "def", "g"]);
}

#[test]
fn two_and_three_byte_characters() {
    let s = "aðŸ˜€bðŸ˜ƒc";
    assert_eq!(s.chars().count(), 11);
    let v = utf8_by_chars_borrowed(s, 2, 0, false);
    assert_eq!(v, vec!["að", "Ÿ˜", "€b", "ðŸ", "˜ƒ"]);
    let v = utf8_by_chars_borrowed(s, 5, 0, true);
    assert_eq!(v, vec!["aðŸ˜€", "bðŸ˜ƒ", "c"]);
}

#[test]
fn multi_byte_with_tail_and_overlap() {
    let s = "a😀b😃c";
    assert_eq!(utf8_by_chars_borrowed(s, 2, 0, true), vec!["a😀", "b😃", "c"]);
    assert_eq!(utf8_by_chars_borrowed(s, 2, 1, false), vec!["a😀", "😀b", "b😃", "😃c"]);
    assert_eq!(utf8_by_chars_borrowed(s, 3, 2, true), vec!["a😀b", "b😃c", "c"]);
    assert_eq!(utf8_by_chars_borrowed(s, 3, 2, false), vec!["a😀b", "b😃c"]);
}

#[test]
fn text_windows_of_empty_input() {
    assert!(utf8_by_chars_borrowed("", 2, 0, true).is_empty());
    assert!(utf8_by_chars_borrowed("", 2, 0, false).is_empty());
}

#[test]
fn text_window_larger_than_input() {
    assert_eq!(utf8_by_chars_borrowed("héllo", 10, 0, true), vec!["héllo"]);
    assert!(utf8_by_chars_borrowed("héllo", 10, 0, false).is_empty());
}

#[test]
fn text_windows_of_size_zero_are_empty() {
    let v = utf8_by_chars_borrowed("a😀b", 0, 1, false);
    assert_eq!(v, vec!["", "", "", ""]);
    let v = utf8_by_chars_borrowed("a😀b", 0, 0, true);
    assert_eq!(v, vec![""]);
}

#[test]
fn text_windows_borrow_from_the_input() {
    let s = "a😀b😃c";
    let v = utf8_by_chars_borrowed(s, 2, 0, true);
    assert!(std::ptr::eq(v[1].as_ptr(), s[5..].as_ptr()));
    assert!(std::ptr::eq(v[2].as_ptr(), s[10..].as_ptr()));
}

#[test]
fn offsets_of_characters() {
    assert_eq!(char_offsets("a😀b😃c"), vec![0, 1, 5, 6, 10]);
    assert_eq!(char_offsets("é€"), vec![0, 2]);
    assert_eq!(char_offsets("abc"), vec![0, 1, 2]);
    assert!(char_offsets("").is_empty());
}

#[test]
fn offsets_match_the_standard_table() {
    let s = "x\u{7f}\u{80}\u{7ff}\u{800}\u{ffff}\u{10000}\u{10ffff}y";
    let expected: Vec<usize> = s.char_indices().map(|(i, _)| i).collect();
    assert_eq!(char_offsets(s), expected);
}

#[test]
fn widths_of_encodings() {
    assert_eq!(utf8_width('a'), 1);
    assert_eq!(utf8_width('\u{7f}'), 1);
    assert_eq!(utf8_width('\u{80}'), 2);
    assert_eq!(utf8_width('\u{7ff}'), 2);
    assert_eq!(utf8_width('\u{800}'), 3);
    assert_eq!(utf8_width('\u{ffff}'), 3);
    assert_eq!(utf8_width('\u{10000}'), 4);
    assert_eq!(utf8_width('\u{10ffff}'), 4);
    for c in ['a', 'é', '€', '😀'] {
        assert_eq!(utf8_width(c), c.len_utf8());
    }
}

#[test]
fn owned_copies_hold_the_same_text() {
    let v = bulk_to_owned_into(vec!["a😀", "", "b"]);
    assert_eq!(v, vec![String::from("a😀"), String::new(), String::from("b")]);
    assert!(bulk_to_owned_into(Vec::new()).is_empty());
}

#[test]
fn utf8_splitter_split_and_out_agree() {
    let s = String::from("a😀b😃c");
    let splitter = Utf8Splitter::new(&s, 2, 0, true);
    assert_eq!(splitter.split(), vec!["a😀", "b😃", "c"]);
    assert_eq!(
        splitter.out(),
        vec![String::from("a😀"), String::from("b😃"), String::from("c")]
    );
    let splitter = Utf8Splitter::new(&s, 2, 0, false);
    assert_eq!(splitter.split(), vec!["a😀", "b😃"]);
    assert_eq!(splitter.out(), vec![String::from("a😀"), String::from("b😃")]);
}

#[test]
fn joined_text_windows_rebuild_the_front() {
    let s = "añ😀b€c😃dé";
    let chars: Vec<char> = s.chars().collect();
    for n in 1..6 {
        for step in [0, n] {
            let windows = utf8_by_chars_borrowed(s, n, step, false);
            let joined: String = windows.concat();
            let front: String = chars[..windows.len() * n].iter().collect();
            assert_eq!(joined, front);
        }
    }
}

#[test]
fn every_text_window_holds_whole_characters() {
    let s = "añ😀b€c😃dé";
    let chars: Vec<char> = s.chars().collect();
    for n in 0..6 {
        for step in 0..4 {
            for keep_tail in [false, true] {
                let windows = utf8_by_chars_borrowed(s, n, step, keep_tail);
                let ranges = r4g_base::splitter::utils::sliding_windows(chars.len(), n, step, keep_tail);
                assert_eq!(windows.len(), ranges.len());
                for (w, r) in windows.iter().zip(ranges) {
                    let expected: String = chars[r].iter().collect();
                    assert_eq!(*w, expected);
                }
            }
        }
    }
}
