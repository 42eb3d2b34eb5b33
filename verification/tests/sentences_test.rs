use epubtr::sentences::{sentence_chunks, split_at_char_count, split_text_by_sentence};

#[test]
fn cutting_at_a_number_of_characters() {
    assert_eq!(split_at_char_count("año", 2), ("añ", "o"));
    assert_eq!(split_at_char_count("año", 0), ("", "año"));
    assert_eq!(split_at_char_count("año", 9), ("año", ""));
}

#[test]
fn sentences_near_the_wanted_size() {
    let text = "Uno. Dos. Tres. Cuatro.";
    assert_eq!(split_text_by_sentence(text, 1, 6, 50), vec![(0, 4), (4, 9), (9, 15), (15, 23)]);
    assert_eq!(split_text_by_sentence(text, 10, 6, 50), vec![(0, 9), (9, 15), (15, 23)]);
}

#[test]
fn texts_without_sentences_are_cut_at_the_limit() {
    assert_eq!(split_text_by_sentence("ññññññ", 1, 2, 4), vec![(0, 8), (8, 12)]);
    assert_eq!(split_text_by_sentence("a.bbbbb", 1, 3, 4), vec![(0, 2), (2, 6), (6, 7)]);
}

#[test]
fn wide_marks_end_sentences() {
    assert_eq!(split_text_by_sentence("中。文！字？", 1, 1, 10), vec![(0, 6), (6, 12), (12, 18)]);
}

#[test]
fn nothing_to_cut() {
    assert!(split_text_by_sentence("", 1, 1, 1).is_empty());
    assert!(split_text_by_sentence("abc", 1, 1, 0).is_empty());
}

#[test]
fn chunks_written_one_after_another_are_the_text() {
    let text = "Una frase. Otra! Y otra más? Sin fin\nFin";
    for target in 0..20usize {
        for max in 1..25usize {
            assert_eq!(sentence_chunks(text, target / 2, target, max).concat(), text);
        }
    }
}
