use brep_kernel::features::{
    dimension_parts, hole_diameter_token, hole_spec_token, mm_value_tokens, normalize_prompt,
    normalize_segments, parse_count_word, parse_hole_count, prompt_mentions_part, FeatureError,
    Unit,
};

#[test]
fn prompt_normalization_lowercases_and_spaces_separators() {
    assert_eq!(
        normalize_prompt("10MM Bracket-with_two,M4 holes"),
        "10mm bracket with two m4 holes"
    );
}

#[test]
fn hole_count_reads_the_nearest_count_before_holes() {
    assert_eq!(parse_hole_count("10mm bracket with two m4 holes"), Some(2));
    assert_eq!(parse_hole_count("60x20x10mm plate with 2 m4 holes"), Some(2));
    assert_eq!(parse_hole_count("plate with a hole"), Some(1));
    assert_eq!(parse_hole_count("plate with m4 holes"), Some(1));
    assert_eq!(parse_hole_count("plate without openings"), None);
    assert_eq!(parse_hole_count("six holes"), Some(6));
}

#[test]
fn count_words_cover_one_to_six() {
    assert_eq!(parse_count_word("a"), Some(1));
    assert_eq!(parse_count_word("an"), Some(1));
    assert_eq!(parse_count_word("one"), Some(1));
    assert_eq!(parse_count_word("three"), Some(3));
    assert_eq!(parse_count_word("four"), Some(4));
    assert_eq!(parse_count_word("five"), Some(5));
    assert_eq!(parse_count_word("seven"), None);
}

#[test]
fn segment_counts_round_up_to_multiples_of_four() {
    assert_eq!(normalize_segments(0), 8);
    assert_eq!(normalize_segments(8), 8);
    assert_eq!(normalize_segments(9), 12);
    assert_eq!(normalize_segments(32), 32);
    assert_eq!(normalize_segments(33), 36);
}

#[test]
fn part_words_and_metric_tokens_are_found() {
    assert!(prompt_mentions_part("10mm bracket with two m4 holes"));
    assert!(prompt_mentions_part("a plate"));
    assert!(!prompt_mentions_part("a washer"));
    assert_eq!(hole_spec_token("bracket with two m4 holes"), Some("4".to_owned()));
    assert_eq!(hole_spec_token("bracket with holes"), None);
}

#[test]
fn feature_vocabulary_types_compare() {
    assert_eq!(Unit::Millimeter, Unit::Millimeter);
    assert_ne!(FeatureError::Triangulation, FeatureError::UnrecognizedPrompt);
}

#[test]
fn dimension_and_millimetre_tokens_are_found_by_word() {
    assert_eq!(
        dimension_parts("60x20x10mm plate 5xmmmm nox"),
        vec![
            vec!["60".to_owned(), "20".to_owned(), "10".to_owned()],
            vec!["5".to_owned(), "".to_owned()],
            vec!["no".to_owned(), "".to_owned()],
        ]
    );
    assert!(dimension_parts("10mm bracket").is_empty());
    assert_eq!(
        mm_value_tokens("a 10mm bracket 3.5mmmm mm"),
        vec!["10".to_owned(), "3.5mm".to_owned(), "".to_owned()]
    );
    assert_eq!(
        hole_diameter_token("plate with 6mm holes and 8mm hole"),
        Some("6".to_owned())
    );
    assert_eq!(hole_diameter_token("holes 6mm"), None);
    assert_eq!(hole_diameter_token("plate with two holes"), None);
}
