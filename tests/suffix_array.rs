use std::collections::{HashMap, HashSet};

use generalized_suffix_array::{
    min_chars_for_pct, BaseGeneralizedSuffixArray, Fraction, GeneralizedSuffixArray, MatchDetails,
    Suffix, SuffixArrayError,
};

fn zero() -> Fraction {
    Fraction { numerator: 0, denominator: 1 }
}

fn stringset(items: &[&str]) -> HashSet<String> {
    items.iter().map(|&s| s.to_owned()).collect()
}

fn similar_set(index: &BaseGeneralizedSuffixArray, query: &str, min_chars: usize) -> HashSet<String> {
    index.similar_str(query, min_chars, zero()).into_iter().collect()
}

fn keys(res: &HashMap<usize, MatchDetails>) -> HashSet<usize> {
    res.keys().copied().collect()
}

fn overlap_pct(d: &MatchDetails) -> f32 {
    let (numerator, denominator) = d.overlap_pct();
    numerator as f32 / denominator as f32
}

#[test]
fn correct_construction() {
    let index = BaseGeneralizedSuffixArray::new(&["hello", "bella"]);
    println!("{:?}", index);

    assert_eq!(index.items, "hellobella");
    assert_eq!(index.item_ranges, vec![(0, 5), (5, 10)]);

    assert_eq!(
        index.suffixes,
        vec![
            Suffix { item: 1, start: 4 }, // "a",
            Suffix { item: 1, start: 0 }, // "bella",
            Suffix { item: 1, start: 1 }, // "ella",
            Suffix { item: 0, start: 1 }, // "ello",
            Suffix { item: 0, start: 0 }, // "hello",
            Suffix { item: 1, start: 3 }, // "la",
            Suffix { item: 1, start: 2 }, // "lla",
            Suffix { item: 0, start: 2 }, // "llo",
            Suffix { item: 0, start: 3 }, // "lo",
            Suffix { item: 0, start: 4 }, // "o",
        ]
    );

    assert_eq!(
        index.lcp_array,
        vec![
            0, // $, "a",
            0, // "a", "bella",
            0, // "bella", "ella",
            3, // "ella", "ello",
            0, // "ello", "hello",
            0, // "hello", "la",
            1, // "la", "lla",
            2, // "lla", "llo",
            1, // "llo", "lo",
            0, // "lo", "o",
            0, // "o", $
        ],
    );
}

#[test]
fn queries() {
    let index = BaseGeneralizedSuffixArray::new(&["hello", "bella"]);
    println!("{:?}", index);

    let actual = similar_set(&index, "illi", 2);
    let expected = stringset(&["hello", "bella"]);
    assert_eq!(actual, expected);

    let actual = similar_set(&index, "illi", 3);
    let expected = stringset(&[]);
    assert_eq!(actual, expected);

    let actual = similar_set(&index, "illo", 3);
    let expected = stringset(&["hello"]);
    assert_eq!(actual, expected);
}

#[test]
fn ensure_empty_index_does_not_panic() {
    let index = BaseGeneralizedSuffixArray::new(&[]);
    println!("{:?}", index);

    index.similar_str("illi", 2, zero());
}

#[test]
fn utf8_queries() {
    let index = BaseGeneralizedSuffixArray::new(&["hällö", "bällä"]);
    println!("{:?}", index);

    let actual = similar_set(&index, "illi", 2);
    let expected = stringset(&["hällö", "bällä"]);
    assert_eq!(actual, expected);

    let actual = similar_set(&index, "illi", 3);
    let expected = stringset(&[]);
    assert_eq!(actual, expected);

    let actual = similar_set(&index, "illö", 3);
    let expected = stringset(&["hällö"]);
    assert_eq!(actual, expected);

    let actual = similar_set(&index, "ällö", 3);
    let expected = stringset(&["hällö", "bällä"]);
    assert_eq!(actual, expected);
}

#[test]
fn utf8_storage_uses_byte_ranges() {
    let index = BaseGeneralizedSuffixArray::new(&["hällö", "bällä"]);
    assert_eq!(index.items, "hällöbällä");
    assert_eq!(index.item_ranges, vec![(0, 7), (7, 14)]);
    assert_eq!(index.suffixes.len(), 10);
    assert_eq!(index.lcp_array.len(), 11);
    assert_eq!(index.get_item(0), Some("hällö"));
    assert_eq!(index.get_item(1), Some("bällä"));
    assert_eq!(index.get_item(2), None);
}

#[test]
fn count_and_items_follow_the_batch() {
    let index = GeneralizedSuffixArray::new(vec!["alpha", "", "gämma"]);
    assert_eq!(index.len(), 3);
    assert_eq!(index.item(0), Ok("alpha".to_owned()));
    assert_eq!(index.item(1), Ok("".to_owned()));
    assert_eq!(index.item(2), Ok("gämma".to_owned()));
    assert_eq!(index.item(3), Err(SuffixArrayError::NotFound));
}

#[test]
fn empty_batch_builds_sentinel_only_index() {
    let index = BaseGeneralizedSuffixArray::new(&[]);
    assert_eq!(index.items, "");
    assert!(index.item_ranges.is_empty());
    assert!(index.suffixes.is_empty());
    assert_eq!(index.lcp_array, vec![0, 0]);
    assert_eq!(index.len(), 0);
}

#[test]
fn single_character_item_has_two_sentinels() {
    let index = BaseGeneralizedSuffixArray::new(&["x", ""]);
    assert_eq!(index.suffixes, vec![Suffix { item: 0, start: 0 }]);
    assert_eq!(index.lcp_array, vec![0, 0]);
}

#[test]
fn index_is_sorted_with_true_prefix_lengths() {
    let items = ["banana", "bandana", "ana"];
    let index = BaseGeneralizedSuffixArray::new(&items);
    let total: usize = items.iter().map(|s| s.chars().count()).sum();
    assert_eq!(index.suffixes.len(), total);
    let texts: Vec<String> = index
        .suffixes
        .iter()
        .map(|s| items[s.item].chars().skip(s.start).collect())
        .collect();
    for i in 1..texts.len() {
        assert!(texts[i - 1] <= texts[i]);
        let common = texts[i - 1]
            .chars()
            .zip(texts[i].chars())
            .take_while(|(a, b)| a == b)
            .count();
        assert_eq!(index.lcp_array[i], common);
    }
    assert_eq!(index.lcp_array[0], 0);
    assert_eq!(index.lcp_array[texts.len()], 0);
}

#[test]
fn scenario_illi_and_illo() {
    let index = GeneralizedSuffixArray::new(vec!["hello", "bella"]);
    let res = index.similar("illi", Some(2), Some(zero())).unwrap();
    assert_eq!(keys(&res), [0, 1].into_iter().collect());
    let res = index.similar("illi", Some(3), Some(zero())).unwrap();
    assert!(res.is_empty());
    let res = index.similar("illo", Some(3), Some(zero())).unwrap();
    assert_eq!(keys(&res), [0].into_iter().collect());
    assert_eq!(
        res[&0],
        MatchDetails { len_1: 4, len_2: 5, len_overlap: 3, start_1: 1, start_2: 2 }
    );
}

#[test]
fn scenario_unicode_lengths_count_characters() {
    let index = GeneralizedSuffixArray::new(vec!["hällö", "bällä"]);
    let res = index.similar("ällö", Some(3), Some(zero())).unwrap();
    assert_eq!(keys(&res), [0, 1].into_iter().collect());
    assert_eq!(
        res[&0],
        MatchDetails { len_1: 4, len_2: 5, len_overlap: 4, start_1: 0, start_2: 1 }
    );
    assert_eq!(
        res[&1],
        MatchDetails { len_1: 4, len_2: 5, len_overlap: 3, start_1: 0, start_2: 1 }
    );
}

#[test]
fn empty_corpus_answers_every_query_with_nothing() {
    let index = GeneralizedSuffixArray::new(vec![]);
    assert!(index.similar("illi", Some(2), None).unwrap().is_empty());
    assert!(index.similar("illi", None, Some(zero())).unwrap().is_empty());
    assert!(index.similar("", Some(0), Some(zero())).unwrap().is_empty());
    let half = Fraction { numerator: 1, denominator: 2 };
    assert!(index.similar("abc", Some(0), Some(half)).unwrap().is_empty());
}

#[test]
fn empty_query_matches_nothing() {
    let index = BaseGeneralizedSuffixArray::new(&["hello", "bella"]);
    assert!(index.similar("", 0, zero()).is_empty());
}

#[test]
fn repeated_query_gives_the_same_answer() {
    let index = BaseGeneralizedSuffixArray::new(&["abracadabra", "cadence", "abba"]);
    let first = index.similar("cadabra", 2, zero());
    let second = index.similar("cadabra", 2, zero());
    assert_eq!(first, second);
    assert!(!first.is_empty());
}

#[test]
fn raising_floors_never_adds_items() {
    let index = BaseGeneralizedSuffixArray::new(&["abracadabra", "cadence", "abba", "dab"]);
    let query = "cadabra";
    let mut prev = keys(&index.similar(query, 1, zero()));
    for m in 2..9 {
        let now = keys(&index.similar(query, m, zero()));
        assert!(now.is_subset(&prev));
        prev = now;
    }
    let mut prev = keys(&index.similar(query, 1, zero()));
    for tenths in 1..11 {
        let pct = Fraction { numerator: tenths, denominator: 10 };
        let now = keys(&index.similar(query, 1, pct));
        assert!(now.is_subset(&prev));
        prev = now;
    }
}

#[test]
fn identical_items_match_each_other_fully() {
    let index = BaseGeneralizedSuffixArray::new(&["twin", "other", "twin"]);
    let res = index.similar("twin", 1, zero());
    let d = res[&2];
    assert_eq!(d.len_overlap, 4);
    assert_eq!(overlap_pct(&d), 1.0);
    let d = res[&0];
    assert_eq!(d.len_overlap, 4);
    assert_eq!(overlap_pct(&d), 1.0);
}

#[test]
fn percentage_floor_is_inclusive() {
    let index = BaseGeneralizedSuffixArray::new(&["abcd"]);
    let half = Fraction { numerator: 1, denominator: 2 };
    let res = index.similar("abxx", 1, half);
    assert_eq!(
        res[&0],
        MatchDetails { len_1: 4, len_2: 4, len_overlap: 2, start_1: 0, start_2: 0 }
    );
    let above_half = Fraction { numerator: 51, denominator: 100 };
    assert!(index.similar("abxx", 1, above_half).is_empty());
}

#[test]
fn longest_overlap_then_earliest_query_offset_wins() {
    let index = BaseGeneralizedSuffixArray::new(&["xyzab"]);
    let res = index.similar("abxyz", 2, zero());
    assert_eq!(
        res[&0],
        MatchDetails { len_1: 5, len_2: 5, len_overlap: 3, start_1: 2, start_2: 0 }
    );
    let index = BaseGeneralizedSuffixArray::new(&["abzxy"]);
    let res = index.similar("abqxy", 2, zero());
    assert_eq!(res[&0].len_overlap, 2);
    assert_eq!(res[&0].start_1, 0);
    assert_eq!(res[&0].start_2, 0);
}

#[test]
fn ties_at_one_offset_go_to_the_suffix_walked_last() {
    let index = BaseGeneralizedSuffixArray::new(&["abab"]);
    let res = index.similar("ab", 2, zero());
    assert_eq!(
        res[&0],
        MatchDetails { len_1: 2, len_2: 4, len_overlap: 2, start_1: 0, start_2: 0 }
    );
}

#[test]
fn missing_floors_are_invalid() {
    let index = GeneralizedSuffixArray::new(vec!["hello"]);
    assert_eq!(index.similar("hello", None, None), Err(SuffixArrayError::InvalidArgument));
}

#[test]
fn percentage_outside_unit_range_is_invalid() {
    let index = GeneralizedSuffixArray::new(vec!["hello"]);
    let too_big = Fraction { numerator: 3, denominator: 2 };
    assert_eq!(index.similar("hello", Some(1), Some(too_big)), Err(SuffixArrayError::InvalidArgument));
    let no_denominator = Fraction { numerator: 0, denominator: 0 };
    assert_eq!(
        index.similar("hello", None, Some(no_denominator)),
        Err(SuffixArrayError::InvalidArgument)
    );
}

#[test]
fn percentage_implies_a_character_floor() {
    let half = Fraction { numerator: 1, denominator: 2 };
    assert_eq!(min_chars_for_pct(half, 6), 2);
    assert_eq!(min_chars_for_pct(half, 7), 3);
    assert_eq!(min_chars_for_pct(zero(), 10), 0);
    assert_eq!(min_chars_for_pct(Fraction { numerator: 1, denominator: 1 }, 5), 5);
}

#[test]
fn percentage_only_query_uses_derived_floor() {
    let index = GeneralizedSuffixArray::new(vec!["abcdef", "xbcx"]);
    let half = Fraction { numerator: 1, denominator: 2 };
    let res = index.similar("abcdef", None, Some(half)).unwrap();
    assert_eq!(keys(&res), [0].into_iter().collect());
    assert_eq!(res[&0].len_overlap, 6);
}

#[test]
fn overlap_percentage_is_dice_ratio() {
    let d = MatchDetails { len_1: 4, len_2: 5, len_overlap: 3, start_1: 1, start_2: 2 };
    assert_eq!(d.overlap_pct(), (6, 9));
}
