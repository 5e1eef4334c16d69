use cantodict::models::Word;
use cantodict::models::WordPronunciation;
use cantodict::search::DictSearch;
use cantodict::search::PronunciationType;
use cantodict::search::SearchError;
use cantodict::search::load_rows;

fn sorted(mut v: Vec<i32>) -> Vec<i32> {
    v.sort();
    v
}

#[test]
fn tone_unspecified_expands_across_tones() {
    let mut search = DictSearch::new();
    search.insert_pronunciation(42, "sei2", PronunciationType::Jyutping);
    search.insert_pronunciation(43, "sei3", PronunciationType::Jyutping);
    let hits = search.search_pronunciation("sei", PronunciationType::Jyutping).unwrap();
    assert_eq!(sorted(hits), vec![42, 43]);
}

#[test]
fn tone_specified_matches_exactly() {
    let mut search = DictSearch::new();
    search.insert_pronunciation(42, "sei2", PronunciationType::Jyutping);
    search.insert_pronunciation(43, "sei3", PronunciationType::Jyutping);
    assert_eq!(search.search_pronunciation("sei2", PronunciationType::Jyutping).unwrap(), vec![
        42,
    ]);
    assert_eq!(search.search_pronunciation("sei3", PronunciationType::Jyutping).unwrap(), vec![
        43,
    ]);
}

#[test]
fn query_is_a_prefix_match() {
    let mut search = DictSearch::new();
    search.insert_pronunciation(7, "laap6 saap3 tung2", PronunciationType::Jyutping);
    // a shorter query matches the front of a longer pronunciation
    assert_eq!(search.search_pronunciation("laap6", PronunciationType::Jyutping).unwrap(), vec![
        7,
    ]);
    // a wildcard needs some syllable at its position
    assert_eq!(
        search.search_pronunciation("laap6 ? tung2", PronunciationType::Jyutping).unwrap(),
        vec![7],
    );
    // a query longer than the pronunciation does not match
    assert_eq!(
        search
            .search_pronunciation("laap6 saap3 tung2 jat1", PronunciationType::Jyutping)
            .unwrap(),
        Vec::<i32>::new(),
    );
}

#[test]
fn pronunciation_types_are_separate() {
    let mut search = DictSearch::new();
    search.insert_pronunciation(1, "hao3", PronunciationType::Pinyin);
    search.insert_pronunciation(2, "hou2", PronunciationType::Jyutping);
    assert_eq!(search.search_pronunciation("hao3", PronunciationType::Pinyin).unwrap(), vec![1]);
    assert_eq!(
        search.search_pronunciation("hao3", PronunciationType::Jyutping).unwrap(),
        Vec::<i32>::new(),
    );
}

#[test]
fn pronunciation_query_without_anchor_is_invalid() {
    let mut search = DictSearch::new();
    search.insert_pronunciation(1, "sei2", PronunciationType::Jyutping);
    assert_eq!(
        search.search_pronunciation("", PronunciationType::Jyutping),
        Err(SearchError::InvalidInput),
    );
    assert_eq!(
        search.search_pronunciation("? ?", PronunciationType::Jyutping),
        Err(SearchError::InvalidInput),
    );
    assert_eq!(
        search.search_pronunciation(" .. ", PronunciationType::Jyutping),
        Err(SearchError::InvalidInput),
    );
}

#[test]
fn characters_search_matches_either_form() {
    let mut search = DictSearch::new();
    search.insert_characters(5, "垃圾桶", "垃圾桶");
    search.insert_characters(6, "門口", "门口");
    assert_eq!(search.search_characters("垃?桶").unwrap(), vec![5]);
    assert_eq!(search.search_characters("門口").unwrap(), vec![6]);
    // the simplified form matches too
    assert_eq!(search.search_characters("门口").unwrap(), vec![6]);
    // a prefix of the word matches
    assert_eq!(search.search_characters("垃").unwrap(), vec![5]);
}

#[test]
fn characters_query_without_anchor_is_invalid() {
    let mut search = DictSearch::new();
    search.insert_characters(5, "垃圾桶", "垃圾桶");
    assert_eq!(search.search_characters(""), Err(SearchError::InvalidInput));
    assert_eq!(search.search_characters("??"), Err(SearchError::InvalidInput));
}

#[test]
fn search_error_message() {
    assert_eq!(SearchError::InvalidInput.message(), "Invalid query");
}

#[test]
fn from_integer_decodes_type_codes() {
    assert_eq!(PronunciationType::from_integer(0), Some(PronunciationType::Pinyin));
    assert_eq!(PronunciationType::from_integer(1), Some(PronunciationType::Jyutping));
    assert_eq!(PronunciationType::from_integer(2), None);
    assert_eq!(PronunciationType::from_integer(-1), None);
}

fn pron_row(id: i32, ty: i32, text: &str, entry: i32) -> WordPronunciation {
    WordPronunciation {
        pronunciation_id: id,
        pronunciation_type: ty,
        pronunciation: text.to_string(),
        entry_id: entry,
    }
}

#[test]
fn load_rows_builds_both_indices_and_skips_corrupt_rows() {
    let mut search = DictSearch::new();
    let prons = vec![
        pron_row(42, 1, "sei2", 10),
        pron_row(43, 1, "sei3", 11),
        pron_row(44, 0, "hao3", 12),
        // a corrupt pronunciation type: skipped, the load goes on
        pron_row(45, 7, "sei4", 13),
    ];
    let words = vec![
        Word { word_id: 1, traditional: "好".to_string(), simplified: "好".to_string() },
        Word { word_id: 2, traditional: "垃圾桶".to_string(), simplified: "垃圾桶".to_string() },
    ];
    load_rows(&mut search, &prons, &words);
    let hits = search.search_pronunciation("sei", PronunciationType::Jyutping).unwrap();
    assert_eq!(sorted(hits), vec![42, 43]);
    assert_eq!(
        search.search_pronunciation("sei4", PronunciationType::Jyutping).unwrap(),
        Vec::<i32>::new(),
    );
    assert_eq!(search.search_pronunciation("hao3", PronunciationType::Pinyin).unwrap(), vec![44]);
    assert_eq!(search.search_characters("垃圾桶").unwrap(), vec![2]);
    assert_eq!(search.search_characters("好").unwrap(), vec![1]);
}

#[test]
fn two_token_query_needs_two_positions() {
    // a wildcard takes position 0, so "? sei2" needs sei2 at position 1
    let mut search = DictSearch::new();
    search.insert_pronunciation(42, "sei2", PronunciationType::Jyutping);
    search.insert_pronunciation(44, "ho1 sei2", PronunciationType::Jyutping);
    assert_eq!(search.search_pronunciation("? sei2", PronunciationType::Jyutping).unwrap(), vec![
        44,
    ]);
}

#[test]
fn toneless_query_equals_union_over_tones() {
    let mut search = DictSearch::new();
    search.insert_pronunciation(1, "sei2", PronunciationType::Jyutping);
    search.insert_pronunciation(2, "sei5", PronunciationType::Jyutping);
    search.insert_pronunciation(3, "sai2", PronunciationType::Jyutping);
    let mut union = Vec::new();
    for toned in ["sei1", "sei2", "sei3", "sei4", "sei5", "sei6"] {
        for id in search.search_pronunciation(toned, PronunciationType::Jyutping).unwrap() {
            if !union.contains(&id) {
                union.push(id);
            }
        }
    }
    let direct = search.search_pronunciation("sei", PronunciationType::Jyutping).unwrap();
    assert_eq!(sorted(direct), sorted(union));
}

#[test]
fn reinserting_overwrites_the_syllable_list() {
    let mut search = DictSearch::new();
    search.insert_pronunciation(1, "sei2", PronunciationType::Jyutping);
    search.insert_pronunciation(1, "ho1", PronunciationType::Jyutping);
    assert_eq!(
        search.search_pronunciation("sei2", PronunciationType::Jyutping).unwrap(),
        Vec::<i32>::new(),
    );
    assert_eq!(search.search_pronunciation("ho1", PronunciationType::Jyutping).unwrap(), vec![1]);
}
