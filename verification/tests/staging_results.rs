use cantodict::cedict::Entry;
use cantodict::error::DictError;
use cantodict::import::entry_rows;
use cantodict::models::Word;
use cantodict::models::WordEntry;
use cantodict::models::WordPronunciation;
use cantodict::results::build_word_result;
use cantodict::search::SearchError;

#[test]
fn entry_rows_stages_one_row_per_nonempty_pronunciation() {
    let entries = vec![
        Entry::new("好", "好", "hao3", "hou2", "|good|", 7),
        Entry::new("一", "一", "yi1", "", "|one|", 7),
        Entry::new("冇", "冇", "", "mou5", "|not have|", 7),
        Entry::new("空", "空", "", "", "|empty|", 7),
    ];
    let rows = entry_rows(&entries, 9);
    assert_eq!(rows.len(), 4);
    // the Jyutping row of an entry comes first, with type code 1
    assert_eq!(rows[0].pronunciation_type, 1);
    assert_eq!(rows[0].pronunciation, "hou2");
    assert_eq!(rows[0].traditional, "好");
    assert_eq!(rows[0].dictionary_id, 9);
    assert_eq!(rows[1].pronunciation_type, 0);
    assert_eq!(rows[1].pronunciation, "hao3");
    // entries missing one pronunciation contribute a single row
    assert_eq!(rows[2].pronunciation_type, 0);
    assert_eq!(rows[2].pronunciation, "yi1");
    assert_eq!(rows[3].pronunciation_type, 1);
    assert_eq!(rows[3].pronunciation, "mou5");
    assert_eq!(rows[3].definitions, "|not have|");
}

fn entry(entry_id: i32, dictionary_id: i32, definitions: &str) -> WordEntry {
    WordEntry { entry_id, word_id: 1, dictionary_id, definitions: definitions.to_string() }
}

fn pron(entry_id: i32, ty: i32, text: &str) -> WordPronunciation {
    WordPronunciation {
        pronunciation_id: 0,
        pronunciation_type: ty,
        pronunciation: text.to_string(),
        entry_id,
    }
}

#[test]
fn word_result_groups_entries_and_pronunciations() {
    let word =
        Word { word_id: 1, traditional: "好".to_string(), simplified: "好".to_string() };
    let entries = vec![entry(10, 3, "|good|"), entry(11, 5, "|fine|"), entry(12, 3, "|well|")];
    let prons = vec![
        pron(10, 0, "hao3"),
        pron(10, 1, "hou2"),
        pron(10, 1, "hou3"),
        pron(11, 1, "hou2"),
    ];
    let r = build_word_result(&word, &entries, &prons);
    assert_eq!(r.traditional, "好");
    assert_eq!(r.simplified, "好");
    // dictionaries in first-occurrence order, each once
    assert_eq!(r.entries.len(), 2);
    assert_eq!(r.entries[0].0, 3);
    assert_eq!(r.entries[1].0, 5);
    // dictionary 3 holds its two entries in row order
    let dict3 = &r.entries[0].1;
    assert_eq!(dict3.len(), 2);
    assert_eq!(dict3[0].definitions, "|good|");
    assert_eq!(dict3[1].definitions, "|well|");
    // entry 10's pronunciations grouped by type, types in first-occurrence order
    let first = &dict3[0].pronunciations;
    assert_eq!(first.len(), 2);
    assert_eq!(first[0].0, 0);
    assert_eq!(first[0].1, vec!["hao3".to_string()]);
    assert_eq!(first[1].0, 1);
    assert_eq!(first[1].1, vec!["hou2".to_string(), "hou3".to_string()]);
    // an entry without pronunciation rows gets no groups
    assert_eq!(dict3[1].pronunciations.len(), 0);
    // dictionary 5's entry
    let dict5 = &r.entries[1].1;
    assert_eq!(dict5.len(), 1);
    assert_eq!(dict5[0].definitions, "|fine|");
    assert_eq!(dict5[0].pronunciations, vec![(1, vec!["hou2".to_string()])]);
}

#[test]
fn dict_error_statuses_and_messages() {
    let bad = DictError::Search(SearchError::InvalidInput);
    assert_eq!(bad.status_code(), 400);
    assert_eq!(bad.message(), "Search error: Invalid query");
    let db = DictError::Database("locked".to_string());
    assert_eq!(db.status_code(), 500);
    assert_eq!(db.message(), "Database error: locked");
    let internal = DictError::Internal;
    assert_eq!(internal.status_code(), 500);
    assert_eq!(internal.message(), "Internal error");
}
