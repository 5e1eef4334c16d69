use cantodict::cedict::Entry;
use cantodict::cedict::ParseError;
use cantodict::cedict::parse_cedict;

#[test]
fn test_line_comment() {
    let src = "好 好 [hao3] {hou2} |good|well| # a comment";
    assert_eq!(
        vec![Entry::new("好", "好", "hao3", "hou2", "|good|well|", 0)],
        parse_cedict(src).unwrap()
    );
}

#[test]
fn test_no_jyutping() {
    let src = "好 好 [hao3] |good|well|";
    assert_eq!(
        vec![Entry::new("好", "好", "hao3", "", "|good|well|", 0)],
        parse_cedict(src).unwrap()
    );
}

#[test]
fn test() {
    let src = "好 好 [hao3] {hou2} |good|well|   ";
    assert_eq!(
        vec![Entry::new("好", "好", "hao3", "hou2", "|good|well|", 0)],
        parse_cedict(src).unwrap()
    );
}

#[test]
fn test_header_comment() {
    let src = "# hi\n#\n# testing";
    assert_eq!(Vec::<Entry>::new(), parse_cedict(src).unwrap());
}

#[test]
fn empty_pinyin() {
    let src = "好 好 [] {hou2} |good|well|";
    assert_eq!(
        vec![Entry::new("好", "好", "", "hou2", "|good|well|", 0)],
        parse_cedict(src).unwrap()
    );
}

#[test]
fn test_header_comment2() {
    let src = "# hi\n#\n# testing\n好 好 [hao3] {hou2} |good|well|";
    assert_eq!(
        vec![Entry::new("好", "好", "hao3", "hou2", "|good|well|", 0)],
        parse_cedict(src).unwrap()
    );
}

#[test]
fn test_list() {
    let src = "好 好 [hao3] {hou2} |good|well|\n一事 一事 [yi1 shi4] {jat1 si6} |A matter|";
    assert_eq!(
        vec![
            Entry::new("好", "好", "hao3", "hou2", "|good|well|", 0),
            Entry::new("一事", "一事", "yi1 shi4", "jat1 si6", "|A matter|", 0),
        ],
        parse_cedict(src).unwrap()
    );
}

#[test]
fn bad_line_is_an_error() {
    let src = "# header\nnot an entry";
    assert_eq!(parse_cedict(src), Err(ParseError { line: 1 }));
}

#[test]
fn blank_lines_are_skipped() {
    let src = "\n好 好 [hao3] {hou2} |good|\n\n一 一 [yi1] {jat1} |one|\n";
    assert_eq!(
        vec![
            Entry::new("好", "好", "hao3", "hou2", "|good|", 0),
            Entry::new("一", "一", "yi1", "jat1", "|one|", 0),
        ],
        parse_cedict(src).unwrap()
    );
}

#[test]
fn missing_bracket_is_an_error() {
    let src = "好 好 [hao3 {hou2} |good|";
    assert_eq!(parse_cedict(src), Err(ParseError { line: 0 }));
}

#[test]
fn empty_file_yields_no_entries() {
    assert_eq!(Vec::<Entry>::new(), parse_cedict("").unwrap());
}

#[test]
fn comment_after_entries_is_not_an_entry() {
    let src = "好 好 [hao3] |good|\n# late comment";
    assert_eq!(parse_cedict(src), Err(ParseError { line: 1 }));
}
