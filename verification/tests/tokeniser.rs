use cantodict::token::QueryToken;
use cantodict::token::Syllable;
use cantodict::token::tokenise_characters_query;
use cantodict::token::tokenise_pronunciation;
use cantodict::token::tokenise_pronunciation_query;

fn p(x: &str, y: &str) -> Syllable {
    Syllable { sound: x.to_string(), tone: y.to_string() }
}

fn qc(x: char) -> QueryToken {
    QueryToken::Character(x)
}

fn qp(x: &str, y: &str) -> QueryToken {
    QueryToken::Pronunciation { sound: x.to_string(), tone: y.to_string() }
}

#[test]
fn pronunciation_strange_chinese_character() {
    assert_eq!(tokenise_pronunciation("jat1 檔:dong2"), vec![p("jat", "1"), p("dong", "2")]);
}

#[test]
fn pronunciation_your_head() {
    assert_eq!(
        tokenise_pronunciation("nei5 go3 tau4"),
        vec![p("nei", "5"), p("go", "3"), p("tau", "4")]
    );
}

#[test]
fn pronunciation_rubbish_bin() {
    assert_eq!(
        tokenise_pronunciation("laap6saap3 tung2"),
        vec![p("laap", "6"), p("saap", "3"), p("tung", "2")]
    );
}

// strange entry
#[test]
fn pronunciation_set_tou() {
    assert_eq!(
        tokenise_pronunciation("s e t tou2"),
        vec![p("s", ""), p("e", ""), p("t", ""), p("tou", "2")]
    );
}

#[test]
fn pronunciation_query_rubbish_bin() {
    assert_eq!(
        tokenise_pronunciation_query("laap6 ? tung2"),
        vec![qp("laap", "6"), QueryToken::WildcardSingle, qp("tung", "2")]
    );
}

#[test]
fn chars_query_sit() {
    assert_eq!(tokenise_characters_query("sit"), vec![qc('s'), qc('i'), qc('t')]);
}

#[test]
fn chars_query_rubbish_bin() {
    assert_eq!(
        tokenise_characters_query("垃?桶"),
        vec![qc('垃'), QueryToken::WildcardSingle, qc('桶')]
    );
}

#[test]
fn empty_inputs_tokenise_to_nothing() {
    assert_eq!(tokenise_pronunciation(""), vec![]);
    assert_eq!(tokenise_pronunciation_query(""), vec![]);
    assert_eq!(tokenise_characters_query(""), vec![]);
}

#[test]
fn character_query_one_token_per_scalar() {
    let q = "垃?桶 x?";
    assert_eq!(tokenise_characters_query(q).len(), q.chars().count());
}

#[test]
fn pronunciation_round_trip() {
    let first = tokenise_pronunciation("laap6saap3  tung2, m4?goi1");
    let emitted = first
        .iter()
        .map(|s| format!("{}{}", s.sound, s.tone))
        .collect::<Vec<_>>()
        .join(" ");
    assert_eq!(tokenise_pronunciation(&emitted), first);
}

#[test]
fn pronunciation_leading_and_trailing_separators() {
    assert_eq!(tokenise_pronunciation("  jat1 "), vec![p("jat", "1")]);
}

#[test]
fn pronunciation_stops_at_digit_start() {
    assert_eq!(tokenise_pronunciation("jat1 5go"), vec![p("jat", "1")]);
}
