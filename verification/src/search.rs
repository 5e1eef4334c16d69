//! The search engine: two inverted indices — one from syllables to
//! pronunciation identifiers, one from Chinese characters to word
//! identifiers — with a broad-phase filter plus verification algorithm on
//! top of them.
//!
//! Each index is a forward map (identifier to tokens) and a reverse map
//! (token to the identifiers it occurs in). Both are association vectors;
//! a repeated insertion for the same key overwrites the forward entry —
//! lookup takes the latest binding — and only ever adds to reverse sets.

use vstd::prelude::*;
use vstd::string::StrSliceExecFns;

use crate::token::lemma_syls_view;
use crate::token::lemma_toks_view;
use crate::token::spec_tok_pron;
use crate::token::spec_tok_pron_query;
use crate::token::spec_tok_chars;
use crate::token::syls_view;
use crate::token::toks_view;
use crate::token::tokenise_pronunciation;
use crate::token::tokenise_pronunciation_query;
use crate::token::tokenise_characters_query;
use crate::token::QueryToken;
use crate::token::SpecQueryToken;
use crate::token::SpecSyllable;
use crate::token::Syllable;
use crate::models::Word;
use crate::models::WordPronunciation;

verus! {

/// Error of a search: the query cannot seed the broad-phase filter.
#[derive(Debug, PartialEq, Eq, Structural)]
pub enum SearchError {
    InvalidInput,
}

impl SearchError {
    /// A human-readable description of the error.
    pub fn message(&self) -> (r: String)
        ensures
            r@ == "Invalid query"@,
    {
        "Invalid query".to_owned()
    }
}

/// The two pronunciation systems the index partitions by.
#[derive(Debug, PartialEq, Eq, Hash, Copy, Clone, Structural)]
pub enum PronunciationType {
    Pinyin,
    Jyutping,
}

impl PronunciationType {
    /// The model of the integer code a persistent row carries: 0 is Pinyin,
    /// 1 is Jyutping, anything else is corrupt.
    pub open spec fn spec_from_integer(i: i32) -> Option<PronunciationType> {
        if i == 0 {
            Some(PronunciationType::Pinyin)
        } else if i == 1 {
            Some(PronunciationType::Jyutping)
        } else {
            None
        }
    }

    /// Decodes the integer code a persistent row carries.
    pub fn from_integer(i: i32) -> (r: Option<PronunciationType>)
        ensures
            r == PronunciationType::spec_from_integer(i),
    {
        match i {
            0 => Some(PronunciationType::Pinyin),
            1 => Some(PronunciationType::Jyutping),
            _ => None,
        }
    }
}

/// Forward entry of the pronunciation index: the syllables indexed for one
/// `(pronunciation type, pronunciation id)` key.
struct PronRecord {
    ptype: PronunciationType,
    id: i32,
    syllables: Vec<Syllable>,
}

/// Reverse entry of the pronunciation index: the ids whose syllable list
/// mentions this `(pronunciation type, syllable)` key.
struct PronBucket {
    ptype: PronunciationType,
    syllable: Syllable,
    ids: Vec<i32>,
}

/// Forward entry of the character index: the written forms of one word.
struct CharRecord {
    id: i32,
    traditional: String,
    simplified: String,
}

/// Reverse entry of the character index: the ids whose traditional or
/// simplified form contains this character.
struct CharBucket {
    character: char,
    ids: Vec<i32>,
}

/// Mathematical model of the two written forms of a word.
pub ghost struct SpecChars {
    pub traditional: Seq<char>,
    pub simplified: Seq<char>,
}

/// Looks a `(type, id)` key up in the forward pronunciation entries; the
/// latest binding wins.
spec fn lookup_pron(recs: Seq<PronRecord>, t: PronunciationType, id: i32) -> Option<
    Seq<SpecSyllable>,
>
    decreases recs.len(),
{
    if recs.len() == 0 {
        None
    } else if recs.last().ptype == t && recs.last().id == id {
        Some(syls_view(recs.last().syllables@))
    } else {
        lookup_pron(recs.drop_last(), t, id)
    }
}

/// Looks an id up in the forward character entries; the latest binding wins.
spec fn lookup_chars(recs: Seq<CharRecord>, id: i32) -> Option<SpecChars>
    decreases recs.len(),
{
    if recs.len() == 0 {
        None
    } else if recs.last().id == id {
        Some(
            SpecChars {
                traditional: recs.last().traditional@,
                simplified: recs.last().simplified@,
            },
        )
    } else {
        lookup_chars(recs.drop_last(), id)
    }
}

/// Looks a `(type, syllable)` key up in the reverse pronunciation entries.
spec fn lookup_pron_bucket(rev: Seq<PronBucket>, t: PronunciationType, y: SpecSyllable) -> Option<
    Seq<i32>,
>
    decreases rev.len(),
{
    if rev.len() == 0 {
        None
    } else if rev.last().ptype == t && rev.last().syllable@ == y {
        Some(rev.last().ids@)
    } else {
        lookup_pron_bucket(rev.drop_last(), t, y)
    }
}

/// Looks a character up in the reverse character entries.
spec fn lookup_char_bucket(rev: Seq<CharBucket>, c: char) -> Option<Seq<i32>>
    decreases rev.len(),
{
    if rev.len() == 0 {
        None
    } else if rev.last().character == c {
        Some(rev.last().ids@)
    } else {
        lookup_char_bucket(rev.drop_last(), c)
    }
}

/// The reverse pronunciation map holds `id` under `(t, y)`.
spec fn pron_bucket_has(rev: Seq<PronBucket>, t: PronunciationType, y: SpecSyllable, id: i32) -> bool {
    match lookup_pron_bucket(rev, t, y) {
        Some(ids) => ids.contains(id),
        None => false,
    }
}

/// The reverse character map holds `id` under `c`.
spec fn char_bucket_has(rev: Seq<CharBucket>, c: char, id: i32) -> bool {
    match lookup_char_bucket(rev, c) {
        Some(ids) => ids.contains(id),
        None => false,
    }
}

/// Some reverse pronunciation entry of type `t` mentions `id`.
spec fn pron_rev_mentions(rev: Seq<PronBucket>, t: PronunciationType, id: i32) -> bool {
    exists|b: int, q: int|
        0 <= b < rev.len() && 0 <= q < rev[b].ids@.len() && rev[b].ptype == t && rev[b].ids@[q]
            == id
}

/// Some reverse character entry mentions `id`.
spec fn char_rev_mentions(rev: Seq<CharBucket>, id: i32) -> bool {
    exists|b: int, q: int| 0 <= b < rev.len() && 0 <= q < rev[b].ids@.len() && rev[b].ids@[q] == id
}

/// The in-memory index over pronunciations and written forms.
pub struct DictSearch {
    pronunciation_map: Vec<PronRecord>,
    pronunciation_reverse_map: Vec<PronBucket>,
    // "character" here means a Chinese character (字)
    characters_map: Vec<CharRecord>,
    character_reverse_map: Vec<CharBucket>,
}

impl DictSearch {
    /// The syllables indexed for a pronunciation id under a pronunciation
    /// type, if any.
    pub closed spec fn pron_at(&self, t: PronunciationType, id: i32) -> Option<Seq<SpecSyllable>> {
        lookup_pron(self.pronunciation_map@, t, id)
    }

    /// The written forms indexed for a word id, if any.
    pub closed spec fn chars_at(&self, id: i32) -> Option<SpecChars> {
        lookup_chars(self.characters_map@, id)
    }

    /// The reverse pronunciation map holds `id` under `(t, y)`. Reverse
    /// entries are only ever added, so after an overwriting insertion this
    /// can mention syllables the current forward entry no longer has.
    pub closed spec fn pron_rev_has(&self, t: PronunciationType, y: SpecSyllable, id: i32) -> bool {
        pron_bucket_has(self.pronunciation_reverse_map@, t, y, id)
    }

    /// The reverse character map holds `id` under `c`.
    pub closed spec fn char_rev_has(&self, c: char, id: i32) -> bool {
        char_bucket_has(self.character_reverse_map@, c, id)
    }

    /// Internal consistency of the four maps: every id a reverse entry
    /// mentions has a forward entry, and every token of a forward entry is
    /// found under its reverse key.
    pub closed spec fn wf(&self) -> bool {
        &&& forall|t: PronunciationType, id: i32|
            pron_rev_mentions(self.pronunciation_reverse_map@, t, id) ==> lookup_pron(
                self.pronunciation_map@,
                t,
                id,
            ) is Some
        &&& forall|ri: int, j: int|
            0 <= ri < self.pronunciation_map@.len() && 0 <= j
                < self.pronunciation_map@[ri].syllables@.len() ==> pron_bucket_has(
                self.pronunciation_reverse_map@,
                self.pronunciation_map@[ri].ptype,
                self.pronunciation_map@[ri].syllables@[j]@,
                self.pronunciation_map@[ri].id,
            )
        &&& forall|id: i32|
            char_rev_mentions(self.character_reverse_map@, id) ==> lookup_chars(
                self.characters_map@,
                id,
            ) is Some
        &&& forall|ri: int, j: int|
            0 <= ri < self.characters_map@.len() && 0 <= j
                < self.characters_map@[ri].traditional@.len() ==> char_bucket_has(
                self.character_reverse_map@,
                self.characters_map@[ri].traditional@[j],
                self.characters_map@[ri].id,
            )
        &&& forall|ri: int, j: int|
            0 <= ri < self.characters_map@.len() && 0 <= j
                < self.characters_map@[ri].simplified@.len() ==> char_bucket_has(
                self.character_reverse_map@,
                self.characters_map@[ri].simplified@[j],
                self.characters_map@[ri].id,
            )
    }

    /// An empty index.
    pub fn new() -> (r: DictSearch)
        ensures
            r.wf(),
            forall|t: PronunciationType, id: i32| r.pron_at(t, id) is None,
            forall|id: i32| r.chars_at(id) is None,
            forall|t: PronunciationType, y: SpecSyllable, id: i32| !r.pron_rev_has(t, y, id),
            forall|c: char, id: i32| !r.char_rev_has(c, id),
    {
        DictSearch {
            pronunciation_map: Vec::new(),
            pronunciation_reverse_map: Vec::new(),
            characters_map: Vec::new(),
            character_reverse_map: Vec::new(),
        }
    }



    /// A pronunciation id belongs to the result of a query: it is indexed,
    /// its current syllable list satisfies every query token, and the
    /// broad-phase filter reaches it — some reverse entry whose sound is the
    /// filter sound and whose tone is searched holds the id.
    pub open spec fn pron_hit(
        &self,
        toks: Seq<SpecQueryToken>,
        t: PronunciationType,
        id: i32,
    ) -> bool {
        &&& self.pron_at(t, id) is Some
        &&& pron_candidate_matches(toks, self.pron_at(t, id).unwrap())
        &&& exists|y: SpecSyllable|
            #[trigger] self.pron_rev_has(t, y, id) && y.sound == filter_sound(toks)
                && tone_in_expansion(filter_tone(toks), y.tone)
    }

    /// Ids of the processed part of the search: reached through one of the
    /// first `m` expanded filter syllables.
    spec fn pron_seen(
        &self,
        toks: Seq<SpecQueryToken>,
        t: PronunciationType,
        searches: Seq<Syllable>,
        m: int,
        id: i32,
    ) -> bool {
        &&& self.pron_at(t, id) is Some
        &&& pron_candidate_matches(toks, self.pron_at(t, id).unwrap())
        &&& exists|sj: int| 0 <= sj < m && self.pron_rev_has(t, #[trigger] searches[sj]@, id)
    }

    /// Answers a pronunciation query: tokenises it, seeds candidates from
    /// the reverse entries of the first syllable token — expanded over the
    /// tones 1 to 6 when its tone is unspecified — and keeps every candidate
    /// whose current syllable list satisfies the whole query. Fails if and
    /// only if the query has no syllable token.
    #[verifier::loop_isolation(false)]
    pub fn search_pronunciation(
        &self,
        query: &str,
        pronunciation_type: PronunciationType,
    ) -> (r: Result<Vec<i32>, SearchError>)
        requires
            self.wf(),
        ensures
            ({
                let toks = spec_tok_pron_query(query@);
                match r {
                    Err(e) => e == SearchError::InvalidInput && !spec_has_pron_token(toks),
                    Ok(ids) => spec_has_pron_token(toks) && (forall|id: i32|
                        #[trigger] ids@.contains(id) <==> self.pron_hit(
                            toks,
                            pronunciation_type,
                            id,
                        )),
                }
            }),
    {
        let query_tokens = tokenise_pronunciation_query(query);
        let ghost toks = spec_tok_pron_query(query@);
        proof {
            lemma_toks_view(query_tokens@);
        }
        let n = query_tokens.len();
        // broad-phase filter: the first syllable token
        let mut fi: usize = 0;
        while fi < n && !(matches!(&query_tokens[fi], QueryToken::Pronunciation { .. }))
            invariant
                fi <= n,
                forall|i: int| 0 <= i < fi ==> !is_pron_token(toks[i]),
            decreases n - fi,
        {
            fi = fi + 1;
        }
        if fi == n {
            proof {
                if spec_has_pron_token(toks) {
                    let w = choose|w: int| 0 <= w < toks.len() && is_pron_token(toks[w]);
                    assert(!is_pron_token(toks[w]));
                }
            }
            return Err(SearchError::InvalidInput);
        }
        let (f_sound, f_tone) = match &query_tokens[fi] {
            QueryToken::Pronunciation { sound, tone } => (sound.clone(), tone.clone()),
            _ => {
                proof {
                    assert(false);
                }
                (String::new(), String::new())
            },
        };
        proof {
            assert(is_pron_token(toks[fi as int]));
            lemma_first_pron_index(toks);
            let fpi = first_pron_index(toks);
            assert(!(fpi < fi) && !(fi < fpi));
            assert(filter_sound(toks) == f_sound@);
            assert(filter_tone(toks) == f_tone@);
        }
        // expand the filter over the tones 1..6 when its tone is unspecified
        let mut searches: Vec<Syllable> = Vec::new();
        if f_tone.as_str().is_empty() {
            let mut d: u32 = 1;
            while d <= 6
                invariant
                    1 <= d <= 7,
                    searches@.len() == d - 1,
                    forall|sj: int|
                        0 <= sj < searches@.len() ==> (#[trigger] searches@[sj]@).sound == f_sound@
                            && searches@[sj]@.tone.len() == 1 && (searches@[sj]@.tone[0] as u32)
                            == 49 + sj,
                decreases 7 - d,
            {
                let tone = tone_digit_string(d);
                searches.push(Syllable { sound: f_sound.clone(), tone });
                d = d + 1;
            }
        } else {
            searches.push(Syllable { sound: f_sound.clone(), tone: f_tone.clone() });
        }
        proof {
            assert forall|ct: Seq<char>| tone_in_expansion(f_tone@, ct) implies exists|sj: int|
                0 <= sj < searches@.len() && (#[trigger] searches@[sj]@).tone == ct by {
                if f_tone@.len() == 0 {
                    let u = ct[0] as u32;
                    let sj: int = u - 49;
                    assert(0 <= sj < searches@.len());
                    assert(searches@[sj]@.tone.len() == 1);
                    assert(searches@[sj]@.tone[0] as u32 == 49 + sj);
                    assert(searches@[sj]@.tone[0] as u32 == ct[0] as u32);
                    crate::chars::lemma_char_cast_injective(searches@[sj]@.tone[0], ct[0]);
                    assert(searches@[sj]@.tone[0] == ct[0]);
                    assert(searches@[sj]@.tone =~= ct);
                } else {
                    assert(searches@[0]@.tone == ct);
                }
            }
            assert forall|sj: int| 0 <= sj < searches@.len() implies (#[trigger] searches@[sj]@).sound
                == f_sound@ && tone_in_expansion(f_tone@, searches@[sj]@.tone) by {
                if f_tone@.len() == 0 {
                } else {
                    assert(searches@[0]@.tone == f_tone@);
                }
            }
        }
        // seed candidates from the reverse entries and verify each
        let mut results: Vec<i32> = Vec::new();
        let mut si: usize = 0;
        while si < searches.len()
            invariant
                si <= searches@.len(),
                forall|id: i32| #![trigger results@.contains(id)]
                    results@.contains(id) <==> self.pron_seen(
                        toks,
                        pronunciation_type,
                        searches@,
                        si as int,
                        id,
                    ),
            decreases searches@.len() - si,
        {
            let found = find_pron_bucket_index(
                &self.pronunciation_reverse_map,
                pronunciation_type,
                &searches[si],
            );
            match found {
                Some(b) => {
                    let ghost bucket_ids = self.pronunciation_reverse_map@[b as int].ids@;
                    let mut q: usize = 0;
                    while q < self.pronunciation_reverse_map[b].ids.len()
                        invariant
                            q <= bucket_ids.len(),
                            b < self.pronunciation_reverse_map@.len(),
                            bucket_ids == self.pronunciation_reverse_map@[b as int].ids@,
                            lookup_pron_bucket(
                                self.pronunciation_reverse_map@,
                                pronunciation_type,
                                searches@[si as int]@,
                            ) == Some(bucket_ids),
                            forall|id: i32| #![trigger results@.contains(id)]
                                results@.contains(id) <==> (self.pron_seen(
                                    toks,
                                    pronunciation_type,
                                    searches@,
                                    si as int,
                                    id,
                                ) || (self.pron_at(pronunciation_type, id) is Some
                                    && pron_candidate_matches(
                                    toks,
                                    self.pron_at(pronunciation_type, id).unwrap(),
                                ) && (exists|p: int| 0 <= p < q && bucket_ids[p] == id))),
                        decreases bucket_ids.len() - q,
                    {
                        let cid = self.pronunciation_reverse_map[b].ids[q];
                        proof {
                            assert(pron_rev_mentions(
                                self.pronunciation_reverse_map@,
                                pronunciation_type,
                                cid,
                            ));
                        }
                        let cand = find_pron_record(
                            &self.pronunciation_map,
                            pronunciation_type,
                            cid,
                        ).unwrap();
                        let ghost ss = self.pron_at(pronunciation_type, cid).unwrap();
                        proof {
                            lemma_syls_view(cand@);
                        }
                        let mut good = true;
                        let mut qi: usize = 0;
                        while qi < n
                            invariant
                                qi <= n,
                                syls_view(cand@) == ss,
                                good == (forall|p: int|
                                    0 <= p < qi ==> pron_token_matches_at(toks[p], ss, p)),
                            decreases n - qi,
                        {
                            let ghost good0 = good;
                            match &query_tokens[qi] {
                                QueryToken::Pronunciation { sound, tone } => {
                                    if qi >= cand.len() {
                                        good = false;
                                    } else {
                                        let cy = &cand[qi];
                                        if !(cy.sound == *sound) {
                                            good = false;
                                        } else if !tone.as_str().is_empty() && !(cy.tone
                                            == *tone) {
                                            good = false;
                                        }
                                    }
                                },
                                QueryToken::WildcardSingle => {
                                    if qi >= cand.len() {
                                        good = false;
                                    }
                                },
                                QueryToken::Character(_) => {},
                            }
                            proof {
                                assert(toks[qi as int] == query_tokens@[qi as int]@);
                                if qi < cand@.len() {
                                    assert(ss[qi as int] == cand@[qi as int]@);
                                }
                                assert(good == (good0 && pron_token_matches_at(
                                    toks[qi as int],
                                    ss,
                                    qi as int,
                                )));
                            }
                            qi = qi + 1;
                        }
                        let ghost res0 = results@;
                        if good {
                            results.push(cid);
                        }
                        proof {
                            assert(good == pron_candidate_matches(toks, ss));
                            if good {
                                assert(results@.last() == cid);
                                assert(results@.drop_last() =~= res0);
                                assert(results@.contains(cid));
                                assert forall|id: i32|
                                    results@.contains(id) implies (res0.contains(id) || id
                                    == cid) by {
                                    let w = choose|w: int|
                                        0 <= w < results@.len() && results@[w] == id;
                                    if w < results@.len() - 1 {
                                        assert(res0[w] == id);
                                        assert(res0.contains(id));
                                    }
                                }
                                assert forall|id: i32|
                                    res0.contains(id) implies results@.contains(id) by {
                                    let w = choose|w: int| 0 <= w < res0.len() && res0[w] == id;
                                    assert(results@[w] == id);
                                }
                            }
                            assert forall|id: i32| #![trigger results@.contains(id)]
                                results@.contains(id) <==> (self.pron_seen(
                                toks,
                                pronunciation_type,
                                searches@,
                                si as int,
                                id,
                            ) || (self.pron_at(pronunciation_type, id) is Some
                                && pron_candidate_matches(
                                toks,
                                self.pron_at(pronunciation_type, id).unwrap(),
                            ) && (exists|p: int| 0 <= p < q + 1 && bucket_ids[p] == id))) by {
                                if results@.contains(id) {
                                    if good && id == cid && !res0.contains(id) {
                                        assert(bucket_ids[q as int] == id);
                                        assert(exists|p: int|
                                            0 <= p < q + 1 && bucket_ids[p] == id);
                                        assert(self.pron_at(pronunciation_type, id) is Some);
                                    } else {
                                        assert(res0.contains(id));
                                    }
                                } else {
                                    assert(!res0.contains(id));
                                    if !self.pron_seen(
                                        toks,
                                        pronunciation_type,
                                        searches@,
                                        si as int,
                                        id,
                                    ) && self.pron_at(pronunciation_type, id) is Some
                                        && pron_candidate_matches(
                                        toks,
                                        self.pron_at(pronunciation_type, id).unwrap(),
                                    ) {
                                        if exists|p: int| 0 <= p < q + 1 && bucket_ids[p] == id {
                                            let p = choose|p: int|
                                                0 <= p < q + 1 && bucket_ids[p] == id;
                                            assert(p == q);
                                            assert(id == cid);
                                            assert(good);
                                            assert(results@.contains(cid));
                                        }
                                    }
                                }
                            }
                        }
                        q = q + 1;
                    }
                    proof {
                        assert forall|id: i32| #![trigger results@.contains(id)]
                            results@.contains(id) <==> self.pron_seen(
                            toks,
                            pronunciation_type,
                            searches@,
                            si + 1,
                            id,
                        ) by {
                            if results@.contains(id) {
                                if !self.pron_seen(
                                    toks,
                                    pronunciation_type,
                                    searches@,
                                    si as int,
                                    id,
                                ) {
                                    let p = choose|p: int|
                                        0 <= p < bucket_ids.len() && bucket_ids[p] == id;
                                    assert(bucket_ids.contains(id));
                                    assert(self.pron_rev_has(
                                        pronunciation_type,
                                        searches@[si as int]@,
                                        id,
                                    ));
                                }
                            }
                            if self.pron_seen(toks, pronunciation_type, searches@, si + 1, id) {
                                let sj = choose|sj: int|
                                    0 <= sj < si + 1 && self.pron_rev_has(
                                        pronunciation_type,
                                        searches@[sj]@,
                                        id,
                                    );
                                if sj == si {
                                    assert(bucket_ids.contains(id));
                                    let p = choose|p: int|
                                        0 <= p < bucket_ids.len() && bucket_ids[p] == id;
                                }
                            }
                        }
                    }
                },
                None => {
                    proof {
                        assert forall|id: i32| #![trigger results@.contains(id)]
                            results@.contains(id) <==> self.pron_seen(
                            toks,
                            pronunciation_type,
                            searches@,
                            si + 1,
                            id,
                        ) by {
                            if self.pron_seen(toks, pronunciation_type, searches@, si + 1, id) {
                                let sj = choose|sj: int|
                                    0 <= sj < si + 1 && self.pron_rev_has(
                                        pronunciation_type,
                                        searches@[sj]@,
                                        id,
                                    );
                                assert(sj < si);
                            }
                        }
                    }
                },
            }
            si = si + 1;
        }
        proof {
            assert forall|id: i32| #![trigger results@.contains(id)]
                results@.contains(id) <==> self.pron_hit(toks, pronunciation_type, id) by {
                if results@.contains(id) {
                    let sj = choose|sj: int|
                        0 <= sj < searches@.len() && self.pron_rev_has(
                            pronunciation_type,
                            searches@[sj]@,
                            id,
                        );
                    let y = searches@[sj]@;
                    assert(self.pron_rev_has(pronunciation_type, y, id) && y.sound == filter_sound(
                        toks,
                    ) && tone_in_expansion(filter_tone(toks), y.tone));
                }
                if self.pron_hit(toks, pronunciation_type, id) {
                    let y = choose|y: SpecSyllable|
                        #[trigger] self.pron_rev_has(pronunciation_type, y, id) && y.sound
                            == filter_sound(toks) && tone_in_expansion(filter_tone(toks), y.tone);
                    let sj = choose|sj: int|
                        0 <= sj < searches@.len() && (#[trigger] searches@[sj]@).tone == y.tone;
                    assert(searches@[sj]@ == y);
                    assert(self.pron_seen(
                        toks,
                        pronunciation_type,
                        searches@,
                        searches@.len() as int,
                        id,
                    ));
                }
            }
        }
        Ok(results)
    }


    /// A word id belongs to the result of a character query: it is indexed
    /// and its written forms satisfy every query token.
    pub open spec fn char_hit(&self, toks: Seq<SpecQueryToken>, id: i32) -> bool {
        &&& self.chars_at(id) is Some
        &&& chars_candidate_matches(toks, self.chars_at(id).unwrap())
    }

    /// Answers a character query: tokenises it, seeds candidates from the
    /// reverse entry of the first character token and keeps every candidate
    /// whose written forms satisfy the whole query. Fails if and only if the
    /// query has no character token — it is empty or all wildcards.
    #[verifier::loop_isolation(false)]
    pub fn search_characters(&self, query: &str) -> (r: Result<Vec<i32>, SearchError>)
        requires
            self.wf(),
        ensures
            ({
                let toks = spec_tok_chars(query@);
                match r {
                    Err(e) => e == SearchError::InvalidInput && !spec_has_char_token(toks),
                    Ok(ids) => spec_has_char_token(toks) && (forall|id: i32|
                        #[trigger] ids@.contains(id) <==> self.char_hit(toks, id)),
                }
            }),
    {
        let query_tokens = tokenise_characters_query(query);
        let ghost toks = spec_tok_chars(query@);
        proof {
            lemma_toks_view(query_tokens@);
        }
        let n = query_tokens.len();
        let mut fi: usize = 0;
        while fi < n && !(matches!(&query_tokens[fi], QueryToken::Character(_)))
            invariant
                fi <= n,
                forall|i: int| 0 <= i < fi ==> !is_char_token(toks[i]),
            decreases n - fi,
        {
            fi = fi + 1;
        }
        if fi == n {
            proof {
                if spec_has_char_token(toks) {
                    let w = choose|w: int| 0 <= w < toks.len() && is_char_token(toks[w]);
                    assert(!is_char_token(toks[w]));
                }
            }
            return Err(SearchError::InvalidInput);
        }
        let c = match &query_tokens[fi] {
            QueryToken::Character(qc) => *qc,
            _ => {
                proof {
                    assert(false);
                }
                '?'
            },
        };
        proof {
            assert(is_char_token(toks[fi as int]));
            lemma_first_char_index(toks);
            let fci = first_char_index(toks);
            assert(!(fci < fi) && !(fi < fci));
            assert(filter_char(toks) == c);
        }
        let mut results: Vec<i32> = Vec::new();
        let found = find_char_bucket_index(&self.character_reverse_map, c);
        match found {
            Some(b) => {
                let ghost bucket_ids = self.character_reverse_map@[b as int].ids@;
                let mut q: usize = 0;
                while q < self.character_reverse_map[b].ids.len()
                    invariant
                        q <= bucket_ids.len(),
                        b < self.character_reverse_map@.len(),
                        bucket_ids == self.character_reverse_map@[b as int].ids@,
                        lookup_char_bucket(self.character_reverse_map@, c) == Some(bucket_ids),
                        forall|id: i32| #![trigger results@.contains(id)]
                            results@.contains(id) <==> (self.char_hit(toks, id) && (exists|p: int|
                                0 <= p < q && bucket_ids[p] == id)),
                    decreases bucket_ids.len() - q,
                {
                    let cid = self.character_reverse_map[b].ids[q];
                    proof {
                        assert(char_rev_mentions(self.character_reverse_map@, cid));
                    }
                    let rec = find_char_record(&self.characters_map, cid).unwrap();
                    let ghost cr = self.chars_at(cid).unwrap();
                    let tl = rec.traditional.as_str().unicode_len();
                    let sl = rec.simplified.as_str().unicode_len();
                    let mut good = true;
                    let mut qi: usize = 0;
                    while qi < n
                        invariant
                            qi <= n,
                            tl == cr.traditional.len(),
                            sl == cr.simplified.len(),
                            cr == self.chars_at(cid).unwrap(),
                            self.chars_at(cid) is Some,
                            cr.traditional == rec.traditional@,
                            cr.simplified == rec.simplified@,
                            good == (forall|p: int|
                                0 <= p < qi ==> chars_token_matches_at(toks[p], cr, p)),
                        decreases n - qi,
                    {
                        let ghost good0 = good;
                        match &query_tokens[qi] {
                            QueryToken::Character(qc) => {
                                let trad_ok = qi < tl && rec.traditional.as_str().get_char(qi)
                                    == *qc;
                                let simp_ok = qi < sl && rec.simplified.as_str().get_char(qi)
                                    == *qc;
                                if !(trad_ok || simp_ok) {
                                    good = false;
                                }
                            },
                            QueryToken::WildcardSingle => {
                                if qi >= tl && qi >= sl {
                                    good = false;
                                }
                            },
                            QueryToken::Pronunciation { .. } => {},
                        }
                        proof {
                            assert(toks[qi as int] == query_tokens@[qi as int]@);
                            assert(good == (good0 && chars_token_matches_at(
                                toks[qi as int],
                                cr,
                                qi as int,
                            )));
                        }
                        qi = qi + 1;
                    }
                    let ghost res0 = results@;
                    if good {
                        results.push(cid);
                    }
                    proof {
                        assert(good == chars_candidate_matches(toks, cr));
                        if good {
                            assert(results@.last() == cid);
                            assert(results@.drop_last() =~= res0);
                            assert(results@.contains(cid));
                            assert forall|id: i32|
                                results@.contains(id) implies (res0.contains(id) || id == cid) by {
                                let w = choose|w: int|
                                    0 <= w < results@.len() && results@[w] == id;
                                if w < results@.len() - 1 {
                                    assert(res0[w] == id);
                                    assert(res0.contains(id));
                                }
                            }
                            assert forall|id: i32|
                                res0.contains(id) implies results@.contains(id) by {
                                let w = choose|w: int| 0 <= w < res0.len() && res0[w] == id;
                                assert(results@[w] == id);
                            }
                        }
                        assert forall|id: i32| #![trigger results@.contains(id)]
                            results@.contains(id) <==> (self.char_hit(toks, id) && (exists|p: int|
                                0 <= p < q + 1 && bucket_ids[p] == id)) by {
                            if results@.contains(id) {
                                if good && id == cid && !res0.contains(id) {
                                    assert(bucket_ids[q as int] == id);
                                    assert(exists|p: int| 0 <= p < q + 1 && bucket_ids[p] == id);
                                } else {
                                    assert(res0.contains(id));
                                }
                            } else {
                                assert(!res0.contains(id));
                                if self.char_hit(toks, id) {
                                    if exists|p: int| 0 <= p < q + 1 && bucket_ids[p] == id {
                                        let p = choose|p: int|
                                            0 <= p < q + 1 && bucket_ids[p] == id;
                                        assert(p == q);
                                        assert(id == cid);
                                        assert(good);
                                        assert(results@.contains(cid));
                                    }
                                }
                            }
                        }
                    }
                    q = q + 1;
                }
                proof {
                    assert forall|id: i32| #![trigger results@.contains(id)]
                        results@.contains(id) <==> self.char_hit(toks, id) by {
                        if self.char_hit(toks, id) {
                            let cr2 = self.chars_at(id).unwrap();
                            lemma_lookup_chars_witness(self.characters_map@, id);
                            let k = first_char_index(toks);
                            assert(chars_token_matches_at(toks[k], cr2, k));
                            assert(char_bucket_has(self.character_reverse_map@, c, id));
                            assert(bucket_ids.contains(id));
                            let p = choose|p: int| 0 <= p < bucket_ids.len() && bucket_ids[p] == id;
                        }
                    }
                }
            },
            None => {
                proof {
                    assert forall|id: i32| #![trigger results@.contains(id)]
                        results@.contains(id) <==> self.char_hit(toks, id) by {
                        if self.char_hit(toks, id) {
                            let cr2 = self.chars_at(id).unwrap();
                            lemma_lookup_chars_witness(self.characters_map@, id);
                            let k = first_char_index(toks);
                            assert(chars_token_matches_at(toks[k], cr2, k));
                            assert(char_bucket_has(self.character_reverse_map@, c, id));
                        }
                    }
                }
            },
        }
        Ok(results)
    }

    /// Indexes the written forms of a word under `id`: adds `id` to the
    /// reverse set of every character of either form, and stores the forms
    /// in the forward map — overwriting any earlier entry for `id`.
    pub fn insert_characters(&mut self, id: i32, trad: &str, simp: &str)
        requires
            old(self).wf(),
        ensures
            final(self).wf(),
            final(self).chars_at(id) == Some(
                SpecChars { traditional: trad@, simplified: simp@ },
            ),
            forall|id2: i32|
                id2 != id ==> final(self).chars_at(id2) == old(self).chars_at(id2),
            forall|t2: PronunciationType, id2: i32|
                final(self).pron_at(t2, id2) == old(self).pron_at(t2, id2),
            forall|t2: PronunciationType, y: SpecSyllable, id2: i32|
                final(self).pron_rev_has(t2, y, id2) == old(self).pron_rev_has(t2, y, id2),
            forall|c: char, id2: i32|
                old(self).char_rev_has(c, id2) ==> final(self).char_rev_has(c, id2),
            forall|j: int| 0 <= j < trad@.len() ==> final(self).char_rev_has(trad@[j], id),
            forall|j: int| 0 <= j < simp@.len() ==> final(self).char_rev_has(simp@[j], id),
            forall|c: char, id2: i32|
                final(self).char_rev_has(c, id2) ==> old(self).char_rev_has(c, id2) || (id2 == id
                    && (trad@.contains(c) || simp@.contains(c))),
    {
        let nt = trad.unicode_len();
        let mut k: usize = 0;
        while k < nt
            invariant
                k <= nt,
                nt == trad@.len(),
                old(self).wf(),
                self.pronunciation_map@ == old(self).pronunciation_map@,
                self.pronunciation_reverse_map@ == old(self).pronunciation_reverse_map@,
                self.characters_map@ == old(self).characters_map@,
                forall|c: char, id2: i32|
                    char_bucket_has(old(self).character_reverse_map@, c, id2) ==> char_bucket_has(
                        self.character_reverse_map@,
                        c,
                        id2,
                    ),
                forall|j: int|
                    0 <= j < k ==> char_bucket_has(self.character_reverse_map@, trad@[j], id),
                forall|id2: i32|
                    char_rev_mentions(self.character_reverse_map@, id2) ==> char_rev_mentions(
                        old(self).character_reverse_map@,
                        id2,
                    ) || id2 == id,
                forall|c: char, id2: i32|
                    char_bucket_has(self.character_reverse_map@, c, id2) ==> char_bucket_has(
                        old(self).character_reverse_map@,
                        c,
                        id2,
                    ) || (id2 == id && (trad@.contains(c) || simp@.contains(c))),
            decreases nt - k,
        {
            let c = trad.get_char(k);
            add_char_bucket(&mut self.character_reverse_map, c, id);
            proof {
                assert(trad@.contains(trad@[k as int]));
            }
            k = k + 1;
        }
        let ns = simp.unicode_len();
        let mut m: usize = 0;
        while m < ns
            invariant
                m <= ns,
                ns == simp@.len(),
                old(self).wf(),
                self.pronunciation_map@ == old(self).pronunciation_map@,
                self.pronunciation_reverse_map@ == old(self).pronunciation_reverse_map@,
                self.characters_map@ == old(self).characters_map@,
                forall|c: char, id2: i32|
                    char_bucket_has(old(self).character_reverse_map@, c, id2) ==> char_bucket_has(
                        self.character_reverse_map@,
                        c,
                        id2,
                    ),
                forall|j: int|
                    0 <= j < trad@.len() ==> char_bucket_has(
                        self.character_reverse_map@,
                        trad@[j],
                        id,
                    ),
                forall|j: int|
                    0 <= j < m ==> char_bucket_has(self.character_reverse_map@, simp@[j], id),
                forall|id2: i32|
                    char_rev_mentions(self.character_reverse_map@, id2) ==> char_rev_mentions(
                        old(self).character_reverse_map@,
                        id2,
                    ) || id2 == id,
                forall|c: char, id2: i32|
                    char_bucket_has(self.character_reverse_map@, c, id2) ==> char_bucket_has(
                        old(self).character_reverse_map@,
                        c,
                        id2,
                    ) || (id2 == id && (trad@.contains(c) || simp@.contains(c))),
            decreases ns - m,
        {
            let c = simp.get_char(m);
            add_char_bucket(&mut self.character_reverse_map, c, id);
            proof {
                assert(simp@.contains(simp@[m as int]));
            }
            m = m + 1;
        }
        let ghost pre = self.characters_map@;
        let ghost rev_now = self.character_reverse_map@;
        self.characters_map.push(
            CharRecord { id, traditional: trad.to_owned(), simplified: simp.to_owned() },
        );
        proof {
            let fwd = self.characters_map@;
            assert(fwd.drop_last() =~= pre);
            assert(fwd.last().id == id);
            assert(lookup_chars(fwd, id) == Some(
                SpecChars { traditional: trad@, simplified: simp@ },
            ));
            assert forall|id2: i32| id2 != id implies lookup_chars(fwd, id2) == lookup_chars(
                pre,
                id2,
            ) by {
                assert(fwd.last().id != id2);
            }
            assert forall|id2: i32|
                char_rev_mentions(rev_now, id2) implies lookup_chars(fwd, id2) is Some by {
                if id2 != id {
                    assert(char_rev_mentions(old(self).character_reverse_map@, id2) || id2 == id);
                    assert(lookup_chars(pre, id2) is Some);
                }
            }
            assert forall|ri: int, j: int|
                0 <= ri < fwd.len() && 0 <= j < fwd[ri].traditional@.len() implies char_bucket_has(
                rev_now,
                fwd[ri].traditional@[j],
                fwd[ri].id,
            ) by {
                if ri < fwd.len() - 1 {
                    assert(fwd[ri] == pre[ri]);
                    assert(char_bucket_has(
                        old(self).character_reverse_map@,
                        pre[ri].traditional@[j],
                        pre[ri].id,
                    ));
                } else {
                    assert(fwd[ri].traditional@ == trad@);
                }
            }
            assert forall|ri: int, j: int|
                0 <= ri < fwd.len() && 0 <= j < fwd[ri].simplified@.len() implies char_bucket_has(
                rev_now,
                fwd[ri].simplified@[j],
                fwd[ri].id,
            ) by {
                if ri < fwd.len() - 1 {
                    assert(fwd[ri] == pre[ri]);
                    assert(char_bucket_has(
                        old(self).character_reverse_map@,
                        pre[ri].simplified@[j],
                        pre[ri].id,
                    ));
                } else {
                    assert(fwd[ri].simplified@ == simp@);
                }
            }
        }
    }

    /// Indexes a pronunciation string under `(pronunciation_type, id)`:
    /// tokenises `content`, stores the syllable list in the forward map —
    /// overwriting any earlier entry for the key — and adds `id` to the
    /// reverse set of every syllable.
    pub fn insert_pronunciation(
        &mut self,
        id: i32,
        content: &str,
        pronunciation_type: PronunciationType,
    )
        requires
            old(self).wf(),
        ensures
            final(self).wf(),
            final(self).pron_at(pronunciation_type, id) == Some(spec_tok_pron(content@)),
            forall|t2: PronunciationType, id2: i32|
                !(t2 == pronunciation_type && id2 == id) ==> final(self).pron_at(t2, id2) == old(
                    self,
                ).pron_at(t2, id2),
            forall|id2: i32| final(self).chars_at(id2) == old(self).chars_at(id2),
            forall|c: char, id2: i32|
                final(self).char_rev_has(c, id2) == old(self).char_rev_has(c, id2),
            forall|t2: PronunciationType, y: SpecSyllable, id2: i32|
                old(self).pron_rev_has(t2, y, id2) ==> final(self).pron_rev_has(t2, y, id2),
            forall|j: int|
                0 <= j < spec_tok_pron(content@).len() ==> final(self).pron_rev_has(
                    pronunciation_type,
                    spec_tok_pron(content@)[j],
                    id,
                ),
            forall|t2: PronunciationType, y: SpecSyllable, id2: i32|
                final(self).pron_rev_has(t2, y, id2) ==> old(self).pron_rev_has(t2, y, id2) || (t2
                    == pronunciation_type && id2 == id && spec_tok_pron(content@).contains(y)),
    {
        let tokens = tokenise_pronunciation(content);
        proof {
            lemma_syls_view(tokens@);
        }
        let mut k: usize = 0;
        while k < tokens.len()
            invariant
                k <= tokens@.len(),
                syls_view(tokens@) == spec_tok_pron(content@),
                syls_view(tokens@).len() == tokens@.len(),
                forall|j: int| 0 <= j < tokens@.len() ==> syls_view(tokens@)[j] == tokens@[j]@,
                self.pronunciation_map@ == old(self).pronunciation_map@,
                self.characters_map@ == old(self).characters_map@,
                self.character_reverse_map@ == old(self).character_reverse_map@,
                forall|t2: PronunciationType, y: SpecSyllable, id2: i32|
                    pron_bucket_has(old(self).pronunciation_reverse_map@, t2, y, id2)
                        ==> pron_bucket_has(self.pronunciation_reverse_map@, t2, y, id2),
                forall|j: int|
                    0 <= j < k ==> pron_bucket_has(
                        self.pronunciation_reverse_map@,
                        pronunciation_type,
                        tokens@[j]@,
                        id,
                    ),
                forall|t2: PronunciationType, id2: i32|
                    pron_rev_mentions(self.pronunciation_reverse_map@, t2, id2)
                        ==> pron_rev_mentions(old(self).pronunciation_reverse_map@, t2, id2) || (
                    t2 == pronunciation_type && id2 == id),
                forall|t2: PronunciationType, y: SpecSyllable, id2: i32|
                    pron_bucket_has(self.pronunciation_reverse_map@, t2, y, id2)
                        ==> pron_bucket_has(old(self).pronunciation_reverse_map@, t2, y, id2) || (
                    t2 == pronunciation_type && id2 == id && syls_view(tokens@).contains(y)),
            decreases tokens@.len() - k,
        {
            let ghost mid = self.pronunciation_reverse_map@;
            let syl = &tokens[k];
            add_pron_bucket(&mut self.pronunciation_reverse_map, pronunciation_type, syl, id);
            proof {
                assert(syls_view(tokens@)[k as int] == tokens@[k as int]@);
                assert(syls_view(tokens@).contains(tokens@[k as int]@));
            }
            k = k + 1;
        }
        let ghost pre = self.pronunciation_map@;
        let ghost rev_now = self.pronunciation_reverse_map@;
        self.pronunciation_map.push(
            PronRecord { ptype: pronunciation_type, id, syllables: tokens },
        );
        proof {
            let fwd = self.pronunciation_map@;
            assert(fwd.drop_last() =~= pre);
            assert(fwd.last().ptype == pronunciation_type && fwd.last().id == id);
            assert(lookup_pron(fwd, pronunciation_type, id) == Some(
                syls_view(fwd.last().syllables@),
            ));
            assert forall|t2: PronunciationType, id2: i32|
                !(t2 == pronunciation_type && id2 == id) implies lookup_pron(fwd, t2, id2)
                == lookup_pron(pre, t2, id2) by {
                assert(!(fwd.last().ptype == t2 && fwd.last().id == id2));
            }
            // the reverse map only mentions ids the forward map now binds
            assert forall|t2: PronunciationType, id2: i32|
                pron_rev_mentions(rev_now, t2, id2) implies lookup_pron(fwd, t2, id2)
                is Some by {
                if t2 == pronunciation_type && id2 == id {
                } else {
                    assert(pron_rev_mentions(old(self).pronunciation_reverse_map@, t2, id2) || (t2
                        == pronunciation_type && id2 == id));
                    assert(lookup_pron(pre, t2, id2) is Some);
                }
            }
            // every syllable of every forward record is covered by a bucket
            assert forall|ri: int, j: int|
                0 <= ri < fwd.len() && 0 <= j < fwd[ri].syllables@.len() implies pron_bucket_has(
                rev_now,
                fwd[ri].ptype,
                fwd[ri].syllables@[j]@,
                fwd[ri].id,
            ) by {
                if ri < fwd.len() - 1 {
                    assert(fwd[ri] == pre[ri]);
                    assert(pron_bucket_has(
                        old(self).pronunciation_reverse_map@,
                        pre[ri].ptype,
                        pre[ri].syllables@[j]@,
                        pre[ri].id,
                    ));
                } else {
                    assert(fwd[ri].syllables@ == tokens@);
                }
            }
        }
    }
}


/// Whether `v` holds `x`.
pub(crate) fn ids_contain(v: &Vec<i32>, x: i32) -> (r: bool)
    ensures
        r == v@.contains(x),
{
    let mut i: usize = 0;
    while i < v.len()
        invariant
            i <= v@.len(),
            forall|p: int| 0 <= p < i ==> v@[p] != x,
        decreases v@.len() - i,
    {
        if v[i] == x {
            return true;
        }
        i = i + 1;
    }
    false
}

/// Finds the latest reverse pronunciation entry for `(t, syl)`, if any.
fn find_pron_bucket_index(rev: &Vec<PronBucket>, t: PronunciationType, syl: &Syllable) -> (r:
    Option<usize>)
    ensures
        match r {
            Some(b) => b < rev@.len() && rev@[b as int].ptype == t && rev@[b as int].syllable@
                == syl@ && lookup_pron_bucket(rev@, t, syl@) == Some(rev@[b as int].ids@)
                && (forall|b2: int|
                b < b2 < rev@.len() ==> !(rev@[b2].ptype == t && rev@[b2].syllable@ == syl@)),
            None => lookup_pron_bucket(rev@, t, syl@) is None,
        },
{
    let mut i = rev.len();
    proof {
        assert(rev@.subrange(0, rev@.len() as int) =~= rev@);
    }
    while i > 0
        invariant
            i <= rev@.len(),
            lookup_pron_bucket(rev@, t, syl@) == lookup_pron_bucket(
                rev@.subrange(0, i as int),
                t,
                syl@,
            ),
            forall|b2: int|
                i <= b2 < rev@.len() ==> !(rev@[b2].ptype == t && rev@[b2].syllable@ == syl@),
        decreases i,
    {
        i = i - 1;
        let bucket = &rev[i];
        let ghost pre = rev@.subrange(0, i + 1);
        proof {
            assert(pre.last() == rev@[i as int]);
            assert(pre.drop_last() =~= rev@.subrange(0, i as int));
        }
        if bucket.ptype == t && bucket.syllable.sound == syl.sound && bucket.syllable.tone
            == syl.tone {
            return Some(i);
        }
    }
    proof {
        assert(rev@.subrange(0, 0) =~= Seq::<PronBucket>::empty());
    }
    None
}

/// Updating one reverse entry in place, keeping its key, changes lookups of
/// that key alone — provided no later entry shadows it.
proof fn lemma_pron_bucket_update(rev: Seq<PronBucket>, b: int, nb: PronBucket)
    requires
        0 <= b < rev.len(),
        nb.ptype == rev[b].ptype,
        nb.syllable@ == rev[b].syllable@,
        forall|b2: int|
            b < b2 < rev.len() ==> !(rev[b2].ptype == rev[b].ptype && rev[b2].syllable@
                == rev[b].syllable@),
    ensures
        lookup_pron_bucket(rev.update(b, nb), rev[b].ptype, rev[b].syllable@) == Some(nb.ids@),
        forall|t2: PronunciationType, y2: SpecSyllable|
            !(t2 == rev[b].ptype && y2 == rev[b].syllable@) ==> lookup_pron_bucket(
                rev.update(b, nb),
                t2,
                y2,
            ) == lookup_pron_bucket(rev, t2, y2),
    decreases rev.len(),
{
    let rv = rev.update(b, nb);
    if b == rev.len() - 1 {
        assert(rv.last() == nb);
        assert(rv.drop_last() =~= rev.drop_last());
        assert(rev.last() == rev[b]);
    } else {
        assert(rv.last() == rev.last());
        assert(rv.drop_last() =~= rev.drop_last().update(b, nb));
        assert(rev.drop_last()[b] == rev[b]);
        lemma_pron_bucket_update(rev.drop_last(), b, nb);
        assert(!(rev.last().ptype == rev[b].ptype && rev.last().syllable@ == rev[b].syllable@));
        assert(lookup_pron_bucket(rv, rev[b].ptype, rev[b].syllable@) == Some(nb.ids@));
        assert forall|t2: PronunciationType, y2: SpecSyllable|
            !(t2 == rev[b].ptype && y2 == rev[b].syllable@) implies lookup_pron_bucket(rv, t2, y2)
            == lookup_pron_bucket(rev, t2, y2) by {
            if rev.last().ptype == t2 && rev.last().syllable@ == y2 {
                assert(lookup_pron_bucket(rv, t2, y2) == Some(rv.last().ids@));
                assert(lookup_pron_bucket(rev, t2, y2) == Some(rev.last().ids@));
            } else {
                assert(lookup_pron_bucket(rv, t2, y2) == lookup_pron_bucket(
                    rv.drop_last(),
                    t2,
                    y2,
                ));
                assert(rv.drop_last() == rev.drop_last().update(b, nb));
                assert(lookup_pron_bucket(rev.drop_last().update(b, nb), t2, y2)
                    == lookup_pron_bucket(rev.drop_last(), t2, y2));
                assert(lookup_pron_bucket(rev, t2, y2) == lookup_pron_bucket(
                    rev.drop_last(),
                    t2,
                    y2,
                ));
            }
        }
    }
}

/// Adds `id` to the reverse pronunciation entry of `(t, syl)`, creating the
/// entry if it does not exist; adding an id twice changes nothing.
fn add_pron_bucket(rev: &mut Vec<PronBucket>, t: PronunciationType, syl: &Syllable, id: i32)
    ensures
        pron_bucket_has(final(rev)@, t, syl@, id),
        forall|t2: PronunciationType, y2: SpecSyllable, id2: i32|
            pron_bucket_has(old(rev)@, t2, y2, id2) ==> pron_bucket_has(final(rev)@, t2, y2, id2),
        forall|t2: PronunciationType, id2: i32|
            pron_rev_mentions(final(rev)@, t2, id2) ==> pron_rev_mentions(old(rev)@, t2, id2) || (
            t2 == t && id2 == id),
        forall|t2: PronunciationType, y2: SpecSyllable, id2: i32|
            pron_bucket_has(final(rev)@, t2, y2, id2) ==> pron_bucket_has(old(rev)@, t2, y2, id2)
                || (t2 == t && y2 == syl@ && id2 == id),
{
    let found = find_pron_bucket_index(rev, t, syl);
    match found {
        Some(b) => {
            let present = ids_contain(&rev[b].ids, id);
            if !present {
                let ghost old_rev = rev@;
                let bucket = &mut rev[b];
                bucket.ids.push(id);
                proof {
                    let nb = rev@[b as int];
                    assert(rev@ == old_rev.update(b as int, nb));
                    assert(nb.ptype == t && nb.syllable@ == syl@);
                    assert(nb.ids@ == old_rev[b as int].ids@.push(id));
                    lemma_pron_bucket_update(old_rev, b as int, nb);
                    assert(nb.ids@[nb.ids@.len() - 1] == id);
                    assert(nb.ids@.contains(id));
                    assert forall|t2: PronunciationType, y2: SpecSyllable, id2: i32|
                        pron_bucket_has(old_rev, t2, y2, id2) implies pron_bucket_has(
                        rev@,
                        t2,
                        y2,
                        id2,
                    ) by {
                        if t2 == t && y2 == syl@ {
                            let ids0 = old_rev[b as int].ids@;
                            let w = choose|w: int| 0 <= w < ids0.len() && ids0[w] == id2;
                            assert(nb.ids@[w] == id2);
                            assert(nb.ids@.contains(id2));
                        }
                    }
                    assert forall|t2: PronunciationType, id2: i32|
                        pron_rev_mentions(rev@, t2, id2) implies pron_rev_mentions(
                        old_rev,
                        t2,
                        id2,
                    ) || (t2 == t && id2 == id) by {
                        let (b2, q) = choose|b2: int, q: int|
                            0 <= b2 < rev@.len() && 0 <= q < rev@[b2].ids@.len() && rev@[b2].ptype
                                == t2 && rev@[b2].ids@[q] == id2;
                        if b2 == b as int {
                            if q < old_rev[b as int].ids@.len() {
                                assert(old_rev[b2].ids@[q] == id2);
                                assert(pron_rev_mentions(old_rev, t2, id2));
                            } else {
                                assert(id2 == id && t2 == t);
                            }
                        } else {
                            assert(old_rev[b2].ids@[q] == id2);
                            assert(pron_rev_mentions(old_rev, t2, id2));
                        }
                    }
                    assert forall|t2: PronunciationType, y2: SpecSyllable, id2: i32|
                        pron_bucket_has(rev@, t2, y2, id2) implies pron_bucket_has(
                        old_rev,
                        t2,
                        y2,
                        id2,
                    ) || (t2 == t && y2 == syl@ && id2 == id) by {
                        if t2 == t && y2 == syl@ {
                            let w = choose|w: int| 0 <= w < nb.ids@.len() && nb.ids@[w] == id2;
                            if w < old_rev[b as int].ids@.len() {
                                assert(old_rev[b as int].ids@[w] == id2);
                                assert(old_rev[b as int].ids@.contains(id2));
                            }
                        }
                    }
                }
            }
        },
        None => {
            let mut ids: Vec<i32> = Vec::new();
            ids.push(id);
            let ghost old_rev = rev@;
            rev.push(PronBucket { ptype: t, syllable: syl.duplicate(), ids });
            proof {
                let nb = rev@.last();
                assert(rev@.drop_last() =~= old_rev);
                assert(nb.ids@[0] == id);
                assert(nb.ids@.contains(id));
                assert(lookup_pron_bucket(rev@, t, syl@) == Some(nb.ids@));
                assert forall|t2: PronunciationType, y2: SpecSyllable|
                    !(t2 == t && y2 == syl@) implies lookup_pron_bucket(rev@, t2, y2)
                    == lookup_pron_bucket(old_rev, t2, y2) by {
                    assert(!(nb.ptype == t2 && nb.syllable@ == y2));
                }
                assert forall|t2: PronunciationType, id2: i32|
                    pron_rev_mentions(rev@, t2, id2) implies pron_rev_mentions(old_rev, t2, id2)
                    || (t2 == t && id2 == id) by {
                    let (b2, q) = choose|b2: int, q: int|
                        0 <= b2 < rev@.len() && 0 <= q < rev@[b2].ids@.len() && rev@[b2].ptype
                            == t2 && rev@[b2].ids@[q] == id2;
                    if b2 < old_rev.len() {
                        assert(old_rev[b2].ids@[q] == id2);
                        assert(pron_rev_mentions(old_rev, t2, id2));
                    }
                }
            }
        },
    }
}


/// Finds the latest reverse character entry for `c`, if any.
fn find_char_bucket_index(rev: &Vec<CharBucket>, c: char) -> (r: Option<usize>)
    ensures
        match r {
            Some(b) => b < rev@.len() && rev@[b as int].character == c && lookup_char_bucket(
                rev@,
                c,
            ) == Some(rev@[b as int].ids@) && (forall|b2: int|
                b < b2 < rev@.len() ==> rev@[b2].character != c),
            None => lookup_char_bucket(rev@, c) is None,
        },
{
    let mut i = rev.len();
    proof {
        assert(rev@.subrange(0, rev@.len() as int) =~= rev@);
    }
    while i > 0
        invariant
            i <= rev@.len(),
            lookup_char_bucket(rev@, c) == lookup_char_bucket(rev@.subrange(0, i as int), c),
            forall|b2: int| i <= b2 < rev@.len() ==> rev@[b2].character != c,
        decreases i,
    {
        i = i - 1;
        let bucket = &rev[i];
        let ghost pre = rev@.subrange(0, i + 1);
        proof {
            assert(pre.last() == rev@[i as int]);
            assert(pre.drop_last() =~= rev@.subrange(0, i as int));
        }
        if bucket.character == c {
            return Some(i);
        }
    }
    proof {
        assert(rev@.subrange(0, 0) =~= Seq::<CharBucket>::empty());
    }
    None
}

/// Updating one reverse character entry in place, keeping its key, changes
/// lookups of that key alone — provided no later entry shadows it.
proof fn lemma_char_bucket_update(rev: Seq<CharBucket>, b: int, nb: CharBucket)
    requires
        0 <= b < rev.len(),
        nb.character == rev[b].character,
        forall|b2: int| b < b2 < rev.len() ==> rev[b2].character != rev[b].character,
    ensures
        lookup_char_bucket(rev.update(b, nb), rev[b].character) == Some(nb.ids@),
        forall|c2: char|
            c2 != rev[b].character ==> lookup_char_bucket(rev.update(b, nb), c2)
                == lookup_char_bucket(rev, c2),
    decreases rev.len(),
{
    let rv = rev.update(b, nb);
    if b == rev.len() - 1 {
        assert(rv.last() == nb);
        assert(rv.drop_last() =~= rev.drop_last());
        assert(rev.last() == rev[b]);
    } else {
        assert(rv.last() == rev.last());
        assert(rv.drop_last() =~= rev.drop_last().update(b, nb));
        assert(rev.drop_last()[b] == rev[b]);
        lemma_char_bucket_update(rev.drop_last(), b, nb);
        assert(rev.last().character != rev[b].character);
        assert(lookup_char_bucket(rv, rev[b].character) == Some(nb.ids@));
        assert forall|c2: char| c2 != rev[b].character implies lookup_char_bucket(rv, c2)
            == lookup_char_bucket(rev, c2) by {
            if rev.last().character == c2 {
                assert(lookup_char_bucket(rv, c2) == Some(rv.last().ids@));
                assert(lookup_char_bucket(rev, c2) == Some(rev.last().ids@));
            } else {
                assert(lookup_char_bucket(rv, c2) == lookup_char_bucket(rv.drop_last(), c2));
                assert(rv.drop_last() == rev.drop_last().update(b, nb));
                assert(lookup_char_bucket(rev.drop_last().update(b, nb), c2) == lookup_char_bucket(
                    rev.drop_last(),
                    c2,
                ));
                assert(lookup_char_bucket(rev, c2) == lookup_char_bucket(rev.drop_last(), c2));
            }
        }
    }
}

/// Adds `id` to the reverse character entry of `c`, creating the entry if it
/// does not exist; adding an id twice changes nothing.
fn add_char_bucket(rev: &mut Vec<CharBucket>, c: char, id: i32)
    ensures
        char_bucket_has(final(rev)@, c, id),
        forall|c2: char, id2: i32|
            char_bucket_has(old(rev)@, c2, id2) ==> char_bucket_has(final(rev)@, c2, id2),
        forall|id2: i32|
            char_rev_mentions(final(rev)@, id2) ==> char_rev_mentions(old(rev)@, id2) || id2 == id,
        forall|c2: char, id2: i32|
            char_bucket_has(final(rev)@, c2, id2) ==> char_bucket_has(old(rev)@, c2, id2) || (c2
                == c && id2 == id),
{
    let found = find_char_bucket_index(rev, c);
    match found {
        Some(b) => {
            let present = ids_contain(&rev[b].ids, id);
            if !present {
                let ghost old_rev = rev@;
                let bucket = &mut rev[b];
                bucket.ids.push(id);
                proof {
                    let nb = rev@[b as int];
                    assert(rev@ == old_rev.update(b as int, nb));
                    assert(nb.character == c);
                    assert(nb.ids@ == old_rev[b as int].ids@.push(id));
                    lemma_char_bucket_update(old_rev, b as int, nb);
                    assert(nb.ids@[nb.ids@.len() - 1] == id);
                    assert(nb.ids@.contains(id));
                    assert forall|c2: char, id2: i32|
                        char_bucket_has(old_rev, c2, id2) implies char_bucket_has(
                        rev@,
                        c2,
                        id2,
                    ) by {
                        if c2 == c {
                            let ids0 = old_rev[b as int].ids@;
                            let w = choose|w: int| 0 <= w < ids0.len() && ids0[w] == id2;
                            assert(nb.ids@[w] == id2);
                            assert(nb.ids@.contains(id2));
                        }
                    }
                    assert forall|id2: i32|
                        char_rev_mentions(rev@, id2) implies char_rev_mentions(old_rev, id2)
                        || id2 == id by {
                        let (b2, q) = choose|b2: int, q: int|
                            0 <= b2 < rev@.len() && 0 <= q < rev@[b2].ids@.len() && rev@[b2].ids@[q]
                                == id2;
                        if b2 == b as int {
                            if q < old_rev[b as int].ids@.len() {
                                assert(old_rev[b2].ids@[q] == id2);
                                assert(char_rev_mentions(old_rev, id2));
                            }
                        } else {
                            assert(old_rev[b2].ids@[q] == id2);
                            assert(char_rev_mentions(old_rev, id2));
                        }
                    }
                    assert forall|c2: char, id2: i32|
                        char_bucket_has(rev@, c2, id2) implies char_bucket_has(old_rev, c2, id2)
                        || (c2 == c && id2 == id) by {
                        if c2 == c {
                            let w = choose|w: int| 0 <= w < nb.ids@.len() && nb.ids@[w] == id2;
                            if w < old_rev[b as int].ids@.len() {
                                assert(old_rev[b as int].ids@[w] == id2);
                                assert(old_rev[b as int].ids@.contains(id2));
                            }
                        }
                    }
                }
            }
        },
        None => {
            let mut ids: Vec<i32> = Vec::new();
            ids.push(id);
            let ghost old_rev = rev@;
            rev.push(CharBucket { character: c, ids });
            proof {
                let nb = rev@.last();
                assert(rev@.drop_last() =~= old_rev);
                assert(nb.ids@[0] == id);
                assert(nb.ids@.contains(id));
                assert(lookup_char_bucket(rev@, c) == Some(nb.ids@));
                assert forall|c2: char| c2 != c implies lookup_char_bucket(rev@, c2)
                    == lookup_char_bucket(old_rev, c2) by {
                    assert(nb.character != c2);
                }
                assert forall|id2: i32|
                    char_rev_mentions(rev@, id2) implies char_rev_mentions(old_rev, id2) || id2
                    == id by {
                    let (b2, q) = choose|b2: int, q: int|
                        0 <= b2 < rev@.len() && 0 <= q < rev@[b2].ids@.len() && rev@[b2].ids@[q]
                            == id2;
                    if b2 < old_rev.len() {
                        assert(old_rev[b2].ids@[q] == id2);
                        assert(char_rev_mentions(old_rev, id2));
                    }
                }
            }
        },
    }
}


/// A query token that can seed the broad-phase filter.
pub open spec fn is_pron_token(tok: SpecQueryToken) -> bool {
    tok is Pronunciation
}

/// The query holds at least one syllable token.
pub open spec fn spec_has_pron_token(toks: Seq<SpecQueryToken>) -> bool {
    exists|i: int| 0 <= i < toks.len() && is_pron_token(toks[i])
}

/// Index of the first syllable token of the query.
pub open spec fn first_pron_index(toks: Seq<SpecQueryToken>) -> int
    decreases toks.len(),
{
    if toks.len() == 0 {
        0
    } else if is_pron_token(toks[0]) {
        0
    } else {
        1 + first_pron_index(toks.skip(1))
    }
}

pub proof fn lemma_first_pron_index(toks: Seq<SpecQueryToken>)
    requires
        spec_has_pron_token(toks),
    ensures
        0 <= first_pron_index(toks) < toks.len(),
        is_pron_token(toks[first_pron_index(toks)]),
        forall|i: int| 0 <= i < first_pron_index(toks) ==> !is_pron_token(toks[i]),
    decreases toks.len(),
{
    if toks.len() == 0 {
    } else if is_pron_token(toks[0]) {
    } else {
        let w = choose|w: int| 0 <= w < toks.len() && is_pron_token(toks[w]);
        assert(toks.skip(1)[w - 1] == toks[w]);
        assert(spec_has_pron_token(toks.skip(1)));
        lemma_first_pron_index(toks.skip(1));
        assert forall|i: int| 0 <= i < first_pron_index(toks) implies !is_pron_token(
            toks[i],
        ) by {
            if i > 0 {
                assert(toks.skip(1)[i - 1] == toks[i]);
            }
        }
    }
}

/// The sound of a syllable token; the empty sequence for the others.
pub open spec fn tok_sound(tok: SpecQueryToken) -> Seq<char> {
    match tok {
        SpecQueryToken::Pronunciation { sound, .. } => sound,
        _ => Seq::empty(),
    }
}

/// The tone of a syllable token; the empty sequence for the others.
pub open spec fn tok_tone(tok: SpecQueryToken) -> Seq<char> {
    match tok {
        SpecQueryToken::Pronunciation { tone, .. } => tone,
        _ => Seq::empty(),
    }
}

/// Sound of the broad-phase filter: the first syllable token of the query.
pub open spec fn filter_sound(toks: Seq<SpecQueryToken>) -> Seq<char> {
    tok_sound(toks[first_pron_index(toks)])
}

/// Tone of the broad-phase filter.
pub open spec fn filter_tone(toks: Seq<SpecQueryToken>) -> Seq<char> {
    tok_tone(toks[first_pron_index(toks)])
}

/// Whether an indexed tone `ct` is searched for a query tone `qtone`: an
/// unspecified query tone is expanded to the digits 1 through 6, a given
/// one must be matched exactly.
pub open spec fn tone_in_expansion(qtone: Seq<char>, ct: Seq<char>) -> bool {
    if qtone.len() == 0 {
        ct.len() == 1 && ('1' as u32) <= (ct[0] as u32) <= ('6' as u32)
    } else {
        ct == qtone
    }
}

/// One query token holds of a candidate syllable list at its position: a
/// syllable token needs the same sound there — and the same tone, if it
/// gives one; a wildcard needs any syllable there. Candidate syllables
/// beyond the query are ignored: the query is a prefix-constrained match.
pub open spec fn pron_token_matches_at(
    tok: SpecQueryToken,
    ss: Seq<SpecSyllable>,
    i: int,
) -> bool {
    match tok {
        SpecQueryToken::Pronunciation { sound, tone } => i < ss.len() && ss[i].sound == sound && (
        tone.len() > 0 ==> ss[i].tone == tone),
        SpecQueryToken::WildcardSingle => i < ss.len(),
        SpecQueryToken::Character(_) => true,
    }
}

/// Every query token holds of the candidate at its position.
pub open spec fn pron_candidate_matches(toks: Seq<SpecQueryToken>, ss: Seq<SpecSyllable>) -> bool {
    forall|i: int| 0 <= i < toks.len() ==> pron_token_matches_at(toks[i], ss, i)
}


/// Finds the syllables indexed for `(t, id)`, if any; the latest binding
/// wins.
fn find_pron_record<'a>(recs: &'a Vec<PronRecord>, t: PronunciationType, id: i32) -> (r: Option<
    &'a Vec<Syllable>,
>)
    ensures
        match r {
            Some(v) => lookup_pron(recs@, t, id) == Some(syls_view(v@)),
            None => lookup_pron(recs@, t, id) is None,
        },
{
    let mut i = recs.len();
    proof {
        assert(recs@.subrange(0, recs@.len() as int) =~= recs@);
    }
    while i > 0
        invariant
            i <= recs@.len(),
            lookup_pron(recs@, t, id) == lookup_pron(recs@.subrange(0, i as int), t, id),
        decreases i,
    {
        i = i - 1;
        let rec = &recs[i];
        let ghost pre = recs@.subrange(0, i + 1);
        proof {
            assert(pre.last() == recs@[i as int]);
            assert(pre.drop_last() =~= recs@.subrange(0, i as int));
        }
        if rec.ptype == t && rec.id == id {
            return Some(&recs[i].syllables);
        }
    }
    proof {
        assert(recs@.subrange(0, 0) =~= Seq::<PronRecord>::empty());
    }
    None
}

/// The one-character string of a tone digit.
fn tone_digit_string(d: u32) -> (r: String)
    requires
        1 <= d <= 6,
    ensures
        r@.len() == 1,
        (r@[0] as u32) == 48 + d,
{
    proof {
        reveal_strlit("1");
        reveal_strlit("2");
        reveal_strlit("3");
        reveal_strlit("4");
        reveal_strlit("5");
        reveal_strlit("6");
    }
    let s: &str = match d {
        1 => "1",
        2 => "2",
        3 => "3",
        4 => "4",
        5 => "5",
        _ => "6",
    };
    s.to_owned()
}


/// A query token that can seed the character broad-phase filter.
pub open spec fn is_char_token(tok: SpecQueryToken) -> bool {
    tok is Character
}

/// The query holds at least one character token.
pub open spec fn spec_has_char_token(toks: Seq<SpecQueryToken>) -> bool {
    exists|i: int| 0 <= i < toks.len() && is_char_token(toks[i])
}

/// Index of the first character token of the query.
pub open spec fn first_char_index(toks: Seq<SpecQueryToken>) -> int
    decreases toks.len(),
{
    if toks.len() == 0 {
        0
    } else if is_char_token(toks[0]) {
        0
    } else {
        1 + first_char_index(toks.skip(1))
    }
}

pub proof fn lemma_first_char_index(toks: Seq<SpecQueryToken>)
    requires
        spec_has_char_token(toks),
    ensures
        0 <= first_char_index(toks) < toks.len(),
        is_char_token(toks[first_char_index(toks)]),
        forall|i: int| 0 <= i < first_char_index(toks) ==> !is_char_token(toks[i]),
    decreases toks.len(),
{
    if toks.len() == 0 {
    } else if is_char_token(toks[0]) {
    } else {
        let w = choose|w: int| 0 <= w < toks.len() && is_char_token(toks[w]);
        assert(toks.skip(1)[w - 1] == toks[w]);
        assert(spec_has_char_token(toks.skip(1)));
        lemma_first_char_index(toks.skip(1));
        assert forall|i: int| 0 <= i < first_char_index(toks) implies !is_char_token(
            toks[i],
        ) by {
            if i > 0 {
                assert(toks.skip(1)[i - 1] == toks[i]);
            }
        }
    }
}

/// The character of a character token; `?` for the others.
pub open spec fn tok_char(tok: SpecQueryToken) -> char {
    match tok {
        SpecQueryToken::Character(c) => c,
        _ => '?',
    }
}

/// The broad-phase filter of a character query: its first character token.
pub open spec fn filter_char(toks: Seq<SpecQueryToken>) -> char {
    tok_char(toks[first_char_index(toks)])
}

/// One query token holds of a word's written forms at its position: a
/// character token must equal the traditional or the simplified character
/// there; a wildcard needs a character in either form there.
pub open spec fn chars_token_matches_at(tok: SpecQueryToken, cr: SpecChars, i: int) -> bool {
    match tok {
        SpecQueryToken::Character(c) => (i < cr.traditional.len() && cr.traditional[i] == c) || (i
            < cr.simplified.len() && cr.simplified[i] == c),
        SpecQueryToken::WildcardSingle => i < cr.traditional.len() || i < cr.simplified.len(),
        SpecQueryToken::Pronunciation { .. } => true,
    }
}

/// Every query token holds of the written forms at its position.
pub open spec fn chars_candidate_matches(toks: Seq<SpecQueryToken>, cr: SpecChars) -> bool {
    forall|i: int| 0 <= i < toks.len() ==> chars_token_matches_at(toks[i], cr, i)
}

/// A forward lookup that succeeds is backed by some forward entry.
proof fn lemma_lookup_chars_witness(recs: Seq<CharRecord>, id: i32)
    requires
        lookup_chars(recs, id) is Some,
    ensures
        exists|ri: int|
            0 <= ri < recs.len() && recs[ri].id == id && recs[ri].traditional@ == lookup_chars(
                recs,
                id,
            ).unwrap().traditional && recs[ri].simplified@ == lookup_chars(
                recs,
                id,
            ).unwrap().simplified,
    decreases recs.len(),
{
    if recs.last().id == id {
        assert(recs[recs.len() - 1].id == id);
    } else {
        lemma_lookup_chars_witness(recs.drop_last(), id);
        let ri = choose|ri: int|
            0 <= ri < recs.drop_last().len() && recs.drop_last()[ri].id == id
                && recs.drop_last()[ri].traditional@ == lookup_chars(
                recs.drop_last(),
                id,
            ).unwrap().traditional && recs.drop_last()[ri].simplified@ == lookup_chars(
                recs.drop_last(),
                id,
            ).unwrap().simplified;
        assert(recs[ri] == recs.drop_last()[ri]);
    }
}

/// Finds the written forms indexed for `id`, if any; the latest binding
/// wins.
fn find_char_record<'a>(recs: &'a Vec<CharRecord>, id: i32) -> (r: Option<&'a CharRecord>)
    ensures
        match r {
            Some(rec) => lookup_chars(recs@, id) == Some(
                SpecChars { traditional: rec.traditional@, simplified: rec.simplified@ },
            ),
            None => lookup_chars(recs@, id) is None,
        },
{
    let mut i = recs.len();
    proof {
        assert(recs@.subrange(0, recs@.len() as int) =~= recs@);
    }
    while i > 0
        invariant
            i <= recs@.len(),
            lookup_chars(recs@, id) == lookup_chars(recs@.subrange(0, i as int), id),
        decreases i,
    {
        i = i - 1;
        let rec = &recs[i];
        let ghost pre = recs@.subrange(0, i + 1);
        proof {
            assert(pre.last() == recs@[i as int]);
            assert(pre.drop_last() =~= recs@.subrange(0, i as int));
        }
        if rec.id == id {
            return Some(&recs[i]);
        }
    }
    proof {
        assert(recs@.subrange(0, 0) =~= Seq::<CharRecord>::empty());
    }
    None
}


/// A forward pronunciation lookup that succeeds is backed by some forward
/// entry.
proof fn lemma_lookup_pron_witness(recs: Seq<PronRecord>, t: PronunciationType, id: i32)
    requires
        lookup_pron(recs, t, id) is Some,
    ensures
        exists|ri: int|
            0 <= ri < recs.len() && recs[ri].ptype == t && recs[ri].id == id && syls_view(
                #[trigger] recs[ri].syllables@,
            ) == lookup_pron(recs, t, id).unwrap(),
    decreases recs.len(),
{
    if recs.last().ptype == t && recs.last().id == id {
        assert(recs[recs.len() - 1].ptype == t);
    } else {
        lemma_lookup_pron_witness(recs.drop_last(), t, id);
        let ri = choose|ri: int|
            0 <= ri < recs.drop_last().len() && recs.drop_last()[ri].ptype == t
                && recs.drop_last()[ri].id == id && syls_view(
                #[trigger] recs.drop_last()[ri].syllables@,
            ) == lookup_pron(recs.drop_last(), t, id).unwrap();
        assert(recs[ri] == recs.drop_last()[ri]);
    }
}

/// The character of a tone digit.
pub open spec fn tone_digit_char(d: int) -> char {
    if d == 1 {
        '1'
    } else if d == 2 {
        '2'
    } else if d == 3 {
        '3'
    } else if d == 4 {
        '4'
    } else if d == 5 {
        '5'
    } else {
        '6'
    }
}

/// The query with the tone of its broad-phase filter token set to the digit
/// `d`.
pub open spec fn with_filter_tone(toks: Seq<SpecQueryToken>, d: int) -> Seq<SpecQueryToken> {
    toks.update(
        first_pron_index(toks),
        SpecQueryToken::Pronunciation { sound: filter_sound(toks), tone: seq![tone_digit_char(d)] },
    )
}

/// The first syllable token is pinned down by its two boundary facts.
proof fn lemma_first_pron_index_exact(toks: Seq<SpecQueryToken>, k: int)
    requires
        0 <= k < toks.len(),
        is_pron_token(toks[k]),
        forall|i: int| 0 <= i < k ==> !is_pron_token(toks[i]),
    ensures
        first_pron_index(toks) == k,
    decreases toks.len(),
{
    if is_pron_token(toks[0]) {
    } else {
        assert(k > 0);
        assert forall|i: int| 0 <= i < k - 1 implies !is_pron_token(toks.skip(1)[i]) by {
            assert(toks.skip(1)[i] == toks[i + 1]);
        }
        assert(toks.skip(1)[k - 1] == toks[k]);
        lemma_first_pron_index_exact(toks.skip(1), k - 1);
    }
}

impl DictSearch {
    /// Every id a pronunciation search returns satisfies the query position
    /// by position: at each syllable token the indexed candidate has that
    /// sound there, and that tone where the token gives one; at each
    /// wildcard it has some syllable.
    pub proof fn lemma_search_result_sound(
        &self,
        toks: Seq<SpecQueryToken>,
        t: PronunciationType,
        id: i32,
    )
        requires
            self.pron_hit(toks, t, id),
        ensures
            self.pron_at(t, id) is Some,
            forall|i: int|
                0 <= i < toks.len() ==> pron_token_matches_at(
                    toks[i],
                    self.pron_at(t, id).unwrap(),
                    i,
                ),
    {
    }

    /// An id that is indexed, that the broad-phase filter reaches through
    /// its own current syllables, and that a pronunciation search does not
    /// return, fails the query at some witness position.
    pub proof fn lemma_search_result_complete(
        &self,
        toks: Seq<SpecQueryToken>,
        t: PronunciationType,
        id: i32,
    )
        requires
            self.wf(),
            spec_has_pron_token(toks),
            self.pron_at(t, id) is Some,
            exists|j: int|
                0 <= j < self.pron_at(t, id).unwrap().len() && (#[trigger] self.pron_at(
                    t,
                    id,
                ).unwrap()[j]).sound == filter_sound(toks) && tone_in_expansion(
                    filter_tone(toks),
                    self.pron_at(t, id).unwrap()[j].tone,
                ),
            !self.pron_hit(toks, t, id),
        ensures
            exists|i: int|
                0 <= i < toks.len() && !pron_token_matches_at(
                    toks[i],
                    self.pron_at(t, id).unwrap(),
                    i,
                ),
    {
        let ss = self.pron_at(t, id).unwrap();
        let j = choose|j: int|
            0 <= j < ss.len() && (#[trigger] ss[j]).sound == filter_sound(toks)
                && tone_in_expansion(filter_tone(toks), ss[j].tone);
        lemma_lookup_pron_witness(self.pronunciation_map@, t, id);
        let ri = choose|ri: int|
            0 <= ri < self.pronunciation_map@.len() && self.pronunciation_map@[ri].ptype == t
                && self.pronunciation_map@[ri].id == id && syls_view(
                #[trigger] self.pronunciation_map@[ri].syllables@,
            ) == ss;
        lemma_syls_view(self.pronunciation_map@[ri].syllables@);
        assert(self.pronunciation_map@[ri].syllables@[j]@ == ss[j]);
        assert(pron_bucket_has(self.pronunciation_reverse_map@, t, ss[j], id));
        assert(self.pron_rev_has(t, ss[j], id));
        assert(!pron_candidate_matches(toks, ss));
    }

    /// A query whose broad-phase filter has no tone answers like the union
    /// of the same query with each concrete tone 1 to 6 — for an id whose
    /// indexed syllable at the filter position, if any, carries a tone in
    /// that range.
    pub proof fn lemma_toneless_query_union(
        &self,
        toks: Seq<SpecQueryToken>,
        t: PronunciationType,
        id: i32,
    )
        requires
            self.wf(),
            spec_has_pron_token(toks),
            filter_tone(toks).len() == 0,
            (self.pron_at(t, id) is Some && first_pron_index(toks) < self.pron_at(
                t,
                id,
            ).unwrap().len()) ==> tone_in_expansion(
                Seq::<char>::empty(),
                self.pron_at(t, id).unwrap()[first_pron_index(toks)].tone,
            ),
        ensures
            self.pron_hit(toks, t, id) <==> exists|d: int|
                1 <= d <= 6 && self.pron_hit(#[trigger] with_filter_tone(toks, d), t, id),
    {
        let k = first_pron_index(toks);
        lemma_first_pron_index(toks);
        assert forall|d: int| 1 <= d <= 6 implies first_pron_index(with_filter_tone(toks, d)) == k
            && filter_sound(with_filter_tone(toks, d)) == filter_sound(toks) && filter_tone(
            with_filter_tone(toks, d),
        ) =~= seq![tone_digit_char(d)] by {
            let td = with_filter_tone(toks, d);
            assert(is_pron_token(td[k]));
            assert forall|i: int| 0 <= i < k implies !is_pron_token(td[i]) by {
                assert(td[i] == toks[i]);
            }
            lemma_first_pron_index_exact(td, k);
        }
        if self.pron_hit(toks, t, id) {
            let ss = self.pron_at(t, id).unwrap();
            assert(pron_token_matches_at(toks[k], ss, k));
            assert(k < ss.len() && ss[k].sound == filter_sound(toks));
            let ct = ss[k].tone;
            assert(ct.len() == 1 && ('1' as u32) <= (ct[0] as u32) <= ('6' as u32));
            let d = ct[0] as u32 - 48;
            assert(1 <= d <= 6);
            crate::chars::lemma_char_cast_injective(tone_digit_char(d as int), ct[0]);
            assert(seq![tone_digit_char(d as int)] =~= ct);
            let td = with_filter_tone(toks, d as int);
            assert forall|i: int|
                0 <= i < td.len() implies pron_token_matches_at(td[i], ss, i) by {
                if i != k {
                    assert(td[i] == toks[i]);
                }
            }
            lemma_lookup_pron_witness(self.pronunciation_map@, t, id);
            let ri = choose|ri: int|
                0 <= ri < self.pronunciation_map@.len() && self.pronunciation_map@[ri].ptype == t
                    && self.pronunciation_map@[ri].id == id && syls_view(
                    #[trigger] self.pronunciation_map@[ri].syllables@,
                ) == ss;
            lemma_syls_view(self.pronunciation_map@[ri].syllables@);
            assert(self.pronunciation_map@[ri].syllables@[k]@ == ss[k]);
            assert(self.pron_rev_has(t, ss[k], id));
            assert(tone_in_expansion(filter_tone(td), ss[k].tone));
            assert(self.pron_hit(td, t, id));
        }
        if exists|d: int| 1 <= d <= 6 && self.pron_hit(#[trigger] with_filter_tone(toks, d), t, id) {
            let d = choose|d: int|
                1 <= d <= 6 && self.pron_hit(#[trigger] with_filter_tone(toks, d), t, id);
            let td = with_filter_tone(toks, d);
            let ss = self.pron_at(t, id).unwrap();
            assert(pron_token_matches_at(td[k], ss, k));
            assert forall|i: int|
                0 <= i < toks.len() implies pron_token_matches_at(toks[i], ss, i) by {
                if i != k {
                    assert(td[i] == toks[i]);
                } else {
                    assert(k < ss.len() && ss[k].sound == filter_sound(toks));
                }
            }
            let y = choose|y: SpecSyllable|
                #[trigger] self.pron_rev_has(t, y, id) && y.sound == filter_sound(td)
                    && tone_in_expansion(filter_tone(td), y.tone);
            assert(y.tone == seq![tone_digit_char(d)]);
            assert(y.tone[0] == tone_digit_char(d));
            assert(('1' as u32) <= (y.tone[0] as u32) <= ('6' as u32));
            assert(tone_in_expansion(filter_tone(toks), y.tone));
            assert(self.pron_hit(toks, t, id));
        }
    }
}


/// The pronunciation text of the last valid row for `(t, id)`, if any: 0
/// decodes to Pinyin and 1 to Jyutping; any other type code is corrupt and
/// contributes nothing.
pub open spec fn spec_pron_rows_at(
    rows: Seq<WordPronunciation>,
    t: PronunciationType,
    id: i32,
) -> Option<Seq<char>>
    decreases rows.len(),
{
    if rows.len() == 0 {
        None
    } else if PronunciationType::spec_from_integer(rows.last().pronunciation_type) == Some(t)
        && rows.last().pronunciation_id == id {
        Some(rows.last().pronunciation@)
    } else {
        spec_pron_rows_at(rows.drop_last(), t, id)
    }
}

/// The written forms of the last row for a word id, if any.
pub open spec fn spec_word_rows_at(rows: Seq<Word>, id: i32) -> Option<SpecChars>
    decreases rows.len(),
{
    if rows.len() == 0 {
        None
    } else if rows.last().word_id == id {
        Some(
            SpecChars {
                traditional: rows.last().traditional@,
                simplified: rows.last().simplified@,
            },
        )
    } else {
        spec_word_rows_at(rows.drop_last(), id)
    }
}

/// Builds the index from the persistent rows: every pronunciation row is
/// indexed under its decoded type — a row whose type code is neither 0 nor
/// 1 is corrupt and is skipped, keeping the load resilient — and every
/// word's written forms are indexed. A later row for the same key
/// overwrites an earlier one.
pub fn load_rows(
    search: &mut DictSearch,
    pronunciations: &Vec<WordPronunciation>,
    words: &Vec<Word>,
)
    requires
        old(search).wf(),
    ensures
        final(search).wf(),
        forall|t: PronunciationType, id: i32|
            final(search).pron_at(t, id) == (match spec_pron_rows_at(pronunciations@, t, id) {
                Some(text) => Some(spec_tok_pron(text)),
                None => old(search).pron_at(t, id),
            }),
        forall|id: i32|
            final(search).chars_at(id) == (match spec_word_rows_at(words@, id) {
                Some(cr) => Some(cr),
                None => old(search).chars_at(id),
            }),
{
    let mut i: usize = 0;
    while i < pronunciations.len()
        invariant
            i <= pronunciations@.len(),
            search.wf(),
            forall|t: PronunciationType, id: i32|
                search.pron_at(t, id) == (match spec_pron_rows_at(
                    pronunciations@.subrange(0, i as int),
                    t,
                    id,
                ) {
                    Some(text) => Some(spec_tok_pron(text)),
                    None => old(search).pron_at(t, id),
                }),
            forall|id: i32| search.chars_at(id) == old(search).chars_at(id),
        decreases pronunciations@.len() - i,
    {
        let row = &pronunciations[i];
        let ghost pre = pronunciations@.subrange(0, i as int);
        proof {
            assert(pronunciations@.subrange(0, i + 1).drop_last() =~= pre);
            assert(pronunciations@.subrange(0, i + 1).last() == pronunciations@[i as int]);
        }
        match PronunciationType::from_integer(row.pronunciation_type) {
            Some(t) => {
                search.insert_pronunciation(row.pronunciation_id, row.pronunciation.as_str(), t);
            },
            None => {
                // corrupt type code: the row is skipped
            },
        }
        i = i + 1;
    }
    proof {
        assert(pronunciations@.subrange(0, pronunciations@.len() as int) =~= pronunciations@);
    }
    let ghost mid = *search;
    let mut w: usize = 0;
    while w < words.len()
        invariant
            w <= words@.len(),
            search.wf(),
            forall|t: PronunciationType, id: i32| search.pron_at(t, id) == mid.pron_at(t, id),
            forall|id: i32|
                search.chars_at(id) == (match spec_word_rows_at(words@.subrange(0, w as int), id) {
                    Some(cr) => Some(cr),
                    None => mid.chars_at(id),
                }),
        decreases words@.len() - w,
    {
        let row = &words[w];
        let ghost pre = words@.subrange(0, w as int);
        proof {
            assert(words@.subrange(0, w + 1).drop_last() =~= pre);
            assert(words@.subrange(0, w + 1).last() == words@[w as int]);
        }
        search.insert_characters(row.word_id, row.traditional.as_str(), row.simplified.as_str());
        w = w + 1;
    }
    proof {
        assert(words@.subrange(0, words@.len() as int) =~= words@);
        assert(pronunciations@.subrange(0, pronunciations@.len() as int) =~= pronunciations@);
        assert forall|t: PronunciationType, id: i32|
            search.pron_at(t, id) == (match spec_pron_rows_at(pronunciations@, t, id) {
                Some(text) => Some(spec_tok_pron(text)),
                None => old(search).pron_at(t, id),
            }) by {
            assert(search.pron_at(t, id) == mid.pron_at(t, id));
            assert(mid.pron_at(t, id) == (match spec_pron_rows_at(
                pronunciations@.subrange(0, pronunciations@.len() as int),
                t,
                id,
            ) {
                Some(text) => Some(spec_tok_pron(text)),
                None => old(search).pron_at(t, id),
            }));
        }
        assert forall|id: i32|
            search.chars_at(id) == (match spec_word_rows_at(words@, id) {
                Some(cr) => Some(cr),
                None => old(search).chars_at(id),
            }) by {
            assert(search.chars_at(id) == (match spec_word_rows_at(
                words@.subrange(0, words@.len() as int),
                id,
            ) {
                Some(cr) => Some(cr),
                None => mid.chars_at(id),
            }));
            assert(mid.chars_at(id) == old(search).chars_at(id));
        }
    }
}

} // verus!

