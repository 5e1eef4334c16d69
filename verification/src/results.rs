//! The user-facing shape of a word: its written forms with its entries
//! grouped by dictionary, and each entry's pronunciation texts grouped by
//! pronunciation type. Group keys appear in first-occurrence order of the
//! rows, each exactly once.

use vstd::prelude::*;

use crate::cedict::strs_view;
use crate::models::Word;
use crate::models::WordEntry;
use crate::models::WordPronunciation;
use crate::search::ids_contain;

verus! {

/// One entry of a word as served: its definitions and its pronunciation
/// texts keyed by pronunciation type.
#[derive(Debug)]
pub struct EntryResult {
    pub definitions: String,
    pub pronunciations: Vec<(i32, Vec<String>)>,
}

/// A word as served: its written forms and its entries keyed by dictionary.
#[derive(Debug)]
pub struct WordResult {
    pub simplified: String,
    pub traditional: String,
    pub entries: Vec<(i32, Vec<EntryResult>)>,
}

/// Mathematical model of an `EntryResult`.
pub ghost struct SpecEntryResult {
    pub definitions: Seq<char>,
    pub pronunciations: Seq<(i32, Seq<Seq<char>>)>,
}

/// Mathematical model of a `WordResult`.
pub ghost struct SpecWordResult {
    pub simplified: Seq<char>,
    pub traditional: Seq<char>,
    pub entries: Seq<(i32, Seq<SpecEntryResult>)>,
}

/// The models of a sequence of type groups.
pub open spec fn pron_groups_view(v: Seq<(i32, Vec<String>)>) -> Seq<(i32, Seq<Seq<char>>)>
    decreases v.len(),
{
    if v.len() == 0 {
        Seq::empty()
    } else {
        pron_groups_view(v.drop_last()).push((v.last().0, strs_view(v.last().1@)))
    }
}

impl View for EntryResult {
    type V = SpecEntryResult;

    open spec fn view(&self) -> SpecEntryResult {
        SpecEntryResult {
            definitions: self.definitions@,
            pronunciations: pron_groups_view(self.pronunciations@),
        }
    }
}

/// The models of a sequence of entry results.
pub open spec fn entry_results_view(v: Seq<EntryResult>) -> Seq<SpecEntryResult>
    decreases v.len(),
{
    if v.len() == 0 {
        Seq::empty()
    } else {
        entry_results_view(v.drop_last()).push(v.last()@)
    }
}

/// The models of a sequence of dictionary groups.
pub open spec fn dict_groups_view(v: Seq<(i32, Vec<EntryResult>)>) -> Seq<
    (i32, Seq<SpecEntryResult>),
>
    decreases v.len(),
{
    if v.len() == 0 {
        Seq::empty()
    } else {
        dict_groups_view(v.drop_last()).push((v.last().0, entry_results_view(v.last().1@)))
    }
}

impl View for WordResult {
    type V = SpecWordResult;

    open spec fn view(&self) -> SpecWordResult {
        SpecWordResult {
            simplified: self.simplified@,
            traditional: self.traditional@,
            entries: dict_groups_view(self.entries@),
        }
    }
}

/// The first occurrence of every value, in order, each exactly once.
pub open spec fn distinct_firsts(s: Seq<i32>) -> Seq<i32>
    decreases s.len(),
{
    if s.len() == 0 {
        Seq::empty()
    } else if s.drop_last().contains(s.last()) {
        distinct_firsts(s.drop_last())
    } else {
        distinct_firsts(s.drop_last()).push(s.last())
    }
}

pub proof fn lemma_distinct_firsts_contains(s: Seq<i32>, x: i32)
    ensures
        distinct_firsts(s).contains(x) == s.contains(x),
    decreases s.len(),
{
    if s.len() == 0 {
        assert(!s.contains(x));
        assert(!distinct_firsts(s).contains(x));
    } else {
        lemma_distinct_firsts_contains(s.drop_last(), x);
        let d0 = distinct_firsts(s.drop_last());
        if s.contains(x) {
            let w = choose|w: int| 0 <= w < s.len() && s[w] == x;
            if w < s.len() - 1 {
                assert(s.drop_last()[w] == x);
                assert(s.drop_last().contains(x));
            }
            if s.drop_last().contains(x) {
                if !s.drop_last().contains(s.last()) {
                    let v = choose|v: int| 0 <= v < d0.len() && d0[v] == x;
                    assert(d0.push(s.last())[v] == x);
                }
            } else {
                assert(x == s.last());
                assert(d0.push(s.last()).last() == x);
            }
        } else {
            assert(!s.drop_last().contains(s.last()) ==> !d0.push(s.last()).contains(x)) by {
                if d0.push(s.last()).contains(x) {
                    let v = choose|v: int|
                        0 <= v < d0.push(s.last()).len() && d0.push(s.last())[v] == x;
                    if v < d0.len() {
                        assert(d0.contains(x));
                        assert(s.drop_last().contains(x));
                        let w = choose|w: int|
                            0 <= w < s.drop_last().len() && s.drop_last()[w] == x;
                        assert(s[w] == x);
                    } else {
                        assert(s.last() == x);
                        assert(s[s.len() - 1] == x);
                    }
                }
            }
            assert(!s.drop_last().contains(x)) by {
                if s.drop_last().contains(x) {
                    let w = choose|w: int| 0 <= w < s.drop_last().len() && s.drop_last()[w] == x;
                    assert(s[w] == x);
                }
            }
        }
    }
}

/// The dictionary ids of entry rows, in row order.
pub open spec fn entry_dids(es: Seq<WordEntry>) -> Seq<i32>
    decreases es.len(),
{
    if es.len() == 0 {
        Seq::empty()
    } else {
        entry_dids(es.drop_last()).push(es.last().dictionary_id)
    }
}

/// The pronunciation types of an entry's rows, in row order.
pub open spec fn types_of(ps: Seq<WordPronunciation>, eid: i32) -> Seq<i32>
    decreases ps.len(),
{
    if ps.len() == 0 {
        Seq::empty()
    } else if ps.last().entry_id == eid {
        types_of(ps.drop_last(), eid).push(ps.last().pronunciation_type)
    } else {
        types_of(ps.drop_last(), eid)
    }
}

/// The pronunciation texts of an entry's rows of one type, in row order.
pub open spec fn texts_of(ps: Seq<WordPronunciation>, eid: i32, ty: i32) -> Seq<Seq<char>>
    decreases ps.len(),
{
    if ps.len() == 0 {
        Seq::empty()
    } else if ps.last().entry_id == eid && ps.last().pronunciation_type == ty {
        texts_of(ps.drop_last(), eid, ty).push(ps.last().pronunciation@)
    } else {
        texts_of(ps.drop_last(), eid, ty)
    }
}

/// The type groups of one entry, for the given list of type keys.
pub open spec fn spec_type_groups(ps: Seq<WordPronunciation>, eid: i32, tys: Seq<i32>) -> Seq<
    (i32, Seq<Seq<char>>),
>
    decreases tys.len(),
{
    if tys.len() == 0 {
        Seq::empty()
    } else {
        seq![(tys[0], texts_of(ps, eid, tys[0]))] + spec_type_groups(ps, eid, tys.skip(1))
    }
}

/// One entry as served: its definitions, and its pronunciation texts
/// grouped under each of its types in first-occurrence order.
pub open spec fn spec_entry_result(e: WordEntry, ps: Seq<WordPronunciation>) -> SpecEntryResult {
    SpecEntryResult {
        definitions: e.definitions@,
        pronunciations: spec_type_groups(
            ps,
            e.entry_id,
            distinct_firsts(types_of(ps, e.entry_id)),
        ),
    }
}

/// The served entries of one dictionary, in row order.
pub open spec fn spec_dict_entry_results(
    es: Seq<WordEntry>,
    did: i32,
    ps: Seq<WordPronunciation>,
) -> Seq<SpecEntryResult>
    decreases es.len(),
{
    if es.len() == 0 {
        Seq::empty()
    } else if es.last().dictionary_id == did {
        spec_dict_entry_results(es.drop_last(), did, ps).push(spec_entry_result(es.last(), ps))
    } else {
        spec_dict_entry_results(es.drop_last(), did, ps)
    }
}

/// The dictionary groups of a word, for the given list of dictionary keys.
pub open spec fn spec_dict_groups(
    es: Seq<WordEntry>,
    ps: Seq<WordPronunciation>,
    dids: Seq<i32>,
) -> Seq<(i32, Seq<SpecEntryResult>)>
    decreases dids.len(),
{
    if dids.len() == 0 {
        Seq::empty()
    } else {
        seq![(dids[0], spec_dict_entry_results(es, dids[0], ps))] + spec_dict_groups(
            es,
            ps,
            dids.skip(1),
        )
    }
}

/// A word as served: its written forms, and its entries grouped under each
/// of its dictionary ids in first-occurrence order.
pub open spec fn spec_word_result(
    word: Word,
    es: Seq<WordEntry>,
    ps: Seq<WordPronunciation>,
) -> SpecWordResult {
    SpecWordResult {
        simplified: word.simplified@,
        traditional: word.traditional@,
        entries: spec_dict_groups(es, ps, distinct_firsts(entry_dids(es))),
    }
}


/// Builds the served form of one entry from the word's pronunciation rows.
pub fn build_entry_result(e: &WordEntry, prons: &Vec<WordPronunciation>) -> (r: EntryResult)
    ensures
        r@ == spec_entry_result(*e, prons@),
{
    let eid = e.entry_id;
    // the entry's pronunciation types, first occurrence first
    let mut tys: Vec<i32> = Vec::new();
    let mut i: usize = 0;
    proof {
        assert(prons@.subrange(0, 0) =~= Seq::<WordPronunciation>::empty());
    }
    while i < prons.len()
        invariant
            i <= prons@.len(),
            tys@ == distinct_firsts(types_of(prons@.subrange(0, i as int), eid)),
        decreases prons@.len() - i,
    {
        let ghost pre = prons@.subrange(0, i as int);
        proof {
            assert(prons@.subrange(0, i + 1).drop_last() =~= pre);
            assert(prons@.subrange(0, i + 1).last() == prons@[i as int]);
        }
        let p = &prons[i];
        if p.entry_id == eid {
            let ty = p.pronunciation_type;
            let present = ids_contain(&tys, ty);
            proof {
                lemma_distinct_firsts_contains(types_of(pre, eid), ty);
                let tspre = types_of(pre, eid);
                assert(types_of(prons@.subrange(0, i + 1), eid) == tspre.push(ty));
                assert(tspre.push(ty).drop_last() =~= tspre);
                assert(tspre.push(ty).last() == ty);
            }
            let ghost tys0 = tys@;
            if !present {
                tys.push(ty);
                proof {
                    assert(tys@.drop_last() =~= tys0);
                }
            }
        }
        i = i + 1;
    }
    proof {
        assert(prons@.subrange(0, prons@.len() as int) =~= prons@);
    }
    // one group of texts per type
    let ghost tys_full = tys@;
    let mut groups: Vec<(i32, Vec<String>)> = Vec::new();
    let mut k: usize = 0;
    proof {
        assert(tys_full.skip(0) =~= tys_full);
    }
    while k < tys.len()
        invariant
            k <= tys@.len(),
            tys@ == tys_full,
            spec_type_groups(prons@, eid, tys_full) == pron_groups_view(groups@)
                + spec_type_groups(prons@, eid, tys_full.skip(k as int)),
        decreases tys@.len() - k,
    {
        let ty = tys[k];
        let mut texts: Vec<String> = Vec::new();
        let mut j: usize = 0;
        proof {
            assert(prons@.subrange(0, 0) =~= Seq::<WordPronunciation>::empty());
        }
        while j < prons.len()
            invariant
                j <= prons@.len(),
                strs_view(texts@) == texts_of(prons@.subrange(0, j as int), eid, ty),
            decreases prons@.len() - j,
        {
            let ghost pre = prons@.subrange(0, j as int);
            proof {
                assert(prons@.subrange(0, j + 1).drop_last() =~= pre);
                assert(prons@.subrange(0, j + 1).last() == prons@[j as int]);
            }
            let p = &prons[j];
            if p.entry_id == eid && p.pronunciation_type == ty {
                let ghost texts0 = texts@;
                texts.push(p.pronunciation.clone());
                proof {
                    assert(texts@.drop_last() =~= texts0);
                }
            }
            j = j + 1;
        }
        proof {
            assert(prons@.subrange(0, prons@.len() as int) =~= prons@);
        }
        let ghost groups0 = groups@;
        groups.push((ty, texts));
        proof {
            assert(groups@.drop_last() =~= groups0);
            assert(groups@.last().0 == ty);
            assert(tys_full.skip(k as int)[0] == tys_full[k as int]);
            assert(tys_full.skip(k as int).skip(1) =~= tys_full.skip(k + 1));
            assert(pron_groups_view(groups0) + spec_type_groups(
                prons@,
                eid,
                tys_full.skip(k as int),
            ) =~= pron_groups_view(groups@) + spec_type_groups(prons@, eid, tys_full.skip(k + 1)));
        }
        k = k + 1;
    }
    proof {
        assert(spec_type_groups(prons@, eid, tys_full.skip(tys_full.len() as int)) =~= Seq::<
            (i32, Seq<Seq<char>>),
        >::empty());
        assert(pron_groups_view(groups@) + Seq::<(i32, Seq<Seq<char>>)>::empty()
            =~= pron_groups_view(groups@));
    }
    EntryResult { definitions: e.definitions.clone(), pronunciations: groups }
}

/// Builds the served form of a word from its row, its entry rows and its
/// pronunciation rows.
pub fn build_word_result(
    word: &Word,
    entries: &Vec<WordEntry>,
    pronunciations: &Vec<WordPronunciation>,
) -> (r: WordResult)
    ensures
        r@ == spec_word_result(*word, entries@, pronunciations@),
{
    // the word's dictionary ids, first occurrence first
    let mut dids: Vec<i32> = Vec::new();
    let mut i: usize = 0;
    proof {
        assert(entries@.subrange(0, 0) =~= Seq::<WordEntry>::empty());
    }
    while i < entries.len()
        invariant
            i <= entries@.len(),
            dids@ == distinct_firsts(entry_dids(entries@.subrange(0, i as int))),
        decreases entries@.len() - i,
    {
        let ghost pre = entries@.subrange(0, i as int);
        proof {
            assert(entries@.subrange(0, i + 1).drop_last() =~= pre);
            assert(entries@.subrange(0, i + 1).last() == entries@[i as int]);
        }
        let did = entries[i].dictionary_id;
        let present = ids_contain(&dids, did);
        proof {
            lemma_distinct_firsts_contains(entry_dids(pre), did);
            let dpre = entry_dids(pre);
            assert(entry_dids(entries@.subrange(0, i + 1)) == dpre.push(did));
            assert(dpre.push(did).drop_last() =~= dpre);
            assert(dpre.push(did).last() == did);
        }
        let ghost dids0 = dids@;
        if !present {
            dids.push(did);
            proof {
                assert(dids@.drop_last() =~= dids0);
            }
        }
        i = i + 1;
    }
    proof {
        assert(entries@.subrange(0, entries@.len() as int) =~= entries@);
    }
    // one group of entry results per dictionary
    let ghost dids_full = dids@;
    let mut groups: Vec<(i32, Vec<EntryResult>)> = Vec::new();
    let mut k: usize = 0;
    proof {
        assert(dids_full.skip(0) =~= dids_full);
    }
    while k < dids.len()
        invariant
            k <= dids@.len(),
            dids@ == dids_full,
            spec_dict_groups(entries@, pronunciations@, dids_full) == dict_groups_view(groups@)
                + spec_dict_groups(entries@, pronunciations@, dids_full.skip(k as int)),
        decreases dids@.len() - k,
    {
        let did = dids[k];
        let mut ers: Vec<EntryResult> = Vec::new();
        let mut j: usize = 0;
        proof {
            assert(entries@.subrange(0, 0) =~= Seq::<WordEntry>::empty());
        }
        while j < entries.len()
            invariant
                j <= entries@.len(),
                entry_results_view(ers@) == spec_dict_entry_results(
                    entries@.subrange(0, j as int),
                    did,
                    pronunciations@,
                ),
            decreases entries@.len() - j,
        {
            let ghost pre = entries@.subrange(0, j as int);
            proof {
                assert(entries@.subrange(0, j + 1).drop_last() =~= pre);
                assert(entries@.subrange(0, j + 1).last() == entries@[j as int]);
            }
            if entries[j].dictionary_id == did {
                let er = build_entry_result(&entries[j], pronunciations);
                let ghost ers0 = ers@;
                ers.push(er);
                proof {
                    assert(ers@.drop_last() =~= ers0);
                }
            }
            j = j + 1;
        }
        proof {
            assert(entries@.subrange(0, entries@.len() as int) =~= entries@);
        }
        let ghost groups0 = groups@;
        groups.push((did, ers));
        proof {
            assert(groups@.drop_last() =~= groups0);
            assert(dids_full.skip(k as int)[0] == dids_full[k as int]);
            assert(dids_full.skip(k as int).skip(1) =~= dids_full.skip(k + 1));
            assert(dict_groups_view(groups0) + spec_dict_groups(
                entries@,
                pronunciations@,
                dids_full.skip(k as int),
            ) =~= dict_groups_view(groups@) + spec_dict_groups(
                entries@,
                pronunciations@,
                dids_full.skip(k + 1),
            ));
        }
        k = k + 1;
    }
    proof {
        assert(spec_dict_groups(entries@, pronunciations@, dids_full.skip(dids_full.len() as int))
            =~= Seq::<(i32, Seq<SpecEntryResult>)>::empty());
        assert(dict_groups_view(groups@) + Seq::<(i32, Seq<SpecEntryResult>)>::empty()
            =~= dict_groups_view(groups@));
    }
    WordResult {
        simplified: word.simplified.clone(),
        traditional: word.traditional.clone(),
        entries: groups,
    }
}

} // verus!

