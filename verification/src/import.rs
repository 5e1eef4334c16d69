//! The pure step of the importer: turning parsed entries into the rows of
//! the staging table, one row per non-empty pronunciation.
//!
//! The surrounding transaction — deleting the dictionary's old rows,
//! creating the staging table, inserting these rows in batches and moving
//! them into the three normalised tables — is the store's work and stays
//! outside the library.

use vstd::prelude::*;

use crate::cedict::entries_view;
use crate::cedict::lemma_entries_view;
use crate::cedict::Entry;
use crate::cedict::SpecEntry;

verus! {

/// One row of the staging table.
#[derive(Debug)]
pub struct StagedRow {
    pub traditional: String,
    pub simplified: String,
    pub dictionary_id: i32,
    pub definitions: String,
    pub pronunciation_type: i32,
    pub pronunciation: String,
}

/// Mathematical model of a `StagedRow`.
pub ghost struct SpecRow {
    pub traditional: Seq<char>,
    pub simplified: Seq<char>,
    pub dictionary_id: int,
    pub definitions: Seq<char>,
    pub pronunciation_type: int,
    pub pronunciation: Seq<char>,
}

impl View for StagedRow {
    type V = SpecRow;

    open spec fn view(&self) -> SpecRow {
        SpecRow {
            traditional: self.traditional@,
            simplified: self.simplified@,
            dictionary_id: self.dictionary_id as int,
            definitions: self.definitions@,
            pronunciation_type: self.pronunciation_type as int,
            pronunciation: self.pronunciation@,
        }
    }
}

/// The sequence of models of a sequence of rows.
pub open spec fn rows_view(v: Seq<StagedRow>) -> Seq<SpecRow>
    decreases v.len(),
{
    if v.len() == 0 {
        Seq::empty()
    } else {
        rows_view(v.drop_last()).push(v.last()@)
    }
}

pub proof fn lemma_rows_view(v: Seq<StagedRow>)
    ensures
        rows_view(v).len() == v.len(),
        forall|i: int| 0 <= i < v.len() ==> rows_view(v)[i] == v[i]@,
    decreases v.len(),
{
    if v.len() > 0 {
        lemma_rows_view(v.drop_last());
    }
}

/// The rows one entry contributes: one of type 1 if its Jyutping is
/// non-empty, then one of type 0 if its Pinyin is non-empty.
pub open spec fn spec_rows_of_entry(e: SpecEntry, dict_id: int) -> Seq<SpecRow> {
    let jy: Seq<SpecRow> = if e.jyutping.len() > 0 {
        seq![
            SpecRow {
                traditional: e.traditional,
                simplified: e.simplified,
                dictionary_id: dict_id,
                definitions: e.definition,
                pronunciation_type: 1,
                pronunciation: e.jyutping,
            },
        ]
    } else {
        Seq::empty()
    };
    let py: Seq<SpecRow> = if e.pinyin.len() > 0 {
        seq![
            SpecRow {
                traditional: e.traditional,
                simplified: e.simplified,
                dictionary_id: dict_id,
                definitions: e.definition,
                pronunciation_type: 0,
                pronunciation: e.pinyin,
            },
        ]
    } else {
        Seq::empty()
    };
    jy + py
}

/// The staging rows of a whole entry list, in entry order.
pub open spec fn spec_entry_rows(es: Seq<SpecEntry>, dict_id: int) -> Seq<SpecRow>
    decreases es.len(),
{
    if es.len() == 0 {
        Seq::empty()
    } else {
        spec_rows_of_entry(es[0], dict_id) + spec_entry_rows(es.skip(1), dict_id)
    }
}

/// Stages the given entries for `dictionary_id`: for each entry, a row per
/// non-empty pronunciation — the Jyutping one (type 1) first, then the
/// Pinyin one (type 0). Entries with both empty contribute no rows.
pub fn entry_rows(entries: &Vec<Entry>, dictionary_id: i32) -> (rows: Vec<StagedRow>)
    ensures
        rows_view(rows@) == spec_entry_rows(entries_view(entries@), dictionary_id as int),
{
    let ghost es = entries_view(entries@);
    proof {
        lemma_entries_view(entries@);
        assert(es.skip(0) =~= es);
    }
    let mut rows: Vec<StagedRow> = Vec::new();
    let mut i: usize = 0;
    while i < entries.len()
        invariant
            i <= entries@.len(),
            es == entries_view(entries@),
            es.len() == entries@.len(),
            forall|j: int| 0 <= j < entries@.len() ==> es[j] == entries@[j]@,
            spec_entry_rows(es, dictionary_id as int) == rows_view(rows@) + spec_entry_rows(
                es.skip(i as int),
                dictionary_id as int,
            ),
        decreases entries@.len() - i,
    {
        let ghost rem = es.skip(i as int);
        let e = &entries[i];
        proof {
            assert(rem[0] == es[i as int]);
            assert(rem.skip(1) =~= es.skip(i + 1));
        }
        let ghost rows0 = rows@;
        if !e.jyutping.as_str().is_empty() {
            rows.push(
                StagedRow {
                    traditional: e.traditional.clone(),
                    simplified: e.simplified.clone(),
                    dictionary_id,
                    definitions: e.definition.clone(),
                    pronunciation_type: 1,
                    pronunciation: e.jyutping.clone(),
                },
            );
            proof {
                assert(rows@.drop_last() =~= rows0);
                assert(rows_view(rows@) == rows_view(rows0).push(rows@.last()@));
            }
        }
        let ghost rows1 = rows@;
        if !e.pinyin.as_str().is_empty() {
            rows.push(
                StagedRow {
                    traditional: e.traditional.clone(),
                    simplified: e.simplified.clone(),
                    dictionary_id,
                    definitions: e.definition.clone(),
                    pronunciation_type: 0,
                    pronunciation: e.pinyin.clone(),
                },
            );
            proof {
                assert(rows@.drop_last() =~= rows1);
                assert(rows_view(rows@) == rows_view(rows1).push(rows@.last()@));
            }
        }
        proof {
            assert(e@ == rem[0]);
            assert(rows_view(rows0) + spec_rows_of_entry(rem[0], dictionary_id as int)
                =~= rows_view(rows@));
            assert(rows_view(rows0) + spec_entry_rows(rem, dictionary_id as int) =~= rows_view(
                rows@,
            ) + spec_entry_rows(es.skip(i + 1), dictionary_id as int));
        }
        i = i + 1;
    }
    proof {
        assert(spec_entry_rows(es.skip(entries@.len() as int), dictionary_id as int) =~= Seq::<
            SpecRow,
        >::empty());
        assert(rows_view(rows@) + Seq::<SpecRow>::empty() =~= rows_view(rows@));
    }
    rows
}

} // verus!
