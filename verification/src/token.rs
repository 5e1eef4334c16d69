//! The three tokeniser grammars: pronunciation strings on the ingest path,
//! pronunciation queries, and character queries.
//!
//! A pronunciation string is a list of syllables — an ASCII-alphabetic sound
//! followed by at most one ASCII-digit tone — separated by maximal runs of
//! non-alphanumeric characters, which absorb spaces, punctuation and
//! interleaved Chinese characters. A pronunciation query admits `?` as a
//! wildcard token besides syllables. A character query is walked one Unicode
//! scalar at a time: `?` is a wildcard, anything else a character token.
//!
//! All three tokenisers are total: they never fail and they produce the empty
//! token sequence on empty input. A separator run may be empty, but every
//! token consumes at least one character, so the scan advances at every step
//! and cannot loop — its termination is proved, which is the guard a
//! separated-list combinator needs against an empty separator beside an
//! empty element.

use vstd::prelude::*;
use vstd::string::StrSliceExecFns;

use crate::chars::is_alnum;
use crate::chars::is_alpha;
use crate::chars::is_digit;
use crate::chars::lemma_run_len;
use crate::chars::lemma_run_len_exact;
use crate::chars::run_len;
use crate::chars::spec_is_alnum;
use crate::chars::spec_is_alpha;
use crate::chars::spec_is_digit;

verus! {

/// One syllable of a pronunciation: a non-empty alphabetic sound and a tone
/// that is either empty or a single digit.
#[derive(Debug)]
pub struct Syllable {
    pub sound: String,
    pub tone: String,
}

/// Mathematical model of a `Syllable`.
pub ghost struct SpecSyllable {
    pub sound: Seq<char>,
    pub tone: Seq<char>,
}

impl View for Syllable {
    type V = SpecSyllable;

    open spec fn view(&self) -> SpecSyllable {
        SpecSyllable { sound: self.sound@, tone: self.tone@ }
    }
}

impl Syllable {
    /// Copies a syllable; written out because `String` is not `Copy`.
    pub fn duplicate(&self) -> (r: Syllable)
        ensures
            r@ == self@,
    {
        Syllable { sound: self.sound.clone(), tone: self.tone.clone() }
    }
}

impl PartialEq for Syllable {
    fn eq(&self, other: &Syllable) -> (r: bool) {
        self.sound == other.sound && self.tone == other.tone
    }
}

impl vstd::std_specs::cmp::PartialEqSpecImpl for Syllable {
    open spec fn obeys_eq_spec() -> bool {
        true
    }

    open spec fn eq_spec(&self, other: &Syllable) -> bool {
        self@ == other@
    }
}

/// The sequence of models of a sequence of syllables.
pub open spec fn syls_view(v: Seq<Syllable>) -> Seq<SpecSyllable>
    decreases v.len(),
{
    if v.len() == 0 {
        Seq::empty()
    } else {
        syls_view(v.drop_last()).push(v.last()@)
    }
}

pub proof fn lemma_syls_view(v: Seq<Syllable>)
    ensures
        syls_view(v).len() == v.len(),
        forall|i: int| 0 <= i < v.len() ==> syls_view(v)[i] == v[i]@,
    decreases v.len(),
{
    if v.len() > 0 {
        lemma_syls_view(v.drop_last());
    }
}

/// One token of a query.
#[derive(Debug)]
pub enum QueryToken {
    WildcardSingle,
    Character(char),
    Pronunciation { sound: String, tone: String },
}

/// Mathematical model of a `QueryToken`.
pub ghost enum SpecQueryToken {
    WildcardSingle,
    Character(char),
    Pronunciation { sound: Seq<char>, tone: Seq<char> },
}

impl View for QueryToken {
    type V = SpecQueryToken;

    open spec fn view(&self) -> SpecQueryToken {
        match self {
            QueryToken::WildcardSingle => SpecQueryToken::WildcardSingle,
            QueryToken::Character(c) => SpecQueryToken::Character(*c),
            QueryToken::Pronunciation { sound, tone } => SpecQueryToken::Pronunciation {
                sound: sound@,
                tone: tone@,
            },
        }
    }
}

impl PartialEq for QueryToken {
    fn eq(&self, other: &QueryToken) -> (r: bool) {
        match (self, other) {
            (QueryToken::WildcardSingle, QueryToken::WildcardSingle) => true,
            (QueryToken::Character(a), QueryToken::Character(b)) => *a == *b,
            (
                QueryToken::Pronunciation { sound: sa, tone: ta },
                QueryToken::Pronunciation { sound: sb, tone: tb },
            ) => *sa == *sb && *ta == *tb,
            _ => false,
        }
    }
}

impl vstd::std_specs::cmp::PartialEqSpecImpl for QueryToken {
    open spec fn obeys_eq_spec() -> bool {
        true
    }

    open spec fn eq_spec(&self, other: &QueryToken) -> bool {
        self@ == other@
    }
}

/// The sequence of models of a sequence of query tokens.
pub open spec fn toks_view(v: Seq<QueryToken>) -> Seq<SpecQueryToken>
    decreases v.len(),
{
    if v.len() == 0 {
        Seq::empty()
    } else {
        toks_view(v.drop_last()).push(v.last()@)
    }
}

pub proof fn lemma_toks_view(v: Seq<QueryToken>)
    ensures
        toks_view(v).len() == v.len(),
        forall|i: int| 0 <= i < v.len() ==> toks_view(v)[i] == v[i]@,
    decreases v.len(),
{
    if v.len() > 0 {
        lemma_toks_view(v.drop_last());
    }
}

/// Separator class of the pronunciation grammar: anything non-alphanumeric.
pub open spec fn pron_sep_fn() -> spec_fn(char) -> bool {
    |c: char| !spec_is_alnum(c)
}

/// Separator class of the pronunciation-query grammar: `?` is not a separator.
pub open spec fn query_sep_fn() -> spec_fn(char) -> bool {
    |c: char| !spec_is_alnum(c) && c != '?'
}

/// Alphabetic class, for sound runs.
pub open spec fn alpha_fn() -> spec_fn(char) -> bool {
    |c: char| spec_is_alpha(c)
}

/// The syllable that starts at the front of `t` (whose first character must
/// be alphabetic): the maximal alphabetic run, then at most one digit.
pub open spec fn head_syllable(t: Seq<char>) -> SpecSyllable {
    let k = run_len(t, alpha_fn()) as int;
    let tone = if k < t.len() && spec_is_digit(t[k]) {
        t.subrange(k, k + 1)
    } else {
        Seq::<char>::empty()
    };
    SpecSyllable { sound: t.subrange(0, k), tone }
}

/// Number of characters the syllable at the front of `t` occupies.
pub open spec fn head_syllable_len(t: Seq<char>) -> nat {
    run_len(t, alpha_fn()) + head_syllable(t).tone.len()
}

/// Tokenisation of a pronunciation string. Leading separators are skipped;
/// the scan stops (discarding the rest) if a digit stands where a sound
/// should begin, as no syllable can start with a digit.
pub open spec fn spec_tok_pron(s: Seq<char>) -> Seq<SpecSyllable>
    decreases s.len(),
    via spec_tok_pron_decreases
{
    let j = run_len(s, pron_sep_fn()) as int;
    if j >= s.len() {
        Seq::empty()
    } else if !spec_is_alpha(s[j]) {
        Seq::empty()
    } else {
        let t = s.skip(j);
        seq![head_syllable(t)] + spec_tok_pron(t.skip(head_syllable_len(t) as int))
    }
}

#[via_fn]
proof fn spec_tok_pron_decreases(s: Seq<char>) {
    lemma_run_len(s, pron_sep_fn());
    let j = run_len(s, pron_sep_fn()) as int;
    if j < s.len() && spec_is_alpha(s[j]) {
        let t = s.skip(j);
        lemma_run_len(t, alpha_fn());
        assert(t[0] == s[j]);
        assert(run_len(t, alpha_fn()) >= 1);
    }
}

/// Tokenisation of a pronunciation query: as `spec_tok_pron`, except that
/// `?` is not a separator and stands for a wildcard token.
pub open spec fn spec_tok_pron_query(s: Seq<char>) -> Seq<SpecQueryToken>
    decreases s.len(),
    via spec_tok_pron_query_decreases
{
    let j = run_len(s, query_sep_fn()) as int;
    if j >= s.len() {
        Seq::empty()
    } else if s[j] == '?' {
        seq![SpecQueryToken::WildcardSingle] + spec_tok_pron_query(s.skip(j + 1))
    } else if !spec_is_alpha(s[j]) {
        Seq::empty()
    } else {
        let t = s.skip(j);
        let y = head_syllable(t);
        seq![SpecQueryToken::Pronunciation { sound: y.sound, tone: y.tone }]
            + spec_tok_pron_query(t.skip(head_syllable_len(t) as int))
    }
}

#[via_fn]
proof fn spec_tok_pron_query_decreases(s: Seq<char>) {
    lemma_run_len(s, query_sep_fn());
    let j = run_len(s, query_sep_fn()) as int;
    if j < s.len() && s[j] != '?' && spec_is_alpha(s[j]) {
        let t = s.skip(j);
        lemma_run_len(t, alpha_fn());
        assert(t[0] == s[j]);
        assert(run_len(t, alpha_fn()) >= 1);
    }
}

/// The token one Unicode scalar of a character query stands for.
pub open spec fn char_token(c: char) -> SpecQueryToken {
    if c == '?' {
        SpecQueryToken::WildcardSingle
    } else {
        SpecQueryToken::Character(c)
    }
}

/// Tokenisation of a character query: one token per Unicode scalar.
pub open spec fn spec_tok_chars(s: Seq<char>) -> Seq<SpecQueryToken>
    decreases s.len(),
{
    if s.len() == 0 {
        Seq::empty()
    } else {
        seq![char_token(s[0])] + spec_tok_chars(s.skip(1))
    }
}

/// A character query has exactly one token per Unicode scalar of the input:
/// `?` becomes the wildcard and every other scalar a character token.
pub proof fn lemma_tok_chars_one_per_scalar(s: Seq<char>)
    ensures
        spec_tok_chars(s).len() == s.len(),
        forall|i: int| 0 <= i < s.len() ==> spec_tok_chars(s)[i] == char_token(s[i]),
    decreases s.len(),
{
    if s.len() > 0 {
        lemma_tok_chars_one_per_scalar(s.skip(1));
        assert forall|i: int| 0 <= i < s.len() implies spec_tok_chars(s)[i] == char_token(
            s[i],
        ) by {
            if i > 0 {
                assert(s.skip(1)[i - 1] == s[i]);
            }
        }
    }
}

/// Tokenises a character query: each scalar is either the wildcard `?` or a
/// character token.
pub fn tokenise_characters_query(query: &str) -> (r: Vec<QueryToken>)
    ensures
        toks_view(r@) == spec_tok_chars(query@),
        r@.len() == query@.len(),
{
    let n = query.unicode_len();
    let mut r: Vec<QueryToken> = Vec::new();
    let mut i: usize = 0;
    proof {
        assert(query@.skip(0) =~= query@);
        assert(toks_view(r@) + spec_tok_chars(query@.skip(0)) =~= spec_tok_chars(query@));
    }
    while i < n
        invariant
            i <= n,
            n == query@.len(),
            r@.len() == i,
            spec_tok_chars(query@) == toks_view(r@) + spec_tok_chars(query@.skip(i as int)),
        decreases n - i,
    {
        let ghost rem = query@.skip(i as int);
        let ghost r0 = r@;
        let c = query.get_char(i);
        assert(rem[0] == c);
        if c == '?' {
            r.push(QueryToken::WildcardSingle);
        } else {
            r.push(QueryToken::Character(c));
        }
        i = i + 1;
        proof {
            assert(rem.skip(1) =~= query@.skip(i as int));
            assert(toks_view(r@) == toks_view(r@.drop_last()).push(r@.last()@));
            assert(r@.drop_last() =~= r0);
            assert(toks_view(r0) + spec_tok_chars(rem) =~= toks_view(r@) + spec_tok_chars(
                query@.skip(i as int),
            ));
        }
    }
    proof {
        assert(spec_tok_chars(query@.skip(n as int)) =~= Seq::<SpecQueryToken>::empty());
        assert(toks_view(r@) + Seq::<SpecQueryToken>::empty() =~= toks_view(r@));
        lemma_toks_view(r@);
    }
    r
}

/// Scans the syllable that starts at `start` in `content`: a maximal
/// alphabetic run and at most one digit. Returns the syllable and the index
/// of the first character after it.
fn scan_syllable(content: &str, start: usize) -> (r: (Syllable, usize))
    requires
        start < content@.len(),
        spec_is_alpha(content@[start as int]),
    ensures
        ({
            let t = content@.skip(start as int);
            &&& r.0@ == head_syllable(t)
            &&& r.1 == start + head_syllable_len(t)
            &&& start < r.1 <= content@.len()
        }),
{
    let n = content.unicode_len();
    let mut i = start;
    while i < n && is_alpha(content.get_char(i))
        invariant
            start <= i <= n,
            n == content@.len(),
            forall|x: int| start <= x < i ==> spec_is_alpha(content@[x]),
        decreases n - i,
    {
        i = i + 1;
    }
    let ghost t = content@.skip(start as int);
    proof {
        assert forall|x: int| 0 <= x < i - start implies alpha_fn()(t[x]) by {
            assert(t[x] == content@[start + x]);
        }
        if i < n {
            assert(t[(i - start) as int] == content@[i as int]);
        }
        lemma_run_len_exact(t, alpha_fn(), i - start);
        assert(t[0] == content@[start as int]);
        assert(run_len(t, alpha_fn()) >= 1);
    }
    let sound = content.substring_char(start, i).to_owned();
    proof {
        assert(t.subrange(0, i - start) =~= content@.subrange(start as int, i as int));
    }
    if i < n && is_digit(content.get_char(i)) {
        let tone = content.substring_char(i, i + 1).to_owned();
        proof {
            assert(t[(i - start) as int] == content@[i as int]);
            assert(t.subrange(i - start, i - start + 1) =~= content@.subrange(
                i as int,
                i + 1 as int,
            ));
        }
        (Syllable { sound, tone }, i + 1)
    } else {
        let tone = String::new();
        proof {
            if i - start < t.len() {
                assert(t[(i - start) as int] == content@[i as int]);
            }
        }
        (Syllable { sound, tone }, i)
    }
}

/// Tokenises a pronunciation string into its syllables. Total: any input
/// yields a (possibly empty) list.
pub fn tokenise_pronunciation(content: &str) -> (r: Vec<Syllable>)
    ensures
        syls_view(r@) == spec_tok_pron(content@),
{
    let n = content.unicode_len();
    let mut r: Vec<Syllable> = Vec::new();
    let mut i: usize = 0;
    proof {
        assert(content@.skip(0) =~= content@);
    }
    while i < n
        invariant
            i <= n,
            n == content@.len(),
            spec_tok_pron(content@) == syls_view(r@) + spec_tok_pron(content@.skip(i as int)),
        decreases n - i,
    {
        let ghost rem = content@.skip(i as int);
        let ghost r0 = r@;
        let start = i;
        while i < n && !is_alnum(content.get_char(i))
            invariant
                start <= i <= n,
                n == content@.len(),
                forall|x: int| start <= x < i ==> pron_sep_fn()(content@[x]),
            decreases n - i,
        {
            i = i + 1;
        }
        proof {
            assert forall|x: int| 0 <= x < i - start implies pron_sep_fn()(rem[x]) by {
                assert(rem[x] == content@[start + x]);
            }
            if i < n {
                assert(rem[(i - start) as int] == content@[i as int]);
            }
            lemma_run_len_exact(rem, pron_sep_fn(), i - start);
        }
        if i == n {
            proof {
                assert(spec_tok_pron(rem) =~= Seq::<SpecSyllable>::empty());
                assert(spec_tok_pron(content@.skip(i as int)) =~= Seq::<SpecSyllable>::empty());
            }
        } else {
            let c = content.get_char(i);
            assert(rem[(i - start) as int] == c);
            if is_alpha(c) {
                let (syl, ni) = scan_syllable(content, i);
                proof {
                    let t = rem.skip(i - start);
                    assert(t =~= content@.skip(i as int));
                    assert(spec_tok_pron(rem) == seq![head_syllable(t)] + spec_tok_pron(
                        t.skip(head_syllable_len(t) as int),
                    ));
                    assert(t.skip(head_syllable_len(t) as int) =~= content@.skip(ni as int));
                }
                r.push(syl);
                i = ni;
                proof {
                    assert(r@.drop_last() =~= r0);
                    assert(syls_view(r@) == syls_view(r0).push(syl@));
                    assert(syls_view(r0) + spec_tok_pron(rem) =~= syls_view(r@)
                        + spec_tok_pron(content@.skip(i as int)));
                }
            } else {
                proof {
                    assert(spec_is_digit(c));
                    assert(spec_tok_pron(rem) =~= Seq::<SpecSyllable>::empty());
                    assert(spec_tok_pron(content@.skip(n as int)) =~= Seq::<
                        SpecSyllable,
                    >::empty());
                }
                i = n;
            }
        }
    }
    proof {
        assert(spec_tok_pron(content@.skip(n as int)) =~= Seq::<SpecSyllable>::empty());
        assert(syls_view(r@) + Seq::<SpecSyllable>::empty() =~= syls_view(r@));
    }
    r
}

/// Tokenises a pronunciation query into wildcard and syllable tokens. Total:
/// any input yields a (possibly empty) list.
pub fn tokenise_pronunciation_query(query: &str) -> (r: Vec<QueryToken>)
    ensures
        toks_view(r@) == spec_tok_pron_query(query@),
{
    let n = query.unicode_len();
    let mut r: Vec<QueryToken> = Vec::new();
    let mut i: usize = 0;
    proof {
        assert(query@.skip(0) =~= query@);
    }
    while i < n
        invariant
            i <= n,
            n == query@.len(),
            spec_tok_pron_query(query@) == toks_view(r@) + spec_tok_pron_query(
                query@.skip(i as int),
            ),
        decreases n - i,
    {
        let ghost rem = query@.skip(i as int);
        let ghost r0 = r@;
        let start = i;
        while i < n && !is_alnum(query.get_char(i)) && query.get_char(i) != '?'
            invariant
                start <= i <= n,
                n == query@.len(),
                forall|x: int| start <= x < i ==> query_sep_fn()(query@[x]),
            decreases n - i,
        {
            i = i + 1;
        }
        proof {
            assert forall|x: int| 0 <= x < i - start implies query_sep_fn()(rem[x]) by {
                assert(rem[x] == query@[start + x]);
            }
            if i < n {
                assert(rem[(i - start) as int] == query@[i as int]);
            }
            lemma_run_len_exact(rem, query_sep_fn(), i - start);
        }
        if i == n {
            proof {
                assert(spec_tok_pron_query(rem) =~= Seq::<SpecQueryToken>::empty());
                assert(spec_tok_pron_query(query@.skip(i as int)) =~= Seq::<
                    SpecQueryToken,
                >::empty());
            }
        } else {
            let c = query.get_char(i);
            assert(rem[(i - start) as int] == c);
            if c == '?' {
                proof {
                    assert(spec_tok_pron_query(rem) == seq![SpecQueryToken::WildcardSingle]
                        + spec_tok_pron_query(rem.skip(i - start + 1)));
                    assert(rem.skip(i - start + 1) =~= query@.skip(i + 1 as int));
                }
                r.push(QueryToken::WildcardSingle);
                i = i + 1;
                proof {
                    assert(r@.drop_last() =~= r0);
                    assert(toks_view(r@) == toks_view(r0).push(SpecQueryToken::WildcardSingle));
                    assert(toks_view(r0) + spec_tok_pron_query(rem) =~= toks_view(r@)
                        + spec_tok_pron_query(query@.skip(i as int)));
                }
            } else if is_alpha(c) {
                let (syl, ni) = scan_syllable(query, i);
                let tok = QueryToken::Pronunciation { sound: syl.sound, tone: syl.tone };
                proof {
                    let t = rem.skip(i - start);
                    assert(t =~= query@.skip(i as int));
                    assert(spec_tok_pron_query(rem) == seq![
                        SpecQueryToken::Pronunciation {
                            sound: head_syllable(t).sound,
                            tone: head_syllable(t).tone,
                        },
                    ] + spec_tok_pron_query(t.skip(head_syllable_len(t) as int)));
                    assert(t.skip(head_syllable_len(t) as int) =~= query@.skip(ni as int));
                }
                r.push(tok);
                i = ni;
                proof {
                    assert(r@.drop_last() =~= r0);
                    assert(toks_view(r0) + spec_tok_pron_query(rem) =~= toks_view(r@)
                        + spec_tok_pron_query(query@.skip(i as int)));
                }
            } else {
                proof {
                    assert(spec_is_digit(c));
                    assert(spec_tok_pron_query(rem) =~= Seq::<SpecQueryToken>::empty());
                    assert(spec_tok_pron_query(query@.skip(n as int)) =~= Seq::<
                        SpecQueryToken,
                    >::empty());
                }
                i = n;
            }
        }
    }
    proof {
        assert(spec_tok_pron_query(query@.skip(n as int)) =~= Seq::<SpecQueryToken>::empty());
        assert(toks_view(r@) + Seq::<SpecQueryToken>::empty() =~= toks_view(r@));
    }
    r
}


/// A well-formed syllable: a non-empty alphabetic sound and a tone that is
/// empty or one digit.
pub open spec fn syllable_wf(y: SpecSyllable) -> bool {
    &&& y.sound.len() > 0
    &&& forall|i: int| 0 <= i < y.sound.len() ==> spec_is_alpha(#[trigger] y.sound[i])
    &&& (y.tone.len() == 0 || (y.tone.len() == 1 && spec_is_digit(y.tone[0])))
}

pub open spec fn syllables_wf(ts: Seq<SpecSyllable>) -> bool {
    forall|i: int| 0 <= i < ts.len() ==> syllable_wf(#[trigger] ts[i])
}

/// Every syllable the pronunciation tokeniser produces is well-formed.
pub proof fn lemma_tok_pron_wf(s: Seq<char>)
    ensures
        syllables_wf(spec_tok_pron(s)),
    decreases s.len(),
{
    lemma_run_len(s, pron_sep_fn());
    let j = run_len(s, pron_sep_fn()) as int;
    if j < s.len() && spec_is_alpha(s[j]) {
        let t = s.skip(j);
        lemma_run_len(t, alpha_fn());
        assert(t[0] == s[j]);
        let k = run_len(t, alpha_fn()) as int;
        assert(k >= 1);
        let h = head_syllable(t);
        assert forall|i: int| 0 <= i < h.sound.len() implies spec_is_alpha(
            #[trigger] h.sound[i],
        ) by {
            assert(h.sound[i] == t[i]);
        }
        assert(syllable_wf(h));
        let rest = t.skip(head_syllable_len(t) as int);
        lemma_tok_pron_wf(rest);
        assert forall|i: int| 0 <= i < spec_tok_pron(s).len() implies syllable_wf(
            #[trigger] spec_tok_pron(s)[i],
        ) by {
            if i > 0 {
                assert(spec_tok_pron(s)[i] == spec_tok_pron(rest)[i - 1]);
            }
        }
    }
}

/// Writes a syllable list back out: each syllable as sound then tone, the
/// syllables separated by single spaces.
pub open spec fn emit_syllables(ts: Seq<SpecSyllable>) -> Seq<char>
    decreases ts.len(),
{
    if ts.len() == 0 {
        Seq::empty()
    } else if ts.len() == 1 {
        ts[0].sound + ts[0].tone
    } else {
        ts[0].sound + ts[0].tone + seq![' '] + emit_syllables(ts.skip(1))
    }
}

/// A leading separator does not change the tokenisation.
proof fn lemma_tok_pron_skip_sep(s: Seq<char>)
    requires
        s.len() > 0,
        !spec_is_alnum(s[0]),
    ensures
        spec_tok_pron(s) == spec_tok_pron(s.skip(1)),
{
    let j = run_len(s, pron_sep_fn()) as int;
    assert(j == 1 + run_len(s.skip(1), pron_sep_fn()));
    let j2 = run_len(s.skip(1), pron_sep_fn()) as int;
    lemma_run_len(s, pron_sep_fn());
    lemma_run_len(s.skip(1), pron_sep_fn());
    if j >= s.len() {
        assert(j2 >= s.skip(1).len());
    } else {
        assert(s.skip(1)[j2] == s[j]);
        if spec_is_alpha(s[j]) {
            assert(s.skip(j) =~= s.skip(1).skip(j2));
        }
    }
}

/// Re-tokenising an emitted well-formed syllable list gives the list back.
pub proof fn lemma_tok_pron_roundtrip(ts: Seq<SpecSyllable>)
    requires
        syllables_wf(ts),
    ensures
        spec_tok_pron(emit_syllables(ts)) == ts,
    decreases ts.len(),
{
    let s = emit_syllables(ts);
    if ts.len() == 0 {
        assert(spec_tok_pron(s) =~= ts);
    } else {
        let h = ts[0];
        assert(syllable_wf(h));
        let hl = h.sound.len() + h.tone.len();
        let tail: Seq<char> = if ts.len() == 1 {
            Seq::empty()
        } else {
            seq![' '] + emit_syllables(ts.skip(1))
        };
        assert(s =~= h.sound + h.tone + tail);
        assert(s[0] == h.sound[0]);
        assert(spec_is_alpha(s[0]));
        assert(run_len(s, pron_sep_fn()) == 0);
        assert(s.skip(0) =~= s);
        // the alphabetic run is exactly the sound
        assert forall|x: int| 0 <= x < h.sound.len() implies alpha_fn()(s[x]) by {
            assert(s[x] == h.sound[x]);
        }
        if h.sound.len() < s.len() {
            if h.tone.len() == 1 {
                assert(s[h.sound.len() as int] == h.tone[0]);
                assert(!alpha_fn()(s[h.sound.len() as int]));
            } else {
                assert(s[h.sound.len() as int] == tail[0]);
                assert(tail[0] == ' ');
                assert(!alpha_fn()(s[h.sound.len() as int]));
            }
        }
        lemma_run_len_exact(s, alpha_fn(), h.sound.len() as int);
        let k = h.sound.len() as int;
        // the head syllable is exactly ts[0]
        assert(s.subrange(0, k) =~= h.sound);
        if h.tone.len() == 1 {
            assert(s[k] == h.tone[0]);
            assert(spec_is_digit(s[k]));
            assert(s.subrange(k, k + 1) =~= h.tone);
            assert(head_syllable(s) == h);
        } else {
            if k < s.len() {
                assert(s[k] == ' ');
                assert(!spec_is_digit(s[k]));
            }
            assert(head_syllable(s).tone =~= h.tone);
            assert(head_syllable(s) == h);
        }
        assert(head_syllable_len(s) == hl);
        let rest = s.skip(hl as int);
        assert(spec_tok_pron(s) == seq![h] + spec_tok_pron(rest));
        if ts.len() == 1 {
            assert(rest.len() == 0);
            assert(spec_tok_pron(rest) =~= Seq::<SpecSyllable>::empty());
            assert(seq![h] + spec_tok_pron(rest) =~= ts);
        } else {
            assert(rest =~= seq![' '] + emit_syllables(ts.skip(1)));
            assert(rest[0] == ' ');
            lemma_tok_pron_skip_sep(rest);
            assert(rest.skip(1) =~= emit_syllables(ts.skip(1)));
            lemma_tok_pron_roundtrip(ts.skip(1));
            assert(spec_tok_pron(rest) == ts.skip(1));
            assert(seq![h] + ts.skip(1) =~= ts);
        }
    }
}

/// Round trip of the ingest tokeniser: writing the syllables of any
/// pronunciation string back out — sound then tone, single spaces between
/// syllables — and tokenising again yields the same syllable sequence.
pub proof fn lemma_pron_roundtrip(s: Seq<char>)
    ensures
        spec_tok_pron(emit_syllables(spec_tok_pron(s))) == spec_tok_pron(s),
{
    lemma_tok_pron_wf(s);
    lemma_tok_pron_roundtrip(spec_tok_pron(s));
}

} // verus!

