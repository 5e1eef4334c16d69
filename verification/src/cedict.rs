//! Parser for the dictionary corpus format.
//!
//! A file is leading comment lines (starting with `#`, blank lines allowed
//! among them), then entry lines. An entry line is the traditional form, the
//! simplified form, the Pinyin in `[` `]` (possibly empty), an optional
//! Jyutping in `{` `}`, and the definition: the rest of the line up to an
//! optional `#` comment, trimmed of trailing whitespace. The forms are
//! maximal runs of non-space characters; single spaces or tabs separate the
//! fields. Blank lines are skipped; any other line that is not an entry
//! fails the parse.

use vstd::prelude::*;
use vstd::string::StrSliceExecFns;

use crate::chars::lemma_run_len;
use crate::chars::lemma_run_len_exact;
use crate::chars::run_len;

verus! {

/// One parsed dictionary entry.
#[derive(Debug)]
pub struct Entry {
    pub traditional: String,
    pub simplified: String,
    pub dictionary_id: i32,
    pub pinyin: String,
    pub jyutping: String,
    pub definition: String,
}

/// Mathematical model of an `Entry`.
pub ghost struct SpecEntry {
    pub traditional: Seq<char>,
    pub simplified: Seq<char>,
    pub dictionary_id: int,
    pub pinyin: Seq<char>,
    pub jyutping: Seq<char>,
    pub definition: Seq<char>,
}

impl View for Entry {
    type V = SpecEntry;

    open spec fn view(&self) -> SpecEntry {
        SpecEntry {
            traditional: self.traditional@,
            simplified: self.simplified@,
            dictionary_id: self.dictionary_id as int,
            pinyin: self.pinyin@,
            jyutping: self.jyutping@,
            definition: self.definition@,
        }
    }
}

impl PartialEq for Entry {
    fn eq(&self, other: &Entry) -> (r: bool) {
        self.traditional == other.traditional && self.simplified == other.simplified
            && self.dictionary_id == other.dictionary_id && self.pinyin == other.pinyin
            && self.jyutping == other.jyutping && self.definition == other.definition
    }
}

impl vstd::std_specs::cmp::PartialEqSpecImpl for Entry {
    open spec fn obeys_eq_spec() -> bool {
        true
    }

    open spec fn eq_spec(&self, other: &Entry) -> bool {
        self@ == other@
    }
}

impl Entry {
    /// Builds an entry from its fields.
    pub fn new(
        traditional: &str,
        simplified: &str,
        pinyin: &str,
        jyutping: &str,
        definition: &str,
        dictionary_id: i32,
    ) -> (r: Entry)
        ensures
            r@ == (SpecEntry {
                traditional: traditional@,
                simplified: simplified@,
                dictionary_id: dictionary_id as int,
                pinyin: pinyin@,
                jyutping: jyutping@,
                definition: definition@,
            }),
    {
        Entry {
            traditional: traditional.to_owned(),
            simplified: simplified.to_owned(),
            dictionary_id,
            pinyin: pinyin.to_owned(),
            jyutping: jyutping.to_owned(),
            definition: definition.to_owned(),
        }
    }
}

/// The sequence of models of a sequence of entries.
pub open spec fn entries_view(v: Seq<Entry>) -> Seq<SpecEntry>
    decreases v.len(),
{
    if v.len() == 0 {
        Seq::empty()
    } else {
        entries_view(v.drop_last()).push(v.last()@)
    }
}

pub proof fn lemma_entries_view(v: Seq<Entry>)
    ensures
        entries_view(v).len() == v.len(),
        forall|i: int| 0 <= i < v.len() ==> entries_view(v)[i] == v[i]@,
    decreases v.len(),
{
    if v.len() > 0 {
        lemma_entries_view(v.drop_last());
    }
}

/// The sequence of views of a sequence of strings.
pub open spec fn strs_view(v: Seq<String>) -> Seq<Seq<char>>
    decreases v.len(),
{
    if v.len() == 0 {
        Seq::empty()
    } else {
        strs_view(v.drop_last()).push(v.last()@)
    }
}

pub proof fn lemma_strs_view(v: Seq<String>)
    ensures
        strs_view(v).len() == v.len(),
        forall|i: int| 0 <= i < v.len() ==> strs_view(v)[i] == v[i]@,
    decreases v.len(),
{
    if v.len() > 0 {
        lemma_strs_view(v.drop_last());
    }
}

/// Everything but a given character.
pub open spec fn not_char_fn(stop: char) -> spec_fn(char) -> bool {
    |c: char| c != stop
}

/// A space or a tab: the separator inside an entry line.
pub open spec fn sp_fn() -> spec_fn(char) -> bool {
    |c: char| c == ' ' || c == '\t'
}

/// Whitespace inside a line.
pub open spec fn spec_is_line_ws(c: char) -> bool {
    c == ' ' || c == '\t' || c == '\r'
}

/// A line of nothing but whitespace.
pub open spec fn line_blank(l: Seq<char>) -> bool {
    forall|i: int| 0 <= i < l.len() ==> spec_is_line_ws(#[trigger] l[i])
}

/// The line without its trailing whitespace.
pub open spec fn trim_end(l: Seq<char>) -> Seq<char>
    decreases l.len(),
{
    if l.len() == 0 {
        l
    } else if spec_is_line_ws(l.last()) {
        trim_end(l.drop_last())
    } else {
        l
    }
}

/// The trimmed line is pinned down by its two boundary facts.
proof fn lemma_trim_end_exact(l: Seq<char>, e: int)
    requires
        0 <= e <= l.len(),
        forall|i: int| e <= i < l.len() ==> spec_is_line_ws(#[trigger] l[i]),
        e > 0 ==> !spec_is_line_ws(l[e - 1]),
    ensures
        trim_end(l) == l.subrange(0, e),
    decreases l.len(),
{
    if l.len() == 0 {
        assert(trim_end(l) =~= l.subrange(0, e));
    } else if e == l.len() {
        assert(!spec_is_line_ws(l.last()));
        assert(trim_end(l) =~= l.subrange(0, e));
    } else {
        assert(spec_is_line_ws(l.last()));
        assert forall|i: int| e <= i < l.drop_last().len() implies spec_is_line_ws(
            #[trigger] l.drop_last()[i],
        ) by {
            assert(l.drop_last()[i] == l[i]);
        }
        if e > 0 {
            assert(l.drop_last()[e - 1] == l[e - 1]);
        }
        lemma_trim_end_exact(l.drop_last(), e);
        assert(l.drop_last().subrange(0, e) =~= l.subrange(0, e));
    }
}

/// The lines of a text: split on `\n`; a trailing newline yields a final
/// empty line, and an empty text is one empty line.
pub open spec fn spec_lines(s: Seq<char>) -> Seq<Seq<char>>
    decreases s.len(),
    via spec_lines_decreases
{
    let k = run_len(s, not_char_fn('\n')) as int;
    if k >= s.len() {
        seq![s]
    } else {
        seq![s.subrange(0, k)] + spec_lines(s.skip(k + 1))
    }
}

#[via_fn]
proof fn spec_lines_decreases(s: Seq<char>) {
    lemma_run_len(s, not_char_fn('\n'));
}

/// Parsing of one entry line.
pub open spec fn spec_parse_line(line: Seq<char>) -> Option<SpecEntry> {
    let tl = run_len(line, not_char_fn(' ')) as int;
    let r1 = line.skip(tl);
    let sp1 = run_len(r1, sp_fn()) as int;
    let r2 = r1.skip(sp1);
    let sl = run_len(r2, not_char_fn(' ')) as int;
    let r3 = r2.skip(sl);
    let sp2 = run_len(r3, sp_fn()) as int;
    let r4 = r3.skip(sp2);
    if tl == 0 || sp1 == 0 || sl == 0 || sp2 == 0 || r4.len() == 0 || r4[0] != '[' {
        None
    } else {
        let pl = run_len(r4.skip(1), not_char_fn(']')) as int;
        if 1 + pl >= r4.len() {
            None
        } else {
            let r5 = r4.skip(1 + pl + 1);
            let sp3 = run_len(r5, sp_fn()) as int;
            if sp3 == 0 {
                None
            } else {
                let r6 = r5.skip(sp3);
                if r6.len() > 0 && r6[0] == '{' {
                    let jl = run_len(r6.skip(1), not_char_fn('}')) as int;
                    if 1 + jl >= r6.len() {
                        None
                    } else {
                        spec_parse_fields(
                            line,
                            tl,
                            r2.subrange(0, sl),
                            r4.subrange(1, 1 + pl),
                            r6.subrange(1, 1 + jl),
                            r6.skip(1 + jl + 1),
                        )
                    }
                } else {
                    spec_parse_fields(
                        line,
                        tl,
                        r2.subrange(0, sl),
                        r4.subrange(1, 1 + pl),
                        Seq::empty(),
                        r6,
                    )
                }
            }
        }
    }
}

/// The tail of an entry line: optional spaces, then the definition up to an
/// optional `#` comment.
pub open spec fn spec_parse_fields(
    line: Seq<char>,
    tl: int,
    simp: Seq<char>,
    pinyin: Seq<char>,
    jyutping: Seq<char>,
    rest: Seq<char>,
) -> Option<SpecEntry> {
    let sp4 = run_len(rest, sp_fn()) as int;
    let r8 = rest.skip(sp4);
    let dl = run_len(r8, not_char_fn('#')) as int;
    Some(
        SpecEntry {
            traditional: line.subrange(0, tl),
            simplified: simp,
            dictionary_id: 0,
            pinyin,
            jyutping,
            definition: trim_end(r8.subrange(0, dl)),
        },
    )
}

/// Parsing of a sequence of lines: blank lines are skipped everywhere,
/// comment lines only while no entry has been seen, and every other line
/// must be an entry.
pub open spec fn spec_parse_lines(lines: Seq<Seq<char>>, in_header: bool) -> Option<Seq<SpecEntry>>
    decreases lines.len(),
{
    if lines.len() == 0 {
        Some(Seq::empty())
    } else {
        let l = lines[0];
        if line_blank(l) {
            spec_parse_lines(lines.skip(1), in_header)
        } else if in_header && l.len() > 0 && l[0] == '#' {
            spec_parse_lines(lines.skip(1), true)
        } else {
            match spec_parse_line(l) {
                None => None,
                Some(e) => match spec_parse_lines(lines.skip(1), false) {
                    None => None,
                    Some(es) => Some(seq![e] + es),
                },
            }
        }
    }
}

/// Parsing of a whole corpus text.
pub open spec fn spec_parse_cedict(s: Seq<char>) -> Option<Seq<SpecEntry>> {
    spec_parse_lines(spec_lines(s), true)
}

/// Error of a corpus parse: the first offending line.
#[derive(Debug, PartialEq, Eq, Structural)]
pub struct ParseError {
    pub line: usize,
}


/// Scans from `start` past every character other than `stop`.
fn scan_until(line: &str, start: usize, stop: char) -> (e: usize)
    requires
        start <= line@.len(),
    ensures
        start <= e <= line@.len(),
        e - start == run_len(line@.skip(start as int), not_char_fn(stop)),
        forall|i: int| start <= i < e ==> line@[i] != stop,
        e < line@.len() ==> line@[e as int] == stop,
{
    let n = line.unicode_len();
    let mut i = start;
    while i < n && line.get_char(i) != stop
        invariant
            start <= i <= n,
            n == line@.len(),
            forall|x: int| start <= x < i ==> line@[x] != stop,
        decreases n - i,
    {
        i = i + 1;
    }
    let ghost rem = line@.skip(start as int);
    proof {
        assert forall|x: int| 0 <= x < i - start implies not_char_fn(stop)(rem[x]) by {
            assert(rem[x] == line@[start + x]);
        }
        if i < n {
            assert(rem[(i - start) as int] == line@[i as int]);
        }
        lemma_run_len_exact(rem, not_char_fn(stop), i - start);
    }
    i
}

/// Scans from `start` past every space or tab.
fn scan_ws(line: &str, start: usize) -> (e: usize)
    requires
        start <= line@.len(),
    ensures
        start <= e <= line@.len(),
        e - start == run_len(line@.skip(start as int), sp_fn()),
{
    let n = line.unicode_len();
    let mut i = start;
    while i < n && (line.get_char(i) == ' ' || line.get_char(i) == '\t')
        invariant
            start <= i <= n,
            n == line@.len(),
            forall|x: int| start <= x < i ==> sp_fn()(line@[x]),
        decreases n - i,
    {
        i = i + 1;
    }
    let ghost rem = line@.skip(start as int);
    proof {
        assert forall|x: int| 0 <= x < i - start implies sp_fn()(rem[x]) by {
            assert(rem[x] == line@[start + x]);
        }
        if i < n {
            assert(rem[(i - start) as int] == line@[i as int]);
        }
        lemma_run_len_exact(rem, sp_fn(), i - start);
    }
    i
}

/// Whether a line is nothing but whitespace.
fn is_blank_line(line: &str) -> (r: bool)
    ensures
        r == line_blank(line@),
{
    let n = line.unicode_len();
    let mut i: usize = 0;
    while i < n
        invariant
            i <= n,
            n == line@.len(),
            forall|x: int| 0 <= x < i ==> spec_is_line_ws(#[trigger] line@[x]),
        decreases n - i,
    {
        let c = line.get_char(i);
        if !(c == ' ' || c == '\t' || c == '\r') {
            return false;
        }
        i = i + 1;
    }
    true
}

/// The definition with its trailing whitespace removed.
fn trim_line_end(line: &str, start: usize, stop: usize) -> (r: String)
    requires
        start <= stop <= line@.len(),
    ensures
        r@ == trim_end(line@.subrange(start as int, stop as int)),
{
    let ghost l = line@.subrange(start as int, stop as int);
    let mut e = stop;
    while e > start && (line.get_char(e - 1) == ' ' || line.get_char(e - 1) == '\t'
        || line.get_char(e - 1) == '\r')
        invariant
            start <= e <= stop,
            stop <= line@.len(),
            l == line@.subrange(start as int, stop as int),
            forall|i: int| e - start <= i < l.len() ==> spec_is_line_ws(#[trigger] l[i]),
        decreases e,
    {
        proof {
            assert(l[(e - 1 - start) as int] == line@[e - 1]);
        }
        e = e - 1;
    }
    proof {
        if e > start {
            assert(l[(e - 1 - start) as int] == line@[e - 1]);
            assert(!spec_is_line_ws(l[(e - start - 1) as int]));
        }
        lemma_trim_end_exact(l, e - start);
        assert(l.subrange(0, e - start) =~= line@.subrange(start as int, e as int));
    }
    line.substring_char(start, e).to_owned()
}

/// Parses one entry line, if it has the entry shape.
#[verifier::rlimit(100)]
#[verifier::spinoff_prover]
pub fn parse_line(line: &str) -> (r: Option<Entry>)
    ensures
        match r {
            Some(e) => spec_parse_line(line@) == Some(e@),
            None => spec_parse_line(line@) is None,
        },
{
    let n = line.unicode_len();
    let ghost lv = line@;
    // traditional form
    let tl = scan_until(line, 0, ' ');
    proof {
        assert(lv.skip(0) =~= lv);
    }
    let p1 = scan_ws(line, tl);
    proof {
        assert(lv.skip(tl as int).skip((p1 - tl) as int) =~= lv.skip(p1 as int));
    }
    // simplified form
    let p2 = scan_until(line, p1, ' ');
    proof {
        assert(lv.skip(p1 as int).skip((p2 - p1) as int) =~= lv.skip(p2 as int));
    }
    let p3 = scan_ws(line, p2);
    proof {
        assert(lv.skip(p2 as int).skip((p3 - p2) as int) =~= lv.skip(p3 as int));
    }
    if tl == 0 || p1 == tl || p2 == p1 || p3 == p2 || p3 == n || line.get_char(p3) != '[' {
        proof {
            if p3 < n {
                assert(lv.skip(p3 as int)[0] == lv[p3 as int]);
            }
        }
        return None;
    }
    proof {
        assert(lv.skip(p3 as int)[0] == lv[p3 as int]);
        assert(lv.skip(p3 as int).skip(1) =~= lv.skip(p3 + 1 as int));
    }
    // pinyin between [ and ]
    let pl = scan_until(line, p3 + 1, ']');
    proof {
        assert(lv.skip(p3 + 1 as int) =~= lv.skip(p3 as int).skip(1));
        assert(run_len(lv.skip(p3 as int).skip(1), not_char_fn(']')) == pl - (p3 + 1));
    }
    if pl == n {
        proof {
            let r4 = lv.skip(p3 as int);
            assert(1 + (pl - (p3 + 1)) >= r4.len());
        }
        return None;
    }
    proof {
        let r4 = lv.skip(p3 as int);
        assert(1 + (pl - (p3 + 1)) < r4.len());
        assert(lv.skip(p3 as int).skip((pl + 1 - p3) as int) =~= lv.skip((pl + 1) as int));
    }
    let p4 = scan_ws(line, pl + 1);
    proof {
        assert(lv.skip((pl + 1) as int).skip((p4 - (pl + 1)) as int) =~= lv.skip(p4 as int));
    }
    if p4 == pl + 1 {
        return None;
    }
    // optional jyutping between { and }
    let mut jy_lo = p4;
    let mut jy_hi = p4;
    let mut rest_start = p4;
    if p4 < n && line.get_char(p4) == '{' {
        proof {
            assert(lv.skip(p4 as int)[0] == lv[p4 as int]);
            assert(lv.skip(p4 as int).skip(1) =~= lv.skip((p4 + 1) as int));
        }
        let jl = scan_until(line, p4 + 1, '}');
        proof {
            assert(run_len(lv.skip(p4 as int).skip(1), not_char_fn('}')) == jl - (p4 + 1));
        }
        if jl == n {
            proof {
                let r6 = lv.skip(p4 as int);
                assert(1 + (jl - (p4 + 1)) >= r6.len());
            }
            return None;
        }
        jy_lo = p4 + 1;
        jy_hi = jl;
        rest_start = jl + 1;
        proof {
            let r6 = lv.skip(p4 as int);
            assert(1 + (jl - (p4 + 1)) < r6.len());
            assert(r6.subrange(1, 1 + (jl - (p4 + 1))) =~= lv.subrange(
                (p4 + 1) as int,
                jl as int,
            ));
            assert(r6.skip((jl + 1 - p4) as int) =~= lv.skip((jl + 1) as int));
        }
    } else {
        proof {
            if p4 < n {
                assert(lv.skip(p4 as int)[0] == lv[p4 as int]);
            }
        }
    }
    // hand the field boundaries on; the spec's views of the pieces match
    proof {
        assert(lv.subrange(0, tl as int) =~= lv.skip(0).subrange(0, tl as int));
        assert(lv.subrange(p1 as int, p2 as int) =~= lv.skip(p1 as int).subrange(
            0,
            (p2 - p1) as int,
        ));
        assert(lv.subrange((p3 + 1) as int, pl as int) =~= lv.skip(p3 as int).subrange(
            1,
            (pl - p3) as int,
        ));
        if jy_lo == jy_hi {
            assert(lv.subrange(jy_lo as int, jy_hi as int) =~= Seq::<char>::empty());
        }
    }
    Some(parse_fields(line, tl, p1, p2, p3 + 1, pl, jy_lo, jy_hi, rest_start))
}

/// Builds the entry once the field boundaries of the line are known.
fn parse_fields(
    line: &str,
    tl: usize,
    p1: usize,
    p2: usize,
    py_lo: usize,
    py_hi: usize,
    jy_lo: usize,
    jy_hi: usize,
    rest_start: usize,
) -> (e: Entry)
    requires
        tl <= line@.len(),
        p1 <= p2 <= line@.len(),
        py_lo <= py_hi <= line@.len(),
        jy_lo <= jy_hi <= line@.len(),
        rest_start <= line@.len(),
    ensures
        spec_parse_fields(
            line@,
            tl as int,
            line@.subrange(p1 as int, p2 as int),
            line@.subrange(py_lo as int, py_hi as int),
            line@.subrange(jy_lo as int, jy_hi as int),
            line@.skip(rest_start as int),
        ) == Some(e@),
{
    let ghost lv = line@;
    let p5 = scan_ws(line, rest_start);
    proof {
        assert(lv.skip(rest_start as int).skip((p5 - rest_start) as int) =~= lv.skip(p5 as int));
    }
    let dl = scan_until(line, p5, '#');
    proof {
        assert(run_len(lv.skip(p5 as int), not_char_fn('#')) == dl - p5);
        assert(lv.skip(p5 as int).subrange(0, (dl - p5) as int) =~= lv.subrange(
            p5 as int,
            dl as int,
        ));
    }
    let definition = trim_line_end(line, p5, dl);
    let traditional = line.substring_char(0, tl).to_owned();
    let simplified = line.substring_char(p1, p2).to_owned();
    let pinyin = line.substring_char(py_lo, py_hi).to_owned();
    let jyutping = line.substring_char(jy_lo, jy_hi).to_owned();
    Entry { traditional, simplified, dictionary_id: 0, pinyin, jyutping, definition }
}


/// Splits a text into its lines.
fn split_lines(src: &str) -> (lines: Vec<String>)
    ensures
        strs_view(lines@) == spec_lines(src@),
{
    let n = src.unicode_len();
    let mut lines: Vec<String> = Vec::new();
    let mut pos: usize = 0;
    let mut done = false;
    proof {
        assert(src@.skip(0) =~= src@);
        assert(strs_view(lines@) + spec_lines(src@) =~= spec_lines(src@));
    }
    while !done
        invariant
            pos <= n,
            n == src@.len(),
            !done ==> spec_lines(src@) == strs_view(lines@) + spec_lines(src@.skip(pos as int)),
            done ==> spec_lines(src@) == strs_view(lines@),
        decreases n - pos, (if done { 0int } else { 1int }),
    {
        let ghost rem = src@.skip(pos as int);
        let ghost lines0 = lines@;
        let nl = scan_until(src, pos, '\n');
        proof {
            assert(run_len(rem, not_char_fn('\n')) == nl - pos);
            assert(rem.subrange(0, (nl - pos) as int) =~= src@.subrange(pos as int, nl as int));
        }
        let piece = src.substring_char(pos, nl).to_owned();
        lines.push(piece);
        proof {
            assert(lines@.drop_last() =~= lines0);
            assert(strs_view(lines@) == strs_view(lines0).push(src@.subrange(
                pos as int,
                nl as int,
            )));
        }
        if nl == n {
            proof {
                assert(rem =~= src@.subrange(pos as int, nl as int));
                assert(spec_lines(rem) =~= seq![rem]);
                assert(strs_view(lines0) + spec_lines(rem) =~= strs_view(lines@));
            }
            done = true;
        } else {
            proof {
                assert(spec_lines(rem) == seq![src@.subrange(pos as int, nl as int)]
                    + spec_lines(rem.skip((nl - pos + 1) as int)));
                assert(rem.skip((nl - pos + 1) as int) =~= src@.skip((nl + 1) as int));
                assert(strs_view(lines0) + spec_lines(rem) =~= strs_view(lines@) + spec_lines(
                    src@.skip((nl + 1) as int),
                ));
            }
            pos = nl + 1;
        }
    }
    lines
}

/// Parses a corpus text into its entries: leading comment lines are
/// consumed, blank lines are skipped, and every remaining line must be an
/// entry. On failure the error names the first offending line.
pub fn parse_cedict(src: &str) -> (r: Result<Vec<Entry>, ParseError>)
    ensures
        match r {
            Ok(es) => spec_parse_cedict(src@) == Some(entries_view(es@)),
            Err(e) => spec_parse_cedict(src@) is None && e.line < spec_lines(src@).len()
                && !line_blank(spec_lines(src@)[e.line as int]) && spec_parse_line(
                spec_lines(src@)[e.line as int],
            ) is None,
        },
{
    let lines = split_lines(src);
    let ghost lv = strs_view(lines@);
    proof {
        lemma_strs_view(lines@);
        assert(lv.skip(0) =~= lv);
    }
    let mut entries: Vec<Entry> = Vec::new();
    let mut in_header = true;
    let mut li: usize = 0;
    while li < lines.len()
        invariant
            li <= lines@.len(),
            lv == strs_view(lines@),
            lv == spec_lines(src@),
            lv.len() == lines@.len(),
            forall|i: int| 0 <= i < lines@.len() ==> lv[i] == lines@[i]@,
            spec_parse_cedict(src@) == (match spec_parse_lines(lv.skip(li as int), in_header) {
                Some(es) => Some(entries_view(entries@) + es),
                None => None::<Seq<SpecEntry>>,
            }),
        decreases lines@.len() - li,
    {
        let ghost rest = lv.skip(li as int);
        let ghost entries0 = entries@;
        proof {
            assert(rest[0] == lines@[li as int]@);
            assert(rest.skip(1) =~= lv.skip(li + 1));
        }
        let line = &lines[li];
        if is_blank_line(line.as_str()) {
        } else if in_header && line.as_str().unicode_len() > 0 && line.as_str().get_char(0)
            == '#' {
        } else {
            match parse_line(line.as_str()) {
                Some(e) => {
                    let ghost ev = e@;
                    entries.push(e);
                    in_header = false;
                    proof {
                        assert(entries@.drop_last() =~= entries0);
                        assert(entries_view(entries@) == entries_view(entries0).push(ev));
                        assert forall|es: Seq<SpecEntry>|
                            entries_view(entries0) + (seq![ev] + es) =~= entries_view(entries@)
                                + es by {}
                    }
                },
                None => {
                    proof {
                        if in_header && rest[0].len() > 0 {
                            assert(rest[0][0] == lines@[li as int]@[0]);
                        }
                        assert(spec_parse_lines(rest, in_header) is None);
                    }
                    return Err(ParseError { line: li });
                },
            }
        }
        li = li + 1;
    }
    proof {
        assert(lv.skip(lines@.len() as int) =~= Seq::<Seq<char>>::empty());
        assert(entries_view(entries@) + Seq::<SpecEntry>::empty() =~= entries_view(entries@));
    }
    Ok(entries)
}

} // verus!

