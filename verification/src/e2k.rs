//! E2K parser: turns the sectioned text export of a structural model into an
//! ordered sequence of typed records.
//!
//! A `$ CATEGORY` line opens a section; every other non-blank line is a
//! record `KEY name=value name=value ...`.  A record line with a field token
//! that has no `=` is skipped and reported as a warning, never a failure.

use vstd::prelude::*;
use vstd::string::{StrSliceExecFns, StringExecFns};
use crate::strutil::{
    nonblank_of, split_on_nl, split_on_ws, split_lines, split_spaces, trim, trim_spec,
};

verus! {

/// One named field of a record.
#[derive(Clone, Debug)]
pub struct E2KField {
    pub name: String,
    pub value: String,
}

/// Spec-level value of a field.
pub struct FieldV {
    pub name: Seq<char>,
    pub value: Seq<char>,
}

impl View for E2KField {
    type V = FieldV;

    open spec fn view(&self) -> FieldV {
        FieldV { name: self.name@, value: self.value@ }
    }
}

impl DeepView for E2KField {
    type V = FieldV;

    open spec fn deep_view(&self) -> FieldV {
        self.view()
    }
}

/// One parsed record: the section it appeared under, its key, its fields in
/// order of appearance.
#[derive(Clone, Debug)]
pub struct E2KRecord {
    pub category: String,
    pub key: String,
    pub fields: Vec<E2KField>,
}

/// Spec-level value of a record.
pub struct RecV {
    pub category: Seq<char>,
    pub key: Seq<char>,
    pub fields: Seq<FieldV>,
}

impl View for E2KRecord {
    type V = RecV;

    open spec fn view(&self) -> RecV {
        RecV { category: self.category@, key: self.key@, fields: self.fields.deep_view() }
    }
}

impl DeepView for E2KRecord {
    type V = RecV;

    open spec fn deep_view(&self) -> RecV {
        self.view()
    }
}

/// Index of the first `=` in a token, or the token's length if none occurs.
pub open spec fn first_eq_idx(t: Seq<char>) -> int
    decreases t.len(),
{
    if t.len() == 0 {
        0
    } else if t[0] == '=' {
        0
    } else {
        1 + first_eq_idx(t.skip(1))
    }
}

pub proof fn lemma_first_eq_at(t: Seq<char>, k: int)
    requires
        0 <= k <= t.len(),
        forall|j: int| 0 <= j < k ==> t[j] != '=',
        k < t.len() ==> t[k] == '=',
    ensures
        first_eq_idx(t) == k,
    decreases k,
{
    if k == 0 {
    } else {
        let u = t.skip(1);
        assert(forall|j: int| 0 <= j < k - 1 ==> u[j] != '=');
        lemma_first_eq_at(u, k - 1);
    }
}

/// Whether a token can be read as a `name=value` field.
pub open spec fn token_has_eq(t: Seq<char>) -> bool {
    first_eq_idx(t) < t.len()
}

/// The field a token denotes: the part before the first `=` names it, the
/// part after is its raw value.
pub open spec fn token_field(t: Seq<char>) -> FieldV {
    FieldV { name: t.take(first_eq_idx(t)), value: t.skip(first_eq_idx(t) + 1) }
}

/// The mapping a field list denotes: the value of the first field with the
/// given name, or nothing.
pub open spec fn field_lookup(fs: Seq<FieldV>, name: Seq<char>) -> Option<Seq<char>>
    decreases fs.len(),
{
    if fs.len() == 0 {
        None
    } else if fs[0].name == name {
        Some(fs[0].value)
    } else {
        field_lookup(fs.skip(1), name)
    }
}

/// Whether two field lists denote the same name-to-value mapping: field
/// order and repetition do not matter, only what each name maps to.
pub open spec fn fields_match(a: Seq<FieldV>, b: Seq<FieldV>) -> bool {
    forall|n: Seq<char>| #[trigger] field_lookup(a, n) == #[trigger] field_lookup(b, n)
}

/// A name the mapping defines occurs in the list.
pub proof fn lemma_lookup_has_name(fs: Seq<FieldV>, name: Seq<char>)
    requires
        field_lookup(fs, name) is Some,
    ensures
        exists|i: int| 0 <= i < fs.len() && (#[trigger] fs[i]).name == name,
    decreases fs.len(),
{
    if fs.len() > 0 && fs[0].name != name {
        lemma_lookup_has_name(fs.skip(1), name);
        let w = choose|i: int| 0 <= i < fs.skip(1).len() && (#[trigger] fs.skip(1)[i]).name
            == name;
        assert(fs[w + 1] == fs.skip(1)[w]);
    }
}

/// Denoting the same mapping is symmetric.
pub proof fn lemma_fields_match_sym(a: Seq<FieldV>, b: Seq<FieldV>)
    ensures
        fields_match(a, b) == fields_match(b, a),
{
    if fields_match(a, b) {
        assert(fields_match(b, a));
    }
    if fields_match(b, a) {
        assert(fields_match(a, b));
    }
}

/// The value of the first field with the given name, if any.
pub fn find_field(fields: &Vec<E2KField>, name: &str) -> (r: Option<String>)
    ensures
        r is Some <==> field_lookup(fields.deep_view(), name@) is Some,
        r matches Some(v) ==> Some(v@) == field_lookup(fields.deep_view(), name@),
{
    let ghost fv = fields.deep_view();
    let mut i: usize = 0;
    proof {
        assert(fv.skip(0) =~= fv);
    }
    while i < fields.len()
        invariant
            i <= fields@.len(),
            fv == fields.deep_view(),
            fv.len() == fields@.len(),
            field_lookup(fv, name@) == field_lookup(fv.skip(i as int), name@),
        decreases fields@.len() - i,
    {
        proof {
            assert(fv[i as int] == fields@[i as int]@);
            assert(fv.skip(i as int)[0] == fv[i as int]);
        }
        if crate::strutil::str_eq(fields[i].name.as_str(), name) {
            return Some(fields[i].value.clone());
        }
        proof {
            assert(fv.skip(i as int).skip(1) =~= fv.skip(i as int + 1));
        }
        i += 1;
    }
    proof {
        assert(fv.skip(fields@.len() as int).len() == 0);
    }
    None
}

/// Whether one name maps to the same value (or to nothing) in both lists.
fn lookup_eq(a: &Vec<E2KField>, b: &Vec<E2KField>, name: &str) -> (r: bool)
    ensures
        r == (field_lookup(a.deep_view(), name@) == field_lookup(b.deep_view(), name@)),
{
    match (find_field(a, name), find_field(b, name)) {
        (None, None) => true,
        (Some(x), Some(y)) => crate::strutil::str_eq(x.as_str(), y.as_str()),
        _ => false,
    }
}

/// Whether two field lists denote the same name-to-value mapping.
pub fn fields_match_exec(a: &Vec<E2KField>, b: &Vec<E2KField>) -> (r: bool)
    ensures
        r == fields_match(a.deep_view(), b.deep_view()),
{
    let ghost av = a.deep_view();
    let ghost bv = b.deep_view();
    let mut i: usize = 0;
    while i < a.len()
        invariant
            i <= a@.len(),
            av == a.deep_view(),
            av.len() == a@.len(),
            bv == b.deep_view(),
            forall|j: int|
                0 <= j < i ==> field_lookup(av, (#[trigger] av[j]).name) == field_lookup(
                    bv,
                    av[j].name,
                ),
        decreases a@.len() - i,
    {
        proof {
            assert(av[i as int] == a@[i as int]@);
        }
        if !lookup_eq(a, b, a[i].name.as_str()) {
            proof {
                assert(field_lookup(av, av[i as int].name) != field_lookup(
                    bv,
                    av[i as int].name,
                ));
            }
            return false;
        }
        i += 1;
    }
    let mut j: usize = 0;
    while j < b.len()
        invariant
            j <= b@.len(),
            av == a.deep_view(),
            bv == b.deep_view(),
            bv.len() == b@.len(),
            forall|k: int|
                0 <= k < av.len() ==> field_lookup(av, (#[trigger] av[k]).name) == field_lookup(
                    bv,
                    av[k].name,
                ),
            forall|k: int|
                0 <= k < j ==> field_lookup(av, (#[trigger] bv[k]).name) == field_lookup(
                    bv,
                    bv[k].name,
                ),
        decreases b@.len() - j,
    {
        proof {
            assert(bv[j as int] == b@[j as int]@);
        }
        if !lookup_eq(a, b, b[j].name.as_str()) {
            proof {
                assert(field_lookup(av, bv[j as int].name) != field_lookup(
                    bv,
                    bv[j as int].name,
                ));
            }
            return false;
        }
        j += 1;
    }
    proof {
        assert forall|n: Seq<char>| #[trigger] field_lookup(av, n) == #[trigger] field_lookup(
            bv,
            n,
        ) by {
            if field_lookup(av, n) is Some {
                lemma_lookup_has_name(av, n);
            } else if field_lookup(bv, n) is Some {
                lemma_lookup_has_name(bv, n);
            }
        }
    }
    true
}

/// What a single line of the format means.
pub enum LineKind {
    /// Nothing but whitespace.
    Blank,
    /// `$ CATEGORY`: opens a section.
    Header { category: Seq<char> },
    /// `KEY name=value ...`: a record of the current section.
    Rec { key: Seq<char>, fields: Seq<FieldV> },
    /// A record line with a token that is not a `name=value` field.
    Malformed,
}

/// Classify one raw line.
pub open spec fn classify_line(line: Seq<char>) -> LineKind {
    let t = trim_spec(line);
    if t.len() == 0 {
        LineKind::Blank
    } else if t[0] == '$' {
        LineKind::Header { category: trim_spec(t.skip(1)) }
    } else {
        let toks = nonblank_of(split_on_ws(t));
        if toks.len() == 0 {
            LineKind::Blank
        } else if forall|i: int| 1 <= i < toks.len() ==> token_has_eq(#[trigger] toks[i]) {
            LineKind::Rec {
                key: toks[0],
                fields: toks.skip(1).map_values(|tok: Seq<char>| token_field(tok)),
            }
        } else {
            LineKind::Malformed
        }
    }
}

/// The parser's running state: current section, records so far, warnings so
/// far (a warning is the trimmed offending line).
pub struct ParseV {
    pub cat: Seq<char>,
    pub recs: Seq<RecV>,
    pub warns: Seq<Seq<char>>,
}

/// Fold one line into the parse state.
pub open spec fn parse_step(st: ParseV, line: Seq<char>) -> ParseV {
    match classify_line(line) {
        LineKind::Blank => st,
        LineKind::Header { category } => ParseV { cat: category, recs: st.recs, warns: st.warns },
        LineKind::Rec { key, fields } => ParseV {
            cat: st.cat,
            recs: st.recs.push(RecV { category: st.cat, key, fields }),
            warns: st.warns,
        },
        LineKind::Malformed => ParseV {
            cat: st.cat,
            recs: st.recs,
            warns: st.warns.push(trim_spec(line)),
        },
    }
}

/// The parse of a sequence of lines, before any section header the section
/// name is empty.
pub open spec fn parse_lines(lines: Seq<Seq<char>>) -> ParseV
    decreases lines.len(),
{
    if lines.len() == 0 {
        ParseV { cat: Seq::empty(), recs: Seq::empty(), warns: Seq::empty() }
    } else {
        parse_step(parse_lines(lines.drop_last()), lines.last())
    }
}

/// The parse of a whole text.
pub open spec fn parse_spec(text: Seq<char>) -> ParseV {
    parse_lines(split_on_nl(text))
}

/// A parse yields at most one record per line.
pub proof fn lemma_parse_recs_len(lines: Seq<Seq<char>>)
    ensures
        parse_lines(lines).recs.len() <= lines.len(),
    decreases lines.len(),
{
    if lines.len() != 0 {
        lemma_parse_recs_len(lines.drop_last());
    }
}

/// What parsing a text yields: the records in order, and one warning per
/// skipped malformed line.
pub struct ParseOutcome {
    pub records: Vec<E2KRecord>,
    pub warnings: Vec<String>,
}

/// Parse E2K text.  Tolerant: malformed record lines are skipped and
/// surfaced as warnings; the records come back in order of appearance with
/// the section they appeared under.
pub fn parse_e2k(text: &str) -> (r: ParseOutcome)
    ensures
        r.records.deep_view() == parse_spec(text@).recs,
        r.warnings.deep_view() == parse_spec(text@).warns,
{
    let lines = split_lines(text);
    let ghost lv = lines.deep_view();
    let mut cat: String = String::new();
    let mut records: Vec<E2KRecord> = Vec::new();
    let mut warnings: Vec<String> = Vec::new();
    let mut i: usize = 0;
    proof {
        assert(lv.take(0) =~= Seq::<Seq<char>>::empty());
    }
    while i < lines.len()
        invariant
            i <= lines.len(),
            lv == lines.deep_view(),
            lv.len() == lines.len(),
            cat@ == parse_lines(lv.take(i as int)).cat,
            records.deep_view() == parse_lines(lv.take(i as int)).recs,
            warnings.deep_view() == parse_lines(lv.take(i as int)).warns,
        decreases lines.len() - i,
    {
        let ghost st = parse_lines(lv.take(i as int));
        proof {
            assert(lv.take(i as int + 1).drop_last() =~= lv.take(i as int));
            assert(lv.take(i as int + 1).last() == lv[i as int]);
            assert(parse_lines(lv.take(i as int + 1)) == parse_step(st, lv[i as int]));
        }
        let line = &lines[i];
        let t = trim(line.as_str());
        let tn = t.as_str().unicode_len();
        if tn == 0 {
            proof {
                assert(classify_line(lv[i as int]) is Blank);
            }
        } else if t.as_str().get_char(0) == '$' {
            let rest = t.as_str().substring_char(1, tn);
            let newcat = trim(rest);
            proof {
                assert(rest@ =~= t@.skip(1));
                assert(classify_line(lv[i as int]) == (LineKind::Header {
                    category: trim_spec(t@.skip(1)),
                }));
            }
            cat = newcat;
        } else {
            let segs = split_spaces(t.as_str());
            let mut toks: Vec<String> = Vec::new();
            let mut j: usize = 0;
            let ghost sv = segs.deep_view();
            proof {
                reveal(Seq::filter);
                assert(sv.take(0) =~= Seq::<Seq<char>>::empty());
                assert(nonblank_of(sv.take(0)) =~= Seq::<Seq<char>>::empty());
                assert(toks.deep_view() =~= Seq::<Seq<char>>::empty());
            }
            while j < segs.len()
                invariant
                    j <= segs.len(),
                    sv == segs.deep_view(),
                    sv.len() == segs.len(),
                    toks.deep_view() == nonblank_of(sv.take(j as int)),
                decreases segs.len() - j,
            {
                proof {
                    assert(sv.take(j as int + 1).drop_last() =~= sv.take(j as int));
                    assert(sv.take(j as int + 1).last() == sv[j as int]);
                    reveal(Seq::filter);
                    assert(nonblank_of(sv.take(j as int + 1)) == if sv[j as int].len() > 0 {
                        nonblank_of(sv.take(j as int)).push(sv[j as int])
                    } else {
                        nonblank_of(sv.take(j as int))
                    });
                }
                if !segs[j].as_str().is_empty() {
                    let ghost tdv = toks.deep_view();
                    let tok = segs[j].clone();
                    toks.push(tok);
                    proof {
                        assert(toks.deep_view() =~= tdv.push(sv[j as int]));
                    }
                }
                j += 1;
            }
            proof {
                assert(sv.take(sv.len() as int) =~= sv);
            }
            let ghost tv = toks.deep_view();
            proof {
                assert(tv == nonblank_of(split_on_ws(t@)));
            }
            if toks.len() == 0 {
                proof {
                    assert(classify_line(lv[i as int]) is Blank);
                }
            } else {
                let mut fields: Vec<E2KField> = Vec::new();
                let mut ok = true;
                let mut k: usize = 1;
                proof {
                    assert(tv.subrange(1, 1) =~= Seq::<Seq<char>>::empty());
                    assert(fields.deep_view() =~= tv.subrange(1, 1).map_values(
                        |tok: Seq<char>| token_field(tok)));
                }
                while k < toks.len()
                    invariant
                        1 <= k <= toks.len(),
                        tv == toks.deep_view(),
                        tv.len() == toks.len(),
                        ok == (forall|x: int| 1 <= x < k ==> token_has_eq(#[trigger] tv[x])),
                        ok ==> fields.deep_view() == tv.subrange(1, k as int).map_values(
                            |tok: Seq<char>| token_field(tok)),
                    decreases toks.len() - k,
                {
                    let tok = &toks[k];
                    let e = find_eq(tok.as_str());
                    let tokn = tok.as_str().unicode_len();
                    proof {
                        assert(tv[k as int] == tok@);
                    }
                    if e < tokn {
                        proof {
                            assert(token_has_eq(tv[k as int]));
                        }
                        if ok {
                            let name = String::from_str(tok.as_str().substring_char(0, e));
                            let value = String::from_str(tok.as_str().substring_char(e + 1, tokn));
                            let ghost fdv = fields.deep_view();
                            fields.push(E2KField { name, value });
                            proof {
                                assert(tv[k as int].take(first_eq_idx(tv[k as int])) =~= tv[
                                    k as int].subrange(0, e as int));
                                assert(tv[k as int].skip(first_eq_idx(tv[k as int]) + 1) =~= tv[
                                    k as int].subrange(e as int + 1, tokn as int));
                                assert(fields.deep_view() =~= fdv.push(token_field(tv[k as int])));
                                assert(tv.subrange(1, k as int + 1).drop_last() =~= tv.subrange(
                                    1, k as int));
                                assert(fields.deep_view() =~= tv.subrange(1, k as int + 1)
                                    .map_values(|tok: Seq<char>| token_field(tok)));
                            }
                        }
                    } else {
                        proof {
                            assert(!token_has_eq(tv[k as int]));
                        }
                        ok = false;
                    }
                    k += 1;
                }
                if ok {
                    let key = toks[0].clone();
                    let category = cat.clone();
                    let ghost rdv = records.deep_view();
                    proof {
                        assert(tv.subrange(1, tv.len() as int) =~= tv.skip(1));
                        assert(classify_line(lv[i as int]) == (LineKind::Rec {
                            key: tv[0],
                            fields: tv.skip(1).map_values(|tok: Seq<char>| token_field(tok)),
                        }));
                    }
                    records.push(E2KRecord { category, key, fields });
                    proof {
                        assert(records.deep_view() =~= rdv.push(RecV {
                            category: st.cat,
                            key: tv[0],
                            fields: tv.skip(1).map_values(|tok: Seq<char>| token_field(tok)),
                        }));
                    }
                } else {
                    let ghost wdv = warnings.deep_view();
                    proof {
                        assert(classify_line(lv[i as int]) is Malformed);
                    }
                    warnings.push(t);
                    proof {
                        assert(warnings.deep_view() =~= wdv.push(trim_spec(lv[i as int])));
                    }
                }
            }
        }
        i += 1;
    }
    proof {
        assert(lv.take(lines.len() as int) =~= lv);
    }
    ParseOutcome { records, warnings }
}

/// Index of the first `=` in a string, or its length if none occurs.
pub fn find_eq(t: &str) -> (r: usize)
    ensures
        r == first_eq_idx(t@),
        r <= t@.len(),
{
    let n = t.unicode_len();
    let mut i: usize = 0;
    while i < n
        invariant
            i <= n == t@.len(),
            forall|j: int| 0 <= j < i ==> t@[j] != '=',
        decreases n - i,
    {
        if t.get_char(i) == '=' {
            proof {
                lemma_first_eq_at(t@, i as int);
            }
            return i;
        }
        i += 1;
    }
    proof {
        lemma_first_eq_at(t@, n as int);
    }
    n
}

} // verus!
