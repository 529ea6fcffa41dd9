//! Geometry extraction and diff: a normalized set of structural members is
//! read off the parsed records, and two member sets are compared by id.
//!
//! Numeric coordinate fields are canonicalized to a fixed-precision integer
//! (thousandths), so two records that differ only in numeric formatting
//! normalize to equal members.

use vstd::prelude::*;
use vstd::string::{StrSliceExecFns, StringExecFns};
use crate::e2k::{E2KField, E2KRecord, FieldV, RecV};
use crate::strutil::{lex_lt, lemma_lex_lt_trans, lemma_lex_total, str_eq, str_le};

verus! {

/// A digit character.
pub open spec fn is_digit(c: char) -> bool {
    '0' <= c && c <= '9'
}

/// The numeric value of a digit character.
pub open spec fn digit_val(c: char) -> int {
    c as int - '0' as int
}

/// Whether every character is a digit.
pub open spec fn all_digits(s: Seq<char>) -> bool {
    forall|i: int| 0 <= i < s.len() ==> is_digit(#[trigger] s[i])
}

/// The value of a digit string, most significant first.
pub open spec fn digits_val(s: Seq<char>) -> int
    decreases s.len(),
{
    if s.len() == 0 {
        0
    } else {
        digits_val(s.drop_last()) * 10 + digit_val(s.last())
    }
}

/// Index of the first `.`, or the length if none occurs.
pub open spec fn first_dot_idx(t: Seq<char>) -> int
    decreases t.len(),
{
    if t.len() == 0 {
        0
    } else if t[0] == '.' {
        0
    } else {
        1 + first_dot_idx(t.skip(1))
    }
}

pub proof fn lemma_first_dot_at(t: Seq<char>, k: int)
    requires
        0 <= k <= t.len(),
        forall|j: int| 0 <= j < k ==> t[j] != '.',
        k < t.len() ==> t[k] == '.',
    ensures
        first_dot_idx(t) == k,
    decreases k,
{
    if k != 0 {
        let u = t.skip(1);
        assert(forall|j: int| 0 <= j < k - 1 ==> u[j] != '.');
        lemma_first_dot_at(u, k - 1);
    }
}

/// The scale factor for a fractional part of the given length.
pub open spec fn frac_scale(n: int) -> int {
    if n == 0 {
        1000
    } else if n == 1 {
        100
    } else if n == 2 {
        10
    } else {
        1
    }
}

/// The canonical fixed-precision reading of a numeric literal: thousandths,
/// with an optional sign, up to twelve integer digits and three fraction
/// digits.  `None` when the text is not numeric in that form.
pub open spec fn canon_num(s: Seq<char>) -> Option<int> {
    let neg = s.len() > 0 && s[0] == '-';
    let t = if neg {
        s.skip(1)
    } else {
        s
    };
    let d = first_dot_idx(t);
    let ip = t.take(d);
    let fp = if d < t.len() {
        t.skip(d + 1)
    } else {
        Seq::<char>::empty()
    };
    if 0 < ip.len() <= 12 && all_digits(ip) && fp.len() <= 3 && all_digits(fp) {
        let v = digits_val(ip) * 1000 + digits_val(fp) * frac_scale(fp.len() as int);
        Some(
            if neg {
                -v
            } else {
                v
            },
        )
    } else {
        None
    }
}

/// Spec-level value of one endpoint entry.
pub enum CoordV {
    /// A canonical fixed-precision number, in thousandths.
    Num { v: int },
    /// A non-numeric reference, kept as written.
    Text { s: Seq<char> },
}

/// The canonical endpoint entry a raw field value denotes.
pub open spec fn canon_of(s: Seq<char>) -> CoordV {
    match canon_num(s) {
        Some(v) => CoordV::Num { v },
        None => CoordV::Text { s },
    }
}

/// One endpoint entry of a member.
#[derive(Clone, Debug)]
pub enum CoordValue {
    Num(i64),
    Text(String),
}

impl View for CoordValue {
    type V = CoordV;

    open spec fn view(&self) -> CoordV {
        match self {
            CoordValue::Num(v) => CoordV::Num { v: *v as int },
            CoordValue::Text(s) => CoordV::Text { s: s@ },
        }
    }
}

impl DeepView for CoordValue {
    type V = CoordV;

    open spec fn deep_view(&self) -> CoordV {
        self.view()
    }
}

/// A normalized structural member.
#[derive(Clone, Debug)]
pub struct Member {
    pub id: String,
    pub kind: String,
    pub endpoints: Vec<CoordValue>,
    pub section: String,
    pub material: String,
}

/// Spec-level value of a member.
pub struct MemberV {
    pub id: Seq<char>,
    pub kind: Seq<char>,
    pub endpoints: Seq<CoordV>,
    pub section: Seq<char>,
    pub material: Seq<char>,
}

impl View for Member {
    type V = MemberV;

    open spec fn view(&self) -> MemberV {
        MemberV {
            id: self.id@,
            kind: self.kind@,
            endpoints: self.endpoints.deep_view(),
            section: self.section@,
            material: self.material@,
        }
    }
}

impl DeepView for Member {
    type V = MemberV;

    open spec fn deep_view(&self) -> MemberV {
        self.view()
    }
}

/// Whether two members agree in everything but their id.
pub open spec fn same_attrs(a: MemberV, b: MemberV) -> bool {
    a.kind == b.kind && a.endpoints == b.endpoints && a.section == b.section && a.material
        == b.material
}

/// The categories whose records define members.
pub open spec fn is_member_cat(c: Seq<char>) -> bool {
    c == "FRAME"@ || c == "AREA"@ || c == "JOINT"@
}

/// The value of the first field with the given name, or empty if absent.
pub open spec fn field_value(fs: Seq<FieldV>, name: Seq<char>) -> Seq<char>
    decreases fs.len(),
{
    if fs.len() == 0 {
        Seq::empty()
    } else if fs[0].name == name {
        fs[0].value
    } else {
        field_value(fs.skip(1), name)
    }
}

/// One endpoint slot: the canonical value of the named field, if present.
pub open spec fn ep_of(fs: Seq<FieldV>, name: Seq<char>) -> Seq<CoordV> {
    match crate::e2k::field_lookup(fs, name) {
        Some(v) => seq![canon_of(v)],
        None => Seq::empty(),
    }
}

/// The canonical endpoint list of a record's fields, read in the fixed
/// name order x, y, z, j1..j4: where the fields stand in the record is
/// formatting only, so two records that differ only in field order carry
/// the same endpoints.
pub open spec fn ep_list(fs: Seq<FieldV>) -> Seq<CoordV> {
    ep_of(fs, "x"@) + ep_of(fs, "y"@) + ep_of(fs, "z"@) + ep_of(fs, "j1"@) + ep_of(fs, "j2"@)
        + ep_of(fs, "j3"@) + ep_of(fs, "j4"@)
}

/// The member a record denotes.
pub open spec fn member_of(r: RecV) -> MemberV {
    MemberV {
        id: r.key,
        kind: r.category,
        endpoints: ep_list(r.fields),
        section: field_value(r.fields, "section"@),
        material: field_value(r.fields, "material"@),
    }
}

/// The members of a record stream, in order of appearance.
pub open spec fn extract_spec(rs: Seq<RecV>) -> Seq<MemberV>
    decreases rs.len(),
{
    if rs.len() == 0 {
        Seq::empty()
    } else {
        extract_spec(rs.drop_last()) + if is_member_cat(rs.last().category) {
            seq![member_of(rs.last())]
        } else {
            Seq::empty()
        }
    }
}

/// Extraction yields at most one member per record.
pub proof fn lemma_extract_len(rs: Seq<RecV>)
    ensures
        extract_spec(rs).len() <= rs.len(),
    decreases rs.len(),
{
    if rs.len() != 0 {
        lemma_extract_len(rs.drop_last());
    }
}

/// Whether some member carries the given id.
pub open spec fn has_id(ms: Seq<MemberV>, id: Seq<char>) -> bool {
    exists|i: int| 0 <= i < ms.len() && (#[trigger] ms[i]).id == id
}

/// The first member with the given id.
pub open spec fn first_with_id(ms: Seq<MemberV>, id: Seq<char>) -> MemberV
    decreases ms.len(),
{
    if ms.len() == 0 {
        MemberV {
            id: Seq::empty(),
            kind: Seq::empty(),
            endpoints: Seq::empty(),
            section: Seq::empty(),
            material: Seq::empty(),
        }
    } else if ms[0].id == id {
        ms[0]
    } else {
        first_with_id(ms.skip(1), id)
    }
}

/// Whether an id counts as modified between two member sets: present in
/// both, and the first member carrying it differs in attributes.
pub open spec fn is_modified_id(ov: Seq<MemberV>, nv: Seq<MemberV>, id: Seq<char>) -> bool {
    has_id(ov, id) && has_id(nv, id) && !same_attrs(first_with_id(ov, id), first_with_id(nv, id))
}

/// A strictly ascending id list: sorted and duplicate-free.
pub open spec fn strictly_sorted(ids: Seq<Seq<char>>) -> bool {
    forall|i: int, j: int| 0 <= i < j < ids.len() ==> lex_lt(#[trigger] ids[i], #[trigger] ids[j])
}

/// Membership in each geometry diff list is decided per id, so every id of
/// either side lands in at most one list: the lists partition the changed
/// ids.
pub proof fn lemma_geometry_partition(
    ov: Seq<MemberV>,
    nv: Seq<MemberV>,
    av: Seq<Seq<char>>,
    rv: Seq<Seq<char>>,
    mv: Seq<Seq<char>>,
    id: Seq<char>,
)
    requires
        forall|x: Seq<char>| av.contains(x) <==> has_id(nv, x) && !has_id(ov, x),
        forall|x: Seq<char>| rv.contains(x) <==> has_id(ov, x) && !has_id(nv, x),
        forall|x: Seq<char>| mv.contains(x) <==> is_modified_id(ov, nv, x),
    ensures
        av.contains(id) ==> !rv.contains(id) && !mv.contains(id),
        rv.contains(id) ==> !av.contains(id) && !mv.contains(id),
        mv.contains(id) ==> !av.contains(id) && !rv.contains(id),
        (has_id(nv, id) && !has_id(ov, id)) ==> av.contains(id),
        (has_id(ov, id) && !has_id(nv, id)) ==> rv.contains(id),
        is_modified_id(ov, nv, id) ==> mv.contains(id),
        (!av.contains(id) && !rv.contains(id) && !mv.contains(id)) ==> (has_id(ov, id) == has_id(
            nv,
            id,
        ) && !is_modified_id(ov, nv, id)),
{
}

/// Ten to the given power.
pub open spec fn pow10(n: nat) -> int
    decreases n,
{
    if n == 0 {
        1
    } else {
        10 * pow10((n - 1) as nat)
    }
}

proof fn lemma_pow10_mono(a: nat, b: nat)
    requires
        a <= b,
    ensures
        pow10(a) <= pow10(b),
        pow10(a) >= 1,
    decreases b,
{
    if b != 0 {
        if a == b {
            lemma_pow10_mono((a - 1) as nat, (b - 1) as nat);
        } else {
            lemma_pow10_mono(a, (b - 1) as nat);
        }
    }
}

proof fn lemma_pow10_twelve()
    ensures
        pow10(12) == 1000000000000int,
{
    reveal_with_fuel(pow10, 13);
}

/// Canonicalize one raw field value: a numeric literal becomes its
/// fixed-precision reading, anything else is kept as text.
pub fn canon_value(s: &str) -> (r: CoordValue)
    ensures
        r@ == canon_of(s@),
{
    let n = s.unicode_len();
    let neg = n > 0 && s.get_char(0) == '-';
    let start: usize = if neg {
        1
    } else {
        0
    };
    let ghost t = if neg {
        s@.skip(1)
    } else {
        s@
    };
    proof {
        assert(s@.skip(0) =~= s@);
        assert(t =~= s@.skip(start as int));
    }
    // locate the first dot after the sign
    let mut d: usize = start;
    while d < n && s.get_char(d) != '.'
        invariant
            start <= d <= n == s@.len(),
            forall|j: int| start <= j < d ==> s@[j] != '.',
        decreases n - d,
    {
        d += 1;
    }
    proof {
        assert forall|j: int| 0 <= j < d - start implies t[j] != '.' by {
            assert(t[j] == s@[start + j]);
        }
        if d < n {
            assert(t[d - start] == s@[d as int]);
        }
        lemma_first_dot_at(t, d - start);
    }
    let ip_len = d - start;
    if ip_len == 0 || ip_len > 12 {
        return CoordValue::Text(String::from_str(s));
    }
    // integer part
    let mut iv: i64 = 0;
    let mut i = start;
    proof {
        assert(t.take(0) =~= Seq::<char>::empty());
        lemma_pow10_twelve();
    }
    while i < d
        invariant
            start <= i <= d <= n == s@.len(),
            d - start <= 12,
            0 < d - start,
            neg == (s@.len() > 0 && s@[0] == '-'),
            neg ==> (start == 1 && t == s@.skip(1)),
            !neg ==> (start == 0 && t == s@),
            first_dot_idx(t) == d - start,
            t.len() == n - start,
            iv == digits_val(t.take(i - start)),
            all_digits(t.take(i - start)),
            0 <= iv < pow10((i - start) as nat),
            pow10(12) == 1000000000000int,
        decreases d - i,
    {
        let c = s.get_char(i);
        if c < '0' || c > '9' {
            proof {
                assert(t[i - start] == s@[i as int]);
                assert(!is_digit(t.take(d - start)[i - start]));
            }
            return CoordValue::Text(String::from_str(s));
        }
        proof {
            lemma_pow10_mono(((i - start) as nat) + 1, 12);
            assert(pow10(((i - start) as nat) + 1) == 10 * pow10((i - start) as nat));
            assert(t.take(i - start + 1).drop_last() =~= t.take(i - start));
            assert(t.take(i - start + 1).last() == t[i - start]);
            assert(t[i - start] == s@[i as int]);
        }
        iv = iv * 10 + ((c as u32 - 48) as i64);
        i += 1;
    }
    let ghost ip = t.take(d - start);
    // fraction part
    let mut fv: i64 = 0;
    let mut flen: usize = 0;
    if d < n {
        if n - d - 1 > 3 {
            proof {
                assert(t.skip(d - start + 1) =~= s@.skip(d as int + 1));
                assert(t.skip(d - start + 1).len() > 3);
            }
            return CoordValue::Text(String::from_str(s));
        }
        let ghost fp = t.skip(d - start + 1);
        proof {
            assert(fp =~= s@.skip(d as int + 1));
            assert(fp.take(0) =~= Seq::<char>::empty());
        }
        let mut f = d + 1;
        while f < n
            invariant
                d + 1 <= f <= n == s@.len(),
                start <= d,
                d - start <= 12,
                0 < d - start,
                n - d - 1 <= 3,
                neg == (s@.len() > 0 && s@[0] == '-'),
                neg ==> (start == 1 && t == s@.skip(1)),
                !neg ==> (start == 0 && t == s@),
                first_dot_idx(t) == d - start,
                fp == t.skip(d - start + 1),
                fp.len() == n - d - 1,
                flen == f - d - 1,
                fv == digits_val(fp.take(f - d - 1)),
                all_digits(fp.take(f - d - 1)),
                0 <= fv < 1000,
            decreases n - f,
        {
            let c = s.get_char(f);
            if c < '0' || c > '9' {
                proof {
                    assert(fp[f - d - 1] == s@[f as int]);
                    assert(!is_digit(fp[f - d - 1]));
                }
                return CoordValue::Text(String::from_str(s));
            }
            proof {
                assert(fp.take(f - d) =~= fp.take(f - d - 1).push(fp[f - d - 1]));
                assert(fp[f - d - 1] == s@[f as int]);
                assert(fp.take(f - d - 1).len() <= 2);
                lemma_digits_val_bound(fp.take(f - d - 1));
                lemma_pow10_mono(fp.take(f - d - 1).len(), 2);
                assert(pow10(2) == 100) by {
                    reveal_with_fuel(pow10, 3);
                }
                assert(fp.take(f - d).drop_last() =~= fp.take(f - d - 1));
                assert(fp.take(f - d).last() == fp[f - d - 1]);
            }
            fv = fv * 10 + ((c as u32 - 48) as i64);
            flen += 1;
            f += 1;
        }
        proof {
            assert(fp.take(fp.len() as int) =~= fp);
        }
    } else {
        proof {
            assert(Seq::<char>::empty().take(0) =~= Seq::<char>::empty());
        }
    }
    let scale: i64 = if flen == 0 {
        1000
    } else if flen == 1 {
        100
    } else if flen == 2 {
        10
    } else {
        1
    };
    proof {
        lemma_pow10_twelve();
        lemma_pow10_mono((d - start) as nat, 12);
        assert(iv < 1000000000000int);
    }
    let v = iv * 1000 + fv * scale;
    proof {
        assert(ip =~= t.take(first_dot_idx(t)));
        if d < n {
            assert(canon_num(s@) == Some(
                if neg {
                    -(digits_val(ip) * 1000 + digits_val(t.skip(d - start + 1)) * frac_scale(
                        (n - d - 1) as int,
                    ))
                } else {
                    digits_val(ip) * 1000 + digits_val(t.skip(d - start + 1)) * frac_scale(
                        (n - d - 1) as int,
                    )
                },
            ));
        } else {
            assert(canon_num(s@) == Some(
                if neg {
                    -(digits_val(ip) * 1000)
                } else {
                    digits_val(ip) * 1000
                },
            ));
        }
        assert(iv * 1000 <= 1000000000000int * 1000);
        assert(fv * scale <= 999 * 1000);
    }
    if neg {
        CoordValue::Num(-v)
    } else {
        CoordValue::Num(v)
    }
}

proof fn lemma_digits_val_bound(s: Seq<char>)
    requires
        all_digits(s),
    ensures
        0 <= digits_val(s) < pow10(s.len()),
    decreases s.len(),
{
    if s.len() > 0 {
        assert(all_digits(s.drop_last()));
        lemma_digits_val_bound(s.drop_last());
        assert(pow10(s.len()) == 10 * pow10((s.len() - 1) as nat));
        assert(0 <= digit_val(s.last()) <= 9);
    }
}

/// The value of the first field with the given name, or empty if absent.
pub fn get_field(fields: &Vec<E2KField>, name: &str) -> (r: String)
    ensures
        r@ == field_value(fields.deep_view(), name@),
{
    let ghost fv = fields.deep_view();
    let mut i: usize = 0;
    proof {
        assert(fv.skip(0) =~= fv);
    }
    while i < fields.len()
        invariant
            i <= fields@.len(),
            fv == fields.deep_view(),
            fv.len() == fields@.len(),
            field_value(fv, name@) == field_value(fv.skip(i as int), name@),
        decreases fields@.len() - i,
    {
        proof {
            assert(fv[i as int] == fields@[i as int]@);
            assert(fv.skip(i as int)[0] == fv[i as int]);
        }
        if str_eq(fields[i].name.as_str(), name) {
            return fields[i].value.clone();
        }
        proof {
            assert(fv.skip(i as int).skip(1) =~= fv.skip(i as int + 1));
        }
        i += 1;
    }
    proof {
        assert(fv.skip(fields@.len() as int).len() == 0);
    }
    String::new()
}

/// Append the canonical value of one named endpoint field, if present.
fn push_ep(fields: &Vec<E2KField>, name: &str, eps: &mut Vec<CoordValue>)
    ensures
        final(eps).deep_view() == old(eps).deep_view() + ep_of(fields.deep_view(), name@),
{
    match crate::e2k::find_field(fields, name) {
        Some(v) => {
            let ghost before = eps.deep_view();
            let cv = canon_value(v.as_str());
            eps.push(cv);
            proof {
                assert(eps.deep_view() =~= before.push(cv@));
                assert(before.push(cv@) =~= before + ep_of(fields.deep_view(), name@));
            }
        },
        None => {
            proof {
                assert(eps.deep_view() =~= eps.deep_view() + ep_of(
                    fields.deep_view(),
                    name@,
                ));
            }
        },
    }
}

/// Extract the normalized members of a parsed record stream.  Records of
/// other categories are ignored.
pub fn extract_members(rs: &Vec<E2KRecord>) -> (r: Vec<Member>)
    ensures
        r.deep_view() == extract_spec(rs.deep_view()),
{
    let ghost rv = rs.deep_view();
    let mut members: Vec<Member> = Vec::new();
    let mut i: usize = 0;
    proof {
        assert(rv.take(0) =~= Seq::<RecV>::empty());
        assert(members.deep_view() =~= extract_spec(rv.take(0)));
    }
    while i < rs.len()
        invariant
            i <= rs@.len(),
            rv == rs.deep_view(),
            rv.len() == rs@.len(),
            members.deep_view() == extract_spec(rv.take(i as int)),
        decreases rs@.len() - i,
    {
        proof {
            assert(rv[i as int] == rs@[i as int]@);
            assert(rv.take(i as int + 1).drop_last() =~= rv.take(i as int));
            assert(rv.take(i as int + 1).last() == rv[i as int]);
        }
        let rec = &rs[i];
        let is_member = str_eq(rec.category.as_str(), "FRAME") || str_eq(
            rec.category.as_str(),
            "AREA",
        ) || str_eq(rec.category.as_str(), "JOINT");
        if is_member {
            let ghost fdv = rec.fields.deep_view();
            let mut eps: Vec<CoordValue> = Vec::new();
            push_ep(&rec.fields, "x", &mut eps);
            push_ep(&rec.fields, "y", &mut eps);
            push_ep(&rec.fields, "z", &mut eps);
            push_ep(&rec.fields, "j1", &mut eps);
            push_ep(&rec.fields, "j2", &mut eps);
            push_ep(&rec.fields, "j3", &mut eps);
            push_ep(&rec.fields, "j4", &mut eps);
            proof {
                assert(eps.deep_view() =~= ep_list(fdv));
            }
            let section = get_field(&rec.fields, "section");
            let material = get_field(&rec.fields, "material");
            let ghost mdv = members.deep_view();
            let m = Member {
                id: rec.key.clone(),
                kind: rec.category.clone(),
                endpoints: eps,
                section,
                material,
            };
            proof {
                assert(m@ == member_of(rv[i as int]));
            }
            members.push(m);
            proof {
                assert(members.deep_view() =~= mdv.push(member_of(rv[i as int])));
                assert(members.deep_view() =~= extract_spec(rv.take(i as int + 1)));
            }
        } else {
            proof {
                assert(!is_member_cat(rv[i as int].category));
                assert(extract_spec(rv.take(i as int + 1)) =~= members.deep_view());
            }
        }
        i += 1;
    }
    proof {
        assert(rv.take(rs@.len() as int) =~= rv);
    }
    members
}

/// The result of a geometry diff: the changed member ids, each list
/// strictly sorted, and the total count.
#[derive(Clone, Debug)]
pub struct GeometryDiffResult {
    pub members_added: Vec<String>,
    pub members_removed: Vec<String>,
    pub members_modified: Vec<String>,
    pub total_changes: usize,
}

/// Whether any member of the list carries the id.
fn contains_id(ms: &Vec<Member>, id: &str) -> (r: bool)
    ensures
        r == has_id(ms.deep_view(), id@),
{
    let ghost mv = ms.deep_view();
    let mut i: usize = 0;
    while i < ms.len()
        invariant
            i <= ms@.len(),
            mv == ms.deep_view(),
            mv.len() == ms@.len(),
            forall|j: int| 0 <= j < i ==> (#[trigger] mv[j]).id != id@,
        decreases ms@.len() - i,
    {
        proof {
            assert(mv[i as int] == ms@[i as int]@);
        }
        if str_eq(ms[i].id.as_str(), id) {
            return true;
        }
        i += 1;
    }
    false
}

/// Whether the id list contains the id.
fn contains_str(ids: &Vec<String>, id: &str) -> (r: bool)
    ensures
        r == ids.deep_view().contains(id@),
{
    let ghost iv = ids.deep_view();
    let mut i: usize = 0;
    while i < ids.len()
        invariant
            i <= ids@.len(),
            iv == ids.deep_view(),
            iv.len() == ids@.len(),
            forall|j: int| 0 <= j < i ==> iv[j] != id@,
        decreases ids@.len() - i,
    {
        proof {
            assert(iv[i as int] == ids@[i as int]@);
        }
        if str_eq(ids[i].as_str(), id) {
            proof {
                assert(iv.contains(id@));
            }
            return true;
        }
        i += 1;
    }
    proof {
        assert(!iv.contains(id@));
    }
    false
}

/// The first member carrying an id.
fn find_first_id(ms: &Vec<Member>, id: &str) -> (r: usize)
    requires
        has_id(ms.deep_view(), id@),
    ensures
        r < ms@.len(),
        ms.deep_view()[r as int] == first_with_id(ms.deep_view(), id@),
        ms.deep_view()[r as int].id == id@,
{
    let ghost mv = ms.deep_view();
    let mut i: usize = 0;
    proof {
        assert(mv.skip(0) =~= mv);
    }
    while i < ms.len()
        invariant
            i <= ms@.len(),
            mv == ms.deep_view(),
            mv.len() == ms@.len(),
            first_with_id(mv, id@) == first_with_id(mv.skip(i as int), id@),
            has_id(mv.skip(i as int), id@),
        decreases ms@.len() - i,
    {
        proof {
            assert(mv[i as int] == ms@[i as int]@);
            assert(mv.skip(i as int)[0] == mv[i as int]);
        }
        if str_eq(ms[i].id.as_str(), id) {
            return i;
        }
        proof {
            assert(mv.skip(i as int).skip(1) =~= mv.skip(i as int + 1));
            let tail = mv.skip(i as int);
            let w = choose|w: int| 0 <= w < tail.len() && (#[trigger] tail[w]).id == id@;
            assert(tail.skip(1)[w - 1] == tail[w]);
            assert(has_id(mv.skip(i as int + 1), id@));
        }
        i += 1;
    }
    proof {
        assert(mv.skip(i as int).len() == 0);
        assert(false);
    }
    0
}

/// Whether two members agree in everything but their id.
fn attrs_eq(a: &Member, b: &Member) -> (r: bool)
    ensures
        r == same_attrs(a@, b@),
{
    let ghost ae = a.endpoints.deep_view();
    let ghost be = b.endpoints.deep_view();
    if !str_eq(a.kind.as_str(), b.kind.as_str()) {
        return false;
    }
    if !str_eq(a.section.as_str(), b.section.as_str()) {
        return false;
    }
    if !str_eq(a.material.as_str(), b.material.as_str()) {
        return false;
    }
    if a.endpoints.len() != b.endpoints.len() {
        proof {
            assert(ae.len() != be.len());
        }
        return false;
    }
    let mut i: usize = 0;
    while i < a.endpoints.len()
        invariant
            i <= a.endpoints@.len() == b.endpoints@.len(),
            ae == a.endpoints.deep_view(),
            be == b.endpoints.deep_view(),
            ae.len() == a.endpoints@.len(),
            be.len() == b.endpoints@.len(),
            a@.kind == b@.kind && a@.section == b@.section && a@.material == b@.material,
            forall|j: int| 0 <= j < i ==> ae[j] == be[j],
        decreases a.endpoints@.len() - i,
    {
        proof {
            assert(ae[i as int] == a.endpoints@[i as int]@);
            assert(be[i as int] == b.endpoints@[i as int]@);
        }
        let same = match (&a.endpoints[i], &b.endpoints[i]) {
            (CoordValue::Num(x), CoordValue::Num(y)) => *x == *y,
            (CoordValue::Text(x), CoordValue::Text(y)) => str_eq(x.as_str(), y.as_str()),
            _ => false,
        };
        if !same {
            proof {
                assert(ae[i as int] != be[i as int]);
            }
            return false;
        }
        i += 1;
    }
    proof {
        assert(ae =~= be);
    }
    true
}

/// Where an id stands, or would stand, in a strictly sorted id list: the
/// first position not strictly below it, and whether it is already there.
fn find_id_pos(ids: &Vec<String>, id: &str) -> (res: (usize, bool))
    ensures
        res.0 <= ids@.len(),
        forall|j: int| 0 <= j < res.0 ==> lex_lt(#[trigger] ids.deep_view()[j], id@),
        res.1 ==> res.0 < ids@.len() && ids.deep_view()[res.0 as int] == id@,
        !res.1 && res.0 < ids@.len() ==> !crate::strutil::lex_le(
            ids.deep_view()[res.0 as int],
            id@,
        ),
{
    let ghost dv = ids.deep_view();
    let mut pos: usize = 0;
    while pos < ids.len()
        invariant
            pos <= ids@.len(),
            dv == ids.deep_view(),
            dv.len() == ids@.len(),
            forall|j: int| 0 <= j < pos ==> lex_lt(#[trigger] dv[j], id@),
        decreases ids@.len() - pos,
    {
        proof {
            assert(dv[pos as int] == ids@[pos as int]@);
        }
        if str_eq(ids[pos].as_str(), id) {
            return (pos, true);
        }
        if !str_le(ids[pos].as_str(), id) {
            return (pos, false);
        }
        proof {
            assert(lex_lt(dv[pos as int], id@));
        }
        pos += 1;
    }
    (pos, false)
}

/// Insert an id into a strictly sorted id list, keeping it strictly sorted;
/// inserting an id that is already present changes nothing.
fn insert_id_sorted(ids: &mut Vec<String>, id: &String)
    requires
        strictly_sorted(old(ids).deep_view()),
    ensures
        strictly_sorted(final(ids).deep_view()),
        forall|x: Seq<char>|
            #[trigger] final(ids).deep_view().contains(x) <==> (old(ids).deep_view().contains(x)
                || x == id@),
        final(ids)@.len() <= old(ids)@.len() + 1,
{
    let ghost before = ids.deep_view();
    let found = find_id_pos(ids, id.as_str());
    let pos = found.0;
    if found.1 {
        // already present: membership and order unchanged
        proof {
            assert(before.contains(id@));
        }
        return ;
    }
    // every earlier entry is strictly below id; everything from pos on is
    // strictly above it
    proof {
        assert forall|j: int| pos <= j < before.len() implies lex_lt(id@, #[trigger] before[j]) by {
            lemma_lex_total(before[pos as int], id@);
            if j > pos {
                lemma_lex_lt_trans(id@, before[pos as int], before[j]);
            }
        }
    }
    let ghost pi = pos as int;
    ids.insert(pos, id.clone());
    proof {
        assert(ids.deep_view() =~= before.insert(pi, id@));
        before.insert_ensures(pi, id@);
        let nv2 = ids.deep_view();
        assert forall|p: int, q: int| 0 <= p < q < nv2.len() implies lex_lt(
            #[trigger] nv2[p],
            #[trigger] nv2[q],
        ) by {
            if q < pi {
                assert(nv2[p] == before[p] && nv2[q] == before[q]);
            } else if p > pi {
                assert(nv2[p] == before[p - 1] && nv2[q] == before[q - 1]);
            } else if p < pi && q == pi {
                assert(nv2[p] == before[p] && nv2[q] == id@);
            } else if p == pi && q > pi {
                assert(nv2[p] == id@ && nv2[q] == before[q - 1]);
            } else {
                assert(nv2[p] == before[p] && nv2[q] == before[q - 1]);
                if q - 1 == p {
                    assert(false);
                }
            }
        }
        assert forall|x: Seq<char>| #[trigger] nv2.contains(x) implies (before.contains(x) || x
            == id@) by {
            let w = choose|w: int| 0 <= w < nv2.len() && nv2[w] == x;
            if w < pi {
                assert(before[w] == x);
            } else if w > pi {
                assert(before[w - 1] == x);
            }
        }
        assert forall|x: Seq<char>| before.contains(x) || x == id@ implies #[trigger] nv2.contains(
            x,
        ) by {
            if before.contains(x) {
                let w = choose|w: int| 0 <= w < before.len() && before[w] == x;
                if w < pi {
                    assert(nv2[w] == x);
                } else {
                    assert(nv2[w + 1] == x);
                }
            } else {
                assert(nv2[pi] == x);
            }
        }
    }
}

/// Geometry diff of two member sets, keyed by member id.
///
/// An id of the new side absent from the old side is added; one of the old
/// side absent from the new side is removed; one present on both sides
/// whose first member differs in attributes is modified.  Each list is
/// strictly sorted, and the three lists are pairwise disjoint.
pub fn diff_geometry(old: &Vec<Member>, new: &Vec<Member>) -> (r: GeometryDiffResult)
    requires
        old@.len() + new@.len() <= usize::MAX,
    ensures
        forall|x: Seq<char>|
            #[trigger] r.members_added.deep_view().contains(x) <==> (has_id(new.deep_view(), x)
                && !has_id(old.deep_view(), x)),
        forall|x: Seq<char>|
            #[trigger] r.members_removed.deep_view().contains(x) <==> (has_id(old.deep_view(), x)
                && !has_id(new.deep_view(), x)),
        forall|x: Seq<char>|
            #[trigger] r.members_modified.deep_view().contains(x) <==> is_modified_id(
                old.deep_view(),
                new.deep_view(),
                x,
            ),
        strictly_sorted(r.members_added.deep_view()),
        strictly_sorted(r.members_removed.deep_view()),
        strictly_sorted(r.members_modified.deep_view()),
        r.total_changes == r.members_added@.len() + r.members_removed@.len()
            + r.members_modified@.len(),
{
    let ghost ov = old.deep_view();
    let ghost nv = new.deep_view();
    let mut added: Vec<String> = Vec::new();
    let mut modified: Vec<String> = Vec::new();
    let mut removed: Vec<String> = Vec::new();
    let mut i: usize = 0;
    proof {
        assert(nv.take(0) =~= Seq::<MemberV>::empty());
    }
    // One pass over the new members decides added and modified ids.
    while i < new.len()
        invariant
            i <= new@.len(),
            ov == old.deep_view(),
            nv == new.deep_view(),
            nv.len() == new@.len(),
            ov.len() == old@.len(),
            forall|x: Seq<char>|
                #[trigger] added.deep_view().contains(x) <==> (has_id(nv.take(i as int), x)
                    && !has_id(ov, x)),
            forall|x: Seq<char>|
                #[trigger] modified.deep_view().contains(x) <==> (has_id(nv.take(i as int), x)
                    && is_modified_id(ov, nv, x)),
            strictly_sorted(added.deep_view()),
            strictly_sorted(modified.deep_view()),
            added@.len() + modified@.len() <= i,
        decreases new@.len() - i,
    {
        let m = &new[i];
        proof {
            assert(nv[i as int] == new@[i as int]@);
        }
        let ghost mid = nv[i as int].id;
        proof {
            assert(nv.take(i as int + 1)[i as int] == nv[i as int]);
            assert(has_id(nv.take(i as int + 1), mid));
            assert forall|x: Seq<char>| has_id(nv.take(i as int + 1), x) && x != mid implies
                has_id(nv.take(i as int), x) by {
                let w = choose|w: int|
                    0 <= w < nv.take(i as int + 1).len() && (#[trigger] nv.take(i as int + 1)[w]).id
                        == x;
                assert(nv.take(i as int)[w] == nv.take(i as int + 1)[w]);
            };
            assert forall|x: Seq<char>| has_id(nv.take(i as int), x) implies has_id(
                nv.take(i as int + 1),
                x,
            ) by {
                let w = choose|w: int|
                    0 <= w < nv.take(i as int).len() && (#[trigger] nv.take(i as int)[w]).id == x;
                assert(nv.take(i as int + 1)[w] == nv.take(i as int)[w]);
            };
        }
        if !contains_id(old, m.id.as_str()) {
            // not on the old side: an added id
            insert_id_sorted(&mut added, &m.id);
        } else {
            // on both sides: modified when the first members differ
            if contains_id(new, m.id.as_str()) {
                let oi = find_first_id(old, m.id.as_str());
                let ni = find_first_id(new, m.id.as_str());
                let same = attrs_eq(&old[oi], &new[ni]);
                proof {
                    assert(ov[oi as int] == old@[oi as int]@);
                    assert(nv[ni as int] == new@[ni as int]@);
                }
                if !same {
                    insert_id_sorted(&mut modified, &m.id);
                }
            }
        }
        i += 1;
    }
    proof {
        assert(nv.take(new@.len() as int) =~= nv);
    }
    // One pass over the old members decides removed ids.
    let mut j: usize = 0;
    proof {
        assert(ov.take(0) =~= Seq::<MemberV>::empty());
    }
    while j < old.len()
        invariant
            j <= old@.len(),
            ov == old.deep_view(),
            nv == new.deep_view(),
            nv.len() == new@.len(),
            ov.len() == old@.len(),
            forall|x: Seq<char>|
                #[trigger] removed.deep_view().contains(x) <==> (has_id(ov.take(j as int), x)
                    && !has_id(nv, x)),
            strictly_sorted(removed.deep_view()),
            removed@.len() <= j,
        decreases old@.len() - j,
    {
        let m = &old[j];
        proof {
            assert(ov[j as int] == old@[j as int]@);
        }
        let ghost mid = ov[j as int].id;
        proof {
            assert(ov.take(j as int + 1)[j as int] == ov[j as int]);
            assert(has_id(ov.take(j as int + 1), mid));
            assert forall|x: Seq<char>| has_id(ov.take(j as int + 1), x) && x != mid implies
                has_id(ov.take(j as int), x) by {
                let w = choose|w: int|
                    0 <= w < ov.take(j as int + 1).len() && (#[trigger] ov.take(j as int + 1)[w]).id
                        == x;
                assert(ov.take(j as int)[w] == ov.take(j as int + 1)[w]);
            };
            assert forall|x: Seq<char>| has_id(ov.take(j as int), x) implies has_id(
                ov.take(j as int + 1),
                x,
            ) by {
                let w = choose|w: int|
                    0 <= w < ov.take(j as int).len() && (#[trigger] ov.take(j as int)[w]).id == x;
                assert(ov.take(j as int + 1)[w] == ov.take(j as int)[w]);
            };
        }
        if !contains_id(new, m.id.as_str()) {
            insert_id_sorted(&mut removed, &m.id);
        }
        j += 1;
    }
    proof {
        assert(ov.take(old@.len() as int) =~= ov);
    }
    let total = added.len() + modified.len() + removed.len();
    GeometryDiffResult {
        members_added: added,
        members_removed: removed,
        members_modified: modified,
        total_changes: total,
    }
}

} // verus!
