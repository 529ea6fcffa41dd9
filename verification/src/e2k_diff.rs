//! E2K diff engine: structured diff over two parsed record streams.
//!
//! Records are grouped by `(category, key)`.  Occurrences of one key are
//! paired positionally; a paired occurrence whose fields differ is a
//! "modify", a surplus occurrence on the new side is an "add", a surplus on
//! the old side is a "remove".  Changes come back sorted by category then
//! key, together with a deterministic line-based rendering of both streams.

use vstd::prelude::*;
use vstd::multiset::Multiset;
use vstd::seq_lib::lemma_multiset_commutative;
use vstd::string::{StrSliceExecFns, StringExecFns};
use crate::e2k::{fields_match, fields_match_exec, lemma_fields_match_sym, E2KField, E2KRecord, FieldV, RecV};
use crate::strutil::{lex_le, lex_lt, lemma_lex_le_trans, lemma_lex_total, str_eq, str_le};

verus! {

/// The grouping key of a record: its category and its record key.
pub open spec fn rkey(r: RecV) -> (Seq<char>, Seq<char>) {
    (r.category, r.key)
}

/// The records of one key, in order of appearance.
pub open spec fn with_key(rs: Seq<RecV>, k: (Seq<char>, Seq<char>)) -> Seq<RecV> {
    rs.filter(|r: RecV| rkey(r) == k)
}

/// How many records of one key appear.
pub open spec fn cnt(rs: Seq<RecV>, k: (Seq<char>, Seq<char>)) -> nat {
    with_key(rs, k).len()
}

/// How many records share the key of `rs[i]` strictly before `i`: the
/// occurrence index of `rs[i]` within its key.
pub open spec fn occ_before(rs: Seq<RecV>, i: int) -> nat {
    cnt(rs.take(i), rkey(rs[i]))
}

/// Whether `rs[i]` has no positional partner in `base`: its occurrence
/// index is beyond the number of same-key records in `base`.
pub open spec fn is_surplus(base: Seq<RecV>, rs: Seq<RecV>, i: int) -> bool {
    occ_before(rs, i) >= cnt(base, rkey(rs[i]))
}

/// Whether `new[i]` is paired with an old occurrence whose fields denote a
/// different name-to-value mapping (field order and repetition are
/// formatting, not a change).
pub open spec fn is_changed(old: Seq<RecV>, new: Seq<RecV>, i: int) -> bool {
    &&& occ_before(new, i) < cnt(old, rkey(new[i]))
    &&& !fields_match(with_key(old, rkey(new[i]))[occ_before(new, i) as int].fields, new[i].fields)
}

/// Spec-level value of one reported change.
pub struct ChangeV {
    pub change_type: Seq<char>,
    pub category: Seq<char>,
    pub description: Seq<char>,
    pub old_value: Option<Seq<char>>,
    pub new_value: Option<Seq<char>>,
}

/// A serialized snapshot of a record's fields.
pub open spec fn render_fields(fs: Seq<FieldV>) -> Seq<char>
    decreases fs.len(),
{
    if fs.len() == 0 {
        Seq::empty()
    } else {
        render_fields(fs.drop_last()) + fs.last().name + seq!['='] + fs.last().value + seq![';']
    }
}

/// The change reported for a surplus new record.
pub open spec fn add_change_at(rs: Seq<RecV>, i: int) -> ChangeV {
    ChangeV {
        change_type: "add"@,
        category: rs[i].category,
        description: rs[i].key,
        old_value: None,
        new_value: Some(render_fields(rs[i].fields)),
    }
}

/// The change reported for a surplus old record.
pub open spec fn rem_change_at(rs: Seq<RecV>, i: int) -> ChangeV {
    ChangeV {
        change_type: "remove"@,
        category: rs[i].category,
        description: rs[i].key,
        old_value: Some(render_fields(rs[i].fields)),
        new_value: None,
    }
}

/// The change reported for a paired record whose fields differ.
pub open spec fn mod_change_at(old: Seq<RecV>, new: Seq<RecV>, i: int) -> ChangeV {
    ChangeV {
        change_type: "modify"@,
        category: new[i].category,
        description: new[i].key,
        old_value: Some(render_fields(with_key(old, rkey(new[i]))[occ_before(new, i) as int].fields)),
        new_value: Some(render_fields(new[i].fields)),
    }
}

/// All "add" changes, in order of the surplus records on the new side.
pub open spec fn add_changes(old: Seq<RecV>, new: Seq<RecV>) -> Seq<ChangeV>
    decreases new.len(),
{
    if new.len() == 0 {
        Seq::empty()
    } else {
        add_changes(old, new.drop_last()) + if is_surplus(old, new, new.len() - 1) {
            seq![add_change_at(new, new.len() - 1)]
        } else {
            Seq::empty()
        }
    }
}

/// All "remove" changes, in order of the surplus records on the old side.
pub open spec fn rem_changes(old: Seq<RecV>, new: Seq<RecV>) -> Seq<ChangeV>
    decreases old.len(),
{
    if old.len() == 0 {
        Seq::empty()
    } else {
        rem_changes(old.drop_last(), new) + if is_surplus(new, old, old.len() - 1) {
            seq![rem_change_at(old, old.len() - 1)]
        } else {
            Seq::empty()
        }
    }
}

/// All "modify" changes, in order of the changed records on the new side.
pub open spec fn mod_changes(old: Seq<RecV>, new: Seq<RecV>) -> Seq<ChangeV>
    decreases new.len(),
{
    if new.len() == 0 {
        Seq::empty()
    } else {
        mod_changes(old, new.drop_last()) + if is_changed(old, new, new.len() - 1) {
            seq![mod_change_at(old, new, new.len() - 1)]
        } else {
            Seq::empty()
        }
    }
}

/// The number of new records without a partner.
pub open spec fn added_cnt(old: Seq<RecV>, new: Seq<RecV>) -> nat {
    add_changes(old, new).len()
}

/// The number of old records without a partner.
pub open spec fn removed_cnt(old: Seq<RecV>, new: Seq<RecV>) -> nat {
    rem_changes(old, new).len()
}

/// The number of paired records whose fields differ.
pub open spec fn modified_cnt(old: Seq<RecV>, new: Seq<RecV>) -> nat {
    mod_changes(old, new).len()
}

/// Every change of a diff, before sorting: modifies, then adds, then removes.
pub open spec fn spec_changes(old: Seq<RecV>, new: Seq<RecV>) -> Seq<ChangeV> {
    mod_changes(old, new) + add_changes(old, new) + rem_changes(old, new)
}

/// Order of reported changes: by category, then by key.
pub open spec fn change_le(a: ChangeV, b: ChangeV) -> bool {
    lex_lt(a.category, b.category) || (a.category == b.category && lex_le(
        a.description,
        b.description,
    ))
}

/// Whether a change list is sorted by category then key.
pub open spec fn sorted_changes(cs: Seq<ChangeV>) -> bool {
    forall|i: int, j: int| 0 <= i < j < cs.len() ==> change_le(#[trigger] cs[i], #[trigger] cs[j])
}

/// The number of changes of one type.
pub open spec fn count_type(cs: Seq<ChangeV>, t: Seq<char>) -> nat {
    cs.filter(|c: ChangeV| c.change_type == t).len()
}

/// One rendered line of a record stream.
pub open spec fn render_record(r: RecV) -> Seq<char> {
    r.category + seq![' '] + r.key + seq![' '] + render_fields(r.fields)
}

/// A rendered record stream: one signed line per record.
pub open spec fn render_stream(rs: Seq<RecV>, sign: char) -> Seq<char>
    decreases rs.len(),
{
    if rs.len() == 0 {
        Seq::empty()
    } else {
        render_stream(rs.drop_last(), sign) + seq![sign] + render_record(rs.last()) + seq!['\n']
    }
}

/// The raw display rendering of a diff: both streams, old lines signed `-`,
/// new lines signed `+`.
pub open spec fn render_diff(old: Seq<RecV>, new: Seq<RecV>) -> Seq<char> {
    "--- old\n"@ + render_stream(old, '-') + "+++ new\n"@ + render_stream(new, '+')
}

// ---------------------------------------------------------------------------
// Lemmas
// ---------------------------------------------------------------------------

/// Filtering distributes over taking one more element.
pub proof fn lemma_with_key_step(rs: Seq<RecV>, k: (Seq<char>, Seq<char>), i: int)
    requires
        0 <= i < rs.len(),
    ensures
        with_key(rs.take(i + 1), k) == if rkey(rs[i]) == k {
            with_key(rs.take(i), k).push(rs[i])
        } else {
            with_key(rs.take(i), k)
        },
{
    reveal(Seq::filter);
    assert(rs.take(i + 1).drop_last() =~= rs.take(i));
    assert(rs.take(i + 1).last() == rs[i]);
}

/// A key's count over a prefix never exceeds its count over the whole.
pub proof fn lemma_cnt_take_le(rs: Seq<RecV>, k: (Seq<char>, Seq<char>), m: int)
    requires
        0 <= m <= rs.len(),
    ensures
        cnt(rs.take(m), k) <= cnt(rs, k),
        forall|j: int|
            0 <= j < cnt(rs.take(m), k) ==> #[trigger] with_key(rs, k)[j] == with_key(
                rs.take(m),
                k,
            )[j],
{
    assert(rs =~= rs.take(m) + rs.skip(m));
    Seq::filter_distributes_over_add(rs.take(m), rs.skip(m), |r: RecV| rkey(r) == k);
    assert(with_key(rs, k) == with_key(rs.take(m), k) + with_key(rs.skip(m), k));
}

/// Whether `rs[i]` is surplus or changed does not depend on the records
/// after position `m > i`.
pub proof fn lemma_status_take(base: Seq<RecV>, rs: Seq<RecV>, m: int, i: int)
    requires
        0 <= i < m <= rs.len(),
    ensures
        is_surplus(base, rs.take(m), i) == is_surplus(base, rs, i),
        is_changed(base, rs.take(m), i) == is_changed(base, rs, i),
{
    assert(rs.take(m).take(i) =~= rs.take(i));
    assert(rs.take(m)[i] == rs[i]);
}

/// The occurrence index of `rs[i]` is a valid index into its key's
/// occurrence list, and that list pairs it back to `rs[i]` itself.
pub proof fn lemma_nth_occ(rs: Seq<RecV>, i: int)
    requires
        0 <= i < rs.len(),
    ensures
        occ_before(rs, i) < cnt(rs, rkey(rs[i])),
        with_key(rs, rkey(rs[i]))[occ_before(rs, i) as int] == rs[i],
{
    let k = rkey(rs[i]);
    lemma_with_key_step(rs, k, i);
    assert(cnt(rs.take(i + 1), k) == cnt(rs.take(i), k) + 1);
    lemma_cnt_take_le(rs, k, i + 1);
    assert(with_key(rs.take(i + 1), k)[occ_before(rs, i) as int] == rs[i]);
}

/// A record stream compared against itself has no surplus and no changed
/// position.
pub proof fn lemma_self_no_change(a: Seq<RecV>, i: int)
    requires
        0 <= i < a.len(),
    ensures
        !is_surplus(a, a, i),
        !is_changed(a, a, i),
{
    lemma_nth_occ(a, i);
}

/// Diffing a record stream against itself yields no changes at all.
pub proof fn lemma_diff_self(a: Seq<RecV>)
    ensures
        added_cnt(a, a) == 0,
        removed_cnt(a, a) == 0,
        modified_cnt(a, a) == 0,
        spec_changes(a, a).len() == 0,
{
    lemma_self_zero_upto(a, a.len() as int);
    assert(a.take(a.len() as int) =~= a);
}

proof fn lemma_self_zero_upto(a: Seq<RecV>, m: int)
    requires
        0 <= m <= a.len(),
    ensures
        add_changes(a, a.take(m)).len() == 0,
        rem_changes(a.take(m), a).len() == 0,
        mod_changes(a, a.take(m)).len() == 0,
    decreases m,
{
    if m == 0 {
        assert(a.take(0) =~= Seq::<RecV>::empty());
    } else {
        lemma_self_zero_upto(a, m - 1);
        let p = a.take(m);
        assert(p.drop_last() =~= a.take(m - 1));
        lemma_status_take(a, a, m, m - 1);
        lemma_self_no_change(a, m - 1);
        assert(p[m - 1] == a[m - 1]);
        assert(!is_surplus(a, p, m - 1) && !is_changed(a, p, m - 1)) by {
            assert(p.take(m - 1) =~= a.take(m - 1));
        }
        // The remove side walks the old stream, whose last element is a[m-1]
        // compared against all of a, never surplus.
        assert(!is_surplus(a, a.take(m), m - 1));
    }
}

/// The diff is anti-symmetric: the remove changes of one direction count
/// exactly the add changes of the opposite direction, and the modify
/// counts of the two directions coincide.
pub proof fn lemma_diff_antisymmetric(a: Seq<RecV>, b: Seq<RecV>)
    ensures
        added_cnt(a, b) == removed_cnt(b, a),
        removed_cnt(a, b) == added_cnt(b, a),
        modified_cnt(a, b) == modified_cnt(b, a),
{
    lemma_add_rem_swap(a, b);
    lemma_add_rem_swap(b, a);
    lemma_modified_symmetric(a, b);
}

/// Whether appending `x` to the base side pairs it with a differing record
/// of `rs`: `x` becomes the `cnt(base, k)`-th occurrence of its key.
spec fn pairs_changed(base: Seq<RecV>, x: RecV, rs: Seq<RecV>) -> bool {
    let k = rkey(x);
    let j = cnt(base, k);
    j < cnt(rs, k) && !fields_match(with_key(rs, k)[j as int].fields, x.fields)
}

/// Filtering distributes over a push.
proof fn lemma_with_key_push(s: Seq<RecV>, x: RecV, q: (Seq<char>, Seq<char>))
    ensures
        with_key(s.push(x), q) == if rkey(x) == q {
            with_key(s, q).push(x)
        } else {
            with_key(s, q)
        },
{
    reveal(Seq::filter);
    assert(s.push(x).drop_last() =~= s);
    assert(s.push(x).last() == x);
}

/// Against an empty old side nothing is paired, so nothing is modified.
proof fn lemma_mod_cnt_empty(rs: Seq<RecV>)
    ensures
        mod_changes(Seq::<RecV>::empty(), rs).len() == 0,
    decreases rs.len(),
{
    reveal(Seq::filter);
    if rs.len() != 0 {
        lemma_mod_cnt_empty(rs.drop_last());
        let m = rs.len() - 1;
        assert(cnt(Seq::<RecV>::empty(), rkey(rs[m])) == 0);
        assert(!is_changed(Seq::<RecV>::empty(), rs, m));
    }
}

/// Appending one record to the old side adds exactly one modify when the
/// new occurrence pairs with a differing record, and none otherwise.
proof fn lemma_mod_base_extend(base: Seq<RecV>, x: RecV, rs: Seq<RecV>)
    ensures
        mod_changes(base.push(x), rs).len() == mod_changes(base, rs).len() + (
        if pairs_changed(base, x, rs) {
            1int
        } else {
            0
        }),
    decreases rs.len(),
{
    let b2 = base.push(x);
    let k = rkey(x);
    let j = cnt(base, k);
    lemma_with_key_push(base, x, k);
    if rs.len() == 0 {
        reveal(Seq::filter);
        assert(cnt(rs, k) == 0);
        assert(!pairs_changed(base, x, rs));
    } else {
        let a2 = rs.drop_last();
        let m = rs.len() - 1;
        lemma_mod_base_extend(base, x, a2);
        let km = rkey(rs[m]);
        let om = occ_before(rs, m);
        lemma_with_key_push(base, x, km);
        assert(rs =~= a2.push(rs[m]));
        lemma_with_key_push(a2, rs[m], km);
        lemma_with_key_push(a2, rs[m], k);
        assert(rs.take(m) =~= a2);
        assert(om == cnt(a2, km));
        if km == k {
            assert(with_key(rs, k) == with_key(a2, k).push(rs[m]));
            assert(cnt(rs, k) == cnt(a2, k) + 1);
            if om < j {
                assert(with_key(b2, k)[om as int] == with_key(base, k)[om as int]);
                assert(is_changed(b2, rs, m) == is_changed(base, rs, m));
                if j < cnt(a2, k) {
                    assert(with_key(rs, k)[j as int] == with_key(a2, k)[j as int]);
                }
                assert(pairs_changed(base, x, rs) == pairs_changed(base, x, a2));
            } else if om == j {
                assert(with_key(b2, k)[j as int] == x);
                assert(!is_changed(base, rs, m));
                assert(with_key(rs, k)[j as int] == rs[m]);
                assert(!pairs_changed(base, x, a2));
                lemma_fields_match_sym(x.fields, rs[m].fields);
                assert(is_changed(b2, rs, m) == !fields_match(x.fields, rs[m].fields));
                assert(pairs_changed(base, x, rs) == !fields_match(rs[m].fields, x.fields));
            } else {
                assert(!is_changed(b2, rs, m) && !is_changed(base, rs, m));
                assert(j < cnt(a2, k));
                assert(with_key(rs, k)[j as int] == with_key(a2, k)[j as int]);
                assert(pairs_changed(base, x, rs) == pairs_changed(base, x, a2));
            }
        } else {
            assert(with_key(b2, km) == with_key(base, km));
            assert(is_changed(b2, rs, m) == is_changed(base, rs, m));
            assert(with_key(rs, k) == with_key(a2, k));
            assert(pairs_changed(base, x, rs) == pairs_changed(base, x, a2));
        }
    }
}

/// The modify counts of the two directions coincide: occurrences of one
/// key are paired positionally, and a differing pair is one modify
/// whichever side is taken as new.
proof fn lemma_modified_symmetric(a: Seq<RecV>, b: Seq<RecV>)
    ensures
        modified_cnt(a, b) == modified_cnt(b, a),
    decreases b.len(),
{
    if b.len() == 0 {
        lemma_mod_cnt_empty(a);
        assert(b =~= Seq::<RecV>::empty());
    } else {
        let b1 = b.drop_last();
        let x = b.last();
        let m = b.len() - 1;
        lemma_modified_symmetric(a, b1);
        lemma_mod_base_extend(b1, x, a);
        assert(b1.push(x) =~= b);
        assert(b.take(m) =~= b1);
        assert(occ_before(b, m) == cnt(b1, rkey(x)));
        assert(is_changed(a, b, m) == pairs_changed(b1, x, a));
    }
}

proof fn lemma_add_rem_swap(a: Seq<RecV>, b: Seq<RecV>)
    ensures
        add_changes(a, b).len() == rem_changes(b, a).len(),
    decreases b.len(),
{
    if b.len() != 0 {
        lemma_add_rem_swap(a, b.drop_last());
    }
}

/// Filtering keeps everything when the predicate holds everywhere.
pub proof fn lemma_filter_all<A>(s: Seq<A>, p: spec_fn(A) -> bool)
    requires
        forall|i: int| 0 <= i < s.len() ==> p(#[trigger] s[i]),
    ensures
        s.filter(p) == s,
    decreases s.len(),
{
    reveal(Seq::filter);
    if s.len() != 0 {
        lemma_filter_all(s.drop_last(), p);
        assert(s.drop_last().push(s.last()) =~= s);
    }
}

/// Filtering keeps nothing when the predicate holds nowhere.
pub proof fn lemma_filter_none<A>(s: Seq<A>, p: spec_fn(A) -> bool)
    requires
        forall|i: int| 0 <= i < s.len() ==> !p(#[trigger] s[i]),
    ensures
        s.filter(p).len() == 0,
    decreases s.len(),
{
    reveal(Seq::filter);
    if s.len() != 0 {
        lemma_filter_none(s.drop_last(), p);
    }
}

/// How many elements a filter keeps depends only on the multiset of
/// elements, not on their order.
pub proof fn lemma_filter_len_multiset<A>(s: Seq<A>, p: spec_fn(A) -> bool)
    ensures
        s.filter(p).len() == s.to_multiset().filter(p).len(),
    decreases s.len(),
{
    broadcast use vstd::multiset::group_multiset_axioms;

    reveal(Seq::filter);
    s.to_multiset_ensures();
    if s.len() == 0 {
        assert(s.to_multiset() =~= Multiset::<A>::empty());
        assert(s.to_multiset().filter(p) =~= Multiset::<A>::empty());
    } else {
        let d = s.drop_last();
        let x = s.last();
        lemma_filter_len_multiset(d, p);
        d.to_multiset_ensures();
        assert(d.push(x) =~= s);
        assert(s.to_multiset() == d.to_multiset().insert(x));
        if p(x) {
            assert(s.to_multiset().filter(p) =~= d.to_multiset().filter(p).insert(x));
        } else {
            assert(s.to_multiset().filter(p) =~= d.to_multiset().filter(p));
        }
    }
}

/// Inserting anywhere adds the element to the multiset.
pub proof fn lemma_to_multiset_insert<A>(s: Seq<A>, pos: int, x: A)
    requires
        0 <= pos <= s.len(),
    ensures
        s.insert(pos, x).to_multiset() == s.to_multiset().insert(x),
{
    broadcast use vstd::multiset::group_multiset_axioms;

    let pre = s.take(pos);
    let post = s.skip(pos);
    assert(s.insert(pos, x) =~= pre + (seq![x] + post));
    lemma_multiset_commutative(pre, seq![x] + post);
    lemma_multiset_commutative(seq![x], post);
    assert(seq![x] =~= Seq::<A>::empty().push(x));
    Seq::<A>::empty().to_multiset_ensures();
    assert(Seq::<A>::empty().to_multiset() =~= Multiset::<A>::empty());
    assert(seq![x].to_multiset() =~= Multiset::<A>::empty().insert(x));
    assert(s =~= pre + post);
    lemma_multiset_commutative(pre, post);
    assert(s.insert(pos, x).to_multiset() =~= s.to_multiset().insert(x));
}

/// Every add change carries the "add" tag, and so on for the other kinds.
proof fn lemma_change_types(old: Seq<RecV>, new: Seq<RecV>)
    ensures
        forall|i: int|
            0 <= i < add_changes(old, new).len() ==> (#[trigger] add_changes(old, new)[i])
                .change_type == "add"@,
        forall|i: int|
            0 <= i < rem_changes(old, new).len() ==> (#[trigger] rem_changes(old, new)[i])
                .change_type == "remove"@,
        forall|i: int|
            0 <= i < mod_changes(old, new).len() ==> (#[trigger] mod_changes(old, new)[i])
                .change_type == "modify"@,
    decreases old.len() + new.len(),
{
    if new.len() != 0 {
        lemma_change_types(old, new.drop_last());
        assert(forall|i: int|
            0 <= i < mod_changes(old, new.drop_last()).len() ==> (#[trigger] mod_changes(
                old,
                new.drop_last(),
            )[i]).change_type == "modify"@);
    }
    if old.len() != 0 {
        lemma_change_types(old.drop_last(), new);
    }
}

/// The three change tags are pairwise distinct.
proof fn lemma_tags_distinct()
    ensures
        "add"@ != "modify"@,
        "add"@ != "remove"@,
        "modify"@ != "remove"@,
{
    reveal_strlit("add");
    reveal_strlit("modify");
    reveal_strlit("remove");
    assert("add"@.len() == 3 && "modify"@.len() == 6 && "remove"@.len() == 6);
    assert("modify"@[0] == 'm' && "remove"@[0] == 'r');
}

/// In the combined change list each tag counts exactly its own kind.
#[verifier::rlimit(50)]
pub proof fn lemma_spec_changes_counts(old: Seq<RecV>, new: Seq<RecV>)
    ensures
        count_type(spec_changes(old, new), "add"@) == added_cnt(old, new),
        count_type(spec_changes(old, new), "remove"@) == removed_cnt(old, new),
        count_type(spec_changes(old, new), "modify"@) == modified_cnt(old, new),
{
    let m = mod_changes(old, new);
    let a = add_changes(old, new);
    let r = rem_changes(old, new);
    lemma_change_types(old, new);
    lemma_tags_distinct();
    let pa = |c: ChangeV| c.change_type == "add"@;
    let pr = |c: ChangeV| c.change_type == "remove"@;
    let pm = |c: ChangeV| c.change_type == "modify"@;
    Seq::filter_distributes_over_add(m, a + r, pa);
    Seq::filter_distributes_over_add(a, r, pa);
    Seq::filter_distributes_over_add(m, a + r, pr);
    Seq::filter_distributes_over_add(a, r, pr);
    Seq::filter_distributes_over_add(m, a + r, pm);
    Seq::filter_distributes_over_add(a, r, pm);
    assert(spec_changes(old, new) == m + (a + r));
    lemma_filter_all(a, pa);
    lemma_filter_none(m, pa);
    lemma_filter_none(r, pa);
    lemma_filter_all(r, pr);
    lemma_filter_none(m, pr);
    lemma_filter_none(a, pr);
    lemma_filter_all(m, pm);
    lemma_filter_none(a, pm);
    lemma_filter_none(r, pm);
}

/// `change_le` is total.
pub proof fn lemma_change_le_total(a: ChangeV, b: ChangeV)
    ensures
        change_le(a, b) || change_le(b, a),
{
    lemma_lex_total(a.category, b.category);
    lemma_lex_total(a.description, b.description);
}

/// `change_le` is transitive.
pub proof fn lemma_change_le_trans(a: ChangeV, b: ChangeV, c: ChangeV)
    requires
        change_le(a, b),
        change_le(b, c),
    ensures
        change_le(a, c),
{
    if a.category == b.category && b.category == c.category {
        crate::strutil::lemma_lex_lt_irrefl(a.category);
        crate::strutil::lemma_lex_lt_irrefl(b.category);
        lemma_lex_le_trans(a.description, b.description, c.description);
    } else if a.category == b.category || b.category == c.category {
    } else {
        crate::strutil::lemma_lex_lt_trans(a.category, b.category, c.category);
    }
}

// ---------------------------------------------------------------------------
// Executable diff
// ---------------------------------------------------------------------------

/// An individual reported change.
#[derive(Clone, Debug)]
pub struct E2KChange {
    pub change_type: String,
    pub category: String,
    pub description: String,
    pub old_value: Option<String>,
    pub new_value: Option<String>,
}

impl View for E2KChange {
    type V = ChangeV;

    open spec fn view(&self) -> ChangeV {
        ChangeV {
            change_type: self.change_type@,
            category: self.category@,
            description: self.description@,
            old_value: self.old_value.deep_view(),
            new_value: self.new_value.deep_view(),
        }
    }
}

impl DeepView for E2KChange {
    type V = ChangeV;

    open spec fn deep_view(&self) -> ChangeV {
        self.view()
    }
}

/// The result of an E2K structured diff.  The counts equal the number of
/// changes of the corresponding type in `changes`.
#[derive(Clone, Debug)]
pub struct E2KDiffResult {
    pub added: usize,
    pub removed: usize,
    pub modified: usize,
    pub changes: Vec<E2KChange>,
    pub raw_diff: String,
}

/// Whether a record matches a grouping key.
fn key_matches(r: &E2KRecord, cat: &str, key: &str) -> (res: bool)
    ensures
        res == (rkey(r@) == (cat@, key@)),
{
    let c = str_eq(r.category.as_str(), cat);
    let k = str_eq(r.key.as_str(), key);
    proof {
        if r.category@ == cat@ && r.key@ == key@ {
            assert(rkey(r@) == (cat@, key@));
        } else {
            assert(rkey(r@) != (cat@, key@));
        }
    }
    c && k
}

/// Count the records of one key among the first `m` records.
fn count_key(rs: &Vec<E2KRecord>, m: usize, cat: &str, key: &str) -> (res: usize)
    requires
        m <= rs@.len(),
    ensures
        res == cnt(rs.deep_view().take(m as int), (cat@, key@)),
        res <= m,
{
    let ghost rv = rs.deep_view();
    let ghost k = (cat@, key@);
    let mut c: usize = 0;
    let mut i: usize = 0;
    proof {
        reveal(Seq::filter);
        assert(rv.take(0) =~= Seq::<RecV>::empty());
        assert(rv.len() == rs@.len());
    }
    while i < m
        invariant
            i <= m <= rv.len(),
            rv == rs.deep_view(),
            rv.len() == rs@.len(),
            c == cnt(rv.take(i as int), k),
            c <= i,
            k == (cat@, key@),
        decreases m - i,
    {
        proof {
            lemma_with_key_step(rv, k, i as int);
            assert(rv[i as int] == rs@[i as int]@);
        }
        if key_matches(&rs[i], cat, key) {
            c += 1;
        }
        i += 1;
    }
    c
}

/// Find the position of the `j`-th record of one key.
fn find_nth_occ(rs: &Vec<E2KRecord>, cat: &str, key: &str, j: usize) -> (res: usize)
    requires
        j < cnt(rs.deep_view(), (cat@, key@)),
    ensures
        res < rs@.len(),
        rs.deep_view()[res as int] == with_key(rs.deep_view(), (cat@, key@))[j as int],
        rkey(rs.deep_view()[res as int]) == (cat@, key@),
{
    let ghost rv = rs.deep_view();
    let ghost k = (cat@, key@);
    let mut c: usize = 0;
    let mut i: usize = 0;
    proof {
        reveal(Seq::filter);
        assert(rv.take(0) =~= Seq::<RecV>::empty());
    }
    while i < rs.len()
        invariant
            i <= rv.len(),
            rv == rs.deep_view(),
            rv.len() == rs@.len(),
            c == cnt(rv.take(i as int), k),
            c <= j < cnt(rv, k),
            k == (cat@, key@),
        decreases rv.len() - i,
    {
        proof {
            lemma_with_key_step(rv, k, i as int);
            assert(rv[i as int] == rs@[i as int]@);
        }
        if key_matches(&rs[i], cat, key) {
            if c == j {
                proof {
                    lemma_cnt_take_le(rv, k, i as int + 1);
                    assert(with_key(rv.take(i as int + 1), k)[j as int] == rv[i as int]);
                }
                return i;
            }
            c += 1;
        }
        i += 1;
    }
    proof {
        assert(rv.take(rv.len() as int) =~= rv);
        assert(false);
    }
    0
}

/// Serialize a record's fields to one snapshot string.
fn fields_to_string(fs: &Vec<E2KField>) -> (res: String)
    ensures
        res@ == render_fields(fs.deep_view()),
{
    let ghost fv = fs.deep_view();
    let mut out = String::new();
    let mut i: usize = 0;
    proof {
        assert(fv.take(0) =~= Seq::<FieldV>::empty());
        assert(render_fields(fv.take(0)) =~= Seq::<char>::empty());
    }
    while i < fs.len()
        invariant
            i <= fs@.len(),
            fv == fs.deep_view(),
            fv.len() == fs@.len(),
            out@ == render_fields(fv.take(i as int)),
        decreases fs@.len() - i,
    {
        out.append(fs[i].name.as_str());
        out.append("=");
        out.append(fs[i].value.as_str());
        out.append(";");
        proof {
            reveal_strlit("=");
            reveal_strlit(";");
            assert(fv.take(i as int + 1).drop_last() =~= fv.take(i as int));
            assert(fv.take(i as int + 1).last() == fv[i as int]);
            assert(fv[i as int] == fs@[i as int]@);
            assert("="@ =~= seq!['=']);
            assert(";"@ =~= seq![';']);
            assert(out@ =~= render_fields(fv.take(i as int + 1)));
        }
        i += 1;
    }
    proof {
        assert(fv.take(fs@.len() as int) =~= fv);
    }
    out
}

/// Render one record stream, each line signed with a leading character.
fn render_stream_exec(rs: &Vec<E2KRecord>, minus: bool) -> (res: String)
    ensures
        minus ==> res@ == render_stream(rs.deep_view(), '-'),
        !minus ==> res@ == render_stream(rs.deep_view(), '+'),
{
    let ghost rv = rs.deep_view();
    let ghost sign: char = if minus { '-' } else { '+' };
    let mut out = String::new();
    let mut i: usize = 0;
    proof {
        assert(rv.take(0) =~= Seq::<RecV>::empty());
        assert(render_stream(rv.take(0), sign) =~= Seq::<char>::empty());
    }
    while i < rs.len()
        invariant
            i <= rs@.len(),
            rv == rs.deep_view(),
            rv.len() == rs@.len(),
            minus ==> sign == '-',
            !minus ==> sign == '+',
            out@ == render_stream(rv.take(i as int), sign),
        decreases rs@.len() - i,
    {
        if minus {
            out.append("-");
        } else {
            out.append("+");
        }
        out.append(rs[i].category.as_str());
        out.append(" ");
        out.append(rs[i].key.as_str());
        out.append(" ");
        let fstr = fields_to_string(&rs[i].fields);
        out.append(fstr.as_str());
        out.append("\n");
        proof {
            reveal_strlit("-");
            reveal_strlit("+");
            reveal_strlit(" ");
            reveal_strlit("\n");
            assert("-"@ =~= seq!['-']);
            assert("+"@ =~= seq!['+']);
            assert(" "@ =~= seq![' ']);
            assert("\n"@ =~= seq!['\n']);
            assert(rv.take(i as int + 1).drop_last() =~= rv.take(i as int));
            assert(rv.take(i as int + 1).last() == rv[i as int]);
            assert(rv[i as int] == rs@[i as int]@);
            assert(out@ =~= render_stream(rv.take(i as int + 1), sign));
        }
        i += 1;
    }
    proof {
        assert(rv.take(rs@.len() as int) =~= rv);
    }
    out
}

/// Whether `a` comes no later than `b` in the change order.
fn change_le_exec(a: &E2KChange, b: &E2KChange) -> (res: bool)
    ensures
        res == change_le(a@, b@),
{
    proof {
        crate::strutil::lemma_lex_lt_irrefl(a.category@);
    }
    if str_eq(a.category.as_str(), b.category.as_str()) {
        str_le(a.description.as_str(), b.description.as_str())
    } else {
        str_le(a.category.as_str(), b.category.as_str())
    }
}

/// The position where a change belongs in a sorted list: after everything
/// that comes no later than it.
fn find_insert_pos(out: &Vec<E2KChange>, x: &E2KChange) -> (pos: usize)
    ensures
        pos <= out@.len(),
        forall|j: int| 0 <= j < pos ==> change_le(#[trigger] out.deep_view()[j], x@),
        pos < out@.len() ==> !change_le(out.deep_view()[pos as int], x@),
{
    let mut pos: usize = 0;
    while pos < out.len()
        invariant
            pos <= out@.len(),
            forall|j: int| 0 <= j < pos ==> change_le(#[trigger] out.deep_view()[j], x@),
        decreases out@.len() - pos,
    {
        let le = change_le_exec(&out[pos], x);
        proof {
            assert(out.deep_view()[pos as int] == out@[pos as int]@);
        }
        if !le {
            return pos;
        }
        pos += 1;
    }
    pos
}

/// Sort changes by category then key; the multiset of changes is kept.
fn sort_changes(v: Vec<E2KChange>) -> (res: Vec<E2KChange>)
    ensures
        res.deep_view().to_multiset() == v.deep_view().to_multiset(),
        sorted_changes(res.deep_view()),
{
    let ghost vv = v.deep_view();
    let mut v = v;
    let mut out: Vec<E2KChange> = Vec::new();
    proof {
        broadcast use vstd::multiset::group_multiset_axioms;

        assert(out.deep_view() =~= Seq::<ChangeV>::empty());
        Seq::<ChangeV>::empty().to_multiset_ensures();
        assert(out.deep_view().to_multiset() =~= Multiset::<ChangeV>::empty());
        assert(out.deep_view().to_multiset().add(v.deep_view().to_multiset()) =~= vv
            .to_multiset());
    }
    while v.len() > 0
        invariant
            out.deep_view().to_multiset().add(v.deep_view().to_multiset()) == vv.to_multiset(),
            sorted_changes(out.deep_view()),
        decreases v@.len(),
    {
        let ghost before_v = v.deep_view();
        let x = v.pop().unwrap();
        let pos = find_insert_pos(&out, &x);
        let ghost before = out.deep_view();
        let ghost pi = pos as int;
        proof {
            assert forall|j: int| pi <= j < before.len() implies change_le(
                x@,
                #[trigger] before[j],
            ) by {
                lemma_change_le_total(before[pi], x@);
                if j > pi {
                    lemma_change_le_trans(x@, before[pi], before[j]);
                }
            }
        }
        out.insert(pos, x);
        proof {
            broadcast use vstd::multiset::group_multiset_axioms;

            assert(out.deep_view() =~= before.insert(pi, x@));
            before.insert_ensures(pi, x@);
            lemma_to_multiset_insert(before, pi, x@);
            assert(v.deep_view() =~= before_v.drop_last());
            assert(before_v.drop_last().push(x@) =~= before_v);
            v.deep_view().to_multiset_ensures();
            assert(before_v.to_multiset() == v.deep_view().to_multiset().insert(x@));
            assert(out.deep_view().to_multiset() == before.to_multiset().insert(x@));
            assert(out.deep_view().to_multiset().add(v.deep_view().to_multiset()) =~= before
                .to_multiset().add(before_v.to_multiset()));
            let nv2 = out.deep_view();
            assert forall|p: int, q: int| 0 <= p < q < nv2.len() implies change_le(
                #[trigger] nv2[p],
                #[trigger] nv2[q],
            ) by {
                if q < pi {
                    assert(nv2[p] == before[p] && nv2[q] == before[q]);
                } else if p > pi {
                    assert(nv2[p] == before[p - 1] && nv2[q] == before[q - 1]);
                } else if p < pi && q == pi {
                    assert(nv2[p] == before[p] && nv2[q] == x@);
                } else if p == pi && q > pi {
                    assert(nv2[p] == x@ && nv2[q] == before[q - 1]);
                    assert(change_le(x@, before[q - 1]));
                } else {
                    // p < pi < q
                    assert(nv2[p] == before[p] && nv2[q] == before[q - 1]);
                    assert(change_le(before[p], x@));
                    assert(change_le(x@, before[q - 1]));
                    lemma_change_le_trans(before[p], x@, before[q - 1]);
                }
            }
        }
    }
    proof {
        broadcast use vstd::multiset::group_multiset_axioms;

        assert(v.deep_view() =~= Seq::<ChangeV>::empty());
        Seq::<ChangeV>::empty().to_multiset_ensures();
        assert(v.deep_view().to_multiset() =~= Multiset::<ChangeV>::empty());
        assert(out.deep_view().to_multiset() =~= vv.to_multiset());
    }
    out
}

/// Structured diff of two parsed record streams.
///
/// The counts are exactly the number of surplus and changed occurrences in
/// each direction; the change list carries one entry per counted change,
/// sorted by category then key; `raw_diff` is the deterministic rendering of
/// both streams.
pub fn diff_e2k(old: &Vec<E2KRecord>, new: &Vec<E2KRecord>) -> (r: E2KDiffResult)
    ensures
        r.added == added_cnt(old.deep_view(), new.deep_view()),
        r.removed == removed_cnt(old.deep_view(), new.deep_view()),
        r.modified == modified_cnt(old.deep_view(), new.deep_view()),
        r.changes.deep_view().to_multiset() == spec_changes(
            old.deep_view(),
            new.deep_view(),
        ).to_multiset(),
        sorted_changes(r.changes.deep_view()),
        r.added == count_type(r.changes.deep_view(), "add"@),
        r.removed == count_type(r.changes.deep_view(), "remove"@),
        r.modified == count_type(r.changes.deep_view(), "modify"@),
        r.raw_diff@ == render_diff(old.deep_view(), new.deep_view()),
{
    let ghost ov = old.deep_view();
    let ghost nv = new.deep_view();
    let mut mods: Vec<E2KChange> = Vec::new();
    let mut adds: Vec<E2KChange> = Vec::new();
    let mut rems: Vec<E2KChange> = Vec::new();
    let mut i: usize = 0;
    proof {
        assert(nv.take(0) =~= Seq::<RecV>::empty());
        assert(adds.deep_view() =~= add_changes(ov, nv.take(0)));
        assert(mods.deep_view() =~= mod_changes(ov, nv.take(0)));
    }
    // One pass over the new records: surplus occurrences become adds,
    // paired occurrences with differing fields become modifies.
    while i < new.len()
        invariant
            i <= new@.len(),
            ov == old.deep_view(),
            nv == new.deep_view(),
            nv.len() == new@.len(),
            ov.len() == old@.len(),
            adds.deep_view() == add_changes(ov, nv.take(i as int)),
            mods.deep_view() == mod_changes(ov, nv.take(i as int)),
        decreases new@.len() - i,
    {
        let cat = &new[i].category;
        let key = &new[i].key;
        proof {
            assert(nv[i as int] == new@[i as int]@);
            assert(rkey(nv[i as int]) == (cat@, key@));
        }
        let ob = count_key(new, i, cat.as_str(), key.as_str());
        let co = count_key(old, old.len(), cat.as_str(), key.as_str());
        proof {
            assert(ov.take(ov.len() as int) =~= ov);
            assert(ob == occ_before(nv, i as int));
            assert(co == cnt(ov, rkey(nv[i as int])));
            assert(nv.take(i as int + 1).drop_last() =~= nv.take(i as int));
            assert(nv.take(i as int + 1).last() == nv[i as int]);
            lemma_status_take(ov, nv, i as int + 1, i as int);
        }
        if ob >= co {
            // no partner in old: an add
            let snapshot = fields_to_string(&new[i].fields);
            let ghost adv = adds.deep_view();
            adds.push(E2KChange {
                change_type: String::from_str("add"),
                category: cat.clone(),
                description: key.clone(),
                old_value: None,
                new_value: Some(snapshot),
            });
            proof {
                assert(is_surplus(ov, nv, i as int));
                assert(adds.deep_view() =~= adv.push(add_change_at(nv, i as int)));
                assert(add_changes(ov, nv.take(i as int + 1)) =~= adv + seq![
                    add_change_at(nv.take(i as int + 1), i as int)]);
                assert(add_change_at(nv.take(i as int + 1), i as int) == add_change_at(
                    nv, i as int));
                assert(adds.deep_view() =~= add_changes(ov, nv.take(i as int + 1)));
                assert(mod_changes(ov, nv.take(i as int + 1)) =~= mods.deep_view());
            }
        } else {
            let m = find_nth_occ(old, cat.as_str(), key.as_str(), ob);
            let differs = !fields_match_exec(&old[m].fields, &new[i].fields);
            proof {
                assert(ov[m as int] == old@[m as int]@);
                assert(ov[m as int] == with_key(ov, rkey(nv[i as int]))[ob as int]);
                assert(ov[m as int].fields == old@[m as int]@.fields);
            }
            if differs {
                let old_snapshot = fields_to_string(&old[m].fields);
                let new_snapshot = fields_to_string(&new[i].fields);
                let ghost mdv = mods.deep_view();
                mods.push(E2KChange {
                    change_type: String::from_str("modify"),
                    category: cat.clone(),
                    description: key.clone(),
                    old_value: Some(old_snapshot),
                    new_value: Some(new_snapshot),
                });
                proof {
                    assert(is_changed(ov, nv, i as int));
                    assert(mods.deep_view() =~= mdv.push(mod_change_at(ov, nv, i as int)));
                    assert(mod_change_at(ov, nv.take(i as int + 1), i as int) == mod_change_at(
                        ov, nv, i as int));
                    assert(mods.deep_view() =~= mod_changes(ov, nv.take(i as int + 1)));
                    assert(add_changes(ov, nv.take(i as int + 1)) =~= adds.deep_view());
                }
            } else {
                proof {
                    assert(!is_changed(ov, nv, i as int));
                    assert(!is_surplus(ov, nv, i as int));
                    assert(add_changes(ov, nv.take(i as int + 1)) =~= adds.deep_view());
                    assert(mod_changes(ov, nv.take(i as int + 1)) =~= mods.deep_view());
                }
            }
        }
        i += 1;
    }
    proof {
        assert(nv.take(new@.len() as int) =~= nv);
    }
    // One pass over the old records: surplus occurrences become removes.
    let mut j: usize = 0;
    proof {
        assert(ov.take(0) =~= Seq::<RecV>::empty());
        assert(rems.deep_view() =~= rem_changes(ov.take(0), nv));
    }
    while j < old.len()
        invariant
            j <= old@.len(),
            ov == old.deep_view(),
            nv == new.deep_view(),
            nv.len() == new@.len(),
            ov.len() == old@.len(),
            rems.deep_view() == rem_changes(ov.take(j as int), nv),
        decreases old@.len() - j,
    {
        let cat = &old[j].category;
        let key = &old[j].key;
        proof {
            assert(ov[j as int] == old@[j as int]@);
            assert(rkey(ov[j as int]) == (cat@, key@));
        }
        let ob = count_key(old, j, cat.as_str(), key.as_str());
        let cn = count_key(new, new.len(), cat.as_str(), key.as_str());
        proof {
            assert(nv.take(nv.len() as int) =~= nv);
            assert(ob == occ_before(ov, j as int));
            assert(cn == cnt(nv, rkey(ov[j as int])));
            assert(ov.take(j as int + 1).drop_last() =~= ov.take(j as int));
            assert(ov.take(j as int + 1).last() == ov[j as int]);
            lemma_status_take(nv, ov, j as int + 1, j as int);
        }
        if ob >= cn {
            let snapshot = fields_to_string(&old[j].fields);
            let ghost rdv = rems.deep_view();
            rems.push(E2KChange {
                change_type: String::from_str("remove"),
                category: cat.clone(),
                description: key.clone(),
                old_value: Some(snapshot),
                new_value: None,
            });
            proof {
                assert(is_surplus(nv, ov, j as int));
                assert(rems.deep_view() =~= rdv.push(rem_change_at(ov, j as int)));
                assert(rem_change_at(ov.take(j as int + 1), j as int) == rem_change_at(
                    ov, j as int));
                assert(rems.deep_view() =~= rem_changes(ov.take(j as int + 1), nv));
            }
        } else {
            proof {
                assert(!is_surplus(nv, ov, j as int));
                assert(rem_changes(ov.take(j as int + 1), nv) =~= rems.deep_view());
            }
        }
        j += 1;
    }
    proof {
        assert(ov.take(old@.len() as int) =~= ov);
    }
    let added = adds.len();
    let removed = rems.len();
    let modified = mods.len();
    // Concatenate in modify, add, remove order, then sort.
    let mut all: Vec<E2KChange> = mods;
    let mut adds_m = adds;
    let mut rems_m = rems;
    let ghost mseq = all.deep_view();
    let ghost aseq = adds_m.deep_view();
    let ghost rseq = rems_m.deep_view();
    while adds_m.len() > 0
        invariant
            all.deep_view().to_multiset().add(adds_m.deep_view().to_multiset())
                == mseq.to_multiset().add(aseq.to_multiset()),
        decreases adds_m@.len(),
    {
        let ghost before_all = all.deep_view();
        let ghost before_add = adds_m.deep_view();
        let x = adds_m.pop().unwrap();
        all.push(x);
        proof {
            broadcast use vstd::multiset::group_multiset_axioms;

            assert(adds_m.deep_view() =~= before_add.drop_last());
            assert(all.deep_view() =~= before_all.push(x@));
            assert(before_add.drop_last().push(x@) =~= before_add);
            adds_m.deep_view().to_multiset_ensures();
            before_all.to_multiset_ensures();
            assert(before_add.to_multiset() == adds_m.deep_view().to_multiset().insert(x@));
            assert(all.deep_view().to_multiset() == before_all.to_multiset().insert(x@));
            assert(all.deep_view().to_multiset().add(adds_m.deep_view().to_multiset())
                =~= before_all.to_multiset().add(before_add.to_multiset()));
        }
    }
    proof {
        broadcast use vstd::multiset::group_multiset_axioms;

        assert(adds_m.deep_view() =~= Seq::<ChangeV>::empty());
        Seq::<ChangeV>::empty().to_multiset_ensures();
        assert(adds_m.deep_view().to_multiset() =~= Multiset::<ChangeV>::empty());
        assert(all.deep_view().to_multiset() =~= mseq.to_multiset().add(aseq.to_multiset()));
        assert(all.deep_view().to_multiset().add(rems_m.deep_view().to_multiset()) =~= mseq
            .to_multiset().add(aseq.to_multiset()).add(rseq.to_multiset()));
    }
    while rems_m.len() > 0
        invariant
            all.deep_view().to_multiset().add(rems_m.deep_view().to_multiset())
                == mseq.to_multiset().add(aseq.to_multiset()).add(rseq.to_multiset()),
        decreases rems_m@.len(),
    {
        let ghost before_all = all.deep_view();
        let ghost before_rem = rems_m.deep_view();
        let x = rems_m.pop().unwrap();
        all.push(x);
        proof {
            broadcast use vstd::multiset::group_multiset_axioms;

            assert(rems_m.deep_view() =~= before_rem.drop_last());
            assert(all.deep_view() =~= before_all.push(x@));
            assert(before_rem.drop_last().push(x@) =~= before_rem);
            rems_m.deep_view().to_multiset_ensures();
            before_all.to_multiset_ensures();
            assert(before_rem.to_multiset() == rems_m.deep_view().to_multiset().insert(x@));
            assert(all.deep_view().to_multiset() == before_all.to_multiset().insert(x@));
            assert(all.deep_view().to_multiset().add(rems_m.deep_view().to_multiset())
                =~= before_all.to_multiset().add(before_rem.to_multiset()));
        }
    }
    proof {
        broadcast use vstd::multiset::group_multiset_axioms;

        assert(rems_m.deep_view() =~= Seq::<ChangeV>::empty());
        Seq::<ChangeV>::empty().to_multiset_ensures();
        assert(Seq::<ChangeV>::empty().to_multiset() =~= Multiset::<ChangeV>::empty());
        assert(all.deep_view().to_multiset() =~= mseq.to_multiset().add(aseq.to_multiset()).add(
            rseq.to_multiset()));
        lemma_multiset_commutative(mseq, aseq);
        lemma_multiset_commutative(mseq + aseq, rseq);
        assert(spec_changes(ov, nv) == (mseq + aseq) + rseq);
        assert(all.deep_view().to_multiset() == spec_changes(ov, nv).to_multiset());
    }
    let changes = sort_changes(all);
    proof {
        lemma_spec_changes_counts(ov, nv);
        let pa = |c: ChangeV| c.change_type == "add"@;
        let pr = |c: ChangeV| c.change_type == "remove"@;
        let pm = |c: ChangeV| c.change_type == "modify"@;
        lemma_filter_len_multiset(changes.deep_view(), pa);
        lemma_filter_len_multiset(spec_changes(ov, nv), pa);
        lemma_filter_len_multiset(changes.deep_view(), pr);
        lemma_filter_len_multiset(spec_changes(ov, nv), pr);
        lemma_filter_len_multiset(changes.deep_view(), pm);
        lemma_filter_len_multiset(spec_changes(ov, nv), pm);
    }
    // Raw display rendering of both streams.
    let mut raw = String::from_str("--- old\n");
    let olds = render_stream_exec(old, true);
    raw.append(olds.as_str());
    raw.append("+++ new\n");
    let news = render_stream_exec(new, false);
    raw.append(news.as_str());
    E2KDiffResult { added, removed, modified, changes, raw_diff: raw }
}

} // verus!
