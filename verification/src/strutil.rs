//! Character-level string utilities: splitting, trimming, lexicographic
//! ordering and decimal rendering, each tied to a spec-level definition
//! over `Seq<char>`.

use vstd::prelude::*;
use vstd::string::{StrSliceExecFns, StringExecFns};

verus! {

/// Whitespace inside a line of the text format: space, tab, carriage return.
pub open spec fn is_space_char(c: char) -> bool {
    c == ' ' || c == '\t' || c == '\r'
}

/// Exec test matching `is_space_char`.
pub fn is_space(c: char) -> (r: bool)
    ensures
        r == is_space_char(c),
{
    c == ' ' || c == '\t' || c == '\r'
}

/// Split a character sequence at every separator position; the separators
/// themselves are dropped.  The result always has at least one segment, and
/// joining the segments with the separator reproduces the input.
pub open spec fn split_pred(s: Seq<char>, sep: spec_fn(char) -> bool) -> Seq<Seq<char>>
    decreases s.len(),
{
    if s.len() == 0 {
        seq![Seq::<char>::empty()]
    } else if sep(s[0]) {
        seq![Seq::<char>::empty()] + split_pred(s.skip(1), sep)
    } else {
        let rest = split_pred(s.skip(1), sep);
        seq![seq![s[0]] + rest[0]] + rest.skip(1)
    }
}

pub proof fn lemma_split_pred_len(s: Seq<char>, sep: spec_fn(char) -> bool)
    ensures
        split_pred(s, sep).len() >= 1,
    decreases s.len(),
{
    if s.len() != 0 {
        lemma_split_pred_len(s.skip(1), sep);
    }
}

/// If no separator occurs before position `k`, the split of `s` is the
/// segment up to `k` followed by the split of the remainder after the
/// separator at `k` (or just the whole of `s` if `k` is the end).
pub proof fn lemma_split_pred_step(s: Seq<char>, sep: spec_fn(char) -> bool, k: int)
    requires
        0 <= k <= s.len(),
        forall|j: int| 0 <= j < k ==> !sep(s[j]),
        k < s.len() ==> sep(s[k]),
    ensures
        k == s.len() ==> split_pred(s, sep) == seq![s],
        k < s.len() ==> split_pred(s, sep) == seq![s.take(k)] + split_pred(s.skip(k + 1), sep),
    decreases k,
{
    lemma_split_pred_len(s, sep);
    if k == 0 {
        if s.len() == 0 {
            assert(s =~= Seq::<char>::empty());
            assert(split_pred(s, sep) == seq![s]);
        } else {
            assert(sep(s[0]));
            assert(s.take(0) =~= Seq::<char>::empty());
            assert(split_pred(s, sep) =~= seq![s.take(0)] + split_pred(s.skip(1), sep));
        }
    } else {
        // k >= 1, so s is non-empty and s[0] is not a separator.
        let t = s.skip(1);
        lemma_split_pred_len(t, sep);
        assert(forall|j: int| 0 <= j < k - 1 ==> !sep(t[j]));
        lemma_split_pred_step(t, sep, k - 1);
        let rest = split_pred(t, sep);
        if k == s.len() {
            assert(rest == seq![t]);
            assert(seq![s[0]] + rest[0] =~= s);
            assert(split_pred(s, sep) =~= seq![s]);
        } else {
            assert(sep(t[k - 1]));
            assert(rest == seq![t.take(k - 1)] + split_pred(t.skip(k), sep));
            assert(rest[0] == t.take(k - 1));
            assert(seq![s[0]] + t.take(k - 1) =~= s.take(k));
            assert(t.skip(k) =~= s.skip(k + 1));
            assert(rest.skip(1) =~= split_pred(t.skip(k), sep));
            assert(split_pred(s, sep) =~= seq![s.take(k)] + split_pred(s.skip(k + 1), sep));
        }
    }
}

/// A split yields at most one segment more than the input has characters.
pub proof fn lemma_split_pred_count(s: Seq<char>, sep: spec_fn(char) -> bool)
    ensures
        split_pred(s, sep).len() <= s.len() + 1,
    decreases s.len(),
{
    if s.len() != 0 {
        lemma_split_pred_count(s.skip(1), sep);
        lemma_split_pred_len(s.skip(1), sep);
    }
}

/// The input split at every newline.
pub open spec fn split_on_nl(s: Seq<char>) -> Seq<Seq<char>> {
    split_pred(s, |c: char| c == '\n')
}

/// The input split at every whitespace character.
pub open spec fn split_on_ws(s: Seq<char>) -> Seq<Seq<char>> {
    split_pred(s, |c: char| is_space_char(c))
}

/// The non-empty segments, in order: the tokens of a split.
pub open spec fn nonblank_of(segs: Seq<Seq<char>>) -> Seq<Seq<char>> {
    segs.filter(|t: Seq<char>| t.len() > 0)
}

/// Split a string at every newline character.
pub fn split_lines(s: &str) -> (r: Vec<String>)
    ensures
        r.deep_view() == split_on_nl(s@),
{
    split_exec(s, true)
}

/// Split a string at every whitespace character.
pub fn split_spaces(s: &str) -> (r: Vec<String>)
    ensures
        r.deep_view() == split_on_ws(s@),
{
    split_exec(s, false)
}

/// Shared splitter: `on_nl` selects the newline separator, otherwise
/// whitespace is the separator.
fn split_exec(s: &str, on_nl: bool) -> (r: Vec<String>)
    ensures
        on_nl ==> r.deep_view() == split_on_nl(s@),
        !on_nl ==> r.deep_view() == split_on_ws(s@),
{
    let ghost sep: spec_fn(char) -> bool = if on_nl {
        |c: char| c == '\n'
    } else {
        |c: char| is_space_char(c)
    };
    let n = s.unicode_len();
    let mut parts: Vec<String> = Vec::new();
    let mut cut: usize = 0;
    let mut i: usize = 0;
    proof {
        assert(s@.skip(0) =~= s@);
    }
    while i < n
        invariant
            cut <= i <= n == s@.len(),
            forall|j: int| cut <= j < i ==> !sep(s@[j]),
            split_pred(s@, sep) == parts.deep_view() + split_pred(s@.skip(cut as int), sep),
            on_nl ==> sep == (|c: char| c == '\n'),
            !on_nl ==> sep == (|c: char| is_space_char(c)),
        decreases n - i,
    {
        let c = s.get_char(i);
        let hit = if on_nl { c == '\n' } else { is_space(c) };
        if hit {
            let seg = s.substring_char(cut, i);
            proof {
                let tail = s@.skip(cut as int);
                assert(forall|j: int| 0 <= j < i - cut ==> !sep(tail[j]));
                assert(sep(tail[i - cut]));
                lemma_split_pred_step(tail, sep, i - cut);
                assert(tail.take(i - cut) =~= s@.subrange(cut as int, i as int));
                assert(tail.skip(i - cut + 1) =~= s@.skip(i as int + 1));
            }
            let seg_s = String::from_str(seg);
            let ghost pdv = parts.deep_view();
            parts.push(seg_s);
            proof {
                assert(parts.deep_view() =~= pdv.push(s@.subrange(cut as int, i as int)));
                assert(pdv.push(s@.subrange(cut as int, i as int)) + split_pred(
                    s@.skip(i as int + 1), sep) =~= pdv + (seq![
                    s@.subrange(cut as int, i as int)] + split_pred(s@.skip(i as int + 1), sep)));
            }
            cut = i + 1;
        }
        i += 1;
    }
    let seg = s.substring_char(cut, n);
    proof {
        let tail = s@.skip(cut as int);
        assert(forall|j: int| 0 <= j < tail.len() ==> !sep(tail[j]));
        lemma_split_pred_step(tail, sep, tail.len() as int);
        assert(tail =~= s@.subrange(cut as int, n as int));
    }
    let seg_s = String::from_str(seg);
    let ghost pdv = parts.deep_view();
    parts.push(seg_s);
    proof {
        assert(parts.deep_view() =~= pdv.push(s@.subrange(cut as int, n as int)));
        assert(pdv.push(s@.subrange(cut as int, n as int)) =~= pdv + seq![
            s@.subrange(cut as int, n as int)]);
        assert(split_pred(s@, sep) == parts.deep_view());
    }
    parts
}

/// The sequence with leading whitespace removed.
pub open spec fn trim_start_spec(s: Seq<char>) -> Seq<char>
    decreases s.len(),
{
    if s.len() > 0 && is_space_char(s[0]) {
        trim_start_spec(s.skip(1))
    } else {
        s
    }
}

/// The sequence with trailing whitespace removed.
pub open spec fn trim_end_spec(s: Seq<char>) -> Seq<char>
    decreases s.len(),
{
    if s.len() > 0 && is_space_char(s.last()) {
        trim_end_spec(s.drop_last())
    } else {
        s
    }
}

/// The sequence with both leading and trailing whitespace removed.
pub open spec fn trim_spec(s: Seq<char>) -> Seq<char> {
    trim_end_spec(trim_start_spec(s))
}

/// Remove leading and trailing whitespace.
pub fn trim(s: &str) -> (r: String)
    ensures
        r@ == trim_spec(s@),
{
    let n = s.unicode_len();
    let mut a: usize = 0;
    proof {
        assert(s@.skip(0) =~= s@);
    }
    while a < n && is_space(s.get_char(a))
        invariant
            a <= n == s@.len(),
            trim_start_spec(s@) == trim_start_spec(s@.skip(a as int)),
        decreases n - a,
    {
        proof {
            assert(s@.skip(a as int).skip(1) =~= s@.skip(a as int + 1));
        }
        a += 1;
    }
    proof {
        assert(trim_start_spec(s@) == s@.skip(a as int));
        assert(s@.skip(a as int) =~= s@.subrange(a as int, n as int));
    }
    let mut b: usize = n;
    while b > a && is_space(s.get_char(b - 1))
        invariant
            a <= b <= n == s@.len(),
            trim_start_spec(s@) == s@.skip(a as int),
            trim_end_spec(s@.skip(a as int)) == trim_end_spec(s@.subrange(a as int, b as int)),
        decreases b,
    {
        proof {
            let cur = s@.subrange(a as int, b as int);
            assert(cur.last() == s@[b - 1]);
            assert(cur.drop_last() =~= s@.subrange(a as int, b as int - 1));
        }
        b -= 1;
    }
    proof {
        assert(s@.skip(a as int) =~= s@.subrange(a as int, n as int));
        let cur = s@.subrange(a as int, b as int);
        assert(trim_end_spec(cur) == cur);
    }
    let seg = s.substring_char(a, b);
    String::from_str(seg)
}

/// Strict lexicographic order on character sequences, by code point.
pub open spec fn lex_lt(a: Seq<char>, b: Seq<char>) -> bool
    decreases a.len(),
{
    if b.len() == 0 {
        false
    } else if a.len() == 0 {
        true
    } else if a[0] < b[0] {
        true
    } else if a[0] == b[0] {
        lex_lt(a.skip(1), b.skip(1))
    } else {
        false
    }
}

/// Reflexive lexicographic order on character sequences.
pub open spec fn lex_le(a: Seq<char>, b: Seq<char>) -> bool {
    lex_lt(a, b) || a == b
}

/// `lex_le` is total: of any two sequences one is below the other.
pub proof fn lemma_lex_total(a: Seq<char>, b: Seq<char>)
    ensures
        lex_le(a, b) || lex_le(b, a),
    decreases a.len(),
{
    if a.len() == 0 && b.len() == 0 {
        assert(a =~= b);
    }
    if a.len() != 0 && b.len() != 0 && a[0] == b[0] {
        lemma_lex_total(a.skip(1), b.skip(1));
        if a.skip(1) == b.skip(1) {
            assert forall|i: int| 0 <= i < a.len() implies a[i] == b[i] by {
                if i > 0 {
                    assert(a[i] == a.skip(1)[i - 1]);
                    assert(b[i] == b.skip(1)[i - 1]);
                }
            }
            assert(a =~= b);
        }
    }
}

/// `lex_lt` never relates a sequence to itself.
pub proof fn lemma_lex_lt_irrefl(a: Seq<char>)
    ensures
        !lex_lt(a, a),
    decreases a.len(),
{
    if a.len() != 0 {
        lemma_lex_lt_irrefl(a.skip(1));
    }
}

/// `lex_lt` is transitive.
pub proof fn lemma_lex_lt_trans(a: Seq<char>, b: Seq<char>, c: Seq<char>)
    requires
        lex_lt(a, b),
        lex_lt(b, c),
    ensures
        lex_lt(a, c),
    decreases a.len(),
{
    if a.len() != 0 && b.len() != 0 && c.len() != 0 && a[0] == b[0] && b[0] == c[0] {
        lemma_lex_lt_trans(a.skip(1), b.skip(1), c.skip(1));
    }
}

/// `lex_le` is transitive.
pub proof fn lemma_lex_le_trans(a: Seq<char>, b: Seq<char>, c: Seq<char>)
    requires
        lex_le(a, b),
        lex_le(b, c),
    ensures
        lex_le(a, c),
{
    if a == b || b == c {
    } else {
        lemma_lex_lt_trans(a, b, c);
    }
}

/// Compare two strings in the `lex_le` order.
pub fn str_le(a: &str, b: &str) -> (r: bool)
    ensures
        r == lex_le(a@, b@),
{
    let an = a.unicode_len();
    let bn = b.unicode_len();
    let mut i: usize = 0;
    proof {
        assert(a@.skip(0) =~= a@);
        assert(b@.skip(0) =~= b@);
    }
    loop
        invariant
            i <= an == a@.len(),
            i <= bn == b@.len(),
            lex_lt(a@, b@) == lex_lt(a@.skip(i as int), b@.skip(i as int)),
            (a@ == b@) == (a@.skip(i as int) == b@.skip(i as int)),
        decreases an - i,
    {
        if i >= an || i >= bn {
            proof {
                let ra = a@.skip(i as int);
                let rb = b@.skip(i as int);
                if i >= an {
                    assert(ra =~= Seq::<char>::empty());
                    if i >= bn {
                        assert(rb =~= Seq::<char>::empty());
                        assert(ra == rb);
                    } else {
                        assert(rb.len() > 0);
                        assert(lex_lt(ra, rb));
                    }
                } else {
                    assert(rb =~= Seq::<char>::empty());
                    assert(!lex_lt(ra, rb));
                    assert(ra.len() > 0 && rb.len() == 0 ==> ra != rb);
                }
            }
            return i >= an;
        }
        let ca = a.get_char(i);
        let cb = b.get_char(i);
        if ca != cb {
            proof {
                let ra = a@.skip(i as int);
                let rb = b@.skip(i as int);
                assert(ra[0] == ca && rb[0] == cb);
                assert(ra != rb);
            }
            return ca < cb;
        }
        proof {
            let ra = a@.skip(i as int);
            let rb = b@.skip(i as int);
            assert(ra[0] == ca && rb[0] == cb);
            assert(ra.skip(1) =~= a@.skip(i as int + 1));
            assert(rb.skip(1) =~= b@.skip(i as int + 1));
            assert((ra == rb) == (ra.skip(1) == rb.skip(1))) by {
                if ra.skip(1) == rb.skip(1) {
                    assert forall|k: int| 0 <= k < ra.len() implies ra[k] == rb[k] by {
                        if k > 0 {
                            assert(ra[k] == ra.skip(1)[k - 1]);
                            assert(rb[k] == rb.skip(1)[k - 1]);
                        }
                    }
                    assert(ra =~= rb);
                }
            }
        }
        i += 1;
    }
}

/// Test two strings for character-for-character equality.
pub fn str_eq(a: &str, b: &str) -> (r: bool)
    ensures
        r == (a@ == b@),
{
    let an = a.unicode_len();
    let bn = b.unicode_len();
    if an != bn {
        return false;
    }
    let mut i: usize = 0;
    while i < an
        invariant
            i <= an == a@.len(),
            an == b@.len(),
            forall|j: int| 0 <= j < i ==> a@[j] == b@[j],
        decreases an - i,
    {
        let ca = a.get_char(i);
        let cb = b.get_char(i);
        if ca != cb {
            return false;
        }
        i += 1;
    }
    proof {
        assert(a@ =~= b@);
    }
    true
}

/// The decimal digits of `n`, most significant first.
pub open spec fn dec_digits(n: nat) -> Seq<char>
    decreases n,
{
    let low = digit_char((n % 10) as nat);
    if n < 10 {
        seq![low]
    } else {
        dec_digits((n / 10) as nat).push(low)
    }
}

/// The character for one decimal digit.
pub open spec fn digit_char(d: nat) -> char {
    "0123456789"@[d as int]
}

/// The digit tail read off a reversed digit buffer.
pub open spec fn rev_tail(rev: Seq<u8>) -> Seq<char> {
    Seq::new(rev.len(), |k: int| digit_char(rev[rev.len() - 1 - k] as nat))
}

/// Render an unsigned number in decimal.
pub fn u64_to_string(n: u64) -> (r: String)
    ensures
        r@ == dec_digits(n as nat),
{
    let digits = "0123456789";
    proof {
        reveal_strlit("0123456789");
        assert(digits@.len() == 10);
    }
    let mut rev: Vec<u8> = Vec::new();
    let mut m = n;
    proof {
        assert(dec_digits(n as nat) =~= dec_digits(n as nat) + rev_tail(rev@));
    }
    while m >= 10
        invariant
            digits@.len() == 10,
            dec_digits(n as nat) == dec_digits(m as nat) + rev_tail(rev@),
            forall|k: int| 0 <= k < rev@.len() ==> rev@[k] < 10,
        decreases m,
    {
        let d = (m % 10) as u8;
        let m2 = m / 10;
        proof {
            let old_tail = rev_tail(rev@);
            let new_tail = rev_tail(rev@.push(d));
            assert(dec_digits(m as nat) == dec_digits(m2 as nat).push(digit_char((m % 10) as nat)));
            assert(new_tail =~= seq![digit_char(d as nat)] + old_tail);
            assert(dec_digits(m2 as nat) + new_tail =~= dec_digits(m as nat) + old_tail);
        }
        rev.push(d);
        m = m2;
    }
    let ghost tail = rev_tail(rev@);
    let mut out = String::new();
    let d0 = m as usize;
    let first = digits.substring_char(d0, d0 + 1);
    out.append(first);
    proof {
        assert(dec_digits(m as nat) == seq![digit_char(m as nat)]);
        assert(first@ =~= seq![digit_char(m as nat)]);
        assert(out@ =~= dec_digits(m as nat) + tail.take(0));
    }
    let mut p: usize = 0;
    let len = rev.len();
    while p < len
        invariant
            digits@ == "0123456789"@,
            digits@.len() == 10,
            p <= len == rev@.len(),
            forall|k: int| 0 <= k < rev@.len() ==> rev@[k] < 10,
            tail == rev_tail(rev@),
            dec_digits(n as nat) == dec_digits(m as nat) + tail,
            m < 10,
            out@ == dec_digits(m as nat) + tail.take(p as int),
        decreases len - p,
    {
        let d = rev[len - 1 - p] as usize;
        let ds = digits.substring_char(d, d + 1);
        out.append(ds);
        proof {
            reveal_strlit("0123456789");
            assert(ds@ =~= seq![digit_char(d as nat)]);
            assert(tail[p as int] == digit_char(d as nat));
            assert(out@ =~= dec_digits(m as nat) + tail.take(p as int + 1));
        }
        p += 1;
    }
    proof {
        assert(tail.take(len as int) =~= tail);
    }
    out
}

} // verus!
