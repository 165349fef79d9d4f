use vstd::prelude::*;

use crate::bytes::{lemma_lines_no_nl, lemma_lines_of_join, spec_lines, NL};
use crate::patch::{
    extract_rec, has_section, is_diff_header, is_hunk_line, keep_marks, lemma_extract_rec_no_nl,
    lemma_find_marker, matches_any, names_path, selects_some, some_hunk_matches,
    spec_file_section, spec_find_marker, spec_middle, spec_normalize, AT, COMMA, DASH, PLUS, SP,
};

verus! {

// ------------------------------------------------------------------
// Idempotence of file-section extraction
// ------------------------------------------------------------------

/// A fresh extraction starts at a diff header that names the path, so a
/// non-empty result opens with such a header.
proof fn lemma_extract_first(ls: Seq<Seq<u8>>, path: Seq<u8>)
    ensures
        extract_rec(ls, path, false).len() > 0 ==> is_diff_header(extract_rec(ls, path, false)[0])
            && names_path(extract_rec(ls, path, false)[0], path),
    decreases ls.len(),
{
    if ls.len() == 0 {
    } else {
        let l = ls[0];
        let rest = ls.drop_first();
        lemma_extract_first(rest, path);
        if is_diff_header(l) && names_path(l, path) {
            assert(extract_rec(ls, path, false)[0] == l);
        }
    }
}

/// A named section is extracted: the result is non-empty whenever some
/// diff header names the path.
proof fn lemma_extract_nonempty(ls: Seq<Seq<u8>>, path: Seq<u8>)
    ensures
        has_section(ls, path) ==> extract_rec(ls, path, false).len() > 0,
    decreases ls.len(),
{
    if ls.len() == 0 {
    } else {
        let l = ls[0];
        let rest = ls.drop_first();
        lemma_extract_nonempty(rest, path);
        if has_section(ls, path) && !(is_diff_header(l) && names_path(l, path)) {
            let i = choose|i: int|
                0 <= i < ls.len() && is_diff_header(#[trigger] ls[i]) && names_path(ls[i], path);
            assert(rest[i - 1] == ls[i]);
            assert(has_section(rest, path));
        }
    }
}

/// Extraction is idempotent at the line level: extracting from its own
/// result changes nothing.
proof fn lemma_extract_rec_idem(ls: Seq<Seq<u8>>, path: Seq<u8>, in_file: bool)
    ensures
        extract_rec(extract_rec(ls, path, in_file), path, in_file) == extract_rec(
            ls,
            path,
            in_file,
        ),
    decreases ls.len(),
{
    if ls.len() == 0 {
    } else {
        let l = ls[0];
        let rest = ls.drop_first();
        lemma_extract_rec_idem(rest, path, true);
        lemma_extract_rec_idem(rest, path, false);
        lemma_extract_first(rest, path);
        if (is_diff_header(l) && names_path(l, path)) || (!is_diff_header(l) && in_file) {
            let x = extract_rec(rest, path, true);
            let out = seq![l] + x;
            assert(extract_rec(ls, path, in_file) == out);
            assert(out[0] == l);
            assert(out.drop_first() =~= x);
            assert(extract_rec(out, path, in_file) == seq![l] + extract_rec(x, path, true));
        } else {
            let y = extract_rec(rest, path, false);
            assert(extract_rec(ls, path, in_file) == y);
            if in_file {
                // `y` is empty or opens with a matching header, so the
                // starting state makes no difference
                if y.len() > 0 {
                    assert(extract_rec(y, path, true) == seq![y[0]] + extract_rec(
                        y.drop_first(),
                        path,
                        true,
                    ));
                    assert(extract_rec(y, path, false) == seq![y[0]] + extract_rec(
                        y.drop_first(),
                        path,
                        true,
                    ));
                }
            }
        }
    }
}

/// Extracting a file's section, then re-extracting the same path from
/// that result, yields the identical text, for every path present in the
/// full diff.
pub proof fn lemma_extract_idempotent(d: Seq<u8>, path: Seq<u8>)
    requires
        has_section(spec_lines(d), path),
    ensures
        has_section(spec_lines(spec_file_section(d, path)), path),
        spec_file_section(spec_file_section(d, path), path) == spec_file_section(d, path),
{
    let ls = spec_lines(d);
    let out = extract_rec(ls, path, false);
    lemma_lines_no_nl(d);
    lemma_extract_rec_no_nl(ls, path, false);
    lemma_lines_of_join(out);
    lemma_extract_rec_idem(ls, path, false);
    lemma_extract_nonempty(ls, path);
    lemma_extract_first(ls, path);
    assert(spec_lines(spec_file_section(d, path)) == out);
    assert(has_section(out, path));
}

// ------------------------------------------------------------------
// Normalization equivalence
// ------------------------------------------------------------------

/// Bytes that count as surrounding whitespace in a header line.
pub open spec fn is_ws_byte(b: u8) -> bool {
    b == 32 || b == 9 || b == NL || b == 13
}

/// The kept bytes of a concatenation are the concatenations of the kept
/// bytes.
proof fn lemma_keep_marks_concat(a: Seq<u8>, b: Seq<u8>)
    ensures
        keep_marks(a + b) == keep_marks(a) + keep_marks(b),
    decreases a.len(),
{
    if a.len() == 0 {
        assert(a + b =~= b);
        assert(keep_marks(a) + keep_marks(b) =~= keep_marks(b));
    } else {
        assert((a + b)[0] == a[0]);
        assert((a + b).drop_first() =~= a.drop_first() + b);
        lemma_keep_marks_concat(a.drop_first(), b);
        if crate::patch::is_kept_byte(a[0]) {
            assert(seq![a[0]] + (keep_marks(a.drop_first()) + keep_marks(b)) =~= (seq![a[0]]
                + keep_marks(a.drop_first())) + keep_marks(b));
        }
    }
}

/// A sequence with no kept byte normalizes away.
proof fn lemma_keep_marks_none(w: Seq<u8>)
    requires
        forall|k: int| 0 <= k < w.len() ==> !crate::patch::is_kept_byte(#[trigger] w[k]),
    ensures
        keep_marks(w) == Seq::<u8>::empty(),
    decreases w.len(),
{
    if w.len() > 0 {
        assert forall|k: int|
            0 <= k < w.drop_first().len() implies !crate::patch::is_kept_byte(
            #[trigger] w.drop_first()[k],
        ) by {
            assert(w.drop_first()[k] == w[k + 1]);
        }
        lemma_keep_marks_none(w.drop_first());
    }
}

/// Prefixing text that holds no `@` moves the first marker by that
/// prefix's length.
proof fn lemma_marker_prefix(w: Seq<u8>, x: Seq<u8>)
    requires
        forall|k: int| 0 <= k < w.len() ==> (#[trigger] w[k]) != AT,
    ensures
        spec_find_marker(x) == -1 ==> spec_find_marker(w + x) == -1,
        spec_find_marker(x) >= 0 ==> spec_find_marker(w + x) == w.len() + spec_find_marker(x),
{
    let s = w + x;
    lemma_find_marker(s);
    lemma_find_marker(x);
    assert forall|k: int| 0 <= k < w.len() implies s[k] != AT by {
        assert(s[k] == w[k]);
    }
    assert forall|k: int| 0 <= k < x.len() implies s[w.len() + k] == x[k] by {}
    if spec_find_marker(x) == -1 {
        if spec_find_marker(s) >= 0 {
            let m = spec_find_marker(s);
            assert(s[m] == AT && s[m + 1] == AT);
            assert(m >= w.len());
            assert(x[m - w.len()] == AT && x[m - w.len() + 1] == AT);
        }
    } else {
        let j = spec_find_marker(x);
        assert(s[w.len() + j] == AT && s[w.len() + j + 1] == AT);
        let m = spec_find_marker(s);
        if m == -1 {
            assert(!(s[w.len() + j] == AT && s[w.len() + j + 1] == AT));
        }
        assert(m >= 0);
        if m < w.len() + j {
            if m >= w.len() {
                assert(x[m - w.len()] == AT && x[m - w.len() + 1] == AT);
            }
        }
        if m > w.len() + j {
            assert(!(s[w.len() + j] == AT && s[w.len() + j + 1] == AT));
        }
    }
}

/// Appending text whose first byte is no `@` leaves the first marker
/// where it was.
proof fn lemma_marker_suffix(x: Seq<u8>, w: Seq<u8>)
    requires
        forall|k: int| 0 <= k < w.len() ==> (#[trigger] w[k]) != AT,
    ensures
        spec_find_marker(x) == -1 ==> spec_find_marker(x + w) == -1,
        spec_find_marker(x) >= 0 ==> spec_find_marker(x + w) == spec_find_marker(x),
{
    let s = x + w;
    lemma_find_marker(s);
    lemma_find_marker(x);
    assert forall|k: int| 0 <= k < x.len() implies s[k] == x[k] by {}
    assert forall|k: int| 0 <= k < w.len() implies s[x.len() + k] == w[k] by {}
    if spec_find_marker(x) == -1 {
        if spec_find_marker(s) >= 0 {
            let m = spec_find_marker(s);
            assert(s[m] == AT && s[m + 1] == AT);
            if m + 1 < x.len() {
                assert(x[m] == AT && x[m + 1] == AT);
            } else if m < x.len() {
                assert(s[m + 1] == w[m + 1 - x.len()]);
            } else {
                assert(s[m] == w[m - x.len()]);
            }
        }
    } else {
        let j = spec_find_marker(x);
        assert(s[j] == AT && s[j + 1] == AT);
        let m = spec_find_marker(s);
        if m == -1 {
            assert(!(s[j] == AT && s[j + 1] == AT));
        }
        if m > j {
            assert(!(s[j] == AT && s[j + 1] == AT));
        }
    }
}

/// Two headers differing only in surrounding whitespace normalize to
/// equal strings.
pub proof fn lemma_normalize_ignores_whitespace(h: Seq<u8>, w1: Seq<u8>, w2: Seq<u8>)
    requires
        forall|k: int| 0 <= k < w1.len() ==> is_ws_byte(#[trigger] w1[k]),
        forall|k: int| 0 <= k < w2.len() ==> is_ws_byte(#[trigger] w2[k]),
    ensures
        spec_normalize(w1 + h + w2) == spec_normalize(h),
{
    let s = w1 + h + w2;
    assert(s =~= w1 + (h + w2));
    lemma_marker_suffix(h, w2);
    lemma_marker_prefix(w1, h + w2);
    lemma_find_marker(h);
    if spec_find_marker(h) == -1 {
        assert(spec_find_marker(s) == -1);
        assert(spec_middle(s) == s);
        assert(spec_middle(h) == h);
        lemma_keep_marks_concat(w1 + h, w2);
        lemma_keep_marks_concat(w1, h);
        lemma_keep_marks_none(w1);
        lemma_keep_marks_none(w2);
        assert(s =~= (w1 + h) + w2);
        assert(keep_marks(s) =~= keep_marks(h));
    } else {
        let i = spec_find_marker(h);
        assert(spec_find_marker(h + w2) == i);
        assert(spec_find_marker(s) == w1.len() + i);
        let hr = h.subrange(i + 2, h.len() as int);
        let rest1 = s.subrange(w1.len() + i + 2, s.len() as int);
        assert(rest1 =~= hr + w2);
        lemma_marker_suffix(hr, w2);
        lemma_find_marker(hr);
        if spec_find_marker(hr) == -1 {
            assert(spec_middle(s) == rest1);
            assert(spec_middle(h) == hr);
            lemma_keep_marks_concat(hr, w2);
            lemma_keep_marks_none(w2);
            assert(keep_marks(rest1) =~= keep_marks(hr));
        } else {
            let j = spec_find_marker(hr);
            assert(spec_middle(s) == rest1.subrange(0, j));
            assert(spec_middle(h) == hr.subrange(0, j));
            assert(rest1.subrange(0, j) =~= hr.subrange(0, j));
        }
    }
}

/// Two headers differing only in their surrounding whitespace normalize
/// to equal strings.
pub proof fn lemma_normalize_ws_equivalence(
    h: Seq<u8>,
    w1: Seq<u8>,
    w2: Seq<u8>,
    w3: Seq<u8>,
    w4: Seq<u8>,
)
    requires
        forall|k: int| 0 <= k < w1.len() ==> is_ws_byte(#[trigger] w1[k]),
        forall|k: int| 0 <= k < w2.len() ==> is_ws_byte(#[trigger] w2[k]),
        forall|k: int| 0 <= k < w3.len() ==> is_ws_byte(#[trigger] w3[k]),
        forall|k: int| 0 <= k < w4.len() ==> is_ws_byte(#[trigger] w4[k]),
    ensures
        spec_normalize(w1 + h + w2) == spec_normalize(w3 + h + w4),
{
    lemma_normalize_ignores_whitespace(h, w1, w2);
    lemma_normalize_ignores_whitespace(h, w3, w4);
}

/// A header of the well-formed shape — any `@`-free lead-in, the opening
/// marker, an `@`-free range component, the closing marker, any trailing
/// context — normalizes to exactly the kept bytes of its range component.
/// Trailing context therefore never reaches the normalized form.
pub proof fn lemma_normalize_of_header(pre: Seq<u8>, mid: Seq<u8>, ctx: Seq<u8>)
    requires
        forall|k: int| 0 <= k < pre.len() ==> (#[trigger] pre[k]) != AT,
        forall|k: int| 0 <= k < mid.len() ==> (#[trigger] mid[k]) != AT,
    ensures
        spec_normalize(pre + seq![AT, AT] + mid + seq![AT, AT] + ctx) == keep_marks(mid),
{
    let s = pre + seq![AT, AT] + mid + seq![AT, AT] + ctx;
    let x = seq![AT, AT] + mid + seq![AT, AT] + ctx;
    assert(s =~= pre + x);
    assert(x[0] == AT && x[1] == AT);
    assert(spec_find_marker(x) == 0);
    lemma_marker_prefix(pre, x);
    assert(spec_find_marker(s) == pre.len());
    let rest = s.subrange(pre.len() as int + 2, s.len() as int);
    assert(rest =~= mid + (seq![AT, AT] + ctx));
    let y = seq![AT, AT] + ctx;
    assert(y[0] == AT && y[1] == AT);
    assert(spec_find_marker(y) == 0);
    lemma_marker_prefix(mid, y);
    assert(spec_find_marker(mid + y) == mid.len());
    assert(spec_middle(s) == rest.subrange(0, mid.len() as int));
    assert(rest.subrange(0, mid.len() as int) =~= mid);
}

// ------------------------------------------------------------------
// All-or-nothing composition
// ------------------------------------------------------------------

/// A selection whose every requested identifier matches no hunk-header
/// line keeps no hunk block. Composing such a change therefore fails with
/// the validation error — see the contracts of `extract_hunks_for_file`,
/// `create_patch_for_changes` and `stage_group_changes`, whose success
/// cases demand `selects_some` of every hunk-level change — and a group
/// holding it yields no patch and no staging plan at all.
pub proof fn lemma_all_unmatched_selects_none(ls: Seq<Seq<u8>>, hs: Seq<Seq<u8>>, in_header: bool)
    requires
        forall|i: int| 0 <= i < hs.len() ==> !some_hunk_matches(#[trigger] hs[i], ls),
    ensures
        !selects_some(ls, hs, in_header),
    decreases ls.len(),
{
    if ls.len() == 0 {
    } else {
        let l = ls[0];
        let rest = ls.drop_first();
        assert forall|i: int|
            0 <= i < hs.len() implies !some_hunk_matches(#[trigger] hs[i], rest) by {
            if some_hunk_matches(hs[i], rest) {
                let k = choose|k: int|
                    0 <= k < rest.len() && is_hunk_line(#[trigger] rest[k])
                        && spec_normalize(rest[k]) == spec_normalize(hs[i]);
                assert(ls[k + 1] == rest[k]);
                assert(some_hunk_matches(hs[i], ls));
            }
        }
        lemma_all_unmatched_selects_none(rest, hs, true);
        lemma_all_unmatched_selects_none(rest, hs, false);
        if !in_header && is_hunk_line(l) && matches_any(l, hs) {
            let i = choose|i: int|
                0 <= i < hs.len() && spec_normalize(#[trigger] hs[i]) == spec_normalize(l);
            assert(is_hunk_line(ls[0]));
            assert(some_hunk_matches(hs[i], ls));
            assert(false);
        }
    }
}

/// Every byte is a decimal digit.
pub open spec fn is_digit_seq(x: Seq<u8>) -> bool {
    forall|k: int| 0 <= k < x.len() ==> 48 <= (#[trigger] x[k]) <= 57
}

/// Kept bytes survive normalization unchanged.
proof fn lemma_keep_marks_all(x: Seq<u8>)
    requires
        forall|k: int| 0 <= k < x.len() ==> crate::patch::is_kept_byte(#[trigger] x[k]),
    ensures
        keep_marks(x) == x,
    decreases x.len(),
{
    if x.len() > 0 {
        assert forall|k: int|
            0 <= k < x.drop_first().len() implies crate::patch::is_kept_byte(
            #[trigger] x.drop_first()[k],
        ) by {
            assert(x.drop_first()[k] == x[k + 1]);
        }
        lemma_keep_marks_all(x.drop_first());
        assert(seq![x[0]] + x.drop_first() =~= x);
    }
}

/// What one byte leaves behind.
proof fn lemma_keep_one(b: u8)
    ensures
        keep_marks(seq![b]) == if crate::patch::is_kept_byte(b) {
            seq![b]
        } else {
            Seq::<u8>::empty()
        },
{
    assert(seq![b].drop_first() =~= Seq::<u8>::empty());
    assert(seq![b][0] == b);
    if crate::patch::is_kept_byte(b) {
        assert(keep_marks(seq![b]) == seq![b] + keep_marks(Seq::<u8>::empty()));
        assert(seq![b] + Seq::<u8>::empty() =~= seq![b]);
    } else {
        assert(keep_marks(seq![b]) == keep_marks(Seq::<u8>::empty()));
    }
}

/// A digit run closed by a non-digit separator parses uniquely: equal
/// concatenations have equal runs and equal remainders.
proof fn lemma_sep_unique(x1: Seq<u8>, y1: Seq<u8>, x2: Seq<u8>, y2: Seq<u8>, sep: u8)
    requires
        is_digit_seq(x1),
        is_digit_seq(x2),
        !(48 <= sep <= 57),
        x1 + seq![sep] + y1 == x2 + seq![sep] + y2,
    ensures
        x1 == x2,
        y1 == y2,
{
    let s1 = x1 + seq![sep] + y1;
    let s2 = x2 + seq![sep] + y2;
    assert forall|k: int| 0 <= k < x1.len() implies s1[k] == x1[k] by {
        assert((x1 + seq![sep])[k] == x1[k]);
    }
    assert forall|k: int| 0 <= k < x2.len() implies s2[k] == x2[k] by {
        assert((x2 + seq![sep])[k] == x2[k]);
    }
    assert(s1[x1.len() as int] == sep) by {
        assert((x1 + seq![sep])[x1.len() as int] == sep);
    }
    assert(s2[x2.len() as int] == sep) by {
        assert((x2 + seq![sep])[x2.len() as int] == sep);
    }
    if x1.len() < x2.len() {
        assert(48 <= x2[x1.len() as int] <= 57);
        assert(false);
    }
    if x2.len() < x1.len() {
        assert(48 <= x1[x2.len() as int] <= 57);
        assert(false);
    }
    assert(x1 =~= x2);
    assert((x1 + seq![sep]).len() == x1.len() + 1);
    assert((x2 + seq![sep]).len() == x2.len() + 1);
    assert(s1.len() == x1.len() + 1 + y1.len());
    assert(s2.len() == x2.len() + 1 + y2.len());
    assert(s1.len() == s2.len());
    assert(y1.len() == y2.len());
    assert forall|k: int| 0 <= k < y1.len() implies y1[k] == y2[k] by {
        assert(s1[x1.len() + 1 + k] == ((x1 + seq![sep]) + y1)[x1.len() + 1 + k]);
        assert(((x1 + seq![sep]) + y1)[x1.len() + 1 + k] == y1[k]);
        assert(((x2 + seq![sep]) + y2)[x2.len() + 1 + k] == y2[k]);
    }
    assert(y1 =~= y2);
}

/// The text between the markers of a standard hunk header built from the
/// four range numbers: ` -a,b +c,d `.
pub open spec fn range_component(a: Seq<u8>, b: Seq<u8>, c: Seq<u8>, d: Seq<u8>) -> Seq<u8> {
    seq![SP] + seq![DASH] + a + seq![COMMA] + b + seq![SP] + seq![PLUS] + c + seq![COMMA] + d
        + seq![SP]
}

/// The normalized form a standard range component keeps: `-a,b+c,d`.
pub open spec fn normal_range(a: Seq<u8>, b: Seq<u8>, c: Seq<u8>, d: Seq<u8>) -> Seq<u8> {
    seq![DASH] + a + seq![COMMA] + b + seq![PLUS] + c + seq![COMMA] + d
}

/// Normalization of the standard component keeps exactly `-a,b+c,d`.
proof fn lemma_keep_range_component(a: Seq<u8>, b: Seq<u8>, c: Seq<u8>, d: Seq<u8>)
    requires
        is_digit_seq(a),
        is_digit_seq(b),
        is_digit_seq(c),
        is_digit_seq(d),
    ensures
        keep_marks(range_component(a, b, c, d)) == normal_range(a, b, c, d),
{
    lemma_keep_one(SP);
    lemma_keep_one(DASH);
    lemma_keep_one(COMMA);
    lemma_keep_one(PLUS);
    lemma_keep_marks_all(a);
    lemma_keep_marks_all(b);
    lemma_keep_marks_all(c);
    lemma_keep_marks_all(d);
    let p1 = seq![SP] + seq![DASH];
    let p2 = p1 + a;
    let p3 = p2 + seq![COMMA];
    let p4 = p3 + b;
    let p5 = p4 + seq![SP];
    let p6 = p5 + seq![PLUS];
    let p7 = p6 + c;
    let p8 = p7 + seq![COMMA];
    let p9 = p8 + d;
    let p10 = p9 + seq![SP];
    lemma_keep_marks_concat(seq![SP], seq![DASH]);
    lemma_keep_marks_concat(p1, a);
    lemma_keep_marks_concat(p2, seq![COMMA]);
    lemma_keep_marks_concat(p3, b);
    lemma_keep_marks_concat(p4, seq![SP]);
    lemma_keep_marks_concat(p5, seq![PLUS]);
    lemma_keep_marks_concat(p6, c);
    lemma_keep_marks_concat(p7, seq![COMMA]);
    lemma_keep_marks_concat(p8, d);
    lemma_keep_marks_concat(p9, seq![SP]);
    assert(range_component(a, b, c, d) == p10);
    assert(keep_marks(p10) =~= normal_range(a, b, c, d));
}

/// Two standard headers normalize to equal strings exactly when their
/// four range numbers agree: a drifted line number always breaks the
/// match, while lead-in and trailing context never matter.
pub proof fn lemma_normalize_separates_ranges(
    pre1: Seq<u8>,
    ctx1: Seq<u8>,
    a1: Seq<u8>,
    b1: Seq<u8>,
    c1: Seq<u8>,
    d1: Seq<u8>,
    pre2: Seq<u8>,
    ctx2: Seq<u8>,
    a2: Seq<u8>,
    b2: Seq<u8>,
    c2: Seq<u8>,
    d2: Seq<u8>,
)
    requires
        forall|k: int| 0 <= k < pre1.len() ==> (#[trigger] pre1[k]) != AT,
        forall|k: int| 0 <= k < pre2.len() ==> (#[trigger] pre2[k]) != AT,
        is_digit_seq(a1),
        is_digit_seq(b1),
        is_digit_seq(c1),
        is_digit_seq(d1),
        is_digit_seq(a2),
        is_digit_seq(b2),
        is_digit_seq(c2),
        is_digit_seq(d2),
    ensures
        spec_normalize(pre1 + seq![AT, AT] + range_component(a1, b1, c1, d1) + seq![AT, AT] + ctx1)
            == spec_normalize(
            pre2 + seq![AT, AT] + range_component(a2, b2, c2, d2) + seq![AT, AT] + ctx2,
        ) <==> (a1 == a2 && b1 == b2 && c1 == c2 && d1 == d2),
{
    let m1 = range_component(a1, b1, c1, d1);
    let m2 = range_component(a2, b2, c2, d2);
    assert forall|k: int| 0 <= k < m1.len() implies (#[trigger] m1[k]) != AT by {
        if 48 <= m1[k] <= 57 {
        }
    }
    assert forall|k: int| 0 <= k < m2.len() implies (#[trigger] m2[k]) != AT by {
        if 48 <= m2[k] <= 57 {
        }
    }
    lemma_normalize_of_header(pre1, m1, ctx1);
    lemma_normalize_of_header(pre2, m2, ctx2);
    lemma_keep_range_component(a1, b1, c1, d1);
    lemma_keep_range_component(a2, b2, c2, d2);
    if normal_range(a1, b1, c1, d1) == normal_range(a2, b2, c2, d2) {
        let r1 = a1 + seq![COMMA] + (b1 + seq![PLUS] + (c1 + seq![COMMA] + d1));
        let r2 = a2 + seq![COMMA] + (b2 + seq![PLUS] + (c2 + seq![COMMA] + d2));
        assert(normal_range(a1, b1, c1, d1) =~= seq![DASH] + r1);
        assert(normal_range(a2, b2, c2, d2) =~= seq![DASH] + r2);
        assert(r1 =~= (seq![DASH] + r1).drop_first());
        assert(r2 =~= (seq![DASH] + r2).drop_first());
        lemma_sep_unique(
            a1,
            b1 + seq![PLUS] + (c1 + seq![COMMA] + d1),
            a2,
            b2 + seq![PLUS] + (c2 + seq![COMMA] + d2),
            COMMA,
        );
        lemma_sep_unique(b1, c1 + seq![COMMA] + d1, b2, c2 + seq![COMMA] + d2, PLUS);
        lemma_sep_unique(c1, d1, c2, d2, COMMA);
    }
}

} // verus!
