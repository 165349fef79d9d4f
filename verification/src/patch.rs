use vstd::prelude::*;
use vstd::slice::{slice_subrange, slice_to_vec};

use crate::bytes::{
    append_bytes, append_line, bytes_equal, lemma_lex_trans, lemma_lex_trichotomy,
    lemma_lines_no_nl, lemma_lines_of_join, lex_less, lex_lt, spec_join, spec_lines, split_lines,
    strictly_sorted, NL,
};
use crate::error::CommitGenError;
use crate::types::{ChangeGroup, FileChange, StagingPlan};

verus! {

/// `@`, the byte that frames a hunk header's range component.
pub const AT: u8 = 64;

/// The space byte.
pub const SP: u8 = 32;

/// `,` — kept by normalization.
pub const COMMA: u8 = 44;

/// `-` — kept by normalization.
pub const DASH: u8 = 45;

/// `+` — kept by normalization.
pub const PLUS: u8 = 43;

/// `/`, the separator after the `b` prefix of a diff header's new path.
pub const SLASH: u8 = 47;

/// `b`, the prefix letter of a diff header's new-path token.
pub const LOW_B: u8 = 98;

// ------------------------------------------------------------------
// Hunk-header normalization
// ------------------------------------------------------------------

/// Bytes that survive normalization: digits, comma, hyphen, plus.
pub open spec fn is_kept_byte(b: u8) -> bool {
    (48 <= b <= 57) || b == COMMA || b == DASH || b == PLUS
}

/// The subsequence of `s` made of the kept bytes, in order.
pub open spec fn keep_marks(s: Seq<u8>) -> Seq<u8>
    decreases s.len(),
{
    if s.len() == 0 {
        Seq::empty()
    } else if is_kept_byte(s[0]) {
        seq![s[0]] + keep_marks(s.drop_first())
    } else {
        keep_marks(s.drop_first())
    }
}

/// Index of the first `@@` marker in `s`, or `-1` if there is none.
pub open spec fn spec_find_marker(s: Seq<u8>) -> int
    decreases s.len(),
{
    if s.len() < 2 {
        -1
    } else if s[0] == AT && s[1] == AT {
        0
    } else if spec_find_marker(s.drop_first()) < 0 {
        -1
    } else {
        1 + spec_find_marker(s.drop_first())
    }
}

pub proof fn lemma_find_marker(s: Seq<u8>)
    ensures
        spec_find_marker(s) == -1 || 0 <= spec_find_marker(s) <= s.len() - 2,
        spec_find_marker(s) >= 0 ==> s[spec_find_marker(s)] == AT && s[spec_find_marker(s) + 1]
            == AT,
        forall|k: int| 0 <= k < spec_find_marker(s) ==> !(#[trigger] s[k] == AT && s[k + 1] == AT),
        spec_find_marker(s) == -1 ==> forall|k: int|
            0 <= k < s.len() - 1 ==> !(#[trigger] s[k] == AT && s[k + 1] == AT),
    decreases s.len(),
{
    if s.len() < 2 {
    } else if s[0] == AT && s[1] == AT {
    } else {
        lemma_find_marker(s.drop_first());
        assert forall|k: int| 1 <= k < s.len() - 1 implies (#[trigger] s[k] == AT && s[k + 1] == AT)
            == (s.drop_first()[k - 1] == AT && s.drop_first()[k] == AT) by {
            assert(s.drop_first()[k - 1] == s[k]);
            assert(s.drop_first()[k] == s[k + 1]);
        }
    }
}

/// The range component of a hunk header: the text after the first `@@`
/// marker, up to the second marker when one exists, to the end otherwise;
/// the whole header when no marker exists.
pub open spec fn spec_middle(s: Seq<u8>) -> Seq<u8> {
    let i = spec_find_marker(s);
    if i < 0 {
        s
    } else {
        let rest = s.subrange(i + 2, s.len() as int);
        let j = spec_find_marker(rest);
        if j < 0 {
            rest
        } else {
            rest.subrange(0, j)
        }
    }
}

/// Normalized form of a hunk header: its range component projected onto
/// digits, comma, hyphen and plus. Two headers are treated as the same
/// hunk exactly when their normalized forms are equal.
pub open spec fn spec_normalize(s: Seq<u8>) -> Seq<u8> {
    keep_marks(spec_middle(s))
}

// ------------------------------------------------------------------
// File-section extraction
// ------------------------------------------------------------------

/// The bytes of `diff --git`, the prefix that opens a file section.
pub open spec fn diff_git_prefix() -> Seq<u8> {
    seq![100u8, 105, 102, 102, 32, 45, 45, 103, 105, 116]
}

/// Does line `l` open a file section?
pub open spec fn is_diff_header(l: Seq<u8>) -> bool {
    l.len() >= 10 && l.subrange(0, 10) == diff_git_prefix()
}

/// Does diff-header line `l` carry `b/<path>` as its final token?
pub open spec fn names_path(l: Seq<u8>, path: Seq<u8>) -> bool {
    let n = l.len() as int;
    let p = path.len() as int;
    &&& n >= p + 3
    &&& l.subrange(n - p, n) == path
    &&& l[n - p - 3] == SP
    &&& l[n - p - 2] == LOW_B
    &&& l[n - p - 1] == SLASH
}

/// The lines of the sections whose diff header names `path`; `in_file`
/// says whether the scan stands inside such a section. Matching is
/// re-evaluated at every diff header, so a non-matching header ends a
/// kept section and every matching section is kept.
pub open spec fn extract_rec(ls: Seq<Seq<u8>>, path: Seq<u8>, in_file: bool) -> Seq<Seq<u8>>
    decreases ls.len(),
{
    if ls.len() == 0 {
        Seq::empty()
    } else {
        let l = ls[0];
        let rest = ls.drop_first();
        if is_diff_header(l) {
            if names_path(l, path) {
                seq![l] + extract_rec(rest, path, true)
            } else {
                extract_rec(rest, path, false)
            }
        } else if in_file {
            seq![l] + extract_rec(rest, path, true)
        } else {
            extract_rec(rest, path, false)
        }
    }
}

/// Does some diff header of `ls` name `path`?
pub open spec fn has_section(ls: Seq<Seq<u8>>, path: Seq<u8>) -> bool {
    exists|i: int|
        0 <= i < ls.len() && is_diff_header(#[trigger] ls[i]) && names_path(ls[i], path)
}

/// The text of `path`'s section in the full diff `d`, header lines
/// included and every line closed by a line feed.
pub open spec fn spec_file_section(d: Seq<u8>, path: Seq<u8>) -> Seq<u8> {
    spec_join(extract_rec(spec_lines(d), path, false))
}

/// Does line `l` open a file section?
fn is_diff_header_exec(l: &[u8]) -> (r: bool)
    ensures
        r == is_diff_header(l@),
{
    if l.len() < 10 {
        return false;
    }
    let r = l[0] == 100 && l[1] == 105 && l[2] == 102 && l[3] == 102 && l[4] == 32 && l[5] == 45
        && l[6] == 45 && l[7] == 103 && l[8] == 105 && l[9] == 116;
    proof {
        if r {
            assert(l@.subrange(0, 10) =~= diff_git_prefix());
        } else {
            if l@.subrange(0, 10) == diff_git_prefix() {
                assert(forall|t: int|
                    0 <= t < 10 ==> #[trigger] l@[t] == l@.subrange(0, 10)[t]);
            }
        }
    }
    r
}

/// Does diff-header line `l` carry `b/<path>` as its final token?
fn names_path_exec(l: &[u8], path: &[u8]) -> (r: bool)
    ensures
        r == names_path(l@, path@),
{
    let n = l.len();
    let p = path.len();
    if n < 3 || n - 3 < p {
        return false;
    }
    let tail = slice_subrange(l, n - p, n);
    let r = bytes_equal(tail, path) && l[n - p - 3] == SP && l[n - p - 2] == LOW_B && l[n - p - 1]
        == SLASH;
    r
}

/// Slice the section of `file_path` out of the captured full diff.
///
/// Succeeds exactly when some diff header names the path; the result is
/// that section's text (every matching section, in scan order), and a
/// missing path is reported as a not-found error carrying the path.
pub fn extract_file_diff(full_diff: &[u8], file_path: &[u8]) -> (r: Result<Vec<u8>, CommitGenError>)
    ensures
        match r {
            Ok(text) => has_section(spec_lines(full_diff@), file_path@) && text@
                == spec_file_section(full_diff@, file_path@),
            Err(e) => !has_section(spec_lines(full_diff@), file_path@) && (match e {
                CommitGenError::NotFound { path } => path@ == file_path@,
                _ => false,
            }),
        },
{
    let lines = split_lines(full_diff);
    let ghost lviews = lines@.map_values(|l: Vec<u8>| l@);
    let mut out: Vec<u8> = Vec::new();
    let mut in_file = false;
    let mut found = false;
    let mut t: usize = 0;
    proof {
        assert(lviews.subrange(0, lviews.len() as int) =~= lviews);
        assert(Seq::<u8>::empty() + spec_join(extract_rec(lviews, file_path@, false))
            =~= spec_join(extract_rec(lviews, file_path@, false)));
    }
    while t < lines.len()
        invariant
            t <= lines@.len(),
            lviews == lines@.map_values(|l: Vec<u8>| l@),
            lviews == spec_lines(full_diff@),
            spec_join(extract_rec(lviews, file_path@, false)) == out@ + spec_join(
                extract_rec(lviews.subrange(t as int, lviews.len() as int), file_path@, in_file),
            ),
            found == exists|i: int|
                0 <= i < t && is_diff_header(#[trigger] lviews[i]) && names_path(
                    lviews[i],
                    file_path@,
                ),
        decreases lines@.len() - t,
    {
        proof {
            let suf = lviews.subrange(t as int, lviews.len() as int);
            assert(suf[0] == lviews[t as int]);
            assert(lviews[t as int] == lines@[t as int]@);
            assert(suf.drop_first() =~= lviews.subrange(t as int + 1, lviews.len() as int));
        }
        let l = &lines[t];
        let ghost pre_found = found;
        if is_diff_header_exec(l.as_slice()) {
            if names_path_exec(l.as_slice(), file_path) {
                append_line(&mut out, l.as_slice());
                in_file = true;
                found = true;
            } else {
                in_file = false;
            }
        } else if in_file {
            append_line(&mut out, l.as_slice());
        }
        proof {
            let suf = lviews.subrange(t as int, lviews.len() as int);
            let rest = lviews.subrange(t as int + 1, lviews.len() as int);
            let kept = extract_rec(rest, file_path@, in_file);
            if is_diff_header(lviews[t as int]) && names_path(lviews[t as int], file_path@) {
                assert((seq![lviews[t as int]] + kept)[0] == lviews[t as int]);
                assert((seq![lviews[t as int]] + kept).drop_first() =~= kept);
                assert(spec_join(seq![lviews[t as int]] + kept) == lviews[t as int] + seq![NL]
                    + spec_join(kept));
            } else if !is_diff_header(lviews[t as int]) && in_file {
                assert((seq![lviews[t as int]] + kept)[0] == lviews[t as int]);
                assert((seq![lviews[t as int]] + kept).drop_first() =~= kept);
                assert(spec_join(seq![lviews[t as int]] + kept) == lviews[t as int] + seq![NL]
                    + spec_join(kept));
            }
            assert forall|x: Seq<u8>, y: Seq<u8>, z: Seq<u8>| #[trigger] ((x + y) + z) == x + (y
                + z) by {
                assert((x + y) + z =~= x + (y + z));
            }
            if found && !pre_found {
                assert(is_diff_header(lviews[t as int]) && names_path(
                    lviews[t as int],
                    file_path@,
                ));
            }
        }
        t += 1;
    }
    proof {
        assert(lviews.subrange(lviews.len() as int, lviews.len() as int)
            =~= Seq::<Seq<u8>>::empty());
        assert(out@ + Seq::<u8>::empty() =~= out@);
    }
    if found {
        Ok(out)
    } else {
        Err(CommitGenError::NotFound { path: slice_to_vec(file_path) })
    }
}

/// Find the first `@@` marker in `s`.
fn find_marker(s: &[u8]) -> (r: Option<usize>)
    ensures
        match r {
            Some(i) => spec_find_marker(s@) == i,
            None => spec_find_marker(s@) == -1,
        },
{
    proof {
        lemma_find_marker(s@);
    }
    let n = s.len();
    if n < 2 {
        return None;
    }
    let mut k: usize = 0;
    while k < n - 1
        invariant
            n == s@.len(),
            n >= 2,
            k <= n - 1,
            forall|t: int| 0 <= t < k ==> !(#[trigger] s@[t] == AT && s@[t + 1] == AT),
        decreases s@.len() - k,
    {
        if s[k] == AT && s[k + 1] == AT {
            proof {
                lemma_find_marker(s@);
            }
            return Some(k);
        }
        k += 1;
    }
    proof {
        lemma_find_marker(s@);
    }
    None
}

/// Project a hunk header onto its normalized form.
pub fn normalize_hunk_header(header: &[u8]) -> (r: Vec<u8>)
    ensures
        r@ == spec_normalize(header@),
{
    let middle: &[u8] = match find_marker(header) {
        None => header,
        Some(i) => {
            let n = header.len();
            proof {
                lemma_find_marker(header@);
                assert(i + 2 <= n);
            }
            let rest = slice_subrange(header, i + 2, n);
            match find_marker(rest) {
                None => rest,
                Some(j) => {
                    proof {
                        lemma_find_marker(rest@);
                    }
                    slice_subrange(rest, 0, j)
                },
            }
        },
    };
    proof {
        assert(middle@ == spec_middle(header@));
    }
    let mut out: Vec<u8> = Vec::new();
    let mut k: usize = 0;
    proof {
        assert(middle@.subrange(0, middle@.len() as int) =~= middle@);
        assert(Seq::<u8>::empty() + keep_marks(middle@) =~= keep_marks(middle@));
    }
    while k < middle.len()
        invariant
            k <= middle@.len(),
            keep_marks(middle@) == out@ + keep_marks(
                middle@.subrange(k as int, middle@.len() as int),
            ),
        decreases middle@.len() - k,
    {
        let b = middle[k];
        proof {
            let suf = middle@.subrange(k as int, middle@.len() as int);
            assert(suf[0] == middle@[k as int]);
            assert(suf.drop_first() =~= middle@.subrange(k as int + 1, middle@.len() as int));
            if is_kept_byte(b) {
                assert(out@ + (seq![b] + keep_marks(suf.drop_first())) =~= out@.push(b)
                    + keep_marks(suf.drop_first()));
            }
        }
        if (48 <= b && b <= 57) || b == COMMA || b == DASH || b == PLUS {
            out.push(b);
        }
        k += 1;
    }
    proof {
        assert(middle@.subrange(middle@.len() as int, middle@.len() as int)
            =~= Seq::<u8>::empty());
        assert(out@ + Seq::<u8>::empty() =~= out@);
    }
    out
}

// ------------------------------------------------------------------
// Hunk selection
// ------------------------------------------------------------------

/// Does line `l` open a hunk block (`@@ ` prefix)?
pub open spec fn is_hunk_line(l: Seq<u8>) -> bool {
    l.len() >= 3 && l[0] == AT && l[1] == AT && l[2] == SP
}

/// Does line `l` carry the `+++` new-path marker that closes a section's
/// preamble?
pub open spec fn is_newpath_line(l: Seq<u8>) -> bool {
    l.len() >= 3 && l[0] == PLUS && l[1] == PLUS && l[2] == PLUS
}

/// Does some requested header normalize to the same form as `l`?
pub open spec fn matches_any(l: Seq<u8>, hdrs: Seq<Seq<u8>>) -> bool {
    exists|i: int| 0 <= i < hdrs.len() && spec_normalize(#[trigger] hdrs[i]) == spec_normalize(l)
}

/// One pass over a file section's lines: the preamble is copied through
/// the `+++` marker line; after it, a hunk block (its header line through
/// the next header) is kept exactly when its header normalizes to a
/// requested one.
pub open spec fn select_rec(
    ls: Seq<Seq<u8>>,
    hdrs: Seq<Seq<u8>>,
    in_header: bool,
    keeping: bool,
) -> Seq<Seq<u8>>
    decreases ls.len(),
{
    if ls.len() == 0 {
        Seq::empty()
    } else {
        let l = ls[0];
        let rest = ls.drop_first();
        if in_header {
            seq![l] + select_rec(rest, hdrs, !is_newpath_line(l), false)
        } else if is_hunk_line(l) {
            if matches_any(l, hdrs) {
                seq![l] + select_rec(rest, hdrs, false, true)
            } else {
                select_rec(rest, hdrs, false, false)
            }
        } else if keeping {
            seq![l] + select_rec(rest, hdrs, false, true)
        } else {
            select_rec(rest, hdrs, false, false)
        }
    }
}

/// Does the pass keep at least one hunk block?
pub open spec fn selects_some(ls: Seq<Seq<u8>>, hdrs: Seq<Seq<u8>>, in_header: bool) -> bool
    decreases ls.len(),
{
    if ls.len() == 0 {
        false
    } else {
        let l = ls[0];
        let rest = ls.drop_first();
        if in_header {
            selects_some(rest, hdrs, !is_newpath_line(l))
        } else if is_hunk_line(l) {
            matches_any(l, hdrs) || selects_some(rest, hdrs, false)
        } else {
            selects_some(rest, hdrs, false)
        }
    }
}

/// Does some hunk-header line of `ls` normalize like `h`?
pub open spec fn some_hunk_matches(h: Seq<u8>, ls: Seq<Seq<u8>>) -> bool {
    exists|i: int|
        0 <= i < ls.len() && is_hunk_line(#[trigger] ls[i]) && spec_normalize(ls[i])
            == spec_normalize(h)
}

/// The requested headers that match no hunk-header line of `ls`, in
/// request order.
pub open spec fn spec_unmatched(hdrs: Seq<Seq<u8>>, ls: Seq<Seq<u8>>) -> Seq<Seq<u8>>
    decreases hdrs.len(),
{
    if hdrs.len() == 0 {
        Seq::empty()
    } else {
        let rest = spec_unmatched(hdrs.drop_first(), ls);
        if some_hunk_matches(hdrs[0], ls) {
            rest
        } else {
            seq![hdrs[0]] + rest
        }
    }
}

/// The bytes of `ALL`, the whole-file sentinel.
pub open spec fn all_sentinel() -> Seq<u8> {
    seq![65u8, 76, 76]
}

/// Is this hunk list the whole-file sentinel `["ALL"]`?
pub open spec fn is_all_selector(hunks: Seq<Seq<u8>>) -> bool {
    hunks.len() == 1 && hunks[0] == all_sentinel()
}

/// Does line `l` open a hunk block?
fn is_hunk_line_exec(l: &[u8]) -> (r: bool)
    ensures
        r == is_hunk_line(l@),
{
    l.len() >= 3 && l[0] == AT && l[1] == AT && l[2] == SP
}

/// Does line `l` carry the `+++` marker?
fn is_newpath_line_exec(l: &[u8]) -> (r: bool)
    ensures
        r == is_newpath_line(l@),
{
    l.len() >= 3 && l[0] == PLUS && l[1] == PLUS && l[2] == PLUS
}

/// Does some requested header normalize like `l`?
fn matches_any_exec(l: &[u8], hdrs: &Vec<Vec<u8>>) -> (r: bool)
    ensures
        r == matches_any(l@, hdrs@.map_values(|h: Vec<u8>| h@)),
{
    let ghost hs = hdrs@.map_values(|h: Vec<u8>| h@);
    let norm_l = normalize_hunk_header(l);
    let mut i: usize = 0;
    while i < hdrs.len()
        invariant
            i <= hdrs@.len(),
            hs == hdrs@.map_values(|h: Vec<u8>| h@),
            norm_l@ == spec_normalize(l@),
            forall|k: int| 0 <= k < i ==> spec_normalize(#[trigger] hs[k]) != spec_normalize(l@),
        decreases hdrs@.len() - i,
    {
        proof {
            assert(hs[i as int] == hdrs@[i as int]@);
        }
        let norm_h = normalize_hunk_header(hdrs[i].as_slice());
        if bytes_equal(norm_h.as_slice(), norm_l.as_slice()) {
            return true;
        }
        i += 1;
    }
    false
}

/// Does some hunk-header line of `lines` normalize like `h`?
fn some_hunk_matches_exec(h: &[u8], lines: &Vec<Vec<u8>>) -> (r: bool)
    ensures
        r == some_hunk_matches(h@, lines@.map_values(|l: Vec<u8>| l@)),
{
    let ghost lsv = lines@.map_values(|l: Vec<u8>| l@);
    let norm_h = normalize_hunk_header(h);
    let mut i: usize = 0;
    while i < lines.len()
        invariant
            i <= lines@.len(),
            lsv == lines@.map_values(|l: Vec<u8>| l@),
            norm_h@ == spec_normalize(h@),
            forall|k: int|
                0 <= k < i ==> !(is_hunk_line(#[trigger] lsv[k]) && spec_normalize(lsv[k])
                    == spec_normalize(h@)),
        decreases lines@.len() - i,
    {
        proof {
            assert(lsv[i as int] == lines@[i as int]@);
        }
        if is_hunk_line_exec(lines[i].as_slice()) {
            let norm_l = normalize_hunk_header(lines[i].as_slice());
            if bytes_equal(norm_l.as_slice(), norm_h.as_slice()) {
                return true;
            }
        }
        i += 1;
    }
    false
}

/// Collect the requested headers that match no hunk-header line.
fn unmatched_headers(hdrs: &Vec<Vec<u8>>, lines: &Vec<Vec<u8>>) -> (r: Vec<Vec<u8>>)
    ensures
        r@.map_values(|h: Vec<u8>| h@) == spec_unmatched(
            hdrs@.map_values(|h: Vec<u8>| h@),
            lines@.map_values(|l: Vec<u8>| l@),
        ),
{
    let ghost hs = hdrs@.map_values(|h: Vec<u8>| h@);
    let ghost lsv = lines@.map_values(|l: Vec<u8>| l@);
    let mut out: Vec<Vec<u8>> = Vec::new();
    let mut t: usize = 0;
    proof {
        assert(hs.subrange(0, hs.len() as int) =~= hs);
        assert(Seq::<Seq<u8>>::empty() + spec_unmatched(hs, lsv) =~= spec_unmatched(hs, lsv));
    }
    while t < hdrs.len()
        invariant
            t <= hdrs@.len(),
            hs == hdrs@.map_values(|h: Vec<u8>| h@),
            lsv == lines@.map_values(|l: Vec<u8>| l@),
            spec_unmatched(hs, lsv) == out@.map_values(|h: Vec<u8>| h@) + spec_unmatched(
                hs.subrange(t as int, hs.len() as int),
                lsv,
            ),
        decreases hdrs@.len() - t,
    {
        proof {
            let suf = hs.subrange(t as int, hs.len() as int);
            assert(suf[0] == hs[t as int]);
            assert(hs[t as int] == hdrs@[t as int]@);
            assert(suf.drop_first() =~= hs.subrange(t as int + 1, hs.len() as int));
        }
        if !some_hunk_matches_exec(hdrs[t].as_slice(), lines) {
            let h = slice_to_vec(hdrs[t].as_slice());
            proof {
                let suf2 = hs.subrange(t as int + 1, hs.len() as int);
                assert((out@.push(h)).map_values(|x: Vec<u8>| x@) =~= out@.map_values(
                    |x: Vec<u8>| x@,
                ) + seq![h@]);
                assert(out@.map_values(|x: Vec<u8>| x@) + (seq![h@] + spec_unmatched(suf2, lsv))
                    =~= (out@.map_values(|x: Vec<u8>| x@) + seq![h@]) + spec_unmatched(suf2, lsv));
            }
            out.push(h);
        }
        t += 1;
    }
    proof {
        assert(hs.subrange(hs.len() as int, hs.len() as int) =~= Seq::<Seq<u8>>::empty());
        assert(out@.map_values(|h: Vec<u8>| h@) + Seq::<Seq<u8>>::empty() =~= out@.map_values(
            |h: Vec<u8>| h@,
        ));
    }
    out
}

/// Is this hunk list the whole-file sentinel?
fn is_all_selector_exec(hunks: &Vec<Vec<u8>>) -> (r: bool)
    ensures
        r == is_all_selector(hunks@.map_values(|h: Vec<u8>| h@)),
{
    proof {
        if hunks@.len() == 1 {
            assert(hunks@.map_values(|h: Vec<u8>| h@)[0] == hunks@[0]@);
        }
    }
    if hunks.len() != 1 {
        return false;
    }
    let h = &hunks[0];
    if h.len() != 3 {
        return false;
    }
    let r = h[0] == 65 && h[1] == 76 && h[2] == 76;
    proof {
        if r {
            assert(h@ =~= all_sentinel());
        } else {
            if h@ == all_sentinel() {
                assert(h@[0] == 65 && h@[1] == 76 && h@[2] == 76);
            }
        }
    }
    r
}

/// No line kept by `extract_rec` holds a line feed if none of the input
/// lines does.
pub proof fn lemma_extract_rec_no_nl(ls: Seq<Seq<u8>>, path: Seq<u8>, in_file: bool)
    requires
        forall|t: int, k: int|
            0 <= t < ls.len() && 0 <= k < ls[t].len() ==> ls[t][k] != NL,
    ensures
        forall|t: int, k: int|
            0 <= t < extract_rec(ls, path, in_file).len() && 0 <= k < extract_rec(
                ls,
                path,
                in_file,
            )[t].len() ==> extract_rec(ls, path, in_file)[t][k] != NL,
    decreases ls.len(),
{
    if ls.len() == 0 {
    } else {
        let rest = ls.drop_first();
        assert forall|t: int, k: int|
            0 <= t < rest.len() && 0 <= k < rest[t].len() implies rest[t][k] != NL by {
            assert(rest[t] == ls[t + 1]);
        }
        lemma_extract_rec_no_nl(rest, path, true);
        lemma_extract_rec_no_nl(rest, path, false);
        let out = extract_rec(ls, path, in_file);
        let l = ls[0];
        if (is_diff_header(l) && names_path(l, path)) || (!is_diff_header(l) && in_file) {
            let sub = extract_rec(rest, path, true);
            assert(out == seq![l] + sub);
            assert forall|t: int, k: int|
                0 <= t < out.len() && 0 <= k < out[t].len() implies out[t][k] != NL by {
                if t == 0 {
                    assert(out[0] == l);
                    assert(ls[0][k] != NL);
                } else {
                    assert(out[t] == sub[t - 1]);
                }
            }
        } else {
            assert(out == extract_rec(rest, path, false));
        }
    }
}

/// Compose the part of `file_path`'s section selected by `hunk_headers`.
///
/// The sentinel list `["ALL"]` yields the whole section. Otherwise the
/// result holds the section's preamble and exactly the hunk blocks whose
/// headers normalize to a requested one; when no block matches, the call
/// fails with a validation error naming the file and the requested
/// headers that matched nothing.
pub fn extract_hunks_for_file(
    full_diff: &[u8],
    file_path: &[u8],
    hunk_headers: &Vec<Vec<u8>>,
) -> (r: Result<Vec<u8>, CommitGenError>)
    ensures
        ({
            let ls = spec_lines(full_diff@);
            let sect = extract_rec(ls, file_path@, false);
            let hs = hunk_headers@.map_values(|h: Vec<u8>| h@);
            match r {
                Ok(text) => has_section(ls, file_path@) && if is_all_selector(hs) {
                    text@ == spec_join(sect)
                } else {
                    selects_some(sect, hs, true) && text@ == spec_join(
                        select_rec(sect, hs, true, false),
                    )
                },
                Err(e) => expected_error(e, full_diff@, file_path@, hs),
            }
        }),
{
    let ghost ls = spec_lines(full_diff@);
    let ghost sect = extract_rec(ls, file_path@, false);
    let ghost hs = hunk_headers@.map_values(|h: Vec<u8>| h@);
    let all = is_all_selector_exec(hunk_headers);
    let section = match extract_file_diff(full_diff, file_path) {
        Ok(s) => s,
        Err(e) => {
            return Err(e);
        },
    };
    if all {
        return Ok(section);
    }
    let lines = split_lines(section.as_slice());
    proof {
        lemma_lines_no_nl(full_diff@);
        lemma_extract_rec_no_nl(ls, file_path@, false);
        lemma_lines_of_join(sect);
        assert(lines@.map_values(|l: Vec<u8>| l@) == sect);
    }
    let mut out: Vec<u8> = Vec::new();
    let mut in_header = true;
    let mut keeping = false;
    let mut selected = false;
    let mut t: usize = 0;
    proof {
        assert(sect.subrange(0, sect.len() as int) =~= sect);
        assert(Seq::<u8>::empty() + spec_join(select_rec(sect, hs, true, false)) =~= spec_join(
            select_rec(sect, hs, true, false),
        ));
    }
    while t < lines.len()
        invariant
            t <= lines@.len(),
            sect == lines@.map_values(|l: Vec<u8>| l@),
            hs == hunk_headers@.map_values(|h: Vec<u8>| h@),
            spec_join(select_rec(sect, hs, true, false)) == out@ + spec_join(
                select_rec(sect.subrange(t as int, sect.len() as int), hs, in_header, keeping),
            ),
            selects_some(sect, hs, true) == (selected || selects_some(
                sect.subrange(t as int, sect.len() as int),
                hs,
                in_header,
            )),
        decreases lines@.len() - t,
    {
        proof {
            let suf = sect.subrange(t as int, sect.len() as int);
            assert(suf[0] == sect[t as int]);
            assert(sect[t as int] == lines@[t as int]@);
            assert(suf.drop_first() =~= sect.subrange(t as int + 1, sect.len() as int));
        }
        let l = &lines[t];
        if in_header {
            append_line(&mut out, l.as_slice());
            in_header = !is_newpath_line_exec(l.as_slice());
            keeping = false;
        } else if is_hunk_line_exec(l.as_slice()) {
            if matches_any_exec(l.as_slice(), hunk_headers) {
                append_line(&mut out, l.as_slice());
                selected = true;
                keeping = true;
            } else {
                keeping = false;
            }
        } else if keeping {
            append_line(&mut out, l.as_slice());
        }
        proof {
            let lv = sect[t as int];
            let rest = sect.subrange(t as int + 1, sect.len() as int);
            let kept = select_rec(rest, hs, in_header, keeping);
            assert((seq![lv] + kept)[0] == lv);
            assert((seq![lv] + kept).drop_first() =~= kept);
            assert forall|x: Seq<u8>, y: Seq<u8>, z: Seq<u8>| #[trigger] ((x + y) + z) == x + (y
                + z) by {
                assert((x + y) + z =~= x + (y + z));
            }
        }
        t += 1;
    }
    proof {
        assert(sect.subrange(sect.len() as int, sect.len() as int) =~= Seq::<Seq<u8>>::empty());
        assert(out@ + Seq::<u8>::empty() =~= out@);
    }
    if selected {
        Ok(out)
    } else {
        let unmatched = unmatched_headers(hunk_headers, &lines);
        Err(CommitGenError::ValidationError {
            path: slice_to_vec(file_path),
            unmatched_hunks: unmatched,
        })
    }
}

/// The error owed for one file change against snapshot `d`: not-found
/// when no section names the path, a validation error naming the path
/// and the unmatched headers when the selection keeps no hunk.
pub open spec fn expected_error(
    e: CommitGenError,
    d: Seq<u8>,
    path: Seq<u8>,
    hunks: Seq<Seq<u8>>,
) -> bool {
    match e {
        CommitGenError::NotFound { path: p } => !has_section(spec_lines(d), path) && p@ == path,
        CommitGenError::ValidationError { path: p, unmatched_hunks } => {
            let sect = extract_rec(spec_lines(d), path, false);
            &&& has_section(spec_lines(d), path)
            &&& !is_all_selector(hunks)
            &&& !selects_some(sect, hunks, true)
            &&& p@ == path
            &&& unmatched_hunks@.map_values(|h: Vec<u8>| h@) == spec_unmatched(hunks, sect)
        },
        _ => false,
    }
}

// ------------------------------------------------------------------
// Patch composition and the staging plan
// ------------------------------------------------------------------

/// Does change `c` compose successfully against snapshot `d`?
pub open spec fn change_ok(d: Seq<u8>, c: FileChange) -> bool {
    let ls = spec_lines(d);
    let hs = c.hunks@.map_values(|h: Vec<u8>| h@);
    has_section(ls, c.path@) && (is_all_selector(hs) || selects_some(
        extract_rec(ls, c.path@, false),
        hs,
        true,
    ))
}

/// The text change `c` composes against snapshot `d`: the whole section
/// for the sentinel, the selected hunks otherwise.
pub open spec fn change_text(d: Seq<u8>, c: FileChange) -> Seq<u8> {
    let sect = extract_rec(spec_lines(d), c.path@, false);
    let hs = c.hunks@.map_values(|h: Vec<u8>| h@);
    if is_all_selector(hs) {
        spec_join(sect)
    } else {
        spec_join(select_rec(sect, hs, true, false))
    }
}

/// The changes' composed texts concatenated in caller order; each section
/// is self-delimiting, so no separator stands between them.
pub open spec fn spec_compose_all(d: Seq<u8>, cs: Seq<FileChange>) -> Seq<u8>
    decreases cs.len(),
{
    if cs.len() == 0 {
        Seq::empty()
    } else {
        change_text(d, cs[0]) + spec_compose_all(d, cs.drop_first())
    }
}

/// Compose one patch from the selected file changes, in caller order.
///
/// Fails on the first change whose path is absent from the snapshot or
/// whose hunk selection keeps nothing; nothing is composed past that
/// change, so a group is staged all-or-nothing.
pub fn create_patch_for_changes(full_diff: &[u8], changes: &Vec<FileChange>) -> (r: Result<
    Vec<u8>,
    CommitGenError,
>)
    ensures
        match r {
            Ok(patch) => (forall|i: int|
                0 <= i < changes@.len() ==> change_ok(full_diff@, #[trigger] changes@[i]))
                && patch@ == spec_compose_all(full_diff@, changes@),
            Err(e) => exists|i: int|
                0 <= i < changes@.len() && !change_ok(full_diff@, #[trigger] changes@[i]) && (
                forall|k: int| 0 <= k < i ==> change_ok(full_diff@, #[trigger] changes@[k]))
                    && expected_error(
                    e,
                    full_diff@,
                    changes@[i].path@,
                    changes@[i].hunks@.map_values(|h: Vec<u8>| h@),
                ),
        },
{
    let mut out: Vec<u8> = Vec::new();
    let mut t: usize = 0;
    proof {
        assert(changes@.subrange(0, changes@.len() as int) =~= changes@);
        assert(Seq::<u8>::empty() + spec_compose_all(full_diff@, changes@) =~= spec_compose_all(
            full_diff@,
            changes@,
        ));
    }
    while t < changes.len()
        invariant
            t <= changes@.len(),
            forall|k: int| 0 <= k < t ==> change_ok(full_diff@, #[trigger] changes@[k]),
            spec_compose_all(full_diff@, changes@) == out@ + spec_compose_all(
                full_diff@,
                changes@.subrange(t as int, changes@.len() as int),
            ),
        decreases changes@.len() - t,
    {
        proof {
            let suf = changes@.subrange(t as int, changes@.len() as int);
            assert(suf[0] == changes@[t as int]);
            assert(suf.drop_first() =~= changes@.subrange(t as int + 1, changes@.len() as int));
        }
        let c = &changes[t];
        match extract_hunks_for_file(full_diff, c.path.as_slice(), &c.hunks) {
            Ok(text) => {
                proof {
                    assert(change_ok(full_diff@, changes@[t as int]));
                    assert(text@ == change_text(full_diff@, changes@[t as int]));
                    assert((out@ + text@) + spec_compose_all(
                        full_diff@,
                        changes@.subrange(t as int + 1, changes@.len() as int),
                    ) =~= out@ + (text@ + spec_compose_all(
                        full_diff@,
                        changes@.subrange(t as int + 1, changes@.len() as int),
                    )));
                }
                append_bytes(&mut out, text.as_slice());
            },
            Err(e) => {
                proof {
                    assert(!change_ok(full_diff@, changes@[t as int]));
                }
                return Err(e);
            },
        }
        t += 1;
    }
    proof {
        assert(changes@.subrange(changes@.len() as int, changes@.len() as int)
            =~= Seq::<FileChange>::empty());
        assert(out@ + Seq::<u8>::empty() =~= out@);
    }
    Ok(out)
}

/// Is change `c` a whole-file selection?
pub open spec fn is_full_file(c: FileChange) -> bool {
    is_all_selector(c.hunks@.map_values(|h: Vec<u8>| h@))
}

/// The paths of the whole-file selections, in group order.
pub open spec fn spec_full_paths(cs: Seq<FileChange>) -> Seq<Seq<u8>>
    decreases cs.len(),
{
    if cs.len() == 0 {
        Seq::empty()
    } else if is_full_file(cs[0]) {
        seq![cs[0].path@] + spec_full_paths(cs.drop_first())
    } else {
        spec_full_paths(cs.drop_first())
    }
}

/// The hunk-level selections, in group order.
pub open spec fn spec_partials(cs: Seq<FileChange>) -> Seq<FileChange>
    decreases cs.len(),
{
    if cs.len() == 0 {
        Seq::empty()
    } else if is_full_file(cs[0]) {
        spec_partials(cs.drop_first())
    } else {
        seq![cs[0]] + spec_partials(cs.drop_first())
    }
}

/// Does some element of `fs` hold exactly the bytes `x`?
pub open spec fn contains_path(fs: Seq<Vec<u8>>, x: Seq<u8>) -> bool {
    exists|k: int| 0 <= k < fs.len() && (#[trigger] fs[k]@) == x
}

/// Insert `p` into a strictly sorted list of paths, keeping it sorted and
/// free of duplicates.
fn insert_sorted_unique(files: &mut Vec<Vec<u8>>, p: Vec<u8>)
    requires
        strictly_sorted(old(files)@.map_values(|f: Vec<u8>| f@)),
    ensures
        strictly_sorted(final(files)@.map_values(|f: Vec<u8>| f@)),
        forall|x: Seq<u8>|
            #[trigger] contains_path(final(files)@, x) <==> (contains_path(old(files)@, x) || x
                == p@),
{
    let ghost fv = files@.map_values(|f: Vec<u8>| f@);
    let mut i: usize = 0;
    while i < files.len() && lex_less(files[i].as_slice(), p.as_slice())
        invariant
            i <= files@.len(),
            files@.map_values(|f: Vec<u8>| f@) == fv,
            forall|k: int| 0 <= k < i ==> lex_lt(#[trigger] fv[k], p@),
        decreases files@.len() - i,
    {
        proof {
            assert(fv[i as int] == files@[i as int]@);
        }
        i += 1;
    }
    proof {
        if i < fv.len() {
            assert(fv[i as int] == files@[i as int]@);
        }
    }
    if i < files.len() {
        if bytes_equal(files[i].as_slice(), p.as_slice()) {
            proof {
                assert(files@[i as int]@ == p@);
                assert(contains_path(files@, p@));
            }
            return ;
        }
    }
    let ghost pv = p@;
    files.insert(i, p);
    proof {
        let fv2 = files@.map_values(|f: Vec<u8>| f@);
        old(files)@.insert_ensures(i as int, p);
        assert forall|k: int| 0 <= k < files@.len() implies files@[k]@ == (if k < i {
            fv[k]
        } else if k == i {
            pv
        } else {
            fv[k - 1]
        }) by {
            if k < i {
                assert(files@[k] == old(files)@[k]);
                assert(fv[k] == old(files)@[k]@);
            } else if k > i {
                assert(files@[k] == old(files)@[k - 1]);
                assert(fv[k - 1] == old(files)@[k - 1]@);
            }
        }
        assert forall|k: int| 0 <= k < fv2.len() implies fv2[k] == (if k < i {
            fv[k]
        } else if k == i {
            pv
        } else {
            fv[k - 1]
        }) by {
            assert(fv2[k] == files@[k]@);
        }
        assert forall|a: int, b: int| 0 <= a < b < fv2.len() implies lex_lt(
            #[trigger] fv2[a],
            #[trigger] fv2[b],
        ) by {
            if a < i && b == i {
                assert(lex_lt(fv[a], pv));
            } else if a == i && b > i {
                lemma_lex_trichotomy(fv[i as int], pv);
                assert(lex_lt(pv, fv[i as int]));
                if b > i + 1 {
                    lemma_lex_trans(pv, fv[i as int], fv[b - 1]);
                }
            } else if a < i && b > i {
                assert(lex_lt(fv[a], fv[b - 1]));
            }
        }
        assert forall|x: Seq<u8>| #[trigger]
            contains_path(files@, x) <==> (contains_path(old(files)@, x) || x == pv) by {
            if contains_path(files@, x) {
                let k = choose|k: int| 0 <= k < files@.len() && (#[trigger] files@[k]@) == x;
                if k < i {
                    assert(old(files)@[k]@ == x);
                    assert(contains_path(old(files)@, x));
                } else if k > i {
                    assert(old(files)@[k - 1]@ == x);
                    assert(contains_path(old(files)@, x));
                }
            }
            if contains_path(old(files)@, x) {
                let k = choose|k: int|
                    0 <= k < old(files)@.len() && (#[trigger] old(files)@[k]@) == x;
                if k < i {
                    assert(files@[k]@ == x);
                } else {
                    assert(files@[k + 1]@ == x);
                }
                assert(contains_path(files@, x));
            }
            if x == pv {
                assert(files@[i as int]@ == x);
                assert(contains_path(files@, x));
            }
        }
    }
}

/// Turn one change group into a staging plan against the captured
/// snapshot: the whole-file paths deduplicated and sorted, and one patch
/// composed from the hunk-level selections (none when the group has no
/// such selection). Fails, composing nothing, on the first hunk-level
/// change whose path is absent or whose selection keeps no hunk.
#[verifier::rlimit(50)]
pub fn stage_group_changes(group: &ChangeGroup, full_diff: &[u8]) -> (r: Result<
    StagingPlan,
    CommitGenError,
>)
    ensures
        ({
            let fulls = spec_full_paths(group.changes@);
            let ps = spec_partials(group.changes@);
            match r {
                Ok(plan) => {
                    let fv = plan.files_to_stage@.map_values(|p: Vec<u8>| p@);
                    &&& strictly_sorted(fv)
                    &&& forall|x: Seq<u8>| #[trigger]
                        contains_path(plan.files_to_stage@, x) <==> fulls.contains(x)
                    &&& forall|i: int|
                        0 <= i < ps.len() ==> change_ok(full_diff@, #[trigger] ps[i])
                    &&& match plan.patch {
                        Some(p) => ps.len() > 0 && p@ == spec_compose_all(full_diff@, ps),
                        None => ps.len() == 0,
                    }
                },
                Err(e) => exists|i: int|
                    0 <= i < ps.len() && !change_ok(full_diff@, #[trigger] ps[i]) && (forall|
                        k: int,
                    | 0 <= k < i ==> change_ok(full_diff@, #[trigger] ps[k])) && expected_error(
                        e,
                        full_diff@,
                        ps[i].path@,
                        ps[i].hunks@.map_values(|h: Vec<u8>| h@),
                    ),
            }
        }),
{
    let cs = &group.changes;
    let mut files: Vec<Vec<u8>> = Vec::new();
    let mut patch: Vec<u8> = Vec::new();
    let ghost mut done: Seq<FileChange> = Seq::empty();
    let mut any_partial = false;
    let mut t: usize = 0;
    proof {
        assert(cs@.subrange(0, cs@.len() as int) =~= cs@);
        assert(Seq::<FileChange>::empty() + spec_partials(cs@) =~= spec_partials(cs@));
        assert(Seq::<u8>::empty() + spec_compose_all(full_diff@, spec_partials(cs@))
            =~= spec_compose_all(full_diff@, spec_partials(cs@)));
    }
    while t < cs.len()
        invariant
            t <= cs@.len(),
            cs@ == group.changes@,
            strictly_sorted(files@.map_values(|f: Vec<u8>| f@)),
            forall|x: Seq<u8>| #[trigger]
                spec_full_paths(cs@).contains(x) <==> (contains_path(files@, x)
                    || spec_full_paths(cs@.subrange(t as int, cs@.len() as int)).contains(x)),
            spec_partials(cs@) == done + spec_partials(cs@.subrange(t as int, cs@.len() as int)),
            forall|k: int| 0 <= k < done.len() ==> change_ok(full_diff@, #[trigger] done[k]),
            spec_compose_all(full_diff@, spec_partials(cs@)) == patch@ + spec_compose_all(
                full_diff@,
                spec_partials(cs@.subrange(t as int, cs@.len() as int)),
            ),
            any_partial == (done.len() > 0),
        decreases cs@.len() - t,
    {
        proof {
            let suf = cs@.subrange(t as int, cs@.len() as int);
            assert(suf[0] == cs@[t as int]);
            assert(suf.drop_first() =~= cs@.subrange(t as int + 1, cs@.len() as int));
        }
        let c = &cs[t];
        if is_all_selector_exec(&c.hunks) {
            insert_sorted_unique(&mut files, slice_to_vec(c.path.as_slice()));
            proof {
                let suf = cs@.subrange(t as int, cs@.len() as int);
                let rest = cs@.subrange(t as int + 1, cs@.len() as int);
                let pathv = cs@[t as int].path@;
                assert(spec_full_paths(suf) == seq![pathv] + spec_full_paths(rest));
                assert forall|x: Seq<u8>| #[trigger]
                    spec_full_paths(suf).contains(x) <==> (x == pathv || spec_full_paths(
                        rest,
                    ).contains(x)) by {
                    let s1 = seq![pathv] + spec_full_paths(rest);
                    if s1.contains(x) {
                        let k = choose|k: int| 0 <= k < s1.len() && s1[k] == x;
                        if k > 0 {
                            assert(spec_full_paths(rest)[k - 1] == x);
                            assert(spec_full_paths(rest).contains(x));
                        }
                    }
                    if x == pathv {
                        assert(s1[0] == x);
                        assert(s1.contains(x));
                    }
                    if spec_full_paths(rest).contains(x) {
                        let k = choose|k: int|
                            0 <= k < spec_full_paths(rest).len() && spec_full_paths(rest)[k] == x;
                        assert(s1[k + 1] == x);
                        assert(s1.contains(x));
                    }
                }
            }
        } else {
            let ghost suf2 = cs@.subrange(t as int + 1, cs@.len() as int);
            proof {
                assert(spec_partials(cs@.subrange(t as int, cs@.len() as int)) == seq![
                    cs@[t as int],
                ] + spec_partials(suf2));
                assert((seq![cs@[t as int]] + spec_partials(suf2))[0] == cs@[t as int]);
                assert((seq![cs@[t as int]] + spec_partials(suf2)).drop_first() =~= spec_partials(
                    suf2,
                ));
            }
            match extract_hunks_for_file(full_diff, c.path.as_slice(), &c.hunks) {
                Ok(text) => {
                    proof {
                        assert(change_ok(full_diff@, cs@[t as int]));
                        assert(text@ == change_text(full_diff@, cs@[t as int]));
                        assert((patch@ + text@) + spec_compose_all(full_diff@, spec_partials(suf2))
                            =~= patch@ + (text@ + spec_compose_all(
                            full_diff@,
                            spec_partials(suf2),
                        )));
                        assert(done + (seq![cs@[t as int]] + spec_partials(suf2)) =~= (done + seq![
                            cs@[t as int],
                        ]) + spec_partials(suf2));
                    }
                    append_bytes(&mut patch, text.as_slice());
                    proof {
                        done = done + seq![cs@[t as int]];
                        assert(done[done.len() - 1] == cs@[t as int]);
                    }
                    any_partial = true;
                },
                Err(e) => {
                    proof {
                        assert(cs@ == group.changes@);
                        let ps = spec_partials(group.changes@);
                        let i = done.len() as int;
                        assert(!change_ok(full_diff@, cs@[t as int]));
                        assert(ps[i] == cs@[t as int]);
                        assert forall|k: int| 0 <= k < i implies change_ok(
                            full_diff@,
                            #[trigger] ps[k],
                        ) by {
                            assert(ps[k] == done[k]);
                        }
                        assert(expected_error(
                            e,
                            full_diff@,
                            ps[i].path@,
                            ps[i].hunks@.map_values(|h: Vec<u8>| h@),
                        ));
                        assert(exists|i: int|
                            0 <= i < ps.len() && !change_ok(full_diff@, #[trigger] ps[i]) && (
                            forall|k: int| 0 <= k < i ==> change_ok(full_diff@, #[trigger] ps[k]))
                                && expected_error(
                                e,
                                full_diff@,
                                ps[i].path@,
                                ps[i].hunks@.map_values(|h: Vec<u8>| h@),
                            ));
                    }
                    return Err(e);
                },
            }
        }
        t += 1;
    }
    proof {
        let empty_suf = cs@.subrange(cs@.len() as int, cs@.len() as int);
        assert(empty_suf =~= Seq::<FileChange>::empty());
        assert(done + Seq::<FileChange>::empty() =~= done);
        assert(patch@ + Seq::<u8>::empty() =~= patch@);
        assert(spec_partials(cs@) == done);
    }
    if any_partial {
        Ok(StagingPlan { files_to_stage: files, patch: Some(patch) })
    } else {
        Ok(StagingPlan { files_to_stage: files, patch: None })
    }
}

} // verus!
