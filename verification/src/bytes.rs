use vstd::prelude::*;
use vstd::slice::{slice_subrange, slice_to_vec};

verus! {

/// The line feed byte, the separator of the unified-diff text format.
pub const NL: u8 = 10;

/// Index of the first line feed in `s`, or `s.len()` if there is none.
pub open spec fn spec_first_nl(s: Seq<u8>) -> int
    decreases s.len(),
{
    if s.len() == 0 {
        0
    } else if s[0] == NL {
        0
    } else {
        1 + spec_first_nl(s.drop_first())
    }
}

pub proof fn lemma_first_nl(s: Seq<u8>)
    ensures
        0 <= spec_first_nl(s) <= s.len(),
        forall|k: int| 0 <= k < spec_first_nl(s) ==> s[k] != NL,
        spec_first_nl(s) < s.len() ==> s[spec_first_nl(s)] == NL,
    decreases s.len(),
{
    if s.len() == 0 {
    } else if s[0] == NL {
    } else {
        lemma_first_nl(s.drop_first());
        assert forall|k: int| 0 <= k < spec_first_nl(s) implies s[k] != NL by {
            if k > 0 {
                assert(s.drop_first()[k - 1] == s[k]);
            }
        }
        if spec_first_nl(s) < s.len() {
            assert(s.drop_first()[spec_first_nl(s) - 1] == s[spec_first_nl(s)]);
        }
    }
}

/// The lines of `s`, split at line feeds, the separators dropped; text
/// after the last line feed forms a final line, and a trailing line feed
/// adds none.
pub open spec fn spec_lines(s: Seq<u8>) -> Seq<Seq<u8>>
    decreases s.len(),
    via spec_lines_decreases
{
    if s.len() == 0 {
        Seq::empty()
    } else {
        let i = spec_first_nl(s);
        if i == s.len() {
            seq![s]
        } else {
            seq![s.subrange(0, i)] + spec_lines(s.subrange(i + 1, s.len() as int))
        }
    }
}

#[via_fn]
proof fn spec_lines_decreases(s: Seq<u8>) {
    lemma_first_nl(s);
}

/// The concatenation of `ls` with a line feed appended to every element.
pub open spec fn spec_join(ls: Seq<Seq<u8>>) -> Seq<u8>
    decreases ls.len(),
{
    if ls.len() == 0 {
        Seq::empty()
    } else {
        ls[0] + seq![NL] + spec_join(ls.drop_first())
    }
}

/// No element of `spec_lines(s)` contains a line feed.
pub proof fn lemma_lines_no_nl(s: Seq<u8>)
    ensures
        forall|t: int, k: int|
            0 <= t < spec_lines(s).len() && 0 <= k < spec_lines(s)[t].len()
                ==> spec_lines(s)[t][k] != NL,
    decreases s.len(),
{
    lemma_first_nl(s);
    if s.len() == 0 {
    } else {
        let i = spec_first_nl(s);
        if i == s.len() {
        } else {
            lemma_lines_no_nl(s.subrange(i + 1, s.len() as int));
            assert forall|t: int, k: int|
                0 <= t < spec_lines(s).len() && 0 <= k < spec_lines(s)[t].len()
                    implies spec_lines(s)[t][k] != NL by {
                if t == 0 {
                    assert(spec_lines(s)[0] == s.subrange(0, i));
                } else {
                    let rest = spec_lines(s.subrange(i + 1, s.len() as int));
                    assert(spec_lines(s)[t] == rest[t - 1]);
                }
            }
        }
    }
}

/// Splitting the joined text recovers the lines, provided no line holds a
/// line feed of its own.
pub proof fn lemma_lines_of_join(ls: Seq<Seq<u8>>)
    requires
        forall|t: int, k: int|
            0 <= t < ls.len() && 0 <= k < ls[t].len() ==> ls[t][k] != NL,
    ensures
        spec_lines(spec_join(ls)) == ls,
    decreases ls.len(),
{
    if ls.len() == 0 {
    } else {
        let s = spec_join(ls);
        let l0 = ls[0];
        lemma_first_nl(s);
        assert(s.len() == l0.len() + 1 + spec_join(ls.drop_first()).len());
        assert(s[l0.len() as int] == NL);
        assert forall|k: int| 0 <= k < l0.len() implies s[k] != NL by {
            assert(s[k] == l0[k]);
        }
        // the first line feed sits exactly at the end of the first line
        let i = spec_first_nl(s);
        if i < l0.len() {
            assert(s[i] == NL);
        }
        if i > l0.len() {
            assert(s[l0.len() as int] != NL);
        }
        assert(i == l0.len());
        assert(s.subrange(0, i) =~= l0);
        assert(s.subrange(i + 1, s.len() as int) =~= spec_join(ls.drop_first()));
        assert forall|t: int, k: int|
            0 <= t < ls.drop_first().len() && 0 <= k < ls.drop_first()[t].len()
                implies ls.drop_first()[t][k] != NL by {
            assert(ls.drop_first()[t] == ls[t + 1]);
        }
        lemma_lines_of_join(ls.drop_first());
        assert(spec_lines(s) =~= seq![l0] + ls.drop_first());
        assert(seq![l0] + ls.drop_first() =~= ls);
    }
}

/// Byte-for-byte equality of two slices.
pub fn bytes_equal(a: &[u8], b: &[u8]) -> (r: bool)
    ensures
        r == (a@ == b@),
{
    if a.len() != b.len() {
        return false;
    }
    let mut k: usize = 0;
    while k < a.len()
        invariant
            k <= a@.len(),
            a@.len() == b@.len(),
            forall|t: int| 0 <= t < k ==> a@[t] == b@[t],
        decreases a@.len() - k,
    {
        if a[k] != b[k] {
            return false;
        }
        k += 1;
    }
    proof {
        assert(a@ =~= b@);
    }
    true
}

/// Strict lexicographic order on byte sequences: `a` comes before `b`.
pub open spec fn lex_lt(a: Seq<u8>, b: Seq<u8>) -> bool
    decreases a.len() + b.len(),
{
    if b.len() == 0 {
        false
    } else if a.len() == 0 {
        true
    } else if a[0] < b[0] {
        true
    } else if a[0] > b[0] {
        false
    } else {
        lex_lt(a.drop_first(), b.drop_first())
    }
}

/// Of two byte sequences, exactly one of `a < b`, `a == b`, `b < a` holds.
pub proof fn lemma_lex_trichotomy(a: Seq<u8>, b: Seq<u8>)
    ensures
        lex_lt(a, b) || lex_lt(b, a) || a == b,
        lex_lt(a, b) ==> !lex_lt(b, a) && a != b,
        lex_lt(b, a) ==> !lex_lt(a, b) && a != b,
    decreases a.len() + b.len(),
{
    if a.len() == 0 || b.len() == 0 {
        if a.len() == 0 && b.len() == 0 {
            assert(a =~= b);
        }
    } else if a[0] == b[0] {
        lemma_lex_trichotomy(a.drop_first(), b.drop_first());
        if a.drop_first() == b.drop_first() {
            assert forall|k: int| 0 <= k < a.len() implies a[k] == b[k] by {
                if k > 0 {
                    assert(a[k] == a.drop_first()[k - 1]);
                    assert(b[k] == b.drop_first()[k - 1]);
                }
            }
            assert(a =~= b);
        }
        if a == b {
            assert(a.drop_first() =~= b.drop_first());
        }
    }
}

/// Lexicographic order is transitive.
pub proof fn lemma_lex_trans(a: Seq<u8>, b: Seq<u8>, c: Seq<u8>)
    requires
        lex_lt(a, b),
        lex_lt(b, c),
    ensures
        lex_lt(a, c),
    decreases a.len() + b.len() + c.len(),
{
    if b.len() == 0 {
    } else if a.len() == 0 {
    } else if c.len() == 0 {
    } else {
        if a[0] == b[0] && b[0] == c[0] {
            lemma_lex_trans(a.drop_first(), b.drop_first(), c.drop_first());
        }
    }
}

/// Decide `lex_lt(a@, b@)`.
pub fn lex_less(a: &[u8], b: &[u8]) -> (r: bool)
    ensures
        r == lex_lt(a@, b@),
{
    let mut k: usize = 0;
    proof {
        assert(a@.subrange(0, a@.len() as int) =~= a@);
        assert(b@.subrange(0, b@.len() as int) =~= b@);
    }
    while k < a.len() && k < b.len()
        invariant
            k <= a@.len(),
            k <= b@.len(),
            forall|t: int| 0 <= t < k ==> a@[t] == b@[t],
            lex_lt(a@, b@) == lex_lt(a@.subrange(k as int, a@.len() as int),
                b@.subrange(k as int, b@.len() as int)),
        decreases a@.len() - k,
    {
        proof {
            let sa = a@.subrange(k as int, a@.len() as int);
            let sb = b@.subrange(k as int, b@.len() as int);
            assert(sa[0] == a@[k as int]);
            assert(sb[0] == b@[k as int]);
            assert(sa.drop_first() =~= a@.subrange(k as int + 1, a@.len() as int));
            assert(sb.drop_first() =~= b@.subrange(k as int + 1, b@.len() as int));
        }
        if a[k] < b[k] {
            return true;
        }
        if a[k] > b[k] {
            return false;
        }
        k += 1;
    }
    proof {
        let sa = a@.subrange(k as int, a@.len() as int);
        let sb = b@.subrange(k as int, b@.len() as int);
        if k == a@.len() && k < b@.len() {
            assert(sa.len() == 0 && sb.len() > 0);
        }
        if k == b@.len() {
            assert(sb.len() == 0);
        }
    }
    k == a.len() && k < b.len()
}

/// Every element comes strictly before the next: sorted and free of
/// duplicates.
pub open spec fn strictly_sorted(ps: Seq<Seq<u8>>) -> bool {
    forall|i: int, j: int| 0 <= i < j < ps.len() ==> lex_lt(#[trigger] ps[i], #[trigger] ps[j])
}

/// Append every byte of `src` to `dst`.
pub fn append_bytes(dst: &mut Vec<u8>, src: &[u8])
    ensures
        final(dst)@ == old(dst)@ + src@,
{
    let mut t: usize = 0;
    while t < src.len()
        invariant
            t <= src@.len(),
            dst@ == old(dst)@ + src@.subrange(0, t as int),
        decreases src@.len() - t,
    {
        dst.push(src[t]);
        proof {
            assert(old(dst)@ + src@.subrange(0, t as int + 1)
                =~= (old(dst)@ + src@.subrange(0, t as int)).push(src@[t as int]));
        }
        t += 1;
    }
    proof {
        assert(src@.subrange(0, src@.len() as int) =~= src@);
    }
}

/// Append line `src` and a line feed to `dst`.
pub fn append_line(dst: &mut Vec<u8>, src: &[u8])
    ensures
        final(dst)@ == old(dst)@ + src@ + seq![NL],
{
    append_bytes(dst, src);
    dst.push(NL);
    proof {
        assert(old(dst)@ + src@ + seq![NL] =~= (old(dst)@ + src@).push(NL));
    }
}

/// Split `s` into its lines.
pub fn split_lines(s: &[u8]) -> (r: Vec<Vec<u8>>)
    ensures
        r@.map_values(|l: Vec<u8>| l@) == spec_lines(s@),
{
    let mut r: Vec<Vec<u8>> = Vec::new();
    let mut start: usize = 0;
    let mut j: usize = 0;
    proof {
        assert(s@.subrange(0, s@.len() as int) =~= s@);
        assert(r@.map_values(|l: Vec<u8>| l@) =~= Seq::<Seq<u8>>::empty());
        assert(Seq::<Seq<u8>>::empty() + spec_lines(s@) =~= spec_lines(s@));
    }
    while j < s.len()
        invariant
            start <= j <= s@.len(),
            forall|k: int| start <= k < j ==> s@[k] != NL,
            spec_lines(s@) == r@.map_values(|l: Vec<u8>| l@)
                + spec_lines(s@.subrange(start as int, s@.len() as int)),
        decreases s@.len() - j,
    {
        if s[j] == NL {
            let line = slice_to_vec(slice_subrange(s, start, j));
            proof {
                let suf = s@.subrange(start as int, s@.len() as int);
                lemma_first_nl(suf);
                let i = spec_first_nl(suf);
                if i < j - start {
                    assert(suf[i] == s@[start + i]);
                }
                if i > j - start {
                    assert(suf[j - start] == s@[j as int]);
                }
                assert(i == j - start);
                assert(suf.subrange(0, i) =~= s@.subrange(start as int, j as int));
                assert(suf.subrange(i + 1, suf.len() as int)
                    =~= s@.subrange(j as int + 1, s@.len() as int));
                assert((r@.push(line)).map_values(|l: Vec<u8>| l@)
                    =~= r@.map_values(|l: Vec<u8>| l@) + seq![line@]);
                assert(r@.map_values(|l: Vec<u8>| l@) + seq![line@]
                    + spec_lines(s@.subrange(j as int + 1, s@.len() as int))
                    =~= r@.map_values(|l: Vec<u8>| l@)
                        + (seq![line@] + spec_lines(s@.subrange(j as int + 1, s@.len() as int))));
            }
            r.push(line);
            start = j + 1;
        }
        j += 1;
    }
    if start < s.len() {
        let line = slice_to_vec(slice_subrange(s, start, s.len()));
        proof {
            let suf = s@.subrange(start as int, s@.len() as int);
            lemma_first_nl(suf);
            let i = spec_first_nl(suf);
            if i < suf.len() {
                assert(suf[i] == s@[start + i]);
            }
            assert(i == suf.len());
            assert(suf =~= line@);
            assert((r@.push(line)).map_values(|l: Vec<u8>| l@)
                =~= r@.map_values(|l: Vec<u8>| l@) + seq![line@]);
            assert(r@.map_values(|l: Vec<u8>| l@) + seq![line@]
                =~= r@.map_values(|l: Vec<u8>| l@) + spec_lines(suf));
        }
        r.push(line);
    } else {
        proof {
            assert(s@.subrange(start as int, s@.len() as int).len() == 0);
        }
    }
    r
}

} // verus!
