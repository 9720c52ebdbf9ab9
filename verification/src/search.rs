//! Selecting and classifying batches for the listing views.
//!
//! Listing is a read-only consumer of the batch store: the caller hands in
//! each batch directory's name, full path and metadata lines, and the
//! selection — which batches match the user's patterns — is decided here.
//! The score itself comes from the external fuzzy matcher; everything
//! around it is verified against that score.  The per-line display classes
//! of a metadata record are computed here as well, so the caller only has
//! to color them.

use vstd::prelude::*;
use crate::paths::{is_prefix, byte_seqs, copy_range};
use crate::metadata::{lit_dash, lit_indent};

verus! {

/// The score that the fuzzy matcher, with its default settings, assigns to
/// `pattern` against `choice`; `None` when the pattern does not match.
pub uninterp spec fn skim_score(choice: Seq<u8>, pattern: Seq<u8>) -> Option<i64>;

/// Relies on fuzzy_matcher's `SkimMatcherV2::fuzzy_match`, with the
/// matcher's default settings: the score is a function of the candidate
/// and pattern text alone.
#[verifier::external_body]
fn fuzzy_score(choice: &Vec<u8>, pattern: &Vec<u8>) -> (r: Option<i64>)
    ensures
        r == skim_score(choice@, pattern@),
{
    let matcher = fuzzy_matcher::skim::SkimMatcherV2::default();
    let c = String::from_utf8_lossy(choice.as_slice());
    let p = String::from_utf8_lossy(pattern.as_slice());
    fuzzy_matcher::FuzzyMatcher::fuzzy_match(&matcher, c.as_ref(), p.as_ref())
}

/// Whether one metadata line scores strictly above the threshold.
pub open spec fn line_hits(line: Seq<u8>, pattern: Seq<u8>, threshold: i64) -> bool {
    match skim_score(line, pattern) {
        Some(sc) => sc > threshold,
        None => false,
    }
}

/// Whether a batch directory matches one pattern: its name or its full
/// path fuzzy-matches at all, or some line of its metadata record scores
/// above the threshold.
pub open spec fn pattern_match_spec(
    dir_name: Seq<u8>,
    full_path: Seq<u8>,
    meta_lines: Seq<Seq<u8>>,
    pattern: Seq<u8>,
    threshold: i64,
) -> bool {
    ||| skim_score(dir_name, pattern) is Some
    ||| skim_score(full_path, pattern) is Some
    ||| exists|i: int| 0 <= i < meta_lines.len() && line_hits(#[trigger] meta_lines[i], pattern, threshold)
}

/// Whether a batch directory matches one pattern.
pub fn pattern_matches(dir_name: &Vec<u8>, full_path: &Vec<u8>, meta_lines: &Vec<Vec<u8>>,
    pattern: &Vec<u8>, threshold: i64) -> (r: bool)
    ensures
        r == pattern_match_spec(
            dir_name@,
            full_path@,
            crate::paths::byte_seqs(meta_lines@),
            pattern@,
            threshold,
        ),
{
    let ghost ls = crate::paths::byte_seqs(meta_lines@);
    if fuzzy_score(dir_name, pattern).is_some() {
        return true;
    }
    if fuzzy_score(full_path, pattern).is_some() {
        return true;
    }
    let mut i: usize = 0;
    while i < meta_lines.len()
        invariant
            i <= meta_lines@.len(),
            ls == crate::paths::byte_seqs(meta_lines@),
            forall|j: int| 0 <= j < i ==> !line_hits(#[trigger] ls[j], pattern@, threshold),
        decreases meta_lines@.len() - i,
    {
        match fuzzy_score(&meta_lines[i], pattern) {
            Some(sc) => {
                if sc > threshold {
                    proof {
                        assert(line_hits(ls[i as int], pattern@, threshold));
                    }
                    return true;
                }
                proof {
                    assert(!line_hits(ls[i as int], pattern@, threshold));
                }
            },
            None => {
                proof {
                    assert(!line_hits(ls[i as int], pattern@, threshold));
                }
            },
        }
        i = i + 1;
    }
    false
}

/// Whether a batch directory is listed for a query: an empty query lists
/// everything; otherwise some pattern must match.
pub open spec fn directory_match_spec(
    dir_name: Seq<u8>,
    full_path: Seq<u8>,
    meta_lines: Seq<Seq<u8>>,
    patterns: Seq<Seq<u8>>,
    threshold: i64,
) -> bool {
    patterns.len() == 0 || exists|p: int|
        0 <= p < patterns.len() && pattern_match_spec(
            dir_name,
            full_path,
            meta_lines,
            #[trigger] patterns[p],
            threshold,
        )
}

/// Whether a batch directory is listed for a query.
pub fn directory_matches(dir_name: &Vec<u8>, full_path: &Vec<u8>, meta_lines: &Vec<Vec<u8>>,
    patterns: &Vec<Vec<u8>>, threshold: i64) -> (r: bool)
    ensures
        r == directory_match_spec(
            dir_name@,
            full_path@,
            crate::paths::byte_seqs(meta_lines@),
            crate::paths::byte_seqs(patterns@),
            threshold,
        ),
{
    let ghost ps = crate::paths::byte_seqs(patterns@);
    if patterns.len() == 0 {
        return true;
    }
    let mut p: usize = 0;
    while p < patterns.len()
        invariant
            p <= patterns@.len(),
            ps == crate::paths::byte_seqs(patterns@),
            forall|q: int|
                0 <= q < p ==> !pattern_match_spec(
                    dir_name@,
                    full_path@,
                    crate::paths::byte_seqs(meta_lines@),
                    #[trigger] ps[q],
                    threshold,
                ),
        decreases patterns@.len() - p,
    {
        if pattern_matches(dir_name, full_path, meta_lines, &patterns[p], threshold) {
            proof {
                assert(pattern_match_spec(
                    dir_name@,
                    full_path@,
                    crate::paths::byte_seqs(meta_lines@),
                    ps[p as int],
                    threshold,
                ));
            }
            return true;
        }
        p = p + 1;
    }
    false
}

/// `cwd:`
pub open spec fn lit_cwd_key() -> Seq<u8> {
    seq![99u8, 119u8, 100u8, 58u8]
}

/// `targets:`
pub open spec fn lit_targets_key() -> Seq<u8> {
    seq![116u8, 97u8, 114u8, 103u8, 101u8, 116u8, 115u8, 58u8]
}

/// `contents:`
pub open spec fn lit_contents_key() -> Seq<u8> {
    seq![99u8, 111u8, 110u8, 116u8, 101u8, 110u8, 116u8, 115u8, 58u8]
}

/// Whether some byte of the line is neither a space nor a tab.
pub open spec fn not_blank(l: Seq<u8>) -> bool {
    exists|i: int| 0 <= i < l.len() && l[i] != 32u8 && l[i] != 9u8
}

/// How one metadata line is displayed in the listing.
pub enum LineKind {
    /// The origin-directory line.
    CwdLine,
    /// The `targets:` header.
    TargetsLine,
    /// The `contents:` header.
    ContentsLine,
    /// One recorded target name.
    ItemLine,
    /// One indented, non-blank listing line.
    IndentedLine,
    /// Anything else.
    PlainLine,
}

/// The display class of one metadata line, checked in order.
pub open spec fn classify_spec(l: Seq<u8>) -> LineKind {
    if is_prefix(lit_cwd_key(), l) {
        LineKind::CwdLine
    } else if is_prefix(lit_targets_key(), l) {
        LineKind::TargetsLine
    } else if is_prefix(lit_contents_key(), l) {
        LineKind::ContentsLine
    } else if is_prefix(lit_dash(), l) {
        LineKind::ItemLine
    } else if is_prefix(lit_indent(), l) && not_blank(l) {
        LineKind::IndentedLine
    } else {
        LineKind::PlainLine
    }
}

/// Whether some byte of the line is neither a space nor a tab.
fn line_not_blank(l: &Vec<u8>) -> (r: bool)
    ensures
        r == not_blank(l@),
{
    let mut i: usize = 0;
    while i < l.len()
        invariant
            i <= l@.len(),
            forall|j: int| 0 <= j < i ==> l@[j] == 32u8 || l@[j] == 9u8,
        decreases l@.len() - i,
    {
        if l[i] != 32 && l[i] != 9 {
            return true;
        }
        i = i + 1;
    }
    false
}

fn cwd_key_vec() -> (r: Vec<u8>)
    ensures
        r@ == lit_cwd_key(),
{
    let r: Vec<u8> = vec![99, 119, 100, 58];
    proof {
        assert(r@ =~= lit_cwd_key());
    }
    r
}

fn targets_key_vec() -> (r: Vec<u8>)
    ensures
        r@ == lit_targets_key(),
{
    let r: Vec<u8> = vec![116, 97, 114, 103, 101, 116, 115, 58];
    proof {
        assert(r@ =~= lit_targets_key());
    }
    r
}

fn contents_key_vec() -> (r: Vec<u8>)
    ensures
        r@ == lit_contents_key(),
{
    let r: Vec<u8> = vec![99, 111, 110, 116, 101, 110, 116, 115, 58];
    proof {
        assert(r@ =~= lit_contents_key());
    }
    r
}

fn dash_key_vec() -> (r: Vec<u8>)
    ensures
        r@ == lit_dash(),
{
    let r: Vec<u8> = vec![45, 32];
    proof {
        assert(r@ =~= lit_dash());
    }
    r
}

fn indent_key_vec() -> (r: Vec<u8>)
    ensures
        r@ == lit_indent(),
{
    let r: Vec<u8> = vec![32, 32];
    proof {
        assert(r@ =~= lit_indent());
    }
    r
}

/// The display class of one metadata line.
pub fn classify_line(l: &Vec<u8>) -> (r: LineKind)
    ensures
        r == classify_spec(l@),
{
    let cwd_key = cwd_key_vec();
    let targets_key = targets_key_vec();
    let contents_key = contents_key_vec();
    let dash_key = dash_key_vec();
    let indent_key = indent_key_vec();
    if crate::paths::has_prefix(l, &cwd_key) {
        LineKind::CwdLine
    } else if crate::paths::has_prefix(l, &targets_key) {
        LineKind::TargetsLine
    } else if crate::paths::has_prefix(l, &contents_key) {
        LineKind::ContentsLine
    } else if crate::paths::has_prefix(l, &dash_key) {
        LineKind::ItemLine
    } else if crate::paths::has_prefix(l, &indent_key) && line_not_blank(l) {
        LineKind::IndentedLine
    } else {
        LineKind::PlainLine
    }
}

/// Lexicographic byte order, the order the platform gives file names:
/// whether `a` sorts at or before `b`.
pub open spec fn lex_le(a: Seq<u8>, b: Seq<u8>) -> bool
    decreases a.len(),
{
    if a.len() == 0 {
        true
    } else if b.len() == 0 {
        false
    } else if a[0] < b[0] {
        true
    } else if a[0] > b[0] {
        false
    } else {
        lex_le(a.subrange(1, a.len() as int), b.subrange(1, b.len() as int))
    }
}

/// Any two byte strings are ordered.
pub proof fn lemma_lex_le_total(a: Seq<u8>, b: Seq<u8>)
    ensures
        lex_le(a, b) || lex_le(b, a),
    decreases a.len(),
{
    if a.len() > 0 && b.len() > 0 && a[0] == b[0] {
        lemma_lex_le_total(a.subrange(1, a.len() as int), b.subrange(1, b.len() as int));
    }
}

/// The order chains.
pub proof fn lemma_lex_le_trans(a: Seq<u8>, b: Seq<u8>, c: Seq<u8>)
    requires
        lex_le(a, b),
        lex_le(b, c),
    ensures
        lex_le(a, c),
    decreases a.len(),
{
    if a.len() > 0 {
        assert(b.len() > 0);
        assert(c.len() > 0);
        if a[0] == b[0] && b[0] == c[0] {
            lemma_lex_le_trans(
                a.subrange(1, a.len() as int),
                b.subrange(1, b.len() as int),
                c.subrange(1, c.len() as int),
            );
        }
    }
}

/// Whether `a` sorts at or before `b`.
pub fn lex_le_bytes(a: &Vec<u8>, b: &Vec<u8>) -> (r: bool)
    ensures
        r == lex_le(a@, b@),
    decreases a@.len(),
{
    if a.len() == 0 {
        true
    } else if b.len() == 0 {
        false
    } else if a[0] < b[0] {
        true
    } else if a[0] > b[0] {
        false
    } else {
        let ta = copy_range(a, 1, a.len());
        let tb = copy_range(b, 1, b.len());
        lex_le_bytes(&ta, &tb)
    }
}

/// Descending byte order: for decimal batch identifiers, newest first.
pub open spec fn sorted_desc(s: Seq<Seq<u8>>) -> bool {
    forall|i: int, j: int| 0 <= i < j < s.len() ==> lex_le(#[trigger] s[j], #[trigger] s[i])
}

/// The batch directory names ordered newest first, for the listing views:
/// the same names, descending.
pub fn sort_names_desc(names: Vec<Vec<u8>>) -> (r: Vec<Vec<u8>>)
    ensures
        byte_seqs(r@).to_multiset() == byte_seqs(names@).to_multiset(),
        sorted_desc(byte_seqs(r@)),
{
    broadcast use vstd::seq_lib::group_to_multiset_ensures;

    let ghost orig = byte_seqs(names@);
    let mut rem = names;
    let mut out: Vec<Vec<u8>> = Vec::new();
    proof {
        assert(byte_seqs(out@) =~= Seq::<Seq<u8>>::empty());
        assert(byte_seqs(out@).to_multiset().add(byte_seqs(rem@).to_multiset())
            =~= orig.to_multiset());
    }
    while rem.len() > 0
        invariant
            byte_seqs(out@).to_multiset().add(byte_seqs(rem@).to_multiset())
                == orig.to_multiset(),
            sorted_desc(byte_seqs(out@)),
            forall|i: int, j: int|
                0 <= i < out@.len() && 0 <= j < rem@.len() ==> lex_le(
                    #[trigger] byte_seqs(rem@)[j],
                    #[trigger] byte_seqs(out@)[i],
                ),
        decreases rem@.len(),
    {
        let mut best: usize = 0;
        let mut k: usize = 1;
        proof {
            lemma_lex_le_total(byte_seqs(rem@)[0], byte_seqs(rem@)[0]);
        }
        while k < rem.len()
            invariant
                rem@.len() > 0,
                best < k <= rem@.len(),
                forall|j: int|
                    0 <= j < k ==> lex_le(
                        #[trigger] byte_seqs(rem@)[j],
                        byte_seqs(rem@)[best as int],
                    ),
            decreases rem@.len() - k,
        {
            if !lex_le_bytes(&rem[k], &rem[best]) {
                proof {
                    lemma_lex_le_total(rem@[k as int]@, rem@[best as int]@);
                    assert forall|j: int| 0 <= j < k + 1 implies lex_le(
                        #[trigger] byte_seqs(rem@)[j],
                        byte_seqs(rem@)[k as int],
                    ) by {
                        if j < k {
                            lemma_lex_le_trans(
                                byte_seqs(rem@)[j],
                                byte_seqs(rem@)[best as int],
                                byte_seqs(rem@)[k as int],
                            );
                        } else {
                            lemma_lex_le_total(
                                byte_seqs(rem@)[k as int],
                                byte_seqs(rem@)[k as int],
                            );
                        }
                    }
                }
                best = k;
            }
            k = k + 1;
        }
        let ghost pre_rem = rem@;
        let ghost pre_out = out@;
        let x = rem.remove(best);
        let ghost xv = x@;
        out.push(x);
        proof {
            byte_seqs(pre_out).to_multiset_ensures();
            byte_seqs(pre_rem).to_multiset_ensures();
            assert(xv == byte_seqs(pre_rem)[best as int]);
            assert(byte_seqs(rem@) =~= byte_seqs(pre_rem).remove(best as int));
            assert(byte_seqs(out@) =~= byte_seqs(pre_out).push(xv));
            assert(byte_seqs(out@) == byte_seqs(pre_out).push(xv));
            assert(byte_seqs(pre_out).push(xv).to_multiset() =~= byte_seqs(
                pre_out,
            ).to_multiset().insert(xv));
            assert(byte_seqs(rem@) == byte_seqs(pre_rem).remove(best as int));
            assert(byte_seqs(pre_rem).remove(best as int).to_multiset() =~= byte_seqs(
                pre_rem,
            ).to_multiset().remove(xv));
            assert(byte_seqs(pre_rem).contains(xv));
            assert(byte_seqs(pre_rem).to_multiset().count(xv) > 0);
            assert(byte_seqs(out@).to_multiset().add(byte_seqs(rem@).to_multiset())
                =~= orig.to_multiset());
            assert forall|i: int, j: int|
                0 <= i < out@.len() && 0 <= j < rem@.len() implies lex_le(
                #[trigger] byte_seqs(rem@)[j],
                #[trigger] byte_seqs(out@)[i],
            ) by {
                let rj = byte_seqs(rem@)[j];
                if j < best {
                    assert(rj == byte_seqs(pre_rem)[j]);
                } else {
                    assert(rj == byte_seqs(pre_rem)[j + 1]);
                }
                assert(lex_le(rj, xv));
                if i < pre_out.len() {
                    assert(byte_seqs(out@)[i] == byte_seqs(pre_out)[i]);
                    assert(lex_le(rj, byte_seqs(out@)[i]));
                } else {
                    assert(byte_seqs(out@)[i] == xv);
                }
            }
            assert(sorted_desc(byte_seqs(out@)));
        }
    }
    proof {
        assert(byte_seqs(rem@) =~= Seq::<Seq<u8>>::empty());
        assert(byte_seqs(out@).to_multiset() =~= orig.to_multiset());
    }
    out
}

} // verus!
