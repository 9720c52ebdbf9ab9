//! Byte-level model of filesystem paths.
//!
//! Paths are held as byte vectors, the way the operating system sees them.
//! The callers hand in canonicalized absolute paths; `wf_abs_path` captures
//! what canonicalization guarantees (leading separator, no empty component,
//! no trailing separator except for the root itself), and under that shape
//! splitting a path into parent and file name and joining them back round-trips.

use vstd::prelude::*;

verus! {

/// The path separator byte, `/`.
pub const SEP: u8 = 47;

/// Index of the last occurrence of `b` in `p`, or -1 if none occurs.
pub open spec fn last_occ(p: Seq<u8>, b: u8) -> int
    decreases p.len(),
{
    if p.len() == 0 {
        -1
    } else if p[p.len() - 1] == b {
        p.len() - 1
    } else {
        last_occ(p.drop_last(), b)
    }
}

/// Index of the last separator in `p`, or -1 if none occurs.
pub open spec fn last_sep(p: Seq<u8>) -> int {
    last_occ(p, SEP)
}

/// The bytes after the last separator; the whole of `p` when it has none.
pub open spec fn file_name_spec(p: Seq<u8>) -> Seq<u8> {
    p.subrange(last_sep(p) + 1, p.len() as int)
}

/// The bytes before the last separator; the root when that separator leads.
pub open spec fn parent_spec(p: Seq<u8>) -> Seq<u8> {
    if last_sep(p) <= 0 {
        seq![SEP]
    } else {
        p.subrange(0, last_sep(p))
    }
}

/// `dir` and `name` joined with exactly one separator between them.
pub open spec fn join_spec(dir: Seq<u8>, name: Seq<u8>) -> Seq<u8> {
    if dir.len() > 0 && dir[dir.len() - 1] == SEP {
        dir + name
    } else {
        dir + seq![SEP] + name
    }
}

/// The shape of a canonicalized absolute path: it starts at the root,
/// has no empty component, and only the root itself ends in a separator.
pub open spec fn wf_abs_path(p: Seq<u8>) -> bool {
    &&& p.len() >= 1
    &&& p[0] == SEP
    &&& p.len() >= 2 ==> p[p.len() - 1] != SEP
    &&& forall|i: int| 0 <= i < p.len() - 1 ==> !(#[trigger] p[i] == SEP && p[i + 1] == SEP)
}

pub proof fn lemma_last_occ_props(p: Seq<u8>, b: u8)
    ensures
        -1 <= last_occ(p, b) < p.len(),
        last_occ(p, b) >= 0 ==> p[last_occ(p, b)] == b,
        forall|i: int| last_occ(p, b) < i < p.len() ==> p[i] != b,
    decreases p.len(),
{
    if p.len() > 0 && p[p.len() - 1] != b {
        lemma_last_occ_props(p.drop_last(), b);
        assert forall|i: int| last_occ(p, b) < i < p.len() implies p[i] != b by {
            if i < p.len() - 1 {
                assert(p.drop_last()[i] == p[i]);
            }
        }
    }
}

/// The last occurrence of `b` is the unique one with no `b` after it.
pub proof fn lemma_last_occ_is(p: Seq<u8>, b: u8, k: int)
    requires
        0 <= k < p.len(),
        p[k] == b,
        forall|i: int| k < i < p.len() ==> p[i] != b,
    ensures
        last_occ(p, b) == k,
{
    lemma_last_occ_props(p, b);
}

/// A sequence without `b` at all has `last_occ` -1.
pub proof fn lemma_no_occ(p: Seq<u8>, b: u8)
    requires
        forall|i: int| 0 <= i < p.len() ==> p[i] != b,
    ensures
        last_occ(p, b) == -1,
{
    lemma_last_occ_props(p, b);
}

/// Splitting a well-formed absolute path (other than the root) at its last
/// separator and joining the halves back yields the path again, and the
/// file-name half is never empty.
pub proof fn lemma_parent_join(p: Seq<u8>)
    requires
        wf_abs_path(p),
        p.len() >= 2,
    ensures
        join_spec(parent_spec(p), file_name_spec(p)) == p,
        file_name_spec(p).len() > 0,
{
    lemma_last_occ_props(p, SEP);
    let k = last_sep(p);
    assert(k >= 0);
    assert(k < p.len() - 1);
    if k == 0 {
        assert(parent_spec(p) == seq![SEP]);
        assert(join_spec(parent_spec(p), file_name_spec(p)) =~= p);
    } else {
        assert(p[k - 1] != SEP);
        assert(parent_spec(p)[k - 1] == p[k - 1]);
        assert(join_spec(parent_spec(p), file_name_spec(p)) =~= p);
    }
}

/// The bytes of `p` from `from` (inclusive) to `to` (exclusive).
pub fn copy_range(p: &Vec<u8>, from: usize, to: usize) -> (r: Vec<u8>)
    requires
        from <= to <= p.len(),
    ensures
        r@ == p@.subrange(from as int, to as int),
{
    let mut r: Vec<u8> = Vec::new();
    let mut i: usize = from;
    while i < to
        invariant
            from <= i <= to <= p.len(),
            r@ == p@.subrange(from as int, i as int),
        decreases to - i,
    {
        r.push(p[i]);
        proof {
            assert(p@.subrange(from as int, (i + 1) as int) =~= p@.subrange(
                from as int,
                i as int,
            ).push(p@[i as int]));
        }
        i = i + 1;
    }
    r
}

/// A fresh copy of `p` with the same bytes.
pub fn clone_bytes(p: &Vec<u8>) -> (r: Vec<u8>)
    ensures
        r@ == p@,
{
    let r = copy_range(p, 0, p.len());
    proof {
        assert(p@.subrange(0, p@.len() as int) =~= p@);
    }
    r
}

/// Appends all of `src` to `dst`.
pub fn push_all(dst: &mut Vec<u8>, src: &Vec<u8>)
    ensures
        final(dst)@ == old(dst)@ + src@,
{
    let mut i: usize = 0;
    while i < src.len()
        invariant
            i <= src.len(),
            dst@ == old(dst)@ + src@.subrange(0, i as int),
        decreases src.len() - i,
    {
        dst.push(src[i]);
        proof {
            assert(src@.subrange(0, (i + 1) as int) =~= src@.subrange(0, i as int).push(
                src@[i as int],
            ));
            assert(old(dst)@ + src@.subrange(0, (i + 1) as int) =~= (old(dst)@ + src@.subrange(
                0,
                i as int,
            )).push(src@[i as int]));
        }
        i = i + 1;
    }
    proof {
        assert(src@.subrange(0, src@.len() as int) =~= src@);
    }
}

/// Whether two byte vectors hold the same bytes.
pub fn bytes_eq(a: &Vec<u8>, b: &Vec<u8>) -> (r: bool)
    ensures
        r == (a@ == b@),
{
    if a.len() != b.len() {
        return false;
    }
    let mut i: usize = 0;
    while i < a.len()
        invariant
            a@.len() == b@.len(),
            i <= a.len(),
            forall|j: int| 0 <= j < i ==> a@[j] == b@[j],
        decreases a.len() - i,
    {
        if a[i] != b[i] {
            return false;
        }
        i = i + 1;
    }
    proof {
        assert(a@ =~= b@);
    }
    true
}

/// Index of the last occurrence of `b`, if any.
pub fn last_occ_index(p: &Vec<u8>, b: u8) -> (r: Option<usize>)
    ensures
        match r {
            Some(i) => i < p@.len() && last_occ(p@, b) == i,
            None => last_occ(p@, b) == -1,
        },
{
    let mut j: usize = p.len();
    while j > 0
        invariant
            j <= p@.len(),
            forall|i: int| j <= i < p@.len() ==> p@[i] != b,
        decreases j,
    {
        j = j - 1;
        if p[j] == b {
            proof {
                lemma_last_occ_is(p@, b, j as int);
            }
            return Some(j);
        }
    }
    proof {
        lemma_no_occ(p@, b);
    }
    None
}

/// Index of the last separator, if any.
pub fn last_sep_index(p: &Vec<u8>) -> (r: Option<usize>)
    ensures
        match r {
            Some(i) => i < p@.len() && last_sep(p@) == i,
            None => last_sep(p@) == -1,
        },
{
    last_occ_index(p, SEP)
}

/// The bytes after the last separator; the whole of `p` when it has none.
pub fn file_name_of(p: &Vec<u8>) -> (r: Vec<u8>)
    ensures
        r@ == file_name_spec(p@),
{
    let n = p.len();
    match last_sep_index(p) {
        Some(i) => copy_range(p, i + 1, n),
        None => {
            let r = copy_range(p, 0, n);
            proof {
                assert(p@.subrange(0, p@.len() as int) =~= file_name_spec(p@));
            }
            r
        },
    }
}

/// The bytes before the last separator; the root when that separator leads
/// (or when there is none at all).
pub fn parent_of(p: &Vec<u8>) -> (r: Vec<u8>)
    ensures
        r@ == parent_spec(p@),
{
    match last_sep_index(p) {
        Some(i) => {
            if i == 0 {
                let mut r: Vec<u8> = Vec::new();
                r.push(SEP);
                proof {
                    assert(r@ =~= seq![SEP]);
                }
                r
            } else {
                copy_range(p, 0, i)
            }
        },
        None => {
            let mut r: Vec<u8> = Vec::new();
            r.push(SEP);
            proof {
                assert(r@ =~= seq![SEP]);
            }
            r
        },
    }
}

/// `dir` and `name` joined with exactly one separator between them.
pub fn join_path(dir: &Vec<u8>, name: &Vec<u8>) -> (r: Vec<u8>)
    ensures
        r@ == join_spec(dir@, name@),
{
    let mut r = clone_bytes(dir);
    if r.len() == 0 || r[r.len() - 1] != SEP {
        r.push(SEP);
        proof {
            assert(r@ =~= dir@ + seq![SEP]);
        }
    }
    push_all(&mut r, name);
    r
}

/// Joining two different names under one directory gives two different
/// paths.
pub proof fn lemma_join_right_injective(dir: Seq<u8>, a: Seq<u8>, b: Seq<u8>)
    requires
        join_spec(dir, a) == join_spec(dir, b),
    ensures
        a == b,
{
    if dir.len() > 0 && dir[dir.len() - 1] == SEP {
        assert(a =~= (dir + a).subrange(dir.len() as int, (dir + a).len() as int));
        assert(b =~= (dir + b).subrange(dir.len() as int, (dir + b).len() as int));
    } else {
        let head = dir + seq![SEP];
        assert(a =~= (head + a).subrange(head.len() as int, (head + a).len() as int));
        assert(b =~= (head + b).subrange(head.len() as int, (head + b).len() as int));
        assert(dir + seq![SEP] + a =~= head + a);
        assert(dir + seq![SEP] + b =~= head + b);
    }
}

/// Whether `p` has the canonical absolute shape the contracts rely on.
pub fn is_wf_abs_path(p: &Vec<u8>) -> (r: bool)
    ensures
        r == wf_abs_path(p@),
{
    let n = p.len();
    if n == 0 || p[0] != SEP {
        return false;
    }
    if n >= 2 && p[n - 1] == SEP {
        return false;
    }
    let mut i: usize = 0;
    while i + 1 < n
        invariant
            n == p@.len(),
            i < n,
            forall|j: int| 0 <= j < i ==> !(#[trigger] p@[j] == SEP && p@[j + 1] == SEP),
        decreases n - i,
    {
        if p[i] == SEP && p[i + 1] == SEP {
            return false;
        }
        i = i + 1;
    }
    true
}

/// Whether `pre` is a prefix of `p`.
pub open spec fn is_prefix(pre: Seq<u8>, p: Seq<u8>) -> bool {
    pre.len() <= p.len() && p.subrange(0, pre.len() as int) == pre
}

pub fn has_prefix(p: &Vec<u8>, pre: &Vec<u8>) -> (r: bool)
    ensures
        r == is_prefix(pre@, p@),
{
    if pre.len() > p.len() {
        return false;
    }
    let mut i: usize = 0;
    while i < pre.len()
        invariant
            pre@.len() <= p@.len(),
            i <= pre.len(),
            forall|j: int| 0 <= j < i ==> p@[j] == pre@[j],
        decreases pre.len() - i,
    {
        if p[i] != pre[i] {
            proof {
                assert(p@.subrange(0, pre@.len() as int)[i as int] != pre@[i as int]);
            }
            return false;
        }
        i = i + 1;
    }
    proof {
        assert(p@.subrange(0, pre@.len() as int) =~= pre@);
    }
    true
}

/// `p` expressed relative to the directory `cwd`: the remainder when `p`
/// lies strictly under `cwd`, and just the file name otherwise.
pub open spec fn rel_to_spec(p: Seq<u8>, cwd: Seq<u8>) -> Seq<u8> {
    if cwd.len() < p.len() && is_prefix(cwd, p) && (cwd == seq![SEP] || p[cwd.len() as int]
        == SEP) {
        if cwd == seq![SEP] {
            p.subrange(1, p.len() as int)
        } else {
            p.subrange(cwd.len() as int + 1, p.len() as int)
        }
    } else {
        file_name_spec(p)
    }
}

pub fn relative_to(p: &Vec<u8>, cwd: &Vec<u8>) -> (r: Vec<u8>)
    ensures
        r@ == rel_to_spec(p@, cwd@),
{
    let is_root = cwd.len() == 1 && cwd[0] == SEP;
    proof {
        assert(is_root ==> cwd@ =~= seq![SEP]);
        assert(cwd@ =~= seq![SEP] ==> is_root);
    }
    if cwd.len() < p.len() && has_prefix(p, cwd) && (is_root || p[cwd.len()] == SEP) {
        if is_root {
            copy_range(p, 1, p.len())
        } else {
            copy_range(p, cwd.len() + 1, p.len())
        }
    } else {
        file_name_of(p)
    }
}

/// A leading `~/` replaced by the home directory; any other path unchanged.
pub open spec fn expand_tilde_spec(p: Seq<u8>, home: Seq<u8>) -> Seq<u8> {
    if p.len() >= 2 && p[0] == 126u8 && p[1] == SEP {
        join_spec(home, p.subrange(2, p.len() as int))
    } else {
        p
    }
}

/// Each entry with a leading `~/` expanded against `home`, the rest kept as
/// they are.
pub fn as_paths(paths: &Vec<Vec<u8>>, home: &Vec<u8>) -> (r: Vec<Vec<u8>>)
    ensures
        r@.len() == paths@.len(),
        forall|i: int| 0 <= i < paths@.len() ==> r@[i]@ == expand_tilde_spec(paths@[i]@, home@),
{
    let mut r: Vec<Vec<u8>> = Vec::new();
    let mut i: usize = 0;
    while i < paths.len()
        invariant
            i <= paths.len(),
            r@.len() == i,
            forall|j: int| 0 <= j < i ==> r@[j]@ == expand_tilde_spec(paths@[j]@, home@),
        decreases paths.len() - i,
    {
        let p = &paths[i];
        if p.len() >= 2 && p[0] == 126 && p[1] == SEP {
            let rest = copy_range(p, 2, p.len());
            r.push(join_path(home, &rest));
        } else {
            r.push(clone_bytes(p));
        }
        i = i + 1;
    }
    r
}

/// Index of the first occurrence of `b` in `p`, or -1 if none occurs.
pub open spec fn first_occ(p: Seq<u8>, b: u8) -> int
    decreases p.len(),
{
    if p.len() == 0 {
        -1
    } else if p[0] == b {
        0
    } else {
        let rest = first_occ(p.subrange(1, p.len() as int), b);
        if rest == -1 {
            -1
        } else {
            rest + 1
        }
    }
}

/// The first occurrence of `b` is the unique one with no `b` before it.
pub proof fn lemma_first_occ_is(p: Seq<u8>, b: u8, k: int)
    requires
        0 <= k < p.len(),
        p[k] == b,
        forall|j: int| 0 <= j < k ==> p[j] != b,
    ensures
        first_occ(p, b) == k,
    decreases p.len(),
{
    if k > 0 {
        lemma_first_occ_is(p.subrange(1, p.len() as int), b, k - 1);
    }
}

/// A sequence without `b` at all has `first_occ` -1.
pub proof fn lemma_first_occ_none(p: Seq<u8>, b: u8)
    requires
        forall|j: int| 0 <= j < p.len() ==> p[j] != b,
    ensures
        first_occ(p, b) == -1,
    decreases p.len(),
{
    if p.len() > 0 {
        lemma_first_occ_none(p.subrange(1, p.len() as int), b);
    }
}

pub proof fn lemma_first_occ_props(p: Seq<u8>, b: u8)
    ensures
        -1 <= first_occ(p, b) < p.len(),
        first_occ(p, b) >= 0 ==> p[first_occ(p, b)] == b,
        forall|j: int| 0 <= j < first_occ(p, b) ==> p[j] != b,
    decreases p.len(),
{
    if p.len() > 0 && p[0] != b {
        let rest = p.subrange(1, p.len() as int);
        lemma_first_occ_props(rest, b);
        assert forall|j: int| 0 <= j < first_occ(p, b) implies p[j] != b by {
            if j > 0 {
                assert(rest[j - 1] == p[j]);
            }
        }
    }
}

/// Index of the first occurrence of `b`, if any.
pub fn first_occ_index(p: &Vec<u8>, b: u8) -> (r: Option<usize>)
    ensures
        match r {
            Some(i) => i < p@.len() && first_occ(p@, b) == i,
            None => first_occ(p@, b) == -1,
        },
{
    let mut i: usize = 0;
    while i < p.len()
        invariant
            i <= p@.len(),
            forall|j: int| 0 <= j < i ==> p@[j] != b,
        decreases p@.len() - i,
    {
        if p[i] == b {
            proof {
                lemma_first_occ_is(p@, b, i as int);
            }
            return Some(i);
        }
        i = i + 1;
    }
    proof {
        lemma_first_occ_none(p@, b);
    }
    None
}

/// The byte sequences held by a list of byte vectors.
pub open spec fn byte_seqs(s: Seq<Vec<u8>>) -> Seq<Seq<u8>> {
    s.map_values(|v: Vec<u8>| v@)
}

} // verus!
