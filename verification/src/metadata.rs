//! The batch metadata record and its on-disk form.
//!
//! Every batch carries exactly one record: the origin directory all
//! archived members are relative to, the original base names of the
//! members, and a captured directory listing kept for human inspection.
//! The record is written as a small structured text document — one
//! `cwd: `-line, a `targets:` block of `- `-items (or `targets: []` when
//! empty), and a `contents: |` block of two-space-indented listing lines —
//! and read back during recovery.  Rendering and parsing are verified to
//! round-trip exactly.

use vstd::prelude::*;
use crate::paths::{
    byte_seqs, clone_bytes, copy_range, push_all, first_occ, first_occ_index, lemma_first_occ_is,
    is_prefix, has_prefix,
};

verus! {

/// The line-feed byte that ends every rendered line.
pub const LF: u8 = 10;

/// One batch's metadata record.  The listing is held line by line.
pub struct Metadata {
    pub cwd: Vec<u8>,
    pub targets: Vec<Vec<u8>>,
    pub contents: Vec<Vec<u8>>,
}

/// The mathematical value of a `Metadata`.
#[verifier::ext_equal]
pub ghost struct MetadataV {
    pub cwd: Seq<u8>,
    pub targets: Seq<Seq<u8>>,
    pub contents: Seq<Seq<u8>>,
}

impl View for Metadata {
    type V = MetadataV;

    open spec fn view(&self) -> MetadataV {
        MetadataV {
            cwd: self.cwd@,
            targets: byte_seqs(self.targets@),
            contents: byte_seqs(self.contents@),
        }
    }
}

/// `cwd: `
pub open spec fn lit_cwd_prefix() -> Seq<u8> {
    seq![99u8, 119u8, 100u8, 58u8, 32u8]
}

/// `targets:`
pub open spec fn lit_targets_hdr() -> Seq<u8> {
    seq![116u8, 97u8, 114u8, 103u8, 101u8, 116u8, 115u8, 58u8]
}

/// `targets: []`
pub open spec fn lit_targets_empty() -> Seq<u8> {
    seq![116u8, 97u8, 114u8, 103u8, 101u8, 116u8, 115u8, 58u8, 32u8, 91u8, 93u8]
}

/// `- `
pub open spec fn lit_dash() -> Seq<u8> {
    seq![45u8, 32u8]
}

/// `contents: |`
pub open spec fn lit_contents_hdr() -> Seq<u8> {
    seq![99u8, 111u8, 110u8, 116u8, 101u8, 110u8, 116u8, 115u8, 58u8, 32u8, 124u8]
}

/// The two-space indent of every listing line.
pub open spec fn lit_indent() -> Seq<u8> {
    seq![32u8, 32u8]
}

fn cwd_prefix_vec() -> (r: Vec<u8>)
    ensures
        r@ == lit_cwd_prefix(),
{
    let r: Vec<u8> = vec![99, 119, 100, 58, 32];
    proof {
        assert(r@ =~= lit_cwd_prefix());
    }
    r
}

fn targets_hdr_vec() -> (r: Vec<u8>)
    ensures
        r@ == lit_targets_hdr(),
{
    let r: Vec<u8> = vec![116, 97, 114, 103, 101, 116, 115, 58];
    proof {
        assert(r@ =~= lit_targets_hdr());
    }
    r
}

fn targets_empty_vec() -> (r: Vec<u8>)
    ensures
        r@ == lit_targets_empty(),
{
    let r: Vec<u8> = vec![116, 97, 114, 103, 101, 116, 115, 58, 32, 91, 93];
    proof {
        assert(r@ =~= lit_targets_empty());
    }
    r
}

fn dash_vec() -> (r: Vec<u8>)
    ensures
        r@ == lit_dash(),
{
    let r: Vec<u8> = vec![45, 32];
    proof {
        assert(r@ =~= lit_dash());
    }
    r
}

fn contents_hdr_vec() -> (r: Vec<u8>)
    ensures
        r@ == lit_contents_hdr(),
{
    let r: Vec<u8> = vec![99, 111, 110, 116, 101, 110, 116, 115, 58, 32, 124];
    proof {
        assert(r@ =~= lit_contents_hdr());
    }
    r
}

fn indent_vec() -> (r: Vec<u8>)
    ensures
        r@ == lit_indent(),
{
    let r: Vec<u8> = vec![32, 32];
    proof {
        assert(r@ =~= lit_indent());
    }
    r
}

/// The `- `-item lines of the targets block.
pub open spec fn target_lines(ts: Seq<Seq<u8>>) -> Seq<Seq<u8>> {
    ts.map_values(|t: Seq<u8>| lit_dash() + t)
}

/// The indented lines of the contents block.
pub open spec fn content_lines(cs: Seq<Seq<u8>>) -> Seq<Seq<u8>> {
    cs.map_values(|l: Seq<u8>| lit_indent() + l)
}

/// The targets block: a bare `targets: []` line when there are none, the
/// `targets:` header followed by one item line each otherwise.
pub open spec fn targets_block(ts: Seq<Seq<u8>>) -> Seq<Seq<u8>> {
    if ts.len() == 0 {
        seq![lit_targets_empty()]
    } else {
        seq![lit_targets_hdr()] + target_lines(ts)
    }
}

/// Every line of the rendered record, in order.
pub open spec fn meta_lines_spec(m: MetadataV) -> Seq<Seq<u8>> {
    seq![lit_cwd_prefix() + m.cwd] + targets_block(m.targets) + seq![lit_contents_hdr()]
        + content_lines(m.contents)
}

/// The lines joined, each terminated by a line feed.
pub open spec fn unlines(ls: Seq<Seq<u8>>) -> Seq<u8>
    decreases ls.len(),
{
    if ls.len() == 0 {
        Seq::empty()
    } else {
        ls[0] + seq![LF] + unlines(ls.subrange(1, ls.len() as int))
    }
}

/// The whole rendered record.
pub open spec fn render_spec(m: MetadataV) -> Seq<u8> {
    unlines(meta_lines_spec(m))
}

pub proof fn lemma_unlines_push(ls: Seq<Seq<u8>>, l: Seq<u8>)
    ensures
        unlines(ls.push(l)) == unlines(ls) + l + seq![LF],
    decreases ls.len(),
{
    if ls.len() == 0 {
        assert(ls.push(l).subrange(1, 1) =~= Seq::<Seq<u8>>::empty());
        assert(ls.push(l)[0] == l);
        assert(unlines(ls.push(l)) =~= unlines(ls) + l + seq![LF]);
    } else {
        let rest = ls.subrange(1, ls.len() as int);
        lemma_unlines_push(rest, l);
        assert(ls.push(l).subrange(1, ls.len() as int + 1) =~= rest.push(l));
        assert(unlines(ls.push(l)) == ls.push(l)[0] + seq![LF] + unlines(
            ls.push(l).subrange(1, ls.len() as int + 1),
        ));
        assert(ls.push(l)[0] == ls[0]);
        assert(unlines(ls.push(l)) == ls[0] + seq![LF] + (unlines(rest) + l + seq![LF]));
        assert(unlines(ls) == ls[0] + seq![LF] + unlines(rest));
        assert(unlines(ls.push(l)) =~= unlines(ls) + l + seq![LF]);
    }
}

/// Appends one line and its terminator to `out`.
fn append_line(out: &mut Vec<u8>, line: &Vec<u8>)
    ensures
        final(out)@ == old(out)@ + line@ + seq![LF],
{
    push_all(out, line);
    out.push(LF);
    proof {
        assert(out@ =~= old(out)@ + line@ + seq![LF]);
    }
}

/// Renders the record into its on-disk text.  The format is line-based, so
/// only single-line fields can be represented: a record whose origin
/// directory, target names or listing lines contain a line feed must be
/// refused before archiving (see `metadata_is_single_line`), or it would
/// not read back as written.
pub fn render_metadata(m: &Metadata) -> (r: Vec<u8>)
    requires
        wf_metadata(m@),
    ensures
        r@ == render_spec(m@),
{
    let mut lines: Vec<Vec<u8>> = Vec::new();
    let mut cwd_line = cwd_prefix_vec();
    push_all(&mut cwd_line, &m.cwd);
    lines.push(cwd_line);
    proof {
        assert(byte_seqs(lines@) =~= seq![lit_cwd_prefix() + m@.cwd]);
    }
    if m.targets.len() == 0 {
        lines.push(targets_empty_vec());
        proof {
            assert(targets_block(m@.targets) =~= seq![lit_targets_empty()]);
            assert(byte_seqs(lines@) =~= seq![lit_cwd_prefix() + m@.cwd] + targets_block(
                m@.targets,
            ));
        }
    } else {
        lines.push(targets_hdr_vec());
        let mut i: usize = 0;
        while i < m.targets.len()
            invariant
                i <= m.targets@.len(),
                m.targets@.len() > 0,
                byte_seqs(lines@) == seq![lit_cwd_prefix() + m@.cwd] + seq![lit_targets_hdr()]
                    + target_lines(m@.targets.subrange(0, i as int)),
            decreases m.targets@.len() - i,
        {
            let mut line = dash_vec();
            push_all(&mut line, &m.targets[i]);
            let ghost pre_lines = lines@;
            let ghost line_v = line@;
            lines.push(line);
            proof {
                assert(lines@ == pre_lines.push(lines@[pre_lines.len() as int]));
                assert(byte_seqs(lines@) =~= byte_seqs(pre_lines).push(line_v));
                assert(m@.targets =~= byte_seqs(m.targets@));
                assert(m@.targets.subrange(0, i as int + 1) =~= m@.targets.subrange(
                    0,
                    i as int,
                ).push(m.targets@[i as int]@));
                assert(target_lines(m@.targets.subrange(0, i as int + 1)) =~= target_lines(
                    m@.targets.subrange(0, i as int),
                ).push(lit_dash() + m.targets@[i as int]@));
                assert(byte_seqs(lines@) =~= seq![lit_cwd_prefix() + m@.cwd] + seq![
                    lit_targets_hdr(),
                ] + target_lines(m@.targets.subrange(0, i as int + 1)));
            }
            i = i + 1;
        }
        proof {
            assert(m@.targets.subrange(0, m@.targets.len() as int) =~= m@.targets);
            assert(byte_seqs(lines@) =~= seq![lit_cwd_prefix() + m@.cwd] + targets_block(
                m@.targets,
            ));
        }
    }
    lines.push(contents_hdr_vec());
    let ghost before_contents = byte_seqs(lines@);
    proof {
        assert(before_contents =~= seq![lit_cwd_prefix() + m@.cwd] + targets_block(m@.targets)
            + seq![lit_contents_hdr()]);
    }
    let mut i: usize = 0;
    while i < m.contents.len()
        invariant
            i <= m.contents@.len(),
            byte_seqs(lines@) == before_contents + content_lines(
                m@.contents.subrange(0, i as int),
            ),
        decreases m.contents@.len() - i,
    {
        let mut line = indent_vec();
        push_all(&mut line, &m.contents[i]);
        let ghost pre_lines = lines@;
        let ghost line_v = line@;
        lines.push(line);
        proof {
            assert(lines@ == pre_lines.push(lines@[pre_lines.len() as int]));
            assert(byte_seqs(lines@) =~= byte_seqs(pre_lines).push(line_v));
            assert(m@.contents =~= byte_seqs(m.contents@));
            assert(m@.contents.subrange(0, i as int + 1) =~= m@.contents.subrange(0, i as int).push(
                m.contents@[i as int]@,
            ));
            assert(content_lines(m@.contents.subrange(0, i as int + 1)) =~= content_lines(
                m@.contents.subrange(0, i as int),
            ).push(lit_indent() + m.contents@[i as int]@));
            assert(byte_seqs(lines@) =~= before_contents + content_lines(
                m@.contents.subrange(0, i as int + 1),
            ));
        }
        i = i + 1;
    }
    proof {
        assert(m@.contents.subrange(0, m@.contents.len() as int) =~= m@.contents);
        assert(byte_seqs(lines@) =~= meta_lines_spec(m@));
    }
    join_lines(&lines)
}

/// Joins lines into the on-disk text, terminating each with a line feed.
pub fn join_lines(lines: &Vec<Vec<u8>>) -> (r: Vec<u8>)
    ensures
        r@ == unlines(byte_seqs(lines@)),
{
    let mut out: Vec<u8> = Vec::new();
    let mut i: usize = 0;
    proof {
        assert(byte_seqs(lines@).subrange(0, 0) =~= Seq::<Seq<u8>>::empty());
    }
    while i < lines.len()
        invariant
            i <= lines@.len(),
            out@ == unlines(byte_seqs(lines@).subrange(0, i as int)),
        decreases lines@.len() - i,
    {
        append_line(&mut out, &lines[i]);
        proof {
            let ls = byte_seqs(lines@);
            assert(ls.subrange(0, i as int + 1) =~= ls.subrange(0, i as int).push(
                lines@[i as int]@,
            ));
            lemma_unlines_push(ls.subrange(0, i as int), lines@[i as int]@);
        }
        i = i + 1;
    }
    proof {
        assert(byte_seqs(lines@).subrange(0, lines@.len() as int) =~= byte_seqs(lines@));
    }
    out
}

/// The on-disk text split at every line feed; a trailing line feed yields
/// no empty final line.
pub open spec fn split_lines_spec(s: Seq<u8>) -> Seq<Seq<u8>>
    decreases s.len(),
    via split_lines_spec_decreases
{
    if s.len() == 0 {
        Seq::empty()
    } else {
        let i = first_occ(s, LF);
        if i < 0 {
            seq![s]
        } else {
            seq![s.subrange(0, i)] + split_lines_spec(s.subrange(i + 1, s.len() as int))
        }
    }
}

#[via_fn]
proof fn split_lines_spec_decreases(s: Seq<u8>) {
    crate::paths::lemma_first_occ_props(s, LF);
}

/// Splits the on-disk text into its lines.
pub fn split_lines(s: &Vec<u8>) -> (r: Vec<Vec<u8>>)
    ensures
        byte_seqs(r@) == split_lines_spec(s@),
    decreases s@.len(),
{
    let n = s.len();
    if n == 0 {
        let r: Vec<Vec<u8>> = Vec::new();
        proof {
            assert(byte_seqs(r@) =~= split_lines_spec(s@));
        }
        return r;
    }
    match first_occ_index(s, LF) {
        None => {
            let mut r: Vec<Vec<u8>> = Vec::new();
            r.push(clone_bytes(s));
            proof {
                assert(byte_seqs(r@) =~= seq![s@]);
            }
            r
        },
        Some(i) => {
            let head = copy_range(s, 0, i);
            let tail = copy_range(s, i + 1, n);
            let rest = split_lines(&tail);
            let mut r: Vec<Vec<u8>> = Vec::new();
            r.push(head);
            proof {
                assert(byte_seqs(r@) =~= seq![s@.subrange(0, i as int)]);
                assert(byte_seqs(rest@).subrange(0, 0) =~= Seq::<Seq<u8>>::empty());
                assert(byte_seqs(r@) =~= seq![s@.subrange(0, i as int)] + byte_seqs(
                    rest@,
                ).subrange(0, 0));
            }
            let mut k: usize = 0;
            while k < rest.len()
                invariant
                    k <= rest@.len(),
                    byte_seqs(r@) == seq![s@.subrange(0, i as int)] + byte_seqs(rest@).subrange(
                        0,
                        k as int,
                    ),
                decreases rest@.len() - k,
            {
                let ghost pre = r@;
                r.push(clone_bytes(&rest[k]));
                proof {
                    assert(r@ == pre.push(r@[pre.len() as int]));
                    assert(byte_seqs(r@) =~= byte_seqs(pre).push(rest@[k as int]@));
                    assert(byte_seqs(rest@).subrange(0, k as int + 1) =~= byte_seqs(
                        rest@,
                    ).subrange(0, k as int).push(rest@[k as int]@));
                    assert(byte_seqs(r@) =~= seq![s@.subrange(0, i as int)] + byte_seqs(
                        rest@,
                    ).subrange(0, k as int + 1));
                }
                k = k + 1;
            }
            proof {
                assert(byte_seqs(rest@).subrange(0, rest@.len() as int) =~= byte_seqs(rest@));
                assert(byte_seqs(r@) =~= split_lines_spec(s@));
            }
            r
        },
    }
}

/// Number of consecutive `- `-item lines starting at line `i`.
pub open spec fn dash_run(ls: Seq<Seq<u8>>, i: int) -> int
    decreases ls.len() - i,
{
    if i < 0 || i >= ls.len() {
        0
    } else if is_prefix(lit_dash(), ls[i]) {
        1 + dash_run(ls, i + 1)
    } else {
        0
    }
}

/// A run of `n` item lines bounded by the end or by a non-item line has
/// exactly that length.
pub proof fn lemma_dash_run_is(ls: Seq<Seq<u8>>, i: int, n: int)
    requires
        0 <= i,
        0 <= n,
        i + n <= ls.len(),
        forall|k: int| i <= k < i + n ==> is_prefix(lit_dash(), #[trigger] ls[k]),
        i + n == ls.len() || !is_prefix(lit_dash(), ls[i + n]),
    ensures
        dash_run(ls, i) == n,
    decreases n,
{
    if n > 0 {
        lemma_dash_run_is(ls, i + 1, n - 1);
    }
}

/// Lines `from` to `from + n`, each stripped of its two leading bytes.
pub open spec fn strip2_lines(ls: Seq<Seq<u8>>, from: int, n: int) -> Seq<Seq<u8>> {
    Seq::new(n as nat, |k: int| ls[from + k].subrange(2, ls[from + k].len() as int))
}

/// The contents block parsed from line `i` on: the `contents: |` header
/// followed by nothing but indented listing lines.
pub open spec fn parse_contents_spec(ls: Seq<Seq<u8>>, i: int, cwd: Seq<u8>, ts: Seq<Seq<u8>>)
    -> Option<MetadataV> {
    if !(0 <= i < ls.len()) {
        None
    } else if ls[i] != lit_contents_hdr() {
        None
    } else if !(forall|j: int| i < j < ls.len() ==> is_prefix(lit_indent(), #[trigger] ls[j])) {
        None
    } else {
        Some(MetadataV { cwd, targets: ts, contents: strip2_lines(ls, i + 1, ls.len() - (i + 1)) })
    }
}

/// The record parsed from its lines, if they have the rendered shape.
pub open spec fn parse_lines_spec(ls: Seq<Seq<u8>>) -> Option<MetadataV> {
    if ls.len() < 2 || !is_prefix(lit_cwd_prefix(), ls[0]) {
        None
    } else {
        let cwd = ls[0].subrange(5, ls[0].len() as int);
        if ls[1] == lit_targets_empty() {
            parse_contents_spec(ls, 2, cwd, Seq::empty())
        } else if ls[1] == lit_targets_hdr() {
            let n = dash_run(ls, 2);
            parse_contents_spec(ls, 2 + n, cwd, strip2_lines(ls, 2, n))
        } else {
            None
        }
    }
}

/// The record parsed from the on-disk text.
pub open spec fn parse_spec(text: Seq<u8>) -> Option<MetadataV> {
    parse_lines_spec(split_lines_spec(text))
}

/// Reads a record back from its on-disk text; `None` marks a corrupt or
/// foreign document.
pub fn parse_metadata(text: &Vec<u8>) -> (r: Option<Metadata>)
    ensures
        match r {
            Some(m) => parse_spec(text@) == Some(m@),
            None => parse_spec(text@) is None,
        },
{
    let lines = split_lines(text);
    let ghost ls = byte_seqs(lines@);
    let n_lines = lines.len();
    if n_lines < 2 {
        return None;
    }
    let pre = cwd_prefix_vec();
    if !has_prefix(&lines[0], &pre) {
        return None;
    }
    let first_len = lines[0].len();
    let cwd = copy_range(&lines[0], 5, first_len);
    let ghost route_cwd = ls[0].subrange(5, ls[0].len() as int);
    let empty_hdr = targets_empty_vec();
    let hdr = targets_hdr_vec();
    let dash = dash_vec();
    let mut targets: Vec<Vec<u8>> = Vec::new();
    let mut ci: usize = 2;
    if crate::paths::bytes_eq(&lines[1], &empty_hdr) {
        proof {
            assert(byte_seqs(targets@) =~= Seq::<Seq<u8>>::empty());
        }
    } else if crate::paths::bytes_eq(&lines[1], &hdr) {
        let mut k: usize = 2;
        let mut more = k < n_lines && has_prefix(&lines[k], &dash);
        while more
            invariant
                2 <= k <= n_lines,
                n_lines == lines@.len(),
                more == (k < n_lines && is_prefix(lit_dash(), ls[k as int])),
                dash@ == lit_dash(),
                forall|h: int| 2 <= h < k ==> is_prefix(lit_dash(), #[trigger] ls[h]),
                byte_seqs(targets@) == strip2_lines(ls, 2, k - 2),
                ls == byte_seqs(lines@),
            decreases lines@.len() - k,
        {
            let line_len = lines[k].len();
            let ghost pre_targets = targets@;
            targets.push(copy_range(&lines[k], 2, line_len));
            proof {
                assert(targets@ == pre_targets.push(targets@[pre_targets.len() as int]));
                assert(byte_seqs(targets@) =~= byte_seqs(pre_targets).push(
                    ls[k as int].subrange(2, ls[k as int].len() as int),
                ));
                assert(byte_seqs(targets@) =~= strip2_lines(ls, 2, k as int - 1));
            }
            k = k + 1;
            more = k < n_lines && has_prefix(&lines[k], &dash);
        }
        proof {
            lemma_dash_run_is(ls, 2, k as int - 2);
        }
        ci = k;
    } else {
        return None;
    }
    proof {
        assert(parse_lines_spec(ls) == parse_contents_spec(
            ls,
            ci as int,
            route_cwd,
            byte_seqs(targets@),
        ));
    }
    if ci >= n_lines {
        return None;
    }
    let chdr = contents_hdr_vec();
    if !crate::paths::bytes_eq(&lines[ci], &chdr) {
        return None;
    }
    let indent = indent_vec();
    let mut contents: Vec<Vec<u8>> = Vec::new();
    let mut j: usize = ci + 1;
    while j < n_lines
        invariant
            ci + 1 <= j <= n_lines,
            ci < n_lines,
            n_lines == lines@.len(),
            forall|h: int| ci < h < j ==> is_prefix(lit_indent(), #[trigger] ls[h]),
            byte_seqs(contents@) == strip2_lines(ls, ci + 1, j - (ci + 1)),
            ls == byte_seqs(lines@),
            ls == split_lines_spec(text@),
            indent@ == lit_indent(),
            ls[ci as int] == lit_contents_hdr(),
            parse_lines_spec(ls) == parse_contents_spec(
                ls,
                ci as int,
                route_cwd,
                byte_seqs(targets@),
            ),
        decreases lines@.len() - j,
    {
        if !has_prefix(&lines[j], &indent) {
            proof {
                assert(!is_prefix(lit_indent(), ls[j as int]));
                assert(parse_contents_spec(ls, ci as int, route_cwd, byte_seqs(targets@))
                    is None);
            }
            return None;
        }
        let line_len = lines[j].len();
        let ghost pre_contents = contents@;
        contents.push(copy_range(&lines[j], 2, line_len));
        proof {
            assert(contents@ == pre_contents.push(contents@[pre_contents.len() as int]));
            assert(byte_seqs(contents@) =~= byte_seqs(pre_contents).push(
                ls[j as int].subrange(2, ls[j as int].len() as int),
            ));
            assert(byte_seqs(contents@) =~= strip2_lines(ls, ci as int + 1, j - ci));
        }
        j = j + 1;
    }
    let m = Metadata { cwd, targets, contents };
    proof {
        assert(m@.cwd == ls[0].subrange(5, ls[0].len() as int));
        assert(parse_spec(text@) == Some(m@));
    }
    Some(m)
}

/// No line feed occurs in `s`.
pub open spec fn no_lf(s: Seq<u8>) -> bool {
    forall|i: int| 0 <= i < s.len() ==> s[i] != LF
}

/// A record whose parts are single-line: no line feed in the origin
/// directory, in any target name, or in any listing line.
pub open spec fn wf_metadata(m: MetadataV) -> bool {
    &&& no_lf(m.cwd)
    &&& forall|i: int| 0 <= i < m.targets.len() ==> no_lf(#[trigger] m.targets[i])
    &&& forall|i: int| 0 <= i < m.contents.len() ==> no_lf(#[trigger] m.contents[i])
}

/// Whether `v` is free of line feeds.
fn bytes_no_lf(v: &Vec<u8>) -> (r: bool)
    ensures
        r == no_lf(v@),
{
    let mut i: usize = 0;
    while i < v.len()
        invariant
            i <= v@.len(),
            forall|j: int| 0 <= j < i ==> v@[j] != LF,
        decreases v@.len() - i,
    {
        if v[i] == LF {
            return false;
        }
        i = i + 1;
    }
    true
}

/// Whether every entry of `vs` is free of line feeds.
fn all_no_lf(vs: &Vec<Vec<u8>>) -> (r: bool)
    ensures
        r ==> forall|i: int| 0 <= i < vs@.len() ==> no_lf(#[trigger] byte_seqs(vs@)[i]),
        !r ==> exists|i: int| 0 <= i < vs@.len() && !no_lf(#[trigger] byte_seqs(vs@)[i]),
{
    let mut i: usize = 0;
    while i < vs.len()
        invariant
            i <= vs@.len(),
            forall|j: int| 0 <= j < i ==> no_lf(#[trigger] byte_seqs(vs@)[j]),
        decreases vs@.len() - i,
    {
        if !bytes_no_lf(&vs[i]) {
            proof {
                assert(!no_lf(byte_seqs(vs@)[i as int]));
            }
            return false;
        }
        i = i + 1;
    }
    true
}

/// Whether the record can be represented by the line-based on-disk format:
/// no line feed in the origin directory, in any target name, or in any
/// listing line.  A record that fails this check must not be rendered.
pub fn metadata_is_single_line(m: &Metadata) -> (r: bool)
    ensures
        r == wf_metadata(m@),
{
    if !bytes_no_lf(&m.cwd) {
        proof {
            assert(!no_lf(m@.cwd));
        }
        return false;
    }
    if !all_no_lf(&m.targets) {
        proof {
            let i = choose|i: int|
                0 <= i < m.targets@.len() && !no_lf(#[trigger] byte_seqs(m.targets@)[i]);
            assert(!no_lf(m@.targets[i]));
        }
        return false;
    }
    if !all_no_lf(&m.contents) {
        proof {
            let i = choose|i: int|
                0 <= i < m.contents@.len() && !no_lf(#[trigger] byte_seqs(m.contents@)[i]);
            assert(!no_lf(m@.contents[i]));
        }
        return false;
    }
    true
}

/// Splitting rejoined single-line text recovers the lines exactly.
pub proof fn lemma_split_unlines(ls: Seq<Seq<u8>>)
    requires
        forall|i: int| 0 <= i < ls.len() ==> no_lf(#[trigger] ls[i]),
    ensures
        split_lines_spec(unlines(ls)) == ls,
    decreases ls.len(),
{
    if ls.len() == 0 {
        assert(split_lines_spec(unlines(ls)) =~= ls);
    } else {
        let s = unlines(ls);
        let h = ls[0];
        let rest = ls.subrange(1, ls.len() as int);
        assert(s == h + seq![LF] + unlines(rest));
        assert(s.len() == h.len() + 1 + unlines(rest).len());
        assert(s[h.len() as int] == LF);
        assert forall|j: int| 0 <= j < h.len() implies s[j] != LF by {
            assert(s[j] == h[j]);
            assert(no_lf(h));
        }
        lemma_first_occ_is(s, LF, h.len() as int);
        assert(s.subrange(0, h.len() as int) =~= h);
        assert(s.subrange(h.len() as int + 1, s.len() as int) =~= unlines(rest));
        assert forall|i: int| 0 <= i < rest.len() implies no_lf(#[trigger] rest[i]) by {
            assert(rest[i] == ls[i + 1]);
        }
        lemma_split_unlines(rest);
        assert(split_lines_spec(s) =~= ls);
    }
}

/// Every rendered line is free of line feeds when the record is.
pub proof fn lemma_meta_lines_no_lf(m: MetadataV)
    requires
        wf_metadata(m),
    ensures
        forall|i: int| 0 <= i < meta_lines_spec(m).len() ==> no_lf(#[trigger] meta_lines_spec(m)[i]),
{
    let ls = meta_lines_spec(m);
    assert(no_lf(lit_cwd_prefix()));
    assert(no_lf(lit_targets_hdr()));
    assert(no_lf(lit_targets_empty()));
    assert(no_lf(lit_dash()));
    assert(no_lf(lit_contents_hdr()));
    assert(no_lf(lit_indent()));
    assert forall|i: int| 0 <= i < ls.len() implies no_lf(#[trigger] ls[i]) by {
        let tb = targets_block(m.targets);
        if i == 0 {
            assert(ls[0] == lit_cwd_prefix() + m.cwd);
            assert forall|j: int| 0 <= j < ls[0].len() implies ls[0][j] != LF by {
                if j < lit_cwd_prefix().len() {
                    assert(ls[0][j] == lit_cwd_prefix()[j]);
                } else {
                    assert(ls[0][j] == m.cwd[j - lit_cwd_prefix().len()]);
                }
            }
        } else if i < 1 + tb.len() {
            if m.targets.len() == 0 {
                assert(ls[i] == lit_targets_empty());
            } else {
                assert(ls[i] == tb[i - 1]);
                if i == 1 {
                    assert(tb[0] == lit_targets_hdr());
                } else {
                    let t = m.targets[i - 2];
                    assert(tb[i - 1] == lit_dash() + t);
                    assert(no_lf(t));
                    assert forall|j: int| 0 <= j < ls[i].len() implies ls[i][j] != LF by {
                        if j < 2 {
                            assert(ls[i][j] == lit_dash()[j]);
                        } else {
                            assert(ls[i][j] == t[j - 2]);
                        }
                    }
                }
            }
        } else if i == 1 + tb.len() {
            assert(ls[i] == lit_contents_hdr());
        } else {
            let c = m.contents[i - (2 + tb.len())];
            assert(ls[i] == lit_indent() + c);
            assert(no_lf(c));
            assert forall|j: int| 0 <= j < ls[i].len() implies ls[i][j] != LF by {
                if j < 2 {
                    assert(ls[i][j] == lit_indent()[j]);
                } else {
                    assert(ls[i][j] == c[j - 2]);
                }
            }
        }
    }
}

/// Parsing the rendered lines yields the record back.
pub proof fn lemma_parse_meta_lines(m: MetadataV)
    ensures
        parse_lines_spec(meta_lines_spec(m)) == Some(m),
{
    let ls = meta_lines_spec(m);
    let tb = targets_block(m.targets);
    let c_line = lit_cwd_prefix() + m.cwd;
    let nt = m.targets.len() as int;
    let nc = m.contents.len() as int;
    assert(ls[0] == c_line);
    assert(is_prefix(lit_cwd_prefix(), ls[0])) by {
        assert(c_line.subrange(0, 5) =~= lit_cwd_prefix());
    }
    let route_cwd = ls[0].subrange(5, ls[0].len() as int);
    assert(route_cwd =~= m.cwd);
    if m.targets.len() == 0 {
        assert(ls.len() == 3 + nc);
        assert(ls[1] == lit_targets_empty());
        assert(ls[2] == lit_contents_hdr());
        assert forall|j: int| 2 < j < ls.len() implies is_prefix(lit_indent(), #[trigger] ls[j]) by {
            assert(ls[j] == lit_indent() + m.contents[j - 3]);
            assert((lit_indent() + m.contents[j - 3]).subrange(0, 2) =~= lit_indent());
        }
        assert(strip2_lines(ls, 3, ls.len() - 3) =~= m.contents) by {
            assert forall|k: int| 0 <= k < nc implies strip2_lines(ls, 3, ls.len() - 3)[k]
                == m.contents[k] by {
                assert(ls[3 + k] == lit_indent() + m.contents[k]);
                assert((lit_indent() + m.contents[k]).subrange(
                    2,
                    (lit_indent() + m.contents[k]).len() as int,
                ) =~= m.contents[k]);
            }
        }
        assert(parse_contents_spec(ls, 2, route_cwd, Seq::empty()) == Some(
            MetadataV { cwd: route_cwd, targets: Seq::empty(), contents: strip2_lines(ls, 3, ls.len() - 3) },
        ));
        assert(MetadataV { cwd: route_cwd, targets: Seq::empty(), contents: strip2_lines(ls, 3, ls.len() - 3) } =~= m);
    } else {
        assert(tb == seq![lit_targets_hdr()] + target_lines(m.targets));
        assert(ls.len() == 3 + nt + nc);
        assert(ls[1] == lit_targets_hdr());
        assert(ls[1] != lit_targets_empty()) by {
            assert(lit_targets_hdr().len() == 8);
            assert(lit_targets_empty().len() == 11);
        }
        assert forall|k: int| 2 <= k < 2 + nt implies is_prefix(lit_dash(), #[trigger] ls[k]) by {
            assert(ls[k] == tb[k - 1]);
            assert(tb[k - 1] == target_lines(m.targets)[k - 2]);
            assert(ls[k] == lit_dash() + m.targets[k - 2]);
            assert((lit_dash() + m.targets[k - 2]).subrange(0, 2) =~= lit_dash());
        }
        assert(ls[2 + nt] == lit_contents_hdr());
        assert(!is_prefix(lit_dash(), lit_contents_hdr())) by {
            if is_prefix(lit_dash(), lit_contents_hdr()) {
                assert(lit_contents_hdr().subrange(0, 2) == lit_dash());
                assert(lit_contents_hdr().subrange(0, 2)[0] == lit_contents_hdr()[0]);
                assert(lit_dash()[0] == 45u8);
                assert(lit_contents_hdr()[0] == 99u8);
            }
        }
        lemma_dash_run_is(ls, 2, nt);
        assert(strip2_lines(ls, 2, nt) =~= m.targets) by {
            assert forall|k: int| 0 <= k < nt implies strip2_lines(ls, 2, nt)[k] == m.targets[k] by {
                assert(ls[2 + k] == lit_dash() + m.targets[k]);
                assert((lit_dash() + m.targets[k]).subrange(
                    2,
                    (lit_dash() + m.targets[k]).len() as int,
                ) =~= m.targets[k]);
            }
        }
        assert forall|j: int| 2 + nt < j < ls.len() implies is_prefix(
            lit_indent(),
            #[trigger] ls[j],
        ) by {
            assert(ls[j] == lit_indent() + m.contents[j - (3 + nt)]);
            assert((lit_indent() + m.contents[j - (3 + nt)]).subrange(0, 2) =~= lit_indent());
        }
        assert(strip2_lines(ls, 3 + nt, ls.len() - (3 + nt)) =~= m.contents) by {
            assert forall|k: int| 0 <= k < nc implies strip2_lines(
                ls,
                3 + nt,
                ls.len() - (3 + nt),
            )[k] == m.contents[k] by {
                assert(ls[3 + nt + k] == lit_indent() + m.contents[k]);
                assert((lit_indent() + m.contents[k]).subrange(
                    2,
                    (lit_indent() + m.contents[k]).len() as int,
                ) =~= m.contents[k]);
            }
        }
        assert(parse_contents_spec(ls, 2 + nt, route_cwd, strip2_lines(ls, 2, nt)) == Some(
            MetadataV {
                cwd: route_cwd,
                targets: strip2_lines(ls, 2, nt),
                contents: strip2_lines(ls, 3 + nt, ls.len() - (3 + nt)),
            },
        ));
        assert(MetadataV {
            cwd: route_cwd,
            targets: strip2_lines(ls, 2, nt),
            contents: strip2_lines(ls, 3 + nt, ls.len() - (3 + nt)),
        } =~= m);
    }
}

/// Rendering a record and reading the text back yields the record
/// unchanged, for every record whose fields are single-line.
pub proof fn lemma_metadata_round_trip(m: MetadataV)
    requires
        wf_metadata(m),
    ensures
        parse_spec(render_spec(m)) == Some(m),
{
    lemma_meta_lines_no_lf(m);
    lemma_split_unlines(meta_lines_spec(m));
    lemma_parse_meta_lines(m);
}

} // verus!
