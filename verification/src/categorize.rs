//! Splitting a list of resolved targets into archive units.
//!
//! Directories are archived one per batch; loose files are grouped by their
//! parent directory, one batch per distinct parent.  A target equal to the
//! destination root itself is set aside so the store is never archived into
//! itself.  File names whose extension marks them as already compressed are
//! recognized here as well: such files are copied verbatim at build time
//! instead of being compressed a second time.

use vstd::prelude::*;
use crate::paths::{
    last_occ, last_occ_index, file_name_spec, file_name_of, parent_spec, parent_of, bytes_eq,
    clone_bytes, copy_range,
};

verus! {

/// The dot byte that introduces a file-name extension.
pub const DOT: u8 = 46;

/// One resolved filesystem target: its canonical absolute path, the user
/// that owns it, and whether it is a directory.
pub struct Target {
    pub path: Vec<u8>,
    pub owner: u32,
    pub is_dir: bool,
}

/// The mathematical value of a `Target`.
pub ghost struct TargetV {
    pub path: Seq<u8>,
    pub owner: u32,
    pub is_dir: bool,
}

impl View for Target {
    type V = TargetV;

    open spec fn view(&self) -> TargetV {
        TargetV { path: self.path@, owner: self.owner, is_dir: self.is_dir }
    }
}

impl Target {
    /// A fresh target holding the same values.
    pub fn duplicate(&self) -> (r: Target)
        ensures
            r@ == self@,
    {
        Target { path: clone_bytes(&self.path), owner: self.owner, is_dir: self.is_dir }
    }
}

/// The views of a sequence of targets.
pub open spec fn views(s: Seq<Target>) -> Seq<TargetV> {
    s.map_values(|t: Target| t@)
}

pub proof fn lemma_views_push(s: Seq<Target>, t: Target)
    ensures
        views(s.push(t)) == views(s).push(t@),
{
    assert(views(s.push(t)) =~= views(s).push(t@));
}

/// Filtering after a push keeps the element exactly when the predicate
/// accepts it.
pub proof fn lemma_filter_push<A>(s: Seq<A>, x: A, pred: spec_fn(A) -> bool)
    ensures
        (s.push(x)).filter(pred) == if pred(x) {
            s.filter(pred).push(x)
        } else {
            s.filter(pred)
        },
{
    reveal(Seq::filter);
    assert(s.push(x).drop_last() =~= s);
    assert(s.push(x).last() == x);
}

/// ASCII upper case folded to lower case; all other bytes unchanged.
pub open spec fn lower_byte(b: u8) -> u8 {
    if 65 <= b && b <= 90 {
        (b + 32) as u8
    } else {
        b
    }
}

pub open spec fn lower_bytes(s: Seq<u8>) -> Seq<u8> {
    s.map_values(|b: u8| lower_byte(b))
}

/// The extension of a file name: what follows the last dot, provided that
/// dot is not the leading byte.
pub open spec fn ext_spec(name: Seq<u8>) -> Option<Seq<u8>> {
    if last_occ(name, DOT) > 0 {
        Some(name.subrange(last_occ(name, DOT) + 1, name.len() as int))
    } else {
        None
    }
}

/// The extensions recognized as already-compressed archives, lower-cased.
pub open spec fn archive_ext(e: Seq<u8>) -> bool {
    ||| e == seq![116u8, 97u8, 114u8]  // tar
    ||| e == seq![103u8, 122u8]  // gz
    ||| e == seq![116u8, 103u8, 122u8]  // tgz
    ||| e == seq![120u8, 122u8]  // xz
    ||| e == seq![122u8, 105u8, 112u8]  // zip
    ||| e == seq![55u8, 122u8]  // 7z
}

/// Whether the file name at the end of `p` carries an archive extension.
pub open spec fn is_archive_path(p: Seq<u8>) -> bool {
    match ext_spec(file_name_spec(p)) {
        Some(e) => archive_ext(lower_bytes(e)),
        None => false,
    }
}

/// Whether `e` is one of the recognized archive extensions.
fn ext_matches(e: &Vec<u8>) -> (r: bool)
    ensures
        r == archive_ext(e@),
{
    if e.len() == 2 {
        let r = (e[0] == 103 && e[1] == 122) || (e[0] == 120 && e[1] == 122) || (e[0] == 55
            && e[1] == 122);
        proof {
            if r {
                assert(e@ =~= seq![e@[0], e@[1]]);
            }
        }
        r
    } else if e.len() == 3 {
        let r = (e[0] == 116 && e[1] == 97 && e[2] == 114) || (e[0] == 116 && e[1] == 103 && e[2]
            == 122) || (e[0] == 122 && e[1] == 105 && e[2] == 112);
        proof {
            if r {
                assert(e@ =~= seq![e@[0], e@[1], e@[2]]);
            }
        }
        r
    } else {
        false
    }
}

/// Lower-cases every ASCII byte of `e`.
fn lower_vec(e: &Vec<u8>) -> (r: Vec<u8>)
    ensures
        r@ == lower_bytes(e@),
{
    let mut r: Vec<u8> = Vec::new();
    let mut i: usize = 0;
    while i < e.len()
        invariant
            i <= e.len(),
            r@.len() == i,
            forall|j: int| 0 <= j < i ==> r@[j] == lower_byte(e@[j]),
        decreases e.len() - i,
    {
        let b = e[i];
        if 65 <= b && b <= 90 {
            r.push(b + 32);
        } else {
            r.push(b);
        }
        i = i + 1;
    }
    proof {
        assert(r@ =~= lower_bytes(e@));
    }
    r
}

/// Whether the target at `path` is an already-compressed archive, judged by
/// its file-name extension alone.
pub fn is_archive(path: &Vec<u8>) -> (r: bool)
    ensures
        r == is_archive_path(path@),
{
    let name = file_name_of(path);
    let n = name.len();
    match last_occ_index(&name, DOT) {
        Some(d) => {
            if d > 0 {
                let e = copy_range(&name, d + 1, n);
                let lo = lower_vec(&e);
                ext_matches(&lo)
            } else {
                false
            }
        },
        None => false,
    }
}

/// One same-parent group of loose files, archived together as one batch.
pub struct FileGroup {
    pub parent: Vec<u8>,
    pub files: Vec<Target>,
}

/// The outcome of categorization: directories (one batch each), same-parent
/// file groups (one batch each), and targets rejected for naming the
/// destination root itself.
pub struct Categorized {
    pub directories: Vec<Target>,
    pub groups: Vec<FileGroup>,
    pub rejected: Vec<Target>,
}

/// Accepts targets naming the destination root.
pub open spec fn rejected_pred(root: Seq<u8>) -> spec_fn(TargetV) -> bool {
    |t: TargetV| t.path == root
}

/// Accepts directory targets other than the destination root.
pub open spec fn dir_pred(root: Seq<u8>) -> spec_fn(TargetV) -> bool {
    |t: TargetV| t.is_dir && t.path != root
}

/// Accepts loose-file targets other than the destination root.
pub open spec fn file_pred(root: Seq<u8>) -> spec_fn(TargetV) -> bool {
    |t: TargetV| !t.is_dir && t.path != root
}

/// Accepts loose-file targets whose parent directory is `parent`.
pub open spec fn group_pred(root: Seq<u8>, parent: Seq<u8>) -> spec_fn(TargetV) -> bool {
    |t: TargetV| !t.is_dir && t.path != root && parent_spec(t.path) == parent
}

/// Whether some entry of `parents` holds the bytes `p`.
pub open spec fn parent_listed(parents: Seq<Vec<u8>>, p: Seq<u8>) -> bool {
    exists|g: int| 0 <= g < parents.len() && parents[g]@ == p
}

/// What categorization establishes about its groups: each group holds
/// exactly the loose-file targets with its parent, in input order; each is
/// non-empty; parents are pairwise distinct; and every loose-file target's
/// parent is some group's parent.
pub open spec fn groups_wf(groups: Seq<FileGroup>, targets: Seq<Target>, root: Seq<u8>) -> bool {
    &&& forall|g: int|
        0 <= g < groups.len() ==> views((#[trigger] groups[g]).files@) == views(targets).filter(
            group_pred(root, groups[g].parent@),
        )
    &&& forall|g: int| 0 <= g < groups.len() ==> (#[trigger] groups[g]).files@.len() > 0
    &&& forall|g1: int, g2: int|
        0 <= g1 < g2 < groups.len() ==> (#[trigger] groups[g1].parent)@ != (
        #[trigger] groups[g2].parent)@
    &&& forall|j: int|
        0 <= j < targets.len() && file_pred(root)(#[trigger] targets[j]@) ==> exists|g: int|
            0 <= g < groups.len() && (#[trigger] groups[g].parent)@ == parent_spec(
                targets[j]@.path,
            )
}

/// Whether some loose-file target before `upto` has parent directory `p`.
pub open spec fn has_witness(targets: Seq<Target>, upto: int, root: Seq<u8>, p: Seq<u8>) -> bool {
    exists|j: int|
        0 <= j < upto && !targets[j]@.is_dir && targets[j]@.path != root && parent_spec(
            targets[j]@.path,
        ) == p
}

/// The loose-file targets (other than the root) whose parent is `parent`,
/// in input order.
fn files_with_parent(targets: &Vec<Target>, root: &Vec<u8>, parent: &Vec<u8>) -> (r: Vec<Target>)
    ensures
        views(r@) == views(targets@).filter(group_pred(root@, parent@)),
{
    let mut r: Vec<Target> = Vec::new();
    let mut i: usize = 0;
    proof {
        assert(targets@.subrange(0, 0) =~= Seq::<Target>::empty());
        reveal(Seq::filter);
        assert(views(r@) =~= views(targets@.subrange(0, 0)).filter(group_pred(root@, parent@)));
    }
    while i < targets.len()
        invariant
            i <= targets@.len(),
            views(r@) == views(targets@.subrange(0, i as int)).filter(
                group_pred(root@, parent@),
            ),
        decreases targets@.len() - i,
    {
        let t = &targets[i];
        let keep = !t.is_dir && !bytes_eq(&t.path, root) && {
            let par = parent_of(&t.path);
            bytes_eq(&par, parent)
        };
        let ghost pre_r = r@;
        if keep {
            r.push(t.duplicate());
        }
        proof {
            let prefix = targets@.subrange(0, i as int);
            assert(targets@.subrange(0, i as int + 1) =~= prefix.push(targets@[i as int]));
            lemma_views_push(prefix, targets@[i as int]);
            lemma_filter_push(views(prefix), targets@[i as int]@, group_pred(root@, parent@));
            if keep {
                lemma_views_push(pre_r, targets@[i as int]);
            }
            assert(views(r@) =~= views(targets@.subrange(0, i as int + 1)).filter(
                group_pred(root@, parent@),
            ));
        }
        i = i + 1;
    }
    proof {
        assert(targets@.subrange(0, targets@.len() as int) =~= targets@);
    }
    r
}

/// Partitions `targets` into directories, same-parent file groups and
/// rejected entries.  Every directory target other than the root appears in
/// `directories`, in input order; every loose-file target other than the
/// root appears in exactly one group, namely the one carrying its parent
/// directory; group parents are pairwise distinct and each group is
/// non-empty.
pub fn categorize_paths(targets: &Vec<Target>, root: &Vec<u8>) -> (r: Categorized)
    ensures
        views(r.rejected@) == views(targets@).filter(rejected_pred(root@)),
        views(r.directories@) == views(targets@).filter(dir_pred(root@)),
        groups_wf(r.groups@, targets@, root@),
{
    let n = targets.len();
    let mut rejected: Vec<Target> = Vec::new();
    let mut directories: Vec<Target> = Vec::new();
    let mut parents: Vec<Vec<u8>> = Vec::new();
    let mut i: usize = 0;
    proof {
        assert(targets@.subrange(0, 0) =~= Seq::<Target>::empty());
        reveal(Seq::filter);
        assert(views(rejected@) =~= views(targets@.subrange(0, 0)).filter(rejected_pred(root@)));
        assert(views(directories@) =~= views(targets@.subrange(0, 0)).filter(dir_pred(root@)));
    }
    while i < n
        invariant
            n == targets@.len(),
            i <= n,
            views(rejected@) == views(targets@.subrange(0, i as int)).filter(
                rejected_pred(root@),
            ),
            views(directories@) == views(targets@.subrange(0, i as int)).filter(dir_pred(root@)),
            forall|g1: int, g2: int|
                0 <= g1 < g2 < parents@.len() ==> (#[trigger] parents@[g1])@ != (
                #[trigger] parents@[g2])@,
            forall|j: int|
                0 <= j < i && file_pred(root@)(#[trigger] targets@[j]@) ==> parent_listed(
                    parents@,
                    parent_spec(targets@[j]@.path),
                ),
            forall|g: int|
                0 <= g < parents@.len() ==> has_witness(
                    targets@,
                    i as int,
                    root@,
                    (#[trigger] parents@[g])@,
                ),
        decreases n - i,
    {
        let t = &targets[i];
        let ghost pre_rej = rejected@;
        let ghost pre_dirs = directories@;
        let is_root = bytes_eq(&t.path, root);
        if is_root {
            rejected.push(t.duplicate());
        } else if t.is_dir {
            directories.push(t.duplicate());
        } else {
            let par = parent_of(&t.path);
            let ghost pre_parents = parents@;
            let mut found = false;
            let mut g: usize = 0;
            while g < parents.len()
                invariant
                    g <= parents@.len(),
                    parents@ == pre_parents,
                    found ==> parent_listed(parents@, par@),
                    !found ==> forall|h: int| 0 <= h < g ==> (#[trigger] parents@[h])@ != par@,
                decreases parents@.len() - g,
            {
                if bytes_eq(&parents[g], &par) {
                    found = true;
                    proof {
                        assert(parents@[g as int]@ == par@);
                    }
                }
                g = g + 1;
            }
            if !found {
                parents.push(par);
            }
            proof {
                assert(par@ == parent_spec(targets@[i as int]@.path));
                if !found {
                    assert(parents@ == pre_parents.push(par));
                    assert(parents@[pre_parents.len() as int]@ == par@);
                }
                assert forall|j: int|
                    0 <= j < i as int + 1 && file_pred(root@)(
                        #[trigger] targets@[j]@,
                    ) implies parent_listed(parents@, parent_spec(targets@[j]@.path)) by {
                    if j < i as int {
                        assert(parent_listed(pre_parents, parent_spec(targets@[j]@.path)));
                        let h = choose|h: int|
                            0 <= h < pre_parents.len() && pre_parents[h]@ == parent_spec(
                                targets@[j]@.path,
                            );
                        assert(parents@[h]@ == parent_spec(targets@[j]@.path));
                    } else {
                        if found {
                            assert(parent_listed(parents@, par@));
                        } else {
                            assert(parents@[pre_parents.len() as int]@ == parent_spec(
                                targets@[j]@.path,
                            ));
                        }
                    }
                }
            }
        }
        proof {
            let prefix = targets@.subrange(0, i as int);
            let tv = targets@[i as int]@;
            assert(targets@.subrange(0, i as int + 1) =~= prefix.push(targets@[i as int]));
            lemma_views_push(prefix, targets@[i as int]);
            lemma_filter_push(views(prefix), tv, rejected_pred(root@));
            lemma_filter_push(views(prefix), tv, dir_pred(root@));
            if is_root {
                lemma_views_push(pre_rej, targets@[i as int]);
            } else if targets@[i as int]@.is_dir {
                lemma_views_push(pre_dirs, targets@[i as int]);
            }
            assert(views(rejected@) =~= views(targets@.subrange(0, i as int + 1)).filter(
                rejected_pred(root@),
            ));
            assert(views(directories@) =~= views(targets@.subrange(0, i as int + 1)).filter(
                dir_pred(root@),
            ));
            assert forall|g: int| 0 <= g < parents@.len() implies has_witness(
                targets@,
                i as int + 1,
                root@,
                (#[trigger] parents@[g])@,
            ) by {
                if has_witness(targets@, i as int, root@, parents@[g]@) {
                    let j = choose|j: int|
                        0 <= j < i as int && !targets@[j]@.is_dir && targets@[j]@.path != root@
                            && parent_spec(targets@[j]@.path) == parents@[g]@;
                    assert(0 <= j < i as int + 1 && !targets@[j]@.is_dir && targets@[j]@.path
                        != root@ && parent_spec(targets@[j]@.path) == parents@[g]@);
                } else {
                    assert(!targets@[i as int]@.is_dir && targets@[i as int]@.path != root@
                        && parent_spec(targets@[i as int]@.path) == parents@[g]@);
                }
            }
        }
        i = i + 1;
    }
    proof {
        assert(targets@.subrange(0, n as int) =~= targets@);
    }
    let mut groups: Vec<FileGroup> = Vec::new();
    let mut g: usize = 0;
    while g < parents.len()
        invariant
            n == targets@.len(),
            g <= parents@.len(),
            groups@.len() == g,
            forall|g1: int, g2: int|
                0 <= g1 < g2 < parents@.len() ==> (#[trigger] parents@[g1])@ != (
                #[trigger] parents@[g2])@,
            forall|j: int|
                0 <= j < n && file_pred(root@)(#[trigger] targets@[j]@) ==> parent_listed(
                    parents@,
                    parent_spec(targets@[j]@.path),
                ),
            forall|h: int|
                0 <= h < parents@.len() ==> has_witness(
                    targets@,
                    n as int,
                    root@,
                    (#[trigger] parents@[h])@,
                ),
            forall|h: int| 0 <= h < g ==> (#[trigger] groups@[h].parent)@ == parents@[h]@,
            forall|h: int|
                0 <= h < g ==> views(#[trigger] groups@[h].files@) == views(targets@).filter(
                    group_pred(root@, groups@[h].parent@),
                ),
            forall|h: int| 0 <= h < g ==> (#[trigger] groups@[h].files@).len() > 0,
        decreases parents@.len() - g,
    {
        let files = files_with_parent(targets, root, &parents[g]);
        proof {
            let p = parents@[g as int]@;
            assert(has_witness(targets@, n as int, root@, p));
            let j = choose|j: int|
                0 <= j < n as int && !targets@[j]@.is_dir && targets@[j]@.path != root@
                    && parent_spec(targets@[j]@.path) == p;
            assert(group_pred(root@, p)(views(targets@)[j]));
            views(targets@).lemma_filter_contains(group_pred(root@, p), j);
            assert(views(files@).contains(views(targets@)[j]));
        }
        let group = FileGroup { parent: clone_bytes(&parents[g]), files };
        groups.push(group);
        g = g + 1;
    }
    let r = Categorized { directories, groups, rejected };
    proof {
        assert forall|j: int|
            0 <= j < targets@.len() && file_pred(root@)(#[trigger] targets@[j]@) implies exists|
            gi: int,
        |
            0 <= gi < r.groups@.len() && (#[trigger] r.groups@[gi].parent)@ == parent_spec(
                targets@[j]@.path,
            ) by {
            assert(parent_listed(parents@, parent_spec(targets@[j]@.path)));
            let gi = choose|gi: int|
                0 <= gi < parents@.len() && parents@[gi]@ == parent_spec(targets@[j]@.path);
            assert(r.groups@[gi].parent@ == parent_spec(targets@[j]@.path));
        }
    }
    r
}

/// Two distinct positions of a filtered sequence come from two distinct
/// positions of the original, in order.
pub proof fn lemma_filter_comes_from<A>(s: Seq<A>, pred: spec_fn(A) -> bool, a: int, b: int)
    requires
        0 <= a < b < s.filter(pred).len(),
    ensures
        exists|i: int, j: int|
            0 <= i < j < s.len() && s[i] == s.filter(pred)[a] && s[j] == s.filter(pred)[b],
    decreases s.len(),
{
    reveal(Seq::filter);
    let out = s.filter(pred);
    let sub = s.drop_last().filter(pred);
    if pred(s.last()) {
        if b == out.len() - 1 {
            assert(out == sub.push(s.last()));
            assert(out[a] == sub[a]);
            assert(sub.contains(sub[a]));
            s.drop_last().lemma_filter_contains_rev(pred, sub[a]);
            let i = choose|i: int| 0 <= i < s.drop_last().len() && s.drop_last()[i] == sub[a];
            assert(s[i] == out[a]);
            assert(s[s.len() - 1] == out[b]);
            assert(0 <= i < s.len() - 1 < s.len() && s[i] == out[a] && s[s.len() - 1] == out[b]);
        } else {
            assert(out == sub.push(s.last()));
            assert(out[a] == sub[a] && out[b] == sub[b]);
            lemma_filter_comes_from(s.drop_last(), pred, a, b);
            let (i, j) = choose|i: int, j: int|
                0 <= i < j < s.drop_last().len() && s.drop_last()[i] == sub[a] && s.drop_last()[j]
                    == sub[b];
            assert(s[i] == out[a] && s[j] == out[b]);
        }
    } else {
        assert(out == sub);
        lemma_filter_comes_from(s.drop_last(), pred, a, b);
        let (i, j) = choose|i: int, j: int|
            0 <= i < j < s.drop_last().len() && s.drop_last()[i] == sub[a] && s.drop_last()[j]
                == sub[b];
        assert(s[i] == out[a] && s[j] == out[b]);
    }
}

/// For loose files all sharing one parent directory, passed in a single
/// invocation, categorization yields exactly one group — hence exactly one
/// batch directory and one metadata record.
pub proof fn lemma_single_parent_single_group(
    groups: Seq<FileGroup>,
    targets: Seq<Target>,
    root: Seq<u8>,
    parent: Seq<u8>,
)
    requires
        groups_wf(groups, targets, root),
        forall|j: int|
            0 <= j < targets.len() && file_pred(root)(#[trigger] targets[j]@) ==> parent_spec(
                targets[j]@.path,
            ) == parent,
        exists|j: int| 0 <= j < targets.len() && file_pred(root)(#[trigger] targets[j]@),
    ensures
        groups.len() == 1,
{
    let j = choose|j: int| 0 <= j < targets.len() && file_pred(root)(#[trigger] targets[j]@);
    assert(exists|g: int|
        0 <= g < groups.len() && (#[trigger] groups[g].parent)@ == parent_spec(targets[j]@.path));
    assert forall|g: int| 0 <= g < groups.len() implies (#[trigger] groups[g].parent)@
        == parent by {
        let fv = views(groups[g].files@);
        assert(fv == views(targets).filter(group_pred(root, groups[g].parent@)));
        assert(fv.len() > 0);
        Seq::lemma_filter_pred(views(targets), group_pred(root, groups[g].parent@), 0);
        let e = fv[0];
        assert(fv.contains(e));
        views(targets).lemma_filter_contains_rev(group_pred(root, groups[g].parent@), e);
        let w = choose|w: int| 0 <= w < views(targets).len() && views(targets)[w] == e;
        assert(views(targets)[w] == targets[w]@);
        assert(file_pred(root)(targets[w]@));
        assert(parent_spec(targets[w]@.path) == parent);
        assert(groups[g].parent@ == parent_spec(e.path));
    }
    if groups.len() == 0 {
        assert(false);
    }
    if groups.len() >= 2 {
        assert(groups[0].parent@ != groups[1].parent@);
        assert(false);
    }
}

/// The groups' parents and the loose-file targets' parents are the same
/// set.
proof fn lemma_group_parent_sets(groups: Seq<FileGroup>, targets: Seq<Target>, root: Seq<u8>)
    requires
        groups_wf(groups, targets, root),
    ensures
        Seq::new(groups.len() as nat, |g: int| groups[g].parent@).to_set() =~= views(
            targets,
        ).filter(file_pred(root)).map_values(|t: TargetV| parent_spec(t.path)).to_set(),
{
    let ts = views(targets);
    let lf = ts.filter(file_pred(root));
    let gs = Seq::new(groups.len() as nat, |g: int| groups[g].parent@);
    let fps = lf.map_values(|t: TargetV| parent_spec(t.path));
    assert forall|x: Seq<u8>| gs.to_set().contains(x) implies fps.to_set().contains(x) by {
        let g = choose|g: int| 0 <= g < gs.len() && gs[g] == x;
        assert(groups[g].parent@ == x);
        let fv = views(groups[g].files@);
        assert(fv == ts.filter(group_pred(root, groups[g].parent@)));
        assert(fv.len() > 0);
        Seq::lemma_filter_pred(ts, group_pred(root, groups[g].parent@), 0);
        let e = fv[0];
        assert(fv.contains(e));
        ts.lemma_filter_contains_rev(group_pred(root, groups[g].parent@), e);
        let w = choose|w: int| 0 <= w < ts.len() && ts[w] == e;
        assert(file_pred(root)(ts[w]));
        ts.lemma_filter_contains(file_pred(root), w);
        assert(lf.contains(e));
        let k = choose|k: int| 0 <= k < lf.len() && lf[k] == e;
        assert(fps[k] == parent_spec(e.path));
        assert(fps[k] == x);
        assert(fps.contains(x));
    }
    assert forall|x: Seq<u8>| fps.to_set().contains(x) implies gs.to_set().contains(x) by {
        let k = choose|k: int| 0 <= k < fps.len() && fps[k] == x;
        assert(x == parent_spec(lf[k].path));
        assert(lf.contains(lf[k]));
        ts.lemma_filter_contains_rev(file_pred(root), lf[k]);
        let w = choose|w: int| 0 <= w < ts.len() && ts[w] == lf[k];
        assert(ts[w] == targets[w]@);
        Seq::lemma_filter_pred(ts, file_pred(root), k);
        assert(file_pred(root)(targets[w]@));
        let g = choose|g: int|
            0 <= g < groups.len() && (#[trigger] groups[g].parent)@ == parent_spec(
                targets[w]@.path,
            );
        assert(gs[g] == x);
        assert(gs.contains(x));
    }
}

/// Categorization yields exactly one group — hence one batch directory —
/// per distinct parent directory among the loose-file targets, whatever
/// the input.
pub proof fn lemma_group_count_is_distinct_parents(
    groups: Seq<FileGroup>,
    targets: Seq<Target>,
    root: Seq<u8>,
)
    requires
        groups_wf(groups, targets, root),
    ensures
        groups.len() == views(targets).filter(file_pred(root)).map_values(
            |t: TargetV| parent_spec(t.path),
        ).to_set().len(),
{
    let gs = Seq::new(groups.len() as nat, |g: int| groups[g].parent@);
    assert(gs.no_duplicates());
    lemma_group_parent_sets(groups, targets, root);
    gs.unique_seq_to_set();
}

/// For loose files in pairwise distinct parent directories, passed in a
/// single invocation, categorization yields one group per file — as many
/// batch directories as files.
pub proof fn lemma_distinct_parents_group_count(
    groups: Seq<FileGroup>,
    targets: Seq<Target>,
    root: Seq<u8>,
)
    requires
        groups_wf(groups, targets, root),
        forall|j1: int, j2: int|
            0 <= j1 < j2 < targets.len() && file_pred(root)(#[trigger] targets[j1]@) && file_pred(
                root,
            )(#[trigger] targets[j2]@) ==> parent_spec(targets[j1]@.path) != parent_spec(
                targets[j2]@.path,
            ),
    ensures
        groups.len() == views(targets).filter(file_pred(root)).len(),
{
    let ts = views(targets);
    let lf = ts.filter(file_pred(root));
    let fps = lf.map_values(|t: TargetV| parent_spec(t.path));
    assert(fps.no_duplicates()) by {
        assert forall|a: int, b: int|
            0 <= a < fps.len() && 0 <= b < fps.len() && a != b implies fps[a] != fps[b] by {
            let lo = if a < b {
                a
            } else {
                b
            };
            let hi = if a < b {
                b
            } else {
                a
            };
            lemma_filter_comes_from(ts, file_pred(root), lo, hi);
            let (i, j) = choose|i: int, j: int|
                0 <= i < j < ts.len() && ts[i] == lf[lo] && ts[j] == lf[hi];
            Seq::lemma_filter_pred(ts, file_pred(root), lo);
            Seq::lemma_filter_pred(ts, file_pred(root), hi);
            assert(ts[i] == targets[i]@ && ts[j] == targets[j]@);
            assert(file_pred(root)(targets[i]@) && file_pred(root)(targets[j]@));
            assert(parent_spec(targets[i]@.path) != parent_spec(targets[j]@.path));
            assert(fps[lo] == parent_spec(lf[lo].path) && fps[hi] == parent_spec(lf[hi].path));
        }
    }
    lemma_group_count_is_distinct_parents(groups, targets, root);
    fps.unique_seq_to_set();
    assert(fps.len() == lf.len());
}
} // verus!
