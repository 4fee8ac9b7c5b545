//! Which filesystem entries take part in the outline: the markdown
//! file filter, the ancestor directories that deserve entries of their
//! own, and the directories whose slot an index file occupies.
use vstd::prelude::*;
use crate::strutil::{is_prefix, matches_any_prefix, matches_any_prefix_exec, is_hidden_name,
    is_hidden_name_exec, is_md_name, is_md_name_exec, name_in, name_in_exec, str_eq_exec, seq_views};
use crate::paths::{split_slash, split_slash_exec, join_slash, extends_root, rel_str_of,
    path_of_rel, root_needs_sep};

verus! {

/// One entry of a raw directory walk: a path and whether it is a
/// directory.
#[derive(Debug)]
pub struct FsEntry {
    pub path: String,
    pub is_dir: bool,
}

pub ghost struct FsEntryV {
    pub path: Seq<char>,
    pub is_dir: bool,
}

impl View for FsEntry {
    type V = FsEntryV;

    open spec fn view(&self) -> FsEntryV {
        FsEntryV { path: self.path@, is_dir: self.is_dir }
    }
}

/// The relative components of a path below the root.
pub open spec fn rel_of(p: Seq<char>, root: Seq<char>) -> Seq<Seq<char>> {
    split_slash(rel_str_of(p, root))
}

/// Some component of the relative path is hidden.
pub open spec fn any_hidden(rel: Seq<Seq<char>>) -> bool {
    exists|k: int| 0 <= k < rel.len() && is_hidden_name(#[trigger] rel[k])
}

/// A walk entry that belongs to the outline: a file strictly below the
/// root, not under an ignore prefix, with no hidden component, whose
/// name carries the markdown extension.
pub open spec fn included_file(e: FsEntryV, root: Seq<char>, ignore: Seq<Seq<char>>) -> bool {
    &&& !e.is_dir
    &&& extends_root(e.path, root)
    &&& !matches_any_prefix(e.path, ignore)
    &&& !any_hidden(rel_of(e.path, root))
    &&& is_md_name(rel_of(e.path, root).last())
}

/// The first position (one-based) at which a component equals one of
/// the index filenames; one past the end when none does.
pub open spec fn stop_pos(rel: Seq<Seq<char>>, names: Seq<Seq<char>>) -> int
    decreases rel.len(),
{
    if rel.len() == 0 {
        1
    } else if name_in(rel[0], names) {
        1
    } else {
        1 + stop_pos(rel.skip(1), names)
    }
}

/// The position found by a first-match scan is the stop position.
pub proof fn lemma_stop_pos_unique(rel: Seq<Seq<char>>, names: Seq<Seq<char>>, p: int)
    requires
        1 <= p <= rel.len() + 1,
        forall|j: int| 0 <= j < p - 1 ==> !name_in(#[trigger] rel[j], names),
        p <= rel.len() ==> name_in(rel[p - 1], names),
    ensures
        stop_pos(rel, names) == p,
    decreases rel.len(),
{
    if rel.len() == 0 {
    } else if name_in(rel[0], names) {
        assert(p == 1);
    } else {
        assert forall|j: int| 0 <= j < p - 2 implies !name_in(#[trigger] rel.skip(1)[j], names) by {
            assert(rel.skip(1)[j] == rel[j + 1]);
        }
        if p - 1 <= rel.skip(1).len() {
            assert(rel.skip(1)[p - 2] == rel[p - 1]);
        }
        lemma_stop_pos_unique(rel.skip(1), names, p - 1);
    }
}

pub proof fn lemma_stop_pos_range(rel: Seq<Seq<char>>, names: Seq<Seq<char>>)
    ensures
        1 <= stop_pos(rel, names) <= rel.len() + 1,
    decreases rel.len(),
{
    if rel.len() > 0 && !name_in(rel[0], names) {
        lemma_stop_pos_range(rel.skip(1), names);
    }
}

/// The path of the ancestor made of the first `i` components.
pub open spec fn anc_path(root: Seq<char>, rel: Seq<Seq<char>>, i: int) -> Seq<char> {
    path_of_rel(root, join_slash(rel.take(i)))
}

/// The first `i` components of `rel` form a qualifying ancestor: a
/// strict ancestor, before the first index-named component, with a
/// non-empty relative path.
pub open spec fn anc_cond(rel: Seq<Seq<char>>, i: int, names: Seq<Seq<char>>) -> bool {
    1 <= i <= rel.len() - 1 && i < stop_pos(rel, names) && join_slash(rel.take(i)).len() > 0
}

/// `s` is a strict-ancestor directory of the file `p`, cut short at
/// the first index-named component.
pub open spec fn anc_of(s: Seq<char>, p: Seq<char>, root: Seq<char>, names: Seq<Seq<char>>) -> bool {
    let rel = rel_of(p, root);
    exists|i: int| #[trigger] anc_cond(rel, i, names) && s == anc_path(root, rel, i)
}

/// `s` is the parent directory of the file `p`, and `p` has an
/// index-named component, so the directory's slot is occupied.
pub open spec fn covered_of(
    s: Seq<char>,
    p: Seq<char>,
    root: Seq<char>,
    names: Seq<Seq<char>>,
) -> bool {
    let rel = rel_of(p, root);
    rel.len() >= 2 && stop_pos(rel, names) <= rel.len() && s == anc_path(root, rel, rel.len() - 1)
}

/// `s` is the path of an included markdown file.
pub open spec fn in_md(
    s: Seq<char>,
    entries: Seq<FsEntryV>,
    root: Seq<char>,
    ignore: Seq<Seq<char>>,
) -> bool {
    exists|j: int|
        0 <= j < entries.len() && (#[trigger] entries[j]).path == s && included_file(
            entries[j],
            root,
            ignore,
        )
}

/// `s` is a qualifying ancestor directory of some included file.
pub open spec fn is_anc(
    s: Seq<char>,
    entries: Seq<FsEntryV>,
    root: Seq<char>,
    ignore: Seq<Seq<char>>,
    names: Seq<Seq<char>>,
) -> bool {
    exists|j: int|
        0 <= j < entries.len() && included_file(#[trigger] entries[j], root, ignore) && anc_of(
            s,
            entries[j].path,
            root,
            names,
        )
}

/// `s` is a directory whose slot an index file occupies.
pub open spec fn is_covered(
    s: Seq<char>,
    entries: Seq<FsEntryV>,
    root: Seq<char>,
    ignore: Seq<Seq<char>>,
    names: Seq<Seq<char>>,
) -> bool {
    exists|j: int|
        0 <= j < entries.len() && included_file(#[trigger] entries[j], root, ignore) && covered_of(
            s,
            entries[j].path,
            root,
            names,
        )
}

/// The assembled entry-path set: the markdown files, together with the
/// qualifying ancestor directories that no index file covers.
pub open spec fn in_assembled(
    s: Seq<char>,
    entries: Seq<FsEntryV>,
    root: Seq<char>,
    ignore: Seq<Seq<char>>,
    names: Seq<Seq<char>>,
) -> bool {
    in_md(s, entries, root, ignore) || (is_anc(s, entries, root, ignore, names) && !is_covered(
        s,
        entries,
        root,
        ignore,
        names,
    ))
}

/// An outline entry before numbering: its path, its relative
/// components, and whether it stands for a directory or an index file.
pub struct PathEntry {
    pub path: String,
    pub rel: Vec<String>,
    pub is_folder: bool,
    pub is_index: bool,
}

pub ghost struct PathV {
    pub path: Seq<char>,
    pub rel: Seq<Seq<char>>,
    pub is_folder: bool,
    pub is_index: bool,
}

impl View for PathEntry {
    type V = PathV;

    open spec fn view(&self) -> PathV {
        PathV {
            path: self.path@,
            rel: seq_views(self.rel@),
            is_folder: self.is_folder,
            is_index: self.is_index,
        }
    }
}

/// The fields of an entry agree with each other and with the root.
pub open spec fn wf_path_entry(e: PathV, root: Seq<char>, names: Seq<Seq<char>>) -> bool {
    &&& extends_root(e.path, root)
    &&& e.rel == rel_of(e.path, root)
    &&& e.rel.len() >= 1
    &&& e.is_index == (!e.is_folder && name_in(e.rel.last(), names))
}

/// Makes an owned copy of a string.
pub fn clone_string(s: &String) -> (r: String)
    ensures
        r@ == s@,
{
    String::from_str(s.as_str())
}

/// Whether some entry of `list` has path `s`.
pub(crate) fn contains_path(list: &Vec<PathEntry>, s: &String) -> (r: bool)
    ensures
        r == exists|k: int| 0 <= k < list@.len() && (#[trigger] list@[k]).path@ == s@,
{
    let mut k: usize = 0;
    while k < list.len()
        invariant
            k <= list@.len(),
            forall|j: int| 0 <= j < k ==> (#[trigger] list@[j]).path@ != s@,
        decreases list@.len() - k,
    {
        if str_eq_exec(list[k].path.as_str(), s.as_str()) {
            return true;
        }
        k = k + 1;
    }
    false
}

/// Whether some string of `list` equals `s`.
pub(crate) fn contains_str(list: &Vec<String>, s: &String) -> (r: bool)
    ensures
        r == exists|k: int| 0 <= k < list@.len() && (#[trigger] list@[k])@ == s@,
{
    let mut k: usize = 0;
    while k < list.len()
        invariant
            k <= list@.len(),
            forall|j: int| 0 <= j < k ==> (#[trigger] list@[j])@ != s@,
        decreases list@.len() - k,
    {
        if str_eq_exec(list[k].as_str(), s.as_str()) {
            return true;
        }
        k = k + 1;
    }
    false
}

/// Applies the inclusion filter to one walk entry; on success returns
/// the relative components of its path.
pub(crate) fn filter_entry(e: &FsEntry, root: &String, ignore: &Vec<String>, names: &Vec<String>) -> (r:
    Option<Vec<String>>)
    ensures
        r is Some <==> included_file(e@, root@, seq_views(ignore@)),
        r is Some ==> seq_views(r.unwrap()@) == rel_of(e.path@, root@),
{
    if e.is_dir {
        return None;
    }
    let rn = root.unicode_len();
    let pn = e.path.unicode_len();
    let needs = rn > 0 && root.as_str().get_char(rn - 1) != '/';
    proof {
        assert(needs == root_needs_sep(root@));
    }
    if pn <= rn {
        proof {
            assert(!extends_root(e.path@, root@));
        }
        return None;
    }
    if !crate::strutil::str_starts_with_exec(e.path.as_str(), root.as_str()) {
        proof {
            assert(!extends_root(e.path@, root@));
        }
        return None;
    }
    let rel_start: usize = if needs {
        if pn <= rn + 1 || e.path.as_str().get_char(rn) != '/' {
            proof {
                assert(!extends_root(e.path@, root@));
            }
            return None;
        }
        rn + 1
    } else {
        rn
    };
    proof {
        assert(extends_root(e.path@, root@));
        assert(e.path@.subrange(rel_start as int, pn as int) =~= rel_str_of(e.path@, root@));
    }
    if matches_any_prefix_exec(e.path.as_str(), ignore) {
        return None;
    }
    let rel_str = e.path.as_str().substring_char(rel_start, pn);
    let rel = split_slash_exec(rel_str);
    let ghost relv = rel_of(e.path@, root@);
    proof {
        assert(seq_views(rel@) == relv);
    }
    let mut k: usize = 0;
    while k < rel.len()
        invariant
            k <= rel@.len(),
            seq_views(rel@) == relv,
            relv == rel_of(e.path@, root@),
            forall|j: int| 0 <= j < k ==> !is_hidden_name(#[trigger] relv[j]),
        decreases rel@.len() - k,
    {
        if is_hidden_name_exec(rel[k].as_str()) {
            assert(is_hidden_name(relv[k as int]));
            assert(any_hidden(relv));
            return None;
        }
        k = k + 1;
    }
    assert(!any_hidden(relv));
    if !is_md_name_exec(rel[rel.len() - 1].as_str()) {
        assert(relv.last() == seq_views(rel@)[relv.len() - 1]);
        return None;
    }
    assert(is_md_name(relv.last()));
    Some(rel)
}

/// The views of a sequence of walk entries.
pub open spec fn entry_views(v: Seq<FsEntry>) -> Seq<FsEntryV> {
    v.map_values(|e: FsEntry| e@)
}

/// Some entry of `s` has path `p`.
pub open spec fn contains_epath(s: Seq<PathEntry>, p: Seq<char>) -> bool {
    exists|a: int| 0 <= a < s.len() && (#[trigger] s[a])@.path == p
}

/// Some string of `s` views to `p`.
pub open spec fn contains_sview(s: Seq<String>, p: Seq<char>) -> bool {
    exists|a: int| 0 <= a < s.len() && (#[trigger] s[a])@ == p
}

/// No two entries of `s` share a path.
pub open spec fn paths_dupfree(s: Seq<PathEntry>) -> bool {
    forall|i: int, j: int|
        0 <= i < j < s.len() ==> (#[trigger] s[i])@.path != (#[trigger] s[j])@.path
}

/// Appends `e` unless an entry with its path is already present.
pub(crate) fn push_unique_entry(list: &mut Vec<PathEntry>, e: PathEntry)
    ensures
        old(list)@.is_prefix_of(final(list)@),
        contains_epath(final(list)@, e@.path),
        forall|a: int|
            old(list)@.len() <= a < final(list)@.len() ==> (#[trigger] final(list)@[a]) == e,
        paths_dupfree(old(list)@) ==> paths_dupfree(final(list)@),
        forall|p: Seq<char>|
            contains_epath(final(list)@, p) ==> contains_epath(old(list)@, p) || p == e@.path,
{
    let ghost l0 = list@;
    if !contains_path(list, &e.path) {
        list.push(e);
        proof {
            assert(final(list)@ == l0.push(e));
            assert(final(list)@[l0.len() as int]@.path == e@.path);
            assert forall|a: int| 0 <= a < l0.len() implies final(list)@[a] == l0[a] by {}
            assert(l0.is_prefix_of(final(list)@)) by {
                assert(final(list)@.take(l0.len() as int) =~= l0);
            }
            if paths_dupfree(l0) {
                assert forall|i: int, j: int|
                    0 <= i < j < final(list)@.len() implies (#[trigger] final(list)@[i])@.path != (
                    #[trigger] final(list)@[j])@.path by {
                    if j == l0.len() as int {
                        assert(!contains_epath(l0, e@.path));
                        assert(final(list)@[i] == l0[i]);
                    }
                }
            }
            assert forall|p: Seq<char>| contains_epath(final(list)@, p) implies contains_epath(
                l0,
                p,
            ) || p == e@.path by {
                let a = choose|a: int|
                    0 <= a < final(list)@.len() && (#[trigger] final(list)@[a])@.path == p;
                if a < l0.len() {
                    assert(l0[a]@.path == p);
                }
            }
        }
    } else {
        proof {
            assert(list@.take(list@.len() as int) =~= list@);
        }
    }
}

/// Appends `s` unless the string is already present.
pub(crate) fn push_unique_str(list: &mut Vec<String>, s: String)
    ensures
        old(list)@.is_prefix_of(final(list)@),
        contains_sview(final(list)@, s@),
        forall|a: int|
            old(list)@.len() <= a < final(list)@.len() ==> (#[trigger] final(list)@[a])@ == s@,
        forall|p: Seq<char>|
            contains_sview(final(list)@, p) ==> contains_sview(old(list)@, p) || p == s@,
{
    let ghost l0 = list@;
    if !contains_str(list, &s) {
        list.push(s);
        proof {
            assert(final(list)@[l0.len() as int]@ == final(list)@.last()@);
            assert(l0.is_prefix_of(final(list)@)) by {
                assert(final(list)@.take(l0.len() as int) =~= l0);
            }
            assert forall|p: Seq<char>| contains_sview(final(list)@, p) implies contains_sview(
                l0,
                p,
            ) || p == final(list)@.last()@ by {
                let a = choose|a: int|
                    0 <= a < final(list)@.len() && (#[trigger] final(list)@[a])@ == p;
                if a < l0.len() {
                    assert(l0[a]@ == p);
                }
            }
        }
    } else {
        proof {
            assert(list@.take(list@.len() as int) =~= list@);
        }
    }
}

/// Makes an owned copy of a vector of strings.
pub(crate) fn clone_vec_string(v: &Vec<String>) -> (r: Vec<String>)
    ensures
        seq_views(r@) == seq_views(v@),
{
    let mut r: Vec<String> = Vec::new();
    let mut i: usize = 0;
    while i < v.len()
        invariant
            i <= v@.len(),
            r@.len() == i,
            forall|j: int| 0 <= j < i ==> (#[trigger] r@[j])@ == v@[j]@,
        decreases v@.len() - i,
    {
        r.push(clone_string(&v[i]));
        i = i + 1;
    }
    proof {
        assert(seq_views(r@) =~= seq_views(v@));
    }
    r
}

/// A contained path stays contained when the list only grows.
pub proof fn lemma_contains_epath_prefix(s1: Seq<PathEntry>, s2: Seq<PathEntry>, p: Seq<char>)
    requires
        s1.is_prefix_of(s2),
        contains_epath(s1, p),
    ensures
        contains_epath(s2, p),
{
    let a = choose|a: int| 0 <= a < s1.len() && (#[trigger] s1[a])@.path == p;
    assert(s2.take(s1.len() as int)[a] == s2[a]);
    assert(s2[a]@.path == p);
}

/// A contained string stays contained when the list only grows.
pub proof fn lemma_contains_sview_prefix(s1: Seq<String>, s2: Seq<String>, p: Seq<char>)
    requires
        s1.is_prefix_of(s2),
        contains_sview(s1, p),
    ensures
        contains_sview(s2, p),
{
    let a = choose|a: int| 0 <= a < s1.len() && (#[trigger] s1[a])@ == p;
    assert(s2.take(s1.len() as int)[a] == s2[a]);
    assert(s2[a]@ == p);
}

/// Records the qualifying ancestor directories of one markdown file,
/// and the file's parent directory when an index filename occurs on
/// its path.
pub(crate) fn process_one_md(
    anc: &mut Vec<PathEntry>,
    cov: &mut Vec<String>,
    e: &PathEntry,
    root: &String,
    names: &Vec<String>,
)
    requires
        wf_path_entry(e@, root@, seq_views(names@)),
    ensures
        old(anc)@.is_prefix_of(final(anc)@),
        old(cov)@.is_prefix_of(final(cov)@),
        forall|a: int|
            old(anc)@.len() <= a < final(anc)@.len() ==> {
                let v = (#[trigger] final(anc)@[a])@;
                &&& wf_path_entry(v, root@, seq_views(names@))
                &&& v.is_folder == true
                &&& exists|i: int|
                    #[trigger] anc_cond(e@.rel, i, seq_views(names@)) && v.path == anc_path(
                        root@,
                        e@.rel,
                        i,
                    )
            },
        paths_dupfree(old(anc)@) ==> paths_dupfree(final(anc)@),
        forall|i: int|
            #[trigger] anc_cond(e@.rel, i, seq_views(names@)) ==> contains_epath(
                final(anc)@,
                anc_path(root@, e@.rel, i),
            ),
        forall|a: int|
            old(cov)@.len() <= a < final(cov)@.len() ==> covered_of(
                (#[trigger] final(cov)@[a])@,
                e@.path,
                root@,
                seq_views(names@),
            ),
        (e@.rel.len() >= 2 && stop_pos(e@.rel, seq_views(names@)) <= e@.rel.len())
            ==> contains_sview(final(cov)@, anc_path(root@, e@.rel, e@.rel.len() - 1)),
{
    let ghost relv = e@.rel;
    let ghost namesv = seq_views(names@);
    let ghost anc0 = anc@;
    let ghost cov0 = cov@;
    let n = e.rel.len();
    proof {
        assert(relv.len() == n);
        crate::paths::lemma_split_slash_free(rel_str_of(e@.path, root@));
    }
    // find the first index-named component
    let mut fidx: usize = 0;
    let mut found = false;
    let mut t: usize = 0;
    while t < n
        invariant
            t <= n,
            n == relv.len(),
            relv == e@.rel,
            namesv == seq_views(names@),
            seq_views(e.rel@) == relv,
            !found ==> forall|j: int| 0 <= j < t ==> !name_in(#[trigger] relv[j], namesv),
            found ==> fidx < n && name_in(relv[fidx as int], namesv) && forall|j: int|
                0 <= j < fidx ==> !name_in(#[trigger] relv[j], namesv),
        decreases n - t,
    {
        if !found && name_in_exec(e.rel[t].as_str(), names) {
            proof {
                assert(seq_views(e.rel@)[t as int] == e.rel@[t as int]@);
            }
            found = true;
            fidx = t;
        }
        t = t + 1;
    }
    proof {
        if found {
            lemma_stop_pos_unique(relv, namesv, fidx + 1);
        } else {
            lemma_stop_pos_unique(relv, namesv, relv.len() as int + 1);
        }
    }
    if n >= 2 {
        let rn = root.unicode_len();
        let needs = rn > 0 && root.as_str().get_char(rn - 1) != '/';
        proof {
            assert(needs == root_needs_sep(root@));
        }
        let mut pre: String = clone_string(root);
        if needs {
            pre.append("/");
        }
        pre.append(e.rel[0].as_str());
        let mut prevec: Vec<String> = Vec::new();
        prevec.push(clone_string(&e.rel[0]));
        proof {
            assert(seq_views(e.rel@)[0] == e.rel@[0]@);
            assert(relv.take(1) =~= seq![relv[0]]);
            assert(join_slash(relv.take(1)) == relv[0]);
            if needs {
                assert(root@ + "/"@ + e.rel@[0]@ =~= path_of_rel(root@, relv[0])) by {
                    reveal_strlit("/");
                    assert("/"@ =~= seq!['/']);
                }
            } else {
                assert(root@ + e.rel@[0]@ =~= path_of_rel(root@, relv[0]));
            }
            assert(pre@ == anc_path(root@, relv, 1));
            assert(seq_views(prevec@) =~= relv.take(1));
        }
        let mut i: usize = 1;
        while i <= n - 1
            invariant
                1 <= i <= n,
                2 <= n == relv.len(),
                relv == e@.rel,
                namesv == seq_views(names@),
                seq_views(e.rel@) == relv,
                wf_path_entry(e@, root@, namesv),
                forall|k: int| 0 <= k < relv.len() ==> crate::paths::slash_free(#[trigger] relv[k]),
                found ==> stop_pos(relv, namesv) == fidx + 1 && fidx < n,
                !found ==> stop_pos(relv, namesv) == relv.len() + 1,
                i <= n - 1 ==> pre@ == anc_path(root@, relv, i as int),
                i <= n - 1 ==> seq_views(prevec@) == relv.take(i as int),
                anc0.is_prefix_of(anc@),
                cov0.is_prefix_of(cov@),
                forall|a: int|
                    anc0.len() <= a < anc@.len() ==> {
                        let v = (#[trigger] anc@[a])@;
                        &&& wf_path_entry(v, root@, namesv)
                        &&& v.is_folder == true
                        &&& exists|ii: int|
                            #[trigger] anc_cond(relv, ii, namesv) && v.path == anc_path(
                                root@,
                                relv,
                                ii,
                            )
                    },
                paths_dupfree(anc0) ==> paths_dupfree(anc@),
                forall|ii: int|
                    1 <= ii < i && #[trigger] anc_cond(relv, ii, namesv) ==> contains_epath(
                        anc@,
                        anc_path(root@, relv, ii),
                    ),
                forall|a: int|
                    cov0.len() <= a < cov@.len() ==> covered_of(
                        (#[trigger] cov@[a])@,
                        e@.path,
                        root@,
                        namesv,
                    ),
                i == n ==> (stop_pos(relv, namesv) <= relv.len() ==> contains_sview(
                    cov@,
                    anc_path(root@, relv, relv.len() - 1),
                )),
            decreases n - i,
        {
            let ghost anc_pre = anc@;
            let ghost cov_pre = cov@;
            let join_pos = i >= 2 || e.rel[0].unicode_len() > 0;
            let lt_stop = !found || i <= fidx;
            proof {
                assert(relv.take(i as int).len() == i as int);
                if i == 1 {
                    assert(relv.take(1) =~= seq![relv[0]]);
                    assert(join_slash(relv.take(1)) == relv[0]);
                    assert(seq_views(e.rel@)[0] == e.rel@[0]@);
                }
                assert(join_pos == (join_slash(relv.take(i as int)).len() > 0));
                assert(lt_stop == (i < stop_pos(relv, namesv)));
            }
            if join_pos && lt_stop {
                proof {
                    assert(anc_cond(relv, i as int, namesv));
                    crate::paths::lemma_rel_of_path(root@, join_slash(relv.take(i as int)));
                    assert forall|kk: int| 0 <= kk < relv.take(i as int).len() implies
                        crate::paths::slash_free(#[trigger] relv.take(i as int)[kk]) by {
                        assert(relv.take(i as int)[kk] == relv[kk]);
                    }
                    crate::paths::lemma_split_join(relv.take(i as int));
                }
                let entry = PathEntry {
                    path: clone_string(&pre),
                    rel: clone_vec_string(&prevec),
                    is_folder: true,
                    is_index: false,
                };
                proof {
                    assert(entry@.path == anc_path(root@, relv, i as int));
                    assert(entry@.rel == relv.take(i as int));
                    assert(wf_path_entry(entry@, root@, namesv));
                }
                push_unique_entry(anc, entry);
                proof {
                    assert(anc_pre.is_prefix_of(anc@));
                    assert(anc0.is_prefix_of(anc@)) by {
                        assert forall|x: int| 0 <= x < anc0.len() implies anc@.take(
                            anc0.len() as int,
                        )[x] == anc0[x] by {
                            assert(anc_pre[x] == anc0[x]);
                            assert(anc@.take(anc_pre.len() as int)[x] == anc@[x]);
                        }
                        assert(anc@.take(anc0.len() as int) =~= anc0);
                    }
                    assert forall|ii: int|
                        1 <= ii < i + 1 && #[trigger] anc_cond(relv, ii, namesv) implies
                        contains_epath(anc@, anc_path(root@, relv, ii)) by {
                        if ii < i {
                            lemma_contains_epath_prefix(anc_pre, anc@, anc_path(root@, relv, ii));
                        }
                    }
                    assert forall|a: int| anc0.len() <= a < anc@.len() implies {
                        let v = (#[trigger] anc@[a])@;
                        &&& wf_path_entry(v, root@, namesv)
                        &&& v.is_folder == true
                        &&& exists|ii: int|
                            #[trigger] anc_cond(relv, ii, namesv) && v.path == anc_path(
                                root@,
                                relv,
                                ii,
                            )
                    } by {
                        if a < anc_pre.len() {
                            assert(anc@.take(anc_pre.len() as int)[a] == anc@[a]);
                            assert(anc_pre[a] == anc@[a]);
                        } else {
                            assert(anc@[a] == entry);
                            assert(anc_cond(relv, i as int, namesv) && entry@.path == anc_path(
                                root@,
                                relv,
                                i as int,
                            ));
                        }
                    }
                }
            } else {
                proof {
                    assert(!anc_cond(relv, i as int, namesv));
                }
            }
            proof {
                assert(cov_pre.is_prefix_of(cov@)) by {
                    assert(cov@.take(cov@.len() as int) =~= cov@);
                }
            }
            if i == n - 1 {
                if found {
                    let ghost cov_mid = cov@;
                    push_unique_str(cov, clone_string(&pre));
                    proof {
                        assert(covered_of(pre@, e@.path, root@, namesv));
                        assert forall|a: int| cov0.len() <= a < cov@.len() implies covered_of(
                            (#[trigger] cov@[a])@,
                            e@.path,
                            root@,
                            namesv,
                        ) by {
                            if a < cov_mid.len() {
                                assert(cov@.take(cov_mid.len() as int)[a] == cov@[a]);
                                assert(cov_mid[a] == cov@[a]);
                            } else {
                                assert(cov@[a]@ == pre@);
                            }
                        }
                        assert(cov0.is_prefix_of(cov@)) by {
                            assert forall|x: int| 0 <= x < cov0.len() implies cov@.take(
                                cov0.len() as int,
                            )[x] == cov0[x] by {
                                assert(cov_mid[x] == cov0[x]);
                                assert(cov@.take(cov_mid.len() as int)[x] == cov@[x]);
                            }
                            assert(cov@.take(cov0.len() as int) =~= cov0);
                        }
                    }
                }
            } else {
                pre.append("/");
                pre.append(e.rel[i].as_str());
                prevec.push(clone_string(&e.rel[i]));
                proof {
                    reveal_strlit("/");
                    assert("/"@ =~= seq!['/']);
                    assert(seq_views(e.rel@)[i as int] == e.rel@[i as int]@);
                    let tk1 = relv.take(i as int + 1);
                    assert(tk1.drop_last() =~= relv.take(i as int));
                    assert(tk1.last() == relv[i as int]);
                    assert(join_slash(tk1) == join_slash(relv.take(i as int)) + seq!['/']
                        + relv[i as int]);
                    assert(pre@ == path_of_rel(root@, join_slash(tk1))) by {
                        if root_needs_sep(root@) {
                            assert(root@ + seq!['/'] + (join_slash(relv.take(i as int))
                                + seq!['/'] + relv[i as int]) =~= (root@ + seq!['/'] + join_slash(
                                relv.take(i as int),
                            )) + seq!['/'] + relv[i as int]);
                        } else {
                            assert(root@ + (join_slash(relv.take(i as int)) + seq!['/']
                                + relv[i as int]) =~= (root@ + join_slash(relv.take(i as int)))
                                + seq!['/'] + relv[i as int]);
                        }
                    }
                    assert(seq_views(prevec@) =~= relv.take(i as int + 1));
                }
            }
            i = i + 1;
        }
    } else {
        proof {
            assert(anc@.take(anc@.len() as int) =~= anc@);
            assert(cov@.take(cov@.len() as int) =~= cov@);
            assert forall|i: int| #[trigger] anc_cond(relv, i, namesv) implies contains_epath(
                anc@,
                anc_path(root@, relv, i),
            ) by {
                assert(relv.len() < 2);
            }
        }
    }
}

/// Collects the included markdown files as outline entries,
/// deduplicated by path.
pub fn collect_md(
    entries: &Vec<FsEntry>,
    root: &String,
    ignore: &Vec<String>,
    names: &Vec<String>,
) -> (md: Vec<PathEntry>)
    ensures
        forall|k: int|
            0 <= k < md@.len() ==> {
                let e = (#[trigger] md@[k])@;
                &&& wf_path_entry(e, root@, seq_views(names@))
                &&& in_md(e.path, entry_views(entries@), root@, seq_views(ignore@))
                &&& e.is_folder == false
            },
        forall|s: Seq<char>|
            #[trigger] in_md(s, entry_views(entries@), root@, seq_views(ignore@))
                ==> contains_epath(md@, s),
        forall|i: int, j: int|
            0 <= i < j < md@.len() ==> (#[trigger] md@[i])@.path != (#[trigger] md@[j])@.path,
{
    let ghost ev = entry_views(entries@);
    let ghost ignorev = seq_views(ignore@);
    let ghost namesv = seq_views(names@);
    let mut md: Vec<PathEntry> = Vec::new();
    let mut j: usize = 0;
    while j < entries.len()
        invariant
            j <= entries@.len(),
            ev == entry_views(entries@),
            ignorev == seq_views(ignore@),
            namesv == seq_views(names@),
            forall|k: int|
                0 <= k < md@.len() ==> {
                    let e = (#[trigger] md@[k])@;
                    &&& wf_path_entry(e, root@, namesv)
                    &&& in_md(e.path, ev, root@, ignorev)
                    &&& e.is_folder == false
                },
            forall|jj: int|
                0 <= jj < j && included_file(#[trigger] ev[jj], root@, ignorev) ==> contains_epath(
                    md@,
                    ev[jj].path,
                ),
            forall|i: int, k: int|
                0 <= i < k < md@.len() ==> (#[trigger] md@[i])@.path != (#[trigger] md@[k])@.path,
        decreases entries@.len() - j,
    {
        assert(ev[j as int] == entries@[j as int]@);
        match filter_entry(&entries[j], root, ignore, names) {
            Some(rel) => {
                if !contains_path(&md, &entries[j].path) {
                    let ghost relv = rel_of(entries@[j as int]@.path, root@);
                    proof {
                        crate::paths::lemma_split_len(rel_str_of(entries@[j as int]@.path, root@));
                        assert(seq_views(rel@).len() >= 1);
                        assert(rel@.len() >= 1);
                    }
                    let last = rel.len() - 1;
                    let is_index = name_in_exec(rel[last].as_str(), names);
                    proof {
                        assert(seq_views(rel@)[last as int] == rel@[last as int]@);
                        assert(relv.last() == seq_views(rel@)[last as int]);
                    }
                    let entry = PathEntry {
                        path: clone_string(&entries[j].path),
                        rel,
                        is_folder: false,
                        is_index,
                    };
                    proof {
                        assert(entry@.path == ev[j as int].path);
                        assert(wf_path_entry(entry@, root@, namesv));
                        assert(in_md(entry@.path, ev, root@, ignorev));
                    }
                    let ghost md0 = md@;
                    md.push(entry);
                    proof {
                        assert forall|jj: int|
                            0 <= jj < j + 1 && included_file(
                                #[trigger] ev[jj],
                                root@,
                                ignorev,
                            ) implies contains_epath(md@, ev[jj].path) by {
                            if jj == j {
                                assert(md@[md@.len() - 1]@.path == ev[jj].path);
                            } else {
                                let k = choose|k: int|
                                    0 <= k < md0.len() && (#[trigger] md0[k])@.path == ev[jj].path;
                                assert(md@[k] == md0[k]);
                                assert(md@[k]@.path == ev[jj].path);
                            }
                        }
                    }
                }
            },
            None => {},
        }
        j = j + 1;
    }
    md
}

/// Collects the qualifying ancestor directories of every markdown
/// file, together with the directories that an index file covers.
pub(crate) fn collect_anc(
    md: &Vec<PathEntry>,
    root: &String,
    names: &Vec<String>,
    Ghost(ev): Ghost<Seq<FsEntryV>>,
    Ghost(ignorev): Ghost<Seq<Seq<char>>>,
) -> (r: (Vec<PathEntry>, Vec<String>))
    requires
        forall|k: int|
            0 <= k < md@.len() ==> {
                let e = (#[trigger] md@[k])@;
                wf_path_entry(e, root@, seq_views(names@)) && in_md(e.path, ev, root@, ignorev)
            },
        forall|s: Seq<char>| #[trigger] in_md(s, ev, root@, ignorev) ==> contains_epath(md@, s),
    ensures
        forall|a: int|
            0 <= a < r.0@.len() ==> {
                let v = (#[trigger] r.0@[a])@;
                &&& wf_path_entry(v, root@, seq_views(names@))
                &&& v.is_folder == true
                &&& is_anc(v.path, ev, root@, ignorev, seq_views(names@))
            },
        forall|s: Seq<char>|
            #[trigger] is_anc(s, ev, root@, ignorev, seq_views(names@)) ==> contains_epath(
                r.0@,
                s,
            ),
        paths_dupfree(r.0@),
        forall|a: int|
            0 <= a < r.1@.len() ==> is_covered(
                (#[trigger] r.1@[a])@,
                ev,
                root@,
                ignorev,
                seq_views(names@),
            ),
        forall|s: Seq<char>|
            #[trigger] is_covered(s, ev, root@, ignorev, seq_views(names@)) ==> contains_sview(
                r.1@,
                s,
            ),
{
    let ghost namesv = seq_views(names@);
    let mut anc: Vec<PathEntry> = Vec::new();
    let mut cov: Vec<String> = Vec::new();
    let mut k: usize = 0;
    while k < md.len()
        invariant
            k <= md@.len(),
            namesv == seq_views(names@),
            forall|kk: int|
                0 <= kk < md@.len() ==> {
                    let e = (#[trigger] md@[kk])@;
                    wf_path_entry(e, root@, namesv) && in_md(e.path, ev, root@, ignorev)
                },
            forall|a: int|
                0 <= a < anc@.len() ==> {
                    let v = (#[trigger] anc@[a])@;
                    &&& wf_path_entry(v, root@, namesv)
                    &&& v.is_folder == true
                    &&& is_anc(v.path, ev, root@, ignorev, namesv)
                },
            paths_dupfree(anc@),
            forall|a: int|
                0 <= a < cov@.len() ==> is_covered((#[trigger] cov@[a])@, ev, root@, ignorev, namesv),
            forall|kk: int, i: int|
                0 <= kk < k && #[trigger] anc_cond((#[trigger] md@[kk])@.rel, i, namesv)
                    ==> contains_epath(anc@, anc_path(root@, md@[kk]@.rel, i)),
            forall|kk: int|
                0 <= kk < k && ((#[trigger] md@[kk])@.rel.len() >= 2 && stop_pos(
                    md@[kk]@.rel,
                    namesv,
                ) <= md@[kk]@.rel.len()) ==> contains_sview(
                    cov@,
                    anc_path(root@, md@[kk]@.rel, md@[kk]@.rel.len() - 1),
                ),
        decreases md@.len() - k,
    {
        let ghost anc_pre = anc@;
        let ghost cov_pre = cov@;
        let ghost e = md@[k as int]@;
        process_one_md(&mut anc, &mut cov, &md[k], root, names);
        proof {
            let j = choose|j: int|
                0 <= j < ev.len() && (#[trigger] ev[j]).path == e.path && included_file(
                    ev[j],
                    root@,
                    ignorev,
                );
            assert(rel_of(ev[j].path, root@) == e.rel);
            // soundness of the entries this step added
            assert forall|a: int| 0 <= a < anc@.len() implies {
                let v = (#[trigger] anc@[a])@;
                &&& wf_path_entry(v, root@, namesv)
                &&& v.is_folder == true
                &&& is_anc(v.path, ev, root@, ignorev, namesv)
            } by {
                if a < anc_pre.len() {
                    assert(anc@.take(anc_pre.len() as int)[a] == anc@[a]);
                    assert(anc_pre[a] == anc@[a]);
                } else {
                    let v = anc@[a]@;
                    let i = choose|i: int|
                        #[trigger] anc_cond(e.rel, i, namesv) && v.path == anc_path(
                            root@,
                            e.rel,
                            i,
                        );
                    assert(anc_of(v.path, ev[j].path, root@, namesv));
                    assert(is_anc(v.path, ev, root@, ignorev, namesv));
                }
            }
            assert forall|a: int| 0 <= a < cov@.len() implies is_covered(
                (#[trigger] cov@[a])@,
                ev,
                root@,
                ignorev,
                namesv,
            ) by {
                if a < cov_pre.len() {
                    assert(cov@.take(cov_pre.len() as int)[a] == cov@[a]);
                    assert(cov_pre[a] == cov@[a]);
                } else {
                    assert(covered_of(cov@[a]@, e.path, root@, namesv));
                    assert(covered_of(cov@[a]@, ev[j].path, root@, namesv));
                    assert(is_covered(cov@[a]@, ev, root@, ignorev, namesv));
                }
            }
            // completeness carried over from the processed prefix
            assert forall|kk: int, i: int|
                0 <= kk < k + 1 && #[trigger] anc_cond(
                    (#[trigger] md@[kk])@.rel,
                    i,
                    namesv,
                ) implies contains_epath(anc@, anc_path(root@, md@[kk]@.rel, i)) by {
                if kk < k {
                    lemma_contains_epath_prefix(
                        anc_pre,
                        anc@,
                        anc_path(root@, md@[kk]@.rel, i),
                    );
                }
            }
            assert forall|kk: int|
                0 <= kk < k + 1 && ((#[trigger] md@[kk])@.rel.len() >= 2 && stop_pos(
                    md@[kk]@.rel,
                    namesv,
                ) <= md@[kk]@.rel.len()) implies contains_sview(
                    cov@,
                    anc_path(root@, md@[kk]@.rel, md@[kk]@.rel.len() - 1),
                ) by {
                if kk < k {
                    lemma_contains_sview_prefix(
                        cov_pre,
                        cov@,
                        anc_path(root@, md@[kk]@.rel, md@[kk]@.rel.len() - 1),
                    );
                }
            }
        }
        k = k + 1;
    }
    proof {
        assert forall|s: Seq<char>| is_anc(s, ev, root@, ignorev, namesv) implies contains_epath(
            anc@,
            s,
        ) by {
            let j = choose|j: int|
                0 <= j < ev.len() && included_file(#[trigger] ev[j], root@, ignorev) && anc_of(
                    s,
                    ev[j].path,
                    root@,
                    namesv,
                );
            assert(in_md(ev[j].path, ev, root@, ignorev));
            assert(contains_epath(md@, ev[j].path));
            let kk = choose|kk: int|
                0 <= kk < md@.len() && (#[trigger] md@[kk])@.path == ev[j].path;
            assert(md@[kk]@.rel == rel_of(ev[j].path, root@));
            let i = choose|i: int|
                #[trigger] anc_cond(rel_of(ev[j].path, root@), i, namesv) && s == anc_path(
                    root@,
                    rel_of(ev[j].path, root@),
                    i,
                );
            assert(anc_cond(md@[kk]@.rel, i, namesv));
        }
        assert forall|s: Seq<char>|
            is_covered(s, ev, root@, ignorev, namesv) implies contains_sview(cov@, s) by {
            let j = choose|j: int|
                0 <= j < ev.len() && included_file(#[trigger] ev[j], root@, ignorev) && covered_of(
                    s,
                    ev[j].path,
                    root@,
                    namesv,
                );
            assert(in_md(ev[j].path, ev, root@, ignorev));
            assert(contains_epath(md@, ev[j].path));
            let kk = choose|kk: int|
                0 <= kk < md@.len() && (#[trigger] md@[kk])@.path == ev[j].path;
            assert(md@[kk]@.rel == rel_of(ev[j].path, root@));
        }
    }
    (anc, cov)
}

/// Builds the combined, deduplicated entry list: every included
/// markdown file, and every qualifying ancestor directory that no
/// index file covers.
pub fn assemble_entries(
    entries: &Vec<FsEntry>,
    root: &String,
    ignore: &Vec<String>,
    names: &Vec<String>,
) -> (out: Vec<PathEntry>)
    ensures
        forall|a: int|
            0 <= a < out@.len() ==> {
                let v = (#[trigger] out@[a])@;
                &&& wf_path_entry(v, root@, seq_views(names@))
                &&& in_assembled(
                    v.path,
                    entry_views(entries@),
                    root@,
                    seq_views(ignore@),
                    seq_views(names@),
                )
                &&& v.is_folder == !in_md(v.path, entry_views(entries@), root@, seq_views(ignore@))
            },
        forall|s: Seq<char>|
            #[trigger] in_assembled(
                s,
                entry_views(entries@),
                root@,
                seq_views(ignore@),
                seq_views(names@),
            ) ==> contains_epath(out@, s),
        paths_dupfree(out@),
{
    let ghost ev = entry_views(entries@);
    let ghost ignorev = seq_views(ignore@);
    let ghost namesv = seq_views(names@);
    let md = collect_md(entries, root, ignore, names);
    let (anc, cov) = collect_anc(&md, root, names, Ghost(ev), Ghost(ignorev));
    let ghost mdv = md@;
    let mut out = md;
    let mut a: usize = 0;
    proof {
        assert(mdv.is_prefix_of(out@)) by {
            assert(out@.take(out@.len() as int) =~= out@);
        }
    }
    while a < anc.len()
        invariant
            a <= anc@.len(),
            namesv == seq_views(names@),
            ignorev == seq_views(ignore@),
            ev == entry_views(entries@),
            mdv.is_prefix_of(out@),
            // facts about the collected lists
            forall|x: int|
                0 <= x < mdv.len() ==> {
                    let v = (#[trigger] mdv[x])@;
                    &&& wf_path_entry(v, root@, namesv)
                    &&& in_md(v.path, ev, root@, ignorev)
                    &&& v.is_folder == false
                },
            forall|s: Seq<char>|
                #[trigger] in_md(s, ev, root@, ignorev) ==> contains_epath(mdv, s),
            forall|x: int|
                0 <= x < anc@.len() ==> {
                    let v = (#[trigger] anc@[x])@;
                    &&& wf_path_entry(v, root@, namesv)
                    &&& v.is_folder == true
                    &&& is_anc(v.path, ev, root@, ignorev, namesv)
                },
            forall|x: int|
                0 <= x < cov@.len() ==> is_covered((#[trigger] cov@[x])@, ev, root@, ignorev, namesv),
            forall|s: Seq<char>|
                #[trigger] is_covered(s, ev, root@, ignorev, namesv) ==> contains_sview(cov@, s),
            // what the output holds so far
            forall|x: int|
                0 <= x < out@.len() ==> {
                    let v = (#[trigger] out@[x])@;
                    &&& wf_path_entry(v, root@, namesv)
                    &&& in_assembled(v.path, ev, root@, ignorev, namesv)
                    &&& v.is_folder == !in_md(v.path, ev, root@, ignorev)
                },
            paths_dupfree(out@),
            forall|b: int|
                0 <= b < a && !is_covered((#[trigger] anc@[b])@.path, ev, root@, ignorev, namesv)
                    ==> contains_epath(out@, anc@[b]@.path),
        decreases anc@.len() - a,
    {
        let ghost out_pre = out@;
        if !contains_str(&cov, &anc[a].path) {
            proof {
                assert(!is_covered(anc@[a as int]@.path, ev, root@, ignorev, namesv));
                assert(in_assembled(anc@[a as int]@.path, ev, root@, ignorev, namesv));
            }
            let already = contains_path(&out, &anc[a].path);
            if !already {
                proof {
                    assert(!contains_epath(mdv, anc@[a as int]@.path)) by {
                        if contains_epath(mdv, anc@[a as int]@.path) {
                            let x = choose|x: int|
                                0 <= x < mdv.len() && (#[trigger] mdv[x])@.path == anc@[
                                    a as int
                                ]@.path;
                            assert(out@.take(mdv.len() as int)[x] == out@[x]);
                            assert(contains_epath(out@, anc@[a as int]@.path));
                        }
                    }
                    assert(!in_md(anc@[a as int]@.path, ev, root@, ignorev));
                }
                let entry = PathEntry {
                    path: clone_string(&anc[a].path),
                    rel: clone_vec_string(&anc[a].rel),
                    is_folder: true,
                    is_index: anc[a].is_index,
                };
                proof {
                    assert(entry@ == anc@[a as int]@);
                }
                push_unique_entry(&mut out, entry);
                proof {
                    assert(mdv.is_prefix_of(out@)) by {
                        assert forall|x: int| 0 <= x < mdv.len() implies out@.take(
                            mdv.len() as int,
                        )[x] == mdv[x] by {
                            assert(out@.take(out_pre.len() as int)[x] == out@[x]);
                            assert(out_pre.take(mdv.len() as int)[x] == out_pre[x]);
                        }
                        assert(out@.take(mdv.len() as int) =~= mdv);
                    }
                    assert forall|x: int| 0 <= x < out@.len() implies {
                        let v = (#[trigger] out@[x])@;
                        &&& wf_path_entry(v, root@, namesv)
                        &&& in_assembled(v.path, ev, root@, ignorev, namesv)
                        &&& v.is_folder == !in_md(v.path, ev, root@, ignorev)
                    } by {
                        if x < out_pre.len() {
                            assert(out@.take(out_pre.len() as int)[x] == out@[x]);
                            assert(out_pre[x] == out@[x]);
                        } else {
                            assert(out@[x]@ == anc@[a as int]@);
                        }
                    }
                }
            }
        } else {
            proof {
                let x = choose|x: int|
                    0 <= x < cov@.len() && (#[trigger] cov@[x])@ == anc@[a as int]@.path;
                assert(is_covered(anc@[a as int]@.path, ev, root@, ignorev, namesv));
            }
        }
        proof {
            assert(out_pre.is_prefix_of(out@)) by {
                if out_pre == out@ {
                    assert(out@.take(out@.len() as int) =~= out@);
                }
            }
            assert forall|b: int|
                0 <= b < a + 1 && !is_covered(
                    (#[trigger] anc@[b])@.path,
                    ev,
                    root@,
                    ignorev,
                    namesv,
                ) implies contains_epath(out@, anc@[b]@.path) by {
                if b < a {
                    lemma_contains_epath_prefix(out_pre, out@, anc@[b]@.path);
                }
            }
        }
        a = a + 1;
    }
    proof {
        assert forall|s: Seq<char>|
            in_assembled(s, ev, root@, ignorev, namesv) implies contains_epath(out@, s) by {
            if in_md(s, ev, root@, ignorev) {
                lemma_contains_epath_prefix(mdv, out@, s);
            } else {
                assert(is_anc(s, ev, root@, ignorev, namesv));
                assert(contains_epath(anc@, s));
                let b = choose|b: int| 0 <= b < anc@.len() && (#[trigger] anc@[b])@.path == s;
                assert(!is_covered(anc@[b]@.path, ev, root@, ignorev, namesv));
                assert(contains_epath(out@, anc@[b]@.path));
            }
        }
    }
    out
}

} // verus!
