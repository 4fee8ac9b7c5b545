//! Ordering and numbering of the assembled entries: the sort into
//! display order, and the hierarchical section-number assignment.
use vstd::prelude::*;
use crate::strutil::{str_eq_exec, str_lt_exec, seq_views, name_in, name_in_exec};
use crate::order::{comp_pri, key_lt, key_lt_from, lemma_key_lt_irreflexive, lemma_key_lt_transitive,
    lemma_key_lt_trichotomy};
use crate::scan::{PathEntry, PathV, wf_path_entry, paths_dupfree, contains_epath, clone_string};
use crate::paths::{lemma_split_injective, lemma_path_reassemble, rel_str_of};

verus! {

/// The view `e` occurs among the entries of `s`.
pub open spec fn elem_of(e: PathV, s: Seq<PathEntry>) -> bool {
    exists|y: int| 0 <= y < s.len() && (#[trigger] s[y])@ == e
}

/// Compares two entries under the outline order.
pub(crate) fn key_lt_exec(a: &PathEntry, b: &PathEntry) -> (r: bool)
    ensures
        r == key_lt(a@.rel, a@.is_index, b@.rel, b@.is_index),
{
    let ghost ar = a@.rel;
    let ghost br = b@.rel;
    let mut k: usize = 0;
    loop
        invariant
            ar == a@.rel,
            br == b@.rel,
            key_lt(ar, a@.is_index, br, b@.is_index) == key_lt_from(
                ar,
                a@.is_index,
                br,
                b@.is_index,
                k as int,
            ),
            k <= ar.len() || k <= br.len(),
        decreases ar.len() + br.len() - k,
    {
        if k >= a.rel.len() {
            return k < b.rel.len();
        }
        if k >= b.rel.len() {
            return false;
        }
        let pa = a.is_index && k == a.rel.len() - 1;
        let pb = b.is_index && k == b.rel.len() - 1;
        proof {
            assert((if pa { 0int } else { 1int }) == comp_pri(ar, a@.is_index, k as int));
            assert((if pb { 0int } else { 1int }) == comp_pri(br, b@.is_index, k as int));
        }
        if pa != pb {
            return pa;
        }
        proof {
            assert(seq_views(a.rel@)[k as int] == a.rel@[k as int]@);
            assert(seq_views(b.rel@)[k as int] == b.rel@[k as int]@);
        }
        if !str_eq_exec(a.rel[k].as_str(), b.rel[k].as_str()) {
            return str_lt_exec(a.rel[k].as_str(), b.rel[k].as_str());
        }
        k = k + 1;
    }
}

/// Entries with distinct paths have distinct component lists.
pub proof fn lemma_distinct_keys(e1: PathV, e2: PathV, root: Seq<char>, names: Seq<Seq<char>>)
    requires
        wf_path_entry(e1, root, names),
        wf_path_entry(e2, root, names),
        e1.path != e2.path,
    ensures
        e1.rel != e2.rel,
{
    if e1.rel == e2.rel {
        lemma_split_injective(rel_str_of(e1.path, root), rel_str_of(e2.path, root));
        lemma_path_reassemble(e1.path, root);
        lemma_path_reassemble(e2.path, root);
    }
}

/// Sorts the entries into outline order: the result is a permutation
/// of the input, strictly ordered by the entry order.
pub fn sort_entries(
    input: Vec<PathEntry>,
    Ghost(root): Ghost<Seq<char>>,
    Ghost(namesv): Ghost<Seq<Seq<char>>>,
) -> (out: Vec<PathEntry>)
    requires
        forall|x: int|
            0 <= x < input@.len() ==> wf_path_entry((#[trigger] input@[x])@, root, namesv),
        paths_dupfree(input@),
    ensures
        out@.len() == input@.len(),
        forall|x: int| 0 <= x < out@.len() ==> elem_of((#[trigger] out@[x])@, input@),
        forall|p: Seq<char>| contains_epath(input@, p) ==> contains_epath(out@, p),
        forall|x: int, y: int|
            0 <= x < y < out@.len() ==> key_lt(
                (#[trigger] out@[x])@.rel,
                out@[x]@.is_index,
                (#[trigger] out@[y])@.rel,
                out@[y]@.is_index,
            ),
        paths_dupfree(out@),
{
    let ghost w = input@;
    let mut rem = input;
    let mut out: Vec<PathEntry> = Vec::new();
    proof {
        assert forall|x: int| 0 <= x < rem@.len() implies elem_of(
            (#[trigger] rem@[x])@,
            input@,
        ) by {
            assert(rem@[x]@ == w[x]@);
            assert(elem_of(w[x]@, w));
        }
        assert(paths_dupfree(out@ + rem@)) by {
            assert(out@ + rem@ =~= rem@);
        }
    }
    while rem.len() > 0
        invariant
            w == input@,
            out@.len() + rem@.len() == w.len(),
            forall|x: int| 0 <= x < w.len() ==> wf_path_entry((#[trigger] w[x])@, root, namesv),
            paths_dupfree(w),
            // every element of out and rem is an element of w
            forall|x: int| 0 <= x < out@.len() ==> elem_of((#[trigger] out@[x])@, input@),
            forall|x: int| 0 <= x < rem@.len() ==> elem_of((#[trigger] rem@[x])@, input@),
            // membership of paths is preserved
            forall|p: Seq<char>|
                #[trigger] contains_epath(w, p) ==> contains_epath(out@, p) || contains_epath(
                    rem@,
                    p,
                ),
            // out and rem together stay duplicate-free
            paths_dupfree(out@ + rem@),
            // out is strictly sorted and everything in out precedes rem
            forall|x: int, y: int|
                0 <= x < y < out@.len() ==> key_lt(
                    (#[trigger] out@[x])@.rel,
                    out@[x]@.is_index,
                    (#[trigger] out@[y])@.rel,
                    out@[y]@.is_index,
                ),
            forall|x: int, y: int|
                0 <= x < out@.len() && 0 <= y < rem@.len() ==> key_lt(
                    (#[trigger] out@[x])@.rel,
                    out@[x]@.is_index,
                    (#[trigger] rem@[y])@.rel,
                    rem@[y]@.is_index,
                ),
        decreases rem@.len(),
    {
        // find the least remaining entry
        let mut mi: usize = 0;
        let mut t: usize = 1;
        while t < rem.len()
            invariant
                mi < t <= rem@.len(),
                rem@.len() > 0,
                forall|y: int|
                    0 <= y < t && y != mi ==> !key_lt(
                        (#[trigger] rem@[y])@.rel,
                        rem@[y]@.is_index,
                        rem@[mi as int]@.rel,
                        rem@[mi as int]@.is_index,
                    ),
            decreases rem@.len() - t,
        {
            let ghost old_mi = mi as int;
            if key_lt_exec(&rem[t], &rem[mi]) {
                mi = t;
                proof {
                    assert forall|y: int|
                        0 <= y < t + 1 && y != mi implies !key_lt(
                            (#[trigger] rem@[y])@.rel,
                            rem@[y]@.is_index,
                            rem@[mi as int]@.rel,
                            rem@[mi as int]@.is_index,
                        ) by {
                        lemma_key_lt_irreflexive(
                            rem@[old_mi]@.rel,
                            rem@[old_mi]@.is_index,
                            0,
                        );
                        if key_lt(rem@[y]@.rel, rem@[y]@.is_index, rem@[mi as int]@.rel,
                        rem@[mi as int]@.is_index) {
                            lemma_key_lt_transitive(
                                rem@[y]@.rel,
                                rem@[y]@.is_index,
                                rem@[mi as int]@.rel,
                                rem@[mi as int]@.is_index,
                                rem@[old_mi]@.rel,
                                rem@[old_mi]@.is_index,
                                0,
                            );
                        }
                    }
                }
            }
            t = t + 1;
        }
        let ghost rem_pre = rem@;
        let ghost out_pre = out@;
        let e = rem.remove(mi);
        proof {
            assert(rem@ == rem_pre.remove(mi as int));
            assert forall|x: int| 0 <= x < rem@.len() implies (#[trigger] rem@[x]) == (if x
                < mi as int {
                rem_pre[x]
            } else {
                rem_pre[x + 1]
            }) by {}
            // the removed entry strictly precedes everything left
            assert forall|y: int| 0 <= y < rem@.len() implies key_lt(
                e@.rel,
                e@.is_index,
                (#[trigger] rem@[y])@.rel,
                rem@[y]@.is_index,
            ) by {
                let yy: int = if y < mi as int {
                    y
                } else {
                    y + 1
                };
                assert(rem@[y] == rem_pre[yy]);
                assert(!key_lt(rem_pre[yy]@.rel, rem_pre[yy]@.is_index, e@.rel, e@.is_index));
                // distinct paths give distinct component lists
                assert(rem_pre[yy]@.path != e@.path) by {
                    assert(paths_dupfree(out_pre + rem_pre));
                    let oy = out_pre.len() + yy;
                    let om = out_pre.len() + mi;
                    assert((out_pre + rem_pre)[oy as int] == rem_pre[yy]);
                    assert((out_pre + rem_pre)[om as int] == rem_pre[mi as int]);
                }
                assert(wf_path_entry(rem_pre[yy]@, root, namesv)) by {
                    let yw = choose|yw: int|
                        0 <= yw < input@.len() && (#[trigger] input@[yw])@ == rem_pre[yy]@;
                    assert(wf_path_entry(input@[yw]@, root, namesv));
                }
                assert(wf_path_entry(e@, root, namesv)) by {
                    let yw = choose|yw: int|
                        0 <= yw < input@.len() && (#[trigger] input@[yw])@ == e@;
                    assert(wf_path_entry(input@[yw]@, root, namesv));
                }
                lemma_distinct_keys(rem_pre[yy]@, e@, root, namesv);
                lemma_key_lt_trichotomy(
                    rem_pre[yy]@.rel,
                    rem_pre[yy]@.is_index,
                    e@.rel,
                    e@.is_index,
                    0,
                );
                assert(rem_pre[yy]@.rel.skip(0) =~= rem_pre[yy]@.rel);
                assert(e@.rel.skip(0) =~= e@.rel);
            }
        }
        out.push(e);
        proof {
            assert(out@ == out_pre.push(e));
            // permutation bookkeeping
            assert forall|p: Seq<char>|
                #[trigger] contains_epath(w, p) implies contains_epath(out@, p) || contains_epath(
                    rem@,
                    p,
                ) by {
                if contains_epath(out_pre, p) {
                    crate::scan::lemma_contains_epath_prefix(out_pre, out@, p);
                    assert(out@.take(out_pre.len() as int) =~= out_pre);
                } else if contains_epath(rem_pre, p) {
                    let x = choose|x: int|
                        0 <= x < rem_pre.len() && (#[trigger] rem_pre[x])@.path == p;
                    if x == mi as int {
                        assert(out@[out_pre.len() as int]@.path == p);
                    } else if x < mi as int {
                        assert(rem@[x] == rem_pre[x]);
                    } else {
                        assert(rem@[x - 1] == rem_pre[x]);
                    }
                }
            }
            assert(paths_dupfree(out@ + rem@)) by {
                let c_new = out@ + rem@;
                let c_old = out_pre + rem_pre;
                assert forall|i: int, j: int|
                    0 <= i < j < c_new.len() implies (#[trigger] c_new[i])@.path != (
                #[trigger] c_new[j])@.path by {
                    let f = |z: int|
                        if z < out_pre.len() {
                            z
                        } else if z == out_pre.len() {
                            out_pre.len() + mi
                        } else if z <= out_pre.len() + mi {
                            z - 1
                        } else {
                            z
                        };
                    assert(c_new[i] == c_old[f(i)]);
                    assert(c_new[j] == c_old[f(j)]);
                    assert(f(i) != f(j));
                }
            }
        }
    }
    proof {
        assert forall|p: Seq<char>| contains_epath(w, p) implies contains_epath(out@, p) by {}
        assert(paths_dupfree(out@)) by {
            assert forall|i: int, j: int|
                0 <= i < j < out@.len() implies (#[trigger] out@[i])@.path != (
            #[trigger] out@[j])@.path by {
                assert((out@ + rem@)[i] == out@[i]);
                assert((out@ + rem@)[j] == out@[j]);
            }
        }
    }
    out
}


/// The depth bound of the outline: no entry may consume more levels.
pub open spec fn max_depth() -> int {
    24
}

/// The numbering state: the most recent component name seen at each
/// level, and how many distinct names have been counted there.
pub ghost struct NumSt {
    pub names: Seq<Seq<char>>,
    pub counters: Seq<int>,
}

pub open spec fn st_wf(st: NumSt) -> bool {
    st.names.len() == max_depth() && st.counters.len() == max_depth()
}

/// The state before any entry is numbered.
pub open spec fn init_st() -> NumSt {
    NumSt {
        names: Seq::new(max_depth() as nat, |j: int| Seq::<char>::empty()),
        counters: Seq::new(max_depth() as nat, |j: int| 0),
    }
}

/// A new name at level `d`: its counter advances and every deeper
/// level is reset.
pub open spec fn bump(st: NumSt, c: Seq<char>, d: int) -> NumSt {
    NumSt {
        names: Seq::new(
            max_depth() as nat,
            |j: int|
                if j < d {
                    st.names[j]
                } else if j == d {
                    c
                } else {
                    Seq::<char>::empty()
                },
        ),
        counters: Seq::new(
            max_depth() as nat,
            |j: int|
                if j < d {
                    st.counters[j]
                } else if j == d {
                    st.counters[d] + 1
                } else {
                    0
                },
        ),
    }
}

/// One component of a path: an index-named component consumes no
/// level; a markdown-named or changed component opens a new slot; a
/// repeated directory name keeps its slot.
pub open spec fn step_comp(st: NumSt, c: Seq<char>, d: int, names: Seq<Seq<char>>) -> (NumSt, int) {
    if name_in(c, names) {
        (st, d)
    } else if d >= max_depth() {
        (st, max_depth())
    } else if st.names[d] != c || crate::strutil::is_md_name(c) {
        (bump(st, c, d), d + 1)
    } else {
        (st, d + 1)
    }
}

/// Folds the components of one path from position `k` at depth `d`.
pub open spec fn apply_from(
    st: NumSt,
    rel: Seq<Seq<char>>,
    k: int,
    d: int,
    names: Seq<Seq<char>>,
) -> (NumSt, int)
    decreases rel.len() - k,
{
    if k < 0 || k >= rel.len() {
        (st, d)
    } else {
        let r = step_comp(st, rel[k], d, names);
        apply_from(r.0, rel, k + 1, r.1, names)
    }
}

/// The state and section vector an entry receives.
pub open spec fn path_result(st: NumSt, rel: Seq<Seq<char>>, names: Seq<Seq<char>>) -> (
    NumSt,
    Seq<int>,
) {
    let r = apply_from(st, rel, 0, 0, names);
    (r.0, r.0.counters.take(r.1))
}

/// How many components of `rel` are not index filenames.
pub open spec fn nonindex_count(rel: Seq<Seq<char>>, names: Seq<Seq<char>>) -> int
    decreases rel.len(),
{
    if rel.len() == 0 {
        0
    } else {
        (if name_in(rel[0], names) {
            0int
        } else {
            1int
        }) + nonindex_count(rel.skip(1), names)
    }
}

/// A path too deep to number: it would consume at least `max_depth`
/// levels.
pub open spec fn too_deep(rel: Seq<Seq<char>>, names: Seq<Seq<char>>) -> bool {
    nonindex_count(rel, names) >= max_depth()
}

/// The component lists of a sequence of entries.
pub open spec fn rels_of(s: Seq<PathEntry>) -> Seq<Seq<Seq<char>>> {
    s.map_values(|e: PathEntry| e@.rel)
}

/// The numbering state after the first `k` paths of `rels`.
pub open spec fn st_after(rels: Seq<Seq<Seq<char>>>, k: int, names: Seq<Seq<char>>) -> NumSt
    decreases k,
{
    if k <= 0 {
        init_st()
    } else {
        path_result(st_after(rels, k - 1, names), rels[k - 1], names).0
    }
}

/// The section vector of the `k`-th path of `rels`.
pub open spec fn section_of(rels: Seq<Seq<Seq<char>>>, k: int, names: Seq<Seq<char>>) -> Seq<int> {
    path_result(st_after(rels, k, names), rels[k], names).1
}


/// The integer views of a vector of counters.
pub open spec fn ints_of(v: Seq<usize>) -> Seq<int> {
    v.map_values(|x: usize| x as int)
}

/// One produced outline entry: the entry's base name, its full path,
/// its hierarchical section number, and whether it stands for a
/// directory.
#[derive(Debug)]
pub struct MarkdownFile {
    pub name: String,
    pub filename: String,
    pub section: Vec<usize>,
    pub is_folder: bool,
}

pub ghost struct MarkdownFileV {
    pub name: Seq<char>,
    pub filename: Seq<char>,
    pub section: Seq<int>,
    pub is_folder: bool,
}

impl View for MarkdownFile {
    type V = MarkdownFileV;

    open spec fn view(&self) -> MarkdownFileV {
        MarkdownFileV {
            name: self.name@,
            filename: self.filename@,
            section: ints_of(self.section@),
            is_folder: self.is_folder,
        }
    }
}

/// The one fatal failure: a path that nests deeper than the outline
/// supports. It carries the offending path.
#[derive(Debug)]
pub enum FindError {
    DepthExceeded(String),
}

impl FindError {
    /// A human-readable description naming the offending path.
    pub fn message(&self) -> (r: String)
        ensures
            self matches FindError::DepthExceeded(p) ==> r@ == "folder structure too deep: "@
                + p@,
    {
        match self {
            FindError::DepthExceeded(p) => {
                let m = String::from_str("folder structure too deep: ");
                m.concat(p.as_str())
            },
        }
    }
}

pub proof fn lemma_nonindex_bounds(rel: Seq<Seq<char>>, names: Seq<Seq<char>>)
    ensures
        0 <= nonindex_count(rel, names) <= rel.len(),
    decreases rel.len(),
{
    if rel.len() > 0 {
        lemma_nonindex_bounds(rel.skip(1), names);
    }
}

/// Counting non-index components splits at any cut point.
pub proof fn lemma_nonindex_split(rel: Seq<Seq<char>>, c: int, names: Seq<Seq<char>>)
    requires
        0 <= c <= rel.len(),
    ensures
        nonindex_count(rel, names) == nonindex_count(rel.take(c), names) + nonindex_count(
            rel.skip(c),
            names,
        ),
    decreases c,
{
    if c == 0 {
        assert(rel.take(0) =~= Seq::<Seq<char>>::empty());
        assert(rel.skip(0) =~= rel);
    } else {
        let tl = rel.skip(1);
        assert forall|j: int| 0 <= j < c - 1 implies #[trigger] tl.take(c - 1)[j] == rel.take(
            c,
        )[j + 1] by {}
        assert(tl.take(c - 1) =~= rel.take(c).skip(1));
        assert(tl.skip(c - 1) =~= rel.skip(c));
        lemma_nonindex_split(tl, c - 1, names);
        assert(rel.take(c)[0] == rel[0]);
        assert(rel.take(c).len() > 0);
    }
}

/// Assigns every entry its section number, in list order; fails on
/// the first entry that nests too deep.
pub fn number_entries(list: &Vec<PathEntry>, names: &Vec<String>) -> (r: Result<
    Vec<MarkdownFile>,
    FindError,
>)
    requires
        forall|x: int| 0 <= x < list@.len() ==> (#[trigger] list@[x])@.rel.len() >= 1,
    ensures
        match r {
            Ok(v) => {
                &&& v@.len() == list@.len()
                &&& forall|k: int|
                    0 <= k < list@.len() ==> {
                        let m = (#[trigger] v@[k])@;
                        &&& m.filename == list@[k]@.path
                        &&& m.name == list@[k]@.rel.last()
                        &&& m.is_folder == list@[k]@.is_folder
                        &&& m.section == section_of(rels_of(list@), k, seq_views(names@))
                        &&& !too_deep(list@[k]@.rel, seq_views(names@))
                    }
            },
            Err(err) => exists|k: int|
                0 <= k < list@.len() && (err matches FindError::DepthExceeded(p) && p@ == (
                #[trigger] list@[k])@.path) && too_deep(list@[k]@.rel, seq_views(names@)) && (
                forall|kk: int|
                    0 <= kk < k ==> !too_deep((#[trigger] list@[kk])@.rel, seq_views(names@))),
        },
{
    let ghost rels = rels_of(list@);
    let ghost namesv = seq_views(names@);
    let mut snames: Vec<String> = Vec::new();
    let mut scnt: Vec<usize> = Vec::new();
    let mut z: usize = 0;
    while z < 24
        invariant
            z <= 24,
            snames@.len() == z,
            scnt@.len() == z,
            forall|j: int| 0 <= j < z ==> (#[trigger] snames@[j])@ == Seq::<char>::empty(),
            forall|j: int| 0 <= j < z ==> (#[trigger] scnt@[j]) == 0,
        decreases 24 - z,
    {
        snames.push(String::new());
        scnt.push(0);
        z = z + 1;
    }
    proof {
        assert(seq_views(snames@) =~= init_st().names);
        assert(ints_of(scnt@) =~= init_st().counters);
    }
    let mut out: Vec<MarkdownFile> = Vec::new();
    let mut k: usize = 0;
    while k < list.len()
        invariant
            k <= list@.len(),
            rels == rels_of(list@),
            namesv == seq_views(names@),
            forall|x: int| 0 <= x < list@.len() ==> (#[trigger] list@[x])@.rel.len() >= 1,
            snames@.len() == 24,
            scnt@.len() == 24,
            (NumSt { names: seq_views(snames@), counters: ints_of(scnt@) }) == st_after(
                rels,
                k as int,
                namesv,
            ),
            forall|j: int| 0 <= j < 24 ==> 0 <= (#[trigger] ints_of(scnt@)[j]) <= k as int,
            out@.len() == k,
            forall|kk: int|
                0 <= kk < k ==> {
                    let m = (#[trigger] out@[kk])@;
                    &&& m.filename == list@[kk]@.path
                    &&& m.name == list@[kk]@.rel.last()
                    &&& m.is_folder == list@[kk]@.is_folder
                    &&& m.section == section_of(rels, kk, namesv)
                    &&& !too_deep(list@[kk]@.rel, namesv)
                },
        decreases list@.len() - k,
    {
        let e = &list[k];
        let ghost relv = e@.rel;
        let ghost st0 = NumSt { names: seq_views(snames@), counters: ints_of(scnt@) };
        proof {
            assert(rels[k as int] == relv);
        }
        let n = e.rel.len();
        let total = list.len();
        proof {
            assert forall|kk: int| 0 <= kk < k implies !too_deep(
                (#[trigger] list@[kk])@.rel,
                namesv,
            ) by {
                assert(out@[kk]@.filename == list@[kk]@.path);
            }
        }
        let mut d: usize = 0;
        let mut c: usize = 0;
        while c < n
            invariant
                c <= n,
                n == relv.len(),
                relv == e@.rel,
                e == list@[k as int],
                k < list@.len(),
                list@.len() == total as int,
                forall|kk: int|
                    0 <= kk < k ==> !too_deep((#[trigger] list@[kk])@.rel, namesv),
                seq_views(e.rel@) == relv,
                namesv == seq_views(names@),
                snames@.len() == 24,
                scnt@.len() == 24,
                d <= 23,
                d as int == nonindex_count(relv.take(c as int), namesv),
                apply_from(st0, relv, 0, 0, namesv) == apply_from(
                    (NumSt { names: seq_views(snames@), counters: ints_of(scnt@) }),
                    relv,
                    c as int,
                    d as int,
                    namesv,
                ),
                forall|j: int|
                    0 <= j < 24 ==> 0 <= (#[trigger] ints_of(scnt@)[j]) && (j < d ==> ints_of(
                        scnt@,
                    )[j] <= k as int + 1) && (j >= d ==> ints_of(scnt@)[j] <= k as int),
            decreases n - c,
        {
            let ghost st_c = NumSt { names: seq_views(snames@), counters: ints_of(scnt@) };
            let ghost d0 = d as int;
            proof {
                assert(seq_views(e.rel@)[c as int] == e.rel@[c as int]@);
                lemma_nonindex_split(relv.take(c as int + 1), c as int, namesv);
                assert(relv.take(c as int + 1).take(c as int) =~= relv.take(c as int));
                assert(relv.take(c as int + 1).skip(c as int) =~= seq![relv[c as int]]);
                assert(nonindex_count(seq![relv[c as int]], namesv) == (if name_in(
                    relv[c as int],
                    namesv,
                ) {
                    0int
                } else {
                    1int
                })) by {
                    assert(seq![relv[c as int]].skip(1) =~= Seq::<Seq<char>>::empty());
                    assert(nonindex_count(Seq::<Seq<char>>::empty(), namesv) == 0);
                }
                assert(nonindex_count(relv.take(c as int + 1), namesv) == nonindex_count(
                    relv.take(c as int),
                    namesv,
                ) + (if name_in(relv[c as int], namesv) {
                    0int
                } else {
                    1int
                }));
            }
            if !name_in_exec(e.rel[c].as_str(), names) {
                let is_new = !str_eq_exec(snames[d].as_str(), e.rel[c].as_str())
                    || crate::strutil::is_md_name_exec(e.rel[c].as_str());
                if is_new {
                    let ghost sn0 = snames@;
                    snames.set(d, clone_string(&e.rel[c]));
                    let cur = scnt[d];
                    proof {
                        assert(cur as int == ints_of(scnt@)[d as int]);
                        assert(cur as int <= k as int);
                    }
                    let ghost sc0 = scnt@;
                    scnt.set(d, cur + 1);
                    proof {
                        assert forall|j: int| 0 <= j < 24 && j != d implies #[trigger] seq_views(
                            snames@,
                        )[j] == seq_views(sn0)[j] by {
                            assert(snames@[j] == sn0[j]);
                        }
                        assert forall|j: int| 0 <= j < 24 && j != d implies #[trigger] ints_of(
                            scnt@,
                        )[j] == ints_of(sc0)[j] by {
                            assert(scnt@[j] == sc0[j]);
                        }
                        assert(seq_views(snames@)[d as int] == relv[c as int]);
                        assert(ints_of(scnt@)[d as int] == st_c.counters[d as int] + 1);
                    }
                    let mut zz: usize = d + 1;
                    while zz < 24
                        invariant
                            d < zz <= 24,
                            d <= 23,
                            snames@.len() == 24,
                            scnt@.len() == 24,
                            st_c.names.len() == 24,
                            st_c.counters.len() == 24,
                            k < list@.len(),
                            c < relv.len(),
                            forall|j: int|
                                0 <= j < d ==> (#[trigger] seq_views(snames@)[j]) == st_c.names[j],
                            seq_views(snames@)[d as int] == relv[c as int],
                            forall|j: int|
                                d < j < zz ==> (#[trigger] seq_views(snames@)[j]) == Seq::<
                                    char,
                                >::empty(),
                            forall|j: int|
                                zz <= j < 24 ==> (#[trigger] seq_views(snames@)[j])
                                    == st_c.names[j],
                            forall|j: int|
                                0 <= j < d ==> (#[trigger] ints_of(scnt@)[j]) == st_c.counters[j],
                            ints_of(scnt@)[d as int] == st_c.counters[d as int] + 1,
                            forall|j: int| d < j < zz ==> (#[trigger] ints_of(scnt@)[j]) == 0,
                            forall|j: int|
                                zz <= j < 24 ==> (#[trigger] ints_of(scnt@)[j])
                                    == st_c.counters[j],
                            st_c.counters[d as int] <= k as int,
                            forall|j: int| 0 <= j < 24 ==> 0 <= (#[trigger] st_c.counters[j])
                                <= k as int + 1,
                        decreases 24 - zz,
                    {
                        let ghost sn0 = snames@;
                        let ghost sc0 = scnt@;
                        snames.set(zz, String::new());
                        scnt.set(zz, 0);
                        proof {
                            assert forall|j: int|
                                0 <= j < 24 && j != zz implies #[trigger] seq_views(snames@)[j]
                                == seq_views(sn0)[j] by {
                                assert(snames@[j] == sn0[j]);
                            }
                            assert forall|j: int|
                                0 <= j < 24 && j != zz implies #[trigger] ints_of(scnt@)[j]
                                == ints_of(sc0)[j] by {
                                assert(scnt@[j] == sc0[j]);
                            }
                            assert(seq_views(snames@)[zz as int] == Seq::<char>::empty());
                            assert(ints_of(scnt@)[zz as int] == 0);
                        }
                        zz = zz + 1;
                    }
                    proof {
                        assert(seq_views(snames@) =~= bump(st_c, relv[c as int], d as int).names);
                        assert(ints_of(scnt@) =~= bump(st_c, relv[c as int], d as int).counters);
                    }
                }
                d = d + 1;
                proof {
                    let st_n = NumSt { names: seq_views(snames@), counters: ints_of(scnt@) };
                    if is_new {
                        assert(st_n.names =~= bump(st_c, relv[c as int], d0).names);
                        assert(st_n.counters =~= bump(st_c, relv[c as int], d0).counters);
                        assert(st_n == bump(st_c, relv[c as int], d0));
                    } else {
                        assert(st_n.names =~= st_c.names);
                        assert(st_n.counters =~= st_c.counters);
                        assert(st_n == st_c);
                    }
                    assert(step_comp(st_c, relv[c as int], d0, namesv) == (st_n, d as int));
                }
                if d >= 24 {
                    let err = FindError::DepthExceeded(clone_string(&e.path));
                    proof {
                        lemma_nonindex_split(relv, c as int + 1, namesv);
                        lemma_nonindex_bounds(relv.skip(c as int + 1), namesv);
                        assert(too_deep(relv, namesv));
                        assert((err matches FindError::DepthExceeded(p) && p@ == (#[trigger] list@[
                            k as int
                        ])@.path));
                        assert(too_deep(list@[k as int]@.rel, seq_views(names@)));
                    }
                    return Err(err);
                }
            } else {
                proof {
                    let st_n = NumSt { names: seq_views(snames@), counters: ints_of(scnt@) };
                    assert(st_n == st_c);
                    assert(step_comp(st_c, relv[c as int], d0, namesv) == (st_n, d as int));
                }
            }
            c = c + 1;
        }
        proof {
            assert(relv.take(n as int) =~= relv);
            let st_end = NumSt { names: seq_views(snames@), counters: ints_of(scnt@) };
            assert(apply_from(st_end, relv, n as int, d as int, namesv) == (st_end, d as int));
            assert(path_result(st0, relv, namesv).0 == st_end);
            assert(path_result(st0, relv, namesv).1 == st_end.counters.take(d as int));
            assert(st_after(rels, k as int + 1, namesv) == st_end);
            assert(!too_deep(relv, namesv)) by {
                lemma_nonindex_bounds(relv, namesv);
            }
        }
        let mut sec: Vec<usize> = Vec::new();
        let mut q: usize = 0;
        while q < d
            invariant
                q <= d,
                d <= 23,
                scnt@.len() == 24,
                sec@.len() == q,
                forall|j: int| 0 <= j < q ==> (#[trigger] ints_of(sec@)[j]) == ints_of(scnt@)[j],
            decreases d - q,
        {
            let ghost sec0 = sec@;
            let v = scnt[q];
            sec.push(v);
            proof {
                assert forall|j: int| 0 <= j < q + 1 implies (#[trigger] ints_of(sec@)[j])
                    == ints_of(scnt@)[j] by {
                    if j < q {
                        assert(sec@[j] == sec0[j]);
                        assert(ints_of(sec0)[j] == ints_of(scnt@)[j]);
                    } else {
                        assert(sec@[j] == v);
                        assert(ints_of(scnt@)[j] == v as int);
                    }
                }
            }
            q = q + 1;
        }
        proof {
            assert(ints_of(sec@) =~= ints_of(scnt@).take(d as int));
            assert(ints_of(sec@) == section_of(rels, k as int, namesv));
        }
        let name = clone_string(&e.rel[n - 1]);
        proof {
            assert(seq_views(e.rel@)[n - 1] == e.rel@[n - 1]@);
            assert(relv.last() == relv[n - 1]);
        }
        let m = MarkdownFile {
            name,
            filename: clone_string(&e.path),
            section: sec,
            is_folder: e.is_folder,
        };
        out.push(m);
        k = k + 1;
    }
    Ok(out)
}

} // verus!
