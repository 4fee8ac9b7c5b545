//! The library-wide laws: determinism of the produced outline,
//! completeness over the included files, index substitution, sibling
//! index priority, depth reset, and the pruning guarantees of the
//! ignore and hidden filters.
use vstd::prelude::*;
use crate::strutil::{is_prefix, matches_any_prefix, name_in, is_hidden_name};
use crate::order::{key_lt, key_lt_from, lemma_key_lt_irreflexive, lemma_key_lt_transitive,
    lemma_key_lt_trichotomy};
use crate::paths::{split_slash, join_slash, extends_root, rel_str_of, path_of_rel,
    lemma_path_reassemble, lemma_join_split, lemma_split_injective, lemma_split_join,
    lemma_split_slash_free, lemma_join_take_prefix, lemma_path_of_rel_prefix, lemma_prefix_trans,
    slash_free};
use crate::scan::{FsEntryV, in_md, is_covered, in_assembled, rel_of, anc_path, anc_cond,
    anc_of, covered_of, included_file, stop_pos, lemma_stop_pos_range, any_hidden};
use crate::outline::{MarkdownFile, FindError, NumSt, st_wf, path_result, apply_from, step_comp,
    section_of, too_deep, bump};
use crate::finder::{valid_find_result, assembled_idx, out_rels};

verus! {

/// A component equal to an index filename bounds the stop position.
pub proof fn lemma_stop_pos_le(rel: Seq<Seq<char>>, names: Seq<Seq<char>>, j: int)
    requires
        0 <= j < rel.len(),
        name_in(rel[j], names),
    ensures
        stop_pos(rel, names) <= j + 1,
    decreases rel.len(),
{
    if !name_in(rel[0], names) {
        assert(j >= 1);
        assert(rel.skip(1)[j - 1] == rel[j]);
        lemma_stop_pos_le(rel.skip(1), names, j - 1);
    }
}

/// An assembled path lies strictly below the root.
pub proof fn lemma_assembled_extends(
    s: Seq<char>,
    ev: Seq<FsEntryV>,
    root: Seq<char>,
    ignorev: Seq<Seq<char>>,
    names: Seq<Seq<char>>,
)
    requires
        in_assembled(s, ev, root, ignorev, names),
    ensures
        extends_root(s, root),
        rel_of(s, root).len() >= 1,
{
    if in_md(s, ev, root, ignorev) {
        let j = choose|j: int|
            0 <= j < ev.len() && (#[trigger] ev[j]).path == s && included_file(
                ev[j],
                root,
                ignorev,
            );
        crate::paths::lemma_split_len(rel_str_of(s, root));
    } else {
        let j = choose|j: int|
            0 <= j < ev.len() && included_file(#[trigger] ev[j], root, ignorev) && anc_of(
                s,
                ev[j].path,
                root,
                names,
            );
        let rel = rel_of(ev[j].path, root);
        let i = choose|i: int| #[trigger] anc_cond(rel, i, names) && s == anc_path(root, rel, i);
        crate::paths::lemma_rel_of_path(root, join_slash(rel.take(i)));
        crate::paths::lemma_split_len(rel_str_of(s, root));
    }
}

/// An ancestor entry's path is a string prefix of the file it came
/// from.
pub proof fn lemma_anc_is_prefix(
    s: Seq<char>,
    p: Seq<char>,
    root: Seq<char>,
    names: Seq<Seq<char>>,
)
    requires
        anc_of(s, p, root, names),
        extends_root(p, root),
    ensures
        is_prefix(s, p),
        rel_of(s, root) == rel_of(p, root).take(
            choose|i: int|
                #[trigger] anc_cond(rel_of(p, root), i, names) && s == anc_path(
                    root,
                    rel_of(p, root),
                    i,
                ),
        ),
{
    let rel = rel_of(p, root);
    let i = choose|i: int| #[trigger] anc_cond(rel, i, names) && s == anc_path(root, rel, i);
    lemma_path_reassemble(p, root);
    lemma_join_split(rel_str_of(p, root));
    assert(join_slash(rel) == rel_str_of(p, root));
    lemma_join_take_prefix(rel, i);
    lemma_path_of_rel_prefix(root, join_slash(rel.take(i)), join_slash(rel));
    // the ancestor's own components are the prefix of the file's
    crate::paths::lemma_rel_of_path(root, join_slash(rel.take(i)));
    lemma_split_slash_free(rel_str_of(p, root));
    assert forall|kk: int| 0 <= kk < rel.take(i).len() implies slash_free(
        #[trigger] rel.take(i)[kk],
    ) by {
        assert(rel.take(i)[kk] == rel[kk]);
    }
    lemma_split_join(rel.take(i));
}

/// Ignore pruning: nothing in the produced outline starts with an
/// ignore prefix, so an ignored directory and everything beneath it
/// never appears.
pub proof fn lemma_ignore_pruning(
    names: Seq<Seq<char>>,
    root: Seq<char>,
    ignorev: Seq<Seq<char>>,
    ev: Seq<FsEntryV>,
    v: Vec<MarkdownFile>,
)
    requires
        valid_find_result(names, root, ignorev, ev, Ok(v)),
    ensures
        forall|k: int|
            0 <= k < v@.len() ==> !matches_any_prefix((#[trigger] v@[k])@.filename, ignorev),
{
    assert(Ok::<Vec<MarkdownFile>, FindError>(v)->Ok_0 == v);
    assert forall|k: int| 0 <= k < v@.len() implies !matches_any_prefix(
        (#[trigger] v@[k])@.filename,
        ignorev,
    ) by {
        let f = v@[k]@.filename;
        assert(in_assembled((v@[k])@.filename, ev, root, ignorev, names));
        if matches_any_prefix(f, ignorev) {
            let pat = choose|kk: int|
                0 <= kk < ignorev.len() && is_prefix(#[trigger] ignorev[kk], f);
            if in_md(f, ev, root, ignorev) {
                let j = choose|j: int|
                    0 <= j < ev.len() && (#[trigger] ev[j]).path == f && included_file(
                        ev[j],
                        root,
                        ignorev,
                    );
                assert(matches_any_prefix(ev[j].path, ignorev));
            } else {
                let j = choose|j: int|
                    0 <= j < ev.len() && included_file(#[trigger] ev[j], root, ignorev) && anc_of(
                        f,
                        ev[j].path,
                        root,
                        names,
                    );
                lemma_anc_is_prefix(f, ev[j].path, root, names);
                lemma_prefix_trans(ignorev[pat], f, ev[j].path);
                assert(matches_any_prefix(ev[j].path, ignorev));
            }
        }
    }
}

/// Hidden exclusion: no produced entry has a hidden component on its
/// path below the root.
pub proof fn lemma_hidden_exclusion(
    names: Seq<Seq<char>>,
    root: Seq<char>,
    ignorev: Seq<Seq<char>>,
    ev: Seq<FsEntryV>,
    v: Vec<MarkdownFile>,
)
    requires
        valid_find_result(names, root, ignorev, ev, Ok(v)),
    ensures
        forall|k: int|
            0 <= k < v@.len() ==> !any_hidden(rel_of((#[trigger] v@[k])@.filename, root)),
{
    assert(Ok::<Vec<MarkdownFile>, FindError>(v)->Ok_0 == v);
    assert forall|k: int| 0 <= k < v@.len() implies !any_hidden(
        rel_of((#[trigger] v@[k])@.filename, root),
    ) by {
        let f = v@[k]@.filename;
        assert(in_assembled((v@[k])@.filename, ev, root, ignorev, names));
        if any_hidden(rel_of(f, root)) {
            let h = choose|h: int|
                0 <= h < rel_of(f, root).len() && is_hidden_name(#[trigger] rel_of(f, root)[h]);
            if in_md(f, ev, root, ignorev) {
                let j = choose|j: int|
                    0 <= j < ev.len() && (#[trigger] ev[j]).path == f && included_file(
                        ev[j],
                        root,
                        ignorev,
                    );
                assert(any_hidden(rel_of(ev[j].path, root)));
            } else {
                let j = choose|j: int|
                    0 <= j < ev.len() && included_file(#[trigger] ev[j], root, ignorev) && anc_of(
                        f,
                        ev[j].path,
                        root,
                        names,
                    );
                lemma_anc_is_prefix(f, ev[j].path, root, names);
                let rel = rel_of(ev[j].path, root);
                let i = choose|i: int|
                    #[trigger] anc_cond(rel, i, names) && f == anc_path(root, rel, i);
                assert(rel_of(f, root) == rel.take(i));
                assert(rel.take(i)[h] == rel[h]);
                assert(any_hidden(rel));
            }
        }
    }
}

/// Completeness: every included markdown file appears in the outline,
/// exactly once.
pub proof fn lemma_completeness(
    names: Seq<Seq<char>>,
    root: Seq<char>,
    ignorev: Seq<Seq<char>>,
    ev: Seq<FsEntryV>,
    v: Vec<MarkdownFile>,
    s: Seq<char>,
)
    requires
        valid_find_result(names, root, ignorev, ev, Ok(v)),
        in_md(s, ev, root, ignorev),
    ensures
        exists|k: int|
            0 <= k < v@.len() && (#[trigger] v@[k])@.filename == s && (forall|k2: int|
                0 <= k2 < v@.len() && k2 != k ==> (#[trigger] v@[k2])@.filename != s),
{
    assert(in_assembled(s, ev, root, ignorev, names));
    let k = choose|k: int| 0 <= k < v@.len() && (#[trigger] v@[k])@.filename == s;
    assert forall|k2: int| 0 <= k2 < v@.len() && k2 != k implies (#[trigger] v@[k2])@.filename
        != s by {
        if k2 < k {
            assert(v@[k2]@.filename != v@[k]@.filename);
        } else {
            assert(v@[k]@.filename != v@[k2]@.filename);
        }
    }
}

/// Index substitution, first half: a directory whose index file is
/// included never appears as an entry of its own.
pub proof fn lemma_index_substitution(
    names: Seq<Seq<char>>,
    root: Seq<char>,
    ignorev: Seq<Seq<char>>,
    ev: Seq<FsEntryV>,
    p: Seq<char>,
)
    requires
        in_md(p, ev, root, ignorev),
        name_in(rel_of(p, root).last(), names),
        rel_of(p, root).len() >= 2,
        !in_md(anc_path(root, rel_of(p, root), rel_of(p, root).len() - 1), ev, root, ignorev),
    ensures
        !in_assembled(
            anc_path(root, rel_of(p, root), rel_of(p, root).len() - 1),
            ev,
            root,
            ignorev,
            names,
        ),
{
    let rel = rel_of(p, root);
    let parent = anc_path(root, rel, rel.len() - 1);
    let j = choose|j: int|
        0 <= j < ev.len() && (#[trigger] ev[j]).path == p && included_file(ev[j], root, ignorev);
    lemma_stop_pos_le(rel, names, rel.len() - 1);
    lemma_stop_pos_range(rel, names);
    assert(covered_of(parent, ev[j].path, root, names));
    assert(is_covered(parent, ev, root, ignorev, names));
}

/// Index substitution, second half: an entry whose final component is
/// an index filename receives exactly the numbering its directory
/// would have received in its place.
pub proof fn lemma_index_inherits(st: NumSt, rel: Seq<Seq<char>>, names: Seq<Seq<char>>)
    requires
        rel.len() >= 1,
        name_in(rel.last(), names),
    ensures
        path_result(st, rel, names) == path_result(st, rel.drop_last(), names),
{
    lemma_apply_drop_last(st, rel, 0, 0, names);
}

proof fn lemma_apply_drop_last(
    st: NumSt,
    rel: Seq<Seq<char>>,
    k: int,
    d: int,
    names: Seq<Seq<char>>,
)
    requires
        rel.len() >= 1,
        0 <= k,
        name_in(rel.last(), names),
    ensures
        apply_from(st, rel, k, d, names) == apply_from(st, rel.drop_last(), k, d, names),
    decreases rel.len() - k,
{
    if k >= rel.len() {
    } else if k == rel.len() - 1 {
        assert(step_comp(st, rel[k], d, names) == (st, d));
        assert(apply_from(st, rel, k + 1, d, names) == (st, d));
        assert(apply_from(st, rel, k, d, names) == (st, d));
    } else {
        assert(rel.drop_last()[k] == rel[k]);
        let r = step_comp(st, rel[k], d, names);
        lemma_apply_drop_last(r.0, rel, k + 1, r.1, names);
    }
}

/// Sibling index priority, order half: among two sibling files, the
/// one bearing an index filename stands strictly first in the outline
/// order.
pub proof fn lemma_sibling_index_priority(
    relr: Seq<Seq<char>>,
    reli: Seq<Seq<char>>,
    names: Seq<Seq<char>>,
)
    requires
        relr.len() == reli.len() >= 1,
        relr.drop_last() == reli.drop_last(),
        name_in(relr.last(), names),
        !name_in(reli.last(), names),
    ensures
        key_lt(relr, true, reli, false),
{
    lemma_sibling_from(relr, reli, names, 0);
}

proof fn lemma_sibling_from(
    relr: Seq<Seq<char>>,
    reli: Seq<Seq<char>>,
    names: Seq<Seq<char>>,
    k: int,
)
    requires
        relr.len() == reli.len() >= 1,
        relr.drop_last() == reli.drop_last(),
        0 <= k <= relr.len() - 1,
    ensures
        key_lt_from(relr, true, reli, false, k),
    decreases relr.len() - k,
{
    if k == relr.len() - 1 {
        assert(crate::order::comp_pri(relr, true, k) == 0);
        assert(crate::order::comp_pri(reli, false, k) == 1);
    } else {
        assert(relr.drop_last()[k] == relr[k]);
        assert(reli.drop_last()[k] == reli[k]);
        assert(relr[k] == reli[k]);
        assert(crate::order::comp_pri(relr, true, k) == 1);
        assert(crate::order::comp_pri(reli, false, k) == 1);
        lemma_sibling_from(relr, reli, names, k + 1);
    }
}

/// Running the fold over non-index components stores each name at
/// its level and leaves shallower levels alone.
proof fn lemma_run_sets_names(st: NumSt, rel: Seq<Seq<char>>, k: int, names: Seq<Seq<char>>)
    requires
        st_wf(st),
        0 <= k <= rel.len() <= 24,
        forall|j: int| k <= j < rel.len() ==> !name_in(#[trigger] rel[j], names),
    ensures
        ({
            let r = apply_from(st, rel, k, k, names);
            &&& r.1 == rel.len()
            &&& st_wf(r.0)
            &&& forall|j: int|
                0 <= j < k ==> r.0.names[j] == st.names[j] && r.0.counters[j] == st.counters[j]
            &&& forall|j: int| k <= j < rel.len() ==> r.0.names[j] == rel[j]
        }),
    decreases rel.len() - k,
{
    if k < rel.len() {
        let r1 = step_comp(st, rel[k], k, names);
        assert(r1.1 == k + 1);
        assert(st_wf(r1.0));
        assert(r1.0.names[k] == rel[k]);
        lemma_run_sets_names(r1.0, rel, k + 1, names);
        let r = apply_from(st, rel, k, k, names);
        assert(r == apply_from(r1.0, rel, k + 1, k + 1, names));
        assert forall|j: int| k <= j < rel.len() implies r.0.names[j] == rel[j] by {
            if j == k {
                assert(r.0.names[k] == r1.0.names[k]);
            }
        }
        assert forall|j: int| 0 <= j < k implies r.0.names[j] == st.names[j] && r.0.counters[j]
            == st.counters[j] by {
            assert(r.0.names[j] == r1.0.names[j]);
            assert(r.0.counters[j] == r1.0.counters[j]);
            assert(r1.0.names[j] == st.names[j]);
            assert(r1.0.counters[j] == st.counters[j]);
        }
    }
}

/// Running the fold again over components whose names are already in
/// place changes nothing.
proof fn lemma_rerun_keeps(st: NumSt, rel: Seq<Seq<char>>, k: int, stop: int, names: Seq<Seq<char>>)
    requires
        st_wf(st),
        0 <= k <= stop <= rel.len(),
        stop <= 24,
        forall|j: int|
            k <= j < stop ==> st.names[j] == #[trigger] rel[j] && !name_in(rel[j], names)
                && !crate::strutil::is_md_name(rel[j]),
    ensures
        apply_from(st, rel, k, k, names) == apply_from(st, rel, stop, stop, names),
    decreases stop - k,
{
    if k < stop {
        assert(step_comp(st, rel[k], k, names) == (st, k + 1));
        lemma_rerun_keeps(st, rel, k + 1, stop, names);
    }
}

/// Sibling index priority, numbering half: when an index file and a
/// markdown-named sibling under the same directory components are
/// numbered in direct succession, the index file's section is a
/// strict prefix of its sibling's — a strictly lower position in the
/// outline hierarchy.
pub proof fn lemma_sibling_index_sections(
    st: NumSt,
    pp: Seq<Seq<char>>,
    r: Seq<char>,
    x: Seq<char>,
    names: Seq<Seq<char>>,
)
    requires
        st_wf(st),
        pp.len() + 1 <= 24,
        forall|k: int|
            0 <= k < pp.len() ==> !name_in(#[trigger] pp[k], names) && !crate::strutil::is_md_name(
                pp[k],
            ),
        name_in(r, names),
        !name_in(x, names),
        crate::strutil::is_md_name(x),
    ensures
        ({
            let r1 = path_result(st, pp.push(r), names);
            let r2 = path_result(r1.0, pp.push(x), names);
            &&& r1.1.len() == pp.len()
            &&& r2.1.len() == pp.len() + 1
            &&& r2.1.take(pp.len() as int) == r1.1
        }),
{
    let relr = pp.push(r);
    let relx = pp.push(x);
    assert forall|j: int| 0 <= j < pp.len() implies relr[j] == pp[j] && relx[j] == pp[j] by {}
    // first path: the parent components set their names, the index
    // file itself consumes no level
    assert forall|j: int| 0 <= j < relr.len() - 1 implies !name_in(#[trigger] relr[j], names) by {}
    lemma_run_sets_names(st, relr.take(pp.len() as int), 0, names);
    assert(relr.take(pp.len() as int) =~= pp);
    lemma_run_sets_names(st, pp, 0, names);
    let st1 = apply_from(st, pp, 0, 0, names).0;
    lemma_apply_prefix(st, relr, 0, 0, pp.len() as int, names);
    assert(step_comp(st1, r, pp.len() as int, names) == (st1, pp.len() as int));
    assert(apply_from(st1, relr, pp.len() as int, pp.len() as int, names) == apply_from(
        st1,
        relr,
        pp.len() as int + 1,
        pp.len() as int,
        names,
    ));
    let r1 = path_result(st, relr, names);
    assert(r1.0 == st1);
    assert(r1.1 == st1.counters.take(pp.len() as int));
    // second path: the parent components are already in place
    lemma_rerun_keeps(st1, relx, 0, pp.len() as int, names);
    let stp = step_comp(st1, x, pp.len() as int, names);
    assert(stp.0 == bump(st1, x, pp.len() as int));
    assert(stp.1 == pp.len() + 1);
    assert(relx[pp.len() as int] == x);
    assert(apply_from(st1, relx, pp.len() as int, pp.len() as int, names) == apply_from(
        stp.0,
        relx,
        pp.len() as int + 1,
        stp.1,
        names,
    ));
    assert(apply_from(stp.0, relx, pp.len() as int + 1, stp.1, names) == (stp.0, stp.1));
    let r2 = path_result(r1.0, relx, names);
    assert(r2.0 == stp.0);
    assert(r2.1 == stp.0.counters.take(pp.len() as int + 1));
    assert(r2.1.take(pp.len() as int) =~= r1.1) by {
        assert forall|j: int| 0 <= j < pp.len() implies stp.0.counters[j] == st1.counters[j] by {}
    }
}

/// The fold over the first `m` components agrees with the fold of the
/// truncated path.
proof fn lemma_apply_prefix(
    st: NumSt,
    rel: Seq<Seq<char>>,
    k: int,
    d: int,
    m: int,
    names: Seq<Seq<char>>,
)
    requires
        0 <= k <= m <= rel.len(),
    ensures
        apply_from(st, rel, k, d, names) == apply_from(
            apply_from(st, rel.take(m), k, d, names).0,
            rel,
            m,
            apply_from(st, rel.take(m), k, d, names).1,
            names,
        ),
    decreases m - k,
{
    if k < m {
        assert(rel.take(m)[k] == rel[k]);
        let r1 = step_comp(st, rel[k], d, names);
        lemma_apply_prefix(r1.0, rel, k + 1, r1.1, m, names);
    }
}

/// Depth reset: after numbering `a/x`, numbering `b/y` with a fresh
/// top-level name advances the leading counter by one and starts the
/// second level again at one.
pub proof fn lemma_depth_reset(
    st: NumSt,
    a: Seq<char>,
    x: Seq<char>,
    b: Seq<char>,
    y: Seq<char>,
    names: Seq<Seq<char>>,
)
    requires
        st_wf(st),
        a != b,
        !name_in(a, names),
        !name_in(b, names),
        !name_in(x, names),
        !name_in(y, names),
        crate::strutil::is_md_name(x),
        y.len() > 0,
    ensures
        ({
            let r1 = path_result(st, seq![a, x], names);
            let r2 = path_result(r1.0, seq![b, y], names);
            &&& r1.1.len() == 2
            &&& r2.1.len() == 2
            &&& r2.1[0] == r1.1[0] + 1
            &&& r2.1[1] == 1
        }),
{
    let s1 = seq![a, x];
    let s2 = seq![b, y];
    let r1 = path_result(st, s1, names);
    let st_a = step_comp(st, a, 0, names);
    let st_ax = step_comp(st_a.0, x, st_a.1, names);
    assert(apply_from(st, s1, 0, 0, names) == apply_from(st_a.0, s1, 1, st_a.1, names));
    assert(apply_from(st_a.0, s1, 1, st_a.1, names) == apply_from(st_ax.0, s1, 2, st_ax.1, names));
    assert(apply_from(st_ax.0, s1, 2, st_ax.1, names) == (st_ax.0, st_ax.1));
    assert(st_a.1 == 1);
    assert(st_ax.1 == 2);
    assert(st_ax.0.names[0] == a);
    assert(r1.0 == st_ax.0);
    assert(r1.1 == st_ax.0.counters.take(2));
    let st_b = step_comp(r1.0, b, 0, names);
    let st_by = step_comp(st_b.0, y, st_b.1, names);
    assert(apply_from(r1.0, s2, 0, 0, names) == apply_from(st_b.0, s2, 1, st_b.1, names));
    assert(apply_from(st_b.0, s2, 1, st_b.1, names) == apply_from(st_by.0, s2, 2, st_by.1, names));
    assert(apply_from(st_by.0, s2, 2, st_by.1, names) == (st_by.0, st_by.1));
    assert(st_b.0 == bump(r1.0, b, 0));
    assert(st_b.0.counters[0] == r1.0.counters[0] + 1);
    assert(st_b.0.names[1] == Seq::<char>::empty());
    assert(st_b.0.counters[1] == 0);
    assert(st_by.0.counters[0] == st_b.0.counters[0]);
    assert(st_by.0.counters[1] == 1);
    let r2 = path_result(r1.0, s2, names);
    assert(r2.1 == st_by.0.counters.take(2));
}

/// The paths of the entries produced, in order.
pub open spec fn filenames_of(v: Seq<MarkdownFile>) -> Seq<Seq<char>> {
    v.map_values(|m: MarkdownFile| m@.filename)
}

/// Two strictly sorted path sequences with the same members are
/// equal.
proof fn lemma_sorted_unique(
    s1: Seq<Seq<char>>,
    s2: Seq<Seq<char>>,
    ev: Seq<FsEntryV>,
    root: Seq<char>,
    ignorev: Seq<Seq<char>>,
    names: Seq<Seq<char>>,
)
    requires
        forall|k1: int, k2: int|
            0 <= k1 < k2 < s1.len() ==> key_lt(
                rel_of(#[trigger] s1[k1], root),
                assembled_idx(s1[k1], ev, root, ignorev, names),
                rel_of(#[trigger] s1[k2], root),
                assembled_idx(s1[k2], ev, root, ignorev, names),
            ),
        forall|k1: int, k2: int|
            0 <= k1 < k2 < s2.len() ==> key_lt(
                rel_of(#[trigger] s2[k1], root),
                assembled_idx(s2[k1], ev, root, ignorev, names),
                rel_of(#[trigger] s2[k2], root),
                assembled_idx(s2[k2], ev, root, ignorev, names),
            ),
        forall|p: Seq<char>| s1.contains(p) <==> s2.contains(p),
    ensures
        s1 == s2,
    decreases s1.len(),
{
    if s1.len() == 0 {
        if s2.len() > 0 {
            assert(s2.contains(s2[0]));
            assert(s1.contains(s2[0]));
        }
        assert(s1 =~= s2);
    } else {
        assert(s1.contains(s1[0]));
        assert(s2.contains(s1[0]));
        let j = choose|j: int| 0 <= j < s2.len() && s2[j] == s1[0];
        assert(s2.contains(s2[0]));
        assert(s1.contains(s2[0]));
        let i = choose|i: int| 0 <= i < s1.len() && s1[i] == s2[0];
        if i > 0 && j > 0 {
            lemma_key_lt_transitive(
                rel_of(s1[0], root),
                assembled_idx(s1[0], ev, root, ignorev, names),
                rel_of(s1[i], root),
                assembled_idx(s1[i], ev, root, ignorev, names),
                rel_of(s1[0], root),
                assembled_idx(s1[0], ev, root, ignorev, names),
                0,
            );
            lemma_key_lt_irreflexive(
                rel_of(s1[0], root),
                assembled_idx(s1[0], ev, root, ignorev, names),
                0,
            );
        }
        assert(s1[0] == s2[0]);
        let t1 = s1.skip(1);
        let t2 = s2.skip(1);
        assert forall|p: Seq<char>| t1.contains(p) implies t2.contains(p) by {
            lemma_tail_member(s1, s2, ev, root, ignorev, names, p);
        }
        assert forall|p: Seq<char>| t2.contains(p) implies t1.contains(p) by {
            lemma_tail_member(s2, s1, ev, root, ignorev, names, p);
        }
        assert forall|k1: int, k2: int| 0 <= k1 < k2 < t1.len() implies key_lt(
            rel_of(#[trigger] t1[k1], root),
            assembled_idx(t1[k1], ev, root, ignorev, names),
            rel_of(#[trigger] t1[k2], root),
            assembled_idx(t1[k2], ev, root, ignorev, names),
        ) by {
            assert(t1[k1] == s1[k1 + 1]);
            assert(t1[k2] == s1[k2 + 1]);
        }
        assert forall|k1: int, k2: int| 0 <= k1 < k2 < t2.len() implies key_lt(
            rel_of(#[trigger] t2[k1], root),
            assembled_idx(t2[k1], ev, root, ignorev, names),
            rel_of(#[trigger] t2[k2], root),
            assembled_idx(t2[k2], ev, root, ignorev, names),
        ) by {
            assert(t2[k1] == s2[k1 + 1]);
            assert(t2[k2] == s2[k2 + 1]);
        }
        lemma_sorted_unique(t1, t2, ev, root, ignorev, names);
        assert(s1 =~= s2) by {
            assert(t1.len() == t2.len());
            assert forall|k: int| 0 <= k < s1.len() implies s1[k] == s2[k] by {
                if k > 0 {
                    assert(t1[k - 1] == t2[k - 1]);
                }
            }
        }
    }
}

/// A member of a sorted tail is a member of the other tail too, once
/// the equal heads are set aside.
proof fn lemma_tail_member(
    s1: Seq<Seq<char>>,
    s2: Seq<Seq<char>>,
    ev: Seq<FsEntryV>,
    root: Seq<char>,
    ignorev: Seq<Seq<char>>,
    names: Seq<Seq<char>>,
    p: Seq<char>,
)
    requires
        s1.len() >= 1,
        s2.len() >= 1,
        s1[0] == s2[0],
        forall|k1: int, k2: int|
            0 <= k1 < k2 < s1.len() ==> key_lt(
                rel_of(#[trigger] s1[k1], root),
                assembled_idx(s1[k1], ev, root, ignorev, names),
                rel_of(#[trigger] s1[k2], root),
                assembled_idx(s1[k2], ev, root, ignorev, names),
            ),
        forall|q: Seq<char>| s1.contains(q) <==> s2.contains(q),
        s1.skip(1).contains(p),
    ensures
        s2.skip(1).contains(p),
{
    let k = choose|k: int| 0 <= k < s1.skip(1).len() && s1.skip(1)[k] == p;
    assert(s1[k + 1] == p);
    assert(s1.contains(p));
    assert(s2.contains(p));
    let m = choose|m: int| 0 <= m < s2.len() && s2[m] == p;
    if m == 0 {
        // then p equals the shared head, and s1 would repeat it
        assert(s1[0] == p);
        lemma_key_lt_irreflexive(
            rel_of(p, root),
            assembled_idx(p, ev, root, ignorev, names),
            0,
        );
    } else {
        assert(s2.skip(1)[m - 1] == p);
    }
}

/// Determinism: two results that both satisfy the discovery contract
/// for the same inputs are the same outline: on success the entries
/// agree pairwise in every field, and on failure they report the same
/// path.
pub proof fn lemma_find_deterministic(
    names: Seq<Seq<char>>,
    root: Seq<char>,
    ignorev: Seq<Seq<char>>,
    ev: Seq<FsEntryV>,
    r1: Result<Vec<MarkdownFile>, FindError>,
    r2: Result<Vec<MarkdownFile>, FindError>,
)
    requires
        valid_find_result(names, root, ignorev, ev, r1),
        valid_find_result(names, root, ignorev, ev, r2),
    ensures
        match (r1, r2) {
            (Ok(v1), Ok(v2)) => v1@.len() == v2@.len() && forall|k: int|
                0 <= k < v1@.len() ==> (#[trigger] v1@[k])@ == v2@[k]@,
            (Err(e1), Err(e2)) => (e1 matches FindError::DepthExceeded(p1) && e2 matches
                FindError::DepthExceeded(p2) && p1@ == p2@),
            _ => false,
        },
{
    match (r1, r2) {
        (Result::Ok(v1), Result::Ok(v2)) => {
            let s1 = filenames_of(v1@);
            let s2 = filenames_of(v2@);
            assert forall|p: Seq<char>| s1.contains(p) implies s2.contains(p) by {
                let k = choose|k: int| 0 <= k < s1.len() && s1[k] == p;
                assert(v1@[k]@.filename == p);
                assert(in_assembled(p, ev, root, ignorev, names));
                let k2 = choose|k2: int| 0 <= k2 < v2@.len() && (#[trigger] v2@[k2])@.filename
                    == p;
                assert(s2[k2] == p);
            }
            assert forall|p: Seq<char>| s2.contains(p) implies s1.contains(p) by {
                let k = choose|k: int| 0 <= k < s2.len() && s2[k] == p;
                assert(v2@[k]@.filename == p);
                assert(in_assembled(p, ev, root, ignorev, names));
                let k2 = choose|k2: int| 0 <= k2 < v1@.len() && (#[trigger] v1@[k2])@.filename
                    == p;
                assert(s1[k2] == p);
            }
            assert forall|k1: int, k2: int| 0 <= k1 < k2 < s1.len() implies key_lt(
                rel_of(#[trigger] s1[k1], root),
                assembled_idx(s1[k1], ev, root, ignorev, names),
                rel_of(#[trigger] s1[k2], root),
                assembled_idx(s1[k2], ev, root, ignorev, names),
            ) by {
                assert(s1[k1] == v1@[k1]@.filename);
                assert(s1[k2] == v1@[k2]@.filename);
            }
            assert forall|k1: int, k2: int| 0 <= k1 < k2 < s2.len() implies key_lt(
                rel_of(#[trigger] s2[k1], root),
                assembled_idx(s2[k1], ev, root, ignorev, names),
                rel_of(#[trigger] s2[k2], root),
                assembled_idx(s2[k2], ev, root, ignorev, names),
            ) by {
                assert(s2[k1] == v2@[k1]@.filename);
                assert(s2[k2] == v2@[k2]@.filename);
            }
            lemma_sorted_unique(s1, s2, ev, root, ignorev, names);
            assert(v1@.len() == v2@.len());
            assert(out_rels(v1@, root) =~= out_rels(v2@, root)) by {
                assert forall|k: int| 0 <= k < v1@.len() implies rel_of(
                    (#[trigger] v1@[k])@.filename,
                    root,
                ) == rel_of(v2@[k]@.filename, root) by {
                    assert(s1[k] == v1@[k]@.filename);
                    assert(s2[k] == v2@[k]@.filename);
                }
            }
            assert forall|k: int| 0 <= k < v1@.len() implies (#[trigger] v1@[k])@ == v2@[k]@ by {
                assert(s1[k] == v1@[k]@.filename);
                assert(s2[k] == v2@[k]@.filename);
                assert(v1@[k]@.filename == v2@[k]@.filename);
                assert(v1@[k]@.section == section_of(out_rels(v1@, root), k, names));
                assert(v2@[k]@.section == section_of(out_rels(v2@, root), k, names));
            }
        },
        (Result::Ok(v1), Result::Err(e2)) => {
            let p2 = e2->0;
            assert(in_assembled(p2@, ev, root, ignorev, names));
            let k = choose|k: int| 0 <= k < v1@.len() && (#[trigger] v1@[k])@.filename == p2@;
            assert(!too_deep(rel_of(p2@, root), names));
        },
        (Result::Err(e1), Result::Ok(v2)) => {
            let p1 = e1->0;
            assert(in_assembled(p1@, ev, root, ignorev, names));
            let k = choose|k: int| 0 <= k < v2@.len() && (#[trigger] v2@[k])@.filename == p1@;
            assert(!too_deep(rel_of(p1@, root), names));
        },
        (Result::Err(e1), Result::Err(e2)) => {
            let p1 = e1->0;
            let p2 = e2->0;
            lemma_key_lt_trichotomy(
                rel_of(p1@, root),
                assembled_idx(p1@, ev, root, ignorev, names),
                rel_of(p2@, root),
                assembled_idx(p2@, ev, root, ignorev, names),
                0,
            );
            if key_lt(
                rel_of(p1@, root),
                assembled_idx(p1@, ev, root, ignorev, names),
                rel_of(p2@, root),
                assembled_idx(p2@, ev, root, ignorev, names),
            ) {
                assert(!too_deep(rel_of(p1@, root), names));
            } else if key_lt(
                rel_of(p2@, root),
                assembled_idx(p2@, ev, root, ignorev, names),
                rel_of(p1@, root),
                assembled_idx(p1@, ev, root, ignorev, names),
            ) {
                assert(!too_deep(rel_of(p2@, root), names));
            } else {
                assert(rel_of(p1@, root).skip(0) =~= rel_of(p1@, root));
                assert(rel_of(p2@, root).skip(0) =~= rel_of(p2@, root));
                assert(rel_of(p1@, root) == rel_of(p2@, root));
                lemma_assembled_extends(p1@, ev, root, ignorev, names);
                lemma_assembled_extends(p2@, ev, root, ignorev, names);
                lemma_split_injective(rel_str_of(p1@, root), rel_str_of(p2@, root));
                lemma_path_reassemble(p1@, root);
                lemma_path_reassemble(p2@, root);
            }
        },
    }
}

} // verus!
