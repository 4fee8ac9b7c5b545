//! Discovery of the outline: scans the given walk entries, assembles
//! the entry set, sorts it into display order and numbers it.
use vstd::prelude::*;
use crate::strutil::{seq_views, name_in};
use crate::order::{key_lt, lemma_key_lt_irreflexive, lemma_key_lt_transitive};
use crate::scan::{FsEntry, FsEntryV, entry_views, in_md, in_assembled, rel_of,
    wf_path_entry, contains_epath, assemble_entries};
use crate::outline::{MarkdownFile, FindError, sort_entries, number_entries, rels_of, section_of,
    too_deep, elem_of};

verus! {

/// Whether the assembled entry at path `s` is an index file: a
/// markdown file whose own name is one of the index filenames.
pub open spec fn assembled_idx(
    s: Seq<char>,
    entries: Seq<FsEntryV>,
    root: Seq<char>,
    ignorev: Seq<Seq<char>>,
    names: Seq<Seq<char>>,
) -> bool {
    in_md(s, entries, root, ignorev) && name_in(rel_of(s, root).last(), names)
}

/// The component lists of the produced entries.
pub open spec fn out_rels(v: Seq<MarkdownFile>, root: Seq<char>) -> Seq<Seq<Seq<char>>> {
    v.map_values(|m: MarkdownFile| rel_of(m@.filename, root))
}

/// The full promise of `find_markdown_files`. On success the produced
/// entries are exactly the assembled paths, each exactly once, in the
/// strict outline order, carrying the base name, the folder flag and
/// the section numbers of the numbering fold; on failure the reported
/// path is the first assembled path, in outline order, that nests too
/// deep.
pub open spec fn valid_find_result(
    names: Seq<Seq<char>>,
    root: Seq<char>,
    ignorev: Seq<Seq<char>>,
    ev: Seq<FsEntryV>,
    r: Result<Vec<MarkdownFile>, FindError>,
) -> bool {
    match r {
        Ok(v) => {
            &&& forall|k: int|
                0 <= k < v@.len() ==> in_assembled(
                    (#[trigger] v@[k])@.filename,
                    ev,
                    root,
                    ignorev,
                    names,
                )
            &&& forall|s: Seq<char>|
                #[trigger] in_assembled(s, ev, root, ignorev, names) ==> exists|k: int|
                    0 <= k < v@.len() && (#[trigger] v@[k])@.filename == s
            &&& forall|k: int|
                0 <= k < v@.len() ==> {
                    let m = (#[trigger] v@[k])@;
                    &&& m.name == rel_of(m.filename, root).last()
                    &&& m.is_folder == !in_md(m.filename, ev, root, ignorev)
                    &&& m.section == section_of(out_rels(v@, root), k, names)
                    &&& !too_deep(rel_of(m.filename, root), names)
                }
            &&& forall|k1: int, k2: int|
                0 <= k1 < k2 < v@.len() ==> key_lt(
                    rel_of((#[trigger] v@[k1])@.filename, root),
                    assembled_idx(v@[k1]@.filename, ev, root, ignorev, names),
                    rel_of((#[trigger] v@[k2])@.filename, root),
                    assembled_idx(v@[k2]@.filename, ev, root, ignorev, names),
                )
            &&& forall|k1: int, k2: int|
                0 <= k1 < k2 < v@.len() ==> (#[trigger] v@[k1])@.filename != (
                #[trigger] v@[k2])@.filename
        },
        Err(err) => {
            &&& err matches FindError::DepthExceeded(p) && {
                &&& in_assembled(p@, ev, root, ignorev, names)
                &&& too_deep(rel_of(p@, root), names)
                &&& forall|s: Seq<char>|
                    #[trigger] in_assembled(s, ev, root, ignorev, names) && key_lt(
                        rel_of(s, root),
                        assembled_idx(s, ev, root, ignorev, names),
                        rel_of(p@, root),
                        assembled_idx(p@, ev, root, ignorev, names),
                    ) ==> !too_deep(rel_of(s, root), names)
            }
        },
    }
}

/// Finds every outline entry below `root` among the walk entries:
/// filters, assembles, orders and numbers them.
pub fn find_markdown_files(
    index_filenames: &Vec<String>,
    root: &String,
    ignore: &Vec<String>,
    entries: &Vec<FsEntry>,
) -> (r: Result<Vec<MarkdownFile>, FindError>)
    ensures
        valid_find_result(
            seq_views(index_filenames@),
            root@,
            seq_views(ignore@),
            entry_views(entries@),
            r,
        ),
{
    let ghost namesv = seq_views(index_filenames@);
    let ghost ignorev = seq_views(ignore@);
    let ghost ev = entry_views(entries@);
    let list = assemble_entries(entries, root, ignore, index_filenames);
    let ghost listv = list@;
    let sorted = sort_entries(list, Ghost(root@), Ghost(namesv));
    proof {
        assert forall|x: int| 0 <= x < sorted@.len() implies {
            let v = (#[trigger] sorted@[x])@;
            &&& wf_path_entry(v, root@, namesv)
            &&& in_assembled(v.path, ev, root@, ignorev, namesv)
            &&& v.is_folder == !in_md(v.path, ev, root@, ignorev)
        } by {
            let y = choose|y: int| 0 <= y < listv.len() && (#[trigger] listv[y])@ == sorted@[x]@;
        }
        assert forall|x: int| 0 <= x < sorted@.len() implies (#[trigger] sorted@[x])@.rel.len()
            >= 1 by {}
    }
    let numbered = number_entries(&sorted, index_filenames);
    match numbered {
        Ok(v) => {
            proof {
                let sv = sorted@;
                // entry order restated over the produced paths
                assert forall|k: int| 0 <= k < v@.len() implies {
                    let m = (#[trigger] v@[k])@;
                    &&& m.filename == sv[k]@.path
                    &&& rel_of(m.filename, root@) == sv[k]@.rel
                    &&& assembled_idx(m.filename, ev, root@, ignorev, namesv) == sv[k]@.is_index
                    &&& in_assembled(m.filename, ev, root@, ignorev, namesv)
                    &&& m.name == rel_of(m.filename, root@).last()
                    &&& m.is_folder == !in_md(m.filename, ev, root@, ignorev)
                    &&& !too_deep(rel_of(m.filename, root@), namesv)
                } by {}
                assert(out_rels(v@, root@) =~= rels_of(sv));
                assert forall|s: Seq<char>|
                    #[trigger] in_assembled(s, ev, root@, ignorev, namesv) implies exists|k: int|
                    0 <= k < v@.len() && (#[trigger] v@[k])@.filename == s by {
                    assert(contains_epath(listv, s));
                    assert(contains_epath(sv, s));
                    let a = choose|a: int| 0 <= a < sv.len() && (#[trigger] sv[a])@.path == s;
                    assert(v@[a]@.filename == s);
                }
                assert forall|k1: int, k2: int| 0 <= k1 < k2 < v@.len() implies (
                #[trigger] v@[k1])@.filename != (#[trigger] v@[k2])@.filename by {
                    assert(sv[k1]@.path != sv[k2]@.path);
                }
            }
            Ok(v)
        },
        Err(err) => {
            proof {
                let sv = sorted@;
                let k = choose|k: int|
                    0 <= k < sv.len() && (err matches FindError::DepthExceeded(p) && p@ == (
                    #[trigger] sv[k])@.path) && too_deep(sv[k]@.rel, namesv) && (forall|kk: int|
                        0 <= kk < k ==> !too_deep((#[trigger] sv[kk])@.rel, namesv));
                let pv = sv[k]@.path;
                assert(in_assembled(pv, ev, root@, ignorev, namesv));
                assert(rel_of(pv, root@) == sv[k]@.rel);
                assert forall|s: Seq<char>|
                    #[trigger] in_assembled(s, ev, root@, ignorev, namesv) && key_lt(
                        rel_of(s, root@),
                        assembled_idx(s, ev, root@, ignorev, namesv),
                        rel_of(pv, root@),
                        assembled_idx(pv, ev, root@, ignorev, namesv),
                    ) implies !too_deep(rel_of(s, root@), namesv) by {
                    assert(contains_epath(listv, s));
                    assert(contains_epath(sv, s));
                    let a = choose|a: int| 0 <= a < sv.len() && (#[trigger] sv[a])@.path == s;
                    assert(rel_of(s, root@) == sv[a]@.rel);
                    assert(assembled_idx(s, ev, root@, ignorev, namesv) == sv[a]@.is_index);
                    assert(assembled_idx(pv, ev, root@, ignorev, namesv) == sv[k]@.is_index);
                    if a == k {
                        lemma_key_lt_irreflexive(sv[k]@.rel, sv[k]@.is_index, 0);
                    } else if a > k {
                        lemma_key_lt_transitive(
                            sv[a]@.rel,
                            sv[a]@.is_index,
                            sv[k]@.rel,
                            sv[k]@.is_index,
                            sv[a]@.rel,
                            sv[a]@.is_index,
                        0,
                        );
                        lemma_key_lt_irreflexive(sv[a]@.rel, sv[a]@.is_index, 0);
                    }
                }
            }
            Err(err)
        },
    }
}

} // verus!
