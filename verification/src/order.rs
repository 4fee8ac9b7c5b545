//! The display order of outline entries. Entries are compared by their
//! relative path components, level by level; at each level an index
//! file ranks before every other sibling, and otherwise names compare
//! lexicographically. This keeps every subtree contiguous and gives an
//! index file the lowest position among its siblings, so that its
//! section number equals the one its directory would receive.
use vstd::prelude::*;
use crate::strutil::{str_lt, lemma_str_lt_irreflexive, lemma_str_lt_transitive,
    lemma_str_lt_trichotomy};

verus! {

/// The rank of component `k` of an entry: index files rank before
/// everything else at their level.
pub open spec fn comp_pri(rel: Seq<Seq<char>>, is_index: bool, k: int) -> int {
    if is_index && k == rel.len() - 1 {
        0
    } else {
        1
    }
}

/// Entry order, decided from component `k` on.
pub open spec fn key_lt_from(
    ar: Seq<Seq<char>>,
    ai: bool,
    br: Seq<Seq<char>>,
    bi: bool,
    k: int,
) -> bool
    decreases ar.len() - k,
{
    if k < 0 {
        false
    } else if k >= ar.len() {
        k < br.len()
    } else if k >= br.len() {
        false
    } else if comp_pri(ar, ai, k) != comp_pri(br, bi, k) {
        comp_pri(ar, ai, k) < comp_pri(br, bi, k)
    } else if ar[k] == br[k] {
        key_lt_from(ar, ai, br, bi, k + 1)
    } else {
        str_lt(ar[k], br[k])
    }
}

/// The strict entry order: `a` stands before `b` in the outline.
pub open spec fn key_lt(ar: Seq<Seq<char>>, ai: bool, br: Seq<Seq<char>>, bi: bool) -> bool {
    key_lt_from(ar, ai, br, bi, 0)
}

pub proof fn lemma_key_lt_irreflexive(ar: Seq<Seq<char>>, ai: bool, k: int)
    ensures
        !key_lt_from(ar, ai, ar, ai, k),
    decreases ar.len() - k,
{
    if 0 <= k < ar.len() {
        lemma_str_lt_irreflexive(ar[k]);
        lemma_key_lt_irreflexive(ar, ai, k + 1);
    }
}

pub proof fn lemma_key_lt_trichotomy(
    ar: Seq<Seq<char>>,
    ai: bool,
    br: Seq<Seq<char>>,
    bi: bool,
    k: int,
)
    requires
        0 <= k <= ar.len(),
        k <= br.len(),
    ensures
        key_lt_from(ar, ai, br, bi, k) || key_lt_from(br, bi, ar, ai, k) || (ar.skip(k) == br.skip(
            k,
        ) && (ai == bi || ar.len() <= k)),
    decreases ar.len() - k,
{
    if k >= ar.len() && k >= br.len() {
        assert(ar.skip(k) =~= br.skip(k));
    } else if k >= ar.len() || k >= br.len() {
        // one side is exhausted: the shorter one comes first
    } else if comp_pri(ar, ai, k) != comp_pri(br, bi, k) {
    } else if ar[k] == br[k] {
        lemma_key_lt_trichotomy(ar, ai, br, bi, k + 1);
        if !key_lt_from(ar, ai, br, bi, k) && !key_lt_from(br, bi, ar, ai, k) {
            assert(ar.skip(k + 1) == br.skip(k + 1));
            assert(ar.skip(k + 1).len() == ar.len() - k - 1);
            assert(br.skip(k + 1).len() == br.len() - k - 1);
            assert(ar.len() == br.len());
            assert(ar.skip(k) =~= br.skip(k)) by {
                assert forall|j: int| 0 <= j < ar.skip(k).len() implies ar.skip(k)[j] == br.skip(
                    k,
                )[j] by {
                    if j > 0 {
                        assert(ar.skip(k + 1)[j - 1] == br.skip(k + 1)[j - 1]);
                    }
                }
            }
            if ar.len() > k + 1 || br.len() > k + 1 {
                if !(ai == bi || ar.len() <= k + 1) {
                    // the recursive disjunct gave equality of strictly
                    // shorter suffixes, so this case cannot arise
                    assert(false);
                }
                if ar.len() <= k + 1 {
                    // position k is the last of both; equal priorities
                    // there force the index flags to agree
                    assert(k == ar.len() - 1);
                    assert(k == br.len() - 1);
                    assert(comp_pri(ar, ai, k) == comp_pri(br, bi, k));
                    assert(ai == bi);
                }
            }
        }
    } else {
        lemma_str_lt_trichotomy(ar[k], br[k]);
    }
}

pub proof fn lemma_key_lt_transitive(
    ar: Seq<Seq<char>>,
    ai: bool,
    br: Seq<Seq<char>>,
    bi: bool,
    cr: Seq<Seq<char>>,
    ci: bool,
    k: int,
)
    requires
        k >= 0,
        key_lt_from(ar, ai, br, bi, k),
        key_lt_from(br, bi, cr, ci, k),
    ensures
        key_lt_from(ar, ai, cr, ci, k),
    decreases ar.len() - k,
{
    if k >= ar.len() {
        // a is exhausted; b reaches k, so c does too
        assert(k < br.len());
        assert(k < cr.len());
    } else {
        assert(k < br.len());
        assert(k < cr.len());
        let pa = comp_pri(ar, ai, k);
        let pb = comp_pri(br, bi, k);
        let pc = comp_pri(cr, ci, k);
        if pa != pb {
            assert(pa == 0 && pb == 1);
            assert(pc == 1);
        } else if ar[k] == br[k] {
            if pb != pc {
                assert(pb == 0 && pc == 1);
            } else if br[k] == cr[k] {
                lemma_key_lt_transitive(ar, ai, br, bi, cr, ci, k + 1);
            } else {
                lemma_str_lt_irreflexive(cr[k]);
            }
        } else {
            if pb != pc {
                assert(pb == 0 && pc == 1);
            } else if br[k] == cr[k] {
                lemma_str_lt_irreflexive(ar[k]);
            } else {
                lemma_str_lt_transitive(ar[k], br[k], cr[k]);
                lemma_str_lt_irreflexive(ar[k]);
            }
        }
    }
}

} // verus!
