//! Character-sequence utilities: lexicographic ordering, equality and
//! prefix tests on strings, with the lemmas that make the ordering a
//! strict total order.
use vstd::prelude::*;

verus! {

/// Strict order on characters, by Unicode code point.
pub open spec fn char_lt(a: char, b: char) -> bool {
    (a as int) < (b as int)
}

/// Strict lexicographic order on character sequences: a proper prefix
/// comes first; otherwise the first differing character decides.
pub open spec fn str_lt(a: Seq<char>, b: Seq<char>) -> bool
    decreases a.len(),
{
    if b.len() == 0 {
        false
    } else if a.len() == 0 {
        true
    } else if a[0] == b[0] {
        str_lt(a.skip(1), b.skip(1))
    } else {
        char_lt(a[0], b[0])
    }
}

pub proof fn lemma_str_lt_irreflexive(a: Seq<char>)
    ensures
        !str_lt(a, a),
    decreases a.len(),
{
    if a.len() > 0 {
        lemma_str_lt_irreflexive(a.skip(1));
    }
}

pub proof fn lemma_str_lt_trichotomy(a: Seq<char>, b: Seq<char>)
    ensures
        str_lt(a, b) || str_lt(b, a) || a == b,
    decreases a.len(),
{
    if a.len() == 0 && b.len() == 0 {
        assert(a =~= b);
    } else if a.len() > 0 && b.len() > 0 && a[0] == b[0] {
        lemma_str_lt_trichotomy(a.skip(1), b.skip(1));
        if a.skip(1) == b.skip(1) {
            assert(a =~= b) by {
                assert(a.skip(1).len() == a.len() - 1);
                assert(b.skip(1).len() == b.len() - 1);
                assert(a.len() == b.len());
                assert forall|i: int| 0 <= i < a.len() implies a[i] == b[i] by {
                    if i > 0 {
                        assert(a.skip(1)[i - 1] == b.skip(1)[i - 1]);
                    }
                }
            }
        }
    } else if a.len() > 0 && b.len() > 0 {
        assert((a[0] as int) != (b[0] as int));
    }
}

pub proof fn lemma_str_lt_transitive(a: Seq<char>, b: Seq<char>, c: Seq<char>)
    requires
        str_lt(a, b),
        str_lt(b, c),
    ensures
        str_lt(a, c),
    decreases a.len(),
{
    if a.len() == 0 {
        // c nonempty since str_lt(b, c)
    } else {
        // b, c nonempty
        if a[0] == b[0] {
            if b[0] == c[0] {
                lemma_str_lt_transitive(a.skip(1), b.skip(1), c.skip(1));
            }
        } else {
            if b[0] == c[0] {
            } else {
                // char_lt(a[0], b[0]) and char_lt(b[0], c[0])
            }
        }
    }
}

/// `p` is a prefix of `a`.
pub open spec fn is_prefix(p: Seq<char>, a: Seq<char>) -> bool {
    p.len() <= a.len() && a.take(p.len() as int) == p
}

/// A common prefix does not affect which string is smaller.
pub proof fn lemma_str_lt_common_prefix(a: Seq<char>, b: Seq<char>, i: int)
    requires
        0 <= i <= a.len(),
        i <= b.len(),
        forall|j: int| 0 <= j < i ==> a[j] == b[j],
    ensures
        str_lt(a, b) == str_lt(a.skip(i), b.skip(i)),
    decreases i,
{
    if i > 0 {
        assert(a[0] == b[0]);
        assert(str_lt(a, b) == str_lt(a.skip(1), b.skip(1)));
        assert forall|j: int| 0 <= j < i - 1 implies a.skip(1)[j] == b.skip(1)[j] by {
            assert(a.skip(1)[j] == a[j + 1]);
        }
        lemma_str_lt_common_prefix(a.skip(1), b.skip(1), i - 1);
        assert(a.skip(1).skip(i - 1) =~= a.skip(i));
        assert(b.skip(1).skip(i - 1) =~= b.skip(i));
    } else {
        assert(a.skip(0) =~= a);
        assert(b.skip(0) =~= b);
    }
}

/// Compares two strings under the strict lexicographic order.
pub fn str_lt_exec(a: &str, b: &str) -> (r: bool)
    ensures
        r == str_lt(a@, b@),
{
    let an = a.unicode_len();
    let bn = b.unicode_len();
    let mut i: usize = 0;
    loop
        invariant
            i <= an,
            i <= bn,
            an == a@.len(),
            bn == b@.len(),
            forall|j: int| 0 <= j < i ==> a@[j] == b@[j],
        decreases an - i,
    {
        proof {
            lemma_str_lt_common_prefix(a@, b@, i as int);
        }
        if i >= bn {
            return false;
        }
        if i >= an {
            return true;
        }
        let ca = a.get_char(i);
        let cb = b.get_char(i);
        if ca != cb {
            return (ca as u32) < (cb as u32);
        }
        i = i + 1;
    }
}

/// String equality on views.
pub fn str_eq_exec(a: &str, b: &str) -> (r: bool)
    ensures
        r == (a@ == b@),
{
    let an = a.unicode_len();
    let bn = b.unicode_len();
    if an != bn {
        return false;
    }
    let mut i: usize = 0;
    while i < an
        invariant
            i <= an,
            an == a@.len(),
            an == bn,
            bn == b@.len(),
            forall|j: int| 0 <= j < i ==> a@[j] == b@[j],
        decreases an - i,
    {
        if a.get_char(i) != b.get_char(i) {
            return false;
        }
        i = i + 1;
    }
    assert(a@ =~= b@);
    true
}

/// Does `a` start with `p`?
pub fn str_starts_with_exec(a: &str, p: &str) -> (r: bool)
    ensures
        r == is_prefix(p@, a@),
{
    let an = a.unicode_len();
    let pn = p.unicode_len();
    if pn > an {
        assert(!is_prefix(p@, a@));
        return false;
    }
    let mut i: usize = 0;
    while i < pn
        invariant
            i <= pn,
            pn <= an,
            an == a@.len(),
            pn == p@.len(),
            forall|j: int| 0 <= j < i ==> a@[j] == p@[j],
        decreases pn - i,
    {
        if a.get_char(i) != p.get_char(i) {
            assert(a@.take(p@.len() as int)[i as int] == a@[i as int]);
            return false;
        }
        i = i + 1;
    }
    assert(a@.take(p@.len() as int) =~= p@);
    true
}

/// The views of a sequence of strings.
pub open spec fn seq_views(v: Seq<String>) -> Seq<Seq<char>> {
    v.map_values(|s: String| s@)
}

/// Does some string of `pats` prefix `s`?
pub open spec fn matches_any_prefix(s: Seq<char>, pats: Seq<Seq<char>>) -> bool {
    exists|k: int| 0 <= k < pats.len() && is_prefix(pats[k], s)
}

/// Whether the path string `s` starts with one of the strings in `pats`.
pub fn matches_any_prefix_exec(s: &str, pats: &Vec<String>) -> (r: bool)
    ensures
        r == matches_any_prefix(s@, seq_views(pats@)),
{
    let ghost pv = seq_views(pats@);
    let mut k: usize = 0;
    while k < pats.len()
        invariant
            k <= pats.len(),
            pv == seq_views(pats@),
            forall|j: int| 0 <= j < k ==> !is_prefix(pv[j], s@),
        decreases pats.len() - k,
    {
        if str_starts_with_exec(s, pats[k].as_str()) {
            assert(is_prefix(pv[k as int], s@));
            return true;
        }
        k = k + 1;
    }
    false
}

/// A name is hidden when it starts with a dot.
pub open spec fn is_hidden_name(c: Seq<char>) -> bool {
    c.len() > 0 && c[0] == '.'
}

/// Whether the name starts with a dot.
pub fn is_hidden_name_exec(c: &str) -> (r: bool)
    ensures
        r == is_hidden_name(c@),
{
    let n = c.unicode_len();
    n > 0 && c.get_char(0) == '.'
}

/// A name with the markdown extension: it ends in `.md` with a
/// non-empty stem before the dot.
pub open spec fn is_md_name(c: Seq<char>) -> bool {
    c.len() > 3 && c[c.len() - 3] == '.' && c[c.len() - 2] == 'm' && c[c.len() - 1] == 'd'
}

/// Whether the name carries the markdown extension.
pub fn is_md_name_exec(c: &str) -> (r: bool)
    ensures
        r == is_md_name(c@),
{
    let n = c.unicode_len();
    n > 3 && c.get_char(n - 3) == '.' && c.get_char(n - 2) == 'm' && c.get_char(n - 1) == 'd'
}

/// Is the string `c` one of the names in `names`?
pub open spec fn name_in(c: Seq<char>, names: Seq<Seq<char>>) -> bool {
    exists|k: int| 0 <= k < names.len() && names[k] == c
}

/// Whether `c` equals one of the strings in `names`.
pub fn name_in_exec(c: &str, names: &Vec<String>) -> (r: bool)
    ensures
        r == name_in(c@, seq_views(names@)),
{
    let ghost nv = seq_views(names@);
    let mut k: usize = 0;
    while k < names.len()
        invariant
            k <= names.len(),
            nv == seq_views(names@),
            forall|j: int| 0 <= j < k ==> nv[j] != c@,
        decreases names.len() - k,
    {
        if str_eq_exec(names[k].as_str(), c) {
            assert(nv[k as int] == c@);
            return true;
        }
        k = k + 1;
    }
    false
}

} // verus!
