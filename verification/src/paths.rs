//! Path strings as sequences of slash-separated components: splitting,
//! joining, and the relation between a root directory and the paths
//! beneath it.
use vstd::prelude::*;
use crate::strutil::{is_prefix, seq_views};

verus! {

/// The components of a path string, split at every `/`.
pub open spec fn split_slash(s: Seq<char>) -> Seq<Seq<char>>
    decreases s.len(),
{
    if s.len() == 0 {
        seq![Seq::<char>::empty()]
    } else if s[0] == '/' {
        seq![Seq::<char>::empty()] + split_slash(s.skip(1))
    } else {
        let rest = split_slash(s.skip(1));
        seq![seq![s[0]] + rest[0]] + rest.skip(1)
    }
}

/// The components joined back with `/` separators.
pub open spec fn join_slash(parts: Seq<Seq<char>>) -> Seq<char>
    decreases parts.len(),
{
    if parts.len() == 0 {
        Seq::<char>::empty()
    } else if parts.len() == 1 {
        parts[0]
    } else {
        join_slash(parts.drop_last()) + seq!['/'] + parts.last()
    }
}

pub open spec fn slash_free(c: Seq<char>) -> bool {
    forall|j: int| 0 <= j < c.len() ==> c[j] != '/'
}

pub proof fn lemma_split_len(s: Seq<char>)
    ensures
        split_slash(s).len() >= 1,
    decreases s.len(),
{
    if s.len() > 0 {
        lemma_split_len(s.skip(1));
    }
}

pub proof fn lemma_split_slash_free(s: Seq<char>)
    ensures
        forall|k: int| 0 <= k < split_slash(s).len() ==> slash_free(#[trigger] split_slash(s)[k]),
    decreases s.len(),
{
    if s.len() == 0 {
    } else {
        lemma_split_slash_free(s.skip(1));
        lemma_split_len(s.skip(1));
        let rest = split_slash(s.skip(1));
        if s[0] == '/' {
            assert forall|k: int| 0 <= k < split_slash(s).len() implies slash_free(
                #[trigger] split_slash(s)[k],
            ) by {
                if k > 0 {
                    assert(split_slash(s)[k] == rest[k - 1]);
                }
            }
        } else {
            assert forall|k: int| 0 <= k < split_slash(s).len() implies slash_free(
                #[trigger] split_slash(s)[k],
            ) by {
                if k == 0 {
                    assert(split_slash(s)[0] == seq![s[0]] + rest[0]);
                    assert(slash_free(rest[0]));
                    assert forall|j: int| 0 <= j < (seq![s[0]] + rest[0]).len() implies (seq![
                        s[0],
                    ] + rest[0])[j] != '/' by {
                        if j > 0 {
                            assert((seq![s[0]] + rest[0])[j] == rest[0][j - 1]);
                        }
                    }
                } else {
                    assert(split_slash(s)[k] == rest.skip(1)[k - 1]);
                    assert(rest.skip(1)[k - 1] == rest[k]);
                }
            }
        }
    }
}

/// Splitting at the first slash: everything before it is the head
/// component, the rest splits on its own.
pub proof fn lemma_split_at_first_slash(s: Seq<char>, i: int)
    requires
        0 <= i < s.len(),
        s[i] == '/',
        forall|j: int| 0 <= j < i ==> s[j] != '/',
    ensures
        split_slash(s) == seq![s.take(i)] + split_slash(s.skip(i + 1)),
    decreases i,
{
    if i == 0 {
        assert(s.take(0) =~= Seq::<char>::empty());
        assert(split_slash(s) =~= seq![s.take(0)] + split_slash(s.skip(1)));
    } else {
        let rest = split_slash(s.skip(1));
        assert forall|j: int| 0 <= j < i - 1 implies s.skip(1)[j] != '/' by {
            assert(s.skip(1)[j] == s[j + 1]);
        }
        assert(s.skip(1)[i - 1] == s[i]);
        lemma_split_at_first_slash(s.skip(1), i - 1);
        assert(rest == seq![s.skip(1).take(i - 1)] + split_slash(s.skip(1).skip(i)));
        assert(s.skip(1).skip(i) =~= s.skip(i + 1));
        assert(rest[0] == s.skip(1).take(i - 1));
        assert(seq![s[0]] + rest[0] =~= s.take(i));
        assert(rest.skip(1) =~= split_slash(s.skip(i + 1)));
        assert(split_slash(s) =~= seq![s.take(i)] + split_slash(s.skip(i + 1)));
    }
}

pub proof fn lemma_split_no_slash(s: Seq<char>)
    requires
        slash_free(s),
    ensures
        split_slash(s) == seq![s],
    decreases s.len(),
{
    if s.len() > 0 {
        assert forall|j: int| 0 <= j < s.skip(1).len() implies s.skip(1)[j] != '/' by {
            assert(s.skip(1)[j] == s[j + 1]);
        }
        lemma_split_no_slash(s.skip(1));
        assert(seq![s[0]] + s.skip(1) =~= s);
        assert(split_slash(s) =~= seq![s]);
    } else {
        assert(split_slash(s) =~~= seq![s]);
    }
}

/// Prepending a component to a non-empty list inserts one separator.
pub proof fn lemma_join_cons(x: Seq<char>, parts: Seq<Seq<char>>)
    requires
        parts.len() >= 1,
    ensures
        join_slash(seq![x] + parts) == x + seq!['/'] + join_slash(parts),
    decreases parts.len(),
{
    let whole = seq![x] + parts;
    if parts.len() == 1 {
        assert(whole.drop_last() =~= seq![x]);
        assert(whole.last() == parts[0]);
        assert(join_slash(whole) == join_slash(seq![x]) + seq!['/'] + parts[0]);
        assert(join_slash(parts) == parts[0]);
    } else {
        assert(whole.drop_last() =~= seq![x] + parts.drop_last());
        lemma_join_cons(x, parts.drop_last());
        assert(whole.last() == parts.last());
        assert(x + seq!['/'] + join_slash(parts.drop_last()) + seq!['/'] + parts.last() =~= x
            + seq!['/'] + (join_slash(parts.drop_last()) + seq!['/'] + parts.last()));
    }
}

/// Joining the components of a string restores the string.
pub proof fn lemma_join_split(s: Seq<char>)
    ensures
        join_slash(split_slash(s)) == s,
    decreases s.len(),
{
    if s.len() == 0 {
        assert(join_slash(split_slash(s)) =~= s);
    } else if s[0] == '/' {
        lemma_join_split(s.skip(1));
        lemma_split_len(s.skip(1));
        lemma_join_cons(Seq::<char>::empty(), split_slash(s.skip(1)));
        assert(Seq::<char>::empty() + seq!['/'] + s.skip(1) =~= s);
    } else {
        lemma_join_split(s.skip(1));
        lemma_split_len(s.skip(1));
        let rest = split_slash(s.skip(1));
        if rest.len() == 1 {
            assert(split_slash(s) =~= seq![seq![s[0]] + rest[0]]);
            assert(join_slash(split_slash(s)) == seq![s[0]] + rest[0]);
            assert(join_slash(rest) == rest[0]);
            assert(seq![s[0]] + rest[0] =~= s);
        } else {
            let head = seq![s[0]] + rest[0];
            assert(rest.skip(1).len() >= 1);
            lemma_join_cons(head, rest.skip(1));
            assert(split_slash(s) == seq![head] + rest.skip(1));
            assert(join_slash(split_slash(s)) == head + seq!['/'] + join_slash(rest.skip(1)));
            lemma_join_cons(rest[0], rest.skip(1));
            assert(seq![rest[0]] + rest.skip(1) =~= rest);
            assert(join_slash(rest) == rest[0] + seq!['/'] + join_slash(rest.skip(1)));
            assert(head + seq!['/'] + join_slash(rest.skip(1)) =~= seq![s[0]] + (rest[0]
                + seq!['/'] + join_slash(rest.skip(1))));
            assert(seq![s[0]] + s.skip(1) =~= s);
        }
    }
}

/// Splitting a join of slash-free components restores the components.
pub proof fn lemma_split_join(parts: Seq<Seq<char>>)
    requires
        parts.len() >= 1,
        forall|k: int| 0 <= k < parts.len() ==> slash_free(#[trigger] parts[k]),
    ensures
        split_slash(join_slash(parts)) == parts,
    decreases parts.len(),
{
    if parts.len() == 1 {
        lemma_split_no_slash(parts[0]);
        assert(seq![parts[0]] =~= parts);
    } else {
        let tail = parts.skip(1);
        assert(seq![parts[0]] + tail =~= parts);
        lemma_join_cons(parts[0], tail);
        let s = join_slash(parts);
        assert(s == parts[0] + seq!['/'] + join_slash(tail));
        let i = parts[0].len() as int;
        assert(s[i] == '/');
        assert forall|j: int| 0 <= j < i implies s[j] != '/' by {
            assert(s[j] == parts[0][j]);
        }
        lemma_split_at_first_slash(s, i);
        assert(s.take(i) =~= parts[0]);
        assert(s.skip(i + 1) =~= join_slash(tail));
        assert forall|k: int| 0 <= k < tail.len() implies slash_free(#[trigger] tail[k]) by {
            assert(tail[k] == parts[k + 1]);
        }
        lemma_split_join(tail);
        assert(seq![parts[0]] + tail =~= parts);
        assert(split_slash(s) =~= parts);
    }
}

/// Splitting is injective: equal component lists come from equal strings.
pub proof fn lemma_split_injective(s1: Seq<char>, s2: Seq<char>)
    requires
        split_slash(s1) == split_slash(s2),
    ensures
        s1 == s2,
{
    lemma_join_split(s1);
    lemma_join_split(s2);
}

/// Whether `root` needs a separator before a relative path is appended.
pub open spec fn root_needs_sep(root: Seq<char>) -> bool {
    root.len() > 0 && root.last() != '/'
}

/// The full path of a relative path under `root`.
pub open spec fn path_of_rel(root: Seq<char>, rel: Seq<char>) -> Seq<char> {
    if root_needs_sep(root) {
        root + seq!['/'] + rel
    } else {
        root + rel
    }
}

/// `p` lies strictly below `root`: it extends the root string, with a
/// separator between when the root does not end in one.
pub open spec fn extends_root(p: Seq<char>, root: Seq<char>) -> bool {
    if root_needs_sep(root) {
        p.len() > root.len() + 1 && p.take(root.len() as int) == root && p[root.len() as int]
            == '/'
    } else {
        p.len() > root.len() && p.take(root.len() as int) == root
    }
}

/// The part of `p` below `root`.
pub open spec fn rel_str_of(p: Seq<char>, root: Seq<char>) -> Seq<char> {
    if root_needs_sep(root) {
        p.skip(root.len() as int + 1)
    } else {
        p.skip(root.len() as int)
    }
}

/// A path below the root is the root joined with its relative part.
pub proof fn lemma_path_reassemble(p: Seq<char>, root: Seq<char>)
    requires
        extends_root(p, root),
    ensures
        path_of_rel(root, rel_str_of(p, root)) == p,
        rel_str_of(p, root).len() > 0,
{
    if root_needs_sep(root) {
        assert(root + seq!['/'] + p.skip(root.len() as int + 1) =~= p);
    } else {
        assert(root + p.skip(root.len() as int) =~= p);
    }
}

/// Attaching a relative path under the root and cutting it back off
/// are inverse.
pub proof fn lemma_rel_of_path(root: Seq<char>, rel: Seq<char>)
    requires
        rel.len() > 0,
    ensures
        extends_root(path_of_rel(root, rel), root),
        rel_str_of(path_of_rel(root, rel), root) == rel,
{
    let p = path_of_rel(root, rel);
    if root_needs_sep(root) {
        assert(p.take(root.len() as int) =~= root);
        assert(p[root.len() as int] == '/');
        assert(p.skip(root.len() as int + 1) =~= rel);
    } else {
        assert(p.take(root.len() as int) =~= root);
        assert(p.skip(root.len() as int) =~= rel);
    }
}

/// Prefix relations carry over concatenation on the right.
pub proof fn lemma_prefix_trans(a: Seq<char>, b: Seq<char>, c: Seq<char>)
    requires
        is_prefix(a, b),
        is_prefix(b, c),
    ensures
        is_prefix(a, c),
{
    assert forall|j: int| 0 <= j < a.len() implies c.take(a.len() as int)[j] == a[j] by {
        assert(b.take(a.len() as int)[j] == a[j]);
        assert(c.take(b.len() as int)[j] == b[j]);
    }
    assert(c.take(a.len() as int) =~= a);
}

/// Joining a longer component list extends the join of its prefix.
pub proof fn lemma_join_take_prefix(parts: Seq<Seq<char>>, i: int)
    requires
        1 <= i < parts.len(),
    ensures
        is_prefix(join_slash(parts.take(i)), join_slash(parts)),
    decreases parts.len() - i,
{
    if i == parts.len() - 1 {
        assert(parts.take(i) =~= parts.drop_last());
        let j = join_slash(parts.drop_last());
        assert(join_slash(parts) == j + seq!['/'] + parts.last());
        assert((j + seq!['/'] + parts.last()).take(j.len() as int) =~= j);
    } else {
        lemma_join_take_prefix(parts, i + 1);
        lemma_join_take_prefix(parts.take(i + 1), i);
        assert(parts.take(i + 1).take(i) =~= parts.take(i));
        lemma_prefix_trans(
            join_slash(parts.take(i)),
            join_slash(parts.take(i + 1)),
            join_slash(parts),
        );
    }
}

/// A path prefixed under the root keeps prefixes of its relative part.
pub proof fn lemma_path_of_rel_prefix(root: Seq<char>, r1: Seq<char>, r2: Seq<char>)
    requires
        is_prefix(r1, r2),
    ensures
        is_prefix(path_of_rel(root, r1), path_of_rel(root, r2)),
{
    let p1 = path_of_rel(root, r1);
    let p2 = path_of_rel(root, r2);
    assert(p2.take(p1.len() as int) =~= p1) by {
        assert(r2.take(r1.len() as int) == r1);
        assert forall|j: int| 0 <= j < r1.len() implies r2[j] == r1[j] by {
            assert(r2.take(r1.len() as int)[j] == r2[j]);
        }
    }
}

/// Splits a string into its slash-separated components.
pub fn split_slash_exec(s: &str) -> (parts: Vec<String>)
    ensures
        seq_views(parts@) == split_slash(s@),
        parts@.len() >= 1,
{
    let n = s.unicode_len();
    let mut parts: Vec<String> = Vec::new();
    let mut start: usize = 0;
    let mut i: usize = 0;
    proof {
        assert(s@.skip(0) =~= s@);
        assert(seq_views(parts@) + split_slash(s@) =~= split_slash(s@));
    }
    while i < n
        invariant
            start <= i <= n,
            n == s@.len(),
            forall|j: int| start <= j < i ==> s@[j] != '/',
            split_slash(s@) == seq_views(parts@) + split_slash(s@.skip(start as int)),
        decreases n - i,
    {
        if s.get_char(i) == '/' {
            let part = String::from_str(s.substring_char(start, i));
            proof {
                let tail = s@.skip(start as int);
                assert(tail[i - start] == s@[i as int]);
                assert forall|j: int| 0 <= j < i - start implies tail[j] != '/' by {
                    assert(tail[j] == s@[start + j]);
                }
                lemma_split_at_first_slash(tail, i - start);
                assert(tail.take(i - start) =~= s@.subrange(start as int, i as int));
                assert(tail.skip(i - start + 1) =~= s@.skip(i + 1));
                assert(seq_views(parts@.push(part)) =~= seq_views(parts@).push(part@));
                assert(seq_views(parts@) + seq![part@] + split_slash(
                    s@.skip(i + 1),
                ) =~= seq_views(parts@).push(part@) + split_slash(s@.skip(i + 1)));
            }
            parts.push(part);
            start = i + 1;
        }
        i = i + 1;
    }
    let last = String::from_str(s.substring_char(start, n));
    proof {
        let tail = s@.skip(start as int);
        assert forall|j: int| 0 <= j < tail.len() implies tail[j] != '/' by {
            assert(tail[j] == s@[start + j]);
        }
        lemma_split_no_slash(tail);
        assert(tail =~= s@.subrange(start as int, n as int));
        assert(seq_views(parts@.push(last)) =~= seq_views(parts@).push(last@));
        assert(seq_views(parts@) + seq![last@] =~= seq_views(parts@).push(last@));
    }
    parts.push(last);
    proof {
        lemma_split_len(s@);
    }
    parts
}

} // verus!
