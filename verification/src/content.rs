//! Title and content extraction for one outline entry: a folder's
//! name is turned into a title-cased heading, a file's text yields its
//! first non-empty line with any leading heading marker stripped.
use vstd::prelude::*;
use crate::outline::MarkdownFile;
use crate::scan::clone_string;

verus! {

/// Unicode white space, as it may separate a heading marker from the
/// title text.
pub open spec fn is_space(c: char) -> bool {
    let u = c as int;
    (9 <= u <= 13) || u == 32 || u == 0x85 || u == 0xA0 || u == 0x1680 || (0x2000 <= u <= 0x200A)
        || u == 0x2028 || u == 0x2029 || u == 0x202F || u == 0x205F || u == 0x3000
}

/// Whether the character is white space.
pub fn is_space_exec(c: char) -> (r: bool)
    ensures
        r == is_space(c),
{
    let u = c as u32;
    (9 <= u && u <= 13) || u == 32 || u == 0x85 || u == 0xA0 || u == 0x1680 || (0x2000 <= u && u
        <= 0x200A) || u == 0x2028 || u == 0x2029 || u == 0x202F || u == 0x205F || u == 0x3000
}

/// The lines of a text, split at every newline.
pub open spec fn split_nl(s: Seq<char>) -> Seq<Seq<char>>
    decreases s.len(),
{
    if s.len() == 0 {
        seq![Seq::<char>::empty()]
    } else if s[0] == '\n' {
        seq![Seq::<char>::empty()] + split_nl(s.skip(1))
    } else {
        let rest = split_nl(s.skip(1));
        seq![seq![s[0]] + rest[0]] + rest.skip(1)
    }
}

pub proof fn lemma_split_nl_len(s: Seq<char>)
    ensures
        split_nl(s).len() >= 1,
    decreases s.len(),
{
    if s.len() > 0 {
        lemma_split_nl_len(s.skip(1));
    }
}

/// Splitting at the first newline.
pub proof fn lemma_split_nl_first(s: Seq<char>, i: int)
    requires
        0 <= i < s.len(),
        s[i] == '\n',
        forall|j: int| 0 <= j < i ==> s[j] != '\n',
    ensures
        split_nl(s) == seq![s.take(i)] + split_nl(s.skip(i + 1)),
    decreases i,
{
    if i == 0 {
        assert(s.take(0) =~= Seq::<char>::empty());
        assert(split_nl(s) =~= seq![s.take(0)] + split_nl(s.skip(1)));
    } else {
        let rest = split_nl(s.skip(1));
        assert forall|j: int| 0 <= j < i - 1 implies s.skip(1)[j] != '\n' by {
            assert(s.skip(1)[j] == s[j + 1]);
        }
        assert(s.skip(1)[i - 1] == s[i]);
        lemma_split_nl_first(s.skip(1), i - 1);
        assert(s.skip(1).skip(i) =~= s.skip(i + 1));
        assert(seq![s[0]] + rest[0] =~= s.take(i));
        assert(rest.skip(1) =~= split_nl(s.skip(i + 1)));
        assert(split_nl(s) =~= seq![s.take(i)] + split_nl(s.skip(i + 1)));
    }
}

pub proof fn lemma_split_nl_none(s: Seq<char>)
    requires
        forall|j: int| 0 <= j < s.len() ==> s[j] != '\n',
    ensures
        split_nl(s) == seq![s],
    decreases s.len(),
{
    if s.len() > 0 {
        assert forall|j: int| 0 <= j < s.skip(1).len() implies s.skip(1)[j] != '\n' by {
            assert(s.skip(1)[j] == s[j + 1]);
        }
        lemma_split_nl_none(s.skip(1));
        assert(seq![s[0]] + s.skip(1) =~= s);
        assert(split_nl(s) =~= seq![s]);
    } else {
        assert(split_nl(s) =~~= seq![s]);
    }
}

/// A line without its trailing carriage return.
pub open spec fn strip_cr(l: Seq<char>) -> Seq<char> {
    if l.len() > 0 && l.last() == '\r' {
        l.drop_last()
    } else {
        l
    }
}

/// The first line, from position `k` on, that is non-empty once its
/// carriage return is stripped.
pub open spec fn first_line_from(ls: Seq<Seq<char>>, k: int) -> Option<Seq<char>>
    decreases ls.len() - k,
{
    if k < 0 || k >= ls.len() {
        None
    } else if strip_cr(ls[k]).len() > 0 {
        Some(strip_cr(ls[k]))
    } else {
        first_line_from(ls, k + 1)
    }
}

/// The first non-empty line of a text, if any.
pub open spec fn title_line(s: Seq<char>) -> Option<Seq<char>> {
    first_line_from(split_nl(s), 0)
}

/// The line with its leading run of `#` characters dropped.
pub open spec fn drop_hashes(l: Seq<char>) -> Seq<char>
    decreases l.len(),
{
    if l.len() > 0 && l[0] == '#' {
        drop_hashes(l.skip(1))
    } else {
        l
    }
}

/// The line with its leading run of white space dropped.
pub open spec fn drop_spaces(l: Seq<char>) -> Seq<char>
    decreases l.len(),
{
    if l.len() > 0 && is_space(l[0]) {
        drop_spaces(l.skip(1))
    } else {
        l
    }
}

/// The title a heading line yields: a line that starts a heading
/// loses its `#` run and the white space after it; any other line is
/// kept whole.
pub open spec fn title_of_line(l: Seq<char>) -> Seq<char> {
    if l.len() > 0 && l[0] == '#' {
        drop_spaces(drop_hashes(l))
    } else {
        l
    }
}

pub proof fn lemma_drop_hashes_skip(l: Seq<char>, i: int)
    requires
        0 <= i <= l.len(),
        forall|j: int| 0 <= j < i ==> l[j] == '#',
    ensures
        drop_hashes(l) == drop_hashes(l.skip(i)),
    decreases i,
{
    if i == 0 {
        assert(l.skip(0) =~= l);
    } else {
        assert forall|j: int| 0 <= j < i - 1 implies l.skip(1)[j] == '#' by {
            assert(l.skip(1)[j] == l[j + 1]);
        }
        lemma_drop_hashes_skip(l.skip(1), i - 1);
        assert(l.skip(1).skip(i - 1) =~= l.skip(i));
    }
}

pub proof fn lemma_drop_spaces_skip(l: Seq<char>, i: int)
    requires
        0 <= i <= l.len(),
        forall|j: int| 0 <= j < i ==> is_space(l[j]),
    ensures
        drop_spaces(l) == drop_spaces(l.skip(i)),
    decreases i,
{
    if i == 0 {
        assert(l.skip(0) =~= l);
    } else {
        assert forall|j: int| 0 <= j < i - 1 implies is_space(l.skip(1)[j]) by {
            assert(l.skip(1)[j] == l[j + 1]);
        }
        lemma_drop_spaces_skip(l.skip(1), i - 1);
        assert(l.skip(1).skip(i - 1) =~= l.skip(i));
    }
}

/// The folder name with separators turned into spaces.
pub open spec fn dash_to_space(s: Seq<char>) -> Seq<char> {
    s.map_values(|c: char| if c == '-' || c == '_' { ' ' } else { c })
}

/// Replaces `-` and `_` by spaces.
pub fn dash_to_space_exec(s: &str) -> (r: String)
    ensures
        r@ == dash_to_space(s@),
{
    let n = s.unicode_len();
    let mut out = String::new();
    let mut i: usize = 0;
    proof {
        reveal_strlit(" ");
        assert(dash_to_space(s@).len() == n);
        assert(out@ =~= dash_to_space(s@).take(0));
    }
    while i < n
        invariant
            i <= n,
            n == s@.len(),
            out@ == dash_to_space(s@).take(i as int),
            " "@ == seq![' '],
        decreases n - i,
    {
        let c = s.get_char(i);
        proof {
            assert(dash_to_space(s@)[i as int] == (if c == '-' || c == '_' {
                ' '
            } else {
                c
            }));
        }
        if c == '-' || c == '_' {
            out.append(" ");
        } else {
            let piece = s.substring_char(i, i + 1);
            proof {
                assert(piece@ =~= seq![c]);
            }
            out.append(piece);
        }
        proof {
            assert(out@ =~= dash_to_space(s@).take(i as int + 1));
        }
        i = i + 1;
    }
    proof {
        assert(dash_to_space(s@).take(n as int) =~= dash_to_space(s@));
    }
    out
}

/// The title case of a string, as the case conversion library
/// computes it.
pub uninterp spec fn title_cased(s: Seq<char>) -> Seq<char>;

/// Relies on inflector's `to_title_case`: its result is a pure
/// function of the input characters.
#[verifier::external_body]
fn to_title_case(s: &str) -> (r: String)
    ensures
        r@ == title_cased(s@),
{
    inflector::cases::titlecase::to_title_case(s)
}

/// Finds the first non-empty line of a text.
pub fn find_title_line(t: &str) -> (r: Option<String>)
    ensures
        r is Some <==> title_line(t@) is Some,
        r is Some ==> r.unwrap()@ == title_line(t@).unwrap(),
{
    let n = t.unicode_len();
    let mut start: usize = 0;
    let mut i: usize = 0;
    proof {
        assert(t@.skip(0) =~= t@);
    }
    loop
        invariant
            start <= i <= n,
            n == t@.len(),
            forall|j: int| start <= j < i ==> t@[j] != '\n',
            title_line(t@) == first_line_from(split_nl(t@.skip(start as int)), 0),
        decreases n - i,
    {
        let ghost tail = t@.skip(start as int);
        if i >= n || t.get_char(i) == '\n' {
            // the line runs from `start` to `i`
            let end: usize = if i > start && t.get_char(i - 1) == '\r' {
                i - 1
            } else {
                i
            };
            proof {
                assert forall|j: int| 0 <= j < i - start implies tail[j] != '\n' by {
                    assert(tail[j] == t@[start + j]);
                }
                if i < n {
                    assert(tail[i - start] == t@[i as int]);
                    lemma_split_nl_first(tail, i - start);
                } else {
                    lemma_split_nl_none(tail);
                }
                assert(tail.take(i - start) =~= t@.subrange(start as int, i as int));
                if i < n {
                    assert(tail.skip(i - start + 1) =~= t@.skip(i as int + 1));
                    assert(split_nl(tail) == seq![t@.subrange(start as int, i as int)] + split_nl(
                        t@.skip(i as int + 1),
                    ));
                } else {
                    assert(tail =~= t@.subrange(start as int, i as int));
                }
                assert(strip_cr(t@.subrange(start as int, i as int)) =~= t@.subrange(
                    start as int,
                    end as int,
                )) by {
                    if i > start && t@[i - 1] == '\r' {
                        assert(t@.subrange(start as int, i as int).last() == t@[i - 1]);
                        assert(t@.subrange(start as int, i as int).drop_last() =~= t@.subrange(
                            start as int,
                            end as int,
                        ));
                    }
                }
            }
            if end > start {
                let line = String::from_str(t.substring_char(start, end));
                proof {
                    if i < n {
                        assert(first_line_from(split_nl(tail), 0) == Some(
                            t@.subrange(start as int, end as int),
                        ));
                    } else {
                        assert(split_nl(tail) == seq![tail]);
                        assert(tail =~= t@.subrange(start as int, i as int));
                        assert(first_line_from(split_nl(tail), 0) == Some(
                            t@.subrange(start as int, end as int),
                        ));
                    }
                }
                return Some(line);
            }
            if i >= n {
                proof {
                    assert(split_nl(tail) == seq![tail]);
                    assert(strip_cr(tail).len() == 0);
                    assert(first_line_from(seq![tail], 1) is None);
                    assert(first_line_from(split_nl(tail), 0) is None);
                }
                return None;
            }
            proof {
                assert(first_line_from(split_nl(tail), 0) == first_line_from(
                    split_nl(t@.skip(i as int + 1)),
                    0,
                )) by {
                    lemma_split_nl_len(t@.skip(i as int + 1));
                    lemma_first_line_shift(
                        t@.subrange(start as int, i as int),
                        split_nl(t@.skip(i as int + 1)),
                        1,
                    );
                    assert(split_nl(tail) == seq![t@.subrange(start as int, i as int)] + split_nl(
                        t@.skip(i as int + 1),
                    ));
                    assert(split_nl(tail)[0] == t@.subrange(start as int, i as int));
                    assert(strip_cr(split_nl(tail)[0]).len() == 0);
                    assert(first_line_from(split_nl(tail), 0) == first_line_from(
                        split_nl(tail),
                        1,
                    ));
                }
            }
            start = i + 1;
        }
        i = i + 1;
    }
}

/// Skipping the head of a line list shifts the search index by one.
pub proof fn lemma_first_line_shift(x: Seq<char>, ls: Seq<Seq<char>>, k: int)
    requires
        1 <= k <= ls.len() + 1,
    ensures
        first_line_from(seq![x] + ls, k) == first_line_from(ls, k - 1),
    decreases ls.len() + 1 - k,
{
    let whole = seq![x] + ls;
    if k >= whole.len() {
    } else {
        assert(whole[k] == ls[k - 1]);
        if strip_cr(whole[k]).len() > 0 {
        } else {
            lemma_first_line_shift(x, ls, k + 1);
        }
    }
}

/// Strips a heading marker from a line.
pub fn strip_heading(l: &str) -> (r: String)
    ensures
        r@ == title_of_line(l@),
{
    let n = l.unicode_len();
    if n == 0 || l.get_char(0) != '#' {
        return String::from_str(l);
    }
    let mut i: usize = 0;
    while i < n && l.get_char(i) == '#'
        invariant
            i <= n,
            n == l@.len(),
            forall|j: int| 0 <= j < i ==> l@[j] == '#',
        decreases n - i,
    {
        i = i + 1;
    }
    proof {
        lemma_drop_hashes_skip(l@, i as int);
        assert(drop_hashes(l@) == l@.skip(i as int));
    }
    let mut j: usize = i;
    while j < n && is_space_exec(l.get_char(j))
        invariant
            i <= j <= n,
            n == l@.len(),
            forall|jj: int| 0 <= jj < i ==> l@[jj] == '#',
            i < n ==> l@[i as int] != '#',
            drop_hashes(l@) == l@.skip(i as int),
            forall|jj: int| i <= jj < j ==> is_space(#[trigger] l@[jj]),
        decreases n - j,
    {
        j = j + 1;
    }
    proof {
        assert forall|jj: int| 0 <= jj < j - i implies is_space(#[trigger] l@.skip(i as int)[jj])
            by {
            assert(l@.skip(i as int)[jj] == l@[i + jj]);
        }
        lemma_drop_spaces_skip(l@.skip(i as int), j - i);
        assert(l@.skip(i as int).skip(j - i) =~= l@.skip(j as int));
        assert(drop_spaces(drop_hashes(l@)) == l@.skip(j as int));
        assert(l@.subrange(j as int, n as int) =~= l@.skip(j as int));
    }
    String::from_str(l.substring_char(j, n))
}

/// The failure modes of content extraction: the text could not be
/// read at all, or it holds no non-empty line to take a title from.
#[derive(Debug)]
pub enum ContentError {
    Unreadable,
    NoContent,
}

impl MarkdownFile {
    /// The title and content of this entry. A folder entry turns its
    /// name into a title-cased heading. A file entry takes the
    /// caller-supplied file text: its title is the first non-empty
    /// line, stripped of its heading marker, and its content is the
    /// whole text; with no text the entry is unreadable, and with no
    /// non-empty line it has no content.
    pub fn content(&self, text: Option<&String>) -> (r: Result<(String, String), ContentError>)
        ensures
            self.is_folder ==> (r matches Ok(tc) && tc.0@ == title_cased(
                dash_to_space(self.name@),
            ) && tc.1@ == "# "@ + title_cased(dash_to_space(self.name@))),
            !self.is_folder ==> match text {
                Option::None => r matches Err(ContentError::Unreadable),
                Option::Some(t) => match title_line(t@) {
                    Option::None => r matches Err(ContentError::NoContent),
                    Option::Some(l) => (r matches Ok(tc) && tc.0@ == title_of_line(l) && tc.1@
                        == t@),
                },
            },
    {
        if self.is_folder {
            let spaced = dash_to_space_exec(self.name.as_str());
            let title = to_title_case(spaced.as_str());
            let content = String::from_str("# ").concat(title.as_str());
            return Ok((title, content));
        }
        match text {
            Option::None => Err(ContentError::Unreadable),
            Option::Some(t) => {
                match find_title_line(t.as_str()) {
                    Option::None => Err(ContentError::NoContent),
                    Option::Some(raw) => {
                        let title = strip_heading(raw.as_str());
                        Ok((title, clone_string(t)))
                    },
                }
            },
        }
    }
}

} // verus!
