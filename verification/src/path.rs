//! Paths of the store's namespace.
//!
//! A path is text whose segments are separated by `'/'`; the empty path is
//! the root. The model of a path is its text, character by character. A
//! directory covers itself and whatever lies beneath it, and nothing else:
//! `"ab"` does not cover `"abc"`.

use vstd::prelude::*;
use vstd::utf8::{encode_utf8, encode_utf8_valid_utf8, is_char_boundary_start_end_of_seq};
use vstd::string::StringSliceAdditionalSpecFns;
use crate::text::{last_separator, lemma_all_separators, lemma_char_after_separator,
    lemma_encode_concat, lemma_encode_empty, lemma_encode_injective, lemma_encoding_of_prefix,
    lemma_no_separator, lemma_prefix_of_encoding, lemma_separator_encoding,
    lemma_separator_shows, lemma_separator_starts_char, lemma_split_text, same_bytes,
    starts_with, trimmed_len, SEPARATOR_BYTE};

verus! {

/// The character that separates the segments of a path.
pub const SEPARATOR: char = '/';

/// `dir` covers `path`: `path` is `dir` itself, or lies beneath it, which is
/// to say that it begins with `dir` followed by a separator.
pub open spec fn covers(dir: Seq<char>, path: Seq<char>) -> bool {
    path == dir || (dir.len() < path.len() && path.subrange(0, dir.len() as int) == dir
        && path[dir.len() as int] == SEPARATOR)
}

/// `path` lies strictly beneath `dir`.
pub open spec fn beneath(dir: Seq<char>, path: Seq<char>) -> bool {
    covers(dir, path) && path != dir
}

/// No character of `s` is the separator.
pub open spec fn separator_free(s: Seq<char>) -> bool {
    forall|i: int| 0 <= i < s.len() ==> s[i] != SEPARATOR
}

/// Every character of `s` is the separator.
pub open spec fn all_separators(s: Seq<char>) -> bool {
    forall|i: int| 0 <= i < s.len() ==> s[i] == SEPARATOR
}

/// The length of `path` without its trailing separators.
pub open spec fn normalized_len(path: Seq<char>) -> nat
    decreases path.len(),
{
    if path.len() > 0 && path.last() == SEPARATOR {
        normalized_len(path.drop_last())
    } else {
        path.len()
    }
}

/// `path` without its trailing separators. The root stays the root, and a
/// path made of separators alone becomes the root.
pub open spec fn normalized(path: Seq<char>) -> Seq<char> {
    path.subrange(0, normalized_len(path) as int)
}

/// The number of characters of `path` that stand before its last separator;
/// zero where it has none.
pub open spec fn parent_len(path: Seq<char>) -> nat
    decreases path.len(),
{
    if path.len() == 0 {
        0
    } else if path.last() == SEPARATOR {
        (path.len() - 1) as nat
    } else {
        parent_len(path.drop_last())
    }
}

/// The directory that holds `path`: what stands before the last separator,
/// and the root where `path` has a single segment.
pub open spec fn parent(path: Seq<char>) -> Seq<char> {
    path.subrange(0, parent_len(path) as int)
}

/// The last segment of `path`: what follows its last separator, and all of
/// `path` where it has none.
pub open spec fn last_segment(path: Seq<char>) -> Seq<char> {
    if separator_free(path) {
        path
    } else {
        path.subrange(parent_len(path) as int + 1, path.len() as int)
    }
}

/// `first`, a separator, then `second`, whatever `first` is.
pub open spec fn slash_joined(first: Seq<char>, second: Seq<char>) -> Seq<char> {
    first + seq![SEPARATOR] + second
}

/// The path of the entry `name` of the directory `dir`; the entries of the
/// root are named by their bare name.
pub open spec fn joined(dir: Seq<char>, name: Seq<char>) -> Seq<char> {
    if dir.len() == 0 {
        name
    } else {
        slash_joined(dir, name)
    }
}

/// What covers a directory covers all that the directory covers.
pub proof fn lemma_covers_transitive(a: Seq<char>, b: Seq<char>, c: Seq<char>)
    requires
        covers(a, b),
        covers(b, c),
    ensures
        covers(a, c),
{
    if a != b && b != c {
        assert(c.subrange(0, a.len() as int) =~= b.subrange(0, a.len() as int));
    }
}

/// Two directories that cover one path lie on one line of descent: the
/// shorter covers the longer, and at equal length they are the same.
pub proof fn lemma_covering_dirs_nest(a: Seq<char>, b: Seq<char>, path: Seq<char>)
    requires
        covers(a, path),
        covers(b, path),
        a.len() <= b.len(),
    ensures
        covers(a, b),
        a.len() == b.len() ==> a == b,
{
    if a.len() == b.len() {
        assert(a =~= path.subrange(0, a.len() as int));
        assert(b =~= path.subrange(0, a.len() as int));
    } else {
        assert(b =~= path.subrange(0, b.len() as int));
        assert(b.subrange(0, a.len() as int) =~= path.subrange(0, a.len() as int));
        assert(a =~= path.subrange(0, a.len() as int));
    }
}

/// A directory other than the root covers each of its entries, and none of
/// them is the directory itself.
pub proof fn lemma_dir_covers_entry(dir: Seq<char>, name: Seq<char>)
    requires
        dir.len() > 0,
    ensures
        beneath(dir, joined(dir, name)),
{
    let p = joined(dir, name);
    assert(p.subrange(0, dir.len() as int) =~= dir);
}

/// Normalizing removes the trailing separators and nothing else, and what
/// is normalized stays as it is.
pub proof fn lemma_normalized(path: Seq<char>)
    ensures
        normalized_len(path) <= path.len(),
        normalized(path).len() > 0 ==> normalized(path).last() != SEPARATOR,
        all_separators(path.subrange(normalized_len(path) as int, path.len() as int)),
        normalized(normalized(path)) == normalized(path),
    decreases path.len(),
{
    if path.len() > 0 && path.last() == SEPARATOR {
        let shorter = path.drop_last();
        lemma_normalized(shorter);
        assert(normalized(path) =~= normalized(shorter));
        let n = normalized_len(path) as int;
        assert forall|i: int| 0 <= i < path.len() - n implies path.subrange(n, path.len() as int)[i]
            == SEPARATOR by {
            if n + i < shorter.len() {
                assert(shorter.subrange(n, shorter.len() as int)[i] == path[n + i]);
            }
        }
    } else {
        assert(normalized(path) =~= path);
    }
}

/// The text that is left of a path once separators are taken from its end
/// until none stands there is the normalized path.
pub proof fn lemma_normalized_is(path: Seq<char>, head: Seq<char>, tail: Seq<char>)
    requires
        path == head + tail,
        all_separators(tail),
        head.len() > 0 ==> head.last() != SEPARATOR,
    ensures
        normalized(path) == head,
    decreases tail.len(),
{
    if tail.len() == 0 {
        assert(path =~= head);
        assert(normalized(path) =~= head);
    } else {
        assert(path.last() == tail[tail.len() - 1]);
        assert(path.drop_last() =~= head + tail.drop_last());
        lemma_normalized_is(path.drop_last(), head, tail.drop_last());
        lemma_normalized(path.drop_last());
        assert(normalized(path) =~= normalized(path.drop_last()));
    }
}

/// A path with a separator is its parent, a separator and its last segment,
/// and the last segment holds no separator. A path without a separator is
/// its own last segment, and its parent is the root.
pub proof fn lemma_parent_and_last_segment(path: Seq<char>)
    ensures
        parent_len(path) <= path.len(),
        separator_free(last_segment(path)),
        separator_free(path) ==> parent(path).len() == 0 && last_segment(path) == path,
        !separator_free(path) ==> path == slash_joined(parent(path), last_segment(path)),
    decreases path.len(),
{
    if path.len() == 0 {
    } else if path.last() == SEPARATOR {
        assert(!separator_free(path)) by {
            assert(path[path.len() - 1] == SEPARATOR);
        }
        assert(path =~= slash_joined(parent(path), last_segment(path)));
    } else {
        let shorter = path.drop_last();
        lemma_parent_and_last_segment(shorter);
        assert(parent(path) =~= parent(shorter));
        if separator_free(shorter) {
            assert(separator_free(path)) by {
                assert forall|i: int| 0 <= i < path.len() implies path[i] != SEPARATOR by {
                    if i < shorter.len() {
                        assert(shorter[i] == path[i]);
                    }
                }
            }
        } else {
            let w = choose|i: int| 0 <= i < shorter.len() && shorter[i] == SEPARATOR;
            assert(path[w] == SEPARATOR);
            assert(!separator_free(path));
            let head = parent(shorter);
            let tail = last_segment(shorter);
            assert(shorter == head + seq![SEPARATOR] + tail);
            assert(shorter.len() == head.len() + 1 + tail.len());
            assert(last_segment(path) =~= tail.push(path.last()));
            assert(path =~= shorter.push(path.last()));
            assert(path =~= slash_joined(head, tail.push(path.last())));
        }
    }
}

/// Where a path is `head`, a separator and a `name` without separators,
/// `head` is its parent and `name` its last segment.
pub proof fn lemma_parent_is(path: Seq<char>, head: Seq<char>, name: Seq<char>)
    requires
        path == slash_joined(head, name),
        separator_free(name),
    ensures
        !separator_free(path),
        parent_len(path) == head.len(),
        parent(path) == head,
        last_segment(path) == name,
    decreases name.len(),
{
    assert(path[head.len() as int] == SEPARATOR);
    assert(path.len() == head.len() + 1 + name.len());
    if name.len() == 0 {
        assert(path.last() == SEPARATOR);
    } else {
        assert(path.last() == name[name.len() - 1]);
        let shorter = path.drop_last();
        assert(shorter =~= slash_joined(head, name.drop_last()));
        lemma_parent_is(shorter, head, name.drop_last());
    }
    assert(parent(path) =~= head);
    assert(last_segment(path) =~= name);
}

/// Whether two texts are the same, character for character.
pub fn same_text(a: &str, b: &str) -> (r: bool)
    ensures
        r == (a@ == b@),
{
    let r = same_bytes(a.as_bytes(), b.as_bytes());
    proof {
        if r {
            lemma_encode_injective(a@, b@);
        }
    }
    r
}

/// Whether `text` begins with `start`.
pub fn begins_with(text: &str, start: &str) -> (r: bool)
    ensures
        r == start@.is_prefix_of(text@),
{
    let r = starts_with(text.as_bytes(), start.as_bytes());
    proof {
        if r {
            lemma_prefix_of_encoding(start@, text@);
        } else if start@.is_prefix_of(text@) {
            lemma_encoding_of_prefix(start@, text@);
        }
    }
    r
}

/// Whether the directory `dir` covers `path`.
pub fn covers_path(dir: &str, path: &str) -> (r: bool)
    ensures
        r == covers(dir@, path@),
{
    let d = dir.as_bytes();
    let p = path.as_bytes();
    let ghost with_slash = dir@ + seq![SEPARATOR];
    proof {
        lemma_separator_encoding();
        lemma_encode_concat(dir@, seq![SEPARATOR]);
        assert(dir@.is_prefix_of(with_slash));
        if covers(dir@, path@) && path@ != dir@ {
            assert(with_slash =~= path@.subrange(0, with_slash.len() as int));
            lemma_encoding_of_prefix(with_slash, path@);
            assert(d@ =~= encode_utf8(with_slash).subrange(0, d@.len() as int));
            assert(d@ =~= p@.subrange(0, d@.len() as int));
            assert(p@[d@.len() as int] == encode_utf8(with_slash)[d@.len() as int]);
        }
    }
    if !starts_with(p, d) {
        return false;
    }
    if d.len() == p.len() {
        proof {
            assert(p@ =~= d@);
            lemma_encode_injective(dir@, path@);
        }
        return true;
    }
    let r = p[d.len()] == SEPARATOR_BYTE;
    proof {
        if r {
            assert(encode_utf8(with_slash) =~= p@.subrange(0, d@.len() as int + 1));
            lemma_prefix_of_encoding(with_slash, path@);
            assert(path@.subrange(0, dir@.len() as int) =~= dir@);
            assert(path@[dir@.len() as int] == with_slash[dir@.len() as int]);
        } else {
            if path@ == dir@ {
                assert(p@ == d@);
            }
        }
    }
    r
}

/// `path` without its trailing separators.
pub fn normalize(path: &str) -> (r: &str)
    ensures
        r@ == normalized(path@),
{
    let n = trimmed_len(path.as_bytes());
    proof {
        let bytes = encode_utf8(path@);
        encode_utf8_valid_utf8(path@);
        if n < bytes.len() {
            assert(bytes.subrange(n as int, bytes.len() as int)[0] == SEPARATOR_BYTE);
            lemma_separator_starts_char(bytes, n as int);
        } else {
            is_char_boundary_start_end_of_seq(bytes);
        }
    }
    let (head, tail) = path.split_at(n);
    proof {
        let bytes = encode_utf8(path@);
        assert(bytes =~= encode_utf8(head@) + encode_utf8(tail@));
        lemma_split_text(path@, head@, tail@);
        lemma_all_separators(tail@);
        if head@.len() > 0 && head@.last() == SEPARATOR {
            lemma_separator_shows(head@, head@.len() - 1);
            assert(encode_utf8(head@).last() == bytes[n - 1]);
        }
        lemma_normalized_is(path@, head@, tail@);
    }
    head
}

/// The two parts of `path` around its last separator: the directory that
/// holds it and its last segment.
pub fn split_last(path: &str) -> (r: (&str, &str))
    ensures
        r.0@ == parent(path@),
        r.1@ == last_segment(path@),
{
    match last_separator(path.as_bytes()) {
        Some(n) => {
            proof {
                encode_utf8_valid_utf8(path@);
                lemma_separator_starts_char(encode_utf8(path@), n as int);
            }
            let (head, tail) = path.split_at(n);
            proof {
                encode_utf8_valid_utf8(tail@);
                assert(encode_utf8(tail@)[0] == encode_utf8(path@)[n as int]);
                lemma_char_after_separator(encode_utf8(tail@));
            }
            let (slash, name) = tail.split_at(1);
            proof {
                let bytes = encode_utf8(path@);
                lemma_separator_encoding();
                assert(encode_utf8(slash@) =~= seq![SEPARATOR_BYTE]);
                lemma_encode_injective(slash@, seq![SEPARATOR]);
                assert(encode_utf8(tail@) =~= encode_utf8(slash@) + encode_utf8(name@));
                lemma_split_text(tail@, slash@, name@);
                assert(bytes =~= encode_utf8(head@) + encode_utf8(tail@));
                lemma_split_text(path@, head@, tail@);
                assert(encode_utf8(name@) =~= bytes.subrange(n + 1, bytes.len() as int));
                lemma_no_separator(name@);
                assert(path@ =~= slash_joined(head@, name@));
                lemma_parent_is(path@, head@, name@);
            }
            (head, name)
        },
        None => {
            proof {
                encode_utf8_valid_utf8(path@);
                is_char_boundary_start_end_of_seq(encode_utf8(path@));
            }
            let (head, _rest) = path.split_at(0);
            proof {
                lemma_encode_empty(head@);
                lemma_no_separator(path@);
                lemma_parent_and_last_segment(path@);
                assert(head@ =~= parent(path@));
            }
            (head, path)
        },
    }
}

/// The directory that holds `path`.
pub fn parent_dir(path: &str) -> (r: &str)
    ensures
        r@ == parent(path@),
{
    split_last(path).0
}

/// The last segment of `path`: the name of the entry that it leads to.
pub fn file_name(path: &str) -> (r: &str)
    ensures
        r@ == last_segment(path@),
{
    split_last(path).1
}

/// `first`, a separator, then `second`.
pub fn slash_join(first: &str, second: &str) -> (r: String)
    ensures
        r@ == slash_joined(first@, second@),
{
    proof {
        lemma_separator_encoding();
    }
    String::from_str(first).concat("/").concat(second)
}

/// The path of the entry `name` of the directory `dir`.
pub fn child_path(dir: &str, name: &str) -> (r: String)
    ensures
        r@ == joined(dir@, name@),
{
    if dir.is_empty() {
        name.to_owned()
    } else {
        slash_join(dir, name)
    }
}

} // verus!
