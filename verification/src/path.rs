//! Site-relative paths: `/`-joined entry names.

use crate::text::{
    find_char, first_index_of, lemma_first_index_bounds, lemma_first_index_concat, split_on,
    split_text, texts,
};
use vstd::prelude::*;
use vstd::string::*;

verus! {

/// The path of the entry `name` in the directory at `prefix`.
pub open spec fn child_path(prefix: Seq<char>, name: Seq<char>) -> Seq<char> {
    if prefix.len() == 0 {
        name
    } else {
        prefix + seq!['/'] + name
    }
}

/// `path` without its first segment: what follows the first `/`, or all of
/// `path` where it holds none.
pub open spec fn without_first_segment(path: Seq<char>) -> Seq<char> {
    let i = first_index_of(path, '/');
    if i < path.len() {
        path.subrange(i + 1, path.len() as int)
    } else {
        path
    }
}

/// Normalize a file path by removing its base folder: everything up to and
/// including the first `/`. A path without `/` is returned as it is.
pub fn normalize_path(path: &str) -> (rest: String)
    ensures
        rest@ == without_first_segment(path@),
{
    let n = path.unicode_len();
    let at = find_char(path, '/');
    if at < n {
        path.substring_char(at + 1, n).to_owned()
    } else {
        path.to_owned()
    }
}

/// Join a directory's path and the name of one of its entries.
pub fn join_path(prefix: &str, name: &str) -> (full: String)
    ensures
        full@ == child_path(prefix@, name@),
{
    if prefix.unicode_len() == 0 {
        name.to_owned()
    } else {
        let mut full = prefix.to_owned();
        proof {
            reveal_strlit("/");
        }
        full.append("/");
        full.append(name);
        assert("/"@ =~= seq!['/']);
        full
    }
}

/// The segments of a path: the texts between its `/` separators. A path
/// without `/` is one segment, the empty path too.
pub open spec fn split_path(path: Seq<char>) -> Seq<Seq<char>> {
    split_on(path, '/')
}

/// Whether a name holds no `/`.
pub open spec fn no_slash(name: Seq<char>) -> bool {
    first_index_of(name, '/') == name.len()
}

/// The segments that a directory's path gives to the paths below it: none
/// for the root, whose path is empty.
pub open spec fn base_segments(prefix: Seq<char>) -> Seq<Seq<char>> {
    if prefix.len() == 0 {
        Seq::empty()
    } else {
        split_path(prefix)
    }
}

/// A name without `/`, joined to a path by `/`, is one more segment.
pub proof fn lemma_split_append(p: Seq<char>, name: Seq<char>)
    requires
        no_slash(name),
    ensures
        split_on(p + seq!['/'] + name, '/') == split_on(p, '/') + seq![name],
    decreases p.len(),
{
    let tail = seq!['/'] + name;
    let q = p + seq!['/'] + name;
    assert(q == p + tail);
    let i = first_index_of(p, '/');
    lemma_first_index_bounds(p, '/');
    lemma_first_index_concat(p, tail, '/');
    assert(tail[0] == '/');
    assert(first_index_of(tail, '/') == 0);
    if i < p.len() {
        assert(q.take(i) == p.take(i));
        assert(q.skip(i + 1) == p.skip(i + 1) + seq!['/'] + name);
        lemma_split_append(p.skip(i + 1), name);
        assert(seq![p.take(i)] + (split_on(p.skip(i + 1), '/') + seq![name]) == seq![p.take(i)]
            + split_on(p.skip(i + 1), '/') + seq![name]);
    } else {
        assert(first_index_of(q, '/') == p.len());
        assert(q.take(p.len() as int) == p);
        assert(q.skip(p.len() as int + 1) == name);
        assert(split_on(name, '/') == seq![name]);
        assert(split_on(p, '/') == seq![p]);
    }
}

/// The path of an entry whose name holds no `/` is the directory's path
/// and one more segment.
pub proof fn lemma_split_child(prefix: Seq<char>, name: Seq<char>)
    requires
        no_slash(name),
    ensures
        split_path(child_path(prefix, name)) == base_segments(prefix) + seq![name],
{
    if prefix.len() == 0 {
        assert(split_on(name, '/') == seq![name]);
        assert(Seq::<Seq<char>>::empty() + seq![name] == seq![name]);
    } else {
        lemma_split_append(prefix, name);
    }
}

/// Split a path at its `/` separators.
pub fn split_segments(path: &str) -> (segments: Vec<String>)
    ensures
        texts(segments@) == split_path(path@),
        segments@.len() >= 1,
{
    split_text(path, '/')
}

} // verus!
