//! Splitting a file name into stem and extension.

use vstd::prelude::*;

verus! {

/// The index of the last `.` in `name`, or `-1` if it holds none.
pub open spec fn last_dot(name: Seq<char>) -> int
    decreases name.len(),
{
    if name.len() == 0 {
        -1
    } else if name.last() == '.' {
        name.len() - 1
    } else {
        last_dot(name.drop_last())
    }
}

/// Whether `name` carries an extension: it holds a `.` that is not its first
/// character, and it is not the parent-directory name `..`.
pub open spec fn has_extension(name: Seq<char>) -> bool {
    last_dot(name) > 0 && name != seq!['.', '.']
}

/// The name without its final extension segment and the dot before it; the
/// whole name where it has no extension.
pub open spec fn stem_of(name: Seq<char>) -> Seq<char> {
    if has_extension(name) {
        name.subrange(0, last_dot(name))
    } else {
        name
    }
}

/// What follows the last dot of a name that has an extension; empty otherwise.
pub open spec fn extension_of(name: Seq<char>) -> Seq<char> {
    if has_extension(name) {
        name.subrange(last_dot(name) + 1, name.len() as int)
    } else {
        Seq::empty()
    }
}

/// `last_dot` is `-1` exactly when no character is a dot; otherwise it is the
/// position of a dot with no dot behind it.
pub proof fn lemma_last_dot(name: Seq<char>)
    ensures
        -1 <= last_dot(name) < name.len(),
        last_dot(name) >= 0 ==> name[last_dot(name)] == '.',
        forall|j: int| last_dot(name) < j < name.len() ==> name[j] != '.',
    decreases name.len(),
{
    if name.len() > 0 && name.last() != '.' {
        let front = name.drop_last();
        lemma_last_dot(front);
        assert forall|j: int| last_dot(name) < j < name.len() implies name[j] != '.' by {
            if j < front.len() {
                assert(front[j] == name[j]);
            }
        }
    }
}

/// A position that holds a dot with no dot behind it is `last_dot`.
pub proof fn lemma_last_dot_unique(name: Seq<char>, k: int)
    requires
        0 <= k < name.len(),
        name[k] == '.',
        forall|j: int| k < j < name.len() ==> name[j] != '.',
    ensures
        last_dot(name) == k,
{
    lemma_last_dot(name);
}

/// A name without any dot has no extension.
pub proof fn lemma_no_dot(name: Seq<char>)
    requires
        forall|j: int| 0 <= j < name.len() ==> name[j] != '.',
    ensures
        last_dot(name) == -1,
        !has_extension(name),
{
    lemma_last_dot(name);
}

/// A name that has an extension is its stem, a dot and its extension.
pub proof fn lemma_name_rejoins(name: Seq<char>)
    ensures
        has_extension(name) ==> name == stem_of(name) + seq!['.'] + extension_of(name),
        has_extension(name) ==> stem_of(name).len() > 0 && !extension_of(name).contains('.'),
        !has_extension(name) ==> stem_of(name) == name && extension_of(name).len() == 0,
{
    lemma_last_dot(name);
    if has_extension(name) {
        let at = last_dot(name);
        assert(name =~= name.subrange(0, at) + seq!['.'] + name.subrange(at + 1, name.len() as int));
        let extension = extension_of(name);
        assert forall|j: int| 0 <= j < extension.len() implies extension[j] != '.' by {
            assert(extension[j] == name[at + 1 + j]);
        }
    }
}

/// A stem that is not empty, joined by a dot to an extension that holds no
/// dot, makes a name with that stem and that extension, unless the name
/// made is `..`.
pub proof fn lemma_split_of_join(stem: Seq<char>, extension: Seq<char>)
    requires
        stem.len() > 0,
        !extension.contains('.'),
        !(stem == seq!['.'] && extension.len() == 0),
    ensures
        has_extension(stem + seq!['.'] + extension),
        stem_of(stem + seq!['.'] + extension) == stem,
        extension_of(stem + seq!['.'] + extension) == extension,
{
    let name = stem + seq!['.'] + extension;
    let at = stem.len() as int;
    assert(name[at] == '.');
    assert forall|j: int| at < j < name.len() implies name[j] != '.' by {
        assert(name[j] == extension[j - at - 1]);
        assert(extension.contains(extension[j - at - 1]));
    }
    lemma_last_dot_unique(name, at);
    if name == seq!['.', '.'] {
        assert(name.len() == 2);
        assert(stem =~= seq!['.']);
    }
    assert(name.subrange(0, at) =~= stem);
    assert(name.subrange(at + 1, name.len() as int) =~= extension);
}

/// Splits a file name into its stem and its extension.
pub fn split_name(name: &str) -> (parts: (String, String))
    ensures
        parts.0@ == stem_of(name@),
        parts.1@ == extension_of(name@),
{
    let n: usize = name.unicode_len();
    let mut i: usize = n;
    while i > 0 && name.get_char(i - 1) != '.'
        invariant
            i <= n,
            n == name@.len(),
            forall|j: int| i <= j < n ==> name@[j] != '.',
        decreases i,
    {
        i = i - 1;
    }
    proof {
        if i == 0 {
            lemma_no_dot(name@);
        } else {
            lemma_last_dot_unique(name@, i - 1);
        }
    }
    if i <= 1 {
        return (name.to_owned(), String::new());
    }
    if n == 2 && name.get_char(0) == '.' {
        assert(name@ =~= seq!['.', '.']);
        return (name.to_owned(), String::new());
    }
    assert(name@ != seq!['.', '.']) by {
        if name@ == seq!['.', '.'] {
            assert(seq!['.', '.'].len() == 2);
            assert(seq!['.', '.'][0] == '.');
        }
    }
    let stem = name.substring_char(0, i - 1).to_owned();
    let extension = name.substring_char(i, n).to_owned();
    (stem, extension)
}

} // verus!
