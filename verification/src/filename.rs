//! The parts of a directory entry's name.

use vstd::prelude::*;
use crate::text::{chars_of, same_text};

verus! {

/// Where the extension of a file name begins: the last dot, unless the name
/// starts with it or is the parent directory's.
pub open spec fn extension_dot(name: Seq<char>) -> Option<int> {
    match name.index_of_last('.') {
        Some(i) => if i > 0 && name != ".."@ {
            Some(i)
        } else {
            None
        },
        None => None,
    }
}

/// The part of a file name after its last dot.
pub open spec fn extension(name: Seq<char>) -> Option<Seq<char>> {
    match extension_dot(name) {
        Some(i) => Some(name.skip(i + 1)),
        None => None,
    }
}

/// The part of a file name before its extension.
pub open spec fn stem(name: Seq<char>) -> Seq<char> {
    match extension_dot(name) {
        Some(i) => name.take(i),
        None => name,
    }
}

/// Finds where the extension of a file name begins.
fn find_extension_dot(name: &str) -> (r: Option<usize>)
    ensures
        match r {
            Some(i) => extension_dot(name@) == Some(i as int) && i < name@.len(),
            None => extension_dot(name@) is None,
        },
{
    let chars = chars_of(name);
    proof {
        name@.index_of_last_ensures('.');
    }
    if same_text(name, "..") {
        return None;
    }
    let mut i: usize = chars.len();
    while i > 1
        invariant
            chars@ == name@,
            i <= name@.len(),
            name@ != ".."@,
            forall|j: int| i <= j < name@.len() ==> name@[j] != '.',
        decreases i,
    {
        i = i - 1;
        if chars[i] == '.' {
            proof {
                name@.index_of_last_ensures('.');
                assert(name@.contains('.'));
            }
            return Some(i);
        }
    }
    None
}

/// Whether a file name has the given extension.
pub fn has_extension(name: &str, wanted: &str) -> (r: bool)
    ensures
        r == (extension(name@) == Some(wanted@)),
{
    match find_extension_dot(name) {
        Some(i) => {
            let len = name.unicode_len();
            let found = name.substring_char(i + 1, len);
            assert(found@ =~= name@.skip(i + 1));
            same_text(found, wanted)
        },
        None => false,
    }
}

/// The part of a file name before its extension.
pub fn file_stem(name: &str) -> (r: &str)
    ensures
        r@ == stem(name@),
{
    match find_extension_dot(name) {
        Some(i) => {
            let r = name.substring_char(0, i);
            assert(r@ =~= name@.take(i as int));
            r
        },
        None => name,
    }
}

/// A name put together from a stem and an extension comes apart into them
/// again, as long as the stem is not empty, the extension holds no dot and the
/// whole is not the parent directory's name.
pub proof fn law_name_splits_where_it_was_joined(base: Seq<char>, ext: Seq<char>)
    requires
        base.len() > 0,
        !ext.contains('.'),
        base + seq!['.'] + ext != ".."@,
    ensures
        stem(base + seq!['.'] + ext) == base,
        extension(base + seq!['.'] + ext) == Some(ext),
{
    let name = base + seq!['.'] + ext;
    let dot = base.len() as int;
    name.index_of_last_ensures('.');
    assert(name[dot] == '.');
    assert(name.contains('.'));
    let i = name.index_of_last('.')->0;
    assert forall|j: int| dot < j < name.len() implies name[j] != '.' by {
        assert(name[j] == ext[j - dot - 1]);
    }
    assert(i == dot);
    assert(name.take(dot) =~= base);
    assert(name.skip(dot + 1) =~= ext);
}

/// A file name is its stem, a dot and its extension, if it has one: the
/// extension holds no dot and the stem is not empty. A name without an extension
/// is its own stem; it is the parent directory's, or has no dot but perhaps in
/// front.
pub proof fn law_extension_follows_the_last_dot(name: Seq<char>)
    ensures
        match extension(name) {
            Some(ext) => {
                &&& name == stem(name) + seq!['.'] + ext
                &&& stem(name).len() > 0
                &&& !ext.contains('.')
                &&& name != ".."@
            },
            None => {
                &&& stem(name) == name
                &&& name == ".."@ || forall|i: int| 0 < i < name.len() ==> #[trigger] name[i] != '.'
            },
        },
{
    name.index_of_last_ensures('.');
    match extension_dot(name) {
        Some(i) => {
            let ext = name.skip(i + 1);
            assert(name =~= name.take(i) + seq!['.'] + ext);
            if ext.contains('.') {
                let k = choose|k: int| 0 <= k < ext.len() && ext[k] == '.';
                assert(name[i + 1 + k] == '.');
            }
        },
        None => {
            if name != ".."@ {
                assert forall|i: int| 0 < i < name.len() implies #[trigger] name[i] != '.' by {
                    if name[i] == '.' {
                        assert(name.contains('.'));
                    }
                }
            }
        },
    }
}

/// A name has an extension without dots exactly when it ends in a dot and that
/// extension, with something before.
pub proof fn law_extension_is_an_ending(name: Seq<char>, ext: Seq<char>)
    requires
        ext.len() > 0,
        !ext.contains('.'),
    ensures
        extension(name) == Some(ext) <==> name.len() > ext.len() + 1 && name.skip(
            name.len() - ext.len() - 1,
        ) == seq!['.'] + ext,
        extension(name) == Some(ext) ==> stem(name) == name.take(name.len() - ext.len() - 1),
{
    law_extension_follows_the_last_dot(name);
    let at = name.len() - ext.len() - 1;
    if extension(name) == Some(ext) {
        assert(name.skip(at) =~= seq!['.'] + ext);
        assert(name.take(at) =~= stem(name));
    }
    if name.len() > ext.len() + 1 && name.skip(at) == seq!['.'] + ext {
        let base = name.take(at);
        assert(name =~= base + name.skip(at));
        assert(base + (seq!['.'] + ext) =~= base + seq!['.'] + ext);
        if name == ".."@ {
            reveal_strlit("..");
            assert(false);
        }
        law_name_splits_where_it_was_joined(base, ext);
    }
}

} // verus!
