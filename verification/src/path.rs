//! Paths that name their scheme: `scheme:rest`.

use vstd::prelude::*;
use vstd::string::StrSliceExecFns;
use crate::text::{first_of, lemma_first_of_is};

verus! {

/// The scheme of a path: the text up to and with the first colon, if the path
/// holds a colon.
pub open spec fn scheme_of(path: Seq<char>) -> Option<Seq<char>> {
    if first_of(path, ':') < path.len() {
        Some(path.take(first_of(path, ':') + 1))
    } else {
        None
    }
}

/// The scheme of a path: the text up to and with the first colon, if the path
/// holds a colon.
pub fn scheme(path: &str) -> (found: Option<String>)
    ensures
        match found {
            Some(scheme) => scheme_of(path@) == Some(scheme@),
            None => scheme_of(path@) is None,
        },
{
    let len = path.unicode_len();
    let mut i: usize = 0;
    for c in iter: path.chars()
        invariant
            i == iter.index(),
            iter.seq() == path@,
            len == path@.len(),
            forall|k: int| 0 <= k < i ==> path@[k] != ':',
    {
        if c == ':' {
            proof {
                lemma_first_of_is(path@, ':', i as int);
            }
            let prefix = path.substring_char(0, i + 1);
            assert(prefix@ == path@.take(i + 1));
            return Some(prefix.to_owned());
        }
        i += 1;
    }
    proof {
        lemma_first_of_is(path@, ':', len as int);
    }
    None
}

} // verus!
