//! Which entries of a directory walk are scanned.

use crate::text::chars_of;
use vstd::prelude::*;

verus! {

/// Whether a walk entry at `depth` below the root, with final path
/// component `name`, is left out together with everything under it: only a
/// `target` directory right under the root is.
pub fn skip_entry(depth: usize, name: Option<&str>) -> (r: bool)
    ensures
        r == (depth == 1 && name is Some && name->0@ == seq!['t', 'a', 'r', 'g', 'e', 't']),
{
    if depth != 1 {
        return false;
    }
    match name {
        None => false,
        Some(n) => {
            let cs = chars_of(n);
            let r = cs.len() == 6 && cs[0] == 't' && cs[1] == 'a' && cs[2] == 'r' && cs[3] == 'g'
                && cs[4] == 'e' && cs[5] == 't';
            assert(r ==> cs@ =~= seq!['t', 'a', 'r', 'g', 'e', 't']);
            r
        },
    }
}

/// Whether a file with extension `ext` is a source file to scan: only `rs`
/// is.
pub fn is_source_extension(ext: Option<&str>) -> (r: bool)
    ensures
        r == (ext is Some && ext->0@ == seq!['r', 's']),
{
    match ext {
        None => false,
        Some(e) => {
            let cs = chars_of(e);
            let r = cs.len() == 2 && cs[0] == 'r' && cs[1] == 's';
            assert(r ==> cs@ =~= seq!['r', 's']);
            r
        },
    }
}

} // verus!
