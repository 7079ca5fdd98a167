//! Telling a file-path argument apart from inline stylesheet text.

use crate::chars::{chars_of, contains_char};
use vstd::prelude::*;

verus! {

/// Whether `s` ends in the four characters `.css`.
pub open spec fn ends_with_css(s: Seq<char>) -> bool {
    s.len() >= 4 && s[s.len() - 4] == '.' && s[s.len() - 3] == 'c' && s[s.len() - 2] == 's' && s[
        s.len() - 1
    ] == 's'
}

/// Whether `s` looks like a path to a stylesheet file rather than inline
/// text: it ends in `.css` or holds a path separator.
pub open spec fn likely_file_path(s: Seq<char>) -> bool {
    ends_with_css(s) || contains_char(s, '/') || contains_char(s, '\\')
}

/// Whether the argument looks like a stylesheet file path rather than
/// inline stylesheet text.
pub fn is_likely_file_path(s: &str) -> (r: bool)
    ensures
        r == likely_file_path(s@),
{
    let cs = chars_of(s);
    let n = cs.len();
    if n >= 4 && cs[n - 4] == '.' && cs[n - 3] == 'c' && cs[n - 2] == 's' && cs[n - 1] == 's' {
        return true;
    }
    let mut k: usize = 0;
    while k < n
        invariant
            cs@ == s@,
            n == cs@.len(),
            k <= n,
            forall|j: int| 0 <= j < k ==> cs@[j] != '/' && cs@[j] != '\\',
        decreases n - k,
    {
        if cs[k] == '/' || cs[k] == '\\' {
            return true;
        }
        k = k + 1;
    }
    proof {
        assert(!contains_char(s@, '/'));
        assert(!contains_char(s@, '\\'));
    }
    false
}

} // verus!
