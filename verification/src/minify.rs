//! Textual minification: comments are dropped and whitespace runs collapse
//! to at most one space, which is itself suppressed after `{`, `}`, `:`, `;`
//! or `,`.

use crate::chars::{chars_of, is_space, is_space_char, string_from_chars};
use vstd::prelude::*;

verus! {

/// Characters after which a separating space is never needed.
pub open spec fn suppress_after(c: char) -> bool {
    c == '{' || c == '}' || c == ':' || c == ';' || c == ','
}

/// The minified text from position `i` on, where `last` is the most recently
/// emitted character and `in_comment` says whether the scan stands inside a
/// `/* ... */` span.
pub open spec fn minify_from(
    s: Seq<char>,
    i: int,
    last: Option<char>,
    in_comment: bool,
) -> Seq<char>
    decreases s.len() - i,
{
    if !(0 <= i < s.len()) {
        Seq::empty()
    } else if in_comment {
        if i + 1 < s.len() && s[i] == '*' && s[i + 1] == '/' {
            minify_from(s, i + 2, last, false)
        } else {
            minify_from(s, i + 1, last, true)
        }
    } else if i + 1 < s.len() && s[i] == '/' && s[i + 1] == '*' {
        minify_from(s, i + 2, last, true)
    } else if is_space_char(s[i]) {
        match last {
            Some(lc) => {
                if lc != ' ' && !suppress_after(lc) {
                    seq![' '] + minify_from(s, i + 1, Some(' '), false)
                } else {
                    minify_from(s, i + 1, last, false)
                }
            },
            None => minify_from(s, i + 1, last, false),
        }
    } else {
        seq![s[i]] + minify_from(s, i + 1, Some(s[i]), false)
    }
}

/// The whole minified text of `s`.
pub open spec fn minify_text(s: Seq<char>) -> Seq<char> {
    minify_from(s, 0, None, false)
}

/// Minifies a stylesheet's text without touching its structure: no
/// declaration is rewritten, only comments and insignificant whitespace go.
pub fn minify_css(css: &str) -> (r: String)
    ensures
        r@ == minify_text(css@),
{
    let cs = chars_of(css);
    let n = cs.len();
    let mut out: Vec<char> = Vec::new();
    let mut last: Option<char> = None;
    let mut in_comment: bool = false;
    let mut i: usize = 0;
    while i < n
        invariant
            cs@ == css@,
            n == cs@.len(),
            i <= n,
            minify_text(css@) == out@ + minify_from(css@, i as int, last, in_comment),
        decreases n - i,
    {
        let ghost prev_out = out@;
        let c = cs[i];
        if in_comment {
            if c == '*' && i + 1 < n && cs[i + 1] == '/' {
                i = i + 2;
                in_comment = false;
            } else {
                i = i + 1;
            }
        } else if c == '/' && i + 1 < n && cs[i + 1] == '*' {
            i = i + 2;
            in_comment = true;
        } else if is_space(c) {
            let emit = match last {
                Some(lc) => lc != ' ' && !(lc == '{' || lc == '}' || lc == ':' || lc == ';' || lc
                    == ','),
                None => false,
            };
            if emit {
                out.push(' ');
                last = Some(' ');
            }
            i = i + 1;
            proof {
                if emit {
                    assert(out@ =~= prev_out + seq![' ']);
                    assert(prev_out + seq![' '] + minify_from(css@, i as int, last, false)
                        =~= prev_out + (seq![' '] + minify_from(css@, i as int, last, false)));
                }
            }
        } else {
            out.push(c);
            last = Some(c);
            i = i + 1;
            proof {
                assert(out@ =~= prev_out + seq![c]);
                assert(prev_out + seq![c] + minify_from(css@, i as int, last, false) =~= prev_out
                    + (seq![c] + minify_from(css@, i as int, last, false)));
            }
        }
    }
    proof {
        assert(out@ + minify_from(css@, n as int, last, in_comment) =~= out@);
    }
    string_from_chars(&out)
}

} // verus!
