//! Splitting a stylesheet into its top-level rule blocks.
//!
//! A single left-to-right scan tracks brace depth and skips comment spans;
//! each time the depth returns to zero at a `}` the accumulated block is
//! emitted as one rule. Trailing unbalanced content is dropped.

use crate::chars::{chars_of, string_from_chars, trim_chars, trim_spec};
use vstd::prelude::*;

verus! {

/// The rule blocks still to be produced from position `i` of `s`, where `buf`
/// holds the characters of the unfinished block, `depth` is the current brace
/// depth, and `in_comment` says whether the scan stands inside a `/* ... */`
/// span.
pub open spec fn split_rules_from(
    s: Seq<char>,
    i: int,
    buf: Seq<char>,
    depth: int,
    in_comment: bool,
) -> Seq<Seq<char>>
    decreases s.len() - i,
{
    if i < 0 || i >= s.len() {
        Seq::empty()
    } else if in_comment {
        if i + 1 < s.len() && s[i] == '*' && s[i + 1] == '/' {
            split_rules_from(s, i + 2, buf, depth, false)
        } else {
            split_rules_from(s, i + 1, buf, depth, true)
        }
    } else if i + 1 < s.len() && s[i] == '/' && s[i + 1] == '*' {
        split_rules_from(s, i + 2, buf, depth, true)
    } else if s[i] == '{' {
        split_rules_from(s, i + 1, buf.push('{'), depth + 1, false)
    } else if s[i] == '}' {
        if depth == 1 {
            seq![trim_spec(buf.push('}'))] + split_rules_from(s, i + 1, Seq::empty(), 0, false)
        } else {
            split_rules_from(s, i + 1, buf.push('}'), depth - 1, false)
        }
    } else {
        split_rules_from(s, i + 1, buf.push(s[i]), depth, false)
    }
}

/// The top-level rule blocks of `s`, in source order, each trimmed.
pub open spec fn split_rules(s: Seq<char>) -> Seq<Seq<char>> {
    split_rules_from(s, 0, Seq::empty(), 0, false)
}

/// Partitions a stylesheet into its top-level `selector { declarations }`
/// blocks, skipping comments; unterminated trailing content is dropped.
pub fn parse_css_rules(css: &str) -> (rules: Vec<String>)
    ensures
        rules@.map_values(|r: String| r@) == split_rules(css@),
{
    let cs = chars_of(css);
    let n = cs.len();
    let mut rules: Vec<String> = Vec::new();
    let mut buf: Vec<char> = Vec::new();
    let mut depth: i128 = 0;
    let mut in_comment: bool = false;
    let mut i: usize = 0;
    while i < n
        invariant
            cs@ == css@,
            n == cs@.len(),
            i <= n,
            -(i as int) <= depth as int && depth as int <= i as int,
            split_rules(css@) == rules@.map_values(|r: String| r@) + split_rules_from(
                css@,
                i as int,
                buf@,
                depth as int,
                in_comment,
            ),
        decreases n - i,
    {
        let c = cs[i];
        if in_comment {
            if c == '*' && i + 1 < n && cs[i + 1] == '/' {
                i = i + 2;
                in_comment = false;
            } else {
                i = i + 1;
            }
        } else if c == '/' && i + 1 < n && cs[i + 1] == '*' {
            i = i + 2;
            in_comment = true;
        } else if c == '{' {
            buf.push('{');
            depth = depth + 1;
            i = i + 1;
        } else if c == '}' {
            if depth == 1 {
                buf.push('}');
                let t = trim_chars(&buf);
                let rule = string_from_chars(&t);
                let ghost old_rules = rules@;
                rules.push(rule);
                buf = Vec::new();
                depth = 0;
                i = i + 1;
                proof {
                    assert(rules@.map_values(|r: String| r@) =~= old_rules.map_values(
                        |r: String| r@,
                    ).push(rule@));
                    assert(old_rules.map_values(|r: String| r@).push(rule@) + split_rules_from(
                        css@,
                        i as int,
                        buf@,
                        0,
                        false,
                    ) =~= old_rules.map_values(|r: String| r@) + (seq![rule@] + split_rules_from(
                        css@,
                        i as int,
                        buf@,
                        0,
                        false,
                    )));
                }
            } else {
                buf.push('}');
                depth = depth - 1;
                i = i + 1;
            }
        } else {
            buf.push(c);
            i = i + 1;
        }
    }
    proof {
        assert(rules@.map_values(|r: String| r@) + split_rules_from(
            css@,
            n as int,
            buf@,
            depth as int,
            in_comment,
        ) =~= rules@.map_values(|r: String| r@));
    }
    rules
}

/// The state the splitter's scan leaves behind at the end of the input: the
/// unemitted buffer and whether the scan stood inside a comment.
pub open spec fn split_leftover(
    s: Seq<char>,
    i: int,
    buf: Seq<char>,
    depth: int,
    in_comment: bool,
) -> (Seq<char>, bool)
    decreases s.len() - i,
{
    if i < 0 || i >= s.len() {
        (buf, in_comment)
    } else if in_comment {
        if i + 1 < s.len() && s[i] == '*' && s[i + 1] == '/' {
            split_leftover(s, i + 2, buf, depth, false)
        } else {
            split_leftover(s, i + 1, buf, depth, true)
        }
    } else if i + 1 < s.len() && s[i] == '/' && s[i + 1] == '*' {
        split_leftover(s, i + 2, buf, depth, true)
    } else if s[i] == '{' {
        split_leftover(s, i + 1, buf.push('{'), depth + 1, false)
    } else if s[i] == '}' {
        if depth == 1 {
            split_leftover(s, i + 1, Seq::empty(), 0, false)
        } else {
            split_leftover(s, i + 1, buf.push('}'), depth - 1, false)
        }
    } else {
        split_leftover(s, i + 1, buf.push(s[i]), depth, false)
    }
}

/// The note reported for a comment that never closes.
pub open spec fn unterminated_comment_note() -> Seq<char> {
    "unterminated comment"@
}

/// The note reported for trailing content whose rule never closes.
pub open spec fn dropped_content_note() -> Seq<char> {
    "unterminated trailing content dropped"@
}

/// The parse issues the permissive scan absorbs silently: an unterminated
/// comment, and non-whitespace trailing content that never closed its rule.
pub open spec fn parse_warnings(css: Seq<char>) -> Seq<Seq<char>> {
    let lo = split_leftover(css, 0, Seq::empty(), 0, false);
    (if lo.1 {
        seq![unterminated_comment_note()]
    } else {
        Seq::<Seq<char>>::empty()
    }) + (if trim_spec(lo.0).len() > 0 {
        seq![dropped_content_note()]
    } else {
        Seq::<Seq<char>>::empty()
    })
}

/// Reports, without changing any output, what the permissive splitter drops:
/// a warning when the input ends inside a comment, and one when trailing
/// content never closed its rule. Empty for cleanly terminated input.
pub fn parse_css_diagnostics(css: &str) -> (w: Vec<String>)
    ensures
        w@.map_values(|x: String| x@) == parse_warnings(css@),
{
    let cs = chars_of(css);
    let n = cs.len();
    let mut buf: Vec<char> = Vec::new();
    let mut depth: i128 = 0;
    let mut in_comment: bool = false;
    let mut i: usize = 0;
    while i < n
        invariant
            cs@ == css@,
            n == cs@.len(),
            i <= n,
            -(i as int) <= depth as int && depth as int <= i as int,
            split_leftover(css@, 0, Seq::empty(), 0, false) == split_leftover(
                css@,
                i as int,
                buf@,
                depth as int,
                in_comment,
            ),
        decreases n - i,
    {
        let c = cs[i];
        if in_comment {
            if c == '*' && i + 1 < n && cs[i + 1] == '/' {
                i = i + 2;
                in_comment = false;
            } else {
                i = i + 1;
            }
        } else if c == '/' && i + 1 < n && cs[i + 1] == '*' {
            i = i + 2;
            in_comment = true;
        } else if c == '{' {
            buf.push('{');
            depth = depth + 1;
            i = i + 1;
        } else if c == '}' {
            if depth == 1 {
                buf = Vec::new();
                depth = 0;
                i = i + 1;
            } else {
                buf.push('}');
                depth = depth - 1;
                i = i + 1;
            }
        } else {
            buf.push(c);
            i = i + 1;
        }
    }
    let t = trim_chars(&buf);
    let mut w: Vec<String> = Vec::new();
    if in_comment {
        w.push("unterminated comment".to_owned());
    }
    if t.len() > 0 {
        w.push("unterminated trailing content dropped".to_owned());
    }
    proof {
        let lo = split_leftover(css@, 0, Seq::<char>::empty(), 0, false);
        assert(lo == (buf@, in_comment));
        assert(w@.map_values(|x: String| x@) =~= parse_warnings(css@));
    }
    w
}

} // verus!
