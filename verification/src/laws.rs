//! Library-wide laws, proved once and for all inputs: whitespace-only input
//! scopes to nothing, minification never lengthens the output and never
//! introduces comment markers, and scoped output balances its braces.

use crate::chars::{
    count_char, index_of_from, is_alpha_char, is_space_char, last_index_of, lemma_count_absent,
    lemma_count_concat, lemma_count_one, lemma_count_push, lemma_count_trim, lemma_index_of_from,
    lemma_trim_keeps_last, trim_spec,
};
use crate::minify::{minify_from, minify_text, suppress_after};
use crate::scoper::{document_text, rule_text, rules_text};
use crate::selector::{
    bracket_end, branches_text, dscope_prefix, dscope_suffix, elem_end, ident_end,
    lemma_bracket_end, lemma_elem_end, lemma_ident_end, lemma_space_end, lemma_toplevel_comma,
    rw_text, selector_text, single_text, space_end, split_commas, toplevel_comma_from,
};
use crate::hash::token_spec;
use crate::splitter::{split_rules, split_rules_from};
use vstd::prelude::*;

verus! {

/// Token derivation is deterministic: any two results for the same content
/// and origin are the same token, whichever call produced them.
pub proof fn lemma_token_deterministic(
    content: Seq<char>,
    origin: Option<Seq<char>>,
    r1: Seq<char>,
    r2: Seq<char>,
)
    requires
        r1 == token_spec(content, origin),
        r2 == token_spec(content, origin),
    ensures
        r1 == r2,
{
}

proof fn lemma_split_all_space(s: Seq<char>, i: int, buf: Seq<char>, depth: int, ic: bool)
    requires
        0 <= i,
        forall|k: int| 0 <= k < s.len() ==> is_space_char(s[k]),
    ensures
        split_rules_from(s, i, buf, depth, ic) == Seq::<Seq<char>>::empty(),
    decreases s.len() - i,
{
    if i < s.len() {
        lemma_split_all_space(s, i + 1, buf, depth, true);
        lemma_split_all_space(s, i + 1, buf.push(s[i]), depth, false);
    }
}

/// An all-whitespace (or empty) stylesheet scopes to empty output, with or
/// without minification.
pub proof fn lemma_whitespace_scopes_empty(css: Seq<char>, scope: Seq<char>, minify: bool)
    requires
        forall|k: int| 0 <= k < css.len() ==> is_space_char(css[k]),
    ensures
        document_text(css, scope, minify) == Seq::<char>::empty(),
{
    lemma_split_all_space(css, 0, Seq::empty(), 0, false);
}

proof fn lemma_minify_from_len(s: Seq<char>, i: int, last: Option<char>, ic: bool)
    requires
        0 <= i <= s.len(),
    ensures
        minify_from(s, i, last, ic).len() <= s.len() - i,
    decreases s.len() - i,
{
    if i < s.len() {
        lemma_minify_from_len(s, i + 1, last, true);
        lemma_minify_from_len(s, i + 1, last, false);
        if i + 2 <= s.len() {
            lemma_minify_from_len(s, i + 2, last, true);
            lemma_minify_from_len(s, i + 2, last, false);
        }
        lemma_minify_from_len(s, i + 1, Some(' '), false);
        lemma_minify_from_len(s, i + 1, Some(s[i]), false);
    }
}

proof fn lemma_rules_text_len(rules: Seq<Seq<char>>, scope: Seq<char>)
    ensures
        rules_text(rules, scope, true).len() <= rules_text(rules, scope, false).len(),
    decreases rules.len(),
{
    if rules.len() > 0 {
        lemma_rules_text_len(rules.subrange(1, rules.len() as int), scope);
    }
}

/// Minified output is never longer than the pretty output of the same
/// stylesheet under the same scope.
pub proof fn lemma_minified_not_longer(css: Seq<char>, scope: Seq<char>)
    ensures
        document_text(css, scope, true).len() <= document_text(css, scope, false).len(),
{
    let body = rules_text(split_rules(css), scope, true);
    lemma_minify_from_len(body, 0, None, false);
    lemma_rules_text_len(split_rules(css), scope);
}

/// Whether the adjacent pair `a`, `b` spells a comment opener or closer.
pub open spec fn marker_pair(a: char, b: char) -> bool {
    (a == '/' && b == '*') || (a == '*' && b == '/')
}

/// No `/*` and no `*/` occurs anywhere in `s`.
pub open spec fn no_comment_markers(s: Seq<char>) -> bool {
    forall|k: int| 0 <= k < s.len() - 1 ==> !marker_pair(#[trigger] s[k], s[k + 1])
}

proof fn lemma_minify_markers(s: Seq<char>, i: int, last: Option<char>)
    requires
        0 <= i <= s.len(),
        no_comment_markers(s),
        match last {
            Some(p) => (p == '/' || p == '*') ==> (i > 0 && s[i - 1] == p),
            None => true,
        },
    ensures
        no_comment_markers(minify_from(s, i, last, false)),
        match last {
            Some(p) => minify_from(s, i, last, false).len() > 0 ==> !marker_pair(
                p,
                minify_from(s, i, last, false)[0],
            ),
            None => true,
        },
    decreases s.len() - i,
{
    if i < s.len() {
        if i + 1 < s.len() && s[i] == '/' && s[i + 1] == '*' {
            assert(marker_pair(s[i], s[i + 1]));
            assert(false);
        }
        if is_space_char(s[i]) {
            match last {
                Some(lc) => {
                    if lc != ' ' && !suppress_after(lc) {
                        lemma_minify_markers(s, i + 1, Some(' '));
                        let tail = minify_from(s, i + 1, Some(' '), false);
                        let out = seq![' '] + tail;
                        assert forall|k: int| 0 <= k < out.len() - 1 implies !marker_pair(
                            #[trigger] out[k],
                            out[k + 1],
                        ) by {
                            if k > 0 {
                                assert(out[k] == tail[k - 1] && out[k + 1] == tail[k]);
                            }
                        }
                    } else {
                        lemma_minify_markers(s, i + 1, last);
                    }
                },
                None => {
                    lemma_minify_markers(s, i + 1, last);
                },
            }
        } else {
            let c = s[i];
            lemma_minify_markers(s, i + 1, Some(c));
            let tail = minify_from(s, i + 1, Some(c), false);
            let out = seq![c] + tail;
            assert forall|k: int| 0 <= k < out.len() - 1 implies !marker_pair(
                #[trigger] out[k],
                out[k + 1],
            ) by {
                if k > 0 {
                    assert(out[k] == tail[k - 1] && out[k + 1] == tail[k]);
                } else {
                    assert(out[0] == c && out[1] == tail[0]);
                }
            }
            match last {
                Some(p) => {
                    if p == '/' || p == '*' {
                        assert(s[i - 1] == p);
                        assert(!marker_pair(s[i - 1], s[i]));
                    }
                },
                None => {},
            }
        }
    }
}

/// Minification introduces no comment markers: marker-free text stays
/// marker-free.
pub proof fn lemma_minify_keeps_marker_free(s: Seq<char>)
    requires
        no_comment_markers(s),
    ensures
        no_comment_markers(minify_text(s)),
{
    lemma_minify_markers(s, 0, None);
}

/// The minified pipeline output holds no comment marker whenever the
/// assembled scoped text holds none. (Raw input can defeat this with a stray
/// `*/` outside any comment, which survives scoping and then reads as a
/// marker.)
pub proof fn lemma_minified_no_markers(css: Seq<char>, scope: Seq<char>)
    requires
        no_comment_markers(rules_text(split_rules(css), scope, true)),
    ensures
        no_comment_markers(document_text(css, scope, true)),
{
    lemma_minify_keeps_marker_free(rules_text(split_rules(css), scope, true));
}

proof fn lemma_count_two(a: char, b2: char, x: char)
    ensures
        count_char(seq![a, b2], x) == (if a == x {
            1int
        } else {
            0int
        }) + (if b2 == x {
            1int
        } else {
            0int
        }),
{
    assert(seq![a, b2] =~= seq![a] + seq![b2]);
    lemma_count_concat(seq![a], seq![b2], x);
    lemma_count_one(a, x);
    lemma_count_one(b2, x);
}

proof fn lemma_count_three(a: char, b2: char, c: char, x: char)
    ensures
        count_char(seq![a, b2, c], x) == (if a == x {
            1int
        } else {
            0int
        }) + (if b2 == x {
            1int
        } else {
            0int
        }) + (if c == x {
            1int
        } else {
            0int
        }),
{
    assert(seq![a, b2, c] =~= (seq![a] + seq![b2]) + seq![c]);
    lemma_count_concat(seq![a] + seq![b2], seq![c], x);
    lemma_count_concat(seq![a], seq![b2], x);
    lemma_count_one(a, x);
    lemma_count_one(b2, x);
    lemma_count_one(c, x);
}

/// A rule block as the splitter emits it: nonempty, ending in `}`, with as
/// many `{` as `}`.
pub open spec fn balanced_rule(r: Seq<char>) -> bool {
    r.len() > 0 && r[r.len() - 1] == '}' && count_char(r, '{') == count_char(r, '}')
}

/// Every rule of `rs` is a balanced block.
pub open spec fn all_balanced(rs: Seq<Seq<char>>) -> bool {
    forall|k: int| 0 <= k < rs.len() ==> balanced_rule(#[trigger] rs[k])
}

proof fn lemma_split_shape(s: Seq<char>, i: int, buf: Seq<char>, depth: int, ic: bool)
    requires
        0 <= i,
        depth == count_char(buf, '{') - count_char(buf, '}'),
    ensures
        all_balanced(split_rules_from(s, i, buf, depth, ic)),
    decreases s.len() - i,
{
    if i < s.len() {
        if ic {
            if i + 1 < s.len() && s[i] == '*' && s[i + 1] == '/' {
                lemma_split_shape(s, i + 2, buf, depth, false);
            } else {
                lemma_split_shape(s, i + 1, buf, depth, true);
            }
        } else if i + 1 < s.len() && s[i] == '/' && s[i + 1] == '*' {
            lemma_split_shape(s, i + 2, buf, depth, true);
        } else if s[i] == '{' {
            lemma_count_push(buf, '{', '{');
            lemma_count_push(buf, '{', '}');
            lemma_split_shape(s, i + 1, buf.push('{'), depth + 1, false);
        } else if s[i] == '}' {
            lemma_count_push(buf, '}', '{');
            lemma_count_push(buf, '}', '}');
            if depth == 1 {
                let nb = buf.push('}');
                lemma_trim_keeps_last(nb);
                lemma_count_trim(nb, '{');
                lemma_count_trim(nb, '}');
                lemma_split_shape(s, i + 1, Seq::empty(), 0, false);
                let rule = trim_spec(nb);
                assert(balanced_rule(rule));
                let rest = split_rules_from(s, i + 1, Seq::empty(), 0, false);
                let whole = split_rules_from(s, i, buf, depth, ic);
                assert(whole == seq![rule] + rest);
                assert forall|k: int| 0 <= k < whole.len() implies balanced_rule(
                    #[trigger] whole[k],
                ) by {
                    if k > 0 {
                        assert(whole[k] == rest[k - 1]);
                        assert(balanced_rule(rest[k - 1]));
                    } else {
                        assert(whole[0] == rule);
                    }
                }
            } else {
                lemma_split_shape(s, i + 1, buf.push('}'), depth - 1, false);
            }
        } else {
            lemma_count_push(buf, s[i], '{');
            lemma_count_push(buf, s[i], '}');
            lemma_split_shape(s, i + 1, buf.push(s[i]), depth, false);
        }
    }
}

/// No `{` and no `}` occurs in `s`.
pub open spec fn no_braces(s: Seq<char>) -> bool {
    forall|k: int| 0 <= k < s.len() ==> s[k] != '{' && s[k] != '}'
}

proof fn lemma_rw_text_count(sel: Seq<char>, i: int, at_start: bool, scope: Seq<char>, b: char)
    requires
        0 <= i <= sel.len(),
        b == '{' || b == '}',
        no_braces(scope),
    ensures
        count_char(rw_text(sel, i, at_start, scope), b) == count_char(
            sel.subrange(i, sel.len() as int),
            b,
        ),
    decreases sel.len() - i,
{
    let n = sel.len() as int;
    if i == n {
        assert(sel.subrange(i, n) =~= Seq::<char>::empty());
    } else {
        let c = sel[i];
        lemma_count_absent(scope, b);
        if c == '.' || c == '#' {
            lemma_ident_end(sel, i + 1);
            let j = ident_end(sel, i + 1);
            let name = sel.subrange(i + 1, j);
            lemma_rw_text_count(sel, j, false, scope, b);
            assert(sel.subrange(i, n) =~= (seq![c] + name) + sel.subrange(j, n));
            lemma_count_concat(seq![c] + name, sel.subrange(j, n), b);
            lemma_count_concat(seq![c], name, b);
            lemma_count_one(c, b);
            if name.len() > 0 {
                let emitted = seq![c] + scope + seq!['_'] + name;
                lemma_count_concat(emitted, rw_text(sel, j, false, scope), b);
                lemma_count_concat(seq![c] + scope + seq!['_'], name, b);
                lemma_count_concat(seq![c] + scope, seq!['_'], b);
                lemma_count_concat(seq![c], scope, b);
                lemma_count_one('_', b);
            }
        } else if c == ' ' || c == '>' || c == '+' || c == '~' {
            lemma_space_end(sel, i + 1);
            let j = space_end(sel, i + 1);
            lemma_rw_text_count(sel, j, true, scope, b);
            assert(sel.subrange(i, n) =~= (seq![c] + sel.subrange(i + 1, j)) + sel.subrange(j, n));
            lemma_count_concat(seq![c] + sel.subrange(i + 1, j), sel.subrange(j, n), b);
            lemma_count_concat(seq![c], sel.subrange(i + 1, j), b);
            lemma_count_one(c, b);
            lemma_count_absent(sel.subrange(i + 1, j), b);
            lemma_count_concat(seq![c], rw_text(sel, j, true, scope), b);
        } else if c == ':' {
            lemma_rw_text_count(sel, i + 1, false, scope, b);
            assert(sel.subrange(i, n) =~= seq![c] + sel.subrange(i + 1, n));
            lemma_count_concat(seq![c], sel.subrange(i + 1, n), b);
            lemma_count_concat(seq![':'], rw_text(sel, i + 1, false, scope), b);
            lemma_count_one(c, b);
        } else if c == '[' {
            lemma_bracket_end(sel, i + 1);
            let j = bracket_end(sel, i + 1);
            lemma_rw_text_count(sel, j, false, scope, b);
            assert(sel.subrange(i, n) =~= sel.subrange(i, j) + sel.subrange(j, n));
            lemma_count_concat(sel.subrange(i, j), sel.subrange(j, n), b);
            lemma_count_concat(sel.subrange(i, j), rw_text(sel, j, false, scope), b);
        } else if is_alpha_char(c) && at_start {
            lemma_elem_end(sel, i + 1);
            let j = elem_end(sel, i + 1);
            let name = sel.subrange(i, j);
            lemma_rw_text_count(sel, j, false, scope, b);
            assert(sel.subrange(i, n) =~= name + sel.subrange(j, n));
            lemma_count_concat(name, sel.subrange(j, n), b);
            lemma_count_absent(dscope_prefix(), b);
            lemma_count_absent(dscope_suffix(), b);
            lemma_count_concat(
                name + dscope_prefix() + scope + dscope_suffix(),
                rw_text(sel, j, false, scope),
                b,
            );
            lemma_count_concat(name + dscope_prefix() + scope, dscope_suffix(), b);
            lemma_count_concat(name + dscope_prefix(), scope, b);
            lemma_count_concat(name, dscope_prefix(), b);
        } else {
            lemma_rw_text_count(sel, i + 1, false, scope, b);
            assert(sel.subrange(i, n) =~= seq![c] + sel.subrange(i + 1, n));
            lemma_count_concat(seq![c], sel.subrange(i + 1, n), b);
            lemma_count_concat(seq![c], rw_text(sel, i + 1, false, scope), b);
            lemma_count_one(c, b);
        }
    }
}

proof fn lemma_split_join_count(s: Seq<char>, scope: Seq<char>, b: char)
    requires
        b == '{' || b == '}',
        no_braces(scope),
    ensures
        count_char(branches_text(split_commas(s), scope), b) == count_char(s, b),
    decreases s.len(),
{
    lemma_toplevel_comma(s, 0);
    let p = toplevel_comma_from(s, 0);
    if !(0 <= p < s.len()) {
        let bs = split_commas(s);
        assert(bs == seq![s]);
        assert(bs[0] == s);
        lemma_rw_text_count(trim_spec(s), 0, true, scope, b);
        assert(trim_spec(s).subrange(0, trim_spec(s).len() as int) =~= trim_spec(s));
        lemma_count_trim(s, b);
    } else {
        let head = s.subrange(0, p);
        let tail = s.subrange(p + 1, s.len() as int);
        let bs = split_commas(s);
        assert(bs == seq![head] + split_commas(tail));
        assert(split_commas(tail).len() >= 1);
        assert(bs.len() >= 2);
        assert(bs[0] == head);
        assert(bs.subrange(1, bs.len() as int) =~= split_commas(tail));
        lemma_split_join_count(tail, scope, b);
        lemma_rw_text_count(trim_spec(head), 0, true, scope, b);
        assert(trim_spec(head).subrange(0, trim_spec(head).len() as int) =~= trim_spec(head));
        lemma_count_trim(head, b);
        let single = single_text(trim_spec(head), scope);
        let restt = branches_text(bs.subrange(1, bs.len() as int), scope);
        assert(branches_text(bs, scope) == (single + seq![',', ' ']) + restt);
        lemma_count_concat(single + seq![',', ' '], restt, b);
        lemma_count_concat(single, seq![',', ' '], b);
        lemma_count_two(',', ' ', b);
        assert(s =~= (head + seq![',']) + tail);
        lemma_count_concat(head + seq![','], tail, b);
        lemma_count_concat(head, seq![','], b);
        lemma_count_one(',', b);
    }
}

proof fn lemma_selector_text_count(sel: Seq<char>, scope: Seq<char>, b: char)
    requires
        b == '{' || b == '}',
        no_braces(scope),
    ensures
        count_char(selector_text(sel, scope), b) == count_char(sel, b),
{
    lemma_split_join_count(sel, scope, b);
}

proof fn lemma_rule_balanced(rule: Seq<char>, scope: Seq<char>)
    requires
        no_braces(scope),
        balanced_rule(rule),
    ensures
        match rule_text(rule, scope) {
            Some(t) => count_char(t, '{') == count_char(t, '}'),
            None => true,
        },
{
    let t = trim_spec(rule);
    lemma_trim_keeps_last(rule);
    lemma_count_trim(rule, '{');
    lemma_count_trim(rule, '}');
    lemma_index_of_from(t, '{', 0);
    let p = index_of_from(t, '{', 0);
    if 0 <= p < t.len() {
        let nt = t.len() as int;
        let pre = t.subrange(0, p);
        let rest = t.subrange(p + 1, nt);
        assert(t[nt - 1] == '}');
        assert(p < nt - 1);
        assert(rest.len() > 0);
        assert(rest[rest.len() - 1] == '}');
        let q = last_index_of(rest, '}', rest.len() - 1);
        assert(q == rest.len() - 1);
        let mid = rest.subrange(0, rest.len() - 1);
        let selp = trim_spec(pre);
        let decls = trim_spec(mid);
        let st = selector_text(selp, scope);
        lemma_selector_text_count(selp, scope, '{');
        lemma_selector_text_count(selp, scope, '}');
        lemma_count_trim(pre, '{');
        lemma_count_trim(pre, '}');
        lemma_count_trim(mid, '{');
        lemma_count_trim(mid, '}');
        assert(rest =~= mid + seq!['}']);
        assert(t =~= ((pre + seq!['{']) + mid) + seq!['}']);
        lemma_count_concat((pre + seq!['{']) + mid, seq!['}'], '{');
        lemma_count_concat((pre + seq!['{']) + mid, seq!['}'], '}');
        lemma_count_concat(pre + seq!['{'], mid, '{');
        lemma_count_concat(pre + seq!['{'], mid, '}');
        lemma_count_concat(pre, seq!['{'], '{');
        lemma_count_concat(pre, seq!['{'], '}');
        lemma_count_one('{', '{');
        lemma_count_one('{', '}');
        lemma_count_one('}', '{');
        lemma_count_one('}', '}');
        let ot = ((st + seq![' ', '{', ' ']) + decls) + seq![' ', '}'];
        assert(rule_text(rule, scope) == Some(ot));
        lemma_count_concat((st + seq![' ', '{', ' ']) + decls, seq![' ', '}'], '{');
        lemma_count_concat((st + seq![' ', '{', ' ']) + decls, seq![' ', '}'], '}');
        lemma_count_concat(st + seq![' ', '{', ' '], decls, '{');
        lemma_count_concat(st + seq![' ', '{', ' '], decls, '}');
        lemma_count_concat(st, seq![' ', '{', ' '], '{');
        lemma_count_concat(st, seq![' ', '{', ' '], '}');
        lemma_count_three(' ', '{', ' ', '{');
        lemma_count_three(' ', '{', ' ', '}');
        lemma_count_two(' ', '}', '{');
        lemma_count_two(' ', '}', '}');
    }
}

proof fn lemma_rules_balanced(rules: Seq<Seq<char>>, scope: Seq<char>, minify: bool)
    requires
        no_braces(scope),
        all_balanced(rules),
    ensures
        count_char(rules_text(rules, scope, minify), '{') == count_char(
            rules_text(rules, scope, minify),
            '}',
        ),
    decreases rules.len(),
{
    if rules.len() > 0 {
        assert(all_balanced(rules.subrange(1, rules.len() as int))) by {
            assert forall|k: int|
                0 <= k < rules.subrange(1, rules.len() as int).len() implies balanced_rule(
                #[trigger] rules.subrange(1, rules.len() as int)[k],
            ) by {
                assert(rules.subrange(1, rules.len() as int)[k] == rules[k + 1]);
            }
        }
        lemma_rules_balanced(rules.subrange(1, rules.len() as int), scope, minify);
        assert(balanced_rule(rules[0]));
        lemma_rule_balanced(rules[0], scope);
        let rec = rules_text(rules.subrange(1, rules.len() as int), scope, minify);
        match rule_text(rules[0], scope) {
            Some(t) => {
                let fin = if minify {
                    Seq::<char>::empty()
                } else {
                    seq!['\n']
                };
                lemma_count_concat(t + fin, rec, '{');
                lemma_count_concat(t + fin, rec, '}');
                lemma_count_concat(t, fin, '{');
                lemma_count_concat(t, fin, '}');
                lemma_count_one('\n', '{');
                lemma_count_one('\n', '}');
            },
            None => {
                assert(Seq::<char>::empty() + rec =~= rec);
            },
        }
    }
}

proof fn lemma_minify_count(s: Seq<char>, i: int, last: Option<char>, b: char)
    requires
        0 <= i <= s.len(),
        !is_space_char(b),
        no_comment_markers(s),
    ensures
        count_char(minify_from(s, i, last, false), b) == count_char(
            s.subrange(i, s.len() as int),
            b,
        ),
    decreases s.len() - i,
{
    let n = s.len() as int;
    if i == n {
        assert(s.subrange(i, n) =~= Seq::<char>::empty());
    } else {
        if i + 1 < n && s[i] == '/' && s[i + 1] == '*' {
            assert(marker_pair(s[i], s[i + 1]));
            assert(false);
        }
        assert(s.subrange(i, n) =~= seq![s[i]] + s.subrange(i + 1, n));
        lemma_count_concat(seq![s[i]], s.subrange(i + 1, n), b);
        lemma_count_one(s[i], b);
        if is_space_char(s[i]) {
            match last {
                Some(lc) => {
                    if lc != ' ' && !suppress_after(lc) {
                        lemma_minify_count(s, i + 1, Some(' '), b);
                        lemma_count_concat(seq![' '], minify_from(s, i + 1, Some(' '), false), b);
                        lemma_count_one(' ', b);
                    } else {
                        lemma_minify_count(s, i + 1, last, b);
                    }
                },
                None => {
                    lemma_minify_count(s, i + 1, last, b);
                },
            }
        } else {
            lemma_minify_count(s, i + 1, Some(s[i]), b);
            lemma_count_concat(seq![s[i]], minify_from(s, i + 1, Some(s[i]), false), b);
        }
    }
}

/// Scoped output balances its braces: it holds as many `{` as `}`, provided
/// the scope token itself holds no brace. With minification the assembled
/// scoped text must also be free of comment markers; a stray `*/` in the raw
/// input can place one there and make the minifier drop an unbalanced span.
pub proof fn lemma_scoped_output_balanced(css: Seq<char>, scope: Seq<char>, minify: bool)
    requires
        no_braces(scope),
        minify ==> no_comment_markers(rules_text(split_rules(css), scope, true)),
    ensures
        count_char(document_text(css, scope, minify), '{') == count_char(
            document_text(css, scope, minify),
            '}',
        ),
{
    lemma_split_shape(css, 0, Seq::empty(), 0, false);
    lemma_rules_balanced(split_rules(css), scope, minify);
    if minify {
        let body = rules_text(split_rules(css), scope, true);
        lemma_minify_count(body, 0, None, '{');
        lemma_minify_count(body, 0, None, '}');
        assert(body.subrange(0, body.len() as int) =~= body);
    }
}

} // verus!
