//! Scoping whole rules and whole documents.
//!
//! A rule's selector part is rewritten and reassembled with its untouched
//! declaration block; a document is split into rules, each rule scoped, and
//! the result optionally minified.

use crate::chars::{
    append_str, chars_of, copy_range, distinct_views, index_of_from, last_index_of,
    lemma_index_of_eq, lemma_last_index_eq, string_from_chars, trim_chars, trim_spec, view_set,
};
use crate::minify::{minify_css, minify_text};
use crate::selector::{scope_selector, selector_classes, selector_text};
use crate::splitter::{parse_css_rules, split_rules};
use vstd::prelude::*;

verus! {

/// The scoped text of one rule block, or `None` when the block has no `{`
/// and is dropped.
pub open spec fn rule_text(rule: Seq<char>, scope: Seq<char>) -> Option<Seq<char>> {
    let t = trim_spec(rule);
    if t.len() == 0 {
        None
    } else {
        let p = index_of_from(t, '{', 0);
        if !(0 <= p < t.len()) {
            None
        } else {
            let sel = trim_spec(t.subrange(0, p));
            let rest = t.subrange(p + 1, t.len() as int);
            let q = last_index_of(rest, '}', rest.len() - 1);
            let decls = if q >= 0 {
                trim_spec(rest.subrange(0, q))
            } else {
                trim_spec(rest)
            };
            Some(selector_text(sel, scope) + seq![' ', '{', ' '] + decls + seq![' ', '}'])
        }
    }
}

/// The class names a rule contributes: those of its selector part, or none
/// when the rule is dropped.
pub open spec fn rule_classes(rule: Seq<char>) -> Set<Seq<char>> {
    let t = trim_spec(rule);
    if t.len() == 0 {
        Set::empty()
    } else {
        let p = index_of_from(t, '{', 0);
        if !(0 <= p < t.len()) {
            Set::empty()
        } else {
            selector_classes(trim_spec(t.subrange(0, p)))
        }
    }
}

/// The concatenated scoped text of a sequence of rules; without minification
/// each kept rule is followed by a newline.
pub open spec fn rules_text(rules: Seq<Seq<char>>, scope: Seq<char>, minify: bool) -> Seq<char>
    decreases rules.len(),
{
    if rules.len() == 0 {
        Seq::empty()
    } else {
        (match rule_text(rules[0], scope) {
            Some(t) => t + if minify {
                Seq::<char>::empty()
            } else {
                seq!['\n']
            },
            None => Seq::<char>::empty(),
        }) + rules_text(rules.subrange(1, rules.len() as int), scope, minify)
    }
}

/// The class names of a sequence of rules together.
pub open spec fn rules_classes(rules: Seq<Seq<char>>) -> Set<Seq<char>>
    decreases rules.len(),
{
    if rules.len() == 0 {
        Set::empty()
    } else {
        rule_classes(rules[0]).union(rules_classes(rules.subrange(1, rules.len() as int)))
    }
}

/// The final scoped text of a whole stylesheet.
pub open spec fn document_text(css: Seq<char>, scope: Seq<char>, minify: bool) -> Seq<char> {
    let body = rules_text(split_rules(css), scope, minify);
    if minify {
        minify_text(body)
    } else {
        body
    }
}

/// The class names of a whole stylesheet.
pub open spec fn document_classes(css: Seq<char>) -> Set<Seq<char>> {
    rules_classes(split_rules(css))
}

/// A stylesheet after scoping: the rewritten text and the distinct original
/// class names its selectors used.
pub struct ScopedCss {
    pub scoped: String,
    pub class_names: Vec<String>,
}

/// Scopes one rule block: the text before the first `{` is the selector and
/// is rewritten, the text up to the last `}` is kept as the declarations.
/// A block without `{` is dropped.
pub fn scope_rule(rule: &str, scope: &str, class_names: &mut Vec<String>) -> (r: Option<String>)
    requires
        distinct_views(old(class_names)@),
    ensures
        (match r {
            Some(s) => Some(s@),
            None => None::<Seq<char>>,
        }) == rule_text(rule@, scope@),
        distinct_views(final(class_names)@),
        old(class_names)@.is_prefix_of(final(class_names)@),
        view_set(final(class_names)@) == view_set(old(class_names)@).union(rule_classes(rule@)),
{
    let rv = chars_of(rule);
    let t = trim_chars(&rv);
    let tn = t.len();
    let mut p: usize = 0;
    while p < tn && t[p] != '{'
        invariant
            tn == t@.len(),
            p <= tn,
            forall|j: int| 0 <= j < p ==> t@[j] != '{',
        decreases tn - p,
    {
        p = p + 1;
    }
    proof {
        lemma_index_of_eq(t@, '{', 0, p as int);
    }
    if p == tn {
        proof {
            assert(rule_text(rule@, scope@) is None);
            assert(rule_classes(rule@) =~= Set::<Seq<char>>::empty());
            assert(view_set(class_names@) =~= view_set(class_names@).union(
                Set::<Seq<char>>::empty(),
            ));
            assert(class_names@.is_prefix_of(class_names@)) by {
                assert(class_names@ =~= class_names@.subrange(0, class_names@.len() as int));
            }
        }
        return None;
    }
    let sel_v = copy_range(&t, 0, p);
    let sel_t = trim_chars(&sel_v);
    let sel_s = string_from_chars(&sel_t);
    let rest = copy_range(&t, p + 1, tn);
    let rn = rest.len();
    let mut e: usize = rn;
    while e > 0 && rest[e - 1] != '}'
        invariant
            rn == rest@.len(),
            e <= rn,
            forall|j: int| e <= j < rn ==> rest@[j] != '}',
        decreases e,
    {
        e = e - 1;
    }
    proof {
        lemma_last_index_eq(rest@, '}', rn as int - 1, e as int);
    }
    let decls_v = if e > 0 {
        copy_range(&rest, 0, e - 1)
    } else {
        copy_range(&rest, 0, rn)
    };
    let decls_t = trim_chars(&decls_v);
    let scoped_sel = scope_selector(sel_s.as_str(), scope, class_names);
    let mut out: Vec<char> = chars_of(scoped_sel.as_str());
    append_str(&mut out, " { ");
    let mut k: usize = 0;
    let dn = decls_t.len();
    while k < dn
        invariant
            dn == decls_t@.len(),
            k <= dn,
            out@ == scoped_sel@ + " { "@ + decls_t@.subrange(0, k as int),
        decreases dn - k,
    {
        let c = decls_t[k];
        out.push(c);
        k = k + 1;
        proof {
            assert(out@ =~= scoped_sel@ + " { "@ + decls_t@.subrange(0, k as int));
        }
    }
    append_str(&mut out, " }");
    proof {
        reveal_strlit(" { ");
        reveal_strlit(" }");
        assert(" { "@ =~= seq![' ', '{', ' ']);
        assert(" }"@ =~= seq![' ', '}']);
        assert(decls_t@.subrange(0, dn as int) =~= decls_t@);
        let tt = trim_spec(rule@);
        assert(sel_v@ =~= tt.subrange(0, p as int));
        assert(rest@ =~= tt.subrange(p as int + 1, tt.len() as int));
        if e > 0 {
            assert(decls_v@ =~= rest@.subrange(0, e as int - 1));
        } else {
            assert(decls_v@ =~= rest@);
        }
        assert(out@ =~= selector_text(trim_spec(tt.subrange(0, p as int)), scope@) + seq![
            ' ',
            '{',
            ' ',
        ] + decls_t@ + seq![' ', '}']);
    }
    Some(string_from_chars(&out))
}

/// Wraps bare declarations in a rule whose selector is the class named by
/// `scope` itself: the form under which an inline snippet of declarations is
/// registered.
pub fn wrap_declarations(scope: &str, declarations: &str) -> (r: String)
    ensures
        r@ == seq!['.'] + scope@ + seq![' ', '{', ' '] + declarations@ + seq![' ', '}'],
{
    let mut out: Vec<char> = Vec::new();
    out.push('.');
    append_str(&mut out, scope);
    append_str(&mut out, " { ");
    append_str(&mut out, declarations);
    append_str(&mut out, " }");
    proof {
        reveal_strlit(" { ");
        reveal_strlit(" }");
        assert(" { "@ =~= seq![' ', '{', ' ']);
        assert(" }"@ =~= seq![' ', '}']);
        assert(out@ =~= seq!['.'] + scope@ + seq![' ', '{', ' '] + declarations@ + seq![
            ' ',
            '}',
        ]);
    }
    string_from_chars(&out)
}

/// Scopes a whole stylesheet under `scope`: every rule block is rewritten in
/// source order, blocks without `{` are silently dropped, and the result is
/// minified when `minify` is set. The distinct class names met along the way
/// come back beside the text.
pub fn parse_and_scope(css: &str, scope: &str, minify: bool) -> (r: ScopedCss)
    ensures
        r.scoped@ == document_text(css@, scope@, minify),
        distinct_views(r.class_names@),
        view_set(r.class_names@) == document_classes(css@),
{
    let rules = parse_css_rules(css);
    let nr = rules.len();
    let ghost rs = split_rules(css@);
    let mut class_names: Vec<String> = Vec::new();
    let mut body: Vec<char> = Vec::new();
    proof {
        assert(rs.subrange(0, nr as int) =~= rs);
        assert(view_set(class_names@) =~= Set::<Seq<char>>::empty());
        assert(view_set(class_names@).union(rules_classes(rs)) =~= rules_classes(rs));
    }
    let mut k: usize = 0;
    while k < nr
        invariant
            rules@.map_values(|r: String| r@) == rs,
            rs == split_rules(css@),
            nr == rules@.len(),
            k <= nr,
            distinct_views(class_names@),
            rules_text(rs, scope@, minify) == body@ + rules_text(
                rs.subrange(k as int, nr as int),
                scope@,
                minify,
            ),
            view_set(class_names@).union(rules_classes(rs.subrange(k as int, nr as int)))
                == rules_classes(rs),
        decreases nr - k,
    {
        let ghost prev_body = body@;
        let ghost prev_vs = view_set(class_names@);
        let ghost rem = rs.subrange(k as int, nr as int);
        proof {
            assert(rem[0] == rs[k as int]);
            assert(rem.subrange(1, rem.len() as int) =~= rs.subrange(k as int + 1, nr as int));
            assert(rules@[k as int]@ == rs[k as int]);
        }
        let scoped_rule = scope_rule(rules[k].as_str(), scope, &mut class_names);
        match scoped_rule {
            Some(t) => {
                append_str(&mut body, t.as_str());
                if !minify {
                    body.push('\n');
                }
                proof {
                    let piece = t@ + if minify {
                        Seq::<char>::empty()
                    } else {
                        seq!['\n']
                    };
                    assert(body@ =~= prev_body + piece);
                    assert(prev_body + piece + rules_text(
                        rs.subrange(k as int + 1, nr as int),
                        scope@,
                        minify,
                    ) =~= prev_body + rules_text(rem, scope@, minify));
                }
            },
            None => {
                proof {
                    assert(body@ + rules_text(rs.subrange(k as int + 1, nr as int), scope@, minify)
                        =~= prev_body + rules_text(rem, scope@, minify));
                }
            },
        }
        proof {
            assert(view_set(class_names@).union(
                rules_classes(rs.subrange(k as int + 1, nr as int)),
            ) =~= prev_vs.union(rules_classes(rem)));
        }
        k = k + 1;
    }
    proof {
        assert(rs.subrange(nr as int, nr as int) =~= Seq::<Seq<char>>::empty());
        assert(body@ + rules_text(Seq::<Seq<char>>::empty(), scope@, minify) =~= body@);
        assert(view_set(class_names@).union(rules_classes(Seq::<Seq<char>>::empty())) =~= view_set(
            class_names@,
        ));
    }
    let body_s = string_from_chars(&body);
    let scoped = if minify {
        minify_css(body_s.as_str())
    } else {
        body_s
    };
    ScopedCss { scoped, class_names }
}

} // verus!
