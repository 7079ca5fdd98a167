//! Rewriting selectors under a scope token.
//!
//! Class and id names are prefixed with the token, bare element names are
//! annotated with a `data-scope` attribute match, and combinators,
//! pseudo-classes and attribute selectors pass through untouched. The set of
//! original class names encountered is collected on the side.

use crate::chars::{
    append_chars, append_str, chars_of, copy_range, distinct_views, is_alnum, is_alnum_char,
    is_alpha, is_alpha_char, string_from_chars, trim_chars, trim_spec, view_set,
};
use vstd::prelude::*;

verus! {

/// A character that may continue a class or id name: letters, digits, `-`, `_`.
pub open spec fn is_ident_char(c: char) -> bool {
    is_alnum_char(c) || c == '-' || c == '_'
}

/// A character that may continue an element name: letters, digits, `-`.
pub open spec fn is_elem_char(c: char) -> bool {
    is_alnum_char(c) || c == '-'
}

/// The end of the identifier run starting at `i`.
pub open spec fn ident_end(s: Seq<char>, i: int) -> int
    decreases s.len() - i,
{
    if 0 <= i < s.len() && is_ident_char(s[i]) {
        ident_end(s, i + 1)
    } else {
        i
    }
}

/// The end of the element-name run starting at `i`.
pub open spec fn elem_end(s: Seq<char>, i: int) -> int
    decreases s.len() - i,
{
    if 0 <= i < s.len() && is_elem_char(s[i]) {
        elem_end(s, i + 1)
    } else {
        i
    }
}

/// The end of the run of plain spaces starting at `i`.
pub open spec fn space_end(s: Seq<char>, i: int) -> int
    decreases s.len() - i,
{
    if 0 <= i < s.len() && s[i] == ' ' {
        space_end(s, i + 1)
    } else {
        i
    }
}

/// The position just after the `]` that closes an attribute selector when
/// scanning from `i`, or `s.len()` when it never closes.
pub open spec fn bracket_end(s: Seq<char>, i: int) -> int
    decreases s.len() - i,
{
    if 0 <= i < s.len() {
        if s[i] == ']' {
            i + 1
        } else {
            bracket_end(s, i + 1)
        }
    } else {
        i
    }
}

pub proof fn lemma_ident_end(s: Seq<char>, i: int)
    requires
        0 <= i <= s.len(),
    ensures
        i <= ident_end(s, i) <= s.len(),
        forall|k: int| i <= k < ident_end(s, i) ==> is_ident_char(s[k]),
        ident_end(s, i) < s.len() ==> !is_ident_char(s[ident_end(s, i)]),
    decreases s.len() - i,
{
    if i < s.len() && is_ident_char(s[i]) {
        lemma_ident_end(s, i + 1);
    }
}

pub proof fn lemma_elem_end(s: Seq<char>, i: int)
    requires
        0 <= i <= s.len(),
    ensures
        i <= elem_end(s, i) <= s.len(),
        forall|k: int| i <= k < elem_end(s, i) ==> is_elem_char(s[k]),
        elem_end(s, i) < s.len() ==> !is_elem_char(s[elem_end(s, i)]),
    decreases s.len() - i,
{
    if i < s.len() && is_elem_char(s[i]) {
        lemma_elem_end(s, i + 1);
    }
}

pub proof fn lemma_space_end(s: Seq<char>, i: int)
    requires
        0 <= i <= s.len(),
    ensures
        i <= space_end(s, i) <= s.len(),
        forall|k: int| i <= k < space_end(s, i) ==> s[k] == ' ',
        space_end(s, i) < s.len() ==> s[space_end(s, i)] != ' ',
    decreases s.len() - i,
{
    if i < s.len() && s[i] == ' ' {
        lemma_space_end(s, i + 1);
    }
}

pub proof fn lemma_bracket_end(s: Seq<char>, i: int)
    requires
        0 <= i <= s.len(),
    ensures
        i <= bracket_end(s, i) <= s.len(),
        forall|k: int| i <= k < bracket_end(s, i) - 1 ==> s[k] != ']',
        bracket_end(s, i) > i ==> s[bracket_end(s, i) - 1] == ']' || bracket_end(s, i) == s.len(),
        bracket_end(s, i) == i ==> i == s.len(),
    decreases s.len() - i,
{
    if i < s.len() && s[i] != ']' {
        lemma_bracket_end(s, i + 1);
    }
}

/// The literal text that opens an element's scope annotation.
pub open spec fn dscope_prefix() -> Seq<char> {
    seq!['[', 'd', 'a', 't', 'a', '-', 's', 'c', 'o', 'p', 'e', '=', '"']
}

/// The literal text that closes an element's scope annotation.
pub open spec fn dscope_suffix() -> Seq<char> {
    seq!['"', ']']
}

/// The rewritten text of the branch `sel` from position `i` on, with
/// `at_start` saying whether the scan stands at the start of a compound
/// selector component.
pub open spec fn rw_text(sel: Seq<char>, i: int, at_start: bool, scope: Seq<char>) -> Seq<char>
    decreases sel.len() - i,
    via rw_text_dec
{
    if !(0 <= i < sel.len()) {
        Seq::empty()
    } else {
        let c = sel[i];
        if c == '.' {
            let j = ident_end(sel, i + 1);
            let name = sel.subrange(i + 1, j);
            if name.len() > 0 {
                seq!['.'] + scope + seq!['_'] + name + rw_text(sel, j, false, scope)
            } else {
                rw_text(sel, j, false, scope)
            }
        } else if c == '#' {
            let j = ident_end(sel, i + 1);
            let name = sel.subrange(i + 1, j);
            if name.len() > 0 {
                seq!['#'] + scope + seq!['_'] + name + rw_text(sel, j, false, scope)
            } else {
                rw_text(sel, j, false, scope)
            }
        } else if c == ' ' || c == '>' || c == '+' || c == '~' {
            let j = space_end(sel, i + 1);
            seq![c] + rw_text(sel, j, true, scope)
        } else if c == ':' {
            seq![':'] + rw_text(sel, i + 1, false, scope)
        } else if c == '[' {
            let j = bracket_end(sel, i + 1);
            sel.subrange(i, j) + rw_text(sel, j, false, scope)
        } else if is_alpha_char(c) && at_start {
            let j = elem_end(sel, i + 1);
            sel.subrange(i, j) + dscope_prefix() + scope + dscope_suffix() + rw_text(
                sel,
                j,
                false,
                scope,
            )
        } else {
            seq![c] + rw_text(sel, i + 1, false, scope)
        }
    }
}

#[via_fn]
proof fn rw_text_dec(sel: Seq<char>, i: int, at_start: bool, scope: Seq<char>) {
    if 0 <= i < sel.len() {
        lemma_ident_end(sel, i + 1);
        lemma_space_end(sel, i + 1);
        lemma_bracket_end(sel, i + 1);
        lemma_elem_end(sel, i + 1);
    }
}

/// The class names recorded while rewriting the branch `sel` from `i` on.
pub open spec fn rw_classes(sel: Seq<char>, i: int, at_start: bool) -> Set<Seq<char>>
    decreases sel.len() - i,
    via rw_classes_dec
{
    if !(0 <= i < sel.len()) {
        Set::empty()
    } else {
        let c = sel[i];
        if c == '.' {
            let j = ident_end(sel, i + 1);
            let name = sel.subrange(i + 1, j);
            if name.len() > 0 {
                rw_classes(sel, j, false).insert(name)
            } else {
                rw_classes(sel, j, false)
            }
        } else if c == '#' {
            let j = ident_end(sel, i + 1);
            rw_classes(sel, j, false)
        } else if c == ' ' || c == '>' || c == '+' || c == '~' {
            let j = space_end(sel, i + 1);
            rw_classes(sel, j, true)
        } else if c == ':' {
            rw_classes(sel, i + 1, false)
        } else if c == '[' {
            let j = bracket_end(sel, i + 1);
            rw_classes(sel, j, false)
        } else if is_alpha_char(c) && at_start {
            let j = elem_end(sel, i + 1);
            rw_classes(sel, j, false)
        } else {
            rw_classes(sel, i + 1, false)
        }
    }
}

#[via_fn]
proof fn rw_classes_dec(sel: Seq<char>, i: int, at_start: bool) {
    if 0 <= i < sel.len() {
        lemma_ident_end(sel, i + 1);
        lemma_space_end(sel, i + 1);
        lemma_bracket_end(sel, i + 1);
        lemma_elem_end(sel, i + 1);
    }
}

/// The rewritten text of one comma-free selector branch.
pub open spec fn single_text(sel: Seq<char>, scope: Seq<char>) -> Seq<char> {
    rw_text(sel, 0, true, scope)
}

/// The class names of one comma-free selector branch.
pub open spec fn single_classes(sel: Seq<char>) -> Set<Seq<char>> {
    rw_classes(sel, 0, true)
}

/// The first top-level comma at or after `i`: commas standing inside an
/// attribute selector's `[...]` do not count. `s.len()` when there is none.
pub open spec fn toplevel_comma_from(s: Seq<char>, i: int) -> int
    decreases s.len() - i,
    via toplevel_comma_dec
{
    if !(0 <= i < s.len()) {
        i
    } else if s[i] == ',' {
        i
    } else if s[i] == '[' {
        toplevel_comma_from(s, bracket_end(s, i + 1))
    } else {
        toplevel_comma_from(s, i + 1)
    }
}

#[via_fn]
proof fn toplevel_comma_dec(s: Seq<char>, i: int) {
    if 0 <= i < s.len() {
        lemma_bracket_end(s, i + 1);
    }
}

pub proof fn lemma_toplevel_comma(s: Seq<char>, i: int)
    requires
        0 <= i <= s.len(),
    ensures
        i <= toplevel_comma_from(s, i) <= s.len(),
        toplevel_comma_from(s, i) < s.len() ==> s[toplevel_comma_from(s, i)] == ',',
    decreases s.len() - i,
{
    if i < s.len() {
        if s[i] == ',' {
        } else if s[i] == '[' {
            lemma_bracket_end(s, i + 1);
            lemma_toplevel_comma(s, bracket_end(s, i + 1));
        } else {
            lemma_toplevel_comma(s, i + 1);
        }
    }
}

/// The branches of a selector list, in order, untrimmed: the selector is cut
/// at its top-level commas only, never inside `[...]`.
pub open spec fn split_commas(s: Seq<char>) -> Seq<Seq<char>>
    decreases s.len(),
    via split_commas_dec
{
    let p = toplevel_comma_from(s, 0);
    if !(0 <= p < s.len()) {
        seq![s]
    } else {
        seq![s.subrange(0, p)] + split_commas(s.subrange(p + 1, s.len() as int))
    }
}

#[via_fn]
proof fn split_commas_dec(s: Seq<char>) {
    lemma_toplevel_comma(s, 0);
}

/// The rewritten branches joined with `", "`, each branch trimmed first.
pub open spec fn branches_text(bs: Seq<Seq<char>>, scope: Seq<char>) -> Seq<char>
    decreases bs.len(),
{
    if bs.len() == 0 {
        Seq::empty()
    } else if bs.len() == 1 {
        single_text(trim_spec(bs[0]), scope)
    } else {
        single_text(trim_spec(bs[0]), scope) + seq![',', ' '] + branches_text(
            bs.subrange(1, bs.len() as int),
            scope,
        )
    }
}

/// The class names of all branches together.
pub open spec fn branches_classes(bs: Seq<Seq<char>>) -> Set<Seq<char>>
    decreases bs.len(),
{
    if bs.len() == 0 {
        Set::empty()
    } else {
        single_classes(trim_spec(bs[0])).union(branches_classes(bs.subrange(1, bs.len() as int)))
    }
}

proof fn lemma_ident_end_eq(s: Seq<char>, i: int, j: int)
    requires
        0 <= i <= j <= s.len(),
        forall|k: int| i <= k < j ==> is_ident_char(s[k]),
        j == s.len() || !is_ident_char(s[j]),
    ensures
        ident_end(s, i) == j,
    decreases j - i,
{
    if i < j {
        lemma_ident_end_eq(s, i + 1, j);
    }
}

proof fn lemma_elem_end_eq(s: Seq<char>, i: int, j: int)
    requires
        0 <= i <= j <= s.len(),
        forall|k: int| i <= k < j ==> is_elem_char(s[k]),
        j == s.len() || !is_elem_char(s[j]),
    ensures
        elem_end(s, i) == j,
    decreases j - i,
{
    if i < j {
        lemma_elem_end_eq(s, i + 1, j);
    }
}

proof fn lemma_space_end_eq(s: Seq<char>, i: int, j: int)
    requires
        0 <= i <= j <= s.len(),
        forall|k: int| i <= k < j ==> s[k] == ' ',
        j == s.len() || s[j] != ' ',
    ensures
        space_end(s, i) == j,
    decreases j - i,
{
    if i < j {
        lemma_space_end_eq(s, i + 1, j);
    }
}

proof fn lemma_bracket_end_eq(s: Seq<char>, i: int, j: int)
    requires
        0 <= i <= j <= s.len(),
        forall|k: int| i <= k < j ==> s[k] != ']',
        j == s.len() || s[j] == ']',
    ensures
        bracket_end(s, i) == if j < s.len() {
            j + 1
        } else {
            j
        },
    decreases j - i,
{
    if i < j {
        lemma_bracket_end_eq(s, i + 1, j);
    }
}

/// Whether `c` may continue a class or id name.
fn is_ident(c: char) -> (r: bool)
    ensures
        r == is_ident_char(c),
{
    is_alnum(c) || c == '-' || c == '_'
}

/// Whether `c` may continue an element name.
fn is_elem(c: char) -> (r: bool)
    ensures
        r == is_elem_char(c),
{
    is_alnum(c) || c == '-'
}

/// Adds `name` to the collected class names unless an equal string is
/// already there.
fn record_class(class_names: &mut Vec<String>, name: String)
    requires
        distinct_views(old(class_names)@),
    ensures
        distinct_views(final(class_names)@),
        old(class_names)@.is_prefix_of(final(class_names)@),
        view_set(final(class_names)@) == view_set(old(class_names)@).insert(name@),
{
    let n = class_names.len();
    let mut k: usize = 0;
    while k < n
        invariant
            n == class_names@.len(),
            k <= n,
            class_names@ == old(class_names)@,
            distinct_views(old(class_names)@),
            forall|j: int| 0 <= j < k ==> class_names@[j]@ != name@,
        decreases n - k,
    {
        if class_names[k].eq(&name) {
            proof {
                assert(class_names@[k as int]@ == name@);
                assert(view_set(class_names@).contains(name@));
                assert(view_set(final(class_names)@) =~= view_set(old(class_names)@).insert(
                    name@,
                ));
                assert(class_names@.is_prefix_of(class_names@)) by {
                    assert(class_names@ =~= class_names@.subrange(0, class_names@.len() as int));
                }
            }
            return;
        }
        k = k + 1;
    }
    class_names.push(name);
    proof {
        let pre = old(class_names)@;
        let post = class_names@;
        assert(post == pre.push(name));
        assert forall|t: Seq<char>| view_set(post).contains(t) implies view_set(pre).insert(
            name@,
        ).contains(t) by {
            let i = choose|i: int| 0 <= i < post.len() && post[i]@ == t;
            if i < pre.len() {
                assert(pre[i]@ == t);
            }
        }
        assert forall|t: Seq<char>| view_set(pre).insert(name@).contains(t) implies view_set(
            post,
        ).contains(t) by {
            if t == name@ {
                assert(post[post.len() - 1]@ == t);
            } else {
                let i = choose|i: int| 0 <= i < pre.len() && pre[i]@ == t;
                assert(post[i]@ == t);
            }
        }
        assert(view_set(post) =~= view_set(pre).insert(name@));
        assert forall|i2: int, j2: int| 0 <= i2 < j2 < post.len() implies post[i2]@ != post[j2]@ by {
            if j2 == post.len() - 1 {
                assert(post[i2]@ == pre[i2]@);
            }
        }
        assert(pre.is_prefix_of(post)) by {
            assert(pre =~= post.subrange(0, pre.len() as int));
        }
    }
}

/// Rewrites one comma-free selector branch under `scope`, recording every
/// class name it meets in `class_names` without duplicating any.
pub fn scope_single_selector(selector: &str, scope: &str, class_names: &mut Vec<String>) -> (r:
    String)
    requires
        distinct_views(old(class_names)@),
    ensures
        r@ == single_text(selector@, scope@),
        distinct_views(final(class_names)@),
        old(class_names)@.is_prefix_of(final(class_names)@),
        view_set(final(class_names)@) == view_set(old(class_names)@).union(
            single_classes(selector@),
        ),
{
    let cs = chars_of(selector);
    let scv = chars_of(scope);
    let n = cs.len();
    let mut out: Vec<char> = Vec::new();
    let mut at_start: bool = true;
    let mut i: usize = 0;
    while i < n
        invariant
            cs@ == selector@,
            scv@ == scope@,
            n == cs@.len(),
            i <= n,
            distinct_views(class_names@),
            old(class_names)@.is_prefix_of(class_names@),
            single_text(selector@, scope@) == out@ + rw_text(
                selector@,
                i as int,
                at_start,
                scope@,
            ),
            view_set(class_names@).union(rw_classes(selector@, i as int, at_start)) == view_set(
                old(class_names)@,
            ).union(single_classes(selector@)),
        decreases n - i,
    {
        let ghost prev_out = out@;
        let ghost prev_vs = view_set(class_names@);
        let ghost prev_i = i as int;
        let ghost prev_start = at_start;
        let c = cs[i];
        if c == '.' || c == '#' {
            let start = i + 1;
            let mut j = start;
            while j < n && is_ident(cs[j])
                invariant
                    cs@ == selector@,
                    n == cs@.len(),
                    start <= j <= n,
                    forall|k: int| start <= k < j ==> is_ident_char(cs@[k]),
                decreases n - j,
            {
                j = j + 1;
            }
            proof {
                lemma_ident_end_eq(selector@, start as int, j as int);
            }
            let name = copy_range(&cs, start, j);
            if name.len() > 0 {
                out.push(c);
                append_chars(&mut out, &scv);
                out.push('_');
                append_chars(&mut out, &name);
                if c == '.' {
                    let name_s = string_from_chars(&name);
                    record_class(class_names, name_s);
                }
            }
            at_start = false;
            i = j;
            proof {
                let emitted = seq![c] + scope@ + seq!['_'] + name@;
                if name@.len() > 0 {
                    assert(out@ =~= prev_out + emitted);
                    assert(prev_out + emitted + rw_text(selector@, i as int, false, scope@)
                        =~= prev_out + rw_text(selector@, prev_i, prev_start, scope@));
                    if c == '.' {
                        assert(view_set(class_names@) =~= prev_vs.insert(name@));
                        assert(view_set(class_names@).union(
                            rw_classes(selector@, i as int, false),
                        ) =~= prev_vs.union(rw_classes(selector@, prev_i, prev_start)));
                    }
                } else {
                    assert(name@.len() == 0);
                }
            }
        } else if c == ' ' || c == '>' || c == '+' || c == '~' {
            out.push(c);
            let mut j = i + 1;
            while j < n && cs[j] == ' '
                invariant
                    cs@ == selector@,
                    n == cs@.len(),
                    i + 1 <= j <= n,
                    forall|k: int| i + 1 <= k < j ==> cs@[k] == ' ',
                decreases n - j,
            {
                j = j + 1;
            }
            proof {
                lemma_space_end_eq(selector@, prev_i + 1, j as int);
                assert(out@ =~= prev_out + seq![c]);
                assert(prev_out + seq![c] + rw_text(selector@, j as int, true, scope@) =~= prev_out
                    + rw_text(selector@, prev_i, prev_start, scope@));
            }
            at_start = true;
            i = j;
        } else if c == ':' {
            out.push(c);
            at_start = false;
            i = i + 1;
            proof {
                assert(out@ =~= prev_out + seq![':']);
                assert(prev_out + seq![':'] + rw_text(selector@, i as int, false, scope@)
                    =~= prev_out + rw_text(selector@, prev_i, prev_start, scope@));
            }
        } else if c == '[' {
            let mut j = i + 1;
            while j < n && cs[j] != ']'
                invariant
                    cs@ == selector@,
                    n == cs@.len(),
                    i + 1 <= j <= n,
                    forall|k: int| i + 1 <= k < j ==> cs@[k] != ']',
                decreases n - j,
            {
                j = j + 1;
            }
            let e = if j < n {
                j + 1
            } else {
                j
            };
            proof {
                lemma_bracket_end_eq(selector@, prev_i + 1, j as int);
            }
            let piece = copy_range(&cs, i, e);
            append_chars(&mut out, &piece);
            at_start = false;
            i = e;
            proof {
                assert(prev_out + selector@.subrange(prev_i, e as int) + rw_text(
                    selector@,
                    e as int,
                    false,
                    scope@,
                ) =~= prev_out + rw_text(selector@, prev_i, prev_start, scope@));
            }
        } else if is_alpha(c) && at_start {
            let start = i;
            let mut j = i + 1;
            while j < n && is_elem(cs[j])
                invariant
                    cs@ == selector@,
                    n == cs@.len(),
                    start + 1 <= j <= n,
                    forall|k: int| start + 1 <= k < j ==> is_elem_char(cs@[k]),
                decreases n - j,
            {
                j = j + 1;
            }
            proof {
                lemma_elem_end_eq(selector@, start as int + 1, j as int);
            }
            let name = copy_range(&cs, start, j);
            append_chars(&mut out, &name);
            append_str(&mut out, "[data-scope=\"");
            append_chars(&mut out, &scv);
            append_str(&mut out, "\"]");
            at_start = false;
            i = j;
            proof {
                reveal_strlit("[data-scope=\"");
                reveal_strlit("\"]");
                assert("[data-scope=\""@ =~= dscope_prefix());
                assert("\"]"@ =~= dscope_suffix());
                assert(out@ =~= prev_out + name@ + dscope_prefix() + scope@ + dscope_suffix());
                assert(prev_out + name@ + dscope_prefix() + scope@ + dscope_suffix() + rw_text(
                    selector@,
                    i as int,
                    false,
                    scope@,
                ) =~= prev_out + rw_text(selector@, prev_i, prev_start, scope@));
            }
        } else {
            out.push(c);
            at_start = false;
            i = i + 1;
            proof {
                assert(out@ =~= prev_out + seq![c]);
                assert(prev_out + seq![c] + rw_text(selector@, i as int, false, scope@)
                    =~= prev_out + rw_text(selector@, prev_i, prev_start, scope@));
            }
        }
    }
    proof {
        assert(out@ + rw_text(selector@, n as int, at_start, scope@) =~= out@);
        assert(view_set(class_names@).union(rw_classes(selector@, n as int, at_start)) =~= view_set(
            class_names@,
        ));
    }
    string_from_chars(&out)
}

proof fn lemma_prefix_trans(a: Seq<String>, b: Seq<String>, c: Seq<String>)
    requires
        a.is_prefix_of(b),
        b.is_prefix_of(c),
    ensures
        a.is_prefix_of(c),
{
    assert(a =~= c.subrange(0, a.len() as int));
}

/// The position of the first top-level comma at or after `from`, skipping
/// over attribute-selector brackets; the vector's length when there is none.
fn find_toplevel_comma(cs: &Vec<char>, from: usize) -> (r: usize)
    requires
        from <= cs@.len(),
    ensures
        r == toplevel_comma_from(cs@, from as int),
        from <= r && r <= cs@.len(),
{
    let n = cs.len();
    let mut m: usize = from;
    while m < n
        invariant
            n == cs@.len(),
            from <= m <= n,
            toplevel_comma_from(cs@, from as int) == toplevel_comma_from(cs@, m as int),
        decreases n - m,
    {
        let c = cs[m];
        if c == ',' {
            return m;
        }
        if c == '[' {
            let mut j = m + 1;
            while j < n && cs[j] != ']'
                invariant
                    n == cs@.len(),
                    m + 1 <= j <= n,
                    forall|k: int| m + 1 <= k < j ==> cs@[k] != ']',
                decreases n - j,
            {
                j = j + 1;
            }
            let e = if j < n {
                j + 1
            } else {
                j
            };
            proof {
                lemma_bracket_end_eq(cs@, m as int + 1, j as int);
            }
            m = e;
        } else {
            m = m + 1;
        }
    }
    n
}

/// Rewrites a full selector under `scope`: the selector list is split at its
/// top-level commas (never inside `[...]`), each branch trimmed and
/// rewritten on its own, and the results joined with `", "`.
pub fn scope_selector(selector: &str, scope: &str, class_names: &mut Vec<String>) -> (r: String)
    requires
        distinct_views(old(class_names)@),
    ensures
        r@ == selector_text(selector@, scope@),
        distinct_views(final(class_names)@),
        old(class_names)@.is_prefix_of(final(class_names)@),
        view_set(final(class_names)@) == view_set(old(class_names)@).union(
            selector_classes(selector@),
        ),
{
    let cs = chars_of(selector);
    let n = cs.len();
    let mut out: Vec<char> = Vec::new();
    let mut q: usize = 0;
    let mut finished: bool = false;
    proof {
        assert(selector@.subrange(0, n as int) =~= selector@);
        assert(out@ + branches_text(split_commas(selector@), scope@) =~= branches_text(
            split_commas(selector@),
            scope@,
        ));
        assert(class_names@.is_prefix_of(class_names@)) by {
            assert(class_names@ =~= class_names@.subrange(0, class_names@.len() as int));
        }
    }
    while !finished
        invariant
            cs@ == selector@,
            n == cs@.len(),
            q <= n,
            distinct_views(class_names@),
            old(class_names)@.is_prefix_of(class_names@),
            !finished ==> branches_text(split_commas(selector@), scope@) == out@ + branches_text(
                split_commas(selector@.subrange(q as int, n as int)),
                scope@,
            ),
            !finished ==> view_set(class_names@).union(
                branches_classes(split_commas(selector@.subrange(q as int, n as int))),
            ) == view_set(old(class_names)@).union(branches_classes(split_commas(selector@))),
            finished ==> out@ == branches_text(split_commas(selector@), scope@),
            finished ==> view_set(class_names@) == view_set(old(class_names)@).union(
                branches_classes(split_commas(selector@)),
            ),
        decreases n - q + (if finished {
            0int
        } else {
            1int
        }),
    {
        let ghost prev_out = out@;
        let ghost prev_vs = view_set(class_names@);
        let ghost prev_cn = class_names@;
        let ghost prev_q = q as int;
        let ghost rest = selector@.subrange(q as int, n as int);
        let rest_v = copy_range(&cs, q, n);
        let m_rel = find_toplevel_comma(&rest_v, 0);
        let m = q + m_rel;
        proof {
            assert(toplevel_comma_from(rest, 0) == m_rel as int);
        }
        let branch_v = copy_range(&cs, q, m);
        let t = trim_chars(&branch_v);
        let ts = string_from_chars(&t);
        let r1 = scope_single_selector(ts.as_str(), scope, class_names);
        let r1v = chars_of(r1.as_str());
        append_chars(&mut out, &r1v);
        proof {
            lemma_prefix_trans(old(class_names)@, prev_cn, class_names@);
            assert(branch_v@ =~= rest.subrange(0, m - prev_q));
        }
        if m < n {
            append_str(&mut out, ", ");
            q = m + 1;
            proof {
                reveal_strlit(", ");
                assert(", "@ =~= seq![',', ' ']);
                let bs = split_commas(rest);
                let tail = rest.subrange(m - prev_q + 1, rest.len() as int);
                assert(bs == seq![rest.subrange(0, m - prev_q)] + split_commas(tail));
                assert(split_commas(tail).len() >= 1);
                assert(bs.len() >= 2);
                assert(bs[0] == rest.subrange(0, m - prev_q));
                assert(bs.subrange(1, bs.len() as int) =~= split_commas(tail));
                assert(tail =~= selector@.subrange(q as int, n as int));
                assert(r1@ == single_text(trim_spec(bs[0]), scope@));
                assert(branches_text(bs, scope@) == single_text(trim_spec(bs[0]), scope@) + seq![
                    ',',
                    ' ',
                ] + branches_text(bs.subrange(1, bs.len() as int), scope@));
                assert(out@ =~= prev_out + r1@ + seq![',', ' ']);
                assert(out@ + branches_text(
                    split_commas(selector@.subrange(q as int, n as int)),
                    scope@,
                ) =~= prev_out + branches_text(bs, scope@));
                assert(branches_classes(bs) == single_classes(trim_spec(bs[0])).union(
                    branches_classes(bs.subrange(1, bs.len() as int)),
                ));
                assert(view_set(class_names@) == prev_vs.union(single_classes(trim_spec(bs[0]))));
                assert(view_set(class_names@).union(
                    branches_classes(split_commas(selector@.subrange(q as int, n as int))),
                ) =~= prev_vs.union(branches_classes(bs)));
            }
        } else {
            finished = true;
            proof {
                let bs = split_commas(rest);
                assert(toplevel_comma_from(rest, 0) == rest.len());
                assert(bs == seq![rest]);
                assert(bs.len() == 1);
                assert(bs[0] == rest);
                assert(r1@ == single_text(trim_spec(rest), scope@));
                assert(branches_text(bs, scope@) == single_text(trim_spec(bs[0]), scope@));
                assert(out@ =~= prev_out + r1@);
                assert(bs.subrange(1, 1) =~= Seq::<Seq<char>>::empty());
                assert(branches_classes(bs.subrange(1, 1)) == Set::<Seq<char>>::empty());
                assert(branches_classes(bs) =~= single_classes(trim_spec(rest)));
                assert(view_set(class_names@) == prev_vs.union(single_classes(trim_spec(rest))));
                assert(view_set(class_names@) =~= view_set(old(class_names)@).union(
                    branches_classes(split_commas(selector@)),
                ));
            }
        }
    }
    string_from_chars(&out)
}

/// The rewritten text of a full selector: its top-level comma-separated
/// branches, each trimmed and rewritten on its own, joined with `", "`.
pub open spec fn selector_text(sel: Seq<char>, scope: Seq<char>) -> Seq<char> {
    branches_text(split_commas(sel), scope)
}

/// The class names of a full selector.
pub open spec fn selector_classes(sel: Seq<char>) -> Set<Seq<char>> {
    branches_classes(split_commas(sel))
}

} // verus!
