//! The style registry: an insertion-ordered, deduplicating map from scope
//! token to scoped stylesheet text.
//!
//! The registry is an explicitly constructed value; whoever orchestrates a
//! build or render pipeline owns one and passes it by reference to every
//! caller that registers or reads styles.

use crate::chars::{append_str, distinct_views, str_eq, string_from_chars};
use vstd::prelude::*;

verus! {

/// The texts of `es` concatenated in order, each followed by a newline.
pub open spec fn concat_texts(es: Seq<(Seq<char>, Seq<char>)>) -> Seq<char>
    decreases es.len(),
{
    if es.len() == 0 {
        Seq::empty()
    } else {
        es[0].1 + seq!['\n'] + concat_texts(es.subrange(1, es.len() as int))
    }
}

/// Tracks every scoped stylesheet: at most one entry per token, texts
/// replaceable in place, first-seen order preserved across replacements.
#[derive(Debug)]
pub struct StyleRegistry {
    tokens: Vec<String>,
    texts: Vec<String>,
}

impl StyleRegistry {
    /// One text per token, and no token twice.
    pub closed spec fn wf(self) -> bool {
        self.tokens@.len() == self.texts@.len() && distinct_views(self.tokens@)
    }

    /// The registered (token, text) pairs, in first-registration order.
    pub closed spec fn entries(self) -> Seq<(Seq<char>, Seq<char>)> {
        Seq::new(self.tokens@.len() as nat, |i: int| (self.tokens@[i]@, self.texts@[i]@))
    }

    /// Whether some entry carries the token `t`.
    pub open spec fn has_token(self, t: Seq<char>) -> bool {
        exists|i: int| 0 <= i < self.entries().len() && self.entries()[i].0 == t
    }

    /// The position of the entry carrying `t`.
    pub open spec fn token_index(self, t: Seq<char>) -> int {
        choose|i: int| 0 <= i < self.entries().len() && self.entries()[i].0 == t
    }

    /// Creates an empty registry.
    pub fn new() -> (r: StyleRegistry)
        ensures
            r.wf(),
            r.entries() == Seq::<(Seq<char>, Seq<char>)>::empty(),
    {
        let r = StyleRegistry { tokens: Vec::new(), texts: Vec::new() };
        proof {
            assert(r.entries() =~= Seq::<(Seq<char>, Seq<char>)>::empty());
        }
        r
    }

    /// Inserts or replaces the entry for `hash`: a new token is appended at
    /// the end of the order, a known token keeps its position and only its
    /// text changes.
    pub fn register(&mut self, hash: String, css: String)
        requires
            old(self).wf(),
        ensures
            final(self).wf(),
            old(self).has_token(hash@) ==> final(self).entries() == old(self).entries().update(
                old(self).token_index(hash@),
                (hash@, css@),
            ),
            !old(self).has_token(hash@) ==> final(self).entries() == old(self).entries().push(
                (hash@, css@),
            ),
    {
        let n = self.tokens.len();
        let mut k: usize = 0;
        while k < n
            invariant
                n == self.tokens@.len(),
                k <= n,
                *self == *old(self),
                old(self).wf(),
                forall|j: int| 0 <= j < k ==> self.tokens@[j]@ != hash@,
            decreases n - k,
        {
            if self.tokens[k].eq(&hash) {
                self.texts[k] = css;
                proof {
                    let oe = old(self).entries();
                    assert(oe[k as int].0 == hash@);
                    assert(old(self).has_token(hash@));
                    let ci = old(self).token_index(hash@);
                    assert(0 <= ci < oe.len() && oe[ci].0 == hash@);
                    if ci != k as int {
                        assert(old(self).tokens@[ci]@ == old(self).tokens@[k as int]@);
                        assert(false);
                    }
                    assert(self.entries() =~= oe.update(k as int, (hash@, css@)));
                }
                return;
            }
            k = k + 1;
        }
        self.tokens.push(hash);
        self.texts.push(css);
        proof {
            if old(self).has_token(hash@) {
                let i = choose|i: int|
                    0 <= i < old(self).entries().len() && old(self).entries()[i].0 == hash@;
                assert(old(self).tokens@[i]@ == hash@);
                assert(false);
            }
            assert(self.entries() =~= old(self).entries().push((hash@, css@)));
            assert forall|i2: int, j2: int|
                0 <= i2 < j2 < self.tokens@.len() implies self.tokens@[i2]@
                != self.tokens@[j2]@ by {
                if j2 == self.tokens@.len() - 1 {
                    assert(self.tokens@[i2]@ == old(self).tokens@[i2]@);
                }
            }
        }
    }

    /// The concatenation of every registered text in first-seen order, each
    /// followed by a newline; empty when nothing is registered.
    pub fn get_all_styles(&self) -> (r: String)
        requires
            self.wf(),
        ensures
            r@ == concat_texts(self.entries()),
    {
        let mut out: Vec<char> = Vec::new();
        let n = self.texts.len();
        proof {
            assert(self.entries().subrange(0, n as int) =~= self.entries());
        }
        let mut k: usize = 0;
        while k < n
            invariant
                self.wf(),
                n == self.texts@.len(),
                k <= n,
                concat_texts(self.entries()) == out@ + concat_texts(
                    self.entries().subrange(k as int, n as int),
                ),
            decreases n - k,
        {
            let ghost prev = out@;
            let ghost rem = self.entries().subrange(k as int, n as int);
            append_str(&mut out, self.texts[k].as_str());
            out.push('\n');
            k = k + 1;
            proof {
                assert(rem[0] == self.entries()[k - 1]);
                assert(rem.subrange(1, rem.len() as int) =~= self.entries().subrange(
                    k as int,
                    n as int,
                ));
                assert(out@ =~= prev + (rem[0].1 + seq!['\n']));
                assert(prev + (rem[0].1 + seq!['\n']) + concat_texts(
                    self.entries().subrange(k as int, n as int),
                ) =~= prev + concat_texts(rem));
            }
        }
        proof {
            assert(self.entries().subrange(n as int, n as int) =~= Seq::<(
                Seq<char>,
                Seq<char>,
            )>::empty());
            assert(out@ + concat_texts(Seq::<(Seq<char>, Seq<char>)>::empty()) =~= out@);
        }
        string_from_chars(&out)
    }

    /// Whether `hash` is already registered.
    pub fn contains(&self, hash: &str) -> (r: bool)
        ensures
            r == self.has_token(hash@),
    {
        let n = self.tokens.len();
        let mut k: usize = 0;
        while k < n
            invariant
                n == self.tokens@.len(),
                k <= n,
                forall|j: int| 0 <= j < k ==> self.tokens@[j]@ != hash@,
            decreases n - k,
        {
            if str_eq(self.tokens[k].as_str(), hash) {
                proof {
                    assert(self.entries()[k as int].0 == hash@);
                }
                return true;
            }
            k = k + 1;
        }
        proof {
            if self.has_token(hash@) {
                let i = choose|i: int|
                    0 <= i < self.entries().len() && self.entries()[i].0 == hash@;
                assert(self.tokens@[i]@ == hash@);
                assert(false);
            }
        }
        false
    }

    /// Removes every entry and resets the order; meant for test isolation.
    pub fn clear(&mut self)
        ensures
            final(self).wf(),
            final(self).entries() == Seq::<(Seq<char>, Seq<char>)>::empty(),
    {
        self.tokens.clear();
        self.texts.clear();
        proof {
            assert(self.entries() =~= Seq::<(Seq<char>, Seq<char>)>::empty());
        }
    }

    /// How many stylesheets are registered.
    pub fn len(&self) -> (r: usize)
        requires
            self.wf(),
        ensures
            r == self.entries().len(),
    {
        self.tokens.len()
    }

    /// Whether nothing is registered yet.
    pub fn is_empty(&self) -> (r: bool)
        requires
            self.wf(),
        ensures
            r == (self.entries().len() == 0),
    {
        self.tokens.is_empty()
    }
}

/// The aggregated text of every stylesheet in `registry`, in first-seen
/// order, ready to stand in one style element.
pub fn inject_styles(registry: &StyleRegistry) -> (r: String)
    requires
        registry.wf(),
    ensures
        r@ == concat_texts(registry.entries()),
{
    registry.get_all_styles()
}

/// A handle to one scoped stylesheet: its token, registered on creation.
#[derive(Debug, Clone)]
pub struct ScopedStyle {
    pub scope: String,
}

impl ScopedStyle {
    /// Registers `css` under `scope` in `registry` and keeps the token.
    pub fn new(registry: &mut StyleRegistry, scope: String, css: String) -> (r: ScopedStyle)
        requires
            old(registry).wf(),
        ensures
            final(registry).wf(),
            r.scope@ == scope@,
            old(registry).has_token(scope@) ==> final(registry).entries() == old(
                registry,
            ).entries().update(old(registry).token_index(scope@), (scope@, css@)),
            !old(registry).has_token(scope@) ==> final(registry).entries() == old(
                registry,
            ).entries().push((scope@, css@)),
    {
        let token = scope.clone();
        registry.register(token, css);
        ScopedStyle { scope }
    }

    /// The scope token, for building class names.
    pub fn scope(&self) -> (r: &str)
        ensures
            r@ == self.scope@,
    {
        self.scope.as_str()
    }
}

} // verus!
