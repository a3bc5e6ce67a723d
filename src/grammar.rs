use vstd::prelude::*;
use vstd::string::StrSliceExecFns;

use crate::name::{ident_char, is_ident_char, is_letter, letter};

verus! {

/// Position `i` of `x` may stand in a dotted path: an identifier character, or
/// a dot that a letter follows.
pub open spec fn path_char_ok(x: Seq<char>, i: int) -> bool {
    ||| is_ident_char(x[i])
    ||| (x[i] == '.' && i + 1 < x.len() && is_letter(x[i + 1]))
}

/// `x` is one or more identifiers joined by dots (`segment ('.' segment)*`).
pub open spec fn is_name_path(x: Seq<char>) -> bool {
    &&& x.len() > 0
    &&& is_letter(x[0])
    &&& forall|i: int| 0 <= i < x.len() ==> #[trigger] path_char_ok(x, i)
}

/// The first `n` characters of `s` end in a lone `_` segment, after nothing or
/// after a dotted path and a dot, and no identifier character follows it.
pub open spec fn underscore_end(s: Seq<char>, n: int) -> bool {
    &&& s[n - 1] == '_'
    &&& (n == 1 || (s[n - 2] == '.' && is_name_path(s.subrange(0, n - 2))))
    &&& (n == s.len() || !is_ident_char(s[n]))
}

/// The first `n` characters of `s` form a name token:
/// `(segment '.')* (segment | '_')`, where a lone `_` must end a word.
pub open spec fn token_at(s: Seq<char>, n: int) -> bool {
    &&& 0 < n <= s.len()
    &&& (is_name_path(s.subrange(0, n)) || underscore_end(s, n))
}

/// A path that the letter at `p` starts after a dot (or at the start) extends
/// over the identifier characters that follow.
proof fn lemma_path_extend(s: Seq<char>, p: int, q: int)
    requires
        0 <= p < q <= s.len(),
        p == 0 || (s[p - 1] == '.' && is_name_path(s.subrange(0, p - 1))),
        is_letter(s[p]),
        forall|k: int| p <= k < q ==> #[trigger] is_ident_char(s[k]),
    ensures
        is_name_path(s.subrange(0, q)),
{
    let x = s.subrange(0, q);
    assert forall|i: int| 0 <= i < x.len() implies #[trigger] path_char_ok(x, i) by {
        if i < p - 1 {
            let y = s.subrange(0, p - 1);
            assert(path_char_ok(y, i));
            assert(y[i] == x[i]);
            if i + 1 < y.len() {
                assert(y[i + 1] == x[i + 1]);
            }
        } else if i == p - 1 {
            assert(x[i + 1] == s[p]);
        } else {
            assert(is_ident_char(s[i]));
        }
    }
    if p > 0 {
        assert(is_letter(s.subrange(0, p - 1)[0]));
    }
}

/// A path cannot reach past a position `p` that holds no letter, when `p` is
/// the start or follows a dot.
proof fn lemma_blocked(s: Seq<char>, p: int, m: int)
    requires
        0 <= p < m <= s.len(),
        p == 0 || s[p - 1] == '.',
        !is_letter(s[p]),
    ensures
        !is_name_path(s.subrange(0, m)),
{
    let x = s.subrange(0, m);
    if p > 0 && is_name_path(x) {
        assert(path_char_ok(x, p - 1));
        assert(x[p - 1] == '.');
        assert(x[p] == s[p]);
    }
}

/// A character that is neither an identifier character nor a dot stops every
/// path that would cover it.
proof fn lemma_stopped(s: Seq<char>, q: int, m: int)
    requires
        0 <= q < m <= s.len(),
        !is_ident_char(s[q]),
        s[q] != '.',
    ensures
        !is_name_path(s.subrange(0, m)),
{
    if is_name_path(s.subrange(0, m)) {
        assert(path_char_ok(s.subrange(0, m), q));
    }
}

/// A text that ends in a dot is no path.
proof fn lemma_ends_in_dot(s: Seq<char>, p: int)
    requires
        0 < p <= s.len(),
        s[p - 1] == '.',
    ensures
        !is_name_path(s.subrange(0, p)),
{
    if is_name_path(s.subrange(0, p)) {
        assert(path_char_ok(s.subrange(0, p), p - 1));
    }
}

/// The length, in characters, of the longest name token at the start of
/// `text`, or `None` where no prefix is one. A scanner finds `foo.Bar` in
/// `foo.Bar(x)` and stops before the parenthesis.
pub fn fqn_prefix_len(text: &str) -> (r: Option<usize>)
    ensures
        r matches Some(m) ==> token_at(text@, m as int),
        r matches Some(m) ==> forall|j: int| m < j ==> !#[trigger] token_at(text@, j),
        r is None ==> forall|j: int| !#[trigger] token_at(text@, j),
{
    let ghost s = text@;
    let n = text.unicode_len();
    let mut best: Option<usize> = None;
    let mut p: usize = 0;
    loop
        invariant
            p <= n,
            n == s.len(),
            s == text@,
            p == 0 ==> best is None,
            p > 0 ==> s[p - 1] == '.' && is_name_path(s.subrange(0, p - 1)) && best == Some(
                (p - 1) as usize,
            ),
            forall|m: int|
                0 < m <= p && #[trigger] token_at(s, m) ==> (best matches Some(b) && m <= b),
        decreases n - p,
    {
        if p < n && letter(text.get_char(p)) {
            let mut q: usize = p + 1;
            while q < n && ident_char(text.get_char(q))
                invariant
                    p < q <= n,
                    n == s.len(),
                    s == text@,
                    forall|k: int| p < k < q ==> #[trigger] is_ident_char(s[k]),
                decreases n - q,
            {
                q = q + 1;
            }
            proof {
                assert(is_ident_char(s[p as int]));
                lemma_path_extend(s, p as int, q as int);
            }
            if q < n && text.get_char(q) == '.' {
                proof {
                    assert forall|m: int|
                        0 < m <= q + 1 && #[trigger] token_at(s, m) implies m <= q by {
                        if m == q + 1 {
                            lemma_ends_in_dot(s, m);
                        }
                    }
                }
                best = Some(q);
                p = q + 1;
            } else {
                proof {
                    assert forall|j: int| q < j implies !#[trigger] token_at(s, j) by {
                        if 0 < j <= n {
                            lemma_stopped(s, q as int, j);
                            if j - 2 > q {
                                lemma_stopped(s, q as int, j - 2);
                            }
                        }
                    }
                }
                return Some(q);
            }
        } else if p < n && text.get_char(p) == '_' && (p + 1 == n || !ident_char(
            text.get_char(p + 1),
        )) {
            proof {
                assert forall|j: int| p + 1 < j implies !#[trigger] token_at(s, j) by {
                    if j <= n {
                        lemma_blocked(s, p as int, j);
                        if j - 2 > p {
                            lemma_blocked(s, p as int, j - 2);
                        }
                    }
                }
            }
            return Some(p + 1);
        } else {
            proof {
                assert forall|j: int| p < j implies !#[trigger] token_at(s, j) by {
                    if j <= n {
                        lemma_blocked(s, p as int, j);
                        if j - 2 > p {
                            lemma_blocked(s, p as int, j - 2);
                        } else if j - 2 == p && p > 0 {
                            lemma_ends_in_dot(s, p as int);
                        }
                    }
                }
                if best is Some {
                    assert(s.subrange(0, (p - 1) as int).len() > 0);
                }
            }
            return best;
        }
    }
}

} // verus!
