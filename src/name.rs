use vstd::prelude::*;
use vstd::string::{StrSliceExecFns, StringExecFns};

verus! {

/// An ASCII letter: the only character a name may start with.
pub open spec fn is_letter(c: char) -> bool {
    ('a' <= c && c <= 'z') || ('A' <= c && c <= 'Z')
}

/// A character that may follow the first one in a name.
pub open spec fn is_ident_char(c: char) -> bool {
    is_letter(c) || ('0' <= c && c <= '9') || c == '_'
}

/// A valid identifier: a letter, then letters, digits and underscores.
pub open spec fn is_valid_name(s: Seq<char>) -> bool {
    &&& s.len() > 0
    &&& is_letter(s[0])
    &&& forall|i: int| 1 <= i < s.len() ==> #[trigger] is_ident_char(s[i])
}

pub(crate) fn letter(c: char) -> (r: bool)
    ensures
        r == is_letter(c),
{
    ('a' <= c && c <= 'z') || ('A' <= c && c <= 'Z')
}

pub(crate) fn ident_char(c: char) -> (r: bool)
    ensures
        r == is_ident_char(c),
{
    letter(c) || ('0' <= c && c <= '9') || c == '_'
}

/// Decides whether `text` is a valid identifier.
fn check_name(text: &str) -> (r: bool)
    ensures
        r == is_valid_name(text@),
{
    let n = text.unicode_len();
    if n == 0 {
        return false;
    }
    if !letter(text.get_char(0)) {
        return false;
    }
    let mut i: usize = 1;
    while i < n
        invariant
            1 <= i <= n,
            n == text@.len(),
            is_letter(text@[0]),
            forall|k: int| 1 <= k < i ==> #[trigger] is_ident_char(text@[k]),
        decreases n - i,
    {
        if !ident_char(text.get_char(i)) {
            return false;
        }
        i = i + 1;
    }
    true
}

/// The error of a text that is not a valid identifier; it holds that text.
#[derive(Debug, Clone)]
pub struct NameError {
    pub text: String,
}

/// One segment of a path: a non-empty, dot-free identifier.
#[derive(Debug, Eq, Hash)]
pub struct Name {
    text: String,
}

impl View for Name {
    type V = Seq<char>;

    closed spec fn view(&self) -> Seq<char> {
        self.text@
    }
}

impl Name {
    #[verifier::type_invariant]
    pub(crate) open spec fn inv(&self) -> bool {
        is_valid_name(self@)
    }

    /// Validates `text` as an identifier.
    pub fn new(text: &str) -> (r: Result<Name, NameError>)
        ensures
            r is Ok <==> is_valid_name(text@),
            r matches Ok(n) ==> n@ == text@,
            r matches Err(e) ==> e.text@ == text@,
    {
        if check_name(text) {
            Ok(Name { text: String::from_str(text) })
        } else {
            Err(NameError { text: String::from_str(text) })
        }
    }

    /// Wraps a text that the caller knows to be a valid identifier.
    pub fn from_valid(text: &str) -> (r: Name)
        requires
            is_valid_name(text@),
        ensures
            r@ == text@,
    {
        Name { text: String::from_str(text) }
    }

    pub fn as_str(&self) -> (r: &str)
        ensures
            r@ == self@,
            is_valid_name(r@),
    {
        proof {
            use_type_invariant(self);
        }
        self.text.as_str()
    }

    /// An owned name with the same text.
    pub(crate) fn duplicate(&self) -> (r: Name)
        ensures
            r@ == self@,
    {
        proof {
            use_type_invariant(self);
        }
        Name { text: String::from_str(self.text.as_str()) }
    }
}

impl Clone for Name {
    fn clone(&self) -> (r: Name) {
        self.duplicate()
    }
}

impl PartialEq for Name {
    fn eq(&self, other: &Name) -> (r: bool) {
        self.text == other.text
    }
}

impl vstd::std_specs::cmp::PartialEqSpecImpl for Name {
    open spec fn obeys_eq_spec() -> bool {
        true
    }

    open spec fn eq_spec(&self, other: &Name) -> bool {
        self@ == other@
    }
}

impl PartialEq<str> for Name {
    fn eq(&self, other: &str) -> (r: bool) {
        str_eq(self.text.as_str(), other)
    }
}

impl vstd::std_specs::cmp::PartialEqSpecImpl<str> for Name {
    open spec fn obeys_eq_spec() -> bool {
        true
    }

    open spec fn eq_spec(&self, other: &str) -> bool {
        self@ == other@
    }
}

/// Character-wise equality of two texts.
fn str_eq(a: &str, b: &str) -> (r: bool)
    ensures
        r == (a@ == b@),
{
    let n = a.unicode_len();
    if n != b.unicode_len() {
        return false;
    }
    let mut i: usize = 0;
    while i < n
        invariant
            i <= n,
            n == a@.len(),
            n == b@.len(),
            forall|k: int| 0 <= k < i ==> a@[k] == b@[k],
        decreases n - i,
    {
        if a.get_char(i) != b.get_char(i) {
            return false;
        }
        i = i + 1;
    }
    assert(a@ =~= b@);
    true
}

} // verus!
