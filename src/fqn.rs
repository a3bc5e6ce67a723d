use vstd::prelude::*;
use vstd::string::{StrSliceExecFns, StringExecFns};

use crate::name::{is_ident_char, is_valid_name, Name, NameError};

verus! {

/// The pieces of `s` between its dots, in order: a text with `d` dots has
/// `d + 1` pieces, some of them possibly empty.
pub open spec fn split_dotted(s: Seq<char>) -> Seq<Seq<char>>
    decreases s.len(),
{
    if s.len() == 0 {
        seq![Seq::empty()]
    } else {
        let pre = split_dotted(s.drop_last());
        if s.last() == '.' {
            pre.push(Seq::empty())
        } else {
            pre.update(pre.len() - 1, pre.last().push(s.last()))
        }
    }
}

/// The pieces joined with a dot between each two.
pub open spec fn join_dotted(parts: Seq<Seq<char>>) -> Seq<char>
    decreases parts.len(),
{
    if parts.len() == 0 {
        Seq::empty()
    } else if parts.len() == 1 {
        parts[0]
    } else {
        join_dotted(parts.drop_last()) + seq!['.'] + parts.last()
    }
}

/// Every piece is a valid identifier.
pub open spec fn valid_pieces(parts: Seq<Seq<char>>) -> bool {
    forall|k: int| 0 <= k < parts.len() ==> #[trigger] is_valid_name(parts[k])
}

/// `k` is the position of the first piece that is not a valid identifier.
pub open spec fn first_invalid(parts: Seq<Seq<char>>, k: int) -> bool {
    &&& 0 <= k < parts.len()
    &&& !is_valid_name(parts[k])
    &&& forall|j: int| 0 <= j < k ==> #[trigger] is_valid_name(parts[j])
}

proof fn lemma_split_len(s: Seq<char>)
    ensures
        split_dotted(s).len() >= 1,
    decreases s.len(),
{
    if s.len() > 0 {
        lemma_split_len(s.drop_last());
    }
}

/// Splitting a longer text keeps every closed piece of a prefix.
proof fn lemma_split_prefix(s: Seq<char>, j: int)
    requires
        0 <= j <= s.len(),
    ensures
        split_dotted(s).len() >= split_dotted(s.subrange(0, j)).len(),
        forall|k: int|
            0 <= k < split_dotted(s.subrange(0, j)).len() - 1 ==> #[trigger] split_dotted(s)[k]
                == split_dotted(s.subrange(0, j))[k],
    decreases s.len(),
{
    if j == s.len() {
        assert(s.subrange(0, j) =~= s);
    } else {
        let t = s.drop_last();
        assert(t.subrange(0, j) =~= s.subrange(0, j));
        lemma_split_prefix(t, j);
        lemma_split_len(t);
    }
}

/// Appending dot-free characters extends the last piece.
proof fn lemma_split_extend(x: Seq<char>, y: Seq<char>)
    requires
        forall|i: int| 0 <= i < y.len() ==> y[i] != '.',
    ensures
        split_dotted(x + y) == split_dotted(x).update(
            split_dotted(x).len() - 1,
            split_dotted(x).last() + y,
        ),
    decreases y.len(),
{
    lemma_split_len(x);
    if y.len() == 0 {
        assert(x + y =~= x);
        assert(split_dotted(x).last() + y =~= split_dotted(x).last());
        assert(split_dotted(x).update(split_dotted(x).len() - 1, split_dotted(x).last())
            =~= split_dotted(x));
    } else {
        let y0 = y.drop_last();
        lemma_split_extend(x, y0);
        assert((x + y).drop_last() =~= x + y0);
        assert(split_dotted(x).last() + y =~= (split_dotted(x).last() + y0).push(y.last()));
        assert(split_dotted(x + y) =~= split_dotted(x).update(
            split_dotted(x).len() - 1,
            split_dotted(x).last() + y,
        ));
    }
}

proof fn lemma_name_dot_free(s: Seq<char>)
    requires
        is_valid_name(s),
    ensures
        forall|i: int| 0 <= i < s.len() ==> s[i] != '.',
{
    assert forall|i: int| 0 <= i < s.len() implies s[i] != '.' by {
        if i > 0 {
            assert(is_ident_char(s[i]));
        }
    }
}

proof fn lemma_split_join(parts: Seq<Seq<char>>)
    requires
        parts.len() >= 1,
        valid_pieces(parts),
    ensures
        split_dotted(join_dotted(parts)) == parts,
    decreases parts.len(),
{
    let last = parts.last();
    assert(is_valid_name(parts[parts.len() - 1]));
    lemma_name_dot_free(last);
    if parts.len() == 1 {
        let e = Seq::<char>::empty();
        lemma_split_extend(e, last);
        assert(e + last =~= last);
        assert(split_dotted(e) =~= seq![e]);
        assert(e + last =~= last);
        assert(seq![e].update(0, e + last) =~= parts);
    } else {
        let init = parts.drop_last();
        assert(valid_pieces(init)) by {
            assert forall|k: int| 0 <= k < init.len() implies #[trigger] is_valid_name(init[k]) by {
                assert(init[k] == parts[k]);
            }
        }
        lemma_split_join(init);
        let j = join_dotted(init);
        let jd = j + seq!['.'];
        assert(jd.drop_last() =~= j);
        lemma_split_extend(jd, last);
        assert(jd + last =~= join_dotted(parts));
        let e = Seq::<char>::empty();
        assert(e + last =~= last);
        assert(split_dotted(jd) == init.push(e));
        assert(init.push(e).update(init.len() as int, e + last) =~= parts);
    }
}

/// Round trip from the text side: joining the pieces of any text gives the text
/// back, so whatever `Fqn::new` accepts, `as_string` reproduces exactly.
pub proof fn law_text_round_trip(s: Seq<char>)
    ensures
        join_dotted(split_dotted(s)) == s,
    decreases s.len(),
{
    if s.len() == 0 {
        assert(split_dotted(s) =~= seq![Seq::<char>::empty()]);
        assert(s =~= Seq::<char>::empty());
    } else {
        let t = s.drop_last();
        law_text_round_trip(t);
        lemma_split_len(t);
        let pre = split_dotted(t);
        if s.last() == '.' {
            assert(pre.push(Seq::empty()).drop_last() =~= pre);
            assert(join_dotted(pre) + seq!['.'] + Seq::<char>::empty() =~= s);
        } else {
            let post = pre.update(pre.len() - 1, pre.last().push(s.last()));
            if pre.len() == 1 {
                assert(post[0] =~= t.push(s.last()));
                assert(t.push(s.last()) =~= s);
            } else {
                assert(post.drop_last() =~= pre.drop_last());
                assert(join_dotted(post) =~= join_dotted(pre).push(s.last()));
                assert(t.push(s.last()) =~= s);
            }
        }
    }
}

/// Round trip: a text made of valid identifiers joined by dots splits back into
/// exactly those identifiers, so `Fqn::new` accepts it and `as_string` gives the
/// same text back.
pub proof fn law_round_trip(parts: Seq<Seq<char>>)
    requires
        parts.len() >= 1,
        valid_pieces(parts),
    ensures
        split_dotted(join_dotted(parts)) == parts,
        valid_pieces(split_dotted(join_dotted(parts))),
        join_dotted(split_dotted(join_dotted(parts))) == join_dotted(parts),
{
    lemma_split_join(parts);
}

/// Fully-qualified name path, e.g. `package.module1.module2.Type`: a non-empty
/// sequence of identifiers, outermost scope first.
#[derive(Debug, Eq, Hash)]
pub struct Fqn {
    names: Vec<Name>,
}

/// The texts of the names, in order.
pub open spec fn name_views(names: Seq<Name>) -> Seq<Seq<char>> {
    names.map_values(|n: Name| n@)
}

impl View for Fqn {
    type V = Seq<Seq<char>>;

    closed spec fn view(&self) -> Seq<Seq<char>> {
        name_views(self.names@)
    }
}

impl Fqn {
    #[verifier::type_invariant]
    spec fn inv(&self) -> bool {
        &&& self.names.len() >= 1
        &&& valid_pieces(name_views(self.names@))
    }

    /// Splits `text` on its dots and validates each piece as an identifier.
    /// Fails with the first piece that is not one (an empty piece included).
    pub fn new(text: &str) -> (r: Result<Fqn, NameError>)
        ensures
            r is Ok <==> valid_pieces(split_dotted(text@)),
            r matches Ok(f) ==> f@ == split_dotted(text@),
            r matches Err(e) ==> exists|k: int|
                first_invalid(split_dotted(text@), k) && e.text@ == split_dotted(text@)[k],
    {
        let ghost s = text@;
        let n = text.unicode_len();
        let mut names: Vec<Name> = Vec::new();
        let mut start: usize = 0;
        let mut i: usize = 0;
        proof {
            assert(s.subrange(0, 0) =~= Seq::<char>::empty());
            assert(name_views(names@) + seq![s.subrange(0, 0)] =~= split_dotted(s.subrange(0, 0)));
        }
        while i < n
            invariant
                start <= i <= n,
                n == s.len(),
                s == text@,
                name_views(names@) + seq![s.subrange(start as int, i as int)] == split_dotted(
                    s.subrange(0, i as int),
                ),
                valid_pieces(name_views(names@)),
            decreases n - i,
        {
            let c = text.get_char(i);
            let ghost before = name_views(names@);
            proof {
                assert(s.subrange(0, i + 1).drop_last() =~= s.subrange(0, i as int));
            }
            if c == '.' {
                let piece = text.substring_char(start, i);
                proof {
                    lemma_split_prefix(s, i + 1);
                }
                match Name::new(piece) {
                    Ok(nm) => {
                        names.push(nm);
                        proof {
                            assert(name_views(names@) =~= before.push(piece@));
                            assert(s.subrange(i + 1, i + 1) =~= Seq::<char>::empty());
                            assert(name_views(names@) + seq![s.subrange(i + 1, i + 1)]
                                =~= split_dotted(s.subrange(0, i + 1)));
                        }
                        start = i + 1;
                    },
                    Err(e) => {
                        proof {
                            let k = before.len() as int;
                            let all = split_dotted(s);
                            assert(split_dotted(s.subrange(0, i + 1))[k] == piece@);
                            assert(all[k] == piece@);
                            assert forall|j: int| 0 <= j < k implies #[trigger] is_valid_name(
                                all[j],
                            ) by {
                                assert(all[j] == split_dotted(s.subrange(0, i + 1))[j]);
                                assert(is_valid_name(before[j]));
                            }
                            assert(first_invalid(all, k));
                        }
                        return Err(e);
                    },
                }
            } else {
                proof {
                    let cur = s.subrange(start as int, i as int);
                    assert(s.subrange(start as int, i + 1) =~= cur.push(c));
                    assert(s.subrange(0, i + 1).last() == c);
                    assert((before + seq![cur]).update(before.len() as int, cur.push(c)) =~= before
                        + seq![cur.push(c)]);
                }
            }
            i = i + 1;
        }
        let piece = text.substring_char(start, n);
        proof {
            assert(s.subrange(0, n as int) =~= s);
        }
        let ghost before = name_views(names@);
        match Name::new(piece) {
            Ok(nm) => {
                names.push(nm);
                proof {
                    assert(name_views(names@) =~= before.push(piece@));
                    assert(name_views(names@) =~= split_dotted(s));
                }
                Ok(Fqn { names })
            },
            Err(e) => {
                proof {
                    let k = before.len() as int;
                    let all = split_dotted(s);
                    assert(all[k] == piece@);
                    assert forall|j: int| 0 <= j < k implies #[trigger] is_valid_name(all[j]) by {
                        assert(all[j] == before[j]);
                    }
                    assert(first_invalid(all, k));
                }
                Err(e)
            },
        }
    }

    /// The one-segment path made of `name`.
    pub fn from_name(name: Name) -> (r: Fqn)
        ensures
            r@ == seq![name@],
    {
        proof {
            use_type_invariant(&name);
        }
        let names = vec![name];
        proof {
            assert(name_views(names@) =~= seq![name@]);
            assert(is_valid_name(names@[0]@));
        }
        Fqn { names }
    }

    /// The path's text: its segments joined with dots.
    pub fn as_string(&self) -> (r: String)
        ensures
            r@ == join_dotted(self@),
    {
        proof {
            use_type_invariant(self);
            reveal_strlit(".");
        }
        let v = Ghost(self@);
        let mut out = String::from_str(self.names[0].as_str());
        proof {
            assert(v@.subrange(0, 1) =~= seq![v@[0]]);
        }
        let mut k: usize = 1;
        while k < self.names.len()
            invariant
                1 <= k <= self.names.len(),
                v@ == self@,
                v@.len() == self.names.len(),
                out@ == join_dotted(v@.subrange(0, k as int)),
            decreases self.names.len() - k,
        {
            let ghost prev = out@;
            out.append(".");
            out.append(self.names[k].as_str());
            proof {
                reveal_strlit(".");
                assert(out@ =~= prev + seq!['.'] + v@[k as int]);
                let sub = v@.subrange(0, k + 1);
                assert(sub.drop_last() =~= v@.subrange(0, k as int));
                assert(sub.last() == v@[k as int]);
            }
            k = k + 1;
        }
        proof {
            assert(v@.subrange(0, k as int) =~= v@);
        }
        out
    }

    /// Appends `addition` as the new innermost segment.
    pub fn push(&mut self, addition: Name)
        ensures
            final(self)@ == old(self)@.push(addition@),
    {
        proof {
            use_type_invariant(&*self);
            use_type_invariant(&addition);
        }
        let ghost before = self@;
        let mut grown = Fqn::from_name(addition.duplicate());
        core::mem::swap(self, &mut grown);
        let Fqn { mut names } = grown;
        names.push(addition);
        proof {
            assert(name_views(names@) =~= before.push(addition@));
        }
        *self = Fqn { names };
    }

    /// The number of segments, at least one.
    pub fn len(&self) -> (r: usize)
        ensures
            r == self@.len(),
            r >= 1,
    {
        proof {
            use_type_invariant(self);
        }
        self.names.len()
    }

    /// The segments in order, outermost first.
    pub fn parts(&self) -> (r: &[Name])
        ensures
            r@.len() == self@.len(),
            forall|k: int| 0 <= k < r@.len() ==> #[trigger] r@[k]@ == self@[k],
            valid_pieces(self@),
    {
        proof {
            use_type_invariant(self);
        }
        self.names.as_slice()
    }

    /// Whether the path has a single segment.
    pub fn is_simple(&self) -> (r: bool)
        ensures
            r == (self@.len() == 1),
    {
        self.names.len() == 1
    }

    /// The sole segment of a one-segment path; `None` for a longer one.
    pub fn as_simple_name(&self) -> (r: Option<Name>)
        ensures
            r is Some <==> self@.len() == 1,
            r matches Some(n) ==> n@ == self@[0],
    {
        if self.names.len() == 1 {
            return Some(self.names[0].duplicate());
        }
        None
    }

    /// The last (innermost) segment.
    pub fn leaf(&self) -> (r: &Name)
        ensures
            r@ == self@.last(),
    {
        proof {
            use_type_invariant(self);
        }
        &self.names[self.names.len() - 1]
    }
}

impl Clone for Fqn {
    fn clone(&self) -> (r: Fqn) {
        proof {
            use_type_invariant(self);
        }
        let mut names: Vec<Name> = Vec::new();
        let mut k: usize = 0;
        while k < self.names.len()
            invariant
                k <= self.names.len(),
                name_views(names@) == name_views(self.names@).subrange(0, k as int),
                valid_pieces(name_views(self.names@)),
            decreases self.names.len() - k,
        {
            let ghost prev = name_views(names@);
            let dup = self.names[k].duplicate();
            names.push(dup);
            proof {
                assert(name_views(names@) =~= prev.push(dup@));
                assert(name_views(names@) =~= name_views(self.names@).subrange(0, k + 1));
            }
            k = k + 1;
        }
        proof {
            assert(name_views(names@) =~= name_views(self.names@));
        }
        Fqn { names }
    }
}

/// Segment-wise equality of two name sequences.
fn names_eq(a: &[Name], b: &[Name]) -> (r: bool)
    ensures
        r == (name_views(a@) == name_views(b@)),
{
    if a.len() != b.len() {
        assert(name_views(a@).len() != name_views(b@).len());
        return false;
    }
    let mut k: usize = 0;
    while k < a.len()
        invariant
            k <= a@.len(),
            a@.len() == b@.len(),
            forall|j: int| 0 <= j < k ==> #[trigger] a@[j]@ == b@[j]@,
        decreases a.len() - k,
    {
        if a[k] != b[k] {
            assert(name_views(a@)[k as int] != name_views(b@)[k as int]);
            return false;
        }
        k = k + 1;
    }
    assert(name_views(a@) =~= name_views(b@));
    true
}

impl PartialEq for Fqn {
    fn eq(&self, other: &Fqn) -> (r: bool) {
        names_eq(self.names.as_slice(), other.names.as_slice())
    }
}

impl vstd::std_specs::cmp::PartialEqSpecImpl for Fqn {
    open spec fn obeys_eq_spec() -> bool {
        true
    }

    open spec fn eq_spec(&self, other: &Fqn) -> bool {
        self@ == other@
    }
}

/// A name equals a path exactly when the path is that one name.
impl PartialEq<Fqn> for Name {
    fn eq(&self, other: &Fqn) -> (r: bool) {
        proof {
            use_type_invariant(other);
        }
        if other.names.len() != 1 {
            return false;
        }
        let same = other.names[0] == *self;
        proof {
            if same {
                assert(other@ =~= seq![self@]);
            } else {
                assert(other@[0] != self@);
            }
        }
        same
    }
}

impl vstd::std_specs::cmp::PartialEqSpecImpl<Fqn> for Name {
    open spec fn obeys_eq_spec() -> bool {
        true
    }

    open spec fn eq_spec(&self, other: &Fqn) -> bool {
        other@ == seq![self@]
    }
}

/// The same comparison seen from the path: it agrees with `Name == Fqn`.
impl PartialEq<Name> for Fqn {
    fn eq(&self, other: &Name) -> (r: bool) {
        if self.names.len() != 1 {
            return false;
        }
        let same = self.names[0] == *other;
        proof {
            if same {
                assert(self@ =~= seq![other@]);
            } else {
                assert(self@[0] != other@);
            }
        }
        same
    }
}

impl vstd::std_specs::cmp::PartialEqSpecImpl<Name> for Fqn {
    open spec fn obeys_eq_spec() -> bool {
        true
    }

    open spec fn eq_spec(&self, other: &Name) -> bool {
        self@ == seq![other@]
    }
}

} // verus!
