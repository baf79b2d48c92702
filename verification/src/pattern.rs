//! Namespace patterns and the containment relation between them.
use vstd::prelude::*;
use vstd::utf8::*;

verus! {

broadcast use vstd::utf8::group_utf8_lib;

/// A namespace pattern such as `/users/admin`.
#[derive(Debug, Hash)]
pub struct Pattern(String);

impl View for Pattern {
    type V = Seq<char>;

    closed spec fn view(&self) -> Seq<char> {
        self.0@
    }
}

/// `outer` contains `inner` when they are the same namespace, or when
/// `inner` begins with the bytes of `outer` and holds a `/` at the
/// character index given by the byte length of `outer` (so `/a` contains
/// `/a/b` but not `/ab`).
pub open spec fn pattern_contains(outer: Seq<char>, inner: Seq<char>) -> bool {
    let n = encode_utf8(outer).len();
    ||| outer == inner
    ||| {
        &&& encode_utf8(outer).is_prefix_of(encode_utf8(inner))
        &&& n < inner.len()
        &&& inner[n as int] == '/'
    }
}

impl Pattern {
    /// Creates a pattern from its text.
    pub fn new(pattern: &str) -> (p: Pattern)
        ensures
            p@ == pattern@,
    {
        Pattern(pattern.to_owned())
    }

    /// Creates a pattern that owns the given text.
    pub fn from_string(pattern: String) -> (p: Pattern)
        ensures
            p@ == pattern@,
    {
        Pattern(pattern)
    }

    /// The pattern's text.
    pub fn as_str(&self) -> (s: &str)
        ensures
            s@ == self@,
    {
        self.0.as_str()
    }

    /// The length of the pattern's text in bytes.
    pub fn len(&self) -> (n: usize)
        ensures
            n == encode_utf8(self@).len(),
    {
        self.0.as_str().as_bytes().len()
    }

    /// Whether this pattern contains `other`; the most generic namespace is
    /// the greatest.
    pub fn contains(&self, other: &Pattern) -> (res: bool)
        ensures
            res == pattern_contains(self@, other@),
    {
        if self.0 == other.0 {
            return true;
        }
        let outer = self.0.as_str().as_bytes();
        let inner = other.0.as_str().as_bytes();
        let n = outer.len();
        assert(outer@ == encode_utf8(self@));
        assert(inner@ == encode_utf8(other@));
        if n > inner.len() {
            return false;
        }
        let mut i: usize = 0;
        while i < n
            invariant
                n == outer@.len(),
                n <= inner@.len(),
                outer@ == encode_utf8(self@),
                inner@ == encode_utf8(other@),
                self@ != other@,
                i <= n,
                forall|j: int| 0 <= j < i ==> outer@[j] == inner@[j],
            decreases n - i,
        {
            if outer[i] != inner[i] {
                assert(!outer@.is_prefix_of(inner@));
                return false;
            }
            i = i + 1;
        }
        assert(outer@.is_prefix_of(inner@));
        let mut idx: usize = 0;
        for c in iter: other.0.as_str().chars()
            invariant
                idx == iter.index(),
                idx <= n,
                iter.seq() == other@,
                n == encode_utf8(self@).len(),
                encode_utf8(self@).is_prefix_of(encode_utf8(other@)),
                self@ != other@,
        {
            if idx == n {
                assert(c == other@[n as int]);
                return c == '/';
            }
            idx = idx + 1;
        }
        false
    }
}

impl Clone for Pattern {
    fn clone(&self) -> (res: Self)
        ensures
            res@ == self@,
    {
        Pattern(self.0.clone())
    }
}

impl PartialEq for Pattern {
    fn eq(&self, other: &Self) -> (res: bool) {
        self.0 == other.0
    }
}

impl vstd::std_specs::cmp::PartialEqSpecImpl for Pattern {
    open spec fn obeys_eq_spec() -> bool {
        true
    }

    open spec fn eq_spec(&self, other: &Self) -> bool {
        self@ == other@
    }
}

impl Eq for Pattern {
}

/// Two texts whose encodings are one a prefix of the other are, character
/// by character, one a prefix of the other.
proof fn lemma_encoding_prefix(x: Seq<char>, y: Seq<char>)
    requires
        encode_utf8(x).is_prefix_of(encode_utf8(y)),
    ensures
        x.is_prefix_of(y),
    decreases x.len(),
{
    if x.len() > 0 {
        let ex = encode_utf8(x);
        let ey = encode_utf8(y);
        encode_utf8_first_scalar(x);
        let w = encode_scalar(x[0] as u32).len();
        assert(ex =~= encode_scalar(x[0] as u32) + encode_utf8(x.drop_first()));
        assert(ex.len() > 0);
        if y.len() == 0 {
            assert(ey.len() == 0);
        }
        encode_utf8_first_scalar(y);
        assert(ey =~= encode_scalar(y[0] as u32) + encode_utf8(y.drop_first()));
        assert(forall|i: int| 0 <= i < ex.len() ==> ex[i] == ey[i]);
        assert(decode_first_scalar(ex) == decode_first_scalar(ey));
        assert(x[0] as u32 == y[0] as u32);
        char_u32_cast(x[0], x[0] as u32);
        char_u32_cast(y[0], y[0] as u32);
        assert(x[0] == y[0]);
        assert(encode_utf8(x.drop_first()) =~= ex.skip(w as int));
        assert(encode_utf8(y.drop_first()) =~= ey.skip(w as int));
        lemma_encoding_prefix(x.drop_first(), y.drop_first());
        assert(forall|i: int| 0 < i < x.len() ==> x[i] == x.drop_first()[i - 1]);
        assert(forall|i: int| 0 < i < y.len() ==> y[i] == y.drop_first()[i - 1]);
    }
}

/// Every pattern contains itself.
pub proof fn contains_reflexive(p: Pattern)
    ensures
        pattern_contains(p@, p@),
{
}

/// Two patterns that contain each other are the same pattern.
pub proof fn contains_antisymmetric(a: Pattern, b: Pattern)
    requires
        pattern_contains(a@, b@),
        pattern_contains(b@, a@),
    ensures
        a@ == b@,
{
    if a@ != b@ {
        lemma_encoding_prefix(a@, b@);
        lemma_encoding_prefix(b@, a@);
        assert(a@ =~= b@);
    }
}

/// Containment is transitive: a pattern that contains a second contains
/// everything the second contains.
pub proof fn contains_transitive(a: Pattern, b: Pattern, c: Pattern)
    requires
        pattern_contains(a@, b@),
        pattern_contains(b@, c@),
    ensures
        pattern_contains(a@, c@),
{
    if a@ != b@ && b@ != c@ {
        lemma_encoding_prefix(b@, c@);
        let n = encode_utf8(a@).len();
        assert(c@[n as int] == b@[n as int]);
    }
}

} // verus!
