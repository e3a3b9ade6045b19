//! Material identifiers: colon-delimited names split into upper-case
//! segments, with parents and a segment-wise order.

use vstd::prelude::*;
use core::cmp::Ordering;

verus! {

/// Upper-cases one ASCII letter; every other character is kept.
pub open spec fn upper_char(c: char) -> char {
    if 'a' <= c && c <= 'z' {
        (((c as u8) - 32) as u8) as char
    } else {
        c
    }
}

/// ASCII upper-casing of a character sequence.
pub open spec fn upper_seq(s: Seq<char>) -> Seq<char> {
    s.map_values(|c: char| upper_char(c))
}

/// No character of `s` is a lower-case ASCII letter.
pub open spec fn is_upper_seq(s: Seq<char>) -> bool {
    forall|i: int| 0 <= i < s.len() ==> !('a' <= #[trigger] s[i] && s[i] <= 'z')
}

/// The segment that lookups may skip when nothing is stored for it.
pub open spec fn ignorable_segment() -> Seq<char> {
    seq!['S', 'T', 'R', 'U', 'C', 'T', 'U', 'R', 'A', 'L']
}

/// Splits `s` at every occurrence of `sep`; the result always holds at least
/// one (possibly empty) piece, and there is one more piece than separators.
pub open spec fn split_on(s: Seq<char>, sep: char) -> Seq<Seq<char>>
    decreases s.len(),
{
    if s.len() == 0 {
        seq![Seq::<char>::empty()]
    } else {
        let prev = split_on(s.drop_last(), sep);
        if s.last() == sep {
            prev.push(Seq::<char>::empty())
        } else {
            prev.update(prev.len() - 1, prev.last().push(s.last()))
        }
    }
}

pub proof fn lemma_upper_is_upper(s: Seq<char>)
    ensures
        is_upper_seq(upper_seq(s)),
{
    assert forall|i: int| 0 <= i < upper_seq(s).len() implies !('a' <= #[trigger] upper_seq(s)[i]
        && upper_seq(s)[i] <= 'z') by {
        let c = s[i];
        if 'a' <= c && c <= 'z' {
            assert((c as u8) >= 97 && (c as u8) <= 122);
        }
    }
}

pub fn upper_ascii(c: char) -> (r: char)
    ensures
        r == upper_char(c),
{
    if 'a' <= c && c <= 'z' {
        ((c as u8) - 32) as char
    } else {
        c
    }
}

/// Relies on `String::push`: appends one character to the end.
#[verifier::external_body]
pub(crate) fn push_char(s: &mut String, c: char)
    ensures
        final(s)@ == old(s)@.push(c),
{
    s.push(c)
}

/// Copies `s` with every ASCII letter upper-cased.
pub fn to_upper_string(s: &str) -> (r: String)
    ensures
        r@ == upper_seq(s@),
{
    let n = s.unicode_len();
    let mut out = String::new();
    let mut i: usize = 0;
    while i < n
        invariant
            n == s@.len(),
            i <= n,
            out@ == upper_seq(s@.take(i as int)),
        decreases n - i,
    {
        let c = s.get_char(i);
        let u = upper_ascii(c);
        push_char(&mut out, u);
        assert(s@.take(i + 1) == s@.take(i as int).push(c));
        i = i + 1;
    }
    assert(s@.take(n as int) == s@);
    out
}

/// One segment of a material identifier, always upper-case.
pub enum MaterialIdentifierElement {
    Custom(String),
}

impl View for MaterialIdentifierElement {
    type V = Seq<char>;

    open spec fn view(&self) -> Seq<char> {
        match self {
            MaterialIdentifierElement::Custom(s) => s@,
        }
    }
}

impl Clone for MaterialIdentifierElement {
    fn clone(&self) -> (r: Self)
        ensures
            r@ == self@,
    {
        match self {
            MaterialIdentifierElement::Custom(s) => MaterialIdentifierElement::Custom(s.clone()),
        }
    }
}

impl MaterialIdentifierElement {
    /// A segment made from `s`, upper-cased.
    pub fn new(s: &str) -> (r: Self)
        ensures
            r@ == upper_seq(s@),
            is_upper_seq(r@),
    {
        proof {
            lemma_upper_is_upper(s@);
        }
        MaterialIdentifierElement::Custom(to_upper_string(s))
    }

    pub fn as_str(&self) -> (r: &str)
        ensures
            r@ == self@,
    {
        match self {
            MaterialIdentifierElement::Custom(s) => s.as_str(),
        }
    }

    pub fn equals(&self, other: &Self) -> (r: bool)
        ensures
            r == (self@ == other@),
    {
        match (self, other) {
            (MaterialIdentifierElement::Custom(a), MaterialIdentifierElement::Custom(b)) => *a == *b,
        }
    }

    /// Whether this is the segment that lookups may skip.
    pub fn is_ignorable(&self) -> (r: bool)
        ensures
            r == (self@ == ignorable_segment()),
    {
        let marker = String::from_str("STRUCTURAL");
        proof {
            reveal_strlit("STRUCTURAL");
        }
        assert(marker@ == ignorable_segment());
        match self {
            MaterialIdentifierElement::Custom(s) => *s == marker,
        }
    }
}


/// The path of segment views of a list of elements.
pub open spec fn elements_view(v: Seq<MaterialIdentifierElement>) -> Seq<Seq<char>> {
    v.map_values(|e: MaterialIdentifierElement| e@)
}

/// Storage of an identifier: its segments in order.
pub struct InnerIdentifier {
    elements: Vec<MaterialIdentifierElement>,
}

impl View for InnerIdentifier {
    type V = Seq<Seq<char>>;

    closed spec fn view(&self) -> Seq<Seq<char>> {
        elements_view(self.elements@)
    }
}

impl InnerIdentifier {
    /// Segment-wise equality.
    pub fn eq(&self, other: &Self) -> (r: bool)
        ensures
            r == (self@ == other@),
    {
        let n = self.elements.len();
        if n != other.elements.len() {
            assert(self@.len() != other@.len());
            return false;
        }
        let mut i: usize = 0;
        while i < n
            invariant
                n == self.elements@.len(),
                n == other.elements@.len(),
                i <= n,
                forall|j: int| 0 <= j < i ==> self.elements@[j]@ == other.elements@[j]@,
            decreases n - i,
        {
            if !self.elements[i].equals(&other.elements[i]) {
                assert(self@[i as int] != other@[i as int]);
                return false;
            }
            i = i + 1;
        }
        assert(self@ =~= other@);
        true
    }
}

/// A material path: an ordered list of upper-case segments. The empty path is
/// the root.
pub struct Identifier(pub InnerIdentifier);

impl View for Identifier {
    type V = Seq<Seq<char>>;

    open spec fn view(&self) -> Seq<Seq<char>> {
        self.0@
    }
}

impl Clone for Identifier {
    fn clone(&self) -> (r: Self)
        ensures
            r@ == self@,
    {
        let n = self.0.elements.len();
        let mut out: Vec<MaterialIdentifierElement> = Vec::new();
        let mut i: usize = 0;
        while i < n
            invariant
                n == self.0.elements@.len(),
                i <= n,
                out@.len() == i,
                forall|j: int| 0 <= j < i ==> #[trigger] out@[j]@ == self.0.elements@[j]@,
            decreases n - i,
        {
            out.push(self.0.elements[i].clone());
            i = i + 1;
        }
        let r = Identifier(InnerIdentifier { elements: out });
        assert(r@ =~= self@);
        r
    }
}

impl PartialEq for Identifier {
    fn eq(&self, other: &Identifier) -> (r: bool) {
        self.0.eq(&other.0)
    }
}

impl vstd::std_specs::cmp::PartialEqSpecImpl for Identifier {
    open spec fn obeys_eq_spec() -> bool {
        true
    }

    open spec fn eq_spec(&self, other: &Identifier) -> bool {
        self@ == other@
    }
}

/// Lexicographic order of character sequences; a proper prefix comes first.
pub open spec fn cmp_chars(a: Seq<char>, b: Seq<char>) -> Ordering
    decreases a.len(),
{
    if a.len() == 0 {
        if b.len() == 0 {
            Ordering::Equal
        } else {
            Ordering::Less
        }
    } else if b.len() == 0 {
        Ordering::Greater
    } else if a[0] < b[0] {
        Ordering::Less
    } else if a[0] > b[0] {
        Ordering::Greater
    } else {
        cmp_chars(a.drop_first(), b.drop_first())
    }
}

/// Segment-wise lexicographic order of paths; a proper prefix comes first.
pub open spec fn cmp_path(a: Seq<Seq<char>>, b: Seq<Seq<char>>) -> Ordering
    decreases a.len(),
{
    if a.len() == 0 {
        if b.len() == 0 {
            Ordering::Equal
        } else {
            Ordering::Less
        }
    } else if b.len() == 0 {
        Ordering::Greater
    } else if cmp_chars(a[0], b[0]) != Ordering::Equal {
        cmp_chars(a[0], b[0])
    } else {
        cmp_path(a.drop_first(), b.drop_first())
    }
}

fn cmp_str(a: &str, b: &str) -> (r: Ordering)
    ensures
        r == cmp_chars(a@, b@),
{
    let n = a.unicode_len();
    let m = b.unicode_len();
    let mut i: usize = 0;
    assert(a@.skip(0) == a@ && b@.skip(0) == b@);
    while i < n && i < m
        invariant
            n == a@.len(),
            m == b@.len(),
            i <= n,
            i <= m,
            cmp_chars(a@, b@) == cmp_chars(a@.skip(i as int), b@.skip(i as int)),
        decreases n - i,
    {
        let x = a.get_char(i);
        let y = b.get_char(i);
        assert(a@.skip(i as int)[0] == x && b@.skip(i as int)[0] == y);
        if x < y {
            return Ordering::Less;
        }
        if x > y {
            return Ordering::Greater;
        }
        assert(a@.skip(i as int).drop_first() == a@.skip(i + 1));
        assert(b@.skip(i as int).drop_first() == b@.skip(i + 1));
        i = i + 1;
    }
    if i == n {
        if i == m {
            Ordering::Equal
        } else {
            Ordering::Less
        }
    } else {
        Ordering::Greater
    }
}

impl InnerIdentifier {
    /// Segment-wise lexicographic comparison.
    pub fn compare(&self, other: &Self) -> (r: Ordering)
        ensures
            r == cmp_path(self@, other@),
    {
        let n = self.elements.len();
        let m = other.elements.len();
        let mut i: usize = 0;
        assert(self@.skip(0) == self@ && other@.skip(0) == other@);
        while i < n && i < m
            invariant
                n == self.elements@.len(),
                m == other.elements@.len(),
                i <= n,
                i <= m,
                cmp_path(self@, other@) == cmp_path(self@.skip(i as int), other@.skip(i as int)),
            decreases n - i,
        {
            let c = cmp_str(self.elements[i].as_str(), other.elements[i].as_str());
            assert(self@.skip(i as int)[0] == self.elements@[i as int]@);
            assert(other@.skip(i as int)[0] == other.elements@[i as int]@);
            match c {
                Ordering::Equal => {},
                _ => {
                    return c;
                },
            }
            assert(self@.skip(i as int).drop_first() == self@.skip(i + 1));
            assert(other@.skip(i as int).drop_first() == other@.skip(i + 1));
            i = i + 1;
        }
        if i == n {
            if i == m {
                Ordering::Equal
            } else {
                Ordering::Less
            }
        } else {
            Ordering::Greater
        }
    }
}

impl PartialOrd for Identifier {
    fn partial_cmp(&self, other: &Identifier) -> (r: Option<Ordering>) {
        Some(self.0.compare(&other.0))
    }
}

impl vstd::std_specs::cmp::PartialOrdSpecImpl for Identifier {
    open spec fn obeys_partial_cmp_spec() -> bool {
        true
    }

    open spec fn partial_cmp_spec(&self, other: &Identifier) -> Option<Ordering> {
        Some(cmp_path(self@, other@))
    }
}

impl Identifier {
    /// The identifier with exactly these segments.
    pub fn from_segments(elements: Vec<MaterialIdentifierElement>) -> (r: Self)
        ensures
            r@ == elements_view(elements@),
    {
        Identifier(InnerIdentifier { elements })
    }

    /// Parses a colon-delimited name: split at each ':', every segment
    /// upper-cased.
    pub fn from_string(s: &str) -> (r: Self)
        ensures
            r@ == split_on(s@, ':').map_values(|p: Seq<char>| upper_seq(p)),
    {
        let n = s.unicode_len();
        let mut out: Vec<MaterialIdentifierElement> = Vec::new();
        let mut cur = String::new();
        let mut i: usize = 0;
        while i < n
            invariant
                n == s@.len(),
                i <= n,
                split_on(s@.take(i as int), ':').len() == out@.len() + 1,
                forall|j: int|
                    0 <= j < out@.len() ==> #[trigger] out@[j]@ == upper_seq(
                        split_on(s@.take(i as int), ':')[j],
                    ),
                cur@ == split_on(s@.take(i as int), ':').last(),
            decreases n - i,
        {
            let c = s.get_char(i);
            assert(s@.take(i + 1).drop_last() == s@.take(i as int));
            if c == ':' {
                let e = MaterialIdentifierElement::new(cur.as_str());
                out.push(e);
                cur = String::new();
            } else {
                push_char(&mut cur, c);
            }
            i = i + 1;
        }
        let e = MaterialIdentifierElement::new(cur.as_str());
        out.push(e);
        assert(s@.take(n as int) == s@);
        let r = Identifier(InnerIdentifier { elements: out });
        assert(r@ =~= split_on(s@, ':').map_values(|p: Seq<char>| upper_seq(p)));
        r
    }

    pub fn len(&self) -> (r: usize)
        ensures
            r == self@.len(),
    {
        self.0.elements.len()
    }

    /// The segment at position `i`.
    pub fn segment(&self, i: usize) -> (r: &MaterialIdentifierElement)
        requires
            i < self@.len(),
        ensures
            r@ == self@[i as int],
    {
        &self.0.elements[i]
    }

    pub fn is_empty(&self) -> (r: bool)
        ensures
            r == (self@.len() == 0),
    {
        self.0.elements.len() == 0
    }

    /// The trailing segment, if any.
    pub fn last(&self) -> (r: Option<&str>)
        ensures
            self@.len() == 0 ==> r is None,
            self@.len() > 0 ==> (r matches Some(t) && t@ == self@.last()),
    {
        let n = self.0.elements.len();
        if n == 0 {
            None
        } else {
            Some(self.0.elements[n - 1].as_str())
        }
    }

    /// Whether the trailing segment is the ignorable one.
    pub fn last_is_ignorable(&self) -> (r: bool)
        ensures
            r == (self@.len() > 0 && self@.last() == ignorable_segment()),
    {
        let n = self.0.elements.len();
        if n == 0 {
            false
        } else {
            self.0.elements[n - 1].is_ignorable()
        }
    }

    /// The path without its last segment; the root has none.
    pub fn parent(&self) -> (r: Option<Self>)
        ensures
            self@.len() == 0 <==> r is None,
            r matches Some(p) ==> p@ == self@.drop_last(),
    {
        let n = self.0.elements.len();
        if n == 0 {
            None
        } else {
            let mut out: Vec<MaterialIdentifierElement> = Vec::new();
            let mut i: usize = 0;
            while i < n - 1
                invariant
                    n == self.0.elements@.len(),
                    n > 0,
                    i <= n - 1,
                    out@.len() == i,
                    forall|j: int| 0 <= j < i ==> #[trigger] out@[j]@ == self.0.elements@[j]@,
                decreases n - 1 - i,
            {
                out.push(self.0.elements[i].clone());
                i = i + 1;
            }
            let r = Identifier(InnerIdentifier { elements: out });
            assert(r@ =~= self@.drop_last());
            Some(r)
        }
    }

    /// Whether `parent` is this path without its last segment.
    pub fn is_child_of(&self, parent: &Self) -> (r: bool)
        ensures
            r == (self@.len() > 0 && self@.drop_last() == parent@),
    {
        match self.parent() {
            Some(actual) => actual.0.eq(&parent.0),
            None => false,
        }
    }
}

} // verus!
