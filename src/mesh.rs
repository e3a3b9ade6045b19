//! The integer part of reading mesh files: face corner numbers, quad
//! triangulation, and the error a failed read reports.

use vstd::prelude::*;
use crate::identifier::{push_char, split_on};

verus! {

/// The value of a string of decimal digits.
pub open spec fn digits_value(s: Seq<char>) -> int
    decreases s.len(),
{
    if s.len() == 0 {
        0
    } else {
        digits_value(s.drop_last()) * 10 + (s.last() as int - '0' as int)
    }
}

pub open spec fn all_digits(s: Seq<char>) -> bool {
    forall|i: int| 0 <= i < s.len() ==> '0' <= #[trigger] s[i] && s[i] <= '9'
}

/// What reading `s` as a `u16` gives: an optional `+`, then one or more
/// decimal digits whose value fits.
pub open spec fn parse_u16_spec(s: Seq<char>) -> Option<u16> {
    let d = if s.len() > 0 && s[0] == '+' {
        s.drop_first()
    } else {
        s
    };
    if d.len() > 0 && all_digits(d) && digits_value(d) <= 65535 {
        Some(digits_value(d) as u16)
    } else {
        None
    }
}

proof fn lemma_digits_grow(s: Seq<char>, k: int)
    requires
        all_digits(s),
        0 <= k <= s.len(),
    ensures
        digits_value(s.take(k)) <= digits_value(s),
        digits_value(s.take(k)) >= 0,
    decreases s.len() - k,
{
    if k < s.len() {
        lemma_digits_grow(s, k + 1);
        assert(s.take(k + 1).drop_last() == s.take(k));
        let t = s.take(k);
        lemma_digits_nonneg(t);
        assert(s.take(k + 1).last() == s[k]);
    } else {
        assert(s.take(k) == s);
        lemma_digits_nonneg(s);
    }
}

proof fn lemma_digits_nonneg(s: Seq<char>)
    requires
        all_digits(s),
    ensures
        digits_value(s) >= 0,
    decreases s.len(),
{
    if s.len() > 0 {
        assert(all_digits(s.drop_last()));
        lemma_digits_nonneg(s.drop_last());
        assert(s.last() == s[s.len() - 1]);
    }
}

/// Reads `s` as a `u16` the way the standard library does.
pub fn parse_u16(s: &str) -> (r: Option<u16>)
    ensures
        r == parse_u16_spec(s@),
{
    let n = s.unicode_len();
    let mut i: usize = 0;
    if n > 0 && s.get_char(0) == '+' {
        i = 1;
    }
    let ghost d = if s@.len() > 0 && s@[0] == '+' {
        s@.drop_first()
    } else {
        s@
    };
    let start = i;
    assert(d == s@.subrange(start as int, n as int));
    if start == n {
        return None;
    }
    let mut value: u32 = 0;
    while i < n
        invariant
            n == s@.len(),
            start <= i <= n,
            d == s@.subrange(start as int, n as int),
            d == (if s@.len() > 0 && s@[0] == '+' {
                s@.drop_first()
            } else {
                s@
            }),
            all_digits(s@.subrange(start as int, i as int)),
            value as int == digits_value(s@.subrange(start as int, i as int)),
            value <= 65535,
        decreases n - i,
    {
        let c = s.get_char(i);
        assert(s@.subrange(start as int, i + 1).drop_last() == s@.subrange(start as int, i as int));
        assert(s@.subrange(start as int, i + 1).last() == c);
        if !('0' <= c && c <= '9') {
            assert(d[i - start] == c);
            assert(!all_digits(d));
            return None;
        }
        let digit = (c as u32) - ('0' as u32);
        value = value * 10 + digit;
        i = i + 1;
        assert(all_digits(s@.subrange(start as int, i as int))) by {
            assert forall|j: int| 0 <= j < i - start implies '0' <= #[trigger] s@.subrange(start as int, i as int)[j]
                && s@.subrange(start as int, i as int)[j] <= '9' by {
                if j < i - 1 - start {
                    assert(s@.subrange(start as int, i as int)[j] == s@.subrange(start as int, i - 1)[j]);
                }
            }
        }
        if value > 65535 {
            proof {
                if all_digits(d) {
                    assert(d.take(i - start) == s@.subrange(start as int, i as int));
                    lemma_digits_grow(d, i - start);
                }
            }
            return None;
        }
    }
    assert(s@.subrange(start as int, n as int) == d);
    Some(value as u16)
}

/// One corner of a face: 1-based position, texture coordinate and normal
/// numbers, from a token `p/t/n`. Further `/` parts must still be numbers.
pub open spec fn corner_spec(token: Seq<char>) -> Option<(u16, u16, u16)> {
    let parts = split_on(token, '/');
    if parts.len() >= 3 && forall|i: int| 0 <= i < parts.len() ==> (#[trigger] parse_u16_spec(parts[i])) is Some {
        Some((parse_u16_spec(parts[0])->0, parse_u16_spec(parts[1])->0, parse_u16_spec(parts[2])->0))
    } else {
        None
    }
}

/// The pieces of `s` between occurrences of `sep`, in order.
pub fn split_char(s: &str, sep: char) -> (r: Vec<String>)
    ensures
        r@.map_values(|p: String| p@) == split_on(s@, sep),
{
    let n = s.unicode_len();
    let mut out: Vec<String> = Vec::new();
    let mut cur = String::new();
    let mut i: usize = 0;
    while i < n
        invariant
            n == s@.len(),
            i <= n,
            split_on(s@.take(i as int), sep).len() == out@.len() + 1,
            forall|j: int|
                0 <= j < out@.len() ==> #[trigger] out@[j]@ == split_on(s@.take(i as int), sep)[j],
            cur@ == split_on(s@.take(i as int), sep).last(),
        decreases n - i,
    {
        let c = s.get_char(i);
        assert(s@.take(i + 1).drop_last() == s@.take(i as int));
        if c == sep {
            out.push(cur);
            cur = String::new();
        } else {
            push_char(&mut cur, c);
        }
        i = i + 1;
    }
    out.push(cur);
    assert(s@.take(n as int) == s@);
    assert(out@.map_values(|p: String| p@) =~= split_on(s@, sep));
    out
}

/// The 0-based position for a 1-based number `i` into a list of `len`
/// records; 0 and numbers past the end have none.
pub fn corner_index(i: u16, len: usize) -> (r: Option<usize>)
    ensures
        r == (if 1 <= i && i <= len {
            Some((i - 1) as usize)
        } else {
            None::<usize>
        }),
{
    if i >= 1 && (i as usize) <= len {
        Some((i - 1) as usize)
    } else {
        None
    }
}

/// Reads one face corner token.
pub fn parse_corner(token: &str) -> (r: Option<(u16, u16, u16)>)
    ensures
        r == corner_spec(token@),
{
    let parts = split_char(token, '/');
    let ghost pv = parts@.map_values(|p: String| p@);
    let n = parts.len();
    let mut vals: Vec<u16> = Vec::new();
    let mut i: usize = 0;
    while i < n
        invariant
            n == parts@.len(),
            pv == parts@.map_values(|p: String| p@),
            pv == split_on(token@, '/'),
            i <= n,
            vals@.len() == i,
            forall|j: int| 0 <= j < i ==> (#[trigger] parse_u16_spec(pv[j])) == Some(vals@[j]),
        decreases n - i,
    {
        match parse_u16(parts[i].as_str()) {
            Some(v) => vals.push(v),
            None => {
                assert(parse_u16_spec(pv[i as int]) is None);
                return None;
            },
        }
        i = i + 1;
    }
    if n < 3 {
        return None;
    }
    Some((vals[0], vals[1], vals[2]))
}

/// The triangle indices of a face with three or four corners; a fourth
/// corner adds a second triangle sharing the diagonal.
pub open spec fn triangulate_spec(c: Seq<u16>) -> Seq<u16> {
    if c.len() == 4 {
        seq![c[0], c[1], c[2], c[1], c[3], c[0]]
    } else {
        seq![c[0], c[1], c[2]]
    }
}

pub fn triangulate(corners: &Vec<u16>) -> (r: Vec<u16>)
    requires
        corners@.len() == 3 || corners@.len() == 4,
    ensures
        r@ == triangulate_spec(corners@),
{
    let a = corners[0];
    let b = corners[1];
    let c = corners[2];
    if corners.len() == 4 {
        let d = corners[3];
        let r = vec![a, b, c, b, d, a];
        assert(r@ == triangulate_spec(corners@));
        r
    } else {
        let r = vec![a, b, c];
        assert(r@ == triangulate_spec(corners@));
        r
    }
}

/// A failure while reading a mesh file: where, and what went wrong.
pub struct MeshLoadingError {
    path: String,
    error: String,
}

impl MeshLoadingError {
    pub closed spec fn path_spec(&self) -> Seq<char> {
        self.path@
    }

    pub closed spec fn error_spec(&self) -> Seq<char> {
        self.error@
    }

    pub fn new(path: String, error: String) -> (r: Self)
        ensures
            r.path_spec() == path@,
            r.error_spec() == error@,
    {
        MeshLoadingError { path, error }
    }

    pub fn path(&self) -> (r: &String)
        ensures
            r@ == self.path_spec(),
    {
        &self.path
    }

    pub fn error(&self) -> (r: &String)
        ensures
            r@ == self.error_spec(),
    {
        &self.error
    }

    /// The report: `Error while loading mesh at (<path>): <error>`.
    pub fn message(&self) -> (r: String)
        ensures
            r@ == "Error while loading mesh at ("@ + self.path_spec() + "): "@ + self.error_spec(),
    {
        let mut out = String::from_str("Error while loading mesh at (");
        out.append(self.path.as_str());
        out.append("): ");
        out.append(self.error.as_str());
        out
    }
}

} // verus!
