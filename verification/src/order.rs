//! Orders and filters as first-class values.
//!
//! The store never works with closures or bare function pointers: the natural
//! order of an element type, the per-projection comparators and the membership
//! filters are all small data objects implementing one of the capability
//! traits below, so that a projection can carry its comparator and filter as
//! plain fields.

use vstd::prelude::*;
use vstd::string::StringSliceAdditionalSpecFns;
use vstd::utf8::encode_utf8;
use vstd::utf8::is_char_boundary;
use vstd::utf8::is_char_boundary_iff_not_is_continuation_byte;
use vstd::utf8::is_char_boundary_start_end_of_seq;
use vstd::utf8::is_continuation_byte;
use vstd::utf8::is_leading_byte_width_1;
use vstd::utf8::length_of_first_scalar;
use vstd::utf8::pop_first_scalar;
use vstd::utf8::valid_utf8;
use vstd::utf8::valid_utf8_split;

verus! {

/// The natural, total order of an element type, used to arrange the canonical
/// collection. `nle` is the mathematical less-or-equal relation; `nat_le` is
/// its executable form. Two elements may compare equal under `nle` in both
/// directions without being the same value: the store treats such elements as
/// occupying the same canonical slot.
pub trait NaturalOrder: Sized {
    spec fn nle(a: Self, b: Self) -> bool;

    proof fn nle_total(a: Self, b: Self)
        ensures
            Self::nle(a, b) || Self::nle(b, a),
    ;

    proof fn nle_trans(a: Self, b: Self, c: Self)
        requires
            Self::nle(a, b),
            Self::nle(b, c),
        ensures
            Self::nle(a, c),
    ;

    fn nat_le(a: &Self, b: &Self) -> (r: bool)
        ensures
            r == Self::nle(*a, *b),
    ;
}

/// A membership filter for one projection: a pure boolean classifier over one
/// element. `accepted` is the mathematical predicate, `classify` its
/// executable form.
pub trait Classifier<T>: Sized {
    spec fn accepted(self, e: T) -> bool;

    fn classify(&self, e: &T) -> (r: bool)
        ensures
            r == self.accepted(*e),
    ;
}

/// A total order for one projection, carried by the projection as a value.
/// `cle` is the mathematical less-or-equal relation and must be total and
/// transitive; `le` is its executable form.
pub trait Comparator<T>: Sized {
    spec fn cle(self, a: T, b: T) -> bool;

    proof fn cle_total(self, a: T, b: T)
        ensures
            self.cle(a, b) || self.cle(b, a),
    ;

    proof fn cle_trans(self, a: T, b: T, c: T)
        requires
            self.cle(a, b),
            self.cle(b, c),
        ensures
            self.cle(a, c),
    ;

    fn le(&self, a: &T, b: &T) -> (r: bool)
        ensures
            r == self.cle(*a, *b),
    ;
}

/// `a` strictly precedes `b` under the comparator `c`.
pub open spec fn strictly_before<T, C: Comparator<T>>(c: C, a: T, b: T) -> bool {
    c.cle(a, b) && !c.cle(b, a)
}

/// `a` and `b` are indistinguishable under the comparator `c`.
pub open spec fn tied<T, C: Comparator<T>>(c: C, a: T, b: T) -> bool {
    c.cle(a, b) && c.cle(b, a)
}

/// Lexicographic less-or-equal on byte sequences: the empty sequence comes
/// first, otherwise the first differing byte decides, a strict prefix coming
/// before every extension of it.
pub open spec fn lex_le(a: Seq<u8>, b: Seq<u8>) -> bool
    decreases a.len(),
{
    if a.len() == 0 {
        true
    } else if b.len() == 0 {
        false
    } else if a[0] < b[0] {
        true
    } else if b[0] < a[0] {
        false
    } else {
        lex_le(a.skip(1), b.skip(1))
    }
}

pub proof fn lemma_lex_le_total(a: Seq<u8>, b: Seq<u8>)
    ensures
        lex_le(a, b) || lex_le(b, a),
    decreases a.len(),
{
    if a.len() > 0 && b.len() > 0 && a[0] == b[0] {
        lemma_lex_le_total(a.skip(1), b.skip(1));
    }
}

pub proof fn lemma_lex_le_trans(a: Seq<u8>, b: Seq<u8>, c: Seq<u8>)
    requires
        lex_le(a, b),
        lex_le(b, c),
    ensures
        lex_le(a, c),
    decreases a.len(),
{
    if a.len() > 0 {
        if b.len() > 0 && c.len() > 0 && a[0] == b[0] && b[0] == c[0] {
            lemma_lex_le_trans(a.skip(1), b.skip(1), c.skip(1));
        }
    }
}

/// Lexicographic comparison of two byte slices, the executable form of
/// `lex_le`.
pub fn bytes_le(a: &[u8], b: &[u8]) -> (r: bool)
    ensures
        r == lex_le(a@, b@),
{
    proof {
        assert(a@.skip(0) =~= a@);
        assert(b@.skip(0) =~= b@);
    }
    let mut i: usize = 0;
    loop
        invariant
            i <= a@.len(),
            i <= b@.len(),
            lex_le(a@, b@) == lex_le(a@.skip(i as int), b@.skip(i as int)),
        decreases a@.len() - i,
    {
        if i == a.len() {
            return true;
        }
        if i == b.len() {
            return false;
        }
        let x = a[i];
        let y = b[i];
        proof {
            assert(a@.skip(i as int)[0] == a@[i as int]);
            assert(b@.skip(i as int)[0] == b@[i as int]);
        }
        if x < y {
            return true;
        }
        if y < x {
            return false;
        }
        proof {
            assert(a@.skip(i as int).skip(1) =~= a@.skip(i + 1));
            assert(b@.skip(i as int).skip(1) =~= b@.skip(i + 1));
        }
        i = i + 1;
    }
}


/// A position of a valid encoding holding an ASCII byte, or standing at the
/// end, is a character boundary.
pub proof fn lemma_ascii_is_boundary(b: Seq<u8>, p: int)
    requires
        valid_utf8(b),
        0 <= p <= b.len(),
        p < b.len() ==> b[p] < 128,
    ensures
        is_char_boundary(b, p),
{
    if p == b.len() {
        is_char_boundary_start_end_of_seq(b);
    } else {
        is_char_boundary_iff_not_is_continuation_byte(b, p);
    }
}

/// The position right after an ASCII byte of a valid encoding is a
/// character boundary: a one-byte scalar ends there.
pub proof fn lemma_boundary_after_ascii(b: Seq<u8>, p: int)
    requires
        valid_utf8(b),
        0 <= p < b.len(),
        b[p] < 128,
    ensures
        is_char_boundary(b, p + 1),
{
    lemma_ascii_is_boundary(b, p);
    valid_utf8_split(b, p);
    let suffix = b.subrange(p, b.len() as int);
    assert(valid_utf8(suffix));
    assert(suffix[0] == b[p]);
    assert(is_leading_byte_width_1(suffix[0]));
    assert(length_of_first_scalar(suffix) == 1);
    let rest = pop_first_scalar(suffix);
    assert(valid_utf8(rest));
    assert(rest =~= b.subrange(p + 1, b.len() as int));
    if p + 1 == b.len() {
        is_char_boundary_start_end_of_seq(b);
    } else {
        assert(rest.len() > 0);
        is_char_boundary_start_end_of_seq(rest);
        is_char_boundary_iff_not_is_continuation_byte(rest, 0);
        assert(!is_continuation_byte(rest[0]));
        assert(rest[0] == b[p + 1]);
        is_char_boundary_iff_not_is_continuation_byte(b, p + 1);
    }
}

/// The byte sequence a string is encoded as, the basis of the natural order
/// on strings.
pub open spec fn str_bytes(s: String) -> Seq<u8> {
    encode_utf8(s@)
}

impl NaturalOrder for String {
    /// Strings are naturally ordered by their encoded bytes.
    open spec fn nle(a: String, b: String) -> bool {
        lex_le(str_bytes(a), str_bytes(b))
    }

    proof fn nle_total(a: String, b: String) {
        lemma_lex_le_total(str_bytes(a), str_bytes(b));
    }

    proof fn nle_trans(a: String, b: String, c: String) {
        lemma_lex_le_trans(str_bytes(a), str_bytes(b), str_bytes(c));
    }

    fn nat_le(a: &String, b: &String) -> (r: bool) {
        bytes_le(a.as_str().as_bytes(), b.as_str().as_bytes())
    }
}

/// The filter that accepts every element.
pub struct AcceptAll;

impl<T> Classifier<T> for AcceptAll {
    open spec fn accepted(self, e: T) -> bool {
        true
    }

    fn classify(&self, e: &T) -> (r: bool) {
        true
    }
}

/// A lexicographic comparator over strings, forward or reversed.
pub enum LexOrder {
    Forward,
    Reverse,
}

impl Comparator<String> for LexOrder {
    open spec fn cle(self, a: String, b: String) -> bool {
        match self {
            LexOrder::Forward => lex_le(str_bytes(a), str_bytes(b)),
            LexOrder::Reverse => lex_le(str_bytes(b), str_bytes(a)),
        }
    }

    proof fn cle_total(self, a: String, b: String) {
        lemma_lex_le_total(str_bytes(a), str_bytes(b));
    }

    proof fn cle_trans(self, a: String, b: String, c: String) {
        match self {
            LexOrder::Forward => lemma_lex_le_trans(str_bytes(a), str_bytes(b), str_bytes(c)),
            LexOrder::Reverse => lemma_lex_le_trans(str_bytes(c), str_bytes(b), str_bytes(a)),
        }
    }

    fn le(&self, a: &String, b: &String) -> (r: bool) {
        match self {
            LexOrder::Forward => bytes_le(a.as_str().as_bytes(), b.as_str().as_bytes()),
            LexOrder::Reverse => bytes_le(b.as_str().as_bytes(), a.as_str().as_bytes()),
        }
    }
}

} // verus!
