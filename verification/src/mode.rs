//! The visibility mode attached to every circuit value.
//!
//! A value is a constant (known at circuit-construction time), public (part
//! of the public input) or private (part of the secret witness). Combining
//! values is monotonic in privacy: anything combined with a private value
//! is private, a public value absorbs constants, and only two constants
//! stay constant.

use vstd::prelude::*;

verus! {

/// The visibility of a circuit value.
#[derive(Clone, Copy, Debug, PartialEq, Eq, Hash, Structural)]
pub enum Mode {
    /// Known at circuit-construction time; never allocated as a witness.
    Constant,
    /// Publicly visible input.
    Public,
    /// Secret witness value.
    Private,
}

/// A failed attempt to read a mode from text.
#[derive(Clone, Copy, Debug, PartialEq, Eq, Structural)]
pub struct ModeParseError;

/// The mode of the result of a binary operation on values of modes `a`
/// and `b`.
pub open spec fn mode_combine(a: Mode, b: Mode) -> Mode {
    if a is Private || b is Private {
        Mode::Private
    } else if a is Public || b is Public {
        Mode::Public
    } else {
        Mode::Constant
    }
}

/// The cost order on modes: a constant costs nothing, a public value
/// costs an input slot, a private value costs a witness slot.
pub open spec fn mode_leq(a: Mode, b: Mode) -> bool {
    match a {
        Mode::Constant => true,
        Mode::Public => !(b is Constant),
        Mode::Private => b is Private,
    }
}

/// Combining modes is monotonic: the result is at least as private as
/// either operand, two constants stay constant, and a public value
/// absorbs a constant.
pub proof fn lemma_mode_combine_monotonic(a: Mode, b: Mode)
    ensures
        mode_leq(a, mode_combine(a, b)),
        mode_leq(b, mode_combine(a, b)),
        mode_combine(a, b) == mode_combine(b, a),
        a is Constant && b is Constant <==> mode_combine(a, b) is Constant,
        (a is Private || b is Private) <==> mode_combine(a, b) is Private,
{
}

/// `s` begins with the characters of `p`.
pub open spec fn starts_with_spec(s: Seq<char>, p: Seq<char>) -> bool {
    s.len() >= p.len() && s.subrange(0, p.len() as int) == p
}

/// Whether `s` begins with the characters of `p`.
fn starts_with_text(s: &str, slen: usize, p: &str, plen: usize) -> (r: bool)
    requires
        slen == s@.len(),
        plen == p@.len(),
    ensures
        r <==> starts_with_spec(s@, p@),
{
    if slen < plen {
        return false;
    }
    let mut i: usize = 0;
    while i < plen
        invariant
            i <= plen,
            slen == s@.len(),
            plen == p@.len(),
            plen <= slen,
            forall|k: int| 0 <= k < i ==> s@[k] == p@[k],
        decreases plen - i,
    {
        if s.get_char(i) != p.get_char(i) {
            return false;
        }
        i = i + 1;
    }
    proof {
        assert(s@.subrange(0, plen as int) =~= p@);
    }
    true
}

impl Mode {
    /// Returns `true` if the mode is a constant.
    pub fn is_constant(&self) -> (r: bool)
        ensures
            r <==> *self is Constant,
    {
        matches!(self, Mode::Constant)
    }

    /// Returns `true` if the mode is public.
    pub fn is_public(&self) -> (r: bool)
        ensures
            r <==> *self is Public,
    {
        matches!(self, Mode::Public)
    }

    /// Returns `true` if the mode is private.
    pub fn is_private(&self) -> (r: bool)
        ensures
            r <==> *self is Private,
    {
        matches!(self, Mode::Private)
    }

    /// The mode of the result of an operation combining `self` and
    /// `other`.
    pub fn combine(&self, other: &Mode) -> (r: Mode)
        ensures
            r == mode_combine(*self, *other),
    {
        match (self, other) {
            (Mode::Private, _) => Mode::Private,
            (_, Mode::Private) => Mode::Private,
            (Mode::Public, _) => Mode::Public,
            (_, Mode::Public) => Mode::Public,
            _ => Mode::Constant,
        }
    }

    /// Parses a leading mode name (`constant`, `public` or `private`)
    /// from the text, returning the mode and the remaining text; fails
    /// when none of the three names begins the text.
    pub fn parse(string: &str) -> (r: Result<(Mode, &str), ModeParseError>)
        ensures
            starts_with_spec(string@, "constant"@) ==> (r matches Ok((m, rest)) && m is Constant
                && rest@ == string@.skip(8)),
            !starts_with_spec(string@, "constant"@) && starts_with_spec(string@, "public"@)
                ==> (r matches Ok((m, rest)) && m is Public && rest@ == string@.skip(6)),
            !starts_with_spec(string@, "constant"@) && !starts_with_spec(string@, "public"@)
                && starts_with_spec(string@, "private"@) ==> (r matches Ok((m, rest))
                && m is Private && rest@ == string@.skip(7)),
            !starts_with_spec(string@, "constant"@) && !starts_with_spec(string@, "public"@)
                && !starts_with_spec(string@, "private"@) ==> r is Err,
    {
        proof {
            reveal_strlit("constant");
            reveal_strlit("public");
            reveal_strlit("private");
        }
        let n = string.unicode_len();
        if starts_with_text(string, n, "constant", 8) {
            let rest = string.substring_char(8, n);
            proof {
                assert(rest@ =~= string@.skip(8));
            }
            Ok((Mode::Constant, rest))
        } else if starts_with_text(string, n, "public", 6) {
            let rest = string.substring_char(6, n);
            proof {
                assert(rest@ =~= string@.skip(6));
            }
            Ok((Mode::Public, rest))
        } else if starts_with_text(string, n, "private", 7) {
            let rest = string.substring_char(7, n);
            proof {
                assert(rest@ =~= string@.skip(7));
            }
            Ok((Mode::Private, rest))
        } else {
            Err(ModeParseError)
        }
    }

    /// The name of the mode, as it appears in circuit listings.
    pub fn name(&self) -> (r: &'static str)
        ensures
            *self is Constant ==> r@ == "constant"@,
            *self is Public ==> r@ == "public"@,
            *self is Private ==> r@ == "private"@,
    {
        match self {
            Mode::Constant => "constant",
            Mode::Public => "public",
            Mode::Private => "private",
        }
    }

    /// The byte encoding of the mode.
    pub fn to_u8(&self) -> (r: u8)
        ensures
            *self is Constant ==> r == 0,
            *self is Public ==> r == 1,
            *self is Private ==> r == 2,
    {
        match self {
            Mode::Constant => 0,
            Mode::Public => 1,
            Mode::Private => 2,
        }
    }

    /// Reads a mode back from its byte encoding; fails on any other byte.
    pub fn from_u8(v: u8) -> (r: Option<Mode>)
        ensures
            v == 0 ==> r == Some(Mode::Constant),
            v == 1 ==> r == Some(Mode::Public),
            v == 2 ==> r == Some(Mode::Private),
            v > 2 ==> r is None,
    {
        match v {
            0 => Some(Mode::Constant),
            1 => Some(Mode::Public),
            2 => Some(Mode::Private),
            _ => None,
        }
    }
}

} // verus!
