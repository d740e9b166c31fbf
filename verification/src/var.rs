//! The variable part of a placeholder: where a captured value goes.

use vstd::prelude::*;

use crate::parse_error::CompileError;
use crate::text::digit_val;
use crate::text::is_digit;
use crate::text::is_digit_char;
use crate::text::spec_trim;

verus! {

/// The mathematical value of a [`Var`]: identifiers become character
/// sequences.
pub enum VarModel {
    Implied,
    Ident(Seq<char>),
    Position(u8),
}

/// Where a captured value goes: the next unused output slot in declaration
/// order (`Implied`), a named output field (`Ident`), or an explicit output
/// slot (`Position`).
#[derive(Debug, Clone)]
pub enum Var {
    /// `{}`: the next unused output slot, in declaration order.
    Implied,
    /// `{name}`: the output field of that name.
    Ident(String),
    /// `{N}`: the output slot with index `N`.
    Position(u8),
}

impl View for Var {
    type V = VarModel;

    open spec fn view(&self) -> VarModel {
        match self {
            Var::Implied => VarModel::Implied,
            Var::Ident(s) => VarModel::Ident(s@),
            Var::Position(p) => VarModel::Position(*p),
        }
    }
}

impl DeepView for Var {
    type V = VarModel;

    open spec fn deep_view(&self) -> VarModel {
        self.view()
    }
}

impl Var {
    /// An identical copy of this variable.
    pub fn duplicate(&self) -> (r: Var)
        ensures
            r@ == self@,
    {
        match self {
            Var::Implied => Var::Implied,
            Var::Ident(s) => Var::Ident(String::from_str(s.as_str())),
            Var::Position(p) => Var::Position(*p),
        }
    }
}

impl PartialEq for Var {
    fn eq(&self, other: &Self) -> bool {
        match (self, other) {
            (Var::Implied, Var::Implied) => true,
            (Var::Ident(l), Var::Ident(r)) => crate::text::str_eq(l.as_str(), r.as_str()),
            (Var::Position(l), Var::Position(r)) => *l == *r,
            _ => false,
        }
    }
}

impl vstd::std_specs::cmp::PartialEqSpecImpl for Var {
    open spec fn obeys_eq_spec() -> bool {
        true
    }

    open spec fn eq_spec(&self, other: &Self) -> bool {
        self@ == other@
    }
}

/// A character that may start an identifier.
pub open spec fn is_ident_start_char(c: char) -> bool {
    (97 <= c as u32 <= 122) || (65 <= c as u32 <= 90) || c == '_'
}

/// A character that may continue an identifier.
pub open spec fn is_ident_char(c: char) -> bool {
    is_ident_start_char(c) || is_digit_char(c)
}

/// A non-empty ASCII identifier; a lone underscore is not one.
pub open spec fn spec_is_ident(s: Seq<char>) -> bool {
    s.len() > 0 && is_ident_start_char(s[0]) && (forall|i: int|
        1 <= i < s.len() ==> is_ident_char(s[i])) && s != seq!['_']
}

/// A non-empty run of ASCII decimal digits.
pub open spec fn spec_is_digits(s: Seq<char>) -> bool {
    s.len() > 0 && forall|i: int| 0 <= i < s.len() ==> is_digit_char(s[i])
}

/// The value of a run of ASCII decimal digits, most significant first.
pub open spec fn digits_val(s: Seq<char>) -> nat
    decreases s.len(),
{
    if s.len() == 0 {
        0
    } else {
        digits_val(s.drop_last()) * 10 + digit_val(s.last())
    }
}

/// A longer run of digits never has a smaller value.
pub proof fn lemma_digits_val_prefix(s: Seq<char>, k: int)
    requires
        0 <= k <= s.len(),
    ensures
        digits_val(s) >= digits_val(s.take(k)),
    decreases s.len(),
{
    if k < s.len() {
        lemma_digits_val_prefix(s.drop_last(), k);
        assert(s.drop_last().take(k) =~= s.take(k));
    } else {
        assert(s.take(k) =~= s);
    }
}

/// How the variable part of a placeholder reads: after trimming, empty
/// means an implied capture, digits mean an explicit position between 0 and
/// 255, and an identifier means a named capture; anything else is invalid.
pub open spec fn spec_parse_var_part(s: Seq<char>) -> Result<VarModel, CompileError> {
    let t = spec_trim(s);
    if t.len() == 0 {
        Ok(VarModel::Implied)
    } else if is_digit_char(t[0]) {
        if spec_is_digits(t) && digits_val(t) <= 255 {
            Ok(VarModel::Position(digits_val(t) as u8))
        } else {
            Err(CompileError::InvalidVariable)
        }
    } else if spec_is_ident(t) {
        Ok(VarModel::Ident(t))
    } else {
        Err(CompileError::InvalidVariable)
    }
}

/// Parses the variable part of a placeholder, held in `part@.subrange(a, b)`
/// where `chars` mirrors the characters of `part`.
pub fn parse_var_part(part: &str, chars: &Vec<char>, a: usize, b: usize) -> (r: Result<
    Var,
    CompileError,
>)
    requires
        chars@ == part@,
        a <= b <= chars@.len(),
    ensures
        match r {
            Ok(v) => spec_parse_var_part(part@.subrange(a as int, b as int)) == Ok::<
                VarModel,
                CompileError,
            >(v@),
            Err(e) => spec_parse_var_part(part@.subrange(a as int, b as int)) == Err::<
                VarModel,
                CompileError,
            >(e),
        },
{
    let ghost s = part@.subrange(a as int, b as int);
    let (ta, tb) = crate::text::trim_bounds_range(chars, a, b);
    let ghost t = spec_trim(s);
    proof {
        assert(chars@.subrange(ta as int, tb as int) == t);
    }
    if ta == tb {
        return Ok(Var::Implied);
    }
    proof {
        assert(t[0] == chars@[ta as int]);
    }
    if is_digit(chars[ta]) {
        // an explicit position: all digits, value at most 255
        let mut i: usize = ta;
        let mut val: u32 = 0;
        while i < tb
            invariant
                ta <= i <= tb <= chars@.len(),
                t == chars@.subrange(ta as int, tb as int),
                forall|j: int| ta <= j < i ==> is_digit_char(chars@[j]),
                val <= 255,
                val == digits_val(t.take(i - ta)),
            decreases tb - i,
        {
            let c = chars[i];
            if !is_digit(c) {
                proof {
                    assert(t[i - ta] == chars@[i as int]);
                }
                return Err(CompileError::InvalidVariable);
            }
            let d: u32 = (c as u32) - 48;
            proof {
                assert(t.take(i - ta + 1).drop_last() =~= t.take(i - ta));
                assert(t.take(i - ta + 1).last() == chars@[i as int]);
            }
            if val > 25 || (val == 25 && d > 5) {
                proof {
                    lemma_digits_val_prefix(t, i - ta + 1);
                }
                return Err(CompileError::InvalidVariable);
            }
            val = val * 10 + d;
            i = i + 1;
        }
        proof {
            assert(t.take(tb - ta) =~= t);
            assert forall|j: int| 0 <= j < t.len() implies is_digit_char(t[j]) by {
                assert(t[j] == chars@[j + ta]);
            }
        }
        Ok(Var::Position(val as u8))
    } else {
        // an identifier
        let c0 = chars[ta];
        let u0 = c0 as u32;
        let start_ok = (97 <= u0 && u0 <= 122) || (65 <= u0 && u0 <= 90) || c0 == '_';
        if !start_ok {
            return Err(CompileError::InvalidVariable);
        }
        if tb - ta == 1 && c0 == '_' {
            proof {
                assert(t =~= seq!['_']);
            }
            return Err(CompileError::InvalidVariable);
        }
        let mut i: usize = ta + 1;
        while i < tb
            invariant
                ta < i <= tb <= chars@.len(),
                t == chars@.subrange(ta as int, tb as int),
                forall|j: int| ta < j < i ==> is_ident_char(chars@[j]),
            decreases tb - i,
        {
            let c = chars[i];
            let u = c as u32;
            let ok = (97 <= u && u <= 122) || (65 <= u && u <= 90) || c == '_' || (48 <= u && u
                <= 57);
            if !ok {
                proof {
                    assert(t[i - ta] == chars@[i as int]);
                }
                return Err(CompileError::InvalidVariable);
            }
            i = i + 1;
        }
        proof {
            assert forall|j: int| 1 <= j < t.len() implies is_ident_char(t[j]) by {
                assert(t[j] == chars@[j + ta]);
            }
            if t == seq!['_'] {
                assert(t.len() == 1 && t[0] == '_');
            }
        }
        let ident = part.substring_char(ta, tb);
        Ok(Var::Ident(String::from_str(ident)))
    }
}

} // verus!
