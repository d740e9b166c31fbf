//! The template compiler: lexes a template string into literal runs and
//! placeholders, parses each placeholder body, and validates the resulting
//! instruction sequence.

use vstd::prelude::*;

use crate::parse_error::CompileError;
use crate::text::is_digit;
use crate::text::is_digit_char;
use crate::text::spec_trim;
use crate::text::str_eq;
use crate::text::str_to_chars;
use crate::var::digits_val;
use crate::var::lemma_digits_val_prefix;
use crate::var::spec_is_digits;
use crate::var::spec_parse_var_part;
use crate::var::Var;
use crate::var::VarModel;

verus! {

/// The mathematical value of an [`Instruction`]: strings become character
/// sequences.
pub enum InstructionModel {
    Lit(Seq<char>),
    Parse(VarModel),
    VecParse(VarModel, Seq<char>, bool),
    IterParse(VarModel, Seq<char>, bool),
    MultiParse(VarModel, Seq<char>, u8, bool),
}

/// One step of a compiled template, in left-to-right text order.
#[derive(Debug, Clone)]
pub enum Instruction {
    /// Fixed text that must appear verbatim next in the input.
    Lit(String),
    /// A single-value capture: everything up to the next literal.
    Parse(Var),
    /// A growable list capture: the region is split on the separator, the
    /// flag collapses runs of consecutive separators.
    VecParse(Var, String, bool),
    /// A lazy iterator capture over the same splitting rule.
    IterParse(Var, String, bool),
    /// A fixed-arity capture: the region must split into exactly the given
    /// number of elements.
    MultiParse(Var, String, u8, bool),
}

impl View for Instruction {
    type V = InstructionModel;

    open spec fn view(&self) -> InstructionModel {
        match self {
            Instruction::Lit(s) => InstructionModel::Lit(s@),
            Instruction::Parse(v) => InstructionModel::Parse(v@),
            Instruction::VecParse(v, s, m) => InstructionModel::VecParse(v@, s@, *m),
            Instruction::IterParse(v, s, m) => InstructionModel::IterParse(v@, s@, *m),
            Instruction::MultiParse(v, s, n, m) => InstructionModel::MultiParse(v@, s@, *n, *m),
        }
    }
}

impl DeepView for Instruction {
    type V = InstructionModel;

    open spec fn deep_view(&self) -> InstructionModel {
        self.view()
    }
}

impl PartialEq for Instruction {
    fn eq(&self, other: &Self) -> bool {
        match (self, other) {
            (Instruction::Lit(l), Instruction::Lit(r)) => str_eq(l.as_str(), r.as_str()),
            (Instruction::Parse(lv), Instruction::Parse(rv)) => lv == rv,
            (Instruction::VecParse(lv, ls, lm), Instruction::VecParse(rv, rs, rm)) => lv == rv
                && str_eq(ls.as_str(), rs.as_str()) && *lm == *rm,
            (Instruction::IterParse(lv, ls, lm), Instruction::IterParse(rv, rs, rm)) => lv == rv
                && str_eq(ls.as_str(), rs.as_str()) && *lm == *rm,
            (
                Instruction::MultiParse(lv, ls, ln, lm),
                Instruction::MultiParse(rv, rs, rn, rm),
            ) => lv == rv && str_eq(ls.as_str(), rs.as_str()) && *ln == *rn && *lm == *rm,
            _ => false,
        }
    }
}

impl vstd::std_specs::cmp::PartialEqSpecImpl for Instruction {
    open spec fn obeys_eq_spec() -> bool {
        true
    }

    open spec fn eq_spec(&self, other: &Self) -> bool {
        self@ == other@
    }
}

/// The variable of an instruction, or `None` for a literal.
pub open spec fn var_of(ins: InstructionModel) -> Option<VarModel> {
    match ins {
        InstructionModel::Lit(_) => None,
        InstructionModel::Parse(v) => Some(v),
        InstructionModel::VecParse(v, _, _) => Some(v),
        InstructionModel::IterParse(v, _, _) => Some(v),
        InstructionModel::MultiParse(v, _, _, _) => Some(v),
    }
}

/// Whether an instruction is a literal.
pub open spec fn is_lit(ins: InstructionModel) -> bool {
    ins is Lit
}

impl Instruction {
    /// The variable of this instruction, or `None` for a literal.
    pub fn get_var(&self) -> (r: Option<&Var>)
        ensures
            match r {
                Some(v) => var_of(self@) == Some(v@),
                None => var_of(self@) is None,
            },
    {
        match self {
            Instruction::Lit(_) => None,
            Instruction::Parse(v) => Some(v),
            Instruction::VecParse(v, _, _) => Some(v),
            Instruction::IterParse(v, _, _) => Some(v),
            Instruction::MultiParse(v, _, _, _) => Some(v),
        }
    }
}

/// The position of the first occurrence of `c` in `s` at or after `from`.
pub open spec fn spec_find_char(s: Seq<char>, c: char, from: int) -> Option<int>
    decreases s.len() - from + 1,
{
    if from < 0 || from >= s.len() {
        None
    } else if s[from] == c {
        Some(from)
    } else {
        spec_find_char(s, c, from + 1)
    }
}

/// The position of the last occurrence of `c` in `s`.
pub open spec fn spec_rfind_char(s: Seq<char>, c: char) -> Option<int>
    decreases s.len(),
{
    if s.len() == 0 {
        None
    } else if s.last() == c {
        Some(s.len() - 1)
    } else {
        spec_rfind_char(s.drop_last(), c)
    }
}

proof fn lemma_rfind_take(s: Seq<char>, c: char, k: int)
    requires
        0 <= k <= s.len(),
        forall|i: int| k <= i < s.len() ==> s[i] != c,
    ensures
        spec_rfind_char(s, c) == spec_rfind_char(s.take(k), c),
    decreases s.len(),
{
    if k == s.len() {
        assert(s.take(k) =~= s);
    } else {
        lemma_rfind_take(s.drop_last(), c, k);
        assert(s.drop_last().take(k) =~= s.take(k));
    }
}

/// First occurrence of `c` in `chars` at or after `from`.
pub fn find_char(chars: &Vec<char>, c: char, from: usize) -> (r: Option<usize>)
    requires
        from <= chars@.len(),
    ensures
        match r {
            Some(j) => spec_find_char(chars@, c, from as int) == Some(j as int) && from <= j
                < chars@.len(),
            None => spec_find_char(chars@, c, from as int) is None,
        },
{
    let len = chars.len();
    let mut i: usize = from;
    while i < len
        invariant
            from <= i <= len,
            len == chars@.len(),
            spec_find_char(chars@, c, from as int) == spec_find_char(chars@, c, i as int),
        decreases len - i,
    {
        if chars[i] == c {
            return Some(i);
        }
        i = i + 1;
    }
    None
}

/// Last occurrence of `c` in `chars@.subrange(lo, hi)`, as an absolute
/// position.
pub fn rfind_char(chars: &Vec<char>, c: char, lo: usize, hi: usize) -> (r: Option<usize>)
    requires
        lo <= hi <= chars@.len(),
    ensures
        match r {
            Some(j) => lo <= j < hi && spec_rfind_char(chars@.subrange(lo as int, hi as int), c)
                == Some(j - lo),
            None => spec_rfind_char(chars@.subrange(lo as int, hi as int), c) is None,
        },
{
    let ghost s = chars@.subrange(lo as int, hi as int);
    let mut k: usize = hi;
    while k > lo
        invariant
            lo <= k <= hi,
            s == chars@.subrange(lo as int, hi as int),
            forall|i: int| k - lo <= i < s.len() ==> s[i] != c,
        decreases k,
    {
        if chars[k - 1] == c {
            proof {
                lemma_rfind_take(s, c, k - lo);
                assert(s.take(k - lo).last() == s[k - lo - 1]);
                assert(s[k - lo - 1] == chars@[k - 1]);
            }
            return Some(k - 1);
        }
        proof {
            assert(s[k - 1 - lo] == chars@[k - 1]);
        }
        k = k - 1;
    }
    proof {
        lemma_rfind_take(s, c, 0);
        assert(s.take(0) =~= Seq::<char>::empty());
    }
    None
}

/// How a multi-value count reads, mirroring `u8::from_str`: an optional `+`
/// sign, then decimal digits whose value fits in 0..=255.
pub open spec fn spec_parse_count(num: Seq<char>) -> Result<u8, CompileError> {
    let d = if num.len() > 0 && num[0] == '+' {
        num.drop_first()
    } else {
        num
    };
    if spec_is_digits(d) && digits_val(d) <= 255 {
        Ok(digits_val(d) as u8)
    } else {
        Err(CompileError::InvalidArity)
    }
}

/// Reads the digits in `chars@.subrange(a, b)` as a number up to 255.
fn digits_to_u8(chars: &Vec<char>, a: usize, b: usize) -> (r: Option<u8>)
    requires
        a <= b <= chars@.len(),
    ensures
        ({
            let d = chars@.subrange(a as int, b as int);
            match r {
                Some(n) => spec_is_digits(d) && digits_val(d) == n,
                None => !(spec_is_digits(d) && digits_val(d) <= 255),
            }
        }),
{
    let ghost d = chars@.subrange(a as int, b as int);
    if a == b {
        return None;
    }
    let mut i: usize = a;
    let mut val: u32 = 0;
    while i < b
        invariant
            a <= i <= b,
            forall|j: int| a <= j < i ==> is_digit_char(chars@[j]),
            val <= 255,
            val == digits_val(d.take(i - a)),
        decreases b - i,
    {
        let c = chars[i];
        if !is_digit(c) {
            proof {
                assert(d[i - a] == chars@[i as int]);
            }
            return None;
        }
        let dv: u32 = (c as u32) - 48;
        proof {
            assert(d.take(i - a + 1).drop_last() =~= d.take(i - a));
            assert(d.take(i - a + 1).last() == chars@[i as int]);
        }
        if val > 25 || (val == 25 && dv > 5) {
            proof {
                lemma_digits_val_prefix(d, i - a + 1);
            }
            return None;
        }
        val = val * 10 + dv;
        i = i + 1;
    }
    proof {
        assert(d.take(b - a) =~= d);
        assert forall|j: int| 0 <= j < d.len() implies is_digit_char(d[j]) by {
            assert(d[j] == chars@[j + a]);
        }
    }
    Some(val as u8)
}

/// How the body of one `{...}` placeholder reads.  With no `:` the whole
/// body is a variable part and the capture is single-valued.  Otherwise the
/// variable part ends at the first `:`, the count starts after the last `:`
/// (so separators may contain `:`), and a missing second `:` is invalid.  A
/// count prefixed with `!` collapses runs of separators; an empty count
/// means a list, `0` a lazy iterator, and any other number a fixed arity.
pub open spec fn spec_parse_var(body: Seq<char>) -> Result<InstructionModel, CompileError> {
    match spec_find_char(body, ':', 0) {
        None => match spec_parse_var_part(body) {
            Ok(v) => Ok(InstructionModel::Parse(v)),
            Err(e) => Err(e),
        },
        Some(f) => match spec_parse_var_part(body.take(f)) {
            Err(e) => Err(e),
            Ok(v) => {
                let rest = body.skip(f + 1);
                match spec_rfind_char(rest, ':') {
                    None => Err(CompileError::InvalidSeparator),
                    Some(l) => {
                        let sep = rest.take(l);
                        let num0 = rest.skip(l + 1);
                        let multi = num0.len() > 0 && num0[0] == '!';
                        let num = if multi {
                            num0.drop_first()
                        } else {
                            num0
                        };
                        if spec_trim(num).len() == 0 {
                            Ok(InstructionModel::VecParse(v, sep, multi))
                        } else {
                            match spec_parse_count(num) {
                                Err(e) => Err(e),
                                Ok(n) => if n == 0 {
                                    Ok(InstructionModel::IterParse(v, sep, multi))
                                } else {
                                    Ok(InstructionModel::MultiParse(v, sep, n, multi))
                                },
                            }
                        }
                    },
                }
            },
        },
    }
}

/// Parses the body of one placeholder into an instruction.
pub fn parse_var(body: &str) -> (r: Result<Instruction, CompileError>)
    ensures
        match r {
            Ok(ins) => spec_parse_var(body@) == Ok::<InstructionModel, CompileError>(ins@),
            Err(e) => spec_parse_var(body@) == Err::<InstructionModel, CompileError>(e),
        },
{
    let chars = str_to_chars(body);
    let len = chars.len();
    match find_char(&chars, ':', 0) {
        None => {
            match crate::var::parse_var_part(body, &chars, 0, len) {
                Ok(v) => {
                    proof {
                        assert(body@.subrange(0, len as int) =~= body@);
                    }
                    Ok(Instruction::Parse(v))
                },
                Err(e) => {
                    proof {
                        assert(body@.subrange(0, len as int) =~= body@);
                    }
                    Err(e)
                },
            }
        },
        Some(f) => {
            let ghost rest = body@.skip(f + 1);
            proof {
                assert(body@.subrange(0, f as int) =~= body@.take(f as int));
            }
            let v = match crate::var::parse_var_part(body, &chars, 0, f) {
                Ok(v) => v,
                Err(e) => {
                    return Err(e);
                },
            };
            match rfind_char(&chars, ':', f + 1, len) {
                None => {
                    proof {
                        assert(chars@.subrange(f + 1, len as int) =~= rest);
                    }
                    Err(CompileError::InvalidSeparator)
                },
                Some(labs) => {
                    proof {
                        assert(chars@.subrange(f + 1, len as int) =~= rest);
                    }
                    let ghost l: int = labs - (f + 1);
                    let sep = String::from_str(body.substring_char(f + 1, labs));
                    proof {
                        assert(body@.subrange(f + 1, labs as int) =~= rest.take(l));
                    }
                    let ghost num0 = rest.skip(l + 1);
                    let multi = labs + 1 < len && chars[labs + 1] == '!';
                    proof {
                        if labs + 1 < len {
                            assert(num0[0] == chars@[labs + 1]);
                        }
                        assert(num0.len() == len - labs - 1);
                    }
                    let num_start = if multi {
                        labs + 2
                    } else {
                        labs + 1
                    };
                    let ghost num = if multi {
                        num0.drop_first()
                    } else {
                        num0
                    };
                    proof {
                        assert(chars@.subrange(num_start as int, len as int) =~= num);
                    }
                    let (ta, tb) = crate::text::trim_bounds_range(&chars, num_start, len);
                    if ta == tb {
                        return Ok(Instruction::VecParse(v, sep, multi));
                    }
                    // the count part is not trimmed before it is read
                    let dig_start = if chars[num_start] == '+' {
                        num_start + 1
                    } else {
                        num_start
                    };
                    proof {
                        if num.len() > 0 {
                            assert(num[0] == chars@[num_start as int]);
                        }
                        assert(chars@.subrange(dig_start as int, len as int) =~= (if num.len() > 0
                            && num[0] == '+' {
                            num.drop_first()
                        } else {
                            num
                        }));
                    }
                    match digits_to_u8(&chars, dig_start, len) {
                        None => Err(CompileError::InvalidArity),
                        Some(n) => if n == 0 {
                            Ok(Instruction::IterParse(v, sep, multi))
                        } else {
                            Ok(Instruction::MultiParse(v, sep, n, multi))
                        },
                    }
                },
            }
        },
    }
}

/// How a template string lexes, one character at a time from position `i`.
/// Outside a placeholder, `{{` and `}}` are escapes for literal braces and a
/// lone `{` opens a placeholder, ending the pending literal run `val`.
/// Inside one, `{{` is an escaped `{`, a `}}` pair not followed by a third
/// `}` is an escaped `}`, and any other `}` closes the placeholder, whose
/// accumulated body is parsed; a capture may not directly follow another.
pub open spec fn spec_lex(
    t: Seq<char>,
    i: nat,
    var_mode: bool,
    val: Seq<char>,
    acc: Seq<InstructionModel>,
) -> Result<Seq<InstructionModel>, CompileError>
    decreases t.len() - i,
{
    if i >= t.len() {
        if var_mode {
            Err(CompileError::UnclosedPlaceholder)
        } else if val.len() > 0 {
            Ok(acc.push(InstructionModel::Lit(val)))
        } else {
            Ok(acc)
        }
    } else {
        let c = t[i as int];
        if !var_mode {
            if c == '{' {
                if i + 1 < t.len() && t[i + 1 as int] == '{' {
                    spec_lex(t, i + 2, false, val.push('{'), acc)
                } else {
                    spec_lex(
                        t,
                        i + 1,
                        true,
                        Seq::empty(),
                        if val.len() > 0 {
                            acc.push(InstructionModel::Lit(val))
                        } else {
                            acc
                        },
                    )
                }
            } else if c == '}' {
                if i + 1 < t.len() && t[i + 1 as int] == '}' {
                    spec_lex(t, i + 2, false, val.push('}'), acc)
                } else {
                    Err(CompileError::UnexpectedClose)
                }
            } else {
                spec_lex(t, i + 1, false, val.push(c), acc)
            }
        } else {
            if c == '{' {
                if i + 1 < t.len() && t[i + 1 as int] == '{' {
                    spec_lex(t, i + 2, true, val.push('{'), acc)
                } else {
                    Err(CompileError::UnexpectedOpen)
                }
            } else if c == '}' {
                if i + 1 < t.len() && t[i + 1 as int] == '}' && !(i + 2 < t.len() && t[i + 2 as int] == '}') {
                    spec_lex(t, i + 2, true, val.push('}'), acc)
                } else if acc.len() > 0 && !is_lit(acc.last()) {
                    Err(CompileError::AmbiguousAdjacentCaptures)
                } else {
                    match spec_parse_var(val) {
                        Err(e) => Err(e),
                        Ok(ins) => spec_lex(t, i + 1, false, Seq::empty(), acc.push(ins)),
                    }
                }
            } else {
                spec_lex(t, i + 1, true, val.push(c), acc)
            }
        }
    }
}

/// No two captures stand side by side without a literal in between.
pub open spec fn no_adjacent_captures(instrs: Seq<InstructionModel>) -> bool {
    forall|j: int|
        0 <= j < instrs.len() - 1 ==> !((#[trigger] var_of(instrs[j])) is Some && var_of(
            instrs[j + 1],
        ) is Some)
}

/// Some instruction carries an explicit position.
pub open spec fn has_position(instrs: Seq<InstructionModel>) -> bool {
    exists|j: int|
        0 <= j < instrs.len() && (#[trigger] var_of(instrs[j])) matches Some(VarModel::Position(_))
}

/// Some instruction carries an implied variable.
pub open spec fn has_implied(instrs: Seq<InstructionModel>) -> bool {
    exists|j: int|
        0 <= j < instrs.len() && (#[trigger] var_of(instrs[j])) matches Some(VarModel::Implied)
}

/// The explicit positions of the instructions, in text order.
pub open spec fn positions_of(instrs: Seq<InstructionModel>) -> Seq<u8>
    decreases instrs.len(),
{
    if instrs.len() == 0 {
        Seq::empty()
    } else {
        positions_of(instrs.drop_last()) + (match var_of(instrs.last()) {
            Some(VarModel::Position(p)) => seq![p],
            _ => Seq::empty(),
        })
    }
}

/// How many entries of `ps` hold the value `k`.
pub open spec fn count_eq(ps: Seq<u8>, k: int) -> nat
    decreases ps.len(),
{
    if ps.len() == 0 {
        0
    } else {
        count_eq(ps.drop_last(), k) + if ps.last() as int == k {
            1nat
        } else {
            0nat
        }
    }
}

/// The explicit positions form a permutation of `0..count`: each index below
/// the count is used exactly once.
pub open spec fn positions_valid(instrs: Seq<InstructionModel>) -> bool {
    let ps = positions_of(instrs);
    forall|k: int| 0 <= k < ps.len() ==> count_eq(ps, k) == 1
}

/// The variables of the captures, one per capture, in text order.
pub open spec fn vars_of(instrs: Seq<InstructionModel>) -> Seq<VarModel>
    decreases instrs.len(),
{
    if instrs.len() == 0 {
        Seq::empty()
    } else {
        vars_of(instrs.drop_last()) + (match var_of(instrs.last()) {
            Some(v) => seq![v],
            None => Seq::empty(),
        })
    }
}

/// The explicit positions among a capture-variable sequence, in order.
pub open spec fn poss(vs: Seq<VarModel>) -> Seq<u8>
    decreases vs.len(),
{
    if vs.len() == 0 {
        Seq::empty()
    } else {
        poss(vs.drop_last()) + (match vs.last() {
            VarModel::Position(p) => seq![p],
            _ => Seq::empty(),
        })
    }
}

/// The positions of an instruction sequence are the positions of its
/// capture variables.
pub proof fn lemma_positions_of_vars(instrs: Seq<InstructionModel>)
    ensures
        positions_of(instrs) == poss(vars_of(instrs)),
    decreases instrs.len(),
{
    if instrs.len() > 0 {
        lemma_positions_of_vars(instrs.drop_last());
        match var_of(instrs.last()) {
            Some(v) => {
                assert(vars_of(instrs.drop_last()).push(v).drop_last() =~= vars_of(
                    instrs.drop_last(),
                ));
                assert(vars_of(instrs) =~= vars_of(instrs.drop_last()).push(v));
            },
            None => {
                assert(vars_of(instrs) =~= vars_of(instrs.drop_last()));
            },
        }
    }
}

/// A sequence with no explicit position anywhere has none among its
/// positions.
pub proof fn lemma_poss_absent(vs: Seq<VarModel>, k: int)
    requires
        forall|j: int| 0 <= j < vs.len() ==> !((#[trigger] vs[j]) matches VarModel::Position(p)
            && p as int == k),
    ensures
        count_eq(poss(vs), k) == 0,
    decreases vs.len(),
{
    if vs.len() > 0 {
        lemma_poss_absent(vs.drop_last(), k);
        match vs.last() {
            VarModel::Position(p) => {
                assert(!(vs[vs.len() - 1] matches VarModel::Position(q) && q as int == k));
                assert(poss(vs) =~= poss(vs.drop_last()).push(p));
                assert(poss(vs.drop_last()).push(p).drop_last() =~= poss(vs.drop_last()));
            },
            _ => {
                assert(poss(vs) =~= poss(vs.drop_last()));
            },
        }
    }
}

/// An instruction sequence has an explicit position exactly when its
/// positions are non-empty.
pub proof fn lemma_has_position_len(instrs: Seq<InstructionModel>)
    ensures
        has_position(instrs) == (positions_of(instrs).len() > 0),
    decreases instrs.len(),
{
    if instrs.len() > 0 {
        lemma_has_position_len(instrs.drop_last());
        if positions_of(instrs.drop_last()).len() > 0 {
            assert(has_position(instrs.drop_last()));
            let j = choose|j: int|
                0 <= j < instrs.len() - 1 && (#[trigger] var_of(
                    instrs.drop_last()[j],
                )) matches Some(VarModel::Position(_));
            assert(var_of(instrs[j]) matches Some(VarModel::Position(_)));
        } else {
            if var_of(instrs.last()) matches Some(VarModel::Position(p)) {
                assert(has_position(instrs));
            } else {
                if has_position(instrs) {
                    let j = choose|j: int|
                        0 <= j < instrs.len() && (#[trigger] var_of(
                            instrs[j],
                        )) matches Some(VarModel::Position(_));
                    assert(j < instrs.len() - 1);
                    assert(var_of(instrs.drop_last()[j]) matches Some(VarModel::Position(_)));
                }
            }
        }
    }
}

/// The index among the captures of the first one at the given position.
pub open spec fn idx_of_position(vs: Seq<VarModel>, k: int) -> int
    decreases vs.len(),
{
    if vs.len() == 0 {
        0
    } else if vs[0] matches VarModel::Position(p) && p as int == k {
        0
    } else {
        1 + idx_of_position(vs.skip(1), k)
    }
}

/// A first match pins `idx_of_position` down.
pub proof fn lemma_idx_of_position_exact(vs: Seq<VarModel>, k: int, j: int)
    requires
        0 <= j < vs.len(),
        vs[j] matches VarModel::Position(p) && p as int == k,
        forall|i: int| 0 <= i < j ==> !((#[trigger] vs[i]) matches VarModel::Position(p)
            && p as int == k),
    ensures
        idx_of_position(vs, k) == j,
    decreases j,
{
    if j > 0 {
        assert(!(vs[0] matches VarModel::Position(p) && p as int == k));
        lemma_idx_of_position_exact(vs.skip(1), k, j - 1);
        assert forall|i: int| 0 <= i < j - 1 implies !((#[trigger] vs.skip(1)[i])
            matches VarModel::Position(p) && p as int == k) by {
            assert(vs.skip(1)[i] == vs[i + 1]);
        }
    }
}

/// The capture indices of the implied captures, in text order.
pub open spec fn implied_idxs(vs: Seq<VarModel>) -> Seq<int>
    decreases vs.len(),
{
    if vs.len() == 0 {
        Seq::empty()
    } else {
        implied_idxs(vs.drop_last()) + (if vs.last() is Implied {
            seq![vs.len() - 1]
        } else {
            Seq::empty()
        })
    }
}

/// The named captures with their capture indices, in text order.
pub open spec fn named_of(vs: Seq<VarModel>) -> Seq<(Seq<char>, int)>
    decreases vs.len(),
{
    if vs.len() == 0 {
        Seq::empty()
    } else {
        named_of(vs.drop_last()) + (match vs.last() {
            VarModel::Ident(n) => seq![(n, vs.len() - 1)],
            _ => Seq::empty(),
        })
    }
}

/// Which capture feeds each output slot.  With explicit positions, slot `k`
/// is fed by the capture marked with position `k`; otherwise the implied
/// captures feed the slots in text order, and named captures feed none.
pub open spec fn spec_slots(instrs: Seq<InstructionModel>) -> Seq<int> {
    let vs = vars_of(instrs);
    if has_position(instrs) {
        Seq::new(positions_of(instrs).len(), |k: int| idx_of_position(vs, k))
    } else {
        implied_idxs(vs)
    }
}

/// The named captures of a template with the index of the capture that
/// feeds each, in text order.
pub open spec fn spec_names(instrs: Seq<InstructionModel>) -> Seq<(Seq<char>, int)> {
    named_of(vars_of(instrs))
}

/// How a lexed instruction sequence validates: if any explicit position is
/// used, no capture may be implied and the positions must form a permutation
/// of `0..count`.
pub open spec fn spec_validate(instrs: Seq<InstructionModel>) -> Result<
    Seq<InstructionModel>,
    CompileError,
> {
    if has_position(instrs) {
        if has_implied(instrs) {
            Err(CompileError::InvalidPositional)
        } else if positions_valid(instrs) {
            Ok(instrs)
        } else {
            Err(CompileError::InvalidPositional)
        }
    } else {
        Ok(instrs)
    }
}

/// How a whole template string compiles: lexed from the start, then
/// validated.
pub open spec fn spec_compile(t: Seq<char>) -> Result<Seq<InstructionModel>, CompileError> {
    match spec_lex(t, 0, false, Seq::empty(), Seq::empty()) {
        Ok(ins) => spec_validate(ins),
        Err(e) => Err(e),
    }
}

/// Law: compilation is a pure function of the template's characters, so
/// compiling one template string twice yields structurally equal
/// instruction sequences.
pub proof fn lemma_compile_deterministic(t1: Seq<char>, t2: Seq<char>)
    requires
        t1 == t2,
    ensures
        spec_compile(t1) == spec_compile(t2),
{
}

/// What the compiler guarantees of every instruction sequence it returns:
/// the matcher relies on it.
pub open spec fn spec_instrs_valid(instrs: Seq<InstructionModel>) -> bool {
    &&& no_adjacent_captures(instrs)
    &&& has_position(instrs) ==> !has_implied(instrs) && positions_valid(instrs)
}

/// No two literals stand side by side: the lexer accumulates each literal
/// run whole.
pub open spec fn no_adjacent_lits(instrs: Seq<InstructionModel>) -> bool {
    forall|j: int|
        0 <= j < instrs.len() - 1 ==> !((#[trigger] is_lit(instrs[j])) && is_lit(instrs[j + 1]))
}

/// A placeholder body never parses to a literal.
proof fn lemma_parse_var_not_lit(body: Seq<char>)
    ensures
        spec_parse_var(body) matches Ok(ins) ==> !is_lit(ins),
{
}

/// Pushing a capture, or a literal not after a literal, keeps literals
/// apart.
proof fn lemma_push_keeps_no_adjacent_lits(acc: Seq<InstructionModel>, ins: InstructionModel)
    requires
        no_adjacent_lits(acc),
        is_lit(ins) ==> acc.len() == 0 || !is_lit(acc.last()),
    ensures
        no_adjacent_lits(acc.push(ins)),
{
    let r = acc.push(ins);
    assert forall|j: int|
        0 <= j < r.len() - 1 implies !((#[trigger] is_lit(r[j])) && is_lit(r[j + 1])) by {
        if j + 1 < acc.len() {
            assert(r[j] == acc[j] && r[j + 1] == acc[j + 1]);
        } else {
            assert(r[j] == acc[j] && r[j + 1] == ins);
            if is_lit(ins) {
                assert(acc[j] == acc.last());
            }
        }
    }
}

/// The lexer never emits two adjacent literals: outside a placeholder the
/// last instruction pushed is never a literal.
proof fn lemma_lex_no_adjacent_lits(
    t: Seq<char>,
    i: nat,
    var_mode: bool,
    val: Seq<char>,
    acc: Seq<InstructionModel>,
)
    requires
        no_adjacent_lits(acc),
        !var_mode ==> acc.len() == 0 || !is_lit(acc.last()),
    ensures
        spec_lex(t, i, var_mode, val, acc) matches Ok(res) ==> no_adjacent_lits(res),
    decreases t.len() - i,
{
    if i >= t.len() {
        if !var_mode && val.len() > 0 {
            lemma_push_keeps_no_adjacent_lits(acc, InstructionModel::Lit(val));
        }
    } else {
        let c = t[i as int];
        if !var_mode {
            if c == '{' {
                if i + 1 < t.len() && t[i + 1 as int] == '{' {
                    lemma_lex_no_adjacent_lits(t, i + 2, false, val.push('{'), acc);
                } else {
                    if val.len() > 0 {
                        lemma_push_keeps_no_adjacent_lits(acc, InstructionModel::Lit(val));
                        lemma_lex_no_adjacent_lits(
                            t,
                            i + 1,
                            true,
                            Seq::empty(),
                            acc.push(InstructionModel::Lit(val)),
                        );
                    } else {
                        lemma_lex_no_adjacent_lits(t, i + 1, true, Seq::empty(), acc);
                    }
                }
            } else if c == '}' {
                if i + 1 < t.len() && t[i + 1 as int] == '}' {
                    lemma_lex_no_adjacent_lits(t, i + 2, false, val.push('}'), acc);
                }
            } else {
                lemma_lex_no_adjacent_lits(t, i + 1, false, val.push(c), acc);
            }
        } else {
            if c == '{' {
                if i + 1 < t.len() && t[i + 1 as int] == '{' {
                    lemma_lex_no_adjacent_lits(t, i + 2, true, val.push('{'), acc);
                }
            } else if c == '}' {
                if i + 1 < t.len() && t[i + 1 as int] == '}' && !(i + 2 < t.len() && t[i + 2 as int]
                    == '}') {
                    lemma_lex_no_adjacent_lits(t, i + 2, true, val.push('}'), acc);
                } else if acc.len() > 0 && !is_lit(acc.last()) {
                } else {
                    match spec_parse_var(val) {
                        Err(_) => {},
                        Ok(ins) => {
                            lemma_parse_var_not_lit(val);
                            lemma_push_keeps_no_adjacent_lits(acc, ins);
                            lemma_lex_no_adjacent_lits(t, i + 1, false, Seq::empty(), acc.push(ins));
                        },
                    }
                }
            } else {
                lemma_lex_no_adjacent_lits(t, i + 1, true, val.push(c), acc);
            }
        }
    }
}

/// The lexer never emits two adjacent captures.
proof fn lemma_lex_no_adjacent(
    t: Seq<char>,
    i: nat,
    var_mode: bool,
    val: Seq<char>,
    acc: Seq<InstructionModel>,
)
    requires
        no_adjacent_captures(acc),
    ensures
        spec_lex(t, i, var_mode, val, acc) matches Ok(res) ==> no_adjacent_captures(res),
    decreases t.len() - i,
{
    if i >= t.len() {
        if !var_mode && val.len() > 0 {
            lemma_push_keeps_no_adjacent(acc, InstructionModel::Lit(val));
        }
    } else {
        let c = t[i as int];
        if !var_mode {
            if c == '{' {
                if i + 1 < t.len() && t[i + 1 as int] == '{' {
                    lemma_lex_no_adjacent(t, i + 2, false, val.push('{'), acc);
                } else {
                    if val.len() > 0 {
                        lemma_push_keeps_no_adjacent(acc, InstructionModel::Lit(val));
                        lemma_lex_no_adjacent(
                            t,
                            i + 1,
                            true,
                            Seq::empty(),
                            acc.push(InstructionModel::Lit(val)),
                        );
                    } else {
                        lemma_lex_no_adjacent(t, i + 1, true, Seq::empty(), acc);
                    }
                }
            } else if c == '}' {
                if i + 1 < t.len() && t[i + 1 as int] == '}' {
                    lemma_lex_no_adjacent(t, i + 2, false, val.push('}'), acc);
                }
            } else {
                lemma_lex_no_adjacent(t, i + 1, false, val.push(c), acc);
            }
        } else {
            if c == '{' {
                if i + 1 < t.len() && t[i + 1 as int] == '{' {
                    lemma_lex_no_adjacent(t, i + 2, true, val.push('{'), acc);
                }
            } else if c == '}' {
                if i + 1 < t.len() && t[i + 1 as int] == '}' && !(i + 2 < t.len() && t[i + 2 as int] == '}') {
                    lemma_lex_no_adjacent(t, i + 2, true, val.push('}'), acc);
                } else if acc.len() > 0 && !is_lit(acc.last()) {
                } else {
                    match spec_parse_var(val) {
                        Err(_) => {},
                        Ok(ins) => {
                            lemma_push_keeps_no_adjacent(acc, ins);
                            lemma_lex_no_adjacent(t, i + 1, false, Seq::empty(), acc.push(ins));
                        },
                    }
                }
            } else {
                lemma_lex_no_adjacent(t, i + 1, true, val.push(c), acc);
            }
        }
    }
}

/// Pushing a literal, or a capture after a literal, keeps captures apart.
proof fn lemma_push_keeps_no_adjacent(acc: Seq<InstructionModel>, ins: InstructionModel)
    requires
        no_adjacent_captures(acc),
        var_of(ins) is Some ==> acc.len() == 0 || is_lit(acc.last()),
    ensures
        no_adjacent_captures(acc.push(ins)),
{
    let r = acc.push(ins);
    assert forall|j: int|
        0 <= j < r.len() - 1 implies !((#[trigger] var_of(r[j])) is Some && var_of(
        r[j + 1],
    ) is Some) by {
        if j + 1 < acc.len() {
            assert(r[j] == acc[j] && r[j + 1] == acc[j + 1]);
        } else {
            assert(r[j] == acc[j] && r[j + 1] == ins);
            if var_of(ins) is Some {
                assert(acc[j] == acc.last());
            }
        }
    }
}

/// A validated, immutable instruction sequence, compiled once from a
/// template string and reusable across many match operations.
#[derive(Debug)]
pub struct Instructions(pub Vec<Instruction>);

impl View for Instructions {
    type V = Seq<InstructionModel>;

    open spec fn view(&self) -> Seq<InstructionModel> {
        self.0.deep_view()
    }
}

impl PartialEq for Instructions {
    fn eq(&self, other: &Self) -> bool {
        if self.0.len() != other.0.len() {
            proof {
                assert(self@.len() == self.0.len() && other@.len() == other.0.len());
            }
            return false;
        }
        let len = self.0.len();
        let mut i: usize = 0;
        while i < len
            invariant
                0 <= i <= len,
                len == self.0.len() == other.0.len(),
                forall|j: int| 0 <= j < i ==> self@[j] == other@[j],
            decreases len - i,
        {
            if !(self.0[i] == other.0[i]) {
                proof {
                    assert(self@[i as int] == self.0[i as int]@);
                    assert(other@[i as int] == other.0[i as int]@);
                }
                return false;
            }
            proof {
                assert(self@[i as int] == self.0[i as int]@);
                assert(other@[i as int] == other.0[i as int]@);
            }
            i = i + 1;
        }
        proof {
            assert(self@ =~= other@);
        }
        true
    }
}

impl vstd::std_specs::cmp::PartialEqSpecImpl for Instructions {
    open spec fn obeys_eq_spec() -> bool {
        true
    }

    open spec fn eq_spec(&self, other: &Self) -> bool {
        self@ == other@
    }
}

/// Validates a lexed instruction sequence: explicit positions must not mix
/// with implied captures and must form a permutation of `0..count`.
fn validate(instrs: Vec<Instruction>) -> (r: Result<Instructions, CompileError>)
    ensures
        match r {
            Ok(ins) => spec_validate(instrs.deep_view()) == Ok::<_, CompileError>(ins@) && ins@
                == instrs.deep_view(),
            Err(e) => spec_validate(instrs.deep_view()) == Err::<Seq<InstructionModel>, _>(e),
        },
{
    let ghost dv = instrs.deep_view();
    let len = instrs.len();
    proof {
        assert(dv.len() == len);
    }
    let mut has_pos: bool = false;
    let mut has_imp: bool = false;
    let mut i: usize = 0;
    while i < len
        invariant
            0 <= i <= len,
            len == instrs.len(),
            dv == instrs.deep_view(),
            has_pos == exists|j: int|
                0 <= j < i && (#[trigger] var_of(dv[j])) matches Some(VarModel::Position(_)),
            has_imp == exists|j: int|
                0 <= j < i && (#[trigger] var_of(dv[j])) matches Some(VarModel::Implied),
        decreases len - i,
    {
        proof {
            assert(dv[i as int] == instrs[i as int]@);
        }
        match instrs[i].get_var() {
            Some(Var::Position(_)) => {
                has_pos = true;
                assert(var_of(dv[i as int]) matches Some(VarModel::Position(_)));
            },
            Some(Var::Implied) => {
                has_imp = true;
                assert(var_of(dv[i as int]) matches Some(VarModel::Implied));
            },
            _ => {},
        }
        i = i + 1;
    }
    if !has_pos {
        return Ok(Instructions(instrs));
    }
    if has_imp {
        return Err(CompileError::InvalidPositional);
    }
    // collect the explicit positions in text order
    let mut ps: Vec<u8> = Vec::new();
    let mut i: usize = 0;
    while i < len
        invariant
            0 <= i <= len,
            len == instrs.len(),
            dv == instrs.deep_view(),
            ps@ == positions_of(dv.take(i as int)),
        decreases len - i,
    {
        proof {
            assert(dv.take(i + 1).drop_last() =~= dv.take(i as int));
            assert(dv.take(i + 1).last() == dv[i as int]);
            assert(dv[i as int] == instrs[i as int]@);
        }
        match instrs[i].get_var() {
            Some(Var::Position(p)) => {
                let p = *p;
                ps.push(p);
                proof {
                    assert(ps@ =~= positions_of(dv.take(i + 1)));
                }
            },
            _ => {
                proof {
                    assert(ps@ =~= positions_of(dv.take(i + 1)));
                }
            },
        }
        i = i + 1;
    }
    proof {
        assert(dv.take(len as int) =~= dv);
    }
    // each index below the count must be used exactly once
    let n = ps.len();
    let mut k: usize = 0;
    while k < n
        invariant
            0 <= k <= n,
            n == ps@.len(),
            ps@ == positions_of(dv),
            forall|kk: int| 0 <= kk < k ==> count_eq(ps@, kk) == 1,
        decreases n - k,
    {
        let mut cnt: usize = 0;
        let mut j: usize = 0;
        while j < n
            invariant
                0 <= j <= n,
                n == ps@.len(),
                cnt <= j,
                cnt == count_eq(ps@.take(j as int), k as int),
            decreases n - j,
        {
            proof {
                assert(ps@.take(j + 1).drop_last() =~= ps@.take(j as int));
                assert(ps@.take(j + 1).last() == ps@[j as int]);
            }
            if ps[j] as usize == k {
                cnt = cnt + 1;
            }
            j = j + 1;
        }
        proof {
            assert(ps@.take(n as int) =~= ps@);
        }
        if cnt != 1 {
            return Err(CompileError::InvalidPositional);
        }
        k = k + 1;
    }
    Ok(Instructions(instrs))
}

impl Instructions {
    /// Compiles a template string into a validated instruction sequence, or
    /// reports the first error found.
    pub fn new(template: &str) -> (r: Result<Instructions, CompileError>)
        ensures
            r matches Ok(ins) ==> spec_compile(template@) == Ok::<_, CompileError>(ins@)
                && spec_instrs_valid(ins@) && no_adjacent_lits(ins@),
            r matches Err(e) ==> spec_compile(template@) == Err::<Seq<InstructionModel>, _>(e),
    {
        let chars = str_to_chars(template);
        let len = chars.len();
        let ghost t = template@;
        let mut i: usize = 0;
        let mut var_mode: bool = false;
        let mut val = String::new();
        let mut out: Vec<Instruction> = Vec::new();
        proof {
            assert(val@ =~= Seq::<char>::empty());
            assert(out.deep_view() =~= Seq::<InstructionModel>::empty());
        }
        while i < len
            invariant
                0 <= i <= len,
                len == chars@.len(),
                chars@ == t,
                t == template@,
                spec_lex(t, 0, false, Seq::empty(), Seq::empty()) == spec_lex(
                    t,
                    i as nat,
                    var_mode,
                    val@,
                    out.deep_view(),
                ),
            decreases len - i,
        {
            let ghost v0 = val@;
            let ghost acc0 = out.deep_view();
            let c = chars[i];
            if !var_mode {
                if c == '{' {
                    if i + 1 < len && chars[i + 1] == '{' {
                        val.append(template.substring_char(i, i + 1));
                        proof {
                            assert(val@ =~= v0.push('{'));
                        }
                        i = i + 2;
                    } else {
                        if !val.as_str().is_empty() {
                            out.push(Instruction::Lit(val));
                            proof {
                                assert(out.deep_view() =~= acc0.push(InstructionModel::Lit(v0)));
                            }
                        }
                        val = String::new();
                        var_mode = true;
                        proof {
                            assert(val@ =~= Seq::<char>::empty());
                        }
                        i = i + 1;
                    }
                } else if c == '}' {
                    if i + 1 < len && chars[i + 1] == '}' {
                        val.append(template.substring_char(i, i + 1));
                        proof {
                            assert(val@ =~= v0.push('}'));
                        }
                        i = i + 2;
                    } else {
                        return Err(CompileError::UnexpectedClose);
                    }
                } else {
                    val.append(template.substring_char(i, i + 1));
                    proof {
                        assert(val@ =~= v0.push(t[i as int]));
                    }
                    i = i + 1;
                }
            } else {
                if c == '{' {
                    if i + 1 < len && chars[i + 1] == '{' {
                        val.append(template.substring_char(i, i + 1));
                        proof {
                            assert(val@ =~= v0.push('{'));
                        }
                        i = i + 2;
                    } else {
                        return Err(CompileError::UnexpectedOpen);
                    }
                } else if c == '}' {
                    if i + 1 < len && chars[i + 1] == '}' && !(i + 2 < len && chars[i + 2] == '}') {
                        val.append(template.substring_char(i, i + 1));
                        proof {
                            assert(val@ =~= v0.push('}'));
                        }
                        i = i + 2;
                    } else {
                        if out.len() > 0 && !matches!(&out[out.len() - 1], Instruction::Lit(_)) {
                            proof {
                                assert(acc0.last() == out[out.len() - 1]@);
                            }
                            return Err(CompileError::AmbiguousAdjacentCaptures);
                        }
                        proof {
                            if out.len() > 0 {
                                assert(acc0.last() == out[out.len() - 1]@);
                            }
                        }
                        let ins = match parse_var(val.as_str()) {
                            Ok(ins) => ins,
                            Err(e) => {
                                return Err(e);
                            },
                        };
                        out.push(ins);
                        proof {
                            assert(out.deep_view() =~= acc0.push(ins@));
                        }
                        val = String::new();
                        var_mode = false;
                        proof {
                            assert(val@ =~= Seq::<char>::empty());
                        }
                        i = i + 1;
                    }
                } else {
                    val.append(template.substring_char(i, i + 1));
                    proof {
                        assert(val@ =~= v0.push(t[i as int]));
                    }
                    i = i + 1;
                }
            }
        }
        if var_mode {
            return Err(CompileError::UnclosedPlaceholder);
        }
        let ghost acc0 = out.deep_view();
        let ghost v0 = val@;
        if !val.as_str().is_empty() {
            out.push(Instruction::Lit(val));
            proof {
                assert(out.deep_view() =~= acc0.push(InstructionModel::Lit(v0)));
            }
        }
        proof {
            lemma_lex_no_adjacent(t, 0, false, Seq::empty(), Seq::empty());
            lemma_lex_no_adjacent_lits(t, 0, false, Seq::empty(), Seq::empty());
            assert(spec_lex(t, 0, false, Seq::empty(), Seq::empty()) == Ok::<_, CompileError>(
                out.deep_view(),
            ));
        }
        validate(out)
    }
}

} // verus!

