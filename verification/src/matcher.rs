//! The runtime matcher: walks a compiled instruction sequence over an input
//! string, locating each literal and binding the text in between to the
//! capture that precedes it.

use vstd::prelude::*;

use crate::instructions::spec_instrs_valid;
use crate::instructions::spec_names;
use crate::instructions::spec_slots;
use crate::instructions::var_of;
use crate::instructions::vars_of;
use crate::instructions::Instruction;
use crate::instructions::InstructionModel;
use crate::instructions::Instructions;
use crate::parse_error::ParseError;
use crate::parse_error::ParseErrorModel;
use crate::parse_iterators::split_all;
use crate::parse_iterators::split_elems;
use crate::text::spec_find;
use crate::text::str_to_chars;
use crate::var::VarModel;

verus! {

/// The mathematical value of a [`Captured`] region.
pub enum CapturedModel {
    Single(Seq<char>),
    Many { region: Seq<char>, elems: Seq<Seq<char>> },
    Lazy { region: Seq<char>, sep: Seq<char>, multi: bool },
}

/// One captured region, bound during a match.  Single captures and the
/// elements of multi-value captures borrow the input string; nothing is
/// copied out of it.
#[derive(Debug)]
pub enum Captured<'a> {
    /// The whole region of a single-value capture.
    Single(&'a str),
    /// An array or list capture: the raw region and its elements, split
    /// eagerly.
    Many { region: &'a str, elems: Vec<&'a str> },
    /// The raw region of a lazy capture, with the separator and
    /// skip-repeated flag needed to iterate over it.
    Lazy { region: &'a str, sep: String, multi: bool },
}

impl<'a> View for Captured<'a> {
    type V = CapturedModel;

    open spec fn view(&self) -> CapturedModel {
        match self {
            Captured::Single(s) => CapturedModel::Single(s@),
            Captured::Many { region, elems } => CapturedModel::Many {
                region: region@,
                elems: elems.deep_view(),
            },
            Captured::Lazy { region, sep, multi } => CapturedModel::Lazy {
                region: region@,
                sep: sep@,
                multi: *multi,
            },
        }
    }
}

impl<'a> DeepView for Captured<'a> {
    type V = CapturedModel;

    open spec fn deep_view(&self) -> CapturedModel {
        self.view()
    }
}

/// A count clipped to the range of the error report's count type.
pub open spec fn sat_u8(n: nat) -> u8 {
    if n > 255 {
        255u8
    } else {
        n as u8
    }
}

/// What a capture instruction yields on its region.  A single capture
/// yields the whole region; array and list captures yield the split
/// elements, and an array whose element count differs from its declared
/// arity fails; a lazy capture yields the region unsplit.
pub open spec fn spec_resolve(ins: InstructionModel, region: Seq<char>) -> Result<
    CapturedModel,
    ParseErrorModel,
> {
    match ins {
        InstructionModel::Lit(_) => Ok(CapturedModel::Single(region)),
        InstructionModel::Parse(_) => Ok(CapturedModel::Single(region)),
        InstructionModel::VecParse(_, sep, m) => Ok(
            CapturedModel::Many { region, elems: split_elems(region, sep, m) },
        ),
        InstructionModel::IterParse(_, sep, m) => Ok(
            CapturedModel::Lazy { region, sep, multi: m },
        ),
        InstructionModel::MultiParse(_, sep, n, m) => {
            let es = split_elems(region, sep, m);
            if es.len() == n {
                Ok(CapturedModel::Many { region, elems: es })
            } else {
                Err(ParseErrorModel::Multi { expected: n, found: sat_u8(es.len()) })
            }
        },
    }
}

/// How the matcher walks the instructions over the input, from cursor `c`
/// with at most one capture pending.  A literal with a capture pending is
/// sought at its first occurrence from the cursor, and the text skipped
/// over binds to that capture; a literal with no capture pending must
/// appear exactly at the cursor.  Either way, a literal that is not where
/// it must be fails with the remaining input.  A capture is resolved only
/// by the next literal, or by the end of the input, whose remainder it
/// takes; with no capture left pending the template must have consumed the
/// input exactly.
pub open spec fn spec_walk(
    instrs: Seq<InstructionModel>,
    input: Seq<char>,
    c: int,
    pending: Option<InstructionModel>,
) -> Result<Seq<CapturedModel>, ParseErrorModel>
    decreases instrs.len(),
{
    if instrs.len() == 0 {
        match pending {
            Some(p) => match spec_resolve(p, input.skip(c)) {
                Ok(v) => Ok(seq![v]),
                Err(e) => Err(e),
            },
            None => if c == input.len() {
                Ok(Seq::empty())
            } else {
                Err(ParseErrorModel::Literal { expected: Seq::empty(), found: input.skip(c) })
            },
        }
    } else {
        match instrs[0] {
            InstructionModel::Lit(l) => match pending {
                None => if crate::text::occurs_at(input, l, c) {
                    spec_walk(instrs.skip(1), input, c + l.len(), None)
                } else {
                    Err(ParseErrorModel::Literal { expected: l, found: input.skip(c) })
                },
                Some(p) => match spec_find(input, l, c) {
                    None => Err(ParseErrorModel::Literal { expected: l, found: input.skip(c) }),
                    Some(j) => match spec_resolve(p, input.subrange(c, j)) {
                        Err(e) => Err(e),
                        Ok(v) => match spec_walk(instrs.skip(1), input, j + l.len(), None) {
                            Ok(rest) => Ok(seq![v] + rest),
                            Err(e) => Err(e),
                        },
                    },
                },
            },
            cap => spec_walk(instrs.skip(1), input, c, Some(cap)),
        }
    }
}

/// What matching a whole template against an input yields: the captured
/// regions, one per capture instruction in text order, or the first error.
pub open spec fn spec_match_instrs(instrs: Seq<InstructionModel>, input: Seq<char>) -> Result<
    Seq<CapturedModel>,
    ParseErrorModel,
> {
    spec_walk(instrs, input, 0, None)
}

/// Captures already taken, followed by the rest of a walk.
pub open spec fn walk_compose(
    prefix: Seq<CapturedModel>,
    r: Result<Seq<CapturedModel>, ParseErrorModel>,
) -> Result<Seq<CapturedModel>, ParseErrorModel> {
    match r {
        Ok(s) => Ok(prefix + s),
        Err(e) => Err(e),
    }
}

/// A successful walk yields one captured region per capture instruction,
/// plus one for the capture already pending.
pub proof fn lemma_walk_len(
    instrs: Seq<InstructionModel>,
    input: Seq<char>,
    c: int,
    pending: Option<InstructionModel>,
)
    requires
        crate::instructions::no_adjacent_captures(instrs),
        pending is Some ==> instrs.len() == 0 || crate::instructions::is_lit(instrs[0]),
    ensures
        spec_walk(instrs, input, c, pending) matches Ok(s) ==> s.len() == vars_of(instrs).len() + (
        match pending {
            Some(_) => 1int,
            None => 0int,
        }),
    decreases instrs.len(),
{
    lemma_vars_of_skip(instrs);
    if instrs.len() == 0 {
        assert(vars_of(instrs).len() == 0);
    } else {
        assert forall|j: int|
            0 <= j < instrs.skip(1).len() - 1 implies !((#[trigger] var_of(
            instrs.skip(1)[j],
        )) is Some && var_of(instrs.skip(1)[j + 1]) is Some) by {
            assert(instrs.skip(1)[j] == instrs[j + 1] && instrs.skip(1)[j + 1] == instrs[j + 2]);
            assert(!(var_of(instrs[j + 1]) is Some && var_of(instrs[j + 2]) is Some));
        }
        match instrs[0] {
            InstructionModel::Lit(l) => {
                assert(vars_of(instrs) == vars_of(instrs.skip(1)));
                match pending {
                    None => {
                        if crate::text::occurs_at(input, l, c) {
                            lemma_walk_len(instrs.skip(1), input, c + l.len(), None);
                        }
                    },
                    Some(_) => {
                        match spec_find(input, l, c) {
                            None => {},
                            Some(j) => {
                                lemma_walk_len(instrs.skip(1), input, j + l.len(), None);
                            },
                        }
                    },
                }
            },
            cap => {
                assert(vars_of(instrs).len() == 1 + vars_of(instrs.skip(1)).len());
                if instrs.len() > 1 {
                    assert(!(var_of(instrs[0]) is Some && var_of(instrs[1]) is Some));
                    assert(instrs.skip(1)[0] == instrs[1]);
                    assert(crate::instructions::is_lit(instrs[1]));
                }
                lemma_walk_len(instrs.skip(1), input, c, Some(cap));
                assert(spec_walk(instrs, input, c, pending) == spec_walk(
                    instrs.skip(1),
                    input,
                    c,
                    Some(cap),
                ));
            },
        }
    }
}

/// The capture variables of a sequence, split at its first instruction.
proof fn lemma_vars_of_skip(instrs: Seq<InstructionModel>)
    ensures
        instrs.len() > 0 ==> vars_of(instrs) == (match var_of(instrs[0]) {
            Some(v) => seq![v] + vars_of(instrs.skip(1)),
            None => vars_of(instrs.skip(1)),
        }),
    decreases instrs.len(),
{
    if instrs.len() == 1 {
        assert(instrs.drop_last() =~= Seq::<InstructionModel>::empty());
        assert(instrs.skip(1) =~= Seq::<InstructionModel>::empty());
        match var_of(instrs[0]) {
            Some(v) => {
                assert(vars_of(instrs) =~= seq![v] + vars_of(instrs.skip(1)));
            },
            None => {},
        }
    } else if instrs.len() > 1 {
        lemma_vars_of_skip(instrs.drop_last());
        assert(instrs.drop_last()[0] == instrs[0]);
        assert(instrs.drop_last().skip(1) =~= instrs.skip(1).drop_last());
        assert(instrs.skip(1).last() == instrs.last());
        match var_of(instrs.last()) {
            Some(v) => {
                match var_of(instrs[0]) {
                    Some(v0) => {
                        assert(vars_of(instrs) =~= seq![v0] + vars_of(instrs.skip(1)));
                    },
                    None => {},
                }
            },
            None => {
                match var_of(instrs[0]) {
                    Some(v0) => {
                        assert(vars_of(instrs) =~= seq![v0] + vars_of(instrs.skip(1)));
                    },
                    None => {},
                }
            },
        }
    }
}

/// A slot vector as mathematical indices.
pub open spec fn slots_model(s: Seq<usize>) -> Seq<int> {
    s.map_values(|u: usize| u as int)
}

/// A name-binding vector as mathematical pairs.
pub open spec fn names_model(s: Seq<(String, usize)>) -> Seq<(Seq<char>, int)> {
    s.map_values(|p: (String, usize)| (p.0@, p.1 as int))
}

/// The capture index bound to a name: the first binding that matches.
pub open spec fn spec_lookup(names: Seq<(Seq<char>, int)>, name: Seq<char>) -> Option<int>
    decreases names.len(),
{
    if names.len() == 0 {
        None
    } else if names[0].0 == name {
        Some(names[0].1)
    } else {
        spec_lookup(names.skip(1), name)
    }
}

/// The captures of one match: the captured regions in text order, the
/// mapping from output slots to the captures that feed them, and the name
/// bindings.  All of it borrows the input string it was matched against.
#[derive(Debug)]
pub struct Captures<'a> {
    caps: Vec<Captured<'a>>,
    slots: Vec<usize>,
    names: Vec<(String, usize)>,
}

impl<'a> Captures<'a> {
    /// Every slot and every name binding points at a capture.
    #[verifier::type_invariant]
    closed spec fn wf(&self) -> bool {
        (forall|i: int|
            0 <= i < self.slots@.len() ==> (#[trigger] self.slots@[i]) < self.caps@.len())
            && (forall|i: int|
            0 <= i < self.names@.len() ==> (#[trigger] self.names@[i]).1 < self.caps@.len())
    }

    /// The captured regions, one per capture instruction, in text order.
    pub closed spec fn caps(&self) -> Seq<CapturedModel> {
        self.caps.deep_view()
    }

    /// The capture index feeding each output slot.
    pub closed spec fn slots(&self) -> Seq<int> {
        slots_model(self.slots@)
    }

    /// The named captures: each name with its capture index.
    pub closed spec fn names(&self) -> Seq<(Seq<char>, int)> {
        names_model(self.names@)
    }

    /// How many output slots the match filled.
    pub fn len(&self) -> (r: usize)
        ensures
            r == self.slots().len(),
    {
        self.slots.len()
    }

    /// How many captures the match took, named ones included.
    pub fn captures_len(&self) -> (r: usize)
        ensures
            r == self.caps().len(),
    {
        self.caps.len()
    }

    /// The capture at the given index in text order, named ones included.
    pub fn get_capture(&self, idx: usize) -> (r: &Captured<'a>)
        requires
            idx < self.caps().len(),
        ensures
            r@ == self.caps()[idx as int],
    {
        &self.caps[idx]
    }

    /// The capture feeding the given output slot.
    pub fn get(&self, slot: usize) -> (r: &Captured<'a>)
        requires
            slot < self.slots().len(),
        ensures
            r@ == self.caps()[self.slots()[slot as int]],
    {
        proof {
            use_type_invariant(self);
        }
        let idx = self.slots[slot];
        &self.caps[idx]
    }

    /// The capture bound to the given name: the first binding of that name,
    /// or `None` when the template has no such capture.
    pub fn get_named(&self, name: &str) -> (r: Option<&Captured<'a>>)
        ensures
            match r {
                Some(c) => spec_lookup(self.names(), name@) matches Some(i) && c@
                    == self.caps()[i],
                None => spec_lookup(self.names(), name@) is None,
            },
    {
        proof {
            use_type_invariant(self);
            assert(self.names().skip(0) =~= self.names());
        }
        let n = self.names.len();
        let mut i: usize = 0;
        while i < n
            invariant
                0 <= i <= n,
                n == self.names@.len(),
                spec_lookup(self.names(), name@) == spec_lookup(
                    self.names().skip(i as int),
                    name@,
                ),
            decreases n - i,
        {
            proof {
                assert(self.names().skip(i as int)[0] == self.names()[i as int]);
                assert(self.names().skip(i as int).skip(1) =~= self.names().skip(i + 1));
            }
            if crate::text::str_eq(self.names[i].0.as_str(), name) {
                let idx = self.names[i].1;
                return Some(&self.caps[idx]);
            }
            i = i + 1;
        }
        None
    }
}

/// The capture variables of a compiled template, in text order.
fn build_vars(instrs: &Vec<Instruction>) -> (r: Vec<crate::var::Var>)
    ensures
        r.deep_view() == vars_of(instrs.deep_view()),
{
    let ghost dv = instrs.deep_view();
    let n = instrs.len();
    let mut vars: Vec<crate::var::Var> = Vec::new();
    proof {
        assert(vars.deep_view() =~= vars_of(dv.take(0)));
    }
    let mut i: usize = 0;
    while i < n
        invariant
            0 <= i <= n,
            n == instrs.len(),
            dv == instrs.deep_view(),
            vars.deep_view() == vars_of(dv.take(i as int)),
        decreases n - i,
    {
        proof {
            assert(dv.take(i + 1).drop_last() =~= dv.take(i as int));
            assert(dv.take(i + 1).last() == dv[i as int]);
            assert(dv[i as int] == instrs[i as int]@);
        }
        let ghost vars0 = vars.deep_view();
        match instrs[i].get_var() {
            Some(v) => {
                vars.push(v.duplicate());
                proof {
                    assert(vars.deep_view() =~= vars0.push(v@));
                    assert(vars.deep_view() =~= vars_of(dv.take(i + 1)));
                }
            },
            None => {
                proof {
                    assert(vars.deep_view() =~= vars_of(dv.take(i + 1)));
                }
            },
        }
        i = i + 1;
    }
    proof {
        assert(dv.take(n as int) =~= dv);
    }
    vars
}

/// The slot map and name bindings of a validated template.
fn build_maps(instrs: &Vec<Instruction>) -> (r: (Vec<usize>, Vec<(String, usize)>))
    requires
        spec_instrs_valid(instrs.deep_view()),
    ensures
        slots_model(r.0@) == spec_slots(instrs.deep_view()),
        names_model(r.1@) == spec_names(instrs.deep_view()),
        forall|i: int| 0 <= i < r.0@.len() ==> (#[trigger] r.0@[i]) < vars_of(
            instrs.deep_view(),
        ).len(),
        forall|i: int| 0 <= i < r.1@.len() ==> (#[trigger] r.1@[i]).1 < vars_of(
            instrs.deep_view(),
        ).len(),
{
    let ghost dv = instrs.deep_view();
    let vars = build_vars(instrs);
    let ghost vs = vars_of(dv);
    let nv = vars.len();
    proof {
        assert(vars.deep_view().len() == vs.len());
    }
    // the name bindings, in text order
    let mut names: Vec<(String, usize)> = Vec::new();
    proof {
        assert(names_model(names@) =~= crate::instructions::named_of(vs.take(0)));
    }
    let mut j: usize = 0;
    while j < nv
        invariant
            0 <= j <= nv,
            nv == vars@.len(),
            vars.deep_view() == vs,
            names_model(names@) == crate::instructions::named_of(vs.take(j as int)),
            forall|i: int| 0 <= i < names@.len() ==> (#[trigger] names@[i]).1 < nv,
        decreases nv - j,
    {
        proof {
            assert(vs.take(j + 1).drop_last() =~= vs.take(j as int));
            assert(vs.take(j + 1).last() == vs[j as int]);
            assert(vs[j as int] == vars@[j as int]@);
        }
        let ghost names0 = names_model(names@);
        match &vars[j] {
            crate::var::Var::Ident(s) => {
                let name_copy = String::from_str(s.as_str());
                let ghost name_view = s@;
                names.push((name_copy, j));
                proof {
                    assert(names_model(names@) =~= names0.push((name_view, j as int)));
                }
            },
            _ => {},
        }
        proof {
            assert(names_model(names@) =~= crate::instructions::named_of(vs.take(j + 1)));
        }
        j = j + 1;
    }
    proof {
        assert(vs.take(nv as int) =~= vs);
    }
    // how many explicit positions there are
    let mut npos: usize = 0;
    let mut j: usize = 0;
    while j < nv
        invariant
            0 <= j <= nv,
            nv == vars@.len(),
            vars.deep_view() == vs,
            npos <= j,
            npos == crate::instructions::poss(vs.take(j as int)).len(),
        decreases nv - j,
    {
        proof {
            assert(vs.take(j + 1).drop_last() =~= vs.take(j as int));
            assert(vs.take(j + 1).last() == vs[j as int]);
            assert(vs[j as int] == vars@[j as int]@);
        }
        match &vars[j] {
            crate::var::Var::Position(_) => {
                npos = npos + 1;
            },
            _ => {},
        }
        j = j + 1;
    }
    proof {
        assert(vs.take(nv as int) =~= vs);
        crate::instructions::lemma_positions_of_vars(dv);
        crate::instructions::lemma_has_position_len(dv);
    }
    let mut slots: Vec<usize> = Vec::new();
    if npos == 0 {
        // no explicit positions: the implied captures feed the slots in
        // text order
        proof {
            assert(slots_model(slots@) =~= crate::instructions::implied_idxs(vs.take(0)));
        }
        let mut j: usize = 0;
        while j < nv
            invariant
                0 <= j <= nv,
                nv == vars@.len(),
                vars.deep_view() == vs,
                slots_model(slots@) == crate::instructions::implied_idxs(vs.take(j as int)),
                forall|i: int| 0 <= i < slots@.len() ==> (#[trigger] slots@[i]) < nv,
            decreases nv - j,
        {
            proof {
                assert(vs.take(j + 1).drop_last() =~= vs.take(j as int));
                assert(vs.take(j + 1).last() == vs[j as int]);
                assert(vs[j as int] == vars@[j as int]@);
            }
            let ghost slots0 = slots_model(slots@);
            match &vars[j] {
                crate::var::Var::Implied => {
                    slots.push(j);
                    proof {
                        assert(slots_model(slots@) =~= slots0.push(j as int));
                    }
                },
                _ => {},
            }
            proof {
                assert(slots_model(slots@) =~= crate::instructions::implied_idxs(vs.take(j + 1)));
            }
            j = j + 1;
        }
        proof {
            assert(vs.take(nv as int) =~= vs);
        }
    } else {
        // slot k is fed by the capture marked {k}
        let mut k: usize = 0;
        while k < npos
            invariant
                0 <= k <= npos,
                nv == vars@.len(),
                vars.deep_view() == vs,
                npos == crate::instructions::poss(vs).len(),
                crate::instructions::positions_valid(dv),
                crate::instructions::positions_of(dv) == crate::instructions::poss(vs),
                slots@.len() == k,
                forall|kk: int| 0 <= kk < k ==> (#[trigger] slots@[kk]) as int
                    == crate::instructions::idx_of_position(vs, kk),
                forall|i: int| 0 <= i < slots@.len() ==> (#[trigger] slots@[i]) < nv,
            decreases npos - k,
        {
            let mut found = false;
            let mut j: usize = 0;
            while !found && j < nv
                invariant
                    0 <= j <= nv,
                    nv == vars@.len(),
                    vars.deep_view() == vs,
                    !found ==> forall|jj: int|
                        0 <= jj < j ==> !((#[trigger] vs[jj]) matches VarModel::Position(p)
                            && p as int == k as int),
                    found ==> j < nv && crate::instructions::idx_of_position(vs, k as int)
                        == j as int,
                decreases nv - j + (if found {
                    0int
                } else {
                    1int
                }),
            {
                proof {
                    assert(vs[j as int] == vars@[j as int]@);
                }
                let is_hit = match &vars[j] {
                    crate::var::Var::Position(p) => *p as usize == k,
                    _ => false,
                };
                if is_hit {
                    found = true;
                    proof {
                        crate::instructions::lemma_idx_of_position_exact(vs, k as int, j as int);
                    }
                } else {
                    j = j + 1;
                }
            }
            if !found {
                proof {
                    crate::instructions::lemma_poss_absent(vs, k as int);
                    assert(crate::instructions::count_eq(crate::instructions::poss(vs), k as int)
                        == 1);
                    assert(false);
                }
            } else {
                slots.push(j);
            }
            k = k + 1;
        }
        proof {
            assert(slots_model(slots@) =~= Seq::new(
                crate::instructions::positions_of(dv).len(),
                |k: int| crate::instructions::idx_of_position(vs, k),
            ));
        }
    }
    (slots, names)
}

/// The raw text a capture was bound to.
pub open spec fn raw_of(c: CapturedModel) -> Seq<char> {
    match c {
        CapturedModel::Single(r) => r,
        CapturedModel::Many { region, .. } => region,
        CapturedModel::Lazy { region, .. } => region,
    }
}

/// The literal skeleton interleaved with the captured regions, in text
/// order: what re-serializing the captures reproduces.
pub open spec fn interleave(instrs: Seq<InstructionModel>, caps: Seq<CapturedModel>) -> Seq<char>
    decreases instrs.len(),
{
    if instrs.len() == 0 {
        Seq::empty()
    } else {
        match instrs[0] {
            InstructionModel::Lit(l) => l + interleave(instrs.skip(1), caps),
            _ => (if caps.len() > 0 {
                raw_of(caps[0])
            } else {
                Seq::<char>::empty()
            }) + interleave(instrs.skip(1), caps.skip(1)),
        }
    }
}

/// A resolved capture keeps its raw region.
proof fn lemma_resolve_raw(p: InstructionModel, region: Seq<char>)
    ensures
        spec_resolve(p, region) matches Ok(v) ==> raw_of(v) == region,
{
}

/// Dropping the first instruction keeps captures apart.
proof fn lemma_adjacent_skip(instrs: Seq<InstructionModel>)
    requires
        instrs.len() > 0,
        crate::instructions::no_adjacent_captures(instrs),
    ensures
        crate::instructions::no_adjacent_captures(instrs.skip(1)),
{
    assert forall|j: int|
        0 <= j < instrs.skip(1).len() - 1 implies !((#[trigger] var_of(
        instrs.skip(1)[j],
    )) is Some && var_of(instrs.skip(1)[j + 1]) is Some) by {
        assert(instrs.skip(1)[j] == instrs[j + 1] && instrs.skip(1)[j + 1] == instrs[j + 2]);
        assert(!(var_of(instrs[j + 1]) is Some && var_of(instrs[j + 2]) is Some));
    }
}

/// The walk reproduces the input from the cursor on: an anchored literal
/// consumes its own text, and each capture's raw region is exactly the text
/// the walk bound to it.
proof fn lemma_walk_reconstruct(
    instrs: Seq<InstructionModel>,
    input: Seq<char>,
    c: int,
    pending: Option<InstructionModel>,
    caps: Seq<CapturedModel>,
)
    requires
        0 <= c <= input.len(),
        crate::instructions::no_adjacent_captures(instrs),
        spec_walk(instrs, input, c, pending) == Ok::<_, ParseErrorModel>(caps),
        pending is Some ==> instrs.len() == 0 || crate::instructions::is_lit(instrs[0]),
    ensures
        match pending {
            None => interleave(instrs, caps) == input.skip(c),
            Some(_) => caps.len() > 0 && raw_of(caps[0]) + interleave(instrs, caps.skip(1))
                == input.skip(c),
        },
    decreases instrs.len(),
{
    if instrs.len() == 0 {
        match pending {
            Some(p) => {
                lemma_resolve_raw(p, input.skip(c));
                assert(caps.skip(1) =~= Seq::<CapturedModel>::empty());
                assert(raw_of(caps[0]) + interleave(instrs, caps.skip(1)) =~= input.skip(c));
            },
            None => {
                assert(interleave(instrs, caps) =~= input.skip(c));
            },
        }
    } else {
        lemma_adjacent_skip(instrs);
        match instrs[0] {
            InstructionModel::Lit(l) => {
                match pending {
                    None => {
                        // the literal is anchored: it sits exactly at the
                        // cursor, so nothing is skipped over
                        assert(crate::text::occurs_at(input, l, c));
                        let c2 = c + l.len();
                        assert(l =~= input.subrange(c, c2));
                        lemma_walk_reconstruct(instrs.skip(1), input, c2, None, caps);
                        assert(interleave(instrs, caps) == l + interleave(instrs.skip(1), caps));
                        assert(l + input.skip(c2) =~= input.skip(c));
                    },
                    Some(p) => {
                        let j = spec_find(input, l, c)->Some_0;
                        crate::text::lemma_spec_find_props(input, l, c);
                        let c2 = j + l.len();
                        assert(l =~= input.subrange(j, j + l.len()));
                        lemma_resolve_raw(p, input.subrange(c, j));
                        let v = spec_resolve(p, input.subrange(c, j))->Ok_0;
                        let rest = spec_walk(instrs.skip(1), input, c2, None)->Ok_0;
                        assert(caps == seq![v] + rest);
                        lemma_walk_reconstruct(instrs.skip(1), input, c2, None, rest);
                        assert(caps.skip(1) =~= rest);
                        assert(caps[0] == v);
                        assert(interleave(instrs, caps.skip(1)) == l + interleave(
                            instrs.skip(1),
                            rest,
                        ));
                        assert(input.subrange(c, j) + (input.subrange(j, c2) + input.skip(c2))
                            =~= input.skip(c));
                        assert(raw_of(caps[0]) + interleave(instrs, caps.skip(1)) == input.subrange(
                            c,
                            j,
                        ) + (input.subrange(j, c2) + input.skip(c2)));
                    },
                }
            },
            cap => {
                assert(pending is None);
                assert(var_of(instrs[0]) is Some);
                if instrs.len() > 1 {
                    assert(!(var_of(instrs[0]) is Some && var_of(instrs[1]) is Some));
                    assert(instrs.skip(1)[0] == instrs[1]);
                    assert(crate::instructions::is_lit(instrs[1]));
                }
                lemma_walk_reconstruct(instrs.skip(1), input, c, Some(cap), caps);
            },
        }
    }
}

/// Law: a successful match reproduces its input.  For any template whose
/// instructions keep captures apart, as the compiler guarantees, the
/// literal skeleton interleaved with the raw captured regions is exactly
/// the input that was matched: nothing of the input is lost and nothing is
/// invented.
pub proof fn lemma_round_trip(
    instrs: Seq<InstructionModel>,
    input: Seq<char>,
    caps: Seq<CapturedModel>,
)
    requires
        crate::instructions::no_adjacent_captures(instrs),
        spec_match_instrs(instrs, input) == Ok::<_, ParseErrorModel>(caps),
    ensures
        interleave(instrs, caps) == input,
{
    lemma_walk_reconstruct(instrs, input, 0, None, caps);
    assert(input.skip(0) =~= input);
}

/// The pending capture as the walk sees it.
pub open spec fn pend_model(p: Option<&Instruction>) -> Option<InstructionModel> {
    match p {
        Some(i) => Some(i@),
        None => None,
    }
}

impl Instructions {
    /// Matches an input string against this compiled template.  Leading
    /// and trailing literal text is matched exactly; a literal after a
    /// capture is sought at its first occurrence, and the text in between
    /// binds to that capture.  On success the captures hold one region per
    /// capture instruction, bound to output slots and names as the template
    /// prescribes; on failure the error names the first literal that was
    /// not where the template demands it, or the first fixed-arity capture
    /// whose region split into the wrong number of elements.
    pub fn match_str<'a>(&self, input: &'a str) -> (r: Result<Captures<'a>, ParseError>)
        requires
            spec_instrs_valid(self@),
        ensures
            match r {
                Ok(cp) => spec_match_instrs(self@, input@) == Ok::<_, ParseErrorModel>(cp.caps())
                    && cp.slots() == spec_slots(self@) && cp.names() == spec_names(self@),
                Err(e) => spec_match_instrs(self@, input@) == Err::<Seq<CapturedModel>, _>(e@),
            },
    {
        let ghost dv = self@;
        let ichars = str_to_chars(input);
        let ilen = ichars.len();
        let n = self.0.len();
        let mut caps: Vec<Captured<'a>> = Vec::new();
        let mut cursor: usize = 0;
        let mut pending: Option<&Instruction> = None;
        let mut k: usize = 0;
        proof {
            assert(dv.len() == n);
            assert(dv.skip(0) =~= dv);
            assert(caps.deep_view() =~= Seq::<CapturedModel>::empty());
            match spec_walk(dv, input@, 0, None) {
                Ok(s) => {
                    assert(Seq::<CapturedModel>::empty() + s =~= s);
                },
                Err(_) => {},
            }
        }
        while k < n
            invariant
                0 <= k <= n,
                n == self.0.len(),
                dv == self@,
                ichars@ == input@,
                ilen == input@.len(),
                cursor <= ilen,
                pending matches Some(p) ==> 1 <= k && p@ == dv[k - 1] && var_of(p@) is Some,
                walk_compose(
                    caps.deep_view(),
                    spec_walk(dv.skip(k as int), input@, cursor as int, pend_model(pending)),
                ) == spec_walk(dv, input@, 0, None),
            decreases n - k,
        {
            let ghost caps0 = caps.deep_view();
            let ghost pm0 = pend_model(pending);
            proof {
                assert(dv.skip(k as int)[0] == dv[k as int]);
                assert(dv.skip(k as int).skip(1) =~= dv.skip(k + 1));
                assert(dv[k as int] == self.0[k as int]@);
            }
            let instr = &self.0[k];
            match instr {
                Instruction::Lit(l) => {
                    let lchars = str_to_chars(l.as_str());
                    match pending {
                        None => {
                            // with no capture pending the literal must sit
                            // exactly at the cursor
                            let found_at = crate::text::find_from(&ichars, &lchars, cursor);
                            proof {
                                crate::text::lemma_spec_find_props(input@, l@, cursor as int);
                            }
                            let anchored = match found_at {
                                Some(j) => j == cursor,
                                None => false,
                            };
                            if !anchored {
                                let expected = String::from_str(l.as_str());
                                let found = String::from_str(input.substring_char(cursor, ilen));
                                proof {
                                    assert(!crate::text::occurs_at(input@, l@, cursor as int));
                                    assert(input@.subrange(cursor as int, ilen as int)
                                        =~= input@.skip(cursor as int));
                                }
                                return Err(ParseError::Literal { expected, found });
                            }
                            proof {
                                assert(crate::text::occurs_at(input@, l@, cursor as int));
                            }
                            cursor = cursor + lchars.len();
                        },
                        Some(p) => {
                            match crate::text::find_from(&ichars, &lchars, cursor) {
                                None => {
                                    // the literal does not occur in the rest
                                    // of the input
                                    let expected = String::from_str(l.as_str());
                                    let found = String::from_str(
                                        input.substring_char(cursor, ilen),
                                    );
                                    proof {
                                        assert(input@.subrange(cursor as int, ilen as int)
                                            =~= input@.skip(cursor as int));
                                    }
                                    return Err(ParseError::Literal { expected, found });
                                },
                                Some(j) => {
                                    proof {
                                        crate::text::lemma_spec_find_props(
                                            input@,
                                            l@,
                                            cursor as int,
                                        );
                                    }
                                    let j_end = j + lchars.len();
                                    let region = input.substring_char(cursor, j);
                                    match resolve_capture(p, region) {
                                        Ok(c) => {
                                            caps.push(c);
                                            proof {
                                                assert(caps.deep_view() =~= caps0.push(c@));
                                                match spec_walk(
                                                    dv.skip(k + 1),
                                                    input@,
                                                    j_end as int,
                                                    None,
                                                ) {
                                                    Ok(rest) => {
                                                        assert(caps0 + (seq![c@] + rest)
                                                            =~= caps0.push(c@) + rest);
                                                    },
                                                    Err(_) => {},
                                                }
                                            }
                                        },
                                        Err(e) => {
                                            return Err(e);
                                        },
                                    }
                                    cursor = j_end;
                                    pending = None;
                                },
                            }
                        },
                    }
                },
                _ => {
                    // a capture: it resolves at the next literal or at the
                    // end of the input
                    proof {
                        if pm0 is Some {
                            // the compiler rejects two adjacent captures
                            assert(var_of(dv[k - 1]) is Some && var_of(dv[k as int]) is Some);
                            assert(false);
                        }
                        assert(var_of(instr@) is Some);
                    }
                    pending = Some(instr);
                },
            }
            k = k + 1;
        }
        proof {
            assert(dv.skip(n as int) =~= Seq::<InstructionModel>::empty());
        }
        let ghost caps0 = caps.deep_view();
        match pending {
            Some(p) => {
                let region = input.substring_char(cursor, ilen);
                proof {
                    assert(region@ =~= input@.skip(cursor as int));
                }
                match resolve_capture(p, region) {
                    Ok(c) => {
                        caps.push(c);
                        proof {
                            assert(caps.deep_view() =~= caps0.push(c@));
                            assert(caps0 + seq![c@] =~= caps0.push(c@));
                        }
                    },
                    Err(e) => {
                        return Err(e);
                    },
                }
            },
            None => {
                if cursor < ilen {
                    let found = String::from_str(input.substring_char(cursor, ilen));
                    proof {
                        assert(input@.subrange(cursor as int, ilen as int) =~= input@.skip(
                            cursor as int,
                        ));
                    }
                    return Err(ParseError::Literal { expected: String::new(), found });
                }
                proof {
                    assert(caps0 + Seq::<CapturedModel>::empty() =~= caps0);
                }
            },
        }
        proof {
            lemma_walk_len(dv, input@, 0, None);
            assert(caps.deep_view().len() == vars_of(dv).len());
        }
        let (slots, names) = build_maps(&self.0);
        Ok(Captures { caps, slots, names })
    }
}

/// Resolves one capture instruction against the region bound to it.
fn resolve_capture<'a>(ins: &Instruction, region: &'a str) -> (r: Result<Captured<'a>, ParseError>)
    ensures
        match r {
            Ok(c) => spec_resolve(ins@, region@) == Ok::<CapturedModel, ParseErrorModel>(c@),
            Err(e) => spec_resolve(ins@, region@) == Err::<CapturedModel, ParseErrorModel>(e@),
        },
{
    match ins {
        Instruction::Lit(_) => Ok(Captured::Single(region)),
        Instruction::Parse(_) => Ok(Captured::Single(region)),
        Instruction::VecParse(_, sep, m) => Ok(
            Captured::Many { region, elems: split_all(region, sep.as_str(), *m) },
        ),
        Instruction::IterParse(_, sep, m) => Ok(
            Captured::Lazy { region, sep: String::from_str(sep.as_str()), multi: *m },
        ),
        Instruction::MultiParse(_, sep, cnt, m) => {
            let es = split_all(region, sep.as_str(), *m);
            if es.len() == *cnt as usize {
                Ok(Captured::Many { region, elems: es })
            } else {
                let found: u8 = if es.len() > 255 {
                    255
                } else {
                    es.len() as u8
                };
                Err(ParseError::Multi { expected: *cnt, found })
            }
        },
    }
}

} // verus!
