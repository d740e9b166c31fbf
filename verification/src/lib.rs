//! A small-string pattern-matching engine.
//!
//! A *template* string interleaves literal text with `{...}` capture
//! placeholders.  [`Instructions::new`] turns a template into a validated,
//! ordered instruction sequence; matching executes that sequence against an
//! input string, yielding the captured regions in output order, or a typed
//! error describing exactly where matching failed.
//!
//! Multi-value placeholders (`{:<sep>:<count>}`) split a captured region on a
//! separator into a fixed-size array, a growable list, or a lazy iterator;
//! an empty separator means one element per character.

#![verifier::loop_isolation(false)]

pub use crate::instructions::lemma_compile_deterministic;
pub use crate::instructions::no_adjacent_captures;
pub use crate::instructions::no_adjacent_lits;
pub use crate::instructions::spec_compile;
pub use crate::instructions::spec_instrs_valid;
pub use crate::instructions::spec_names;
pub use crate::instructions::spec_slots;
pub use crate::instructions::Instruction;
pub use crate::instructions::InstructionModel;
pub use crate::instructions::Instructions;
pub use crate::matcher::interleave;
pub use crate::matcher::lemma_round_trip;
pub use crate::matcher::raw_of;
pub use crate::matcher::spec_lookup;
pub use crate::matcher::spec_match_instrs;
pub use crate::matcher::CapturedModel;
pub use crate::parse_error::ParseErrorModel;
pub use crate::parse_iterators::lemma_split_count_bound;
pub use crate::parse_iterators::split_elems;
pub use crate::text::spec_trim;
pub use crate::var::VarModel;
pub use crate::lending_parse::parse_bool;
pub use crate::lending_parse::parse_char;
pub use crate::lending_parse::parse_i128;
pub use crate::lending_parse::parse_i16;
pub use crate::lending_parse::parse_i32;
pub use crate::lending_parse::parse_i64;
pub use crate::lending_parse::parse_i8;
pub use crate::lending_parse::parse_isize;
pub use crate::lending_parse::parse_str;
pub use crate::lending_parse::parse_string;
pub use crate::lending_parse::parse_u128;
pub use crate::lending_parse::parse_u16;
pub use crate::lending_parse::parse_u32;
pub use crate::lending_parse::parse_u64;
pub use crate::lending_parse::parse_u8;
pub use crate::lending_parse::parse_usize;
pub use crate::lending_parse::ExtParseStr;
pub use crate::lending_parse::Parse;
pub use crate::lending_parse::Sealed;
pub use crate::matcher::Captured;
pub use crate::matcher::Captures;
pub use crate::parse_error::CompileError;
pub use crate::parse_error::ParseError;
pub use crate::parse_iterators::ParseChars;
pub use crate::parse_iterators::ParseIter;
pub use crate::var::Var;

mod instructions;
mod lending_parse;
mod matcher;
mod parse_error;
mod parse_iterators;
mod text;
mod var;

use vstd::prelude::*;

verus! {

/// Compiles a template string into a validated instruction sequence.
///
/// The template compiler's single entry point: the produced
/// [`Instructions`] value is immutable and reusable across many match
/// operations, through [`Instructions::match_str`].
pub fn compile(template: &str) -> (r: Result<Instructions, CompileError>)
    ensures
        r matches Ok(ins) ==> crate::instructions::spec_compile(template@) == Ok::<
            _,
            CompileError,
        >(ins@) && crate::instructions::spec_instrs_valid(ins@)
            && crate::instructions::no_adjacent_lits(ins@),
        r matches Err(e) ==> crate::instructions::spec_compile(template@) == Err::<
            Seq<crate::instructions::InstructionModel>,
            _,
        >(e),
{
    Instructions::new(template)
}

} // verus!
