//! Evaluator adapter: the one place where the library hands a script to the
//! embedded interpreter. The interpreter's answer is opaque — two calls on
//! the same bytes may differ, since the interpreter keeps state between
//! calls — so nothing is assumed about which outcome comes back; the
//! verified machine states what holds for every outcome. The raw failure
//! message is classified by verified code.

use vstd::prelude::*;
use crate::bytes::{contains_sub, has_match};
use crate::splice::{Outcome, OutcomeModel};

verus! {

#[verifier::external_type_specification]
#[verifier::external_body]
pub struct ExLua(mlua::Lua);

/// What the interpreter answered for one submitted script, before the
/// failure message has been classified.
pub enum RawOutcome {
    /// The script ran and produced no value.
    NoValue,
    /// The script ran and produced this string value.
    Value(Vec<u8>),
    /// The script failed; the interpreter's message is carried.
    Failure(Vec<u8>),
}

/// The mathematical form of a raw evaluator answer.
pub enum RawOutcomeModel {
    NoValue,
    Value(Seq<u8>),
    Failure(Seq<u8>),
}

impl View for RawOutcome {
    type V = RawOutcomeModel;

    open spec fn view(&self) -> RawOutcomeModel {
        match self {
            RawOutcome::NoValue => RawOutcomeModel::NoValue,
            RawOutcome::Value(v) => RawOutcomeModel::Value(v@),
            RawOutcome::Failure(m) => RawOutcomeModel::Failure(m@),
        }
    }
}

/// The substring of a failure message that marks an incomplete statement:
/// the interpreter's syntax errors for truncated input say that a closing
/// token was expected.
pub open spec fn incomplete_marker() -> Seq<u8> {
    seq![101u8, 120u8, 112u8, 101u8, 99u8, 116u8, 101u8, 100u8]
}

/// How a raw evaluator answer is read by the splice machine: a failure
/// whose message carries the incomplete-statement marker is the signal to
/// start or continue a pending multi-block statement; any other failure is
/// fatal.
pub open spec fn classify_model(raw: RawOutcomeModel) -> OutcomeModel {
    match raw {
        RawOutcomeModel::NoValue => OutcomeModel::NoValue,
        RawOutcomeModel::Value(v) => OutcomeModel::Value(v),
        RawOutcomeModel::Failure(m) => if has_match(m, incomplete_marker()) {
            OutcomeModel::Incomplete
        } else {
            OutcomeModel::Fatal(m)
        },
    }
}

/// The incomplete-statement marker as bytes.
fn marker_bytes() -> (r: Vec<u8>)
    ensures
        r@ == incomplete_marker(),
{
    let mut r: Vec<u8> = Vec::new();
    r.push(101);
    r.push(120);
    r.push(112);
    r.push(101);
    r.push(99);
    r.push(116);
    r.push(101);
    r.push(100);
    proof {
        assert(r@ =~= incomplete_marker());
    }
    r
}

/// Classifies a raw evaluator answer for the splice machine.
pub fn classify(raw: RawOutcome) -> (r: Outcome)
    ensures
        r@ == classify_model(raw@),
{
    match raw {
        RawOutcome::NoValue => Outcome::NoValue,
        RawOutcome::Value(v) => Outcome::Value(v),
        RawOutcome::Failure(m) => {
            let pat = marker_bytes();
            if contains_sub(&m, &pat) {
                Outcome::Incomplete
            } else {
                Outcome::Fatal(m)
            }
        },
    }
}

/// Relies on mlua's `Lua::load`, `Chunk::set_mode` and `Chunk::eval`:
/// loads the submitted bytes as a chunk of script source and evaluates it,
/// yielding its optional string result, or the failure that stopped it
/// rendered as its message. The chunk is forced to text mode: the
/// interpreter does not check the consistency of precompiled binary
/// chunks, so bytes opening with the binary-chunk signature must come back
/// as an ordinary load failure rather than run unchecked.
#[verifier::external_body]
pub(crate) fn lua_eval(lua: &mlua::Lua, chunk: &Vec<u8>) -> (r: RawOutcome) {
    let loaded = lua.load(chunk).set_mode(mlua::chunk::ChunkMode::Text);
    match loaded.eval::<Option<String>>() {
        Ok(Some(s)) => RawOutcome::Value(s.into_bytes()),
        Ok(None) => RawOutcome::NoValue,
        Err(e) => RawOutcome::Failure(e.to_string().into_bytes()),
    }
}

} // verus!
