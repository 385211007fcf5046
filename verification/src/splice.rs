//! Splice state machine: consumes the code blocks of a document in order
//! together with the evaluator's outcome for each submitted script, and
//! builds the output document. A block that the evaluator reports as
//! syntactically incomplete starts a pending accumulation: later blocks are
//! appended to it, with the intervening document text reintroduced as a
//! long-bracket string literal, until the combination evaluates.

use vstd::prelude::*;
use crate::bytes::{extend_from, subrange_vec};
use crate::eval::{classify, lua_eval};
use crate::scanner::{
    body_start, check_pairs_wf, doc_pairs, marker_len, pair_wf_at, pairs_as_ints, pairs_wf,
    scan_pairs,
};
use crate::PpError;

verus! {

/// What the evaluator said about one submitted script, after the raw
/// failure message has been classified.
pub enum Outcome {
    /// The script ran and produced no value.
    NoValue,
    /// The script ran and produced this string value.
    Value(Vec<u8>),
    /// The script is not a syntactically complete unit on its own.
    Incomplete,
    /// Any other failure, with the evaluator's message.
    Fatal(Vec<u8>),
}

/// The mathematical form of an evaluator outcome.
pub enum OutcomeModel {
    NoValue,
    Value(Seq<u8>),
    Incomplete,
    Fatal(Seq<u8>),
}

impl View for Outcome {
    type V = OutcomeModel;

    open spec fn view(&self) -> OutcomeModel {
        match self {
            Outcome::NoValue => OutcomeModel::NoValue,
            Outcome::Value(v) => OutcomeModel::Value(v@),
            Outcome::Incomplete => OutcomeModel::Incomplete,
            Outcome::Fatal(m) => OutcomeModel::Fatal(m@),
        }
    }
}

/// A sequence of outcomes seen as their mathematical forms.
pub open spec fn outcomes_view(s: Seq<Outcome>) -> Seq<OutcomeModel> {
    s.map_values(|o: Outcome| o@)
}

/// The state of the splice machine between two blocks: the output built so
/// far, the accumulated script of a pending multi-block statement if one is
/// open, and the document position where the next body segment starts.
pub struct MachineModel {
    pub out: Seq<u8>,
    pub pend: Option<Seq<u8>>,
    pub pos: int,
}

/// The machine state at the start of a document: nothing written, nothing
/// pending, the next body segment starts at the document's first byte.
pub open spec fn init_machine() -> MachineModel {
    MachineModel { out: Seq::empty(), pend: Option::None, pos: 0 }
}

/// The bytes put between the accumulated script and the buffered body
/// segment when a combined script is built: a return of a long-bracket
/// string literal. The literal opens with a newline, which the script
/// language drops, so the literal's value is the body segment itself,
/// byte for byte.
pub open spec fn return_open() -> Seq<u8> {
    seq![32u8, 114u8, 101u8, 116u8, 117u8, 114u8, 110u8, 32u8, 91u8, 91u8, 10u8]
}

/// The bytes that close the long-bracket literal of a combined script.
pub open spec fn return_close() -> Seq<u8> {
    seq![93u8, 93u8, 32u8]
}

/// The combined script built while a multi-block statement is pending: the
/// accumulated script, then the buffered body segment as a string literal,
/// then the current block's code.
pub open spec fn combined_script(prior: Seq<u8>, body: Seq<u8>, code: Seq<u8>) -> Seq<u8> {
    prior + return_open() + body + return_close() + code
}

/// The code span of a delimiter pair: the bytes strictly between the end of
/// its open marker and the start of its close marker.
pub open spec fn block_code(doc: Seq<u8>, l: int, pair: (int, int)) -> Seq<u8> {
    doc.subrange(pair.0 + l, pair.1)
}

/// The body segment preceding a delimiter pair, given where it starts.
pub open spec fn block_body(doc: Seq<u8>, pos: int, pair: (int, int)) -> Seq<u8> {
    doc.subrange(pos, pair.0)
}

/// The script the machine submits to the evaluator for one block: the
/// block's own code when idle, the combined script when pending.
pub open spec fn submission_of(m: MachineModel, body: Seq<u8>, code: Seq<u8>) -> Seq<u8> {
    match m.pend {
        Option::None => code,
        Option::Some(p) => combined_script(p, body, code),
    }
}

/// One transition of the splice machine, over the body segment and code of
/// the current block and the evaluator's outcome for the submitted script.
/// A fatal outcome aborts with the evaluator's message. When idle, the body
/// segment is appended to the output (speculatively so if the block turns
/// out incomplete), followed by the produced value if there is one. When
/// pending, the body segment lives inside the combined script instead, and
/// only a produced value is appended.
pub open spec fn step_parts(
    m: MachineModel,
    body: Seq<u8>,
    code: Seq<u8>,
    o: OutcomeModel,
    new_pos: int,
) -> Result<MachineModel, Seq<u8>> {
    match m.pend {
        Option::None => match o {
            OutcomeModel::NoValue => Result::Ok(
                MachineModel { out: m.out + body, pend: Option::None, pos: new_pos },
            ),
            OutcomeModel::Value(v) => Result::Ok(
                MachineModel { out: m.out + body + v, pend: Option::None, pos: new_pos },
            ),
            OutcomeModel::Incomplete => Result::Ok(
                MachineModel { out: m.out + body, pend: Option::Some(code), pos: new_pos },
            ),
            OutcomeModel::Fatal(msg) => Result::Err(msg),
        },
        Option::Some(p) => match o {
            OutcomeModel::NoValue => Result::Ok(
                MachineModel { out: m.out, pend: Option::None, pos: new_pos },
            ),
            OutcomeModel::Value(v) => Result::Ok(
                MachineModel { out: m.out + v, pend: Option::None, pos: new_pos },
            ),
            OutcomeModel::Incomplete => Result::Ok(
                (MachineModel {
                    out: m.out,
                    pend: Option::Some(combined_script(p, body, code)),
                    pos: new_pos,
                }),
            ),
            OutcomeModel::Fatal(msg) => Result::Err(msg),
        },
    }
}

/// The machine's transition for one delimiter pair of the document.
pub open spec fn step_at(
    doc: Seq<u8>,
    l: int,
    m: MachineModel,
    pair: (int, int),
    o: OutcomeModel,
) -> Result<MachineModel, Seq<u8>> {
    step_parts(m, block_body(doc, m.pos, pair), block_code(doc, l, pair), o, pair.1 + l)
}

/// The machine state after consuming a list of pairs with the matching
/// outcomes, or the fatal message that stopped it.
pub open spec fn machine_after(
    doc: Seq<u8>,
    l: int,
    pairs: Seq<(int, int)>,
    outs: Seq<OutcomeModel>,
    m: MachineModel,
) -> Result<MachineModel, Seq<u8>>
    decreases pairs.len(),
{
    if pairs.len() == 0 {
        Result::Ok(m)
    } else {
        match step_at(doc, l, m, pairs[0], outs[0]) {
            Result::Err(msg) => Result::Err(msg),
            Result::Ok(m2) => machine_after(
                doc,
                l,
                pairs.drop_first(),
                outs.drop_first(),
                m2,
            ),
        }
    }
}

/// How a whole splice pass ends.
pub enum RunOutcome {
    /// The finished output document.
    Done(Seq<u8>),
    /// A multi-block statement was still pending after the last block; the
    /// accumulated script is carried.
    Unclosed(Seq<u8>),
    /// The evaluator failed fatally with this message.
    Failed(Seq<u8>),
}

/// The result of running the machine over a list of pairs with the matching
/// outcomes: a fatal outcome aborts, a still-pending statement after the
/// last pair is the unclosed-block error, and otherwise the output is what
/// the machine wrote followed by the document's tail after the last close
/// marker.
pub open spec fn run_from(
    doc: Seq<u8>,
    l: int,
    pairs: Seq<(int, int)>,
    outs: Seq<OutcomeModel>,
    m: MachineModel,
) -> RunOutcome
    decreases pairs.len(),
{
    if pairs.len() == 0 {
        match m.pend {
            Option::Some(p) => RunOutcome::Unclosed(p),
            Option::None => RunOutcome::Done(m.out + doc.subrange(m.pos, doc.len() as int)),
        }
    } else {
        match step_at(doc, l, m, pairs[0], outs[0]) {
            Result::Err(msg) => RunOutcome::Failed(msg),
            Result::Ok(m2) => run_from(doc, l, pairs.drop_first(), outs.drop_first(), m2),
        }
    }
}

/// A whole splice pass over a document at a depth, given the evaluator's
/// outcome for each submitted script in order.
pub open spec fn splice_run(doc: Seq<u8>, depth: int, outs: Seq<OutcomeModel>) -> RunOutcome {
    run_from(doc, marker_len(depth), doc_pairs(doc, depth), outs, init_machine())
}

/// Consuming one more pair at the end of a list steps the machine once more.
pub proof fn lemma_machine_after_snoc(
    doc: Seq<u8>,
    l: int,
    pairs: Seq<(int, int)>,
    outs: Seq<OutcomeModel>,
    m: MachineModel,
    pair: (int, int),
    o: OutcomeModel,
)
    requires
        pairs.len() == outs.len(),
    ensures
        machine_after(doc, l, pairs.push(pair), outs.push(o), m) == (match machine_after(
            doc,
            l,
            pairs,
            outs,
            m,
        ) {
            Result::Ok(m1) => step_at(doc, l, m1, pair, o),
            Result::Err(msg) => Result::<MachineModel, Seq<u8>>::Err(msg),
        }),
    decreases pairs.len(),
{
    if pairs.len() == 0 {
        assert(pairs.push(pair)[0] == pair);
        assert(outs.push(o)[0] == o);
        assert(pairs.push(pair).drop_first() =~= Seq::<(int, int)>::empty());
        assert(outs.push(o).drop_first() =~= Seq::<OutcomeModel>::empty());
        match step_at(doc, l, m, pair, o) {
            Result::Err(msg) => {
                assert(machine_after(doc, l, pairs.push(pair), outs.push(o), m) == Result::<
                    MachineModel,
                    Seq<u8>,
                >::Err(msg));
            },
            Result::Ok(m2) => {
                assert(machine_after(
                    doc,
                    l,
                    pairs.push(pair).drop_first(),
                    outs.push(o).drop_first(),
                    m2,
                ) == Result::<MachineModel, Seq<u8>>::Ok(m2));
            },
        }
    } else {
        assert(pairs.push(pair)[0] == pairs[0]);
        assert(outs.push(o)[0] == outs[0]);
        assert(pairs.push(pair).drop_first() =~= pairs.drop_first().push(pair));
        assert(outs.push(o).drop_first() =~= outs.drop_first().push(o));
        match step_at(doc, l, m, pairs[0], outs[0]) {
            Result::Err(msg) => {},
            Result::Ok(m2) => {
                lemma_machine_after_snoc(
                    doc,
                    l,
                    pairs.drop_first(),
                    outs.drop_first(),
                    m2,
                    pair,
                    o,
                );
            },
        }
    }
}

/// A run whose first `k` steps succeed continues as the run of the
/// remaining pairs from the state those steps reached.
pub proof fn lemma_run_from_decompose(
    doc: Seq<u8>,
    l: int,
    pairs: Seq<(int, int)>,
    outs: Seq<OutcomeModel>,
    m: MachineModel,
    k: int,
    mk: MachineModel,
)
    requires
        0 <= k <= pairs.len(),
        pairs.len() == outs.len(),
        machine_after(doc, l, pairs.take(k), outs.take(k), m) == Result::<
            MachineModel,
            Seq<u8>,
        >::Ok(mk),
    ensures
        run_from(doc, l, pairs, outs, m) == run_from(doc, l, pairs.skip(k), outs.skip(k), mk),
    decreases k,
{
    if k == 0 {
        assert(pairs.take(0) =~= Seq::<(int, int)>::empty());
        assert(mk == m);
        assert(pairs.skip(0) =~= pairs);
        assert(outs.skip(0) =~= outs);
    } else {
        let pk = pairs.take(k);
        let ok = outs.take(k);
        assert(pk =~= pairs.take(k - 1).push(pairs[k - 1]));
        assert(ok =~= outs.take(k - 1).push(outs[k - 1]));
        lemma_machine_after_snoc(
            doc,
            l,
            pairs.take(k - 1),
            outs.take(k - 1),
            m,
            pairs[k - 1],
            outs[k - 1],
        );
        let prev = machine_after(doc, l, pairs.take(k - 1), outs.take(k - 1), m);
        match prev {
            Result::Err(msg) => {
                assert(false);
            },
            Result::Ok(m1) => {
                lemma_run_from_decompose(doc, l, pairs, outs, m, k - 1, m1);
                assert(step_at(doc, l, m1, pairs[k - 1], outs[k - 1]) == Result::<
                    MachineModel,
                    Seq<u8>,
                >::Ok(mk));
                assert(pairs.skip(k - 1)[0] == pairs[k - 1]);
                assert(outs.skip(k - 1)[0] == outs[k - 1]);
                assert(pairs.skip(k - 1).drop_first() =~= pairs.skip(k));
                assert(outs.skip(k - 1).drop_first() =~= outs.skip(k));
            },
        }
    }
}

/// A document with no delimiter pairs is spliced to itself: the run writes
/// nothing and the whole document is the trailing body, whatever the
/// outcome sequence.
pub proof fn lemma_no_pairs_identity(doc: Seq<u8>, depth: int, outs: Seq<OutcomeModel>)
    requires
        doc_pairs(doc, depth).len() == 0,
    ensures
        splice_run(doc, depth, outs) == RunOutcome::Done(doc),
{
    assert(Seq::<u8>::empty() + doc.subrange(0, doc.len() as int) =~= doc);
}

/// An outcome that neither fails nor leaves the statement incomplete.
pub open spec fn is_complete_outcome(o: OutcomeModel) -> bool {
    o is NoValue || o is Value
}

/// The value an outcome splices into the output: the produced string, or
/// nothing.
pub open spec fn outcome_value(o: OutcomeModel) -> Seq<u8> {
    match o {
        OutcomeModel::Value(v) => v,
        _ => Seq::empty(),
    }
}

/// The output of a pass whose every block evaluates completely: from `pos`,
/// each pair contributes its preceding body segment followed by the value
/// its block produced, in document order, and the text after the last
/// close marker ends the output.
pub open spec fn interleaved(
    doc: Seq<u8>,
    l: int,
    pairs: Seq<(int, int)>,
    outs: Seq<OutcomeModel>,
    pos: int,
) -> Seq<u8>
    decreases pairs.len(),
{
    if pairs.len() == 0 {
        doc.subrange(pos, doc.len() as int)
    } else {
        doc.subrange(pos, pairs[0].0) + outcome_value(outs[0]) + interleaved(
            doc,
            l,
            pairs.drop_first(),
            outs.drop_first(),
            pairs[0].1 + l,
        )
    }
}

/// When every outcome of a run is complete, the machine never leaves the
/// idle state and the output is exactly the interleaving of body segments
/// and produced values, in document order, with no two substitutions
/// reordered.
pub proof fn lemma_complete_run_from(
    doc: Seq<u8>,
    l: int,
    pairs: Seq<(int, int)>,
    outs: Seq<OutcomeModel>,
    m: MachineModel,
)
    requires
        pairs.len() == outs.len(),
        forall|i: int| 0 <= i < outs.len() ==> is_complete_outcome(#[trigger] outs[i]),
        m.pend is None,
    ensures
        run_from(doc, l, pairs, outs, m) == RunOutcome::Done(
            m.out + interleaved(doc, l, pairs, outs, m.pos),
        ),
    decreases pairs.len(),
{
    if pairs.len() == 0 {
    } else {
        assert(is_complete_outcome(outs[0]));
        let body = block_body(doc, m.pos, pairs[0]);
        let v = outcome_value(outs[0]);
        let m2 = MachineModel { out: m.out + body + v, pend: Option::None, pos: pairs[0].1 + l };
        assert(m.out + body =~= m.out + body + Seq::<u8>::empty());
        assert(step_at(doc, l, m, pairs[0], outs[0]) == Result::<MachineModel, Seq<u8>>::Ok(m2));
        assert(forall|i: int|
            0 <= i < outs.drop_first().len() ==> is_complete_outcome(
                #[trigger] outs.drop_first()[i],
            ));
        lemma_complete_run_from(doc, l, pairs.drop_first(), outs.drop_first(), m2);
        assert(m.out + body + v + interleaved(
            doc,
            l,
            pairs.drop_first(),
            outs.drop_first(),
            pairs[0].1 + l,
        ) =~= m.out + (body + v + interleaved(
            doc,
            l,
            pairs.drop_first(),
            outs.drop_first(),
            pairs[0].1 + l,
        )));
    }
}

/// A document whose directives all evaluate as complete, single-block
/// statements is spliced to the text before the first open marker, then
/// each substitution in document order, then the text after the last close
/// marker.
pub proof fn lemma_complete_outcomes_output(doc: Seq<u8>, depth: int, outs: Seq<OutcomeModel>)
    requires
        outs.len() == doc_pairs(doc, depth).len(),
        forall|i: int| 0 <= i < outs.len() ==> is_complete_outcome(#[trigger] outs[i]),
    ensures
        splice_run(doc, depth, outs) == RunOutcome::Done(
            interleaved(doc, marker_len(depth), doc_pairs(doc, depth), outs, 0),
        ),
{
    lemma_complete_run_from(doc, marker_len(depth), doc_pairs(doc, depth), outs, init_machine());
    assert(Seq::<u8>::empty() + interleaved(
        doc,
        marker_len(depth),
        doc_pairs(doc, depth),
        outs,
        0,
    ) =~= interleaved(doc, marker_len(depth), doc_pairs(doc, depth), outs, 0));
}

/// The script submitted to the evaluator for pair `k`, given that the
/// machine consumed the earlier pairs without a fatal outcome.
pub open spec fn submission_at(
    doc: Seq<u8>,
    l: int,
    pairs: Seq<(int, int)>,
    outs: Seq<OutcomeModel>,
    k: int,
) -> Seq<u8> {
    match machine_after(doc, l, pairs.take(k), outs.take(k), init_machine()) {
        Result::Ok(m) => submission_of(
            m,
            block_body(doc, m.pos, pairs[k]),
            block_code(doc, l, pairs[k]),
        ),
        Result::Err(msg) => Seq::empty(),
    }
}

/// Two-block pending reconstruction: when the first block of a two-pair
/// document reports incomplete, the script submitted for the second block
/// is the first block's code, then the literal opener, then exactly the
/// document text standing between the two pairs, then the literal closer,
/// then the second block's code.
pub proof fn lemma_two_block_submission(doc: Seq<u8>, depth: int, outs: Seq<OutcomeModel>)
    requires
        doc_pairs(doc, depth).len() == 2,
        outs.len() == 2,
        outs[0] is Incomplete,
    ensures
        submission_at(doc, marker_len(depth), doc_pairs(doc, depth), outs, 1) == block_code(
            doc,
            marker_len(depth),
            doc_pairs(doc, depth)[0],
        ) + return_open() + doc.subrange(
            doc_pairs(doc, depth)[0].1 + marker_len(depth),
            doc_pairs(doc, depth)[1].0,
        ) + return_close() + block_code(doc, marker_len(depth), doc_pairs(doc, depth)[1]),
{
    let l = marker_len(depth);
    let pairs = doc_pairs(doc, depth);
    let code0 = block_code(doc, l, pairs[0]);
    let m1 = MachineModel {
        out: Seq::<u8>::empty() + block_body(doc, 0, pairs[0]),
        pend: Option::Some(code0),
        pos: pairs[0].1 + l,
    };
    assert(pairs.take(1) =~= Seq::<(int, int)>::empty().push(pairs[0]));
    assert(outs.take(1) =~= Seq::<OutcomeModel>::empty().push(outs[0]));
    lemma_machine_after_snoc(
        doc,
        l,
        Seq::<(int, int)>::empty(),
        Seq::<OutcomeModel>::empty(),
        init_machine(),
        pairs[0],
        outs[0],
    );
    assert(step_at(doc, l, init_machine(), pairs[0], outs[0]) == Result::<
        MachineModel,
        Seq<u8>,
    >::Ok(m1));
    assert(machine_after(doc, l, pairs.take(1), outs.take(1), init_machine()) == Result::<
        MachineModel,
        Seq<u8>,
    >::Ok(m1));
    assert(block_body(doc, m1.pos, pairs[1]) == doc.subrange(pairs[0].1 + l, pairs[1].0));
}

/// Without a fatal outcome the machine consumes every pair.
pub proof fn lemma_no_fatal_machine_ok(
    doc: Seq<u8>,
    l: int,
    pairs: Seq<(int, int)>,
    outs: Seq<OutcomeModel>,
    m: MachineModel,
)
    requires
        pairs.len() == outs.len(),
        forall|i: int| 0 <= i < outs.len() ==> !((#[trigger] outs[i]) is Fatal),
    ensures
        machine_after(doc, l, pairs, outs, m) is Ok,
    decreases pairs.len(),
{
    if pairs.len() == 0 {
    } else {
        assert(!(outs[0] is Fatal));
        match step_at(doc, l, m, pairs[0], outs[0]) {
            Result::Err(msg) => {
                assert(false);
            },
            Result::Ok(m2) => {
                assert(forall|i: int|
                    0 <= i < outs.drop_first().len() ==> !((#[trigger] outs.drop_first()[i])
                        is Fatal));
                lemma_no_fatal_machine_ok(doc, l, pairs.drop_first(), outs.drop_first(), m2);
            },
        }
    }
}

/// A document whose last block leaves a multi-block statement pending, with
/// no fatal outcome anywhere, ends in the unclosed-block error: the pass
/// never silently truncates such a document.
pub proof fn lemma_unclosed_failure(doc: Seq<u8>, depth: int, outs: Seq<OutcomeModel>)
    requires
        outs.len() == doc_pairs(doc, depth).len(),
        outs.len() > 0,
        forall|i: int| 0 <= i < outs.len() ==> !((#[trigger] outs[i]) is Fatal),
        outs[outs.len() - 1] is Incomplete,
    ensures
        splice_run(doc, depth, outs) is Unclosed,
{
    let l = marker_len(depth);
    let pairs = doc_pairs(doc, depth);
    let n = pairs.len() as int;
    assert(forall|i: int|
        0 <= i < outs.take(n - 1).len() ==> !((#[trigger] outs.take(n - 1)[i]) is Fatal));
    lemma_no_fatal_machine_ok(
        doc,
        l,
        pairs.take(n - 1),
        outs.take(n - 1),
        init_machine(),
    );
    let mprev = machine_after(doc, l, pairs.take(n - 1), outs.take(n - 1), init_machine());
    match mprev {
        Result::Err(msg) => {
            assert(false);
        },
        Result::Ok(m1) => {
            lemma_run_from_decompose(doc, l, pairs, outs, init_machine(), n - 1, m1);
            assert(pairs.skip(n - 1)[0] == pairs[n - 1]);
            assert(outs.skip(n - 1)[0] == outs[n - 1]);
            match step_at(doc, l, m1, pairs[n - 1], outs[n - 1]) {
                Result::Err(msg) => {
                    assert(false);
                },
                Result::Ok(m2) => {
                    assert(m2.pend is Some);
                    assert(pairs.skip(n - 1).drop_first() =~= Seq::<(int, int)>::empty());
                    assert(outs.skip(n - 1).drop_first() =~= Seq::<OutcomeModel>::empty());
                    assert(run_from(
                        doc,
                        l,
                        pairs.skip(n - 1).drop_first(),
                        outs.skip(n - 1).drop_first(),
                        m2,
                    ) is Unclosed);
                },
            }
        },
    }
}

/// The splice machine as executable state.
pub struct SpliceMachine {
    pub out: Vec<u8>,
    pub pend: Option<Vec<u8>>,
    pub pos: usize,
}

impl View for SpliceMachine {
    type V = MachineModel;

    open spec fn view(&self) -> MachineModel {
        MachineModel {
            out: self.out@,
            pend: match self.pend {
                Option::None => Option::None,
                Option::Some(p) => Option::Some(p@),
            },
            pos: self.pos as int,
        }
    }
}

/// The literal opener of a combined script as bytes.
fn ret_open_bytes() -> (r: Vec<u8>)
    ensures
        r@ == return_open(),
{
    let mut r: Vec<u8> = Vec::new();
    r.push(32);
    r.push(114);
    r.push(101);
    r.push(116);
    r.push(117);
    r.push(114);
    r.push(110);
    r.push(32);
    r.push(91);
    r.push(91);
    r.push(10);
    proof {
        assert(r@ =~= return_open());
    }
    r
}

/// The literal closer of a combined script as bytes.
fn ret_close_bytes() -> (r: Vec<u8>)
    ensures
        r@ == return_close(),
{
    let mut r: Vec<u8> = Vec::new();
    r.push(93);
    r.push(93);
    r.push(32);
    proof {
        assert(r@ =~= return_close());
    }
    r
}

/// The script to submit to the evaluator for the current block.
fn build_submission(m: &SpliceMachine, body: &Vec<u8>, code: &Vec<u8>) -> (r: Vec<u8>)
    ensures
        r@ == submission_of(m@, body@, code@),
{
    let mut r: Vec<u8> = Vec::new();
    match &m.pend {
        Option::None => {
            extend_from(&mut r, code);
        },
        Option::Some(p) => {
            extend_from(&mut r, p);
            let ro = ret_open_bytes();
            extend_from(&mut r, &ro);
            extend_from(&mut r, body);
            let rc = ret_close_bytes();
            extend_from(&mut r, &rc);
            extend_from(&mut r, code);
        },
    }
    r
}

/// One executable transition of the splice machine. `sub` is the script
/// that was submitted for this block, which doubles as the accumulated
/// script when the outcome is an incomplete statement.
fn machine_step(
    m: SpliceMachine,
    sub: Vec<u8>,
    body: &Vec<u8>,
    o: &Outcome,
    new_pos: usize,
    Ghost(code): Ghost<Seq<u8>>,
) -> (r: Result<SpliceMachine, PpError>)
    requires
        sub@ == submission_of(m@, body@, code),
    ensures
        match r {
            Result::Ok(m2) => step_parts(m@, body@, code, o@, new_pos as int) == Result::<
                MachineModel,
                Seq<u8>,
            >::Ok(m2@),
            Result::Err(e) => match (o@, e) {
                (OutcomeModel::Fatal(msg), PpError::ScriptFailure(carried)) => {
                    &&& step_parts(m@, body@, code, o@, new_pos as int) == Result::<
                        MachineModel,
                        Seq<u8>,
                    >::Err(msg)
                    &&& carried@ == msg
                },
                _ => false,
            },
        },
{
    let SpliceMachine { out: mut out, pend, pos } = m;
    match pend {
        Option::None => match o {
            Outcome::NoValue => {
                extend_from(&mut out, body);
                Result::Ok(SpliceMachine { out, pend: Option::None, pos: new_pos })
            },
            Outcome::Value(v) => {
                extend_from(&mut out, body);
                extend_from(&mut out, v);
                Result::Ok(SpliceMachine { out, pend: Option::None, pos: new_pos })
            },
            Outcome::Incomplete => {
                extend_from(&mut out, body);
                Result::Ok(SpliceMachine { out, pend: Option::Some(sub), pos: new_pos })
            },
            Outcome::Fatal(msg) => {
                let carried = subrange_vec(msg, 0, msg.len());
                proof {
                    assert(carried@ =~= msg@);
                }
                Result::Err(PpError::ScriptFailure(carried))
            },
        },
        Option::Some(_) => match o {
            Outcome::NoValue => Result::Ok(
                SpliceMachine { out, pend: Option::None, pos: new_pos },
            ),
            Outcome::Value(v) => {
                extend_from(&mut out, v);
                Result::Ok(SpliceMachine { out, pend: Option::None, pos: new_pos })
            },
            Outcome::Incomplete => Result::Ok(
                SpliceMachine { out, pend: Option::Some(sub), pos: new_pos },
            ),
            Outcome::Fatal(msg) => {
                let carried = subrange_vec(msg, 0, msg.len());
                proof {
                    assert(carried@ =~= msg@);
                }
                Result::Err(PpError::ScriptFailure(carried))
            },
        },
    }
}

/// Whether an executable splice result agrees with the model's run
/// outcome, case by case and byte for byte.
pub open spec fn run_result_matches(r: Result<Vec<u8>, PpError>, ro: RunOutcome) -> bool {
    match (r, ro) {
        (Result::Ok(v), RunOutcome::Done(s)) => v@ == s,
        (Result::Err(PpError::UnclosedBlock(p)), RunOutcome::Unclosed(s)) => p@ == s,
        (Result::Err(PpError::ScriptFailure(m)), RunOutcome::Failed(s)) => m@ == s,
        _ => false,
    }
}

/// Replays the splice machine over a document with a given outcome for
/// each delimiter pair, with no evaluator involved: the result is exactly
/// the model's run over those outcomes. Misordered markers are rejected
/// before any block is consumed, and a document with no pairs comes back
/// unchanged.
pub fn splice_with_outcomes(doc: &Vec<u8>, depth: usize, outcomes: &Vec<Outcome>) -> (r: Result<
    Vec<u8>,
    PpError,
>)
    requires
        1 <= depth,
        depth <= usize::MAX - 3,
        outcomes@.len() == doc_pairs(doc@, depth as int).len(),
    ensures
        !pairs_wf(
            doc_pairs(doc@, depth as int),
            marker_len(depth as int),
            doc@.len() as int,
        ) ==> (r matches Result::Err(PpError::MisorderedMarkers)),
        pairs_wf(doc_pairs(doc@, depth as int), marker_len(depth as int), doc@.len() as int)
            ==> run_result_matches(
            r,
            run_from(
                doc@,
                marker_len(depth as int),
                doc_pairs(doc@, depth as int),
                outcomes_view(outcomes@),
                init_machine(),
            ),
        ),
        doc_pairs(doc@, depth as int).len() == 0 ==> (r matches Result::Ok(v) && v@ == doc@),
{
    let ghost pairs_m = doc_pairs(doc@, depth as int);
    let ghost l_m = marker_len(depth as int);
    let ghost outs_m = outcomes_view(outcomes@);
    let pairs = scan_pairs(doc, depth);
    if !check_pairs_wf(doc, depth, &pairs) {
        return Result::Err(PpError::MisorderedMarkers);
    }
    let l = depth + 3;
    let dlen = doc.len();
    let n = pairs.len();
    let mut mach = SpliceMachine { out: Vec::new(), pend: Option::None, pos: 0 };
    let mut i: usize = 0;
    while i < n
        invariant
            1 <= depth <= usize::MAX - 3,
            l == depth + 3,
            l_m == l as int,
            dlen == doc@.len(),
            n == pairs@.len(),
            pairs_m == pairs_as_ints(pairs@),
            pairs_m == doc_pairs(doc@, depth as int),
            outs_m == outcomes_view(outcomes@),
            outcomes@.len() == n,
            pairs_wf(pairs_m, l_m, doc@.len() as int),
            i <= n,
            machine_after(
                doc@,
                l_m,
                pairs_m.take(i as int),
                outs_m.take(i as int),
                init_machine(),
            ) == Result::<MachineModel, Seq<u8>>::Ok(mach@),
            mach@.pos == body_start(pairs_m, l_m, i as int),
        decreases n - i,
    {
        proof {
            assert(pair_wf_at(pairs_m, l_m, doc@.len() as int, i as int));
            assert(pairs_m[i as int] == (pairs@[i as int].0 as int, pairs@[i as int].1 as int));
        }
        let (a, b) = pairs[i];
        let body = subrange_vec(doc, mach.pos, a);
        let code = subrange_vec(doc, a + l, b);
        let sub = build_submission(&mach, &body, &code);
        let o = &outcomes[i];
        proof {
            assert(o@ == outs_m[i as int]);
            assert(block_body(doc@, mach@.pos, pairs_m[i as int]) == body@);
            assert(block_code(doc@, l_m, pairs_m[i as int]) == code@);
        }
        let ghost old_mach_m = mach@;
        let step = machine_step(mach, sub, &body, o, b + l, Ghost(code@));
        match step {
            Result::Err(e) => {
                proof {
                    assert(step_at(doc@, l_m, old_mach_m, pairs_m[i as int], outs_m[i as int])
                        == step_parts(old_mach_m, body@, code@, o@, b + l));
                    lemma_run_from_decompose(
                        doc@,
                        l_m,
                        pairs_m,
                        outs_m,
                        init_machine(),
                        i as int,
                        old_mach_m,
                    );
                    assert(pairs_m.skip(i as int)[0] == pairs_m[i as int]);
                    assert(outs_m.skip(i as int)[0] == outs_m[i as int]);
                }
                return Result::Err(e);
            },
            Result::Ok(m2) => {
                proof {
                    assert(pairs_m.take(i as int + 1) =~= pairs_m.take(i as int).push(
                        pairs_m[i as int],
                    ));
                    assert(outs_m.take(i as int + 1) =~= outs_m.take(i as int).push(
                        outs_m[i as int],
                    ));
                    lemma_machine_after_snoc(
                        doc@,
                        l_m,
                        pairs_m.take(i as int),
                        outs_m.take(i as int),
                        init_machine(),
                        pairs_m[i as int],
                        outs_m[i as int],
                    );
                    assert(step_at(doc@, l_m, old_mach_m, pairs_m[i as int], outs_m[i as int])
                        == Result::<MachineModel, Seq<u8>>::Ok(m2@));
                }
                mach = m2;
            },
        }
        i += 1;
    }
    proof {
        assert(pairs_m.take(n as int) =~= pairs_m);
        assert(outs_m.take(n as int) =~= outs_m);
        lemma_run_from_decompose(doc@, l_m, pairs_m, outs_m, init_machine(), n as int, mach@);
        assert(pairs_m.skip(n as int) =~= Seq::<(int, int)>::empty());
        assert(outs_m.skip(n as int) =~= Seq::<OutcomeModel>::empty());
        if n > 0 {
            assert(pair_wf_at(pairs_m, l_m, doc@.len() as int, n - 1));
        }
    }
    let SpliceMachine { out: mut out, pend, pos } = mach;
    match pend {
        Option::Some(p) => Result::Err(PpError::UnclosedBlock(p)),
        Option::None => {
            let tail = subrange_vec(doc, pos, dlen);
            extend_from(&mut out, &tail);
            proof {
                if pairs_m.len() == 0 {
                    assert(out@ =~= doc@);
                }
            }
            Result::Ok(out)
        },
    }
}

/// One whole splice pass of a document at a depth against the live
/// evaluator. The evaluator's answers are not a function of the document —
/// the interpreter keeps state between calls — so the contract holds
/// whatever came back: there is a sequence of outcomes, one per delimiter
/// pair, whose model run is exactly this result. Misordered markers are
/// rejected before anything is evaluated, and a document with no pairs
/// comes back unchanged without consulting the evaluator.
pub fn splice_document(doc: &Vec<u8>, depth: usize, lua: &mlua::Lua) -> (r: Result<
    Vec<u8>,
    PpError,
>)
    requires
        1 <= depth,
        depth <= usize::MAX - 3,
    ensures
        !pairs_wf(
            doc_pairs(doc@, depth as int),
            marker_len(depth as int),
            doc@.len() as int,
        ) ==> (r matches Result::Err(PpError::MisorderedMarkers)),
        pairs_wf(doc_pairs(doc@, depth as int), marker_len(depth as int), doc@.len() as int)
            ==> exists|outs: Seq<OutcomeModel>|
            outs.len() == doc_pairs(doc@, depth as int).len() && run_result_matches(
                r,
                run_from(
                    doc@,
                    marker_len(depth as int),
                    doc_pairs(doc@, depth as int),
                    outs,
                    init_machine(),
                ),
            ),
        doc_pairs(doc@, depth as int).len() == 0 ==> (r matches Result::Ok(v) && v@ == doc@),
{
    let ghost pairs_m = doc_pairs(doc@, depth as int);
    let ghost l_m = marker_len(depth as int);
    let pairs = scan_pairs(doc, depth);
    if !check_pairs_wf(doc, depth, &pairs) {
        return Result::Err(PpError::MisorderedMarkers);
    }
    let l = depth + 3;
    let dlen = doc.len();
    let n = pairs.len();
    let mut mach = SpliceMachine { out: Vec::new(), pend: Option::None, pos: 0 };
    let ghost mut outs_m: Seq<OutcomeModel> = Seq::empty();
    let mut i: usize = 0;
    while i < n
        invariant
            1 <= depth <= usize::MAX - 3,
            l == depth + 3,
            l_m == l as int,
            dlen == doc@.len(),
            n == pairs@.len(),
            pairs_m == pairs_as_ints(pairs@),
            pairs_m == doc_pairs(doc@, depth as int),
            pairs_wf(pairs_m, l_m, doc@.len() as int),
            i <= n,
            outs_m.len() == i,
            machine_after(doc@, l_m, pairs_m.take(i as int), outs_m, init_machine())
                == Result::<MachineModel, Seq<u8>>::Ok(mach@),
            mach@.pos == body_start(pairs_m, l_m, i as int),
        decreases n - i,
    {
        proof {
            assert(pair_wf_at(pairs_m, l_m, doc@.len() as int, i as int));
            assert(pairs_m[i as int] == (pairs@[i as int].0 as int, pairs@[i as int].1 as int));
        }
        let (a, b) = pairs[i];
        let body = subrange_vec(doc, mach.pos, a);
        let code = subrange_vec(doc, a + l, b);
        let sub = build_submission(&mach, &body, &code);
        let raw = lua_eval(lua, &sub);
        let o = classify(raw);
        proof {
            assert(block_body(doc@, mach@.pos, pairs_m[i as int]) == body@);
            assert(block_code(doc@, l_m, pairs_m[i as int]) == code@);
        }
        let ghost old_mach_m = mach@;
        let ghost old_outs_m = outs_m;
        let step = machine_step(mach, sub, &body, &o, b + l, Ghost(code@));
        proof {
            outs_m = outs_m.push(o@);
        }
        match step {
            Result::Err(e) => {
                proof {
                    let padded = outs_m + Seq::new((n - i - 1) as nat, |j: int| OutcomeModel::NoValue);
                    assert(padded.len() == pairs_m.len());
                    assert(padded.take(i as int) =~= old_outs_m);
                    assert(padded[i as int] == o@);
                    assert(step_at(doc@, l_m, old_mach_m, pairs_m[i as int], padded[i as int])
                        == step_parts(old_mach_m, body@, code@, o@, b + l));
                    lemma_run_from_decompose(
                        doc@,
                        l_m,
                        pairs_m,
                        padded,
                        init_machine(),
                        i as int,
                        old_mach_m,
                    );
                    assert(pairs_m.skip(i as int)[0] == pairs_m[i as int]);
                    assert(padded.skip(i as int)[0] == padded[i as int]);
                    assert(run_from(doc@, l_m, pairs_m, padded, init_machine())
                        is Failed);
                    assert(run_result_matches(
                        Result::Err(e),
                        run_from(doc@, l_m, pairs_m, padded, init_machine()),
                    ));
                }
                return Result::Err(e);
            },
            Result::Ok(m2) => {
                proof {
                    assert(pairs_m.take(i as int + 1) =~= pairs_m.take(i as int).push(
                        pairs_m[i as int],
                    ));
                    assert(outs_m =~= old_outs_m.push(o@));
                    lemma_machine_after_snoc(
                        doc@,
                        l_m,
                        pairs_m.take(i as int),
                        old_outs_m,
                        init_machine(),
                        pairs_m[i as int],
                        o@,
                    );
                    assert(step_at(doc@, l_m, old_mach_m, pairs_m[i as int], o@) == Result::<
                        MachineModel,
                        Seq<u8>,
                    >::Ok(m2@));
                }
                mach = m2;
            },
        }
        i += 1;
    }
    proof {
        assert(pairs_m.take(n as int) =~= pairs_m);
        assert(outs_m.take(n as int) =~= outs_m);
        lemma_run_from_decompose(doc@, l_m, pairs_m, outs_m, init_machine(), n as int, mach@);
        assert(pairs_m.skip(n as int) =~= Seq::<(int, int)>::empty());
        assert(outs_m.skip(n as int) =~= Seq::<OutcomeModel>::empty());
        if n > 0 {
            assert(pair_wf_at(pairs_m, l_m, doc@.len() as int, n - 1));
        }
    }
    let SpliceMachine { out: mut out, pend, pos } = mach;
    match pend {
        Option::Some(p) => {
            proof {
                assert(run_result_matches(
                    Result::Err(PpError::UnclosedBlock(p)),
                    run_from(doc@, l_m, pairs_m, outs_m, init_machine()),
                ));
            }
            Result::Err(PpError::UnclosedBlock(p))
        },
        Option::None => {
            let tail = subrange_vec(doc, pos, dlen);
            extend_from(&mut out, &tail);
            proof {
                assert(run_result_matches(
                    Result::Ok(out),
                    run_from(doc@, l_m, pairs_m, outs_m, init_machine()),
                ));
                if pairs_m.len() == 0 {
                    assert(out@ =~= doc@);
                }
            }
            Result::Ok(out)
        },
    }
}

} // verus!
