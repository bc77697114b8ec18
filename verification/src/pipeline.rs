//! The interception pipeline for one direction of one connection.
//!
//! Bytes from the transport are fed into a session; the session reassembles
//! frames, and for each complete frame either re-emits it verbatim or, on
//! the intercepting direction, resolves rules on a RowDescription and
//! rewrites cells of a DataRow, re-emitting with recomputed lengths. The
//! session's whole observable behaviour is pinned to `run_frames`, a
//! function of the bytes fed so far and the configuration.

use vstd::prelude::*;

verus! {

use crate::codec::{frame_bytes, frame_wf, lemma_parse_one_exact, encode_frame, encode_tagged,
    parse_one, Decoder, Frame, FrameModel, ParseOutcome, ProxyError};
use crate::config::{AppConfig, RuleModel};
use crate::faker::Strategy;
use crate::interceptor::{heuristic_strategy, spec_column_strategy, table_lookup, Anonymizer};
use crate::msg::{cell_bytes, cells_bytes, data_row_bytes, data_row_wf, encode_data_row,
    lemma_data_row_exact, lemma_row_description_count, parse_data_row, parse_row_description,
    spec_parse_data_row, spec_parse_row_description, FieldModel, TAG_DATA_ROW,
    TAG_ROW_DESCRIPTION};

/// The ghost state the pipeline decides with: the configured rules, the
/// heuristic switch, and the fields of the currently bound RowDescription.
pub struct PipeModel {
    pub rules: Seq<RuleModel>,
    pub heur: bool,
    pub bound: Option<Seq<FieldModel>>,
}

/// The strategy for column `i` holding bytes `v` under the model: a rule
/// bound by the current RowDescription wins; otherwise the heuristic, when
/// enabled.
pub open spec fn model_cell_strategy(m: PipeModel, i: int, v: Seq<u8>) -> Option<Strategy> {
    match (match m.bound {
        Some(fields) => spec_column_strategy(fields, m.rules, i),
        None => None,
    }) {
        Some(s) => Some(s),
        None => if m.heur {
            heuristic_strategy(v)
        } else {
            None
        },
    }
}

/// What cell `i` becomes under the model.
pub open spec fn model_masked_cell(m: PipeModel, i: int, c: Option<Seq<u8>>) -> Option<Seq<u8>> {
    match c {
        None => None,
        Some(v) => match model_cell_strategy(m, i, v) {
            None => Some(v),
            Some(s) => Some(crate::faker::mask_spec(v, s)),
        },
    }
}

/// A whole row rewritten cell by cell.
pub open spec fn model_masked_row(m: PipeModel, cells: Seq<Option<Seq<u8>>>) -> Seq<
    Option<Seq<u8>>,
> {
    Seq::new(cells.len(), |i: int| model_masked_cell(m, i, cells[i]))
}

/// What one frame contributes: bytes to emit and the new binding, or an
/// error that terminates the connection.
pub enum StepOut {
    Emit { out: Seq<u8>, bound: Option<Seq<FieldModel>> },
    Fail { err: ProxyError },
}

/// One frame through the pipeline. A non-intercepting session re-emits
/// everything verbatim. An intercepting session re-emits a RowDescription
/// verbatim but binds its fields; rewrites a DataRow's cells, recomputing
/// all lengths; fails with `MalformedFrame` on an undecodable inspected
/// payload, and with `ProtocolViolation` on a DataRow without a binding or
/// with the wrong cell count.
#[verifier::opaque]
pub open spec fn step_frame(
    m: PipeModel,
    intercept: bool,
    tag: Option<u8>,
    payload: Seq<u8>,
) -> StepOut {
    if !intercept || !(tag == Some(TAG_ROW_DESCRIPTION) || tag == Some(TAG_DATA_ROW)) {
        StepOut::Emit { out: frame_bytes(FrameModel { tag, payload }), bound: m.bound }
    } else if tag == Some(TAG_ROW_DESCRIPTION) {
        match spec_parse_row_description(payload) {
            None => StepOut::Fail { err: ProxyError::MalformedFrame },
            Some(fields) => StepOut::Emit {
                out: frame_bytes(FrameModel { tag, payload }),
                bound: Some(fields),
            },
        }
    } else {
        match spec_parse_data_row(payload) {
            None => StepOut::Fail { err: ProxyError::MalformedFrame },
            Some(cells) => match m.bound {
                None => StepOut::Fail { err: ProxyError::ProtocolViolation },
                Some(fields) => if cells.len() != fields.len() {
                    StepOut::Fail { err: ProxyError::ProtocolViolation }
                } else {
                    StepOut::Emit {
                        out: frame_bytes(
                            FrameModel {
                                tag,
                                payload: data_row_bytes(model_masked_row(m, cells)),
                            },
                        ),
                        bound: m.bound,
                    }
                },
            },
        }
    }
}

/// Everything a buffer of bytes makes the pipeline do: the bytes emitted,
/// the binding afterwards, the bytes left buffered, and the error that
/// stopped it, if one did.
pub struct PipeRun {
    pub out: Seq<u8>,
    pub bound: Option<Seq<FieldModel>>,
    pub rest: Seq<u8>,
    pub err: Option<ProxyError>,
}

/// Runs the pipeline over every complete frame at the front of `b`.
#[verifier::opaque]
pub open spec fn run_frames(
    m: PipeModel,
    intercept: bool,
    b: Seq<u8>,
    untagged: bool,
    max: int,
) -> PipeRun
    decreases b.len(),
{
    match parse_one(b, untagged, max) {
        ParseOutcome::NeedMore => PipeRun {
            out: Seq::empty(),
            bound: m.bound,
            rest: b,
            err: None,
        },
        ParseOutcome::Bad => PipeRun {
            out: Seq::empty(),
            bound: m.bound,
            rest: b,
            err: Some(ProxyError::MalformedFrame),
        },
        ParseOutcome::Done { tag, payload, rest } => match step_frame(m, intercept, tag, payload) {
            StepOut::Fail { err } => PipeRun {
                out: Seq::empty(),
                bound: m.bound,
                rest,
                err: Some(err),
            },
            StepOut::Emit { out, bound } => {
                let m2 = PipeModel { rules: m.rules, heur: m.heur, bound };
                let tail = run_frames(m2, intercept, rest, false, max);
                PipeRun {
                    out: out + tail.out,
                    bound: tail.bound,
                    rest: tail.rest,
                    err: tail.err,
                }
            },
        },
    }
}

/// One direction of one connection: the streaming decoder, the anonymizer,
/// and whether this direction intercepts (the server-to-client direction
/// does; the client-to-server direction passes through).
pub struct Session {
    decoder: Decoder,
    anonymizer: Anonymizer,
    intercept: bool,
    bound_cols: Option<usize>,
    bound_fields: Ghost<Option<Seq<FieldModel>>>,
}

impl Session {
    /// The bytes fed and not yet consumed as frames.
    pub closed spec fn buffered(self) -> Seq<u8> {
        self.decoder.buffered()
    }

    /// Whether the next frame is decoded without a tag byte.
    pub closed spec fn next_untagged(self) -> bool {
        self.decoder.next_untagged()
    }

    /// The frame ceiling.
    pub closed spec fn max(self) -> int {
        self.decoder.max()
    }

    /// Whether this direction rewrites result-set cells.
    pub closed spec fn is_intercepting(self) -> bool {
        self.intercept
    }

    /// The ghost state the pipeline decides with.
    pub closed spec fn model(self) -> PipeModel {
        PipeModel {
            rules: self.anonymizer.rules(),
            heur: self.anonymizer.heuristic_enabled(),
            bound: self.bound_fields@,
        }
    }

    /// How many cells this session has rewritten, saturating at the
    /// counter's ceiling.
    pub closed spec fn masked_total(self) -> u64 {
        self.anonymizer.masked_total()
    }

    pub closed spec fn wf(self) -> bool {
        &&& self.decoder.wf()
        &&& forall|i: int|
            table_lookup(self.anonymizer.targets(), i) == (match self.bound_fields@ {
                Some(fields) => spec_column_strategy(fields, self.anonymizer.rules(), i),
                None => None::<Strategy>,
            })
        &&& match self.bound_fields@ {
            Some(fields) => {
                &&& fields.len() <= 0xFFFF
                &&& self.bound_cols == Some(fields.len() as usize)
            },
            None => self.bound_cols is None,
        }
    }

    /// The intercepting, server-to-client session over a configuration
    /// snapshot. Frames on this stream are all tagged.
    pub fn new_intercepting(config: AppConfig) -> (s: Session)
        ensures
            s.wf(),
            s.is_intercepting(),
            s.buffered() == Seq::<u8>::empty(),
            !s.next_untagged(),
            s.model().rules == config.rules_model(),
            s.model().heur == config.masking_enabled,
            s.model().bound is None,
            s.masked_total() == 0,
    {
        let anonymizer = Anonymizer::new(config);
        proof {
            crate::interceptor::lemma_table_lookup_empty();
        }
        Session {
            decoder: Decoder::new(false),
            anonymizer,
            intercept: true,
            bound_cols: None,
            bound_fields: Ghost(None),
        }
    }

    /// The pass-through, client-to-server session: every frame re-emitted
    /// verbatim, the first frame being the untagged startup frame.
    pub fn new_passthrough() -> (s: Session)
        ensures
            s.wf(),
            !s.is_intercepting(),
            s.buffered() == Seq::<u8>::empty(),
            s.next_untagged(),
            s.model().bound is None,
            s.masked_total() == 0,
    {
        let config = AppConfig { masking_enabled: false, rules: Vec::new(), tls: None };
        let anonymizer = Anonymizer::new(config);
        proof {
            crate::interceptor::lemma_table_lookup_empty();
        }
        Session {
            decoder: Decoder::new(true),
            anonymizer,
            intercept: false,
            bound_cols: None,
            bound_fields: Ghost(None),
        }
    }

    /// How many cells this session has rewritten so far.
    pub fn masked_cells_total(&self) -> (n: u64)
        ensures
            n == self.masked_total(),
    {
        self.anonymizer.masked_total_read()
    }

    /// Carries one complete frame through the pipeline: emits its bytes to
    /// `out` and updates the binding, exactly as `step_frame` says.
    #[verifier::rlimit(100)]
    fn dispatch_frame(&mut self, frame: Frame, out: &mut Vec<u8>) -> (r: Result<(), ProxyError>)
        requires
            old(self).wf(),
            frame_wf(frame@, old(self).max()),
        ensures
            final(self).wf(),
            final(self).buffered() == old(self).buffered(),
            final(self).next_untagged() == old(self).next_untagged(),
            final(self).max() == old(self).max(),
            final(self).is_intercepting() == old(self).is_intercepting(),
            final(self).model().rules == old(self).model().rules,
            final(self).model().heur == old(self).model().heur,
            final(self).masked_total() >= old(self).masked_total(),
            match step_frame(
                old(self).model(),
                old(self).is_intercepting(),
                frame@.tag,
                frame@.payload,
            ) {
                StepOut::Emit { out: o, bound } => r is Ok && final(out)@ == old(out)@ + o
                    && final(self).model().bound == bound,
                StepOut::Fail { err } => r matches Err(e) && e == err,
            },
    {
        let ghost m_pre = self.model();
        let ghost tag = frame@.tag;
        let ghost payload = frame@.payload;
        proof {
            reveal(step_frame);
            crate::codec::lemma_decoder_wf_bounds(&self.decoder);
        }
        let is_t = match frame.tag {
            Some(t) => t == TAG_ROW_DESCRIPTION,
            None => false,
        };
        let is_d = match frame.tag {
            Some(t) => t == TAG_DATA_ROW,
            None => false,
        };
        if !self.intercept || (!is_t && !is_d) {
            encode_frame(out, &frame);
            return Ok(());
        }
        if is_t {
            match parse_row_description(frame.payload.as_slice()) {
                None => Err(ProxyError::MalformedFrame),
                Some(desc) => {
                    proof {
                        lemma_row_description_count(payload);
                    }
                    self.anonymizer.apply_row_description(&desc);
                    self.bound_cols = Some(desc.fields.len());
                    self.bound_fields = Ghost(Some(desc@));
                    encode_frame(out, &frame);
                    Ok(())
                },
            }
        } else {
            match parse_data_row(frame.payload.as_slice()) {
                None => Err(ProxyError::MalformedFrame),
                Some(row) => {
                    let nc = match self.bound_cols {
                        None => {
                            return Err(ProxyError::ProtocolViolation);
                        },
                        Some(nc) => nc,
                    };
                    if row.values.len() != nc {
                        return Err(ProxyError::ProtocolViolation);
                    }
                    let ghost cells = row@;
                    let masked = match self.anonymizer.mask_data_row(row) {
                        Ok(masked) => masked,
                        Err(e) => {
                            return Err(e);
                        },
                    };
                    proof {
                        assert(masked@ =~= model_masked_row(m_pre, cells));
                        lemma_masked_row_fits(m_pre, cells, payload, old(self).max());
                    }
                    let mut row_payload: Vec<u8> = Vec::new();
                    encode_data_row(&mut row_payload, &masked);
                    encode_tagged(out, TAG_DATA_ROW, row_payload.as_slice());
                    Ok(())
                },
            }
        }
    }

    /// Feeds one chunk of the stream, with whatever boundaries the
    /// transport chose, and returns the bytes to forward. The whole effect
    /// equals `run_frames` over everything buffered plus the chunk: frames
    /// are emitted in arrival order, opaque frames byte-for-byte, inspected
    /// frames as the model says, and an error reports the first failure.
    #[verifier::rlimit(100)]
    pub fn process_chunk(&mut self, input: &[u8]) -> (r: Result<Vec<u8>, ProxyError>)
        requires
            old(self).wf(),
        ensures
            final(self).wf(),
            final(self).is_intercepting() == old(self).is_intercepting(),
            final(self).max() == old(self).max(),
            final(self).model().rules == old(self).model().rules,
            final(self).model().heur == old(self).model().heur,
            final(self).masked_total() >= old(self).masked_total(),
            ({
                let run = run_frames(
                    old(self).model(),
                    old(self).is_intercepting(),
                    old(self).buffered() + input@,
                    old(self).next_untagged(),
                    old(self).max(),
                );
                match r {
                    Ok(out) => run.err is None && out@ == run.out && final(self).buffered()
                        == run.rest && final(self).model().bound == run.bound,
                    Err(e) => run.err == Some(e),
                }
            }),
    {
        let ghost m0 = old(self).model();
        let ghost icpt = old(self).is_intercepting();
        let ghost b0 = old(self).buffered() + input@;
        let ghost u0 = old(self).next_untagged();
        let ghost max0 = old(self).max();
        let ghost masked0 = old(self).masked_total();
        self.decoder.feed(input);
        let mut out: Vec<u8> = Vec::new();
        let mut done = false;
        let ghost full = run_frames(m0, icpt, b0, u0, max0);
        proof {
            assert(out@ + run_frames(self.model(), icpt, self.buffered(), self.next_untagged(),
                max0).out =~= run_frames(m0, icpt, b0, u0, max0).out);
        }
        while !done
            invariant
                self.wf(),
                icpt == old(self).is_intercepting(),
                max0 == old(self).max(),
                m0 == old(self).model(),
                b0 == old(self).buffered() + input@,
                u0 == old(self).next_untagged(),
                masked0 == old(self).masked_total(),
                self.intercept == icpt,
                self.decoder.max() == max0,
                self.anonymizer.rules() == m0.rules,
                self.anonymizer.heuristic_enabled() == m0.heur,
                self.anonymizer.masked_total() >= masked0,
                full == run_frames(m0, icpt, b0, u0, max0),
                ({
                    let cur = run_frames(
                        self.model(),
                        icpt,
                        self.buffered(),
                        self.next_untagged(),
                        max0,
                    );
                    full.err == cur.err && full.out == out@ + cur.out && full.rest == cur.rest
                        && full.bound == cur.bound
                }),
                done ==> parse_one(self.buffered(), self.next_untagged(), max0)
                    matches ParseOutcome::NeedMore,
            decreases self.buffered().len() + (if done { 0int } else { 1 }),
        {
            let ghost m_pre = self.model();
            let ghost buf_pre = self.buffered();
            let ghost unt_pre = self.next_untagged();
            let ghost out_pre = out@;
            match self.decoder.next_frame() {
                Err(e) => {
                    proof {
                        reveal_with_fuel(run_frames, 1);
                        assert(run_frames(m_pre, icpt, buf_pre, unt_pre, max0).err == Some(
                            ProxyError::MalformedFrame,
                        ));
                    }
                    return Err(e);
                },
                Ok(None) => {
                    done = true;
                    proof {
                        reveal_with_fuel(run_frames, 1);
                    }
                },
                Ok(Some(frame)) => {
                    proof {
                        lemma_parse_one_exact(buf_pre, unt_pre, max0);
                    }
                    let ghost tag = frame@.tag;
                    let ghost payload = frame@.payload;
                    let ghost rest = self.buffered();
                    match self.dispatch_frame(frame, &mut out) {
                        Err(e) => {
                            proof {
                                reveal_with_fuel(run_frames, 1);
                                match step_frame(m_pre, icpt, tag, payload) {
                                    StepOut::Emit { out: o, bound } => {},
                                    StepOut::Fail { err } => {
                                        assert(err == e);
                                        assert(run_frames(m_pre, icpt, buf_pre, unt_pre, max0).err
                                            == Some(e));
                                    },
                                }
                            }
                            return Err(e);
                        },
                        Ok(()) => {
                            proof {
                                reveal_with_fuel(run_frames, 1);
                                match step_frame(m_pre, icpt, tag, payload) {
                                    StepOut::Emit { out: o, bound } => {
                                        let m2 = PipeModel {
                                            rules: m_pre.rules,
                                            heur: m_pre.heur,
                                            bound,
                                        };
                                        let tail = run_frames(m2, icpt, rest, false, max0);
                                        assert(run_frames(m_pre, icpt, buf_pre, unt_pre, max0).out
                                            == o + tail.out);
                                        assert((out_pre + (o + tail.out)) =~= ((out_pre + o)
                                            + tail.out));
                                    },
                                    StepOut::Fail { err } => {},
                                }
                            }
                        },
                    }
                },
            }
        }
        proof {
            reveal_with_fuel(run_frames, 1);
            let cur = run_frames(self.model(), icpt, self.buffered(), self.next_untagged(), max0);
            assert(out@ + cur.out =~= out@);
        }
        Ok(out)
    }

    /// The stream may end now only if no partial frame is buffered; a
    /// half-received frame at end-of-stream is an `UnexpectedEof`.
    pub fn finish(&self) -> (r: Result<(), ProxyError>)
        ensures
            match r {
                Ok(()) => self.buffered().len() == 0,
                Err(e) => e == ProxyError::UnexpectedEof && self.buffered().len() > 0,
            },
    {
        if self.decoder.buffer_is_empty() {
            Ok(())
        } else {
            Err(ProxyError::UnexpectedEof)
        }
    }
}

/// The emitted form of a rewritten row still fits a frame: every rewritten
/// cell is at most 32 bytes or unchanged, so the payload grows by at most
/// 32 bytes per cell over the original.
proof fn lemma_masked_row_fits(m: PipeModel, cells: Seq<Option<Seq<u8>>>, payload: Seq<u8>, max: int)
    requires
        spec_parse_data_row(payload) == Some(cells),
        cells.len() <= 0xFFFF,
        payload.len() + 4 <= max,
        max <= 0x4000_0000,
    ensures
        data_row_bytes(model_masked_row(m, cells)).len() + 4 <= 0xFFFF_FFFF,
{
    let masked = model_masked_row(m, cells);
    lemma_data_row_exact(payload);
    assert forall|i: int|
        0 <= i < masked.len() implies cell_bytes(#[trigger] masked[i]).len() <= cell_bytes(
        cells[i],
    ).len() + 32 by {
        lemma_masked_cell_size(m, i, cells[i]);
    }
    lemma_cells_bytes_len_bound(masked, cells);
    assert(cells_bytes(masked).len() <= cells_bytes(cells).len() + 32 * cells.len());
}

/// One rewritten cell takes at most 32 bytes more than the original on the
/// wire.
proof fn lemma_masked_cell_size(m: PipeModel, i: int, c: Option<Seq<u8>>)
    ensures
        cell_bytes(model_masked_cell(m, i, c)).len() <= cell_bytes(c).len() + 32,
{
    match c {
        None => {},
        Some(v) => {
            match model_cell_strategy(m, i, v) {
                None => {},
                Some(s) => {
                    crate::faker::lemma_mask_spec_len(v, s);
                },
            }
        },
    }
}

/// Pointwise cell-size bounds add up over a row.
proof fn lemma_cells_bytes_len_bound(a: Seq<Option<Seq<u8>>>, b: Seq<Option<Seq<u8>>>)
    requires
        a.len() == b.len(),
        forall|i: int|
            0 <= i < a.len() ==> cell_bytes(#[trigger] a[i]).len() <= cell_bytes(b[i]).len() + 32,
    ensures
        cells_bytes(a).len() <= cells_bytes(b).len() + 32 * a.len(),
    decreases a.len(),
{
    if a.len() > 0 {
        assert(forall|i: int|
            0 <= i < a.drop_first().len() ==> #[trigger] a.drop_first()[i] == a[i + 1]
                && b.drop_first()[i] == b[i + 1]);
        lemma_cells_bytes_len_bound(a.drop_first(), b.drop_first());
        assert(cell_bytes(a[0]).len() <= cell_bytes(b[0]).len() + 32);
    }
}

/// Chunking-independence of the pipeline: a buffer may be drained of its
/// complete frames before more bytes arrive, and the whole stream's effect
/// is the effect so far followed by the effect of the leftover bytes with
/// the new chunk appended — whatever boundaries the transport chose. The
/// leftover never grows, and the continuation is untagged only when
/// nothing was consumed.
pub proof fn lemma_run_frames_extend(
    m: PipeModel,
    intercept: bool,
    b: Seq<u8>,
    ext: Seq<u8>,
    untagged: bool,
    max: int,
)
    requires
        run_frames(m, intercept, b, untagged, max).err is None,
    ensures
        run_frames(m, intercept, b, untagged, max).rest.len() <= b.len(),
        ({
            let p = run_frames(m, intercept, b, untagged, max);
            let u2 = if p.rest.len() == b.len() {
                untagged
            } else {
                false
            };
            let m2 = PipeModel { rules: m.rules, heur: m.heur, bound: p.bound };
            let q = run_frames(m2, intercept, p.rest + ext, u2, max);
            let whole = run_frames(m, intercept, b + ext, untagged, max);
            whole.out =~= p.out + q.out && whole.rest =~= q.rest && whole.err == q.err
                && whole.bound == q.bound
        }),
    decreases b.len(),
{
    reveal_with_fuel(run_frames, 1);
    crate::codec::lemma_parse_one_extend(b, ext, untagged, max);
    let p = run_frames(m, intercept, b, untagged, max);
    match parse_one(b, untagged, max) {
        ParseOutcome::NeedMore => {
            assert(p.rest =~= b);
            let m2 = PipeModel { rules: m.rules, heur: m.heur, bound: p.bound };
            let q = run_frames(m2, intercept, b + ext, untagged, max);
            assert(p.rest + ext =~= b + ext);
            assert(p.out + q.out =~= q.out);
        },
        ParseOutcome::Bad => {},
        ParseOutcome::Done { tag, payload, rest } => {
            assert(rest.len() < b.len());
            match step_frame(m, intercept, tag, payload) {
                StepOut::Fail { err } => {},
                StepOut::Emit { out, bound } => {
                    let mt = PipeModel { rules: m.rules, heur: m.heur, bound };
                    let tail = run_frames(mt, intercept, rest, false, max);
                    lemma_run_frames_extend(mt, intercept, rest, ext, false, max);
                    let m2 = PipeModel { rules: m.rules, heur: m.heur, bound: p.bound };
                    let q = run_frames(m2, intercept, tail.rest + ext, false, max);
                    assert(p.rest.len() < b.len());
                    assert(run_frames(m, intercept, b + ext, untagged, max).out =~= out
                        + (tail.out + q.out));
                    assert(out + (tail.out + q.out) =~= (out + tail.out) + q.out);
                },
            }
        },
    }
}

/// Pass-through equivalence: with no rules and the heuristic disabled, the
/// pipeline's output, followed by whatever stays buffered, is byte-for-byte
/// the input stream, whenever no frame was malformed.
#[verifier::rlimit(100)]
pub proof fn lemma_passthrough_equivalence(
    m: PipeModel,
    intercept: bool,
    b: Seq<u8>,
    untagged: bool,
    max: int,
)
    requires
        m.rules.len() == 0,
        !m.heur,
        max <= 0x4000_0000,
        run_frames(m, intercept, b, untagged, max).err is None,
    ensures
        run_frames(m, intercept, b, untagged, max).out + run_frames(
            m,
            intercept,
            b,
            untagged,
            max,
        ).rest =~= b,
    decreases b.len(),
{
    reveal_with_fuel(run_frames, 1);
    let run = run_frames(m, intercept, b, untagged, max);
    match parse_one(b, untagged, max) {
        ParseOutcome::NeedMore => {
            assert(run.out + run.rest =~= b);
        },
        ParseOutcome::Bad => {},
        ParseOutcome::Done { tag, payload, rest } => {
            lemma_parse_one_exact(b, untagged, max);
            match step_frame(m, intercept, tag, payload) {
                StepOut::Fail { err } => {},
                StepOut::Emit { out, bound } => {
                    let m2 = PipeModel { rules: m.rules, heur: m.heur, bound };
                    lemma_passthrough_equivalence(m2, intercept, rest, false, max);
                    let tail = run_frames(m2, intercept, rest, false, max);
                    lemma_step_verbatim(m, intercept, tag, payload);
                    assert(b =~= frame_bytes(FrameModel { tag, payload }) + rest);
                    assert(run.out + run.rest =~= out + (tail.out + tail.rest));
                    assert(out + (tail.out + tail.rest) =~= b);
                },
            }
        },
    }
}

/// Column-count preservation: rewriting a row never adds or drops a cell,
/// and `step_frame` emits a DataRow only when its decoded cell count equals
/// the bound RowDescription's field count — so every emitted DataRow has
/// exactly the binding's column count.
pub proof fn lemma_column_count_preserved(m: PipeModel, cells: Seq<Option<Seq<u8>>>)
    ensures
        model_masked_row(m, cells).len() == cells.len(),
{
}

/// With no rules and the heuristic off, whatever one frame emits is the
/// frame's own wire form.
proof fn lemma_step_verbatim(m: PipeModel, intercept: bool, tag: Option<u8>, payload: Seq<u8>)
    requires
        m.rules.len() == 0,
        !m.heur,
        step_frame(m, intercept, tag, payload) matches StepOut::Emit { out: _, bound: _ },
    ensures
        step_frame(m, intercept, tag, payload) matches StepOut::Emit { out, bound } && out
            =~= frame_bytes(FrameModel { tag, payload }),
{
    reveal(step_frame);
    if intercept && tag == Some(TAG_DATA_ROW) && !(tag == Some(TAG_ROW_DESCRIPTION)) {
        match spec_parse_data_row(payload) {
            None => {},
            Some(cells) => {
                match m.bound {
                    None => {},
                    Some(fields) => {
                        if cells.len() == fields.len() {
                            lemma_no_rules_row_unchanged(m, cells);
                            lemma_data_row_exact(payload);
                        }
                    },
                }
            },
        }
    }
}

/// With no rules and the heuristic off, a rewritten row is the row itself.
proof fn lemma_no_rules_row_unchanged(m: PipeModel, cells: Seq<Option<Seq<u8>>>)
    requires
        m.rules.len() == 0,
        !m.heur,
    ensures
        model_masked_row(m, cells) =~= cells,
{
    assert forall|i: int| 0 <= i < cells.len() implies model_masked_cell(m, i, #[trigger] cells[i])
        == cells[i] by {
        match m.bound {
            Some(fields) => {
                assert(crate::interceptor::first_rule_strategy(m.rules, fields[i]) is None);
            },
            None => {},
        }
    }
}

} // verus!
