//! Stateful, bounded export: a recorded path replayed over a byte stream one
//! chunk at a time. Each decoder owns its partial multibyte sequence, and any
//! newly discovered loss stops the export.
use crate::codec::{decode, decode_text_spec, encode, encode_spec, latin1_text, parse_label, Codec};
use crate::models::TransformationStep;
use crate::strings::{starts_with, string_from_chars};
use crate::strings::has_prefix;
use crate::whatwg::{decode_stream_chunk, new_stream_decoder, stream_decoded, StreamDecoder};
use vstd::prelude::*;
use vstd::utf8::encode_utf8;

verus! {

/// What a stage of a replayed path does.
#[derive(Clone, Copy, Debug, PartialEq, Eq, Structural)]
pub enum StageKind {
    Decode(Codec),
    Encode(Codec),
}

/// Data between two stages.
pub enum Chunk {
    Bytes(Vec<u8>),
    Text(String),
}

/// One stage of a replayed path. A decoding stage keeps the input bytes not
/// yet accounted for by the text it has emitted.
pub struct Stage {
    pub kind: StageKind,
    pub decoder: Option<StreamDecoder>,
    pub pending: Vec<u8>,
}

/// Literal ISO-8859-1 needs no decoder; every other decoding stage has one.
pub open spec fn stage_wf(stage: &Stage) -> bool {
    match stage.kind {
        StageKind::Decode(codec) => (stage.decoder is Some <==> !(codec is Latin1)) && (stage.decoder matches Some(
            d,
        ) ==> d.codec() == codec),
        StageKind::Encode(_) => stage.decoder is None,
    }
}

/// The stage's decoder, if any, may still be used.
pub open spec fn stage_ready(stage: &Stage) -> bool {
    stage.decoder matches Some(d) ==> d.usable()
}

/// What a stage holds as far as its results go: its kind, the bytes its
/// decoder was given, and the bytes it keeps pending. Whether its decoder
/// may still be used decides no result; the contracts state it apart, with
/// `stage_ready`.
pub struct StageModel {
    pub kind: StageKind,
    pub fed: Seq<u8>,
    pub pending: Seq<u8>,
}

pub open spec fn stage_model(stage: &Stage) -> StageModel {
    StageModel {
        kind: stage.kind,
        fed: match stage.decoder {
            Some(d) => d.fed(),
            None => Seq::<u8>::empty(),
        },
        pending: stage.pending@,
    }
}

/// The data between two stages, as values.
pub enum ChunkModel {
    Bytes(Seq<u8>),
    Text(Seq<char>),
}

pub open spec fn chunk_model(chunk: &Chunk) -> ChunkModel {
    match chunk {
        Chunk::Bytes(b) => ChunkModel::Bytes(b@),
        Chunk::Text(t) => ChunkModel::Text(t@),
    }
}

/// What a decoding stage keeps of its decoder's output `decoded` (the text,
/// whether the decoder consumed all its input, whether it met malformed
/// input) for the chunk `bytes`, with `pending` bytes waiting before: the
/// text and the bytes still waiting. It refuses malformed input, a decoder
/// that stopped short, text that does not encode back to a prefix of the
/// bytes read, more than 16 bytes waiting, or any waiting at the end.
pub open spec fn accept_spec(
    codec: Codec,
    pending: Seq<u8>,
    bytes: Seq<u8>,
    decoded: (Seq<char>, bool, bool),
    last: bool,
) -> Result<(Seq<char>, Seq<u8>), Seq<char>> {
    let (t, empty, errors) = decoded;
    if errors || !empty {
        Err(export_loss())
    } else {
        match encode_spec(codec, t) {
            Err(_) => Err(export_loss()),
            Ok(restored) => {
                let all = pending + bytes;
                if !has_prefix(all, restored) {
                    Err(export_loss())
                } else {
                    let rest = all.skip(restored.len() as int);
                    if (last && rest.len() != 0) || rest.len() > 16 {
                        Err(export_loss())
                    } else {
                        Ok((t, rest))
                    }
                }
            },
        }
    }
}

/// The text a decoding stage writes for one chunk, given what its decoder
/// returned (`text`, whether the input was all consumed, whether malformed
/// input was met), and the bytes that then wait; see `accept_spec`.
pub fn accept_decoded(
    codec: Codec,
    pending: Vec<u8>,
    bytes: &[u8],
    text: String,
    input_empty: bool,
    errors: bool,
    last: bool,
) -> (r: Result<(String, Vec<u8>), String>)
    requires
        pending@.len() + bytes@.len() <= usize::MAX,
    ensures
        match r {
            Ok((t, rest)) => accept_spec(codec, pending@, bytes@, (text@, input_empty, errors), last) == Ok::<
                (Seq<char>, Seq<u8>),
                Seq<char>,
            >((t@, rest@)),
            Err(e) => accept_spec(codec, pending@, bytes@, (text@, input_empty, errors), last) == Err::<
                (Seq<char>, Seq<u8>),
                Seq<char>,
            >(e@),
        },
{
    if errors || !input_empty {
        return Err(owned("export_loss_detected"));
    }
    let ghost pv = pending@;
    let mut all = pending;
    all.extend_from_slice(bytes);
    assert(all@ == pv + bytes@);
    let restored = match encode(text.as_str(), codec) {
        Ok(restored) => restored,
        Err(_) => return Err(owned("export_loss_detected")),
    };
    assert(encode_spec(codec, text@) == Ok::<Seq<u8>, Seq<char>>(restored@));
    if !starts_with(all.as_slice(), restored.as_slice()) {
        return Err(owned("export_loss_detected"));
    }
    let rest = vstd::slice::slice_to_vec(vstd::slice::slice_subrange(all.as_slice(), restored.len(), all.len()));
    assert(rest@ =~= all@.skip(restored@.len() as int));
    if (last && rest.len() != 0) || rest.len() > 16 {
        return Err(owned("export_loss_detected"));
    }
    Ok((text, rest))
}

/// What a stage does with one chunk: literal ISO-8859-1 maps each byte to
/// its character; another decoding stage takes what its decoder writes
/// (`stream_decoded`) and refuses malformed input, a decoder that stops
/// short, text that does not encode back to the bytes read, more than 16
/// bytes waiting, or any waiting at the end; an encoding stage refuses text
/// that its codec cannot encode or that does not decode back. A chunk of
/// the wrong kind is an invalid transformation.
pub open spec fn apply_spec(m: StageModel, input: ChunkModel, last: bool) -> Result<(StageModel, ChunkModel), Seq<char>> {
    match (m.kind, input) {
        (StageKind::Decode(c), ChunkModel::Bytes(b)) => if c is Latin1 {
            Ok((m, ChunkModel::Text(latin1_text(b))))
        } else {
            match accept_spec(c, m.pending, b, stream_decoded(c, m.fed, b, last), last) {
                Ok((t, rest)) => Ok((StageModel { kind: m.kind, fed: m.fed + b, pending: rest }, ChunkModel::Text(t))),
                Err(e) => Err(e),
            }
        },
        (StageKind::Encode(c), ChunkModel::Text(t)) => match encode_spec(c, t) {
            Ok(b) => if decode_text_spec(b, c).0 == t {
                Ok((m, ChunkModel::Bytes(b)))
            } else {
                Err(export_loss())
            },
            Err(_) => Err(export_loss()),
        },
        _ => Err(invalid_transformation()),
    }
}

/// `r` is what `apply_spec` gives for the stage before, with `after` the
/// stage after.
pub open spec fn apply_exact(before: &Stage, after: &Stage, input: &Chunk, last: bool, r: &Result<Chunk, String>) -> bool {
    match r {
        Ok(out) => apply_spec(stage_model(before), chunk_model(input), last) == Ok::<(StageModel, ChunkModel), Seq<char>>(
            (stage_model(after), chunk_model(out)),
        ),
        Err(e) => apply_spec(stage_model(before), chunk_model(input), last) == Err::<(StageModel, ChunkModel), Seq<char>>(e@),
    }
}

/// Size of a chunk: bytes, or the UTF-8 length of text.
pub open spec fn chunk_size(chunk: &Chunk) -> nat {
    match chunk {
        Chunk::Bytes(b) => b@.len(),
        Chunk::Text(t) => encode_utf8(t@).len(),
    }
}

/// Largest output a stage produces for an input of size `n`.
pub open spec fn stage_output_bound(kind: StageKind, n: nat) -> nat {
    match kind {
        StageKind::Decode(_) => 3 * n + 32,
        StageKind::Encode(_) => 2 * n + 2,
    }
}

/// Inputs that a stage's buffer arithmetic can take.
pub open spec fn stage_input_fits(kind: StageKind, n: nat) -> bool {
    match kind {
        StageKind::Decode(_) => n <= usize::MAX / 8,
        StageKind::Encode(_) => n <= usize::MAX / 32,
    }
}

pub open spec fn export_loss() -> Seq<char> {
    "export_loss_detected"@
}

pub open spec fn invalid_transformation() -> Seq<char> {
    "invalid_transformation"@
}

/// What `Stage::apply` guarantees.
pub open spec fn apply_result(
    before: &Stage,
    after: &Stage,
    input: &Chunk,
    last: bool,
    r: &Result<Chunk, String>,
) -> bool {
    &&& after.kind == before.kind
    &&& stage_wf(after)
    &&& (r is Ok ==> after.pending@.len() <= 16)
    &&& (r matches Ok(out) ==> chunk_size(&out) <= stage_output_bound(before.kind, chunk_size(input)))
    &&& match (before.kind, input) {
        (StageKind::Decode(codec), Chunk::Bytes(bytes)) => if codec is Latin1 {
            r matches Ok(Chunk::Text(t)) && t@ == latin1_text(bytes@) && after.pending@ == before.pending@
        } else {
            match r {
                Ok(Chunk::Text(t)) => {
                    // The emitted text re-encodes to exactly the consumed
                    // bytes; at most 16 bytes wait, and none at the end.
                    &&& encode_spec(codec, t@) is Ok
                    &&& before.pending@ + bytes@ == encode_spec(codec, t@)->Ok_0 + after.pending@
                    &&& after.pending@.len() <= 16
                    &&& (last ==> after.pending@.len() == 0)
                },
                Ok(Chunk::Bytes(_)) => false,
                Err(e) => e@ == export_loss(),
            }
        },
        (StageKind::Encode(codec), Chunk::Text(text)) => match encode_spec(codec, text@) {
            Ok(bytes) => if decode_text_spec(bytes, codec).0 == text@ {
                r matches Ok(Chunk::Bytes(b)) && b@ == bytes
            } else {
                r matches Err(e) && e@ == export_loss()
            },
            Err(_) => r matches Err(e) && e@ == export_loss(),
        },
        _ => r matches Err(e) && e@ == invalid_transformation(),
    }
}

fn owned(s: &str) -> (r: String)
    ensures
        r@ == s@,
{
    s.to_owned()
}

fn latin1_chunk(bytes: &[u8]) -> (r: String)
    ensures
        r@ == latin1_text(bytes@),
{
    let mut out: Vec<char> = Vec::new();
    let mut i: usize = 0;
    while i < bytes.len()
        invariant
            i <= bytes@.len(),
            out@ == latin1_text(bytes@.take(i as int)),
        decreases bytes@.len() - i,
    {
        out.push(bytes[i] as char);
        assert(out@ =~= latin1_text(bytes@.take(i + 1)));
        i = i + 1;
    }
    assert(bytes@.take(bytes@.len() as int) == bytes@);
    string_from_chars(out.as_slice())
}

impl Stage {
    /// A fresh stage; decoding stages other than ISO-8859-1 get a decoder
    /// without BOM handling.
    pub fn new(kind: StageKind) -> (r: Stage)
        ensures
            r.kind == kind,
            r.pending@.len() == 0,
            stage_wf(&r),
            stage_ready(&r),
            stage_model(&r) == (StageModel { kind, fed: Seq::<u8>::empty(), pending: Seq::<u8>::empty() }),
    {
        let decoder = match kind {
            StageKind::Decode(codec) => if codec.encoding().is_some() {
                Some(new_stream_decoder(codec))
            } else {
                None
            },
            StageKind::Encode(_) => None,
        };
        let r = Stage { kind, decoder, pending: Vec::new() };
        assert(r.pending@ =~= Seq::<u8>::empty());
        r
    }

    /// Passes one chunk through the stage; `last` marks the end of the stream.
    /// Decoding checks canonical re-encoding too, not only malformed input:
    /// a decoder may consume partial bytes without emitting text yet. The
    /// decoder gets room for three bytes per input byte plus 32, which covers
    /// encoding_rs's worst case for these codecs; a decoder that stopped
    /// before the end of its input would be reported as loss.
    pub fn apply(&mut self, input: Chunk, last: bool) -> (r: Result<Chunk, String>)
        requires
            stage_wf(old(self)),
            stage_ready(old(self)),
            stage_input_fits(old(self).kind, chunk_size(&input)),
            old(self).pending@.len() <= 16,
        ensures
            apply_result(old(self), final(self), &input, last, &r),
            apply_exact(old(self), final(self), &input, last, &r),
            r is Ok ==> (stage_ready(final(self)) || last),
    {
        match (self.kind, input) {
            (StageKind::Decode(codec), Chunk::Bytes(bytes)) => {
                if self.decoder.is_none() {
                    proof {
                        crate::codec::lemma_latin1_utf8_len(bytes@);
                    }
                    return Ok(Chunk::Text(latin1_chunk(bytes.as_slice())));
                }
                let mut decoder = self.decoder.take().unwrap();
                let ghost d0 = decoder;
                let (text, input_empty, errors) = decode_stream_chunk(&mut decoder, bytes.as_slice(), last);
                self.decoder = Some(decoder);
                proof {
                    assert(d0.codec() == codec);
                    assert(stream_decoded(codec, stage_model(old(self)).fed, bytes@, last) == (text@, input_empty, errors));
                }
                let mut pending = Vec::new();
                std::mem::swap(&mut pending, &mut self.pending);
                match accept_decoded(codec, pending, bytes.as_slice(), text, input_empty, errors, last) {
                    Ok((text, rest)) => {
                        proof {
                            let restored = encode_spec(codec, text@)->Ok_0;
                            assert(old(self).pending@ + bytes@ =~= restored + rest@);
                        }
                        self.pending = rest;
                        Ok(Chunk::Text(text))
                    },
                    Err(e) => Err(e),
                }
            },
            (StageKind::Encode(codec), Chunk::Text(text)) => {
                let bytes = match encode(text.as_str(), codec) {
                    Ok(bytes) => bytes,
                    Err(_) => return Err(owned("export_loss_detected")),
                };
                if decode(bytes.as_slice(), codec).text != text {
                    return Err(owned("export_loss_detected"));
                }
                Ok(Chunk::Bytes(bytes))
            },
            _ => Err(owned("invalid_transformation")),
        }
    }
}


// ---------------------------------------------------------------------------
// Replaying a whole path

/// The stage for step `i` of a path: decoding at even positions, encoding at
/// odd ones, with the step's codec label.
pub open spec fn step_stage(step: TransformationStep, i: int) -> Result<StageKind, Seq<char>> {
    match parse_label(step.encoding@) {
        None => Err("unsupported_encoding"@),
        Some(codec) => if (step.operation@ == "decode"@) != (i % 2 == 0) {
            Err(invalid_transformation())
        } else if i % 2 == 0 {
            Ok(StageKind::Decode(codec))
        } else {
            Ok(StageKind::Encode(codec))
        },
    }
}

/// The stages of the first `n` steps, or the error of the first bad step.
pub open spec fn plan_prefix(steps: Seq<TransformationStep>, n: nat) -> Result<Seq<StageKind>, Seq<char>>
    decreases n,
{
    if n == 0 {
        Ok(seq![])
    } else {
        match plan_prefix(steps, (n - 1) as nat) {
            Err(e) => Err(e),
            Ok(kinds) => match step_stage(steps[n - 1], n - 1) {
                Err(e) => Err(e),
                Ok(k) => Ok(kinds.push(k)),
            },
        }
    }
}

/// The stages of a path: it must start and end with a decoding step.
pub open spec fn plan_spec(steps: Seq<TransformationStep>) -> Result<Seq<StageKind>, Seq<char>> {
    match plan_prefix(steps, steps.len()) {
        Err(e) => Err(e),
        Ok(kinds) => if kinds.len() == 0 || kinds.len() % 2 == 0 {
            Err(invalid_transformation())
        } else {
            Ok(kinds)
        },
    }
}

/// A chunk of `n` bytes and everything the stages make of it stay within
/// the stages' buffer limits.
pub open spec fn pipeline_fits(n: nat, kinds: Seq<StageKind>) -> bool
    decreases kinds.len(),
{
    kinds.len() == 0 || (stage_input_fits(kinds[0], n) && pipeline_fits(
        stage_output_bound(kinds[0], n),
        kinds.drop_first(),
    ))
}

proof fn lemma_pipeline_fits_monotone(n: nat, m: nat, kinds: Seq<StageKind>)
    requires
        n <= m,
        pipeline_fits(m, kinds),
    ensures
        pipeline_fits(n, kinds),
    decreases kinds.len(),
{
    if kinds.len() > 0 {
        lemma_pipeline_fits_monotone(
            stage_output_bound(kinds[0], n),
            stage_output_bound(kinds[0], m),
            kinds.drop_first(),
        );
    }
}

/// The stages of a recorded path, ready to replay it over a stream.
pub struct Converter {
    pub stages: Vec<Stage>,
}

pub open spec fn stage_kinds(stages: Seq<Stage>) -> Seq<StageKind> {
    stages.map_values(|s: Stage| s.kind)
}

impl Converter {
    pub open spec fn kinds(&self) -> Seq<StageKind> {
        stage_kinds(self.stages@)
    }

    pub open spec fn wf(&self) -> bool {
        forall|i: int|
            0 <= i < self.stages@.len() ==> stage_wf(&#[trigger] self.stages@[i])
                && self.stages@[i].pending@.len() <= 16
    }

    /// Builds the stages of a recorded path: each step's codec label must be
    /// known, and the steps must alternate decode, encode, ..., decode.
    pub fn new(steps: &[TransformationStep]) -> (r: Result<Converter, String>)
        ensures
            match plan_spec(steps@) {
                Ok(kinds) => r matches Ok(c) && c.kinds() == kinds && c.wf() && (forall|i: int|
                    0 <= i < c.stages@.len() ==> (#[trigger] c.stages@[i]).pending@.len() == 0 && stage_ready(&c.stages@[i]))
                    && stage_models(c.stages@) == initial_models(kinds),
                Err(e) => r matches Err(m) && m@ == e,
            },
    {
        let mut stages: Vec<Stage> = Vec::new();
        let mut index: usize = 0;
        while index < steps.len()
            invariant
                index <= steps@.len(),
                plan_prefix(steps@, index as nat) matches Ok(kinds) && stage_kinds(stages@) == kinds,
                forall|i: int|
                    0 <= i < stages@.len() ==> stage_wf(&#[trigger] stages@[i])
                        && stages@[i].pending@.len() == 0 && stage_ready(&stages@[i]),
                stage_models(stages@) == initial_models(stage_kinds(stages@)),
            decreases steps@.len() - index,
        {
            let step = &steps[index];
            let codec = match Codec::parse(step.encoding.as_str()) {
                Some(codec) => codec,
                None => {
                    proof {
                        lemma_plan_prefix_err(steps@, (index + 1) as nat, steps@.len());
                    }
                    return Err(owned("unsupported_encoding"));
                },
            };
            let expect_decode = index % 2 == 0;
            let is_decode = step.operation == owned("decode");
            if is_decode != expect_decode {
                proof {
                    lemma_plan_prefix_err(steps@, (index + 1) as nat, steps@.len());
                }
                return Err(owned("invalid_transformation"));
            }
            let kind = if expect_decode { StageKind::Decode(codec) } else { StageKind::Encode(codec) };
            let stage = Stage::new(kind);
            let ghost before = stages@;
            let ghost st = stage;
            stages.push(stage);
            assert(stage_kinds(stages@) =~= stage_kinds(before).push(kind));
            proof {
                lemma_models_push(before, st);
                assert(initial_models(stage_kinds(before).push(kind)) =~= initial_models(stage_kinds(before)).push(
                    StageModel { kind, fed: Seq::<u8>::empty(), pending: Seq::<u8>::empty() },
                ));
            }
            index = index + 1;
        }
        assert(steps@.len() == index);
        if stages.len() == 0 || stages.len() % 2 == 0 {
            return Err(owned("invalid_transformation"));
        }
        Ok(Converter { stages })
    }

    /// True when a chunk of `n` bytes can pass through every stage.
    pub fn accepts_chunk(&self, n: usize) -> (r: bool)
        ensures
            r == pipeline_fits(n as nat, self.kinds()),
    {
        let mut size: u128 = n as u128;
        let mut i: usize = 0;
        let ghost kinds = self.kinds();
        assert(kinds.skip(0) =~= kinds);
        while i < self.stages.len()
            invariant
                kinds == self.kinds(),
                i <= kinds.len(),
                size <= u64::MAX,
                pipeline_fits(n as nat, kinds) == pipeline_fits(size as nat, kinds.skip(i as int)),
            decreases kinds.len() - i,
        {
            let kind = self.stages[i].kind;
            assert(kinds.skip(i as int)[0] == kind);
            assert(kinds.skip(i as int).drop_first() =~= kinds.skip(i + 1));
            let fits = match kind {
                StageKind::Decode(_) => size <= (usize::MAX / 8) as u128,
                StageKind::Encode(_) => size <= (usize::MAX / 32) as u128,
            };
            if !fits {
                return false;
            }
            size = match kind {
                StageKind::Decode(_) => 3 * size + 32,
                StageKind::Encode(_) => 2 * size + 2,
            };
            i = i + 1;
        }
        true
    }
}

/// Every stage turned `trace[i]` into `trace[i + 1]` as `Stage::apply` promises.
pub open spec fn pipeline_trace(before: Seq<Stage>, after: Seq<Stage>, trace: Seq<Chunk>, last: bool) -> bool {
    &&& trace.len() == before.len() + 1
    &&& after.len() == before.len()
    &&& forall|i: int|
        #![trigger after[i]]
        0 <= i < before.len() ==> apply_result(
            &before[i],
            &after[i],
            &trace[i],
            last,
            &Ok::<Chunk, String>(trace[i + 1]),
        )
}

/// The models of a sequence of stages.
pub open spec fn stage_models(stages: Seq<Stage>) -> Seq<StageModel> {
    stages.map_values(|s: Stage| stage_model(&s))
}

/// Fresh stages of the given kinds.
pub open spec fn initial_models(kinds: Seq<StageKind>) -> Seq<StageModel> {
    kinds.map_values(|k: StageKind| StageModel { kind: k, fed: Seq::<u8>::empty(), pending: Seq::<u8>::empty() })
}

/// One chunk through every stage in turn: the stages after, and what the
/// last one produced, or the first refusal.
pub open spec fn push_spec(models: Seq<StageModel>, input: ChunkModel, last: bool) -> Result<(Seq<StageModel>, ChunkModel), Seq<char>>
    decreases models.len(),
{
    if models.len() == 0 {
        Ok((seq![], input))
    } else {
        match apply_spec(models[0], input, last) {
            Err(e) => Err(e),
            Ok((m, out)) => match push_spec(models.drop_first(), out, last) {
                Err(e) => Err(e),
                Ok((ms, fin)) => Ok((seq![m] + ms, fin)),
            },
        }
    }
}

/// What `Converter::push` gives for a chunk of bytes: the stages after and
/// the text to write, or the error.
pub open spec fn push_text_spec(models: Seq<StageModel>, bytes: Seq<u8>, last: bool) -> Result<(Seq<StageModel>, Seq<char>), Seq<char>> {
    match push_spec(models, ChunkModel::Bytes(bytes), last) {
        Err(e) => Err(e),
        Ok((ms, ChunkModel::Text(t))) => Ok((ms, t)),
        Ok((_, ChunkModel::Bytes(_))) => Err(invalid_transformation()),
    }
}

/// Decoding stages at even positions, encoding stages at odd ones, and a
/// decoding stage last.
pub open spec fn alternates(kinds: Seq<StageKind>) -> bool {
    &&& kinds.len() % 2 == 1
    &&& forall|k: int| 0 <= k < kinds.len() ==> (#[trigger] kinds[k] is Decode <==> k % 2 == 0)
}

proof fn lemma_models_push(stages: Seq<Stage>, s: Stage)
    ensures
        stage_models(stages.push(s)) == stage_models(stages).push(stage_model(&s)),
{
    assert(stage_models(stages.push(s)) =~= stage_models(stages).push(stage_model(&s)));
}

proof fn lemma_models_skip(stages: Seq<Stage>, k: int)
    requires
        0 <= k < stages.len(),
    ensures
        stage_models(stages.skip(k)).len() > 0,
        stage_models(stages.skip(k))[0] == stage_model(&stages[k]),
        stage_models(stages.skip(k)).drop_first() == stage_models(stages.skip(k + 1)),
{
    assert(stage_models(stages.skip(k)).drop_first() =~= stage_models(stages.skip(k + 1)));
}

/// The remaining stages' result, placed after the stages done.
pub open spec fn after_done(done: Seq<StageModel>, rest: Result<(Seq<StageModel>, ChunkModel), Seq<char>>) -> Result<(Seq<StageModel>, ChunkModel), Seq<char>> {
    match rest {
        Err(e) => Err(e),
        Ok((ms, fin)) => Ok((done + ms, fin)),
    }
}

impl Converter {
    #[verifier::rlimit(60)]
    /// Passes one chunk of the stream through every stage and returns the
    /// text to write; `last` marks the end of the stream. Any stage's refusal
    /// ends the export with its error.
    pub fn push(&mut self, bytes: Vec<u8>, last: bool) -> (r: Result<String, String>)
        requires
            old(self).wf(),
            forall|i: int| 0 <= i < old(self).stages@.len() ==> stage_ready(#[trigger] &old(self).stages@[i]),
            pipeline_fits(bytes@.len(), old(self).kinds()),
        ensures
            final(self).kinds() == old(self).kinds(),
            r is Ok ==> final(self).wf(),
            match r {
                Ok(text) => push_text_spec(stage_models(old(self).stages@), bytes@, last) == Ok::<(Seq<StageModel>, Seq<char>), Seq<char>>(
                    (stage_models(final(self).stages@), text@),
                ),
                Err(e) => push_text_spec(stage_models(old(self).stages@), bytes@, last) == Err::<(Seq<StageModel>, Seq<char>), Seq<char>>(e@),
            },
            r is Ok && !last ==> forall|i: int| 0 <= i < final(self).stages@.len() ==> stage_ready(#[trigger] &final(self).stages@[i]),
            alternates(old(self).kinds()) ==> (r matches Err(e) ==> e@ == export_loss()),
            r matches Ok(text) ==> exists|trace: Seq<Chunk>|
                #![trigger pipeline_trace(old(self).stages@, final(self).stages@, trace, last)]
                {
                    &&& pipeline_trace(old(self).stages@, final(self).stages@, trace, last)
                    &&& trace[0] == Chunk::Bytes(bytes)
                    &&& trace.last() matches Chunk::Text(t)
                    &&& t@ == text@
                },
            r matches Err(e) ==> e@ == export_loss() || e@ == invalid_transformation(),
    {
        let ghost start = self.stages@;
        let mut remaining: Vec<Stage> = Vec::new();
        std::mem::swap(&mut remaining, &mut self.stages);
        let mut done: Vec<Stage> = Vec::new();
        let mut chunk = Chunk::Bytes(bytes);
        let ghost mut trace: Seq<Chunk> = seq![chunk];
        let ghost first = chunk;
        assert(start.skip(0) =~= start);
        assert(stage_models(done@) + Seq::<StageModel>::empty() =~= Seq::<StageModel>::empty());
        proof {
            let sm = push_spec(stage_models(start), chunk_model(&chunk), last);
            match sm {
                Ok((ms, fin)) => { assert(stage_models(done@) + ms =~= ms); },
                Err(_) => {},
            }
        }
        while remaining.len() > 0
            invariant
                push_spec(stage_models(start), ChunkModel::Bytes(bytes@), last) == after_done(
                    stage_models(done@),
                    push_spec(stage_models(remaining@), chunk_model(&chunk), last),
                ),
                forall|i: int| 0 <= i < start.len() ==> stage_ready(#[trigger] &start[i]),
                forall|i: int| 0 <= i < done@.len() ==> (stage_ready(#[trigger] &done@[i]) || last),
                alternates(stage_kinds(start)) ==> (chunk is Bytes <==> done@.len() % 2 == 0),
                start == old(self).stages@,
                forall|i: int|
                    0 <= i < start.len() ==> stage_wf(&#[trigger] start[i]) && start[i].pending@.len() <= 16,
                remaining@ == start.skip(done@.len() as int),
                done@.len() <= start.len(),
                trace.len() == done@.len() + 1,
                trace[0] == first,
                trace.last() == chunk,
                stage_kinds(done@) == stage_kinds(start.take(done@.len() as int)),
                forall|i: int| 0 <= i < done@.len() ==> stage_wf(&#[trigger] done@[i]) && done@[i].pending@.len() <= 16,
                forall|i: int|
                    #![trigger done@[i]]
                    0 <= i < done@.len() ==> apply_result(
                        &start[i],
                        &done@[i],
                        &trace[i],
                        last,
                        &Ok::<Chunk, String>(trace[i + 1]),
                    ),
                pipeline_fits(chunk_size(&chunk), stage_kinds(remaining@)),
                self.stages@.len() == 0,
            decreases remaining@.len(),
        {
            let ghost ks = stage_kinds(remaining@);
            let ghost k = done@.len() as int;
            let mut stage = remaining.remove(0);
            assert(stage == start[k]);
            assert(ks[0] == stage.kind);
            assert(ks.drop_first() =~= stage_kinds(remaining@));
            let ghost input = chunk;
            let ghost before_stage = stage;
            proof {
                lemma_models_skip(start, k);
                assert(remaining@ =~= start.skip(k + 1));
                assert(stage_ready(&start[k]));
                assert(stage_kinds(start)[k] == stage.kind);
            }
            let result = stage.apply(chunk, last);
            let ghost after_stage = stage;
            let ghost done_before = done@;
            let ghost rg = result;
            done.push(stage);
            proof {
                lemma_models_push(done_before, after_stage);
                match rg {
                    Ok(next) => {
                        let p = push_spec(stage_models(remaining@), chunk_model(&next), last);
                        match p {
                            Ok((ms, fin)) => {
                                assert(stage_models(done_before) + (seq![stage_model(&after_stage)] + ms) =~= stage_models(done@) + ms);
                            },
                            Err(_) => {},
                        }
                    },
                    Err(_) => {},
                }
            }
            assert(stage_kinds(done@) =~= stage_kinds(start.take(k + 1))) by {
                assert(stage_kinds(done_before) =~= stage_kinds(start.take(k)));
                assert(start.take(k + 1) =~= start.take(k).push(start[k]));
            }
            match result {
                Ok(next) => {
                    proof {
                        lemma_pipeline_fits_monotone(
                            chunk_size(&next),
                            stage_output_bound(before_stage.kind, chunk_size(&input)),
                            stage_kinds(remaining@),
                        );
                        trace = trace.push(next);
                    }
                    chunk = next;
                },
                Err(e) => {
                    let ghost done_now = done@;
                    done.append(&mut remaining);
                    assert(stage_kinds(done@) =~= stage_kinds(old(self).stages@)) by {
                        assert(done@ =~= done_now + start.skip(k + 1));
                        assert(start =~= start.take(k + 1) + start.skip(k + 1));
                    }
                    self.stages = done;
                    return Err(e);
                },
            }
        }
        assert(start.take(done@.len() as int) =~= start);
        self.stages = done;
        match chunk {
            Chunk::Text(text) => {
                assert(pipeline_trace(old(self).stages@, self.stages@, trace, last));
                assert(trace.last() matches Chunk::Text(t) && t@ == text@);
                Ok(text)
            },
            Chunk::Bytes(_) => Err(owned("invalid_transformation")),
        }
    }
}

proof fn lemma_plan_prefix_err(steps: Seq<TransformationStep>, n: nat, m: nat)
    requires
        n <= m <= steps.len(),
        plan_prefix(steps, n) is Err,
    ensures
        plan_prefix(steps, m) == plan_prefix(steps, n),
        plan_spec(steps) == plan_prefix(steps, n) || m != steps.len(),
    decreases m - n,
{
    if m > n {
        lemma_plan_prefix_err(steps, n, (m - 1) as nat);
    }
}

} // verus!

verus! {

/// The bytes accounted for by the encodings of the pieces of text, in order.
pub open spec fn encoded_pieces(codec: Codec, pieces: Seq<Seq<char>>) -> Seq<u8>
    decreases pieces.len(),
{
    if pieces.len() == 0 {
        seq![]
    } else {
        encoded_pieces(codec, pieces.drop_last()) + encode_spec(codec, pieces.last())->Ok_0
    }
}

/// The pieces of text, joined in order.
pub open spec fn joined(pieces: Seq<Seq<char>>) -> Seq<char>
    decreases pieces.len(),
{
    if pieces.len() == 0 {
        seq![]
    } else {
        joined(pieces.drop_last()) + pieces.last()
    }
}

/// Every piece has an encoding with `codec`.
pub open spec fn all_encodable(codec: Codec, pieces: Seq<Seq<char>>) -> bool {
    forall|i: int| 0 <= i < pieces.len() ==> encode_spec(codec, #[trigger] pieces[i]) is Ok
}

/// The codec of a stage.
pub open spec fn stage_codec(kind: StageKind) -> Codec {
    match kind {
        StageKind::Decode(c) => c,
        StageKind::Encode(c) => c,
    }
}

/// The bytes that the `i`th decoding stage of a path reads, given the
/// pieces of text each decoding stage emitted: the source for the first,
/// and for the others the previous decoding stage's pieces as encoded by the
/// encoding stage between them.
pub open spec fn decode_input(kinds: Seq<StageKind>, pieces: Seq<Seq<Seq<char>>>, source: Seq<u8>, i: int) -> Seq<u8> {
    if i == 0 {
        source
    } else {
        encoded_pieces(stage_codec(kinds[2 * i - 1]), pieces[i - 1])
    }
}

/// A replay of the path `kinds` over `source` that wrote `text` loses
/// nothing: each decoding stage emitted pieces of text that its codec
/// encodes back to exactly the bytes it read, each encoding stage's codec
/// encodes every piece it was given, and `text` is the last decoding
/// stage's pieces joined.
pub open spec fn chain_holds(kinds: Seq<StageKind>, pieces: Seq<Seq<Seq<char>>>, source: Seq<u8>, text: Seq<char>) -> bool {
    &&& pieces.len() >= 1
    &&& kinds.len() == 2 * pieces.len() - 1
    &&& forall|i: int| 0 <= i < pieces.len() ==> all_encodable(stage_codec(kinds[2 * i]), #[trigger] pieces[i])
    &&& forall|i: int| 0 <= i < pieces.len() - 1 ==> all_encodable(stage_codec(kinds[2 * i + 1]), #[trigger] pieces[i])
    &&& forall|i: int|
        0 <= i < pieces.len() ==> #[trigger] decode_input(kinds, pieces, source, i) == encoded_pieces(
            stage_codec(kinds[2 * i]),
            pieces[i],
        )
    &&& text == joined(pieces[pieces.len() - 1])
}

/// What `convert` returns for a path whose stages are `kinds`.
pub open spec fn convert_result(source: Seq<u8>, chunk_size: nat, kinds: Seq<StageKind>, skip_bom: nat, r: Result<String, String>) -> bool {
    if !pipeline_fits(chunk_size, kinds) {
        r matches Err(m) && m@ == invalid_transformation()
    } else if source.len() < skip_bom {
        r matches Err(m) && m@ == "source_changed"@
    } else {
        &&& r matches Err(m) ==> m@ == export_loss() || m@ == invalid_transformation()
        &&& r matches Ok(text) ==> exists|pieces: Seq<Seq<Seq<char>>>|
            #[trigger] chain_holds(kinds, pieces, source.skip(skip_bom as int), text@)
    }
}

/// The stages of a valid path decode at even positions and encode at odd
/// ones.
proof fn lemma_plan_alternates(steps: Seq<TransformationStep>, n: nat)
    requires
        plan_prefix(steps, n) is Ok,
    ensures
        plan_prefix(steps, n)->Ok_0.len() == n,
        forall|k: int|
            0 <= k < n ==> (#[trigger] plan_prefix(steps, n)->Ok_0[k] is Decode <==> k % 2 == 0),
    decreases n,
{
    if n > 0 {
        lemma_plan_alternates(steps, (n - 1) as nat);
    }
}

/// The state of a replay after some chunks: decoding stage `i` has emitted
/// `pieces[i]`, and what it read is their encoding followed by its pending
/// bytes.
spec fn replay_state(kinds: Seq<StageKind>, stages: Seq<Stage>, pieces: Seq<Seq<Seq<char>>>, read: Seq<u8>) -> bool {
    &&& kinds.len() == 2 * pieces.len() - 1
    &&& stage_kinds(stages) == kinds
    &&& forall|k: int| 0 <= k < kinds.len() ==> (#[trigger] kinds[k] is Decode <==> k % 2 == 0)
    &&& forall|i: int| 0 <= i < pieces.len() ==> all_encodable(stage_codec(kinds[2 * i]), #[trigger] pieces[i])
    &&& forall|i: int| 0 <= i < pieces.len() - 1 ==> all_encodable(stage_codec(kinds[2 * i + 1]), #[trigger] pieces[i])
    &&& forall|i: int|
        0 <= i < pieces.len() ==> #[trigger] decode_input(kinds, pieces, read, i) == encoded_pieces(
            stage_codec(kinds[2 * i]),
            pieces[i],
        ) + stages[2 * i].pending@
    &&& forall|i: int|
        0 <= i < pieces.len() ==> (stage_codec(kinds[2 * i]) is Latin1 ==> (#[trigger] stages[2 * i]).pending@.len() == 0)
}

/// One more piece at the end.
proof fn lemma_pieces_push(codec: Codec, pieces: Seq<Seq<char>>, t: Seq<char>)
    ensures
        encoded_pieces(codec, pieces.push(t)) == encoded_pieces(codec, pieces) + encode_spec(codec, t)->Ok_0,
        joined(pieces.push(t)) == joined(pieces) + t,
{
    assert(pieces.push(t).drop_last() =~= pieces);
}

/// A chunk pushed through every stage extends each decoding stage's pieces
/// by the text it emitted and keeps the replay state.
#[verifier::rlimit(60)]
proof fn lemma_push_keeps_replay(
    kinds: Seq<StageKind>,
    before: Seq<Stage>,
    after: Seq<Stage>,
    trace: Seq<Chunk>,
    last: bool,
    pieces: Seq<Seq<Seq<char>>>,
    read: Seq<u8>,
    chunk: Seq<u8>,
) -> (next: Seq<Seq<Seq<char>>>)
    requires
        replay_state(kinds, before, pieces, read),
        pipeline_trace(before, after, trace, last),
        trace[0] matches Chunk::Bytes(b) && b@ == chunk,
        forall|k: int| 0 <= k < before.len() ==> (#[trigger] before[k]).pending@.len() <= 16 && stage_wf(&before[k]),
    ensures
        next.len() == pieces.len(),
        replay_state(kinds, after, next, read + chunk),
        forall|i: int| 0 <= i < pieces.len() ==> (#[trigger] trace[2 * i + 1] matches Chunk::Text(t) && next[i] == pieces[i].push(t@)),
        last ==> forall|i: int| 0 <= i < pieces.len() ==> (#[trigger] after[2 * i]).pending@.len() == 0,
{
    let n = pieces.len();
    assert(stage_kinds(before).len() == before.len());
    assert(stage_kinds(after).len() == after.len());
    // Every chunk between stages: bytes before a decoding stage, text after it.
    assert forall|k: int| 0 <= k < kinds.len() implies (#[trigger] before[k]).kind == kinds[k] && after[k].kind == kinds[k] by {
        assert(stage_kinds(before)[k] == before[k].kind);
        assert(apply_result(&before[k], &after[k], &trace[k], last, &Ok::<Chunk, String>(trace[k + 1])));
    }
    assert forall|k: int| 0 <= k <= kinds.len() implies (#[trigger] trace[k] is Bytes <==> k % 2 == 0) by {
        if k > 0 {
            assert(apply_result(&before[k - 1], &after[k - 1], &trace[k - 1], last, &Ok::<Chunk, String>(trace[k])));
        }
    }
    let next = Seq::new(n, |i: int| pieces[i].push(trace[2 * i + 1]->Text_0@));
    assert forall|i: int| 0 <= i < n implies (#[trigger] trace[2 * i + 1] matches Chunk::Text(t) && next[i] == pieces[i].push(t@)) by {
        assert(trace[2 * i + 1] is Text);
    }
    assert(stage_kinds(after) =~= kinds) by {
        assert forall|k: int| 0 <= k < kinds.len() implies stage_kinds(after)[k] == kinds[k] by {
            assert(before[k].kind == kinds[k]);
        }
    }
    assert forall|i: int| 0 <= i < n implies {
        &&& all_encodable(stage_codec(kinds[2 * i]), #[trigger] next[i])
        &&& decode_input(kinds, next, read + chunk, i) == encoded_pieces(stage_codec(kinds[2 * i]), next[i]) + after[2 * i].pending@
        &&& (stage_codec(kinds[2 * i]) is Latin1 ==> after[2 * i].pending@.len() == 0)
        &&& (last ==> after[2 * i].pending@.len() == 0)
        &&& (i < n - 1 ==> all_encodable(stage_codec(kinds[2 * i + 1]), next[i]))
    } by {
        let k = 2 * i;
        let c = stage_codec(kinds[k]);
        let t = trace[k + 1]->Text_0@;
        let b = trace[k]->Bytes_0@;
        assert(kinds[k] is Decode);
        assert(kinds[k] == StageKind::Decode(c));
        assert(apply_result(&before[k], &after[k], &trace[k], last, &Ok::<Chunk, String>(trace[k + 1])));
        if c is Latin1 {
            crate::codec::lemma_latin1_round_trip(b);
            assert(after[k].pending@ == before[k].pending@);
            assert(before[k].pending@ =~= Seq::<u8>::empty());
            assert(before[k].pending@ + b =~= encode_spec(c, t)->Ok_0 + after[k].pending@);
        } else {
            assert(before[k].pending@ + b == encode_spec(c, t)->Ok_0 + after[k].pending@);
        }
        assert(encode_spec(c, t) is Ok);
        lemma_pieces_push(c, pieces[i], t);
        assert forall|j: int| 0 <= j < next[i].len() implies encode_spec(c, #[trigger] next[i][j]) is Ok by {
            if j < pieces[i].len() {
                assert(next[i][j] == pieces[i][j]);
            }
        }
        // What this stage read: the source chunk, or what the encoding stage
        // before it made of the previous decoding stage's new piece.
        let input_before = decode_input(kinds, pieces, read, i);
        let input_after = decode_input(kinds, next, read + chunk, i);
        if i == 0 {
            assert(b == chunk);
            assert(input_after == input_before + b);
        } else {
            let e = stage_codec(kinds[k - 1]);
            let tp = trace[k - 1]->Text_0@;
            assert(kinds[k - 1] is Encode);
            assert(kinds[k - 1] == StageKind::Encode(e));
            assert(apply_result(&before[k - 1], &after[k - 1], &trace[k - 1], last, &Ok::<Chunk, String>(trace[k])));
            assert(encode_spec(e, tp) is Ok);
            assert(b == encode_spec(e, tp)->Ok_0);
            assert(next[i - 1] == pieces[i - 1].push(tp));
            lemma_pieces_push(e, pieces[i - 1], tp);
            assert(input_after == input_before + b);
        }
        assert(input_before == encoded_pieces(c, pieces[i]) + before[k].pending@);
        assert(next[i] == pieces[i].push(t));
        let ep = encoded_pieces(c, pieces[i]);
        let en = encode_spec(c, t)->Ok_0;
        assert(encoded_pieces(c, next[i]) == ep + en);
        assert((ep + before[k].pending@) + b =~= ep + (before[k].pending@ + b));
        assert(ep + (en + after[k].pending@) =~= (ep + en) + after[k].pending@);
        assert(input_after =~= encoded_pieces(c, next[i]) + after[k].pending@);
        if i < n - 1 {
            let e2 = stage_codec(kinds[k + 1]);
            assert(kinds[k + 1] is Encode);
            assert(kinds[k + 1] == StageKind::Encode(e2));
            assert(apply_result(&before[k + 1], &after[k + 1], &trace[k + 1], last, &Ok::<Chunk, String>(trace[k + 2])));
            assert(encode_spec(e2, t) is Ok);
            assert forall|j: int| 0 <= j < next[i].len() implies encode_spec(e2, #[trigger] next[i][j]) is Ok by {
                if j < pieces[i].len() {
                    assert(next[i][j] == pieces[i][j]);
                }
            }
        }
    }
    next
}

/// What the replay of the rest of a source gives: the text written so far
/// (`out`) followed by what each further chunk of `chunk_size` bytes, and a
/// final empty chunk that ends the stream, make through the stages; or the
/// first refusal.
pub open spec fn run_spec(models: Seq<StageModel>, rest: Seq<u8>, chunk_size: nat, out: Seq<char>) -> Result<Seq<char>, Seq<char>>
    decreases rest.len(),
{
    if chunk_size == 0 {
        Err(invalid_transformation())
    } else if rest.len() == 0 {
        match push_text_spec(models, seq![], true) {
            Ok((_, t)) => Ok(out + t),
            Err(e) => Err(e),
        }
    } else {
        let k = if rest.len() > chunk_size { chunk_size as int } else { rest.len() as int };
        match push_text_spec(models, rest.take(k), false) {
            Ok((ms, t)) => run_spec(ms, rest.skip(k), chunk_size, out + t),
            Err(e) => Err(e),
        }
    }
}

/// `r` is the value `x`.
pub open spec fn result_is(r: Result<String, String>, x: Result<Seq<char>, Seq<char>>) -> bool {
    match r {
        Ok(t) => x == Ok::<Seq<char>, Seq<char>>(t@),
        Err(e) => x == Err::<Seq<char>, Seq<char>>(e@),
    }
}

/// One chunk through a fresh literal ISO-8859-1 decoding stage.
proof fn lemma_latin1_push(b: Seq<u8>, last: bool)
    ensures
        push_text_spec(initial_models(seq![StageKind::Decode(Codec::Latin1)]), b, last) == Ok::<(Seq<StageModel>, Seq<char>), Seq<char>>(
            (initial_models(seq![StageKind::Decode(Codec::Latin1)]), latin1_text(b)),
        ),
{
    let m = StageModel { kind: StageKind::Decode(Codec::Latin1), fed: Seq::<u8>::empty(), pending: Seq::<u8>::empty() };
    let ms = initial_models(seq![StageKind::Decode(Codec::Latin1)]);
    assert(ms =~= seq![m]);
    assert(ms[0] == m);
    assert(apply_spec(m, ChunkModel::Bytes(b), last) == Ok::<(StageModel, ChunkModel), Seq<char>>((m, ChunkModel::Text(latin1_text(b)))));
    assert(ms.drop_first() =~= Seq::<StageModel>::empty());
    assert(push_spec(Seq::<StageModel>::empty(), ChunkModel::Text(latin1_text(b)), last) == Ok::<(Seq<StageModel>, ChunkModel), Seq<char>>(
        (Seq::<StageModel>::empty(), ChunkModel::Text(latin1_text(b))),
    ));
    assert(seq![m] + Seq::<StageModel>::empty() =~= ms);
    assert(push_spec(ms, ChunkModel::Bytes(b), last) == Ok::<(Seq<StageModel>, ChunkModel), Seq<char>>((ms, ChunkModel::Text(latin1_text(b)))));
}

/// A path of one literal ISO-8859-1 decode writes each byte as its
/// character, whatever the chunking.
#[verifier::rlimit(50)]
pub proof fn lemma_latin1_replay(rest: Seq<u8>, chunk_size: nat, out: Seq<char>)
    requires
        chunk_size >= 1,
    ensures
        run_spec(initial_models(seq![StageKind::Decode(Codec::Latin1)]), rest, chunk_size, out) == Ok::<Seq<char>, Seq<char>>(
            out + latin1_text(rest),
        ),
    decreases rest.len(),
{
    let ms = initial_models(seq![StageKind::Decode(Codec::Latin1)]);
    if rest.len() == 0 {
        lemma_latin1_push(seq![], true);
        assert(run_spec(ms, rest, chunk_size, out) == Ok::<Seq<char>, Seq<char>>(out + latin1_text(seq![])));
        assert(latin1_text(rest) =~= Seq::<char>::empty());
        assert(latin1_text(seq![]) =~= Seq::<char>::empty());
        assert(out + latin1_text(Seq::<u8>::empty()) =~= out);
    } else {
        let k = if rest.len() > chunk_size { chunk_size as int } else { rest.len() as int };
        lemma_latin1_push(rest.take(k), false);
        assert(run_spec(ms, rest, chunk_size, out) == run_spec(ms, rest.skip(k), chunk_size, out + latin1_text(rest.take(k))));
        lemma_latin1_replay(rest.skip(k), chunk_size, out + latin1_text(rest.take(k)));
        assert(latin1_text(rest.take(k)) + latin1_text(rest.skip(k)) =~= latin1_text(rest));
        assert(out + latin1_text(rest.take(k)) + latin1_text(rest.skip(k)) =~= out + latin1_text(rest));
    }
}

/// Replays a recorded path over a source held in memory: skips `skip_bom`
/// bytes (refusing a source shorter than that as changed), then passes the
/// rest through the stages in chunks of `chunk_size` bytes followed by an
/// empty final chunk, and returns the text written. A replay either fails
/// or loses nothing: every decoding stage's text encodes back to exactly
/// the bytes it read, the first stage reading the source after the BOM.
#[verifier::rlimit(100)]
pub fn convert(source: &[u8], chunk_size: usize, steps: &[TransformationStep], skip_bom: usize) -> (r: Result<String, String>)
    requires
        chunk_size >= 1,
    ensures
        match plan_spec(steps@) {
            Err(e) => r matches Err(m) && m@ == e,
            Ok(kinds) => convert_result(source@, chunk_size as nat, kinds, skip_bom as nat, r),
        },
        match plan_spec(steps@) {
            Ok(kinds) => pipeline_fits(chunk_size as nat, kinds) && source@.len() >= skip_bom ==> {
                &&& result_is(r, run_spec(initial_models(kinds), source@.skip(skip_bom as int), chunk_size as nat, seq![]))
                &&& (r matches Err(m) ==> m@ == export_loss())
                &&& (kinds == seq![StageKind::Decode(Codec::Latin1)] ==> (r matches Ok(t) && t@ == latin1_text(
                    source@.skip(skip_bom as int),
                )))
            },
            Err(_) => true,
        },
{
    let mut converter = match Converter::new(steps) {
        Ok(c) => c,
        Err(e) => return Err(e),
    };
    let ghost kinds = converter.kinds();
    proof {
        lemma_plan_alternates(steps@, steps@.len());
    }
    if !converter.accepts_chunk(chunk_size) {
        return Err(owned("invalid_transformation"));
    }
    if source.len() < skip_bom {
        return Err(owned("source_changed"));
    }
    let mut out: Vec<char> = Vec::new();
    let mut pos: usize = skip_bom;
    let ghost goal = run_spec(initial_models(kinds), source@.skip(skip_bom as int), chunk_size as nat, seq![]);
    proof {
        assert(source@.subrange(skip_bom as int, source@.len() as int) =~= source@.skip(skip_bom as int));
        assert(out@ =~= Seq::<char>::empty());
        assert(alternates(kinds)) by {
            assert forall|k: int| 0 <= k < kinds.len() implies (#[trigger] kinds[k] is Decode <==> k % 2 == 0) by {
                assert(plan_prefix(steps@, steps@.len())->Ok_0 == kinds);
            }
        }
    }
    let ghost n: nat = ((kinds.len() + 1) / 2) as nat;
    let ghost mut pieces: Seq<Seq<Seq<char>>> = Seq::new(n, |i: int| Seq::<Seq<char>>::empty());
    proof {
        assert(source@.subrange(skip_bom as int, pos as int) =~= Seq::<u8>::empty());
        assert forall|i: int| 0 <= i < n implies #[trigger] decode_input(
            kinds,
            pieces,
            source@.subrange(skip_bom as int, pos as int),
            i,
        ) == encoded_pieces(stage_codec(kinds[2 * i]), pieces[i]) + converter.stages@[2 * i].pending@ by {
            assert(converter.stages@[2 * i].pending@ =~= Seq::<u8>::empty());
            assert(pieces[i] =~= Seq::<Seq<char>>::empty());
            if i > 0 {
                assert(pieces[i - 1] =~= Seq::<Seq<char>>::empty());
            }
        }
        assert(n >= 1);
        assert(out@ =~= joined(pieces[n - 1]));
    }
    loop
        invariant_except_break
            forall|i: int| 0 <= i < converter.stages@.len() ==> stage_ready(#[trigger] &converter.stages@[i]),
            goal == run_spec(stage_models(converter.stages@), source@.subrange(pos as int, source@.len() as int), chunk_size as nat, out@),
        invariant
            alternates(kinds),
            goal == run_spec(initial_models(kinds), source@.skip(skip_bom as int), chunk_size as nat, seq![]),
            skip_bom <= pos <= source@.len(),
            chunk_size >= 1,
            plan_spec(steps@) == Ok::<Seq<StageKind>, Seq<char>>(kinds),
            converter.kinds() == kinds,
            converter.wf(),
            pipeline_fits(chunk_size as nat, kinds),
            n >= 1,
            pieces.len() == n,
            replay_state(kinds, converter.stages@, pieces, source@.subrange(skip_bom as int, pos as int)),
            out@ == joined(pieces[n - 1]),
        ensures
            goal == Ok::<Seq<char>, Seq<char>>(out@),
            pos == source@.len(),
            pieces.len() == n,
            out@ == joined(pieces[n - 1]),
            replay_state(kinds, converter.stages@, pieces, source@.subrange(skip_bom as int, pos as int)),
            forall|i: int| 0 <= i < n ==> (#[trigger] converter.stages@[2 * i]).pending@.len() == 0,
        decreases source@.len() - pos + 1,
    {
        let end = if source.len() - pos > chunk_size { pos + chunk_size } else { source.len() };
        let last = end == pos;
        let chunk = vstd::slice::slice_to_vec(vstd::slice::slice_subrange(source, pos, end));
        proof {
            lemma_pipeline_fits_monotone(chunk@.len(), chunk_size as nat, kinds);
        }
        let ghost before = converter.stages@;
        let ghost chunk_view = chunk@;
        let ghost read = source@.subrange(skip_bom as int, pos as int);
        let ghost rest = source@.subrange(pos as int, source@.len() as int);
        proof {
            if last {
                assert(rest.len() == 0);
                assert(chunk_view =~= Seq::<u8>::empty());
            } else {
                assert(chunk_view =~= rest.take(end - pos));
                assert(rest.skip(end - pos) =~= source@.subrange(end as int, source@.len() as int));
            }
        }
        let ghost out_before = out@;
        let ghost models_before = stage_models(converter.stages@);
        assert(alternates(converter.kinds()));
        let pushed = converter.push(chunk, last);
        let text = match pushed {
            Ok(text) => text,
            Err(e) => {
                proof {
                    assert(push_text_spec(models_before, chunk_view, last) == Err::<(Seq<StageModel>, Seq<char>), Seq<char>>(e@));
                    assert(goal == Err::<Seq<char>, Seq<char>>(e@));
                    assert(e@ == export_loss());
                    if kinds == seq![StageKind::Decode(Codec::Latin1)] {
                        lemma_latin1_replay(source@.skip(skip_bom as int), chunk_size as nat, seq![]);
                    }
                }
                return Err(e);
            },
        };
        proof {
            let trace = choose|trace: Seq<Chunk>|
                #![trigger pipeline_trace(before, converter.stages@, trace, last)]
                {
                    &&& pipeline_trace(before, converter.stages@, trace, last)
                    &&& trace[0] == Chunk::Bytes(chunk)
                    &&& trace.last() matches Chunk::Text(t)
                    &&& t@ == text@
                };
            let next = lemma_push_keeps_replay(kinds, before, converter.stages@, trace, last, pieces, read, chunk_view);
            assert(source@.subrange(skip_bom as int, end as int) =~= read + chunk_view);
            assert(trace.len() == 2 * n);
            assert(trace[2 * (n - 1) + 1] == trace.last());
            assert(next[n - 1] == pieces[n - 1].push(text@));
            lemma_pieces_push(Codec::Utf8, pieces[n - 1], text@);
            pieces = next;
        }
        crate::codec::push_str(&mut out, text.as_str());
        pos = end;
        if last {
            assert(goal == Ok::<Seq<char>, Seq<char>>(out@));
            break;
        }
    }
    proof {
        let src = source@.subrange(skip_bom as int, pos as int);
        assert(src =~= source@.skip(skip_bom as int));
        assert forall|i: int| 0 <= i < n implies #[trigger] decode_input(kinds, pieces, src, i) == encoded_pieces(
            stage_codec(kinds[2 * i]),
            pieces[i],
        ) by {
            assert(converter.stages@[2 * i].pending@ =~= Seq::<u8>::empty());
            assert(decode_input(kinds, pieces, src, i) == encoded_pieces(stage_codec(kinds[2 * i]), pieces[i])
                + converter.stages@[2 * i].pending@);
        }
        assert(chain_holds(kinds, pieces, source@.skip(skip_bom as int), out@));
    }
    let text = string_from_chars(out.as_slice());
    assert(chain_holds(kinds, pieces, source@.skip(skip_bom as int), text@));
    proof {
        if kinds == seq![StageKind::Decode(Codec::Latin1)] {
            lemma_latin1_replay(source@.skip(skip_bom as int), chunk_size as nat, seq![]);
            assert(Seq::<char>::empty() + latin1_text(source@.skip(skip_bom as int)) =~= latin1_text(source@.skip(skip_bom as int)));
        }
    }
    let r: Result<String, String> = Ok(text);
    assert(r matches Ok(t) && chain_holds(kinds, pieces, source@.skip(skip_bom as int), t@));
    assert(convert_result(source@, chunk_size as nat, kinds, skip_bom as nat, r));
    r
}

} // verus!
