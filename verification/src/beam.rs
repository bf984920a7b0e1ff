//! The bounded beam search over repair hypotheses: a pool of distinct texts,
//! layers of strict encode → decode repairs, and the ranking that keeps the
//! beam narrow. Scores are supplied by the caller as order keys, so every
//! decision here is verified whatever the scoring says.
use crate::codec::{
    codec_at, codec_order, decode, decode_text_spec, lemma_codec_order_covers, round_trips,
    Codec,
};
use crate::evidence::{control_count, metrics, replacement_count_in, suspicious_count};
use crate::recovery::{
    child_state, clone_steps, seed_state, text_state, expandable, repair_admits, repair_decode, same_step,
    text_control_heavy,
    target_allowed, target_allowed_spec, wrong_codec_bytes, wrong_codec_bytes_spec,
    RecoveryState, BEAM_WIDTH, inherited_loss_spec, clean_unicode_source_spec, MAX_CANDIDATES,
    MAX_DEPTH, MAX_EXPLORED, MAX_STATES, MAX_TRANSFORM_BYTES, clean_unicode_source, depth_limit,
    inherited_loss, search_budget, search_budget_spec,
};
use crate::codec::{encode_spec, parse_label, codec_name, lemma_parse_reads_name};
use crate::models::TransformationStep;
use crate::search::{fnv1a, stable_hash, is_decode_step, is_encode_step};
use crate::strings::{count_char, str_equal};
use std::collections::HashMap;
use vstd::prelude::*;
use vstd::utf8::encode_utf8;

verus! {

/// Order keys of a state's score, as the caller's scoring computes them.
/// `rank` orders scores as `f64::total_cmp` does, `compare` as `>` does
/// (both zeros equal), and `priority` orders the frontier priority as
/// `f64::total_cmp` does. Greater keys mean better states.
#[derive(Clone, Copy, Debug, PartialEq, Eq)]
pub struct ScoreKeys {
    pub rank: u64,
    pub compare: u64,
    pub priority: u64,
}

/// What the search starts from: the text under analysis, the raw bytes when
/// there are any, and the codec of a byte-order mark.
pub type Origin = (Seq<char>, Option<Seq<u8>>, Option<Codec>);

/// The view of optional raw bytes.
pub open spec fn opt_bytes(raw: Option<&[u8]>) -> Option<Seq<u8>> {
    match raw {
        Some(b) => Some(b@),
        None => None,
    }
}

/// A text that starts the search: the pasted text itself, or the raw bytes
/// read with one of the codecs (only the BOM's codec when there is a BOM).
pub open spec fn is_seed_text(t: Seq<char>, o: Origin) -> bool {
    ||| o.1 is None && t == o.0
    ||| o.1 is Some && exists|c: Codec|
        #![trigger decode_text_spec(o.1->0, c)]
        (o.2 is None || o.2 == Some(c)) && decode_text_spec(o.1->0, c).0 == t
}

/// The text one admissible repair makes of `parent`: encoded strictly with
/// the suspected wrong codec, then decoded with another target codec.
pub open spec fn repair_of(parent: Seq<char>, wrong: Codec, target: Codec) -> Option<Seq<char>> {
    match wrong_codec_bytes_spec(parent, wrong) {
        None => None,
        Some(bytes) => if target_allowed_spec(bytes, wrong, target) && repair_admits(parent, bytes, target) {
            Some(decode_text_spec(bytes, target).0)
        } else {
            None
        },
    }
}

/// `t` is a seed text or is reached from one by at most `depth` repairs.
pub open spec fn derivable(t: Seq<char>, depth: nat, o: Origin) -> bool
    decreases depth,
{
    is_seed_text(t, o) || (depth > 0 && exists|p: Seq<char>, w: Codec, g: Codec|
        #[trigger] repair_of(p, w, g) == Some(t) && derivable(p, (depth - 1) as nat, o))
}

/// What is reachable in `d` repairs is reachable in more.
pub proof fn lemma_derivable_mono(t: Seq<char>, d: nat, e: nat, o: Origin)
    requires
        derivable(t, d, o),
        d <= e,
    ensures
        derivable(t, e, o),
    decreases d,
{
    if d < e && !is_seed_text(t, o) {
        let (p, w, g) = choose|p: Seq<char>, w: Codec, g: Codec|
            #[trigger] repair_of(p, w, g) == Some(t) && derivable(p, (d - 1) as nat, o);
        lemma_derivable_mono(p, (d - 1) as nat, (e - 1) as nat, o);
        assert(repair_of(p, w, g) == Some(t));
    }
}

/// What a replayed path holds between two steps.
pub enum PathData {
    Bytes(Seq<u8>),
    Text(Seq<char>),
}

/// What replaying one recorded step with `transform` makes of `data`: the
/// codec named by the step applied to it, provided the step records exactly
/// that transition (as `transform` records it).
pub open spec fn replay_step(data: PathData, step: TransformationStep) -> Option<PathData> {
    match parse_label(step.encoding@) {
        None => None,
        Some(c) => match data {
            PathData::Text(t) => match encode_spec(c, t) {
                Ok(b) => if is_encode_step(step, t, b, c, decode_text_spec(b, c).0 != t) {
                    Some(PathData::Bytes(b))
                } else {
                    None
                },
                Err(_) => None,
            },
            PathData::Bytes(b) => {
                let (t, e) = decode_text_spec(b, c);
                if is_decode_step(step, b, t, c, e || !round_trips(b, c, t, e), count_char(t, '\u{FFFD}')) {
                    Some(PathData::Text(t))
                } else {
                    None
                }
            },
        },
    }
}

/// Replays a path step by step from `data`; `None` when a step does not
/// record what `transform` does there.
pub open spec fn replay_path(data: PathData, steps: Seq<TransformationStep>) -> Option<PathData>
    decreases steps.len(),
{
    if steps.len() == 0 {
        Some(data)
    } else {
        match replay_path(data, steps.drop_last()) {
            Some(d) => replay_step(d, steps.last()),
            None => None,
        }
    }
}

/// Where every path starts: the raw bytes, or the pasted text.
pub open spec fn path_start(o: Origin) -> PathData {
    match o.1 {
        Some(b) => PathData::Bytes(b),
        None => PathData::Text(o.0),
    }
}

/// Steps before the repairs: the decode of the raw bytes, if any.
pub open spec fn path_base(o: Origin) -> int {
    if o.1 is Some { 1 } else { 0 }
}

/// A state's recorded path: replaying it with `transform` from the start
/// reproduces every step and ends in the state's text; it is one decode
/// followed by encode/decode repair pairs for bytes, and repair pairs alone
/// for pasted text; a state is reversible exactly when it inherits no loss
/// and (for bytes) its first decode records none; a reversible state is not
/// lossy, a repaired state is reversible and does not keep the original
/// interpretation, and no repair step records loss or a replacement
/// character.
pub open spec fn path_ok(s: &RecoveryState, o: Origin) -> bool {
    &&& replay_path(path_start(o), s.steps@) == Some(PathData::Text(s.text@))
    &&& s.steps@.len() % 2 == path_base(o)
    &&& s.reversible == (s.inherited_loss == 0 && (o.1 is None || !s.steps@[0].lossy))
    &&& s.reversible ==> !s.lossy
    &&& s.depth > 0 ==> s.reversible && !s.preserve
    &&& repairs_change_text(s.steps@, o)
    &&& forall|i: int|
        #![trigger s.steps@[i]]
        path_base(o) <= i < s.steps@.len() ==> !s.steps@[i].lossy && s.steps@[i].replacement_count == 0
}

/// Each repair pair of a path changes the text: replaying the path up to the
/// pair and through it gives different results.
pub open spec fn repairs_change_text(steps: Seq<TransformationStep>, o: Origin) -> bool {
    forall|k: int|
        path_base(o) <= k && k + 2 <= steps.len() && (k - path_base(o)) % 2 == 0 ==> #[trigger] replay_path(
            path_start(o),
            steps.take(k),
        ) != replay_path(path_start(o), steps.take(k + 2))
}

/// Paths recording the same transitions replay alike.
proof fn lemma_replay_same(data: PathData, a: Seq<TransformationStep>, b: Seq<TransformationStep>)
    requires
        a.len() == b.len(),
        forall|i: int| 0 <= i < a.len() ==> same_step(#[trigger] a[i], b[i]),
    ensures
        replay_path(data, a) == replay_path(data, b),
    decreases a.len(),
{
    if a.len() > 0 {
        lemma_replay_same(data, a.drop_last(), b.drop_last());
        assert(same_step(a[a.len() - 1], b[b.len() - 1]));
    }
}

/// A copy of a state (steps recording the same transitions, same text and
/// flags) keeps a valid path.
proof fn lemma_path_ok_copy(a: &RecoveryState, b: &RecoveryState, o: Origin)
    requires
        path_ok(a, o),
        b.text@ == a.text@,
        b.steps@.len() == a.steps@.len(),
        forall|i: int| 0 <= i < a.steps@.len() ==> same_step(#[trigger] b.steps@[i], a.steps@[i]),
        b.depth == a.depth,
        b.reversible == a.reversible,
        b.lossy == a.lossy,
        b.inherited_loss == a.inherited_loss,
        b.preserve == a.preserve,
    ensures
        path_ok(b, o),
{
    lemma_replay_same(path_start(o), b.steps@, a.steps@);
    assert forall|i: int| path_base(o) <= i < b.steps@.len() implies !b.steps@[i].lossy && b.steps@[i].replacement_count == 0 by {
        assert(same_step(b.steps@[i], a.steps@[i]));
    }
    assert forall|k: int| 0 <= k <= b.steps@.len() implies #[trigger] replay_path(path_start(o), b.steps@.take(k))
        == replay_path(path_start(o), a.steps@.take(k)) by {
        assert forall|i: int| 0 <= i < k implies same_step(#[trigger] b.steps@.take(k)[i], a.steps@.take(k)[i]) by {
            assert(same_step(b.steps@[i], a.steps@[i]));
        }
        lemma_replay_same(path_start(o), b.steps@.take(k), a.steps@.take(k));
    }
    assert forall|k: int|
        path_base(o) <= k && k + 2 <= b.steps@.len() && (k - path_base(o)) % 2 == 0 implies #[trigger] replay_path(
        path_start(o),
        b.steps@.take(k),
    ) != replay_path(path_start(o), b.steps@.take(k + 2)) by {
        assert(replay_path(path_start(o), b.steps@.take(k)) == replay_path(path_start(o), a.steps@.take(k)));
        assert(replay_path(path_start(o), b.steps@.take(k + 2)) == replay_path(path_start(o), a.steps@.take(k + 2)));
    }
}

/// Replaying a path with one more step.
proof fn lemma_replay_push(data: PathData, steps: Seq<TransformationStep>, step: TransformationStep)
    ensures
        replay_path(data, steps.push(step)) == match replay_path(data, steps) {
            Some(d) => replay_step(d, step),
            None => None,
        },
{
    assert(steps.push(step).drop_last() =~= steps);
}

/// A state carries the replacement loss already in the evidence: it records
/// it, and a state with such loss is lossy and not reversible.
pub open spec fn carries_loss(s: &RecoveryState, inherited: nat) -> bool {
    &&& s.inherited_loss == inherited
    &&& inherited > 0 ==> s.lossy && !s.reversible
}

/// The states found so far, each text once, with what the search keeps
/// beside each: its FNV-1a index digest (and the index from each digest to
/// the slots that have it), its order keys, how many other
/// paths reached it, and whether it was expanded. `layers` records the
/// layer in which each slot was created, `inherited` the replacement loss
/// that every state carries, and `cap` the depth no state exceeds.
struct Pool {
    states: Vec<RecoveryState>,
    hashes: Vec<u64>,
    index: HashMap<u64, Vec<usize>>,
    keys: Vec<ScoreKeys>,
    alternatives: Vec<usize>,
    expanded: Vec<bool>,
    layers: Ghost<Seq<nat>>,
    inherited: Ghost<nat>,
    cap: Ghost<nat>,
    first: Ghost<(RecoveryState, ScoreKeys)>,
}

impl Pool {
    spec fn len(&self) -> nat {
        self.states@.len()
    }

    spec fn text(&self, i: int) -> Seq<char> {
        self.states@[i].text@
    }

    /// The pool's invariant: parallel columns, at most `MAX_STATES` slots,
    /// digests of the texts, distinct texts, every text derivable within the
    /// depth of its state and within the layer of its slot, and no more
    /// alternatives than decodes examined.
    spec fn wf(&self, o: Origin, explored: nat) -> bool {
        let n = self.states@.len();
        &&& self.hashes@.len() == n
        &&& self.keys@.len() == n
        &&& self.alternatives@.len() == n
        &&& self.expanded@.len() == n
        &&& self.layers@.len() == n
        &&& n <= MAX_STATES
        &&& forall|i: int| #![trigger self.hashes@[i]] #![trigger self.states@[i]] 0 <= i < n ==> self.hashes@[i] == fnv1a(encode_utf8(self.states@[i].text@))
        &&& forall|i: int| #![trigger self.hashes@[i]] 0 <= i < n ==> self.index@.contains_key(self.hashes@[i])
            && self.index@[self.hashes@[i]]@.contains(i as usize)
        &&& forall|h: u64, j: int| #![trigger self.index@[h]@[j]] self.index@.contains_key(h) && 0 <= j < self.index@[h]@.len()
            ==> (self.index@[h]@[j] as int) < n && self.hashes@[self.index@[h]@[j] as int] == h
        &&& forall|i: int, j: int| #![trigger self.states@[i], self.states@[j]] 0 <= i < j < n ==> self.states@[i].text@ != self.states@[j].text@
        &&& forall|i: int| #![trigger self.states@[i]] 0 <= i < n ==> derivable(self.states@[i].text@, self.states@[i].depth as nat, o)
        &&& forall|i: int| #![trigger self.states@[i]] 0 <= i < n ==> self.states@[i].depth <= MAX_DEPTH
        &&& forall|i: int| #![trigger self.layers@[i]] 0 <= i < n ==> derivable(self.states@[i].text@, self.layers@[i], o)
        &&& forall|i: int| #![trigger self.layers@[i]] 0 <= i < n ==> self.layers@[i] <= MAX_DEPTH
        &&& forall|i: int| #![trigger self.alternatives@[i]] 0 <= i < n ==> self.alternatives@[i] <= explored
        &&& self.cap@ <= MAX_DEPTH
        &&& forall|i: int| #![trigger self.states@[i]] 0 <= i < n ==> carries_loss(&self.states@[i], self.inherited@)
            && self.states@[i].depth <= self.cap@
        &&& forall|i: int| #![trigger self.states@[i]] 0 <= i < n ==> encode_utf8(self.states@[i].text@).len() <= usize::MAX / 32
        &&& forall|i: int| #![trigger self.states@[i]] 0 <= i < n ==> path_ok(&self.states@[i], o)
    }

    /// Slots that existed before keep their text, layer and expansion mark.
    spec fn extends(&self, earlier: &Pool) -> bool {
        &&& earlier.states@.len() <= self.states@.len()
        &&& self.inherited == earlier.inherited
        &&& self.cap == earlier.cap
        &&& earlier.states@.len() > 0 ==> self.first == earlier.first
        &&& forall|i: int| #![trigger self.states@[i]] 0 <= i < earlier.states@.len() ==> self.states@[i].text@ == earlier.states@[i].text@
        &&& forall|i: int| #![trigger self.layers@[i]] 0 <= i < earlier.states@.len() ==> self.layers@[i] == earlier.layers@[i]
    }
}

/// For pasted text, the first slot holds the unchanged text, as the state
/// with no steps at depth 0 or as one reached back by at least two repairs;
/// with one repair layer, always the former, and no other path reached it.
/// A deeper state replaced the first one only with a strictly greater
/// compare key (the first state and its keys are recorded in `first`).
spec fn slot0_ok<F: Fn(&RecoveryState) -> ScoreKeys>(pool: &Pool, o: Origin, score: &F) -> bool {
    o.1 is None && pool.states@.len() > 0 ==> {
        &&& pool.text(0) == o.0
        &&& pool.first@.0.text@ == o.0 && pool.first@.0.depth == 0 && pool.first@.0.steps@.len() == 0
        &&& pool.first@.0.reversible == (pool.inherited@ == 0) && pool.first@.0.lossy == (pool.inherited@ > 0)
            && pool.first@.0.inherited_loss == pool.inherited@
        &&& pool.first@.0.validated_unicode && !pool.first@.0.unsupported_utf16
        &&& score.ensures((&pool.first@.0,), pool.first@.1)
        &&& pool.keys@.len() > 0
        &&& (pool.states@[0].depth == 0 && pool.states@[0].steps@.len() == 0 && pool.keys@[0] == pool.first@.1) || (
        pool.states@[0].depth >= 2 && pool.keys@[0].compare > pool.first@.1.compare && !pool.states@[0].preserve
            && !pool.states@[0].detector_match && !pool.states@[0].bom_or_pattern)
        &&& pool.cap@ <= 1 ==> pool.states@[0].depth == 0 && pool.states@[0].steps@.len() == 0
            && pool.alternatives@.len() > 0 && pool.alternatives@[0] == 0
    }
}

/// Every state of the pool carries the order keys that `score` gave it.
spec fn keyed<F: Fn(&RecoveryState) -> ScoreKeys>(pool: &Pool, score: &F) -> bool {
    forall|i: int|
        #![trigger pool.keys@[i]]
        0 <= i < pool.keys@.len() && i < pool.states@.len() ==> score.ensures((&pool.states@[i],), pool.keys@[i])
}

/// The slot among `list` whose text is `text`.
fn find_slot(pool: &Pool, list: &Vec<usize>, text: &str) -> (r: Option<usize>)
    requires
        forall|j: int| 0 <= j < list@.len() ==> (#[trigger] list@[j] as int) < pool.states@.len(),
    ensures
        match r {
            Some(i) => (i as int) < pool.states@.len() && pool.text(i as int) == text@,
            None => forall|j: int| 0 <= j < list@.len() ==> pool.text(#[trigger] list@[j] as int) != text@,
        },
{
    let mut j: usize = 0;
    while j < list.len()
        invariant
            j <= list@.len(),
            forall|jj: int| 0 <= jj < list@.len() ==> (#[trigger] list@[jj] as int) < pool.states@.len(),
            forall|jj: int| 0 <= jj < j ==> pool.text(#[trigger] list@[jj] as int) != text@,
        decreases list@.len() - j,
    {
        let i = list[j];
        if str_equal(pool.states[i].text.as_str(), text) {
            return Some(i);
        }
        j = j + 1;
    }
    None
}

/// Adds a state to the pool. A text already present counts one more
/// alternative path and the state replaces the stored one when its score is
/// strictly greater; a new text gets a new slot unless the pool is full.
/// Returns the new slot.
fn insert<F: Fn(&RecoveryState) -> ScoreKeys>(
    pool: &mut Pool,
    state: RecoveryState,
    layer: usize,
    score: &F,
    explored: usize,
    Ghost(o): Ghost<Origin>,
) -> (r: Option<usize>)
    requires
        explored >= 1,
        old(pool).wf(o, (explored - 1) as nat),
        derivable(state.text@, state.depth as nat, o),
        derivable(state.text@, layer as nat, o),
        state.depth <= MAX_DEPTH,
        layer <= MAX_DEPTH,
        carries_loss(&state, old(pool).inherited@),
        state.depth <= old(pool).cap@,
        encode_utf8(state.text@).len() <= usize::MAX / 32,
        path_ok(&state, o),
        o.1 is None && old(pool).states@.len() > 0 && state.text@ == o.0 ==> state.depth >= 2 && !state.preserve
            && !state.detector_match && !state.bom_or_pattern,
        o.1 is None && old(pool).states@.len() == 0 ==> state.text@ == o.0 && state.depth == 0 && state.steps@.len() == 0
            && state.reversible == (old(pool).inherited@ == 0) && state.lossy == (old(pool).inherited@ > 0)
            && state.validated_unicode && !state.unsupported_utf16,
        forall|s: &RecoveryState| #[trigger] score.requires((s,)),
        keyed(old(pool), score),
    ensures
        slot0_ok(old(pool), o, score) ==> slot0_ok(final(pool), o, score),
        final(pool).wf(o, explored as nat),
        final(pool).extends(old(pool)),
        keyed(final(pool), score),
        forall|i: int| #![trigger final(pool).expanded@[i]] 0 <= i < old(pool).len() ==> final(pool).expanded@[i] == old(pool).expanded@[i],
        final(pool).len() <= old(pool).len() + 1,
        match r {
            Some(id) => id == old(pool).len() && final(pool).len() == id + 1
                && !final(pool).expanded@[id as int] && final(pool).layers@[id as int] == layer
                && final(pool).states@[id as int] == state,
            None => final(pool).len() == old(pool).len(),
        },
        old(pool).len() < MAX_STATES ==> exists|i: int|
            0 <= i < final(pool).len() && #[trigger] final(pool).text(i) == state.text@,
        r matches Some(id) ==> final(pool).alternatives@[id as int] == 0,
        forall|e: int|
            #![trigger old(pool).states@[e]]
            0 <= e < old(pool).len() && old(pool).text(e) == state.text@ ==> r is None
                && final(pool).alternatives@[e] == old(pool).alternatives@[e] + 1 && ((final(pool).states@[e] == state
                && final(pool).keys@[e].compare > old(pool).keys@[e].compare) || (final(pool).states@[e]
                == old(pool).states@[e] && final(pool).keys@[e] == old(pool).keys@[e] && exists|k: ScoreKeys|
                #[trigger] score.ensures((&state,), k) && k.compare <= old(pool).keys@[e].compare)),
        forall|i: int|
            #![trigger final(pool).states@[i]]
            0 <= i < old(pool).len() && old(pool).text(i) != state.text@ ==> final(pool).states@[i]
                == old(pool).states@[i] && final(pool).keys@[i] == old(pool).keys@[i] && final(pool).alternatives@[i]
                == old(pool).alternatives@[i],
        (forall|e: int| 0 <= e < old(pool).len() ==> #[trigger] old(pool).text(e) != state.text@) ==> r == (if old(
            pool,
        ).len() < MAX_STATES {
            Some(old(pool).len() as usize)
        } else {
            None::<usize>
        }),
{
    broadcast use vstd::std_specs::hash::group_hash_axioms;
    let key = score(&state);
    let digest = stable_hash(state.text.as_str().as_bytes());
    let n = pool.states.len();
    let got = pool.index.get(&digest);
    let candidate = match got {
        Some(list) => find_slot(pool, list, state.text.as_str()),
        None => None,
    };
    proof {
        assert forall|k: int| 0 <= k < n && pool.text(k) == state.text@ implies candidate is Some by {
            assert(pool.hashes@[k] == digest);
            assert(pool.index@.contains_key(digest));
            let list = got->0;
            assert(pool.index@[digest] == *list);
            assert(list@.contains(k as usize));
            let j = choose|j: int| 0 <= j < list@.len() && list@[j] == k as usize;
            assert(pool.text(list@[j] as int) == state.text@);
        }
    }
    if let Some(i) = candidate {
        assert(pool.alternatives@[i as int] <= explored - 1);
        let count = pool.alternatives[i] + 1;
        pool.alternatives.set(i, count);
        let ghost st = state;
        if key.compare > pool.keys[i].compare {
            pool.states.set(i, state);
            pool.keys.set(i, key);
        }
        proof {
            assert(pool.text(i as int) == old(pool).text(i as int));
            if slot0_ok(old(pool), o, score) && o.1 is None {
                if i == 0 {
                    assert(st.text@ == o.0);
                    assert(st.depth >= 2);
                } else {
                    assert(pool.states@[0] == old(pool).states@[0]);
                    assert(pool.keys@[0] == old(pool).keys@[0]);
                }
            }
            assert forall|e: int| 0 <= e < old(pool).len() && old(pool).text(e) == st.text@ implies e == i by {
                if e < i {
                    assert(old(pool).states@[e].text@ != old(pool).states@[i as int].text@);
                } else if e > i {
                    assert(old(pool).states@[i as int].text@ != old(pool).states@[e].text@);
                }
            }
        }
        return None;
    }
    if n >= MAX_STATES {
        return None;
    }
    let ghost t = state.text@;
    let ghost before = *pool;
    let mut list = match pool.index.remove(&digest) {
        Some(v) => v,
        None => Vec::new(),
    };
    let ghost old_list = list@;
    list.push(n);
    let ghost new_list = list;
    pool.index.insert(digest, list);
    pool.states.push(state);
    pool.hashes.push(digest);
    pool.keys.push(key);
    pool.alternatives.push(0);
    pool.expanded.push(false);
    proof {
        pool.layers@ = pool.layers@.push(layer as nat);
        if n == 0 {
            pool.first@ = (pool.states@[0], key);
        }
        assert(pool.text(n as int) == t);
        assert(before.index@.contains_key(digest) ==> old_list == before.index@[digest]@);
        assert(!before.index@.contains_key(digest) ==> old_list == Seq::<usize>::empty());
        assert(pool.index@ == before.index@.insert(digest, new_list));
        assert(new_list@ == old_list.push(n));
        assert forall|i: int| #![trigger pool.hashes@[i]] 0 <= i < n + 1 implies pool.index@.contains_key(pool.hashes@[i])
            && pool.index@[pool.hashes@[i]]@.contains(i as usize) by {
            if i == n {
                assert(pool.index@[digest]@[old_list.len() as int] == n);
            } else {
                assert(pool.hashes@[i] == before.hashes@[i]);
                if before.hashes@[i] == digest {
                    let j = choose|j: int| 0 <= j < old_list.len() && old_list[j] == i as usize;
                    assert(pool.index@[digest]@[j] == i as usize);
                }
            }
        }
        assert forall|h: u64, j: int| #![trigger pool.index@[h]@[j]] pool.index@.contains_key(h) && 0 <= j < pool.index@[h]@.len()
            implies (pool.index@[h]@[j] as int) < n + 1 && pool.hashes@[pool.index@[h]@[j] as int] == h by {
            if h == digest {
                if j < old_list.len() {
                    assert(before.index@[h]@[j] == old_list[j]);
                }
            } else {
                assert(pool.index@[h] == before.index@[h]);
                assert(before.index@[h]@[j] < n);
            }
        }
    }
    Some(n)
}

/// Slot `a` comes before slot `b`: by score (greater first), then depth,
/// then path length (shorter first), then slot; with `by_priority`, by the
/// frontier priority (greater first), then depth, then slot.
spec fn precedes(pool: &Pool, a: int, b: int, by_priority: bool) -> bool {
    let ka = pool.keys@[a];
    let kb = pool.keys@[b];
    let da = pool.states@[a].depth;
    let db = pool.states@[b].depth;
    if by_priority {
        ka.priority > kb.priority || (ka.priority == kb.priority && (da < db || (da == db && a < b)))
    } else {
        let la = pool.states@[a].steps@.len();
        let lb = pool.states@[b].steps@.len();
        ka.rank > kb.rank || (ka.rank == kb.rank && (da < db || (da == db && (la < lb || (la == lb
            && a < b)))))
    }
}

/// Every slot of `s` comes before every later one.
spec fn sorted(pool: &Pool, s: Seq<usize>, by_priority: bool) -> bool {
    forall|i: int, j: int|
        #![trigger s[i], s[j]]
        0 <= i < j < s.len() ==> precedes(pool, s[i] as int, s[j] as int, by_priority)
}

/// Every entry of `s` is a slot of the pool.
spec fn in_pool(pool: &Pool, s: Seq<usize>) -> bool {
    forall|i: int| #![trigger s[i]] 0 <= i < s.len() ==> s[i] < pool.states@.len()
}

fn precedes_exec(pool: &Pool, a: usize, b: usize, by_priority: bool) -> (r: bool)
    requires
        a < pool.states@.len(),
        b < pool.states@.len(),
        pool.keys@.len() == pool.states@.len(),
    ensures
        r == precedes(pool, a as int, b as int, by_priority),
{
    let ka = pool.keys[a];
    let kb = pool.keys[b];
    let da = pool.states[a].depth;
    let db = pool.states[b].depth;
    if by_priority {
        ka.priority > kb.priority || (ka.priority == kb.priority && (da < db || (da == db && a < b)))
    } else {
        let la = pool.states[a].steps.len();
        let lb = pool.states[b].steps.len();
        ka.rank > kb.rank || (ka.rank == kb.rank && (da < db || (da == db && (la < lb || (la == lb
            && a < b)))))
    }
}

/// Where `x` goes in the sorted `out`: after every slot that it does not
/// come before.
fn position(pool: &Pool, out: &Vec<usize>, x: usize, by_priority: bool) -> (p: usize)
    requires
        x < pool.states@.len(),
        pool.keys@.len() == pool.states@.len(),
        in_pool(pool, out@),
    ensures
        p <= out@.len(),
        forall|q: int| 0 <= q < p ==> !precedes(pool, x as int, #[trigger] out@[q] as int, by_priority),
        p < out@.len() ==> precedes(pool, x as int, out@[p as int] as int, by_priority),
{
    let mut p: usize = 0;
    while p < out.len()
        invariant
            p <= out@.len(),
            x < pool.states@.len(),
            pool.keys@.len() == pool.states@.len(),
            in_pool(pool, out@),
            forall|q: int| 0 <= q < p ==> !precedes(pool, x as int, #[trigger] out@[q] as int, by_priority),
        decreases out@.len() - p,
    {
        if precedes_exec(pool, x, out[p], by_priority) {
            return p;
        }
        p = p + 1;
    }
    p
}

/// The slots of `ids`, ordered best first.
fn rank(pool: &Pool, ids: &Vec<usize>, by_priority: bool) -> (r: Vec<usize>)
    requires
        in_pool(pool, ids@),
        ids@.no_duplicates(),
        pool.keys@.len() == pool.states@.len(),
    ensures
        r@.len() == ids@.len(),
        forall|y: usize| r@.contains(y) <==> ids@.contains(y),
        sorted(pool, r@, by_priority),
        in_pool(pool, r@),
{
    let mut out: Vec<usize> = Vec::new();
    let mut k: usize = 0;
    while k < ids.len()
        invariant
            k <= ids@.len(),
            out@.len() == k,
            in_pool(pool, ids@),
            ids@.no_duplicates(),
            pool.keys@.len() == pool.states@.len(),
            in_pool(pool, out@),
            forall|y: usize| out@.contains(y) <==> ids@.take(k as int).contains(y),
            sorted(pool, out@, by_priority),
        decreases ids@.len() - k,
    {
        let x = ids[k];
        let p = position(pool, &out, x, by_priority);
        let ghost before = out@;
        proof {
            before.insert_ensures(p as int, x);
            assert(!before.contains(x)) by {
                if before.contains(x) {
                    let j = choose|j: int| 0 <= j < k && #[trigger] ids@.take(k as int)[j] == x;
                    assert(ids@[j] == ids@[k as int]);
                }
            }
        }
        out.insert(p, x);
        proof {
            let now = out@;
            assert forall|i: int| 0 <= i < now.len() implies #[trigger] now[i] < pool.states@.len() by {
                if i < p {
                    assert(now[i] == before[i]);
                } else if i > p {
                    assert(now[i] == before[i - 1]);
                }
            }
            assert forall|i: int, j: int| 0 <= i < j < now.len() implies precedes(
                pool,
                #[trigger] now[i] as int,
                #[trigger] now[j] as int,
                by_priority,
            ) by {
                if j < p {
                    assert(now[i] == before[i] && now[j] == before[j]);
                } else if j == p {
                    assert(now[i] == before[i]);
                    assert(!precedes(pool, x as int, before[i] as int, by_priority));
                    assert(before.contains(before[i]));
                } else if i < p {
                    assert(now[i] == before[i] && now[j] == before[j - 1]);
                } else if i == p {
                    assert(now[j] == before[j - 1]);
                    if j - 1 > p {
                        assert(precedes(pool, before[p as int] as int, before[j - 1] as int, by_priority));
                    }
                } else {
                    assert(now[i] == before[i - 1] && now[j] == before[j - 1]);
                }
            }
            assert forall|y: usize| now.contains(y) <==> ids@.take(k + 1).contains(y) by {
                if now.contains(y) {
                    let j = choose|j: int| 0 <= j < now.len() && now[j] == y;
                    if j == p {
                        assert(ids@.take(k + 1)[k as int] == y);
                    } else {
                        let b = if j < p { j } else { j - 1 };
                        assert(before[b] == y);
                        assert(before.contains(y));
                        let m = choose|m: int| 0 <= m < k && #[trigger] ids@.take(k as int)[m] == y;
                        assert(ids@.take(k + 1)[m] == y);
                    }
                }
                if ids@.take(k + 1).contains(y) {
                    let m = choose|m: int| 0 <= m < k + 1 && #[trigger] ids@.take(k + 1)[m] == y;
                    if m == k {
                        assert(now[p as int] == y);
                    } else {
                        assert(ids@.take(k as int)[m] == y);
                        assert(before.contains(y));
                        let b = choose|b: int| 0 <= b < before.len() && before[b] == y;
                        if b < p {
                            assert(now[b] == y);
                        } else {
                            assert(now[b + 1] == y);
                        }
                    }
                }
            }
        }
        k = k + 1;
    }
    proof {
        assert(ids@.take(ids@.len() as int) =~= ids@);
    }
    out
}

/// A copy of a state.
fn clone_state(s: &RecoveryState) -> (r: RecoveryState)
    ensures
        r.text@ == s.text@,
        r.steps@.len() == s.steps@.len(),
        forall|i: int| 0 <= i < s.steps@.len() ==> same_step(#[trigger] r.steps@[i], s.steps@[i]),
        r.depth == s.depth,
        r.reversible == s.reversible,
        r.lossy == s.lossy,
        r.inherited_loss == s.inherited_loss,
        r.preserve == s.preserve,
        r.detector_match == s.detector_match,
        r.bom_or_pattern == s.bom_or_pattern,
        r.unsupported_utf16 == s.unsupported_utf16,
        r.validated_unicode == s.validated_unicode,
        r.alternatives == s.alternatives,
{
    RecoveryState {
        text: s.text.clone(),
        steps: clone_steps(&s.steps),
        depth: s.depth,
        reversible: s.reversible,
        lossy: s.lossy,
        inherited_loss: s.inherited_loss,
        preserve: s.preserve,
        detector_match: s.detector_match,
        bom_or_pattern: s.bom_or_pattern,
        unsupported_utf16: s.unsupported_utf16,
        validated_unicode: s.validated_unicode,
        alternatives: s.alternatives,
    }
}

/// Some slot of the pool holds `t`.
spec fn found(pool: &Pool, t: Seq<char>) -> bool {
    exists|i: int| 0 <= i < pool.states@.len() && #[trigger] pool.text(i) == t
}

/// Every admissible repair of `parent` with a wrong codec among the first
/// `w` of `CODECS` is held by the pool.
spec fn repairs_found(pool: &Pool, parent: Seq<char>, w: int) -> bool {
    forall|wi: int, g: Codec|
        0 <= wi < w && #[trigger] repair_of(parent, codec_order(wi), g) is Some ==> found(
            pool,
            repair_of(parent, codec_order(wi), g)->0,
        )
}

/// A text held before is still held by a pool that extends it.
proof fn lemma_found_kept(earlier: &Pool, later: &Pool, t: Seq<char>)
    requires
        found(earlier, t),
        later.extends(earlier),
    ensures
        found(later, t),
{
    let i = choose|i: int| 0 <= i < earlier.states@.len() && #[trigger] earlier.text(i) == t;
    assert(later.text(i) == t);
}

/// The slots added since `earlier`: as many as the entries of `next` from
/// position `n0` on, which are among them; none is expanded, and each holds
/// a text that `earlier` did not hold and that satisfies `from`.
spec fn grew_by(pool: &Pool, earlier: &Pool, next: Seq<usize>, n0: int, from: spec_fn(Seq<char>) -> bool) -> bool {
    &&& 0 <= n0 <= next.len()
    &&& pool.states@.len() - earlier.states@.len() == next.len() - n0
    &&& forall|i: int| n0 <= i < next.len() ==> earlier.states@.len() <= #[trigger] next[i]
    &&& forall|i: int| earlier.states@.len() <= i < pool.states@.len() ==> !(#[trigger] pool.expanded@[i])
    &&& forall|i: int|
        #![trigger pool.states@[i]]
        earlier.states@.len() <= i < pool.states@.len() ==> !found(earlier, pool.states@[i].text@) && from(
            pool.states@[i].text@,
        )
}

/// One more insertion keeps the record of what was added.
proof fn lemma_grew_step(
    earlier: &Pool,
    before: &Pool,
    after: &Pool,
    nb: Seq<usize>,
    na: Seq<usize>,
    n0: int,
    from: spec_fn(Seq<char>) -> bool,
    t: Seq<char>,
    added: Option<usize>,
)
    requires
        grew_by(before, earlier, nb, n0, from),
        before.extends(earlier),
        after.extends(before),
        after.expanded@.len() == after.states@.len(),
        forall|i: int| 0 <= i < before.states@.len() ==> #[trigger] after.expanded@[i] == before.expanded@[i],
        match added {
            Some(id) => id == before.states@.len() && after.states@.len() == id + 1 && !after.expanded@[id as int]
                && after.text(id as int) == t && !found(before, t) && from(t) && na == nb.push(id),
            None => after.states@.len() == before.states@.len() && na == nb,
        },
    ensures
        grew_by(after, earlier, na, n0, from),
{
    assert forall|i: int| #![trigger after.states@[i]] earlier.states@.len() <= i < after.states@.len() implies !found(
        earlier,
        after.states@[i].text@,
    ) && from(after.states@[i].text@) by {
        if i < before.states@.len() {
            assert(after.text(i) == before.text(i));
            assert(before.states@[i].text@ == before.text(i));
        } else {
            if found(earlier, t) {
                lemma_found_kept(earlier, before, t);
            }
        }
    }
    assert forall|i: int| earlier.states@.len() <= i < after.states@.len() implies !(#[trigger] after.expanded@[i]) by {
        if i < before.states@.len() {
            assert(after.expanded@[i] == before.expanded@[i]);
            assert(!before.expanded@[i]);
        }
    }
    assert forall|i: int| n0 <= i < na.len() implies earlier.states@.len() <= #[trigger] na[i] by {
        if i < nb.len() {
            assert(na[i] == nb[i]);
        }
    }
}

/// The record of what was added depends only on the earlier slots' states.
proof fn lemma_grew_rebase(
    pool: &Pool,
    mid: &Pool,
    earlier: &Pool,
    next: Seq<usize>,
    n0: int,
    from: spec_fn(Seq<char>) -> bool,
)
    requires
        grew_by(pool, mid, next, n0, from),
        mid.states@ == earlier.states@,
    ensures
        grew_by(pool, earlier, next, n0, from),
{
    assert forall|i: int| #![trigger pool.states@[i]] earlier.states@.len() <= i < pool.states@.len() implies !found(
        earlier,
        pool.states@[i].text@,
    ) && from(pool.states@[i].text@) by {
        if found(earlier, pool.states@[i].text@) {
            let e = choose|e: int| 0 <= e < earlier.states@.len() && #[trigger] earlier.text(e) == pool.states@[i].text@;
            assert(mid.text(e) == earlier.text(e));
        }
    }
}

/// A weaker condition on the added texts still holds.
proof fn lemma_grew_weaken(
    pool: &Pool,
    earlier: &Pool,
    next: Seq<usize>,
    n0: int,
    from: spec_fn(Seq<char>) -> bool,
    from2: spec_fn(Seq<char>) -> bool,
)
    requires
        grew_by(pool, earlier, next, n0, from),
        forall|t: Seq<char>| #[trigger] from(t) ==> from2(t),
    ensures
        grew_by(pool, earlier, next, n0, from2),
{
    assert forall|i: int| #![trigger pool.states@[i]] earlier.states@.len() <= i < pool.states@.len() implies !found(
        earlier,
        pool.states@[i].text@,
    ) && from2(pool.states@[i].text@) by {
        assert(from(pool.states@[i].text@));
    }
}

/// A repair of a parent with a valid path has a valid path.
proof fn lemma_child_path(
    parent: &RecoveryState,
    child: &RecoveryState,
    bytes: Seq<u8>,
    wrong: Codec,
    target: Codec,
    d: &crate::codec::Decoded,
    depth: usize,
    o: Origin,
)
    requires
        path_ok(parent, o),
        parent.reversible,
        depth >= 1,
        wrong_codec_bytes_spec(parent.text@, wrong) == Some(bytes),
        (d.text@, d.had_errors) == decode_text_spec(bytes, target),
        d.round_trip == round_trips(bytes, target, d.text@, d.had_errors),
        d.replacement_count == count_char(d.text@, '\u{FFFD}'),
        repair_admits(parent.text@, bytes, target),
        crate::recovery::is_child_state(child, parent, bytes, wrong, target, d, depth),
    ensures
        path_ok(child, o),
{
    let n = parent.steps@.len() as int;
    let cs = child.steps@;
    let v = path_start(o);
    lemma_parse_reads_name(wrong);
    lemma_parse_reads_name(target);
    assert forall|i: int| 0 <= i < n implies same_step(#[trigger] cs.take(n)[i], parent.steps@[i]) by {
        assert(cs.take(n)[i] == cs[i]);
    }
    lemma_replay_same(v, cs.take(n), parent.steps@);
    lemma_replay_push(v, cs.take(n), cs[n]);
    assert(cs.take(n).push(cs[n]) =~= cs.take(n + 1));
    lemma_replay_push(v, cs.take(n + 1), cs[n + 1]);
    assert(cs.take(n + 1).push(cs[n + 1]) =~= cs);
    assert(encode_spec(wrong, parent.text@) == Ok::<Seq<u8>, Seq<char>>(bytes));
    assert(decode_text_spec(bytes, wrong).0 == parent.text@);
    assert(replay_step(PathData::Text(parent.text@), cs[n]) == Some(PathData::Bytes(bytes)));
    assert(replay_step(PathData::Bytes(bytes), cs[n + 1]) == Some(PathData::Text(child.text@)));
    assert forall|i: int| path_base(o) <= i < cs.len() implies !cs[i].lossy && cs[i].replacement_count == 0 by {
        if i < n {
            assert(same_step(cs[i], parent.steps@[i]));
        }
    }
    assert forall|k: int| 0 <= k <= n implies #[trigger] replay_path(v, cs.take(k)) == replay_path(v, parent.steps@.take(k)) by {
        assert forall|i: int| 0 <= i < k implies same_step(#[trigger] cs.take(k)[i], parent.steps@.take(k)[i]) by {
            assert(same_step(cs[i], parent.steps@[i]));
        }
        lemma_replay_same(v, cs.take(k), parent.steps@.take(k));
    }
    assert(cs.take(n + 2) =~= cs);
    assert(parent.steps@.take(n) =~= parent.steps@);
    assert forall|k: int|
        path_base(o) <= k && k + 2 <= cs.len() && (k - path_base(o)) % 2 == 0 implies #[trigger] replay_path(
        v,
        cs.take(k),
    ) != replay_path(v, cs.take(k + 2)) by {
        if k < n {
            assert(replay_path(v, cs.take(k)) == replay_path(v, parent.steps@.take(k)));
            assert(replay_path(v, cs.take(k + 2)) == replay_path(v, parent.steps@.take(k + 2)));
        } else {
            assert(k == n);
            assert(replay_path(v, cs.take(k)) == Some(PathData::Text(parent.text@)));
            assert(replay_path(v, cs.take(k + 2)) == Some(PathData::Text(child.text@)));
        }
    }
}

/// Tries every repair of one expandable parent at layer `depth`: each strict
/// wrong-codec encoding of its text, decoded with each other allowed target,
/// while decodes remain in the budget and slots in the pool. New slots are
/// appended to `next`. Returns true when a limit stopped the search; when
/// none did, every admissible repair of the parent is in the pool.
fn expand_parent<F: Fn(&RecoveryState) -> ScoreKeys>(
    pool: &mut Pool,
    parent: &RecoveryState,
    depth: usize,
    explored: &mut usize,
    max_explored: usize,
    next: &mut Vec<usize>,
    score: &F,
    Ghost(o): Ghost<Origin>,
) -> (stop: bool)
    requires
        old(pool).wf(o, *old(explored) as nat),
        1 <= depth <= MAX_DEPTH,
        derivable(parent.text@, (depth - 1) as nat, o),
        encode_utf8(parent.text@).len() <= usize::MAX / 32,
        carries_loss(parent, old(pool).inherited@),
        path_ok(parent, o),
        parent.reversible,
        slot0_ok(old(pool), o, score),
        old(pool).states@.len() > 0,
        o.1 is None && depth == 1 ==> parent.text@ == o.0,
        depth <= old(pool).cap@,
        *old(explored) <= max_explored <= MAX_EXPLORED,
        in_pool(old(pool), old(next)@),
        old(next)@.no_duplicates(),
        forall|i: int| 0 <= i < old(next)@.len() ==> old(pool).layers@[#[trigger] old(next)@[i] as int] == depth,
        forall|s: &RecoveryState| #[trigger] score.requires((s,)),
        keyed(old(pool), score),
    ensures
        final(pool).wf(o, *final(explored) as nat),
        final(pool).extends(old(pool)),
        keyed(final(pool), score),
        *old(explored) <= *final(explored) <= max_explored,
        in_pool(final(pool), final(next)@),
        final(next)@.no_duplicates(),
        forall|i: int| 0 <= i < final(next)@.len() ==> final(pool).layers@[#[trigger] final(next)@[i] as int] == depth,
        stop ==> *old(explored) + 121 > max_explored || old(pool).states@.len() + 121 > MAX_STATES,
        !stop ==> repairs_found(final(pool), parent.text@, 11),
        slot0_ok(final(pool), o, score),
        grew_by(
            final(pool),
            old(pool),
            final(next)@,
            old(next)@.len() as int,
            |t: Seq<char>| exists|w: Codec, g: Codec| #[trigger] repair_of(parent.text@, w, g) == Some(t),
        ),
        forall|i: int| 0 <= i < old(pool).states@.len() ==> #[trigger] final(pool).expanded@[i] == old(pool).expanded@[i],
        forall|i: int| 0 <= i < old(next)@.len() ==> #[trigger] final(next)@[i] == old(next)@[i],
{
    let ghost from = |t: Seq<char>| exists|w: Codec, g: Codec| #[trigger] repair_of(parent.text@, w, g) == Some(t);
    let ghost n0 = old(next)@.len() as int;
    let mut wi: usize = 0;
    while wi < 11
        invariant
            wi <= 11,
            pool.wf(o, *explored as nat),
            pool.extends(old(pool)),
            keyed(pool, score),
            1 <= depth <= MAX_DEPTH,
            derivable(parent.text@, (depth - 1) as nat, o),
            encode_utf8(parent.text@).len() <= usize::MAX / 32,
            carries_loss(parent, pool.inherited@),
            path_ok(parent, o),
            parent.reversible,
            slot0_ok(pool, o, score),
            pool.states@.len() > 0,
            o.1 is None && depth == 1 ==> parent.text@ == o.0,
            depth <= pool.cap@,
            *old(explored) <= *explored <= max_explored <= MAX_EXPLORED,
            *explored <= *old(explored) + 11 * wi,
            pool.states@.len() <= old(pool).states@.len() + (*explored - *old(explored)),
            in_pool(pool, next@),
            next@.no_duplicates(),
            forall|i: int| 0 <= i < next@.len() ==> pool.layers@[#[trigger] next@[i] as int] == depth,
            forall|s: &RecoveryState| #[trigger] score.requires((s,)),
            repairs_found(pool, parent.text@, wi as int),
            grew_by(pool, old(pool), next@, n0, from),
            from == (|t: Seq<char>| exists|w: Codec, g: Codec| #[trigger] repair_of(parent.text@, w, g) == Some(t)),
            n0 == old(next)@.len(),
            forall|i: int| 0 <= i < old(pool).states@.len() ==> #[trigger] pool.expanded@[i] == old(pool).expanded@[i],
            forall|i: int| 0 <= i < old(next)@.len() ==> #[trigger] next@[i] == old(next)@[i],
        decreases 11 - wi,
    {
        let wrong = codec_at(wi);
        let ghost w_index = wi as int;
        wi = wi + 1;
        let ghost outer = *pool;
        let found_bytes = wrong_codec_bytes(parent.text.as_str(), wrong);
        if let Some(bytes) = found_bytes {
            let mut ti: usize = 0;
            while ti < 11
                invariant
                    ti <= 11,
                    wi == w_index + 1,
                    0 <= w_index < 11,
                    wrong == codec_order(w_index),
                    pool.wf(o, *explored as nat),
                    pool.extends(old(pool)),
                    pool.extends(&outer),
                    keyed(pool, score),
                    1 <= depth <= MAX_DEPTH,
                    derivable(parent.text@, (depth - 1) as nat, o),
                    carries_loss(parent, pool.inherited@),
                    path_ok(parent, o),
                    parent.reversible,
                    slot0_ok(pool, o, score),
                    pool.states@.len() > 0,
                    o.1 is None && depth == 1 ==> parent.text@ == o.0,
                    depth <= pool.cap@,
                    wrong_codec_bytes_spec(parent.text@, wrong) == Some(bytes@),
                    bytes@.len() <= MAX_TRANSFORM_BYTES,
                    *old(explored) <= *explored <= max_explored <= MAX_EXPLORED,
                    *explored <= *old(explored) + 11 * w_index + ti,
                    pool.states@.len() <= old(pool).states@.len() + (*explored - *old(explored)),
                    in_pool(pool, next@),
                    next@.no_duplicates(),
                    forall|i: int| 0 <= i < next@.len() ==> pool.layers@[#[trigger] next@[i] as int] == depth,
                    forall|s: &RecoveryState| #[trigger] score.requires((s,)),
                    repairs_found(&outer, parent.text@, w_index),
                    grew_by(pool, old(pool), next@, n0, from),
                    from == (|t: Seq<char>| exists|w: Codec, g: Codec| #[trigger] repair_of(parent.text@, w, g) == Some(t)),
                    n0 == old(next)@.len(),
                    forall|i: int| 0 <= i < old(pool).states@.len() ==> #[trigger] pool.expanded@[i] == old(pool).expanded@[i],
                    forall|i: int| 0 <= i < old(next)@.len() ==> #[trigger] next@[i] == old(next)@[i],
                    forall|tj: int|
                        0 <= tj < ti && #[trigger] repair_of(parent.text@, wrong, codec_order(tj)) is Some ==> found(
                            pool,
                            repair_of(parent.text@, wrong, codec_order(tj))->0,
                        ),
                decreases 11 - ti,
            {
                let target = codec_at(ti);
                let ghost t_index = ti as int;
                ti = ti + 1;
                let ghost inner = *pool;
                if target_allowed(bytes.as_slice(), wrong, target) {
                    if *explored >= max_explored || pool.states.len() >= MAX_STATES {
                        return true;
                    }
                    *explored = *explored + 1;
                    let kept = repair_decode(parent.text.as_str(), bytes.as_slice(), target);
                    if let Some((decoded, values)) = kept {
                        let ghost t = decoded.text@;
                        proof {
                            assert(repair_of(parent.text@, wrong, target) == Some(t));
                            assert(derivable(t, depth as nat, o));
                        }
                        let ghost d = decoded;
                        let child = child_state(parent, bytes.as_slice(), wrong, target, decoded, depth);
                        proof {
                            lemma_child_path(parent, &child, bytes@, wrong, target, &d, depth, o);
                        }
                        let ghost before = *pool;
                        let ghost old_next = next@;
                        let added = insert(pool, child, depth, score, *explored, Ghost(o));
                        proof {
                            assert(found(pool, t));
                            if added is Some {
                                assert(!found(&before, t)) by {
                                    if found(&before, t) {
                                        let e = choose|e: int| 0 <= e < before.states@.len() && #[trigger] before.text(e) == t;
                                        assert(before.states@[e].text@ == t);
                                    }
                                }
                            }
                            assert(from(t));
                        }
                        if let Some(id) = added {
                            proof {
                                assert(!old_next.contains(id)) by {
                                    if old_next.contains(id) {
                                        let j = choose|j: int| 0 <= j < old_next.len() && old_next[j] == id;
                                        assert(old_next[j] < before.states@.len());
                                    }
                                }
                            }
                            next.push(id);
                            proof {
                                lemma_grew_step(old(pool), &before, pool, old_next, next@, n0, from, t, Some(id));
                                assert forall|i: int, j: int| 0 <= i < j < next@.len() implies next@[i] != next@[j] by {
                                    if j == next@.len() - 1 {
                                        assert(old_next[i] < before.states@.len());
                                    } else {
                                        assert(old_next[i] != old_next[j]);
                                    }
                                }
                                assert forall|i: int| 0 <= i < next@.len() implies pool.layers@[#[trigger] next@[i] as int] == depth by {
                                    if i < next@.len() - 1 {
                                        assert(next@[i] == old_next[i]);
                                        assert(old_next[i] < before.states@.len());
                                    }
                                }
                            }
                        } else {
                            proof {
                                lemma_grew_step(old(pool), &before, pool, old_next, next@, n0, from, t, None);
                                assert forall|i: int| 0 <= i < next@.len() implies pool.layers@[#[trigger] next@[i] as int] == depth by {
                                    assert(next@[i] < before.states@.len());
                                }
                            }
                        }
                    } else {
                        proof {
                            assert(repair_of(parent.text@, wrong, target) is None);
                        }
                    }
                } else {
                    proof {
                        assert(repair_of(parent.text@, wrong, target) is None);
                    }
                }
                proof {
                    assert(pool.extends(&inner));
                    assert(pool.extends(&outer));
                    assert forall|tj: int|
                        0 <= tj < ti && #[trigger] repair_of(parent.text@, wrong, codec_order(tj)) is Some implies found(
                            pool,
                            repair_of(parent.text@, wrong, codec_order(tj))->0,
                        ) by {
                        if tj < t_index {
                            lemma_found_kept(&inner, pool, repair_of(parent.text@, wrong, codec_order(tj))->0);
                        }
                    }
                    assert forall|wj: int, g: Codec|
                        0 <= wj < w_index && #[trigger] repair_of(parent.text@, codec_order(wj), g) is Some implies found(
                            pool,
                            repair_of(parent.text@, codec_order(wj), g)->0,
                        ) by {
                        lemma_found_kept(&outer, pool, repair_of(parent.text@, codec_order(wj), g)->0);
                    }
                }
            }
            proof {
                assert forall|wj: int, g: Codec|
                    0 <= wj < wi && #[trigger] repair_of(parent.text@, codec_order(wj), g) is Some implies found(
                        pool,
                        repair_of(parent.text@, codec_order(wj), g)->0,
                    ) by {
                    if wj == w_index {
                        lemma_codec_order_covers(g);
                        let tj = choose|tj: int| 0 <= tj < 11 && #[trigger] codec_order(tj) == g;
                        assert(repair_of(parent.text@, wrong, codec_order(tj)) is Some);
                    } else {
                        lemma_found_kept(&outer, pool, repair_of(parent.text@, codec_order(wj), g)->0);
                    }
                }
            }
        } else {
            proof {
                assert forall|wj: int, g: Codec|
                    0 <= wj < wi && #[trigger] repair_of(parent.text@, codec_order(wj), g) is Some implies found(
                        pool,
                        repair_of(parent.text@, codec_order(wj), g)->0,
                    ) by {
                    if wj == w_index {
                        assert(wrong_codec_bytes_spec(parent.text@, wrong) is None);
                    }
                }
            }
        }
    }
    false
}

/// A state the search expands: reversible, nonempty and not control-heavy.
pub open spec fn expandable_spec(s: &RecoveryState) -> bool {
    s.reversible && s.text@.len() > 0 && !text_control_heavy(s.text@)
}

/// The repairs held before are still held by a pool that extends it.
proof fn lemma_repairs_found_kept(earlier: &Pool, later: &Pool, parent: Seq<char>)
    requires
        repairs_found(earlier, parent, 11),
        later.extends(earlier),
    ensures
        repairs_found(later, parent, 11),
{
    assert forall|wi: int, g: Codec|
        0 <= wi < 11 && #[trigger] repair_of(parent, codec_order(wi), g) is Some implies found(
            later,
            repair_of(parent, codec_order(wi), g)->0,
        ) by {
        lemma_found_kept(earlier, later, repair_of(parent, codec_order(wi), g)->0);
    }
}

/// Expands one frontier slot at layer `depth` unless it was expanded
/// before: marks it expanded and, when its state is expandable, tries every
/// repair of it. Returns true when a limit stopped the search.
fn expand_slot<F: Fn(&RecoveryState) -> ScoreKeys>(
    pool: &mut Pool,
    id: usize,
    depth: usize,
    explored: &mut usize,
    max_explored: usize,
    next: &mut Vec<usize>,
    score: &F,
    Ghost(o): Ghost<Origin>,
) -> (stop: bool)
    requires
        old(pool).wf(o, *old(explored) as nat),
        1 <= depth <= MAX_DEPTH,
        depth <= old(pool).cap@,
        *old(explored) <= max_explored <= MAX_EXPLORED,
        id < old(pool).states@.len(),
        slot0_ok(old(pool), o, score),
        o.1 is None && depth == 1 ==> id == 0,
        old(pool).layers@[id as int] < depth,
        in_pool(old(pool), old(next)@),
        old(next)@.no_duplicates(),
        forall|i: int| 0 <= i < old(next)@.len() ==> old(pool).layers@[#[trigger] old(next)@[i] as int] == depth,
        forall|s: &RecoveryState| #[trigger] score.requires((s,)),
        keyed(old(pool), score),
    ensures
        final(pool).wf(o, *final(explored) as nat),
        final(pool).extends(old(pool)),
        keyed(final(pool), score),
        *old(explored) <= *final(explored) <= max_explored,
        in_pool(final(pool), final(next)@),
        final(next)@.no_duplicates(),
        forall|i: int| 0 <= i < final(next)@.len() ==> final(pool).layers@[#[trigger] final(next)@[i] as int] == depth,
        stop ==> *old(explored) + 121 > max_explored || old(pool).states@.len() + 121 > MAX_STATES,
        !stop && !old(pool).expanded@[id as int] && expandable_spec(&old(pool).states@[id as int]) ==> repairs_found(
            final(pool),
            old(pool).text(id as int),
            11,
        ),
        slot0_ok(final(pool), o, score),
        grew_by(
            final(pool),
            old(pool),
            final(next)@,
            old(next)@.len() as int,
            |t: Seq<char>|
                !old(pool).expanded@[id as int] && expandable_spec(&old(pool).states@[id as int]) && exists|w: Codec, g: Codec|
                    #[trigger] repair_of(old(pool).text(id as int), w, g) == Some(t),
        ),
        forall|i: int| 0 <= i < old(pool).states@.len() ==> #[trigger] final(pool).expanded@[i] == (old(pool).expanded@[i] || i == id),
        forall|i: int| 0 <= i < old(next)@.len() ==> #[trigger] final(next)@[i] == old(next)@[i],
{
    let ghost from_slot = |t: Seq<char>|
        !old(pool).expanded@[id as int] && expandable_spec(&old(pool).states@[id as int]) && exists|w: Codec, g: Codec|
            #[trigger] repair_of(old(pool).text(id as int), w, g) == Some(t);
    if pool.expanded[id] {
        return false;
    }
    pool.expanded.set(id, true);
    let ghost mid = *pool;
    let parent = clone_state(&pool.states[id]);
    proof {
        assert(pool.states@[id as int] == old(pool).states@[id as int]);
        lemma_path_ok_copy(&pool.states@[id as int], &parent, o);
        lemma_derivable_mono(parent.text@, pool.layers@[id as int], (depth - 1) as nat, o);
    }
    proof {
        crate::codec::lemma_encoded_lengths(parent.text@);
    }
    let values = metrics(parent.text.as_str());
    if !expandable(&parent, &values) {
        return false;
    }
    proof {
        assert(control_count(parent.text@) == values.controls);
    }
    let stop = expand_parent(pool, &parent, depth, explored, max_explored, next, score, Ghost(o));
    proof {
        let from_parent = |t: Seq<char>| exists|w: Codec, g: Codec| #[trigger] repair_of(parent.text@, w, g) == Some(t);
        assert(expandable_spec(&old(pool).states@[id as int]));
        assert forall|t: Seq<char>| #[trigger] from_parent(t) implies from_slot(t) by {
            let (w, g) = choose|w: Codec, g: Codec| #[trigger] repair_of(parent.text@, w, g) == Some(t);
            assert(repair_of(old(pool).text(id as int), w, g) == Some(t));
        }
        lemma_grew_weaken(pool, &mid, next@, old(next)@.len() as int, from_parent, from_slot);
        lemma_grew_rebase(pool, &mid, old(pool), next@, old(next)@.len() as int, from_slot);
    }
    stop
}

/// The admissible repairs of the expandable states of a layer.
pub open spec fn layer_repairs(layer: Seq<RecoveryState>) -> Set<Seq<char>> {
    Set::new(
        |t: Seq<char>|
            exists|k: int, w: Codec, g: Codec|
                0 <= k < layer.len() && expandable_spec(&layer[k]) && #[trigger] repair_of(layer[k].text@, w, g) == Some(t),
    )
}

/// What was added in two steps was added in one.
proof fn lemma_grew_trans(
    a: &Pool,
    b: &Pool,
    c: &Pool,
    nb: Seq<usize>,
    nc: Seq<usize>,
    f1: spec_fn(Seq<char>) -> bool,
    f2: spec_fn(Seq<char>) -> bool,
)
    requires
        grew_by(b, a, nb, 0, f1),
        grew_by(c, b, nc, nb.len() as int, f2),
        b.extends(a),
        c.extends(b),
        forall|i: int| 0 <= i < nb.len() ==> #[trigger] nc[i] == nb[i],
        forall|i: int| a.states@.len() <= i < b.states@.len() ==> #[trigger] c.expanded@[i] == b.expanded@[i],
    ensures
        grew_by(c, a, nc, 0, |t: Seq<char>| f1(t) || f2(t)),
{
    assert forall|i: int| 0 <= i < nc.len() implies a.states@.len() <= #[trigger] nc[i] by {
        if i < nb.len() {
            assert(nc[i] == nb[i]);
        }
    }
    assert forall|i: int| a.states@.len() <= i < c.states@.len() implies !(#[trigger] c.expanded@[i]) by {
        if i < b.states@.len() {
            assert(c.expanded@[i] == b.expanded@[i]);
            assert(!b.expanded@[i]);
        }
    }
    assert forall|i: int| #![trigger c.states@[i]] a.states@.len() <= i < c.states@.len() implies !found(
        a,
        c.states@[i].text@,
    ) && (f1(c.states@[i].text@) || f2(c.states@[i].text@)) by {
        if i < b.states@.len() {
            assert(c.states@[i].text@ == b.states@[i].text@);
        } else {
            if found(a, c.states@[i].text@) {
                lemma_found_kept(a, b, c.states@[i].text@);
            }
        }
    }
}

/// One layer of the search over the frontier's slots, in order. Returns the
/// new slots and whether a limit stopped the search.
fn expand_layer<F: Fn(&RecoveryState) -> ScoreKeys>(
    pool: &mut Pool,
    frontier: &Vec<usize>,
    depth: usize,
    explored: &mut usize,
    max_explored: usize,
    score: &F,
    Ghost(o): Ghost<Origin>,
) -> (r: (Vec<usize>, bool, Ghost<Seq<RecoveryState>>))
    requires
        old(pool).wf(o, *old(explored) as nat),
        1 <= depth <= MAX_DEPTH,
        depth <= old(pool).cap@,
        *old(explored) <= max_explored <= MAX_EXPLORED,
        in_pool(old(pool), frontier@),
        frontier@.no_duplicates(),
        forall|i: int| 0 <= i < frontier@.len() ==> !(#[trigger] old(pool).expanded@[frontier@[i] as int]),
        forall|i: int| 0 <= i < frontier@.len() ==> old(pool).layers@[#[trigger] frontier@[i] as int] < depth,
        slot0_ok(old(pool), o, score),
        o.1 is None && depth == 1 ==> forall|i: int| 0 <= i < frontier@.len() ==> #[trigger] frontier@[i] == 0,
        forall|s: &RecoveryState| #[trigger] score.requires((s,)),
        keyed(old(pool), score),
    ensures
        slot0_ok(final(pool), o, score),
        final(pool).wf(o, *final(explored) as nat),
        final(pool).extends(old(pool)),
        keyed(final(pool), score),
        *old(explored) <= *final(explored) <= max_explored,
        in_pool(final(pool), r.0@),
        r.0@.no_duplicates(),
        forall|i: int| 0 <= i < r.0@.len() ==> final(pool).layers@[#[trigger] r.0@[i] as int] == depth,
        frontier@.len() >= 1 && !old(pool).expanded@[frontier@[0] as int] && expandable_spec(
            &old(pool).states@[frontier@[0] as int],
        ) && *old(explored) + 121 <= max_explored && old(pool).states@.len() + 121 <= MAX_STATES ==> repairs_found(
            final(pool),
            old(pool).text(frontier@[0] as int),
            11,
        ),
        grew_by(final(pool), old(pool), r.0@, 0, |t: Seq<char>| layer_repairs(r.2@).contains(t)),
        r.2@.len() <= frontier@.len(),
        !r.1 ==> r.2@.len() == frontier@.len(),
        forall|j: int| 0 <= j < r.2@.len() ==> (#[trigger] r.2@[j]).text@ == old(pool).text(frontier@[j] as int),
        !r.1 ==> forall|j: int|
            0 <= j < r.2@.len() && expandable_spec(&r.2@[j]) ==> repairs_found(final(pool), (#[trigger] r.2@[j]).text@, 11),
        forall|j: int| 0 <= j < r.2@.len() ==> path_ok(&#[trigger] r.2@[j], o) && carries_loss(&r.2@[j], old(pool).inherited@),
        r.1 ==> *final(explored) + 121 > max_explored || final(pool).states@.len() + 121 > MAX_STATES,
{
    let mut next: Vec<usize> = Vec::new();
    let mut k: usize = 0;
    let ghost mut snaps: Seq<RecoveryState> = seq![];
    proof {
        assert(grew_by(pool, old(pool), next@, 0, |t: Seq<char>| layer_repairs(snaps).contains(t)));
    }
    while k < frontier.len()
        invariant
            k <= frontier@.len(),
            pool.wf(o, *explored as nat),
            pool.extends(old(pool)),
            keyed(pool, score),
            1 <= depth <= MAX_DEPTH,
            depth <= pool.cap@,
            *old(explored) <= *explored <= max_explored <= MAX_EXPLORED,
            in_pool(old(pool), frontier@),
            forall|i: int| 0 <= i < frontier@.len() ==> old(pool).layers@[#[trigger] frontier@[i] as int] < depth,
            slot0_ok(pool, o, score),
            o.1 is None && depth == 1 ==> forall|i: int| 0 <= i < frontier@.len() ==> #[trigger] frontier@[i] == 0,
            in_pool(pool, next@),
            next@.no_duplicates(),
            forall|i: int| 0 <= i < next@.len() ==> pool.layers@[#[trigger] next@[i] as int] == depth,
            forall|s: &RecoveryState| #[trigger] score.requires((s,)),
            k == 0 ==> *pool == *old(pool) && *explored == *old(explored),
            k >= 1 && !old(pool).expanded@[frontier@[0] as int] && expandable_spec(&old(pool).states@[frontier@[0] as int])
                && *old(explored) + 121 <= max_explored && old(pool).states@.len() + 121 <= MAX_STATES ==> repairs_found(
                pool,
                old(pool).text(frontier@[0] as int),
                11,
            ),
            frontier@.no_duplicates(),
            snaps.len() == k,
            grew_by(pool, old(pool), next@, 0, |t: Seq<char>| layer_repairs(snaps).contains(t)),
            forall|j: int| 0 <= j < snaps.len() ==> (#[trigger] snaps[j]).text@ == old(pool).text(frontier@[j] as int),
            forall|j: int|
                0 <= j < snaps.len() && expandable_spec(&snaps[j]) ==> repairs_found(pool, (#[trigger] snaps[j]).text@, 11),
            forall|j: int| k <= j < frontier@.len() ==> !(#[trigger] pool.expanded@[frontier@[j] as int]),
            forall|j: int| 0 <= j < snaps.len() ==> path_ok(&#[trigger] snaps[j], o) && carries_loss(&snaps[j], old(pool).inherited@),
        decreases frontier@.len() - k,
    {
        let id = frontier[k];
        proof {
            assert(id < old(pool).states@.len());
            assert(pool.layers@[id as int] == old(pool).layers@[id as int]);
        }
        let ghost before = *pool;
        let ghost first = k == 0;
        let ghost next_before = next@;
        let ghost snaps_before = snaps;
        let ghost snap = pool.states@[id as int];
        proof {
            assert(!pool.expanded@[frontier@[k as int] as int]);
            assert(path_ok(&snap, o) && carries_loss(&snap, old(pool).inherited@));
        }
        k = k + 1;
        let stop = expand_slot(pool, id, depth, explored, max_explored, &mut next, score, Ghost(o));
        proof {
            snaps = snaps.push(snap);
            assert forall|j: int| 0 <= j < snaps.len() implies path_ok(&#[trigger] snaps[j], o) && carries_loss(
                &snaps[j],
                old(pool).inherited@,
            ) by {
                if j < snaps.len() - 1 {
                    assert(snaps[j] == snaps_before[j]);
                }
            }
            let f1 = |t: Seq<char>| layer_repairs(snaps_before).contains(t);
            let f2 = |t: Seq<char>|
                !before.expanded@[id as int] && expandable_spec(&before.states@[id as int]) && exists|w: Codec, g: Codec|
                    #[trigger] repair_of(before.text(id as int), w, g) == Some(t);
            assert forall|i: int| old(pool).states@.len() <= i < before.states@.len() implies #[trigger] pool.expanded@[i]
                == before.expanded@[i] by {
                assert(i != id);
            }
            lemma_grew_trans(old(pool), &before, pool, next_before, next@, f1, f2);
            assert forall|t: Seq<char>| #[trigger] f1(t) || f2(t) implies layer_repairs(snaps).contains(t) by {
                if f1(t) {
                    let (kk, w, g) = choose|kk: int, w: Codec, g: Codec|
                        0 <= kk < snaps_before.len() && expandable_spec(&snaps_before[kk]) && #[trigger] repair_of(
                            snaps_before[kk].text@,
                            w,
                            g,
                        ) == Some(t);
                    assert(snaps[kk] == snaps_before[kk]);
                } else {
                    let (w, g) = choose|w: Codec, g: Codec| #[trigger] repair_of(before.text(id as int), w, g) == Some(t);
                    assert(snaps[snaps.len() - 1] == snap);
                    assert(repair_of(snaps[snaps.len() - 1].text@, w, g) == Some(t));
                }
            }
            lemma_grew_weaken(pool, old(pool), next@, 0, |t: Seq<char>| f1(t) || f2(t), |t: Seq<char>| layer_repairs(snaps).contains(t));
            assert forall|j: int| 0 <= j < snaps.len() implies (#[trigger] snaps[j]).text@ == old(pool).text(frontier@[j] as int) by {
                if j < snaps.len() - 1 {
                    assert(snaps[j] == snaps_before[j]);
                } else {
                    assert(before.text(id as int) == old(pool).text(id as int));
                }
            }
            assert forall|j: int| k <= j < frontier@.len() implies !(#[trigger] pool.expanded@[frontier@[j] as int]) by {
                assert(frontier@[j] != id);
                assert(before.expanded@[frontier@[j] as int] == pool.expanded@[frontier@[j] as int]);
            }
            if !stop {
                assert forall|j: int| 0 <= j < snaps.len() && expandable_spec(&snaps[j]) implies repairs_found(
                    pool,
                    (#[trigger] snaps[j]).text@,
                    11,
                ) by {
                    if j < snaps.len() - 1 {
                        assert(snaps[j] == snaps_before[j]);
                        lemma_repairs_found_kept(&before, pool, snaps[j].text@);
                    }
                }
            }
        }
        proof {
            if first {
                assert(before == *old(pool));
            } else if k - 1 >= 1 && !old(pool).expanded@[frontier@[0] as int] && expandable_spec(
                &old(pool).states@[frontier@[0] as int],
            ) && *old(explored) + 121 <= max_explored && old(pool).states@.len() + 121 <= MAX_STATES {
                lemma_repairs_found_kept(&before, pool, old(pool).text(frontier@[0] as int));
            }
        }
        if stop {
            return (next, true, Ghost(snaps));
        }
    }
    (next, false, Ghost(snaps))
}

/// A decode of the raw bytes with an allowed codec is a seed text.
proof fn lemma_decoded_seed(t: Seq<char>, b: Seq<u8>, c: Codec, o: Origin)
    requires
        o.1 == Some(b),
        o.2 is None || o.2 == Some(c),
        decode_text_spec(b, c).0 == t,
    ensures
        is_seed_text(t, o),
{
    assert(decode_text_spec(o.1->0, c).0 == t);
}

/// An empty pool.
fn empty_pool(Ghost(inherited): Ghost<nat>, Ghost(cap): Ghost<nat>) -> (r: Pool)
    requires
        cap <= MAX_DEPTH,
    ensures
        r.states@.len() == 0,
        r.inherited@ == inherited,
        r.cap@ == cap,
        forall|o: Origin| r.wf(o, 0),
{
    Pool {
        states: Vec::new(),
        hashes: Vec::new(),
        index: HashMap::new(),
        keys: Vec::new(),
        alternatives: Vec::new(),
        expanded: Vec::new(),
        layers: Ghost(Seq::empty()),
        inherited: Ghost(inherited),
        cap: Ghost(cap),
        first: Ghost(vstd::pervasive::arbitrary()),
    }
}

/// The pool holding the interpretations the search starts from: the pasted
/// text, or the raw bytes read with each codec in `CODECS` order (only the
/// BOM's codec when there is a BOM). Returns the pool, its new slots and the
/// number of decodes made.
fn seed<F: Fn(&RecoveryState) -> ScoreKeys>(
    original: &str,
    raw: Option<&[u8]>,
    bom: Option<Codec>,
    detector: Option<Codec>,
    utf16_pattern: Option<Codec>,
    inherited: usize,
    original_clean: bool,
    score: &F,
    Ghost(cap): Ghost<nat>,
) -> (r: (Pool, Vec<usize>, usize))
    requires
        cap <= MAX_DEPTH,
        raw matches Some(b) ==> b@.len() <= usize::MAX / 128,
        encode_utf8(original@).len() <= usize::MAX / 32,
        forall|s: &RecoveryState| #[trigger] score.requires((s,)),
    ensures
        r.0.wf((original@, opt_bytes(raw), bom), r.2 as nat),
        r.0.inherited@ == inherited,
        r.0.cap@ == cap,
        keyed(&r.0, score),
        r.2 <= 11,
        raw is None ==> r.0.states@.len() == 1 && r.0.text(0) == original@ && r.0.states@[0].reversible == (
        inherited == 0) && !r.0.expanded@[0] && r.1@ == seq![0usize] && r.2 == 1,
        r.0.states@.len() >= 1,
        in_pool(&r.0, r.1@),
        r.1@.no_duplicates(),
        forall|i: int| 0 <= i < r.1@.len() ==> r.0.layers@[#[trigger] r.1@[i] as int] == 0,
        is_seed_text(original@, (original@, opt_bytes(raw), bom)) ==> exists|i: int|
            0 <= i < r.0.states@.len() && #[trigger] r.0.text(i) == original@,
        r.0.states@.len() <= 11,
        slot0_ok(&r.0, (original@, opt_bytes(raw), bom), score),
        forall|i: int| 0 <= i < r.0.states@.len() ==> !(#[trigger] r.0.expanded@[i]),
        forall|i: int| 0 <= i < r.0.states@.len() ==> (#[trigger] r.0.states@[i]).depth == 0,
        forall|q: usize| q < r.0.states@.len() ==> #[trigger] r.1@.contains(q),
        forall|t: Seq<char>| #[trigger] is_seed_text(t, (original@, opt_bytes(raw), bom)) ==> exists|i: int|
            0 <= i < r.0.states@.len() && #[trigger] r.0.text(i) == t,
{
    let ghost o: Origin = (original@, opt_bytes(raw), bom);
    let mut pool = empty_pool(Ghost(inherited as nat), Ghost(cap));
    let mut frontier: Vec<usize> = Vec::new();
    let explored: usize = match raw {
        None => {
            let state = text_state(original.to_owned(), inherited);
            assert(state.text@ == original@);
            assert(state.steps@ =~= Seq::<TransformationStep>::empty());
            assert(is_seed_text(state.text@, o));
            let added = insert(&mut pool, state, 0, score, 1, Ghost(o));
            assert(exists|i: int| 0 <= i < pool.states@.len() && #[trigger] pool.text(i) == original@);
            if let Some(id) = added {
                frontier.push(id);
            }
            assert(added == Some(0usize));
            assert(frontier@ =~= seq![0usize]);
            assert(frontier@[0] == 0);
            assert(frontier@.contains(0usize));
            assert(forall|t: Seq<char>| #[trigger] is_seed_text(t, o) ==> t == original@);
            assert(is_seed_text(original@, (original@, opt_bytes(raw), bom)) ==> exists|i: int|
                0 <= i < pool.states@.len() && #[trigger] pool.text(i) == original@);
            1
        },
        Some(bytes) => {
            let mut explored: usize = 0;
            let mut wi: usize = 0;
            while wi < 11
                invariant
                    wi <= 11,
                    explored <= wi,
                    o == (original@, opt_bytes(raw), bom),
                    raw == Some(bytes),
                    bytes@.len() <= usize::MAX / 128,
                    pool.wf(o, explored as nat),
                    pool.inherited@ == inherited,
                    pool.cap@ == cap,
                    keyed(&pool, score),
                    pool.states@.len() <= explored,
                    forall|i: int| 0 <= i < pool.states@.len() ==> !(#[trigger] pool.expanded@[i]),
                    forall|i: int| 0 <= i < pool.states@.len() ==> (#[trigger] pool.states@[i]).depth == 0,
                    forall|q: usize| q < pool.states@.len() ==> #[trigger] frontier@.contains(q),
                    in_pool(&pool, frontier@),
                    frontier@.no_duplicates(),
                    forall|i: int| 0 <= i < frontier@.len() ==> pool.layers@[#[trigger] frontier@[i] as int] == 0,
                    forall|j: int| 0 <= j < wi && (bom is None || bom == Some(codec_order(j))) ==> exists|i: int|
                        0 <= i < pool.states@.len() && #[trigger] pool.text(i) == decode_text_spec(bytes@, codec_order(j)).0,
                    forall|s: &RecoveryState| #[trigger] score.requires((s,)),
                decreases 11 - wi,
            {
                let codec = codec_at(wi);
                let allowed = match bom {
                    Some(expected) => codec == expected,
                    None => true,
                };
                if allowed {
                    let decoded = decode(bytes, codec);
                    explored = explored + 1;
                    let ghost t = decoded.text@;
                    proof {
                        assert(bom is None || bom == Some(codec));
                        assert(o.1 == Some(bytes@));
                        lemma_decoded_seed(t, bytes@, codec, o);
                    }
                    let ghost d = decoded;
                    let state = seed_state(bytes, codec, decoded, inherited, original_clean, bom, detector, utf16_pattern);
                    proof {
                        lemma_parse_reads_name(codec);
                        lemma_replay_push(path_start(o), Seq::<TransformationStep>::empty(), state.steps@[0]);
                        assert(Seq::<TransformationStep>::empty().push(state.steps@[0]) =~= state.steps@);
                        assert(path_start(o) == PathData::Bytes(bytes@));
                        assert(replay_step(PathData::Bytes(bytes@), state.steps@[0]) == Some(PathData::Text(d.text@)));
                    }
                    let ghost before = pool;
                    let ghost old_frontier = frontier@;
                    let added = insert(&mut pool, state, 0, score, explored, Ghost(o));
                    proof {
                        assert forall|i: int| 0 <= i < pool.states@.len() implies !(#[trigger] pool.expanded@[i]) by {
                            if i < before.states@.len() {
                                assert(!before.expanded@[i]);
                            }
                        }
                        assert forall|i: int| 0 <= i < pool.states@.len() implies (#[trigger] pool.states@[i]).depth == 0 by {
                            if i < before.states@.len() {
                                assert(before.states@[i].depth == 0);
                            }
                        }
                    }
                        if let Some(id) = added {
                        frontier.push(id);
                        proof {
                            assert forall|q: usize| q < pool.states@.len() implies #[trigger] frontier@.contains(q) by {
                                if q < before.states@.len() {
                                    assert(old_frontier.contains(q));
                                    let j = choose|j: int| 0 <= j < old_frontier.len() && old_frontier[j] == q;
                                    assert(frontier@[j] == q);
                                } else {
                                    assert(frontier@[frontier@.len() - 1] == q);
                                }
                            }
                            assert forall|i: int, j: int| 0 <= i < j < frontier@.len() implies frontier@[i] != frontier@[j] by {
                                if j == frontier@.len() - 1 {
                                    assert(old_frontier[i] < before.states@.len());
                                } else {
                                    assert(old_frontier[i] != old_frontier[j]);
                                }
                            }
                            assert forall|i: int| 0 <= i < frontier@.len() implies pool.layers@[#[trigger] frontier@[i] as int] == 0 by {
                                if i < frontier@.len() - 1 {
                                    assert(old_frontier[i] < before.states@.len());
                                }
                            }
                        }
                    } else {
                        proof {
                            assert forall|i: int| 0 <= i < frontier@.len() implies pool.layers@[#[trigger] frontier@[i] as int] == 0 by {
                                assert(frontier@[i] < before.states@.len());
                            }
                            assert(pool.states@.len() == before.states@.len());
                        }
                    }
                    proof {
                        assert forall|j: int| 0 <= j < wi + 1 && (bom is None || bom == Some(codec_order(j))) implies exists|i: int|
                            0 <= i < pool.states@.len() && #[trigger] pool.text(i) == decode_text_spec(bytes@, codec_order(j)).0 by {
                            if j < wi {
                                let i = choose|i: int| 0 <= i < before.states@.len() && #[trigger] before.text(i) == decode_text_spec(bytes@, codec_order(j)).0;
                                assert(pool.text(i) == before.text(i));
                            }
                        }
                    }
                }
                wi = wi + 1;
            }
            proof {
                let c = match bom { Some(c) => c, None => Codec::Utf8 };
                lemma_codec_order_covers(c);
                let j = choose|j: int| 0 <= j < 11 && #[trigger] codec_order(j) == c;
                assert(bom is None || bom == Some(codec_order(j)));
                assert(o.1 == Some(bytes@));
                if is_seed_text(original@, o) {
                    let c2 = choose|c2: Codec| (bom is None || bom == Some(c2)) && #[trigger] decode_text_spec(bytes@, c2).0 == original@;
                    lemma_codec_order_covers(c2);
                    let j2 = choose|j2: int| 0 <= j2 < 11 && #[trigger] codec_order(j2) == c2;
                    assert(bom is None || bom == Some(codec_order(j2)));
                    assert(exists|i: int| 0 <= i < pool.states@.len() && #[trigger] pool.text(i) == decode_text_spec(bytes@, codec_order(j2)).0);
                }
                assert(is_seed_text(original@, (original@, opt_bytes(raw), bom)) ==> exists|i: int|
                    0 <= i < pool.states@.len() && #[trigger] pool.text(i) == original@);
                assert forall|t: Seq<char>| #[trigger] is_seed_text(t, o) implies exists|i: int|
                    0 <= i < pool.states@.len() && #[trigger] pool.text(i) == t by {
                    let c2 = choose|c2: Codec| (bom is None || bom == Some(c2)) && #[trigger] decode_text_spec(bytes@, c2).0 == t;
                    lemma_codec_order_covers(c2);
                    let j2 = choose|j2: int| 0 <= j2 < 11 && #[trigger] codec_order(j2) == c2;
                    assert(bom is None || bom == Some(codec_order(j2)));
                    assert(exists|i: int| 0 <= i < pool.states@.len() && #[trigger] pool.text(i) == decode_text_spec(bytes@, codec_order(j2)).0);
                }
            }
            explored
        },
    };
    assert(is_seed_text(original@, (original@, opt_bytes(raw), bom)) ==> exists|i: int|
        0 <= i < pool.states@.len() && #[trigger] pool.text(i) == original@);
    let r = (pool, frontier, explored);
    assert(r.0.states@.len() == pool.states@.len());
    r
}

/// The reported slots: the first `MAX_CANDIDATES` of the ranking; the
/// unchanged interpretation stays inspectable even if badly damaged, so when
/// it is not among them it takes the last place of a full list or is
/// appended to a shorter one.
pub open spec fn selection(ranked: Seq<usize>, baseline: Option<usize>) -> Seq<usize> {
    let top = if ranked.len() > MAX_CANDIDATES { ranked.take(MAX_CANDIDATES as int) } else { ranked };
    match baseline {
        None => top,
        Some(b) => if top.contains(b) {
            top
        } else if top.len() == MAX_CANDIDATES {
            top.take(MAX_CANDIDATES - 1).push(b)
        } else {
            top.push(b)
        },
    }
}

/// `v` holds `x`.
fn vec_contains(v: &Vec<usize>, x: usize) -> (r: bool)
    ensures
        r == v@.contains(x),
{
    let mut i: usize = 0;
    while i < v.len()
        invariant
            i <= v@.len(),
            forall|k: int| 0 <= k < i ==> v@[k] != x,
        decreases v@.len() - i,
    {
        if v[i] == x {
            assert(v@[i as int] == x);
            return true;
        }
        i = i + 1;
    }
    false
}

/// The slots to report from a ranking and the slot of the unchanged
/// interpretation, if the pool holds it.
pub fn select_candidates(ranked: Vec<usize>, baseline: Option<usize>) -> (r: Vec<usize>)
    ensures
        r@ == selection(ranked@, baseline),
{
    let mut selected = ranked;
    selected.truncate(MAX_CANDIDATES);
    proof {
        if ranked@.len() <= MAX_CANDIDATES {
            assert(selected@ =~= ranked@);
        }
    }
    if let Some(b) = baseline {
        if !vec_contains(&selected, b) {
            if selected.len() == MAX_CANDIDATES {
                selected.pop();
            }
            selected.push(b);
        }
    }
    selected
}

/// The selection is never longer than `MAX_CANDIDATES`, always holds the
/// baseline, lists a prefix of the ranking except possibly the baseline in
/// last place, repeats no slot when the ranking repeats none, and holds
/// as many slots as the ranking, up to `MAX_CANDIDATES`, when the baseline
/// is ranked.
pub proof fn lemma_selection(ranked: Seq<usize>, baseline: Option<usize>)
    ensures
        selection(ranked, baseline).len() <= MAX_CANDIDATES,
        ranked.len() >= 1 ==> selection(ranked, baseline).len() >= 1,
        baseline matches Some(b) ==> selection(ranked, baseline).contains(b),
        forall|i: int|
            0 <= i < selection(ranked, baseline).len() ==> #[trigger] selection(ranked, baseline)[i]
                == ranked[i] || (i == selection(ranked, baseline).len() - 1 && baseline == Some(
                selection(ranked, baseline)[i],
            )),
        ranked.no_duplicates() ==> selection(ranked, baseline).no_duplicates(),
        (baseline matches Some(b) ==> ranked.contains(b)) ==> selection(ranked, baseline).len() == (if ranked.len()
            < MAX_CANDIDATES {
            ranked.len()
        } else {
            MAX_CANDIDATES as nat
        }),
{
    let top = if ranked.len() > MAX_CANDIDATES { ranked.take(MAX_CANDIDATES as int) } else { ranked };
    let s = selection(ranked, baseline);
    if let Some(b) = baseline {
        if ranked.contains(b) && !top.contains(b) && ranked.len() <= MAX_CANDIDATES {
            assert(top == ranked);
        }
    }
    if let Some(b) = baseline {
        if !top.contains(b) {
            assert(s[s.len() - 1] == b);
        }
    }
    if ranked.no_duplicates() {
        assert forall|i: int, j: int| 0 <= i < j < s.len() implies s[i] != s[j] by {
            if let Some(b) = baseline {
                if !top.contains(b) && j == s.len() - 1 {
                    assert(top[i] == s[i]);
                }
            }
        }
    }
}

/// The first slot holding `text`.
fn find_text(pool: &Pool, text: &str) -> (r: Option<usize>)
    requires
        pool.keys@.len() == pool.states@.len(),
    ensures
        match r {
            Some(i) => i < pool.states@.len() && pool.text(i as int) == text@,
            None => forall|i: int| 0 <= i < pool.states@.len() ==> #[trigger] pool.text(i) != text@,
        },
{
    let mut i: usize = 0;
    while i < pool.states.len()
        invariant
            i <= pool.states@.len(),
            forall|k: int| 0 <= k < i ==> #[trigger] pool.text(k) != text@,
        decreases pool.states@.len() - i,
    {
        if str_equal(pool.states[i].text.as_str(), text) {
            return Some(i);
        }
        i = i + 1;
    }
    None
}

/// The slots of `ids` whose text is `text`, in order.
fn keep_text(pool: &Pool, ids: &Vec<usize>, text: &str) -> (r: Vec<usize>)
    requires
        in_pool(pool, ids@),
        ids@.no_duplicates(),
    ensures
        in_pool(pool, r@),
        r@.no_duplicates(),
        forall|y: usize| r@.contains(y) ==> ids@.contains(y),
        forall|j: int| 0 <= j < ids@.len() && pool.text(ids@[j] as int) == text@ ==> r@.contains(#[trigger] ids@[j]),
        forall|j: int| 0 <= j < r@.len() ==> pool.text(#[trigger] r@[j] as int) == text@,
{
    let mut out: Vec<usize> = Vec::new();
    let mut k: usize = 0;
    while k < ids.len()
        invariant
            k <= ids@.len(),
            in_pool(pool, ids@),
            ids@.no_duplicates(),
            in_pool(pool, out@),
            out@.no_duplicates(),
            forall|y: usize| out@.contains(y) ==> ids@.take(k as int).contains(y),
            forall|j: int| 0 <= j < k && pool.text(ids@[j] as int) == text@ ==> out@.contains(#[trigger] ids@[j]),
            forall|j: int| 0 <= j < out@.len() ==> pool.text(#[trigger] out@[j] as int) == text@,
        decreases ids@.len() - k,
    {
        let id = ids[k];
        if str_equal(pool.states[id].text.as_str(), text) {
            let ghost before = out@;
            proof {
                assert(!before.contains(id)) by {
                    if before.contains(id) {
                        let j = choose|j: int| 0 <= j < k && #[trigger] ids@.take(k as int)[j] == id;
                        assert(ids@[j] == ids@[k as int]);
                    }
                }
            }
            out.push(id);
            proof {
                assert forall|y: usize| out@.contains(y) implies ids@.take(k + 1).contains(y) by {
                    let j = choose|j: int| 0 <= j < out@.len() && out@[j] == y;
                    if j == out@.len() - 1 {
                        assert(ids@.take(k + 1)[k as int] == y);
                    } else {
                        assert(before[j] == y);
                        assert(before.contains(y));
                        let m = choose|m: int| 0 <= m < k && #[trigger] ids@.take(k as int)[m] == y;
                        assert(ids@.take(k + 1)[m] == y);
                    }
                }
                assert forall|i: int, j: int| 0 <= i < j < out@.len() implies out@[i] != out@[j] by {
                    if j == out@.len() - 1 {
                        assert(before.contains(before[i]));
                    }
                }
                assert forall|j: int| 0 <= j < k + 1 && pool.text(ids@[j] as int) == text@ implies out@.contains(
                    #[trigger] ids@[j],
                ) by {
                    if j == k {
                        assert(out@[out@.len() - 1] == id);
                    } else {
                        assert(before.contains(ids@[j]));
                        let b = choose|b: int| 0 <= b < before.len() && before[b] == ids@[j];
                        assert(out@[b] == ids@[j]);
                    }
                }
            }
        } else {
            proof {
                assert forall|y: usize| out@.contains(y) implies ids@.take(k + 1).contains(y) by {
                    let m = choose|m: int| 0 <= m < k && #[trigger] ids@.take(k as int)[m] == y;
                    assert(ids@.take(k + 1)[m] == y);
                }
            }
        }
        k = k + 1;
    }
    proof {
        assert(ids@.take(ids@.len() as int) =~= ids@);
    }
    out
}

/// The first `n` entries of `v`.
fn first_n(v: Vec<usize>, n: usize) -> (r: Vec<usize>)
    ensures
        r@ == (if v@.len() > n { v@.take(n as int) } else { v@ }),
{
    let mut out = v;
    out.truncate(n);
    proof {
        if out@.len() <= n {
        }
    }
    out
}

/// `a` ranks no later than `b`: a greater rank key, or an equal one with a
/// smaller depth, or an equal depth with a path no longer.
pub open spec fn ranks_no_later(a: (RecoveryState, ScoreKeys), b: (RecoveryState, ScoreKeys)) -> bool {
    a.1.rank > b.1.rank || (a.1.rank == b.1.rank && (a.0.depth < b.0.depth || (a.0.depth == b.0.depth
        && a.0.steps@.len() <= b.0.steps@.len())))
}

/// The reported states are in rank order: each was scored by `score`, as a
/// state with the same text, depth and path length, with the keys beside it
/// in `scored`; all but the last are in rank order, and the last follows
/// them in rank order or is the unchanged text.
pub open spec fn in_rank_order<F: Fn(&RecoveryState) -> ScoreKeys>(
    reported: Seq<RecoveryState>,
    scored: Seq<(RecoveryState, ScoreKeys)>,
    original: Seq<char>,
    score: &F,
) -> bool {
    &&& scored.len() == reported.len()
    &&& forall|i: int|
        #![trigger scored[i]]
        0 <= i < scored.len() ==> score.ensures((&scored[i].0,), scored[i].1) && scored[i].0.text@ == reported[i].text@
            && scored[i].0.depth == reported[i].depth && scored[i].0.steps@.len() == reported[i].steps@.len()
    &&& forall|i: int, j: int|
        #![trigger scored[i], scored[j]]
        0 <= i < j < scored.len() - 1 ==> ranks_no_later(scored[i], scored[j])
    &&& forall|i: int|
        #![trigger scored[i]]
        0 <= i < scored.len() - 1 ==> ranks_no_later(scored[i], scored[scored.len() - 1])
            || reported[reported.len() - 1].text@ == original
}

/// Pasted text that the search repairs: nonempty, without replacement
/// characters and not control-heavy.
pub open spec fn repairable_paste(original: Seq<char>, raw: Option<Seq<u8>>) -> bool {
    raw is None && original.len() > 0 && replacement_count_in(original) == 0 && !text_control_heavy(original)
}

/// `t` is the text of a kept state.
pub open spec fn in_kept(kept: Seq<(RecoveryState, ScoreKeys)>, t: Seq<char>) -> bool {
    exists|j: int| 0 <= j < kept.len() && #[trigger] kept[j].0.text@ == t
}

/// The reported states are the top of everything the search kept: `kept`
/// holds each kept state once per text with the order keys `score` gave
/// it, every seed reading among them; the report holds as many states as
/// were kept, up to `MAX_CANDIDATES`, each a kept state with its keys; and a
/// kept state whose text is not reported ranks no earlier than every
/// reported state other than a trailing unchanged text.
pub open spec fn report_of_kept<F: Fn(&RecoveryState) -> ScoreKeys>(
    reported: Seq<RecoveryState>,
    scored: Seq<(RecoveryState, ScoreKeys)>,
    kept: Seq<(RecoveryState, ScoreKeys)>,
    o: Origin,
    score: &F,
) -> bool {
    &&& kept.len() >= 1
    &&& forall|i: int, j: int| #![trigger kept[i], kept[j]] 0 <= i < j < kept.len() ==> kept[i].0.text@ != kept[j].0.text@
    &&& forall|j: int|
        #![trigger kept[j]]
        0 <= j < kept.len() ==> score.ensures((&kept[j].0,), kept[j].1) && derivable(kept[j].0.text@, kept[j].0.depth as nat, o)
    &&& reported.len() == (if kept.len() < MAX_CANDIDATES { kept.len() } else { MAX_CANDIDATES as nat })
    &&& scored_from_kept(scored, kept)
    &&& forall|j: int|
        #![trigger kept[j]]
        0 <= j < kept.len() && (forall|i: int| 0 <= i < reported.len() ==> #[trigger] reported[i].text@ != kept[j].0.text@)
            ==> forall|i: int|
            #![trigger scored[i]]
            0 <= i < reported.len() && !(i == reported.len() - 1 && reported[i].text@ == o.0) ==> ranks_no_later(
                scored[i],
                kept[j],
            )
    &&& forall|t: Seq<char>| #[trigger] is_seed_text(t, o) ==> in_kept(kept, t)
}

/// Every reported state, with its keys, is a kept one.
pub open spec fn scored_from_kept(scored: Seq<(RecoveryState, ScoreKeys)>, kept: Seq<(RecoveryState, ScoreKeys)>) -> bool {
    forall|i: int| 0 <= i < scored.len() ==> #[trigger] kept.contains(scored[i])
}

/// Every state of the pool with its keys, by slot.
spec fn pool_kept(pool: &Pool) -> Seq<(RecoveryState, ScoreKeys)> {
    Seq::new(pool.states@.len(), |q: int| (pool.states@[q], pool.keys@[q]))
}

/// A text the pool holds is the text of a kept state.
proof fn lemma_found_in_kept(pool: &Pool, t: Seq<char>)
    requires
        found(pool, t),
    ensures
        in_kept(pool_kept(pool), t),
{
    let q = choose|q: int| 0 <= q < pool.states@.len() && #[trigger] pool.text(q) == t;
    assert(pool_kept(pool)[q].0.text@ == t);
}

/// A slot that is not selected ranks no earlier than every selected slot but
/// a trailing unchanged text.
proof fn lemma_unreported_outranked(
    pool: &Pool,
    ranked: Seq<usize>,
    baseline: Option<usize>,
    out: Seq<RecoveryState>,
    scored: Seq<(RecoveryState, ScoreKeys)>,
    original: Seq<char>,
    q: int,
)
    requires
        0 <= q < pool.states@.len(),
        !selection(ranked, baseline).contains(q as usize),
        pool.keys@.len() == pool.states@.len(),
        pool.states@.len() <= MAX_STATES,
        sorted(pool, ranked, false),
        in_pool(pool, ranked),
        forall|x: usize| x < pool.states@.len() ==> #[trigger] ranked.contains(x),
        baseline matches Some(b) ==> b < pool.states@.len() && pool.text(b as int) == original,
        out.len() == selection(ranked, baseline).len(),
        scored.len() == out.len(),
        forall|i: int|
            #![trigger out[i]]
            0 <= i < out.len() ==> out[i].text@ == pool.text(selection(ranked, baseline)[i] as int),
        forall|i: int|
            #![trigger scored[i]]
            0 <= i < scored.len() ==> scored[i] == (
                pool.states@[selection(ranked, baseline)[i] as int],
                pool.keys@[selection(ranked, baseline)[i] as int],
            ),
    ensures
        forall|i: int|
            #![trigger scored[i]]
            0 <= i < out.len() && !(i == out.len() - 1 && out[i].text@ == original) ==> ranks_no_later(
                scored[i],
                (pool.states@[q], pool.keys@[q]),
            ),
{
    let sel = selection(ranked, baseline);
    lemma_selection(ranked, baseline);
    assert(ranked.contains(q as usize));
    let p = choose|p: int| 0 <= p < ranked.len() && ranked[p] == q as usize;
    assert forall|i: int|
        #![trigger scored[i]]
        0 <= i < out.len() && !(i == out.len() - 1 && out[i].text@ == original) implies ranks_no_later(
        scored[i],
        (pool.states@[q], pool.keys@[q]),
    ) by {
        if sel[i] != ranked[i] {
            assert(i == sel.len() - 1 && baseline == Some(sel[i]));
            assert(out[i].text@ == original);
        }
        assert(sel[i] == ranked[i]);
        if i > p {
            assert(p < sel.len() - 1);
            assert(sel[p] == ranked[p]);
            assert(sel.contains(q as usize));
        }
        assert(i != p);
        assert(i < p);
        assert(precedes(pool, ranked[i] as int, ranked[p] as int, false));
    }
}

/// The report is the top of the final pool.
proof fn lemma_report_of_kept<F: Fn(&RecoveryState) -> ScoreKeys>(
    pool: &Pool,
    ranked: Seq<usize>,
    baseline: Option<usize>,
    out: Seq<RecoveryState>,
    scored: Seq<(RecoveryState, ScoreKeys)>,
    o: Origin,
    e: nat,
    score: &F,
)
    requires
        pool.wf(o, e),
        keyed(pool, score),
        pool.states@.len() >= 1,
        sorted(pool, ranked, false),
        in_pool(pool, ranked),
        ranked.len() == pool.states@.len(),
        ranked.no_duplicates(),
        forall|x: usize| x < pool.states@.len() ==> #[trigger] ranked.contains(x),
        baseline matches Some(b) ==> b < pool.states@.len() && pool.text(b as int) == o.0,
        out.len() == selection(ranked, baseline).len(),
        scored.len() == out.len(),
        forall|i: int|
            #![trigger out[i]]
            0 <= i < out.len() ==> out[i].text@ == pool.text(selection(ranked, baseline)[i] as int),
        forall|i: int|
            #![trigger scored[i]]
            0 <= i < scored.len() ==> scored[i] == (
                pool.states@[selection(ranked, baseline)[i] as int],
                pool.keys@[selection(ranked, baseline)[i] as int],
            ),
        forall|t: Seq<char>| #[trigger] is_seed_text(t, o) ==> found(pool, t),
    ensures
        report_of_kept(out, scored, pool_kept(pool), o, score),
{
    let kept = pool_kept(pool);
    let sel = selection(ranked, baseline);
    lemma_selection(ranked, baseline);
    if let Some(b) = baseline {
        assert(ranked.contains(b));
    }
    assert forall|i: int| 0 <= i < scored.len() implies #[trigger] kept.contains(scored[i]) by {
        assert(sel.contains(sel[i]));
        assert(sel[i] < pool.states@.len()) by {
            if i < ranked.len() && sel[i] == ranked[i] {
            } else {
                assert(baseline == Some(sel[i]));
            }
        }
        let w = sel[i] as int;
        assert(0 <= w < kept.len());
        assert(kept[w] == scored[i]);
    }
    assert(scored_from_kept(scored, kept));
    assert forall|j: int|
        #![trigger kept[j]]
        0 <= j < kept.len() && (forall|i: int| 0 <= i < out.len() ==> #[trigger] out[i].text@ != kept[j].0.text@)
        implies forall|i: int|
            #![trigger scored[i]]
            0 <= i < out.len() && !(i == out.len() - 1 && out[i].text@ == o.0) ==> ranks_no_later(
                scored[i],
                kept[j],
            ) by {
        if sel.contains(j as usize) {
            let i = choose|i: int| 0 <= i < sel.len() && sel[i] == j as usize;
            assert(out[i].text@ == kept[j].0.text@);
        }
        lemma_unreported_outranked(pool, ranked, baseline, out, scored, o.0, j);
    }
    assert forall|t: Seq<char>| #[trigger] is_seed_text(t, o) implies in_kept(kept, t) by {
        lemma_found_in_kept(pool, t);
    }
    assert forall|i: int, j: int| #![trigger kept[i], kept[j]] 0 <= i < j < kept.len() implies kept[i].0.text@ != kept[j].0.text@ by {
        assert(pool.states@[i].text@ != pool.states@[j].text@);
    }
    assert forall|j: int| #![trigger kept[j]] 0 <= j < kept.len() implies score.ensures((&kept[j].0,), kept[j].1)
        && derivable(kept[j].0.text@, kept[j].0.depth as nat, o) by {
        assert(pool.states@[j] == kept[j].0);
        assert(pool.keys@[j] == kept[j].1);
    }
}

/// The slots `0..n`, in order.
fn all_slots(n: usize) -> (r: Vec<usize>)
    ensures
        r@.len() == n,
        forall|i: int| 0 <= i < n ==> #[trigger] r@[i] == i,
{
    let mut out: Vec<usize> = Vec::new();
    let mut i: usize = 0;
    while i < n
        invariant
            i <= n,
            out@.len() == i,
            forall|k: int| 0 <= k < i ==> #[trigger] out@[k] == k,
        decreases n - i,
    {
        out.push(i);
        i = i + 1;
    }
    out
}

/// The source is clean Unicode: the text has no replacement, control or
/// suspicious characters, and its bytes (if any) are marked or valid UTF-8.
pub open spec fn clean_source(original: Seq<char>, raw: Option<Seq<u8>>, bom: Option<Codec>, pattern: Option<Codec>) -> bool {
    clean_unicode_source_spec(
        replacement_count_in(original) == 0 && control_count(original) == 0 && suspicious_count(original) == 0,
        bom is Some,
        pattern is Some,
        raw,
    )
}

/// The first state the search expands is covered: it is a seed
/// interpretation (the unchanged text for clean Unicode) scored no later
/// than every other seed interpretation that the first layer considers, and
/// when it is expandable, each admissible repair of it is kept.
pub open spec fn first_beam_covered<F: Fn(&RecoveryState) -> ScoreKeys>(
    kept: Seq<(RecoveryState, ScoreKeys)>,
    o: Origin,
    clean: bool,
    score: &F,
) -> bool {
    exists|s0: RecoveryState, k0: ScoreKeys|
        #![trigger score.ensures((&s0,), k0)]
        {
            &&& score.ensures((&s0,), k0)
            &&& s0.depth == 0
            &&& is_seed_text(s0.text@, o)
            &&& clean ==> s0.text@ == o.0
            &&& forall|t: Seq<char>|
                #[trigger] is_seed_text(t, o) && (clean ==> t == o.0) ==> exists|s1: RecoveryState, k1: ScoreKeys|
                    #![trigger score.ensures((&s1,), k1)]
                    s1.text@ == t && score.ensures((&s1,), k1) && ranks_no_later((s0, k0), (s1, k1))
            &&& expandable_spec(&s0) ==> forall|w: Codec, g: Codec|
                #[trigger] repair_of(s0.text@, w, g) is Some ==> in_kept(kept, repair_of(s0.text@, w, g)->0)
        }
}

/// The first slot of the first beam ranks no later than every seed slot it
/// is chosen among.
spec fn first_seed_ranks<F: Fn(&RecoveryState) -> ScoreKeys>(
    pool: &Pool,
    frontier: Seq<usize>,
    o: Origin,
    clean: bool,
    score: &F,
) -> bool {
    (clean ==> is_seed_text(o.0, o)) ==> {
        &&& frontier.len() > 0
        &&& frontier[0] < pool.states@.len()
        &&& pool.states@[frontier[0] as int].depth == 0
        &&& is_seed_text(pool.text(frontier[0] as int), o)
        &&& (clean ==> pool.text(frontier[0] as int) == o.0)
        &&& score.ensures((&pool.states@[frontier[0] as int],), pool.keys@[frontier[0] as int])
        &&& forall|t: Seq<char>|
            #[trigger] is_seed_text(t, o) && (clean ==> t == o.0) ==> exists|s1: RecoveryState, k1: ScoreKeys|
                #![trigger score.ensures((&s1,), k1)]
                s1.text@ == t && score.ensures((&s1,), k1) && ranks_no_later(
                    (pool.states@[frontier[0] as int], pool.keys@[frontier[0] as int]),
                    (s1, k1),
                )
    }
}

/// The first beam starts from the best-ranked seed slot, or from the slot of
/// the unchanged text when the source is clean.
proof fn lemma_first_seed_ranks<F: Fn(&RecoveryState) -> ScoreKeys>(
    pool: &Pool,
    seeds: Seq<usize>,
    ranked: Seq<usize>,
    kept: Seq<usize>,
    frontier: Seq<usize>,
    o: Origin,
    e: nat,
    clean: bool,
    score: &F,
)
    requires
        pool.wf(o, e),
        keyed(pool, score),
        pool.states@.len() >= 1,
        forall|i: int| 0 <= i < pool.states@.len() ==> (#[trigger] pool.states@[i]).depth == 0,
        forall|q: usize| q < pool.states@.len() ==> #[trigger] seeds.contains(q),
        forall|y: usize| ranked.contains(y) <==> seeds.contains(y),
        sorted(pool, ranked, false),
        in_pool(pool, ranked),
        clean ==> in_pool(pool, kept) && (forall|j: int| 0 <= j < kept.len() ==> pool.text(#[trigger] kept[j] as int) == o.0)
            && (forall|j: int| 0 <= j < ranked.len() && pool.text(ranked[j] as int) == o.0 ==> kept.contains(#[trigger] ranked[j])),
        !clean ==> kept == ranked,
        frontier == (if kept.len() > BEAM_WIDTH { kept.take(BEAM_WIDTH as int) } else { kept }),
        forall|t: Seq<char>| #[trigger] is_seed_text(t, o) ==> exists|i: int| 0 <= i < pool.states@.len() && #[trigger] pool.text(i) == t,
    ensures
        first_seed_ranks(pool, frontier, o, clean, score),
{
    if clean ==> is_seed_text(o.0, o) {
        if clean {
            let i0 = choose|i: int| 0 <= i < pool.states@.len() && #[trigger] pool.text(i) == o.0;
            assert(seeds.contains(i0 as usize));
            assert(ranked.contains(i0 as usize));
            let j = choose|j: int| 0 <= j < ranked.len() && ranked[j] == i0 as usize;
            assert(kept.contains(ranked[j]));
            assert(kept.len() > 0);
        } else {
            assert(seeds.contains(0usize));
            assert(ranked.contains(0usize));
            assert(ranked.len() > 0);
        }
        assert(frontier.len() > 0);
        let f0 = frontier[0] as int;
        assert(frontier[0] == kept[0]);
        assert(f0 < pool.states@.len());
        assert(pool.states@[f0].depth == 0);
        assert(derivable(pool.states@[f0].text@, 0, o));
        assert(is_seed_text(pool.text(f0), o));
        let s0 = pool.states@[f0];
        let k0 = pool.keys@[f0];
        assert(score.ensures((&s0,), k0));
        assert forall|t: Seq<char>| #[trigger] is_seed_text(t, o) && (clean ==> t == o.0) implies exists|s1: RecoveryState, k1: ScoreKeys|
            #![trigger score.ensures((&s1,), k1)]
            s1.text@ == t && score.ensures((&s1,), k1) && ranks_no_later((s0, k0), (s1, k1)) by {
            let q = choose|i: int| 0 <= i < pool.states@.len() && #[trigger] pool.text(i) == t;
            let s1 = pool.states@[q];
            let k1 = pool.keys@[q];
            assert(score.ensures((&s1,), k1));
            if q == f0 {
                assert(ranks_no_later((s0, k0), (s1, k1)));
            } else if clean {
                assert(pool.text(f0) == o.0);
                if q < f0 {
                    assert(pool.states@[q].text@ != pool.states@[f0].text@);
                } else {
                    assert(pool.states@[f0].text@ != pool.states@[q].text@);
                }
            } else {
                assert(seeds.contains(q as usize));
                assert(ranked.contains(q as usize));
                let p = choose|p: int| 0 <= p < ranked.len() && ranked[p] == q as usize;
                assert(p != 0);
                assert(precedes(pool, ranked[0] as int, ranked[p] as int, false));
                assert(ranks_no_later((s0, k0), (s1, k1)));
            }
        }
    }
}

/// Every admissible repair of a text whose repairs the pool holds is kept.
proof fn lemma_repairs_kept(pool: &Pool, p: Seq<char>)
    requires
        repairs_found(pool, p, 11),
    ensures
        forall|w: Codec, g: Codec| #[trigger] repair_of(p, w, g) is Some ==> in_kept(pool_kept(pool), repair_of(p, w, g)->0),
{
    assert forall|w: Codec, g: Codec| #[trigger] repair_of(p, w, g) is Some implies in_kept(
        pool_kept(pool),
        repair_of(p, w, g)->0,
    ) by {
        lemma_codec_order_covers(w);
        let wi = choose|wi: int| 0 <= wi < 11 && #[trigger] codec_order(wi) == w;
        assert(repair_of(p, codec_order(wi), g) is Some);
        lemma_found_in_kept(pool, repair_of(p, w, g)->0);
    }
}


/// The texts known once the first `d` frontiers of `fr` were expanded: the
/// seed texts and the admissible repairs of the expandable states of those
/// frontiers.
pub open spec fn known_after(fr: Seq<Seq<RecoveryState>>, o: Origin, d: int) -> Set<Seq<char>>
    decreases d,
{
    if d <= 0 {
        Set::new(|t: Seq<char>| is_seed_text(t, o))
    } else {
        known_after(fr, o, d - 1).union(layer_repairs(fr[d - 1]))
    }
}

/// The frontiers `fr`, each as its states stood when the search expanded
/// them: at most `BEAM_WIDTH` states each, none empty after the first;
/// every state has a valid path and carries the inherited loss; the first
/// frontier holds seed texts (the unchanged text alone for clean Unicode),
/// and each later one holds repairs of the frontier before it that were not
/// known before that frontier was expanded.
pub open spec fn frontiers_ok(fr: Seq<Seq<RecoveryState>>, o: Origin, clean: bool, inherited: nat) -> bool {
    &&& forall|d: int| 0 <= d < fr.len() ==> (#[trigger] fr[d]).len() <= BEAM_WIDTH
    &&& forall|d: int| 1 <= d < fr.len() ==> (#[trigger] fr[d]).len() >= 1
    &&& forall|d: int, j: int|
        #![trigger fr[d][j]]
        0 <= d < fr.len() && 0 <= j < fr[d].len() ==> path_ok(&fr[d][j], o) && carries_loss(&fr[d][j], inherited)
    &&& fr.len() > 0 ==> forall|j: int|
        #![trigger fr[0][j]]
        0 <= j < fr[0].len() ==> is_seed_text(fr[0][j].text@, o) && (clean ==> fr[0][j].text@ == o.0)
    &&& forall|d: int, j: int|
        #![trigger fr[d][j]]
        1 <= d < fr.len() && 0 <= j < fr[d].len() ==> layer_repairs(fr[d - 1]).contains(fr[d][j].text@)
            && !known_after(fr, o, d - 1).contains(fr[d][j].text@)
}

/// The search went layer by layer: `fr` are the frontiers it expanded, at
/// least one and at most `limit`; the kept texts are exactly those known
/// after all of them, so every admissible repair of every expandable
/// frontier state is kept; and it stopped before `limit` layers only when
/// the last layer found nothing new.
pub open spec fn layers_cover(
    fr: Seq<Seq<RecoveryState>>,
    kept: Seq<(RecoveryState, ScoreKeys)>,
    o: Origin,
    limit: nat,
    clean: bool,
    inherited: nat,
) -> bool {
    &&& 1 <= fr.len() <= limit
    &&& frontiers_ok(fr, o, clean, inherited)
    &&& forall|t: Seq<char>| #[trigger] in_kept(kept, t) <==> known_after(fr, o, fr.len() as int).contains(t)
    &&& fr.len() < limit ==> known_after(fr, o, fr.len() as int) == known_after(fr, o, fr.len() - 1)
}

/// The scoring ranks a deeper state no higher than a shallower one of the
/// same text with the same reversibility and loss, when the shallower one is
/// validated Unicode without the unsupported UTF-16 mark and the deeper one
/// earns none of the preservation, detector or BOM/pattern bonuses: what a
/// penalty per repair layer makes of it.
pub open spec fn penalizes_depth<F: Fn(&RecoveryState) -> ScoreKeys>(score: &F) -> bool {
    forall|a: RecoveryState, ka: ScoreKeys, b: RecoveryState, kb: ScoreKeys|
        #![trigger score.ensures((&a,), ka), score.ensures((&b,), kb)]
        score.ensures((&a,), ka) && score.ensures((&b,), kb) && a.text@ == b.text@ && a.depth < b.depth
            && a.reversible == b.reversible && a.lossy == b.lossy && a.inherited_loss == b.inherited_loss
            && a.validated_unicode && !a.unsupported_utf16 && !b.preserve && !b.detector_match && !b.bom_or_pattern
            ==> kb.compare <= ka.compare
}

/// How many repair layers the search may expand: one for clean Unicode,
/// `MAX_DEPTH` otherwise.
pub open spec fn layer_limit(clean: bool) -> nat {
    if clean { 1 } else { MAX_DEPTH as nat }
}

/// Adding a frontier leaves what was known after the earlier ones.
proof fn lemma_known_prefix(fr: Seq<Seq<RecoveryState>>, x: Seq<RecoveryState>, o: Origin, d: int)
    requires
        0 <= d <= fr.len(),
    ensures
        known_after(fr.push(x), o, d) == known_after(fr, o, d),
    decreases d,
{
    if d > 0 {
        lemma_known_prefix(fr, x, o, d - 1);
        assert(fr.push(x)[d - 1] == fr[d - 1]);
    }
}

/// The frontiers expanded so far are in order and the pool holds exactly
/// the texts known after them.
#[verifier::opaque]
spec fn layers_so_far(fr: Seq<Seq<RecoveryState>>, pool: &Pool, o: Origin, clean: bool, inherited: nat) -> bool {
    &&& frontiers_ok(fr, o, clean, inherited)
    &&& forall|t: Seq<char>|
        #![trigger found(pool, t)]
        #![trigger known_after(fr, o, fr.len() as int).contains(t)]
        found(pool, t) <==> known_after(fr, o, fr.len() as int).contains(t)
}

/// A text that may enter the frontier after `fr`: a seed text first (the
/// unchanged text for clean Unicode), later a repair from the last
/// frontier that was not known before it.
#[verifier::opaque]
spec fn fresh_text(fr: Seq<Seq<RecoveryState>>, t: Seq<char>, o: Origin, clean: bool) -> bool {
    if fr.len() == 0 {
        is_seed_text(t, o) && (clean ==> t == o.0)
    } else {
        layer_repairs(fr.last()).contains(t) && !known_after(fr, o, fr.len() - 1).contains(t)
    }
}

/// One expanded layer, complete (no limit stopped it), extends the record:
/// the pool now holds what is known after the new frontier, the new slots
/// are fresh, and no new slot means nothing new became known.
proof fn lemma_layer_step(
    before: &Pool,
    after: &Pool,
    frontier: Seq<usize>,
    next: Seq<usize>,
    snaps: Seq<RecoveryState>,
    fr: Seq<Seq<RecoveryState>>,
    o: Origin,
    clean: bool,
    inherited: nat,
)
    requires
        layers_so_far(fr, before, o, clean, inherited),
        forall|j: int| 0 <= j < frontier.len() ==> fresh_text(fr, before.text(#[trigger] frontier[j] as int), o, clean),
        frontier.len() <= BEAM_WIDTH,
        fr.len() >= 1 ==> frontier.len() >= 1,
        in_pool(before, frontier),
        after.extends(before),
        in_pool(after, next),
        grew_by(after, before, next, 0, |t: Seq<char>| layer_repairs(snaps).contains(t)),
        snaps.len() == frontier.len(),
        forall|j: int| 0 <= j < snaps.len() ==> (#[trigger] snaps[j]).text@ == before.text(frontier[j] as int),
        forall|j: int| 0 <= j < snaps.len() ==> path_ok(&#[trigger] snaps[j], o) && carries_loss(&snaps[j], inherited),
        forall|j: int|
            0 <= j < snaps.len() && expandable_spec(&snaps[j]) ==> repairs_found(after, (#[trigger] snaps[j]).text@, 11),
    ensures
        layers_so_far(fr.push(snaps), after, o, clean, inherited),
        forall|i: int| 0 <= i < next.len() ==> fresh_text(fr.push(snaps), after.text(#[trigger] next[i] as int), o, clean),
        next.len() == 0 ==> known_after(fr.push(snaps), o, fr.len() as int + 1) == known_after(fr.push(snaps), o, fr.len() as int),
{
    reveal(layers_so_far);
    reveal(fresh_text);
    let fr2 = fr.push(snaps);
    let n = fr.len() as int;
    assert forall|d: int| 0 <= d <= n implies #[trigger] known_after(fr2, o, d) == known_after(fr, o, d) by {
        lemma_known_prefix(fr, snaps, o, d);
    }
    assert(fr2[n] == snaps);
    assert(known_after(fr2, o, n + 1) == known_after(fr2, o, n).union(layer_repairs(snaps)));
    assert forall|d: int| 0 <= d < n implies #[trigger] fr2[d] == fr[d] by {}
    assert forall|d: int, j: int| 1 <= d < fr2.len() && 0 <= j < fr2[d].len() implies layer_repairs(fr2[d - 1]).contains(
        #[trigger] fr2[d][j].text@,
    ) && !known_after(fr2, o, d - 1).contains(fr2[d][j].text@) by {
        if d < n {
            assert(fr2[d] == fr[d]);
            assert(fr2[d - 1] == fr[d - 1]);
            assert(fr[d][j] == fr2[d][j]);
        } else {
            assert(fr2[d][j] == snaps[j]);
            assert(fresh_text(fr, before.text(frontier[j] as int), o, clean));
            assert(fr.last() == fr2[d - 1]);
        }
    }
    assert forall|d: int, j: int| 0 <= d < fr2.len() && 0 <= j < fr2[d].len() implies path_ok(&#[trigger] fr2[d][j], o)
        && carries_loss(&fr2[d][j], inherited) by {
        if d < n {
            assert(fr2[d] == fr[d]);
            assert(fr[d][j] == fr2[d][j]);
        } else {
            assert(fr2[d][j] == snaps[j]);
        }
    }
    if n == 0 {
        assert forall|j: int| 0 <= j < fr2[0].len() implies is_seed_text(#[trigger] fr2[0][j].text@, o) && (clean
            ==> fr2[0][j].text@ == o.0) by {
            assert(fr2[0][j] == snaps[j]);
            assert(fresh_text(fr, before.text(frontier[j] as int), o, clean));
        }
    } else {
        assert forall|j: int| 0 <= j < fr2[0].len() implies is_seed_text(#[trigger] fr2[0][j].text@, o) && (clean
            ==> fr2[0][j].text@ == o.0) by {
            assert(fr2[0] == fr[0]);
            assert(fr[0][j] == fr2[0][j]);
        }
    }
    assert forall|d: int| 0 <= d < fr2.len() implies (#[trigger] fr2[d]).len() <= BEAM_WIDTH by {
        if d < n {
            assert(fr2[d] == fr[d]);
        }
    }
    assert forall|d: int| 1 <= d < fr2.len() implies (#[trigger] fr2[d]).len() >= 1 by {
        if d < n {
            assert(fr2[d] == fr[d]);
        }
    }
    assert(frontiers_ok(fr2, o, clean, inherited));
    assert forall|t: Seq<char>| found(after, t) implies #[trigger] known_after(fr2, o, n + 1).contains(t) by {
        let i = choose|i: int| 0 <= i < after.states@.len() && #[trigger] after.text(i) == t;
        if i < before.states@.len() {
            assert(before.text(i) == t);
            assert(found(before, t));
        } else {
            assert(after.states@[i].text@ == t);
        }
    }
    assert forall|t: Seq<char>| #[trigger] known_after(fr2, o, n + 1).contains(t) implies found(after, t) by {
        if known_after(fr, o, n).contains(t) {
            assert(found(before, t));
            lemma_found_kept(before, after, t);
        } else {
            assert(layer_repairs(snaps).contains(t));
            let (k, w, g) = choose|k: int, w: Codec, g: Codec|
                0 <= k < snaps.len() && expandable_spec(&snaps[k]) && #[trigger] repair_of(snaps[k].text@, w, g) == Some(t);
            assert(repairs_found(after, snaps[k].text@, 11));
            lemma_codec_order_covers(w);
            let wi = choose|wi: int| 0 <= wi < 11 && #[trigger] codec_order(wi) == w;
            assert(repair_of(snaps[k].text@, codec_order(wi), g) is Some);
        }
    }
    assert forall|i: int| 0 <= i < next.len() implies fresh_text(fr2, after.text(#[trigger] next[i] as int), o, clean) by {
        let q = next[i] as int;
        assert(after.states@[q].text@ == after.text(q));
        assert(!found(before, after.text(q)));
        assert(fr2.last() == snaps);
    }
    if next.len() == 0 {
        assert forall|t: Seq<char>| #[trigger] known_after(fr2, o, n + 1).contains(t) implies known_after(fr2, o, n).contains(t) by {
            let i = choose|i: int| 0 <= i < after.states@.len() && #[trigger] after.text(i) == t;
            assert(before.text(i) == t);
            assert(found(before, t));
        }
        assert(known_after(fr2, o, n + 1) =~= known_after(fr2, o, n));
    }
}

/// While the search stays a parent's worth of decodes and slots below its
/// limits, the frontiers expanded so far are in order and the next frontier
/// holds fresh texts.
#[verifier::opaque]
spec fn layer_progress(
    fr: Seq<Seq<RecoveryState>>,
    pool: &Pool,
    frontier: Seq<usize>,
    explored: int,
    max_explored: int,
    o: Origin,
    clean: bool,
    inherited: nat,
) -> bool {
    explored + 121 <= max_explored && pool.states@.len() + 121 <= MAX_STATES ==> layers_so_far(fr, pool, o, clean, inherited)
        && forall|j: int| 0 <= j < frontier.len() ==> fresh_text(fr, pool.text(#[trigger] frontier[j] as int), o, clean)
}

/// While the search stayed a parent's worth of decodes and slots below its
/// limits, it expanded the frontiers `fr` in order, at least one and at most
/// `limit`, and stopped before `limit` only when nothing new was found.
#[verifier::opaque]
spec fn layers_done(
    fr: Seq<Seq<RecoveryState>>,
    pool: &Pool,
    explored: int,
    max_explored: int,
    o: Origin,
    clean: bool,
    inherited: nat,
    limit: nat,
) -> bool {
    explored + 121 <= max_explored && pool.states@.len() + 121 <= MAX_STATES ==> layers_so_far(fr, pool, o, clean, inherited)
        && 1 <= fr.len() <= limit && (fr.len() < limit ==> known_after(fr, o, fr.len() as int) == known_after(
        fr,
        o,
        fr.len() - 1,
    ))
}

/// One layer of the search keeps the record of the layers: with the next
/// frontier drawn from the new slots, and, when the search ends here, the
/// record of what it did.
proof fn lemma_layers_next(
    before: &Pool,
    after: &Pool,
    frontier: Seq<usize>,
    next: Seq<usize>,
    snaps: Seq<RecoveryState>,
    fr: Seq<Seq<RecoveryState>>,
    new_frontier: Seq<usize>,
    stop: bool,
    eb: int,
    ea: int,
    maxe: int,
    o: Origin,
    clean: bool,
    inherited: nat,
    limit: nat,
)
    requires
        layer_progress(fr, before, frontier, eb, maxe, o, clean, inherited),
        eb <= ea,
        after.extends(before),
        frontier.len() <= BEAM_WIDTH,
        fr.len() >= 1 ==> frontier.len() >= 1,
        fr.len() + 1 <= limit,
        in_pool(before, frontier),
        in_pool(after, next),
        grew_by(after, before, next, 0, |t: Seq<char>| layer_repairs(snaps).contains(t)),
        stop ==> ea + 121 > maxe || after.states@.len() + 121 > MAX_STATES,
        !stop ==> snaps.len() == frontier.len(),
        forall|j: int| 0 <= j < snaps.len() ==> (#[trigger] snaps[j]).text@ == before.text(frontier[j] as int),
        forall|j: int| 0 <= j < snaps.len() ==> path_ok(&#[trigger] snaps[j], o) && carries_loss(&snaps[j], inherited),
        !stop ==> forall|j: int|
            0 <= j < snaps.len() && expandable_spec(&snaps[j]) ==> repairs_found(after, (#[trigger] snaps[j]).text@, 11),
        forall|y: usize| new_frontier.contains(y) ==> next.contains(y),
        new_frontier.len() == 0 ==> next.len() == 0,
    ensures
        layer_progress(fr.push(snaps), after, new_frontier, ea, maxe, o, clean, inherited),
        stop || new_frontier.len() == 0 || ea >= maxe || after.states@.len() >= MAX_STATES || fr.len() + 1 == limit
            ==> layers_done(fr.push(snaps), after, ea, maxe, o, clean, inherited, limit),
{
    reveal(layer_progress);
    reveal(layers_done);
    if ea + 121 <= maxe && after.states@.len() + 121 <= MAX_STATES {
        lemma_layer_step(before, after, frontier, next, snaps, fr, o, clean, inherited);
        assert forall|j: int| 0 <= j < new_frontier.len() implies fresh_text(
            fr.push(snaps),
            after.text(#[trigger] new_frontier[j] as int),
            o,
            clean,
        ) by {
            assert(new_frontier.contains(new_frontier[j]));
            let i = choose|i: int| 0 <= i < next.len() && next[i] == new_frontier[j];
            assert(fresh_text(fr.push(snaps), after.text(next[i] as int), o, clean));
        }
    }
}

/// A kept text is one the pool holds.
proof fn lemma_in_kept_found(pool: &Pool, t: Seq<char>)
    ensures
        in_kept(pool_kept(pool), t) <==> found(pool, t),
{
    if in_kept(pool_kept(pool), t) {
        let j = choose|j: int| 0 <= j < pool_kept(pool).len() && #[trigger] pool_kept(pool)[j].0.text@ == t;
        assert(pool.text(j) == t);
    }
    if found(pool, t) {
        lemma_found_in_kept(pool, t);
    }
}

/// The record of the layers, for the states the search kept.
proof fn lemma_layers_cover(
    fr: Seq<Seq<RecoveryState>>,
    pool: &Pool,
    e: int,
    maxe: int,
    o: Origin,
    clean: bool,
    inherited: nat,
    limit: nat,
)
    requires
        layers_done(fr, pool, e, maxe, o, clean, inherited, limit),
        e + 121 <= maxe,
        pool.states@.len() + 121 <= MAX_STATES,
    ensures
        layers_cover(fr, pool_kept(pool), o, limit, clean, inherited),
{
    reveal(layers_done);
    reveal(layers_so_far);
    assert forall|t: Seq<char>| #[trigger] in_kept(pool_kept(pool), t) <==> known_after(fr, o, fr.len() as int).contains(t) by {
        lemma_in_kept_found(pool, t);
    }
}
/// A repaired state (depth above zero), as the search reports it with a
/// valid path, never gets the reason `preserved_original`.
pub proof fn law_repaired_state_not_preserved(s: &RecoveryState, o: Origin, original: &crate::evidence::Metrics)
    requires
        path_ok(s, o),
        s.depth > 0,
    ensures
        !s.preserve,
        !crate::report::reasons_spec(s, original).contains("preserved_original"@),
{
    crate::report::law_preserved_original_reason(s, original);
}

/// The bounded repair search over the text under analysis (`original`),
/// optionally read from `raw` bytes, with the clues of a byte-order mark,
/// of the detector and of a UTF-16 NUL pattern. `score` gives each state's
/// order keys. Returns the reported states and the number of decodes made.
///
/// Every reported text is distinct and is a seed text or is reached from
/// one by at most its depth of strict, exactly round-tripping repairs; the
/// states are reported in the order of the keys `score` gave them, except
/// that the unchanged interpretation, which is reported whenever it is a
/// seed, may stand last; at most `MAX_CANDIDATES` states are reported and
/// the decodes stay within the budget for the input's size. Replacement
/// characters already in the evidence make every candidate lossy, clean
/// Unicode gets one repair layer, and for pasted text every admissible
/// single repair is reported or outranked by the reported states. Every
/// repair pair of a reported path changes the text. Pasted text keeps its
/// empty path whenever the scoring penalizes depth. While the search ends at
/// least a parent's worth of decodes and slots below its limits, it expands
/// its frontiers layer by layer up to the depth limit, keeps every
/// admissible repair of every expandable frontier state, and stops early
/// only when a layer finds nothing new.
#[verifier::rlimit(100)]
pub fn search<F: Fn(&RecoveryState) -> ScoreKeys>(
    original: &str,
    raw: Option<&[u8]>,
    bom: Option<Codec>,
    detector: Option<Codec>,
    utf16_pattern: Option<Codec>,
    score: &F,
) -> (r: (Vec<RecoveryState>, usize))
    requires
        encode_utf8(original@).len() <= usize::MAX / 32,
        raw matches Some(b) ==> b@.len() <= usize::MAX / 128,
        forall|s: &RecoveryState| #[trigger] score.requires((s,)),
    ensures
        1 <= r.0@.len() <= MAX_CANDIDATES,
        forall|i: int, j: int|
            #![trigger r.0@[i], r.0@[j]]
            0 <= i < j < r.0@.len() ==> r.0@[i].text@ != r.0@[j].text@,
        forall|i: int|
            #![trigger r.0@[i]]
            0 <= i < r.0@.len() ==> derivable(r.0@[i].text@, r.0@[i].depth as nat, (original@, opt_bytes(raw), bom))
                && r.0@[i].depth <= MAX_DEPTH && r.0@[i].alternatives <= r.1,
        is_seed_text(original@, (original@, opt_bytes(raw), bom)) ==> exists|i: int|
            0 <= i < r.0@.len() && #[trigger] r.0@[i].text@ == original@,
        r.1 <= search_budget_spec(encode_utf8(original@).len()),
        forall|i: int|
            #![trigger r.0@[i]]
            0 <= i < r.0@.len() ==> path_ok(&r.0@[i], (original@, opt_bytes(raw), bom)),
        raw is None ==> forall|i: int|
            #![trigger r.0@[i]]
            0 <= i < r.0@.len() && r.0@[i].text@ == original@ ==> (r.0@[i].depth == 0 && r.0@[i].steps@.len() == 0)
                || r.0@[i].depth >= 2,
        raw is None && penalizes_depth(score) ==> forall|i: int|
            #![trigger r.0@[i]]
            0 <= i < r.0@.len() && r.0@[i].text@ == original@ ==> r.0@[i].depth == 0 && r.0@[i].steps@.len() == 0,
        raw is None && clean_source(original@, opt_bytes(raw), bom, utf16_pattern) ==> forall|i: int|
            #![trigger r.0@[i]]
            0 <= i < r.0@.len() && r.0@[i].text@ == original@ ==> r.0@[i].depth == 0 && r.0@[i].steps@.len() == 0
                && r.0@[i].alternatives == 0,
        exists|scored: Seq<(RecoveryState, ScoreKeys)>, kept: Seq<(RecoveryState, ScoreKeys)>|
            #![trigger report_of_kept(r.0@, scored, kept, (original@, opt_bytes(raw), bom), score)]
            {
                &&& in_rank_order(r.0@, scored, original@, score)
                &&& report_of_kept(r.0@, scored, kept, (original@, opt_bytes(raw), bom), score)
                &&& raw is None ==> forall|i: int|
                    #![trigger scored[i]]
                    0 <= i < r.0@.len() && r.0@[i].text@ == original@ ==> (r.0@[i].depth == 0 && r.0@[i].steps@.len()
                        == 0) || (r.0@[i].depth >= 2 && exists|s0: RecoveryState, k0: ScoreKeys|
                        #![trigger score.ensures((&s0,), k0)]
                        s0.text@ == original@ && s0.depth == 0 && s0.steps@.len() == 0 && score.ensures((&s0,), k0)
                            && k0.compare < scored[i].1.compare)
                &&& repairable_paste(original@, opt_bytes(raw)) ==> forall|w: Codec, g: Codec|
                    #[trigger] repair_of(original@, w, g) is Some ==> in_kept(kept, repair_of(original@, w, g)->0)
                &&& (clean_source(original@, opt_bytes(raw), bom, utf16_pattern) ==> is_seed_text(
                    original@,
                    (original@, opt_bytes(raw), bom),
                )) ==> first_beam_covered(
                    kept,
                    (original@, opt_bytes(raw), bom),
                    clean_source(original@, opt_bytes(raw), bom, utf16_pattern),
                    score,
                )
                &&& r.1 + 121 <= search_budget_spec(encode_utf8(original@).len()) && kept.len() + 121 <= MAX_STATES
                    ==> exists|fr: Seq<Seq<RecoveryState>>|
                    #[trigger] layers_cover(
                        fr,
                        kept,
                        (original@, opt_bytes(raw), bom),
                        layer_limit(clean_source(original@, opt_bytes(raw), bom, utf16_pattern)),
                        clean_source(original@, opt_bytes(raw), bom, utf16_pattern),
                        inherited_loss_spec(opt_bytes(raw), bom is Some, replacement_count_in(original@)),
                    )
            },
        forall|i: int|
            #![trigger r.0@[i]]
            0 <= i < r.0@.len() ==> carries_loss(
                &r.0@[i],
                inherited_loss_spec(opt_bytes(raw), bom is Some, replacement_count_in(original@)),
            ) && r.0@[i].depth <= (if clean_source(original@, opt_bytes(raw), bom, utf16_pattern) {
                1
            } else {
                MAX_DEPTH
            }),
{
    let ghost o: Origin = (original@, opt_bytes(raw), bom);
    proof {
        crate::codec::lemma_encoded_lengths(original@);
    }
    let max_explored = search_budget(original.len());
    let original_values = metrics(original);
    let original_clean = original_values.clean();
    let clean = clean_unicode_source(original_clean, bom.is_some(), utf16_pattern.is_some(), raw);
    let inherited = inherited_loss(raw, bom.is_some(), original_values.replacements);
    let limit = depth_limit(clean);
    let (mut pool, seeds, mut explored) = seed(
        original,
        raw,
        bom,
        detector,
        utf16_pattern,
        inherited,
        original_clean,
        score,
        Ghost(limit as nat),
    );
    let ranked = rank(&pool, &seeds, false);
    proof {
        assert forall|i: int| 0 <= i < ranked@.len() implies pool.layers@[#[trigger] ranked@[i] as int] == 0 by {
            assert(ranked@.contains(ranked@[i]));
            let j = choose|j: int| 0 <= j < seeds@.len() && seeds@[j] == ranked@[i];
        }
        assert forall|i: int, j: int| 0 <= i < j < ranked@.len() implies ranked@[i] != ranked@[j] by {
            assert(precedes(&pool, ranked@[i] as int, ranked@[j] as int, false));
        }
    }
    let kept = if clean {
        keep_text(&pool, &ranked, original)
    } else {
        ranked
    };
    proof {
        assert forall|i: int| 0 <= i < kept@.len() implies pool.layers@[#[trigger] kept@[i] as int] == 0 by {
            assert(kept@.contains(kept@[i]));
            assert(ranked@.contains(kept@[i]));
            let j = choose|j: int| 0 <= j < ranked@.len() && ranked@[j] == kept@[i];
        }
    }
    let ghost kept_view = kept@;
    let mut frontier = first_n(kept, BEAM_WIDTH);
    proof {
        lemma_first_seed_ranks(&pool, seeds@, ranked@, kept_view, frontier@, o, explored as nat, clean, score);
    }
    let ghost seed_pool = pool;
    let ghost seed_frontier = frontier@;
    let ghost seed_explored = explored;
    proof {
        if raw is None {
            assert(seeds@[0] == 0);
            assert(seeds@.contains(0));
            assert(ranked@.contains(0));
            let p = choose|p: int| 0 <= p < ranked@.len() && ranked@[p] == 0;
            assert(ranked@ =~= seq![0usize]);
            if clean {
                assert(kept@.contains(ranked@[0]));
                assert forall|i: int| 0 <= i < kept@.len() implies kept@[i] == 0 by {
                    assert(kept@.contains(kept@[i]));
                }
                if kept@.len() > 1 {
                    assert(kept@[0] == kept@[1]);
                }
                assert(kept@ =~= seq![0usize]);
            }
            assert(frontier@ =~= seq![0usize]);
        }
        crate::recovery::lemma_budget_shrinks(encode_utf8(original@).len(), encode_utf8(original@).len());
    }
    assert(layer_progress(seq![], &pool, frontier@, explored as int, max_explored as int, o, clean, inherited as nat)) by {
        reveal(layer_progress);
        reveal(layers_so_far);
        reveal(fresh_text);
        assert forall|t: Seq<char>| found(&pool, t) implies #[trigger] known_after(seq![], o, 0).contains(t) by {
            let i = choose|i: int| 0 <= i < pool.states@.len() && #[trigger] pool.text(i) == t;
            assert(derivable(pool.states@[i].text@, pool.states@[i].depth as nat, o));
        }
        assert forall|t: Seq<char>| #[trigger] known_after(seq![], o, 0).contains(t) implies found(&pool, t) by {
            assert(is_seed_text(t, o));
        }
        assert forall|j: int| 0 <= j < frontier@.len() implies fresh_text(seq![], pool.text(#[trigger] frontier@[j] as int), o, clean) by {
            let q = frontier@[j];
            assert(q == kept_view[j]);
            assert(kept_view.contains(q));
            assert(derivable(pool.states@[q as int].text@, pool.states@[q as int].depth as nat, o));
            if clean {
                let p = choose|p: int| 0 <= p < kept_view.len() && kept_view[p] == q;
                assert(pool.text(kept_view[p] as int) == original@);
            }
        }
        assert(layers_so_far(seq![], &pool, o, clean, inherited as nat));
    }
    let ghost mut fr: Seq<Seq<RecoveryState>> = seq![];
    let ghost mut first_done = false;
    let mut depth: usize = 1;
    while depth <= limit
        invariant_except_break
            in_pool(&pool, frontier@),
            frontier@.no_duplicates(),
            forall|i: int| 0 <= i < frontier@.len() ==> pool.layers@[#[trigger] frontier@[i] as int] < depth,
            !first_done ==> depth == 1 && (raw is None ==> pool.states@.len() == 1 && pool.text(0) == original@
                && pool.states@[0].reversible == (inherited == 0) && !pool.expanded@[0] && frontier@ == seq![0usize]
                && explored == 1),
            !first_done ==> pool == seed_pool && frontier@ == seed_frontier && explored == seed_explored,
            first_done ==> depth > 1,
            fr.len() == depth - 1,
            layer_progress(fr, &pool, frontier@, explored as int, max_explored as int, o, clean, inherited as nat),
            depth == limit + 1 ==> layers_done(fr, &pool, explored as int, max_explored as int, o, clean, inherited as nat, limit as nat),
            frontier@.len() <= BEAM_WIDTH,
            depth > 1 ==> frontier@.len() >= 1,
            forall|j: int| 0 <= j < frontier@.len() ==> !(#[trigger] pool.expanded@[frontier@[j] as int]),
        invariant
            depth <= limit + 1,
            depth > 1 ==> first_done,
            limit >= 1,
            first_done && repairable_paste(original@, opt_bytes(raw)) ==> repairs_found(&pool, original@, 11),
            seed_explored <= 11,
            seed_pool.states@.len() <= 11,
            slot0_ok(&pool, o, score),
            forall|t: Seq<char>| #[trigger] is_seed_text(t, o) ==> found(&pool, t),
            forall|i: int| 0 <= i < seed_pool.states@.len() ==> !(#[trigger] seed_pool.expanded@[i]),
            in_pool(&seed_pool, seed_frontier),
            first_seed_ranks(&seed_pool, seed_frontier, o, clean, score),
            first_done && seed_frontier.len() > 0 && expandable_spec(&seed_pool.states@[seed_frontier[0] as int])
                ==> repairs_found(&pool, seed_pool.text(seed_frontier[0] as int), 11),
            max_explored >= 192,
            inherited == inherited_loss_spec(opt_bytes(raw), bom is Some, replacement_count_in(original@)),
            1 <= depth,
            limit <= MAX_DEPTH,
            o == (original@, opt_bytes(raw), bom),
            pool.wf(o, explored as nat),
            pool.inherited@ == inherited,
            pool.cap@ == limit,
            keyed(&pool, score),
            pool.states@.len() >= 1,
            explored <= max_explored <= MAX_EXPLORED,
            max_explored == search_budget_spec(encode_utf8(original@).len()),
            is_seed_text(original@, o) ==> exists|i: int|
                0 <= i < pool.states@.len() && #[trigger] pool.text(i) == original@,
            forall|s: &RecoveryState| #[trigger] score.requires((s,)),
        ensures
            first_done,
            first_done && repairable_paste(original@, opt_bytes(raw)) ==> repairs_found(&pool, original@, 11),
            first_seed_ranks(&seed_pool, seed_frontier, o, clean, score),
            seed_frontier.len() > 0 && expandable_spec(&seed_pool.states@[seed_frontier[0] as int])
                ==> repairs_found(&pool, seed_pool.text(seed_frontier[0] as int), 11),
            layers_done(fr, &pool, explored as int, max_explored as int, o, clean, inherited as nat, limit as nat),
        decreases limit + 1 - depth,
    {
        let ghost before = pool;
        let ghost explored_before = explored;
        let ghost old_frontier = frontier@;
        assert(depth <= pool.cap@);
        let (next, stop, Ghost(snaps)) = expand_layer(&mut pool, &frontier, depth, &mut explored, max_explored, score, Ghost(o));
        proof {
            if repairable_paste(original@, opt_bytes(raw)) {
                if first_done {
                    lemma_repairs_found_kept(&before, &pool, original@);
                } else {
                    assert(frontier@[0] == 0);
                    assert(before.states@[0].reversible);
                    assert(expandable_spec(&before.states@[0]));
                    assert(repairs_found(&pool, before.text(0), 11));
                }
            }
            if seed_frontier.len() > 0 && expandable_spec(&seed_pool.states@[seed_frontier[0] as int]) {
                if first_done {
                    lemma_repairs_found_kept(&before, &pool, seed_pool.text(seed_frontier[0] as int));
                } else {
                    assert(before == seed_pool);
                    assert(repairs_found(&pool, before.text(frontier@[0] as int), 11));
                }
            }
            first_done = true;
            assert forall|t: Seq<char>| #[trigger] is_seed_text(t, o) implies found(&pool, t) by {
                lemma_found_kept(&before, &pool, t);
            }
            if is_seed_text(original@, o) {
                let i = choose|i: int| 0 <= i < before.states@.len() && #[trigger] before.text(i) == original@;
                assert(pool.text(i) == original@);
            }
            assert forall|i: int| 0 <= i < frontier@.len() implies pool.layers@[#[trigger] frontier@[i] as int] < depth by {
                assert(frontier@[i] < before.states@.len());
            }
        }
        let ghost fr_before = fr;
        proof {
            fr = fr.push(snaps);
        }
        if stop {
            proof {
                lemma_layers_next(&before, &pool, frontier@, next@, snaps, fr_before, next@, stop, explored_before as int,
                    explored as int, max_explored as int, o, clean, inherited as nat, limit as nat);
            }
            break;
        }
        let ranked_next = rank(&pool, &next, true);
        proof {
            assert forall|i: int| 0 <= i < ranked_next@.len() implies pool.layers@[#[trigger] ranked_next@[i] as int] == depth by {
                assert(ranked_next@.contains(ranked_next@[i]));
                let j = choose|j: int| 0 <= j < next@.len() && next@[j] == ranked_next@[i];
            }
            assert forall|i: int, j: int| 0 <= i < j < ranked_next@.len() implies ranked_next@[i] != ranked_next@[j] by {
                assert(precedes(&pool, ranked_next@[i] as int, ranked_next@[j] as int, true));
            }
        }
        frontier = first_n(ranked_next, BEAM_WIDTH);
        proof {
            assert forall|j: int| 0 <= j < frontier@.len() implies !(#[trigger] pool.expanded@[frontier@[j] as int]) by {
                assert(frontier@[j] == ranked_next@[j]);
                assert(ranked_next@.contains(ranked_next@[j]));
                let i = choose|i: int| 0 <= i < next@.len() && next@[i] == ranked_next@[j];
                assert(before.states@.len() <= next@[i]);
            }
            assert forall|y: usize| frontier@.contains(y) implies next@.contains(y) by {
                let j = choose|j: int| 0 <= j < frontier@.len() && frontier@[j] == y;
                assert(frontier@[j] == ranked_next@[j]);
                assert(ranked_next@.contains(ranked_next@[j]));
            }
            lemma_layers_next(&before, &pool, old_frontier, next@, snaps, fr_before, frontier@, stop, explored_before as int,
                explored as int, max_explored as int, o, clean, inherited as nat, limit as nat);
        }
        if frontier.len() == 0 || explored >= max_explored || pool.states.len() >= MAX_STATES {
            break;
        }
        depth = depth + 1;
    }
    let all = all_slots(pool.states.len());
    proof {
        assert forall|i: int, j: int| 0 <= i < j < all@.len() implies all@[i] != all@[j] by {}
        assert forall|i: int| 0 <= i < all@.len() implies #[trigger] all@[i] < pool.states@.len() by {}
    }
    let ranked_all = rank(&pool, &all, false);
    proof {
        assert forall|i: int, j: int| 0 <= i < j < ranked_all@.len() implies ranked_all@[i] != ranked_all@[j] by {
            assert(precedes(&pool, ranked_all@[i] as int, ranked_all@[j] as int, false));
        }
    }
    let baseline = find_text(&pool, original);
    proof {
        lemma_selection(ranked_all@, baseline);
    }
    let selected = select_candidates(ranked_all, baseline);
    let ghost sel = selected@;
    proof {
        assert forall|i: int| 0 <= i < sel.len() implies #[trigger] sel[i] < pool.states@.len() by {
            if i >= ranked_all@.len() || sel[i] != ranked_all@[i] {
                assert(baseline == Some(sel[i]));
            }
        }
    }
    let mut out: Vec<RecoveryState> = Vec::new();
    let mut k: usize = 0;
    while k < selected.len()
        invariant
            k <= selected@.len(),
            selected@ == sel,
            sel.len() <= MAX_CANDIDATES,
            sel.no_duplicates(),
            forall|i: int| 0 <= i < sel.len() ==> #[trigger] sel[i] < pool.states@.len(),
            pool.wf(o, explored as nat),
            out@.len() == k,
            pool.inherited@ == inherited,
            pool.cap@ == limit,
            forall|i: int|
                #![trigger out@[i]]
                0 <= i < k ==> carries_loss(&out@[i], inherited as nat) && out@[i].depth <= limit,
            keyed(&pool, score),
            forall|i: int|
                #![trigger out@[i]]
                0 <= i < k ==> out@[i].steps@.len() == pool.states@[sel[i] as int].steps@.len(),
            forall|i: int|
                #![trigger out@[i]]
                0 <= i < k ==> out@[i].text@ == pool.text(sel[i] as int) && out@[i].depth == pool.states@[sel[i] as int].depth
                    && out@[i].alternatives == pool.alternatives@[sel[i] as int],
            forall|i: int| #![trigger out@[i]] 0 <= i < k ==> path_ok(&out@[i], o),
        decreases sel.len() - k,
    {
        let id = selected[k];
        let mut state = clone_state(&pool.states[id]);
        proof {
            lemma_path_ok_copy(&pool.states@[id as int], &state, o);
        }
        state.alternatives = pool.alternatives[id];
        out.push(state);
        k = k + 1;
    }
    proof {
        assert forall|i: int, j: int| 0 <= i < j < out@.len() implies out@[i].text@ != out@[j].text@ by {
            assert(out@[i].text@ == pool.text(sel[i] as int));
            assert(out@[j].text@ == pool.text(sel[j] as int));
            if sel[i] < sel[j] {
                assert(pool.states@[sel[i] as int].text@ != pool.states@[sel[j] as int].text@);
            } else {
                assert(pool.states@[sel[j] as int].text@ != pool.states@[sel[i] as int].text@);
            }
        }
        assert forall|i: int| 0 <= i < out@.len() implies derivable(out@[i].text@, out@[i].depth as nat, o)
            && out@[i].depth <= MAX_DEPTH && out@[i].alternatives <= explored by {
            assert(out@[i].text@ == pool.text(sel[i] as int));
            assert(pool.states@[sel[i] as int].depth <= MAX_DEPTH);
        }
        if is_seed_text(original@, o) {
            let i0 = choose|i: int| 0 <= i < pool.states@.len() && #[trigger] pool.text(i) == original@;
            assert(pool.text(i0) == original@);
            assert(baseline is Some);
            let b = baseline->0;
            assert(sel.contains(b));
            let j = choose|j: int| 0 <= j < sel.len() && sel[j] == b;
            assert(out@[j].text@ == original@);
        }
        assert(ranked_all@.len() >= 1);
    }
    proof {
        let scored = Seq::new(sel.len(), |k: int| (pool.states@[sel[k] as int], pool.keys@[sel[k] as int]));
        let m = sel.len() as int;
        assert forall|i: int| #![trigger scored[i]] 0 <= i < scored.len() implies score.ensures((&scored[i].0,), scored[i].1)
            && scored[i].0.text@ == out@[i].text@ && scored[i].0.depth == out@[i].depth
            && scored[i].0.steps@.len() == out@[i].steps@.len() by {
            assert(out@[i].text@ == pool.text(sel[i] as int));
            assert(pool.keys@[sel[i] as int] == pool.keys@[sel[i] as int]);
        }
        assert forall|i: int, j: int| #![trigger scored[i], scored[j]] 0 <= i < j < scored.len() - 1 implies ranks_no_later(
            scored[i],
            scored[j],
        ) by {
            assert(sel[i] == ranked_all@[i]);
            assert(sel[j] == ranked_all@[j]);
            assert(precedes(&pool, ranked_all@[i] as int, ranked_all@[j] as int, false));
        }
        assert forall|i: int| #![trigger scored[i]] 0 <= i < scored.len() - 1 implies ranks_no_later(
            scored[i],
            scored[scored.len() - 1],
        ) || out@[out@.len() - 1].text@ == original@ by {
            assert(sel[i] == ranked_all@[i]);
            if m - 1 < ranked_all@.len() && sel[m - 1] == ranked_all@[m - 1] {
                assert(precedes(&pool, ranked_all@[i] as int, ranked_all@[m - 1] as int, false));
            } else {
                assert(baseline == Some(sel[m - 1]));
                assert(out@[m - 1].text@ == pool.text(sel[m - 1] as int));
            }
        }
        assert(in_rank_order(out@, scored, original@, score));
        assert forall|q: usize| q < pool.states@.len() implies #[trigger] ranked_all@.contains(q) by {
            assert(all@[q as int] == q);
            assert(all@.contains(q));
        }
        if let Some(b) = baseline {
            assert(pool.text(b as int) == original@);
        }
        assert forall|i: int| #![trigger out@[i]] 0 <= i < out@.len() implies out@[i].text@ == pool.text(
            selection(ranked_all@, baseline)[i] as int,
        ) by {
            assert(sel[i] == selection(ranked_all@, baseline)[i]);
        }
        lemma_report_of_kept(&pool, ranked_all@, baseline, out@, scored, o, explored as nat, score);
        let kept = pool_kept(&pool);
        if clean_source(original@, opt_bytes(raw), bom, utf16_pattern) ==> is_seed_text(original@, o) {
            let f0 = seed_frontier[0] as int;
            let s0 = seed_pool.states@[f0];
            let k0 = seed_pool.keys@[f0];
            assert(score.ensures((&s0,), k0));
            if expandable_spec(&s0) {
                lemma_repairs_kept(&pool, s0.text@);
            }
            assert(first_beam_covered(kept, o, clean_source(original@, opt_bytes(raw), bom, utf16_pattern), score));
        }
        if repairable_paste(original@, opt_bytes(raw)) {
            lemma_repairs_kept(&pool, original@);
        }
        if raw is None && penalizes_depth(score) {
            assert forall|i: int| #![trigger out@[i]] 0 <= i < out@.len() && out@[i].text@ == original@ implies out@[i].depth
                == 0 && out@[i].steps@.len() == 0 by {
                let q = sel[i] as int;
                assert(pool.text(q) == original@);
                assert(pool.text(0) == original@);
                if q != 0 {
                    if q < 0 {
                    } else {
                        assert(pool.states@[0].text@ != pool.states@[q].text@);
                    }
                }
                assert(q == 0);
                if pool.states@[0].depth >= 2 {
                    let a = pool.first@.0;
                    let ka = pool.first@.1;
                    let b = pool.states@[0];
                    let kb = pool.keys@[0];
                    assert(score.ensures((&b,), kb));
                    assert(score.ensures((&a,), ka));
                    assert(path_ok(&b, o));
                    assert(carries_loss(&b, inherited as nat));
                    assert(kb.compare <= ka.compare);
                }
            }
        }
        if explored + 121 <= max_explored && pool.states@.len() + 121 <= MAX_STATES {
            lemma_layers_cover(fr, &pool, explored as int, max_explored as int, o, clean, inherited as nat, limit as nat);
            assert(layers_cover(
                fr,
                kept,
                o,
                layer_limit(clean_source(original@, opt_bytes(raw), bom, utf16_pattern)),
                clean_source(original@, opt_bytes(raw), bom, utf16_pattern),
                inherited_loss_spec(opt_bytes(raw), bom is Some, replacement_count_in(original@)),
            ));
        }
        assert(report_of_kept(out@, scored, kept, o, score));
        if raw is None {
            assert forall|i: int|
                #![trigger scored[i]]
                0 <= i < out@.len() && out@[i].text@ == original@ implies (out@[i].depth == 0 && out@[i].steps@.len()
                    == 0) || (out@[i].depth >= 2 && exists|s0: RecoveryState, k0: ScoreKeys|
                    #![trigger score.ensures((&s0,), k0)]
                    s0.text@ == original@ && s0.depth == 0 && s0.steps@.len() == 0 && score.ensures((&s0,), k0)
                        && k0.compare < scored[i].1.compare) by {
                let q = sel[i] as int;
                assert(pool.text(q) == original@);
                assert(pool.text(0) == original@);
                if q != 0 {
                    if q < 0 {
                    } else {
                        assert(pool.states@[0].text@ != pool.states@[q].text@);
                    }
                }
                assert(q == 0);
                assert(scored[i] == (pool.states@[0], pool.keys@[0]));
                let f = pool.first@;
                assert(score.ensures((&f.0,), f.1));
            }
        }
    }
    let r = (out, explored);
    assert(r.0@ == out@);
    r
}

} // verus!

verus! {

/// Every repair is exact in both directions and changes the text: the
/// parent encodes strictly to bytes that the wrong codec decodes back to the
/// parent without error, and the target codec decodes the same bytes to a
/// different text without error and re-encodes it to the same bytes.
pub proof fn lemma_repair_exact(parent: Seq<char>, wrong: Codec, target: Codec)
    requires
        repair_of(parent, wrong, target) is Some,
    ensures
        exists|bytes: Seq<u8>|
            #![trigger decode_text_spec(bytes, target)]
            crate::codec::encode_spec(wrong, parent) == Ok::<Seq<u8>, Seq<char>>(bytes)
                && decode_text_spec(bytes, wrong) == (parent, false)
                && decode_text_spec(bytes, target) == (repair_of(parent, wrong, target)->0, false)
                && round_trips(bytes, target, repair_of(parent, wrong, target)->0, false),
        target != wrong,
        repair_of(parent, wrong, target)->0 != parent,
{
    let bytes = wrong_codec_bytes_spec(parent, wrong)->0;
    let t = repair_of(parent, wrong, target)->0;
    assert(crate::codec::encode_spec(wrong, parent) == Ok::<Seq<u8>, Seq<char>>(bytes));
    let back = decode_text_spec(bytes, wrong);
    assert(back.0 == parent && back.1 == false);
    assert(back == (parent, false));
    let fwd = decode_text_spec(bytes, target);
    assert(fwd.0 == t && fwd.1 == false);
    assert(fwd == (t, false));
    assert(round_trips(bytes, target, t, false));
}

/// UTF-16 readings need NUL evidence: a repair that encodes with UTF-16
/// starts from a text holding U+0000, and one that decodes with UTF-16 reads
/// bytes with a NUL.
pub proof fn lemma_utf16_repairs_need_nul(parent: Seq<char>, wrong: Codec, target: Codec)
    requires
        repair_of(parent, wrong, target) is Some,
    ensures
        (wrong is Utf16Le || wrong is Utf16Be) ==> parent.contains('\0'),
        (target is Utf16Le || target is Utf16Be) ==> crate::evidence::null_layout_spec(
            wrong_codec_bytes_spec(parent, wrong)->0,
        ) != crate::evidence::NullLayout::NoNul,
{
}

} // verus!
