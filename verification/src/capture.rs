//! The one capture of a GPU trace, and the share of time that the GPU was busy.

use vstd::prelude::*;
use vstd::string::StringExecFns;

use crate::text::{char_list, decimal, decimal_text, join3, same_text};

verus! {

/// Decides which evaluation is captured.
pub struct CaptureGate {
    /// Where the capture goes; there is none without a place.
    pub path: Option<String>,
    /// Which evaluation is captured, counted from zero.
    pub target: u64,
    /// The number of evaluations so far.
    pub seq: u64,
    pub done: bool,
}

/// The next number, starting over after the largest.
pub open spec fn next_seq(seq: u64) -> u64 {
    if seq == u64::MAX {
        0
    } else {
        (seq + 1) as u64
    }
}

impl CaptureGate {
    pub fn new(path: Option<String>, target: u64) -> (gate: Self)
        ensures
            gate.path == path,
            gate.target == target,
            gate.seq == 0,
            !gate.done,
    {
        CaptureGate { path, target, seq: 0, done: false }
    }

    /// This evaluation is the one to capture.
    pub open spec fn due(&self) -> bool {
        self.path is Some && self.seq == self.target && !self.done
    }

    /// Counts an evaluation and tells whether it is the one to capture. Nothing is counted where
    /// there is nowhere to put a capture.
    pub fn eval_started(&mut self) -> (due: bool)
        ensures
            due == old(self).due(),
            *final(self) == gate_after(*old(self)),
    {
        if self.path.is_none() {
            return false;
        }
        let seq: u64 = self.seq;
        self.seq = if seq == u64::MAX {
            0
        } else {
            seq + 1
        };
        if seq != self.target || self.done {
            return false;
        }
        self.done = true;
        true
    }
}

/// What is known of captures after an evaluation has started.
pub open spec fn gate_after(gate: CaptureGate) -> CaptureGate {
    CaptureGate {
        seq: if gate.path is Some {
            next_seq(gate.seq)
        } else {
            gate.seq
        },
        done: gate.done || gate.due(),
        ..gate
    }
}

/// What is known of captures after `k` evaluations have started.
pub open spec fn gate_at(gate: CaptureGate, k: nat) -> CaptureGate
    decreases k,
{
    if k == 0 {
        gate
    } else {
        gate_after(gate_at(gate, (k - 1) as nat))
    }
}

proof fn lemma_done_stays(gate: CaptureGate, i: nat, j: nat)
    requires
        i <= j,
        gate_at(gate, i).done,
    ensures
        gate_at(gate, j).done,
    decreases j,
{
    if i < j {
        lemma_done_stays(gate, i, (j - 1) as nat);
    }
}

proof fn lemma_counts(gate: CaptureGate, k: nat)
    requires
        gate.path is Some,
        gate.seq == 0,
        !gate.done,
        k <= gate.target,
    ensures
        gate_at(gate, k) == (CaptureGate { seq: k as u64, ..gate }),
    decreases k,
{
    if k > 0 {
        lemma_counts(gate, (k - 1) as nat);
    }
}

/// However many evaluations there are, at most one is captured.
pub proof fn law_capture_once(gate: CaptureGate, i: nat, j: nat)
    requires
        i < j,
        gate_at(gate, i).due(),
    ensures
        !gate_at(gate, j).due(),
{
    assert(gate_at(gate, i + 1) == gate_after(gate_at(gate, i)));
    lemma_done_stays(gate, i + 1, j);
}

/// The evaluation that is captured is the one that was asked for, counted from zero.
pub proof fn law_capture_target(gate: CaptureGate, k: nat)
    requires
        gate.path is Some,
        gate.seq == 0,
        !gate.done,
    ensures
        gate_at(gate, gate.target as nat).due(),
        k != gate.target ==> !gate_at(gate, k).due(),
{
    lemma_counts(gate, gate.target as nat);
    if k < gate.target {
        lemma_counts(gate, k);
    } else if k > gate.target {
        law_capture_once(gate, gate.target as nat, k);
    }
}

/// Why a capture that is due cannot be made.
pub open spec fn capture_refusal(
    path: Seq<char>,
    available: bool,
    layer_on: bool,
) -> Option<Seq<char>> {
    if !available {
        Some(
            "GPU capture requested but Metal is unavailable (mlx_metal_is_available=false); skipping"@,
        )
    } else if !layer_on {
        Some(
            "GPU capture requires MTL_CAPTURE_ENABLED=1 to be exported before the process starts (the Metal capture layer must be inserted at device creation); skipping capture. Re-run with: MTL_CAPTURE_ENABLED=1 ONNXRUNTIME_EP_MLX_GPU_CAPTURE="@
                + path + " ..."@,
        )
    } else {
        None
    }
}

/// Tells why a capture that is due cannot be made.
pub fn refuse_capture(path: &str, available: bool, layer_on: bool) -> (refusal: Option<String>)
    ensures
        match refusal {
            Some(text) => capture_refusal(path@, available, layer_on) == Some(text@),
            None => capture_refusal(path@, available, layer_on) is None,
        },
{
    if !available {
        Some(
            "GPU capture requested but Metal is unavailable (mlx_metal_is_available=false); skipping".to_owned(),
        )
    } else if !layer_on {
        Some(
            join3(
                "GPU capture requires MTL_CAPTURE_ENABLED=1 to be exported before the process starts (the Metal capture layer must be inserted at device creation); skipping capture. Re-run with: MTL_CAPTURE_ENABLED=1 ONNXRUNTIME_EP_MLX_GPU_CAPTURE=",
                path,
                " ...",
            ),
        )
    } else {
        None
    }
}

/// A capture that is being made.
pub struct CaptureGuard {
    pub path: String,
}

impl CaptureGuard {
    /// What is said when the capture has started.
    pub fn started_text(&self, eval: u64) -> (text: String)
        ensures
            text@ == "Metal GPU capture STARTED → "@ + self.path@ + " (eval #"@ + decimal(
                eval as nat,
            ) + ")"@,
    {
        let mut text: String = join3(
            "Metal GPU capture STARTED → ",
            self.path.as_str(),
            " (eval #",
        );
        text.append(decimal_text(eval).as_str());
        text.append(")");
        text
    }

    /// What is said when the capture has ended.
    pub fn stopped_text(&self) -> (text: String)
        ensures
            text@ == "Metal GPU capture STOPPED → wrote "@ + self.path@
                + " (open in Xcode: `open "@ + self.path@ + "`)"@,
    {
        let mut text: String = join3(
            "Metal GPU capture STOPPED → wrote ",
            self.path.as_str(),
            " (open in Xcode: `open ",
        );
        text.append(self.path.as_str());
        text.append("`)");
        text
    }
}

/// What is said when the capture could not start.
pub fn capture_failed_text(path: &str) -> (text: String)
    ensures
        text@ == "GPU capture start FAILED for "@ + path@
            + " (capture requires MTL_CAPTURE_ENABLED=1 in the environment and a path ending in .gputrace)"@,
{
    join3(
        "GPU capture start FAILED for ",
        path,
        " (capture requires MTL_CAPTURE_ENABLED=1 in the environment and a path ending in .gputrace)",
    )
}

/// An ASCII letter in upper case, any other character as it is.
pub open spec fn upper(c: char) -> char {
    if 'a' <= c && c <= 'z' {
        ((c as u32) - 32) as char
    } else {
        c
    }
}

/// `word` occurs in the upper-cased text at `at`.
pub open spec fn word_at(text: Seq<char>, word: Seq<char>, at: int) -> bool {
    &&& 0 <= at
    &&& at + word.len() <= text.len()
    &&& forall|k: int| 0 <= k < word.len() ==> upper(text[at + k]) == #[trigger] word[k]
}

/// `word` occurs in the upper-cased text.
pub open spec fn has_word(text: Seq<char>, word: Seq<char>) -> bool {
    exists|at: int| word_at(text, word, at)
}

fn letter_is(c: char, wanted: char) -> (same: bool)
    ensures
        same == (upper(c) == wanted),
{
    if 'a' <= c && c <= 'z' {
        let code: u32 = c as u32 - 32;
        proof {
            assert(upper(c) as u32 == code);
        }
        code == wanted as u32
    } else {
        c == wanted
    }
}

fn contains_word(text: &Vec<char>, word: &str) -> (found: bool)
    ensures
        found == has_word(text@, word@),
{
    let letters: Vec<char> = char_list(word);
    if letters.len() > text.len() {
        proof {
            assert forall|at: int| !word_at(text@, word@, at) by {}
        }
        return false;
    }
    let n: usize = text.len();
    let last: usize = n - letters.len();
    let mut at: usize = 0;
    while at <= last
        invariant
            letters@ == word@,
            n == text@.len(),
            letters@.len() <= n,
            last == n - letters@.len(),
            at <= last + 1,
            forall|i: int| 0 <= i < at ==> !word_at(text@, word@, i),
        decreases last + 1 - at,
    {
        let mut k: usize = 0;
        while k < letters.len() && letter_is(text[at + k], letters[k])
            invariant
                letters@ == word@,
                at <= last,
                n == text@.len(),
                last == n - letters@.len(),
                k <= letters@.len(),
                forall|j: int| 0 <= j < k ==> upper(text@[at + j]) == #[trigger] word@[j],
            decreases letters@.len() - k,
        {
            k = k + 1;
        }
        if k == letters.len() {
            assert(word_at(text@, word@, at as int));
            return true;
        }
        proof {
            assert(upper(text@[at + k]) != word@[k as int]);
        }
        if at == last {
            proof {
                assert forall|i: int| !word_at(text@, word@, i) by {}
            }
            return false;
        }
        at = at + 1;
    }
    false
}

/// The name of a state in which the GPU does nothing.
pub open spec fn names_idle(name: Seq<char>) -> bool {
    has_word(name, "IDLE"@) || has_word(name, "OFF"@) || has_word(name, "DOWN"@)
}

/// How long the GPU was in one state.
pub struct Residency {
    pub name: String,
    pub time: i64,
}

/// The time in all states, or in the idle ones.
pub open spec fn residency_sum(states: Seq<Residency>, idle_only: bool, k: int) -> int
    decreases k,
{
    if k <= 0 {
        0
    } else {
        residency_sum(states, idle_only, k - 1) + (if idle_only && !names_idle(
            states[k - 1].name@,
        ) {
            0
        } else {
            states[k - 1].time as int
        })
    }
}

/// The channel that tells how busy the GPU is.
pub open spec fn is_busy_channel(group: Seq<char>, channel: Seq<char>, states: nat) -> bool {
    group == "GPU Stats"@ && channel == "GPUPH"@ && states > 0
}

/// Adds up the idle time and all the time of a channel; other channels add nothing.
pub fn channel_residency(group: &str, channel: &str, states: &Vec<Residency>) -> (sums: (
    i128,
    i128,
))
    ensures
        is_busy_channel(group@, channel@, states@.len()) ==> {
            &&& sums.0 == residency_sum(states@, true, states@.len() as int)
            &&& sums.1 == residency_sum(states@, false, states@.len() as int)
        },
        !is_busy_channel(group@, channel@, states@.len()) ==> sums == (0i128, 0i128),
{
    if !same_text(group, "GPU Stats") || !same_text(channel, "GPUPH") || states.len() == 0 {
        return (0, 0);
    }
    let mut idle: i128 = 0;
    let mut total: i128 = 0;
    let mut at: usize = 0;
    while at < states.len()
        invariant
            at <= states@.len(),
            idle == residency_sum(states@, true, at as int),
            total == residency_sum(states@, false, at as int),
            -0x8000_0000_0000_0000 * at <= idle <= 0x7fff_ffff_ffff_ffff * at,
            -0x8000_0000_0000_0000 * at <= total <= 0x7fff_ffff_ffff_ffff * at,
        decreases states@.len() - at,
    {
        let time: i128 = states[at].time as i128;
        total = total + time;
        let name: Vec<char> = char_list(states[at].name.as_str());
        if contains_word(&name, "IDLE") || contains_word(&name, "OFF") || contains_word(
            &name,
            "DOWN",
        ) {
            idle = idle + time;
        }
        at = at + 1;
    }
    (idle, total)
}

/// The busy time and all the time, if there was any.
pub fn busy_share(idle: i128, total: i128) -> (share: Option<(i128, i128)>)
    requires
        total - idle <= i128::MAX,
    ensures
        share == (if total <= 0 {
            None::<(i128, i128)>
        } else if idle < total {
            Some(((total - idle) as i128, total))
        } else {
            Some((0i128, total))
        }),
{
    if total <= 0 {
        None
    } else if idle < total {
        Some((total - idle, total))
    } else {
        Some((0, total))
    }
}

} // verus!
