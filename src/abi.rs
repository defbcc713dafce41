//! The messages exchanged between a host inference loop and a controller.
use vstd::prelude::*;

use crate::tokset::TokenSet;
use crate::TokenId;

verus! {

/// The prompt, handed over once before generation.
pub struct InitPromptArg {
    pub prompt: Vec<TokenId>,
}

/// The answer to the prompt; carries nothing.
pub struct InitPromptResult {}

impl InitPromptResult {
    pub fn new() -> (r: InitPromptResult) {
        InitPromptResult {  }
    }
}

/// Stable identifier of a generated sequence.
#[derive(Clone, Copy, Debug, PartialEq, Eq, Structural)]
pub struct SeqId(pub u32);

/// Argument of the step before the model runs; carries nothing.
pub struct PreProcessArg {}

/// What the controller asks before the model runs.
pub struct PreProcessResult {
    /// None: stop the sequence. One: continue with that mask. More than one:
    /// fork into that many sequences. An empty mask attends to every position;
    /// otherwise entry `i` says whether position `i` is attended to.
    pub attention_masks: Vec<Vec<bool>>,
    /// The host must not sample this step and asks again later.
    pub suspend: bool,
}

impl PreProcessResult {
    /// Goes on with the given masks.
    pub fn new(attention_masks: Vec<Vec<bool>>) -> (r: PreProcessResult)
        ensures
            r.attention_masks@ == attention_masks@,
            !r.suspend,
    {
        PreProcessResult { attention_masks, suspend: false }
    }

    /// Continues with one mask that attends to everything.
    pub fn continue_() -> (r: PreProcessResult)
        ensures
            r.attention_masks@.len() == 1,
            r.attention_masks@[0]@.len() == 0,
            !r.suspend,
    {
        let mut m: Vec<Vec<bool>> = Vec::new();
        m.push(Vec::new());
        PreProcessResult::new(m)
    }

    /// Asks the host to skip this step and come back.
    pub fn suspend() -> (r: PreProcessResult)
        ensures
            r.attention_masks@.len() == 1,
            r.attention_masks@[0]@.len() == 0,
            r.suspend,
    {
        let mut m: Vec<Vec<bool>> = Vec::new();
        m.push(Vec::new());
        PreProcessResult { attention_masks: m, suspend: true }
    }

    /// Stops the sequence.
    pub fn stop() -> (r: PreProcessResult)
        ensures
            r.attention_masks@.len() == 0,
            !r.suspend,
    {
        PreProcessResult::new(Vec::new())
    }

    /// Forks into `n` sequences, each attending to everything.
    pub fn fork(n: usize) -> (r: PreProcessResult)
        ensures
            r.attention_masks@.len() == n,
            forall|i: int| 0 <= i < n ==> (#[trigger] r.attention_masks@[i])@.len() == 0,
            !r.suspend,
    {
        let mut m: Vec<Vec<bool>> = Vec::new();
        let mut i: usize = 0;
        while i < n
            invariant
                i <= n,
                m@.len() == i,
                forall|j: int| 0 <= j < i ==> (#[trigger] m@[j])@.len() == 0,
            decreases n - i,
        {
            m.push(Vec::new());
            i = i + 1;
        }
        PreProcessResult::new(m)
    }
}

/// Argument of the main step: the tokens the host dropped and added since the
/// previous step, and the sequences of this fork cohort.
pub struct MidProcessArg {
    /// Tokens dropped from the end before `tokens` were added.
    pub backtrack: u32,
    /// Tokens added since the previous step.
    pub tokens: Vec<TokenId>,
    /// Sibling sequences created by the last fork, in order.
    pub fork_group: Vec<SeqId>,
}

impl MidProcessArg {
    /// Applies this step's changes to a token log: drops `backtrack` tokens,
    /// then appends `tokens`. Nothing changes, and `false` comes back, when
    /// the log is shorter than `backtrack`.
    pub fn save_tokens(&self, log: &mut Vec<TokenId>) -> (ok: bool)
        ensures
            ok == (self.backtrack <= old(log)@.len()),
            ok ==> final(log)@ == old(log)@.subrange(0, old(log)@.len() - self.backtrack)
                + self.tokens@,
            !ok ==> final(log)@ == old(log)@,
    {
        let b = self.backtrack as usize;
        if b > log.len() {
            return false;
        }
        let keep = log.len() - b;
        log.truncate(keep);
        let ghost kept = log@;
        let mut i: usize = 0;
        while i < self.tokens.len()
            invariant
                i <= self.tokens@.len(),
                log@ == kept + self.tokens@.subrange(0, i as int),
            decreases self.tokens@.len() - i,
        {
            log.push(self.tokens[i]);
            i = i + 1;
            assert(log@ =~= kept + self.tokens@.subrange(0, i as int));
        }
        assert(self.tokens@.subrange(0, self.tokens@.len() as int) =~= self.tokens@);
        true
    }
}

/// The answer of the main step.
pub enum MidProcessResult {
    /// Stop the sequence.
    Stop,
    /// Sample the next token among `allowed_tokens`.
    SampleWithBias { allowed_tokens: TokenSet },
    /// Drop `backtrack` tokens, then add `ff_tokens` without sampling.
    Splice { backtrack: u32, ff_tokens: Vec<TokenId> },
}

impl MidProcessResult {
    pub fn stop() -> (r: MidProcessResult)
        ensures
            r is Stop,
    {
        MidProcessResult::Stop
    }

    pub fn sample(set: TokenSet) -> (r: MidProcessResult)
        ensures
            r == (MidProcessResult::SampleWithBias { allowed_tokens: set }),
    {
        MidProcessResult::SampleWithBias { allowed_tokens: set }
    }

    pub fn splice(backtrack: u32, ff_tokens: Vec<TokenId>) -> (r: MidProcessResult)
        ensures
            r == (MidProcessResult::Splice { backtrack, ff_tokens }),
    {
        MidProcessResult::Splice { backtrack, ff_tokens }
    }

    /// Whether this answer stops the sequence.
    pub fn is_stop(&self) -> (r: bool)
        ensures
            r == self is Stop,
    {
        match self {
            MidProcessResult::Stop => true,
            _ => false,
        }
    }
}

/// The tokens added after sampling or fast-forwarding.
pub struct PostProcessArg {
    pub tokens: Vec<TokenId>,
}

/// The answer after tokens were added.
pub struct PostProcessResult {
    /// The sequence is to stop.
    pub stop: bool,
}

/// Whether `toks` holds `t`.
pub open spec fn holds_token(toks: Seq<TokenId>, t: TokenId) -> bool {
    exists|i: int| 0 <= i < toks.len() && toks[i] == t
}

/// Whether `toks` holds `t`.
pub fn contains_token(toks: &[TokenId], t: TokenId) -> (r: bool)
    ensures
        r == holds_token(toks@, t),
{
    let mut i: usize = 0;
    while i < toks.len()
        invariant
            i <= toks@.len(),
            forall|j: int| 0 <= j < i ==> toks@[j] != t,
        decreases toks@.len() - i,
    {
        if toks[i] == t {
            return true;
        }
        i = i + 1;
    }
    false
}

impl PostProcessResult {
    /// Stops when the added tokens hold the end-of-sentence token `eos`.
    pub fn from_arg(arg: &PostProcessArg, eos: TokenId) -> (r: PostProcessResult)
        ensures
            r.stop == holds_token(arg.tokens@, eos),
    {
        PostProcessResult { stop: contains_token(arg.tokens.as_slice(), eos) }
    }
}

/// A controller: the four calls a host makes for each sequence, in the order
/// init_prompt, then (pre_process, mid_process, post_process) repeatedly.
pub trait AiciVm {
    /// The controller's own state invariant, kept by every call.
    spec fn inv(&self) -> bool;

    fn init_prompt(&mut self, arg: InitPromptArg) -> (r: InitPromptResult)
        requires
            old(self).inv(),
        ensures
            final(self).inv(),
    ;

    fn pre_process(&mut self, arg: PreProcessArg) -> (r: PreProcessResult)
        requires
            old(self).inv(),
        ensures
            final(self).inv(),
    ;

    fn mid_process(&mut self, arg: MidProcessArg) -> (r: MidProcessResult)
        requires
            old(self).inv(),
        ensures
            final(self).inv(),
    ;

    fn post_process(&mut self, arg: PostProcessArg) -> (r: PostProcessResult)
        requires
            old(self).inv(),
        ensures
            final(self).inv(),
    ;
}

} // verus!
