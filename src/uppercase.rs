//! A sample controller: every fourth byte of the output is an upper-case letter.
use vstd::prelude::*;

use crate::abi::{
    holds_token, AiciVm, InitPromptArg, InitPromptResult, MidProcessArg, MidProcessResult,
    PostProcessArg, PostProcessResult, PreProcessArg, PreProcessResult,
};
use crate::recognizer::{accepts, run, walk_bytes, Recognizer, SpecialToken};
use crate::toktrie::TokTrie;
use crate::TokenId;

verus! {

/// The longest output, in tokens, after which the controller stops.
pub const MAX_TOKENS: usize = 50;

/// Whether `b` is an ASCII upper-case letter (`A` is 65, `Z` is 90).
pub open spec fn is_upper(b: u8) -> bool {
    65u8 <= b <= 90u8
}

/// The state is the number of bytes emitted so far; a byte at a position
/// divisible by four must be an upper-case letter.
pub struct QuadUpper {}

impl Recognizer for QuadUpper {
    open spec fn inv(&self) -> bool {
        true
    }

    open spec fn valid(&self, s: usize) -> bool {
        true
    }

    open spec fn allows(&self, s: usize, b: u8) -> bool {
        s % 4 != 0 || is_upper(b)
    }

    /// Counts modulo the word size, which keeps the count modulo four.
    open spec fn next(&self, s: usize, b: u8) -> usize {
        if s == usize::MAX {
            0
        } else {
            (s + 1) as usize
        }
    }

    open spec fn allows_special(&self, s: usize, t: SpecialToken) -> bool {
        false
    }

    proof fn lemma_next_valid(&self, s: usize, b: u8) {
    }

    fn byte_allowed(&self, s: usize, b: u8) -> (r: bool) {
        if s % 4 == 0 {
            65u8 <= b && b <= 90u8
        } else {
            true
        }
    }

    fn append(&self, s: usize, b: u8) -> (r: usize) {
        if s == usize::MAX {
            0
        } else {
            s + 1
        }
    }

    fn special_allowed(&self, s: usize, t: SpecialToken) -> (r: bool) {
        false
    }
}

/// The controller: forces its prompt first, then lets the model write under
/// [`QuadUpper`] until end of sentence or [`MAX_TOKENS`] tokens.
pub struct Runner {
    toktrie: TokTrie,
    tokens: Vec<TokenId>,
    state: usize,
    prompt: Vec<TokenId>,
    prompt_pending: bool,
    stopped: bool,
}

impl Runner {
    pub closed spec fn wf(&self) -> bool {
        &&& self.toktrie.wf()
        &&& self.toktrie.all_valid(self.prompt@)
    }

    pub closed spec fn trie_spec(&self) -> TokTrie {
        self.toktrie
    }

    /// The tokens received so far.
    pub closed spec fn tokens_spec(&self) -> Seq<TokenId> {
        self.tokens@
    }

    /// The recognizer state: bytes emitted under the constraint.
    pub closed spec fn state_spec(&self) -> usize {
        self.state
    }

    pub closed spec fn prompt_spec(&self) -> Seq<TokenId> {
        self.prompt@
    }

    /// The prompt has yet to be forced.
    pub closed spec fn prompt_pending_spec(&self) -> bool {
        self.prompt_pending
    }

    pub closed spec fn stopped_spec(&self) -> bool {
        self.stopped
    }

    /// A controller that will force `prompt` and then constrain the output.
    pub fn new(toktrie: TokTrie, prompt: Vec<TokenId>) -> (r: Runner)
        requires
            toktrie.wf(),
            toktrie.all_valid(prompt@),
        ensures
            r.wf(),
            r.trie_spec() == toktrie,
            r.prompt_spec() == prompt@,
            r.prompt_pending_spec() == (prompt@.len() > 0),
            r.tokens_spec().len() == 0,
            r.state_spec() == 0,
            !r.stopped_spec(),
    {
        let pending = prompt.len() > 0;
        Runner { toktrie, tokens: Vec::new(), state: 0, prompt, prompt_pending: pending, stopped: false }
    }

    /// Whether the controller has stopped.
    pub fn is_stopped(&self) -> (r: bool)
        ensures
            r == self.stopped_spec(),
    {
        self.stopped
    }

    /// The tokens received so far.
    pub fn tokens(&self) -> (r: &[TokenId])
        ensures
            r@ == self.tokens_spec(),
    {
        self.tokens.as_slice()
    }

    /// Takes the prompt; nothing changes.
    pub fn init_prompt(&mut self, arg: InitPromptArg) -> (r: InitPromptResult)
        ensures
            *final(self) == *old(self),
    {
        InitPromptResult::new()
    }

    /// Continues with one mask that attends to everything; nothing changes.
    pub fn pre_process(&mut self, arg: PreProcessArg) -> (r: PreProcessResult)
        ensures
            *final(self) == *old(self),
            r.attention_masks@.len() == 1,
            r.attention_masks@[0]@.len() == 0,
            !r.suspend,
    {
        PreProcessResult::continue_()
    }

    /// Stops once stopped or past [`MAX_TOKENS`] tokens, and from then on
    /// stays stopped; forces the prompt while it is pending; otherwise returns
    /// the tokens [`QuadUpper`] admits in the current state.
    pub fn mid_process(&mut self, arg: MidProcessArg) -> (r: MidProcessResult)
        requires
            old(self).wf(),
        ensures
            final(self).wf(),
            final(self).trie_spec() == old(self).trie_spec(),
            final(self).tokens_spec() == old(self).tokens_spec(),
            final(self).state_spec() == old(self).state_spec(),
            final(self).prompt_spec() == old(self).prompt_spec(),
            final(self).prompt_pending_spec() == old(self).prompt_pending_spec(),
            (r is Stop) == (old(self).stopped_spec() || old(self).tokens_spec().len() > MAX_TOKENS),
            final(self).stopped_spec() == r is Stop,
            !(r is Stop) && old(self).prompt_pending_spec() ==> r is Splice
                && r->Splice_backtrack == 0 && r->Splice_ff_tokens@ == old(self).prompt_spec(),
            !(r is Stop) && !old(self).prompt_pending_spec() ==> r is SampleWithBias && ({
                let set = r->SampleWithBias_allowed_tokens;
                let trie = old(self).trie_spec();
                &&& set.wf()
                &&& set@ == Seq::new(
                    trie.vocab_len(),
                    |t: int| trie.allowed_at(&QuadUpper {  }, old(self).state_spec(), Seq::empty(), t),
                )
            }),
    {
        if self.stopped || self.tokens.len() > MAX_TOKENS {
            self.stopped = true;
            return MidProcessResult::Stop;
        }
        if self.prompt_pending {
            let mut ff: Vec<TokenId> = Vec::new();
            let mut i: usize = 0;
            while i < self.prompt.len()
                invariant
                    i <= self.prompt@.len(),
                    ff@ == self.prompt@.subrange(0, i as int),
                decreases self.prompt@.len() - i,
            {
                ff.push(self.prompt[i]);
                i = i + 1;
                assert(ff@ =~= self.prompt@.subrange(0, i as int));
            }
            assert(self.prompt@.subrange(0, self.prompt@.len() as int) =~= self.prompt@);
            return MidProcessResult::Splice { backtrack: 0, ff_tokens: ff };
        }
        let mut set = self.toktrie.alloc_token_set();
        self.toktrie.compute_bias(&QuadUpper {  }, self.state, &mut set);
        MidProcessResult::SampleWithBias { allowed_tokens: set }
    }

    /// Records the added tokens and advances the recognizer state over all of
    /// their bytes. A generated token that [`QuadUpper`] refuses stops the
    /// controller (the prompt's tokens are not held to it), as does end of
    /// sentence. Once stopped, nothing changes.
    pub fn post_process(&mut self, arg: PostProcessArg) -> (r: PostProcessResult)
        requires
            old(self).wf(),
        ensures
            final(self).wf(),
            old(self).stopped_spec() ==> *final(self) == *old(self) && r.stop,
            !old(self).stopped_spec() && !old(self).trie_spec().all_valid(arg.tokens@) ==> r.stop
                && final(self).stopped_spec() && final(self).tokens_spec() == old(self).tokens_spec()
                && final(self).state_spec() == old(self).state_spec(),
            !old(self).stopped_spec() && old(self).trie_spec().all_valid(arg.tokens@) ==> {
                let trie = old(self).trie_spec();
                let bytes = trie.decode_spec(arg.tokens@);
                let refused = !old(self).prompt_pending_spec() && !accepts(
                    &QuadUpper {  },
                    old(self).state_spec(),
                    bytes,
                );
                &&& final(self).tokens_spec() == old(self).tokens_spec() + arg.tokens@
                &&& !final(self).prompt_pending_spec()
                &&& r.stop == (holds_token(arg.tokens@, trie.eos()) || refused)
                &&& final(self).stopped_spec() == r.stop
                &&& final(self).state_spec() == run(&QuadUpper {  }, old(self).state_spec(), bytes)
            },
            final(self).trie_spec() == old(self).trie_spec(),
            final(self).prompt_spec() == old(self).prompt_spec(),
    {
        if self.stopped {
            return PostProcessResult { stop: true };
        }
        if !self.toktrie.tokens_valid(arg.tokens.as_slice()) {
            self.stopped = true;
            return PostProcessResult { stop: true };
        }
        let mut i: usize = 0;
        let ghost before = self.tokens@;
        while i < arg.tokens.len()
            invariant
                self.wf(),
                self.toktrie == old(self).toktrie,
                self.prompt == old(self).prompt,
                self.state == old(self).state,
                self.prompt_pending == old(self).prompt_pending,
                self.stopped == old(self).stopped,
                self.toktrie.all_valid(arg.tokens@),
                i <= arg.tokens@.len(),
                self.tokens@ == before + arg.tokens@.subrange(0, i as int),
            decreases arg.tokens@.len() - i,
        {
            self.tokens.push(arg.tokens[i]);
            i = i + 1;
            assert(self.tokens@ =~= before + arg.tokens@.subrange(0, i as int));
        }
        assert(arg.tokens@.subrange(0, arg.tokens@.len() as int) =~= arg.tokens@);
        let bytes = self.toktrie.decode(arg.tokens.as_slice());
        let refused = !self.prompt_pending && walk_bytes(&QuadUpper {  }, self.state, bytes.as_slice()).is_none();
        self.state = advance(self.state, bytes.as_slice());
        self.prompt_pending = false;
        let res = PostProcessResult::from_arg(&arg, self.toktrie.eos_token());
        let stop = res.stop || refused;
        self.stopped = stop;
        PostProcessResult { stop }
    }
}

/// The [`QuadUpper`] state after the bytes `b`, admissible or not.
fn advance(s: usize, b: &[u8]) -> (r: usize)
    ensures
        r == run(&QuadUpper {  }, s, b@),
{
    let mut cur = s;
    let mut i: usize = 0;
    while i < b.len()
        invariant
            i <= b@.len(),
            cur == run(&QuadUpper {  }, s, b@.subrange(0, i as int)),
        decreases b@.len() - i,
    {
        assert(b@.subrange(0, i + 1).drop_last() =~= b@.subrange(0, i as int));
        cur = if cur == usize::MAX {
            0
        } else {
            cur + 1
        };
        i = i + 1;
    }
    assert(b@.subrange(0, b@.len() as int) =~= b@);
    cur
}

impl AiciVm for Runner {
    open spec fn inv(&self) -> bool {
        self.wf()
    }

    fn init_prompt(&mut self, arg: InitPromptArg) -> InitPromptResult {
        Runner::init_prompt(self, arg)
    }

    fn pre_process(&mut self, arg: PreProcessArg) -> PreProcessResult {
        Runner::pre_process(self, arg)
    }

    fn mid_process(&mut self, arg: MidProcessArg) -> MidProcessResult {
        Runner::mid_process(self, arg)
    }

    fn post_process(&mut self, arg: PostProcessArg) -> PostProcessResult {
        Runner::post_process(self, arg)
    }
}

} // verus!
