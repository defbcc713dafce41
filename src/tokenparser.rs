//! The per-step controller core: keeps the parser in step with the tokens in
//! the model's cache, splices in what the grammar forces, and computes the
//! bias over what is left.
use vstd::prelude::*;

use crate::abi::{contains_token, holds_token, MidProcessArg, MidProcessResult};
use crate::parser::{grammar_error, Grammar, GrammarError, Parser, Rejection};
use crate::recognizer::{accepts, run};
use crate::toktrie::TokTrie;
use crate::tokset::count_true;
use crate::TokenId;

verus! {

/// The tokenizer of the model, as the controller uses it.
pub trait TokenizerEnv {
    /// The tokens the model's tokenizer gives for `s`.
    fn tokenize_bytes(&self, s: &[u8]) -> Vec<TokenId>;
}

/// Decoding distributes over concatenation.
pub proof fn lemma_decode_append(trie: &TokTrie, a: Seq<TokenId>, b: Seq<TokenId>)
    ensures
        trie.decode_spec(a + b) == trie.decode_spec(a) + trie.decode_spec(b),
    decreases b.len(),
{
    if b.len() == 0 {
        assert(a + b =~= a);
        assert(trie.decode_spec(a) + trie.decode_spec(b) =~= trie.decode_spec(a));
    } else {
        lemma_decode_append(trie, a, b.drop_last());
        assert((a + b).drop_last() =~= a + b.drop_last());
        assert((a + b).last() == b.last());
        assert(trie.decode_spec(a) + trie.decode_spec(b.drop_last()) + trie.bytes_of(
            b.last() as int,
        ) =~= trie.decode_spec(a) + (trie.decode_spec(b.drop_last()) + trie.bytes_of(
            b.last() as int,
        )));
    }
}

/// The bytes of the last `k` tokens of `g`.
pub open spec fn suffix_bytes(trie: &TokTrie, g: Seq<TokenId>, k: int) -> Seq<u8> {
    trie.decode_spec(g.subrange(g.len() - k, g.len() as int))
}

/// Dropping the last `k` tokens of `g` is safe to consider: their bytes fit in
/// one token, and some token could cover them and go on as the grammar allows.
pub open spec fn chop_ok(trie: &TokTrie, gr: &Grammar, s: usize, g: Seq<TokenId>, k: int) -> bool {
    &&& 1 <= k <= g.len()
    &&& suffix_bytes(trie, g, k).len() <= trie.max_len()
    &&& trie.has_extension(gr, s, suffix_bytes(trie, g, k))
}

/// The greatest `k <= n` that [`chop_ok`] admits, or 0.
pub open spec fn chop_upto(trie: &TokTrie, gr: &Grammar, s: usize, g: Seq<TokenId>, n: int) -> nat
    decreases n,
{
    if n <= 0 {
        0
    } else if chop_ok(trie, gr, s, g, n) {
        n as nat
    } else {
        chop_upto(trie, gr, s, g, n - 1)
    }
}

/// How many trailing tokens of the grammar's tokenization are held back,
/// because the model could still merge them with bytes to come.
pub open spec fn chop_count(trie: &TokTrie, gr: &Grammar, s: usize, g: Seq<TokenId>) -> nat {
    chop_upto(trie, gr, s, g, g.len() as int)
}

/// Length of the longest common prefix of two token sequences.
pub open spec fn common_prefix_len(a: Seq<TokenId>, b: Seq<TokenId>) -> nat
    decreases a.len(),
{
    if a.len() == 0 || b.len() == 0 || a[0] != b[0] {
        0
    } else {
        1 + common_prefix_len(a.drop_first(), b.drop_first())
    }
}

proof fn lemma_common_prefix(a: Seq<TokenId>, b: Seq<TokenId>, i: int)
    requires
        0 <= i <= a.len(),
        i <= b.len(),
        forall|j: int| 0 <= j < i ==> a[j] == b[j],
        i == a.len() || i == b.len() || a[i] != b[i],
    ensures
        common_prefix_len(a, b) == i,
    decreases i,
{
    if i > 0 {
        assert(a[0] == b[0]);
        assert forall|j: int| 0 <= j < i - 1 implies a.drop_first()[j] == b.drop_first()[j] by {
            assert(a[j + 1] == b[j + 1]);
        }
        lemma_common_prefix(a.drop_first(), b.drop_first(), i - 1);
    }
}

proof fn lemma_suffix_step(trie: &TokTrie, g: Seq<TokenId>, k: int)
    requires
        0 <= k < g.len(),
    ensures
        suffix_bytes(trie, g, k + 1) == trie.bytes_of(g[g.len() - k - 1] as int) + suffix_bytes(
            trie,
            g,
            k,
        ),
{
    let t = g[g.len() - k - 1];
    let rest = g.subrange(g.len() - k, g.len() as int);
    assert(g.subrange(g.len() - k - 1, g.len() as int) =~= seq![t] + rest);
    lemma_decode_append(trie, seq![t], rest);
    assert(seq![t].drop_last() =~= Seq::<TokenId>::empty());
    assert(seq![t].last() == t);
    assert(trie.decode_spec(Seq::<TokenId>::empty()) == Seq::<u8>::empty());
    assert(trie.decode_spec(seq![t]) == trie.decode_spec(seq![t].drop_last()) + trie.bytes_of(t as int));
    assert(trie.decode_spec(seq![t]) =~= trie.bytes_of(t as int));
}

proof fn lemma_suffix_grows(trie: &TokTrie, g: Seq<TokenId>, a: int, b: int)
    requires
        0 <= a <= b <= g.len(),
    ensures
        suffix_bytes(trie, g, a).len() <= suffix_bytes(trie, g, b).len(),
    decreases b - a,
{
    if a < b {
        lemma_suffix_grows(trie, g, a, b - 1);
        lemma_suffix_step(trie, g, b - 1);
    }
}

proof fn lemma_chop_skip(trie: &TokTrie, gr: &Grammar, s: usize, g: Seq<TokenId>, a: int, n: int)
    requires
        0 <= a <= n,
        forall|k: int| a < k <= n ==> !chop_ok(trie, gr, s, g, k),
    ensures
        chop_upto(trie, gr, s, g, n) == chop_upto(trie, gr, s, g, a),
    decreases n - a,
{
    if a < n {
        lemma_chop_skip(trie, gr, s, g, a, n - 1);
    }
}

/// What one step answers, given the parser's bytes `full` (the bytes of the
/// cached tokens `llm`, then the bytes the grammar forced), the grammar state
/// `s` after them, and the tokenizer's tokens `grm` for `full`. A bias that
/// admits nothing means the grammar is dead, and the step stops instead.
pub open spec fn step_outcome(
    r: MidProcessResult,
    trie: &TokTrie,
    gr: &Grammar,
    s: usize,
    full: Seq<u8>,
    llm: Seq<TokenId>,
    grm: Seq<TokenId>,
) -> bool {
    if !trie.all_valid(grm) || trie.decode_spec(grm) != full {
        r is Stop
    } else {
        let fixed = grm.subrange(0, grm.len() - chop_count(trie, gr, s, grm));
        let i = common_prefix_len(llm, fixed);
        if i < fixed.len() {
            if llm.len() - i > u32::MAX {
                r is Stop
            } else {
                match r {
                    MidProcessResult::Splice { backtrack, ff_tokens } => {
                        &&& backtrack == llm.len() - i
                        &&& ff_tokens@ == fixed.subrange(i as int, fixed.len() as int)
                    },
                    _ => false,
                }
            }
        } else {
            let allowed = Seq::new(
                trie.vocab_len(),
                |t: int|
                    trie.allowed_at(
                        gr,
                        s,
                        full.subrange(trie.decode_spec(llm).len() as int, full.len() as int),
                        t,
                    ),
            );
            if count_true(allowed) == 0 {
                r is Stop
            } else {
                match r {
                    MidProcessResult::SampleWithBias { allowed_tokens } => {
                        &&& allowed_tokens.wf()
                        &&& allowed_tokens@ == allowed
                    },
                    _ => false,
                }
            }
        }
    }
}

/// The step is a function of its inputs: two answers for the same parser
/// bytes, grammar state, cached tokens and tokenization are the same answer.
pub proof fn lemma_step_deterministic(
    r1: MidProcessResult,
    r2: MidProcessResult,
    trie: &TokTrie,
    gr: &Grammar,
    s: usize,
    full: Seq<u8>,
    llm: Seq<TokenId>,
    grm: Seq<TokenId>,
)
    requires
        step_outcome(r1, trie, gr, s, full, llm, grm),
        step_outcome(r2, trie, gr, s, full, llm, grm),
    ensures
        r1 is Stop <==> r2 is Stop,
        r1 is Splice <==> r2 is Splice,
        r1 is Splice ==> r1->Splice_backtrack == r2->Splice_backtrack && r1->Splice_ff_tokens@
            == r2->Splice_ff_tokens@,
        r1 is SampleWithBias ==> r1->SampleWithBias_allowed_tokens@
            == r2->SampleWithBias_allowed_tokens@,
{
}

/// Only a tokenization that decodes back to the parser's bytes is acted on:
/// whenever the step does not stop, the tokenizer's tokens name vocabulary
/// entries and their bytes are exactly the parser's bytes.
pub proof fn lemma_tokenization_consistent(
    r: MidProcessResult,
    trie: &TokTrie,
    gr: &Grammar,
    s: usize,
    full: Seq<u8>,
    llm: Seq<TokenId>,
    grm: Seq<TokenId>,
)
    requires
        step_outcome(r, trie, gr, s, full, llm, grm),
        !(r is Stop),
    ensures
        trie.all_valid(grm),
        trie.decode_spec(grm) == full,
{
}

/// A splice drops exactly the cached tokens after the longest common prefix
/// of the cache and the grammar's held tokens, and adds the held tokens after
/// that prefix; so it never drops more than the cache holds, and never is
/// empty.
pub proof fn lemma_splice_minimal(
    r: MidProcessResult,
    trie: &TokTrie,
    gr: &Grammar,
    s: usize,
    full: Seq<u8>,
    llm: Seq<TokenId>,
    grm: Seq<TokenId>,
)
    requires
        step_outcome(r, trie, gr, s, full, llm, grm),
        r is Splice,
    ensures
        ({
            let fixed = grm.subrange(0, grm.len() - chop_count(trie, gr, s, grm));
            let i = common_prefix_len(llm, fixed);
            &&& r->Splice_backtrack == llm.len() - i
            &&& r->Splice_backtrack <= llm.len()
            &&& r->Splice_ff_tokens@ == fixed.subrange(i as int, fixed.len() as int)
            &&& r->Splice_ff_tokens@.len() > 0
        }),
{
}

/// Where no splice is needed the held tokens are a prefix of the cached ones;
/// then the bytes of the cached tokens past them are a prefix of the bytes of
/// the held-back tokens, and what remains of the latter is what the bias
/// starts from.
pub proof fn lemma_suffix_prefix(trie: &TokTrie, full: Seq<u8>, llm: Seq<TokenId>, grm: Seq<TokenId>, keep: int)
    requires
        0 <= keep <= grm.len(),
        keep <= llm.len(),
        trie.decode_spec(grm) == full,
        grm.subrange(0, keep) == llm.subrange(0, keep),
        trie.decode_spec(llm).len() <= full.len(),
        full.subrange(0, trie.decode_spec(llm).len() as int) == trie.decode_spec(llm),
    ensures
        ({
            let llm_suffix = trie.decode_spec(llm.subrange(keep, llm.len() as int));
            let grm_suffix = trie.decode_spec(grm.subrange(keep, grm.len() as int));
            &&& llm_suffix.len() <= grm_suffix.len()
            &&& grm_suffix.subrange(0, llm_suffix.len() as int) == llm_suffix
            &&& grm_suffix.subrange(llm_suffix.len() as int, grm_suffix.len() as int)
                == full.subrange(trie.decode_spec(llm).len() as int, full.len() as int)
        }),
{
    let fixed = grm.subrange(0, keep);
    let llm_suffix = trie.decode_spec(llm.subrange(keep, llm.len() as int));
    let grm_suffix = trie.decode_spec(grm.subrange(keep, grm.len() as int));
    assert(grm =~= fixed + grm.subrange(keep, grm.len() as int));
    assert(llm =~= fixed + llm.subrange(keep, llm.len() as int));
    lemma_decode_append(trie, fixed, grm.subrange(keep, grm.len() as int));
    lemma_decode_append(trie, fixed, llm.subrange(keep, llm.len() as int));
    let p = trie.decode_spec(fixed);
    let dl = trie.decode_spec(llm);
    assert(full == p + grm_suffix);
    assert(dl == p + llm_suffix);
    assert(grm_suffix =~= full.subrange(p.len() as int, full.len() as int));
    assert(llm_suffix =~= dl.subrange(p.len() as int, dl.len() as int));
    assert(grm_suffix.subrange(0, llm_suffix.len() as int) =~= llm_suffix);
    assert(grm_suffix.subrange(llm_suffix.len() as int, grm_suffix.len() as int) =~= full.subrange(
        dl.len() as int,
        full.len() as int,
    ));
}

fn same_bytes(a: &[u8], b: &[u8]) -> (r: bool)
    ensures
        r == (a@ == b@),
{
    if a.len() != b.len() {
        return false;
    }
    let mut i: usize = 0;
    while i < a.len()
        invariant
            a@.len() == b@.len(),
            i <= a@.len(),
            forall|j: int| 0 <= j < i ==> a@[j] == b@[j],
        decreases a@.len() - i,
    {
        if a[i] != b[i] {
            return false;
        }
        i = i + 1;
    }
    assert(a@ =~= b@);
    true
}

fn copy_range<T: Copy>(v: &[T], lo: usize, hi: usize) -> (r: Vec<T>)
    requires
        lo <= hi <= v@.len(),
    ensures
        r@ == v@.subrange(lo as int, hi as int),
{
    let mut r: Vec<T> = Vec::new();
    let mut i: usize = lo;
    while i < hi
        invariant
            lo <= i <= hi,
            hi <= v@.len(),
            r@ == v@.subrange(lo as int, i as int),
        decreases hi - i,
    {
        r.push(v[i]);
        i = i + 1;
        assert(r@ =~= v@.subrange(lo as int, i as int));
    }
    r
}

fn prepend_bytes(a: &[u8], b: &[u8]) -> (r: Vec<u8>)
    ensures
        r@ == a@ + b@,
{
    let mut r = copy_range(a, 0, a.len());
    let mut i: usize = 0;
    assert(a@.subrange(0, a@.len() as int) =~= a@);
    while i < b.len()
        invariant
            i <= b@.len(),
            r@ == a@ + b@.subrange(0, i as int),
        decreases b@.len() - i,
    {
        r.push(b[i]);
        i = i + 1;
        assert(r@ =~= a@ + b@.subrange(0, i as int));
    }
    assert(b@.subrange(0, b@.len() as int) =~= b@);
    r
}

/// Decides the step once the tokenizer has tokenized the parser's bytes:
/// `Stop` when `grm_tokens` is not a tokenization of them; otherwise holds
/// back the tokens that could still merge with bytes to come, splices where
/// the cache disagrees with the rest, and else computes the bias over the
/// bytes the grammar forced past the cache.
pub fn resolve_forced(
    trie: &TokTrie,
    parser: &Parser,
    llm_tokens: &[TokenId],
    grm_tokens: Vec<TokenId>,
) -> (r: MidProcessResult)
    requires
        trie.wf(),
        parser.wf(),
        trie.all_valid(llm_tokens@),
        trie.decode_spec(llm_tokens@).len() <= parser@.len(),
        parser@.subrange(0, trie.decode_spec(llm_tokens@).len() as int) == trie.decode_spec(
            llm_tokens@,
        ),
    ensures
        step_outcome(
            r,
            trie,
            &parser.grammar_spec(),
            parser.state_spec(),
            parser@,
            llm_tokens@,
            grm_tokens@,
        ),
{
    let full = parser.get_bytes();
    if !trie.tokens_valid(grm_tokens.as_slice()) {
        return MidProcessResult::stop();
    }
    let dec = trie.decode(grm_tokens.as_slice());
    if !same_bytes(dec.as_slice(), full.as_slice()) {
        return MidProcessResult::stop();
    }
    proof {
        parser.lemma_wf();
        trie.lemma_wf();
    }
    let gr = parser.grammar();
    let s = parser.state();
    let ghost g = grm_tokens@;
    let n = grm_tokens.len();
    let max = trie.max_token_len();
    let mut suff: Vec<u8> = Vec::new();
    let mut chop_tokens: usize = 0;
    let mut chop_bytes: usize = 0;
    let mut idx: usize = 0;
    let mut too_long = false;
    assert(g.subrange(g.len() - 0, g.len() as int) =~= Seq::<TokenId>::empty());
    while idx < n && !too_long
        invariant
            trie.wf(),
            gr.wf(),
            s < gr.n_states(),
            n == g.len(),
            g == grm_tokens@,
            trie.all_valid(g),
            max == trie.max_len(),
            idx <= n,
            suff@ == suffix_bytes(trie, g, idx as int),
            suff@.len() <= max,
            chop_tokens <= idx,
            chop_tokens == chop_upto(trie, gr, s, g, idx as int),
            chop_bytes == suffix_bytes(trie, g, chop_tokens as int).len(),
            too_long ==> forall|k: int| idx < k <= n ==> !chop_ok(trie, gr, s, g, k),
        decreases (n - idx) as int + if too_long {
            0int
        } else {
            1int
        },
    {
        let t = grm_tokens[n - 1 - idx];
        let b = trie.token(t);
        proof {
            lemma_suffix_step(trie, g, idx as int);
        }
        if b.len() > max - suff.len() {
            proof {
                assert forall|k: int| idx < k <= n implies !chop_ok(trie, gr, s, g, k) by {
                    lemma_suffix_grows(trie, g, idx + 1, k);
                }
            }
            too_long = true;
        } else {
            suff = prepend_bytes(b.as_slice(), suff.as_slice());
            if trie.has_valid_extensions(gr, s, suff.as_slice()) {
                chop_tokens = idx + 1;
                chop_bytes = suff.len();
            }
            idx = idx + 1;
        }
    }
    proof {
        lemma_chop_skip(trie, gr, s, g, idx as int, n as int);
    }
    let keep = n - chop_tokens;
    let ghost fixed = g.subrange(0, keep as int);
    let mut i: usize = 0;
    while i < keep && i < llm_tokens.len() && llm_tokens[i] == grm_tokens[i]
        invariant
            keep <= n,
            n == g.len(),
            g == grm_tokens@,
            fixed == g.subrange(0, keep as int),
            i <= keep,
            i <= llm_tokens@.len(),
            forall|j: int| 0 <= j < i ==> llm_tokens@[j] == fixed[j],
        decreases keep - i,
    {
        i = i + 1;
    }
    proof {
        lemma_common_prefix(llm_tokens@, fixed, i as int);
    }
    if i < keep {
        let backtrack = llm_tokens.len() - i;
        if backtrack > u32::MAX as usize {
            return MidProcessResult::stop();
        }
        let ff_tokens = copy_range(grm_tokens.as_slice(), i, keep);
        assert(ff_tokens@ =~= fixed.subrange(i as int, fixed.len() as int));
        return MidProcessResult::splice(backtrack as u32, ff_tokens);
    }
    assert(g.subrange(0, keep as int) =~= llm_tokens@.subrange(0, keep as int));
    assert(g.subrange(g.len() - chop_tokens, g.len() as int) =~= g.subrange(keep as int, g.len() as int));
    proof {
        lemma_suffix_prefix(trie, full@, llm_tokens@, g, keep as int);
    }
    let llm_rest = llm_tokens.split_at(keep).1;
    assert(llm_rest@ =~= llm_tokens@.subrange(keep as int, llm_tokens@.len() as int));
    let llm_suffix = trie.decode(llm_rest);
    assert(trie.decode_spec(fixed) + trie.decode_spec(g.subrange(keep as int, g.len() as int))
        == full@) by {
        assert(g =~= fixed + g.subrange(keep as int, g.len() as int));
        lemma_decode_append(trie, fixed, g.subrange(keep as int, g.len() as int));
    }
    let grm_start = full.len() - chop_bytes;
    let byte_suffix = copy_range(full.as_slice(), grm_start + llm_suffix.len(), full.len());
    proof {
        let d = trie.decode_spec(llm_tokens@);
        assert(d == trie.decode_spec(fixed) + llm_suffix@) by {
            assert(llm_tokens@ =~= fixed + llm_tokens@.subrange(keep as int, llm_tokens@.len() as int));
            lemma_decode_append(trie, fixed, llm_tokens@.subrange(keep as int, llm_tokens@.len() as int));
        }
        assert(byte_suffix@ =~= full@.subrange(d.len() as int, full@.len() as int));
    }
    let mut set = trie.alloc_token_set();
    trie.compute_bias_ext(gr, s, &mut set, byte_suffix.as_slice());
    if set.num_set() == 0 {
        return MidProcessResult::stop();
    }
    MidProcessResult::sample(set)
}

/// `extra` is what the grammar forced after `base`, one byte at a time, and
/// nothing more is forced unless the chain ran as long as the grammar has states.
pub open spec fn forced_after(gr: &Grammar, base: Seq<u8>, extra: Seq<u8>) -> bool {
    &&& forall|i: int|
        0 <= i < extra.len() ==> gr.forces(run(gr, 0, base + extra.subrange(0, i)), #[trigger] extra[i])
    &&& extra.len() < gr.n_states() ==> forall|b: u8| !gr.forces(run(gr, 0, base + extra), b)
}

/// A grammar-constrained controller core: the parser, the vocabulary, the
/// model's tokenizer, and the tokens currently in the model's cache.
#[derive(Clone)]
pub struct TokenParser<E: TokenizerEnv> {
    pub token_env: E,
    parser: Parser,
    trie: TokTrie,
    llm_tokens: Vec<TokenId>,
    rejection: Option<Rejection>,
}

impl<E: TokenizerEnv> TokenParser<E> {
    pub closed spec fn parser_spec(&self) -> Parser {
        self.parser
    }

    pub closed spec fn trie_spec(&self) -> TokTrie {
        self.trie
    }

    /// The tokenizer.
    pub closed spec fn env_spec(&self) -> E {
        self.token_env
    }

    /// Where the grammar refused the cache's bytes at the last step, if it did.
    pub closed spec fn rejection_spec(&self) -> Option<Rejection> {
        self.rejection
    }

    /// The tokens in the model's cache.
    pub closed spec fn llm(&self) -> Seq<TokenId> {
        self.llm_tokens@
    }

    pub closed spec fn wf(&self) -> bool {
        &&& self.trie.wf()
        &&& self.parser.wf()
        &&& self.trie.all_valid(self.llm_tokens@)
    }

    /// A controller at the start of `grammar`, with an empty cache.
    pub fn new(token_env: E, trie: TokTrie, grammar: Grammar) -> (r: TokenParser<E>)
        requires
            trie.wf(),
            grammar.wf(),
        ensures
            r.wf(),
            r.trie_spec() == trie,
            r.parser_spec().grammar_spec() == grammar,
            r.parser_spec()@.len() == 0,
            r.llm().len() == 0,
            r.rejection_spec().is_none(),
            r.env_spec() == token_env,
    {
        TokenParser {
            token_env,
            parser: Parser::new(grammar),
            trie,
            llm_tokens: Vec::new(),
            rejection: None,
        }
    }

    /// A controller for the serialized grammar `buf` (see
    /// [`Grammar::from_bytes`]), with an empty cache; the grammar's first
    /// fault when it is refused.
    pub fn from_guidance_protobuf(token_env: E, trie: TokTrie, buf: &[u8]) -> (r: Result<
        TokenParser<E>,
        GrammarError,
    >)
        requires
            trie.wf(),
        ensures
            r.is_err() <==> grammar_error(buf@).is_some(),
            r.is_err() ==> r->Err_0 == grammar_error(buf@).unwrap(),
            r.is_ok() ==> {
                let p = r->Ok_0;
                &&& p.wf()
                &&& p.trie_spec() == trie
                &&& p.parser_spec().grammar_spec().decodes(buf@)
                &&& p.parser_spec()@.len() == 0
                &&& p.llm().len() == 0
                &&& p.rejection_spec().is_none()
                &&& p.env_spec() == token_env
            },
    {
        match Grammar::from_bytes(buf) {
            Ok(g) => Ok(TokenParser::new(token_env, trie, g)),
            Err(e) => Err(e),
        }
    }

    /// The vocabulary.
    pub fn toktrie(&self) -> (r: &TokTrie)
        ensures
            *r == self.trie_spec(),
    {
        &self.trie
    }

    /// The parser.
    pub fn parser(&self) -> (r: &Parser)
        ensures
            *r == self.parser_spec(),
    {
        &self.parser
    }

    /// Where the grammar refused the cache's bytes at the last step that fed
    /// them to the parser, if it did: the reason that step stopped.
    pub fn rejection(&self) -> (r: Option<Rejection>)
        ensures
            r == self.rejection_spec(),
    {
        self.rejection
    }

    /// The tokens in the model's cache.
    pub fn llm_tokens(&self) -> (r: &[TokenId])
        ensures
            r@ == self.llm(),
    {
        self.llm_tokens.as_slice()
    }

    /// One step: records the tokens the host dropped and added, feeds their
    /// bytes to the parser, takes what the grammar forces, and then stops (on
    /// end of sentence, or when the host's tokens break the grammar or the
    /// protocol), splices, or returns the bias for the next token.
    #[verifier::rlimit(60)]
    pub fn mid_process(&mut self, arg: MidProcessArg) -> (r: MidProcessResult)
        requires
            old(self).wf(),
        ensures
            final(self).wf(),
            final(self).trie_spec() == old(self).trie_spec(),
            final(self).parser_spec().grammar_spec() == old(self).parser_spec().grammar_spec(),
            final(self).env_spec() == old(self).env_spec(),
            holds_token(arg.tokens@, old(self).trie_spec().eos()) ==> r is Stop,
            ({
                let trie = old(self).trie_spec();
                let gr = old(self).parser_spec().grammar_spec();
                let taken = trie.all_valid(arg.tokens@) && arg.backtrack <= old(self).llm().len();
                let llm = old(self).llm().subrange(0, old(self).llm().len() - arg.backtrack)
                    + arg.tokens@;
                let d = trie.decode_spec(llm);
                &&& !taken ==> r is Stop && final(self).llm() == old(self).llm()
                    && final(self).rejection_spec() == old(self).rejection_spec()
                &&& taken ==> final(self).llm() == llm
                &&& taken && !accepts(&gr, 0, d) ==> {
                    let rj = final(self).rejection_spec();
                    &&& r is Stop
                    &&& rj.is_some()
                    &&& rj.unwrap().position < d.len()
                    &&& rj.unwrap().byte == d[rj.unwrap().position as int]
                    &&& final(self).parser_spec()@ == d.subrange(0, rj.unwrap().position as int)
                }
                &&& taken && accepts(&gr, 0, d) ==> final(self).rejection_spec().is_none()
                &&& taken && accepts(&gr, 0, d) ==> {
                    let full = final(self).parser_spec()@;
                    &&& d.len() <= full.len()
                    &&& full.subrange(0, d.len() as int) == d
                    &&& forced_after(&gr, d, full.subrange(d.len() as int, full.len() as int))
                    &&& (holds_token(arg.tokens@, trie.eos()) || exists|grm: Seq<TokenId>|
                        step_outcome(
                            r,
                            &trie,
                            &gr,
                            final(self).parser_spec().state_spec(),
                            full,
                            llm,
                            grm,
                        ))
                }
            }),
    {
        if !self.trie.tokens_valid(arg.tokens.as_slice()) {
            return MidProcessResult::stop();
        }
        if !arg.save_tokens(&mut self.llm_tokens) {
            return MidProcessResult::stop();
        }
        assert(self.trie.all_valid(self.llm_tokens@)) by {
            assert forall|i: int| 0 <= i < self.llm_tokens@.len() implies (
            #[trigger] self.llm_tokens@[i]) < self.trie.vocab_len() by {
                let k = old(self).llm().len() - arg.backtrack;
                if i >= k {
                    assert(self.llm_tokens@[i] == arg.tokens@[i - k]);
                } else {
                    assert(self.llm_tokens@[i] == old(self).llm()[i]);
                }
            }
        }
        let applied = self.parser.apply_tokens(&self.trie, self.llm_tokens.as_slice());
        match applied {
            Err(rj) => {
                self.rejection = Some(rj);
                return MidProcessResult::stop();
            },
            Ok(()) => {
                self.rejection = None;
            },
        }
        let ghost d = self.parser@;
        let forced = self.parser.force_bytes();
        proof {
            let full = self.parser@;
            assert(full.subrange(0, d.len() as int) =~= d);
            assert(full.subrange(d.len() as int, full.len() as int) =~= forced@);
            assert(full == d + forced@);
            assert(forced_after(&self.parser.grammar_spec(), d, full.subrange(d.len() as int, full.len() as int)));
        }
        if contains_token(arg.tokens.as_slice(), self.trie.eos_token()) {
            return MidProcessResult::stop();
        }
        let full_grm_bytes = self.parser.get_bytes();
        let grm_tokens = self.token_env.tokenize_bytes(full_grm_bytes.as_slice());
        let ghost grm = grm_tokens@;
        let r = resolve_forced(&self.trie, &self.parser, self.llm_tokens.as_slice(), grm_tokens);
        assert(step_outcome(
            r,
            &self.trie,
            &self.parser.grammar_spec(),
            self.parser.state_spec(),
            self.parser@,
            self.llm_tokens@,
            grm,
        ));
        r
    }
}

} // verus!
