//! The vocabulary: the byte string of every token id, the special tokens, and
//! the traversals that turn a recognizer into a set of allowed tokens.
use vstd::prelude::*;

use crate::recognizer::{accepts, lemma_accepts_prefix, run, walk_bytes, Recognizer, SpecialToken};
use crate::tokset::TokenSet;
use crate::TokenId;

verus! {

/// Why a vocabulary could not be built.
#[derive(Clone, Copy, Debug, PartialEq, Eq, Structural)]
pub enum VocabError {
    /// The byte strings and the special-token tags differ in number.
    LengthMismatch,
    /// More entries than token ids can name.
    TooManyTokens,
    /// No entry is tagged as end of sentence.
    NoEndOfSentence,
    /// A serialized vocabulary does not follow its layout.
    BadFormat,
}

/// The longest byte string of a list.
pub open spec fn max_len_of(s: Seq<Seq<u8>>) -> nat
    decreases s.len(),
{
    if s.len() == 0 {
        0
    } else {
        let m = max_len_of(s.drop_last());
        if s.last().len() > m {
            s.last().len()
        } else {
            m
        }
    }
}

proof fn lemma_max_len_bounds(s: Seq<Seq<u8>>, i: int)
    requires
        0 <= i < s.len(),
    ensures
        s[i].len() <= max_len_of(s),
    decreases s.len(),
{
    if i < s.len() - 1 {
        lemma_max_len_bounds(s.drop_last(), i);
    }
}

fn is_eos(k: Option<SpecialToken>) -> (r: bool)
    ensures
        r == (k == Some(SpecialToken::EndOfSentence)),
{
    match k {
        Some(SpecialToken::EndOfSentence) => true,
        _ => false,
    }
}

/// `r` is what building a vocabulary from `tokens` and `kinds` gives: an
/// error for mismatched lengths, too many entries or no end-of-sentence tag
/// (in that order); otherwise a vocabulary with those entries, the special
/// ones reduced to no bytes, and the first end-of-sentence entry as its end.
pub open spec fn built_from(
    r: Result<TokTrie, VocabError>,
    tokens: Seq<Seq<u8>>,
    kinds: Seq<Option<SpecialToken>>,
) -> bool {
    let sized = tokens.len() == kinds.len() && tokens.len() <= u32::MAX;
    &&& tokens.len() != kinds.len() ==> r == Err::<TokTrie, VocabError>(VocabError::LengthMismatch)
    &&& tokens.len() == kinds.len() && tokens.len() > u32::MAX ==> r == Err::<TokTrie, VocabError>(
        VocabError::TooManyTokens,
    )
    &&& sized && (forall|t: int|
        0 <= t < kinds.len() ==> kinds[t] != Some(SpecialToken::EndOfSentence)) ==> r == Err::<
        TokTrie,
        VocabError,
    >(VocabError::NoEndOfSentence)
    &&& sized && (exists|t: int| 0 <= t < kinds.len() && kinds[t] == Some(SpecialToken::EndOfSentence))
        ==> r.is_ok()
    &&& r.is_ok() ==> {
        let v = r.unwrap();
        &&& v.wf()
        &&& v.vocab_len() == tokens.len()
        &&& forall|t: int|
            0 <= t < tokens.len() ==> #[trigger] v.kind_of(t) == kinds[t] && v.bytes_of(t) == if kinds[t].is_some() {
                Seq::<u8>::empty()
            } else {
                tokens[t]
            }
        &&& v.kind_of(v.eos() as int) == Some(SpecialToken::EndOfSentence)
        &&& forall|t: int| 0 <= t < v.eos() ==> kinds[t] != Some(SpecialToken::EndOfSentence)
        &&& v.max_len() == max_len_of(Seq::new(tokens.len(), |t: int| v.bytes_of(t)))
    }
}

/// Id `t` occurs in `order`.
pub open spec fn listed(order: Seq<u32>, t: int) -> bool {
    exists|k: int| 0 <= k < order.len() && order[k] == t
}

/// Byte strings in lexicographic order: `a` does not come after `b`.
fn bytes_le(a: &[u8], b: &[u8]) -> bool {
    let mut i: usize = 0;
    while i < a.len() && i < b.len()
        invariant
            i <= a@.len(),
            i <= b@.len(),
        decreases a@.len() - i,
    {
        if a[i] != b[i] {
            return a[i] < b[i];
        }
        i = i + 1;
    }
    a.len() <= b.len()
}

/// The ids `ids` ordered by their byte strings, so that tokens sharing a
/// prefix come one after another, as in a depth-first walk of the trie.
fn sort_by_bytes(tokens: &Vec<Vec<u8>>, ids: &[u32]) -> (r: Vec<u32>)
    requires
        forall|i: int| 0 <= i < ids@.len() ==> (#[trigger] ids@[i]) < tokens@.len(),
    ensures
        r@.len() == ids@.len(),
        forall|i: int| 0 <= i < r@.len() ==> (#[trigger] r@[i]) < tokens@.len(),
    decreases ids@.len(),
{
    if ids.len() <= 1 {
        let mut r: Vec<u32> = Vec::new();
        if ids.len() == 1 {
            r.push(ids[0]);
        }
        return r;
    }
    let mid = ids.len() / 2;
    let (left, right) = ids.split_at(mid);
    let a = sort_by_bytes(tokens, left);
    let b = sort_by_bytes(tokens, right);
    let mut r: Vec<u32> = Vec::new();
    let mut i: usize = 0;
    let mut j: usize = 0;
    while i < a.len() || j < b.len()
        invariant
            i <= a@.len(),
            j <= b@.len(),
            r@.len() == i + j,
            forall|k: int| 0 <= k < a@.len() ==> (#[trigger] a@[k]) < tokens@.len(),
            forall|k: int| 0 <= k < b@.len() ==> (#[trigger] b@[k]) < tokens@.len(),
            forall|k: int| 0 <= k < r@.len() ==> (#[trigger] r@[k]) < tokens@.len(),
        decreases a@.len() + b@.len() - i - j,
    {
        if j >= b.len() || (i < a.len() && bytes_le(
            tokens[a[i] as usize].as_slice(),
            tokens[b[j] as usize].as_slice(),
        )) {
            r.push(a[i]);
            i = i + 1;
        } else {
            r.push(b[j]);
            j = j + 1;
        }
    }
    r
}

/// Whether every id below `n` occurs in `order`.
fn covers(order: &Vec<u32>, n: usize) -> (r: bool)
    requires
        forall|k: int| 0 <= k < order@.len() ==> (#[trigger] order@[k]) < n,
    ensures
        r ==> forall|t: int| 0 <= t < n ==> #[trigger] listed(order@, t),
{
    let mut seen: Vec<bool> = Vec::new();
    while seen.len() < n
        invariant
            seen@.len() <= n,
            forall|t: int| 0 <= t < seen@.len() ==> !seen@[t],
        decreases n - seen@.len(),
    {
        seen.push(false);
    }
    let mut k: usize = 0;
    while k < order.len()
        invariant
            seen@.len() == n,
            k <= order@.len(),
            forall|j: int| 0 <= j < order@.len() ==> (#[trigger] order@[j]) < n,
            forall|t: int|
                0 <= t < n && #[trigger] seen@[t] ==> exists|j: int| 0 <= j < k && order@[j] == t,
        decreases order@.len() - k,
    {
        let t = order[k] as usize;
        seen.set(t, true);
        assert forall|u: int| 0 <= u < n && #[trigger] seen@[u] implies exists|j: int|
            0 <= j < k + 1 && order@[j] == u by {
            if u != t {
                let j = choose|j: int| 0 <= j < k && order@[j] == u;
                assert(0 <= j < k + 1 && order@[j] == u);
            } else {
                assert(order@[k as int] == u);
            }
        }
        k = k + 1;
    }
    let mut t: usize = 0;
    while t < n
        invariant
            seen@.len() == n,
            t <= n,
            forall|u: int| 0 <= u < t ==> #[trigger] seen@[u],
        decreases n - t,
    {
        if !seen[t] {
            return false;
        }
        t = t + 1;
    }
    assert forall|u: int| 0 <= u < n implies #[trigger] listed(order@, u) by {
        assert(seen@[u]);
    }
    true
}

/// The ids in trie order, or in id order should the sort miss one.
fn trie_order(tokens: &Vec<Vec<u8>>) -> (r: Vec<u32>)
    requires
        tokens@.len() <= u32::MAX,
    ensures
        r@.len() == tokens@.len(),
        forall|k: int| 0 <= k < r@.len() ==> (#[trigger] r@[k]) < tokens@.len(),
        forall|t: int| 0 <= t < tokens@.len() ==> #[trigger] listed(r@, t),
{
    let n = tokens.len();
    let mut ids: Vec<u32> = Vec::new();
    while ids.len() < n
        invariant
            n == tokens@.len(),
            n <= u32::MAX,
            ids@.len() <= n,
            forall|k: int| 0 <= k < ids@.len() ==> (#[trigger] ids@[k]) == k,
        decreases n - ids@.len(),
    {
        ids.push(ids.len() as u32);
    }
    let sorted = sort_by_bytes(tokens, ids.as_slice());
    if covers(&sorted, n) {
        sorted
    } else {
        assert forall|t: int| 0 <= t < n implies #[trigger] listed(ids@, t) by {
            assert(ids@[t] == t);
        }
        ids
    }
}

/// `stack[i]` is the state after the first `i` bytes of `b`, all accepted.
pub open spec fn stack_ok<R: Recognizer>(r: &R, s: usize, stack: Seq<usize>, b: Seq<u8>) -> bool {
    &&& stack.len() >= 1
    &&& stack.len() - 1 <= b.len()
    &&& forall|i: int|
        0 <= i < stack.len() ==> {
            &&& #[trigger] stack[i] == run(r, s, b.subrange(0, i))
            &&& accepts(r, s, b.subrange(0, i))
            &&& r.valid(stack[i])
        }
}

/// Continues the walk of `b` from the deepest state on `stack`, pushing one
/// state per accepted byte; stops at the first refused byte.
fn extend_walk<R: Recognizer>(r: &R, s: usize, stack: &mut Vec<usize>, b: &[u8]) -> (ok: bool)
    requires
        r.inv(),
        r.valid(s),
        stack_ok(r, s, old(stack)@, b@),
    ensures
        stack_ok(r, s, final(stack)@, b@),
        ok == accepts(r, s, b@),
        ok ==> final(stack)@.len() - 1 == b@.len(),
        !ok ==> final(stack)@.len() - 1 < b@.len() && !r.allows(
            final(stack)@.last(),
            b@[final(stack)@.len() - 1],
        ),
{
    let mut i: usize = stack.len() - 1;
    while i < b.len()
        invariant
            r.inv(),
            r.valid(s),
            stack_ok(r, s, stack@, b@),
            i == stack@.len() - 1,
        decreases b@.len() - i,
    {
        let cur = stack[i];
        assert(b@.subrange(0, i + 1).drop_last() =~= b@.subrange(0, i as int));
        if !r.byte_allowed(cur, b[i]) {
            proof {
                if accepts(r, s, b@) {
                    lemma_accepts_prefix(r, s, b@, i + 1);
                }
            }
            return false;
        }
        proof {
            r.lemma_next_valid(cur, b@[i as int]);
        }
        let nxt = r.append(cur, b[i]);
        let ghost before = stack@;
        stack.push(nxt);
        assert forall|j: int| 0 <= j < stack@.len() implies {
            &&& #[trigger] stack@[j] == run(r, s, b@.subrange(0, j))
            &&& accepts(r, s, b@.subrange(0, j))
            &&& r.valid(stack@[j])
        } by {
            if j < before.len() {
                assert(stack@[j] == before[j]);
            }
        }
        i = i + 1;
    }
    assert(stack@[i as int] == run(r, s, b@.subrange(0, i as int)));
    assert(b@.subrange(0, b@.len() as int) =~= b@);
    true
}

/// A stack for the first bytes of `prev` serves `cur` as far as they agree.
proof fn lemma_stack_shared<R: Recognizer>(
    r: &R,
    s: usize,
    stack: Seq<usize>,
    prev: Seq<u8>,
    cur: Seq<u8>,
    l: int,
    keep: int,
)
    requires
        stack_ok(r, s, stack, prev),
        0 <= keep <= l,
        keep < stack.len(),
        l <= prev.len(),
        l <= cur.len(),
        prev.subrange(0, l) == cur.subrange(0, l),
    ensures
        stack_ok(r, s, stack.subrange(0, keep + 1), cur),
{
    assert(prev.subrange(0, keep) =~= prev.subrange(0, l).subrange(0, keep));
    assert(cur.subrange(0, keep) =~= cur.subrange(0, l).subrange(0, keep));
    let st = stack.subrange(0, keep + 1);
    assert forall|i: int| 0 <= i < st.len() implies {
        &&& #[trigger] st[i] == run(r, s, cur.subrange(0, i))
        &&& accepts(r, s, cur.subrange(0, i))
        &&& r.valid(st[i])
    } by {
        assert(prev.subrange(0, i) =~= prev.subrange(0, keep).subrange(0, i));
        assert(cur.subrange(0, i) =~= cur.subrange(0, keep).subrange(0, i));
        assert(st[i] == stack[i]);
    }
}

/// When the walk of `prev` stopped at a refused byte inside the part that
/// `cur` shares, the recognizer refuses `cur` too: the whole subtree is out.
proof fn lemma_blocked_refuses<R: Recognizer>(
    r: &R,
    s: usize,
    stack: Seq<usize>,
    prev: Seq<u8>,
    cur: Seq<u8>,
    l: int,
)
    requires
        r.inv(),
        r.valid(s),
        stack_ok(r, s, stack, prev),
        stack.len() - 1 < l,
        l <= prev.len(),
        l <= cur.len(),
        prev.subrange(0, l) == cur.subrange(0, l),
        !r.allows(stack.last(), prev[stack.len() - 1]),
    ensures
        !accepts(r, s, cur),
{
    let d = stack.len() - 1;
    assert(prev.subrange(0, d) =~= cur.subrange(0, d)) by {
        assert(prev.subrange(0, d) =~= prev.subrange(0, l).subrange(0, d));
        assert(cur.subrange(0, d) =~= cur.subrange(0, l).subrange(0, d));
    }
    assert(0 <= d < l);
    assert(prev.subrange(0, l)[d] == prev[d]);
    assert(cur.subrange(0, l)[d] == cur[d]);
    assert(prev[d] == cur[d]);
    assert(stack[d] == run(r, s, prev.subrange(0, d)));
    if accepts(r, s, cur) {
        lemma_accepts_prefix(r, s, cur, d + 1);
        assert(cur.subrange(0, d + 1).drop_last() =~= cur.subrange(0, d));
    }
}

/// Whether `b` begins with `p`.
fn has_prefix(b: &[u8], p: &[u8]) -> (r: bool)
    ensures
        r == (p@.len() <= b@.len() && b@.subrange(0, p@.len() as int) == p@),
{
    if p.len() > b.len() {
        return false;
    }
    let l = common_len(b, p);
    if l == p.len() {
        assert(p@.subrange(0, p@.len() as int) =~= p@);
        true
    } else {
        assert(b@.subrange(0, p@.len() as int)[l as int] != p@[l as int]);
        false
    }
}

/// How far `a` and `b` agree from the start.
fn common_len(a: &[u8], b: &[u8]) -> (l: usize)
    ensures
        l <= a@.len(),
        l <= b@.len(),
        a@.subrange(0, l as int) == b@.subrange(0, l as int),
        l == a@.len() || l == b@.len() || a@[l as int] != b@[l as int],
{
    let mut i: usize = 0;
    while i < a.len() && i < b.len() && a[i] == b[i]
        invariant
            i <= a@.len(),
            i <= b@.len(),
            a@.subrange(0, i as int) == b@.subrange(0, i as int),
        decreases a@.len() - i,
    {
        assert(a@.subrange(0, i + 1) =~= b@.subrange(0, i + 1));
        i = i + 1;
    }
    i
}

/// The vocabulary of a model, fixed once built. Besides the bytes of each
/// id it keeps the ids in trie order (by their byte strings), so that a
/// traversal meets the tokens under one trie node one after another: it
/// shares the recognizer states of their common prefix, and skips them all
/// once a byte of that prefix is refused.
#[derive(Clone)]
pub struct TokTrie {
    token_bytes: Vec<Vec<u8>>,
    kinds: Vec<Option<SpecialToken>>,
    eos: TokenId,
    max_len: usize,
    /// Every id, in the order of a depth-first walk of the trie.
    order: Vec<u32>,
}

impl TokTrie {
    /// Number of token ids.
    pub closed spec fn vocab_len(&self) -> nat {
        self.token_bytes@.len()
    }

    /// The bytes that token `t` decodes to (empty for a special token).
    pub closed spec fn bytes_of(&self, t: int) -> Seq<u8> {
        self.token_bytes@[t]@
    }

    /// The special kind of token `t`, if it is special.
    pub closed spec fn kind_of(&self, t: int) -> Option<SpecialToken> {
        self.kinds@[t]
    }

    /// The end-of-sentence token.
    pub closed spec fn eos(&self) -> TokenId {
        self.eos
    }

    /// The length of the longest token.
    pub closed spec fn max_len(&self) -> nat {
        self.max_len as nat
    }

    pub closed spec fn wf(&self) -> bool {
        &&& self.kinds@.len() == self.token_bytes@.len()
        &&& self.token_bytes@.len() <= u32::MAX
        &&& self.eos < self.token_bytes@.len()
        &&& self.kinds@[self.eos as int] == Some(SpecialToken::EndOfSentence)
        &&& forall|t: int|
            0 <= t < self.token_bytes@.len() && (#[trigger] self.kinds@[t]).is_some()
                ==> self.token_bytes@[t]@.len() == 0
        &&& forall|t: int|
            0 <= t < self.token_bytes@.len() ==> (#[trigger] self.token_bytes@[t])@.len()
                <= self.max_len
        &&& self.order@.len() == self.token_bytes@.len()
        &&& forall|k: int| 0 <= k < self.order@.len() ==> (#[trigger] self.order@[k]) < self.token_bytes@.len()
        &&& forall|t: int| 0 <= t < self.token_bytes@.len() ==> #[trigger] listed(self.order@, t)
    }

    /// The facts that well-formedness gives to users of the vocabulary.
    pub proof fn lemma_wf(&self)
        requires
            self.wf(),
        ensures
            self.vocab_len() <= u32::MAX,
            self.eos() < self.vocab_len(),
            self.kind_of(self.eos() as int) == Some(SpecialToken::EndOfSentence),
            forall|t: int|
                0 <= t < self.vocab_len() && (#[trigger] self.kind_of(t)).is_some()
                    ==> self.bytes_of(t).len() == 0,
            forall|t: int| 0 <= t < self.vocab_len() ==> #[trigger] self.bytes_of(t).len() <= self.max_len(),
    {
        assert forall|t: int| 0 <= t < self.vocab_len() implies #[trigger] self.bytes_of(t).len()
            <= self.max_len() by {
            assert(self.token_bytes@[t]@.len() <= self.max_len);
        }
    }

    /// Builds the vocabulary from the byte string and the special tag of each id.
    /// Special tokens are not reachable by bytes: their byte strings are dropped.
    /// The end-of-sentence token is the first entry tagged so.
    pub fn from_tokens(tokens: Vec<Vec<u8>>, kinds: Vec<Option<SpecialToken>>) -> (r: Result<
        TokTrie,
        VocabError,
    >)
        ensures
            built_from(r, Seq::new(tokens@.len(), |t: int| tokens@[t]@), kinds@),
    {
        if tokens.len() != kinds.len() {
            return Err(VocabError::LengthMismatch);
        }
        if tokens.len() > u32::MAX as usize {
            return Err(VocabError::TooManyTokens);
        }
        let mut eos: usize = 0;
        while eos < kinds.len() && !is_eos(kinds[eos])
            invariant
                eos <= kinds@.len(),
                forall|t: int| 0 <= t < eos ==> kinds@[t] != Some(SpecialToken::EndOfSentence),
            decreases kinds@.len() - eos,
        {
            eos = eos + 1;
        }
        if eos == kinds.len() {
            return Err(VocabError::NoEndOfSentence);
        }
        let mut token_bytes: Vec<Vec<u8>> = Vec::new();
        let mut max_len: usize = 0;
        let mut i: usize = 0;
        let ghost goal = Seq::new(tokens@.len(), |t: int| if kinds@[t].is_some() {
            Seq::<u8>::empty()
        } else {
            tokens@[t]@
        });
        while i < tokens.len()
            invariant
                i <= tokens@.len(),
                tokens@.len() == kinds@.len(),
                goal.len() == tokens@.len(),
                forall|t: int|
                    0 <= t < tokens@.len() ==> #[trigger] goal[t] == if kinds@[t].is_some() {
                        Seq::<u8>::empty()
                    } else {
                        tokens@[t]@
                    },
                token_bytes@.len() == i,
                forall|t: int| 0 <= t < i ==> (#[trigger] token_bytes@[t])@ == goal[t],
                max_len == max_len_of(goal.subrange(0, i as int)),
            decreases tokens@.len() - i,
        {
            let b: Vec<u8> = if kinds[i].is_some() {
                Vec::new()
            } else {
                tokens[i].clone()
            };
            assert(goal.subrange(0, i + 1).drop_last() =~= goal.subrange(0, i as int));
            if b.len() > max_len {
                max_len = b.len();
            }
            token_bytes.push(b);
            i = i + 1;
        }
        assert(goal.subrange(0, tokens@.len() as int) =~= goal);
        let order = trie_order(&token_bytes);
        let v = TokTrie { token_bytes, kinds, eos: eos as u32, max_len, order };
        assert forall|t: int| 0 <= t < v.token_bytes@.len() implies (
        #[trigger] v.token_bytes@[t])@.len() <= v.max_len by {
            lemma_max_len_bounds(goal, t);
        }
        assert(Seq::new(tokens@.len(), |t: int| v.bytes_of(t)) =~= goal);
        Ok(v)
    }

    /// Number of token ids.
    pub fn vocab_size(&self) -> (r: usize)
        ensures
            r == self.vocab_len(),
    {
        self.token_bytes.len()
    }

    /// The end-of-sentence token.
    pub fn eos_token(&self) -> (r: TokenId)
        ensures
            r == self.eos(),
    {
        self.eos
    }

    /// The length of the longest token.
    pub fn max_token_len(&self) -> (r: usize)
        ensures
            r == self.max_len(),
    {
        self.max_len
    }

    /// The bytes of token `t`.
    pub fn token(&self, t: TokenId) -> (r: &Vec<u8>)
        requires
            t < self.vocab_len(),
        ensures
            r@ == self.bytes_of(t as int),
    {
        &self.token_bytes[t as usize]
    }

    /// The special kind of token `t`.
    pub fn special_kind(&self, t: TokenId) -> (r: Option<SpecialToken>)
        requires
            self.wf(),
            t < self.vocab_len(),
        ensures
            r == self.kind_of(t as int),
    {
        self.kinds[t as usize]
    }

    /// An empty set sized to the vocabulary.
    pub fn alloc_token_set(&self) -> (r: TokenSet)
        ensures
            r.wf(),
            r@ == Seq::new(self.vocab_len(), |t: int| false),
    {
        TokenSet::new(self.token_bytes.len())
    }

    /// Every id of `toks` names a vocabulary entry.
    pub open spec fn all_valid(&self, toks: Seq<TokenId>) -> bool {
        forall|i: int| 0 <= i < toks.len() ==> (#[trigger] toks[i]) < self.vocab_len()
    }

    /// The concatenated bytes of a token sequence.
    pub open spec fn decode_spec(&self, toks: Seq<TokenId>) -> Seq<u8>
        decreases toks.len(),
    {
        if toks.len() == 0 {
            Seq::empty()
        } else {
            self.decode_spec(toks.drop_last()) + self.bytes_of(toks.last() as int)
        }
    }

    /// Whether every id of `toks` names a vocabulary entry.
    pub fn tokens_valid(&self, toks: &[TokenId]) -> (r: bool)
        ensures
            r == self.all_valid(toks@),
    {
        let mut i: usize = 0;
        while i < toks.len()
            invariant
                i <= toks@.len(),
                forall|j: int| 0 <= j < i ==> (#[trigger] toks@[j]) < self.vocab_len(),
            decreases toks@.len() - i,
        {
            if toks[i] as usize >= self.token_bytes.len() {
                return false;
            }
            i = i + 1;
        }
        true
    }

    /// The concatenated bytes of `toks`.
    pub fn decode(&self, toks: &[TokenId]) -> (r: Vec<u8>)
        requires
            self.all_valid(toks@),
        ensures
            r@ == self.decode_spec(toks@),
    {
        let mut out: Vec<u8> = Vec::new();
        let mut i: usize = 0;
        while i < toks.len()
            invariant
                self.all_valid(toks@),
                i <= toks@.len(),
                out@ == self.decode_spec(toks@.subrange(0, i as int)),
            decreases toks@.len() - i,
        {
            let b = self.token(toks[i]);
            let mut j: usize = 0;
            let ghost start = out@;
            while j < b.len()
                invariant
                    j <= b@.len(),
                    out@ == start + b@.subrange(0, j as int),
                decreases b@.len() - j,
            {
                out.push(b[j]);
                j = j + 1;
                assert(out@ =~= start + b@.subrange(0, j as int));
            }
            assert(toks@.subrange(0, i + 1).drop_last() =~= toks@.subrange(0, i as int));
            assert(b@.subrange(0, b@.len() as int) =~= b@);
            i = i + 1;
        }
        assert(toks@.subrange(0, toks@.len() as int) =~= toks@);
        out
    }

    /// Token `t` is admissible after the forced bytes `start`, the recognizer
    /// being in state `s` after them: a special token when nothing is pending
    /// and the recognizer lets it through; a byte token shorter than `start`
    /// when it is a prefix of `start` (bytes the grammar already took); a
    /// longer one when it begins with `start` and the recognizer accepts the
    /// rest of it.
    pub open spec fn allowed_at<R: Recognizer>(
        &self,
        r: &R,
        s: usize,
        start: Seq<u8>,
        t: int,
    ) -> bool {
        match self.kind_of(t) {
            Some(k) => start.len() == 0 && r.allows_special(s, k),
            None => {
                let b = self.bytes_of(t);
                if b.len() < start.len() {
                    start.subrange(0, b.len() as int) == b
                } else {
                    &&& b.subrange(0, start.len() as int) == start
                    &&& accepts(r, s, b.subrange(start.len() as int, b.len() as int))
                }
            },
        }
    }

    /// Token `t` covers `prefix` and goes on with at least one byte that the
    /// recognizer, in state `s`, accepts.
    pub open spec fn extends<R: Recognizer>(&self, r: &R, s: usize, prefix: Seq<u8>, t: int) -> bool {
        &&& self.kind_of(t).is_none()
        &&& prefix.len() < self.bytes_of(t).len()
        &&& self.allowed_at(r, s, prefix, t)
    }

    /// Some token extends `prefix` in a way the recognizer accepts.
    pub open spec fn has_extension<R: Recognizer>(&self, r: &R, s: usize, prefix: Seq<u8>) -> bool {
        exists|t: int| 0 <= t < self.vocab_len() && #[trigger] self.extends(r, s, prefix, t)
    }

    /// Fills `set` with the tokens admissible in state `s`: a byte token when
    /// the recognizer accepts all of its bytes, a special token when the
    /// recognizer lets it through.
    pub fn compute_bias<R: Recognizer>(&self, r: &R, s: usize, set: &mut TokenSet)
        requires
            self.wf(),
            r.inv(),
            r.valid(s),
            old(set).wf(),
            old(set)@.len() == self.vocab_len(),
        ensures
            final(set).wf(),
            final(set)@ == Seq::new(
                self.vocab_len(),
                |t: int| self.allowed_at(r, s, Seq::empty(), t),
            ),
            forall|t: int|
                0 <= t < self.vocab_len() && self.kind_of(t).is_none() ==> (final(set)@[t]
                    <==> accepts(r, s, self.bytes_of(t))),
    {
        let empty: Vec<u8> = Vec::new();
        self.compute_bias_ext(r, s, set, empty.as_slice());
        assert forall|t: int|
            0 <= t < self.vocab_len() && self.kind_of(t).is_none() implies (set@[t] <==> accepts(
            r,
            s,
            self.bytes_of(t),
        )) by {
            let b = self.bytes_of(t);
            assert(b.subrange(0, 0) =~= Seq::<u8>::empty());
            assert(b.subrange(0, b.len() as int) =~= b);
        }
    }

    /// Fills `set` with the tokens admissible after the pending bytes `start`,
    /// the recognizer being in state `s` once those bytes are taken. Walks the
    /// tokens in trie order, keeping the states along the current path on a
    /// stack: a token reuses the states of the prefix it shares with the one
    /// before, and a refused byte rules out every token below it.
    pub fn compute_bias_ext<R: Recognizer>(
        &self,
        r: &R,
        s: usize,
        set: &mut TokenSet,
        start: &[u8],
    )
        requires
            self.wf(),
            r.inv(),
            r.valid(s),
            old(set).wf(),
            old(set)@.len() == self.vocab_len(),
        ensures
            final(set).wf(),
            final(set)@ == Seq::new(self.vocab_len(), |t: int| self.allowed_at(r, s, start@, t)),
    {
        let n = self.order.len();
        let mut stack: Vec<usize> = Vec::new();
        stack.push(s);
        let mut prev: &[u8] = start.split_at(0).0;
        let mut blocked = false;
        let mut k: usize = 0;
        assert(prev@.subrange(0, 0) =~= Seq::<u8>::empty());
        assert(stack@[0] == run(r, s, prev@.subrange(0, 0)));
        while k < n
            invariant
                self.wf(),
                r.inv(),
                r.valid(s),
                n == self.vocab_len(),
                k <= n,
                set.wf(),
                set@.len() == n,
                stack_ok(r, s, stack@, prev@),
                blocked ==> stack@.len() - 1 < prev@.len() && !r.allows(
                    stack@.last(),
                    prev@[stack@.len() - 1],
                ),
                forall|j: int|
                    0 <= j < k ==> set@[#[trigger] self.order@[j] as int] == self.allowed_at(
                        r,
                        s,
                        start@,
                        self.order@[j] as int,
                    ),
            decreases n - k,
        {
            let t = self.order[k];
            let ok = match self.kinds[t as usize] {
                Some(kind) => start.len() == 0 && r.special_allowed(s, kind),
                None => {
                    let b = self.token_bytes[t as usize].as_slice();
                    if b.len() < start.len() {
                        has_prefix(start, b)
                    } else if !has_prefix(b, start) {
                        false
                    } else {
                        let rest = b.split_at(start.len()).1;
                        assert(rest@ == b@.subrange(start@.len() as int, b@.len() as int));
                        let l = common_len(prev, rest);
                        let d = stack.len() - 1;
                        if blocked && d < l {
                            proof {
                                lemma_blocked_refuses(r, s, stack@, prev@, rest@, l as int);
                            }
                            false
                        } else {
                            let keep = if l < d {
                                l
                            } else {
                                d
                            };
                            proof {
                                lemma_stack_shared(r, s, stack@, prev@, rest@, l as int, keep as int);
                            }
                            stack.truncate(keep + 1);
                            let res = extend_walk(r, s, &mut stack, rest);
                            blocked = !res;
                            prev = rest;
                            res
                        }
                    }
                },
            };
            assert(ok == self.allowed_at(r, s, start@, t as int));
            if ok {
                set.allow_token(t);
            } else {
                set.disallow_token(t);
            }
            k = k + 1;
        }
        assert forall|t: int| 0 <= t < n implies set@[t] == self.allowed_at(r, s, start@, t) by {
            assert(listed(self.order@, t));
            let j = choose|j: int| 0 <= j < self.order@.len() && self.order@[j] == t;
            assert(set@[self.order@[j] as int] == self.allowed_at(r, s, start@, self.order@[j] as int));
        }
        assert(set@ =~= Seq::new(self.vocab_len(), |t: int| self.allowed_at(r, s, start@, t)));
    }

    /// Whether some byte token strictly extends `prefix` with bytes that the
    /// recognizer, in state `s`, accepts. Walks the tokens below `prefix` in
    /// trie order, as [`TokTrie::compute_bias_ext`] does, and stops at the
    /// first such token.
    pub fn has_valid_extensions<R: Recognizer>(&self, r: &R, s: usize, prefix: &[u8]) -> (res: bool)
        requires
            self.wf(),
            r.inv(),
            r.valid(s),
        ensures
            res == self.has_extension(r, s, prefix@),
    {
        let n = self.order.len();
        let mut stack: Vec<usize> = Vec::new();
        stack.push(s);
        let mut prev: &[u8] = prefix.split_at(0).0;
        let mut blocked = false;
        let mut k: usize = 0;
        assert(prev@.subrange(0, 0) =~= Seq::<u8>::empty());
        assert(stack@[0] == run(r, s, prev@.subrange(0, 0)));
        while k < n
            invariant
                self.wf(),
                r.inv(),
                r.valid(s),
                n == self.vocab_len(),
                k <= n,
                stack_ok(r, s, stack@, prev@),
                blocked ==> stack@.len() - 1 < prev@.len() && !r.allows(
                    stack@.last(),
                    prev@[stack@.len() - 1],
                ),
                forall|j: int|
                    0 <= j < k ==> !self.extends(r, s, prefix@, #[trigger] self.order@[j] as int),
            decreases n - k,
        {
            let t = self.order[k];
            if self.kinds[t as usize].is_none() {
                let b = self.token_bytes[t as usize].as_slice();
                if prefix.len() < b.len() && has_prefix(b, prefix) {
                    let rest = b.split_at(prefix.len()).1;
                    assert(rest@ == b@.subrange(prefix@.len() as int, b@.len() as int));
                    let l = common_len(prev, rest);
                    let d = stack.len() - 1;
                    if blocked && d < l {
                        proof {
                            lemma_blocked_refuses(r, s, stack@, prev@, rest@, l as int);
                        }
                    } else {
                        let keep = if l < d {
                            l
                        } else {
                            d
                        };
                        proof {
                            lemma_stack_shared(r, s, stack@, prev@, rest@, l as int, keep as int);
                        }
                        stack.truncate(keep + 1);
                        let res = extend_walk(r, s, &mut stack, rest);
                        if res {
                            assert(self.extends(r, s, prefix@, t as int));
                            return true;
                        }
                        blocked = true;
                        prev = rest;
                    }
                }
            }
            assert(!self.extends(r, s, prefix@, t as int));
            k = k + 1;
        }
        assert forall|t: int| 0 <= t < n implies !#[trigger] self.extends(r, s, prefix@, t) by {
            assert(listed(self.order@, t));
            let j = choose|j: int| 0 <= j < self.order@.len() && self.order@[j] == t;
            assert(!self.extends(r, s, prefix@, self.order@[j] as int));
        }
        false
    }

    /// Advances the recognizer from state `s` over the bytes of `toks`; `None`
    /// when some byte is not admissible.
    pub fn append_tokens<R: Recognizer>(&self, r: &R, s: usize, toks: &[TokenId]) -> (res: Option<
        usize,
    >)
        requires
            self.wf(),
            r.inv(),
            r.valid(s),
            self.all_valid(toks@),
        ensures
            res.is_some() == accepts(r, s, self.decode_spec(toks@)),
            res.is_some() ==> res.unwrap() == run(r, s, self.decode_spec(toks@)) && r.valid(
                res.unwrap(),
            ),
    {
        let bytes = self.decode(toks);
        walk_bytes(r, s, bytes.as_slice())
    }
}

} // verus!
