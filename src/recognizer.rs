//! Byte-level recognizers: a state machine over bytes plus a gate for special tokens.
use vstd::prelude::*;

verus! {

/// The kinds of special vocabulary entries.
#[derive(Clone, Copy, Debug, PartialEq, Eq, Structural)]
pub enum SpecialToken {
    EndOfSentence,
    BeginningOfSentence,
    Padding,
}

/// A functional recognizer: states are plain numbers, and a byte either is
/// admissible in a state (and then leads to the next one) or is not.
pub trait Recognizer {
    /// The recognizer's own well-formedness.
    spec fn inv(&self) -> bool;

    /// The states the recognizer can be in.
    spec fn valid(&self, s: usize) -> bool;

    /// Byte `b` may follow in state `s`.
    spec fn allows(&self, s: usize, b: u8) -> bool;

    /// The state after `b` in state `s`.
    spec fn next(&self, s: usize, b: u8) -> usize;

    /// The special token of kind `t` may follow in state `s`.
    spec fn allows_special(&self, s: usize, t: SpecialToken) -> bool;

    proof fn lemma_next_valid(&self, s: usize, b: u8)
        requires
            self.inv(),
            self.valid(s),
            self.allows(s, b),
        ensures
            self.valid(self.next(s, b)),
    ;

    fn byte_allowed(&self, s: usize, b: u8) -> (r: bool)
        requires
            self.inv(),
            self.valid(s),
        ensures
            r == self.allows(s, b),
    ;

    fn append(&self, s: usize, b: u8) -> (r: usize)
        requires
            self.inv(),
            self.valid(s),
            self.allows(s, b),
        ensures
            r == self.next(s, b),
    ;

    fn special_allowed(&self, s: usize, t: SpecialToken) -> (r: bool)
        requires
            self.inv(),
            self.valid(s),
        ensures
            r == self.allows_special(s, t),
    ;
}

/// The state reached from `s` after the bytes `b`.
pub open spec fn run<R: Recognizer>(r: &R, s: usize, b: Seq<u8>) -> usize
    decreases b.len(),
{
    if b.len() == 0 {
        s
    } else {
        r.next(run(r, s, b.drop_last()), b.last())
    }
}

/// Every byte of `b` is admissible, starting from state `s`.
pub open spec fn accepts<R: Recognizer>(r: &R, s: usize, b: Seq<u8>) -> bool
    decreases b.len(),
{
    if b.len() == 0 {
        true
    } else {
        accepts(r, s, b.drop_last()) && r.allows(run(r, s, b.drop_last()), b.last())
    }
}

/// What is accepted stays accepted when cut short, and leads to a valid state.
pub proof fn lemma_accepts_prefix<R: Recognizer>(r: &R, s: usize, b: Seq<u8>, i: int)
    requires
        r.inv(),
        r.valid(s),
        accepts(r, s, b),
        0 <= i <= b.len(),
    ensures
        accepts(r, s, b.subrange(0, i)),
        r.valid(run(r, s, b.subrange(0, i))),
    decreases b.len(),
{
    if b.len() == 0 {
        assert(b.subrange(0, i) =~= b);
    } else if i == b.len() {
        assert(b.subrange(0, i) =~= b);
        lemma_accepts_prefix(r, s, b.drop_last(), i - 1);
        assert(b.drop_last().subrange(0, i - 1) =~= b.drop_last());
        r.lemma_next_valid(run(r, s, b.drop_last()), b.last());
    } else {
        lemma_accepts_prefix(r, s, b.drop_last(), i);
        assert(b.drop_last().subrange(0, i) =~= b.subrange(0, i));
    }
}

/// Walks `b` from state `s`: the state reached when every byte is admissible.
pub fn walk_bytes<R: Recognizer>(r: &R, s: usize, b: &[u8]) -> (res: Option<usize>)
    requires
        r.inv(),
        r.valid(s),
    ensures
        res.is_some() == accepts(r, s, b@),
        res.is_some() ==> res.unwrap() == run(r, s, b@) && r.valid(res.unwrap()),
{
    let mut cur = s;
    let mut i: usize = 0;
    while i < b.len()
        invariant
            r.inv(),
            r.valid(s),
            i <= b@.len(),
            r.valid(cur),
            accepts(r, s, b@.subrange(0, i as int)),
            cur == run(r, s, b@.subrange(0, i as int)),
        decreases b@.len() - i,
    {
        assert(b@.subrange(0, i + 1).drop_last() =~= b@.subrange(0, i as int));
        if !r.byte_allowed(cur, b[i]) {
            proof {
                if accepts(r, s, b@) {
                    lemma_accepts_prefix(r, s, b@, i + 1);
                }
            }
            return None;
        }
        proof {
            r.lemma_next_valid(cur, b@[i as int]);
        }
        cur = r.append(cur, b[i]);
        i = i + 1;
    }
    assert(b@.subrange(0, b@.len() as int) =~= b@);
    Some(cur)
}

} // verus!
