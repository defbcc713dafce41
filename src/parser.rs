//! A compiled grammar (a deterministic byte automaton) and the incremental
//! parser that keeps one row per consumed byte.
use vstd::prelude::*;

use crate::recognizer::{accepts, lemma_accepts_prefix, run, Recognizer, SpecialToken};
use crate::toktrie::TokTrie;
use crate::TokenId;

verus! {

/// The target of the last edge labelled `b` in `es`.
pub open spec fn edge_lookup(es: Seq<(u8, usize)>, b: u8) -> Option<usize>
    decreases es.len(),
{
    if es.len() == 0 {
        None
    } else if es.last().0 == b {
        Some(es.last().1)
    } else {
        edge_lookup(es.drop_last(), b)
    }
}

fn copy_edges(v: &Vec<(u8, usize)>) -> (r: Vec<(u8, usize)>)
    ensures
        r@ == v@,
{
    let mut r: Vec<(u8, usize)> = Vec::new();
    let mut i: usize = 0;
    while i < v.len()
        invariant
            i <= v@.len(),
            r@ == v@.subrange(0, i as int),
        decreases v@.len() - i,
    {
        r.push(v[i]);
        i = i + 1;
        assert(r@ =~= v@.subrange(0, i as int));
    }
    assert(v@.subrange(0, v@.len() as int) =~= v@);
    r
}

/// A compiled grammar: states `0..n`, start state 0, byte-labelled edges and
/// accepting states (where the start symbol can be completed).
#[derive(Clone)]
pub struct Grammar {
    accepting: Vec<bool>,
    edges: Vec<Vec<(u8, usize)>>,
}

impl Grammar {
    pub closed spec fn n_states(&self) -> nat {
        self.edges@.len()
    }

    /// The state reached from `s` on byte `b`, if any.
    pub closed spec fn step(&self, s: usize, b: u8) -> Option<usize> {
        edge_lookup(self.edges@[s as int]@, b)
    }

    /// Input may end in state `s`.
    pub closed spec fn is_final(&self, s: usize) -> bool {
        self.accepting@[s as int]
    }

    pub closed spec fn wf(&self) -> bool {
        &&& self.edges@.len() >= 1
        &&& self.accepting@.len() == self.edges@.len()
        &&& forall|s: int, k: int|
            0 <= s < self.edges@.len() && 0 <= k < self.edges@[s]@.len() ==> (
            #[trigger] self.edges@[s]@[k]).1 < self.edges@.len()
    }

    proof fn lemma_lookup_in_range(es: Seq<(u8, usize)>, b: u8, n: nat)
        requires
            forall|k: int| 0 <= k < es.len() ==> (#[trigger] es[k]).1 < n,
        ensures
            edge_lookup(es, b).is_some() ==> edge_lookup(es, b).unwrap() < n,
        decreases es.len(),
    {
        if es.len() > 0 {
            Self::lemma_lookup_in_range(es.drop_last(), b, n);
        }
    }

    /// Every edge of a well-formed grammar leads to a state of it.
    pub proof fn lemma_step_in_range(&self, s: usize, b: u8)
        requires
            self.wf(),
            s < self.n_states(),
        ensures
            self.step(s, b).is_some() ==> self.step(s, b).unwrap() < self.n_states(),
    {
        let es = self.edges@[s as int]@;
        assert forall|k: int| 0 <= k < es.len() implies (#[trigger] es[k]).1 < self.edges@.len() by {
            assert(self.edges@[s as int]@[k] == es[k]);
        }
        Self::lemma_lookup_in_range(es, b, self.edges@.len());
    }

    /// A grammar with `num_states` states, no edges and no accepting state;
    /// `None` when `num_states` is zero.
    pub fn new(num_states: usize) -> (r: Option<Grammar>)
        ensures
            num_states == 0 <==> r.is_none(),
            r.is_some() ==> {
                let g = r.unwrap();
                &&& g.wf()
                &&& g.n_states() == num_states
                &&& forall|s: usize, b: u8| s < num_states ==> #[trigger] g.step(s, b).is_none()
                &&& forall|s: usize| s < num_states ==> !#[trigger] g.is_final(s)
            },
    {
        if num_states == 0 {
            return None;
        }
        let mut accepting: Vec<bool> = Vec::new();
        let mut edges: Vec<Vec<(u8, usize)>> = Vec::new();
        let mut i: usize = 0;
        while i < num_states
            invariant
                i <= num_states,
                accepting@.len() == i,
                edges@.len() == i,
                forall|s: int| 0 <= s < i ==> !accepting@[s],
                forall|s: int| 0 <= s < i ==> (#[trigger] edges@[s])@.len() == 0,
            decreases num_states - i,
        {
            accepting.push(false);
            edges.push(Vec::new());
            i = i + 1;
        }
        Some(Grammar { accepting, edges })
    }

    /// Number of states.
    pub fn num_states(&self) -> (r: usize)
        ensures
            r == self.n_states(),
    {
        self.edges.len()
    }

    /// Marks state `s` as accepting or not; `false` when there is no such state.
    pub fn set_final(&mut self, s: usize, v: bool) -> (ok: bool)
        requires
            old(self).wf(),
        ensures
            final(self).wf(),
            ok == (s < old(self).n_states()),
            final(self).n_states() == old(self).n_states(),
            forall|q: usize, b: u8| #[trigger] final(self).step(q, b) == old(self).step(q, b),
            forall|q: usize|
                q < old(self).n_states() ==> #[trigger] final(self).is_final(q) == if ok && q
                    == s {
                    v
                } else {
                    old(self).is_final(q)
                },
    {
        if s >= self.accepting.len() {
            return false;
        }
        self.accepting.set(s, v);
        true
    }

    /// Adds the edge `from --b--> to`; `false`, with nothing changed, when a
    /// state is out of range or `from` already has an edge on `b`.
    pub fn add_edge(&mut self, from: usize, b: u8, to: usize) -> (ok: bool)
        requires
            old(self).wf(),
        ensures
            final(self).wf(),
            ok == (from < old(self).n_states() && to < old(self).n_states() && old(self).step(
                from,
                b,
            ).is_none()),
            final(self).n_states() == old(self).n_states(),
            forall|q: usize| #[trigger] final(self).is_final(q) == old(self).is_final(q),
            forall|q: usize, c: u8|
                q < old(self).n_states() ==> #[trigger] final(self).step(q, c) == if ok && q
                    == from && c == b {
                    Some(to)
                } else {
                    old(self).step(q, c)
                },
    {
        let n = self.edges.len();
        if from >= n || to >= n {
            return false;
        }
        if self.lookup(from, b).is_some() {
            return false;
        }
        let ghost before = *self;
        let mut row = copy_edges(&self.edges[from]);
        row.push((b, to));
        self.edges.set(from, row);
        assert forall|q: usize, c: u8| q < n implies #[trigger] self.step(q, c) == if q == from
            && c == b {
            Some(to)
        } else {
            before.step(q, c)
        } by {
            if q == from {
                assert(self.edges@[q as int]@.drop_last() =~= before.edges@[q as int]@);
            }
        }
        assert forall|s: int, k: int|
            0 <= s < self.edges@.len() && 0 <= k < self.edges@[s]@.len() implies (
            #[trigger] self.edges@[s]@[k]).1 < self.edges@.len() by {
            if s != from {
                assert(self.edges@[s] == before.edges@[s]);
            } else if k < before.edges@[s]@.len() {
                assert(self.edges@[s]@[k] == before.edges@[s]@[k]);
            }
        }
        true
    }

    /// The state reached from `s` on byte `b`, if any.
    pub fn lookup(&self, s: usize, b: u8) -> (r: Option<usize>)
        requires
            self.wf(),
            s < self.n_states(),
        ensures
            r == self.step(s, b),
    {
        let es = &self.edges[s];
        let mut i: usize = es.len();
        assert(es@.subrange(0, i as int) =~= es@);
        while i > 0
            invariant
                i <= es@.len(),
                es@ == self.edges@[s as int]@,
                edge_lookup(es@, b) == edge_lookup(es@.subrange(0, i as int), b),
            decreases i,
        {
            assert(es@.subrange(0, i as int).drop_last() =~= es@.subrange(0, i - 1));
            if es[i - 1].0 == b {
                return Some(es[i - 1].1);
            }
            i = i - 1;
        }
        None
    }

    /// Whether input may end in state `s`.
    pub fn is_accepting(&self, s: usize) -> (r: bool)
        requires
            self.wf(),
            s < self.n_states(),
        ensures
            r == self.is_final(s),
    {
        self.accepting[s]
    }

    /// In state `s` input may not end and exactly one byte may follow: `b`.
    pub open spec fn forces(&self, s: usize, b: u8) -> bool {
        &&& !self.is_final(s)
        &&& self.step(s, b).is_some()
        &&& forall|c: u8| c != b ==> (#[trigger] self.step(s, c)).is_none()
    }

    /// The byte that state `s` forces, if any.
    pub fn forced_byte(&self, s: usize) -> (r: Option<u8>)
        requires
            self.wf(),
            s < self.n_states(),
        ensures
            r.is_some() ==> self.forces(s, r.unwrap()),
            r.is_none() ==> forall|b: u8| !self.forces(s, b),
    {
        if self.accepting[s] {
            return None;
        }
        let mut found: Option<u8> = None;
        let mut c: u16 = 0;
        while c < 256
            invariant
                self.wf(),
                s < self.n_states(),
                c <= 256,
                found.is_some() ==> found.unwrap() < c && self.step(s, found.unwrap()).is_some(),
                forall|d: u8|
                    d < c && self.step(s, d).is_some() ==> found == Some(d),
            decreases 256 - c,
        {
            let d = c as u8;
            if self.lookup(s, d).is_some() {
                if found.is_some() {
                    assert(!self.forces(s, found.unwrap()));
                    assert forall|b: u8| !self.forces(s, b) by {
                        if b != d {
                            assert(self.step(s, d).is_some());
                        } else {
                            assert(self.step(s, found.unwrap()).is_some());
                        }
                    }
                    return None;
                }
                found = Some(d);
            }
            c = c + 1;
        }
        found
    }
}

impl Recognizer for Grammar {
    open spec fn inv(&self) -> bool {
        self.wf()
    }

    open spec fn valid(&self, s: usize) -> bool {
        s < self.n_states()
    }

    open spec fn allows(&self, s: usize, b: u8) -> bool {
        self.step(s, b).is_some()
    }

    open spec fn next(&self, s: usize, b: u8) -> usize {
        self.step(s, b).unwrap()
    }

    /// Only end of sentence, and only where input may end.
    open spec fn allows_special(&self, s: usize, t: SpecialToken) -> bool {
        t == SpecialToken::EndOfSentence && self.is_final(s)
    }

    proof fn lemma_next_valid(&self, s: usize, b: u8) {
        self.lemma_step_in_range(s, b);
    }

    fn byte_allowed(&self, s: usize, b: u8) -> (r: bool) {
        self.lookup(s, b).is_some()
    }

    fn append(&self, s: usize, b: u8) -> (r: usize) {
        self.lookup(s, b).unwrap()
    }

    fn special_allowed(&self, s: usize, t: SpecialToken) -> (r: bool) {
        match t {
            SpecialToken::EndOfSentence => self.accepting[s],
            _ => false,
        }
    }
}

/// What scanning one byte did.
#[derive(Clone, Copy, Debug, PartialEq, Eq, Structural)]
pub enum ParseResult {
    /// The byte was taken.
    Accept,
    /// The byte was refused.
    Reject,
    /// The byte was refused, and the input may end here.
    EndOfInput,
}

/// Where feeding bytes to the parser stopped.
#[derive(Clone, Copy, Debug, PartialEq, Eq, Structural)]
pub struct Rejection {
    /// Offset of the refused byte.
    pub position: usize,
    /// The refused byte.
    pub byte: u8,
}

/// An incremental parser: row `i` is the grammar state after the first `i`
/// bytes.
#[derive(Clone)]
pub struct Parser {
    grammar: Grammar,
    rows: Vec<usize>,
    bytes: Vec<u8>,
}

impl Parser {
    pub closed spec fn grammar_spec(&self) -> Grammar {
        self.grammar
    }

    /// The bytes consumed so far.
    pub closed spec fn view(&self) -> Seq<u8> {
        self.bytes@
    }

    pub closed spec fn wf(&self) -> bool {
        &&& self.grammar.wf()
        &&& self.rows@.len() == self.bytes@.len() + 1
        &&& forall|i: int|
            0 <= i <= self.bytes@.len() ==> {
                &&& accepts(&self.grammar, 0, #[trigger] self.bytes@.subrange(0, i))
                &&& self.rows@[i] == run(&self.grammar, 0, self.bytes@.subrange(0, i))
            }
    }

    /// The current grammar state.
    pub open spec fn state_spec(&self) -> usize {
        run(&self.grammar_spec(), 0, self@)
    }

    /// What a well-formed parser holds: accepted bytes and a valid state.
    pub proof fn lemma_wf(&self)
        requires
            self.wf(),
        ensures
            self.grammar_spec().wf(),
            accepts(&self.grammar_spec(), 0, self@),
            self.state_spec() < self.grammar_spec().n_states(),
    {
        assert(self.bytes@.subrange(0, self.bytes@.len() as int) =~= self.bytes@);
        lemma_accepts_prefix(&self.grammar, 0, self.bytes@, self.bytes@.len() as int);
    }

    /// A parser at the start of the grammar.
    pub fn new(grammar: Grammar) -> (r: Parser)
        requires
            grammar.wf(),
        ensures
            r.wf(),
            r@.len() == 0,
            r.grammar_spec() == grammar,
    {
        let mut rows: Vec<usize> = Vec::new();
        rows.push(0);
        let r = Parser { grammar, rows, bytes: Vec::new() };
        assert(r.bytes@.subrange(0, 0) =~= Seq::<u8>::empty());
        r
    }

    /// The grammar.
    pub fn grammar(&self) -> (r: &Grammar)
        ensures
            *r == self.grammar_spec(),
    {
        &self.grammar
    }

    /// The current grammar state.
    pub fn state(&self) -> (r: usize)
        requires
            self.wf(),
        ensures
            r == self.state_spec(),
    {
        assert(self.bytes@.subrange(0, self.bytes@.len() as int) =~= self.bytes@);
        self.rows[self.rows.len() - 1]
    }

    /// Number of rows: one more than the bytes consumed.
    pub fn num_rows(&self) -> (r: usize)
        requires
            self.wf(),
        ensures
            r == self@.len() + 1,
    {
        self.rows.len()
    }

    /// The bytes consumed so far.
    pub fn get_bytes(&self) -> (r: Vec<u8>)
        ensures
            r@ == self@,
    {
        self.bytes.clone()
    }

    /// Takes byte `b` when the grammar admits it.
    pub fn scan(&mut self, b: u8) -> (r: ParseResult)
        requires
            old(self).wf(),
        ensures
            final(self).wf(),
            final(self).grammar_spec() == old(self).grammar_spec(),
            (r == ParseResult::Accept) == old(self).grammar_spec().step(old(self).state_spec(), b).is_some(),
            r == ParseResult::Accept ==> final(self)@ == old(self)@.push(b),
            r != ParseResult::Accept ==> final(self)@ == old(self)@,
            r == ParseResult::EndOfInput <==> (r != ParseResult::Accept && old(
                self,
            ).grammar_spec().is_final(old(self).state_spec())),
    {
        proof {
            self.lemma_wf();
        }
        let s = self.state();
        match self.grammar.lookup(s, b) {
            Some(t) => {
                let ghost before = *self;
                self.bytes.push(b);
                self.rows.push(t);
                assert forall|i: int| 0 <= i <= self.bytes@.len() implies {
                    &&& accepts(&self.grammar, 0, #[trigger] self.bytes@.subrange(0, i))
                    &&& self.rows@[i] == run(&self.grammar, 0, self.bytes@.subrange(0, i))
                } by {
                    if i < self.bytes@.len() {
                        assert(self.bytes@.subrange(0, i) =~= before.bytes@.subrange(0, i));
                    } else {
                        assert(self.bytes@.subrange(0, i).drop_last() =~= before.bytes@);
                        assert(before.bytes@.subrange(0, before.bytes@.len() as int)
                            =~= before.bytes@);
                    }
                }
                ParseResult::Accept
            },
            None => {
                if self.grammar.is_accepting(s) {
                    ParseResult::EndOfInput
                } else {
                    ParseResult::Reject
                }
            },
        }
    }

    /// Drops the bytes after the first `k`.
    fn truncate(&mut self, k: usize)
        requires
            old(self).wf(),
            k <= old(self)@.len(),
        ensures
            final(self).wf(),
            final(self).grammar_spec() == old(self).grammar_spec(),
            final(self)@ == old(self)@.subrange(0, k as int),
    {
        let ghost before = *self;
        let nr = self.rows.len();
        self.bytes.truncate(k);
        self.rows.truncate(k + 1);
        assert forall|i: int| 0 <= i <= self.bytes@.len() implies {
            &&& accepts(&self.grammar, 0, #[trigger] self.bytes@.subrange(0, i))
            &&& self.rows@[i] == run(&self.grammar, 0, self.bytes@.subrange(0, i))
        } by {
            assert(self.bytes@.subrange(0, i) =~= before.bytes@.subrange(0, i));
        }
    }

    /// While the grammar forces a single byte, takes it. Returns the bytes so
    /// taken. Stops after as many bytes as the grammar has states, which only
    /// a cycle of forced bytes reaches.
    pub fn force_bytes(&mut self) -> (r: Vec<u8>)
        requires
            old(self).wf(),
        ensures
            final(self).wf(),
            final(self).grammar_spec() == old(self).grammar_spec(),
            final(self)@ == old(self)@ + r@,
            forall|i: int|
                0 <= i < r@.len() ==> old(self).grammar_spec().forces(
                    run(&old(self).grammar_spec(), 0, old(self)@ + r@.subrange(0, i)),
                    #[trigger] r@[i],
                ),
            r@.len() <= old(self).grammar_spec().n_states(),
            r@.len() < old(self).grammar_spec().n_states() ==> forall|b: u8|
                !old(self).grammar_spec().forces(
                    run(&old(self).grammar_spec(), 0, old(self)@ + r@),
                    b,
                ),
    {
        let ghost start = self@;
        let n = self.grammar.num_states();
        let mut out: Vec<u8> = Vec::new();
        while out.len() < n
            invariant
                self.wf(),
                self.grammar_spec() == old(self).grammar_spec(),
                n == self.grammar_spec().n_states(),
                start == old(self)@,
                self@ == start + out@,
                out@.len() <= n,
                forall|i: int|
                    0 <= i < out@.len() ==> self.grammar_spec().forces(
                        run(&self.grammar_spec(), 0, start + out@.subrange(0, i)),
                        #[trigger] out@[i],
                    ),
            decreases n - out@.len(),
        {
            proof {
                self.lemma_wf();
            }
            let s = self.state();
            match self.grammar.forced_byte(s) {
                None => {
                    return out;
                },
                Some(b) => {
                    let ghost prev = out@;
                    let res = self.scan(b);
                    out.push(b);
                    assert(prev =~= out@.subrange(0, prev.len() as int));
                    assert(self@ =~= start + out@);
                    assert forall|i: int| 0 <= i < out@.len() implies self.grammar_spec().forces(
                        run(&self.grammar_spec(), 0, start + out@.subrange(0, i)),
                        #[trigger] out@[i],
                    ) by {
                        if i < prev.len() {
                            assert(out@.subrange(0, i) =~= prev.subrange(0, i));
                        } else {
                            assert(out@.subrange(0, i) =~= prev);
                        }
                    }
                },
            }
        }
        out
    }

    /// Feeds the bytes of `toks` to the parser: the bytes already consumed
    /// that agree with them are kept, the rest is scanned. On success the
    /// parser holds exactly those bytes; otherwise it holds the longest
    /// accepted part, and the first refused byte is reported.
    pub fn apply_tokens(&mut self, trie: &TokTrie, toks: &[TokenId]) -> (r: Result<(), Rejection>)
        requires
            old(self).wf(),
            trie.all_valid(toks@),
        ensures
            final(self).wf(),
            final(self).grammar_spec() == old(self).grammar_spec(),
            r.is_ok() == accepts(&old(self).grammar_spec(), 0, trie.decode_spec(toks@)),
            r.is_ok() ==> final(self)@ == trie.decode_spec(toks@),
            r.is_err() ==> {
                let d = trie.decode_spec(toks@);
                let p = r.unwrap_err().position as int;
                &&& p < d.len()
                &&& r.unwrap_err().byte == d[p]
                &&& final(self)@ == d.subrange(0, p)
                &&& old(self).grammar_spec().step(final(self).state_spec(), d[p]).is_none()
            },
    {
        let d = trie.decode(toks);
        let mut p: usize = 0;
        while p < d.len() && p < self.bytes.len() && d[p] == self.bytes[p]
            invariant
                p <= d@.len(),
                p <= self.bytes@.len(),
                d@.subrange(0, p as int) == self.bytes@.subrange(0, p as int),
            decreases d@.len() - p,
        {
            assert(d@.subrange(0, p + 1) =~= self.bytes@.subrange(0, p + 1));
            p = p + 1;
        }
        self.truncate(p);
        while p < d.len()
            invariant
                self.wf(),
                self.grammar_spec() == old(self).grammar_spec(),
                d@ == trie.decode_spec(toks@),
                p <= d@.len(),
                self@ == d@.subrange(0, p as int),
            decreases d@.len() - p,
        {
            let res = self.scan(d[p]);
            if res != ParseResult::Accept {
                proof {
                    if accepts(&self.grammar, 0, d@) {
                        lemma_accepts_prefix(&self.grammar, 0, d@, p + 1);
                        assert(d@.subrange(0, p + 1).drop_last() =~= d@.subrange(0, p as int));
                    }
                }
                return Err(Rejection { position: p, byte: d[p] });
            }
            p = p + 1;
            assert(self@ =~= d@.subrange(0, p as int));
        }
        proof {
            self.lemma_wf();
            assert(d@.subrange(0, p as int) =~= d@);
        }
        Ok(())
    }
}

} // verus!

verus! {

/// Why a serialized grammar was refused.
#[derive(Clone, Copy, Debug, PartialEq, Eq, Structural)]
pub enum GrammarError {
    /// The header or the length does not fit the layout.
    Malformed,
    /// An accepting flag is neither 0 nor 1.
    BadFlag,
    /// An edge names a state that does not exist.
    StateOutOfRange,
    /// Two edges leave one state on one byte.
    DuplicateEdge,
}

// Serialized grammar layout: the number of states `n` as a little-endian u16,
// then one accepting flag (0 or 1) per state, then 5-byte edges: source
// state (u16 LE), byte, target state (u16 LE). State 0 is the start.

/// The little-endian u16 at offset `i`.
pub open spec fn u16_at(b: Seq<u8>, i: int) -> nat {
    b[i] as nat + 256 * (b[i + 1] as nat)
}

pub open spec fn header_states(b: Seq<u8>) -> nat {
    u16_at(b, 0)
}

pub open spec fn layout_ok(b: Seq<u8>) -> bool {
    &&& b.len() >= 2
    &&& header_states(b) >= 1
    &&& b.len() >= 2 + header_states(b)
    &&& (b.len() - 2 - header_states(b)) % 5 == 0
}

pub open spec fn num_edges(b: Seq<u8>) -> nat {
    ((b.len() - 2 - header_states(b)) / 5) as nat
}

pub open spec fn edge_off(b: Seq<u8>, i: int) -> int {
    2 + header_states(b) + 5 * i
}

pub open spec fn edge_from(b: Seq<u8>, i: int) -> nat {
    u16_at(b, edge_off(b, i))
}

pub open spec fn edge_byte(b: Seq<u8>, i: int) -> u8 {
    b[edge_off(b, i) + 2]
}

pub open spec fn edge_to(b: Seq<u8>, i: int) -> nat {
    u16_at(b, edge_off(b, i) + 3)
}

pub open spec fn flags_ok(b: Seq<u8>) -> bool {
    forall|i: int| 0 <= i < header_states(b) ==> #[trigger] b[2 + i] <= 1
}

/// The target of the last of the first `k` edges that leaves `s` on `c`.
pub open spec fn edges_lookup(b: Seq<u8>, k: int, s: nat, c: u8) -> Option<usize>
    decreases k,
{
    if k <= 0 {
        None
    } else if edge_from(b, k - 1) == s && edge_byte(b, k - 1) == c {
        Some(edge_to(b, k - 1) as usize)
    } else {
        edges_lookup(b, k - 1, s, c)
    }
}

/// The first fault among the first `k` edges.
pub open spec fn edges_error(b: Seq<u8>, k: int) -> Option<GrammarError>
    decreases k,
{
    if k <= 0 {
        None
    } else {
        match edges_error(b, k - 1) {
            Some(e) => Some(e),
            None => if edge_from(b, k - 1) >= header_states(b) || edge_to(b, k - 1)
                >= header_states(b) {
                Some(GrammarError::StateOutOfRange)
            } else if edges_lookup(b, k - 1, edge_from(b, k - 1), edge_byte(b, k - 1)).is_some() {
                Some(GrammarError::DuplicateEdge)
            } else {
                None
            },
        }
    }
}

proof fn lemma_edges_error_stays(b: Seq<u8>, k: int, m: int)
    requires
        0 <= k <= m,
        edges_error(b, k).is_some(),
    ensures
        edges_error(b, m) == edges_error(b, k),
    decreases m - k,
{
    if k < m {
        lemma_edges_error_stays(b, k, m - 1);
    }
}

/// The first fault of a serialized grammar, checked in layout order.
pub open spec fn grammar_error(b: Seq<u8>) -> Option<GrammarError> {
    if !layout_ok(b) {
        Some(GrammarError::Malformed)
    } else if !flags_ok(b) {
        Some(GrammarError::BadFlag)
    } else {
        edges_error(b, num_edges(b) as int)
    }
}

fn read_u16(b: &[u8], i: usize) -> (r: usize)
    requires
        i + 1 < b@.len(),
    ensures
        r == u16_at(b@, i as int),
        r < 65536,
{
    b[i] as usize + 256 * (b[i + 1] as usize)
}

impl Grammar {
    /// This grammar is the one that `b` serializes.
    pub open spec fn decodes(&self, b: Seq<u8>) -> bool {
        &&& self.wf()
        &&& self.n_states() == header_states(b)
        &&& forall|s: usize| s < self.n_states() ==> #[trigger] self.is_final(s) == (b[2 + s] == 1)
        &&& forall|s: usize, c: u8|
            s < self.n_states() ==> #[trigger] self.step(s, c) == edges_lookup(
                b,
                num_edges(b) as int,
                s as nat,
                c,
            )
    }

    /// Reads a serialized grammar: the first fault in layout order is
    /// reported; otherwise the grammar has the states, accepting flags and
    /// edges written.
    pub fn from_bytes(buf: &[u8]) -> (r: Result<Grammar, GrammarError>)
        ensures
            r.is_err() <==> grammar_error(buf@).is_some(),
            r.is_err() ==> r == Err::<Grammar, GrammarError>(grammar_error(buf@).unwrap()),
            r.is_ok() ==> r.unwrap().decodes(buf@),
    {
        let len = buf.len();
        if len < 2 {
            return Err(GrammarError::Malformed);
        }
        let n = read_u16(buf, 0);
        if n == 0 || len < 2 + n || (len - 2 - n) % 5 != 0 {
            return Err(GrammarError::Malformed);
        }
        let mut g = match Grammar::new(n) {
            Some(g) => g,
            None => {
                return Err(GrammarError::Malformed);
            },
        };
        let mut i: usize = 0;
        while i < n
            invariant
                layout_ok(buf@),
                n == header_states(buf@),
                len == buf@.len(),
                g.wf(),
                g.n_states() == n,
                i <= n,
                forall|s: usize, c: u8| s < n ==> #[trigger] g.step(s, c).is_none(),
                forall|s: int| 0 <= s < i ==> #[trigger] buf@[2 + s] <= 1,
                forall|s: usize| s < i ==> #[trigger] g.is_final(s) == (buf@[2 + s] == 1),
            decreases n - i,
        {
            let f = buf[2 + i];
            if f > 1 {
                return Err(GrammarError::BadFlag);
            }
            g.set_final(i, f == 1);
            i = i + 1;
        }
        let mut k: usize = 0;
        let mut off: usize = 2 + n;
        let ghost ne = num_edges(buf@) as int;
        assert(ne * 5 == len - 2 - n);
        while off < len
            invariant
                layout_ok(buf@),
                flags_ok(buf@),
                n == header_states(buf@),
                len == buf@.len(),
                ne == num_edges(buf@),
                ne * 5 == len - 2 - n,
                g.wf(),
                g.n_states() == n,
                k <= ne,
                off == edge_off(buf@, k as int),
                off <= len,
                edges_error(buf@, k as int).is_none(),
                forall|s: usize| s < n ==> #[trigger] g.is_final(s) == (buf@[2 + s] == 1),
                forall|s: usize, c: u8|
                    s < n ==> #[trigger] g.step(s, c) == edges_lookup(buf@, k as int, s as nat, c),
            decreases len - off,
        {
            assert(k < ne);
            let from = read_u16(buf, off);
            let c = buf[off + 2];
            let to = read_u16(buf, off + 3);
            assert(from == edge_from(buf@, k as int) && c == edge_byte(buf@, k as int) && to
                == edge_to(buf@, k as int));
            if from >= n || to >= n {
                proof {
                    lemma_edges_error_stays(buf@, k + 1, ne);
                }
                return Err(GrammarError::StateOutOfRange);
            }
            if !g.add_edge(from, c, to) {
                proof {
                    lemma_edges_error_stays(buf@, k + 1, ne);
                }
                return Err(GrammarError::DuplicateEdge);
            }
            k = k + 1;
            off = off + 5;
        }
        assert(k == ne);
        Ok(g)
    }
}

} // verus!
