//! The serialized vocabulary, from which the trie is rebuilt on load.
//!
//! Layout, all integers little-endian u32: the magic; the number of ids `n`;
//! the longest byte string allowed; then for each id in order, the id, the
//! length of its byte string and the bytes; then the number of special
//! entries and, for each, its id and a one-byte kind (0 end of sentence,
//! 1 beginning of sentence, 2 padding). Nothing may follow.
use vstd::prelude::*;

use crate::recognizer::SpecialToken;
use crate::toktrie::{built_from, TokTrie, VocabError};

verus! {

/// The first four bytes of a serialized vocabulary, "TOKT".
pub const VOCAB_MAGIC: u32 = 0x544b4f54;

/// The little-endian u32 at offset `i`.
pub open spec fn u32_at(b: Seq<u8>, i: int) -> nat {
    b[i] as nat + 256 * (b[i + 1] as nat) + 65536 * (b[i + 2] as nat) + 16777216 * (b[i + 3] as nat)
}

pub open spec fn declared_count(b: Seq<u8>) -> nat {
    u32_at(b, 4)
}

pub open spec fn declared_max(b: Seq<u8>) -> nat {
    u32_at(b, 8)
}

/// A well-formed record for id `i` starts at `off`.
pub open spec fn record_fits(b: Seq<u8>, off: int, i: int) -> bool {
    &&& 0 <= off
    &&& off + 8 <= b.len()
    &&& u32_at(b, off) == i
    &&& u32_at(b, off + 4) <= declared_max(b)
    &&& off + 8 + u32_at(b, off + 4) <= b.len()
}

/// Where the record of id `i` starts, when the records before it are well formed.
pub open spec fn record_off(b: Seq<u8>, i: int) -> Option<int>
    decreases i,
{
    if i <= 0 {
        Some(12)
    } else {
        match record_off(b, i - 1) {
            Some(off) => if record_fits(b, off, i - 1) {
                Some(off + 8 + u32_at(b, off + 4))
            } else {
                None
            },
            None => None,
        }
    }
}

/// The byte string of the record at `off`.
pub open spec fn record_bytes(b: Seq<u8>, off: int) -> Seq<u8> {
    b.subrange(off + 8, off + 8 + u32_at(b, off + 4))
}

pub open spec fn specials_off(b: Seq<u8>) -> int {
    record_off(b, declared_count(b) as int).unwrap()
}

pub open spec fn special_count(b: Seq<u8>) -> nat {
    u32_at(b, specials_off(b))
}

/// Where special entry `j` starts.
pub open spec fn special_entry(b: Seq<u8>, j: int) -> int {
    specials_off(b) + 4 + 5 * j
}

pub open spec fn kind_code(c: u8) -> Option<SpecialToken> {
    if c == 0 {
        Some(SpecialToken::EndOfSentence)
    } else if c == 1 {
        Some(SpecialToken::BeginningOfSentence)
    } else if c == 2 {
        Some(SpecialToken::Padding)
    } else {
        None
    }
}

/// Special entry `j` names an id and a known kind.
pub open spec fn entry_ok(b: Seq<u8>, j: int) -> bool {
    &&& u32_at(b, special_entry(b, j)) < declared_count(b)
    &&& kind_code(b[special_entry(b, j) + 4]).is_some()
}

/// `b` follows the layout.
pub open spec fn format_ok(b: Seq<u8>) -> bool {
    &&& b.len() >= 12
    &&& u32_at(b, 0) == VOCAB_MAGIC
    &&& record_off(b, declared_count(b) as int).is_some()
    &&& specials_off(b) + 4 <= b.len()
    &&& b.len() == specials_off(b) + 4 + 5 * special_count(b)
    &&& forall|j: int| 0 <= j < special_count(b) ==> #[trigger] entry_ok(b, j)
}

/// The byte strings of a well-formed `b`, by id.
pub open spec fn file_tokens(b: Seq<u8>) -> Seq<Seq<u8>> {
    Seq::new(declared_count(b), |i: int| record_bytes(b, record_off(b, i).unwrap()))
}

/// The special tags after the first `j` special entries; a later entry for
/// the same id overrides an earlier one.
pub open spec fn file_kinds_upto(b: Seq<u8>, j: int) -> Seq<Option<SpecialToken>>
    decreases j,
{
    if j <= 0 {
        Seq::new(declared_count(b), |i: int| None)
    } else {
        let e = special_entry(b, j - 1);
        file_kinds_upto(b, j - 1).update(u32_at(b, e) as int, kind_code(b[e + 4]))
    }
}

pub open spec fn file_kinds(b: Seq<u8>) -> Seq<Option<SpecialToken>> {
    file_kinds_upto(b, special_count(b) as int)
}

proof fn lemma_record_off_none(b: Seq<u8>, i: int, m: int)
    requires
        0 <= i <= m,
        record_off(b, i).is_none(),
    ensures
        record_off(b, m).is_none(),
    decreases m - i,
{
    if i < m {
        lemma_record_off_none(b, i, m - 1);
    }
}

fn read_u32(b: &[u8], i: usize) -> (r: usize)
    requires
        i + 3 < b@.len(),
    ensures
        r == u32_at(b@, i as int),
        r <= u32::MAX,
{
    let x: u64 = b[i] as u64 + 256 * (b[i + 1] as u64) + 65536 * (b[i + 2] as u64) + 16777216 * (
    b[i + 3] as u64);
    x as usize
}

fn decode_kind(c: u8) -> (r: Option<SpecialToken>)
    ensures
        r == kind_code(c),
{
    if c == 0 {
        Some(SpecialToken::EndOfSentence)
    } else if c == 1 {
        Some(SpecialToken::BeginningOfSentence)
    } else if c == 2 {
        Some(SpecialToken::Padding)
    } else {
        None
    }
}

impl TokTrie {
    /// Rebuilds a vocabulary from its serialized form: `BadFormat` when the
    /// layout is not followed, and otherwise what [`TokTrie::from_tokens`]
    /// gives for the byte strings and special tags it holds.
    pub fn from_bytes(buf: &[u8]) -> (r: Result<TokTrie, VocabError>)
        ensures
            !format_ok(buf@) ==> r == Err::<TokTrie, VocabError>(VocabError::BadFormat),
            format_ok(buf@) ==> built_from(r, file_tokens(buf@), file_kinds(buf@)),
    {
        let len = buf.len();
        if len < 12 {
            return Err(VocabError::BadFormat);
        }
        if read_u32(buf, 0) != VOCAB_MAGIC as usize {
            return Err(VocabError::BadFormat);
        }
        let n = read_u32(buf, 4);
        let maxd = read_u32(buf, 8);
        let ghost b = buf@;
        let mut tokens: Vec<Vec<u8>> = Vec::new();
        let mut off: usize = 12;
        let mut i: usize = 0;
        while i < n
            invariant
                b == buf@,
                len == b.len(),
                n == declared_count(b),
                maxd == declared_max(b),
                i <= n,
                off <= len,
                record_off(b, i as int) == Some(off as int),
                tokens@.len() == i,
                forall|k: int|
                    0 <= k < i ==> (#[trigger] tokens@[k])@ == record_bytes(
                        b,
                        record_off(b, k).unwrap(),
                    ),
            decreases n - i,
        {
            if len - off < 8 {
                proof {
                    lemma_record_off_none(b, i + 1, n as int);
                }
                return Err(VocabError::BadFormat);
            }
            let id = read_u32(buf, off);
            let l = read_u32(buf, off + 4);
            if id != i || l > maxd || l > len - off - 8 {
                proof {
                    lemma_record_off_none(b, i + 1, n as int);
                }
                return Err(VocabError::BadFormat);
            }
            let mut t: Vec<u8> = Vec::new();
            let mut q: usize = 0;
            while q < l
                invariant
                    b == buf@,
                    len == b.len(),
                    off + 8 + l <= len,
                    q <= l,
                    t@ == b.subrange(off + 8, off + 8 + q),
                decreases l - q,
            {
                t.push(buf[off + 8 + q]);
                q = q + 1;
                assert(t@ =~= b.subrange(off + 8, off + 8 + q));
            }
            tokens.push(t);
            off = off + 8 + l;
            i = i + 1;
        }
        if len - off < 4 {
            return Err(VocabError::BadFormat);
        }
        let c = read_u32(buf, off);
        let rest = len - off - 4;
        if rest % 5 != 0 || rest / 5 != c {
            return Err(VocabError::BadFormat);
        }
        let mut kinds: Vec<Option<SpecialToken>> = Vec::new();
        while kinds.len() < n
            invariant
                kinds@.len() <= n,
                forall|k: int| 0 <= k < kinds@.len() ==> kinds@[k].is_none(),
            decreases n - kinds@.len(),
        {
            kinds.push(None);
        }
        assert(kinds@ =~= file_kinds_upto(b, 0));
        let mut j: usize = 0;
        let mut e: usize = off + 4;
        while j < c
            invariant
                b == buf@,
                len == b.len(),
                n == declared_count(b),
                off as int == specials_off(b),
                c == special_count(b),
                j <= c,
                e == special_entry(b, j as int),
                e + 5 * (c - j) == len,
                kinds@ == file_kinds_upto(b, j as int),
                kinds@.len() == n,
                forall|k: int| 0 <= k < j ==> #[trigger] entry_ok(b, k),
            decreases c - j,
        {
            let id = read_u32(buf, e);
            let kind = decode_kind(buf[e + 4]);
            if id >= n || kind.is_none() {
                assert(!entry_ok(b, j as int));
                return Err(VocabError::BadFormat);
            }
            kinds.set(id, kind);
            j = j + 1;
            e = e + 5;
        }
        let ghost toks = Seq::new(tokens@.len(), |t: int| tokens@[t]@);
        assert(toks =~= file_tokens(b));
        TokTrie::from_tokens(tokens, kinds)
    }
}

} // verus!
