use aici_core::parser::{Grammar, Parser};
use aici_core::recognizer::{walk_bytes, SpecialToken};
use aici_core::toktrie::{TokTrie, VocabError};
use aici_core::tokset::TokenSet;
use aici_core::uppercase::QuadUpper;

fn words() -> Vec<&'static str> {
    vec![
        "a", "ab", "abc", "abcd", "b", "ba", "", "A", "AB", "ABc", "ABCD", "ABCDE", "Ab", "xyz",
        "AbcD", "AbcdE", "AbcdEf", "Q", "QQQQ", "QQQQQ", "aBCD", "HELLO", "Hello", "H", "He",
    ]
}

fn trie_of(ws: &[&str]) -> TokTrie {
    let mut toks: Vec<Vec<u8>> = ws.iter().map(|w| w.as_bytes().to_vec()).collect();
    let mut kinds: Vec<Option<SpecialToken>> = vec![None; ws.len()];
    toks.push(b"<pad>".to_vec());
    kinds.push(Some(SpecialToken::Padding));
    toks.push(b"</s>".to_vec());
    kinds.push(Some(SpecialToken::EndOfSentence));
    TokTrie::from_tokens(toks, kinds).unwrap()
}

#[test]
fn bias_matches_per_token_walk() {
    let ws = words();
    let trie = trie_of(&ws);
    for state in 0..8usize {
        let mut set = trie.alloc_token_set();
        trie.compute_bias(&QuadUpper {}, state, &mut set);
        for (t, w) in ws.iter().enumerate() {
            let expect = walk_bytes(&QuadUpper {}, state, w.as_bytes()).is_some();
            assert_eq!(set.is_allowed(t as u32), expect, "state {} token {:?}", state, w);
        }
        // special tokens are never admitted by this recognizer
        assert!(!set.is_allowed(ws.len() as u32));
        assert!(!set.is_allowed(ws.len() as u32 + 1));
    }
}

#[test]
fn bias_overwrites_previous_contents() {
    let ws = words();
    let trie = trie_of(&ws);
    let mut set = trie.alloc_token_set();
    for t in 0..set.len() as u32 {
        set.allow_token(t);
    }
    trie.compute_bias(&QuadUpper {}, 0, &mut set);
    assert!(!set.is_allowed(0)); // "a"
    assert!(set.is_allowed(7)); // "A"
    assert!(set.is_allowed(6)); // the empty token
}

#[test]
fn bias_with_grammar_admits_eos_where_input_may_end() {
    let ws = ["a", "b", "ab", "ba"];
    let trie = trie_of(&ws);
    let mut g = Grammar::new(2).unwrap();
    assert!(g.add_edge(0, b'a', 1));
    assert!(g.add_edge(1, b'b', 0));
    assert!(g.set_final(0, true));
    let p = Parser::new(g.clone());
    let mut set = trie.alloc_token_set();
    trie.compute_bias(&g, p.state(), &mut set);
    let got: Vec<u32> = (0..set.len() as u32).filter(|t| set.is_allowed(*t)).collect();
    // "a", "ab", and end of sentence; padding stays out
    assert_eq!(got, vec![0, 2, 5]);
    let mut set1 = trie.alloc_token_set();
    trie.compute_bias(&g, 1, &mut set1);
    let got1: Vec<u32> = (0..set1.len() as u32).filter(|t| set1.is_allowed(*t)).collect();
    assert_eq!(got1, vec![1, 3]);
}

#[test]
fn append_tokens_advances_state() {
    let ws = ["He", "llo", "HE"];
    let trie = trie_of(&ws);
    assert_eq!(trie.append_tokens(&QuadUpper {}, 0, &[0, 2]), Some(4));
    // the "o" of "Hello" falls on a position divisible by four
    assert_eq!(trie.append_tokens(&QuadUpper {}, 0, &[0, 1]), None);
    assert_eq!(trie.append_tokens(&QuadUpper {}, 1, &[1]), Some(4));
}

#[test]
fn mask_bytes_layout() {
    let mut s = TokenSet::new(11);
    s.allow_token(0);
    s.allow_token(3);
    s.allow_token(8);
    s.allow_token(10);
    assert_eq!(s.to_le_bytes(), vec![0b0000_1001, 0b0000_0101]);
    assert_eq!(TokenSet::new(0).to_le_bytes(), Vec::<u8>::new());
    assert_eq!(TokenSet::new(16).to_le_bytes(), vec![0, 0]);
}

fn put(out: &mut Vec<u8>, x: u32) {
    out.extend_from_slice(&x.to_le_bytes());
}

fn serialize(words: &[&[u8]], max: u32, specials: &[(u32, u8)]) -> Vec<u8> {
    let mut out = Vec::new();
    out.extend_from_slice(b"TOKT");
    put(&mut out, words.len() as u32);
    put(&mut out, max);
    for (i, w) in words.iter().enumerate() {
        put(&mut out, i as u32);
        put(&mut out, w.len() as u32);
        out.extend_from_slice(w);
    }
    put(&mut out, specials.len() as u32);
    for (id, k) in specials {
        put(&mut out, *id);
        out.push(*k);
    }
    out
}

#[test]
fn vocab_file_round_trip() {
    let buf = serialize(&[b"ab", b"c", b"", b"</s>"], 8, &[(3, 0), (2, 2)]);
    let trie = TokTrie::from_bytes(&buf).ok().unwrap();
    assert_eq!(trie.vocab_size(), 4);
    assert_eq!(trie.eos_token(), 3);
    assert_eq!(trie.token(0), &b"ab".to_vec());
    assert!(trie.token(3).is_empty());
    assert_eq!(trie.special_kind(2), Some(SpecialToken::Padding));
    assert_eq!(trie.special_kind(1), None);
    assert_eq!(trie.max_token_len(), 2);
}

#[test]
fn vocab_file_errors() {
    let good = serialize(&[b"ab", b"</s>"], 8, &[(1, 0)]);
    assert!(TokTrie::from_bytes(&good).is_ok());
    let mut bad_magic = good.clone();
    bad_magic[0] = b'X';
    assert_eq!(TokTrie::from_bytes(&bad_magic).err(), Some(VocabError::BadFormat));
    let mut trailing = good.clone();
    trailing.push(0);
    assert_eq!(TokTrie::from_bytes(&trailing).err(), Some(VocabError::BadFormat));
    let too_long = serialize(&[b"abc", b"</s>"], 2, &[(1, 0)]);
    assert_eq!(TokTrie::from_bytes(&too_long).err(), Some(VocabError::BadFormat));
    let bad_kind = serialize(&[b"ab", b"</s>"], 8, &[(1, 7)]);
    assert_eq!(TokTrie::from_bytes(&bad_kind).err(), Some(VocabError::BadFormat));
    let bad_id = serialize(&[b"ab", b"</s>"], 8, &[(2, 0)]);
    assert_eq!(TokTrie::from_bytes(&bad_id).err(), Some(VocabError::BadFormat));
    let no_eos = serialize(&[b"ab", b"</s>"], 8, &[(1, 1)]);
    assert_eq!(TokTrie::from_bytes(&no_eos).err(), Some(VocabError::NoEndOfSentence));
    let mut out_of_order = serialize(&[b"ab", b"</s>"], 8, &[(1, 0)]);
    out_of_order[12] = 5;
    assert_eq!(TokTrie::from_bytes(&out_of_order).err(), Some(VocabError::BadFormat));
    assert_eq!(TokTrie::from_bytes(b"TOKT").err(), Some(VocabError::BadFormat));
}

#[test]
fn bias_ext_and_extensions_match_brute_force() {
    let ws = words();
    let trie = trie_of(&ws);
    let starts: [&[u8]; 6] = [b"", b"A", b"Ab", b"AB", b"Q", b"zz"];
    for start in starts.iter() {
        for state in 0..4usize {
            let mut set = trie.alloc_token_set();
            trie.compute_bias_ext(&QuadUpper {}, state, &mut set, start);
            let mut any_ext = false;
            for (t, w) in ws.iter().enumerate() {
                let b = w.as_bytes();
                // shorter than the pending bytes: a prefix of them; else it
                // covers them and the recognizer takes the rest
                let fits = if b.len() < start.len() {
                    start.starts_with(b)
                } else {
                    b.starts_with(start)
                        && walk_bytes(&QuadUpper {}, state, &b[start.len()..]).is_some()
                };
                assert_eq!(set.is_allowed(t as u32), fits, "start {:?} state {} token {:?}", start, state, w);
                if fits && b.len() > start.len() {
                    any_ext = true;
                }
            }
            assert_eq!(trie.has_valid_extensions(&QuadUpper {}, state, start), any_ext);
        }
    }
}
