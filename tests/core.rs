use aici_core::abi::{
    AiciVm, InitPromptArg, InitPromptResult, MidProcessArg, MidProcessResult, PostProcessArg,
    PostProcessResult, PreProcessArg, PreProcessResult, SeqId,
};
use aici_core::parser::{Grammar, GrammarError, ParseResult, Parser};
use aici_core::recognizer::{walk_bytes, SpecialToken};
use aici_core::tokenparser::{resolve_forced, TokenParser, TokenizerEnv};
use aici_core::toktrie::{TokTrie, VocabError};
use aici_core::tokset::TokenSet;
use aici_core::uppercase::{QuadUpper, Runner};
use aici_core::TokenId;

/// Greedy longest-match tokenizer over a fixed vocabulary.
#[derive(Clone)]
struct Greedy {
    vocab: Vec<Vec<u8>>,
}

impl TokenizerEnv for Greedy {
    fn tokenize_bytes(&self, s: &[u8]) -> Vec<TokenId> {
        let mut out = Vec::new();
        let mut i = 0;
        while i < s.len() {
            let mut best: Option<(usize, usize)> = None;
            for (id, v) in self.vocab.iter().enumerate() {
                if !v.is_empty() && s[i..].starts_with(v) {
                    if best.map_or(true, |(_, l)| v.len() > l) {
                        best = Some((id, v.len()));
                    }
                }
            }
            let (id, l) = best.expect("byte not covered by the vocabulary");
            out.push(id as TokenId);
            i += l;
        }
        out
    }
}

fn vocab(words: &[&str]) -> (TokTrie, Greedy) {
    let mut toks: Vec<Vec<u8>> = words.iter().map(|w| w.as_bytes().to_vec()).collect();
    let mut kinds: Vec<Option<SpecialToken>> = vec![None; words.len()];
    toks.push(b"</s>".to_vec());
    kinds.push(Some(SpecialToken::EndOfSentence));
    let trie = TokTrie::from_tokens(toks.clone(), kinds).unwrap();
    let mut plain = toks;
    plain.pop();
    (trie, Greedy { vocab: plain })
}

fn id(words: &[&str], w: &str) -> TokenId {
    words.iter().position(|x| *x == w).unwrap() as TokenId
}

fn allowed(set: &TokenSet) -> Vec<TokenId> {
    (0..set.len() as u32).filter(|t| set.is_allowed(*t)).collect()
}

/// A grammar accepting exactly the literal `lit` followed by one byte of `tail`.
fn literal_grammar(lit: &[u8], tail: &[u8]) -> Grammar {
    let n = lit.len() + 2;
    let mut g = Grammar::new(n).unwrap();
    for (i, b) in lit.iter().enumerate() {
        assert!(g.add_edge(i, *b, i + 1));
    }
    for b in tail {
        assert!(g.add_edge(lit.len(), *b, lit.len() + 1));
    }
    assert!(g.set_final(lit.len() + 1, true));
    g
}

/// S -> "abc" S | empty
fn abc_grammar() -> Grammar {
    let mut g = Grammar::new(3).unwrap();
    assert!(g.add_edge(0, b'a', 1));
    assert!(g.add_edge(1, b'b', 2));
    assert!(g.add_edge(2, b'c', 0));
    assert!(g.set_final(0, true));
    g
}

fn mid(tokens: Vec<TokenId>) -> MidProcessArg {
    MidProcessArg { backtrack: 0, tokens, fork_group: vec![] }
}

#[test]
fn token_set_insert_remove_count() {
    let mut s = TokenSet::new(70);
    assert_eq!(s.len(), 70);
    assert_eq!(s.num_set(), 0);
    s.allow_token(0);
    s.allow_token(33);
    s.allow_token(69);
    assert!(s.is_allowed(33) && s.is_allowed(69) && !s.is_allowed(32));
    assert_eq!(s.num_set(), 3);
    s.disallow_token(33);
    assert!(!s.is_allowed(33));
    assert_eq!(allowed(&s), vec![0, 69]);
    assert_eq!(s.set_bits(), vec![0, 69]);
    assert!(TokenSet::new(5).set_bits().is_empty());
}

#[test]
fn token_set_union_intersect() {
    let mut a = TokenSet::new(40);
    let mut b = TokenSet::new(40);
    a.allow_token(1);
    a.allow_token(35);
    b.allow_token(35);
    b.allow_token(2);
    let mut u = a.clone();
    u.union_with(&b);
    assert_eq!(allowed(&u), vec![1, 2, 35]);
    a.intersect_with(&b);
    assert_eq!(allowed(&a), vec![35]);
}

#[test]
fn vocab_errors() {
    let r = TokTrie::from_tokens(vec![b"a".to_vec()], vec![]);
    assert_eq!(r.err(), Some(VocabError::LengthMismatch));
    let r = TokTrie::from_tokens(vec![b"a".to_vec()], vec![None]);
    assert_eq!(r.err(), Some(VocabError::NoEndOfSentence));
}

#[test]
fn vocab_layout() {
    let (trie, _) = vocab(&["ab", "c", "hello"]);
    assert_eq!(trie.vocab_size(), 4);
    assert_eq!(trie.eos_token(), 3);
    assert_eq!(trie.max_token_len(), 5);
    assert!(trie.token(3).is_empty());
    assert_eq!(trie.special_kind(3), Some(SpecialToken::EndOfSentence));
    assert_eq!(trie.decode(&[0, 1, 3, 0]), b"abcab".to_vec());
    assert!(trie.tokens_valid(&[0, 3]));
    assert!(!trie.tokens_valid(&[4]));
}

#[test]
fn quad_upper_bias() {
    let words = ["He", "HE", "Hi", "hi", "Hello", "!"];
    let (trie, _) = vocab(&words);
    let mut set = trie.alloc_token_set();
    trie.compute_bias(&QuadUpper {}, 0, &mut set);
    let want: Vec<TokenId> = ["He", "HE", "Hi"].iter().map(|w| id(&words, w)).collect();
    assert_eq!(allowed(&set), want);
    assert!(!set.is_allowed(id(&words, "hi")));
    assert!(!set.is_allowed(id(&words, "!")));
    // the fifth byte of "Hello" sits at a position divisible by four
    assert!(!set.is_allowed(id(&words, "Hello")));
}

#[test]
fn quad_upper_bias_mid_word() {
    let words = ["He", "HE", "Hi", "hi", "Hello", "!"];
    let (trie, _) = vocab(&words);
    let mut set = trie.alloc_token_set();
    // three bytes in: the next byte is free, the one after must be upper case
    trie.compute_bias(&QuadUpper {}, 3, &mut set);
    let want: Vec<TokenId> = ["HE", "!"].iter().map(|w| id(&words, w)).collect();
    assert_eq!(allowed(&set), want);
}

#[test]
fn bias_ext_and_extensions() {
    let words = ["ab", "abc", "abd", "b"];
    let (trie, _) = vocab(&words);
    let g = abc_grammar();
    let p = Parser::new(g.clone());
    // from the start, tokens that begin with "ab" and go on as the grammar allows
    let mut set = trie.alloc_token_set();
    trie.compute_bias_ext(&g, p.state(), &mut set, b"ab");
    // the recognizer state is the start; "ab" then "c" would need "c" at the start
    assert_eq!(allowed(&set), vec![id(&words, "ab")]);
    assert!(trie.has_valid_extensions(&g, 2, b"ab"));
    assert!(!trie.has_valid_extensions(&g, 1, b"ab"));
    assert!(!trie.has_valid_extensions(&g, 2, b"abc"));
}

#[test]
fn recognizer_walk() {
    assert_eq!(walk_bytes(&QuadUpper {}, 0, b"Abcd"), Some(4));
    assert_eq!(walk_bytes(&QuadUpper {}, 0, b"AbcdE"), Some(5));
    assert_eq!(walk_bytes(&QuadUpper {}, 0, b"Abcde"), None);
    assert_eq!(walk_bytes(&QuadUpper {}, usize::MAX, b"x"), Some(0));
}

#[test]
fn grammar_edges() {
    let mut g = Grammar::new(2).unwrap();
    assert!(Grammar::new(0).is_none());
    assert!(g.add_edge(0, b'x', 1));
    assert!(!g.add_edge(0, b'x', 0));
    assert!(!g.add_edge(0, b'y', 2));
    assert!(!g.set_final(2, true));
    assert_eq!(g.lookup(0, b'x'), Some(1));
    assert_eq!(g.lookup(0, b'y'), None);
    assert_eq!(g.num_states(), 2);
}

#[test]
fn parser_scan_and_force() {
    let mut p = Parser::new(abc_grammar());
    assert_eq!(p.scan(b'b'), ParseResult::EndOfInput);
    assert_eq!(p.scan(b'a'), ParseResult::Accept);
    assert_eq!(p.scan(b'a'), ParseResult::Reject);
    assert_eq!(p.num_rows(), 2);
    assert_eq!(p.force_bytes(), b"bc".to_vec());
    assert_eq!(p.get_bytes(), b"abc".to_vec());
    assert_eq!(p.force_bytes(), Vec::<u8>::new());
}

#[test]
fn parser_force_cycle_stops() {
    // a forced loop with no way out
    let mut g = Grammar::new(2).unwrap();
    assert!(g.add_edge(0, b'x', 1));
    assert!(g.add_edge(1, b'y', 0));
    let mut p = Parser::new(g);
    assert_eq!(p.force_bytes(), b"xy".to_vec());
}

#[test]
fn parser_apply_tokens() {
    let words = ["ab", "c", "x"];
    let (trie, _) = vocab(&words);
    let mut p = Parser::new(abc_grammar());
    assert!(p.apply_tokens(&trie, &[0, 1, 0]).is_ok());
    assert_eq!(p.get_bytes(), b"abcab".to_vec());
    // a shorter cache rolls the parser back to it
    assert!(p.apply_tokens(&trie, &[0]).is_ok());
    assert_eq!(p.get_bytes(), b"ab".to_vec());
    let err = p.apply_tokens(&trie, &[0, 2]).unwrap_err();
    assert_eq!((err.position, err.byte), (2, b'x'));
    assert_eq!(p.get_bytes(), b"ab".to_vec());
}

fn abc_bytes() -> Vec<u8> {
    let mut b = vec![3, 0, 1, 0, 0];
    b.extend_from_slice(&[0, 0, b'a', 1, 0]);
    b.extend_from_slice(&[1, 0, b'b', 2, 0]);
    b.extend_from_slice(&[2, 0, b'c', 0, 0]);
    b
}

#[test]
fn grammar_from_bytes() {
    let g = Grammar::from_bytes(&abc_bytes()).unwrap();
    assert_eq!(g.num_states(), 3);
    assert!(g.is_accepting(0) && !g.is_accepting(1));
    assert_eq!(g.lookup(2, b'c'), Some(0));
    assert_eq!(g.lookup(2, b'a'), None);
}

#[test]
fn grammar_from_bytes_errors() {
    assert_eq!(Grammar::from_bytes(&[1]).err(), Some(GrammarError::Malformed));
    assert_eq!(Grammar::from_bytes(&[0, 0]).err(), Some(GrammarError::Malformed));
    assert_eq!(Grammar::from_bytes(&[1, 0, 0, 9]).err(), Some(GrammarError::Malformed));
    assert_eq!(Grammar::from_bytes(&[1, 0, 2]).err(), Some(GrammarError::BadFlag));
    assert_eq!(
        Grammar::from_bytes(&[1, 0, 1, 0, 0, b'a', 1, 0]).err(),
        Some(GrammarError::StateOutOfRange)
    );
    assert_eq!(
        Grammar::from_bytes(&[1, 0, 1, 0, 0, b'a', 0, 0, 0, 0, b'a', 0, 0]).err(),
        Some(GrammarError::DuplicateEdge)
    );
}

#[test]
fn forced_continuation_splices() {
    let words = ["a", "b", "c", "ab", "abc"];
    let (trie, tok) = vocab(&words);
    let mut tp = TokenParser::new(tok, trie, abc_grammar());
    let r = tp.mid_process(mid(vec![id(&words, "a"), id(&words, "b")]));
    match r {
        MidProcessResult::Splice { backtrack, ff_tokens } => {
            assert_eq!(backtrack, 2);
            assert_eq!(ff_tokens, vec![id(&words, "abc")]);
        }
        _ => panic!("expected a splice"),
    }
    assert_eq!(tp.parser().get_bytes(), b"abc".to_vec());
}

#[test]
fn forced_continuation_then_bias() {
    let words = ["a", "b", "c", "ab", "abc"];
    let (trie, tok) = vocab(&words);
    let mut tp = TokenParser::from_guidance_protobuf(tok, trie, &abc_bytes()).ok().unwrap();
    let r = tp.mid_process(mid(vec![id(&words, "abc")]));
    match r {
        MidProcessResult::SampleWithBias { allowed_tokens } => {
            let want: Vec<TokenId> = vec![id(&words, "a"), id(&words, "ab"), id(&words, "abc"), 5];
            assert_eq!(allowed(&allowed_tokens), want);
        }
        _ => panic!("expected a bias"),
    }
}

#[test]
fn from_protobuf_rejects_bad_grammar() {
    let (trie, tok) = vocab(&["a"]);
    let r = TokenParser::from_guidance_protobuf(tok, trie, &[1, 0, 7]);
    assert_eq!(r.err(), Some(GrammarError::BadFlag));
}

#[test]
fn eos_stops() {
    let words = ["a", "b", "c", "ab", "abc"];
    let (trie, tok) = vocab(&words);
    let eos = trie.eos_token();
    let mut tp = TokenParser::new(tok, trie, abc_grammar());
    assert!(tp.mid_process(mid(vec![id(&words, "a"), eos])).is_stop());
    let (trie, tok) = vocab(&words);
    let mut tp = TokenParser::new(tok, trie, abc_grammar());
    // a rejected stream also stops
    assert!(tp.mid_process(mid(vec![id(&words, "c")])).is_stop());
}

#[test]
fn bad_backtrack_stops() {
    let words = ["a", "b"];
    let (trie, tok) = vocab(&words);
    let mut tp = TokenParser::new(tok, trie, abc_grammar());
    let arg = MidProcessArg { backtrack: 1, tokens: vec![], fork_group: vec![] };
    assert!(tp.mid_process(arg).is_stop());
    assert!(tp.llm_tokens().is_empty());
}

#[test]
fn fork_children_are_independent() {
    let words = ["a", "b", "c", "ab", "abc"];
    let pre = PreProcessResult::fork(2);
    assert_eq!(pre.attention_masks.len(), 2);
    assert!(pre.attention_masks.iter().all(|m| m.is_empty()));
    assert!(!pre.suspend);
    let (trie, tok) = vocab(&words);
    let parent = TokenParser::new(tok, trie, abc_grammar());
    let group = vec![SeqId(1), SeqId(2)];
    let mut kids = vec![parent.clone(), parent];
    let r0 = kids[0].mid_process(MidProcessArg {
        backtrack: 0,
        tokens: vec![id(&words, "abc")],
        fork_group: group.clone(),
    });
    let r1 = kids[1].mid_process(MidProcessArg {
        backtrack: 0,
        tokens: vec![id(&words, "a")],
        fork_group: group.clone(),
    });
    assert!(matches!(r0, MidProcessResult::SampleWithBias { .. }));
    assert!(matches!(r1, MidProcessResult::Splice { .. }));
    assert_eq!(kids[0].parser().get_bytes(), b"abc".to_vec());
    assert_eq!(kids[1].parser().get_bytes(), b"abc".to_vec());
    assert_eq!(kids[0].llm_tokens(), &[id(&words, "abc")][..]);
    assert_eq!(kids[1].llm_tokens(), &[id(&words, "a")][..]);
}

#[test]
fn ambiguous_suffix_is_held_back() {
    let words = ["Hello", ",", " world", " world ", "!", " "];
    let (trie, tok) = vocab(&words);
    let mut tp = TokenParser::new(tok, trie, literal_grammar(b"Hello, world", b" !"));
    let r = tp.mid_process(mid(vec![]));
    match r {
        MidProcessResult::Splice { backtrack, ff_tokens } => {
            assert_eq!(backtrack, 0);
            assert_eq!(ff_tokens, vec![id(&words, "Hello"), id(&words, ",")]);
        }
        _ => panic!("expected a splice"),
    }
    let r = tp.mid_process(mid(vec![id(&words, "Hello"), id(&words, ",")]));
    match r {
        MidProcessResult::SampleWithBias { allowed_tokens } => {
            // " " covers part of the pending " world"; the others cover all of it
            assert_eq!(
                allowed(&allowed_tokens),
                vec![id(&words, " world"), id(&words, " world "), id(&words, " ")]
            );
        }
        _ => panic!("expected a bias"),
    }
}

#[test]
fn resolve_on_given_tokens() {
    let words = ["a", "b", "c", "ab", "abc"];
    let (trie, _) = vocab(&words);
    let mut p = Parser::new(abc_grammar());
    assert!(p.apply_tokens(&trie, &[id(&words, "a")]).is_ok());
    p.force_bytes();
    // a tokenization that does not decode to the parser's bytes stops
    assert!(resolve_forced(&trie, &p, &[id(&words, "a")], vec![id(&words, "ab")]).is_stop());
    let r = resolve_forced(&trie, &p, &[id(&words, "a")], vec![id(&words, "a"), id(&words, "b"), id(&words, "c")]);
    match r {
        MidProcessResult::Splice { backtrack, ff_tokens } => {
            assert_eq!(backtrack, 0);
            assert_eq!(ff_tokens, vec![id(&words, "b"), id(&words, "c")]);
        }
        _ => panic!("expected a splice"),
    }
}

struct Waiter {
    calls: u32,
}

impl AiciVm for Waiter {
    fn inv(&self) -> bool {
        true
    }
    fn init_prompt(&mut self, _arg: InitPromptArg) -> InitPromptResult {
        InitPromptResult::new()
    }
    fn pre_process(&mut self, _arg: PreProcessArg) -> PreProcessResult {
        self.calls += 1;
        if self.calls <= 3 {
            PreProcessResult::suspend()
        } else {
            PreProcessResult::continue_()
        }
    }
    fn mid_process(&mut self, _arg: MidProcessArg) -> MidProcessResult {
        MidProcessResult::stop()
    }
    fn post_process(&mut self, _arg: PostProcessArg) -> PostProcessResult {
        PostProcessResult { stop: false }
    }
}

#[test]
fn suspend_three_times_then_continue() {
    let mut w = Waiter { calls: 0 };
    for _ in 0..3 {
        let r = w.pre_process(PreProcessArg {});
        assert!(r.suspend);
        assert_eq!(r.attention_masks.len(), 1);
    }
    let r = w.pre_process(PreProcessArg {});
    assert!(!r.suspend);
    assert_eq!(r.attention_masks, vec![Vec::<bool>::new()]);
    assert_eq!(PreProcessResult::stop().attention_masks.len(), 0);
}

#[test]
fn runner_prompt_then_bias_then_stop() {
    let words = ["He", "HE", "Hi", "hi", "Hello", "!", "Tweet"];
    let (trie, _) = vocab(&words);
    let eos = trie.eos_token();
    // four bytes of prompt: the state after it is again divisible by four
    let prompt = vec![id(&words, "He"), id(&words, "hi")];
    let mut r = Runner::new(trie, prompt.clone());
    match r.mid_process(mid(vec![])) {
        MidProcessResult::Splice { backtrack, ff_tokens } => {
            assert_eq!(backtrack, 0);
            assert_eq!(ff_tokens, prompt);
        }
        _ => panic!("expected the prompt"),
    }
    let pr = r.post_process(PostProcessArg { tokens: prompt.clone() });
    assert!(!pr.stop);
    let pre = r.pre_process(PreProcessArg {});
    assert_eq!(pre.attention_masks, vec![Vec::<bool>::new()]);
    assert!(!pre.suspend);
    match r.mid_process(mid(vec![])) {
        MidProcessResult::SampleWithBias { allowed_tokens } => {
            assert!(allowed_tokens.is_allowed(id(&words, "Hi")));
            assert!(!allowed_tokens.is_allowed(id(&words, "hi")));
        }
        _ => panic!("expected a bias"),
    }
    assert!(!r.post_process(PostProcessArg { tokens: vec![id(&words, "He")] }).stop);
    // six bytes in: the next two bytes are free
    match r.mid_process(mid(vec![])) {
        MidProcessResult::SampleWithBias { allowed_tokens } => {
            assert!(allowed_tokens.is_allowed(id(&words, "hi")));
        }
        _ => panic!("expected a bias"),
    }
    assert!(r.post_process(PostProcessArg { tokens: vec![eos] }).stop);
    assert!(r.is_stopped());
    let before = r.tokens().to_vec();
    // once stopped, post_process changes nothing
    assert!(r.post_process(PostProcessArg { tokens: vec![id(&words, "Hi")] }).stop);
    assert_eq!(r.tokens(), &before[..]);
    assert!(r.mid_process(mid(vec![])).is_stop());
}

#[test]
fn runner_refused_token_stops() {
    let words = ["He", "hi"];
    let (trie, _) = vocab(&words);
    let mut r = Runner::new(trie, vec![]);
    assert!(r.post_process(PostProcessArg { tokens: vec![id(&words, "hi")] }).stop);
    assert!(r.is_stopped());
}

#[test]
fn save_tokens_backtracks() {
    let arg = MidProcessArg { backtrack: 2, tokens: vec![7, 8], fork_group: vec![] };
    let mut log = vec![1, 2, 3];
    assert!(arg.save_tokens(&mut log));
    assert_eq!(log, vec![1, 7, 8]);
    let mut short = vec![1];
    assert!(!arg.save_tokens(&mut short));
    assert_eq!(short, vec![1]);
}

#[test]
fn same_inputs_same_answer() {
    let words = ["Hello", ",", " world", " world ", "!", " "];
    let run = || {
        let (trie, tok) = vocab(&words);
        let mut tp = TokenParser::new(tok, trie, literal_grammar(b"Hello, world", b" !"));
        tp.mid_process(mid(vec![]));
        match tp.mid_process(mid(vec![id(&words, "Hello"), id(&words, ",")])) {
            MidProcessResult::SampleWithBias { allowed_tokens } => allowed_tokens.to_le_bytes(),
            _ => panic!("expected a bias"),
        }
    };
    assert_eq!(run(), run());
}

#[test]
fn dead_grammar_stops() {
    // state 1 is neither accepting nor has any edge
    let mut g = Grammar::new(2).unwrap();
    assert!(g.add_edge(0, b'a', 1));
    assert!(g.add_edge(0, b'b', 1));
    let words = ["a", "b"];
    let (trie, tok) = vocab(&words);
    let mut tp = TokenParser::new(tok, trie, g);
    assert!(matches!(tp.mid_process(mid(vec![])), MidProcessResult::SampleWithBias { .. }));
    assert!(tp.mid_process(mid(vec![id(&words, "a")])).is_stop());
}

#[test]
fn runner_limit_stop_is_sticky() {
    let words = ["A", "b"];
    let (trie, _) = vocab(&words);
    let mut r = Runner::new(trie, vec![]);
    for _ in 0..51 {
        assert!(!r.post_process(PostProcessArg { tokens: vec![id(&words, "A")] }).stop);
        // one byte per step: always an "A" at a position divisible by four is enough
        assert!(!r.post_process(PostProcessArg { tokens: vec![id(&words, "b")] }).stop);
        if r.tokens().len() > 100 {
            break;
        }
    }
    assert!(r.mid_process(mid(vec![])).is_stop());
    assert!(r.is_stopped());
    let before = r.tokens().to_vec();
    assert!(r.post_process(PostProcessArg { tokens: vec![id(&words, "A")] }).stop);
    assert_eq!(r.tokens(), &before[..]);
}

#[test]
fn runner_prompt_advances_state() {
    let words = ["He", "hi", "!", "Hi"];
    let (trie, _) = vocab(&words);
    // three bytes of prompt: the next byte is free, the one after is not
    let mut r = Runner::new(trie, vec![id(&words, "hi"), id(&words, "!")]);
    let _ = r.init_prompt(InitPromptArg { prompt: vec![] });
    assert!(matches!(r.mid_process(mid(vec![])), MidProcessResult::Splice { .. }));
    assert!(!r.post_process(PostProcessArg { tokens: vec![id(&words, "hi"), id(&words, "!")] }).stop);
    match r.mid_process(mid(vec![])) {
        MidProcessResult::SampleWithBias { allowed_tokens } => {
            assert!(allowed_tokens.is_allowed(id(&words, "!")));
            assert!(!allowed_tokens.is_allowed(id(&words, "Hi")));
            assert!(!allowed_tokens.is_allowed(id(&words, "hi")));
        }
        _ => panic!("expected a bias"),
    }
}

#[test]
fn rejection_is_reported() {
    let words = ["a", "b", "c", "ab", "abc"];
    let (trie, tok) = vocab(&words);
    let mut tp = TokenParser::new(tok, trie, abc_grammar());
    assert!(tp.rejection().is_none());
    assert!(tp.mid_process(mid(vec![id(&words, "a"), id(&words, "c")])).is_stop());
    let rj = tp.rejection().unwrap();
    assert_eq!((rj.position, rj.byte), (1, b'c'));
    assert_eq!(tp.parser().get_bytes(), b"a".to_vec());
}

#[test]
fn pending_prefix_tokens_are_admitted() {
    let words = ["a", "b", "c", "ab", "abc", "bc", "abca"];
    let (trie, _) = vocab(&words);
    let g = abc_grammar();
    // forced "bc" pending with the grammar back at its start
    let mut set = trie.alloc_token_set();
    trie.compute_bias_ext(&g, 0, &mut set, b"bc");
    assert_eq!(allowed(&set), vec![id(&words, "b"), id(&words, "bc")]);
}
