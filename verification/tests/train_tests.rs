use std::sync::atomic::Ordering::Relaxed;
use std::sync::Arc;

use bpe_core::chunks::chunk_with_readahead;
use bpe_core::progress::Progress;
use bpe_core::{train_tokenizer, BpeError, ProgressInfo};

const SEP: &[u8] = b" ";
const CHUNK: &[u8] = b"Hello World ";

static SIMPLE_CORPUS: &[u8] =
    b"low lower lowest new newer newest low new low new the newest lower new low <|endoftext|>";

#[test]
fn test_tiny_with_tiny_readahead() {
    let tiny_chunk = chunk_with_readahead(CHUNK, SEP, 1, 1);
    assert_eq!(
        tiny_chunk,
        vec![b"Hello ", b"World "],
        "small chunk size should split appropriately"
    );
}

#[test]
fn test_simple_corpus() {
    let special_tokens = vec!["<|endoftext|>".to_string()];
    let pi = Arc::new(ProgressInfo::default());

    let r = train_tokenizer(SIMPLE_CORPUS, 258, special_tokens, Some(pi.clone()));
    assert!(r.is_ok(), "should be able to tokenize");
    assert!(pi.tokenizer_merges_done.load(Relaxed) == 258);
}

#[test]
fn test_train_without_special_tokens() {
    let e = train_tokenizer(b"", 500, vec![], None);
    assert!(matches!(e, Err(BpeError::SpecialTokensRequired)));
}

#[test]
fn test_train_vocab_too_small() {
    let e = train_tokenizer(SIMPLE_CORPUS, 256, vec!["<|endoftext|>".to_string()], None);
    assert!(matches!(e, Err(BpeError::VocabTooSmall)));
    let e = train_tokenizer(SIMPLE_CORPUS, 255, vec![], None);
    assert!(matches!(e, Err(BpeError::VocabTooSmall)));
}

#[test]
fn test_train_first_merges() {
    let special_tokens = vec!["<|endoftext|>".to_string()];
    let (dict, merges) = train_tokenizer(SIMPLE_CORPUS, 260, special_tokens, None).unwrap();
    assert_eq!(dict.len(), 260);
    assert_eq!(dict[&97], b"a".to_vec());
    assert_eq!(dict[&256], b"<|endoftext|>".to_vec());
    // Five pairs occur 7 times at first; the one whose bytes compare
    // greatest as a tuple wins: (o, w), then (n, e), then (ne, w).
    assert_eq!(
        merges,
        vec![
            (b"o".to_vec(), b"w".to_vec()),
            (b"n".to_vec(), b"e".to_vec()),
            (b"ne".to_vec(), b"w".to_vec()),
        ]
    );
    for (i, (a, b)) in merges.iter().enumerate() {
        let mut joined = a.clone();
        joined.extend_from_slice(b);
        assert_eq!(dict[&(257 + i as u32)], joined);
    }
}

#[test]
fn test_train_stops_when_asked() {
    let pi = Arc::new(ProgressInfo::default());
    pi.should_stop.store(true, Relaxed);
    let e = train_tokenizer(SIMPLE_CORPUS, 260, vec!["<|endoftext|>".to_string()], Some(pi));
    assert!(matches!(e, Err(BpeError::Stopped)));
}

#[test]
fn test_train_empty_corpus_has_no_pairs() {
    let e = train_tokenizer(b"", 258, vec!["<|endoftext|>".to_string()], None);
    assert!(matches!(e, Err(BpeError::NoPairsLeft)));
}

#[test]
fn test_train_runs_out_of_pairs() {
    let specials = vec!["<|endoftext|>".to_string()];
    let (dict, merges) = train_tokenizer(b"ab", 258, specials.clone(), None).unwrap();
    assert_eq!(merges, vec![(b"a".to_vec(), b"b".to_vec())]);
    assert_eq!(dict[&257], b"ab".to_vec());
    let e = train_tokenizer(b"ab", 259, specials, None);
    assert!(matches!(e, Err(BpeError::NoPairsLeft)));
}

#[test]
fn test_train_null_byte_pair_is_merged() {
    let (dict, merges) =
        train_tokenizer(b"\0\0", 258, vec!["<|endoftext|>".to_string()], None).unwrap();
    assert_eq!(merges, vec![(vec![0u8], vec![0u8])]);
    assert_eq!(dict[&257], vec![0u8, 0u8]);
}

#[test]
fn test_train_invalid_utf8_corpus() {
    let specials = vec!["<|endoftext|>".to_string()];
    let e = train_tokenizer(b"ab\xffcd", 258, specials.clone(), None);
    assert!(matches!(e, Err(BpeError::InvalidUtf8)));
    let e = train_tokenizer(b"ab\xffcd", 100, specials, None);
    assert!(matches!(e, Err(BpeError::VocabTooSmall)));
    let e = train_tokenizer(b"ab\xffcd", 300, vec![], None);
    assert!(matches!(e, Err(BpeError::SpecialTokensRequired)));
}

#[test]
fn test_progress_counts_shards() {
    let pi = Arc::new(ProgressInfo::default());
    let r = train_tokenizer(SIMPLE_CORPUS, 257, vec!["<|endoftext|>".to_string()], Some(pi.clone()));
    assert!(r.is_ok());
    assert_eq!(pi.pretoken_total_shards.load(Relaxed), 1);
    assert_eq!(pi.pretoken_done_shards.load(Relaxed), 1);
    assert_eq!(pi.tokenizer_merges_done.load(Relaxed), 257);
    assert!(pi.pretoken_unique_sequences.load(Relaxed) > 0);
}

#[test]
fn test_chunks_concatenate_to_file() {
    let file = b"a<s>bb<s>ccc<s>d";
    let chunks = chunk_with_readahead(file, b"<s>", 2, 3);
    let joined: Vec<u8> = chunks.iter().flat_map(|c| c.iter().copied()).collect();
    assert_eq!(joined, file.to_vec());
    for c in &chunks[..chunks.len() - 1] {
        assert!(c.ends_with(b"<s>"));
    }
}

#[test]
fn test_chunk_without_separator_is_whole_file() {
    let chunks = chunk_with_readahead(b"abcdef", b"|", 2, 2);
    assert_eq!(chunks, vec![b"abcdef".as_slice()]);
    let chunks = chunk_with_readahead(b"", b"|", 2, 2);
    assert!(chunks.is_empty());
}

#[test]
fn test_progress_snapshot() {
    let pi = ProgressInfo::default();
    pi.pretoken_total_shards.store(3, Relaxed);
    pi.pretoken_done_shards.store(2, Relaxed);
    pi.tokenizer_merges_done.store(300, Relaxed);
    assert_eq!(
        Progress::new(&pi),
        Progress {
            pretoken_total_shards: 3,
            pretoken_done_shards: 2,
            tokenizer_merges_done: 300,
        }
    );
}

#[test]
fn test_train_invalid_utf8_chunk_with_empty_separator() {
    // An empty first special token cuts the corpus at fixed offsets, which
    // may fall inside a character.
    let mut corpus = vec![b'a'; 1048575];
    corpus.extend_from_slice("é".as_bytes());
    corpus.extend_from_slice(b"bc");
    let e = train_tokenizer(&corpus, 257, vec!["".to_string()], None);
    assert!(matches!(e, Err(BpeError::InvalidUtf8)));
}

#[test]
fn test_train_merges_are_distinct_and_repeatable() {
    let specials = vec!["<|endoftext|>".to_string()];
    let (dict1, merges1) = train_tokenizer(SIMPLE_CORPUS, 260, specials.clone(), None).unwrap();
    let (dict2, merges2) = train_tokenizer(SIMPLE_CORPUS, 260, specials, None).unwrap();
    assert_eq!(dict1, dict2);
    assert_eq!(merges1, merges2);
    for i in 0..merges1.len() {
        for j in 0..i {
            assert_ne!(merges1[i], merges1[j]);
        }
    }
}
