use bpe_core::builder::SequenceBuilder;
use bpe_core::pretok::{
    gpt_regex, pretokenize_chunk_for_encoding, pretokenize_chunk_for_training, split_regex,
};

fn get_sequence_builders() -> (SequenceBuilder, SequenceBuilder) {
    let mut s = SequenceBuilder::new();

    s.append(b"Hello");
    s.append(b"world");
    s.append(b"Hello");

    let mut s2 = SequenceBuilder::new();

    s2.append(b"Hi");
    s2.append(b"world");

    (s, s2)
}

#[test]
pub fn test_sequence_builder() {
    let mut s = SequenceBuilder::new();

    s.append(b"Hello");
    s.append(b"world");
    s.append(b"Hello");

    assert_eq!(s.counts().len(), 2);

    assert_eq!(s.count_of(b"Hello".as_slice()), Some(2));
    assert_eq!(s.count_of(b"world".as_slice()), Some(1));
}

#[test]
pub fn test_sequence_builder_merge() {
    let (s1, s2) = get_sequence_builders();

    let merged = SequenceBuilder::merge(s1, s2);
    assert_eq!(merged.counts().len(), 3);
    assert_eq!(
        merged
            .count_of(b"Hello".as_slice())
            .expect("expected Hello in map"),
        2
    );
    assert_eq!(
        merged
            .count_of(b"world".as_slice())
            .expect("expected world in map"),
        2
    );
    assert_eq!(
        merged
            .count_of(b"Hi".as_slice())
            .expect("expected hi in map"),
        1
    );
}

#[test]
pub fn test_merge_symmetric() {
    let (first_s1, first_s2) = get_sequence_builders();
    let first_merged = SequenceBuilder::merge(first_s1, first_s2);

    let (second_s1, second_s2) = get_sequence_builders();
    let second_merged = SequenceBuilder::merge(second_s2, second_s1);

    assert_eq!(first_merged, second_merged);
}

#[test]
pub fn test_regex_compiles() {
    gpt_regex().expect("expected gpt2 regex to compile");
}

#[test]
pub fn test_split_regex_escapes() {
    let splits = vec!["<|endoftext|>", "<|otherthing|>"];
    let s = "Hello world!<|endoftext|> <|otherthing|> Here are my tokens";

    let binding = split_regex(&splits).expect("expected split_regex to compile");
    let splits = binding.split(s).expect("expected split to succeed");
    let expected = vec!["Hello world!", " ", " Here are my tokens"];

    assert_eq!(splits, expected);
}

#[test]
pub fn test_tokenize_chunk() {
    let special_tokens = vec!["<|endoftext|>", "<|otherthing|>"];
    let s = "Hello world!<|endoftext|> <|otherthing|> Here are my tokens";

    let builder = pretokenize_chunk_for_training(s.as_bytes(), &special_tokens).unwrap();
    assert_eq!(builder.counts().len(), 8);
    assert!(builder.count_of(b"!".as_slice()).is_some());
    assert!(builder.count_of(b" tokens".as_slice()).is_some());
}

#[test]
pub fn test_apost() {
    let special_tokens = vec!["<|endoftext|>"];
    let s = "don't students think";

    let builder = pretokenize_chunk_for_training(s.as_bytes(), &special_tokens).unwrap();
    assert_eq!(builder.counts().len(), 4);
    assert!(builder.count_of(b"don".as_slice()).is_some());
    assert!(builder.count_of(b"'t".as_slice()).is_some());
    assert!(builder.count_of(b" students".as_slice()).is_some());
    assert!(builder.count_of(b" think".as_slice()).is_some());
}

fn reverse_vocab() -> Vec<Option<u32>> {
    (0..256u32).map(Some).collect()
}

#[test]
pub fn test_encoding_tokenizer_no_end_token() {
    let special_tokens = vec![("<|endoftext|>", 257)];
    let s = "don't students";
    let expected_tokens: Vec<u32> = s.as_bytes().iter().map(|c| *c as u32).collect();

    let builder =
        pretokenize_chunk_for_encoding(s.as_bytes(), &special_tokens, &reverse_vocab()).unwrap();
    let tokens = builder.into_tokens();
    assert_eq!(tokens, expected_tokens);
}

#[test]
pub fn test_encoding_tokenizer_with_double_token() {
    let special_tokens = vec![("<|endoftext|>", 257), ("<|endoftext|><|endoftext|>", 258)];
    let s = "don't students<|endoftext|><|endoftext|>";
    let mut expected_tokens: Vec<u32> = b"don't".iter().map(|c| *c as u32).collect();
    b" students"
        .iter()
        .for_each(|c| expected_tokens.push(*c as u32));

    let builder =
        pretokenize_chunk_for_encoding(s.as_bytes(), &special_tokens, &reverse_vocab()).unwrap();
    let tokens = builder.into_tokens();
    expected_tokens.push(258);
    assert_eq!(tokens, expected_tokens);
}

#[test]
pub fn test_encoding_tokenizer_with_end_token() {
    let special_tokens = vec![("<|endoftext|>", 257)];
    let s = "don't<|endoftext|>students";
    let mut expected_tokens: Vec<u32> = b"don't".iter().map(|c| *c as u32).collect();
    expected_tokens.push(257);
    b"students"
        .iter()
        .for_each(|c| expected_tokens.push(*c as u32));

    let builder =
        pretokenize_chunk_for_encoding(s.as_bytes(), &special_tokens, &reverse_vocab()).unwrap();
    let tokens = builder.into_tokens();
    assert_eq!(tokens, expected_tokens);
}

#[test]
fn test_append_counts_repeats() {
    let mut s = SequenceBuilder::new();
    assert_eq!(s.count_of(b"a".as_slice()), None);
    s.append(b"a");
    s.append(b"a");
    s.append(b"");
    assert_eq!(s.count_of(b"a".as_slice()), Some(2));
    assert_eq!(s.count_of(b"".as_slice()), Some(1));
    assert_eq!(s.len(), 2);
}

#[test]
fn test_merge_counts_of_concatenated_chunks() {
    let special_tokens = vec!["<|endoftext|>"];
    let a = "low lower<|endoftext|>";
    let b = " lowest low";
    let whole = "low lower<|endoftext|> lowest low";
    let merged = SequenceBuilder::merge(
        pretokenize_chunk_for_training(a.as_bytes(), &special_tokens).unwrap(),
        pretokenize_chunk_for_training(b.as_bytes(), &special_tokens).unwrap(),
    );
    let at_once = pretokenize_chunk_for_training(whole.as_bytes(), &special_tokens).unwrap();
    assert_eq!(merged, at_once);
    assert_eq!(merged.count_of(b" low".as_slice()), Some(1));
    assert_eq!(merged.count_of(b"low".as_slice()), Some(1));
}

#[test]
fn test_split_regex_prefers_longer_token() {
    let splits = vec!["a", "aa"];
    let re = split_regex(&splits).unwrap();
    assert_eq!(re.split("xaaay").unwrap(), vec!["x", "", "y"]);
}

#[test]
fn test_split_without_match_is_whole_text() {
    let splits = vec!["<|endoftext|>"];
    let re = split_regex(&splits).unwrap();
    assert_eq!(re.split("plain text").unwrap(), vec!["plain text"]);
    assert_eq!(re.split("").unwrap(), vec![""]);
}

#[test]
fn test_training_pretokens_drop_special_tokens() {
    let special_tokens = vec!["<|endoftext|>"];
    let s = "hi<|endoftext|>hi<|endoftext|> hi";
    let builder = pretokenize_chunk_for_training(s.as_bytes(), &special_tokens).unwrap();
    assert_eq!(builder.count_of(b"hi".as_slice()), Some(2));
    assert_eq!(builder.count_of(b" hi".as_slice()), Some(1));
    assert_eq!(builder.count_of(b"<|endoftext|>".as_slice()), None);
    assert_eq!(builder.counts().len(), 2);
}

#[test]
fn test_encoding_unknown_byte_fails() {
    let special_tokens = vec![("<|endoftext|>", 257)];
    let mut vocab = reverse_vocab();
    vocab[b'x' as usize] = None;
    assert!(pretokenize_chunk_for_encoding(b"axb", &special_tokens, &vocab).is_none());
    assert!(pretokenize_chunk_for_encoding(b"ab", &special_tokens, &vocab).is_some());
}

#[test]
fn test_encoding_each_pretoken_is_a_sequence() {
    let special_tokens = vec![("<|endoftext|>", 300)];
    let mut vocab = reverse_vocab();
    vocab[b'a' as usize] = Some(1000);
    let shard = pretokenize_chunk_for_encoding(b"a a<|endoftext|>", &special_tokens, &vocab).unwrap();
    assert_eq!(shard.into_tokens(), vec![1000, 32, 1000, 300]);
}
