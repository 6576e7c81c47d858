use rusty_tokenizer::basic::BasicTokenizer;
use rusty_tokenizer::errors::TokenizerError;
use rusty_tokenizer::model::{format_model, parse_model, FormatError};

#[test]
fn test_train_known_merges() {
    let mut t = BasicTokenizer::new();
    t.train("aaabdaaabac", 259).unwrap();
    // Most frequent pair first; ties go to the lexicographically smallest
    // pair, so (97, 98) beats (256, 97) in the second round.
    assert_eq!(t.merges(), &vec![(97, 97), (97, 98), (256, 257)]);
    assert_eq!(t.vocab()[256], b"aa".to_vec());
    assert_eq!(t.vocab()[257], b"ab".to_vec());
    assert_eq!(t.vocab()[258], b"aaab".to_vec());
}

#[test]
fn test_train_is_deterministic() {
    let mut t1 = BasicTokenizer::new();
    let mut t2 = BasicTokenizer::new();
    t1.train("low lower lowest", 280).unwrap();
    t2.train("low lower lowest", 280).unwrap();
    assert_eq!(t1.merges(), t2.merges());
    assert_eq!(t1.vocab(), t2.vocab());
}

#[test]
fn test_train_stops_early_without_error() {
    let mut t = BasicTokenizer::new();
    t.train("ab", 266).unwrap();
    // One merge exhausts the text; the other nine requested merges never
    // happen and that is not an error.
    assert_eq!(t.merges(), &vec![(97, 98)]);
}

#[test]
fn test_train_never_exceeds_budget() {
    let mut t = BasicTokenizer::new();
    t.train("aaabdaaabac", 258).unwrap();
    assert!(t.merges().len() <= 2);
    assert_eq!(t.merges().len(), 2);
}

#[test]
fn test_train_rejects_small_vocab() {
    let mut t = BasicTokenizer::new();
    assert_eq!(t.train("abc", 255), Err(TokenizerError::Config));
}

#[test]
fn test_encode_known_ids() {
    let mut t = BasicTokenizer::new();
    t.train("aaabdaaabac", 259).unwrap();
    assert_eq!(t.encode("aaabdaaabac"), vec![258, 100, 258, 97, 99]);
}

#[test]
fn test_encode_empty() {
    let mut t = BasicTokenizer::new();
    t.init_vocab().unwrap();
    assert_eq!(t.encode(""), Vec::<i32>::new());
}

#[test]
fn test_encode_decode_round_trip() {
    let mut t = BasicTokenizer::new();
    t.train("aaabdaaabac", 259).unwrap();
    let ids = t.encode("aaabdaaabac");
    assert_eq!(t.decode(&ids).unwrap(), "aaabdaaabac");
}

#[test]
fn test_encode_decode_round_trip_unicode() {
    let mut t = BasicTokenizer::new();
    t.train("héllo héllo héllo", 270).unwrap();
    let text = "héllo wörld";
    let ids = t.encode(text);
    assert_eq!(t.decode(&ids).unwrap(), text);
}

#[test]
fn test_decode_unknown_id_is_lookup_error() {
    let mut t = BasicTokenizer::new();
    t.init_vocab().unwrap();
    assert_eq!(t.decode(&[9999]), Err(TokenizerError::Lookup));
    assert_eq!(t.decode(&[-1]), Err(TokenizerError::Lookup));
}

#[test]
fn test_decode_raw_bytes() {
    let mut t = BasicTokenizer::new();
    t.init_vocab().unwrap();
    assert_eq!(t.decode(&[104, 105]).unwrap(), "hi");
}

#[test]
fn test_special_tokens_encode_decode() {
    let t = BasicTokenizer::from_parts(
        String::new(),
        vec![("<s>".to_string(), 300)],
        vec![(97, 98)],
    )
    .unwrap();
    let ids = t.encode("a<s>ab");
    assert_eq!(ids, vec![97, 300, 256]);
    assert_eq!(t.decode(&ids).unwrap(), "a<s>ab");
}

#[test]
fn test_from_parts_rejects_bad_merge() {
    let r = BasicTokenizer::from_parts(String::new(), vec![], vec![(300, 5)]);
    assert_eq!(r.err(), Some(TokenizerError::InvalidState));
}

#[test]
fn test_from_parts_rejects_colliding_special() {
    let r = BasicTokenizer::from_parts(String::new(), vec![("x".to_string(), 10)], vec![]);
    assert_eq!(r.err(), Some(TokenizerError::InvalidState));
}

#[test]
fn test_save_and_load() {
    let pattern = String::from("test pattern");
    let special_tokens = vec![("a".to_string(), 400), ("b".to_string(), 401)];
    let merges = vec![(1, 2)];

    let bytes = format_model(&pattern, &special_tokens, &merges);
    let model = parse_model(&bytes).unwrap();
    assert_eq!(model.pattern, "test pattern");
    assert_eq!(model.special_tokens, special_tokens);
    assert_eq!(model.merges, merges);
}

#[test]
fn test_model_file_layout() {
    let bytes = format_model("p", &vec![("<s>".to_string(), 300)], &vec![(97, 98), (256, 99)]);
    assert_eq!(bytes, b"minbpe v1\np\n1\n<s> 300\n97 98\n256 99\n".to_vec());
}

#[test]
fn test_parse_model_bad_version() {
    let r = parse_model(b"minbpe v2\np\n0\n");
    assert_eq!(r.err(), Some(FormatError::BadVersion));
}

#[test]
fn test_parse_model_truncated() {
    assert_eq!(parse_model(b"").err(), Some(FormatError::Truncated));
    assert_eq!(parse_model(b"minbpe v1\np\n").err(), Some(FormatError::Truncated));
    // Bytes after the last newline are refused.
    assert_eq!(parse_model(b"minbpe v1\np\n0\n97 98").err(), Some(FormatError::Truncated));
}

#[test]
fn test_parse_model_bad_number() {
    assert_eq!(parse_model(b"minbpe v1\np\nx\n").err(), Some(FormatError::BadNumber));
    // Leading zeros are not canonical.
    assert_eq!(parse_model(b"minbpe v1\np\n0\n097 98\n").err(), Some(FormatError::BadNumber));
}

#[test]
fn test_parse_model_bad_line() {
    assert_eq!(parse_model(b"minbpe v1\np\n0\n9798\n").err(), Some(FormatError::BadLine));
    assert_eq!(parse_model(b"minbpe v1\np\n1\n 3\n").err(), Some(FormatError::BadLine));
}

#[test]
fn test_parse_model_bad_text() {
    let mut bytes = b"minbpe v1\np\n1\n".to_vec();
    bytes.extend_from_slice(&[0xff, 0x20]);
    bytes.extend_from_slice(b"3\n");
    assert_eq!(parse_model(&bytes).err(), Some(FormatError::BadText));
}

#[test]
fn test_load_restores_tokenizer() {
    let mut trained = BasicTokenizer::new();
    trained.train("aaabdaaabac", 259).unwrap();
    let bytes = format_model("", &Vec::new(), trained.merges());
    let model = parse_model(&bytes).unwrap();
    let restored =
        BasicTokenizer::from_parts(model.pattern, model.special_tokens, model.merges).unwrap();
    assert_eq!(restored.merges(), trained.merges());
    assert_eq!(restored.vocab(), trained.vocab());
    assert_eq!(restored.decode(&[258]).unwrap(), "aaab");
}
