use pizza_analysis_stconvert::bloom::{bloom_check, bloom_insert, fx_hash};
use pizza_analysis_stconvert::{
    convert, ConvertConfig, ConvertType, STConvertNormalizer, STConvertTokenFilter,
    STConvertTokenizer, STConverter, Token,
};

#[test]
fn readme_example_s2t() {
    assert_eq!(convert("中华人民共和国", ConvertType::S2T), "中華人民共和國");
}

#[test]
fn readme_example_t2s() {
    assert_eq!(convert("計算機科學", ConvertType::T2S), "计算机科学");
}

#[test]
fn parse_skips_comments_blank_and_malformed_lines() {
    let c = STConverter::with_dictionary("# comment\n\n  甲:乙  \nno colon\n:x\ny:\n丙:丙\r\n");
    assert_eq!(c.convert("甲丙"), "乙丙");
}

#[test]
fn parse_first_occurrence_wins() {
    let c = STConverter::with_dictionary("甲:乙\n甲:丙\n甲乙:子\n甲乙:丑");
    assert_eq!(c.convert("甲"), "乙");
    assert_eq!(c.convert("甲乙"), "子");
}

#[test]
fn parse_value_may_contain_colon() {
    let c = STConverter::with_dictionary("甲:乙:丙");
    assert_eq!(c.convert("甲"), "乙:丙");
}

#[test]
fn longest_phrase_wins() {
    let c = STConverter::with_dictionary("甲乙:一\n甲乙丙:二\n甲:三");
    assert_eq!(c.convert("甲乙丙"), "二");
    assert_eq!(c.convert("甲乙丁"), "一丁");
    assert_eq!(c.convert("甲丁"), "三丁");
}

#[test]
fn unmatched_phrase_start_rewinds() {
    let c = STConverter::with_dictionary("甲乙丙:一\n乙:二");
    // No key matches at 甲; matching resumes at 乙.
    assert_eq!(c.convert("甲乙丁"), "甲二丁");
}

#[test]
fn phrase_continues_over_ascii() {
    let c = STConverter::with_dictionary("甲a:一");
    assert_eq!(c.convert("甲a甲b"), "一甲b");
}

#[test]
fn ascii_keys_are_not_applied() {
    let c = STConverter::with_dictionary("a:b\nab:cd");
    assert_eq!(c.convert("ab"), "ab");
}

#[test]
fn one_char_key_with_phrase_value() {
    let c = STConverter::with_dictionary("甲:乙丙");
    assert_eq!(c.convert("甲"), "乙丙");
}

#[test]
fn nul_mapping_counts_as_absent() {
    let c = STConverter::with_dictionary("甲:\u{0}");
    assert_eq!(c.convert("甲"), "甲");
    assert!(matches!(c.convert_cow("甲"), std::borrow::Cow::Borrowed(_)));
}

#[test]
fn convert_cow_borrows_when_phrase_start_is_unchanged() {
    let c = STConverter::with_dictionary("甲乙:丙");
    let r = c.convert_cow("甲丁");
    assert!(matches!(r, std::borrow::Cow::Borrowed(_)));
    assert_eq!(r.as_ref(), "甲丁");
    let s2t = STConverter::new(ConvertType::S2T);
    assert!(matches!(s2t.convert_cow("方"), std::borrow::Cow::Borrowed(_)));
    let r = s2t.convert_cow("方便面");
    assert!(matches!(r, std::borrow::Cow::Owned(_)));
    assert_eq!(r.as_ref(), "方便麪");
}

#[test]
fn cloned_converter_converts_alike() {
    let c = STConverter::new(ConvertType::T2S);
    let d = c.clone();
    assert_eq!(d.convert("計算機"), c.convert("計算機"));
    assert_eq!(d.convert("計算機"), "计算机");
}

#[test]
fn bloom_check_accepts_longer_filter() {
    let mut bloom = vec![0u64; 4096];
    bloom[0] = 1;
    assert!(bloom_check(&bloom, 0));
}

#[test]
fn empty_dictionary_is_identity() {
    let c = STConverter::with_dictionary("");
    assert_eq!(c.convert("計算機 abc"), "計算機 abc");
}

#[test]
fn convert_to_appends() {
    let c = STConverter::new(ConvertType::T2S);
    let mut buf = String::from("前:");
    c.convert_to("國", &mut buf);
    assert_eq!(buf, "前:国");
}

#[test]
fn fx_hash_known_values() {
    assert_eq!(fx_hash(b""), 0);
    assert_eq!(fx_hash(b"a"), 0xe0456665d3e60275);
    assert_eq!(fx_hash(b"ab"), 0x00ce0daa6a7e9336);
}

#[test]
fn bloom_check_probes_two_bits() {
    let mut bloom = vec![0u64; 2048];
    assert!(!bloom_check(&bloom, 0));
    bloom[0] = 1;
    // hash 0: both probes are bit 0.
    assert!(bloom_check(&bloom, 0));
    // hash 1: first probe bit 1 is clear.
    assert!(!bloom_check(&bloom, 1));
}

#[test]
fn normalizer_converts_text() {
    let n = STConvertNormalizer::new(ConvertConfig::new(ConvertType::T2S));
    let mut text = String::from("傳統 text");
    n.normalize(&mut text);
    assert_eq!(text, "传统 text");
}

#[test]
fn tokenizer_empty_input_gives_no_tokens() {
    let t = STConvertTokenizer::new(ConvertConfig::new(ConvertType::T2S));
    assert!(t.tokenize("").is_empty());
}

#[test]
fn tokenizer_single_token() {
    let t = STConvertTokenizer::new(ConvertConfig::new(ConvertType::T2S));
    let tokens = t.tokenize("傳統");
    assert_eq!(tokens.len(), 1);
    assert_eq!(tokens[0].term, "传统");
    assert_eq!(tokens[0].start_offset, 0);
    assert_eq!(tokens[0].end_offset, 6);
    assert_eq!(tokens[0].position, 0);
}

#[test]
fn tokenizer_keep_both_joins_forms() {
    let cfg = ConvertConfig::new(ConvertType::T2S).with_keep_both(true).with_delimiter("|");
    let t = STConvertTokenizer::new(cfg);
    assert_eq!(t.tokenize("傳統")[0].term, "傳統|传统");
    // Unchanged text is emitted once.
    assert_eq!(t.tokenize("abc")[0].term, "abc");
}

#[test]
fn token_filter_replaces_term() {
    let f = STConvertTokenFilter::new(ConvertConfig::new(ConvertType::T2S));
    let mut token = Token { term: String::from("國"), start_offset: 3, end_offset: 6, position: 1 };
    let (keep, extra) = f.filter(&mut token);
    assert!(keep);
    assert!(extra.is_none());
    assert_eq!(token.term, "国");
    assert_eq!(token.start_offset, 3);
}

#[test]
fn token_filter_keep_both_adds_token() {
    let cfg = ConvertConfig::new(ConvertType::T2S).with_keep_both(true);
    let f = STConvertTokenFilter::new(cfg);
    let mut token = Token { term: String::from("國"), start_offset: 3, end_offset: 6, position: 1 };
    let (keep, extra) = f.filter(&mut token);
    assert!(keep);
    assert_eq!(token.term, "國");
    let extra = extra.unwrap();
    assert_eq!(extra.len(), 1);
    assert_eq!(extra[0].term, "国");
    assert_eq!(extra[0].start_offset, 3);
    assert_eq!(extra[0].end_offset, 6);
    assert_eq!(extra[0].position, 1);
}

#[test]
fn token_filter_unchanged_term() {
    let f = STConvertTokenFilter::new(ConvertConfig::new(ConvertType::T2S).with_keep_both(true));
    let mut token = Token { term: String::from("abc"), start_offset: 0, end_offset: 3, position: 0 };
    let (keep, extra) = f.filter(&mut token);
    assert!(keep);
    assert!(extra.is_none());
    assert_eq!(token.term, "abc");
}

#[test]
fn validate_error_message() {
    let cfg = ConvertConfig::new(ConvertType::T2S).with_keep_both(true).with_delimiter("");
    assert_eq!(cfg.validate(), Err("delimiter must not be empty when keep_both is true"));
}

#[test]
fn bloom_insert_sets_exactly_the_two_probe_bits() {
    let mut bloom = vec![0u64; 2048];
    let h = fx_hash("中".as_bytes());
    bloom_insert(&mut bloom, h);
    let i1 = (h & 0x1FFFF) as usize;
    let i2 = ((h >> 17) & 0x1FFFF) as usize;
    assert!(bloom[i1 / 64] & (1u64 << (i1 % 64)) != 0);
    assert!(bloom[i2 / 64] & (1u64 << (i2 % 64)) != 0);
    let set: u32 = bloom.iter().map(|w| w.count_ones()).sum();
    assert_eq!(set, if i1 == i2 { 1 } else { 2 });
    assert!(bloom_check(&bloom, h));
}
