use rullm::huggingface::tokenizer::{decode, encode};
use rullm::huggingface::tokenizer_faults::{
    check_padding, check_room, check_strip, check_takes_characters,
};
use tokenizers::decoders::bpe::BPEDecoder;
use tokenizers::decoders::fuse::Fuse;
use tokenizers::decoders::sequence::Sequence as DecoderSequence;
use tokenizers::decoders::strip::Strip;
use tokenizers::decoders::DecoderWrapper;
use tokenizers::models::unigram::Unigram;
use tokenizers::models::wordlevel::WordLevel;
use tokenizers::normalizers::replace::{Replace, ReplacePattern};
use tokenizers::normalizers::{
    self, BertNormalizer, Lowercase, NormalizerWrapper, Precompiled, Prepend,
    Sequence as NormalizerSequence, NFC,
};
use tokenizers::pre_tokenizers::byte_level::ByteLevel;
use tokenizers::pre_tokenizers::fixed_length::FixedLength;
use tokenizers::pre_tokenizers::metaspace::Metaspace;
use tokenizers::pre_tokenizers::sequence::Sequence as PreTokenizerSequence;
use tokenizers::pre_tokenizers::split::{Split, SplitPattern};
use tokenizers::pre_tokenizers::whitespace::WhitespaceSplit;
use tokenizers::pre_tokenizers::PreTokenizerWrapper;
use tokenizers::processors::sequence::Sequence;
use tokenizers::processors::template::TemplateProcessing;
use tokenizers::processors::PostProcessorWrapper;
use tokenizers::{
    AddedToken, PaddingParams, PaddingStrategy, SplitDelimiterBehavior, Tokenizer,
    TruncationParams,
};

fn template(single: &str) -> TemplateProcessing {
    TemplateProcessing::builder()
        .try_single(single)
        .unwrap()
        .special_tokens(vec![("[BOS]", 2), ("[EOS]", 3)])
        .build()
        .unwrap()
}

/// Two words, an unknown one, and a special token before and behind them.
fn tokenizer() -> Tokenizer {
    let words = ["hello", "world", "[BOS]", "[EOS]", "[UNK]"];
    let vocabulary = words.iter().zip(0_u32..).map(|(word, id)| (word.to_string(), id)).collect();
    let model = WordLevel::builder().vocab(vocabulary).unk_token("[UNK]".into()).build().unwrap();
    let mut tokenizer = Tokenizer::new(model);
    tokenizer.with_pre_tokenizer(Some(WhitespaceSplit));
    let special = ["[BOS]", "[EOS]"].map(|token| AddedToken::from(token, true));
    tokenizer.add_special_tokens(special).unwrap();
    tokenizer.with_post_processor(Some(template("[BOS] $A [EOS]")));
    tokenizer
}

fn refused(tokenizer: &Tokenizer, add_special_tokens: bool) -> String {
    encode(tokenizer, "hello world hello", add_special_tokens).unwrap_err().0
}

#[test]
fn truncation_has_to_leave_room_for_its_stride() {
    let mut tokenizer = tokenizer();
    assert_eq!(encode(&tokenizer, "hello there", true).unwrap(), [2, 0, 4, 3]);
    let limits = |max_length, stride| {
        Some(TruncationParams { max_length, stride, ..TruncationParams::default() })
    };
    tokenizer.with_truncation(limits(4, 1)).unwrap();
    assert_eq!(encode(&tokenizer, "hello world hello", true).unwrap(), [2, 0, 1, 3]);
    tokenizer.with_truncation(limits(4, 2)).unwrap();
    let message = "tokenizer encode failed: truncation leaves no room for its stride";
    assert_eq!(refused(&tokenizer, true), message);
    assert_eq!(encode(&tokenizer, "hello world hello", false).unwrap(), [0, 1, 0]);
    tokenizer.get_truncation_mut().unwrap().max_length = 1;
    assert_eq!(refused(&tokenizer, true), message);
    tokenizer.get_truncation_mut().unwrap().max_length = 0;
    assert!(encode(&tokenizer, "hello world hello", false).unwrap().is_empty());

    assert!(check_room(None, Some(7), true));
    assert!(check_room(Some((2, 9)), Some(2), true));
    assert!(!check_room(Some((2, 0)), Some(3), true));
    assert!(check_room(Some((2, 1)), Some(3), false));
    assert!(!check_room(Some((2, 2)), None, true));
}

#[test]
fn padding_has_to_be_held() {
    let mut tokenizer = tokenizer();
    let params = |strategy, multiple| {
        Some(PaddingParams {
            strategy,
            pad_to_multiple_of: multiple,
            pad_id: 4,
            ..PaddingParams::default()
        })
    };
    tokenizer.with_padding(params(PaddingStrategy::Fixed(3), None));
    assert_eq!(encode(&tokenizer, "world", false).unwrap(), [1, 4, 4]);
    tokenizer.with_padding(params(PaddingStrategy::BatchLongest, Some(2)));
    assert_eq!(encode(&tokenizer, "world", false).unwrap(), [1, 4]);
    let message = "tokenizer encode failed: padding is too long";
    tokenizer.with_padding(params(PaddingStrategy::Fixed(usize::MAX), None));
    assert_eq!(refused(&tokenizer, false), message);
    tokenizer.with_padding(params(PaddingStrategy::BatchLongest, Some(usize::MAX)));
    assert_eq!(refused(&tokenizer, false), message);
    assert!(check_padding(None));
    assert!(check_padding(Some((Some(0x100_0000), Some(0)))));
    assert!(!check_padding(Some((None, Some(0x100_0001)))));
}

#[test]
fn added_tokens_have_to_stand_apart() {
    let mut tokenizer = tokenizer();
    tokenizer.add_tokens([AddedToken::from("<r>", false).rstrip(true)]).unwrap();
    assert_eq!(encode(&tokenizer, "<r>  world", false).unwrap().last(), Some(&1));
    tokenizer.add_tokens([AddedToken::from("<l>", false).lstrip(true)]).unwrap();
    assert_eq!(encode(&tokenizer, "<r>  <l>world", false).unwrap().last(), Some(&1));
    tokenizer.add_tokens([AddedToken::from(" ", false).lstrip(true)]).unwrap();
    assert_eq!(
        refused(&tokenizer, false),
        "tokenizer encode failed: added tokens strip one another"
    );
}

#[test]
fn normalizers_have_to_take_every_text() {
    let mut tokenizer = tokenizer();
    let message = "tokenizer encode failed: unsupported normalizer";
    let regex = |pattern: &str, content: &str| {
        let pattern = ReplacePattern::Regex(pattern.into());
        NormalizerWrapper::Replace(Replace::new(pattern, content).unwrap())
    };
    let literal = |pattern: &str, content: &str| {
        NormalizerWrapper::Replace(Replace::new(pattern, content).unwrap())
    };
    let lower = || NormalizerWrapper::Lowercase(Lowercase);
    let prepend = |text: &str| NormalizerWrapper::Prepend(Prepend::new(text.into()));
    let several = |members: Vec<NormalizerWrapper>| {
        NormalizerWrapper::Sequence(NormalizerSequence::new(members))
    };
    for taken in [
        lower(),
        NormalizerWrapper::NFC(NFC),
        several(vec![literal("W", "w"), lower(), prepend(" ")]),
        several(vec![several(vec![lower()]), regex(" {2,}", " ")]),
        several(vec![regex("!", ""), lower()]),
        several(vec![NormalizerWrapper::NFC(NFC), regex(r"\s+", " "), lower()]),
        several(vec![regex("W{1,2}", "w"), lower()]),
    ] {
        tokenizer.with_normalizer(Some(taken)).unwrap();
        assert_eq!(encode(&tokenizer, "hello  world", false).unwrap(), [0, 1]);
    }
    for refused_one in [
        NormalizerWrapper::Precompiled(Precompiled::from(&[0, 0, 0, 0]).unwrap()),
        several(vec![
            lower(),
            NormalizerWrapper::Precompiled(Precompiled::from(&[0, 0, 0, 0]).unwrap()),
        ]),
        several(vec![regex("^", "x"), lower()]),
        several(vec![regex("h*", "h"), lower()]),
        several(vec![regex("h|", "h"), lower()]),
        several(vec![regex("h{0,2}", "h"), lower()]),
        several(vec![prepend(""), several(vec![lower()])]),
        several(vec![literal("", "x"), lower()]),
        regex("(?=hello\\K)", "x"),
    ] {
        tokenizer.with_normalizer(Some(refused_one)).unwrap();
        assert_eq!(refused(&tokenizer, false), message);
    }
    let mut deep = lower();
    for _ in 0..64 {
        deep = several(vec![deep]);
    }
    tokenizer.with_normalizer(Some(deep.clone())).unwrap();
    assert_eq!(encode(&tokenizer, "WORLD", false).unwrap(), [1]);
    tokenizer.with_normalizer(Some(several(vec![deep]))).unwrap();
    assert_eq!(refused(&tokenizer, false), message);
}

#[test]
fn normalizers_that_are_taken_take_unusual_texts() {
    let mut tokenizer = tokenizer();
    let literal = |pattern: &str, content: &str| {
        NormalizerWrapper::Replace(Replace::new(pattern, content).unwrap())
    };
    let regex = |pattern: &str, content: &str| {
        let pattern = ReplacePattern::Regex(pattern.into());
        NormalizerWrapper::Replace(Replace::new(pattern, content).unwrap())
    };
    let normalizers = [
        NormalizerWrapper::BertNormalizer(BertNormalizer::default()),
        NormalizerWrapper::StripNormalizer(normalizers::Strip::new(true, true)),
        NormalizerWrapper::StripNormalizer(normalizers::Strip::new(false, true)),
        NormalizerWrapper::StripAccents(normalizers::StripAccents),
        NormalizerWrapper::NFC(NFC),
        NormalizerWrapper::NFD(normalizers::NFD),
        NormalizerWrapper::NFKC(normalizers::NFKC),
        NormalizerWrapper::NFKD(normalizers::NFKD),
        NormalizerWrapper::Lowercase(Lowercase),
        NormalizerWrapper::Nmt(normalizers::Nmt),
        NormalizerWrapper::ByteLevel(normalizers::ByteLevel::new()),
        NormalizerWrapper::Prepend(Prepend::new("\u{2581}".into())),
        literal(" ", "\u{2581}"),
        literal("\u{301}", ""),
        regex(r"\s+", " "),
        regex("\u{2581}{2,}", "xy"),
        regex(r"\w", "\u{e9}\u{301}"),
    ];
    let texts = [
        "",
        " ",
        "\u{301}",
        "\u{301}e\u{301}\u{327}o",
        "\u{f73}\u{f71}\u{344}x",
        "\u{3000}\u{e9} \u{3000}",
        "\u{130}\u{fb01}\u{2126} \u{1e9e}",
        "\u{4f60}\u{597d} a\u{0}b\u{7f}",
        "\u{1100}\u{1161}\u{11a8}\u{ac00}\u{301}",
        "\u{1f469}\u{200d}\u{1f680}\u{fe0f}!",
        "\u{2581}\u{2581} [BOS]\u{301}[EOS] ",
    ];
    let byte_level = PreTokenizerWrapper::ByteLevel(ByteLevel::default());
    let metaspace = PreTokenizerWrapper::Metaspace(Metaspace::default());
    for first in &normalizers {
        for second in &normalizers {
            let members = vec![first.clone(), second.clone()];
            tokenizer.with_normalizer(Some(NormalizerSequence::new(members))).unwrap();
            for pre_tokenizer in [&byte_level, &metaspace] {
                tokenizer.with_pre_tokenizer(Some(pre_tokenizer.clone()));
                for text in texts {
                    let tokens = encode(&tokenizer, text, true).unwrap();
                    assert_eq!((tokens[0], tokens[tokens.len() - 1]), (2, 3));
                }
            }
        }
    }
}

#[test]
fn some_expressions_are_known_to_match_a_character() {
    for pattern in [r"\s+", " {2,}", "a", "\u{2581}+", r"\d\.[a-z]+", "x(y+z){10}"] {
        assert!(check_takes_characters(pattern), "{pattern}");
    }
    for pattern in
        ["", "a*", "a?", "a{0}", "a{,2}", "a|", "^", r"\b", r"\", "(a)", "a+*", "(?=a)", ".", "a{"]
    {
        assert!(!check_takes_characters(pattern), "{pattern}");
    }
}

#[test]
fn pre_tokenizers_have_to_take_every_text() {
    let mut tokenizer = tokenizer();
    let message = "tokenizer encode failed: unsupported pre-tokenizer";
    let fixed = |length| PreTokenizerWrapper::FixedLength(FixedLength::new(length));
    let split = |pattern: &str| {
        let pattern = SplitPattern::Regex(pattern.into());
        let split = Split::new(pattern, SplitDelimiterBehavior::Removed, false).unwrap();
        PreTokenizerWrapper::Split(split)
    };
    let several = |members| PreTokenizerWrapper::Sequence(PreTokenizerSequence::new(members));
    tokenizer.with_pre_tokenizer(Some(several(vec![split("-"), fixed(5)])));
    assert_eq!(encode(&tokenizer, "helloworld-world", false).unwrap(), [0, 1, 1]);
    for one in [fixed(0), several(vec![split("-"), fixed(0)]), split("(?=hello\\K)")] {
        tokenizer.with_pre_tokenizer(Some(one));
        assert_eq!(refused(&tokenizer, false), message);
    }
    let bytes = PreTokenizerWrapper::ByteLevel(ByteLevel::default().add_prefix_space(false));
    tokenizer.with_pre_tokenizer(Some(bytes));
    assert_eq!(encode(&tokenizer, "hello", false).unwrap(), [0]);
    let anywhere = Replace::new(ReplacePattern::Regex("^".into()), "x").unwrap();
    tokenizer.with_normalizer(Some(NormalizerWrapper::Replace(anywhere))).unwrap();
    assert_eq!(refused(&tokenizer, false), message);
}

#[test]
fn models_must_not_sample_from_a_lattice() {
    let words = [("<unk>", 0.0), ("a", 0.0), ("b", 0.0)];
    let vocabulary = words.map(|(word, score)| (word.to_string(), score)).to_vec();
    let mut model = Unigram::from(vocabulary, Some(0), false).unwrap();
    assert_eq!(encode(&Tokenizer::new(model.clone()), "ab", false).unwrap(), [1, 2]);
    model.alpha = Some(0.5);
    assert_eq!(
        refused(&Tokenizer::new(model), false),
        "tokenizer encode failed: unsupported model"
    );
}

#[test]
fn templates_take_one_text_and_know_their_tokens() {
    let mut tokenizer = tokenizer();
    let message = "tokenizer encode failed: unsupported post-processor";
    let one = |single: &str| PostProcessorWrapper::Template(template(single));
    let plain = || PostProcessorWrapper::ByteLevel(ByteLevel::default());
    let several = |members| PostProcessorWrapper::Sequence(Sequence::new(members));
    for (taken, added, bare) in [
        (several(vec![plain(), one("$A [EOS]")]), vec![1, 3], vec![1]),
        (several(vec![one("$A"), one("[BOS] $A")]), vec![2, 1], vec![1]),
        (several(vec![several(vec![plain()]), several(vec![])]), vec![1], vec![1]),
        (several(vec![one("$A $A"), plain()]), vec![1, 1], vec![1, 1]),
        (several(vec![one("$A $A"), one("$A")]), vec![1, 1], vec![1, 1]),
    ] {
        tokenizer.with_post_processor(Some(taken));
        assert_eq!(encode(&tokenizer, "world", true).unwrap(), added);
        assert_eq!(encode(&tokenizer, "world", false).unwrap(), bare);
    }
    for one in [
        one("$A $B"),
        several(vec![one("$A $A $A"), one("$A")]),
        several(vec![plain(), several(vec![one("$A $A $A"), one("$A")])]),
    ] {
        tokenizer.with_post_processor(Some(one));
        assert_eq!(refused(&tokenizer, false), message);
    }
    tokenizer.with_post_processor(Some(several(vec![one("$A [EOS]"), one("[BOS] $A")])));
    assert_eq!(encode(&tokenizer, "world", false).unwrap(), [1]);
    assert_eq!(encode(&tokenizer, "world", true).unwrap(), [1, 3]);
    tokenizer.with_post_processor(Some(several(vec![one("[EOS]"), one("$A")])));
    assert_eq!(refused(&tokenizer, false), message);
    let mut forgetful = template("$A [EOS]");
    forgetful.set_special_tokens(vec![("[BOS]", 2)].into());
    tokenizer.with_post_processor(Some(forgetful));
    assert_eq!(refused(&tokenizer, true), message);
    assert_eq!(encode(&tokenizer, "world", false).unwrap(), [1]);
}

#[test]
fn decoders_have_to_take_the_tokens() {
    let mut tokenizer = tokenizer();
    let message = "tokenizer decode failed: unsupported decoder for these tokens";
    assert_eq!(decode(&tokenizer, &[2, 0, 1, 3], true).unwrap(), "hello world");
    assert_eq!(decode(&tokenizer, &[2, 0], false).unwrap(), "[BOS] hello");
    tokenizer.with_decoder(Some(Strip::new('h', 1, 0)));
    assert_eq!(decode(&tokenizer, &[0, 1], true).unwrap(), "elloworld");
    tokenizer.with_decoder(Some(Strip::new('d', 0, 9)));
    assert_eq!(decode(&tokenizer, &[0, 1], true).unwrap(), "helloworl");
    tokenizer.with_decoder(Some(BPEDecoder::new("ld".into())));
    assert_eq!(decode(&tokenizer, &[1, 1], true).unwrap(), "wor wor");
    for nothing in [vec![], vec![9], vec![2, 3]] {
        assert_eq!(decode(&tokenizer, &nothing, true).unwrap_err().0, message);
    }
    assert_eq!(decode(&tokenizer, &[2], false).unwrap(), "[BOS]");
    let fuse = || DecoderWrapper::Fuse(Fuse::new());
    let bpe = || DecoderWrapper::BPE(BPEDecoder::default());
    let strip = |content, start, stop| DecoderWrapper::Strip(Strip::new(content, start, stop));
    let replace = |pattern: &str, content: &str| {
        let pattern = ReplacePattern::Regex(pattern.into());
        DecoderWrapper::Replace(Replace::new(pattern, content).unwrap())
    };
    let several = |members| DecoderWrapper::Sequence(DecoderSequence::new(members));
    for (taken, text) in [
        (several(vec![fuse()]), "helloworld"),
        (several(vec![fuse(), bpe()]), "helloworld"),
        (several(vec![several(vec![fuse()]), strip('d', 0, 1)]), "helloworl"),
        (replace("l+", "L"), "heLoworLd"),
    ] {
        tokenizer.with_decoder(Some(taken));
        assert_eq!(decode(&tokenizer, &[0, 1], true).unwrap(), text);
    }
    for one in [
        several(vec![replace("w.*", ""), strip('x', 0, 1)]),
        several(vec![replace("h.*", "hh"), strip('h', 2, 1)]),
        replace("(?=hello\\K)", "x"),
    ] {
        tokenizer.with_decoder(Some(one));
        assert_eq!(decode(&tokenizer, &[0, 1], true).unwrap_err().0, message);
    }
    assert_eq!(
        decode(&tokenizer, &[0, -3], true).unwrap_err().0,
        "cannot decode negative token id -3"
    );

    assert!(check_strip("hey", 'h', 1, 1));
    assert!(check_strip("", 'h', 3, 0));
    assert!(!check_strip("", 'h', 0, 1));
    assert!(check_strip("yy", 'y', 0, 2));
    assert!(!check_strip("yy", 'y', 0, 3));
    assert!(check_strip("yy", 'y', 1, 1));
    assert!(!check_strip("yy", 'y', 2, 1));
}
