//! Analysis-chain components: a normalizer that converts a whole text, a
//! tokenizer that emits the converted text as one token, and a token filter
//! that converts each token's term.

use vstd::prelude::*;
use vstd::string::StringExecFns;
use crate::config::ConvertConfig;
use crate::converter::STConverter;
use crate::dict_data::dictionary_for;
use crate::model::DictModel;

verus! {

/// A token: its term, the byte offsets it spans in the input, and its
/// position in the token stream.
#[derive(Clone, Debug)]
pub struct Token {
    pub term: String,
    pub start_offset: u32,
    pub end_offset: u32,
    pub position: u32,
}

/// Normalizer that converts the full input text in place.
#[derive(Clone)]
pub struct STConvertNormalizer {
    converter: STConverter,
}

impl STConvertNormalizer {
    /// The dictionary this normalizer applies.
    pub closed spec fn dict(&self) -> DictModel {
        self.converter.dict()
    }

    pub fn new(config: ConvertConfig) -> (r: Self)
        ensures
            r.dict() == dictionary_for(config.convert_type),
    {
        STConvertNormalizer { converter: STConverter::new(config.convert_type) }
    }

    /// A normalizer applying `converter` (for a dictionary loaded at run time).
    pub fn with_converter(converter: STConverter) -> (r: Self)
        ensures
            r.dict() == converter.dict(),
    {
        STConvertNormalizer { converter }
    }

    /// Replace `text` by its conversion.
    pub fn normalize(&self, text: &mut String)
        ensures
            final(text)@ == self.dict().convert(old(text)@),
    {
        let converted = self.converter.convert(text.as_str());
        if !(converted == *text) {
            *text = converted;
        }
    }
}

/// Tokenizer that converts the full input text and emits it as a single
/// token.
#[derive(Clone)]
pub struct STConvertTokenizer {
    config: ConvertConfig,
    converter: STConverter,
}

/// The term the tokenizer emits for `input` converted to `converted`: both
/// forms joined by the delimiter when `keep_both` is set and the conversion
/// changed something, else the converted form.
pub open spec fn tokenizer_term(config: ConvertConfig, input: Seq<char>, converted: Seq<char>) -> Seq<
    char,
> {
    if config.keep_both && converted != input {
        input + config.delimiter@ + converted
    } else {
        converted
    }
}

/// Under `keep_both` the term is the input, the delimiter and the converted
/// text exactly when conversion changed the input; in every other case it
/// is the converted text, which equals the input when nothing changed.
pub proof fn lemma_tokenizer_term(config: ConvertConfig, input: Seq<char>, converted: Seq<char>)
    ensures
        config.keep_both && converted != input ==> tokenizer_term(config, input, converted)
            == input + config.delimiter@ + converted,
        !config.keep_both ==> tokenizer_term(config, input, converted) == converted,
        converted == input ==> tokenizer_term(config, input, converted) == input,
{
}

impl STConvertTokenizer {
    /// The dictionary this tokenizer applies.
    pub closed spec fn dict(&self) -> DictModel {
        self.converter.dict()
    }

    /// The configuration this tokenizer was made with.
    pub closed spec fn config(&self) -> ConvertConfig {
        self.config
    }

    pub fn new(config: ConvertConfig) -> (r: Self)
        ensures
            r.config() == config,
            r.dict() == dictionary_for(config.convert_type),
    {
        STConvertTokenizer { converter: STConverter::new(config.convert_type), config }
    }

    /// A tokenizer applying `converter` (for a dictionary loaded at run time).
    pub fn with_converter(config: ConvertConfig, converter: STConverter) -> (r: Self)
        ensures
            r.config() == config,
            r.dict() == converter.dict(),
    {
        STConvertTokenizer { converter, config }
    }

    /// The tokens of `input`: none for empty input, else one token spanning
    /// the whole input at position 0.
    pub fn tokenize(&self, input: &str) -> (r: Vec<Token>)
        ensures
            input@.len() == 0 ==> r@.len() == 0,
            input@.len() > 0 ==> {
                &&& r@.len() == 1
                &&& r@[0].term@ == tokenizer_term(
                    self.config(),
                    input@,
                    self.dict().convert(input@),
                )
                &&& r@[0].start_offset == 0
                &&& r@[0].end_offset == input.len() as u32
                &&& r@[0].position == 0
            },
    {
        if input.is_empty() {
            return Vec::new();
        }
        let converted = self.converter.convert(input);
        let end = input.len() as u32;
        let source = input.to_owned();
        let term = if self.config.keep_both && !(converted == source) {
            let mut combined = source;
            combined.append(self.config.delimiter);
            combined.append(converted.as_str());
            combined
        } else {
            converted
        };
        let mut tokens: Vec<Token> = Vec::new();
        tokens.push(Token { term, start_offset: 0, end_offset: end, position: 0 });
        tokens
    }
}

/// Token filter that converts each token's term individually.
#[derive(Clone)]
pub struct STConvertTokenFilter {
    config: ConvertConfig,
    converter: STConverter,
}

impl STConvertTokenFilter {
    /// The dictionary this filter applies.
    pub closed spec fn dict(&self) -> DictModel {
        self.converter.dict()
    }

    /// The configuration this filter was made with.
    pub closed spec fn config(&self) -> ConvertConfig {
        self.config
    }

    pub fn new(config: ConvertConfig) -> (r: Self)
        ensures
            r.config() == config,
            r.dict() == dictionary_for(config.convert_type),
    {
        STConvertTokenFilter { converter: STConverter::new(config.convert_type), config }
    }

    /// A token filter applying `converter` (for a dictionary loaded at run
    /// time).
    pub fn with_converter(config: ConvertConfig, converter: STConverter) -> (r: Self)
        ensures
            r.config() == config,
            r.dict() == converter.dict(),
    {
        STConvertTokenFilter { converter, config }
    }

    /// Convert one token. The token is kept (`true`); when its term is
    /// unchanged by conversion nothing else happens; otherwise with
    /// `keep_both` the converted form comes back as an extra token at the
    /// same offsets and position, and without it the term is replaced.
    pub fn filter(&self, token: &mut Token) -> (r: (bool, Option<Vec<Token>>))
        ensures
            r.0,
            ({
                let conv = self.dict().convert(old(token).term@);
                &&& conv == old(token).term@ ==> r.1 is None && final(token).term@ == old(
                    token,
                ).term@
                &&& conv != old(token).term@ && self.config().keep_both ==> {
                    &&& final(token).term@ == old(token).term@
                    &&& r.1 matches Some(extra) && extra@.len() == 1 && extra@[0].term@ == conv
                        && extra@[0].start_offset == old(token).start_offset
                        && extra@[0].end_offset == old(token).end_offset
                        && extra@[0].position == old(token).position
                }
                &&& conv != old(token).term@ && !self.config().keep_both ==> r.1 is None
                    && final(token).term@ == conv
            }),
            final(token).start_offset == old(token).start_offset,
            final(token).end_offset == old(token).end_offset,
            final(token).position == old(token).position,
    {
        let term_before = token.term.clone();
        let converted = self.converter.convert(term_before.as_str());
        if converted == term_before {
            return (true, None);
        }
        if self.config.keep_both {
            let extra = Token {
                term: converted,
                start_offset: token.start_offset,
                end_offset: token.end_offset,
                position: token.position,
            };
            let mut v: Vec<Token> = Vec::new();
            v.push(extra);
            (true, Some(v))
        } else {
            token.term = converted;
            (true, None)
        }
    }
}

} // verus!
