//! Configuration for Simplified/Traditional Chinese conversion.

use vstd::prelude::*;

verus! {

/// Conversion direction.
#[derive(Debug, Clone, Copy, PartialEq, Eq, Hash, Structural)]
pub enum ConvertType {
    /// Traditional Chinese to Simplified Chinese
    T2S,
    /// Simplified Chinese to Traditional Chinese
    S2T,
    /// Taiwan Traditional to Mainland Simplified
    TW2CN,
    /// Mainland Simplified to Taiwan Traditional
    CN2TW,
    /// Traditional to Hong Kong variant
    T2HK,
    /// Hong Kong variant to Traditional
    HK2T,
    /// Japanese Kanji variants to Traditional Chinese
    JP2T,
}

/// Configuration for the converter and its analysis components.
#[derive(Debug, Clone, Copy)]
pub struct ConvertConfig {
    /// Conversion direction.
    pub convert_type: ConvertType,
    /// When `true`, emit both the unconverted and the converted forms.
    pub keep_both: bool,
    /// Delimiter inserted between the unconverted and the converted form when
    /// `keep_both` is `true`.
    pub delimiter: &'static str,
}

/// The error message of a configuration that keeps both forms without a delimiter.
pub open spec fn empty_delimiter_message() -> Seq<char> {
    "delimiter must not be empty when keep_both is true"@
}

impl ConvertConfig {
    /// Whether the configuration is consistent: a `keep_both` configuration
    /// needs a non-empty delimiter.
    pub open spec fn is_valid(&self) -> bool {
        !(self.keep_both && self.delimiter@.len() == 0)
    }

    /// Create a new config for the given direction with defaults.
    pub fn new(convert_type: ConvertType) -> (cfg: Self)
        ensures
            cfg.convert_type == convert_type,
            !cfg.keep_both,
            cfg.delimiter@ == ","@,
    {
        let d = Self::default();
        ConvertConfig { convert_type, ..d }
    }

    /// Builder: set `keep_both` mode.
    pub fn with_keep_both(self, keep_both: bool) -> (cfg: Self)
        ensures
            cfg.keep_both == keep_both,
            cfg.convert_type == self.convert_type,
            cfg.delimiter == self.delimiter,
    {
        let mut cfg = self;
        cfg.keep_both = keep_both;
        cfg
    }

    /// Builder: set the delimiter.
    pub fn with_delimiter(self, delimiter: &'static str) -> (cfg: Self)
        ensures
            cfg.delimiter == delimiter,
            cfg.convert_type == self.convert_type,
            cfg.keep_both == self.keep_both,
    {
        let mut cfg = self;
        cfg.delimiter = delimiter;
        cfg
    }

    /// Validate that the configuration is consistent.
    /// Returns `Err` with a description if invalid.
    pub fn validate(&self) -> (r: Result<(), &'static str>)
        ensures
            r is Ok <==> self.is_valid(),
            r is Ok <==> !(self.keep_both && self.delimiter@.len() == 0),
            r matches Err(msg) ==> msg@ == empty_delimiter_message(),
    {
        if self.keep_both && self.delimiter.is_empty() {
            return Err("delimiter must not be empty when keep_both is true");
        }
        Ok(())
    }
}

impl Default for ConvertConfig {
    fn default() -> (cfg: Self)
        ensures
            cfg.convert_type == ConvertType::S2T,
            !cfg.keep_both,
            cfg.delimiter@ == ","@,
    {
        let delimiter = ",";
        proof {
            reveal_strlit(",");
        }
        ConvertConfig { convert_type: ConvertType::S2T, keep_both: false, delimiter }
    }
}

} // verus!
