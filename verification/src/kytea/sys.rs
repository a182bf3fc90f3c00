//! The settings of the KyTea library and the codes by which it reports them.
use vstd::prelude::*;

verus! {

/// Errors that can occur when setting up a KyTea prediction context.
#[derive(Debug, Clone, Copy, PartialEq, Eq, Structural)]
pub enum TrainConfigError {
    /// No action is possible with the current configuration.
    DoNothing,
    /// Raw input format was selected but word segmentation is disabled.
    RawWithoutWordSegmentation,
    /// Word segmentation is requested but no model is loaded.
    NoWordSegmentationModel,
}

/// The error that a sanity-check code of KyTea stands for: 1, 2 and 3 are errors, any other code
/// is none.
pub open spec fn spec_from_sanity_code(code: i32) -> Option<TrainConfigError> {
    if code == 1 {
        Some(TrainConfigError::DoNothing)
    } else if code == 2 {
        Some(TrainConfigError::RawWithoutWordSegmentation)
    } else if code == 3 {
        Some(TrainConfigError::NoWordSegmentationModel)
    } else {
        None
    }
}

impl TrainConfigError {
    /// The error reported by the sanity check of a configuration, if any.
    pub fn from_sanity_code(code: i32) -> (r: Option<TrainConfigError>)
        ensures
            r == spec_from_sanity_code(code),
    {
        match code {
            1 => Some(TrainConfigError::DoNothing),
            2 => Some(TrainConfigError::RawWithoutWordSegmentation),
            3 => Some(TrainConfigError::NoWordSegmentationModel),
            _ => None,
        }
    }
}

/// How much KyTea reports while it works.
#[derive(Debug, Clone, Copy, PartialEq, Eq, PartialOrd, Ord, Hash, Structural)]
pub enum DebugLevel {
    Silent,
    Simple,
    Detailed,
    Full,
}

impl DebugLevel {
    /// The level as KyTea numbers it: 0 to 3.
    pub fn raw_level(self) -> (r: u32)
        ensures
            r == match self {
                DebugLevel::Silent => 0u32,
                DebugLevel::Simple => 1u32,
                DebugLevel::Detailed => 2u32,
                DebugLevel::Full => 3u32,
            },
    {
        match self {
            DebugLevel::Silent => 0,
            DebugLevel::Simple => 1,
            DebugLevel::Detailed => 2,
            DebugLevel::Full => 3,
        }
    }
}

/// Supported corpus formats for KyTea.
#[derive(Debug, Clone, Copy, PartialEq, Eq, PartialOrd, Ord, Hash, Structural)]
pub enum CorpusFormat {
    /// Raw text.
    Raw,
    /// Fully annotated text.
    Full,
    /// Partially annotated text.
    Part,
    /// Text with tag probabilities.
    Prob,
    /// Tokenized text (word separation only).
    Tok,
    /// EDA format.
    Eda,
    /// Tagged format.
    Tags,
}

impl CorpusFormat {
    /// The format as KyTea numbers it; KyTea keeps 5 for its default format.
    pub fn raw_format(self) -> (r: u32)
        ensures
            r == match self {
                CorpusFormat::Raw => 0u32,
                CorpusFormat::Full => 1u32,
                CorpusFormat::Part => 2u32,
                CorpusFormat::Prob => 3u32,
                CorpusFormat::Tok => 4u32,
                CorpusFormat::Eda => 6u32,
                CorpusFormat::Tags => 7u32,
            },
    {
        match self {
            CorpusFormat::Raw => 0,
            CorpusFormat::Full => 1,
            CorpusFormat::Part => 2,
            CorpusFormat::Prob => 3,
            CorpusFormat::Tok => 4,
            CorpusFormat::Eda => 6,
            CorpusFormat::Tags => 7,
        }
    }

    /// Input already segmented into words turns word segmentation off.
    pub fn disables_word_segmentation(self) -> (r: bool)
        ensures
            r == (self is Full || self is Tok),
    {
        match self {
            CorpusFormat::Full | CorpusFormat::Tok => true,
            _ => false,
        }
    }
}

} // verus!
