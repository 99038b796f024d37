//! Corpus selection and prompt limits.

use vstd::prelude::*;

use crate::corpus::CorpusActivation;
use crate::text::owned;

verus! {

broadcast use vstd::string::group_string_axioms;

/// Runtime-independent corpus selection and prompt limits. Paths are kept as
/// text; whoever opens them resolves them against the project root.
#[derive(Debug)]
pub struct CorpusConfig {
    pub enabled: bool,
    pub max_entries: usize,
    pub asr_max_chars: usize,
    pub translation_max_chars: usize,
    pub asr_history_entries: usize,
    pub translation_history_entries: usize,
    pub database_path: String,
    pub seed_database_path: String,
}

/// The mathematical content of a configuration.
pub struct ConfigView {
    pub enabled: bool,
    pub max_entries: usize,
    pub asr_max_chars: usize,
    pub translation_max_chars: usize,
    pub asr_history_entries: usize,
    pub translation_history_entries: usize,
    pub database_path: Seq<char>,
    pub seed_database_path: Seq<char>,
}

impl View for CorpusConfig {
    type V = ConfigView;

    open spec fn view(&self) -> ConfigView {
        ConfigView {
            enabled: self.enabled,
            max_entries: self.max_entries,
            asr_max_chars: self.asr_max_chars,
            translation_max_chars: self.translation_max_chars,
            asr_history_entries: self.asr_history_entries,
            translation_history_entries: self.translation_history_entries,
            database_path: self.database_path@,
            seed_database_path: self.seed_database_path@,
        }
    }
}

impl Clone for CorpusConfig {
    fn clone(&self) -> (r: Self)
        ensures
            r@ == self@,
    {
        CorpusConfig {
            enabled: self.enabled,
            max_entries: self.max_entries,
            asr_max_chars: self.asr_max_chars,
            translation_max_chars: self.translation_max_chars,
            asr_history_entries: self.asr_history_entries,
            translation_history_entries: self.translation_history_entries,
            database_path: self.database_path.clone(),
            seed_database_path: self.seed_database_path.clone(),
        }
    }
}

/// Selection is on unless configured off.
pub fn default_true() -> (r: bool)
    ensures
        r,
{
    true
}

/// History entries kept by default.
pub fn default_max_entries() -> (r: usize)
    ensures
        r == 6,
{
    6
}

/// Default character budget of the ASR prompt.
pub fn default_asr_max_chars() -> (r: usize)
    ensures
        r == 800,
{
    800
}

/// Default character budget of the translation prompt.
pub fn default_translation_max_chars() -> (r: usize)
    ensures
        r == 1200,
{
    1200
}

/// Default number of history entries in the ASR echo guard.
pub fn default_asr_history_entries() -> (r: usize)
    ensures
        r == 1,
{
    1
}

/// Default number of history turns in the translation prompt.
pub fn default_translation_history_entries() -> (r: usize)
    ensures
        r == 6,
{
    6
}

/// Default runtime graph database path.
pub fn default_database_path() -> (r: String)
    ensures
        r@ == "runtime/xr-corpus.sqlite"@,
{
    owned("runtime/xr-corpus.sqlite")
}

/// Default seed graph database path.
pub fn default_seed_database_path() -> (r: String)
    ensures
        r@ == "corpora/default.sqlite"@,
{
    owned("corpora/default.sqlite")
}

/// Graph nodes are evidence-activated unless stated otherwise.
pub fn default_corpus_activation() -> (r: CorpusActivation)
    ensures
        r == CorpusActivation::OnEvidence,
{
    CorpusActivation::OnEvidence
}

impl Default for CorpusConfig {
    fn default() -> (r: Self)
        ensures
            r@ == (ConfigView {
                enabled: true,
                max_entries: 6,
                asr_max_chars: 800,
                translation_max_chars: 1200,
                asr_history_entries: 1,
                translation_history_entries: 6,
                database_path: "runtime/xr-corpus.sqlite"@,
                seed_database_path: "corpora/default.sqlite"@,
            }),
    {
        CorpusConfig {
            enabled: default_true(),
            max_entries: default_max_entries(),
            asr_max_chars: default_asr_max_chars(),
            translation_max_chars: default_translation_max_chars(),
            asr_history_entries: default_asr_history_entries(),
            translation_history_entries: default_translation_history_entries(),
            database_path: default_database_path(),
            seed_database_path: default_seed_database_path(),
        }
    }
}

} // verus!
