//! The content kinds, the extension classifier, and the summary artifact.

use crate::unicode::chars_of;
use crate::textops::seqs_eq;
use vstd::prelude::*;

verus! {

/// The closed set of content kinds an extension can map to.
#[derive(Clone, Copy, Debug, PartialEq, Eq, Structural)]
pub enum FileType {
    Text,
    Markdown,
    Log,
    RustCode,
    Unknown,
}

/// The kind a file-extension hint maps to: a total, case-sensitive table.
/// Every extension (including a missing one) maps to exactly one kind.
pub open spec fn kind_of_extension(ext: Option<Seq<char>>) -> FileType {
    match ext {
        Some(e) => if e == "txt"@ {
            FileType::Text
        } else if e == "md"@ {
            FileType::Markdown
        } else if e == "log"@ {
            FileType::Log
        } else if e == "rs"@ {
            FileType::RustCode
        } else {
            FileType::Unknown
        },
        None => FileType::Unknown,
    }
}

/// Classification is total: every extension hint, including a missing one,
/// maps to exactly one of the five kinds.
pub proof fn lemma_classification_total(ext: Option<Seq<char>>)
    ensures
        kind_of_extension(ext) == FileType::Text || kind_of_extension(ext) == FileType::Markdown
            || kind_of_extension(ext) == FileType::Log || kind_of_extension(ext)
            == FileType::RustCode || kind_of_extension(ext) == FileType::Unknown,
{
}

impl FileType {
    /// Classifies a file by its extension hint.
    pub fn from_extension(ext: Option<&str>) -> (r: FileType)
        ensures
            r == kind_of_extension(
                match ext {
                    Some(e) => Some(e@),
                    None => None,
                },
            ),
    {
        match ext {
            None => FileType::Unknown,
            Some(e) => {
                let ev = chars_of(e);
                if seqs_eq(&ev, &chars_of("txt")) {
                    FileType::Text
                } else if seqs_eq(&ev, &chars_of("md")) {
                    FileType::Markdown
                } else if seqs_eq(&ev, &chars_of("log")) {
                    FileType::Log
                } else if seqs_eq(&ev, &chars_of("rs")) {
                    FileType::RustCode
                } else {
                    FileType::Unknown
                }
            },
        }
    }
}

/// The sole artifact an analysis produces: the kind, the universal counts,
/// the ordered insight strings and the named, string-formatted statistics.
#[derive(Debug, Clone)]
pub struct FileSummary {
    pub file_type: FileType,
    pub line_count: usize,
    pub word_count: usize,
    pub char_count: usize,
    pub key_insights: Vec<String>,
    pub statistics: Vec<(String, String)>,
}

impl FileSummary {
    /// Whether a statistic named `key` is present.
    pub fn has_statistic(&self, key: &str) -> (r: bool)
        ensures
            r == exists|i: int|
                0 <= i < self.statistics@.len() && self.statistics@[i].0@ == key@,
    {
        let kv = chars_of(key);
        let mut i: usize = 0;
        while i < self.statistics.len()
            invariant
                i <= self.statistics@.len(),
                kv@ == key@,
                forall|k: int| 0 <= k < i ==> self.statistics@[k].0@ != key@,
            decreases self.statistics@.len() - i,
        {
            let pair = &self.statistics[i];
            let pk = chars_of(pair.0.as_str());
            if seqs_eq(&pk, &kv) {
                return true;
            }
            i += 1;
        }
        false
    }

    /// The value of the statistic named `key`, if present: the value of the
    /// first pair carrying that key.
    pub fn statistic(&self, key: &str) -> (r: Option<String>)
        ensures
            match r {
                Some(v) => exists|i: int|
                    0 <= i < self.statistics@.len() && self.statistics@[i].0@ == key@
                        && self.statistics@[i].1@ == v@,
                None => forall|i: int|
                    0 <= i < self.statistics@.len() ==> self.statistics@[i].0@ != key@,
            },
    {
        let kv = chars_of(key);
        let mut i: usize = 0;
        while i < self.statistics.len()
            invariant
                i <= self.statistics@.len(),
                kv@ == key@,
                forall|k: int| 0 <= k < i ==> self.statistics@[k].0@ != key@,
            decreases self.statistics@.len() - i,
        {
            let pair = &self.statistics[i];
            let pk = chars_of(pair.0.as_str());
            if seqs_eq(&pk, &kv) {
                return Some(pair.1.clone());
            }
            i += 1;
        }
        None
    }
}

} // verus!
