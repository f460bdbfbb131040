//! The error of a loader: which file could not be loaded, and why.
use vstd::prelude::*;
use vstd::string::StringExecFns;

use crate::config::ConfigError;
use crate::json::ParseError;
use crate::safetensors::ShardError;
use crate::tokenizer::VocabError;
use crate::weights::ModelError;

verus! {

/// Why a file could not be loaded.
#[derive(Debug)]
pub enum LoadSource {
    /// Reading the file failed; the text is the system's message.
    Io(String),
    /// The file is not valid JSON.
    Json(ParseError),
    /// The tokenizer file does not describe a byte-level vocabulary.
    Vocab(VocabError),
    /// The safetensors file is malformed.
    Shard(ShardError),
    /// The configuration is not one this library reads.
    Config(ConfigError),
    /// The model's weights could not be gathered from its shards.
    Model(ModelError),
    /// A file that this one names could not be loaded.
    File(Box<LoadError>),
}

/// A file that could not be loaded, and the cause.
#[derive(Debug)]
pub struct LoadError {
    path: String,
    source: LoadSource,
}

impl LoadError {
    pub fn new(path: &str, source: LoadSource) -> (e: LoadError)
        ensures
            e.path()@ == path@,
            e.source() == source,
    {
        LoadError { path: path.to_owned(), source }
    }

    pub closed spec fn path(&self) -> String {
        self.path
    }

    pub closed spec fn source(&self) -> LoadSource {
        self.source
    }

    /// The path of the file.
    pub fn path_str(&self) -> (p: &str)
        ensures
            p@ == self.path()@,
    {
        self.path.as_str()
    }

    /// The cause.
    pub fn cause(&self) -> (s: &LoadSource)
        ensures
            *s == self.source(),
    {
        &self.source
    }

    /// The text that reports the error; the cause is reported after it.
    pub fn message(&self) -> (s: String)
        ensures
            s@ == "could not load "@ + self.path()@,
    {
        let mut s = String::from_str("could not load ");
        s.append(self.path.as_str());
        s
    }
}

/// The text of a report: the error's own message, then each cause on a line
/// of its own.
pub open spec fn report_text(messages: Seq<Seq<char>>) -> Seq<char>
    decreases messages.len(),
{
    if messages.len() == 0 {
        Seq::empty()
    } else if messages.len() == 1 {
        messages[0]
    } else {
        report_text(messages.drop_last()) + "\ncaused by: "@ + messages.last()
    }
}

/// An error reported with the chain of its causes: the error's own message
/// first, then the message of each cause in turn.
pub struct Report {
    messages: Vec<String>,
}

impl View for Report {
    type V = Seq<Seq<char>>;

    closed spec fn view(&self) -> Seq<Seq<char>> {
        self.messages@.map_values(|m: String| m@)
    }
}

impl Report {
    /// A report of the given chain of messages.
    pub fn new(messages: Vec<String>) -> (r: Report)
        ensures
            r@ == messages@.map_values(|m: String| m@),
    {
        Report { messages }
    }

    /// The text of the report.
    pub fn text(&self) -> (s: String)
        ensures
            s@ == report_text(self@),
    {
        let ghost ms = self@;
        let mut s = String::new();
        let mut i: usize = 0;
        assert(ms.take(0) =~= Seq::<Seq<char>>::empty());
        while i < self.messages.len()
            invariant
                i <= self.messages@.len(),
                ms == self.messages@.map_values(|m: String| m@),
                s@ == report_text(ms.take(i as int)),
            decreases self.messages@.len() - i,
        {
            proof {
                assert(ms.take(i + 1).drop_last() =~= ms.take(i as int));
                assert(ms.take(i + 1).last() == self.messages@[i as int]@);
                if i == 0 {
                    assert(ms.take(1) =~= seq![self.messages@[0]@]);
                }
            }
            if i > 0 {
                s.append("\ncaused by: ");
            }
            s.append(self.messages[i].as_str());
            i += 1;
        }
        assert(ms.take(ms.len() as int) =~= ms);
        s
    }
}

} // verus!
