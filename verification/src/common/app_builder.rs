use crate::common::autocomplete::Autocomplete;
use crate::util::backup::BACKUP_FILE_PATH;
use vstd::prelude::*;

verus! {

/// What the command line gives: each setting that was named, whether words
/// are kept in a log, and where that log lies.
#[derive(Debug)]
pub struct Args {
    pub language: Option<String>,
    pub thread_count: Option<u8>,
    pub max_suggestion: Option<u8>,
    pub backup: bool,
    pub output: Option<String>,
}

/// The application: an engine built from the command line.
pub struct Arbor {
    pub autocomplete: Autocomplete,
}

impl Args {
    /// A place for the log may be named only where a log is asked for.
    pub open spec fn consistent(&self) -> bool {
        self.output is Some ==> self.backup
    }

    /// Whether the arguments agree with each other.
    pub fn is_consistent(&self) -> (b: bool)
        ensures
            b == self.consistent(),
    {
        self.output.is_none() || self.backup
    }
}

impl Arbor {
    /// The application for `args`, or nothing where they name a place for
    /// the log without asking for one.
    pub fn build(args: Args) -> (r: Option<Arbor>)
        ensures
            r is Some <==> args.consistent(),
            r is Some ==> {
                let ac = r.unwrap().autocomplete;
                &&& ac.wf()
                &&& ac@ == Set::<Seq<char>>::empty()
                &&& ac.app_data().language() == match args.language {
                    Some(l) => l@,
                    None => "en-US"@,
                }
                &&& ac.app_data().thread_count() == match args.thread_count {
                    Some(t) => t,
                    None => 2u8,
                }
                &&& ac.limit() == match args.max_suggestion {
                    Some(m) => m as nat,
                    None => 10nat,
                }
                &&& ac.persistent() == args.backup
                &&& args.backup ==> ac.backup().unwrap().file_path@ == match args.output {
                    Some(p) => p@,
                    None => BACKUP_FILE_PATH@,
                }
            },
    {
        if !args.is_consistent() {
            return None;
        }
        let Args { language, thread_count, max_suggestion, backup, output } = args;
        let autocomplete = match &output {
            Some(path) => Autocomplete::build(
                language,
                thread_count,
                max_suggestion,
                backup,
                Some(path.as_str()),
            ),
            None => Autocomplete::build(language, thread_count, max_suggestion, backup, None),
        };
        Some(Arbor { autocomplete })
    }
}

} // verus!
