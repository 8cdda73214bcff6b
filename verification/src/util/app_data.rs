use vstd::prelude::*;

verus! {

/// The settings that the surrounding application runs with. Only the
/// suggestion limit has an effect on the autocompletion itself; the language
/// and the thread count are carried for the application.
pub struct AppData {
    language: String,
    thread_count: u8,
    max_suggestion: u8,
}

impl Default for AppData {
    /// English, two threads, ten suggestions.
    fn default() -> (r: Self)
        ensures
            r.language() == "en-US"@,
            r.thread_count() == 2,
            r.max_suggestion() == 10,
    {
        Self { language: "en-US".to_owned(), thread_count: 2, max_suggestion: 10 }
    }
}

impl AppData {
    /// The language tag.
    pub closed spec fn language(&self) -> Seq<char> {
        self.language@
    }

    /// The advisory number of worker threads.
    pub closed spec fn thread_count(&self) -> u8 {
        self.thread_count
    }

    /// The largest number of suggestions that one query returns.
    pub closed spec fn max_suggestion(&self) -> u8 {
        self.max_suggestion
    }

    /// The default settings, with each given value in place of its default.
    pub fn build(
        language: Option<String>,
        thread_count: Option<u8>,
        max_suggestion: Option<u8>,
    ) -> (r: Self)
        ensures
            r.language() == match language {
                Some(l) => l@,
                None => "en-US"@,
            },
            r.thread_count() == match thread_count {
                Some(t) => t,
                None => 2u8,
            },
            r.max_suggestion() == match max_suggestion {
                Some(m) => m,
                None => 10u8,
            },
    {
        let mut app_data = AppData::default();
        if let Some(lang) = language {
            app_data.language = lang;
        }
        if let Some(thread) = thread_count {
            app_data.thread_count = thread;
        }
        if let Some(max_sugg) = max_suggestion {
            app_data.max_suggestion = max_sugg;
        }
        app_data
    }

    /// The language tag.
    pub fn get_language(&self) -> (r: &str)
        ensures
            r@ == self.language(),
    {
        self.language.as_str()
    }

    /// The advisory number of worker threads.
    pub fn get_thread_count(&self) -> (r: u8)
        ensures
            r == self.thread_count(),
    {
        self.thread_count
    }

    /// The largest number of suggestions that one query returns.
    pub fn get_max_suggestion(&self) -> (r: u8)
        ensures
            r == self.max_suggestion(),
    {
        self.max_suggestion
    }
}

} // verus!
