use crate::common::trie::{is_prefix, is_word, Trie};
use crate::util::text::views;
use crate::util::app_data::AppData;
use crate::util::backup::{
    decode, encode, lemma_decode_encode, lemma_words_are_storable, storable, Backup,
};
use crate::util::errors::TrieError;
use vstd::prelude::*;

verus! {

/// The number of words at the start of `ws` that consist of letters only.
pub open spec fn words_run(ws: Seq<Seq<char>>) -> nat
    decreases ws.len(),
{
    if ws.len() == 0 || !is_word(ws[0]) {
        0
    } else {
        1 + words_run(ws.skip(1))
    }
}

/// `words_run(ws)` is the index of the first element of `ws` that is no
/// word, or the length of `ws` where there is none.
pub proof fn lemma_words_run(ws: Seq<Seq<char>>)
    ensures
        words_run(ws) <= ws.len(),
        forall|i: int| 0 <= i < words_run(ws) ==> is_word(#[trigger] ws[i]),
        words_run(ws) < ws.len() ==> !is_word(ws[words_run(ws) as int]),
    decreases ws.len(),
{
    if ws.len() != 0 && is_word(ws[0]) {
        let t = ws.skip(1);
        lemma_words_run(t);
        assert forall|i: int| 0 <= i < words_run(ws) implies is_word(#[trigger] ws[i]) by {
            if i > 0 {
                assert(ws[i] == t[i - 1]);
            }
        }
        if words_run(ws) < ws.len() {
            assert(ws[words_run(ws) as int] == t[words_run(t) as int]);
        }
    }
}

/// Words that were written to the log are read back from it: the text of a
/// batch of words of letters decodes to the batch, and each of them is
/// accepted on replay.
pub proof fn lemma_replay(ws: Seq<Seq<char>>)
    requires
        forall|i: int| 0 <= i < ws.len() ==> is_word(#[trigger] ws[i]),
    ensures
        decode(encode(ws)) == ws,
        words_run(ws) == ws.len(),
{
    assert forall|i: int| 0 <= i < ws.len() implies storable(#[trigger] ws[i]) by {
        lemma_words_are_storable(ws[i]);
    }
    lemma_decode_encode(ws);
    lemma_words_run(ws);
}

/// The engine that a front end talks to: the settings, the word log where
/// words are to outlast the process, and the tree of the words seen so far.
///
/// The engine does no input or output. Where the log is in use, `insert_word`
/// hands back the text to append to it, and `load_backup` takes the text that
/// was read from it.
pub struct Autocomplete {
    app_data: AppData,
    backup: Option<Backup>,
    trie: Trie,
}

impl Autocomplete {
    /// The settings.
    pub closed spec fn app_data(&self) -> AppData {
        self.app_data
    }

    /// The word log, where words are kept.
    pub closed spec fn backup(&self) -> Option<Backup> {
        self.backup
    }

    /// The tree of words.
    pub closed spec fn trie(&self) -> Trie {
        self.trie
    }

    /// The tree of words is well formed.
    pub open spec fn wf(&self) -> bool {
        self.trie().wf()
    }

    /// The words that the engine knows.
    pub open spec fn view(&self) -> Set<Seq<char>> {
        self.trie()@
    }

    /// The largest number of suggestions that one query returns.
    pub open spec fn limit(&self) -> nat {
        self.app_data().max_suggestion() as nat
    }

    /// Whether newly learned words are written to the log.
    pub open spec fn persistent(&self) -> bool {
        self.backup() is Some
    }

    /// What `suggest_word` answers for `prefix`: the suggestions of the tree,
    /// cut off at the limit.
    pub open spec fn suggested(&self, prefix: Seq<char>) -> Seq<Seq<char>> {
        let all = self.trie().suggestions(prefix);
        if self.limit() < all.len() {
            all.take(self.limit() as int)
        } else {
            all
        }
    }

    /// The number of suggestions for a prefix is the number of known words
    /// that start with it, or the limit where that is less.
    pub proof fn lemma_cap(&self, prefix: Seq<char>)
        requires
            self.wf(),
        ensures
            self.suggested(prefix).len() <= self.limit(),
            self.suggested(prefix).len() == if self.limit() < self.trie().matches(prefix).len() {
                self.limit()
            } else {
                self.trie().matches(prefix).len()
            },
            self.suggested(prefix).no_duplicates(),
            self.suggested(prefix).to_set().subset_of(self.trie().matches(prefix)),
    {
        let all = self.trie().suggestions(prefix);
        let got = self.suggested(prefix);
        self.trie().lemma_suggestions(prefix);
        all.unique_seq_to_set();
        assert forall|w: Seq<char>| got.to_set().contains(w) implies self.trie().matches(
            prefix,
        ).contains(w) by {
            let j = choose|j: int| 0 <= j < got.len() && got[j] == w;
            assert(all[j] == w);
            assert(all.to_set().contains(w));
        }
    }

    /// A known word is the first suggestion for itself, where the limit
    /// allows any suggestion at all. Every word that `insert_word` accepted
    /// is a known word.
    pub proof fn lemma_known_word_suggested(&self, w: Seq<char>)
        requires
            self.wf(),
            self@.contains(w),
            self.limit() >= 1,
        ensures
            self.suggested(w).len() >= 1,
            self.suggested(w)[0] == w,
            self.suggested(w).contains(w),
    {
        self.trie().lemma_stored_word_leads(w);
    }

    /// A prefix that no known word starts with has no suggestion.
    pub proof fn lemma_unseen_prefix(&self, prefix: Seq<char>)
        requires
            self.wf(),
            forall|w: Seq<char>| self@.contains(w) ==> !is_prefix(prefix, w),
        ensures
            self.suggested(prefix) == Seq::<Seq<char>>::empty(),
    {
        self.trie().lemma_unseen_prefix(prefix);
        assert(self.suggested(prefix) =~= Seq::<Seq<char>>::empty());
    }

    /// An engine without words. `language` and `thread_count` are kept for
    /// the application and change nothing here; `backup_path` counts only
    /// where `has_backup` is set.
    pub fn build(
        language: Option<String>,
        thread_count: Option<u8>,
        max_suggestion: Option<u8>,
        has_backup: bool,
        backup_path: Option<&str>,
    ) -> (r: Self)
        ensures
            r.wf(),
            r@ == Set::<Seq<char>>::empty(),
            r.app_data().language() == match language {
                Some(l) => l@,
                None => "en-US"@,
            },
            r.app_data().thread_count() == match thread_count {
                Some(t) => t,
                None => 2u8,
            },
            r.limit() == match max_suggestion {
                Some(m) => m as nat,
                None => 10nat,
            },
            r.persistent() == has_backup,
            has_backup ==> r.backup().unwrap().file_path@ == match backup_path {
                Some(p) => p@,
                None => crate::util::backup::BACKUP_FILE_PATH@,
            },
    {
        let app_data = AppData::build(language, thread_count, max_suggestion);
        let backup = if has_backup {
            Some(Backup::build(backup_path))
        } else {
            None
        };
        let trie = Trie::new();
        Self { app_data, backup, trie }
    }

    /// The settings.
    pub fn get_app_data(&self) -> (r: &AppData)
        ensures
            *r == self.app_data(),
    {
        &self.app_data
    }

    /// The word log, where words are kept.
    pub fn get_backup(&self) -> (r: Option<&Backup>)
        ensures
            match r {
                Some(b) => self.backup() == Some(*b),
                None => self.backup() is None,
            },
    {
        match &self.backup {
            Some(b) => Some(b),
            None => None,
        }
    }

    /// Replays the log: inserts each word that `contents`, the text of the
    /// log, holds, in order. Nothing happens where no log is in use. The
    /// first entry that is no word ends the replay with an error; the words
    /// before it stay.
    pub fn load_backup(&mut self, contents: &str) -> (r: Result<(), TrieError>)
        requires
            old(self).wf(),
        ensures
            final(self).wf(),
            final(self).app_data() == old(self).app_data(),
            final(self).backup() == old(self).backup(),
            !old(self).persistent() ==> r is Ok && final(self)@ == old(self)@,
            old(self).persistent() ==> {
                let ws = decode(contents@);
                let k = words_run(ws) as int;
                &&& r is Ok <==> k == ws.len()
                &&& final(self)@ == old(self)@.union(ws.take(k).to_set())
            },
    {
        let words = match &self.backup {
            Some(backup) => backup.load_data(contents),
            None => {
                return Ok(());
            },
        };
        let ghost ws = views(words@);
        let n = words.len();
        let mut i: usize = 0;
        proof {
            lemma_words_run(ws);
            assert(old(self)@.union(ws.take(0).to_set()) =~= old(self)@);
        }
        while i < n
            invariant
                self.wf(),
                self.app_data() == old(self).app_data(),
                self.backup() == old(self).backup(),
                old(self).persistent(),
                n == words@.len(),
                ws == views(words@),
                ws == decode(contents@),
                i <= n,
                i <= words_run(ws),
                self@ == old(self)@.union(ws.take(i as int).to_set()),
            decreases n - i,
        {
            let word = words[i].clone();
            proof {
                lemma_words_run(ws);
                assert(word@ == ws[i as int]);
                assert(word@.skip(0) =~= word@);
            }
            let ghost before = self@;
            match Trie::insert(word, &mut self.trie.root, 0) {
                Ok(()) => {},
                Err(e) => {
                    return Err(e);
                },
            }
            i += 1;
            proof {
                assert(ws.take(i as int) =~= ws.take(i - 1).push(ws[i - 1]));
                assert(ws.take(i as int).to_set() =~= ws.take(i - 1).to_set().insert(ws[i - 1])) by {
                    vstd::seq_lib::lemma_seq_contains_after_push(ws.take(i - 1), ws[i - 1], ws[i - 1]);
                    assert forall|w: Seq<char>|
                        ws.take(i as int).contains(w) <==> ws.take(i - 1).contains(w) || w == ws[i
                            - 1] by {
                        vstd::seq_lib::lemma_seq_contains_after_push(ws.take(i - 1), ws[i - 1], w);
                    }
                }
                assert(self@ =~= old(self)@.union(ws.take(i as int).to_set()));
            }
        }
        proof {
            lemma_words_run(ws);
        }
        Ok(())
    }

    /// Learns `word`. Where the log is in use, the result holds the text to
    /// append to it; a word that is refused changes no stored word and gives
    /// nothing to append.
    pub fn insert_word(&mut self, word: String) -> (r: Result<Option<String>, TrieError>)
        requires
            old(self).wf(),
        ensures
            final(self).wf(),
            final(self).app_data() == old(self).app_data(),
            final(self).backup() == old(self).backup(),
            final(self)@ == if is_word(word@) {
                old(self)@.insert(word@)
            } else {
                old(self)@
            },
            match r {
                Ok(Some(record)) => is_word(word@) && old(self).persistent() && record@ == encode(
                    seq![word@],
                ),
                Ok(None) => is_word(word@) && !old(self).persistent(),
                Err(e) => !is_word(word@),
            },
            old(self)@.contains(word@) ==> forall|prefix: Seq<char>|
                final(self).suggested(prefix) == #[trigger] old(self).suggested(prefix),
    {
        assert(word@.skip(0) =~= word@);
        let inserted = Trie::insert(word.clone(), &mut self.trie.root, 0);
        proof {
            if old(self)@.contains(word@) {
                assert forall|prefix: Seq<char>|
                    self.suggested(prefix) == #[trigger] old(self).suggested(prefix) by {
                    old(self).trie().lemma_same_shape_suggestions(&self.trie(), prefix);
                }
            }
        }
        match inserted {
            Ok(()) => {},
            Err(e) => {
                return Err(e);
            },
        }
        match &self.backup {
            Some(backup) => {
                let mut batch: Vec<String> = Vec::new();
                batch.push(word);
                assert(views(batch@) =~= seq![word@]);
                Ok(Some(backup.save_data(batch)))
            },
            None => Ok(None),
        }
    }

    /// The known words that start with `prefix`, at most as many as the
    /// limit allows. No match is an empty list, never an error.
    pub fn suggest_word(&self, prefix: &str) -> (r: Result<Vec<String>, TrieError>)
        requires
            self.wf(),
        ensures
            r is Ok,
            views(r.unwrap()@) == self.suggested(prefix@),
            views(r.unwrap()@).no_duplicates(),
            views(r.unwrap()@).to_set().subset_of(self.trie().matches(prefix@)),
            r.unwrap()@.len() <= self.limit(),
            r.unwrap()@.len() == if self.limit() < self.trie().matches(prefix@).len() {
                self.limit()
            } else {
                self.trie().matches(prefix@).len()
            },
    {
        let suggestions = match self.trie.suggest(prefix) {
            Ok(s) => s,
            Err(e) => {
                return Err(e);
            },
        };
        let limit: usize = self.app_data.get_max_suggestion() as usize;
        let n = suggestions.len();
        let mut out: Vec<String> = Vec::new();
        let mut i: usize = 0;
        assert(views(out@) =~= views(suggestions@).take(0));
        while i < n && i < limit
            invariant
                n == suggestions@.len(),
                i <= n,
                i <= limit,
                views(out@) == views(suggestions@).take(i as int),
            decreases n - i,
        {
            let ghost so_far = views(out@);
            let word = suggestions[i].clone();
            assert(word@ == views(suggestions@)[i as int]);
            out.push(word);
            i += 1;
            assert(views(out@) =~= so_far.push(word@));
            assert(views(out@) =~= views(suggestions@).take(i as int));
        }
        proof {
            let all = views(suggestions@);
            assert(all.take(n as int) =~= all);
            self.lemma_cap(prefix@);
        }
        Ok(out)
    }
}

} // verus!
