use crate::common::trie::{is_letter, is_word, lemma_is_word};
use crate::util::text::{to_chars, views, word_from};
use vstd::prelude::*;

verus! {

/// Where the word log lies when no other place is given.
pub const BACKUP_FILE_PATH: &'static str = "/tmp/arbor/backup";

/// The number of characters of `s` before its first line feed, or the length
/// of `s` where it holds none.
pub open spec fn line_len(s: Seq<char>) -> nat
    decreases s.len(),
{
    if s.len() == 0 || s[0] == '\n' {
        0
    } else {
        1 + line_len(s.skip(1))
    }
}

/// A line without the carriage return that may close it.
pub open spec fn strip_cr(line: Seq<char>) -> Seq<char> {
    if line.len() > 0 && line.last() == '\r' {
        line.drop_last()
    } else {
        line
    }
}

/// The text that stands for a batch of words in the log: each word followed
/// by a line feed.
pub open spec fn encode(words: Seq<Seq<char>>) -> Seq<char>
    decreases words.len(),
{
    if words.len() == 0 {
        Seq::empty()
    } else {
        encode(words.drop_last()) + words.last() + seq!['\n']
    }
}

/// The words that a log holds: its lines that a line feed closes, in order,
/// each without a closing carriage return. What follows the last line feed
/// is a record that was never finished, and is left out.
pub open spec fn decode(text: Seq<char>) -> Seq<Seq<char>>
    decreases text.len(),
{
    let k = line_len(text) as int;
    if k >= text.len() {
        Seq::empty()
    } else {
        seq![strip_cr(text.take(k))] + decode(text.skip(k + 1))
    }
}

/// A word that the log gives back as it was written: it holds no line feed
/// and does not end in a carriage return.
pub open spec fn storable(word: Seq<char>) -> bool {
    &&& forall|i: int| 0 <= i < word.len() ==> word[i] != '\n'
    &&& strip_cr(word) == word
}

/// `line_len(s)` is the index of the first line feed of `s`.
pub proof fn lemma_line_len(s: Seq<char>)
    ensures
        line_len(s) <= s.len(),
        forall|i: int| 0 <= i < line_len(s) ==> #[trigger] s[i] != '\n',
        line_len(s) < s.len() ==> s[line_len(s) as int] == '\n',
    decreases s.len(),
{
    if s.len() != 0 && s[0] != '\n' {
        let t = s.skip(1);
        lemma_line_len(t);
        assert forall|i: int| 0 <= i < line_len(s) implies #[trigger] s[i] != '\n' by {
            if i > 0 {
                assert(s[i] == t[i - 1]);
            }
        }
        if line_len(s) < s.len() {
            assert(s[line_len(s) as int] == t[line_len(t) as int]);
        }
    }
}

/// The first line feed of `s` is at `k` where none stands before `k` and one
/// stands at `k` or `s` ends there.
pub proof fn lemma_line_len_is(s: Seq<char>, k: int)
    requires
        0 <= k <= s.len(),
        forall|i: int| 0 <= i < k ==> #[trigger] s[i] != '\n',
        k < s.len() ==> s[k] == '\n',
    ensures
        line_len(s) == k,
{
    lemma_line_len(s);
}

/// A log grows by appending: where `a` is empty or ends in a line feed, the
/// words of `a` followed by `b` are the words of `a`, then those of `b`.
pub proof fn lemma_decode_concat(a: Seq<char>, b: Seq<char>)
    requires
        a.len() == 0 || a.last() == '\n',
    ensures
        decode(a + b) == decode(a) + decode(b),
    decreases a.len(),
{
    if a.len() == 0 {
        assert(a + b =~= b);
        assert(decode(a) + decode(b) =~= decode(b));
    } else {
        lemma_line_len(a);
        let k = line_len(a) as int;
        assert(k < a.len()) by {
            if k >= a.len() {
                assert(a[a.len() - 1] != '\n');
            }
        }
        lemma_line_len_is(a + b, k);
        assert((a + b).take(k) =~= a.take(k));
        assert((a + b).skip(k + 1) =~= a.skip(k + 1) + b);
        let rest = a.skip(k + 1);
        if rest.len() > 0 {
            assert(rest.last() == a.last());
        }
        lemma_decode_concat(rest, b);
        assert(decode(a + b) =~= decode(a) + decode(b));
    }
}

/// The text of a batch is empty or ends in a line feed.
pub proof fn lemma_encode_closed(words: Seq<Seq<char>>)
    ensures
        encode(words).len() == 0 || encode(words).last() == '\n',
{
}

/// What was written is read back: decoding the text of a batch of storable
/// words gives the batch.
pub proof fn lemma_decode_encode(words: Seq<Seq<char>>)
    requires
        forall|i: int| 0 <= i < words.len() ==> storable(#[trigger] words[i]),
    ensures
        decode(encode(words)) == words,
    decreases words.len(),
{
    if words.len() == 0 {
        assert(decode(encode(words)) =~= words);
    } else {
        let front = words.drop_last();
        let w = words.last();
        let line = w + seq!['\n'];
        assert(encode(words) =~= encode(front) + line);
        lemma_decode_encode(front);
        lemma_encode_closed(front);
        lemma_decode_concat(encode(front), line);
        lemma_line_len_is(line, w.len() as int);
        assert(line.take(w.len() as int) =~= w);
        assert(line.skip(w.len() as int + 1).len() == 0);
        assert(decode(line.skip(w.len() as int + 1)) =~= Seq::<Seq<char>>::empty());
        assert(decode(line) =~= seq![w]);
        assert(decode(encode(words)) =~= words);
    }
}

/// Appending the text of a single word to the text of a batch gives the
/// text of the batch with that word behind it.
pub proof fn lemma_encode_push(words: Seq<Seq<char>>, word: Seq<char>)
    ensures
        encode(words.push(word)) == encode(words) + encode(seq![word]),
{
    assert(words.push(word).drop_last() =~= words);
    assert(seq![word].drop_last() =~= Seq::<Seq<char>>::empty());
    assert(encode(Seq::<Seq<char>>::empty()) =~= Seq::<char>::empty());
    assert(seq![word].last() == word);
    assert(encode(seq![word]) =~= word + seq!['\n']);
    assert(encode(words.push(word)) =~= encode(words) + encode(seq![word]));
}

/// A word of letters is storable.
pub proof fn lemma_words_are_storable(word: Seq<char>)
    requires
        is_word(word),
    ensures
        storable(word),
{
    lemma_is_word(word);
    if word.len() > 0 {
        assert(is_letter(word.last()));
    }
}

/// The word log: an append-only text of one word per line. Each word is
/// followed by a line feed; on reading, a carriage return before the line
/// feed is dropped, and what follows the last line feed is skipped as a
/// record that was never finished.
///
/// This type names the place of the log and converts between batches of
/// words and the text that stands for them; reading and writing the file is
/// the caller's part.
pub struct Backup {
    pub file_path: String,
}

impl Backup {
    /// The log at `file_path`, or at the default place where none is given.
    pub fn build(file_path: Option<&str>) -> (r: Self)
        ensures
            r.file_path@ == match file_path {
                Some(p) => p@,
                None => BACKUP_FILE_PATH@,
            },
    {
        let path = match file_path {
            Some(path) => path,
            None => BACKUP_FILE_PATH,
        };
        Self { file_path: path.to_owned() }
    }

    /// The text to append to the log for `words`.
    pub fn save_data(&self, words: Vec<String>) -> (record: String)
        ensures
            record@ == encode(views(words@)),
    {
        let mut out: Vec<char> = Vec::new();
        let n = words.len();
        let mut i: usize = 0;
        while i < n
            invariant
                n == words@.len(),
                i <= n,
                out@ == encode(views(words@).take(i as int)),
            decreases n - i,
        {
            let chars = to_chars(words[i].as_str());
            let ghost before = out@;
            let m = chars.len();
            let mut j: usize = 0;
            while j < m
                invariant
                    m == chars@.len(),
                    j <= m,
                    out@ == before + chars@.take(j as int),
                decreases m - j,
            {
                out.push(chars[j]);
                j += 1;
                assert(out@ =~= before + chars@.take(j as int));
            }
            out.push('\n');
            i += 1;
            proof {
                let done = views(words@).take(i as int);
                assert(chars@.take(m as int) =~= chars@);
                assert(done.drop_last() =~= views(words@).take(i - 1));
                assert(done.last() == chars@);
                assert(out@ =~= encode(done.drop_last()) + done.last() + seq!['\n']);
            }
        }
        assert(views(words@).take(n as int) =~= views(words@));
        word_from(&out)
    }

    /// The words that the log holds, given all of its text.
    pub fn load_data(&self, contents: &str) -> (words: Vec<String>)
        ensures
            views(words@) == decode(contents@),
    {
        let chars = to_chars(contents);
        let mut words: Vec<String> = Vec::new();
        let mut line: Vec<char> = Vec::new();
        let n = chars.len();
        let mut i: usize = 0;
        let ghost mut start: int = 0;
        assert(chars@.skip(0) =~= chars@);
        assert(views(words@) + decode(chars@) =~= decode(chars@));
        while i < n
            invariant
                n == chars@.len(),
                chars@ == contents@,
                0 <= start <= i <= n,
                line@ == chars@.subrange(start, i as int),
                forall|k: int| 0 <= k < line@.len() ==> #[trigger] line@[k] != '\n',
                decode(chars@) == views(words@) + decode(chars@.skip(start)),
            decreases n - i,
        {
            let c = chars[i];
            if c == '\n' {
                proof {
                    let rest = chars@.skip(start);
                    lemma_line_len_is(rest, i - start);
                    assert(rest.take(i - start) =~= line@);
                    assert(rest.skip(i - start + 1) =~= chars@.skip(i + 1));
                }
                let ghost whole = line@;
                let m = line.len();
                if m > 0 && line[m - 1] == '\r' {
                    line.pop();
                }
                assert(line@ =~= strip_cr(whole));
                let ghost before = views(words@);
                words.push(word_from(&line));
                line = Vec::new();
                proof {
                    start = i + 1;
                    assert(views(words@) =~= before + seq![strip_cr(whole)]);
                    assert(decode(chars@) =~= views(words@) + decode(chars@.skip(start)));
                    assert(line@ =~= chars@.subrange(start, i + 1));
                }
            } else {
                line.push(c);
                assert(line@ =~= chars@.subrange(start, i + 1));
            }
            i += 1;
        }
        proof {
            let rest = chars@.skip(start);
            assert(rest =~= line@);
            lemma_line_len_is(rest, n - start);
            assert(views(words@) + decode(rest) =~= views(words@));
        }
        words
    }
}

} // verus!
