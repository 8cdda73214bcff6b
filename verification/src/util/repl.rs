use crate::common::app_builder::Arbor;
use crate::common::autocomplete::{lemma_words_run, words_run, Autocomplete};
use crate::common::trie::{is_word, lemma_letters_run};
use crate::util::text::{to_chars, views, word_from};
use crate::util::backup::encode;
use vstd::prelude::*;

verus! {

/// A keystroke, as the input loop understands it.
#[derive(Debug, Clone, Copy, PartialEq, Eq, Structural)]
pub enum Key {
    /// A character key; a space separates words.
    Char(char),
    /// The interrupt chord.
    Interrupt,
    Backspace,
    Enter,
    Up,
    Down,
    Tab,
    Esc,
}

/// What the input loop does after a keystroke.
#[derive(Debug, Clone, Copy, PartialEq, Eq, Structural)]
pub enum Next {
    /// Draw the line and its suggestions again.
    Redraw,
    /// Nothing changed; wait for the next keystroke.
    Skip,
    /// Leave the loop.
    Quit,
    /// Leave the loop with an error: a word of the line was refused.
    Fail,
}

/// The answer to a keystroke: what to do next, the texts to append to the
/// word log, in order, and the suggestions to draw.
pub struct Outcome {
    pub next: Next,
    pub records: Vec<String>,
    pub suggestions: Vec<String>,
}

/// The parts of `s` between its spaces, in order. A line without a space is
/// one part; each space starts another, which may be empty.
pub open spec fn pieces(s: Seq<char>) -> Seq<Seq<char>>
    decreases s.len(),
{
    if s.len() == 0 {
        seq![Seq::empty()]
    } else {
        let front = pieces(s.drop_last());
        if s.last() == ' ' {
            front.push(Seq::empty())
        } else {
            front.update(front.len() - 1, front.last().push(s.last()))
        }
    }
}

/// Those of `ws` that have two characters or more, in order.
pub open spec fn long_words(ws: Seq<Seq<char>>) -> Seq<Seq<char>>
    decreases ws.len(),
{
    if ws.len() == 0 {
        Seq::empty()
    } else {
        let front = long_words(ws.drop_last());
        if ws.last().len() >= 2 {
            front.push(ws.last())
        } else {
            front
        }
    }
}

/// The parts of a line that are long enough to be learned.
pub open spec fn learnable(s: Seq<char>) -> Seq<Seq<char>> {
    long_words(pieces(s))
}

/// The mark `selected` among `n` suggestions, moved back onto the last of
/// them where it lay behind it.
pub open spec fn clamp(selected: nat, n: nat) -> nat {
    if n == 0 {
        0
    } else if selected > n - 1 {
        (n - 1) as nat
    } else {
        selected
    }
}

/// The line after `suggestion` took the place of the word being typed.
pub open spec fn completed(line: Seq<char>, suggestion: Seq<char>) -> Seq<char> {
    line.take(line.len() - pieces(line).last().len()) + suggestion
}

proof fn lemma_long_words_prefix(ws: Seq<Seq<char>>, i: int)
    requires
        0 <= i <= ws.len(),
    ensures
        long_words(ws.take(i)).len() <= long_words(ws).len(),
        long_words(ws).take(long_words(ws.take(i)).len() as int) == long_words(ws.take(i)),
    decreases ws.len(),
{
    if i == ws.len() {
        assert(ws.take(i) =~= ws);
        assert(long_words(ws).take(long_words(ws).len() as int) =~= long_words(ws));
    } else {
        let d = ws.drop_last();
        assert(ws.take(i) =~= d.take(i));
        lemma_long_words_prefix(d, i);
        let m = long_words(ws.take(i)).len() as int;
        assert(long_words(ws).take(m) =~= long_words(d).take(m));
    }
}

/// The text that goes to the word log for each of `ws`.
pub open spec fn records_of(ws: Seq<Seq<char>>) -> Seq<Seq<char>> {
    ws.map_values(|w: Seq<char>| encode(seq![w]))
}

/// A line has one part more than it has spaces, and its last part is what
/// follows the last space.
pub proof fn lemma_pieces(s: Seq<char>)
    ensures
        1 <= pieces(s).len() <= s.len() + 1,
        pieces(s).last().len() <= s.len(),
        pieces(s).last() == s.skip(s.len() - pieces(s).last().len()),
        forall|i: int| 0 <= i < pieces(s).last().len() ==> #[trigger] pieces(s).last()[i] != ' ',
        pieces(s).last().len() < s.len() ==> s[s.len() - pieces(s).last().len() - 1] == ' ',
    decreases s.len(),
{
    if s.len() == 0 {
        assert(pieces(s).last() =~= s.skip(0));
    } else {
        let d = s.drop_last();
        lemma_pieces(d);
        let l = pieces(d).last();
        if s.last() == ' ' {
            assert(pieces(s).last() =~= s.skip(s.len() as int));
        } else {
            assert(pieces(s).last() == l.push(s.last()));
            assert(l.push(s.last()) =~= s.skip(s.len() - l.len() - 1)) by {
                assert(l == d.skip(d.len() - l.len()));
            }
        }
    }
}

/// A line whose last word gave way to a word without a space has as many
/// parts as before.
proof fn lemma_pieces_of_completed(line: Seq<char>, base: Seq<char>)
    requires
        base == line || exists|w: Seq<char>|
            base == completed(line, w) && forall|i: int| 0 <= i < w.len() ==> w[i] != ' ',
    ensures
        pieces(base).len() == pieces(line).len(),
{
    if base != line {
        let w = choose|w: Seq<char>|
            base == completed(line, w) && forall|i: int| 0 <= i < w.len() ==> w[i] != ' ';
        lemma_pieces(line);
        let kept = line.take(line.len() - pieces(line).last().len());
        lemma_pieces_extend(kept, pieces(line).last());
        lemma_pieces_extend(kept, w);
        assert(kept + pieces(line).last() =~= line);
    }
}

/// Letters behind a line lengthen its last part and add none.
proof fn lemma_pieces_extend(kept: Seq<char>, w: Seq<char>)
    requires
        forall|i: int| 0 <= i < w.len() ==> w[i] != ' ',
    ensures
        pieces(kept + w).len() == pieces(kept).len(),
    decreases w.len(),
{
    if w.len() == 0 {
        assert(kept + w =~= kept);
    } else {
        lemma_pieces_extend(kept, w.drop_last());
        assert((kept + w).drop_last() =~= kept + w.drop_last());
        lemma_pieces(kept + w.drop_last());
    }
}

/// The state of the input loop: the engine, the line typed so far, the
/// number of the word that is being typed, and the suggestion that is
/// marked.
pub struct Repl {
    arbor: Arbor,
    input: Vec<char>,
    input_section: usize,
    selected_suggestion: usize,
}

impl Repl {
    /// The engine.
    pub closed spec fn engine(&self) -> Autocomplete {
        self.arbor.autocomplete
    }

    /// The line typed so far.
    pub closed spec fn input(&self) -> Seq<char> {
        self.input@
    }

    /// The number of the word that is being typed, from zero.
    pub closed spec fn section(&self) -> nat {
        self.input_section as nat
    }

    /// The number of the suggestion that is marked, from zero.
    pub closed spec fn selected(&self) -> nat {
        self.selected_suggestion as nat
    }

    /// The engine is well formed, the word being typed is the last part of
    /// the line, and the mark lies within what a query can return.
    pub open spec fn wf(&self) -> bool {
        &&& self.engine().wf()
        &&& self.section() + 1 == pieces(self.input()).len()
        &&& self.selected() < 255
    }

    /// The word that is being typed.
    pub open spec fn current(&self) -> Seq<char> {
        pieces(self.input()).last()
    }

    /// The mark, moved back onto the last suggestion for the word being
    /// typed where it lay behind it.
    pub open spec fn clamped(&self) -> nat {
        clamp(self.selected(), self.engine().suggested(self.current()).len())
    }

    /// All but the mark is in order.
    pub open spec fn steady(&self) -> bool {
        &&& self.engine().wf()
        &&& self.section() + 1 == pieces(self.input()).len()
    }

    /// An empty line over `arbor`.
    pub fn new(arbor: Arbor) -> (r: Self)
        requires
            arbor.autocomplete.wf(),
        ensures
            r.wf(),
            r.engine() == arbor.autocomplete,
            r.input() == Seq::<char>::empty(),
            r.section() == 0,
            r.selected() == 0,
    {
        let r = Repl { arbor, input: Vec::new(), input_section: 0, selected_suggestion: 0 };
        assert(r.input@ =~= Seq::<char>::empty());
        r
    }

    /// The line typed so far.
    pub fn get_input(&self) -> (s: String)
        ensures
            s@ == self.input(),
    {
        word_from(&self.input)
    }

    /// The number of the suggestion that is marked.
    pub fn get_selected(&self) -> (n: usize)
        ensures
            n == self.selected(),
    {
        self.selected_suggestion
    }

    /// The word that is being typed.
    pub fn current_word(&self) -> (w: String)
        ensures
            w@ == self.current(),
    {
        let n = self.input.len();
        let mut i: usize = n;
        while i > 0 && self.input[i - 1] != ' '
            invariant
                n == self.input@.len(),
                i <= n,
                forall|k: int| i <= k < n ==> #[trigger] self.input@[k] != ' ',
            decreases i,
        {
            i -= 1;
        }
        let mut out: Vec<char> = Vec::new();
        let mut j: usize = i;
        while j < n
            invariant
                n == self.input@.len(),
                i <= j <= n,
                out@ == self.input@.subrange(i as int, j as int),
            decreases n - j,
        {
            out.push(self.input[j]);
            j += 1;
            assert(out@ =~= self.input@.subrange(i as int, j as int));
        }
        proof {
            let s = self.input@;
            lemma_pieces(s);
            let l = pieces(s).last();
            let start = s.len() - l.len();
            if start < i {
                assert(l[i - 1 - start] == s[i - 1]);
            }
            if start > i {
                assert(s[start - 1] != ' ');
            }
            assert(out@ =~= s.skip(i as int));
        }
        word_from(&out)
    }

    /// The parts of the line.
    pub fn split_input(&self) -> (words: Vec<String>)
        ensures
            views(words@) == pieces(self.input()),
    {
        let mut done: Vec<String> = Vec::new();
        let mut cur: Vec<char> = Vec::new();
        let n = self.input.len();
        let mut i: usize = 0;
        assert(self.input@.take(0) =~= Seq::<char>::empty());
        assert(views(done@).push(cur@) =~= pieces(self.input@.take(0)));
        while i < n
            invariant
                n == self.input@.len(),
                i <= n,
                views(done@).push(cur@) == pieces(self.input@.take(i as int)),
            decreases n - i,
        {
            let c = self.input[i];
            let ghost before = views(done@);
            let ghost word = cur@;
            proof {
                let t = self.input@.take(i + 1);
                assert(t.drop_last() =~= self.input@.take(i as int));
                assert(t.last() == c);
                assert(before.push(word).last() == word);
            }
            if c == ' ' {
                done.push(word_from(&cur));
                cur = Vec::new();
                assert(views(done@) =~= before.push(word));
                assert(cur@ =~= Seq::<char>::empty());
            } else {
                cur.push(c);
                assert(views(done@).push(cur@) =~= before.push(word).update(
                    before.len() as int,
                    word.push(c),
                ));
            }
            i += 1;
        }
        assert(self.input@.take(n as int) =~= self.input@);
        let ghost before = views(done@);
        done.push(word_from(&cur));
        assert(views(done@) =~= before.push(cur@));
        done
    }

    fn redraw(&mut self) -> (suggestions: Vec<String>)
        requires
            old(self).steady(),
        ensures
            final(self).wf(),
            final(self).engine() == old(self).engine(),
            final(self).input() == old(self).input(),
            final(self).section() == old(self).section(),
            final(self).selected() == old(self).clamped(),
            views(suggestions@) == old(self).engine().suggested(old(self).current()),
    {
        let word = self.current_word();
        let suggestions = match self.arbor.autocomplete.suggest_word(word.as_str()) {
            Ok(s) => s,
            Err(_) => Vec::new(),
        };
        let n = suggestions.len();
        let max_index = if n == 0 {
            0
        } else {
            n - 1
        };
        if self.selected_suggestion > max_index {
            self.selected_suggestion = max_index;
        }
        suggestions
    }

    /// The suggestions for the word that is being typed. The mark moves back
    /// onto the last of them where it lay behind it.
    pub fn refresh(&mut self) -> (suggestions: Vec<String>)
        requires
            old(self).wf(),
        ensures
            final(self).wf(),
            final(self).engine() == old(self).engine(),
            final(self).input() == old(self).input(),
            final(self).section() == old(self).section(),
            final(self).selected() == old(self).clamped(),
            views(suggestions@) == old(self).engine().suggested(old(self).current()),
    {
        self.redraw()
    }

    /// Learns the parts of the line that have two characters or more, in
    /// order, up to the first that is refused. Returns the texts for the
    /// word log and whether every part was accepted.
    fn learn(&mut self) -> (r: (Vec<String>, bool))
        requires
            old(self).wf(),
        ensures
            final(self).wf(),
            final(self).input() == old(self).input(),
            final(self).section() == old(self).section(),
            final(self).selected() == old(self).selected(),
            final(self).engine().app_data() == old(self).engine().app_data(),
            final(self).engine().backup() == old(self).engine().backup(),
            ({
                let ws = learnable(old(self).input());
                let k = words_run(ws) as int;
                &&& r.1 == (k == ws.len())
                &&& final(self).engine()@ == old(self).engine()@.union(ws.take(k).to_set())
                &&& views(r.0@) == if old(self).engine().persistent() {
                    records_of(ws.take(k))
                } else {
                    Seq::empty()
                }
            }),
    {
        let words = self.split_input();
        let ghost ps = pieces(self.input@);
        let ghost ws = learnable(self.input@);
        let mut records: Vec<String> = Vec::new();
        let n = words.len();
        let mut i: usize = 0;
        proof {
            assert(ps.take(0) =~= Seq::<Seq<char>>::empty());
            assert(self.engine()@.union(long_words(ps.take(0)).to_set()) =~= self.engine()@);
            assert(records_of(long_words(ps.take(0))) =~= Seq::<Seq<char>>::empty());
            assert(views(records@) =~= Seq::<Seq<char>>::empty());
        }
        while i < n
            invariant
                self.wf(),
                self.input() == old(self).input(),
                self.section() == old(self).section(),
                self.selected() == old(self).selected(),
                self.engine().app_data() == old(self).engine().app_data(),
                self.engine().backup() == old(self).engine().backup(),
                ps == pieces(old(self).input()),
                ws == long_words(ps),
                views(words@) == ps,
                n == words@.len(),
                i <= n,
                forall|j: int|
                    0 <= j < long_words(ps.take(i as int)).len() ==> is_word(
                        #[trigger] long_words(ps.take(i as int))[j],
                    ),
                self.engine()@ == old(self).engine()@.union(long_words(ps.take(i as int)).to_set()),
                views(records@) == if old(self).engine().persistent() {
                    records_of(long_words(ps.take(i as int)))
                } else {
                    Seq::empty()
                },
            decreases n - i,
        {
            let ghost learned = long_words(ps.take(i as int));
            let ghost next = long_words(ps.take(i + 1));
            let ghost so_far = views(records@);
            proof {
                assert(ps.take(i + 1).drop_last() =~= ps.take(i as int));
                lemma_long_words_prefix(ps, i + 1);
                assert(views(words@)[i as int] == words@[i as int]@);
            }
            if words[i].as_str().unicode_len() >= 2 {
                assert(next == learned.push(ps[i as int]));
                match self.arbor.autocomplete.insert_word(words[i].clone()) {
                    Ok(Some(record)) => {
                        records.push(record);
                        assert(views(records@) =~= so_far.push(encode(seq![ps[i as int]])));
                        assert(records_of(next) =~= records_of(learned).push(
                            encode(seq![ps[i as int]]),
                        ));
                    },
                    Ok(None) => {},
                    Err(_) => {
                        proof {
                            lemma_words_run(ws);
                            let k = learned.len() as int;
                            assert(ws[k] == next[k]);
                            assert(ws.take(k) =~= learned) by {
                                assert(ws.take(k + 1).take(k) =~= ws.take(k));
                                assert(next.take(k) =~= learned);
                            }
                            assert forall|j: int| 0 <= j < k implies is_word(ws[j]) by {
                                assert(ws[j] == learned[j]);
                            }
                        }
                        return (records, false);
                    },
                }
                proof {
                    assert(next.to_set() =~= learned.to_set().insert(ps[i as int])) by {
                        assert forall|w: Seq<char>|
                            next.contains(w) <==> learned.contains(w) || w == ps[i as int] by {
                            vstd::seq_lib::lemma_seq_contains_after_push(learned, ps[i as int], w);
                        }
                    }
                    assert(self.engine()@ =~= old(self).engine()@.union(next.to_set()));
                    assert forall|j: int| 0 <= j < next.len() implies is_word(
                        #[trigger] next[j],
                    ) by {
                        if j < learned.len() {
                            assert(next[j] == learned[j]);
                        }
                    }
                }
            }
            i += 1;
        }
        proof {
            assert(ps.take(n as int) =~= ps);
            lemma_words_run(ws);
            assert(ws.take(ws.len() as int) =~= ws);
        }
        (records, true)
    }

    /// Takes one keystroke.
    ///
    /// A space and a backspace on an empty line, and a tab on an empty line,
    /// are skipped. A character goes behind the line; a space after a space
    /// changes nothing. Enter learns the parts of the line that have two
    /// characters or more and empties the line; where one of them is
    /// refused, the line stays and the loop is to end. Tab puts the marked
    /// suggestion in the place of the word being typed and starts the next
    /// word. Up and Down move the mark. After each change the suggestions
    /// for the word being typed are looked up again and the mark is moved
    /// back onto the last of them where it lay behind it.
    pub fn press(&mut self, key: Key) -> (out: Outcome)
        requires
            old(self).wf(),
        ensures
            final(self).wf(),
            final(self).engine().app_data() == old(self).engine().app_data(),
            final(self).engine().backup() == old(self).engine().backup(),
            out.next == Next::Redraw ==> views(out.suggestions@) == final(self).engine().suggested(
                final(self).current(),
            ),
            out.next != Next::Redraw ==> out.suggestions@.len() == 0,
            key != Key::Enter ==> out.records@.len() == 0 && final(self).engine() == old(self).engine(),
            match key {
                Key::Interrupt | Key::Esc => out.next == Next::Quit && final(self).input() == old(self).input() && final(self).section() == old(self).section() && final(self).selected() == old(self).selected(),
                Key::Char(c) => if c == ' ' && old(self).input().len() == 0 {
                    &&& out.next == Next::Skip
                    &&& final(self).input() == old(self).input()
                    &&& final(self).section() == old(self).section()
                    &&& final(self).selected() == old(self).selected()
                } else if c == ' ' && old(self).input().last() == ' ' {
                    &&& out.next == Next::Redraw
                    &&& final(self).input() == old(self).input()
                    &&& final(self).section() == old(self).section()
                    &&& final(self).selected() == clamp(old(self).selected(), out.suggestions@.len())
                } else {
                    &&& out.next == Next::Redraw
                    &&& final(self).input() == old(self).input().push(c)
                    &&& final(self).section() == old(self).section() + if c == ' ' {
                        1nat
                    } else {
                        0nat
                    }
                    &&& final(self).selected() == if c == ' ' {
                        clamp(old(self).selected(), out.suggestions@.len())
                    } else {
                        0
                    }
                },
                Key::Backspace => if old(self).input().len() == 0 {
                    &&& out.next == Next::Skip
                    &&& final(self).input() == old(self).input()
                    &&& final(self).section() == old(self).section()
                    &&& final(self).selected() == old(self).selected()
                } else {
                    &&& out.next == Next::Redraw
                    &&& final(self).input() == old(self).input().drop_last()
                    &&& final(self).section() == old(self).section() - if old(self).input().last()
                        == ' ' {
                        1nat
                    } else {
                        0nat
                    }
                    &&& final(self).selected() == 0
                },
                Key::Up => {
                    &&& out.next == Next::Redraw
                    &&& final(self).input() == old(self).input()
                    &&& final(self).section() == old(self).section()
                    &&& final(self).selected() == clamp(
                        if old(self).selected() > 0 {
                            (old(self).selected() - 1) as nat
                        } else {
                            0
                        },
                        out.suggestions@.len(),
                    )
                },
                Key::Down => {
                    &&& out.next == Next::Redraw
                    &&& final(self).input() == old(self).input()
                    &&& final(self).section() == old(self).section()
                    &&& final(self).selected() == clamp(
                        old(self).selected() + 1,
                        out.suggestions@.len(),
                    )
                },
                Key::Tab => if old(self).input().len() == 0 {
                    &&& out.next == Next::Skip
                    &&& final(self).input() == old(self).input()
                    &&& final(self).section() == old(self).section()
                    &&& final(self).selected() == old(self).selected()
                } else {
                    let found = old(self).engine().suggested(old(self).current());
                    &&& out.next == Next::Redraw
                    &&& final(self).input() == (if old(self).selected() < found.len() {
                        completed(old(self).input(), found[old(self).selected() as int])
                    } else {
                        old(self).input()
                    }).push(' ')
                    &&& final(self).section() == old(self).section() + 1
                    &&& final(self).selected() == 0
                },
                Key::Enter => {
                    let ws = learnable(old(self).input());
                    let k = words_run(ws) as int;
                    &&& final(self).engine()@ == old(self).engine()@.union(ws.take(k).to_set())
                    &&& views(out.records@) == if old(self).engine().persistent() {
                        records_of(ws.take(k))
                    } else {
                        Seq::empty()
                    }
                    &&& if k == ws.len() {
                        &&& out.next == Next::Redraw
                        &&& final(self).input() == Seq::<char>::empty()
                        &&& final(self).section() == 0
                        &&& final(self).selected() == 0
                    } else {
                        &&& out.next == Next::Fail
                        &&& final(self).input() == old(self).input()
                        &&& final(self).section() == old(self).section()
                        &&& final(self).selected() == old(self).selected()
                    }
                },
            },
    {
        let ghost line = self.input@;
        proof {
            lemma_pieces(line);
        }
        match key {
            Key::Interrupt | Key::Esc => {
                return Outcome { next: Next::Quit, records: Vec::new(), suggestions: Vec::new() };
            },
            Key::Char(c) => {
                if c == ' ' {
                    let n = self.input.len();
                    if n == 0 {
                        return Outcome {
                            next: Next::Skip,
                            records: Vec::new(),
                            suggestions: Vec::new(),
                        };
                    }
                    if self.input[n - 1] != ' ' {
                        self.input.push(' ');
                        let grown = self.input.len();
                        assert(self.input@.drop_last() =~= line);
                        assert(pieces(self.input@).len() == pieces(line).len() + 1);
                        assert(self.input_section < grown);
                        self.input_section += 1;
                    }
                } else {
                    self.input.push(c);
                    self.selected_suggestion = 0;
                    assert(self.input@.drop_last() =~= line);
                    assert(pieces(self.input@).len() == pieces(line).len());
                }
            },
            Key::Backspace => {
                let n = self.input.len();
                if n == 0 {
                    return Outcome {
                        next: Next::Skip,
                        records: Vec::new(),
                        suggestions: Vec::new(),
                    };
                }
                proof {
                    lemma_pieces(line.drop_last());
                    assert(pieces(line).len() == pieces(line.drop_last()).len() + if line.last()
                        == ' ' {
                        1int
                    } else {
                        0int
                    });
                }
                if self.input[n - 1] == ' ' {
                    self.input_section -= 1;
                }
                self.input.pop();
                self.selected_suggestion = 0;
            },
            Key::Enter => {
                let (records, accepted) = self.learn();
                if !accepted {
                    return Outcome { next: Next::Fail, records, suggestions: Vec::new() };
                }
                self.input = Vec::new();
                self.selected_suggestion = 0;
                self.input_section = 0;
                assert(self.input@ =~= Seq::<char>::empty());
                let suggestions = self.redraw();
                return Outcome { next: Next::Redraw, records, suggestions };
            },
            Key::Up => {
                if self.selected_suggestion > 0 {
                    self.selected_suggestion -= 1;
                }
            },
            Key::Down => {
                self.selected_suggestion += 1;
            },
            Key::Tab => {
                let n = self.input.len();
                if n == 0 {
                    return Outcome {
                        next: Next::Skip,
                        records: Vec::new(),
                        suggestions: Vec::new(),
                    };
                }
                let word = self.current_word();
                let found = match self.arbor.autocomplete.suggest_word(word.as_str()) {
                    Ok(s) => s,
                    Err(_) => Vec::new(),
                };
                if self.selected_suggestion < found.len() {
                    let typed = word.as_str().unicode_len();
                    self.input.truncate(n - typed);
                    let chosen = to_chars(found[self.selected_suggestion].as_str());
                    let ghost kept = self.input@;
                    let m = chosen.len();
                    let mut j: usize = 0;
                    while j < m
                        invariant
                            m == chosen@.len(),
                            j <= m,
                            self.input@ == kept + chosen@.take(j as int),
                            self.engine() == old(self).engine(),
                            self.input_section == old(self).input_section,
                        decreases m - j,
                    {
                        self.input.push(chosen[j]);
                        j += 1;
                        assert(self.input@ =~= kept + chosen@.take(j as int));
                    }
                    proof {
                        assert(chosen@.take(m as int) =~= chosen@);
                        assert(views(found@)[old(self).selected() as int] == chosen@);
                        assert(kept =~= line.take(line.len() - pieces(line).last().len()));
                        assert(self.input@ == completed(line, chosen@));
                        assert(views(found@).to_set().contains(chosen@));
                        self.engine().trie().root.lemma_paths_are_letters(chosen@);
                        lemma_letters_run(chosen@);
                    }
                }
                self.selected_suggestion = 0;
                let ghost base = self.input@;
                proof {
                    lemma_pieces_of_completed(line, base);
                    lemma_pieces(base);
                }
                self.input.push(' ');
                let grown = self.input.len();
                assert(self.input@.drop_last() =~= base);
                assert(pieces(self.input@).len() == pieces(base).len() + 1);
                assert(self.input_section < grown);
                self.input_section += 1;
            },
        }
        let suggestions = self.redraw();
        Outcome { next: Next::Redraw, records: Vec::new(), suggestions }
    }
}

} // verus!
