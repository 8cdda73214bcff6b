use crate::util::errors::TrieError;
use crate::util::text::{to_chars, views, word_from};
use vstd::prelude::*;

verus! {

/// An ASCII letter, upper or lower case.
pub open spec fn is_letter(c: char) -> bool {
    ('a' <= c && c <= 'z') || ('A' <= c && c <= 'Z')
}

/// The length of the longest prefix of `s` that consists of letters only.
pub open spec fn letters_run(s: Seq<char>) -> nat
    decreases s.len(),
{
    if s.len() == 0 || !is_letter(s[0]) {
        0
    } else {
        1 + letters_run(s.skip(1))
    }
}

/// Every character of `s` is a letter.
pub open spec fn is_word(s: Seq<char>) -> bool {
    letters_run(s) == s.len()
}

/// `p` is an initial segment of `s`.
pub open spec fn is_prefix(p: Seq<char>, s: Seq<char>) -> bool {
    p.len() <= s.len() && s.take(p.len() as int) == p
}

/// The letters that `s` starts with.
pub open spec fn letters_prefix(s: Seq<char>) -> Seq<char> {
    s.take(letters_run(s) as int)
}

/// `letters_run(s)` is the index of the first character of `s` that is no
/// letter, or the length of `s` where there is none.
pub proof fn lemma_letters_run(s: Seq<char>)
    ensures
        letters_run(s) <= s.len(),
        forall|i: int| 0 <= i < letters_run(s) ==> is_letter(#[trigger] s[i]),
        letters_run(s) < s.len() ==> !is_letter(s[letters_run(s) as int]),
    decreases s.len(),
{
    if s.len() != 0 && is_letter(s[0]) {
        let t = s.skip(1);
        lemma_letters_run(t);
        assert forall|i: int| 0 <= i < letters_run(s) implies is_letter(#[trigger] s[i]) by {
            if i > 0 {
                assert(s[i] == t[i - 1]);
            }
        }
        if letters_run(s) < s.len() {
            assert(s[letters_run(s) as int] == t[letters_run(t) as int]);
        }
    }
}

/// A sequence is a word exactly when each of its characters is a letter.
pub proof fn lemma_is_word(s: Seq<char>)
    ensures
        is_word(s) <==> (forall|i: int| 0 <= i < s.len() ==> is_letter(#[trigger] s[i])),
{
    lemma_letters_run(s);
}

proof fn lemma_prefix_push(cur: Seq<char>, k: char, s: Seq<char>)
    ensures
        is_prefix(cur.push(k), s) <==> (is_prefix(cur, s) && s.len() > cur.len() && s[cur.len() as int]
            == k),
{
    let n = cur.len() as int;
    if is_prefix(cur.push(k), s) {
        assert(s.take(n + 1)[n] == k);
        assert(s.take(n) =~= s.take(n + 1).take(n));
        assert(cur.push(k).take(n) =~= cur);
    }
    if is_prefix(cur, s) && s.len() > n && s[n] == k {
        assert(s.take(n + 1) =~= s.take(n).push(k));
    }
}

/// Whether `c` is an ASCII letter.
pub fn letter(c: char) -> (b: bool)
    ensures
        b == is_letter(c),
{
    ('a' <= c && c <= 'z') || ('A' <= c && c <= 'Z')
}

/// Whether `c` occurs among `keys`.
spec fn key_in(keys: Seq<char>, c: char) -> bool {
    exists|j: int| 0 <= j < keys.len() && keys[j] == c
}

/// An index at which `c` occurs among `keys`, where it occurs at all.
spec fn slot_of(keys: Seq<char>, c: char) -> int {
    choose|j: int| 0 <= j < keys.len() && keys[j] == c
}

proof fn lemma_slot(keys: Seq<char>, j: int)
    requires
        keys.no_duplicates(),
        0 <= j < keys.len(),
    ensures
        key_in(keys, keys[j]),
        slot_of(keys, keys[j]) == j,
{
}

/// What inserting `s` adds below a node: `p` is a prefix of the letters that
/// `s` starts with, and the whole of `s` where a word end is asked for.
spec fn gained(s: Seq<char>, p: Seq<char>, terminal: bool) -> bool {
    &&& p.len() <= letters_run(s)
    &&& is_prefix(p, s)
    &&& terminal ==> p.len() == s.len()
}

proof fn lemma_gained_step(s: Seq<char>, p: Seq<char>, terminal: bool)
    requires
        s.len() > 0,
        is_letter(s[0]),
        p.len() > 0,
    ensures
        gained(s, p, terminal) <==> (p[0] == s[0] && gained(s.skip(1), p.skip(1), terminal)),
{
    let s_rest = s.skip(1);
    let p_rest = p.skip(1);
    lemma_letters_run(s);
    lemma_letters_run(s_rest);
    if gained(s, p, terminal) {
        assert(s.take(p.len() as int)[0] == p[0]);
        assert(s_rest.take(p_rest.len() as int) =~= s.take(p.len() as int).skip(1));
    }
    if p[0] == s[0] && gained(s_rest, p_rest, terminal) {
        assert(s.take(p.len() as int) =~= p) by {
            assert forall|i: int| 0 <= i < p.len() implies s.take(p.len() as int)[i] == p[i] by {
                if i > 0 {
                    assert(s_rest.take(p_rest.len() as int)[i - 1] == p_rest[i - 1]);
                }
            }
        }
    }
}

/// One node of the tree: its outgoing edges, each labelled with a distinct
/// character, and whether the path that leads here spells a stored word.
#[derive(Debug)]
pub struct TrieNode {
    keys: Vec<char>,
    nodes: Vec<TrieNode>,
    word_ends: bool,
}

/// What a search for `s` below `node` answers: an error where the letters
/// that `s` starts with lead to a node and a character that is no letter
/// follows them, otherwise whether `s` is a stored word.
pub open spec fn search_outcome(node: TrieNode, s: Seq<char>) -> Result<bool, TrieError> {
    if !is_word(s) && node.has_path(letters_prefix(s)) {
        Err(TrieError::InvalidCharacter)
    } else {
        Ok(node.contains(s))
    }
}

/// A prefix tree over words of ASCII letters.
#[derive(Debug)]
pub struct Trie {
    pub root: TrieNode,
}

impl Default for TrieNode {
    /// A node without edges that closes no word.
    fn default() -> (r: Self)
        ensures
            r.wf(),
            r.degree() == 0,
            !r.terminal(),
            r.words() == Set::<Seq<char>>::empty(),
            r.paths() == set![Seq::<char>::empty()],
    {
        let r = TrieNode { keys: Vec::new(), nodes: Vec::new(), word_ends: false };
        proof {
            assert forall|p: Seq<char>, t: bool| r.walk(p, t) <==> (p.len() == 0 && !t) by {}
            assert(r.words() =~= Set::<Seq<char>>::empty());
            assert(r.paths() =~= set![Seq::<char>::empty()]) by {
                assert forall|p: Seq<char>| r.has_path(p) <==> p == Seq::<char>::empty() by {
                    if p.len() == 0 {
                        assert(p =~= Seq::<char>::empty());
                    }
                }
            }
        }
        r
    }
}

impl Default for Trie {
    /// A tree that stores no word.
    fn default() -> (r: Self)
        ensures
            r.wf(),
            r@ == Set::<Seq<char>>::empty(),
            r.root.paths() == set![Seq::<char>::empty()],
            r.root.degree() == 0,
            !r.root.terminal(),
    {
        Trie { root: TrieNode::default() }
    }
}

impl TrieNode {
    /// The edges carry pairwise distinct letters, at every node below.
    pub closed spec fn wf(&self) -> bool
        decreases self,
    {
        &&& self.keys@.len() == self.nodes@.len()
        &&& self.keys@.no_duplicates()
        &&& forall|i: int| 0 <= i < self.keys@.len() ==> is_letter(#[trigger] self.keys@[i])
        &&& forall|i: int| 0 <= i < self.nodes@.len() ==> (#[trigger] self.nodes@[i]).wf()
    }

    /// Following `p` from this node stays inside the tree and, where
    /// `terminal` is set, ends on a node that closes a word.
    pub closed spec fn walk(&self, p: Seq<char>, terminal: bool) -> bool
        decreases p.len(),
    {
        if p.len() == 0 {
            terminal ==> self.word_ends
        } else {
            key_in(self.keys@, p[0]) && self.nodes@[slot_of(self.keys@, p[0])].walk(
                p.skip(1),
                terminal,
            )
        }
    }

    /// The tree below this node has a path that spells `p`.
    pub open spec fn has_path(&self, p: Seq<char>) -> bool {
        self.walk(p, false)
    }

    /// `w` is a stored word, read from this node.
    pub open spec fn contains(&self, w: Seq<char>) -> bool {
        self.walk(w, true)
    }

    /// The stored words, read from this node.
    pub open spec fn words(&self) -> Set<Seq<char>> {
        Set::new(|w: Seq<char>| self.contains(w))
    }

    /// The paths that leave this node.
    pub open spec fn paths(&self) -> Set<Seq<char>> {
        Set::new(|p: Seq<char>| self.has_path(p))
    }

    /// The stored words below this node, each behind `cur`, in the order in
    /// which a depth-first traversal meets them: the word that ends here
    /// first, then the words below each edge, edge by edge.
    spec fn listing(&self, cur: Seq<char>) -> Seq<Seq<char>>
        decreases self, self.nodes@.len() + 1,
    {
        (if self.word_ends {
            seq![cur]
        } else {
            Seq::empty()
        }) + self.listing_of(cur, self.nodes@.len())
    }

    /// The part of `listing` that lies below the first `n` edges.
    spec fn listing_of(&self, cur: Seq<char>, n: nat) -> Seq<Seq<char>>
        decreases self, n,
    {
        if n == 0 || n > self.nodes@.len() {
            Seq::empty()
        } else {
            self.listing_of(cur, (n - 1) as nat) + self.nodes@[n - 1].listing(
                cur.push(self.keys@[n - 1]),
            )
        }
    }

    /// The node that `p` leads to from this node, where the tree has that path.
    pub closed spec fn descend(&self, p: Seq<char>) -> Option<TrieNode>
        decreases p.len(),
    {
        if p.len() == 0 {
            Some(*self)
        } else if key_in(self.keys@, p[0]) {
            self.nodes@[slot_of(self.keys@, p[0])].descend(p.skip(1))
        } else {
            None
        }
    }

    /// Every path of the tree is made of letters, and so is every stored word.
    pub proof fn lemma_paths_are_letters(&self, p: Seq<char>)
        requires
            self.wf(),
            self.has_path(p) || self.contains(p),
        ensures
            is_word(p),
            forall|i: int| 0 <= i < p.len() ==> is_letter(#[trigger] p[i]),
        decreases p.len(),
    {
        if p.len() != 0 {
            let j = slot_of(self.keys@, p[0]);
            assert(is_letter(self.keys@[j]));
            self.nodes@[j].lemma_paths_are_letters(p.skip(1));
        }
        lemma_is_word(p);
    }

    /// The characters that a path from this node can start with.
    pub open spec fn first_letters(&self) -> Set<char> {
        Set::new(|c: char| self.has_path(seq![c]))
    }

    /// A node has one edge for each character that a path from it can start
    /// with.
    pub proof fn lemma_degree(&self)
        requires
            self.wf(),
        ensures
            self.first_letters().finite(),
            self.degree() == self.first_letters().len(),
    {
        assert forall|c: char| self.first_letters().contains(c) <==> self.keys@.to_set().contains(
            c,
        ) by {
            assert(seq![c].skip(1).len() == 0);
            assert(seq![c][0] == c);
            if key_in(self.keys@, c) {
                let j = slot_of(self.keys@, c);
                assert(self.nodes@[j].walk(seq![c].skip(1), false));
                assert(self.keys@.contains(c));
            }
            if self.keys@.to_set().contains(c) {
                let j = choose|j: int| 0 <= j < self.keys@.len() && self.keys@[j] == c;
                assert(key_in(self.keys@, c));
            }
        }
        assert(self.first_letters() =~= self.keys@.to_set());
        self.keys@.unique_seq_to_set();
        vstd::seq_lib::seq_to_set_is_finite(self.keys@);
    }

    proof fn lemma_descend_concat(&self, p: Seq<char>, q: Seq<char>)
        ensures
            self.descend(p + q) == match self.descend(p) {
                Some(m) => m.descend(q),
                None => None,
            },
        decreases p.len(),
    {
        if p.len() == 0 {
            assert(p + q =~= q);
        } else {
            assert((p + q)[0] == p[0]);
            assert((p + q).skip(1) =~= p.skip(1) + q);
            if key_in(self.keys@, p[0]) {
                self.nodes@[slot_of(self.keys@, p[0])].lemma_descend_concat(p.skip(1), q);
            }
        }
    }

    proof fn lemma_descend(&self, p: Seq<char>)
        requires
            self.wf(),
        ensures
            match self.descend(p) {
                Some(m) => m.wf() && forall|q: Seq<char>, t: bool| #[trigger]
                    m.walk(q, t) <==> self.walk(p + q, t),
                None => forall|q: Seq<char>, t: bool| !#[trigger] self.walk(p + q, t),
            },
        decreases p.len(),
    {
        if p.len() == 0 {
            assert forall|q: Seq<char>, t: bool| #[trigger]
                self.walk(q, t) <==> self.walk(p + q, t) by {
                assert(p + q =~= q);
            }
        } else {
            let c = p[0];
            if key_in(self.keys@, c) {
                let child = self.nodes@[slot_of(self.keys@, c)];
                child.lemma_descend(p.skip(1));
                match self.descend(p) {
                    Some(m) => {
                        assert forall|q: Seq<char>, t: bool| #[trigger]
                            m.walk(q, t) <==> self.walk(p + q, t) by {
                            assert((p + q)[0] == c);
                            assert((p + q).skip(1) =~= p.skip(1) + q);
                            assert(self.walk(p + q, t) == child.walk(p.skip(1) + q, t));
                        }
                    },
                    None => {
                        assert forall|q: Seq<char>, t: bool| !#[trigger] self.walk(p + q, t) by {
                            assert((p + q)[0] == c);
                            assert((p + q).skip(1) =~= p.skip(1) + q);
                            assert(self.walk(p + q, t) == child.walk(p.skip(1) + q, t));
                        }
                    },
                }
            } else {
                assert forall|q: Seq<char>, t: bool| !#[trigger] self.walk(p + q, t) by {
                    assert((p + q)[0] == c);
                }
            }
        }
    }

    /// `s` continues `cur` into a word stored below one of the first `n` edges.
    spec fn below_first(&self, cur: Seq<char>, s: Seq<char>, n: nat) -> bool {
        &&& is_prefix(cur, s)
        &&& s.len() > cur.len()
        &&& exists|j: int|
            0 <= j < n && self.keys@[j] == s[cur.len() as int] && (#[trigger] self.nodes@[j]).contains(
                s.skip(cur.len() as int + 1),
            )
    }

    proof fn lemma_listing(&self, cur: Seq<char>)
        requires
            self.wf(),
        ensures
            self.listing(cur).no_duplicates(),
            forall|s: Seq<char>| #[trigger]
                self.listing(cur).contains(s) <==> is_prefix(cur, s) && self.contains(
                    s.skip(cur.len() as int),
                ),
        decreases self, self.nodes@.len() + 1,
    {
        let n = self.nodes@.len();
        let m = cur.len() as int;
        self.lemma_listing_of(cur, n);
        let head = if self.word_ends {
            seq![cur]
        } else {
            Seq::empty()
        };
        let rest = self.listing_of(cur, n);
        assert forall|i: int, j: int| 0 <= i < head.len() && 0 <= j < rest.len() implies head[i]
            != rest[j] by {
            assert(rest.contains(rest[j]));
        }
        vstd::seq_lib::lemma_no_dup_in_concat(head, rest);
        assert forall|s: Seq<char>| #[trigger]
            self.listing(cur).contains(s) <==> is_prefix(cur, s) && self.contains(s.skip(m)) by {
            vstd::seq_lib::lemma_seq_concat_contains_all_elements(head, rest, s);
            if head.contains(s) {
                assert(s == cur);
            }
            if s == cur {
                assert(s.take(m) =~= cur);
                if self.word_ends {
                    assert(head[0] == s);
                }
            }
            if is_prefix(cur, s) {
                let q = s.skip(m);
                if s.len() == m {
                    assert(s.take(m) =~= s);
                } else {
                    assert(q[0] == s[m]);
                    assert(q.skip(1) =~= s.skip(m + 1));
                    if self.below_first(cur, s, n) {
                        let j = choose|j: int|
                            0 <= j < n && self.keys@[j] == s[m] && (#[trigger] self.nodes@[j]).contains(
                                s.skip(m + 1),
                            );
                        lemma_slot(self.keys@, j);
                    }
                    if self.contains(q) {
                        let j = slot_of(self.keys@, q[0]);
                        assert(self.nodes@[j].contains(s.skip(m + 1)));
                    }
                }
            }
        }
    }

    proof fn lemma_listing_of(&self, cur: Seq<char>, n: nat)
        requires
            self.wf(),
            n <= self.nodes@.len(),
        ensures
            self.listing_of(cur, n).no_duplicates(),
            forall|s: Seq<char>| #[trigger]
                self.listing_of(cur, n).contains(s) <==> self.below_first(cur, s, n),
        decreases self, n,
    {
        let m = cur.len() as int;
        if n != 0 {
            let a = self.listing_of(cur, (n - 1) as nat);
            let k = self.keys@[n - 1];
            let child = self.nodes@[n - 1];
            let b = child.listing(cur.push(k));
            self.lemma_listing_of(cur, (n - 1) as nat);
            child.lemma_listing(cur.push(k));
            assert forall|i: int, j: int| 0 <= i < a.len() && 0 <= j < b.len() implies a[i]
                != b[j] by {
                assert(a.contains(a[i]));
                assert(b.contains(b[j]));
                lemma_prefix_push(cur, k, b[j]);
            }
            vstd::seq_lib::lemma_no_dup_in_concat(a, b);
            assert forall|s: Seq<char>| #[trigger]
                self.listing_of(cur, n).contains(s) <==> self.below_first(cur, s, n) by {
                vstd::seq_lib::lemma_seq_concat_contains_all_elements(a, b, s);
                lemma_prefix_push(cur, k, s);
                if b.contains(s) {
                    assert(child.contains(s.skip(m + 1)));
                    assert(self.nodes@[n - 1].contains(s.skip(m + 1)));
                }
                if self.below_first(cur, s, n) {
                    let j = choose|j: int|
                        0 <= j < n && self.keys@[j] == s[m] && (#[trigger] self.nodes@[j]).contains(
                            s.skip(m + 1),
                        );
                    if j < n - 1 {
                        assert(self.below_first(cur, s, (n - 1) as nat));
                    }
                }
            }
        }
    }

    /// The two nodes carry the same edges in the same order and close a
    /// word alike, and so do the nodes that their edges lead to.
    pub closed spec fn same_shape(&self, other: &TrieNode) -> bool
        decreases self,
    {
        &&& self.keys@ == other.keys@
        &&& self.word_ends == other.word_ends
        &&& self.nodes@.len() == other.nodes@.len()
        &&& forall|i: int|
            0 <= i < self.nodes@.len() ==> (#[trigger] self.nodes@[i]).same_shape(&other.nodes@[i])
    }

    /// The stored words below the node that `prefix` leads to, in the order
    /// of a depth-first traversal; none where the path is missing.
    pub closed spec fn ordered(&self, prefix: Seq<char>) -> Seq<Seq<char>> {
        match self.descend(prefix) {
            Some(m) => m.listing(prefix),
            None => Seq::empty(),
        }
    }

    proof fn lemma_same_shape_refl(&self)
        ensures
            self.same_shape(self),
        decreases self,
    {
        assert forall|i: int| 0 <= i < self.nodes@.len() implies (#[trigger] self.nodes@[i]).same_shape(
            &self.nodes@[i],
        ) by {
            self.nodes@[i].lemma_same_shape_refl();
        }
    }

    proof fn lemma_same_listing(&self, other: &TrieNode, cur: Seq<char>)
        requires
            self.same_shape(other),
        ensures
            self.listing(cur) == other.listing(cur),
        decreases self, self.nodes@.len() + 1,
    {
        self.lemma_same_listing_of(other, cur, self.nodes@.len());
    }

    proof fn lemma_same_listing_of(&self, other: &TrieNode, cur: Seq<char>, n: nat)
        requires
            self.same_shape(other),
        ensures
            self.listing_of(cur, n) == other.listing_of(cur, n),
        decreases self, n,
    {
        if n != 0 && n <= self.nodes@.len() {
            self.lemma_same_listing_of(other, cur, (n - 1) as nat);
            assert(self.nodes@[n - 1].same_shape(&other.nodes@[n - 1]));
            self.nodes@[n - 1].lemma_same_listing(&other.nodes@[n - 1], cur.push(self.keys@[n - 1]));
        }
    }

    proof fn lemma_same_descend(&self, other: &TrieNode, p: Seq<char>)
        requires
            self.wf(),
            self.same_shape(other),
        ensures
            match (self.descend(p), other.descend(p)) {
                (Some(a), Some(b)) => a.same_shape(&b),
                (None, None) => true,
                _ => false,
            },
        decreases p.len(),
    {
        if p.len() != 0 && key_in(self.keys@, p[0]) {
            let j = slot_of(self.keys@, p[0]);
            assert(self.nodes@[j].same_shape(&other.nodes@[j]));
            self.nodes@[j].lemma_same_descend(&other.nodes@[j], p.skip(1));
        }
    }

    /// Nodes of the same shape list the same words in the same order, for
    /// every prefix.
    pub proof fn lemma_same_shape_ordered(&self, other: &TrieNode, prefix: Seq<char>)
        requires
            self.wf(),
            self.same_shape(other),
        ensures
            self.ordered(prefix) == other.ordered(prefix),
    {
        self.lemma_same_descend(other, prefix);
        match (self.descend(prefix), other.descend(prefix)) {
            (Some(a), Some(b)) => {
                a.lemma_same_listing(&b, prefix);
            },
            _ => {},
        }
    }

    /// The number of edges that leave this node.
    pub closed spec fn degree(&self) -> nat {
        self.keys@.len()
    }

    /// Whether the path to this node spells a stored word.
    pub closed spec fn terminal(&self) -> bool {
        self.word_ends
    }

    /// A node without edges that closes no word.
    pub fn new() -> (r: Self)
        ensures
            r.wf(),
            r.degree() == 0,
            !r.terminal(),
            r.words() == Set::<Seq<char>>::empty(),
            r.paths() == set![Seq::<char>::empty()],
    {
        Self::default()
    }

    fn find(&self, c: char) -> (r: Option<usize>)
        ensures
            match r {
                Some(i) => i < self.keys@.len() && self.keys@[i as int] == c,
                None => !key_in(self.keys@, c),
            },
    {
        let n = self.keys.len();
        let mut i: usize = 0;
        while i < n
            invariant
                n == self.keys@.len(),
                i <= n,
                forall|j: int| 0 <= j < i ==> self.keys@[j] != c,
            decreases n - i,
        {
            if self.keys[i] == c {
                return Some(i);
            }
            i += 1;
        }
        None
    }

    /// Adds the characters of `chars` from `position` on below this node, one
    /// edge for each, up to the first that is no letter; where there is none,
    /// the node that the last edge reaches closes a word.
    fn insert_from(&mut self, chars: &Vec<char>, position: usize) -> (r: Result<
        (),
        TrieError,
    >)
        requires
            old(self).wf(),
            position <= chars@.len(),
        ensures
            final(self).wf(),
            r is Ok <==> is_word(chars@.skip(position as int)),
            forall|p: Seq<char>, t: bool| #[trigger]
                final(self).walk(p, t) <==> old(self).walk(p, t) || gained(
                    chars@.skip(position as int),
                    p,
                    t,
                ),
            old(self).walk(chars@.skip(position as int), true) ==> old(self).same_shape(final(self)),
        decreases chars@.len() - position,
    {
        let ghost s = chars@.skip(position as int);
        proof {
            self.lemma_same_shape_refl();
        }
        if position == chars.len() {
            self.word_ends = true;
            proof {
                if old(self).walk(s, true) {
                    assert forall|i: int| 0 <= i < self.nodes@.len() implies (#[trigger] old(
                        self,
                    ).nodes@[i]).same_shape(&self.nodes@[i]) by {
                        self.nodes@[i].lemma_same_shape_refl();
                    }
                }
            }
            assert forall|p: Seq<char>, t: bool| #[trigger]
                self.walk(p, t) <==> old(self).walk(p, t) || gained(s, p, t) by {
                if p.len() == 0 {
                    assert(s.take(0) =~= p);
                }
            }
            return Ok(());
        }
        let c = chars[position];
        assert(s[0] == c);
        if !letter(c) {
            assert forall|p: Seq<char>, t: bool| #[trigger]
                self.walk(p, t) <==> old(self).walk(p, t) || gained(s, p, t) by {
                if p.len() == 0 {
                    assert(s.take(0) =~= p);
                }
            }
            return Err(TrieError::InvalidCharacter);
        }
        let ghost found = key_in(self.keys@, c);
        let idx = match self.find(c) {
            Some(i) => i,
            None => {
                self.keys.push(c);
                self.nodes.push(TrieNode::new());
                self.keys.len() - 1
            },
        };
        let ghost mid = *self;
        proof {
            if found {
                assert(mid.keys@ == old(self).keys@ && mid.nodes@ == old(self).nodes@);
            } else {
                assert(mid.keys@ == old(self).keys@.push(c));
                assert(mid.nodes@.len() == idx + 1);
                assert(forall|j: int| 0 <= j < idx ==> mid.nodes@[j] == old(self).nodes@[j]);
                assert forall|q: Seq<char>, t: bool| #[trigger]
                    mid.nodes@[idx as int].walk(q, t) <==> (q.len() == 0 && !t) by {
                    let fresh = mid.nodes@[idx as int];
                    assert(fresh.words().contains(q) == fresh.walk(q, true));
                    assert(fresh.paths().contains(q) == fresh.walk(q, false));
                    if q.len() == 0 {
                        assert(q =~= Seq::<char>::empty());
                    }
                }
            }
            assert(mid.wf());
        }
        let r = self.nodes[idx].insert_from(chars, position + 1);
        proof {
            let s_rest = chars@.skip(position + 1);
            assert(s_rest =~= s.skip(1));
            let keys_before = old(self).keys@;
            let keys_after = self.keys@;
            lemma_slot(keys_after, idx as int);
            assert(keys_after == mid.keys@);
            assert(self.nodes@ =~= mid.nodes@.update(idx as int, self.nodes@[idx as int]));
            assert(self.word_ends == old(self).word_ends);
            assert(self.wf());
            if old(self).walk(s, true) {
                lemma_slot(keys_before, idx as int);
                assert(old(self).nodes@[idx as int].walk(s_rest, true));
                assert forall|i: int| 0 <= i < self.nodes@.len() implies (#[trigger] old(
                    self,
                ).nodes@[i]).same_shape(&self.nodes@[i]) by {
                    if i != idx {
                        self.nodes@[i].lemma_same_shape_refl();
                    }
                }
            }
            assert forall|p: Seq<char>, t: bool| #[trigger]
                self.walk(p, t) <==> old(self).walk(p, t) || gained(s, p, t) by {
                if p.len() == 0 {
                    assert(s.take(0) =~= p);
                } else {
                    let p_rest = p.skip(1);
                    lemma_gained_step(s, p, t);
                    if p[0] != c {
                        if key_in(keys_before, p[0]) {
                            let j = slot_of(keys_before, p[0]);
                            assert(keys_after[j] == p[0]);
                            lemma_slot(keys_after, j);
                            assert(self.nodes@[j] == old(self).nodes@[j]);
                        } else if key_in(keys_after, p[0]) {
                            let j = slot_of(keys_after, p[0]);
                            assert(keys_before[j] == p[0]);
                        }
                    } else {
                        assert(self.walk(p, t) == self.nodes@[idx as int].walk(p_rest, t));
                        assert(self.nodes@[idx as int].walk(p_rest, t) <==> mid.nodes@[idx as int].walk(
                            p_rest,
                            t,
                        ) || gained(s_rest, p_rest, t));
                        if found {
                            lemma_slot(keys_before, idx as int);
                        } else {
                            if p_rest.len() == 0 {
                                assert(s_rest.take(0) =~= p_rest);
                            }
                        }
                    }
                }
            }
        }
        r
    }

    /// Looks up the characters of `chars` from `position` on below this node.
    /// A character that is no letter is an error where the walk reaches it;
    /// a missing edge before that is a plain miss.
    fn search_from(&self, chars: &Vec<char>, position: usize) -> (r: Result<bool, TrieError>)
        requires
            self.wf(),
            position <= chars@.len(),
        ensures
            r == search_outcome(*self, chars@.skip(position as int)),
        decreases chars@.len() - position,
    {
        let ghost s = chars@.skip(position as int);
        if position == chars.len() {
            return Ok(self.word_ends);
        }
        let c = chars[position];
        assert(s[0] == c);
        if !letter(c) {
            assert(s.take(0).len() == 0);
            return Err(TrieError::InvalidCharacter);
        }
        proof {
            lemma_letters_run(s);
            lemma_letters_run(s.skip(1));
            assert(chars@.skip(position + 1) =~= s.skip(1));
            assert(letters_prefix(s)[0] == c);
            assert(letters_prefix(s).skip(1) =~= letters_prefix(s.skip(1)));
        }
        match self.find(c) {
            Some(i) => {
                proof {
                    lemma_slot(self.keys@, i as int);
                }
                self.nodes[i].search_from(chars, position + 1)
            },
            None => Ok(false),
        }
    }

    /// The number of edges that leave this node.
    pub fn children_len(&self) -> (n: usize)
        ensures
            n == self.degree(),
            self.wf() ==> n == self.first_letters().len(),
    {
        proof {
            if self.wf() {
                self.lemma_degree();
            }
        }
        self.keys.len()
    }

    /// Whether the path to this node spells a stored word.
    pub fn word_ends(&self) -> (b: bool)
        ensures
            b == self.terminal(),
            self.wf() ==> b == self.contains(Seq::<char>::empty()),
    {
        self.word_ends
    }
}

impl Trie {
    /// The tree is well formed.
    pub open spec fn wf(&self) -> bool {
        self.root.wf()
    }

    /// The stored words.
    pub open spec fn view(&self) -> Set<Seq<char>> {
        self.root.words()
    }

    /// The stored words that start with `prefix`.
    pub open spec fn matches(&self, prefix: Seq<char>) -> Set<Seq<char>> {
        Set::new(|w: Seq<char>| self.root.contains(w) && is_prefix(prefix, w))
    }

    /// The stored words that start with `prefix` in the order in which
    /// `suggest` lists them.
    pub open spec fn suggestions(&self, prefix: Seq<char>) -> Seq<Seq<char>> {
        self.root.ordered(prefix)
    }

    /// The list of suggestions for a prefix holds each stored word that
    /// starts with the prefix, once, and nothing else.
    pub proof fn lemma_suggestions(&self, prefix: Seq<char>)
        requires
            self.wf(),
        ensures
            self.suggestions(prefix).no_duplicates(),
            self.suggestions(prefix).to_set() == self.matches(prefix),
    {
        let got = self.suggestions(prefix);
        let n = prefix.len() as int;
        self.root.lemma_descend(prefix);
        assert forall|w: Seq<char>| is_prefix(prefix, w) implies prefix + w.skip(n) == w by {
            assert(prefix + w.skip(n) =~= w);
        }
        match self.root.descend(prefix) {
            Some(m) => {
                m.lemma_listing(prefix);
                assert forall|w: Seq<char>| got.contains(w) <==> self.matches(prefix).contains(
                    w,
                ) by {
                    if is_prefix(prefix, w) {
                        assert(m.walk(w.skip(n), true) <==> self.root.walk(prefix + w.skip(n), true));
                    }
                }
            },
            None => {
                assert forall|w: Seq<char>| !self.matches(prefix).contains(w) by {
                    if is_prefix(prefix, w) {
                        assert(!self.root.walk(prefix + w.skip(n), true));
                    }
                }
            },
        }
        assert(got.to_set() =~= self.matches(prefix));
    }

    /// A stored word is the first suggestion for itself.
    pub proof fn lemma_stored_word_leads(&self, w: Seq<char>)
        requires
            self.wf(),
            self@.contains(w),
        ensures
            self.suggestions(w).len() > 0,
            self.suggestions(w)[0] == w,
    {
        self.root.lemma_descend(w);
        assert(w + Seq::<char>::empty() =~= w);
        assert(self.root.walk(w + Seq::<char>::empty(), true));
        let m = self.root.descend(w).unwrap();
        assert(m.walk(Seq::<char>::empty(), true));
    }

    /// Every suggestion for a prefix that is one character longer is a
    /// suggestion for the prefix itself.
    pub proof fn lemma_longer_prefix_suggests_less(&self, prefix: Seq<char>, c: char)
        requires
            self.wf(),
        ensures
            self.suggestions(prefix.push(c)).to_set().subset_of(self.suggestions(prefix).to_set()),
    {
        self.lemma_suggestions(prefix);
        self.lemma_suggestions(prefix.push(c));
        assert forall|w: Seq<char>| self.matches(prefix.push(c)).contains(w) implies self.matches(
            prefix,
        ).contains(w) by {
            lemma_prefix_push(prefix, c, w);
        }
    }

    /// A prefix that no stored word starts with has no suggestion.
    pub proof fn lemma_unseen_prefix(&self, prefix: Seq<char>)
        requires
            self.wf(),
            forall|w: Seq<char>| self@.contains(w) ==> !is_prefix(prefix, w),
        ensures
            self.suggestions(prefix) == Seq::<Seq<char>>::empty(),
    {
        self.lemma_suggestions(prefix);
        let got = self.suggestions(prefix);
        if got.len() > 0 {
            assert(got.to_set().contains(got[0]));
            assert(self@.contains(got[0]));
        }
        assert(got =~= Seq::<Seq<char>>::empty());
    }

    /// Trees of the same shape give the same suggestions in the same order.
    pub proof fn lemma_same_shape_suggestions(&self, other: &Trie, prefix: Seq<char>)
        requires
            self.wf(),
            self.root.same_shape(&other.root),
        ensures
            self.suggestions(prefix) == other.suggestions(prefix),
    {
        self.root.lemma_same_shape_ordered(&other.root, prefix);
    }

    /// A tree that stores no word.
    pub fn new() -> (r: Self)
        ensures
            r.wf(),
            r@ == Set::<Seq<char>>::empty(),
            r.root.paths() == set![Seq::<char>::empty()],
            r.root.degree() == 0,
            !r.root.terminal(),
    {
        Trie { root: TrieNode::new() }
    }

    /// Stores the part of `word` that starts at `position` below `node`.
    ///
    /// The walk stops with an error at the first character that is no ASCII
    /// letter. The edges made for the letters before it stay in the tree, but
    /// the set of stored words is then unchanged.
    pub fn insert(word: String, node: &mut TrieNode, position: usize) -> (r: Result<(), TrieError>)
        requires
            old(node).wf(),
            position <= word@.len(),
        ensures
            final(node).wf(),
            r is Ok <==> is_word(word@.skip(position as int)),
            final(node).words() == if is_word(word@.skip(position as int)) {
                old(node).words().insert(word@.skip(position as int))
            } else {
                old(node).words()
            },
            final(node).paths() == old(node).paths().union(
                Set::new(|p: Seq<char>| is_prefix(p, letters_prefix(word@.skip(position as int)))),
            ),
            old(node).contains(word@.skip(position as int)) ==> old(node).same_shape(final(node)),
    {
        let chars = to_chars(word.as_str());
        let r = node.insert_from(&chars, position);
        proof {
            let s = word@.skip(position as int);
            lemma_letters_run(s);
            assert forall|p: Seq<char>| gained(s, p, false) <==> is_prefix(
                p,
                letters_prefix(s),
            ) by {
                if p.len() <= letters_run(s) {
                    assert(letters_prefix(s).take(p.len() as int) =~= s.take(p.len() as int));
                }
            }
            assert forall|w: Seq<char>| gained(s, w, true) <==> (is_word(s) && w == s) by {
                if w.len() == s.len() {
                    assert(s.take(w.len() as int) =~= s);
                }
            }
            assert(node.words() =~= if is_word(s) {
                old(node).words().insert(s)
            } else {
                old(node).words()
            });
            assert(node.paths() =~= old(node).paths().union(
                Set::new(|p: Seq<char>| is_prefix(p, letters_prefix(s))),
            ));
        }
        r
    }

    /// The stored words that start with `prefix`, each once, in the order of
    /// a depth-first traversal. A prefix that leads nowhere in the tree gives
    /// an empty list, not an error.
    pub fn suggest(&self, prefix: &str) -> (r: Result<Vec<String>, TrieError>)
        requires
            self.wf(),
        ensures
            r is Ok,
            views(r.unwrap()@) == self.suggestions(prefix@),
            self.suggestions(prefix@).no_duplicates(),
            self.suggestions(prefix@).to_set() == self.matches(prefix@),
    {
        let chars = to_chars(prefix);
        let mut node = &self.root;
        let mut current_letters: Vec<char> = Vec::new();
        let n = chars.len();
        let mut i: usize = 0;
        assert(chars@.take(0) =~= Seq::<char>::empty());
        while i < n
            invariant
                self.wf(),
                i <= n,
                n == chars@.len(),
                chars@ == prefix@,
                current_letters@ == chars@.take(i as int),
                self.root.descend(chars@.take(i as int)) == Some(*node),
            decreases n - i,
        {
            let letter = chars[i];
            proof {
                let rest = chars@.skip(i as int);
                assert(chars@.take(i as int) + rest =~= chars@);
                assert(chars@.take(i as int) + seq![letter] =~= chars@.take(i + 1));
                assert(seq![letter].skip(1) =~= Seq::<char>::empty());
                self.root.lemma_descend_concat(chars@.take(i as int), rest);
                self.root.lemma_descend_concat(chars@.take(i as int), seq![letter]);
                assert(rest[0] == letter);
            }
            match node.find(letter) {
                Some(j) => {
                    proof {
                        self.root.lemma_descend(chars@.take(i as int));
                        lemma_slot(node.keys@, j as int);
                        let next = node.nodes@[j as int];
                        assert(node.descend(seq![letter]) == next.descend(seq![letter].skip(1)));
                        assert(next.descend(Seq::<char>::empty()) == Some(next));
                    }
                    node = &node.nodes[j];
                    current_letters.push(letter);
                    assert(current_letters@ =~= chars@.take(i + 1));
                },
                None => {
                    let none: Vec<String> = Vec::new();
                    proof {
                        self.lemma_suggestions(prefix@);
                        assert(node.descend(chars@.skip(i as int)).is_none());
                        assert(views(none@) =~= self.suggestions(prefix@));
                    }
                    return Ok(none);
                },
            }
            i += 1;
        }
        let mut suggestion_list: Vec<String> = Vec::new();
        proof {
            assert(chars@.take(n as int) =~= chars@);
            self.root.lemma_descend(chars@);
            self.lemma_suggestions(prefix@);
        }
        Self::consume_words(node, &mut suggestion_list, &mut current_letters);
        assert(views(suggestion_list@) =~= self.suggestions(prefix@));
        Ok(suggestion_list)
    }

    fn consume_words(node: &TrieNode, word_list: &mut Vec<String>, current_letters: &mut Vec<char>)
        requires
            node.wf(),
        ensures
            final(current_letters)@ == old(current_letters)@,
            views(final(word_list)@) == views(old(word_list)@) + node.listing(
                old(current_letters)@,
            ),
        decreases node,
    {
        let ghost cur = current_letters@;
        let ghost before = views(word_list@);
        if node.word_ends {
            word_list.push(word_from(current_letters));
            assert(views(word_list@) =~= before + seq![cur]);
        } else {
            assert(views(word_list@) =~= before + Seq::<Seq<char>>::empty());
        }
        let ghost head = views(word_list@);
        let n = node.nodes.len();
        let mut i: usize = 0;
        assert(head + node.listing_of(cur, 0) =~= head);
        while i < n
            invariant
                node.wf(),
                n == node.nodes@.len(),
                i <= n,
                current_letters@ == cur,
                views(word_list@) == head + node.listing_of(cur, i as nat),
            decreases n - i,
        {
            let ghost so_far = views(word_list@);
            current_letters.push(node.keys[i]);
            Self::consume_words(&node.nodes[i], word_list, current_letters);
            current_letters.pop();
            i += 1;
            proof {
                assert(current_letters@ =~= cur);
                let below = node.nodes@[i - 1].listing(cur.push(node.keys@[i - 1]));
                assert(node.listing_of(cur, i as nat) == node.listing_of(cur, (i - 1) as nat)
                    + below);
                assert(views(word_list@) =~= head + node.listing_of(cur, i as nat));
            }
        }
        assert(views(word_list@) =~= before + node.listing(cur));
    }

    /// Whether the part of `word` that starts at `position` is a stored word
    /// below `node`.
    pub fn search(word: String, node: &TrieNode, position: usize) -> (r: Result<bool, TrieError>)
        requires
            node.wf(),
            position <= word@.len(),
        ensures
            r == search_outcome(*node, word@.skip(position as int)),
            is_word(word@.skip(position as int)) ==> r == Ok::<bool, TrieError>(
                node.words().contains(word@.skip(position as int)),
            ),
    {
        let chars = to_chars(word.as_str());
        node.search_from(&chars, position)
    }
}

} // verus!
