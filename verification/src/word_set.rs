//! Words and the sorted set of remaining candidate words.

use vstd::prelude::*;

verus! {

/// An immutable word: an ordered sequence of letter symbols.
#[derive(Debug)]
pub struct Word {
    chars: Vec<char>,
}

impl View for Word {
    type V = Seq<char>;

    closed spec fn view(&self) -> Seq<char> {
        self.chars@
    }
}

impl Word {
    /// Builds a word from an owned string.
    pub fn from_string(s: String) -> (w: Word)
        ensures
            w@ == s@,
    {
        Word::from_str(s.as_str())
    }

    /// Builds a word from a string slice.
    pub fn from_str(s: &str) -> (w: Word)
        ensures
            w@ == s@,
    {
        let n = s.unicode_len();
        let mut chars: Vec<char> = Vec::new();
        let mut i: usize = 0;
        while i < n
            invariant
                i <= n,
                n == s@.len(),
                chars@ =~= s@.take(i as int),
            decreases n - i,
        {
            chars.push(s.get_char(i));
            i = i + 1;
        }
        assert(chars@ =~= s@);
        Word { chars }
    }

    /// The symbol at the given position.
    pub fn get(&self, index: usize) -> (c: char)
        requires
            index < self@.len(),
        ensures
            c == self@[index as int],
    {
        self.chars[index]
    }

    /// The number of symbols in the word.
    pub fn len(&self) -> (n: usize)
        ensures
            n == self@.len(),
    {
        self.chars.len()
    }
}

impl Clone for Word {
    fn clone(&self) -> (w: Self)
        ensures
            w@ == self@,
    {
        let mut chars: Vec<char> = Vec::new();
        let mut i: usize = 0;
        while i < self.chars.len()
            invariant
                i <= self.chars@.len(),
                chars@ =~= self.chars@.take(i as int),
            decreases self.chars@.len() - i,
        {
            chars.push(self.chars[i]);
            i = i + 1;
        }
        proof {
            assert(chars@ =~= self.chars@);
        }
        Word { chars }
    }
}

impl PartialEq for Word {
    fn eq(&self, other: &Word) -> (r: bool) {
        let n = self.chars.len();
        if n != other.chars.len() {
            return false;
        }
        let mut i: usize = 0;
        while i < n
            invariant
                i <= n,
                n == self.chars@.len(),
                n == other.chars@.len(),
                forall|k: int| 0 <= k < i ==> self.chars@[k] == other.chars@[k],
            decreases n - i,
        {
            if self.chars[i] != other.chars[i] {
                return false;
            }
            i = i + 1;
        }
        proof {
            assert(self.chars@ =~= other.chars@);
        }
        true
    }
}

impl Eq for Word {

}

impl vstd::std_specs::cmp::PartialEqSpecImpl for Word {
    open spec fn obeys_eq_spec() -> bool {
        true
    }

    open spec fn eq_spec(&self, other: &Word) -> bool {
        self@ == other@
    }
}

/// Strict lexicographic order on symbol sequences: the order the sorted
/// candidate pool keeps its words in.
pub open spec fn lex_lt(a: Seq<char>, b: Seq<char>) -> bool
    decreases a.len(),
{
    if b.len() == 0 {
        false
    } else if a.len() == 0 {
        true
    } else if a[0] != b[0] {
        (a[0] as int) < (b[0] as int)
    } else {
        lex_lt(a.drop_first(), b.drop_first())
    }
}

/// Lexicographic order is total: any two sequences are ordered or equal, and
/// strictly ordered sequences are distinct and not ordered the other way.
pub proof fn lemma_lex_total(a: Seq<char>, b: Seq<char>)
    ensures
        lex_lt(a, b) || lex_lt(b, a) || a == b,
        lex_lt(a, b) ==> !lex_lt(b, a) && a != b,
    decreases a.len() + b.len(),
{
    if a.len() > 0 && b.len() > 0 && a[0] == b[0] {
        lemma_lex_total(a.drop_first(), b.drop_first());
        if a.drop_first() == b.drop_first() {
            assert forall|i: int| 0 <= i < a.len() implies a[i] == b[i] by {
                if i > 0 {
                    assert(a[i] == a.drop_first()[i - 1]);
                    assert(b[i] == b.drop_first()[i - 1]);
                }
            }
            assert(a =~= b);
        }
        if a == b {
            assert(a.drop_first() =~= b.drop_first());
        }
    } else if a.len() == 0 && b.len() == 0 {
        assert(a =~= b);
    }
}

/// Lexicographic order is transitive.
pub proof fn lemma_lex_trans(a: Seq<char>, b: Seq<char>, c: Seq<char>)
    requires
        lex_lt(a, b),
        lex_lt(b, c),
    ensures
        lex_lt(a, c),
    decreases a.len() + b.len() + c.len(),
{
    if a.len() > 0 && b.len() > 0 && c.len() > 0 && a[0] == b[0] && b[0] == c[0] {
        lemma_lex_trans(a.drop_first(), b.drop_first(), c.drop_first());
    }
}

/// Compares two words: `-1`, `0` or `1` as the first is below, equal to or
/// above the second in lexicographic order.
fn word_cmp(a: &Word, b: &Word) -> (r: i8)
    ensures
        r == -1 || r == 0 || r == 1,
        (r == -1) == lex_lt(a@, b@),
        (r == 0) == (a@ == b@),
        (r == 1) == lex_lt(b@, a@),
{
    proof {
        lemma_lex_total(a@, b@);
    }
    let an = a.chars.len();
    let bn = b.chars.len();
    let n = if an < bn {
        an
    } else {
        bn
    };
    let mut i: usize = 0;
    while i < n
        invariant
            i <= n,
            n <= a.chars@.len(),
            n <= b.chars@.len(),
            n == a.chars@.len() || n == b.chars@.len(),
            forall|k: int| 0 <= k < i ==> a.chars@[k] == b.chars@[k],
        decreases n - i,
    {
        let ca = a.chars[i];
        let cb = b.chars[i];
        if ca != cb {
            proof {
                lemma_lex_first_diff(a@, b@, i as int);
                lemma_lex_total(a@, b@);
            }
            if ca < cb {
                return -1;
            } else {
                return 1;
            }
        }
        i = i + 1;
    }
    if an == bn {
        proof {
            assert(a@ =~= b@);
        }
        0
    } else if an < bn {
        proof {
            lemma_lex_prefix(a@, b@);
            lemma_lex_total(a@, b@);
        }
        -1
    } else {
        proof {
            lemma_lex_prefix(b@, a@);
            lemma_lex_total(a@, b@);
        }
        1
    }
}

/// Sequences that agree below position `i` and differ there are ordered by
/// the symbols at `i`.
proof fn lemma_lex_first_diff(a: Seq<char>, b: Seq<char>, i: int)
    requires
        0 <= i < a.len(),
        i < b.len(),
        forall|k: int| 0 <= k < i ==> a[k] == b[k],
        a[i] != b[i],
    ensures
        lex_lt(a, b) == ((a[i] as int) < (b[i] as int)),
    decreases i,
{
    if i > 0 {
        lemma_lex_first_diff(a.drop_first(), b.drop_first(), i - 1);
    }
}

/// A strict prefix comes before its extensions.
proof fn lemma_lex_prefix(a: Seq<char>, b: Seq<char>)
    requires
        a.len() < b.len(),
        forall|k: int| 0 <= k < a.len() ==> a[k] == b[k],
    ensures
        lex_lt(a, b),
    decreases a.len(),
{
    if a.len() > 0 {
        lemma_lex_prefix(a.drop_first(), b.drop_first());
    }
}

/// A sequence of words in strictly ascending lexicographic order; strictness
/// makes membership unique.
pub open spec fn sorted_strict(s: Seq<Seq<char>>) -> bool {
    forall|i: int, j: int| 0 <= i < j < s.len() ==> lex_lt(s[i], s[j])
}

/// The pool of remaining candidate words: a set of words with unique
/// membership, kept in sorted order so that membership tests can use binary
/// search.
pub struct WordSet {
    words: Vec<Word>,
}

impl View for WordSet {
    type V = Seq<Seq<char>>;

    closed spec fn view(&self) -> Seq<Seq<char>> {
        self.words@.map_values(|w: Word| w@)
    }
}

impl WordSet {
    /// The sorted-order invariant of the pool.
    pub open spec fn wf(&self) -> bool {
        sorted_strict(self@)
    }

    /// Builds an empty pool.
    pub fn new() -> (s: WordSet)
        ensures
            s@.len() == 0,
            s.wf(),
    {
        WordSet { words: Vec::new() }
    }

    /// Adds a word to the pool, keeping sorted order; a word already present
    /// is not added again.
    pub fn insert(&mut self, word: Word)
        requires
            old(self).wf(),
        ensures
            final(self).wf(),
            final(self)@.contains(word@),
            forall|x: Seq<char>|
                #[trigger] final(self)@.contains(x) == (old(self)@.contains(x) || x == word@),
            final(self)@.len() == old(self)@.len() + (if old(self)@.contains(word@) {
                0int
            } else {
                1int
            }),
    {
        let n = self.words.len();
        let mut idx: usize = 0;
        while idx < n && word_cmp(&self.words[idx], &word) == -1
            invariant
                idx <= n,
                n == self@.len(),
                *self == *old(self),
                forall|k: int| 0 <= k < idx ==> lex_lt(self@[k], word@),
            decreases n - idx,
        {
            idx = idx + 1;
        }
        if idx < n && word_cmp(&self.words[idx], &word) == 0 {
            proof {
                assert(self@[idx as int] == word@);
                assert(self@.contains(word@));
            }
            return ;
        }
        proof {
            if idx < n {
                lemma_lex_total(self@[idx as int], word@);
            }
            assert forall|k: int| idx <= k < n implies lex_lt(word@, self@[k]) by {
                if k > idx {
                    lemma_lex_trans(word@, self@[idx as int], self@[k]);
                }
            }
            assert forall|k: int| 0 <= k < n implies self@[k] != word@ by {
                if k < idx {
                    lemma_lex_total(self@[k], word@);
                } else {
                    lemma_lex_total(word@, self@[k]);
                }
            }
            assert(!old(self)@.contains(word@));
        }
        let ghost pre = self@;
        self.words.insert(idx, word);
        proof {
            assert(self@ =~= pre.insert(idx as int, word@));
            assert forall|i: int, j: int| 0 <= i < j < self@.len() implies lex_lt(
                self@[i],
                self@[j],
            ) by {
                if i == idx {
                } else if j == idx {
                } else if i < idx && j > idx {
                    lemma_lex_trans(pre[i], word@, pre[j - 1]);
                }
            }
            assert(self@[idx as int] == word@);
            assert(self@.contains(word@));
            assert forall|x: Seq<char>| #[trigger] self@.contains(x) implies (pre.contains(x)
                || x == word@) by {
                if x != word@ {
                    let w = choose|w: int| 0 <= w < self@.len() && self@[w] == x;
                    if w < idx {
                        assert(pre[w] == x);
                    } else {
                        assert(pre[w - 1] == x);
                    }
                }
            }
            assert forall|x: Seq<char>| pre.contains(x) implies self@.contains(x) by {
                let w = choose|w: int| 0 <= w < pre.len() && pre[w] == x;
                if w < idx {
                    assert(self@[w] == x);
                } else {
                    assert(self@[w + 1] == x);
                }
            }
        }
    }

    /// Whether the pool contains the word, by binary search over the sorted
    /// order.
    pub fn contains(&self, word: &Word) -> (r: bool)
        requires
            self.wf(),
        ensures
            r == self@.contains(word@),
    {
        let mut lo: usize = 0;
        let mut hi: usize = self.words.len();
        while lo < hi
            invariant
                lo <= hi <= self@.len(),
                self.wf(),
                forall|k: int| 0 <= k < lo ==> lex_lt(self@[k], word@),
                forall|k: int| hi <= k < self@.len() ==> lex_lt(word@, self@[k]),
            decreases hi - lo,
        {
            let mid = lo + (hi - lo) / 2;
            proof {
                assert(self@[mid as int] == self.words@[mid as int]@);
            }
            let c = word_cmp(&self.words[mid], word);
            if c == -1 {
                proof {
                    assert forall|k: int| 0 <= k < mid + 1 implies lex_lt(self@[k], word@) by {
                        if k < mid {
                            lemma_lex_trans(self@[k], self@[mid as int], word@);
                        }
                    }
                }
                lo = mid + 1;
            } else if c == 0 {
                proof {
                    assert(self@[mid as int] == word@);
                    assert(self@.contains(word@));
                }
                return true;
            } else {
                proof {
                    assert forall|k: int| mid <= k < self@.len() implies lex_lt(word@, self@[k]) by {
                        if k > mid {
                            lemma_lex_trans(word@, self@[mid as int], self@[k]);
                        }
                    }
                }
                hi = mid;
            }
        }
        proof {
            assert forall|k: int| 0 <= k < self@.len() implies self@[k] != word@ by {
                if k < lo {
                    lemma_lex_total(self@[k], word@);
                } else {
                    lemma_lex_total(word@, self@[k]);
                }
            }
        }
        false
    }

    /// The number of words in the pool.
    pub fn len(&self) -> (n: usize)
        ensures
            n == self@.len(),
    {
        self.words.len()
    }

    /// Read-only access to the pool's words, in sorted order.
    pub fn iter(&self) -> (r: &Vec<Word>)
        ensures
            r@.len() == self@.len(),
            forall|i: int| 0 <= i < r@.len() ==> r@[i]@ == self@[i],
    {
        &self.words
    }
}

} // verus!
