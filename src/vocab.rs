use crate::node::Node;
use vstd::prelude::*;

verus! {

/// The characters of each word in a list, in order.
pub open spec fn spelled(word_list: Seq<&str>) -> Seq<Seq<char>> {
    word_list.map_values(|w: &str| w@)
}

/// `m` after recording each of `words` in turn, the word at offset `i` at
/// position `start + i`; a word that comes again takes its later position.
pub open spec fn with_words(m: Map<Seq<char>, usize>, words: Seq<Seq<char>>, start: int) -> Map<
    Seq<char>,
    usize,
>
    decreases words.len(),
{
    if words.len() == 0 {
        m
    } else {
        with_words(m, words.drop_last(), start).insert(
            words.last(),
            (start + words.len() - 1) as usize,
        )
    }
}

/// Recording words leaves every other word as it was.
pub proof fn lemma_with_words_frame(
    m: Map<Seq<char>, usize>,
    words: Seq<Seq<char>>,
    start: int,
    w: Seq<char>,
)
    requires
        !words.contains(w),
    ensures
        with_words(m, words, start).get(w) == m.get(w),
    decreases words.len(),
{
    if words.len() > 0 {
        assert(words.drop_last().contains(w) ==> words.contains(w));
        assert(words.last() != w) by {
            assert(words[words.len() - 1] == words.last());
        }
        lemma_with_words_frame(m, words.drop_last(), start, w);
    }
}

/// A word that does not come again later in the list keeps the position of
/// its offset.
pub proof fn lemma_with_words_last_occurrence(
    m: Map<Seq<char>, usize>,
    words: Seq<Seq<char>>,
    start: int,
    i: int,
)
    requires
        0 <= start,
        start + words.len() <= usize::MAX + 1,
        0 <= i < words.len(),
        forall|j: int| i < j < words.len() ==> words[j] != words[i],
    ensures
        with_words(m, words, start).get(words[i]) == Some((start + i) as usize),
    decreases words.len(),
{
    if i < words.len() - 1 {
        assert(words.last() == words[words.len() - 1]);
        assert(words.drop_last()[i] == words[i]);
        lemma_with_words_last_occurrence(m, words.drop_last(), start, i);
    }
}

/// Words with the positions at which they were added, held in a prefix tree.
pub struct Vocab {
    head: Node,
    current_index: usize,
}

impl View for Vocab {
    type V = Map<Seq<char>, usize>;

    /// Each recorded word with its position.
    closed spec fn view(&self) -> Map<Seq<char>, usize> {
        self.head@
    }
}

impl Vocab {
    /// How many words have been added so far, repeats included: the position
    /// that the next word will take.
    pub closed spec fn count(&self) -> usize {
        self.current_index
    }

    /// A vocabulary holding `word_list`, each word at its offset in the list.
    pub fn new(word_list: &[&str]) -> (r: Self)
        ensures
            r@ == with_words(Map::empty(), spelled(word_list@), 0),
            r.count() == word_list@.len(),
    {
        let word_count = word_list.len();
        let mut head = Node::new();
        let ghost words = spelled(word_list@);
        let mut i: usize = 0;
        while i < word_count
            invariant
                i <= word_count == word_list@.len() == words.len(),
                words == spelled(word_list@),
                head@ == with_words(Map::empty(), words.take(i as int), 0),
            decreases word_count - i,
        {
            head.insert(word_list[i], i);
            proof {
                assert(words.take(i + 1).drop_last() =~= words.take(i as int));
            }
            i = i + 1;
        }
        proof {
            assert(words.take(word_count as int) =~= words);
        }
        Vocab { head, current_index: word_count }
    }

    /// Adds `word_list`, each word at the current count plus its offset in the
    /// list, and advances the count by the length of the list.
    pub fn add_words(&mut self, word_list: &[&str])
        requires
            old(self).count() + word_list@.len() <= usize::MAX,
        ensures
            final(self)@ == with_words(old(self)@, spelled(word_list@), old(self).count() as int),
            final(self).count() == old(self).count() + word_list@.len(),
    {
        let word_count = word_list.len();
        let ghost words = spelled(word_list@);
        let ghost start = self@;
        let mut i: usize = 0;
        while i < word_count
            invariant
                i <= word_count == word_list@.len() == words.len(),
                words == spelled(word_list@),
                self.current_index == old(self).current_index,
                self.current_index + word_count <= usize::MAX,
                self@ == with_words(start, words.take(i as int), self.current_index as int),
            decreases word_count - i,
        {
            self.head.insert(word_list[i], i + self.current_index);
            proof {
                assert(words.take(i + 1).drop_last() =~= words.take(i as int));
            }
            i = i + 1;
        }
        proof {
            assert(words.take(word_count as int) =~= words);
        }
        self.current_index = self.current_index + word_count;
    }

    /// The position recorded for `word`, or `None` where it was never added.
    pub fn get_index(&self, word: &str) -> (r: Option<usize>)
        ensures
            r == self@.get(word@),
    {
        self.head.get_index(word)
    }
}

/// Built from a list without repeats, a vocabulary gives each word the
/// position of its offset in the list.
pub proof fn lemma_new_positions(word_list: Seq<&str>, i: int)
    requires
        spelled(word_list).no_duplicates(),
        word_list.len() <= usize::MAX,
        0 <= i < word_list.len(),
    ensures
        with_words(Map::empty(), spelled(word_list), 0).get(word_list[i]@) == Some(i as usize),
{
    let words = spelled(word_list);
    lemma_with_words_last_occurrence(Map::empty(), words, 0, i);
}

/// A word that is not in the list is not found in a vocabulary built from it,
/// whatever prefixes or extensions of it the list holds.
pub proof fn lemma_new_absent(word_list: Seq<&str>, w: Seq<char>)
    requires
        !spelled(word_list).contains(w),
    ensures
        with_words(Map::empty(), spelled(word_list), 0).get(w) == None::<usize>,
{
    lemma_with_words_frame(Map::empty(), spelled(word_list), 0, w);
}

/// A proper prefix of a listed word, not itself listed, is not found.
pub proof fn lemma_prefix_absent(word_list: Seq<&str>, j: int, p: Seq<char>)
    requires
        0 <= j < word_list.len(),
        p.len() < word_list[j]@.len(),
        p == word_list[j]@.take(p.len() as int),
        !spelled(word_list).contains(p),
    ensures
        with_words(Map::empty(), spelled(word_list), 0).get(p) == None::<usize>,
{
    lemma_new_absent(word_list, p);
}

/// A listed word followed by more characters, where that longer word is not
/// itself listed, is not found.
pub proof fn lemma_extension_absent(word_list: Seq<&str>, j: int, s: Seq<char>)
    requires
        0 <= j < word_list.len(),
        s.len() > word_list[j]@.len(),
        s.take(word_list[j]@.len() as int) == word_list[j]@,
        !spelled(word_list).contains(s),
    ensures
        with_words(Map::empty(), spelled(word_list), 0).get(s) == None::<usize>,
{
    lemma_new_absent(word_list, s);
}

/// Adding a list gives each of its words that does not come again later in it
/// the count before the call plus its offset.
pub proof fn lemma_add_words_positions(v: Vocab, word_list: Seq<&str>, i: int)
    requires
        v.count() + word_list.len() <= usize::MAX,
        0 <= i < word_list.len(),
        forall|j: int| i < j < word_list.len() ==> word_list[j]@ != word_list[i]@,
    ensures
        with_words(v@, spelled(word_list), v.count() as int).get(word_list[i]@) == Some(
            (v.count() + i) as usize,
        ),
{
    lemma_with_words_last_occurrence(v@, spelled(word_list), v.count() as int, i);
}

/// Adding a list leaves the position of every word outside it as it was.
pub proof fn lemma_add_words_keeps_others(v: Vocab, word_list: Seq<&str>, w: Seq<char>)
    requires
        !spelled(word_list).contains(w),
    ensures
        with_words(v@, spelled(word_list), v.count() as int).get(w) == v@.get(w),
{
    lemma_with_words_frame(v@, spelled(word_list), v.count() as int, w);
}

/// Two vocabularies built from the same list find the same position for every
/// word.
pub proof fn lemma_new_deterministic(a: Vocab, b: Vocab, word_list: Seq<&str>, w: Seq<char>)
    requires
        a@ == with_words(Map::empty(), spelled(word_list), 0),
        b@ == with_words(Map::empty(), spelled(word_list), 0),
    ensures
        a@.get(w) == b@.get(w),
{
}

} // verus!
