use std::collections::HashMap;
use vstd::prelude::*;
use vstd::string::StrSliceExecFns;

verus! {

broadcast use vstd::std_specs::hash::group_hash_axioms;

/// One vertex of the prefix tree. Each child hangs under the scalar value of
/// the character on its edge; `index` is set when a word ends here.
pub struct Node {
    next: HashMap<u32, Node>,
    index: Option<usize>,
}

impl Node {
    /// The position stored at the end of the path that spells `s`, if the
    /// path exists and a word ends there.
    pub closed spec fn find(self, s: Seq<char>) -> Option<usize>
        decreases s.len(),
    {
        if s.len() == 0 {
            self.index
        } else if self.next@.contains_key(s[0] as u32) {
            self.next@[s[0] as u32].find(s.drop_first())
        } else {
            None
        }
    }

    /// The view holds exactly what `find` gives.
    proof fn lemma_view_get(self, s: Seq<char>)
        ensures
            self@.get(s) == self.find(s),
    {
    }

    /// A vertex with no children and no word ending at it.
    pub fn new() -> (r: Node)
        ensures
            r@ == Map::<Seq<char>, usize>::empty(),
    {
        let r = Node { next: HashMap::new(), index: None };
        assert(r@ =~= Map::<Seq<char>, usize>::empty());
        r
    }

    /// Records `current_index` as the position of the word that `content`
    /// spells from this vertex down, replacing any earlier position.
    pub fn insert(&mut self, content: &str, current_index: usize)
        ensures
            final(self)@ == old(self)@.insert(content@, current_index),
        decreases content@.len(),
    {
        let len = content.unicode_len();
        if len == 0 {
            self.index = Some(current_index);
            proof {
                assert forall|t: Seq<char>| #[trigger] self.find(t) == (if t == content@ {
                    Some(current_index)
                } else {
                    old(self).find(t)
                }) by {
                    if t.len() == 0 {
                        assert(t =~= content@);
                    }
                }
                assert(self@ =~= old(self)@.insert(content@, current_index));
            }
            return;
        }
        let head = content.get_char(0);
        let rest = content.substring_char(1, len);
        let key = head as u32;
        let ghost before = self.next@;
        let mut child = match self.next.remove(&key) {
            Some(n) => n,
            None => Node::new(),
        };
        let ghost old_child = child;
        child.insert(rest, current_index);
        let ghost new_child = child;
        self.next.insert(key, child);
        proof {
            assert(rest@ =~= content@.drop_first());
            assert forall|t: Seq<char>| #[trigger] self.find(t) == (if t == content@ {
                Some(current_index)
            } else {
                old(self).find(t)
            }) by {
                if t.len() > 0 && t[0] as u32 == key {
                    lemma_code_injective(t[0], head);
                    if t.drop_first() == rest@ {
                        assert forall|i: int| 0 <= i < t.len() implies t[i] == content@[i] by {
                            if i > 0 {
                                assert(t[i] == t.drop_first()[i - 1]);
                                assert(content@[i] == content@.drop_first()[i - 1]);
                            }
                        }
                        assert(t =~= content@);
                    }
                    if before.contains_key(key) {
                        assert(old_child == before[key]);
                    } else {
                        assert(!old_child@.contains_key(t.drop_first()));
                    }
                    assert(old_child.find(t.drop_first()) == old(self).find(t));
                    new_child.lemma_view_get(t.drop_first());
                    old_child.lemma_view_get(t.drop_first());
                    assert(self.next@[key] == new_child);
                } else {
                    assert(t != content@);
                }
            }
            assert(self@ =~= old(self)@.insert(content@, current_index));
        }
    }

    /// The position recorded for the word that `content` spells from this
    /// vertex down, or `None` where no word ends there.
    pub fn get_index(&self, content: &str) -> (r: Option<usize>)
        ensures
            r == self@.get(content@),
        decreases content@.len(),
    {
        let len = content.unicode_len();
        if len == 0 {
            return self.index;
        }
        let head = content.get_char(0);
        let rest = content.substring_char(1, len);
        let key = head as u32;
        proof {
            assert(rest@ =~= content@.drop_first());
        }
        match self.next.get(&key) {
            Some(child) => child.get_index(rest),
            None => None,
        }
    }
}

/// Distinct characters have distinct scalar values.
proof fn lemma_code_injective(c: char, d: char)
    requires
        c as u32 == d as u32,
    ensures
        c == d,
{
    assert(c as int == (c as u32) as int);
    assert(d as int == (d as u32) as int);
}

impl View for Node {
    type V = Map<Seq<char>, usize>;

    /// Each word that ends at a vertex below this one, with its position.
    closed spec fn view(&self) -> Map<Seq<char>, usize> {
        Map::new(|s: Seq<char>| self.find(s) is Some, |s: Seq<char>| self.find(s)->0)
    }
}

} // verus!
