use vstd::prelude::*;

verus! {

/// The fixed rules of a puzzle: inclusive bounds on a region's size and the
/// words that a region may spell.
pub struct Ruleset {
    pub min_length: usize,
    pub max_length: usize,
    pub dictionary: Vec<String>,
}

impl Ruleset {
    /// The words of the dictionary, as character sequences.
    pub open spec fn words(&self) -> Set<Seq<char>> {
        self.dictionary@.map_values(|w: String| w@).to_set()
    }

    /// Whether `word` is in the dictionary (an exact match).
    pub fn has_word(&self, word: &String) -> (r: bool)
        ensures
            r == self.words().contains(word@),
    {
        let mut i: usize = 0;
        while i < self.dictionary.len()
            invariant
                forall|j: int| 0 <= j < i ==> (#[trigger] self.dictionary@[j])@ != word@,
            decreases self.dictionary.len() - i,
        {
            if self.dictionary[i] == *word {
                assert(self.dictionary@.map_values(|w: String| w@)[i as int] == word@);
                return true;
            }
            i = i + 1;
        }
        let ghost spelled = self.dictionary@.map_values(|w: String| w@);
        assert forall|k: int| 0 <= k < spelled.len() implies #[trigger] spelled[k] != word@ by {
            assert(self.dictionary@[k]@ != word@);
        };
        false
    }
}

} // verus!
