use vstd::prelude::*;

use crate::board::Board;
use crate::region::string_of_chars;
use crate::ruleset::Ruleset;

verus! {

/// What `str::to_uppercase` makes of a string.
pub uninterp spec fn uppercase_of(s: Seq<char>) -> Seq<char>;

/// The first character of what `char::to_uppercase` makes of `c`.
pub uninterp spec fn uppercase_lead(c: char) -> char;

/// Relies on `str::to_uppercase`, whose result depends on the string alone.
#[verifier::external_body]
fn to_uppercase(s: &str) -> (r: String)
    ensures
        r@ == uppercase_of(s@),
{
    s.to_uppercase()
}

/// Relies on `char::to_uppercase`, which yields at least one character and
/// depends on `c` alone; the first one is taken.
#[verifier::external_body]
fn uppercase_first(c: char) -> (r: char)
    ensures
        r == uppercase_lead(c),
{
    c.to_uppercase().next().unwrap()
}

/// Whether letter `k` of region `i` exists in the layout.
pub open spec fn placed(regions: Seq<Vec<(usize, usize)>>, i: int, k: int) -> bool {
    0 <= i < regions.len() && 0 <= k < regions[i]@.len()
}

/// Where letter `k` of region `i` goes in the board's row-by-row listing.
pub open spec fn slot_of(width: usize, regions: Seq<Vec<(usize, usize)>>, i: int, k: int) -> int {
    regions[i]@[k].1 * width + regions[i]@[k].0
}

/// Whether the letters of region `i` number as many as its cells.
pub open spec fn spelled_in_full(
    regions: Seq<Vec<(usize, usize)>>,
    letters: Seq<Seq<char>>,
    i: int,
) -> bool {
    letters[i].len() == regions[i]@.len()
}

/// Whether a layout describes a whole board of `width` by `height` cells:
/// each region has one letter per cell, and the cells of all regions together
/// fill every place of the board exactly once.
pub open spec fn layout_fits(
    width: usize,
    height: usize,
    regions: Seq<Vec<(usize, usize)>>,
    letters: Seq<Seq<char>>,
) -> bool {
    &&& width > 0
    &&& width * height <= usize::MAX
    &&& regions.len() == letters.len()
    &&& forall|i: int| 0 <= i < regions.len() ==> #[trigger] spelled_in_full(regions, letters, i)
    &&& forall|i: int, k: int|
        placed(regions, i, k) ==> #[trigger] slot_of(width, regions, i, k) < width * height
    &&& forall|i: int, k: int, j: int, l: int|
        placed(regions, i, k) && placed(regions, j, l) && #[trigger] slot_of(width, regions, i, k)
            == #[trigger] slot_of(width, regions, j, l) ==> i == j && k == l
    &&& forall|p: int| 0 <= p < width * height ==> #[trigger] place_taken(width, regions, p)
}

/// Whether some letter of the layout goes to place `p` of the board.
pub open spec fn place_taken(width: usize, regions: Seq<Vec<(usize, usize)>>, p: int) -> bool {
    exists|i: int, k: int| placed(regions, i, k) && #[trigger] slot_of(width, regions, i, k) == p
}

/// Whether letter `k` of region `i` is handled before letter `b` of region `a`.
spec fn handled(a: int, b: int, i: int, k: int) -> bool {
    a < i || (a == i && b < k)
}

/// Builds the board that a layout describes: `letters[i][k]` goes to the
/// cell `regions[i][k]`. Gives nothing when the layout does not describe a
/// whole board.
pub fn fill_board(
    width: usize,
    height: usize,
    regions: &Vec<Vec<(usize, usize)>>,
    letters: &Vec<Vec<char>>,
) -> (r: Option<Board>)
    ensures
        r is Some <==> layout_fits(width, height, regions@, letters@.map_values(|w: Vec<char>| w@)),
        r matches Some(b) ==> {
            &&& b.spec_width() == width
            &&& b.spec_height() == height
            &&& b.cells().len() == width * height
            &&& forall|i: int, k: int|
                placed(regions@, i, k) ==> b.cells()[#[trigger] slot_of(width, regions@, i, k)]
                    == letters@[i]@[k]
        },
{
    if width == 0 {
        return None;
    }
    let n = match width.checked_mul(height) {
        Some(n) => n,
        None => return None,
    };
    if regions.len() != letters.len() {
        return None;
    }
    let ghost rs = regions@;
    let ghost ls = letters@.map_values(|w: Vec<char>| w@);
    let mut slots: Vec<Option<char>> = Vec::new();
    while slots.len() < n
        invariant
            slots@.len() <= n,
            forall|m: int| 0 <= m < slots@.len() ==> slots@[m] is None,
        decreases n - slots.len(),
    {
        slots.push(None);
    }
    let mut i: usize = 0;
    while i < regions.len()
        invariant
            width > 0,
            n == width * height,
            rs == regions@,
            regions@.len() == letters@.len(),
            ls == letters@.map_values(|w: Vec<char>| w@),
            i <= rs.len(),
            slots@.len() == n,
            forall|a: int| 0 <= a < i ==> #[trigger] spelled_in_full(rs, ls, a),
            forall|a: int, b: int|
                placed(rs, a, b) && handled(a, b, i as int, 0) ==> {
                    &&& 0 <= #[trigger] slot_of(width, rs, a, b) < n
                    &&& slots@[slot_of(width, rs, a, b)] == Some(ls[a][b])
                },
            forall|m: int|
                0 <= m < n && (#[trigger] slots@[m]) is Some ==> exists|a: int, b: int|
                    placed(rs, a, b) && handled(a, b, i as int, 0) && #[trigger] slot_of(width, rs, a, b) == m,
            forall|a: int, b: int, c: int, d: int|
                placed(rs, a, b) && placed(rs, c, d) && handled(a, b, i as int, 0) && handled(c, d, i as int, 0)
                    && #[trigger] slot_of(width, rs, a, b) == #[trigger] slot_of(width, rs, c, d) ==> a == c && b == d,
        decreases regions.len() - i,
    {
        let region = &regions[i];
        let word = &letters[i];
        if word.len() != region.len() {
            assert(!spelled_in_full(rs, ls, i as int));
            return None;
        }
        assert(spelled_in_full(rs, ls, i as int));
        let mut k: usize = 0;
        while k < region.len()
            invariant
                width > 0,
                n == width * height,
                rs == regions@,
                regions@.len() == letters@.len(),
                ls == letters@.map_values(|w: Vec<char>| w@),
                i < rs.len(),
                *region == rs[i as int],
                *word == letters@[i as int],
                word@.len() == region@.len(),
                k <= region@.len(),
                slots@.len() == n,
                forall|a: int| 0 <= a <= i ==> #[trigger] spelled_in_full(rs, ls, a),
                forall|a: int, b: int|
                    placed(rs, a, b) && handled(a, b, i as int, k as int) ==> {
                        &&& 0 <= #[trigger] slot_of(width, rs, a, b) < n
                        &&& slots@[slot_of(width, rs, a, b)] == Some(ls[a][b])
                    },
                forall|m: int|
                    0 <= m < n && (#[trigger] slots@[m]) is Some ==> exists|a: int, b: int|
                        placed(rs, a, b) && handled(a, b, i as int, k as int) && #[trigger] slot_of(width, rs, a, b)
                            == m,
                forall|a: int, b: int, c: int, d: int|
                    placed(rs, a, b) && placed(rs, c, d) && handled(a, b, i as int, k as int) && handled(
                        c,
                        d,
                        i as int,
                        k as int,
                    ) && #[trigger] slot_of(width, rs, a, b) == #[trigger] slot_of(width, rs, c, d) ==> a == c
                        && b == d,
            decreases region.len() - k,
        {
            let (x, y) = region[k];
            assert(slot_of(width, rs, i as int, k as int) == y * width + x);
            if y >= height {
                assert(y * width + x >= n) by (nonlinear_arith)
                    requires
                        y >= height,
                        n == width * height,
                        width > 0,
                ;
                return None;
            }
            assert(y * width + width <= n) by (nonlinear_arith)
                requires
                    y < height,
                    n == width * height,
                    width > 0,
            ;
            if x >= n - y * width {
                return None;
            }
            let idx = y * width + x;
            if slots[idx].is_some() {
                proof {
                    let (a, b) = choose|a: int, b: int|
                        placed(rs, a, b) && handled(a, b, i as int, k as int) && #[trigger] slot_of(width, rs, a, b)
                            == idx;
                    assert(placed(rs, i as int, k as int));
                    assert(slot_of(width, rs, a, b) == slot_of(width, rs, i as int, k as int));
                }
                return None;
            }
            let ghost old_slots = slots@;
            slots.set(idx, Some(word[k]));
            proof {
                assert forall|m: int|
                    0 <= m < n && (#[trigger] slots@[m]) is Some implies exists|a: int, b: int|
                        placed(rs, a, b) && handled(a, b, i as int, k + 1) && #[trigger] slot_of(width, rs, a, b)
                            == m by {
                    if m == idx {
                        assert(placed(rs, i as int, k as int) && handled(i as int, k as int, i as int, k + 1));
                        assert(slot_of(width, rs, i as int, k as int) == m);
                    } else {
                        assert(old_slots[m] is Some);
                        let (a, b) = choose|a: int, b: int|
                            placed(rs, a, b) && handled(a, b, i as int, k as int) && #[trigger] slot_of(
                                width,
                                rs,
                                a,
                                b,
                            ) == m;
                        assert(handled(a, b, i as int, k + 1));
                    }
                };
                assert forall|a: int, b: int|
                    placed(rs, a, b) && handled(a, b, i as int, k + 1) implies {
                        &&& 0 <= #[trigger] slot_of(width, rs, a, b) < n
                        &&& slots@[slot_of(width, rs, a, b)] == Some(ls[a][b])
                    } by {
                    if a == i && b == k {
                    } else {
                        assert(handled(a, b, i as int, k as int));
                        assert(old_slots[slot_of(width, rs, a, b)] is Some);
                    }
                };
                assert forall|a: int, b: int, c: int, d: int|
                    placed(rs, a, b) && placed(rs, c, d) && handled(a, b, i as int, k + 1) && handled(
                        c,
                        d,
                        i as int,
                        k + 1,
                    ) && #[trigger] slot_of(width, rs, a, b) == #[trigger] slot_of(width, rs, c, d) implies a == c
                        && b == d by {
                    if a == i && b == k && !(c == i && d == k) {
                        assert(handled(c, d, i as int, k as int));
                        assert(old_slots[slot_of(width, rs, c, d)] is Some);
                    } else if c == i && d == k && !(a == i && b == k) {
                        assert(handled(a, b, i as int, k as int));
                        assert(old_slots[slot_of(width, rs, a, b)] is Some);
                    }
                };
            }
            k = k + 1;
        }
        proof {
            assert forall|a: int, b: int| placed(rs, a, b) && handled(a, b, i + 1, 0) implies handled(
                a,
                b,
                i as int,
                k as int,
            ) by {};
            assert forall|m: int|
                0 <= m < n && (#[trigger] slots@[m]) is Some implies exists|a: int, b: int|
                    placed(rs, a, b) && handled(a, b, i + 1, 0) && #[trigger] slot_of(width, rs, a, b) == m by {
                let (a, b) = choose|a: int, b: int|
                    placed(rs, a, b) && handled(a, b, i as int, k as int) && #[trigger] slot_of(width, rs, a, b)
                        == m;
                assert(handled(a, b, i + 1, 0));
            };
        }
        i = i + 1;
    }
    let mut chars: Vec<char> = Vec::new();
    let mut m: usize = 0;
    while m < n
        invariant
            width > 0,
            n == width * height,
            rs == regions@,
            regions@.len() == letters@.len(),
            ls == letters@.map_values(|w: Vec<char>| w@),
            forall|a: int| 0 <= a < rs.len() ==> #[trigger] spelled_in_full(rs, ls, a),
            forall|a: int, b: int|
                placed(rs, a, b) && handled(a, b, rs.len() as int, 0) ==> {
                    &&& 0 <= #[trigger] slot_of(width, rs, a, b) < n
                    &&& slots@[slot_of(width, rs, a, b)] == Some(ls[a][b])
                },
            forall|q: int|
                0 <= q < n && (#[trigger] slots@[q]) is Some ==> exists|a: int, b: int|
                    placed(rs, a, b) && handled(a, b, rs.len() as int, 0) && #[trigger] slot_of(width, rs, a, b) == q,
            forall|a: int, b: int, c: int, d: int|
                placed(rs, a, b) && placed(rs, c, d) && handled(a, b, rs.len() as int, 0) && handled(
                    c,
                    d,
                    rs.len() as int,
                    0,
                ) && #[trigger] slot_of(width, rs, a, b) == #[trigger] slot_of(width, rs, c, d) ==> a == c && b == d,
            slots@.len() == n,
            m <= n,
            chars@.len() == m,
            forall|p: int| 0 <= p < m ==> slots@[p] == Some(#[trigger] chars@[p]),
        decreases n - m,
    {
        match slots[m] {
            Some(c) => chars.push(c),
            None => {
                proof {
                    if layout_fits(width, height, rs, ls) {
                        assert(place_taken(width, rs, m as int));
                        let (a, b) = choose|a: int, b: int| placed(rs, a, b) && #[trigger] slot_of(width, rs, a, b) == m;
                        assert(handled(a, b, rs.len() as int, 0));
                    }
                }
                return None;
            }
        }
        m = m + 1;
    }
    let text = string_of_chars(&chars);
    proof {
        vstd::arithmetic::div_mod::lemma_mod_multiples_basic(height as int, width as int);
        assert(height * width == width * height) by (nonlinear_arith);
    }
    let board = Board::new(width, text.as_str());
    proof {
        let h = board.spec_height();
        assert(h == height) by (nonlinear_arith)
            requires
                h * width == width * height,
                width > 0,
        ;
        assert forall|p: int| 0 <= p < n implies (#[trigger] slots@[p]) is Some by {
            assert(slots@[p] == Some(chars@[p]));
        };
        assert forall|a: int, b: int| placed(rs, a, b) implies board.cells()[#[trigger] slot_of(width, rs, a, b)]
            == ls[a][b] by {
            assert(handled(a, b, rs.len() as int, 0));
            let p = slot_of(width, rs, a, b);
            assert(slots@[p] == Some(chars@[p]));
        };
        assert forall|p: int| 0 <= p < width * height implies #[trigger] place_taken(width, rs, p) by {
            assert(slots@[p] is Some);
        };
        assert forall|a: int| 0 <= a < rs.len() implies #[trigger] spelled_in_full(rs, ls, a) by {};
    }
    Some(board)
}

/// Each word as the first characters of what its letters become in upper
/// case.
pub open spec fn upper_letters(words: Seq<String>) -> Seq<Seq<char>> {
    words.map_values(|w: String| w@.map_values(|c: char| uppercase_lead(c)))
}

/// Each word's letters in upper case, one for one.
fn uppercase_letters(words: &Vec<String>) -> (r: Vec<Vec<char>>)
    ensures
        r@.map_values(|w: Vec<char>| w@) == upper_letters(words@),
{
    let mut r: Vec<Vec<char>> = Vec::new();
    let mut i: usize = 0;
    while i < words.len()
        invariant
            i <= words@.len(),
            r@.len() == i,
            forall|j: int| 0 <= j < i ==> (#[trigger] r@[j])@ == upper_letters(words@)[j],
        decreases words.len() - i,
    {
        let word = words[i].as_str();
        let len = word.unicode_len();
        let mut chars: Vec<char> = Vec::new();
        let mut k: usize = 0;
        while k < len
            invariant
                len == word@.len(),
                k <= len,
                chars@ == word@.subrange(0, k as int).map_values(|c: char| uppercase_lead(c)),
            decreases len - k,
        {
            chars.push(uppercase_first(word.get_char(k)));
            k = k + 1;
            assert(chars@ =~= word@.subrange(0, k as int).map_values(|c: char| uppercase_lead(c)));
        }
        assert(word@.subrange(0, len as int) =~= word@);
        r.push(chars);
        i = i + 1;
    }
    assert(r@.map_values(|w: Vec<char>| w@) =~= upper_letters(words@));
    r
}

/// The word list of a puzzle.
pub struct DictionaryData(pub Vec<String>);

/// A puzzle's layout: its size, the bounds on a region's size, and its
/// solution as regions of cells with the word each spells, letter by letter
/// along the region's cells.
pub struct GameData {
    pub width: usize,
    pub height: usize,
    pub min_size: usize,
    pub max_size: usize,
    pub regions: Vec<Vec<(usize, usize)>>,
    pub words: Vec<String>,
}

/// A published puzzle: its word list and its layout.
pub struct OfficialData {
    pub dictionary_data: DictionaryData,
    pub game_data: GameData,
}

impl OfficialData {
    /// The board that the puzzle's solution fills, each letter in upper case.
    /// Gives nothing when the solution does not fill the board exactly.
    pub fn board(&self) -> (r: Option<Board>)
        ensures
            ({
                let g = &self.game_data;
                &&& r is Some <==> layout_fits(g.width, g.height, g.regions@, upper_letters(g.words@))
                &&& r matches Some(b) ==> {
                    &&& b.spec_width() == g.width
                    &&& b.spec_height() == g.height
                    &&& b.cells().len() == g.width * g.height
                    &&& forall|i: int, k: int|
                        placed(g.regions@, i, k) ==> b.cells()[#[trigger] slot_of(g.width, g.regions@, i, k)]
                            == upper_letters(g.words@)[i][k]
                }
            }),
    {
        let g = &self.game_data;
        let letters = uppercase_letters(&g.words);
        let r = fill_board(g.width, g.height, &g.regions, &letters);
        proof {
            if r is Some {
                let b = r->Some_0;
                assert forall|i: int, k: int| placed(g.regions@, i, k) implies b.cells()[#[trigger] slot_of(
                    g.width,
                    g.regions@,
                    i,
                    k,
                )] == upper_letters(g.words@)[i][k] by {
                    assert(letters@.map_values(|w: Vec<char>| w@)[i] == letters@[i]@);
                };
            }
        }
        r
    }

    /// The rules of the puzzle: its size bounds, and its word list in upper
    /// case.
    pub fn ruleset(&self) -> (r: Ruleset)
        ensures
            r.min_length == self.game_data.min_size,
            r.max_length == self.game_data.max_size,
            r.dictionary@.len() == self.dictionary_data.0@.len(),
            forall|i: int|
                0 <= i < r.dictionary@.len() ==> (#[trigger] r.dictionary@[i])@ == uppercase_of(
                    self.dictionary_data.0@[i]@,
                ),
    {
        let words = &self.dictionary_data.0;
        let mut dictionary: Vec<String> = Vec::new();
        let mut i: usize = 0;
        while i < words.len()
            invariant
                i <= words@.len(),
                dictionary@.len() == i,
                forall|j: int| 0 <= j < i ==> (#[trigger] dictionary@[j])@ == uppercase_of(words@[j]@),
            decreases words.len() - i,
        {
            dictionary.push(to_uppercase(words[i].as_str()));
            i = i + 1;
        }
        Ruleset { min_length: self.game_data.min_size, max_length: self.game_data.max_size, dictionary }
    }
}

} // verus!
