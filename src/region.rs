use vstd::prelude::*;

use crate::board::Board;
use crate::square::{neighbours, reads_before, Square};

verus! {

broadcast use vstd::seq_lib::group_seq_properties;

/// Whether every cell of `cells` lies on `board`.
pub open spec fn within(board: &Board, cells: Set<Square>) -> bool {
    forall|s: Square| cells.contains(s) ==> board.contains(s)
}

/// Whether `cells` is connected under neighbour adjacency: it cannot be split
/// into two non-empty parts with no neighbouring pair between them.
pub open spec fn connected(cells: Set<Square>) -> bool {
    forall|part: Set<Square>|
        #![trigger part.subset_of(cells)]
        part.subset_of(cells) && part.len() > 0 && part != cells ==> exists|a: Square, b: Square|
            part.contains(a) && cells.contains(b) && !part.contains(b) && neighbours(a, b)
}

/// Whether the cells of `q` come in strict reading order.
pub open spec fn in_reading_order(q: Seq<Square>) -> bool {
    forall|i: int, j: int| 0 <= i < j < q.len() ==> reads_before(q[i], q[j])
}

/// The cells of `cells` listed in reading order (top to bottom, then left to
/// right); this listing is unique.
pub open spec fn reading_order(cells: Set<Square>) -> Seq<Square> {
    choose|q: Seq<Square>| q.to_set() == cells && in_reading_order(q)
}

/// The word that `cells` spells on `board`: its characters in reading order.
pub open spec fn word_of(board: &Board, cells: Set<Square>) -> Seq<char> {
    reading_order(cells).map_values(|s: Square| board.cell(s))
}

/// Two listings of one set of cells, both in reading order, are the same
/// listing.
pub proof fn lemma_reading_order_unique(q1: Seq<Square>, q2: Seq<Square>)
    requires
        in_reading_order(q1),
        in_reading_order(q2),
        q1.to_set() == q2.to_set(),
    ensures
        q1 == q2,
    decreases q1.len(),
{
    if q1.len() == 0 || q2.len() == 0 {
        if q1.len() > 0 {
            assert(q1.to_set().contains(q1[0]));
        }
        if q2.len() > 0 {
            assert(q2.to_set().contains(q2[0]));
        }
        assert(q1 =~= q2);
    } else {
        assert(q1.to_set().contains(q1[0]));
        assert(q2.to_set().contains(q2[0]));
        let k = choose|k: int| 0 <= k < q2.len() && q2[k] == q1[0];
        let m = choose|m: int| 0 <= m < q1.len() && q1[m] == q2[0];
        if k > 0 {
            assert(reads_before(q2[0], q2[k]));
            if m > 0 {
                assert(reads_before(q1[0], q1[m]));
            }
        }
        assert(q1[0] == q2[0]);
        let r1 = q1.subrange(1, q1.len() as int);
        let r2 = q2.subrange(1, q2.len() as int);
        assert forall|x: Square| r1.contains(x) implies r2.contains(x) by {
            let i = choose|i: int| 0 <= i < r1.len() && r1[i] == x;
            assert(q1[i + 1] == x);
            assert(q1.to_set().contains(x));
            let j = choose|j: int| 0 <= j < q2.len() && q2[j] == x;
            if j == 0 {
                assert(reads_before(q1[0], q1[i + 1]));
            }
            assert(r2[j - 1] == x);
        };
        assert forall|x: Square| r2.contains(x) implies r1.contains(x) by {
            let i = choose|i: int| 0 <= i < r2.len() && r2[i] == x;
            assert(q2[i + 1] == x);
            assert(q2.to_set().contains(x));
            let j = choose|j: int| 0 <= j < q1.len() && q1[j] == x;
            if j == 0 {
                assert(reads_before(q2[0], q2[i + 1]));
            }
            assert(r1[j - 1] == x);
        };
        assert(r1.to_set() =~= r2.to_set());
        lemma_reading_order_unique(r1, r2);
        assert(q1 =~= q2) by {
            assert forall|i: int| 1 <= i < q1.len() implies q1[i] == q2[i] by {
                assert(r1[i - 1] == r2[i - 1]);
            };
        };
    }
}

/// Whether each cell of `order` after the first neighbours an earlier one.
pub open spec fn grows_by_neighbours(order: Seq<Square>) -> bool {
    forall|k: int| 0 < k < order.len() ==> #[trigger] has_earlier_neighbour(order, k)
}

/// Whether cell `k` of `order` neighbours a cell listed before it.
pub open spec fn has_earlier_neighbour(order: Seq<Square>, k: int) -> bool {
    exists|j: int| 0 <= j < k && neighbours(order[j], order[k])
}

/// Whether `part` holds `x`.
spec fn holds(part: Set<Square>, x: Square) -> bool {
    part.contains(x)
}

/// In `order`, the first cell whose membership in `part` differs from that of
/// the first cell, given that cell `t` differs.
proof fn lemma_first_change(order: Seq<Square>, part: Set<Square>, t: int) -> (k: int)
    requires
        0 < t < order.len(),
        holds(part, order[t]) != holds(part, order[0]),
    ensures
        0 < k <= t,
        holds(part, order[k]) != holds(part, order[0]),
        forall|i: int| 0 <= i < k ==> holds(part, #[trigger] order[i]) == holds(part, order[0]),
    decreases t,
{
    if exists|i: int| 0 < i < t && holds(part, #[trigger] order[i]) != holds(part, order[0]) {
        let i = choose|i: int| 0 < i < t && holds(part, #[trigger] order[i]) != holds(part, order[0]);
        lemma_first_change(order, part, i)
    } else {
        t
    }
}

/// A listing in which each cell after the first neighbours an earlier one
/// lists a connected set.
pub proof fn lemma_grown_is_connected(order: Seq<Square>)
    requires
        grows_by_neighbours(order),
    ensures
        connected(order.to_set()),
{
    let cells = order.to_set();
    assert forall|part: Set<Square>|
        #![trigger part.subset_of(cells)]
        part.subset_of(cells) && part.len() > 0 && part != cells implies exists|a: Square, b: Square|
            part.contains(a) && cells.contains(b) && !part.contains(b) && neighbours(a, b) by {
        if forall|x: Square| cells.contains(x) ==> part.contains(x) {
            assert(part =~= cells);
        }
        let out = choose|x: Square| cells.contains(x) && !part.contains(x);
        let t = choose|t: int| 0 <= t < order.len() && order[t] == out;
        if forall|x: Square| !part.contains(x) {
            assert(part =~= Set::<Square>::empty());
        }
        let inside = choose|x: Square| part.contains(x);
        let u = choose|u: int| 0 <= u < order.len() && order[u] == inside;
        let w = if holds(part, order[0]) { t } else { u };
        assert(holds(part, order[w]) != holds(part, order[0]));
        let k = lemma_first_change(order, part, w);
        assert(has_earlier_neighbour(order, k));
        let j = choose|j: int| 0 <= j < k && neighbours(order[j], order[k]);
        assert(holds(part, order[j]) == holds(part, order[0]));
        assert(cells.contains(order[j]) && cells.contains(order[k]));
        if holds(part, order[0]) {
            let (a, b) = (order[j], order[k]);
            assert(part.contains(a) && cells.contains(b) && !part.contains(b) && neighbours(a, b));
        } else {
            let (a, b) = (order[k], order[j]);
            assert(part.contains(a) && cells.contains(b) && !part.contains(b) && neighbours(a, b));
        }
    };
}

/// Relies on `collect` into a `String` (its `FromIterator<&char>`): the
/// characters in the order given.
#[verifier::external_body]
pub(crate) fn string_of_chars(chars: &Vec<char>) -> (r: String)
    ensures
        r@ == chars@,
{
    chars.iter().collect()
}

/// The empty region spells the empty word on any board, is connected, and
/// lies within any board.
pub proof fn lemma_empty_region(board: &Board)
    ensures
        word_of(board, Set::<Square>::empty()) == Seq::<char>::empty(),
        connected(Set::<Square>::empty()),
        within(board, Set::<Square>::empty()),
{
    let empty = Seq::<Square>::empty();
    assert(empty.to_set() =~= Set::<Square>::empty());
    let q = reading_order(Set::<Square>::empty());
    assert(empty.to_set() == Set::<Square>::empty() && in_reading_order(empty));
    lemma_reading_order_unique(q, empty);
    assert(q.map_values(|s: Square| board.cell(s)) =~= Seq::<char>::empty());
    assert forall|part: Set<Square>| #[trigger] part.subset_of(Set::<Square>::empty()) implies part.len() == 0 by {
        assert(part =~= Set::<Square>::empty());
    };
}

/// A region of one cell is connected.
pub proof fn lemma_single_cell_connected(s: Square)
    ensures
        connected(set![s]),
{
    assert forall|part: Set<Square>|
        #![trigger part.subset_of(set![s])]
        part.subset_of(set![s]) && part.len() > 0 implies part == set![s] by {
        if !part.contains(s) {
            assert(part =~= Set::<Square>::empty());
        }
        assert(part =~= set![s]);
    };
}

/// Whether some cell of `among` neighbours `cell`.
pub open spec fn neighbours_any(among: &Vec<Square>, cell: Square) -> bool {
    exists|j: int| 0 <= j < among@.len() && neighbours(among@[j], cell)
}

fn any_neighbour(cell: Square, among: &Vec<Square>) -> (r: bool)
    ensures
        r == neighbours_any(among, cell),
{
    let mut j: usize = 0;
    while j < among.len()
        invariant
            forall|k: int| 0 <= k < j ==> !neighbours(#[trigger] among@[k], cell),
        decreases among.len() - j,
    {
        if cell.is_neighbour_of(among[j]) {
            return true;
        }
        j = j + 1;
    }
    false
}

/// A set of distinct cells of a board.
pub struct Region(Vec<Square>);

impl Clone for Region {
    fn clone(&self) -> (r: Region)
        ensures
            r@ == self@,
    {
        proof {
            use_type_invariant(self);
        }
        Region(self.0.clone())
    }
}

impl View for Region {
    type V = Set<Square>;

    closed spec fn view(&self) -> Set<Square> {
        self.0@.to_set()
    }
}

impl PartialEq for Region {
    /// Two regions are equal when they hold the same cells.
    fn eq(&self, other: &Region) -> (r: bool) {
        proof {
            use_type_invariant(self);
        }
        if self.size() != other.size() {
            return false;
        }
        let mut i: usize = 0;
        while i < self.0.len()
            invariant
                self@.len() == other@.len(),
                forall|j: int| 0 <= j < i ==> other@.contains(#[trigger] self.0@[j]),
            decreases self.0.len() - i,
        {
            if !other.contains_square(self.0[i]) {
                assert(self@.contains(self.0@[i as int]));
                return false;
            }
            i = i + 1;
        }
        proof {
            assert(self@.subset_of(other@));
            vstd::set_lib::lemma_subset_equality(self@, other@);
        }
        true
    }
}

impl vstd::std_specs::cmp::PartialEqSpecImpl for Region {
    open spec fn obeys_eq_spec() -> bool {
        true
    }

    open spec fn eq_spec(&self, other: &Region) -> bool {
        self@ == other@
    }
}

impl Region {
    #[verifier::type_invariant]
    spec fn inv(&self) -> bool {
        self.0@.no_duplicates()
    }

    /// An empty region.
    pub fn new() -> (r: Region)
        ensures
            r@ == Set::<Square>::empty(),
    {
        let r = Region(Vec::new());
        assert(r@ =~= Set::<Square>::empty());
        r
    }

    /// Adds `square`; tells whether it was not there before.
    pub fn add_square(&mut self, square: Square) -> (r: bool)
        ensures
            r == !old(self)@.contains(square),
            final(self)@ == old(self)@.insert(square),
    {
        if self.contains_square(square) {
            return false;
        }
        let mut cells = self.take_cells();
        let ghost before = cells@;
        cells.push(square);
        assert(cells@.to_set() =~= before.to_set().insert(square));
        *self = Region(cells);
        true
    }

    /// Removes `square`; tells whether it was there.
    pub fn remove_square(&mut self, square: Square) -> (r: bool)
        ensures
            r == old(self)@.contains(square),
            final(self)@ == old(self)@.remove(square),
    {
        let mut cells = self.take_cells();
        let ghost before = cells@;
        let mut i: usize = 0;
        while i < cells.len()
            invariant
                cells@ == before,
                before.no_duplicates(),
                before.to_set() == old(self)@,
                self@ == Set::<Square>::empty(),
                forall|j: int| 0 <= j < i ==> before[j] != square,
            decreases cells.len() - i,
        {
            if cells[i] == square {
                assert(before.to_set().contains(square));
                cells.remove(i);
                assert forall|x: Square| #[trigger] cells@.contains(x) <==> before.to_set().remove(square).contains(x) by {
                    if cells@.contains(x) {
                        let k = choose|k: int| 0 <= k < cells@.len() && cells@[k] == x;
                        if k < i {
                            assert(before[k] == x);
                        } else {
                            assert(before[k + 1] == x);
                        }
                    }
                    if before.to_set().remove(square).contains(x) {
                        let k = choose|k: int| 0 <= k < before.len() && before[k] == x;
                        if k < i {
                            assert(cells@[k] == x);
                        } else {
                            assert(k != i);
                            assert(cells@[k - 1] == x);
                        }
                    }
                };
                assert(cells@.to_set() =~= before.to_set().remove(square));
                *self = Region(cells);
                return true;
            }
            i = i + 1;
        }
        assert(before.to_set().remove(square) =~= before.to_set());
        *self = Region(cells);
        false
    }

    /// Leaves the region empty and hands back its cells.
    fn take_cells(&mut self) -> (r: Vec<Square>)
        ensures
            r@.to_set() == old(self)@,
            r@.no_duplicates(),
            final(self)@ == Set::<Square>::empty(),
    {
        let mut taken = Region::new();
        core::mem::swap(self, &mut taken);
        proof {
            use_type_invariant(&taken);
        }
        let Region(cells) = taken;
        cells
    }

    /// Whether `square` belongs to the region.
    pub fn contains_square(&self, square: Square) -> (r: bool)
        ensures
            r == self@.contains(square),
    {
        let mut i: usize = 0;
        while i < self.0.len()
            invariant
                forall|j: int| 0 <= j < i ==> self.0@[j] != square,
            decreases self.0.len() - i,
        {
            if self.0[i] == square {
                return true;
            }
            i = i + 1;
        }
        false
    }

    /// The cells of the region, each once, in no particular order.
    pub fn squares(&self) -> (r: Vec<Square>)
        ensures
            r@.to_set() == self@,
            r@.no_duplicates(),
    {
        proof {
            use_type_invariant(self);
        }
        self.0.clone()
    }

    /// The number of cells.
    pub fn size(&self) -> (r: usize)
        ensures
            r == self@.len(),
    {
        proof {
            use_type_invariant(self);
            self.0@.unique_seq_to_set();
        }
        self.0.len()
    }

    /// The cells in reading order.
    fn reading_sorted(&self) -> (r: Vec<Square>)
        ensures
            r@.to_set() == self@,
            in_reading_order(r@),
    {
        proof {
            use_type_invariant(self);
        }
        let mut sorted: Vec<Square> = Vec::new();
        let mut i: usize = 0;
        while i < self.0.len()
            invariant
                self.0@.no_duplicates(),
                i <= self.0@.len(),
                in_reading_order(sorted@),
                sorted@.to_set() == self.0@.subrange(0, i as int).to_set(),
            decreases self.0.len() - i,
        {
            let s = self.0[i];
            let mut j: usize = 0;
            while j < sorted.len() && (sorted[j].y < s.y || (sorted[j].y == s.y && sorted[j].x < s.x))
                invariant
                    j <= sorted@.len(),
                    forall|k: int| 0 <= k < j ==> reads_before(#[trigger] sorted@[k], s),
                decreases sorted.len() - j,
            {
                j = j + 1;
            }
            assert(!sorted@.contains(s)) by {
                if sorted@.contains(s) {
                    assert(sorted@.to_set().contains(s));
                    let k = choose|k: int| 0 <= k < i && self.0@.subrange(0, i as int)[k] == s;
                    assert(self.0@[k] == self.0@[i as int]);
                }
            };
            let ghost old_sorted = sorted@;
            if j < sorted.len() {
                assert(sorted@[j as int] != s);
                assert(reads_before(s, sorted@[j as int]));
            }
            sorted.insert(j, s);
            assert forall|a: int, b: int| 0 <= a < b < sorted@.len() implies reads_before(sorted@[a], sorted@[b]) by {
                if b < j {
                    assert(sorted@[a] == old_sorted[a] && sorted@[b] == old_sorted[b]);
                } else if b == j {
                    assert(sorted@[a] == old_sorted[a]);
                } else if a < j {
                    assert(sorted@[a] == old_sorted[a] && sorted@[b] == old_sorted[b - 1]);
                    assert(reads_before(s, old_sorted[j as int]));
                } else if a == j {
                    assert(sorted@[b] == old_sorted[b - 1]);
                    if b - 1 > j {
                        assert(reads_before(old_sorted[j as int], old_sorted[b - 1]));
                    }
                } else {
                    assert(sorted@[a] == old_sorted[a - 1] && sorted@[b] == old_sorted[b - 1]);
                }
            };
            let ghost pre_old = self.0@.subrange(0, i as int);
            let ghost pre_new = self.0@.subrange(0, i + 1);
            assert(sorted@.to_set() =~= pre_new.to_set()) by {
                assert forall|x: Square| sorted@.contains(x) implies pre_new.contains(x) by {
                    let k = choose|k: int| 0 <= k < sorted@.len() && sorted@[k] == x;
                    if k < j {
                        assert(old_sorted[k] == x);
                    } else if k > j {
                        assert(old_sorted[k - 1] == x);
                    }
                    if x != s {
                        assert(old_sorted.contains(x));
                        assert(old_sorted.to_set().contains(x));
                        let m = choose|m: int| 0 <= m < i && pre_old[m] == x;
                        assert(pre_new[m] == x);
                    } else {
                        assert(pre_new[i as int] == x);
                    }
                };
                assert forall|x: Square| pre_new.contains(x) implies sorted@.contains(x) by {
                    let m = choose|m: int| 0 <= m < i + 1 && pre_new[m] == x;
                    if m < i {
                        assert(pre_old[m] == x);
                        assert(old_sorted.to_set().contains(x));
                        let k = choose|k: int| 0 <= k < old_sorted.len() && old_sorted[k] == x;
                        if k < j {
                            assert(sorted@[k] == x);
                        } else {
                            assert(sorted@[k + 1] == x);
                        }
                    } else {
                        assert(sorted@[j as int] == x);
                    }
                };
            };
            i = i + 1;
        }
        assert(self.0@.subrange(0, self.0@.len() as int) =~= self.0@);
        sorted
    }

    /// The word that the region spells on `board`: its characters read top to
    /// bottom, then left to right. Every cell must lie on the board.
    pub fn word(&self, board: &Board) -> (r: String)
        requires
            within(board, self@),
        ensures
            r@ == word_of(board, self@),
    {
        let sorted = self.reading_sorted();
        proof {
            let q = reading_order(self@);
            assert(q.to_set() == self@ && in_reading_order(q));
            lemma_reading_order_unique(sorted@, q);
        }
        let mut chars: Vec<char> = Vec::new();
        let mut k: usize = 0;
        while k < sorted.len()
            invariant
                k <= sorted@.len(),
                within(board, self@),
                sorted@.to_set() == self@,
                chars@ == sorted@.subrange(0, k as int).map_values(|s: Square| board.cell(s)),
            decreases sorted.len() - k,
        {
            assert(self@.contains(sorted@[k as int]));
            chars.push(board.get(sorted[k]));
            assert(chars@ =~= sorted@.subrange(0, k + 1).map_values(|s: Square| board.cell(s)));
            k = k + 1;
        }
        assert(sorted@.subrange(0, sorted@.len() as int) =~= sorted@);
        string_of_chars(&chars)
    }

    /// Whether the region is connected under neighbour adjacency. Starting from
    /// one cell, neighbouring cells are drawn in until none is left or none of
    /// the rest neighbours what was drawn in.
    pub fn is_contiguous(&self) -> (r: bool)
        ensures
            r == connected(self@),
    {
        proof {
            use_type_invariant(self);
        }
        if self.0.len() == 0 {
            assert forall|part: Set<Square>| #[trigger] part.subset_of(self@) implies part.len() == 0 by {
                assert(part =~= Set::<Square>::empty());
            };
            return true;
        }
        let mut remaining = self.0.clone();
        let start = remaining.pop().unwrap();
        let mut so_far: Vec<Square> = Vec::new();
        so_far.push(start);
        assert(so_far@.to_set() + remaining@.to_set() =~= self@) by {
            assert(self.0@ =~= remaining@.push(start));
        };
        while remaining.len() > 0
            invariant
                so_far@.len() > 0,
                grows_by_neighbours(so_far@),
                remaining@.no_duplicates(),
                forall|x: Square| remaining@.contains(x) ==> !so_far@.contains(x),
                so_far@.to_set() + remaining@.to_set() == self@,
            decreases remaining.len(),
        {
            let mut i: usize = 0;
            let mut found = false;
            while i < remaining.len() && !found
                invariant
                    i <= remaining@.len(),
                    found ==> i > 0 && neighbours_any(&so_far, remaining@[i - 1]),
                    !found ==> forall|ii: int| 0 <= ii < i ==> !neighbours_any(&so_far, #[trigger] remaining@[ii]),
                decreases remaining.len() - i,
            {
                found = any_neighbour(remaining[i], &so_far);
                i = i + 1;
            }
            if !found {
                proof {
                    let part = so_far@.to_set();
                    assert(part.contains(so_far@[0]));
                    assert(part.remove(so_far@[0]).len() + 1 == part.len());
                    assert(self@.contains(remaining@[0]));
                    assert(!part.contains(remaining@[0]));
                    assert(part.subset_of(self@));
                    assert(part != self@);
                    assert forall|a: Square, b: Square|
                        part.contains(a) && self@.contains(b) && !part.contains(b) implies !neighbours(a, b) by {
                        assert(remaining@.to_set().contains(b));
                        let ii = choose|ii: int| 0 <= ii < remaining@.len() && remaining@[ii] == b;
                        assert(!neighbours_any(&so_far, remaining@[ii]));
                        let jj = choose|jj: int| 0 <= jj < so_far@.len() && so_far@[jj] == a;
                        assert(!neighbours(so_far@[jj], b));
                    };
                }
                return false;
            }
            let ghost old_rem = remaining@;
            let ghost old_sf = so_far@;
            let c = remaining.remove(i - 1);
            so_far.push(c);
            proof {
                assert forall|k: int| 0 < k < so_far@.len() implies #[trigger] has_earlier_neighbour(so_far@, k) by {
                    if k < old_sf.len() {
                        assert(so_far@[k] == old_sf[k]);
                        assert(has_earlier_neighbour(old_sf, k));
                        let j = choose|j: int| 0 <= j < k && neighbours(old_sf[j], old_sf[k]);
                        assert(so_far@[j] == old_sf[j]);
                    } else {
                        let j = choose|j: int| 0 <= j < old_sf.len() && neighbours(old_sf[j], c);
                        assert(so_far@[j] == old_sf[j]);
                    }
                };
                assert forall|a: int, b: int| 0 <= a < b < remaining@.len() implies remaining@[a] != remaining@[b] by {
                    let oa = if a < i - 1 { a } else { a + 1 };
                    let ob = if b < i - 1 { b } else { b + 1 };
                    assert(remaining@[a] == old_rem[oa] && remaining@[b] == old_rem[ob]);
                };
                assert forall|x: Square| remaining@.contains(x) implies !so_far@.contains(x) by {
                    let a = choose|a: int| 0 <= a < remaining@.len() && remaining@[a] == x;
                    let oa = if a < i - 1 { a } else { a + 1 };
                    assert(old_rem[oa] == x);
                    assert(old_rem.contains(x));
                    assert(x != c);
                    if so_far@.contains(x) {
                        let b = choose|b: int| 0 <= b < so_far@.len() && so_far@[b] == x;
                        assert(old_sf[b] == x);
                    }
                };
                assert forall|x: Square| #[trigger] self@.contains(x) <==> (so_far@.contains(x) || remaining@.contains(x)) by {
                    if old_sf.contains(x) {
                        let b = choose|b: int| 0 <= b < old_sf.len() && old_sf[b] == x;
                        assert(so_far@[b] == x);
                    }
                    if old_rem.contains(x) && x != c {
                        let a = choose|a: int| 0 <= a < old_rem.len() && old_rem[a] == x;
                        if a < i - 1 {
                            assert(remaining@[a] == x);
                        } else {
                            assert(remaining@[a - 1] == x);
                        }
                    }
                    if remaining@.contains(x) {
                        let a = choose|a: int| 0 <= a < remaining@.len() && remaining@[a] == x;
                        let oa = if a < i - 1 { a } else { a + 1 };
                        assert(old_rem[oa] == x);
                    }
                    if so_far@.contains(x) && x != c {
                        let b = choose|b: int| 0 <= b < so_far@.len() && so_far@[b] == x;
                        assert(old_sf[b] == x);
                    }
                    assert(old_sf.to_set().contains(x) == old_sf.contains(x));
                    assert(old_rem.to_set().contains(x) == old_rem.contains(x));
                };
                assert(so_far@.to_set() + remaining@.to_set() =~= self@);
            }
        }
        proof {
            lemma_grown_is_connected(so_far@);
            assert(so_far@.to_set() =~= self@);
        }
        true
    }

    /// Whether every cell lies on `board`.
    pub fn is_in_bounds(&self, board: &Board) -> (r: bool)
        ensures
            r == within(board, self@),
    {
        let mut i: usize = 0;
        while i < self.0.len()
            invariant
                forall|j: int| 0 <= j < i ==> board.contains(#[trigger] self.0@[j]),
            decreases self.0.len() - i,
        {
            let s = self.0[i];
            if s.x >= board.width() || s.y >= board.height() {
                assert(self@.contains(s));
                return false;
            }
            i = i + 1;
        }
        true
    }
}

} // verus!
