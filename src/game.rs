use vstd::prelude::*;

use crate::board::Board;
use crate::region::{connected, within, word_of, Region};
use crate::ruleset::Ruleset;
use crate::square::Square;

verus! {

/// Why a candidate region cannot be committed, in the order the checks run.
#[derive(Debug, Clone, Copy, PartialEq, Eq, Structural)]
pub enum CheckRegionError {
    TooShort,
    TooLong,
    OutOfBounds,
    Overlapping,
    NotContiguous,
    NotInDictionary,
}

/// Proof that a region passed every check of a game; it borrows the region,
/// which therefore cannot change before it is committed.
pub struct CheckedRegion<'a>(&'a Region);

impl<'a> View for CheckedRegion<'a> {
    type V = Set<Square>;

    closed spec fn view(&self) -> Set<Square> {
        self.0@
    }
}

/// Whether some region of `committed` holds `s`.
pub open spec fn covered<D>(committed: Seq<(Set<Square>, D)>, s: Square) -> bool {
    exists|i: int| 0 <= i < committed.len() && #[trigger] committed[i].0.contains(s)
}

/// The outcome of checking `cells` against a board, a ruleset and the regions
/// committed so far; the first failing check decides.
pub open spec fn verdict<D>(
    board: &Board,
    rules: &Ruleset,
    committed: Seq<(Set<Square>, D)>,
    cells: Set<Square>,
) -> Result<(), CheckRegionError> {
    if cells.len() < rules.min_length {
        Err(CheckRegionError::TooShort)
    } else if cells.len() > rules.max_length {
        Err(CheckRegionError::TooLong)
    } else if !within(board, cells) {
        Err(CheckRegionError::OutOfBounds)
    } else if exists|s: Square| cells.contains(s) && covered(committed, s) {
        Err(CheckRegionError::Overlapping)
    } else if !connected(cells) {
        Err(CheckRegionError::NotContiguous)
    } else if !rules.words().contains(word_of(board, cells)) {
        Err(CheckRegionError::NotInDictionary)
    } else {
        Ok(())
    }
}

/// The size checks come first: a region that is too short is reported as
/// such, even when its word is not in the dictionary either.
pub proof fn lemma_too_short_reported_first<D>(
    board: &Board,
    rules: &Ruleset,
    committed: Seq<(Set<Square>, D)>,
    cells: Set<Square>,
)
    requires
        cells.len() < rules.min_length,
        !rules.words().contains(word_of(board, cells)),
    ensures
        verdict(board, rules, committed, cells) == Err::<(), CheckRegionError>(
            CheckRegionError::TooShort,
        ),
{
}

/// Once a region is committed, its cells are taken: a candidate that shares a
/// cell with it, and passes the size and bounds checks, is reported as
/// overlapping, and the shared cell is not free.
pub proof fn lemma_committed_cells_are_taken<D>(
    before: Game<D>,
    after: Game<D>,
    cells: Set<Square>,
    label: D,
    candidate: Set<Square>,
    s: Square,
)
    requires
        after.spec_board() == before.spec_board(),
        after.rules() == before.rules(),
        after.committed() == before.committed().push((cells, label)),
        cells.contains(s),
        candidate.contains(s),
        after.rules().min_length <= candidate.len() <= after.rules().max_length,
        within(after.spec_board(), candidate),
    ensures
        verdict(after.spec_board(), after.rules(), after.committed(), candidate) == Err::<
            (),
            CheckRegionError,
        >(CheckRegionError::Overlapping),
        after.occupied(s),
{
    let n = before.committed().len() as int;
    assert(after.committed()[n].0.contains(s));
    assert(covered(after.committed(), s));
}

/// Whether the committed regions lie on the board and share no cell.
pub open spec fn disjoint_on_board<D>(board: &Board, committed: Seq<(Set<Square>, D)>) -> bool {
    &&& forall|i: int, s: Square|
        0 <= i < committed.len() && #[trigger] committed[i].0.contains(s) ==> board.contains(s)
    &&& forall|i: int, j: int, s: Square|
        0 <= i < committed.len() && 0 <= j < committed.len() && #[trigger] committed[i].0.contains(s)
            && #[trigger] committed[j].0.contains(s) ==> i == j
}

/// Whether every cell of the board lies in exactly one committed region, and
/// no committed region leaves the board.
pub open spec fn partitions<D>(board: &Board, committed: Seq<(Set<Square>, D)>) -> bool {
    &&& forall|i: int, s: Square|
        0 <= i < committed.len() && #[trigger] committed[i].0.contains(s) ==> board.contains(s)
    &&& forall|s: Square|
        #![trigger board.contains(s)]
        board.contains(s) ==> exists|i: int|
            0 <= i < committed.len() && #[trigger] committed[i].0.contains(s) && forall|j: int|
                0 <= j < committed.len() && #[trigger] committed[j].0.contains(s) ==> j == i
}

/// The cells and label of each entry.
pub open spec fn views_of<D>(entries: Seq<(Region, D)>) -> Seq<(Set<Square>, D)> {
    entries.map_values(|p: (Region, D)| (p.0@, p.1))
}

/// A puzzle in play: a board, its rules, and the regions committed so far,
/// each with a label of the caller's choosing.
pub struct Game<'a, D> {
    board: &'a Board,
    ruleset: &'a Ruleset,
    regions: Vec<(Region, D)>,
}

impl<'a, D> Game<'a, D> {
    #[verifier::type_invariant]
    spec fn inv(&self) -> bool {
        disjoint_on_board(self.board, self.committed())
    }

    /// The committed regions with their labels, in their current order.
    pub closed spec fn committed(&self) -> Seq<(Set<Square>, D)> {
        views_of(self.regions@)
    }

    /// The board being played.
    pub closed spec fn spec_board(&self) -> &'a Board {
        self.board
    }

    /// The rules in force.
    pub closed spec fn rules(&self) -> &'a Ruleset {
        self.ruleset
    }

    /// Whether a committed region holds `s`.
    pub open spec fn occupied(&self, s: Square) -> bool {
        covered(self.committed(), s)
    }

    /// A game on `board` under `ruleset` with nothing committed.
    pub fn new(board: &'a Board, ruleset: &'a Ruleset) -> (r: Self)
        ensures
            r.spec_board() == board,
            r.rules() == ruleset,
            r.committed() == Seq::<(Set<Square>, D)>::empty(),
    {
        let r = Game { board, ruleset, regions: Vec::new() };
        assert(r.committed() =~= Seq::<(Set<Square>, D)>::empty());
        r
    }

    /// Leaves the game with nothing committed and hands back its entries.
    fn take_regions(&mut self) -> (r: Vec<(Region, D)>)
        ensures
            views_of(r@) == old(self).committed(),
            disjoint_on_board(old(self).board, views_of(r@)),
            final(self).board == old(self).board,
            final(self).ruleset == old(self).ruleset,
    {
        let mut taken = Game { board: self.board, ruleset: self.ruleset, regions: Vec::new() };
        proof {
            assert(views_of(taken.regions@) =~= Seq::<(Set<Square>, D)>::empty());
        }
        core::mem::swap(self, &mut taken);
        proof {
            use_type_invariant(&taken);
        }
        let Game { regions, .. } = taken;
        regions
    }

    /// Whether a committed region holds `square`.
    fn is_occupied(&self, square: Square) -> (r: bool)
        ensures
            r == self.occupied(square),
    {
        let mut i: usize = 0;
        while i < self.regions.len()
            invariant
                forall|k: int| 0 <= k < i ==> !(#[trigger] self.committed()[k]).0.contains(square),
            decreases self.regions.len() - i,
        {
            if self.regions[i].0.contains_square(square) {
                assert(self.committed()[i as int].0.contains(square));
                return true;
            }
            i = i + 1;
        }
        false
    }

    /// Whether a committed region shares a cell with `region`.
    fn overlaps(&self, region: &Region) -> (r: bool)
        ensures
            r == exists|s: Square| region@.contains(s) && self.occupied(s),
    {
        let mut i: usize = 0;
        while i < self.regions.len()
            invariant
                forall|k: int, s: Square|
                    0 <= k < i && #[trigger] self.committed()[k].0.contains(s) ==> !region@.contains(s),
            decreases self.regions.len() - i,
        {
            let cells = self.regions[i].0.squares();
            let mut j: usize = 0;
            while j < cells.len()
                invariant
                    i < self.regions@.len(),
                    cells@.to_set() == self.committed()[i as int].0,
                    forall|m: int| 0 <= m < j ==> !region@.contains(#[trigger] cells@[m]),
                decreases cells.len() - j,
            {
                if region.contains_square(cells[j]) {
                    proof {
                        let s = cells@[j as int];
                        assert(cells@.to_set().contains(s));
                        assert(self.committed()[i as int].0.contains(s));
                        assert(covered(self.committed(), s));
                    }
                    return true;
                }
                j = j + 1;
            }
            proof {
                assert forall|s: Square| #[trigger] self.committed()[i as int].0.contains(s) implies !region@.contains(s) by {
                    assert(cells@.to_set().contains(s));
                };
            }
            i = i + 1;
        }
        false
    }

    /// Runs the checks on `region` in order: size against the minimum, then
    /// the maximum, bounds, overlap with committed regions, contiguity, and
    /// the dictionary. The first that fails is returned.
    pub fn check_region<'b>(&self, region: &'b Region) -> (r: Result<CheckedRegion<'b>, CheckRegionError>)
        ensures
            match r {
                Ok(checked) => checked@ == region@ && verdict(
                    self.spec_board(),
                    self.rules(),
                    self.committed(),
                    region@,
                ) == Ok::<(), CheckRegionError>(()),
                Err(e) => verdict(self.spec_board(), self.rules(), self.committed(), region@) == Err::<
                    (),
                    CheckRegionError,
                >(e),
            },
    {
        let size = region.size();
        if size < self.ruleset.min_length {
            return Err(CheckRegionError::TooShort);
        }
        if size > self.ruleset.max_length {
            return Err(CheckRegionError::TooLong);
        }
        if !region.is_in_bounds(self.board) {
            return Err(CheckRegionError::OutOfBounds);
        }
        if self.overlaps(region) {
            return Err(CheckRegionError::Overlapping);
        }
        if !region.is_contiguous() {
            return Err(CheckRegionError::NotContiguous);
        }
        let word = region.word(self.board);
        if !self.ruleset.has_word(&word) {
            return Err(CheckRegionError::NotInDictionary);
        }
        Ok(CheckedRegion(region))
    }

    /// Commits a copy of the checked region with `data` as its label. The
    /// region must still pass every check against the game as it is now, as
    /// it does right after `check_region`.
    pub fn add_region(&mut self, region: CheckedRegion, data: D)
        requires
            verdict(old(self).spec_board(), old(self).rules(), old(self).committed(), region@)
                == Ok::<(), CheckRegionError>(()),
        ensures
            final(self).spec_board() == old(self).spec_board(),
            final(self).rules() == old(self).rules(),
            final(self).committed() == old(self).committed().push((region@, data)),
    {
        let copy = region.0.clone();
        let ghost before = self.committed();
        let mut regions = self.take_regions();
        let ghost entry = (copy@, data);
        regions.push((copy, data));
        proof {
            assert(views_of(regions@) =~= before.push(entry));
            let after = views_of(regions@);
            let n = before.len() as int;
            assert forall|i: int, j: int, s: Square|
                0 <= i < after.len() && 0 <= j < after.len() && #[trigger] after[i].0.contains(s)
                    && #[trigger] after[j].0.contains(s) implies i == j by {
                if i == n && j < n {
                    assert(before[j].0.contains(s));
                    assert(covered(before, s));
                } else if j == n && i < n {
                    assert(before[i].0.contains(s));
                    assert(covered(before, s));
                } else if i < n && j < n {
                    assert(before[i].0.contains(s) && before[j].0.contains(s));
                }
            };
            assert forall|i: int, s: Square|
                0 <= i < after.len() && #[trigger] after[i].0.contains(s) implies self.board.contains(s) by {
                if i < n {
                    assert(before[i].0.contains(s));
                }
            };
        }
        *self = Game { board: self.board, ruleset: self.ruleset, regions };
    }

    /// Removes and returns the committed region that holds `square`, with its
    /// label; the last entry takes its place. Nothing changes when no
    /// committed region holds `square`.
    pub fn remove_region(&mut self, square: Square) -> (r: Option<(Region, D)>)
        ensures
            final(self).spec_board() == old(self).spec_board(),
            final(self).rules() == old(self).rules(),
            r is None ==> !old(self).occupied(square) && final(self).committed() == old(self).committed(),
            r matches Some(entry) ==> exists|i: int|
                0 <= i < old(self).committed().len() && #[trigger] old(self).committed()[i].0.contains(square)
                    && (entry.0@, entry.1) == old(self).committed()[i] && final(self).committed()
                    == old(self).committed().update(i, old(self).committed().last()).drop_last(),
    {
        let mut i: usize = 0;
        while i < self.regions.len()
            invariant
                self.board == old(self).board,
                self.ruleset == old(self).ruleset,
                self.regions@ == old(self).regions@,
                forall|k: int| 0 <= k < i ==> !(#[trigger] self.committed()[k]).0.contains(square),
            decreases self.regions.len() - i,
        {
            if self.regions[i].0.contains_square(square) {
                let ghost before = self.committed();
                let mut regions = self.take_regions();
                assert(views_of(regions@).len() == regions@.len());
                let ghost old_regions = regions@;
                let entry = regions.swap_remove(i);
                proof {
                    assert(old_regions[i as int] == entry);
                    assert(before[i as int] == (entry.0@, entry.1));
                    assert(before[i as int].0.contains(square));
                    assert(before == old(self).committed());
                    assert(views_of(regions@) =~= before.update(i as int, before.last()).drop_last());
                    let after = views_of(regions@);
                    let n = before.len() - 1;
                    assert forall|a: int| 0 <= a < after.len() implies #[trigger] after[a] == before[if a == i {
                        n
                    } else {
                        a
                    }] by {};
                    assert forall|a: int, b: int, s: Square|
                        0 <= a < after.len() && 0 <= b < after.len() && #[trigger] after[a].0.contains(s)
                            && #[trigger] after[b].0.contains(s) implies a == b by {
                        let oa = if a == i { n } else { a };
                        let ob = if b == i { n } else { b };
                        assert(before[oa].0.contains(s) && before[ob].0.contains(s));
                    };
                    assert forall|a: int, s: Square|
                        0 <= a < after.len() && #[trigger] after[a].0.contains(s) implies self.board.contains(s) by {
                        let oa = if a == i { n } else { a };
                        assert(before[oa].0.contains(s));
                    };
                }
                *self = Game { board: self.board, ruleset: self.ruleset, regions };
                assert(self.committed() == before.update(i as int, before.last()).drop_last());
                return Some(entry);
            }
            i = i + 1;
        }
        assert(self.committed() == old(self).committed());
        assert(!old(self).occupied(square)) by {
            assert forall|k: int| 0 <= k < old(self).committed().len() implies !(#[trigger] old(
                self,
            ).committed()[k]).0.contains(square) by {
                assert(!self.committed()[k].0.contains(square));
            };
        };
        None
    }

    /// The committed regions with their labels.
    pub fn regions(&self) -> (r: &[(Region, D)])
        ensures
            views_of(r@) == self.committed(),
    {
        self.regions.as_slice()
    }

    /// Whether no committed region holds `square`.
    pub fn is_square_free(&self, square: Square) -> (r: bool)
        ensures
            r == !self.occupied(square),
    {
        !self.is_occupied(square)
    }

    /// Whether every cell of the board is held by a committed region; when it
    /// is, the committed regions partition the board.
    pub fn is_complete(&self) -> (r: bool)
        ensures
            r == forall|s: Square| self.spec_board().contains(s) ==> #[trigger] self.occupied(s),
            r ==> partitions(self.spec_board(), self.committed()),
    {
        proof {
            use_type_invariant(self);
        }
        let width = self.board.width();
        let height = self.board.height();
        let mut y: usize = 0;
        while y < height
            invariant
                width == self.board.spec_width(),
                height == self.board.spec_height(),
                y <= height,
                forall|s: Square| self.board.contains(s) && s.y < y ==> #[trigger] self.occupied(s),
            decreases height - y,
        {
            let mut x: usize = 0;
            while x < width
                invariant
                    width == self.board.spec_width(),
                    height == self.board.spec_height(),
                    y < height,
                    x <= width,
                    forall|s: Square|
                        self.board.contains(s) && (s.y < y || (s.y == y && s.x < x)) ==> #[trigger] self.occupied(s),
                decreases width - x,
            {
                let s = Square { x, y };
                if !self.is_occupied(s) {
                    return false;
                }
                x = x + 1;
            }
            y = y + 1;
        }
        proof {
            let c = self.committed();
            assert forall|s: Square| #[trigger] self.board.contains(s) implies exists|i: int|
                0 <= i < c.len() && #[trigger] c[i].0.contains(s) && forall|j: int|
                    0 <= j < c.len() && (#[trigger] c[j]).0.contains(s) ==> j == i by {
                assert(self.occupied(s));
                let i = choose|i: int| 0 <= i < c.len() && (#[trigger] c[i]).0.contains(s);
                assert forall|j: int| 0 <= j < c.len() && (#[trigger] c[j]).0.contains(s) implies j == i by {
                    assert(c[i].0.contains(s) && c[j].0.contains(s));
                };
            };
        }
        true
    }

    /// The board being played.
    pub fn board(&self) -> (r: &Board)
        ensures
            r == self.spec_board(),
    {
        self.board
    }
}

} // verus!
