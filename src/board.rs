use vstd::prelude::*;

use crate::square::Square;

verus! {

/// An immutable rectangular grid of characters, stored row by row.
pub struct Board {
    width: usize,
    height: usize,
    board: Vec<char>,
}

impl Board {
    #[verifier::type_invariant]
    spec fn inv(&self) -> bool {
        self.board@.len() == self.width * self.height
    }

    /// The number of columns.
    pub closed spec fn spec_width(&self) -> usize {
        self.width
    }

    /// The number of rows.
    pub closed spec fn spec_height(&self) -> usize {
        self.height
    }

    /// The characters, row by row.
    pub closed spec fn cells(&self) -> Seq<char> {
        self.board@
    }

    /// The character at `s`, which is found at `y * width + x`.
    pub open spec fn cell(&self, s: Square) -> char {
        self.cells()[s.y * self.spec_width() + s.x]
    }

    /// Whether `s` lies on the board.
    pub open spec fn contains(&self, s: Square) -> bool {
        s.x < self.spec_width() && s.y < self.spec_height()
    }

    /// Builds a board of the given width from its characters read row by row.
    /// The number of characters must be a multiple of `width`.
    pub fn new(width: usize, board: &str) -> (r: Board)
        requires
            width > 0,
            board@.len() % (width as nat) == 0,
        ensures
            r.cells() == board@,
            r.spec_width() == width,
            r.spec_height() * width == board@.len() as int,
    {
        let n = board.unicode_len();
        let height = n / width;
        let mut cells: Vec<char> = Vec::new();
        let mut i: usize = 0;
        while i < n
            invariant
                n == board@.len(),
                i <= n,
                cells@ == board@.subrange(0, i as int),
            decreases n - i,
        {
            cells.push(board.get_char(i));
            i = i + 1;
        }
        proof {
            assert(cells@ =~= board@);
            vstd::arithmetic::div_mod::lemma_fundamental_div_mod(n as int, width as int);
            assert(height * width == n) by (nonlinear_arith)
                requires
                    n == width * (n / width) + n % width,
                    n % width == 0,
                    height == n / width;
        }
        Board { width, height, board: cells }
    }

    #[verifier::when_used_as_spec(spec_width)]
    pub fn width(&self) -> (r: usize)
        ensures
            r == self.spec_width(),
    {
        self.width
    }

    #[verifier::when_used_as_spec(spec_height)]
    pub fn height(&self) -> (r: usize)
        ensures
            r == self.spec_height(),
    {
        self.height
    }

    /// The character at `s`, which must lie on the board.
    pub fn get(&self, s: Square) -> (r: char)
        requires
            self.contains(s),
        ensures
            r == self.cell(s),
    {
        let n = self.board.len();
        proof {
            use_type_invariant(self);
            assert(s.y * self.width + s.x < self.width * self.height) by (nonlinear_arith)
                requires
                    s.x < self.width,
                    s.y < self.height,
            ;
        }
        self.board[s.y * self.width + s.x]
    }
}

} // verus!
