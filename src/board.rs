//! A battleship board: a 20 x 20 grid of cells and the number of boats of
//! each length (1 to 4) still to be placed.
//!
//! Text form: the four counts on the first line, separated by spaces, then
//! one line per row, `B` for a boat cell and a space for water.
use vstd::prelude::*;

use crate::slug::string_from_chars;

verus! {

pub const BSIZE: usize = 20;

#[derive(Debug, PartialEq, Eq, Structural)]
pub enum Error {
    /// The boat touches or covers a cell that is already taken.
    Overlap,
    /// The boat does not lie wholly on the board.
    OutOfBounds,
    /// No boat of that length is left, or the length is not 1 to 4.
    BoatCount,
}

/// A boat with its length.
#[derive(Clone, Copy, Debug, PartialEq, Eq, Structural)]
pub enum Boat {
    Vertical(usize),
    Horizontal(usize),
}

pub open spec fn boat_len(b: Boat) -> int {
    match b {
        Boat::Vertical(l) => l as int,
        Boat::Horizontal(l) => l as int,
    }
}

/// Whether cell (`r`, `c`) belongs to `b` placed with its first cell at (`x`, `y`).
pub open spec fn on_boat(b: Boat, x: int, y: int, r: int, c: int) -> bool {
    match b {
        Boat::Vertical(l) => c == y && x <= r < x + l,
        Boat::Horizontal(l) => r == x && y <= c < y + l,
    }
}

/// Whether `b` at (`x`, `y`) lies wholly on the board.
pub open spec fn fits(b: Boat, x: int, y: int) -> bool {
    0 <= x && 0 <= y && match b {
        Boat::Vertical(l) => x + l <= BSIZE && y < BSIZE,
        Boat::Horizontal(l) => y + l <= BSIZE && x < BSIZE,
    }
}

/// Whether (`r2`, `c2`) is on or next to the first `l` cells of a boat at
/// (`x`, `y`), vertical or horizontal.
pub open spec fn near_segment(vertical: bool, x: int, y: int, l: int, r2: int, c2: int) -> bool {
    l >= 1 && if vertical {
        x - 1 <= r2 <= x + l && y - 1 <= c2 <= y + 1
    } else {
        x - 1 <= r2 <= x + 1 && y - 1 <= c2 <= y + l
    }
}

pub open spec fn near(r: int, c: int, r2: int, c2: int) -> bool {
    r - 1 <= r2 <= r + 1 && c - 1 <= c2 <= c + 1
}

pub open spec fn in_board(r: int, c: int) -> bool {
    0 <= r < BSIZE && 0 <= c < BSIZE
}

pub struct Board {
    boats: Vec<u8>,
    data: Vec<u8>,
}

impl Board {
    /// Boats left, by length minus one.
    pub closed spec fn boats_spec(&self) -> Seq<u8> {
        self.boats@
    }

    /// The cells, row after row.
    pub closed spec fn cells(&self) -> Seq<u8> {
        self.data@
    }

    /// The cell at row `r`, column `c`: 0 for water, 1 for a boat.
    pub closed spec fn cell(&self, r: int, c: int) -> u8 {
        self.data@[r * BSIZE + c]
    }

    pub closed spec fn wf(&self) -> bool {
        &&& self.boats@.len() == 4
        &&& self.data@.len() == BSIZE * BSIZE
        &&& forall|i: int| 0 <= i < self.data@.len() ==> #[trigger] self.data@[i] <= 1
    }

    /// Whether no cell of `b` at (`x`, `y`) nor any cell next to one is taken.
    pub open spec fn free_around(&self, b: Boat, x: int, y: int) -> bool {
        forall|r2: int, c2: int|
            near_segment(b is Vertical, x, y, boat_len(b), r2, c2) && in_board(r2, c2)
                ==> #[trigger] self.cell(r2, c2) == 0
    }

    /// An empty board with the given boat counts (missing counts are 0,
    /// extra ones are ignored).
    pub fn new(boats: &[u8]) -> (r: Board)
        ensures
            r.wf(),
            forall|i: int| 0 <= i < 4 ==> #[trigger] r.boats_spec()[i] == if i < boats@.len() {
                boats@[i]
            } else {
                0
            },
            forall|a: int, b: int| in_board(a, b) ==> #[trigger] r.cell(a, b) == 0,
    {
        let mut counts: Vec<u8> = Vec::new();
        let mut i: usize = 0;
        while i < 4
            invariant
                i <= 4,
                counts@.len() == i,
                forall|k: int| 0 <= k < i ==> #[trigger] counts@[k] == if k < boats@.len() {
                    boats@[k]
                } else {
                    0
                },
            decreases 4 - i,
        {
            if i < boats.len() {
                counts.push(boats[i]);
            } else {
                counts.push(0);
            }
            i = i + 1;
        }
        let data = zeros(BSIZE * BSIZE);
        let r = Board { boats: counts, data };
        proof {
            assert forall|a: int, b: int| in_board(a, b) implies #[trigger] r.cell(a, b) == 0 by {
                lemma_index_in_grid(a, b);
            }
        }
        r
    }

    /// The board that `s` describes in text form; `None` when `s` is not
    /// a board.
    pub fn from(s: String) -> (r: Option<Board>)
        ensures
            r is Some <==> board_text_ok(s@),
            r matches Some(b) ==> b.wf() && b.boats_spec() == text_counts(s@),
            r matches Some(b) ==> forall|a: int, c: int|
                in_board(a, c) ==> #[trigger] b.cell(a, c) == text_cell(s@, a, c),
    {
        let chars = chars_of(s.as_str());
        let ls = split_lines(&chars);
        let ghost text = s@;
        let ghost lv = lines(text);
        assert(views(ls@) == lv);
        assert(lv.len() == ls@.len());
        if ls.len() == 0 {
            return None;
        }
        assert(ls@[0]@ == lv[0]);
        let ws = split_words(&ls[0]);
        if ws.len() != 4 {
            return None;
        }
        let mut boats: Vec<u8> = Vec::new();
        let mut k: usize = 0;
        while k < 4
            invariant
                k <= 4,
                ws@.len() == 4,
                views(ws@) == words(lv[0]),
                lv == lines(text),
                text == s@,
                lv.len() >= 1,
                boats@.len() == k,
                forall|j: int| 0 <= j < k ==> (#[trigger] parse_count(words(lv[0])[j])) is Some,
                forall|j: int| 0 <= j < k ==> #[trigger] boats@[j] == text_counts(text)[j],
            decreases 4 - k,
        {
            assert(ws@[k as int]@ == words(lv[0])[k as int]);
            match parse_count_exec(&ws[k]) {
                Some(v) => {
                    boats.push(v);
                },
                None => {
                    return None;
                },
            }
            k = k + 1;
        }
        assert(boats@ =~= text_counts(text));
        let mut data = zeros(BSIZE * BSIZE);
        let rows = if ls.len() - 1 < BSIZE {
            ls.len() - 1
        } else {
            BSIZE
        };
        let mut a: usize = 0;
        while a < rows
            invariant
                lv == lines(text),
                text == s@,
                views(ls@) == lv,
                ls@.len() >= 1,
                rows as int == (if ls@.len() - 1 < BSIZE { ls@.len() - 1 } else { BSIZE as int }),
                a <= rows,
                data@.len() == BSIZE * BSIZE,
                forall|q: int| 0 <= q < data@.len() ==> #[trigger] data@[q] <= 1,
                forall|a2: int, c2: int|
                    in_board(a2, c2) ==> #[trigger] data@[a2 * BSIZE + c2] == if a2 < a {
                        text_cell(text, a2, c2)
                    } else {
                        0
                    },
                forall|a2: int, c2: int|
                    0 <= a2 < a && a2 + 1 < lv.len() && 0 <= c2 < BSIZE && c2 < lv[a2 + 1].len()
                        ==> (#[trigger] lv[a2 + 1][c2] == 'B' || lv[a2 + 1][c2] == ' '),
            decreases rows - a,
        {
            let line = &ls[a + 1];
            assert(line@ == lv[a + 1]);
            let cols = if line.len() < BSIZE {
                line.len()
            } else {
                BSIZE
            };
            let mut c: usize = 0;
            while c < cols
                invariant
                    lv == lines(text),
                    text == s@,
                    views(ls@) == lv,
                    a < rows,
                    rows <= BSIZE,
                    a + 1 < ls@.len(),
                    line@ == lv[a + 1],
                    cols as int == (if line@.len() < BSIZE { line@.len() as int } else { BSIZE as int }),
                    c <= cols,
                    data@.len() == BSIZE * BSIZE,
                    forall|q: int| 0 <= q < data@.len() ==> #[trigger] data@[q] <= 1,
                    forall|a2: int, c2: int|
                        in_board(a2, c2) ==> #[trigger] data@[a2 * BSIZE + c2] == if a2 < a || (a2
                            == a && c2 < c) {
                            text_cell(text, a2, c2)
                        } else {
                            0
                        },
                    forall|a2: int, c2: int|
                        0 <= a2 < a && a2 + 1 < lv.len() && 0 <= c2 < BSIZE && c2 < lv[a2 + 1].len()
                            ==> (#[trigger] lv[a2 + 1][c2] == 'B' || lv[a2 + 1][c2] == ' '),
                    forall|c2: int|
                        0 <= c2 < c ==> (#[trigger] lv[a + 1][c2] == 'B' || lv[a + 1][c2] == ' '),
                decreases cols - c,
            {
                let ch = line[c];
                proof {
                    lemma_index_in_grid(a as int, c as int);
                }
                if ch == 'B' {
                    let ghost prev = data@;
                    data.set(a * BSIZE + c, 1);
                    proof {
                        assert forall|a2: int, c2: int| in_board(a2, c2) implies #[trigger] data@[a2
                            * BSIZE + c2] == if a2 < a || (a2 == a && c2 < c + 1) {
                            text_cell(text, a2, c2)
                        } else {
                            0
                        } by {
                            lemma_index_in_grid(a2, c2);
                            lemma_grid_index_injective(a2, c2, a as int, c as int);
                        }
                        assert forall|q: int| 0 <= q < data@.len() implies #[trigger] data@[q] <= 1 by {
                            assert(q == a * BSIZE + c || data@[q] == prev[q]);
                        }
                    }
                } else if ch != ' ' {
                    assert(!(lv[a + 1][c as int] == 'B' || lv[a + 1][c as int] == ' '));
                    return None;
                }
                c = c + 1;
            }
            proof {
                assert forall|a2: int, c2: int| in_board(a2, c2) implies #[trigger] data@[a2 * BSIZE
                    + c2] == if a2 < a + 1 {
                    text_cell(text, a2, c2)
                } else {
                    0
                } by {
                    if a2 == a && c2 >= c {
                        assert(c2 >= lv[a + 1].len());
                    }
                }
            }
            a = a + 1;
        }
        let b = Board { boats, data };
        proof {
            assert forall|a2: int, c2: int| in_board(a2, c2) implies #[trigger] b.cell(a2, c2)
                == text_cell(text, a2, c2) by {
                if a2 >= a {
                    assert(a2 + 1 >= lv.len());
                }
            }
        }
        Some(b)
    }

    /// Boats left of each length, shortest first.
    pub fn boats(&self) -> (r: Vec<u8>)
        requires
            self.wf(),
        ensures
            r@ == self.boats_spec(),
    {
        self.boats.clone()
    }

    /// The cell at (`r`, `c`), 0-based.
    pub fn get_cell(&self, r: usize, c: usize) -> (v: u8)
        requires
            self.wf(),
            r < BSIZE,
            c < BSIZE,
        ensures
            v == self.cell(r as int, c as int),
    {
        proof {
            lemma_index_in_grid(r as int, c as int);
        }
        self.data[r * BSIZE + c]
    }

    /// Whether the cells around (`x`, `y`), and that cell, are all water.
    fn surroundings_ok(&self, x: usize, y: usize) -> (ok: bool)
        requires
            self.wf(),
            x < BSIZE,
            y < BSIZE,
        ensures
            ok == forall|r2: int, c2: int|
                near(x as int, y as int, r2, c2) && in_board(r2, c2) ==> #[trigger] self.cell(r2, c2)
                    == 0,
    {
        let start_x = if x > 0 {
            x - 1
        } else {
            0
        };
        let end_x = if x + 1 < BSIZE {
            x + 1
        } else {
            BSIZE - 1
        };
        let start_y = if y > 0 {
            y - 1
        } else {
            0
        };
        let end_y = if y + 1 < BSIZE {
            y + 1
        } else {
            BSIZE - 1
        };
        let mut i = start_x;
        while i <= end_x
            invariant
                self.wf(),
                x < BSIZE,
                y < BSIZE,
                start_x as int == (if x > 0 { x - 1 } else { 0 }),
                end_x as int == (if x + 1 < BSIZE { x + 1 } else { BSIZE - 1 }),
                start_y as int == (if y > 0 { y - 1 } else { 0 }),
                end_y as int == (if y + 1 < BSIZE { y + 1 } else { BSIZE - 1 }),
                start_x <= i <= end_x + 1,
                end_x < BSIZE,
                end_y < BSIZE,
                forall|r2: int, c2: int|
                    start_x <= r2 < i && start_y <= c2 <= end_y ==> #[trigger] self.cell(r2, c2)
                        == 0,
            decreases end_x + 1 - i,
        {
            let mut j = start_y;
            while j <= end_y
                invariant
                    self.wf(),
                    x < BSIZE,
                    y < BSIZE,
                    start_x as int == (if x > 0 { x - 1 } else { 0 }),
                    end_x as int == (if x + 1 < BSIZE { x + 1 } else { BSIZE - 1 }),
                    start_y as int == (if y > 0 { y - 1 } else { 0 }),
                    end_y as int == (if y + 1 < BSIZE { y + 1 } else { BSIZE - 1 }),
                    start_x <= i <= end_x,
                    start_y <= j <= end_y + 1,
                    end_x < BSIZE,
                    end_y < BSIZE,
                    forall|r2: int, c2: int|
                        start_x <= r2 < i && start_y <= c2 <= end_y ==> #[trigger] self.cell(r2, c2)
                            == 0,
                    forall|c2: int| start_y <= c2 < j ==> #[trigger] self.cell(i as int, c2) == 0,
                decreases end_y + 1 - j,
            {
                proof {
                    lemma_index_in_grid(i as int, j as int);
                }
                if self.data[i * BSIZE + j] != 0 {
                    assert(near(x as int, y as int, i as int, j as int) && in_board(i as int, j as int)
                        && self.cell(i as int, j as int) != 0);
                    return false;
                }
                j = j + 1;
            }
            i = i + 1;
        }
        true
    }

    /// Places `boat` with its first cell at `pos` (row, column, both from
    /// 1). Fails when no boat of that length is left, when it does not lie
    /// on the board, or when it would cover or touch a boat cell.
    pub fn add_boat(self, boat: Boat, pos: (usize, usize)) -> (r: Result<Board, Error>)
        requires
            self.wf(),
        ensures
            ({
                let l = boat_len(boat);
                let x = pos.0 - 1;
                let y = pos.1 - 1;
                if l < 1 || l > 4 || self.boats_spec()[l - 1] == 0 {
                    r == Err::<Board, Error>(Error::BoatCount)
                } else if !fits(boat, x, y) {
                    r == Err::<Board, Error>(Error::OutOfBounds)
                } else if !self.free_around(boat, x, y) {
                    r == Err::<Board, Error>(Error::Overlap)
                } else {
                    &&& r is Ok
                    &&& r->Ok_0.wf()
                    &&& r->Ok_0.boats_spec() == self.boats_spec().update(
                        l - 1,
                        (self.boats_spec()[l - 1] - 1) as u8,
                    )
                    &&& forall|a: int, b: int|
                        in_board(a, b) ==> #[trigger] r->Ok_0.cell(a, b) == if on_boat(
                            boat,
                            x,
                            y,
                            a,
                            b,
                        ) {
                            1
                        } else {
                            self.cell(a, b)
                        }
                }
            }),
    {
        let len = match boat {
            Boat::Vertical(l) => l,
            Boat::Horizontal(l) => l,
        };
        if len < 1 || len > 4 || self.boats[len - 1] == 0 {
            return Err(Error::BoatCount);
        }
        if pos.0 == 0 || pos.1 == 0 {
            return Err(Error::OutOfBounds);
        }
        let x = pos.0 - 1;
        let y = pos.1 - 1;
        let vertical = match boat {
            Boat::Vertical(_) => true,
            Boat::Horizontal(_) => false,
        };
        if vertical && (x > BSIZE - len || y >= BSIZE) {
            return Err(Error::OutOfBounds);
        }
        if !vertical && (y > BSIZE - len || x >= BSIZE) {
            return Err(Error::OutOfBounds);
        }
        let mut i: usize = 0;
        while i < len
            invariant
                self.wf(),
                1 <= len <= 4,
                len == boat_len(boat),
                vertical == (boat is Vertical),
                fits(boat, x as int, y as int),
                x == pos.0 - 1,
                y == pos.1 - 1,
                self.boats_spec()[len - 1] != 0,
                i <= len,
                forall|r2: int, c2: int|
                    near_segment(vertical, x as int, y as int, i as int, r2, c2) && in_board(r2, c2)
                        ==> #[trigger] self.cell(r2, c2) == 0,
            decreases len - i,
        {
            let (xi, yi) = if vertical {
                (x + i, y)
            } else {
                (x, y + i)
            };
            if !self.surroundings_ok(xi, yi) {
                proof {
                    let (r2, c2) = choose|r2: int, c2: int|
                        near(xi as int, yi as int, r2, c2) && in_board(r2, c2) && #[trigger] self.cell(
                            r2,
                            c2,
                        ) != 0;
                    assert(near_segment(vertical, x as int, y as int, len as int, r2, c2));
                    assert(!self.free_around(boat, x as int, y as int));
                }
                return Err(Error::Overlap);
            }
            i = i + 1;
        }
        let ghost before = self;
        let mut b = self;
        let mut k: usize = 0;
        while k < len
            invariant
                b.wf(),
                before.wf(),
                1 <= len <= 4,
                len == boat_len(boat),
                vertical == (boat is Vertical),
                fits(boat, x as int, y as int),
                x == pos.0 - 1,
                y == pos.1 - 1,
                before.boats_spec()[len - 1] != 0,
                before.free_around(boat, x as int, y as int),
                k <= len,
                b.boats@ == before.boats@,
                forall|a: int, c: int|
                    in_board(a, c) ==> #[trigger] b.cell(a, c) == if on_boat(
                        boat,
                        x as int,
                        y as int,
                        a,
                        c,
                    ) && (if vertical {
                        a < x + k
                    } else {
                        c < y + k
                    }) {
                        1
                    } else {
                        before.cell(a, c)
                    },
            decreases len - k,
        {
            let (xi, yi) = if vertical {
                (x + k, y)
            } else {
                (x, y + k)
            };
            proof {
                lemma_index_in_grid(xi as int, yi as int);
            }
            let ghost prev_b = b;
            b.data.set(xi * BSIZE + yi, 1);
            proof {
                assert forall|a: int, c: int| in_board(a, c) implies #[trigger] b.cell(a, c)
                    == if on_boat(boat, x as int, y as int, a, c) && (if vertical {
                    a < x + k + 1
                } else {
                    c < y + k + 1
                }) {
                    1
                } else {
                    before.cell(a, c)
                } by {
                    lemma_index_in_grid(a, c);
                    lemma_grid_index_injective(a, c, xi as int, yi as int);
                    assert(prev_b.cell(a, c) == if on_boat(boat, x as int, y as int, a, c) && (if vertical {
                        a < x + k
                    } else {
                        c < y + k
                    }) {
                        1
                    } else {
                        before.cell(a, c)
                    });
                    if a * BSIZE + c != xi * BSIZE + yi {
                        assert(b.cell(a, c) == prev_b.cell(a, c));
                    }
                }
                assert forall|q: int| 0 <= q < b.data@.len() implies #[trigger] b.data@[q] <= 1 by {
                    assert(q == xi * BSIZE + yi || b.data@[q] == prev_b.data@[q]);
                }
            }
            k = k + 1;
        }
        let left = b.boats[len - 1] - 1;
        let ghost filled = b;
        b.boats.set(len - 1, left);
        proof {
            assert forall|a: int, c: int| in_board(a, c) implies #[trigger] b.cell(a, c) == if on_boat(
                boat,
                x as int,
                y as int,
                a,
                c,
            ) {
                1
            } else {
                before.cell(a, c)
            } by {
                assert(b.cell(a, c) == filled.cell(a, c));
            }
        }
        Ok(b)
    }

    /// The text form: counts on the first line, then the 20 rows.
    pub fn to_string(&self) -> (s: String)
        requires
            self.wf(),
        ensures
            s@ == board_text(self.boats_spec(), self.cells()),
    {
        let mut out: Vec<char> = Vec::new();
        let mut i: usize = 0;
        while i < 4
            invariant
                self.wf(),
                i <= 4,
                out@ == counts_text(self.boats@.take(i as int)),
            decreases 4 - i,
        {
            if i > 0 {
                out.push(' ');
            }
            let digits = decimal_chars(self.boats[i]);
            append(&mut out, &digits);
            proof {
                assert(self.boats@.take(i + 1).drop_last() =~= self.boats@.take(i as int));
            }
            i = i + 1;
        }
        assert(self.boats@.take(4) =~= self.boats@);
        let mut r: usize = 0;
        while r < BSIZE
            invariant
                self.wf(),
                r <= BSIZE,
                out@ == counts_text(self.boats@) + rows_text(self.data@, r as int),
            decreases BSIZE - r,
        {
            out.push('\n');
            let mut c: usize = 0;
            while c < BSIZE
                invariant
                    self.wf(),
                    r < BSIZE,
                    c <= BSIZE,
                    out@ == counts_text(self.boats@) + rows_text(self.data@, r as int) + seq!['\n']
                        + row_text(self.data@, r as int, c as int),
                decreases BSIZE - c,
            {
                proof {
                    lemma_index_in_grid(r as int, c as int);
                }
                if self.data[r * BSIZE + c] == 0 {
                    out.push(' ');
                } else {
                    out.push('B');
                }
                c = c + 1;
            }
            r = r + 1;
        }
        string_from_chars(&out)
    }
}

/// ASCII white space, which separates the counts.
pub open spec fn is_space(c: char) -> bool {
    c == ' ' || c == '\t' || c == '\n' || c == '\r' || c == '\x0C'
}

/// `s` cut at each newline: one more piece than there are newlines.
pub open spec fn pieces(s: Seq<char>) -> Seq<Seq<char>>
    decreases s.len(),
{
    if s.len() == 0 {
        seq![Seq::empty()]
    } else {
        let p = pieces(s.drop_last());
        if s.last() == '\n' {
            p.push(Seq::empty())
        } else {
            p.update(p.len() - 1, p.last().push(s.last()))
        }
    }
}

pub open spec fn strip_cr(l: Seq<char>) -> Seq<char> {
    if l.len() > 0 && l.last() == '\r' {
        l.drop_last()
    } else {
        l
    }
}

/// The lines of `s`: no empty line after a final newline, and a carriage
/// return before a newline is not part of its line.
pub open spec fn lines(s: Seq<char>) -> Seq<Seq<char>> {
    let p = pieces(s);
    let q = if p.last().len() == 0 {
        p.drop_last()
    } else {
        p
    };
    q.map_values(|l: Seq<char>| strip_cr(l))
}

/// The runs of non-space characters of `l`.
pub open spec fn words(l: Seq<char>) -> Seq<Seq<char>>
    decreases l.len(),
{
    if l.len() == 0 {
        Seq::empty()
    } else {
        let w = words(l.drop_last());
        let c = l.last();
        if is_space(c) {
            w
        } else if l.len() >= 2 && !is_space(l[l.len() - 2]) {
            w.update(w.len() - 1, w.last().push(c))
        } else {
            w.push(seq![c])
        }
    }
}

pub open spec fn is_digit(c: char) -> bool {
    '0' <= c <= '9'
}

/// The number written by the digits `d`.
pub open spec fn digits_value(d: Seq<char>) -> nat
    decreases d.len(),
{
    if d.len() == 0 {
        0
    } else {
        digits_value(d.drop_last()) * 10 + ((d.last() as u32) - ('0' as u32)) as nat
    }
}

/// A count as `u8` parses it: an optional `+`, then digits, at most 255.
pub open spec fn parse_count(w: Seq<char>) -> Option<u8> {
    let d = unsigned_part(w);
    if d.len() > 0 && all_digits(d) && digits_value(d) <= 255 {
        Some(digits_value(d) as u8)
    } else {
        None
    }
}

/// `w` without a leading `+`.
pub open spec fn unsigned_part(w: Seq<char>) -> Seq<char> {
    if w.len() > 0 && w[0] == '+' {
        w.drop_first()
    } else {
        w
    }
}

pub open spec fn all_digits(d: Seq<char>) -> bool {
    forall|i: int| 0 <= i < d.len() ==> is_digit(#[trigger] d[i])
}

/// Whether `text` is a board: a first line of four counts, and rows whose
/// first 20 characters are `B` or a space. Lines after the 21st and
/// characters after the 20th of a row are not read.
pub open spec fn board_text_ok(text: Seq<char>) -> bool {
    let ls = lines(text);
    &&& ls.len() >= 1
    &&& words(ls[0]).len() == 4
    &&& forall|k: int| 0 <= k < 4 ==> (#[trigger] parse_count(words(ls[0])[k])) is Some
    &&& forall|a: int, c: int|
        0 <= a < BSIZE && a + 1 < ls.len() && 0 <= c < BSIZE && c < ls[a + 1].len() ==> (
        #[trigger] ls[a + 1][c] == 'B' || ls[a + 1][c] == ' ')
}

/// The four counts of a board text.
pub open spec fn text_counts(text: Seq<char>) -> Seq<u8> {
    Seq::new(4, |k: int| parse_count(words(lines(text)[0])[k])->Some_0)
}

/// The cell at (`a`, `c`) that `text` describes.
pub open spec fn text_cell(text: Seq<char>, a: int, c: int) -> u8 {
    let ls = lines(text);
    if a + 1 < ls.len() && c < ls[a + 1].len() && ls[a + 1][c] == 'B' {
        1
    } else {
        0
    }
}

pub open spec fn views(v: Seq<Vec<char>>) -> Seq<Seq<char>> {
    v.map_values(|x: Vec<char>| x@)
}

pub(crate) fn chars_of(t: &str) -> (r: Vec<char>)
    ensures
        r@ == t@,
{
    let n = t.unicode_len();
    let mut r: Vec<char> = Vec::new();
    let mut i: usize = 0;
    while i < n
        invariant
            n == t@.len(),
            i <= n,
            r@ == t@.take(i as int),
        decreases n - i,
    {
        r.push(t.get_char(i));
        assert(r@ =~= t@.take(i + 1));
        i = i + 1;
    }
    assert(t@.take(n as int) =~= t@);
    r
}

fn strip_cr_exec(l: Vec<char>) -> (r: Vec<char>)
    ensures
        r@ == strip_cr(l@),
{
    let mut l = l;
    if l.len() > 0 && l[l.len() - 1] == '\r' {
        l.pop();
    }
    l
}

proof fn lemma_pieces_nonempty(s: Seq<char>)
    ensures
        pieces(s).len() >= 1,
    decreases s.len(),
{
    if s.len() > 0 {
        lemma_pieces_nonempty(s.drop_last());
    }
}

fn split_lines(t: &Vec<char>) -> (r: Vec<Vec<char>>)
    ensures
        views(r@) == lines(t@),
{
    let mut done: Vec<Vec<char>> = Vec::new();
    let mut cur: Vec<char> = Vec::new();
    let mut i: usize = 0;
    while i < t.len()
        invariant
            i <= t@.len(),
            pieces(t@.take(i as int)).len() >= 1,
            views(done@) == pieces(t@.take(i as int)).drop_last().map_values(
                |l: Seq<char>| strip_cr(l),
            ),
            cur@ == pieces(t@.take(i as int)).last(),
        decreases t@.len() - i,
    {
        let c = t[i];
        let ghost p = pieces(t@.take(i as int));
        assert(t@.take(i + 1).drop_last() =~= t@.take(i as int));
        proof {
            lemma_pieces_nonempty(t@.take(i + 1));
        }
        if c == '\n' {
            let line = strip_cr_exec(cur);
            let ghost before = done@;
            done.push(line);
            cur = Vec::new();
            proof {
                let q = pieces(t@.take(i + 1));
                assert(q == p.push(Seq::empty()));
                assert(q.drop_last() =~= p);
                assert(p =~= p.drop_last().push(p.last()));
                assert(views(done@) =~= views(before).push(strip_cr(p.last())));
                assert(views(done@) =~= q.drop_last().map_values(|l: Seq<char>| strip_cr(l)));
            }
        } else {
            cur.push(c);
            proof {
                let q = pieces(t@.take(i + 1));
                assert(q == p.update(p.len() - 1, p.last().push(c)));
                assert(q.drop_last() =~= p.drop_last());
            }
        }
        i = i + 1;
    }
    assert(t@.take(i as int) =~= t@);
    proof {
        lemma_pieces_nonempty(t@);
        let p = pieces(t@);
        assert(p =~= p.drop_last().push(p.last()));
    }
    if cur.len() > 0 {
        let line = strip_cr_exec(cur);
        let ghost before = done@;
        done.push(line);
        proof {
            let p = pieces(t@);
            assert(views(done@) =~= views(before).push(strip_cr(p.last())));
            assert(views(done@) =~= p.map_values(|l: Seq<char>| strip_cr(l)));
        }
    }
    done
}

proof fn lemma_words_nonempty(l: Seq<char>)
    requires
        l.len() > 0,
        !is_space(l.last()),
    ensures
        words(l).len() > 0,
    decreases l.len(),
{
    if l.len() >= 2 && !is_space(l[l.len() - 2]) {
        lemma_words_nonempty(l.drop_last());
    }
}

fn space(c: char) -> (r: bool)
    ensures
        r == is_space(c),
{
    c == ' ' || c == '\t' || c == '\n' || c == '\r' || c == '\x0C'
}

fn split_words(l: &Vec<char>) -> (r: Vec<Vec<char>>)
    ensures
        views(r@) == words(l@),
{
    let mut w: Vec<Vec<char>> = Vec::new();
    let mut i: usize = 0;
    assert(views(w@) =~= words(l@.take(0)));
    while i < l.len()
        invariant
            i <= l@.len(),
            views(w@) == words(l@.take(i as int)),
        decreases l@.len() - i,
    {
        let c = l[i];
        let ghost pre = l@.take(i as int);
        let ghost post = l@.take(i + 1);
        assert(post.drop_last() =~= pre);
        if space(c) {
        } else if i >= 1 && !space(l[i - 1]) {
            proof {
                lemma_words_nonempty(pre);
            }
            let ghost before = w@;
            let mut last = w.pop().unwrap();
            last.push(c);
            w.push(last);
            proof {
                assert(views(w@) =~= views(before).update(
                    before.len() - 1,
                    views(before).last().push(c),
                ));
            }
        } else {
            let ghost before = w@;
            let mut one: Vec<char> = Vec::new();
            one.push(c);
            w.push(one);
            proof {
                assert(views(w@) =~= views(before).push(seq![c]));
            }
        }
        i = i + 1;
    }
    assert(l@.take(i as int) =~= l@);
    w
}

/// Digits read in order give at least the value of any prefix of them.
pub(crate) proof fn lemma_digits_prefix(d: Seq<char>, k: int)
    requires
        0 <= k <= d.len(),
    ensures
        digits_value(d.take(k)) <= digits_value(d),
    decreases d.len(),
{
    if k < d.len() {
        lemma_digits_prefix(d.drop_last(), k);
        assert(d.drop_last().take(k) =~= d.take(k));
    } else {
        assert(d.take(k) =~= d);
    }
}

fn parse_count_exec(w: &Vec<char>) -> (r: Option<u8>)
    ensures
        r == parse_count(w@),
{
    let mut i: usize = 0;
    if w.len() > 0 && w[0] == '+' {
        i = 1;
    }
    let start = i;
    let ghost d = unsigned_part(w@);
    assert(d =~= w@.subrange(start as int, w@.len() as int));
    if i >= w.len() {
        return None;
    }
    let mut v: u32 = 0;
    while i < w.len()
        invariant
            start <= i <= w@.len(),
            d == unsigned_part(w@),
            d == w@.subrange(start as int, w@.len() as int),
            v as nat == digits_value(d.take(i - start)),
            v <= 255,
            forall|j: int| 0 <= j < i - start ==> is_digit(#[trigger] d[j]),
        decreases w@.len() - i,
    {
        let c = w[i];
        if c < '0' || c > '9' {
            assert(d[i - start] == c);
            assert(!is_digit(d[i - start]));
            assert(!all_digits(d));
            return None;
        }
        assert(d.take(i - start + 1).drop_last() =~= d.take(i - start));
        v = v * 10 + ((c as u32) - ('0' as u32));
        if v > 255 {
            proof {
                assert(d.take(i - start + 1).last() == c);
                assert(digits_value(d.take(i - start + 1)) == v as nat);
                lemma_digits_prefix(d, i - start + 1);
                assert(digits_value(d) > 255);
            }
            return None;
        }
        i = i + 1;
    }
    assert(d.take(i - start) =~= d);
    Some(v as u8)
}

/// The character of a decimal digit.
pub open spec fn digit(d: nat) -> char {
    if d == 0 {
        '0'
    } else if d == 1 {
        '1'
    } else if d == 2 {
        '2'
    } else if d == 3 {
        '3'
    } else if d == 4 {
        '4'
    } else if d == 5 {
        '5'
    } else if d == 6 {
        '6'
    } else if d == 7 {
        '7'
    } else if d == 8 {
        '8'
    } else {
        '9'
    }
}

fn digit_char(d: u8) -> (c: char)
    requires
        d < 10,
    ensures
        c == digit(d as nat),
{
    if d == 0 {
        '0'
    } else if d == 1 {
        '1'
    } else if d == 2 {
        '2'
    } else if d == 3 {
        '3'
    } else if d == 4 {
        '4'
    } else if d == 5 {
        '5'
    } else if d == 6 {
        '6'
    } else if d == 7 {
        '7'
    } else if d == 8 {
        '8'
    } else {
        '9'
    }
}

/// The decimal digits of `n`, most significant first.
pub open spec fn decimal(n: nat) -> Seq<char>
    decreases n,
{
    if n < 10 {
        seq![digit(n)]
    } else {
        decimal(n / 10) + seq![digit(n % 10)]
    }
}

/// The counts separated by single spaces.
pub open spec fn counts_text(c: Seq<u8>) -> Seq<char>
    decreases c.len(),
{
    if c.len() == 0 {
        Seq::empty()
    } else if c.len() == 1 {
        decimal(c[0] as nat)
    } else {
        counts_text(c.drop_last()) + seq![' '] + decimal(c.last() as nat)
    }
}

/// The first `c` cells of row `r`.
pub open spec fn row_text(data: Seq<u8>, r: int, c: int) -> Seq<char>
    decreases c,
{
    if c <= 0 {
        Seq::empty()
    } else {
        row_text(data, r, c - 1) + seq![
            if data[r * BSIZE + c - 1] == 0 {
                ' '
            } else {
                'B'
            },
        ]
    }
}

/// The first `r` rows, each after a newline.
pub open spec fn rows_text(data: Seq<u8>, r: int) -> Seq<char>
    decreases r,
{
    if r <= 0 {
        Seq::empty()
    } else {
        rows_text(data, r - 1) + seq!['\n'] + row_text(data, r - 1, BSIZE as int)
    }
}

pub open spec fn board_text(boats: Seq<u8>, data: Seq<u8>) -> Seq<char> {
    counts_text(boats) + rows_text(data, BSIZE as int)
}

fn append(out: &mut Vec<char>, more: &Vec<char>)
    ensures
        final(out)@ == old(out)@ + more@,
{
    let mut i: usize = 0;
    while i < more.len()
        invariant
            i <= more@.len(),
            out@ == old(out)@ + more@.take(i as int),
        decreases more@.len() - i,
    {
        out.push(more[i]);
        assert(more@.take(i + 1) =~= more@.take(i as int).push(more@[i as int]));
        i = i + 1;
    }
    assert(more@.take(i as int) =~= more@);
}

fn decimal_chars(n: u8) -> (r: Vec<char>)
    ensures
        r@ == decimal(n as nat),
{
    let mut r: Vec<char> = Vec::new();
    if n >= 100 {
        r.push(digit_char(n / 100));
        r.push(digit_char((n / 10) % 10));
        r.push(digit_char(n % 10));
        proof {
            let m = n as nat;
            assert(m / 10 >= 10);
            assert((m / 10) / 10 == m / 100);
            assert(decimal(m / 10) == decimal(m / 100) + seq![digit((m / 10) % 10)]);
            assert(r@ =~= decimal(m));
        }
    } else if n >= 10 {
        r.push(digit_char(n / 10));
        r.push(digit_char(n % 10));
        assert(decimal((n / 10) as nat) == seq![digit((n / 10) as nat)]);
        assert(r@ =~= decimal(n as nat));
    } else {
        r.push(digit_char(n));
        assert(r@ =~= decimal(n as nat));
    }
    r
}

fn zeros(n: usize) -> (r: Vec<u8>)
    ensures
        r@.len() == n,
        forall|i: int| 0 <= i < n ==> #[trigger] r@[i] == 0,
{
    let mut v: Vec<u8> = Vec::new();
    let mut i: usize = 0;
    while i < n
        invariant
            i <= n,
            v@.len() == i,
            forall|j: int| 0 <= j < i ==> #[trigger] v@[j] == 0,
        decreases n - i,
    {
        v.push(0);
        i = i + 1;
    }
    v
}

proof fn lemma_index_in_grid(r: int, c: int)
    requires
        in_board(r, c),
    ensures
        0 <= r * BSIZE + c < BSIZE * BSIZE,
{
    assert(0 <= r * BSIZE + c < BSIZE * BSIZE) by (nonlinear_arith)
        requires
            0 <= r < 20,
            0 <= c < 20,
    ;
}

proof fn lemma_grid_index_injective(a: int, b: int, c: int, d: int)
    requires
        in_board(a, b),
        in_board(c, d),
    ensures
        (a * BSIZE + b == c * BSIZE + d) <==> (a == c && b == d),
{
    assert((a * 20 + b == c * 20 + d) ==> (a == c && b == d)) by (nonlinear_arith)
        requires
            0 <= a < 20,
            0 <= b < 20,
            0 <= c < 20,
            0 <= d < 20,
    ;
}

} // verus!
