//! The flash layout diagram: pieces, their placement grid, and the
//! box-drawing rendering with a colored legend.

use crate::corner::{
    corner_set, lemma_corner_totality, neighborhood_ok, signature, spec_corner_set, ClockWiseSlots,
    Corner,
};
use crate::dynzip::DynamicZip;
use crate::error::Error;
use crate::flash_img_seeker::FlashImage;
use crate::numfmt::{dec_string, spec_hex_annot};
use crate::parray::{appears, fresh_piece, initial_model, model_insert, GridModel, PieceArray};
use crate::slot::SlotStatus;
use colored::Colorize;
use vstd::prelude::*;

verus! {

/// A located occurrence of a candidate binary in the flash address
/// space: its label, size in bytes, and absolute offset.
#[derive(Debug, Clone)]
pub struct PuzzlePiece {
    pub bin_name: String,
    pub bin_size: usize,
    pub bin_offset: usize,
}

impl PuzzlePiece {
    pub fn new(bin_name: String, bin_size: usize, bin_offset: usize) -> (r: Self)
        ensures
            r.bin_name == bin_name,
            r.bin_size == bin_size,
            r.bin_offset == bin_offset,
    {
        PuzzlePiece { bin_name, bin_size, bin_offset }
    }

    pub fn start(&self) -> (r: usize)
        ensures
            r == self.bin_offset,
    {
        self.bin_offset
    }

    pub fn len(&self) -> (r: usize)
        ensures
            r == self.bin_size,
    {
        self.bin_size
    }

    pub fn name(&self) -> (r: &str)
        ensures
            r@ == self.bin_name@,
    {
        self.bin_name.as_str()
    }
}

/// Magnification of one axis: an explicit factor, or a fit to the
/// viewport computed at rendering time.
#[derive(Debug, Clone, Copy)]
enum Scaling {
    Dynamic,
    Fixed(usize),
}

impl Scaling {
    /// The explicit factor, if one was configured.
    spec fn spec_fixed(self) -> Option<usize> {
        match self {
            Scaling::Dynamic => None,
            Scaling::Fixed(k) => Some(k),
        }
    }

    /// Vertical magnification: the configured factor, or a fit to
    /// roughly half the viewport height, with a floor of 1.
    spec fn spec_v_scale(
        self,
        table_h: int,
        n_pieces: int,
        viewport_h: Option<usize>,
    ) -> int {
        match self.spec_fixed() {
            Some(k) => k as int,
            None => match viewport_h {
                None => 1,
                Some(h) => {
                    let half = h as int / 2;
                    if half <= 1 + n_pieces {
                        1
                    } else {
                        let q = (half - 1 - n_pieces) / table_h;
                        if q <= 2 {
                            1
                        } else {
                            q - 1
                        }
                    }
                },
            },
        }
    }

    /// Horizontal magnification: the configured factor, or a fit to
    /// roughly half the viewport width minus the address annotation,
    /// with a floor of 1.
    spec fn spec_h_scale(self, table_w: int, viewport_w: Option<usize>) -> int {
        match self.spec_fixed() {
            Some(k) => k as int,
            None => match viewport_w {
                None => 1,
                Some(w) => {
                    let half = w as int / 2;
                    if half <= 16 {
                        1
                    } else {
                        let q = (half - 16) / table_w;
                        if q <= 2 {
                            1
                        } else {
                            q - 1
                        }
                    }
                },
            },
        }
    }

    fn get_v_scale(&self, table_h: usize, n_pieces: usize, viewport_h: Option<usize>) -> (r: usize)
        requires
            table_h >= 1,
        ensures
            r == self.spec_v_scale(table_h as int, n_pieces as int, viewport_h),
    {
        match self {
            Scaling::Fixed(k) => *k,
            Scaling::Dynamic => match viewport_h {
                None => 1,
                Some(h) => {
                    let half = h / 2;
                    if n_pieces >= half || half - n_pieces <= 1 {
                        1
                    } else {
                        let q = (half - 1 - n_pieces) / table_h;
                        if q <= 2 {
                            1
                        } else {
                            q - 1
                        }
                    }
                },
            },
        }
    }

    fn get_h_scale(&self, table_w: usize, viewport_w: Option<usize>) -> (r: usize)
        requires
            table_w >= 1,
        ensures
            r == self.spec_h_scale(table_w as int, viewport_w),
    {
        match self {
            Scaling::Fixed(k) => *k,
            Scaling::Dynamic => match viewport_w {
                None => 1,
                Some(w) => {
                    let half = w / 2;
                    if half <= 16 {
                        1
                    } else {
                        let q = (half - 16) / table_w;
                        if q <= 2 {
                            1
                        } else {
                            q - 1
                        }
                    }
                },
            },
        }
    }
}

/// Relies on `term_size::dimensions`: the terminal's (width, height), if
/// it can be queried. The result depends on the environment, so nothing
/// is stated of it.
#[verifier::external_body]
fn terminal_dims() -> (r: Option<(usize, usize)>) {
    term_size::dimensions()
}

/// Relies on colored's `Colorize::color` / `Colorize::on_color` and
/// `ColoredString`'s `Display`: paints `text` with the given foreground
/// and background color names. Whether escape codes are emitted depends
/// on the environment, so nothing is stated of the result.
#[verifier::external_body]
fn colorize(text: &str, fg: &str, bg: &str) -> (r: String) {
    text.color(fg).on_color(bg).to_string()
}

/// Relies on std's `String::push`: appends one character.
#[verifier::external_body]
fn push_char(s: &mut String, c: char)
    ensures
        final(s)@ == old(s)@ + seq![c],
{
    s.push(c)
}

/// The palette: seven background color names, cycled through by piece
/// index.
pub open spec fn spec_color_name(k: int) -> Seq<char> {
    if k == 0 {
        seq!['r', 'e', 'd']
    } else if k == 1 {
        seq!['g', 'r', 'e', 'e', 'n']
    } else if k == 2 {
        seq!['y', 'e', 'l', 'l', 'o', 'w']
    } else if k == 3 {
        seq!['b', 'l', 'u', 'e']
    } else if k == 4 {
        seq!['m', 'a', 'g', 'e', 'n', 't', 'a']
    } else if k == 5 {
        seq!['c', 'y', 'a', 'n']
    } else {
        seq!['w', 'h', 'i', 't', 'e']
    }
}

/// The background color of piece `i`: the palette entry `i % 7`,
/// consistent for the whole run.
pub fn color_name(i: usize) -> (r: &'static str)
    ensures
        r@ == spec_color_name(i as int % 7),
{
    let r: &'static str = match i % 7 {
        0 => "red",
        1 => "green",
        2 => "yellow",
        3 => "blue",
        4 => "magenta",
        5 => "cyan",
        _ => "white",
    };
    proof {
        reveal_strlit("red");
        reveal_strlit("green");
        reveal_strlit("yellow");
        reveal_strlit("blue");
        reveal_strlit("magenta");
        reveal_strlit("cyan");
        reveal_strlit("white");
        assert(r@ =~= spec_color_name(i as int % 7));
    }
    r
}

/// The token drawn for one cell: blank when free, the piece's painted
/// index token when used.
pub open spec fn cell_token(s: SlotStatus, ptoks: Seq<Seq<char>>) -> Seq<char> {
    match s {
        SlotStatus::Used(i) => ptoks[i as int],
        _ => seq![' '],
    }
}

/// Tokens of one track column, top to bottom: a border, then cells and
/// cell transitions alternating (a continuation mark where adjacent rows
/// share their occupant, a divider where they do not), then a border.
pub open spec fn col_tokens(m: GridModel, ptoks: Seq<Seq<char>>, c: int) -> Seq<Seq<char>> {
    let l = m.grid.len() as int;
    Seq::new(
        (2 * l + 1) as nat,
        |k: int|
            if k == 0 || k == 2 * l {
                seq!['─']
            } else if k % 2 == 1 {
                cell_token(m.grid[(k - 1) / 2][c], ptoks)
            } else {
                if m.grid[k / 2 - 1][c] == m.grid[k / 2][c] {
                    cell_token(m.grid[k / 2][c], ptoks)
                } else {
                    seq!['─']
                }
            },
    )
}

/// Index of the first template matching signature `s`, in rule order;
/// 11 when none does.
pub open spec fn template_index_from(s: Seq<bool>, k: int) -> int
    decreases 11 - k,
{
    if k >= 11 {
        11
    } else if spec_corner_set()[k].1 == s {
        k
    } else {
        template_index_from(s, k + 1)
    }
}

/// The glyph of the template matching signature `s`.
pub open spec fn template_char(s: Seq<bool>) -> char {
    spec_corner_set()[template_index_from(s, 0)].0
}

/// A scan that found a match at `c` with no match before it pins down
/// the template index.
proof fn lemma_template_index_at(s: Seq<bool>, c: int, k: int)
    requires
        0 <= k <= c <= 11,
        forall|j: int| k <= j < c ==> (#[trigger] spec_corner_set()[j]).1 != s,
        c < 11 ==> spec_corner_set()[c].1 == s,
    ensures
        template_index_from(s, k) == c,
    decreases c - k,
{
    if k < c {
        lemma_template_index_at(s, c, k + 1);
    }
}

/// The edge-change signature of the 2x2 window spanning rows `r - 1`
/// and `r` of tracks `c` and `c + 1`.
pub open spec fn sig_at(m: GridModel, r: int, c: int) -> Seq<bool> {
    seq![
        m.grid[r - 1][c] != m.grid[r - 1][c + 1],
        m.grid[r - 1][c + 1] != m.grid[r][c + 1],
        m.grid[r][c + 1] != m.grid[r][c],
        m.grid[r][c] != m.grid[r - 1][c],
    ]
}

/// Tokens of the edge column between tracks `c` and `c + 1`: T pieces or
/// bars at the borders, vertical bars or blanks beside cells, and the
/// matching junction glyph at each row transition.
pub open spec fn edge_tokens(m: GridModel, c: int) -> Seq<Seq<char>> {
    let l = m.grid.len() as int;
    Seq::new(
        (2 * l + 1) as nat,
        |k: int|
            if k == 0 {
                if m.grid[0][c] is Used || m.grid[0][c + 1] is Used {
                    seq!['┬']
                } else {
                    seq!['─']
                }
            } else if k == 2 * l {
                if m.grid[l - 1][c] is Used || m.grid[l - 1][c + 1] is Used {
                    seq!['┴']
                } else {
                    seq!['─']
                }
            } else if k % 2 == 1 {
                if m.grid[(k - 1) / 2][c] is Used || m.grid[(k - 1) / 2][c + 1] is Used {
                    seq!['│']
                } else {
                    seq![' ']
                }
            } else {
                seq![template_char(sig_at(m, k / 2, c))]
            },
    )
}

/// `tok` repeated `times` times.
pub open spec fn rep(tok: Seq<char>, times: int) -> Seq<char>
    decreases times,
{
    if times <= 0 {
        Seq::empty()
    } else {
        rep(tok, times - 1) + tok
    }
}

/// The first `j` column tokens of display row `n` concatenated, track
/// columns magnified `h` times, edge columns kept as they are.
pub open spec fn row_content(cols: Seq<Seq<Seq<char>>>, n: int, h: int, j: int) -> Seq<char>
    decreases j,
{
    if j <= 0 {
        Seq::empty()
    } else {
        row_content(cols, n, h, j - 1) + (if (j - 1) % 2 == 0 {
            rep(cols[j - 1][n], h)
        } else {
            cols[j - 1][n]
        })
    }
}

/// The left outer border of a display line: a corner on the first and
/// last line, a T junction on boundary lines, a plain bar elsewhere.
pub open spec fn left_border(first_tok: Seq<char>, n: int, last: int) -> Seq<char> {
    if n == 0 {
        seq!['┌']
    } else if n == last {
        seq!['└']
    } else if first_tok == seq!['─'] {
        seq!['├']
    } else {
        seq!['│']
    }
}

/// The right outer border, mirroring the left one.
pub open spec fn right_border(last_tok: Seq<char>, n: int, last: int) -> Seq<char> {
    if n == 0 {
        seq!['┐']
    } else if n == last {
        seq!['┘']
    } else if last_tok == seq!['─'] {
        seq!['┤']
    } else {
        seq!['│']
    }
}

/// The inline address annotation of a boundary line; empty elsewhere.
pub open spec fn annotation(m: GridModel, n: int) -> Seq<char> {
    if n % 2 == 0 && n / 2 < m.offsets.len() {
        seq![' ', '<', '-', '-', ' '] + spec_hex_annot(m.offsets[n / 2] as int)
    } else {
        Seq::empty()
    }
}

/// One display line: borders, magnified row content, annotation, newline.
pub open spec fn spec_line(m: GridModel, cols: Seq<Seq<Seq<char>>>, n: int, h: int) -> Seq<char> {
    let last = cols[0].len() - 1;
    left_border(cols[0][n], n, last) + row_content(cols, n, h, cols.len() as int) + right_border(
        cols[cols.len() - 1][n],
        n,
        last,
    ) + annotation(m, n) + seq!['\n']
}

/// The first `n` display lines, cell lines repeated `v` times.
pub open spec fn spec_lines(
    m: GridModel,
    cols: Seq<Seq<Seq<char>>>,
    h: int,
    v: int,
    n: int,
) -> Seq<char>
    decreases n,
{
    if n <= 0 {
        Seq::empty()
    } else {
        spec_lines(m, cols, h, v, n - 1) + (if (n - 1) % 2 == 1 {
            rep(spec_line(m, cols, n - 1, h), v)
        } else {
            spec_line(m, cols, n - 1, h)
        })
    }
}

/// The whole schema: every display line over the interleaved columns.
pub open spec fn spec_schema(m: GridModel, ptoks: Seq<Seq<char>>, h: int, v: int) -> Seq<char> {
    spec_lines(m, all_columns(m, ptoks), h, v, 2 * m.grid.len() as int + 1)
}

/// The legend: each piece's painted index token and quoted label, one
/// line per piece in insertion order.
pub open spec fn spec_footer(ptoks: Seq<Seq<char>>, names: Seq<Seq<char>>, i: int) -> Seq<char>
    decreases i,
{
    if i <= 0 {
        Seq::empty()
    } else {
        spec_footer(ptoks, names, i - 1) + ptoks[i - 1] + seq![':', ' ', '\''] + names[i - 1]
            + seq!['\'', '\n']
    }
}

/// All display columns in order: track columns at even positions with
/// one edge column between each pair.
pub open spec fn all_columns(m: GridModel, ptoks: Seq<Seq<char>>) -> Seq<Seq<Seq<char>>> {
    Seq::new(
        (2 * m.ncols() - 1) as nat,
        |j: int|
            if j % 2 == 0 {
                col_tokens(m, ptoks, j / 2)
            } else {
                edge_tokens(m, (j - 1) / 2)
            },
    )
}

/// The placement map and everything needed to draw it: the committed
/// pieces, one pre-painted index token per piece, the grid, the
/// magnification configuration, and the corner rule set.
pub struct PuzzleDisplay {
    pieces: Vec<PuzzlePiece>,
    piece_tokens: Vec<String>,
    parray: PieceArray,
    horizontal_scale: Scaling,
    vertical_scale: Scaling,
    corner_set: [Corner; 11],
}

impl PuzzleDisplay {
    pub closed spec fn grid(self) -> GridModel {
        self.parray@
    }

    pub closed spec fn spec_pieces(self) -> Seq<PuzzlePiece> {
        self.pieces@
    }

    /// The painted legend token of each piece, as committed.
    pub closed spec fn spec_tokens(self) -> Seq<Seq<char>> {
        Seq::new(self.piece_tokens@.len(), |i: int| self.piece_tokens@[i]@)
    }

    pub closed spec fn spec_h_cfg(self) -> Option<usize> {
        self.horizontal_scale.spec_fixed()
    }

    pub closed spec fn spec_v_cfg(self) -> Option<usize> {
        self.vertical_scale.spec_fixed()
    }

    /// Everything the rendering relies on: a well-formed grid whose
    /// occupants all are committed pieces, one token per piece, and the
    /// canonical corner rule set.
    pub closed spec fn wf(self) -> bool {
        &&& self.parray@.wf()
        &&& self.piece_tokens@.len() == self.pieces@.len()
        &&& forall|r: int, c: int|
            0 <= r < self.parray@.grid.len() && 0 <= c < self.parray@.ncols() && (
            #[trigger] self.parray@.grid[r][c]) is Used ==> self.parray@.grid[r][c]->Used_0
                < self.pieces@.len()
        &&& self.corner_set@.len() == 11
        &&& forall|i: int|
            0 <= i < 11 ==> (#[trigger] self.corner_set@[i]).c == spec_corner_set()[i].0
                && self.corner_set@[i].spec_split() == spec_corner_set()[i].1
    }

    /// A fresh display for the given flash image, with the optional
    /// explicit magnification factors.
    pub fn new(flash_image: &FlashImage, v_scale: Option<usize>, h_scale: Option<usize>) -> (r:
        Self)
        requires
            0 < flash_image.spec_size() <= usize::MAX as u64,
        ensures
            r.wf(),
            r.spec_pieces().len() == 0,
            r.grid() == initial_model(flash_image.spec_size() as usize),
            r.spec_h_cfg() == h_scale,
            r.spec_v_cfg() == v_scale,
    {
        let parray = PieceArray::new(flash_image.size());
        let cs = corner_set();
        PuzzleDisplay {
            pieces: Vec::new(),
            piece_tokens: Vec::new(),
            parray,
            horizontal_scale: match h_scale {
                Some(k) => Scaling::Fixed(k),
                None => Scaling::Dynamic,
            },
            vertical_scale: match v_scale {
                Some(k) => Scaling::Fixed(k),
                None => Scaling::Dynamic,
            },
            corner_set: cs,
        }
    }

    pub fn is_empty(&self) -> (r: bool)
        ensures
            r == (self.spec_pieces().len() == 0),
    {
        self.pieces.is_empty()
    }

    /// Commits one located piece: records it, paints its legend token
    /// once, and inserts its address interval into the grid.
    pub fn add_element(&mut self, new_piece: PuzzlePiece) -> (r: Result<(), Error>)
        requires
            old(self).wf(),
            new_piece.bin_size > 0,
            new_piece.bin_offset + new_piece.bin_size <= old(self).grid().size(),
        ensures
            r is Ok,
            final(self).wf(),
            final(self).spec_pieces() == old(self).spec_pieces().push(new_piece),
            final(self).grid() == model_insert(
                old(self).grid(),
                old(self).spec_pieces().len() as usize,
                new_piece.bin_offset,
                (new_piece.bin_offset + new_piece.bin_size) as usize,
            ),
            final(self).grid().size() == old(self).grid().size(),
            final(self).spec_h_cfg() == old(self).spec_h_cfg(),
            final(self).spec_v_cfg() == old(self).spec_v_cfg(),
            final(self).spec_tokens().len() == old(self).spec_tokens().len() + 1,
            forall|i: int|
                0 <= i < old(self).spec_tokens().len() ==> final(self).spec_tokens()[i] == old(
                    self,
                ).spec_tokens()[i],
    {
        let start_addr = new_piece.start();
        let end_addr = start_addr + new_piece.len();
        self.pieces.push(new_piece);
        let piece_index = self.pieces.len() - 1;
        let index_string = dec_string(piece_index);
        let token = colorize(index_string.as_str(), "black", color_name(piece_index));
        self.piece_tokens.push(token);
        proof {
            assert(fresh_piece(self.parray@, piece_index));
        }
        let r = self.parray.add_piece(piece_index, start_addr, end_addr);
        proof {
            assert(self.spec_tokens() =~= old(self).spec_tokens().push(
                self.piece_tokens@[old(self).spec_tokens().len() as int]@,
            ));
            assert(self.spec_pieces() =~= old(self).spec_pieces().push(new_piece));
            assert forall|rr: int, cc: int|
                0 <= rr < self.parray@.grid.len() && 0 <= cc < self.parray@.ncols() && (
            #[trigger] self.parray@.grid[rr][cc]) is Used implies self.parray@.grid[rr][cc]->Used_0
                < self.pieces@.len() by {
                let q = self.parray@.grid[rr][cc]->Used_0;
                assert(appears(self.parray@, q));
            }
        }
        r
    }

    /// The display token of one cell.
    fn slot_token(&self, s: SlotStatus) -> (r: String)
        requires
            self.wf(),
            s is Used ==> s->Used_0 < self.spec_tokens().len(),
        ensures
            r@ == cell_token(s, self.spec_tokens()),
    {
        match s {
            SlotStatus::Used(i) => self.piece_tokens[i].clone(),
            _ => {
                let blank = String::from_str(" ");
                proof {
                    reveal_strlit(" ");
                    assert(blank@ =~= seq![' ']);
                }
                blank
            },
        }
    }

    /// One track's token column, top to bottom.
    fn process_column(&self, c: usize) -> (r: Vec<String>)
        requires
            self.wf(),
            c < self.grid().ncols(),
        ensures
            r.deep_view() == col_tokens(self.grid(), self.spec_tokens(), c as int),
    {
        let ghost m = self.grid();
        let ghost toks = col_tokens(m, self.spec_tokens(), c as int);
        let nrows = self.parray.nrows();
        let mut col: Vec<String> = Vec::new();
        let dash = String::from_str("─");
        proof {
            reveal_strlit("─");
            assert(dash@ =~= seq!['─']);
        }
        col.push(dash.clone());
        let mut r: usize = 0;
        while r < nrows - 1
            invariant
                self.wf(),
                c < m.ncols(),
                m == self.grid(),
                toks == col_tokens(m, self.spec_tokens(), c as int),
                nrows == m.grid.len(),
                nrows >= 2,
                dash@ == seq!['─'],
                0 <= r <= nrows - 1,
                col@.len() == 2 * r + 1,
                forall|j: int| 0 <= j < col@.len() ==> (#[trigger] col@[j])@ == toks[j],
            decreases nrows - 1 - r,
        {
            let cur = self.parray.slot_at(r, c);
            let nxt = self.parray.slot_at(r + 1, c);
            proof {
                if cur is Used {
                    assert(m.grid[r as int][c as int]->Used_0 < self.spec_pieces().len());
                }
                if nxt is Used {
                    assert(m.grid[r as int + 1][c as int]->Used_0 < self.spec_pieces().len());
                }
            }
            let cell = self.slot_token(cur);
            col.push(cell);
            let trans = if cur == nxt {
                self.slot_token(nxt)
            } else {
                dash.clone()
            };
            col.push(trans);
            proof {
                assert(toks[2 * r + 1] == cell_token(m.grid[r as int][c as int], self.spec_tokens()));
                assert(toks[2 * r + 2] == (if m.grid[r as int][c as int] == m.grid[r as int + 1][c
                    as int] {
                    cell_token(m.grid[r as int + 1][c as int], self.spec_tokens())
                } else {
                    seq!['─']
                }));
            }
            r = r + 1;
        }
        let last = self.parray.slot_at(nrows - 1, c);
        proof {
            if last is Used {
                assert(m.grid[nrows - 1][c as int]->Used_0 < self.spec_pieces().len());
            }
        }
        let cell = self.slot_token(last);
        col.push(cell);
        col.push(dash);
        proof {
            assert(toks[2 * (nrows - 1) + 1] == cell_token(
                m.grid[nrows - 1][c as int],
                self.spec_tokens(),
            ));
            assert forall|j: int| 0 <= j < col.deep_view().len() implies #[trigger] col.deep_view()[
            j] == toks[j] by {
                assert(col.deep_view()[j] == col@[j]@);
            }
            assert(col.deep_view() =~= toks);
        }
        col
    }

    /// Every track's token column.
    fn process_columns(&self) -> (r: Vec<Vec<String>>)
        requires
            self.wf(),
        ensures
            r.deep_view() == Seq::new(
                self.grid().ncols() as nat,
                |c: int| col_tokens(self.grid(), self.spec_tokens(), c),
            ),
    {
        let ncols = self.parray.ncols();
        let mut out: Vec<Vec<String>> = Vec::new();
        let mut c: usize = 0;
        while c < ncols
            invariant
                self.wf(),
                ncols == self.grid().ncols(),
                0 <= c <= ncols,
                out@.len() == c,
                forall|j: int|
                    0 <= j < c ==> (#[trigger] out@[j]).deep_view() == col_tokens(
                        self.grid(),
                        self.spec_tokens(),
                        j,
                    ),
            decreases ncols - c,
        {
            let col = self.process_column(c);
            out.push(col);
            c = c + 1;
        }
        proof {
            assert forall|j: int| 0 <= j < out.deep_view().len() implies #[trigger] out.deep_view()[
            j] == col_tokens(self.grid(), self.spec_tokens(), j) by {
                assert(out.deep_view()[j] == out@[j].deep_view());
            }
            assert(out.deep_view() =~= Seq::new(
                self.grid().ncols() as nat,
                |j: int| col_tokens(self.grid(), self.spec_tokens(), j),
            ));
        }
        out
    }

    /// The junction glyph for one 2x2 neighborhood: the unique matching
    /// corner rule, found by scanning the rule set in order.
    fn find_corner(&self, slots: ClockWiseSlots) -> (r: char)
        requires
            self.wf(),
            neighborhood_ok(slots),
        ensures
            r == template_char(signature(slots)),
    {
        let mut i: usize = 0;
        while i < 11
            invariant
                self.wf(),
                0 <= i <= 11,
                forall|j: int| 0 <= j < i ==> (#[trigger] spec_corner_set()[j]).1 != signature(
                    slots,
                ),
            decreases 11 - i,
        {
            if self.corner_set[i].is_usable_for(slots) {
                proof {
                    lemma_template_index_at(signature(slots), i as int, 0);
                }
                return self.corner_set[i].c;
            }
            i = i + 1;
        }
        proof {
            lemma_corner_totality(slots);
            let w = choose|w: int|
                0 <= w < 11 && (#[trigger] spec_corner_set()[w]).1 == signature(slots);
            assert(spec_corner_set()[w].1 != signature(slots));
            assert(false);
        }
        ' '
    }

    /// The edge column between tracks `c` and `c + 1`.
    fn edge_column(&self, c: usize) -> (r: Vec<String>)
        requires
            self.wf(),
            c + 1 < self.grid().ncols(),
        ensures
            r.deep_view() == edge_tokens(self.grid(), c as int),
    {
        let ghost m = self.grid();
        let ghost toks = edge_tokens(m, c as int);
        let nrows = self.parray.nrows();
        let nc = self.parray.ncols();
        proof {
            assert(c + 1 < nc);
        }
        let mut col: Vec<String> = Vec::new();
        // top border
        let top0 = self.parray.slot_at(0, c);
        let top1 = self.parray.slot_at(0, c + 1);
        let top = if top0.is_used() || top1.is_used() {
            self.lit_str("┬")
        } else {
            self.lit_str("─")
        };
        proof {
            reveal_strlit("┬");
            reveal_strlit("─");
            assert(top@ =~= toks[0]);
            assert(top@ == toks[0]);
        }
        col.push(top);
        let mut r: usize = 1;
        while r < nrows
            invariant
                self.wf(),
                c + 1 < m.ncols(),
                nc == m.ncols(),
                m == self.grid(),
                toks == edge_tokens(m, c as int),
                nrows == m.grid.len(),
                nrows >= 2,
                1 <= r <= nrows,
                col@.len() == 2 * r - 1,
                forall|j: int| 0 <= j < col@.len() ==> (#[trigger] col@[j])@ == toks[j],
            decreases nrows - r,
        {
            let tl = self.parray.slot_at(r - 1, c);
            let tr = self.parray.slot_at(r - 1, c + 1);
            let br = self.parray.slot_at(r, c + 1);
            let bl = self.parray.slot_at(r, c);
            // the vertical edge beside the cell above
            let vert = if tl.is_used() || tr.is_used() {
                self.lit_str("│")
            } else {
                self.lit_str(" ")
            };
            proof {
                reveal_strlit("│");
                reveal_strlit(" ");
                assert(vert@ =~= toks[2 * (r - 1) + 1]);
            }
            col.push(vert);
            // the junction at the transition below it
            let cw = ClockWiseSlots { inner: [tl, tr, br, bl] };
            proof {
                assert(cw.inner@[0] == tl && cw.inner@[1] == tr && cw.inner@[2] == br
                    && cw.inner@[3] == bl);
                assert(neighborhood_ok(cw));
                assert(signature(cw) =~= sig_at(m, r as int, c as int));
            }
            let glyph = self.find_corner(cw);
            let mut gs = String::new();
            push_char(&mut gs, glyph);
            proof {
                assert(gs@ =~= seq![template_char(sig_at(m, r as int, c as int))]);
            }
            col.push(gs);
            r = r + 1;
        }
        // the edge beside the last cell, then the bottom border
        let la = self.parray.slot_at(nrows - 1, c);
        let lb = self.parray.slot_at(nrows - 1, c + 1);
        let lastv = if la.is_used() || lb.is_used() {
            self.lit_str("│")
        } else {
            self.lit_str(" ")
        };
        let bottom = if la.is_used() || lb.is_used() {
            self.lit_str("┴")
        } else {
            self.lit_str("─")
        };
        proof {
            reveal_strlit("│");
            reveal_strlit(" ");
            reveal_strlit("┴");
            reveal_strlit("─");
            assert(lastv@ =~= toks[2 * (nrows - 1) + 1]);
            assert(bottom@ =~= toks[2 * (nrows - 1) + 2]);
        }
        col.push(lastv);
        col.push(bottom);
        proof {
            assert forall|j: int| 0 <= j < col.deep_view().len() implies #[trigger] col.deep_view()[
            j] == toks[j] by {
                assert(col.deep_view()[j] == col@[j]@);
            }
            assert(col.deep_view() =~= toks);
        }
        col
    }

    /// A one-token string.
    fn lit_str(&self, s: &str) -> (r: String)
        ensures
            r@ == s@,
    {
        String::from_str(s)
    }

    /// Interleaves one edge column between every pair of adjacent track
    /// columns.
    fn insert_edges(&self, display_vec: &mut Vec<Vec<String>>)
        requires
            self.wf(),
            old(display_vec).deep_view() == Seq::new(
                self.grid().ncols() as nat,
                |c: int| col_tokens(self.grid(), self.spec_tokens(), c),
            ),
        ensures
            final(display_vec).deep_view() == all_columns(self.grid(), self.spec_tokens()),
    {
        let ghost m = self.grid();
        let ghost toks = self.spec_tokens();
        let ncols = self.parray.ncols();
        let mut n: usize = 0;
        while n + 1 < ncols
            invariant
                self.wf(),
                m == self.grid(),
                toks == self.spec_tokens(),
                ncols == m.ncols(),
                0 <= n <= ncols - 1,
                display_vec.deep_view().len() == ncols + n,
                forall|j: int|
                    0 <= j < 2 * n + 1 ==> #[trigger] display_vec.deep_view()[j] == all_columns(
                        m,
                        toks,
                    )[j],
                forall|j: int|
                    2 * n + 1 <= j < ncols + n ==> #[trigger] display_vec.deep_view()[j]
                        == col_tokens(m, toks, j - n),
            decreases ncols - n,
        {
            let edge = self.edge_column(n);
            let ghost ev = edge.deep_view();
            let ghost before = display_vec.deep_view();
            let ghost vb = display_vec@;
            let dl = display_vec.len();
            proof {
                assert(2 * n + 1 <= dl);
            }
            display_vec.insert(2 * n + 1, edge);
            proof {
                vb.insert_ensures(2 * n + 1, display_vec@[2 * n + 1]);
                before.insert_ensures(2 * n + 1, ev);
                assert forall|j: int|
                    0 <= j < display_vec@.len() implies #[trigger] display_vec.deep_view()[j]
                    == before.insert(2 * n + 1, ev)[j] by {
                    if j < 2 * n + 1 {
                        assert(display_vec@[j] == vb[j]);
                    } else if j > 2 * n + 1 {
                        assert(display_vec@[j] == vb[j - 1]);
                    }
                }
                assert(display_vec.deep_view() =~= before.insert(2 * n + 1, ev));
                assert(ev == edge_tokens(m, n as int));
                assert forall|j: int|
                    0 <= j < 2 * (n + 1) + 1 implies #[trigger] display_vec.deep_view()[j]
                    == all_columns(m, toks)[j] by {
                    if j < 2 * n + 1 {
                        assert(display_vec.deep_view()[j] == before[j]);
                    } else if j == 2 * n + 1 {
                        assert(display_vec.deep_view()[j] == edge_tokens(m, n as int));
                    } else {
                        assert(display_vec.deep_view()[j] == before[j - 1]);
                        assert(before[j - 1] == col_tokens(m, toks, j - 1 - n));
                    }
                }
                assert forall|j: int|
                    2 * (n + 1) + 1 <= j < ncols + n + 1 implies #[trigger] display_vec.deep_view()[
                    j] == col_tokens(m, toks, j - (n + 1)) by {
                    assert(display_vec.deep_view()[j] == before[j - 1]);
                }
            }
            n = n + 1;
        }
        proof {
            assert(display_vec.deep_view() =~= all_columns(m, toks));
        }
    }

    /// Whether a token is the horizontal divider.
    fn is_dash(&self, s: &String) -> (r: bool)
        ensures
            r == (s@ == seq!['─']),
    {
        let d = String::from_str("─");
        let r = *s == d;
        proof {
            reveal_strlit("─");
            assert(d@ =~= seq!['─']);
        }
        r
    }

    /// Turns the interleaved columns into row-major display lines:
    /// contextual outer borders, horizontal magnification of track
    /// tokens, vertical magnification of cell lines, and one address
    /// annotation per boundary line.
    #[verifier::rlimit(100)]
    fn display_create(&self, display_vec: Vec<Vec<String>>, h: usize, v: usize) -> (r: String)
        requires
            self.wf(),
            display_vec.deep_view() == all_columns(self.grid(), self.spec_tokens()),
        ensures
            r@ == spec_lines(
                self.grid(),
                all_columns(self.grid(), self.spec_tokens()),
                h as int,
                v as int,
                2 * self.grid().grid.len() as int + 1,
            ),
    {
        let ghost m = self.grid();
        let ghost cols = all_columns(m, self.spec_tokens());
        let ghost l = m.grid.len() as int;
        proof {
            assert(cols.len() == 2 * m.ncols() - 1);
            assert(cols[0] == col_tokens(m, self.spec_tokens(), 0));
            assert(cols[0].len() == 2 * l + 1);
        }
        let width = display_vec.len();
        proof {
            assert(display_vec@.len() == cols.len());
            assert(display_vec.deep_view()[0] == display_vec@[0].deep_view());
        }
        let last_idx = display_vec[0].len() - 1;
        proof {
            assert(display_vec@[0].deep_view().len() == display_vec@[0]@.len());
            assert(last_idx == 2 * l);
        }
        let total = last_idx + 1;
        let mut dz = DynamicZip::new(display_vec);
        let mut display = String::new();
        let mut n: usize = 0;
        while n < total
            invariant
                self.wf(),
                m == self.grid(),
                cols == all_columns(m, self.spec_tokens()),
                l == m.grid.len() as int,
                last_idx == 2 * l,
                total == 2 * l + 1,
                width == cols.len(),
                width >= 1,
                dz.iterators.deep_view() == cols,
                dz.spec_pos() == n,
                0 <= n <= total,
                display@ == spec_lines(m, cols, h as int, v as int, n as int),
            decreases total - n,
        {
            proof {
                assert forall|i: int| 0 <= i < dz.iterators@.len() implies dz.spec_pos() < (
                #[trigger] dz.iterators@[i])@.len() by {
                    assert(dz.iterators.deep_view()[i] == dz.iterators@[i].deep_view());
                    assert(cols[i].len() == 2 * l + 1) by {
                        if i % 2 == 0 {
                            assert(cols[i] == col_tokens(m, self.spec_tokens(), i / 2));
                        } else {
                            assert(cols[i] == edge_tokens(m, (i - 1) / 2));
                        }
                    }
                }
                assert(dz.can_yield());
            }
            let row = match dz.next() {
                Some(row) => row,
                None => {
                    return vstd::pervasive::unreached();
                },
            };
            proof {
                assert forall|i: int| 0 <= i < row@.len() implies (#[trigger] row@[i])@
                    == cols[i][n as int] by {
                    assert(row@[i]@ == dz.iterators@[i]@[n as int]@);
                    assert(dz.iterators.deep_view()[i] == dz.iterators@[i].deep_view());
                    assert(dz.iterators@[i].deep_view()[n as int] == dz.iterators@[i]@[n as int]@);
                }
            }
            let mut line = String::new();
            // left outer border
            if n == 0 {
                line.append("┌");
            } else if n == last_idx {
                line.append("└");
            } else if self.is_dash(&row[0]) {
                line.append("├");
            } else {
                line.append("│");
            }
            proof {
                reveal_strlit("┌");
                reveal_strlit("└");
                reveal_strlit("├");
                reveal_strlit("│");
                assert(line@ =~= left_border(cols[0][n as int], n as int, 2 * l));
            }
            let ghost lb = line@;
            // the row's tokens, track tokens magnified
            let mut j: usize = 0;
            while j < width
                invariant
                    0 <= j <= width,
                    width == cols.len(),
                    row@.len() == width,
                    forall|i: int| 0 <= i < row@.len() ==> (#[trigger] row@[i])@ == cols[i][n as int],
                    line@ == lb + row_content(cols, n as int, h as int, j as int),
                decreases width - j,
            {
                if j % 2 == 0 {
                    let mut t: usize = 0;
                    while t < h
                        invariant
                            0 <= t <= h,
                            0 <= j < width,
                            width == cols.len(),
                            row@.len() == width,
                            forall|i: int|
                                0 <= i < row@.len() ==> (#[trigger] row@[i])@ == cols[i][n as int],
                            line@ == lb + row_content(cols, n as int, h as int, j as int) + rep(
                                cols[j as int][n as int],
                                t as int,
                            ),
                        decreases h - t,
                    {
                        line.append(row[j].as_str());
                        t = t + 1;
                    }
                } else {
                    line.append(row[j].as_str());
                }
                proof {
                    assert(row_content(cols, n as int, h as int, j as int + 1) == row_content(
                        cols,
                        n as int,
                        h as int,
                        j as int,
                    ) + (if (j as int) % 2 == 0 {
                        rep(cols[j as int][n as int], h as int)
                    } else {
                        cols[j as int][n as int]
                    }));
                }
                j = j + 1;
            }
            // right outer border
            if n == 0 {
                line.append("┐");
            } else if n == last_idx {
                line.append("┘");
            } else if self.is_dash(&row[width - 1]) {
                line.append("┤");
            } else {
                line.append("│");
            }
            proof {
                reveal_strlit("┐");
                reveal_strlit("┘");
                reveal_strlit("┤");
                reveal_strlit("│");
                assert(line@ =~= lb + row_content(cols, n as int, h as int, width as int)
                    + right_border(cols[width - 1][n as int], n as int, 2 * l));
            }
            // the boundary address annotation
            if n % 2 == 0 && n / 2 < self.parray.nrows() {
                line.append(" <-- ");
                let annot = crate::numfmt::hex_annot(self.parray.offset_at(n / 2));
                line.append(annot.as_str());
                proof {
                    reveal_strlit(" <-- ");
                    assert(line@ =~= lb + row_content(cols, n as int, h as int, width as int)
                        + right_border(cols[width - 1][n as int], n as int, 2 * l) + annotation(
                        m,
                        n as int,
                    ));
                }
            } else {
                proof {
                    assert(annotation(m, n as int) =~= Seq::<char>::empty());
                    assert(line@ =~= lb + row_content(cols, n as int, h as int, width as int)
                        + right_border(cols[width - 1][n as int], n as int, 2 * l) + annotation(
                        m,
                        n as int,
                    ));
                }
            }
            line.append("\n");
            proof {
                reveal_strlit("\n");
                assert(line@ =~= spec_line(m, cols, n as int, h as int));
            }
            // cell lines are repeated for vertical magnification
            if n % 2 == 1 {
                let mut t: usize = 0;
                while t < v
                    invariant
                        0 <= t <= v,
                        line@ == spec_line(m, cols, n as int, h as int),
                        display@ == spec_lines(m, cols, h as int, v as int, n as int) + rep(
                            line@,
                            t as int,
                        ),
                    decreases v - t,
                {
                    display.append(line.as_str());
                    t = t + 1;
                }
                proof {
                    assert(display@ == spec_lines(m, cols, h as int, v as int, n as int + 1));
                }
            } else {
                display.append(line.as_str());
                proof {
                    assert(display@ == spec_lines(m, cols, h as int, v as int, n as int + 1));
                }
            }
            n = n + 1;
        }
        display
    }

    /// Appends the legend: one line per piece, its painted index token
    /// and its quoted label, in insertion order.
    fn display_create_footer(&self, display: &mut String)
        requires
            self.wf(),
        ensures
            final(display)@ == old(display)@ + spec_footer(
                self.spec_tokens(),
                self.spec_names(),
                self.spec_pieces().len() as int,
            ),
    {
        let ghost base = display@;
        let count = self.pieces.len();
        let mut i: usize = 0;
        while i < count
            invariant
                self.wf(),
                count == self.spec_pieces().len(),
                0 <= i <= count,
                display@ == base + spec_footer(self.spec_tokens(), self.spec_names(), i as int),
            decreases count - i,
        {
            display.append(self.piece_tokens[i].as_str());
            display.append(": '");
            display.append(self.pieces[i].name());
            display.append("'\n");
            proof {
                reveal_strlit(": '");
                reveal_strlit("'\n");
                assert(self.spec_tokens()[i as int] == self.piece_tokens@[i as int]@);
                assert(self.spec_names()[i as int] == self.spec_pieces()[i as int].bin_name@);
                assert(display@ =~= base + spec_footer(
                    self.spec_tokens(),
                    self.spec_names(),
                    i as int + 1,
                ));
            }
            i = i + 1;
        }
    }

    /// The labels of the committed pieces, in insertion order.
    pub open spec fn spec_names(self) -> Seq<Seq<char>> {
        Seq::new(self.spec_pieces().len(), |i: int| self.spec_pieces()[i].bin_name@)
    }

    /// The full rendering for a given viewport: the schema followed by
    /// the legend, with both magnifications resolved.
    pub closed spec fn spec_rendered(self, vp: Option<(usize, usize)>) -> Seq<char> {
        let vw = match vp {
            None => None,
            Some(d) => Some(d.0),
        };
        let vh = match vp {
            None => None,
            Some(d) => Some(d.1),
        };
        let h = self.horizontal_scale.spec_h_scale(self.grid().ncols(), vw);
        let v = self.vertical_scale.spec_v_scale(
            self.grid().nrows(),
            self.spec_pieces().len() as int,
            vh,
        );
        spec_schema(self.grid(), self.spec_tokens(), h, v) + spec_footer(
            self.spec_tokens(),
            self.spec_names(),
            self.spec_pieces().len() as int,
        )
    }

    /// Renders the diagram against an explicitly supplied viewport, so
    /// that the output is a function of the display state alone.
    pub fn display_with_viewport(&self, viewport: Option<(usize, usize)>) -> (r: String)
        requires
            self.wf(),
        ensures
            r@ == self.spec_rendered(viewport),
    {
        let (vw, vh) = match viewport {
            Some(d) => (Some(d.0), Some(d.1)),
            None => (None, None),
        };
        let h = self.horizontal_scale.get_h_scale(self.parray.ncols(), vw);
        let v = self.vertical_scale.get_v_scale(self.parray.nrows(), self.pieces.len(), vh);
        let mut dv = self.process_columns();
        self.insert_edges(&mut dv);
        let mut out = self.display_create(dv, h, v);
        self.display_create_footer(&mut out);
        out
    }

    /// Renders the diagram against the terminal's dimensions. With both
    /// magnifications fixed the output is independent of the viewport,
    /// hence reproducible byte for byte.
    pub fn display(&self) -> (r: String)
        requires
            self.wf(),
        ensures
            exists|vp: Option<(usize, usize)>| r@ == self.spec_rendered(vp),
            self.spec_h_cfg() is Some && self.spec_v_cfg() is Some ==> r@ == self.spec_rendered(
                None,
            ),
    {
        let dims = terminal_dims();
        let r = self.display_with_viewport(dims);
        proof {
            assert(r@ == self.spec_rendered(dims));
        }
        r
    }
}

} // verus!
