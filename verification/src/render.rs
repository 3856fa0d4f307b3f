use vstd::prelude::*;
use crate::grid::Cell;
use crate::grid::EllerMaze;

verus! {

/// The four bytes the rendering is made of.
pub const SPACE: u8 = 32;

pub const UNDERSCORE: u8 = 95;

pub const PIPE: u8 = 124;

pub const NEWLINE: u8 = 10;

/// The marker a cell contributes at its right edge.
pub open spec fn wall_byte(has_wall: bool) -> u8 {
    if has_wall {
        PIPE
    } else {
        SPACE
    }
}

/// A cell's four bytes on the upper of its two text lines: three spaces
/// and the right-wall marker.
pub open spec fn cell_upper(c: Cell) -> Seq<u8> {
    seq![SPACE, SPACE, SPACE, wall_byte(c.right_wall)]
}

/// A cell's four bytes on the lower line: its floor (drawn or open) and
/// the right-wall marker.
pub open spec fn cell_lower(c: Cell) -> Seq<u8> {
    if c.bottom_wall {
        seq![UNDERSCORE, UNDERSCORE, UNDERSCORE, wall_byte(c.right_wall)]
    } else {
        seq![SPACE, SPACE, SPACE, wall_byte(c.right_wall)]
    }
}

/// The upper text line of a row, over its first `n` cells, including the
/// leading `|` of the left boundary.
pub open spec fn line_upper(r: Seq<Cell>, n: int) -> Seq<u8>
    decreases n,
{
    if n <= 0 {
        seq![PIPE]
    } else {
        line_upper(r, n - 1) + cell_upper(r[n - 1])
    }
}

/// The lower text line of a row, over its first `n` cells.
pub open spec fn line_lower(r: Seq<Cell>, n: int) -> Seq<u8>
    decreases n,
{
    if n <= 0 {
        seq![PIPE]
    } else {
        line_lower(r, n - 1) + cell_lower(r[n - 1])
    }
}

/// The two newline-terminated text lines of one row.
pub open spec fn row_bytes(r: Seq<Cell>) -> Seq<u8> {
    line_upper(r, r.len() as int) + seq![NEWLINE] + line_lower(r, r.len() as int) + seq![NEWLINE]
}

/// The text of the first `n` rows of the maze.
pub open spec fn rows_bytes(m: Seq<Vec<Cell>>, n: int) -> Seq<u8>
    decreases n,
{
    if n <= 0 {
        Seq::empty()
    } else {
        rows_bytes(m, n - 1) + row_bytes(m[n - 1]@)
    }
}

/// The top boundary: `" ___"` once per cell of the first row.
pub open spec fn top_bytes(w: int) -> Seq<u8>
    decreases w,
{
    if w <= 0 {
        Seq::empty()
    } else {
        top_bytes(w - 1) + seq![SPACE, UNDERSCORE, UNDERSCORE, UNDERSCORE]
    }
}

/// The complete text rendering of a maze: the top boundary line, then two
/// lines per row.
pub open spec fn render_spec(m: Seq<Vec<Cell>>) -> Seq<u8> {
    top_bytes(m[0]@.len() as int) + seq![NEWLINE] + rows_bytes(m, m.len() as int)
}

/// Every byte of the rendering is printable ASCII (or a newline).
pub open spec fn all_ascii(s: Seq<u8>) -> bool {
    forall|i: int| 0 <= i < s.len() ==> (#[trigger] s[i]) < 128
}

proof fn lemma_concat_ascii(a: Seq<u8>, b: Seq<u8>)
    requires
        all_ascii(a),
        all_ascii(b),
    ensures
        all_ascii(a + b),
{
    assert forall|i: int| 0 <= i < (a + b).len() implies (#[trigger] (a + b)[i]) < 128 by {
        if i < a.len() {
            assert((a + b)[i] == a[i]);
        } else {
            assert((a + b)[i] == b[i - a.len()]);
        }
    }
}

proof fn lemma_top_ascii(w: int)
    ensures
        all_ascii(top_bytes(w)),
    decreases w,
{
    if w > 0 {
        lemma_top_ascii(w - 1);
        lemma_concat_ascii(top_bytes(w - 1), seq![SPACE, UNDERSCORE, UNDERSCORE, UNDERSCORE]);
    }
}

proof fn lemma_line_upper_ascii(r: Seq<Cell>, n: int)
    ensures
        all_ascii(line_upper(r, n)),
    decreases n,
{
    if n > 0 {
        lemma_line_upper_ascii(r, n - 1);
        lemma_concat_ascii(line_upper(r, n - 1), cell_upper(r[n - 1]));
    }
}

proof fn lemma_line_lower_ascii(r: Seq<Cell>, n: int)
    ensures
        all_ascii(line_lower(r, n)),
    decreases n,
{
    if n > 0 {
        lemma_line_lower_ascii(r, n - 1);
        lemma_concat_ascii(line_lower(r, n - 1), cell_lower(r[n - 1]));
    }
}

proof fn lemma_rows_ascii(m: Seq<Vec<Cell>>, n: int)
    ensures
        all_ascii(rows_bytes(m, n)),
    decreases n,
{
    if n > 0 {
        lemma_rows_ascii(m, n - 1);
        let r = m[n - 1]@;
        lemma_line_upper_ascii(r, r.len() as int);
        lemma_line_lower_ascii(r, r.len() as int);
        lemma_concat_ascii(line_upper(r, r.len() as int), seq![NEWLINE]);
        lemma_concat_ascii(line_upper(r, r.len() as int) + seq![NEWLINE], line_lower(r, r.len() as int));
        lemma_concat_ascii(
            line_upper(r, r.len() as int) + seq![NEWLINE] + line_lower(r, r.len() as int),
            seq![NEWLINE],
        );
        lemma_concat_ascii(rows_bytes(m, n - 1), row_bytes(r));
    }
}

proof fn lemma_render_ascii(m: Seq<Vec<Cell>>)
    ensures
        all_ascii(render_spec(m)),
{
    lemma_top_ascii(m[0]@.len() as int);
    lemma_rows_ascii(m, m.len() as int);
    lemma_concat_ascii(top_bytes(m[0]@.len() as int), seq![NEWLINE]);
    lemma_concat_ascii(
        top_bytes(m[0]@.len() as int) + seq![NEWLINE],
        rows_bytes(m, m.len() as int),
    );
}

/// Relies on `String::from_utf8`: a buffer of ASCII bytes converts to the
/// string that holds exactly those characters.
#[verifier::external_body]
fn ascii_to_string(bytes: Vec<u8>) -> (s: String)
    requires
        all_ascii(bytes@),
    ensures
        s@.len() == bytes@.len(),
        forall|i: int| 0 <= i < bytes@.len() ==> (#[trigger] s@[i]) == bytes@[i] as char,
{
    match String::from_utf8(bytes) {
        Ok(s) => s,
        Err(_) => String::new(),
    }
}

impl EllerMaze {
    /// The text rendering of the maze as raw bytes: the top boundary
    /// line, then two lines per row, each line closed by a newline.
    pub fn render_bytes(&self) -> (out: Vec<u8>)
        requires
            self.maze@.len() >= 1,
        ensures
            out@ == render_spec(self.maze@),
    {
        let w = self.maze[0].len();
        let mut out: Vec<u8> = Vec::new();
        let mut j: usize = 0;
        while j < w
            invariant
                j <= w,
                self.maze@.len() >= 1,
                w == self.maze@[0]@.len(),
                out@ == top_bytes(j as int),
            decreases w - j,
        {
            out.push(SPACE);
            out.push(UNDERSCORE);
            out.push(UNDERSCORE);
            out.push(UNDERSCORE);
            proof {
                assert(out@ =~= top_bytes(j + 1 as int));
            }
            j += 1;
        }
        out.push(NEWLINE);
        let ghost header = top_bytes(w as int) + seq![NEWLINE];
        proof {
            assert(out@ =~= header);
        }
        let mut r: usize = 0;
        while r < self.maze.len()
            invariant
                r <= self.maze@.len(),
                self.maze@.len() >= 1,
                w == self.maze@[0]@.len(),
                header == top_bytes(w as int) + seq![NEWLINE],
                out@ == header + rows_bytes(self.maze@, r as int),
            decreases self.maze@.len() - r,
        {
            let row = &self.maze[r];
            let n = row.len();
            let ghost base = out@;
            out.push(PIPE);
            proof {
                assert(out@ =~= base + line_upper(row@, 0));
            }
            let mut j: usize = 0;
            while j < n
                invariant
                    j <= n,
                    n == row@.len(),
                    out@ == base + line_upper(row@, j as int),
                decreases n - j,
            {
                out.push(SPACE);
                out.push(SPACE);
                out.push(SPACE);
                if row[j].right_wall {
                    out.push(PIPE);
                } else {
                    out.push(SPACE);
                }
                proof {
                    assert(out@ =~= base + line_upper(row@, j + 1 as int));
                }
                j += 1;
            }
            out.push(NEWLINE);
            let ghost mid = out@;
            out.push(PIPE);
            proof {
                assert(out@ =~= mid + line_lower(row@, 0));
            }
            let mut k: usize = 0;
            while k < n
                invariant
                    k <= n,
                    n == row@.len(),
                    out@ == mid + line_lower(row@, k as int),
                decreases n - k,
            {
                if row[k].bottom_wall {
                    out.push(UNDERSCORE);
                    out.push(UNDERSCORE);
                    out.push(UNDERSCORE);
                } else {
                    out.push(SPACE);
                    out.push(SPACE);
                    out.push(SPACE);
                }
                if row[k].right_wall {
                    out.push(PIPE);
                } else {
                    out.push(SPACE);
                }
                proof {
                    assert(out@ =~= mid + line_lower(row@, k + 1 as int));
                }
                k += 1;
            }
            out.push(NEWLINE);
            proof {
                assert(out@ =~= base + row_bytes(row@));
                assert(row@ == self.maze@[r as int]@);
                assert(out@ =~= header + rows_bytes(self.maze@, r + 1 as int));
            }
            r += 1;
        }
        proof {
            assert(out@ =~= render_spec(self.maze@));
        }
        out
    }

    /// The text rendering of the maze as a `String`: exactly the bytes of
    /// `render_spec`, character for character.
    pub fn render(&self) -> (s: String)
        requires
            self.maze@.len() >= 1,
        ensures
            s@.len() == render_spec(self.maze@).len(),
            forall|i: int|
                0 <= i < s@.len() ==> (#[trigger] s@[i]) == render_spec(self.maze@)[i] as char,
    {
        let bytes = self.render_bytes();
        proof {
            lemma_render_ascii(self.maze@);
        }
        ascii_to_string(bytes)
    }
}

/// Law: rendering is a pure function of the maze value.  Any two strings
/// that `render` can return for one and the same maze are identical,
/// character for character — re-rendering never changes the text.
pub proof fn lemma_render_deterministic(m: Seq<Vec<Cell>>, a: Seq<char>, b: Seq<char>)
    requires
        a.len() == render_spec(m).len(),
        forall|i: int| 0 <= i < a.len() ==> (#[trigger] a[i]) == render_spec(m)[i] as char,
        b.len() == render_spec(m).len(),
        forall|i: int| 0 <= i < b.len() ==> (#[trigger] b[i]) == render_spec(m)[i] as char,
    ensures
        a == b,
{
    assert(a =~= b);
}

} // verus!
