//! The plain text snapshot of a board: one line per row, `X` for a living
//! cell, a space for a dead one, each row ended by a newline.
use crate::board::{grid_of, rectangular, well_formed, BoardView, Cell, State};
use vstd::prelude::*;
use vstd::std_specs::iter::IteratorSpec;

verus! {

broadcast use vstd::string::group_string_axioms;

/// Why a text is not a snapshot of a board.
#[derive(Clone, Copy, Debug, PartialEq, Eq, Structural)]
pub enum SnapshotError {
    /// The text holds no line at all.
    Empty,
    /// The first character that is neither `X`, a space nor a newline.
    InvalidCharacter(char),
    /// The first row that is longer than the first one.
    RowTooLong(usize),
}

/// The lines of `s` read so far: the completed ones, and the line being read.
pub open spec fn split_step(s: Seq<char>) -> (Seq<Seq<char>>, Seq<char>)
    decreases s.len(),
{
    if s.len() == 0 {
        (Seq::empty(), Seq::empty())
    } else {
        let prev = split_step(s.drop_last());
        if s.last() == '\n' {
            (prev.0.push(prev.1), Seq::empty())
        } else {
            (prev.0, prev.1.push(s.last()))
        }
    }
}

/// The lines of `s`, split at each newline; a final newline ends the last
/// line and starts no new one.
pub open spec fn lines(s: Seq<char>) -> Seq<Seq<char>> {
    let st = split_step(s);
    if st.1.len() > 0 {
        st.0.push(st.1)
    } else {
        st.0
    }
}

/// A character that may appear in a snapshot.
pub open spec fn snapshot_char(c: char) -> bool {
    c == 'X' || c == ' ' || c == '\n'
}

/// `s` reads as a board: it is not empty, holds only `X`, spaces and
/// newlines, and no line is longer than the first.
pub open spec fn snapshot_valid(s: Seq<char>) -> bool {
    &&& s.len() > 0
    &&& forall|k: int| 0 <= k < s.len() ==> snapshot_char(#[trigger] s[k])
    &&& forall|i: int| 0 <= i < lines(s).len() ==> #[trigger] lines(s)[i].len() <= lines(s)[0].len()
}

/// A row of `width` cells read from `line`: `X` is alive; a space, or a
/// position past the end of the line, is dead.
pub open spec fn decode_row(line: Seq<char>, width: nat) -> Seq<bool> {
    Seq::new(width, |j: int| j < line.len() && line[j] == 'X')
}

/// The board that a snapshot describes: as wide as its first line, one row
/// per line.
pub open spec fn decode(s: Seq<char>) -> BoardView {
    let ls = lines(s);
    let w = ls[0].len();
    BoardView { width: w, rows: Seq::new(ls.len(), |i: int| decode_row(ls[i], w)) }
}

/// `c` is the first character of `s` that may not appear in a snapshot.
pub open spec fn first_bad_char(s: Seq<char>, c: char) -> bool {
    exists|k: int|
        0 <= k < s.len() && s[k] == c && !snapshot_char(c) && forall|m: int|
            0 <= m < k ==> snapshot_char(#[trigger] s[m])
}

/// `s` is made of snapshot characters only, and its line `i` is the first
/// one longer than its first line.
pub open spec fn first_long_row(s: Seq<char>, i: int) -> bool {
    &&& s.len() > 0
    &&& forall|k: int| 0 <= k < s.len() ==> snapshot_char(#[trigger] s[k])
    &&& 0 <= i < lines(s).len()
    &&& lines(s)[i].len() > lines(s)[0].len()
    &&& forall|m: int| 0 <= m < i ==> #[trigger] lines(s)[m].len() <= lines(s)[0].len()
}

/// `e` is the error that reading `s` as a snapshot gives.
pub open spec fn snapshot_error(s: Seq<char>, e: SnapshotError) -> bool {
    match e {
        SnapshotError::Empty => s.len() == 0,
        SnapshotError::InvalidCharacter(c) => first_bad_char(s, c),
        SnapshotError::RowTooLong(i) => first_long_row(s, i as int),
    }
}

/// One row of a snapshot, without its newline.
pub open spec fn encode_row(row: Seq<bool>) -> Seq<char> {
    row.map_values(|alive: bool| if alive { 'X' } else { ' ' })
}

/// The snapshot of `rows`: each row encoded and ended by a newline.
pub open spec fn encode(rows: Seq<Seq<bool>>) -> Seq<char>
    decreases rows.len(),
{
    if rows.len() == 0 {
        Seq::empty()
    } else {
        encode(rows.drop_last()) + encode_row(rows.last()) + seq!['\n']
    }
}

/// One row as drawn on a terminal: two block characters for a living cell,
/// two spaces for a dead one.
pub open spec fn render_row(row: Seq<bool>) -> Seq<char>
    decreases row.len(),
{
    if row.len() == 0 {
        Seq::empty()
    } else {
        render_row(row.drop_last()) + if row.last() {
            seq!['\u{2588}', '\u{2588}']
        } else {
            seq![' ', ' ']
        }
    }
}

/// The picture of `rows`: each row drawn and ended by a newline.
pub open spec fn render_rows(rows: Seq<Seq<bool>>) -> Seq<char>
    decreases rows.len(),
{
    if rows.len() == 0 {
        Seq::empty()
    } else {
        render_rows(rows.drop_last()) + render_row(rows.last()) + seq!['\n']
    }
}

proof fn lemma_lines_nonempty(s: Seq<char>)
    requires
        s.len() > 0,
    ensures
        lines(s).len() > 0,
{
}

proof fn lemma_split_append_line(p: Seq<char>, r: Seq<char>)
    requires
        forall|k: int| 0 <= k < r.len() ==> #[trigger] r[k] != '\n',
    ensures
        split_step(p + r) == (split_step(p).0, split_step(p).1 + r),
    decreases r.len(),
{
    if r.len() == 0 {
        assert(p + r =~= p);
        assert(split_step(p).1 + r =~= split_step(p).1);
    } else {
        let r0 = r.drop_last();
        lemma_split_append_line(p, r0);
        assert((p + r).drop_last() =~= p + r0);
        assert(split_step(p).1 + r =~= (split_step(p).1 + r0).push(r.last()));
    }
}

proof fn lemma_split_encode(rows: Seq<Seq<bool>>)
    ensures
        split_step(encode(rows)) == (rows.map_values(|row: Seq<bool>| encode_row(row)), Seq::<char>::empty()),
    decreases rows.len(),
{
    if rows.len() > 0 {
        let prev = rows.drop_last();
        lemma_split_encode(prev);
        let p = encode(prev);
        let r = encode_row(rows.last());
        lemma_split_append_line(p, r);
        assert((p + r + seq!['\n']).drop_last() =~= p + r);
        assert(Seq::<char>::empty() + r =~= r);
        assert(rows.map_values(|row: Seq<bool>| encode_row(row)) =~= prev.map_values(
            |row: Seq<bool>| encode_row(row),
        ).push(r));
    }
}

proof fn lemma_encode_chars(rows: Seq<Seq<bool>>)
    ensures
        forall|k: int| 0 <= k < encode(rows).len() ==> snapshot_char(#[trigger] encode(rows)[k]),
    decreases rows.len(),
{
    if rows.len() > 0 {
        lemma_encode_chars(rows.drop_last());
        let p = encode(rows.drop_last());
        let r = encode_row(rows.last());
        assert forall|k: int| 0 <= k < encode(rows).len() implies snapshot_char(#[trigger] encode(rows)[k]) by {
            if k < p.len() {
                assert(encode(rows)[k] == p[k]);
            } else if k < p.len() + r.len() {
                assert(encode(rows)[k] == r[k - p.len()]);
            }
        }
    }
}

/// Every rectangular board with at least one row reads back from its own
/// snapshot unchanged.
pub proof fn lemma_encode_decode(v: BoardView)
    requires
        well_formed(v),
        v.rows.len() > 0,
    ensures
        snapshot_valid(encode(v.rows)),
        decode(encode(v.rows)) == v,
{
    let s = encode(v.rows);
    lemma_split_encode(v.rows);
    lemma_encode_chars(v.rows);
    let ls = lines(s);
    assert(ls == v.rows.map_values(|row: Seq<bool>| encode_row(row)));
    assert(s.len() > 0) by {
        assert(s == encode(v.rows.drop_last()) + encode_row(v.rows.last()) + seq!['\n']);
    }
    assert(ls[0].len() == v.width);
    let d = decode(s);
    assert forall|i: int| 0 <= i < v.rows.len() implies #[trigger] d.rows[i] == v.rows[i] by {
        assert(v.rows[i].len() == v.width);
        assert(d.rows[i] =~= v.rows[i]);
    }
    assert(d.rows =~= v.rows);
}

/// Saving a board read from a snapshot and reading the result back gives the
/// same board: same dimensions, same cells.
pub proof fn lemma_snapshot_round_trip(text: Seq<char>)
    requires
        snapshot_valid(text),
    ensures
        snapshot_valid(encode(decode(text).rows)),
        decode(encode(decode(text).rows)) == decode(text),
{
    let v = decode(text);
    lemma_lines_nonempty(text);
    assert forall|i: int| 0 <= i < v.rows.len() implies #[trigger] v.rows[i].len() == v.width by {}
    lemma_encode_decode(v);
}

/// A text holding a character other than `X`, a space or a newline is no
/// snapshot, and the error it gives is that character.
pub proof fn lemma_invalid_character_rejected(s: Seq<char>, k: int, e: SnapshotError)
    requires
        0 <= k < s.len(),
        !snapshot_char(s[k]),
        snapshot_error(s, e),
    ensures
        !snapshot_valid(s),
        e is InvalidCharacter,
{
}

/// Splits `chars` into its lines.
fn split_lines(chars: &Vec<char>) -> (r: Vec<Vec<char>>)
    ensures
        r@.map_values(|v: Vec<char>| v@) == lines(chars@),
{
    let mut done: Vec<Vec<char>> = Vec::new();
    let mut cur: Vec<char> = Vec::new();
    let mut k: usize = 0;
    while k < chars.len()
        invariant
            k <= chars@.len(),
            done@.map_values(|v: Vec<char>| v@) == split_step(chars@.take(k as int)).0,
            cur@ == split_step(chars@.take(k as int)).1,
        decreases chars@.len() - k,
    {
        let ghost prev = done@.map_values(|v: Vec<char>| v@);
        assert(chars@.take(k + 1).drop_last() =~= chars@.take(k as int));
        let c = chars[k];
        if c == '\n' {
            let ghost line = cur@;
            done.push(cur);
            cur = Vec::new();
            assert(done@.map_values(|v: Vec<char>| v@) =~= prev.push(line));
        } else {
            cur.push(c);
        }
        k = k + 1;
    }
    assert(chars@.take(k as int) =~= chars@);
    if cur.len() > 0 {
        let ghost prev = done@.map_values(|v: Vec<char>| v@);
        done.push(cur);
        assert(done@.map_values(|v: Vec<char>| v@) =~= prev.push(split_step(chars@).1));
    }
    done
}

/// Reads `chars` as a snapshot: the rows of cells it describes, or the
/// first thing wrong with it.
pub(crate) fn parse_cells(chars: &Vec<char>) -> (r: Result<Vec<Vec<Cell>>, SnapshotError>)
    ensures
        r is Ok <==> snapshot_valid(chars@),
        match r {
            Ok(cells) => {
                &&& cells@.len() > 0
                &&& grid_of(cells@) == decode(chars@).rows
                &&& forall|i: int| 0 <= i < cells@.len() ==> #[trigger] cells@[i]@.len() == decode(chars@).width
            },
            Err(e) => snapshot_error(chars@, e),
        },
{
    let ghost s = chars@;
    let mut k: usize = 0;
    while k < chars.len()
        invariant
            k <= s.len(),
            s == chars@,
            forall|m: int| 0 <= m < k ==> snapshot_char(#[trigger] s[m]),
        decreases s.len() - k,
    {
        let c = chars[k];
        if !(c == 'X' || c == ' ' || c == '\n') {
            assert(first_bad_char(s, c));
            return Err(SnapshotError::InvalidCharacter(c));
        }
        k = k + 1;
    }
    if chars.len() == 0 {
        return Err(SnapshotError::Empty);
    }
    let ls = split_lines(chars);
    let ghost lv = lines(s);
    proof {
        lemma_lines_nonempty(s);
        assert forall|i: int| 0 <= i < ls@.len() implies #[trigger] ls@[i]@ == lv[i] by {
            assert(ls@.map_values(|v: Vec<char>| v@)[i] == ls@[i]@);
        }
    }
    let width = ls[0].len();
    let mut i: usize = 0;
    while i < ls.len()
        invariant
            i <= ls@.len() == lv.len(),
            lv.len() > 0,
            s == chars@,
            s.len() > 0,
            lv == lines(s),
            forall|m: int| 0 <= m < s.len() ==> snapshot_char(#[trigger] s[m]),
            width == lv[0].len(),
            forall|j: int| 0 <= j < ls@.len() ==> #[trigger] ls@[j]@ == lv[j],
            forall|m: int| 0 <= m < i ==> #[trigger] lv[m].len() <= width,
        decreases ls@.len() - i,
    {
        if ls[i].len() > width {
            assert(first_long_row(s, i as int));
            return Err(SnapshotError::RowTooLong(i));
        }
        i = i + 1;
    }
    let ghost v = decode(s);
    let mut cells: Vec<Vec<Cell>> = Vec::new();
    let mut i: usize = 0;
    while i < ls.len()
        invariant
            i <= ls@.len() == lv.len() == v.rows.len(),
            width == v.width,
            v == decode(s),
            lv == lines(s),
            s == chars@,
            snapshot_valid(s),
            forall|j: int| 0 <= j < ls@.len() ==> #[trigger] ls@[j]@ == lv[j],
            cells@.len() == i,
            forall|m: int| 0 <= m < i ==> #[trigger] cells@[m]@.len() == width,
            forall|m: int| 0 <= m < i ==> #[trigger] grid_of(cells@)[m] == v.rows[m],
        decreases ls@.len() - i,
    {
        let line = &ls[i];
        let mut row: Vec<Cell> = Vec::new();
        let mut j: usize = 0;
        while j < width
            invariant
                i < ls@.len() == lv.len() == v.rows.len(),
                width == v.width,
                v == decode(s),
                lv == lines(s),
                line@ == lv[i as int],
                j <= width,
                row@.len() == j,
                forall|c: int| 0 <= c < j ==> (#[trigger] row@[c]).spec_alive() == v.rows[i as int][c],
            decreases width - j,
        {
            let alive = j < line.len() && line[j] == 'X';
            row.push(Cell::new(if alive { State::Alive } else { State::Dead }));
            j = j + 1;
        }
        let ghost before = grid_of(cells@);
        assert(row@.map_values(|c: Cell| c.spec_alive()) =~= v.rows[i as int]);
        cells.push(row);
        assert forall|m: int| 0 <= m <= i implies #[trigger] grid_of(cells@)[m] == v.rows[m] by {
            if m < i {
                assert(grid_of(cells@)[m] == before[m]);
            }
        }
        i = i + 1;
    }
    assert(grid_of(cells@) =~= v.rows);
    Ok(cells)
}

/// The characters of `text`, in order.
pub fn chars_of(text: &str) -> (r: Vec<char>)
    ensures
        r@ == text@,
{
    let mut out: Vec<char> = Vec::new();
    let mut it = text.chars();
    let ghost k: int = 0;
    loop
        invariant
            0 <= k <= text@.len(),
            it.obeys_prophetic_iter_laws(),
            it.remaining() == text@.skip(k),
            out@ == text@.take(k),
        ensures
            out@ == text@,
        decreases text@.len() - k,
    {
        match it.next() {
            Some(c) => {
                proof {
                    assert(text@.take(k + 1) =~= text@.take(k).push(c));
                    assert(text@.skip(k + 1) =~= text@.skip(k).drop_first());
                    k = k + 1;
                }
                out.push(c);
            },
            None => {
                assert(text@.take(k) =~= text@);
                break ;
            },
        }
    }
    out
}

} // verus!
