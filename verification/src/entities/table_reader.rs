//! The triangulation table of marching cubes: for each of the 256 ways in which the
//! corners of a cube can lie on either side of the surface, the cube edges that the
//! triangles of the surface pass through, three to a triangle.
//!
//! The table is read from text, one line per configuration. A line is either the single
//! letter `N` (no triangle) or edge numbers from 0 to 11 separated by commas.

use std::collections::HashMap;
use vstd::prelude::*;

verus! {

pub const NEWLINE: u8 = 10;

pub const CARRIAGE_RETURN: u8 = 13;

pub const PLUS_SIGN: u8 = 43;

pub const COMMA: u8 = 44;

pub const DIGIT_ZERO: u8 = 48;

pub const DIGIT_NINE: u8 = 57;

/// The letter `N`, which alone on a line says that the configuration has no triangle.
pub const SENTINEL: u8 = 78;

/// Number of cube configurations, and of lines in the text.
pub const CONFIGURATIONS: usize = 256;

/// Number of edges of a cube.
pub const EDGES: u16 = 12;

/// A corner of the unit cube: each component is 0 or 1.
#[derive(Clone, Copy, Debug, PartialEq, Eq, Structural)]
pub struct Corner {
    pub x: usize,
    pub y: usize,
    pub z: usize,
}

/// Why a text is not a triangulation table. Line numbers start at 0.
#[derive(Clone, Copy, Debug, PartialEq, Eq, Structural)]
pub enum TableError {
    /// The line is neither `N` nor a comma-separated list of edge numbers from 0 to 11.
    MalformedLine { line: usize },
    /// The line lists edges, but not three to a triangle.
    IncompleteTriangle { line: usize },
    /// Every line is well formed, but there are not 256 of them.
    WrongLineCount { found: usize },
}

/// The pieces of `s` between occurrences of `sep`. There is always at least one piece;
/// a separator at the very end is followed by an empty piece.
pub open spec fn split(s: Seq<u8>, sep: u8) -> Seq<Seq<u8>>
    decreases s.len(),
{
    if s.len() == 0 {
        seq![Seq::<u8>::empty()]
    } else {
        let before = split(s.drop_last(), sep);
        if s.last() == sep {
            before.push(Seq::<u8>::empty())
        } else {
            before.update(before.len() - 1, before.last().push(s.last()))
        }
    }
}

/// The pieces put together again, with `sep` between each two.
pub open spec fn join(pieces: Seq<Seq<u8>>, sep: u8) -> Seq<u8>
    decreases pieces.len(),
{
    if pieces.len() == 0 {
        Seq::empty()
    } else if pieces.len() == 1 {
        pieces[0]
    } else {
        join(pieces.drop_last(), sep).push(sep) + pieces.last()
    }
}

/// Splitting loses nothing and cuts at every separator: no piece holds the separator,
/// and the pieces joined with it are the text.
pub proof fn lemma_split_cuts_at_separators(s: Seq<u8>, sep: u8)
    ensures
        split(s, sep).len() >= 1,
        forall|i: int, j: int|
            0 <= i < split(s, sep).len() && 0 <= j < split(s, sep)[i].len() ==> split(s, sep)[i][j]
                != sep,
        join(split(s, sep), sep) == s,
    decreases s.len(),
{
    if s.len() > 0 {
        let before = split(s.drop_last(), sep);
        lemma_split_cuts_at_separators(s.drop_last(), sep);
        let pieces = split(s, sep);
        if s.last() == sep {
            assert(pieces.drop_last() == before);
            assert(join(pieces, sep) == join(before, sep).push(sep) + Seq::<u8>::empty());
            assert(join(before, sep).push(sep) + Seq::<u8>::empty() == s.drop_last().push(sep));
            assert(s.drop_last().push(sep) == s);
        } else {
            let grown = before.last().push(s.last());
            assert(pieces.last() == grown);
            if before.len() == 1 {
                assert(join(before, sep) == before[0]);
                assert(join(pieces, sep) == grown);
                assert(grown == s.drop_last().push(s.last()));
            } else {
                assert(pieces.drop_last() == before.drop_last());
                assert(join(pieces, sep) == join(before.drop_last(), sep).push(sep) + grown);
                assert(join(before, sep) == join(before.drop_last(), sep).push(sep) + before.last());
                assert(join(before.drop_last(), sep).push(sep) + grown == (join(
                    before.drop_last(),
                    sep,
                ).push(sep) + before.last()).push(s.last()));
            }
            assert(s.drop_last().push(s.last()) == s);
        }
    }
}

/// A line without the carriage return that may end it.
pub open spec fn strip_carriage_return(line: Seq<u8>) -> Seq<u8> {
    if line.len() > 0 && line.last() == CARRIAGE_RETURN {
        line.drop_last()
    } else {
        line
    }
}

/// The lines of a text. A line ends at a newline or at the end of the text; the newline,
/// and a carriage return just before it, do not belong to the line. What follows the
/// last newline is a line only if it is not empty.
pub open spec fn lines(text: Seq<u8>) -> Seq<Seq<u8>> {
    let pieces = split(text, NEWLINE);
    let count = if pieces.last().len() == 0 {
        pieces.len() - 1
    } else {
        pieces.len() as int
    };
    Seq::new(
        count as nat,
        |i: int|
            if i < pieces.len() - 1 {
                strip_carriage_return(pieces[i])
            } else {
                pieces[i]
            },
    )
}

pub open spec fn is_digit(b: u8) -> bool {
    DIGIT_ZERO <= b <= DIGIT_NINE
}

pub open spec fn all_digits(d: Seq<u8>) -> bool {
    forall|i: int| 0 <= i < d.len() ==> is_digit(#[trigger] d[i])
}

/// The number that a sequence of decimal digits writes.
pub open spec fn digits_value(d: Seq<u8>) -> nat
    decreases d.len(),
{
    if d.len() == 0 {
        0
    } else {
        digits_value(d.drop_last()) * 10 + (d.last() - DIGIT_ZERO) as nat
    }
}

/// The digits of a field: the field itself, without the plus sign that may lead it.
pub open spec fn field_digits(field: Seq<u8>) -> Seq<u8> {
    if field.len() > 0 && field[0] == PLUS_SIGN {
        field.subrange(1, field.len() as int)
    } else {
        field
    }
}

/// The edge number that a field writes, if it writes one: at least one decimal digit,
/// nothing but decimal digits after an optional plus sign, and a value below 12.
pub open spec fn field_edge(field: Seq<u8>) -> Option<u16> {
    let d = field_digits(field);
    if d.len() > 0 && all_digits(d) && digits_value(d) < EDGES {
        Some(digits_value(d) as u16)
    } else {
        None
    }
}

pub open spec fn is_sentinel(line: Seq<u8>) -> bool {
    line.len() == 1 && line[0] == SENTINEL
}

/// The edges that a line lists, if it is well formed: none for the sentinel, else one
/// for each comma-separated field.
pub open spec fn line_edges(line: Seq<u8>) -> Option<Seq<u16>> {
    if is_sentinel(line) {
        Some(Seq::<u16>::empty())
    } else {
        let fields = split(line, COMMA);
        if forall|i: int| 0 <= i < fields.len() ==> (#[trigger] field_edge(fields[i])) is Some {
            Some(Seq::new(fields.len(), |i: int| field_edge(fields[i])->0))
        } else {
            None
        }
    }
}

/// What is wrong with the line at `index`, if anything.
pub open spec fn line_fault(index: int, line: Seq<u8>) -> Option<TableError> {
    match line_edges(line) {
        None => Some(TableError::MalformedLine { line: index as usize }),
        Some(edges) => if edges.len() % 3 != 0 {
            Some(TableError::IncompleteTriangle { line: index as usize })
        } else {
            None
        },
    }
}

/// The fault of the first faulty line, if any line is faulty.
pub open spec fn first_fault(ls: Seq<Seq<u8>>) -> Option<TableError>
    decreases ls.len(),
{
    if ls.len() == 0 {
        None
    } else {
        match first_fault(ls.drop_last()) {
            Some(e) => Some(e),
            None => line_fault(ls.len() - 1, ls.last()),
        }
    }
}

/// The rows that a text gives, one per configuration, or the reason why it gives none.
pub open spec fn parse_table(text: Seq<u8>) -> Result<Seq<Seq<u16>>, TableError> {
    let ls = lines(text);
    match first_fault(ls) {
        Some(e) => Err(e),
        None => if ls.len() != CONFIGURATIONS {
            Err(TableError::WrongLineCount { found: ls.len() as usize })
        } else {
            Ok(Seq::new(CONFIGURATIONS as nat, |c: int| line_edges(ls[c])->0))
        },
    }
}

/// A row of the table is whole triangles over the twelve edges of a cube.
pub open spec fn valid_row(row: Seq<u16>) -> bool {
    &&& row.len() % 3 == 0
    &&& forall|i: int| 0 <= i < row.len() ==> #[trigger] row[i] < EDGES
}

/// The eight corners of the unit cube in their fixed order: the bottom face (y = 0)
/// first, then the top face, each walked the same way round.
pub open spec fn cube_corner(i: int) -> Corner {
    if i == 0 {
        Corner { x: 0, y: 0, z: 0 }
    } else if i == 1 {
        Corner { x: 1, y: 0, z: 0 }
    } else if i == 2 {
        Corner { x: 1, y: 0, z: 1 }
    } else if i == 3 {
        Corner { x: 0, y: 0, z: 1 }
    } else if i == 4 {
        Corner { x: 0, y: 1, z: 0 }
    } else if i == 5 {
        Corner { x: 1, y: 1, z: 0 }
    } else if i == 6 {
        Corner { x: 1, y: 1, z: 1 }
    } else {
        Corner { x: 0, y: 1, z: 1 }
    }
}

/// The number of the corner at which an edge starts. Edges 0 to 3 run round the bottom
/// face, 4 to 7 round the top face, and 8 to 11 rise from the bottom to the top.
pub open spec fn edge_start(edge: int) -> int {
    if edge < 8 {
        edge
    } else {
        edge - 8
    }
}

/// The number of the corner at which an edge ends.
pub open spec fn edge_end(edge: int) -> int {
    if edge < 4 {
        (edge + 1) % 4
    } else if edge < 8 {
        4 + (edge - 3) % 4
    } else {
        edge - 4
    }
}

pub open spec fn edge_corner_a(edge: int) -> Corner {
    cube_corner(edge_start(edge))
}

pub open spec fn edge_corner_b(edge: int) -> Corner {
    cube_corner(edge_end(edge))
}

/// The views of a vector of byte vectors.
pub open spec fn views(parts: Seq<Vec<u8>>) -> Seq<Seq<u8>> {
    Seq::new(parts.len(), |i: int| parts[i]@)
}

/// Cuts the text at every separator.
fn split_bytes(text: &[u8], sep: u8) -> (parts: Vec<Vec<u8>>)
    ensures
        views(parts@) == split(text@, sep),
{
    let mut parts: Vec<Vec<u8>> = Vec::new();
    let mut current: Vec<u8> = Vec::new();
    let mut i: usize = 0;
    while i < text.len()
        invariant
            i <= text.len(),
            views(parts@).push(current@) == split(text@.subrange(0, i as int), sep),
        decreases text.len() - i,
    {
        let b: u8 = text[i];
        proof {
            let next = text@.subrange(0, i + 1);
            assert(next.drop_last() == text@.subrange(0, i as int));
            assert(next.last() == b);
        }
        if b == sep {
            let ghost before = views(parts@).push(current@);
            parts.push(current);
            current = Vec::new();
            assert(views(parts@) == before);
        } else {
            let ghost before = views(parts@).push(current@);
            current.push(b);
            assert(views(parts@).push(current@) == before.update(
                before.len() - 1,
                before.last().push(b),
            ));
        }
        i += 1;
    }
    assert(text@.subrange(0, i as int) == text@);
    let ghost done = views(parts@).push(current@);
    parts.push(current);
    assert(views(parts@) == done);
    parts
}

proof fn lemma_digits_value_grows(d: Seq<u8>, b: u8)
    requires
        is_digit(b),
    ensures
        digits_value(d.push(b)) == digits_value(d) * 10 + (b - DIGIT_ZERO),
        digits_value(d) >= EDGES ==> digits_value(d.push(b)) >= EDGES,
{
    assert(d.push(b).drop_last() == d);
}

/// Reads one field of a line as an edge number.
fn parse_edge(field: &[u8]) -> (r: Option<u16>)
    ensures
        r == field_edge(field@),
{
    let n: usize = field.len();
    let start: usize = if n > 0 && field[0] == PLUS_SIGN {
        1
    } else {
        0
    };
    let ghost d = field_digits(field@);
    assert(d == field@.subrange(start as int, n as int));
    if start == n {
        return None;
    }
    // `value` is the number written so far, or 12 once that number has reached 12.
    let mut value: u16 = 0;
    let mut i: usize = start;
    while i < n
        invariant
            start <= i <= n,
            n == field.len(),
            d == field_digits(field@),
            d == field@.subrange(start as int, n as int),
            all_digits(d.subrange(0, i - start)),
            value <= EDGES,
            value < EDGES ==> value == digits_value(d.subrange(0, i - start)),
            value == EDGES ==> digits_value(d.subrange(0, i - start)) >= EDGES,
        decreases n - i,
    {
        let b: u8 = field[i];
        if b < DIGIT_ZERO || b > DIGIT_NINE {
            assert(d[i - start] == b);
            assert(!is_digit(d[i - start]));
            return None;
        }
        proof {
            let seen = d.subrange(0, i - start);
            assert(d.subrange(0, i + 1 - start) == seen.push(b));
            lemma_digits_value_grows(seen, b);
        }
        if value < EDGES {
            let next: u16 = value * 10 + (b - DIGIT_ZERO) as u16;
            value = if next < EDGES {
                next
            } else {
                EDGES
            };
        }
        i += 1;
    }
    assert(d.subrange(0, n - start) == d);
    if value < EDGES {
        Some(value)
    } else {
        None
    }
}

/// Reads the edges that a line lists, if the line is well formed.
fn parse_line(line: &[u8]) -> (r: Option<Vec<u16>>)
    ensures
        match r {
            Some(edges) => line_edges(line@) == Some(edges@),
            None => line_edges(line@) is None,
        },
{
    if line.len() == 1 && line[0] == SENTINEL {
        let none: Vec<u16> = Vec::new();
        assert(none@ == Seq::<u16>::empty());
        return Some(none);
    }
    let fields = split_bytes(line, COMMA);
    let ghost spec_fields = split(line@, COMMA);
    let mut edges: Vec<u16> = Vec::new();
    let mut i: usize = 0;
    while i < fields.len()
        invariant
            i <= fields.len(),
            !is_sentinel(line@),
            spec_fields == split(line@, COMMA),
            views(fields@) == spec_fields,
            edges@.len() == i,
            forall|j: int| 0 <= j < i ==> field_edge(spec_fields[j]) == Some(#[trigger] edges@[j]),
        decreases fields.len() - i,
    {
        assert(spec_fields[i as int] == fields@[i as int]@);
        match parse_edge(fields[i].as_slice()) {
            None => {
                assert(field_edge(spec_fields[i as int]) is None);
                return None;
            },
            Some(edge) => {
                edges.push(edge);
            },
        }
        i += 1;
    }
    assert forall|j: int| 0 <= j < spec_fields.len() implies (#[trigger] field_edge(
        spec_fields[j],
    )) is Some by {
        assert(field_edge(spec_fields[j]) == Some(edges@[j]));
    }
    assert(edges@ == Seq::new(spec_fields.len(), |j: int| field_edge(spec_fields[j])->0));
    Some(edges)
}

proof fn lemma_first_fault_stays(ls: Seq<Seq<u8>>, k: int)
    requires
        0 <= k <= ls.len(),
        first_fault(ls.subrange(0, k)) is Some,
    ensures
        first_fault(ls) == first_fault(ls.subrange(0, k)),
    decreases ls.len() - k,
{
    if k < ls.len() {
        assert(ls.subrange(0, k + 1).drop_last() == ls.subrange(0, k));
        lemma_first_fault_stays(ls, k + 1);
    } else {
        assert(ls.subrange(0, k) == ls);
    }
}

/// The triangulation table, and for each edge of the cube the two corners that it joins.
pub struct TriangulationTable {
    table: HashMap<u16, Vec<u16>>,
    corner_index_a_from_edge: Vec<Corner>,
    corner_index_b_from_edge: Vec<Corner>,
    no_triangles: Vec<u16>,
    longest: usize,
}

impl TriangulationTable {
    /// The row stored for each of the 256 configurations.
    pub closed spec fn rows(&self) -> Seq<Seq<u16>> {
        Seq::new(CONFIGURATIONS as nat, |c: int| self.table@[c as u16]@)
    }

    /// The length of the longest row.
    pub closed spec fn longest_row(&self) -> nat {
        self.longest as nat
    }

    /// Every configuration has a row of whole triangles over edges 0 to 11, the longest
    /// of them `longest_row` long, and the corner tables are those of the unit cube.
    pub closed spec fn wf(&self) -> bool {
        &&& forall|c: u16| c < CONFIGURATIONS ==> #[trigger] self.table@.contains_key(c)
        &&& forall|c: int|
            0 <= c < CONFIGURATIONS ==> valid_row(#[trigger] self.rows()[c]) && self.rows()[c].len()
                <= self.longest
        &&& exists|c: int| 0 <= c < CONFIGURATIONS && (#[trigger] self.rows()[c]).len() == self.longest
        &&& self.corner_index_a_from_edge@ == Seq::new(EDGES as nat, |e: int| edge_corner_a(e))
        &&& self.corner_index_b_from_edge@ == Seq::new(EDGES as nat, |e: int| edge_corner_b(e))
        &&& self.no_triangles@.len() == 0
    }

    /// The edges of the triangles inside a cube of the given configuration: none where
    /// all corners lie on one side of the surface, else the row of the configuration.
    pub open spec fn spec_lookup(&self, cube_config: u8) -> Seq<u16> {
        if cube_config == 0 || cube_config == 255 {
            Seq::<u16>::empty()
        } else {
            self.rows()[cube_config as int]
        }
    }

    /// What well-formedness says of the rows.
    pub proof fn lemma_rows(&self)
        requires
            self.wf(),
        ensures
            self.rows().len() == CONFIGURATIONS,
            forall|c: int|
                0 <= c < CONFIGURATIONS ==> valid_row(#[trigger] self.rows()[c]) && self.rows()[c].len()
                    <= self.longest_row(),
            exists|c: int|
                0 <= c < CONFIGURATIONS && (#[trigger] self.rows()[c]).len() == self.longest_row(),
    {
        let c = choose|c: int|
            0 <= c < CONFIGURATIONS && (#[trigger] self.rows()[c]).len() == self.longest;
        assert(self.rows()[c].len() == self.longest_row());
    }

    /// Every lookup gives whole triangles over edges 0 to 11; for a cube that the
    /// surface does not cross it gives none.
    pub proof fn lemma_lookup(&self, cube_config: u8)
        requires
            self.wf(),
        ensures
            valid_row(self.spec_lookup(cube_config)),
            self.spec_lookup(cube_config).len() % 3 == 0,
            self.spec_lookup(cube_config).len() <= self.longest_row(),
            cube_config == 0 || cube_config == 255 ==> self.spec_lookup(cube_config).len() == 0,
    {
        assert(valid_row(self.rows()[cube_config as int]));
    }

    /// Reads the table from the text of its resource.
    pub fn new(text: &[u8]) -> (r: Result<TriangulationTable, TableError>)
        ensures
            match r {
                Ok(t) => t.wf() && parse_table(text@) == Ok::<Seq<Seq<u16>>, TableError>(t.rows()),
                Err(e) => parse_table(text@) == Err::<Seq<Seq<u16>>, TableError>(e),
            },
    {
        broadcast use vstd::std_specs::hash::group_hash_axioms;

        let pieces = split_bytes(text, NEWLINE);
        proof {
            lemma_split_cuts_at_separators(text@, NEWLINE);
        }
        let count: usize = if pieces[pieces.len() - 1].len() == 0 {
            pieces.len() - 1
        } else {
            pieces.len()
        };
        let ghost ls = lines(text@);
        let mut rows: Vec<Vec<u16>> = Vec::new();
        let mut longest: usize = 0;
        let mut i: usize = 0;
        while i < count
            invariant
                i <= count <= pieces.len(),
                count == ls.len(),
                ls == lines(text@),
                views(pieces@) == split(text@, NEWLINE),
                first_fault(ls.subrange(0, i as int)) is None,
                rows@.len() == i,
                forall|j: int| 0 <= j < i ==> line_edges(ls[j]) == Some((#[trigger] rows@[j])@),
                forall|j: int|
                    0 <= j < i ==> (#[trigger] rows@[j])@.len() % 3 == 0 && rows@[j]@.len() <= longest,
                i == 0 ==> longest == 0,
                i > 0 ==> exists|j: int| 0 <= j < i && (#[trigger] rows@[j])@.len() == longest,
            decreases count - i,
        {
            let piece: &[u8] = pieces[i].as_slice();
            assert(piece@ == split(text@, NEWLINE)[i as int]) by {
                assert(views(pieces@)[i as int] == pieces@[i as int]@);
            }
            let keep: usize = if i + 1 < pieces.len() && piece.len() > 0 && piece[piece.len() - 1]
                == CARRIAGE_RETURN {
                piece.len() - 1
            } else {
                piece.len()
            };
            let line: &[u8] = vstd::slice::slice_subrange(piece, 0, keep);
            assert(line@ == ls[i as int]) by {
                assert(piece@.subrange(0, piece@.len() as int) == piece@);
            }
            proof {
                assert(ls.subrange(0, i + 1).drop_last() == ls.subrange(0, i as int));
                assert(ls.subrange(0, i + 1).last() == ls[i as int]);
            }
            match parse_line(line) {
                None => {
                    proof {
                        lemma_first_fault_stays(ls, i + 1);
                    }
                    return Err(TableError::MalformedLine { line: i });
                },
                Some(edges) => {
                    if edges.len() % 3 != 0 {
                        proof {
                            lemma_first_fault_stays(ls, i + 1);
                        }
                        return Err(TableError::IncompleteTriangle { line: i });
                    }
                    let ghost read = rows@;
                    let ghost longest_read = longest;
                    if edges.len() > longest {
                        longest = edges.len();
                    }
                    rows.push(edges);
                    proof {
                        if longest == longest_read && i > 0 {
                            let j = choose|j: int| 0 <= j < i && (#[trigger] read[j])@.len() == longest_read;
                            assert(rows@[j]@.len() == longest);
                        } else {
                            assert(rows@[i as int]@.len() == longest);
                        }
                    }
                },
            }
            i += 1;
        }
        assert(ls.subrange(0, i as int) == ls);
        if count != CONFIGURATIONS {
            return Err(TableError::WrongLineCount { found: count });
        }
        let ghost parsed = Seq::new(CONFIGURATIONS as nat, |c: int| line_edges(ls[c])->0);
        assert forall|c: int| 0 <= c < CONFIGURATIONS implies valid_row(#[trigger] parsed[c])
            && parsed[c].len() <= longest by {
            assert(line_edges(ls[c]) == Some(rows@[c]@));
            lemma_line_edges_in_range(ls[c]);
        }
        let ghost attained = choose|j: int| 0 <= j < CONFIGURATIONS && (#[trigger] rows@[j])@.len() == longest;
        assert(parsed[attained].len() == longest) by {
            assert(line_edges(ls[attained]) == Some(rows@[attained]@));
        }

        let mut table: HashMap<u16, Vec<u16>> = HashMap::new();
        let mut c: usize = CONFIGURATIONS;
        while c > 0
            invariant
                c <= CONFIGURATIONS,
                parsed.len() == CONFIGURATIONS,
                rows@.len() == c,
                forall|j: int| 0 <= j < c ==> (#[trigger] rows@[j])@ == parsed[j],
                forall|k: u16|
                    c <= k < CONFIGURATIONS ==> #[trigger] table@.contains_key(k) && table@[k]@
                        == parsed[k as int],
            decreases c,
        {
            c -= 1;
            let ghost before = rows@;
            let ghost stored = table@;
            let row: Vec<u16> = rows.pop().unwrap();
            assert(row@ == parsed[c as int]) by {
                assert(before[c as int]@ == parsed[c as int]);
            }
            table.insert(c as u16, row);
            assert(table@ == stored.insert(c as u16, row));
        }

        let corner_index_a_from_edge: Vec<Corner> = vec![
            Corner { x: 0, y: 0, z: 0 },
            Corner { x: 1, y: 0, z: 0 },
            Corner { x: 1, y: 0, z: 1 },
            Corner { x: 0, y: 0, z: 1 },
            Corner { x: 0, y: 1, z: 0 },
            Corner { x: 1, y: 1, z: 0 },
            Corner { x: 1, y: 1, z: 1 },
            Corner { x: 0, y: 1, z: 1 },
            Corner { x: 0, y: 0, z: 0 },
            Corner { x: 1, y: 0, z: 0 },
            Corner { x: 1, y: 0, z: 1 },
            Corner { x: 0, y: 0, z: 1 },
        ];
        let corner_index_b_from_edge: Vec<Corner> = vec![
            Corner { x: 1, y: 0, z: 0 },
            Corner { x: 1, y: 0, z: 1 },
            Corner { x: 0, y: 0, z: 1 },
            Corner { x: 0, y: 0, z: 0 },
            Corner { x: 1, y: 1, z: 0 },
            Corner { x: 1, y: 1, z: 1 },
            Corner { x: 0, y: 1, z: 1 },
            Corner { x: 0, y: 1, z: 0 },
            Corner { x: 0, y: 1, z: 0 },
            Corner { x: 1, y: 1, z: 0 },
            Corner { x: 1, y: 1, z: 1 },
            Corner { x: 0, y: 1, z: 1 },
        ];
        assert(corner_index_a_from_edge@ == Seq::new(EDGES as nat, |e: int| edge_corner_a(e)));
        assert(corner_index_b_from_edge@ == Seq::new(EDGES as nat, |e: int| edge_corner_b(e)));

        let t = TriangulationTable {
            table,
            corner_index_a_from_edge,
            corner_index_b_from_edge,
            no_triangles: Vec::new(),
            longest,
        };
        assert(t.rows() == parsed) by {
            assert forall|c: int| 0 <= c < CONFIGURATIONS implies t.table@[c as u16]@ == parsed[c] by {
                assert(t.table@.contains_key(c as u16));
            }
        }
        assert(t.rows()[attained].len() == t.longest);
        Ok(t)
    }

    /// The edges of the triangles inside a cube of the given configuration.
    pub fn lookup(&self, cube_config: u8) -> (edges: &Vec<u16>)
        requires
            self.wf(),
        ensures
            edges@ == self.spec_lookup(cube_config),
            valid_row(edges@),
            edges@.len() <= self.longest_row(),
    {
        broadcast use vstd::std_specs::hash::group_hash_axioms;

        if cube_config == 0 || cube_config == 255 {
            &self.no_triangles
        } else {
            assert(self.table@.contains_key(cube_config as u16));
            assert(valid_row(self.rows()[cube_config as int]));
            self.table.get(&(cube_config as u16)).unwrap()
        }
    }

    /// The two corners of the unit cube that an edge joins.
    pub fn corner_offsets(&self, edge: u16) -> (ends: (Corner, Corner))
        requires
            self.wf(),
            edge < EDGES,
        ensures
            ends.0 == edge_corner_a(edge as int),
            ends.1 == edge_corner_b(edge as int),
    {
        (self.corner_index_a_from_edge[edge as usize], self.corner_index_b_from_edge[edge as usize])
    }

    /// The length of the longest row, as a bound for what one cube can add to a mesh.
    pub fn longest_run(&self) -> (n: usize)
        ensures
            n == self.longest_row(),
    {
        self.longest
    }
}

proof fn lemma_line_edges_in_range(line: Seq<u8>)
    requires
        line_edges(line) is Some,
    ensures
        forall|i: int| 0 <= i < line_edges(line)->0.len() ==> #[trigger] line_edges(line)->0[i] < EDGES,
{
    if !is_sentinel(line) {
        let fields = split(line, COMMA);
        assert forall|i: int| 0 <= i < line_edges(line)->0.len() implies #[trigger] line_edges(
            line,
        )->0[i] < EDGES by {
            assert(field_edge(fields[i]) is Some);
        }
    }
}

/// Each edge joins two corners of the unit cube that differ by one step along one axis:
/// edges 0 to 3 lie in the bottom face, edges 4 to 7 in the top face, and edges 8 to 11
/// rise from a bottom corner to the top corner above it.
pub proof fn lemma_edges_of_the_cube(edge: int)
    requires
        0 <= edge < EDGES,
    ensures
        ({
            let a = edge_corner_a(edge);
            let b = edge_corner_b(edge);
            &&& a.x <= 1 && a.y <= 1 && a.z <= 1
            &&& b.x <= 1 && b.y <= 1 && b.z <= 1
            &&& edge < 4 ==> a.y == 0 && b.y == 0 && (a.x != b.x) != (a.z != b.z)
            &&& 4 <= edge < 8 ==> a.y == 1 && b.y == 1 && (a.x != b.x) != (a.z != b.z)
            &&& 8 <= edge ==> a.y == 0 && b.y == 1 && a.x == b.x && a.z == b.z
        }),
{
}

} // verus!
