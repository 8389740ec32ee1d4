//! A graph that was written in the G2O format is read as it was written.

use crate::factor_graph::factor::FactorType;
use crate::factor_graph::variable::VariableType;
use crate::parser::g2o::{
    all_indices, decimals, edge_keyword, edge_line_words, edge_text, edge_words, graph_text,
    has_offset, indices_of, keyword_of, lemma_upper_len, restriction_start, scanned_edge,
    scanned_fix, scanned_line, scanned_upto, scanned_vertex, upper_len, vertex_keyword,
    vertex_text, Keyword, ParseError, RecordView,
};
use crate::text::{
    are_lines, are_words, decimal, is_line, is_space, is_word, joined, lemma_decimal_parses,
    lemma_decimal_word, lemma_joined_concat, lemma_joined_first, lemma_lines_joined,
    lemma_tokens_joined, lemma_words_make_line, lines_of, parsed_index, tokens_of,
};
use vstd::prelude::*;

verus! {

/// The keyword of each kind of vertex is a word that starts no comment, and announces a
/// vertex of that kind.
pub proof fn lemma_vertex_keyword(kind: VariableType)
    ensures
        is_word(vertex_keyword(kind)),
        vertex_keyword(kind)[0] != '#',
        keyword_of(vertex_keyword(kind)) == Some(Keyword::Vertex(kind)),
{
    reveal_strlit("VERTEX_SE2");
    reveal_strlit("VERTEX_XY");
    reveal_strlit("VERTEX_SE3:QUAT");
    reveal_strlit("VERTEX_TRACKXYZ");
    assert("VERTEX_SE3:QUAT"@[7] == 'S');
    assert("VERTEX_TRACKXYZ"@[7] == 'T');
}

/// The keyword of each kind of edge is a word that starts no comment, and announces an
/// edge of that kind.
pub proof fn lemma_edge_keyword(kind: FactorType)
    ensures
        is_word(edge_keyword(kind)),
        edge_keyword(kind)[0] != '#',
        keyword_of(edge_keyword(kind)) == Some(Keyword::Edge(kind)),
{
    reveal_strlit("VERTEX_SE2");
    reveal_strlit("VERTEX_XY");
    reveal_strlit("VERTEX_SE3:QUAT");
    reveal_strlit("VERTEX_TRACKXYZ");
    reveal_strlit("EDGE_PRIOR_SE2");
    reveal_strlit("EDGE_SE2");
    reveal_strlit("EDGE_SE2_XY");
    reveal_strlit("EDGE_SE3_PRIOR");
    reveal_strlit("EDGE_SE3:QUAT");
    reveal_strlit("EDGE_SE3_TRACKXYZ");
    assert("VERTEX_SE2"@[0] == 'V');
    assert("VERTEX_XY"@[0] == 'V');
    assert("VERTEX_SE3:QUAT"@[0] == 'V');
    assert("VERTEX_TRACKXYZ"@[0] == 'V');
    assert("EDGE_PRIOR_SE2"@[5] == 'P');
    assert("EDGE_SE3_PRIOR"@[5] == 'S');
    assert("EDGE_PRIOR_SE2"@.len() == 14);
    assert("EDGE_SE2"@.len() == 8);
    assert("EDGE_SE2_XY"@.len() == 11);
    assert("EDGE_SE3_PRIOR"@.len() == 14);
    assert("EDGE_SE3:QUAT"@.len() == 13);
    assert("EDGE_SE3_TRACKXYZ"@.len() == 17);
    match kind {
        FactorType::Position2D => {
            assert(keyword_of("EDGE_PRIOR_SE2"@) == Some(Keyword::Edge(FactorType::Position2D)));
        },
        FactorType::Odometry2D => {
            assert("EDGE_SE2"@ != "EDGE_PRIOR_SE2"@);
            assert(keyword_of("EDGE_SE2"@) == Some(Keyword::Edge(FactorType::Odometry2D)));
        },
        FactorType::Observation2D => {
            assert("EDGE_SE2_XY"@ != "EDGE_PRIOR_SE2"@);
            assert("EDGE_SE2_XY"@ != "EDGE_SE2"@);
            assert(keyword_of("EDGE_SE2_XY"@) == Some(Keyword::Edge(FactorType::Observation2D)));
        },
        FactorType::Position3D => {
            assert("EDGE_SE3_PRIOR"@ != "EDGE_PRIOR_SE2"@);
            assert("EDGE_SE3_PRIOR"@ != "EDGE_SE2"@);
            assert("EDGE_SE3_PRIOR"@ != "EDGE_SE2_XY"@);
            assert(keyword_of("EDGE_SE3_PRIOR"@) == Some(Keyword::Edge(FactorType::Position3D)));
        },
        FactorType::Odometry3D => {
            assert("EDGE_SE3:QUAT"@ != "EDGE_PRIOR_SE2"@);
            assert("EDGE_SE3:QUAT"@ != "EDGE_SE2"@);
            assert("EDGE_SE3:QUAT"@ != "EDGE_SE2_XY"@);
            assert("EDGE_SE3:QUAT"@ != "EDGE_SE3_PRIOR"@);
            assert(keyword_of("EDGE_SE3:QUAT"@) == Some(Keyword::Edge(FactorType::Odometry3D)));
        },
        FactorType::Observation3D => {
            assert("EDGE_SE3_TRACKXYZ"@ != "EDGE_PRIOR_SE2"@);
            assert("EDGE_SE3_TRACKXYZ"@ != "EDGE_SE2"@);
            assert("EDGE_SE3_TRACKXYZ"@ != "EDGE_SE2_XY"@);
            assert("EDGE_SE3_TRACKXYZ"@ != "EDGE_SE3_PRIOR"@);
            assert("EDGE_SE3_TRACKXYZ"@ != "EDGE_SE3:QUAT"@);
            assert(keyword_of("EDGE_SE3_TRACKXYZ"@) == Some(
                Keyword::Edge(FactorType::Observation3D),
            ));
        },
    }
    assert("EDGE_PRIOR_SE2"@[0] == 'E');
    assert("EDGE_SE2"@[0] == 'E');
    assert("EDGE_SE2_XY"@[0] == 'E');
    assert("EDGE_SE3_PRIOR"@[0] == 'E');
    assert("EDGE_SE3:QUAT"@[0] == 'E');
    assert("EDGE_SE3_TRACKXYZ"@[0] == 'E');
}

/// The decimal spellings of indices are words, and are read as these indices.
pub proof fn lemma_decimals(indices: Seq<usize>)
    ensures
        are_words(decimals(indices)),
        all_indices(decimals(indices)),
        indices_of(decimals(indices)) == indices,
{
    assert forall|i: int| 0 <= i < indices.len() implies is_word(#[trigger] decimals(indices)[i])
        && parsed_index(decimals(indices)[i]) == Some(indices[i]) by {
        lemma_decimal_word(indices[i] as nat);
        lemma_decimal_parses(indices[i]);
    }
    assert(indices_of(decimals(indices)) =~= indices);
}

/// A vertex that is not fixed is read as it was written: the line that `vertex_text`
/// gives holds the vertex's kind, its identifier and the words of its content.
pub proof fn lemma_vertex_round_trip(
    kind: VariableType,
    id: usize,
    content: Seq<Seq<char>>,
    line: usize,
)
    requires
        content.len() == kind.spec_content_len(),
        are_words(content),
    ensures
        scanned_line(vertex_text(kind, id, content, false), line) == Ok::<RecordView, ParseError>(
            RecordView::Vertex { kind, id, content },
        ),
{
    reveal_strlit(" ");
    assert(" "@ =~= seq![' ']);
    let words = seq![vertex_keyword(kind), decimal(id as nat)] + content;
    let text = vertex_text(kind, id, content, false);
    lemma_vertex_keyword(kind);
    lemma_decimal_word(id as nat);
    lemma_decimal_parses(id);
    assert(are_words(words)) by {
        assert forall|i: int| 0 <= i < words.len() implies is_word(#[trigger] words[i]) by {
            if i >= 2 {
                assert(words[i] == content[i - 2]);
            }
        }
    }
    assert(text.subrange(0, text.len() as int) =~= text);
    lemma_tokens_joined(words, text, 0);
    lemma_joined_first(words, seq![' ']);
    assert(text[0] == vertex_keyword(kind)[0]);
    assert(tokens_of(text) == words);
    assert(words.subrange(2, words.len() as int) =~= content);
    assert(scanned_vertex(kind, words, line) == Ok::<RecordView, ParseError>(
        RecordView::Vertex { kind, id, content },
    ));
}

/// The second line of a fixed vertex fixes that vertex: it holds the vertex's
/// identifier.
pub proof fn lemma_fix_round_trip(id: usize, line: usize)
    ensures
        scanned_line("FIX "@ + decimal(id as nat), line) == Ok::<RecordView, ParseError>(
            RecordView::Fix { ids: seq![id] },
        ),
{
    reveal_strlit(" ");
    reveal_strlit("FIX ");
    reveal_strlit("FIX");
    reveal_strlit("VERTEX_SE2");
    reveal_strlit("VERTEX_XY");
    reveal_strlit("VERTEX_SE3:QUAT");
    reveal_strlit("VERTEX_TRACKXYZ");
    reveal_strlit("EDGE_PRIOR_SE2");
    reveal_strlit("EDGE_SE2");
    reveal_strlit("EDGE_SE2_XY");
    reveal_strlit("EDGE_SE3_PRIOR");
    reveal_strlit("EDGE_SE3:QUAT");
    reveal_strlit("EDGE_SE3_TRACKXYZ");
    let words = seq!["FIX"@, decimal(id as nat)];
    let text = "FIX "@ + decimal(id as nat);
    lemma_decimal_word(id as nat);
    lemma_decimal_parses(id);
    assert(are_words(words));
    lemma_joined_first(words, seq![' ']);
    assert(words.drop_first() =~= seq![decimal(id as nat)]);
    assert(joined(words, seq![' ']) =~= text);
    assert(text.subrange(0, text.len() as int) =~= text);
    lemma_tokens_joined(words, text, 0);
    assert(text[0] == 'F');
    assert(words.subrange(1, 2) =~= seq![decimal(id as nat)]);
    assert(indices_of(words.subrange(1, 2)) =~= seq![id]);
    assert(scanned_fix(words, line) == Ok::<RecordView, ParseError>(
        RecordView::Fix { ids: seq![id] },
    ));
}

/// An edge is read as it was written: the line that `edge_text` gives holds the edge's
/// kind, the identifiers of its vertices, and the words of its restriction and of the
/// upper triangle of its information matrix.
pub proof fn lemma_edge_round_trip(
    kind: FactorType,
    vertices: Seq<usize>,
    restriction: Seq<Seq<char>>,
    upper: Seq<Seq<char>>,
    line: usize,
)
    requires
        vertices.len() == kind.spec_arity(),
        restriction.len() == kind.spec_constraint_len(),
        upper.len() == upper_len(kind.spec_information_dim() as int),
        are_words(restriction),
        are_words(upper),
    ensures
        scanned_line(edge_text(kind, vertices, restriction, upper), line) == Ok::<
            RecordView,
            ParseError,
        >(RecordView::Edge { kind, vertices, restriction, information: upper }),
{
    reveal_strlit(" ");
    reveal_strlit("0");
    assert(" "@ =~= seq![' ']);
    let words = edge_line_words(kind, vertices, restriction, upper);
    let text = edge_text(kind, vertices, restriction, upper);
    let arity = kind.spec_arity() as int;
    let start = restriction_start(kind);
    lemma_edge_keyword(kind);
    lemma_decimals(vertices);
    lemma_upper_len(kind.spec_information_dim() as int);
    assert(is_word("0"@));
    assert(parsed_index("0"@) == Some(0usize)) by {
        assert("0"@ =~= decimal(0));
        lemma_decimal_parses(0);
    }
    assert(words.len() == edge_words(kind));
    assert forall|i: int| 0 <= i < words.len() implies is_word(#[trigger] words[i]) by {
        if 1 <= i < 1 + arity {
            assert(words[i] == decimals(vertices)[i - 1]);
        } else if start <= i < start + restriction.len() {
            assert(words[i] == restriction[i - start]);
        } else if i >= start + restriction.len() {
            assert(words[i] == upper[i - start - restriction.len()]);
        }
    }
    assert(text.subrange(0, text.len() as int) =~= text);
    lemma_tokens_joined(words, text, 0);
    lemma_joined_first(words, seq![' ']);
    assert(text[0] == edge_keyword(kind)[0]);
    assert(words.subrange(1, 1 + arity) =~= decimals(vertices));
    if has_offset(kind) {
        assert(words[1 + arity] == "0"@);
    }
    assert(words.subrange(start, start + kind.spec_constraint_len()) =~= restriction);
    assert(words.subrange(start + kind.spec_constraint_len(), words.len() as int) =~= upper);
    assert(scanned_edge(kind, words, line) == Ok::<RecordView, ParseError>(
        RecordView::Edge { kind, vertices, restriction, information: upper },
    ));
}

/// A vertex as it is written: its kind, its identifier, the words of its content, and
/// whether it is fixed.
pub struct VertexText {
    pub kind: VariableType,
    pub id: usize,
    pub content: Seq<Seq<char>>,
    pub fixed: bool,
}

/// An edge as it is written: its kind, the identifiers of its vertices, and the words of
/// its restriction and of the upper triangle of its information matrix.
pub struct EdgeText {
    pub kind: FactorType,
    pub vertices: Seq<usize>,
    pub restriction: Seq<Seq<char>>,
    pub upper: Seq<Seq<char>>,
}

impl VertexText {
    /// The vertex has as many words of content as its kind asks for.
    pub open spec fn wf(self) -> bool {
        self.content.len() == self.kind.spec_content_len() && are_words(self.content)
    }

    /// The text of the vertex.
    pub open spec fn text(self) -> Seq<char> {
        vertex_text(self.kind, self.id, self.content, self.fixed)
    }

    /// The lines of the vertex: one for the vertex, and for a fixed vertex one that says
    /// so.
    pub open spec fn lines(self) -> Seq<Seq<char>> {
        if self.fixed {
            seq![
                vertex_text(self.kind, self.id, self.content, false),
                "FIX "@ + decimal(self.id as nat),
            ]
        } else {
            seq![vertex_text(self.kind, self.id, self.content, false)]
        }
    }

    /// What the lines of the vertex hold.
    pub open spec fn records(self) -> Seq<RecordView> {
        if self.fixed {
            seq![
                RecordView::Vertex { kind: self.kind, id: self.id, content: self.content },
                RecordView::Fix { ids: seq![self.id] },
            ]
        } else {
            seq![RecordView::Vertex { kind: self.kind, id: self.id, content: self.content }]
        }
    }
}

impl EdgeText {
    /// The edge has as many vertices and words as its kind asks for.
    pub open spec fn wf(self) -> bool {
        &&& self.vertices.len() == self.kind.spec_arity()
        &&& self.restriction.len() == self.kind.spec_constraint_len()
        &&& self.upper.len() == upper_len(self.kind.spec_information_dim() as int)
        &&& are_words(self.restriction)
        &&& are_words(self.upper)
    }

    /// The text of the edge, which is its one line.
    pub open spec fn text(self) -> Seq<char> {
        edge_text(self.kind, self.vertices, self.restriction, self.upper)
    }

    /// What the line of the edge holds.
    pub open spec fn record(self) -> RecordView {
        RecordView::Edge {
            kind: self.kind,
            vertices: self.vertices,
            restriction: self.restriction,
            information: self.upper,
        }
    }
}

/// The texts of some vertices.
pub open spec fn vertex_texts(vertices: Seq<VertexText>) -> Seq<Seq<char>> {
    Seq::new(vertices.len(), |i: int| vertices[i].text())
}

/// The texts of some edges.
pub open spec fn edge_texts(edges: Seq<EdgeText>) -> Seq<Seq<char>> {
    Seq::new(edges.len(), |i: int| edges[i].text())
}

/// What the lines of some edges hold.
pub open spec fn edge_records(edges: Seq<EdgeText>) -> Seq<RecordView> {
    Seq::new(edges.len(), |i: int| edges[i].record())
}

/// The lines of the first `count` vertices.
pub open spec fn vertex_lines(vertices: Seq<VertexText>, count: int) -> Seq<Seq<char>>
    decreases count,
{
    if count <= 0 {
        Seq::empty()
    } else {
        vertex_lines(vertices, count - 1) + vertices[count - 1].lines()
    }
}

/// What the lines of the first `count` vertices hold.
pub open spec fn vertex_records(vertices: Seq<VertexText>, count: int) -> Seq<RecordView>
    decreases count,
{
    if count <= 0 {
        Seq::empty()
    } else {
        vertex_records(vertices, count - 1) + vertices[count - 1].records()
    }
}

/// The line that names the offset, if the graph needs it.
pub open spec fn offset_lines(offset: bool) -> Seq<Seq<char>> {
    if offset {
        seq!["PARAMS_SE3OFFSET 0 0 0 0 0 0 0 1"@]
    } else {
        Seq::empty()
    }
}

/// What the line that names the offset holds: nothing that belongs to the graph.
pub open spec fn offset_records(offset: bool) -> Seq<RecordView> {
    if offset {
        seq![RecordView::Nothing]
    } else {
        Seq::empty()
    }
}

/// The lines of a written graph.
pub open spec fn written_lines(
    offset: bool,
    vertices: Seq<VertexText>,
    edges: Seq<EdgeText>,
) -> Seq<Seq<char>> {
    offset_lines(offset) + vertex_lines(vertices, vertices.len() as int) + edge_texts(edges)
}

/// What the lines of a written graph hold.
pub open spec fn written_records(
    offset: bool,
    vertices: Seq<VertexText>,
    edges: Seq<EdgeText>,
) -> Seq<RecordView> {
    offset_records(offset) + vertex_records(vertices, vertices.len() as int) + edge_records(edges)
}

/// The line that names the offset is a line, and holds nothing that belongs to the
/// graph.
pub proof fn lemma_offset_line(line: usize)
    ensures
        is_line("PARAMS_SE3OFFSET 0 0 0 0 0 0 0 1"@),
        scanned_line("PARAMS_SE3OFFSET 0 0 0 0 0 0 0 1"@, line) == Ok::<RecordView, ParseError>(
            RecordView::Nothing,
        ),
{
    reveal_strlit("PARAMS_SE3OFFSET 0 0 0 0 0 0 0 1");
    reveal_strlit("PARAMS_SE3OFFSET");
    reveal_strlit("0");
    reveal_strlit("1");
    reveal_strlit("FIX");
    reveal_strlit("VERTEX_SE2");
    reveal_strlit("VERTEX_XY");
    reveal_strlit("VERTEX_SE3:QUAT");
    reveal_strlit("VERTEX_TRACKXYZ");
    reveal_strlit("EDGE_PRIOR_SE2");
    reveal_strlit("EDGE_SE2");
    reveal_strlit("EDGE_SE2_XY");
    reveal_strlit("EDGE_SE3_PRIOR");
    reveal_strlit("EDGE_SE3:QUAT");
    reveal_strlit("EDGE_SE3_TRACKXYZ");
    let text = "PARAMS_SE3OFFSET 0 0 0 0 0 0 0 1"@;
    let zero = "0"@;
    let head = seq!["PARAMS_SE3OFFSET"@, zero, zero, zero];
    let tail = seq![zero, zero, zero, zero, "1"@];
    let words = head + tail;
    assert(is_word("PARAMS_SE3OFFSET"@));
    assert(is_word(zero));
    assert(is_word("1"@));
    assert(are_words(words));
    assert(joined(words, seq![' ']) =~= text) by {
        reveal_with_fuel(joined, 10);
    }
    assert(text.subrange(0, text.len() as int) =~= text);
    lemma_tokens_joined(words, text, 0);
    assert(tokens_of(text)[0] == "PARAMS_SE3OFFSET"@);
    assert("PARAMS_SE3OFFSET"@.len() == 16);
    assert("PARAMS_SE3OFFSET"@[0] == 'P');
    assert("VERTEX_SE2"@[0] == 'V');
    assert("VERTEX_XY"@[0] == 'V');
    assert("VERTEX_SE3:QUAT"@[0] == 'V');
    assert("VERTEX_TRACKXYZ"@[0] == 'V');
    assert("EDGE_PRIOR_SE2"@[0] == 'E');
    assert("EDGE_SE2"@[0] == 'E');
    assert("EDGE_SE2_XY"@[0] == 'E');
    assert("EDGE_SE3_PRIOR"@[0] == 'E');
    assert("EDGE_SE3:QUAT"@[0] == 'E');
    assert("EDGE_SE3_TRACKXYZ"@[0] == 'E');
    assert("FIX"@[0] == 'F');
    assert(keyword_of("PARAMS_SE3OFFSET"@) == Some(Keyword::Offset));
    assert(text[0] == 'P');
}

/// The lines of a vertex are lines, hold what `records` says, and joined they are the
/// vertex's text.
pub proof fn lemma_vertex_lines(vertex: VertexText, line: usize)
    requires
        vertex.wf(),
        line < usize::MAX,
    ensures
        are_lines(vertex.lines()),
        vertex.lines().len() == vertex.records().len(),
        joined(vertex.lines(), seq!['\n']) == vertex.text(),
        scanned_line(vertex.lines()[0], line) == Ok::<RecordView, ParseError>(vertex.records()[0]),
        vertex.fixed ==> scanned_line(vertex.lines()[1], (line + 1) as usize) == Ok::<
            RecordView,
            ParseError,
        >(vertex.records()[1]),
{
    reveal_strlit(" ");
    reveal_strlit("FIX ");
    reveal_strlit("\nFIX ");
    assert(" "@ =~= seq![' ']);
    let words = seq![vertex_keyword(vertex.kind), decimal(vertex.id as nat)] + vertex.content;
    let first = vertex_text(vertex.kind, vertex.id, vertex.content, false);
    lemma_vertex_keyword(vertex.kind);
    lemma_decimal_word(vertex.id as nat);
    assert(are_words(words)) by {
        assert forall|i: int| 0 <= i < words.len() implies is_word(#[trigger] words[i]) by {
            if i >= 2 {
                assert(words[i] == vertex.content[i - 2]);
            }
        }
    }
    lemma_words_make_line(words);
    lemma_vertex_round_trip(vertex.kind, vertex.id, vertex.content, line);
    if vertex.fixed {
        let second = "FIX "@ + decimal(vertex.id as nat);
        lemma_fix_round_trip(vertex.id, (line + 1) as usize);
        assert(is_line(second)) by {
            assert forall|i: int| 0 <= i < second.len() implies #[trigger] second[i] != '\n' by {
                if i >= 4 {
                    assert(second[i] == decimal(vertex.id as nat)[i - 4]);
                    assert(!is_space(decimal(vertex.id as nat)[i - 4]));
                    assert(is_space('\n'));
                }
            }
        }
        let lines = vertex.lines();
        assert(lines.drop_last() =~= seq![first]);
        assert(joined(lines.drop_last(), seq!['\n']) == first);
        assert("\nFIX "@ =~= seq!['\n'] + "FIX "@);
        assert(joined(lines, seq!['\n']) =~= vertex.text());
    }
}

/// The line of an edge is a line.
pub proof fn lemma_edge_line(edge: EdgeText)
    requires
        edge.wf(),
    ensures
        is_line(edge.text()),
{
    reveal_strlit(" ");
    reveal_strlit("0");
    assert(" "@ =~= seq![' ']);
    let words = edge_line_words(edge.kind, edge.vertices, edge.restriction, edge.upper);
    let arity = edge.kind.spec_arity() as int;
    let start = restriction_start(edge.kind);
    lemma_edge_keyword(edge.kind);
    lemma_decimals(edge.vertices);
    assert(is_word("0"@));
    assert forall|i: int| 0 <= i < words.len() implies is_word(#[trigger] words[i]) by {
        if 1 <= i < 1 + arity {
            assert(words[i] == decimals(edge.vertices)[i - 1]);
        } else if start <= i < start + edge.restriction.len() {
            assert(words[i] == edge.restriction[i - start]);
        } else if i >= start + edge.restriction.len() {
            assert(words[i] == edge.upper[i - start - edge.restriction.len()]);
        }
    }
    lemma_words_make_line(words);
}

/// Lines that each hold a record hold these records together.
pub proof fn lemma_scan_lines(lines: Seq<Seq<char>>, records: Seq<RecordView>, count: int)
    requires
        0 <= count <= lines.len(),
        lines.len() == records.len(),
        lines.len() <= usize::MAX,
        forall|k: int|
            0 <= k < lines.len() ==> scanned_line(#[trigger] lines[k], (k + 1) as usize) == Ok::<
                RecordView,
                ParseError,
            >(records[k]),
    ensures
        scanned_upto(lines, count) == Ok::<Seq<RecordView>, ParseError>(records.take(count)),
    decreases count,
{
    if count > 0 {
        lemma_scan_lines(lines, records, count - 1);
        assert(records.take(count) =~= records.take(count - 1).push(records[count - 1]));
    } else {
        assert(records.take(count) =~= Seq::<RecordView>::empty());
    }
}

/// Joining texts does not change where a part of them is replaced by texts that are
/// joined to the same.
pub proof fn lemma_joined_middle(
    before: Seq<Seq<char>>,
    first: Seq<Seq<char>>,
    second: Seq<Seq<char>>,
    after: Seq<Seq<char>>,
    separator: Seq<char>,
)
    requires
        joined(first, separator) == joined(second, separator),
        first.len() > 0 <==> second.len() > 0,
    ensures
        joined(before + first + after, separator) == joined(before + second + after, separator),
{
    if first.len() == 0 {
        assert(before + first + after =~= before + second + after);
    } else {
        if before.len() > 0 {
            lemma_joined_concat(before, first, separator);
            lemma_joined_concat(before, second, separator);
        } else {
            assert(before + first =~= first);
            assert(before + second =~= second);
        }
        if after.len() > 0 {
            lemma_joined_concat(before + first, after, separator);
            lemma_joined_concat(before + second, after, separator);
        } else {
            assert(before + first + after =~= before + first);
            assert(before + second + after =~= before + second);
        }
    }
}

/// What holds of the lines of the first `count` vertices, if the first of them has the
/// number `base + 1`.
proof fn lemma_vertices_lines(vertices: Seq<VertexText>, count: int, base: int)
    requires
        0 <= count <= vertices.len(),
        forall|i: int| 0 <= i < vertices.len() ==> (#[trigger] vertices[i]).wf(),
        0 <= base,
        base + vertex_lines(vertices, count).len() < usize::MAX,
    ensures
        are_lines(vertex_lines(vertices, count)),
        vertex_lines(vertices, count).len() == vertex_records(vertices, count).len(),
        vertex_lines(vertices, count).len() >= count,
        joined(vertex_lines(vertices, count), seq!['\n']) == joined(
            vertex_texts(vertices).take(count),
            seq!['\n'],
        ),
        forall|k: int|
            0 <= k < vertex_lines(vertices, count).len() ==> scanned_line(
                #[trigger] vertex_lines(vertices, count)[k],
                (base + k + 1) as usize,
            ) == Ok::<RecordView, ParseError>(vertex_records(vertices, count)[k]),
    decreases count,
{
    let texts = vertex_texts(vertices);
    if count > 0 {
        let earlier = vertex_lines(vertices, count - 1);
        let vertex = vertices[count - 1];
        let lines = vertex_lines(vertices, count);
        let records = vertex_records(vertices, count);
        assert(lines == earlier + vertex.lines());
        assert(lines.len() == earlier.len() + vertex.lines().len());
        lemma_vertices_lines(vertices, count - 1, base);
        let number = (base + earlier.len() + 1) as usize;
        lemma_vertex_lines(vertex, number);
        assert(are_lines(lines)) by {
            assert forall|k: int| 0 <= k < lines.len() implies is_line(#[trigger] lines[k]) by {
                if k < earlier.len() {
                    assert(lines[k] == earlier[k]);
                } else {
                    assert(lines[k] == vertex.lines()[k - earlier.len()]);
                }
            }
        }
        assert forall|k: int| 0 <= k < lines.len() implies scanned_line(
            #[trigger] lines[k],
            (base + k + 1) as usize,
        ) == Ok::<RecordView, ParseError>(records[k]) by {
            if k < earlier.len() {
                assert(lines[k] == earlier[k]);
                assert(records[k] == vertex_records(vertices, count - 1)[k]);
            } else {
                assert(lines[k] == vertex.lines()[k - earlier.len()]);
                assert(records[k] == vertex.records()[k - earlier.len()]);
            }
        }
        let front = texts.take(count - 1);
        assert(texts.take(count) =~= front + seq![vertex.text()]);
        assert(joined(seq![vertex.text()], seq!['\n']) == vertex.text());
        if count > 1 {
            lemma_joined_concat(front, seq![vertex.text()], seq!['\n']);
            lemma_joined_concat(earlier, vertex.lines(), seq!['\n']);
        } else {
            assert(front + seq![vertex.text()] =~= seq![vertex.text()]);
            assert(earlier + vertex.lines() =~= vertex.lines());
        }
    } else {
        assert(texts.take(count) =~= Seq::<Seq<char>>::empty());
    }
}

/// A graph is read as it was written.
///
/// The text of a graph, as `graph_text` gives it for the texts of the graph's vertices
/// and edges, has the lines of `written_lines`, and these hold the records of
/// `written_records`: nothing for the offset, each vertex with its kind, its identifier
/// and the words of its content, behind each fixed vertex its identifier as one that is
/// fixed, and each edge with its kind, its vertices and the words of its restriction and
/// of the upper triangle of its information matrix.
pub proof fn lemma_graph_round_trip(offset: bool, vertices: Seq<VertexText>, edges: Seq<EdgeText>)
    requires
        forall|i: int| 0 <= i < vertices.len() ==> (#[trigger] vertices[i]).wf(),
        forall|i: int| 0 <= i < edges.len() ==> (#[trigger] edges[i]).wf(),
        offset || vertices.len() + edges.len() > 0,
        written_lines(offset, vertices, edges).len() < usize::MAX,
    ensures
        lines_of(graph_text(offset, vertex_texts(vertices), edge_texts(edges))) == written_lines(
            offset,
            vertices,
            edges,
        ),
        scanned_upto(
            written_lines(offset, vertices, edges),
            written_lines(offset, vertices, edges).len() as int,
        ) == Ok::<Seq<RecordView>, ParseError>(written_records(offset, vertices, edges)),
{
    reveal_strlit("\n");
    assert("\n"@ =~= seq!['\n']);
    let count = vertices.len() as int;
    let head = offset_lines(offset);
    let middle = vertex_lines(vertices, count);
    let tail = edge_texts(edges);
    let lines = written_lines(offset, vertices, edges);
    let records = written_records(offset, vertices, edges);
    let text = graph_text(offset, vertex_texts(vertices), edge_texts(edges));
    let base = head.len() as int;
    assert(lines.len() == head.len() + middle.len() + tail.len());
    lemma_vertices_lines(vertices, count, base);
    assert(vertex_texts(vertices).take(count) =~= vertex_texts(vertices));
    lemma_joined_middle(head, vertex_texts(vertices), middle, tail, seq!['\n']);
    assert(text == joined(lines, seq!['\n']));
    assert forall|k: int| 0 <= k < lines.len() implies is_line(#[trigger] lines[k])
        && scanned_line(lines[k], (k + 1) as usize) == Ok::<RecordView, ParseError>(records[k]) by {
        if k < head.len() {
            lemma_offset_line((k + 1) as usize);
            assert(lines[k] == head[k]);
            assert(records[k] == offset_records(offset)[k]);
        } else if k < head.len() + middle.len() {
            assert(lines[k] == middle[k - base]);
            assert(records[k] == vertex_records(vertices, count)[k - base]);
        } else {
            let e = k - base - middle.len();
            assert(lines[k] == tail[e]);
            assert(records[k] == edge_records(edges)[e]);
            lemma_edge_line(edges[e]);
            lemma_edge_round_trip(
                edges[e].kind,
                edges[e].vertices,
                edges[e].restriction,
                edges[e].upper,
                (k + 1) as usize,
            );
        }
    }
    assert(text.subrange(0, text.len() as int) =~= text);
    lemma_lines_joined(lines, text, 0);
    lemma_scan_lines(lines, records, lines.len() as int);
    assert(records.take(lines.len() as int) =~= records);
}

} // verus!
