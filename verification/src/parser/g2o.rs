//! The G2O text format.

use crate::factor_graph::factor::FactorType;
use crate::factor_graph::variable::VariableType;
use crate::parser::model::{
    edge_views, factor_type_name, variable_type_name, vertex_views, Edge, EdgeView,
    FactorGraphModel, ModelView, Vertex, VertexView,
};
use crate::parser::NumberText;
use crate::text::{
    chars_are, chars_of, decimal, index_chars, join, joined, lines_of, parse_index, parsed_index,
    split_lines, split_tokens, string_of, strings_of, tokens_of,
};
use std::collections::BTreeSet;
use vstd::prelude::*;

verus! {

/// Reads and writes factor graphs in the G2O text format.
pub struct G2oParser;

/// Why a text is no factor graph in the G2O format. Each reason names the line that it is
/// about; the first line has the number one.
#[derive(Debug, Clone, Copy, PartialEq, Eq, Structural)]
pub enum ParseError {
    /// The line starts with a word that is no keyword of the format.
    UnknownKeyword(usize),
    /// The line has more or fewer words than its keyword asks for.
    WrongTokenCount { line: usize, expected: usize, actual: usize },
    /// A word of the line that should be a number is none.
    InvalidNumber(usize),
    /// The line fixes no vertex.
    EmptyFix(usize),
    /// The edge is measured against another offset than the one with index zero.
    UnsupportedOffset(usize),
}

/// What a line of the format is about.
#[derive(Debug, Clone, Copy, PartialEq, Eq, Structural)]
pub enum Keyword {
    Vertex(VariableType),
    Edge(FactorType),
    Fix,
    Offset,
}

/// What a line of the format holds. Scalars are held as the words that spell them.
#[derive(Debug)]
pub enum Record {
    /// Nothing that belongs to the graph: the line is blank, a comment, or names the
    /// offset.
    Nothing,
    /// A vertex: its kind, its identifier and its content.
    Vertex { kind: VariableType, id: usize, content: Vec<Vec<char>> },
    /// An edge: its kind, the identifiers of its vertices, its restriction, and the upper
    /// triangle of its information matrix, row by row.
    Edge {
        kind: FactorType,
        vertices: Vec<usize>,
        restriction: Vec<Vec<char>>,
        information: Vec<Vec<char>>,
    },
    /// The identifiers of vertices that are fixed.
    Fix { ids: Vec<usize> },
}

/// What a record holds.
#[verifier::ext_equal]
pub enum RecordView {
    Nothing,
    Vertex { kind: VariableType, id: usize, content: Seq<Seq<char>> },
    Edge {
        kind: FactorType,
        vertices: Seq<usize>,
        restriction: Seq<Seq<char>>,
        information: Seq<Seq<char>>,
    },
    Fix { ids: Seq<usize> },
}

/// What each of some words holds.
pub open spec fn words_of(words: Seq<Vec<char>>) -> Seq<Seq<char>> {
    Seq::new(words.len(), |i: int| words[i]@)
}

impl View for Record {
    type V = RecordView;

    open spec fn view(&self) -> RecordView {
        match *self {
            Record::Nothing => RecordView::Nothing,
            Record::Vertex { kind, id, content } => RecordView::Vertex {
                kind,
                id,
                content: words_of(content@),
            },
            Record::Edge { kind, vertices, restriction, information } => RecordView::Edge {
                kind,
                vertices: vertices@,
                restriction: words_of(restriction@),
                information: words_of(information@),
            },
            Record::Fix { ids } => RecordView::Fix { ids: ids@ },
        }
    }
}

/// Whether each of some words spells an index.
pub open spec fn all_indices(words: Seq<Seq<char>>) -> bool {
    forall|i: int| 0 <= i < words.len() ==> parsed_index(#[trigger] words[i]) is Some
}

/// The indices that some words spell.
pub open spec fn indices_of(words: Seq<Seq<char>>) -> Seq<usize> {
    Seq::new(words.len(), |i: int| parsed_index(words[i])->0)
}

/// What a line that starts with the keyword of a vertex holds.
pub open spec fn scanned_vertex(kind: VariableType, tokens: Seq<Seq<char>>, line: usize) -> Result<
    RecordView,
    ParseError,
> {
    if tokens.len() != vertex_words(kind) {
        Err(
            ParseError::WrongTokenCount {
                line,
                expected: vertex_words(kind) as usize,
                actual: tokens.len() as usize,
            },
        )
    } else {
        match parsed_index(tokens[1]) {
            None => Err(ParseError::InvalidNumber(line)),
            Some(id) => Ok(
                RecordView::Vertex { kind, id, content: tokens.subrange(2, tokens.len() as int) },
            ),
        }
    }
}

/// The position of the first word of an edge's restriction.
pub open spec fn restriction_start(kind: FactorType) -> int {
    1 + kind.spec_arity() + if has_offset(kind) {
        1int
    } else {
        0int
    }
}

/// What a line that starts with the keyword of an edge holds.
pub open spec fn scanned_edge(kind: FactorType, tokens: Seq<Seq<char>>, line: usize) -> Result<
    RecordView,
    ParseError,
> {
    let arity = kind.spec_arity() as int;
    let start = restriction_start(kind);
    if tokens.len() != edge_words(kind) {
        Err(
            ParseError::WrongTokenCount {
                line,
                expected: edge_words(kind) as usize,
                actual: tokens.len() as usize,
            },
        )
    } else if !all_indices(tokens.subrange(1, 1 + arity)) {
        Err(ParseError::InvalidNumber(line))
    } else if has_offset(kind) && parsed_index(tokens[1 + arity]) != Some(0usize) {
        Err(ParseError::UnsupportedOffset(line))
    } else {
        Ok(
            RecordView::Edge {
                kind,
                vertices: indices_of(tokens.subrange(1, 1 + arity)),
                restriction: tokens.subrange(start, start + kind.spec_constraint_len()),
                information: tokens.subrange(
                    start + kind.spec_constraint_len(),
                    tokens.len() as int,
                ),
            },
        )
    }
}

/// What a line that starts with the keyword `FIX` holds.
pub open spec fn scanned_fix(tokens: Seq<Seq<char>>, line: usize) -> Result<RecordView, ParseError> {
    if tokens.len() <= 1 {
        Err(ParseError::EmptyFix(line))
    } else if !all_indices(tokens.subrange(1, tokens.len() as int)) {
        Err(ParseError::InvalidNumber(line))
    } else {
        Ok(RecordView::Fix { ids: indices_of(tokens.subrange(1, tokens.len() as int)) })
    }
}

/// What a line holds. A line without words holds nothing, and neither does a comment, a
/// line that starts with `#`.
pub open spec fn scanned_line(line: Seq<char>, number: usize) -> Result<RecordView, ParseError> {
    let tokens = tokens_of(line);
    if tokens.len() == 0 || (line.len() > 0 && line[0] == '#') {
        Ok(RecordView::Nothing)
    } else {
        match keyword_of(tokens[0]) {
            None => Err(ParseError::UnknownKeyword(number)),
            Some(Keyword::Vertex(kind)) => scanned_vertex(kind, tokens, number),
            Some(Keyword::Edge(kind)) => scanned_edge(kind, tokens, number),
            Some(Keyword::Fix) => scanned_fix(tokens, number),
            Some(Keyword::Offset) => Ok(RecordView::Nothing),
        }
    }
}

/// Whether the spelling answered `answer` when it was asked for the number that a word
/// spells.
pub open spec fn spelled<T: NumberText>(numbers: &T, word: Seq<char>, answer: Option<u64>) -> bool {
    exists|text: &str| text@ == word && #[trigger] call_ensures(T::parse, (numbers, text), answer)
}

/// Whether the numbers are what the spelling answered for the words, one for each in
/// their order.
pub open spec fn all_spelled<T: NumberText>(
    numbers: &T,
    words: Seq<Seq<char>>,
    values: Seq<u64>,
) -> bool {
    &&& values.len() == words.len()
    &&& forall|i: int|
        0 <= i < words.len() ==> spelled(numbers, #[trigger] words[i], Some(values[i]))
}

/// Whether a word is one of those of a record that should spell a number.
pub open spec fn number_word(record: RecordView, word: Seq<char>) -> bool {
    match record {
        RecordView::Vertex { content, .. } => content.contains(word),
        RecordView::Edge { restriction, information, .. } => restriction.contains(word)
            || information.contains(word),
        _ => false,
    }
}

/// Whether the spelling knows no number for a word of a record that should spell one.
pub open spec fn misspelled<T: NumberText>(numbers: &T, record: RecordView) -> bool {
    exists|word: Seq<char>| #[trigger]
        number_word(record, word) && spelled(numbers, word, None::<u64>)
}

/// A vertex is what was read of a record: what the record describes, with the numbers
/// that the spelling answered for the words of the record's content.
pub open spec fn vertex_read<T: NumberText>(
    numbers: &T,
    vertex: VertexView,
    record: RecordView,
) -> bool {
    vertex_matches(vertex, record) && all_spelled(numbers, record->Vertex_content, vertex.content)
}

/// An edge is what was read of a record: what the record describes, with the numbers
/// that the spelling answered for the words of the record's restriction, and with the
/// full symmetric information matrix whose upper triangle, row by row, holds the
/// numbers that the spelling answered for the record's words of it.
pub open spec fn edge_read<T: NumberText>(numbers: &T, edge: EdgeView, record: RecordView) -> bool {
    let dim = record->Edge_kind.spec_information_dim() as int;
    &&& edge_matches(edge, record)
    &&& all_spelled(numbers, record->Edge_restriction, edge.restriction)
    &&& record->Edge_information.len() == upper_len(dim)
    &&& forall|i: int, j: int|
        0 <= i < dim && 0 <= j < dim ==> spelled(
            numbers,
            record->Edge_information[upper_index(dim, i, j)],
            Some(#[trigger] edge.information_matrix[i * dim + j]),
        )
}

/// A model is what was read of records: their vertices and their edges, each in the
/// order of the records and with the numbers that the spelling answered, and the
/// vertices that they fix.
pub open spec fn model_read<T: NumberText>(
    numbers: &T,
    model: ModelView,
    records: Seq<RecordView>,
) -> bool {
    let vertices = vertices_in(records, records.len() as int);
    let edges = edges_in(records, records.len() as int);
    &&& model.vertices.len() == vertices.len()
    &&& forall|i: int|
        0 <= i < vertices.len() ==> vertex_read(numbers, #[trigger] model.vertices[i], vertices[i])
    &&& model.edges.len() == edges.len()
    &&& forall|i: int|
        0 <= i < edges.len() ==> edge_read(numbers, #[trigger] model.edges[i], edges[i])
    &&& model.fixed_vertices == fixed_in(records, records.len() as int)
}

/// What the first `count` lines hold, or the reason why the first of them that holds no
/// record holds none. The first line has the number one.
pub open spec fn scanned_upto(lines: Seq<Seq<char>>, count: int) -> Result<
    Seq<RecordView>,
    ParseError,
>
    decreases count,
{
    if count <= 0 {
        Ok(Seq::empty())
    } else {
        match scanned_upto(lines, count - 1) {
            Err(error) => Err(error),
            Ok(records) => match scanned_line(lines[count - 1], count as usize) {
                Err(error) => Err(error),
                Ok(record) => Ok(records.push(record)),
            },
        }
    }
}

/// The vertices among the first `count` records, in their order.
pub open spec fn vertices_in(records: Seq<RecordView>, count: int) -> Seq<RecordView>
    decreases count,
{
    if count <= 0 {
        Seq::empty()
    } else if records[count - 1] is Vertex {
        vertices_in(records, count - 1).push(records[count - 1])
    } else {
        vertices_in(records, count - 1)
    }
}

/// The edges among the first `count` records, in their order.
pub open spec fn edges_in(records: Seq<RecordView>, count: int) -> Seq<RecordView>
    decreases count,
{
    if count <= 0 {
        Seq::empty()
    } else if records[count - 1] is Edge {
        edges_in(records, count - 1).push(records[count - 1])
    } else {
        edges_in(records, count - 1)
    }
}

/// The identifiers that the first `count` records fix.
pub open spec fn fixed_in(records: Seq<RecordView>, count: int) -> Set<usize>
    decreases count,
{
    if count <= 0 {
        Set::empty()
    } else if records[count - 1] is Fix {
        fixed_in(records, count - 1).union(records[count - 1]->ids.to_set())
    } else {
        fixed_in(records, count - 1)
    }
}

/// A vertex of a model is what a record describes: it has the record's identifier and
/// kind, and a scalar for each word of the record's content.
pub open spec fn vertex_matches(vertex: VertexView, record: RecordView) -> bool {
    &&& record is Vertex
    &&& vertex.id == record->Vertex_id
    &&& vertex.vertex_type == variable_type_name(record->Vertex_kind)
    &&& vertex.content.len() == record->Vertex_content.len()
}

/// Whether the scalars are a symmetric matrix of `dim` rows.
pub open spec fn is_symmetric(matrix: Seq<u64>, dim: int) -> bool {
    &&& matrix.len() == dim * dim
    &&& forall|i: int, j: int|
        0 <= i < dim && 0 <= j < dim ==> #[trigger] matrix[i * dim + j] == matrix[j * dim + i]
}

/// An edge of a model is what a record describes: it has the record's kind and vertices,
/// a scalar for each word of the record's restriction, and a full symmetric information
/// matrix.
pub open spec fn edge_matches(edge: EdgeView, record: RecordView) -> bool {
    &&& record is Edge
    &&& edge.edge_type == factor_type_name(record->Edge_kind)
    &&& edge.vertices == record->Edge_vertices
    &&& edge.restriction.len() == record->Edge_restriction.len()
    &&& is_symmetric(edge.information_matrix, record->Edge_kind.spec_information_dim() as int)
}

/// Why a model cannot be written in the G2O format. Each reason names the vertex or the
/// edge that it is about by its position in the model.
#[derive(Debug, Clone, Copy, PartialEq, Eq, Structural)]
pub enum ComposeError {
    /// The vertex's type is none of the four that there are.
    UnsupportedVertexType(usize),
    /// The edge's type is none of the six that there are.
    UnsupportedEdgeType(usize),
    /// The edge's information matrix has fewer scalars than a matrix of its type.
    EdgeShape(usize),
}

/// The decimal spellings of some indices.
pub open spec fn decimals(indices: Seq<usize>) -> Seq<Seq<char>> {
    Seq::new(indices.len(), |i: int| decimal(indices[i] as nat))
}

/// The text of a vertex: its keyword, its identifier and its content, with a space
/// between each two; and for a fixed vertex a second line that says so.
pub open spec fn vertex_text(kind: VariableType, id: usize, content: Seq<Seq<char>>, fixed: bool) -> Seq<
    char,
> {
    let line = joined(seq![vertex_keyword(kind), decimal(id as nat)] + content, " "@);
    if fixed {
        line + "\nFIX "@ + decimal(id as nat)
    } else {
        line
    }
}

/// The words of the line of an edge: its keyword, the identifiers of its vertices, the
/// index zero of the offset where the kind has one, its restriction, and the upper
/// triangle of its information matrix.
pub open spec fn edge_line_words(
    kind: FactorType,
    vertices: Seq<usize>,
    restriction: Seq<Seq<char>>,
    upper: Seq<Seq<char>>,
) -> Seq<Seq<char>> {
    seq![edge_keyword(kind)] + decimals(vertices) + (if has_offset(kind) {
        seq!["0"@]
    } else {
        Seq::<Seq<char>>::empty()
    }) + restriction + upper
}

/// The text of an edge: the words of its line with a space between each two.
pub open spec fn edge_text(
    kind: FactorType,
    vertices: Seq<usize>,
    restriction: Seq<Seq<char>>,
    upper: Seq<Seq<char>>,
) -> Seq<char> {
    joined(edge_line_words(kind, vertices, restriction, upper), " "@)
}

/// Whether the spelling answered a word that holds `word` when it was asked for the word
/// that spells a number.
pub open spec fn written<T: NumberText>(numbers: &T, number: u64, word: Seq<char>) -> bool {
    exists|text: String| text@ == word && #[trigger] call_ensures(T::format, (numbers, number), text)
}

/// Whether the words are what the spelling answered for the numbers, one for each in
/// their order.
pub open spec fn all_written<T: NumberText>(
    numbers: &T,
    values: Seq<u64>,
    words: Seq<Seq<char>>,
) -> bool {
    &&& words.len() == values.len()
    &&& forall|i: int| 0 <= i < values.len() ==> written(numbers, values[i], #[trigger] words[i])
}

/// Whether the words are what the spelling answered for the upper triangle, row by row,
/// of a matrix of `dim` rows that is held row by row.
pub open spec fn upper_written<T: NumberText>(
    numbers: &T,
    matrix: Seq<u64>,
    dim: int,
    words: Seq<Seq<char>>,
) -> bool {
    &&& words.len() == upper_len(dim)
    &&& forall|i: int, j: int|
        0 <= i <= j < dim ==> written(
            numbers,
            matrix[i * dim + j],
            #[trigger] words[upper_index(dim, i, j)],
        )
}

/// Whether a text is that of a vertex whose type is one of the four, with its content
/// spelled as the spelling answers.
pub open spec fn vertex_written<T: NumberText>(
    numbers: &T,
    vertex: VertexView,
    fixed: bool,
    text: Seq<char>,
) -> bool {
    exists|content: Seq<Seq<char>>|
        all_written(numbers, vertex.content, content) && text == #[trigger] vertex_text(
            crate::parser::model::variable_type_named(vertex.vertex_type)->0,
            vertex.id,
            content,
            fixed,
        )
}

/// Whether a text is that of an edge whose type is one of the six, with its restriction
/// and the upper triangle of its information matrix spelled as the spelling answers.
pub open spec fn edge_written<T: NumberText>(numbers: &T, edge: EdgeView, text: Seq<char>) -> bool {
    let kind = crate::parser::model::factor_type_named(edge.edge_type)->0;
    exists|restriction: Seq<Seq<char>>, upper: Seq<Seq<char>>|
        all_written(numbers, edge.restriction, restriction) && upper_written(
            numbers,
            edge.information_matrix,
            kind.spec_information_dim() as int,
            upper,
        ) && text == #[trigger] edge_text(kind, edge.vertices, restriction, upper)
}

/// Whether a text is that of a model, with the model's numbers spelled as the spelling
/// answers: the text that `graph_text` gives for the texts of the model's vertices and
/// edges, each in the model's order.
pub open spec fn model_written<T: NumberText>(numbers: &T, model: ModelView, text: Seq<char>) -> bool {
    exists|vertices: Seq<Seq<char>>, edges: Seq<Seq<char>>|
        {
            &&& vertices.len() == model.vertices.len()
            &&& forall|i: int|
                0 <= i < vertices.len() ==> vertex_written(
                    numbers,
                    model.vertices[i],
                    model.fixed_vertices.contains(model.vertices[i].id),
                    #[trigger] vertices[i],
                )
            &&& edges.len() == model.edges.len()
            &&& forall|i: int|
                0 <= i < edges.len() ==> edge_written(numbers, model.edges[i], #[trigger] edges[i])
            &&& text == #[trigger] graph_text(
                names_offset(model.edges, model.edges.len() as int),
                vertices,
                edges,
            )
        }
}

/// Whether one of the first `count` edges is measured against the offset.
pub open spec fn names_offset(edges: Seq<EdgeView>, count: int) -> bool {
    exists|i: int|
        0 <= i < count && i < edges.len() && ((#[trigger] edges[i]).edge_type == "Position3D"@
            || edges[i].edge_type == "Observation3D"@)
}

/// The text of a graph: the line that names the offset, if the graph needs it, then the
/// texts of the vertices and then those of the edges, each on a line of its own.
pub open spec fn graph_text(offset: bool, vertices: Seq<Seq<char>>, edges: Seq<Seq<char>>) -> Seq<
    char,
> {
    joined(
        (if offset {
            seq!["PARAMS_SE3OFFSET 0 0 0 0 0 0 0 1"@]
        } else {
            Seq::<Seq<char>>::empty()
        }) + vertices + edges,
        "\n"@,
    )
}

/// What `compose_model_to_string` answers for the first `count` vertices: the first of
/// them that cannot be written, if there is one.
pub open spec fn vertices_error(model: ModelView, count: int) -> Option<ComposeError>
    decreases count,
{
    if count <= 0 {
        None
    } else {
        match vertices_error(model, count - 1) {
            Some(error) => Some(error),
            None => if crate::parser::model::variable_type_named(
                model.vertices[count - 1].vertex_type,
            ) is None {
                Some(ComposeError::UnsupportedVertexType((count - 1) as usize))
            } else {
                None
            },
        }
    }
}

/// Why an edge at position `at` of a model cannot be written, if it cannot.
pub open spec fn edge_error(edge: EdgeView, at: usize) -> Option<ComposeError> {
    match crate::parser::model::factor_type_named(edge.edge_type) {
        None => Some(ComposeError::UnsupportedEdgeType(at)),
        Some(kind) => if edge.information_matrix.len() < kind.spec_information_dim()
            * kind.spec_information_dim() {
            Some(ComposeError::EdgeShape(at))
        } else {
            None
        },
    }
}

/// What `compose_model_to_string` answers for the first `count` edges: the first of them
/// that cannot be written, if there is one.
pub open spec fn edges_error(model: ModelView, count: int) -> Option<ComposeError>
    decreases count,
{
    if count <= 0 {
        None
    } else {
        match edges_error(model, count - 1) {
            Some(error) => Some(error),
            None => edge_error(model.edges[count - 1], (count - 1) as usize),
        }
    }
}

/// Why a model cannot be written, if it cannot: the first vertex that cannot, or else the
/// first edge.
pub open spec fn compose_error(model: ModelView) -> Option<ComposeError> {
    match vertices_error(model, model.vertices.len() as int) {
        Some(error) => Some(error),
        None => edges_error(model, model.edges.len() as int),
    }
}

/// The keyword of the lines that hold a vertex of the given kind.
pub open spec fn vertex_keyword(kind: VariableType) -> Seq<char> {
    match kind {
        VariableType::Vehicle2D => "VERTEX_SE2"@,
        VariableType::Landmark2D => "VERTEX_XY"@,
        VariableType::Vehicle3D => "VERTEX_SE3:QUAT"@,
        VariableType::Landmark3D => "VERTEX_TRACKXYZ"@,
    }
}

/// The keyword of the lines that hold an edge of the given kind.
pub open spec fn edge_keyword(kind: FactorType) -> Seq<char> {
    match kind {
        FactorType::Position2D => "EDGE_PRIOR_SE2"@,
        FactorType::Odometry2D => "EDGE_SE2"@,
        FactorType::Observation2D => "EDGE_SE2_XY"@,
        FactorType::Position3D => "EDGE_SE3_PRIOR"@,
        FactorType::Odometry3D => "EDGE_SE3:QUAT"@,
        FactorType::Observation3D => "EDGE_SE3_TRACKXYZ"@,
    }
}

/// What a word at the start of a line announces, if it is a keyword.
pub open spec fn keyword_of(word: Seq<char>) -> Option<Keyword> {
    if word == "VERTEX_SE2"@ {
        Some(Keyword::Vertex(VariableType::Vehicle2D))
    } else if word == "VERTEX_XY"@ {
        Some(Keyword::Vertex(VariableType::Landmark2D))
    } else if word == "VERTEX_SE3:QUAT"@ {
        Some(Keyword::Vertex(VariableType::Vehicle3D))
    } else if word == "VERTEX_TRACKXYZ"@ {
        Some(Keyword::Vertex(VariableType::Landmark3D))
    } else if word == "EDGE_PRIOR_SE2"@ {
        Some(Keyword::Edge(FactorType::Position2D))
    } else if word == "EDGE_SE2"@ {
        Some(Keyword::Edge(FactorType::Odometry2D))
    } else if word == "EDGE_SE2_XY"@ {
        Some(Keyword::Edge(FactorType::Observation2D))
    } else if word == "EDGE_SE3_PRIOR"@ {
        Some(Keyword::Edge(FactorType::Position3D))
    } else if word == "EDGE_SE3:QUAT"@ {
        Some(Keyword::Edge(FactorType::Odometry3D))
    } else if word == "EDGE_SE3_TRACKXYZ"@ {
        Some(Keyword::Edge(FactorType::Observation3D))
    } else if word == "FIX"@ {
        Some(Keyword::Fix)
    } else if word == "PARAMS_SE3OFFSET"@ {
        Some(Keyword::Offset)
    } else {
        None
    }
}

/// Whether the lines of an edge of the given kind name an offset behind the vertices.
pub open spec fn has_offset(kind: FactorType) -> bool {
    kind == FactorType::Position3D || kind == FactorType::Observation3D
}

/// The number of words in a line that holds a vertex of the given kind.
pub open spec fn vertex_words(kind: VariableType) -> int {
    2 + kind.spec_content_len()
}

/// The number of words in a line that holds an edge of the given kind.
pub open spec fn edge_words(kind: FactorType) -> int {
    1 + kind.spec_arity() + (if has_offset(kind) {
        1int
    } else {
        0int
    }) + kind.spec_constraint_len() + upper_len(kind.spec_information_dim() as int)
}

/// The number of scalars of the upper triangle that stand in the rows above row `row`.
pub open spec fn upper_row_start(dim: int, row: int) -> int
    decreases row,
{
    if row <= 0 {
        0
    } else {
        upper_row_start(dim, row - 1) + dim - (row - 1)
    }
}

/// The number of scalars in the upper triangle, the diagonal included, of a square matrix
/// of `dim` rows.
pub open spec fn upper_len(dim: int) -> int {
    upper_row_start(dim, dim)
}

/// The position in the upper triangle, row by row, of the scalar that stands for row
/// `i` and column `j` of a symmetric matrix, and so for row `j` and column `i` too.
pub open spec fn upper_index(dim: int, i: int, j: int) -> int {
    if i <= j {
        upper_row_start(dim, i) + j - i
    } else {
        upper_row_start(dim, j) + i - j
    }
}

/// The upper triangle of a matrix of `dim` rows holds `dim * (dim + 1) / 2` scalars.
pub proof fn lemma_upper_len(dim: int)
    requires
        0 <= dim,
    ensures
        2 * upper_len(dim) == dim * (dim + 1),
{
    lemma_upper_row_start(dim, dim);
    assert(dim * (2 * dim - dim + 1) == dim * (dim + 1)) by (nonlinear_arith);
}

/// Twice the number of scalars above a row of the upper triangle.
pub proof fn lemma_upper_row_start(dim: int, row: int)
    requires
        0 <= row <= dim,
    ensures
        2 * upper_row_start(dim, row) == row * (2 * dim - row + 1),
        0 <= upper_row_start(dim, row) <= row * dim,
    decreases row,
{
    if row > 0 {
        lemma_upper_row_start(dim, row - 1);
        let above = upper_row_start(dim, row - 1);
        assert(upper_row_start(dim, row) == above + dim - (row - 1));
        assert(row * (2 * dim - row + 1) == (row - 1) * (2 * dim - (row - 1) + 1) + 2 * (dim - (row
            - 1))) by (nonlinear_arith);
        assert(row * dim == (row - 1) * dim + dim) by (nonlinear_arith);
    } else {
        assert(upper_row_start(dim, row) == 0);
        assert(row * (2 * dim - row + 1) == 0) by (nonlinear_arith)
            requires
                row == 0,
        ;
        assert(row * dim == 0) by (nonlinear_arith)
            requires
                row == 0,
        ;
    }
}

impl G2oParser {
    /// What a word at the start of a line announces, if it is a keyword.
    pub fn parse_keyword(word: &Vec<char>) -> (keyword: Option<Keyword>)
        ensures
            keyword == keyword_of(word@),
    {
        if chars_are(word, "VERTEX_SE2") {
            Some(Keyword::Vertex(VariableType::Vehicle2D))
        } else if chars_are(word, "VERTEX_XY") {
            Some(Keyword::Vertex(VariableType::Landmark2D))
        } else if chars_are(word, "VERTEX_SE3:QUAT") {
            Some(Keyword::Vertex(VariableType::Vehicle3D))
        } else if chars_are(word, "VERTEX_TRACKXYZ") {
            Some(Keyword::Vertex(VariableType::Landmark3D))
        } else if chars_are(word, "EDGE_PRIOR_SE2") {
            Some(Keyword::Edge(FactorType::Position2D))
        } else if chars_are(word, "EDGE_SE2") {
            Some(Keyword::Edge(FactorType::Odometry2D))
        } else if chars_are(word, "EDGE_SE2_XY") {
            Some(Keyword::Edge(FactorType::Observation2D))
        } else if chars_are(word, "EDGE_SE3_PRIOR") {
            Some(Keyword::Edge(FactorType::Position3D))
        } else if chars_are(word, "EDGE_SE3:QUAT") {
            Some(Keyword::Edge(FactorType::Odometry3D))
        } else if chars_are(word, "EDGE_SE3_TRACKXYZ") {
            Some(Keyword::Edge(FactorType::Observation3D))
        } else if chars_are(word, "FIX") {
            Some(Keyword::Fix)
        } else if chars_are(word, "PARAMS_SE3OFFSET") {
            Some(Keyword::Offset)
        } else {
            None
        }
    }

    /// Whether a line has as many words as it should have.
    pub fn assert_tokens(expected: usize, actual: usize, line_number: usize) -> (checked: Result<
        (),
        ParseError,
    >)
        ensures
            checked == if actual == expected {
                Ok::<(), ParseError>(())
            } else {
                Err(ParseError::WrongTokenCount { line: line_number, expected, actual })
            },
    {
        if actual != expected {
            Err(ParseError::WrongTokenCount { line: line_number, expected, actual })
        } else {
            Ok(())
        }
    }

    /// The index that a word spells.
    pub fn parse_val(s: &Vec<char>, line_number: usize) -> (value: Result<usize, ParseError>)
        ensures
            value == match parsed_index(s@) {
                Some(index) => Ok::<usize, ParseError>(index),
                None => Err(ParseError::InvalidNumber(line_number)),
            },
    {
        match parse_index(s) {
            Some(index) => Ok(index),
            None => Err(ParseError::InvalidNumber(line_number)),
        }
    }

    /// The indices that the words from position `from` to position `to` spell.
    fn parse_vals(tokens: &Vec<Vec<char>>, from: usize, to: usize, line_number: usize) -> (values:
        Result<Vec<usize>, ParseError>)
        requires
            from <= to <= tokens@.len(),
        ensures
            match values {
                Ok(values) => all_indices(words_of(tokens@).subrange(from as int, to as int))
                    && values@ == indices_of(words_of(tokens@).subrange(from as int, to as int)),
                Err(error) => !all_indices(words_of(tokens@).subrange(from as int, to as int))
                    && error == ParseError::InvalidNumber(line_number),
            },
    {
        let ghost words = words_of(tokens@).subrange(from as int, to as int);
        let mut values: Vec<usize> = Vec::new();
        let mut i: usize = from;
        while i < to
            invariant
                from <= i <= to <= tokens@.len(),
                words == words_of(tokens@).subrange(from as int, to as int),
                values@.len() == i - from,
                forall|k: int| 0 <= k < i - from ==> parsed_index(#[trigger] words[k]) == Some(values@[k]),
            decreases to - i,
        {
            assert(words[i - from] == tokens@[i as int]@);
            match Self::parse_val(&tokens[i], line_number) {
                Err(error) => {
                    assert(!all_indices(words)) by {
                        assert(parsed_index(words[i - from]) is None);
                    }
                    return Err(error);
                },
                Ok(value) => {
                    values.push(value);
                },
            }
            i += 1;
        }
        assert(values@ =~= indices_of(words));
        Ok(values)
    }

    /// The words from position `from` to position `to`.
    fn words(tokens: &Vec<Vec<char>>, from: usize, to: usize) -> (part: Vec<Vec<char>>)
        requires
            from <= to <= tokens@.len(),
        ensures
            words_of(part@) == words_of(tokens@).subrange(from as int, to as int),
    {
        let mut part: Vec<Vec<char>> = Vec::new();
        let mut i: usize = from;
        while i < to
            invariant
                from <= i <= to <= tokens@.len(),
                part@.len() == i - from,
                forall|k: int| 0 <= k < i - from ==> (#[trigger] part@[k])@ == tokens@[from + k]@,
            decreases to - i,
        {
            let token = &tokens[i];
            let mut word: Vec<char> = Vec::new();
            let mut c: usize = 0;
            while c < token.len()
                invariant
                    c <= token@.len(),
                    word@ == token@.take(c as int),
                decreases token@.len() - c,
            {
                word.push(token[c]);
                assert(word@ =~= token@.take(c + 1));
                c += 1;
            }
            assert(token@.take(token@.len() as int) =~= token@);
            part.push(word);
            i += 1;
        }
        assert(words_of(part@) =~= words_of(tokens@).subrange(from as int, to as int));
        part
    }

    /// What a line that starts with the keyword of a vertex holds.
    pub fn parse_vertex(kind: VariableType, tokens: &Vec<Vec<char>>, line_number: usize) -> (record:
        Result<Record, ParseError>)
        ensures
            match record {
                Ok(record) => scanned_vertex(kind, words_of(tokens@), line_number) == Ok::<
                    RecordView,
                    ParseError,
                >(record@),
                Err(error) => scanned_vertex(kind, words_of(tokens@), line_number) == Err::<
                    RecordView,
                    ParseError,
                >(error),
            },
    {
        let expected_length = 2 + kind.content_len();
        match Self::assert_tokens(expected_length, tokens.len(), line_number) {
            Err(error) => {
                return Err(error);
            },
            Ok(()) => {},
        }
        let id = match Self::parse_val(&tokens[1], line_number) {
            Err(error) => {
                return Err(error);
            },
            Ok(id) => id,
        };
        Ok(Record::Vertex { kind, id, content: Self::words(tokens, 2, tokens.len()) })
    }

    /// What a line that starts with the keyword of an edge holds.
    pub fn parse_edge(kind: FactorType, tokens: &Vec<Vec<char>>, line_number: usize) -> (record:
        Result<Record, ParseError>)
        ensures
            match record {
                Ok(record) => scanned_edge(kind, words_of(tokens@), line_number) == Ok::<
                    RecordView,
                    ParseError,
                >(record@),
                Err(error) => scanned_edge(kind, words_of(tokens@), line_number) == Err::<
                    RecordView,
                    ParseError,
                >(error),
            },
    {
        let arity = kind.arity();
        let offset: usize = match kind {
            FactorType::Position3D => 1,
            FactorType::Observation3D => 1,
            _ => 0,
        };
        let dim = kind.information_dim();
        proof {
            lemma_upper_len(dim as int);
        }
        let upper_t_len: usize = match kind {
            FactorType::Observation2D => 3,
            FactorType::Position3D => 21,
            FactorType::Odometry3D => 21,
            _ => 6,
        };
        let start = 1 + arity + offset;
        let expected_length = start + kind.constraint_len() + upper_t_len;
        match Self::assert_tokens(expected_length, tokens.len(), line_number) {
            Err(error) => {
                return Err(error);
            },
            Ok(()) => {},
        }
        let vertices = match Self::parse_vals(tokens, 1, 1 + arity, line_number) {
            Err(error) => {
                return Err(error);
            },
            Ok(vertices) => vertices,
        };
        if offset == 1 {
            assert(words_of(tokens@)[1 + arity] == tokens@[1 + arity]@);
            match parse_index(&tokens[1 + arity]) {
                Some(0) => {},
                _ => {
                    return Err(ParseError::UnsupportedOffset(line_number));
                },
            }
        }
        Ok(
            Record::Edge {
                kind,
                vertices,
                restriction: Self::words(tokens, start, start + kind.constraint_len()),
                information: Self::words(tokens, start + kind.constraint_len(), tokens.len()),
            },
        )
    }

    /// What a line that starts with the keyword `FIX` holds.
    pub fn parse_fix(tokens: &Vec<Vec<char>>, line_number: usize) -> (record: Result<
        Record,
        ParseError,
    >)
        ensures
            match record {
                Ok(record) => scanned_fix(words_of(tokens@), line_number) == Ok::<
                    RecordView,
                    ParseError,
                >(record@),
                Err(error) => scanned_fix(words_of(tokens@), line_number) == Err::<
                    RecordView,
                    ParseError,
                >(error),
            },
    {
        if tokens.len() <= 1 {
            return Err(ParseError::EmptyFix(line_number));
        }
        match Self::parse_vals(tokens, 1, tokens.len(), line_number) {
            Err(error) => Err(error),
            Ok(ids) => Ok(Record::Fix { ids }),
        }
    }

    /// What a line holds.
    pub fn parse_line(line: &Vec<char>, line_number: usize) -> (record: Result<Record, ParseError>)
        ensures
            match record {
                Ok(record) => scanned_line(line@, line_number) == Ok::<RecordView, ParseError>(
                    record@,
                ),
                Err(error) => scanned_line(line@, line_number) == Err::<RecordView, ParseError>(
                    error,
                ),
            },
    {
        let tokens = split_tokens(line);
        assert(words_of(tokens@) =~= tokens_of(line@));
        if tokens.len() == 0 || (line.len() > 0 && line[0] == '#') {
            return Ok(Record::Nothing);
        }
        match Self::parse_keyword(&tokens[0]) {
            None => Err(ParseError::UnknownKeyword(line_number)),
            Some(Keyword::Vertex(kind)) => Self::parse_vertex(kind, &tokens, line_number),
            Some(Keyword::Edge(kind)) => Self::parse_edge(kind, &tokens, line_number),
            Some(Keyword::Fix) => Self::parse_fix(&tokens, line_number),
            Some(Keyword::Offset) => Ok(Record::Nothing),
        }
    }

    /// The numbers that some words spell, one for each word in the order of the words: what
    /// the spelling answers for each word. There are none if the spelling knows no number
    /// for one of the words.
    fn parse_numbers<T: NumberText>(words: &Vec<Vec<char>>, numbers: &T) -> (values: Option<
        Vec<u64>,
    >)
        ensures
            match values {
                Some(values) => all_spelled(numbers, words_of(words@), values@),
                None => exists|i: int|
                    0 <= i < words@.len() && spelled(
                        numbers,
                        #[trigger] words_of(words@)[i],
                        None::<u64>,
                    ),
            },
    {
        let mut values: Vec<u64> = Vec::new();
        let mut i: usize = 0;
        while i < words.len()
            invariant
                i <= words@.len(),
                values@.len() == i,
                forall|k: int|
                    0 <= k < i ==> spelled(
                        numbers,
                        #[trigger] words_of(words@)[k],
                        Some(values@[k]),
                    ),
            decreases words@.len() - i,
        {
            let word = string_of(&words[i]);
            let text = word.as_str();
            let answer = numbers.parse(text);
            assert(spelled(numbers, words_of(words@)[i as int], answer)) by {
                assert(text@ == words_of(words@)[i as int]);
                assert(call_ensures(T::parse, (numbers, text), answer));
            }
            match answer {
                None => {
                    return None;
                },
                Some(value) => {
                    values.push(value);
                },
            }
            i += 1;
        }
        Some(values)
    }

    /// Reads a factor graph in the G2O format.
    ///
    /// Line by line, the text holds vertices, edges, and vertices that are fixed. The model
    /// holds them in the text's order, with the numbers that the spelling answers for
    /// their words, each edge with its full information matrix. There is no model where
    /// a line holds no record, and none where the spelling knows no number for a word
    /// that should spell one: the error names the first such line.
    pub fn parse_string_to_model<T: NumberText>(s: &str, numbers: &T) -> (model: Result<
        FactorGraphModel,
        ParseError,
    >)
        ensures
            match model {
                Ok(model) => {
                    let lines = lines_of(s@);
                    &&& scanned_upto(lines, lines.len() as int) is Ok
                    &&& model_read(numbers, model@, scanned_upto(lines, lines.len() as int)->Ok_0)
                },
                Err(error) => {
                    let lines = lines_of(s@);
                    ||| scanned_upto(lines, lines.len() as int) == Err::<
                        Seq<RecordView>,
                        ParseError,
                    >(error)
                    ||| exists|line: int|
                        1 <= line <= lines.len() && error == ParseError::InvalidNumber(
                            line as usize,
                        ) && #[trigger] scanned_upto(lines, line) is Ok && misspelled(
                            numbers,
                            scanned_upto(lines, line)->Ok_0.last(),
                        )
                },
            },
    {
        let chars = chars_of(s);
        let text = split_lines(&chars);
        let ghost lines = lines_of(s@);
        let mut vertices: Vec<Vertex> = Vec::new();
        let mut edges: Vec<Edge> = Vec::new();
        let mut fixed_vertices: BTreeSet<usize> = BTreeSet::new();
        let ghost mut records: Seq<RecordView> = Seq::empty();
        let mut i: usize = 0;
        while i < text.len()
            invariant
                lines == lines_of(s@),
                text@.len() == lines.len(),
                forall|k: int| 0 <= k < text@.len() ==> (#[trigger] text@[k])@ == lines[k],
                i <= text@.len(),
                records.len() == i,
                scanned_upto(lines, i as int) == Ok::<Seq<RecordView>, ParseError>(records),
                vertices@.len() == vertices_in(records, i as int).len(),
                forall|k: int|
                    0 <= k < vertices@.len() ==> vertex_read(
                        numbers,
                        (#[trigger] vertices@[k])@,
                        vertices_in(records, i as int)[k],
                    ),
                edges@.len() == edges_in(records, i as int).len(),
                forall|k: int|
                    0 <= k < edges@.len() ==> edge_read(
                        numbers,
                        (#[trigger] edges@[k])@,
                        edges_in(records, i as int)[k],
                    ),
                fixed_vertices@ == fixed_in(records, i as int),
            decreases text@.len() - i,
        {
            let line_number = i + 1;
            let record = match Self::parse_line(&text[i], line_number) {
                Err(error) => {
                    proof {
                        lemma_scan_fails(lines, i + 1, lines.len() as int);
                    }
                    return Err(error);
                },
                Ok(record) => record,
            };
            let ghost earlier = records;
            proof {
                records = records.push(record@);
                assert(scanned_upto(lines, i + 1) == Ok::<Seq<RecordView>, ParseError>(records));
                lemma_records_prefix(earlier, records, i as int);
            }
            let ghost read = record@;
            assert(records.last() == read);
            match record {
                Record::Nothing => {},
                Record::Vertex { kind, id, content } => {
                    let ghost words = words_of(content@);
                    let content = match Self::parse_numbers(&content, numbers) {
                        None => {
                            proof {
                                let w = choose|w: int|
                                    0 <= w < words.len() && spelled(
                                        numbers,
                                        #[trigger] words[w],
                                        None::<u64>,
                                    );
                                assert(number_word(read, words[w]));
                            }
                            return Err(ParseError::InvalidNumber(line_number));
                        },
                        Some(content) => content,
                    };
                    let ghost before = vertices@;
                    vertices.push(Vertex { id, vertex_type: kind.name(), content });
                    proof {
                        assert forall|k: int| 0 <= k < vertices@.len() implies vertex_read(
                        numbers,
                            (#[trigger] vertices@[k])@,
                            vertices_in(records, i + 1)[k],
                        ) by {
                            if k < before.len() {
                                assert(vertices@[k] == before[k]);
                            }
                        }
                    }
                },
                Record::Edge { kind, vertices: ids, restriction, information } => {
                    let ghost restriction_words = words_of(restriction@);
                    let ghost information_words = words_of(information@);
                    let restriction = match Self::parse_numbers(&restriction, numbers) {
                        None => {
                            proof {
                                let w = choose|w: int|
                                    0 <= w < restriction_words.len() && spelled(
                                        numbers,
                                        #[trigger] restriction_words[w],
                                        None::<u64>,
                                    );
                                assert(number_word(read, restriction_words[w]));
                            }
                            return Err(ParseError::InvalidNumber(line_number));
                        },
                        Some(restriction) => restriction,
                    };
                    let upper = match Self::parse_numbers(&information, numbers) {
                        None => {
                            proof {
                                let w = choose|w: int|
                                    0 <= w < information_words.len() && spelled(
                                        numbers,
                                        #[trigger] information_words[w],
                                        None::<u64>,
                                    );
                                assert(number_word(read, information_words[w]));
                            }
                            return Err(ParseError::InvalidNumber(line_number));
                        },
                        Some(upper) => upper,
                    };
                    let dim = kind.information_dim();
                    proof {
                        lemma_scanned_edge(kind, tokens_of(lines[i as int]), line_number);
                        assert(dim * dim <= 36) by (nonlinear_arith)
                            requires
                                dim <= 6,
                        ;
                    }
                    let information_matrix = Self::full_matrix(dim, &upper);
                    proof {
                        assert forall|r: int, c: int| 0 <= r < dim && 0 <= c < dim implies spelled(
                            numbers,
                            information_words[upper_index(dim as int, r, c)],
                            Some(#[trigger] information_matrix@[r * dim + c]),
                        ) by {
                            lemma_upper_index(dim as int, r, c);
                            assert(information_words[upper_index(dim as int, r, c)]
                                == information@[upper_index(dim as int, r, c)]@);
                        }
                    }
                    let ghost before = edges@;
                    edges.push(
                        Edge { edge_type: kind.name(), vertices: ids, restriction, information_matrix },
                    );
                    proof {
                        assert forall|k: int| 0 <= k < edges@.len() implies edge_read(
                        numbers,
                            (#[trigger] edges@[k])@,
                            edges_in(records, i + 1)[k],
                        ) by {
                            if k < before.len() {
                                assert(edges@[k] == before[k]);
                            }
                        }
                    }
                },
                Record::Fix { ids } => {
                    let mut k: usize = 0;
                    while k < ids.len()
                        invariant
                            k <= ids@.len(),
                            fixed_vertices@ == fixed_in(earlier, i as int).union(
                                ids@.take(k as int).to_set(),
                            ),
                        decreases ids@.len() - k,
                    {
                        fixed_vertices.insert(ids[k]);
                        proof {
                            let done = ids@.take(k as int);
                            let next = ids@.take(k + 1);
                            assert(next =~= done.push(ids@[k as int]));
                            assert(next.to_set() =~= done.to_set().insert(ids@[k as int])) by {
                                assert forall|x: usize| next.to_set().contains(x) implies done.to_set().insert(
                                    ids@[k as int],
                                ).contains(x) by {
                                    let w = choose|w: int| 0 <= w < next.len() && next[w] == x;
                                    if w < k {
                                        assert(done[w] == x);
                                    }
                                }
                                assert forall|x: usize|
                                    done.to_set().insert(ids@[k as int]).contains(
                                        x,
                                    ) implies next.to_set().contains(x) by {
                                    if x == ids@[k as int] {
                                        assert(next[k as int] == x);
                                    } else {
                                        let w = choose|w: int| 0 <= w < done.len() && done[w] == x;
                                        assert(next[w] == x);
                                    }
                                }
                            }
                            assert(fixed_vertices@ =~= fixed_in(earlier, i as int).union(
                                next.to_set(),
                            ));
                        }
                        k += 1;
                    }
                    assert(ids@.take(ids@.len() as int) =~= ids@);
                },
            }
            i += 1;
        }
        let model = FactorGraphModel { vertices, edges, fixed_vertices };
        proof {
            assert(model@.vertices.len() == vertices_in(records, records.len() as int).len());
            assert forall|k: int| 0 <= k < model@.vertices.len() implies vertex_read(
                        numbers,
                #[trigger] model@.vertices[k],
                vertices_in(records, records.len() as int)[k],
            ) by {
                assert(vertex_read(
                        numbers,model.vertices@[k]@, vertices_in(records, records.len() as int)[k]));
            }
            assert forall|k: int| 0 <= k < model@.edges.len() implies edge_read(
                        numbers,
                #[trigger] model@.edges[k],
                edges_in(records, records.len() as int)[k],
            ) by {
                assert(edge_read(
                        numbers,model.edges@[k]@, edges_in(records, records.len() as int)[k]));
            }
        }
        Ok(model)
    }

    /// For a symmetric matrix of `dim` rows: for each of its scalars, row by row, the
    /// position in the upper triangle of the scalar that stands for it; and the number of
    /// scalars in the upper triangle.
    pub fn get_index_mapping_vec_and_upper_t_len(dim: usize) -> (mapping: (Vec<usize>, usize))
        requires
            dim * dim <= usize::MAX,
        ensures
            mapping.0@.len() == dim * dim,
            mapping.1 == upper_len(dim as int),
            forall|i: int, j: int|
                0 <= i < dim && 0 <= j < dim ==> #[trigger] mapping.0@[i * dim + j] == upper_index(
                    dim as int,
                    i,
                    j,
                ),
    {
        let mut full_matrix_vec: Vec<usize> = Vec::new();
        let mut row_start: usize = 0;
        let mut i: usize = 0;
        while i < dim
            invariant
                dim * dim <= usize::MAX,
                i <= dim,
                row_start == upper_row_start(dim as int, i as int),
                full_matrix_vec@.len() == i * dim,
                forall|r: int, c: int|
                    0 <= r < i && 0 <= c < dim ==> #[trigger] full_matrix_vec@[r * dim + c]
                        == upper_index(dim as int, r, c),
            decreases dim - i,
        {
            let mut j: usize = 0;
            while j < dim
                invariant
                    dim * dim <= usize::MAX,
                    i < dim,
                    j <= dim,
                    row_start == upper_row_start(dim as int, i as int),
                    full_matrix_vec@.len() == i * dim + j,
                    forall|r: int, c: int|
                        0 <= r < i && 0 <= c < dim ==> #[trigger] full_matrix_vec@[r * dim + c]
                            == upper_index(dim as int, r, c),
                    forall|c: int|
                        0 <= c < j ==> #[trigger] full_matrix_vec@[i * dim + c] == upper_index(
                            dim as int,
                            i as int,
                            c,
                        ),
                decreases dim - j,
            {
                let ghost before = full_matrix_vec@;
                proof {
                    lemma_upper_row_start(dim as int, dim as int);
                    if i <= j {
                        lemma_upper_rows_ascend(dim as int, i as int, dim as int);
                    } else {
                        lemma_upper_rows_ascend(dim as int, j as int, dim as int);
                    }
                }
                let position = if i <= j {
                    row_start + (j - i)
                } else {
                    Self::upper_row(dim, j) + (i - j)
                };
                full_matrix_vec.push(position);
                proof {
                    assert forall|r: int, c: int| 0 <= r < i && 0 <= c < dim implies #[trigger] full_matrix_vec@[r
                        * dim + c] == upper_index(dim as int, r, c) by {
                        assert(r * dim + c < i * dim) by (nonlinear_arith)
                            requires
                                0 <= r < i,
                                0 <= c < dim,
                        ;
                        assert(before[r * dim + c] == full_matrix_vec@[r * dim + c]);
                    }
                    assert forall|c: int| 0 <= c < j + 1 implies #[trigger] full_matrix_vec@[i * dim
                        + c] == upper_index(dim as int, i as int, c) by {
                        if c < j {
                            assert(before[i * dim + c] == full_matrix_vec@[i * dim + c]);
                        }
                    }
                }
                j += 1;
            }
            proof {
                lemma_upper_row_start(dim as int, dim as int);
                lemma_upper_rows_ascend(dim as int, i as int, dim as int);
                assert((i + 1) * dim == i * dim + dim) by (nonlinear_arith);
            }
            row_start = row_start + (dim - i);
            i += 1;
        }
        (full_matrix_vec, row_start)
    }

    /// The number of scalars of the upper triangle that stand in the rows above row
    /// `row`.
    fn upper_row(dim: usize, row: usize) -> (start: usize)
        requires
            row < dim,
            dim * dim <= usize::MAX,
        ensures
            start == upper_row_start(dim as int, row as int),
    {
        let mut start: usize = 0;
        let mut r: usize = 0;
        while r < row
            invariant
                r <= row < dim,
                dim * dim <= usize::MAX,
                start == upper_row_start(dim as int, r as int),
            decreases row - r,
        {
            proof {
                lemma_upper_row_start(dim as int, dim as int);
                lemma_upper_rows_ascend(dim as int, r as int, dim as int);
            }
            start = start + (dim - r);
            r += 1;
        }
        start
    }

    /// For a square matrix of `dim` rows that is held row by row: the positions of the
    /// scalars of its upper triangle, row by row.
    pub fn get_upper_triangle_indices(dim: usize) -> (indices: Vec<usize>)
        requires
            dim * dim <= usize::MAX,
        ensures
            indices@.len() == upper_len(dim as int),
            forall|i: int, j: int|
                0 <= i <= j < dim ==> #[trigger] indices@[upper_index(dim as int, i, j)] == i * dim
                    + j,
    {
        let mut indices: Vec<usize> = Vec::new();
        let mut i: usize = 0;
        while i < dim
            invariant
                dim * dim <= usize::MAX,
                i <= dim,
                indices@.len() == upper_row_start(dim as int, i as int),
                forall|r: int, c: int|
                    0 <= r < i && r <= c < dim ==> #[trigger] indices@[upper_index(dim as int, r, c)]
                        == r * dim + c,
            decreases dim - i,
        {
            let mut j: usize = i;
            while j < dim
                invariant
                    dim * dim <= usize::MAX,
                    i < dim,
                    i <= j <= dim,
                    indices@.len() == upper_row_start(dim as int, i as int) + j - i,
                    forall|r: int, c: int|
                        0 <= r < i && r <= c < dim ==> #[trigger] indices@[upper_index(
                            dim as int,
                            r,
                            c,
                        )] == r * dim + c,
                    forall|c: int|
                        i <= c < j ==> #[trigger] indices@[upper_index(dim as int, i as int, c)] == i
                            * dim + c,
                decreases dim - j,
            {
                let ghost before = indices@;
                assert(i * dim + j < dim * dim) by (nonlinear_arith)
                    requires
                        i < dim,
                        j < dim,
                ;
                indices.push(i * dim + j);
                proof {
                    assert(indices@ =~= before.push((i * dim + j) as usize));
                    assert forall|r: int, c: int| 0 <= r < i && r <= c < dim implies #[trigger] indices@[upper_index(
                        dim as int,
                        r,
                        c,
                    )] == r * dim + c by {
                        lemma_upper_rows_ascend(dim as int, r, i as int);
                        assert(upper_index(dim as int, r, c) == upper_row_start(dim as int, r) + c
                            - r);
                        lemma_upper_row_start(dim as int, r);
                        assert(0 <= upper_index(dim as int, r, c) < before.len());
                        assert(before[upper_index(dim as int, r, c)] == indices@[upper_index(
                            dim as int,
                            r,
                            c,
                        )]);
                    }
                    assert forall|c: int| i <= c < j + 1 implies #[trigger] indices@[upper_index(
                        dim as int,
                        i as int,
                        c,
                    )] == i * dim + c by {
                        if c < j {
                            lemma_upper_row_start(dim as int, i as int);
                            assert(0 <= upper_index(dim as int, i as int, c) < before.len());
                            assert(before[upper_index(dim as int, i as int, c)] == indices@[upper_index(
                                dim as int,
                                i as int,
                                c,
                            )]);
                        }
                    }
                }
                j += 1;
            }
            i += 1;
        }
        indices
    }

    /// The full symmetric matrix of `dim` rows, row by row, whose upper triangle, row by
    /// row, is `upper`.
    pub fn full_matrix(dim: usize, upper: &Vec<u64>) -> (full: Vec<u64>)
        requires
            dim * dim <= usize::MAX,
            upper@.len() == upper_len(dim as int),
        ensures
            full@.len() == dim * dim,
            forall|i: int, j: int|
                0 <= i < dim && 0 <= j < dim ==> #[trigger] full@[i * dim + j] == upper@[upper_index(
                    dim as int,
                    i,
                    j,
                )],
            is_symmetric(full@, dim as int),
    {
        let (mapping, _) = Self::get_index_mapping_vec_and_upper_t_len(dim);
        let mut full: Vec<u64> = Vec::new();
        let mut k: usize = 0;
        proof {
            assert forall|i: int, j: int| 0 <= i < dim && 0 <= j < dim implies 0 <= #[trigger] upper_index(
                dim as int,
                i,
                j,
            ) < upper_len(dim as int) && 0 <= i * dim + j < dim * dim by {
                lemma_upper_index(dim as int, i, j);
                assert(0 <= i * dim + j < dim * dim) by (nonlinear_arith)
                    requires
                        0 <= i < dim,
                        0 <= j < dim,
                ;
            }
        }
        proof {
            assert forall|m: int| 0 <= m < mapping@.len() implies 0 <= #[trigger] mapping@[m]
                < upper@.len() by {
                assert(dim > 0) by (nonlinear_arith)
                    requires
                        0 <= m < dim * dim,
                ;
                let i = m / (dim as int);
                let j = m % (dim as int);
                vstd::arithmetic::div_mod::lemma_fundamental_div_mod(m, dim as int);
                vstd::arithmetic::div_mod::lemma_mod_pos_bound(m, dim as int);
                assert(0 <= i < dim) by (nonlinear_arith)
                    requires
                        m == dim * i + j,
                        0 <= j < dim,
                        0 <= m < dim * dim,
                ;
                assert(dim * i == i * dim) by (nonlinear_arith);
                assert(mapping@[i * dim + j] == upper_index(dim as int, i, j));
            }
        }
        while k < mapping.len()
            invariant
                k <= mapping@.len(),
                mapping@.len() == dim * dim,
                upper@.len() == upper_len(dim as int),
                forall|i: int, j: int|
                    0 <= i < dim && 0 <= j < dim ==> #[trigger] mapping@[i * dim + j] == upper_index(
                        dim as int,
                        i,
                        j,
                    ),
                forall|i: int, j: int|
                    0 <= i < dim && 0 <= j < dim ==> 0 <= #[trigger] upper_index(dim as int, i, j)
                        < upper_len(dim as int) && 0 <= i * dim + j < dim * dim,
                full@.len() == k,
                forall|m: int| 0 <= m < k ==> 0 <= mapping@[m] < upper@.len() && #[trigger] full@[m] == upper@[mapping@[m] as int],
                forall|m: int| 0 <= m < mapping@.len() ==> 0 <= #[trigger] mapping@[m] < upper@.len(),
            decreases mapping@.len() - k,
        {
            full.push(upper[mapping[k]]);
            k += 1;
        }
        proof {
            assert forall|i: int, j: int| 0 <= i < dim && 0 <= j < dim implies #[trigger] full@[i
                * dim + j] == upper@[upper_index(dim as int, i, j)] by {
                assert(mapping@[i * dim + j] == upper_index(dim as int, i, j));
            }
            assert forall|i: int, j: int| 0 <= i < dim && 0 <= j < dim implies #[trigger] full@[i
                * dim + j] == full@[j * dim + i] by {
                assert(mapping@[j * dim + i] == upper_index(dim as int, j, i));
                assert(full@[j * dim + i] == upper@[upper_index(dim as int, j, i)]);
            }
        }
        full
    }

    /// The upper triangle, row by row, of a square matrix of `dim` rows that is held row
    /// by row.
    pub fn upper_triangle(dim: usize, full: &Vec<u64>) -> (upper: Vec<u64>)
        requires
            dim * dim <= full@.len(),
        ensures
            upper@.len() == upper_len(dim as int),
            forall|i: int, j: int|
                0 <= i <= j < dim ==> #[trigger] upper@[upper_index(dim as int, i, j)] == full@[i
                    * dim + j],
    {
        let total = full.len();
        let indices = Self::get_upper_triangle_indices(dim);
        let mut upper: Vec<u64> = Vec::new();
        let mut k: usize = 0;
        proof {
            assert forall|m: int| 0 <= m < indices@.len() implies #[trigger] indices@[m]
                < full@.len() by {
                lemma_upper_position(dim as int, m);
                let (i, j) = upper_position(dim as int, m);
                assert(indices@[upper_index(dim as int, i, j)] == i * dim + j);
                assert(i * dim + j < dim * dim) by (nonlinear_arith)
                    requires
                        0 <= i < dim,
                        0 <= j < dim,
                ;
            }
        }
        while k < indices.len()
            invariant
                k <= indices@.len(),
                upper@.len() == k,
                forall|m: int| 0 <= m < indices@.len() ==> #[trigger] indices@[m] < full@.len(),
                forall|m: int| 0 <= m < k ==> #[trigger] upper@[m] == full@[indices@[m] as int],
            decreases indices@.len() - k,
        {
            upper.push(full[indices[k]]);
            k += 1;
        }
        proof {
            assert forall|i: int, j: int| 0 <= i <= j < dim implies #[trigger] upper@[upper_index(
                dim as int,
                i,
                j,
            )] == full@[i * dim + j] by {
                lemma_upper_index(dim as int, i, j);
                assert(indices@[upper_index(dim as int, i, j)] == i * dim + j);
            }
        }
        upper
    }

    /// The keyword of the lines that hold a vertex of the given kind.
    pub fn vertex_keyword(kind: VariableType) -> (word: String)
        ensures
            word@ == vertex_keyword(kind),
    {
        match kind {
            VariableType::Vehicle2D => String::from_str("VERTEX_SE2"),
            VariableType::Landmark2D => String::from_str("VERTEX_XY"),
            VariableType::Vehicle3D => String::from_str("VERTEX_SE3:QUAT"),
            VariableType::Landmark3D => String::from_str("VERTEX_TRACKXYZ"),
        }
    }

    /// The keyword of the lines that hold an edge of the given kind.
    pub fn edge_keyword(kind: FactorType) -> (word: String)
        ensures
            word@ == edge_keyword(kind),
    {
        match kind {
            FactorType::Position2D => String::from_str("EDGE_PRIOR_SE2"),
            FactorType::Odometry2D => String::from_str("EDGE_SE2"),
            FactorType::Observation2D => String::from_str("EDGE_SE2_XY"),
            FactorType::Position3D => String::from_str("EDGE_SE3_PRIOR"),
            FactorType::Odometry3D => String::from_str("EDGE_SE3:QUAT"),
            FactorType::Observation3D => String::from_str("EDGE_SE3_TRACKXYZ"),
        }
    }

    /// Appends the decimal spellings of some indices to a list of words.
    pub fn append_usize_slice_to_string_vec(tokens: &mut Vec<String>, usize_slice: &Vec<usize>)
        ensures
            strings_of(final(tokens)@) == strings_of(old(tokens)@) + decimals(usize_slice@),
    {
        let ghost before = strings_of(tokens@);
        let mut i: usize = 0;
        while i < usize_slice.len()
            invariant
                i <= usize_slice@.len(),
                strings_of(tokens@) == before + decimals(usize_slice@.take(i as int)),
            decreases usize_slice@.len() - i,
        {
            let ghost earlier = tokens@;
            tokens.push(string_of(&index_chars(usize_slice[i])));
            proof {
                assert(strings_of(tokens@) =~= strings_of(earlier).push(
                    decimal(usize_slice@[i as int] as nat),
                ));
                assert(decimals(usize_slice@.take(i + 1)) =~= decimals(
                    usize_slice@.take(i as int),
                ).push(decimal(usize_slice@[i as int] as nat)));
                assert(strings_of(tokens@) =~= before + decimals(usize_slice@.take(i + 1)));
            }
            i += 1;
        }
        assert(usize_slice@.take(usize_slice@.len() as int) =~= usize_slice@);
    }

    /// Appends copies of some words to a list of words.
    fn append_words(tokens: &mut Vec<String>, words: &Vec<String>)
        ensures
            strings_of(final(tokens)@) == strings_of(old(tokens)@) + strings_of(words@),
    {
        let ghost before = strings_of(tokens@);
        let mut i: usize = 0;
        while i < words.len()
            invariant
                i <= words@.len(),
                strings_of(tokens@) == before + strings_of(words@).take(i as int),
            decreases words@.len() - i,
        {
            let ghost earlier = tokens@;
            tokens.push(words[i].clone());
            proof {
                assert(strings_of(tokens@) =~= strings_of(earlier).push(words@[i as int]@));
                assert(strings_of(tokens@) =~= before + strings_of(words@).take(i + 1));
            }
            i += 1;
        }
        assert(strings_of(words@).take(words@.len() as int) =~= strings_of(words@));
    }

    /// Writes a vertex, given the words that spell its content.
    pub fn vertex_line(kind: VariableType, id: usize, content: &Vec<String>, fixed: bool) -> (text:
        String)
        ensures
            text@ == vertex_text(kind, id, strings_of(content@), fixed),
    {
        let mut tokens: Vec<String> = Vec::new();
        tokens.push(Self::vertex_keyword(kind));
        let id_word = string_of(&index_chars(id));
        tokens.push(id_word.clone());
        assert(strings_of(tokens@) =~= seq![vertex_keyword(kind), decimal(id as nat)]);
        Self::append_words(&mut tokens, content);
        let mut vertex_string = join(&tokens, " ");
        if fixed {
            vertex_string.append("\nFIX ");
            vertex_string.append(id_word.as_str());
        }
        vertex_string
    }

    /// Writes an edge, given the words that spell its restriction and the upper triangle
    /// of its information matrix.
    pub fn edge_line(
        kind: FactorType,
        vertices: &Vec<usize>,
        restriction: &Vec<String>,
        upper: &Vec<String>,
    ) -> (text: String)
        ensures
            text@ == edge_text(kind, vertices@, strings_of(restriction@), strings_of(upper@)),
    {
        let mut tokens: Vec<String> = Vec::new();
        tokens.push(Self::edge_keyword(kind));
        assert(strings_of(tokens@) =~= seq![edge_keyword(kind)]);
        Self::append_usize_slice_to_string_vec(&mut tokens, vertices);
        match kind {
            FactorType::Position3D => {
                let ghost earlier = tokens@;
                tokens.push(String::from_str("0"));
                assert(strings_of(tokens@) =~= strings_of(earlier) + seq!["0"@]);
            },
            FactorType::Observation3D => {
                let ghost earlier = tokens@;
                tokens.push(String::from_str("0"));
                assert(strings_of(tokens@) =~= strings_of(earlier) + seq!["0"@]);
            },
            _ => {
                assert(strings_of(tokens@) =~= strings_of(tokens@) + Seq::<Seq<char>>::empty());
            },
        }
        Self::append_words(&mut tokens, restriction);
        Self::append_words(&mut tokens, upper);
        join(&tokens, " ")
    }

    /// Whether an edge of the model is measured against the offset.
    pub fn needs_offset(model: &FactorGraphModel) -> (needed: bool)
        ensures
            needed == names_offset(model@.edges, model@.edges.len() as int),
    {
        let mut k: usize = 0;
        while k < model.edges.len()
            invariant
                k <= model.edges@.len(),
                !names_offset(model@.edges, k as int),
            decreases model.edges@.len() - k,
        {
            assert(model@.edges[k as int] == model.edges@[k as int]@);
            let edge_type = model.edges[k].edge_type.as_str();
            if crate::text::text_equals(edge_type, "Position3D") || crate::text::text_equals(
                edge_type,
                "Observation3D",
            ) {
                return true;
            }
            assert(!names_offset(model@.edges, k + 1)) by {
                if names_offset(model@.edges, k + 1) {
                    let w = choose|i: int|
                        0 <= i < k + 1 && i < model@.edges.len() && ((
                        #[trigger] model@.edges[i]).edge_type == "Position3D"@
                            || model@.edges[i].edge_type == "Observation3D"@);
                    assert(w < k);
                }
            }
            k += 1;
        }
        false
    }

    /// Writes a graph, given the texts of its vertices and of its edges.
    pub fn compose_text(offset: bool, vertices: Vec<String>, edges: Vec<String>) -> (text: String)
        ensures
            text@ == graph_text(offset, strings_of(vertices@), strings_of(edges@)),
    {
        let mut str_vec: Vec<String> = Vec::new();
        if offset {
            str_vec.push(String::from_str("PARAMS_SE3OFFSET 0 0 0 0 0 0 0 1"));
            assert(strings_of(str_vec@) =~= seq!["PARAMS_SE3OFFSET 0 0 0 0 0 0 0 1"@]);
        } else {
            assert(strings_of(str_vec@) =~= Seq::<Seq<char>>::empty());
        }
        Self::append_words(&mut str_vec, &vertices);
        Self::append_words(&mut str_vec, &edges);
        join(&str_vec, "\n")
    }

    /// The words that spell some numbers: what the spelling answers for each, in the order
    /// of the numbers.
    fn format_numbers<T: NumberText>(values: &Vec<u64>, numbers: &T) -> (words: Vec<String>)
        ensures
            all_written(numbers, values@, strings_of(words@)),
    {
        let mut words: Vec<String> = Vec::new();
        let mut i: usize = 0;
        while i < values.len()
            invariant
                i <= values@.len(),
                words@.len() == i,
                forall|k: int| 0 <= k < i ==> written(numbers, values@[k], (#[trigger] words@[k])@),
            decreases values@.len() - i,
        {
            let word = numbers.format(values[i]);
            assert(written(numbers, values@[i as int], word@)) by {
                assert(call_ensures(T::format, (numbers, values@[i as int]), word));
            }
            let ghost earlier = words@;
            words.push(word);
            assert forall|k: int| 0 <= k < i + 1 implies written(
                numbers,
                values@[k],
                (#[trigger] words@[k])@,
            ) by {
                if k < i {
                    assert(words@[k] == earlier[k]);
                }
            }
            i += 1;
        }
        assert forall|k: int| 0 <= k < values@.len() implies written(
            numbers,
            values@[k],
            #[trigger] strings_of(words@)[k],
        ) by {
            assert(strings_of(words@)[k] == words@[k]@);
        }
        words
    }

    /// Writes the vertex that stands at position `at` of a model, fixed if the model says
    /// so, with its content spelled as the spelling answers. There is no text for a vertex
    /// whose type is none of the four.
    pub fn vertex_to_string<T: NumberText>(
        v: &Vertex,
        fixed_vertices: &BTreeSet<usize>,
        at: usize,
        numbers: &T,
    ) -> (text: Result<String, ComposeError>)
        ensures
            match text {
                Ok(text) => {
                    &&& crate::parser::model::variable_type_named(v@.vertex_type) is Some
                    &&& vertex_written(numbers, v@, fixed_vertices@.contains(v.id), text@)
                },
                Err(error) => {
                    &&& crate::parser::model::variable_type_named(v@.vertex_type) is None
                    &&& error == ComposeError::UnsupportedVertexType(at)
                },
            },
    {
        let kind = match VariableType::from_name(v.vertex_type.as_str()) {
            None => {
                return Err(ComposeError::UnsupportedVertexType(at));
            },
            Some(kind) => kind,
        };
        let content = Self::format_numbers(&v.content, numbers);
        let fixed = fixed_vertices.contains(&v.id);
        let text = Self::vertex_line(kind, v.id, &content, fixed);
        proof {
            let words = strings_of(content@);
            assert(fixed == fixed_vertices@.contains(v.id));
            assert(crate::parser::model::variable_type_named(v@.vertex_type)->0 == kind);
            assert(all_written(numbers, v@.content, words));
            assert(text@ == vertex_text(
                crate::parser::model::variable_type_named(v@.vertex_type)->0,
                v@.id,
                words,
                fixed_vertices@.contains(v.id),
            ));
        }
        Ok(text)
    }

    /// Writes the edge that stands at position `at` of a model, with its restriction and
    /// the upper triangle of its information matrix spelled as the spelling answers.
    /// There is no text for an edge whose type is none of the six, and none for one whose
    /// information matrix is too short.
    pub fn edge_to_string<T: NumberText>(e: &Edge, at: usize, numbers: &T) -> (text: Result<
        String,
        ComposeError,
    >)
        ensures
            match text {
                Ok(text) => edge_error(e@, at) is None && edge_written(numbers, e@, text@),
                Err(error) => edge_error(e@, at) == Some(error),
            },
    {
        let kind = match FactorType::from_name(e.edge_type.as_str()) {
            None => {
                return Err(ComposeError::UnsupportedEdgeType(at));
            },
            Some(kind) => kind,
        };
        let dim = kind.information_dim();
        assert(dim * dim <= 36) by (nonlinear_arith)
            requires
                dim <= 6,
        ;
        if e.information_matrix.len() < dim * dim {
            return Err(ComposeError::EdgeShape(at));
        }
        let restriction = Self::format_numbers(&e.restriction, numbers);
        let triangle = Self::upper_triangle(dim, &e.information_matrix);
        let upper = Self::format_numbers(&triangle, numbers);
        let text = Self::edge_line(kind, &e.vertices, &restriction, &upper);
        proof {
            let words = strings_of(upper@);
            assert forall|i: int, j: int| 0 <= i <= j < dim implies written(
                numbers,
                e@.information_matrix[i * dim + j],
                #[trigger] words[upper_index(dim as int, i, j)],
            ) by {
                lemma_upper_index(dim as int, i, j);
                assert(triangle@[upper_index(dim as int, i, j)] == e@.information_matrix[i * dim
                    + j]);
            }
            assert(upper_written(numbers, e@.information_matrix, dim as int, words));
            assert(text@ == edge_text(kind, e@.vertices, strings_of(restriction@), words));
        }
        Ok(text)
    }

    /// Writes a factor graph in the G2O format: a line that names the offset, if an edge
    /// measures against it; the vertices, each fixed one with a line that says so; and
    /// the edges, each with the upper triangle of its information matrix. Numbers are
    /// spelled as the spelling answers.
    ///
    /// There is a text exactly for the models whose vertices and edges can all be
    /// written.
    pub fn compose_model_to_string<T: NumberText>(model: &FactorGraphModel, numbers: &T) -> (text:
        Result<String, ComposeError>)
        ensures
            match text {
                Ok(text) => compose_error(model@) is None && model_written(numbers, model@, text@),
                Err(error) => compose_error(model@) == Some(error),
            },
    {
        let offset = Self::needs_offset(model);
        let mut vertex_texts: Vec<String> = Vec::new();
        let mut edge_texts: Vec<String> = Vec::new();
        let mut i: usize = 0;
        while i < model.vertices.len()
            invariant
                i <= model.vertices@.len(),
                vertices_error(model@, i as int) is None,
                vertex_texts@.len() == i,
                forall|k: int|
                    0 <= k < i ==> vertex_written(
                        numbers,
                        model@.vertices[k],
                        model@.fixed_vertices.contains(model@.vertices[k].id),
                        (#[trigger] vertex_texts@[k])@,
                    ),
            decreases model.vertices@.len() - i,
        {
            assert(model@.vertices[i as int] == model.vertices@[i as int]@);
            match Self::vertex_to_string(&model.vertices[i], &model.fixed_vertices, i, numbers) {
                Err(error) => {
                    proof {
                        lemma_vertices_error(model@, i + 1, model@.vertices.len() as int);
                    }
                    return Err(error);
                },
                Ok(vertex_string) => {
                    let ghost earlier = vertex_texts@;
                    vertex_texts.push(vertex_string);
                    assert forall|k: int| 0 <= k < i + 1 implies vertex_written(
                        numbers,
                        model@.vertices[k],
                        model@.fixed_vertices.contains(model@.vertices[k].id),
                        (#[trigger] vertex_texts@[k])@,
                    ) by {
                        if k < i {
                            assert(vertex_texts@[k] == earlier[k]);
                        }
                    }
                },
            }
            i += 1;
        }
        let mut j: usize = 0;
        while j < model.edges.len()
            invariant
                j <= model.edges@.len(),
                vertices_error(model@, model@.vertices.len() as int) is None,
                edges_error(model@, j as int) is None,
                edge_texts@.len() == j,
                forall|k: int|
                    0 <= k < j ==> edge_written(
                        numbers,
                        model@.edges[k],
                        (#[trigger] edge_texts@[k])@,
                    ),
            decreases model.edges@.len() - j,
        {
            assert(model@.edges[j as int] == model.edges@[j as int]@);
            match Self::edge_to_string(&model.edges[j], j, numbers) {
                Err(error) => {
                    proof {
                        lemma_edges_error(model@, j + 1, model@.edges.len() as int);
                    }
                    return Err(error);
                },
                Ok(edge_string) => {
                    let ghost earlier = edge_texts@;
                    edge_texts.push(edge_string);
                    assert forall|k: int| 0 <= k < j + 1 implies edge_written(
                        numbers,
                        model@.edges[k],
                        (#[trigger] edge_texts@[k])@,
                    ) by {
                        if k < j {
                            assert(edge_texts@[k] == earlier[k]);
                        }
                    }
                },
            }
            j += 1;
        }
        let ghost vertices = strings_of(vertex_texts@);
        let ghost edges = strings_of(edge_texts@);
        proof {
            assert forall|k: int| 0 <= k < vertices.len() implies vertex_written(
                numbers,
                model@.vertices[k],
                model@.fixed_vertices.contains(model@.vertices[k].id),
                #[trigger] vertices[k],
            ) by {
                assert(vertices[k] == vertex_texts@[k]@);
            }
            assert forall|k: int| 0 <= k < edges.len() implies edge_written(
                numbers,
                model@.edges[k],
                #[trigger] edges[k],
            ) by {
                assert(edges[k] == edge_texts@[k]@);
            }
        }
        let text = Self::compose_text(offset, vertex_texts, edge_texts);
        assert(text@ == graph_text(
            names_offset(model@.edges, model@.edges.len() as int),
            vertices,
            edges,
        ));
        Ok(text)
    }
}

/// Once a line holds no record, the lines behind it do not change the reason.
proof fn lemma_scan_fails(lines: Seq<Seq<char>>, failed: int, count: int)
    requires
        failed <= count,
        scanned_upto(lines, failed) is Err,
    ensures
        scanned_upto(lines, count) == scanned_upto(lines, failed),
    decreases count - failed,
{
    if failed < count {
        lemma_scan_fails(lines, failed, count - 1);
    }
}

/// What is found among the first records does not depend on the records behind them.
proof fn lemma_records_prefix(first: Seq<RecordView>, second: Seq<RecordView>, count: int)
    requires
        0 <= count <= first.len(),
        count <= second.len(),
        forall|i: int| 0 <= i < count ==> first[i] == second[i],
    ensures
        vertices_in(first, count) == vertices_in(second, count),
        edges_in(first, count) == edges_in(second, count),
        fixed_in(first, count) == fixed_in(second, count),
    decreases count,
{
    if count > 0 {
        lemma_records_prefix(first, second, count - 1);
    }
}

/// An edge that a line holds has as many words for its restriction as its kind has
/// scalars, and as many for its information matrix as the upper triangle has.
proof fn lemma_scanned_edge(kind: FactorType, tokens: Seq<Seq<char>>, line: usize)
    requires
        scanned_edge(kind, tokens, line) is Ok,
    ensures
        scanned_edge(kind, tokens, line)->Ok_0 is Edge,
        scanned_edge(kind, tokens, line)->Ok_0->Edge_restriction.len()
            == kind.spec_constraint_len(),
        scanned_edge(kind, tokens, line)->Ok_0->Edge_information.len() == upper_len(
            kind.spec_information_dim() as int,
        ),
{
    lemma_upper_len(kind.spec_information_dim() as int);
}

/// Once a vertex cannot be written, the vertices behind it do not change the reason.
proof fn lemma_vertices_error(model: ModelView, failed: int, count: int)
    requires
        failed <= count,
        vertices_error(model, failed) is Some,
    ensures
        vertices_error(model, count) == vertices_error(model, failed),
    decreases count - failed,
{
    if failed < count {
        lemma_vertices_error(model, failed, count - 1);
    }
}

/// Once an edge cannot be written, the edges behind it do not change the reason.
proof fn lemma_edges_error(model: ModelView, failed: int, count: int)
    requires
        failed <= count,
        edges_error(model, failed) is Some,
    ensures
        edges_error(model, count) == edges_error(model, failed),
    decreases count - failed,
{
    if failed < count {
        lemma_edges_error(model, failed, count - 1);
    }
}

/// The row and the column of the scalar at a position of the upper triangle.
pub open spec fn upper_position(dim: int, position: int) -> (int, int)
    decreases dim,
{
    upper_position_from(dim, position, 0)
}

/// The row and the column of the scalar at a position of the upper triangle that lies in
/// row `row` or below.
pub open spec fn upper_position_from(dim: int, position: int, row: int) -> (int, int)
    decreases dim - row,
{
    if row >= dim - 1 || position < upper_row_start(dim, row + 1) {
        (row, row + position - upper_row_start(dim, row))
    } else {
        upper_position_from(dim, position, row + 1)
    }
}

/// Each position of the upper triangle is the place of a scalar on or above the
/// diagonal.
pub proof fn lemma_upper_position(dim: int, position: int)
    requires
        0 <= position < upper_len(dim),
    ensures
        ({
            let (i, j) = upper_position(dim, position);
            0 <= i <= j < dim && upper_index(dim, i, j) == position
        }),
{
    if dim <= 0 {
        assert(upper_row_start(dim, dim) == 0);
    } else {
        lemma_upper_position_from(dim, position, 0);
    }
}

proof fn lemma_upper_position_from(dim: int, position: int, row: int)
    requires
        0 <= row < dim,
        upper_row_start(dim, row) <= position < upper_len(dim),
    ensures
        ({
            let (i, j) = upper_position_from(dim, position, row);
            0 <= i <= j < dim && upper_index(dim, i, j) == position
        }),
    decreases dim - row,
{
    if row >= dim - 1 || position < upper_row_start(dim, row + 1) {
        if row >= dim - 1 {
            assert(upper_row_start(dim, dim) == upper_row_start(dim, row) + dim - row);
        }
    } else {
        lemma_upper_position_from(dim, position, row + 1);
    }
}

/// The upper triangle of the full matrix that was made of an upper triangle is that upper
/// triangle.
pub proof fn lemma_triangle_round_trip(dim: int, upper: Seq<u64>, full: Seq<u64>, again: Seq<u64>)
    requires
        0 <= dim,
        upper.len() == upper_len(dim),
        again.len() == upper_len(dim),
        forall|i: int, j: int|
            0 <= i < dim && 0 <= j < dim ==> #[trigger] full[i * dim + j] == upper[upper_index(
                dim,
                i,
                j,
            )],
        forall|i: int, j: int|
            0 <= i <= j < dim ==> #[trigger] again[upper_index(dim, i, j)] == full[i * dim + j],
    ensures
        again == upper,
{
    assert forall|m: int| 0 <= m < upper.len() implies again[m] == upper[m] by {
        lemma_upper_position(dim, m);
        let (i, j) = upper_position(dim, m);
        assert(again[upper_index(dim, i, j)] == full[i * dim + j]);
    }
    assert(again =~= upper);
}

/// Each scalar of a matrix has its place in the upper triangle.
pub proof fn lemma_upper_index(dim: int, i: int, j: int)
    requires
        0 <= i < dim,
        0 <= j < dim,
    ensures
        0 <= upper_index(dim, i, j) < upper_len(dim),
        upper_index(dim, i, j) == upper_index(dim, j, i),
{
    let low = if i <= j {
        i
    } else {
        j
    };
    lemma_upper_row_start(dim, low);
    lemma_upper_rows_ascend(dim, low, dim);
}

/// A row of the upper triangle ends where the next begins, and so before every later row
/// begins.
pub proof fn lemma_upper_rows_ascend(dim: int, first: int, second: int)
    requires
        0 <= first < second <= dim,
    ensures
        upper_row_start(dim, first) + dim - first <= upper_row_start(dim, second),
    decreases second - first,
{
    if first + 1 < second {
        lemma_upper_rows_ascend(dim, first, second - 1);
    }
}

} // verus!
