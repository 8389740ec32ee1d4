use gs_rs::factor_graph::factor::FactorType;
use gs_rs::factor_graph::variable::VariableType;
use gs_rs::parser::g2o::{ComposeError, G2oParser, ParseError, Record};
use gs_rs::parser::model::{Edge, FactorGraphModel, Vertex};
use gs_rs::parser::NumberText;
use gs_rs::text::{chars_of, index_chars, join, parse_index, split_lines, split_tokens, string_of};
use std::collections::BTreeSet;

/// Numbers as Rust spells them.
struct Doubles;

impl NumberText for Doubles {
    fn parse(&self, word: &str) -> Option<u64> {
        word.parse::<f64>().ok().map(|value| value.to_bits())
    }

    fn format(&self, number: u64) -> String {
        format!("{:?}", f64::from_bits(number))
    }
}

fn bits(values: &[f64]) -> Vec<u64> {
    values.iter().map(|v| v.to_bits()).collect()
}

fn chars(text: &str) -> Vec<char> {
    text.chars().collect()
}

fn words(text: &str) -> Vec<Vec<char>> {
    text.split_whitespace().map(chars).collect()
}

const ALL_2D_TYPES: &str = "VERTEX_SE2 0 1.0 0.0 1.57
FIX 0
VERTEX_SE2 1 0.0 1.0 3.14
VERTEX_XY 2 1.5 2.0
EDGE_SE2 0 1 1.0 1.5 1.57 1.0 0.0 0.0 1.0 0.0 1.0
EDGE_SE2_XY 0 2 0.0 -1.0 1.0 0.0 1.0
EDGE_PRIOR_SE2 1 0.0 1.0 3.13 10.0 0.0 0.0 10.0 0.0 1.0
";

const ALL_3D_TYPES: &str = "PARAMS_SE3OFFSET 0 0 0 0 0 0 0 1
VERTEX_SE3:QUAT 0 18.7381 2.74428e-7 8.2287 0.0 0.0 0.0 1.0
FIX 0
VERTEX_SE3:QUAT 1 19.0477 2.34636 8.2319 -0.139007 0.0806488 0.14657 0.976059
VERTEX_TRACKXYZ 2 18.2645 4.24943 15.2057
EDGE_SE3:QUAT 0 1 0.309576 2.34636 0.00315914 -0.139007 0.0806488 0.14657 0.976059 1.0 9.62965e-19 9.62965e-19 5.88441e-8 -2.03096e-8 3.40337e-9 1.0 9.62965e-19 5.88441e-8 -2.03096e-8 3.40337e-9 1.0 5.88441e-8 -2.03096e-8 3.40337e-9 4108.72 -34.2982 884.091 3951.5 40.2084 4100.08
EDGE_SE3_PRIOR 1 0 0.309576 2.34636 0.00315914 -0.139007 0.0806488 0.14657 0.976059 1.0 9.62965e-19 9.62965e-19 5.88441e-8 -2.03096e-8 3.40337e-9 1.0 9.62965e-19 5.88441e-8 -2.03096e-8 3.40337e-9 1.0 5.88441e-8 -2.03096e-8 3.40337e-9 4108.72 -34.2982 884.091 3951.5 40.2084 4100.08
EDGE_SE3_TRACKXYZ 1 2 0 -0.034127 2.24359 -0.503123 3934.45 -9.14727 63.005 3998.72 10.7561 3909.38";

fn get_2d_model() -> FactorGraphModel {
    let vertices = vec![
        Vertex { id: 0, vertex_type: String::from("Vehicle2D"), content: bits(&[1.0, 0.0, 1.57]) },
        Vertex { id: 1, vertex_type: String::from("Vehicle2D"), content: bits(&[0.0, 1.0, 3.14]) },
        Vertex { id: 2, vertex_type: String::from("Landmark2D"), content: bits(&[1.5, 2.0]) },
    ];
    let edges = vec![
        Edge {
            edge_type: String::from("Odometry2D"),
            vertices: vec![0, 1],
            restriction: bits(&[1.0, 1.5, 1.57]),
            information_matrix: bits(&[1.0, 0.0, 0.0, 0.0, 1.0, 0.0, 0.0, 0.0, 1.0]),
        },
        Edge {
            edge_type: String::from("Observation2D"),
            vertices: vec![0, 2],
            restriction: bits(&[0.0, -1.0]),
            information_matrix: bits(&[1.0, 0.0, 0.0, 1.0]),
        },
        Edge {
            edge_type: String::from("Position2D"),
            vertices: vec![1],
            restriction: bits(&[0.0, 1.0, 3.13]),
            information_matrix: bits(&[10.0, 0.0, 0.0, 0.0, 10.0, 0.0, 0.0, 0.0, 1.0]),
        },
    ];
    let mut fixed_vertices = BTreeSet::new();
    fixed_vertices.insert(0);
    FactorGraphModel { vertices, edges, fixed_vertices }
}

fn pose_information() -> Vec<u64> {
    bits(&[
        1.0,
        0.000000000000000000962965,
        0.000000000000000000962965,
        0.0000000588441,
        -0.0000000203096,
        0.00000000340337,
        0.000000000000000000962965,
        1.0,
        0.000000000000000000962965,
        0.0000000588441,
        -0.0000000203096,
        0.00000000340337,
        0.000000000000000000962965,
        0.000000000000000000962965,
        1.0,
        0.0000000588441,
        -0.0000000203096,
        0.00000000340337,
        0.0000000588441,
        0.0000000588441,
        0.0000000588441,
        4108.72,
        -34.2982,
        884.091,
        -0.0000000203096,
        -0.0000000203096,
        -0.0000000203096,
        -34.2982,
        3951.5,
        40.2084,
        0.00000000340337,
        0.00000000340337,
        0.00000000340337,
        884.091,
        40.2084,
        4100.08,
    ])
}

fn get_3d_model() -> FactorGraphModel {
    let vertices = vec![
        Vertex {
            id: 0,
            vertex_type: String::from("Vehicle3D"),
            content: bits(&[18.7381, 0.000000274428, 8.2287, 0.0, 0.0, 0.0, 1.0]),
        },
        Vertex {
            id: 1,
            vertex_type: String::from("Vehicle3D"),
            content: bits(&[19.0477, 2.34636, 8.2319, -0.139007, 0.0806488, 0.14657, 0.976059]),
        },
        Vertex { id: 2, vertex_type: String::from("Landmark3D"), content: bits(&[18.2645, 4.24943, 15.2057]) },
    ];
    let edges = vec![
        Edge {
            edge_type: String::from("Odometry3D"),
            vertices: vec![0, 1],
            restriction: bits(&[0.309576, 2.34636, 0.00315914, -0.139007, 0.0806488, 0.14657, 0.976059]),
            information_matrix: pose_information(),
        },
        Edge {
            edge_type: String::from("Position3D"),
            vertices: vec![1],
            restriction: bits(&[0.309576, 2.34636, 0.00315914, -0.139007, 0.0806488, 0.14657, 0.976059]),
            information_matrix: pose_information(),
        },
        Edge {
            edge_type: String::from("Observation3D"),
            vertices: vec![1, 2],
            restriction: bits(&[-0.034127, 2.24359, -0.503123]),
            information_matrix: bits(&[3934.45, -9.14727, 63.005, -9.14727, 3998.72, 10.7561, 63.005, 10.7561, 3909.38]),
        },
    ];
    let mut fixed_vertices = BTreeSet::new();
    fixed_vertices.insert(0);
    FactorGraphModel { vertices, edges, fixed_vertices }
}

#[test]
fn g2o_test_2d_type_parsing() {
    let parsed_model = G2oParser::parse_string_to_model(ALL_2D_TYPES, &Doubles).unwrap();
    let expected_model = get_2d_model();
    assert_eq!(parsed_model, expected_model);
}

#[test]
fn g2o_test_2d_type_composition() {
    let model = get_2d_model();
    let composed_string = G2oParser::compose_model_to_string(&model, &Doubles).unwrap() + "\n";
    assert_eq!(&composed_string, ALL_2D_TYPES);
}

#[test]
fn g2o_test_3d_type_parsing() {
    let parsed_model = G2oParser::parse_string_to_model(ALL_3D_TYPES, &Doubles).unwrap();
    let expected_model = get_3d_model();
    assert_eq!(parsed_model, expected_model);
}

#[test]
fn g2o_test_3d_type_composition() {
    let model = get_3d_model();
    let composed_string = G2oParser::compose_model_to_string(&model, &Doubles).unwrap();
    assert_eq!(&composed_string, ALL_3D_TYPES);
}

#[test]
fn compose_then_parse_gives_the_model_back() {
    for model in [get_2d_model(), get_3d_model()] {
        let text = G2oParser::compose_model_to_string(&model, &Doubles).unwrap();
        assert_eq!(G2oParser::parse_string_to_model(&text, &Doubles).unwrap(), model);
    }
}

#[test]
fn blank_lines_and_comments_hold_nothing() {
    let text = "# a comment\n\n   \t \nVERTEX_XY 4 1.0 2.0\r\nPARAMS_SE3OFFSET 0 0 0 0 0 0 0 1\nFIX 4 4\n";
    let model = G2oParser::parse_string_to_model(text, &Doubles).unwrap();
    assert_eq!(model.vertices.len(), 1);
    assert_eq!(model.vertices[0].id, 4);
    assert_eq!(model.vertices[0].content, bits(&[1.0, 2.0]));
    assert!(model.edges.is_empty());
    assert_eq!(model.fixed_vertices.iter().cloned().collect::<Vec<usize>>(), vec![4]);
    assert!(matches!(G2oParser::parse_line(&chars("#VERTEX_XY"), 1), Ok(Record::Nothing)));
    assert!(matches!(G2oParser::parse_line(&chars(""), 1), Ok(Record::Nothing)));
    // A comment starts at the line's first character.
    assert_eq!(G2oParser::parse_line(&chars(" # indented"), 3).err(), Some(ParseError::UnknownKeyword(3)));
}

#[test]
fn parse_errors_name_the_line() {
    let parse = |text: &str| G2oParser::parse_string_to_model(text, &Doubles).err();
    assert_eq!(parse("VERTEX_XY 0 1.0 2.0\nVERTEX 1 1.0 2.0"), Some(ParseError::UnknownKeyword(2)));
    assert_eq!(
        parse("\nVERTEX_SE2 0 1.0 2.0"),
        Some(ParseError::WrongTokenCount { line: 2, expected: 5, actual: 4 })
    );
    assert_eq!(
        parse("EDGE_SE2 0 1 1.0 1.5 1.57 1.0 0.0 0.0 1.0 0.0"),
        Some(ParseError::WrongTokenCount { line: 1, expected: 12, actual: 11 })
    );
    assert_eq!(parse("VERTEX_XY -1 1.0 2.0"), Some(ParseError::InvalidNumber(1)));
    assert_eq!(parse("VERTEX_XY 1 1.0 two"), Some(ParseError::InvalidNumber(1)));
    assert_eq!(parse("#\n#\nEDGE_SE2_XY 0 x 0.0 -1.0 1.0 0.0 1.0"), Some(ParseError::InvalidNumber(3)));
    assert_eq!(parse("EDGE_SE2_XY 0 2 0.0 -1.0 1.0 0.0 1,0"), Some(ParseError::InvalidNumber(1)));
    assert_eq!(parse("FIX"), Some(ParseError::EmptyFix(1)));
    assert_eq!(parse("FIX 1 2.5"), Some(ParseError::InvalidNumber(1)));
    assert_eq!(
        parse("EDGE_SE3_TRACKXYZ 1 2 1 -0.034127 2.24359 -0.503123 3934.45 -9.14727 63.005 3998.72 10.7561 3909.38"),
        Some(ParseError::UnsupportedOffset(1))
    );
    // The first line that fails decides, whatever the reason.
    assert_eq!(parse("VERTEX_XY 1 1.0 two\nNONSENSE"), Some(ParseError::InvalidNumber(1)));
}

#[test]
fn records_hold_the_words_of_a_line() {
    match G2oParser::parse_line(&chars("  EDGE_SE3_PRIOR 3 0 a b c d e f g 1 2 3 4 5 6 7 8 9 10 11 12 13 14 15 16 17 18 19 20 21"), 9) {
        Ok(Record::Edge { kind, vertices, restriction, information }) => {
            assert_eq!(kind, FactorType::Position3D);
            assert_eq!(vertices, vec![3]);
            assert_eq!(restriction, words("a b c d e f g"));
            assert_eq!(information.len(), 21);
            assert_eq!(information[20], chars("21"));
        }
        other => panic!("no edge: {:?}", other),
    }
    match G2oParser::parse_vertex(VariableType::Landmark3D, &words("VERTEX_TRACKXYZ +12 x y z"), 1) {
        Ok(Record::Vertex { kind, id, content }) => {
            assert_eq!(kind, VariableType::Landmark3D);
            assert_eq!(id, 12);
            assert_eq!(content, words("x y z"));
        }
        other => panic!("no vertex: {:?}", other),
    }
    match G2oParser::parse_fix(&words("FIX 3 1 2"), 1) {
        Ok(Record::Fix { ids }) => assert_eq!(ids, vec![3, 1, 2]),
        other => panic!("no fix: {:?}", other),
    }
    assert_eq!(G2oParser::assert_tokens(5, 5, 1), Ok(()));
    assert_eq!(
        G2oParser::assert_tokens(5, 6, 7),
        Err(ParseError::WrongTokenCount { line: 7, expected: 5, actual: 6 })
    );
    assert_eq!(G2oParser::parse_val(&chars("42"), 1), Ok(42));
    assert_eq!(G2oParser::parse_val(&chars("4 2"), 8), Err(ParseError::InvalidNumber(8)));
}

#[test]
fn upper_triangle_and_full_matrix() {
    assert_eq!(G2oParser::get_index_mapping_vec_and_upper_t_len(3), (vec![0, 1, 2, 1, 3, 4, 2, 4, 5], 6));
    assert_eq!(G2oParser::get_index_mapping_vec_and_upper_t_len(2), (vec![0, 1, 1, 2], 3));
    assert_eq!(G2oParser::get_index_mapping_vec_and_upper_t_len(0), (vec![], 0));
    assert_eq!(G2oParser::get_index_mapping_vec_and_upper_t_len(6).1, 21);
    assert_eq!(G2oParser::get_upper_triangle_indices(3), vec![0, 1, 2, 4, 5, 8]);
    assert_eq!(G2oParser::get_upper_triangle_indices(2), vec![0, 1, 3]);
    assert_eq!(G2oParser::full_matrix(3, &vec![1, 2, 3, 4, 5, 6]), vec![1, 2, 3, 2, 4, 5, 3, 5, 6]);
    assert_eq!(G2oParser::upper_triangle(3, &vec![1, 2, 3, 2, 4, 5, 3, 5, 6]), vec![1, 2, 3, 4, 5, 6]);
    let upper: Vec<u64> = (0..21).collect();
    assert_eq!(G2oParser::upper_triangle(6, &G2oParser::full_matrix(6, &upper)), upper);
}

#[test]
fn lines_are_written_word_by_word() {
    let content = vec![String::from("1.5"), String::from("2.0")];
    assert_eq!(G2oParser::vertex_line(VariableType::Landmark2D, 12, &content, false), "VERTEX_XY 12 1.5 2.0");
    assert_eq!(G2oParser::vertex_line(VariableType::Landmark2D, 12, &content, true), "VERTEX_XY 12 1.5 2.0\nFIX 12");
    let upper = vec![String::from("a"), String::from("b"), String::from("c")];
    assert_eq!(
        G2oParser::edge_line(FactorType::Observation2D, &vec![0, 10], &content, &upper),
        "EDGE_SE2_XY 0 10 1.5 2.0 a b c"
    );
    assert_eq!(
        G2oParser::edge_line(FactorType::Position3D, &vec![3], &content, &upper),
        "EDGE_SE3_PRIOR 3 0 1.5 2.0 a b c"
    );
    let mut tokens = vec![String::from("x")];
    G2oParser::append_usize_slice_to_string_vec(&mut tokens, &vec![0, 7, 1200]);
    assert_eq!(tokens, vec!["x", "0", "7", "1200"]);
}

#[test]
fn compose_errors_name_the_vertex_or_the_edge() {
    let mut model = get_2d_model();
    model.vertices[2].vertex_type = String::from("Landmark");
    assert_eq!(G2oParser::compose_model_to_string(&model, &Doubles), Err(ComposeError::UnsupportedVertexType(2)));
    let mut model = get_2d_model();
    model.edges[1].edge_type = String::from("Observation");
    assert_eq!(G2oParser::compose_model_to_string(&model, &Doubles), Err(ComposeError::UnsupportedEdgeType(1)));
    let mut model = get_2d_model();
    model.edges[0].information_matrix.pop();
    assert_eq!(G2oParser::compose_model_to_string(&model, &Doubles), Err(ComposeError::EdgeShape(0)));
}

#[test]
fn text_is_split_into_lines_and_words() {
    let lines: Vec<String> = split_lines(&chars_of("a b\n\n c\n")).iter().map(string_of).collect();
    assert_eq!(lines, vec!["a b", "", " c", ""]);
    assert_eq!(split_lines(&chars_of("")), vec![Vec::<char>::new()]);
    let tokens: Vec<String> = split_tokens(&chars_of(" \t one\u{a0}two  3\r")).iter().map(string_of).collect();
    assert_eq!(tokens, vec!["one", "two", "3"]);
    assert!(split_tokens(&chars_of("  ")).is_empty());
    assert_eq!(join(&vec![String::from("a"), String::from("b"), String::from("c")], ", "), "a, b, c");
    assert_eq!(join(&vec![], ", "), "");
}

#[test]
fn indices_are_read_and_written_in_decimal() {
    assert_eq!(parse_index(&chars("0")), Some(0));
    assert_eq!(parse_index(&chars("+17")), Some(17));
    assert_eq!(parse_index(&chars("007")), Some(7));
    assert_eq!(parse_index(&chars("")), None);
    assert_eq!(parse_index(&chars("+")), None);
    assert_eq!(parse_index(&chars("-3")), None);
    assert_eq!(parse_index(&chars("1.0")), None);
    assert_eq!(parse_index(&chars(&usize::MAX.to_string())), Some(usize::MAX));
    assert_eq!(parse_index(&chars("18446744073709551616")), None);
    assert_eq!(parse_index(&chars("99999999999999999999999")), None);
    for value in [0, 9, 10, 1203, usize::MAX] {
        assert_eq!(string_of(&index_chars(value)), value.to_string());
        assert_eq!(parse_index(&index_chars(value)), Some(value));
    }
}
