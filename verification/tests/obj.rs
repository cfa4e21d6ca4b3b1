use raytracer::obj::{is_whitespace, parse_line, read_mesh, MeshError, MeshLine, MeshText};

fn lines(text: &str) -> Vec<String> {
    text.lines().map(|line| line.to_string()).collect()
}

/// What the line says, read with the standard library's own splitting and
/// number parsing.
fn reference(line: &str) -> Result<Option<Vec<String>>, ()> {
    if line.len() <= 1 {
        return Ok(None);
    }
    let words: Vec<&str> = line.split_whitespace().collect();
    if words.is_empty() {
        return Err(());
    }
    if words[0] != "v" && words[0] != "f" {
        return Ok(None);
    }
    if words.len() < 4 {
        return Err(());
    }
    if words[0] == "v" {
        return Ok(Some(words[..4].iter().map(|w| w.to_string()).collect()));
    }
    let mut out = vec!["f".to_string()];
    for word in &words[1..4] {
        match word.parse::<i64>().ok().and_then(|value| value.checked_sub(1)) {
            Some(index) => out.push(index.to_string()),
            None => return Err(()),
        }
    }
    Ok(Some(out))
}

fn library(line: &str) -> Result<Option<Vec<String>>, ()> {
    match parse_line(line) {
        Ok(MeshLine::Ignored) => Ok(None),
        Ok(MeshLine::Vertex(x, y, z)) => Ok(Some(vec![
            "v".to_string(),
            x.to_string(),
            y.to_string(),
            z.to_string(),
        ])),
        Ok(MeshLine::Face(a, b, c)) => Ok(Some(vec![
            "f".to_string(),
            a.to_string(),
            b.to_string(),
            c.to_string(),
        ])),
        Err(_) => Err(()),
    }
}

#[test]
fn vertex_line_gives_its_three_words() {
    assert_eq!(
        parse_line("v 1.0 -2.5 3e2"),
        Ok(MeshLine::Vertex("1.0", "-2.5", "3e2"))
    );
    assert_eq!(
        parse_line("  v\t1   2\u{a0}3  4 5"),
        Ok(MeshLine::Vertex("1", "2", "3"))
    );
    assert_eq!(
        parse_line("v x y z"),
        Ok(MeshLine::Vertex("x", "y", "z"))
    );
}

#[test]
fn face_line_gives_indices_from_zero() {
    assert_eq!(parse_line("f 1 2 3"), Ok(MeshLine::Face(0, 1, 2)));
    assert_eq!(parse_line("f 10 +20 030 7"), Ok(MeshLine::Face(9, 19, 29)));
    assert_eq!(parse_line("f 0 -1 1"), Ok(MeshLine::Face(-1, -2, 0)));
    assert_eq!(
        parse_line("f 9223372036854775807 1 1"),
        Ok(MeshLine::Face(9223372036854775806, 0, 0))
    );
    assert_eq!(
        parse_line("f -9223372036854775807 1 1"),
        Ok(MeshLine::Face(i64::MIN, 0, 0))
    );
}

#[test]
fn other_lines_say_nothing() {
    for line in ["", "v", "f", " ", "#", "# a comment", "vn 0 0 1", "vt 0 1", "g name", "o x", "ff 1 2 3", "V 1 2 3"] {
        assert_eq!(parse_line(line), Ok(MeshLine::Ignored), "{:?}", line);
    }
}

#[test]
fn line_of_white_space_has_no_keyword() {
    assert_eq!(parse_line("  "), Err(MeshError::NoKeyword));
    assert_eq!(parse_line("\t \t"), Err(MeshError::NoKeyword));
    assert_eq!(parse_line("\u{3000}"), Err(MeshError::NoKeyword));
}

#[test]
fn line_with_too_few_words_misses_a_field() {
    assert_eq!(parse_line("v "), Err(MeshError::MissingField));
    assert_eq!(parse_line("v 1 2"), Err(MeshError::MissingField));
    assert_eq!(parse_line("f 1 2"), Err(MeshError::MissingField));
    assert_eq!(parse_line("f  "), Err(MeshError::MissingField));
}

#[test]
fn face_with_a_word_that_is_no_index() {
    for line in [
        "f 1 2 x",
        "f 1/1 2/2 3/3",
        "f 1.0 2 3",
        "f 1 2 -",
        "f + 2 3",
        "f 1 2 3e1",
        "f 1 --2 3",
        "f 9223372036854775808 1 1",
        "f -9223372036854775808 1 1",
        "f 99999999999999999999999999 1 1",
        "f 1 2 \u{661}",
    ] {
        assert_eq!(parse_line(line), Err(MeshError::BadIndex), "{:?}", line);
    }
}

#[test]
fn lines_are_read_as_the_standard_library_reads_them() {
    let samples = [
        "v 0 0 0",
        "v 1.5 2.5 -3.5 extra",
        "v\u{2003}1\u{2028}2\u{205f}3",
        "v\u{200b}1 2 3",
        "v 1 2",
        "f 1 2 3",
        "f 3 2 1 4 5",
        "f -1 -2 -3",
        "f 1 2",
        "f a b c",
        "f 1 2 3.0",
        "f\u{85}1\u{1680}2\u{202f}3",
        "f\u{feff}1 2 3",
        "\u{a0}\u{a0}",
        "é",
        "é 1 2 3",
        "vv 1 2 3",
        "  f   7   8   9   ",
        "f 0000000000000000000000001 2 3",
        "f 9223372036854775807 9223372036854775807 9223372036854775807",
        "f -9223372036854775807 -9223372036854775808 1",
        "f -9223372036854775808 1 1",
        "f 9223372036854775808 1 1",
        "f 1 2 +",
        "f 1 2 ++3",
        "f -0 +0 0",
        "f 1 2 3\r",
        "v 1 2 3\r",
    ];
    for line in samples.iter() {
        assert_eq!(library(line), reference(line), "{:?}", line);
    }
}

#[test]
fn white_space_is_what_the_standard_library_calls_white_space() {
    for code in 0..0x11_0000u32 {
        if let Some(c) = char::from_u32(code) {
            assert_eq!(is_whitespace(c), c.is_whitespace(), "{:x}", code);
        }
    }
}

#[test]
fn mesh_is_read_from_its_lines() {
    let text = lines("# a square\nv 0 0 0\nv 1 0 0\nv 1 1 0\nv 0 1 0\n\nf 1 2 3\nf 1 3 4\n");
    let mesh = read_mesh(&text).unwrap();
    assert_eq!(
        mesh.vertices(),
        &vec![("0", "0", "0"), ("1", "0", "0"), ("1", "1", "0"), ("0", "1", "0")]
    );
    assert_eq!(mesh.faces(), &vec![(0, 1, 2), (0, 2, 3)]);
}

#[test]
fn mesh_without_lines_is_empty() {
    let none: Vec<String> = Vec::new();
    let mesh = read_mesh(&none).unwrap();
    assert!(mesh.vertices().is_empty());
    assert!(mesh.faces().is_empty());
}

#[test]
fn face_may_name_only_vertices_given_before_it() {
    let text = lines("v 0 0 0\nv 1 0 0\nf 1 2 3\nv 1 1 0\n");
    assert_eq!(read_mesh(&text).err(), Some((2, MeshError::UnknownVertex)));
    let zero = lines("v 0 0 0\nv 1 0 0\nv 1 1 0\nf 0 1 2\n");
    assert_eq!(read_mesh(&zero).err(), Some((3, MeshError::UnknownVertex)));
    let negative = lines("v 0 0 0\nv 1 0 0\nv 1 1 0\nf 1 2 -1\n");
    assert_eq!(read_mesh(&negative).err(), Some((3, MeshError::UnknownVertex)));
}

#[test]
fn first_line_that_cannot_be_read_is_reported() {
    let text = lines("v 0 0 0\nv 1 0\nf 1 x 1\n");
    assert_eq!(read_mesh(&text).err(), Some((1, MeshError::MissingField)));
    let index = lines("v 0 0 0\nf 1 x 1\nv 1 0\n");
    assert_eq!(read_mesh(&index).err(), Some((1, MeshError::BadIndex)));
    let blank = lines("v 0 0 0\n   \nv 1 0\n");
    assert_eq!(read_mesh(&blank).err(), Some((1, MeshError::NoKeyword)));
}

#[test]
fn mesh_grows_line_by_line() {
    let (mesh, error) = MeshText::new().with_line("v 1 2 3");
    assert_eq!(error, None);
    let (mesh, error) = mesh.with_line("f 1 1 1");
    assert_eq!(error, None);
    let (mesh, error) = mesh.with_line("f 1 2 1");
    assert_eq!(error, Some(MeshError::UnknownVertex));
    let (mesh, error) = mesh.with_line("vn 0 0 1");
    assert_eq!(error, None);
    assert_eq!(mesh.vertices(), &vec![("1", "2", "3")]);
    assert_eq!(mesh.faces(), &vec![(0, 0, 0)]);
}
