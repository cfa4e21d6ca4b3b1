//! Reading the text of a mesh.
//!
//! A mesh is written line by line. A line that begins with the word `v`
//! gives a vertex by three coordinates; a line that begins with the word `f`
//! gives a face by the numbers of three vertices given before it, the first
//! vertex being number 1. Words are separated by white space. Other lines,
//! and lines of at most one byte, say nothing.
//!
//! The coordinates are handed on as the words that were found: what number a
//! coordinate is, is for the caller to say.
use crate::decimal::{all_digits, digit_value, digits_value, is_digit, lemma_value_grows};
use vstd::prelude::*;
use vstd::string::StrSliceExecFns;

verus! {

/// Whether `c` is white space.
pub open spec fn is_space(c: char) -> bool {
    ||| '\u{9}' <= c <= '\u{d}'
    ||| c == ' '
    ||| c == '\u{85}'
    ||| c == '\u{a0}'
    ||| c == '\u{1680}'
    ||| '\u{2000}' <= c <= '\u{200a}'
    ||| c == '\u{2028}'
    ||| c == '\u{2029}'
    ||| c == '\u{202f}'
    ||| c == '\u{205f}'
    ||| c == '\u{3000}'
}

/// Where the white space that begins at `pos` ends.
pub open spec fn spaces_end(text: Seq<char>, pos: int) -> int
    decreases text.len() - pos,
{
    if 0 <= pos < text.len() && is_space(text[pos]) {
        spaces_end(text, pos + 1)
    } else {
        pos
    }
}

/// Where the word that begins at `pos` ends.
pub open spec fn word_end(text: Seq<char>, pos: int) -> int
    decreases text.len() - pos,
{
    if 0 <= pos < text.len() && !is_space(text[pos]) {
        word_end(text, pos + 1)
    } else {
        pos
    }
}

/// Where word number `k` of `text` begins, the first word being number 0;
/// the length of `text` where it has no such word.
pub open spec fn word_start(text: Seq<char>, k: nat) -> int
    decreases k,
{
    if k == 0 {
        spaces_end(text, 0)
    } else {
        spaces_end(text, word_end(text, word_start(text, (k - 1) as nat)))
    }
}

/// Whether `text` has a word number `k`.
pub open spec fn has_word(text: Seq<char>, k: nat) -> bool {
    word_start(text, k) < text.len()
}

/// Word number `k` of `text`.
pub open spec fn word(text: Seq<char>, k: nat) -> Seq<char> {
    text.subrange(word_start(text, k), word_end(text, word_start(text, k)))
}

/// The whole number that `word` stands for: decimal digits, with a sign
/// before them or none.
pub open spec fn signed_value(word: Seq<char>) -> Option<int> {
    let signed = word.len() > 0 && (word[0] == '-' || word[0] == '+');
    let digits = if signed {
        word.subrange(1, word.len() as int)
    } else {
        word
    };
    if digits.len() == 0 || !all_digits(digits) {
        None
    } else if signed && word[0] == '-' {
        Some(-(digits_value(digits) as int))
    } else {
        Some(digits_value(digits) as int)
    }
}

/// The vertex index that `word` stands for: one less than its number, where
/// neither the number nor its negative is beyond `i64::MAX`.
pub open spec fn index_of(word: Seq<char>) -> Option<int> {
    match signed_value(word) {
        Some(value) => if -i64::MAX <= value <= i64::MAX {
            Some(value - 1)
        } else {
            None
        },
        None => None,
    }
}

/// What a line says.
pub enum Record {
    /// Nothing.
    Ignored,
    /// A vertex, by the three words for its coordinates.
    Vertex(Seq<char>, Seq<char>, Seq<char>),
    /// A face, by the indices of its three vertices.
    Face(int, int, int),
}

/// Why the text of a mesh cannot be read.
#[derive(Clone, Copy, Debug, PartialEq, Eq, Structural)]
pub enum MeshError {
    /// A line of more than one byte holds no word.
    NoKeyword,
    /// A vertex or a face is given by fewer than three words.
    MissingField,
    /// A word that gives a vertex of a face is no whole number, or one whose
    /// size is beyond `i64::MAX`.
    BadIndex,
    /// A face names a vertex that no line before it gives.
    UnknownVertex,
}

/// What the line `text` says, or why it cannot be read.
pub open spec fn record_of(text: Seq<char>) -> Result<Record, MeshError> {
    if vstd::utf8::encode_utf8(text).len() <= 1 {
        Ok(Record::Ignored)
    } else if !has_word(text, 0) {
        Err(MeshError::NoKeyword)
    } else if word(text, 0) == seq!['v'] {
        if !has_word(text, 3) {
            Err(MeshError::MissingField)
        } else {
            Ok(Record::Vertex(word(text, 1), word(text, 2), word(text, 3)))
        }
    } else if word(text, 0) == seq!['f'] {
        if !has_word(text, 3) {
            Err(MeshError::MissingField)
        } else {
            match (index_of(word(text, 1)), index_of(word(text, 2)), index_of(word(text, 3))) {
                (Some(a), Some(b), Some(c)) => Ok(Record::Face(a, b, c)),
                _ => Err(MeshError::BadIndex),
            }
        }
    } else {
        Ok(Record::Ignored)
    }
}

/// What a line says, with the words of a vertex as parts of the line.
#[derive(Clone, Copy, Debug, PartialEq, Eq)]
pub enum MeshLine<'a> {
    /// Nothing.
    Ignored,
    /// A vertex, by the three words for its coordinates.
    Vertex(&'a str, &'a str, &'a str),
    /// A face, by the indices of its three vertices.
    Face(i64, i64, i64),
}

impl<'a> View for MeshLine<'a> {
    type V = Record;

    open spec fn view(&self) -> Record {
        match *self {
            MeshLine::Ignored => Record::Ignored,
            MeshLine::Vertex(x, y, z) => Record::Vertex(x@, y@, z@),
            MeshLine::Face(a, b, c) => Record::Face(a as int, b as int, c as int),
        }
    }
}

/// Whether `c` is white space.
pub fn is_whitespace(c: char) -> (r: bool)
    ensures
        r == is_space(c),
{
    let code = c as u32;
    (9 <= code && code <= 13) || code == 0x20 || code == 0x85 || code == 0xa0 || code == 0x1680 || (
    0x2000 <= code && code <= 0x200a) || code == 0x2028 || code == 0x2029 || code == 0x202f || code
        == 0x205f || code == 0x3000
}

/// The number that the digit `c` stands for, where `c` is a digit.
fn digit_of(c: char) -> (r: Option<u8>)
    ensures
        match r {
            Some(digit) => is_digit(c) && digit == digit_value(c),
            None => !is_digit(c),
        },
{
    let code = c as u32;
    if 48 <= code && code <= 57 {
        Some((code - 48) as u8)
    } else {
        None
    }
}

/// The characters of `text`.
fn chars_of(text: &str) -> (chars: Vec<char>)
    ensures
        chars@ == text@,
{
    broadcast use vstd::string::group_string_axioms;

    let mut chars: Vec<char> = Vec::new();
    for c in it: text.chars()
        invariant
            chars@.len() == it.index(),
            forall|i: int| 0 <= i < chars@.len() ==> chars@[i] == it.seq()[i],
            it.seq() == text@,
    {
        chars.push(c);
    }
    assert(chars@ =~= text@);
    chars
}

/// Where the white space that begins at `pos` ends.
fn skip_spaces(chars: &Vec<char>, pos: usize) -> (end: usize)
    requires
        pos <= chars@.len(),
    ensures
        end == spaces_end(chars@, pos as int),
        pos <= end <= chars@.len(),
{
    let mut end = pos;
    while end < chars.len() && is_whitespace(chars[end])
        invariant
            pos <= end <= chars@.len(),
            spaces_end(chars@, pos as int) == spaces_end(chars@, end as int),
        decreases chars@.len() - end,
    {
        end = end + 1;
    }
    end
}

/// Where the word that begins at `pos` ends.
fn skip_word(chars: &Vec<char>, pos: usize) -> (end: usize)
    requires
        pos <= chars@.len(),
    ensures
        end == word_end(chars@, pos as int),
        pos <= end <= chars@.len(),
{
    let mut end = pos;
    while end < chars.len() && !is_whitespace(chars[end])
        invariant
            pos <= end <= chars@.len(),
            word_end(chars@, pos as int) == word_end(chars@, end as int),
        decreases chars@.len() - end,
    {
        end = end + 1;
    }
    end
}

/// Reads the vertex index that the characters from `start` to `end` stand
/// for.
fn read_index(chars: &Vec<char>, start: usize, end: usize) -> (r: Option<i64>)
    requires
        start <= end <= chars@.len(),
    ensures
        match r {
            Some(index) => index_of(chars@.subrange(start as int, end as int)) == Some(
                index as int,
            ),
            None => index_of(chars@.subrange(start as int, end as int)) is None,
        },
{
    let ghost word = chars@.subrange(start as int, end as int);
    if start == end {
        return None;
    }
    let first = chars[start];
    assert(first == word[0]);
    let signed = first == '-' || first == '+';
    let from = if signed {
        start + 1
    } else {
        start
    };
    let ghost digits = chars@.subrange(from as int, end as int);
    proof {
        if signed {
            assert(digits =~= word.subrange(1, word.len() as int));
        } else {
            assert(digits =~= word);
        }
    }
    if from == end {
        return None;
    }
    let limit: u128 = i64::MAX as u128;
    let mut value: u128 = 0;
    let mut i = from;
    proof {
        assert(digits.subrange(0, 0).len() == 0);
    }
    while i < end
        invariant
            from <= i <= end <= chars@.len(),
            digits == chars@.subrange(from as int, end as int),
            word == chars@.subrange(start as int, end as int),
            !all_digits(digits) ==> index_of(word) is None,
            all_digits(digits) && digits_value(digits) > i64::MAX ==> index_of(word) is None,
            all_digits(digits.subrange(0, i - from)),
            digits_value(digits.subrange(0, i - from)) == value,
            value <= limit,
            limit == i64::MAX,
        decreases end - i,
    {
        let found = digit_of(chars[i]);
        let ghost longer = digits.subrange(0, i + 1 - from);
        proof {
            assert(longer.drop_last() =~= digits.subrange(0, i - from));
            assert(longer.last() == chars@[i as int]);
        }
        let digit = match found {
            Some(digit) => digit as u128,
            None => {
                proof {
                    assert(digits[i - from] == chars@[i as int]);
                    assert(!is_digit(digits[i - from]));
                }
                return None;
            },
        };
        proof {
            assert(all_digits(longer)) by {
                assert forall|k: int| 0 <= k < longer.len() implies is_digit(
                    #[trigger] longer[k],
                ) by {
                    if k < longer.len() - 1 {
                        assert(longer[k] == digits.subrange(0, i - from)[k]);
                    }
                }
            }
        }
        if value * 10 + digit > limit {
            proof {
                if all_digits(digits) {
                    lemma_value_grows(digits, i + 1 - from);
                }
            }
            return None;
        }
        value = value * 10 + digit;
        i = i + 1;
    }
    proof {
        assert(digits.subrange(0, end - from) =~= digits);
    }
    let number: i64 = if first == '-' {
        -(value as i64)
    } else {
        value as i64
    };
    Some(number - 1)
}

/// Reads a line of the text of a mesh: what the line says, or why it cannot
/// be read.
pub fn parse_line<'a>(line: &'a str) -> (r: Result<MeshLine<'a>, MeshError>)
    ensures
        match r {
            Ok(found) => record_of(line@) == Ok::<Record, MeshError>(found@),
            Err(error) => record_of(line@) == Err::<Record, MeshError>(error),
        },
{
    if line.as_bytes().len() <= 1 {
        return Ok(MeshLine::Ignored);
    }
    let chars = chars_of(line);
    let n = chars.len();
    proof {
        reveal_with_fuel(word_start, 4);
    }
    let s0 = skip_spaces(&chars, 0);
    if s0 >= n {
        return Err(MeshError::NoKeyword);
    }
    let e0 = skip_word(&chars, s0);
    let is_vertex = e0 - s0 == 1 && chars[s0] == 'v';
    let is_face = e0 - s0 == 1 && chars[s0] == 'f';
    proof {
        let first = word(line@, 0);
        assert(first == chars@.subrange(s0 as int, e0 as int));
        assert(first.len() == e0 - s0);
        if e0 - s0 == 1 {
            assert(first[0] == chars@[s0 as int]);
        }
        assert(is_vertex <==> first =~= seq!['v']);
        assert(is_face <==> first =~= seq!['f']);
    }
    if !is_vertex && !is_face {
        return Ok(MeshLine::Ignored);
    }
    let s1 = skip_spaces(&chars, e0);
    let e1 = skip_word(&chars, s1);
    let s2 = skip_spaces(&chars, e1);
    let e2 = skip_word(&chars, s2);
    let s3 = skip_spaces(&chars, e2);
    let e3 = skip_word(&chars, s3);
    if s3 >= n {
        return Err(MeshError::MissingField);
    }
    if is_vertex {
        let x = line.substring_char(s1, e1);
        let y = line.substring_char(s2, e2);
        let z = line.substring_char(s3, e3);
        return Ok(MeshLine::Vertex(x, y, z));
    }
    let a = read_index(&chars, s1, e1);
    let b = read_index(&chars, s2, e2);
    let c = read_index(&chars, s3, e3);
    match (a, b, c) {
        (Some(a), Some(b), Some(c)) => Ok(MeshLine::Face(a, b, c)),
        _ => Err(MeshError::BadIndex),
    }
}

/// A mesh as its text gives it: the vertices, each by the three words for
/// its coordinates, and the faces, each by the indices of its three
/// vertices.
pub struct Mesh {
    /// The vertices in the order of their lines.
    pub vertices: Seq<(Seq<char>, Seq<char>, Seq<char>)>,
    /// The faces in the order of their lines.
    pub faces: Seq<(nat, nat, nat)>,
}

/// The mesh `mesh` with what `record` says added to it. A face is added where
/// each of its indices is that of a vertex of `mesh`.
pub open spec fn add_record(mesh: Mesh, record: Record) -> Result<Mesh, MeshError> {
    match record {
        Record::Ignored => Ok(mesh),
        Record::Vertex(x, y, z) => Ok(
            Mesh { vertices: mesh.vertices.push((x, y, z)), faces: mesh.faces },
        ),
        Record::Face(a, b, c) => if 0 <= a < mesh.vertices.len() && 0 <= b < mesh.vertices.len()
            && 0 <= c < mesh.vertices.len() {
            Ok(
                Mesh {
                    vertices: mesh.vertices,
                    faces: mesh.faces.push((a as nat, b as nat, c as nat)),
                },
            )
        } else {
            Err(MeshError::UnknownVertex)
        },
    }
}

/// The mesh `mesh` with what the line `text` says added to it.
pub open spec fn add_text(mesh: Mesh, text: Seq<char>) -> Result<Mesh, MeshError> {
    match record_of(text) {
        Ok(record) => add_record(mesh, record),
        Err(error) => Err(error),
    }
}

/// The mesh that the first `count` of the lines `lines` give; or the number
/// of the first line that cannot be read, the first line being number 0, and
/// why it cannot.
pub open spec fn mesh_of(lines: Seq<Seq<char>>, count: nat) -> Result<Mesh, (nat, MeshError)>
    decreases count,
{
    if count == 0 {
        Ok(Mesh { vertices: Seq::empty(), faces: Seq::empty() })
    } else {
        match mesh_of(lines, (count - 1) as nat) {
            Ok(mesh) => match add_text(mesh, lines[count - 1]) {
                Ok(more) => Ok(more),
                Err(error) => Err(((count - 1) as nat, error)),
            },
            Err(fault) => Err(fault),
        }
    }
}

/// The lines `lines` as texts.
pub open spec fn line_texts(lines: Seq<String>) -> Seq<Seq<char>> {
    Seq::new(lines.len(), |i: int| lines[i]@)
}

/// A mesh that was read, with the words of its vertices as parts of the
/// lines that it was read from.
#[derive(Debug)]
pub struct MeshText<'a> {
    vertices: Vec<(&'a str, &'a str, &'a str)>,
    faces: Vec<(usize, usize, usize)>,
}

impl<'a> View for MeshText<'a> {
    type V = Mesh;

    closed spec fn view(&self) -> Mesh {
        Mesh {
            vertices: Seq::new(
                self.vertices@.len(),
                |i: int| (self.vertices@[i].0@, self.vertices@[i].1@, self.vertices@[i].2@),
            ),
            faces: Seq::new(
                self.faces@.len(),
                |i: int|
                    (self.faces@[i].0 as nat, self.faces@[i].1 as nat, self.faces@[i].2 as nat),
            ),
        }
    }
}

/// Every face of `mesh` names vertices of `mesh`.
pub open spec fn faces_known(mesh: Mesh) -> bool {
    forall|i: int|
        0 <= i < mesh.faces.len() ==> (#[trigger] mesh.faces[i]).0 < mesh.vertices.len()
            && mesh.faces[i].1 < mesh.vertices.len() && mesh.faces[i].2 < mesh.vertices.len()
}

impl<'a> MeshText<'a> {
    /// A mesh that was read is well formed when each of its faces names
    /// vertices of it. Every mesh that executable code holds is well formed.
    #[verifier::type_invariant]
    pub closed spec fn wf(&self) -> bool {
        forall|i: int|
            0 <= i < self.faces@.len() ==> (#[trigger] self.faces@[i]).0 < self.vertices@.len()
                && self.faces@[i].1 < self.vertices@.len() && self.faces@[i].2
                < self.vertices@.len()
    }

    /// The mesh without a vertex or a face.
    pub fn new() -> (mesh: MeshText<'a>)
        ensures
            mesh@ == (Mesh { vertices: Seq::empty(), faces: Seq::empty() }),
    {
        let mesh = MeshText { vertices: Vec::new(), faces: Vec::new() };
        assert(mesh@.vertices =~= Seq::empty());
        assert(mesh@.faces =~= Seq::empty());
        mesh
    }

    /// The vertices, each by the three words for its coordinates.
    pub fn vertices(&self) -> (r: &Vec<(&'a str, &'a str, &'a str)>)
        ensures
            r@.len() == self@.vertices.len(),
            forall|i: int|
                0 <= i < r@.len() ==> (#[trigger] r@[i]).0@ == self@.vertices[i].0 && r@[i].1@
                    == self@.vertices[i].1 && r@[i].2@ == self@.vertices[i].2,
    {
        &self.vertices
    }

    /// The faces, each by the indices of its three vertices. Each index is
    /// that of a vertex of the mesh.
    pub fn faces(&self) -> (r: &Vec<(usize, usize, usize)>)
        ensures
            r@.len() == self@.faces.len(),
            forall|i: int|
                0 <= i < r@.len() ==> (#[trigger] r@[i]).0 == self@.faces[i].0 && r@[i].1
                    == self@.faces[i].1 && r@[i].2 == self@.faces[i].2,
            faces_known(self@),
    {
        proof {
            use_type_invariant(self);
        }
        &self.faces
    }

    /// Adds what the line `line` says to the mesh. Where the line cannot be
    /// read, or gives a face with a vertex that the mesh does not have, the
    /// mesh comes back as it was, with the reason.
    pub fn with_line(self, line: &'a str) -> (r: (MeshText<'a>, Option<MeshError>))
        ensures
            match add_text(self@, line@) {
                Ok(more) => r.0@ == more && r.1 is None,
                Err(error) => r.0@ == self@ && r.1 == Some(error),
            },
    {
        proof {
            use_type_invariant(&self);
        }
        let found = match parse_line(line) {
            Ok(found) => found,
            Err(error) => {
                return (self, Some(error));
            },
        };
        let ghost before = self@;
        match found {
            MeshLine::Ignored => (self, None),
            MeshLine::Vertex(x, y, z) => {
                let MeshText { mut vertices, faces } = self;
                vertices.push((x, y, z));
                let mesh = MeshText { vertices, faces };
                proof {
                    assert(mesh@.vertices =~= before.vertices.push((x@, y@, z@)));
                    assert(mesh@.faces =~= before.faces);
                }
                (mesh, None)
            },
            MeshLine::Face(a, b, c) => {
                let n = self.vertices.len();
                if a < 0 || b < 0 || c < 0 || a as u64 >= n as u64 || b as u64 >= n as u64 || c as u64
                    >= n as u64 {
                    return (self, Some(MeshError::UnknownVertex));
                }
                let MeshText { vertices, mut faces } = self;
                faces.push((a as usize, b as usize, c as usize));
                let mesh = MeshText { vertices, faces };
                proof {
                    assert(mesh@.vertices =~= before.vertices);
                    assert(mesh@.faces =~= before.faces.push((a as nat, b as nat, c as nat)));
                }
                (mesh, None)
            },
        }
    }
}

/// Reads the text of a mesh, given as its lines: the mesh that the lines
/// give; or the number of the first line that cannot be read, the first line
/// being number 0, and why it cannot.
pub fn read_mesh<'a>(lines: &'a Vec<String>) -> (r: Result<MeshText<'a>, (usize, MeshError)>)
    ensures
        match r {
            Ok(mesh) => mesh_of(line_texts(lines@), lines@.len()) == Ok::<Mesh, (nat, MeshError)>(
                mesh@,
            ),
            Err(fault) => mesh_of(line_texts(lines@), lines@.len()) == Err::<
                Mesh,
                (nat, MeshError),
            >((fault.0 as nat, fault.1)),
        },
{
    let mut mesh = MeshText::new();
    let mut i: usize = 0;
    while i < lines.len()
        invariant
            i <= lines@.len(),
            mesh_of(line_texts(lines@), i as nat) == Ok::<Mesh, (nat, MeshError)>(mesh@),
        decreases lines@.len() - i,
    {
        let (next, error) = mesh.with_line(lines[i].as_str());
        match error {
            Some(error) => {
                proof {
                    lemma_fault_stays(line_texts(lines@), (i + 1) as nat, lines@.len());
                }
                return Err((i, error));
            },
            None => {},
        }
        mesh = next;
        i = i + 1;
    }
    Ok(mesh)
}

/// Once a line cannot be read, more lines change nothing.
proof fn lemma_fault_stays(lines: Seq<Seq<char>>, count: nat, more: nat)
    requires
        count <= more,
        mesh_of(lines, count) is Err,
    ensures
        mesh_of(lines, more) == mesh_of(lines, count),
    decreases more,
{
    if count < more {
        lemma_fault_stays(lines, count, (more - 1) as nat);
    }
}

/// Every face of a mesh that was read names vertices of the mesh.
pub proof fn lemma_faces_known(lines: Seq<Seq<char>>, count: nat)
    ensures
        mesh_of(lines, count) matches Ok(mesh) ==> faces_known(mesh),
    decreases count,
{
    if count > 0 {
        lemma_faces_known(lines, (count - 1) as nat);
    }
}

} // verus!
