//! Reader for the record structure of Wavefront OBJ meshes.
//!
//! A mesh file is read line by line. `v <x> <y> <z>` declares a vertex and
//! `f <i> <j> <k>` a triangle over three vertices declared before it, by
//! 1-based index; anything after a `/` in a face field is ignored, as are
//! all other records. Coordinates are kept as the text they were written
//! in, for the caller to read as numbers.

use vstd::prelude::*;

verus! {

/// `s` cut at every `sep`: one piece more than there are separators.
pub open spec fn split(s: Seq<u8>, sep: u8) -> Seq<Seq<u8>>
    decreases s.len(),
{
    if s.len() == 0 {
        seq![Seq::<u8>::empty()]
    } else {
        let rest = split(s.drop_first(), sep);
        if s[0] == sep {
            seq![Seq::<u8>::empty()] + rest
        } else {
            rest.update(0, seq![s[0]] + rest[0])
        }
    }
}

proof fn lemma_split_nonempty(s: Seq<u8>, sep: u8)
    ensures
        split(s, sep).len() >= 1,
    decreases s.len(),
{
    if s.len() > 0 {
        lemma_split_nonempty(s.drop_first(), sep);
    }
}

/// `cur` put in front of the first piece of `pieces`.
spec fn glue(cur: Seq<u8>, pieces: Seq<Seq<u8>>) -> Seq<Seq<u8>> {
    pieces.update(0, cur + pieces[0])
}

pub open spec fn views(v: Seq<Vec<u8>>) -> Seq<Seq<u8>> {
    v.map_values(|b: Vec<u8>| b@)
}

/// Cuts `s` at every `sep`.
pub fn split_bytes(s: &[u8], sep: u8) -> (r: Vec<Vec<u8>>)
    ensures
        views(r@) == split(s@, sep),
{
    let mut out: Vec<Vec<u8>> = Vec::new();
    let mut cur: Vec<u8> = Vec::new();
    let mut i: usize = 0;
    proof {
        lemma_split_nonempty(s@, sep);
        assert(s@.skip(0) =~= s@);
        assert(glue(cur@, split(s@, sep)) =~= split(s@, sep));
    }
    while i < s.len()
        invariant
            0 <= i <= s@.len(),
            split(s@, sep).len() >= 1,
            split(s@.skip(i as int), sep).len() >= 1,
            views(out@) + glue(cur@, split(s@.skip(i as int), sep)) == split(s@, sep),
        decreases s@.len() - i,
    {
        let ghost rest = s@.skip(i as int);
        proof {
            assert(rest.drop_first() =~= s@.skip(i + 1));
            lemma_split_nonempty(s@.skip(i + 1), sep);
        }
        let ghost r1 = split(s@.skip(i + 1), sep);
        if s[i] == sep {
            proof {
                assert(split(rest, sep) == seq![Seq::<u8>::empty()] + r1);
                assert(glue(cur@, split(rest, sep)) =~= seq![cur@] + glue(Seq::<u8>::empty(), r1));
                assert(glue(Seq::<u8>::empty(), r1) =~= r1);
            }
            let piece = cur;
            out.push(piece);
            cur = Vec::new();
            proof {
                assert(views(out@) =~= views(out@.drop_last()).push(piece@));
                assert(views(out@) + glue(cur@, r1) =~= views(out@.drop_last()) + (seq![piece@] + r1));
            }
        } else {
            proof {
                assert(split(rest, sep) == r1.update(0, seq![s@[i as int]] + r1[0]));
                assert(cur@ + (seq![s@[i as int]] + r1[0]) =~= cur@.push(s@[i as int]) + r1[0]);
                assert(glue(cur@, split(rest, sep)) =~= glue(cur@.push(s@[i as int]), r1));
            }
            cur.push(s[i]);
        }
        i = i + 1;
    }
    proof {
        assert(s@.skip(i as int) =~= Seq::<u8>::empty());
        assert(glue(cur@, split(Seq::<u8>::empty(), sep)) =~= seq![cur@]);
    }
    let last = cur;
    out.push(last);
    proof {
        assert(views(out@) =~= views(out@.drop_last()).push(last@));
    }
    out
}

/// What a mesh file declares: the text of each vertex's three coordinates,
/// and each triangle as three 0-based indices into the vertices.
pub struct ObjModel {
    pub vertices: Seq<(Seq<u8>, Seq<u8>, Seq<u8>)>,
    pub faces: Seq<(int, int, int)>,
}

pub open spec fn empty_model() -> ObjModel {
    ObjModel { vertices: Seq::empty(), faces: Seq::empty() }
}

/// `line` without one trailing carriage return.
pub open spec fn trim_cr(line: Seq<u8>) -> Seq<u8> {
    if line.len() > 0 && line.last() == 13 {
        line.drop_last()
    } else {
        line
    }
}

pub open spec fn is_digit(b: u8) -> bool {
    48 <= b <= 57
}

pub open spec fn all_digits(s: Seq<u8>) -> bool {
    forall|i: int| 0 <= i < s.len() ==> is_digit(#[trigger] s[i])
}

/// The number that the decimal digits `s` write.
pub open spec fn decimal_value(s: Seq<u8>) -> int
    decreases s.len(),
{
    if s.len() == 0 {
        0
    } else {
        decimal_value(s.drop_last()) * 10 + (s.last() - 48)
    }
}

/// The vertex number of a face field: the text before its first `/`, an
/// optional `+` and then decimal digits, no greater than `i32::MAX`.
pub open spec fn face_index(field: Seq<u8>) -> Option<int> {
    let text = split(field, 47)[0];
    let digits = if text.len() > 0 && text[0] == 43 {
        text.drop_first()
    } else {
        text
    };
    if digits.len() > 0 && all_digits(digits) && decimal_value(digits) <= i32::MAX {
        Some(decimal_value(digits))
    } else {
        None
    }
}

/// The model after one more line: `None` where the line is a malformed
/// vertex or face record, or names a vertex not declared before it.
pub open spec fn apply_line(m: ObjModel, line: Seq<u8>) -> Option<ObjModel> {
    let words = split(trim_cr(line), 32);
    let n = m.vertices.len();
    if words[0] == seq![118u8] {
        if words.len() >= 4 {
            Some(ObjModel { vertices: m.vertices.push((words[1], words[2], words[3])), faces: m.faces })
        } else {
            None
        }
    } else if words[0] == seq![102u8] {
        if words.len() >= 4 {
            match (face_index(words[1]), face_index(words[2]), face_index(words[3])) {
                (Some(i), Some(j), Some(k)) => if 1 <= i <= n && 1 <= j <= n && 1 <= k <= n {
                    Some(ObjModel { vertices: m.vertices, faces: m.faces.push((i - 1, j - 1, k - 1)) })
                } else {
                    None
                },
                _ => None,
            }
        } else {
            None
        }
    } else {
        Some(m)
    }
}

/// `m` after each of `lines` in turn, or `None` from the first bad line on.
pub open spec fn apply_lines(m: ObjModel, lines: Seq<Seq<u8>>) -> Option<ObjModel>
    decreases lines.len(),
{
    if lines.len() == 0 {
        Some(m)
    } else {
        match apply_line(m, lines[0]) {
            Some(next) => apply_lines(next, lines.drop_first()),
            None => None,
        }
    }
}

/// What the mesh file `text` declares, or `None` if it is malformed.
pub open spec fn obj_model(text: Seq<u8>) -> Option<ObjModel> {
    apply_lines(empty_model(), split(text, 10))
}

const INDEX_CAP: u64 = 0x8000_0000;

/// Reads the vertex number of a face field.
fn parse_face_index(field: &[u8]) -> (r: Option<usize>)
    ensures
        match r {
            Some(v) => face_index(field@) == Some(v as int),
            None => face_index(field@).is_none(),
        },
{
    let parts = split_bytes(field, 47);
    proof {
        lemma_split_nonempty(field@, 47);
    }
    let text: &Vec<u8> = &parts[0];
    assert(text@ == split(field@, 47)[0]);
    let start: usize = if text.len() > 0 && text[0] == 43 { 1 } else { 0 };
    let ghost digits = text@.skip(start as int);
    assert(digits =~= (if text@.len() > 0 && text@[0] == 43 { text@.drop_first() } else { text@ }));
    if start == text.len() {
        return None;
    }
    let mut val: u64 = 0;
    let mut j: usize = start;
    while j < text.len()
        invariant
            start <= j <= text@.len(),
            digits == text@.skip(start as int),
            split(field@, 47).len() >= 1,
            text@ == split(field@, 47)[0],
            digits == (if text@.len() > 0 && text@[0] == 43 { text@.drop_first() } else { text@ }),
            forall|i: int| 0 <= i < j - start ==> is_digit(#[trigger] digits[i]),
            val as int == if decimal_value(digits.take(j - start)) < INDEX_CAP {
                decimal_value(digits.take(j - start))
            } else {
                INDEX_CAP as int
            },
            decimal_value(digits.take(j - start)) >= 0,
        decreases text@.len() - j,
    {
        let b = text[j];
        if b < 48 || b > 57 {
            assert(!is_digit(digits[j - start]));
            return None;
        }
        proof {
            let k = j - start;
            assert(digits.take(k + 1).drop_last() =~= digits.take(k));
            assert(digits.take(k + 1).last() == b);
        }
        let next: u64 = val * 10 + (b - 48) as u64;
        val = if next < INDEX_CAP { next } else { INDEX_CAP };
        j = j + 1;
    }
    assert(digits.take(j - start) =~= digits);
    if val > 0x7fff_ffff {
        None
    } else {
        Some(val as usize)
    }
}

/// A vertex record: the text of its three coordinates.
pub struct ObjVertex {
    pub x: Vec<u8>,
    pub y: Vec<u8>,
    pub z: Vec<u8>,
}

/// A triangle: three 0-based indices into the vertices.
#[derive(Clone, Copy, Debug, PartialEq, Eq, Structural)]
pub struct ObjFace {
    pub a: usize,
    pub b: usize,
    pub c: usize,
}

/// The records of a mesh file, in file order.
pub struct ObjData {
    pub vertices: Vec<ObjVertex>,
    pub faces: Vec<ObjFace>,
}

impl View for ObjData {
    type V = ObjModel;

    open spec fn view(&self) -> ObjModel {
        ObjModel {
            vertices: self.vertices@.map_values(|v: ObjVertex| (v.x@, v.y@, v.z@)),
            faces: self.faces@.map_values(|f: ObjFace| (f.a as int, f.b as int, f.c as int)),
        }
    }
}

/// Takes one line into `data`; `false` where [`apply_line`] rejects it, and
/// then `data` is left as it was.
fn read_line(data: &mut ObjData, line: &[u8]) -> (ok: bool)
    ensures
        ok ==> apply_line(old(data)@, line@) == Some(final(data)@),
        !ok ==> apply_line(old(data)@, line@).is_none(),
{
    let len = line.len();
    let trimmed: &[u8] = if len > 0 && line[len - 1] == 13 {
        vstd::slice::slice_subrange(line, 0, len - 1)
    } else {
        line
    };
    assert(trimmed@ =~= trim_cr(line@));
    let words = split_bytes(trimmed, 32);
    proof {
        lemma_split_nonempty(trimmed@, 32);
    }
    let ghost ws = split(trim_cr(line@), 32);
    assert(words@[0]@ == ws[0]);
    let is_v = words[0].len() == 1 && words[0][0] == 118;
    let is_f = words[0].len() == 1 && words[0][0] == 102;
    assert(is_v <==> ws[0] == seq![118u8]) by {
        if ws[0].len() == 1 && ws[0][0] == 118 {
            assert(ws[0] =~= seq![118u8]);
        }
        if ws[0] == seq![118u8] {
            assert(seq![118u8].len() == 1 && seq![118u8][0] == 118);
        }
    }
    assert(is_f <==> ws[0] == seq![102u8]) by {
        if ws[0].len() == 1 && ws[0][0] == 102 {
            assert(ws[0] =~= seq![102u8]);
        }
        if ws[0] == seq![102u8] {
            assert(seq![102u8].len() == 1 && seq![102u8][0] == 102);
        }
    }
    if is_v {
        if words.len() < 4 {
            return false;
        }
        let v = ObjVertex {
            x: vstd::slice::slice_to_vec(words[1].as_slice()),
            y: vstd::slice::slice_to_vec(words[2].as_slice()),
            z: vstd::slice::slice_to_vec(words[3].as_slice()),
        };
        assert(words@[1]@ == ws[1] && words@[2]@ == ws[2] && words@[3]@ == ws[3]);
        data.vertices.push(v);
        assert(data@.vertices =~= old(data)@.vertices.push((ws[1], ws[2], ws[3])));
        assert(data@.faces =~= old(data)@.faces);
        true
    } else if is_f {
        if words.len() < 4 {
            return false;
        }
        assert(words@[1]@ == ws[1] && words@[2]@ == ws[2] && words@[3]@ == ws[3]);
        let i = parse_face_index(words[1].as_slice());
        let j = parse_face_index(words[2].as_slice());
        let k = parse_face_index(words[3].as_slice());
        match (i, j, k) {
            (Some(i), Some(j), Some(k)) => {
                let n = data.vertices.len();
                if 1 <= i && i <= n && 1 <= j && j <= n && 1 <= k && k <= n {
                    data.faces.push(ObjFace { a: i - 1, b: j - 1, c: k - 1 });
                    assert(data@.vertices =~= old(data)@.vertices);
                    assert(data@.faces =~= old(data)@.faces.push(
                        (i - 1, j - 1, k - 1),
                    ));
                    true
                } else {
                    false
                }
            },
            _ => false,
        }
    } else {
        true
    }
}

/// Reads the records of the mesh file `text`; `None` if a vertex or face
/// record is malformed or a face names a vertex not declared before it.
pub fn parse_obj(text: &[u8]) -> (r: Option<ObjData>)
    ensures
        match r {
            Some(d) => obj_model(text@) == Some(d@),
            None => obj_model(text@).is_none(),
        },
{
    let lines = split_bytes(text, 10);
    let mut data = ObjData { vertices: Vec::new(), faces: Vec::new() };
    let ghost ls = split(text@, 10);
    assert(data@.vertices =~= empty_model().vertices);
    assert(data@.faces =~= empty_model().faces);
    assert(ls.skip(0) =~= ls);
    let mut i: usize = 0;
    while i < lines.len()
        invariant
            0 <= i <= lines@.len(),
            views(lines@) == ls,
            ls == split(text@, 10),
            obj_model(text@) == apply_lines(data@, ls.skip(i as int)),
        decreases lines@.len() - i,
    {
        assert(ls.skip(i as int).drop_first() =~= ls.skip(i + 1));
        assert(ls.skip(i as int)[0] == lines@[i as int]@);
        if !read_line(&mut data, lines[i].as_slice()) {
            return None;
        }
        i = i + 1;
    }
    assert(ls.skip(i as int) =~= Seq::<Seq<u8>>::empty());
    Some(data)
}

} // verus!
