//! The scene description: records of five lines, one sphere each.

use crate::double::{at_most, less, Double, ONE, ZERO};
use crate::hittable::{HittableList, Sphere, SphereText};
use crate::interval::{in_unit_interval, unit_interval};
use crate::literal::{
    is_float_literal, parse_i32, parsed_i32, Number, Triple, TripleText,
};
use crate::material::{MaterialEnum, MaterialText};
use crate::util::random_double;
use vstd::prelude::*;
use vstd::slice::{slice_subrange, slice_to_vec};
use vstd::string::StringSliceAdditionalSpecFns;
use vstd::utf8::encode_utf8;

verus! {

/// Why a scene description is refused.
#[derive(Clone, Copy, Debug, PartialEq, Eq, Structural)]
pub enum ParseError {
    /// A field that should be a number is not one.
    BadNumber,
    /// A line has fewer fields than its place in the record asks for.
    MissingField,
    /// The material selector is none of those known.
    UnknownMaterial,
    /// The fuzz of a metal lies outside the range from 0 to 1.
    FuzzOutOfRange,
}

/// A line that a scene description is refused for, and why.
#[derive(Clone, Copy, Debug, PartialEq, Eq, Structural)]
pub struct WorldError {
    /// The index of the line, counted from 0.
    pub line: usize,
    pub cause: ParseError,
}

/// The blank that parts the fields of a line.
pub const SPACE: u8 = 0x20;

/// Where the first blank of `s` stands; its length, if it has none.
pub open spec fn first_blank(s: Seq<u8>) -> int
    decreases s.len(),
{
    if s.len() == 0 || s[0] == SPACE {
        0
    } else {
        1 + first_blank(s.skip(1))
    }
}

/// The fields of a line: what stands before, between and behind its blanks.
/// Two blanks in a row hold an empty field between them.
pub open spec fn fields(s: Seq<u8>) -> Seq<Seq<u8>>
    decreases s.len(),
{
    let k = first_blank(s);
    if 0 <= k < s.len() {
        seq![s.take(k)] + fields(s.skip(k + 1))
    } else {
        seq![s]
    }
}

/// The bytes that each of some byte strings holds.
pub open spec fn texts(v: Seq<Vec<u8>>) -> Seq<Seq<u8>> {
    v.map_values(|x: Vec<u8>| x@)
}

/// The first blank stands where a blank follows bytes that are none.
pub proof fn lemma_first_blank(s: Seq<u8>, k: int)
    requires
        0 <= k <= s.len(),
        forall|i: int| 0 <= i < k ==> s[i] != SPACE,
        k == s.len() || s[k] == SPACE,
    ensures
        first_blank(s) == k,
    decreases k,
{
    if k > 0 {
        lemma_first_blank(s.skip(1), k - 1);
    }
}

/// Some fields put together again, one blank between each two.
pub open spec fn joined(parts: Seq<Seq<u8>>) -> Seq<u8>
    decreases parts.len(),
{
    if parts.len() == 0 {
        Seq::empty()
    } else if parts.len() == 1 {
        parts[0]
    } else {
        parts[0] + seq![SPACE] + joined(parts.skip(1))
    }
}

/// Where the first blank stands, no blank stands before.
pub proof fn lemma_first_blank_is_first(s: Seq<u8>)
    ensures
        0 <= first_blank(s) <= s.len(),
        first_blank(s) < s.len() ==> s[first_blank(s)] == SPACE,
        forall|i: int| 0 <= i < first_blank(s) ==> s[i] != SPACE,
    decreases s.len(),
{
    if s.len() != 0 && s[0] != SPACE {
        lemma_first_blank_is_first(s.skip(1));
        assert forall|i: int| 0 <= i < first_blank(s) implies s[i] != SPACE by {
            if i > 0 {
                assert(s.skip(1)[i - 1] == s[i]);
            }
        }
    }
}

/// A line has one field at least; no field holds a blank; and the fields,
/// put together again with one blank between each two, are the line.
pub proof fn lemma_fields_part_the_line(s: Seq<u8>)
    ensures
        fields(s).len() >= 1,
        forall|k: int, i: int|
            0 <= k < fields(s).len() && 0 <= i < fields(s)[k].len() ==> fields(s)[k][i] != SPACE,
        joined(fields(s)) == s,
    decreases s.len(),
{
    lemma_first_blank_is_first(s);
    let b = first_blank(s);
    if b < s.len() {
        let rest = s.skip(b + 1);
        lemma_fields_part_the_line(rest);
        let f = fields(s);
        assert(f == seq![s.take(b)] + fields(rest));
        assert(f.skip(1) =~= fields(rest));
        assert(f[0] == s.take(b));
        assert(joined(f) == s.take(b) + seq![SPACE] + joined(fields(rest)));
        assert(s.take(b) + seq![SPACE] + rest =~= s);
        assert forall|k: int, i: int|
            0 <= k < f.len() && 0 <= i < f[k].len() implies f[k][i] != SPACE by {
            if k > 0 {
                assert(f[k] == fields(rest)[k - 1]);
            }
        }
    }
}

/// Parts a line into its fields.
pub fn split(s: &[u8]) -> (r: Vec<Vec<u8>>)
    ensures
        texts(r@) == fields(s@),
{
    let n = s.len();
    let mut out: Vec<Vec<u8>> = Vec::new();
    let mut start: usize = 0;
    let mut i: usize = 0;
    assert(s@.skip(0) =~= s@);
    while i < n
        invariant
            start <= i <= n,
            n == s@.len(),
            forall|k: int| start <= k < i ==> s@[k] != SPACE,
            fields(s@) == texts(out@) + fields(s@.skip(start as int)),
        decreases n - i,
    {
        if s[i] == SPACE {
            let field = slice_to_vec(slice_subrange(s, start, i));
            proof {
                let rest = s@.skip(start as int);
                lemma_first_blank(rest, i - start);
                assert(rest.take(i - start) =~= field@);
                assert(rest.skip(i - start + 1) =~= s@.skip(i + 1));
                assert(texts(out@.push(field)) =~= texts(out@) + seq![field@]);
            }
            out.push(field);
            start = i + 1;
        }
        i += 1;
    }
    let field = slice_to_vec(slice_subrange(s, start, n));
    proof {
        let rest = s@.skip(start as int);
        lemma_first_blank(rest, n - start);
        assert(rest =~= field@);
        assert(texts(out@.push(field)) =~= texts(out@) + seq![field@]);
    }
    out.push(field);
    out
}

/// The three numbers that a line begins with. Fields behind the third are
/// not looked at.
pub open spec fn triple_of(line: Seq<u8>) -> Result<TripleText, ParseError> {
    let f = fields(line);
    if f.len() < 3 {
        Err(ParseError::MissingField)
    } else if !(is_float_literal(f[0]) && is_float_literal(f[1]) && is_float_literal(f[2])) {
        Err(ParseError::BadNumber)
    } else {
        Ok((f[0], f[1], f[2]))
    }
}

/// Reads three numbers from the first three of the given fields.
fn parse_triple(f: &Vec<Vec<u8>>) -> (r: Result<Triple, ParseError>)
    requires
        f@.len() >= 3,
    ensures
        match r {
            Ok(v) => is_float_literal(f@[0]@) && is_float_literal(f@[1]@) && is_float_literal(
                f@[2]@,
            ) && v@ == (f@[0]@, f@[1]@, f@[2]@),
            Err(e) => !(is_float_literal(f@[0]@) && is_float_literal(f@[1]@) && is_float_literal(
                f@[2]@,
            )) && e == ParseError::BadNumber,
        },
{
    let x = Number::parse(f[0].as_slice());
    let y = Number::parse(f[1].as_slice());
    let z = Number::parse(f[2].as_slice());
    match (x, y, z) {
        (Some(x), Some(y), Some(z)) => Ok(Triple { x, y, z }),
        _ => Err(ParseError::BadNumber),
    }
}

/// Reads the line that holds a sphere's center: three numbers, one blank
/// between each two.
pub fn parse_center(line: &str) -> (r: Result<Triple, ParseError>)
    ensures
        match r {
            Ok(v) => triple_of(line.spec_bytes()) == Ok::<TripleText, ParseError>(v@),
            Err(e) => triple_of(line.spec_bytes()) == Err::<TripleText, ParseError>(e),
        },
{
    let f = split(line.as_bytes());
    assert(texts(f@).len() == f@.len());
    if f.len() < 3 {
        return Err(ParseError::MissingField);
    }
    assert(texts(f@)[0] == f@[0]@ && texts(f@)[1] == f@[1]@ && texts(f@)[2] == f@[2]@);
    parse_triple(&f)
}

/// Reads the line that holds a sphere's radius: one number, the whole line.
pub fn parse_radius(line: &str) -> (r: Result<Number, ParseError>)
    ensures
        match r {
            Ok(n) => is_float_literal(line.spec_bytes()) && n@ == line.spec_bytes(),
            Err(e) => !is_float_literal(line.spec_bytes()) && e == ParseError::BadNumber,
        },
{
    match Number::parse(line.as_bytes()) {
        Some(n) => Ok(n),
        None => Err(ParseError::BadNumber),
    }
}

/// Reads the line that holds the material selector: one integer, the whole
/// line.
pub fn parse_material_num(line: &str) -> (r: Result<i32, ParseError>)
    ensures
        match r {
            Ok(v) => parsed_i32(line.spec_bytes()) == Some(v),
            Err(e) => parsed_i32(line.spec_bytes()) is None && e == ParseError::BadNumber,
        },
{
    match parse_i32(line.as_bytes()) {
        Some(v) => Ok(v),
        None => Err(ParseError::BadNumber),
    }
}

/// Reads the line that holds the colour of a diffuse surface: three numbers,
/// one blank between each two.
pub fn parse_color(line: &str) -> (r: Result<Triple, ParseError>)
    ensures
        match r {
            Ok(v) => triple_of(line.spec_bytes()) == Ok::<TripleText, ParseError>(v@),
            Err(e) => triple_of(line.spec_bytes()) == Err::<TripleText, ParseError>(e),
        },
{
    parse_center(line)
}

/// The colour and the fuzz that the line of a metal holds: four numbers, the
/// last of them from 0 to 1. Fields behind the fourth are not looked at.
pub open spec fn metal_of(line: Seq<u8>) -> Result<(TripleText, Seq<u8>), ParseError> {
    let f = fields(line);
    if f.len() < 4 {
        Err(ParseError::MissingField)
    } else if !(is_float_literal(f[0]) && is_float_literal(f[1]) && is_float_literal(f[2])
        && is_float_literal(f[3])) {
        Err(ParseError::BadNumber)
    } else if !in_unit_interval(f[3]) {
        Err(ParseError::FuzzOutOfRange)
    } else {
        Ok(((f[0], f[1], f[2]), f[3]))
    }
}

/// Reads the line that holds the colour and the fuzz of a metal.
pub fn parse_color_with_fuzziness(line: &str) -> (r: Result<(Triple, Number), ParseError>)
    ensures
        match r {
            Ok((c, f)) => metal_of(line.spec_bytes()) == Ok::<
                (TripleText, Seq<u8>),
                ParseError,
            >((c@, f@)),
            Err(e) => metal_of(line.spec_bytes()) == Err::<
                (TripleText, Seq<u8>),
                ParseError,
            >(e),
        },
{
    let f = split(line.as_bytes());
    assert(texts(f@).len() == f@.len());
    if f.len() < 4 {
        return Err(ParseError::MissingField);
    }
    assert(texts(f@)[0] == f@[0]@ && texts(f@)[1] == f@[1]@ && texts(f@)[2] == f@[2]@ && texts(
        f@,
    )[3] == f@[3]@);
    let fuzz = Number::parse(f[3].as_slice());
    let color = parse_triple(&f);
    match (color, fuzz) {
        (Ok(color), Some(fuzz)) => {
            if unit_interval(f[3].as_slice()) {
                Ok((color, fuzz))
            } else {
                Err(ParseError::FuzzOutOfRange)
            }
        },
        _ => Err(ParseError::BadNumber),
    }
}

/// Reads the line that holds the refractive index of a clear material: one
/// number, the whole line.
pub fn parse_index_of_refraction(line: &str) -> (r: Result<Number, ParseError>)
    ensures
        match r {
            Ok(n) => is_float_literal(line.spec_bytes()) && n@ == line.spec_bytes(),
            Err(e) => !is_float_literal(line.spec_bytes()) && e == ParseError::BadNumber,
        },
{
    parse_radius(line)
}

/// The material that a line of parameters describes under a selector:
/// 1 for a diffuse surface, 2 for a metal, 3 for a clear material.
pub open spec fn material_of(line: Seq<u8>, selector: int) -> Result<MaterialText, ParseError> {
    if selector == 1 {
        match triple_of(line) {
            Ok(albedo) => Ok(MaterialText::Lambertian { albedo }),
            Err(e) => Err(e),
        }
    } else if selector == 2 {
        match metal_of(line) {
            Ok((albedo, fuzziness)) => Ok(MaterialText::Metal { albedo, fuzziness }),
            Err(e) => Err(e),
        }
    } else if selector == 3 {
        if is_float_literal(line) {
            Ok(MaterialText::Dielectric { index_of_refraction: line })
        } else {
            Err(ParseError::BadNumber)
        }
    } else {
        Err(ParseError::UnknownMaterial)
    }
}

/// Reads the line that holds the parameters of a material, by its selector.
pub fn parse_material(line: &str, material_num: i32) -> (r: Result<MaterialEnum, ParseError>)
    ensures
        match r {
            Ok(m) => material_of(line.spec_bytes(), material_num as int) == Ok::<
                MaterialText,
                ParseError,
            >(m@),
            Err(e) => material_of(line.spec_bytes(), material_num as int) == Err::<
                MaterialText,
                ParseError,
            >(e),
        },
{
    if material_num == 1 {
        match parse_color(line) {
            Ok(albedo) => Ok(MaterialEnum::Lambertian { albedo }),
            Err(e) => Err(e),
        }
    } else if material_num == 2 {
        match parse_color_with_fuzziness(line) {
            Ok((albedo, fuzziness)) => Ok(MaterialEnum::Metal { albedo, fuzziness }),
            Err(e) => Err(e),
        }
    } else if material_num == 3 {
        match parse_index_of_refraction(line) {
            Ok(index_of_refraction) => Ok(MaterialEnum::Dielectric { index_of_refraction }),
            Err(e) => Err(e),
        }
    } else {
        Err(ParseError::UnknownMaterial)
    }
}

/// The bytes of each of some lines of text.
pub open spec fn bytes_of(lines: Seq<String>) -> Seq<Seq<u8>> {
    lines.map_values(|l: String| encode_utf8(l@))
}

/// What line `i` of a description is refused for, if it is, where `place`
/// is its place in its record: 0 for the comment, which may hold anything;
/// 1 for the radius; 2 for the center; 3 for the material selector; 4 for the
/// parameters of the material, which are read by the selector on the line
/// before.
pub open spec fn fault_at(lines: Seq<Seq<u8>>, i: int, place: int) -> Option<ParseError> {
    if place == 1 {
        if is_float_literal(lines[i]) {
            None
        } else {
            Some(ParseError::BadNumber)
        }
    } else if place == 2 {
        match triple_of(lines[i]) {
            Ok(_) => None,
            Err(e) => Some(e),
        }
    } else if place == 3 {
        if parsed_i32(lines[i]) is Some {
            None
        } else {
            Some(ParseError::BadNumber)
        }
    } else if place == 4 {
        match parsed_i32(lines[i - 1]) {
            Some(selector) => match material_of(lines[i], selector as int) {
                Ok(_) => None,
                Err(e) => Some(e),
            },
            None => None,
        }
    } else {
        None
    }
}

/// What line `i` of a description is refused for, if it is. A record takes
/// five lines, so the place of a line is what is left of its index when it is
/// divided by five.
#[verifier::opaque]
pub open spec fn line_fault(lines: Seq<Seq<u8>>, i: int) -> Option<ParseError> {
    fault_at(lines, i, i % 5)
}

/// The sphere that record `k` of a description holds, where none of its
/// lines is refused.
pub open spec fn sphere_at(lines: Seq<Seq<u8>>, k: int) -> SphereText {
    SphereText {
        center: triple_of(lines[5 * k + 2])->Ok_0,
        radius: lines[5 * k + 1],
        material: material_of(
            lines[5 * k + 4],
            parsed_i32(lines[5 * k + 3])->Some_0 as int,
        )->Ok_0,
    }
}

/// Whether none of the lines from `from` up to `to`, which is left out, is
/// refused.
pub open spec fn faultless(lines: Seq<Seq<u8>>, from: int, to: int) -> bool {
    forall|i: int| from <= i < to ==> (#[trigger] line_fault(lines, i)) is None
}

/// Line `place` of record `k` is refused for what its place refuses it for.
proof fn lemma_fault_in_record(lines: Seq<Seq<u8>>, k: int, place: int)
    requires
        0 <= place < 5,
    ensures
        line_fault(lines, 5 * k + place) == fault_at(lines, 5 * k + place, place),
{
    reveal(line_fault);
    assert((5 * k + place) % 5 == place) by (nonlinear_arith)
        requires
            0 <= place < 5,
    ;
}

/// A run of lines that are not refused grows by one such line.
proof fn lemma_faultless_grows(lines: Seq<Seq<u8>>, from: int, to: int)
    requires
        faultless(lines, from, to),
        line_fault(lines, to) is None,
    ensures
        faultless(lines, from, to + 1),
{
}

/// Line `i` of some lines of text.
fn line_at(lines: &Vec<String>, i: usize) -> (line: &str)
    requires
        i < lines@.len(),
    ensures
        line.spec_bytes() == bytes_of(lines@)[i as int],
{
    lines[i].as_str()
}

/// Reads the record that begins at line `5 * k`.
fn read_record(lines: &Vec<String>, k: usize) -> (r: Result<Sphere, WorldError>)
    requires
        5 * k + 4 < lines@.len(),
    ensures
        match r {
            Ok(sphere) => {
                &&& sphere@ == sphere_at(bytes_of(lines@), k as int)
                &&& faultless(bytes_of(lines@), 5 * k, 5 * k + 5)
            },
            Err(e) => {
                &&& 5 * k <= e.line < 5 * k + 5
                &&& line_fault(bytes_of(lines@), e.line as int) == Some(e.cause)
                &&& faultless(bytes_of(lines@), 5 * k, e.line as int)
            },
        },
{
    let n = lines.len();
    let base = 5 * k;
    let ghost text = bytes_of(lines@);
    proof {
        lemma_fault_in_record(text, k as int, 0);
        lemma_fault_in_record(text, k as int, 1);
        lemma_fault_in_record(text, k as int, 2);
        lemma_fault_in_record(text, k as int, 3);
        lemma_fault_in_record(text, k as int, 4);
        lemma_faultless_grows(text, base as int, base as int);
    }
    let radius = match parse_radius(line_at(lines, base + 1)) {
        Ok(radius) => radius,
        Err(cause) => {
            return Err(WorldError { line: base + 1, cause });
        },
    };
    proof {
        lemma_faultless_grows(text, base as int, base + 1);
    }
    let center = match parse_center(line_at(lines, base + 2)) {
        Ok(center) => center,
        Err(cause) => {
            return Err(WorldError { line: base + 2, cause });
        },
    };
    proof {
        lemma_faultless_grows(text, base as int, base + 2);
    }
    let material_num = match parse_material_num(line_at(lines, base + 3)) {
        Ok(material_num) => material_num,
        Err(cause) => {
            return Err(WorldError { line: base + 3, cause });
        },
    };
    proof {
        lemma_faultless_grows(text, base as int, base + 3);
    }
    let material = match parse_material(line_at(lines, base + 4), material_num) {
        Ok(material) => material,
        Err(cause) => {
            return Err(WorldError { line: base + 4, cause });
        },
    };
    proof {
        lemma_faultless_grows(text, base as int, base + 4);
    }
    Ok(Sphere { center, radius, material })
}

/// Reads the lines behind the last whole record, which begin at line
/// `5 * k` and are fewer than five.
fn read_rest(lines: &Vec<String>, k: usize) -> (r: Option<WorldError>)
    requires
        5 * k <= lines@.len() < 5 * k + 5,
    ensures
        match r {
            None => faultless(bytes_of(lines@), 5 * k, lines@.len() as int),
            Some(e) => {
                &&& 5 * k <= e.line < lines@.len()
                &&& line_fault(bytes_of(lines@), e.line as int) == Some(e.cause)
                &&& faultless(bytes_of(lines@), 5 * k, e.line as int)
            },
        },
{
    let n = lines.len();
    let base = 5 * k;
    let ghost text = bytes_of(lines@);
    proof {
        lemma_fault_in_record(text, k as int, 0);
        lemma_fault_in_record(text, k as int, 1);
        lemma_fault_in_record(text, k as int, 2);
        lemma_fault_in_record(text, k as int, 3);
    }
    if n - base <= 1 {
        return None;
    }
    proof {
        lemma_faultless_grows(text, base as int, base as int);
    }
    if let Err(cause) = parse_radius(line_at(lines, base + 1)) {
        return Some(WorldError { line: base + 1, cause });
    }
    proof {
        lemma_faultless_grows(text, base as int, base + 1);
    }
    if n - base <= 2 {
        return None;
    }
    if let Err(cause) = parse_center(line_at(lines, base + 2)) {
        return Some(WorldError { line: base + 2, cause });
    }
    proof {
        lemma_faultless_grows(text, base as int, base + 2);
    }
    if n - base <= 3 {
        return None;
    }
    if let Err(cause) = parse_material_num(line_at(lines, base + 3)) {
        return Some(WorldError { line: base + 3, cause });
    }
    proof {
        lemma_faultless_grows(text, base as int, base + 3);
    }
    None
}

/// Reads a scene description from its lines. Every record of five lines
/// makes one sphere, in the order of the records. The lines of a last record
/// that is cut short are read as the others, and make no sphere. The first
/// line that cannot be read as its place asks refuses the description.
pub fn load_world_file(lines: &Vec<String>) -> (r: Result<HittableList, WorldError>)
    ensures
        match r {
            Ok(world) => {
                &&& faultless(bytes_of(lines@), 0, lines@.len() as int)
                &&& world@.len() == lines@.len() / 5
                &&& forall|k: int|
                    0 <= k < world@.len() ==> world@[k] == sphere_at(bytes_of(lines@), k)
            },
            Err(e) => {
                &&& e.line < lines@.len()
                &&& line_fault(bytes_of(lines@), e.line as int) == Some(e.cause)
                &&& faultless(bytes_of(lines@), 0, e.line as int)
            },
        },
{
    let n = lines.len();
    let records = n / 5;
    let mut objects: Vec<Sphere> = Vec::new();
    let mut k: usize = 0;
    while k < records
        invariant
            k <= records,
            records == n / 5,
            n == lines@.len(),
            objects@.len() == k,
            faultless(bytes_of(lines@), 0, 5 * k),
            forall|m: int|
                0 <= m < k ==> (#[trigger] objects@[m])@ == sphere_at(bytes_of(lines@), m),
        decreases records - k,
    {
        match read_record(lines, k) {
            Ok(sphere) => {
                objects.push(sphere);
            },
            Err(e) => {
                return Err(e);
            },
        }
        k += 1;
    }
    if let Some(e) = read_rest(lines, records) {
        return Err(e);
    }
    Ok(HittableList { objects })
}

/// How many places the grid of a generated scene has along each side.
pub const GRID_SIDE: i32 = 22;

/// One place in the grid of a generated scene, with the draws that decide
/// on the small sphere there.
#[derive(Clone, Copy, Debug, PartialEq, Eq, Structural)]
pub struct GridCell {
    /// The place along the x axis, from -11 up to 10.
    pub a: i32,
    /// The place along the z axis, from -11 up to 10.
    pub b: i32,
    /// The draw that picks the material.
    pub choose_mat: Double,
    /// The draw that moves the sphere along the x axis.
    pub shift_x: Double,
    /// The draw that moves the sphere along the z axis.
    pub shift_z: Double,
}

/// Whether `x` lies in the unit interval, 1 left out.
pub open spec fn is_draw(x: Double) -> bool {
    at_most(ZERO, x) && less(x, ONE)
}

/// Whether `cell` is the cell with index `k` of a grid, counted along the
/// z axis first, and its draws are draws.
pub open spec fn is_cell(cell: GridCell, k: int) -> bool {
    &&& cell.a == k / (GRID_SIDE as int) - GRID_SIDE / 2
    &&& cell.b == k % (GRID_SIDE as int) - GRID_SIDE / 2
    &&& is_draw(cell.choose_mat)
    &&& is_draw(cell.shift_x)
    &&& is_draw(cell.shift_z)
}

/// Lays out the small spheres of a generated scene: a grid of 22 places by
/// 22, and for each place three draws, taken in the order of the fields.
pub fn random_scene() -> (cells: Vec<GridCell>)
    ensures
        cells@.len() == GRID_SIDE * GRID_SIDE,
        forall|k: int| 0 <= k < cells@.len() ==> is_cell(#[trigger] cells@[k], k),
{
    let mut cells: Vec<GridCell> = Vec::new();
    let mut a: i32 = -11;
    while a < 11
        invariant
            -11 <= a <= 11,
            cells@.len() == (a + 11) * 22,
            forall|k: int| 0 <= k < cells@.len() ==> is_cell(#[trigger] cells@[k], k),
        decreases 11 - a,
    {
        let mut b: i32 = -11;
        while b < 11
            invariant
                -11 <= a < 11,
                -11 <= b <= 11,
                cells@.len() == (a + 11) * 22 + (b + 11),
                forall|k: int| 0 <= k < cells@.len() ==> is_cell(#[trigger] cells@[k], k),
            decreases 11 - b,
        {
            let choose_mat = random_double();
            let shift_x = random_double();
            let shift_z = random_double();
            cells.push(GridCell { a, b, choose_mat, shift_x, shift_z });
            b += 1;
        }
        a += 1;
    }
    cells
}

} // verus!
