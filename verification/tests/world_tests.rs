use pathtracer::hittable::{HittableList, Sphere};
use pathtracer::literal::{Number, Triple};
use pathtracer::material::MaterialEnum;
use pathtracer::world::{
    load_world_file, parse_center, parse_color, parse_color_with_fuzziness,
    parse_index_of_refraction, parse_material, parse_material_num, parse_radius, random_scene,
    split, ParseError, WorldError, GRID_SIDE,
};

fn num(text: &str) -> Number {
    Number { text: text.as_bytes().to_vec() }
}

fn triple(x: &str, y: &str, z: &str) -> Triple {
    Triple { x: num(x), y: num(y), z: num(z) }
}

fn lines(text: &[&str]) -> Vec<String> {
    text.iter().map(|l| l.to_string()).collect()
}

#[test]
fn a_line_parts_at_every_blank() {
    assert_eq!(split(b"1 2 3"), vec![b"1".to_vec(), b"2".to_vec(), b"3".to_vec()]);
    assert_eq!(split(b"0.5"), vec![b"0.5".to_vec()]);
    assert_eq!(split(b""), vec![b"".to_vec()]);
    assert_eq!(split(b"a  b"), vec![b"a".to_vec(), b"".to_vec(), b"b".to_vec()]);
    assert_eq!(split(b" a"), vec![b"".to_vec(), b"a".to_vec()]);
    assert_eq!(split(b"a "), vec![b"a".to_vec(), b"".to_vec()]);
    assert_eq!(split(b" "), vec![b"".to_vec(), b"".to_vec()]);
    assert_eq!(split(b"a\tb"), vec![b"a\tb".to_vec()]);
}

#[test]
fn a_line_parts_as_the_standard_split_does() {
    let samples: [&str; 8] =
        ["", " ", "1 2 3", "  x ", "a b  c   d", "no-blank", "é è", "1 2\t3"];
    for s in samples {
        let expected: Vec<Vec<u8>> = s.split(' ').map(|f| f.as_bytes().to_vec()).collect();
        assert_eq!(split(s.as_bytes()), expected, "{:?}", s);
    }
}

#[test]
fn a_radius_is_one_number() {
    assert_eq!(parse_radius("0.5"), Ok(num("0.5")));
    assert_eq!(parse_radius("1000"), Ok(num("1000")));
    assert_eq!(parse_radius("1e3"), Ok(num("1e3")));
    assert_eq!(parse_radius(&String::from("0.2")), Ok(num("0.2")));
}

#[test]
fn a_radius_that_is_no_number_is_refused() {
    assert_eq!(parse_radius(""), Err(ParseError::BadNumber));
    assert_eq!(parse_radius("abc"), Err(ParseError::BadNumber));
    assert_eq!(parse_radius(" 0.5"), Err(ParseError::BadNumber));
    assert_eq!(parse_radius("0.5 "), Err(ParseError::BadNumber));
    assert_eq!(parse_radius("0.5 0.5"), Err(ParseError::BadNumber));
    assert_eq!(parse_radius("½"), Err(ParseError::BadNumber));
}

#[test]
fn a_center_is_three_numbers() {
    assert_eq!(parse_center("0 0 -1"), Ok(triple("0", "0", "-1")));
    assert_eq!(parse_center("0.0 -1000.0 0.0"), Ok(triple("0.0", "-1000.0", "0.0")));
    assert_eq!(parse_center("1e1 .5 5."), Ok(triple("1e1", ".5", "5.")));
}

#[test]
fn fields_behind_the_third_of_a_center_are_not_looked_at() {
    assert_eq!(parse_center("1 2 3 4"), Ok(triple("1", "2", "3")));
    assert_eq!(parse_center("1 2 3 north"), Ok(triple("1", "2", "3")));
    assert_eq!(parse_center("1 2 3 "), Ok(triple("1", "2", "3")));
}

#[test]
fn a_center_of_fewer_than_three_fields_is_refused() {
    assert_eq!(parse_center(""), Err(ParseError::MissingField));
    assert_eq!(parse_center("1"), Err(ParseError::MissingField));
    assert_eq!(parse_center("1 2"), Err(ParseError::MissingField));
    assert_eq!(parse_center("x y"), Err(ParseError::MissingField));
}

#[test]
fn a_center_with_a_field_that_is_no_number_is_refused() {
    assert_eq!(parse_center("x 2 3"), Err(ParseError::BadNumber));
    assert_eq!(parse_center("1 y 3"), Err(ParseError::BadNumber));
    assert_eq!(parse_center("1 2 z"), Err(ParseError::BadNumber));
    assert_eq!(parse_center("1  2 3"), Err(ParseError::BadNumber));
    assert_eq!(parse_center(" 1 2 3"), Err(ParseError::BadNumber));
    assert_eq!(parse_center("1,2,3 4 5"), Err(ParseError::BadNumber));
}

#[test]
fn a_colour_is_three_numbers() {
    assert_eq!(parse_color("0.5 0.5 0.5"), Ok(triple("0.5", "0.5", "0.5")));
    assert_eq!(parse_color("0.4 0.2 0.1"), Ok(triple("0.4", "0.2", "0.1")));
    assert_eq!(parse_color("0.4 0.2"), Err(ParseError::MissingField));
    assert_eq!(parse_color("0.4 0.2 red"), Err(ParseError::BadNumber));
}

#[test]
fn a_selector_is_one_integer() {
    assert_eq!(parse_material_num("1"), Ok(1));
    assert_eq!(parse_material_num("2"), Ok(2));
    assert_eq!(parse_material_num("3"), Ok(3));
    assert_eq!(parse_material_num("4"), Ok(4));
    assert_eq!(parse_material_num("-1"), Ok(-1));
    assert_eq!(parse_material_num(&String::from("+2")), Ok(2));
}

#[test]
fn a_selector_that_is_no_integer_is_refused() {
    assert_eq!(parse_material_num(""), Err(ParseError::BadNumber));
    assert_eq!(parse_material_num("one"), Err(ParseError::BadNumber));
    assert_eq!(parse_material_num("1.0"), Err(ParseError::BadNumber));
    assert_eq!(parse_material_num("1 "), Err(ParseError::BadNumber));
    assert_eq!(parse_material_num("3000000000"), Err(ParseError::BadNumber));
}

#[test]
fn a_metal_is_a_colour_and_a_fuzz() {
    assert_eq!(
        parse_color_with_fuzziness("0.7 0.6 0.5 0.0"),
        Ok((triple("0.7", "0.6", "0.5"), num("0.0")))
    );
    assert_eq!(
        parse_color_with_fuzziness("0.7 0.6 0.5 1"),
        Ok((triple("0.7", "0.6", "0.5"), num("1")))
    );
    assert_eq!(
        parse_color_with_fuzziness("0.7 0.6 0.5 0.3 polished"),
        Ok((triple("0.7", "0.6", "0.5"), num("0.3")))
    );
}

#[test]
fn a_fuzz_outside_the_unit_interval_is_refused() {
    assert_eq!(parse_color_with_fuzziness("0.7 0.6 0.5 1.5"), Err(ParseError::FuzzOutOfRange));
    assert_eq!(parse_color_with_fuzziness("0.7 0.6 0.5 -0.1"), Err(ParseError::FuzzOutOfRange));
    assert_eq!(parse_color_with_fuzziness("0.7 0.6 0.5 1.0001"), Err(ParseError::FuzzOutOfRange));
    assert_eq!(parse_color_with_fuzziness("0.7 0.6 0.5 inf"), Err(ParseError::FuzzOutOfRange));
    assert_eq!(parse_color_with_fuzziness("0.7 0.6 0.5 nan"), Err(ParseError::FuzzOutOfRange));
}

#[test]
fn a_metal_with_a_bad_or_a_missing_field_is_refused() {
    assert_eq!(parse_color_with_fuzziness("0.7 0.6 0.5"), Err(ParseError::MissingField));
    assert_eq!(parse_color_with_fuzziness(""), Err(ParseError::MissingField));
    assert_eq!(parse_color_with_fuzziness("0.7 0.6 x 0.5"), Err(ParseError::BadNumber));
    assert_eq!(parse_color_with_fuzziness("0.7 0.6 0.5 soft"), Err(ParseError::BadNumber));
    assert_eq!(parse_color_with_fuzziness("a b c 2"), Err(ParseError::BadNumber));
}

#[test]
fn a_refractive_index_is_one_number() {
    assert_eq!(parse_index_of_refraction("1.5"), Ok(num("1.5")));
    assert_eq!(parse_index_of_refraction("glass"), Err(ParseError::BadNumber));
    assert_eq!(parse_index_of_refraction("1.5 1.5"), Err(ParseError::BadNumber));
}

#[test]
fn the_selector_says_how_the_parameters_are_read() {
    assert_eq!(
        parse_material("0.5 0.5 0.5", 1),
        Ok(MaterialEnum::Lambertian { albedo: triple("0.5", "0.5", "0.5") })
    );
    assert_eq!(
        parse_material("0.7 0.6 0.5 0.25", 2),
        Ok(MaterialEnum::Metal { albedo: triple("0.7", "0.6", "0.5"), fuzziness: num("0.25") })
    );
    assert_eq!(
        parse_material("1.5", 3),
        Ok(MaterialEnum::Dielectric { index_of_refraction: num("1.5") })
    );
}

#[test]
fn an_unknown_selector_is_refused() {
    assert_eq!(parse_material("0.5 0.5 0.5", 0), Err(ParseError::UnknownMaterial));
    assert_eq!(parse_material("0.5 0.5 0.5", 4), Err(ParseError::UnknownMaterial));
    assert_eq!(parse_material("0.5 0.5 0.5", -1), Err(ParseError::UnknownMaterial));
    assert_eq!(parse_material("", i32::MAX), Err(ParseError::UnknownMaterial));
}

#[test]
fn parameters_that_do_not_fit_their_selector_are_refused() {
    assert_eq!(parse_material("1.5", 1), Err(ParseError::MissingField));
    assert_eq!(parse_material("0.5 0.5 0.5", 2), Err(ParseError::MissingField));
    assert_eq!(parse_material("0.5 0.5 0.5", 3), Err(ParseError::BadNumber));
    assert_eq!(parse_material("0.5 0.5 0.5 7", 2), Err(ParseError::FuzzOutOfRange));
}

#[test]
fn an_empty_description_is_an_empty_scene() {
    assert_eq!(load_world_file(&lines(&[])), Ok(HittableList { objects: vec![] }));
}

#[test]
fn every_record_makes_one_sphere() {
    let text = lines(&[
        "# ground",
        "1000",
        "0 -1000 0",
        "1",
        "0.5 0.5 0.5",
        "# mirror",
        "1.0",
        "4 1 0",
        "2",
        "0.7 0.6 0.5 0.0",
        "# glass",
        "1.0",
        "0 1 0",
        "3",
        "1.5",
    ]);
    let world = load_world_file(&text).unwrap();
    assert_eq!(
        world.objects,
        vec![
            Sphere {
                center: triple("0", "-1000", "0"),
                radius: num("1000"),
                material: MaterialEnum::Lambertian { albedo: triple("0.5", "0.5", "0.5") },
            },
            Sphere {
                center: triple("4", "1", "0"),
                radius: num("1.0"),
                material: MaterialEnum::Metal {
                    albedo: triple("0.7", "0.6", "0.5"),
                    fuzziness: num("0.0"),
                },
            },
            Sphere {
                center: triple("0", "1", "0"),
                radius: num("1.0"),
                material: MaterialEnum::Dielectric { index_of_refraction: num("1.5") },
            },
        ]
    );
}

#[test]
fn the_comment_line_may_hold_anything() {
    for comment in ["", "sphere", "1 2 3", "# ünïcödé", "   "] {
        let text = lines(&[comment, "0.5", "0 0 -1", "1", "0.5 0.5 0.5"]);
        assert_eq!(load_world_file(&text).unwrap().objects.len(), 1);
    }
}

#[test]
fn the_first_line_that_cannot_be_read_refuses_the_description() {
    let good = ["c", "0.5", "0 0 -1", "1", "0.5 0.5 0.5"];
    let cases: [(usize, &str, ParseError); 6] = [
        (1, "half", ParseError::BadNumber),
        (2, "0 0", ParseError::MissingField),
        (2, "0 0 up", ParseError::BadNumber),
        (3, "first", ParseError::BadNumber),
        (4, "0.5 0.5", ParseError::MissingField),
        (4, "0.5 0.5 grey", ParseError::BadNumber),
    ];
    for (at, bad, cause) in cases {
        let mut text = lines(&good);
        text.extend(lines(&good));
        text[5 + at] = bad.to_string();
        assert_eq!(load_world_file(&text), Err(WorldError { line: 5 + at, cause }));
    }
}

#[test]
fn of_two_bad_lines_the_first_is_reported() {
    let text = lines(&["c", "0.5", "0 0", "nine", "0.5 0.5 0.5", "c", "x"]);
    assert_eq!(
        load_world_file(&text),
        Err(WorldError { line: 2, cause: ParseError::MissingField })
    );
}

#[test]
fn an_unknown_selector_is_reported_at_the_line_of_the_parameters() {
    let text = lines(&["c", "0.5", "0 0 -1", "7", "0.5 0.5 0.5"]);
    assert_eq!(
        load_world_file(&text),
        Err(WorldError { line: 4, cause: ParseError::UnknownMaterial })
    );
}

#[test]
fn a_fuzz_out_of_range_refuses_the_description() {
    let text = lines(&["c", "0.5", "0 0 -1", "2", "0.5 0.5 0.5 1.5"]);
    assert_eq!(
        load_world_file(&text),
        Err(WorldError { line: 4, cause: ParseError::FuzzOutOfRange })
    );
}

#[test]
fn a_record_cut_short_makes_no_sphere() {
    let whole = ["c", "0.5", "0 0 -1", "1", "0.5 0.5 0.5"];
    let rest = ["c", "0.25", "1 1 1", "3"];
    for taken in 0..=4 {
        let mut text = lines(&whole);
        text.extend(lines(&rest[..taken]));
        assert_eq!(load_world_file(&text).unwrap().objects.len(), 1);
    }
}

#[test]
fn the_lines_of_a_record_cut_short_are_read_all_the_same() {
    assert_eq!(
        load_world_file(&lines(&["c", "big"])),
        Err(WorldError { line: 1, cause: ParseError::BadNumber })
    );
    assert_eq!(
        load_world_file(&lines(&["c", "1", "0 0"])),
        Err(WorldError { line: 2, cause: ParseError::MissingField })
    );
    assert_eq!(
        load_world_file(&lines(&["c", "1", "0 0 0", "x"])),
        Err(WorldError { line: 3, cause: ParseError::BadNumber })
    );
    assert_eq!(
        load_world_file(&lines(&["c", "1", "0 0 0", "9"])),
        Ok(HittableList { objects: vec![] })
    );
}

#[test]
fn a_generated_scene_has_a_grid_of_22_by_22() {
    assert_eq!(GRID_SIDE, 22);
    let cells = random_scene();
    assert_eq!(cells.len(), 484);
    let mut k = 0;
    for a in -11..11 {
        for b in -11..11 {
            assert_eq!((cells[k].a, cells[k].b), (a, b));
            k += 1;
        }
    }
}

#[test]
fn the_draws_of_a_generated_scene_lie_in_the_unit_interval() {
    for cell in random_scene() {
        for draw in [cell.choose_mat, cell.shift_x, cell.shift_z] {
            let x = f64::from_bits(draw);
            assert!(0.0 <= x && x < 1.0);
        }
    }
}

#[test]
fn two_generated_scenes_differ() {
    assert_ne!(random_scene(), random_scene());
}

#[test]
fn the_fields_of_a_line_put_together_are_the_line() {
    for line in ["", " ", "1 2 3", "  x ", "a b  c   d", "no-blank", "0.7 0.6 0.5 0.25 "] {
        let fields = split(line.as_bytes());
        assert!(!fields.is_empty());
        for field in &fields {
            assert!(!field.contains(&b' '));
        }
        assert_eq!(fields.join(&b' '), line.as_bytes().to_vec());
    }
}
