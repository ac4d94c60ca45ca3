use intcode::fuel::{direct_fuel_for_mass, fuel_for_mass, parse_mass};
use intcode::password::{
    count_passwords, parse_range,
    decimal_digits, digits_never_decrease, has_double_digits, has_pair_of_digits, last_but_one_digit,
    last_digit,
};
use intcode::image::{image_check, pixel_color, render_image_output, IMAGE_HEIGHT, IMAGE_WIDTH, LAYER_SIZE};
use intcode::orbits::{find_parent, num_orbits, orbital_chain, orbital_transfers, star_map, total_orbits};
use intcode::text::ParseError;
use intcode::wires::{intersect_wires, intersect_wires_by_steps, lines_to_points};

#[test]
fn test_fuel_for_mass() {
    assert!(fuel_for_mass(14) == 2);
    assert!(fuel_for_mass(1969) == 966);
    assert!(fuel_for_mass(100756) == 50346);
}

#[test]
fn direct_fuel_values() {
    assert_eq!(direct_fuel_for_mass(12), 2);
    assert_eq!(direct_fuel_for_mass(14), 2);
    assert_eq!(direct_fuel_for_mass(1969), 654);
    assert_eq!(direct_fuel_for_mass(100756), 33583);
    assert_eq!(direct_fuel_for_mass(5), 0);
    assert_eq!(direct_fuel_for_mass(-30), 0);
    assert_eq!(fuel_for_mass(0), 0);
    assert_eq!(fuel_for_mass(-7), 0);
}

#[test]
fn masses_from_text() {
    assert_eq!(parse_mass("1969"), Ok(1969));
    assert_eq!(parse_mass("-4"), Ok(-4));
    assert_eq!(parse_mass("19x"), Err(ParseError::InvalidInteger));
    assert_eq!(parse_mass(""), Err(ParseError::InvalidInteger));
}

#[test]
fn test_has_double_digits() {
    let test_data = [
        (123456, false),
        (121212, false),
        (113456, true),
        (122456, true),
        (123356, true),
        (123446, true),
        (123455, true),
        (555555, true),
    ];
    for (n, expected) in &test_data {
        assert_eq!(has_double_digits(*n), *expected);
    }
}

#[test]
fn test_digits_never_decrease() {
    let test_data = [
        (955555, false),
        (123454, false),
        (121212, false),
        (113456, true),
        (122456, true),
        (123356, true),
        (123446, true),
        (123455, true),
        (555555, true),
    ];
    for (n, expected) in &test_data {
        assert_eq!(digits_never_decrease(*n), *expected);
    }
}

#[test]
fn main_test_digits_never_decrease() {
    let test_data = [
        (955555, false),
        (123454, false),
        (121212, false),
        (113456, true),
        (122456, true),
        (123356, true),
        (123446, true),
        (123455, true),
        (555555, true),
    ];
    for (n, expected) in &test_data {
        assert_eq!(digits_never_decrease(*n), *expected);
    }
}

#[test]
fn test_has_pair_of_digits() {
    let test_data = [
        (123456, false),
        (121212, false),
        (113456, true),
        (122456, true),
        (123356, true),
        (123446, true),
        (123455, true),
        (555555, false),
        (122234, false),
        (122244, true),
    ];
    for (n, expected) in &test_data {
        assert_eq!(has_pair_of_digits(*n), *expected);
    }
}

#[test]
fn digit_helpers() {
    assert_eq!(last_digit(1234), 4);
    assert_eq!(last_but_one_digit(1234), 3);
    assert_eq!(last_but_one_digit(7), 0);
    assert_eq!(decimal_digits(40517), vec![4, 0, 5, 1, 7]);
    assert_eq!(decimal_digits(0), Vec::<u32>::new());
    assert!(has_double_digits(100));
    assert!(!has_double_digits(0));
    assert!(digits_never_decrease(0));
    assert!(has_pair_of_digits(112233));
    assert!(has_pair_of_digits(111122));
    assert!(!has_pair_of_digits(0));
}

#[test]
fn test_wires() {
    let test_data = [
        (
            "R75,D30,R83,U83,L12,D49,R71,U7,L72\n\
             U62,R66,U55,R34,D71,R55,D58,R83",
            159,
        ),
        (
            "R98,U47,R26,D63,R33,U87,L62,D20,R33,U53,R51\n\
             U98,R91,D20,R16,D67,R40,U7,R15,U6,R7",
            135,
        ),
    ];

    for (wires, distance) in &test_data {
        assert_eq!(intersect_wires(wires), Ok(Some(*distance)));
    }
}

#[test]
fn main_test_wires() {
    let test_data = [
        (
            "R75,D30,R83,U83,L12,D49,R71,U7,L72\n\
             U62,R66,U55,R34,D71,R55,D58,R83",
            610,
        ),
        (
            "R98,U47,R26,D63,R33,U87,L62,D20,R33,U53,R51\n\
             U98,R91,D20,R16,D67,R40,U7,R15,U6,R7",
            410,
        ),
    ];

    for (wires, distance) in &test_data {
        assert_eq!(intersect_wires_by_steps(wires), Ok(Some(*distance)));
    }
}

#[test]
fn wire_paths_and_errors() {
    assert_eq!(lines_to_points("R2,U1"), Ok(vec![(1, 0), (2, 0), (2, 1)]));
    assert_eq!(lines_to_points("L1,D2"), Ok(vec![(-1, 0), (-1, -1), (-1, -2)]));
    assert_eq!(lines_to_points("R0"), Ok(vec![]));
    assert_eq!(lines_to_points("X3"), Err(ParseError::InvalidWire));
    assert_eq!(lines_to_points("R-0"), Err(ParseError::InvalidWire));
    assert_eq!(lines_to_points("R"), Err(ParseError::InvalidWire));
    assert_eq!(lines_to_points("R3000000000"), Err(ParseError::InvalidWire));
    assert_eq!(intersect_wires("R8,U5,L5,D3\nU7,R6,D4,L4"), Ok(Some(6)));
    assert_eq!(intersect_wires_by_steps("R8,U5,L5,D3\nU7,R6,D4,L4\n"), Ok(Some(30)));
    assert_eq!(intersect_wires("R2\nL2"), Ok(None));
    assert_eq!(intersect_wires("R2"), Err(ParseError::MalformedLine));
    assert_eq!(intersect_wires("R2\nQ2"), Err(ParseError::InvalidWire));
}

const ORBIT_MAP: &str = "\
                   COM)B\n\
                   B)C\n\
                   C)D\n\
                   D)E\n\
                   E)F\n\
                   B)G\n\
                   G)H\n\
                   D)I\n\
                   E)J\n\
                   J)K\n\
                   K)L";

#[test]
fn test_orbits() {
    let map = ORBIT_MAP;
    assert!(total_orbits(map) == Ok(Some(42)));
}

#[test]
fn main_test_orbits() {
    let map = "\
                   COM)B\n\
                   B)C\n\
                   C)D\n\
                   D)E\n\
                   E)F\n\
                   B)G\n\
                   G)H\n\
                   D)I\n\
                   E)J\n\
                   J)K\n\
                   K)L";

    assert!(total_orbits(map) == Ok(Some(42)));
}

#[test]
fn orbit_chains_and_transfers() {
    let map = star_map("COM)B\nB)C\nC)D\nD)E\nE)F\nB)G\nG)H\nD)I\nE)J\nJ)K\nK)L\nK)YOU\nI)SAN\n").unwrap();
    assert_eq!(map.len(), 13);
    assert_eq!(num_orbits(b"D", &map), Some(3));
    assert_eq!(num_orbits(b"L", &map), Some(7));
    assert_eq!(num_orbits(b"COM", &map), Some(0));
    assert_eq!(
        orbital_chain(b"H", &map),
        Some(vec![b"G".to_vec(), b"B".to_vec(), b"COM".to_vec()])
    );
    assert_eq!(find_parent(&map, b"C"), Some(1));
    assert_eq!(find_parent(&map, b"COM"), None);
    assert_eq!(orbital_transfers(&map, b"YOU", b"SAN"), Some(4));
    assert_eq!(orbital_transfers(&map, b"YOU", b"NOWHERE"), None);
    assert_eq!(total_orbits("A)B\nB)A"), Ok(None));
    assert_eq!(total_orbits("A)B\nA)B)C"), Err(ParseError::MalformedLine));
    assert_eq!(total_orbits(""), Ok(Some(0)));
    assert_eq!(total_orbits("A)B\nC)B"), Ok(Some(1)));
}

fn layered(layers: &[&[u8]]) -> Vec<u8> {
    let mut v = Vec::new();
    for layer in layers {
        assert_eq!(layer.len(), LAYER_SIZE);
        v.extend_from_slice(layer);
    }
    v
}

#[test]
fn image_checksum() {
    let mut a = vec![b'0'; LAYER_SIZE];
    a[0] = b'1';
    a[1] = b'2';
    let mut b = vec![b'1'; LAYER_SIZE];
    b[0] = b'0';
    for i in 1..41 {
        b[i] = b'2';
    }
    let data = String::from_utf8(layered(&[&a, &b])).unwrap();
    assert_eq!(image_check(&data), 109 * 40);
    let mut c = b.clone();
    c[149] = b'0';
    let data = String::from_utf8(layered(&[&c, &b, &a])).unwrap();
    assert_eq!(image_check(&data), 109 * 40);
    assert_eq!(image_check("0012"), 1);
}

#[test]
fn image_rendering() {
    let mut top = vec![b'2'; LAYER_SIZE];
    top[0] = b'1';
    top[1] = b'0';
    let mut bottom = vec![b'0'; LAYER_SIZE];
    bottom[2] = b'1';
    bottom[3] = b'7';
    let data = layered(&[&top, &bottom]);
    assert_eq!(pixel_color(0, 0, &data), '1');
    assert_eq!(pixel_color(1, 0, &data), '0');
    assert_eq!(pixel_color(2, 0, &data), '1');
    assert_eq!(pixel_color(4, 5, &data), '0');
    assert_eq!(pixel_color(3, 0, &top), '0');
    let picture = render_image_output(&data);
    let rows: Vec<&str> = picture.split('\n').collect();
    assert_eq!(rows.len(), IMAGE_HEIGHT + 1);
    assert_eq!(rows[0], format!("* *?{}", " ".repeat(21)));
    assert_eq!(rows[5], " ".repeat(IMAGE_WIDTH));
    assert_eq!(rows[6], "");
}

#[test]
fn password_counts() {
    assert_eq!(count_passwords(111, 123, false), 10);
    assert_eq!(count_passwords(111, 123, true), 9);
    assert_eq!(count_passwords(5, 5, false), 0);
    assert_eq!(count_passwords(9, 3, false), 0);
    assert_eq!(count_passwords(4294967295, 4294967295, false), 0);
    assert_eq!(parse_range("183564-657474"), Ok((183564, 657474)));
    assert_eq!(parse_range("1-2-3"), Err(ParseError::InvalidInteger));
    assert_eq!(parse_range("12"), Err(ParseError::InvalidInteger));
    assert_eq!(parse_range("1-x"), Err(ParseError::InvalidInteger));
}
