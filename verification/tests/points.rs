use tei_viewer::points::{decode_points, parse_points_allow_float};
use tei_viewer::tei_data::Zone;

#[test]
fn decimal_points_are_rounded_half_up() {
    assert_eq!(
        parse_points_allow_float("586,455 597.2,452.6 600,460"),
        vec![(586, 455), (597, 453), (600, 460)]
    );
    assert_eq!(parse_points_allow_float("0.5,1.5"), vec![(1, 2)]);
    assert_eq!(parse_points_allow_float("0.49,2.4999"), vec![(0, 2)]);
    assert_eq!(parse_points_allow_float("10.,.5"), vec![(10, 1)]);
    assert_eq!(parse_points_allow_float("+3.7,+4"), vec![(4, 4)]);
}

#[test]
fn malformed_tokens_are_dropped() {
    assert_eq!(parse_points_allow_float("1,2,3"), vec![]);
    assert_eq!(parse_points_allow_float("a,b"), vec![]);
    assert_eq!(parse_points_allow_float("1,2 1,2,3 3,4 a,b 5,6"), vec![(1, 2), (3, 4), (5, 6)]);
    assert_eq!(parse_points_allow_float("1 2"), vec![]);
    assert_eq!(parse_points_allow_float(",1 1, , 1.2.3,4 .,1 +,1 -,1"), vec![]);
    assert_eq!(parse_points_allow_float("inf,1 nan,1 1,infinity -inf,2 NaN,3"), vec![]);
    assert_eq!(parse_points_allow_float("1e,1 e1,1 1e+,1 1e1.5,1 1e+-1,1 .e1,1 1x,1 0x10,1 1_0,1"), vec![]);
    assert_eq!(parse_points_allow_float(""), vec![]);
    assert_eq!(parse_points_allow_float("  \n "), vec![]);
}

#[test]
fn negative_coordinates_become_zero() {
    assert_eq!(parse_points_allow_float("-1,-2"), vec![(0, 0)]);
    assert_eq!(parse_points_allow_float("-0.4,7"), vec![(0, 7)]);
    assert_eq!(parse_points_allow_float("-0,-0.0"), vec![(0, 0)]);
    assert_eq!(parse_points_allow_float("5,-999999999999"), vec![(5, 0)]);
}

#[test]
fn large_coordinates_stop_at_the_largest_value() {
    assert_eq!(
        parse_points_allow_float("4294967295,4294967296"),
        vec![(u32::MAX, u32::MAX)]
    );
    assert_eq!(
        parse_points_allow_float("4294967294.5,99999999999999999999"),
        vec![(u32::MAX, u32::MAX)]
    );
}

#[test]
fn exponents_shift_the_point() {
    assert_eq!(parse_points_allow_float("1e3,1.5E2"), vec![(1000, 150)]);
    assert_eq!(parse_points_allow_float("15e-1,14e-1"), vec![(2, 1)]);
    assert_eq!(parse_points_allow_float("5e-1,4e-1"), vec![(1, 0)]);
    assert_eq!(parse_points_allow_float("0.05e1,0.04e+1"), vec![(1, 0)]);
    assert_eq!(parse_points_allow_float("123456e-3,1.e2"), vec![(123, 100)]);
    assert_eq!(parse_points_allow_float(".5e1,5e-2"), vec![(5, 0)]);
    assert_eq!(parse_points_allow_float("1e-400,0e400"), vec![(0, 0)]);
    assert_eq!(parse_points_allow_float("1e10,4294967295e0"), vec![(u32::MAX, u32::MAX)]);
    assert_eq!(parse_points_allow_float("1e99999999999999999999999999,1"), vec![]);
    assert_eq!(parse_points_allow_float("0e99999999999999999999999999,1e-99999999999999999999999999"), vec![(0, 0)]);
    assert_eq!(parse_points_allow_float("-1e3,-1e-3"), vec![(0, 0)]);
}

#[test]
fn numbers_beyond_single_precision_are_dropped() {
    assert_eq!(parse_points_allow_float("1e38,3.4e38"), vec![(u32::MAX, u32::MAX)]);
    assert_eq!(parse_points_allow_float("1e39,1"), vec![]);
    assert_eq!(parse_points_allow_float("1,-1e39"), vec![]);
    assert_eq!(parse_points_allow_float("340282356779733661637539395458142568447,0"), vec![(u32::MAX, 0)]);
    assert_eq!(parse_points_allow_float("340282356779733661637539395458142568447.9,0"), vec![(u32::MAX, 0)]);
    assert_eq!(parse_points_allow_float("340282356779733661637539395458142568448,0"), vec![]);
    assert_eq!(parse_points_allow_float("3402823567797336616375393954581425684480e-1,0"), vec![]);
    assert_eq!(parse_points_allow_float("34028235677973366163753939545814256844e1,0"), vec![(u32::MAX, 0)]);
    assert_eq!(parse_points_allow_float("0.000000000000000000000000000000000000000000001e84,0"), vec![]);
}

#[test]
fn points_are_split_at_any_whitespace() {
    assert_eq!(
        parse_points_allow_float("\t1,2\n3,4\u{a0}5,6  7,8 "),
        vec![(1, 2), (3, 4), (5, 6), (7, 8)]
    );
}

fn reference_decimal_points(points_str: &str) -> Vec<(u32, u32)> {
    points_str
        .split_whitespace()
        .filter_map(|pair| {
            let coords: Vec<&str> = pair.split(',').collect();
            if coords.len() == 2 {
                let x_parsed = coords[0].trim().parse::<f32>().ok();
                let y_parsed = coords[1].trim().parse::<f32>().ok();
                if let (Some(xf), Some(yf)) = (x_parsed, y_parsed) {
                    if xf.is_finite() && yf.is_finite() {
                        let xi = if xf.is_sign_negative() { 0 } else { xf.round() as u32 };
                        let yi = if yf.is_sign_negative() { 0 } else { yf.round() as u32 };
                        return Some((xi, yi));
                    }
                }
            }
            None
        })
        .collect()
}

#[test]
fn decimal_points_agree_with_single_precision_on_pixel_values() {
    let fractions = ["", ".", ".0", ".1", ".2", ".25", ".4", ".49", ".5", ".50", ".51", ".6", ".75", ".9", ".99"];
    let signs = ["", "+", "-"];
    for whole in 0..1200u32 {
        for fraction in fractions {
            for sign in signs {
                let token = format!("{}{}{},{}{}", sign, whole, fraction, whole * 7, fraction);
                assert_eq!(
                    parse_points_allow_float(&token),
                    reference_decimal_points(&token),
                    "{:?}",
                    token
                );
            }
        }
    }
    for exponent in -45..45i32 {
        for mantissa in ["1", "2.5", "5", "0.5", "49", "0", "75e", "9.75"] {
            let token = if mantissa.ends_with('e') {
                format!("{}{},7", mantissa, exponent)
            } else {
                format!("{}e{},{}E{}", mantissa, exponent, mantissa, exponent)
            };
            if exponent > 7 || exponent < -7 {
                // Beyond seven digits single precision holds no exact decimal: only
                // which tokens are kept is compared.
                assert_eq!(
                    parse_points_allow_float(&token).len(),
                    reference_decimal_points(&token).len(),
                    "{:?}",
                    token
                );
            } else {
                assert_eq!(
                    parse_points_allow_float(&token),
                    reference_decimal_points(&token),
                    "{:?}",
                    token
                );
            }
        }
    }
    let lists = [
        "586,455 597.2,452.6 600,460", "1,2,3 4,5", "a,b 1,1", " 12.5,13.5\t14.4999,0.5 ",
        "x 1,2 y,z 3,4,", "inf,1 1,nan 2,2", "1e39,1 -1e39,1 1e38,1", "+1,-1 +.5,-.5 1.,1 .,1",
        "1e,1 1e+,1 e1,1 1e1e1,1 1.2.3,1 1e1.5,1 0x1,1 1_0,1 ١,1",
    ];
    for list in lists {
        assert_eq!(parse_points_allow_float(list), reference_decimal_points(list), "{:?}", list);
    }
}

fn reference_integer_points(points_str: &str) -> Vec<(u32, u32)> {
    points_str
        .split_whitespace()
        .filter_map(|pair| {
            let coords: Vec<&str> = pair.split(',').collect();
            if coords.len() == 2 {
                if let (Ok(x), Ok(y)) = (coords[0].parse::<u32>(), coords[1].parse::<u32>()) {
                    return Some((x, y));
                }
            }
            None
        })
        .collect()
}

#[test]
fn integer_points_take_unsigned_integers_only() {
    assert_eq!(Zone::parse_points("586,455 597,452 600,460"), vec![(586, 455), (597, 452), (600, 460)]);
    assert_eq!(Zone::parse_points("1.5,2 3,4"), vec![(3, 4)]);
    assert_eq!(Zone::parse_points("-1,2 +3,4"), vec![(3, 4)]);
    assert_eq!(Zone::parse_points("4294967295,0 4294967296,0"), vec![(u32::MAX, 0)]);
    assert_eq!(Zone::parse_points(""), vec![]);
    let lists = [
        "1,2 3,4", "1,2,3", "a,b", ", 1, ,1", "  7,8\n9,10\t", "+1,+2", "-1,-2", "1.0,2", "0,0",
        "00012,0034", "1,2 x 3,4 5 6,7,8 9,10", "4294967295,4294967295 4294967296,1",
        "\u{a0}1,2\u{3000}3,4",
    ];
    for list in lists {
        assert_eq!(Zone::parse_points(list), reference_integer_points(list), "{:?}", list);
        assert_eq!(decode_points(list, false), reference_integer_points(list), "{:?}", list);
    }
}

#[test]
fn bounding_box_is_tight() {
    let zone = |points: Vec<(u32, u32)>| Zone { id: "z".to_string(), zone_type: String::new(), points };
    assert_eq!(zone(vec![]).get_bounding_box(), (0, 0, 0, 0));
    assert_eq!(zone(vec![(5, 9)]).get_bounding_box(), (5, 9, 5, 9));
    assert_eq!(
        zone(vec![(586, 455), (597, 453), (600, 460), (590, 470)]).get_bounding_box(),
        (586, 453, 600, 470)
    );
    assert_eq!(
        zone(vec![(u32::MAX, 0), (0, u32::MAX)]).get_bounding_box(),
        (0, 0, u32::MAX, u32::MAX)
    );
    assert_eq!(zone(vec![(3, 3), (3, 3)]).get_bounding_box(), (3, 3, 3, 3));
}
