use hsl::HSL;
use quickcheck::{quickcheck, Arbitrary, Gen};

#[derive(Clone, Debug, Hash, PartialEq)]
struct RGB {
    r: u8,
    g: u8,
    b: u8,
}

impl Arbitrary for RGB {
    fn arbitrary(g: &mut Gen) -> RGB {
        RGB { r: u8::arbitrary(g), g: u8::arbitrary(g), b: u8::arbitrary(g) }
    }
}

fn sloppy_rgb_compare(a: RGB, b: RGB) -> bool {
    const EPSILON: i32 = 0;
    let res = (a.r as i32 - b.r as i32 <= EPSILON)
        && (a.g as i32 - b.g as i32 <= EPSILON)
        && (a.b as i32 - b.b as i32 <= EPSILON);

    if !res {
        println!("in: {:?}, out: {:?}", a, b);
    }

    res
}

fn idemponent(input: RGB) -> bool {
    let RGB { r, g, b } = input;
    let (r_out, g_out, b_out) = HSL::from_rgb(&[r, g, b]).to_rgb();
    sloppy_rgb_compare(input, RGB { r: r_out, g: g_out, b: b_out })
}

#[test]
fn quickcheck_rgb_to_hsl_and_back() {
    quickcheck(idemponent as fn(RGB) -> bool);
}

fn exact(input: RGB) -> bool {
    let (r, g, b) = HSL::from_rgb(&[input.r, input.g, input.b]).to_rgb();
    input == RGB { r, g, b }
}

#[test]
fn quickcheck_round_trip_is_exact() {
    quickcheck(exact as fn(RGB) -> bool);
}

#[test]
fn round_trip_is_exact_on_a_grid() {
    for r in (0..=255u8).step_by(5) {
        for g in (0..=255u8).step_by(3) {
            for b in (0..=255u8).step_by(3) {
                assert_eq!(HSL::from_rgb(&[r, g, b]).to_rgb(), (r, g, b));
            }
        }
    }
}

#[test]
fn round_trip_is_exact_next_to_grey() {
    for v in 0..=254u8 {
        for rgb in [[v, v, v + 1], [v, v + 1, v], [v + 1, v, v], [v + 1, v + 1, v], [v, v + 1, v + 1]] {
            assert_eq!(HSL::from_rgb(&rgb).to_rgb(), (rgb[0], rgb[1], rgb[2]));
        }
    }
}

#[test]
fn round_trip_is_exact_on_greys() {
    for v in 0..=255u8 {
        let hsl = HSL::from_rgb(&[v, v, v]);
        assert_eq!((hsl.h, hsl.s), (0, 0));
        assert_eq!(hsl.to_rgb(), (v, v, v));
    }
}

#[test]
fn hsl_of_every_colour_on_a_grid_is_in_range() {
    for r in (0..=255u8).step_by(5) {
        for g in (0..=255u8).step_by(3) {
            for b in (0..=255u8).step_by(3) {
                let hsl = HSL::from_rgb(&[r, g, b]);
                assert!(0 <= hsl.h && hsl.h < 36000, "{:?}", hsl);
                assert!(0 <= hsl.s && hsl.s <= 10000, "{:?}", hsl);
                assert!(0 <= hsl.l && hsl.l <= 10000, "{:?}", hsl);
            }
        }
    }
}

#[test]
fn grey_is_the_same_at_every_hue() {
    for l in [-1, 0, 1, 20, 3333, 4999, 5000, 9980, 10000, 10001] {
        let grey = HSL { h: 0, s: 0, l }.to_rgb();
        assert_eq!(grey.0, grey.1);
        assert_eq!(grey.1, grey.2);
        for h in [i32::MIN, -36000, -1, 1, 6000, 12345, 35999, 36000, 100000, i32::MAX] {
            assert_eq!(HSL { h, s: 0, l }.to_rgb(), grey);
        }
    }
}
