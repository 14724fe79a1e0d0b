use hsl::color::{hue_to_rgb, percent_to_byte};
use hsl::units::{div_round, CHANNEL_MAX, RAMP_UNIT, SEXTANT, TURN, UNIT};
use hsl::HSL;

fn hsl(h: i32, s: i32, l: i32) -> HSL {
    HSL { h, s, l }
}

#[test]
fn units_are_hundredths_of_a_degree_and_of_a_percent() {
    assert_eq!(TURN, 36000);
    assert_eq!(SEXTANT * 6, TURN);
    assert_eq!(UNIT, 10000);
    assert_eq!(CHANNEL_MAX, 255);
    assert_eq!(RAMP_UNIT, i128::from(SEXTANT) * i128::from(UNIT) * i128::from(UNIT));
}

#[test]
fn div_round_rounds_to_nearest_and_ties_upward() {
    assert_eq!(div_round(0, 5), 0);
    assert_eq!(div_round(1, 3), 0);
    assert_eq!(div_round(2, 3), 1);
    assert_eq!(div_round(5, 2), 3);
    assert_eq!(div_round(7, 2), 4);
    assert_eq!(div_round(10, 4), 3);
    assert_eq!(div_round(9, 4), 2);
    assert_eq!(div_round(4294967295, 1), 4294967295);
    assert_eq!(div_round(4294967295, 4294967295), 1);
    assert_eq!(div_round(2147483647, 4294967295), 0);
    assert_eq!(div_round(2147483648, 4294967295), 1);
}

#[test]
fn default_is_black() {
    assert_eq!(HSL::default(), hsl(0, 0, 0));
    assert_eq!(HSL::default().to_rgb(), (0, 0, 0));
}

#[test]
fn black_and_white_are_greys_at_the_ends_of_lightness() {
    assert_eq!(HSL::from_rgb(&[0, 0, 0]), hsl(0, 0, 0));
    assert_eq!(HSL::from_rgb(&[255, 255, 255]), hsl(0, 0, 10000));
    assert_eq!(HSL::from_rgb(&[128, 128, 128]), hsl(0, 0, 5020));
}

#[test]
fn primary_and_secondary_colours_stand_a_sextant_apart() {
    assert_eq!(HSL::from_rgb(&[255, 0, 0]), hsl(0, 10000, 5000));
    assert_eq!(HSL::from_rgb(&[255, 255, 0]), hsl(6000, 10000, 5000));
    assert_eq!(HSL::from_rgb(&[0, 255, 0]), hsl(12000, 10000, 5000));
    assert_eq!(HSL::from_rgb(&[0, 255, 255]), hsl(18000, 10000, 5000));
    assert_eq!(HSL::from_rgb(&[0, 0, 255]), hsl(24000, 10000, 5000));
    assert_eq!(HSL::from_rgb(&[255, 0, 255]), hsl(30000, 10000, 5000));
}

#[test]
fn from_rgb_rounds_each_result_to_the_nearest_step() {
    assert_eq!(HSL::from_rgb(&[18, 35, 67]), hsl(21918, 5765, 1667));
    assert_eq!(HSL::from_rgb(&[147, 198, 205]), hsl(18724, 3671, 6902));
    assert_eq!(HSL::from_rgb(&[186, 218, 85]), hsl(7444, 6425, 5941));
    assert_eq!(HSL::from_rgb(&[198, 250, 172]), hsl(10000, 8864, 8275));
    assert_eq!(HSL::from_rgb(&[250, 173, 199]), hsl(33974, 8851, 8294));
    assert_eq!(HSL::from_rgb(&[200, 100, 50]), hsl(2000, 6000, 4902));
    assert_eq!(HSL::from_rgb(&[50, 100, 200]), hsl(22000, 6000, 4902));
    assert_eq!(HSL::from_rgb(&[100, 200, 50]), hsl(10000, 6000, 4902));
}

#[test]
fn from_rgb_sends_a_tie_of_the_hue_upward() {
    // 6000 / 32 is 187.5
    assert_eq!(HSL::from_rgb(&[32, 1, 0]), hsl(188, 10000, 627));
    // 36000 - 187.5 is 35812.5
    assert_eq!(HSL::from_rgb(&[32, 0, 1]), hsl(35813, 10000, 627));
}

#[test]
fn from_rgb_keeps_the_hue_short_of_a_full_turn() {
    assert_eq!(HSL::from_rgb(&[255, 0, 1]), hsl(35976, 10000, 5000));
}

#[test]
fn from_rgb_takes_the_darkest_and_lightest_chromatic_colours() {
    assert_eq!(HSL::from_rgb(&[1, 0, 0]), hsl(0, 10000, 20));
    assert_eq!(HSL::from_rgb(&[0, 0, 1]), hsl(24000, 10000, 20));
    assert_eq!(HSL::from_rgb(&[254, 255, 255]), hsl(18000, 10000, 9980));
}

#[test]
fn from_rgb_reads_the_first_three_bytes() {
    assert_eq!(HSL::from_rgb(&[18, 35, 67, 255]), HSL::from_rgb(&[18, 35, 67]));
    assert_eq!(HSL::from_rgb(&vec![255, 255, 0, 9, 9]), hsl(6000, 10000, 5000));
}

#[test]
fn to_rgb_of_colours_in_range() {
    assert_eq!(hsl(18000, 10000, 5000).to_rgb(), (0, 255, 255));
    assert_eq!(hsl(6000, 10000, 5000).to_rgb(), (255, 255, 0));
    assert_eq!(hsl(21900, 5800, 1700).to_rgb(), (18, 36, 68));
    assert_eq!(hsl(18700, 3700, 6900).to_rgb(), (147, 198, 205));
    assert_eq!(hsl(7400, 6400, 5900).to_rgb(), (186, 217, 84));
    assert_eq!(hsl(10000, 8900, 8300).to_rgb(), (199, 250, 173));
    assert_eq!(hsl(34000, 8900, 8300).to_rgb(), (250, 173, 199));
    assert_eq!(hsl(3000, 5000, 5000).to_rgb(), (191, 128, 64));
    assert_eq!(hsl(9000, 2500, 7500).to_rgb(), (191, 207, 175));
    assert_eq!(hsl(21000, 10000, 2500).to_rgb(), (0, 64, 128));
    assert_eq!(hsl(0, 1, 2500).to_rgb(), (64, 64, 64));
}

#[test]
fn to_rgb_of_greys() {
    assert_eq!(hsl(0, 0, 0).to_rgb(), (0, 0, 0));
    assert_eq!(hsl(0, 0, 10000).to_rgb(), (255, 255, 255));
    assert_eq!(hsl(0, 0, 5000).to_rgb(), (128, 128, 128));
    assert_eq!(hsl(0, 0, 4999).to_rgb(), (127, 127, 127));
    assert_eq!(hsl(12345, 0, 5000).to_rgb(), (128, 128, 128));
    assert_eq!(hsl(100000, 0, 3333).to_rgb(), (85, 85, 85));
}

#[test]
fn to_rgb_brings_a_hue_back_by_one_turn() {
    assert_eq!(hsl(-12000, 10000, 5000).to_rgb(), (0, 0, 255));
    assert_eq!(hsl(24000, 10000, 5000).to_rgb(), (0, 0, 255));
    assert_eq!(hsl(36000, 10000, 5000).to_rgb(), (255, 0, 0));
    assert_eq!(hsl(0, 10000, 5000).to_rgb(), (255, 0, 0));
    assert_eq!(hsl(-36000, 5000, 5000).to_rgb(), (191, 64, 0));
    assert_eq!(hsl(-48000, 5000, 5000).to_rgb(), (64, 0, 0));
    assert_eq!(hsl(72001, 5000, 5000).to_rgb(), (64, 64, 64));
}

#[test]
fn to_rgb_holds_channels_within_a_byte() {
    assert_eq!(hsl(0, 0, -1).to_rgb(), (0, 0, 0));
    assert_eq!(hsl(0, 0, 10001).to_rgb(), (255, 255, 255));
    assert_eq!(hsl(0, 10000, 20000).to_rgb(), (255, 255, 255));
    assert_eq!(hsl(0, 10000, -5000).to_rgb(), (0, 0, 0));
    assert_eq!(hsl(3000, 20000, 5000).to_rgb(), (255, 128, 0));
}

#[test]
fn to_rgb_takes_every_value_of_its_fields() {
    assert_eq!(hsl(i32::MIN, i32::MAX, i32::MIN).to_rgb(), (255, 255, 255));
    assert_eq!(hsl(i32::MAX, i32::MAX, i32::MAX).to_rgb(), (255, 255, 255));
    assert_eq!(hsl(i32::MAX, i32::MIN, i32::MAX).to_rgb(), (0, 0, 0));
}

#[test]
fn percent_to_byte_rounds_and_saturates() {
    assert_eq!(percent_to_byte(0, 1), 0);
    assert_eq!(percent_to_byte(1, 1), 255);
    assert_eq!(percent_to_byte(1, 2), 128);
    assert_eq!(percent_to_byte(1, 3), 85);
    assert_eq!(percent_to_byte(1, 510), 1);
    assert_eq!(percent_to_byte(1, 511), 0);
    assert_eq!(percent_to_byte(509, 510), 255);
    assert_eq!(percent_to_byte(1017, 1020), 254);
    assert_eq!(percent_to_byte(-1, 2), 0);
    assert_eq!(percent_to_byte(3, 2), 255);
    assert_eq!(percent_to_byte(i128::MIN, 7), 0);
    assert_eq!(percent_to_byte(i128::MAX, 1_000_000_000_000_000), 255);
    assert_eq!(percent_to_byte(5000, 10000), 128);
    assert_eq!(percent_to_byte(300_000_000_000, RAMP_UNIT), 128);
}

#[test]
fn hue_to_rgb_rises_holds_falls_and_rests() {
    assert_eq!(hue_to_rgb(10, 70, 0), 60000);
    assert_eq!(hue_to_rgb(10, 70, 3000), 240000);
    assert_eq!(hue_to_rgb(10, 70, 5999), 419940);
    assert_eq!(hue_to_rgb(10, 70, 6000), 420000);
    assert_eq!(hue_to_rgb(10, 70, 17999), 420000);
    assert_eq!(hue_to_rgb(10, 70, 18000), 420000);
    assert_eq!(hue_to_rgb(10, 70, 21000), 240000);
    assert_eq!(hue_to_rgb(10, 70, 24000), 60000);
    assert_eq!(hue_to_rgb(10, 70, 36000), 60000);
}

#[test]
fn hue_to_rgb_wraps_by_one_turn_only() {
    assert_eq!(hue_to_rgb(10, 70, -3000), 60000);
    assert_eq!(hue_to_rgb(10, 70, -33000), 240000);
    assert_eq!(hue_to_rgb(10, 70, 39000), 240000);
    assert_eq!(hue_to_rgb(10, 70, 36001), 60060);
    assert_eq!(hue_to_rgb(10, 70, -36001), 60000 - 60);
    assert_eq!(hue_to_rgb(10, 70, 72001), 60000);
}
