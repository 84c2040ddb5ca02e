use lax_utils::color_picker::{as_color, Color, ColorSpace, DynamicColor, Hsl, Hsv, Rgb};
use lax_utils::fixed::Fixed;

fn whole(n: i32) -> Fixed {
    Fixed::from_int(n)
}

fn rgb(r: i32, g: i32, b: i32) -> Rgb {
    Rgb::from_components((whole(r), whole(g), whole(b)))
}

fn assert_close(a: (Fixed, Fixed, Fixed), b: (Fixed, Fixed, Fixed), tolerance: i64) {
    assert!((a.0.raw - b.0.raw).abs() <= tolerance, "{:?} vs {:?}", a, b);
    assert!((a.1.raw - b.1.raw).abs() <= tolerance, "{:?} vs {:?}", a, b);
    assert!((a.2.raw - b.2.raw).abs() <= tolerance, "{:?} vs {:?}", a, b);
}

const ONE_UNIT: i64 = 1_000_000;

#[test]
fn new_clamps_to_space_maxima() {
    let c = DynamicColor::new((whole(400), whole(400), whole(400)), ColorSpace::Hsl);
    assert_eq!(c.components(), (whole(360), whole(100), whole(100)));
    let c = DynamicColor::new((whole(-5), whole(300), whole(12)), ColorSpace::Rgb);
    assert_eq!(c.components(), (whole(0), whole(255), whole(12)));
}

#[test]
fn hex_code_round_trip() {
    let grey = rgb(127, 127, 127);
    assert_eq!(grey.as_hex_code(), "7f7f7f");
    assert_eq!(Rgb::from_hex_code(&grey.as_hex_code()), Some(grey));
    assert_eq!(rgb(0, 255, 0).as_hex_code(), "00ff00");
}

#[test]
fn hex_code_truncates_channels() {
    let c = Rgb::from_components((Fixed::from_raw(127_999_999), whole(16), whole(255)));
    assert_eq!(c.as_hex_code(), "7f10ff");
}

#[test]
fn hex_code_rejects_malformed_text() {
    assert_eq!(Rgb::from_hex_code("12345"), None);
    assert_eq!(Rgb::from_hex_code("1234567"), None);
    assert_eq!(Rgb::from_hex_code("12g456"), None);
    assert_eq!(Rgb::from_hex_code("#12345"), None);
    assert_eq!(Rgb::from_hex_code("A0b1C2"), Some(rgb(160, 177, 194)));
}

#[test]
fn hsl_round_trip_stays_within_one_unit() {
    let samples = [
        (255, 255, 255),
        (0, 0, 0),
        (255, 0, 0),
        (0, 0, 255),
        (12, 200, 99),
        (250, 3, 128),
        (128, 128, 129),
        (90, 60, 30),
        (1, 2, 3),
    ];
    for (r, g, b) in samples {
        let c = rgb(r, g, b);
        let back = Hsl::from_rgb(c).as_rgb();
        assert_close(back.as_components(), c.as_components(), ONE_UNIT);
        let back = Hsv::from_rgb(c).as_rgb();
        assert_close(back.as_components(), c.as_components(), ONE_UNIT);
    }
}

#[test]
fn pure_colours_have_exact_hues() {
    let red = Hsl::from_rgb(rgb(255, 0, 0));
    assert_eq!(red.as_components(), (whole(0), whole(100), whole(50)));
    let blue = Hsl::from_rgb(rgb(0, 0, 255));
    assert_eq!(blue.h, whole(240));
    let blue = Hsv::from_rgb(rgb(0, 0, 255));
    assert_eq!(blue.as_components(), (whole(240), whole(100), whole(100)));
    let green = Hsv::from_rgb(rgb(0, 255, 0));
    assert_eq!(green.h, whole(120));
}

#[test]
fn grey_has_zero_hue_and_saturation() {
    let grey = Hsv::from_rgb(rgb(51, 51, 51));
    assert_eq!(grey.as_components(), (whole(0), whole(0), whole(20)));
    let grey = Hsl::from_rgb(rgb(51, 51, 51));
    assert_eq!(grey.as_components(), (whole(0), whole(0), whole(20)));
}

#[test]
fn hsv_to_rgb_exact_values() {
    let c = Hsv::from_components((whole(60), whole(100), whole(100))).as_rgb();
    assert_eq!(c, rgb(255, 255, 0));
    let c = Hsv::from_components((whole(360), whole(100), whole(100))).as_rgb();
    assert_eq!(c, rgb(255, 0, 0));
    let c = Hsv::from_components((whole(200), whole(0), whole(40))).as_rgb();
    assert_eq!(c, rgb(102, 102, 102));
}

#[test]
fn hsl_to_rgb_exact_values() {
    let c = Hsl::from_components((whole(0), whole(100), whole(50))).as_rgb();
    assert_eq!(c, rgb(255, 0, 0));
    let c = Hsl::from_components((whole(120), whole(100), whole(25))).as_rgb();
    assert_eq!(c.as_components(), (whole(0), Fixed::from_raw(127_500_000), whole(0)));
}

#[test]
fn space_switch_comes_back() {
    let start = DynamicColor::new((whole(30), whole(140), whole(220)), ColorSpace::Rgb);
    for s1 in [ColorSpace::Rgb, ColorSpace::Hsl, ColorSpace::Hsv] {
        for s2 in [ColorSpace::Rgb, ColorSpace::Hsl, ColorSpace::Hsv] {
            let back = start.set_color_space(s1).set_color_space(s2).set_color_space(start.color_space());
            assert_eq!(back.color_space(), ColorSpace::Rgb);
            assert_close(back.components(), start.components(), ONE_UNIT);
        }
    }
}

#[test]
fn end_to_end_white_to_red() {
    let white = DynamicColor::new((whole(255), whole(255), whole(255)), ColorSpace::Rgb);
    let hsl = white.set_color_space(ColorSpace::Hsl);
    assert_eq!(hsl.color_space(), ColorSpace::Hsl);
    assert_eq!(hsl.components(), (whole(0), whole(0), whole(100)));
    let red = hsl.set_floats((whole(0), whole(1), Fixed::from_raw(500_000)));
    assert_eq!(red.to_color::<Rgb>(), rgb(255, 0, 0));
}

#[test]
fn floats_are_normalised_against_current_space() {
    let c = DynamicColor::new((whole(180), whole(50), whole(25)), ColorSpace::Hsv);
    assert_eq!(c.as_floats(), (Fixed::from_raw(500_000), Fixed::from_raw(500_000), Fixed::from_raw(250_000)));
    let c = DynamicColor::from_floats((whole(2), Fixed::from_raw(-1), Fixed::from_raw(500_000)), ColorSpace::Rgb);
    assert_eq!(c.components(), (whole(255), whole(0), Fixed::from_raw(127_500_000)));
}

#[test]
fn single_component_setters_clamp() {
    let c = DynamicColor::new((whole(10), whole(20), whole(30)), ColorSpace::Hsl);
    assert_eq!(c.set_component_0(whole(500)).components(), (whole(360), whole(20), whole(30)));
    assert_eq!(c.set_component_1(whole(-1)).components(), (whole(10), whole(0), whole(30)));
    assert_eq!(c.set_component_2(whole(42)).components(), (whole(10), whole(20), whole(42)));
    assert_eq!(c.set_float_0(Fixed::from_raw(500_000)).components(), (whole(180), whole(20), whole(30)));
    assert_eq!(c.set_float_1(whole(3)).components(), (whole(10), whole(100), whole(30)));
    assert_eq!(c.set_float_2(Fixed::zero()).components(), (whole(10), whole(20), whole(0)));
}

#[test]
fn colour_bridges() {
    let red = rgb(255, 0, 0);
    let c = DynamicColor::from_color(red);
    assert_eq!(c.color_space(), ColorSpace::Rgb);
    let hsv: Hsv = c.to_color();
    assert_eq!(hsv.as_components(), (whole(0), whole(100), whole(100)));
    let hsl: Hsl = as_color(&hsv);
    assert_eq!(hsl.as_components(), (whole(0), whole(100), whole(50)));
    assert_eq!(Hsl::from_floats((whole(1), whole(1), whole(1))).as_components(), (whole(360), whole(100), whole(100)));
}

#[test]
fn space_metadata() {
    let info = ColorSpace::Hsl.info();
    assert_eq!(info.labels, ("H", "S", "L"));
    assert_eq!(info.units, (Some("°"), Some("%"), Some("%")));
    assert_eq!(ColorSpace::Rgb.info().units, (None, None, None));
    assert_eq!(ColorSpace::Hsv.info().labels.2, "V");
    assert_eq!(ColorSpace::Hsv.to_ui_string(), "HSV");
    assert_eq!(ColorSpace::Rgb.color_component_maxes(), (whole(255), whole(255), whole(255)));
}

#[test]
fn typed_components_fall_back_to_zero() {
    let c = DynamicColor::new((whole(1), whole(2), whole(3)), ColorSpace::Rgb);
    let edited = c.with_typed_components((" 12.5 ", "oops", "300"));
    assert_eq!(edited.components(), (Fixed::from_raw(12_500_000), whole(0), whole(255)));
    assert_eq!(edited.color_space(), ColorSpace::Rgb);
}

#[test]
fn typed_fractions_scale_to_the_space() {
    let c = DynamicColor::new((whole(0), whole(0), whole(0)), ColorSpace::Hsl);
    let edited = c.with_typed_floats(("0.5", "1", "x"));
    assert_eq!(edited.components(), (whole(180), whole(100), whole(0)));
}

#[test]
fn hex_edit_updates_or_keeps_the_colour() {
    let c = DynamicColor::new((whole(10), whole(20), whole(30)), ColorSpace::Hsv);
    let red = c.with_hex_code("#ff0000");
    assert_eq!(red.color_space(), ColorSpace::Hsv);
    assert_eq!(red.components(), (whole(0), whole(100), whole(100)));
    let kept = c.with_hex_code("#ff00");
    assert_eq!(kept.components(), c.components());
    let plain = DynamicColor::new((whole(0), whole(0), whole(0)), ColorSpace::Rgb).with_hex_code("00FF80");
    assert_eq!(plain.components(), (whole(0), whole(255), whole(128)));
}

#[test]
fn hsv_drag_is_expressed_in_current_space() {
    let c = DynamicColor::new((whole(0), whole(0), whole(0)), ColorSpace::Rgb);
    let dragged = c.with_hsv_floats((Fixed::from_raw(333_333), whole(1), whole(1)));
    assert_eq!(dragged.color_space(), ColorSpace::Rgb);
    let rgb: Rgb = dragged.to_color();
    assert_eq!(rgb.as_hex_code(), "00ff00");
}

#[test]
fn round_trip_through_dynamic_colour_is_close() {
    let start = DynamicColor::new((whole(200), whole(35), whole(60)), ColorSpace::Hsl);
    let back = start.set_color_space(ColorSpace::Hsv).set_color_space(ColorSpace::Rgb).set_color_space(ColorSpace::Hsl);
    let a: Rgb = start.to_color();
    let b: Rgb = back.to_color();
    assert_close(a.as_components(), b.as_components(), ONE_UNIT);
}

#[test]
fn typed_exponent_forms_are_read() {
    let c = DynamicColor::new((whole(1), whole(2), whole(3)), ColorSpace::Rgb);
    let edited = c.with_typed_components(("1e3", "1.5e1", "-2e0"));
    assert_eq!(edited.components(), (whole(255), whole(15), whole(0)));
    let fractions = c.with_typed_floats(("5e-1", "1E0", "2.5e-1"));
    assert_eq!(fractions.components(), (Fixed::from_raw(127_500_000), whole(255), Fixed::from_raw(63_750_000)));
}
