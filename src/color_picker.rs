use vstd::prelude::*;

use crate::color_math::{
    cyl_in_range, hsl_from_rgb, hsl_from_rgb_exec, hsv_from_rgb, hsv_from_rgb_exec, rgb_from_hsl,
    rgb_from_hsl_exec, rgb_from_hsv, rgb_from_hsv_exec, rgb_in_range,
};
use crate::fixed::{Fixed, SCALE};
use crate::string_utils::StringUtils;
use crate::utils::shown_value;
use crate::hex::{byte_hex, hex_pair, hex_pair_exec, lemma_byte_hex_round_trip, push_byte_hex};

verus! {

/// Axis labels and units of a colour space.
#[derive(Debug, Clone, Copy, PartialEq, Eq)]
pub struct ColorSpaceInfo {
    pub labels: (&'static str, &'static str, &'static str),
    pub units: (Option<&'static str>, Option<&'static str>, Option<&'static str>),
}

/// Three components, in a colour space's own ranges or normalised to `[0, 1]`.
pub type Triple = (Fixed, Fixed, Fixed);

/// The raw values of a triple.
pub open spec fn raws(t: Triple) -> (int, int, int) {
    (t.0.raw as int, t.1.raw as int, t.2.raw as int)
}

/// `v` brought into `[0, hi]`.
pub open spec fn clamp_int(v: int, hi: int) -> int {
    if v < 0 {
        0
    } else if v > hi {
        hi
    } else {
        v
    }
}

/// A component as a fraction of its maximum, in raw units.
pub open spec fn normalize(c: int, hi: int) -> int {
    c * SCALE / hi
}

/// A fraction, clamped to `[0, 1]`, scaled to a component whose maximum is
/// `hi`.
pub open spec fn denormalize(f: int, hi: int) -> int {
    clamp_int(f, SCALE as int) * hi / SCALE as int
}

fn clamp_raw(v: Fixed, hi: i64) -> (r: Fixed)
    requires
        hi >= 0,
    ensures
        r.raw == clamp_int(v.raw as int, hi as int),
{
    if v.raw < 0 {
        Fixed { raw: 0 }
    } else if v.raw > hi {
        Fixed { raw: hi }
    } else {
        v
    }
}

fn normalize_exec(c: Fixed, hi: i64) -> (r: Fixed)
    requires
        0 < hi <= 360 * SCALE,
        0 <= c.raw <= hi,
    ensures
        r.raw == normalize(c.raw as int, hi as int),
        0 <= r.raw <= SCALE,
{
    proof {
        assert(0 <= c.raw * SCALE <= hi * SCALE <= 360 * SCALE * SCALE) by (nonlinear_arith)
            requires
                0 <= c.raw <= hi <= 360 * SCALE,
        ;
        assert(c.raw * SCALE < hi * (SCALE + 1)) by (nonlinear_arith)
            requires
                0 <= c.raw <= hi,
                0 < hi,
        ;
        crate::arith::lemma_div_range(c.raw * SCALE, hi as int, SCALE + 1);
    }
    Fixed { raw: c.raw * SCALE / hi }
}

fn denormalize_exec(f: Fixed, hi: i64) -> (r: Fixed)
    requires
        0 < hi <= 360 * SCALE,
    ensures
        r.raw == denormalize(f.raw as int, hi as int),
        0 <= r.raw <= hi,
{
    let v = clamp_raw(f, SCALE);
    proof {
        assert(0 <= v.raw * hi < SCALE * (hi + 1) <= 360 * SCALE * SCALE + SCALE) by (nonlinear_arith)
            requires
                0 <= v.raw <= SCALE,
                0 < hi <= 360 * SCALE,
        ;
        crate::arith::lemma_div_range(v.raw * hi, SCALE as int, hi + 1);
    }
    Fixed { raw: v.raw * hi / SCALE }
}

/// The supported colour encodings.
#[derive(Debug, Clone, Copy, PartialEq, Eq, Hash, Structural)]
pub enum ColorSpace {
    Rgb,
    Hsl,
    Hsv,
}

/// The text of an optional unit.
pub open spec fn unit_text(u: Option<&str>) -> Option<Seq<char>> {
    match u {
        Some(t) => Some(t@),
        None => None,
    }
}

impl ColorSpace {
    /// Labels of the three axes of a space, as text.
    pub open spec fn spec_labels(self) -> (Seq<char>, Seq<char>, Seq<char>) {
        match self {
            ColorSpace::Rgb => (seq!['R'], seq!['G'], seq!['B']),
            ColorSpace::Hsl => (seq!['H'], seq!['S'], seq!['L']),
            ColorSpace::Hsv => (seq!['H'], seq!['S'], seq!['V']),
        }
    }

    /// Units of the three axes: none for RGB, degrees and percentages for the
    /// cylindrical spaces.
    pub open spec fn spec_units(self) -> (Option<Seq<char>>, Option<Seq<char>>, Option<Seq<char>>) {
        match self {
            ColorSpace::Rgb => (None, None, None),
            _ => (Some(seq!['°']), Some(seq!['%']), Some(seq!['%'])),
        }
    }

    /// Largest value of each component, in raw units.
    pub open spec fn spec_maxes(self) -> (int, int, int) {
        match self {
            ColorSpace::Rgb => (255 * SCALE, 255 * SCALE, 255 * SCALE),
            _ => (360 * SCALE, 100 * SCALE, 100 * SCALE),
        }
    }

    /// Whether every component lies in `[0, max]`.
    pub open spec fn holds(self, c: (int, int, int)) -> bool {
        let m = self.spec_maxes();
        0 <= c.0 <= m.0 && 0 <= c.1 <= m.1 && 0 <= c.2 <= m.2
    }

    /// Each component brought into `[0, max]`.
    pub open spec fn spec_clamp(self, c: (int, int, int)) -> (int, int, int) {
        let m = self.spec_maxes();
        (clamp_int(c.0, m.0), clamp_int(c.1, m.1), clamp_int(c.2, m.2))
    }

    /// Components as fractions of their maxima.
    pub open spec fn spec_to_floats(self, c: (int, int, int)) -> (int, int, int) {
        let m = self.spec_maxes();
        (normalize(c.0, m.0), normalize(c.1, m.1), normalize(c.2, m.2))
    }

    /// Fractions, clamped to `[0, 1]`, as components.
    pub open spec fn spec_from_floats(self, f: (int, int, int)) -> (int, int, int) {
        let m = self.spec_maxes();
        (denormalize(f.0, m.0), denormalize(f.1, m.1), denormalize(f.2, m.2))
    }

    /// RGB of components in this space.
    pub open spec fn spec_to_rgb(self, c: (int, int, int)) -> (int, int, int) {
        match self {
            ColorSpace::Rgb => c,
            ColorSpace::Hsl => rgb_from_hsl(c),
            ColorSpace::Hsv => rgb_from_hsv(c),
        }
    }

    /// Components in this space of an RGB triple.
    pub open spec fn spec_from_rgb(self, c: (int, int, int)) -> (int, int, int) {
        match self {
            ColorSpace::Rgb => c,
            ColorSpace::Hsl => hsl_from_rgb(c),
            ColorSpace::Hsv => hsv_from_rgb(c),
        }
    }

    pub fn color_component_maxes(&self) -> (r: Triple)
        ensures
            raws(r) == self.spec_maxes(),
    {
        match self {
            ColorSpace::Rgb => (
                Fixed { raw: 255 * SCALE },
                Fixed { raw: 255 * SCALE },
                Fixed { raw: 255 * SCALE },
            ),
            _ => (Fixed { raw: 360 * SCALE }, Fixed { raw: 100 * SCALE }, Fixed { raw: 100 * SCALE }),
        }
    }

    pub fn clamp_color_components(&self, components: Triple) -> (r: Triple)
        ensures
            raws(r) == self.spec_clamp(raws(components)),
            self.holds(raws(r)),
    {
        let m = self.color_component_maxes();
        (
            clamp_raw(components.0, m.0.raw),
            clamp_raw(components.1, m.1.raw),
            clamp_raw(components.2, m.2.raw),
        )
    }

    pub fn components_to_floats(&self, components: Triple) -> (r: Triple)
        requires
            self.holds(raws(components)),
        ensures
            raws(r) == self.spec_to_floats(raws(components)),
    {
        let m = self.color_component_maxes();
        (
            normalize_exec(components.0, m.0.raw),
            normalize_exec(components.1, m.1.raw),
            normalize_exec(components.2, m.2.raw),
        )
    }

    pub fn floats_to_components(&self, floats: Triple) -> (r: Triple)
        ensures
            raws(r) == self.spec_from_floats(raws(floats)),
            self.holds(raws(r)),
    {
        let m = self.color_component_maxes();
        (
            denormalize_exec(floats.0, m.0.raw),
            denormalize_exec(floats.1, m.1.raw),
            denormalize_exec(floats.2, m.2.raw),
        )
    }

    pub fn color_components_from_rgb(&self, rgb: Rgb) -> (r: Triple)
        requires
            rgb_in_range(rgb.channels()),
        ensures
            raws(r) == self.spec_from_rgb(rgb.channels()),
            self.holds(raws(r)),
    {
        match self {
            ColorSpace::Rgb => rgb.as_components(),
            ColorSpace::Hsl => Hsl::from_rgb(rgb).as_components(),
            ColorSpace::Hsv => Hsv::from_rgb(rgb).as_components(),
        }
    }

    pub fn rgb_from_color_components(&self, components: Triple) -> (r: Rgb)
        requires
            self.holds(raws(components)),
        ensures
            r.channels() == self.spec_to_rgb(raws(components)),
            rgb_in_range(r.channels()),
    {
        match self {
            ColorSpace::Rgb => Rgb::from_components(components).as_rgb(),
            ColorSpace::Hsl => Hsl::from_components(components).as_rgb(),
            ColorSpace::Hsv => Hsv::from_components(components).as_rgb(),
        }
    }

    /// Name of the space as shown to a user.
    pub fn to_ui_string(&self) -> (r: String)
        ensures
            r@ == match self {
                ColorSpace::Rgb => seq!['R', 'G', 'B'],
                ColorSpace::Hsl => seq!['H', 'S', 'L'],
                ColorSpace::Hsv => seq!['H', 'S', 'V'],
            },
    {
        proof {
            reveal_strlit("RGB");
            reveal_strlit("HSL");
            reveal_strlit("HSV");
        }
        let name = match self {
            ColorSpace::Rgb => "RGB",
            ColorSpace::Hsl => "HSL",
            ColorSpace::Hsv => "HSV",
        };
        name.to_owned()
    }

    pub fn info(&self) -> (r: ColorSpaceInfo)
        ensures
            (r.labels.0@, r.labels.1@, r.labels.2@) == self.spec_labels(),
            (unit_text(r.units.0), unit_text(r.units.1), unit_text(r.units.2))
                == self.spec_units(),
    {
        proof {
            reveal_strlit("R");
            reveal_strlit("G");
            reveal_strlit("B");
            reveal_strlit("H");
            reveal_strlit("S");
            reveal_strlit("L");
            reveal_strlit("V");
            reveal_strlit("°");
            reveal_strlit("%");
        }
        match self {
            ColorSpace::Rgb => ColorSpaceInfo { labels: ("R", "G", "B"), units: (None, None, None) },
            ColorSpace::Hsl => ColorSpaceInfo {
                labels: ("H", "S", "L"),
                units: (Some("°"), Some("%"), Some("%")),
            },
            ColorSpace::Hsv => ColorSpaceInfo {
                labels: ("H", "S", "V"),
                units: (Some("°"), Some("%"), Some("%")),
            },
        }
    }
}

/// A colour held in an arbitrary, swappable colour space. Its components
/// always lie within the space's ranges.
#[derive(Debug, Clone, Copy, PartialEq, Eq)]
pub struct DynamicColor {
    components: Triple,
    color_space: ColorSpace,
}

impl DynamicColor {
    #[verifier::type_invariant]
    spec fn valid(self) -> bool {
        self.color_space.holds(raws(self.components))
    }

    /// The space the components are expressed in.
    pub closed spec fn space(self) -> ColorSpace {
        self.color_space
    }

    /// The components, in raw units.
    pub closed spec fn comps(self) -> (int, int, int) {
        raws(self.components)
    }

    pub fn new(components: Triple, color_space: ColorSpace) -> (r: Self)
        ensures
            r.space() == color_space,
            r.comps() == color_space.spec_clamp(raws(components)),
    {
        DynamicColor { components: color_space.clamp_color_components(components), color_space }
    }

    pub fn from_floats(floats: Triple, color_space: ColorSpace) -> (r: Self)
        ensures
            r.space() == color_space,
            r.comps() == color_space.spec_from_floats(raws(floats)),
    {
        DynamicColor { components: color_space.floats_to_components(floats), color_space }
    }

    pub fn from_color<C: Color>(color: C) -> (r: Self)
        ensures
            r.space() == C::space(),
            r.comps() == C::space().spec_clamp(color.comps()),
    {
        Self::new(color.as_components(), C::color_space())
    }

    pub fn to_color<C: Color>(self) -> (r: C)
        ensures
            r.comps() == C::space().spec_from_rgb(self.space().spec_to_rgb(self.comps())),
    {
        let converted = self.set_color_space(C::color_space());
        proof {
            use_type_invariant(converted);
            C::space().lemma_clamp_in_range(converted.comps());
        }
        C::from_components(converted.components)
    }

    pub fn components(&self) -> (r: Triple)
        ensures
            raws(r) == self.comps(),
    {
        self.components
    }

    pub fn set_components(self, components: Triple) -> (r: Self)
        ensures
            r.space() == self.space(),
            r.comps() == self.space().spec_clamp(raws(components)),
    {
        DynamicColor {
            components: self.color_space.clamp_color_components(components),
            color_space: self.color_space,
        }
    }

    pub fn set_component_0(self, component: Fixed) -> (r: Self)
        ensures
            r.space() == self.space(),
            r.comps() == (
                clamp_int(component.raw as int, self.space().spec_maxes().0),
                self.comps().1,
                self.comps().2,
            ),
    {
        proof {
            use_type_invariant(&self);
        }
        let m = self.color_space.color_component_maxes();
        let c = clamp_raw(component, m.0.raw);
        DynamicColor {
            components: (c, self.components.1, self.components.2),
            color_space: self.color_space,
        }
    }

    pub fn set_component_1(self, component: Fixed) -> (r: Self)
        ensures
            r.space() == self.space(),
            r.comps() == (
                self.comps().0,
                clamp_int(component.raw as int, self.space().spec_maxes().1),
                self.comps().2,
            ),
    {
        proof {
            use_type_invariant(&self);
        }
        let m = self.color_space.color_component_maxes();
        let c = clamp_raw(component, m.1.raw);
        DynamicColor {
            components: (self.components.0, c, self.components.2),
            color_space: self.color_space,
        }
    }

    pub fn set_component_2(self, component: Fixed) -> (r: Self)
        ensures
            r.space() == self.space(),
            r.comps() == (
                self.comps().0,
                self.comps().1,
                clamp_int(component.raw as int, self.space().spec_maxes().2),
            ),
    {
        proof {
            use_type_invariant(&self);
        }
        let m = self.color_space.color_component_maxes();
        let c = clamp_raw(component, m.2.raw);
        DynamicColor {
            components: (self.components.0, self.components.1, c),
            color_space: self.color_space,
        }
    }

    /// Sets the first component from a fraction of its maximum; the other two
    /// components are kept exactly.
    pub fn set_float_0(self, float: Fixed) -> (r: Self)
        ensures
            r.space() == self.space(),
            r.comps() == (
                denormalize(float.raw as int, self.space().spec_maxes().0),
                self.comps().1,
                self.comps().2,
            ),
    {
        proof {
            use_type_invariant(&self);
        }
        let m = self.color_space.color_component_maxes();
        let c = denormalize_exec(float, m.0.raw);
        DynamicColor {
            components: (c, self.components.1, self.components.2),
            color_space: self.color_space,
        }
    }

    /// Sets the second component from a fraction of its maximum; the other two
    /// components are kept exactly.
    pub fn set_float_1(self, float: Fixed) -> (r: Self)
        ensures
            r.space() == self.space(),
            r.comps() == (
                self.comps().0,
                denormalize(float.raw as int, self.space().spec_maxes().1),
                self.comps().2,
            ),
    {
        proof {
            use_type_invariant(&self);
        }
        let m = self.color_space.color_component_maxes();
        let c = denormalize_exec(float, m.1.raw);
        DynamicColor {
            components: (self.components.0, c, self.components.2),
            color_space: self.color_space,
        }
    }

    /// Sets the third component from a fraction of its maximum; the other two
    /// components are kept exactly.
    pub fn set_float_2(self, float: Fixed) -> (r: Self)
        ensures
            r.space() == self.space(),
            r.comps() == (
                self.comps().0,
                self.comps().1,
                denormalize(float.raw as int, self.space().spec_maxes().2),
            ),
    {
        proof {
            use_type_invariant(&self);
        }
        let m = self.color_space.color_component_maxes();
        let c = denormalize_exec(float, m.2.raw);
        DynamicColor {
            components: (self.components.0, self.components.1, c),
            color_space: self.color_space,
        }
    }

    pub fn color_space(&self) -> (r: ColorSpace)
        ensures
            r == self.space(),
    {
        self.color_space
    }

    /// Re-expresses the colour in another space, through RGB.
    pub fn set_color_space(self, color_space: ColorSpace) -> (r: Self)
        ensures
            r.space() == color_space,
            r.comps() == color_space.spec_from_rgb(self.space().spec_to_rgb(self.comps())),
    {
        proof {
            use_type_invariant(self);
        }
        let rgb = self.color_space.rgb_from_color_components(self.components);
        DynamicColor { components: color_space.color_components_from_rgb(rgb), color_space }
    }

    pub fn as_floats(&self) -> (r: Triple)
        ensures
            raws(r) == self.space().spec_to_floats(self.comps()),
    {
        proof {
            use_type_invariant(self);
        }
        self.color_space.components_to_floats(self.components)
    }

    pub fn set_floats(self, floats: Triple) -> (r: Self)
        ensures
            r.space() == self.space(),
            r.comps() == self.space().spec_from_floats(raws(floats)),
    {
        DynamicColor {
            components: self.color_space.floats_to_components(floats),
            color_space: self.color_space,
        }
    }
}

/// A colour in one fixed space. Every conversion between two spaces goes
/// through RGB.
pub trait Color: Sized {
    /// The space of this representation.
    spec fn space() -> ColorSpace;

    /// The three components, in raw units.
    spec fn comps(&self) -> (int, int, int);

    fn color_space() -> (r: ColorSpace)
        ensures
            r == Self::space(),
    ;

    fn as_components(&self) -> (r: Triple)
        ensures
            raws(r) == self.comps(),
    ;

    fn from_components(components: Triple) -> (r: Self)
        ensures
            r.comps() == Self::space().spec_clamp(raws(components)),
    ;

    fn as_floats(&self) -> (r: Triple)
        requires
            Self::space().holds(self.comps()),
        ensures
            raws(r) == Self::space().spec_to_floats(self.comps()),
    ;

    fn from_floats(floats: Triple) -> (r: Self)
        ensures
            r.comps() == Self::space().spec_from_floats(raws(floats)),
    ;

    fn as_rgb(&self) -> (r: Rgb)
        requires
            Self::space().holds(self.comps()),
        ensures
            r.channels() == Self::space().spec_to_rgb(self.comps()),
            rgb_in_range(r.channels()),
    ;

    fn from_rgb(rgb: Rgb) -> (r: Self)
        requires
            rgb_in_range(rgb.channels()),
        ensures
            r.comps() == Self::space().spec_from_rgb(rgb.channels()),
            Self::space().holds(r.comps()),
    ;

    fn clamp_components(components: Triple) -> (r: Triple)
        ensures
            raws(r) == Self::space().spec_clamp(raws(components)),
    {
        Self::color_space().clamp_color_components(components)
    }

    fn components_to_floats(components: Triple) -> (r: Triple)
        requires
            Self::space().holds(raws(components)),
        ensures
            raws(r) == Self::space().spec_to_floats(raws(components)),
    {
        Self::color_space().components_to_floats(components)
    }

    fn floats_to_components(floats: Triple) -> (r: Triple)
        ensures
            raws(r) == Self::space().spec_from_floats(raws(floats)),
    {
        Self::color_space().floats_to_components(floats)
    }
}

/// The same colour in another representation, through RGB. (A free function:
/// a method of `Color` bounded by `Color` itself would be a cyclic definition.)
pub fn as_color<S: Color, C: Color>(color: &S) -> (r: C)
    requires
        S::space().holds(color.comps()),
    ensures
        r.comps() == C::space().spec_from_rgb(S::space().spec_to_rgb(color.comps())),
{
    let rgb = color.as_rgb();
    C::from_rgb(rgb)
}

impl ColorSpace {
    /// Clamping leaves in-range components as they are.
    pub proof fn lemma_clamp_in_range(self, c: (int, int, int))
        requires
            self.holds(c),
        ensures
            self.spec_clamp(c) == c,
    {
    }
}

/// A colour as red, green and blue channels in `[0, 255]`.
#[derive(Debug, Clone, Copy, PartialEq, Eq, Structural)]
pub struct Rgb {
    pub r: Fixed,
    pub g: Fixed,
    pub b: Fixed,
}

/// The 8-bit value of a channel: its whole part, saturated to `[0, 255]`.
pub open spec fn channel_byte(raw: int) -> int {
    clamp_int(raw / SCALE as int, 255)
}

/// Six lowercase hexadecimal digits of three channels, without a leading `#`.
pub open spec fn hex_code_of(c: (int, int, int)) -> Seq<char> {
    byte_hex(channel_byte(c.0)) + byte_hex(channel_byte(c.1)) + byte_hex(channel_byte(c.2))
}

/// The channels written by six hexadecimal digits, or nothing for any other
/// text.
pub open spec fn rgb_of_hex(s: Seq<char>) -> Option<(int, int, int)> {
    if s.len() != 6 {
        None
    } else {
        match (hex_pair(s[0], s[1]), hex_pair(s[2], s[3]), hex_pair(s[4], s[5])) {
            (Some(r), Some(g), Some(b)) => Some((r * SCALE, g * SCALE, b * SCALE)),
            _ => None,
        }
    }
}

fn channel_byte_exec(c: Fixed) -> (r: u8)
    ensures
        r == channel_byte(c.raw as int),
{
    if c.raw < 0 {
        0
    } else if c.raw / SCALE > 255 {
        255
    } else {
        (c.raw / SCALE) as u8
    }
}

impl Rgb {
    /// The three channels, in raw units.
    pub open spec fn channels(self) -> (int, int, int) {
        (self.r.raw as int, self.g.raw as int, self.b.raw as int)
    }

    /// The colour as six lowercase hexadecimal digits, without a leading
    /// `#`. Channels are truncated to whole numbers, not rounded.
    pub fn as_hex_code(self) -> (r: String)
        ensures
            r@ == hex_code_of(self.channels()),
    {
        let mut out = String::new();
        push_byte_hex(&mut out, channel_byte_exec(self.r));
        push_byte_hex(&mut out, channel_byte_exec(self.g));
        push_byte_hex(&mut out, channel_byte_exec(self.b));
        out
    }

    /// Reads six hexadecimal digits of either case (a leading `#` is the
    /// caller's to strip). Any other text gives `None`.
    pub fn from_hex_code(s: &str) -> (r: Option<Rgb>)
        ensures
            r matches Some(c) ==> rgb_of_hex(s@) == Some(c.channels()),
            r is None ==> rgb_of_hex(s@) is None,
    {
        if s.unicode_len() != 6 {
            return None;
        }
        let r = hex_pair_exec(s.get_char(0), s.get_char(1));
        let g = hex_pair_exec(s.get_char(2), s.get_char(3));
        let b = hex_pair_exec(s.get_char(4), s.get_char(5));
        match (r, g, b) {
            (Some(r), Some(g), Some(b)) => Some(
                Rgb {
                    r: Fixed { raw: r as i64 * SCALE },
                    g: Fixed { raw: g as i64 * SCALE },
                    b: Fixed { raw: b as i64 * SCALE },
                },
            ),
            _ => None,
        }
    }
}

impl Color for Rgb {
    open spec fn space() -> ColorSpace {
        ColorSpace::Rgb
    }

    open spec fn comps(&self) -> (int, int, int) {
        self.channels()
    }

    fn color_space() -> (r: ColorSpace) {
        ColorSpace::Rgb
    }

    fn as_components(&self) -> (r: Triple) {
        (self.r, self.g, self.b)
    }

    fn from_components(components: Triple) -> (r: Self) {
        let c = ColorSpace::Rgb.clamp_color_components(components);
        Rgb { r: c.0, g: c.1, b: c.2 }
    }

    fn as_floats(&self) -> (r: Triple) {
        ColorSpace::Rgb.components_to_floats(self.as_components())
    }

    fn from_floats(floats: Triple) -> (r: Self) {
        let c = ColorSpace::Rgb.floats_to_components(floats);
        Rgb { r: c.0, g: c.1, b: c.2 }
    }

    fn as_rgb(&self) -> (r: Rgb) {
        *self
    }

    fn from_rgb(rgb: Rgb) -> (r: Self) {
        rgb
    }
}

/// A colour as hue in degrees, saturation and lightness in percent.
#[derive(Debug, Clone, Copy, PartialEq, Eq, Structural)]
pub struct Hsl {
    pub h: Fixed,
    pub s: Fixed,
    pub l: Fixed,
}

impl Color for Hsl {
    open spec fn space() -> ColorSpace {
        ColorSpace::Hsl
    }

    open spec fn comps(&self) -> (int, int, int) {
        (self.h.raw as int, self.s.raw as int, self.l.raw as int)
    }

    fn color_space() -> (r: ColorSpace) {
        ColorSpace::Hsl
    }

    fn as_components(&self) -> (r: Triple) {
        (self.h, self.s, self.l)
    }

    fn from_components(components: Triple) -> (r: Self) {
        let c = ColorSpace::Hsl.clamp_color_components(components);
        Hsl { h: c.0, s: c.1, l: c.2 }
    }

    fn as_floats(&self) -> (r: Triple) {
        ColorSpace::Hsl.components_to_floats(self.as_components())
    }

    fn from_floats(floats: Triple) -> (r: Self) {
        let c = ColorSpace::Hsl.floats_to_components(floats);
        Hsl { h: c.0, s: c.1, l: c.2 }
    }

    /// Two-sided formula: an upper pivot from lightness and saturation, a
    /// lower one mirrored about the lightness, and each channel read off the
    /// hue shifted by a third of a turn.
    fn as_rgb(&self) -> (r: Rgb) {
        let c = rgb_from_hsl_exec(self.h.raw, self.s.raw, self.l.raw);
        Rgb { r: Fixed { raw: c.0 }, g: Fixed { raw: c.1 }, b: Fixed { raw: c.2 } }
    }

    fn from_rgb(rgb: Rgb) -> (r: Self) {
        let c = hsl_from_rgb_exec(rgb.r.raw, rgb.g.raw, rgb.b.raw);
        Hsl { h: Fixed { raw: c.0 }, s: Fixed { raw: c.1 }, l: Fixed { raw: c.2 } }
    }
}

/// A colour as hue in degrees, saturation and value in percent.
#[derive(Debug, Clone, Copy, PartialEq, Eq, Structural)]
pub struct Hsv {
    pub h: Fixed,
    pub s: Fixed,
    pub v: Fixed,
}

impl Color for Hsv {
    open spec fn space() -> ColorSpace {
        ColorSpace::Hsv
    }

    open spec fn comps(&self) -> (int, int, int) {
        (self.h.raw as int, self.s.raw as int, self.v.raw as int)
    }

    fn color_space() -> (r: ColorSpace) {
        ColorSpace::Hsv
    }

    fn as_components(&self) -> (r: Triple) {
        (self.h, self.s, self.v)
    }

    fn from_components(components: Triple) -> (r: Self) {
        let c = ColorSpace::Hsv.clamp_color_components(components);
        Hsv { h: c.0, s: c.1, v: c.2 }
    }

    fn as_floats(&self) -> (r: Triple) {
        ColorSpace::Hsv.components_to_floats(self.as_components())
    }

    fn from_floats(floats: Triple) -> (r: Self) {
        let c = ColorSpace::Hsv.floats_to_components(floats);
        Hsv { h: c.0, s: c.1, v: c.2 }
    }

    /// Chroma and intermediate value, placed by the sixty-degree sector of
    /// the hue.
    fn as_rgb(&self) -> (r: Rgb) {
        let c = rgb_from_hsv_exec(self.h.raw, self.s.raw, self.v.raw);
        Rgb { r: Fixed { raw: c.0 }, g: Fixed { raw: c.1 }, b: Fixed { raw: c.2 } }
    }

    fn from_rgb(rgb: Rgb) -> (r: Self) {
        let c = hsv_from_rgb_exec(rgb.r.raw, rgb.g.raw, rgb.b.raw);
        Hsv { h: Fixed { raw: c.0 }, s: Fixed { raw: c.1 }, v: Fixed { raw: c.2 } }
    }
}

/// The text with every leading `#` removed.
pub open spec fn strip_hashes(s: Seq<char>) -> Seq<char>
    decreases s.len(),
{
    if s.len() > 0 && s[0] == '#' {
        strip_hashes(s.drop_first())
    } else {
        s
    }
}

/// The number a field's text shows, or zero where it shows none.
fn typed_value(text: &str) -> (r: Fixed)
    ensures
        r.raw == shown_value(text@),
{
    match text.parse_input() {
        Some(v) => v,
        None => Fixed { raw: 0 },
    }
}

impl DynamicColor {
    /// The colour after its three component fields were edited: each text is
    /// read as a number (zero where it is none) and clamped to its range.
    pub fn with_typed_components(self, texts: (&str, &str, &str)) -> (r: Self)
        ensures
            r.space() == self.space(),
            r.comps() == self.space().spec_clamp(
                (shown_value(texts.0@), shown_value(texts.1@), shown_value(texts.2@)),
            ),
    {
        self.set_components((typed_value(texts.0), typed_value(texts.1), typed_value(texts.2)))
    }

    /// The colour after its three fraction fields were edited: each text is
    /// read as a number (zero where it is none), clamped to `[0, 1]` and
    /// scaled to its component's range.
    pub fn with_typed_floats(self, texts: (&str, &str, &str)) -> (r: Self)
        ensures
            r.space() == self.space(),
            r.comps() == self.space().spec_from_floats(
                (shown_value(texts.0@), shown_value(texts.1@), shown_value(texts.2@)),
            ),
    {
        self.set_floats((typed_value(texts.0), typed_value(texts.1), typed_value(texts.2)))
    }

    /// The colour after a drag on the hue slider or the saturation-value
    /// surface: HSV fractions, clamped to `[0, 1]`, re-expressed in the
    /// current space.
    pub fn with_hsv_floats(self, floats: Triple) -> (r: Self)
        ensures
            r.space() == self.space(),
            r.comps() == self.space().spec_from_rgb(
                ColorSpace::Hsv.spec_to_rgb(ColorSpace::Hsv.spec_from_floats(raws(floats))),
            ),
    {
        DynamicColor::from_floats(floats, ColorSpace::Hsv).set_color_space(self.color_space)
    }

    /// The colour after its hex field was edited. Leading `#` signs are
    /// dropped; six hexadecimal digits give that colour, expressed in the
    /// current space, and any other text leaves the colour unchanged.
    pub fn with_hex_code(self, text: &str) -> (r: Self)
        ensures
            r.space() == self.space(),
            rgb_of_hex(strip_hashes(text@)) matches Some(c) ==> r.comps()
                == self.space().spec_from_rgb(c),
            rgb_of_hex(strip_hashes(text@)) is None ==> r.comps() == self.comps(),
    {
        let n = text.unicode_len();
        let mut a: usize = 0;
        assert(text@.subrange(0, n as int) =~= text@);
        while a < n && text.get_char(a) == '#'
            invariant
                a <= n == text@.len(),
                strip_hashes(text@) == strip_hashes(text@.subrange(a as int, n as int)),
            decreases n - a,
        {
            proof {
                assert(text@.subrange(a as int, n as int).drop_first() =~= text@.subrange(
                    a + 1,
                    n as int,
                ));
            }
            a = a + 1;
        }
        let digits = text.substring_char(a, n);
        match Rgb::from_hex_code(digits) {
            Some(rgb) => {
                DynamicColor {
                    components: self.color_space.color_components_from_rgb(rgb),
                    color_space: self.color_space,
                }
            },
            None => self,
        }
    }
}

/// Whether a channel holds a whole 8-bit value.
pub open spec fn is_byte_channel(raw: int) -> bool {
    raw % SCALE as int == 0 && 0 <= raw <= 255 * SCALE
}

/// Reading back the hex code of a colour whose channels are whole 8-bit
/// values gives that colour again.
pub proof fn lemma_hex_code_round_trip(c: Rgb)
    requires
        is_byte_channel(c.r.raw as int),
        is_byte_channel(c.g.raw as int),
        is_byte_channel(c.b.raw as int),
    ensures
        rgb_of_hex(hex_code_of(c.channels())) == Some(c.channels()),
{
    let (r, g, b) = c.channels();
    crate::arith::lemma_div_bounds(r, SCALE as int);
    crate::arith::lemma_div_bounds(g, SCALE as int);
    crate::arith::lemma_div_bounds(b, SCALE as int);
    lemma_byte_hex_round_trip(channel_byte(r));
    lemma_byte_hex_round_trip(channel_byte(g));
    lemma_byte_hex_round_trip(channel_byte(b));
    let s = hex_code_of(c.channels());
    assert(s[0] == byte_hex(channel_byte(r))[0]);
    assert(s[1] == byte_hex(channel_byte(r))[1]);
    assert(s[2] == byte_hex(channel_byte(g))[0]);
    assert(s[3] == byte_hex(channel_byte(g))[1]);
    assert(s[4] == byte_hex(channel_byte(b))[0]);
    assert(s[5] == byte_hex(channel_byte(b))[1]);
}

} // verus!
