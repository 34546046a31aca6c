//! The glyphs that the scan knows, and what each of them stands for.
//!
//! A junction glyph (a corner, a tee, a cross or a stub) is told by its four
//! arms: the weight of the line, if any, that it sends north, south, west and
//! east. A stroke glyph draws one straight line through its cell.
use unicode_normalization::char::is_combining_mark;
use vstd::prelude::*;

verus! {

/// Whether a character is a combining mark: one of general category Mark,
/// which takes up no column of its own.
pub uninterp spec fn combining_mark(c: char) -> bool;

/// `unicode_normalization::char::is_combining_mark`: whether `c` is a
/// combining mark. The answer depends on `c` alone. No character below
/// U+0300 is a combining mark, and none of the box-drawing characters U+2500
/// to U+257F: so no glyph is one, and no line break.
#[verifier::external_body]
pub(crate) fn is_mark(c: char) -> (b: bool)
    ensures
        b == combining_mark(c),
        b ==> c >= '\u{300}' && !('\u{2500}' <= c && c <= '\u{257f}'),
{
    is_combining_mark(c)
}

/// The weight of a line.
#[derive(Debug, Copy, Clone, PartialEq, Eq, Hash, Structural)]
pub enum Weight {
    Light,
    Heavy,
    Double,
}

/// The weight of the arm that a junction glyph sends upwards, if it has one.
pub open spec fn north_arm(c: char) -> Option<Weight> {
    match c {
        '└' | '┕' | '┘' | '┙' | '├' | '┝' | '┟' | '┢' | '┤' | '┥' | '┧' | '┪' | '┴' | '┵' |
        '┶' | '┷' | '┼' | '┽' | '┾' | '┿' | '╁' | '╅' | '╆' | '╈' | '╘' | '╛' | '╞' | '╡' |
        '╧' | '╪' | '╯' | '╰' | '╵' | '╽' => Some(Weight::Light),
        '┖' | '┗' | '┚' | '┛' | '┞' | '┠' | '┡' | '┣' | '┦' | '┨' | '┩' | '┫' | '┸' | '┹' |
        '┺' | '┻' | '╀' | '╂' | '╃' | '╄' | '╇' | '╉' | '╊' | '╋' | '╹' | '╿' => Some(Weight::Heavy),
        '╙' | '╚' | '╜' | '╝' | '╟' | '╠' | '╢' | '╣' | '╨' | '╩' | '╫' | '╬' => Some(Weight::Double),
        _ => None,
    }
}

/// The weight of the arm that a junction glyph sends upwards, if it has one.
pub fn north(c: char) -> (w: Option<Weight>)
    ensures
        w == north_arm(c),
{
    match c {
        '└' | '┕' | '┘' | '┙' | '├' | '┝' | '┟' | '┢' | '┤' | '┥' | '┧' | '┪' | '┴' | '┵' |
        '┶' | '┷' | '┼' | '┽' | '┾' | '┿' | '╁' | '╅' | '╆' | '╈' | '╘' | '╛' | '╞' | '╡' |
        '╧' | '╪' | '╯' | '╰' | '╵' | '╽' => Some(Weight::Light),
        '┖' | '┗' | '┚' | '┛' | '┞' | '┠' | '┡' | '┣' | '┦' | '┨' | '┩' | '┫' | '┸' | '┹' |
        '┺' | '┻' | '╀' | '╂' | '╃' | '╄' | '╇' | '╉' | '╊' | '╋' | '╹' | '╿' => Some(Weight::Heavy),
        '╙' | '╚' | '╜' | '╝' | '╟' | '╠' | '╢' | '╣' | '╨' | '╩' | '╫' | '╬' => Some(Weight::Double),
        _ => None,
    }
}

/// The weight of the arm that a junction glyph sends downwards, if it has one.
pub open spec fn south_arm(c: char) -> Option<Weight> {
    match c {
        '┌' | '┍' | '┐' | '┑' | '├' | '┝' | '┞' | '┡' | '┤' | '┥' | '┦' | '┩' | '┬' | '┭' |
        '┮' | '┯' | '┼' | '┽' | '┾' | '┿' | '╀' | '╃' | '╄' | '╇' | '╒' | '╕' | '╞' | '╡' |
        '╤' | '╪' | '╭' | '╮' | '╷' | '╿' => Some(Weight::Light),
        '┎' | '┏' | '┒' | '┓' | '┟' | '┠' | '┢' | '┣' | '┧' | '┨' | '┪' | '┫' | '┰' | '┱' |
        '┲' | '┳' | '╁' | '╂' | '╅' | '╆' | '╈' | '╉' | '╊' | '╋' | '╻' | '╽' => Some(Weight::Heavy),
        '╓' | '╔' | '╖' | '╗' | '╟' | '╠' | '╢' | '╣' | '╥' | '╦' | '╫' | '╬' => Some(Weight::Double),
        _ => None,
    }
}

/// The weight of the arm that a junction glyph sends downwards, if it has one.
pub fn south(c: char) -> (w: Option<Weight>)
    ensures
        w == south_arm(c),
{
    match c {
        '┌' | '┍' | '┐' | '┑' | '├' | '┝' | '┞' | '┡' | '┤' | '┥' | '┦' | '┩' | '┬' | '┭' |
        '┮' | '┯' | '┼' | '┽' | '┾' | '┿' | '╀' | '╃' | '╄' | '╇' | '╒' | '╕' | '╞' | '╡' |
        '╤' | '╪' | '╭' | '╮' | '╷' | '╿' => Some(Weight::Light),
        '┎' | '┏' | '┒' | '┓' | '┟' | '┠' | '┢' | '┣' | '┧' | '┨' | '┪' | '┫' | '┰' | '┱' |
        '┲' | '┳' | '╁' | '╂' | '╅' | '╆' | '╈' | '╉' | '╊' | '╋' | '╻' | '╽' => Some(Weight::Heavy),
        '╓' | '╔' | '╖' | '╗' | '╟' | '╠' | '╢' | '╣' | '╥' | '╦' | '╫' | '╬' => Some(Weight::Double),
        _ => None,
    }
}

/// The weight of the arm that a junction glyph sends to the left, if it has one.
pub open spec fn west_arm(c: char) -> Option<Weight> {
    match c {
        '┐' | '┒' | '┘' | '┚' | '┤' | '┦' | '┧' | '┨' | '┬' | '┮' | '┰' | '┲' | '┴' | '┶' |
        '┸' | '┺' | '┼' | '┾' | '╀' | '╁' | '╂' | '╄' | '╆' | '╊' | '╖' | '╜' | '╢' | '╥' |
        '╨' | '╫' | '╮' | '╯' | '╴' | '╼' => Some(Weight::Light),
        '┑' | '┓' | '┙' | '┛' | '┥' | '┩' | '┪' | '┫' | '┭' | '┯' | '┱' | '┳' | '┵' | '┷' |
        '┹' | '┻' | '┽' | '┿' | '╃' | '╅' | '╇' | '╈' | '╉' | '╋' | '╸' | '╾' => Some(Weight::Heavy),
        '╕' | '╗' | '╛' | '╝' | '╡' | '╣' | '╤' | '╦' | '╧' | '╩' | '╪' | '╬' => Some(Weight::Double),
        _ => None,
    }
}

/// The weight of the arm that a junction glyph sends to the left, if it has one.
pub fn west(c: char) -> (w: Option<Weight>)
    ensures
        w == west_arm(c),
{
    match c {
        '┐' | '┒' | '┘' | '┚' | '┤' | '┦' | '┧' | '┨' | '┬' | '┮' | '┰' | '┲' | '┴' | '┶' |
        '┸' | '┺' | '┼' | '┾' | '╀' | '╁' | '╂' | '╄' | '╆' | '╊' | '╖' | '╜' | '╢' | '╥' |
        '╨' | '╫' | '╮' | '╯' | '╴' | '╼' => Some(Weight::Light),
        '┑' | '┓' | '┙' | '┛' | '┥' | '┩' | '┪' | '┫' | '┭' | '┯' | '┱' | '┳' | '┵' | '┷' |
        '┹' | '┻' | '┽' | '┿' | '╃' | '╅' | '╇' | '╈' | '╉' | '╋' | '╸' | '╾' => Some(Weight::Heavy),
        '╕' | '╗' | '╛' | '╝' | '╡' | '╣' | '╤' | '╦' | '╧' | '╩' | '╪' | '╬' => Some(Weight::Double),
        _ => None,
    }
}

/// The weight of the arm that a junction glyph sends to the right, if it has one.
pub open spec fn east_arm(c: char) -> Option<Weight> {
    match c {
        '┌' | '┎' | '└' | '┖' | '├' | '┞' | '┟' | '┠' | '┬' | '┭' | '┰' | '┱' | '┴' | '┵' |
        '┸' | '┹' | '┼' | '┽' | '╀' | '╁' | '╂' | '╃' | '╅' | '╉' | '╓' | '╙' | '╟' | '╥' |
        '╨' | '╫' | '╭' | '╰' | '╶' | '╾' => Some(Weight::Light),
        '┍' | '┏' | '┕' | '┗' | '┝' | '┡' | '┢' | '┣' | '┮' | '┯' | '┲' | '┳' | '┶' | '┷' |
        '┺' | '┻' | '┾' | '┿' | '╄' | '╆' | '╇' | '╈' | '╊' | '╋' | '╺' | '╼' => Some(Weight::Heavy),
        '╒' | '╔' | '╘' | '╚' | '╞' | '╠' | '╤' | '╦' | '╧' | '╩' | '╪' | '╬' => Some(Weight::Double),
        _ => None,
    }
}

/// The weight of the arm that a junction glyph sends to the right, if it has one.
pub fn east(c: char) -> (w: Option<Weight>)
    ensures
        w == east_arm(c),
{
    match c {
        '┌' | '┎' | '└' | '┖' | '├' | '┞' | '┟' | '┠' | '┬' | '┭' | '┰' | '┱' | '┴' | '┵' |
        '┸' | '┹' | '┼' | '┽' | '╀' | '╁' | '╂' | '╃' | '╅' | '╉' | '╓' | '╙' | '╟' | '╥' |
        '╨' | '╫' | '╭' | '╰' | '╶' | '╾' => Some(Weight::Light),
        '┍' | '┏' | '┕' | '┗' | '┝' | '┡' | '┢' | '┣' | '┮' | '┯' | '┲' | '┳' | '┶' | '┷' |
        '┺' | '┻' | '┾' | '┿' | '╄' | '╆' | '╇' | '╈' | '╊' | '╋' | '╺' | '╼' => Some(Weight::Heavy),
        '╒' | '╔' | '╘' | '╚' | '╞' | '╠' | '╤' | '╦' | '╧' | '╩' | '╪' | '╬' => Some(Weight::Double),
        _ => None,
    }
}

/// The glyph that draws a plain vertical line of a weight.
pub open spec fn upright(w: Weight) -> char {
    match w {
        Weight::Light => '│',
        Weight::Heavy => '┃',
        Weight::Double => '║',
    }
}

/// The glyph that draws a plain vertical line of a weight.
pub fn vertical_glyph(w: Weight) -> (c: char)
    ensures
        c == upright(w),
{
    match w {
        Weight::Light => '│',
        Weight::Heavy => '┃',
        Weight::Double => '║',
    }
}

/// The glyph that draws a plain horizontal line of a weight.
pub open spec fn level(w: Weight) -> char {
    match w {
        Weight::Light => '─',
        Weight::Heavy => '━',
        Weight::Double => '═',
    }
}

/// The glyph that draws a plain horizontal line of a weight.
pub fn horizontal_glyph(w: Weight) -> (c: char)
    ensures
        c == level(w),
{
    match w {
        Weight::Light => '─',
        Weight::Heavy => '━',
        Weight::Double => '═',
    }
}

/// Whether a glyph draws a vertical line through its cell.
pub open spec fn is_upright(c: char) -> bool {
    match c {
        '│' | '║' | '┃' | '┊' | '┋' | '┆' | '┇' | '╎' | '╏' | '|' => true,
        _ => false,
    }
}

/// Whether a glyph draws a vertical line through its cell.
pub fn is_vertical(c: char) -> (b: bool)
    ensures
        b == is_upright(c),
{
    match c {
        '│' | '║' | '┃' | '┊' | '┋' | '┆' | '┇' | '╎' | '╏' | '|' => true,
        _ => false,
    }
}

/// Whether a glyph draws a horizontal line through its cell.
pub open spec fn is_level(c: char) -> bool {
    match c {
        '─' | '═' | '━' | '┈' | '┉' | '┄' | '┅' | '╌' | '╍' | '-' | '=' => true,
        _ => false,
    }
}

/// Whether a glyph draws a horizontal line through its cell.
pub fn is_horizontal(c: char) -> (b: bool)
    ensures
        b == is_level(c),
{
    match c {
        '─' | '═' | '━' | '┈' | '┉' | '┄' | '┅' | '╌' | '╍' | '-' | '=' => true,
        _ => false,
    }
}

/// Whether a glyph draws the diagonal that falls from west to east.
pub open spec fn is_falling(c: char) -> bool {
    c == '\\' || c == '╲'
}

/// Whether a glyph draws the diagonal that falls from west to east.
pub fn falls(c: char) -> (b: bool)
    ensures
        b == is_falling(c),
{
    c == '\\' || c == '╲'
}

/// Whether a glyph draws the diagonal that rises from west to east.
pub open spec fn is_rising(c: char) -> bool {
    c == '/' || c == '╱'
}

/// Whether a glyph draws the diagonal that rises from west to east.
pub fn rises(c: char) -> (b: bool)
    ensures
        b == is_rising(c),
{
    c == '/' || c == '╱'
}

/// The falling diagonal that a crossing glyph is made of.
pub open spec fn falling_half(c: char) -> Option<char> {
    if c == '╳' {
        Some('╲')
    } else if c == 'X' {
        Some('\\')
    } else {
        None
    }
}

/// The falling diagonal that a crossing glyph is made of.
pub fn falling_part(c: char) -> (h: Option<char>)
    ensures
        h == falling_half(c),
{
    if c == '╳' {
        Some('╲')
    } else if c == 'X' {
        Some('\\')
    } else {
        None
    }
}

/// The rising diagonal that a crossing glyph is made of.
pub open spec fn rising_half(c: char) -> Option<char> {
    if c == '╳' {
        Some('╱')
    } else if c == 'X' {
        Some('/')
    } else {
        None
    }
}

/// The rising diagonal that a crossing glyph is made of.
pub fn rising_part(c: char) -> (h: Option<char>)
    ensures
        h == rising_half(c),
{
    if c == '╳' {
        Some('╱')
    } else if c == 'X' {
        Some('/')
    } else {
        None
    }
}

/// The weight of a vertical stroke glyph, dashed or not. The ASCII bar has
/// none: no junction takes it up.
pub open spec fn upright_weight(c: char) -> Option<Weight> {
    match c {
        '│' | '┊' | '┆' | '╎' => Some(Weight::Light),
        '┃' | '┋' | '┇' | '╏' => Some(Weight::Heavy),
        '║' => Some(Weight::Double),
        _ => None,
    }
}

/// The weight of a vertical stroke glyph, dashed or not.
pub fn vertical_weight(c: char) -> (w: Option<Weight>)
    ensures
        w == upright_weight(c),
{
    match c {
        '│' | '┊' | '┆' | '╎' => Some(Weight::Light),
        '┃' | '┋' | '┇' | '╏' => Some(Weight::Heavy),
        '║' => Some(Weight::Double),
        _ => None,
    }
}

/// The weight of a horizontal stroke glyph, dashed or not. The ASCII dash and
/// the equals sign have none.
pub open spec fn level_weight(c: char) -> Option<Weight> {
    match c {
        '─' | '┈' | '┄' | '╌' => Some(Weight::Light),
        '━' | '┉' | '┅' | '╍' => Some(Weight::Heavy),
        '═' => Some(Weight::Double),
        _ => None,
    }
}

/// The weight of a horizontal stroke glyph, dashed or not.
pub fn horizontal_weight(c: char) -> (w: Option<Weight>)
    ensures
        w == level_weight(c),
{
    match c {
        '─' | '┈' | '┄' | '╌' => Some(Weight::Light),
        '━' | '┉' | '┅' | '╍' => Some(Weight::Heavy),
        '═' => Some(Weight::Double),
        _ => None,
    }
}

/// The weight in which the upper half of a junction is drawn when no run
/// arrives from the row above. It is that of the north arm, but for `┣`, whose
/// upper half is drawn light.
pub open spec fn crown(c: char) -> Option<Weight> {
    if c == '┣' {
        Some(Weight::Light)
    } else {
        north_arm(c)
    }
}

/// The weight in which the upper half of a junction is drawn when no run
/// arrives from the row above.
pub fn crown_weight(c: char) -> (w: Option<Weight>)
    ensures
        w == crown(c),
{
    if c == '┣' {
        Some(Weight::Light)
    } else {
        north(c)
    }
}

/// The weight in which the west half of a junction is drawn when no run is
/// being built to its left. It is that of the west arm, but for `╊`, whose
/// west half is drawn heavy.
pub open spec fn lone_west(c: char) -> Option<Weight> {
    if c == '╊' {
        Some(Weight::Heavy)
    } else {
        west_arm(c)
    }
}

/// The weight in which the west half of a junction is drawn when no run is
/// being built to its left.
pub fn lone_west_weight(c: char) -> (w: Option<Weight>)
    ensures
        w == lone_west(c),
{
    if c == '╊' {
        Some(Weight::Heavy)
    } else {
        west(c)
    }
}

/// Whether a horizontal run of weight `w` ends in the centre of the junction
/// `c`. The junction must send a west arm of that weight; the stubs `╴`, `╸`,
/// `╼`, `╾` and the tee `╥` take no run up.
pub open spec fn takes_up(c: char, w: Weight) -> bool {
    west_arm(c) == Some(w) && c != '╥' && c != '╴' && c != '╸' && c != '╼' && c != '╾'
}

/// Whether a horizontal run of weight `w` ends in the centre of the junction
/// `c`.
pub fn takes_run(c: char, w: Weight) -> (b: bool)
    ensures
        b == takes_up(c, w),
{
    match west(c) {
        Some(v) => v == w && c != '╥' && c != '╴' && c != '╸' && c != '╼' && c != '╾',
        None => false,
    }
}

/// Whether a glyph is one that the scan knows: a box-drawing character or
/// one of the ASCII stand-ins.
pub open spec fn is_glyph(c: char) -> bool {
    ('─' <= c && c <= '╿') || c == '|' || c == '-' || c == '=' || c == '/' || c == '\\' || c == 'X'
}

/// Whether a glyph is one that the scan knows.
pub fn is_drawing(c: char) -> (b: bool)
    ensures
        b == is_glyph(c),
{
    ('─' <= c && c <= '╿') || c == '|' || c == '-' || c == '=' || c == '/' || c == '\\' || c == 'X'
}

} // verus!
