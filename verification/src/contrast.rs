//! How well two colours can be told apart, after the Web Content Accessibility Guidelines.
use vstd::prelude::*;
use crate::color::Rgb;
use crate::single::Single;

verus! {

/// For each level the 2.4th power of its [`power_base`].
///
/// The power is taken outside of this library, in the floating-point unit.
pub struct PowerTable {
    pub powers: [Single; 256],
}

/// The number whose 2.4th power is the light that a level gives, where the level is not
/// among the lowest.
pub open spec fn base_of_power(level: u8) -> Single {
    Rgb::share(level).sum(Single::of_ratio(55, 1000)).quotient(Single::of_ratio(1055, 1000))
}

/// The light that a level gives: proportional to the level among the lowest, the power
/// of its base above.
pub open spec fn light(level: u8, powers: Seq<Single>) -> Single {
    let share = Rgb::share(level);
    if share.at_most(Single::of_ratio(3928, 100000)) {
        share.quotient(Single::of_ratio(1292, 100))
    } else {
        powers[level as int]
    }
}

/// The number to raise to the power 2.4 for a level.
pub fn power_base(level: u8) -> (r: Single)
    ensures
        r == base_of_power(level),
{
    Rgb::level_share(level).plus(Single::from_ratio(55, 1000)).over(Single::from_ratio(1055, 1000))
}

fn light_of(level: u8, table: &PowerTable) -> (r: Single)
    ensures
        r == light(level, table.powers@),
{
    let share = Rgb::level_share(level);
    if share.less_or_equal(Single::from_ratio(3928, 100000)) {
        share.over(Single::from_ratio(1292, 100))
    } else {
        table.powers[level as usize]
    }
}

impl Rgb {
    /// The relative luminance of the colour.
    pub open spec fn brightness(self, powers: Seq<Single>) -> Single {
        Single::of_ratio(2126, 10000).product(light(self.r, powers)).sum(
            Single::of_ratio(7152, 10000).product(light(self.g, powers)),
        ).sum(Single::of_ratio(722, 10000).product(light(self.b, powers)))
    }

    /// The relative luminance of the colour, by the powers in `table`.
    pub fn luminance(&self, table: &PowerTable) -> (r: Single)
        ensures
            r == self.brightness(table.powers@),
    {
        let red = Single::from_ratio(2126, 10000).times(light_of(self.r, table));
        let green = Single::from_ratio(7152, 10000).times(light_of(self.g, table));
        let blue = Single::from_ratio(722, 10000).times(light_of(self.b, table));
        red.plus(green).plus(blue)
    }
}

/// The lighter colour's luminance over the darker one's, both raised by a twentieth.
pub open spec fn contrast(a: Rgb, b: Rgb, powers: Seq<Single>) -> Single {
    let la = a.brightness(powers).sum(Single::of_ratio(5, 100));
    let lb = b.brightness(powers).sum(Single::of_ratio(5, 100));
    if lb.below(la) {
        la.quotient(lb)
    } else {
        lb.quotient(la)
    }
}

/// How many times as bright the lighter of two colours is.
pub fn contrast_ratio(a: &Rgb, b: &Rgb, table: &PowerTable) -> (r: Single)
    ensures
        r == contrast(*a, *b, table.powers@),
{
    let la = a.luminance(table).plus(Single::from_ratio(5, 100));
    let lb = b.luminance(table).plus(Single::from_ratio(5, 100));
    if lb.less(la) {
        la.over(lb)
    } else {
        lb.over(la)
    }
}

/// The level that a contrast ratio reaches, and its mark.
pub open spec fn grade(ratio: Single) -> (Seq<char>, Seq<char>) {
    if Single::of_int(7).at_most(ratio) {
        ("AAA"@, "✓"@)
    } else if Single::of_ratio(9, 2).at_most(ratio) {
        ("AA"@, "✓"@)
    } else if Single::of_int(3).at_most(ratio) {
        ("AA·"@, "·"@)
    } else {
        ("✗ low"@, "✗"@)
    }
}

/// The level that a contrast ratio reaches, and its mark.
pub fn wcag_label(ratio: Single) -> (r: (&'static str, &'static str))
    ensures
        (r.0@, r.1@) == grade(ratio),
{
    if Single::from_int(7).less_or_equal(ratio) {
        ("AAA", "✓")
    } else if Single::from_ratio(9, 2).less_or_equal(ratio) {
        ("AA", "✓")
    } else if Single::from_int(3).less_or_equal(ratio) {
        ("AA·", "·")
    } else {
        ("✗ low", "✗")
    }
}

} // verus!
