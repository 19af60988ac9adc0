//! The state of the picker, and steps in it.
use vstd::prelude::*;
use crate::color::{Hsv, Rgb};
use crate::single::Single;

verus! {

/// One of the two colours that are picked.
#[derive(Clone, Copy, Debug, PartialEq, Eq, Structural)]
pub enum Slot {
    Fg,
    Bg,
}

/// What the step keys change.
#[derive(Clone, Copy, Debug, PartialEq, Eq, Structural)]
pub enum Channel {
    R,
    G,
    B,
    H,
    S,
    V,
}

/// How the colours are written in the end.
#[derive(Clone, Copy, Debug, PartialEq, Eq, Structural)]
pub enum OutputFmt {
    Hex,
    Rgb,
    Hsv,
    All,
}

/// Whether one colour is picked or both.
#[derive(Clone, Copy, Debug, PartialEq, Eq, Structural)]
pub enum Mode {
    Pick,
    Pair,
}

/// The picker.
#[derive(Debug)]
pub struct App {
    pub fg: Rgb,
    pub bg: Rgb,
    pub editing: Slot,
    pub channel: Channel,
    pub out_fmt: OutputFmt,
    pub mode: Mode,
    pub status: String,
}

/// The picker, with its status line as a sequence of characters.
pub struct State {
    pub fg: Rgb,
    pub bg: Rgb,
    pub editing: Slot,
    pub channel: Channel,
    pub out_fmt: OutputFmt,
    pub mode: Mode,
    pub status: Seq<char>,
}

impl View for App {
    type V = State;

    open spec fn view(&self) -> State {
        State {
            fg: self.fg,
            bg: self.bg,
            editing: self.editing,
            channel: self.channel,
            out_fmt: self.out_fmt,
            mode: self.mode,
            status: self.status@,
        }
    }
}

/// A level moved by `delta`, as far as it can go.
pub open spec fn moved_level(level: u8, delta: int) -> u8 {
    let n = level + delta;
    if n < 0 {
        0
    } else if n > 255 {
        255
    } else {
        n as u8
    }
}

/// A saturation or a value moved by `delta` hundredths, as far as it can go.
pub open spec fn moved_share(share: Single, delta: int) -> Single {
    share.sum(Single::of_int(delta).quotient(Single::of_int(100))).within(
        Single::of_int(0),
        Single::of_int(1),
    )
}

/// A hue moved by `delta` degrees along the circle.
pub open spec fn moved_hue(h: Single, delta: int) -> Single {
    h.sum(Single::of_int(delta)).turned_up().turned_down()
}

/// A colour after a step of `delta` in one channel.
pub open spec fn moved(c: Rgb, channel: Channel, delta: int) -> Rgb {
    let hsv = c.hsv();
    match channel {
        Channel::R => Rgb { r: moved_level(c.r, delta), ..c },
        Channel::G => Rgb { g: moved_level(c.g, delta), ..c },
        Channel::B => Rgb { b: moved_level(c.b, delta), ..c },
        Channel::H => (Hsv { h: moved_hue(hsv.h, delta), ..hsv }).rgb(),
        Channel::S => (Hsv { s: moved_share(hsv.s, delta), ..hsv }).rgb(),
        Channel::V => (Hsv { v: moved_share(hsv.v, delta), ..hsv }).rgb(),
    }
}

/// The level that a step in one of the channels red, green and blue starts from.
pub open spec fn level_of(c: Rgb, channel: Channel) -> int {
    match channel {
        Channel::R => c.r as int,
        Channel::G => c.g as int,
        Channel::B => c.b as int,
        _ => 0,
    }
}

impl State {
    /// The colour that is edited.
    pub open spec fn current(self) -> Rgb {
        match self.editing {
            Slot::Fg => self.fg,
            Slot::Bg => self.bg,
        }
    }

    /// The picker with `c` in place of the colour that is edited.
    pub open spec fn with_current(self, c: Rgb) -> State {
        match self.editing {
            Slot::Fg => State { fg: c, ..self },
            Slot::Bg => State { bg: c, ..self },
        }
    }

    /// The picker after a step of `delta` in the channel that is chosen.
    pub open spec fn stepped(self, delta: int) -> State {
        self.with_current(moved(self.current(), self.channel, delta))
    }
}

fn move_level(level: u8, delta: i32) -> (r: u8)
    requires
        level + delta <= i32::MAX,
    ensures
        r == moved_level(level, delta as int),
{
    let n: i32 = level as i32 + delta;
    if n < 0 {
        0
    } else if n > 255 {
        255
    } else {
        n as u8
    }
}

fn move_share(share: Single, delta: i32) -> (r: Single)
    ensures
        r == moved_share(share, delta as int),
{
    share.plus(Single::from_int(delta).over(Single::from_int(100))).clamp(
        Single::from_int(0),
        Single::from_int(1),
    )
}

/// A hue with any step of a 32-bit size added lies within `2^32` degrees.
proof fn lemma_hue_step(c: Rgb, delta: i32)
    ensures
        ({
            let h = c.hsv().h.sum(Single::of_int(delta as int));
            &&& !h.is_nan()
            &&& -crate::rounding::units(32) < h.rank() < crate::rounding::units(32)
        }),
{
    let p = crate::hue::lemma_hsv(c);
    let h = c.hsv().h;
    crate::rounding::lemma_int_value(0);
    crate::rounding::lemma_int_rank(0);
    crate::rounding::lemma_int_value(360);
    crate::rounding::lemma_int_rank(360);
    crate::rounding::lemma_value_order(Single::of_int(0), h);
    crate::rounding::lemma_value_order(h, Single::of_int(360));
    crate::rounding::lemma_moved_angle(h, delta);
}

fn move_hue(c: &Rgb, h: Single, delta: i32) -> (r: Single)
    requires
        h == c.hsv().h,
    ensures
        r == moved_hue(h, delta as int),
{
    proof {
        lemma_hue_step(*c, delta);
    }
    h.plus(Single::from_int(delta)).into_one_turn()
}

impl App {
    /// The colour that is edited.
    pub fn current(&self) -> (r: Rgb)
        ensures
            r == self@.current(),
    {
        match self.editing {
            Slot::Fg => self.fg,
            Slot::Bg => self.bg,
        }
    }

    /// Puts `c` in place of the colour that is edited.
    pub fn set_current(&mut self, c: Rgb)
        ensures
            final(self)@ == old(self)@.with_current(c),
    {
        match self.editing {
            Slot::Fg => self.fg = c,
            Slot::Bg => self.bg = c,
        }
    }

    /// Moves the edited colour by `delta` in the channel that is chosen.
    pub fn step(&mut self, delta: i32)
        requires
            level_of(old(self)@.current(), old(self).channel) + delta <= i32::MAX,
        ensures
            final(self)@ == old(self)@.stepped(delta as int),
    {
        let c = self.current();
        let hsv = c.to_hsv();
        let next = match self.channel {
            Channel::R => Rgb { r: move_level(c.r, delta), g: c.g, b: c.b },
            Channel::G => Rgb { r: c.r, g: move_level(c.g, delta), b: c.b },
            Channel::B => Rgb { r: c.r, g: c.g, b: move_level(c.b, delta) },
            Channel::H => (Hsv { h: move_hue(&c, hsv.h, delta), s: hsv.s, v: hsv.v }).to_rgb(),
            Channel::S => (Hsv { h: hsv.h, s: move_share(hsv.s, delta), v: hsv.v }).to_rgb(),
            Channel::V => (Hsv { h: hsv.h, s: hsv.s, v: move_share(hsv.v, delta) }).to_rgb(),
        };
        self.set_current(next);
    }
}

} // verus!
