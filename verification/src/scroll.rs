//! Scrollable-viewport cursor: an offset tracked against a maximum, moved by
//! navigation keys and rendered as a proportional position indicator.

use vstd::prelude::*;

verus! {

/// Outcome of handling one input event: what the caller's draw/update loop
/// must do next.  `NeedsUpdate` implies a redraw.
#[derive(Debug, Eq, PartialEq, Copy, Clone, Structural)]
pub enum InputResult {
    /// The view must be redrawn.
    NeedsRedraw,
    /// The view must be refreshed from live data, then redrawn.
    NeedsUpdate,
    /// Nothing to do.
    Idle,
}

impl InputResult {
    /// What `combine` returns: the stronger demand wins.
    pub open spec fn combined(self, other: InputResult) -> InputResult {
        if self == InputResult::NeedsUpdate || other == InputResult::NeedsUpdate {
            InputResult::NeedsUpdate
        } else if self == InputResult::NeedsRedraw || other == InputResult::NeedsRedraw {
            InputResult::NeedsRedraw
        } else {
            InputResult::Idle
        }
    }

    /// Join the demands of two handlers; the stronger one wins.
    pub fn combine(self, other: InputResult) -> (r: InputResult)
        ensures
            r == self.combined(other),
    {
        if self == InputResult::NeedsUpdate || other == InputResult::NeedsUpdate {
            InputResult::NeedsUpdate
        } else if self == InputResult::NeedsRedraw || other == InputResult::NeedsRedraw {
            InputResult::NeedsRedraw
        } else {
            InputResult::Idle
        }
    }
}

impl From<bool> for InputResult {
    /// A bare moved/not-moved flag becomes a redraw demand.
    fn from(moved: bool) -> (r: InputResult) {
        if moved {
            InputResult::NeedsRedraw
        } else {
            InputResult::Idle
        }
    }
}

impl vstd::std_specs::convert::FromSpecImpl<bool> for InputResult {
    open spec fn obeys_from_spec() -> bool {
        true
    }

    open spec fn from_spec(moved: bool) -> InputResult {
        if moved {
            InputResult::NeedsRedraw
        } else {
            InputResult::Idle
        }
    }
}

/// A navigation key, as far as scrolling and selection care about it.
/// Every other key is `Other`.
#[derive(Debug, Eq, PartialEq, Copy, Clone, Structural)]
pub enum NavKey {
    /// One line up.
    Up,
    /// One line down.
    Down,
    /// A third of the viewport up.
    PageUp,
    /// A third of the viewport down.
    PageDown,
    /// Jump to the top.
    Home,
    /// Jump to the bottom.
    End,
    /// Any key without a scrolling meaning.
    Other,
}

/// Tracks a scroll offset against a maximum.  The offset never exceeds the
/// maximum, and navigation input moves it by whole lines, clamped at both
/// ends.
pub struct ScrollController {
    scroll_offset: u16,
    max_scroll: u16,
}

impl ScrollController {
    /// The current offset, as a mathematical integer.
    pub closed spec fn offset_spec(self) -> int {
        self.scroll_offset as int
    }

    /// The current maximum, as a mathematical integer.
    pub closed spec fn max_spec(self) -> int {
        self.max_scroll as int
    }

    /// The one invariant: the offset never exceeds the maximum.
    pub open spec fn wf(self) -> bool {
        self.offset_spec() <= self.max_spec()
    }

    /// A fresh controller sits at the top with no room to scroll.
    pub fn new() -> (r: ScrollController)
        ensures
            r.wf(),
            r.offset_spec() == 0,
            r.max_spec() == 0,
    {
        ScrollController { scroll_offset: 0, max_scroll: 0 }
    }

    /// The current offset, for use as a render-time line offset.
    pub fn scroll_offset(&self) -> (r: u16)
        ensures
            r as int == self.offset_spec(),
    {
        self.scroll_offset
    }

    /// The current maximum offset.
    pub fn max_scroll(&self) -> (r: u16)
        ensures
            r as int == self.max_spec(),
    {
        self.max_scroll
    }

    /// What `set_max_scroll` stores: negative extents clamp to zero, and
    /// extents beyond what the field can hold wrap by the narrowing cast.
    pub open spec fn clamped_max(max: int) -> int {
        if max <= 0 {
            0
        } else {
            max % 0x10000
        }
    }

    /// Record the scrollable extent of the current content, clamping the
    /// offset down if it now lies beyond the new maximum.
    pub fn set_max_scroll(&mut self, max: i32)
        requires
            old(self).wf(),
        ensures
            final(self).wf(),
            final(self).max_spec() == Self::clamped_max(max as int),
            final(self).offset_spec() == if old(self).offset_spec()
                >= final(self).max_spec() {
                final(self).max_spec()
            } else {
                old(self).offset_spec()
            },
    {
        let m: u16 = if max <= 0 {
            0
        } else if max >= 0x10000 {
            (max % 0x10000) as u16
        } else {
            max as u16
        };
        if self.scroll_offset >= m {
            self.scroll_offset = m;
        }
        self.max_scroll = m;
    }

    /// The offset after one navigation key: down-moves saturate at the
    /// maximum, up-moves at zero, `Home` and `End` jump, anything else
    /// stays put.
    pub open spec fn moved_offset(self, key: NavKey, height: u16) -> int {
        let off = self.offset_spec();
        let max = self.max_spec();
        let page = height as int / 3;
        match key {
            NavKey::Down => if off + 1 <= max {
                off + 1
            } else {
                max
            },
            NavKey::PageDown => if off + page <= max {
                off + page
            } else {
                max
            },
            NavKey::End => max,
            NavKey::Up => if off >= 1 {
                off - 1
            } else {
                0
            },
            NavKey::PageUp => if off >= page {
                off - page
            } else {
                0
            },
            NavKey::Home => 0,
            NavKey::Other => off,
        }
    }

    /// Move the offset for one navigation key and report whether it moved.
    pub fn handle_input(&mut self, key: NavKey, height: u16) -> (moved: bool)
        requires
            old(self).wf(),
        ensures
            final(self).wf(),
            final(self).max_spec() == old(self).max_spec(),
            final(self).offset_spec() == old(self).moved_offset(key, height),
            moved == (final(self).offset_spec() != old(self).offset_spec()),
    {
        let pageupdown_size: u16 = height / 3;
        match key {
            NavKey::Down | NavKey::PageDown | NavKey::End => {
                let room: u16 = self.max_scroll - self.scroll_offset;
                let step: u16 = if matches!(key, NavKey::PageDown) {
                    pageupdown_size
                } else if matches!(key, NavKey::End) {
                    self.max_scroll
                } else {
                    1
                };
                let to_move: u16 = if room < step {
                    room
                } else {
                    step
                };
                if to_move > 0 {
                    self.scroll_offset = self.scroll_offset + to_move;
                    true
                } else {
                    false
                }
            },
            NavKey::Home => {
                let p = self.scroll_offset;
                self.scroll_offset = 0;
                p > 0
            },
            NavKey::Up | NavKey::PageUp => {
                let step: u16 = if matches!(key, NavKey::PageUp) {
                    pageupdown_size
                } else {
                    1
                };
                let to_move: u16 = if self.scroll_offset < step {
                    self.scroll_offset
                } else {
                    step
                };
                if to_move > 0 {
                    self.scroll_offset = self.scroll_offset - to_move;
                    true
                } else {
                    false
                }
            },
            NavKey::Other => false,
        }
    }

    /// Shape of the proportional scrollbar over a track of `height` cells:
    /// how many cells are fully filled, and the shading level of the one
    /// transitional cell (0 = full block through 8 = blank), the fractional
    /// remainder rounded to the nearest of eight gradations.  With no room
    /// to scroll there is no indicator at all.
    pub fn scrollbar_shape(&self, height: u16) -> (r: Option<(u16, u8)>)
        requires
            self.wf(),
        ensures
            match r {
                Option::None => self.max_spec() == 0,
                Option::Some((filled, level)) => {
                    let num = self.offset_spec() * height as int;
                    let max = self.max_spec();
                    &&& max > 0
                    &&& filled as int == num / max
                    &&& filled <= height
                    &&& level as int == (16 * (num % max) + max) / (2 * max)
                    &&& level <= 8
                },
            },
    {
        if self.max_scroll == 0 {
            return None;
        }
        proof {
            assert(self.offset_spec() * height as int <= 0xFFFF * 0xFFFF) by (nonlinear_arith)
                requires
                    0 <= self.offset_spec() <= 0xFFFF,
                    0 <= height as int <= 0xFFFF,
            ;
        }
        let num: u32 = (self.scroll_offset as u32) * (height as u32);
        let max: u32 = self.max_scroll as u32;
        let filled: u32 = num / max;
        let rem: u32 = num % max;
        let level: u32 = (16 * rem + max) / (2 * max);
        proof {
            let numi = self.offset_spec() * height as int;
            let maxi = self.max_spec();
            assert(numi <= maxi * height as int) by (nonlinear_arith)
                requires
                    0 <= self.offset_spec() <= maxi,
                    0 <= height as int,
                    numi == self.offset_spec() * height as int,
            ;
            assert(numi / maxi <= height as int) by (nonlinear_arith)
                requires
                    maxi > 0,
                    0 <= numi,
                    numi <= maxi * height as int,
            ;
            assert((16 * (numi % maxi) + maxi) / (2 * maxi) <= 8) by (nonlinear_arith)
                requires
                    maxi > 0,
                    0 <= numi % maxi < maxi,
            ;
        }
        Some((filled as u16, level as u8))
    }
}

} // verus!
