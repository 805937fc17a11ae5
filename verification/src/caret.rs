//! Caret blinking and the scrollbar's idle fade, driven by a millisecond
//! clock that the caller reads.

use vstd::prelude::*;
use crate::editor::{CaretClock, EditorCore};

verus! {

/// Half a blink period.
pub const CARET_BLINK_MS: u64 = 530;

/// After activity the caret stays drawn this long, whatever the phase.
pub const CARET_ACTIVE_MS: u64 = 450;

/// The scrollbar stays fully drawn this long after scrolling.
pub const SCROLLBAR_IDLE_MS: u64 = 900;

/// Then it fades out over this long.
pub const SCROLLBAR_FADE_MS: u64 = 300;

/// Milliseconds from `t` to `now` (none when `now` is earlier).
pub open spec fn since(now: u64, t: u64) -> int {
    if now >= t { now - t } else { 0 }
}

impl EditorCore {
    /// A blink tick at `now_ms`: once a half period has passed since the
    /// last flip (or on the first tick), the phase flips unless the caret
    /// was active within [`CARET_ACTIVE_MS`], and the tick time is kept.
    /// Quicker ticks change nothing.
    pub fn tick_blink_at(&mut self, now_ms: u64)
        ensures
            ({
                let k = old(self).caret;
                let due = k.last_blink_at matches Some(t) ==> since(now_ms, t) >= CARET_BLINK_MS;
                let idle = k.last_activity matches Some(t) ==> since(now_ms, t) >= CARET_ACTIVE_MS;
                &&& due ==> *final(self) == (EditorCore {
                    caret: CaretClock {
                        blink_on: if idle { !k.blink_on } else { k.blink_on },
                        last_blink_at: Some(now_ms),
                        ..k
                    },
                    ..*old(self)
                })
                &&& !due ==> *final(self) == *old(self)
            }),
    {
        let k = self.caret;
        let due = match k.last_blink_at {
            None => true,
            Some(t) => now_ms.saturating_sub(t) >= CARET_BLINK_MS,
        };
        if due {
            let idle = match k.last_activity {
                None => true,
                Some(t) => now_ms.saturating_sub(t) >= CARET_ACTIVE_MS,
            };
            let on = if idle { !k.blink_on } else { k.blink_on };
            self.caret = CaretClock { blink_on: on, last_blink_at: Some(now_ms), ..k };
        }
    }

    /// Caret activity at `now_ms`: the caret is drawn and stays drawn for
    /// [`CARET_ACTIVE_MS`].
    pub fn poke_caret_at(&mut self, now_ms: u64)
        ensures
            *final(self) == (EditorCore {
                caret: CaretClock { blink_on: true, last_activity: Some(now_ms), ..old(self).caret },
                ..*old(self)
            }),
    {
        self.caret = CaretClock { blink_on: true, last_activity: Some(now_ms), ..self.caret };
    }

    /// Whether the caret is drawn at `now_ms`: never during an IME
    /// composition; always within [`CARET_ACTIVE_MS`] of activity; else by
    /// the blink phase.
    pub fn caret_visible_at(&self, now_ms: u64) -> (r: bool)
        ensures
            r == if self.preedit matches Some(p) && p@.len() > 0 {
                false
            } else if self.caret.last_activity matches Some(t) && since(now_ms, t) < CARET_ACTIVE_MS {
                true
            } else {
                self.caret.blink_on
            },
    {
        if let Some(p) = &self.preedit {
            if !p.as_str().is_empty() {
                return false;
            }
        }
        if let Some(t) = self.caret.last_activity {
            if now_ms.saturating_sub(t) < CARET_ACTIVE_MS {
                return true;
            }
        }
        self.caret.blink_on
    }

    /// Scrolling at `now_ms`: the scrollbar is fully drawn again.
    pub fn touch_scrollbar_activity_at(&mut self, now_ms: u64)
        ensures
            *final(self) == (EditorCore { caret: CaretClock { sb_activity: Some(now_ms), ..old(self).caret }, ..*old(self) }),
    {
        self.caret = CaretClock { sb_activity: Some(now_ms), ..self.caret };
    }

    /// How long the scrollbar has been idle at `now_ms` (none before any
    /// scrolling).
    pub fn scrollbar_idle_ms(&self, now_ms: u64) -> (r: Option<u64>)
        ensures
            r == match self.caret.sb_activity {
                None => None::<u64>,
                Some(t) => Some(since(now_ms, t) as u64),
            },
    {
        match self.caret.sb_activity {
            None => None,
            Some(t) => Some(now_ms.saturating_sub(t)),
        }
    }

    /// Whether the scrollbar is fading out at `now_ms`: idle longer than
    /// [`SCROLLBAR_IDLE_MS`] but not yet by the fade's end.
    pub fn scrollbar_fading_at(&self, now_ms: u64) -> (r: bool)
        ensures
            r == (self.caret.sb_activity matches Some(t) && SCROLLBAR_IDLE_MS < since(now_ms, t)
                < SCROLLBAR_IDLE_MS + SCROLLBAR_FADE_MS),
    {
        match self.caret.sb_activity {
            None => false,
            Some(t) => {
                let e = now_ms.saturating_sub(t);
                e > SCROLLBAR_IDLE_MS && e < SCROLLBAR_IDLE_MS + SCROLLBAR_FADE_MS
            },
        }
    }
}

} // verus!
