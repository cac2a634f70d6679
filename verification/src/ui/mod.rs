//! A text user interface drawn into a buffer of character cells.

use vstd::prelude::*;
use crate::ui::draw::typed;
use crate::ui::pane::{blank, frame_text, Pane, PaneView};

pub mod draw;
pub mod pane;

verus! {

/// The user interface: one pane that fills the screen.
pub struct UI {
    pub pane: Pane,
}

/// The pane with the greeting typed into its upper left corner.
pub open spec fn greeted(pane: PaneView) -> PaneView {
    typed(pane, 0, 0, "Hei"@).pane
}

/// The pane after it has been written out: the current colours are back to
/// white on black.
pub open spec fn settled(pane: PaneView) -> PaneView {
    PaneView { fg_current: 15, bg_current: 0, ..pane }
}

/// The pane after the greeting has been drawn and written out `rounds`
/// times.
pub open spec fn shown(pane: PaneView, rounds: nat) -> PaneView
    decreases rounds,
{
    if rounds == 0 {
        pane
    } else {
        settled(greeted(shown(pane, (rounds - 1) as nat)))
    }
}

impl UI {
    /// An interface with an empty pane of 100 by 30 cells.
    pub fn new() -> (ui: UI)
        ensures
            ui.pane.wf(),
            ui.pane@ == blank(100, 30),
    {
        UI { pane: Pane::new(100, 30) }
    }

    /// Draws the greeting and writes the pane out, ten times over. Returns
    /// the ten frames, each as the text that shows it on a terminal.
    pub fn start(&mut self) -> (frames: Vec<String>)
        requires
            old(self).pane.wf(),
        ensures
            final(self).pane.wf(),
            final(self).pane@ == shown(old(self).pane@, 10),
            frames@.len() == 10,
            forall|k: int|
                0 <= k < 10 ==> (#[trigger] frames@[k])@ == frame_text(
                    greeted(shown(old(self).pane@, k as nat)),
                ),
    {
        let mut frames: Vec<String> = Vec::new();
        let mut k: usize = 0;
        while k < 10
            invariant
                k <= 10,
                self.pane.wf(),
                self.pane@ == shown(old(self).pane@, k as nat),
                frames@.len() == k,
                forall|j: int|
                    0 <= j < k ==> (#[trigger] frames@[j])@ == frame_text(
                        greeted(shown(old(self).pane@, j as nat)),
                    ),
            decreases 10 - k,
        {
            crate::ui::draw::text(&mut self.pane, 0, 0, "Hei");
            let frame = self.pane.draw(0, 0);
            frames.push(frame);
            k += 1;
        }
        frames
    }
}

} // verus!
