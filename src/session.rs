//! Per-frame decisions of the interactive loop: which view to show, when to
//! paint, clear or blend, and the status line shown over the video.
use vstd::prelude::*;
use vstd::string::StringExecFns;

verus! {

/// The input signals sampled once per frame.
pub struct Controls {
    /// Switch between the live view and the full blurred view.
    pub toggle_view: bool,
    /// Erase the painted mask.
    pub clear_mask: bool,
    /// The paint button is held.
    pub paint: bool,
    /// The pointer position, clamped to the frame, if the pointer is known.
    pub pointer: Option<(usize, usize)>,
}

/// What persists between frames besides the images themselves.
pub struct ViewState {
    /// The full blurred frame is shown instead of the live one.
    pub show_blur: bool,
    /// Some paint has reached the mask since it was last cleared.
    pub mask_has_any: bool,
}

/// What the loop does with this frame, in order.
pub struct FramePlan {
    /// Reset the mask to zero before painting.
    pub clear_mask: bool,
    /// Dab the brush, spawn sparkles and maybe a bolt at this point.
    pub dab_at: Option<(i32, i32)>,
    /// Paint is being applied this frame.
    pub erasing: bool,
    /// Show the blurred frame as the base image.
    pub show_blur: bool,
    /// Blend the blurred frame into the live one through the mask.
    pub blend: bool,
}

impl ViewState {
    /// The state at start-up: live view, empty mask.
    pub fn new() -> (r: Self)
        ensures
            !r.show_blur,
            !r.mask_has_any,
    {
        ViewState { show_blur: false, mask_has_any: false }
    }

    /// Folds this frame's controls into the state and says what to do.
    pub fn plan_frame(&mut self, input: &Controls) -> (plan: FramePlan)
        ensures
            final(self).show_blur == (old(self).show_blur != input.toggle_view),
            plan.clear_mask == input.clear_mask,
            plan.erasing == (input.paint && input.pointer is Some),
            input.pointer matches Some(p) ==> (input.paint ==> plan.dab_at == Some(
                (p.0 as i32, p.1 as i32),
            )),
            !plan.erasing ==> plan.dab_at is None,
            final(self).mask_has_any == (plan.erasing || (old(self).mask_has_any && !input.clear_mask)),
            plan.show_blur == final(self).show_blur,
            plan.blend == (!final(self).show_blur && final(self).mask_has_any),
    {
        if input.toggle_view {
            self.show_blur = !self.show_blur;
        }
        if input.clear_mask {
            self.mask_has_any = false;
        }
        let mut dab_at: Option<(i32, i32)> = None;
        let mut erasing = false;
        if input.paint {
            if let Some((mx, my)) = input.pointer {
                dab_at = Some((mx as i32, my as i32));
                self.mask_has_any = true;
                erasing = true;
            }
        }
        FramePlan {
            clear_mask: input.clear_mask,
            dab_at,
            erasing,
            show_blur: self.show_blur,
            blend: !self.show_blur && self.mask_has_any,
        }
    }
}

/// The mode tag at the left of the status line.
pub open spec fn status_tag(show_blur: bool) -> Seq<char> {
    if show_blur {
        "BLUR (Showing)"@
    } else {
        "LIVE"@
    }
}

/// The key hints that follow the mode tag.
pub open spec fn hint_text(erasing: bool) -> Seq<char> {
    if erasing {
        " | LMB: painting blur\u{2026}  C: clear  B: show BLUR"@
    } else {
        " | LMB: paint blur     C: clear  B: show BLUR"@
    }
}

/// The status line: mode tag, key hints, then the frame-rate text.
pub fn hud_text(show_blur: bool, erasing: bool, fps_text: &str) -> (r: String)
    ensures
        r@ == status_tag(show_blur) + hint_text(erasing) + " | "@ + fps_text@,
{
    let status = if show_blur {
        "BLUR (Showing)"
    } else {
        "LIVE"
    };
    let hint = if erasing {
        " | LMB: painting blur\u{2026}  C: clear  B: show BLUR"
    } else {
        " | LMB: paint blur     C: clear  B: show BLUR"
    };
    String::from_str(status).concat(hint).concat(" | ").concat(fps_text)
}

} // verus!
