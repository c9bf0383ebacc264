//! When and how the outline around the focused window is shown.
//!
//! The outline is a surface of its own that follows a window. What is read from the screen comes in
//! as values, and what has to be done on the screen goes out as values.

use vstd::prelude::*;

use crate::color::Color;
use crate::geometry::Rect;
use crate::tree::{kind, valid, ContainerKind, Tree, WindowState};
use crate::wm_state::{has_mode, is_mode_on, BindingModeConfig, WmState};

verus! {

/// How the corners of a window are to be drawn.
#[derive(Debug, Clone, Copy, PartialEq, Eq, Structural)]
pub enum CornerPreference {
    Default,
    DoNotRound,
    Round,
    RoundSmall,
}

/// The radius of rounded corners at 96 dots per inch.
pub open spec fn logical_radius(preference: Option<CornerPreference>, has_frame: bool) -> int {
    match preference {
        Some(CornerPreference::Round) => 8,
        Some(CornerPreference::RoundSmall) => 4,
        Some(CornerPreference::Default) => if has_frame {
            8
        } else {
            0
        },
        _ => 0,
    }
}

/// The radius of the corners of a window, in pixels. A window whose preference is unknown has
/// square corners, and so has a maximized window.
pub fn corner_radius(
    preference: Option<CornerPreference>,
    maximized: bool,
    has_frame: bool,
    dpi: u32,
) -> (res: i32)
    ensures
        maximized ==> res == 0,
        !maximized ==> res == (logical_radius(preference, has_frame) * dpi + 48) / 96,
        !maximized && preference == Some(CornerPreference::Round) ==> -48 <= 96 * res - 8 * dpi
            <= 48,
        !maximized && preference == Some(CornerPreference::RoundSmall) ==> -48 <= 96 * res - 4
            * dpi <= 48,
        !maximized && preference == Some(CornerPreference::Default) && has_frame ==> -48 <= 96 * res
            - 8 * dpi <= 48,
        preference == Some(CornerPreference::Default) && !has_frame ==> res == 0,
        preference == Some(CornerPreference::DoNotRound) || preference is None ==> res == 0,
{
    if maximized {
        return 0;
    }
    let logical: u64 = match preference {
        Some(CornerPreference::Round) => 8,
        Some(CornerPreference::RoundSmall) => 4,
        Some(CornerPreference::Default) => if has_frame {
            8
        } else {
            0
        },
        _ => 0,
    };
    proof {
        let l = logical as int;
        assert(0 <= l * dpi <= 8 * 0xffff_ffff) by (nonlinear_arith)
            requires
                0 <= l <= 8,
                0 <= dpi <= 0xffff_ffff,
        ;
    }
    ((logical * dpi as u64 + 48) / 96) as i32
}

/// What the pixels of an outline depend on, besides its color and thickness.
#[derive(Debug, Clone, Copy, PartialEq, Eq, Structural)]
pub struct OutlineShape {
    pub width: i32,
    pub height: i32,
    pub radius: i32,
}

/// What is seen on the screen when the outline is brought up to date.
#[derive(Debug, Clone, Copy, PartialEq, Eq, Structural)]
pub struct OutlineSight {
    /// The frame of the window, if it is in the foreground and can be seen.
    pub frame: Option<Rect>,
    /// The radius of the corners of the window.
    pub radius: i32,
    /// Where the outline is, if it is shown.
    pub outline: Option<Rect>,
}

/// What has to be done to the outline.
#[derive(Debug, Clone, Copy, PartialEq, Eq, Structural)]
pub enum OutlineStep {
    Hide,
    Keep,
    /// Draw the outline anew. How that went is to be told.
    Draw(OutlineShape),
    /// Show the outline, as it was drawn last.
    Place(Rect),
}

/// The outline of a window.
#[derive(Debug, Clone, Copy, PartialEq, Eq, Structural)]
pub struct OutlineState {
    /// The handle of the window.
    pub target: isize,
    pub color: Color,
    pub width: i32,
    /// The shape that was drawn last.
    pub last_shape: Option<OutlineShape>,
}

/// Whether the size of a frame can be told in pixels.
pub open spec fn has_pixel_size(frame: Rect) -> bool {
    &&& i32::MIN <= frame.w() <= i32::MAX
    &&& i32::MIN <= frame.h() <= i32::MAX
}

pub open spec fn shape_of(frame: Rect, radius: i32) -> OutlineShape {
    OutlineShape { width: frame.w() as i32, height: frame.h() as i32, radius }
}

impl OutlineState {
    pub open spec fn next_step(self, sight: OutlineSight) -> OutlineStep {
        match sight.frame {
            None => OutlineStep::Hide,
            Some(frame) => {
                let shape = shape_of(frame, sight.radius);
                let drawn = self.last_shape == Some(shape);
                if drawn && sight.outline == Some(frame) {
                    OutlineStep::Keep
                } else if frame.w() <= 0 || frame.h() <= 0 {
                    OutlineStep::Hide
                } else if drawn {
                    OutlineStep::Place(frame)
                } else {
                    OutlineStep::Draw(shape)
                }
            },
        }
    }

    /// An outline that has not been drawn yet.
    pub fn new(target: isize, color: Color, width: u16) -> (res: OutlineState)
        ensures
            res == (OutlineState { target, color, width: width as i32, last_shape: None }),
    {
        OutlineState { target, color, width: width as i32, last_shape: None }
    }

    /// Follows another window, or looks otherwise. The outline has to be drawn again.
    pub fn update(&mut self, target: isize, color: Color, width: u16)
        ensures
            *final(self) == (OutlineState { target, color, width: width as i32, last_shape: None }),
    {
        self.target = target;
        self.color = color;
        self.width = width as i32;
        self.last_shape = None;
    }

    /// What has to be done to the outline. It is drawn only where its shape is another one than
    /// before: where only the position changed, it is just moved.
    pub fn track(&self, sight: &OutlineSight) -> (res: OutlineStep)
        requires
            sight.frame matches Some(frame) ==> has_pixel_size(frame),
        ensures
            res == self.next_step(*sight),
    {
        let frame = match sight.frame {
            Some(frame) => frame,
            None => {
                return OutlineStep::Hide;
            },
        };
        let width: i32 = frame.wide_width() as i32;
        let height: i32 = frame.wide_height() as i32;
        let shape = OutlineShape { width, height, radius: sight.radius };
        let drawn = match self.last_shape {
            Some(last) => last == shape,
            None => false,
        };
        if drawn {
            if let Some(outline) = sight.outline {
                if outline == frame {
                    return OutlineStep::Keep;
                }
            }
        }
        if width <= 0 || height <= 0 {
            return OutlineStep::Hide;
        }
        if drawn {
            OutlineStep::Place(frame)
        } else {
            OutlineStep::Draw(shape)
        }
    }

    /// Goes on once the outline was drawn, or could not be.
    pub fn drawn(&mut self, frame: &Rect, shape: OutlineShape, succeeded: bool) -> (res:
        OutlineStep)
        ensures
            *final(self) == (if succeeded {
                OutlineState { last_shape: Some(shape), ..*old(self) }
            } else {
                *old(self)
            }),
            res == (if succeeded {
                OutlineStep::Place(*frame)
            } else {
                OutlineStep::Hide
            }),
    {
        if succeeded {
            self.last_shape = Some(shape);
            OutlineStep::Place(*frame)
        } else {
            OutlineStep::Hide
        }
    }
}

/// How focused windows are marked.
#[derive(Debug, Clone, Copy, PartialEq, Eq, Structural)]
pub struct WindowEffects {
    pub focused_border_enabled: bool,
    pub focused_border_width: u16,
    pub focused_color: Color,
    /// The color while windows are being resized, if it is another one.
    pub resize_border_color: Option<Color>,
}

impl WindowEffects {
    pub open spec fn border_color_with(self, modes: Seq<BindingModeConfig>) -> Color {
        match self.resize_border_color {
            Some(color) if has_mode(modes, "resize"@) => color,
            _ => self.focused_color,
        }
    }

    /// The color of the border around the focused window while some binding modes are on.
    pub fn focused_border_color(&self, modes: &Vec<BindingModeConfig>) -> (res: Color)
        ensures
            res == self.border_color_with(modes@),
            self.resize_border_color is None ==> res == self.focused_color,
            !has_mode(modes@, "resize"@) ==> res == self.focused_color,
            has_mode(modes@, "resize"@) && self.resize_border_color is Some ==> Some(res)
                == self.resize_border_color,
    {
        let resizing = is_mode_on(modes, "resize");
        match self.resize_border_color {
            Some(color) => if resizing {
                color
            } else {
                self.focused_color
            },
            None => self.focused_color,
        }
    }
}

/// What becomes of the outline when the focus or the way to mark it changes.
#[derive(Debug, Clone, Copy, PartialEq, Eq, Structural)]
pub enum OutlineChange {
    Remove,
    Create(Color, u16),
    Update(Color, u16),
}

/// Whether a focused container is marked with an outline.
pub open spec fn is_outlined(t: Tree, focused: usize, effects: WindowEffects, paused: bool) -> bool {
    &&& kind(t, focused).is_window()
    &&& effects.focused_border_enabled
    &&& effects.focused_border_width > 1
    &&& !paused
    &&& !(t[focused as int].data.window.state is Fullscreen)
}

/// What becomes of the outline now that a container has the focus. There is an outline around
/// windows only, and none around a window that fills the screen.
pub fn sync_focus_outline(
    focused: usize,
    state: &WmState,
    effects: &WindowEffects,
    has_outline: bool,
) -> (res: OutlineChange)
    requires
        state.layout.wf(),
        valid(state.layout@, focused),
    ensures
        res == (if !is_outlined(state.layout@, focused, *effects, state.is_paused) {
            OutlineChange::Remove
        } else if has_outline {
            OutlineChange::Update(
                effects.border_color_with(state.binding_modes@),
                effects.focused_border_width,
            )
        } else {
            OutlineChange::Create(
                effects.border_color_with(state.binding_modes@),
                effects.focused_border_width,
            )
        }),
        state.is_paused || !effects.focused_border_enabled || effects.focused_border_width <= 1
            ==> res is Remove,
        !kind(state.layout@, focused).is_window()
            || state.layout@[focused as int].data.window.state is Fullscreen ==> res is Remove,
        !state.is_paused && effects.focused_border_enabled && effects.focused_border_width > 1
            && kind(state.layout@, focused).is_window()
            && !(state.layout@[focused as int].data.window.state is Fullscreen) ==> {
            &&& has_outline <==> res is Update
            &&& !has_outline <==> res is Create
        },
        res matches OutlineChange::Update(color, width) ==> width == effects.focused_border_width
            && (effects.resize_border_color is None ==> color == effects.focused_color),
        res matches OutlineChange::Create(color, width) ==> width == effects.focused_border_width
            && (effects.resize_border_color is None ==> color == effects.focused_color),
{
    let is_window = match state.layout.kind(focused) {
        ContainerKind::TilingWindow | ContainerKind::NonTilingWindow => true,
        _ => false,
    };
    if !is_window || !effects.focused_border_enabled || effects.focused_border_width <= 1
        || state.is_paused {
        return OutlineChange::Remove;
    }
    if let WindowState::Fullscreen(_) = state.layout.window(focused).state {
        return OutlineChange::Remove;
    }
    let color = effects.focused_border_color(&state.binding_modes);
    if has_outline {
        OutlineChange::Update(color, effects.focused_border_width)
    } else {
        OutlineChange::Create(color, effects.focused_border_width)
    }
}

/// Once an outline was drawn and placed, it is left alone until something else is seen.
pub proof fn placed_outline_is_kept(state: OutlineState, frame: Rect, radius: i32)
    ensures
        (OutlineState { last_shape: Some(shape_of(frame, radius)), ..state }).next_step(
            OutlineSight { frame: Some(frame), radius, outline: Some(frame) },
        ) == OutlineStep::Keep,
{
}

/// When a window is only moved, its outline is not drawn again.
pub proof fn moving_does_not_redraw(
    state: OutlineState,
    before: Rect,
    after: Rect,
    radius: i32,
    outline: Option<Rect>,
)
    requires
        state.last_shape == Some(shape_of(before, radius)),
        before.w() == after.w(),
        before.h() == after.h(),
    ensures
        !(state.next_step(OutlineSight { frame: Some(after), radius, outline }) is Draw),
{
}

/// After an update the outline of a window that can be seen is drawn again.
pub proof fn updating_redraws(target: isize, color: Color, width: u16, sight: OutlineSight)
    requires
        sight.frame matches Some(frame) && frame.w() > 0 && frame.h() > 0,
    ensures
        (OutlineState { target, color, width: width as i32, last_shape: None }).next_step(
            sight,
        ) is Draw,
{
}

/// The outline follows its window: it is hidden exactly where the window cannot be seen or has no
/// size, unless that was drawn already; it is placed on the window's frame and nowhere else; it is
/// drawn in the window's size and with its corners, where it was not drawn so before; and it is
/// left alone only where it is on the frame already.
pub proof fn outlines_follow_their_window(state: OutlineState, sight: OutlineSight)
    requires
        sight.frame matches Some(frame) ==> has_pixel_size(frame),
    ensures
        ({
            let step = state.next_step(sight);
            &&& sight.frame is None ==> step is Hide
            &&& step matches OutlineStep::Place(place) ==> sight.frame == Some(place)
                && sight.outline != Some(place) && state.last_shape is Some
            &&& step matches OutlineStep::Draw(shape) ==> {
                &&& sight.frame matches Some(frame)
                &&& shape.width == frame.w() && shape.height == frame.h()
                &&& shape.radius == sight.radius
                &&& frame.w() > 0 && frame.h() > 0
                &&& state.last_shape != Some(shape)
            }
            &&& step is Keep ==> sight.frame is Some && sight.outline == sight.frame
            &&& sight.frame matches Some(frame) ==> {
                &&& frame.w() > 0 && frame.h() > 0 ==> !(step is Hide)
                &&& (frame.w() <= 0 || frame.h() <= 0) && sight.outline != Some(frame)
                    ==> step is Hide
            }
        }),
{
}

} // verus!
