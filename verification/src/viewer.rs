//! The interactive viewer: two panes side by side, and what each event makes of them.

use vstd::prelude::*;

use crate::bits::ZERO;
use crate::order::is_far_to_near;
use crate::ply::error::PlyError;
use crate::scene::{
    color_source, draw_depths, draws_of, lemma_draws_are_the_visible, lemma_sorted_far_first,
    ordered_draws, preprocess, preprocess_sorted, Background, Draw, Gaussian,
};
use crate::text::{chars_of, same_text};

verus! {

/// The widths of the left and the right pane of a surface: its two halves, the right one with the
/// odd pixel, and neither of them empty.
pub open spec fn pane_widths(width: u32) -> (u32, u32) {
    (
        if width / 2 >= 1 {
            width / 2
        } else {
            1
        },
        if width - width / 2 >= 1 {
            (width - width / 2) as u32
        } else {
            1
        },
    )
}

/// Splits a surface's width into those of the left and the right pane.
pub fn split_widths(width: u32) -> (widths: (u32, u32))
    ensures
        widths == pane_widths(width),
{
    let left: u32 = width / 2;
    let right: u32 = width - width / 2;
    (
        if left >= 1 {
            left
        } else {
            1
        },
        if right >= 1 {
            right
        } else {
            1
        },
    )
}

/// How a pane composites its gaussians.
#[derive(Clone, Copy, Debug, PartialEq, Eq, Structural)]
pub enum Method {
    /// Poly-splat and Weighted Sum Rendering: in any order, with the colors of degree zero.
    Wsr,
    /// Standard gaussian splatting: from far to near, with view-dependent colors.
    Gs,
}

impl Method {
    /// Half the size of a gaussian's quad in standard deviations: 2, where a poly-splat ends, or
    /// 3, for the tail of an exponential.
    pub fn radius_sigma(&self) -> (sigmas: u32)
        ensures
            sigmas == match self {
                Method::Wsr => 0x4000_0000u32,
                Method::Gs => 0x4040_0000u32,
            },
    {
        match self {
            Method::Wsr => 0x4000_0000,
            Method::Gs => 0x4040_0000,
        }
    }
}

/// A pane: its scene, and how it is composited.
pub struct Pane {
    pub method: Method,
    pub gaussians: Vec<Gaussian>,
}

impl Pane {
    pub fn new(method: Method, gaussians: Vec<Gaussian>) -> (pane: Pane)
        ensures
            pane.method == method,
            pane.gaussians == gaussians,
    {
        Pane { method, gaussians }
    }

    /// Shows another scene.
    pub fn set_scene(&mut self, gaussians: Vec<Gaussian>)
        ensures
            final(self).method == old(self).method,
            final(self).gaussians == gaussians,
    {
        self.gaussians = gaussians;
    }

    /// Whether these are the draws of the pane's gaussians, which have these depths.
    pub open spec fn shows(self, depths: Seq<u32>, draws: Seq<Draw>) -> bool {
        match self.method {
            Method::Wsr => draws == draws_of(
                self.gaussians@,
                depths,
                false,
                self.gaussians@.len(),
            ),
            Method::Gs => exists|order: Seq<usize>| #[trigger]
                is_far_to_near(
                    draw_depths(
                        draws_of(self.gaussians@, depths, true, self.gaussians@.len()),
                        depths,
                    ),
                    order,
                ) && draws == ordered_draws(self.gaussians@, depths, true, order),
        }
    }

    /// The draws of the pane's gaussians, which have these depths: for standard splatting from far
    /// to near.
    pub fn instances_for(&self, depths: &[u32]) -> (draws: Vec<Draw>)
        requires
            self.gaussians@.len() == depths@.len(),
        ensures
            match self.method {
                Method::Wsr => draws@ == draws_of(
                    self.gaussians@,
                    depths@,
                    false,
                    self.gaussians@.len(),
                ),
                Method::Gs => {
                    let all = draws_of(self.gaussians@, depths@, true, self.gaussians@.len());
                    exists|order: Seq<usize>| #[trigger]
                        is_far_to_near(draw_depths(all, depths@), order) && draws@
                            == order.map_values(|i: usize| all[i as int])
                },
            },
            forall|k: int|
                0 <= k < draws@.len() ==> (#[trigger] draws@[k]).index < self.gaussians@.len(),
            self.shows(depths@, draws@),
    {
        match self.method {
            Method::Wsr => preprocess(self.gaussians.as_slice(), depths, false),
            Method::Gs => preprocess_sorted(self.gaussians.as_slice(), depths, true),
        }
    }
}

/// The two panes.
pub struct Panes {
    /// Left.
    pub pane_a: Pane,
    /// Right.
    pub pane_b: Pane,
}

impl Panes {
    /// The viewer's panes: Weighted Sum Rendering on the left, standard splatting on the right.
    pub fn new(left: Vec<Gaussian>, right: Vec<Gaussian>) -> (panes: Panes)
        ensures
            panes.pane_a.method == Method::Wsr,
            panes.pane_a.gaussians == left,
            panes.pane_b.method == Method::Gs,
            panes.pane_b.gaussians == right,
    {
        Panes { pane_a: Pane::new(Method::Wsr, left), pane_b: Pane::new(Method::Gs, right) }
    }

    /// The panes after one of them was given another scene.
    pub open spec fn after_scene(self, pane: usize, gaussians: Vec<Gaussian>) -> Panes {
        if pane == 0 {
            Panes { pane_a: Pane { gaussians, ..self.pane_a }, ..self }
        } else {
            Panes { pane_b: Pane { gaussians, ..self.pane_b }, ..self }
        }
    }

    /// Shows another scene in one pane: the left one for zero, the right one otherwise.
    pub fn set_scene_pane(&mut self, pane: usize, gaussians: Vec<Gaussian>)
        ensures
            final(self).pane_a.method == old(self).pane_a.method,
            final(self).pane_b.method == old(self).pane_b.method,
            pane == 0 ==> final(self).pane_a.gaussians == gaussians && final(self).pane_b == old(
                self,
            ).pane_b,
            pane != 0 ==> final(self).pane_b.gaussians == gaussians && final(self).pane_a == old(
                self,
            ).pane_a,
            *final(self) == old(self).after_scene(pane, gaussians),
    {
        if pane == 0 {
            self.pane_a.set_scene(gaussians);
        } else {
            self.pane_b.set_scene(gaussians);
        }
    }
}

/// How many backgrounds there are to cycle through.
pub const PRESETS: usize = 3;

/// The weight and the color of a preset: black, white (on which models of the Weighted Sum
/// Rendering route are trained, with the weight 0.0486), and dark slate.
pub open spec fn preset_of(i: int) -> (u32, Seq<u32>) {
    if i == 0 {
        (0x3ca3_d70a, seq![ZERO, ZERO, ZERO])
    } else if i == 1 {
        (0x3d47_10cb, seq![0x3f80_0000u32, 0x3f80_0000u32, 0x3f80_0000u32])
    } else {
        (0x3ca3_d70a, seq![0x3dcc_cccdu32, 0x3dcc_cccdu32, 0x3df5_c28fu32])
    }
}

/// The background of a preset.
pub fn preset(i: usize) -> (bg: Background)
    requires
        i < PRESETS,
    ensures
        (bg.w_b, bg.c_b@) == preset_of(i as int),
{
    let bg = if i == 0 {
        Background { w_b: 0x3ca3_d70a, c_b: [ZERO, ZERO, ZERO] }
    } else if i == 1 {
        Background { w_b: 0x3d47_10cb, c_b: [0x3f80_0000, 0x3f80_0000, 0x3f80_0000] }
    } else {
        Background { w_b: 0x3ca3_d70a, c_b: [0x3dcc_cccd, 0x3dcc_cccd, 0x3df5_c28f] }
    };
    assert(bg.c_b@ =~= preset_of(i as int).1);
    bg
}

/// Which of a surface's formats is used: the first that is sRGB, or else the first of all.
pub fn pick_format(srgb: &[bool]) -> (picked: usize)
    requires
        srgb@.len() > 0,
    ensures
        picked < srgb@.len(),
        srgb@[picked as int] ==> forall|i: int| 0 <= i < picked ==> !#[trigger] srgb@[i],
        !srgb@[picked as int] ==> picked == 0 && forall|i: int|
            0 <= i < srgb@.len() ==> !#[trigger] srgb@[i],
{
    let mut i: usize = 0;
    while i < srgb.len()
        invariant
            i <= srgb@.len(),
            forall|k: int| 0 <= k < i ==> !#[trigger] srgb@[k],
        decreases srgb@.len() - i,
    {
        if srgb[i] {
            return i;
        }
        i += 1;
    }
    0
}

/// A position of the cursor: the bit patterns of its double-precision coordinates, and the pixel
/// column that it is in (`x` rounded down).
#[derive(Clone, Copy, Debug, PartialEq, Eq, Structural)]
pub struct Cursor {
    pub x: u64,
    pub y: u64,
    pub column: i64,
}

#[derive(Clone, Copy, Debug, PartialEq, Eq, Structural)]
pub enum Button {
    Left,
    Right,
    Other,
}

/// Why a frame could not be drawn.
#[derive(Clone, Copy, Debug, PartialEq, Eq, Structural)]
pub enum SurfaceFailure {
    Lost,
    Outdated,
    OutOfMemory,
    Other,
}

/// What happens to the viewer.
pub enum Event {
    CloseRequested,
    Resized { width: u32, height: u32 },
    /// A file with this extension was dropped onto the window.
    DroppedFile { extension: Option<String> },
    /// A file for this pane was read, and holds this many gaussians.
    Loaded { pane: usize, gaussians: usize },
    /// A key that writes this text went down or up.
    Key { pressed: bool, text: Option<String> },
    Mouse { button: Button, pressed: bool },
    CursorMoved { cursor: Cursor },
    /// The wheel was turned.
    Wheel,
    RedrawRequested,
    DrawFailed { failure: SurfaceFailure },
}

/// What is to be done about an event.
#[derive(Clone, Copy, Debug, PartialEq, Eq, Structural)]
pub enum Action {
    Nothing,
    /// End the program.
    Exit,
    /// Make the surface as large as its window, and split it into two panes.
    Resize { width: u32, height: u32 },
    /// Read the file that was dropped, for this pane.
    Load { pane: usize },
    /// Show what was read in this pane, and put the camera in front of it.
    SetScene { pane: usize },
    /// Put this preset behind both panes.
    SetBackground { preset: usize },
    /// Turn the camera, move its target, or both, as far as the cursor went.
    Drag { orbit: bool, pan: bool, from: Cursor, to: Cursor },
    /// Move the camera towards its target, or away from it.
    Zoom,
    /// Draw a frame.
    Draw,
}

/// What the viewer keeps from one event to the next.
#[derive(Clone, Copy, Debug, PartialEq, Eq, Structural)]
pub struct Controls {
    /// The size of the window.
    pub width: u32,
    pub height: u32,
    pub bg_preset: usize,
    /// The left button is down.
    pub dragging: bool,
    /// The right button is down.
    pub panning: bool,
    /// Where the cursor was last seen.
    pub cursor: Option<Cursor>,
    /// Where the cursor was last seen since the left button went up.
    pub last_cursor: Option<Cursor>,
}

/// The pane that a pixel column of a surface lies in: zero for the left one, one for the right.
pub open spec fn pane_at(width: u32, column: i64) -> usize {
    if column < pane_widths(width).0 {
        0
    } else {
        1
    }
}

/// The larger of a size and one.
pub open spec fn at_least_one(size: u32) -> u32 {
    if size >= 1 {
        size
    } else {
        1
    }
}

impl Controls {
    /// There is a preset of this number, and the cursor was last seen in one place.
    pub open spec fn wf(self) -> bool {
        &&& self.bg_preset < PRESETS
        &&& self.last_cursor is Some ==> self.last_cursor == self.cursor
    }

    /// The controls of a new window.
    pub fn new(width: u32, height: u32) -> (controls: Controls)
        ensures
            controls.wf(),
            controls == (Controls {
                width,
                height,
                bg_preset: 0,
                dragging: false,
                panning: false,
                cursor: None,
                last_cursor: None,
            }),
    {
        Controls {
            width,
            height,
            bg_preset: 0,
            dragging: false,
            panning: false,
            cursor: None,
            last_cursor: None,
        }
    }

    /// The size of the surface: that of the window, but not empty.
    pub fn surface_size(&self) -> (size: (u32, u32))
        ensures
            size == (at_least_one(self.width), at_least_one(self.height)),
    {
        (
            if self.width >= 1 {
                self.width
            } else {
                1
            },
            if self.height >= 1 {
                self.height
            } else {
                1
            },
        )
    }

    /// The background that the panes have.
    pub fn current_bg(&self) -> (bg: Background)
        requires
            self.wf(),
        ensures
            (bg.w_b, bg.c_b@) == preset_of(self.bg_preset as int),
    {
        preset(self.bg_preset)
    }

    /// The pane that a pixel column of the surface lies in.
    pub fn pane_at_x(&self, column: i64) -> (pane: usize)
        ensures
            pane == pane_at(at_least_one(self.width), column),
    {
        let (width, _) = self.surface_size();
        let (left, _) = split_widths(width);
        if column < left as i64 {
            0
        } else {
            1
        }
    }

    /// The controls, and what is to be done, after the window took this size. An empty window
    /// changes nothing.
    pub open spec fn after_resize(self, width: u32, height: u32) -> (Controls, Action) {
        if width == 0 || height == 0 {
            (self, Action::Nothing)
        } else {
            (Controls { width, height, ..self }, Action::Resize { width, height })
        }
    }

    /// The controls, and what is to be done, after an event.
    pub open spec fn after(self, event: Event) -> (Controls, Action) {
        match event {
            Event::CloseRequested => (self, Action::Exit),
            Event::Resized { width, height } => self.after_resize(width, height),
            Event::DroppedFile { extension } => if extension is Some && extension->0@ == "ply"@ {
                let pane = match self.cursor {
                    Some(cursor) => pane_at(at_least_one(self.width), cursor.column),
                    None => 0,
                };
                (self, Action::Load { pane })
            } else {
                (self, Action::Nothing)
            },
            Event::Loaded { pane, gaussians } => if gaussians > 0 {
                (self, Action::SetScene { pane })
            } else {
                (self, Action::Nothing)
            },
            Event::Key { pressed, text } => if pressed && text is Some && text->0@ == "b"@ {
                self.after_cycle()
            } else {
                (self, Action::Nothing)
            },
            Event::Mouse { button, pressed } => {
                let controls = match button {
                    Button::Left => Controls {
                        dragging: pressed,
                        last_cursor: if pressed {
                            self.last_cursor
                        } else {
                            None
                        },
                        ..self
                    },
                    Button::Right => Controls { panning: pressed, ..self },
                    Button::Other => self,
                };
                (controls, Action::Nothing)
            },
            Event::CursorMoved { cursor } => {
                let controls = Controls {
                    cursor: Some(cursor),
                    last_cursor: Some(cursor),
                    ..self
                };
                let orbit = self.dragging && self.last_cursor is Some;
                let pan = self.panning && self.cursor is Some;
                if orbit || pan {
                    (controls, Action::Drag { orbit, pan, from: self.cursor->0, to: cursor })
                } else {
                    (controls, Action::Nothing)
                }
            },
            Event::Wheel => (self, Action::Zoom),
            Event::RedrawRequested => (self, Action::Draw),
            Event::DrawFailed { failure } => match failure {
                SurfaceFailure::Lost | SurfaceFailure::Outdated => self.after_resize(
                    self.width,
                    self.height,
                ),
                SurfaceFailure::OutOfMemory => (self, Action::Exit),
                SurfaceFailure::Other => (self, Action::Nothing),
            },
        }
    }

    /// The controls, and what is to be done, after the next background was asked for.
    pub open spec fn after_cycle(self) -> (Controls, Action) {
        let next = ((self.bg_preset + 1) % PRESETS as int) as usize;
        (Controls { bg_preset: next, ..self }, Action::SetBackground { preset: next })
    }

    /// Goes on to the next background.
    pub fn cycle_background(&mut self) -> (action: Action)
        requires
            old(self).wf(),
        ensures
            final(self).wf(),
            (*final(self), action) == old(self).after_cycle(),
    {
        self.bg_preset = (self.bg_preset + 1) % PRESETS;
        Action::SetBackground { preset: self.bg_preset }
    }

    /// Takes note of the window's size.
    pub fn resize(&mut self, width: u32, height: u32) -> (action: Action)
        requires
            old(self).wf(),
        ensures
            final(self).wf(),
            (*final(self), action) == old(self).after_resize(width, height),
    {
        if width == 0 || height == 0 {
            return Action::Nothing;
        }
        self.width = width;
        self.height = height;
        Action::Resize { width, height }
    }

    /// Takes note of a mouse button.
    fn mouse_input(&mut self, button: Button, pressed: bool)
        requires
            old(self).wf(),
        ensures
            final(self).wf(),
            *final(self) == old(self).after(Event::Mouse { button, pressed }).0,
    {
        match button {
            Button::Left => {
                self.dragging = pressed;
                if !pressed {
                    self.last_cursor = None;
                }
            },
            Button::Right => {
                self.panning = pressed;
            },
            Button::Other => {},
        }
    }

    /// Takes note of the cursor.
    fn cursor_moved(&mut self, cursor: Cursor) -> (action: Action)
        requires
            old(self).wf(),
        ensures
            final(self).wf(),
            (*final(self), action) == old(self).after(Event::CursorMoved { cursor }),
    {
        let orbit = self.dragging && self.last_cursor.is_some();
        let action = match self.cursor {
            Some(from) => if orbit || self.panning {
                Action::Drag { orbit, pan: self.panning, from, to: cursor }
            } else {
                Action::Nothing
            },
            None => Action::Nothing,
        };
        self.cursor = Some(cursor);
        self.last_cursor = Some(cursor);
        action
    }

    /// Takes in an event: says what is to be done, and keeps what later events need.
    pub fn step(&mut self, event: &Event) -> (action: Action)
        requires
            old(self).wf(),
        ensures
            final(self).wf(),
            (*final(self), action) == old(self).after(*event),
    {
        match event {
            Event::CloseRequested => Action::Exit,
            Event::Resized { width, height } => self.resize(*width, *height),
            Event::DroppedFile { extension } => {
                if is_text(extension, "ply") {
                    let pane = match self.cursor {
                        Some(cursor) => self.pane_at_x(cursor.column),
                        None => 0,
                    };
                    Action::Load { pane }
                } else {
                    Action::Nothing
                }
            },
            Event::Loaded { pane, gaussians } => if *gaussians > 0 {
                Action::SetScene { pane: *pane }
            } else {
                Action::Nothing
            },
            Event::Key { pressed, text } => {
                if *pressed && is_text(text, "b") {
                    self.cycle_background()
                } else {
                    Action::Nothing
                }
            },
            Event::Mouse { button, pressed } => {
                self.mouse_input(*button, *pressed);
                Action::Nothing
            },
            Event::CursorMoved { cursor } => self.cursor_moved(*cursor),
            Event::Wheel => Action::Zoom,
            Event::RedrawRequested => Action::Draw,
            Event::DrawFailed { failure } => match failure {
                SurfaceFailure::Lost | SurfaceFailure::Outdated => {
                    let (width, height) = (self.width, self.height);
                    self.resize(width, height)
                },
                SurfaceFailure::OutOfMemory => Action::Exit,
                SurfaceFailure::Other => Action::Nothing,
            },
        }
    }
}

/// Whether there is a text, and it is this one.
fn is_text(text: &Option<String>, expected: &str) -> (yes: bool)
    ensures
        yes == (text is Some && text->0@ == expected@),
{
    match text {
        Some(text) => {
            let chars = chars_of(text.as_str());
            same_text(chars.as_slice(), expected)
        },
        None => false,
    }
}

/// What a page has asked for and the viewer has not done yet.
pub struct Pending {
    /// A scene, and the pane that it is for.
    pub scene: Option<(usize, Vec<Gaussian>)>,
    /// The next background.
    pub cycle: bool,
}

impl Pending {
    pub fn new() -> (pending: Pending)
        ensures
            pending.scene is None,
            !pending.cycle,
    {
        Pending { scene: None, cycle: false }
    }

    /// What is asked for after a file for a pane was read, or could not be.
    pub open spec fn after_load(self, pane: u32, read: Option<Vec<Gaussian>>) -> Pending {
        match read {
            Some(gaussians) => if gaussians@.len() > 0 {
                let side = if pane == 0 {
                    0usize
                } else {
                    1usize
                };
                Pending { scene: Some((side, gaussians)), ..self }
            } else {
                self
            },
            None => self,
        }
    }

    /// Asks for a scene in a pane: the left one for zero, the right one otherwise. A scene without
    /// gaussians is not taken.
    pub fn load_ply_into(&mut self, pane: u32, gaussians: Vec<Gaussian>) -> (taken: bool)
        ensures
            taken == (gaussians@.len() > 0),
            final(self).cycle == old(self).cycle,
            taken ==> final(self).scene == Some(
                (
                    if pane == 0 {
                        0usize
                    } else {
                        1usize
                    },
                    gaussians,
                ),
            ),
            !taken ==> final(self).scene == old(self).scene,
            *final(self) == old(self).after_load(pane, Some(gaussians)),
    {
        if gaussians.len() == 0 {
            return false;
        }
        let pane: usize = if pane == 0 {
            0
        } else {
            1
        };
        self.scene = Some((pane, gaussians));
        true
    }

    /// Asks for the scene of a file in a pane: the left one for zero, the right one otherwise. A
    /// file that could not be read, or has no gaussians, is not taken, and what was asked for
    /// before stays.
    pub fn load_parsed(
        &mut self,
        pane: u32,
        parsed: Result<Vec<Gaussian>, PlyError>,
    ) -> (taken: bool)
        ensures
            taken == (parsed is Ok && parsed->Ok_0@.len() > 0),
            final(self).cycle == old(self).cycle,
            taken ==> final(self).scene == Some(
                (
                    if pane == 0 {
                        0usize
                    } else {
                        1usize
                    },
                    parsed->Ok_0,
                ),
            ),
            !taken ==> final(self).scene == old(self).scene,
            *final(self) == old(self).after_load(
                pane,
                if parsed is Ok {
                    Some(parsed->Ok_0)
                } else {
                    None
                },
            ),
    {
        match parsed {
            Ok(gaussians) => self.load_ply_into(pane, gaussians),
            Err(_) => false,
        }
    }

    /// Asks for the next background.
    pub fn cycle_background(&mut self)
        ensures
            final(self).cycle,
            final(self).scene == old(self).scene,
    {
        self.cycle = true;
    }

    /// Hands out what was asked for, once.
    pub fn take(&mut self) -> (asked: (Option<(usize, Vec<Gaussian>)>, bool))
        ensures
            asked == (old(self).scene, old(self).cycle),
            final(self).scene is None,
            !final(self).cycle,
    {
        let scene = self.scene.take();
        let cycle = self.cycle;
        self.cycle = false;
        (scene, cycle)
    }
}

/// The two panes share a surface: each is at least one pixel wide, the right one is at most one
/// pixel wider, together they take all of a surface that has room for both, and a pixel column of
/// it lies in the pane that covers it.
pub proof fn lemma_panes_share_the_surface(width: u32, column: i64)
    ensures
        pane_widths(width).0 >= 1,
        pane_widths(width).0 <= pane_widths(width).1 <= pane_widths(width).0 + 1,
        width >= 2 ==> pane_widths(width).0 + pane_widths(width).1 == width,
        width >= 2 ==> (pane_at(width, column) == 0 <==> column < width / 2),
        width < 2 ==> pane_widths(width) == (1u32, 1u32),
        width < 2 ==> (pane_at(width, column) == 0 <==> column < 1),
        pane_at(width, column) <= 1,
{
}

/// The backgrounds are cycled through: each of the presets comes once before the first comes
/// again, and nothing else changes.
pub proof fn lemma_backgrounds_cycle(controls: Controls)
    requires
        controls.wf(),
    ensures
        ({
            let second = controls.after_cycle().0;
            let third = second.after_cycle().0;
            &&& second.bg_preset != controls.bg_preset
            &&& third.bg_preset != controls.bg_preset
            &&& third.bg_preset != second.bg_preset
            &&& third.after_cycle().0 == controls
        }),
{
}

/// The controls after all these events.
pub open spec fn after_all(controls: Controls, events: Seq<Event>) -> Controls
    decreases events.len(),
{
    if events.len() == 0 {
        controls
    } else {
        after_all(controls, events.drop_last()).after(events.last()).0
    }
}

/// Whatever happens, there is a preset of the background's number, and a window that is not empty
/// does not become empty.
pub proof fn lemma_events_keep_controls(controls: Controls, events: Seq<Event>)
    requires
        controls.wf(),
    ensures
        after_all(controls, events).wf(),
        controls.width > 0 && controls.height > 0 ==> after_all(controls, events).width > 0
            && after_all(controls, events).height > 0,
    decreases events.len(),
{
    if events.len() > 0 {
        lemma_events_keep_controls(controls, events.drop_last());
    }
}

/// Nothing but the key `b` changes the background; what is shown behind one scene stays when
/// another is loaded.
pub proof fn lemma_background_stays(controls: Controls, event: Event)
    requires
        !(event matches Event::Key { pressed, text } && pressed && text is Some && text->0@
            == "b"@),
    ensures
        controls.after(event).0.bg_preset == controls.bg_preset,
        !(controls.after(event).1 is SetBackground),
{
}

/// The camera is turned or moved only while a button is down: turned with the left one, moved with
/// the right one, and from where the cursor was last seen.
pub proof fn lemma_drags_need_a_button(controls: Controls, event: Event)
    requires
        controls.wf(),
    ensures
        controls.after(event).1 matches Action::Drag { orbit, pan, from, to } ==> {
            &&& orbit || pan
            &&& orbit ==> controls.dragging && controls.last_cursor == Some(from)
            &&& pan ==> controls.panning
            &&& controls.cursor == Some(from)
            &&& event == Event::CursorMoved { cursor: to }
            &&& controls.after(event).0.cursor == Some(to)
        },
{
}

/// While the left button stays up, no event turns the camera.
pub proof fn lemma_no_orbit_without_left(controls: Controls, events: Seq<Event>, event: Event)
    requires
        !controls.dragging,
        forall|i: int|
            0 <= i < events.len() ==> #[trigger] events[i] != (Event::Mouse {
                button: Button::Left,
                pressed: true,
            }),
    ensures
        !after_all(controls, events).dragging,
        after_all(controls, events).after(event).1 matches Action::Drag {
            orbit,
            pan,
            from,
            to,
        } ==> !orbit,
    decreases events.len(),
{
    if events.len() > 0 {
        let before = events.drop_last();
        assert forall|i: int| 0 <= i < before.len() implies #[trigger] before[i] != (Event::Mouse {
            button: Button::Left,
            pressed: true,
        }) by {
            assert(before[i] == events[i]);
        }
        lemma_no_orbit_without_left(controls, before, event);
        assert(events.last() == events[events.len() - 1]);
    }
}

/// While the right button stays up, no event moves the camera's target.
pub proof fn lemma_no_pan_without_right(controls: Controls, events: Seq<Event>, event: Event)
    requires
        !controls.panning,
        forall|i: int|
            0 <= i < events.len() ==> #[trigger] events[i] != (Event::Mouse {
                button: Button::Right,
                pressed: true,
            }),
    ensures
        !after_all(controls, events).panning,
        after_all(controls, events).after(event).1 matches Action::Drag {
            orbit,
            pan,
            from,
            to,
        } ==> !pan,
    decreases events.len(),
{
    if events.len() > 0 {
        let before = events.drop_last();
        assert forall|i: int| 0 <= i < before.len() implies #[trigger] before[i] != (Event::Mouse {
            button: Button::Right,
            pressed: true,
        }) by {
            assert(before[i] == events[i]);
        }
        lemma_no_pan_without_right(controls, before, event);
        assert(events.last() == events[events.len() - 1]);
    }
}

/// A drag ends with its button: when the left one has gone up, the next move of the cursor does not
/// turn the camera, and when the right one has, it does not move the target.
pub proof fn lemma_release_ends_a_drag(controls: Controls, button: Button, cursor: Cursor)
    ensures
        controls.after(Event::Mouse { button, pressed: false }).0.after(
            Event::CursorMoved { cursor },
        ).1 matches Action::Drag { orbit, pan, from, to } ==> {
            &&& button is Left ==> !orbit
            &&& button is Right ==> !pan
        },
{
}

/// The buttons do not disturb each other: whatever the right one does, the camera is turned as far
/// as it would have been, and whatever the left one does, the target is moved as far.
pub proof fn lemma_buttons_are_independent(controls: Controls, pressed: bool, cursor: Cursor)
    requires
        controls.wf(),
    ensures
        ({
            let moved = Event::CursorMoved { cursor };
            let right = controls.after(Event::Mouse { button: Button::Right, pressed }).0;
            let left = controls.after(Event::Mouse { button: Button::Left, pressed }).0;
            &&& turns_from(right.after(moved).1) == turns_from(controls.after(moved).1)
            &&& moves_from(left.after(moved).1) == moves_from(controls.after(moved).1)
        }),
{
}

/// From where the cursor turns the camera, if it does.
pub open spec fn turns_from(action: Action) -> Option<Cursor> {
    match action {
        Action::Drag { orbit, pan, from, to } => if orbit {
            Some(from)
        } else {
            None
        },
        _ => None,
    }
}

/// From where the cursor moves the camera's target, if it does.
pub open spec fn moves_from(action: Action) -> Option<Cursor> {
    match action {
        Action::Drag { orbit, pan, from, to } => if pan {
            Some(from)
        } else {
            None
        },
        _ => None,
    }
}

/// A `.ply` file is shown in the pane under the cursor: whatever else has happened since the cursor
/// was last seen, a file that is dropped goes to the pane that it was seen over.
pub proof fn lemma_drop_goes_under_the_cursor(
    controls: Controls,
    cursor: Cursor,
    events: Seq<Event>,
    extension: String,
)
    requires
        forall|i: int| 0 <= i < events.len() ==> !(#[trigger] events[i] is CursorMoved),
        extension@ == "ply"@,
    ensures
        ({
            let now = after_all(controls.after(Event::CursorMoved { cursor }).0, events);
            &&& now.cursor == Some(cursor)
            &&& now.after(Event::DroppedFile { extension: Some(extension) }).1 == (Action::Load {
                pane: pane_at(at_least_one(now.width), cursor.column),
            })
        }),
    decreases events.len(),
{
    if events.len() > 0 {
        let before = events.drop_last();
        assert forall|i: int| 0 <= i < before.len() implies !(#[trigger] before[i] is CursorMoved) by {
            assert(before[i] == events[i]);
        }
        lemma_drop_goes_under_the_cursor(controls, cursor, before, extension);
        assert(events.last() == events[events.len() - 1]);
    }
}

/// While a button is down no movement is lost: the second of two moves is dragged from where the
/// first one ended.
pub proof fn lemma_drags_join(controls: Controls, a: Cursor, b: Cursor)
    requires
        controls.dragging || controls.panning,
    ensures
        controls.after(Event::CursorMoved { cursor: a }).0.after(
            Event::CursorMoved { cursor: b },
        ).1 == (Action::Drag {
            orbit: controls.dragging,
            pan: controls.panning,
            from: a,
            to: b,
        }),
{
}

/// A file that was read is shown in the pane that it was loaded for: whatever happens between, the
/// pane of a request to load is the pane whose scene is set when the file has been read.
pub proof fn lemma_file_is_shown_where_it_was_dropped(
    controls: Controls,
    dropped: Event,
    later: Controls,
    pane: usize,
    gaussians: usize,
)
    requires
        gaussians > 0,
    ensures
        later.after(Event::Loaded { pane, gaussians }).1 == (Action::SetScene { pane }),
        controls.after(dropped).1 matches Action::Load { pane: asked } ==> later.after(
            Event::Loaded { pane: asked, gaussians },
        ).1 == (Action::SetScene { pane: asked }),
        later.after(Event::Loaded { pane, gaussians: 0 }).1 == Action::Nothing,
        later.after(Event::Loaded { pane, gaussians }).0 == later,
        later.after(Event::Loaded { pane, gaussians: 0 }).0 == later,
{
}

/// A `.ply` file that is dropped before the cursor was seen goes to the left pane; a file of
/// another kind goes nowhere; and dropping a file changes no control.
pub proof fn lemma_dropped_files(controls: Controls, extension: Option<String>)
    ensures
        controls.after(Event::DroppedFile { extension }).0 == controls,
        extension is Some && extension->0@ == "ply"@ && controls.cursor is None ==> controls.after(
            Event::DroppedFile { extension },
        ).1 == (Action::Load { pane: 0 }),
        extension is Some && extension->0@ == "ply"@ && controls.cursor is Some && controls.width
            >= 2 ==> controls.after(Event::DroppedFile { extension }).1 == (Action::Load {
            pane: if controls.cursor->0.column < controls.width / 2 {
                0
            } else {
                1
            },
        }),
        extension is None ==> controls.after(Event::DroppedFile { extension }).1
            == Action::Nothing,
        extension is Some && extension->0@ != "ply"@ ==> controls.after(
            Event::DroppedFile { extension },
        ).1 == Action::Nothing,
{
}

/// The surface follows the window: it is asked to take exactly the window's size, unless that is
/// empty, and nothing else changes.
pub proof fn lemma_resizing(controls: Controls, width: u32, height: u32)
    ensures
        width > 0 && height > 0 ==> controls.after(Event::Resized { width, height }).1 == (
        Action::Resize { width, height }),
        width > 0 && height > 0 ==> controls.after(Event::Resized { width, height }).0 == (
        Controls { width, height, ..controls }),
        width == 0 || height == 0 ==> controls.after(Event::Resized { width, height }) == (
            controls,
            Action::Nothing,
        ),
{
}

/// A surface that was lost is made anew in the size that the window was last given; a viewer
/// without memory ends; and any other failure is passed over.
pub proof fn lemma_failures(controls: Controls, width: u32, height: u32)
    requires
        width > 0,
        height > 0,
    ensures
        ({
            let sized = controls.after(Event::Resized { width, height }).0;
            let lost = Event::DrawFailed { failure: SurfaceFailure::Lost };
            let outdated = Event::DrawFailed { failure: SurfaceFailure::Outdated };
            &&& sized.after(lost) == (sized, Action::Resize { width, height })
            &&& sized.after(outdated) == (sized, Action::Resize { width, height })
        }),
        controls.after(Event::DrawFailed { failure: SurfaceFailure::OutOfMemory }) == (
            controls,
            Action::Exit,
        ),
        controls.after(Event::DrawFailed { failure: SurfaceFailure::Other }) == (
            controls,
            Action::Nothing,
        ),
        controls.width == 0 || controls.height == 0 ==> controls.after(
            Event::DrawFailed { failure: SurfaceFailure::Lost },
        ) == (controls, Action::Nothing) && controls.after(
            Event::DrawFailed { failure: SurfaceFailure::Outdated },
        ) == (controls, Action::Nothing),
{
}

/// Events that change no control: closing ends the viewer, the wheel zooms, and a redraw draws.
/// Nothing else does any of these, but for a failure that ends the viewer.
pub proof fn lemma_plain_events(controls: Controls, event: Event)
    ensures
        event is CloseRequested ==> controls.after(event) == (controls, Action::Exit),
        event is Wheel ==> controls.after(event) == (controls, Action::Zoom),
        event is RedrawRequested ==> controls.after(event) == (controls, Action::Draw),
        controls.after(event).1 is Exit ==> event is CloseRequested || event == (
        Event::DrawFailed { failure: SurfaceFailure::OutOfMemory }),
        controls.after(event).1 is Zoom ==> event is Wheel,
        controls.after(event).1 is Draw ==> event is RedrawRequested,
        controls.after(event).1 is Load ==> event is DroppedFile,
        controls.after(event).1 is SetScene ==> event is Loaded,
        controls.after(event).1 is Drag ==> event is CursorMoved,
        controls.after(event).1 is Resize ==> event is Resized || event is DrawFailed,
{
}

/// The key `b`, going down, shows the next preset behind both panes; other keys do nothing.
pub proof fn lemma_keys(controls: Controls, pressed: bool, text: Option<String>)
    requires
        controls.wf(),
    ensures
        ({
            let (next, action) = controls.after(Event::Key { pressed, text });
            let cycles = pressed && text is Some && text->0@ == "b"@;
            &&& cycles ==> action == (Action::SetBackground { preset: next.bg_preset })
            &&& cycles ==> next == (Controls { bg_preset: next.bg_preset, ..controls })
            &&& cycles && controls.bg_preset < 2 ==> next.bg_preset == controls.bg_preset + 1
            &&& cycles && controls.bg_preset == 2 ==> next.bg_preset == 0
            &&& !cycles ==> next == controls && action == Action::Nothing
        }),
{
}

/// A button is down from when it was pressed until it is released, and touches nothing of the
/// other one.
pub proof fn lemma_buttons(controls: Controls, pressed: bool)
    ensures
        ({
            let left = controls.after(Event::Mouse { button: Button::Left, pressed });
            let right = controls.after(Event::Mouse { button: Button::Right, pressed });
            let other = controls.after(Event::Mouse { button: Button::Other, pressed });
            &&& left.0.dragging == pressed
            &&& left.0 == (Controls {
                dragging: pressed,
                last_cursor: left.0.last_cursor,
                ..controls
            })
            &&& pressed ==> left.0.last_cursor == controls.last_cursor
            &&& !pressed ==> left.0.last_cursor is None
            &&& right.0 == (Controls { panning: pressed, ..controls })
            &&& other.0 == controls
            &&& left.1 == Action::Nothing
            &&& right.1 == Action::Nothing
            &&& other.1 == Action::Nothing
        }),
{
}

/// A move of the cursor is noted, and drags exactly where a button is down and it is known from
/// where: the camera is turned from where the cursor was last seen since the left button went up,
/// and its target is moved from where the cursor was last seen at all.
pub proof fn lemma_cursor_moves(controls: Controls, cursor: Cursor)
    requires
        controls.wf(),
    ensures
        ({
            let (next, action) = controls.after(Event::CursorMoved { cursor });
            &&& next == (Controls {
                cursor: Some(cursor),
                last_cursor: Some(cursor),
                ..controls
            })
            &&& turns_from(action) == if controls.dragging {
                controls.last_cursor
            } else {
                None
            }
            &&& moves_from(action) == if controls.panning {
                controls.cursor
            } else {
                None
            }
            &&& action is Drag ==> action->to == cursor
            &&& action is Drag || action == Action::Nothing
            &&& action is Drag ==> action->orbit || action->pan
        }),
{
}

/// The size of the surface is that of the window where that is not empty, and one pixel otherwise.
pub proof fn lemma_at_least_one(size: u32)
    ensures
        size > 0 ==> at_least_one(size) == size,
        size == 0 ==> at_least_one(size) == 1,
{
}

/// There are three presets: black and white with all channels alike, and a dark one, bluer than it
/// is red or green; white has the largest weight.
pub proof fn lemma_presets()
    ensures
        preset_of(0).1 == seq![0u32, 0u32, 0u32],
        preset_of(1).1 == seq![0x3f80_0000u32, 0x3f80_0000u32, 0x3f80_0000u32],
        preset_of(2).1 == seq![0x3dcc_cccdu32, 0x3dcc_cccdu32, 0x3df5_c28fu32],
        preset_of(0).0 == preset_of(2).0 == 0x3ca3_d70au32,
        preset_of(1).0 == 0x3d47_10cbu32,
{
}

/// A page's last scene counts, in the pane that it named: the left one for zero, the right one for
/// any other number. A file without gaussians, or one that could not be read, leaves what was
/// asked for before, and no file asks for a background.
pub proof fn lemma_last_scene_counts(
    pending: Pending,
    pane: u32,
    first: Option<Vec<Gaussian>>,
    gaussians: Vec<Gaussian>,
)
    ensures
        pending.after_load(pane, first).cycle == pending.cycle,
        first is None ==> pending.after_load(pane, first) == pending,
        first is Some && first->0@.len() == 0 ==> pending.after_load(pane, first) == pending,
        gaussians@.len() > 0 ==> {
            let last = pending.after_load(pane, first).after_load(pane, Some(gaussians));
            &&& last == pending.after_load(pane, Some(gaussians))
            &&& pane == 0 ==> last.scene == Some((0usize, gaussians))
            &&& pane != 0 ==> last.scene == Some((1usize, gaussians))
        },
{
}

/// A scene that is set is that of the pane it is for, as it is; the other pane keeps its own, and
/// both keep their methods.
pub proof fn lemma_one_pane_changes(panes: Panes, pane: usize, gaussians: Vec<Gaussian>)
    ensures
        ({
            let after = panes.after_scene(pane, gaussians);
            &&& after.pane_a.method == panes.pane_a.method
            &&& after.pane_b.method == panes.pane_b.method
            &&& pane == 0 ==> after.pane_a.gaussians == gaussians
            &&& pane == 0 ==> after.pane_b.gaussians == panes.pane_b.gaussians
            &&& pane != 0 ==> after.pane_b.gaussians == gaussians
            &&& pane != 0 ==> after.pane_a.gaussians == panes.pane_a.gaussians
        }),
{
}

/// Weighted Sum Rendering draws in the order of the scene, and without higher coefficients;
/// standard splatting draws nothing before what is farther, by the bit patterns of the depths.
pub proof fn lemma_panes_draw_by_method(
    pane: Pane,
    depths: Seq<u32>,
    draws: Seq<Draw>,
    i: int,
    j: int,
)
    requires
        pane.gaussians@.len() == depths.len() <= usize::MAX,
        pane.shows(depths, draws),
        0 <= i < j < draws.len(),
    ensures
        pane.method is Wsr ==> draws[i].index < draws[j].index && draws[i].color is Dc
            && draws[j].color is Dc,
        pane.method is Gs ==> {
            let a = depths[draws[i].index as int];
            let b = depths[draws[j].index as int];
            &&& a < 0x8000_0000 && b < 0x8000_0000 ==> a >= b
            &&& a >= 0x8000_0000 && b >= 0x8000_0000 ==> a <= b
            &&& a >= 0x8000_0000 ==> b >= 0x8000_0000
            &&& a == b ==> draws[i].index < draws[j].index
        },
{
    let all = pane.gaussians@;
    match pane.method {
        Method::Wsr => {
            lemma_draws_are_the_visible(all, depths, false, all.len());
            assert(color_source(all[draws[i].index as int], false) is Dc);
            assert(color_source(all[draws[j].index as int], false) is Dc);
        },
        Method::Gs => {
            let order = choose|order: Seq<usize>| #[trigger]
                is_far_to_near(
                    draw_depths(draws_of(all, depths, true, all.len()), depths),
                    order,
                ) && draws == ordered_draws(all, depths, true, order);
            lemma_sorted_far_first(all, depths, true, order, i, j);
        },
    }
}

} // verus!
