//! The state that an interactive viewer keeps between frames, and the events
//! it reports.
use vstd::prelude::*;
use crate::geometry::{Point, Shift};

verus! {

/// What the user asked for during a frame.
pub enum UserEvent {
    IncreaseChangeProb,
    MouseMoved(i32, i32),
    CloseApp,
    Selected(usize),
    Shift(Shift),
}

/// Where the mouse is, and which vertex is selected.
pub struct AdditionalState {
    pub mouse_x: i32,
    pub mouse_y: i32,
    pub selected: Option<usize>,
}

impl AdditionalState {
    /// The mouse at the origin and nothing selected.
    pub fn create() -> (r: Self)
        ensures
            r.mouse_x == 0,
            r.mouse_y == 0,
            r.selected is None,
    {
        Self { mouse_x: 0, mouse_y: 0, selected: None }
    }
}

/// The squared distance on screen, where a lattice step is ten pixels,
/// between the vertex at `p` and the pixel `(x, y)`.
pub open spec fn screen_d2(p: Point, x: int, y: int) -> int {
    (10 * p.x - x) * (10 * p.x - x) + (10 * p.y - y) * (10 * p.y - y)
}

/// The vertex nearest on screen to the pixel `(x, y)`, the first one among
/// equals, where it is less than a hundred pixels away.
pub fn closest_point(vertices: &[Point], x: i32, y: i32) -> (r: Option<usize>)
    ensures
        r matches Some(v) ==> {
            &&& v < vertices@.len()
            &&& screen_d2(vertices@[v as int], x as int, y as int) < 100 * 100
            &&& forall|j: int|
                0 <= j < vertices@.len() ==> screen_d2(vertices@[v as int], x as int, y as int)
                    <= screen_d2(#[trigger] vertices@[j], x as int, y as int)
            &&& forall|j: int|
                0 <= j < v ==> screen_d2(vertices@[v as int], x as int, y as int) < screen_d2(
                    #[trigger] vertices@[j],
                    x as int,
                    y as int,
                )
        },
        r is None ==> forall|j: int|
            0 <= j < vertices@.len() ==> screen_d2(#[trigger] vertices@[j], x as int, y as int) >= 100
                * 100,
{
    let mut closest: usize = 0;
    let mut best_d2: i128 = 0x7fff_ffff;
    for v in 0..vertices.len()
        invariant
            best_d2 <= 0x7fff_ffff,
            best_d2 < 0x7fff_ffff ==> closest < v && best_d2 == screen_d2(
                vertices@[closest as int],
                x as int,
                y as int,
            ),
            forall|j: int| 0 <= j < v ==> best_d2 <= screen_d2(#[trigger] vertices@[j], x as int, y as int),
            forall|j: int|
                0 <= j < closest && best_d2 < 0x7fff_ffff ==> best_d2 < screen_d2(
                    #[trigger] vertices@[j],
                    x as int,
                    y as int,
                ),
    {
        let p = vertices[v];
        let dx: i128 = 10 * (p.x as i128) - (x as i128);
        let dy: i128 = 10 * (p.y as i128) - (y as i128);
        assert(dx * dx <= 0x10_0000_0000_0000_0000_0000) by (nonlinear_arith)
            requires
                -0x10_0000_0000 <= dx <= 0x10_0000_0000,
        ;
        assert(dy * dy <= 0x10_0000_0000_0000_0000_0000) by (nonlinear_arith)
            requires
                -0x10_0000_0000 <= dy <= 0x10_0000_0000,
        ;
        assert(0 <= dx * dx && 0 <= dy * dy) by (nonlinear_arith);
        let d2 = dx * dx + dy * dy;
        if d2 < best_d2 {
            best_d2 = d2;
            closest = v;
        }
    }
    if best_d2 < 100 * 100 {
        Some(closest)
    } else {
        None
    }
}

/// What the editor has to do after an event.
pub enum Action {
    /// Nothing beyond the change of state.
    Nothing,
    /// Close the window.
    Close,
    /// Try to move vertex `.0` by `.1`.
    MoveSelected(usize, Shift),
}

impl AdditionalState {
    /// Updates the state with `event` and says what is to be done: a mouse
    /// move is recorded, a click selects a vertex, an arrow key asks to move
    /// the selected vertex, if any, and the escape key closes the window.
    pub fn handle(&mut self, event: &UserEvent) -> (r: Action)
        ensures
            match *event {
                UserEvent::IncreaseChangeProb => r is Nothing && *final(self) == *old(self),
                UserEvent::MouseMoved(x, y) => r is Nothing && final(self).mouse_x == x
                    && final(self).mouse_y == y && final(self).selected == old(self).selected,
                UserEvent::CloseApp => r is Close && *final(self) == *old(self),
                UserEvent::Selected(v) => r is Nothing && final(self).selected == Some(v)
                    && final(self).mouse_x == old(self).mouse_x && final(self).mouse_y == old(
                    self,
                ).mouse_y,
                UserEvent::Shift(sh) => *final(self) == *old(self) && match old(self).selected {
                    None => r is Nothing,
                    Some(v) => r == Action::MoveSelected(v, sh),
                },
            },
    {
        match event {
            UserEvent::IncreaseChangeProb => Action::Nothing,
            UserEvent::MouseMoved(x, y) => {
                self.mouse_x = *x;
                self.mouse_y = *y;
                Action::Nothing
            },
            UserEvent::CloseApp => Action::Close,
            UserEvent::Selected(v) => {
                self.selected = Some(*v);
                Action::Nothing
            },
            UserEvent::Shift(sh) => match self.selected {
                None => Action::Nothing,
                Some(v) => Action::MoveSelected(v, *sh),
            },
        }
    }
}

} // verus!
