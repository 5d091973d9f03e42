//! The client camera: zoom, storey focus and the selection marker.

use vstd::prelude::*;

use crate::identity::SimId;
use crate::snapshot::CottageSnapshot;

verus! {

/// The smallest display magnification.
pub const MIN_ZOOM: u8 = 1;

/// The largest display magnification.
pub const MAX_ZOOM: u8 = 4;

/// The highest storey the cottage shows.
pub const TOP_FLOOR: u8 = 1;

/// All camera state belongs to the client. Neither following nor floor focus
/// is represented in, or fed back to, the deterministic simulation.
#[derive(Clone, Copy, Debug, Eq, PartialEq, Structural)]
pub struct CottageCamera {
    pub follow_selected: bool,
    pub focused_floor: u8,
    pub zoom: u8,
}

impl Default for CottageCamera {
    fn default() -> (r: Self)
        ensures
            r == (CottageCamera { follow_selected: false, focused_floor: 0, zoom: 1 }),
    {
        // Start wide enough to read the cottage as a room rather than a
        // wall-to-wall field of tiles.
        CottageCamera { follow_selected: false, focused_floor: 0, zoom: 1 }
    }
}

/// A camera button on the card.
#[derive(Clone, Copy, Debug, Eq, PartialEq, Structural)]
pub enum CameraControl {
    Follow,
    Floor(u8),
}

/// The magnification one step in or out.
pub open spec fn zoomed(current: u8, inward: bool) -> u8 {
    let next = if inward {
        current + 1
    } else {
        current - 1
    };
    if next < MIN_ZOOM {
        MIN_ZOOM
    } else if next > MAX_ZOOM {
        MAX_ZOOM
    } else {
        next as u8
    }
}

/// Steps through only integral display magnifications, so a source pixel is
/// never filtered into a partial display pixel.
#[must_use]
pub fn bounded_zoom(current: u8, inward: bool) -> (r: u8)
    ensures
        r == zoomed(current, inward),
{
    if inward {
        if current >= MAX_ZOOM {
            MAX_ZOOM
        } else {
            current + 1
        }
    } else if current <= MIN_ZOOM {
        MIN_ZOOM
    } else if current > MAX_ZOOM {
        MAX_ZOOM
    } else {
        current - 1
    }
}

/// The authoritative current position, rather than an interpolated render
/// coordinate, determines which storey a following camera presents.
#[must_use]
pub fn followed_floor(authoritative_floor: u8) -> (r: u8)
    ensures
        r == if authoritative_floor < TOP_FLOOR {
            authoritative_floor
        } else {
            TOP_FLOOR
        },
{
    if authoritative_floor < TOP_FLOOR {
        authoritative_floor
    } else {
        TOP_FLOOR
    }
}

impl CottageCamera {
    /// A button is pressed. A manual floor choice is an explicit request to
    /// explore, rather than to remain locked onto the selected newcomer.
    pub open spec fn spec_pressed(self, control: CameraControl) -> CottageCamera {
        match control {
            CameraControl::Follow => CottageCamera {
                follow_selected: !self.follow_selected,
                ..self
            },
            CameraControl::Floor(floor) => CottageCamera {
                focused_floor: floor,
                follow_selected: false,
                ..self
            },
        }
    }

    /// A button is pressed.
    #[must_use]
    pub fn pressed(self, control: CameraControl) -> (r: CottageCamera)
        ensures
            r == self.spec_pressed(control),
    {
        match control {
            CameraControl::Follow => CottageCamera {
                follow_selected: !self.follow_selected,
                ..self
            },
            CameraControl::Floor(floor) => CottageCamera {
                focused_floor: floor,
                follow_selected: false,
                ..self
            },
        }
    }

    /// The wheel is turned.
    #[must_use]
    pub fn scrolled(self, inward: bool) -> (r: CottageCamera)
        ensures
            r == (CottageCamera { zoom: zoomed(self.zoom, inward), ..self }),
    {
        CottageCamera { zoom: bounded_zoom(self.zoom, inward), ..self }
    }

    /// The view is dragged: the camera no longer follows.
    #[must_use]
    pub fn dragged(self) -> (r: CottageCamera)
        ensures
            r == (CottageCamera { follow_selected: false, ..self }),
    {
        CottageCamera { follow_selected: false, ..self }
    }

    /// The camera that follows a selection: it focuses the storey that the
    /// selected resident's snapshot reports, as soon as it reports it. Nothing
    /// is followed without a selection that is shown.
    #[must_use]
    pub fn followed(self, selected: Option<SimId>, snapshot: &CottageSnapshot) -> (r: Option<
        CottageCamera,
    >)
        ensures
            match r {
                Some(camera) => {
                    &&& self.follow_selected
                    &&& selected is Some
                    &&& snapshot.shown(selected->0) is Some
                    &&& camera == (CottageCamera {
                        focused_floor: if snapshot.shown(selected->0)->0.position.floor
                            < TOP_FLOOR {
                            snapshot.shown(selected->0)->0.position.floor
                        } else {
                            TOP_FLOOR
                        },
                        ..self
                    })
                },
                None => !self.follow_selected || selected is None || snapshot.shown(
                    selected->0,
                ) is None,
            },
    {
        if !self.follow_selected {
            return None;
        }
        match selected {
            Some(id) => match snapshot.find_resident(id) {
                Some(resident) => Some(
                    CottageCamera {
                        focused_floor: followed_floor(resident.position.floor),
                        ..self
                    },
                ),
                None => None,
            },
            None => None,
        }
    }

    /// Whether something on a storey is visible.
    #[must_use]
    pub fn shows_floor(self, floor: u8) -> (r: bool)
        ensures
            r == (floor == self.focused_floor),
    {
        floor == self.focused_floor
    }

    /// Whether the selection marker is visible: it stays on the storey of its
    /// resident, so selecting someone on an unfocused floor reveals no stray
    /// highlight through the house.
    #[must_use]
    pub fn shows_marker(self, resident_floor: Option<u8>) -> (r: bool)
        ensures
            r == (resident_floor == Some(self.focused_floor)),
    {
        match resident_floor {
            Some(floor) => self.shows_floor(floor),
            None => false,
        }
    }
}

/// What the follow button shows.
#[must_use]
pub fn follow_label(follow_selected: bool) -> (r: &'static str)
    ensures
        r@ == if follow_selected {
            "Follow selected: on"@
        } else {
            "Follow selected: off"@
        },
{
    if follow_selected {
        "Follow selected: on"
    } else {
        "Follow selected: off"
    }
}

/// However the wheel is turned, the magnification stays within bounds.
pub proof fn law_zoom_stays_within_bounds(current: u8, inward: bool)
    ensures
        MIN_ZOOM <= zoomed(current, inward) <= MAX_ZOOM,
{
}

/// Pressing follow twice changes nothing.
pub proof fn law_follow_toggles(camera: CottageCamera)
    ensures
        camera.spec_pressed(CameraControl::Follow).spec_pressed(CameraControl::Follow) == camera,
{
}

} // verus!
