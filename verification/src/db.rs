//! Records kept by the speed camera server.

use vstd::prelude::*;

use crate::protocol::{IAmCamera, Plate, PlateView};

verus! {

/// Error when assigning a client type.
#[derive(Debug, Clone, Copy, PartialEq, Eq, Structural)]
pub enum AssignError {
    InvalidClientType,
}

/// A plate seen by a camera, with the camera that saw it.
#[derive(Debug, Clone)]
pub struct PlateObservation {
    pub plate: Plate,
    pub camera: IAmCamera,
    pub camera_id: u32,
}

/// Mathematical value of a `PlateObservation`.
pub struct ObservationView {
    pub plate: PlateView,
    pub camera: IAmCamera,
    pub camera_id: u32,
}

impl View for PlateObservation {
    type V = ObservationView;

    open spec fn view(&self) -> ObservationView {
        ObservationView { plate: self.plate@, camera: self.camera, camera_id: self.camera_id }
    }
}

} // verus!
