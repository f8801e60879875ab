//! Controllers of the OpenRGB server, their modes and their zones.
use vstd::prelude::*;

verus! {

/// A lighting controller.
#[derive(Clone)]
pub struct Controller {
    pub id: u32,
    pub name: String,
    pub vendor: String,
    pub description: String,
    pub location: String,
    pub active_mode: i32,
    pub modes: Vec<Mode>,
    pub led_count: usize,
    pub zones: Vec<Zone>,
}

/// An effect that a controller can show. `data` is its description as the server sent it.
#[derive(Clone, Debug)]
pub struct Mode {
    pub index: usize,
    pub name: String,
    pub value: i32,
    pub data: Vec<u8>,
}

/// A part of a controller: `count` LEDs from `start` on.
#[derive(Clone, Debug)]
pub struct Zone {
    pub index: usize,
    pub name: String,
    pub start: usize,
    pub count: usize,
}

/// The contents of a `Zone`.
#[verifier::ext_equal]
pub struct ZoneModel {
    pub index: int,
    pub name: Seq<char>,
    pub start: int,
    pub count: int,
}

/// The contents of a `Mode`.
#[verifier::ext_equal]
pub struct ModeModel {
    pub index: int,
    pub name: Seq<char>,
    pub value: int,
    pub data: Seq<u8>,
}

/// The contents of a `Controller`.
#[verifier::ext_equal]
pub struct ControllerModel {
    pub id: u32,
    pub name: Seq<char>,
    pub vendor: Seq<char>,
    pub description: Seq<char>,
    pub location: Seq<char>,
    pub active_mode: i32,
    pub modes: Seq<ModeModel>,
    pub led_count: int,
    pub zones: Seq<ZoneModel>,
}

impl View for Zone {
    type V = ZoneModel;

    open spec fn view(&self) -> ZoneModel {
        ZoneModel {
            index: self.index as int,
            name: self.name@,
            start: self.start as int,
            count: self.count as int,
        }
    }
}

impl View for Mode {
    type V = ModeModel;

    open spec fn view(&self) -> ModeModel {
        ModeModel {
            index: self.index as int,
            name: self.name@,
            value: self.value as int,
            data: self.data@,
        }
    }
}

/// The contents of several zones.
pub open spec fn zone_models(zones: Seq<Zone>) -> Seq<ZoneModel> {
    Seq::new(zones.len(), |i: int| zones[i]@)
}

/// The contents of several modes.
pub open spec fn mode_models(modes: Seq<Mode>) -> Seq<ModeModel> {
    Seq::new(modes.len(), |i: int| modes[i]@)
}

impl View for Controller {
    type V = ControllerModel;

    open spec fn view(&self) -> ControllerModel {
        ControllerModel {
            id: self.id,
            name: self.name@,
            vendor: self.vendor@,
            description: self.description@,
            location: self.location@,
            active_mode: self.active_mode,
            modes: mode_models(self.modes@),
            led_count: self.led_count as int,
            zones: zone_models(self.zones@),
        }
    }
}

/// The contents of controllers, modes and zones are their fields.
pub proof fn contents_are_fields(controller: Controller, mode: Mode, zone: Zone)
    ensures
        zone@.index == zone.index,
        zone@.name == zone.name@,
        zone@.start == zone.start,
        zone@.count == zone.count,
        mode@.index == mode.index,
        mode@.name == mode.name@,
        mode@.value == mode.value,
        mode@.data == mode.data@,
        controller@.id == controller.id,
        controller@.name == controller.name@,
        controller@.vendor == controller.vendor@,
        controller@.description == controller.description@,
        controller@.location == controller.location@,
        controller@.active_mode == controller.active_mode,
        controller@.led_count == controller.led_count,
        controller@.modes.len() == controller.modes@.len(),
        forall|i: int|
            0 <= i < controller.modes@.len() ==> controller@.modes[i]
                == (#[trigger] controller.modes@[i])@,
        controller@.zones.len() == controller.zones@.len(),
        forall|i: int|
            0 <= i < controller.zones@.len() ==> controller@.zones[i]
                == (#[trigger] controller.zones@[i])@,
{
}

} // verus!
