//! Persisted records the core works on.
//!
//! A `Devices` row stands for one physical controller unit on the bus; a
//! `Points` row stands for one endpoint's configured state. Geometry and
//! display attributes of a point (size, placement, rotation, wattage) are
//! owned by the request layer and never read by the core, so they are not
//! carried here; the core reads the identity, wire-order and level fields
//! only.

use vstd::prelude::*;

verus! {

/// Persisted record for one controller unit.
#[derive(Clone, Copy, Debug, PartialEq, Eq, Structural)]
pub struct Devices {
    /// Persistence identity key.
    pub id: i32,
    /// Bus address; hardware identity key, at most one row per address.
    pub adr: i32,
    /// Number of endpoints the unit exposes.
    pub endpoint_count: i32,
}

/// A controller unit as discovered on the bus, before it has a row.
#[derive(Clone, Copy, Debug, PartialEq, Eq, Structural)]
pub struct NewDevices {
    pub adr: i32,
    pub endpoint_count: i32,
}

/// Persisted record for one endpoint.
#[derive(Debug, PartialEq)]
pub struct Points {
    /// Persistence identity key.
    pub id: i32,
    /// The device that owns this point.
    pub device_id: i32,
    /// Wire-order index within the device; unique per device.
    pub device_position: i32,
    /// Light level, `0 ..= 65535`.
    pub val: i32,
    /// When false the mapper suppresses `val` to 0.
    pub active: bool,
    /// Free-form label.
    pub tag: Option<String>,
}

impl Clone for Points {
    /// An exact copy of the record.
    fn clone(&self) -> (r: Points)
        ensures
            r == *self,
    {
        Points {
            id: self.id,
            device_id: self.device_id,
            device_position: self.device_position,
            val: self.val,
            active: self.active,
            tag: match &self.tag {
                Some(t) => Some(t.clone()),
                None => None,
            },
        }
    }
}

} // verus!
