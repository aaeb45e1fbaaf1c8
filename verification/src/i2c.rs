//! Light controller protocol: logical operations over the raw byte driver.
//!
//! Each controller unit answers a fixed identity byte on register 0x00 and
//! its endpoint count on register 0x01; the light levels follow as 16-bit
//! big-endian pairs. A unit is present only if the identity byte matches;
//! an I/O error while probing an address means "not present" and never
//! aborts a scan, while an I/O error on a unit that already confirmed its
//! identity is a transport fault for the whole operation. Level writes are
//! validated — exact length, every value within the 16-bit range — before
//! any byte goes out on the bus.

use vstd::prelude::*;

use crate::errors::LightError;
use crate::mapper;
use crate::models::{NewDevices, Points};
use crate::props::{
    CONTROLLER_IDENTITY, I2C_LIGHT_LEVEL_START_OFFSET, I2C_RANGE_MAX, I2C_RANGE_MIN,
    LIGHT_LEVEL_MAX, LIGHT_LEVEL_MIN,
};
use crate::reconcile::unit_adrs_unique;

use i2cdev::linux::{LinuxI2CBus, LinuxI2CError, LinuxI2CMessage};

verus! {

#[verifier::external_type_specification]
#[verifier::external_body]
pub struct ExLinuxI2CBus(LinuxI2CBus);

#[verifier::external_type_specification]
#[verifier::external_body]
pub struct ExLinuxI2CError(LinuxI2CError);

/// Raw byte-level access to the bus: the given primitive the protocol is
/// built on.
struct Driver {
    con: LinuxI2CBus,
}

impl Driver {
    /// Relies on i2cdev's `LinuxI2CBus::new`: opens the bus device node,
    /// trying the flat name first and the directory name second, and hands
    /// back the bus or the underlying error.
    #[verifier::external_body]
    fn open(connection: u8) -> (r: Result<LinuxI2CBus, LinuxI2CError>) {
        match LinuxI2CBus::new(format!("/dev/i2c-{}", connection)) {
            Ok(v) => Ok(v),
            Err(_) => LinuxI2CBus::new(format!("/dev/i2c/{}", connection)),
        }
    }

    fn new(connection: u8) -> (r: Result<Driver, LightError>) {
        match Self::open(connection) {
            Ok(con) => Ok(Driver { con }),
            Err(_) => Err(LightError::Transport),
        }
    }

    /// Relies on i2cdev's `LinuxI2CBus::transfer` with one write and one
    /// read message: writes the register byte to the addressed unit and
    /// reads one byte back.
    #[verifier::external_body]
    fn read_byte(&mut self, address: u16, register: u8) -> (r: Result<u8, LinuxI2CError>) {
        let mut read_data = [0];
        let request = [register];
        let mut msgs = [
            <LinuxI2CMessage as i2cdev::core::I2CMessage>::write(&request).with_address(address),
            <LinuxI2CMessage as i2cdev::core::I2CMessage>::read(&mut read_data).with_address(
                address,
            ),
        ];
        <LinuxI2CBus as i2cdev::core::I2CTransfer>::transfer(&mut self.con, &mut msgs)?;
        Ok(read_data[0])
    }

    /// Relies on i2cdev's `LinuxI2CBus::transfer` with one write message:
    /// writes the bytes to the addressed unit as one contiguous burst.
    #[verifier::external_body]
    fn write_bytes(&mut self, address: u16, values: Vec<u8>) -> (r: Result<(), LinuxI2CError>) {
        let mut msgs = [
            <LinuxI2CMessage as i2cdev::core::I2CMessage>::write(&values).with_address(address),
        ];
        <LinuxI2CBus as i2cdev::core::I2CTransfer>::transfer(&mut self.con, &mut msgs)?;
        Ok(())
    }
}

/// Whether an identity byte names a light controller.
pub fn identity_matches(identity: u8) -> (r: bool)
    ensures
        r == (identity == CONTROLLER_IDENTITY),
{
    identity == CONTROLLER_IDENTITY
}

/// Reassemble big-endian byte pairs into levels.
pub fn decode_levels(bytes: &Vec<u8>) -> (r: Vec<i32>)
    requires
        bytes@.len() % 2 == 0,
    ensures
        r@.len() == bytes@.len() / 2,
        forall|i: int|
            0 <= i < r@.len() ==> #[trigger] r@[i] == 256 * (bytes@[2 * i] as int) + (bytes@[2 * i
                + 1] as int),
        forall|i: int| 0 <= i < r@.len() ==> LIGHT_LEVEL_MIN <= #[trigger] r@[i] <= LIGHT_LEVEL_MAX,
{
    let mut r: Vec<i32> = Vec::new();
    let count = bytes.len() / 2;
    let mut i: usize = 0;
    while i < count
        invariant
            i <= count,
            bytes@.len() % 2 == 0,
            bytes@.len() <= usize::MAX,
            count == bytes@.len() / 2,
            r@.len() == i,
            forall|t: int|
                0 <= t < i ==> #[trigger] r@[t] == 256 * (bytes@[2 * t] as int) + (bytes@[2 * t
                    + 1] as int),
        decreases count - i,
    {
        proof {
            assert(bytes@.len() == 2 * count);
        }
        let hi = bytes[2 * i];
        let lo = bytes[2 * i + 1];
        let val: i32 = 256 * (hi as i32) + (lo as i32);
        r.push(val);
        i += 1;
    }
    r
}

/// Serialize levels big-endian, two bytes each.
pub fn encode_levels(values: &Vec<i32>) -> (r: Vec<u8>)
    requires
        forall|i: int|
            0 <= i < values@.len() ==> LIGHT_LEVEL_MIN <= #[trigger] values@[i]
                <= LIGHT_LEVEL_MAX,
    ensures
        r@.len() == 2 * values@.len(),
        forall|i: int|
            0 <= i < values@.len() ==> (#[trigger] r@[2 * i]) as int == values@[i] / 256 && r@[2
                * i + 1] as int == values@[i] % 256,
{
    let mut r: Vec<u8> = Vec::new();
    let mut i: usize = 0;
    while i < values.len()
        invariant
            i <= values@.len(),
            forall|t: int|
                0 <= t < values@.len() ==> LIGHT_LEVEL_MIN <= #[trigger] values@[t]
                    <= LIGHT_LEVEL_MAX,
            r@.len() == 2 * i,
            forall|t: int|
                0 <= t < i ==> (#[trigger] r@[2 * t]) as int == values@[t] / 256 && r@[2 * t
                    + 1] as int == values@[t] % 256,
        decreases values@.len() - i,
    {
        let v = values[i];
        r.push((v / 256) as u8);
        r.push((v % 256) as u8);
        proof {
            assert(r@[2 * (i as int)] == ((v / 256) as u8));
            assert(r@[2 * (i as int) + 1] == ((v % 256) as u8));
            assert forall|t: int|
                0 <= t < i implies (#[trigger] r@[2 * t]) as int == values@[t] / 256 && r@[2 * t
                + 1] as int == values@[t] % 256 by {
                assert(r@[2 * t] == r@.subrange(0, 2 * (i as int))[2 * t]);
                assert(r@[2 * t + 1] == r@.subrange(0, 2 * (i as int))[2 * t + 1]);
            }
        }
        i += 1;
    }
    r
}

/// Accepts a level array exactly when its length equals the unit's
/// endpoint count and every value lies within the 16-bit range; otherwise
/// the protocol violation is rejected before any byte is written.
pub fn validate_levels(values: &Vec<i32>, endpoint_count: u8) -> (r: Result<(), LightError>)
    ensures
        r is Ok <==> values@.len() == endpoint_count && (forall|i: int|
            0 <= i < values@.len() ==> LIGHT_LEVEL_MIN <= #[trigger] values@[i]
                <= LIGHT_LEVEL_MAX),
        r is Err ==> r == Result::<(), LightError>::Err(LightError::InvalidInput),
{
    if values.len() != endpoint_count as usize {
        return Err(LightError::InvalidInput);
    }
    let mut i: usize = 0;
    while i < values.len()
        invariant
            i <= values@.len(),
            forall|t: int|
                0 <= t < i ==> LIGHT_LEVEL_MIN <= #[trigger] values@[t] <= LIGHT_LEVEL_MAX,
        decreases values@.len() - i,
    {
        if values[i] < LIGHT_LEVEL_MIN || values[i] > LIGHT_LEVEL_MAX {
            return Err(LightError::InvalidInput);
        }
        i += 1;
    }
    Ok(())
}

/// A handle on the bus, speaking the controller protocol.
pub struct LightDevices {
    driver: Driver,
}

impl LightDevices {
    /// Open the bus.
    pub fn new(connection: u8) -> (r: Result<LightDevices, LightError>) {
        match Driver::new(connection) {
            Ok(driver) => Ok(LightDevices { driver }),
            Err(e) => Err(e),
        }
    }

    /// Check that the bus can be opened.
    pub fn test(connection: u8) -> (r: Result<(), LightError>) {
        match Driver::new(connection) {
            Ok(_) => Ok(()),
            Err(e) => Err(e),
        }
    }

    /// The point-to-device mapper; see [`mapper::convert_points`].
    pub fn convert_points(points: Vec<Points>, override_active: bool) -> (r: Vec<(i32, Vec<i32>)>)
        ensures
            r@.map_values(|e: (i32, Vec<i32>)| e.0) == mapper::device_ids(points@),
            forall|j: int|
                0 <= j < r@.len() ==> (#[trigger] r@[j]).1@ == mapper::spec_levels(
                    points@,
                    r@[j].0,
                    override_active,
                ),
    {
        mapper::convert_points(points, override_active)
    }

    /// Probe one address for a controller unit: read the identity register
    /// and answer the identity byte only when it names a controller. An I/O
    /// error, like a wrong byte, means "not present" and is never fatal.
    pub fn probe(&mut self, address: u16) -> (r: Option<u8>)
        ensures
            r matches Some(b) ==> b == CONTROLLER_IDENTITY,
    {
        match self.driver.read_byte(address, 0x00) {
            Ok(v) => {
                if identity_matches(v) {
                    Some(v)
                } else {
                    None
                }
            },
            Err(_) => None,
        }
    }

    /// Endpoint count of the unit at `address`: absent when the identity
    /// probe answers the wrong byte, a transport fault when the bus fails.
    fn get_controller_endpoint_count(&mut self, address: u16) -> (r: Result<u8, LightError>)
        ensures
            r is Err ==> r == Result::<u8, LightError>::Err(LightError::NotPresent) || r
                == Result::<u8, LightError>::Err(LightError::Transport),
    {
        let identity = match self.driver.read_byte(address, 0x00) {
            Ok(v) => v,
            Err(_) => {
                return Err(LightError::Transport);
            },
        };
        if !identity_matches(identity) {
            return Err(LightError::NotPresent);
        }
        match self.driver.read_byte(address, 0x01) {
            Ok(v) => Ok(v),
            Err(_) => Err(LightError::Transport),
        }
    }

    /// The raw level bytes of the unit at `address`: two per endpoint.
    fn get_light_controller_light_levels(&mut self, address: u16) -> (r: Result<
        Vec<u8>,
        LightError,
    >)
        ensures
            r matches Ok(v) ==> v@.len() % 2 == 0,
    {
        let endpoint_count = match self.get_controller_endpoint_count(address) {
            Ok(v) => v,
            Err(e) => {
                return Err(e);
            },
        };
        let total: usize = (endpoint_count as usize) * 2;
        let mut result: Vec<u8> = Vec::new();
        let mut i: usize = 0;
        while i < total
            invariant
                i <= total <= 510,
                result@.len() == i,
            decreases total - i,
        {
            let register: u8 = (((I2C_LIGHT_LEVEL_START_OFFSET as usize) + i) % 256) as u8;
            let level = match self.driver.read_byte(address, register) {
                Ok(v) => v,
                Err(_) => {
                    return Err(LightError::Transport);
                },
            };
            result.push(level);
            i += 1;
        }
        Ok(result)
    }

    /// Current levels of the unit at `address`, reassembled big-endian.
    /// Every level a unit can answer lies within the 16-bit range.
    pub fn get_light_levels(&mut self, address: u16) -> (r: Result<Vec<i32>, LightError>)
        ensures
            r matches Ok(v) ==> forall|i: int|
                0 <= i < v@.len() ==> LIGHT_LEVEL_MIN <= #[trigger] v@[i] <= LIGHT_LEVEL_MAX,
    {
        let light_bits = match self.get_light_controller_light_levels(address) {
            Ok(v) => v,
            Err(e) => {
                return Err(e);
            },
        };
        Ok(decode_levels(&light_bits))
    }

    /// Write one level per endpoint to the unit at `address`, big-endian,
    /// as one contiguous burst. An array whose length differs from the
    /// unit's endpoint count, or any value outside the 16-bit range, is
    /// rejected as a protocol violation without a byte written; a value out
    /// of range is rejected before the bus is touched at all.
    pub fn set_light_levels(&mut self, address: u16, values: Vec<i32>) -> (r: Result<
        (),
        LightError,
    >)
        ensures
            (exists|i: int|
                0 <= i < values@.len() && !(LIGHT_LEVEL_MIN <= #[trigger] values@[i]
                    <= LIGHT_LEVEL_MAX)) ==> r == Result::<(), LightError>::Err(
                LightError::InvalidInput,
            ),
            values@.len() > 255 ==> r is Err,
    {
        // the range check touches no hardware
        let mut i: usize = 0;
        while i < values.len()
            invariant
                i <= values@.len(),
                forall|t: int|
                    0 <= t < i ==> LIGHT_LEVEL_MIN <= #[trigger] values@[t] <= LIGHT_LEVEL_MAX,
            decreases values@.len() - i,
        {
            if values[i] < LIGHT_LEVEL_MIN || values[i] > LIGHT_LEVEL_MAX {
                return Err(LightError::InvalidInput);
            }
            i += 1;
        }
        let endpoint_count = match self.get_controller_endpoint_count(address) {
            Ok(v) => v,
            Err(e) => {
                return Err(e);
            },
        };
        match validate_levels(&values, endpoint_count) {
            Ok(_) => {},
            Err(e) => {
                return Err(e);
            },
        }
        let converted = encode_levels(&values);
        match self.driver.write_bytes(address, converted) {
            Ok(_) => Ok(()),
            Err(_) => Err(LightError::Transport),
        }
    }

    /// Scan the whole address range for controller units. An I/O error or a
    /// wrong identity at one address means "nothing there" and the scan
    /// goes on; a bus fault on a unit that confirmed its identity aborts
    /// the scan. Addresses come back strictly ascending, so no two units
    /// share one.
    fn get_controller_identities(&mut self) -> (r: Result<Vec<(u16, u8)>, LightError>)
        ensures
            r matches Ok(units) ==> {
                &&& forall|k: int|
                    0 <= k < units@.len() ==> I2C_RANGE_MIN <= (#[trigger] units@[k]).0
                        < I2C_RANGE_MAX
                &&& forall|k1: int, k2: int|
                    0 <= k1 < k2 < units@.len() ==> units@[k1].0 < units@[k2].0
            },
    {
        let mut device_map: Vec<(u16, u8)> = Vec::new();
        let mut adr: u16 = I2C_RANGE_MIN;
        while adr < I2C_RANGE_MAX
            invariant
                I2C_RANGE_MIN <= adr <= I2C_RANGE_MAX,
                forall|k: int|
                    0 <= k < device_map@.len() ==> I2C_RANGE_MIN <= (#[trigger] device_map@[k]).0
                        < adr,
                forall|k1: int, k2: int|
                    0 <= k1 < k2 < device_map@.len() ==> device_map@[k1].0 < device_map@[k2].0,
            decreases I2C_RANGE_MAX - adr,
        {
            match self.probe(adr) {
                Some(_) => {},
                None => {
                    adr += 1;
                    continue ;
                },
            }
            let controlled_count = match self.get_controller_endpoint_count(adr) {
                Ok(v) => v,
                Err(e) => {
                    return Err(e);
                },
            };
            device_map.push((adr, controlled_count));
            adr += 1;
        }
        Ok(device_map)
    }

    /// Discover the controller units on the bus, as rows ready to persist.
    /// Each discovered address appears exactly once, within the scanned
    /// range, with the endpoint count the unit reported.
    pub fn controllers(&mut self) -> (r: Result<Vec<NewDevices>, LightError>)
        ensures
            r matches Ok(units) ==> {
                &&& unit_adrs_unique(units@)
                &&& forall|k: int|
                    0 <= k < units@.len() ==> I2C_RANGE_MIN <= (#[trigger] units@[k]).adr
                        < I2C_RANGE_MAX
                &&& forall|k: int|
                    0 <= k < units@.len() ==> 0 <= (#[trigger] units@[k]).endpoint_count <= 255
            },
    {
        let found = match self.get_controller_identities() {
            Ok(v) => v,
            Err(e) => {
                return Err(e);
            },
        };
        let mut result: Vec<NewDevices> = Vec::new();
        let mut i: usize = 0;
        while i < found.len()
            invariant
                i <= found@.len(),
                result@.len() == i,
                forall|k: int|
                    0 <= k < found@.len() ==> I2C_RANGE_MIN <= (#[trigger] found@[k]).0
                        < I2C_RANGE_MAX,
                forall|k1: int, k2: int|
                    0 <= k1 < k2 < found@.len() ==> found@[k1].0 < found@[k2].0,
                forall|k: int|
                    0 <= k < i ==> (#[trigger] result@[k]).adr == found@[k].0 as i32
                        && result@[k].endpoint_count == found@[k].1 as i32,
            decreases found@.len() - i,
        {
            let (adr, endpoint_count) = found[i];
            result.push(NewDevices { adr: adr as i32, endpoint_count: endpoint_count as i32 });
            i += 1;
        }
        proof {
            assert forall|k1: int, k2: int|
                0 <= k1 < k2 < result@.len() implies (|u: NewDevices| u.adr as int)(result@[k1])
                != (|u: NewDevices| u.adr as int)(result@[k2]) by {
                assert(found@[k1].0 < found@[k2].0);
            }
        }
        Ok(result)
    }
}

} // verus!
