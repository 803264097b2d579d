//! The closed set of known sentence kinds and talker ids, and the field-slot
//! record for each known sentence kind.
use crate::messages::gll_addr;
use crate::messages::spec_decode_opt_byte;
use crate::messages::spec_decode_opt_decimal;
use crate::messages::AddrField;
use crate::messages::Decimal;
use crate::messages::FromSlice;
use crate::messages::MessageFields;
use crate::messages::MessagesMap;
use crate::NmeaError;
use vstd::prelude::*;

verus! {

/// Tag for the known sentence kinds. Dispatch matches the address key to one
/// of these variants instead of run-time type identity checks.
#[derive(Clone, Copy, Debug, PartialEq, Eq, Structural)]
pub enum NmeaMessages {
    GLL,
}

/// The originating subsystems whose 2-letter prefixes the address parser
/// recognizes. `P` (proprietary) is a 1-letter prefix and is never matched by
/// the 2-byte talker check.
#[derive(Clone, Copy, Debug, PartialEq, Eq, Structural)]
pub enum TalkerIds {
    GP,  // GPS
    GL,  // Glonass
    GA,  // Galileo
    GQ,  // QZSS
    GB,  // BeiDou
    BD,  // BeiDou (alternate)
    GN,  // GNSS
    AI,  // AIS
    AG,  // Autopilot General
    AP,  // Autopilot Magnetic
    IN,  // Integrated Navigation
    II,  // Integrated Instrumentation
    P,  // Proprietary
    RA,  // Radar
    SD,  // Sounder, depth
    SS,  // Sounder, scanning
    TI,  // Turn Rate Indicator
    VD,  // Velocity doppler
    VM,  // Speed log, water, magnetic
    VW,  // Speed log, water, mechanical
    WI,  // Weather Instruments
}

/// The fixed 2-byte talker-id table, as a predicate over the two prefix
/// bytes (ASCII, e.g. `GP` is `0x47 0x50`).
pub open spec fn spec_is_talker_id(a: u8, b: u8) -> bool {
    ||| (a == 0x47 && b == 0x50)  // GP
    ||| (a == 0x47 && b == 0x4C)  // GL
    ||| (a == 0x47 && b == 0x41)  // GA
    ||| (a == 0x47 && b == 0x51)  // GQ
    ||| (a == 0x47 && b == 0x42)  // GB
    ||| (a == 0x42 && b == 0x44)  // BD
    ||| (a == 0x47 && b == 0x4E)  // GN
    ||| (a == 0x41 && b == 0x49)  // AI
    ||| (a == 0x41 && b == 0x47)  // AG
    ||| (a == 0x41 && b == 0x50)  // AP
    ||| (a == 0x49 && b == 0x4E)  // IN
    ||| (a == 0x49 && b == 0x49)  // II
    ||| (a == 0x52 && b == 0x41)  // RA
    ||| (a == 0x53 && b == 0x44)  // SD
    ||| (a == 0x53 && b == 0x53)  // SS
    ||| (a == 0x54 && b == 0x49)  // TI
    ||| (a == 0x56 && b == 0x44)  // VD
    ||| (a == 0x56 && b == 0x4D)  // VM
    ||| (a == 0x56 && b == 0x57)  // VW
    ||| (a == 0x57 && b == 0x49)  // WI
}

/// Whether a 2-byte token is one of the fixed talker-id prefixes.
pub fn is_talker_id(v: &[u8]) -> (r: bool)
    requires
        v@.len() == 2,
    ensures
        r == spec_is_talker_id(v@[0], v@[1]),
{
    let a = v[0];
    let b = v[1];
    (a == 0x47 && b == 0x50) || (a == 0x47 && b == 0x4C) || (a == 0x47 && b == 0x41) || (a == 0x47
        && b == 0x51) || (a == 0x47 && b == 0x42) || (a == 0x42 && b == 0x44) || (a == 0x47 && b
        == 0x4E) || (a == 0x41 && b == 0x49) || (a == 0x41 && b == 0x47) || (a == 0x41 && b == 0x50)
        || (a == 0x49 && b == 0x4E) || (a == 0x49 && b == 0x49) || (a == 0x52 && b == 0x41) || (a
        == 0x53 && b == 0x44) || (a == 0x53 && b == 0x53) || (a == 0x54 && b == 0x49) || (a == 0x56
        && b == 0x44) || (a == 0x56 && b == 0x4D) || (a == 0x56 && b == 0x57) || (a == 0x57 && b
        == 0x49)
}

/// Field-slot record of a GLL (geographic position) sentence: latitude,
/// its hemisphere letter, longitude, its hemisphere letter. All four slots
/// are optional; a sentence with no fix leaves them absent.
#[derive(Clone, Copy, Debug, PartialEq, Eq, Structural)]
pub struct NmeaGllMessage {
    pub lat: Option<Decimal>,
    pub lat_dir: Option<u8>,
    pub lon: Option<Decimal>,
    pub lon_dir: Option<u8>,
}

/// A GLL record with every slot absent.
pub open spec fn spec_gll_cleared() -> NmeaGllMessage {
    NmeaGllMessage { lat: None, lat_dir: None, lon: None, lon_dir: None }
}

/// What writing field `idx` does to a GLL record: the slot is replaced on a
/// successful decode, the record is unchanged on a failed one, and an index
/// past the last slot is a decode error.
pub open spec fn spec_gll_set_field(g: NmeaGllMessage, idx: u8, v: Seq<u8>) -> Result<
    NmeaGllMessage,
    NmeaError,
> {
    if idx == 0 {
        match spec_decode_opt_decimal(v) {
            Ok(x) => Ok(NmeaGllMessage { lat: x, ..g }),
            Err(e) => Err(e),
        }
    } else if idx == 1 {
        match spec_decode_opt_byte(v) {
            Ok(x) => Ok(NmeaGllMessage { lat_dir: x, ..g }),
            Err(e) => Err(e),
        }
    } else if idx == 2 {
        match spec_decode_opt_decimal(v) {
            Ok(x) => Ok(NmeaGllMessage { lon: x, ..g }),
            Err(e) => Err(e),
        }
    } else if idx == 3 {
        match spec_decode_opt_byte(v) {
            Ok(x) => Ok(NmeaGllMessage { lon_dir: x, ..g }),
            Err(e) => Err(e),
        }
    } else {
        Err(NmeaError::FieldDecodeError)
    }
}

impl NmeaGllMessage {
    /// A fresh GLL record with every slot absent.
    pub fn new() -> (r: NmeaGllMessage)
        ensures
            r == spec_gll_cleared(),
    {
        NmeaGllMessage { lat: None, lat_dir: None, lon: None, lon_dir: None }
    }
}

impl MessageFields for NmeaGllMessage {
    fn set_field(&mut self, idx: u8, value: &[u8]) -> (r: Result<(), NmeaError>)
        ensures
            match spec_gll_set_field(*old(self), idx, value@) {
                Ok(g) => r == Ok::<(), NmeaError>(()) && *final(self) == g,
                Err(e) => r == Err::<(), NmeaError>(e) && *final(self) == *old(self),
            },
    {
        if idx == 0 {
            self.lat.set_from_slice(value)
        } else if idx == 1 {
            self.lat_dir.set_from_slice(value)
        } else if idx == 2 {
            self.lon.set_from_slice(value)
        } else if idx == 3 {
            self.lon_dir.set_from_slice(value)
        } else {
            Err(NmeaError::FieldDecodeError)
        }
    }

    fn field_count(&self) -> (r: u8)
        ensures
            r == 4,
    {
        4
    }

    fn clear(&mut self)
        ensures
            *final(self) == spec_gll_cleared(),
    {
        self.lat = None;
        self.lat_dir = None;
        self.lon = None;
        self.lon_dir = None;
    }

    fn get_addr(&self) -> (r: AddrField)
        ensures
            r.data@ == gll_addr(),
            r.talker_id@ == Seq::<u8>::empty(),
    {
        let mut data: Vec<u8> = Vec::new();
        data.push(0x47);
        data.push(0x4C);
        data.push(0x4C);
        proof {
            assert(data@ =~= gll_addr());
        }
        AddrField { data, talker_id: Vec::new() }
    }

    fn message_type(&self) -> (r: NmeaMessages)
        ensures
            r == NmeaMessages::GLL,
    {
        NmeaMessages::GLL
    }
}

impl MessagesMap {
    /// Registers one fresh instance of every known message type.
    pub fn add_all_messages(&mut self)
        ensures
            final(self).gll_registered,
            final(self).gll == spec_gll_cleared(),
    {
        self.gll = NmeaGllMessage::new();
        self.gll_registered = true;
    }
}

} // verus!

