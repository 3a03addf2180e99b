use vstd::prelude::*;

verus! {

/// Absolute ceiling on the number of 4-byte fields in a packet, checksum included.
pub const TELEMETRY_MAX_LEN: usize = 63;

/// Width of every field, in bytes.
pub const TELEMETRY_BYTES_PER_FIELD: usize = 4;

/// Largest declared field count (the checksum field is not counted).
pub const TELEMETRY_MAX_FIELDS: usize = 62;

/// Largest packet, in bytes.
pub const TELEMETRY_MAX_BYTES: usize = 252;

/// Smallest frame: count, sequence number, type id, flags and checksum.
pub const TELEMETRY_MIN_BYTES: usize = 20;

/// Index of the declared field count.
pub const TELEMETRY_FIELD_COUNT: usize = 0;

/// Index of the packet sequence number.
pub const TELEMETRY_FIELD_PACKET_NUMBER: usize = 1;

/// Index of the packet type id.
pub const TELEMETRY_FIELD_TYPE: usize = 2;

/// Index of the flags word.
pub const TELEMETRY_FIELD_FLAGS: usize = 3;

/// Smallest field count of a standard telemetry packet.
pub const TELEMETRY_STANDARD_MIN_FIELDS: usize = 10;

/// First schema-defined field.
pub const TELEMETRY_FIELD_VARIABLE: usize = 4;

// Field indices of the standard telemetry packet, type id 0x77777777.

pub const TELEMETRY_FIELD_DATE: usize = 4;

pub const TELEMETRY_FIELD_TIME: usize = 5;

pub const TELEMETRY_FIELD_MILLISECOND: usize = 6;

pub const TELEMETRY_FIELD_MISSION_ID: usize = 7;

pub const TELEMETRY_FIELD_LATITUDE: usize = 8;

pub const TELEMETRY_FIELD_LONGITUDE: usize = 9;

pub const TELEMETRY_FIELD_ALTITUDE: usize = 10;

pub const TELEMETRY_FIELD_HEADING: usize = 11;

} // verus!
