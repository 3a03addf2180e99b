pub mod base40;
pub mod config;
pub mod constants;
pub mod crc32;
pub mod error;
pub mod telemetry;

pub use base40::{base40_decode, base40_encode};
pub use config::{Config, Field, PacketType};
pub use constants::{
    TELEMETRY_BYTES_PER_FIELD, TELEMETRY_FIELD_ALTITUDE, TELEMETRY_FIELD_COUNT,
    TELEMETRY_FIELD_DATE, TELEMETRY_FIELD_FLAGS, TELEMETRY_FIELD_HEADING, TELEMETRY_FIELD_LATITUDE,
    TELEMETRY_FIELD_LONGITUDE, TELEMETRY_FIELD_MILLISECOND, TELEMETRY_FIELD_MISSION_ID,
    TELEMETRY_FIELD_PACKET_NUMBER, TELEMETRY_FIELD_TIME, TELEMETRY_FIELD_TYPE,
    TELEMETRY_FIELD_VARIABLE, TELEMETRY_MAX_BYTES, TELEMETRY_MAX_FIELDS, TELEMETRY_MAX_LEN,
    TELEMETRY_MIN_BYTES, TELEMETRY_STANDARD_MIN_FIELDS,
};
pub use error::TelemError;
pub use telemetry::{PacketBuilder, TelemField, TelemFieldType, TelemetryPacket};
