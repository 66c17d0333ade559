use vstd::prelude::*;

verus! {

/// A single reading from one weather station.
///
/// `created_at` is the logical event time and `received_at` the ingestion
/// time, both as millisecond timestamps. Arrival order is not creation
/// order: out-of-order arrival is expected, and the buffers restore creation
/// order. The four measurement fields are raw bit patterns of the station's
/// readings; the pipeline treats them as opaque payload and never reads them.
#[derive(Clone, Copy, PartialEq, Eq, Structural, Debug)]
pub struct WeatherMessage {
    /// The id of the station this message came from.
    pub station_id: u8,
    /// When the station created this message (logical event time, ms).
    pub created_at: i64,
    /// When the pipeline received this message (wall-clock time, ms).
    pub received_at: i64,
    /// Measured temperature, as an opaque bit pattern.
    pub temp_bits: u32,
    /// Measured barometric pressure, as an opaque bit pattern.
    pub pressure_bits: u32,
    /// Measured wind speed, as an opaque bit pattern.
    pub wind_speed_bits: u32,
    /// Measured wind direction, as an opaque bit pattern.
    pub wind_direction_bits: u32,
}

} // verus!
