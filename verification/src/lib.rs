//! Chart geometry over fixed-point integers: axis ranges, the projection
//! between data space and pixel space, tick generation and nearest-sample
//! lookups on an indexed set of series.
//!
//! Data-space scalars are `i64` (a fixed-point count or a timestamp in
//! seconds), pixel-space scalars are `i32`. A missing coordinate is `None`.

pub mod arith;
pub mod bounds;
pub mod data;
pub mod grid_line;
pub mod names;
pub mod projection;
pub mod range;
pub mod ticks;
pub mod use_data;

pub use bounds::Bounds;
pub use data::{Data, SeriesSamples};
pub use grid_line::{for_ticks, GridSegment, UseXGridLine, UseYGridLine, XGridLine, YGridLine};
pub use projection::Projection;
pub use range::Range;
pub use ticks::timestamps::Period;
pub use ticks::{GeneratedTicks, Generator, TickLabels, TickState};
pub use use_data::{sort_by_name, Series, SeriesKind, UseData, UseY};
