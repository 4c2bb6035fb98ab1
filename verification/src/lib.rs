//! Correlation engine for tram travel-time measurement: per-segment state
//! machines pair entry/leave observations into duration samples, get-or-create
//! registries give each segment and trip a stable owner, and pollers derive
//! crossing events from departure boards.

pub mod clock;
pub mod directory;
pub mod passage;
pub mod route_fragment;
pub mod route_fragment_registry;
pub mod stop_poller;
pub mod trip_registry;
