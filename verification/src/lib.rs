//! Dynamic geohazard nowcasting: static susceptibility × dynamic trigger.
//!
//! A grid of susceptibilities ([`grid`]) meets a stream of forcing steps
//! ([`forcing`]). An intensity–duration curve ([`threshold`]) turns the forcing
//! of a window into an exceedance, a logistic model ([`trigger`]) turns the
//! exceedance into a factor, and the product with the susceptibility is the
//! hazard ([`hazard`]) that alerts are raised on.
//!
//! - Engines: batch ([`nowcast`]), streaming ([`live`]), several drivers at once
//!   ([`multi`]), scenarios ([`ensemble`]), attribution ([`explain`]).
//! - Verification: contingency tables ([`contingency`], [`backtest`]), rankings
//!   ([`ranking`]), calibration ([`isotonic`], [`calibrate`]) and reliability
//!   ([`reliability`]).
//! - Other processes: [`flood`], [`inundation`], [`snowmelt`], [`fire`],
//!   [`deformation`], [`runout`].
//! - Around them: georeferenced tiles ([`raster`]), text columns ([`text`],
//!   [`columns`], [`calendar`]), and the decisions of the command line
//!   ([`inputs`], [`usage`], [`commands`]).
//!
//! Numbers are binary64 bit patterns ([`binary64`]), whose order and classes are
//! defined here on integers. What rounds is a parameter ([`arithmetic`]): every
//! contract says which operations are applied to which values, and holds for
//! whatever arithmetic a caller supplies. Laws that rest on how close rounded
//! results are name conditions on single operations ([`accuracy`]); what chains of
//! them make of an error is derived for means ([`averages`]) and for the logistic
//! ([`logistic`]).

pub mod accuracy;
pub mod arithmetic;
pub mod averages;
pub mod backtest;
pub mod binary64;
pub mod calendar;
pub mod calibrate;
pub mod columns;
pub mod commands;
pub mod contingency;
pub mod deformation;
pub mod ensemble;
pub mod error;
pub mod explain;
pub mod fire;
pub mod flood;
pub mod forcing;
pub mod grid;
pub mod hazard;
pub mod inputs;
pub mod inundation;
pub mod isotonic;
pub mod kernel;
pub mod keyset;
pub mod live;
pub mod logistic;
pub mod matching;
pub mod multi;
pub mod nowcast;
pub mod ranking;
pub mod raster;
pub mod reliability;
pub mod runout;
pub mod series;
pub mod snowmelt;
pub mod text;
pub mod threshold;
pub mod trigger;
pub mod usage;
