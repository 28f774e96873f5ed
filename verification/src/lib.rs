//! The core of a property-based testing engine: typed choice sequences, the
//! orders they shrink in, the interval sets behind strings, the byte format of
//! saved examples, the recording of one test case, the shrinker, and the
//! strategies that turn choices into values.
pub mod integer;
pub mod ordering;
pub mod hosting;
pub mod intervalset;
pub mod floats;
pub mod choice;
pub mod codec;
pub mod database;
pub mod provider;
pub mod chances;
pub mod data;
pub mod tree;
pub mod comparing;
pub mod room;
pub mod runner;
pub mod shrinker;
pub mod settled;
pub mod engine;
pub mod verdicts;
pub mod orders;
pub mod strategy;
pub mod walk;
pub mod calendar;
pub mod drawing;
pub mod reading;
pub mod foreign;
pub mod filters;
pub mod nodes;
pub mod repr;
pub mod combine;
pub mod sieving;
pub mod making;
pub mod arguments;
pub mod scalars;
pub mod words;
pub mod charmap;
pub mod charset;
pub mod alphabet;
pub mod types;
pub mod typeres;
pub mod elsewhere;
pub mod telling;
pub mod asking;
pub mod fromtype;
pub mod kinds;
pub mod builds;
pub mod inferring;
pub mod constructors;
pub mod refusing;
pub mod playing;
pub mod stateful;
