//! The body: the organs' side of the organism that feeds stimuli in and
//! watches what comes out.

pub mod console_vocal;
pub mod injector;
pub mod sensory_generator;

pub use console_vocal::ConsoleVocalMonitor;
pub use injector::SignalInjector;
pub use sensory_generator::SensoryGenerator;
