//! snap: directory snapshots. The tool's rules and formats (ignore rules, version records
//! and ids, the stat index, the chunk container, the command line, the reports, the plan
//! and checks of a checkout) are verified functions here; reading and writing files,
//! threads, the clock and the console are the program's.
pub mod text;
pub mod ignore;
pub mod docs;
pub mod tree;
pub mod digest;
pub mod error;
pub mod json;
pub mod paths;
pub mod store;
pub mod scan;
pub mod chunk;
pub mod object;
pub mod index;
pub mod cli;
pub mod report;
pub mod checkout;
