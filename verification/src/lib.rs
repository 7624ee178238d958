//! Reset-tolerant A/B image swapping for a microcontroller's second-stage
//! bootloader.
//!
//! The crate holds the durable state record that the bootloader and the
//! application share, the engine that swaps the two image slots page by
//! page through a scratch region, and the search for the application's
//! vector table. Flash is reached through the [`flash::Flash`] trait; its
//! contract models NOR flash (erase whole pages, program single words,
//! bits only ever cleared by a program) and a loss of power at any write.

pub mod boot;
pub mod checksum;
pub mod flash;
pub mod flash_addresses;
pub mod mem_flash;
pub mod reset_reason;
pub mod state;
pub mod swap;
