pub mod dmi;
pub mod qspi_bus;
pub mod watch_fb;
