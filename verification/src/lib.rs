pub mod types;
mod map_access;
pub mod price_level;
pub mod orderbook;
pub mod symbol_map;
pub mod accounts;
pub mod totals;
pub mod exchange;
pub mod consistency;
