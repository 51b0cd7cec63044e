pub mod geoip;
pub mod geosite;
pub mod srs;
