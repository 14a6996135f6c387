//! Scrape BitTorrent trackers for swarm statistics over HTTP or UDP.
pub mod bencode;
pub mod error;
pub mod http;
pub mod infohash;
pub mod scrape;
pub mod session;
pub mod tracker;
pub mod udp;
pub mod wire;
