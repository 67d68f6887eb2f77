pub mod min_key;
pub mod round_robin;
pub mod weighted_round_robin;
pub mod least_connections;
pub mod weighted_least_connections;
pub mod least_response_time;
pub mod weighted_least_response_time;
pub mod static_lb;
pub mod ip_hash;
pub mod wrr_share;
