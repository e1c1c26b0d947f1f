//! Core of a DNS host registry for dnsmasq.

pub mod access_laws;
pub mod address_laws;
pub mod api_error;
pub mod cidr;
pub mod config;
pub mod config_laws;
pub mod export;
pub mod failure;
pub mod file_laws;
pub mod guard;
pub mod hosts;
pub mod ip;
pub mod json;
pub mod lxc;
pub mod lxc_laws;
pub mod number;
pub mod number_laws;
pub mod outside;
pub mod register;
pub mod register_laws;
pub mod replace_mode;
pub mod request_laws;
pub mod requests;
pub mod sorted;
pub mod table;
pub mod table_laws;
pub mod text;
pub mod text_laws;
pub mod time;
pub mod ui;
pub mod view_laws;
