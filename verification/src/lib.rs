pub mod accounting;
pub mod analytics;
pub mod arith;
pub mod binding;
pub mod calendar;
pub mod catch_up;
pub mod category_usage;
pub mod codex;
pub mod collect;
pub mod collector_core;
pub mod collector_ipc;
pub mod collector_service;
pub mod digest;
pub mod estimator;
pub mod health;
pub mod json;
pub mod ledger;
pub mod migration;
pub mod models;
pub mod monitor;
pub mod names;
pub mod paths;
pub mod percent;
pub mod period_usage;
pub mod quota;
pub mod rate_card;
pub mod rebuild;
pub mod recorder;
pub mod renewal;
pub mod repository;
pub mod rollout;
pub mod scheduler;
pub mod schema;
pub mod sessions;
pub mod sorting;
pub mod table;
pub mod text;
pub mod text_map;
pub mod tray;
