//! Runtime verification of BGP routers: from the messages that a router receives and sends, decide
//! whether some order of processing the received ones explains the sent ones.
pub mod bgp;
pub mod keyed;
pub mod monitoring;
pub mod session_monitor;
pub mod forking_monitor;
pub mod arena;
pub mod serializability;
pub mod import;
pub mod numbering;
pub mod reordering_monitoring;
pub mod traces;
pub mod monitor_laws;
pub mod number_set;
pub mod route_map;
pub mod failure;
pub mod text;
pub mod queue;
pub mod random;
pub mod pairs;
pub mod session_queue;
pub mod session_filter;
pub mod dispatch_queue;
pub mod geo_distances;
pub mod failure_queue;
pub mod sorting;
pub mod reordering_session;
pub mod reordering_queue;
pub mod reordering_measurement;
pub mod restriction;
pub mod recording;
pub mod controller;
pub mod strings;
pub mod config;
pub mod distance;
pub mod simulation;
pub mod generator;
pub mod reconfiguration;
pub mod ground_truth;
pub mod run;
pub mod testbed;
pub mod trace_test;
pub mod state_comparison;
pub mod evaluation;
pub mod workload;
pub mod scenarios;
pub mod performance;
pub mod formatting;
