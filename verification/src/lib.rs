//! A pair of analog keyboards played as a microtonal instrument: layouts, lights, notes and
//! their recording.
pub mod bindings;
pub mod board;
pub mod byte_order;
pub mod capture;
pub mod config;
pub mod control;
pub mod csv;
pub mod devices;
pub mod dump;
pub mod gate;
pub mod guide;
pub mod hid;
pub mod hidmap;
pub mod highlight;
pub mod lag;
pub mod layouts;
pub mod live;
pub mod mask;
pub mod midi;
pub mod modes;
pub mod natural;
pub mod notes;
pub mod paint;
pub mod pitch;
pub mod player;
pub mod poll;
pub mod rgb;
pub mod rgb_worker;
pub mod sorted;
pub mod table;
pub mod text;
pub mod tracking;
pub mod wtn;
