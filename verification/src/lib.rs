//! The logic of a terminal multiplexer's server: pane layouts, key and mouse
//! encodings, pickers, copy mode, mail between panes.
pub mod actor;
pub mod agents;
pub mod alerts;
pub mod announce;
pub mod arrange;
pub mod attending;
pub mod bindings;
pub mod buffers;
pub mod callers;
pub mod change_laws;
pub mod chooser;
pub mod chooser_keys;
pub mod client;
pub mod client_commands;
pub mod client_laws;
pub mod command;
pub mod config;
pub mod context;
pub mod copy_keys;
pub mod copy_laws;
pub mod copy_mode;
pub mod default_keys;
pub mod default_lines;
pub mod display;
pub mod drawing;
pub mod edit;
pub mod endings;
pub mod events;
pub mod finds;
pub mod fit;
pub mod format_laws;
pub mod frames;
pub mod going;
pub mod history;
pub mod history_laws;
pub mod input;
pub mod input_laws;
pub mod join;
pub mod json;
pub mod keeping;
pub mod key_flow;
pub mod keys;
pub mod kills;
pub mod layout;
pub mod layout_again;
pub mod layout_laws;
pub mod layout_text;
pub mod list_laws;
pub mod listing_laws;
pub mod listings;
pub mod mail;
pub mod mail_laws;
pub mod marks;
pub mod message_lists;
pub mod message_waits;
pub mod messages;
pub mod mouse;
pub mod mouse_flow;
pub mod moves;
pub mod neighbour;
pub mod observe;
pub mod openings;
pub mod options;
pub mod outlets;
pub mod pane;
pub mod pane_commands;
pub mod pickers;
pub mod picking;
pub mod popup;
pub mod preset;
pub mod prompt;
pub mod replay;
pub mod resize;
pub mod resume;
pub mod saved;
pub mod saving;
pub mod screen;
pub mod server;
pub mod server_edit;
pub mod server_laws;
pub mod session;
pub mod session_commands;
pub mod session_laws;
pub mod shell_laws;
pub mod shells;
pub mod sourcing;
pub mod splits;
pub mod tables;
pub mod tasks;
pub mod text;
pub mod text_laws;
pub mod time;
pub mod undo;
pub mod view_laws;
pub mod waits;
pub mod window;
pub mod window_commands;
pub mod window_edit;
pub mod window_laws;
pub mod window_moves;
pub mod words;
pub mod written;
