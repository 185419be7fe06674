pub mod wire_dir;
pub mod comp_board;
pub mod board_name;
