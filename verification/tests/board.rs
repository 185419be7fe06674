use logix::component::Conn;
use logix::gui::board_name::default_board_name;
use logix::gui::comp_board::{ComponentBoard, Pos};
use logix::sim::primitives::data::Data;

fn at(x: f32, y: f32) -> Pos {
    Pos { x_bits: x.to_bits(), y_bits: y.to_bits() }
}

fn board() -> ComponentBoard {
    let mut b = ComponentBoard::default();
    b.name = "Board".to_string();
    b.add_and_gate(10, 2, at(0.0, 0.0));
    b.add_not_gate(11, at(1.0, 0.0));
    b.add_or_gate(12, 3, at(2.0, 0.0));
    b.add_conn(0, 1, 0, 0, vec![at(0.5, 0.0)]);
    b.add_conn(1, 2, 0, 1, vec![]);
    b.add_conn(0, 2, 0, 2, vec![at(1.0, 1.0), at(2.0, 1.0)]);
    b.inputs = 2;
    b.in_addrs = vec![(1, (1, 0)), (0, (0, 0))];
    b.outputs = 1;
    b.out_addrs = vec![(2, 0)];
    b
}

#[test]
fn parts_show_default_values() {
    let b = board();
    assert_eq!(b.components.len(), 3);
    assert_eq!(b.components[1].name.as_deref(), Some("NOT"));
    assert_eq!(b.components[2].inputs, 3);
    assert_eq!(b.data_vals[0].0, vec![Data::low(), Data::low()]);
    assert_eq!(b.data_vals[1].1, vec![Data::low()]);
    let mut b = ComponentBoard::default();
    b.add_splitter(1, 4, at(0.0, 0.0));
    assert_eq!(b.data_vals[0].0, vec![Data::new(0, 4)]);
    assert_eq!(b.data_vals[0].1.len(), 4);
    b.add_const_high_gate(2, at(0.0, 0.0));
    assert_eq!(b.data_vals[1].1, vec![Data::high()]);
}

#[test]
fn removing_a_part_drops_its_connections_and_shifts_the_rest() {
    let mut b = board();
    b.remove_subc(0);
    assert_eq!(b.components.len(), 2);
    assert_eq!(b.components[0].id, 11);
    assert_eq!(b.comp_pos, vec![at(1.0, 0.0), at(2.0, 0.0)]);
    assert_eq!(b.connections, vec![Conn::new(0, 0, 1, 1)]);
    assert_eq!(b.comp_conns.len(), 1);
    assert!(b.comp_conns[0].points.is_empty());
    assert_eq!(b.in_addrs, vec![(1, (1, 0))]);
    assert_eq!(b.inputs, 1);
    assert_eq!(b.out_addrs, vec![(2, 0)]);
    assert_eq!(b.outputs, 1);
}

#[test]
fn removing_the_last_part_drops_its_output() {
    let mut b = board();
    b.remove_subc(2);
    assert_eq!(b.connections, vec![Conn::new(0, 0, 1, 0)]);
    assert!(b.out_addrs.is_empty());
    assert_eq!(b.outputs, 0);
}

#[test]
fn connections_come_and_go() {
    let mut b = board();
    b.add_conn(2, 0, 0, 1, vec![at(3.0, 3.0)]);
    assert_eq!(b.connections.len(), 4);
    b.remove_conn(3);
    assert_eq!(b.connections, board().connections);
    assert_eq!(b.comp_conns.len(), 3);
}

#[test]
fn the_board_builds_its_circuit() {
    let mut b = board();
    let c = b.build_component();
    assert_eq!(c.id, 0);
    assert_eq!(c.name.as_deref(), Some("Board"));
    assert_eq!((c.inputs, c.outputs), (2, 1));
    let s = c.sub.unwrap();
    assert_eq!(s.components.len(), 3);
    assert_eq!(s.components[2].id, 12);
    assert_eq!(s.connections, b.connections);
    assert_eq!(s.in_addrs, b.in_addrs);
    assert_eq!(s.out_addrs, b.out_addrs);
}

#[test]
fn a_new_board_takes_the_first_free_untitled_name() {
    assert_eq!(default_board_name(&vec![]), "untitled_0.lgxb");
    let taken = vec!["untitled_1.lgxb".to_string(), "untitled_0.lgxb".to_string(), "main.lgxb".to_string()];
    assert_eq!(default_board_name(&taken), "untitled_2.lgxb");
    let gap = vec!["untitled_0.lgxb".to_string(), "untitled_2.lgxb".to_string()];
    assert_eq!(default_board_name(&gap), "untitled_1.lgxb");
    let many: Vec<String> = (0..12).map(|i| format!("untitled_{}.lgxb", i)).collect();
    assert_eq!(default_board_name(&many), "untitled_12.lgxb");
}
