use logix::component::{addr_of, idx_of, Component, ComponentBuilder, Conn};
use logix::gui::wire_dir::WireDir;
use logix::lang::ast::{ConnDecl, PinAddr};
use logix::lang::builder::get_loc;
use logix::sim::bit::fmt_bit;

#[test]
fn builder_makes_composed_components_with_dependencies() {
    let gate = ComponentBuilder::new("Nand").port_count(2, 1).build();
    assert_eq!(gate.name, "Nand");
    assert_eq!(gate.inputs, vec![false, false]);
    assert_eq!(gate.outputs, vec![false]);
    assert!(gate.sub.is_none());

    let latch = ComponentBuilder::new("SR")
        .in_count(2)
        .out_count(2)
        .sub_comps(vec![
            ComponentBuilder::new("Nand").port_count(2, 1).build(),
            ComponentBuilder::new("Nand").port_count(2, 1).build(),
        ])
        .connections(vec![Conn::new(0, 0, 1, 0), Conn::new(1, 0, 0, 1)])
        .in_addrs(vec![(0, 0), (1, 1)])
        .out_addrs(vec![(0, 0), (1, 0)])
        .info(vec![1, 2])
        .build();
    let sub = latch.sub.as_ref().unwrap();
    assert_eq!(sub.dep_map, vec![vec![1], vec![0]]);
    assert_eq!(sub.in_addrs, vec![(0, 0), (1, 1)]);
    assert_eq!(latch.info, vec![1, 2]);
    assert_eq!(Conn::default(), Conn::new(0, 0, 0, 0));
    assert_eq!(idx_of((3, 4)), 3);
    assert_eq!(addr_of((3, 4)), 4);
}

#[test]
fn wire_directions_alternate() {
    assert_eq!(WireDir::get_dir(0), WireDir::Vertical);
    assert_eq!(WireDir::get_dir(1), WireDir::Horizontal);
    assert_eq!(WireDir::get_dir(2).opposite(), WireDir::Horizontal);
    assert_eq!(WireDir::Horizontal.opposite().opposite(), WireDir::Horizontal);
}

#[test]
fn locations_in_text() {
    let text = "ab\ncd\n\nx";
    assert_eq!(get_loc(0, text), (1, 0));
    assert_eq!(get_loc(1, text), (1, 1));
    assert_eq!(get_loc(3, text), (2, 0));
    assert_eq!(get_loc(7, text), (4, 0));
    assert_eq!(get_loc(100, text), (4, 1));
}

#[test]
fn pin_addresses_name_their_component() {
    let a = PinAddr::ByName("gate".to_string(), "out".to_string());
    let b = PinAddr::ByIdx("latch".to_string(), 2);
    assert_eq!(a.name(), "gate");
    assert_eq!(b.name(), "latch");
    let c = ConnDecl { src: a.clone(), dest: b };
    assert_eq!(c.src.name(), "gate");
    assert_eq!(fmt_bit(&true), '🟩');
    assert_eq!(fmt_bit(&false), '⬛');
}

#[test]
fn builder_keeps_connections_and_lists_their_sources() {
    let c = ComponentBuilder::new("C")
        .port_count(1, 1)
        .sub_comps(vec![Component::default(), Component::default(), Component::default()])
        .connections(vec![Conn::new(0, 0, 2, 0), Conn::new(1, 0, 2, 1), Conn::new(2, 0, 0, 0)])
        .in_addrs(vec![(0, 0)])
        .out_addrs(vec![(2, 0)])
        .build();
    assert_eq!(c.name, "C");
    assert_eq!(c.inputs, vec![false]);
    assert_eq!(c.outputs, vec![false]);
    let s = c.sub.unwrap();
    assert_eq!(s.dep_map, vec![vec![2], vec![], vec![0, 1]]);
    assert_eq!(s.components.len(), 3);
    assert_eq!(s.connections.len(), 3);
    assert_eq!(s.in_addrs, vec![(0, 0)]);
    assert_eq!(s.out_addrs, vec![(2, 0)]);
}
