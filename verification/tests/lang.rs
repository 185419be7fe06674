use logix::component::Conn;
use logix::lang::ast::{Comp, CompDecl, ConnDecl, PinAddr, Primitive, SubKind};
use logix::lang::builder::{build_main, comp_map_of, BuildError};

fn sub(name: &str, idx: usize, c: Comp) -> ((String, usize), Comp) {
    ((name.to_string(), idx), c)
}

fn by_idx(c: &str, i: usize) -> PinAddr {
    PinAddr::ByIdx(c.to_string(), i)
}

fn by_name(c: &str, p: &str) -> PinAddr {
    PinAddr::ByName(c.to_string(), p.to_string())
}

fn conn(src: PinAddr, dest: PinAddr) -> ConnDecl {
    ConnDecl { src, dest }
}

fn inverter(name: &str) -> CompDecl {
    CompDecl::new(
        name.to_string(),
        vec![
            sub("a", 0, Comp::Primitive(Primitive::Input(1))),
            sub("n", 1, Comp::Primitive(Primitive::Not)),
            sub("b", 2, Comp::Primitive(Primitive::Output(1))),
        ],
        vec![conn(by_idx("a", 0), by_idx("n", 0)), conn(by_idx("n", 0), by_idx("b", 0))],
    )
}

#[test]
fn names_pick_primitives() {
    assert!(matches!(Comp::from_name("And", 3, 0), Comp::Primitive(Primitive::And(3))));
    assert!(matches!(Comp::from_name("Not", 3, 0), Comp::Primitive(Primitive::Not)));
    assert!(matches!(Comp::from_name("Clock", 0, 500), Comp::Primitive(Primitive::Clock(500))));
    assert!(matches!(Comp::from_name("High", 0, 0), Comp::Primitive(Primitive::HighConst)));
    match Comp::from_name("Adder", 2, 0) {
        Comp::Composite(n) => assert_eq!(n, "Adder"),
        _ => panic!("a declared component is no primitive"),
    }
    assert!(Comp::from_name("In", 4, 0).is_input());
    assert!(Comp::from_name("Out", 4, 0).is_output());
    assert!(!Comp::from_name("Out", 4, 0).is_kind(SubKind::Input));
}

#[test]
fn primitives_write_as_debug_does() {
    assert_eq!(Primitive::And(2).to_string(), "And(2)");
    assert_eq!(Primitive::Not.to_string(), "Not");
    assert_eq!(Primitive::Splitter(16).to_string(), "Splitter(16)");
    assert_eq!(Primitive::LowConst.to_string(), "LowConst");
}

#[test]
fn declarations_sort_their_ports() {
    let d = CompDecl::new(
        "Pair".to_string(),
        vec![
            sub("second", 5, Comp::Primitive(Primitive::Input(1))),
            sub("gate", 3, Comp::Primitive(Primitive::And(2))),
            sub("first", 2, Comp::Primitive(Primitive::Input(1))),
            sub("out", 7, Comp::Primitive(Primitive::Output(1))),
        ],
        vec![],
    );
    assert_eq!(d.ins, vec![2, 5]);
    assert_eq!(d.outs, vec![7]);
    assert_eq!(d.in_idx_by_name.get("first"), Some(&0));
    assert_eq!(d.in_idx_by_name.get("second"), Some(&1));
    assert_eq!(d.out_idx_by_name.get("out"), Some(&0));
    assert_eq!(d.in_idx_by_name.get("gate"), None);
}

#[test]
fn builds_a_flat_main() {
    let map = comp_map_of(vec![inverter("Main")]);
    let (c, ids) = build_main(&map).unwrap();
    assert_eq!(c.id, 4);
    assert_eq!(c.name.as_deref(), Some("main"));
    assert_eq!((c.inputs, c.outputs), (1, 1));
    let s = c.sub.as_ref().unwrap();
    let sub_ids: Vec<usize> = s.components.iter().map(|k| k.id).collect();
    assert_eq!(sub_ids, vec![1, 2, 3]);
    assert_eq!(s.components[0].name.as_deref(), Some("Input { bits: 1 }"));
    assert_eq!(s.components[1].name.as_deref(), Some("NotGate"));
    assert_eq!(s.components[2].name.as_deref(), Some("Output { bits: 1 }"));
    assert_eq!(s.connections, vec![Conn::new(0, 0, 1, 0), Conn::new(1, 0, 2, 0)]);
    assert_eq!(s.in_addrs, vec![(0, (0, 0))]);
    assert_eq!(s.out_addrs, vec![(2, 0)]);
    assert_eq!(ids.get(&1).map(|n| n.as_str()), Some("a"));
    assert_eq!(ids.get(&2).map(|n| n.as_str()), Some("n"));
    assert_eq!(ids.get(&4).map(|n| n.as_str()), Some("main"));
    assert_eq!(ids.len(), 4);
}

fn main_with(design: Vec<ConnDecl>, inner: &str) -> CompDecl {
    CompDecl::new(
        "Main".to_string(),
        vec![
            sub("i", 0, Comp::Primitive(Primitive::Input(1))),
            sub("h", 1, Comp::Composite(inner.to_string())),
            sub("o", 2, Comp::Primitive(Primitive::Output(1))),
        ],
        design,
    )
}

#[test]
fn builds_nested_declarations_and_finds_pins_by_name() {
    let main = main_with(
        vec![conn(by_idx("i", 0), by_name("h", "a")), conn(by_name("h", "b"), by_idx("o", 0))],
        "Inv",
    );
    let map = comp_map_of(vec![main, inverter("Inv")]);
    let (c, ids) = build_main(&map).unwrap();
    assert_eq!(c.id, 7);
    let s = c.sub.as_ref().unwrap();
    let inner = &s.components[1];
    assert_eq!(inner.id, 5);
    assert_eq!(inner.name.as_deref(), Some("h"));
    let inner_ids: Vec<usize> = inner.sub.as_ref().unwrap().components.iter().map(|k| k.id).collect();
    assert_eq!(inner_ids, vec![2, 3, 4]);
    assert_eq!(s.components[2].id, 6);
    assert_eq!(s.connections, vec![Conn::new(0, 0, 1, 0), Conn::new(1, 0, 2, 0)]);
    assert_eq!(ids.get(&5).map(|n| n.as_str()), Some("h"));
    assert_eq!(ids.get(&3).map(|n| n.as_str()), Some("n"));
    assert_eq!(ids.len(), 7);
}

#[test]
fn reports_what_is_missing() {
    let no_main = comp_map_of(vec![inverter("Inv")]);
    assert_eq!(build_main(&no_main).err(), Some(BuildError::NoMainComponentError));

    let undeclared = comp_map_of(vec![main_with(vec![], "Nope")]);
    assert_eq!(
        build_main(&undeclared).err(),
        Some(BuildError::ComponentDeclNotFoundError("Nope".to_string()))
    );

    let bad_pin = main_with(vec![conn(by_idx("i", 0), by_name("h", "zzz"))], "Inv");
    let map = comp_map_of(vec![bad_pin, inverter("Inv")]);
    assert_eq!(build_main(&map).err(), Some(BuildError::OutputPinNotFoundError("zzz".to_string())));

    let bad_src = main_with(vec![conn(by_name("h", "a"), by_idx("o", 0))], "Inv");
    let map = comp_map_of(vec![bad_src, inverter("Inv")]);
    assert_eq!(build_main(&map).err(), Some(BuildError::InputPinNotFoundError("a".to_string())));

    let bad_ref = main_with(vec![conn(by_idx("q", 0), by_idx("o", 0))], "Inv");
    let map = comp_map_of(vec![bad_ref, inverter("Inv")]);
    assert_eq!(build_main(&map).err(), Some(BuildError::ComponentRefNotFoundError("q".to_string())));

    let prim_pin = main_with(vec![conn(by_name("i", "x"), by_idx("o", 0))], "Inv");
    let map = comp_map_of(vec![prim_pin, inverter("Inv")]);
    assert_eq!(build_main(&map).err(), Some(BuildError::ComponentRefNotFoundError("i".to_string())));
}

#[test]
fn later_declarations_replace_earlier_ones() {
    let map = comp_map_of(vec![inverter("Main"), main_with(vec![], "Inv"), inverter("Inv")]);
    let (c, _) = build_main(&map).unwrap();
    assert_eq!(c.sub.as_ref().unwrap().components[1].name.as_deref(), Some("h"));
}
