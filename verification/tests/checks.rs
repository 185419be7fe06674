use logix::circuit::{Circuit, SubCircuit};
use logix::component::Conn;
use logix::components::composed_component::{AnyComponent, ComposedComponentBuilder};
use logix::components::primitives::and_gate::AndGate;
use logix::components::primitives::not_gate::NotGate;
use logix::serialize::json::{JsonDeserializer, JsonNumber, JsonValue};
use logix::sim::check::{flat_ready, input_kid_count, leaf_count};
use logix::sim::flatten::FlattenComponent;
use logix::sim::primitives::primitive::{ExtraInfo, Primitive};

fn prim(id: usize, p: Primitive, inputs: usize, outputs: usize) -> Circuit {
    Circuit { id, name: Some("p".to_string()), inputs, outputs, sub: None, extra: ExtraInfo::from_primitive(id, p) }
}

fn composed(id: usize, components: Vec<Circuit>, connections: Vec<Conn>) -> Circuit {
    Circuit {
        id,
        name: Some("c".to_string()),
        inputs: 0,
        outputs: 0,
        sub: Some(SubCircuit { components, connections, in_addrs: vec![], out_addrs: vec![] }),
        extra: ExtraInfo::new(id),
    }
}

fn inverter(id: usize) -> Circuit {
    composed(
        id,
        vec![
            prim(id + 1, Primitive::Input { bits: 1 }, 1, 1),
            prim(id + 2, Primitive::NotGate, 1, 1),
        ],
        vec![Conn::new(0, 0, 1, 0)],
    )
}

#[test]
fn flattening_needs_addresses_that_point_at_parts() {
    let good = composed(
        0,
        vec![prim(1, Primitive::Switch, 0, 1), inverter(10)],
        vec![Conn::new(0, 0, 1, 0)],
    );
    assert!(flat_ready(&good));
    assert_eq!(leaf_count(&good), Some(3));
    assert_eq!(input_kid_count(&good.sub.as_ref().unwrap().components[1].sub.as_ref().unwrap().components), 1);

    let past_the_end = composed(0, vec![prim(1, Primitive::Switch, 0, 1)], vec![Conn::new(0, 0, 1, 0)]);
    assert!(!flat_ready(&past_the_end));

    let no_such_input = composed(
        0,
        vec![prim(1, Primitive::Switch, 0, 1), inverter(10)],
        vec![Conn::new(0, 0, 1, 1)],
    );
    assert!(!flat_ready(&no_such_input));

    let same_ids = composed(0, vec![prim(1, Primitive::Switch, 0, 1), prim(1, Primitive::NotGate, 1, 1)], vec![]);
    assert!(!flat_ready(&same_ids));

    let unknown_kind = Circuit { extra: ExtraInfo::new(5), ..prim(5, Primitive::NotGate, 1, 1) };
    assert!(!flat_ready(&unknown_kind));
}

#[test]
fn a_flattened_circuit_can_be_simulated() {
    let c = composed(
        0,
        vec![prim(1, Primitive::Switch, 0, 1), inverter(10)],
        vec![Conn::new(0, 0, 1, 0)],
    );
    let mut f = FlattenComponent::new(c).unwrap();
    assert!(f.check_sim_ok());
    f.connections[0].push(Conn::new(0, 0, 7, 0));
    assert!(!f.check_sim_ok());
}

fn num(n: u64) -> JsonValue {
    JsonValue::Number(JsonNumber { as_u64: Some(n), f64_bits: Some((n as f64).to_bits()) })
}

fn obj(members: Vec<(&str, JsonValue)>) -> JsonValue {
    JsonValue::Object(members.into_iter().map(|(k, v)| (k.to_string(), v)).collect())
}

fn with_conn(from: Vec<u64>, to: Vec<u64>) -> JsonValue {
    obj(vec![
        ("name", JsonValue::String("X".to_string())),
        ("components", JsonValue::Array(vec![obj(vec![("name", JsonValue::String("NotGate".to_string()))])])),
        (
            "connections",
            JsonValue::Array(vec![obj(vec![
                ("from", JsonValue::Array(from.into_iter().map(num).collect())),
                ("to", JsonValue::Array(to.into_iter().map(num).collect())),
            ])]),
        ),
    ])
}

#[test]
fn json_connections_must_point_at_components() {
    assert!(JsonDeserializer::is_bounded(&with_conn(vec![0, 0], vec![0, 0])));
    assert!(!JsonDeserializer::is_bounded(&with_conn(vec![0], vec![0, 0])));
    assert!(!JsonDeserializer::is_bounded(&with_conn(vec![0, 0], vec![0])));
    assert!(!JsonDeserializer::is_bounded(&with_conn(vec![0, 0], vec![1, 0])));
    let nested = obj(vec![("components", JsonValue::Array(vec![with_conn(vec![0, 0], vec![3, 0])]))]);
    assert!(!JsonDeserializer::is_bounded(&nested));
    assert!(JsonDeserializer::is_bounded(&JsonValue::Null));
}

#[test]
fn composed_components_check_their_pins() {
    let mut c = ComposedComponentBuilder::new("NotAAndB")
        .components(vec![AnyComponent::NotGate(NotGate::new()), AnyComponent::AndGate(AndGate::new(2))])
        .connections(vec![logix::components::composed_component::Conn::new((0, 0), (1, 0))])
        .inputs(vec![(0, 0), (1, 1)])
        .outputs(vec![(1, 0)])
        .build()
        .unwrap();
    assert!(c.check_wf_c());
    c.in_addrs[1] = (1, 5);
    assert!(!c.check_wf_c());
}
