use logix::components::component::{CompEvent, Component};
use logix::components::composed_component::{AnyComponent, ComposedComponentBuilder, Conn};
use logix::components::primitives::and_gate::AndGate;
use logix::components::primitives::clock::Clock;
use logix::components::primitives::constant::Const;
use logix::components::primitives::not_gate::NotGate;
use logix::serialize::json::{
    JsonDeserializationError, JsonDeserializer, JsonNumber, JsonSerializer, JsonValue,
};

fn num(n: u64) -> JsonValue {
    JsonValue::Number(JsonNumber { as_u64: Some(n), f64_bits: Some((n as f64).to_bits()) })
}

fn text(s: &str) -> JsonValue {
    JsonValue::String(s.to_string())
}

fn obj(members: Vec<(&str, JsonValue)>) -> JsonValue {
    JsonValue::Object(members.into_iter().map(|(k, v)| (k.to_string(), v)).collect())
}

fn pin(a: u64, b: u64) -> JsonValue {
    JsonValue::Array(vec![num(a), num(b)])
}

fn interval(bits: u64) -> u128 {
    (1e9 / f64::from_bits(bits)) as u128
}

fn not_a_and_b_json() -> JsonValue {
    obj(vec![
        ("name", text("NotAAndB")),
        ("components", JsonValue::Array(vec![
            obj(vec![("name", text("NotGate")), ("in_count", num(1))]),
            obj(vec![("name", text("AndGate")), ("in_count", num(2))]),
        ])),
        ("connections", JsonValue::Array(vec![obj(vec![("from", pin(0, 0)), ("to", pin(1, 0))])])),
        ("in_addrs", JsonValue::Array(vec![pin(0, 0), pin(1, 1)])),
        ("out_addrs", JsonValue::Array(vec![pin(1, 0)])),
    ])
}

#[test]
fn parse_composed_reads_a_component() {
    let mut comp = JsonDeserializer::parse_composed(&not_a_and_b_json(), interval).unwrap();
    assert_eq!(comp.name, "NotAAndB");
    assert_eq!(comp.components.len(), 2);
    assert!(matches!(comp.components[0], AnyComponent::NotGate(_)));
    assert!(matches!(&comp.components[1], AnyComponent::AndGate(g) if g.ins.len() == 2));
    assert_eq!(comp.connections, vec![Conn::new((0, 0), (1, 0))]);
    assert_eq!(comp.in_addrs, vec![(0, 0), (1, 1)]);
    assert_eq!(comp.out_addrs, vec![(1, 0)]);
    assert_eq!(comp.dep_map, vec![vec![], vec![0]]);
    comp.ins = vec![false, true];
    comp.on_event(&CompEvent::UpdateValues);
    assert!(comp.outs[0]);
}

#[test]
fn parse_composed_reads_nested_components_clocks_and_constants() {
    let json = obj(vec![
        ("name", text("Top")),
        ("components", JsonValue::Array(vec![
            not_a_and_b_json(),
            obj(vec![("name", text("Clock")), ("frec", JsonValue::Number(JsonNumber { as_u64: None, f64_bits: Some(4.0f64.to_bits()) }))]),
            obj(vec![("name", text("ConstOne"))]),
            obj(vec![("name", text("ConstZero"))]),
        ])),
        ("connections", JsonValue::Array(vec![])),
        ("in_addrs", JsonValue::Array(vec![])),
        ("out_addrs", JsonValue::Array(vec![])),
    ]);
    let comp = JsonDeserializer::parse_composed(&json, interval).unwrap();
    assert!(matches!(&comp.components[0], AnyComponent::Composed(c) if c.name == "NotAAndB"));
    assert!(matches!(&comp.components[1], AnyComponent::Clock(c) if c.interval == 250_000_000));
    assert!(matches!(&comp.components[2], AnyComponent::Const(c) if c.outs == vec![true]));
    assert!(matches!(&comp.components[3], AnyComponent::Const(c) if c.outs == vec![false]));
}

#[test]
fn parse_composed_errors() {
    let no_name = obj(vec![("components", JsonValue::Array(vec![]))]);
    assert!(matches!(
        JsonDeserializer::parse_composed(&no_name, interval),
        Err(JsonDeserializationError::InvalidComposedComponent)
    ));
    let bad_and = obj(vec![
        ("name", text("X")),
        ("components", JsonValue::Array(vec![obj(vec![("name", text("AndGate"))])])),
    ]);
    assert!(matches!(
        JsonDeserializer::parse_composed(&bad_and, interval),
        Err(JsonDeserializationError::InvalidAndGate)
    ));
    let bad_clock = obj(vec![
        ("name", text("X")),
        ("components", JsonValue::Array(vec![obj(vec![("name", text("Clock")), ("frec", text("fast"))])])),
    ]);
    assert!(matches!(
        JsonDeserializer::parse_composed(&bad_clock, interval),
        Err(JsonDeserializationError::InvalidClock)
    ));
    let no_conns = obj(vec![("name", text("X")), ("components", JsonValue::Array(vec![]))]);
    assert!(matches!(
        JsonDeserializer::parse_composed(&no_conns, interval),
        Err(JsonDeserializationError::InvalidComposedComponent)
    ));
    let bad_pin = obj(vec![
        ("name", text("X")),
        ("components", JsonValue::Array(vec![])),
        ("connections", JsonValue::Array(vec![])),
        ("in_addrs", JsonValue::Array(vec![JsonValue::Array(vec![num(0)])])),
        ("out_addrs", JsonValue::Array(vec![])),
    ]);
    assert!(matches!(
        JsonDeserializer::parse_composed(&bad_pin, interval),
        Err(JsonDeserializationError::InvalidComposedComponent)
    ));
}

#[test]
fn primitive_parsers() {
    assert!(matches!(JsonDeserializer::parse_or_gate(&obj(vec![("in_count", num(3))])), Ok(g) if g.ins.len() == 3));
    assert!(matches!(JsonDeserializer::parse_or_gate(&obj(vec![])), Err(JsonDeserializationError::InvalidOrGate)));
    assert!(matches!(JsonDeserializer::parse_nand_gate(&obj(vec![])), Err(JsonDeserializationError::InvalidNandGate)));
    assert!(matches!(JsonDeserializer::parse_nor_gate(&obj(vec![])), Err(JsonDeserializationError::InvalidNorGate)));
    assert!(matches!(JsonDeserializer::parse_xor_gate(&obj(vec![])), Err(JsonDeserializationError::InvalidXorGate)));
    assert!(matches!(JsonDeserializer::parse_const(&obj(vec![("name", text("High"))])), Err(JsonDeserializationError::InvalidConst)));
    assert!(matches!(JsonDeserializer::parse_const(&obj(vec![("name", text("ConstOne"))])), Ok(c) if c.outs == vec![true]));
    assert!(JsonDeserializer::parse_not_gate(&JsonValue::Null).is_ok());
}

#[test]
fn value_accessors() {
    let v = obj(vec![("a", num(1)), ("a", num(2)), ("s", text("x"))]);
    assert_eq!(v.get_key("a").as_u64(), Some(1));
    assert!(matches!(v.get_key("missing"), JsonValue::Null));
    assert_eq!(v.get_key("s").as_str(), Some("x"));
    let arr = JsonValue::Array(vec![num(7)]);
    assert_eq!(arr.get_at(0).as_u64(), Some(7));
    assert!(matches!(arr.get_at(1), JsonValue::Null));
    assert_eq!(arr.as_array().map(|a| a.len()), Some(1));
}

#[test]
fn serialize_then_parse_gives_the_component_back() {
    let comp = ComposedComponentBuilder::new("Outer")
        .components(vec![
            AnyComponent::NotGate(NotGate::new()),
            AnyComponent::AndGate(AndGate::new(3)),
            AnyComponent::Const(Const::one()),
            AnyComponent::Clock(Clock::from_interval(2.0f64.to_bits(), 500_000_000)),
        ])
        .connections(vec![Conn::new((0, 0), (1, 0)), Conn::new((2, 0), (1, 2))])
        .inputs(vec![(0, 0), (1, 1)])
        .outputs(vec![(1, 0)])
        .build()
        .unwrap();
    let json = JsonSerializer::visit_composed(&comp);
    assert!(matches!(json.get_key("name"), JsonValue::String(s) if s == "Outer"));
    let back = JsonDeserializer::parse_composed(&json, interval).unwrap();
    assert_eq!(back.name, comp.name);
    assert_eq!(back.connections, comp.connections);
    assert_eq!(back.in_addrs, comp.in_addrs);
    assert_eq!(back.out_addrs, comp.out_addrs);
    assert_eq!(back.dep_map, comp.dep_map);
    assert!(matches!(&back.components[1], AnyComponent::AndGate(g) if g.ins.len() == 3));
    assert!(matches!(&back.components[2], AnyComponent::Const(c) if c.outs == vec![true]));
    assert!(matches!(&back.components[3], AnyComponent::Clock(c) if c.interval == 500_000_000 && c.frec_bits == 2.0f64.to_bits()));
}

#[test]
fn serializer_writes_each_primitive() {
    let v = JsonSerializer::visit_and_gate(&AndGate::new(2));
    assert!(matches!(v.get_key("name"), JsonValue::String(s) if s == "AndGate"));
    assert_eq!(v.get_key("in_count").as_u64(), Some(2));
    let c = JsonSerializer::visit_const(&Const::zero());
    assert!(matches!(c.get_key("name"), JsonValue::String(s) if s == "ConstZero"));
    let k = JsonSerializer::visit_clock(&Clock::from_interval(3.0f64.to_bits(), 1));
    assert_eq!(k.get_key("frec").as_f64_bits(), Some(3.0f64.to_bits()));
}

#[test]
fn a_component_with_loose_pins_still_saves_and_loads() {
    // The output is bound to a pin that the NOT gate does not have.
    let comp = ComposedComponentBuilder::new("Loose")
        .components(vec![AnyComponent::NotGate(NotGate::new()), AnyComponent::Const(Const::zero())])
        .connections(vec![Conn::new((1, 0), (0, 0))])
        .inputs(vec![(0, 4)])
        .outputs(vec![(0, 9)])
        .build()
        .unwrap();
    assert!(JsonSerializer::can_describe_parts(&comp));
    let json = JsonSerializer::visit_composed(&comp);
    assert!(JsonDeserializer::is_safe(&json));
    let back = JsonDeserializer::parse_composed(&json, interval).unwrap();
    assert_eq!(back.name, "Loose");
    assert_eq!(back.in_addrs, vec![(0, 4)]);
    assert_eq!(back.out_addrs, vec![(0, 9)]);
    assert_eq!(back.ins, vec![false]);
    assert_eq!(back.outs, vec![false]);
    assert_eq!(back.dep_map, vec![vec![1], vec![]]);
}

#[test]
fn a_constant_without_output_cannot_be_described() {
    let mut c = Const::one();
    c.outs.clear();
    let comp = ComposedComponentBuilder::new("Empty").components(vec![AnyComponent::Const(c)]).build().unwrap();
    assert!(!JsonSerializer::can_describe_parts(&comp));
    assert!(JsonSerializer::can_describe(&AnyComponent::NotGate(NotGate::new())));
}

fn not_json() -> JsonValue {
    obj(vec![("name", text("NotGate"))])
}

fn conn_to(to: Vec<u64>) -> JsonValue {
    obj(vec![("from", JsonValue::Array(vec![num(0), num(0)])), ("to", JsonValue::Array(to.into_iter().map(num).collect()))])
}

fn composed_with(components: Vec<JsonValue>, connections: Vec<JsonValue>) -> JsonValue {
    obj(vec![
        ("name", text("X")),
        ("connections", JsonValue::Array(connections)),
        ("in_addrs", JsonValue::Array(vec![])),
        ("out_addrs", JsonValue::Array(vec![])),
        ("components", JsonValue::Array(components)),
    ])
}

#[test]
fn reading_is_safe_exactly_when_connections_fit() {
    assert!(JsonDeserializer::is_safe(&composed_with(vec![not_json()], vec![conn_to(vec![0, 0])])));
    // A connection to a third component of one.
    assert!(!JsonDeserializer::is_safe(&composed_with(vec![not_json()], vec![conn_to(vec![2, 0])])));
    // A connection end too short to read.
    assert!(!JsonDeserializer::is_safe(&composed_with(vec![not_json()], vec![conn_to(vec![0])])));
    // A bad connection after a sub-component that fails to read is never reached.
    let bad = obj(vec![("name", text("AndGate"))]);
    let j = composed_with(vec![bad, not_json()], vec![conn_to(vec![5, 0])]);
    assert!(JsonDeserializer::is_safe(&j));
    assert!(!JsonDeserializer::is_bounded(&j));
    assert!(matches!(JsonDeserializer::parse_composed(&j, interval), Err(JsonDeserializationError::InvalidAndGate)));
    // Nested: the inner component's connection does not fit.
    let inner = composed_with(vec![not_json()], vec![conn_to(vec![1, 0])]);
    assert!(!JsonDeserializer::is_safe(&composed_with(vec![inner], vec![])));
}
