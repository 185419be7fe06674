use logix::components::component::{CompEvent, Component};
use logix::components::composed_component::{
    AnyComponent, ComponentBuildError, ComposedComponent, ComposedComponentBuilder, Conn,
};
use logix::components::primitives::and_gate::AndGate;
use logix::components::primitives::clock::Clock;
use logix::components::primitives::constant::Const;
use logix::components::primitives::nand_gate::NandGate;
use logix::components::primitives::nor_gate::NorGate;
use logix::components::primitives::not_gate::NotGate;
use logix::components::primitives::or_gate::OrGate;
use logix::components::primitives::primitive::{primitives, Primitive, PrimitiveNotFound};
use logix::components::primitives::xor_gate::XorGate;
use logix::parser::{CompParser, ParseResult};
use logix::visitor::CompVisitor;

#[test]
fn cont_one() {
    let comp = &mut Const::one();
    comp.on_event(&CompEvent::UpdateValues);
    assert!(comp.outs[0]);
}

#[test]
fn cont_zero() {
    let comp = &mut Const::zero();
    comp.on_event(&CompEvent::UpdateValues);
    assert!(!comp.outs[0]);
}

#[test]
fn primitive_name() {
    assert!(Primitive::AndGate.to_string() == "AndGate");
}

struct TestCompVisitor;

impl CompVisitor<Option<()>> for TestCompVisitor {
    fn visit_not_gate(_: &NotGate) -> Option<()> {
        None
    }
    fn visit_and_gate(_: &AndGate) -> Option<()> {
        None
    }
    fn visit_or_gate(_: &OrGate) -> Option<()> {
        None
    }
    fn visit_nand_gate(_: &NandGate) -> Option<()> {
        None
    }
    fn visit_nor_gate(_: &NorGate) -> Option<()> {
        None
    }
    fn visit_xor_gate(_: &XorGate) -> Option<()> {
        None
    }
    fn visit_clock(_: &Clock) -> Option<()> {
        None
    }
    fn visit_const(_: &Const) -> Option<()> {
        None
    }
    fn visit_composed(_: &ComposedComponent) -> Option<()> {
        None
    }
}

#[test]
fn component_visitor() {
    let comp = ComposedComponentBuilder::new("Test").build().unwrap();
    assert!(TestCompVisitor::visit_composed(&comp).is_none());

    for prim in primitives() {
        match prim {
            Primitive::NotGate => {
                let comp = NotGate::new();
                assert!(TestCompVisitor::visit_not_gate(&comp).is_none());
            }
            Primitive::AndGate => {
                let comp = AndGate::new(2);
                assert!(TestCompVisitor::visit_and_gate(&comp).is_none());
            }
            Primitive::OrGate => {
                let comp = OrGate::new(2);
                assert!(TestCompVisitor::visit_or_gate(&comp).is_none());
            }
            Primitive::NandGate => {
                let comp = NandGate::new(2);
                assert!(TestCompVisitor::visit_nand_gate(&comp).is_none());
            }
            Primitive::NorGate => {
                let comp = NorGate::new(2);
                assert!(TestCompVisitor::visit_nor_gate(&comp).is_none());
            }
            Primitive::XorGate => {
                let comp = XorGate::new(2);
                assert!(TestCompVisitor::visit_xor_gate(&comp).is_none());
            }
            Primitive::Clock => {
                let comp = Clock::from_interval(1.0f64.to_bits(), 500_000_000);
                assert!(TestCompVisitor::visit_clock(&comp).is_none());
            }
            Primitive::ConstOne => {
                let comp = Const::one();
                assert!(TestCompVisitor::visit_const(&comp).is_none());
            }
            Primitive::ConstZero => {
                let comp = Const::zero();
                assert!(TestCompVisitor::visit_const(&comp).is_none());
            }
        }
    }
}

struct TestCompParser;

impl CompParser<()> for TestCompParser {
    fn parse_not_gate(_: ()) -> ParseResult<NotGate> {
        Err(Default::default())
    }
    fn parse_and_gate(_: ()) -> ParseResult<AndGate> {
        Err(Default::default())
    }
    fn parse_or_gate(_: ()) -> ParseResult<OrGate> {
        Err(Default::default())
    }
    fn parse_nand_gate(_: ()) -> ParseResult<NandGate> {
        Err(Default::default())
    }
    fn parse_nor_gate(_: ()) -> ParseResult<NorGate> {
        Err(Default::default())
    }
    fn parse_xor_gate(_: ()) -> ParseResult<XorGate> {
        Err(Default::default())
    }
    fn parse_clock(_: ()) -> ParseResult<Clock> {
        Err(Default::default())
    }
    fn parse_const(_: ()) -> ParseResult<Const> {
        Err(Default::default())
    }
    fn parse_composed(_: ()) -> ParseResult<ComposedComponent> {
        Err(Default::default())
    }
}

#[test]
fn parser_component_parser() {
    assert!(TestCompParser::parse_composed(()).is_err());

    for prim in primitives() {
        match prim {
            Primitive::NotGate => {
                assert!(TestCompParser::parse_not_gate(()).is_err());
            }
            Primitive::AndGate => {
                assert!(TestCompParser::parse_and_gate(()).is_err());
            }
            Primitive::OrGate => {
                assert!(TestCompParser::parse_or_gate(()).is_err());
            }
            Primitive::NandGate => {
                assert!(TestCompParser::parse_nand_gate(()).is_err());
            }
            Primitive::NorGate => {
                assert!(TestCompParser::parse_nor_gate(()).is_err());
            }
            Primitive::XorGate => {
                assert!(TestCompParser::parse_xor_gate(()).is_err());
            }
            Primitive::Clock => {
                assert!(TestCompParser::parse_clock(()).is_err());
            }
            Primitive::ConstOne => {
                assert!(TestCompParser::parse_const(()).is_err());
            }
            Primitive::ConstZero => {
                assert!(TestCompParser::parse_const(()).is_err());
            }
        }
    }
}

#[test]
fn primitive_from_name_finds_every_primitive() {
    for prim in primitives() {
        let name = prim.to_string();
        assert_eq!(Primitive::from_name(&name), Ok(prim));
    }
    assert_eq!(Primitive::from_name("Foo"), Err(PrimitiveNotFound));
    assert_eq!(Primitive::from_name("andgate"), Err(PrimitiveNotFound));
    assert_eq!(primitives().len(), 9);
}

#[test]
fn gates_follow_their_truth_tables() {
    let mut and = AndGate::new(2);
    let mut or = OrGate::new(2);
    let mut nand = NandGate::new(2);
    let mut nor = NorGate::new(2);
    let mut xor = XorGate::new(3);
    for (a, b) in [(false, false), (false, true), (true, false), (true, true)] {
        and.set_in(0, a);
        and.set_in(1, b);
        or.set_in(0, a);
        or.set_in(1, b);
        nand.set_in(0, a);
        nand.set_in(1, b);
        nor.set_in(0, a);
        nor.set_in(1, b);
        and.on_event(&CompEvent::UpdateValues);
        or.on_event(&CompEvent::UpdateValues);
        nand.on_event(&CompEvent::UpdateValues);
        nor.on_event(&CompEvent::UpdateValues);
        assert_eq!(and.outs[0], a && b);
        assert_eq!(or.outs[0], a || b);
        assert_eq!(nand.outs[0], !(a && b));
        assert_eq!(nor.outs[0], !(a || b));
    }
    xor.ins = vec![true, true, true];
    xor.on_event(&CompEvent::UpdateValues);
    assert!(xor.outs[0]);
    xor.ins = vec![true, false, true];
    xor.on_event(&CompEvent::UpdateValues);
    assert!(!xor.outs[0]);
    let mut not = NotGate::default();
    not.on_event(&CompEvent::UpdateValues);
    assert!(not.outs[0]);
    assert_eq!(and.name(), "AndGate");
    assert_eq!(Const::one().name(), "ConstOne");
    assert_eq!(Const::zero().name(), "ConstZero");
}

#[test]
fn events_other_than_update_values_leave_gates_alone() {
    let mut and = AndGate::new(2);
    and.ins = vec![true, true];
    and.on_event(&CompEvent::Update(10));
    assert!(!and.outs[0]);
}

#[test]
fn clock_is_high_in_the_second_half_of_each_cycle() {
    let mut clock = Clock::from_interval(0, 10);
    clock.on_event(&CompEvent::Update(5));
    assert!(!clock.outs[0]);
    clock.on_event(&CompEvent::Update(15));
    assert!(clock.outs[0]);
    clock.on_event(&CompEvent::Update(20));
    assert!(!clock.outs[0]);
    clock.on_event(&CompEvent::UpdateValues);
    assert!(!clock.outs[0]);
}

/// out = (not a) and b
fn not_a_and_b() -> ComposedComponent {
    ComposedComponentBuilder::new("NotAAndB")
        .components(vec![
            AnyComponent::NotGate(NotGate::new()),
            AnyComponent::AndGate(AndGate::new(2)),
        ])
        .connections(vec![Conn::new((0, 0), (1, 0))])
        .inputs(vec![(0, 0), (1, 1)])
        .outputs(vec![(1, 0)])
        .build()
        .unwrap()
}

#[test]
fn builder_records_dependencies() {
    let comp = not_a_and_b();
    assert_eq!(comp.name, "NotAAndB");
    assert_eq!(comp.ins, vec![false, false]);
    assert_eq!(comp.outs, vec![false]);
    assert_eq!(comp.dep_map, vec![vec![], vec![0]]);
    let renamed = ComposedComponentBuilder::new("A").name("B").build().unwrap();
    assert_eq!(renamed.name, "B");
    assert_eq!(ComponentBuildError::default(), ComponentBuildError);
}

#[test]
fn composed_component_updates_in_dependency_order() {
    let mut comp = not_a_and_b();
    for (a, b) in [(false, false), (false, true), (true, false), (true, true)] {
        comp.ins = vec![a, b];
        comp.on_event(&CompEvent::UpdateValues);
        assert_eq!(comp.outs[0], !a && b, "case {} {}", a, b);
    }
}

#[test]
fn nested_composed_component() {
    // out = not (not a and b)
    let mut outer = ComposedComponentBuilder::new("Outer")
        .components(vec![
            AnyComponent::Composed(not_a_and_b()),
            AnyComponent::NotGate(NotGate::new()),
        ])
        .connections(vec![Conn::new((0, 0), (1, 0))])
        .inputs(vec![(0, 0), (0, 1)])
        .outputs(vec![(1, 0)])
        .build()
        .unwrap();
    for (a, b) in [(false, false), (false, true), (true, false), (true, true)] {
        outer.ins = vec![a, b];
        outer.on_event(&CompEvent::UpdateValues);
        assert_eq!(outer.outs[0], !(!a && b), "case {} {}", a, b);
    }
}

/// x = d1 xor d2, with d1 = not a and d2 = d1 and b: x depends on d1 and on
/// d2, and d2 on d1 too, so d1 must be brought up to date before d2.
fn shared_dependency() -> ComposedComponent {
    ComposedComponentBuilder::new("Shared")
        .components(vec![
            AnyComponent::XorGate(XorGate::new(2)),
            AnyComponent::AndGate(AndGate::new(2)),
            AnyComponent::NotGate(NotGate::new()),
        ])
        .connections(vec![Conn::new((2, 0), (0, 0)), Conn::new((1, 0), (0, 1)), Conn::new((2, 0), (1, 0))])
        .inputs(vec![(2, 0), (1, 1)])
        .outputs(vec![(0, 0)])
        .build()
        .unwrap()
}

#[test]
fn shared_dependency_is_updated_before_its_dependants() {
    let comp = shared_dependency();
    assert_eq!(comp.dep_map, vec![vec![2, 1], vec![2], vec![]]);
    for (a, b) in [(false, false), (false, true), (true, false), (true, true)] {
        let mut fresh = shared_dependency();
        fresh.ins = vec![a, b];
        fresh.on_event(&CompEvent::UpdateValues);
        assert_eq!(fresh.outs[0], !a ^ (!a && b), "case {} {}", a, b);
    }
}

#[test]
fn time_reaches_a_clock_two_levels_down() {
    let inner = ComposedComponentBuilder::new("Inner")
        .components(vec![AnyComponent::Clock(Clock::from_interval(0, 10)), AnyComponent::NotGate(NotGate::new())])
        .connections(vec![Conn::new((0, 0), (1, 0))])
        .outputs(vec![(1, 0)])
        .build()
        .unwrap();
    let middle = ComposedComponentBuilder::new("Middle")
        .components(vec![AnyComponent::Composed(inner)])
        .outputs(vec![(0, 0)])
        .build()
        .unwrap();
    let mut outer = ComposedComponentBuilder::new("Outer")
        .components(vec![AnyComponent::Composed(middle)])
        .outputs(vec![(0, 0)])
        .build()
        .unwrap();
    outer.on_event(&CompEvent::UpdateValues);
    assert!(outer.outs[0]);
    // At time 15 the clock is high, so the inverted output drops.
    outer.on_event(&CompEvent::Update(15));
    assert!(outer.outs[0]);
    outer.on_event(&CompEvent::UpdateValues);
    assert!(!outer.outs[0]);
}
