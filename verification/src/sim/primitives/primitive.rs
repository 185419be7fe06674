use vstd::prelude::*;

use super::data::{Data, bit_of, low_mask, bits_text, lemma_one_bit_changed, lemma_low_bits};

verus! {

/// The kinds of primitive components the simulator knows.
#[derive(Debug, Clone, Copy, PartialEq, Eq, Structural)]
pub enum Primitive {
    AndGate,
    OrGate,
    NotGate,
    NandGate,
    NorGate,
    XorGate,
    Switch,
    Input { bits: u8 },
    Output { bits: u8 },
    Splitter { bits: u8 },
    Joiner { bits: u8 },
    Clock { period: u128 },
    Const { value: Data },
}

impl Primitive {
    /// Value an input port of this kind holds before anything is set, if the
    /// kind has input ports.
    pub open spec fn spec_input_default(self) -> Option<Data> {
        match self {
            Primitive::Output { bits } => Some(Data { value: 0, size: bits }),
            Primitive::Splitter { bits } => Some(Data { value: 0, size: bits }),
            Primitive::Input { .. } => None,
            Primitive::Clock { .. } => None,
            Primitive::Const { .. } => None,
            _ => Some(Data { value: 0, size: 1 }),
        }
    }

    /// Value an output port of this kind holds before any update, if the kind
    /// has output ports.
    pub open spec fn spec_output_default(self) -> Option<Data> {
        match self {
            Primitive::Input { bits } => Some(Data { value: 0, size: bits }),
            Primitive::Joiner { bits } => Some(Data { value: 0, size: bits }),
            Primitive::Const { value } => Some(value),
            Primitive::Output { .. } => None,
            _ => Some(Data { value: 0, size: 1 }),
        }
    }

    pub fn input_default_data(self) -> (d: Option<Data>)
        ensures
            d == self.spec_input_default(),
    {
        match self {
            Primitive::AndGate
            | Primitive::OrGate
            | Primitive::NotGate
            | Primitive::NandGate
            | Primitive::NorGate
            | Primitive::Joiner { bits: _ }
            | Primitive::Switch
            | Primitive::XorGate => Some(Data::low()),
            Primitive::Output { bits: b } => Some(Data::new(0, b)),
            Primitive::Splitter { bits: b } => Some(Data::new(0, b)),
            Primitive::Input { bits: _ } => None,
            Primitive::Clock { period: _ } => None,
            Primitive::Const { value: _ } => None,
        }
    }

    pub fn output_default_data(self) -> (d: Option<Data>)
        ensures
            d == self.spec_output_default(),
    {
        match self {
            Primitive::AndGate
            | Primitive::OrGate
            | Primitive::NotGate
            | Primitive::NandGate
            | Primitive::NorGate
            | Primitive::Switch
            | Primitive::Clock { period: _ }
            | Primitive::Splitter { bits: _ }
            | Primitive::XorGate => Some(Data::low()),
            Primitive::Input { bits: b } => Some(Data::new(0, b)),
            Primitive::Joiner { bits: b } => Some(Data::new(0, b)),
            Primitive::Const { value: v } => Some(v),
            Primitive::Output { bits: _ } => None,
        }
    }

    pub fn is_input(&self) -> (b: bool)
        ensures
            b == (*self is Input),
    {
        matches!(self, Primitive::Input { bits: _ })
    }

    pub fn is_output(&self) -> (b: bool)
        ensures
            b == (*self is Output),
    {
        matches!(self, Primitive::Output { bits: _ })
    }
}

/// All values are set (not zero).
pub open spec fn all_set(ds: Seq<Data>) -> bool
    decreases ds.len(),
{
    if ds.len() == 0 {
        true
    } else {
        all_set(ds.drop_last()) && ds.last().value != 0
    }
}

/// Some value is set (not zero).
pub open spec fn any_set(ds: Seq<Data>) -> bool
    decreases ds.len(),
{
    if ds.len() == 0 {
        false
    } else {
        any_set(ds.drop_last()) || ds.last().value != 0
    }
}

/// Whether an odd number of the values are set; `false` for no value.
pub open spec fn odd_set(ds: Seq<Data>) -> bool
    decreases ds.len(),
{
    if ds.len() == 0 {
        false
    } else {
        odd_set(ds.drop_last()) != (ds.last().value != 0)
    }
}

/// The values as bits of one word: bit `i` is set when `ds[i]` is not zero.
pub open spec fn joined_bits(ds: Seq<Data>) -> usize
    decreases ds.len(),
{
    if ds.len() == 0 {
        0
    } else {
        joined_bits(ds.drop_last()) | ((if ds.last().value != 0 {
            1usize
        } else {
            0usize
        }) << ((ds.len() - 1) as usize))
    }
}

/// `d` holding the single bit `b`, its width unchanged.
pub open spec fn with_bit(d: Data, b: bool) -> Data {
    Data { value: if b { 1 } else { 0 }, size: d.size }
}

/// An update of a component of kind `prim` with inputs `i` and outputs `o` can run: every port it reads or writes exists and the widths
/// agree.
pub open spec fn update_ok_of(prim: Primitive, i: Seq<Data>, o: Seq<Data>) -> bool {
    match prim {
        Primitive::AndGate | Primitive::OrGate | Primitive::NandGate | Primitive::NorGate => o.len()
            > 0,
        Primitive::NotGate => o.len() > 0 && i.len() > 0 && i[0].width_ok(),
        Primitive::XorGate => o.len() > 0 && i.len() > 0,
        Primitive::Input { .. } | Primitive::Output { .. } => o.len() > 0 && i.len() > 0
            && o[0].size == i[0].size,
        Primitive::Splitter { bits } => i.len() > 0 && o.len() >= bits && bits <= i[0].size
            && bits <= usize::BITS,
        Primitive::Joiner { .. } => o.len() > 0 && i.len() <= usize::BITS && o[0].width_ok(),
        Primitive::Clock { period } => o.len() > 0 && period > 0 && period * 2 <= u128::MAX,
        Primitive::Const { .. } | Primitive::Switch => true,
    }
}

/// Outputs of a component of kind `prim` with inputs `i` and outputs `o` after
/// an update at time `time`.
pub open spec fn updated_outputs_of(prim: Primitive, i: Seq<Data>, o: Seq<Data>, time: u128) -> Seq<Data> {
    match prim {
        Primitive::AndGate => o.update(0, with_bit(o[0], all_set(i))),
        Primitive::OrGate => o.update(0, with_bit(o[0], any_set(i))),
        Primitive::NandGate => o.update(0, with_bit(o[0], !all_set(i))),
        Primitive::NorGate => o.update(0, with_bit(o[0], !any_set(i))),
        Primitive::XorGate => o.update(0, with_bit(o[0], odd_set(i))),
        Primitive::NotGate => o.update(0, Data::masked(!i[0].value, i[0].size)),
        Primitive::Input { .. } | Primitive::Output { .. } => o.update(0, i[0]),
        Primitive::Splitter { bits } => Seq::new(
            o.len(),
            |k: int|
                if k < bits {
                    with_bit(o[k], bit_of(i[0].value, k as u8))
                } else {
                    o[k]
                },
        ),
        Primitive::Joiner { .. } => o.update(
            0,
            Data { value: joined_bits(i) & low_mask(o[0].size), size: o[0].size },
        ),
        Primitive::Clock { period } => o.update(
            0,
            with_bit(o[0], time as int % (period * 2) > period),
        ),
        Primitive::Const { .. } | Primitive::Switch => o,
    }
}


/// A primitive component placed in a flattened circuit.
#[derive(Debug)]
pub struct PrimitiveComponent {
    pub id: usize,
    pub name: String,
    pub prim_type: Primitive,
    pub inputs: Vec<Data>,
    pub outputs: Vec<Data>,
}

impl PrimitiveComponent {
    /// `update` can run: every port it reads or writes exists and the widths
    /// agree.
    pub open spec fn update_ok(&self) -> bool {
        update_ok_of(self.prim_type, self.inputs@, self.outputs@)
    }

    /// Outputs after an update at time `time`.
    pub open spec fn updated_outputs(&self, time: u128) -> Seq<Data> {
        updated_outputs_of(self.prim_type, self.inputs@, self.outputs@, time)
    }

    pub fn set_input(&mut self, index: usize, value: Data)
        requires
            index < old(self).inputs.len(),
        ensures
            final(self).inputs@ == old(self).inputs@.update(index as int, value),
            final(self).outputs@ == old(self).outputs@,
            final(self).id == old(self).id,
            final(self).name@ == old(self).name@,
            final(self).prim_type == old(self).prim_type,
    {
        self.inputs.set(index, value);
    }

    /// Recomputes the outputs from the inputs (and, for a clock, the time).
    pub fn update(&mut self, time: u128)
        requires
            old(self).update_ok(),
        ensures
            final(self).outputs@ == old(self).updated_outputs(time),
            final(self).inputs@ == old(self).inputs@,
            final(self).id == old(self).id,
            final(self).name@ == old(self).name@,
            final(self).prim_type == old(self).prim_type,
    {
        let ghost o = self.outputs@;
        match self.prim_type {
            Primitive::AndGate => {
                let v = all_inputs_set(&self.inputs);
                self.set_first_output_bit(v);
            },
            Primitive::OrGate => {
                let v = any_input_set(&self.inputs);
                self.set_first_output_bit(v);
            },
            Primitive::NotGate => {
                let v = core::ops::Not::not(self.inputs[0]);
                self.outputs.set(0, v);
            },
            Primitive::NandGate => {
                let v = all_inputs_set(&self.inputs);
                self.set_first_output_bit(!v);
            },
            Primitive::NorGate => {
                let v = any_input_set(&self.inputs);
                self.set_first_output_bit(!v);
            },
            Primitive::XorGate => {
                let v = odd_inputs_set(&self.inputs);
                self.set_first_output_bit(v);
            },
            Primitive::Input { bits: _b } => {
                let mut d = self.outputs[0];
                d.set_from(self.inputs[0]);
                self.outputs.set(0, d);
            },
            Primitive::Output { bits: _b } => {
                let mut d = self.outputs[0];
                d.set_from(self.inputs[0]);
                self.outputs.set(0, d);
            },
            Primitive::Splitter { bits: b } => {
                let input = self.inputs[0];
                let mut bit_idx: u8 = b;
                while bit_idx > 0
                    invariant
                        bit_idx <= b,
                        b <= input.size,
                        b <= usize::BITS,
                        self.inputs@ == old(self).inputs@,
                        input == self.inputs@[0],
                        self.id == old(self).id,
                        self.name@ == old(self).name@,
                        self.prim_type == old(self).prim_type,
                        self.outputs@.len() == o.len(),
                        o.len() >= b,
                        forall|k: int|
                            0 <= k < o.len() ==> #[trigger] self.outputs@[k] == (if bit_idx <= k < b {
                                with_bit(o[k], bit_of(input.value, k as u8))
                            } else {
                                o[k]
                            }),
                    decreases bit_idx,
                {
                    bit_idx = bit_idx - 1;
                    let bit = input.get_bit_at(bit_idx);
                    let mut d = self.outputs[bit_idx as usize];
                    d.set_bit(bit);
                    self.outputs.set(bit_idx as usize, d);
                }
                proof {
                    assert(self.outputs@ =~= self.updated_outputs(time)) by {
                        assert(old(self).updated_outputs(time).len() == o.len());
                    }
                }
            },
            Primitive::Joiner { bits: _b } => {
                let v = join_inputs(&self.inputs);
                let mut d = self.outputs[0];
                d.set_data(v);
                self.outputs.set(0, d);
            },
            Primitive::Clock { period } => {
                let v = (time % (period * 2)) > period;
                self.set_first_output_bit(v);
            },
            Primitive::Const { value: _v } => {},
            Primitive::Switch => {},
        }
    }

    fn set_first_output_bit(&mut self, b: bool)
        requires
            old(self).outputs.len() > 0,
        ensures
            final(self).outputs@ == old(self).outputs@.update(0, with_bit(old(self).outputs@[0], b)),
            final(self).inputs@ == old(self).inputs@,
            final(self).id == old(self).id,
            final(self).name@ == old(self).name@,
            final(self).prim_type == old(self).prim_type,
    {
        let mut d = self.outputs[0];
        d.set_bit(b);
        self.outputs.set(0, d);
    }
}

fn all_inputs_set(ds: &Vec<Data>) -> (b: bool)
    ensures
        b == all_set(ds@),
{
    let mut acc = true;
    let mut k: usize = 0;
    while k < ds.len()
        invariant
            k <= ds.len(),
            acc == all_set(ds@.take(k as int)),
        decreases ds.len() - k,
    {
        assert(ds@.take(k as int + 1).drop_last() == ds@.take(k as int));
        let x = ds[k].as_bool();
        acc = acc && x;
        k = k + 1;
    }
    assert(ds@.take(ds.len() as int) == ds@);
    acc
}

fn any_input_set(ds: &Vec<Data>) -> (b: bool)
    ensures
        b == any_set(ds@),
{
    let mut acc = false;
    let mut k: usize = 0;
    while k < ds.len()
        invariant
            k <= ds.len(),
            acc == any_set(ds@.take(k as int)),
        decreases ds.len() - k,
    {
        assert(ds@.take(k as int + 1).drop_last() == ds@.take(k as int));
        let x = ds[k].as_bool();
        acc = acc || x;
        k = k + 1;
    }
    assert(ds@.take(ds.len() as int) == ds@);
    acc
}

fn odd_inputs_set(ds: &Vec<Data>) -> (b: bool)
    requires
        ds.len() > 0,
    ensures
        b == odd_set(ds@),
{
    let mut acc = ds[0].as_bool();
    let mut k: usize = 1;
    assert(ds@.take(1).drop_last().len() == 0);
    assert(ds@.take(1).last() == ds@[0]);
    assert(!odd_set(ds@.take(1).drop_last()));
    while k < ds.len()
        invariant
            1 <= k <= ds.len(),
            acc == odd_set(ds@.take(k as int)),
        decreases ds.len() - k,
    {
        assert(ds@.take(k as int + 1).drop_last() == ds@.take(k as int));
        acc = acc ^ ds[k].as_bool();
        k = k + 1;
    }
    assert(ds@.take(ds.len() as int) == ds@);
    acc
}

fn join_inputs(ds: &Vec<Data>) -> (v: usize)
    requires
        ds.len() <= usize::BITS,
    ensures
        v == joined_bits(ds@),
{
    let mut acc: usize = 0;
    let mut k: usize = 0;
    while k < ds.len()
        invariant
            k <= ds.len() <= usize::BITS,
            acc == joined_bits(ds@.take(k as int)),
        decreases ds.len() - k,
    {
        assert(ds@.take(k as int + 1).drop_last() == ds@.take(k as int));
        let b: usize = if ds[k].as_bool() { 1 } else { 0 };
        acc = acc | (b << k);
        k = k + 1;
    }
    assert(ds@.take(ds.len() as int) == ds@);
    acc
}


/// `n` copies of `d`.
pub fn repeat_data(d: Data, n: usize) -> (v: Vec<Data>)
    ensures
        v@ == Seq::new(n as nat, |_k: int| d),
{
    let mut v: Vec<Data> = Vec::new();
    let mut k: usize = 0;
    while k < n
        invariant
            k <= n,
            v@ == Seq::new(k as nat, |_j: int| d),
        decreases n - k,
    {
        v.push(d);
        k = k + 1;
        assert(v@ =~= Seq::new(k as nat, |_j: int| d));
    }
    v
}

impl PrimitiveComponent {
    /// A component of kind `prim_type` named `name`, with `in_count` inputs
    /// holding `in_value` and `out_count` outputs holding `out_value`.
    pub open spec fn spec_fresh(
        self,
        id: usize,
        name: Seq<char>,
        prim_type: Primitive,
        inputs: Seq<Data>,
        outputs: Seq<Data>,
    ) -> bool {
        &&& self.id == id
        &&& self.name@ == name
        &&& self.prim_type == prim_type
        &&& self.inputs@ == inputs
        &&& self.outputs@ == outputs
    }

    fn build(id: usize, name: &str, prim_type: Primitive, inputs: Vec<Data>, outputs: Vec<Data>) -> (c: Self)
        ensures
            c.spec_fresh(id, name@, prim_type, inputs@, outputs@),
    {
        PrimitiveComponent { id, name: String::from_str(name), prim_type, inputs, outputs }
    }

    pub fn and_gate(id: usize, in_count: usize) -> (c: Self)
        ensures
            c.spec_fresh(
                id,
                "And"@,
                Primitive::AndGate,
                Seq::new(in_count as nat, |_k: int| Data { value: 0, size: 1 }),
                seq![Data { value: 0, size: 1 }],
            ),
    {
        let outputs = repeat_data(Data::low(), 1);
        assert(outputs@ =~= seq![Data { value: 0, size: 1 }]);
        Self::build(id, "And", Primitive::AndGate, repeat_data(Data::low(), in_count), outputs)
    }

    pub fn or_gate(id: usize, in_count: usize) -> (c: Self)
        ensures
            c.spec_fresh(
                id,
                "Or"@,
                Primitive::OrGate,
                Seq::new(in_count as nat, |_k: int| Data { value: 0, size: 1 }),
                seq![Data { value: 0, size: 1 }],
            ),
    {
        let outputs = repeat_data(Data::low(), 1);
        assert(outputs@ =~= seq![Data { value: 0, size: 1 }]);
        Self::build(id, "Or", Primitive::OrGate, repeat_data(Data::low(), in_count), outputs)
    }

    pub fn not_gate(id: usize) -> (c: Self)
        ensures
            c.spec_fresh(
                id,
                "Not"@,
                Primitive::NotGate,
                seq![Data { value: 0, size: 1 }],
                seq![Data { value: 0, size: 1 }],
            ),
    {
        let inputs = repeat_data(Data::low(), 1);
        let outputs = repeat_data(Data::low(), 1);
        assert(inputs@ =~= seq![Data { value: 0, size: 1 }]);
        assert(outputs@ =~= seq![Data { value: 0, size: 1 }]);
        Self::build(id, "Not", Primitive::NotGate, inputs, outputs)
    }

    pub fn nand_gate(id: usize, in_count: usize) -> (c: Self)
        ensures
            c.spec_fresh(
                id,
                "Nand"@,
                Primitive::NandGate,
                Seq::new(in_count as nat, |_k: int| Data { value: 0, size: 1 }),
                seq![Data { value: 0, size: 1 }],
            ),
    {
        let outputs = repeat_data(Data::low(), 1);
        assert(outputs@ =~= seq![Data { value: 0, size: 1 }]);
        Self::build(id, "Nand", Primitive::NandGate, repeat_data(Data::low(), in_count), outputs)
    }

    pub fn nor_gate(id: usize, in_count: usize) -> (c: Self)
        ensures
            c.spec_fresh(
                id,
                "Nor"@,
                Primitive::NorGate,
                Seq::new(in_count as nat, |_k: int| Data { value: 0, size: 1 }),
                seq![Data { value: 0, size: 1 }],
            ),
    {
        let outputs = repeat_data(Data::low(), 1);
        assert(outputs@ =~= seq![Data { value: 0, size: 1 }]);
        Self::build(id, "Nor", Primitive::NorGate, repeat_data(Data::low(), in_count), outputs)
    }

    pub fn xor_gate(id: usize, in_count: usize) -> (c: Self)
        ensures
            c.spec_fresh(
                id,
                "Xor"@,
                Primitive::XorGate,
                Seq::new(in_count as nat, |_k: int| Data { value: 0, size: 1 }),
                seq![Data { value: 0, size: 1 }],
            ),
    {
        let outputs = repeat_data(Data::low(), 1);
        assert(outputs@ =~= seq![Data { value: 0, size: 1 }]);
        Self::build(id, "Xor", Primitive::XorGate, repeat_data(Data::low(), in_count), outputs)
    }

    pub fn switch(id: usize) -> (c: Self)
        ensures
            c.spec_fresh(
                id,
                "Switch"@,
                Primitive::Switch,
                Seq::empty(),
                seq![Data { value: 0, size: 1 }],
            ),
    {
        let outputs = repeat_data(Data::low(), 1);
        assert(outputs@ =~= seq![Data { value: 0, size: 1 }]);
        Self::build(id, "Switch", Primitive::Switch, Vec::new(), outputs)
    }

    pub fn input(id: usize, bits: u8) -> (c: Self)
        ensures
            c.spec_fresh(
                id,
                "Input"@,
                Primitive::Input { bits },
                seq![Data { value: 0, size: bits }],
                seq![Data { value: 0, size: bits }],
            ),
    {
        let inputs = repeat_data(Data::new(0, bits), 1);
        let outputs = repeat_data(Data::new(0, bits), 1);
        assert(inputs@ =~= seq![Data { value: 0, size: bits }]);
        assert(outputs@ =~= seq![Data { value: 0, size: bits }]);
        Self::build(id, "Input", Primitive::Input { bits }, inputs, outputs)
    }

    pub fn output(id: usize, bits: u8) -> (c: Self)
        ensures
            c.spec_fresh(
                id,
                "Output"@,
                Primitive::Output { bits },
                seq![Data { value: 0, size: bits }],
                seq![Data { value: 0, size: bits }],
            ),
    {
        let inputs = repeat_data(Data::new(0, bits), 1);
        let outputs = repeat_data(Data::new(0, bits), 1);
        assert(inputs@ =~= seq![Data { value: 0, size: bits }]);
        assert(outputs@ =~= seq![Data { value: 0, size: bits }]);
        Self::build(id, "Output", Primitive::Output { bits }, inputs, outputs)
    }

    pub fn splitter(id: usize, bits: u8) -> (c: Self)
        ensures
            c.spec_fresh(
                id,
                "Splitter"@,
                Primitive::Splitter { bits },
                seq![Data { value: 0, size: bits }],
                Seq::new(bits as nat, |_k: int| Data { value: 0, size: 1 }),
            ),
    {
        let inputs = repeat_data(Data::new(0, bits), 1);
        assert(inputs@ =~= seq![Data { value: 0, size: bits }]);
        Self::build(id, "Splitter", Primitive::Splitter { bits }, inputs, repeat_data(Data::low(), bits as usize))
    }

    pub fn joiner(id: usize, bits: u8) -> (c: Self)
        ensures
            c.spec_fresh(
                id,
                "Joiner"@,
                Primitive::Joiner { bits },
                Seq::new(bits as nat, |_k: int| Data { value: 0, size: 1 }),
                seq![Data { value: 0, size: bits }],
            ),
    {
        let outputs = repeat_data(Data::new(0, bits), 1);
        assert(outputs@ =~= seq![Data { value: 0, size: bits }]);
        Self::build(id, "Joiner", Primitive::Joiner { bits }, repeat_data(Data::low(), bits as usize), outputs)
    }

    /// A clock of period `period` (ns). Its name is `Clock`: the frequency
    /// text that a display adds needs floating point, which is left to callers.
    pub fn clock(id: usize, period: u128) -> (c: Self)
        ensures
            c.spec_fresh(
                id,
                "Clock"@,
                Primitive::Clock { period },
                Seq::empty(),
                seq![Data { value: 0, size: 1 }],
            ),
    {
        let outputs = repeat_data(Data::low(), 1);
        assert(outputs@ =~= seq![Data { value: 0, size: 1 }]);
        Self::build(id, "Clock", Primitive::Clock { period }, Vec::new(), outputs)
    }

    /// A constant emitting `value`, named `Const(` + the value's text + `)`.
    pub fn const_gate(id: usize, value: Data) -> (c: Self)
        requires
            value.size <= usize::BITS,
        ensures
            c.spec_fresh(
                id,
                "Const("@ + bits_text(value.value, value.size as nat) + ")"@,
                Primitive::Const { value },
                Seq::empty(),
                seq![value],
            ),
    {
        let mut name = String::from_str("Const(");
        let text = value.to_string();
        name.append(text.as_str());
        name.append(")");
        let outputs = repeat_data(value, 1);
        assert(outputs@ =~= seq![value]);
        PrimitiveComponent { id, name, prim_type: Primitive::Const { value }, inputs: Vec::new(), outputs }
    }
}

/// Extra information a component carries into the simulator: its id and,
/// for a primitive, its kind.
#[derive(Debug, Clone, Copy, PartialEq, Eq, Structural)]
pub struct ExtraInfo {
    pub id: usize,
    pub primitive: Option<Primitive>,
}

impl ExtraInfo {
    pub fn new(id: usize) -> (e: Self)
        ensures
            e == (ExtraInfo { id, primitive: None }),
    {
        ExtraInfo { id, primitive: None }
    }

    pub fn from_primitive(id: usize, primitive: Primitive) -> (e: Self)
        ensures
            e == (ExtraInfo { id, primitive: Some(primitive) }),
    {
        ExtraInfo { id, primitive: Some(primitive) }
    }
}

impl Default for ExtraInfo {
    fn default() -> (e: Self)
        ensures
            e == (ExtraInfo { id: 0, primitive: None }),
    {
        ExtraInfo { id: 0, primitive: None }
    }
}

proof fn lemma_set_quantified(ds: Seq<Data>)
    ensures
        all_set(ds) <==> forall|k: int| 0 <= k < ds.len() ==> (#[trigger] ds[k]).value != 0,
        any_set(ds) <==> exists|k: int| 0 <= k < ds.len() && (#[trigger] ds[k]).value != 0,
        odd_set(ds) == (ds.filter(|d: Data| d.value != 0).len() % 2 == 1),
    decreases ds.len(),
{
    reveal(Seq::filter);
    if ds.len() > 0 {
        let dl = ds.drop_last();
        lemma_set_quantified(dl);
        assert forall|k: int| 0 <= k < dl.len() implies dl[k] == ds[k] by {}
        if any_set(dl) {
            let k = choose|k: int| 0 <= k < dl.len() && (#[trigger] dl[k]).value != 0;
            assert(ds[k] == dl[k]);
        }
        if exists|k: int| 0 <= k < ds.len() && (#[trigger] ds[k]).value != 0 {
            let k = choose|k: int| 0 <= k < ds.len() && (#[trigger] ds[k]).value != 0;
            if k < ds.len() - 1 {
                assert(dl[k] == ds[k]);
            }
        }
    }
}

/// After an update, an AND, OR, NAND, NOR or XOR gate outputs one bit, of
/// the width its output had, and keeps its other outputs: AND is set exactly
/// when every input is non-zero, OR when some input is, NAND and NOR are
/// their negations, and XOR is set exactly when an odd number of inputs are
/// non-zero. This holds for any number of inputs.
pub proof fn lemma_gate_updates(i: Seq<Data>, o: Seq<Data>, t: u128)
    requires
        o.len() > 0,
    ensures
        updated_outputs_of(Primitive::AndGate, i, o, t) == o.update(
            0,
            Data {
                value: if forall|k: int| 0 <= k < i.len() ==> (#[trigger] i[k]).value != 0 { 1 } else { 0 },
                size: o[0].size,
            },
        ),
        updated_outputs_of(Primitive::OrGate, i, o, t) == o.update(
            0,
            Data {
                value: if exists|k: int| 0 <= k < i.len() && (#[trigger] i[k]).value != 0 { 1 } else { 0 },
                size: o[0].size,
            },
        ),
        updated_outputs_of(Primitive::NandGate, i, o, t) == o.update(
            0,
            Data {
                value: if forall|k: int| 0 <= k < i.len() ==> (#[trigger] i[k]).value != 0 { 0 } else { 1 },
                size: o[0].size,
            },
        ),
        updated_outputs_of(Primitive::NorGate, i, o, t) == o.update(
            0,
            Data {
                value: if exists|k: int| 0 <= k < i.len() && (#[trigger] i[k]).value != 0 { 0 } else { 1 },
                size: o[0].size,
            },
        ),
        updated_outputs_of(Primitive::XorGate, i, o, t) == o.update(
            0,
            Data { value: if i.filter(|d: Data| d.value != 0).len() % 2 == 1 { 1 } else { 0 }, size: o[0].size },
        ),
{
    lemma_set_quantified(i);
}

/// After an update, a NOT gate's output has the width of its input, each bit
/// below that width the inverse of the input's bit, and no bit above it; the
/// other outputs stay.
pub proof fn lemma_not_gate_update(i: Seq<Data>, o: Seq<Data>, t: u128)
    requires
        update_ok_of(Primitive::NotGate, i, o),
    ensures
        updated_outputs_of(Primitive::NotGate, i, o, t).len() == o.len(),
        updated_outputs_of(Primitive::NotGate, i, o, t)[0].size == i[0].size,
        forall|j: int|
            0 <= j < usize::BITS ==> (((#[trigger] (updated_outputs_of(Primitive::NotGate, i, o, t)[0].value >> (j as usize)))
                & 1usize == 1usize) == (j < i[0].size && (i[0].value >> (j as usize)) & 1usize == 0usize)),
        forall|k: int| 1 <= k < o.len() ==> #[trigger] updated_outputs_of(Primitive::NotGate, i, o, t)[k] == o[k],
{
    let r = updated_outputs_of(Primitive::NotGate, i, o, t);
    assert forall|j: int| 0 <= j < usize::BITS implies (((#[trigger] (r[0].value >> (j as usize))) & 1usize == 1usize) == (j
        < i[0].size && (i[0].value >> (j as usize)) & 1usize == 0usize)) by {
        lemma_low_bits(i[0].value, i[0].size, j as usize);
    }
}

proof fn lemma_shift_by_u8(v: usize, k: u8)
    by (bit_vector)
    ensures
        (v >> k) & 1usize == (v >> (k as usize)) & 1usize,
        (v >> (k as usize)) & 1usize == 1usize || (v >> (k as usize)) & 1usize == 0usize,
{
}

/// After an update, a splitter of `bits` bits outputs bit `k` of its input at
/// its output `k`, for every `k` below `bits`, each output keeping its
/// width; its other outputs stay.
pub proof fn lemma_splitter_update(bits: u8, i: Seq<Data>, o: Seq<Data>, t: u128)
    requires
        update_ok_of(Primitive::Splitter { bits }, i, o),
    ensures
        updated_outputs_of(Primitive::Splitter { bits }, i, o, t).len() == o.len(),
        forall|k: int|
            0 <= k < bits ==> (#[trigger] updated_outputs_of(Primitive::Splitter { bits }, i, o, t)[k]).value == (i[0].value
                >> (k as usize)) & 1usize && updated_outputs_of(Primitive::Splitter { bits }, i, o, t)[k].size == o[k].size,
        forall|k: int| bits <= k < o.len() ==> #[trigger] updated_outputs_of(Primitive::Splitter { bits }, i, o, t)[k] == o[k],
{
    let r = updated_outputs_of(Primitive::Splitter { bits }, i, o, t);
    assert forall|k: int| 0 <= k < bits implies (#[trigger] r[k]).value == (i[0].value >> (k as usize)) & 1usize by {
        lemma_shift_by_u8(i[0].value, k as u8);
    }
}

proof fn lemma_joined_bits(ds: Seq<Data>)
    requires
        ds.len() <= usize::BITS,
    ensures
        forall|j: int|
            0 <= j < usize::BITS ==> (((#[trigger] (joined_bits(ds) >> (j as usize))) & 1usize == 1usize) == (j < ds.len()
                && ds[j].value != 0)),
    decreases ds.len(),
{
    if ds.len() > 0 {
        let dl = ds.drop_last();
        lemma_joined_bits(dl);
        let n = (ds.len() - 1) as usize;
        assert forall|j: int| 0 <= j < usize::BITS implies (((#[trigger] (joined_bits(ds) >> (j as usize))) & 1usize
            == 1usize) == (j < ds.len() && ds[j].value != 0)) by {
            lemma_one_bit_changed(joined_bits(dl), n, j as usize);
            if j < dl.len() {
                assert(dl[j] == ds[j]);
            }
        }
    } else {
        assert forall|j: int| 0 <= j < usize::BITS implies !(((#[trigger] (joined_bits(ds) >> (j as usize))) & 1usize
            == 1usize)) by {
            lemma_one_bit_changed(0, 0, j as usize);
        }
    }
}

/// After an update, a joiner's output keeps its width, and its bit `j` is set
/// exactly when `j` is below that width and the joiner's input `j` is
/// non-zero; its other outputs stay.
pub proof fn lemma_joiner_update(bits: u8, i: Seq<Data>, o: Seq<Data>, t: u128)
    requires
        update_ok_of(Primitive::Joiner { bits }, i, o),
    ensures
        updated_outputs_of(Primitive::Joiner { bits }, i, o, t).len() == o.len(),
        updated_outputs_of(Primitive::Joiner { bits }, i, o, t)[0].size == o[0].size,
        forall|j: int|
            0 <= j < usize::BITS ==> (((#[trigger] (updated_outputs_of(Primitive::Joiner { bits }, i, o, t)[0].value >> (j as usize))) & 1usize == 1usize) == (j < o[0].size && j < i.len() && i[j].value != 0)),
        forall|k: int| 1 <= k < o.len() ==> #[trigger] updated_outputs_of(Primitive::Joiner { bits }, i, o, t)[k] == o[k],
{
    let r = updated_outputs_of(Primitive::Joiner { bits }, i, o, t);
    lemma_joined_bits(i);
    assert forall|j: int| 0 <= j < usize::BITS implies (((#[trigger] (r[0].value >> (j as usize))) & 1usize == 1usize) == (j
        < o[0].size && j < i.len() && i[j].value != 0)) by {
        lemma_low_bits(joined_bits(i), o[0].size, j as usize);
        assert(((joined_bits(i) >> (j as usize)) & 1usize == 1usize) == (j < i.len() && i[j].value != 0));
    }
}

} // verus!
