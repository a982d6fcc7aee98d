use witty::call::{
    function_shape, lift_parameters, lift_results, lower_parameters, lower_results, shape_of,
    ParameterPassing, ResultStorage,
};
use witty::error::RuntimeError;
use witty::flat::{FlatType, FlatValue};
use witty::flatten::{lift_from, lower};
use witty::layout::TypeDescriptor;
use witty::marshal::{load, store};
use witty::memory::{GuestPointer, LinearMemory};
use witty::value::WitValue;

fn parameters(types: Vec<TypeDescriptor>) -> TypeDescriptor {
    TypeDescriptor::Record(types)
}

/// Sends `value` of type `t` as a result from callee to caller through the flat form.
fn result_round_trip(t: TypeDescriptor, value: WitValue) -> WitValue {
    let mut memory = LinearMemory::new(64, 32);
    let output = lower_results(&t, &value, &mut memory, GuestPointer(0)).expect("lower");
    lift_results(&t, &output, &memory, GuestPointer(0)).expect("lift")
}

/// Sends `value` of type `t` as the single parameter from caller to callee.
fn parameter_round_trip(t: TypeDescriptor, value: WitValue) -> WitValue {
    let record = parameters(vec![t]);
    let mut memory = LinearMemory::new(64, 32);
    let input = lower_parameters(&record, &WitValue::Record(vec![value]), &mut memory)
        .expect("lower");
    match lift_parameters(&record, &input, &memory).expect("lift") {
        WitValue::Record(mut fields) => fields.remove(0),
        other => panic!("unexpected {:?}", other),
    }
}

/// Sends `value` of type `t` through linear memory.
fn memory_round_trip(t: TypeDescriptor, value: WitValue) -> WitValue {
    let mut memory = LinearMemory::new(64, 32);
    store(&t, &value, &mut memory, GuestPointer(8)).expect("store");
    load(&t, &memory, GuestPointer(8)).expect("load")
}

#[test]
fn wasmer_simple_function() {
    let shape = shape_of(&parameters(vec![]), &TypeDescriptor::Unit);
    assert_eq!(shape.parameters, ParameterPassing::Direct);
    assert_eq!(shape.results, ResultStorage::Direct);
    assert!(shape.input.is_empty());
    assert!(shape.output.is_empty());
}

#[test]
fn simple_function_wasmtime() {
    let mut memory = LinearMemory::new(8, 0);
    let unit = parameters(vec![]);
    let input = lower_parameters(&unit, &WitValue::Record(vec![]), &mut memory).expect("lower");
    assert!(input.is_empty());
    assert_eq!(lift_parameters(&unit, &input, &memory), Ok(WitValue::Record(vec![])));
    assert_eq!(
        lift_results(&TypeDescriptor::Unit, &vec![], &memory, GuestPointer(0)),
        Ok(WitValue::Unit)
    );
}

fn getter_values() -> Vec<(TypeDescriptor, WitValue)> {
    vec![
        (TypeDescriptor::Bool, WitValue::Bool(true)),
        (TypeDescriptor::Bool, WitValue::Bool(false)),
        (TypeDescriptor::S8, WitValue::S8(-125)),
        (TypeDescriptor::U8, WitValue::U8(200)),
        (TypeDescriptor::S16, WitValue::S16(-410)),
        (TypeDescriptor::U16, WitValue::U16(60_000)),
        (TypeDescriptor::S32, WitValue::S32(-100_000)),
        (TypeDescriptor::U32, WitValue::U32(3_000_111)),
        (TypeDescriptor::Float32, WitValue::Float32((-0.125f32).to_bits())),
        (TypeDescriptor::Float64, WitValue::Float64(128.25f64.to_bits())),
    ]
}

#[test]
fn getters() {
    for (t, value) in getter_values() {
        let shape = shape_of(&parameters(vec![]), &t);
        assert_eq!(shape.results, ResultStorage::Direct);
        assert_eq!(shape.output.len(), 1);
        let expected = format!("{:?}", value);
        assert_eq!(format!("{:?}", result_round_trip(t, value)), expected);
    }
}

#[test]
fn getters_wasmtime() {
    for (t, value) in getter_values() {
        let expected = format!("{:?}", value);
        assert_eq!(format!("{:?}", memory_round_trip(t, value)), expected);
    }
    let float = result_round_trip(TypeDescriptor::Float32, WitValue::Float32((-0.125f32).to_bits()));
    assert_eq!(float, WitValue::Float32((-0.125f32).to_bits()));
    match float {
        WitValue::Float32(bits) => assert_eq!(f32::from_bits(bits), -0.125),
        other => panic!("unexpected {:?}", other),
    }
}

fn setter_values() -> Vec<(TypeDescriptor, WitValue)> {
    vec![
        (TypeDescriptor::Bool, WitValue::Bool(false)),
        (TypeDescriptor::S8, WitValue::S8(-100)),
        (TypeDescriptor::U8, WitValue::U8(201)),
        (TypeDescriptor::S16, WitValue::S16(-20_000)),
        (TypeDescriptor::U16, WitValue::U16(50_000)),
        (TypeDescriptor::S32, WitValue::S32(-2_000_000)),
        (TypeDescriptor::U32, WitValue::U32(4_000_000)),
        (TypeDescriptor::Float32, WitValue::Float32(10.4f32.to_bits())),
        (TypeDescriptor::Float64, WitValue::Float64((-0.000_08f64).to_bits())),
    ]
}

#[test]
fn setters() {
    for (t, value) in setter_values() {
        let shape = shape_of(&parameters(vec![t]), &TypeDescriptor::Unit);
        assert_eq!(shape.parameters, ParameterPassing::Direct);
        assert_eq!(shape.input.len(), 1);
    }
    for (t, value) in setter_values() {
        let expected = format!("{:?}", value);
        assert_eq!(format!("{:?}", parameter_round_trip(t, value)), expected);
    }
    match parameter_round_trip(TypeDescriptor::Float64, WitValue::Float64((-0.000_08f64).to_bits())) {
        WitValue::Float64(bits) => assert_eq!(f64::from_bits(bits), -0.000_08),
        other => panic!("unexpected {:?}", other),
    }
}

#[test]
fn setters_wasmtime() {
    for (t, value) in setter_values() {
        let expected = format!("{:?}", value);
        assert_eq!(format!("{:?}", memory_round_trip(t, value)), expected);
    }
}

fn add_on_callee(t: &TypeDescriptor, first: WitValue, second: WitValue) -> WitValue {
    let record = parameters(vec![clone_scalar_type(t), clone_scalar_type(t)]);
    let mut memory = LinearMemory::new(64, 32);
    let input = lower_parameters(&record, &WitValue::Record(vec![first, second]), &mut memory)
        .expect("lower");
    assert_eq!(input.len(), 2);
    let fields = match lift_parameters(&record, &input, &memory).expect("lift") {
        WitValue::Record(fields) => fields,
        other => panic!("unexpected {:?}", other),
    };
    let sum = match (&fields[0], &fields[1]) {
        (WitValue::Bool(a), WitValue::Bool(b)) => WitValue::Bool(*a && *b),
        (WitValue::S8(a), WitValue::S8(b)) => WitValue::S8(a + b),
        (WitValue::U8(a), WitValue::U8(b)) => WitValue::U8(a + b),
        (WitValue::S16(a), WitValue::S16(b)) => WitValue::S16(a + b),
        (WitValue::U16(a), WitValue::U16(b)) => WitValue::U16(a + b),
        (WitValue::S32(a), WitValue::S32(b)) => WitValue::S32(a + b),
        (WitValue::U32(a), WitValue::U32(b)) => WitValue::U32(a + b),
        (WitValue::S64(a), WitValue::S64(b)) => WitValue::S64(a + b),
        (WitValue::U64(a), WitValue::U64(b)) => WitValue::U64(a + b),
        (WitValue::Float32(a), WitValue::Float32(b)) => {
            WitValue::Float32((f32::from_bits(*a) + f32::from_bits(*b)).to_bits())
        }
        (WitValue::Float64(a), WitValue::Float64(b)) => {
            WitValue::Float64((f64::from_bits(*a) + f64::from_bits(*b)).to_bits())
        }
        other => panic!("unexpected {:?}", other),
    };
    let output = lower_results(t, &sum, &mut memory, GuestPointer(0)).expect("lower result");
    lift_results(t, &output, &memory, GuestPointer(0)).expect("lift result")
}

fn clone_scalar_type(t: &TypeDescriptor) -> TypeDescriptor {
    match t {
        TypeDescriptor::Bool => TypeDescriptor::Bool,
        TypeDescriptor::S8 => TypeDescriptor::S8,
        TypeDescriptor::U8 => TypeDescriptor::U8,
        TypeDescriptor::S16 => TypeDescriptor::S16,
        TypeDescriptor::U16 => TypeDescriptor::U16,
        TypeDescriptor::S32 => TypeDescriptor::S32,
        TypeDescriptor::U32 => TypeDescriptor::U32,
        TypeDescriptor::S64 => TypeDescriptor::S64,
        TypeDescriptor::U64 => TypeDescriptor::U64,
        TypeDescriptor::Float32 => TypeDescriptor::Float32,
        TypeDescriptor::Float64 => TypeDescriptor::Float64,
        other => panic!("not a scalar: {:?}", other),
    }
}

#[test]
fn operations() {
    assert_eq!(
        add_on_callee(&TypeDescriptor::Bool, WitValue::Bool(true), WitValue::Bool(false)),
        WitValue::Bool(false)
    );
    assert_eq!(add_on_callee(&TypeDescriptor::S8, WitValue::S8(-100), WitValue::S8(27)), WitValue::S8(-73));
    assert_eq!(add_on_callee(&TypeDescriptor::U8, WitValue::U8(200), WitValue::U8(55)), WitValue::U8(255));
    assert_eq!(
        add_on_callee(&TypeDescriptor::S16, WitValue::S16(-20_000), WitValue::S16(-410)),
        WitValue::S16(-20_410)
    );
    assert_eq!(
        add_on_callee(&TypeDescriptor::U16, WitValue::U16(50_000), WitValue::U16(15_000)),
        WitValue::U16(65_000)
    );
    assert_eq!(
        add_on_callee(&TypeDescriptor::S32, WitValue::S32(-2_000_000), WitValue::S32(100_000)),
        WitValue::S32(-1_900_000)
    );
    assert_eq!(
        add_on_callee(&TypeDescriptor::U32, WitValue::U32(4_000_000), WitValue::U32(3_000_111)),
        WitValue::U32(7_000_111)
    );
    assert_eq!(
        add_on_callee(&TypeDescriptor::S64, WitValue::S64(-(1 << 40)), WitValue::S64(1)),
        WitValue::S64(-(1 << 40) + 1)
    );
    assert_eq!(
        add_on_callee(&TypeDescriptor::U64, WitValue::U64(1 << 63), WitValue::U64(5)),
        WitValue::U64((1 << 63) + 5)
    );
    assert_eq!(
        add_on_callee(
            &TypeDescriptor::Float32,
            WitValue::Float32(10.5f32.to_bits()),
            WitValue::Float32((-0.125f32).to_bits())
        ),
        WitValue::Float32(10.375f32.to_bits())
    );
    assert_eq!(
        add_on_callee(
            &TypeDescriptor::Float64,
            WitValue::Float64(128.25f64.to_bits()),
            WitValue::Float64(0.5f64.to_bits())
        ),
        WitValue::Float64(128.75f64.to_bits())
    );
}

#[test]
fn operations_wasmtime() {
    let pair = parameters(vec![TypeDescriptor::U64, TypeDescriptor::U64]);
    let shape = shape_of(&pair, &TypeDescriptor::U64);
    assert_eq!(shape.input, vec![FlatType::I64, FlatType::I64]);
    assert_eq!(shape.output, vec![FlatType::I64]);
    let value = WitValue::Record(vec![WitValue::U64(40), WitValue::U64(2)]);
    assert_eq!(memory_round_trip(pair, value), WitValue::Record(vec![WitValue::U64(40), WitValue::U64(2)]));
}

#[test]
fn sixteen_parameters_pass_directly() {
    let direct = function_shape(&vec![FlatType::I32; 16], &vec![FlatType::I32]);
    assert_eq!(direct.parameters, ParameterPassing::Direct);
    assert_eq!(direct.input.len(), 16);
    assert_eq!(direct.results, ResultStorage::Direct);
    assert_eq!(direct.output, vec![FlatType::I32]);
}

#[test]
fn seventeen_parameters_pass_through_a_pointer() {
    let indirect = function_shape(&vec![FlatType::I64; 17], &vec![]);
    assert_eq!(indirect.parameters, ParameterPassing::Indirect);
    assert_eq!(indirect.input, vec![FlatType::I32]);
    assert!(indirect.output.is_empty());
}

#[test]
fn two_results_use_an_out_pointer() {
    let shape = function_shape(&vec![FlatType::F32], &vec![FlatType::I32, FlatType::I64]);
    assert_eq!(shape.results, ResultStorage::OutPointer);
    assert_eq!(shape.input, vec![FlatType::F32, FlatType::I32]);
    assert!(shape.output.is_empty());
    let both = function_shape(&vec![FlatType::I32; 20], &vec![FlatType::I32; 2]);
    assert_eq!(both.input, vec![FlatType::I32, FlatType::I32]);
}

#[test]
fn many_parameters_are_stored_in_memory() {
    let types: Vec<TypeDescriptor> = (0..17).map(|_| TypeDescriptor::U32).collect();
    let record = parameters(types);
    let values = WitValue::Record((0..17).map(|i| WitValue::U32(i * 3)).collect());
    let mut memory = LinearMemory::new(256, 100);
    let input = lower_parameters(&record, &values, &mut memory).expect("lower");
    assert_eq!(input, vec![FlatValue::I32(100)]);
    assert_eq!(memory.heap_end(), 100 + 68);
    assert_eq!(memory.read(GuestPointer(104), 4).expect("read"), vec![3, 0, 0, 0]);
    assert_eq!(lift_parameters(&record, &input, &memory), Ok(values));
    assert_eq!(
        lift_parameters(&record, &vec![FlatValue::I32(0), FlatValue::I32(0)], &memory),
        Err(RuntimeError::InvalidLayout)
    );
}

#[test]
fn wide_results_are_stored_at_the_out_pointer() {
    let t = TypeDescriptor::Record(vec![TypeDescriptor::U8, TypeDescriptor::U8]);
    let value = WitValue::Record(vec![WitValue::U8(1), WitValue::U8(2)]);
    let mut memory = LinearMemory::new(16, 16);
    let output = lower_results(&t, &value, &mut memory, GuestPointer(6)).expect("lower");
    assert!(output.is_empty());
    assert_eq!(memory.read(GuestPointer(6), 2).expect("read"), vec![1, 2]);
    assert_eq!(lift_results(&t, &output, &memory, GuestPointer(6)), Ok(value));
    assert_eq!(
        lower_results(&t, &WitValue::Record(vec![WitValue::U8(1), WitValue::U8(2)]), &mut memory, GuestPointer(15)),
        Err(RuntimeError::OutOfBounds)
    );
}

#[test]
fn flat_form_of_a_record_matches_its_layout() {
    let t = parameters(vec![TypeDescriptor::U8, TypeDescriptor::Float64]);
    let v = WitValue::Record(vec![WitValue::U8(3), WitValue::Float64(2.0f64.to_bits())]);
    let mut memory = LinearMemory::new(0, 0);
    let flat = lower(&t, &v, &mut memory).expect("lower");
    assert_eq!(flat, vec![FlatValue::I32(3), FlatValue::F64(2.0f64.to_bits())]);
    assert_eq!(lift_from(&t, &flat, &memory), Ok(v));
}

#[test]
fn string_parameter_and_result_cross_the_boundary() {
    let record = parameters(vec![TypeDescriptor::Text, TypeDescriptor::U32]);
    let values = WitValue::Record(vec![WitValue::Text("witty".to_string()), WitValue::U32(4)]);
    let mut memory = LinearMemory::new(128, 16);
    let input = lower_parameters(&record, &values, &mut memory).expect("lower");
    assert_eq!(input, vec![FlatValue::I32(16), FlatValue::I32(5), FlatValue::I32(4)]);
    assert_eq!(lift_parameters(&record, &input, &memory), Ok(values));

    let text = TypeDescriptor::Text;
    let result = WitValue::Text("done".to_string());
    let output = lower_results(&text, &result, &mut memory, GuestPointer(0)).expect("lower");
    assert!(output.is_empty());
    assert_eq!(lift_results(&text, &output, &memory, GuestPointer(0)), Ok(result));
}

#[test]
fn many_string_parameters_are_stored_in_memory() {
    let types: Vec<TypeDescriptor> = (0..9).map(|_| TypeDescriptor::Text).collect();
    let record = parameters(types);
    let values = WitValue::Record((0..9).map(|i| WitValue::Text(format!("s{}", i))).collect());
    let mut memory = LinearMemory::new(256, 16);
    let input = lower_parameters(&record, &values, &mut memory).expect("lower");
    // the 72-byte record first, then nine 2-byte strings
    assert_eq!(input, vec![FlatValue::I32(16)]);
    assert_eq!(memory.heap_end(), 16 + 72 + 18);
    assert_eq!(lift_parameters(&record, &input, &memory), Ok(values));
}
