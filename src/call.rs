//! The call-convention resolver: direct or indirect passing of parameters and results.
use vstd::prelude::*;

use crate::error::RuntimeError;
use crate::flat::{FlatType, FlatValue};
use crate::flatten::{lift_from, lift_spec, lower, lower_spec};
use crate::layout::{align_up, alignment_of, flat_of, size_of, well_formed, TypeDescriptor};
use crate::marshal::{agree_on, encoded_heap_end, out_of_line_fits, text_fits, decode_spec, encode_spec, load, store, value_at};
use crate::memory::{GuestPointer, LinearMemory, MAX_ALLOCATION};
use crate::value::{has_type, is_inline, model, WitValue};

verus! {

/// Most flat parameter slots passed directly as call arguments.
pub const MAX_FLAT_PARAMETERS: usize = 16;

/// Most flat result slots returned directly.
pub const MAX_FLAT_RESULTS: usize = 1;

/// How a function's parameters cross the boundary.
#[derive(Clone, Copy, Debug, PartialEq, Eq, Structural)]
pub enum ParameterPassing {
    /// Each flat slot is a call argument.
    Direct,
    /// One argument points to the parameters stored as a record in guest memory.
    Indirect,
}

/// Where a function's results are placed.
#[derive(Clone, Copy, Debug, PartialEq, Eq, Structural)]
pub enum ResultStorage {
    /// The flat result slots are returned directly.
    Direct,
    /// The caller passes one more argument, a pointer where the callee stores the results.
    OutPointer,
}

/// The physical shape of a call.
#[derive(Debug)]
pub struct FunctionShape {
    pub parameters: ParameterPassing,
    pub results: ResultStorage,
    /// The flat slots passed into the call.
    pub input: Vec<FlatType>,
    /// The flat slots returned by the call.
    pub output: Vec<FlatType>,
}

pub open spec fn parameters_direct(parameters: Seq<FlatType>) -> bool {
    parameters.len() <= MAX_FLAT_PARAMETERS
}

pub open spec fn results_direct(results: Seq<FlatType>) -> bool {
    results.len() <= MAX_FLAT_RESULTS
}

/// The slots passed into a call with the given flat parameters and results.
pub open spec fn input_spec(parameters: Seq<FlatType>, results: Seq<FlatType>) -> Seq<FlatType> {
    (if parameters_direct(parameters) {
        parameters
    } else {
        seq![FlatType::I32]
    }) + (if results_direct(results) {
        seq![]
    } else {
        seq![FlatType::I32]
    })
}

/// The slots returned by a call with the given flat results.
pub open spec fn output_spec(results: Seq<FlatType>) -> Seq<FlatType> {
    if results_direct(results) {
        results
    } else {
        seq![]
    }
}

/// Chooses the call shape for a function whose parameters and results flatten to the given
/// slots.
pub fn function_shape(parameters: &Vec<FlatType>, results: &Vec<FlatType>) -> (r: FunctionShape)
    ensures
        parameters_direct(parameters@) <==> r.parameters == ParameterPassing::Direct,
        results_direct(results@) <==> r.results == ResultStorage::Direct,
        r.input@ == input_spec(parameters@, results@),
        r.output@ == output_spec(results@),
{
    let parameter_passing = if parameters.len() <= MAX_FLAT_PARAMETERS {
        ParameterPassing::Direct
    } else {
        ParameterPassing::Indirect
    };
    let result_storage = if results.len() <= MAX_FLAT_RESULTS {
        ResultStorage::Direct
    } else {
        ResultStorage::OutPointer
    };
    let mut input: Vec<FlatType> = Vec::new();
    if parameters.len() <= MAX_FLAT_PARAMETERS {
        let mut i: usize = 0;
        while i < parameters.len()
            invariant
                i <= parameters@.len(),
                input@ == parameters@.take(i as int),
            decreases parameters@.len() - i,
        {
            input.push(parameters[i]);
            i = i + 1;
            assert(input@ =~= parameters@.take(i as int));
        }
        assert(parameters@.take(parameters@.len() as int) =~= parameters@);
    } else {
        input.push(FlatType::I32);
    }
    let ghost before = input@;
    let mut output: Vec<FlatType> = Vec::new();
    if results.len() <= MAX_FLAT_RESULTS {
        let mut i: usize = 0;
        while i < results.len()
            invariant
                i <= results@.len(),
                output@ == results@.take(i as int),
            decreases results@.len() - i,
        {
            output.push(results[i]);
            i = i + 1;
            assert(output@ =~= results@.take(i as int));
        }
        assert(results@.take(results@.len() as int) =~= results@);
    } else {
        input.push(FlatType::I32);
    }
    assert(input@ =~= input_spec(parameters@, results@));
    FunctionShape {
        parameters: parameter_passing,
        results: result_storage,
        input,
        output,
    }
}

/// Chooses the call shape for a function with the given parameter record and result types.
pub fn shape_of(parameters: &TypeDescriptor, results: &TypeDescriptor) -> (r: FunctionShape)
    ensures
        parameters_direct(flat_of(*parameters)) <==> r.parameters == ParameterPassing::Direct,
        results_direct(flat_of(*results)) <==> r.results == ResultStorage::Direct,
        r.input@ == input_spec(flat_of(*parameters), flat_of(*results)),
        r.output@ == output_spec(flat_of(*results)),
{
    let parameter_slots = parameters.flat_layout();
    let result_slots = results.flat_layout();
    function_shape(&parameter_slots, &result_slots)
}

/// Lowers a call's parameters, given as one record value of type `parameters`.
///
/// Up to sixteen flat slots are passed directly. Beyond that, the record is stored in a fresh
/// allocation and the call receives its address alone.
pub fn lower_parameters(
    parameters: &TypeDescriptor,
    values: &WitValue,
    memory: &mut LinearMemory,
) -> (r: Result<Vec<FlatValue>, RuntimeError>)
    requires
        has_type(model(*values), *parameters),
        well_formed(*parameters),
        old(memory).wf(),
    ensures
        final(memory).wf(),
        is_inline(*parameters) && parameters_direct(flat_of(*parameters)) ==> r is Ok
            && r->Ok_0@ == lower_spec(*parameters, model(*values)) && *final(memory)
            == *old(memory),
        is_inline(*parameters) && !parameters_direct(flat_of(*parameters)) && r is Ok
            ==> r->Ok_0@.len() == 1 && r->Ok_0@[0] is I32 && r->Ok_0@[0]->I32_0 + size_of(
            *parameters,
        ) <= final(memory).spec_bytes().len() && final(memory).spec_bytes().subrange(
            r->Ok_0@[0]->I32_0 as int,
            r->Ok_0@[0]->I32_0 + size_of(*parameters),
        ) == encode_spec(*parameters, model(*values)),
        parameters_direct(flat_of(*parameters)) && r is Ok ==> r->Ok_0@.len() == flat_of(
            *parameters,
        ).len() && lift_spec(*parameters, r->Ok_0@, final(memory).spec_bytes()) == Some(
            model(*values),
        ),
        !parameters_direct(flat_of(*parameters)) && r is Ok ==> r->Ok_0@.len() == 1
            && r->Ok_0@[0] is I32 && r->Ok_0@[0]->I32_0 + size_of(*parameters)
            <= final(memory).spec_bytes().len() && value_at(
            *parameters,
            final(memory).spec_bytes().subrange(
                r->Ok_0@[0]->I32_0 as int,
                r->Ok_0@[0]->I32_0 + size_of(*parameters),
            ),
            final(memory).spec_bytes(),
        ) == Some(model(*values)),
        is_inline(*parameters) && !parameters_direct(flat_of(*parameters)) && size_of(*parameters)
            <= MAX_ALLOCATION && align_up(old(memory).spec_heap_end(), alignment_of(*parameters))
            + size_of(*parameters) <= old(memory).spec_bytes().len() ==> r is Ok && r->Ok_0@ == seq![
            FlatValue::I32(
                align_up(old(memory).spec_heap_end(), alignment_of(*parameters)) as u32,
            ),
        ],
        is_inline(*parameters) && !parameters_direct(flat_of(*parameters)) && size_of(*parameters)
            <= MAX_ALLOCATION && align_up(old(memory).spec_heap_end(), alignment_of(*parameters))
            + size_of(*parameters) <= old(memory).spec_bytes().len() ==> final(memory).spec_heap_end()
            == align_up(old(memory).spec_heap_end(), alignment_of(*parameters)) + size_of(
            *parameters,
        ),
        r is Err ==> final(memory).spec_heap_end() == old(memory).spec_heap_end(),
        parameters_direct(flat_of(*parameters)) && out_of_line_fits(
            *parameters,
            model(*values),
            *old(memory),
        ) ==> r is Ok,
        !parameters_direct(flat_of(*parameters)) && size_of(*parameters) <= MAX_ALLOCATION
            && align_up(old(memory).spec_heap_end(), alignment_of(*parameters)) + size_of(
            *parameters,
        ) <= old(memory).spec_bytes().len() && encoded_heap_end(
            *parameters,
            model(*values),
            align_up(old(memory).spec_heap_end(), alignment_of(*parameters)) + size_of(*parameters),
        ) is Some && encoded_heap_end(
            *parameters,
            model(*values),
            align_up(old(memory).spec_heap_end(), alignment_of(*parameters)) + size_of(*parameters),
        )->Some_0 <= old(memory).spec_bytes().len() ==> r is Ok,
{
    if parameters.count() <= MAX_FLAT_PARAMETERS {
        let ghost before = *memory;
        let r = lower(parameters, values, memory);
        proof {
            assert(agree_on(
                memory.spec_bytes(),
                memory.spec_bytes(),
                before.spec_heap_end(),
                memory.spec_heap_end(),
            ));
        }
        return r;
    }
    let size = parameters.size();
    let alignment = parameters.alignment();
    let mark = memory.heap_end();
    let mut allocation = match memory.allocate(size, alignment) {
        Ok(a) => a,
        Err(e) => {
            return Err(e);
        },
    };
    let address = match allocation.address() {
        Ok(p) => p,
        Err(e) => {
            return Err(e);
        },
    };
    match store(parameters, values, memory, address) {
        Ok(()) => {},
        Err(e) => {
            let _ = memory.deallocate(&mut allocation);
            memory.release_to(mark);
            return Err(e);
        },
    }
    proof {
        if is_inline(*parameters) {
            crate::marshal::lemma_encode_len(*parameters, model(*values));
            assert(memory.spec_bytes().subrange(
                address.0 as int,
                address.0 + size_of(*parameters),
            ) =~= encode_spec(*parameters, model(*values)));
        }
    }
    Ok(vec![FlatValue::I32(address.0)])
}

/// Lifts a call's parameters on the callee's side, reading the record from memory where they
/// were passed indirectly.
pub fn lift_parameters(parameters: &TypeDescriptor, input: &Vec<FlatValue>, memory: &LinearMemory) -> (r:
    Result<WitValue, RuntimeError>)
    requires
        well_formed(*parameters),
        memory.wf(),
    ensures
        parameters_direct(flat_of(*parameters)) && input@.len() != flat_of(*parameters).len()
            ==> r == Err::<WitValue, RuntimeError>(RuntimeError::InvalidLayout),
        parameters_direct(flat_of(*parameters)) && input@.len() == flat_of(*parameters).len()
            ==> match lift_spec(*parameters, input@, memory.spec_bytes()) {
            Some(m) => r is Ok && model(r->Ok_0) == m,
            None => r is Err,
        },
        !parameters_direct(flat_of(*parameters)) && input@.len() == 1 && input@[0] is I32
            && input@[0]->I32_0 + size_of(*parameters) <= memory.spec_bytes().len() ==> match value_at(
            *parameters,
            memory.spec_bytes().subrange(
                input@[0]->I32_0 as int,
                input@[0]->I32_0 + size_of(*parameters),
            ),
            memory.spec_bytes(),
        ) {
            Some(m) => r is Ok && model(r->Ok_0) == m,
            None => r is Err,
        },
        is_inline(*parameters) && parameters_direct(flat_of(*parameters)) && input@.len()
            == flat_of(*parameters).len() ==> match lift_spec(*parameters, input@, memory.spec_bytes()) {
            Some(m) => r is Ok && model(r->Ok_0) == m,
            None => r == Err::<WitValue, RuntimeError>(RuntimeError::InvalidLayout),
        },
        !parameters_direct(flat_of(*parameters)) && !(input@.len() == 1 && input@[0] is I32)
            ==> r == Err::<WitValue, RuntimeError>(RuntimeError::InvalidLayout),
        is_inline(*parameters) && !parameters_direct(flat_of(*parameters)) && input@.len() == 1
            && input@[0] is I32 && input@[0]->I32_0 + size_of(*parameters)
            <= memory.spec_bytes().len() ==> match decode_spec(
            *parameters,
            memory.spec_bytes().subrange(
                input@[0]->I32_0 as int,
                input@[0]->I32_0 + size_of(*parameters),
            ),
        ) {
            Some(m) => r is Ok && model(r->Ok_0) == m,
            None => r == Err::<WitValue, RuntimeError>(RuntimeError::InvalidLayout),
        },
{
    if parameters.count() <= MAX_FLAT_PARAMETERS {
        return lift_from(parameters, input, memory);
    }
    if input.len() != 1 {
        return Err(RuntimeError::InvalidLayout);
    }
    match input[0] {
        FlatValue::I32(address) => load(parameters, memory, GuestPointer(address)),
        _ => Err(RuntimeError::InvalidLayout),
    }
}

/// Lowers a call's results on the callee's side: one slot at most is returned directly, more
/// are stored at `destination`, the caller's out-pointer.
pub fn lower_results(
    results: &TypeDescriptor,
    value: &WitValue,
    memory: &mut LinearMemory,
    destination: GuestPointer,
) -> (r: Result<Vec<FlatValue>, RuntimeError>)
    requires
        has_type(model(*value), *results),
        well_formed(*results),
        old(memory).wf(),
    ensures
        final(memory).wf(),
        is_inline(*results) && results_direct(flat_of(*results)) ==> r is Ok && r->Ok_0@
            == lower_spec(*results, model(*value)) && *final(memory) == *old(memory),
        is_inline(*results) && !results_direct(flat_of(*results)) && destination.0 + size_of(
            *results,
        ) <= old(memory).spec_bytes().len() ==> r is Ok && r->Ok_0@.len() == 0
            && final(memory).spec_bytes() == old(memory).spec_bytes().update_subrange_with(
            destination.0 as int,
            encode_spec(*results, model(*value)),
        ),
        is_inline(*results) && !results_direct(flat_of(*results)) && destination.0 + size_of(
            *results,
        ) > old(memory).spec_bytes().len() ==> r == Err::<Vec<FlatValue>, RuntimeError>(
            RuntimeError::OutOfBounds,
        ),
        results_direct(flat_of(*results)) && r is Ok ==> r->Ok_0@.len() == flat_of(*results).len()
            && lift_spec(*results, r->Ok_0@, final(memory).spec_bytes()) == Some(model(*value)),
        !results_direct(flat_of(*results)) && r is Ok && destination.0 + size_of(*results)
            <= old(memory).spec_heap_end() ==> r->Ok_0@.len() == 0 && value_at(
            *results,
            final(memory).spec_bytes().subrange(
                destination.0 as int,
                destination.0 + size_of(*results),
            ),
            final(memory).spec_bytes(),
        ) == Some(model(*value)),
        *value is Text && text_fits(*old(memory), value->Text_0@) && destination.0 + 8
            <= old(memory).spec_heap_end() ==> r is Ok && r->Ok_0@.len() == 0,
        r is Err ==> final(memory).spec_heap_end() == old(memory).spec_heap_end(),
        results_direct(flat_of(*results)) && out_of_line_fits(*results, model(*value), *old(memory))
            ==> r is Ok,
        !results_direct(flat_of(*results)) && out_of_line_fits(
            *results,
            model(*value),
            *old(memory),
        ) && destination.0 + size_of(*results) <= old(memory).spec_heap_end() ==> r is Ok,
{
    if results.count() <= MAX_FLAT_RESULTS {
        let ghost before = *memory;
        let r = lower(results, value, memory);
        proof {
            assert(agree_on(
                memory.spec_bytes(),
                memory.spec_bytes(),
                before.spec_heap_end(),
                memory.spec_heap_end(),
            ));
        }
        return r;
    }
    match store(results, value, memory, destination) {
        Ok(()) => Ok(Vec::new()),
        Err(e) => Err(e),
    }
}

/// Lifts a call's results on the caller's side: from the returned slots, or from `source`, the
/// out-pointer the caller passed.
pub fn lift_results(
    results: &TypeDescriptor,
    output: &Vec<FlatValue>,
    memory: &LinearMemory,
    source: GuestPointer,
) -> (r: Result<WitValue, RuntimeError>)
    requires
        well_formed(*results),
        memory.wf(),
    ensures
        results_direct(flat_of(*results)) && output@.len() != flat_of(*results).len() ==> r
            == Err::<WitValue, RuntimeError>(RuntimeError::InvalidLayout),
        results_direct(flat_of(*results)) && output@.len() == flat_of(*results).len() ==> match lift_spec(
            *results,
            output@,
            memory.spec_bytes(),
        ) {
            Some(m) => r is Ok && model(r->Ok_0) == m,
            None => r is Err,
        },
        !results_direct(flat_of(*results)) && source.0 + size_of(*results)
            <= memory.spec_bytes().len() ==> match value_at(
            *results,
            memory.spec_bytes().subrange(source.0 as int, source.0 + size_of(*results)),
            memory.spec_bytes(),
        ) {
            Some(m) => r is Ok && model(r->Ok_0) == m,
            None => r is Err,
        },
        is_inline(*results) && results_direct(flat_of(*results)) && output@.len() == flat_of(
            *results,
        ).len() ==> match lift_spec(*results, output@, memory.spec_bytes()) {
            Some(m) => r is Ok && model(r->Ok_0) == m,
            None => r == Err::<WitValue, RuntimeError>(RuntimeError::InvalidLayout),
        },
        !results_direct(flat_of(*results)) && source.0 + size_of(*results)
            > memory.spec_bytes().len() ==> r == Err::<WitValue, RuntimeError>(
            RuntimeError::OutOfBounds,
        ),
        is_inline(*results) && !results_direct(flat_of(*results)) && source.0 + size_of(*results)
            <= memory.spec_bytes().len() ==> match decode_spec(
            *results,
            memory.spec_bytes().subrange(source.0 as int, source.0 + size_of(*results)),
        ) {
            Some(m) => r is Ok && model(r->Ok_0) == m,
            None => r == Err::<WitValue, RuntimeError>(RuntimeError::InvalidLayout),
        },
{
    if results.count() <= MAX_FLAT_RESULTS {
        return lift_from(results, output, memory);
    }
    load(results, memory, source)
}

} // verus!
