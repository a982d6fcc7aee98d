use witty::error::RuntimeError;
use witty::layout::{TypeDescriptor, WitType};
use witty::memory::{
    allocation_from_guest, free_argument, realloc_arguments, GuestPointer, LinearMemory,
    MAX_ALLOCATION,
};
use witty::runtime::{
    AllocatorExports, Caller, Export, ExportFunction, Imports, Instance, InstanceAndData, InstanceWithStore,
    NamedExport, Resources, StoreRuntime,
};

fn instance() -> Instance {
    Instance {
        exports: vec![
            NamedExport { name: "memory".to_string(), export: Export::Memory(0) },
            NamedExport { name: "cabi_realloc".to_string(), export: Export::Function(3) },
            NamedExport { name: "table".to_string(), export: Export::Other },
        ],
    }
}

#[test]
fn deallocating_twice_fails() {
    let mut memory = LinearMemory::new(64, 16);
    let mut allocation = memory.allocate(8, 4).expect("allocate");
    assert_eq!(allocation.address(), Ok(GuestPointer(16)));
    assert_eq!(memory.deallocate(&mut allocation), Ok(()));
    assert!(!allocation.is_live());
    assert_eq!(allocation.address(), Err(RuntimeError::AlreadyDeallocated));
    assert_eq!(memory.deallocate(&mut allocation), Err(RuntimeError::AlreadyDeallocated));
}

#[test]
fn allocation_is_aligned_and_bounded() {
    let mut memory = LinearMemory::new(64, 13);
    let first = memory.allocate(3, 8).expect("allocate");
    assert_eq!(first.address(), Ok(GuestPointer(16)));
    assert_eq!(memory.heap_end(), 19);
    assert_eq!(memory.allocate(46, 1).err(), Some(RuntimeError::AllocationFailed));
    assert_eq!(memory.allocate(MAX_ALLOCATION + 1, 1).err(), Some(RuntimeError::AllocationTooLarge));
    assert_eq!(memory.heap_end(), 19);
}

#[test]
fn guest_pointer_arithmetic() {
    let leaf = TypeDescriptor::Record(vec![TypeDescriptor::Bool, TypeDescriptor::U128]);
    let p = GuestPointer(3);
    assert_eq!(p.after(&TypeDescriptor::U16), GuestPointer(5));
    assert_eq!(p.after_padding_for(&TypeDescriptor::U32), GuestPointer(4));
    assert_eq!(p.after_padding_for(&leaf), GuestPointer(8));
    let odd = TypeDescriptor::Record(vec![TypeDescriptor::U32, TypeDescriptor::U8]);
    assert_eq!(GuestPointer(100).index(&odd, 3), GuestPointer(124));
    assert_eq!(GuestPointer(100).index(&leaf, 2), GuestPointer(148));
}

#[test]
fn wit_types_of_rust_types() {
    assert_eq!(<u64 as WitType>::wit_type(), TypeDescriptor::U64);
    assert_eq!(<String as WitType>::wit_type(), TypeDescriptor::Text);
    assert_eq!(
        <Vec<i8> as WitType>::wit_type(),
        TypeDescriptor::List(Box::new(TypeDescriptor::S8))
    );
    assert_eq!(<u128 as WitType>::wit_type().size(), 16);
}

#[test]
fn export_lookup_errors() {
    let state = InstanceAndData::new(Some(instance()), 7u32);
    assert_eq!(*state.data(), 7);
    assert_eq!(state.load_export("cabi_realloc"), Some(Export::Function(3)));
    assert_eq!(state.load_export("missing"), None);
    assert_eq!(state.load_function("cabi_realloc"), Ok(3));
    assert_eq!(
        state.load_function("cabi_free"),
        Err(RuntimeError::FunctionNotFound("cabi_free".to_string()))
    );
    assert_eq!(
        state.load_function("memory"),
        Err(RuntimeError::NotAFunction("memory".to_string()))
    );
    assert_eq!(state.memory(), Ok(0));

    let without_memory = InstanceAndData::new(
        Some(Instance { exports: vec![] }),
        (),
    );
    assert_eq!(without_memory.memory(), Err(RuntimeError::MissingMemory));
    let wrong_memory = InstanceAndData::new(
        Some(Instance {
            exports: vec![NamedExport { name: "memory".to_string(), export: Export::Function(1) }],
        }),
        (),
    );
    assert_eq!(wrong_memory.memory(), Err(RuntimeError::NotMemory));
}

#[test]
fn reentrant_call_is_refused() {
    let mut state = InstanceAndData::new(Some(instance()), ());
    assert!(state.begin_call());
    assert!(!state.begin_call());
    state.end_call();
    assert!(state.begin_call());
}

#[test]
fn imports_are_installed_at_instantiation() {
    let mut imports = Imports::new(LinearMemory::new(16, 0), 5i64);
    assert!(!imports.environment().has_instance());
    imports.define("witty-macros:test-modules/simple-function", "simple", 0);
    imports.export("witty-macros:test-modules/getters", "get-true", 1);
    assert_eq!(imports.store().len(), 16);
    let runtime: StoreRuntime<i64> = imports.instantiate(instance());
    assert!(runtime.instance_and_data().has_instance());
    assert_eq!(*runtime.instance_and_data().data(), 5);
    assert_eq!(runtime.instance_and_data().memory(), Ok(0));

    let again = StoreRuntime::new(LinearMemory::new(4, 0), InstanceAndData::new(None, 1u8));
    assert!(!again.instance_and_data().has_instance());
    assert_eq!(again.store().len(), 4);
}

#[test]
fn instance_with_store_looks_up_exports() {
    let pair = InstanceWithStore::new(instance(), LinearMemory::new(8, 0), "data");
    assert_eq!(*pair.data(), "data");
    assert_eq!(pair.load_export("table"), Some(Export::Other));
}

#[test]
fn resources_hand_out_sequential_handles() {
    let mut resources: Resources<String> = Resources::new();
    assert_eq!(resources.insert("first".to_string()), 0);
    assert_eq!(resources.insert("second".to_string()), 1);
    assert_eq!(resources.get(1), "second");
    assert_eq!(resources.get(0), "first");
    assert_eq!(resources.len(), 2);
}

#[test]
fn guest_allocator_calls_are_decided_from_plain_values() {
    assert_eq!(realloc_arguments(24), Ok((0, 0, 1, 24)));
    assert_eq!(realloc_arguments(MAX_ALLOCATION), Ok((0, 0, 1, i32::MAX)));
    assert_eq!(realloc_arguments(MAX_ALLOCATION + 1), Err(RuntimeError::AllocationTooLarge));
    assert_eq!(allocation_from_guest(-1).err(), Some(RuntimeError::AllocationFailed));
    let mut allocation = allocation_from_guest(1024).expect("allocation");
    assert_eq!(allocation.address(), Ok(GuestPointer(1024)));
    assert_eq!(free_argument(&mut allocation), Ok(1024));
    assert_eq!(allocation.address(), Err(RuntimeError::AlreadyDeallocated));
    assert_eq!(free_argument(&mut allocation), Err(RuntimeError::AlreadyDeallocated));
}

#[test]
fn resources_accept_any_handle_that_fits() {
    let mut resources: Resources<u8> = Resources::new();
    assert_eq!(resources.insert(1), 0);
    assert_eq!(*resources.get(0), 1);
}

#[test]
fn allocator_exports_are_looked_up_once() {
    let with_exports = InstanceAndData::new(Some(instance()), ());
    let without_exports = InstanceAndData::new(Some(Instance { exports: vec![] }), ());
    let mut exports = AllocatorExports::new();
    assert_eq!(
        exports.realloc_function(&without_exports),
        Err(RuntimeError::FunctionNotFound("cabi_realloc".to_string()))
    );
    assert_eq!(exports.allocation_call(&with_exports, 16), Ok((3, (0, 0, 1, 16))));
    // resolved once, then reused even where the export is no longer visible
    assert_eq!(exports.realloc_function(&without_exports), Ok(3));
    assert_eq!(
        exports.allocation_call(&without_exports, MAX_ALLOCATION + 1),
        Err(RuntimeError::AllocationTooLarge)
    );
    let mut allocation = allocation_from_guest(64).expect("allocation");
    assert_eq!(
        exports.deallocation_call(&with_exports, &mut allocation),
        Err(RuntimeError::FunctionNotFound("cabi_free".to_string()))
    );
    assert!(allocation.is_live());
}

#[test]
fn lookup_errors_describe_the_export() {
    assert_eq!(
        RuntimeError::FunctionNotFound("cabi_free".to_string()).message(),
        "function `cabi_free` could not be found in the module's exports"
    );
    assert_eq!(
        RuntimeError::NotAFunction("memory".to_string()).message(),
        "export `memory` is not a function"
    );
}
