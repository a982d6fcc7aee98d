//! The runtime capability interface: instances, their exports, shared instance data and the
//! guard against reentrant access, and host-side resources.
use vstd::prelude::*;

use crate::error::RuntimeError;
use crate::memory::{
    free_argument, realloc_arguments, GuestAllocation, LinearMemory, MAX_ALLOCATION,
};

verus! {

/// Something an instance exports.
#[derive(Clone, Copy, Debug, PartialEq, Eq, Structural)]
pub enum Export {
    /// A function, by its index in the instance.
    Function(u32),
    /// A linear memory, by its index in the instance.
    Memory(u32),
    /// A global, table or other item the engine does not use.
    Other,
}

/// An export and the name it is exported under.
#[derive(Debug)]
pub struct NamedExport {
    pub name: String,
    pub export: Export,
}

/// An instantiated guest module, seen through its exports.
#[derive(Debug)]
pub struct Instance {
    pub exports: Vec<NamedExport>,
}

/// The first export named `name` among `exports`.
pub open spec fn find_export(exports: Seq<NamedExport>, name: Seq<char>) -> Option<Export>
    decreases exports.len(),
{
    if exports.len() == 0 {
        None
    } else if exports[0].name@ == name {
        Some(exports[0].export)
    } else {
        find_export(exports.drop_first(), name)
    }
}

/// The function `export` designates, if it is one.
pub open spec fn function_of(export: Option<Export>) -> Option<u32> {
    match export {
        Some(Export::Function(index)) => Some(index),
        _ => None,
    }
}

impl Instance {
    /// Looks an export up by name.
    pub fn get_export(&self, name: &str) -> (r: Option<Export>)
        ensures
            r == find_export(self.exports@, name@),
    {
        let wanted = name.to_owned();
        assert(self.exports@.subrange(0, self.exports@.len() as int) =~= self.exports@);
        let mut i: usize = 0;
        while i < self.exports.len()
            invariant
                i <= self.exports@.len(),
                wanted@ == name@,
                find_export(self.exports@, name@) == find_export(
                    self.exports@.subrange(i as int, self.exports@.len() as int),
                    name@,
                ),
            decreases self.exports@.len() - i,
        {
            let ghost rest = self.exports@.subrange(i as int, self.exports@.len() as int);
            assert(rest.drop_first() =~= self.exports@.subrange(
                i + 1,
                self.exports@.len() as int,
            ));
            if self.exports[i].name == wanted {
                return Some(self.exports[i].export);
            }
            i = i + 1;
        }
        None
    }
}

/// The state shared by an instance and the host functions it calls: the instance, once it
/// exists, the host's data, and whether a call into the instance is in progress.
#[derive(Debug)]
pub struct InstanceAndData<Data> {
    instance: Option<Instance>,
    data: Data,
    call_in_progress: bool,
}

impl<Data> InstanceAndData<Data> {
    pub closed spec fn spec_instance(&self) -> Option<Instance> {
        self.instance
    }

    pub closed spec fn spec_data(&self) -> Data {
        self.data
    }

    pub closed spec fn spec_call_in_progress(&self) -> bool {
        self.call_in_progress
    }

    /// Shared state for `instance`, which may not exist yet, and the host's `data`.
    pub fn new(instance: Option<Instance>, data: Data) -> (r: Self)
        ensures
            r.spec_instance() == instance,
            r.spec_data() == data,
            !r.spec_call_in_progress(),
    {
        InstanceAndData { instance, data, call_in_progress: false }
    }

    /// Whether the instance has been created.
    pub fn has_instance(&self) -> (r: bool)
        ensures
            r == self.spec_instance() is Some,
    {
        self.instance.is_some()
    }

    /// Resolves the exported function `name`.
    ///
    /// Fails with `FunctionNotFound` where nothing is exported under that name, and with
    /// `NotAFunction` where the export is not a function.
    pub fn load_function(&self, name: &str) -> (r: Result<u32, RuntimeError>)
        requires
            self.spec_instance() is Some,
        ensures
            ({
                let found = find_export(self.spec_instance()->Some_0.exports@, name@);
                &&& found is None ==> r is Err && r->Err_0 is FunctionNotFound
                    && r->Err_0->FunctionNotFound_0@ == name@
                &&& found is Some && function_of(found) is None ==> r is Err
                    && r->Err_0 is NotAFunction && r->Err_0->NotAFunction_0@ == name@
                &&& function_of(found) matches Some(index) ==> r == Ok::<u32, RuntimeError>(index)
            }),
    {
        match self.load_export(name) {
            None => Err(RuntimeError::FunctionNotFound(name.to_owned())),
            Some(Export::Function(index)) => Ok(index),
            Some(_) => Err(RuntimeError::NotAFunction(name.to_owned())),
        }
    }

    /// Resolves the instance's `memory` export.
    ///
    /// Fails with `MissingMemory` where there is none, and with `NotMemory` where the export is
    /// not a linear memory.
    pub fn memory(&self) -> (r: Result<u32, RuntimeError>)
        requires
            self.spec_instance() is Some,
        ensures
            ({
                let found = find_export(self.spec_instance()->Some_0.exports@, seq!['m', 'e', 'm', 'o', 'r', 'y']);
                &&& found is None ==> r == Err::<u32, RuntimeError>(RuntimeError::MissingMemory)
                &&& found matches Some(Export::Memory(index)) ==> r == Ok::<u32, RuntimeError>(index)
                &&& found is Some && !(found->Some_0 is Memory) ==> r == Err::<u32, RuntimeError>(
                    RuntimeError::NotMemory,
                )
            }),
    {
        let name = "memory";
        proof {
            reveal_strlit("memory");
            assert(name@ =~= seq!['m', 'e', 'm', 'o', 'r', 'y']);
        }
        match self.load_export(name) {
            None => Err(RuntimeError::MissingMemory),
            Some(Export::Memory(index)) => Ok(index),
            Some(_) => Err(RuntimeError::NotMemory),
        }
    }

    /// Marks a call into the instance as started, unless one already is in progress.
    ///
    /// Returns whether the call may proceed; a `false` is a reentrant use of the instance's
    /// shared state.
    pub fn begin_call(&mut self) -> (r: bool)
        ensures
            r == !old(self).spec_call_in_progress(),
            final(self).spec_call_in_progress(),
            final(self).spec_instance() == old(self).spec_instance(),
            final(self).spec_data() == old(self).spec_data(),
    {
        if self.call_in_progress {
            false
        } else {
            self.call_in_progress = true;
            true
        }
    }

    /// Marks the call in progress as finished.
    pub fn end_call(&mut self)
        ensures
            !final(self).spec_call_in_progress(),
            final(self).spec_instance() == old(self).spec_instance(),
            final(self).spec_data() == old(self).spec_data(),
    {
        self.call_in_progress = false;
    }

    /// Installs the instance once it has been created.
    pub fn set_instance(&mut self, instance: Instance)
        requires
            old(self).spec_instance() is None,
        ensures
            final(self).spec_instance() == Some(instance),
            final(self).spec_data() == old(self).spec_data(),
            final(self).spec_call_in_progress() == old(self).spec_call_in_progress(),
    {
        self.instance = Some(instance);
    }
}

/// The context of a call in progress: what a host function receives so that it can read the
/// host's data and call back into the same instance.
pub trait Caller<Data> {
    spec fn caller_data(&self) -> Data;

    /// The instance's exports, once the instance exists.
    spec fn caller_exports(&self) -> Option<Seq<NamedExport>>;

    /// The host's data.
    fn data(&self) -> (r: &Data)
        ensures
            *r == self.caller_data(),
    ;

    /// Looks an export of the instance up by name.
    fn load_export(&self, name: &str) -> (r: Option<Export>)
        requires
            self.caller_exports() is Some,
        ensures
            r == find_export(self.caller_exports()->Some_0, name@),
    ;
}

impl<Data> Caller<Data> for InstanceAndData<Data> {
    open spec fn caller_data(&self) -> Data {
        self.spec_data()
    }

    open spec fn caller_exports(&self) -> Option<Seq<NamedExport>> {
        match self.spec_instance() {
            Some(instance) => Some(instance.exports@),
            None => None,
        }
    }

    fn data(&self) -> (r: &Data) {
        &self.data
    }

    fn load_export(&self, name: &str) -> (r: Option<Export>) {
        match &self.instance {
            Some(instance) => instance.get_export(name),
            None => None,
        }
    }
}

/// Registering host functions under a module name and a function name, for a guest module to
/// import.
pub trait ExportFunction<Handler> {
    /// What has been registered, in order: module name, function name and handler.
    spec fn exported(&self) -> Seq<(Seq<char>, Seq<char>, Handler)>;

    fn export(&mut self, module_name: &str, function_name: &str, handler: Handler)
        ensures
            final(self).exported() == old(self).exported().push(
                (module_name@, function_name@, handler),
            ),
    ;
}

impl<Data> ExportFunction<u32> for Imports<Data> {
    open spec fn exported(&self) -> Seq<(Seq<char>, Seq<char>, u32)> {
        self.spec_imports().map_values(
            |d: ImportDefinition| (d.namespace@, d.name@, d.function),
        )
    }

    fn export(&mut self, module_name: &str, function_name: &str, handler: u32) {
        let ghost before = old(self).spec_imports();
        self.define(module_name, function_name, handler);
        proof {
            let after = self.spec_imports();
            assert forall|i: int| 0 <= i < before.len() implies after[i] == before[i] by {
                assert(after.drop_last()[i] == after[i]);
            }
            assert(self.exported() =~= old(self).exported().push(
                (module_name@, function_name@, handler),
            ));
        }
    }
}

/// The name of the guest's allocation export.
pub open spec fn realloc_export_name() -> Seq<char> {
    seq!['c', 'a', 'b', 'i', '_', 'r', 'e', 'a', 'l', 'l', 'o', 'c']
}

/// The name of the guest's deallocation export.
pub open spec fn free_export_name() -> Seq<char> {
    seq!['c', 'a', 'b', 'i', '_', 'f', 'r', 'e', 'e']
}

/// The guest's allocation and deallocation exports, looked up on first use and then reused.
#[derive(Debug)]
pub struct AllocatorExports {
    realloc: Option<u32>,
    free: Option<u32>,
}

impl AllocatorExports {
    pub closed spec fn spec_realloc(&self) -> Option<u32> {
        self.realloc
    }

    pub closed spec fn spec_free(&self) -> Option<u32> {
        self.free
    }

    /// Nothing looked up yet.
    pub fn new() -> (r: Self)
        ensures
            r.spec_realloc() is None,
            r.spec_free() is None,
    {
        AllocatorExports { realloc: None, free: None }
    }

    /// The guest's `cabi_realloc` function, looked up in `instance` only when it was not found
    /// before.
    pub fn realloc_function<Data>(&mut self, instance: &InstanceAndData<Data>) -> (r: Result<
        u32,
        RuntimeError,
    >)
        requires
            instance.spec_instance() is Some,
        ensures
            final(self).spec_free() == old(self).spec_free(),
            old(self).spec_realloc() matches Some(f) ==> r == Ok::<u32, RuntimeError>(f)
                && final(self).spec_realloc() == old(self).spec_realloc(),
            old(self).spec_realloc() is None ==> ({
                let found = function_of(
                    find_export(instance.spec_instance()->Some_0.exports@, realloc_export_name()),
                );
                &&& found matches Some(f) ==> r == Ok::<u32, RuntimeError>(f)
                    && final(self).spec_realloc() == Some(f)
                &&& found is None ==> r is Err && final(self).spec_realloc() is None
            }),
    {
        match self.realloc {
            Some(f) => Ok(f),
            None => {
                let name = "cabi_realloc";
                proof {
                    reveal_strlit("cabi_realloc");
                    assert(name@ =~= realloc_export_name());
                }
                match instance.load_function(name) {
                    Ok(f) => {
                        self.realloc = Some(f);
                        Ok(f)
                    },
                    Err(e) => Err(e),
                }
            },
        }
    }

    /// The guest's `cabi_free` function, looked up in `instance` only when it was not found
    /// before.
    pub fn free_function<Data>(&mut self, instance: &InstanceAndData<Data>) -> (r: Result<
        u32,
        RuntimeError,
    >)
        requires
            instance.spec_instance() is Some,
        ensures
            final(self).spec_realloc() == old(self).spec_realloc(),
            old(self).spec_free() matches Some(f) ==> r == Ok::<u32, RuntimeError>(f)
                && final(self).spec_free() == old(self).spec_free(),
            old(self).spec_free() is None ==> ({
                let found = function_of(
                    find_export(instance.spec_instance()->Some_0.exports@, free_export_name()),
                );
                &&& found matches Some(f) ==> r == Ok::<u32, RuntimeError>(f)
                    && final(self).spec_free() == Some(f)
                &&& found is None ==> r is Err && final(self).spec_free() is None
            }),
    {
        match self.free {
            Some(f) => Ok(f),
            None => {
                let name = "cabi_free";
                proof {
                    reveal_strlit("cabi_free");
                    assert(name@ =~= free_export_name());
                }
                match instance.load_function(name) {
                    Ok(f) => {
                        self.free = Some(f);
                        Ok(f)
                    },
                    Err(e) => Err(e),
                }
            },
        }
    }

    /// The call that asks the guest for `size` fresh bytes: the `cabi_realloc` function and its
    /// arguments. The runtime makes the call and hands the returned address to
    /// `allocation_from_guest`.
    pub fn allocation_call<Data>(&mut self, instance: &InstanceAndData<Data>, size: u32) -> (r:
        Result<(u32, (i32, i32, i32, i32)), RuntimeError>)
        requires
            instance.spec_instance() is Some,
        ensures
            final(self).spec_free() == old(self).spec_free(),
            final(self).spec_realloc() is Some ==> (size > MAX_ALLOCATION ==> r == Err::<
                (u32, (i32, i32, i32, i32)),
                RuntimeError,
            >(RuntimeError::AllocationTooLarge)) && (size <= MAX_ALLOCATION ==> r == Ok::<
                (u32, (i32, i32, i32, i32)),
                RuntimeError,
            >((final(self).spec_realloc()->Some_0, (0, 0, 1, size as i32)))),
            final(self).spec_realloc() is None ==> r is Err,
            old(self).spec_realloc() is Some ==> final(self).spec_realloc()
                == old(self).spec_realloc(),
            old(self).spec_realloc() is None ==> final(self).spec_realloc() == function_of(
                find_export(instance.spec_instance()->Some_0.exports@, realloc_export_name()),
            ),
    {
        let function = match self.realloc_function(instance) {
            Ok(f) => f,
            Err(e) => {
                return Err(e);
            },
        };
        match realloc_arguments(size) {
            Ok(arguments) => Ok((function, arguments)),
            Err(e) => Err(e),
        }
    }

    /// The call that returns `allocation` to the guest: the `cabi_free` function and the
    /// address. The allocation is released by it.
    pub fn deallocation_call<Data>(
        &mut self,
        instance: &InstanceAndData<Data>,
        allocation: &mut GuestAllocation,
    ) -> (r: Result<(u32, i32), RuntimeError>)
        requires
            instance.spec_instance() is Some,
        ensures
            final(self).spec_realloc() == old(self).spec_realloc(),
            old(self).spec_free() is Some ==> final(self).spec_free() == old(self).spec_free(),
            final(self).spec_free() is None ==> r is Err && *final(allocation) == *old(allocation),
            final(self).spec_free() is Some ==> final(allocation).spec_address() is None && ({
                let f = final(self).spec_free()->Some_0;
                &&& old(allocation).spec_address() is None ==> r == Err::<(u32, i32), RuntimeError>(
                    RuntimeError::AlreadyDeallocated,
                )
                &&& old(allocation).spec_address() is Some && old(allocation).spec_address()->Some_0.0
                    > MAX_ALLOCATION ==> r == Err::<(u32, i32), RuntimeError>(
                    RuntimeError::DeallocateInvalidAddress,
                )
                &&& old(allocation).spec_address() is Some && old(allocation).spec_address()->Some_0.0
                    <= MAX_ALLOCATION ==> r == Ok::<(u32, i32), RuntimeError>(
                    (f, old(allocation).spec_address()->Some_0.0 as i32),
                )
            }),
            old(self).spec_free() is None ==> final(self).spec_free() == function_of(
                find_export(instance.spec_instance()->Some_0.exports@, free_export_name()),
            ),
    {
        let function = match self.free_function(instance) {
            Ok(f) => f,
            Err(e) => {
                return Err(e);
            },
        };
        match free_argument(allocation) {
            Ok(address) => Ok((function, address)),
            Err(e) => Err(e),
        }
    }
}

/// A host function offered to a guest module under a namespace and a name.
#[derive(Debug)]
pub struct ImportDefinition {
    pub namespace: String,
    pub name: String,
    /// The host function's index.
    pub function: u32,
}

/// The imports a guest module is instantiated with, gathered before the instance exists.
///
/// Host functions receive the shared environment before instantiation; the instance is
/// installed into it when it is created.
#[derive(Debug)]
pub struct Imports<Data> {
    store: LinearMemory,
    imports: Vec<ImportDefinition>,
    environment: InstanceAndData<Data>,
}

impl<Data> Imports<Data> {
    pub closed spec fn spec_store(&self) -> LinearMemory {
        self.store
    }

    pub closed spec fn spec_imports(&self) -> Seq<ImportDefinition> {
        self.imports@
    }

    pub closed spec fn spec_environment(&self) -> InstanceAndData<Data> {
        self.environment
    }

    /// No imports yet, the store that will hold the instance's memory, and the host's data.
    pub fn new(store: LinearMemory, data: Data) -> (r: Self)
        ensures
            r.spec_store() == store,
            r.spec_imports().len() == 0,
            r.spec_environment().spec_instance() is None,
            r.spec_environment().spec_data() == data,
            !r.spec_environment().spec_call_in_progress(),
    {
        Imports { store, imports: Vec::new(), environment: InstanceAndData::new(None, data) }
    }

    /// The store.
    pub fn store(&self) -> (r: &LinearMemory)
        ensures
            *r == self.spec_store(),
    {
        &self.store
    }

    /// The environment shared with host functions.
    pub fn environment(&self) -> (r: &InstanceAndData<Data>)
        ensures
            *r == self.spec_environment(),
    {
        &self.environment
    }

    /// Offers the host function `function` as `namespace`.`name`.
    pub fn define(&mut self, namespace: &str, name: &str, function: u32)
        ensures
            final(self).spec_imports().len() == old(self).spec_imports().len() + 1,
            final(self).spec_imports().drop_last() == old(self).spec_imports(),
            final(self).spec_imports().last().namespace@ == namespace@,
            final(self).spec_imports().last().name@ == name@,
            final(self).spec_imports().last().function == function,
            final(self).spec_store() == old(self).spec_store(),
            final(self).spec_environment() == old(self).spec_environment(),
    {
        self.imports.push(
            ImportDefinition { namespace: namespace.to_owned(), name: name.to_owned(), function },
        );
        assert(self.imports@.drop_last() =~= old(self).imports@);
    }

    /// Completes instantiation with the created `instance`: it is installed into the shared
    /// environment, and the store and environment become the runtime.
    pub fn instantiate(self, instance: Instance) -> (r: StoreRuntime<Data>)
        requires
            self.spec_environment().spec_instance() is None,
        ensures
            r.spec_store() == self.spec_store(),
            r.spec_instance_and_data().spec_instance() == Some(instance),
            r.spec_instance_and_data().spec_data() == self.spec_environment().spec_data(),
            r.spec_instance_and_data().spec_call_in_progress()
                == self.spec_environment().spec_call_in_progress(),
    {
        let Imports { store, imports: _, mut environment } = self;
        environment.set_instance(instance);
        StoreRuntime::new(store, environment)
    }
}

/// An instantiated module: its store and the state shared with host functions.
#[derive(Debug)]
pub struct StoreRuntime<Data> {
    store: LinearMemory,
    instance_and_data: InstanceAndData<Data>,
}

impl<Data> StoreRuntime<Data> {
    pub closed spec fn spec_store(&self) -> LinearMemory {
        self.store
    }

    pub closed spec fn spec_instance_and_data(&self) -> InstanceAndData<Data> {
        self.instance_and_data
    }

    /// A runtime from a store and the shared state.
    pub fn new(store: LinearMemory, instance_and_data: InstanceAndData<Data>) -> (r: Self)
        ensures
            r.spec_store() == store,
            r.spec_instance_and_data() == instance_and_data,
    {
        StoreRuntime { store, instance_and_data }
    }

    /// The store.
    pub fn store(&self) -> (r: &LinearMemory)
        ensures
            *r == self.spec_store(),
    {
        &self.store
    }

    /// The state shared with host functions.
    pub fn instance_and_data(&self) -> (r: &InstanceAndData<Data>)
        ensures
            *r == self.spec_instance_and_data(),
    {
        &self.instance_and_data
    }
}

/// An instance together with the store that holds its memory and the host's data.
#[derive(Debug)]
pub struct InstanceWithStore<Data> {
    instance: Instance,
    store: LinearMemory,
    data: Data,
}

impl<Data> InstanceWithStore<Data> {
    pub closed spec fn spec_instance(&self) -> Instance {
        self.instance
    }

    pub closed spec fn spec_store(&self) -> LinearMemory {
        self.store
    }

    pub closed spec fn spec_data(&self) -> Data {
        self.data
    }

    /// Pairs an instance with its store and the host's data.
    pub fn new(instance: Instance, store: LinearMemory, data: Data) -> (r: Self)
        ensures
            r.spec_instance() == instance,
            r.spec_store() == store,
            r.spec_data() == data,
    {
        InstanceWithStore { instance, store, data }
    }

    /// The host's data.
    pub fn data(&self) -> (r: &Data)
        ensures
            *r == self.spec_data(),
    {
        &self.data
    }

    /// Looks an export of the instance up by name.
    pub fn load_export(&self, name: &str) -> (r: Option<Export>)
        ensures
            r == find_export(self.spec_instance().exports@, name@),
    {
        self.instance.get_export(name)
    }
}

/// Values the host keeps on behalf of a guest, referred to by integer handles.
#[derive(Debug)]
pub struct Resources<T> {
    values: Vec<T>,
}

impl<T> Resources<T> {
    pub closed spec fn spec_values(&self) -> Seq<T> {
        self.values@
    }

    /// An empty map.
    pub fn new() -> (r: Self)
        ensures
            r.spec_values().len() == 0,
    {
        Resources { values: Vec::new() }
    }

    /// Adds a resource, returning its handle: the number of resources added before it.
    pub fn insert(&mut self, value: T) -> (r: i32)
        requires
            old(self).spec_values().len() <= i32::MAX,
        ensures
            r == old(self).spec_values().len(),
            final(self).spec_values() == old(self).spec_values().push(value),
    {
        let handle = self.values.len() as i32;
        self.values.push(value);
        handle
    }

    /// The resource behind `handle`.
    pub fn get(&self, handle: i32) -> (r: &T)
        requires
            0 <= handle < self.spec_values().len(),
        ensures
            *r == self.spec_values()[handle as int],
    {
        &self.values[handle as usize]
    }

    /// Number of resources held.
    pub fn len(&self) -> (r: usize)
        ensures
            r == self.spec_values().len(),
    {
        self.values.len()
    }
}

} // verus!
