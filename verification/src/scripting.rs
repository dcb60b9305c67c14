use vstd::prelude::*;
use crate::hierarchy::Entity;

verus! {

/// Why a native type could not be registered with the scripting runtime.
#[derive(Clone, Copy, PartialEq, Eq, Structural, Debug)]
pub enum TypeCreationError {
    TypeAlreadyRegistered,
    TypeNotRegistered,
}

/// Why a call from a script into the engine failed.
#[derive(Clone, Copy, PartialEq, Eq, Structural, Debug)]
pub enum RuntimeError {
    NotEnoughParameters,
    WrongTypeParameter,
    ExpectedParameterNotPresent,
    TypeNotRegistered,
    ComponentNotPresent,
}

/// A request, made by a script, to attach a script of type `script_type` to
/// the object `object`.
pub struct ScriptCreationData {
    pub object: Entity,
    pub script_type: String,
}

/// The script creation requests made during a frame, in the order they were
/// made.
pub struct ScriptCreationQueue {
    pub q: Vec<ScriptCreationData>,
}

impl ScriptCreationQueue {
    /// A queue with no request.
    pub fn new() -> (r: Self)
        ensures
            r.q@ == Seq::<ScriptCreationData>::empty(),
    {
        ScriptCreationQueue { q: Vec::new() }
    }

    /// Queues a request to attach a script of type `script_type` to `object`
    /// behind the requests already queued.
    pub fn push(&mut self, object: Entity, script_type: String)
        ensures
            final(self).q@ == old(self).q@.push(ScriptCreationData { object, script_type }),
    {
        self.q.push(ScriptCreationData { object, script_type });
    }

    /// Hands out every queued request, oldest first, and leaves the queue
    /// empty.
    pub fn take_all(&mut self) -> (r: Vec<ScriptCreationData>)
        ensures
            r@ == old(self).q@,
            final(self).q@ == Seq::<ScriptCreationData>::empty(),
    {
        let mut taken: Vec<ScriptCreationData> = Vec::new();
        core::mem::swap(&mut taken, &mut self.q);
        taken
    }
}

/// Settings of the script engine: where the scripts live and the flags handed
/// to the script runtime.
pub struct JsEngineConfig {
    pub source_root: String,
    pub v8_args: Vec<String>,
}

/// A handle from a script to the component of type `T` of an object.
pub struct ComponentData<T> {
    pub id: Entity,
    _phantom: core::marker::PhantomData<T>,
}

} // verus!
