//! Capabilities and pipelines: the traits a capability system implements to be used with
//! messages.

use vstd::prelude::*;

verus! {

/// A table of capabilities associated with a message: how its readers and builders find them.
pub trait Table {
    type Reader;
    type Builder;
}

/// The table of a message without capabilities.
#[derive(Clone, Copy, PartialEq, Eq, Debug, Default, Structural)]
pub struct Empty;

impl Table for Empty {
    type Reader = Empty;
    type Builder = Empty;
}

/// A capability system: the type of its capabilities.
pub trait CapSystem {
    type Cap;
}

/// A capability system with tables that can be read and built.
pub trait CapTable: CapSystem {
    type TableReader;
    type TableBuilder;
}

/// A capability system with broken and null capabilities.
pub trait BreakableCapSystem: CapSystem {
    /// A broken capability, with the reason it is broken.
    fn broken(reason: &str) -> Self::Cap;

    /// A null capability.
    fn null() -> Self::Cap;
}

/// A reader of a capability table.
pub trait CapTableReader: Clone {
    type Cap;

    /// The capability at `index`, if there is one.
    fn extract_cap(&self, index: u32) -> Option<Self::Cap>;
}

/// A builder of a capability table.
pub trait CapTableBuilder: CapTableReader {
    type Reader;

    /// Adds a capability to the table, returning its index.
    fn inject_cap(&self, cap: Self::Cap) -> Option<u32>;

    /// Removes the capability at `index`.
    fn drop_cap(&self, index: u32);

    /// A reader of the table.
    fn as_reader(&self) -> Self::Reader;
}

/// A table builder that can add capabilities of another type.
pub trait CapTranslator<T>: CapTableBuilder {
    /// Adds a capability to the table, returning its index.
    fn translate_cap(&self, cap: T) -> Option<u32>;
}

/// A pipeline: a promise of a capability, made from a promised message.
pub trait Pipelined: CapSystem + Sized {
    /// The capability the pipeline promises.
    fn into_cap(self) -> Self::Cap;
}

/// A pipeline that can follow a field of the promised value.
pub trait PipelineBuilder<T> {
    type Operation;

    /// The pipeline of the value reached by the operation.
    fn push(self, op: Self::Operation) -> Self;
}

/// A pipeline of a value.
#[derive(Clone)]
pub struct Pipeline<P>(P);

impl<P: Pipelined> Pipeline<P> {
    /// The inner pipeline.
    pub closed spec fn spec_inner(&self) -> P {
        self.0
    }

    /// Wraps a pipeline.
    pub fn new(pipeline: P) -> (r: Self)
        ensures
            r.spec_inner() == pipeline,
    {
        Pipeline(pipeline)
    }

    /// The pipeline of the value reached by following an operation.
    pub fn push<T>(self, op: <P as PipelineBuilder<T>>::Operation) -> (r: Self)
        where
            P: PipelineBuilder<T>,
    {
        Pipeline(self.0.push(op))
    }

    /// The capability the pipeline promises.
    pub fn into_cap(self) -> P::Cap {
        self.0.into_cap()
    }

    /// The capability the pipeline promises, keeping the pipeline.
    pub fn to_cap(&self) -> P::Cap
        where
            P: Clone,
    {
        self.0.clone().into_cap()
    }

    /// Takes the inner pipeline out.
    pub fn into_inner(self) -> (r: P)
        ensures
            r == self.spec_inner(),
    {
        self.0
    }
}

/// A pipeline of a value of a known type.
pub trait TypedPipeline: Sized {
    type Pipeline: Pipelined;

    /// The typed pipeline of an untyped one.
    fn from_pipeline(p: Pipeline<Self::Pipeline>) -> Self;

    /// The untyped pipeline.
    fn into_inner(self) -> Pipeline<Self::Pipeline>;
}

/// A table whose capabilities can be inserted into a table of type `T`.
pub trait InsertableInto<T: Table>: Table {
}

impl<T: Table> InsertableInto<T> for Empty {
}

} // verus!
