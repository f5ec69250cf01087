//! Values of any type: pointers, structs and lists whose type is not known.

use crate::rpc::{Pipeline, PipelineBuilder, Pipelined};
use crate::Family;
use vstd::prelude::*;

verus! {

/// A pointer of any type.
#[derive(Clone, Copy, Debug, PartialEq, Eq)]
pub struct AnyPtr<T>(pub T);

/// A struct of any type.
#[derive(Clone, Copy, Debug, PartialEq, Eq)]
pub struct AnyStruct<T>(pub T);

/// A list of any type.
#[derive(Clone, Copy, Debug, PartialEq, Eq)]
pub struct AnyList<T>(pub T);

/// A pipeline of a pointer of any type.
pub struct PtrPipeline<P>(Pipeline<P>);

impl<P: Pipelined> PtrPipeline<P> {
    /// The pipeline.
    pub closed spec fn spec_pipeline(&self) -> Pipeline<P> {
        self.0
    }

    /// A pipeline of a pointer.
    pub fn new(pipeline: P) -> (r: Self)
        ensures
            r.spec_pipeline().spec_inner() == pipeline,
    {
        PtrPipeline(Pipeline::new(pipeline))
    }

    /// The pipeline of the value reached by following an operation.
    pub fn push(self, op: <P as PipelineBuilder<AnyPtr<Family>>>::Operation) -> (r: Self)
        where
            P: PipelineBuilder<AnyPtr<Family>>,
    {
        PtrPipeline(self.0.push::<AnyPtr<Family>>(op))
    }

    /// The capability the pipeline promises.
    pub fn into_cap(self) -> P::Cap {
        self.0.into_cap()
    }

    /// The capability the pipeline promises, keeping the pipeline.
    pub fn to_cap(self) -> P::Cap
        where
            P: Clone,
    {
        self.0.to_cap()
    }
}

/// A pipeline of a struct of any type.
pub struct StructPipeline<P>(Pipeline<P>);

impl<P: Pipelined> StructPipeline<P> {
    /// The pipeline.
    pub closed spec fn spec_pipeline(&self) -> Pipeline<P> {
        self.0
    }

    /// A pipeline of a struct.
    pub fn new(pipeline: Pipeline<P>) -> (r: Self)
        ensures
            r.spec_pipeline() == pipeline,
    {
        StructPipeline(pipeline)
    }

    /// The pipeline of the value reached by following an operation.
    pub fn push(self, op: <P as PipelineBuilder<AnyStruct<Family>>>::Operation) -> (r: Self)
        where
            P: PipelineBuilder<AnyStruct<Family>>,
    {
        StructPipeline(self.0.push::<AnyStruct<Family>>(op))
    }

    /// The capability the pipeline promises.
    pub fn into_cap(self) -> P::Cap {
        self.0.into_cap()
    }

    /// The capability the pipeline promises, keeping the pipeline.
    pub fn to_cap(self) -> P::Cap
        where
            P: Clone,
    {
        self.0.to_cap()
    }
}

} // verus!
