//! The messages replicas and clients exchange, in the shape of the service's
//! protobuf schema.

use protobuf::RepeatedField;
use vstd::prelude::*;

verus! {

#[verifier::external_type_specification]
#[verifier::external_body]
#[verifier::reject_recursive_types(T)]
pub struct ExRepeatedField<T>(RepeatedField<T>);

/// The items a repeated field of instances holds, in order.
pub uninterp spec fn repeated_instances(r: RepeatedField<Instance>) -> Seq<Instance>;

/// Relies on protobuf's `RepeatedField::from_vec`: the field holds the
/// vector's items, in order.
#[verifier::external_body]
pub(crate) fn repeated_from_vec(v: Vec<Instance>) -> (r: RepeatedField<Instance>)
    ensures
        repeated_instances(r) == v@,
{
    RepeatedField::from_vec(v)
}

/// Relies on protobuf's `RepeatedField::to_vec`: a copy of the items, in
/// order (an `Instance` is `Copy`, so each copy equals its original).
#[verifier::external_body]
pub(crate) fn repeated_to_vec(r: &RepeatedField<Instance>) -> (v: Vec<Instance>)
    ensures
        v@ == repeated_instances(*r),
{
    r.to_vec()
}

/// A client write.
#[derive(Clone, Debug)]
pub struct WriteRequest {
    pub key: String,
    pub value: i32,
}

/// Whether a client write was committed.
#[derive(Clone, Copy, Debug)]
pub struct WriteResponse {
    pub commit: bool,
}

/// A client read.
#[derive(Clone, Debug)]
pub struct ReadRequest {
    pub key: String,
}

/// The value a client read returns.
#[derive(Clone, Copy, Debug)]
pub struct ReadResponse {
    pub value: i32,
}

/// A command's `(replica, slot)` identifier.
#[derive(Clone, Copy, PartialEq, Eq, Debug, Structural)]
pub struct Instance {
    pub replica: u32,
    pub slot: u32,
}

/// A proposal in the PreAccept, Accept and Commit phases.
#[derive(Debug)]
pub struct Payload {
    pub write_req: WriteRequest,
    pub seq: u32,
    pub deps: RepeatedField<Instance>,
    pub instance: Instance,
}

/// A peer's acknowledgement of an Accept.
#[derive(Clone, Debug)]
pub struct AcceptOKPayload {
    pub command: WriteRequest,
    pub instance: Instance,
}

/// The empty answer to a Commit.
#[derive(Clone, Copy, Debug)]
pub struct Empty {}

} // verus!
