//! Conversions between the engine's types and the wire messages.

use crate::logic::{
    AcceptOKPayload, Instance, Payload, ReadRequest, ReadResponse, WriteRequest, WriteResponse,
};
use crate::wire as grpc;
use crate::wire::{repeated_from_vec, repeated_instances, repeated_to_vec};
use vstd::prelude::*;

verus! {

/// The engine's form of a wire instance.
pub open spec fn instance_from_wire(w: grpc::Instance) -> Instance {
    Instance { replica: w.replica, slot: w.slot }
}

/// The wire form of an instance.
pub open spec fn instance_to_wire(i: Instance) -> grpc::Instance {
    grpc::Instance { replica: i.replica, slot: i.slot }
}

impl WriteRequest {
    /// The value a wire message carries.
    pub fn from_grpc(req: &grpc::WriteRequest) -> (r: Self)
        ensures
            r.key@ == req.key@,
            r.value == req.value,
    {
        WriteRequest { key: req.key.clone(), value: req.value }
    }

    /// The wire message for this value.
    pub fn to_grpc(&self) -> (r: grpc::WriteRequest)
        ensures
            r.key@ == self.key@,
            r.value == self.value,
    {
        grpc::WriteRequest { key: self.key.clone(), value: self.value }
    }
}

impl WriteResponse {
    /// The value a wire message carries.
    pub fn from_grpc(res: &grpc::WriteResponse) -> (r: Self)
        ensures
            r.commit == res.commit,
    {
        WriteResponse { commit: res.commit }
    }

    /// The wire message for this value.
    pub fn to_grpc(&self) -> (r: grpc::WriteResponse)
        ensures
            r.commit == self.commit,
    {
        grpc::WriteResponse { commit: self.commit }
    }
}

impl ReadRequest {
    /// The value a wire message carries.
    pub fn from_grpc(req: &grpc::ReadRequest) -> (r: Self)
        ensures
            r.key@ == req.key@,
    {
        ReadRequest { key: req.key.clone() }
    }

    /// The wire message for this value.
    pub fn to_grpc(&self) -> (r: grpc::ReadRequest)
        ensures
            r.key@ == self.key@,
    {
        grpc::ReadRequest { key: self.key.clone() }
    }
}

impl ReadResponse {
    /// The value a wire message carries.
    pub fn from_grpc(res: &grpc::ReadResponse) -> (r: Self)
        ensures
            r.value == res.value,
    {
        ReadResponse { value: res.value }
    }

    /// The wire message for this value.
    pub fn to_grpc(&self) -> (r: grpc::ReadResponse)
        ensures
            r.value == self.value,
    {
        grpc::ReadResponse { value: self.value }
    }
}

impl Instance {
    /// The value a wire message carries.
    pub fn from_grpc(instance: &grpc::Instance) -> (r: Self)
        ensures
            r == instance_from_wire(*instance),
    {
        Instance { replica: instance.replica, slot: instance.slot }
    }

    /// The wire message for this value.
    pub fn to_grpc(&self) -> (r: grpc::Instance)
        ensures
            r == instance_to_wire(*self),
    {
        grpc::Instance { replica: self.replica, slot: self.slot }
    }
}

impl Payload {
    /// The value a wire message carries.
    pub fn from_grpc(payload: &grpc::Payload) -> (r: Self)
        ensures
            r.write_req.key@ == payload.write_req.key@,
            r.write_req.value == payload.write_req.value,
            r.seq == payload.seq,
            r.deps@ == repeated_instances(payload.deps).map_values(|w| instance_from_wire(w)),
            r.instance == instance_from_wire(payload.instance),
    {
        let wire_deps = repeated_to_vec(&payload.deps);
        let mut deps: Vec<Instance> = Vec::new();
        let mut k: usize = 0;
        while k < wire_deps.len()
            invariant
                k <= wire_deps@.len(),
                deps@ == wire_deps@.subrange(0, k as int).map_values(|w| instance_from_wire(w)),
            decreases wire_deps@.len() - k,
        {
            deps.push(Instance::from_grpc(&wire_deps[k]));
            assert(wire_deps@.subrange(0, k + 1).map_values(|w| instance_from_wire(w))
                =~= wire_deps@.subrange(0, k as int).map_values(|w| instance_from_wire(w)).push(
                instance_from_wire(wire_deps@[k as int]),
            ));
            k = k + 1;
        }
        assert(wire_deps@.subrange(0, wire_deps@.len() as int) == wire_deps@);
        Payload {
            write_req: WriteRequest::from_grpc(&payload.write_req),
            seq: payload.seq,
            deps: deps,
            instance: Instance::from_grpc(&payload.instance),
        }
    }

    /// The wire message for this value.
    pub fn to_grpc(&self) -> (r: grpc::Payload)
        ensures
            r.write_req.key@ == self.write_req.key@,
            r.write_req.value == self.write_req.value,
            r.seq == self.seq,
            repeated_instances(r.deps) == self.deps@.map_values(|i| instance_to_wire(i)),
            r.instance == instance_to_wire(self.instance),
    {
        let mut wire_deps: Vec<grpc::Instance> = Vec::new();
        let mut k: usize = 0;
        while k < self.deps.len()
            invariant
                k <= self.deps@.len(),
                wire_deps@ == self.deps@.subrange(0, k as int).map_values(|i| instance_to_wire(i)),
            decreases self.deps@.len() - k,
        {
            wire_deps.push(self.deps[k].to_grpc());
            assert(self.deps@.subrange(0, k + 1).map_values(|i| instance_to_wire(i))
                =~= self.deps@.subrange(0, k as int).map_values(|i| instance_to_wire(i)).push(
                instance_to_wire(self.deps@[k as int]),
            ));
            k = k + 1;
        }
        assert(self.deps@.subrange(0, self.deps@.len() as int) == self.deps@);
        grpc::Payload {
            write_req: self.write_req.to_grpc(),
            seq: self.seq,
            deps: repeated_from_vec(wire_deps),
            instance: self.instance.to_grpc(),
        }
    }
}

impl AcceptOKPayload {
    /// The value a wire message carries.
    pub fn from_grpc(payload: &grpc::AcceptOKPayload) -> (r: Self)
        ensures
            r.write_req.key@ == payload.command.key@,
            r.write_req.value == payload.command.value,
            r.instance == instance_from_wire(payload.instance),
    {
        AcceptOKPayload {
            write_req: WriteRequest::from_grpc(&payload.command),
            instance: Instance::from_grpc(&payload.instance),
        }
    }

    /// The wire message for this value.
    pub fn to_grpc(&self) -> (r: grpc::AcceptOKPayload)
        ensures
            r.command.key@ == self.write_req.key@,
            r.command.value == self.write_req.value,
            r.instance == instance_to_wire(self.instance),
    {
        grpc::AcceptOKPayload { command: self.write_req.to_grpc(), instance: self.instance.to_grpc() }
    }
}

/// The wire form of a payload.
pub fn to_grpc_payload(payload: &Payload) -> (r: grpc::Payload)
    ensures
        r.write_req.key@ == payload.write_req.key@,
        r.write_req.value == payload.write_req.value,
        r.seq == payload.seq,
        repeated_instances(r.deps) == payload.deps@.map_values(|i| instance_to_wire(i)),
        r.instance == instance_to_wire(payload.instance),
{
    payload.to_grpc()
}

/// The wire form of a write request.
pub fn to_grpc_write_request(write_req: &WriteRequest) -> (r: grpc::WriteRequest)
    ensures
        r.key@ == write_req.key@,
        r.value == write_req.value,
{
    write_req.to_grpc()
}

/// The wire form of an instance.
pub fn to_grpc_instance(instance: &Instance) -> (r: grpc::Instance)
    ensures
        r == instance_to_wire(*instance),
{
    instance.to_grpc()
}

/// The engine's form of a wire instance.
pub fn from_grpc_instance(grpc_instance: &grpc::Instance) -> (r: Instance)
    ensures
        r == instance_from_wire(*grpc_instance),
{
    Instance::from_grpc(grpc_instance)
}

/// The engine's form of a wire write request.
pub fn from_grpc_write_request(grpc_write_req: &grpc::WriteRequest) -> (r: WriteRequest)
    ensures
        r.key@ == grpc_write_req.key@,
        r.value == grpc_write_req.value,
{
    WriteRequest::from_grpc(grpc_write_req)
}

} // verus!
