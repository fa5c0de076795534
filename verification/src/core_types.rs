//! Core gRPC types common to clients and servers: the headers that start an
//! RPC and the headers and trailers of its response.

use crate::metadata::MetadataMap;
use crate::status::Status;
use vstd::prelude::*;

verus! {

/// All information transmitted in the response headers of an RPC.
#[derive(Debug)]
pub struct ResponseHeaders {
    metadata: MetadataMap,
}

impl Clone for ResponseHeaders {
    fn clone(&self) -> (r: Self)
        ensures
            r.metadata_of()@ == self.metadata_of()@,
    {
        ResponseHeaders { metadata: self.metadata.clone() }
    }
}

impl Default for ResponseHeaders {
    fn default() -> (r: Self)
        ensures
            r.metadata_of()@ == Seq::<(Seq<char>, Seq<char>)>::empty(),
    {
        ResponseHeaders { metadata: MetadataMap::new() }
    }
}

impl ResponseHeaders {
    pub closed spec fn metadata_of(&self) -> MetadataMap {
        self.metadata
    }

    /// Response headers with no metadata.
    pub fn new() -> (r: Self)
        ensures
            r.metadata_of()@ == Seq::<(Seq<char>, Seq<char>)>::empty(),
    {
        Self::default()
    }

    /// These headers with their metadata replaced by `metadata`.
    pub fn with_metadata(self, metadata: MetadataMap) -> (r: Self)
        ensures
            r.metadata_of() == metadata,
    {
        ResponseHeaders { metadata }
    }

    /// The metadata of these headers.
    pub fn metadata(&self) -> (r: &MetadataMap)
        ensures
            *r == self.metadata_of(),
    {
        &self.metadata
    }

    /// The metadata of these headers, for modification.
    pub fn metadata_mut(&mut self) -> (r: &mut MetadataMap)
        ensures
            *r == old(self).metadata_of(),
            final(self).metadata_of() == *final(r),
    {
        &mut self.metadata
    }
}

/// All information transmitted in the request headers of an RPC.
#[derive(Debug)]
pub struct RequestHeaders {
    /// The full (e.g. "/Service/Method") method name of the call.
    method_name: String,
    /// The application-specified metadata of the call.
    metadata: MetadataMap,
}

impl Clone for RequestHeaders {
    fn clone(&self) -> (r: Self)
        ensures
            r.method_name_of() == self.method_name_of(),
            r.metadata_of()@ == self.metadata_of()@,
    {
        RequestHeaders { method_name: self.method_name.clone(), metadata: self.metadata.clone() }
    }
}

impl Default for RequestHeaders {
    fn default() -> (r: Self)
        ensures
            r.method_name_of() == Seq::<char>::empty(),
            r.metadata_of()@ == Seq::<(Seq<char>, Seq<char>)>::empty(),
    {
        RequestHeaders { method_name: String::new(), metadata: MetadataMap::new() }
    }
}

impl RequestHeaders {
    pub closed spec fn method_name_of(&self) -> Seq<char> {
        self.method_name@
    }

    pub closed spec fn metadata_of(&self) -> MetadataMap {
        self.metadata
    }

    /// Request headers with an empty method name and no metadata.
    pub fn new() -> (r: Self)
        ensures
            r.method_name_of() == Seq::<char>::empty(),
            r.metadata_of()@ == Seq::<(Seq<char>, Seq<char>)>::empty(),
    {
        Self::default()
    }

    /// These headers with their method name replaced by `method_name`.
    pub fn with_method_name(self, method_name: String) -> (r: Self)
        ensures
            r.method_name_of() == method_name@,
            r.metadata_of() == self.metadata_of(),
    {
        RequestHeaders { method_name, metadata: self.metadata }
    }

    /// These headers with their metadata replaced by `metadata`.
    pub fn with_metadata(self, metadata: MetadataMap) -> (r: Self)
        ensures
            r.method_name_of() == self.method_name_of(),
            r.metadata_of() == metadata,
    {
        RequestHeaders { method_name: self.method_name, metadata }
    }

    /// The full (e.g. "/Service/Method") method name of these headers.
    pub fn method_name(&self) -> (r: &String)
        ensures
            r@ == self.method_name_of(),
    {
        &self.method_name
    }

    /// The metadata of these headers.
    pub fn metadata(&self) -> (r: &MetadataMap)
        ensures
            *r == self.metadata_of(),
    {
        &self.metadata
    }

    /// The metadata of these headers, for modification.
    pub fn metadata_mut(&mut self) -> (r: &mut MetadataMap)
        ensures
            *r == old(self).metadata_of(),
            final(self).metadata_of() == *final(r),
            final(self).method_name_of() == old(self).method_name_of(),
    {
        &mut self.metadata
    }

    /// The method name and the metadata of these headers.
    pub fn into_parts(self) -> (r: (String, MetadataMap))
        ensures
            r.0@ == self.method_name_of(),
            r.1 == self.metadata_of(),
    {
        (self.method_name, self.metadata)
    }
}

/// All information transmitted in the response trailers of an RPC.
#[derive(Debug)]
pub struct Trailers {
    status: Status,
    metadata: MetadataMap,
}

impl Clone for Trailers {
    fn clone(&self) -> (r: Self)
        ensures
            r.status_of() is Ok <==> self.status_of() is Ok,
            r.status_of() matches Err(e) ==> self.status_of() matches Err(f) && e.code_of()
                == f.code_of() && e.message_of() == f.message_of(),
            r.metadata_of()@ == self.metadata_of()@,
    {
        let status = match &self.status {
            Ok(()) => Ok(()),
            Err(e) => Err(e.clone()),
        };
        Trailers { status, metadata: self.metadata.clone() }
    }
}

impl Trailers {
    pub closed spec fn status_of(&self) -> Status {
        self.status
    }

    pub closed spec fn metadata_of(&self) -> MetadataMap {
        self.metadata
    }

    /// Trailers carrying `status` and no metadata.
    pub fn new(status: Status) -> (r: Self)
        ensures
            r.status_of() == status,
            r.metadata_of()@ == Seq::<(Seq<char>, Seq<char>)>::empty(),
    {
        Trailers { status, metadata: MetadataMap::new() }
    }

    /// These trailers with their status replaced by `status`.
    pub fn with_status(self, status: Status) -> (r: Self)
        ensures
            r.status_of() == status,
            r.metadata_of() == self.metadata_of(),
    {
        Trailers { status, metadata: self.metadata }
    }

    /// The status of these trailers.
    pub fn status(&self) -> (r: &Status)
        ensures
            *r == self.status_of(),
    {
        &self.status
    }

    /// These trailers with their metadata replaced by `metadata`.
    pub fn with_metadata(self, metadata: MetadataMap) -> (r: Self)
        ensures
            r.status_of() == self.status_of(),
            r.metadata_of() == metadata,
    {
        Trailers { status: self.status, metadata }
    }

    /// The metadata of these trailers, for modification.
    pub fn metadata_mut(&mut self) -> (r: &mut MetadataMap)
        ensures
            *r == old(self).metadata_of(),
            final(self).metadata_of() == *final(r),
            final(self).status_of() == old(self).status_of(),
    {
        &mut self.metadata
    }

    /// The metadata of these trailers.
    pub fn metadata(&self) -> (r: &MetadataMap)
        ensures
            *r == self.metadata_of(),
    {
        &self.metadata
    }

    /// The status of these trailers, consuming them.
    pub fn into_status(self) -> (r: Status)
        ensures
            r == self.status_of(),
    {
        self.status
    }
}

} // verus!
