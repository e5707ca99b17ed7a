//! Requests and responses between a command line client and a node.
use vstd::prelude::*;

verus! {

/// Provide the data at the given path; answered by a stream of progress.
#[derive(Debug)]
pub struct ProvideRequest {
    /// An absolute path, valid on the node's file system.
    pub path: String,
}

/// Check the integrity of all provided data.
#[derive(Debug)]
pub struct ValidateRequest;

/// List all blobs, collections included.
#[derive(Debug)]
pub struct ListBlobsRequest;

/// List the collections that were added explicitly.
#[derive(Debug)]
pub struct ListCollectionsRequest;

/// Watch the node's status.
#[derive(Debug)]
pub struct WatchRequest;

/// Ask for the node's version.
#[derive(Debug)]
pub struct VersionRequest;

/// Shut the node down.
#[derive(Debug)]
pub struct ShutdownRequest {
    pub force: bool,
}

/// Ask for the node's identity.
#[derive(Debug)]
pub struct IdRequest;

/// Ask for the node's addresses.
#[derive(Debug)]
pub struct AddrsRequest;

#[derive(Debug)]
pub struct WatchResponse {
    pub version: String,
}

#[derive(Debug)]
pub struct VersionResponse {
    pub version: String,
}

/// The service that a node offers its client.
#[derive(Debug, Clone, Copy)]
pub struct ProviderService;

/// Create a document.
#[derive(Debug)]
pub struct CreateRequest {
    pub name: String,
}

/// Delete a document.
#[derive(Debug)]
pub struct DeleteRequest {
    pub id: String,
}

#[derive(Debug)]
pub struct CreateResponse {
    pub id: String,
}

#[derive(Debug)]
pub enum DocumentRequest {
    Create(CreateRequest),
    Delete(DeleteRequest),
}

/// Every request that a client can make.
#[derive(Debug)]
pub enum ProviderRequest {
    Watch(WatchRequest),
    Version(VersionRequest),
    ListBlobs(ListBlobsRequest),
    ListCollections(ListCollectionsRequest),
    Provide(ProvideRequest),
    Id(IdRequest),
    Addrs(AddrsRequest),
    Shutdown(ShutdownRequest),
    Validate(ValidateRequest),
    Document(DocumentRequest),
}

impl ProviderRequest {
    /// A document creation, as a request.
    pub fn from_create(r: CreateRequest) -> (res: ProviderRequest)
        ensures
            res == ProviderRequest::Document(DocumentRequest::Create(r)),
    {
        ProviderRequest::Document(DocumentRequest::Create(r))
    }

    /// A document deletion, as a request.
    pub fn from_delete(r: DeleteRequest) -> (res: ProviderRequest)
        ensures
            res == ProviderRequest::Document(DocumentRequest::Delete(r)),
    {
        ProviderRequest::Document(DocumentRequest::Delete(r))
    }

    /// The document creation that the request is, if it is one.
    pub fn into_create(self) -> (res: Option<CreateRequest>)
        ensures
            self matches ProviderRequest::Document(DocumentRequest::Create(r)) ==> res == Some(r),
            !(self matches ProviderRequest::Document(DocumentRequest::Create(_))) ==> res is None,
    {
        match self {
            ProviderRequest::Document(DocumentRequest::Create(r)) => Some(r),
            _ => None,
        }
    }

    /// The document deletion that the request is, if it is one.
    pub fn into_delete(self) -> (res: Option<DeleteRequest>)
        ensures
            self matches ProviderRequest::Document(DocumentRequest::Delete(r)) ==> res == Some(r),
            !(self matches ProviderRequest::Document(DocumentRequest::Delete(_))) ==> res is None,
    {
        match self {
            ProviderRequest::Document(DocumentRequest::Delete(r)) => Some(r),
            _ => None,
        }
    }
}

} // verus!
