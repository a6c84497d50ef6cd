//! What the server asks of a client, what a client answers, and what the server does about it.

use vstd::prelude::*;

verus! {

/// What the server asks of a client.
#[derive(Debug)]
pub enum ServerFileRequest {
    /// The file at the given index is being requested by the remote server
    RequestNewFile(usize),
    /// This new folder from the server should be created on the client
    CreateFolder(String),
    /// The signature of the file at the given index is being requested so it can create a diff to update it
    RequestSignature(usize),
    /// The client should apply the given diff to the file at the given index
    ApplyDiff(usize, Vec<u8>),
    /// The diff between the file at the given index and the signature made up from these bytes is being requested to update the server file
    RequestDiff(usize, Vec<u8>),
    /// The given file data should be written to the given relative path in the given folder id
    CreateFile(Vec<u8>, String, String),
    /// The file at the given index should be deleted on the client
    Delete(usize),
}

/// What a `ServerFileRequest` says.
pub enum RequestView {
    RequestNewFile(int),
    CreateFolder(Seq<char>),
    RequestSignature(int),
    ApplyDiff(int, Seq<u8>),
    RequestDiff(int, Seq<u8>),
    CreateFile(Seq<u8>, Seq<char>, Seq<char>),
    Delete(int),
}

impl View for ServerFileRequest {
    type V = RequestView;

    open spec fn view(&self) -> RequestView {
        match self {
            ServerFileRequest::RequestNewFile(index) => RequestView::RequestNewFile(*index as int),
            ServerFileRequest::CreateFolder(id) => RequestView::CreateFolder(id@),
            ServerFileRequest::RequestSignature(index) => RequestView::RequestSignature(
                *index as int,
            ),
            ServerFileRequest::ApplyDiff(index, diff) => RequestView::ApplyDiff(
                *index as int,
                diff@,
            ),
            ServerFileRequest::RequestDiff(index, signature) => RequestView::RequestDiff(
                *index as int,
                signature@,
            ),
            ServerFileRequest::CreateFile(data, path, id) => RequestView::CreateFile(
                data@,
                path@,
                id@,
            ),
            ServerFileRequest::Delete(index) => RequestView::Delete(*index as int),
        }
    }
}

impl Clone for ServerFileRequest {
    fn clone(&self) -> (copy: Self)
        ensures
            copy@ == self@,
    {
        match self {
            ServerFileRequest::RequestNewFile(index) => ServerFileRequest::RequestNewFile(*index),
            ServerFileRequest::CreateFolder(id) => ServerFileRequest::CreateFolder(id.clone()),
            ServerFileRequest::RequestSignature(index) => ServerFileRequest::RequestSignature(
                *index,
            ),
            ServerFileRequest::ApplyDiff(index, diff) => {
                let copy = diff.clone();
                assert(copy@ =~= diff@);
                ServerFileRequest::ApplyDiff(*index, copy)
            },
            ServerFileRequest::RequestDiff(index, signature) => {
                let copy = signature.clone();
                assert(copy@ =~= signature@);
                ServerFileRequest::RequestDiff(*index, copy)
            },
            ServerFileRequest::CreateFile(data, path, id) => {
                let copy = data.clone();
                assert(copy@ =~= data@);
                ServerFileRequest::CreateFile(copy, path.clone(), id.clone())
            },
            ServerFileRequest::Delete(index) => ServerFileRequest::Delete(*index),
        }
    }
}

/// What a client answers.
#[derive(Debug)]
pub enum ClientFileResponse {
    /// The response to RequestNewFile
    NewFile(usize, Vec<u8>),
    /// The response to RequestSignature
    Signature(usize, Vec<u8>),
    /// The response to RequestDiff
    Diff(usize, Vec<u8>),
}

/// What a `ClientFileResponse` says.
pub enum ResponseView {
    NewFile(int, Seq<u8>),
    Signature(int, Seq<u8>),
    Diff(int, Seq<u8>),
}

impl View for ClientFileResponse {
    type V = ResponseView;

    open spec fn view(&self) -> ResponseView {
        match self {
            ClientFileResponse::NewFile(index, data) => ResponseView::NewFile(*index as int, data@),
            ClientFileResponse::Signature(index, signature) => ResponseView::Signature(
                *index as int,
                signature@,
            ),
            ClientFileResponse::Diff(index, diff) => ResponseView::Diff(*index as int, diff@),
        }
    }
}

impl Clone for ClientFileResponse {
    fn clone(&self) -> (copy: Self)
        ensures
            copy@ == self@,
    {
        match self {
            ClientFileResponse::NewFile(index, data) => {
                let copy = data.clone();
                assert(copy@ =~= data@);
                ClientFileResponse::NewFile(*index, copy)
            },
            ClientFileResponse::Signature(index, signature) => {
                let copy = signature.clone();
                assert(copy@ =~= signature@);
                ClientFileResponse::Signature(*index, copy)
            },
            ClientFileResponse::Diff(index, diff) => {
                let copy = diff.clone();
                assert(copy@ =~= diff@);
                ClientFileResponse::Diff(*index, copy)
            },
        }
    }
}

/// A request before the server's own files have been looked into.
#[derive(Debug)]
pub enum PlannedRequest {
    CreateFolder(String),
    RequestNewFile(usize),
    RequestSignature(usize),
    /// For the client file at the first index, with the signature of the server file at the second
    RequestDiff(usize, usize),
    Delete(usize),
    /// With the data of the server file at the index
    CreateFile(usize),
}

/// What a `PlannedRequest` says.
pub enum PlannedView {
    CreateFolder(Seq<char>),
    RequestNewFile(int),
    RequestSignature(int),
    RequestDiff(int, int),
    Delete(int),
    CreateFile(int),
}

impl View for PlannedRequest {
    type V = PlannedView;

    open spec fn view(&self) -> PlannedView {
        match self {
            PlannedRequest::CreateFolder(id) => PlannedView::CreateFolder(id@),
            PlannedRequest::RequestNewFile(index) => PlannedView::RequestNewFile(*index as int),
            PlannedRequest::RequestSignature(index) => PlannedView::RequestSignature(*index as int),
            PlannedRequest::RequestDiff(client, server) => PlannedView::RequestDiff(
                *client as int,
                *server as int,
            ),
            PlannedRequest::Delete(index) => PlannedView::Delete(*index as int),
            PlannedRequest::CreateFile(index) => PlannedView::CreateFile(*index as int),
        }
    }
}

/// What the server does on its own disk.
#[derive(Debug)]
pub enum ServerAction {
    /// Create the directory at this path
    CreateDirectory(String),
    /// Delete the file at this path
    DeleteFile(String),
}

/// What a `ServerAction` says.
pub enum ActionView {
    CreateDirectory(Seq<char>),
    DeleteFile(Seq<char>),
}

impl View for ServerAction {
    type V = ActionView;

    open spec fn view(&self) -> ActionView {
        match self {
            ServerAction::CreateDirectory(path) => ActionView::CreateDirectory(path@),
            ServerAction::DeleteFile(path) => ActionView::DeleteFile(path@),
        }
    }
}

/// What the server does about a client's answer.
#[derive(Debug)]
pub enum ResponseAction {
    /// Nothing
    Ignore,
    /// Write the data to the file at this path, if that can be done
    WriteFile(String, Vec<u8>),
    /// Create the file at this path anew with this data, which has to succeed
    ReplaceFile(String, Vec<u8>),
    /// Send this request to the client
    Reply(ServerFileRequest),
}

/// What a `ResponseAction` says.
pub enum ResponseActionView {
    Ignore,
    WriteFile(Seq<char>, Seq<u8>),
    ReplaceFile(Seq<char>, Seq<u8>),
    Reply(RequestView),
}

impl View for ResponseAction {
    type V = ResponseActionView;

    open spec fn view(&self) -> ResponseActionView {
        match self {
            ResponseAction::Ignore => ResponseActionView::Ignore,
            ResponseAction::WriteFile(path, data) => ResponseActionView::WriteFile(path@, data@),
            ResponseAction::ReplaceFile(path, data) => ResponseActionView::ReplaceFile(
                path@,
                data@,
            ),
            ResponseAction::Reply(request) => ResponseActionView::Reply(request@),
        }
    }
}

/// A request says what stands in it.
pub proof fn law_request_says_what_it_holds(request: ServerFileRequest)
    ensures
        match request {
            ServerFileRequest::RequestNewFile(index) => request@ == RequestView::RequestNewFile(
                index as int,
            ),
            ServerFileRequest::CreateFolder(id) => request@ == RequestView::CreateFolder(id@),
            ServerFileRequest::RequestSignature(index) => request@ == RequestView::RequestSignature(
                index as int,
            ),
            ServerFileRequest::ApplyDiff(index, diff) => request@ == RequestView::ApplyDiff(
                index as int,
                diff@,
            ),
            ServerFileRequest::RequestDiff(index, signature) => request@
                == RequestView::RequestDiff(index as int, signature@),
            ServerFileRequest::CreateFile(data, path, id) => request@ == RequestView::CreateFile(
                data@,
                path@,
                id@,
            ),
            ServerFileRequest::Delete(index) => request@ == RequestView::Delete(index as int),
        },
{
}

/// An answer says what stands in it.
pub proof fn law_response_says_what_it_holds(response: ClientFileResponse)
    ensures
        match response {
            ClientFileResponse::NewFile(index, data) => response@ == ResponseView::NewFile(
                index as int,
                data@,
            ),
            ClientFileResponse::Signature(index, signature) => response@ == ResponseView::Signature(
                index as int,
                signature@,
            ),
            ClientFileResponse::Diff(index, diff) => response@ == ResponseView::Diff(
                index as int,
                diff@,
            ),
        },
{
}

/// A planned request says what stands in it.
pub proof fn law_planned_request_says_what_it_holds(planned: PlannedRequest)
    ensures
        match planned {
            PlannedRequest::CreateFolder(id) => planned@ == PlannedView::CreateFolder(id@),
            PlannedRequest::RequestNewFile(index) => planned@ == PlannedView::RequestNewFile(
                index as int,
            ),
            PlannedRequest::RequestSignature(index) => planned@ == PlannedView::RequestSignature(
                index as int,
            ),
            PlannedRequest::RequestDiff(index, server) => planned@ == PlannedView::RequestDiff(
                index as int,
                server as int,
            ),
            PlannedRequest::Delete(index) => planned@ == PlannedView::Delete(index as int),
            PlannedRequest::CreateFile(server) => planned@ == PlannedView::CreateFile(
                server as int,
            ),
        },
{
}

/// An action says what stands in it.
pub proof fn law_actions_say_what_they_hold(action: ServerAction, answer: ResponseAction)
    ensures
        match action {
            ServerAction::CreateDirectory(path) => action@ == ActionView::CreateDirectory(path@),
            ServerAction::DeleteFile(path) => action@ == ActionView::DeleteFile(path@),
        },
        match answer {
            ResponseAction::Ignore => answer@ == ResponseActionView::Ignore,
            ResponseAction::WriteFile(path, data) => answer@ == ResponseActionView::WriteFile(
                path@,
                data@,
            ),
            ResponseAction::ReplaceFile(path, data) => answer@ == ResponseActionView::ReplaceFile(
                path@,
                data@,
            ),
            ResponseAction::Reply(request) => answer@ == ResponseActionView::Reply(request@),
        },
{
}

} // verus!
