//! The plain data records exchanged with the surrounding application:
//! upload and lookup requests, the responses they get, and the row shape
//! of the external metadata index that maps a file name to the text of
//! its channel handle.

use vstd::prelude::*;

verus! {

/// A request to upload the file at `file_path` into the destination
/// container `channel_id`.
pub struct UploadRequest {
    pub channel_id: String,
    pub file_path: String,
}

/// An error message reported to a caller.
pub struct ErrorResponse {
    pub error: String,
}

/// A successful upload: the human name and the created handle's text.
/// The handle is returned as soon as the channel exists, independent of
/// whether the chunk-posting loop has finished; completion is observed
/// only through the progress bus.
pub struct SuccessResponse {
    pub file_name: String,
    pub thread_id: String,
}

/// Identifies one stored file by its name and its handle's text.
pub struct FileRequest {
    pub file_name: String,
    pub thread_id: String,
}

/// One row of the external metadata index: a human-readable file name
/// and the text of the channel handle that owns the object.
pub struct Files {
    pub file_name: String,
    pub thread_id: String,
}

} // verus!
