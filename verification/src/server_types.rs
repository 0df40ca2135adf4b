//! Request and response records of the HTTP transport, and the response
//! assembly each handler performs: given what the store reported, which
//! flags and messages go back to the client. Transport layers do the
//! wire work; the decisions live here, pinned by contracts.
use vstd::prelude::*;

use crate::matrix::Matrix;

use vstd::string::StringExecFns;

verus! {

broadcast use vstd::string::to_string_from_display_ensures_for_str;

/// Body of a store request: the matrix to store.
pub struct StoreRequest {
    pub matrix: Matrix,
}

/// Reply to a store or delete request.
pub struct StoreResponse {
    pub key: String,
    pub success: bool,
    pub message: String,
}

/// Reply to a lookup request.
pub struct GetResponse {
    pub key: String,
    pub matrix: Option<Matrix>,
    pub success: bool,
    pub message: String,
}

/// Reply to an enumeration request.
pub struct ListResponse {
    pub keys: Vec<String>,
    pub count: usize,
    pub success: bool,
}

/// The reply a store handler returns: always successful, with the
/// message telling an update from a first store.
pub fn store_reply(key: String, existing: bool) -> (r: StoreResponse)
    ensures
        r.key@ == key@,
        r.success == true,
        r.message@ == if existing {
            "Matrix updated successfully"@
        } else {
            "Matrix stored successfully"@
        },
{
    let message = if existing {
        "Matrix updated successfully".to_string()
    } else {
        "Matrix stored successfully".to_string()
    };
    StoreResponse { key, success: true, message }
}

/// The reply a lookup handler returns: found is success, absent is an
/// explicit not-found, never an error.
pub fn get_reply(key: String, matrix: Option<Matrix>) -> (r: GetResponse)
    ensures
        r.key@ == key@,
        r.success == (matrix is Some),
        r.matrix == matrix,
        r.message@ == if matrix is Some {
            "Matrix retrieved successfully"@
        } else {
            "Matrix not found"@
        },
{
    let found = matrix.is_some();
    let message = if found {
        "Matrix retrieved successfully".to_string()
    } else {
        "Matrix not found".to_string()
    };
    GetResponse { key, matrix, success: found, message }
}

/// The reply a delete handler returns: success reports whether an entry
/// was removed.
pub fn delete_reply(key: String, deleted: bool) -> (r: StoreResponse)
    ensures
        r.key@ == key@,
        r.success == deleted,
        r.message@ == if deleted {
            "Matrix deleted successfully"@
        } else {
            "Matrix not found"@
        },
{
    let message = if deleted {
        "Matrix deleted successfully".to_string()
    } else {
        "Matrix not found".to_string()
    };
    StoreResponse { key, success: deleted, message }
}

/// The reply an enumeration handler returns: the keys and their count.
pub fn list_reply(keys: Vec<String>) -> (r: ListResponse)
    ensures
        r.keys == keys,
        r.count == keys@.len(),
        r.success == true,
{
    let count = keys.len();
    ListResponse { keys, count, success: true }
}

/// The liveness signal: a constant, independent of backend state.
pub fn health_status() -> (r: String)
    ensures
        r@ == "healthy"@,
{
    "healthy".to_string()
}

/// The reply a store-creation handler returns: the backing store exists
/// from construction, so creation always succeeds, echoing the name.
pub fn create_store_reply(name: &str) -> (r: (bool, String))
    ensures
        r.0 == true,
        r.1@ == "Store '"@ + name@ + "' created successfully"@,
{
    let mut message = "Store '".to_string();
    message.append(name);
    message.append("' created successfully");
    (true, message)
}

/// The reply a value-store handler returns after a put: always
/// successful, with the message telling an update from a first store.
pub fn value_put_reply(updated: bool) -> (r: (bool, String))
    ensures
        r.0 == true,
        r.1@ == if updated {
            "Value updated successfully"@
        } else {
            "Value stored successfully"@
        },
{
    let message = if updated {
        "Value updated successfully".to_string()
    } else {
        "Value stored successfully".to_string()
    };
    (true, message)
}

/// The reply a value-store handler returns after a lookup: found is
/// success, absent an explicit not-found.
pub fn value_get_reply(found: bool) -> (r: (bool, String))
    ensures
        r.0 == found,
        r.1@ == if found {
            "Value retrieved successfully"@
        } else {
            "Value not found"@
        },
{
    let message = if found {
        "Value retrieved successfully".to_string()
    } else {
        "Value not found".to_string()
    };
    (found, message)
}

/// The reply a value-store handler returns after a delete: success
/// reports whether an entry was removed.
pub fn value_delete_reply(deleted: bool) -> (r: (bool, String))
    ensures
        r.0 == deleted,
        r.1@ == if deleted {
            "Value deleted successfully"@
        } else {
            "Value not found"@
        },
{
    let message = if deleted {
        "Value deleted successfully".to_string()
    } else {
        "Value not found".to_string()
    };
    (deleted, message)
}

} // verus!
