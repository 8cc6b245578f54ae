//! Request and response records of the service, and the response envelope.
use vstd::prelude::*;

verus! {

/// The envelope of every answer: a success flag, a message and, on success, data.
pub struct ApiResponse<T> {
    pub success: bool,
    pub message: String,
    pub data: Option<T>,
}

impl<T> ApiResponse<T> {
    /// A successful answer carrying `data`.
    pub fn success(data: T, message: &str) -> (r: Self)
        ensures
            r.success,
            r.message@ == message@,
            r.data == Some(data),
    {
        ApiResponse { success: true, message: message.to_string(), data: Some(data) }
    }

    /// A failed answer with no data.
    pub fn error(message: &str) -> (r: ApiResponse<()>)
        ensures
            !r.success,
            r.message@ == message@,
            r.data.is_none(),
    {
        ApiResponse { success: false, message: message.to_string(), data: None }
    }
}

/// A device's credential check.
pub struct AuthRequest {
    pub passkey: String,
}

/// A count-check request: the number of events the client holds.
pub struct CountRequest {
    pub user_id: String,
    pub passkey: String,
    pub local_count: i64,
}

/// A request for a user's full event history.
pub struct FullSyncRequest {
    pub user_id: String,
    pub passkey: String,
}

/// A request for one month's attendance of a user.
pub struct MonthlyStatsRequest {
    pub user_id: String,
    pub passkey: String,
    pub year: i32,
    pub month: u32,
}

/// A field user as stored.
pub struct UserInfo {
    pub id: i32,
    pub user_id: String,
    pub department: i32,
    pub department_name: Option<String>,
    pub department_code: Option<String>,
    pub passkey: String,
}

/// What a field user learns about their own account: everything but the passkey.
pub struct UserInfoResponse {
    pub user_id: String,
    pub department: i32,
    pub department_name: Option<String>,
    pub department_code: Option<String>,
}

impl UserInfoResponse {
    /// The public part of a user record.
    pub fn from_user(user: UserInfo) -> (r: UserInfoResponse)
        ensures
            r.user_id == user.user_id,
            r.department == user.department,
            r.department_name == user.department_name,
            r.department_code == user.department_code,
    {
        UserInfoResponse {
            user_id: user.user_id,
            department: user.department,
            department_name: user.department_name,
            department_code: user.department_code,
        }
    }
}

} // verus!
