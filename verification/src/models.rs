//! What the service answers.

use vstd::prelude::*;

verus! {

/// An address taken from the pool, as it is shown to the client.
#[derive(Debug)]
pub struct GetPetAddressResponse {
    pub id: u64,
    pub public_key: String,
    pub private_key: String,
    pub address: String,
    pub created_at: String,
}

/// How the pool and its replenisher stand.
#[derive(Debug)]
pub struct PetGeneratorStatusResponse {
    pub total_addresses: usize,
    pub pool_size: usize,
    pub generation_active: bool,
}

/// The envelope of every answer.
#[derive(Debug)]
pub struct ApiResponse<T> {
    pub code: i32,
    pub message: String,
    pub data: Option<T>,
    pub timestamp: i64,
}

/// The answer of the health check.
#[derive(Debug)]
pub struct HealthResponse {
    pub status: String,
    pub version: String,
    pub uptime: String,
}

/// The parameters of a time request.
#[derive(Debug)]
pub struct TimeQuery {
    pub format: Option<String>,
    pub timezone: Option<String>,
}

/// The holder of the API description.
#[derive(Debug)]
pub struct ApiDoc;

/// `chrono::Utc::now().timestamp()`: the present time in seconds since 1970.
#[verifier::external_body]
fn unix_timestamp() -> (seconds: i64) {
    chrono::Utc::now().timestamp()
}

impl<T> ApiResponse<T> {
    /// An answer that carries `data`, stamped with the given time.
    pub fn success_at(data: T, timestamp: i64) -> (r: ApiResponse<T>)
        ensures
            r.code == 200,
            r.message@ == "success"@,
            r.data == Some(data),
            r.timestamp == timestamp,
    {
        ApiResponse { code: 200, message: "success".to_owned(), data: Some(data), timestamp }
    }

    /// An answer that carries `data`, stamped with the present time.
    pub fn success(data: T) -> (r: ApiResponse<T>)
        ensures
            r.code == 200,
            r.message@ == "success"@,
            r.data == Some(data),
    {
        Self::success_at(data, unix_timestamp())
    }

    /// An answer without data that reports an error, stamped with the given time.
    pub fn error_at(code: i32, message: &str, timestamp: i64) -> (r: ApiResponse<()>)
        ensures
            r.code == code,
            r.message@ == message@,
            r.data is None,
            r.timestamp == timestamp,
    {
        ApiResponse { code, message: message.to_owned(), data: None, timestamp }
    }

    /// An answer without data that reports an error, stamped with the present time.
    pub fn error(code: i32, message: &str) -> (r: ApiResponse<()>)
        ensures
            r.code == code,
            r.message@ == message@,
            r.data is None,
    {
        Self::error_at(code, message, unix_timestamp())
    }
}

} // verus!
