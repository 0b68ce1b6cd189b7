//! The library's error type and the text each error reads as.
use vstd::prelude::*;

use crate::text::{concat, decimal, decimal_string, owned};

verus! {

/// Everything that can go wrong in the overlay. Errors raised by outside
/// services (the database, the file system, JSON decoding, HTTP) carry the
/// text those services reported.
#[derive(Debug, Clone)]
pub enum AppError {
    Db(String),
    Io(String),
    Serde(String),
    Http(String),
    Api { status: u16, body: String },
    Unauthorized,
    RateLimited,
    Unavailable(u16),
    BadKeyFormat,
    MissingPermissions(String),
    NoApiKey,
    WinCrypto(String),
    Other(String),
}

pub type Result<T> = core::result::Result<T, AppError>;

/// The text of `e`, as the user sees it.
pub open spec fn message_of(e: AppError) -> Seq<char> {
    match e {
        AppError::Db(m) => "database error: "@ + m@,
        AppError::Io(m) => "io error: "@ + m@,
        AppError::Serde(m) => "serialization error: "@ + m@,
        AppError::Http(m) => "http error: "@ + m@,
        AppError::Api { status, body } => "gw2 api returned "@ + decimal(status as nat) + ": "@
            + body@,
        AppError::Unauthorized => "invalid or revoked GW2 API key"@,
        AppError::RateLimited => "GW2 API rate limit exceeded after retries"@,
        AppError::Unavailable(s) => "GW2 API unavailable after retries (last status: "@ + decimal(
            s as nat,
        ) + ")"@,
        AppError::BadKeyFormat => "invalid GW2 API key format"@,
        AppError::MissingPermissions(m) => "GW2 API key is missing required permissions: "@ + m@,
        AppError::NoApiKey => "no GW2 API key configured"@,
        AppError::WinCrypto(m) => "windows crypto error: "@ + m@,
        AppError::Other(m) => m@,
    }
}

impl AppError {
    /// The text of the error (what `to_string` gives for it).
    pub fn message(&self) -> (r: String)
        ensures
            r@ == message_of(*self),
    {
        match self {
            AppError::Db(m) => concat("database error: ", m.as_str()),
            AppError::Io(m) => concat("io error: ", m.as_str()),
            AppError::Serde(m) => concat("serialization error: ", m.as_str()),
            AppError::Http(m) => concat("http error: ", m.as_str()),
            AppError::Api { status, body } => {
                let head = concat("gw2 api returned ", decimal_string(*status as u64).as_str());
                let head = concat(head.as_str(), ": ");
                concat(head.as_str(), body.as_str())
            },
            AppError::Unauthorized => owned("invalid or revoked GW2 API key"),
            AppError::RateLimited => owned("GW2 API rate limit exceeded after retries"),
            AppError::Unavailable(s) => {
                let head = concat(
                    "GW2 API unavailable after retries (last status: ",
                    decimal_string(*s as u64).as_str(),
                );
                concat(head.as_str(), ")")
            },
            AppError::BadKeyFormat => owned("invalid GW2 API key format"),
            AppError::MissingPermissions(m) => concat(
                "GW2 API key is missing required permissions: ",
                m.as_str(),
            ),
            AppError::NoApiKey => owned("no GW2 API key configured"),
            AppError::WinCrypto(m) => concat("windows crypto error: ", m.as_str()),
            AppError::Other(m) => owned(m.as_str()),
        }
    }
}

} // verus!
