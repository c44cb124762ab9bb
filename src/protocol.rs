use vstd::prelude::*;

verus! {

/// A request of the line-based service protocol.
#[derive(Debug, Clone, PartialEq, Eq)]
pub enum Request {
    Get { key: String },
    Put { key: String, value: String },
    Remove { key: String },
}

/// A response of the line-based service protocol.
#[derive(Debug, Clone, PartialEq, Eq)]
pub enum Response {
    Done,
    Value(String),
    NotFound,
    Error(String),
}

/// The response to a `Get`: the value, `NotFound` for an absent key, or the
/// error's message.
pub fn get_response(result: Result<Option<String>, String>) -> (r: Response)
    ensures
        match result {
            Ok(Some(v)) => r == Response::Value(v),
            Ok(None) => r == Response::NotFound,
            Err(e) => r == Response::Error(e),
        },
{
    match result {
        Ok(Some(v)) => Response::Value(v),
        Ok(None) => Response::NotFound,
        Err(e) => Response::Error(e),
    }
}

/// The response to a `Put` or a `Remove`: `Ok`, or the error's message.
pub fn write_response(result: Result<(), String>) -> (r: Response)
    ensures
        match result {
            Ok(()) => r == Response::Done,
            Err(e) => r == Response::Error(e),
        },
{
    match result {
        Ok(()) => Response::Done,
        Err(e) => Response::Error(e),
    }
}

} // verus!
