//! Responses the engine sends back, one per request, and the verified
//! mapping from each engine result to its response.

use vstd::prelude::*;
use crate::book::{CancelError, Fill, L2Book, PlaceError};

verus! {

#[derive(Debug)]
pub enum Response {
    L2BookOk(L2Book),
    CancelOk,
    CancelErr,
    PlaceOk(u128),
    PlaceErr,
}

impl Response {
    /// The response for a place outcome: the order id on success, a bare
    /// error otherwise. The fills go to the fill sink, not to the client.
    pub fn of_place(r: &Result<(u128, Vec<Fill>), PlaceError>) -> (resp: Response)
        ensures
            (r matches Ok(ok) ==> resp == Response::PlaceOk(ok.0)),
            r is Err ==> resp == Response::PlaceErr,
    {
        match r {
            Ok((order_id, _)) => Response::PlaceOk(*order_id),
            Err(_) => Response::PlaceErr,
        }
    }

    /// The response for a cancel outcome. The wire does not distinguish
    /// the two failure reasons.
    pub fn of_cancel(r: Result<(), CancelError>) -> (resp: Response)
        ensures
            r is Ok ==> resp == Response::CancelOk,
            r is Err ==> resp == Response::CancelErr,
    {
        match r {
            Ok(()) => Response::CancelOk,
            Err(_) => Response::CancelErr,
        }
    }

    /// The response carrying a Level-2 snapshot.
    pub fn of_l2(snapshot: L2Book) -> (resp: Response)
        ensures
            resp == Response::L2BookOk(snapshot),
    {
        Response::L2BookOk(snapshot)
    }
}

} // verus!
