//! Request routing for a server that answers queries: which request gets
//! which kind of answer.

use vstd::prelude::*;

verus! {

/// `str`'s `==` compares the two strings character by character.
pub assume_specification[ <str as PartialEq>::eq ](a: &str, b: &str) -> (same: bool)
    ensures
        same == (a@ == b@),
;

/// The method of a request.
#[derive(Clone, Copy, Debug, PartialEq, Eq, Structural)]
pub enum Method {
    /// `GET`.
    Get,
    /// `POST`.
    Post,
    /// Any other method.
    Other,
}

/// What a request is answered with.
#[derive(Clone, Copy, Debug, PartialEq, Eq, Structural)]
pub enum Route {
    /// The ranked documents for the query in the body of the request.
    Search,
    /// The page of the search form.
    Page,
    /// The script of the search form.
    Script,
    /// Nothing: there is no such resource.
    NotFound,
}

/// The largest number of documents that a search answer lists.
pub const RESULT_LIMIT: usize = 20;

/// The route of a request for `url` with `method`.
pub open spec fn route_of(method: Method, url: Seq<char>) -> Route {
    match method {
        Method::Post => if url == "/api/search"@ {
            Route::Search
        } else {
            Route::NotFound
        },
        Method::Get => if url == "/"@ || url == "/index.html"@ {
            Route::Page
        } else if url == "/index.js"@ {
            Route::Script
        } else {
            Route::NotFound
        },
        Method::Other => Route::NotFound,
    }
}

/// Routes a request for `url` with `method`.
pub fn route(method: Method, url: &str) -> (route: Route)
    ensures
        route == route_of(method, url@),
{
    match method {
        Method::Post => if url.eq("/api/search") {
            Route::Search
        } else {
            Route::NotFound
        },
        Method::Get => if url.eq("/") || url.eq("/index.html") {
            Route::Page
        } else if url.eq("/index.js") {
            Route::Script
        } else {
            Route::NotFound
        },
        Method::Other => Route::NotFound,
    }
}

} // verus!
