//! The service's settings and the request and response shapes its logic reads.

use vstd::prelude::*;
use crate::datetime::{parse_datetime, parsed_ticks};
use crate::timespan::{valid_instant, TimeSpan};

verus! {

/// The credentials and database address the service runs with.
#[derive(Debug, Clone)]
pub struct Environment {
    pub binance_key: String,
    pub binance_secret: String,
    pub nomics_key: String,
    pub mongodb_host: String,
    pub mongodb_port: String,
    pub mongodb_username: String,
    pub mongodb_password: String,
}

impl Environment {
    /// The connection string of the database:
    /// `mongodb://{username}:{password}@{host}:{port}`.
    pub fn mongodb_url(&self) -> (url: String)
        ensures
            url@ == "mongodb://"@ + self.mongodb_username@ + ":"@ + self.mongodb_password@ + "@"@
                + self.mongodb_host@ + ":"@ + self.mongodb_port@,
    {
        let mut url = String::from_str("mongodb://");
        url.append(self.mongodb_username.as_str());
        url.append(":");
        url.append(self.mongodb_password.as_str());
        url.append("@");
        url.append(self.mongodb_host.as_str());
        url.append(":");
        url.append(self.mongodb_port.as_str());
        url
    }
}

/// The body of a history request: the currency prices are converted to, and
/// the first and last instants wanted, in RFC 3339.
#[derive(Debug)]
pub struct RequestBody {
    pub conversion: String,
    pub start: String,
    pub end: String,
}

/// The window a request body asks for, where both its instants read as
/// RFC 3339.
pub open spec fn request_window_spec(body: RequestBody) -> Option<TimeSpan> {
    match (parsed_ticks(body.start@), parsed_ticks(body.end@)) {
        (Some(start), Some(end)) => Some(TimeSpan { start, end }),
        _ => None,
    }
}

impl RequestBody {
    /// Reads the requested window; `None` where `start` or `end` is not an
    /// RFC 3339 date and time.
    pub fn request_window(&self) -> (window: Option<TimeSpan>)
        ensures
            window == request_window_spec(*self),
            window matches Some(w) ==> valid_instant(w.start as int) && valid_instant(w.end as int),
    {
        let start = parse_datetime(self.start.as_str());
        let end = parse_datetime(self.end.as_str());
        match (start, end) {
            (Some(start), Some(end)) => Some(TimeSpan { start, end }),
            _ => None,
        }
    }
}

/// The price history of one currency from the price service: the instants
/// in RFC 3339 and, at the same positions, the prices in decimal text.
#[derive(Debug)]
pub struct Sparkline {
    pub currency: String,
    pub timestamps: Vec<String>,
    pub prices: Vec<String>,
}

/// One price of one currency at one instant, the price still in decimal
/// text.
#[derive(Debug)]
pub struct HistoryEntry {
    pub asset: String,
    pub time: i128,
    pub price: String,
}

impl View for HistoryEntry {
    type V = (Seq<char>, i128, Seq<char>);

    open spec fn view(&self) -> (Seq<char>, i128, Seq<char>) {
        (self.asset@, self.time, self.price@)
    }
}

} // verus!
