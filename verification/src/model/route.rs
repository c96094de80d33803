//! The address of a remote peer: a host and a port, written `host:port`.

use crate::decimal::{
    decimal_digits, format_u32, is_digit, lemma_digits_well_formed,
    lemma_parse_digits_round_trip, parse_u32, parse_u32_spec, NumberError,
};
use crate::split::{lemma_rsplit_once_of_join, rsplit_once, rsplit_once_spec};
use std::str::FromStr;
use vstd::prelude::*;
use vstd::std_specs::cmp::PartialEqSpec;
use vstd::std_specs::convert::FromSpecImpl;
use vstd::string::StringExecFns;

verus! {

/// The largest port that a parsed endpoint can hold.
pub const MAX_PORT: u32 = 65535;

/// Why a text is not an endpoint.
#[derive(Debug, Clone, Copy, PartialEq, Eq, Structural)]
pub enum ParseError {
    /// The text holds no `:`.
    MissingSeparator,
    /// Nothing stands before the last `:`.
    EmptyAddress,
    /// What follows the last `:` is not a 32-bit unsigned decimal number.
    InvalidPort(NumberError),
    /// The port is a number above `MAX_PORT`.
    PortOutOfRange,
}

/// A host and a port.
#[derive(Debug, Eq, Hash)]
pub struct Endpoint {
    pub addr: String,
    pub port: u32,
}

/// The mathematical value of an `Endpoint`.
pub struct EndpointView {
    pub addr: Seq<char>,
    pub port: nat,
}

impl EndpointView {
    /// What parsing promises of its result: a host that is not empty and a
    /// port that fits in 16 bits.
    pub open spec fn is_valid(self) -> bool {
        self.addr.len() > 0 && self.port <= MAX_PORT
    }
}

impl View for Endpoint {
    type V = EndpointView;

    open spec fn view(&self) -> EndpointView {
        EndpointView { addr: self.addr@, port: self.port as nat }
    }
}

/// The text of an endpoint: the host, a colon, and the port in decimal.
pub open spec fn format_spec(e: EndpointView) -> Seq<char> {
    e.addr + seq![':'] + decimal_digits(e.port)
}

/// The endpoint that a text denotes, or the reason why it denotes none.
///
/// The text is split at its last colon. The reasons are tried in the order in
/// which `ParseError` lists them, and the first that applies is given.
pub open spec fn parse_spec(s: Seq<char>) -> Result<EndpointView, ParseError> {
    match rsplit_once_spec(s, ':') {
        None => Err(ParseError::MissingSeparator),
        Some((addr, raw_port)) => {
            if addr.len() == 0 {
                Err(ParseError::EmptyAddress)
            } else {
                match parse_u32_spec(raw_port) {
                    Err(e) => Err(ParseError::InvalidPort(e)),
                    Ok(port) => {
                        if port > MAX_PORT {
                            Err(ParseError::PortOutOfRange)
                        } else {
                            Ok(EndpointView { addr, port: port as nat })
                        }
                    },
                }
            }
        },
    }
}

impl Endpoint {
    /// An endpoint that holds `ip` and `port` as they are given.
    pub fn new(ip: String, port: u32) -> (r: Self)
        ensures
            r.addr == ip,
            r.port == port,
    {
        Self { addr: ip, port }
    }

    /// Reads an endpoint from its text `host:port`.
    pub fn parse(s: &str) -> (r: Result<Self, ParseError>)
        ensures
            match r {
                Ok(e) => parse_spec(s@) == Ok::<EndpointView, ParseError>(e@),
                Err(err) => parse_spec(s@) == Err::<EndpointView, ParseError>(err),
            },
    {
        let (addr, raw_port) = match rsplit_once(s, ':') {
            Some(v) => v,
            None => {
                return Err(ParseError::MissingSeparator);
            },
        };
        if addr.is_empty() {
            return Err(ParseError::EmptyAddress);
        }
        let port = match parse_u32(raw_port) {
            Ok(port) => port,
            Err(e) => {
                return Err(ParseError::InvalidPort(e));
            },
        };
        if port > MAX_PORT {
            return Err(ParseError::PortOutOfRange);
        }
        Ok(Endpoint { addr: addr.to_owned(), port })
    }

    /// Writes the endpoint as `host:port`.
    pub fn to_string(&self) -> (r: String)
        ensures
            r@ == format_spec(self@),
    {
        let digits = format_u32(self.port);
        proof {
            reveal_strlit(":");
            assert(":"@ =~= seq![':']);
        }
        self.addr.clone().concat(":").concat(digits.as_str())
    }
}

impl Clone for Endpoint {
    fn clone(&self) -> (r: Self)
        ensures
            r == *self,
    {
        Endpoint { addr: self.addr.clone(), port: self.port }
    }
}

impl PartialEq for Endpoint {
    fn eq(&self, other: &Self) -> (r: bool)
        ensures
            r == (self.addr@ == other.addr@ && self.port == other.port),
    {
        self.addr == other.addr && self.port == other.port
    }
}

impl vstd::std_specs::cmp::PartialEqSpecImpl for Endpoint {
    open spec fn obeys_eq_spec() -> bool {
        true
    }

    open spec fn eq_spec(&self, other: &Self) -> bool {
        self@ == other@
    }
}

impl FromStr for Endpoint {
    type Err = ParseError;

    fn from_str(s: &str) -> (r: Result<Self, ParseError>)
        ensures
            match r {
                Ok(e) => parse_spec(s@) == Ok::<EndpointView, ParseError>(e@),
                Err(err) => parse_spec(s@) == Err::<EndpointView, ParseError>(err),
            },
    {
        Endpoint::parse(s)
    }
}

impl From<horaedbproto::storage::Endpoint> for Endpoint {
    /// Copies the message's host and port as they are, whatever they hold.
    fn from(endpoint_pb: horaedbproto::storage::Endpoint) -> (r: Self)
        ensures
            r.addr == endpoint_pb.ip,
            r.port == endpoint_pb.port,
    {
        Self { addr: endpoint_pb.ip, port: endpoint_pb.port }
    }
}

impl FromSpecImpl<horaedbproto::storage::Endpoint> for Endpoint {
    open spec fn obeys_from_spec() -> bool {
        true
    }

    open spec fn from_spec(endpoint_pb: horaedbproto::storage::Endpoint) -> Self {
        Endpoint { addr: endpoint_pb.ip, port: endpoint_pb.port }
    }
}

/// A text that parses denotes a valid endpoint: its host is not empty and
/// its port is at most `MAX_PORT`.
pub proof fn lemma_parsed_is_valid(s: Seq<char>)
    ensures
        parse_spec(s) matches Ok(e) ==> e.is_valid(),
{
}

/// Parsing undoes formatting: the text of a valid endpoint parses, and gives
/// that endpoint back. This holds whether or not the host holds colons,
/// because the text is split at its last colon and a numeral holds none.
pub proof fn lemma_parse_format_round_trip(e: EndpointView)
    requires
        e.is_valid(),
    ensures
        parse_spec(format_spec(e)) == Ok::<EndpointView, ParseError>(e),
{
    let digits = decimal_digits(e.port);
    lemma_digits_well_formed(e.port);
    assert(!digits.contains(':')) by {
        if digits.contains(':') {
            let i = choose|i: int| 0 <= i < digits.len() && digits[i] == ':';
            assert(is_digit(digits[i]));
        }
    }
    lemma_rsplit_once_of_join(e.addr, ':', digits);
    lemma_parse_digits_round_trip(e.port as u32);
}

/// Every endpoint that some text parses to is given back when its own text
/// is parsed again.
pub proof fn lemma_reparse(s: Seq<char>)
    ensures
        parse_spec(s) matches Ok(e) ==> parse_spec(format_spec(e)) == Ok::<
            EndpointView,
            ParseError,
        >(e),
{
    if let Ok(e) = parse_spec(s) {
        lemma_parse_format_round_trip(e);
    }
}

/// Two endpoints are equal exactly when their hosts and their ports are, and
/// this equality is reflexive, symmetric and transitive.
pub proof fn lemma_eq_is_structural(a: Endpoint, b: Endpoint, c: Endpoint)
    ensures
        a.eq_spec(&b) <==> (a.addr@ == b.addr@ && a.port == b.port),
        a.eq_spec(&a),
        a.eq_spec(&b) ==> b.eq_spec(&a),
        a.eq_spec(&b) && b.eq_spec(&c) ==> a.eq_spec(&c),
{
}

} // verus!
