//! The feed protocol's message shapes, as plain values.
//!
//! These are the decoded forms the core works on; the surrounding
//! application owns the JSON envelope and turns each inbound frame into a
//! `ClientEnvelope` before the core sees it.

use crate::token::Token;
use vstd::prelude::*;

verus! {

/// A command sent to the server.
#[derive(Clone, Copy, Debug)]
pub enum ServerCommand {
    SubscribeOrderbook { symbol: Token },
    GetSymbol { symbol: Token },
}

/// A request envelope: a command body and the request id echoed in replies.
#[derive(Clone, Copy, Debug)]
pub struct Envelope<T> {
    pub body: T,
    pub id: u64,
}

/// One price level of a snapshot or update, as the wire's decimal strings.
#[derive(Clone, Debug, PartialEq, Eq)]
pub struct Order {
    pub price: String,
    pub size: String,
}

/// A full replacement of both sides of a pair's book.
#[derive(Clone, Debug, PartialEq, Eq)]
pub struct SnapshotOrderbook {
    pub ask: Vec<Order>,
    pub bid: Vec<Order>,
    pub symbol: Token,
}

/// An incremental change to price levels; a zero size deletes its level.
#[derive(Clone, Debug, PartialEq, Eq)]
pub struct UpdateOrderbook {
    pub ask: Vec<Order>,
    pub bid: Vec<Order>,
    pub symbol: Token,
}

/// A data message from the feed.
#[derive(Clone, Debug, PartialEq, Eq)]
pub enum ClientMessage {
    SnapshotOrderbook(SnapshotOrderbook),
    UpdateOrderbook(UpdateOrderbook),
}

/// An error reported by the server.
#[derive(Clone, Debug, PartialEq, Eq)]
pub struct ClientError {
    pub message: String,
    pub code: u64,
}

/// The symbol metadata returned for a getSymbol request; the tick size and
/// quantity increment fix the pair's price and size precisions.
#[derive(Clone, Debug, PartialEq, Eq)]
pub struct GetSymbol {
    pub base_currency: Token,
    pub quote_currency: Token,
    pub quantity_increment: String,
    pub tick_size: String,
    pub take_liquidity_rate: String,
    pub provide_liquidity_rate: String,
    pub fee_currency: Token,
}

/// The payload of a reply to a request.
#[derive(Clone, Debug, PartialEq, Eq)]
pub enum Reply {
    Bool(bool),
    GetSymbol(GetSymbol),
}

/// An inbound frame once decoded: a data message, a reply to one of our
/// requests, or a server error.
#[derive(Clone, Debug, PartialEq, Eq)]
pub enum ClientEnvelope {
    Message(ClientMessage),
    Reply { result: Reply, id: u64 },
    Error { error: ClientError, id: Option<u64> },
}

} // verus!
