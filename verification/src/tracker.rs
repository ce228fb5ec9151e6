//! The book updater and top-of-book change detector.
//!
//! A `Tracker` follows one trading pair: it learns the pair's precision
//! from the symbol metadata, replaces its book on a snapshot, applies
//! update deltas, and decides after each message whether the top of book
//! is worth rendering and with what highlighting.

use crate::book::Book;
use crate::book::apply_deltas;
use crate::book::snapshot_map;
use crate::decimal::Decimal;
use crate::decimal::frac_limit;
use crate::decimal::lit_mantissa;
use crate::decimal::parse;
use crate::decimal::valid_literal;
use crate::message::ClientEnvelope;
use crate::message::ClientMessage;
use crate::message::Order;
use crate::message::Reply;
use crate::precision::exp;
use crate::precision::exp_spec;
use vstd::prelude::*;
use vstd::utf8::encode_utf8;

verus! {

/// The direction a compared quantity moved, for highlighting.
#[derive(Clone, Copy, Debug, PartialEq, Eq, Structural)]
pub enum Direction {
    Up,
    Down,
    Flat,
}

/// Which side of the book an entry belongs to.
#[derive(Clone, Copy, Debug, PartialEq, Eq, Structural)]
pub enum Side {
    Bid,
    Ask,
}

/// The direction of `a` measured against `b`.
pub open spec fn direction_of(a: u64, b: u64) -> Direction {
    if a > b {
        Direction::Up
    } else if a < b {
        Direction::Down
    } else {
        Direction::Flat
    }
}

/// Compare a new quantity against an old one for highlighting: up when it
/// rose, down when it fell, flat when unchanged.
pub fn cmpcolor(a: u64, b: u64) -> (r: Direction)
    ensures
        r == direction_of(a, b),
{
    if a > b {
        Direction::Up
    } else if a < b {
        Direction::Down
    } else {
        Direction::Flat
    }
}

/// What one rendered line holds. Prices carry the pair's price exponent
/// and sizes its size exponent, so each field renders exactly.
#[derive(Clone, Copy, Debug, PartialEq, Eq, Structural)]
pub enum RenderDecision {
    /// The unconditional baseline line after a snapshot with both sides
    /// resting.
    Snapshot { bid_price: Decimal, bid_size: Decimal, ask_price: Decimal, ask_size: Decimal },
    /// A best price moved: both prices, each highlighted by its own
    /// direction; the sizes ride along for volume display, unhighlighted.
    Prices {
        bid_price: Decimal,
        bid_dir: Direction,
        ask_price: Decimal,
        ask_dir: Direction,
        bid_size: Decimal,
        ask_size: Decimal,
    },
    /// Volume display only: prices held but a best size moved. The bid
    /// size is highlighted new-against-old, the ask size old-against-new —
    /// the exchange's convention that rising ask size reads as the same
    /// signal as rising bid size.
    Volumes {
        bid_size: Decimal,
        bid_size_dir: Direction,
        bid_price: Decimal,
        ask_price: Decimal,
        ask_size: Decimal,
        ask_size_dir: Direction,
    },
}

/// Why a message cannot be applied to the book.
#[derive(Clone, Copy, Debug, PartialEq, Eq, Structural)]
pub enum BookError {
    /// A price or size string failed to parse: which side, which entry.
    MalformedDecimal { side: Side, index: usize },
    /// A snapshot or update arrived before the pair's precision was known.
    MissingPrecision,
    /// An update arrived before any snapshot.
    MissingSnapshot,
}

/// Why a decoded frame ends the session.
#[derive(Clone, Debug, PartialEq, Eq)]
pub enum Error {
    /// The server reported an error for this subscription.
    Server { message: String, code: u64 },
    /// The symbol metadata's tick size is not a power-of-ten literal.
    BadTickSize,
    /// The symbol metadata's quantity increment is not a power-of-ten
    /// literal.
    BadQuantityIncrement,
}

/// The bytes of a wire string field.
pub open spec fn wire_bytes(s: String) -> Seq<u8> {
    encode_utf8(s@)
}

/// Does one wire order parse at the pair's exponents, with both mantissas
/// in range?
pub open spec fn order_ok(o: Order, aprec: i8, sprec: i8) -> bool {
    &&& valid_literal(wire_bytes(o.price), frac_limit(aprec))
    &&& lit_mantissa(wire_bytes(o.price), frac_limit(aprec)) <= u64::MAX
    &&& valid_literal(wire_bytes(o.size), frac_limit(sprec))
    &&& lit_mantissa(wire_bytes(o.size), frac_limit(sprec)) <= u64::MAX
}

/// The (price, size) mantissa pair a wire order denotes.
pub open spec fn order_entry(o: Order, aprec: i8, sprec: i8) -> (u64, u64) {
    (
        lit_mantissa(wire_bytes(o.price), frac_limit(aprec)) as u64,
        lit_mantissa(wire_bytes(o.size), frac_limit(sprec)) as u64,
    )
}

pub open spec fn orders_ok(os: Seq<Order>, aprec: i8, sprec: i8) -> bool {
    forall|i: int| 0 <= i < os.len() ==> order_ok(#[trigger] os[i], aprec, sprec)
}

pub open spec fn orders_entries(os: Seq<Order>, aprec: i8, sprec: i8) -> Seq<(u64, u64)> {
    Seq::new(os.len(), |i: int| order_entry(os[i], aprec, sprec))
}

/// Parse a side's wire orders into mantissa pairs; the first entry that
/// fails is reported by index and leaves nothing applied.
fn parse_orders(os: &Vec<Order>, aprec: i8, sprec: i8) -> (r: Result<Vec<(u64, u64)>, usize>)
    ensures
        match r {
            Ok(v) => orders_ok(os@, aprec, sprec) && v@ == orders_entries(os@, aprec, sprec),
            Err(i) => i < os@.len() && !order_ok(os@[i as int], aprec, sprec) && forall|j: int|
                0 <= j < i ==> order_ok(#[trigger] os@[j], aprec, sprec),
        },
{
    let n = os.len();
    let mut out: Vec<(u64, u64)> = Vec::new();
    let mut i: usize = 0;
    while i < n
        invariant
            n == os@.len(),
            i <= n,
            out@.len() == i,
            forall|j: int| 0 <= j < i ==> order_ok(#[trigger] os@[j], aprec, sprec),
            forall|j: int| 0 <= j < i ==> out@[j] == order_entry(os@[j], aprec, sprec),
        decreases n - i,
    {
        let o = &os[i];
        let price = match parse(o.price.as_str(), aprec) {
            Ok(v) => v,
            Err(_) => {
                return Err(i);
            },
        };
        let size = match parse(o.size.as_str(), sprec) {
            Ok(v) => v,
            Err(_) => {
                return Err(i);
            },
        };
        out.push((price.mantissa, size.mantissa));
        i += 1;
    }
    proof {
        assert(out@ =~= orders_entries(os@, aprec, sprec));
    }
    Ok(out)
}

/// The baseline decision after a snapshot: one unconditional line when both
/// sides rest, nothing when either side is empty.
pub open spec fn spec_snapshot_decision(
    bb: Option<(u64, u64)>,
    ba: Option<(u64, u64)>,
    aprec: i8,
    sprec: i8,
) -> Option<RenderDecision> {
    match (bb, ba) {
        (Some(b), Some(a)) => Some(
            RenderDecision::Snapshot {
                bid_price: Decimal { mantissa: b.0, exponent: aprec },
                bid_size: Decimal { mantissa: b.1, exponent: sprec },
                ask_price: Decimal { mantissa: a.0, exponent: aprec },
                ask_size: Decimal { mantissa: a.1, exponent: sprec },
            },
        ),
        _ => None,
    }
}

/// The emit decision after an update, from the top of book before and
/// after: nothing unless both sides rested both before and after; then the
/// price branch when a best price moved, the volume branch when only a
/// best size moved and volumes are displayed, and nothing when the top of
/// book held still.
pub open spec fn spec_decide(
    bb0: Option<(u64, u64)>,
    ba0: Option<(u64, u64)>,
    bb1: Option<(u64, u64)>,
    ba1: Option<(u64, u64)>,
    byvol: bool,
    aprec: i8,
    sprec: i8,
) -> Option<RenderDecision> {
    match (bb0, ba0, bb1, ba1) {
        (Some(b0), Some(a0), Some(b1), Some(a1)) => {
            if b1.0 != b0.0 || a1.0 != a0.0 {
                Some(
                    RenderDecision::Prices {
                        bid_price: Decimal { mantissa: b1.0, exponent: aprec },
                        bid_dir: direction_of(b1.0, b0.0),
                        ask_price: Decimal { mantissa: a1.0, exponent: aprec },
                        ask_dir: direction_of(a1.0, a0.0),
                        bid_size: Decimal { mantissa: b1.1, exponent: sprec },
                        ask_size: Decimal { mantissa: a1.1, exponent: sprec },
                    },
                )
            } else if byvol && (b1.1 != b0.1 || a1.1 != a0.1) {
                Some(
                    RenderDecision::Volumes {
                        bid_size: Decimal { mantissa: b1.1, exponent: sprec },
                        bid_size_dir: direction_of(b1.1, b0.1),
                        bid_price: Decimal { mantissa: b1.0, exponent: aprec },
                        ask_price: Decimal { mantissa: a1.0, exponent: aprec },
                        ask_size: Decimal { mantissa: a1.1, exponent: sprec },
                        ask_size_dir: direction_of(a0.1, a1.1),
                    },
                )
            } else {
                None
            }
        },
        _ => None,
    }
}

/// The change detector, in isolation: exactly `spec_decide` on the
/// captured tops of book.
pub fn decide(
    bb0: Option<(u64, u64)>,
    ba0: Option<(u64, u64)>,
    bb1: Option<(u64, u64)>,
    ba1: Option<(u64, u64)>,
    byvol: bool,
    aprec: i8,
    sprec: i8,
) -> (r: Option<RenderDecision>)
    ensures
        r == spec_decide(bb0, ba0, bb1, ba1, byvol, aprec, sprec),
{
    match (bb0, ba0, bb1, ba1) {
        (Some(b0), Some(a0), Some(b1), Some(a1)) => {
            if b1.0 != b0.0 || a1.0 != a0.0 {
                Some(
                    RenderDecision::Prices {
                        bid_price: Decimal { mantissa: b1.0, exponent: aprec },
                        bid_dir: cmpcolor(b1.0, b0.0),
                        ask_price: Decimal { mantissa: a1.0, exponent: aprec },
                        ask_dir: cmpcolor(a1.0, a0.0),
                        bid_size: Decimal { mantissa: b1.1, exponent: sprec },
                        ask_size: Decimal { mantissa: a1.1, exponent: sprec },
                    },
                )
            } else if byvol && (b1.1 != b0.1 || a1.1 != a0.1) {
                Some(
                    RenderDecision::Volumes {
                        bid_size: Decimal { mantissa: b1.1, exponent: sprec },
                        bid_size_dir: cmpcolor(b1.1, b0.1),
                        bid_price: Decimal { mantissa: b1.0, exponent: aprec },
                        ask_price: Decimal { mantissa: a1.0, exponent: aprec },
                        ask_size: Decimal { mantissa: a1.1, exponent: sprec },
                        ask_size_dir: cmpcolor(a0.1, a1.1),
                    },
                )
            } else {
                None
            }
        },
        _ => None,
    }
}

/// Suppression rule: with any side of the top of book absent before or
/// after an update, nothing is rendered, whatever the other side did.
pub proof fn lemma_suppression(
    bb0: Option<(u64, u64)>,
    ba0: Option<(u64, u64)>,
    bb1: Option<(u64, u64)>,
    ba1: Option<(u64, u64)>,
    byvol: bool,
    aprec: i8,
    sprec: i8,
)
    requires
        bb0 is None || ba0 is None || bb1 is None || ba1 is None,
    ensures
        spec_decide(bb0, ba0, bb1, ba1, byvol, aprec, sprec) is None,
{
}

/// The tracking state of one subscribed pair: precision learned once,
/// then a snapshot, then updates.
pub struct Tracker {
    /// The pair's (price, size) exponents, once learned.
    pub precision: Option<(i8, i8)>,
    /// The mirrored order book.
    pub book: Book,
    /// Whether sizes are displayed and size-only changes rendered.
    pub byvol: bool,
    /// Whether a snapshot has been applied yet.
    pub have_snapshot: bool,
}

/// Everything a snapshot application promises. On failure the tracker is
/// untouched and the error pins the first offending entry; on success the
/// book holds exactly the snapshot's entries and the result is the
/// baseline decision.
pub open spec fn snapshot_outcome(
    pre: Tracker,
    post: Tracker,
    bid: Seq<Order>,
    ask: Seq<Order>,
    r: Result<Option<RenderDecision>, BookError>,
) -> bool {
    match pre.precision {
        None => r == Err::<Option<RenderDecision>, BookError>(BookError::MissingPrecision) && post
            == pre,
        Some(pr) => {
            let aprec = pr.0;
            let sprec = pr.1;
            &&& (r is Ok <==> orders_ok(bid, aprec, sprec) && orders_ok(ask, aprec, sprec))
            &&& match r {
                Ok(d) => {
                    &&& post.book.bids.as_map() == snapshot_map(
                        orders_entries(bid, aprec, sprec),
                    )
                    &&& post.book.asks.as_map() == snapshot_map(
                        orders_entries(ask, aprec, sprec),
                    )
                    &&& post.have_snapshot
                    &&& post.precision == pre.precision
                    &&& post.byvol == pre.byvol
                    &&& d == spec_snapshot_decision(
                        post.book.bids.spec_best_high(),
                        post.book.asks.spec_best_low(),
                        aprec,
                        sprec,
                    )
                },
                Err(e) => {
                    &&& post == pre
                    &&& match e {
                        BookError::MalformedDecimal { side, index } => {
                            if side is Bid {
                                &&& index < bid.len()
                                &&& !order_ok(bid[index as int], aprec, sprec)
                                &&& forall|j: int|
                                    0 <= j < index ==> order_ok(#[trigger] bid[j], aprec, sprec)
                            } else {
                                &&& orders_ok(bid, aprec, sprec)
                                &&& index < ask.len()
                                &&& !order_ok(ask[index as int], aprec, sprec)
                                &&& forall|j: int|
                                    0 <= j < index ==> order_ok(#[trigger] ask[j], aprec, sprec)
                            }
                        },
                        _ => false,
                    }
                },
            }
        },
    }
}

/// Everything an update application promises: the deltas applied in order
/// to each side, and the decision computed from the tops of book before
/// and after; a tracker without precision or snapshot, or a malformed
/// entry, changes nothing.
pub open spec fn update_outcome(
    pre: Tracker,
    post: Tracker,
    bid: Seq<Order>,
    ask: Seq<Order>,
    r: Result<Option<RenderDecision>, BookError>,
) -> bool {
    match pre.precision {
        None => r == Err::<Option<RenderDecision>, BookError>(BookError::MissingPrecision) && post
            == pre,
        Some(pr) => {
            let aprec = pr.0;
            let sprec = pr.1;
            if !pre.have_snapshot {
                r == Err::<Option<RenderDecision>, BookError>(BookError::MissingSnapshot) && post
                    == pre
            } else {
                &&& (r is Ok <==> orders_ok(bid, aprec, sprec) && orders_ok(ask, aprec, sprec))
                &&& match r {
                    Ok(d) => {
                        &&& post.book.bids.as_map() == apply_deltas(
                            pre.book.bids.as_map(),
                            orders_entries(bid, aprec, sprec),
                        )
                        &&& post.book.asks.as_map() == apply_deltas(
                            pre.book.asks.as_map(),
                            orders_entries(ask, aprec, sprec),
                        )
                        &&& post.have_snapshot == pre.have_snapshot
                        &&& post.precision == pre.precision
                        &&& post.byvol == pre.byvol
                        &&& d == spec_decide(
                            pre.book.bids.spec_best_high(),
                            pre.book.asks.spec_best_low(),
                            post.book.bids.spec_best_high(),
                            post.book.asks.spec_best_low(),
                            pre.byvol,
                            aprec,
                            sprec,
                        )
                    },
                    Err(e) => {
                        &&& post == pre
                        &&& match e {
                            BookError::MalformedDecimal { side, index } => {
                                if side is Bid {
                                    &&& index < bid.len()
                                    &&& !order_ok(bid[index as int], aprec, sprec)
                                    &&& forall|j: int|
                                        0 <= j < index ==> order_ok(
                                            #[trigger] bid[j],
                                            aprec,
                                            sprec,
                                        )
                                } else {
                                    &&& orders_ok(bid, aprec, sprec)
                                    &&& index < ask.len()
                                    &&& !order_ok(ask[index as int], aprec, sprec)
                                    &&& forall|j: int|
                                        0 <= j < index ==> order_ok(
                                            #[trigger] ask[j],
                                            aprec,
                                            sprec,
                                        )
                                }
                            },
                            _ => false,
                        }
                    },
                }
            }
        },
    }
}

/// Snapshot idempotence: applying one snapshot's entries to any two
/// trackers of the same pair — in particular, to the same tracker twice in
/// a row — leaves identical book contents, because a snapshot discards
/// whatever the book held before.
pub proof fn lemma_snapshot_idempotent(
    pre1: Tracker,
    post1: Tracker,
    pre2: Tracker,
    post2: Tracker,
    bid: Seq<Order>,
    ask: Seq<Order>,
    r1: Result<Option<RenderDecision>, BookError>,
    r2: Result<Option<RenderDecision>, BookError>,
)
    requires
        pre1.precision == pre2.precision,
        snapshot_outcome(pre1, post1, bid, ask, r1),
        snapshot_outcome(pre2, post2, bid, ask, r2),
        r1 is Ok,
    ensures
        r2 is Ok,
        post1.book.bids.as_map() == post2.book.bids.as_map(),
        post1.book.asks.as_map() == post2.book.asks.as_map(),
{
}

impl Tracker {
    pub open spec fn wf(self) -> bool {
        self.book.wf()
    }

    /// A fresh tracker: no precision, an empty book, no snapshot yet.
    pub fn new(byvol: bool) -> (r: Tracker)
        ensures
            r.wf(),
            r.precision is None,
            !r.have_snapshot,
            r.byvol == byvol,
            r.book.bids.as_map() == Map::<u64, u64>::empty(),
            r.book.asks.as_map() == Map::<u64, u64>::empty(),
    {
        Tracker { precision: None, book: Book::new(), byvol, have_snapshot: false }
    }

    /// Record the pair's price and size exponents.
    pub fn set_precision(&mut self, price_exp: i8, size_exp: i8)
        ensures
            final(self).precision == Some((price_exp, size_exp)),
            final(self).book == old(self).book,
            final(self).byvol == old(self).byvol,
            final(self).have_snapshot == old(self).have_snapshot,
    {
        self.precision = Some((price_exp, size_exp));
    }

    /// Digest one decoded frame, as the session loop does: a data message
    /// is handed on for book application; a getSymbol reply records the
    /// pair's precision; any other reply is ignored; a server error ends
    /// the session.
    pub fn handle(&mut self, m: ClientEnvelope) -> (r: Result<Option<ClientMessage>, Error>)
        ensures
            final(self).book == old(self).book,
            final(self).byvol == old(self).byvol,
            final(self).have_snapshot == old(self).have_snapshot,
            (match m {
                ClientEnvelope::Message(msg) => r == Ok::<Option<ClientMessage>, Error>(Some(msg))
                    && final(self).precision == old(self).precision,
                ClientEnvelope::Reply { result, .. } => match result {
                    Reply::GetSymbol(x) => {
                        let te = exp_spec(wire_bytes(x.tick_size));
                        let qe = exp_spec(wire_bytes(x.quantity_increment));
                        if te is None {
                            r == Err::<Option<ClientMessage>, Error>(Error::BadTickSize)
                                && final(self).precision == old(self).precision
                        } else if qe is None {
                            r == Err::<Option<ClientMessage>, Error>(Error::BadQuantityIncrement)
                                && final(self).precision == old(self).precision
                        } else {
                            r == Ok::<Option<ClientMessage>, Error>(None) && final(self).precision
                                == Some((te.unwrap() as i8, qe.unwrap() as i8))
                        }
                    },
                    Reply::Bool(_) => r == Ok::<Option<ClientMessage>, Error>(None)
                        && final(self).precision == old(self).precision,
                },
                ClientEnvelope::Error { error, .. } => r == Err::<Option<ClientMessage>, Error>(
                    Error::Server { message: error.message, code: error.code },
                ) && final(self).precision == old(self).precision,
            }),
    {
        match m {
            ClientEnvelope::Message(msg) => Ok(Some(msg)),
            ClientEnvelope::Reply { result, id: _ } => match result {
                Reply::GetSymbol(x) => {
                    let te = match exp(x.tick_size.as_str()) {
                        Ok(v) => v,
                        Err(_) => {
                            return Err(Error::BadTickSize);
                        },
                    };
                    let qe = match exp(x.quantity_increment.as_str()) {
                        Ok(v) => v,
                        Err(_) => {
                            return Err(Error::BadQuantityIncrement);
                        },
                    };
                    self.precision = Some((te, qe));
                    Ok(None)
                },
                Reply::Bool(_) => Ok(None),
            },
            ClientEnvelope::Error { error, id: _ } => Err(
                Error::Server { message: error.message, code: error.code },
            ),
        }
    }

    /// Apply a snapshot message: replace the whole book with its entries
    /// and report the baseline top of book. A malformed entry leaves the
    /// book untouched.
    pub fn on_snapshot(&mut self, bid: &Vec<Order>, ask: &Vec<Order>) -> (r: Result<
        Option<RenderDecision>,
        BookError,
    >)
        requires
            old(self).wf(),
        ensures
            final(self).wf(),
            snapshot_outcome(*old(self), *final(self), bid@, ask@, r),
    {
        let (aprec, sprec) = match self.precision {
            Some(p) => p,
            None => {
                return Err(BookError::MissingPrecision);
            },
        };
        let bid_entries = match parse_orders(bid, aprec, sprec) {
            Ok(v) => v,
            Err(i) => {
                return Err(BookError::MalformedDecimal { side: Side::Bid, index: i });
            },
        };
        let ask_entries = match parse_orders(ask, aprec, sprec) {
            Ok(v) => v,
            Err(i) => {
                return Err(BookError::MalformedDecimal { side: Side::Ask, index: i });
            },
        };
        self.book.apply_snapshot(&bid_entries, &ask_entries);
        self.have_snapshot = true;
        let bb = self.book.best_bid();
        let ba = self.book.best_ask();
        match (bb, ba) {
            (Some(b), Some(a)) => Ok(
                Some(
                    RenderDecision::Snapshot {
                        bid_price: Decimal { mantissa: b.0, exponent: aprec },
                        bid_size: Decimal { mantissa: b.1, exponent: sprec },
                        ask_price: Decimal { mantissa: a.0, exponent: aprec },
                        ask_size: Decimal { mantissa: a.1, exponent: sprec },
                    },
                ),
            ),
            _ => Ok(None),
        }
    }

    /// Apply an update message: capture the top of book, apply all bid
    /// deltas then all ask deltas, and decide what changed. A malformed
    /// entry leaves the book untouched.
    pub fn on_update(&mut self, bid: &Vec<Order>, ask: &Vec<Order>) -> (r: Result<
        Option<RenderDecision>,
        BookError,
    >)
        requires
            old(self).wf(),
        ensures
            final(self).wf(),
            update_outcome(*old(self), *final(self), bid@, ask@, r),
    {
        let (aprec, sprec) = match self.precision {
            Some(p) => p,
            None => {
                return Err(BookError::MissingPrecision);
            },
        };
        if !self.have_snapshot {
            return Err(BookError::MissingSnapshot);
        }
        let bid_entries = match parse_orders(bid, aprec, sprec) {
            Ok(v) => v,
            Err(i) => {
                return Err(BookError::MalformedDecimal { side: Side::Bid, index: i });
            },
        };
        let ask_entries = match parse_orders(ask, aprec, sprec) {
            Ok(v) => v,
            Err(i) => {
                return Err(BookError::MalformedDecimal { side: Side::Ask, index: i });
            },
        };
        let bb0 = self.book.best_bid();
        let ba0 = self.book.best_ask();
        self.book.apply_update(&bid_entries, &ask_entries);
        let bb1 = self.book.best_bid();
        let ba1 = self.book.best_ask();
        Ok(decide(bb0, ba0, bb1, ba1, self.byvol, aprec, sprec))
    }

    /// Apply one data message to the book, as the display loop does, and
    /// hand back what to render: the baseline line after a snapshot, a
    /// change line after an update, or nothing.
    pub fn update_book(&mut self, m: ClientMessage) -> (r: Result<Option<RenderDecision>, BookError>)
        requires
            old(self).wf(),
        ensures
            final(self).wf(),
            (match m {
                ClientMessage::SnapshotOrderbook(s) => snapshot_outcome(
                    *old(self),
                    *final(self),
                    s.bid@,
                    s.ask@,
                    r,
                ),
                ClientMessage::UpdateOrderbook(u) => update_outcome(
                    *old(self),
                    *final(self),
                    u.bid@,
                    u.ask@,
                    r,
                ),
            }),
    {
        match m {
            ClientMessage::SnapshotOrderbook(s) => self.on_snapshot(&s.bid, &s.ask),
            ClientMessage::UpdateOrderbook(u) => self.on_update(&u.bid, &u.ask),
        }
    }
}

} // verus!
