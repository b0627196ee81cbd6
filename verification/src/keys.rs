//! Broker key and channel names, and the engine's log messages.
//!
//! Each per-symbol queue, channel, and key is a fixed prefix followed by
//! the canonical key suffix `BASE_QUOTE` built from the upper-cased asset
//! names.

use vstd::prelude::*;
use vstd::string::*;

verus! {

/// What `str::to_uppercase` returns for a given character sequence.
pub uninterp spec fn upper_of(s: Seq<char>) -> Seq<char>;

/// Relies on `str::to_uppercase`: the result depends on the characters
/// alone.
#[verifier::external_body]
fn to_upper(s: &str) -> (r: String)
    ensures
        r@ == upper_of(s@),
{
    s.to_uppercase()
}

/// The canonical key suffix for a trading pair: `BASE_QUOTE`.
pub fn key_suffix(base_asset: &str, quote_asset: &str) -> (r: String)
    ensures
        r@ == upper_of(base_asset@) + "_"@ + upper_of(quote_asset@),
{
    let mut r = to_upper(base_asset);
    r.append("_");
    let quote = to_upper(quote_asset);
    r.append(quote.as_str());
    r
}

/// The list new-order commands are pushed to.
pub fn orders_queue_key(suffix: &str) -> (r: String)
    ensures
        r@ == "orderbook:orders:"@ + suffix@,
{
    let mut r = String::from_str("orderbook:orders:");
    r.append(suffix);
    r
}

/// The list cancel commands are pushed to.
pub fn cancel_queue_key(suffix: &str) -> (r: String)
    ensures
        r@ == "orderbook:cancel:"@ + suffix@,
{
    let mut r = String::from_str("orderbook:cancel:");
    r.append(suffix);
    r
}

/// The list snapshot requests are pushed to.
pub fn snapshot_requests_key(suffix: &str) -> (r: String)
    ensures
        r@ == "orderbook:snapshot:"@ + suffix@ + ":requests"@,
{
    let mut r = String::from_str("orderbook:snapshot:");
    r.append(suffix);
    r.append(":requests");
    r
}

/// The channel deltas are broadcast on.
pub fn deltas_channel_key(suffix: &str) -> (r: String)
    ensures
        r@ == "orderbook:deltas:"@ + suffix@,
{
    let mut r = String::from_str("orderbook:deltas:");
    r.append(suffix);
    r
}

/// The list trades are appended to.
pub fn trades_queue_key(suffix: &str) -> (r: String)
    ensures
        r@ == "orderbook:trades:"@ + suffix@,
{
    let mut r = String::from_str("orderbook:trades:");
    r.append(suffix);
    r
}

/// The key holding the last traded price.
pub fn ltp_key(suffix: &str) -> (r: String)
    ensures
        r@ == "orderbook:ltp:"@ + suffix@,
{
    let mut r = String::from_str("orderbook:ltp:");
    r.append(suffix);
    r
}

/// The sorted set materializing the bid side.
pub fn bids_book_key(suffix: &str) -> (r: String)
    ensures
        r@ == "orderbook:bids:"@ + suffix@,
{
    let mut r = String::from_str("orderbook:bids:");
    r.append(suffix);
    r
}

/// The sorted set materializing the ask side.
pub fn asks_book_key(suffix: &str) -> (r: String)
    ensures
        r@ == "orderbook:asks:"@ + suffix@,
{
    let mut r = String::from_str("orderbook:asks:");
    r.append(suffix);
    r
}

/// The log line for a cancellation of an unknown order id.
pub fn not_found_message(order_id_text: &str) -> (r: String)
    ensures
        r@ == "[Engine] Order "@ + order_id_text@ + " not found for cancellation."@,
{
    let mut r = String::from_str("[Engine] Order ");
    r.append(order_id_text);
    r.append(" not found for cancellation.");
    r
}

/// The log line for an order id indexed but absent from the book; the
/// engine proves this situation unreachable.
pub fn inconsistent_message(order_id_text: &str) -> (r: String)
    ensures
        r@ == "[Engine] Order "@ + order_id_text@ + " in map but not in book."@,
{
    let mut r = String::from_str("[Engine] Order ");
    r.append(order_id_text);
    r.append(" in map but not in book.");
    r
}

} // verus!
