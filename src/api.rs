use vstd::prelude::*;

use crate::quotes::{
    cite_quote, draft_quote, edited, find, has_id, inserted, opt_view, remove_quote, removed,
    replaced, reset_quotes, undo_quote, Quote, QuoteData, QuoteStore, QuoteView, StoreError,
};

verus! {

/// What a quote request can end in besides success.
#[derive(Debug, Clone, Copy, PartialEq, Eq, Structural)]
pub enum ApiError {
    /// A malformed id or a draft with a missing field.
    BadRequest,
    /// No quote has the id.
    NotFound,
    /// The store refused the change.
    Internal,
}

/// The UUID that `s` spells, as its 128-bit value, if it spells one.
pub uninterp spec fn parsed_uuid(s: Seq<char>) -> Option<u128>;

/// Relies on uuid::Uuid::parse_str (with Uuid::as_u128): the UUID that the
/// text spells in any of the forms the crate accepts, or `None`.
#[verifier::external_body]
fn parse_uuid(s: &str) -> (r: Option<u128>)
    ensures
        r == parsed_uuid(s@),
{
    match uuid::Uuid::parse_str(s) {
        Ok(u) => Some(u.as_u128()),
        Err(_) => None,
    }
}

pub open spec fn store_error(e: StoreError) -> ApiError {
    match e {
        StoreError::NotFound => ApiError::NotFound,
        StoreError::Internal => ApiError::Internal,
    }
}

fn from_store(e: StoreError) -> (r: ApiError)
    ensures
        r == store_error(e),
{
    match e {
        StoreError::NotFound => ApiError::NotFound,
        StoreError::Internal => ApiError::Internal,
    }
}

/// Empties the quote table.
pub fn reset(store: &mut QuoteStore)
    requires
        old(store).wf(),
    ensures
        final(store).wf(),
        final(store)@ == Seq::<QuoteView>::empty(),
        final(store).issued() == old(store).issued(),
{
    reset_quotes(store)
}

/// Looks a quote up by the text of its id.
pub fn cite(store: &QuoteStore, id: &str) -> (r: Result<Quote, ApiError>)
    requires
        store.wf(),
    ensures
        match parsed_uuid(id@) {
            None => r == Err::<Quote, ApiError>(ApiError::BadRequest),
            Some(u) => match r {
                Ok(q) => find(store@, u) == Some(q@),
                Err(e) => e == ApiError::NotFound && find(store@, u) is None,
            },
        },
{
    let u = match parse_uuid(id) {
        Some(u) => u,
        None => {
            return Err(ApiError::BadRequest);
        },
    };
    match cite_quote(store, u) {
        Ok(q) => Ok(q),
        Err(e) => Err(from_store(e)),
    }
}

/// Deletes a quote named by the text of its id and hands it back.
pub fn remove(store: &mut QuoteStore, id: &str) -> (r: Result<Quote, ApiError>)
    requires
        old(store).wf(),
    ensures
        final(store).wf(),
        final(store).issued() == old(store).issued(),
        match parsed_uuid(id@) {
            None => r == Err::<Quote, ApiError>(ApiError::BadRequest) && final(store)@ == old(
                store,
            )@,
            Some(u) => match r {
                Ok(q) => find(old(store)@, u) == Some(q@) && removed(
                    old(store)@,
                    final(store)@,
                    u,
                ),
                Err(e) => {
                    &&& e == ApiError::NotFound
                    &&& find(old(store)@, u) is None
                    &&& final(store)@ == old(store)@
                },
            },
        },
{
    let u = match parse_uuid(id) {
        Some(u) => u,
        None => {
            return Err(ApiError::BadRequest);
        },
    };
    match remove_quote(store, u) {
        Ok(q) => Ok(q),
        Err(e) => Err(from_store(e)),
    }
}

/// Edits a quote named by the text of its id with the fields that `data`
/// holds; the others keep their stored values.
pub fn undo(store: &mut QuoteStore, id: &str, data: QuoteData) -> (r: Result<Quote, ApiError>)
    requires
        old(store).wf(),
    ensures
        final(store).wf(),
        final(store).issued() == old(store).issued(),
        match parsed_uuid(id@) {
            None => r == Err::<Quote, ApiError>(ApiError::BadRequest) && final(store)@ == old(
                store,
            )@,
            Some(u) => match r {
                Ok(q) => find(old(store)@, u) matches Some(prev) && (exists|now: i64|
                    q@ == edited(prev, opt_view(data.author), opt_view(data.quote), now as int))
                    && replaced(old(store)@, final(store)@, prev, q@),
                Err(ApiError::NotFound) => {
                    &&& find(old(store)@, u) is None
                    &&& final(store)@ == old(store)@
                },
                Err(ApiError::Internal) => {
                    &&& find(old(store)@, u) matches Some(prev) && prev.version == i32::MAX
                    &&& final(store)@ == old(store)@
                },
                Err(ApiError::BadRequest) => false,
            },
        },
{
    let u = match parse_uuid(id) {
        Some(u) => u,
        None => {
            return Err(ApiError::BadRequest);
        },
    };
    match undo_quote(store, u, data.author, data.quote) {
        Ok(q) => Ok(q),
        Err(e) => Err(from_store(e)),
    }
}

/// Drafts a new quote; both fields are required.
pub fn draft(store: &mut QuoteStore, data: QuoteData) -> (r: Result<Quote, ApiError>)
    requires
        old(store).wf(),
    ensures
        final(store).wf(),
        match (data.author, data.quote) {
            (Some(a), Some(t)) => match r {
                Ok(q) => {
                    &&& q.author@ == a@
                    &&& q.quote@ == t@
                    &&& q.version == 1
                    &&& !old(store).issued().contains(q.id)
                    &&& final(store).issued() == old(store).issued().insert(q.id)
                    &&& !has_id(old(store)@, q.id)
                    &&& inserted(old(store)@, final(store)@, q@)
                },
                Err(e) => {
                    &&& e == ApiError::Internal
                    &&& final(store)@ == old(store)@
                    &&& final(store).issued() == old(store).issued()
                    &&& exists|id: u128| #[trigger] old(store).issued().contains(id)
                },
            },
            _ => {
                &&& r == Err::<Quote, ApiError>(ApiError::BadRequest)
                &&& final(store)@ == old(store)@
                &&& final(store).issued() == old(store).issued()
            },
        },
{
    match (data.author, data.quote) {
        (Some(a), Some(t)) => match draft_quote(store, a, t) {
            Ok(q) => Ok(q),
            Err(e) => Err(from_store(e)),
        },
        _ => Err(ApiError::BadRequest),
    }
}

} // verus!
