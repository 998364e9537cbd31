use vstd::prelude::*;

use crate::quotes::{opt_view, quotes_view, window, QuoteStore, QuoteView, Quote};
use crate::token::{
    advance_token, sample_token, create_token, discard_token, token_format, validate_token, TokenStore,
};

verus! {

/// Quotes shown per page.
pub const PAGE_SIZE: usize = 3;

/// Rows read per page: one more than a page, to learn whether another follows.
pub const PROBE_LIMIT: usize = 4;

/// How a listing request can fail.
#[derive(Debug, Clone, Copy, PartialEq, Eq, Structural)]
pub enum ListError {
    /// The token is malformed, unknown or already used up.
    BadRequest,
    /// The requested page holds no quote at all.
    NoContent,
    /// A new token could not be stored, or a page counter is at its limit.
    Internal,
}

/// The query of a listing request: the token of a listing under way, if any.
pub struct TokenQuery {
    pub token: Option<String>,
}

/// One page of a listing.
pub struct ListResponse {
    pub quotes: Vec<Quote>,
    pub page: i32,
    pub next_token: Option<String>,
}

/// The mathematical value of a [`ListResponse`].
pub struct ListView {
    pub quotes: Seq<QuoteView>,
    pub page: int,
    pub next_token: Option<Seq<char>>,
}

impl View for ListResponse {
    type V = ListView;

    open spec fn view(&self) -> ListView {
        ListView {
            quotes: quotes_view(self.quotes@),
            page: self.page as int,
            next_token: opt_view(self.next_token),
        }
    }
}

pub open spec fn result_view(r: Result<ListResponse, ListError>) -> Result<ListView, ListError> {
    match r {
        Ok(resp) => Ok(resp@),
        Err(e) => Err(e),
    }
}

/// Serves the page that the held token `t` points at, and the token table
/// afterwards: page `p` shows the rows from `3 * p` on; the token moves on to
/// `p + 1` while a further page exists, and is dropped once none does.
pub open spec fn serve(rows: Seq<QuoteView>, toks: Map<Seq<char>, int>, t: Seq<char>) -> (
    Result<ListView, ListError>,
    Map<Seq<char>, int>,
) {
    let p = toks[t];
    if p >= i32::MAX {
        (Err(ListError::Internal), toks)
    } else {
        let advanced = toks.insert(t, p + 1);
        let w = window(rows, PAGE_SIZE * p, PROBE_LIMIT as int);
        if w.len() == 0 {
            (Err(ListError::NoContent), advanced.remove(t))
        } else if w.len() == PROBE_LIMIT {
            (
                Ok(ListView { quotes: w.take(PAGE_SIZE as int), page: p, next_token: Some(t) }),
                advanced,
            )
        } else {
            (Ok(ListView { quotes: w, page: p, next_token: None }), advanced.remove(t))
        }
    }
}

/// The outcome of a listing request and the token table afterwards. A request
/// without a token starts a new listing under `fresh`, which must never have
/// been issued before.
pub open spec fn list_outcome(
    rows: Seq<QuoteView>,
    toks: Map<Seq<char>, int>,
    issued: Set<Seq<char>>,
    query: Option<Seq<char>>,
    fresh: Seq<char>,
) -> (Result<ListView, ListError>, Map<Seq<char>, int>) {
    match query {
        Some(t) => if token_format(t) && toks.contains_key(t) {
            serve(rows, toks, t)
        } else {
            (Err(ListError::BadRequest), toks)
        },
        None => if token_format(fresh) && !issued.contains(fresh) {
            serve(rows, toks.insert(fresh, 0), fresh)
        } else {
            (Err(ListError::Internal), toks)
        },
    }
}

/// The tokens issued once a listing request has been answered.
pub open spec fn issued_after(
    issued: Set<Seq<char>>,
    query: Option<Seq<char>>,
    fresh: Seq<char>,
) -> Set<Seq<char>> {
    if query is None && token_format(fresh) && !issued.contains(fresh) {
        issued.insert(fresh)
    } else {
        issued
    }
}

/// Serves one page for a token that the store holds.
fn serve_page(quotes: &QuoteStore, tokens: &mut TokenStore, token: String) -> (r: Result<
    ListResponse,
    ListError,
>)
    requires
        quotes.wf(),
        old(tokens).wf(),
        old(tokens)@.contains_key(token@),
    ensures
        final(tokens).wf(),
        final(tokens).issued() == old(tokens).issued(),
        (result_view(r), final(tokens)@) == serve(quotes@, old(tokens)@, token@),
{
    let ghost before = tokens@;
    assert(before.contains_key(token@));
    let p = match advance_token(tokens, token.as_str()) {
        Ok(p) => p,
        Err(_) => {
            return Err(ListError::Internal);
        },
    };
    let n = quotes.len();
    let offset: usize = if (p as u64) * (PAGE_SIZE as u64) < n as u64 {
        (p as usize) * PAGE_SIZE
    } else {
        n
    };
    assert(window(quotes@, offset as int, PROBE_LIMIT as int) == window(
        quotes@,
        PAGE_SIZE * p,
        PROBE_LIMIT as int,
    ));
    let mut rows = quotes.page(offset, PROBE_LIMIT);
    if rows.len() == 0 {
        discard_token(tokens, token.as_str());
        return Err(ListError::NoContent);
    }
    if rows.len() == PROBE_LIMIT {
        let ghost full = rows@;
        let _ = rows.pop();
        assert(quotes_view(rows@) =~= quotes_view(full).take(PAGE_SIZE as int));
        Ok(ListResponse { quotes: rows, page: p, next_token: Some(token) })
    } else {
        discard_token(tokens, token.as_str());
        Ok(ListResponse { quotes: rows, page: p, next_token: None })
    }
}

/// Answers a listing request. With a token, the token must be well formed and
/// held; without one, a new listing starts under `fresh`.
pub fn list_quotes(
    quotes: &QuoteStore,
    tokens: &mut TokenStore,
    query: Option<String>,
    fresh: String,
) -> (r: Result<ListResponse, ListError>)
    requires
        quotes.wf(),
        old(tokens).wf(),
    ensures
        final(tokens).wf(),
        (result_view(r), final(tokens)@) == list_outcome(
            quotes@,
            old(tokens)@,
            old(tokens).issued(),
            opt_view(query),
            fresh@,
        ),
        final(tokens).issued() == issued_after(old(tokens).issued(), opt_view(query), fresh@),
{
    match query {
        Some(t) => {
            if validate_token(tokens, t.as_str()).is_err() {
                return Err(ListError::BadRequest);
            }
            serve_page(quotes, tokens, t)
        },
        None => {
            let tok = match create_token(tokens, fresh) {
                Ok(tok) => tok,
                Err(_) => {
                    return Err(ListError::Internal);
                },
            };
            serve_page(quotes, tokens, tok.token)
        },
    }
}

/// Answers a listing request; a request without a token starts a new listing
/// under a random token. Which token that is, is left to chance: for every
/// value of it the outcome is the one `list_outcome` gives.
pub fn list(quotes: &QuoteStore, tokens: &mut TokenStore, query: TokenQuery) -> (r: Result<
    ListResponse,
    ListError,
>)
    requires
        quotes.wf(),
        old(tokens).wf(),
    ensures
        final(tokens).wf(),
        exists|fresh: Seq<char>|
            token_format(fresh) && (result_view(r), final(tokens)@) == #[trigger] list_outcome(
                quotes@,
                old(tokens)@,
                old(tokens).issued(),
                opt_view(query.token),
                fresh,
            ) && final(tokens).issued() == issued_after(
                old(tokens).issued(),
                opt_view(query.token),
                fresh,
            ),
{
    let query = query.token;
    let fresh = match query {
        Some(_) => String::new(),
        None => sample_token(),
    };
    let ghost q = opt_view(query);
    let ghost f = fresh@;
    let r = list_quotes(quotes, tokens, query, fresh);
    proof {
        if q is Some {
            let any = seq!['a', 'a', 'a', 'a', 'a', 'a', 'a', 'a', 'a', 'a', 'a', 'a', 'a', 'a', 'a', 'a'];
            assert(token_format(any));
            let iss = old(tokens).issued();
            assert(list_outcome(quotes@, old(tokens)@, iss, q, any) == list_outcome(
                quotes@,
                old(tokens)@,
                iss,
                q,
                f,
            ));
            assert(issued_after(iss, q, any) == issued_after(iss, q, f));
        }
    }
    r
}

/// The empty table lists nothing: no request on it succeeds, and one whose
/// token is accepted ends in `NoContent`.
pub proof fn lemma_empty_listing_has_no_content(
    toks: Map<Seq<char>, int>,
    issued: Set<Seq<char>>,
    query: Option<Seq<char>>,
    fresh: Seq<char>,
)
    ensures
        !(list_outcome(Seq::empty(), toks, issued, query, fresh).0 is Ok),
        query is None && token_format(fresh) && !issued.contains(fresh) ==> list_outcome(
            Seq::empty(),
            toks,
            issued,
            query,
            fresh,
        ).0 == Err::<ListView, ListError>(ListError::NoContent),
        query matches Some(t) && token_format(t) && toks.contains_key(t) && toks[t] < i32::MAX
            ==> list_outcome(Seq::empty(), toks, issued, query, fresh).0 == Err::<
            ListView,
            ListError,
        >(ListError::NoContent),
{
}

/// A page is empty exactly when it starts past the last row: serving page `p`
/// of `n` rows gives `NoContent` exactly when `n <= 3 * p`, and a page that is
/// served holds at least one quote.
pub proof fn lemma_no_content_iff_past_end(
    rows: Seq<QuoteView>,
    toks: Map<Seq<char>, int>,
    t: Seq<char>,
)
    requires
        toks.contains_key(t),
        0 <= toks[t] < i32::MAX,
    ensures
        serve(rows, toks, t).0 == Err::<ListView, ListError>(ListError::NoContent) <==> rows.len()
            <= PAGE_SIZE * toks[t],
        serve(rows, toks, t).0 is Ok ==> serve(rows, toks, t).0->Ok_0.quotes.len() >= 1,
{
}

/// A listing started without a token reports page 0; on a table with rows,
/// with a token never issued before, it succeeds.
pub proof fn lemma_new_listing_starts_at_zero(
    rows: Seq<QuoteView>,
    toks: Map<Seq<char>, int>,
    issued: Set<Seq<char>>,
    fresh: Seq<char>,
)
    ensures
        list_outcome(rows, toks, issued, None, fresh).0 matches Ok(v) ==> v.page == 0,
        rows.len() > 0 && token_format(fresh) && !issued.contains(fresh) ==> list_outcome(
            rows,
            toks,
            issued,
            None,
            fresh,
        ).0 is Ok,
{
}

/// Following a `next_token` reports the page after the one just served,
/// whatever happened to the table in between.
pub proof fn lemma_page_advances_by_one(
    rows: Seq<QuoteView>,
    later_rows: Seq<QuoteView>,
    toks: Map<Seq<char>, int>,
    issued: Set<Seq<char>>,
    later_issued: Set<Seq<char>>,
    query: Option<Seq<char>>,
    fresh: Seq<char>,
    later_fresh: Seq<char>,
)
    ensures
        ({
            let (first, after) = list_outcome(rows, toks, issued, query, fresh);
            (first is Ok && first->Ok_0.next_token is Some) ==> {
                let t = first->Ok_0.next_token->Some_0;
                let (second, _) = list_outcome(later_rows, after, later_issued, Some(t), later_fresh);
                second is Ok ==> second->Ok_0.page == first->Ok_0.page + 1
            }
        }),
{
    let (first, after) = list_outcome(rows, toks, issued, query, fresh);
    if first is Ok && first->Ok_0.next_token is Some {
        let t = first->Ok_0.next_token->Some_0;
        let start = match query {
            Some(_) => toks,
            None => toks.insert(fresh, 0),
        };
        assert(token_format(t));
        assert(start.contains_key(t));
        assert(after == start.insert(t, start[t] + 1));
        assert(after.contains_key(t) && after[t] == first->Ok_0.page + 1);
    }
}

/// A token that was issued and is no longer held never comes back: whatever
/// request comes next, it is not in the table afterwards and stays issued,
/// and a request that presents it is refused.
pub proof fn lemma_spent_token_stays_out(
    rows: Seq<QuoteView>,
    toks: Map<Seq<char>, int>,
    issued: Set<Seq<char>>,
    query: Option<Seq<char>>,
    fresh: Seq<char>,
    t: Seq<char>,
)
    requires
        issued.contains(t),
        !toks.contains_key(t),
    ensures
        !list_outcome(rows, toks, issued, query, fresh).1.contains_key(t),
        issued_after(issued, query, fresh).contains(t),
        list_outcome(rows, toks, issued, Some(t), fresh).0 == Err::<ListView, ListError>(
            ListError::BadRequest,
        ),
{
}

/// The pages that following `t` from the token table `toks` yields: exactly
/// `count` more responses, each a success that reports the token's current
/// page and holds at least one quote; all but the last carry `t` as their
/// `next_token`, and after the last `t` is no longer held.
pub open spec fn listing_from(
    rows: Seq<QuoteView>,
    toks: Map<Seq<char>, int>,
    t: Seq<char>,
    count: nat,
) -> bool
    decreases count,
{
    let (r, after) = list_outcome(rows, toks, Set::empty(), Some(t), Seq::empty());
    &&& count > 0
    &&& r is Ok
    &&& r->Ok_0.page == toks[t]
    &&& r->Ok_0.quotes.len() >= 1
    &&& if count == 1 {
        r->Ok_0.next_token is None && !after.contains_key(t)
    } else {
        r->Ok_0.next_token == Some(t) && listing_from(rows, after, t, (count - 1) as nat)
    }
}

/// The number of pages a table of `n` rows fills.
pub open spec fn page_count(n: int) -> int {
    (n + PAGE_SIZE - 1) / PAGE_SIZE as int
}

proof fn lemma_listing_from(rows: Seq<QuoteView>, toks: Map<Seq<char>, int>, t: Seq<char>)
    requires
        token_format(t),
        toks.contains_key(t),
        0 <= toks[t],
        PAGE_SIZE * toks[t] < rows.len(),
        rows.len() <= PAGE_SIZE * i32::MAX,
    ensures
        page_count(rows.len() as int) > toks[t],
        listing_from(rows, toks, t, (page_count(rows.len() as int) - toks[t]) as nat),
    decreases rows.len() - PAGE_SIZE * toks[t],
{
    let p = toks[t];
    let n = rows.len() as int;
    let after = toks.insert(t, p + 1);
    let w = window(rows, PAGE_SIZE * p, PROBE_LIMIT as int);
    assert(p < i32::MAX);
    if n - 3 * p >= 4 {
        assert(w.len() == PROBE_LIMIT);
        assert(after[t] == p + 1);
        lemma_listing_from(rows, after, t);
        assert(page_count(n) - p > 1) by {
            assert((n + 2) / 3 >= p + 2);
        }
        assert(((page_count(n) - p) as nat - 1) as nat == (page_count(n) - (p + 1)) as nat);
    } else {
        assert(w.len() < PROBE_LIMIT && w.len() >= 1);
        assert(page_count(n) == p + 1) by {
            assert(3 * p + 1 <= n <= 3 * p + 3);
            assert((n + 2) / 3 == p + 1);
        }
    }
}

/// A listing ends, page by page: on a fixed table of `n` rows, a new listing
/// (with a token never issued before) and the requests that follow its
/// `next_token` give exactly `ceil(n / 3)` responses, reporting pages 0, 1,
/// 2, ... in turn, the last without a `next_token` and with the token gone.
pub proof fn lemma_listing_terminates(
    rows: Seq<QuoteView>,
    toks: Map<Seq<char>, int>,
    issued: Set<Seq<char>>,
    fresh: Seq<char>,
)
    requires
        token_format(fresh),
        !issued.contains(fresh),
        rows.len() > 0,
        rows.len() <= PAGE_SIZE * i32::MAX,
    ensures
        list_outcome(rows, toks, issued, None, fresh) == list_outcome(
            rows,
            toks.insert(fresh, 0),
            Set::empty(),
            Some(fresh),
            Seq::empty(),
        ),
        listing_from(rows, toks.insert(fresh, 0), fresh, page_count(rows.len() as int) as nat),
{
    let start = toks.insert(fresh, 0);
    assert(start[fresh] == 0);
    lemma_listing_from(rows, start, fresh);
}

} // verus!
