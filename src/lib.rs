//! A small catalog of quotations with versioned edits and cursor-paged listing,
//! together with the game board and the page helpers served beside it.
mod api;
mod board;
mod html;
mod ipv4;
mod listing;
mod quotes;
mod token;

pub use api::{cite, draft, parsed_uuid, remove, reset, undo, ApiError};
pub use board::{board_text, coin_tile, dropped, lemma_board_shape, shaped, tile_count, emoji_of, team_tile, Board, BoardTile,
    PlayOutcome,
};
pub use html::{
    color_of, color_name, next_color, ornament, parse_color, parse_state, present, rendered, state_class,
    state_name, state_of, checksum_parts, decimal, parse_checksum, Color, State, CHECKSUM_TEMPLATE,
    ORNAMENT_TEMPLATE, PRESENT_TEMPLATE,
};
pub use ipv4::{add_octets, octet_of, octets_of, split_dots, split_ip, sub_octets};
pub use listing::{
    lemma_empty_listing_has_no_content, lemma_listing_terminates, lemma_new_listing_starts_at_zero,
    lemma_no_content_iff_past_end, lemma_page_advances_by_one, lemma_spent_token_stays_out, issued_after, list, list_outcome, list_quotes, listing_from, page_count, serve, ListError,
    ListResponse, ListView, TokenQuery, PAGE_SIZE, PROBE_LIMIT,
};
pub use quotes::{
    cite_quote, draft_quote, edited, find, has_id, inserted, lemma_cite_after_draft,
    lemma_edit_advances, lemma_edit_is_found, lemma_remove_forgets, remove_quote, removed, replaced, reset_quotes,
    undo_quote, window, Quote, QuoteData, QuoteStore, QuoteView, StoreError,
};
pub use token::{
    advance_token, create_token, discard_token, generate_token, is_token_format, token_format,
    validate_token, Token, TokenError, TokenStore, TOKEN_LEN,
};
