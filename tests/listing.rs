use cch24::{
    advance_token, create_token, discard_token, draft_quote, generate_token, is_token_format,
    list, list_quotes, validate_token, ListError, QuoteStore, TokenError, TokenQuery, TokenStore,
};

fn store_with(n: usize) -> (QuoteStore, Vec<u128>) {
    let mut store = QuoteStore::new();
    let mut ids = Vec::new();
    for i in 0..n {
        let q = draft_quote(&mut store, format!("author {i}"), format!("quote {i}")).unwrap();
        ids.push(q.id);
    }
    (store, ids)
}

#[test]
fn token_format_is_sixteen_letters_or_digits() {
    assert!(is_token_format("abcdEFGH01234567"));
    assert!(!is_token_format("abcdEFGH0123456"));
    assert!(!is_token_format("abcdEFGH012345678"));
    assert!(!is_token_format("abcdEFGH0123456-"));
    assert!(!is_token_format("abcdEFGH012345\u{e9}7"));
    assert!(!is_token_format(""));
}

#[test]
fn generated_token_starts_at_page_zero() {
    let mut tokens = TokenStore::new();
    let t = generate_token(&mut tokens).unwrap();
    assert_eq!(t.page, 0);
    assert!(is_token_format(&t.token));
    assert!(validate_token(&tokens, &t.token).is_ok());
    assert_eq!(advance_token(&mut tokens, &t.token).unwrap(), 0);
    assert_eq!(advance_token(&mut tokens, &t.token).unwrap(), 1);
    discard_token(&mut tokens, &t.token);
    assert!(matches!(validate_token(&tokens, &t.token), Err(TokenError::Invalid)));
    assert!(matches!(advance_token(&mut tokens, &t.token), Err(TokenError::Invalid)));
    discard_token(&mut tokens, &t.token);
}

#[test]
fn create_token_refuses_taken_or_malformed() {
    let mut tokens = TokenStore::new();
    assert!(create_token(&mut tokens, "AAAAAAAAAAAAAAAA".to_string()).is_ok());
    assert!(matches!(create_token(&mut tokens, "AAAAAAAAAAAAAAAA".to_string()), Err(TokenError::Taken)));
    assert!(matches!(create_token(&mut tokens, "short".to_string()), Err(TokenError::Taken)));
}

#[test]
fn five_quotes_list_in_two_pages() {
    let (store, ids) = store_with(5);
    let mut tokens = TokenStore::new();
    let first = list(&store, &mut tokens, TokenQuery { token: None }).unwrap();
    assert_eq!(first.page, 0);
    let got: Vec<u128> = first.quotes.iter().map(|q| q.id).collect();
    assert_eq!(got, ids[0..3].to_vec());
    let next = first.next_token.clone().unwrap();
    assert!(is_token_format(&next));

    let second = list(&store, &mut tokens, TokenQuery { token: Some(next.clone()) }).unwrap();
    assert_eq!(second.page, 1);
    let got: Vec<u128> = second.quotes.iter().map(|q| q.id).collect();
    assert_eq!(got, ids[3..5].to_vec());
    assert!(second.next_token.is_none());

    assert!(matches!(list(&store, &mut tokens, TokenQuery { token: Some(next) }), Err(ListError::BadRequest)));
}

#[test]
fn two_quotes_list_in_one_page() {
    let (store, ids) = store_with(2);
    let mut tokens = TokenStore::new();
    let only = list(&store, &mut tokens, TokenQuery { token: None }).unwrap();
    assert_eq!(only.page, 0);
    let got: Vec<u128> = only.quotes.iter().map(|q| q.id).collect();
    assert_eq!(got, ids);
    assert!(only.next_token.is_none());
}

#[test]
fn empty_store_lists_no_content() {
    let store = QuoteStore::new();
    let mut tokens = TokenStore::new();
    assert!(matches!(list(&store, &mut tokens, TokenQuery { token: None }), Err(ListError::NoContent)));
    assert!(matches!(
        list_quotes(&store, &mut tokens, None, "Zz09Zz09Zz09Zz09".to_string()),
        Err(ListError::NoContent)
    ));
    assert!(validate_token(&tokens, "Zz09Zz09Zz09Zz09").is_err());
}

#[test]
fn exactly_three_quotes_fit_one_page() {
    let (store, _) = store_with(3);
    let mut tokens = TokenStore::new();
    let r = list(&store, &mut tokens, TokenQuery { token: None }).unwrap();
    assert_eq!(r.quotes.len(), 3);
    assert!(r.next_token.is_none());
}

#[test]
fn four_quotes_leave_one_for_the_second_page() {
    let (store, _) = store_with(4);
    let mut tokens = TokenStore::new();
    let r = list_quotes(&store, &mut tokens, None, "abcdefghijklmnop".to_string()).unwrap();
    assert_eq!(r.quotes.len(), 3);
    assert_eq!(r.next_token.as_deref(), Some("abcdefghijklmnop"));
    let r2 = list_quotes(&store, &mut tokens, Some("abcdefghijklmnop".to_string()), String::new()).unwrap();
    assert_eq!(r2.page, 1);
    assert_eq!(r2.quotes.len(), 1);
    assert!(r2.next_token.is_none());
}

#[test]
fn malformed_or_unknown_tokens_are_bad_requests() {
    let (store, _) = store_with(1);
    let mut tokens = TokenStore::new();
    assert!(matches!(list(&store, &mut tokens, TokenQuery { token: Some("bad".to_string()) }), Err(ListError::BadRequest)));
    assert!(matches!(
        list(&store, &mut tokens, TokenQuery { token: Some("abcdefghijklmnop".to_string()) }),
        Err(ListError::BadRequest)
    ));
    assert!(matches!(
        list(&store, &mut tokens, TokenQuery { token: Some("abcdefghijklmno!".to_string()) }),
        Err(ListError::BadRequest)
    ));
}

#[test]
fn taken_fresh_token_is_internal() {
    let (store, _) = store_with(5);
    let mut tokens = TokenStore::new();
    list_quotes(&store, &mut tokens, None, "abcdefghijklmnop".to_string()).unwrap();
    assert!(matches!(
        list_quotes(&store, &mut tokens, None, "abcdefghijklmnop".to_string()),
        Err(ListError::Internal)
    ));
}

#[test]
fn following_tokens_ends() {
    let (store, _) = store_with(10);
    let mut tokens = TokenStore::new();
    let mut r = list(&store, &mut tokens, TokenQuery { token: None }).unwrap();
    let mut pages = vec![r.page];
    let mut seen = r.quotes.len();
    while let Some(t) = r.next_token.clone() {
        r = list(&store, &mut tokens, TokenQuery { token: Some(t.clone()) }).unwrap();
        pages.push(r.page);
        seen += r.quotes.len();
        if r.next_token.is_none() {
            assert!(validate_token(&tokens, &t).is_err());
        }
    }
    assert_eq!(pages, vec![0, 1, 2, 3]);
    assert_eq!(seen, 10);
}

#[test]
fn a_spent_token_is_never_issued_again() {
    let (store, _) = store_with(2);
    let mut tokens = TokenStore::new();
    let r = list_quotes(&store, &mut tokens, None, "abcdefghijklmnop".to_string()).unwrap();
    assert!(r.next_token.is_none());
    assert!(matches!(
        list_quotes(&store, &mut tokens, None, "abcdefghijklmnop".to_string()),
        Err(ListError::Internal)
    ));
    assert!(matches!(create_token(&mut tokens, "abcdefghijklmnop".to_string()), Err(TokenError::Taken)));
    assert!(create_token(&mut tokens, "abcdefghijklmnoq".to_string()).is_ok());
}
