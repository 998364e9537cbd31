use vstd::prelude::*;
use vstd::string::StringExecFns;
use vstd::string::StrSliceExecFns;

verus! {

/// The length of every pagination token.
pub const TOKEN_LEN: usize = 16;

pub open spec fn is_alnum(c: char) -> bool {
    ('0' <= c && c <= '9') || ('a' <= c && c <= 'z') || ('A' <= c && c <= 'Z')
}

/// Exactly sixteen ASCII letters or digits.
pub open spec fn token_format(s: Seq<char>) -> bool {
    s.len() == TOKEN_LEN && forall|i: int| 0 <= i < s.len() ==> #[trigger] is_alnum(s[i])
}

/// Tells whether `s` has the shape of a token; no store is consulted.
pub fn is_token_format(s: &str) -> (r: bool)
    ensures
        r == token_format(s@),
{
    let n = s.unicode_len();
    if n != TOKEN_LEN {
        return false;
    }
    let mut i: usize = 0;
    while i < n
        invariant
            n == s@.len(),
            i <= n,
            forall|j: int| 0 <= j < i ==> #[trigger] is_alnum(s@[j]),
        decreases n - i,
    {
        let c = s.get_char(i);
        if !(('0' <= c && c <= '9') || ('a' <= c && c <= 'z') || ('A' <= c && c <= 'Z')) {
            assert(!is_alnum(s@[i as int]));
            return false;
        }
        i = i + 1;
    }
    true
}

/// A pagination cursor and the page that its next use will serve.
pub struct Token {
    pub token: String,
    pub page: i32,
}

/// Why a token operation was refused.
#[derive(Debug, Clone, Copy, PartialEq, Eq, Structural)]
pub enum TokenError {
    /// Malformed, or not held by the store.
    Invalid,
    /// A new token that is malformed or already held.
    Taken,
    /// The page counter is at its limit.
    Exhausted,
}

/// The live pagination tokens, with every token ever issued.
pub struct TokenStore {
    entries: Vec<Token>,
    pages: Ghost<Map<Seq<char>, int>>,
    issued_tokens: Vec<String>,
}

impl View for TokenStore {
    type V = Map<Seq<char>, int>;

    closed spec fn view(&self) -> Map<Seq<char>, int> {
        self.pages@
    }
}

impl TokenStore {
    /// Every token the store has ever handed out, held now or not. A token
    /// in it is never issued again.
    pub closed spec fn issued(&self) -> Set<Seq<char>> {
        Set::new(
            |t: Seq<char>|
                exists|i: int|
                    0 <= i < self.issued_tokens@.len() && #[trigger] self.issued_tokens@[i]@ == t,
        )
    }

    /// Every held token is well formed, issued, and has a page in range.
    pub open spec fn wf(&self) -> bool {
        &&& self.inv()
        &&& forall|t: Seq<char>| #[trigger] self@.contains_key(t) ==> token_format(t) && 0
            <= self@[t] <= i32::MAX
        &&& forall|t: Seq<char>| #[trigger] self@.contains_key(t) ==> self.issued().contains(t)
    }

    fn was_issued(&self, t: &String) -> (r: bool)
        ensures
            r == self.issued().contains(t@),
    {
        let mut k: usize = 0;
        while k < self.issued_tokens.len()
            invariant
                k <= self.issued_tokens.len(),
                forall|i: int| 0 <= i < k ==> self.issued_tokens@[i]@ != t@,
            decreases self.issued_tokens.len() - k,
        {
            if self.issued_tokens[k] == *t {
                return true;
            }
            k = k + 1;
        }
        false
    }

    pub closed spec fn inv(&self) -> bool {
        &&& forall|i: int, j: int|
            0 <= i < self.entries@.len() && 0 <= j < self.entries@.len() && self.entries@[i].token@
                == self.entries@[j].token@ ==> i == j
        &&& forall|i: int|
            0 <= i < self.entries@.len() ==> self.pages@.contains_key(
                #[trigger] self.entries@[i].token@,
            ) && self.pages@[self.entries@[i].token@] == self.entries@[i].page as int
        &&& forall|t: Seq<char>| #[trigger]
            self.pages@.contains_key(t) ==> exists|i: int|
                0 <= i < self.entries@.len() && #[trigger] self.entries@[i].token@ == t
        &&& forall|t: Seq<char>| #[trigger]
            self.pages@.contains_key(t) ==> token_format(t) && 0 <= self.pages@[t] <= i32::MAX
    }

    pub fn new() -> (r: TokenStore)
        ensures
            r.wf(),
            r@ == Map::<Seq<char>, int>::empty(),
            r.issued() == Set::<Seq<char>>::empty(),
    {
        let r = TokenStore { entries: Vec::new(), pages: Ghost(Map::empty()), issued_tokens: Vec::new() };
        assert(r.issued() =~= Set::<Seq<char>>::empty());
        r
    }

    fn index_of(&self, t: &str) -> (r: Option<usize>)
        requires
            self.inv(),
        ensures
            match r {
                Some(k) => k < self.entries@.len() && self.entries@[k as int].token@ == t@,
                None => !self@.contains_key(t@),
            },
    {
        let key = String::from_str(t);
        let mut k: usize = 0;
        while k < self.entries.len()
            invariant
                self.inv(),
                key@ == t@,
                k <= self.entries.len(),
                forall|i: int| 0 <= i < k ==> self.entries@[i].token@ != t@,
            decreases self.entries.len() - k,
        {
            if self.entries[k].token == key {
                return Some(k);
            }
            k = k + 1;
        }
        None
    }
}

/// Adds `fresh` as a new token at page 0, unless it is malformed or was
/// issued before.
pub fn create_token(store: &mut TokenStore, fresh: String) -> (r: Result<Token, TokenError>)
    requires
        old(store).wf(),
    ensures
        final(store).wf(),
        match r {
            Ok(tok) => {
                &&& token_format(fresh@)
                &&& !old(store).issued().contains(fresh@)
                &&& !old(store)@.contains_key(fresh@)
                &&& tok.token@ == fresh@
                &&& tok.page == 0
                &&& final(store)@ == old(store)@.insert(fresh@, 0)
                &&& final(store).issued() == old(store).issued().insert(fresh@)
            },
            Err(e) => {
                &&& e == TokenError::Taken
                &&& !token_format(fresh@) || old(store).issued().contains(fresh@)
                &&& final(store)@ == old(store)@
                &&& final(store).issued() == old(store).issued()
            },
        },
{
    if !is_token_format(fresh.as_str()) {
        return Err(TokenError::Taken);
    }
    if store.was_issued(&fresh) {
        return Err(TokenError::Taken);
    }
    let ghost before = *store;
    assert(!before@.contains_key(fresh@));
    store.issued_tokens.push(fresh.clone());
    proof {
        let n = before.issued_tokens@.len();
        assert(store.issued_tokens@[n as int]@ == fresh@);
        assert forall|x: Seq<char>| #[trigger] store.issued().contains(x) == before.issued().insert(
            fresh@,
        ).contains(x) by {
            if before.issued().contains(x) {
                let j = choose|j: int|
                    0 <= j < n && #[trigger] before.issued_tokens@[j]@ == x;
                assert(store.issued_tokens@[j]@ == x);
            }
            if store.issued().contains(x) {
                let j = choose|j: int|
                    0 <= j < n + 1 && #[trigger] store.issued_tokens@[j]@ == x;
                if j < n {
                    assert(before.issued_tokens@[j]@ == x);
                }
            }
        }
        assert(store.issued() =~= before.issued().insert(fresh@));
    }
    let r = Token { token: fresh.clone(), page: 0 };
    store.entries.push(Token { token: fresh, page: 0 });
    store.pages = Ghost(store.pages@.insert(r.token@, 0));
    proof {
        let n = before.entries@.len();
        assert(store.entries@[n as int].token@ == r.token@);
        assert forall|t: Seq<char>| #[trigger] store.pages@.contains_key(t) implies exists|i: int|
            0 <= i < store.entries@.len() && #[trigger] store.entries@[i].token@ == t by {
            if t != r.token@ {
                let i = choose|i: int|
                    0 <= i < before.entries@.len() && #[trigger] before.entries@[i].token@ == t;
                assert(store.entries@[i].token@ == t);
            }
        }
        assert forall|i: int, j: int|
            0 <= i < store.entries@.len() && 0 <= j < store.entries@.len()
                && store.entries@[i].token@ == store.entries@[j].token@ implies i == j by {
            if i < n && j == n {
                assert(before.pages@.contains_key(before.entries@[i].token@));
            }
            if j < n && i == n {
                assert(before.pages@.contains_key(before.entries@[j].token@));
            }
        }
        assert forall|i: int| 0 <= i < store.entries@.len() implies store.pages@.contains_key(
            #[trigger] store.entries@[i].token@,
        ) && store.pages@[store.entries@[i].token@] == store.entries@[i].page as int by {
            if i < n {
                assert(before.pages@.contains_key(before.entries@[i].token@));
            }
        }
    }
    Ok(r)
}

/// Succeeds exactly when `token` is well formed and held by the store.
pub fn validate_token(store: &TokenStore, token: &str) -> (r: Result<(), TokenError>)
    requires
        store.wf(),
    ensures
        r is Ok <==> token_format(token@) && store@.contains_key(token@),
        r matches Err(e) ==> e == TokenError::Invalid,
{
    if !is_token_format(token) {
        return Err(TokenError::Invalid);
    }
    match store.index_of(token) {
        Some(_) => Ok(()),
        None => Err(TokenError::Invalid),
    }
}

/// Hands back the token's current page and moves the token to the next one.
pub fn advance_token(store: &mut TokenStore, token: &str) -> (r: Result<i32, TokenError>)
    requires
        old(store).wf(),
    ensures
        final(store).wf(),
        final(store).issued() == old(store).issued(),
        match r {
            Ok(p) => {
                &&& old(store)@.contains_key(token@)
                &&& p as int == old(store)@[token@]
                &&& p < i32::MAX
                &&& final(store)@ == old(store)@.insert(token@, p + 1)
            },
            Err(TokenError::Invalid) => {
                &&& !old(store)@.contains_key(token@)
                &&& final(store)@ == old(store)@
            },
            Err(TokenError::Exhausted) => {
                &&& old(store)@.contains_key(token@)
                &&& old(store)@[token@] == i32::MAX
                &&& final(store)@ == old(store)@
            },
            Err(TokenError::Taken) => false,
        },
{
    let k = match store.index_of(token) {
        Some(k) => k,
        None => {
            return Err(TokenError::Invalid);
        },
    };
    let p = store.entries[k].page;
    if p == i32::MAX {
        return Err(TokenError::Exhausted);
    }
    let ghost before = *store;
    let ghost key = before.entries@[k as int].token@;
    let tok = store.entries.remove(k);
    store.entries.insert(k, Token { token: tok.token, page: p + 1 });
    store.pages = Ghost(store.pages@.insert(key, p + 1));
    proof {
        assert forall|i: int| 0 <= i < store.entries@.len() implies #[trigger] store.entries@[i].token@
            == before.entries@[i].token@ by {
            if i != k {
                assert(store.entries@[i] == before.entries@[i]);
            }
        }
        assert forall|t: Seq<char>| #[trigger] store.pages@.contains_key(t) implies exists|i: int|
            0 <= i < store.entries@.len() && #[trigger] store.entries@[i].token@ == t by {
            let i = choose|i: int|
                0 <= i < before.entries@.len() && #[trigger] before.entries@[i].token@ == t;
            assert(store.entries@[i].token@ == t);
        }
        assert forall|i: int| 0 <= i < store.entries@.len() implies store.pages@.contains_key(
            #[trigger] store.entries@[i].token@,
        ) && store.pages@[store.entries@[i].token@] == store.entries@[i].page as int by {
            assert(store.entries@[i].token@ == before.entries@[i].token@);
            if i != k {
                assert(before.entries@[i].token@ != key);
            }
        }
        assert(store.issued() == before.issued());
        assert forall|t: Seq<char>| #[trigger] store@.contains_key(t) implies store.issued().contains(
            t,
        ) by {
            assert(before@.contains_key(t));
        }
    }
    Ok(p)
}

/// Forgets `token`; forgetting a token that is not held changes nothing.
pub fn discard_token(store: &mut TokenStore, token: &str)
    requires
        old(store).wf(),
    ensures
        final(store).wf(),
        final(store).issued() == old(store).issued(),
        final(store)@ == old(store)@.remove(token@),
{
    match store.index_of(token) {
        Some(k) => {
            let ghost before = *store;
            let ghost key = token@;
            let _ = store.entries.remove(k);
            store.pages = Ghost(store.pages@.remove(key));
            proof {
                assert(store.issued() == before.issued());
                assert forall|t: Seq<char>| #[trigger] store@.contains_key(t) implies store.issued().contains(
                    t,
                ) by {
                    assert(before@.contains_key(t));
                }
                let n = before.entries@.len();
                assert forall|i: int| 0 <= i < store.entries@.len() implies #[trigger] store.entries@[i]
                    == before.entries@[if i < k { i } else { i + 1 }] by {}
                assert forall|t: Seq<char>| #[trigger] store.pages@.contains_key(t) implies exists|
                    i: int,
                | 0 <= i < store.entries@.len() && #[trigger] store.entries@[i].token@ == t by {
                    let i = choose|i: int|
                        0 <= i < before.entries@.len() && #[trigger] before.entries@[i].token@ == t;
                    assert(i != k);
                    let j = if i < k { i } else { i - 1 };
                    assert(store.entries@[j] == before.entries@[i]);
                }
                assert forall|i: int, j: int|
                    0 <= i < store.entries@.len() && 0 <= j < store.entries@.len()
                        && store.entries@[i].token@ == store.entries@[j].token@ implies i == j by {
                    let a = if i < k { i } else { i + 1 };
                    let b = if j < k { j } else { j + 1 };
                    assert(store.entries@[i] == before.entries@[a]);
                    assert(store.entries@[j] == before.entries@[b]);
                }
                assert forall|i: int| 0 <= i < store.entries@.len() implies store.pages@.contains_key(
                    #[trigger] store.entries@[i].token@,
                ) && store.pages@[store.entries@[i].token@] == store.entries@[i].page as int by {
                    let a = if i < k { i } else { i + 1 };
                    assert(store.entries@[i] == before.entries@[a]);
                    assert(a != k);
                }
            }
        },
        None => {
            assert(store@ =~= store@.remove(token@));
        },
    }
}

/// Relies on rand's `Alphanumeric` distribution (`DistString::sample_string`
/// with the thread-local generator): sixteen characters, each drawn from the
/// ASCII letters and digits.
#[verifier::external_body]
pub(crate) fn sample_token() -> (r: String)
    ensures
        token_format(r@),
{
    rand::distributions::DistString::sample_string(
        &rand::distributions::Alphanumeric,
        &mut rand::thread_rng(),
        TOKEN_LEN,
    )
}

/// Starts a new listing under a random token at page 0. Fails with `Taken`,
/// changing nothing, should the random token be one issued before; on a
/// store that never issued a token it succeeds.
pub fn generate_token(store: &mut TokenStore) -> (r: Result<Token, TokenError>)
    requires
        old(store).wf(),
    ensures
        final(store).wf(),
        match r {
            Ok(tok) => {
                &&& token_format(tok.token@)
                &&& !old(store).issued().contains(tok.token@)
                &&& !old(store)@.contains_key(tok.token@)
                &&& tok.page == 0
                &&& final(store)@ == old(store)@.insert(tok.token@, 0)
                &&& final(store).issued() == old(store).issued().insert(tok.token@)
            },
            Err(e) => {
                &&& e == TokenError::Taken
                &&& final(store)@ == old(store)@
                &&& final(store).issued() == old(store).issued()
                &&& exists|t: Seq<char>| #[trigger] old(store).issued().contains(t)
            },
        },
{
    let fresh = sample_token();
    create_token(store, fresh)
}

} // verus!
