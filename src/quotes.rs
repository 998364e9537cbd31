use vstd::prelude::*;

verus! {

/// A stored quotation.
///
/// `id` is the 128-bit value of a UUID, `created_at` counts microseconds since
/// the Unix epoch, and `version` starts at 1 and grows by one on every edit.
pub struct Quote {
    pub id: u128,
    pub author: String,
    pub quote: String,
    pub created_at: i64,
    pub version: i32,
}

/// The mathematical value of a [`Quote`].
pub struct QuoteView {
    pub id: u128,
    pub author: Seq<char>,
    pub quote: Seq<char>,
    pub created_at: int,
    pub version: int,
}

impl View for Quote {
    type V = QuoteView;

    open spec fn view(&self) -> QuoteView {
        QuoteView {
            id: self.id,
            author: self.author@,
            quote: self.quote@,
            created_at: self.created_at as int,
            version: self.version as int,
        }
    }
}

impl Quote {
    /// A field-by-field copy.
    pub fn duplicate(&self) -> (r: Quote)
        ensures
            r@ == self@,
    {
        Quote {
            id: self.id,
            author: self.author.clone(),
            quote: self.quote.clone(),
            created_at: self.created_at,
            version: self.version,
        }
    }
}

/// An edit request: each field that is `None` keeps its stored value.
pub struct QuoteData {
    pub author: Option<String>,
    pub quote: Option<String>,
}

/// What the store reports when an operation cannot be carried out.
#[derive(Debug, Clone, Copy, PartialEq, Eq, Structural)]
pub enum StoreError {
    /// No quote has the requested id.
    NotFound,
    /// The operation would break the store's integrity (a reused id, a version
    /// counter at its limit).
    Internal,
}

/// The listing order: `a` may stand before `b` when it has the higher version,
/// or the same version and a creation time no later than `b`'s.
pub open spec fn precedes(a: QuoteView, b: QuoteView) -> bool {
    a.version > b.version || (a.version == b.version && a.created_at <= b.created_at)
}

pub open spec fn is_sorted(s: Seq<QuoteView>) -> bool {
    forall|i: int, j: int| 0 <= i < j < s.len() ==> #[trigger] precedes(s[i], s[j])
}

pub open spec fn unique_ids(s: Seq<QuoteView>) -> bool {
    forall|i: int, j: int| 0 <= i < s.len() && 0 <= j < s.len() && s[i].id == s[j].id ==> i == j
}

pub open spec fn has_id(s: Seq<QuoteView>, id: u128) -> bool {
    exists|i: int| 0 <= i < s.len() && s[i].id == id
}

/// The stored quote with the given id, if any.
pub open spec fn find(s: Seq<QuoteView>, id: u128) -> Option<QuoteView> {
    if has_id(s, id) {
        Some(s[choose|i: int| 0 <= i < s.len() && s[i].id == id])
    } else {
        None
    }
}

/// `after` is `before` with `q` inserted at some position.
pub open spec fn inserted(before: Seq<QuoteView>, after: Seq<QuoteView>, q: QuoteView) -> bool {
    exists|k: int| 0 <= k <= before.len() && after == before.insert(k, q)
}

/// `after` is `before` without the row that holds `id`.
pub open spec fn removed(before: Seq<QuoteView>, after: Seq<QuoteView>, id: u128) -> bool {
    exists|k: int| 0 <= k < before.len() && before[k].id == id && after == before.remove(k)
}

/// The later of two instants: an edit never moves a quote back in time.
pub open spec fn later_of(a: int, b: int) -> int {
    if a >= b {
        a
    } else {
        b
    }
}

/// The quote that an edit of `prev` with `author` and `quote` at `now` yields.
pub open spec fn edited(
    prev: QuoteView,
    author: Option<Seq<char>>,
    quote: Option<Seq<char>>,
    now: int,
) -> QuoteView {
    QuoteView {
        id: prev.id,
        author: match author {
            Some(a) => a,
            None => prev.author,
        },
        quote: match quote {
            Some(t) => t,
            None => prev.quote,
        },
        created_at: later_of(now, prev.created_at),
        version: prev.version + 1,
    }
}

pub open spec fn opt_view(o: Option<String>) -> Option<Seq<char>> {
    match o {
        Some(s) => Some(s@),
        None => None,
    }
}

pub open spec fn quotes_view(v: Seq<Quote>) -> Seq<QuoteView> {
    v.map_values(|q: Quote| q@)
}

/// `after` is `before` with the row `prev` taken out and `q` put in at some
/// position.
pub open spec fn replaced(
    before: Seq<QuoteView>,
    after: Seq<QuoteView>,
    prev: QuoteView,
    q: QuoteView,
) -> bool {
    exists|k: int, j: int|
        0 <= k < before.len() && before[k] == prev && 0 <= j < before.len() && after == before.remove(
            k,
        ).insert(j, q)
}

/// The rows from `offset` on, at most `limit` of them.
pub open spec fn window(s: Seq<QuoteView>, offset: int, limit: int) -> Seq<QuoteView> {
    let lo = if offset <= 0 { 0 } else if offset < s.len() { offset } else { s.len() as int };
    let hi = if limit <= 0 { lo } else if limit <= s.len() - lo { lo + limit } else { s.len() as int };
    s.subrange(lo, hi)
}

pub proof fn lemma_find_at(s: Seq<QuoteView>, k: int)
    requires
        unique_ids(s),
        0 <= k < s.len(),
    ensures
        find(s, s[k].id) == Some(s[k]),
{
    assert(has_id(s, s[k].id));
}

pub proof fn lemma_find_absent(s: Seq<QuoteView>, id: u128)
    requires
        forall|i: int| 0 <= i < s.len() ==> s[i].id != id,
    ensures
        find(s, id) is None,
{
}

/// Drafting then citing: once a quote has been drafted into a table, looking
/// its id up in the new table yields exactly the drafted quote.
pub proof fn lemma_cite_after_draft(before: Seq<QuoteView>, after: Seq<QuoteView>, q: QuoteView)
    requires
        unique_ids(before),
        !has_id(before, q.id),
        inserted(before, after, q),
    ensures
        unique_ids(after),
        find(after, q.id) == Some(q),
{
    let k = choose|k: int| 0 <= k <= before.len() && after == before.insert(k, q);
    assert forall|i: int, j: int|
        0 <= i < after.len() && 0 <= j < after.len() && after[i].id == after[j].id implies i == j by {
        if i != k && j != k {
            let a = if i < k { i } else { i - 1 };
            let b = if j < k { j } else { j - 1 };
            assert(before[a].id == before[b].id);
        } else if i == k && j != k {
            let b = if j < k { j } else { j - 1 };
            assert(before[b].id == q.id);
        } else if j == k && i != k {
            let a = if i < k { i } else { i - 1 };
            assert(before[a].id == q.id);
        }
    }
    assert(after[k] == q);
    lemma_find_at(after, k);
}

/// Removing a quote forgets exactly that quote: its id is no longer found, and
/// every other id is found as before.
pub proof fn lemma_remove_forgets(before: Seq<QuoteView>, after: Seq<QuoteView>, id: u128)
    requires
        unique_ids(before),
        removed(before, after, id),
    ensures
        unique_ids(after),
        find(after, id) is None,
        forall|other: u128| other != id ==> #[trigger] find(after, other) == find(before, other),
{
    let k = choose|k: int| 0 <= k < before.len() && before[k].id == id && after == before.remove(k);
    assert forall|i: int, j: int|
        0 <= i < after.len() && 0 <= j < after.len() && after[i].id == after[j].id implies i == j by {
        let a = if i < k { i } else { i + 1 };
        let b = if j < k { j } else { j + 1 };
        assert(before[a].id == before[b].id);
    }
    assert forall|i: int| 0 <= i < after.len() implies after[i].id != id by {
        let a = if i < k { i } else { i + 1 };
        assert(after[i] == before[a]);
    }
    lemma_find_absent(after, id);
    assert forall|other: u128| other != id implies #[trigger] find(after, other) == find(
        before,
        other,
    ) by {
        if has_id(before, other) {
            let a = choose|a: int| 0 <= a < before.len() && before[a].id == other;
            lemma_find_at(before, a);
            let i = if a < k { a } else { a - 1 };
            assert(after[i] == before[a]);
            lemma_find_at(after, i);
        } else {
            assert forall|i: int| 0 <= i < after.len() implies after[i].id != other by {
                let a = if i < k { i } else { i + 1 };
                assert(after[i] == before[a]);
            }
            lemma_find_absent(after, other);
        }
    }
}

/// Each edit raises the version by exactly one and never moves the creation
/// time backwards; the id stays and omitted fields keep their values.
pub proof fn lemma_edit_advances(
    prev: QuoteView,
    author: Option<Seq<char>>,
    quote: Option<Seq<char>>,
    now: int,
)
    ensures
        edited(prev, author, quote, now).version == prev.version + 1,
        edited(prev, author, quote, now).created_at >= prev.created_at,
        edited(prev, author, quote, now).created_at >= now,
        edited(prev, author, quote, now).id == prev.id,
        author is None ==> edited(prev, author, quote, now).author == prev.author,
        quote is None ==> edited(prev, author, quote, now).quote == prev.quote,
{
}

/// After an edit the table holds the edited quote under the same id, one
/// version above the quote it replaced.
pub proof fn lemma_edit_is_found(
    before: Seq<QuoteView>,
    after: Seq<QuoteView>,
    prev: QuoteView,
    author: Option<Seq<char>>,
    quote: Option<Seq<char>>,
    now: int,
)
    requires
        unique_ids(before),
        replaced(before, after, prev, edited(prev, author, quote, now)),
    ensures
        unique_ids(after),
        find(after, prev.id) == Some(edited(prev, author, quote, now)),
        find(after, prev.id)->Some_0.version == prev.version + 1,
{
    let q = edited(prev, author, quote, now);
    let (k, j) = choose|k: int, j: int|
        0 <= k < before.len() && before[k] == prev && 0 <= j < before.len() && after == before.remove(
            k,
        ).insert(j, q);
    let mid = before.remove(k);
    assert forall|i: int| 0 <= i < mid.len() implies mid[i].id != q.id by {
        let a = if i < k { i } else { i + 1 };
        assert(mid[i] == before[a]);
    }
    assert forall|a: int, b: int|
        0 <= a < mid.len() && 0 <= b < mid.len() && mid[a].id == mid[b].id implies a == b by {
        let x = if a < k { a } else { a + 1 };
        let y = if b < k { b } else { b + 1 };
        assert(mid[a] == before[x] && mid[b] == before[y]);
    }
    assert(!has_id(mid, q.id));
    lemma_cite_after_draft(mid, after, q);
}

/// The quote table, kept in listing order, with every id it ever issued.
pub struct QuoteStore {
    rows: Vec<Quote>,
    issued_ids: Vec<u128>,
}

impl View for QuoteStore {
    type V = Seq<QuoteView>;

    closed spec fn view(&self) -> Seq<QuoteView> {
        quotes_view(self.rows@)
    }
}

impl QuoteStore {
    /// Every id the store has ever handed out, held now or not. An id in
    /// it is never issued again.
    pub closed spec fn issued(&self) -> Set<u128> {
        self.issued_ids@.to_set()
    }

    /// Ids are unique and issued, versions positive, and rows stand in
    /// listing order.
    pub open spec fn wf(&self) -> bool {
        &&& unique_ids(self@)
        &&& is_sorted(self@)
        &&& forall|i: int| 0 <= i < self@.len() ==> #[trigger] self@[i].version >= 1
        &&& forall|i: int| 0 <= i < self@.len() ==> self.issued().contains(#[trigger] self@[i].id)
    }

    pub fn new() -> (r: QuoteStore)
        ensures
            r.wf(),
            r@ == Seq::<QuoteView>::empty(),
            r.issued() == Set::<u128>::empty(),
    {
        let r = QuoteStore { rows: Vec::new(), issued_ids: Vec::new() };
        assert(r@ =~= Seq::<QuoteView>::empty());
        assert(r.issued() =~= Set::<u128>::empty());
        r
    }

    /// Removes every quote; the ids stay issued.
    pub fn reset(&mut self)
        requires
            old(self).wf(),
        ensures
            final(self).wf(),
            final(self)@ == Seq::<QuoteView>::empty(),
            final(self).issued() == old(self).issued(),
    {
        self.rows = Vec::new();
        assert(self@ =~= Seq::<QuoteView>::empty());
    }

    fn was_issued(&self, id: u128) -> (r: bool)
        ensures
            r == self.issued().contains(id),
    {
        let mut k: usize = 0;
        while k < self.issued_ids.len()
            invariant
                k <= self.issued_ids.len(),
                forall|i: int| 0 <= i < k ==> self.issued_ids@[i] != id,
            decreases self.issued_ids.len() - k,
        {
            if self.issued_ids[k] == id {
                assert(self.issued_ids@.contains(id));
                return true;
            }
            k = k + 1;
        }
        false
    }

    pub fn len(&self) -> (r: usize)
        ensures
            r == self@.len(),
    {
        self.rows.len()
    }

    fn index_of(&self, id: u128) -> (r: Option<usize>)
        ensures
            match r {
                Some(k) => k < self@.len() && self@[k as int].id == id,
                None => forall|i: int| 0 <= i < self@.len() ==> self@[i].id != id,
            },
    {
        let mut k: usize = 0;
        while k < self.rows.len()
            invariant
                k <= self.rows.len(),
                forall|i: int| 0 <= i < k ==> self@[i].id != id,
            decreases self.rows.len() - k,
        {
            if self.rows[k].id == id {
                return Some(k);
            }
            k = k + 1;
        }
        None
    }

    /// The position at which `q` enters the listing order: after every row
    /// that may precede it.
    fn slot_for(&self, q: &Quote) -> (r: usize)
        requires
            self.wf(),
        ensures
            r <= self@.len(),
            forall|i: int| 0 <= i < r ==> precedes(#[trigger] self@[i], q@),
            forall|j: int| r <= j < self@.len() ==> precedes(q@, #[trigger] self@[j]),
    {
        let mut k: usize = 0;
        while k < self.rows.len()
            invariant
                self.wf(),
                k <= self.rows.len(),
                forall|i: int| 0 <= i < k ==> precedes(#[trigger] self@[i], q@),
            decreases self.rows.len() - k,
        {
            let r = &self.rows[k];
            if !(r.version > q.version || (r.version == q.version && r.created_at <= q.created_at)) {
                assert forall|j: int| k <= j < self@.len() implies precedes(q@, #[trigger] self@[j]) by {
                    if j > k {
                        assert(precedes(self@[k as int], self@[j]));
                    }
                }
                return k;
            }
            k = k + 1;
        }
        k
    }

    /// Puts `q` into its place in the listing order.
    fn place(&mut self, q: Quote)
        requires
            old(self).wf(),
            !has_id(old(self)@, q.id),
            q.version >= 1,
            old(self).issued().contains(q.id),
        ensures
            final(self).wf(),
            inserted(old(self)@, final(self)@, q@),
            final(self).issued_ids == old(self).issued_ids,
    {
        let k = self.slot_for(&q);
        let ghost qv = q@;
        let ghost before = self@;
        self.rows.insert(k, q);
        assert(self@ =~= before.insert(k as int, qv));
        assert forall|i: int, j: int|
            0 <= i < self@.len() && 0 <= j < self@.len() && self@[i].id == self@[j].id implies i == j by {
            if i != k && j != k {
                let a = if i < k { i } else { i - 1 };
                let b = if j < k { j } else { j - 1 };
                assert(before[a].id == before[b].id);
            } else if i == k && j != k {
                let b = if j < k { j } else { j - 1 };
                assert(before[b].id == qv.id);
            } else if j == k && i != k {
                let a = if i < k { i } else { i - 1 };
                assert(before[a].id == qv.id);
            }
        }
        assert forall|i: int, j: int| 0 <= i < j < self@.len() implies #[trigger] precedes(self@[i], self@[j]) by {
            if j < k {
                assert(precedes(before[i], before[j]));
            } else if j == k {
                assert(precedes(before[i], qv));
            } else if i < k {
                assert(precedes(before[i], before[j - 1]));
            } else if i == k {
                assert(precedes(qv, before[j - 1]));
            } else {
                assert(precedes(before[i - 1], before[j - 1]));
            }
        }
        assert forall|i: int| 0 <= i < self@.len() implies self.issued().contains(
            #[trigger] self@[i].id,
        ) by {
            if i < k {
                assert(self@[i] == before[i]);
            } else if i > k {
                assert(self@[i] == before[i - 1]);
            }
        }
        assert(inserted(before, self@, qv));
    }

    /// Takes out the row at position `k`.
    fn take(&mut self, k: usize) -> (r: Quote)
        requires
            old(self).wf(),
            k < old(self)@.len(),
        ensures
            final(self).wf(),
            r@ == old(self)@[k as int],
            final(self)@ == old(self)@.remove(k as int),
            final(self).issued_ids == old(self).issued_ids,
    {
        let ghost before = self@;
        let r = self.rows.remove(k);
        assert(self@ =~= before.remove(k as int));
        assert forall|i: int, j: int|
            0 <= i < self@.len() && 0 <= j < self@.len() && self@[i].id == self@[j].id implies i == j by {
            let a = if i < k { i } else { i + 1 };
            let b = if j < k { j } else { j + 1 };
            assert(before[a].id == before[b].id);
        }
        assert forall|i: int, j: int| 0 <= i < j < self@.len() implies #[trigger] precedes(self@[i], self@[j]) by {
            let a = if i < k { i } else { i + 1 };
            let b = if j < k { j } else { j + 1 };
            assert(precedes(before[a], before[b]));
        }
        assert forall|i: int| 0 <= i < self@.len() implies #[trigger] self@[i].version >= 1 by {
            let a = if i < k { i } else { i + 1 };
            assert(before[a].version >= 1);
        }
        assert forall|i: int| 0 <= i < self@.len() implies self.issued().contains(
            #[trigger] self@[i].id,
        ) by {
            let a = if i < k { i } else { i + 1 };
            assert(self@[i] == before[a]);
        }
        r
    }

    /// The quote with the given id.
    pub fn cite(&self, id: u128) -> (r: Result<Quote, StoreError>)
        requires
            self.wf(),
        ensures
            match r {
                Ok(q) => find(self@, id) == Some(q@),
                Err(e) => e == StoreError::NotFound && find(self@, id) is None,
            },
    {
        match self.index_of(id) {
            Some(k) => {
                proof {
                    lemma_find_at(self@, k as int);
                }
                Ok(self.rows[k].duplicate())
            },
            None => Err(StoreError::NotFound),
        }
    }

    /// Stores a new quote under `id`, at version 1, created at `now`.
    pub fn insert(&mut self, id: u128, author: String, quote: String, now: i64) -> (r: Result<
        Quote,
        StoreError,
    >)
        requires
            old(self).wf(),
        ensures
            final(self).wf(),
            match r {
                Ok(q) => {
                    &&& !old(self).issued().contains(id)
                    &&& final(self).issued() == old(self).issued().insert(id)
                    &&& !has_id(old(self)@, id)
                    &&& q@ == (QuoteView {
                        id,
                        author: author@,
                        quote: quote@,
                        created_at: now as int,
                        version: 1,
                    })
                    &&& inserted(old(self)@, final(self)@, q@)
                },
                Err(e) => {
                    &&& e == StoreError::Internal
                    &&& old(self).issued().contains(id)
                    &&& final(self)@ == old(self)@
                    &&& final(self).issued() == old(self).issued()
                },
            },
    {
        if self.was_issued(id) {
            return Err(StoreError::Internal);
        }
        let ghost before = *self;
        assert(!has_id(self@, id)) by {
            if has_id(self@, id) {
                let j = choose|j: int| 0 <= j < self@.len() && self@[j].id == id;
                assert(self.issued().contains(self@[j].id));
            }
        }
        self.issued_ids.push(id);
        assert forall|x: u128| #[trigger] self.issued().contains(x) == before.issued().insert(
            id,
        ).contains(x) by {
            let n = before.issued_ids@.len();
            assert(self.issued_ids@[n as int] == id);
            if before.issued_ids@.contains(x) {
                let j = choose|j: int| 0 <= j < n && before.issued_ids@[j] == x;
                assert(self.issued_ids@[j] == x);
            }
            if self.issued_ids@.contains(x) {
                let j = choose|j: int| 0 <= j < n + 1 && self.issued_ids@[j] == x;
                if j < n {
                    assert(before.issued_ids@[j] == x);
                }
            }
        }
        assert(self.issued() =~= before.issued().insert(id));
        assert forall|i: int| 0 <= i < self@.len() implies self.issued().contains(
            #[trigger] self@[i].id,
        ) by {
            assert(before.issued().contains(before@[i].id));
        }
        let q = Quote { id, author, quote, created_at: now, version: 1 };
        let r = q.duplicate();
        self.place(q);
        Ok(r)
    }

    /// Deletes the quote with the given id and hands it back.
    pub fn delete(&mut self, id: u128) -> (r: Result<Quote, StoreError>)
        requires
            old(self).wf(),
        ensures
            final(self).wf(),
            final(self).issued() == old(self).issued(),
            match r {
                Ok(q) => {
                    &&& find(old(self)@, id) == Some(q@)
                    &&& removed(old(self)@, final(self)@, id)
                },
                Err(e) => {
                    &&& e == StoreError::NotFound
                    &&& find(old(self)@, id) is None
                    &&& final(self)@ == old(self)@
                },
            },
    {
        match self.index_of(id) {
            Some(k) => {
                proof {
                    lemma_find_at(self@, k as int);
                }
                let q = self.take(k);
                Ok(q)
            },
            None => Err(StoreError::NotFound),
        }
    }

    /// Edits the quote with the given id: fields left `None` keep their value,
    /// the version grows by one and the creation time moves to `now` (or stays,
    /// should `now` lie before it).
    pub fn edit(&mut self, id: u128, author: Option<String>, quote: Option<String>, now: i64) -> (r:
        Result<Quote, StoreError>)
        requires
            old(self).wf(),
        ensures
            final(self).wf(),
            final(self).issued() == old(self).issued(),
            match r {
                Ok(q) => find(old(self)@, id) matches Some(prev) && q@ == edited(
                    prev,
                    opt_view(author),
                    opt_view(quote),
                    now as int,
                ) && replaced(old(self)@, final(self)@, prev, q@),
                Err(StoreError::NotFound) => {
                    &&& find(old(self)@, id) is None
                    &&& final(self)@ == old(self)@
                },
                Err(StoreError::Internal) => {
                    &&& find(old(self)@, id) matches Some(prev) && prev.version == i32::MAX
                    &&& final(self)@ == old(self)@
                },
            },
    {
        let k = match self.index_of(id) {
            Some(k) => k,
            None => {
                return Err(StoreError::NotFound);
            },
        };
        proof {
            lemma_find_at(self@, k as int);
        }
        if self.rows[k].version == i32::MAX {
            return Err(StoreError::Internal);
        }
        let ghost before = self@;
        let ghost author_v = opt_view(author);
        let ghost quote_v = opt_view(quote);
        let prev = self.take(k);
        let ghost mid = self@;
        let author = match author {
            Some(a) => a,
            None => prev.author,
        };
        let quote = match quote {
            Some(t) => t,
            None => prev.quote,
        };
        let created_at = if now >= prev.created_at {
            now
        } else {
            prev.created_at
        };
        let q = Quote { id, author, quote, created_at, version: prev.version + 1 };
        let r = q.duplicate();
        assert(r@ == edited(before[k as int], author_v, quote_v, now as int));
        assert(!has_id(mid, id)) by {
            if has_id(mid, id) {
                let j = choose|j: int| 0 <= j < mid.len() && mid[j].id == id;
                let a = if j < k { j } else { j + 1 };
                assert(before[a].id == before[k as int].id);
            }
        }
        assert(before[k as int].version >= 1);
        self.place(q);
        proof {
            let j = choose|j: int| 0 <= j <= mid.len() && self@ == mid.insert(j, r@);
            assert(replaced(before, self@, before[k as int], r@));
            assert(find(before, id) == Some(before[k as int]));
        }
        Ok(r)
    }

    /// Up to `limit` quotes in listing order, after skipping `offset` of them.
    pub fn page(&self, offset: usize, limit: usize) -> (r: Vec<Quote>)
        requires
            self.wf(),
        ensures
            quotes_view(r@) == window(self@, offset as int, limit as int),
    {
        let n = self.rows.len();
        let lo = if offset < n { offset } else { n };
        let hi = if limit <= n - lo { lo + limit } else { n };
        let mut out: Vec<Quote> = Vec::new();
        let mut k: usize = lo;
        while k < hi
            invariant
                lo <= k <= hi <= n,
                n == self.rows.len(),
                quotes_view(out@) == self@.subrange(lo as int, k as int),
            decreases hi - k,
        {
            let ghost prev = out@;
            out.push(self.rows[k].duplicate());
            assert(quotes_view(out@) =~= quotes_view(prev).push(self@[k as int]));
            assert(self@.subrange(lo as int, k + 1) =~= self@.subrange(lo as int, k as int).push(
                self@[k as int],
            ));
            k = k + 1;
        }
        out
    }
}

/// Relies on uuid::Uuid::new_v4 and Uuid::as_u128: a random version-4 UUID as
/// its 128-bit value. Being random, nothing is promised of it.
#[verifier::external_body]
fn fresh_id() -> (r: u128) {
    uuid::Uuid::new_v4().as_u128()
}

/// Relies on chrono::Utc::now and DateTime::timestamp_micros: the wall clock in
/// microseconds since the Unix epoch. A clock reading, so nothing is promised.
#[verifier::external_body]
fn now_micros() -> (r: i64) {
    chrono::Utc::now().timestamp_micros()
}

/// Empties the table; the ids it issued are never issued again.
pub fn reset_quotes(store: &mut QuoteStore)
    requires
        old(store).wf(),
    ensures
        final(store).wf(),
        final(store)@ == Seq::<QuoteView>::empty(),
        final(store).issued() == old(store).issued(),
{
    store.reset()
}

/// The quote with the given id, or `NotFound`.
pub fn cite_quote(store: &QuoteStore, id: u128) -> (r: Result<Quote, StoreError>)
    requires
        store.wf(),
    ensures
        match r {
            Ok(q) => find(store@, id) == Some(q@),
            Err(e) => e == StoreError::NotFound && find(store@, id) is None,
        },
{
    store.cite(id)
}

/// Deletes the quote with the given id and hands it back, or reports
/// `NotFound` and leaves the table as it was.
pub fn remove_quote(store: &mut QuoteStore, id: u128) -> (r: Result<Quote, StoreError>)
    requires
        old(store).wf(),
    ensures
        final(store).wf(),
        final(store).issued() == old(store).issued(),
        match r {
            Ok(q) => find(old(store)@, id) == Some(q@) && removed(old(store)@, final(store)@, id),
            Err(e) => {
                &&& e == StoreError::NotFound
                &&& find(old(store)@, id) is None
                &&& final(store)@ == old(store)@
            },
        },
{
    store.delete(id)
}

/// Edits the quote with the given id at the current time: omitted fields keep
/// their stored value, the version grows by one.
pub fn undo_quote(
    store: &mut QuoteStore,
    id: u128,
    author: Option<String>,
    quote: Option<String>,
) -> (r: Result<Quote, StoreError>)
    requires
        old(store).wf(),
    ensures
        final(store).wf(),
        final(store).issued() == old(store).issued(),
        match r {
            Ok(q) => find(old(store)@, id) matches Some(prev) && (exists|now: i64|
                q@ == edited(prev, opt_view(author), opt_view(quote), now as int)) && replaced(
                old(store)@,
                final(store)@,
                prev,
                q@,
            ),
            Err(StoreError::NotFound) => {
                &&& find(old(store)@, id) is None
                &&& final(store)@ == old(store)@
            },
            Err(StoreError::Internal) => {
                &&& find(old(store)@, id) matches Some(prev) && prev.version == i32::MAX
                &&& final(store)@ == old(store)@
            },
        },
{
    let now = now_micros();
    store.edit(id, author, quote, now)
}

/// Drafts a new quote under a fresh random id at the current time, at
/// version 1. Fails with `Internal`, changing nothing, should the random id
/// be one the store has already issued; on a store that never issued an id
/// it succeeds.
pub fn draft_quote(store: &mut QuoteStore, author: String, quote: String) -> (r: Result<
    Quote,
    StoreError,
>)
    requires
        old(store).wf(),
    ensures
        final(store).wf(),
        match r {
            Ok(q) => {
                &&& q.author@ == author@
                &&& q.quote@ == quote@
                &&& q.version == 1
                &&& !old(store).issued().contains(q.id)
                &&& final(store).issued() == old(store).issued().insert(q.id)
                &&& !has_id(old(store)@, q.id)
                &&& inserted(old(store)@, final(store)@, q@)
            },
            Err(e) => {
                &&& e == StoreError::Internal
                &&& final(store)@ == old(store)@
                &&& final(store).issued() == old(store).issued()
                &&& exists|id: u128| #[trigger] old(store).issued().contains(id)
            },
        },
{
    let id = fresh_id();
    let now = now_micros();
    store.insert(id, author, quote, now)
}

} // verus!
