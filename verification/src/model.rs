//! What a token store holds and what it answers, as mathematics.

use crate::positions::positions_where;
use crate::query::{Filter, Page};
use crate::token::{signed_32, TokenView};
use vstd::prelude::*;

verus! {

/// Last-traded value of tokens that never appeared in a component balance. It lies below any
/// real threshold, so a filter on the last trade leaves such tokens out.
pub const NEVER_TRADED: i64 = i64::MIN;

/// The number of positions that a store can hand out.
pub const MAX_POSITIONS: u64 = 0x1_0000_0000;

/// The tokens of one chain, in the order of their database ids as far as these are known, and
/// when each was last traded.
#[verifier::ext_equal]
pub struct StoreView {
    pub tokens: Seq<TokenView>,
    /// Microseconds since the Unix epoch, `NEVER_TRADED` if none.
    pub last_traded: Seq<i64>,
    /// Database id of each token. A token that did not come out of a database row has none yet.
    pub ids: Seq<Option<i64>>,
}

/// How many tokens stand before the place of database id `id`: the place is directly before the
/// first token whose known id is not smaller, or at the end if there is none.
pub open spec fn place_of(ids: Seq<Option<i64>>, id: i64) -> nat
    decreases ids.len(),
{
    if ids.len() == 0 {
        0
    } else if ids[0] is Some && ids[0]->0 >= id {
        0
    } else {
        1 + place_of(ids.drop_first(), id)
    }
}

/// The known ids ascend.
pub open spec fn ascending_ids(ids: Seq<Option<i64>>) -> bool {
    forall|p: int, q: int|
        #![trigger ids[p], ids[q]]
        0 <= p < q < ids.len() && ids[p] is Some && ids[q] is Some ==> ids[p]->0 < ids[q]->0
}

impl StoreView {
    /// A store without tokens.
    pub open spec fn empty() -> StoreView {
        StoreView { tokens: Seq::empty(), last_traded: Seq::empty(), ids: Seq::empty() }
    }

    /// Every token has a last-traded value and an entry for its database id.
    pub open spec fn aligned(self) -> bool {
        &&& self.tokens.len() == self.last_traded.len()
        &&& self.tokens.len() == self.ids.len()
    }

    /// No two tokens share an address.
    pub open spec fn distinct(self) -> bool {
        forall|p: int, q: int|
            #![trigger self.tokens[p], self.tokens[q]]
            0 <= p < self.tokens.len() && 0 <= q < self.tokens.len() && self.tokens[p].address
                == self.tokens[q].address ==> p == q
    }

    /// The known database ids ascend.
    pub open spec fn ordered(self) -> bool {
        ascending_ids(self.ids)
    }

    /// Every token has a last-traded value, no two tokens share an address, and the tokens stand
    /// in the order of their database ids, as far as these are known.
    pub open spec fn wf(self) -> bool {
        &&& self.aligned()
        &&& self.distinct()
        &&& self.ordered()
    }

    /// The token at position `p` has this address.
    pub open spec fn holds(self, address: Seq<u8>, p: int) -> bool {
        0 <= p < self.tokens.len() && self.tokens[p].address == address
    }

    /// Some token has this address.
    pub open spec fn has(self, address: Seq<u8>) -> bool {
        exists|p: int| self.holds(address, p)
    }

    /// The position of the token with this address.
    pub open spec fn position(self, address: Seq<u8>) -> int {
        choose|p: int| self.holds(address, p)
    }

    /// The token with this address, when it was last traded, and its database id.
    pub open spec fn entry(self, address: Seq<u8>) -> Option<(TokenView, i64, Option<i64>)> {
        if self.has(address) {
            let p = self.position(address);
            Some((self.tokens[p], self.last_traded[p], self.ids[p]))
        } else {
            None
        }
    }

    /// The store with the token at position `p` replaced.
    pub open spec fn replace(self, p: int, token: TokenView) -> StoreView {
        StoreView { tokens: self.tokens.update(p, token), ..self }
    }

    /// The store without the token at position `p`.
    pub open spec fn without(self, p: int) -> StoreView {
        StoreView {
            tokens: self.tokens.remove(p),
            last_traded: self.last_traded.remove(p),
            ids: self.ids.remove(p),
        }
    }

    /// The store with a token more, at position `p`.
    pub open spec fn with_at(
        self,
        p: int,
        token: TokenView,
        traded: i64,
        id: Option<i64>,
    ) -> StoreView {
        StoreView {
            tokens: self.tokens.insert(p, token),
            last_traded: self.last_traded.insert(p, traded),
            ids: self.ids.insert(p, id),
        }
    }

    /// The store in which no token has database id `id`: the one that had it keeps its position.
    pub open spec fn released(self, id: i64) -> StoreView {
        StoreView {
            ids: self.ids.map_values(
                |known: Option<i64>|
                    if known == Some(id) {
                        None
                    } else {
                        known
                    },
            ),
            ..self
        }
    }

    /// The store with the token of database id `id` more, at the place of that id.
    pub open spec fn placed(self, id: i64, token: TokenView, traded: i64) -> StoreView {
        self.with_at(place_of(self.ids, id) as int, token, traded, Some(id))
    }

    /// The store once `token` was written. A token with a new address goes to the end; its
    /// database id is not known. One with a known address takes the place of the token there if
    /// `overwrite` is set, and is left out otherwise.
    pub open spec fn upsert(self, token: TokenView, overwrite: bool) -> StoreView {
        if !self.has(token.address) {
            StoreView {
                tokens: self.tokens.push(token),
                last_traded: self.last_traded.push(NEVER_TRADED),
                ids: self.ids.push(None),
            }
        } else if overwrite {
            self.replace(self.position(token.address), token)
        } else {
            self
        }
    }

    /// The store with the token at position `p` replaced by the one of database id `id`.
    pub open spec fn stamped(self, p: int, id: i64, token: TokenView) -> StoreView {
        StoreView {
            tokens: self.tokens.update(p, token),
            ids: self.ids.update(p, Some(id)),
            ..self
        }
    }

    /// The store once the token of the database row `id` was written. One with a new address goes
    /// to the place of its id. One with a known address keeps its last-traded value, and its
    /// position too if the known ids then ascend; otherwise it moves to the place of its id. The
    /// id is its own: a token that had it before has none any more.
    pub open spec fn upsert_row(self, id: i64, token: TokenView) -> StoreView {
        let free = self.released(id);
        match self.entry(token.address) {
            Some((_, traded, _)) => {
                let p = self.position(token.address);
                if free.stamped(p, id, token).ordered() {
                    free.stamped(p, id, token)
                } else {
                    free.without(p).placed(id, token, traded)
                }
            },
            None => free.placed(id, token, NEVER_TRADED),
        }
    }

    /// The store once the tokens of database rows were written, one after the other.
    pub open spec fn upsert_rows(self, rows: Seq<(i64, TokenView)>) -> StoreView
        decreases rows.len(),
    {
        if rows.len() == 0 {
            self
        } else {
            self.upsert_rows(rows.drop_last()).upsert_row(rows.last().0, rows.last().1)
        }
    }

    /// The store once `tokens` were written, one after the other.
    pub open spec fn upsert_all(self, tokens: Seq<TokenView>, overwrite: bool) -> StoreView
        decreases tokens.len(),
    {
        if tokens.len() == 0 {
            self
        } else {
            self.upsert_all(tokens.drop_last(), overwrite).upsert(tokens.last(), overwrite)
        }
    }

    /// The store once a trade at `micros` of the token at `address` was noted. An earlier trade
    /// than the last one known, or one of an unknown token, changes nothing.
    pub open spec fn traded(self, address: Seq<u8>, micros: int) -> StoreView {
        if self.has(address) && self.last_traded[self.position(address)] < micros {
            StoreView {
                last_traded: self.last_traded.update(self.position(address), micros as i64),
                ..self
            }
        } else {
            self
        }
    }

    /// The store once `trades`, each an address and a time, were noted, one after the other.
    pub open spec fn traded_all(self, trades: Seq<(Seq<u8>, int)>) -> StoreView
        decreases trades.len(),
    {
        if trades.len() == 0 {
            self
        } else {
            self.traded_all(trades.drop_last()).traded(trades.last().0, trades.last().1)
        }
    }

    /// The store once the last trade of the token at `address` was set to `micros`. One of an
    /// unknown token changes nothing.
    pub open spec fn set_traded(self, address: Seq<u8>, micros: int) -> StoreView {
        if self.has(address) {
            StoreView {
                last_traded: self.last_traded.update(self.position(address), micros as i64),
                ..self
            }
        } else {
            self
        }
    }

    /// The token at position `p` passes the address and the quality filter.
    pub open spec fn is_candidate(self, filter: Filter, p: int) -> bool {
        &&& filter.addresses matches Some(addresses) ==> addresses.contains(self.tokens[p].address)
        &&& filter.quality.admits(signed_32(self.tokens[p].quality))
    }

    /// The token at position `p` passes the filter.
    pub open spec fn selects(self, filter: Filter, p: int) -> bool {
        &&& self.is_candidate(filter, p)
        &&& filter.traded_after matches Some(threshold) ==> self.last_traded[p] > threshold
    }

    /// The positions of the tokens that pass the filter, in ascending order.
    pub open spec fn selected(self, filter: Filter) -> Seq<int> {
        positions_where(self.tokens.len(), |p: int| self.selects(filter, p))
    }

    /// The tokens at these positions.
    pub open spec fn at(self, positions: Seq<int>) -> Seq<TokenView> {
        positions.map_values(|p: int| self.tokens[p])
    }

    /// The tokens that pass the filter, in the order in which they stand.
    pub open spec fn matches(self, filter: Filter) -> Seq<TokenView> {
        self.at(self.selected(filter))
    }

    /// The page of the tokens that pass the filter.
    pub open spec fn answer(self, filter: Filter, page: Page) -> Seq<TokenView> {
        page.of(self.matches(filter))
    }
}

/// In a well-formed store the position of a known address is the one that holds it.
pub proof fn lemma_position(store: StoreView, address: Seq<u8>, p: int)
    requires
        store.wf(),
        store.holds(address, p),
    ensures
        store.has(address),
        store.position(address) == p,
{
}

/// Writing a token keeps a store well-formed.
pub proof fn lemma_upsert_wf(store: StoreView, token: TokenView, overwrite: bool)
    requires
        store.wf(),
    ensures
        store.upsert(token, overwrite).wf(),
{
    let next = store.upsert(token, overwrite);
    if store.has(token.address) {
        lemma_position(store, token.address, store.position(token.address));
    } else {
        assert forall|p: int, q: int|
            #![trigger next.tokens[p], next.tokens[q]]
            0 <= p < next.tokens.len() && 0 <= q < next.tokens.len() && next.tokens[p].address
                == next.tokens[q].address implies p == q by {
            if p < store.tokens.len() {
                assert(!store.holds(token.address, p));
                assert(next.tokens[p] == store.tokens[p]);
            }
            if q < store.tokens.len() {
                assert(!store.holds(token.address, q));
                assert(next.tokens[q] == store.tokens[q]);
            }
        }
    }
}

/// Writing tokens keeps a store well-formed and never makes it shorter.
pub proof fn lemma_upsert_all_wf(store: StoreView, tokens: Seq<TokenView>, overwrite: bool)
    requires
        store.wf(),
    ensures
        store.upsert_all(tokens, overwrite).wf(),
        store.tokens.len() <= store.upsert_all(tokens, overwrite).tokens.len() <= store.tokens.len()
            + tokens.len(),
    decreases tokens.len(),
{
    if tokens.len() > 0 {
        lemma_upsert_all_wf(store, tokens.drop_last(), overwrite);
        lemma_upsert_wf(
            store.upsert_all(tokens.drop_last(), overwrite),
            tokens.last(),
            overwrite,
        );
    }
}

/// Noting trades keeps a store well-formed and its tokens as they are.
pub proof fn lemma_traded_all_wf(store: StoreView, trades: Seq<(Seq<u8>, int)>)
    requires
        store.wf(),
    ensures
        store.traded_all(trades).wf(),
        store.traded_all(trades).tokens == store.tokens,
    decreases trades.len(),
{
    if trades.len() > 0 {
        lemma_traded_all_wf(store, trades.drop_last());
    }
}

/// In a well-formed store the entry of an address is what stands at the position that holds it.
pub proof fn lemma_entry(store: StoreView, address: Seq<u8>, p: int)
    requires
        store.distinct(),
        store.holds(address, p),
    ensures
        store.has(address),
        store.position(address) == p,
        store.entry(address) == Some((store.tokens[p], store.last_traded[p], store.ids[p])),
{
    assert(store.holds(address, store.position(address)));
}

/// `k` is directly before the first token whose known id is not smaller than `id`.
pub open spec fn is_place(ids: Seq<Option<i64>>, id: i64, k: int) -> bool {
    &&& 0 <= k <= ids.len()
    &&& k < ids.len() ==> ids[k] is Some && ids[k]->0 >= id
    &&& forall|q: int| #![trigger ids[q]] 0 <= q < k && ids[q] is Some ==> ids[q]->0 < id
}

/// Where the place of a database id lies.
pub proof fn lemma_place(ids: Seq<Option<i64>>, id: i64)
    ensures
        is_place(ids, id, place_of(ids, id) as int),
    decreases ids.len(),
{
    if ids.len() > 0 && !(ids[0] is Some && ids[0]->0 >= id) {
        let rest = ids.drop_first();
        lemma_place(rest, id);
        let k = place_of(ids, id) as int;
        assert(k < ids.len() ==> rest[k - 1] == ids[k]);
        assert forall|q: int| #![trigger ids[q]] 0 <= q < k && ids[q] is Some implies ids[q]->0
            < id by {
            if q > 0 {
                assert(rest[q - 1] == ids[q]);
            }
        }
    }
}

/// There is one place for a database id.
pub proof fn lemma_place_unique(ids: Seq<Option<i64>>, id: i64, k: int)
    requires
        is_place(ids, id, k),
    ensures
        k == place_of(ids, id),
{
    let place = place_of(ids, id) as int;
    lemma_place(ids, id);
    if k < place {
        assert(ids[k] is Some && ids[k]->0 >= id);
    } else if place < k {
        assert(ids[place] is Some && ids[place]->0 >= id);
    }
}

/// Taking a token out keeps a store well-formed and leaves the other tokens alone.
pub proof fn lemma_without(store: StoreView, p: int, address: Seq<u8>)
    requires
        store.wf(),
        0 <= p < store.tokens.len(),
    ensures
        store.without(p).wf(),
        store.without(p).entry(address) == (if store.tokens[p].address == address {
            None
        } else {
            store.entry(address)
        }),
{
    let after = store.without(p);
    assert forall|q: int|
        #![trigger after.tokens[q]]
        #![trigger after.ids[q]]
        0 <= q < after.tokens.len() implies {
        let r = if q < p { q } else { q + 1 };
        &&& after.tokens[q] == store.tokens[r]
        &&& after.last_traded[q] == store.last_traded[r]
        &&& after.ids[q] == store.ids[r]
    } by {}
    assert(after.distinct());
    assert(after.ordered());
    if after.has(address) {
        let q = after.position(address);
        assert(after.holds(address, q));
        let r = if q < p { q } else { q + 1 };
        lemma_entry(after, address, q);
        assert(store.holds(address, r));
        lemma_entry(store, address, r);
        assert(store.tokens[p].address != address) by {
            if store.tokens[p].address == address {
                assert(store.holds(address, p));
            }
        }
    } else if store.has(address) {
        let r = store.position(address);
        assert(store.holds(address, r));
        if r != p {
            assert(after.holds(address, if r < p { r } else { r - 1 }));
        }
    }
}

/// Putting a token with a new address in leaves the other tokens alone.
pub proof fn lemma_with_at(
    store: StoreView,
    p: int,
    token: TokenView,
    traded: i64,
    id: Option<i64>,
    address: Seq<u8>,
)
    requires
        store.aligned(),
        store.distinct(),
        !store.has(token.address),
        0 <= p <= store.tokens.len(),
    ensures
        store.with_at(p, token, traded, id).aligned(),
        store.with_at(p, token, traded, id).distinct(),
        store.with_at(p, token, traded, id).entry(address) == (if token.address == address {
            Some((token, traded, id))
        } else {
            store.entry(address)
        }),
{
    let after = store.with_at(p, token, traded, id);
    assert forall|q: int| #![trigger after.tokens[q]] 0 <= q < after.tokens.len() && q != p implies {
        let r = if q < p { q } else { q - 1 };
        &&& after.tokens[q] == store.tokens[r]
        &&& after.last_traded[q] == store.last_traded[r]
        &&& after.ids[q] == store.ids[r]
        &&& after.tokens[q].address != token.address
    } by {
        let r = if q < p { q } else { q - 1 };
        assert(!store.holds(token.address, r));
    }
    assert(after.distinct());
    if token.address == address {
        assert(after.holds(address, p));
        lemma_entry(after, address, p);
    } else if after.has(address) {
        let q = after.position(address);
        assert(after.holds(address, q));
        let r = if q < p { q } else { q - 1 };
        lemma_entry(after, address, q);
        assert(store.holds(address, r));
        lemma_entry(store, address, r);
    } else if store.has(address) {
        let r = store.position(address);
        assert(store.holds(address, r));
        assert(after.holds(address, if r < p { r } else { r + 1 }));
    }
}

/// Taking a database id from its token keeps a store well-formed.
pub proof fn lemma_released(store: StoreView, id: i64, address: Seq<u8>)
    requires
        store.wf(),
    ensures
        store.released(id).wf(),
        forall|q: int|
            #![trigger store.released(id).ids[q]]
            0 <= q < store.ids.len() ==> store.released(id).ids[q] != Some(id),
        store.released(id).has(address) == store.has(address),
        store.has(address) ==> store.released(id).position(address) == store.position(address),
        store.released(id).entry(address) == (match store.entry(address) {
            Some((token, traded, known)) => Some(
                (
                    token,
                    traded,
                    if known == Some(id) {
                        None
                    } else {
                        known
                    },
                ),
            ),
            None => None,
        }),
{
    let after = store.released(id);
    assert(after.tokens == store.tokens);
    if store.has(address) {
        let p = store.position(address);
        assert(store.holds(address, p));
        lemma_entry(store, address, p);
        assert(after.holds(address, p));
        lemma_entry(after, address, p);
    } else if after.has(address) {
        assert(store.holds(address, after.position(address)));
    }
}

/// Placing a token by its database id keeps a store well-formed.
pub proof fn lemma_placed(
    store: StoreView,
    id: i64,
    token: TokenView,
    traded: i64,
    address: Seq<u8>,
)
    requires
        store.wf(),
        !store.has(token.address),
        forall|q: int| #![trigger store.ids[q]] 0 <= q < store.ids.len() ==> store.ids[q] != Some(id),
    ensures
        store.placed(id, token, traded).wf(),
        store.placed(id, token, traded).tokens.len() == store.tokens.len() + 1,
        store.placed(id, token, traded).entry(address) == (if token.address == address {
            Some((token, traded, Some(id)))
        } else {
            store.entry(address)
        }),
{
    let k = place_of(store.ids, id) as int;
    let after = store.placed(id, token, traded);
    lemma_place(store.ids, id);
    lemma_with_at(store, k, token, traded, Some(id), address);
    assert forall|p: int, q: int|
        #![trigger after.ids[p], after.ids[q]]
        0 <= p < q < after.ids.len() && after.ids[p] is Some && after.ids[q] is Some implies after.ids[p]->0
        < after.ids[q]->0 by {
        let pp = if p < k { p } else { p - 1 };
        let qq = if q < k { q } else { q - 1 };
        if p != k {
            assert(after.ids[p] == store.ids[pp]);
        }
        if q != k {
            assert(after.ids[q] == store.ids[qq]);
        }
        if k < store.ids.len() {
            assert(store.ids[k] is Some && store.ids[k] != Some(id));
        }
    }
}

/// Writing the token of a database row keeps a store well-formed; the row's token is then the one
/// at its address, and the others are left alone, but for one that had the same database id.
pub proof fn lemma_upsert_row(store: StoreView, id: i64, token: TokenView, address: Seq<u8>)
    requires
        store.wf(),
    ensures
        store.upsert_row(id, token).wf(),
        store.tokens.len() <= store.upsert_row(id, token).tokens.len() <= store.tokens.len() + 1,
        store.upsert_row(id, token).entry(address) == (if address == token.address {
            Some(
                (
                    token,
                    match store.entry(address) {
                        Some((_, traded, _)) => traded,
                        None => NEVER_TRADED,
                    },
                    Some(id),
                ),
            )
        } else {
            store.released(id).entry(address)
        }),
{
    let free = store.released(id);
    lemma_released(store, id, address);
    lemma_released(store, id, token.address);
    if store.has(token.address) {
        let p = store.position(token.address);
        assert(store.holds(token.address, p));
        lemma_entry(store, token.address, p);
        let after = free.stamped(p, id, token);
        if after.ordered() {
            assert(after.distinct());
            if address == token.address {
                assert(after.holds(address, p));
                lemma_entry(after, address, p);
            } else if store.has(address) {
                let q = store.position(address);
                assert(store.holds(address, q));
                lemma_entry(store, address, q);
                lemma_entry(free, address, q);
                assert(after.holds(address, q));
                lemma_entry(after, address, q);
            } else if after.has(address) {
                let q = after.position(address);
                assert(after.holds(address, q));
                assert(store.holds(address, q));
            }
        } else {
            lemma_without(free, p, address);
            lemma_without(free, p, token.address);
            let rest = free.without(p);
            assert forall|q: int| #![trigger rest.ids[q]] 0 <= q < rest.ids.len() implies rest.ids[q]
                != Some(id) by {
                assert(free.ids[if q < p { q } else { q + 1 }] != Some(id));
            }
            lemma_placed(rest, id, token, store.last_traded[p], address);
        }
    } else {
        lemma_placed(free, id, token, NEVER_TRADED, address);
    }
}

/// Writing the tokens of database rows keeps a store well-formed and never makes it shorter.
pub proof fn lemma_upsert_rows(store: StoreView, rows: Seq<(i64, TokenView)>)
    requires
        store.wf(),
    ensures
        store.upsert_rows(rows).wf(),
        store.tokens.len() <= store.upsert_rows(rows).tokens.len() <= store.tokens.len()
            + rows.len(),
    decreases rows.len(),
{
    if rows.len() > 0 {
        lemma_upsert_rows(store, rows.drop_last());
        lemma_upsert_row(
            store.upsert_rows(rows.drop_last()),
            rows.last().0,
            rows.last().1,
            rows.last().1.address,
        );
    }
}

} // verus!
