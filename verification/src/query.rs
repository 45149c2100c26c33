//! Token queries: which tokens are asked for, and which page of them.

use crate::chain::Chain;
use crate::timestamp::Timestamp;
use crate::token::Address;
use vstd::prelude::*;

verus! {

/// Bounds on a token's quality. Both ends are included; a missing end does not bound. No quality
/// lies between bounds of which the lower one is above the upper one.
#[derive(Clone, Copy, Debug)]
pub struct QualityRange {
    pub min: Option<i32>,
    pub max: Option<i32>,
}

impl QualityRange {
    /// `quality` lies within the bounds.
    pub open spec fn admits(self, quality: int) -> bool {
        &&& self.min matches Some(min) ==> min <= quality
        &&& self.max matches Some(max) ==> quality <= max
    }

    /// Whether `quality` lies within the bounds.
    pub fn contains(&self, quality: i32) -> (inside: bool)
        ensures
            inside == self.admits(quality as int),
    {
        let above: bool = match self.min {
            Some(min) => min <= quality,
            None => true,
        };
        let below: bool = match self.max {
            Some(max) => quality <= max,
            None => true,
        };
        above && below
    }

    /// Qualities from `min` to `max`.
    pub fn new(min: i32, max: i32) -> (range: QualityRange)
        ensures
            range.min == Some(min),
            range.max == Some(max),
    {
        QualityRange { min: Some(min), max: Some(max) }
    }

    /// Qualities from `min` upwards.
    pub fn min_only(min: i32) -> (range: QualityRange)
        ensures
            range.min == Some(min),
            range.max is None,
    {
        QualityRange { min: Some(min), max: None }
    }

    /// Every quality.
    pub fn any() -> (range: QualityRange)
        ensures
            range.min is None,
            range.max is None,
    {
        QualityRange { min: None, max: None }
    }
}

/// A page of a result: pages are numbered from zero and have `page_size` entries each.
#[derive(Clone, Copy, Debug)]
pub struct PaginationParams {
    pub page: i64,
    pub page_size: i64,
}

impl PaginationParams {
    /// The offset of the page can be computed.
    pub open spec fn fits(self) -> bool {
        i64::MIN <= self.page * self.page_size <= i64::MAX
    }

    /// Page number `page`, of `page_size` entries.
    pub fn new(page: i64, page_size: i64) -> (params: PaginationParams)
        ensures
            params.page == page,
            params.page_size == page_size,
    {
        PaginationParams { page, page_size }
    }

    /// How many entries come before the page.
    pub fn offset(&self) -> (offset: i64)
        requires
            self.fits(),
        ensures
            offset == self.page * self.page_size,
    {
        self.page * self.page_size
    }
}

/// A result together with the number of entries that it would have without pagination.
#[derive(Debug)]
pub struct WithTotal<T> {
    pub entity: T,
    pub total: Option<i64>,
}

/// What a query asks of a token.
#[verifier::ext_equal]
pub struct Filter {
    /// The address is one of these, if given.
    pub addresses: Option<Seq<Seq<u8>>>,
    /// The quality lies in this range.
    pub quality: QualityRange,
    /// The last trade was later than this many microseconds after the Unix epoch, if given.
    pub traded_after: Option<int>,
}

/// Which part of the result is asked for.
pub struct Page {
    /// The number of entries that are left out at the start.
    pub offset: nat,
    /// The number of entries that are kept behind those, if bounded.
    pub limit: Option<nat>,
}

/// `value`, or zero if it is negative.
pub open spec fn at_least_zero(value: int) -> nat {
    if value >= 0 {
        value as nat
    } else {
        0
    }
}

impl Page {
    /// The part of `items` that the page shows.
    pub open spec fn of<T>(self, items: Seq<T>) -> Seq<T> {
        let rest = if self.offset <= items.len() {
            items.skip(self.offset as int)
        } else {
            Seq::empty()
        };
        match self.limit {
            Some(limit) if limit < rest.len() => rest.take(limit as int),
            _ => rest,
        }
    }
}

/// A query for tokens of one chain.
#[derive(Debug)]
pub struct TokenQuery {
    pub chain: Chain,
    pub addresses: Option<Vec<Address>>,
    pub quality_range: QualityRange,
    pub last_traded_ts_threshold: Option<Timestamp>,
    pub pagination: Option<PaginationParams>,
}

impl TokenQuery {
    /// The offset of the page can be computed.
    pub open spec fn wf(self) -> bool {
        self.pagination matches Some(params) ==> params.fits()
    }

    /// What the query asks of a token.
    pub open spec fn filter(self) -> Filter {
        Filter {
            addresses: match self.addresses {
                Some(addresses) => Some(
                    Seq::new(addresses@.len(), |i: int| addresses@[i]@),
                ),
                None => None,
            },
            quality: self.quality_range,
            traded_after: match self.last_traded_ts_threshold {
                Some(threshold) => Some(threshold.micros()),
                None => None,
            },
        }
    }

    /// Which part of the result the query asks for. Negative offsets and sizes count as zero.
    pub open spec fn page(self) -> Page {
        match self.pagination {
            Some(params) => Page {
                offset: at_least_zero(params.page * params.page_size),
                limit: Some(at_least_zero(params.page_size as int)),
            },
            None => Page { offset: 0, limit: None },
        }
    }
}

/// What a page shows when one more item comes in at the end.
pub proof fn lemma_page_push<T>(page: Page, items: Seq<T>, item: T)
    ensures
        page.of(items.push(item)) == (if page.offset <= items.len() && (page.limit matches Some(
            limit,
        ) ==> page.of(items).len() < limit) {
            page.of(items).push(item)
        } else {
            page.of(items)
        }),
{
    let more = items.push(item);
    if page.offset <= items.len() {
        assert(more.skip(page.offset as int) =~= items.skip(page.offset as int).push(item));
        let rest = items.skip(page.offset as int);
        if let Some(limit) = page.limit {
            if limit < rest.len() {
                assert(rest.push(item).take(limit as int) =~= rest.take(limit as int));
            } else if limit == rest.len() {
                assert(rest.push(item).take(limit as int) =~= rest);
            }
        }
    } else if page.offset == more.len() {
        assert(more.skip(page.offset as int) =~= Seq::empty());
    }
}

/// A limit that no result reaches does not limit.
pub proof fn lemma_page_unlimited<T>(offset: nat, limit: nat, items: Seq<T>)
    requires
        items.len() <= limit,
    ensures
        (Page { offset, limit: Some(limit) }).of(items) == (Page { offset, limit: None }).of(items),
{
}

} // verus!
