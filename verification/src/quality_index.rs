//! Finds the tokens whose quality lies in a range.

use crate::bitmap::{add_all, bitmap_set};
use crate::query::QualityRange;
use crate::token::{signed_32, to_signed_32};
use roaring::RoaringBitmap;
use std::collections::BTreeMap;
use vstd::prelude::*;

verus! {

broadcast use {vstd::std_specs::btree::group_btree_axioms, vstd::laws_cmp::group_laws_cmp};

/// The positions of tokens, by quality.
pub(crate) struct QualityIndex {
    /// Quality value -> positions of tokens with that quality.
    bitmaps: BTreeMap<i32, RoaringBitmap>,
}

impl QualityIndex {
    /// The index covers tokens whose qualities are `qualities`, by position: the bitmap of a
    /// quality holds exactly the positions with that quality.
    pub(crate) closed spec fn covers(self, qualities: Seq<u32>) -> bool {
        &&& forall|k: i32, v: u32|
            #![trigger bitmap_set(self.bitmaps@[k]).contains(v)]
            self.bitmaps@.contains_key(k) ==> (bitmap_set(self.bitmaps@[k]).contains(v) <==> v
                < qualities.len() && signed_32(qualities[v as int]) == k)
        &&& forall|p: int|
            #![trigger qualities[p]]
            0 <= p < qualities.len() ==> self.bitmaps@.contains_key(signed_32(qualities[p]) as i32)
    }

    /// An index of no tokens.
    pub(crate) fn new() -> (index: QualityIndex)
        ensures
            index.covers(Seq::empty()),
    {
        QualityIndex { bitmaps: BTreeMap::new() }
    }

    /// Adds `position` to the bitmap of `quality`.
    fn add(&mut self, quality: u32, position: u32)
        ensures
            final(self).bitmaps@.dom() == old(self).bitmaps@.dom().insert(
                signed_32(quality) as i32,
            ),
            forall|k: i32, v: u32|
                #![trigger bitmap_set(final(self).bitmaps@[k]).contains(v)]
                final(self).bitmaps@.contains_key(k) ==> (bitmap_set(
                    final(self).bitmaps@[k],
                ).contains(v) <==> (k == signed_32(quality) && v == position) || (old(
                    self,
                ).bitmaps@.contains_key(k) && bitmap_set(old(self).bitmaps@[k]).contains(v))),
    {
        let key: i32 = to_signed_32(quality);
        let mut bitmap = match self.bitmaps.remove(&key) {
            Some(bitmap) => bitmap,
            None => RoaringBitmap::new(),
        };
        bitmap.insert(position);
        self.bitmaps.insert(key, bitmap);
        assert(self.bitmaps@.dom() =~= old(self).bitmaps@.dom().insert(key));
    }

    /// Enters a new token behind the tokens that are indexed.
    pub(crate) fn push(&mut self, quality: u32, position: u32)
        ensures
            forall|qualities: Seq<u32>|
                #![trigger old(self).covers(qualities)]
                old(self).covers(qualities) && qualities.len() == position ==> final(self).covers(
                    qualities.push(quality),
                ),
    {
        self.add(quality, position);
        assert forall|qualities: Seq<u32>|
            #![trigger old(self).covers(qualities)]
            old(self).covers(qualities) && qualities.len() == position implies self.covers(
            qualities.push(quality),
        ) by {
            let now = qualities.push(quality);
            assert forall|k: i32, v: u32|
                #![trigger bitmap_set(self.bitmaps@[k]).contains(v)]
                self.bitmaps@.contains_key(k) implies (bitmap_set(self.bitmaps@[k]).contains(v)
                <==> v < now.len() && signed_32(now[v as int]) == k) by {
                if v < qualities.len() {
                    assert(now[v as int] == qualities[v as int]);
                    assert(old(self).bitmaps@.contains_key(signed_32(qualities[v as int]) as i32));
                }
                if old(self).bitmaps@.contains_key(k) {
                    assert(bitmap_set(old(self).bitmaps@[k]).contains(v) <==> v < qualities.len()
                        && signed_32(qualities[v as int]) == k);
                }
            }
            assert forall|p: int| #![trigger now[p]] 0 <= p < now.len() implies self.bitmaps@.contains_key(
                signed_32(now[p]) as i32,
            ) by {
                if p < qualities.len() {
                    assert(now[p] == qualities[p]);
                }
            }
        }
    }

    /// Moves the token at `position` from one quality to another.
    pub(crate) fn update(&mut self, before: u32, after: u32, position: u32)
        ensures
            forall|qualities: Seq<u32>|
                #![trigger old(self).covers(qualities)]
                old(self).covers(qualities) && position < qualities.len()
                    && qualities[position as int] == before ==> final(self).covers(
                    qualities.update(position as int, after),
                ),
    {
        let key: i32 = to_signed_32(before);
        if let Some(taken) = self.bitmaps.remove(&key) {
            let mut bitmap = taken;
            bitmap.remove(position);
            self.bitmaps.insert(key, bitmap);
        }
        let ghost between = *self;
        assert(between.bitmaps@.dom() =~= old(self).bitmaps@.dom());
        assert forall|k: i32, v: u32|
            #![trigger bitmap_set(between.bitmaps@[k]).contains(v)]
            between.bitmaps@.contains_key(k) implies (bitmap_set(between.bitmaps@[k]).contains(v)
            <==> bitmap_set(old(self).bitmaps@[k]).contains(v) && !(k == key && v == position)) by {}
        self.add(after, position);
        assert forall|qualities: Seq<u32>|
            #![trigger old(self).covers(qualities)]
            old(self).covers(qualities) && position < qualities.len()
                && qualities[position as int] == before implies self.covers(
            qualities.update(position as int, after),
        ) by {
            let now = qualities.update(position as int, after);
            assert forall|k: i32, v: u32|
                #![trigger bitmap_set(self.bitmaps@[k]).contains(v)]
                self.bitmaps@.contains_key(k) implies (bitmap_set(self.bitmaps@[k]).contains(v)
                <==> v < now.len() && signed_32(now[v as int]) == k) by {
                if v < qualities.len() {
                    assert(old(self).bitmaps@.contains_key(signed_32(qualities[v as int]) as i32));
                }
                if old(self).bitmaps@.contains_key(k) {
                    assert(bitmap_set(old(self).bitmaps@[k]).contains(v) <==> v < qualities.len()
                        && signed_32(qualities[v as int]) == k);
                    assert(bitmap_set(between.bitmaps@[k]).contains(v) <==> bitmap_set(
                        old(self).bitmaps@[k],
                    ).contains(v) && !(k == key && v == position));
                }
            }
            assert forall|p: int| #![trigger now[p]] 0 <= p < now.len() implies self.bitmaps@.contains_key(
                signed_32(now[p]) as i32,
            ) by {
                assert(old(self).bitmaps@.contains_key(signed_32(qualities[p]) as i32));
            }
        }
    }

    /// Takes out the last token that is indexed.
    pub(crate) fn pop(&mut self, quality: u32, position: u32)
        ensures
            forall|qualities: Seq<u32>|
                #![trigger old(self).covers(qualities.push(quality))]
                old(self).covers(qualities.push(quality)) && qualities.len() == position
                    ==> final(self).covers(qualities),
    {
        let key: i32 = to_signed_32(quality);
        if let Some(taken) = self.bitmaps.remove(&key) {
            let mut bitmap = taken;
            bitmap.remove(position);
            self.bitmaps.insert(key, bitmap);
        }
        assert(self.bitmaps@.dom() =~= old(self).bitmaps@.dom());
        assert forall|qualities: Seq<u32>|
            #![trigger old(self).covers(qualities.push(quality))]
            old(self).covers(qualities.push(quality)) && qualities.len() == position implies self.covers(
            qualities,
        ) by {
            let before = qualities.push(quality);
            assert forall|k: i32, v: u32|
                #![trigger bitmap_set(self.bitmaps@[k]).contains(v)]
                self.bitmaps@.contains_key(k) implies (bitmap_set(self.bitmaps@[k]).contains(v)
                <==> v < qualities.len() && signed_32(qualities[v as int]) == k) by {
                assert(bitmap_set(old(self).bitmaps@[k]).contains(v) <==> v < before.len()
                    && signed_32(before[v as int]) == k);
                if v < qualities.len() {
                    assert(before[v as int] == qualities[v as int]);
                }
            }
            assert forall|p: int| #![trigger qualities[p]] 0 <= p < qualities.len() implies self.bitmaps@.contains_key(
                signed_32(qualities[p]) as i32,
            ) by {
                assert(before[p] == qualities[p]);
            }
        }
    }

    /// The positions of the tokens whose quality lies in `range`.
    pub(crate) fn in_range(&self, range: &QualityRange) -> (positions: RoaringBitmap)
        ensures
            forall|qualities: Seq<u32>, v: u32|
                #![trigger self.covers(qualities), bitmap_set(positions).contains(v)]
                self.covers(qualities) ==> (bitmap_set(positions).contains(v) <==> v
                    < qualities.len() && range.admits(signed_32(qualities[v as int]))),
    {
        let mut positions = RoaringBitmap::new();
        for entry in entries: self.bitmaps.iter()
            invariant
                forall|i: int|
                    #![trigger entries.seq()[i]]
                    0 <= i < entries.seq().len() ==> self.bitmaps@.contains_key(
                        *entries.seq()[i].0,
                    ) && self.bitmaps@[*entries.seq()[i].0] == *entries.seq()[i].1,
                forall|k: i32| #[trigger]
                    self.bitmaps@.contains_key(k) ==> entries.seq().contains(
                        (&k, &self.bitmaps@[k]),
                    ),
                forall|v: u32| #[trigger]
                    bitmap_set(positions).contains(v) ==> exists|i: int|
                        #![trigger entries.seq()[i]]
                        0 <= i < entries.index() && range.admits(*entries.seq()[i].0 as int)
                            && bitmap_set(*entries.seq()[i].1).contains(v),
                forall|i: int, v: u32|
                    #![trigger entries.seq()[i], bitmap_set(positions).contains(v)]
                    0 <= i < entries.index() && range.admits(*entries.seq()[i].0 as int)
                        && bitmap_set(*entries.seq()[i].1).contains(v) ==> bitmap_set(
                        positions,
                    ).contains(v),
        {
            let (quality, bitmap) = entry;
            if range.contains(*quality) {
                add_all(&mut positions, bitmap);
            }
        }
        positions
    }
}

} // verus!
