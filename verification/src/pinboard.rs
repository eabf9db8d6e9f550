//! The synchronizer: the in-memory snapshot and the searches over it.
//!
//! A `Pinboard` holds an optional snapshot of bookmarks and tags. Loading
//! it from snapshot-file bytes and searching it are verified here; the
//! caller performs the transfers and file reads, feeds the bytes in, and
//! decides when to refresh using the staleness check.

use vstd::prelude::*;

use crate::api::Api;
use crate::codec;
use crate::matching::{is_subsequence, lower_of, lowercase, seq_contains};
use crate::pin::{pin_matches_exact, pin_matches_fuzzy, Pin, PinView, Tag};

verus! {

/// Whether a bookmark answers a query, in the selected mode.
pub open spec fn pin_query_matches(p: PinView, q: Seq<char>, fuzzy: bool) -> bool {
    if fuzzy {
        pin_matches_fuzzy(p, q)
    } else {
        pin_matches_exact(p, lower_of(q))
    }
}

/// Whether a tag answers a query, in the selected mode: its case-folded
/// name must contain the folded query, or, fuzzily, contain it as an
/// ordered subsequence.
pub open spec fn tag_query_matches(t: (Seq<char>, u64), q: Seq<char>, fuzzy: bool) -> bool {
    if fuzzy {
        is_subsequence(lower_of(q), lower_of(t.0))
    } else {
        seq_contains(lower_of(t.0), lower_of(q))
    }
}

/// The bookmarks answering a query, in collection order.
pub open spec fn matching_pins(ps: Seq<PinView>, q: Seq<char>, fuzzy: bool) -> Seq<PinView>
    decreases ps.len(),
{
    if ps.len() == 0 {
        Seq::empty()
    } else {
        let rest = matching_pins(ps.drop_last(), q, fuzzy);
        if pin_query_matches(ps.last(), q, fuzzy) {
            rest.push(ps.last())
        } else {
            rest
        }
    }
}

/// The tags answering a query, in collection order.
pub open spec fn matching_tags(ts: Seq<(Seq<char>, u64)>, q: Seq<char>, fuzzy: bool) -> Seq<
    (Seq<char>, u64),
>
    decreases ts.len(),
{
    if ts.len() == 0 {
        Seq::empty()
    } else {
        let rest = matching_tags(ts.drop_last(), q, fuzzy);
        if tag_query_matches(ts.last(), q, fuzzy) {
            rest.push(ts.last())
        } else {
            rest
        }
    }
}

/// Search selection over bookmarks is sound and complete: every selected
/// bookmark answers the query, and every bookmark of the collection that
/// answers the query is selected.
pub proof fn lemma_matching_pins_exact(ps: Seq<PinView>, q: Seq<char>, fuzzy: bool)
    ensures
        forall|k: int|
            0 <= k < matching_pins(ps, q, fuzzy).len() ==> pin_query_matches(
                #[trigger] matching_pins(ps, q, fuzzy)[k],
                q,
                fuzzy,
            ),
        forall|i: int|
            0 <= i < ps.len() && pin_query_matches(#[trigger] ps[i], q, fuzzy) ==> matching_pins(
                ps,
                q,
                fuzzy,
            ).contains(ps[i]),
    decreases ps.len(),
{
    if ps.len() > 0 {
        lemma_matching_pins_exact(ps.drop_last(), q, fuzzy);
        let rest = matching_pins(ps.drop_last(), q, fuzzy);
        let whole = matching_pins(ps, q, fuzzy);
        assert forall|k: int|
            0 <= k < whole.len() implies pin_query_matches(#[trigger] whole[k], q, fuzzy) by {
            if pin_query_matches(ps.last(), q, fuzzy) {
                assert(whole == rest.push(ps.last()));
                if k < rest.len() {
                    assert(whole[k] == rest[k]);
                } else {
                    assert(whole[k] == ps.last());
                }
            } else {
                assert(whole == rest);
            }
        }
        assert forall|i: int|
            0 <= i < ps.len() && pin_query_matches(#[trigger] ps[i], q, fuzzy) implies whole.contains(
            ps[i],
        ) by {
            if i < ps.len() - 1 {
                assert(ps.drop_last()[i] == ps[i]);
                assert(rest.contains(ps[i]));
                let w = choose|w: int| 0 <= w < rest.len() && rest[w] == ps[i];
                if pin_query_matches(ps.last(), q, fuzzy) {
                    assert(whole == rest.push(ps.last()));
                    assert(whole[w] == ps[i]);
                } else {
                    assert(whole == rest);
                }
            } else {
                assert(ps[i] == ps.last());
                assert(whole == rest.push(ps.last()));
                assert(whole[rest.len() as int] == ps[i]);
            }
        }
    }
}

/// Search selection over tags is sound and complete, in the same way.
pub proof fn lemma_matching_tags_exact(ts: Seq<(Seq<char>, u64)>, q: Seq<char>, fuzzy: bool)
    ensures
        forall|k: int|
            0 <= k < matching_tags(ts, q, fuzzy).len() ==> tag_query_matches(
                #[trigger] matching_tags(ts, q, fuzzy)[k],
                q,
                fuzzy,
            ),
        forall|i: int|
            0 <= i < ts.len() && tag_query_matches(#[trigger] ts[i], q, fuzzy) ==> matching_tags(
                ts,
                q,
                fuzzy,
            ).contains(ts[i]),
    decreases ts.len(),
{
    if ts.len() > 0 {
        lemma_matching_tags_exact(ts.drop_last(), q, fuzzy);
        let rest = matching_tags(ts.drop_last(), q, fuzzy);
        let whole = matching_tags(ts, q, fuzzy);
        assert forall|k: int|
            0 <= k < whole.len() implies tag_query_matches(#[trigger] whole[k], q, fuzzy) by {
            if tag_query_matches(ts.last(), q, fuzzy) {
                assert(whole == rest.push(ts.last()));
                if k < rest.len() {
                    assert(whole[k] == rest[k]);
                } else {
                    assert(whole[k] == ts.last());
                }
            } else {
                assert(whole == rest);
            }
        }
        assert forall|i: int|
            0 <= i < ts.len() && tag_query_matches(#[trigger] ts[i], q, fuzzy) implies whole.contains(
            ts[i],
        ) by {
            if i < ts.len() - 1 {
                assert(ts.drop_last()[i] == ts[i]);
                assert(rest.contains(ts[i]));
                let w = choose|w: int| 0 <= w < rest.len() && rest[w] == ts[i];
                if tag_query_matches(ts.last(), q, fuzzy) {
                    assert(whole == rest.push(ts.last()));
                    assert(whole[w] == ts[i]);
                } else {
                    assert(whole == rest);
                }
            } else {
                assert(ts[i] == ts.last());
                assert(whole == rest.push(ts.last()));
                assert(whole[rest.len() as int] == ts[i]);
            }
        }
    }
}

/// The synchronizer. The snapshot starts absent and is replaced wholesale;
/// no record is ever mutated in place.
pub struct Pinboard {
    api: Api,
    tag_only_search: bool,
    fuzzy_search: bool,
    private_new_pin: bool,
    toread_new_pin: bool,
    cached_pins: Option<Vec<Pin>>,
    cached_tags: Option<Vec<Tag>>,
}

impl Pinboard {
    /// The loaded bookmark collection, if one is loaded.
    pub closed spec fn spec_pins(&self) -> Option<Seq<PinView>> {
        self.cached_pins.deep_view()
    }

    /// The loaded tag collection, if one is loaded.
    pub closed spec fn spec_tags(&self) -> Option<Seq<(Seq<char>, u64)>> {
        self.cached_tags.deep_view()
    }

    pub closed spec fn spec_token(&self) -> Seq<char> {
        self.api.token()
    }

    pub closed spec fn spec_tag_only_search(&self) -> bool {
        self.tag_only_search
    }

    pub closed spec fn spec_fuzzy_search(&self) -> bool {
        self.fuzzy_search
    }

    pub closed spec fn spec_private_new_pin(&self) -> bool {
        self.private_new_pin
    }

    pub closed spec fn spec_toread_new_pin(&self) -> bool {
        self.toread_new_pin
    }

    /// A fresh synchronizer: no snapshot loaded, exact search over all
    /// fields, and new bookmarks private and already read.
    pub fn new(auth_token: String) -> (r: Pinboard)
        ensures
            r.spec_token() == auth_token@,
            r.spec_pins() is None,
            r.spec_tags() is None,
            !r.spec_tag_only_search(),
            !r.spec_fuzzy_search(),
            r.spec_private_new_pin(),
            !r.spec_toread_new_pin(),
    {
        Pinboard {
            api: Api::new(auth_token),
            tag_only_search: false,
            fuzzy_search: false,
            private_new_pin: true,
            toread_new_pin: false,
            cached_pins: None,
            cached_tags: None,
        }
    }

    /// The remote client sharing this synchronizer's auth token.
    pub fn api(&self) -> (r: &Api)
        ensures
            r.token() == self.spec_token(),
    {
        &self.api
    }

    pub fn enable_tag_only_search(&mut self, v: bool)
        ensures
            final(self).spec_tag_only_search() == v,
            final(self).spec_fuzzy_search() == old(self).spec_fuzzy_search(),
            final(self).spec_private_new_pin() == old(self).spec_private_new_pin(),
            final(self).spec_toread_new_pin() == old(self).spec_toread_new_pin(),
            final(self).spec_pins() == old(self).spec_pins(),
            final(self).spec_tags() == old(self).spec_tags(),
            final(self).spec_token() == old(self).spec_token(),
    {
        self.tag_only_search = v;
    }

    pub fn enable_fuzzy_search(&mut self, v: bool)
        ensures
            final(self).spec_fuzzy_search() == v,
            final(self).spec_tag_only_search() == old(self).spec_tag_only_search(),
            final(self).spec_private_new_pin() == old(self).spec_private_new_pin(),
            final(self).spec_toread_new_pin() == old(self).spec_toread_new_pin(),
            final(self).spec_pins() == old(self).spec_pins(),
            final(self).spec_tags() == old(self).spec_tags(),
            final(self).spec_token() == old(self).spec_token(),
    {
        self.fuzzy_search = v;
    }

    pub fn enable_private_new_pin(&mut self, v: bool)
        ensures
            final(self).spec_private_new_pin() == v,
            final(self).spec_tag_only_search() == old(self).spec_tag_only_search(),
            final(self).spec_fuzzy_search() == old(self).spec_fuzzy_search(),
            final(self).spec_toread_new_pin() == old(self).spec_toread_new_pin(),
            final(self).spec_pins() == old(self).spec_pins(),
            final(self).spec_tags() == old(self).spec_tags(),
            final(self).spec_token() == old(self).spec_token(),
    {
        self.private_new_pin = v;
    }

    pub fn enable_toread_new_pin(&mut self, v: bool)
        ensures
            final(self).spec_toread_new_pin() == v,
            final(self).spec_tag_only_search() == old(self).spec_tag_only_search(),
            final(self).spec_fuzzy_search() == old(self).spec_fuzzy_search(),
            final(self).spec_private_new_pin() == old(self).spec_private_new_pin(),
            final(self).spec_pins() == old(self).spec_pins(),
            final(self).spec_tags() == old(self).spec_tags(),
            final(self).spec_token() == old(self).spec_token(),
    {
        self.toread_new_pin = v;
    }

    /// Whether new bookmarks default to private.
    pub fn private_new_pin(&self) -> (r: bool)
        ensures
            r == self.spec_private_new_pin(),
    {
        self.private_new_pin
    }

    /// Whether new bookmarks default to to-read.
    pub fn toread_new_pin(&self) -> (r: bool)
        ensures
            r == self.spec_toread_new_pin(),
    {
        self.toread_new_pin
    }

    /// Whether fuzzy search is selected.
    pub fn fuzzy_search(&self) -> (r: bool)
        ensures
            r == self.spec_fuzzy_search(),
    {
        self.fuzzy_search
    }

    /// Whether tag-only search is selected.
    pub fn tag_only_search(&self) -> (r: bool)
        ensures
            r == self.spec_tag_only_search(),
    {
        self.tag_only_search
    }

    /// Staleness: the local snapshot timestamp is outdated exactly when it
    /// is strictly earlier than the remote-reported one; equal timestamps
    /// are current.
    pub fn is_cache_outdated(&self, last_update: i64, remote_update: i64) -> (r: bool)
        ensures
            r == (last_update < remote_update),
    {
        last_update < remote_update
    }

    /// Loads the bookmark half of the snapshot from snapshot-file bytes.
    /// Corrupt bytes are an error and leave the snapshot as it was; they
    /// are never read as an empty collection.
    pub fn load_pins(&mut self, bytes: &Vec<u8>) -> (r: Result<(), String>)
        ensures
            r is Ok <==> codec::pins_of_bytes(bytes@) is Some,
            codec::pins_of_bytes(bytes@) matches Some(ps) ==> final(self).spec_pins() == Some(ps),
            r is Err ==> *final(self) == *old(self),
            final(self).spec_tags() == old(self).spec_tags(),
            final(self).spec_token() == old(self).spec_token(),
            final(self).spec_tag_only_search() == old(self).spec_tag_only_search(),
            final(self).spec_fuzzy_search() == old(self).spec_fuzzy_search(),
            final(self).spec_private_new_pin() == old(self).spec_private_new_pin(),
            final(self).spec_toread_new_pin() == old(self).spec_toread_new_pin(),
    {
        match codec::decode_pins(bytes) {
            Some(ps) => {
                self.cached_pins = Some(ps);
                Ok(())
            },
            None => Err(String::from_str("corrupt bookmark snapshot")),
        }
    }

    /// Loads the tag half of the snapshot from snapshot-file bytes, under
    /// the same rules as `load_pins`.
    pub fn load_tags(&mut self, bytes: &Vec<u8>) -> (r: Result<(), String>)
        ensures
            r is Ok <==> codec::tags_of_bytes(bytes@) is Some,
            codec::tags_of_bytes(bytes@) matches Some(ts) ==> final(self).spec_tags() == Some(ts),
            r is Err ==> *final(self) == *old(self),
            final(self).spec_pins() == old(self).spec_pins(),
            final(self).spec_token() == old(self).spec_token(),
            final(self).spec_tag_only_search() == old(self).spec_tag_only_search(),
            final(self).spec_fuzzy_search() == old(self).spec_fuzzy_search(),
            final(self).spec_private_new_pin() == old(self).spec_private_new_pin(),
            final(self).spec_toread_new_pin() == old(self).spec_toread_new_pin(),
    {
        match codec::decode_tags(bytes) {
            Some(ts) => {
                self.cached_tags = Some(ts);
                Ok(())
            },
            None => Err(String::from_str("corrupt tag snapshot")),
        }
    }

    /// The loaded tag collection.
    pub fn tag_pairs(&self) -> (r: &Option<Vec<Tag>>)
        ensures
            r.deep_view() == self.spec_tags(),
    {
        &self.cached_tags
    }

    /// The loaded bookmark collection.
    pub fn bookmarks(&self) -> (r: &Option<Vec<Pin>>)
        ensures
            r.deep_view() == self.spec_pins(),
    {
        &self.cached_pins
    }

    /// Searches every field of the loaded bookmarks. An unloaded snapshot
    /// is an error; no match is `None`; otherwise the matches come in
    /// collection order, as references into the snapshot.
    pub fn search_items<'a>(&'a self, q: &str) -> (r: Result<Option<Vec<&'a Pin>>, String>)
        ensures
            r is Err <==> self.spec_pins() is None,
            self.spec_pins() matches Some(ps) ==> (r matches Ok(opt) && ({
                let sel = matching_pins(ps, q@, self.spec_fuzzy_search());
                &&& (opt is None <==> sel.len() == 0)
                &&& (opt matches Some(v) ==> v@.len() == sel.len() && forall|k: int|
                    0 <= k < v@.len() ==> v@[k]@ == sel[k])
            })),
    {
        let pins = match &self.cached_pins {
            Some(ps) => ps,
            None => {
                return Err(String::from_str("pins cache file not present"));
            },
        };
        let ghost dv = pins.deep_view();
        let fuzzy = self.fuzzy_search;
        let ql = lowercase(q);
        let mut out: Vec<&Pin> = Vec::new();
        let mut i: usize = 0;
        proof {
            assert(matching_pins(dv.take(0), q@, fuzzy) =~= Seq::<PinView>::empty());
        }
        while i < pins.len()
            invariant
                i <= pins@.len(),
                dv == pins.deep_view(),
                fuzzy == self.spec_fuzzy_search(),
                ql@ == lower_of(q@),
                out@.len() == matching_pins(dv.take(i as int), q@, fuzzy).len(),
                forall|k: int|
                    0 <= k < out@.len() ==> out@[k]@ == matching_pins(dv.take(i as int), q@, fuzzy)[k],
            decreases pins@.len() - i,
        {
            let p = &pins[i];
            let hit = if fuzzy {
                p.contains_fuzzy(q)
            } else {
                p.contains(ql.as_str())
            };
            proof {
                assert(p@ == dv[i as int]);
                assert(dv.take(i + 1).drop_last() =~= dv.take(i as int));
                assert(dv.take(i + 1).last() == dv[i as int]);
                assert(hit == pin_query_matches(dv[i as int], q@, fuzzy));
            }
            if hit {
                let ghost prev = out@;
                out.push(p);
                proof {
                    assert(out@[prev.len() as int]@ == dv[i as int]);
                    assert(matching_pins(dv.take(i + 1), q@, fuzzy) == matching_pins(
                        dv.take(i as int),
                        q@,
                        fuzzy,
                    ).push(dv[i as int]));
                }
            }
            i = i + 1;
        }
        proof {
            assert(dv.take(pins@.len() as int) =~= dv);
        }
        if out.len() == 0 {
            Ok(None)
        } else {
            Ok(Some(out))
        }
    }

    /// Searches the loaded tag names, under the same rules as
    /// `search_items`.
    pub fn search_tag_field<'a>(&'a self, q: &str) -> (r: Result<Option<Vec<&'a Tag>>, String>)
        ensures
            r is Err <==> self.spec_tags() is None,
            self.spec_tags() matches Some(ts) ==> (r matches Ok(opt) && ({
                let sel = matching_tags(ts, q@, self.spec_fuzzy_search());
                &&& (opt is None <==> sel.len() == 0)
                &&& (opt matches Some(v) ==> v@.len() == sel.len() && forall|k: int|
                    0 <= k < v@.len() ==> v@[k]@ == sel[k])
            })),
    {
        let tags = match &self.cached_tags {
            Some(ts) => ts,
            None => {
                return Err(String::from_str("tags cache file not present"));
            },
        };
        let ghost dv = tags.deep_view();
        let fuzzy = self.fuzzy_search;
        let ql = lowercase(q);
        let mut out: Vec<&Tag> = Vec::new();
        let mut i: usize = 0;
        proof {
            assert(matching_tags(dv.take(0), q@, fuzzy) =~= Seq::<(Seq<char>, u64)>::empty());
        }
        while i < tags.len()
            invariant
                i <= tags@.len(),
                dv == tags.deep_view(),
                fuzzy == self.spec_fuzzy_search(),
                ql@ == lower_of(q@),
                out@.len() == matching_tags(dv.take(i as int), q@, fuzzy).len(),
                forall|k: int|
                    0 <= k < out@.len() ==> out@[k]@ == matching_tags(dv.take(i as int), q@, fuzzy)[k],
            decreases tags@.len() - i,
        {
            let t = &tags[i];
            let name_lower = lowercase(t.0.as_str());
            let hit = if fuzzy {
                str_subsequence_folded(q, name_lower.as_str())
            } else {
                crate::matching::str_contains(name_lower.as_str(), ql.as_str())
            };
            proof {
                assert(t@ == dv[i as int]);
                assert(dv.take(i + 1).drop_last() =~= dv.take(i as int));
                assert(dv.take(i + 1).last() == dv[i as int]);
                assert(hit == tag_query_matches(dv[i as int], q@, fuzzy));
            }
            if hit {
                let ghost prev = out@;
                out.push(t);
                proof {
                    assert(out@[prev.len() as int]@ == dv[i as int]);
                    assert(matching_tags(dv.take(i + 1), q@, fuzzy) == matching_tags(
                        dv.take(i as int),
                        q@,
                        fuzzy,
                    ).push(dv[i as int]));
                }
            }
            i = i + 1;
        }
        proof {
            assert(dv.take(tags@.len() as int) =~= dv);
        }
        if out.len() == 0 {
            Ok(None)
        } else {
            Ok(Some(out))
        }
    }
}

/// Fuzzy match with both sides case-folded here.
fn str_subsequence_folded(q: &str, text_lower: &str) -> (r: bool)
    ensures
        r == is_subsequence(lower_of(q@), text_lower@),
{
    let ql = lowercase(q);
    crate::matching::str_subsequence(ql.as_str(), text_lower)
}

} // verus!
