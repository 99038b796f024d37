//! Corpus sources: static definitions, the runtime provider registry and the
//! catalog that merges them with the persisted graph.

use vstd::prelude::*;

use crate::corpus::{
    CorpusActivation, CorpusDefinition, CorpusTerm, DefinitionView, clone_definitions,
    clone_terms, definitions_view, terms_view, unique_ids, valid_definition,
    valid_provider_id, valid_provider_id_spec, validate_unique,
};
use crate::graph::{GraphProjection, ProjectionView};
use crate::language::strings_contain;
use crate::order::{
    lemma_lt_asymmetric, lemma_lt_irreflexive, lemma_lt_total, lemma_lt_transitive, seq_lt,
    str_less,
};
use crate::prompt::sv;
use crate::text::{owned, str_eq};

verus! {

broadcast use vstd::string::group_string_axioms;

/// `std::time::Instant`, an opaque point on the monotonic clock.
#[verifier::external_type_specification]
#[verifier::external_body]
pub struct ExInstant(std::time::Instant);

/// `Instant::now`: the current point of the monotonic clock.
#[verifier::external_body]
pub(crate) fn instant_now() -> std::time::Instant {
    std::time::Instant::now()
}

/// `Instant::elapsed` in whole milliseconds, saturated to `u64`. Nothing is
/// stated of the result: it depends on the clock.
#[verifier::external_body]
pub(crate) fn millis_since(epoch: &std::time::Instant) -> u64 {
    u64::try_from(epoch.elapsed().as_millis()).unwrap_or(u64::MAX)
}

// ---------------------------------------------------------------------------
// The runtime provider registry.
// ---------------------------------------------------------------------------

/// One provider's published corpora and when they expire (milliseconds on
/// the registry's clock).
#[derive(Debug)]
pub struct ProviderSnapshot {
    pub provider_id: String,
    pub expires_at: Option<u64>,
    pub corpora: Vec<CorpusDefinition>,
}

/// The mathematical content of a provider snapshot.
pub struct ProviderView {
    pub provider_id: Seq<char>,
    pub expires_at: Option<u64>,
    pub corpora: Seq<DefinitionView>,
}

impl View for ProviderSnapshot {
    type V = ProviderView;

    open spec fn view(&self) -> ProviderView {
        ProviderView {
            provider_id: self.provider_id@,
            expires_at: self.expires_at,
            corpora: definitions_view(self.corpora@),
        }
    }
}

impl Clone for ProviderSnapshot {
    fn clone(&self) -> (r: Self)
        ensures
            r@ == self@,
    {
        ProviderSnapshot {
            provider_id: self.provider_id.clone(),
            expires_at: self.expires_at,
            corpora: clone_definitions(&self.corpora),
        }
    }
}

/// The views of a list of provider snapshots.
pub open spec fn providers_view(v: Seq<ProviderSnapshot>) -> Seq<ProviderView> {
    v.map_values(|p: ProviderSnapshot| p@)
}

/// Provider identifiers strictly ascending, as a `BTreeMap` keeps them.
pub open spec fn sorted_providers(s: Seq<ProviderView>) -> bool {
    forall|i: int, j: int|
        0 <= i < j < s.len() ==> seq_lt(#[trigger] s[i].provider_id, #[trigger] s[j].provider_id)
}

/// The first position at or after `from` whose identifier does not sort
/// before `id`.
pub open spec fn insert_point(s: Seq<ProviderView>, id: Seq<char>, from: int) -> int
    decreases s.len() - from,
{
    if from < 0 || from >= s.len() || !seq_lt(s[from].provider_id, id) {
        from
    } else {
        insert_point(s, id, from + 1)
    }
}

/// Whether position `p` holds provider `id`.
pub open spec fn holds_at(s: Seq<ProviderView>, p: int, id: Seq<char>) -> bool {
    0 <= p < s.len() && s[p].provider_id == id
}

/// The registry after replacing (or adding) one provider's snapshot.
pub open spec fn upsert_provider(s: Seq<ProviderView>, e: ProviderView) -> Seq<ProviderView> {
    let p = insert_point(s, e.provider_id, 0);
    if holds_at(s, p, e.provider_id) {
        s.update(p, e)
    } else {
        s.insert(p, e)
    }
}

/// The registry without one provider.
pub open spec fn remove_provider_spec(s: Seq<ProviderView>, id: Seq<char>) -> Seq<ProviderView> {
    let p = insert_point(s, id, 0);
    if holds_at(s, p, id) {
        s.remove(p)
    } else {
        s
    }
}

/// The snapshot of a provider, if registered.
pub open spec fn lookup_provider(s: Seq<ProviderView>, id: Seq<char>) -> Option<ProviderView> {
    if exists|k: int| 0 <= k < s.len() && #[trigger] s[k].provider_id == id {
        Some(s[choose|k: int| 0 <= k < s.len() && #[trigger] s[k].provider_id == id])
    } else {
        None
    }
}

/// Whether a snapshot is still live at `now`.
pub open spec fn live_at(e: ProviderView, now: u64) -> bool {
    match e.expires_at {
        Some(t) => t > now,
        None => true,
    }
}

/// The corpora of the live providers, in provider order.
pub open spec fn live_corpora(s: Seq<ProviderView>, now: u64) -> Seq<DefinitionView>
    decreases s.len(),
{
    if s.len() == 0 {
        Seq::empty()
    } else {
        live_corpora(s.drop_last(), now) + if live_at(s.last(), now) {
            s.last().corpora
        } else {
            Seq::empty()
        }
    }
}

/// The providers still live at `now`, in order.
pub open spec fn live_providers(s: Seq<ProviderView>, now: u64) -> Seq<ProviderView>
    decreases s.len(),
{
    if s.len() == 0 {
        s
    } else if live_at(s.last(), now) {
        live_providers(s.drop_last(), now).push(s.last())
    } else {
        live_providers(s.drop_last(), now)
    }
}

/// Dropping the expired providers keeps the registry sorted, keeps only
/// providers it held, and leaves the live corpora as they were.
pub proof fn lemma_live_providers_sorted(s: Seq<ProviderView>, now: u64)
    ensures
        sorted_providers(s) ==> sorted_providers(live_providers(s, now)),
        forall|k: int| 0 <= k < live_providers(s, now).len() ==> s.contains(
            #[trigger] live_providers(s, now)[k],
        ) && live_at(live_providers(s, now)[k], now),
        live_corpora(live_providers(s, now), now) == live_corpora(s, now),
    decreases s.len(),
{
    if s.len() > 0 {
        let d = s.drop_last();
        lemma_live_providers_sorted(d, now);
        let h = live_providers(d, now);
        let l = live_providers(s, now);
        assert forall|k: int| 0 <= k < l.len() implies s.contains(#[trigger] l[k]) && live_at(l[k], now) by {
            if k < h.len() {
                assert(l[k] == h[k]);
                assert(d.contains(h[k]));
                let q = choose|q: int| 0 <= q < d.len() && d[q] == h[k];
                assert(s[q] == d[q]);
            } else {
                assert(l[k] == s[s.len() - 1]);
            }
        }
        if sorted_providers(s) {
            assert(sorted_providers(d)) by {
                assert forall|i: int, j: int| 0 <= i < j < d.len() implies seq_lt(
                    #[trigger] d[i].provider_id,
                    #[trigger] d[j].provider_id,
                ) by {
                    assert(d[i] == s[i] && d[j] == s[j]);
                }
            }
            assert forall|i: int, j: int| 0 <= i < j < l.len() implies seq_lt(
                #[trigger] l[i].provider_id,
                #[trigger] l[j].provider_id,
            ) by {
                if j < h.len() {
                    assert(l[i] == h[i] && l[j] == h[j]);
                } else {
                    assert(l[i] == h[i]);
                    assert(d.contains(h[i]));
                    let q = choose|q: int| 0 <= q < d.len() && d[q] == h[i];
                    assert(l[j] == s[s.len() - 1]);
                    assert(seq_lt(s[q].provider_id, s[s.len() - 1].provider_id));
                }
            }
        }
        if live_at(s.last(), now) {
            assert(l.drop_last() =~= h);
        }
    }
}

/// When a snapshot published at `now` with `ttl` milliseconds expires
/// (never, when the time would overflow).
pub open spec fn expiry(now: u64, ttl: Option<u64>) -> Option<u64> {
    match ttl {
        Some(t) => if now + t <= u64::MAX {
            Some((now + t) as u64)
        } else {
            None
        },
        None => None,
    }
}

/// The insertion point is the first position whose identifier does not
/// sort before `id`.
proof fn lemma_insert_point_at(s: Seq<ProviderView>, id: Seq<char>, from: int, p: int)
    requires
        0 <= from <= p <= s.len(),
        forall|k: int| from <= k < p ==> seq_lt(#[trigger] s[k].provider_id, id),
        p < s.len() ==> !seq_lt(s[p].provider_id, id),
    ensures
        insert_point(s, id, from) == p,
    decreases p - from,
{
    if from < p {
        lemma_insert_point_at(s, id, from + 1, p);
    }
}

/// Publishing the same snapshot twice leaves the registry as publishing it
/// once.
pub proof fn lemma_upsert_idempotent(s: Seq<ProviderView>, e: ProviderView)
    requires
        sorted_providers(s),
    ensures
        upsert_provider(upsert_provider(s, e), e) == upsert_provider(s, e),
{
    let id = e.provider_id;
    lemma_insert_point_sorted(s, id);
    let p = insert_point(s, id, 0);
    let r = upsert_provider(s, e);
    assert(r[p] == e);
    lemma_lt_irreflexive(id);
    assert forall|k: int| 0 <= k < p implies seq_lt(#[trigger] r[k].provider_id, id) by {
        assert(r[k] == s[k]);
    }
    lemma_insert_point_at(r, id, 0, p);
    assert(holds_at(r, p, id));
    assert(r.update(p, e) =~= r);
}

proof fn lemma_live_corpora_concat(a: Seq<ProviderView>, b: Seq<ProviderView>, now: u64)
    ensures
        live_corpora(a + b, now) == live_corpora(a, now) + live_corpora(b, now),
    decreases b.len(),
{
    if b.len() == 0 {
        assert(a + b =~= a);
        assert(live_corpora(a, now) + live_corpora(b, now) =~= live_corpora(a, now));
    } else {
        lemma_live_corpora_concat(a, b.drop_last(), now);
        assert((a + b).drop_last() =~= a + b.drop_last());
        assert((a + b).last() == b.last());
        let x = live_corpora(a, now);
        let y = live_corpora(b.drop_last(), now);
        if live_at(b.last(), now) {
            assert(x + y + b.last().corpora =~= x + (y + b.last().corpora));
        } else {
            assert(x + y + Seq::empty() =~= x + (y + Seq::empty()));
        }
    }
}

/// A live snapshot published for a provider appears in the live corpora as
/// that provider's block, between the corpora of the providers whose
/// identifiers sort before it and those whose identifiers sort after it; the
/// provider's earlier snapshot is gone.
pub proof fn lemma_upsert_block(s: Seq<ProviderView>, e: ProviderView, now: u64)
    requires
        sorted_providers(s),
        live_at(e, now),
    ensures
        ({
            let p = insert_point(s, e.provider_id, 0);
            let rest = if holds_at(s, p, e.provider_id) {
                s.skip(p + 1)
            } else {
                s.skip(p)
            };
            &&& forall|k: int| 0 <= k < p ==> seq_lt(#[trigger] s[k].provider_id, e.provider_id)
            &&& forall|k: int| 0 <= k < rest.len() ==> seq_lt(e.provider_id, #[trigger] rest[k].provider_id)
            &&& live_corpora(upsert_provider(s, e), now) == live_corpora(s.take(p), now) + e.corpora
                + live_corpora(rest, now)
        }),
{
    let id = e.provider_id;
    lemma_insert_point_sorted(s, id);
    let p = insert_point(s, id, 0);
    let rest = if holds_at(s, p, id) {
        s.skip(p + 1)
    } else {
        s.skip(p)
    };
    assert forall|k: int| 0 <= k < rest.len() implies seq_lt(id, #[trigger] rest[k].provider_id) by {
        if holds_at(s, p, id) {
            assert(rest[k] == s[k + p + 1]);
        } else {
            assert(rest[k] == s[k + p]);
        }
    }
    assert(upsert_provider(s, e) =~= s.take(p) + seq![e] + rest);
    lemma_live_corpora_concat(s.take(p) + seq![e], rest, now);
    lemma_live_corpora_concat(s.take(p), seq![e], now);
    assert(seq![e].drop_last() =~= Seq::<ProviderView>::empty());
    assert(live_corpora(seq![e].drop_last(), now) == Seq::<DefinitionView>::empty());
    assert(seq![e].last() == e);
    assert(Seq::<DefinitionView>::empty() + e.corpora =~= e.corpora);
    assert(live_corpora(seq![e], now) =~= e.corpora);
}

/// Removing a provider that was just added to a registry without it gives
/// the registry back.
pub proof fn lemma_remove_after_fresh_upsert(s: Seq<ProviderView>, e: ProviderView)
    requires
        sorted_providers(s),
        lookup_provider(s, e.provider_id) is None,
    ensures
        remove_provider_spec(upsert_provider(s, e), e.provider_id) == s,
{
    let id = e.provider_id;
    lemma_insert_point_sorted(s, id);
    let p = insert_point(s, id, 0);
    assert(!holds_at(s, p, id)) by {
        if holds_at(s, p, id) {
            assert(s[p].provider_id == id);
        }
    }
    let r = upsert_provider(s, e);
    assert(r == s.insert(p, e));
    lemma_lt_irreflexive(id);
    assert forall|k: int| 0 <= k < p implies seq_lt(#[trigger] r[k].provider_id, id) by {
        assert(r[k] == s[k]);
    }
    lemma_insert_point_at(r, id, 0, p);
    assert(r.remove(p) =~= s);
}

/// Dropping a snapshot that is not live leaves the live corpora unchanged.
proof fn lemma_live_corpora_remove(s: Seq<ProviderView>, p: int, now: u64)
    requires
        0 <= p < s.len(),
        !live_at(s[p], now),
    ensures
        live_corpora(s, now) == live_corpora(s.remove(p), now),
    decreases s.len(),
{
    if p == s.len() - 1 {
        assert(s.remove(p) =~= s.drop_last());
        assert(live_corpora(s, now) =~= live_corpora(s.drop_last(), now));
    } else {
        lemma_live_corpora_remove(s.drop_last(), p, now);
        assert(s.remove(p).drop_last() =~= s.drop_last().remove(p));
        assert(s.remove(p).last() == s.last());
    }
}

/// A provider whose snapshot has expired contributes nothing: the live
/// corpora are those of the registry without it.
pub proof fn lemma_expired_provider_absent(s: Seq<ProviderView>, id: Seq<char>, now: u64)
    requires
        sorted_providers(s),
        lookup_provider(s, id) matches Some(e) && !live_at(e, now),
    ensures
        live_corpora(s, now) == live_corpora(remove_provider_spec(s, id), now),
{
    lemma_insert_point_sorted(s, id);
    lemma_lookup_unique(s, id);
    let p = insert_point(s, id, 0);
    let k = choose|k: int| 0 <= k < s.len() && #[trigger] s[k].provider_id == id;
    if k < p {
        lemma_lt_irreflexive(id);
    } else if k > p {
        lemma_lt_irreflexive(id);
    }
    assert(holds_at(s, p, id));
    lemma_live_corpora_remove(s, p, now);
}

/// A snapshot published at `now` with a lifetime of `ttl` milliseconds is
/// live exactly until `now + ttl`.
pub proof fn lemma_ttl_lifetime(e: ProviderView, published: u64, ttl: u64, now: u64)
    requires
        e.expires_at == expiry(published, Some(ttl)),
        published + ttl <= u64::MAX,
    ensures
        live_at(e, now) <==> now < published + ttl,
{
}

/// Whether a provider may publish these corpora.
pub open spec fn publishable(provider_id: Seq<char>, corpora: Seq<DefinitionView>) -> bool {
    &&& valid_provider_id_spec(provider_id)
    &&& unique_ids(corpora)
    &&& forall|k: int| 0 <= k < corpora.len() ==> valid_definition(#[trigger] corpora[k])
}

proof fn lemma_insert_point(s: Seq<ProviderView>, id: Seq<char>, from: int)
    requires
        0 <= from <= s.len(),
        forall|k: int| 0 <= k < from ==> seq_lt(#[trigger] s[k].provider_id, id),
    ensures
        from <= insert_point(s, id, from) <= s.len(),
        forall|k: int| 0 <= k < insert_point(s, id, from) ==> seq_lt(#[trigger] s[k].provider_id, id),
        insert_point(s, id, from) < s.len() ==> !seq_lt(s[insert_point(s, id, from)].provider_id, id),
    decreases s.len() - from,
{
    if from < s.len() && seq_lt(s[from].provider_id, id) {
        lemma_insert_point(s, id, from + 1);
    }
}

/// In a sorted registry, the elements from the insertion point on sort after
/// `id`, except one equal to it at the insertion point.
proof fn lemma_insert_point_sorted(s: Seq<ProviderView>, id: Seq<char>)
    requires
        sorted_providers(s),
    ensures
        0 <= insert_point(s, id, 0) <= s.len(),
        forall|k: int| 0 <= k < insert_point(s, id, 0) ==> seq_lt(#[trigger] s[k].provider_id, id),
        forall|k: int|
            insert_point(s, id, 0) < k < s.len() ==> seq_lt(id, #[trigger] s[k].provider_id),
        forall|k: int|
            insert_point(s, id, 0) <= k < s.len() && !holds_at(s, insert_point(s, id, 0), id)
                ==> seq_lt(id, #[trigger] s[k].provider_id),
{
    lemma_insert_point(s, id, 0);
    let p = insert_point(s, id, 0);
    if p < s.len() {
        lemma_lt_total(s[p].provider_id, id);
        assert forall|k: int| p < k < s.len() implies seq_lt(id, #[trigger] s[k].provider_id) by {
            assert(seq_lt(s[p].provider_id, s[k].provider_id));
            if s[p].provider_id != id {
                lemma_lt_transitive(id, s[p].provider_id, s[k].provider_id);
            }
        }
    }
}

/// Replacing a provider keeps the registry sorted, replaces exactly that
/// provider's snapshot and leaves every other provider's snapshot as it was.
pub proof fn lemma_upsert_replaces_one(s: Seq<ProviderView>, e: ProviderView)
    requires
        sorted_providers(s),
    ensures
        sorted_providers(upsert_provider(s, e)),
        lookup_provider(upsert_provider(s, e), e.provider_id) == Some(e),
        forall|id: Seq<char>|
            id != e.provider_id ==> lookup_provider(upsert_provider(s, e), id) == lookup_provider(
                s,
                id,
            ),
{
    let id = e.provider_id;
    lemma_insert_point_sorted(s, id);
    let p = insert_point(s, id, 0);
    let r = upsert_provider(s, e);
    if holds_at(s, p, id) {
        assert forall|i: int, j: int| 0 <= i < j < r.len() implies seq_lt(
            #[trigger] r[i].provider_id,
            #[trigger] r[j].provider_id,
        ) by {
            assert(seq_lt(s[i].provider_id, s[j].provider_id));
        }
    } else {
        assert forall|i: int, j: int| 0 <= i < j < r.len() implies seq_lt(
            #[trigger] r[i].provider_id,
            #[trigger] r[j].provider_id,
        ) by {
            if j < p {
                assert(r[i] == s[i] && r[j] == s[j]);
            } else if j == p {
                assert(r[i] == s[i]);
            } else if i == p {
                assert(r[j] == s[j - 1]);
            } else if i < p {
                assert(r[i] == s[i] && r[j] == s[j - 1]);
                lemma_lt_transitive(s[i].provider_id, id, s[j - 1].provider_id);
            } else {
                assert(r[i] == s[i - 1] && r[j] == s[j - 1]);
            }
        }
    }
    assert(r[p] == e);
    assert(lookup_provider(r, id) == Some(e)) by {
        assert(r[p].provider_id == id);
        let k = choose|k: int| 0 <= k < r.len() && #[trigger] r[k].provider_id == id;
        if k != p {
            if k < p {
                assert(seq_lt(r[k].provider_id, r[p].provider_id));
            } else {
                assert(seq_lt(r[p].provider_id, r[k].provider_id));
            }
            lemma_lt_irreflexive(id);
        }
    }
    assert forall|other: Seq<char>| other != id implies lookup_provider(r, other) == lookup_provider(
        s,
        other,
    ) by {
        lemma_lookup_unique(s, other);
        lemma_lookup_unique(r, other);
        if exists|k: int| 0 <= k < s.len() && #[trigger] s[k].provider_id == other {
            let k = choose|k: int| 0 <= k < s.len() && #[trigger] s[k].provider_id == other;
            let kr = if holds_at(s, p, id) || k < p {
                k
            } else {
                k + 1
            };
            assert(r[kr] == s[k]);
        }
        if exists|k: int| 0 <= k < r.len() && #[trigger] r[k].provider_id == other {
            let k = choose|k: int| 0 <= k < r.len() && #[trigger] r[k].provider_id == other;
            assert(k != p);
            let ks = if holds_at(s, p, id) || k < p {
                k
            } else {
                k - 1
            };
            assert(s[ks] == r[k]);
        }
    }
}

/// In a sorted registry a provider occurs at most once, so a lookup finds
/// every position holding it.
proof fn lemma_lookup_unique(s: Seq<ProviderView>, id: Seq<char>)
    requires
        sorted_providers(s),
    ensures
        forall|k: int|
            0 <= k < s.len() && #[trigger] s[k].provider_id == id ==> lookup_provider(s, id)
                == Some(s[k]),
{
    assert forall|k: int| 0 <= k < s.len() && #[trigger] s[k].provider_id == id implies lookup_provider(
        s,
        id,
    ) == Some(s[k]) by {
        let c = choose|c: int| 0 <= c < s.len() && #[trigger] s[c].provider_id == id;
        if c != k {
            if c < k {
                assert(seq_lt(s[c].provider_id, s[k].provider_id));
            } else {
                assert(seq_lt(s[k].provider_id, s[c].provider_id));
            }
            lemma_lt_irreflexive(id);
        }
    }
}

/// Removing a provider keeps the registry sorted, drops that provider and
/// leaves every other provider's snapshot as it was.
pub proof fn lemma_remove_drops_one(s: Seq<ProviderView>, id: Seq<char>)
    requires
        sorted_providers(s),
    ensures
        sorted_providers(remove_provider_spec(s, id)),
        lookup_provider(remove_provider_spec(s, id), id) is None,
        forall|other: Seq<char>|
            other != id ==> lookup_provider(remove_provider_spec(s, id), other) == lookup_provider(
                s,
                other,
            ),
{
    lemma_insert_point_sorted(s, id);
    let p = insert_point(s, id, 0);
    let r = remove_provider_spec(s, id);
    if holds_at(s, p, id) {
        assert forall|i: int, j: int| 0 <= i < j < r.len() implies seq_lt(
            #[trigger] r[i].provider_id,
            #[trigger] r[j].provider_id,
        ) by {
            let si = if i < p {
                i
            } else {
                i + 1
            };
            let sj = if j < p {
                j
            } else {
                j + 1
            };
            assert(r[i] == s[si] && r[j] == s[sj]);
        }
        assert forall|k: int| 0 <= k < r.len() implies #[trigger] r[k].provider_id != id by {
            if k < p {
                assert(seq_lt(s[k].provider_id, id));
                lemma_lt_irreflexive(id);
            } else {
                assert(r[k] == s[k + 1]);
                assert(seq_lt(id, s[k + 1].provider_id));
                lemma_lt_irreflexive(id);
            }
        }
    } else {
        assert forall|k: int| 0 <= k < r.len() implies #[trigger] r[k].provider_id != id by {
            if k < p {
                assert(seq_lt(s[k].provider_id, id));
            } else {
                assert(seq_lt(id, s[k].provider_id));
            }
            lemma_lt_irreflexive(id);
        }
    }
    assert forall|other: Seq<char>| other != id implies lookup_provider(r, other) == lookup_provider(
        s,
        other,
    ) by {
        lemma_lookup_unique(s, other);
        lemma_lookup_unique(r, other);
        if exists|k: int| 0 <= k < s.len() && #[trigger] s[k].provider_id == other {
            let k = choose|k: int| 0 <= k < s.len() && #[trigger] s[k].provider_id == other;
            if holds_at(s, p, id) {
                assert(k != p);
                let kr = if k < p {
                    k
                } else {
                    k - 1
                };
                assert(r[kr] == s[k]);
            } else {
                assert(r[k] == s[k]);
            }
        }
        if exists|k: int| 0 <= k < r.len() && #[trigger] r[k].provider_id == other {
            let k = choose|k: int| 0 <= k < r.len() && #[trigger] r[k].provider_id == other;
            if holds_at(s, p, id) {
                let ks = if k < p {
                    k
                } else {
                    k + 1
                };
                assert(s[ks] == r[k]);
            } else {
                assert(s[k] == r[k]);
            }
        }
    }
}

/// Transient runtime corpora, one atomically replaced snapshot per provider.
pub struct DynamicCorpusSource {
    epoch: std::time::Instant,
    snapshots: Vec<ProviderSnapshot>,
}

impl View for DynamicCorpusSource {
    type V = Seq<ProviderView>;

    closed spec fn view(&self) -> Seq<ProviderView> {
        providers_view(self.snapshots@)
    }
}

impl DynamicCorpusSource {
    /// The registry's invariant: providers sorted by identifier.
    pub open spec fn wf(&self) -> bool {
        sorted_providers(self@)
    }

    /// An empty registry.
    pub fn new() -> (r: Self)
        ensures
            r.wf(),
            r@ == Seq::<ProviderView>::empty(),
    {
        let r = DynamicCorpusSource { epoch: instant_now(), snapshots: Vec::new() };
        assert(r@ =~= Seq::<ProviderView>::empty());
        r
    }

    /// Milliseconds on the registry's clock.
    fn now(&self) -> u64 {
        millis_since(&self.epoch)
    }

    /// The identifier of this source.
    pub fn source_id(&self) -> (r: &'static str)
        ensures
            r@ == "runtime-dynamic"@,
    {
        "runtime-dynamic"
    }

    /// Replaces one provider's whole snapshot as published at time `now`.
    pub fn replace_snapshot_at(
        &mut self,
        provider_id: &str,
        corpora: Vec<CorpusDefinition>,
        ttl_millis: Option<u64>,
        now: u64,
    ) -> (r: Result<(), String>)
        requires
            old(self).wf(),
        ensures
            final(self).wf(),
            r is Ok <==> publishable(provider_id@, definitions_view(corpora@)),
            r is Ok ==> final(self)@ == upsert_provider(
                old(self)@,
                ProviderView {
                    provider_id: provider_id@,
                    expires_at: expiry(now, ttl_millis),
                    corpora: definitions_view(corpora@),
                },
            ),
            r is Err ==> final(self)@ == old(self)@,
    {
        if !valid_provider_id(provider_id) {
            return Err(crate::corpus::message(&["invalid dynamic corpus provider ID ", provider_id]));
        }
        match validate_unique(&corpora) {
            Ok(()) => {},
            Err(e) => {
                return Err(e);
            },
        }
        let mut k: usize = 0;
        while k < corpora.len()
            invariant
                0 <= k <= corpora@.len(),
                self.wf(),
                self@ == old(self)@,
                forall|j: int| 0 <= j < k ==> valid_definition(#[trigger] definitions_view(corpora@)[j]),
            decreases corpora@.len() - k,
        {
            assert(definitions_view(corpora@)[k as int] == corpora@[k as int]@);
            match corpora[k].validate() {
                Ok(()) => {},
                Err(e) => {
                    return Err(e);
                },
            }
            k = k + 1;
        }
        let expires_at = match ttl_millis {
            Some(t) => now.checked_add(t),
            None => None,
        };
        let entry = ProviderSnapshot { provider_id: owned(provider_id), expires_at, corpora };
        let ghost s = self@;
        let ghost e = entry@;
        proof {
            lemma_upsert_replaces_one(s, e);
        }
        let mut p: usize = 0;
        while p < self.snapshots.len() && str_less(self.snapshots[p].provider_id.as_str(), provider_id)
            invariant
                0 <= p <= self.snapshots@.len(),
                s == providers_view(self.snapshots@),
                insert_point(s, provider_id@, 0) == insert_point(s, provider_id@, p as int),
            decreases self.snapshots@.len() - p,
        {
            assert(s[p as int] == self.snapshots@[p as int]@);
            p = p + 1;
        }
        proof {
            if p < self.snapshots@.len() {
                assert(s[p as int] == self.snapshots@[p as int]@);
            }
        }
        if p < self.snapshots.len() && str_eq(self.snapshots[p].provider_id.as_str(), provider_id) {
            assert(s[p as int] == self.snapshots@[p as int]@);
            self.snapshots.set(p, entry);
            assert(self@ =~= s.update(p as int, e));
        } else {
            proof {
                if p < self.snapshots@.len() {
                    assert(s[p as int] == self.snapshots@[p as int]@);
                }
            }
            self.snapshots.insert(p, entry);
            assert(self@ =~= s.insert(p as int, e));
        }
        Ok(())
    }

    /// Replaces one provider's whole snapshot; with `ttl_millis` it expires
    /// that many milliseconds from now on the registry's clock.
    pub fn replace_snapshot(
        &mut self,
        provider_id: &str,
        corpora: Vec<CorpusDefinition>,
        ttl_millis: Option<u64>,
    ) -> (r: Result<(), String>)
        requires
            old(self).wf(),
        ensures
            final(self).wf(),
            r is Ok <==> publishable(provider_id@, definitions_view(corpora@)),
            r is Ok ==> exists|now: u64|
                final(self)@ == upsert_provider(
                    old(self)@,
                    ProviderView {
                        provider_id: provider_id@,
                        expires_at: #[trigger] expiry(now, ttl_millis),
                        corpora: definitions_view(corpora@),
                    },
                ),
            ttl_millis is None && r is Ok ==> final(self)@ == upsert_provider(
                old(self)@,
                ProviderView {
                    provider_id: provider_id@,
                    expires_at: None,
                    corpora: definitions_view(corpora@),
                },
            ),
            r is Err ==> final(self)@ == old(self)@,
    {
        let now = self.now();
        let r = self.replace_snapshot_at(provider_id, corpora, ttl_millis, now);
        assert(r is Ok ==> final(self)@ == upsert_provider(
            old(self)@,
            ProviderView {
                provider_id: provider_id@,
                expires_at: expiry(now, ttl_millis),
                corpora: definitions_view(corpora@),
            },
        ));
        r
    }

    /// Drops one provider's snapshot, if any.
    pub fn remove_provider(&mut self, provider_id: &str) -> (r: Result<(), String>)
        requires
            old(self).wf(),
        ensures
            final(self).wf(),
            r is Ok,
            final(self)@ == remove_provider_spec(old(self)@, provider_id@),
    {
        let ghost s = self@;
        proof {
            lemma_remove_drops_one(s, provider_id@);
        }
        let mut p: usize = 0;
        while p < self.snapshots.len() && str_less(self.snapshots[p].provider_id.as_str(), provider_id)
            invariant
                0 <= p <= self.snapshots@.len(),
                s == providers_view(self.snapshots@),
                insert_point(s, provider_id@, 0) == insert_point(s, provider_id@, p as int),
            decreases self.snapshots@.len() - p,
        {
            assert(s[p as int] == self.snapshots@[p as int]@);
            p = p + 1;
        }
        proof {
            if p < self.snapshots@.len() {
                assert(s[p as int] == self.snapshots@[p as int]@);
            }
        }
        if p < self.snapshots.len() && str_eq(self.snapshots[p].provider_id.as_str(), provider_id) {
            self.snapshots.remove(p);
            assert(self@ =~= s.remove(p as int));
        }
        Ok(())
    }

    /// The corpora of the providers still live at `now`, in provider order;
    /// the expired providers are dropped from the registry.
    pub fn snapshot_at(&mut self, now: u64) -> (r: Vec<CorpusDefinition>)
        ensures
            definitions_view(r@) == live_corpora(old(self)@, now),
            final(self)@ == live_providers(old(self)@, now),
            old(self).wf() ==> final(self).wf(),
    {
        let ghost s = self@;
        let mut r: Vec<CorpusDefinition> = Vec::new();
        let mut kept: Vec<ProviderSnapshot> = Vec::new();
        let mut i: usize = 0;
        while i < self.snapshots.len()
            invariant
                0 <= i <= self.snapshots@.len(),
                s == providers_view(self.snapshots@),
                definitions_view(r@) == live_corpora(s.take(i as int), now),
                providers_view(kept@) == live_providers(s.take(i as int), now),
            decreases self.snapshots@.len() - i,
        {
            assert(s.take(i + 1).drop_last() =~= s.take(i as int));
            assert(s.take(i + 1).last() == self.snapshots@[i as int]@);
            let live = match self.snapshots[i].expires_at {
                Some(t) => t > now,
                None => true,
            };
            let ghost before = definitions_view(r@);
            let ghost kept_before = providers_view(kept@);
            if live {
                let more = clone_definitions(&self.snapshots[i].corpora);
                let mut more = more;
                r.append(&mut more);
                assert(definitions_view(r@) =~= before + definitions_view(self.snapshots@[i as int].corpora@));
                kept.push(self.snapshots[i].clone());
                assert(providers_view(kept@) =~= kept_before.push(s[i as int]));
            } else {
                assert(before =~= before + Seq::<DefinitionView>::empty());
            }
            i = i + 1;
        }
        assert(s.take(s.len() as int) =~= s);
        proof {
            lemma_live_providers_sorted(s, now);
        }
        self.snapshots = kept;
        r
    }

    /// The corpora of the providers still live now; the expired providers
    /// are dropped from the registry.
    pub fn snapshot(&mut self) -> (r: Result<Vec<CorpusDefinition>, String>)
        ensures
            old(self).wf() ==> final(self).wf(),
            r matches Ok(v) && exists|now: u64|
                definitions_view(v@) == #[trigger] live_corpora(old(self)@, now) && final(self)@
                    == live_providers(old(self)@, now),
    {
        let now = self.now();
        let ghost before = self@;
        let v = self.snapshot_at(now);
        assert(definitions_view(v@) == live_corpora(before, now) && self@ == live_providers(before, now));
        Ok(v)
    }
}

impl Clone for DynamicCorpusSource {
    fn clone(&self) -> (r: Self)
        ensures
            r@ == self@,
    {
        let mut snapshots: Vec<ProviderSnapshot> = Vec::new();
        let mut i: usize = 0;
        while i < self.snapshots.len()
            invariant
                0 <= i <= self.snapshots@.len(),
                providers_view(snapshots@) == providers_view(self.snapshots@.take(i as int)),
            decreases self.snapshots@.len() - i,
        {
            let ghost before = snapshots@;
            snapshots.push(self.snapshots[i].clone());
            assert(providers_view(snapshots@) =~= providers_view(before).push(self.snapshots@[i as int]@));
            assert(providers_view(self.snapshots@.take(i + 1)) =~= providers_view(
                self.snapshots@.take(i as int),
            ).push(self.snapshots@[i as int]@));
            i = i + 1;
        }
        assert(self.snapshots@.take(self.snapshots@.len() as int) =~= self.snapshots@);
        DynamicCorpusSource { epoch: self.epoch, snapshots }
    }
}

// ---------------------------------------------------------------------------
// The catalog.
// ---------------------------------------------------------------------------

/// A fixed list of corpora published under one source identifier.
#[derive(Debug)]
pub struct StaticCorpusSource {
    source_id: String,
    corpora: Vec<CorpusDefinition>,
}

impl View for StaticCorpusSource {
    type V = (Seq<char>, Seq<DefinitionView>);

    closed spec fn view(&self) -> (Seq<char>, Seq<DefinitionView>) {
        (self.source_id@, definitions_view(self.corpora@))
    }
}

impl StaticCorpusSource {
    /// A source publishing `corpora` under `source_id`.
    pub fn new(source_id: String, corpora: Vec<CorpusDefinition>) -> (r: Self)
        ensures
            r@ == (source_id@, definitions_view(corpora@)),
    {
        StaticCorpusSource { source_id, corpora }
    }

    /// The identifier of this source.
    pub fn source_id(&self) -> (r: &str)
        ensures
            r@ == self@.0,
    {
        self.source_id.as_str()
    }

    /// The corpora of this source.
    pub fn snapshot(&self) -> (r: Result<Vec<CorpusDefinition>, String>)
        ensures
            r matches Ok(v) && definitions_view(v@) == self@.1,
    {
        Ok(clone_definitions(&self.corpora))
    }
}

impl Clone for StaticCorpusSource {
    fn clone(&self) -> (r: Self)
        ensures
            r@ == self@,
    {
        StaticCorpusSource { source_id: self.source_id.clone(), corpora: clone_definitions(&self.corpora) }
    }
}

/// What every corpus provider offers: an identifier and a snapshot of its
/// corpora. The catalog reads static sources and the runtime registry
/// through it; other providers may implement it too.
pub trait CorpusSource: Send + Sync {
    /// The identifier of this source.
    fn source_id(&self) -> &str;

    /// The corpora of this source now. A source may drop data that has
    /// expired while it reads.
    fn snapshot(&mut self) -> Result<Vec<CorpusDefinition>, String>;
}

impl CorpusSource for StaticCorpusSource {
    fn source_id(&self) -> (r: &str)
        ensures
            r@ == self@.0,
    {
        StaticCorpusSource::source_id(self)
    }

    fn snapshot(&mut self) -> (r: Result<Vec<CorpusDefinition>, String>)
        ensures
            r matches Ok(v) && definitions_view(v@) == old(self)@.1,
            final(self)@ == old(self)@,
    {
        StaticCorpusSource::snapshot(self)
    }
}

impl CorpusSource for DynamicCorpusSource {
    fn source_id(&self) -> (r: &str)
        ensures
            r@ == "runtime-dynamic"@,
    {
        DynamicCorpusSource::source_id(self)
    }

    fn snapshot(&mut self) -> (r: Result<Vec<CorpusDefinition>, String>)
        ensures
            old(self).wf() ==> final(self).wf(),
            r matches Ok(v) && exists|now: u64|
                definitions_view(v@) == #[trigger] live_corpora(old(self)@, now) && final(self)@
                    == live_providers(old(self)@, now),
    {
        DynamicCorpusSource::snapshot(self)
    }
}

/// The views of a list of static sources.
pub open spec fn statics_view(v: Seq<StaticCorpusSource>) -> Seq<(Seq<char>, Seq<DefinitionView>)> {
    v.map_values(|s: StaticCorpusSource| s@)
}

/// The mathematical content of a catalog.
pub struct CatalogView {
    pub sources: Seq<(Seq<char>, Seq<DefinitionView>)>,
    pub dynamic: Seq<ProviderView>,
    pub graph: Option<ProjectionView>,
}

/// The corpora of a list of sources, in order.
pub open spec fn flatten_sources(lists: Seq<(Seq<char>, Seq<DefinitionView>)>) -> Seq<DefinitionView>
    decreases lists.len(),
{
    if lists.len() == 0 {
        Seq::empty()
    } else {
        flatten_sources(lists.drop_last()) + lists.last().1
    }
}

/// The corpora outside the disabled domains.
pub open spec fn enabled_corpora(v: Seq<DefinitionView>, disabled: Set<Seq<char>>) -> Seq<DefinitionView>
    decreases v.len(),
{
    if v.len() == 0 {
        Seq::empty()
    } else if disabled.contains(v.last().domain) {
        enabled_corpora(v.drop_last(), disabled)
    } else {
        enabled_corpora(v.drop_last(), disabled).push(v.last())
    }
}

/// The domains switched off in the graph.
pub open spec fn disabled_domains(c: CatalogView) -> Set<Seq<char>> {
    match c.graph {
        Some(g) => g.disabled_domains,
        None => Set::empty(),
    }
}

/// The corpora of the graph.
pub open spec fn persisted_corpora(c: CatalogView) -> Seq<DefinitionView> {
    match c.graph {
        Some(g) => g.corpora,
        None => Seq::empty(),
    }
}

/// The graph revision (zero without a graph).
pub open spec fn graph_revision(c: CatalogView) -> u64 {
    match c.graph {
        Some(g) => g.revision,
        None => 0,
    }
}

/// The source corpora outside disabled domains: the static sources in
/// order, then the live runtime corpora.
pub open spec fn source_corpora(c: CatalogView, now: u64) -> Seq<DefinitionView> {
    enabled_corpora(flatten_sources(c.sources) + live_corpora(c.dynamic, now), disabled_domains(c))
}

/// Whether the source corpora may join the persisted ones: each is valid and
/// none shares an identifier with another or with a persisted corpus.
pub open spec fn mergeable(persisted: Seq<DefinitionView>, kept: Seq<DefinitionView>) -> bool {
    &&& forall|k: int| 0 <= k < kept.len() ==> valid_definition(#[trigger] kept[k])
    &&& unique_ids(kept)
    &&& forall|k: int, j: int|
        0 <= k < kept.len() && 0 <= j < persisted.len() ==> (#[trigger] kept[k]).id != (
        #[trigger] persisted[j]).id
}

/// Whether the static sources' corpora (outside disabled domains) merge with
/// the persisted ones; only then is the runtime registry read.
pub open spec fn statics_ok(c: CatalogView) -> bool {
    mergeable(persisted_corpora(c), enabled_corpora(flatten_sources(c.sources), disabled_domains(c)))
}

/// The catalog after a snapshot at `now`: when the static sources merged,
/// the runtime registry was read and dropped its expired providers.
pub open spec fn catalog_after_snapshot(c: CatalogView, now: u64) -> CatalogView {
    if statics_ok(c) {
        CatalogView { dynamic: live_providers(c.dynamic, now), ..c }
    } else {
        c
    }
}

proof fn lemma_enabled_concat(a: Seq<DefinitionView>, b: Seq<DefinitionView>, d: Set<Seq<char>>)
    ensures
        enabled_corpora(a + b, d) == enabled_corpora(a, d) + enabled_corpora(b, d),
    decreases b.len(),
{
    if b.len() == 0 {
        assert(a + b =~= a);
        assert(enabled_corpora(a, d) + enabled_corpora(b, d) =~= enabled_corpora(a, d));
    } else {
        lemma_enabled_concat(a, b.drop_last(), d);
        assert((a + b).drop_last() =~= a + b.drop_last());
        assert((a + b).last() == b.last());
        if !d.contains(b.last().domain) {
            assert(enabled_corpora(a, d) + enabled_corpora(b, d) =~= (enabled_corpora(a, d)
                + enabled_corpora(b.drop_last(), d)).push(b.last()));
        }
    }
}

/// When the static sources do not merge, neither does the whole catalog.
proof fn lemma_statics_first(c: CatalogView, now: u64)
    requires
        !statics_ok(c),
    ensures
        catalog_snapshot_spec(c, now) is None,
{
    let d = disabled_domains(c);
    let a = flatten_sources(c.sources);
    let b = live_corpora(c.dynamic, now);
    lemma_enabled_concat(a, b, d);
    let x = enabled_corpora(a, d);
    let y = enabled_corpora(b, d);
    let p = persisted_corpora(c);
    if mergeable(p, x + y) {
        assert forall|k: int| 0 <= k < x.len() implies valid_definition(#[trigger] x[k]) by {
            assert((x + y)[k] == x[k]);
        }
        assert forall|i: int, j: int| 0 <= i < j < x.len() implies (#[trigger] x[i]).id != (
        #[trigger] x[j]).id by {
            assert((x + y)[i] == x[i] && (x + y)[j] == x[j]);
        }
        assert forall|k: int, j: int| 0 <= k < x.len() && 0 <= j < p.len() implies (#[trigger] x[k]).id
            != (#[trigger] p[j]).id by {
            assert((x + y)[k] == x[k]);
        }
        assert(mergeable(p, x));
    }
}

/// Inserts after every element whose identifier does not sort after `x`'s.
pub open spec fn insert_by_id(s: Seq<DefinitionView>, x: DefinitionView) -> Seq<DefinitionView>
    decreases s.len(),
{
    if s.len() == 0 {
        seq![x]
    } else if seq_lt(x.id, s.last().id) {
        insert_by_id(s.drop_last(), x).push(s.last())
    } else {
        s.push(x)
    }
}

/// Stable sort by identifier.
pub open spec fn sort_by_id(s: Seq<DefinitionView>) -> Seq<DefinitionView>
    decreases s.len(),
{
    if s.len() == 0 {
        s
    } else {
        insert_by_id(sort_by_id(s.drop_last()), s.last())
    }
}

/// Where `insert_by_id` places `x`.
pub open spec fn id_pos(s: Seq<DefinitionView>, x: DefinitionView) -> int
    decreases s.len(),
{
    if s.len() == 0 {
        0
    } else if seq_lt(x.id, s.last().id) {
        id_pos(s.drop_last(), x)
    } else {
        s.len() as int
    }
}

proof fn lemma_insert_by_id_pos(s: Seq<DefinitionView>, x: DefinitionView)
    ensures
        0 <= id_pos(s, x) <= s.len(),
        insert_by_id(s, x) == s.insert(id_pos(s, x), x),
    decreases s.len(),
{
    if s.len() == 0 {
        assert(s.insert(0, x) =~= seq![x]);
    } else if seq_lt(x.id, s.last().id) {
        lemma_insert_by_id_pos(s.drop_last(), x);
        let p = id_pos(s.drop_last(), x);
        assert(s.drop_last().insert(p, x).push(s.last()) =~= s.insert(p, x));
    } else {
        assert(s.push(x) =~= s.insert(s.len() as int, x));
    }
}

proof fn lemma_id_pos_prefix(s: Seq<DefinitionView>, x: DefinitionView, p: int)
    requires
        0 <= p <= s.len(),
        forall|k: int| p <= k < s.len() ==> seq_lt(x.id, #[trigger] s[k].id),
    ensures
        id_pos(s, x) == id_pos(s.take(p), x),
    decreases s.len() - p,
{
    if p < s.len() {
        assert(s.drop_last() =~= s.take(s.len() - 1));
        assert(seq_lt(x.id, s.last().id));
        lemma_id_pos_prefix(s.drop_last(), x, p);
        assert(s.drop_last().take(p) =~= s.take(p));
    } else {
        assert(s.take(p) =~= s);
    }
}

/// Stable insertion of one corpus by identifier.
fn insert_definition(sorted: &mut Vec<CorpusDefinition>, x: CorpusDefinition)
    ensures
        definitions_view(final(sorted)@) == insert_by_id(definitions_view(old(sorted)@), x@),
{
    let ghost s = definitions_view(sorted@);
    let mut pos: usize = sorted.len();
    while pos > 0 && str_less(x.id.as_str(), sorted[pos - 1].id.as_str())
        invariant
            0 <= pos <= sorted@.len(),
            s == definitions_view(sorted@),
            forall|k: int| pos <= k < s.len() ==> seq_lt(x@.id, #[trigger] s[k].id),
        decreases pos,
    {
        assert(s[pos - 1] == sorted@[pos - 1]@);
        pos = pos - 1;
    }
    proof {
        lemma_id_pos_prefix(s, x@, pos as int);
        lemma_insert_by_id_pos(s, x@);
        if pos > 0 {
            assert(s[pos - 1] == sorted@[pos - 1]@);
            assert(s.take(pos as int).drop_last() =~= s.take(pos - 1));
            assert(s.take(pos as int).last() == s[pos - 1]);
        }
    }
    let ghost xv = x@;
    sorted.insert(pos, x);
    assert(definitions_view(sorted@) =~= s.insert(pos as int, xv));
}

/// The catalog snapshot at `now`: on success the persisted corpora and the
/// source corpora outside disabled domains, sorted by identifier, with the
/// graph revision.
pub open spec fn catalog_snapshot_spec(c: CatalogView, now: u64) -> Option<(Seq<DefinitionView>, u64)> {
    let kept = source_corpora(c, now);
    if mergeable(persisted_corpora(c), kept) {
        Some((sort_by_id(persisted_corpora(c) + kept), graph_revision(c)))
    } else {
        None
    }
}

/// The terms of the live `Always` runtime corpora outside disabled domains.
pub open spec fn activation_terms_of(v: Seq<DefinitionView>, disabled: Set<Seq<char>>) -> Seq<Seq<Seq<char>>>
    decreases v.len(),
{
    if v.len() == 0 {
        Seq::empty()
    } else if v.last().activation == CorpusActivation::Always && !disabled.contains(v.last().domain) {
        activation_terms_of(v.drop_last(), disabled) + v.last().terms
    } else {
        activation_terms_of(v.drop_last(), disabled)
    }
}

/// Read-side aggregation of static sources, the runtime provider registry and
/// the persisted graph's projection.
pub struct CorpusCatalog {
    sources: Vec<StaticCorpusSource>,
    dynamic: DynamicCorpusSource,
    graph: Option<GraphProjection>,
}

impl View for CorpusCatalog {
    type V = CatalogView;

    closed spec fn view(&self) -> CatalogView {
        CatalogView {
            sources: statics_view(self.sources@),
            dynamic: self.dynamic@,
            graph: match self.graph {
                Some(g) => Some(g@),
                None => None,
            },
        }
    }
}

impl CorpusCatalog {
    /// The catalog's invariant: its runtime registry is sorted.
    pub open spec fn wf(&self) -> bool {
        sorted_providers(self@.dynamic)
    }

    /// The disabled domains, as a list.
    fn disabled_list(&self) -> (r: Vec<String>)
        ensures
            sv(r@).to_set() == disabled_domains(self@),
    {
        match &self.graph {
            Some(g) => {
                let r = crate::corpus::clone_strings(&g.disabled_domains);
                assert(sv(r@) =~= sv(g.disabled_domains@));
                r
            },
            None => {
                let r: Vec<String> = Vec::new();
                assert(sv(r@).to_set() =~= Set::<Seq<char>>::empty());
                r
            },
        }
    }

    /// The corpora of the static sources, in order.
    fn static_list(&self) -> (r: Vec<CorpusDefinition>)
        ensures
            definitions_view(r@) == flatten_sources(self@.sources),
    {
        let ghost sv_ = statics_view(self.sources@);
        let mut flat: Vec<CorpusDefinition> = Vec::new();
        let mut i: usize = 0;
        while i < self.sources.len()
            invariant
                0 <= i <= self.sources@.len(),
                sv_ == statics_view(self.sources@),
                definitions_view(flat@) == flatten_sources(sv_.take(i as int)),
            decreases self.sources@.len() - i,
        {
            assert(sv_.take(i + 1).drop_last() =~= sv_.take(i as int));
            assert(sv_.take(i + 1).last() == self.sources@[i as int]@);
            let ghost before = definitions_view(flat@);
            let mut more = clone_definitions(&self.sources[i].corpora);
            flat.append(&mut more);
            assert(definitions_view(flat@) =~= before + self.sources@[i as int]@.1);
            i = i + 1;
        }
        assert(sv_.take(self.sources@.len() as int) =~= sv_);
        flat
    }

    /// The catalog snapshot at `now` (see `catalog_snapshot_spec`). The
    /// static sources and the graph are read first; when they merge, the
    /// runtime registry is read, which drops its expired providers (see
    /// `catalog_after_snapshot`).
    pub fn snapshot_with_revision_at(&mut self, now: u64) -> (r: Result<(Vec<CorpusDefinition>, u64), String>)
        ensures
            match catalog_snapshot_spec(old(self)@, now) {
                Some((v, rev)) => r matches Ok((w, q)) && definitions_view(w@) == v && q == rev,
                None => r is Err,
            },
            final(self)@ == catalog_after_snapshot(old(self)@, now),
            old(self).wf() ==> final(self).wf(),
    {
        let ghost c = self@;
        let disabled = self.disabled_list();
        let (persisted, revision) = match &self.graph {
            Some(g) => (clone_definitions(&g.corpora), g.revision),
            None => (Vec::new(), 0),
        };
        assert(definitions_view(persisted@) =~= persisted_corpora(self@));
        let mut flat = self.static_list();
        let ghost fs = definitions_view(flat@);
        match merge_checked(&persisted, &flat, &disabled) {
            Ok(_) => {},
            Err(e) => {
                proof {
                    lemma_statics_first(c, now);
                }
                return Err(e);
            },
        }
        let mut live = self.dynamic.snapshot_at(now);
        let ghost lv = definitions_view(live@);
        flat.append(&mut live);
        assert(definitions_view(flat@) =~= fs + lv);
        proof {
            lemma_live_providers_sorted(c.dynamic, now);
            assert(self@ =~~= catalog_after_snapshot(c, now));
        }
        match merge_checked(&persisted, &flat, &disabled) {
            Ok(all) => Ok((sort_definitions(&all), revision)),
            Err(e) => Err(e),
        }
    }
}

impl CorpusCatalog {
    /// Milliseconds on the catalog's monotonic clock; nothing is stated of
    /// the reading.
    pub fn clock_millis(&self) -> u64 {
        self.dynamic.now()
    }

    /// The catalog snapshot now, with the graph revision (see
    /// `snapshot_with_revision_at`).
    pub fn snapshot_with_revision(&mut self) -> (r: Result<(Vec<CorpusDefinition>, u64), String>)
        ensures
            old(self).wf() ==> final(self).wf(),
            exists|now: u64|
                {
                    &&& match #[trigger] catalog_snapshot_spec(old(self)@, now) {
                        Some((v, rev)) => r matches Ok((w, q)) && definitions_view(w@) == v && q == rev,
                        None => r is Err,
                    }
                    &&& final(self)@ == catalog_after_snapshot(old(self)@, now)
                },
    {
        let now = self.dynamic.now();
        self.snapshot_with_revision_at(now)
    }

    /// The catalog snapshot at `now`, without the revision.
    pub fn snapshot_at(&mut self, now: u64) -> (r: Result<Vec<CorpusDefinition>, String>)
        ensures
            match catalog_snapshot_spec(old(self)@, now) {
                Some((v, _)) => r matches Ok(w) && definitions_view(w@) == v,
                None => r is Err,
            },
            final(self)@ == catalog_after_snapshot(old(self)@, now),
            old(self).wf() ==> final(self).wf(),
    {
        match self.snapshot_with_revision_at(now) {
            Ok((corpora, _)) => Ok(corpora),
            Err(e) => Err(e),
        }
    }

    /// The catalog snapshot now, without the revision.
    pub fn snapshot(&mut self) -> (r: Result<Vec<CorpusDefinition>, String>)
        ensures
            old(self).wf() ==> final(self).wf(),
            exists|now: u64|
                {
                    &&& match #[trigger] catalog_snapshot_spec(old(self)@, now) {
                        Some((v, _)) => r matches Ok(w) && definitions_view(w@) == v,
                        None => r is Err,
                    }
                    &&& final(self)@ == catalog_after_snapshot(old(self)@, now)
                },
    {
        let now = self.dynamic.now();
        self.snapshot_at(now)
    }

    /// The terms of the live `Always` runtime corpora at `now`, outside
    /// disabled domains: live provider words that may activate persisted
    /// corpora.
    pub fn runtime_activation_terms_at(&mut self, now: u64) -> (r: Result<Vec<CorpusTerm>, String>)
        ensures
            r matches Ok(v) && terms_view(v@) == activation_terms_of(
                live_corpora(old(self)@.dynamic, now),
                disabled_domains(old(self)@),
            ),
            final(self)@ == (CatalogView { dynamic: live_providers(old(self)@.dynamic, now), ..old(self)@ }),
            old(self).wf() ==> final(self).wf(),
    {
        let disabled = self.disabled_list();
        let ghost dis = disabled_domains(self@);
        let ghost d0 = self@.dynamic;
        let live = self.dynamic.snapshot_at(now);
        proof {
            lemma_live_providers_sorted(d0, now);
        }
        let ghost lv = definitions_view(live@);
        let mut terms: Vec<CorpusTerm> = Vec::new();
        let mut i: usize = 0;
        while i < live.len()
            invariant
                0 <= i <= live@.len(),
                lv == definitions_view(live@),
                dis == sv(disabled@).to_set(),
                terms_view(terms@) == activation_terms_of(lv.take(i as int), dis),
            decreases live@.len() - i,
        {
            assert(lv.take(i + 1).drop_last() =~= lv.take(i as int));
            assert(lv.take(i + 1).last() == live@[i as int]@);
            let always = live[i].activation == CorpusActivation::Always;
            let off = strings_contain(&disabled, live[i].domain.as_str());
            proof {
                if dis.contains(live@[i as int]@.domain) {
                    assert(sv(disabled@).contains(live@[i as int]@.domain));
                }
            }
            if always && !off {
                let ghost before = terms_view(terms@);
                let mut more = clone_terms(&live[i].terms);
                terms.append(&mut more);
                assert(terms_view(terms@) =~= before + live@[i as int]@.terms);
            }
            i = i + 1;
        }
        assert(lv.take(lv.len() as int) =~= lv);
        Ok(terms)
    }

    /// Live provider words that may activate persisted corpora; the expired
    /// providers are dropped from the registry.
    pub fn runtime_activation_terms(&mut self) -> (r: Result<Vec<CorpusTerm>, String>)
        ensures
            old(self).wf() ==> final(self).wf(),
            exists|now: u64|
                r matches Ok(v) && terms_view(v@) == #[trigger] activation_terms_of(
                    live_corpora(old(self)@.dynamic, now),
                    disabled_domains(old(self)@),
                ) && final(self)@ == (CatalogView {
                    dynamic: live_providers(old(self)@.dynamic, now),
                    ..old(self)@
                }),
    {
        let now = self.dynamic.now();
        self.runtime_activation_terms_at(now)
    }

    /// A catalog of the given sources, a registry and an optional graph
    /// projection, accepted when its snapshot can be taken now.
    fn from_sources_with_dynamic(
        sources: Vec<StaticCorpusSource>,
        dynamic: DynamicCorpusSource,
        graph: Option<GraphProjection>,
    ) -> (r: Result<Self, String>)
        requires
            dynamic.wf(),
        ensures
            r matches Ok(c) ==> c.wf() && exists|now: u64| c@ == #[trigger] catalog_after_snapshot(
                CatalogView {
                    sources: statics_view(sources@),
                    dynamic: dynamic@,
                    graph: opt_projection(graph),
                },
                now,
            ),
            r is Ok ==> exists|now: u64| #[trigger] catalog_snapshot_spec(
                CatalogView {
                    sources: statics_view(sources@),
                    dynamic: dynamic@,
                    graph: opt_projection(graph),
                },
                now,
            ) is Some,
            dynamic@.len() == 0 ==> (r is Ok <==> catalog_snapshot_spec(
                CatalogView {
                    sources: statics_view(sources@),
                    dynamic: dynamic@,
                    graph: opt_projection(graph),
                },
                0,
            ) is Some),
    {
        let mut catalog = CorpusCatalog { sources, dynamic, graph };
        let now = catalog.dynamic.now();
        proof {
            if catalog@.dynamic.len() == 0 {
                assert(live_corpora(catalog@.dynamic, now) =~= live_corpora(catalog@.dynamic, 0));
            }
        }
        match catalog.snapshot_at(now) {
            Ok(_) => Ok(catalog),
            Err(e) => Err(e),
        }
    }

    /// A catalog of custom static sources with an empty runtime registry.
    pub fn from_sources(sources: Vec<StaticCorpusSource>) -> (r: Result<Self, String>)
        ensures
            r matches Ok(c) ==> c.wf() && c@ == (CatalogView {
                sources: statics_view(sources@),
                dynamic: Seq::empty(),
                graph: None,
            }),
            r is Ok <==> catalog_snapshot_spec(
                CatalogView { sources: statics_view(sources@), dynamic: Seq::empty(), graph: None },
                0,
            ) is Some,
    {
        let dynamic = DynamicCorpusSource::new();
        Self::from_sources_with_dynamic(sources, dynamic, None)
    }

    /// A catalog over a persisted graph's projection with an empty runtime
    /// registry.
    pub fn from_projection(projection: GraphProjection) -> (r: Result<Self, String>)
        ensures
            r matches Ok(c) ==> c.wf() && c@ == (CatalogView {
                sources: Seq::empty(),
                dynamic: Seq::empty(),
                graph: Some(projection@),
            }),
            r is Ok <==> catalog_snapshot_spec(
                CatalogView { sources: Seq::empty(), dynamic: Seq::empty(), graph: Some(projection@) },
                0,
            ) is Some,
    {
        let dynamic = DynamicCorpusSource::new();
        let sources: Vec<StaticCorpusSource> = Vec::new();
        assert(statics_view(sources@) =~= Seq::<(Seq<char>, Seq<DefinitionView>)>::empty());
        Self::from_sources_with_dynamic(sources, dynamic, Some(projection))
    }

    /// A catalog of programmatic definitions, which must be valid and have
    /// distinct identifiers.
    pub fn from_definitions(corpora: Vec<CorpusDefinition>) -> (r: Result<Self, String>)
        ensures
            r is Ok <==> unique_ids(definitions_view(corpora@)) && forall|k: int|
                0 <= k < corpora@.len() ==> valid_definition(#[trigger] definitions_view(corpora@)[k]),
            r matches Ok(c) ==> c.wf() && c@ == (CatalogView {
                sources: seq![("programmatic-static"@, definitions_view(corpora@))],
                dynamic: Seq::empty(),
                graph: None,
            }),
    {
        match validate_unique(&corpora) {
            Ok(()) => {},
            Err(e) => {
                return Err(e);
            },
        }
        let mut k: usize = 0;
        while k < corpora.len()
            invariant
                0 <= k <= corpora@.len(),
                forall|j: int| 0 <= j < k ==> valid_definition(#[trigger] definitions_view(corpora@)[j]),
            decreases corpora@.len() - k,
        {
            assert(definitions_view(corpora@)[k as int] == corpora@[k as int]@);
            match corpora[k].validate() {
                Ok(()) => {},
                Err(e) => {
                    return Err(e);
                },
            }
            k = k + 1;
        }
        let ghost dv = definitions_view(corpora@);
        let source = StaticCorpusSource::new(owned("programmatic-static"), corpora);
        let mut sources: Vec<StaticCorpusSource> = Vec::new();
        sources.push(source);
        proof {
            let c = CatalogView { sources: statics_view(sources@), dynamic: Seq::empty(), graph: None };
            assert(statics_view(sources@) =~= seq![("programmatic-static"@, dv)]);
            assert(flatten_sources(c.sources) =~= dv) by {
                assert(c.sources.len() == 1);
                assert(c.sources.last().1 == dv);
                assert(c.sources.drop_last() =~= Seq::<(Seq<char>, Seq<DefinitionView>)>::empty());
                assert(flatten_sources(c.sources.drop_last()) =~= Seq::<DefinitionView>::empty());
                assert(Seq::<DefinitionView>::empty() + dv =~= dv);
            }
            assert(live_corpora(c.dynamic, 0) =~= Seq::<DefinitionView>::empty());
            assert(dv + Seq::<DefinitionView>::empty() =~= dv);
            lemma_enabled_none(dv);
            assert(persisted_corpora(c) + dv =~= dv);
        }
        Self::from_sources(sources)
    }

    /// A copy of the runtime provider registry.
    pub fn dynamic_source(&self) -> (r: DynamicCorpusSource)
        ensures
            r@ == self@.dynamic,
    {
        self.dynamic.clone()
    }

    /// The runtime provider registry, for publishing and removing snapshots.
    pub fn dynamic_source_mut(&mut self) -> (r: &mut DynamicCorpusSource)
        ensures
            r@ == old(self)@.dynamic,
            final(self)@ == (CatalogView { dynamic: final(r)@, ..old(self)@ }),
    {
        &mut self.dynamic
    }

    /// The persisted graph's projection, if any.
    pub fn graph_projection(&self) -> (r: Option<GraphProjection>)
        ensures
            match r {
                Some(g) => self@.graph == Some(g@),
                None => self@.graph is None,
            },
    {
        match &self.graph {
            Some(g) => Some(g.clone()),
            None => None,
        }
    }

    /// Replaces the persisted graph's projection after the graph changed.
    pub fn set_graph_projection(&mut self, projection: Option<GraphProjection>)
        ensures
            final(self)@ == (CatalogView {
                graph: match projection {
                    Some(g) => Some(g@),
                    None => None,
                },
                ..old(self)@
            }),
    {
        self.graph = projection;
    }
}

impl Clone for CorpusCatalog {
    fn clone(&self) -> (r: Self)
        ensures
            r@ == self@,
    {
        let mut sources: Vec<StaticCorpusSource> = Vec::new();
        let mut i: usize = 0;
        while i < self.sources.len()
            invariant
                0 <= i <= self.sources@.len(),
                statics_view(sources@) == statics_view(self.sources@.take(i as int)),
            decreases self.sources@.len() - i,
        {
            let ghost before = sources@;
            sources.push(self.sources[i].clone());
            assert(statics_view(sources@) =~= statics_view(before).push(self.sources@[i as int]@));
            assert(statics_view(self.sources@.take(i + 1)) =~= statics_view(self.sources@.take(i as int)).push(
                self.sources@[i as int]@,
            ));
            i = i + 1;
        }
        assert(self.sources@.take(self.sources@.len() as int) =~= self.sources@);
        let graph = match &self.graph {
            Some(g) => Some(g.clone()),
            None => None,
        };
        CorpusCatalog { sources, dynamic: self.dynamic.clone(), graph }
    }
}

/// The view of an optional projection.
pub open spec fn opt_projection(g: Option<GraphProjection>) -> Option<ProjectionView> {
    match g {
        Some(p) => Some(p@),
        None => None,
    }
}

/// Without disabled domains every corpus is enabled.
proof fn lemma_enabled_none(v: Seq<DefinitionView>)
    ensures
        enabled_corpora(v, Set::empty()) == v,
    decreases v.len(),
{
    if v.len() > 0 {
        lemma_enabled_none(v.drop_last());
        assert(v.drop_last().push(v.last()) =~= v);
    }
}

/// Appends the source corpora outside disabled domains to the persisted
/// ones, failing on an invalid corpus or a repeated identifier.
fn merge_checked(persisted: &Vec<CorpusDefinition>, flat: &Vec<CorpusDefinition>, disabled: &Vec<String>) -> (r:
    Result<Vec<CorpusDefinition>, String>)
    ensures
        ({
            let p = definitions_view(persisted@);
            let kept = enabled_corpora(definitions_view(flat@), sv(disabled@).to_set());
            if mergeable(p, kept) {
                r matches Ok(v) && definitions_view(v@) == p + kept
            } else {
                r is Err
            }
        }),
{
    let ghost p = definitions_view(persisted@);
    let ghost fv = definitions_view(flat@);
    let ghost dis = sv(disabled@).to_set();
    let mut all = clone_definitions(persisted);
    let mut owners: Vec<String> = Vec::new();
    let mut j: usize = 0;
    while j < all.len()
        invariant
            0 <= j <= all@.len(),
            definitions_view(all@) == p,
            sv(owners@) == p.take(j as int).map_values(|d: DefinitionView| d.id),
        decreases all@.len() - j,
    {
        let ghost ob = sv(owners@);
        owners.push(all[j].id.clone());
        assert(sv(owners@) =~= ob.push(all@[j as int]@.id));
        assert(p.take(j + 1).map_values(|d: DefinitionView| d.id) =~= p.take(j as int).map_values(
            |d: DefinitionView| d.id,
        ).push(p[j as int].id));
        j = j + 1;
    }
    assert(p.take(p.len() as int) =~= p);
    let ghost mut kept: Seq<DefinitionView> = Seq::empty();
    let mut k: usize = 0;
    while k < flat.len()
        invariant
            0 <= k <= flat@.len(),
            p == definitions_view(persisted@),
            fv == definitions_view(flat@),
            dis == sv(disabled@).to_set(),
            kept == enabled_corpora(fv.take(k as int), dis),
            mergeable(p, kept),
            definitions_view(all@) == p + kept,
            sv(owners@) == (p + kept).map_values(|d: DefinitionView| d.id),
        decreases flat@.len() - k,
    {
        assert(fv.take(k + 1).drop_last() =~= fv.take(k as int));
        assert(fv.take(k + 1).last() == flat@[k as int]@);
        let corpus = &flat[k];
        if strings_contain(disabled, corpus.domain.as_str()) {
            assert(dis.contains(corpus.domain@));
        } else {
            proof {
                if dis.contains(corpus.domain@) {
                    assert(sv(disabled@).contains(corpus.domain@));
                }
            }
            let kept2 = Ghost(kept.push(corpus@));
            assert(enabled_corpora(fv.take(k + 1), dis) == kept2@);
            match corpus.validate() {
                Ok(()) => {},
                Err(e) => {
                    proof {
                        assert(kept2@[kept2@.len() - 1] == corpus@);
                        assert(!valid_definition(kept2@[kept2@.len() - 1]));
                        lemma_enabled_prefix_bad(fv, dis, k as int + 1, p);
                    }
                    return Err(e);
                },
            }
            if strings_contain(&owners, corpus.id.as_str()) {
                proof {
                    let ids = (p + kept).map_values(|d: DefinitionView| d.id);
                    let q = choose|q: int| 0 <= q < ids.len() && ids[q] == corpus@.id;
                    assert((p + kept)[q].id == corpus@.id);
                    assert(!mergeable(p, kept2@)) by {
                        if q < p.len() {
                            assert(kept2@[kept2@.len() - 1].id == p[q].id);
                        } else {
                            assert(kept2@[q - p.len()].id == kept2@[kept2@.len() - 1].id);
                        }
                    }
                    lemma_enabled_prefix_bad(fv, dis, k as int + 1, p);
                }
                return Err(crate::corpus::message(&["duplicate corpus ID ", corpus.id.as_str()]));
            }
            proof {
                let ids = (p + kept).map_values(|d: DefinitionView| d.id);
                let k2 = kept2@;
                assert forall|a: int, b: int| 0 <= a < b < k2.len() implies (#[trigger] k2[a]).id
                    != (#[trigger] k2[b]).id by {
                    if b == k2.len() - 1 {
                        assert(ids[p.len() + a] == kept[a].id);
                    }
                }
                assert forall|a: int, b: int|
                    0 <= a < k2.len() && 0 <= b < p.len() implies (#[trigger] k2[a]).id != (
                    #[trigger] p[b]).id by {
                    if a == k2.len() - 1 {
                        assert(ids[b] == p[b].id);
                    }
                }
            }
            let ghost ob = sv(owners@);
            owners.push(corpus.id.clone());
            let ghost ab = definitions_view(all@);
            all.push(corpus.clone());
            proof {
                assert(p + kept2@ =~= (p + kept).push(corpus@));
                kept = kept2@;
                assert(definitions_view(all@) =~= ab.push(corpus@));
                assert(sv(owners@) =~= ob.push(corpus@.id));
                assert((p + kept).map_values(|d: DefinitionView| d.id) =~= ob.push(corpus@.id));
            }
        }
        k = k + 1;
    }
    assert(fv.take(fv.len() as int) =~= fv);
    Ok(all)
}

/// Sorts corpora by identifier, stably.
fn sort_definitions(all: &Vec<CorpusDefinition>) -> (r: Vec<CorpusDefinition>)
    ensures
        definitions_view(r@) == sort_by_id(definitions_view(all@)),
{
    let ghost unsorted = definitions_view(all@);
    let mut sorted: Vec<CorpusDefinition> = Vec::new();
    assert(definitions_view(sorted@) =~= sort_by_id(unsorted.take(0)));
    let mut m: usize = 0;
    while m < all.len()
        invariant
            0 <= m <= all@.len(),
            unsorted == definitions_view(all@),
            definitions_view(sorted@) == sort_by_id(unsorted.take(m as int)),
        decreases all@.len() - m,
    {
        assert(unsorted.take(m + 1).drop_last() =~= unsorted.take(m as int));
        assert(unsorted.take(m + 1).last() == all@[m as int]@);
        insert_definition(&mut sorted, all[m].clone());
        m = m + 1;
    }
    assert(unsorted.take(unsorted.len() as int) =~= unsorted);
    sorted
}

/// A source prefix whose enabled corpora are not mergeable makes the whole
/// list not mergeable.
proof fn lemma_enabled_prefix_bad(
    all: Seq<DefinitionView>,
    dis: Set<Seq<char>>,
    n: int,
    persisted: Seq<DefinitionView>,
)
    requires
        0 <= n <= all.len(),
        !mergeable(persisted, enabled_corpora(all.take(n), dis)),
    ensures
        !mergeable(persisted, enabled_corpora(all, dis)),
    decreases all.len() - n,
{
    if n < all.len() {
        lemma_enabled_extend(all.take(n + 1), dis);
        assert(all.take(n + 1).drop_last() =~= all.take(n));
        lemma_mergeable_prefix(persisted, enabled_corpora(all.take(n), dis), enabled_corpora(all.take(n + 1), dis));
        lemma_enabled_prefix_bad(all, dis, n + 1, persisted);
    } else {
        assert(all.take(n) =~= all);
    }
}

proof fn lemma_enabled_extend(v: Seq<DefinitionView>, dis: Set<Seq<char>>)
    requires
        v.len() > 0,
    ensures
        enabled_corpora(v.drop_last(), dis).is_prefix_of(enabled_corpora(v, dis)),
{
    let a = enabled_corpora(v.drop_last(), dis);
    assert(a.is_prefix_of(a.push(v.last())));
    assert(a.is_prefix_of(a));
}

proof fn lemma_mergeable_prefix(persisted: Seq<DefinitionView>, a: Seq<DefinitionView>, b: Seq<DefinitionView>)
    requires
        a.is_prefix_of(b),
        !mergeable(persisted, a),
    ensures
        !mergeable(persisted, b),
{
    if mergeable(persisted, b) {
        assert forall|k: int| 0 <= k < a.len() implies valid_definition(#[trigger] a[k]) by {
            assert(a[k] == b[k]);
        }
        assert forall|i: int, j: int| 0 <= i < j < a.len() implies (#[trigger] a[i]).id != (#[trigger] a[j]).id by {
            assert(a[i] == b[i] && a[j] == b[j]);
        }
        assert forall|k: int, j: int|
            0 <= k < a.len() && 0 <= j < persisted.len() implies (#[trigger] a[k]).id != (
            #[trigger] persisted[j]).id by {
            assert(a[k] == b[k]);
        }
    }
}

/// Whether corpora are ordered by identifier (equal identifiers allowed).
pub open spec fn ordered_by_id(s: Seq<DefinitionView>) -> bool {
    forall|i: int, j: int| 0 <= i < j < s.len() ==> !seq_lt((#[trigger] s[j]).id, (#[trigger] s[i]).id)
}

/// Whether identifiers strictly increase along the corpora.
pub open spec fn strictly_ordered_by_id(s: Seq<DefinitionView>) -> bool {
    forall|i: int, j: int| 0 <= i < j < s.len() ==> seq_lt((#[trigger] s[i]).id, (#[trigger] s[j]).id)
}

proof fn lemma_id_pos_bounds(s: Seq<DefinitionView>, x: DefinitionView)
    ensures
        0 <= id_pos(s, x) <= s.len(),
        forall|k: int| id_pos(s, x) <= k < s.len() ==> seq_lt(x.id, #[trigger] s[k].id),
        id_pos(s, x) > 0 ==> !seq_lt(x.id, s[id_pos(s, x) - 1].id),
    decreases s.len(),
{
    if s.len() > 0 && seq_lt(x.id, s.last().id) {
        let d = s.drop_last();
        lemma_id_pos_bounds(d, x);
        assert forall|k: int| id_pos(s, x) <= k < s.len() implies seq_lt(x.id, #[trigger] s[k].id) by {
            if k < d.len() {
                assert(s[k] == d[k]);
            }
        }
        if id_pos(s, x) > 0 {
            assert(s[id_pos(s, x) - 1] == d[id_pos(d, x) - 1]);
        }
    }
}

proof fn lemma_insert_by_id_ordered(s: Seq<DefinitionView>, x: DefinitionView)
    requires
        ordered_by_id(s),
    ensures
        ordered_by_id(insert_by_id(s, x)),
{
    lemma_insert_by_id_pos(s, x);
    lemma_id_pos_bounds(s, x);
    let p = id_pos(s, x);
    let r = s.insert(p, x);
    assert forall|i: int, j: int| 0 <= i < j < r.len() implies !seq_lt((#[trigger] r[j]).id, (
    #[trigger] r[i]).id) by {
        if i == p {
            assert(r[j] == s[j - 1]);
            lemma_lt_asymmetric(x.id, s[j - 1].id);
        } else if j == p {
            assert(r[i] == s[i]);
            if seq_lt(x.id, s[i].id) {
                lemma_lt_total(s[i].id, s[p - 1].id);
                if i < p - 1 {
                    assert(!seq_lt(s[p - 1].id, s[i].id));
                    if s[i].id != s[p - 1].id {
                        lemma_lt_transitive(x.id, s[i].id, s[p - 1].id);
                    }
                }
            }
        } else {
            let a = if i < p { i } else { i - 1 };
            let b = if j < p { j } else { j - 1 };
            assert(r[i] == s[a] && r[j] == s[b]);
        }
    }
}

/// Sorting by identifier orders the corpora, keeps their number, keeps
/// exactly the same corpora, and keeps identifiers distinct.
pub proof fn lemma_sort_by_id(s: Seq<DefinitionView>)
    ensures
        ordered_by_id(sort_by_id(s)),
        sort_by_id(s).len() == s.len(),
        forall|y: DefinitionView| sort_by_id(s).contains(y) <==> s.contains(y),
        unique_ids(s) ==> strictly_ordered_by_id(sort_by_id(s)),
    decreases s.len(),
{
    if s.len() > 0 {
        let d = s.drop_last();
        let x = s.last();
        lemma_sort_by_id(d);
        let sd = sort_by_id(d);
        lemma_insert_by_id_ordered(sd, x);
        lemma_insert_by_id_pos(sd, x);
        let p = id_pos(sd, x);
        let r = sd.insert(p, x);
        assert(sort_by_id(s) == r);
        assert forall|y: DefinitionView| r.contains(y) <==> s.contains(y) by {
            if r.contains(y) {
                let k = choose|k: int| 0 <= k < r.len() && r[k] == y;
                if k < p {
                    assert(r[k] == sd[k]);
                    assert(sd.contains(y));
                    assert(d.contains(y));
                    let m = choose|m: int| 0 <= m < d.len() && d[m] == y;
                    assert(s[m] == y);
                } else if k > p {
                    assert(r[k] == sd[k - 1]);
                    assert(sd.contains(y));
                    assert(d.contains(y));
                    let m = choose|m: int| 0 <= m < d.len() && d[m] == y;
                    assert(s[m] == y);
                } else {
                    assert(s[s.len() - 1] == y);
                }
            }
            if s.contains(y) {
                let k = choose|k: int| 0 <= k < s.len() && s[k] == y;
                if k < d.len() {
                    assert(d[k] == y);
                    assert(d.contains(y));
                    let m = choose|m: int| 0 <= m < sd.len() && sd[m] == y;
                    if m < p {
                        assert(r[m] == y);
                    } else {
                        assert(r[m + 1] == y);
                    }
                } else {
                    assert(r[p] == y);
                }
            }
        }
        if unique_ids(s) {
            assert(unique_ids(d)) by {
                assert forall|i: int, j: int| 0 <= i < j < d.len() implies (#[trigger] d[i]).id != (
                #[trigger] d[j]).id by {
                    assert(d[i] == s[i] && d[j] == s[j]);
                }
            }
            assert forall|i: int, j: int| 0 <= i < j < r.len() implies seq_lt(
                (#[trigger] r[i]).id,
                (#[trigger] r[j]).id,
            ) by {
                assert(!seq_lt(r[j].id, r[i].id));
                lemma_lt_total(r[i].id, r[j].id);
                if i == p || j == p {
                    let k = if i == p { j } else { i };
                    let e = if k < p { sd[k] } else { sd[k - 1] };
                    assert(r[k] == e);
                    assert(sd.contains(e));
                    assert(d.contains(e));
                    let m = choose|m: int| 0 <= m < d.len() && d[m] == e;
                    assert(s[m] == e && s[s.len() - 1] == x);
                } else {
                    let a = if i < p { i } else { i - 1 };
                    let b = if j < p { j } else { j - 1 };
                    assert(r[i] == sd[a] && r[j] == sd[b]);
                }
            }
        }
    }
}

proof fn lemma_enabled_members(v: Seq<DefinitionView>, d: Set<Seq<char>>)
    ensures
        forall|y: DefinitionView| #[trigger] enabled_corpora(v, d).contains(y) <==> (v.contains(y) && !d.contains(
            y.domain,
        )),
    decreases v.len(),
{
    if v.len() > 0 {
        lemma_enabled_members(v.drop_last(), d);
        let e = enabled_corpora(v.drop_last(), d);
        assert forall|y: DefinitionView| enabled_corpora(v, d).contains(y) <==> (v.contains(y)
            && !d.contains(y.domain)) by {
            if v.contains(y) && !v.drop_last().contains(y) {
                let k = choose|k: int| 0 <= k < v.len() && v[k] == y;
                if k < v.len() - 1 {
                    assert(v.drop_last()[k] == y);
                }
            }
            if v.drop_last().contains(y) {
                let k = choose|k: int| 0 <= k < v.drop_last().len() && v.drop_last()[k] == y;
                assert(v[k] == y);
            }
            if !d.contains(v.last().domain) {
                assert(enabled_corpora(v, d) == e.push(v.last()));
                if e.push(v.last()).contains(y) && y != v.last() {
                    let k = choose|k: int| 0 <= k < e.push(v.last()).len() && e.push(v.last())[k] == y;
                    assert(e[k] == y);
                }
                if e.contains(y) {
                    let k = choose|k: int| 0 <= k < e.len() && e[k] == y;
                    assert(e.push(v.last())[k] == y);
                }
                assert(e.push(v.last())[e.len() as int] == v.last());
            }
            assert(v[v.len() - 1] == v.last());
        }
    }
}

/// What a successful catalog snapshot holds: every persisted corpus and every
/// source corpus outside the disabled domains, each once, with strictly
/// increasing identifiers; each source corpus is valid and outside the
/// disabled domains (and so is every corpus, when the persisted ones are);
/// and the graph's revision.
pub proof fn lemma_catalog_snapshot_sound(c: CatalogView, now: u64)
    requires
        unique_ids(persisted_corpora(c)),
    ensures
        catalog_snapshot_spec(c, now) matches Some((v, rev)) ==> {
            &&& strictly_ordered_by_id(v)
            &&& v.len() == persisted_corpora(c).len() + source_corpora(c, now).len()
            &&& forall|y: DefinitionView| #[trigger] v.contains(y) <==> (persisted_corpora(c).contains(y) || (
                (flatten_sources(c.sources) + live_corpora(c.dynamic, now)).contains(y)
                    && !disabled_domains(c).contains(y.domain)))
            &&& forall|y: DefinitionView| #[trigger] v.contains(y) && !persisted_corpora(c).contains(y) ==> valid_definition(y)
                && !disabled_domains(c).contains(y.domain)
            &&& (forall|k: int| 0 <= k < persisted_corpora(c).len() ==> !disabled_domains(c).contains(
                #[trigger] persisted_corpora(c)[k].domain,
            )) ==> forall|y: DefinitionView| #[trigger] v.contains(y) ==> !disabled_domains(c).contains(y.domain)
            &&& rev == graph_revision(c)
        },
{
    if let Some((v, rev)) = catalog_snapshot_spec(c, now) {
        let p = persisted_corpora(c);
        let kept = source_corpora(c, now);
        let all = p + kept;
        let d = disabled_domains(c);
        lemma_enabled_members(flatten_sources(c.sources) + live_corpora(c.dynamic, now), d);
        assert(unique_ids(all)) by {
            assert forall|i: int, j: int| 0 <= i < j < all.len() implies (#[trigger] all[i]).id != (
            #[trigger] all[j]).id by {
                if j < p.len() {
                    assert(all[i] == p[i] && all[j] == p[j]);
                } else if i < p.len() {
                    assert(all[i] == p[i] && all[j] == kept[j - p.len()]);
                } else {
                    assert(all[i] == kept[i - p.len()] && all[j] == kept[j - p.len()]);
                }
            }
        }
        lemma_sort_by_id(all);
        assert forall|y: DefinitionView| all.contains(y) <==> (p.contains(y) || kept.contains(y)) by {
            if all.contains(y) {
                let k = choose|k: int| 0 <= k < all.len() && all[k] == y;
                if k < p.len() {
                    assert(p[k] == y);
                } else {
                    assert(kept[k - p.len()] == y);
                }
            }
            if p.contains(y) {
                let k = choose|k: int| 0 <= k < p.len() && p[k] == y;
                assert(all[k] == y);
            }
            if kept.contains(y) {
                let k = choose|k: int| 0 <= k < kept.len() && kept[k] == y;
                assert(all[k + p.len()] == y);
            }
        }
        assert forall|y: DefinitionView| #[trigger] v.contains(y) && !p.contains(y) implies valid_definition(y)
            && !d.contains(y.domain) by {
            assert(all.contains(y));
            assert(enabled_corpora(flatten_sources(c.sources) + live_corpora(c.dynamic, now), d).contains(y));
            assert(mergeable(p, kept));
            let k = choose|k: int| 0 <= k < kept.len() && kept[k] == y;
            assert(valid_definition(kept[k]));
        }
        if forall|k: int| 0 <= k < p.len() ==> !d.contains(#[trigger] p[k].domain) {
            assert forall|y: DefinitionView| #[trigger] v.contains(y) implies !d.contains(y.domain) by {
                if p.contains(y) {
                    let k = choose|k: int| 0 <= k < p.len() && p[k] == y;
                    assert(!d.contains(p[k].domain));
                } else {
                    assert(all.contains(y));
                    assert(enabled_corpora(flatten_sources(c.sources) + live_corpora(c.dynamic, now), d).contains(y));
                }
            }
        }
    }
}

/// A catalog of programmatic definitions snapshots them sorted by
/// identifier, each once, with identifiers strictly increasing, at revision 0.
pub proof fn lemma_definitions_snapshot(corpora: Seq<DefinitionView>, now: u64)
    requires
        unique_ids(corpora),
        forall|k: int| 0 <= k < corpora.len() ==> valid_definition(#[trigger] corpora[k]),
    ensures
        catalog_snapshot_spec(
            CatalogView { sources: seq![("programmatic-static"@, corpora)], dynamic: Seq::empty(), graph: None },
            now,
        ) == Some((sort_by_id(corpora), 0u64)),
        strictly_ordered_by_id(sort_by_id(corpora)),
        sort_by_id(corpora).len() == corpora.len(),
        forall|y: DefinitionView| sort_by_id(corpora).contains(y) <==> corpora.contains(y),
{
    let c = CatalogView { sources: seq![("programmatic-static"@, corpora)], dynamic: Seq::empty(), graph: None };
    assert(flatten_sources(c.sources) =~= corpora) by {
        assert(c.sources.len() == 1);
        assert(c.sources.last().1 == corpora);
        assert(c.sources.drop_last() =~= Seq::<(Seq<char>, Seq<DefinitionView>)>::empty());
        assert(flatten_sources(c.sources.drop_last()) =~= Seq::<DefinitionView>::empty());
        assert(Seq::<DefinitionView>::empty() + corpora =~= corpora);
    }
    assert(live_corpora(c.dynamic, now) =~= Seq::<DefinitionView>::empty());
    assert(corpora + Seq::<DefinitionView>::empty() =~= corpora);
    lemma_enabled_none(corpora);
    assert(persisted_corpora(c) + corpora =~= corpora);
    lemma_sort_by_id(corpora);
}

} // verus!
