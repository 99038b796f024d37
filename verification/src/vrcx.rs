//! The VRCX runtime provider: its configuration, the current VRChat room
//! rebuilt from VRCX's game log, the corpus published for that room, and the
//! status the provider reports.

use vstd::prelude::*;

use crate::catalog::{
    DynamicCorpusSource, ProviderView, expiry, instant_now, millis_since, publishable,
    remove_provider_spec, upsert_provider,
};
use crate::corpus::{
    CORPUS_SCHEMA, CorpusActivation, CorpusDefinition, CorpusTerm, DefinitionView, strings_view,
    valid_term_values,
};
use crate::evidence::{collapse_whitespace, collapse_whitespace_chars};
use crate::language::{LANGUAGE_COUNT, strings_contain};
use crate::order::{lemma_lt_asymmetric, lemma_lt_transitive, seq_lt, str_less};
use crate::prompt::sv;
use crate::protocol::VrcxStatusResponse;
use crate::text::{
    chars_eq_ignore_ascii_case, chars_of, eq_ignore_ascii_case, lowercase_str, owned, str_eq,
    str_lowercase, string_from_chars, trim, trim_chars,
};

verus! {

broadcast use vstd::string::group_string_axioms;

/// The provider under which the room corpus is published.
pub const PROVIDER_ID: &'static str = "vrcx";

/// The identifier of the room corpus.
pub const RUNTIME_CORPUS_ID: &'static str = "virtual-worlds.vrchat.runtime-room";

// ---------------------------------------------------------------------------
// Configuration.
// ---------------------------------------------------------------------------

/// How the VRCX provider runs.
#[derive(Debug)]
pub struct VrcxIntegrationConfig {
    pub enabled: bool,
    pub database_path: Option<String>,
    pub snapshot_ttl_seconds: u64,
    pub max_players: usize,
    pub poll_interval_ms: u64,
}

impl Clone for VrcxIntegrationConfig {
    fn clone(&self) -> (r: Self)
        ensures
            r.enabled == self.enabled,
            r.database_path == self.database_path,
            r.snapshot_ttl_seconds == self.snapshot_ttl_seconds,
            r.max_players == self.max_players,
            r.poll_interval_ms == self.poll_interval_ms,
    {
        let database_path = match &self.database_path {
            Some(p) => Some(p.clone()),
            None => None,
        };
        VrcxIntegrationConfig {
            enabled: self.enabled,
            database_path,
            snapshot_ttl_seconds: self.snapshot_ttl_seconds,
            max_players: self.max_players,
            poll_interval_ms: self.poll_interval_ms,
        }
    }
}

/// The provider is on unless configured off.
pub fn default_enabled() -> (r: bool)
    ensures
        r,
{
    true
}

/// A room snapshot lives 30 seconds unless refreshed.
pub fn default_snapshot_ttl_seconds() -> (r: u64)
    ensures
        r == 30,
{
    30
}

/// At most 80 players are named.
pub fn default_max_players() -> (r: usize)
    ensures
        r == 80,
{
    80
}

/// VRCX is polled every 2000 milliseconds.
pub fn default_poll_interval_ms() -> (r: u64)
    ensures
        r == 2000,
{
    2_000
}

impl Default for VrcxIntegrationConfig {
    fn default() -> (r: Self)
        ensures
            r.enabled,
            r.database_path is None,
            r.snapshot_ttl_seconds == 30,
            r.max_players == 80,
            r.poll_interval_ms == 2000,
    {
        VrcxIntegrationConfig {
            enabled: default_enabled(),
            database_path: None,
            snapshot_ttl_seconds: default_snapshot_ttl_seconds(),
            max_players: default_max_players(),
            poll_interval_ms: default_poll_interval_ms(),
        }
    }
}

/// Whether the provider's limits lie in their ranges: a lifetime of 5 to
/// 3600 seconds, 1 to 256 players and a poll interval of 500 to 60000
/// milliseconds.
pub open spec fn vrcx_limits_ok(ttl: u64, max_players: usize, poll: u64) -> bool {
    &&& 5 <= ttl <= 3600
    &&& 1 <= max_players <= 256
    &&& 500 <= poll <= 60000
}

/// The message for the first limit out of its range.
pub open spec fn vrcx_limits_error(ttl: u64, max_players: usize, poll: u64) -> Seq<char> {
    if !(5 <= ttl <= 3600) {
        "integrations.vrcx.snapshot_ttl_seconds must be between 5 and 3600"@
    } else if !(1 <= max_players <= 256) {
        "integrations.vrcx.max_players must be between 1 and 256"@
    } else {
        "integrations.vrcx.poll_interval_ms must be between 500 and 60000"@
    }
}

/// Checks the provider's limits.
pub fn validate_vrcx_config(config: &VrcxIntegrationConfig) -> (r: Result<(), String>)
    ensures
        r is Ok <==> vrcx_limits_ok(
            config.snapshot_ttl_seconds,
            config.max_players,
            config.poll_interval_ms,
        ),
        r matches Err(e) ==> e@ == vrcx_limits_error(
            config.snapshot_ttl_seconds,
            config.max_players,
            config.poll_interval_ms,
        ),
{
    if config.snapshot_ttl_seconds < 5 || config.snapshot_ttl_seconds > 3_600 {
        return Err(owned("integrations.vrcx.snapshot_ttl_seconds must be between 5 and 3600"));
    }
    if config.max_players == 0 || config.max_players > 256 {
        return Err(owned("integrations.vrcx.max_players must be between 1 and 256"));
    }
    if config.poll_interval_ms < 500 || config.poll_interval_ms > 60_000 {
        return Err(owned("integrations.vrcx.poll_interval_ms must be between 500 and 60000"));
    }
    Ok(())
}

// ---------------------------------------------------------------------------
// Cleaning names read from the game log.
// ---------------------------------------------------------------------------

/// Commas read as spaces.
pub open spec fn commas_to_spaces(s: Seq<char>) -> Seq<char> {
    s.map_values(|c: char| if c == ',' { ' ' } else { c })
}

/// At most the first `n` characters.
pub open spec fn first_chars(s: Seq<char>, n: int) -> Seq<char> {
    if s.len() <= n {
        s
    } else {
        s.take(n)
    }
}

/// A cleaned name: words joined by single spaces, commas as spaces, at most
/// `n` characters, trimmed.
pub open spec fn clean_spec(v: Seq<char>, n: int) -> Seq<char> {
    trim(first_chars(commas_to_spaces(collapse_whitespace(v)), n))
}

/// Cleans a name read from the game log (see `clean_spec`).
pub fn clean_term(value: &str, max_chars: usize) -> (r: String)
    ensures
        r@ == clean_spec(value@, max_chars as int),
{
    let chars = chars_of(value);
    let words = collapse_whitespace_chars(chars.as_slice());
    let ghost w = words@;
    let mut out: Vec<char> = Vec::new();
    let mut k: usize = 0;
    while k < words.len() && k < max_chars
        invariant
            0 <= k <= words@.len(),
            k <= max_chars,
            words@ == w,
            out@ == commas_to_spaces(w).take(k as int),
        decreases words@.len() - k,
    {
        let c = words[k];
        out.push(if c == ',' { ' ' } else { c });
        assert(commas_to_spaces(w).take(k + 1) =~= commas_to_spaces(w).take(k as int).push(
            if c == ',' { ' ' } else { c },
        ));
        k = k + 1;
    }
    assert(out@ =~= first_chars(commas_to_spaces(w), max_chars as int));
    let trimmed = trim_chars(out.as_slice());
    string_from_chars(trimmed.as_slice())
}

/// Whether `p` occurs in `s` at position `i`.
pub open spec fn occurs_at(s: Seq<char>, p: Seq<char>, i: int) -> bool {
    0 <= i && i + p.len() <= s.len() && s.subrange(i, i + p.len()) == p
}

/// The first position at or after `from` where `p` occurs in `s`.
pub open spec fn find_from(s: Seq<char>, p: Seq<char>, from: int) -> Option<int>
    decreases s.len() + 1 - from,
{
    if from < 0 || from + p.len() > s.len() {
        None
    } else if occurs_at(s, p, from) {
        Some(from)
    } else {
        find_from(s, p, from + 1)
    }
}

/// The marker before a location's region.
pub open spec fn region_marker() -> Seq<char> {
    seq!['~', 'r', 'e', 'g', 'i', 'o', 'n', '(']
}

/// The text before the first `)`, or all of it.
pub open spec fn before_paren(s: Seq<char>) -> Seq<char> {
    match find_from(s, seq![')'], 0) {
        Some(e) => s.take(e),
        None => s,
    }
}

/// A location's region: what follows the first `~region(` up to the next
/// `)`, cleaned to at most 24 characters; empty without a region.
pub open spec fn region_spec(location: Seq<char>) -> Seq<char> {
    match find_from(location, region_marker(), 0) {
        Some(i) => clean_spec(before_paren(location.skip(i + 8)), 24),
        None => Seq::empty(),
    }
}

proof fn lemma_find_from(s: Seq<char>, p: Seq<char>, from: int)
    requires
        0 <= from,
    ensures
        find_from(s, p, from) matches Some(i) ==> from <= i && occurs_at(s, p, i),
    decreases s.len() + 1 - from,
{
    if from + p.len() <= s.len() && !occurs_at(s, p, from) {
        lemma_find_from(s, p, from + 1);
    }
}

/// Finds `p` in `s` from position `from` (see `find_from`).
fn find_chars(s: &[char], p: &[char], from: usize) -> (r: Option<usize>)
    ensures
        match find_from(s@, p@, from as int) {
            Some(i) => r matches Some(x) && x == i,
            None => r is None,
        },
    decreases s@.len() + 1 - from,
{
    if from > s.len() || p.len() > s.len() - from {
        return None;
    }
    let n = s.len();
    let mut j: usize = 0;
    while j < p.len()
        invariant
            n == s@.len(),
            from + p@.len() <= s@.len(),
            0 <= j <= p@.len(),
            forall|q: int| 0 <= q < j ==> s@[from + q] == p@[q],
        decreases p@.len() - j,
    {
        assert(from + j < n);
        if s[from + j] != p[j] {
            assert(s@.subrange(from as int, from + p@.len())[j as int] != p@[j as int]);
            return find_chars(s, p, from + 1);
        }
        j = j + 1;
    }
    assert(s@.subrange(from as int, from + p@.len()) =~= p@);
    Some(from)
}

/// Reads the region of a location (see `region_spec`).
pub fn location_region(location: &str) -> (r: String)
    ensures
        r@ == region_spec(location@),
{
    let chars = chars_of(location);
    let n = chars.len();
    let marker: [char; 8] = ['~', 'r', 'e', 'g', 'i', 'o', 'n', '('];
    assert(marker@ =~= region_marker());
    match find_chars(chars.as_slice(), marker.as_slice(), 0) {
        None => String::new(),
        Some(start) => {
            proof {
                lemma_find_from(chars@, region_marker(), 0);
                assert(find_from(chars@, region_marker(), 0) == Some(start as int));
                assert(region_marker().len() == 8);
                assert(start + 8 <= n);
            }
            let mut rest: Vec<char> = Vec::new();
            let mut k: usize = start + 8;
            while k < chars.len()
                invariant
                    start + 8 <= k <= chars@.len(),
                    rest@ == chars@.subrange(start + 8, k as int),
                decreases chars@.len() - k,
            {
                rest.push(chars[k]);
                assert(chars@.subrange(start + 8, k + 1) =~= chars@.subrange(start + 8, k as int).push(
                    chars@[k as int],
                ));
                k = k + 1;
            }
            assert(rest@ =~= chars@.skip(start + 8));
            let paren: [char; 1] = [')'];
            assert(paren@ =~= seq![')']);
            let end = match find_chars(rest.as_slice(), paren.as_slice(), 0) {
                Some(e) => e,
                None => rest.len(),
            };
            proof {
                lemma_find_from(rest@, seq![')'], 0);
            }
            let mut value: Vec<char> = Vec::new();
            let mut q: usize = 0;
            while q < end
                invariant
                    0 <= q <= end <= rest@.len(),
                    value@ == rest@.take(q as int),
                decreases end - q,
            {
                value.push(rest[q]);
                assert(rest@.take(q + 1) =~= rest@.take(q as int).push(rest@[q as int]));
                q = q + 1;
            }
            assert(value@ =~= before_paren(rest@));
            let text = string_from_chars(value.as_slice());
            clean_term(text.as_str(), 24)
        },
    }
}

// ---------------------------------------------------------------------------
// The room corpus.
// ---------------------------------------------------------------------------

/// `values` with `value` added at the end, unless it is empty or some value
/// already equals it ignoring ASCII case.
pub open spec fn push_unique_spec(values: Seq<Seq<char>>, value: Seq<char>) -> Seq<Seq<char>> {
    if value.len() > 0 && !(exists|k: int|
        0 <= k < values.len() && eq_ignore_ascii_case(#[trigger] values[k], value)) {
        values.push(value)
    } else {
        values
    }
}

/// Adds a value unless it is empty or already there ignoring ASCII case.
pub fn push_unique(values: &mut Vec<String>, value: &str)
    ensures
        sv(final(values)@) == push_unique_spec(sv(old(values)@), value@),
{
    let ghost vs = sv(values@);
    let v = chars_of(value);
    if v.len() == 0 {
        return;
    }
    let mut k: usize = 0;
    while k < values.len()
        invariant
            0 <= k <= values@.len(),
            vs == sv(values@),
            v@ == value@,
            forall|q: int| 0 <= q < k ==> !eq_ignore_ascii_case(#[trigger] vs[q], value@),
        decreases values@.len() - k,
    {
        let existing = chars_of(values[k].as_str());
        if chars_eq_ignore_ascii_case(existing.as_slice(), v.as_slice()) {
            assert(eq_ignore_ascii_case(vs[k as int], value@));
            return;
        }
        k = k + 1;
    }
    values.push(owned(value));
    assert(sv(values@) =~= vs.push(value@));
}

/// `push_unique_spec` applied to each of `items` in turn.
pub open spec fn push_all_unique(values: Seq<Seq<char>>, items: Seq<Seq<char>>) -> Seq<Seq<char>>
    decreases items.len(),
{
    if items.len() == 0 {
        values
    } else {
        push_unique_spec(push_all_unique(values, items.drop_last()), items.last())
    }
}

/// Whether no two values are equal ignoring ASCII case, and none is empty.
pub open spec fn unique_ignoring_case(values: Seq<Seq<char>>) -> bool {
    &&& forall|k: int| 0 <= k < values.len() ==> (#[trigger] values[k]).len() > 0
    &&& forall|i: int, j: int|
        0 <= i < j < values.len() ==> !eq_ignore_ascii_case(#[trigger] values[i], #[trigger] values[j])
}

/// Adding values one by one with `push_unique_spec` keeps them non-empty
/// and distinct ignoring ASCII case.
pub proof fn lemma_push_all_unique(values: Seq<Seq<char>>, items: Seq<Seq<char>>)
    requires
        unique_ignoring_case(values),
    ensures
        unique_ignoring_case(push_all_unique(values, items)),
    decreases items.len(),
{
    if items.len() > 0 {
        lemma_push_all_unique(values, items.drop_last());
        let v = push_all_unique(values, items.drop_last());
        let x = items.last();
        let r = push_unique_spec(v, x);
        if r != v {
            assert forall|i: int, j: int| 0 <= i < j < r.len() implies !eq_ignore_ascii_case(
                #[trigger] r[i],
                #[trigger] r[j],
            ) by {
                if j == v.len() {
                    assert(r[j] == x);
                    if eq_ignore_ascii_case(r[i], x) {
                        assert(eq_ignore_ascii_case(v[i], x));
                    }
                } else {
                    assert(r[i] == v[i] && r[j] == v[j]);
                }
            }
            assert forall|k: int| 0 <= k < r.len() implies (#[trigger] r[k]).len() > 0 by {
                if k < v.len() {
                    assert(r[k] == v[k]);
                }
            }
        }
    }
}

/// The names of a room are distinct ignoring ASCII case.
pub proof fn lemma_room_values_unique(room: RoomView)
    ensures
        unique_ignoring_case(room_values(room)),
{
    let items = seq![room.world_name, room.group_name, room.region] + room.players;
    lemma_push_all_unique(Seq::empty(), items);
    if push_all_unique(Seq::empty(), items).len() == 0 {
        reveal_strlit("VRChat");
        assert(room_values(room)[0] == "VRChat"@);
    }
}

/// The current room, as read from VRCX's game log.
#[derive(Debug)]
pub struct RoomSnapshot {
    pub world_name: String,
    pub group_name: String,
    pub region: String,
    pub players: Vec<String>,
}

/// The mathematical content of a room.
pub struct RoomView {
    pub world_name: Seq<char>,
    pub group_name: Seq<char>,
    pub region: Seq<char>,
    pub players: Seq<Seq<char>>,
}

impl View for RoomSnapshot {
    type V = RoomView;

    open spec fn view(&self) -> RoomView {
        RoomView {
            world_name: self.world_name@,
            group_name: self.group_name@,
            region: self.region@,
            players: sv(self.players@),
        }
    }
}

/// The names of a room, each once ignoring ASCII case: world, group,
/// region, then players; `VRChat` when there is none.
pub open spec fn room_values(room: RoomView) -> Seq<Seq<char>> {
    let v = push_all_unique(
        Seq::empty(),
        seq![room.world_name, room.group_name, room.region] + room.players,
    );
    if v.len() == 0 {
        seq!["VRChat"@]
    } else {
        v
    }
}

/// A proper name written the same in every language column.
pub open spec fn proper_name(value: Seq<char>) -> Seq<Seq<char>> {
    Seq::new(LANGUAGE_COUNT as nat, |i: int| value)
}

/// Builds the term of a proper name, the same in every language column.
pub fn multilingual_proper_name(value: &str) -> (r: Result<CorpusTerm, String>)
    ensures
        match r {
            Ok(t) => t@ == proper_name(value@) && valid_term_values(t@),
            Err(_) => !valid_term_values(proper_name(value@)),
        },
{
    let mut values: Vec<String> = Vec::new();
    let mut k: usize = 0;
    while k < LANGUAGE_COUNT
        invariant
            0 <= k <= LANGUAGE_COUNT,
            sv(values@) == Seq::new(k as nat, |i: int| value@),
        decreases LANGUAGE_COUNT - k,
    {
        let ghost before = sv(values@);
        values.push(owned(value));
        assert(sv(values@) =~= before.push(value@));
        assert(sv(values@) =~= Seq::new((k + 1) as nat, |i: int| value@));
        k = k + 1;
    }
    assert(strings_view(values@) =~= proper_name(value@));
    match CorpusTerm::from_ordered(values) {
        Ok(t) => {
            assert(t@ =~= proper_name(value@));
            Ok(t)
        },
        Err(e) => Err(e),
    }
}

/// Whether every name of a room makes a valid term, and `VRChat` too.
pub open spec fn room_terms_ok(room: RoomView) -> bool {
    &&& valid_term_values(proper_name("VRChat"@))
    &&& forall|k: int|
        0 <= k < room_values(room).len() ==> valid_term_values(
            #[trigger] proper_name(room_values(room)[k]),
        )
}

/// The corpus published for a room: always active, triggered by `VRChat`,
/// with one proper-name term per room name.
pub open spec fn room_definition(room: RoomView) -> DefinitionView {
    DefinitionView {
        schema: CORPUS_SCHEMA@,
        id: RUNTIME_CORPUS_ID@,
        domain: "virtual-worlds"@,
        subdomain: "vrchat"@,
        title: "Current VRChat room"@,
        priority: 1000,
        activation: CorpusActivation::Always,
        triggers: seq![proper_name("VRChat"@)],
        trigger_aliases: Seq::empty(),
        activation_context: Seq::empty(),
        terms: room_values(room).map_values(|v: Seq<char>| proper_name(v)),
    }
}

/// Builds the corpus of a room (see `room_definition`).
pub fn room_corpus(room: &RoomSnapshot) -> (r: Result<CorpusDefinition, String>)
    ensures
        r is Ok <==> room_terms_ok(room@),
        r matches Ok(d) ==> d@ == room_definition(room@),
{
    let ghost rv = room@;
    let ghost items = seq![rv.world_name, rv.group_name, rv.region] + rv.players;
    let mut values: Vec<String> = Vec::new();
    push_unique(&mut values, room.world_name.as_str());
    assert(items.take(1).drop_last() =~= Seq::<Seq<char>>::empty());
    assert(push_all_unique(Seq::empty(), Seq::<Seq<char>>::empty()) == Seq::<Seq<char>>::empty());
    assert(items.take(1).last() == rv.world_name);
    assert(sv(values@) == push_all_unique(Seq::empty(), items.take(1)));
    push_unique(&mut values, room.group_name.as_str());
    assert(items.take(2).drop_last() =~= items.take(1));
    assert(items.take(2).last() == rv.group_name);
    assert(sv(values@) == push_all_unique(Seq::empty(), items.take(2)));
    push_unique(&mut values, room.region.as_str());
    assert(items.take(3).drop_last() =~= items.take(2));
    assert(items.take(3).last() == rv.region);
    assert(sv(values@) == push_all_unique(Seq::empty(), items.take(3)));
    let mut p: usize = 0;
    while p < room.players.len()
        invariant
            0 <= p <= room.players@.len(),
            rv == room@,
            items == seq![rv.world_name, rv.group_name, rv.region] + rv.players,
            sv(values@) == push_all_unique(Seq::empty(), items.take(3 + p)),
        decreases room.players@.len() - p,
    {
        push_unique(&mut values, room.players[p].as_str());
        assert(items.take(3 + p + 1).drop_last() =~= items.take(3 + p));
        assert(items.take(3 + p + 1).last() == rv.players[p as int]);
        p = p + 1;
    }
    assert(items.take(3 + room.players@.len() as int) =~= items);
    if values.len() == 0 {
        values.push(owned("VRChat"));
    }
    let ghost names = sv(values@);
    assert(names == room_values(rv));
    let trigger = match multilingual_proper_name("VRChat") {
        Ok(t) => t,
        Err(e) => {
            return Err(e);
        },
    };
    let mut terms: Vec<CorpusTerm> = Vec::new();
    let mut k: usize = 0;
    while k < values.len()
        invariant
            0 <= k <= values@.len(),
            rv == room@,
            names == sv(values@),
            names == room_values(rv),
            valid_term_values(proper_name("VRChat"@)),
            crate::corpus::terms_view(terms@) == names.take(k as int).map_values(
                |v: Seq<char>| proper_name(v),
            ),
            forall|q: int| 0 <= q < k ==> valid_term_values(#[trigger] proper_name(names[q])),
        decreases values@.len() - k,
    {
        let t = match multilingual_proper_name(values[k].as_str()) {
            Ok(t) => t,
            Err(e) => {
                assert(!valid_term_values(proper_name(names[k as int])));
                return Err(e);
            },
        };
        let ghost before = crate::corpus::terms_view(terms@);
        terms.push(t);
        assert(crate::corpus::terms_view(terms@) =~= before.push(proper_name(names[k as int])));
        assert(names.take(k + 1).map_values(|v: Seq<char>| proper_name(v)) =~= names.take(
            k as int,
        ).map_values(|v: Seq<char>| proper_name(v)).push(proper_name(names[k as int])));
        k = k + 1;
    }
    assert(names.take(names.len() as int) =~= names);
    let mut triggers: Vec<CorpusTerm> = Vec::new();
    triggers.push(trigger);
    let d = CorpusDefinition {
        schema: owned(CORPUS_SCHEMA),
        id: owned(RUNTIME_CORPUS_ID),
        domain: owned("virtual-worlds"),
        subdomain: owned("vrchat"),
        title: owned("Current VRChat room"),
        priority: 1_000,
        activation: CorpusActivation::Always,
        triggers,
        trigger_aliases: Vec::new(),
        activation_context: Vec::new(),
        terms,
    };
    assert(crate::corpus::terms_view(d.triggers@) =~= seq![proper_name("VRChat"@)]);
    assert(crate::corpus::terms_view(d.trigger_aliases@) =~= Seq::<Seq<Seq<char>>>::empty());
    assert(crate::corpus::terms_view(d.activation_context@) =~= Seq::<Seq<Seq<char>>>::empty());
    assert(d@ =~= room_definition(rv));
    Ok(d)
}

// ---------------------------------------------------------------------------
// Rebuilding the room from the game log.
// ---------------------------------------------------------------------------

/// How many join/leave rows are read for a room, newest first: 32 per
/// player, between 256 and 8192.
pub open spec fn scan_limit_spec(max_players: int) -> int {
    if max_players * 32 < 256 {
        256
    } else if max_players * 32 > 8192 {
        8192
    } else {
        max_players * 32
    }
}

/// The number of join/leave rows to read (see `scan_limit_spec`).
pub fn player_scan_limit(max_players: usize) -> (r: i64)
    ensures
        r == scan_limit_spec(max_players as int),
{
    if max_players > 256 {
        8_192
    } else {
        let m = (max_players * 32) as i64;
        if m < 256 {
            256
        } else {
            m
        }
    }
}

/// One row of VRCX's join/leave log.
#[derive(Debug)]
pub struct JoinLeaveEvent {
    pub event_type: String,
    pub display_name: String,
    pub user_id: String,
}

/// The mathematical content of a join/leave row.
pub struct EventView {
    pub event_type: Seq<char>,
    pub display_name: Seq<char>,
    pub user_id: Seq<char>,
}

impl View for JoinLeaveEvent {
    type V = EventView;

    open spec fn view(&self) -> EventView {
        EventView {
            event_type: self.event_type@,
            display_name: self.display_name@,
            user_id: self.user_id@,
        }
    }
}

/// The views of a list of rows.
pub open spec fn events_view(rows: Seq<JoinLeaveEvent>) -> Seq<EventView> {
    rows.map_values(|e: JoinLeaveEvent| e@)
}

/// Who a row is about: its user ID, or its lowercased name without one.
pub open spec fn identity_spec(name: Seq<char>, user_id: Seq<char>) -> Seq<char> {
    if user_id.len() == 0 {
        str_lowercase(name)
    } else {
        user_id
    }
}

/// Reads the first `k` rows, newest first: the identities seen, the players
/// still in the room, and whether enough players were found. A row with an
/// empty name is skipped; only the newest row of each person counts, and it
/// names a player when it is a join.
pub open spec fn scan_players(rows: Seq<EventView>, max_players: int, k: int) -> (
    Seq<Seq<char>>,
    Seq<Seq<char>>,
    bool,
)
    decreases k,
{
    if k <= 0 {
        (Seq::empty(), Seq::empty(), false)
    } else {
        let (seen, players, done) = scan_players(rows, max_players, k - 1);
        let e = rows[k - 1];
        let name = clean_spec(e.display_name, 80);
        let id = identity_spec(name, e.user_id);
        if done || name.len() == 0 || seen.contains(id) {
            (seen, players, done)
        } else if e.event_type == "OnPlayerJoined"@ {
            (seen.push(id), players.push(name), players.len() + 1 >= max_players)
        } else {
            (seen.push(id), players, false)
        }
    }
}

/// Where a stable sort by lowercased name puts `x` among `s`: before the
/// first name that sorts after it.
pub open spec fn lower_insert_point(s: Seq<Seq<char>>, x: Seq<char>, from: int) -> int
    decreases s.len() - from,
{
    if from < 0 || from >= s.len() || seq_lt(str_lowercase(x), str_lowercase(s[from])) {
        from
    } else {
        lower_insert_point(s, x, from + 1)
    }
}

/// Names sorted by their lowercased form, equal forms kept in order.
pub open spec fn sort_by_lower(s: Seq<Seq<char>>) -> Seq<Seq<char>>
    decreases s.len(),
{
    if s.len() == 0 {
        s
    } else {
        let r = sort_by_lower(s.drop_last());
        r.insert(lower_insert_point(r, s.last(), 0), s.last())
    }
}

/// Whether names are in order of their lowercased forms.
pub open spec fn sorted_by_lower(s: Seq<Seq<char>>) -> bool {
    forall|i: int, j: int|
        0 <= i < j < s.len() ==> !seq_lt(str_lowercase(#[trigger] s[j]), str_lowercase(
            #[trigger] s[i],
        ))
}

proof fn lemma_lower_insert_point(s: Seq<Seq<char>>, x: Seq<char>, from: int)
    requires
        0 <= from <= s.len(),
    ensures
        from <= lower_insert_point(s, x, from) <= s.len(),
        forall|q: int|
            from <= q < lower_insert_point(s, x, from) ==> !seq_lt(
                str_lowercase(x),
                str_lowercase(#[trigger] s[q]),
            ),
        lower_insert_point(s, x, from) < s.len() ==> seq_lt(
            str_lowercase(x),
            str_lowercase(s[lower_insert_point(s, x, from)]),
        ),
    decreases s.len() - from,
{
    if from < s.len() && !seq_lt(str_lowercase(x), str_lowercase(s[from])) {
        lemma_lower_insert_point(s, x, from + 1);
    }
}

/// Inserting at the stable insertion point keeps names sorted.
proof fn lemma_insert_sorted(s: Seq<Seq<char>>, x: Seq<char>)
    requires
        sorted_by_lower(s),
    ensures
        sorted_by_lower(s.insert(lower_insert_point(s, x, 0), x)),
{
    lemma_lower_insert_point(s, x, 0);
    let p = lower_insert_point(s, x, 0);
    let r = s.insert(p, x);
    assert forall|i: int, j: int| 0 <= i < j < r.len() implies !seq_lt(
        str_lowercase(#[trigger] r[j]),
        str_lowercase(#[trigger] r[i]),
    ) by {
        if j < p {
            assert(r[i] == s[i] && r[j] == s[j]);
        } else if j == p {
            assert(r[i] == s[i]);
        } else if i == p {
            assert(r[j] == s[j - 1]);
            let kx = str_lowercase(x);
            let kp = str_lowercase(s[p]);
            let kq = str_lowercase(s[j - 1]);
            if j - 1 > p {
                assert(!seq_lt(kq, kp));
            }
            if seq_lt(kq, kx) {
                lemma_lt_transitive(kq, kx, kp);
                lemma_lt_asymmetric(kx, kp);
            }
        } else if i < p {
            assert(r[i] == s[i] && r[j] == s[j - 1]);
        } else {
            assert(r[i] == s[i - 1] && r[j] == s[j - 1]);
        }
    }
}

/// A stable sort by lowercased name sorts.
pub proof fn lemma_sort_by_lower_sorted(s: Seq<Seq<char>>)
    ensures
        sorted_by_lower(sort_by_lower(s)),
        sort_by_lower(s).len() == s.len(),
    decreases s.len(),
{
    if s.len() > 0 {
        lemma_sort_by_lower_sorted(s.drop_last());
        lemma_insert_sorted(sort_by_lower(s.drop_last()), s.last());
        lemma_lower_insert_point(sort_by_lower(s.drop_last()), s.last(), 0);
    }
}

/// The players of a room from its join/leave rows, newest first: the scan's
/// players in order of their lowercased names.
pub open spec fn room_players_spec(rows: Seq<EventView>, max_players: int) -> Seq<Seq<char>> {
    sort_by_lower(scan_players(rows, max_players, rows.len() as int).1)
}

/// Inserts a name at its stable position by lowercased name.
fn insert_by_lower(names: &mut Vec<String>, name: String)
    ensures
        sv(final(names)@) == sv(old(names)@).insert(
            lower_insert_point(sv(old(names)@), name@, 0),
            name@,
        ),
{
    let ghost s = sv(names@);
    let key = lowercase_str(name.as_str());
    let mut p: usize = 0;
    while p < names.len() && !str_less(key.as_str(), lowercase_str(names[p].as_str()).as_str())
        invariant
            0 <= p <= names@.len(),
            s == sv(names@),
            key@ == str_lowercase(name@),
            lower_insert_point(s, name@, 0) == lower_insert_point(s, name@, p as int),
        decreases names@.len() - p,
    {
        p = p + 1;
    }
    let ghost nv = name@;
    names.insert(p, name);
    assert(sv(names@) =~= s.insert(p as int, nv));
}

/// The players of a room (see `room_players_spec`).
pub fn room_players(rows: &Vec<JoinLeaveEvent>, max_players: usize) -> (r: Vec<String>)
    ensures
        sv(r@) == room_players_spec(events_view(rows@), max_players as int),
        sorted_by_lower(sv(r@)),
{
    let ghost ev = events_view(rows@);
    let mut seen: Vec<String> = Vec::new();
    let mut players: Vec<String> = Vec::new();
    let mut done = false;
    let mut k: usize = 0;
    while k < rows.len()
        invariant
            0 <= k <= rows@.len(),
            ev == events_view(rows@),
            (sv(seen@), sv(players@), done) == scan_players(ev, max_players as int, k as int),
            players@.len() <= k,
        decreases rows@.len() - k,
    {
        let e = &rows[k];
        assert(ev[k as int] == e@);
        if !done {
            let name = clean_term(e.display_name.as_str(), 80);
            if name.as_str().unicode_len() > 0 {
                let id = if e.user_id.as_str().unicode_len() == 0 {
                    lowercase_str(name.as_str())
                } else {
                    e.user_id.clone()
                };
                if !strings_contain(&seen, id.as_str()) {
                    let ghost sb = sv(seen@);
                    seen.push(id);
                    assert(sv(seen@) =~= sb.push(identity_spec(name@, e@.user_id)));
                    if str_eq(e.event_type.as_str(), "OnPlayerJoined") {
                        let ghost pb = sv(players@);
                        players.push(name);
                        assert(sv(players@) =~= pb.push(clean_spec(e@.display_name, 80)));
                        done = players.len() >= max_players;
                    }
                }
            }
        }
        k = k + 1;
    }
    assert(ev.len() == rows@.len());
    let ghost scanned = sv(players@);
    let mut sorted: Vec<String> = Vec::new();
    let mut q: usize = 0;
    while q < players.len()
        invariant
            0 <= q <= players@.len(),
            scanned == sv(players@),
            sv(sorted@) == sort_by_lower(scanned.take(q as int)),
        decreases players@.len() - q,
    {
        assert(scanned.take(q + 1).drop_last() =~= scanned.take(q as int));
        assert(scanned.take(q + 1).last() == players@[q as int]@);
        insert_by_lower(&mut sorted, players[q].clone());
        q = q + 1;
    }
    assert(scanned.take(scanned.len() as int) =~= scanned);
    proof {
        lemma_sort_by_lower_sorted(scanned);
    }
    sorted
}

/// The room as read from the game log, before it is cleaned.
pub open spec fn room_spec(
    world_name: Seq<char>,
    group_name: Seq<char>,
    location: Seq<char>,
    rows: Seq<EventView>,
    max_players: int,
) -> RoomView {
    RoomView {
        world_name: clean_spec(world_name, 120),
        group_name: clean_spec(group_name, 120),
        region: region_spec(location),
        players: room_players_spec(rows, max_players),
    }
}

/// Rebuilds the current room from the latest location and its join/leave
/// rows, newest first (see `room_spec`).
pub fn room_from_log(
    world_name: &str,
    group_name: &str,
    location: &str,
    rows: &Vec<JoinLeaveEvent>,
    max_players: usize,
) -> (r: RoomSnapshot)
    ensures
        r@ == room_spec(world_name@, group_name@, location@, events_view(rows@), max_players as int),
        sorted_by_lower(r@.players),
{
    RoomSnapshot {
        world_name: clean_term(world_name, 120),
        group_name: clean_term(group_name, 120),
        region: location_region(location),
        players: room_players(rows, max_players),
    }
}

// ---------------------------------------------------------------------------
// The provider's state.
// ---------------------------------------------------------------------------

/// What the provider last saw; `updated_at` is in milliseconds on the
/// provider's clock.
#[derive(Debug)]
pub struct RuntimeStatus {
    pub vrcx_running: bool,
    pub vrchat_running: bool,
    pub connected: bool,
    pub database_path: String,
    pub world_name: String,
    pub player_count: usize,
    pub term_count: usize,
    pub updated_at: Option<u64>,
    pub last_error: String,
}

/// The mathematical content of a status.
pub struct StatusView {
    pub vrcx_running: bool,
    pub vrchat_running: bool,
    pub connected: bool,
    pub database_path: Seq<char>,
    pub world_name: Seq<char>,
    pub player_count: usize,
    pub term_count: usize,
    pub updated_at: Option<u64>,
    pub last_error: Seq<char>,
}

impl View for RuntimeStatus {
    type V = StatusView;

    open spec fn view(&self) -> StatusView {
        StatusView {
            vrcx_running: self.vrcx_running,
            vrchat_running: self.vrchat_running,
            connected: self.connected,
            database_path: self.database_path@,
            world_name: self.world_name@,
            player_count: self.player_count,
            term_count: self.term_count,
            updated_at: self.updated_at,
            last_error: self.last_error@,
        }
    }
}

/// The status before anything was seen.
pub open spec fn empty_status() -> StatusView {
    StatusView {
        vrcx_running: false,
        vrchat_running: false,
        connected: false,
        database_path: Seq::empty(),
        world_name: Seq::empty(),
        player_count: 0,
        term_count: 0,
        updated_at: None,
        last_error: Seq::empty(),
    }
}

impl Default for RuntimeStatus {
    fn default() -> (r: Self)
        ensures
            r@ == empty_status(),
    {
        RuntimeStatus {
            vrcx_running: false,
            vrchat_running: false,
            connected: false,
            database_path: String::new(),
            world_name: String::new(),
            player_count: 0,
            term_count: 0,
            updated_at: None,
            last_error: String::new(),
        }
    }
}

/// What one look at VRCX found.
#[derive(Debug)]
pub enum RefreshOutcome {
    /// VRCX or VRChat is not running.
    Unavailable { vrcx_running: bool, vrchat_running: bool, database_path: String },
    /// Both run, and the current room was read.
    Available { database_path: String, room: RoomSnapshot },
}

/// Milliseconds from `since` to `now`, none when the clock reads earlier.
pub open spec fn elapsed_spec(now: u64, since: u64) -> u64 {
    if now >= since {
        (now - since) as u64
    } else {
        0
    }
}

/// Whether a room read at `updated_at` is still live at `now`.
pub open spec fn still_connected(updated_at: Option<u64>, ttl_seconds: u64, now: u64) -> bool {
    match updated_at {
        Some(u) => elapsed_spec(now, u) < ttl_seconds * 1000,
        None => false,
    }
}

/// The automatic VRCX provider: its configuration and what it last saw.
/// The runtime registry it publishes to is passed to each refresh.
pub struct VrcxRuntimeSource {
    config: VrcxIntegrationConfig,
    project_root: String,
    epoch: std::time::Instant,
    status: RuntimeStatus,
}

/// The mathematical content of the provider.
pub struct VrcxSourceView {
    pub enabled: bool,
    pub database_path: Option<Seq<char>>,
    pub ttl_seconds: u64,
    pub max_players: usize,
    pub poll_interval_ms: u64,
    pub project_root: Seq<char>,
    pub status: StatusView,
}

impl View for VrcxRuntimeSource {
    type V = VrcxSourceView;

    closed spec fn view(&self) -> VrcxSourceView {
        VrcxSourceView {
            enabled: self.config.enabled,
            database_path: match self.config.database_path {
                Some(p) => Some(p@),
                None => None,
            },
            ttl_seconds: self.config.snapshot_ttl_seconds,
            max_players: self.config.max_players,
            poll_interval_ms: self.config.poll_interval_ms,
            project_root: self.project_root@,
            status: self.status@,
        }
    }
}

/// A copy of a string.
fn copy_string(s: &String) -> (r: String)
    ensures
        r@ == s@,
{
    s.clone()
}

impl VrcxRuntimeSource {
    /// Whether the provider's limits lie in their ranges.
    pub open spec fn wf(&self) -> bool {
        vrcx_limits_ok(self@.ttl_seconds, self@.max_players, self@.poll_interval_ms)
    }

    /// A provider that has seen nothing yet; its limits are checked.
    pub fn new(config: VrcxIntegrationConfig, project_root: &str) -> (r: Result<Self, String>)
        ensures
            r is Ok <==> vrcx_limits_ok(
                config.snapshot_ttl_seconds,
                config.max_players,
                config.poll_interval_ms,
            ),
            r matches Err(e) ==> e@ == vrcx_limits_error(
                config.snapshot_ttl_seconds,
                config.max_players,
                config.poll_interval_ms,
            ),
            r matches Ok(s) ==> s.wf() && s@ == (VrcxSourceView {
                enabled: config.enabled,
                database_path: match config.database_path {
                    Some(p) => Some(p@),
                    None => None,
                },
                ttl_seconds: config.snapshot_ttl_seconds,
                max_players: config.max_players,
                poll_interval_ms: config.poll_interval_ms,
                project_root: project_root@,
                status: empty_status(),
            }),
    {
        match validate_vrcx_config(&config) {
            Ok(()) => {},
            Err(e) => {
                return Err(e);
            },
        }
        Ok(VrcxRuntimeSource {
            config,
            project_root: owned(project_root),
            epoch: instant_now(),
            status: RuntimeStatus::default(),
        })
    }

    /// The provider's configuration.
    pub fn config(&self) -> (r: &VrcxIntegrationConfig)
        ensures
            r.enabled == self@.enabled,
            r.snapshot_ttl_seconds == self@.ttl_seconds,
            r.max_players == self@.max_players,
            r.poll_interval_ms == self@.poll_interval_ms,
            match r.database_path {
                Some(p) => self@.database_path == Some(p@),
                None => self@.database_path is None,
            },
    {
        &self.config
    }

    /// The directory against which a relative database path is read.
    pub fn project_root(&self) -> (r: &str)
        ensures
            r@ == self@.project_root,
    {
        self.project_root.as_str()
    }

    /// Milliseconds on the provider's clock.
    fn now(&self) -> u64 {
        millis_since(&self.epoch)
    }

    /// Publishes what a look at VRCX found: without VRCX and VRChat both
    /// running, the room corpus is withdrawn and the status records which
    /// ran; with the room read, its corpus replaces the provider's snapshot
    /// for the configured lifetime and the status describes the room. A
    /// room whose corpus cannot be built or published changes nothing.
    pub fn apply_outcome(&mut self, dynamic: &mut DynamicCorpusSource, outcome: RefreshOutcome) -> (r:
        Result<(), String>)
        requires
            old(self).wf(),
            old(dynamic).wf(),
        ensures
            final(self).wf(),
            final(dynamic).wf(),
            final(self)@.enabled == old(self)@.enabled,
            final(self)@.database_path == old(self)@.database_path,
            final(self)@.ttl_seconds == old(self)@.ttl_seconds,
            final(self)@.max_players == old(self)@.max_players,
            final(self)@.poll_interval_ms == old(self)@.poll_interval_ms,
            final(self)@.project_root == old(self)@.project_root,
            outcome matches RefreshOutcome::Unavailable { vrcx_running, vrchat_running, database_path }
                ==> r is Ok && final(dynamic)@ == remove_provider_spec(old(dynamic)@, PROVIDER_ID@)
                && final(self)@.status == (StatusView {
                vrcx_running,
                vrchat_running,
                database_path: database_path@,
                ..empty_status()
            }),
            outcome matches RefreshOutcome::Available { database_path, room } ==> {
                &&& r is Ok <==> room_terms_ok(room@) && publishable(
                    PROVIDER_ID@,
                    seq![room_definition(room@)],
                )
                &&& r is Ok ==> (exists|now: u64|
                    final(dynamic)@ == upsert_provider(
                        old(dynamic)@,
                        ProviderView {
                            provider_id: PROVIDER_ID@,
                            expires_at: #[trigger] expiry(
                                now,
                                Some((old(self)@.ttl_seconds * 1000) as u64),
                            ),
                            corpora: seq![room_definition(room@)],
                        },
                    ))
                &&& r is Ok ==> final(self)@.status.updated_at is Some && final(self)@.status == (
                StatusView {
                    vrcx_running: true,
                    vrchat_running: true,
                    connected: true,
                    database_path: database_path@,
                    world_name: room@.world_name,
                    player_count: room@.players.len() as usize,
                    term_count: room_values(room@).len() as usize,
                    updated_at: final(self)@.status.updated_at,
                    last_error: Seq::empty(),
                })
                &&& r is Err ==> final(self)@ == old(self)@ && final(dynamic)@ == old(dynamic)@
            },
    {
        match outcome {
            RefreshOutcome::Unavailable { vrcx_running, vrchat_running, database_path } => {
                match dynamic.remove_provider(PROVIDER_ID) {
                    Ok(()) => {},
                    Err(e) => {
                        return Err(e);
                    },
                }
                let mut status = RuntimeStatus::default();
                status.vrcx_running = vrcx_running;
                status.vrchat_running = vrchat_running;
                status.database_path = database_path;
                self.status = status;
                Ok(())
            },
            RefreshOutcome::Available { database_path, room } => {
                let corpus = match room_corpus(&room) {
                    Ok(c) => c,
                    Err(e) => {
                        return Err(e);
                    },
                };
                let term_count = corpus.terms.len();
                assert(corpus@.terms == room_values(room@).map_values(|v: Seq<char>| proper_name(v)));
                assert(term_count == corpus@.terms.len());
                assert(term_count == room_values(room@).len());
                let player_count = room.players.len();
                let world_name = copy_string(&room.world_name);
                let ttl_millis = self.config.snapshot_ttl_seconds * 1000;
                let ghost cv = corpus@;
                let mut corpora: Vec<CorpusDefinition> = Vec::new();
                corpora.push(corpus);
                assert(crate::corpus::definitions_view(corpora@) =~= seq![cv]);
                match dynamic.replace_snapshot(PROVIDER_ID, corpora, Some(ttl_millis)) {
                    Ok(()) => {},
                    Err(e) => {
                        return Err(e);
                    },
                }
                let now = self.now();
                self.status = RuntimeStatus {
                    vrcx_running: true,
                    vrchat_running: true,
                    connected: true,
                    database_path,
                    world_name,
                    player_count,
                    term_count,
                    updated_at: Some(now),
                    last_error: String::new(),
                };
                Ok(())
            },
        }
    }

    /// Records a failed look at VRCX at time `now`: the room counts as
    /// connected while its snapshot is within its lifetime.
    pub fn set_error_at(&mut self, error: &str, now: u64)
        requires
            old(self).wf(),
        ensures
            final(self).wf(),
            final(self)@ == (VrcxSourceView {
                status: StatusView {
                    connected: still_connected(
                        old(self)@.status.updated_at,
                        old(self)@.ttl_seconds,
                        now,
                    ),
                    last_error: error@,
                    ..old(self)@.status
                },
                ..old(self)@
            }),
    {
        let ttl_millis = self.config.snapshot_ttl_seconds * 1000;
        let connected = match self.status.updated_at {
            Some(u) => {
                let elapsed = if now >= u {
                    now - u
                } else {
                    0
                };
                elapsed < ttl_millis
            },
            None => false,
        };
        self.status.connected = connected;
        self.status.last_error = owned(error);
    }

    /// Records a failed look at VRCX now (see `set_error_at`).
    pub fn set_error(&mut self, error: &str)
        requires
            old(self).wf(),
        ensures
            final(self).wf(),
            exists|now: u64|
                final(self)@ == (VrcxSourceView {
                    status: StatusView {
                        connected: #[trigger] still_connected(
                            old(self)@.status.updated_at,
                            old(self)@.ttl_seconds,
                            now,
                        ),
                        last_error: error@,
                        ..old(self)@.status
                    },
                    ..old(self)@
                }),
    {
        let now = self.now();
        self.set_error_at(error, now);
    }

    /// The status reported at time `now`: the configuration's switch, the
    /// last look's findings, and the room's age.
    pub fn status_response_at(&self, now: u64) -> (r: VrcxStatusResponse)
        ensures
            r.enabled == self@.enabled,
            r.vrcx_running == self@.status.vrcx_running,
            r.vrchat_running == self@.status.vrchat_running,
            r.connected == self@.status.connected,
            r.database_path@ == self@.status.database_path,
            r.world_name@ == self@.status.world_name,
            r.player_count == self@.status.player_count,
            r.term_count == self@.status.term_count,
            r.age_ms == match self@.status.updated_at {
                Some(u) => Some(elapsed_spec(now, u)),
                None => None,
            },
            r.last_error@ == self@.status.last_error,
    {
        let age_ms = match self.status.updated_at {
            Some(u) => Some(
                if now >= u {
                    now - u
                } else {
                    0
                },
            ),
            None => None,
        };
        VrcxStatusResponse {
            enabled: self.config.enabled,
            vrcx_running: self.status.vrcx_running,
            vrchat_running: self.status.vrchat_running,
            connected: self.status.connected,
            database_path: copy_string(&self.status.database_path),
            world_name: copy_string(&self.status.world_name),
            player_count: self.status.player_count,
            term_count: self.status.term_count,
            age_ms,
            last_error: copy_string(&self.status.last_error),
        }
    }

    /// The status reported now (see `status_response_at`).
    pub fn status_response(&self) -> (r: VrcxStatusResponse)
        ensures
            r.enabled == self@.enabled,
            r.vrcx_running == self@.status.vrcx_running,
            r.vrchat_running == self@.status.vrchat_running,
            r.connected == self@.status.connected,
            r.database_path@ == self@.status.database_path,
            r.world_name@ == self@.status.world_name,
            r.player_count == self@.status.player_count,
            r.term_count == self@.status.term_count,
            r.age_ms is Some <==> self@.status.updated_at is Some,
            r.last_error@ == self@.status.last_error,
    {
        let now = self.now();
        self.status_response_at(now)
    }
}

} // verus!
