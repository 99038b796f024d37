//! Prompt rendering and the character and token budgets of prompts.

use vstd::prelude::*;

use crate::fold::{fold, fold_chars_of};
use crate::text::{append_str, chars_of, owned};

verus! {

broadcast use vstd::string::group_string_axioms;

/// Joins strings with a separator (`[T]::join`).
pub open spec fn join(parts: Seq<Seq<char>>, sep: Seq<char>) -> Seq<char>
    decreases parts.len(),
{
    if parts.len() == 0 {
        Seq::empty()
    } else if parts.len() == 1 {
        parts[0]
    } else {
        join(parts.drop_last(), sep) + sep + parts.last()
    }
}

/// The views of a list of strings.
pub open spec fn sv(v: Seq<String>) -> Seq<Seq<char>> {
    v.map_values(|s: String| s@)
}

/// Joins strings with a separator.
pub fn join_strings(parts: &[String], sep: &str) -> (r: String)
    ensures
        r@ == join(sv(parts@), sep@),
{
    let mut r = String::new();
    let mut i: usize = 0;
    while i < parts.len()
        invariant
            0 <= i <= parts@.len(),
            r@ == join(sv(parts@.take(i as int)), sep@),
        decreases parts@.len() - i,
    {
        let ghost prev = sv(parts@.take(i as int));
        assert(sv(parts@.take(i + 1)) =~= prev.push(parts@[i as int]@));
        assert(sv(parts@.take(i + 1)).drop_last() =~= prev);
        if i > 0 {
            append_str(&mut r, sep);
        }
        append_str(&mut r, parts[i].as_str());
        proof {
            if i == 0 {
                assert(r@ =~= sv(parts@.take(1))[0]);
            }
        }
        i = i + 1;
    }
    assert(parts@.take(parts@.len() as int) =~= parts@);
    r
}

/// Character weight of the token estimate: one third of a token for ASCII,
/// one token otherwise.
pub open spec fn token_weight(c: char) -> nat {
    if (c as u32) < 128 {
        1
    } else {
        3
    }
}

/// Sum of the token weights of a string.
pub open spec fn token_weight_sum(s: Seq<char>) -> nat
    decreases s.len(),
{
    if s.len() == 0 {
        0
    } else {
        token_weight_sum(s.drop_last()) + token_weight(s.last())
    }
}

/// Tokenizer-independent token estimate: ASCII text at roughly three
/// characters per token, other characters (mostly CJK) one token each.
pub open spec fn estimated_tokens(s: Seq<char>) -> nat {
    (token_weight_sum(s) + 2) / 3
}

/// Whether a prompt fits both a character and a token budget.
pub open spec fn within_budget(s: Seq<char>, char_budget: int, token_budget: int) -> bool {
    s.len() <= char_budget && estimated_tokens(s) <= token_budget
}

proof fn lemma_token_weight_bound(s: Seq<char>)
    ensures
        token_weight_sum(s) <= 3 * s.len(),
    decreases s.len(),
{
    if s.len() > 0 {
        lemma_token_weight_bound(s.drop_last());
    }
}

/// The token estimate of a prompt.
pub fn estimated_prompt_tokens(prompt: &str) -> (r: usize)
    ensures
        r == estimated_tokens(prompt@),
{
    let chars = chars_of(prompt);
    let mut total: u128 = 0;
    let mut i: usize = 0;
    while i < chars.len()
        invariant
            0 <= i <= chars@.len(),
            total == token_weight_sum(chars@.take(i as int)),
            total <= 3 * i,
        decreases chars@.len() - i,
    {
        assert(chars@.take(i + 1).drop_last() =~= chars@.take(i as int));
        if (chars[i] as u32) < 128 {
            total = total + 1;
        } else {
            total = total + 3;
        }
        i = i + 1;
    }
    assert(chars@.take(chars@.len() as int) =~= chars@);
    assert((total + 2) / 3 <= chars@.len()) by (nonlinear_arith)
        requires
            total <= 3 * chars@.len(),
    ;
    ((total + 2) / 3) as usize
}

/// Whether a prompt fits both budgets.
pub fn within_prompt_budget(prompt: &str, char_budget: usize, token_budget: usize) -> (r: bool)
    ensures
        r == within_budget(prompt@, char_budget as int, token_budget as int),
{
    let chars = chars_of(prompt);
    chars.len() <= char_budget && estimated_prompt_tokens(prompt) <= token_budget
}

/// `Vocabulary: ` followed by the comma-separated hotwords.
pub open spec fn asr_prompt_text(hotwords: Seq<Seq<char>>) -> Seq<char> {
    "Vocabulary: "@ + join(hotwords, ", "@)
}

/// Renders the ASR hotword prompt.
pub fn render_asr_prompt(hotwords: &[String]) -> (r: String)
    ensures
        r@ == asr_prompt_text(sv(hotwords@)),
{
    let mut r = owned("Vocabulary: ");
    let joined = join_strings(hotwords, ", ");
    append_str(&mut r, joined.as_str());
    r
}

/// One confirmed source/translation pair kept as session history.
#[derive(Debug, PartialEq, Eq)]
pub struct HistoryTurn {
    pub source_language: String,
    pub target_language: String,
    pub source_text: String,
    pub translated_text: String,
}

/// The mathematical content of a history turn.
pub struct HistoryView {
    pub source_language: Seq<char>,
    pub target_language: Seq<char>,
    pub source_text: Seq<char>,
    pub translated_text: Seq<char>,
}

impl View for HistoryTurn {
    type V = HistoryView;

    open spec fn view(&self) -> HistoryView {
        HistoryView {
            source_language: self.source_language@,
            target_language: self.target_language@,
            source_text: self.source_text@,
            translated_text: self.translated_text@,
        }
    }
}

impl Clone for HistoryTurn {
    fn clone(&self) -> (r: Self)
        ensures
            r@ == self@,
    {
        HistoryTurn {
            source_language: self.source_language.clone(),
            target_language: self.target_language.clone(),
            source_text: self.source_text.clone(),
            translated_text: self.translated_text.clone(),
        }
    }
}

/// The views of a list of history turns.
pub open spec fn hv(v: Seq<HistoryTurn>) -> Seq<HistoryView> {
    v.map_values(|t: HistoryTurn| t@)
}

/// Copies a list of history turns.
pub fn clone_turns(v: &[HistoryTurn]) -> (r: Vec<HistoryTurn>)
    ensures
        hv(r@) == hv(v@),
{
    let mut r: Vec<HistoryTurn> = Vec::new();
    let mut i: usize = 0;
    while i < v.len()
        invariant
            0 <= i <= v@.len(),
            hv(r@) == hv(v@.take(i as int)),
        decreases v@.len() - i,
    {
        let t = v[i].clone();
        let ghost before = r@;
        r.push(t);
        assert(hv(r@) =~= hv(before).push(v@[i as int]@));
        assert(hv(v@.take(i + 1)) =~= hv(v@.take(i as int)).push(v@[i as int]@));
        i = i + 1;
    }
    assert(v@.take(v@.len() as int) =~= v@);
    r
}

/// The rendering of one history turn.
pub open spec fn turn_text(t: HistoryView) -> Seq<char> {
    "\n\n"@ + t.source_language + ": "@ + t.source_text + "\n"@ + t.target_language + ": "@
        + t.translated_text
}

/// The rendering of history turns, in order.
pub open spec fn turns_text(turns: Seq<HistoryView>) -> Seq<char>
    decreases turns.len(),
{
    if turns.len() == 0 {
        Seq::empty()
    } else {
        turns_text(turns.drop_last()) + turn_text(turns.last())
    }
}

/// The terminology section (absent without rows).
pub open spec fn terms_section(rows: Seq<Seq<char>>) -> Seq<char> {
    if rows.len() == 0 {
        Seq::empty()
    } else {
        "\n\n## Terminology\n\n"@ + join(rows, "\n"@)
    }
}

/// The history section (absent without turns).
pub open spec fn history_section(turns: Seq<HistoryView>) -> Seq<char> {
    if turns.len() == 0 {
        Seq::empty()
    } else {
        "\n\n## Recent Bilingual History"@ + turns_text(turns)
    }
}

/// The translation context prompt: language order, terminology rows and
/// recent bilingual history.
pub open spec fn translation_prompt_text(
    languages: Seq<Seq<char>>,
    rows: Seq<Seq<char>>,
    turns: Seq<HistoryView>,
) -> Seq<char> {
    "# Translation Context\n\n## Language Order\n\n"@ + join(languages, ","@) + terms_section(rows)
        + history_section(turns)
}

/// Renders the translation context prompt.
pub fn render_translation_prompt(languages: &[String], terms: &[String], turns: &[HistoryTurn]) -> (r:
    String)
    ensures
        r@ == translation_prompt_text(sv(languages@), sv(terms@), hv(turns@)),
{
    let mut prompt = owned("# Translation Context\n\n## Language Order\n\n");
    let langs = join_strings(languages, ",");
    append_str(&mut prompt, langs.as_str());
    if terms.len() > 0 {
        append_str(&mut prompt, "\n\n## Terminology\n\n");
        let rows = join_strings(terms, "\n");
        append_str(&mut prompt, rows.as_str());
    }
    if turns.len() > 0 {
        append_str(&mut prompt, "\n\n## Recent Bilingual History");
        let ghost base = prompt@;
        let mut i: usize = 0;
        while i < turns.len()
            invariant
                0 <= i <= turns@.len(),
                prompt@ == base + turns_text(hv(turns@.take(i as int))),
            decreases turns@.len() - i,
        {
            assert(hv(turns@.take(i + 1)).drop_last() =~= hv(turns@.take(i as int)));
            assert(hv(turns@.take(i + 1)).last() == turns@[i as int]@);
            let ghost before = prompt@;
            append_str(&mut prompt, "\n\n");
            append_str(&mut prompt, turns[i].source_language.as_str());
            append_str(&mut prompt, ": ");
            append_str(&mut prompt, turns[i].source_text.as_str());
            append_str(&mut prompt, "\n");
            append_str(&mut prompt, turns[i].target_language.as_str());
            append_str(&mut prompt, ": ");
            append_str(&mut prompt, turns[i].translated_text.as_str());
            assert(prompt@ =~= before + turn_text(turns@[i as int]@));
            i = i + 1;
        }
        assert(turns@.take(turns@.len() as int) =~= turns@);
    }
    proof {
        let l = sv(languages@);
        let t = sv(terms@);
        let h = hv(turns@);
        assert(h.len() == turns@.len());
        assert(t.len() == terms@.len());
    }
    prompt
}

/// The newest `limit` elements of a sequence, oldest first.
pub open spec fn newest<T>(s: Seq<T>, limit: int) -> Seq<T> {
    if s.len() <= limit {
        s
    } else {
        s.subrange(s.len() - limit, s.len() as int)
    }
}

/// The newest `limit` history turns, oldest first.
pub fn newest_turns(turns: &[HistoryTurn], limit: usize) -> (r: Vec<HistoryTurn>)
    ensures
        hv(r@) == newest(hv(turns@), limit as int),
{
    let start = if turns.len() <= limit {
        0
    } else {
        turns.len() - limit
    };
    let mut r: Vec<HistoryTurn> = Vec::new();
    let mut i: usize = start;
    while i < turns.len()
        invariant
            start <= i <= turns@.len(),
            hv(r@) == hv(turns@).subrange(start as int, i as int),
        decreases turns@.len() - i,
    {
        let t = turns[i].clone();
        let ghost before = r@;
        r.push(t);
        assert(hv(r@) =~= hv(before).push(turns@[i as int]@));
        assert(hv(turns@).subrange(start as int, i + 1) =~= hv(turns@).subrange(start as int, i as int).push(
            turns@[i as int]@,
        ));
        i = i + 1;
    }
    assert(hv(turns@).subrange(0, turns@.len() as int) =~= hv(turns@));
    r
}

/// Whether a list of folded keys contains `key`.
pub fn keys_contain(keys: &Vec<Vec<char>>, key: &[char]) -> (r: bool)
    ensures
        r == keys@.map_values(|k: Vec<char>| k@).contains(key@),
{
    let ghost view = keys@.map_values(|k: Vec<char>| k@);
    let mut i: usize = 0;
    while i < keys.len()
        invariant
            0 <= i <= keys@.len(),
            view == keys@.map_values(|k: Vec<char>| k@),
            forall|j: int| 0 <= j < i ==> view[j] != key@,
        decreases keys@.len() - i,
    {
        if crate::text::chars_eq(keys[i].as_slice(), key) {
            assert(view[i as int] == key@);
            return true;
        }
        i = i + 1;
    }
    false
}

/// The result of offering `values` in order to a deduplicating collector:
/// a value whose fold is empty or already seen is skipped.
pub open spec fn dedup_by_fold(values: Seq<Seq<char>>) -> (Seq<Seq<char>>, Set<Seq<char>>)
    decreases values.len(),
{
    if values.len() == 0 {
        (Seq::empty(), Set::empty())
    } else {
        let (kept, seen) = dedup_by_fold(values.drop_last());
        let key = fold(values.last());
        if key.len() == 0 || seen.contains(key) {
            (kept, seen)
        } else {
            (kept.push(values.last()), seen.insert(key))
        }
    }
}

/// The echo guard: the newest transcripts and the texts of the newest
/// history turns, without repeats (by folded form).
pub open spec fn echo_guard_spec(
    transcripts: Seq<Seq<char>>,
    turns: Seq<HistoryView>,
    limit: int,
) -> Seq<Seq<char>> {
    dedup_by_fold(newest(transcripts, limit) + turn_texts(newest(turns, limit))).0
}

/// Source and translated texts of turns, interleaved in order.
pub open spec fn turn_texts(turns: Seq<HistoryView>) -> Seq<Seq<char>>
    decreases turns.len(),
{
    if turns.len() == 0 {
        Seq::empty()
    } else {
        turn_texts(turns.drop_last()) + seq![turns.last().source_text, turns.last().translated_text]
    }
}

/// Pushing an element adds it to the set of elements.
pub proof fn lemma_push_to_set<T>(a: Seq<T>, x: T)
    ensures
        a.push(x).to_set() == a.to_set().insert(x),
{
    assert forall|y: T| a.push(x).to_set().contains(y) <==> a.to_set().insert(x).contains(y) by {
        if a.push(x).contains(y) {
            let k = choose|k: int| 0 <= k < a.push(x).len() && a.push(x)[k] == y;
            if k < a.len() {
                assert(a[k] == y);
            }
        }
        if a.contains(y) {
            let k = choose|k: int| 0 <= k < a.len() && a[k] == y;
            assert(a.push(x)[k] == y);
        }
        if y == x {
            assert(a.push(x)[a.len() as int] == x);
        }
    }
    assert(a.push(x).to_set() =~= a.to_set().insert(x));
}

/// Offers one value to the deduplicating collector.
fn offer_value(kept: &mut Vec<String>, seen: &mut Vec<Vec<char>>, value: &String, Ghost(values): Ghost<Seq<Seq<char>>>)
    requires
        sv(old(kept)@) == dedup_by_fold(values).0,
        old(seen)@.map_values(|k: Vec<char>| k@).to_set() == dedup_by_fold(values).1,
    ensures
        sv(final(kept)@) == dedup_by_fold(values.push(value@)).0,
        final(seen)@.map_values(|k: Vec<char>| k@).to_set() == dedup_by_fold(values.push(value@)).1,
{
    assert(values.push(value@).drop_last() =~= values);
    let key = fold_chars_of(value.as_str());
    if key.len() == 0 {
        return;
    }
    if keys_contain(seen, key.as_slice()) {
        return;
    }
    let ghost s0 = seen@;
    let ghost k0 = kept@;
    seen.push(key);
    kept.push(value.clone());
    assert(seen@.map_values(|k: Vec<char>| k@) =~= s0.map_values(|k: Vec<char>| k@).push(key@));
    assert(sv(kept@) =~= sv(k0).push(value@));
    proof {
        let a = s0.map_values(|k: Vec<char>| k@);
        lemma_push_to_set(a, key@);
    }
}

/// The ASR echo guard.
pub fn build_asr_echo_guard(transcripts: &[String], turns: &[HistoryTurn], history_limit: usize) -> (r:
    Vec<String>)
    ensures
        sv(r@) == echo_guard_spec(sv(transcripts@), hv(turns@), history_limit as int),
{
    let ghost items = newest(sv(transcripts@), history_limit as int) + turn_texts(
        newest(hv(turns@), history_limit as int),
    );
    let mut kept: Vec<String> = Vec::new();
    let mut seen: Vec<Vec<char>> = Vec::new();
    let ghost mut offered: Seq<Seq<char>> = Seq::empty();
    proof {
        assert(sv(kept@) =~= Seq::<Seq<char>>::empty());
        assert(seen@.map_values(|k: Vec<char>| k@).to_set() =~= Set::<Seq<char>>::empty());
    }
    let start = if transcripts.len() <= history_limit {
        0
    } else {
        transcripts.len() - history_limit
    };
    let mut i: usize = start;
    while i < transcripts.len()
        invariant
            start <= i <= transcripts@.len(),
            start == (if transcripts@.len() <= history_limit {
                0
            } else {
                transcripts@.len() - history_limit
            }),
            offered == sv(transcripts@).subrange(start as int, i as int),
            sv(kept@) == dedup_by_fold(offered).0,
            seen@.map_values(|k: Vec<char>| k@).to_set() == dedup_by_fold(offered).1,
        decreases transcripts@.len() - i,
    {
        offer_value(&mut kept, &mut seen, &transcripts[i], Ghost(offered));
        proof {
            assert(offered.push(transcripts@[i as int]@) =~= sv(transcripts@).subrange(start as int, i + 1));
            offered = offered.push(transcripts@[i as int]@);
        }
        i = i + 1;
    }
    assert(offered =~= newest(sv(transcripts@), history_limit as int));
    let recent = newest_turns(turns, history_limit);
    let ghost prefix = offered;
    let mut j: usize = 0;
    while j < recent.len()
        invariant
            0 <= j <= recent@.len(),
            offered == prefix + turn_texts(hv(recent@).take(j as int)),
            sv(kept@) == dedup_by_fold(offered).0,
            seen@.map_values(|k: Vec<char>| k@).to_set() == dedup_by_fold(offered).1,
        decreases recent@.len() - j,
    {
        assert(hv(recent@).take(j + 1).drop_last() =~= hv(recent@).take(j as int));
        assert(hv(recent@).take(j + 1).last() == recent@[j as int]@);
        offer_value(&mut kept, &mut seen, &recent[j].source_text, Ghost(offered));
        proof {
            offered = offered.push(recent@[j as int].source_text@);
        }
        offer_value(&mut kept, &mut seen, &recent[j].translated_text, Ghost(offered));
        proof {
            offered = offered.push(recent@[j as int].translated_text@);
            assert(offered =~= prefix + turn_texts(hv(recent@).take(j + 1)));
        }
        j = j + 1;
    }
    assert(hv(recent@).take(recent@.len() as int) =~= hv(recent@));
    kept
}

} // verus!
