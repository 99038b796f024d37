//! Bounded histories of logical speech turns.
//!
//! A logical turn is identified by an optional stable turn ID. A later
//! revision of the same turn replaces the earlier one and moves it to the end
//! instead of consuming another history entry.

use std::collections::VecDeque;

use vstd::prelude::*;

use crate::text::str_eq;

verus! {

/// The view of an optional string.
pub open spec fn opt_view(o: Option<String>) -> Option<Seq<char>> {
    match o {
        Some(s) => Some(s@),
        None => None,
    }
}

/// Copies an optional string.
pub fn clone_opt(o: &Option<String>) -> (r: Option<String>)
    ensures
        opt_view(r) == opt_view(*o),
{
    match o {
        Some(s) => Some(s.clone()),
        None => None,
    }
}

/// Compares an optional turn ID with a present one.
pub fn opt_is(o: &Option<String>, id: &str) -> (r: bool)
    ensures
        r == (opt_view(*o) == Some(id@)),
{
    match o {
        Some(s) => str_eq(s.as_str(), id),
        None => false,
    }
}

/// The first index at or after `from` whose ID is `id`.
pub open spec fn position_of_id<T>(ids: Seq<Option<Seq<char>>>, id: Seq<char>, from: int) -> Option<
    int,
>
    decreases ids.len() - from,
{
    if from < 0 || from >= ids.len() {
        None
    } else if ids[from] == Some(id) {
        Some(from)
    } else {
        position_of_id::<T>(ids, id, from + 1)
    }
}

pub proof fn lemma_position_of_id<T>(ids: Seq<Option<Seq<char>>>, id: Seq<char>, from: int)
    requires
        0 <= from,
    ensures
        match position_of_id::<T>(ids, id, from) {
            Some(p) => from <= p < ids.len() && ids[p] == Some(id) && forall|k: int|
                from <= k < p ==> ids[k] != Some(id),
            None => forall|k: int| from <= k < ids.len() ==> ids[k] != Some(id),
        },
    decreases ids.len() - from,
{
    if from < ids.len() && ids[from] != Some(id) {
        lemma_position_of_id::<T>(ids, id, from + 1);
    }
}

/// One recognized transcript kept as activation evidence.
pub struct TranscriptTurn {
    pub turn_id: Option<String>,
    pub text: String,
}

/// The view of a transcript turn: its optional ID and its text.
pub open spec fn transcript_view(t: TranscriptTurn) -> (Option<Seq<char>>, Seq<char>) {
    (opt_view(t.turn_id), t.text@)
}

/// The result of recording `(id, text)` into a transcript history of the
/// given capacity: a revision replaces its logical turn and moves it last, a
/// repeat of the newest text is ignored, and the oldest turn leaves when the
/// history is full.
pub open spec fn record_transcript_spec(
    turns: Seq<(Option<Seq<char>>, Seq<char>)>,
    capacity: nat,
    id: Option<Seq<char>>,
    text: Seq<char>,
) -> Seq<(Option<Seq<char>>, Seq<char>)> {
    let ids = turns.map_values(|t: (Option<Seq<char>>, Seq<char>)| t.0);
    if capacity == 0 {
        turns
    } else if id is Some && position_of_id::<()>(ids, id->0, 0) is Some {
        turns.remove(position_of_id::<()>(ids, id->0, 0)->0).push((id, text))
    } else if turns.len() > 0 && turns.last().1 == text {
        turns
    } else if turns.len() >= capacity {
        turns.drop_first().push((id, text))
    } else {
        turns.push((id, text))
    }
}

/// Recognition evidence: bounded, source-only, never part of the ASR prompt.
pub struct TranscriptHistory {
    turns: VecDeque<TranscriptTurn>,
    capacity: usize,
}

impl View for TranscriptHistory {
    type V = Seq<(Option<Seq<char>>, Seq<char>)>;

    closed spec fn view(&self) -> Seq<(Option<Seq<char>>, Seq<char>)> {
        self.turns@.map_values(|t: TranscriptTurn| transcript_view(t))
    }
}

impl TranscriptHistory {
    /// The configured capacity.
    pub closed spec fn capacity_spec(&self) -> nat {
        self.capacity as nat
    }

    /// The history holds at most its capacity.
    pub closed spec fn wf(&self) -> bool {
        self.turns@.len() <= self.capacity
    }

    /// An empty history holding at most `capacity` turns.
    pub fn new(capacity: usize) -> (r: Self)
        ensures
            r@ == Seq::<(Option<Seq<char>>, Seq<char>)>::empty(),
            r.capacity_spec() == capacity,
            r.wf(),
    {
        let r = TranscriptHistory { turns: VecDeque::new(), capacity };
        assert(r@ =~= Seq::<(Option<Seq<char>>, Seq<char>)>::empty());
        r
    }

    /// Number of retained turns.
    pub fn len(&self) -> (r: usize)
        ensures
            r == self@.len(),
    {
        self.turns.len()
    }

    /// Forgets every turn.
    pub fn clear(&mut self)
        ensures
            final(self)@ == Seq::<(Option<Seq<char>>, Seq<char>)>::empty(),
            final(self).capacity_spec() == old(self).capacity_spec(),
            final(self).wf(),
    {
        self.turns.clear();
        assert(self@ =~= Seq::<(Option<Seq<char>>, Seq<char>)>::empty());
    }

    /// Records one transcript under an optional logical turn ID.
    pub fn record(&mut self, turn_id: Option<String>, text: String)
        requires
            old(self).wf(),
        ensures
            final(self).wf(),
            final(self)@ == record_transcript_spec(
                old(self)@,
                old(self).capacity_spec(),
                opt_view(turn_id),
                text@,
            ),
            final(self).capacity_spec() == old(self).capacity_spec(),
            final(self)@.len() <= final(self).capacity_spec(),
    {
        let ghost old_view = self@;
        let ghost ids = old_view.map_values(|t: (Option<Seq<char>>, Seq<char>)| t.0);
        let ghost new_turn = (opt_view(turn_id), text@);
        if self.capacity == 0 {
            return;
        }
        let mut found: Option<usize> = None;
        if let Some(id) = &turn_id {
            proof {
                lemma_position_of_id::<()>(ids, id@, 0);
            }
            let mut i: usize = 0;
            while i < self.turns.len()
                invariant_except_break
                    found is None,
                invariant
                    0 <= i <= self.turns@.len(),
                    self@ == old_view,
                    old_view == self.turns@.map_values(|t: TranscriptTurn| transcript_view(t)),
                    ids == old_view.map_values(|t: (Option<Seq<char>>, Seq<char>)| t.0),
                    forall|k: int| 0 <= k < i ==> ids[k] != Some(id@),
                    match position_of_id::<()>(ids, id@, 0) {
                        Some(p) => 0 <= p < ids.len() && ids[p] == Some(id@) && forall|k: int|
                            0 <= k < p ==> ids[k] != Some(id@),
                        None => forall|k: int| 0 <= k < ids.len() ==> ids[k] != Some(id@),
                    },
                    ids.len() == self.turns@.len(),
                ensures
                    found matches Some(f) ==> position_of_id::<()>(ids, id@, 0) == Some(f as int)
                        && f < self.turns@.len(),
                    found is None ==> position_of_id::<()>(ids, id@, 0) is None,
                decreases self.turns@.len() - i,
            {
                assert(old_view[i as int] == transcript_view(self.turns@[i as int]));
                assert(ids[i as int] == old_view[i as int].0);
                if opt_is(&self.turns[i].turn_id, id.as_str()) {
                    found = Some(i);
                    break;
                }
                i = i + 1;
            }
        }
        if let Some(i) = found {
            self.turns.remove(i);
            self.turns.push_back(TranscriptTurn { turn_id, text });
            proof {
                assert(self@ =~= old_view.remove(i as int).push(new_turn));
            }
            return;
        }
        let n = self.turns.len();
        if n > 0 {
            assert(old_view.last() == transcript_view(self.turns@[n - 1]));
        }
        if n > 0 && str_eq(self.turns[n - 1].text.as_str(), text.as_str()) {
            return;
        }
        if n == self.capacity {
            self.turns.pop_front();
        }
        self.turns.push_back(TranscriptTurn { turn_id, text });
        proof {
            if n == self.capacity {
                assert(self@ =~= old_view.drop_first().push(new_turn));
            } else {
                assert(self@ =~= old_view.push(new_turn));
            }
        }
    }

    /// An iterator over the retained transcripts, oldest first.
    pub fn iter(&self) -> (r: std::vec::IntoIter<String>)
        ensures
            vstd::std_specs::vec::into_iter_elts(r).len() == self@.len(),
            forall|k: int|
                0 <= k < self@.len() ==> (#[trigger] vstd::std_specs::vec::into_iter_elts(r)[k])@
                    == self@[k].1,
    {
        broadcast use vstd::std_specs::vec::axiom_spec_into_iter;

        let v = self.texts();
        v.into_iter()
    }

    /// The retained transcripts, oldest first.
    pub fn texts(&self) -> (r: Vec<String>)
        ensures
            r@.len() == self@.len(),
            forall|k: int| 0 <= k < r@.len() ==> (#[trigger] r@[k])@ == self@[k].1,
    {
        let mut r: Vec<String> = Vec::new();
        let mut i: usize = 0;
        while i < self.turns.len()
            invariant
                0 <= i <= self.turns@.len(),
                r@.len() == i,
                forall|k: int| 0 <= k < i ==> (#[trigger] r@[k])@ == self@[k].1,
            decreases self.turns@.len() - i,
        {
            r.push(self.turns[i].text.clone());
            i = i + 1;
        }
        r
    }
}

/// One completed source/translation pair.
pub struct BilingualTurn {
    pub turn_id: Option<String>,
    pub speaker_id: String,
    pub source_language: String,
    pub target_language: String,
    pub source_text: String,
    pub translated_text: String,
}

/// The mathematical content of a bilingual turn.
pub struct TurnView {
    pub turn_id: Option<Seq<char>>,
    pub speaker_id: Seq<char>,
    pub source_language: Seq<char>,
    pub target_language: Seq<char>,
    pub source_text: Seq<char>,
    pub translated_text: Seq<char>,
}

impl View for BilingualTurn {
    type V = TurnView;

    open spec fn view(&self) -> TurnView {
        TurnView {
            turn_id: opt_view(self.turn_id),
            speaker_id: self.speaker_id@,
            source_language: self.source_language@,
            target_language: self.target_language@,
            source_text: self.source_text@,
            translated_text: self.translated_text@,
        }
    }
}

/// Two turns carry the same content when everything but the turn ID agrees.
pub open spec fn same_content(a: TurnView, b: TurnView) -> bool {
    &&& a.speaker_id == b.speaker_id
    &&& a.source_language == b.source_language
    &&& a.target_language == b.target_language
    &&& a.source_text == b.source_text
    &&& a.translated_text == b.translated_text
}

impl Clone for BilingualTurn {
    fn clone(&self) -> (r: Self)
        ensures
            r@ == self@,
    {
        BilingualTurn {
            turn_id: clone_opt(&self.turn_id),
            speaker_id: self.speaker_id.clone(),
            source_language: self.source_language.clone(),
            target_language: self.target_language.clone(),
            source_text: self.source_text.clone(),
            translated_text: self.translated_text.clone(),
        }
    }
}

impl BilingualTurn {
    /// Whether two turns carry the same content, ignoring turn IDs.
    pub fn same_content(&self, other: &Self) -> (r: bool)
        ensures
            r == same_content(self@, other@),
    {
        str_eq(self.speaker_id.as_str(), other.speaker_id.as_str()) && str_eq(
            self.source_language.as_str(),
            other.source_language.as_str(),
        ) && str_eq(self.target_language.as_str(), other.target_language.as_str()) && str_eq(
            self.source_text.as_str(),
            other.source_text.as_str(),
        ) && str_eq(self.translated_text.as_str(), other.translated_text.as_str())
    }
}

/// The result of recording a bilingual turn into a history of the given
/// capacity, with the same replacement and bounding rules as transcripts.
pub open spec fn record_turn_spec(turns: Seq<TurnView>, capacity: nat, turn: TurnView) -> Seq<
    TurnView,
> {
    let ids = turns.map_values(|t: TurnView| t.turn_id);
    if capacity == 0 {
        turns
    } else if turn.turn_id is Some && position_of_id::<()>(ids, turn.turn_id->0, 0) is Some {
        turns.remove(position_of_id::<()>(ids, turn.turn_id->0, 0)->0).push(turn)
    } else if turns.len() > 0 && same_content(turns.last(), turn) {
        turns
    } else if turns.len() >= capacity {
        turns.drop_first().push(turn)
    } else {
        turns.push(turn)
    }
}

/// Whether both languages of a turn are among `languages`.
pub open spec fn turn_in_languages(t: TurnView, languages: Seq<Seq<char>>) -> bool {
    languages.contains(t.source_language) && languages.contains(t.target_language)
}

/// The turns whose languages both belong to `languages`, in order.
pub open spec fn relevant_turns_spec(turns: Seq<TurnView>, languages: Seq<Seq<char>>) -> Seq<
    TurnView,
>
    decreases turns.len(),
{
    if turns.len() == 0 {
        turns
    } else {
        let head = relevant_turns_spec(turns.drop_last(), languages);
        if turn_in_languages(turns.last(), languages) {
            head.push(turns.last())
        } else {
            head
        }
    }
}

/// Bounded history of completed logical speech turns.
pub struct DialogueHistory {
    turns: VecDeque<BilingualTurn>,
    capacity: usize,
}

impl View for DialogueHistory {
    type V = Seq<TurnView>;

    closed spec fn view(&self) -> Seq<TurnView> {
        self.turns@.map_values(|t: BilingualTurn| t@)
    }
}

impl DialogueHistory {
    /// The configured capacity.
    pub closed spec fn capacity_spec(&self) -> nat {
        self.capacity as nat
    }

    /// The history holds at most its capacity.
    pub closed spec fn wf(&self) -> bool {
        self.turns@.len() <= self.capacity
    }

    /// An empty history holding at most `capacity` turns.
    pub fn new(capacity: usize) -> (r: Self)
        ensures
            r@ == Seq::<TurnView>::empty(),
            r.capacity_spec() == capacity,
            r.wf(),
    {
        let r = DialogueHistory { turns: VecDeque::new(), capacity };
        assert(r@ =~= Seq::<TurnView>::empty());
        r
    }

    /// Number of retained turns.
    pub fn len(&self) -> (r: usize)
        ensures
            r == self@.len(),
    {
        self.turns.len()
    }

    /// Forgets every turn.
    pub fn clear(&mut self)
        ensures
            final(self)@ == Seq::<TurnView>::empty(),
            final(self).capacity_spec() == old(self).capacity_spec(),
            final(self).wf(),
    {
        self.turns.clear();
        assert(self@ =~= Seq::<TurnView>::empty());
    }

    /// Records one completed turn.
    pub fn record(&mut self, turn: BilingualTurn)
        requires
            old(self).wf(),
        ensures
            final(self).wf(),
            final(self)@ == record_turn_spec(old(self)@, old(self).capacity_spec(), turn@),
            final(self).capacity_spec() == old(self).capacity_spec(),
            final(self)@.len() <= final(self).capacity_spec(),
    {
        let ghost old_view = self@;
        let ghost ids = old_view.map_values(|t: TurnView| t.turn_id);
        let ghost new_turn = turn@;
        if self.capacity == 0 {
            return;
        }
        let mut found: Option<usize> = None;
        if let Some(id) = &turn.turn_id {
            proof {
                lemma_position_of_id::<()>(ids, id@, 0);
            }
            let mut i: usize = 0;
            while i < self.turns.len()
                invariant_except_break
                    found is None,
                invariant
                    0 <= i <= self.turns@.len(),
                    self@ == old_view,
                    old_view == self.turns@.map_values(|t: BilingualTurn| t@),
                    ids == old_view.map_values(|t: TurnView| t.turn_id),
                    forall|k: int| 0 <= k < i ==> ids[k] != Some(id@),
                    match position_of_id::<()>(ids, id@, 0) {
                        Some(p) => 0 <= p < ids.len() && ids[p] == Some(id@) && forall|k: int|
                            0 <= k < p ==> ids[k] != Some(id@),
                        None => forall|k: int| 0 <= k < ids.len() ==> ids[k] != Some(id@),
                    },
                    ids.len() == self.turns@.len(),
                ensures
                    found matches Some(f) ==> position_of_id::<()>(ids, id@, 0) == Some(f as int)
                        && f < self.turns@.len(),
                    found is None ==> position_of_id::<()>(ids, id@, 0) is None,
                decreases self.turns@.len() - i,
            {
                assert(old_view[i as int] == self.turns@[i as int]@);
                assert(ids[i as int] == old_view[i as int].turn_id);
                if opt_is(&self.turns[i].turn_id, id.as_str()) {
                    found = Some(i);
                    break;
                }
                i = i + 1;
            }
        }
        if let Some(i) = found {
            self.turns.remove(i);
            self.turns.push_back(turn);
            proof {
                assert(self@ =~= old_view.remove(i as int).push(new_turn));
            }
            return;
        }
        let n = self.turns.len();
        if n > 0 {
            assert(old_view.last() == self.turns@[n - 1]@);
        }
        if n > 0 && self.turns[n - 1].same_content(&turn) {
            return;
        }
        if n == self.capacity {
            self.turns.pop_front();
        }
        self.turns.push_back(turn);
        proof {
            if n == self.capacity {
                assert(self@ =~= old_view.drop_first().push(new_turn));
            } else {
                assert(self@ =~= old_view.push(new_turn));
            }
        }
    }

    /// The turns whose source and target languages both belong to
    /// `languages`, oldest first.
    pub fn relevant(&self, languages: &[String]) -> (r: Vec<BilingualTurn>)
        ensures
            r@.map_values(|t: BilingualTurn| t@) == relevant_turns_spec(
                self@,
                languages@.map_values(|s: String| s@),
            ),
    {
        let ghost langs = languages@.map_values(|s: String| s@);
        let mut r: Vec<BilingualTurn> = Vec::new();
        let mut i: usize = 0;
        while i < self.turns.len()
            invariant
                0 <= i <= self.turns@.len(),
                langs == languages@.map_values(|s: String| s@),
                r@.map_values(|t: BilingualTurn| t@) == relevant_turns_spec(
                    self@.take(i as int),
                    langs,
                ),
            decreases self.turns@.len() - i,
        {
            let ghost prefix = self@.take(i as int);
            assert(self@.take(i + 1) =~= prefix.push(self@[i as int]));
            assert(self@[i as int] == self.turns@[i as int]@);
            let keep = crate::language::strings_contain_slice(
                languages,
                self.turns[i].source_language.as_str(),
            ) && crate::language::strings_contain_slice(
                languages,
                self.turns[i].target_language.as_str(),
            );
            let ghost before = r@;
            if keep {
                r.push(self.turns[i].clone());
                assert(r@.map_values(|t: BilingualTurn| t@) =~= before.map_values(
                    |t: BilingualTurn| t@,
                ).push(self@[i as int]));
            }
            assert(self@.take(i + 1).drop_last() =~= prefix);
            i = i + 1;
        }
        assert(self@.take(self@.len() as int) =~= self@);
        r
    }

    /// An iterator over the retained turns, oldest first.
    pub fn iter(&self) -> (r: std::vec::IntoIter<BilingualTurn>)
        ensures
            vstd::std_specs::vec::into_iter_elts(r).map_values(|t: BilingualTurn| t@) == self@,
    {
        broadcast use vstd::std_specs::vec::axiom_spec_into_iter;

        let v = self.turns();
        v.into_iter()
    }

    /// Every retained turn, oldest first.
    pub fn turns(&self) -> (r: Vec<BilingualTurn>)
        ensures
            r@.map_values(|t: BilingualTurn| t@) == self@,
    {
        let mut r: Vec<BilingualTurn> = Vec::new();
        let mut i: usize = 0;
        while i < self.turns.len()
            invariant
                0 <= i <= self.turns@.len(),
                r@.map_values(|t: BilingualTurn| t@) == self@.take(i as int),
            decreases self.turns@.len() - i,
        {
            let ghost before = r@;
            assert(self@[i as int] == self.turns@[i as int]@);
            r.push(self.turns[i].clone());
            assert(r@.map_values(|t: BilingualTurn| t@) =~= before.map_values(
                |t: BilingualTurn| t@,
            ).push(self@[i as int]));
            assert(self@.take(i + 1) =~= self@.take(i as int).push(self@[i as int]));
            i = i + 1;
        }
        assert(self@.take(self@.len() as int) =~= self@);
        r
    }
}

/// Recording a new transcript (no earlier turn carries its ID, and it does
/// not repeat the newest text) into a full history drops the oldest turn and
/// puts the new one last; into a history with room it appends it. A
/// revision of a recorded turn replaces it and moves it last, keeping the
/// length. A zero capacity keeps nothing new.
pub proof fn lemma_record_transcript_keeps_newest(
    turns: Seq<(Option<Seq<char>>, Seq<char>)>,
    capacity: nat,
    id: Option<Seq<char>>,
    text: Seq<char>,
)
    ensures
        ({
            let r = record_transcript_spec(turns, capacity, id, text);
            let fresh = forall|k: int| 0 <= k < turns.len() ==> (id is None || #[trigger] turns[k].0 != id);
            &&& capacity == 0 ==> r == turns
            &&& capacity > 0 && fresh && !(turns.len() > 0 && turns.last().1 == text) && turns.len() >= capacity
                ==> r == turns.drop_first().push((id, text))
            &&& capacity > 0 && fresh && !(turns.len() > 0 && turns.last().1 == text) && turns.len() < capacity
                ==> r == turns.push((id, text))
            &&& capacity > 0 && id is Some && (exists|k: int| 0 <= k < turns.len() && #[trigger] turns[k].0 == id)
                ==> r.len() == turns.len() && r.last() == (id, text)
        }),
{
    let ids = turns.map_values(|t: (Option<Seq<char>>, Seq<char>)| t.0);
    if let Some(x) = id {
        lemma_position_of_id::<()>(ids, x, 0);
        if let Some(p) = position_of_id::<()>(ids, x, 0) {
            assert(ids[p] == turns[p].0);
        }
        if exists|k: int| 0 <= k < turns.len() && #[trigger] turns[k].0 == id {
            let k = choose|k: int| 0 <= k < turns.len() && #[trigger] turns[k].0 == id;
            assert(ids[k] == Some(x));
        }
    }
}

/// Recording a new bilingual turn (no earlier turn carries its ID, and it
/// does not repeat the newest turn's content) into a full history drops the
/// oldest turn and puts the new one last; into a history with room it
/// appends it. A revision of a recorded turn replaces it and moves it last,
/// keeping the length.
pub proof fn lemma_record_turn_keeps_newest(turns: Seq<TurnView>, capacity: nat, turn: TurnView)
    ensures
        ({
            let r = record_turn_spec(turns, capacity, turn);
            let fresh = forall|k: int| 0 <= k < turns.len() ==> (turn.turn_id is None || #[trigger] turns[k].turn_id
                != turn.turn_id);
            &&& capacity == 0 ==> r == turns
            &&& capacity > 0 && fresh && !(turns.len() > 0 && same_content(turns.last(), turn)) && turns.len()
                >= capacity ==> r == turns.drop_first().push(turn)
            &&& capacity > 0 && fresh && !(turns.len() > 0 && same_content(turns.last(), turn)) && turns.len()
                < capacity ==> r == turns.push(turn)
            &&& capacity > 0 && turn.turn_id is Some && (exists|k: int|
                0 <= k < turns.len() && #[trigger] turns[k].turn_id == turn.turn_id) ==> r.len() == turns.len()
                && r.last() == turn
        }),
{
    let ids = turns.map_values(|t: TurnView| t.turn_id);
    if let Some(x) = turn.turn_id {
        lemma_position_of_id::<()>(ids, x, 0);
        if let Some(p) = position_of_id::<()>(ids, x, 0) {
            assert(ids[p] == turns[p].turn_id);
        }
        if exists|k: int| 0 <= k < turns.len() && #[trigger] turns[k].turn_id == turn.turn_id {
            let k = choose|k: int| 0 <= k < turns.len() && #[trigger] turns[k].turn_id == turn.turn_id;
            assert(ids[k] == Some(x));
        }
    }
}

} // verus!
