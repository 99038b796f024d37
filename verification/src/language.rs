//! The fixed language column order and language-code normalization.

use vstd::prelude::*;

use crate::text::{
    ascii_lower, ascii_lower_char, char_is_whitespace, chars_of, owned, str_eq, string_from_chars,
    trim, trim_chars, trim_end, trim_start,
};

verus! {

/// Number of language columns in every corpus term.
pub const LANGUAGE_COUNT: usize = 16;

/// The code of language column `i`, in the fixed order
/// `zh,en,fr,pt,es,ja,ru,ko,th,it,de,vi,id,pl,cs,nl`.
pub open spec fn language_code(i: int) -> Seq<char> {
    if i == 0 {
        seq!['z', 'h']
    } else if i == 1 {
        seq!['e', 'n']
    } else if i == 2 {
        seq!['f', 'r']
    } else if i == 3 {
        seq!['p', 't']
    } else if i == 4 {
        seq!['e', 's']
    } else if i == 5 {
        seq!['j', 'a']
    } else if i == 6 {
        seq!['r', 'u']
    } else if i == 7 {
        seq!['k', 'o']
    } else if i == 8 {
        seq!['t', 'h']
    } else if i == 9 {
        seq!['i', 't']
    } else if i == 10 {
        seq!['d', 'e']
    } else if i == 11 {
        seq!['v', 'i']
    } else if i == 12 {
        seq!['i', 'd']
    } else if i == 13 {
        seq!['p', 'l']
    } else if i == 14 {
        seq!['c', 's']
    } else {
        seq!['n', 'l']
    }
}

/// The two characters of the code of language column `i`.
fn language_code_pair(i: usize) -> (r: (char, char))
    requires
        i < LANGUAGE_COUNT,
    ensures
        seq![r.0, r.1] == language_code(i as int),
{
    if i == 0 {
        ('z', 'h')
    } else if i == 1 {
        ('e', 'n')
    } else if i == 2 {
        ('f', 'r')
    } else if i == 3 {
        ('p', 't')
    } else if i == 4 {
        ('e', 's')
    } else if i == 5 {
        ('j', 'a')
    } else if i == 6 {
        ('r', 'u')
    } else if i == 7 {
        ('k', 'o')
    } else if i == 8 {
        ('t', 'h')
    } else if i == 9 {
        ('i', 't')
    } else if i == 10 {
        ('d', 'e')
    } else if i == 11 {
        ('v', 'i')
    } else if i == 12 {
        ('i', 'd')
    } else if i == 13 {
        ('p', 'l')
    } else if i == 14 {
        ('c', 's')
    } else {
        ('n', 'l')
    }
}

/// The code of language column `i` as an owned string.
pub fn language_code_string(i: usize) -> (r: String)
    requires
        i < LANGUAGE_COUNT,
    ensures
        r@ == language_code(i as int),
{
    let (a, b) = language_code_pair(i);
    let v = vec![a, b];
    string_from_chars(v.as_slice())
}

/// All language codes in column order.
pub fn corpus_language_order() -> (r: Vec<String>)
    ensures
        r@.len() == LANGUAGE_COUNT,
        forall|i: int| 0 <= i < LANGUAGE_COUNT ==> (#[trigger] r@[i])@ == language_code(i),
{
    let mut r: Vec<String> = Vec::new();
    let mut i: usize = 0;
    while i < LANGUAGE_COUNT
        invariant
            0 <= i <= LANGUAGE_COUNT,
            r@.len() == i,
            forall|k: int| 0 <= k < i ==> (#[trigger] r@[k])@ == language_code(k),
        decreases LANGUAGE_COUNT - i,
    {
        r.push(language_code_string(i));
        i = i + 1;
    }
    r
}

/// One character of a normalized code: ASCII-lowercased, `_` read as `-`.
pub open spec fn code_char(c: char) -> char {
    if c == '_' {
        '-'
    } else {
        ascii_lower(c)
    }
}

/// The characters before the first `-` or `_`.
pub open spec fn before_separator(s: Seq<char>) -> Seq<char>
    decreases s.len(),
{
    if s.len() == 0 {
        s
    } else if code_char(s[0]) == '-' {
        Seq::empty()
    } else {
        seq![code_char(s[0])] + before_separator(s.drop_first())
    }
}

/// The normalized base language of a tag: trimmed, ASCII-lowercased and cut
/// at the first `-` or `_` (so `" zh_Hans "` becomes `zh`).
pub open spec fn language_base(s: Seq<char>) -> Seq<char> {
    before_separator(trim(s))
}

/// The first column at or after `from` whose code equals `base`.
pub open spec fn code_position_from(base: Seq<char>, from: int) -> Option<nat>
    decreases LANGUAGE_COUNT - from,
{
    if from < 0 || from >= LANGUAGE_COUNT {
        None
    } else if language_code(from) == base {
        Some(from as nat)
    } else {
        code_position_from(base, from + 1)
    }
}

/// The column of a language tag, if its base language is one of the sixteen.
pub open spec fn language_position(s: Seq<char>) -> Option<nat> {
    code_position_from(language_base(s), 0)
}

proof fn lemma_code_position_bound(base: Seq<char>, from: int)
    ensures
        code_position_from(base, from) matches Some(p) ==> p < LANGUAGE_COUNT && language_code(
            p as int,
        ) == base,
    decreases LANGUAGE_COUNT - from,
{
    if 0 <= from < LANGUAGE_COUNT && language_code(from) != base {
        lemma_code_position_bound(base, from + 1);
    }
}

/// The column whose code is the two characters `a`, `b` (sixteen if none).
spec fn column_of(a: char, b: char) -> int {
    if a == 'z' && b == 'h' {
        0
    } else if a == 'e' && b == 'n' {
        1
    } else if a == 'f' && b == 'r' {
        2
    } else if a == 'p' && b == 't' {
        3
    } else if a == 'e' && b == 's' {
        4
    } else if a == 'j' && b == 'a' {
        5
    } else if a == 'r' && b == 'u' {
        6
    } else if a == 'k' && b == 'o' {
        7
    } else if a == 't' && b == 'h' {
        8
    } else if a == 'i' && b == 't' {
        9
    } else if a == 'd' && b == 'e' {
        10
    } else if a == 'v' && b == 'i' {
        11
    } else if a == 'i' && b == 'd' {
        12
    } else if a == 'p' && b == 'l' {
        13
    } else if a == 'c' && b == 's' {
        14
    } else if a == 'n' && b == 'l' {
        15
    } else {
        16
    }
}

proof fn lemma_code_shape(i: int)
    requires
        0 <= i < LANGUAGE_COUNT,
    ensures
        language_code(i).len() == 2,
        column_of(language_code(i)[0], language_code(i)[1]) == i,
        'a' <= language_code(i)[0] <= 'z',
        'a' <= language_code(i)[1] <= 'z',
{
}

proof fn lemma_base_of_code(i: int)
    requires
        0 <= i < LANGUAGE_COUNT,
    ensures
        language_base(language_code(i)) == language_code(i),
{
    lemma_code_shape(i);
    let s = language_code(i);
    assert(!char_is_whitespace(s[0]) && !char_is_whitespace(s[1]));
    assert(trim_start(s) == s);
    assert(trim_end(s) == s);
    assert(code_char(s[0]) == s[0] && code_char(s[1]) == s[1]);
    assert(s.drop_first().drop_first() =~= Seq::<char>::empty());
    assert(before_separator(s.drop_first()) =~= seq![s[1]]) by {
        let t = s.drop_first();
        assert(t[0] == s[1]);
        assert(t.drop_first().len() == 0);
        assert(before_separator(t.drop_first()) == t.drop_first());
        assert(seq![s[1]] + t.drop_first() =~= seq![s[1]]);
    }
    assert(seq![s[0]] + seq![s[1]] =~= s);
}

proof fn lemma_code_position_at(i: int, from: int)
    requires
        0 <= from <= i < LANGUAGE_COUNT,
    ensures
        code_position_from(language_code(i), from) == Some(i as nat),
    decreases i - from,
{
    if from < i {
        lemma_code_shape(i);
        lemma_code_shape(from);
        if language_code(from) == language_code(i) {
            assert(language_code(from)[0] == language_code(i)[0]);
            assert(language_code(from)[1] == language_code(i)[1]);
        }
        lemma_code_position_at(i, from + 1);
    }
}

/// Each of the sixteen codes is the base of itself and names its own column;
/// the column found for any tag is the one whose code is the tag's base, and
/// no column is found exactly when no code is.
pub proof fn lemma_language_positions(i: int, s: Seq<char>)
    ensures
        0 <= i < LANGUAGE_COUNT ==> language_base(language_code(i)) == language_code(i)
            && language_position(language_code(i)) == Some(i as nat),
        language_position(s) matches Some(p) ==> p < LANGUAGE_COUNT && language_code(p as int)
            == language_base(s),
        language_position(s) is None ==> forall|j: int|
            0 <= j < LANGUAGE_COUNT ==> language_code(j) != language_base(s),
{
    if 0 <= i < LANGUAGE_COUNT {
        lemma_base_of_code(i);
        lemma_code_position_at(i, 0);
    }
    lemma_code_position_bound(language_base(s), 0);
    lemma_code_position_none(language_base(s), 0);
}

proof fn lemma_code_position_none(base: Seq<char>, from: int)
    requires
        0 <= from,
    ensures
        code_position_from(base, from) is None ==> forall|j: int|
            from <= j < LANGUAGE_COUNT ==> language_code(j) != base,
    decreases LANGUAGE_COUNT - from,
{
    if from < LANGUAGE_COUNT && language_code(from) != base {
        lemma_code_position_none(base, from + 1);
    }
}

/// The normalized base of a language tag.
pub fn normalized_language_code(value: &str) -> (r: String)
    ensures
        r@ == language_base(value@),
{
    let chars = chars_of(value);
    let trimmed = trim_chars(chars.as_slice());
    let base = before_separator_chars(trimmed.as_slice());
    string_from_chars(base.as_slice())
}

fn before_separator_chars(s: &[char]) -> (r: Vec<char>)
    ensures
        r@ == before_separator(s@),
{
    let mut r: Vec<char> = Vec::new();
    let mut i: usize = 0;
    assert(s@.subrange(0, s@.len() as int) =~= s@);
    assert(r@ + before_separator(s@) =~= before_separator(s@));
    while i < s.len()
        invariant
            0 <= i <= s@.len(),
            forall|k: int| 0 <= k < i ==> code_char(#[trigger] s@[k]) != '-',
            r@ + before_separator(s@.subrange(i as int, s@.len() as int)) == before_separator(s@),
        decreases s@.len() - i,
    {
        let c = if s[i] == '_' {
            '-'
        } else {
            ascii_lower_char(s[i])
        };
        if c == '-' {
            assert(before_separator(s@.subrange(i as int, s@.len() as int)) == Seq::<char>::empty());
            assert(r@ + Seq::<char>::empty() =~= r@);
            return r;
        }
        let ghost rest = s@.subrange(i as int, s@.len() as int);
        assert(rest.drop_first() =~= s@.subrange(i + 1, s@.len() as int));
        assert(r@.push(c) + before_separator(rest.drop_first()) =~= r@ + (seq![c]
            + before_separator(rest.drop_first())));
        r.push(c);
        i = i + 1;
    }
    assert(s@.subrange(i as int, s@.len() as int) =~= Seq::<char>::empty());
    assert(r@ + Seq::<char>::empty() =~= r@);
    r
}

/// Column index of a language tag in the fixed order.
pub fn language_index(language: &str) -> (r: Option<usize>)
    ensures
        match r {
            Some(i) => language_position(language@) == Some(i as nat),
            None => language_position(language@) is None,
        },
        r matches Some(i) ==> i < LANGUAGE_COUNT,
{
    let code = normalized_language_code(language);
    let base = chars_of(code.as_str());
    let mut i: usize = 0;
    while i < LANGUAGE_COUNT
        invariant
            0 <= i <= LANGUAGE_COUNT,
            base@ == language_base(language@),
            code_position_from(base@, 0) == code_position_from(base@, i as int),
        decreases LANGUAGE_COUNT - i,
    {
        let (a, b) = language_code_pair(i);
        if base.len() == 2 && base[0] == a && base[1] == b {
            assert(base@ =~= seq![a, b]);
            return Some(i);
        }
        assert(language_code(i as int) != base@);
        i = i + 1;
    }
    None
}

/// Whether the normalized code equals `auto`.
pub open spec fn is_auto(code: Seq<char>) -> bool {
    code == seq!['a', 'u', 't', 'o']
}

/// Splits on every `sep`, keeping empty pieces (`str::split`).
pub open spec fn split_on(s: Seq<char>, sep: char) -> Seq<Seq<char>>
    decreases s.len(),
{
    if s.len() == 0 {
        seq![Seq::empty()]
    } else {
        let head = split_on(s.drop_last(), sep);
        if s.last() == sep {
            head.push(Seq::empty())
        } else {
            head.update(head.len() - 1, head.last().push(s.last()))
        }
    }
}

pub proof fn lemma_split_on_nonempty(s: Seq<char>, sep: char)
    ensures
        split_on(s, sep).len() >= 1,
    decreases s.len(),
{
    if s.len() > 0 {
        lemma_split_on_nonempty(s.drop_last(), sep);
    }
}

/// Splits a character slice on `sep`.
pub fn split_chars(s: &[char], sep: char) -> (r: Vec<Vec<char>>)
    ensures
        r@.len() == split_on(s@, sep).len(),
        forall|k: int| 0 <= k < r@.len() ==> (#[trigger] r@[k])@ == split_on(s@, sep)[k],
{
    let mut done: Vec<Vec<char>> = Vec::new();
    let mut current: Vec<char> = Vec::new();
    let mut i: usize = 0;
    while i < s.len()
        invariant
            0 <= i <= s@.len(),
            done@.len() + 1 == split_on(s@.take(i as int), sep).len(),
            forall|k: int| 0 <= k < done@.len() ==> (#[trigger] done@[k])@ == split_on(
                s@.take(i as int),
                sep,
            )[k],
            current@ == split_on(s@.take(i as int), sep).last(),
        decreases s@.len() - i,
    {
        proof {
            lemma_split_on_nonempty(s@.take(i as int), sep);
            assert(s@.take(i + 1).drop_last() =~= s@.take(i as int));
        }
        if s[i] == sep {
            done.push(current);
            current = Vec::new();
        } else {
            current.push(s[i]);
        }
        i = i + 1;
    }
    assert(s@.take(s@.len() as int) =~= s@);
    done.push(current);
    done
}

/// The ordered, duplicate-free languages of one task: the source followed by
/// the comma-separated targets, normalized, without `auto` or unknown codes.
pub open spec fn task_language_codes(items: Seq<Seq<char>>) -> Seq<Seq<char>>
    decreases items.len(),
{
    if items.len() == 0 {
        Seq::empty()
    } else {
        let acc = task_language_codes(items.drop_last());
        let code = language_base(items.last());
        if !is_auto(code) && language_position(code) is Some && !acc.contains(code) {
            acc.push(code)
        } else {
            acc
        }
    }
}

/// The task language list for a source tag and comma-separated target tags.
pub open spec fn task_languages_spec(source: Seq<char>, target: Seq<char>) -> Seq<Seq<char>> {
    task_language_codes(seq![source] + split_on(target, ','))
}

/// Whether a string list contains a string equal to `value`.
pub fn strings_contain(list: &Vec<String>, value: &str) -> (r: bool)
    ensures
        r == list@.map_values(|s: String| s@).contains(value@),
{
    let ghost view = list@.map_values(|s: String| s@);
    let mut i: usize = 0;
    while i < list.len()
        invariant
            0 <= i <= list@.len(),
            view == list@.map_values(|s: String| s@),
            forall|k: int| 0 <= k < i ==> view[k] != value@,
        decreases list@.len() - i,
    {
        if str_eq(list[i].as_str(), value) {
            assert(view[i as int] == value@);
            return true;
        }
        i = i + 1;
    }
    false
}

/// Whether a string slice list contains a string equal to `value`.
pub fn strings_contain_slice(list: &[String], value: &str) -> (r: bool)
    ensures
        r == list@.map_values(|s: String| s@).contains(value@),
{
    let ghost view = list@.map_values(|s: String| s@);
    let mut i: usize = 0;
    while i < list.len()
        invariant
            0 <= i <= list@.len(),
            view == list@.map_values(|s: String| s@),
            forall|k: int| 0 <= k < i ==> view[k] != value@,
        decreases list@.len() - i,
    {
        if str_eq(list[i].as_str(), value) {
            assert(view[i as int] == value@);
            return true;
        }
        i = i + 1;
    }
    false
}

/// Appends the normalized code of `item` when it is a known, new, non-`auto` language.
fn push_task_language(languages: &mut Vec<String>, item: &str)
    ensures
        final(languages)@.map_values(|s: String| s@) == ({
            let acc = old(languages)@.map_values(|s: String| s@);
            let code = language_base(item@);
            if !is_auto(code) && language_position(code) is Some && !acc.contains(code) {
                acc.push(code)
            } else {
                acc
            }
        }),
{
    let code = normalized_language_code(item);
    let code_chars = chars_of(code.as_str());
    let auto = code_chars.len() == 4 && code_chars[0] == 'a' && code_chars[1] == 'u'
        && code_chars[2] == 't' && code_chars[3] == 'o';
    proof {
        if auto {
            assert(code_chars@ =~= seq!['a', 'u', 't', 'o']);
        } else {
            assert(!is_auto(code@));
        }
    }
    if !auto {
        let known = language_index(code.as_str());
        if known.is_some() {
            if !strings_contain(languages, code.as_str()) {
                let ghost before = languages@;
                languages.push(code);
                assert(languages@.map_values(|s: String| s@) =~= before.map_values(
                    |s: String| s@,
                ).push(language_base(item@)));
            }
        }
    }
}

/// Normalized languages of a task, source first (for example `auto` and
/// `zh,en` give `[zh, en]`).
pub fn task_languages(source_language: &str, target_language: &str) -> (r: Vec<String>)
    ensures
        r@.map_values(|s: String| s@) == task_languages_spec(source_language@, target_language@),
{
    let ghost items = seq![source_language@] + split_on(target_language@, ',');
    let target_chars = chars_of(target_language);
    let pieces = split_chars(target_chars.as_slice(), ',');
    let mut languages: Vec<String> = Vec::new();
    proof {
        assert(items.take(0) =~= Seq::<Seq<char>>::empty());
        assert(languages@.map_values(|s: String| s@) =~= Seq::<Seq<char>>::empty());
    }
    push_task_language(&mut languages, source_language);
    proof {
        assert(items.take(1).drop_last() =~= items.take(0));
        assert(items.take(1).last() == items[0]);
        assert(items[0] == source_language@);
        assert(task_language_codes(items.take(0)) == Seq::<Seq<char>>::empty());
        assert(task_language_codes(items.take(1)) == ({
            let acc = Seq::<Seq<char>>::empty();
            let code = language_base(source_language@);
            if !is_auto(code) && language_position(code) is Some && !acc.contains(code) {
                acc.push(code)
            } else {
                acc
            }
        }));
    }
    let mut j: usize = 0;
    while j < pieces.len()
        invariant
            0 <= j <= pieces@.len(),
            items == seq![source_language@] + split_on(target_language@, ','),
            pieces@.len() == split_on(target_language@, ',').len(),
            forall|k: int| 0 <= k < pieces@.len() ==> (#[trigger] pieces@[k])@ == split_on(
                target_language@,
                ',',
            )[k],
            languages@.map_values(|s: String| s@) == task_language_codes(items.take(j + 1)),
        decreases pieces@.len() - j,
    {
        let item = string_from_chars(pieces[j].as_slice());
        assert(item@ == items[j + 1]);
        push_task_language(&mut languages, item.as_str());
        proof {
            assert(items.take(j + 2).drop_last() =~= items.take(j + 1));
            assert(items.take(j + 2).last() == items[j + 1]);
        }
        j = j + 1;
    }
    assert(items.take(items.len() as int) =~= items);
    languages
}

} // verus!
