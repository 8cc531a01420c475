//! Human-facing presentation of system messages and diagnostics. The
//! canonical message and `LanguageError::render` stay unchanged: they serve
//! conformance checks and machine protocols. Ukrainian presentation
//! translates the message, names operations by their Ukrainian spelling
//! from the status registry, and labels the location in Ukrainian.
use vstd::prelude::*;
use crate::error::{
    char_index_exec, is_char_boundary_at, line_col_in, lemma_line_col_positive, nth_line,
    nth_line_exec, push_repeat, char_index_at, line_col_of, repeat, ErrorKind, ErrorSpec,
    LanguageError,
};
use crate::lexical::{lines, split_lines, split_words, texts, words};
use crate::reader::is_ws;
use crate::status_registry::{all_ascii_digits, trim_closing};
use crate::text::{
    chars_of, copy_string, decimal_digits, owned, push_chars, push_decimal, push_str,
    starts_with, str_eq, string_eq, string_from_chars, utf8_len,
};
use crate::textops::{
    before_first, find_first, find_last, first_match, replace_all, replace_chars, rsplit_once,
    split_once,
};
use crate::transport::{parse_usize, parse_usize_at, trim_end, trim_end_at, trim_start, trim_start_at};

verus! {

/// The language a surface presents to a person.
#[derive(Clone, Copy, Debug, PartialEq, Eq, Structural)]
pub enum PresentationLanguage {
    Canonical,
    English,
    Ukrainian,
    Sanskrit,
}

// ---------------------------------------------------------------------------
// Ukrainian operation names
// ---------------------------------------------------------------------------

/// `t` without any opening parentheses at its start.
pub open spec fn trim_opening(t: Seq<char>) -> Seq<char>
    decreases t.len(),
{
    if t.len() > 0 && t[0] == '(' {
        trim_opening(t.drop_first())
    } else {
        t
    }
}

/// Over the `(namespace spelling status)` triples from field `k`: the last
/// stable Ukrainian spelling, and every stable spelling, after `uk` and
/// `stable`.
pub open spec fn uk_from(f: Seq<Seq<char>>, k: int, uk: Option<Seq<char>>, stable: Seq<Seq<char>>) -> (
    Option<Seq<char>>,
    Seq<Seq<char>>,
)
    decreases f.len() - k,
{
    if k < 0 || k + 3 > f.len() {
        (uk, stable)
    } else if trim_closing(f[k + 2]) == "stable"@ && f[k + 1] != "—"@ {
        uk_from(
            f,
            k + 3,
            if trim_opening(f[k]) == "uk"@ {
                Some(f[k + 1])
            } else {
                uk
            },
            stable.push(f[k + 1]),
        )
    } else {
        uk_from(f, k + 3, uk, stable)
    }
}

/// What one registry line says of Ukrainian names: its identity and each
/// of its stable spellings name its stable Ukrainian spelling.
pub open spec fn uk_row_events(line: Seq<char>) -> Seq<(Seq<char>, Seq<char>)> {
    let f = words(line);
    if f.len() == 0 {
        Seq::empty()
    } else {
        let id = trim_opening(f[0]);
        if id.len() < 4 || !all_ascii_digits(id) {
            Seq::empty()
        } else {
            match uk_from(f, 1, None, Seq::empty()).0 {
                None => Seq::empty(),
                Some(u) => {
                    let stable = uk_from(f, 1, None, Seq::empty()).1;
                    seq![(id, u)] + Seq::new(stable.len(), |i: int| (stable[i], u))
                },
            }
        }
    }
}

pub open spec fn uk_events_of(ls: Seq<Seq<char>>) -> Seq<(Seq<char>, Seq<char>)>
    decreases ls.len(),
{
    if ls.len() == 0 {
        Seq::empty()
    } else {
        uk_events_of(ls.drop_last()) + uk_row_events(ls.last())
    }
}

/// The naming events of a registry text, in order; a later one for the
/// same name overrides an earlier one.
pub open spec fn uk_events(source: Seq<char>) -> Seq<(Seq<char>, Seq<char>)> {
    uk_events_of(lines(source))
}

/// The value of the last event for `name`.
pub open spec fn last_value(ev: Seq<(Seq<char>, Seq<char>)>, name: Seq<char>) -> Option<Seq<char>>
    decreases ev.len(),
{
    if ev.len() == 0 {
        None
    } else if ev.last().0 == name {
        Some(ev.last().1)
    } else {
        last_value(ev.drop_last(), name)
    }
}

/// Ukrainian spellings of registry identities and of their stable
/// spellings.
pub struct UkNames {
    events: Vec<(String, String)>,
}

pub open spec fn events_view(v: Seq<(String, String)>) -> Seq<(Seq<char>, Seq<char>)> {
    Seq::new(v.len(), |i: int| (v[i].0@, v[i].1@))
}

fn push_event(v: &mut Vec<(String, String)>, k: &String, u: &String)
    ensures
        events_view(final(v)@) == events_view(old(v)@).push((k@, u@)),
{
    v.push((copy_string(k), copy_string(u)));
    proof {
        assert(events_view(v@) =~= events_view(old(v)@).push((k@, u@)));
    }
}

fn trimmed_opening(t: &String) -> (r: Vec<char>)
    ensures
        r@ == trim_opening(t@),
{
    let cs = chars_of(t.as_str());
    let mut a: usize = 0;
    proof {
        assert(cs@.skip(0) =~= cs@);
    }
    while a < cs.len() && cs[a] == '('
        invariant
            a <= cs@.len(),
            trim_opening(cs@.skip(a as int)) == trim_opening(t@),
            cs@ == t@,
        decreases cs.len() - a,
    {
        proof {
            assert(cs@.skip(a as int).drop_first() =~= cs@.skip(a + 1));
        }
        a += 1;
    }
    proof {
        if a < cs@.len() {
            assert(cs@.skip(a as int)[0] == cs@[a as int]);
        }
    }
    let n = cs.len();
    let mut out: Vec<char> = Vec::new();
    let mut i = a;
    while i < n
        invariant
            a <= i <= n == cs@.len(),
            out@ == cs@.subrange(a as int, i as int),
        decreases n - i,
    {
        out.push(cs[i]);
        proof {
            assert(cs@.subrange(a as int, i + 1) =~= cs@.subrange(a as int, i as int).push(cs@[i as int]));
        }
        i += 1;
    }
    proof {
        assert(cs@.subrange(a as int, n as int) =~= cs@.skip(a as int));
    }
    out
}

fn trimmed_closing_is(t: &String, word: &str) -> (r: bool)
    ensures
        r == (trim_closing(t@) == word@),
{
    let cs = chars_of(t.as_str());
    let mut e = cs.len();
    proof {
        assert(cs@.take(cs@.len() as int) =~= t@);
    }
    while e > 0 && cs[e - 1] == ')'
        invariant
            e <= cs@.len(),
            cs@ == t@,
            trim_closing(cs@.take(e as int)) == trim_closing(t@),
        decreases e,
    {
        proof {
            assert(cs@.take(e as int).drop_last() =~= cs@.take(e - 1));
        }
        e -= 1;
    }
    proof {
        if e > 0 {
            assert(cs@.take(e as int).last() == cs@[e - 1]);
        }
    }
    let trimmed = string_from_chars(&cs, 0, e);
    proof {
        assert(cs@.subrange(0, e as int) =~= cs@.take(e as int));
    }
    string_eq(&trimmed, word)
}

fn all_digits_exec(t: &Vec<char>) -> (r: bool)
    ensures
        r == all_ascii_digits(t@),
{
    let mut i: usize = 0;
    while i < t.len()
        invariant
            i <= t@.len(),
            forall|k: int| 0 <= k < i ==> '0' <= #[trigger] t@[k] <= '9',
        decreases t.len() - i,
    {
        if !('0' <= t[i] && t[i] <= '9') {
            return false;
        }
        i += 1;
    }
    true
}

fn uk_row_exec(line: &Vec<char>, events: &mut Vec<(String, String)>)
    ensures
        events_view(final(events)@) == events_view(old(events)@) + uk_row_events(line@),
{
    let f = split_words(line);
    let ghost fs = texts(f@);
    proof {
        assert(events_view(events@) + Seq::<(Seq<char>, Seq<char>)>::empty() =~= events_view(events@));
    }
    if f.len() == 0 {
        return;
    }
    proof {
        assert(fs[0] == f@[0]@);
    }
    let id = trimmed_opening(&f[0]);
    if id.len() < 4 || !all_digits_exec(&id) {
        return;
    }
    let mut uk: Option<usize> = None;
    let mut stable: Vec<usize> = Vec::new();
    let mut k: usize = 1;
    let ghost mut uk_v: Option<Seq<char>> = None;
    let ghost mut st_v: Seq<Seq<char>> = Seq::empty();
    while k <= f.len() && f.len() - k >= 3
        invariant
            1 <= k,
            fs == texts(f@),
            uk_from(fs, 1, None, Seq::empty()) == uk_from(fs, k as int, uk_v, st_v),
            match uk {
                Some(j) => j < f@.len() && uk_v == Some(f@[j as int]@),
                None => uk_v is None,
            },
            st_v.len() == stable@.len(),
            forall|x: int| 0 <= x < stable@.len() ==> #[trigger] stable@[x] < f@.len() && st_v[x] == f@[stable@[x] as int]@,
        decreases f@.len() - k,
    {
        proof {
            assert(fs[k as int] == f@[k as int]@);
            assert(fs[k + 1] == f@[k + 1]@);
            assert(fs[k + 2] == f@[k + 2]@);
        }
        if trimmed_closing_is(&f[k + 2], "stable") && !string_eq(&f[k + 1], "—") {
            let ns = trimmed_opening(&f[k]);
            let is_uk = ns.len() == 2 && ns[0] == 'u' && ns[1] == 'k';
            proof {
                assert(is_uk == (ns@ == "uk"@)) by {
                    reveal_strlit("uk");
                    if ns@.len() == 2 && ns@[0] == 'u' && ns@[1] == 'k' {
                        assert(ns@ =~= "uk"@);
                    }
                }
            }
            if is_uk {
                uk = Some(k + 1);
            }
            let ghost old_stable = stable@;
            stable.push(k + 1);
            proof {
                assert forall|x: int| 0 <= x < old_stable.len() implies stable@[x] == old_stable[x] by {}
                if is_uk {
                    uk_v = Some(fs[k + 1]);
                }
                st_v = st_v.push(fs[k + 1]);
            }
        }
        k += 3;
    }
    proof {
        assert(uk_from(fs, k as int, uk_v, st_v) == (uk_v, st_v));
        assert(trim_opening(fs[0]) == id@);
    }
    match uk {
        None => {},
        Some(j) => {
            let ids = string_from_chars(&id, 0, id.len());
            proof {
                assert(id@.subrange(0, id@.len() as int) =~= id@);
            }
            let ghost base = events_view(events@);
            push_event(events, &ids, &f[j]);
            let mut x: usize = 0;
            while x < stable.len()
                invariant
                    x <= stable@.len(),
                    j < f@.len(),
                    st_v.len() == stable@.len(),
                    forall|y: int| 0 <= y < stable@.len() ==> #[trigger] stable@[y] < f@.len() && st_v[y] == f@[stable@[y] as int]@,
                    events_view(events@) == base + seq![(id@, f@[j as int]@)] + Seq::new(x as nat, |i: int| (st_v[i], f@[j as int]@)),
                decreases stable.len() - x,
            {
                let s = stable[x];
                proof {
                    assert(st_v[x as int] == f@[s as int]@);
                }
                push_event(events, &f[s], &f[j]);
                proof {
                    assert(events_view(events@) =~= base + seq![(id@, f@[j as int]@)] + Seq::new((x + 1) as nat, |i: int| (st_v[i], f@[j as int]@)));
                }
                x += 1;
            }
            proof {
                assert(events_view(events@) =~= base + uk_row_events(line@));
            }
        },
    }
}

impl UkNames {
    pub closed spec fn view(&self) -> Seq<(Seq<char>, Seq<char>)> {
        events_view(self.events@)
    }

    /// The Ukrainian names a status registry text gives.
    pub fn from_registry(registry: &str) -> (r: UkNames)
        ensures
            r@ == uk_events(registry@),
    {
        let cs = chars_of(registry);
        let ls = split_lines(&cs);
        let ghost lv = Seq::new(ls@.len(), |k: int| ls@[k]@);
        let mut events: Vec<(String, String)> = Vec::new();
        let mut i: usize = 0;
        proof {
            assert(lv.take(0) =~= Seq::<Seq<char>>::empty());
            assert(events_view(events@) =~= Seq::<(Seq<char>, Seq<char>)>::empty());
        }
        while i < ls.len()
            invariant
                i <= ls@.len(),
                lv == Seq::new(ls@.len(), |k: int| ls@[k]@),
                lv == lines(registry@),
                events_view(events@) == uk_events_of(lv.take(i as int)),
            decreases ls.len() - i,
        {
            uk_row_exec(&ls[i], &mut events);
            proof {
                let t = lv.take(i + 1);
                assert(t.drop_last() =~= lv.take(i as int));
                assert(t.last() == ls@[i as int]@);
            }
            i += 1;
        }
        proof {
            assert(lv.take(ls@.len() as int) =~= lv);
        }
        UkNames { events }
    }

    /// The Ukrainian name registered last for `name`.
    pub fn get(&self, name: &Vec<char>) -> (r: Option<String>)
        ensures
            match r {
                Some(u) => last_value(self@, name@) == Some(u@),
                None => last_value(self@, name@) is None,
            },
    {
        let ghost ev = self@;
        let mut i = self.events.len();
        proof {
            assert(ev.take(ev.len() as int) =~= ev);
        }
        while i > 0
            invariant
                i <= self.events@.len(),
                ev == self@,
                ev.len() == self.events@.len(),
                last_value(ev, name@) == last_value(ev.take(i as int), name@),
            decreases i,
        {
            let t = chars_of(self.events[i - 1].0.as_str());
            proof {
                let p = ev.take(i as int);
                assert(p.drop_last() =~= ev.take(i - 1));
                assert(p.last() == (self.events@[i - 1].0@, self.events@[i - 1].1@));
            }
            if crate::text::chars_eq(&t, name) {
                return Some(copy_string(&self.events[i - 1].1));
            }
            i -= 1;
        }
        None
    }
}

/// The Ukrainian name of an operation: the five kernel primitives by their
/// own names, any other by the registry, else the name itself.
pub open spec fn uk_operation_name(names: Seq<(Seq<char>, Seq<char>)>, name: Seq<char>) -> Seq<char> {
    if name == "PRIM_ATOM"@ {
        "атом?"@
    } else if name == "PRIM_EQ"@ {
        "тотожне?"@
    } else if name == "PRIM_CONS"@ {
        "сполучити"@
    } else if name == "PRIM_CAR"@ {
        "перше"@
    } else if name == "PRIM_CDR"@ {
        "решта"@
    } else {
        match last_value(names, name) {
            Some(u) => u,
            None => name,
        }
    }
}

fn uk_operation_name_exec(names: &UkNames, name: &Vec<char>) -> (r: String)
    ensures
        r@ == uk_operation_name(names@, name@),
{
    let s = string_from_chars(name, 0, name.len());
    proof {
        assert(name@.subrange(0, name@.len() as int) =~= name@);
    }
    if str_eq(s.as_str(), "PRIM_ATOM") {
        owned("атом?")
    } else if str_eq(s.as_str(), "PRIM_EQ") {
        owned("тотожне?")
    } else if str_eq(s.as_str(), "PRIM_CONS") {
        owned("сполучити")
    } else if str_eq(s.as_str(), "PRIM_CAR") {
        owned("перше")
    } else if str_eq(s.as_str(), "PRIM_CDR") {
        owned("решта")
    } else {
        match names.get(name) {
            Some(u) => u,
            None => s,
        }
    }
}

} // verus!

verus! {

// ---------------------------------------------------------------------------
// Translating messages
// ---------------------------------------------------------------------------

pub open spec fn starts(t: Seq<char>, p: Seq<char>) -> bool {
    p.len() <= t.len() && t.take(p.len() as int) == p
}

pub open spec fn ends(t: Seq<char>, p: Seq<char>) -> bool {
    p.len() <= t.len() && t.skip(t.len() - p.len()) == p
}

/// The Ukrainian noun for `count` arguments, by its plural class.
pub open spec fn argument_word(count: nat) -> Seq<char> {
    let tens = count % 100;
    let ones = count % 10;
    if tens == 11 {
        "аргументів"@
    } else if ones == 1 {
        "аргумент"@
    } else if 2 <= ones <= 4 && !(12 <= tens <= 14) {
        "аргументи"@
    } else {
        "аргументів"@
    }
}

/// The count of an `exactly N argument(s)` expectation.
pub open spec fn exactly_count(t: Seq<char>) -> Option<nat> {
    if starts(t, "exactly "@) {
        let r = t.skip("exactly "@.len() as int);
        if ends(r, " argument(s)"@) {
            parse_usize(r.take(r.len() - " argument(s)"@.len()))
        } else {
            None
        }
    } else {
        None
    }
}

/// Expectations with a fixed Ukrainian wording.
pub open spec fn expectation_table(t: Seq<char>) -> Option<Seq<char>> {
    if t == "a non-empty list"@ {
        Some("непорожній список"@)
    } else if t == "two atoms"@ {
        Some("два атоми"@)
    } else if t == "a callable function"@ {
        Some("функцію, яку можна викликати"@)
    } else if t == "a symbol name"@ {
        Some("ім'я-символ"@)
    } else if t == "list clauses"@ {
        Some("спискові гілки"@)
    } else if t == "(test expression) clauses"@ {
        Some("гілки виду (перевірка вираз)"@)
    } else if t == "zero or one arguments"@ {
        Some("нуль або один аргумент"@)
    } else if t == "an exact non-negative integer"@ {
        Some("точне невід'ємне ціле число"@)
    } else if t == "a string"@ {
        Some("текст"@)
    } else if t == "a string path"@ {
        Some("текстовий шлях"@)
    } else if t == "a list of strings for its second argument"@ {
        Some("список текстів другим аргументом"@)
    } else {
        None
    }
}

/// Word-by-word translation of an expectation with no fixed wording.
pub open spec fn expectation_words(t: Seq<char>) -> Seq<char> {
    let a = replace_all(t, "non-empty list"@, "непорожній список"@);
    let b = replace_all(a, "list of strings"@, "список текстів"@);
    let c = replace_all(b, "string"@, "текст"@);
    let d = replace_all(c, "integer"@, "ціле число"@);
    let e = replace_all(d, "number"@, "число"@);
    let f = replace_all(e, "symbol"@, "символ"@);
    let g = replace_all(f, "vector"@, "вектор"@);
    let h = replace_all(g, "argument(s)"@, "аргументів"@);
    replace_all(h, "arguments"@, "аргументи"@)
}

/// An operation's expectation in Ukrainian.
pub open spec fn translate_expectation(t: Seq<char>) -> Seq<char> {
    match exactly_count(t) {
        Some(c) => "рівно "@ + decimal_digits(c) + " "@ + argument_word(c),
        None => match expectation_table(t) {
            Some(x) => x,
            None => expectation_words(t),
        },
    }
}

/// Messages with a fixed Ukrainian wording.
pub open spec fn english_table(e: Seq<char>) -> Option<Seq<char>> {
    if e == "unexpected closing parenthesis"@ {
        Some("неочікувана закривна дужка"@)
    } else if e == "unclosed list"@ {
        Some("незакритий список"@)
    } else if e == "unclosed string"@ {
        Some("незакритий текстовий рядок"@)
    } else if e == "unclosed numeric buffer"@ {
        Some("незакритий числовий буфер"@)
    } else if e == "unexpected end of input"@ || e == "unexpected eof"@ {
        Some("неочікуваний кінець вводу"@)
    } else if e == "division by zero"@ {
        Some("Ділення на нуль"@)
    } else if e == "a dotted pair is not executable code"@ {
        Some("крапкова пара не є виконуваним кодом"@)
    } else if e == "quoted structure exceeds reader limit"@ {
        Some("цитована структура перевищує межу читача"@)
    } else {
        None
    }
}

/// Word-by-word translation of a message with no fixed wording.
pub open spec fn message_words(t: Seq<char>) -> Seq<char> {
    let a = replace_all(t, "numeric literal"@, "числовий літерал"@);
    let b = replace_all(a, "resource limit"@, "межа ресурсу"@);
    let c = replace_all(b, "invalid form"@, "некоректна форма"@);
    let d = replace_all(c, "invalid"@, "некоректний"@);
    let e = replace_all(d, "expected"@, "очікувалося"@);
    let f = replace_all(e, "received"@, "отримано"@);
    replace_all(f, "unexpected"@, "неочікуваний"@)
}

/// The English part of a message in Ukrainian.
pub open spec fn english_message(names: Seq<(Seq<char>, Seq<char>)>, e: Seq<char>) -> Seq<char> {
    match english_table(e) {
        Some(x) => x,
        None => match split_once(e, " expects "@) {
            Some((op, exp)) => uk_operation_name(names, op) + " очікує "@ + translate_expectation(exp),
            None => if ends(e, ": resource limit reached"@) {
                uk_operation_name(names, e.take(e.len() - ": resource limit reached"@.len()))
                    + ": досягнуто межі ресурсу"@
            } else {
                message_words(e)
            },
        },
    }
}

/// The operator, expectation and received value of a trilingual
/// expectation message.
pub open spec fn expected_received(m: Seq<char>) -> Option<(Seq<char>, Seq<char>, Seq<char>)> {
    match split_once(m, ": expected / ochikuvalosia / erwartet "@) {
        Some((op, rest)) => match split_once(rest, "; received / otrymano / erhalten "@) {
            Some((e, r)) => Some((op, e, r)),
            None => None,
        },
        None => None,
    }
}

pub open spec fn trim(t: Seq<char>) -> Seq<char> {
    trim_end(trim_start(t))
}

/// A system message in Ukrainian.
pub open spec fn ukrainian_message(names: Seq<(Seq<char>, Seq<char>)>, m: Seq<char>) -> Seq<char> {
    if starts(m, "unknown symbol"@) {
        "Невідомий символ: "@ + match rsplit_once(m, ": "@) {
            Some((_, s)) => s,
            None => "?"@,
        }
    } else {
        match expected_received(m) {
            Some((op, e, r)) => uk_operation_name(names, op) + ": очікувалося "@ + e + "; отримано "@ + r,
            None => english_message(names, trim(before_first(m, " · "@))),
        }
    }
}

/// A system message as `language` presents it.
pub open spec fn presented_message(names: Seq<(Seq<char>, Seq<char>)>, m: Seq<char>, language: PresentationLanguage) -> Seq<char> {
    if language == PresentationLanguage::Ukrainian {
        ukrainian_message(names, m)
    } else {
        m
    }
}

fn argument_word_exec(count: usize) -> (r: &'static str)
    ensures
        r@ == argument_word(count as nat),
{
    let tens = count % 100;
    let ones = count % 10;
    if tens == 11 {
        "аргументів"
    } else if ones == 1 {
        "аргумент"
    } else if 2 <= ones && ones <= 4 && !(12 <= tens && tens <= 14) {
        "аргументи"
    } else {
        "аргументів"
    }
}

fn ends_with_chars(t: &Vec<char>, p: &Vec<char>) -> (r: bool)
    ensures
        r == ends(t@, p@),
{
    if p.len() > t.len() {
        return false;
    }
    let n = t.len();
    let off = n - p.len();
    let mut k: usize = 0;
    while k < p.len()
        invariant
            n == t@.len(),
            off + p@.len() == t@.len(),
            k <= p@.len(),
            forall|j: int| 0 <= j < k ==> t@[off + j] == p@[j],
        decreases p.len() - k,
    {
        if t[off + k] != p[k] {
            proof {
                assert(t@.skip(off as int)[k as int] != p@[k as int]);
            }
            return false;
        }
        k += 1;
    }
    proof {
        assert(t@.skip(off as int) =~= p@);
    }
    true
}

fn rep(s: Vec<char>, from: &str, to: &str) -> (r: Vec<char>)
    ensures
        r@ == replace_all(s@, from@, to@),
{
    let f = chars_of(from);
    if f.len() == 0 {
        return s;
    }
    replace_chars(&s, &f, &chars_of(to))
}

fn expectation_words_exec(t: Vec<char>) -> (r: Vec<char>)
    ensures
        r@ == expectation_words(t@),
{
    let a = rep(t, "non-empty list", "непорожній список");
    let b = rep(a, "list of strings", "список текстів");
    let c = rep(b, "string", "текст");
    let d = rep(c, "integer", "ціле число");
    let e = rep(d, "number", "число");
    let f = rep(e, "symbol", "символ");
    let g = rep(f, "vector", "вектор");
    let h = rep(g, "argument(s)", "аргументів");
    rep(h, "arguments", "аргументи")
}

fn message_words_exec(t: Vec<char>) -> (r: Vec<char>)
    ensures
        r@ == message_words(t@),
{
    let a = rep(t, "numeric literal", "числовий літерал");
    let b = rep(a, "resource limit", "межа ресурсу");
    let c = rep(b, "invalid form", "некоректна форма");
    let d = rep(c, "invalid", "некоректний");
    let e = rep(d, "expected", "очікувалося");
    let f = rep(e, "received", "отримано");
    rep(f, "unexpected", "неочікуваний")
}

fn expectation_table_exec(t: &String) -> (r: Option<&'static str>)
    ensures
        match r {
            Some(x) => expectation_table(t@) == Some(x@),
            None => expectation_table(t@) is None,
        },
{
    let t = t.as_str();
    if str_eq(t, "a non-empty list") {
        Some("непорожній список")
    } else if str_eq(t, "two atoms") {
        Some("два атоми")
    } else if str_eq(t, "a callable function") {
        Some("функцію, яку можна викликати")
    } else if str_eq(t, "a symbol name") {
        Some("ім'я-символ")
    } else if str_eq(t, "list clauses") {
        Some("спискові гілки")
    } else if str_eq(t, "(test expression) clauses") {
        Some("гілки виду (перевірка вираз)")
    } else if str_eq(t, "zero or one arguments") {
        Some("нуль або один аргумент")
    } else if str_eq(t, "an exact non-negative integer") {
        Some("точне невід'ємне ціле число")
    } else if str_eq(t, "a string") {
        Some("текст")
    } else if str_eq(t, "a string path") {
        Some("текстовий шлях")
    } else if str_eq(t, "a list of strings for its second argument") {
        Some("список текстів другим аргументом")
    } else {
        None
    }
}

fn english_table_exec(t: &String) -> (r: Option<&'static str>)
    ensures
        match r {
            Some(x) => english_table(t@) == Some(x@),
            None => english_table(t@) is None,
        },
{
    let t = t.as_str();
    if str_eq(t, "unexpected closing parenthesis") {
        Some("неочікувана закривна дужка")
    } else if str_eq(t, "unclosed list") {
        Some("незакритий список")
    } else if str_eq(t, "unclosed string") {
        Some("незакритий текстовий рядок")
    } else if str_eq(t, "unclosed numeric buffer") {
        Some("незакритий числовий буфер")
    } else if str_eq(t, "unexpected end of input") || str_eq(t, "unexpected eof") {
        Some("неочікуваний кінець вводу")
    } else if str_eq(t, "division by zero") {
        Some("Ділення на нуль")
    } else if str_eq(t, "a dotted pair is not executable code") {
        Some("крапкова пара не є виконуваним кодом")
    } else if str_eq(t, "quoted structure exceeds reader limit") {
        Some("цитована структура перевищує межу читача")
    } else {
        None
    }
}

fn slice_chars(t: &Vec<char>, a: usize, b: usize) -> (r: Vec<char>)
    requires
        a <= b <= t@.len(),
    ensures
        r@ == t@.subrange(a as int, b as int),
{
    let mut out: Vec<char> = Vec::new();
    let mut i = a;
    while i < b
        invariant
            a <= i <= b <= t@.len(),
            out@ == t@.subrange(a as int, i as int),
        decreases b - i,
    {
        out.push(t[i]);
        proof {
            assert(t@.subrange(a as int, i + 1) =~= t@.subrange(a as int, i as int).push(t@[i as int]));
        }
        i += 1;
    }
    out
}

fn translate_expectation_exec(t: &Vec<char>) -> (r: String)
    ensures
        r@ == translate_expectation(t@),
{
    let pre = chars_of("exactly ");
    let suf = chars_of(" argument(s)");
    if starts_with(t, &pre) {
        let r = slice_chars(t, pre.len(), t.len());
        proof {
            assert(r@ =~= t@.skip(pre@.len() as int));
        }
        if ends_with_chars(&r, &suf) {
            match parse_usize_at(&r, 0, r.len() - suf.len()) {
                Some(c) => {
                    proof {
                        assert(r@.subrange(0, r@.len() - suf@.len()) =~= r@.take(r@.len() - suf@.len()));
                    }
                    let mut out = owned("рівно ");
                    push_decimal(&mut out, c as u64);
                    push_str(&mut out, " ");
                    push_str(&mut out, argument_word_exec(c));
                    return out;
                },
                None => {
                    proof {
                        assert(r@.subrange(0, r@.len() - suf@.len()) =~= r@.take(r@.len() - suf@.len()));
                    }
                },
            }
        }
    }
    let s = string_from_chars(t, 0, t.len());
    proof {
        assert(t@.subrange(0, t@.len() as int) =~= t@);
    }
    match expectation_table_exec(&s) {
        Some(x) => owned(x),
        None => {
            let w = expectation_words_exec(slice_chars(t, 0, t.len()));
            string_from_chars(&w, 0, w.len())
        },
    }
}

} // verus!

verus! {

fn english_message_exec(names: &UkNames, e: &Vec<char>) -> (r: String)
    ensures
        r@ == english_message(names@, e@),
{
    let es = string_from_chars(e, 0, e.len());
    proof {
        assert(e@.subrange(0, e@.len() as int) =~= e@);
    }
    match english_table_exec(&es) {
        Some(x) => {
            return owned(x);
        },
        None => {},
    }
    let sep = chars_of(" expects ");
    match find_first(e, &sep) {
        Some(i) => {
            let op = slice_chars(e, 0, i);
            let exp = slice_chars(e, i + sep.len(), e.len());
            proof {
                assert(op@ =~= e@.take(i as int));
                assert(exp@ =~= e@.skip(i + sep@.len()));
            }
            let mut out = uk_operation_name_exec(names, &op);
            push_str(&mut out, " очікує ");
            let tr = translate_expectation_exec(&exp);
            push_str(&mut out, tr.as_str());
            return out;
        },
        None => {},
    }
    let suf = chars_of(": resource limit reached");
    if ends_with_chars(e, &suf) {
        let op = slice_chars(e, 0, e.len() - suf.len());
        proof {
            assert(op@ =~= e@.take(e@.len() - suf@.len()));
        }
        let mut out = uk_operation_name_exec(names, &op);
        push_str(&mut out, ": досягнуто межі ресурсу");
        return out;
    }
    let w = message_words_exec(slice_chars(e, 0, e.len()));
    proof {
        assert(e@.subrange(0, e@.len() as int) =~= e@);
    }
    string_from_chars(&w, 0, w.len())
}

fn ukrainian_message_exec(names: &UkNames, m: &Vec<char>) -> (r: String)
    ensures
        r@ == ukrainian_message(names@, m@),
{
    let n = m.len();
    let us = chars_of("unknown symbol");
    if starts_with(m, &us) {
        let mut out = owned("Невідомий символ: ");
        let sep = chars_of(": ");
        match find_last(m, &sep) {
            Some(i) => {
                let tail = slice_chars(m, i + sep.len(), m.len());
                proof {
                    assert(tail@ =~= m@.skip(i + sep@.len()));
                }
                push_chars(&mut out, &tail);
            },
            None => {
                push_str(&mut out, "?");
            },
        }
        return out;
    }
    let e1 = chars_of(": expected / ochikuvalosia / erwartet ");
    match find_first(m, &e1) {
        Some(i) => {
            let rest = slice_chars(m, i + e1.len(), m.len());
            proof {
                assert(rest@ =~= m@.skip(i + e1@.len()));
            }
            let e2 = chars_of("; received / otrymano / erhalten ");
            match find_first(&rest, &e2) {
                Some(j) => {
                    let op = slice_chars(m, 0, i);
                    let exp = slice_chars(&rest, 0, j);
                    let rec = slice_chars(&rest, j + e2.len(), rest.len());
                    proof {
                        assert(op@ =~= m@.take(i as int));
                        assert(exp@ =~= rest@.take(j as int));
                        assert(rec@ =~= rest@.skip(j + e2@.len()));
                    }
                    let mut out = uk_operation_name_exec(names, &op);
                    push_str(&mut out, ": очікувалося ");
                    push_chars(&mut out, &exp);
                    push_str(&mut out, "; отримано ");
                    push_chars(&mut out, &rec);
                    return out;
                },
                None => {},
            }
        },
        None => {},
    }
    let dot = chars_of(" · ");
    let end = match find_first(m, &dot) {
        Some(i) => i,
        None => m.len(),
    };
    proof {
        assert(m@.subrange(0, end as int) == before_first(m@, dot@)) by {
            assert(m@.subrange(0, end as int) =~= m@.take(end as int));
            assert(m@.take(m@.len() as int) =~= m@);
        }
    }
    let a = trim_start_at(m, 0, end);
    let b = trim_end_at(m, a, end);
    let english = slice_chars(m, a, b);
    english_message_exec(names, &english)
}

/// A system message as `language` presents it: translated for Ukrainian,
/// unchanged otherwise.
pub fn present_system_message(message: &str, language: PresentationLanguage, names: &UkNames) -> (r: String)
    ensures
        r@ == presented_message(names@, message@, language),
{
    match language {
        PresentationLanguage::Ukrainian => ukrainian_message_exec(names, &chars_of(message)),
        _ => owned(message),
    }
}

/// The first line of a Ukrainian diagnostic: the translated message under
/// a label for its kind.
pub open spec fn uk_error_line(names: Seq<(Seq<char>, Seq<char>)>, e: ErrorSpec) -> Seq<char> {
    let m = ukrainian_message(names, e.message);
    match e.kind {
        ErrorKind::Parse => "Синтаксична помилка: "@ + m,
        ErrorKind::UnknownSymbol => m,
        ErrorKind::Arity => "Помилка кількості аргументів: "@ + m,
        ErrorKind::Type => "Помилка типу: "@ + m,
        ErrorKind::InvalidForm => "Некоректна форма: "@ + m,
        ErrorKind::OutOfMemory => "Вичерпано ресурс пам'яті: "@ + m,
        ErrorKind::NumericOverflow => "Перевищено числову межу: "@ + m,
        ErrorKind::DivisionByZero => if m == "Ділення на нуль"@ {
            m
        } else {
            "Ділення на нуль: "@ + m
        },
        ErrorKind::MechanismUnavailable => m,
    }
}

/// The Ukrainian rendering of an error over `s`: the labelled message, the
/// location as line and column, the source line and a caret underline as
/// wide as the span (at least one caret).
pub open spec fn uk_render_text(names: Seq<(Seq<char>, Seq<char>)>, e: ErrorSpec, s: Seq<char>) -> Seq<char> {
    let start_i = char_index_at(s, e.span.start as int, 0);
    let (line, column) = line_col_of(s.take(start_i));
    let end_i = char_index_at(s, e.span.end as int, 0);
    let width = if end_i - start_i > 0 {
        (end_i - start_i) as nat
    } else {
        1nat
    };
    let gutter = decimal_digits(line);
    let indent = repeat(' ', gutter.len());
    let line_text = match nth_line(s, (line - 1) as nat) {
        Some(t) => t,
        None => Seq::empty(),
    };
    uk_error_line(names, e) + "\n"@ + indent + " --> рядок "@ + decimal_digits(line) + ", стовпець "@
        + decimal_digits(column) + "\n"@ + indent + " |\n"@ + gutter + " | "@ + line_text + "\n"@
        + indent + " | "@ + repeat(' ', (column - 1) as nat) + repeat('^', width)
}

fn uk_error_line_exec(names: &UkNames, error: &LanguageError) -> (r: String)
    ensures
        r@ == uk_error_line(names@, error@),
{
    let message = ukrainian_message_exec(names, &chars_of(error.message.as_str()));
    let label = match error.kind {
        ErrorKind::Parse => "Синтаксична помилка: ",
        ErrorKind::UnknownSymbol => "",
        ErrorKind::Arity => "Помилка кількості аргументів: ",
        ErrorKind::Type => "Помилка типу: ",
        ErrorKind::InvalidForm => "Некоректна форма: ",
        ErrorKind::OutOfMemory => "Вичерпано ресурс пам'яті: ",
        ErrorKind::NumericOverflow => "Перевищено числову межу: ",
        ErrorKind::DivisionByZero => if string_eq(&message, "Ділення на нуль") {
            ""
        } else {
            "Ділення на нуль: "
        },
        ErrorKind::MechanismUnavailable => "",
    };
    proof {
        reveal_strlit("");
    }
    let mut out = owned(label);
    push_str(&mut out, message.as_str());
    proof {
        assert(Seq::<char>::empty() + message@ =~= message@);
    }
    out
}

/// An error as `language` presents it: the canonical rendering, or for
/// Ukrainian the translated message with Ukrainian location labels.
pub fn render_error_for_presentation(
    error: &LanguageError,
    source: &str,
    language: PresentationLanguage,
    names: &UkNames,
) -> (r: String)
    requires
        error.span.start >= utf8_len(source@) || is_char_boundary_at(source@, error.span.start as int),
        error.span.end >= utf8_len(source@) || is_char_boundary_at(source@, error.span.end as int),
        error.span.start <= error.span.end || error.span.end >= utf8_len(source@),
        source@.len() < usize::MAX,
    ensures
        r@ == if language == PresentationLanguage::Ukrainian {
            uk_render_text(names@, error@, source@)
        } else {
            crate::error::render_text(error@, source@)
        },
{
    if language != PresentationLanguage::Ukrainian {
        return error.render(source);
    }
    let chars = chars_of(source);
    proof {
        crate::text::lemma_len_le_utf8_len(source@);
    }
    let (line, column) = line_col_in(&chars, error.span.start);
    proof {
        lemma_line_col_positive(chars@.take(char_index_at(chars@, error.span.start as int, 0)));
    }
    let si = char_index_exec(&chars, error.span.start);
    let ei = char_index_exec(&chars, error.span.end);
    let width: usize = if ei > si {
        ei - si
    } else {
        1
    };
    let gutter = crate::text::decimal_string(line as u64);
    let gl = chars_of(gutter.as_str()).len();
    let mut out = uk_error_line_exec(names, error);
    push_str(&mut out, "\n");
    push_repeat(&mut out, ' ', gl);
    push_str(&mut out, " --> рядок ");
    push_decimal(&mut out, line as u64);
    push_str(&mut out, ", стовпець ");
    push_decimal(&mut out, column as u64);
    push_str(&mut out, "\n");
    push_repeat(&mut out, ' ', gl);
    push_str(&mut out, " |\n");
    push_str(&mut out, gutter.as_str());
    push_str(&mut out, " | ");
    match nth_line_exec(&chars, line - 1) {
        Some((a, e)) => {
            let t = string_from_chars(&chars, a, e);
            push_str(&mut out, t.as_str());
        },
        None => {},
    }
    push_str(&mut out, "\n");
    push_repeat(&mut out, ' ', gl);
    push_str(&mut out, " | ");
    push_repeat(&mut out, ' ', column - 1);
    push_repeat(&mut out, '^', width);
    proof {
        assert(out@ =~= uk_render_text(names@, error@, source@));
    }
    out
}

/// Law: the Ukrainian noun after a count follows the plural classes: the
/// singular `аргумент` for counts ending in 1 but not 11; the paucal
/// `аргументи` for counts ending in 2, 3 or 4 but not 12, 13 or 14; the
/// genitive plural `аргументів` for every other count.
pub proof fn law_argument_word_plural_classes(n: nat)
    ensures
        n % 10 == 1 && n % 100 != 11 ==> argument_word(n) == "аргумент"@,
        (n % 10 == 2 || n % 10 == 3 || n % 10 == 4) && !(n % 100 == 12 || n % 100 == 13 || n % 100
            == 14) ==> argument_word(n) == "аргументи"@,
        !(n % 10 == 1 && n % 100 != 11) && !((n % 10 == 2 || n % 10 == 3 || n % 10 == 4) && !(n % 100
            == 12 || n % 100 == 13 || n % 100 == 14)) ==> argument_word(n) == "аргументів"@,
{
    if n % 100 == 11 {
        assert(n % 10 == 1) by {
            vstd::arithmetic::div_mod::lemma_mod_mod(n as int, 10, 10);
            assert((n % 100) % 10 == 1);
        }
    }
}

} // verus!
