//! The status-annotated surface registry: rows `(ID (ns spelling status) ...)`
//! whose `stable` spellings name the row's numeric semantic identity.
use vstd::prelude::*;
use crate::lexical::{lines, split_lines, split_words, texts, words};
use crate::text::{chars_of, copy_string, string_eq, string_from_chars};

verus! {

/// One registry row: a numeric semantic identity and its stable spellings.
#[derive(Debug)]
pub struct StatusRow {
    pub semantic_id: String,
    pub stable_surfaces: Vec<String>,
}

pub struct StatusRowSpec {
    pub semantic_id: Seq<char>,
    pub stable_surfaces: Seq<Seq<char>>,
}

impl StatusRow {
    pub open spec fn view(&self) -> StatusRowSpec {
        StatusRowSpec { semantic_id: self.semantic_id@, stable_surfaces: texts(self.stable_surfaces@) }
    }
}

pub open spec fn all_ascii_digits(t: Seq<char>) -> bool {
    forall|i: int| 0 <= i < t.len() ==> '0' <= #[trigger] t[i] <= '9'
}

/// `t` without any closing parentheses at its end.
pub open spec fn trim_closing(t: Seq<char>) -> Seq<char>
    decreases t.len(),
{
    if t.len() > 0 && t.last() == ')' {
        trim_closing(t.drop_last())
    } else {
        t
    }
}

/// The stable spellings among the `(ns spelling status)` triples of the
/// fields from index `k`; a trailing incomplete triple ends the row.
pub open spec fn stable_from(f: Seq<Seq<char>>, k: int) -> Seq<Seq<char>>
    decreases f.len() - k,
{
    if k < 0 || k + 3 > f.len() {
        Seq::empty()
    } else {
        (if trim_closing(f[k + 2]) == "stable"@ && f[k + 1] != "—"@ {
            seq![f[k + 1]]
        } else {
            Seq::empty()
        }) + stable_from(f, k + 3)
    }
}

/// The row a line holds, if its first word is `(` and a numeric identity.
pub open spec fn status_row(line: Seq<char>) -> Option<StatusRowSpec> {
    let f = words(line);
    if f.len() == 0 {
        None
    } else {
        let first = f[0];
        if first.len() >= 2 && first[0] == '(' && all_ascii_digits(first.skip(1)) {
            Some(StatusRowSpec { semantic_id: first.skip(1), stable_surfaces: stable_from(f, 1) })
        } else {
            None
        }
    }
}

pub open spec fn status_rows_of(ls: Seq<Seq<char>>) -> Seq<StatusRowSpec>
    decreases ls.len(),
{
    if ls.len() == 0 {
        Seq::empty()
    } else {
        status_rows_of(ls.drop_last()) + match status_row(ls.last()) {
            Some(r) => seq![r],
            None => Seq::empty(),
        }
    }
}

/// The rows of a registry text, line by line.
pub open spec fn spec_status_rows(source: Seq<char>) -> Seq<StatusRowSpec> {
    status_rows_of(lines(source))
}

fn trim_closing_is(t: &String, word: &str) -> (r: bool)
    ensures
        r == (trim_closing(t@) == word@),
{
    let cs = chars_of(t.as_str());
    let mut e = cs.len();
    proof {
        assert(cs@.take(cs@.len() as int) =~= t@);
    }
    while e > 0 && cs[e - 1] == ')'
        invariant
            e <= cs@.len(),
            cs@ == t@,
            trim_closing(cs@.take(e as int)) == trim_closing(t@),
        decreases e,
    {
        proof {
            assert(cs@.take(e as int).drop_last() =~= cs@.take(e - 1));
        }
        e -= 1;
    }
    proof {
        if e > 0 {
            assert(cs@.take(e as int).last() == cs@[e - 1]);
        }
        assert(cs@.take(cs@.len() as int) =~= t@);
    }
    let trimmed = string_from_chars(&cs, 0, e);
    proof {
        assert(cs@.subrange(0, e as int) =~= cs@.take(e as int));
    }
    string_eq(&trimmed, word)
}

fn status_row_exec(line: &Vec<char>) -> (r: Option<StatusRow>)
    ensures
        match r {
            Some(row) => status_row(line@) == Some(row@),
            None => status_row(line@) is None,
        },
{
    let f = split_words(line);
    if f.len() == 0 {
        return None;
    }
    let first = chars_of(f[0].as_str());
    proof {
        assert(texts(f@)[0] == f@[0]@);
    }
    if first.len() < 2 || first[0] != '(' {
        return None;
    }
    let mut i: usize = 1;
    while i < first.len()
        invariant
            1 <= i <= first@.len(),
            texts(f@) == words(line@),
            texts(f@).len() > 0,
            first@ == texts(f@)[0],
            first@.len() >= 2,
            first@[0] == '(',
            forall|k: int| 1 <= k < i ==> '0' <= #[trigger] first@[k] <= '9',
        decreases first.len() - i,
    {
        if !('0' <= first[i] && first[i] <= '9') {
            proof {
                assert(first@.skip(1)[i - 1] == first@[i as int]);
            }
            return None;
        }
        i += 1;
    }
    proof {
        assert forall|k: int| 0 <= k < first@.skip(1).len() implies '0' <= #[trigger] first@.skip(1)[k] <= '9' by {
            assert(first@.skip(1)[k] == first@[k + 1]);
        }
    }
    let sid = string_from_chars(&first, 1, first.len());
    let ghost fs = texts(f@);
    let mut stable: Vec<String> = Vec::new();
    let mut k: usize = 1;
    proof {
        assert(texts(stable@) + stable_from(fs, 1) =~= stable_from(fs, 1));
    }
    while k <= f.len() && f.len() - k >= 3
        invariant
            1 <= k,
            fs == texts(f@),
            texts(stable@) + stable_from(fs, k as int) == stable_from(fs, 1),
        decreases f@.len() - k,
    {
        proof {
            assert(fs[k + 1] == f@[k + 1]@);
            assert(fs[k + 2] == f@[k + 2]@);
        }
        let ghost before = texts(stable@);
        if trim_closing_is(&f[k + 2], "stable") && !string_eq(&f[k + 1], "—") {
            stable.push(copy_string(&f[k + 1]));
            proof {
                assert(texts(stable@) =~= before.push(fs[k + 1]));
                assert(texts(stable@) + stable_from(fs, k + 3) =~= before + (seq![fs[k + 1]] + stable_from(fs, k + 3)));
            }
        } else {
            proof {
                assert(before + stable_from(fs, k + 3) =~= before + (Seq::<Seq<char>>::empty() + stable_from(fs, k + 3)));
            }
        }
        k += 3;
    }
    proof {
        assert(texts(stable@) + Seq::<Seq<char>>::empty() =~= texts(stable@));
        assert(sid@ == first@.skip(1));
    }
    Some(StatusRow { semantic_id: sid, stable_surfaces: stable })
}

/// The rows of a registry text.
pub fn parse_rows(source: &str) -> (r: Vec<StatusRow>)
    ensures
        Seq::new(r@.len(), |i: int| r@[i]@) == spec_status_rows(source@),
{
    let chars = chars_of(source);
    let ls = split_lines(&chars);
    let ghost lv = Seq::new(ls@.len(), |k: int| ls@[k]@);
    let mut out: Vec<StatusRow> = Vec::new();
    let mut i: usize = 0;
    proof {
        assert(lv.take(0) =~= Seq::<Seq<char>>::empty());
        assert(Seq::new(out@.len(), |k: int| out@[k]@) =~= Seq::<StatusRowSpec>::empty());
    }
    while i < ls.len()
        invariant
            i <= ls@.len(),
            lv == Seq::new(ls@.len(), |k: int| ls@[k]@),
            Seq::new(out@.len(), |k: int| out@[k]@) == status_rows_of(lv.take(i as int)),
        decreases ls.len() - i,
    {
        proof {
            let t = lv.take(i + 1);
            assert(t.drop_last() =~= lv.take(i as int));
            assert(t.last() == ls@[i as int]@);
        }
        let ghost before = Seq::new(out@.len(), |k: int| out@[k]@);
        match status_row_exec(&ls[i]) {
            Some(row) => {
                let ghost rv = row@;
                out.push(row);
                proof {
                    assert(Seq::new(out@.len(), |k: int| out@[k]@) =~= before + seq![rv]);
                }
            },
            None => {
                proof {
                    assert(before + Seq::<StatusRowSpec>::empty() =~= before);
                }
            },
        }
        i += 1;
    }
    proof {
        assert(lv.take(ls@.len() as int) =~= lv);
    }
    out
}

/// The identity a surface names: a numeric handle names itself when some
/// row has it; any other name is looked up among the stable spellings.
pub open spec fn semantic_id_for_surface_spec(rows: Seq<StatusRowSpec>, name: Seq<char>) -> Option<Seq<char>>
    decreases rows.len(),
{
    if rows.len() == 0 {
        None
    } else if (name.len() > 0 && all_ascii_digits(name) && rows[0].semantic_id == name) || (!(name.len()
        > 0 && all_ascii_digits(name)) && rows[0].stable_surfaces.contains(name)) {
        Some(rows[0].semantic_id)
    } else {
        semantic_id_for_surface_spec(rows.drop_first(), name)
    }
}

/// The identity `name` resolves to among `rows`.
pub fn semantic_id_for_surface(rows: &Vec<StatusRow>, name: &str) -> (r: Option<String>)
    ensures
        match r {
            Some(s) => semantic_id_for_surface_spec(Seq::new(rows@.len(), |i: int| rows@[i]@), name@)
                == Some(s@),
            None => semantic_id_for_surface_spec(Seq::new(rows@.len(), |i: int| rows@[i]@), name@)
                is None,
        },
{
    let cs = chars_of(name);
    let mut numeric = cs.len() > 0;
    let mut j: usize = 0;
    while j < cs.len()
        invariant
            j <= cs@.len(),
            cs@ == name@,
            numeric == (cs@.len() > 0 && forall|k: int| 0 <= k < j ==> '0' <= #[trigger] cs@[k] <= '9'),
        decreases cs.len() - j,
    {
        if !('0' <= cs[j] && cs[j] <= '9') {
            numeric = false;
        }
        j += 1;
    }
    let ghost rs = Seq::new(rows@.len(), |i: int| rows@[i]@);
    let mut i: usize = 0;
    proof {
        assert(rs.skip(0) =~= rs);
    }
    while i < rows.len()
        invariant
            i <= rows@.len(),
            rs == Seq::new(rows@.len(), |i: int| rows@[i]@),
            numeric == (name@.len() > 0 && all_ascii_digits(name@)),
            semantic_id_for_surface_spec(rs.skip(i as int), name@) == semantic_id_for_surface_spec(rs, name@),
        decreases rows.len() - i,
    {
        let row = &rows[i];
        proof {
            assert(rs.skip(i as int)[0] == row@);
            assert(rs.skip(i as int).drop_first() =~= rs.skip(i + 1));
        }
        let hit = if numeric {
            string_eq(&row.semantic_id, name)
        } else {
            let mut found = false;
            let mut k: usize = 0;
            while k < row.stable_surfaces.len()
                invariant
                    k <= row.stable_surfaces@.len(),
                    found == exists|m: int| 0 <= m < k && row.stable_surfaces@[m]@ == name@,
                decreases row.stable_surfaces.len() - k,
            {
                if string_eq(&row.stable_surfaces[k], name) {
                    found = true;
                }
                k += 1;
            }
            proof {
                let ss = texts(row.stable_surfaces@);
                if found {
                    let m = choose|m: int| 0 <= m < row.stable_surfaces@.len() && row.stable_surfaces@[m]@ == name@;
                    assert(ss[m] == name@);
                } else {
                    assert forall|m: int| 0 <= m < ss.len() implies ss[m] != name@ by {
                        assert(ss[m] == row.stable_surfaces@[m]@);
                    }
                }
            }
            found
        };
        if hit {
            return Some(copy_string(&row.semantic_id));
        }
        i += 1;
    }
    None
}

} // verus!
