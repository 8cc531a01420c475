//! The surface registry: rows `("bbbbbbbb" (en ..) (uk ..) (ukr ..) (sa ..) (sym ..))`
//! that give each 8-bit semantic identity its spellings, one per namespace,
//! `()` marking absence.
//!
//! Parsing keeps the rows in order; the surface index maps every present
//! spelling to its identity and refuses a spelling claimed by two
//! identities; projections list an identity's spellings in sorted order.
use vstd::prelude::*;
use crate::lexical::{
    lemma_lex_antisym, lemma_lex_total, lemma_lex_trans, lex_le, lex_le_exec, lines, split_lines,
    split_words, texts, words,
};
use crate::reader::is_ws;
use crate::text::{chars_of, copy_string, owned, push_str, string_eq, string_from_chars};
use crate::transport::{trim_end, trim_start};

verus! {

/// A present spelling and the namespace it belongs to.
#[derive(Debug, PartialEq, Eq)]
pub struct SemanticSurface {
    pub namespace: String,
    pub name: String,
}

/// One registry row.
#[derive(Debug)]
pub struct SemanticRow {
    pub semantic_id: u8,
    pub surfaces: Vec<SemanticSurface>,
}

pub struct RowSpec {
    pub semantic_id: u8,
    pub surfaces: Seq<(Seq<char>, Seq<char>)>,
}

pub open spec fn surfaces_view(v: Seq<SemanticSurface>) -> Seq<(Seq<char>, Seq<char>)> {
    Seq::new(v.len(), |i: int| (v[i].namespace@, v[i].name@))
}

impl SemanticRow {
    pub open spec fn view(&self) -> RowSpec {
        RowSpec { semantic_id: self.semantic_id, surfaces: surfaces_view(self.surfaces@) }
    }
}

pub open spec fn rows_view(v: Seq<SemanticRow>) -> Seq<RowSpec> {
    Seq::new(v.len(), |i: int| v[i]@)
}

// ---------------------------------------------------------------------------
// Identities
// ---------------------------------------------------------------------------

pub open spec fn bits_value(t: Seq<char>) -> nat
    decreases t.len(),
{
    if t.len() == 0 {
        0
    } else {
        bits_value(t.drop_last()) * 2 + if t.last() == '1' {
            1nat
        } else {
            0nat
        }
    }
}

pub open spec fn all_bits(t: Seq<char>) -> bool {
    forall|i: int| 0 <= i < t.len() ==> (#[trigger] t[i] == '0' || t[i] == '1')
}

/// The identity an eight-digit binary spelling denotes.
pub open spec fn sid_of_bits(t: Seq<char>) -> Option<u8> {
    if t.len() == 8 && all_bits(t) {
        Some(bits_value(t) as u8)
    } else {
        None
    }
}

pub open spec fn pow2(n: nat) -> nat
    decreases n,
{
    if n == 0 {
        1
    } else {
        2 * pow2((n - 1) as nat)
    }
}

proof fn lemma_pow2_mono(a: nat, b: nat)
    requires
        a <= b,
    ensures
        pow2(a) <= pow2(b),
    decreases b,
{
    if a < b {
        lemma_pow2_mono(a, (b - 1) as nat);
    }
}

/// The identity of an eight-digit binary spelling.
pub fn parse_sid_bits(text: &Vec<char>) -> (r: Option<u8>)
    ensures
        r == sid_of_bits(text@),
{
    if text.len() != 8 {
        return None;
    }
    let mut v: u32 = 0;
    let mut i: usize = 0;
    proof {
        assert(text@.take(0) =~= Seq::<char>::empty());
    }
    while i < 8
        invariant
            i <= 8,
            text@.len() == 8,
            all_bits(text@.take(i as int)),
            v == bits_value(text@.take(i as int)),
            v < pow2(i as nat),
        decreases 8 - i,
    {
        let c = text[i];
        proof {
            lemma_pow2_mono(i as nat, 8);
            reveal_with_fuel(pow2, 9);
            assert(pow2(8) == 256);
            assert(text@.take(i + 1).drop_last() =~= text@.take(i as int));
            assert(text@.take(i + 1).last() == c);
        }
        if c == '0' {
            v = v * 2;
        } else if c == '1' {
            v = v * 2 + 1;
        } else {
            proof {
                assert(!all_bits(text@));
            }
            return None;
        }
        proof {
            assert forall|k: int| 0 <= k < i + 1 implies (#[trigger] text@.take(i + 1)[k] == '0' || text@.take(i + 1)[k] == '1') by {
                if k < i {
                    assert(text@.take(i + 1)[k] == text@.take(i as int)[k]);
                }
            }
        }
        i += 1;
    }
    proof {
        assert(text@.take(8) =~= text@);
        reveal_with_fuel(pow2, 9);
        assert(pow2(8) == 256);
    }
    Some(v as u8)
}

/// The eight binary digits of an identity.
pub open spec fn bits_of(n: nat, k: nat) -> Seq<char>
    decreases k,
{
    if k == 0 {
        Seq::empty()
    } else {
        bits_of(n / 2, (k - 1) as nat).push(if n % 2 == 1 {
            '1'
        } else {
            '0'
        })
    }
}

/// The spelling of an identity as eight binary digits.
pub fn semantic_id_bits(semantic_id: u8) -> (r: String)
    ensures
        r@ == bits_of(semantic_id as nat, 8),
{
    let mut digits: Vec<char> = Vec::new();
    let mut n: u8 = semantic_id;
    let mut k: usize = 0;
    let ghost orig = semantic_id as nat;
    while k < 8
        invariant
            k <= 8,
            digits@.len() == k,
            bits_of(orig, 8) == bits_of(n as nat, (8 - k) as nat) + digits@,
        decreases 8 - k,
    {
        let c = if n % 2 == 1 {
            '1'
        } else {
            '0'
        };
        let ghost before = digits@;
        digits.insert(0, c);
        proof {
            assert(bits_of(n as nat, (8 - k) as nat) == bits_of((n / 2) as nat, (8 - k - 1) as nat).push(c));
            assert(digits@ =~= seq![c] + before);
            assert(bits_of((n / 2) as nat, (8 - k - 1) as nat).push(c) + before =~= bits_of(
                (n / 2) as nat,
                (8 - k - 1) as nat,
            ) + digits@);
        }
        n = n / 2;
        k += 1;
    }
    proof {
        assert(bits_of(n as nat, 0) + digits@ =~= digits@);
    }
    string_from_chars(&digits, 0, 8)
}

// ---------------------------------------------------------------------------
// Surface groups
// ---------------------------------------------------------------------------

/// Scanning state of a line: nesting depth, where the open group started,
/// and the groups found so far.
pub struct GroupScan {
    pub depth: nat,
    pub start: Option<int>,
    pub groups: Seq<Seq<char>>,
}

/// `t` with whitespace trimmed at both ends.
pub open spec fn trim(t: Seq<char>) -> Seq<char> {
    trim_start(trim_end(t))
}

/// The scan after the first `i` characters of `line`: a group is the
/// trimmed non-empty text between a parenthesis opened at depth two and
/// the one closing it.
pub open spec fn group_scan(line: Seq<char>, i: int) -> GroupScan
    decreases i,
{
    if i <= 0 || i > line.len() {
        GroupScan { depth: 0, start: None, groups: Seq::empty() }
    } else {
        let st = group_scan(line, i - 1);
        let c = line[i - 1];
        if c == '(' {
            GroupScan {
                depth: st.depth + 1,
                start: if st.depth + 1 == 2 {
                    Some(i)
                } else {
                    st.start
                },
                groups: st.groups,
            }
        } else if c == ')' {
            let (start, groups) = if st.depth == 2 {
                match st.start {
                    Some(gs) => {
                        let g = trim(line.subrange(gs, i - 1));
                        (None, if g.len() > 0 {
                            st.groups.push(g)
                        } else {
                            st.groups
                        })
                    },
                    None => (None, st.groups),
                }
            } else {
                (st.start, st.groups)
            };
            GroupScan {
                depth: if st.depth > 0 {
                    (st.depth - 1) as nat
                } else {
                    0
                },
                start,
                groups,
            }
        } else {
            st
        }
    }
}

pub open spec fn surface_groups_spec(line: Seq<char>) -> Seq<Seq<char>> {
    group_scan(line, line.len() as int).groups
}

fn trimmed(t: &Vec<char>, from: usize, to: usize) -> (r: Vec<char>)
    requires
        from <= to <= t@.len(),
    ensures
        r@ == trim(t@.subrange(from as int, to as int)),
{
    let mut b = to;
    while b > from && crate::lexical::is_ws_char_pub(t[b - 1])
        invariant
            from <= b <= to <= t@.len(),
            trim_end(t@.subrange(from as int, b as int)) == trim_end(t@.subrange(from as int, to as int)),
        decreases b,
    {
        proof {
            let sub = t@.subrange(from as int, b as int);
            assert(sub.drop_last() =~= t@.subrange(from as int, b - 1));
            assert(sub.last() == t@[b - 1]);
        }
        b -= 1;
    }
    proof {
        let sub = t@.subrange(from as int, b as int);
        if sub.len() > 0 {
            assert(sub.last() == t@[b - 1]);
        }
    }
    let mut a = from;
    while a < b && crate::lexical::is_ws_char_pub(t[a])
        invariant
            from <= a <= b,
            b <= t@.len(),
            trim_start(t@.subrange(a as int, b as int)) == trim_start(t@.subrange(from as int, b as int)),
        decreases b - a,
    {
        proof {
            let sub = t@.subrange(a as int, b as int);
            assert(sub.drop_first() =~= t@.subrange(a + 1, b as int));
            assert(sub[0] == t@[a as int]);
        }
        a += 1;
    }
    proof {
        let sub = t@.subrange(a as int, b as int);
        if sub.len() > 0 {
            assert(sub[0] == t@[a as int]);
        }
    }
    let mut out: Vec<char> = Vec::new();
    let mut k = a;
    while k < b
        invariant
            a <= k <= b <= t@.len(),
            out@ == t@.subrange(a as int, k as int),
        decreases b - k,
    {
        out.push(t[k]);
        proof {
            assert(t@.subrange(a as int, k + 1) =~= t@.subrange(a as int, k as int).push(t@[k as int]));
        }
        k += 1;
    }
    out
}

/// The surface groups of a registry line.
pub fn surface_groups(line: &Vec<char>) -> (r: Vec<Vec<char>>)
    ensures
        Seq::new(r@.len(), |k: int| r@[k]@) == surface_groups_spec(line@),
{
    let mut groups: Vec<Vec<char>> = Vec::new();
    let mut depth: usize = 0;
    let mut start: Option<usize> = None;
    let mut i: usize = 0;
    proof {
        assert(Seq::new(groups@.len(), |k: int| groups@[k]@) =~= Seq::<Seq<char>>::empty());
    }
    while i < line.len()
        invariant
            i <= line@.len(),
            depth as nat == group_scan(line@, i as int).depth,
            depth <= i,
            match start {
                Some(s) => group_scan(line@, i as int).start == Some(s as int) && s <= i,
                None => group_scan(line@, i as int).start is None,
            },
            Seq::new(groups@.len(), |k: int| groups@[k]@) == group_scan(line@, i as int).groups,
        decreases line@.len() - i,
    {
        let c = line[i];
        let ghost gv = Seq::new(groups@.len(), |k: int| groups@[k]@);
        if c == '(' {
            depth = depth + 1;
            if depth == 2 {
                start = Some(i + 1);
            }
        } else if c == ')' {
            if depth == 2 {
                match start {
                    Some(gs) => {
                        let g = trimmed(line, gs, i);
                        if g.len() > 0 {
                            let ghost g_v = g@;
                            groups.push(g);
                            proof {
                                assert(Seq::new(groups@.len(), |k: int| groups@[k]@) =~= gv.push(g_v));
                            }
                        }
                        start = None;
                    },
                    None => {},
                }
            }
            if depth > 0 {
                depth = depth - 1;
            }
        }
        i += 1;
    }
    groups
}

// ---------------------------------------------------------------------------
// Rows
// ---------------------------------------------------------------------------

/// A spelling token without its surrounding double quotes, if it has both.
pub open spec fn name_token(t: Seq<char>) -> Seq<char> {
    if t.len() >= 2 && t[0] == '"' && t.last() == '"' {
        t.subrange(1, t.len() - 1)
    } else {
        t
    }
}

/// What a group holds: `(ns ())` is an absent spelling, `(ns spelling)` a
/// present one, and anything else is malformed.
pub open spec fn group_surface(g: Seq<char>) -> Result<Option<(Seq<char>, Seq<char>)>, Seq<char>> {
    let f = words(g);
    if f.len() == 2 {
        if f[1] == "()"@ {
            Ok(None)
        } else {
            Ok(Some((f[0], name_token(f[1]))))
        }
    } else {
        Err(
            "malformed sr/2 surface group: ("@ + g
                + "); expected (namespace spelling) or (namespace ())"@,
        )
    }
}

/// The present spellings of `gs`, in order, or the first malformed group.
pub open spec fn groups_surfaces(gs: Seq<Seq<char>>) -> Result<Seq<(Seq<char>, Seq<char>)>, Seq<char>>
    decreases gs.len(),
{
    if gs.len() == 0 {
        Ok(Seq::empty())
    } else {
        match groups_surfaces(gs.drop_last()) {
            Err(e) => Err(e),
            Ok(prev) => match group_surface(gs.last()) {
                Err(e) => Err(e),
                Ok(Some(s)) => Ok(prev.push(s)),
                Ok(None) => Ok(prev),
            },
        }
    }
}

/// The namespaces of the groups: the first word of each group that has one.
pub open spec fn namespaces_of(gs: Seq<Seq<char>>) -> Seq<Seq<char>>
    decreases gs.len(),
{
    if gs.len() == 0 {
        Seq::empty()
    } else {
        namespaces_of(gs.drop_last()) + if words(gs.last()).len() > 0 {
            seq![words(gs.last())[0]]
        } else {
            Seq::empty()
        }
    }
}

pub open spec fn fixed_namespaces() -> Seq<Seq<char>> {
    seq!["en"@, "uk"@, "ukr"@, "sa"@, "sym"@]
}

pub open spec fn namespace_order_message() -> Seq<char> {
    "sr/2 rows must contain exactly en/uk/ukr/sa/sym in fixed order"@
}

/// The identity spelling a row's first word holds: `("bbbbbbbb"`.
pub open spec fn row_sid(first: Seq<char>) -> Option<u8> {
    if first.len() >= 3 && first[0] == '(' && first[1] == '"' && first.last() == '"' {
        sid_of_bits(first.subrange(2, first.len() - 1))
    } else {
        None
    }
}

/// The row a registry line holds: `Ok(None)` for a line that is not a row;
/// a row other than Canon 0 must list the five namespaces in order, and
/// each group must be well formed.
pub open spec fn row_of_line(line: Seq<char>) -> Result<Option<RowSpec>, Seq<char>> {
    let f = words(line);
    if f.len() == 0 {
        Ok(None)
    } else {
        match row_sid(f[0]) {
            None => Ok(None),
            Some(sid) => {
                let gs = surface_groups_spec(line);
                if sid != 0 && namespaces_of(gs) != fixed_namespaces() {
                    Err(namespace_order_message())
                } else {
                    match groups_surfaces(gs) {
                        Err(e) => Err(e),
                        Ok(ss) => Ok(Some(RowSpec { semantic_id: sid, surfaces: ss })),
                    }
                }
            },
        }
    }
}

pub open spec fn rows_of_lines(ls: Seq<Seq<char>>) -> Result<Seq<RowSpec>, Seq<char>>
    decreases ls.len(),
{
    if ls.len() == 0 {
        Ok(Seq::empty())
    } else {
        match rows_of_lines(ls.drop_last()) {
            Err(e) => Err(e),
            Ok(prev) => match row_of_line(ls.last()) {
                Err(e) => Err(e),
                Ok(Some(r)) => Ok(prev.push(r)),
                Ok(None) => Ok(prev),
            },
        }
    }
}

/// The rows of a registry text, or the first malformation met.
pub open spec fn spec_rows(source: Seq<char>) -> Result<Seq<RowSpec>, Seq<char>> {
    rows_of_lines(lines(source))
}


proof fn lemma_groups_err_prefix(gs: Seq<Seq<char>>, k: int)
    requires
        0 <= k <= gs.len(),
        groups_surfaces(gs.take(k)) is Err,
    ensures
        groups_surfaces(gs) == groups_surfaces(gs.take(k)),
    decreases gs.len() - k,
{
    if k < gs.len() {
        let t = gs.take(k + 1);
        assert(t.drop_last() =~= gs.take(k));
        lemma_groups_err_prefix(gs, k + 1);
    } else {
        assert(gs.take(k) =~= gs);
    }
}

proof fn lemma_rows_err_prefix(ls: Seq<Seq<char>>, k: int)
    requires
        0 <= k <= ls.len(),
        rows_of_lines(ls.take(k)) is Err,
    ensures
        rows_of_lines(ls) == rows_of_lines(ls.take(k)),
    decreases ls.len() - k,
{
    if k < ls.len() {
        let t = ls.take(k + 1);
        assert(t.drop_last() =~= ls.take(k));
        lemma_rows_err_prefix(ls, k + 1);
    } else {
        assert(ls.take(k) =~= ls);
    }
}

fn name_token_exec(t: &Vec<char>) -> (r: String)
    ensures
        r@ == name_token(t@),
{
    let n = t.len();
    if n >= 2 && t[0] == '"' && t[n - 1] == '"' {
        string_from_chars(t, 1, n - 1)
    } else {
        string_from_chars(t, 0, n)
    }
}

fn group_surface_exec(g: &Vec<char>) -> (r: Result<Option<SemanticSurface>, String>)
    ensures
        match r {
            Ok(Some(s)) => group_surface(g@) == Ok::<Option<(Seq<char>, Seq<char>)>, Seq<char>>(
                Some((s.namespace@, s.name@)),
            ),
            Ok(None) => group_surface(g@) == Ok::<Option<(Seq<char>, Seq<char>)>, Seq<char>>(None),
            Err(e) => group_surface(g@) == Err::<Option<(Seq<char>, Seq<char>)>, Seq<char>>(e@),
        },
{
    let f = split_words(g);
    if f.len() == 2 {
        proof {
            assert(texts(f@)[0] == f@[0]@);
            assert(texts(f@)[1] == f@[1]@);
        }
        if string_eq(&f[1], "()") {
            Ok(None)
        } else {
            let name_chars = chars_of(f[1].as_str());
            let name = name_token_exec(&name_chars);
            Ok(Some(SemanticSurface { namespace: copy_string(&f[0]), name }))
        }
    } else {
        let mut msg = owned("malformed sr/2 surface group: (");
        let text = string_from_chars(g, 0, g.len());
        push_str(&mut msg, text.as_str());
        push_str(&mut msg, "); expected (namespace spelling) or (namespace ())");
        proof {
            assert(g@.subrange(0, g@.len() as int) =~= g@);
            assert(msg@ =~= "malformed sr/2 surface group: ("@ + g@ + "); expected (namespace spelling) or (namespace ())"@);
        }
        Err(msg)
    }
}

fn row_sid_exec(first: &String) -> (r: Option<u8>)
    ensures
        r == row_sid(first@),
{
    let t = chars_of(first.as_str());
    let n = t.len();
    if n >= 3 && t[0] == '(' && t[1] == '"' && t[n - 1] == '"' {
        let mut bits: Vec<char> = Vec::new();
        let mut k: usize = 2;
        while k < n - 1
            invariant
                2 <= k <= n - 1,
                n == t@.len(),
                bits@ == t@.subrange(2, k as int),
            decreases n - 1 - k,
        {
            bits.push(t[k]);
            proof {
                assert(t@.subrange(2, k + 1) =~= t@.subrange(2, k as int).push(t@[k as int]));
            }
            k += 1;
        }
        parse_sid_bits(&bits)
    } else {
        None
    }
}

fn is_fixed_namespaces(gs: &Vec<Vec<char>>) -> (r: bool)
    ensures
        r == (namespaces_of(Seq::new(gs@.len(), |k: int| gs@[k]@)) == fixed_namespaces()),
{
    let ghost gv = Seq::new(gs@.len(), |k: int| gs@[k]@);
    let mut ns: Vec<String> = Vec::new();
    let mut i: usize = 0;
    proof {
        assert(gv.take(0) =~= Seq::<Seq<char>>::empty());
        assert(texts(ns@) =~= Seq::<Seq<char>>::empty());
    }
    while i < gs.len()
        invariant
            i <= gs@.len(),
            gv == Seq::new(gs@.len(), |k: int| gs@[k]@),
            texts(ns@) == namespaces_of(gv.take(i as int)),
        decreases gs.len() - i,
    {
        proof {
            let t = gv.take(i + 1);
            assert(t.drop_last() =~= gv.take(i as int));
            assert(t.last() == gs@[i as int]@);
        }
        let w = split_words(&gs[i]);
        let ghost before = texts(ns@);
        if w.len() > 0 {
            proof {
                assert(texts(w@)[0] == w@[0]@);
            }
            ns.push(copy_string(&w[0]));
            proof {
                assert(texts(ns@) =~= before + seq![w@[0]@]);
            }
        } else {
            proof {
                assert(before + Seq::<Seq<char>>::empty() =~= before);
            }
        }
        i += 1;
    }
    proof {
        assert(gv.take(gs@.len() as int) =~= gv);
        reveal_strlit("en");
        reveal_strlit("uk");
        reveal_strlit("ukr");
        reveal_strlit("sa");
        reveal_strlit("sym");
    }
    if ns.len() != 5 {
        return false;
    }
    let r = string_eq(&ns[0], "en") && string_eq(&ns[1], "uk") && string_eq(&ns[2], "ukr") && string_eq(
        &ns[3],
        "sa",
    ) && string_eq(&ns[4], "sym");
    proof {
        let tv = texts(ns@);
        if r {
            assert(tv =~= fixed_namespaces());
        } else {
            if tv == fixed_namespaces() {
                assert(tv[0] == "en"@);
                assert(tv[1] == "uk"@);
                assert(tv[2] == "ukr"@);
                assert(tv[3] == "sa"@);
                assert(tv[4] == "sym"@);
            }
        }
    }
    r
}

fn row_of_line_exec(line: &Vec<char>) -> (r: Result<Option<SemanticRow>, String>)
    ensures
        match r {
            Ok(Some(row)) => row_of_line(line@) == Ok::<Option<RowSpec>, Seq<char>>(Some(row@)),
            Ok(None) => row_of_line(line@) == Ok::<Option<RowSpec>, Seq<char>>(None),
            Err(e) => row_of_line(line@) == Err::<Option<RowSpec>, Seq<char>>(e@),
        },
{
    let f = split_words(line);
    if f.len() == 0 {
        return Ok(None);
    }
    proof {
        assert(texts(f@)[0] == f@[0]@);
    }
    let sid = match row_sid_exec(&f[0]) {
        Some(s) => s,
        None => {
            return Ok(None);
        },
    };
    let gs = surface_groups(line);
    if sid != 0 && !is_fixed_namespaces(&gs) {
        return Err(owned("sr/2 rows must contain exactly en/uk/ukr/sa/sym in fixed order"));
    }
    let ghost gv = Seq::new(gs@.len(), |k: int| gs@[k]@);
    let mut surfaces: Vec<SemanticSurface> = Vec::new();
    let mut i: usize = 0;
    proof {
        assert(gv.take(0) =~= Seq::<Seq<char>>::empty());
        assert(surfaces_view(surfaces@) =~= Seq::<(Seq<char>, Seq<char>)>::empty());
    }
    while i < gs.len()
        invariant
            i <= gs@.len(),
            gv == Seq::new(gs@.len(), |k: int| gs@[k]@),
            row_of_line(line@) == match groups_surfaces(gv) {
                Err(e) => Err(e),
                Ok(ss) => Ok(Some(RowSpec { semantic_id: sid, surfaces: ss })),
            },
            groups_surfaces(gv.take(i as int)) == Ok::<Seq<(Seq<char>, Seq<char>)>, Seq<char>>(
                surfaces_view(surfaces@),
            ),
        decreases gs.len() - i,
    {
        proof {
            let t = gv.take(i + 1);
            assert(t.drop_last() =~= gv.take(i as int));
            assert(t.last() == gs@[i as int]@);
        }
        let ghost before = surfaces_view(surfaces@);
        match group_surface_exec(&gs[i]) {
            Err(e) => {
                proof {
                    lemma_groups_err_prefix(gv, i + 1);
                }
                return Err(e);
            },
            Ok(Some(s)) => {
                let ghost sv = (s.namespace@, s.name@);
                surfaces.push(s);
                proof {
                    assert(surfaces_view(surfaces@) =~= before.push(sv));
                }
            },
            Ok(None) => {},
        }
        i += 1;
    }
    proof {
        assert(gv.take(gs@.len() as int) =~= gv);
    }
    Ok(Some(SemanticRow { semantic_id: sid, surfaces }))
}

/// The rows of a registry text, or the first malformation met.
pub fn parse_rows(source: &str) -> (r: Result<Vec<SemanticRow>, String>)
    ensures
        match r {
            Ok(rows) => spec_rows(source@) == Ok::<Seq<RowSpec>, Seq<char>>(rows_view(rows@)),
            Err(e) => spec_rows(source@) == Err::<Seq<RowSpec>, Seq<char>>(e@),
        },
{
    let chars = chars_of(source);
    let ls = split_lines(&chars);
    let ghost lv = Seq::new(ls@.len(), |k: int| ls@[k]@);
    let mut rows: Vec<SemanticRow> = Vec::new();
    let mut i: usize = 0;
    proof {
        assert(lv.take(0) =~= Seq::<Seq<char>>::empty());
        assert(rows_view(rows@) =~= Seq::<RowSpec>::empty());
    }
    while i < ls.len()
        invariant
            i <= ls@.len(),
            lv == Seq::new(ls@.len(), |k: int| ls@[k]@),
            lv == lines(source@),
            rows_of_lines(lv.take(i as int)) == Ok::<Seq<RowSpec>, Seq<char>>(rows_view(rows@)),
        decreases ls.len() - i,
    {
        proof {
            let t = lv.take(i + 1);
            assert(t.drop_last() =~= lv.take(i as int));
            assert(t.last() == ls@[i as int]@);
        }
        let ghost before = rows_view(rows@);
        match row_of_line_exec(&ls[i]) {
            Err(e) => {
                proof {
                    lemma_rows_err_prefix(lv, i + 1);
                }
                return Err(e);
            },
            Ok(Some(row)) => {
                let ghost rv = row@;
                rows.push(row);
                proof {
                    assert(rows_view(rows@) =~= before.push(rv));
                }
            },
            Ok(None) => {},
        }
        i += 1;
    }
    proof {
        assert(lv.take(ls@.len() as int) =~= lv);
    }
    Ok(rows)
}

/// Whether the rows form one contiguous byte axis from Canon 0: what the
/// check reports where they do not.
pub open spec fn axis_check(rows: Seq<RowSpec>) -> Result<(), Seq<char>> {
    if rows.len() == 0 {
        Err("semantic registry must contain Canon 0"@)
    } else if rows[0].semantic_id != 0 {
        Err("semantic registry must start at Canon 0 / SID 0"@)
    } else if exists|k: int| 0 <= k < rows.len() && rows[k].semantic_id != k {
        Err("semantic registry byte SIDs must be contiguous and ordered"@)
    } else if rows.len() > 256 {
        Err("semantic registry must fit the declared 8-bit SID axis"@)
    } else {
        Ok(())
    }
}

/// Checks that the rows form one contiguous byte axis starting at Canon 0.
pub fn check_contiguous(rows: &Vec<SemanticRow>) -> (r: Result<(), String>)
    ensures
        match r {
            Ok(()) => axis_check(rows_view(rows@)) == Ok::<(), Seq<char>>(()),
            Err(e) => axis_check(rows_view(rows@)) == Err::<(), Seq<char>>(e@),
        },
{
    let ghost rv = rows_view(rows@);
    if rows.len() == 0 {
        return Err(owned("semantic registry must contain Canon 0"));
    }
    if rows[0].semantic_id != 0 {
        return Err(owned("semantic registry must start at Canon 0 / SID 0"));
    }
    let mut k: usize = 0;
    while k < rows.len()
        invariant
            k <= rows@.len(),
            rv == rows_view(rows@),
            rv.len() > 0,
            rv[0].semantic_id == 0,
            forall|j: int| 0 <= j < k ==> rv[j].semantic_id == j,
        decreases rows.len() - k,
    {
        if rows[k].semantic_id as usize != k {
            proof {
                assert(rv[k as int].semantic_id != k);
            }
            return Err(owned("semantic registry byte SIDs must be contiguous and ordered"));
        }
        k += 1;
    }
    if rows.len() > 256 {
        return Err(owned("semantic registry must fit the declared 8-bit SID axis"));
    }
    Ok(())
}


// ---------------------------------------------------------------------------
// Sorting
// ---------------------------------------------------------------------------

pub open spec fn sorted_names(s: Seq<Seq<char>>) -> bool {
    forall|i: int, j: int| 0 <= i < j < s.len() ==> lex_le(s[i], s[j])
}

/// The order of (namespace, spelling) pairs: by namespace, then spelling.
pub open spec fn pair_le(a: (Seq<char>, Seq<char>), b: (Seq<char>, Seq<char>)) -> bool {
    if a.0 == b.0 {
        lex_le(a.1, b.1)
    } else {
        lex_le(a.0, b.0)
    }
}

pub open spec fn sorted_pairs(s: Seq<(Seq<char>, Seq<char>)>) -> bool {
    forall|i: int, j: int| 0 <= i < j < s.len() ==> pair_le(s[i], s[j])
}

proof fn lemma_pair_total(a: (Seq<char>, Seq<char>), b: (Seq<char>, Seq<char>))
    ensures
        pair_le(a, b) || pair_le(b, a),
{
    lemma_lex_total(a.0, b.0);
    lemma_lex_total(a.1, b.1);
}

proof fn lemma_pair_trans(a: (Seq<char>, Seq<char>), b: (Seq<char>, Seq<char>), c: (Seq<char>, Seq<char>))
    requires
        pair_le(a, b),
        pair_le(b, c),
    ensures
        pair_le(a, c),
{
    if a.0 == b.0 && b.0 == c.0 {
        lemma_lex_trans(a.1, b.1, c.1);
    } else if a.0 == b.0 {
    } else if b.0 == c.0 {
    } else {
        lemma_lex_trans(a.0, b.0, c.0);
        if a.0 == c.0 {
            lemma_lex_antisym(a.0, b.0);
        }
    }
}

/// The names in sorted order.
pub fn sort_names(v: Vec<String>) -> (r: Vec<String>)
    ensures
        sorted_names(texts(r@)),
        texts(r@).to_multiset() == texts(v@).to_multiset(),
{
    broadcast use vstd::seq_lib::group_to_multiset_ensures;

    let ghost vv = texts(v@);
    let mut out: Vec<String> = Vec::new();
    let mut i: usize = 0;
    proof {
        assert(vv.take(0) =~= Seq::<Seq<char>>::empty());
        assert(texts(out@) =~= Seq::<Seq<char>>::empty());
    }
    while i < v.len()
        invariant
            i <= v@.len(),
            vv == texts(v@),
            sorted_names(texts(out@)),
            texts(out@).to_multiset() == vv.take(i as int).to_multiset(),
        decreases v.len() - i,
    {
        let x = copy_string(&v[i]);
        let mut p: usize = 0;
        while p < out.len() && lex_le_exec(out[p].as_str(), x.as_str())
            invariant
                p <= out@.len(),
                forall|j: int| 0 <= j < p ==> lex_le(texts(out@)[j], x@),
            decreases out.len() - p,
        {
            p += 1;
        }
        let ghost ov = texts(out@);
        let ghost xv = x@;
        proof {
            assert forall|j: int| p <= j < ov.len() implies lex_le(xv, ov[j]) by {
                lemma_lex_total(ov[p as int], xv);
                if j > p {
                    lemma_lex_trans(xv, ov[p as int], ov[j]);
                }
            }
        }
        out.insert(p, x);
        proof {
            let nv = texts(out@);
            assert(nv =~= ov.insert(p as int, xv));
            assert forall|a: int, b: int| 0 <= a < b < nv.len() implies lex_le(nv[a], nv[b]) by {
                if a < p && b == p {
                } else if a < p && b > p {
                    lemma_lex_trans(ov[a], xv, ov[b - 1]);
                } else if a == p {
                } else if a < p {
                } else {
                }
            }
            let t = vv.take(i + 1);
            assert(t =~= vv.take(i as int).push(vv[i as int]));
            assert(vv[i as int] == xv);
            vstd::seq_lib::to_multiset_insert(ov, p as int, xv);
            vstd::seq_lib::to_multiset_build(vv.take(i as int), xv);
            assert(nv.to_multiset() == t.to_multiset());
        }
        i += 1;
    }
    proof {
        assert(vv.take(v@.len() as int) =~= vv);
    }
    out
}

pub open spec fn pairs_of(v: Seq<(String, String)>) -> Seq<(Seq<char>, Seq<char>)> {
    Seq::new(v.len(), |i: int| (v[i].0@, v[i].1@))
}

fn pair_le_exec(a: &(String, String), b: &(String, String)) -> (r: bool)
    ensures
        r == pair_le((a.0@, a.1@), (b.0@, b.1@)),
{
    if string_eq(&a.0, b.0.as_str()) {
        lex_le_exec(a.1.as_str(), b.1.as_str())
    } else {
        lex_le_exec(a.0.as_str(), b.0.as_str())
    }
}

/// The pairs in sorted order.
pub fn sort_pairs(v: Vec<(String, String)>) -> (r: Vec<(String, String)>)
    ensures
        sorted_pairs(pairs_of(r@)),
        pairs_of(r@).to_multiset() == pairs_of(v@).to_multiset(),
{
    broadcast use vstd::seq_lib::group_to_multiset_ensures;

    let ghost vv = pairs_of(v@);
    let mut out: Vec<(String, String)> = Vec::new();
    let mut i: usize = 0;
    proof {
        assert(vv.take(0) =~= Seq::<(Seq<char>, Seq<char>)>::empty());
        assert(pairs_of(out@) =~= Seq::<(Seq<char>, Seq<char>)>::empty());
    }
    while i < v.len()
        invariant
            i <= v@.len(),
            vv == pairs_of(v@),
            sorted_pairs(pairs_of(out@)),
            pairs_of(out@).to_multiset() == vv.take(i as int).to_multiset(),
        decreases v.len() - i,
    {
        let x = (copy_string(&v[i].0), copy_string(&v[i].1));
        let mut p: usize = 0;
        while p < out.len() && pair_le_exec(&out[p], &x)
            invariant
                p <= out@.len(),
                forall|j: int| 0 <= j < p ==> pair_le(pairs_of(out@)[j], (x.0@, x.1@)),
            decreases out.len() - p,
        {
            p += 1;
        }
        let ghost ov = pairs_of(out@);
        let ghost xv = (x.0@, x.1@);
        proof {
            assert forall|j: int| p <= j < ov.len() implies pair_le(xv, ov[j]) by {
                lemma_pair_total(ov[p as int], xv);
                if j > p {
                    lemma_pair_trans(xv, ov[p as int], ov[j]);
                }
            }
        }
        out.insert(p, x);
        proof {
            let nv = pairs_of(out@);
            assert(nv =~= ov.insert(p as int, xv));
            assert forall|a: int, b: int| 0 <= a < b < nv.len() implies pair_le(nv[a], nv[b]) by {
                if a < p && b > p {
                    lemma_pair_trans(ov[a], xv, ov[b - 1]);
                }
            }
            let t = vv.take(i + 1);
            assert(t =~= vv.take(i as int).push(vv[i as int]));
            assert(vv[i as int] == xv);
            vstd::seq_lib::to_multiset_insert(ov, p as int, xv);
            vstd::seq_lib::to_multiset_build(vv.take(i as int), xv);
            assert(nv.to_multiset() == t.to_multiset());
        }
        i += 1;
    }
    proof {
        assert(vv.take(v@.len() as int) =~= vv);
    }
    out
}


// ---------------------------------------------------------------------------
// The surface index and projections
// ---------------------------------------------------------------------------

/// Every present spelling of the rows with its row's identity, in order.
pub open spec fn flat_surfaces(rows: Seq<RowSpec>) -> Seq<(Seq<char>, u8)>
    decreases rows.len(),
{
    if rows.len() == 0 {
        Seq::empty()
    } else {
        flat_surfaces(rows.drop_last()) + Seq::new(
            rows.last().surfaces.len(),
            |i: int| (rows.last().surfaces[i].1, rows.last().semantic_id),
        )
    }
}

pub open spec fn duplicate_message(name: Seq<char>, previous: u8, current: u8) -> Seq<char> {
    "semantic registry surface must be unique: "@ + name + " maps to both "@ + bits_of(
        previous as nat,
        8,
    ) + " and "@ + bits_of(current as nat, 8)
}

/// `idx` with `name` mapped to `sid`; a spelling already mapped to another
/// identity is refused.
pub open spec fn index_add(idx: Seq<(Seq<char>, u8)>, name: Seq<char>, sid: u8) -> Result<Seq<(Seq<char>, u8)>, Seq<char>> {
    if exists|k: int| 0 <= k < idx.len() && idx[k].0 == name {
        let k = choose|k: int| 0 <= k < idx.len() && idx[k].0 == name;
        if idx[k].1 != sid {
            Err(duplicate_message(name, idx[k].1, sid))
        } else {
            Ok(idx)
        }
    } else {
        Ok(idx.push((name, sid)))
    }
}

pub open spec fn index_of(ps: Seq<(Seq<char>, u8)>) -> Result<Seq<(Seq<char>, u8)>, Seq<char>>
    decreases ps.len(),
{
    if ps.len() == 0 {
        Ok(Seq::empty())
    } else {
        match index_of(ps.drop_last()) {
            Err(e) => Err(e),
            Ok(idx) => index_add(idx, ps.last().0, ps.last().1),
        }
    }
}

/// The surface index of a registry text: each present spelling and its identity.
pub open spec fn spec_surface_index(source: Seq<char>) -> Result<Seq<(Seq<char>, u8)>, Seq<char>> {
    match spec_rows(source) {
        Err(e) => Err(e),
        Ok(rows) => index_of(flat_surfaces(rows)),
    }
}

pub open spec fn distinct_names(idx: Seq<(Seq<char>, u8)>) -> bool {
    forall|i: int, j: int| 0 <= i < j < idx.len() ==> idx[i].0 != idx[j].0
}

/// Spellings mapped to their semantic identities; no spelling twice.
#[derive(Debug)]
pub struct SurfaceIndex {
    entries: Vec<(String, u8)>,
}

impl SurfaceIndex {
    pub closed spec fn view(&self) -> Seq<(Seq<char>, u8)> {
        Seq::new(self.entries@.len(), |i: int| (self.entries@[i].0@, self.entries@[i].1))
    }

    /// The identity `name` maps to.
    pub fn get(&self, name: &str) -> (r: Option<u8>)
        ensures
            match r {
                Some(sid) => exists|k: int| 0 <= k < self@.len() && self@[k] == (name@, sid),
                None => forall|k: int| 0 <= k < self@.len() ==> self@[k].0 != name@,
            },
    {
        let mut i: usize = 0;
        while i < self.entries.len()
            invariant
                i <= self.entries@.len(),
                forall|k: int| 0 <= k < i ==> self@[k].0 != name@,
            decreases self.entries.len() - i,
        {
            if string_eq(&self.entries[i].0, name) {
                proof {
                    assert(self@[i as int] == (name@, self.entries@[i as int].1));
                }
                return Some(self.entries[i].1);
            }
            i += 1;
        }
        None
    }

    /// Number of spellings.
    pub fn len(&self) -> (r: usize)
        ensures
            r == self@.len(),
    {
        self.entries.len()
    }
}

fn index_add_exec(entries: &mut Vec<(String, u8)>, name: &String, sid: u8) -> (r: Result<(), String>)
    requires
        distinct_names(Seq::new(old(entries)@.len(), |i: int| (old(entries)@[i].0@, old(entries)@[i].1))),
    ensures
        distinct_names(Seq::new(final(entries)@.len(), |i: int| (final(entries)@[i].0@, final(entries)@[i].1))),
        match r {
            Ok(()) => index_add(
                Seq::new(old(entries)@.len(), |i: int| (old(entries)@[i].0@, old(entries)@[i].1)),
                name@,
                sid,
            ) == Ok::<Seq<(Seq<char>, u8)>, Seq<char>>(
                Seq::new(final(entries)@.len(), |i: int| (final(entries)@[i].0@, final(entries)@[i].1)),
            ),
            Err(e) => index_add(
                Seq::new(old(entries)@.len(), |i: int| (old(entries)@[i].0@, old(entries)@[i].1)),
                name@,
                sid,
            ) == Err::<Seq<(Seq<char>, u8)>, Seq<char>>(e@),
        },
{
    let ghost before = Seq::new(entries@.len(), |i: int| (entries@[i].0@, entries@[i].1));
    let mut k: usize = 0;
    while k < entries.len()
        invariant
            k <= entries@.len(),
            entries@ == old(entries)@,
            before == Seq::new(old(entries)@.len(), |i: int| (old(entries)@[i].0@, old(entries)@[i].1)),
            distinct_names(before),
            forall|j: int| 0 <= j < k ==> before[j].0 != name@,
        decreases entries.len() - k,
    {
        if string_eq(&entries[k].0, name.as_str()) {
            proof {
                let kk = choose|j: int| 0 <= j < before.len() && before[j].0 == name@;
                assert(before[k as int].0 == name@);
                assert(kk == k) by {
                    if kk > k {
                        assert(before[k as int].0 != before[kk].0);
                    }
                }
            }
            if entries[k].1 != sid {
                let mut msg = owned("semantic registry surface must be unique: ");
                push_str(&mut msg, name.as_str());
                push_str(&mut msg, " maps to both ");
                push_str(&mut msg, semantic_id_bits(entries[k].1).as_str());
                push_str(&mut msg, " and ");
                push_str(&mut msg, semantic_id_bits(sid).as_str());
                proof {
                    assert(msg@ =~= duplicate_message(name@, before[k as int].1, sid));
                }
                return Err(msg);
            }
            return Ok(());
        }
        k += 1;
    }
    entries.push((copy_string(name), sid));
    proof {
        assert(!(exists|j: int| 0 <= j < before.len() && before[j].0 == name@));
        assert(Seq::new(entries@.len(), |i: int| (entries@[i].0@, entries@[i].1)) =~= before.push((name@, sid)));
    }
    Ok(())
}

proof fn lemma_index_err_prefix(ps: Seq<(Seq<char>, u8)>, k: int)
    requires
        0 <= k <= ps.len(),
        index_of(ps.take(k)) is Err,
    ensures
        index_of(ps) == index_of(ps.take(k)),
    decreases ps.len() - k,
{
    if k < ps.len() {
        let t = ps.take(k + 1);
        assert(t.drop_last() =~= ps.take(k));
        lemma_index_err_prefix(ps, k + 1);
    } else {
        assert(ps.take(k) =~= ps);
    }
}

/// The surface index of a registry text, or the first malformation or
/// spelling claimed by two identities.
pub fn build_surface_index(source: &str) -> (r: Result<SurfaceIndex, String>)
    ensures
        match r {
            Ok(idx) => spec_surface_index(source@) == Ok::<Seq<(Seq<char>, u8)>, Seq<char>>(idx@),
            Err(e) => spec_surface_index(source@) == Err::<Seq<(Seq<char>, u8)>, Seq<char>>(e@),
        },
{
    let rows = match parse_rows(source) {
        Ok(rows) => rows,
        Err(e) => {
            return Err(e);
        },
    };
    let ghost rv = rows_view(rows@);
    let ghost fl = flat_surfaces(rv);
    let mut entries: Vec<(String, u8)> = Vec::new();
    let mut i: usize = 0;
    let ghost mut done: int = 0;
    proof {
        assert(rv.take(0) =~= Seq::<RowSpec>::empty());
        assert(Seq::new(entries@.len(), |j: int| (entries@[j].0@, entries@[j].1)) =~= Seq::<(Seq<char>, u8)>::empty());
        assert(fl.take(0) =~= Seq::<(Seq<char>, u8)>::empty());
    }
    while i < rows.len()
        invariant
            i <= rows@.len(),
            rv == rows_view(rows@),
            fl == flat_surfaces(rv),
            spec_rows(source@) == Ok::<Seq<RowSpec>, Seq<char>>(rv),
            done == flat_surfaces(rv.take(i as int)).len(),
            flat_surfaces(rv.take(i as int)) == fl.take(done),
            0 <= done <= fl.len(),
            distinct_names(Seq::new(entries@.len(), |j: int| (entries@[j].0@, entries@[j].1))),
            index_of(fl.take(done)) == Ok::<Seq<(Seq<char>, u8)>, Seq<char>>(
                Seq::new(entries@.len(), |j: int| (entries@[j].0@, entries@[j].1)),
            ),
        decreases rows.len() - i,
    {
        let row = &rows[i];
        let ghost seg = Seq::new(row@.surfaces.len(), |j: int| (row@.surfaces[j].1, row@.semantic_id));
        proof {
            let t = rv.take(i + 1);
            assert(t.drop_last() =~= rv.take(i as int));
            assert(t.last() == row@);
            assert(flat_surfaces(t) == fl.take(done) + seg);
            lemma_flat_prefix(rv, i as int + 1);
        }
        let mut j: usize = 0;
        while j < row.surfaces.len()
            invariant
                j <= row.surfaces@.len(),
                seg == Seq::new(row@.surfaces.len(), |j: int| (row@.surfaces[j].1, row@.semantic_id)),
                row@ == rv[i as int],
                i < rows@.len(),
                rv == rows_view(rows@),
                fl == flat_surfaces(rv),
                spec_rows(source@) == Ok::<Seq<RowSpec>, Seq<char>>(rv),
                0 <= done,
                done + seg.len() <= fl.len(),
                fl.take(done + seg.len()) == fl.take(done) + seg,
                distinct_names(Seq::new(entries@.len(), |k: int| (entries@[k].0@, entries@[k].1))),
                index_of(fl.take(done + j)) == Ok::<Seq<(Seq<char>, u8)>, Seq<char>>(
                    Seq::new(entries@.len(), |k: int| (entries@[k].0@, entries@[k].1)),
                ),
            decreases row.surfaces.len() - j,
        {
            proof {
                let t = fl.take(done + j + 1);
                assert(t.drop_last() =~= fl.take(done + j));
                assert(fl.take(done + seg.len())[done + j] == seg[j as int]);
                assert(t.last() == seg[j as int]);
                assert(row@.surfaces[j as int].1 == row.surfaces@[j as int].name@);
            }
            match index_add_exec(&mut entries, &row.surfaces[j].name, row.semantic_id) {
                Ok(()) => {},
                Err(e) => {
                    proof {
                        lemma_index_err_prefix(fl, done + j + 1);
                    }
                    return Err(e);
                },
            }
            j += 1;
        }
        proof {
            done = done + seg.len();
        }
        i += 1;
    }
    proof {
        assert(rv.take(rows@.len() as int) =~= rv);
    }
    Ok(SurfaceIndex { entries })
}

proof fn lemma_flat_prefix(rows: Seq<RowSpec>, k: int)
    requires
        0 <= k <= rows.len(),
    ensures
        flat_surfaces(rows.take(k)) == flat_surfaces(rows).take(flat_surfaces(rows.take(k)).len() as int),
        flat_surfaces(rows.take(k)).len() <= flat_surfaces(rows).len(),
    decreases rows.len() - k,
{
    if k < rows.len() {
        lemma_flat_prefix(rows, k + 1);
        let t = rows.take(k + 1);
        assert(t.drop_last() =~= rows.take(k));
        let a = flat_surfaces(rows.take(k));
        let b = flat_surfaces(t);
        assert(b.take(a.len() as int) =~= a);
        assert(flat_surfaces(rows).take(a.len() as int) =~= flat_surfaces(rows).take(b.len() as int).take(a.len() as int));
    } else {
        assert(rows.take(k) =~= rows);
        assert(flat_surfaces(rows).take(flat_surfaces(rows).len() as int) =~= flat_surfaces(rows));
    }
}

} // verus!

verus! {

/// The spellings `idx` maps to `sid`, in index order.
pub open spec fn index_names_for(idx: Seq<(Seq<char>, u8)>, sid: u8) -> Seq<Seq<char>>
    decreases idx.len(),
{
    if idx.len() == 0 {
        Seq::empty()
    } else if idx.last().1 == sid {
        index_names_for(idx.drop_last(), sid).push(idx.last().0)
    } else {
        index_names_for(idx.drop_last(), sid)
    }
}

/// The spellings an index maps to `semantic_id`, sorted.
pub fn stable_surfaces_from_index(index: &SurfaceIndex, semantic_id: u8) -> (r: Vec<String>)
    ensures
        sorted_names(texts(r@)),
        texts(r@).to_multiset() == index_names_for(index@, semantic_id).to_multiset(),
{
    let ghost iv = index@;
    let mut found: Vec<String> = Vec::new();
    let mut i: usize = 0;
    proof {
        assert(iv.take(0) =~= Seq::<(Seq<char>, u8)>::empty());
        assert(texts(found@) =~= Seq::<Seq<char>>::empty());
    }
    while i < index.entries.len()
        invariant
            i <= index.entries@.len(),
            iv == index@,
            iv.len() == index.entries@.len(),
            texts(found@) == index_names_for(iv.take(i as int), semantic_id),
        decreases index.entries.len() - i,
    {
        let ghost before = texts(found@);
        proof {
            let t = iv.take(i + 1);
            assert(t.drop_last() =~= iv.take(i as int));
            assert(t.last() == (index.entries@[i as int].0@, index.entries@[i as int].1));
        }
        if index.entries[i].1 == semantic_id {
            found.push(copy_string(&index.entries[i].0));
            proof {
                assert(texts(found@) =~= before.push(index.entries@[i as int].0@));
            }
        }
        i += 1;
    }
    proof {
        assert(iv.take(iv.len() as int) =~= iv);
    }
    sort_names(found)
}

/// The first row of `rows` with identity `sid`.
pub open spec fn find_row(rows: Seq<RowSpec>, sid: u8) -> Option<RowSpec>
    decreases rows.len(),
{
    if rows.len() == 0 {
        None
    } else if rows[0].semantic_id == sid {
        Some(rows[0])
    } else {
        find_row(rows.drop_first(), sid)
    }
}

/// The (namespace, spelling) pairs of the first row with identity `sid`;
/// none when no row has it.
pub open spec fn admitted_pairs(rows: Seq<RowSpec>, sid: u8) -> Seq<(Seq<char>, Seq<char>)> {
    match find_row(rows, sid) {
        None => Seq::empty(),
        Some(row) => row.surfaces,
    }
}

/// The spellings of the first row with identity `sid`.
pub open spec fn admitted_names(rows: Seq<RowSpec>, sid: u8) -> Seq<Seq<char>> {
    let ps = admitted_pairs(rows, sid);
    Seq::new(ps.len(), |k: int| ps[k].1)
}

/// Index of the first row with identity `sid`, if any.
fn find_row_exec(rows: &Vec<SemanticRow>, sid: u8) -> (r: Option<usize>)
    ensures
        match r {
            None => find_row(rows_view(rows@), sid) is None,
            Some(k) => k < rows@.len() && find_row(rows_view(rows@), sid) == Some(rows@[k as int]@),
        },
{
    let ghost rv = rows_view(rows@);
    let mut i: usize = 0;
    proof {
        assert(rv.skip(0) =~= rv);
    }
    while i < rows.len()
        invariant
            i <= rows@.len(),
            rv == rows_view(rows@),
            find_row(rv, sid) == find_row(rv.skip(i as int), sid),
        decreases rows.len() - i,
    {
        proof {
            assert(rv.skip(i as int)[0] == rows@[i as int]@);
            assert(rv.skip(i as int).drop_first() =~= rv.skip(i + 1));
        }
        if rows[i].semantic_id == sid {
            return Some(i);
        }
        i += 1;
    }
    proof {
        assert(rv.skip(i as int).len() == 0);
    }
    None
}

/// The spellings of the first row with identity `semantic_id`, sorted.
pub fn admitted_surfaces_from_rows(rows: &Vec<SemanticRow>, semantic_id: u8) -> (r: Vec<String>)
    ensures
        sorted_names(texts(r@)),
        texts(r@).to_multiset() == admitted_names(rows_view(rows@), semantic_id).to_multiset(),
{
    let mut names: Vec<String> = Vec::new();
    match find_row_exec(rows, semantic_id) {
        None => {
            proof {
                assert(texts(names@) =~= admitted_names(rows_view(rows@), semantic_id));
            }
        },
        Some(k) => {
            let row = &rows[k];
            let mut j: usize = 0;
            while j < row.surfaces.len()
                invariant
                    j <= row.surfaces@.len(),
                    texts(names@) == Seq::new(j as nat, |x: int| row.surfaces@[x].name@),
                decreases row.surfaces.len() - j,
            {
                let ghost before = names@;
                assert(texts(before).len() == j);
                assert(before.len() == j);
                names.push(copy_string(&row.surfaces[j].name));
                proof {
                    assert forall|x: int| 0 <= x < j implies #[trigger] names@[x]@ == row.surfaces@[x].name@ by {
                        assert(names@[x] == before[x]);
                        assert(texts(before)[x] == before[x]@);
                    }
                    assert(texts(names@) =~= Seq::new((j + 1) as nat, |x: int| row.surfaces@[x].name@));
                }
                j += 1;
            }
            proof {
                assert(texts(names@) =~= admitted_names(rows_view(rows@), semantic_id));
            }
        },
    }
    sort_names(names)
}

/// The (namespace, spelling) pairs of the first row with identity
/// `semantic_id`, sorted by namespace and then spelling.
pub fn admitted_surfaces_with_namespace(rows: &Vec<SemanticRow>, semantic_id: u8) -> (r: Vec<(String, String)>)
    ensures
        sorted_pairs(pairs_of(r@)),
        pairs_of(r@).to_multiset() == admitted_pairs(rows_view(rows@), semantic_id).to_multiset(),
{
    let mut pairs: Vec<(String, String)> = Vec::new();
    match find_row_exec(rows, semantic_id) {
        None => {
            proof {
                assert(pairs_of(pairs@) =~= admitted_pairs(rows_view(rows@), semantic_id));
            }
        },
        Some(k) => {
            let row = &rows[k];
            let mut j: usize = 0;
            while j < row.surfaces.len()
                invariant
                    j <= row.surfaces@.len(),
                    pairs_of(pairs@) == surfaces_view(row.surfaces@).take(j as int),
                decreases row.surfaces.len() - j,
            {
                let ghost before = pairs@;
                assert(pairs_of(before).len() == j);
                assert(before.len() == j);
                pairs.push((copy_string(&row.surfaces[j].namespace), copy_string(&row.surfaces[j].name)));
                proof {
                    assert forall|x: int| 0 <= x < j implies #[trigger] pairs_of(pairs@)[x] == surfaces_view(row.surfaces@)[x] by {
                        assert(pairs@[x] == before[x]);
                        assert(pairs_of(before)[x] == surfaces_view(row.surfaces@).take(j as int)[x]);
                    }
                    assert(pairs_of(pairs@) =~= surfaces_view(row.surfaces@).take(j + 1));
                }
                j += 1;
            }
            proof {
                assert(surfaces_view(row.surfaces@).take(j as int) =~= surfaces_view(row.surfaces@));
                assert(pairs_of(pairs@) =~= admitted_pairs(rows_view(rows@), semantic_id));
            }
        },
    }
    sort_pairs(pairs)
}

/// One admitted (namespace, spelling) pair of a semantic identity.
#[derive(Debug)]
pub struct SurfaceRow {
    pub namespace: String,
    pub name: String,
}

pub open spec fn surface_rows_view(v: Seq<SurfaceRow>) -> Seq<(Seq<char>, Seq<char>)> {
    Seq::new(v.len(), |i: int| (v[i].namespace@, v[i].name@))
}

/// The rows of a registry text that forms one contiguous byte axis from
/// Canon 0, or the first malformation.
pub open spec fn registry_rows(source: Seq<char>) -> Result<Seq<RowSpec>, Seq<char>> {
    match spec_rows(source) {
        Err(e) => Err(e),
        Ok(rows) => match axis_check(rows) {
            Err(e) => Err(e),
            Ok(_) => Ok(rows),
        },
    }
}

/// The (namespace, spelling) pairs that `registry` admits for
/// `semantic_id`, sorted; the registry's first malformation when it is not
/// a well-formed contiguous axis.
pub fn admitted_surfaces_for_semantic_id(registry: &str, semantic_id: u8) -> (r: Result<Vec<SurfaceRow>, String>)
    ensures
        match r {
            Ok(v) => registry_rows(registry@) is Ok
                && sorted_pairs(surface_rows_view(v@))
                && surface_rows_view(v@).to_multiset() == admitted_pairs(
                    registry_rows(registry@)->Ok_0,
                    semantic_id,
                ).to_multiset(),
            Err(e) => registry_rows(registry@) == Err::<Seq<RowSpec>, Seq<char>>(e@),
        },
{
    let rows = match parse_rows(registry) {
        Ok(rows) => rows,
        Err(e) => {
            return Err(e);
        },
    };
    match check_contiguous(&rows) {
        Ok(()) => {},
        Err(e) => {
            return Err(e);
        },
    }
    let pairs = admitted_surfaces_with_namespace(&rows, semantic_id);
    let mut out: Vec<SurfaceRow> = Vec::new();
    let mut i: usize = 0;
    while i < pairs.len()
        invariant
            i <= pairs@.len(),
            surface_rows_view(out@) == pairs_of(pairs@).take(i as int),
        decreases pairs.len() - i,
    {
        let ghost before = out@;
        assert(surface_rows_view(before).len() == i);
        assert(before.len() == i);
        out.push(SurfaceRow { namespace: copy_string(&pairs[i].0), name: copy_string(&pairs[i].1) });
        proof {
            assert forall|x: int| 0 <= x < i implies #[trigger] surface_rows_view(out@)[x] == pairs_of(pairs@)[x] by {
                assert(out@[x] == before[x]);
                assert(surface_rows_view(before)[x] == pairs_of(pairs@).take(i as int)[x]);
            }
            assert(surface_rows_view(out@) =~= pairs_of(pairs@).take(i + 1));
        }
        i += 1;
    }
    proof {
        assert(surface_rows_view(out@) =~= pairs_of(pairs@));
    }
    Ok(out)
}

} // verus!

verus! {

/// Whether `e` is an entry of `idx`.
pub open spec fn has_entry(idx: Seq<(Seq<char>, u8)>, e: (Seq<char>, u8)) -> bool {
    exists|k: int| 0 <= k < idx.len() && idx[k] == e
}

/// `idx` holds exactly the entries of `ps`, each spelling once.
pub open spec fn covers(ps: Seq<(Seq<char>, u8)>, idx: Seq<(Seq<char>, u8)>) -> bool {
    &&& distinct_names(idx)
    &&& forall|j: int| 0 <= j < ps.len() ==> has_entry(idx, #[trigger] ps[j])
    &&& forall|k: int| 0 <= k < idx.len() ==> has_entry(ps, #[trigger] idx[k])
}

proof fn lemma_covers_keep(pre: Seq<(Seq<char>, u8)>, x: (Seq<char>, u8), idx0: Seq<(Seq<char>, u8)>, k: int)
    requires
        covers(pre, idx0),
        0 <= k < idx0.len(),
        idx0[k] == x,
    ensures
        covers(pre.push(x), idx0),
{
    let ps = pre.push(x);
    assert forall|j: int| 0 <= j < ps.len() implies has_entry(idx0, #[trigger] ps[j]) by {
        if j < pre.len() {
            assert(ps[j] == pre[j]);
            assert(has_entry(idx0, pre[j]));
        } else {
            assert(idx0[k] == ps[j]);
        }
    }
    assert forall|kk: int| 0 <= kk < idx0.len() implies has_entry(ps, #[trigger] idx0[kk]) by {
        assert(has_entry(pre, idx0[kk]));
        let j = choose|j: int| 0 <= j < pre.len() && pre[j] == idx0[kk];
        assert(ps[j] == pre[j]);
    }
}

proof fn lemma_covers_push(pre: Seq<(Seq<char>, u8)>, x: (Seq<char>, u8), idx0: Seq<(Seq<char>, u8)>)
    requires
        covers(pre, idx0),
        forall|k: int| 0 <= k < idx0.len() ==> idx0[k].0 != x.0,
    ensures
        covers(pre.push(x), idx0.push(x)),
{
    let ps = pre.push(x);
    let idx = idx0.push(x);
    assert forall|a: int, b: int| 0 <= a < b < idx.len() implies idx[a].0 != idx[b].0 by {
        if b < idx0.len() {
            assert(idx0[a].0 != idx0[b].0);
        } else {
            assert(idx[a] == idx0[a]);
        }
    }
    assert forall|j: int| 0 <= j < ps.len() implies has_entry(idx, #[trigger] ps[j]) by {
        if j < pre.len() {
            assert(ps[j] == pre[j]);
            assert(has_entry(idx0, pre[j]));
            let kk = choose|kk: int| 0 <= kk < idx0.len() && idx0[kk] == pre[j];
            assert(idx[kk] == idx0[kk]);
        } else {
            assert(idx[idx0.len() as int] == ps[j]);
        }
    }
    assert forall|kk: int| 0 <= kk < idx.len() implies has_entry(ps, #[trigger] idx[kk]) by {
        if kk < idx0.len() {
            assert(idx[kk] == idx0[kk]);
            assert(has_entry(pre, idx0[kk]));
            let j = choose|j: int| 0 <= j < pre.len() && pre[j] == idx0[kk];
            assert(ps[j] == pre[j]);
        } else {
            assert(ps[pre.len() as int] == idx[kk]);
        }
    }
    assert(distinct_names(idx));
}

proof fn lemma_index_step(pre: Seq<(Seq<char>, u8)>, x: (Seq<char>, u8))
    requires
        index_of(pre) matches Ok(idx0) ==> covers(pre, idx0),
    ensures
        index_of(pre.push(x)) matches Ok(idx) ==> covers(pre.push(x), idx),
{
    let ps = pre.push(x);
    assert(ps.drop_last() =~= pre);
    assert(ps.last() == x);
    match index_of(pre) {
        Ok(idx0) => {
            if exists|k: int| 0 <= k < idx0.len() && idx0[k].0 == x.0 {
                let k = choose|k: int| 0 <= k < idx0.len() && idx0[k].0 == x.0;
                if idx0[k].1 == x.1 {
                    assert(idx0[k] == x);
                    lemma_covers_keep(pre, x, idx0, k);
                }
            } else {
                lemma_covers_push(pre, x, idx0);
            }
        },
        Err(_) => {},
    }
}

proof fn lemma_index_of(ps: Seq<(Seq<char>, u8)>)
    ensures
        index_of(ps) matches Ok(idx) ==> covers(ps, idx),
    decreases ps.len(),
{
    if ps.len() == 0 {
        assert(covers(ps, Seq::empty()));
    } else {
        let pre = ps.drop_last();
        lemma_index_of(pre);
        lemma_index_step(pre, ps.last());
        assert(pre.push(ps.last()) =~= ps);
    }
}

/// The surface index of a registry maps every present spelling to its
/// row's identity and holds nothing else, each spelling once.
pub proof fn law_index_selects_every_present_surface(source: Seq<char>)
    ensures
        spec_surface_index(source) matches Ok(idx) ==> covers(flat_surfaces(spec_rows(source)->Ok_0), idx),
{
    match spec_rows(source) {
        Ok(rows) => lemma_index_of(flat_surfaces(rows)),
        Err(_) => {},
    }
}

} // verus!
