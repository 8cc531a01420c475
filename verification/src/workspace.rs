//! The cross-file definition index of the language server.
//!
//! The index remembers, per document URI, the document's full text and the
//! definitions the canonical analysis proves in it. Definitions are kept in
//! the order they were indexed; a document's refresh drops its earlier
//! definitions and appends its new ones.
use vstd::prelude::*;
use crate::analysis::{analyze, spec_analyze, DefInfo, DefSpec};
use crate::syntax::Span;
use crate::text::{copy_string, owned, push_char, push_str, str_eq, string_eq, string_from_utf8};
use vstd::utf8::{decode_utf8, encode_utf8, valid_utf8, is_ascii_chars, char_u32_cast, char_is_scalar, encode_scalar, is_ascii_chars_encode_utf8, encode_utf8_valid_utf8, encode_utf8_decode_utf8};

verus! {

/// A definition proven in some workspace file.
#[derive(Debug)]
pub struct WorkspaceDef {
    pub name: String,
    pub uri: String,
    pub kind: String,
    pub name_span: Span,
    pub form_span: Span,
}

pub struct WorkspaceDefSpec {
    pub name: Seq<char>,
    pub uri: Seq<char>,
    pub kind: Seq<char>,
    pub name_span: Span,
    pub form_span: Span,
}

impl WorkspaceDef {
    pub open spec fn view(&self) -> WorkspaceDefSpec {
        WorkspaceDefSpec {
            name: self.name@,
            uri: self.uri@,
            kind: self.kind@,
            name_span: self.name_span,
            form_span: self.form_span,
        }
    }

    /// A copy of the definition.
    pub fn duplicate(&self) -> (r: WorkspaceDef)
        ensures
            r@ == self@,
    {
        WorkspaceDef {
            name: copy_string(&self.name),
            uri: copy_string(&self.uri),
            kind: copy_string(&self.kind),
            name_span: self.name_span,
            form_span: self.form_span,
        }
    }
}

pub open spec fn wdef_views(ds: Seq<WorkspaceDef>) -> Seq<WorkspaceDefSpec> {
    Seq::new(ds.len(), |i: int| ds[i]@)
}

/// Files larger than this many bytes are skipped when a workspace is
/// scanned; opened documents are indexed whatever their size.
pub const SCAN_MAX_BYTES: u64 = 4194304;

/// The index: workspace root, known documents in the order first seen,
/// and all indexed definitions in the order indexed.
pub struct WorkspaceIndex {
    root: Option<String>,
    texts: Vec<(String, String)>,
    defs: Vec<WorkspaceDef>,
}

pub struct IndexView {
    pub root: Option<Seq<char>>,
    pub texts: Seq<(Seq<char>, Seq<char>)>,
    pub defs: Seq<WorkspaceDefSpec>,
}

/// Whether no URI occurs twice among the documents.
pub open spec fn distinct_uris(texts: Seq<(Seq<char>, Seq<char>)>) -> bool {
    forall|i: int, j: int| 0 <= i < j < texts.len() ==> texts[i].0 != texts[j].0
}

/// `texts` with the document `uri` set to `text`: replaced in place where
/// known, appended otherwise.
pub open spec fn set_text(texts: Seq<(Seq<char>, Seq<char>)>, uri: Seq<char>, text: Seq<char>) -> Seq<
    (Seq<char>, Seq<char>),
> {
    if exists|k: int| 0 <= k < texts.len() && texts[k].0 == uri {
        let k = choose|k: int| 0 <= k < texts.len() && texts[k].0 == uri;
        texts.update(k, (uri, text))
    } else {
        texts.push((uri, text))
    }
}

/// The text of document `uri`, if known.
pub open spec fn text_in(texts: Seq<(Seq<char>, Seq<char>)>, uri: Seq<char>) -> Option<Seq<char>> {
    if exists|k: int| 0 <= k < texts.len() && texts[k].0 == uri {
        Some(texts[choose|k: int| 0 <= k < texts.len() && texts[k].0 == uri].1)
    } else {
        None
    }
}

/// In a list without repeated URIs, the text of an entry's URI is its text.
pub proof fn lemma_text_in(texts: Seq<(Seq<char>, Seq<char>)>, k: int)
    requires
        distinct_uris(texts),
        0 <= k < texts.len(),
    ensures
        text_in(texts, texts[k].0) == Some(texts[k].1),
{
    let uri = texts[k].0;
    let kk = choose|j: int| 0 <= j < texts.len() && texts[j].0 == uri;
    assert(0 <= kk < texts.len() && texts[kk].0 == uri);
    if kk < k {
        assert(texts[kk].0 != texts[k].0);
    } else if kk > k {
        assert(texts[k].0 != texts[kk].0);
    }
}

/// The index entry for a definition of document `uri`.
pub open spec fn wdef_of(d: DefSpec, uri: Seq<char>) -> WorkspaceDefSpec {
    WorkspaceDefSpec {
        name: d.name,
        uri,
        kind: d.kind,
        name_span: d.name_span,
        form_span: d.form_span,
    }
}

/// `defs` followed by the definitions `text` proves, tagged with `uri`
/// (nothing where `text` does not parse).
pub open spec fn collected(defs: Seq<WorkspaceDefSpec>, uri: Seq<char>, text: Seq<char>) -> Seq<
    WorkspaceDefSpec,
> {
    match spec_analyze(text) {
        Ok(ds) => defs + Seq::new(ds.len(), |i: int| wdef_of(ds[i], uri)),
        Err(_) => defs,
    }
}

/// Holds of the definitions of documents other than `uri`.
pub open spec fn not_of_uri(uri: Seq<char>) -> spec_fn(WorkspaceDefSpec) -> bool {
    |d: WorkspaceDefSpec| d.uri != uri
}

/// Holds of the definitions named `name`.
pub open spec fn named(name: Seq<char>) -> spec_fn(WorkspaceDefSpec) -> bool {
    |d: WorkspaceDefSpec| d.name == name
}

/// The index after document `uri` is refreshed with `text`.
pub open spec fn updated(v: IndexView, uri: Seq<char>, text: Seq<char>) -> IndexView {
    IndexView {
        root: v.root,
        texts: set_text(v.texts, uri, text),
        defs: collected(v.defs.filter(not_of_uri(uri)), uri, text),
    }
}

/// The index built from the files of a scan, in scan order.
pub open spec fn indexed(files: Seq<(Seq<char>, Seq<char>)>) -> IndexView
    decreases files.len(),
{
    if files.len() == 0 {
        IndexView { root: None, texts: Seq::empty(), defs: Seq::empty() }
    } else {
        let prev = indexed(files.drop_last());
        IndexView {
            root: None,
            texts: set_text(prev.texts, files.last().0, files.last().1),
            defs: collected(prev.defs, files.last().0, files.last().1),
        }
    }
}

/// The (URI, text) pairs of a vector of string pairs.
pub open spec fn pairs_view(v: Seq<(String, String)>) -> Seq<(Seq<char>, Seq<char>)> {
    Seq::new(v.len(), |i: int| (v[i].0@, v[i].1@))
}

/// Sets the text of `uri` in a list of (URI, text) pairs.
pub fn put_text(texts: &mut Vec<(String, String)>, uri: &str, text: &str)
    requires
        distinct_uris(pairs_view(old(texts)@)),
    ensures
        distinct_uris(pairs_view(final(texts)@)),
        pairs_view(final(texts)@) == set_text(pairs_view(old(texts)@), uri@, text@),
{
    let ghost before = pairs_view(texts@);
    let mut k: usize = 0;
    while k < texts.len()
        invariant
            k <= texts@.len(),
            texts@ == old(texts)@,
            before == pairs_view(old(texts)@),
            distinct_uris(before),
            forall|j: int| 0 <= j < k ==> before[j].0 != uri@,
        decreases texts.len() - k,
    {
        if string_eq(&texts[k].0, uri) {
            let entry = (owned(uri), owned(text));
            texts.set(k, entry);
            proof {
                assert(before[k as int].0 == uri@);
                let kk = choose|j: int| 0 <= j < before.len() && before[j].0 == uri@;
                assert(0 <= kk < before.len() && before[kk].0 == uri@);
                assert(kk == k) by {
                    if kk < k {
                    } else if kk > k {
                        assert(before[k as int].0 != before[kk].0);
                    }
                }
                assert(pairs_view(texts@) =~= set_text(before, uri@, text@));
                assert forall|i: int, j: int| 0 <= i < j < pairs_view(texts@).len() implies pairs_view(
                    texts@,
                )[i].0 != pairs_view(texts@)[j].0 by {
                    assert(pairs_view(texts@)[i].0 == before[i].0);
                    assert(pairs_view(texts@)[j].0 == before[j].0);
                }
            }
            return;
        }
        k += 1;
    }
    let entry = (owned(uri), owned(text));
    texts.push(entry);
    proof {
        assert(!(exists|k: int| 0 <= k < before.len() && before[k].0 == uri@));
        assert(pairs_view(texts@) =~= before.push((uri@, text@)));
    }
}

/// Setting a text keeps the URIs distinct, and the document then has it.
pub proof fn lemma_set_text(texts: Seq<(Seq<char>, Seq<char>)>, uri: Seq<char>, text: Seq<char>)
    requires
        distinct_uris(texts),
    ensures
        distinct_uris(set_text(texts, uri, text)),
        text_in(set_text(texts, uri, text), uri) == Some(text),
        forall|k: int|
            0 <= k < set_text(texts, uri, text).len() ==> (#[trigger] set_text(texts, uri, text)[k])
                == (if k < texts.len() && texts[k].0 != uri {
                texts[k]
            } else {
                (uri, text)
            }),
        set_text(texts, uri, text).len() >= texts.len(),
{
    let r = set_text(texts, uri, text);
    if exists|k: int| 0 <= k < texts.len() && texts[k].0 == uri {
        let k = choose|k: int| 0 <= k < texts.len() && texts[k].0 == uri;
        assert forall|i: int| 0 <= i < texts.len() && i != k implies texts[i].0 != uri by {
            if i < k {
                assert(texts[i].0 != texts[k].0);
            } else {
                assert(texts[k].0 != texts[i].0);
            }
        }
        assert forall|i: int, j: int| 0 <= i < j < r.len() implies r[i].0 != r[j].0 by {
            assert(texts[i].0 != texts[j].0);
        }
        lemma_text_in(r, k);
    } else {
        assert forall|i: int, j: int| 0 <= i < j < r.len() implies r[i].0 != r[j].0 by {
            if j < texts.len() {
                assert(texts[i].0 != texts[j].0);
            }
        }
        lemma_text_in(r, texts.len() as int);
    }
}

impl WorkspaceIndex {
    pub closed spec fn view(&self) -> IndexView {
        IndexView {
            root: match self.root {
                Some(r) => Some(r@),
                None => None,
            },
            texts: pairs_view(self.texts@),
            defs: wdef_views(self.defs@),
        }
    }

    /// The index is well formed: no document is listed twice.
    pub open spec fn wf(&self) -> bool {
        distinct_uris(self@.texts)
    }

    /// An empty index without a root.
    pub fn new() -> (r: WorkspaceIndex)
        ensures
            r.wf(),
            r@.root is None,
            r@.texts.len() == 0,
            r@.defs.len() == 0,
    {
        let r = WorkspaceIndex { root: None, texts: Vec::new(), defs: Vec::new() };
        proof {
            assert(r@.texts =~= Seq::<(Seq<char>, Seq<char>)>::empty());
        }
        r
    }

    /// The workspace root, once one was indexed.
    pub fn root(&self) -> (r: Option<&str>)
        ensures
            match r {
                Some(p) => self@.root == Some(p@),
                None => self@.root is None,
            },
    {
        match &self.root {
            Some(p) => Some(p.as_str()),
            None => None,
        }
    }

    fn set_text_exec(&mut self, uri: &str, text: &str)
        requires
            old(self).wf(),
        ensures
            final(self).wf(),
            final(self)@.texts == set_text(old(self)@.texts, uri@, text@),
            final(self)@.defs == old(self)@.defs,
            final(self)@.root == old(self)@.root,
    {
        put_text(&mut self.texts, uri, text);
    }

    fn add_defs(&mut self, uri: &str, text: &str)
        requires
            old(self).wf(),
        ensures
            final(self).wf(),
            final(self)@.texts == old(self)@.texts,
            final(self)@.root == old(self)@.root,
            final(self)@.defs == collected(old(self)@.defs, uri@, text@),
    {
        match analyze(text) {
            Ok(analysis) => {
                let ghost ds = crate::analysis::def_views(analysis.defs@);
                let ghost before = self@.defs;
                let mut i: usize = 0;
                while i < analysis.defs.len()
                    invariant
                        i <= analysis.defs@.len(),
                        ds == crate::analysis::def_views(analysis.defs@),
                        self.wf(),
                        self@.texts == old(self)@.texts,
                        self@.root == old(self)@.root,
                        before == old(self)@.defs,
                        self@.defs == before + Seq::new(i as nat, |j: int| wdef_of(ds[j], uri@)),
                    decreases analysis.defs.len() - i,
                {
                    let d = &analysis.defs[i];
                    let w = WorkspaceDef {
                        name: copy_string(&d.name),
                        uri: owned(uri),
                        kind: copy_string(&d.kind),
                        name_span: d.name_span,
                        form_span: d.form_span,
                    };
                    let ghost prev = self@;
                    let ghost prev_defs = self.defs@;
                    proof {
                        assert(ds[i as int] == d@);
                        assert(w@ == wdef_of(ds[i as int], uri@));
                    }
                    self.defs.push(w);
                    proof {
                        assert(self.defs@ == prev_defs.push(w));
                        assert(wdef_views(self.defs@) =~= wdef_views(prev_defs).push(w@));
                        assert(self@.defs =~= before + Seq::new((i + 1) as nat, |j: int| wdef_of(ds[j], uri@)));
                        assert(self@.texts =~= prev.texts);
                    }
                    i += 1;
                }
                proof {
                    assert(spec_analyze(text@) == Ok::<Seq<DefSpec>, crate::error::ErrorSpec>(ds));
                }
            },
            Err(_) => {},
        }
    }

    fn drop_defs_of(&mut self, uri: &str)
        requires
            old(self).wf(),
        ensures
            final(self).wf(),
            final(self)@.texts == old(self)@.texts,
            final(self)@.root == old(self)@.root,
            final(self)@.defs == old(self)@.defs.filter(not_of_uri(uri@)),
    {
        let ghost before = self@.defs;
        let mut kept: Vec<WorkspaceDef> = Vec::new();
        let mut i: usize = 0;
        while i < self.defs.len()
            invariant
                i <= self.defs@.len(),
                before == wdef_views(self.defs@),
                before == old(self)@.defs,
                wdef_views(kept@) == before.take(i as int).filter(not_of_uri(uri@)),
            decreases self.defs.len() - i,
        {
            let keep = !string_eq(&self.defs[i].uri, uri);
            proof {
                let t = before.take(i + 1);
                assert(t.drop_last() =~= before.take(i as int));
                assert(t.last() == self.defs@[i as int]@);
            }
            if keep {
                let ghost kv = wdef_views(kept@);
                let ghost kp = kept@;
                let d = self.defs[i].duplicate();
                kept.push(d);
                proof {
                    assert(kept@ == kp.push(d));
                    assert(wdef_views(kept@) =~= kv.push(self.defs@[i as int]@));
                    assert(not_of_uri(uri@)(before[i as int]));
                    reveal(Seq::filter);
                    let t = before.take(i + 1);
                    assert(t.filter(not_of_uri(uri@)) == t.drop_last().filter(not_of_uri(uri@)).push(t.last()));
                }
            } else {
                proof {
                    assert(!not_of_uri(uri@)(before[i as int]));
                    reveal(Seq::filter);
                    let t = before.take(i + 1);
                    assert(t.filter(not_of_uri(uri@)) == t.drop_last().filter(not_of_uri(uri@)));
                }
            }
            i += 1;
        }
        proof {
            assert(before.take(before.len() as int) =~= before);
        }
        self.defs = kept;
    }

    /// Refreshes one document: its text is kept whether or not it parses,
    /// its earlier definitions are dropped, and the definitions it proves
    /// now are appended.
    pub fn update_document(&mut self, uri: &str, text: &str)
        requires
            old(self).wf(),
        ensures
            final(self).wf(),
            final(self)@ == updated(old(self)@, uri@, text@),
    {
        self.set_text_exec(uri, text);
        self.drop_defs_of(uri);
        self.add_defs(uri, text);
    }

    /// Replaces the index by the root `root` and the source files found
    /// under it, given as (URI, text) in scan order.
    pub fn index_root(&mut self, root: String, files: &Vec<(String, String)>)
        ensures
            final(self).wf(),
            final(self)@.root == Some(root@),
            final(self)@.texts == indexed(Seq::new(files@.len(), |i: int| (files@[i].0@, files@[i].1@))).texts,
            final(self)@.defs == indexed(Seq::new(files@.len(), |i: int| (files@[i].0@, files@[i].1@))).defs,
    {
        let ghost fs = Seq::new(files@.len(), |i: int| (files@[i].0@, files@[i].1@));
        let mut fresh = WorkspaceIndex::new();
        let mut i: usize = 0;
        proof {
            assert(fs.take(0) =~= Seq::<(Seq<char>, Seq<char>)>::empty());
            assert(fresh@.defs =~= Seq::<WorkspaceDefSpec>::empty());
        }
        while i < files.len()
            invariant
                i <= files@.len(),
                fs == Seq::new(files@.len(), |i: int| (files@[i].0@, files@[i].1@)),
                fresh.wf(),
                fresh@.texts == indexed(fs.take(i as int)).texts,
                fresh@.defs == indexed(fs.take(i as int)).defs,
            decreases files.len() - i,
        {
            fresh.set_text_exec(files[i].0.as_str(), files[i].1.as_str());
            fresh.add_defs(files[i].0.as_str(), files[i].1.as_str());
            proof {
                let t = fs.take(i + 1);
                assert(t.drop_last() =~= fs.take(i as int));
                assert(t.last() == fs[i as int]);
            }
            i += 1;
        }
        proof {
            assert(fs.take(files@.len() as int) =~= fs);
        }
        fresh.root = Some(root);
        *self = fresh;
    }

    /// Every definition named `name`, in the order indexed.
    pub fn lookup(&self, name: &str) -> (r: Vec<&WorkspaceDef>)
        ensures
            Seq::new(r@.len(), |i: int| r@[i]@) == self@.defs.filter(named(name@)),
    {
        let ghost ds = self@.defs;
        let mut out: Vec<&WorkspaceDef> = Vec::new();
        let mut i: usize = 0;
        while i < self.defs.len()
            invariant
                i <= self.defs@.len(),
                ds == self@.defs,
                ds == wdef_views(self.defs@),
                Seq::new(out@.len(), |k: int| out@[k]@) == ds.take(i as int).filter(named(name@)),
            decreases self.defs.len() - i,
        {
            proof {
                let t = ds.take(i + 1);
                assert(t.drop_last() =~= ds.take(i as int));
                assert(t.last() == self.defs@[i as int]@);
            }
            if string_eq(&self.defs[i].name, name) {
                let ghost ov = Seq::new(out@.len(), |k: int| out@[k]@);
                let ghost op = out@;
                out.push(&self.defs[i]);
                proof {
                    assert(out@ == op.push(&self.defs@[i as int]));
                    assert(Seq::new(out@.len(), |k: int| out@[k]@) =~= ov.push(self.defs@[i as int]@));
                    assert(named(name@)(ds[i as int]));
                    reveal(Seq::filter);
                    let t = ds.take(i + 1);
                    assert(t.filter(named(name@)) == t.drop_last().filter(named(name@)).push(t.last()));
                }
            } else {
                proof {
                    assert(!named(name@)(ds[i as int]));
                    reveal(Seq::filter);
                    let t = ds.take(i + 1);
                    assert(t.filter(named(name@)) == t.drop_last().filter(named(name@)));
                }
            }
            i += 1;
        }
        proof {
            assert(ds.take(ds.len() as int) =~= ds);
        }
        out
    }

    /// URIs of every known document, in the order first seen.
    pub fn all_texts(&self) -> (r: Vec<String>)
        ensures
            Seq::new(r@.len(), |i: int| r@[i]@) == Seq::new(self@.texts.len(), |i: int| self@.texts[i].0),
    {
        let mut out: Vec<String> = Vec::new();
        let mut i: usize = 0;
        while i < self.texts.len()
            invariant
                i <= self.texts@.len(),
                out@.len() == i,
                forall|k: int| 0 <= k < i ==> (#[trigger] out@[k])@ == self.texts@[k].0@,
            decreases self.texts.len() - i,
        {
            out.push(copy_string(&self.texts[i].0));
            i += 1;
        }
        proof {
            assert(Seq::new(out@.len(), |i: int| out@[i]@) =~= Seq::new(self@.texts.len(), |i: int| self@.texts[i].0));
        }
        out
    }

    /// Full text of a known document.
    pub fn text_of(&self, uri: &str) -> (r: Option<&str>)
        requires
            self.wf(),
        ensures
            match r {
                Some(t) => text_in(self@.texts, uri@) == Some(t@),
                None => text_in(self@.texts, uri@) is None,
            },
    {
        let mut i: usize = 0;
        while i < self.texts.len()
            invariant
                i <= self.texts@.len(),
                self.wf(),
                forall|k: int| 0 <= k < i ==> self@.texts[k].0 != uri@,
            decreases self.texts.len() - i,
        {
            if string_eq(&self.texts[i].0, uri) {
                proof {
                    assert(self@.texts[i as int] == (uri@, self.texts@[i as int].1@));
                    lemma_text_in(self@.texts, i as int);
                }
                return Some(self.texts[i].1.as_str());
            }
            i += 1;
        }
        None
    }

    /// All definitions in the index, in the order indexed.
    pub fn lookup_all(&self) -> (r: Vec<WorkspaceDef>)
        ensures
            wdef_views(r@) == self@.defs,
    {
        let mut out: Vec<WorkspaceDef> = Vec::new();
        let mut i: usize = 0;
        while i < self.defs.len()
            invariant
                i <= self.defs@.len(),
                wdef_views(out@) == self@.defs.take(i as int),
            decreases self.defs.len() - i,
        {
            let ghost ov = wdef_views(out@);
            let ghost op = out@;
            let d = self.defs[i].duplicate();
            out.push(d);
            proof {
                assert(out@ == op.push(d));
                assert(wdef_views(out@) =~= ov.push(self.defs@[i as int]@));
                assert(self@.defs[i as int] == self.defs@[i as int]@);
                assert(wdef_views(out@) =~= self@.defs.take(i + 1));
            }
            i += 1;
        }
        proof {
            assert(self@.defs.take(self@.defs.len() as int) =~= self@.defs);
        }
        out
    }
}

// ---------------------------------------------------------------------------
// Source files and file:// URIs
// ---------------------------------------------------------------------------

/// Whether a file extension marks a source file: `wsm`, `my` and `lisp`,
/// and their Cyrillic spellings `всм`, `мій` and `лісп`.
pub open spec fn is_source_extension_spec(ext: Seq<char>) -> bool {
    ext == "wsm"@ || ext == "my"@ || ext == "lisp"@ || ext == "всм"@ || ext == "мій"@ || ext
        == "лісп"@
}

/// Whether a file extension marks a source file.
pub fn is_source_extension(ext: &str) -> (r: bool)
    ensures
        r == is_source_extension_spec(ext@),
{
    str_eq(ext, "wsm") || str_eq(ext, "my") || str_eq(ext, "lisp") || str_eq(ext, "всм") || str_eq(
        ext,
        "мій",
    ) || str_eq(ext, "лісп")
}

/// Bytes that stand for themselves in a file URI.
pub open spec fn unreserved(b: u8) -> bool {
    (65 <= b <= 90) || (97 <= b <= 122) || (48 <= b <= 57) || b == 45 || b == 95 || b == 46 || b
        == 126 || b == 47
}

/// An upper-case hex digit.
pub open spec fn hex_upper(d: nat) -> char {
    if d < 10 {
        ((d + 48) as u32) as char
    } else {
        ((d + 55) as u32) as char
    }
}

/// How one byte of a path is written in a URI.
pub open spec fn pct_byte(b: u8) -> Seq<char> {
    if unreserved(b) {
        seq![(b as u32) as char]
    } else {
        seq!['%', hex_upper((b / 16) as nat), hex_upper((b % 16) as nat)]
    }
}

/// Percent-encoding of a byte string.
pub open spec fn pct_encode(bs: Seq<u8>) -> Seq<char>
    decreases bs.len(),
{
    if bs.len() == 0 {
        Seq::empty()
    } else {
        pct_encode(bs.drop_last()) + pct_byte(bs.last())
    }
}

/// The `file://` URI of a path.
pub open spec fn path_uri(path: Seq<char>) -> Seq<char> {
    "file://"@ + pct_encode(encode_utf8(path))
}

fn hex_upper_exec(d: u8) -> (c: char)
    requires
        d < 16,
    ensures
        c == hex_upper(d as nat),
{
    if d < 10 {
        (d + 48) as char
    } else {
        (d + 55) as char
    }
}

/// The `file://` URI of an absolute path: every byte of the path's UTF-8
/// form other than letters, digits and `-_.~/` is percent-encoded.
pub fn path_to_uri(path: &str) -> (r: String)
    ensures
        r@ == path_uri(path@),
{
    let bytes = path.as_bytes();
    let mut out = owned("file://");
    let mut i: usize = 0;
    proof {
        assert(bytes@.take(0) =~= Seq::<u8>::empty());
    }
    while i < bytes.len()
        invariant
            i <= bytes@.len(),
            bytes@ == encode_utf8(path@),
            out@ == "file://"@ + pct_encode(bytes@.take(i as int)),
        decreases bytes.len() - i,
    {
        let b = bytes[i];
        if (65 <= b && b <= 90) || (97 <= b && b <= 122) || (48 <= b && b <= 57) || b == 45 || b
            == 95 || b == 46 || b == 126 || b == 47 {
            push_char(&mut out, b as char);
        } else {
            push_char(&mut out, '%');
            push_char(&mut out, hex_upper_exec(b / 16));
            push_char(&mut out, hex_upper_exec(b % 16));
        }
        proof {
            let t = bytes@.take(i + 1);
            assert(t.drop_last() =~= bytes@.take(i as int));
            assert(t.last() == b);
            assert(out@ =~= "file://"@ + pct_encode(t));
        }
        i += 1;
    }
    proof {
        assert(bytes@.take(bytes@.len() as int) =~= bytes@);
    }
    out
}

pub open spec fn is_hex_byte(b: u8) -> bool {
    (48 <= b <= 57) || (97 <= b <= 102) || (65 <= b <= 70)
}

pub open spec fn hex_byte_value(b: u8) -> int {
    if 48 <= b <= 57 {
        b - 48
    } else if 97 <= b <= 102 {
        b - 87
    } else {
        b - 55
    }
}

/// The byte a `%` escape's two characters stand for: two hex digits, or
/// `+` and one hex digit.
pub open spec fn hex_pair(a: u8, b: u8) -> Option<u8> {
    if is_hex_byte(a) && is_hex_byte(b) {
        Some((hex_byte_value(a) * 16 + hex_byte_value(b)) as u8)
    } else if a == 43 && is_hex_byte(b) {
        Some(hex_byte_value(b) as u8)
    } else {
        None
    }
}

/// Percent-decoding of `r` from `i`, `acc` having been decoded so far.
pub open spec fn pct_decode(r: Seq<u8>, i: int, acc: Seq<u8>) -> Option<Seq<u8>>
    decreases r.len() - i,
{
    if i < 0 || i >= r.len() {
        Some(acc)
    } else if r[i] == 37 && i + 2 < r.len() {
        match hex_pair(r[i + 1], r[i + 2]) {
            Some(b) => pct_decode(r, i + 3, acc.push(b)),
            None => None,
        }
    } else {
        pct_decode(r, i + 1, acc.push(r[i]))
    }
}

pub open spec fn file_scheme() -> Seq<u8> {
    seq![102u8, 105u8, 108u8, 101u8, 58u8, 47u8, 47u8]
}

/// The path a `file://` URI names: `None` for another scheme, a malformed
/// escape or a path that is not UTF-8.
pub open spec fn uri_path(uri: Seq<char>) -> Option<Seq<char>> {
    let r = encode_utf8(uri);
    if r.len() >= 7 && r.take(7) == file_scheme() {
        match pct_decode(r, 7, Seq::empty()) {
            Some(bs) => if valid_utf8(bs) {
                Some(decode_utf8(bs))
            } else {
                None
            },
            None => None,
        }
    } else {
        None
    }
}

fn is_hex_byte_exec(b: u8) -> (r: bool)
    ensures
        r == is_hex_byte(b),
{
    (48 <= b && b <= 57) || (97 <= b && b <= 102) || (65 <= b && b <= 70)
}

fn hex_byte_value_exec(b: u8) -> (r: u8)
    requires
        is_hex_byte(b),
    ensures
        r == hex_byte_value(b),
        r < 16,
{
    if 48 <= b && b <= 57 {
        b - 48
    } else if 97 <= b && b <= 102 {
        b - 87
    } else {
        b - 55
    }
}

fn hex_pair_exec(a: u8, b: u8) -> (r: Option<u8>)
    ensures
        r == hex_pair(a, b),
{
    if is_hex_byte_exec(a) && is_hex_byte_exec(b) {
        Some(hex_byte_value_exec(a) * 16 + hex_byte_value_exec(b))
    } else if a == 43 && is_hex_byte_exec(b) {
        Some(hex_byte_value_exec(b))
    } else {
        None
    }
}

/// The path a `file://` URI names.
pub fn uri_to_path(uri: &str) -> (r: Option<String>)
    ensures
        match r {
            Some(p) => uri_path(uri@) == Some(p@),
            None => uri_path(uri@) is None,
        },
{
    let raw = uri.as_bytes();
    let n = raw.len();
    if n < 7 || raw[0] != 102 || raw[1] != 105 || raw[2] != 108 || raw[3] != 101 || raw[4] != 58
        || raw[5] != 47 || raw[6] != 47 {
        proof {
            if raw@.len() >= 7 && raw@.take(7) == file_scheme() {
                assert(raw@[0] == raw@.take(7)[0]);
                assert(raw@[1] == raw@.take(7)[1]);
                assert(raw@[2] == raw@.take(7)[2]);
                assert(raw@[3] == raw@.take(7)[3]);
                assert(raw@[4] == raw@.take(7)[4]);
                assert(raw@[5] == raw@.take(7)[5]);
                assert(raw@[6] == raw@.take(7)[6]);
            }
        }
        return None;
    }
    proof {
        assert(raw@.take(7) =~= file_scheme());
    }
    let mut bytes: Vec<u8> = Vec::new();
    let mut i: usize = 7;
    while i < n
        invariant
            7 <= i <= n,
            n == raw@.len(),
            raw@ == encode_utf8(uri@),
            pct_decode(raw@, i as int, bytes@) == pct_decode(raw@, 7, Seq::empty()),
        decreases n - i,
    {
        if raw[i] == 37 && n - i > 2 {
            match hex_pair_exec(raw[i + 1], raw[i + 2]) {
                Some(b) => {
                    bytes.push(b);
                    i += 3;
                },
                None => {
                    return None;
                },
            }
        } else {
            bytes.push(raw[i]);
            i += 1;
        }
    }
    string_from_utf8(bytes)
}

} // verus!

verus! {

proof fn lemma_text_in_other(texts: Seq<(Seq<char>, Seq<char>)>, uri: Seq<char>, text: Seq<char>, other: Seq<char>)
    requires
        distinct_uris(texts),
        other != uri,
    ensures
        text_in(set_text(texts, uri, text), other) == text_in(texts, other),
{
    lemma_set_text(texts, uri, text);
    let r = set_text(texts, uri, text);
    if exists|k: int| 0 <= k < texts.len() && texts[k].0 == other {
        let k = choose|k: int| 0 <= k < texts.len() && texts[k].0 == other;
        lemma_text_in(texts, k);
        assert(r[k] == texts[k]);
        lemma_text_in(r, k);
    } else {
        assert forall|k: int| 0 <= k < r.len() implies r[k].0 != other by {
            if k < texts.len() && texts[k].0 != uri {
                assert(r[k] == texts[k]);
            }
        }
    }
}

proof fn lemma_filter_all_pass(s: Seq<WorkspaceDefSpec>, p: spec_fn(WorkspaceDefSpec) -> bool)
    requires
        forall|i: int| 0 <= i < s.len() ==> p(#[trigger] s[i]),
    ensures
        s.filter(p) == s,
    decreases s.len(),
{
    if s.len() > 0 {
        lemma_filter_all_pass(s.drop_last(), p);
        s.drop_last().lemma_filter_push(s.last(), p);
        assert(s.drop_last().push(s.last()) =~= s);
    } else {
        reveal(Seq::filter);
        assert(s.filter(p) =~= s);
    }
}

proof fn lemma_filter_none_pass(s: Seq<WorkspaceDefSpec>, p: spec_fn(WorkspaceDefSpec) -> bool)
    requires
        forall|i: int| 0 <= i < s.len() ==> !p(#[trigger] s[i]),
    ensures
        s.filter(p) == Seq::<WorkspaceDefSpec>::empty(),
    decreases s.len(),
{
    if s.len() > 0 {
        lemma_filter_none_pass(s.drop_last(), p);
        s.drop_last().lemma_filter_push(s.last(), p);
        assert(s.drop_last().push(s.last()) =~= s);
    } else {
        reveal(Seq::filter);
        assert(s.filter(p) =~= Seq::<WorkspaceDefSpec>::empty());
    }
}

/// The definitions of other documents survive an update unchanged.
proof fn lemma_other_defs_kept(defs: Seq<WorkspaceDefSpec>, uri: Seq<char>, text: Seq<char>)
    ensures
        collected(defs.filter(not_of_uri(uri)), uri, text).filter(not_of_uri(uri)) == defs.filter(not_of_uri(uri)),
{
    let nu = not_of_uri(uri);
    let kept = defs.filter(nu);
    assert forall|i: int| 0 <= i < kept.len() implies nu(#[trigger] kept[i]) by {
        defs.lemma_filter_pred(nu, i);
    }
    lemma_filter_all_pass(kept, nu);
    match spec_analyze(text) {
        Ok(ds) => {
            let fresh = Seq::new(ds.len(), |i: int| wdef_of(ds[i], uri));
            Seq::filter_distributes_over_add(kept, fresh, nu);
            lemma_filter_none_pass(fresh, nu);
            assert(kept + Seq::<WorkspaceDefSpec>::empty() =~= kept);
        },
        Err(_) => {},
    }
}

proof fn lemma_pct_encode_concat(a: Seq<u8>, b: Seq<u8>)
    ensures
        pct_encode(a + b) == pct_encode(a) + pct_encode(b),
    decreases b.len(),
{
    if b.len() == 0 {
        assert(a + b =~= a);
        assert(pct_encode(a) + pct_encode(b) =~= pct_encode(a));
    } else {
        assert((a + b).drop_last() =~= a + b.drop_last());
        lemma_pct_encode_concat(a, b.drop_last());
        assert(pct_encode(a) + pct_encode(b) =~= pct_encode(a) + pct_encode(b.drop_last()) + pct_byte(
            b.last(),
        ));
    }
}

proof fn lemma_pct_encode_first(bs: Seq<u8>)
    requires
        bs.len() > 0,
    ensures
        pct_encode(bs) == pct_byte(bs[0]) + pct_encode(bs.drop_first()),
{
    assert(bs =~= seq![bs[0]] + bs.drop_first());
    lemma_pct_encode_concat(seq![bs[0]], bs.drop_first());
    let one = seq![bs[0]];
    assert(one.drop_last() =~= Seq::<u8>::empty());
    assert(one.last() == bs[0]);
    assert(pct_encode(Seq::<u8>::empty()) == Seq::<char>::empty());
    assert(pct_encode(one) == pct_encode(one.drop_last()) + pct_byte(one.last()));
    assert(Seq::<char>::empty() + pct_byte(bs[0]) =~= pct_byte(bs[0]));
}

proof fn lemma_pct_encode_ascii(bs: Seq<u8>)
    ensures
        is_ascii_chars(pct_encode(bs)),
    decreases bs.len(),
{
    if bs.len() > 0 {
        lemma_pct_encode_ascii(bs.drop_last());
        let a = pct_encode(bs.drop_last());
        let b = pct_byte(bs.last());
        assert forall|i: int| 0 <= i < (a + b).len() implies '\0' <= #[trigger] (a + b)[i] <= '\u{7f}' by {
            if i < a.len() {
                assert((a + b)[i] == a[i]);
            } else {
                assert((a + b)[i] == b[i - a.len()]);
            }
        }
    }
}

/// Decoding the characters of `pct_encode(bs)`, met as bytes from `i`,
/// appends `bs` to what was decoded so far.
proof fn lemma_pct_decode_encoded(r: Seq<u8>, i: int, acc: Seq<u8>, bs: Seq<u8>)
    requires
        0 <= i,
        r.len() == i + pct_encode(bs).len(),
        forall|k: int| 0 <= k < pct_encode(bs).len() ==> r[i + k] == (#[trigger] pct_encode(bs)[k]) as u8,
    ensures
        pct_decode(r, i, acc) == Some(acc + bs),
    decreases bs.len(),
{
    if bs.len() == 0 {
        assert(acc + bs =~= acc);
    } else {
        let b = bs[0];
        let rest = bs.drop_first();
        lemma_pct_encode_first(bs);
        let head = pct_byte(b);
        let pe = pct_encode(bs);
        assert(forall|k: int| 0 <= k < head.len() ==> pe[k] == head[k]);
        assert(forall|k: int| 0 <= k < pct_encode(rest).len() ==> pe[head.len() + k] == #[trigger] pct_encode(rest)[k]);
        if unreserved(b) {
            assert(pe[0] == (b as u32) as char);
            assert(r[i] == b);
            assert forall|k: int| 0 <= k < pct_encode(rest).len() implies r[i + 1 + k] == (
            #[trigger] pct_encode(rest)[k]) as u8 by {
                assert(pe[1 + k] == pct_encode(rest)[k]);
                assert(r[i + (1 + k)] == pe[1 + k] as u8);
            }
            lemma_pct_decode_encoded(r, i + 1, acc.push(b), rest);
            assert(acc.push(b) + rest =~= acc + bs);
        } else {
            let hi = (b / 16) as nat;
            let lo = (b % 16) as nat;
            assert(r[i] == pe[0] as u8);
            assert(r[i + 1] == pe[1] as u8);
            assert(r[i + 2] == pe[2] as u8);
            assert(r[i] == 37);
            let x = r[i + 1];
            let y = r[i + 2];
            assert(is_hex_byte(x) && hex_byte_value(x) == hi);
            assert(is_hex_byte(y) && hex_byte_value(y) == lo);
            assert(hex_pair(x, y) == Some(b));
            assert forall|k: int| 0 <= k < pct_encode(rest).len() implies r[i + 3 + k] == (
            #[trigger] pct_encode(rest)[k]) as u8 by {
                assert(pe[3 + k] == pct_encode(rest)[k]);
                assert(r[i + (3 + k)] == pe[3 + k] as u8);
            }
            lemma_pct_decode_encoded(r, i + 3, acc.push(b), rest);
            assert(acc.push(b) + rest =~= acc + bs);
        }
    }
}

/// A character that may stand in a file URI made by `path_to_uri`: a
/// letter, a digit, one of `-_.~/`, or the `%` of an escape.
pub open spec fn uri_char(c: char) -> bool {
    ('A' <= c <= 'Z') || ('a' <= c <= 'z') || ('0' <= c <= '9') || c == '-' || c == '_' || c == '.'
        || c == '~' || c == '/' || c == '%'
}

proof fn lemma_pct_encode_chars(bs: Seq<u8>)
    ensures
        forall|i: int| 0 <= i < pct_encode(bs).len() ==> uri_char(#[trigger] pct_encode(bs)[i]),
    decreases bs.len(),
{
    if bs.len() > 0 {
        lemma_pct_encode_chars(bs.drop_last());
        let a = pct_encode(bs.drop_last());
        let b = pct_byte(bs.last());
        assert forall|i: int| 0 <= i < (a + b).len() implies uri_char(#[trigger] (a + b)[i]) by {
            if i < a.len() {
                assert((a + b)[i] == a[i]);
            } else {
                assert((a + b)[i] == b[i - a.len()]);
            }
        }
    }
}

proof fn lemma_first_byte_ascii(u: Seq<char>)
    requires
        encode_utf8(u).len() > 0,
        encode_utf8(u)[0] < 128,
    ensures
        u.len() > 0,
        u[0] as u32 == encode_utf8(u)[0],
        encode_utf8(u).drop_first() == encode_utf8(u.drop_first()),
{
    if u.len() == 0 {
        assert(encode_utf8(u) =~= Seq::<u8>::empty());
    } else {
        let c = u[0] as u32;
        char_is_scalar(u[0]);
        assert(encode_utf8(u) == encode_scalar(c) + encode_utf8(u.drop_first()));
        if c <= 0x7F {
            assert((c & 0x7F) as u8 == c) by (bit_vector)
                requires
                    c <= 0x7F,
            ;
            assert(encode_scalar(c) == seq![(c & 0x7F) as u8]);
            assert(encode_utf8(u).drop_first() =~= encode_utf8(u.drop_first()));
        } else if c <= 0x7FF {
            assert((0xC0 | ((c >> 6) & 0x1F) as u8) >= 0xC0) by (bit_vector);
            assert(encode_utf8(u)[0] == encode_scalar(c)[0]);
        } else if c <= 0xFFFF {
            assert((0xE0 | ((c >> 12) & 0x0F) as u8) >= 0xE0) by (bit_vector);
            assert(encode_utf8(u)[0] == encode_scalar(c)[0]);
        } else {
            assert((0xF0 | ((c >> 18) & 0x7) as u8) >= 0xF0) by (bit_vector);
            assert(encode_utf8(u)[0] == encode_scalar(c)[0]);
        }
    }
}

/// When the first `k` bytes of a text's UTF-8 form are ASCII, they are its
/// first `k` characters.
proof fn lemma_ascii_byte_prefix(u: Seq<char>, k: nat)
    requires
        encode_utf8(u).len() >= k,
        forall|i: int| 0 <= i < k ==> encode_utf8(u)[i] < 128,
    ensures
        u.len() >= k,
        forall|i: int| 0 <= i < k ==> u[i] as u32 == #[trigger] encode_utf8(u)[i],
    decreases k,
{
    if k > 0 {
        lemma_first_byte_ascii(u);
        let b = encode_utf8(u);
        let rest = u.drop_first();
        assert forall|i: int| 0 <= i < k - 1 implies encode_utf8(rest)[i] < 128 by {
            assert(encode_utf8(rest)[i] == b[i + 1]);
        }
        lemma_ascii_byte_prefix(rest, (k - 1) as nat);
        assert forall|i: int| 0 <= i < k implies u[i] as u32 == #[trigger] b[i] by {
            if i > 0 {
                assert(u[i] == rest[i - 1]);
                assert(b[i] == encode_utf8(rest)[i - 1]);
            }
        }
    }
}

/// Law: a URI that does not begin with `file://` names no path, and the URI
/// made from a path is `file://` followed only by letters, digits, `-_.~/`
/// and `%` escapes.
pub proof fn law_file_uris(uri: Seq<char>, path: Seq<char>)
    ensures
        !"file://"@.is_prefix_of(uri) ==> uri_path(uri) is None,
        "file://"@.is_prefix_of(path_uri(path)),
        forall|i: int| 7 <= i < path_uri(path).len() ==> uri_char(#[trigger] path_uri(path)[i]),
{
    reveal_strlit("file://");
    let r = encode_utf8(uri);
    if r.len() >= 7 && r.take(7) == file_scheme() {
        assert forall|i: int| 0 <= i < 7 implies r[i] < 128 by {
            assert(r[i] == file_scheme()[i]);
        }
        lemma_ascii_byte_prefix(uri, 7);
        assert forall|i: int| 0 <= i < 7 implies uri[i] == "file://"@[i] by {
            assert(r[i] == file_scheme()[i]);
            let f = "file://"@[i];
            assert(f as u32 == r[i]);
            char_u32_cast(uri[i], uri[i] as u32);
            char_u32_cast(f, f as u32);
        }
        assert("file://"@.is_prefix_of(uri));
    }
    let pe = pct_encode(encode_utf8(path));
    let u = path_uri(path);
    assert(u.take(7) =~= "file://"@);
    lemma_pct_encode_chars(encode_utf8(path));
    assert forall|i: int| 7 <= i < u.len() implies uri_char(#[trigger] u[i]) by {
        assert(u[i] == pe[i - 7]);
    }
}

/// Law: the path of the `file://` URI made from a path is that path.
pub proof fn law_uri_of_path_round_trip(path: Seq<char>)
    ensures
        uri_path(path_uri(path)) == Some(path),
{
    let e = encode_utf8(path);
    let pe = pct_encode(e);
    let u = path_uri(path);
    reveal_strlit("file://");
    lemma_pct_encode_ascii(e);
    assert(is_ascii_chars(u)) by {
        assert forall|i: int| 0 <= i < u.len() implies '\0' <= #[trigger] u[i] <= '\u{7f}' by {
            if i >= 7 {
                assert(u[i] == pe[i - 7]);
            }
        }
    }
    is_ascii_chars_encode_utf8(u);
    let r = encode_utf8(u);
    assert(r.take(7) =~= file_scheme());
    assert forall|k: int| 0 <= k < pe.len() implies r[7 + k] == (#[trigger] pe[k]) as u8 by {
        assert(u[7 + k] == pe[k]);
    }
    lemma_pct_decode_encoded(r, 7, Seq::empty(), e);
    assert(Seq::<u8>::empty() + e =~= e);
    encode_utf8_valid_utf8(path);
    encode_utf8_decode_utf8(path);
}

/// A read after an update gives the text written; every other document
/// reads as before, and the definitions of every other document stay as
/// they were.
pub proof fn law_read_after_update(v: IndexView, uri: Seq<char>, text: Seq<char>, other: Seq<char>)
    requires
        distinct_uris(v.texts),
    ensures
        text_in(updated(v, uri, text).texts, uri) == Some(text),
        other != uri ==> text_in(updated(v, uri, text).texts, other) == text_in(v.texts, other),
        updated(v, uri, text).defs.filter(not_of_uri(uri)) == v.defs.filter(not_of_uri(uri)),
{
    lemma_set_text(v.texts, uri, text);
    if other != uri {
        lemma_text_in_other(v.texts, uri, text, other);
    }
    lemma_other_defs_kept(v.defs, uri, text);
}

/// Holds of the definitions of document `uri`.
pub open spec fn of_uri(uri: Seq<char>) -> spec_fn(WorkspaceDefSpec) -> bool {
    |d: WorkspaceDefSpec| d.uri == uri
}

/// The index entries that `text` contributes as document `uri`, in source
/// order (none where `text` does not parse).
pub open spec fn contributed(uri: Seq<char>, text: Seq<char>) -> Seq<WorkspaceDefSpec> {
    match spec_analyze(text) {
        Ok(ds) => Seq::new(ds.len(), |i: int| wdef_of(ds[i], uri)),
        Err(_) => Seq::empty(),
    }
}

proof fn lemma_filter_commute(
    s: Seq<WorkspaceDefSpec>,
    p: spec_fn(WorkspaceDefSpec) -> bool,
    q: spec_fn(WorkspaceDefSpec) -> bool,
)
    ensures
        s.filter(p).filter(q) == s.filter(q).filter(p),
    decreases s.len(),
{
    if s.len() > 0 {
        let d = s.drop_last();
        let x = s.last();
        lemma_filter_commute(d, p, q);
        assert(d.push(x) =~= s);
        d.lemma_filter_push(x, p);
        d.lemma_filter_push(x, q);
        d.filter(p).lemma_filter_push(x, q);
        d.filter(q).lemma_filter_push(x, p);
    } else {
        reveal(Seq::filter);
        assert(s.filter(p) =~= s);
        assert(s.filter(q) =~= s);
    }
}

/// Law: after document `uri` is updated with `text`, the definitions of a
/// name that belong to `uri` are exactly those `text` proves under that name,
/// in source order, and those of every other document are the ones it had.
pub proof fn law_lookup_after_update(v: IndexView, uri: Seq<char>, text: Seq<char>, name: Seq<char>)
    ensures
        updated(v, uri, text).defs.filter(named(name)).filter(of_uri(uri)) == contributed(uri, text).filter(
            named(name),
        ),
        updated(v, uri, text).defs.filter(named(name)).filter(not_of_uri(uri)) == v.defs.filter(
            named(name),
        ).filter(not_of_uri(uri)),
{
    let nu = not_of_uri(uri);
    let ou = of_uri(uri);
    let nm = named(name);
    let kept = v.defs.filter(nu);
    let fresh = contributed(uri, text);
    assert(updated(v, uri, text).defs == kept + fresh);
    Seq::filter_distributes_over_add(kept, fresh, nm);
    Seq::filter_distributes_over_add(kept.filter(nm), fresh.filter(nm), ou);
    Seq::filter_distributes_over_add(kept.filter(nm), fresh.filter(nm), nu);
    lemma_filter_commute(v.defs, nu, nm);
    let kn = kept.filter(nm);
    let fnm = fresh.filter(nm);
    assert forall|i: int| 0 <= i < kept.len() implies nu(#[trigger] kept[i]) by {
        v.defs.lemma_filter_pred(nu, i);
    }
    assert forall|i: int| 0 <= i < kn.len() implies !ou(#[trigger] kn[i]) && nu(kn[i]) by {
        assert(kn.contains(kn[i]));
        kept.lemma_filter_contains_rev(nm, kn[i]);
        let j = choose|j: int| 0 <= j < kept.len() && kept[j] == kn[i];
        assert(nu(kept[j]));
    }
    assert forall|i: int| 0 <= i < fnm.len() implies ou(#[trigger] fnm[i]) && !nu(fnm[i]) by {
        assert(fnm.contains(fnm[i]));
        fresh.lemma_filter_contains_rev(nm, fnm[i]);
        let j = choose|j: int| 0 <= j < fresh.len() && fresh[j] == fnm[i];
        assert(fresh[j].uri == uri);
    }
    lemma_filter_none_pass(kn, ou);
    lemma_filter_all_pass(fnm, ou);
    lemma_filter_all_pass(kn, nu);
    lemma_filter_none_pass(fnm, nu);
    assert(Seq::<WorkspaceDefSpec>::empty() + fnm =~= fnm);
    assert(kn + Seq::<WorkspaceDefSpec>::empty() =~= kn);
    lemma_filter_commute(v.defs, nm, nu);
}

/// Updating a document again with the text it already has changes nothing.
pub proof fn law_update_idempotent(v: IndexView, uri: Seq<char>, text: Seq<char>)
    requires
        distinct_uris(v.texts),
    ensures
        updated(updated(v, uri, text), uri, text) == updated(v, uri, text),
{
    let s = set_text(v.texts, uri, text);
    lemma_set_text(v.texts, uri, text);
    let k0 = choose|k: int| 0 <= k < s.len() && s[k].0 == uri;
    assert(exists|k: int| 0 <= k < s.len() && s[k].0 == uri);
    lemma_text_in(s, k0);
    assert(s[k0] == (uri, text));
    assert(set_text(s, uri, text) =~= s);
    lemma_other_defs_kept(v.defs, uri, text);
}

} // verus!
