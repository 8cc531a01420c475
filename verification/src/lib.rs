//! Verified core of the my-lisp language tooling: the reader, exact
//! rationals, the JSON codec, the semantic registries and the IR that
//! lowers programs with provenance, diagnostics and their presentation,
//! SHA-256, and the language server's document analysis, workspace index
//! and message handling.
use vstd::prelude::*;

pub mod analysis;
pub mod bignum;
pub mod atoms;
pub mod canon;
pub mod capabilities;
pub mod digest;
pub mod error;
pub mod guard_knowledge;
pub mod ir;
pub mod json;
pub mod jsonout;
pub mod lambda_list;
pub mod language_items;
pub mod layout;
pub mod limits;
pub mod lexical;
pub mod necessary_forms;
pub mod ntp;
pub mod numeral;
pub mod presentation;
pub mod protocol;
pub mod rational;
pub mod reader;
pub mod server;
pub mod status_registry;
pub mod surface_registry;
pub mod syntax;
pub mod text;
pub mod textops;
pub mod transport;
pub mod value;
pub mod workspace;

verus! {

/// What feeding raw messages in order does: the server's state after them
/// and every outgoing message; the `exit` notification is skipped.
pub open spec fn feed_spec(st: server::ServerView, msgs: Seq<Seq<char>>) -> (server::ServerView, Seq<Seq<char>>)
    decreases msgs.len(),
{
    if msgs.len() == 0 {
        (st, Seq::empty())
    } else {
        let (s1, out1) = feed_spec(st, msgs.drop_last());
        if server::wants_exit_spec(msgs.last()) {
            (s1, out1)
        } else {
            let (s2, out2) = server::handle_spec(s1, msgs.last());
            (s2, out1 + out2)
        }
    }
}

/// A server driven by raw JSON-RPC texts, collecting every outgoing message.
pub struct Harness {
    inner: server::Server,
}

impl Harness {
    pub closed spec fn view(&self) -> server::ServerView {
        self.inner@
    }

    pub closed spec fn wf(&self) -> bool {
        self.inner.wf()
    }

    /// A harness around a fresh server.
    pub fn new() -> (r: Harness)
        ensures
            r.wf(),
            r@.documents.len() == 0,
            r@.index.texts.len() == 0,
            r@.index.defs.len() == 0,
            r@.index.root is None,
            r@.pending_root is None,
    {
        Harness { inner: server::Server::new() }
    }

    /// Processes `messages` in order and returns every outgoing message.
    pub fn feed(&mut self, messages: &[String]) -> (r: Vec<String>)
        requires
            old(self).wf(),
        ensures
            final(self).wf(),
            (final(self)@, protocol::texts_of(r@)) == feed_spec(old(self)@, protocol::texts_of(messages@)),
    {
        let mut out: Vec<String> = Vec::new();
        let mut i: usize = 0;
        proof {
            assert(protocol::texts_of(messages@).take(0) =~= Seq::<Seq<char>>::empty());
            assert(protocol::texts_of(out@) =~= Seq::<Seq<char>>::empty());
        }
        while i < messages.len()
            invariant
                i <= messages@.len(),
                self.wf(),
                (self@, protocol::texts_of(out@)) == feed_spec(
                    old(self)@,
                    protocol::texts_of(messages@).take(i as int),
                ),
            decreases messages.len() - i,
        {
            let ghost ms = protocol::texts_of(messages@);
            proof {
                assert(ms.take(i + 1).drop_last() =~= ms.take(i as int));
                assert(ms.take(i + 1).last() == messages@[i as int]@);
            }
            if !server::Server::wants_exit(messages[i].as_str()) {
                let replies = self.inner.handle_message(messages[i].as_str());
                let ghost before = protocol::texts_of(out@);
                let mut k: usize = 0;
                while k < replies.len()
                    invariant
                        k <= replies@.len(),
                        protocol::texts_of(out@) == before + protocol::texts_of(replies@).take(k as int),
                    decreases replies.len() - k,
                {
                    let ghost op = out@;
                    out.push(crate::text::copy_string(&replies[k]));
                    proof {
                        assert(protocol::texts_of(out@) =~= protocol::texts_of(op).push(replies@[k as int]@));
                        assert(protocol::texts_of(replies@).take(k + 1) =~= protocol::texts_of(replies@).take(k as int).push(replies@[k as int]@));
                    }
                    k += 1;
                }
                proof {
                    assert(protocol::texts_of(replies@).take(replies@.len() as int) =~= protocol::texts_of(replies@));
                }
            }
            i += 1;
        }
        proof {
            assert(protocol::texts_of(messages@).take(messages@.len() as int) =~= protocol::texts_of(messages@));
        }
        out
    }

    /// The workspace root an `initialize` asked for, not yet scanned.
    pub fn take_root_request(&mut self) -> (r: Option<String>)
        requires
            old(self).wf(),
        ensures
            final(self).wf(),
            match r {
                Some(p) => old(self)@.pending_root == Some(p@),
                None => old(self)@.pending_root is None,
            },
            final(self)@ == (server::ServerView { pending_root: None, ..old(self)@ }),
    {
        self.inner.take_root_request()
    }

    /// Replaces the workspace index by the scan of `root`.
    pub fn index_root(&mut self, root: String, files: &Vec<(String, String)>)
        requires
            old(self).wf(),
            forall|k: int|
                0 <= k < files@.len() ==> text::utf8_len(#[trigger] files@[k].1@) <= workspace::SCAN_MAX_BYTES,
        ensures
            final(self).wf(),
            final(self)@.documents == old(self)@.documents,
            final(self)@.index.root == Some(root@),
            final(self)@.index.texts == workspace::indexed(workspace::pairs_view(files@)).texts,
            final(self)@.index.defs == workspace::indexed(workspace::pairs_view(files@)).defs,
    {
        self.inner.index_root(root, files)
    }
}

/// Feeding two batches one after the other is feeding their concatenation:
/// the second starts from the state the first left, and the replies follow
/// one another.
pub proof fn law_feed_concat(st: server::ServerView, a: Seq<Seq<char>>, b: Seq<Seq<char>>)
    ensures
        feed_spec(st, a + b) == (
            feed_spec(feed_spec(st, a).0, b).0,
            feed_spec(st, a).1 + feed_spec(feed_spec(st, a).0, b).1,
        ),
    decreases b.len(),
{
    if b.len() == 0 {
        assert(a + b =~= a);
        assert(feed_spec(st, a).1 + Seq::<Seq<char>>::empty() =~= feed_spec(st, a).1);
    } else {
        law_feed_concat(st, a, b.drop_last());
        assert((a + b).drop_last() =~= a + b.drop_last());
        assert((a + b).last() == b.last());
        let mid = feed_spec(st, a);
        let (s1, o1) = feed_spec(mid.0, b.drop_last());
        if !server::wants_exit_spec(b.last()) {
            let (s2, o2) = server::handle_spec(s1, b.last());
            assert(mid.1 + o1 + o2 =~= mid.1 + (o1 + o2));
        }
    }
}

} // verus!
