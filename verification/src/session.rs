//! The state of an editing session: the document, whether it has unsaved
//! changes, whether the preview is stale, whether quitting was already
//! asked once, and the incremental preview itself. The window around it
//! performs the input and output and reports what happened.

use vstd::prelude::*;
use crate::blocks::blocks_of;
use crate::editor::{quit_step, refresh_due, replace_all, replaced, ReplaceOutcome};
use crate::highlight::Highlighter;
use crate::preview::{cached_block, fresh_block, reuse_count, BlockView, PreviewCache};

verus! {

/// The abstract value of a session.
pub struct SessionView {
    pub source: Seq<char>,
    pub dirty: bool,
    pub need_refresh: bool,
    pub quit_confirm: bool,
    pub last_reuse: nat,
    pub last_render: nat,
    pub blocks: Seq<BlockView>,
}

/// An open document with its preview.
pub struct Session {
    pub source: String,
    pub dirty: bool,
    pub need_refresh: bool,
    pub quit_confirm: bool,
    pub last_reuse: usize,
    pub last_render: usize,
    pub preview: PreviewCache,
}

impl View for Session {
    type V = SessionView;

    open spec fn view(&self) -> SessionView {
        SessionView {
            source: self.source@,
            dirty: self.dirty,
            need_refresh: self.need_refresh,
            quit_confirm: self.quit_confirm,
            last_reuse: self.last_reuse as nat,
            last_render: self.last_render as nat,
            blocks: self.preview.view_blocks(),
        }
    }
}

/// The preview blocks after an update over `md`, given the blocks `old`
/// of the previous one, and the counts of reused and rendered blocks.
pub open spec fn updated(old: Seq<BlockView>, md: Seq<char>, bs: Seq<BlockView>, reused: nat, rendered: nat) -> bool {
    let srcs = blocks_of(md);
    &&& bs.len() == srcs.len()
    &&& forall|i: int| 0 <= i < srcs.len() ==> #[trigger] bs[i] == cached_block(old, srcs[i])
    &&& reused == reuse_count(old, srcs, srcs.len() as int)
    &&& reused + rendered == srcs.len()
}

impl Session {
    /// A session on `source`, saved, with its preview rendered.
    pub fn new(source: String, highlighter: &Highlighter) -> (s: Session)
        ensures
            s@.source == source@,
            !s@.dirty,
            !s@.need_refresh,
            !s@.quit_confirm,
            updated(Seq::empty(), source@, s@.blocks, s@.last_reuse, s@.last_render),
            forall|i: int| 0 <= i < s@.blocks.len() ==> #[trigger] s@.blocks[i] == fresh_block(
                blocks_of(source@)[i],
            ),
    {
        let mut s = Session {
            source,
            dirty: false,
            need_refresh: true,
            quit_confirm: false,
            last_reuse: 0,
            last_render: 0,
            preview: PreviewCache::new(),
        };
        s.refresh(highlighter);
        s
    }

    /// Brings the preview up to date with the document; returns how many
    /// blocks were reused and how many rendered.
    pub fn refresh(&mut self, highlighter: &Highlighter) -> (r: (usize, usize))
        ensures
            updated(old(self)@.blocks, old(self)@.source, final(self)@.blocks, r.0 as nat, r.1 as nat),
            final(self)@ == (SessionView {
                need_refresh: false,
                last_reuse: r.0 as nat,
                last_render: r.1 as nat,
                blocks: final(self)@.blocks,
                ..old(self)@
            }),
    {
        let r = self.preview.update(self.source.as_str(), highlighter);
        self.last_reuse = r.0;
        self.last_render = r.1;
        self.need_refresh = false;
        r
    }

    /// Whether the preview is due for a refresh, the last edit being
    /// `elapsed_nanos` nanoseconds old.
    pub fn refresh_due(&self, elapsed_nanos: u64) -> (r: bool)
        ensures
            r == refresh_due(self@.need_refresh, elapsed_nanos as nat),
    {
        self.need_refresh && elapsed_nanos > 120_000_000
    }

    /// The document was edited in place.
    pub fn mark_edited(&mut self)
        ensures
            final(self)@ == (SessionView {
                dirty: true,
                quit_confirm: false,
                need_refresh: true,
                ..old(self)@
            }),
    {
        self.dirty = true;
        self.quit_confirm = false;
        self.need_refresh = true;
    }

    /// The document was written to its file.
    pub fn mark_saved(&mut self)
        ensures
            final(self)@ == (SessionView { dirty: false, quit_confirm: false, ..old(self)@ }),
    {
        self.dirty = false;
        self.quit_confirm = false;
    }

    /// A file was read into the session.
    pub fn load(&mut self, text: String)
        ensures
            final(self)@ == (SessionView {
                source: text@,
                dirty: false,
                quit_confirm: false,
                need_refresh: true,
                ..old(self)@
            }),
    {
        self.source = text;
        self.dirty = false;
        self.quit_confirm = false;
        self.need_refresh = true;
    }

    /// A request to quit: returns whether the window closes. With unsaved
    /// changes the first request only asks for confirmation.
    pub fn request_quit(&mut self) -> (close: bool)
        ensures
            (close, final(self)@.quit_confirm) == quit_step(old(self)@.dirty, old(self)@.quit_confirm),
            final(self)@ == (SessionView { quit_confirm: final(self)@.quit_confirm, ..old(self)@ }),
    {
        if !self.dirty || self.quit_confirm {
            true
        } else {
            self.quit_confirm = true;
            false
        }
    }

    /// Replaces every case-insensitive occurrence of `query` in the
    /// document by `replacement`. With a query that is not empty the
    /// document becomes the new text (the count may be zero), unsaved,
    /// with a stale preview; with an empty query the session is unchanged.
    pub fn replace_all(&mut self, query: &str, replacement: &str) -> (r: ReplaceOutcome)
        ensures
            match r {
                ReplaceOutcome::NothingToFind => query@.len() == 0 && final(self)@ == old(self)@,
                ReplaceOutcome::Replaced { text, count } => {
                    &&& query@.len() > 0
                    &&& replaced(old(self)@.source, query@, replacement@) == (text@, count as nat)
                    &&& final(self)@ == (SessionView {
                        source: text@,
                        dirty: true,
                        need_refresh: true,
                        ..old(self)@
                    })
                },
            },
    {
        let r = replace_all(self.source.as_str(), query, replacement);
        match &r {
            ReplaceOutcome::Replaced { text, count: _ } => {
                self.source = text.clone();
                self.dirty = true;
                self.need_refresh = true;
            },
            _ => {},
        }
        r
    }
}

/// Quitting with unsaved changes takes two requests in a row, and a
/// document without unsaved changes closes on the first request.
pub proof fn quit_needs_confirmation(dirty: bool, confirmed: bool)
    ensures
        !dirty ==> quit_step(dirty, confirmed).0,
        dirty && !confirmed ==> !quit_step(dirty, confirmed).0 && quit_step(
            dirty,
            quit_step(dirty, confirmed).1,
        ).0,
{
}

} // verus!
