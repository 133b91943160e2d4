//! Clipboard monitor: the decision core of the polling loop.
//!
//! Each tick the application reads the clipboard (text first, else image)
//! and hands the reading in; the monitor classifies and fingerprints it,
//! suppresses repeats of the last-seen fingerprint and one echo of a
//! fingerprint the application itself just wrote, and otherwise yields the
//! content to emit. A fingerprint value of zero stands for "none" in both
//! state slots.

use vstd::prelude::*;
use vstd::string::StringSliceAdditionalSpecFns;

use crate::categorizer::{categorize_text_spec, Categorizer};
use crate::codec::{encode, encode_spec};
use crate::encoding::{b64_encode, b64_of};
use crate::types::{
    take_chars, Category, ClipboardContent, ContentView, DataView, content_fingerprint,
    PREVIEW_MAX_CHARS,
};

verus! {

/// The monitor's two state slots: the fingerprint of the last content it
/// saw, and the one-shot fingerprint of content the application itself
/// wrote to the clipboard. Zero means "none".
#[derive(Debug, Clone, Copy, PartialEq, Eq, Structural)]
pub struct MonitorState {
    pub last_seen_hash: u64,
    pub self_copied_hash: u64,
}

impl MonitorState {
    /// Fresh monitor state: nothing seen, nothing self-copied.
    pub fn new() -> (r: Self)
        ensures
            r == (MonitorState { last_seen_hash: 0, self_copied_hash: 0 }),
    {
        MonitorState { last_seen_hash: 0, self_copied_hash: 0 }
    }
}

/// Mark a fingerprint as self-copied: the next observation of it will be
/// discarded instead of emitted. One-shot; overwrites any earlier mark.
pub fn mark_as_self_copied(state: &mut MonitorState, hash: u64)
    ensures
        final(state).self_copied_hash == hash,
        final(state).last_seen_hash == old(state).last_seen_hash,
{
    state.self_copied_hash = hash;
}

/// What one tick read from the clipboard.
pub enum ClipboardReading {
    /// A successful, non-empty text read.
    TextRead { text: Vec<u8> },
    /// A successful image read: raw RGBA pixels and dimensions.
    ImageRead { rgba: Vec<u8>, width: u32, height: u32 },
    /// Neither read succeeded.
    NoRead,
}

/// Mathematical view of a reading.
pub enum ReadingView {
    TextRead { text: Seq<u8> },
    ImageRead { rgba: Seq<u8>, width: u32, height: u32 },
    NoRead,
}

impl View for ClipboardReading {
    type V = ReadingView;

    open spec fn view(&self) -> ReadingView {
        match self {
            ClipboardReading::TextRead { text } => ReadingView::TextRead { text: text@ },
            ClipboardReading::ImageRead { rgba, width, height } => ReadingView::ImageRead {
                rgba: rgba@,
                width: *width,
                height: *height,
            },
            ClipboardReading::NoRead => ReadingView::NoRead,
        }
    }
}

/// The deduplication step shared by both reading kinds. A fingerprint
/// equal to the last seen one changes nothing and emits nothing. A new
/// fingerprint becomes the last seen one; if it equals the self-copied
/// tag the tag is cleared and the content is discarded, else the content
/// is emitted.
pub open spec fn dedup_step(st: MonitorState, c: ContentView) -> (MonitorState, Option<
    ContentView,
>) {
    let h = content_fingerprint(c);
    if h == st.last_seen_hash {
        (st, None)
    } else if h == st.self_copied_hash {
        (MonitorState { last_seen_hash: h, self_copied_hash: 0 }, None)
    } else {
        (MonitorState { last_seen_hash: h, self_copied_hash: st.self_copied_hash }, Some(c))
    }
}

/// The content a non-empty text reading turns into.
pub open spec fn text_content(text: Seq<u8>, id: u128, now: i64) -> ContentView {
    ContentView {
        id,
        category: categorize_text_spec(text),
        data: DataView::Text { text, preview: take_chars(text, PREVIEW_MAX_CHARS as nat) },
        copied_at: now,
        source: None,
    }
}

/// The content an image reading turns into: the pixels in the canonical
/// container, base64-encoded.
pub open spec fn image_content(rgba: Seq<u8>, width: u32, height: u32, id: u128, now: i64)
    -> ContentView {
    ContentView {
        id,
        category: Category::Image,
        data: DataView::Image {
            base64: b64_of(encode_spec(rgba, width, height)),
            width,
            height,
            format: "clip".spec_bytes(),
        },
        copied_at: now,
        source: None,
    }
}

/// An image reading the monitor can process: the buffer agrees with the
/// dimensions and the canonical container is small enough to encode.
pub open spec fn image_ok(rgba: Seq<u8>, width: u32, height: u32) -> bool {
    rgba.len() == width * height * 4 && rgba.len() + 12 <= usize::MAX / 4 * 3
}

/// What one tick does: the new state, and the content to emit if any.
/// Empty text, a malformed image and a failed read all leave the state
/// unchanged and emit nothing.
pub open spec fn tick_spec(st: MonitorState, r: ReadingView, id: u128, now: i64) -> (MonitorState,
    Option<ContentView>,
) {
    match r {
        ReadingView::NoRead => (st, None),
        ReadingView::TextRead { text } => if text.len() == 0 {
            (st, None)
        } else {
            dedup_step(st, text_content(text, id, now))
        },
        ReadingView::ImageRead { rgba, width, height } => if image_ok(rgba, width, height) {
            dedup_step(st, image_content(rgba, width, height, id, now))
        } else {
            (st, None)
        },
    }
}

/// Process one tick's reading: classify, fingerprint, deduplicate,
/// suppress a self-copy echo once, and return the content to emit.
pub fn process_tick(state: &mut MonitorState, reading: ClipboardReading, id: u128, now: i64) -> (r:
    Option<ClipboardContent>)
    ensures
        ({
            let (st2, out) = tick_spec(*old(state), reading@, id, now);
            *final(state) == st2 && (match r {
                Some(c) => out == Some(c@),
                None => out is None,
            })
        }),
{
    match reading {
        ClipboardReading::NoRead => None,
        ClipboardReading::TextRead { text } => text_tick(state, text, id, now),
        ClipboardReading::ImageRead { rgba, width, height } => image_tick(
            state,
            rgba,
            width,
            height,
            id,
            now,
        ),
    }
}

/// The text half of a tick.
fn text_tick(state: &mut MonitorState, text: Vec<u8>, id: u128, now: i64) -> (r: Option<
    ClipboardContent,
>)
    ensures
        ({
            let (st2, out) = tick_spec(
                *old(state),
                ReadingView::TextRead { text: text@ },
                id,
                now,
            );
            *final(state) == st2 && (match r {
                Some(c) => out == Some(c@),
                None => out is None,
            })
        }),
{
    if text.len() == 0 {
        return None;
    }
    let ghost t = text@;
    let category = Categorizer::categorize_text(&text);
    let content = ClipboardContent::new_text(text, category, id, now);
    proof {
        assert(content@ == text_content(t, id, now));
    }
    dedup_exec(state, content)
}

/// The image half of a tick.
fn image_tick(
    state: &mut MonitorState,
    rgba: Vec<u8>,
    width: u32,
    height: u32,
    id: u128,
    now: i64,
) -> (r: Option<ClipboardContent>)
    ensures
        ({
            let (st2, out) = tick_spec(
                *old(state),
                ReadingView::ImageRead { rgba: rgba@, width, height },
                id,
                now,
            );
            *final(state) == st2 && (match r {
                Some(c) => out == Some(c@),
                None => out is None,
            })
        }),
{
    let canonical = match encode(&rgba, width, height) {
        Ok(v) => v,
        Err(_) => {
            assert(!image_ok(rgba@, width, height));
            return None;
        },
    };
    proof {
        vstd::bytes::lemma_auto_spec_u32_to_from_le_bytes();
        assert(canonical@.len() == rgba@.len() + 12);
    }
    if canonical.len() > usize::MAX / 4 * 3 {
        assert(!image_ok(rgba@, width, height));
        return None;
    }
    assert(image_ok(rgba@, width, height));
    let b64 = b64_encode(&canonical);
    let format = vstd::slice::slice_to_vec("clip".as_bytes());
    let content = ClipboardContent::new_image(b64, width, height, format, id, now);
    proof {
        assert(content@ == image_content(rgba@, width, height, id, now));
    }
    dedup_exec(state, content)
}

/// Run the deduplication step on a concrete content.
fn dedup_exec(state: &mut MonitorState, content: ClipboardContent) -> (r: Option<ClipboardContent>)
    ensures
        ({
            let (st2, out) = dedup_step(*old(state), content@);
            *final(state) == st2 && (match r {
                Some(c) => out == Some(c@),
                None => out is None,
            })
        }),
{
    let h = content.content_hash();
    if h == state.last_seen_hash {
        return None;
    }
    state.last_seen_hash = h;
    if h == state.self_copied_hash {
        state.self_copied_hash = 0;
        return None;
    }
    Some(content)
}

/// Self-copy suppression suppresses exactly once: after marking a
/// fingerprint, the next observation of it is discarded and the mark is
/// cleared in the same step.
pub proof fn lemma_self_copy_suppressed(st: MonitorState, c: ContentView)
    requires
        st.self_copied_hash == content_fingerprint(c),
        content_fingerprint(c) != st.last_seen_hash,
    ensures
        dedup_step(st, c) == (
            MonitorState { last_seen_hash: content_fingerprint(c), self_copied_hash: 0 },
            None::<ContentView>,
        ),
{
}

/// With the tag cleared, a later occurrence of the same fingerprint does
/// emit, provided it is not also the fingerprint seen last (which plain
/// deduplication would drop) and is not the reserved zero value.
pub proof fn lemma_self_copy_emits_later(st: MonitorState, c: ContentView)
    requires
        st.self_copied_hash == 0,
        content_fingerprint(c) != st.last_seen_hash,
        content_fingerprint(c) != 0,
    ensures
        dedup_step(st, c).1 == Some(c),
{
}

} // verus!
