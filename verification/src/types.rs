//! Core data model: categories, clipboard payloads, captured contents,
//! whiteboard items and groups.
//!
//! Text is carried as UTF-8 bytes, identifiers as 128-bit integers and
//! timestamps as integer milliseconds; the surrounding application converts
//! to and from its own presentation types at the edge.

use vstd::prelude::*;
use vstd::string::StringSliceAdditionalSpecFns;

use crate::bytescan::{copy_bytes, copy_opt_bytes, eq_ci, eq_ci_exec};

verus! {

/// Classification label attached to every captured clipboard payload.
#[derive(Debug, Clone, Copy, PartialEq, Eq, Structural)]
pub enum Category {
    Text,
    Image,
    Numeric,
    Secure,
    Url,
}

/// Canonical lower-case name of a category.
pub open spec fn category_label(c: Category) -> Seq<u8> {
    match c {
        Category::Text => "text".spec_bytes(),
        Category::Image => "image".spec_bytes(),
        Category::Numeric => "numeric".spec_bytes(),
        Category::Secure => "secure".spec_bytes(),
        Category::Url => "url".spec_bytes(),
    }
}

/// Which category a (case-insensitive) name denotes, if any.
pub open spec fn parse_category_spec(s: Seq<u8>) -> Option<Category> {
    if eq_ci(s, "text".spec_bytes()) {
        Some(Category::Text)
    } else if eq_ci(s, "image".spec_bytes()) {
        Some(Category::Image)
    } else if eq_ci(s, "numeric".spec_bytes()) {
        Some(Category::Numeric)
    } else if eq_ci(s, "secure".spec_bytes()) {
        Some(Category::Secure)
    } else if eq_ci(s, "url".spec_bytes()) {
        Some(Category::Url)
    } else {
        None
    }
}

impl Category {
    /// Lower-case name of this category, for display and storage.
    pub fn label(&self) -> (r: &'static str)
        ensures
            r.spec_bytes() == category_label(*self),
    {
        match self {
            Category::Text => "text",
            Category::Image => "image",
            Category::Numeric => "numeric",
            Category::Secure => "secure",
            Category::Url => "url",
        }
    }

    /// Parse a category from its name, case-insensitively.
    pub fn parse(s: &Vec<u8>) -> (r: Option<Category>)
        ensures
            r == parse_category_spec(s@),
    {
        if eq_ci_exec(s, "text") {
            Some(Category::Text)
        } else if eq_ci_exec(s, "image") {
            Some(Category::Image)
        } else if eq_ci_exec(s, "numeric") {
            Some(Category::Numeric)
        } else if eq_ci_exec(s, "secure") {
            Some(Category::Secure)
        } else if eq_ci_exec(s, "url") {
            Some(Category::Url)
        } else {
            None
        }
    }
}

/// One clipboard payload: either text with a bounded preview, or an image
/// held in its transport encoding together with its pixel dimensions.
#[derive(Debug, PartialEq)]
pub enum ClipboardData {
    Text { text: Vec<u8>, preview: Vec<u8> },
    Image { base64: Vec<u8>, width: u32, height: u32, format: Vec<u8> },
}

/// The bytes that identify a payload for deduplication: the full text for
/// text, the encoded image for images. Metadata takes no part.
pub open spec fn payload_bytes(data: DataView) -> Seq<u8> {
    match data {
        DataView::Text { text, .. } => text,
        DataView::Image { base64, .. } => base64,
    }
}

/// Content fingerprint: a 31-ary polynomial hash of the payload bytes,
/// folded left, modulo 2^64. Identical payload bytes always give identical
/// fingerprints; the converse does not hold of any 64-bit digest.
pub open spec fn fingerprint_of(s: Seq<u8>) -> u64
    decreases s.len(),
{
    if s.len() == 0 {
        0u64
    } else {
        ((fingerprint_of(s.drop_last()) * 31 + s.last()) % 0x1_0000_0000_0000_0000) as u64
    }
}

/// Identical payload bytes give identical fingerprints, whatever the
/// surrounding ids, timestamps or metadata.
pub proof fn lemma_fingerprint_deterministic(x: DataView, y: DataView)
    requires
        payload_bytes(x) == payload_bytes(y),
    ensures
        fingerprint_of(payload_bytes(x)) == fingerprint_of(payload_bytes(y)),
{
}

/// Fingerprint of a byte vector.
pub fn hash_bytes(v: &Vec<u8>) -> (h: u64)
    ensures
        h == fingerprint_of(v@),
{
    let mut h: u64 = 0;
    let mut i: usize = 0;
    while i < v.len()
        invariant
            i <= v.len(),
            h == fingerprint_of(v@.take(i as int)),
        decreases v.len() - i,
    {
        let b = v[i];
        proof {
            assert(v@.take(i + 1).drop_last() =~= v@.take(i as int));
            assert(v@.take(i + 1).last() == v@[i as int]);
        }
        h = h.wrapping_mul(31).wrapping_add(b as u64);
        i += 1;
    }
    proof {
        assert(v@.take(v.len() as int) =~= v@);
    }
    h
}

/// A continuation byte of a multi-byte UTF-8 character.
pub open spec fn is_continuation(b: u8) -> bool {
    0x80 <= b < 0xc0
}

/// The longest prefix of `s` that holds at most `limit` UTF-8 characters
/// (a character is counted at its leading byte).
pub open spec fn take_chars(s: Seq<u8>, limit: nat) -> Seq<u8>
    decreases s.len(),
{
    if s.len() == 0 {
        s
    } else if is_continuation(s[0]) {
        seq![s[0]] + take_chars(s.drop_first(), limit)
    } else if limit == 0 {
        Seq::empty()
    } else {
        seq![s[0]] + take_chars(s.drop_first(), (limit - 1) as nat)
    }
}

/// Prefix of `s` holding at most `limit` UTF-8 characters.
pub fn truncate_chars(s: &Vec<u8>, limit: usize) -> (r: Vec<u8>)
    ensures
        r@ == take_chars(s@, limit as nat),
{
    let mut r: Vec<u8> = Vec::new();
    let mut i: usize = 0;
    let mut budget: usize = limit;
    proof {
        assert(s@.skip(0) =~= s@);
        assert(r@ + take_chars(s@, limit as nat) =~= take_chars(s@, limit as nat));
    }
    while i < s.len()
        invariant
            i <= s.len(),
            take_chars(s@, limit as nat) == r@ + take_chars(s@.skip(i as int), budget as nat),
        decreases s.len() - i,
    {
        let b = s[i];
        proof {
            assert(s@.skip(i as int)[0] == s@[i as int]);
            assert(s@.skip(i as int).drop_first() =~= s@.skip(i + 1));
        }
        if 0x80 <= b && b < 0xc0 {
            r.push(b);
            proof {
                assert(take_chars(s@, limit as nat) =~= r@ + take_chars(
                    s@.skip(i + 1),
                    budget as nat,
                ));
            }
        } else if budget == 0 {
            proof {
                assert(take_chars(s@.skip(i as int), 0nat) =~= Seq::<u8>::empty());
                assert(take_chars(s@, limit as nat) =~= r@);
            }
            return r;
        } else {
            r.push(b);
            budget = budget - 1;
            proof {
                assert(take_chars(s@, limit as nat) =~= r@ + take_chars(
                    s@.skip(i + 1),
                    budget as nat,
                ));
            }
        }
        i += 1;
    }
    proof {
        assert(s@.skip(s.len() as int) =~= Seq::<u8>::empty());
        assert(take_chars(s@, limit as nat) =~= r@);
    }
    r
}

/// Maximum number of characters kept in a text preview.
pub const PREVIEW_MAX_CHARS: usize = 100;

/// Mathematical view of an optional byte string.
pub open spec fn opt_bytes_view(o: Option<Vec<u8>>) -> Option<Seq<u8>> {
    match o {
        Some(v) => Some(v@),
        None => None,
    }
}

/// Mathematical view of a clipboard payload.
pub enum DataView {
    Text { text: Seq<u8>, preview: Seq<u8> },
    Image { base64: Seq<u8>, width: u32, height: u32, format: Seq<u8> },
}

impl View for ClipboardData {
    type V = DataView;

    open spec fn view(&self) -> DataView {
        match self {
            ClipboardData::Text { text, preview } => DataView::Text {
                text: text@,
                preview: preview@,
            },
            ClipboardData::Image { base64, width, height, format } => DataView::Image {
                base64: base64@,
                width: *width,
                height: *height,
                format: format@,
            },
        }
    }
}

impl Clone for ClipboardData {
    fn clone(&self) -> (r: Self)
        ensures
            r@ == self@,
    {
        match self {
            ClipboardData::Text { text, preview } => ClipboardData::Text {
                text: copy_bytes(text),
                preview: copy_bytes(preview),
            },
            ClipboardData::Image { base64, width, height, format } => ClipboardData::Image {
                base64: copy_bytes(base64),
                width: *width,
                height: *height,
                format: copy_bytes(format),
            },
        }
    }
}

/// One captured or created clipboard payload plus classification and
/// metadata. Identity is the id; deduplication goes by the fingerprint of
/// the payload bytes alone.
#[derive(Debug, PartialEq)]
pub struct ClipboardContent {
    pub id: u128,
    pub category: Category,
    pub data: ClipboardData,
    /// Capture time, in milliseconds.
    pub copied_at: i64,
    pub source: Option<Vec<u8>>,
}

/// Mathematical view of a captured content.
pub struct ContentView {
    pub id: u128,
    pub category: Category,
    pub data: DataView,
    pub copied_at: i64,
    pub source: Option<Seq<u8>>,
}

impl View for ClipboardContent {
    type V = ContentView;

    open spec fn view(&self) -> ContentView {
        ContentView {
            id: self.id,
            category: self.category,
            data: self.data@,
            copied_at: self.copied_at,
            source: opt_bytes_view(self.source),
        }
    }
}

/// Fingerprint of a content, as seen through its view.
pub open spec fn content_fingerprint(c: ContentView) -> u64 {
    fingerprint_of(payload_bytes(c.data))
}

impl Clone for ClipboardContent {
    fn clone(&self) -> (r: Self)
        ensures
            r@ == self@,
    {
        ClipboardContent {
            id: self.id,
            category: self.category,
            data: self.data.clone(),
            copied_at: self.copied_at,
            source: copy_opt_bytes(&self.source),
        }
    }
}

impl ClipboardContent {
    /// New text content with the given classification; the preview is the
    /// text truncated to at most `PREVIEW_MAX_CHARS` characters.
    pub fn new_text(text: Vec<u8>, category: Category, id: u128, now: i64) -> (r: Self)
        ensures
            r@ == (ContentView {
                id,
                category,
                data: DataView::Text {
                    text: text@,
                    preview: take_chars(text@, PREVIEW_MAX_CHARS as nat),
                },
                copied_at: now,
                source: None,
            }),
    {
        let preview = truncate_chars(&text, PREVIEW_MAX_CHARS);
        ClipboardContent {
            id,
            category,
            data: ClipboardData::Text { text, preview },
            copied_at: now,
            source: None,
        }
    }

    /// New image content in the canonical transport encoding.
    pub fn new_image(base64: Vec<u8>, width: u32, height: u32, format: Vec<u8>, id: u128, now: i64) -> (r: Self)
        ensures
            r@ == (ContentView {
                id,
                category: Category::Image,
                data: DataView::Image { base64: base64@, width, height, format: format@ },
                copied_at: now,
                source: None,
            }),
    {
        ClipboardContent {
            id,
            category: Category::Image,
            data: ClipboardData::Image { base64, width, height, format },
            copied_at: now,
            source: None,
        }
    }

    /// Fingerprint of this content's payload bytes.
    pub fn content_hash(&self) -> (h: u64)
        ensures
            h == content_fingerprint(self@),
    {
        match &self.data {
            ClipboardData::Text { text, .. } => hash_bytes(text),
            ClipboardData::Image { base64, .. } => hash_bytes(base64),
        }
    }
}

/// A point on the whiteboard plane, in integer units.
#[derive(Debug, Clone, Copy, PartialEq, Eq, Structural)]
pub struct Position {
    pub x: i64,
    pub y: i64,
}

/// Extent of a placed item, in integer units.
#[derive(Debug, Clone, Copy, PartialEq, Eq, Structural)]
pub struct Size {
    pub width: i64,
    pub height: i64,
}

/// Default size given to a newly placed item.
pub const DEFAULT_ITEM_WIDTH: i64 = 120;

pub const DEFAULT_ITEM_HEIGHT: i64 = 60;

/// A content placed on the persistent whiteboard.
#[derive(Debug, PartialEq)]
pub struct WhiteboardItem {
    pub id: u128,
    pub content: ClipboardContent,
    pub position: Position,
    pub size: Size,
    pub parent_group: Option<u128>,
    pub shortcut: Option<Vec<u8>>,
    pub label: Option<Vec<u8>>,
    pub created_at: i64,
    pub updated_at: i64,
}

/// Mathematical view of a whiteboard item.
pub struct ItemView {
    pub id: u128,
    pub content: ContentView,
    pub position: Position,
    pub size: Size,
    pub parent_group: Option<u128>,
    pub shortcut: Option<Seq<u8>>,
    pub label: Option<Seq<u8>>,
    pub created_at: i64,
    pub updated_at: i64,
}

impl View for WhiteboardItem {
    type V = ItemView;

    open spec fn view(&self) -> ItemView {
        ItemView {
            id: self.id,
            content: self.content@,
            position: self.position,
            size: self.size,
            parent_group: self.parent_group,
            shortcut: opt_bytes_view(self.shortcut),
            label: opt_bytes_view(self.label),
            created_at: self.created_at,
            updated_at: self.updated_at,
        }
    }
}

impl Clone for WhiteboardItem {
    fn clone(&self) -> (r: Self)
        ensures
            r@ == self@,
    {
        WhiteboardItem {
            id: self.id,
            content: self.content.clone(),
            position: self.position,
            size: self.size,
            parent_group: self.parent_group,
            shortcut: copy_opt_bytes(&self.shortcut),
            label: copy_opt_bytes(&self.label),
            created_at: self.created_at,
            updated_at: self.updated_at,
        }
    }
}

impl WhiteboardItem {
    /// New item holding `content` at `position`, with the default size and
    /// no parent, shortcut or label.
    pub fn new(content: ClipboardContent, position: Position, id: u128, now: i64) -> (r: Self)
        ensures
            r@ == (ItemView {
                id,
                content: content@,
                position,
                size: Size { width: DEFAULT_ITEM_WIDTH, height: DEFAULT_ITEM_HEIGHT },
                parent_group: None,
                shortcut: None,
                label: None,
                created_at: now,
                updated_at: now,
            }),
    {
        WhiteboardItem {
            id,
            content,
            position,
            size: Size { width: DEFAULT_ITEM_WIDTH, height: DEFAULT_ITEM_HEIGHT },
            parent_group: None,
            shortcut: None,
            label: None,
            created_at: now,
            updated_at: now,
        }
    }
}

/// A named, positionable container for items and nested groups.
#[derive(Debug, PartialEq)]
pub struct Group {
    pub id: u128,
    pub name: Vec<u8>,
    pub position: Position,
    pub collapsed: bool,
    pub parent_group: Option<u128>,
    pub children: Vec<u128>,
    pub shortcut: Option<Vec<u8>>,
    pub color: Option<Vec<u8>>,
    pub created_at: i64,
    pub updated_at: i64,
}

/// Mathematical view of a group.
pub struct GroupView {
    pub id: u128,
    pub name: Seq<u8>,
    pub position: Position,
    pub collapsed: bool,
    pub parent_group: Option<u128>,
    pub children: Seq<u128>,
    pub shortcut: Option<Seq<u8>>,
    pub color: Option<Seq<u8>>,
    pub created_at: i64,
    pub updated_at: i64,
}

impl View for Group {
    type V = GroupView;

    open spec fn view(&self) -> GroupView {
        GroupView {
            id: self.id,
            name: self.name@,
            position: self.position,
            collapsed: self.collapsed,
            parent_group: self.parent_group,
            children: self.children@,
            shortcut: opt_bytes_view(self.shortcut),
            color: opt_bytes_view(self.color),
            created_at: self.created_at,
            updated_at: self.updated_at,
        }
    }
}

impl Clone for Group {
    fn clone(&self) -> (r: Self)
        ensures
            r@ == self@,
    {
        let mut children: Vec<u128> = Vec::new();
        let mut i: usize = 0;
        while i < self.children.len()
            invariant
                i <= self.children.len(),
                children@ == self.children@.subrange(0, i as int),
            decreases self.children.len() - i,
        {
            children.push(self.children[i]);
            assert(children@ =~= self.children@.subrange(0, i + 1));
            i += 1;
        }
        assert(children@ =~= self.children@);
        Group {
            id: self.id,
            name: copy_bytes(&self.name),
            position: self.position,
            collapsed: self.collapsed,
            parent_group: self.parent_group,
            children,
            shortcut: copy_opt_bytes(&self.shortcut),
            color: copy_opt_bytes(&self.color),
            created_at: self.created_at,
            updated_at: self.updated_at,
        }
    }
}

impl Group {
    /// New group with the given name at `position`, not collapsed, with no
    /// parent, children, shortcut or color.
    pub fn new(name: Vec<u8>, position: Position, id: u128, now: i64) -> (r: Self)
        ensures
            r@ == (GroupView {
                id,
                name: name@,
                position,
                collapsed: false,
                parent_group: None,
                children: Seq::<u128>::empty(),
                shortcut: None,
                color: None,
                created_at: now,
                updated_at: now,
            }),
    {
        Group {
            id,
            name,
            position,
            collapsed: false,
            parent_group: None,
            children: Vec::new(),
            shortcut: None,
            color: None,
            created_at: now,
            updated_at: now,
        }
    }
}

/// Snapshot of the whole whiteboard: every item, every group, and the ids
/// of the items that sit at the root (no parent group).
#[derive(Debug)]
pub struct WhiteboardState {
    pub items: Vec<WhiteboardItem>,
    pub groups: Vec<Group>,
    pub root_items: Vec<u128>,
}

/// Mathematical view of a whiteboard snapshot.
pub struct StateView {
    pub items: Seq<ItemView>,
    pub groups: Seq<GroupView>,
    pub root_items: Seq<u128>,
}

/// Views of a sequence of items.
pub open spec fn items_view(v: Seq<WhiteboardItem>) -> Seq<ItemView> {
    v.map_values(|x: WhiteboardItem| x@)
}

/// Views of a sequence of groups.
pub open spec fn groups_view(v: Seq<Group>) -> Seq<GroupView> {
    v.map_values(|x: Group| x@)
}

impl View for WhiteboardState {
    type V = StateView;

    open spec fn view(&self) -> StateView {
        StateView {
            items: items_view(self.items@),
            groups: groups_view(self.groups@),
            root_items: self.root_items@,
        }
    }
}

impl Default for WhiteboardState {
    fn default() -> (r: Self)
        ensures
            r.items@ == Seq::<WhiteboardItem>::empty(),
            r.groups@ == Seq::<Group>::empty(),
            r.root_items@ == Seq::<u128>::empty(),
    {
        WhiteboardState { items: Vec::new(), groups: Vec::new(), root_items: Vec::new() }
    }
}

} // verus!
