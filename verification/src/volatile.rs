//! Volatile history: a bounded, insertion-ordered cache of recent clipboard
//! contents, most recent first.
//!
//! Adding deduplicates against the most recent entry only, by payload
//! fingerprint; at capacity the oldest entry is evicted first. All query
//! results are copies.

use vstd::prelude::*;

use crate::types::{Category, ClipboardContent, ContentView, content_fingerprint};

verus! {

broadcast use vstd::prelude::Seq::lemma_push_map_commute;

/// Capacity of the volatile history.
pub const MAX_HISTORY_SIZE: usize = 100;

/// Views of a sequence of contents.
pub open spec fn contents_view(v: Seq<ClipboardContent>) -> Seq<ContentView> {
    v.map_values(|c: ClipboardContent| c@)
}

/// The entries of `s` with the given category, in order.
pub open spec fn filter_category(s: Seq<ContentView>, category: Category) -> Seq<ContentView> {
    s.filter(|c: ContentView| c.category == category)
}

/// Bounded most-recent-first cache of captured contents.
pub struct VolatileStorage {
    history: Vec<ClipboardContent>,
}

impl View for VolatileStorage {
    type V = Seq<ContentView>;

    closed spec fn view(&self) -> Seq<ContentView> {
        contents_view(self.history@)
    }
}

/// What one `add` does to the history: nothing if the newest entry has the
/// same fingerprint; otherwise the content goes to the front, evicting the
/// oldest entry when the cache is full.
pub open spec fn add_model(h: Seq<ContentView>, c: ContentView) -> Seq<ContentView> {
    if h.len() > 0 && content_fingerprint(h[0]) == content_fingerprint(c) {
        h
    } else if h.len() >= MAX_HISTORY_SIZE {
        seq![c] + h.drop_last()
    } else {
        seq![c] + h
    }
}

impl VolatileStorage {
    /// The history never exceeds its capacity.
    pub open spec fn wf(&self) -> bool {
        self@.len() <= MAX_HISTORY_SIZE
    }

    /// Empty history.
    pub fn new() -> (r: Self)
        ensures
            r@ == Seq::<ContentView>::empty(),
            r.wf(),
    {
        let r = VolatileStorage { history: Vec::new() };
        proof {
            assert(r@ =~= Seq::<ContentView>::empty());
        }
        r
    }

    /// Add a content to the front, unless the most recent entry already has
    /// its fingerprint; evict the oldest entry when full.
    pub fn add(&mut self, content: ClipboardContent)
        requires
            old(self).wf(),
        ensures
            final(self)@ == add_model(old(self)@, content@),
            final(self).wf(),
    {
        if self.history.len() > 0 {
            let front_hash = self.history[0].content_hash();
            if front_hash == content.content_hash() {
                return;
            }
        }
        if self.history.len() >= MAX_HISTORY_SIZE {
            self.history.pop();
        }
        self.history.insert(0, content);
        proof {
            assert(final(self)@ =~= add_model(old(self)@, content@));
        }
    }

    /// Copies of all entries, most recent first.
    pub fn get_all(&self) -> (r: Vec<ClipboardContent>)
        ensures
            contents_view(r@) == self@,
    {
        let mut r: Vec<ClipboardContent> = Vec::new();
        let mut i: usize = 0;
        while i < self.history.len()
            invariant
                i <= self.history@.len(),
                contents_view(r@) == self@.subrange(0, i as int),
            decreases self.history@.len() - i,
        {
            let c = self.history[i].clone();
            proof {
                assert(c@ == self@[i as int]);
            }
            r.push(c);
            assert(contents_view(r@) =~= self@.subrange(0, i + 1));
            i += 1;
        }
        assert(self@.subrange(0, self@.len() as int) =~= self@);
        r
    }

    /// Copies of the entries with the given category, most recent first.
    pub fn get_by_category(&self, category: Category) -> (r: Vec<ClipboardContent>)
        ensures
            contents_view(r@) == filter_category(self@, category),
    {
        let mut r: Vec<ClipboardContent> = Vec::new();
        let mut i: usize = 0;
        proof {
            reveal(Seq::filter);
            assert(self@.subrange(0, 0) =~= Seq::<ContentView>::empty());
            assert(contents_view(r@) =~= filter_category(self@.subrange(0, 0), category));
        }
        while i < self.history.len()
            invariant
                i <= self.history@.len(),
                contents_view(r@) == filter_category(self@.subrange(0, i as int), category),
            decreases self.history@.len() - i,
        {
            proof {
                reveal(Seq::filter);
                assert(self@.subrange(0, i + 1).drop_last() =~= self@.subrange(0, i as int));
                assert(self@.subrange(0, i + 1).last() == self@[i as int]);
            }
            let c = self.history[i].clone();
            proof {
                assert(c@ == self@[i as int]);
            }
            if category_eq(c.category, category) {
                r.push(c);
                assert(contents_view(r@) =~= filter_category(
                    self@.subrange(0, i as int),
                    category,
                ).push(self@[i as int]));
                assert(contents_view(r@) =~= filter_category(self@.subrange(0, i + 1), category));
            } else {
                assert(contents_view(r@) =~= filter_category(self@.subrange(0, i + 1), category));
            }
            i += 1;
        }
        assert(self@.subrange(0, self@.len() as int) =~= self@);
        r
    }

    /// Copies of the `count` most recent entries (all of them when fewer).
    pub fn get_recent(&self, count: usize) -> (r: Vec<ClipboardContent>)
        ensures
            contents_view(r@) == self@.take(
                if count <= self@.len() {
                    count as int
                } else {
                    self@.len() as int
                },
            ),
    {
        let n = if count <= self.history.len() {
            count
        } else {
            self.history.len()
        };
        let mut r: Vec<ClipboardContent> = Vec::new();
        let mut i: usize = 0;
        while i < n
            invariant
                i <= n,
                n <= self.history@.len(),
                n == if count <= self@.len() {
                    count as int
                } else {
                    self@.len() as int
                },
                contents_view(r@) == self@.subrange(0, i as int),
            decreases n - i,
        {
            let c = self.history[i].clone();
            proof {
                assert(c@ == self@[i as int]);
            }
            r.push(c);
            assert(contents_view(r@) =~= self@.subrange(0, i + 1));
            i += 1;
        }
        assert(self@.subrange(0, n as int) =~= self@.take(n as int));
        r
    }

    /// Copy of the entry at `index`, most recent first, if it exists.
    pub fn get_by_index(&self, index: usize) -> (r: Option<ClipboardContent>)
        ensures
            match r {
                Some(c) => index < self@.len() && c@ == self@[index as int],
                None => index >= self@.len(),
            },
    {
        if index < self.history.len() {
            Some(self.history[index].clone())
        } else {
            None
        }
    }

    /// Drop every entry.
    pub fn clear(&mut self)
        ensures
            final(self)@ == Seq::<ContentView>::empty(),
            final(self).wf(),
    {
        self.history.clear();
        proof {
            assert(final(self)@ =~= Seq::<ContentView>::empty());
        }
    }
}

impl Default for VolatileStorage {
    fn default() -> (r: Self)
        ensures
            r@ == Seq::<ContentView>::empty(),
            r.wf(),
    {
        Self::new()
    }
}

/// Category equality, decided by variant.
fn category_eq(a: Category, b: Category) -> (r: bool)
    ensures
        r == (a == b),
{
    match (a, b) {
        (Category::Text, Category::Text) => true,
        (Category::Image, Category::Image) => true,
        (Category::Numeric, Category::Numeric) => true,
        (Category::Secure, Category::Secure) => true,
        (Category::Url, Category::Url) => true,
        _ => false,
    }
}

/// Adding the same fingerprint twice in a row leaves the history exactly
/// as after the first add: the second add is a no-op, so the length is
/// unchanged.
pub proof fn lemma_add_duplicate_noop(h: Seq<ContentView>, c1: ContentView, c2: ContentView)
    requires
        content_fingerprint(c1) == content_fingerprint(c2),
    ensures
        add_model(add_model(h, c1), c2) == add_model(h, c1),
        add_model(add_model(h, c1), c2).len() == add_model(h, c1).len(),
{
    let h1 = add_model(h, c1);
    assert(h1.len() > 0);
    assert(content_fingerprint(h1[0]) == content_fingerprint(c1));
}

/// The history never grows past its capacity, and a distinct new entry
/// arriving at capacity evicts exactly the oldest entry.
pub proof fn lemma_add_bounded(h: Seq<ContentView>, c: ContentView)
    requires
        h.len() <= MAX_HISTORY_SIZE,
    ensures
        add_model(h, c).len() <= MAX_HISTORY_SIZE,
        (h.len() == MAX_HISTORY_SIZE && (h.len() == 0 || content_fingerprint(h[0])
            != content_fingerprint(c))) ==> add_model(h, c) == seq![c] + h.drop_last(),
{
}

} // verus!
