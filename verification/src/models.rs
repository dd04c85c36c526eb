//! The typed records that the parsers produce, their mathematical views,
//! and the TTL-gated cache of listing and discussion snapshots.

use vstd::prelude::*;

verus! {

/// One ranked item of a listing page.
#[derive(Clone, Debug)]
pub struct HackerNewsItem {
    pub id: String,
    pub title: String,
    pub url: String,
    pub domain: String,
    pub by: String,
    pub score: i32,
    pub time_ago: String,
    pub comments_count: i32,
    /// 0-based rank of the item within the fetched page.
    pub original_index: usize,
}

/// Mathematical view of a listing item.
pub ghost struct ItemV {
    pub id: Seq<char>,
    pub title: Seq<char>,
    pub url: Seq<char>,
    pub domain: Seq<char>,
    pub by: Seq<char>,
    pub score: int,
    pub time_ago: Seq<char>,
    pub comments_count: int,
    pub original_index: int,
}

impl View for HackerNewsItem {
    type V = ItemV;

    open spec fn view(&self) -> ItemV {
        ItemV {
            id: self.id@,
            title: self.title@,
            url: self.url@,
            domain: self.domain@,
            by: self.by@,
            score: self.score as int,
            time_ago: self.time_ago@,
            comments_count: self.comments_count as int,
            original_index: self.original_index as int,
        }
    }
}

/// One node of a discussion thread; `children` are the direct replies,
/// in document order.
pub struct HackerNewsComment {
    pub id: String,
    pub by: String,
    /// Raw inner markup of the comment body, left uncleaned.
    pub text: String,
    pub time_ago: String,
    /// Nesting depth as declared by the source markup.
    pub level: i32,
    pub children: Vec<HackerNewsComment>,
}

/// Mathematical view of a discussion node, with the whole subtree.
#[verifier::ext_equal]
pub ghost struct NodeV {
    pub id: Seq<char>,
    pub by: Seq<char>,
    pub text: Seq<char>,
    pub time_ago: Seq<char>,
    pub level: int,
    pub children: Seq<NodeV>,
}

/// View of a sequence of comments, subtrees included.
pub open spec fn nodes_view(cs: Seq<HackerNewsComment>) -> Seq<NodeV>
    decreases cs,
{
    if cs.len() == 0 {
        Seq::empty()
    } else {
        seq![node_view_of(cs[0])] + nodes_view(cs.drop_first())
    }
}

/// View of one comment, its subtree included.
pub open spec fn node_view_of(c: HackerNewsComment) -> NodeV
    decreases c,
{
    NodeV {
        id: c.id@,
        by: c.by@,
        text: c.text@,
        time_ago: c.time_ago@,
        level: c.level as int,
        children: nodes_view(c.children@),
    }
}

impl View for HackerNewsComment {
    type V = NodeV;

    open spec fn view(&self) -> NodeV {
        node_view_of(*self)
    }
}

/// `nodes_view` maps the view of each element, index by index.
pub proof fn lemma_nodes_view_index(cs: Seq<HackerNewsComment>)
    ensures
        nodes_view(cs).len() == cs.len(),
        forall|i: int| 0 <= i < cs.len() ==> nodes_view(cs)[i] == node_view_of(#[trigger] cs[i]),
    decreases cs.len(),
{
    if cs.len() > 0 {
        lemma_nodes_view_index(cs.drop_first());
        assert forall|i: int| 0 <= i < cs.len() implies nodes_view(cs)[i] == node_view_of(
            #[trigger] cs[i],
        ) by {
            if i > 0 {
                assert(cs.drop_first()[i - 1] == cs[i]);
                assert(nodes_view(cs)[i] == nodes_view(cs.drop_first())[i - 1]);
            }
        }
    }
}

/// A fresh copy of a discussion node, its subtree included; the copy has
/// the same view.
pub fn clone_comment(c: &HackerNewsComment) -> (r: HackerNewsComment)
    ensures
        node_view_of(r) == node_view_of(*c),
    decreases *c,
{
    let n = c.children.len();
    let mut kids: Vec<HackerNewsComment> = Vec::new();
    let mut j: usize = 0;
    while j < n
        invariant
            j <= n,
            n == c.children@.len(),
            kids@.len() == j,
            forall|k: int|
                0 <= k < j ==> node_view_of(#[trigger] kids@[k]) == node_view_of(c.children@[k]),
        decreases n - j,
    {
        let child = clone_comment(&c.children[j]);
        kids.push(child);
        j = j + 1;
    }
    let r = HackerNewsComment {
        id: c.id.clone(),
        by: c.by.clone(),
        text: c.text.clone(),
        time_ago: c.time_ago.clone(),
        level: c.level,
        children: kids,
    };
    proof {
        lemma_nodes_view_index(r.children@);
        lemma_nodes_view_index(c.children@);
        assert forall|k: int| 0 <= k < n implies nodes_view(r.children@)[k] == nodes_view(
            c.children@,
        )[k] by {
            assert(node_view_of(r.children@[k]) == node_view_of(c.children@[k]));
        }
        assert(nodes_view(r.children@) =~= nodes_view(c.children@));
        assert(node_view_of(r) =~= node_view_of(*c));
    }
    r
}

/// A fresh copy of a comment forest, with the same view.
pub fn clone_comments(v: &Vec<HackerNewsComment>) -> (r: Vec<HackerNewsComment>)
    ensures
        nodes_view(r@) == nodes_view(v@),
{
    let n = v.len();
    let mut out: Vec<HackerNewsComment> = Vec::new();
    let mut j: usize = 0;
    while j < n
        invariant
            j <= n,
            n == v@.len(),
            out@.len() == j,
            forall|k: int|
                0 <= k < j ==> node_view_of(#[trigger] out@[k]) == node_view_of(v@[k]),
        decreases n - j,
    {
        let c = clone_comment(&v[j]);
        out.push(c);
        j = j + 1;
    }
    proof {
        lemma_nodes_view_index(out@);
        lemma_nodes_view_index(v@);
        assert forall|k: int| 0 <= k < n implies nodes_view(out@)[k] == nodes_view(v@)[k] by {
            assert(node_view_of(out@[k]) == node_view_of(v@[k]));
        }
        assert(nodes_view(out@) =~= nodes_view(v@));
    }
    out
}

/// TTL-gated store of the latest listing snapshot and per-thread comment
/// snapshots. Time enters as a plain seconds count supplied by the caller,
/// so that validity is a pure function of the cache and the clock reading.
///
/// Thread snapshots are an association list keyed by story id; lookups take
/// the first entry with the key, so the list behaves as a map.
pub struct StoriesCache {
    pub stories: Vec<HackerNewsItem>,
    /// Clock reading at the moment `stories` was written.
    pub timestamp: u64,
    pub comments_cache: Vec<(String, Vec<HackerNewsComment>, u64)>,
}

/// The comment snapshot stored for `id`, with its timestamp: the first
/// entry of the list whose key is `id`, if any.
pub open spec fn cache_entry(
    cc: Seq<(String, Vec<HackerNewsComment>, u64)>,
    id: Seq<char>,
) -> Option<(Seq<NodeV>, int)>
    decreases cc.len(),
{
    if cc.len() == 0 {
        None
    } else if cc[0].0@ == id {
        Some((nodes_view(cc[0].1@), cc[0].2 as int))
    } else {
        cache_entry(cc.drop_first(), id)
    }
}

/// A listing snapshot is valid at clock reading `now` while it exists and
/// its age is under `ttl_secs`.
pub open spec fn stories_valid(c: StoriesCache, now: int, ttl_secs: int) -> bool {
    c.stories@.len() > 0 && c.timestamp <= now && now - c.timestamp < ttl_secs
}

/// A thread snapshot for `id` is valid at `now` while one exists and its
/// age is under `ttl_secs`.
pub open spec fn comments_valid(c: StoriesCache, id: Seq<char>, now: int, ttl_secs: int) -> bool {
    match cache_entry(c.comments_cache@, id) {
        Some(e) => e.1 <= now && now - e.1 < ttl_secs,
        None => false,
    }
}

impl StoriesCache {
    /// An empty cache, stamped with the current clock reading.
    pub fn new(now: u64) -> (c: Self)
        ensures
            c.stories@.len() == 0,
            c.timestamp == now,
            c.comments_cache@.len() == 0,
    {
        StoriesCache { stories: Vec::new(), timestamp: now, comments_cache: Vec::new() }
    }

    /// Whether the listing snapshot exists and is younger than `ttl_secs`
    /// at clock reading `now`.
    pub fn is_stories_cache_valid(&self, now: u64, ttl_secs: u64) -> (r: bool)
        ensures
            r == stories_valid(*self, now as int, ttl_secs as int),
    {
        if self.stories.is_empty() {
            return false;
        }
        now >= self.timestamp && now - self.timestamp < ttl_secs
    }

    /// Replaces the listing snapshot and resets its timestamp.
    pub fn update_stories(&mut self, stories: Vec<HackerNewsItem>, now: u64)
        ensures
            final(self).stories == stories,
            final(self).timestamp == now,
            final(self).comments_cache == old(self).comments_cache,
    {
        self.stories = stories;
        self.timestamp = now;
    }

    /// Whether a thread snapshot exists for `story_id` and is younger than
    /// `ttl_secs` at clock reading `now`.
    pub fn is_comments_cache_valid(&self, story_id: &str, now: u64, ttl_secs: u64) -> (r: bool)
        ensures
            r == comments_valid(*self, story_id@, now as int, ttl_secs as int),
    {
        let n = self.comments_cache.len();
        let mut i: usize = 0;
        while i < n
            invariant
                n == self.comments_cache@.len(),
                i <= n,
                forall|j: int| 0 <= j < i ==> self.comments_cache@[j].0@ != story_id@,
            decreases n - i,
        {
            if crate::text::str_eq(self.comments_cache[i].0.as_str(), story_id) {
                let ts = self.comments_cache[i].2;
                proof {
                    lemma_cache_entry_at(self.comments_cache@, story_id@, i as int);
                }
                return now >= ts && now - ts < ttl_secs;
            }
            i = i + 1;
        }
        proof {
            lemma_cache_entry_absent(self.comments_cache@, story_id@);
        }
        false
    }

    /// Upserts the thread snapshot for `story_id`, stamping it with `now`.
    /// Entries for other ids keep their snapshots and timestamps; the
    /// backing list grows by one entry exactly when the id was absent, so
    /// an id never occupies two entries.
    pub fn update_comments(&mut self, story_id: String, comments: Vec<HackerNewsComment>, now: u64)
        ensures
            final(self).stories == old(self).stories,
            final(self).timestamp == old(self).timestamp,
            cache_entry(final(self).comments_cache@, story_id@)
                == Some((nodes_view(comments@), now as int)),
            forall|id: Seq<char>| id != story_id@
                ==> cache_entry(final(self).comments_cache@, id)
                    == cache_entry(old(self).comments_cache@, id),
            final(self).comments_cache@.len() == old(self).comments_cache@.len() + (
            if cache_entry(old(self).comments_cache@, story_id@) is Some {
                0int
            } else {
                1int
            }),
    {
        let n = self.comments_cache.len();
        let mut i: usize = 0;
        while i < n
            invariant
                n == self.comments_cache@.len(),
                i <= n,
                forall|j: int| 0 <= j < i ==> self.comments_cache@[j].0@ != story_id@,
                *self == *old(self),
            decreases n - i,
        {
            if crate::text::str_eq(self.comments_cache[i].0.as_str(), story_id.as_str()) {
                let ghost before = self.comments_cache@;
                proof {
                    lemma_cache_entry_at(before, story_id@, i as int);
                }
                self.comments_cache.set(i, (story_id, comments, now));
                proof {
                    lemma_cache_entry_at(self.comments_cache@, self.comments_cache@[i as int].0@, i as int);
                    assert forall|id: Seq<char>| id != self.comments_cache@[i as int].0@
                        implies cache_entry(self.comments_cache@, id) == cache_entry(before, id) by {
                        lemma_cache_entry_update_other(before, self.comments_cache@, id, i as int);
                    }
                }
                return;
            }
            i = i + 1;
        }
        let ghost before = self.comments_cache@;
        proof {
            lemma_cache_entry_absent(before, story_id@);
        }
        self.comments_cache.push((story_id, comments, now));
        proof {
            lemma_cache_entry_at(self.comments_cache@, self.comments_cache@[n as int].0@, n as int);
            assert forall|id: Seq<char>| id != self.comments_cache@[n as int].0@
                implies cache_entry(self.comments_cache@, id) == cache_entry(before, id) by {
                lemma_cache_entry_push_other(before, self.comments_cache@[n as int], id);
            }
        }
    }

    /// The cached comment snapshot for `story_id`, if one exists, with no
    /// regard to its age.
    pub fn get_cached_comments(&self, story_id: &str) -> (r: Option<&Vec<HackerNewsComment>>)
        ensures
            match r {
                Some(cs) => cache_entry(self.comments_cache@, story_id@) matches Some(e)
                    && e.0 == nodes_view(cs@),
                None => cache_entry(self.comments_cache@, story_id@) is None,
            },
    {
        let n = self.comments_cache.len();
        let mut i: usize = 0;
        while i < n
            invariant
                n == self.comments_cache@.len(),
                i <= n,
                forall|j: int| 0 <= j < i ==> self.comments_cache@[j].0@ != story_id@,
            decreases n - i,
        {
            if crate::text::str_eq(self.comments_cache[i].0.as_str(), story_id) {
                proof {
                    lemma_cache_entry_at(self.comments_cache@, story_id@, i as int);
                }
                return Some(&self.comments_cache[i].1);
            }
            i = i + 1;
        }
        proof {
            lemma_cache_entry_absent(self.comments_cache@, story_id@);
        }
        None
    }
}

/// Law: right after a listing write (a cache whose timestamp equals the
/// clock reading `now`), a zero TTL makes the snapshot invalid, and any
/// positive TTL makes it valid exactly when the snapshot is non-empty.
pub proof fn lemma_listing_ttl(c: StoriesCache, now: u64, ttl: u64)
    requires
        c.timestamp == now,
    ensures
        !stories_valid(c, now as int, 0),
        stories_valid(c, now as int, ttl as int) <==> (ttl > 0 && c.stories@.len() > 0),
{
}

/// Law: right after a thread write for `id` at clock reading `now`, a zero
/// TTL makes that snapshot invalid, and any positive TTL makes it valid.
pub proof fn lemma_thread_ttl(c: StoriesCache, id: Seq<char>, now: u64, ttl: u64)
    requires
        cache_entry(c.comments_cache@, id) matches Some(e) && e.1 == now,
    ensures
        !comments_valid(c, id, now as int, 0),
        ttl > 0 ==> comments_valid(c, id, now as int, ttl as int),
{
}

/// The first entry with a matching key decides the lookup.
proof fn lemma_cache_entry_at(
    cc: Seq<(String, Vec<HackerNewsComment>, u64)>,
    id: Seq<char>,
    i: int,
)
    requires
        0 <= i < cc.len(),
        cc[i].0@ == id,
        forall|j: int| 0 <= j < i ==> cc[j].0@ != id,
    ensures
        cache_entry(cc, id) == Some((nodes_view(cc[i].1@), cc[i].2 as int)),
    decreases i,
{
    if i > 0 {
        lemma_cache_entry_at(cc.drop_first(), id, i - 1);
    }
}

/// A key that no entry holds finds nothing.
proof fn lemma_cache_entry_absent(cc: Seq<(String, Vec<HackerNewsComment>, u64)>, id: Seq<char>)
    requires
        forall|j: int| 0 <= j < cc.len() ==> cc[j].0@ != id,
    ensures
        cache_entry(cc, id) is None,
    decreases cc.len(),
{
    if cc.len() > 0 {
        lemma_cache_entry_absent(cc.drop_first(), id);
    }
}

/// Replacing the entry at `i` leaves lookups of other keys unchanged,
/// provided no entry before `i` held either key.
proof fn lemma_cache_entry_update_other(
    before: Seq<(String, Vec<HackerNewsComment>, u64)>,
    after: Seq<(String, Vec<HackerNewsComment>, u64)>,
    id: Seq<char>,
    i: int,
)
    requires
        0 <= i < before.len(),
        after.len() == before.len(),
        forall|j: int| 0 <= j < before.len() && j != i ==> after[j] == before[j],
        forall|j: int| 0 <= j < i ==> before[j].0@ != after[i].0@,
        forall|j: int| 0 <= j < i ==> before[j].0@ != before[i].0@,
        id != after[i].0@,
        id != before[i].0@,
    ensures
        cache_entry(after, id) == cache_entry(before, id),
    decreases i,
{
    if before.len() > 0 {
        if i == 0 {
            assert(after.drop_first() =~= before.drop_first());
        } else {
            assert(after.drop_first()[i - 1] == after[i]);
            lemma_cache_entry_update_other(before.drop_first(), after.drop_first(), id, i - 1);
        }
    }
}

/// Appending an entry leaves lookups of other keys unchanged.
proof fn lemma_cache_entry_push_other(
    before: Seq<(String, Vec<HackerNewsComment>, u64)>,
    e: (String, Vec<HackerNewsComment>, u64),
    id: Seq<char>,
)
    requires
        id != e.0@,
    ensures
        cache_entry(before.push(e), id) == cache_entry(before, id),
    decreases before.len(),
{
    let p = before.push(e);
    if before.len() == 0 {
        assert(p[0] == e);
        assert(p.drop_first() =~= Seq::empty());
        assert(cache_entry(p, id) == cache_entry(p.drop_first(), id));
        assert(cache_entry(p.drop_first(), id) is None);
    } else {
        assert(p[0] == before[0]);
        assert(p.drop_first() =~= before.drop_first().push(e));
        lemma_cache_entry_push_other(before.drop_first(), e, id);
        if before[0].0@ == id {
            assert(cache_entry(p, id) == Some((nodes_view(p[0].1@), p[0].2 as int)));
            assert(cache_entry(before, id) == Some((nodes_view(before[0].1@), before[0].2 as int)));
        } else {
            assert(cache_entry(p, id) == cache_entry(p.drop_first(), id));
            assert(cache_entry(before, id) == cache_entry(before.drop_first(), id));
        }
    }
}

} // verus!
