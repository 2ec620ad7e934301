//! What the library decides on the Typst → SVG path: anchor specs of the source
//! map and which marker a laid-out item belongs to, the compilation error, the
//! files a preview World may serve, and the live-preview session registry.

use vstd::prelude::*;
use crate::text::{chars_of, eq_lit, join};

verus! {

/// Anchor spec (source-map input): Markdown line number (1-based) and the
/// marker's byte range in the final source.
#[derive(Debug)]
pub struct AnchorSpec {
    pub line: usize,
    pub byte_range: std::ops::Range<usize>,
}

/// A Typst compilation error: the diagnostics' messages.
#[derive(Debug)]
pub struct TypstError(pub Vec<String>);

/// Index of the first anchor spec whose marker range holds the byte range
/// `start..end`.
pub open spec fn first_marker(specs: Seq<AnchorSpec>, start: usize, end: usize, i: int) -> Option<int>
    decreases specs.len() - i,
{
    if i < 0 || i >= specs.len() {
        None
    } else if specs[i].byte_range.start <= start && end <= specs[i].byte_range.end {
        Some(i)
    } else {
        first_marker(specs, start, end, i + 1)
    }
}

/// The Markdown line of the marker that a laid-out item with source range
/// `start..end` belongs to: that of the first anchor spec whose marker range
/// holds it; `None` when the item is no marker.
pub fn marker_line(start: usize, end: usize, specs: &[AnchorSpec]) -> (r: Option<usize>)
    ensures
        match first_marker(specs@, start, end, 0) {
            Some(i) => r == Some(specs@[i].line),
            None => r is None,
        },
{
    let mut i: usize = 0;
    while i < specs.len()
        invariant
            0 <= i <= specs@.len(),
            first_marker(specs@, start, end, 0) == first_marker(specs@, start, end, i as int),
        decreases specs.len() - i,
    {
        if specs[i].byte_range.start <= start && end <= specs[i].byte_range.end {
            return Some(specs[i].line);
        }
        i += 1;
    }
    None
}

impl TypstError {
    /// The error's text: the messages, one per line.
    pub fn message(&self) -> (r: String)
        ensures
            r@ == join(self.0@.map_values(|m: String| m@), "\n"@),
    {
        let mut out = String::new();
        crate::text::push_joined(&mut out, &self.0, "\n");
        out
    }
}

// ---------------------------------------------------------------------------
// The files a preview World serves
// ---------------------------------------------------------------------------

/// The file that the preview World serves for a request.
#[derive(Debug)]
pub enum ServedFile {
    /// The injected logo.
    Logo,
    /// The supplied image with this index.
    Image(usize),
    /// Nothing: the file is not found.
    NotFound,
}

/// Index of the last supplied image at `path`.
pub open spec fn last_image_at(paths: Seq<Seq<char>>, path: Seq<char>) -> Option<int>
    decreases paths.len(),
{
    if paths.len() == 0 {
        None
    } else if paths.last() == path {
        Some(paths.len() - 1)
    } else {
        last_image_at(paths.drop_last(), path)
    }
}

/// Which file a request for `path` gets: the logo when the logo's own file is
/// asked for and there is one; else the last image supplied at that virtual
/// path; else nothing. No other file of the host is ever served.
pub fn serve_file(logo_requested: bool, has_logo: bool, path: &str, image_paths: &Vec<String>) -> (r: ServedFile)
    ensures
        match r {
            ServedFile::Logo => logo_requested && has_logo,
            ServedFile::Image(k) => !(logo_requested && has_logo) && last_image_at(
                image_paths@.map_values(|p: String| p@),
                path@,
            ) == Some(k as int),
            ServedFile::NotFound => !(logo_requested && has_logo) && last_image_at(
                image_paths@.map_values(|p: String| p@),
                path@,
            ) is None,
        },
{
    if logo_requested && has_logo {
        return ServedFile::Logo;
    }
    let ghost pv = image_paths@.map_values(|p: String| p@);
    let pc = chars_of(path);
    let mut k: usize = image_paths.len();
    assert(pv.take(k as int) =~= pv);
    while k > 0
        invariant
            k <= image_paths@.len(),
            !(logo_requested && has_logo),
            pv == image_paths@.map_values(|p: String| p@),
            pc@ == path@,
            last_image_at(pv, path@) == last_image_at(pv.take(k as int), path@),
        decreases k,
    {
        assert(pv[k - 1] == image_paths@[k - 1]@);
        assert(pv.take(k as int).drop_last() =~= pv.take(k - 1));
        if eq_lit(&pc, image_paths[k - 1].as_str()) {
            return ServedFile::Image(k - 1);
        }
        k -= 1;
    }
    ServedFile::NotFound
}

/// The World reads nothing of the host: an image it serves was supplied with
/// the request at exactly the asked path, and a path that no supplied image
/// has is not found (unless it is the logo's own file).
pub proof fn lemma_served_image_is_supplied(paths: Seq<Seq<char>>, path: Seq<char>)
    ensures
        last_image_at(paths, path) matches Some(k) ==> 0 <= k < paths.len() && paths[k] == path,
        last_image_at(paths, path) is None <==> !paths.contains(path),
    decreases paths.len(),
{
    if paths.len() > 0 {
        let p = paths.drop_last();
        lemma_served_image_is_supplied(p, path);
        if paths.last() != path {
            if paths.contains(path) {
                let w = choose|w: int| 0 <= w < paths.len() && paths[w] == path;
                assert(p[w] == paths[w]);
            }
            if p.contains(path) {
                let w = choose|w: int| 0 <= w < p.len() && p[w] == path;
                assert(paths[w] == p[w]);
            }
        } else {
            assert(paths[paths.len() - 1] == path);
        }
    }
}

// ---------------------------------------------------------------------------
// Live-preview session registry
// ---------------------------------------------------------------------------

/// The sessions of a list of (id, last use) entries.
pub open spec fn map_of(s: Seq<(Seq<char>, u64)>) -> Map<Seq<char>, u64>
    decreases s.len(),
{
    if s.len() == 0 {
        Map::empty()
    } else {
        map_of(s.drop_last()).insert(s.last().0, s.last().1)
    }
}

pub open spec fn keys_distinct(s: Seq<(Seq<char>, u64)>) -> bool {
    forall|i: int, j: int| 0 <= i < j < s.len() ==> s[i].0 != s[j].0
}

/// `k` is a session of `m` used no later than any other.
pub open spec fn is_oldest(m: Map<Seq<char>, u64>, k: Seq<char>) -> bool {
    &&& m.contains_key(k)
    &&& forall|k2: Seq<char>| m.contains_key(k2) ==> m[k] <= #[trigger] m[k2]
}

pub proof fn lemma_map_of(s: Seq<(Seq<char>, u64)>)
    requires
        keys_distinct(s),
    ensures
        map_of(s).dom().finite(),
        map_of(s).len() == s.len(),
        forall|i: int|
            0 <= i < s.len() ==> map_of(s).contains_key(#[trigger] s[i].0) && map_of(s)[s[i].0]
                == s[i].1,
        forall|k: Seq<char>|
            map_of(s).contains_key(k) ==> exists|i: int| 0 <= i < s.len() && #[trigger] s[i].0 == k,
    decreases s.len(),
{
    if s.len() > 0 {
        let p = s.drop_last();
        assert(keys_distinct(p));
        lemma_map_of(p);
        assert(!map_of(p).contains_key(s.last().0)) by {
            if map_of(p).contains_key(s.last().0) {
                let i = choose|i: int| 0 <= i < p.len() && #[trigger] p[i].0 == s.last().0;
                assert(s[i].0 == s[s.len() - 1].0);
            }
        }
        assert forall|k: Seq<char>| map_of(s).contains_key(k) implies exists|i: int|
            0 <= i < s.len() && #[trigger] s[i].0 == k by {
            if k != s.last().0 {
                let i = choose|i: int| 0 <= i < p.len() && #[trigger] p[i].0 == k;
                assert(s[i].0 == k);
            } else {
                assert(s[s.len() - 1].0 == k);
            }
        }
        assert forall|i: int| 0 <= i < s.len() implies map_of(s).contains_key(#[trigger] s[i].0)
            && map_of(s)[s[i].0] == s[i].1 by {
            if i < s.len() - 1 {
                assert(p[i] == s[i]);
            }
        }
    }
}

/// Updating the last use of a session in the list updates it in the map.
pub proof fn lemma_map_of_update(s: Seq<(Seq<char>, u64)>, j: int, v: u64)
    requires
        keys_distinct(s),
        0 <= j < s.len(),
    ensures
        keys_distinct(s.update(j, (s[j].0, v))),
        map_of(s.update(j, (s[j].0, v))) == map_of(s).insert(s[j].0, v),
{
    let s1 = s.update(j, (s[j].0, v));
    assert(keys_distinct(s1)) by {
        assert forall|a: int, b: int| 0 <= a < b < s1.len() implies s1[a].0 != s1[b].0 by {
            assert(s1[a].0 == s[a].0 && s1[b].0 == s[b].0);
        }
    }
    lemma_map_of(s);
    lemma_map_of(s1);
    let m = map_of(s).insert(s[j].0, v);
    assert forall|k: Seq<char>| #[trigger] map_of(s1).contains_key(k) == m.contains_key(k) by {
        if map_of(s1).contains_key(k) {
            let w = choose|i: int| 0 <= i < s1.len() && #[trigger] s1[i].0 == k;
            assert(s[w].0 == k);
        }
        if map_of(s).contains_key(k) {
            let w = choose|i: int| 0 <= i < s.len() && #[trigger] s[i].0 == k;
            assert(s1[w].0 == k);
        }
        if k == s[j].0 {
            assert(s1[j].0 == k);
        }
    }
    assert forall|k: Seq<char>| #[trigger] map_of(s1).contains_key(k) implies map_of(s1)[k] == m[k] by {
        let w = choose|i: int| 0 <= i < s1.len() && #[trigger] s1[i].0 == k;
        if w != j {
            assert(s[w] == s1[w]);
        }
    }
    assert(map_of(s1) =~= m);
}

/// Removing a session's entry from the list removes it from the map.
pub proof fn lemma_map_of_remove(s: Seq<(Seq<char>, u64)>, j: int)
    requires
        keys_distinct(s),
        0 <= j < s.len(),
    ensures
        keys_distinct(s.remove(j)),
        map_of(s.remove(j)) == map_of(s).remove(s[j].0),
{
    let s2 = s.remove(j);
    assert(keys_distinct(s2)) by {
        assert forall|a: int, b: int| 0 <= a < b < s2.len() implies s2[a].0 != s2[b].0 by {
            let a1 = if a < j { a } else { a + 1 };
            let b1 = if b < j { b } else { b + 1 };
            assert(s2[a] == s[a1] && s2[b] == s[b1]);
        }
    }
    lemma_map_of(s);
    lemma_map_of(s2);
    let m = map_of(s).remove(s[j].0);
    assert forall|k: Seq<char>| #[trigger] map_of(s2).contains_key(k) == m.contains_key(k) by {
        if map_of(s2).contains_key(k) {
            let w = choose|i: int| 0 <= i < s2.len() && #[trigger] s2[i].0 == k;
            let w1 = if w < j { w } else { w + 1 };
            assert(s2[w] == s[w1]);
        }
        if m.contains_key(k) {
            let w = choose|i: int| 0 <= i < s.len() && #[trigger] s[i].0 == k;
            assert(w != j);
            let w2 = if w < j { w } else { w - 1 };
            assert(s2[w2] == s[w]);
        }
    }
    assert forall|k: Seq<char>| #[trigger] map_of(s2).contains_key(k) implies map_of(s2)[k] == m[k] by {
        let w = choose|i: int| 0 <= i < s2.len() && #[trigger] s2[i].0 == k;
        let w1 = if w < j { w } else { w + 1 };
        assert(s2[w] == s[w1]);
    }
    assert(map_of(s2) =~= m);
}

/// No two sessions share a last use.
pub open spec fn stamps_distinct(m: Map<Seq<char>, u64>) -> bool {
    forall|k1: Seq<char>, k2: Seq<char>|
        #![trigger m[k1], m[k2]]
        m.contains_key(k1) && m.contains_key(k2) && k1 != k2 ==> m[k1] != m[k2]
}

/// The sessions after using `id` at time `now` with room for `max`: `id` with
/// its new use, and, when that is one too many, the least recently used
/// session evicted.
pub open spec fn after_touch(m: Map<Seq<char>, u64>, now: u64, max: usize, id: Seq<char>) -> Map<
    Seq<char>,
    u64,
> {
    let m1 = m.insert(id, now);
    if m1.len() > max && exists|k: Seq<char>| is_oldest(m1, k) {
        m1.remove(choose|k: Seq<char>| is_oldest(m1, k))
    } else {
        m1
    }
}

proof fn lemma_touch_result(
    m0: Map<Seq<char>, u64>,
    now: u64,
    max: usize,
    id: Seq<char>,
    evicted: Option<Seq<char>>,
    m2: Map<Seq<char>, u64>,
)
    requires
        m0.dom().finite(),
        stamps_distinct(m0),
        forall|k: Seq<char>| m0.contains_key(k) ==> #[trigger] m0[k] < now,
        ({
            let m1 = m0.insert(id, now);
            match evicted {
                None => m1.len() <= max && m2 == m1,
                Some(k) => m1.len() > max && is_oldest(m1, k) && m2 == m1.remove(k),
            }
        }),
    ensures
        m2 == after_touch(m0, now, max, id),
        stamps_distinct(m2),
{
    let m1 = m0.insert(id, now);
    assert(stamps_distinct(m1)) by {
        assert forall|k1: Seq<char>, k2: Seq<char>|
            m1.contains_key(k1) && m1.contains_key(k2) && k1 != k2 implies #[trigger] m1[k1]
            != #[trigger] m1[k2] by {
            if k1 != id && k2 != id {
                assert(m0[k1] != m0[k2]);
            }
        }
    }
    match evicted {
        None => {},
        Some(k) => {
            let c = choose|k2: Seq<char>| is_oldest(m1, k2);
            assert(is_oldest(m1, c));
            assert(m1[k] <= m1[c] && m1[c] <= m1[k]);
            assert(c == k);
        },
    }
}

/// The sessions after using `others` one after the other, the clock going on
/// from `clock`.
pub open spec fn after_touches(
    m: Map<Seq<char>, u64>,
    clock: u64,
    max: usize,
    others: Seq<Seq<char>>,
) -> Map<Seq<char>, u64>
    decreases others.len(),
{
    if others.len() == 0 {
        m
    } else {
        let now = (clock + 1) as u64;
        after_touches(after_touch(m, now, max, others[0]), now, max, others.drop_first())
    }
}

proof fn lemma_survives_from(
    m: Map<Seq<char>, u64>,
    clock: u64,
    max: usize,
    id: Seq<char>,
    others: Seq<Seq<char>>,
    seen: Set<Seq<char>>,
)
    requires
        m.dom().finite(),
        stamps_distinct(m),
        forall|k: Seq<char>| m.contains_key(k) ==> #[trigger] m[k] <= clock,
        m.contains_key(id),
        forall|k: Seq<char>| m.contains_key(k) && #[trigger] m[k] > m[id] ==> seen.contains(k),
        seen.finite(),
        seen.union(others.to_set()).len() < max,
        forall|i: int| 0 <= i < others.len() ==> #[trigger] others[i] != id,
        clock + others.len() <= u64::MAX,
    ensures
        after_touches(m, clock, max, others).contains_key(id),
    decreases others.len(),
{
    broadcast use vstd::set::group_set_axioms, vstd::seq_lib::seq_to_set_is_finite;
    if others.len() > 0 {
        let o = others[0];
        let now = (clock + 1) as u64;
        let m1 = m.insert(o, now);
        let seen1 = seen.insert(o);
        let all = seen.union(others.to_set());
        assert(others.to_set().contains(o));
        assert(seen1.subset_of(all));
        assert(stamps_distinct(m1)) by {
            assert forall|k1: Seq<char>, k2: Seq<char>|
                m1.contains_key(k1) && m1.contains_key(k2) && k1 != k2 implies #[trigger] m1[k1]
                != #[trigger] m1[k2] by {
                if k1 != o && k2 != o {
                    assert(m[k1] != m[k2]);
                }
            }
        }
        assert(m1[id] == m[id]);
        assert forall|k: Seq<char>| m1.contains_key(k) && #[trigger] m1[k] > m1[id] implies seen1.contains(
            k,
        ) by {
            if k != o {
                assert(m[k] > m[id]);
            }
        }
        let m2 = after_touch(m, now, max, o);
        if m1.len() > max && exists|k: Seq<char>| is_oldest(m1, k) {
            let x = choose|k: Seq<char>| is_oldest(m1, k);
            if x == id {
                // every other session would be newer, so all of them were used since
                let rest = m1.dom().remove(id);
                assert(rest.subset_of(all)) by {
                    assert forall|k: Seq<char>| rest.contains(k) implies all.contains(k) by {
                        assert(m1[id] <= m1[k]);
                        assert(m1[id] != m1[k]);
                        assert(seen1.contains(k));
                    }
                }
                vstd::set_lib::lemma_len_subset(rest, all);
                assert(rest.len() == m1.len() - 1);
                assert(false);
            }
            assert(m2 == m1.remove(x));
        }
        assert(m2.contains_key(id) && m2[id] == m[id]);
        assert(stamps_distinct(m2));
        let tail = others.drop_first();
        let all2 = seen1.union(tail.to_set());
        assert(all2.subset_of(all)) by {
            assert forall|k: Seq<char>| all2.contains(k) implies all.contains(k) by {
                if tail.to_set().contains(k) {
                    let w = choose|w: int| 0 <= w < tail.len() && tail[w] == k;
                    assert(others[w + 1] == k);
                    assert(others.contains(k));
                }
            }
        }
        vstd::set_lib::lemma_len_subset(all2, all);
        assert forall|i: int| 0 <= i < tail.len() implies #[trigger] tail[i] != id by {
            assert(tail[i] == others[i + 1]);
        }
        lemma_survives_from(m2, now, max, id, tail, seen1);
    }
}

/// A live-preview session survives, and keeps its compilation context, while
/// fewer than `max` other sessions are used after it: using it (its last use
/// is the clock) and then any ids other than it, of which fewer than `max`
/// differ, leaves it among the sessions.
pub proof fn lemma_session_survives(
    m: Map<Seq<char>, u64>,
    clock: u64,
    max: usize,
    id: Seq<char>,
    others: Seq<Seq<char>>,
)
    requires
        m.dom().finite(),
        stamps_distinct(m),
        forall|k: Seq<char>| m.contains_key(k) ==> #[trigger] m[k] <= clock,
        m.contains_key(id),
        m[id] == clock,
        forall|i: int| 0 <= i < others.len() ==> #[trigger] others[i] != id,
        others.to_set().len() < max,
        clock + others.len() <= u64::MAX,
    ensures
        after_touches(m, clock, max, others).contains_key(id),
{
    broadcast use vstd::set::group_set_axioms;
    assert(Set::<Seq<char>>::empty().union(others.to_set()) =~= others.to_set());
    lemma_survives_from(m, clock, max, id, others, Set::empty());
}

/// The session registry of live preview: each session id with its last use (a
/// logical clock), at most `max` sessions, the least recently used evicted
/// first. The compilers themselves are kept by the caller under the same ids.
pub struct SessionRegistry {
    entries: Vec<(String, u64)>,
    next_id: u64,
    max: usize,
}

/// What touching a session did: whether it was created, and which session was
/// evicted to stay within the cap.
pub struct SessionTouch {
    pub created: bool,
    pub evicted: Option<String>,
}

impl SessionRegistry {
    pub closed spec fn entries_view(&self) -> Seq<(Seq<char>, u64)> {
        self.entries@.map_values(|e: (String, u64)| (e.0@, e.1))
    }

    /// The sessions, each with its last use.
    pub closed spec fn sessions(&self) -> Map<Seq<char>, u64> {
        map_of(self.entries_view())
    }

    /// The logical clock: the last use given out.
    pub closed spec fn clock(&self) -> u64 {
        self.next_id
    }

    /// The cap on the number of sessions.
    pub closed spec fn max(&self) -> usize {
        self.max
    }

    pub closed spec fn wf(&self) -> bool {
        &&& keys_distinct(self.entries_view())
        &&& self.entries@.len() <= self.max
        &&& self.max >= 1
        &&& forall|i: int| 0 <= i < self.entries@.len() ==> #[trigger] self.entries@[i].1 <= self.next_id
        &&& stamps_distinct(self.sessions())
    }

    /// An empty registry with room for 64 sessions.
    pub fn new() -> (r: SessionRegistry)
        ensures
            r.wf(),
            r.sessions() == Map::<Seq<char>, u64>::empty(),
            r.clock() == 0,
            r.max() == 64,
    {
        let r = SessionRegistry { entries: Vec::new(), next_id: 0, max: 64 };
        assert(r.entries_view() =~= Seq::<(Seq<char>, u64)>::empty());
        r
    }

    /// The logical clock's value: the last use given out.
    pub fn uses(&self) -> (r: u64)
        ensures
            r == self.clock(),
    {
        self.next_id
    }

    /// The registry never holds more sessions than its cap.
    pub proof fn lemma_within_cap(&self)
        requires
            self.wf(),
        ensures
            self.sessions().dom().finite(),
            self.sessions().len() <= self.max(),
    {
        lemma_map_of(self.entries_view());
    }

    /// The sessions of a registry are finite, no two share a last use, and none
    /// is used later than the clock: what `lemma_session_survives` asks of them.
    pub proof fn lemma_registry_facts(&self)
        requires
            self.wf(),
        ensures
            self.sessions().dom().finite(),
            stamps_distinct(self.sessions()),
            forall|k: Seq<char>| self.sessions().contains_key(k) ==> #[trigger] self.sessions()[k]
                <= self.clock(),
    {
        let s = self.entries_view();
        lemma_map_of(s);
        assert forall|k: Seq<char>| self.sessions().contains_key(k) implies #[trigger] self.sessions()[k]
            <= self.clock() by {
            let w = choose|w: int| 0 <= w < s.len() && #[trigger] s[w].0 == k;
            assert(s[w] == (self.entries@[w].0@, self.entries@[w].1));
        }
    }

    /// Use the session `id` now, creating it when it is new; when the registry
    /// then holds more than `max` sessions, the least recently used one is
    /// evicted.
    pub fn touch(&mut self, id: &str) -> (r: SessionTouch)
        requires
            old(self).wf(),
            old(self).clock() < u64::MAX,
        ensures
            final(self).wf(),
            final(self).clock() == old(self).clock() + 1,
            final(self).max() == old(self).max(),
            r.created == !old(self).sessions().contains_key(id@),
            final(self).sessions().contains_key(id@),
            final(self).sessions()[id@] == final(self).clock(),
            final(self).sessions() == after_touch(
                old(self).sessions(),
                final(self).clock(),
                old(self).max(),
                id@,
            ),
            ({
                let m1 = old(self).sessions().insert(id@, final(self).clock());
                match r.evicted {
                    None => m1.len() <= old(self).max() && final(self).sessions() == m1,
                    Some(k) => m1.len() > old(self).max() && is_oldest(m1, k@) && k@ != id@
                        && final(self).sessions() == m1.remove(k@),
                }
            }),
    {
        let ghost s0 = self.entries_view();
        proof {
            lemma_map_of(s0);
        }
        self.next_id = self.next_id + 1;
        let now = self.next_id;
        let mut idx: Option<usize> = None;
        let mut i: usize = 0;
        while i < self.entries.len()
            invariant_except_break
                idx is None,
            invariant
                0 <= i <= self.entries@.len(),
                s0 == self.entries_view(),
                forall|m: int| 0 <= m < i ==> #[trigger] s0[m].0 != id@,
            ensures
                match idx {
                    Some(j) => j < s0.len() && s0[j as int].0 == id@,
                    None => forall|m: int| 0 <= m < s0.len() ==> #[trigger] s0[m].0 != id@,
                },
            decreases self.entries.len() - i,
        {
            let kc = chars_of(self.entries[i].0.as_str());
            assert(s0[i as int].0 == self.entries@[i as int].0@);
            if eq_lit(&kc, id) {
                idx = Some(i);
                break;
            }
            i += 1;
        }
        let ghost m1 = map_of(s0).insert(id@, now);
        let created = match idx {
            Some(j) => {
                let key = self.entries[j].0.clone();
                self.entries.set(j, (key, now));
                proof {
                    assert(self.entries_view() =~= s0.update(j as int, (s0[j as int].0, now)));
                    lemma_map_of_update(s0, j as int, now);
                }
                false
            },
            None => {
                self.entries.push((String::from_str(id), now));
                proof {
                    let s1 = self.entries_view();
                    assert(s1 =~= s0.push((id@, now)));
                    assert(keys_distinct(s1));
                    assert(s1.drop_last() =~= s0);
                    lemma_map_of(s1);
                }
                true
            },
        };
        let ghost s1 = self.entries_view();
        proof {
            lemma_map_of(s1);
            assert(map_of(s1) == m1);
        }
        let mut evicted: Option<String> = None;
        if self.entries.len() > self.max {
            let mut oi: usize = 0;
            let mut k: usize = 1;
            while k < self.entries.len()
                invariant
                    1 <= k <= self.entries@.len(),
                    oi < k,
                    s1 == self.entries_view(),
                    forall|m: int| 0 <= m < k ==> s1[oi as int].1 <= #[trigger] s1[m].1,
                decreases self.entries.len() - k,
            {
                assert(s1[k as int] == (self.entries@[k as int].0@, self.entries@[k as int].1));
                assert(s1[oi as int] == (self.entries@[oi as int].0@, self.entries@[oi as int].1));
                if self.entries[k].1 < self.entries[oi].1 {
                    oi = k;
                }
                k += 1;
            }
            let (key, _) = self.entries.remove(oi);
            proof {
                assert(self.entries_view() =~= s1.remove(oi as int));
                lemma_map_of_remove(s1, oi as int);
                let kk = s1[oi as int].0;
                // the touched session has the latest use, and another session is older
                let t = choose|m: int| 0 <= m < s1.len() && #[trigger] s1[m].0 == id@;
                assert(s1[t].1 == now);
                let other = if t == 0 { 1int } else { 0int };
                assert(s1[other].0 != id@);
                assert(s1[other].1 < now);
                assert(kk != id@);
                assert forall|k2: Seq<char>| m1.contains_key(k2) implies m1[kk] <= #[trigger] m1[k2] by {
                    let w = choose|m: int| 0 <= m < s1.len() && #[trigger] s1[m].0 == k2;
                    assert(s1[oi as int].1 <= s1[w].1);
                }
            }
            evicted = Some(key);
        }
        proof {
            let m0 = map_of(s0);
            assert forall|k: Seq<char>| m0.contains_key(k) implies #[trigger] m0[k] < now by {
                let w = choose|w: int| 0 <= w < s0.len() && #[trigger] s0[w].0 == k;
                assert(s0[w] == (old(self).entries@[w].0@, old(self).entries@[w].1));
            }
            let ev = match &evicted {
                Some(k) => Some(k@),
                None => None::<Seq<char>>,
            };
            lemma_map_of(self.entries_view());
            lemma_touch_result(m0, now, self.max, id@, ev, self.sessions());
        }
        SessionTouch { created, evicted }
    }
}

} // verus!
