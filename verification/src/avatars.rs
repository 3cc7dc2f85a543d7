//! Which avatar URLs to download, and the cache of decoded avatars.
//!
//! The image type is left open: the cache only stores and hands back
//! images, and the caller supplies the download, the clock and the grey
//! placeholder shown for a failed download.

use vstd::prelude::*;
use crate::text::str_eq;

verus! {

/// How long a failed URL is skipped before being retried, in milliseconds.
pub const RETRY_AFTER_MS: u64 = 600_000;

/// The URLs of a list of keyed entries.
pub open spec fn keys_of<V>(entries: Seq<(String, V)>) -> Seq<Seq<char>> {
    entries.map_values(|e: (String, V)| e.0@)
}

/// Process-lifetime cache of decoded avatars keyed by URL, with the time of
/// the last failure of each URL that failed.
pub struct AvatarCache<I> {
    images: Vec<(String, I)>,
    failed: Vec<(String, u64)>,
}

/// Index of the entry keyed `url`, if any.
fn find<V>(entries: &Vec<(String, V)>, url: &str) -> (found: Option<usize>)
    ensures
        match found {
            Some(i) => i < entries@.len() && entries@[i as int].0@ == url@ && keys_of(entries@).contains(url@),
            None => !keys_of(entries@).contains(url@),
        },
{
    let mut i: usize = 0;
    while i < entries.len()
        invariant
            i <= entries@.len(),
            forall|k: int| 0 <= k < i ==> (#[trigger] entries@[k]).0@ != url@,
        decreases entries@.len() - i,
    {
        if str_eq(entries[i].0.as_str(), url) {
            assert(keys_of(entries@)[i as int] == url@);
            return Some(i);
        }
        i = i + 1;
    }
    proof {
        if keys_of(entries@).contains(url@) {
            let k = choose|k: int| 0 <= k < keys_of(entries@).len() && keys_of(entries@)[k] == url@;
            assert(entries@[k].0@ == url@);
        }
    }
    None
}

impl<I> AvatarCache<I> {
    /// The cached images, in the order they were cached.
    pub closed spec fn images(&self) -> Seq<(String, I)> {
        self.images@
    }

    /// The URLs that failed, with the time of their last failure.
    pub closed spec fn failures(&self) -> Seq<(String, u64)> {
        self.failed@
    }

    /// Each URL is cached at most once, has at most one failure time, and is
    /// never both cached and failed.
    pub open spec fn wf(&self) -> bool {
        &&& keys_of(self.images()).no_duplicates()
        &&& keys_of(self.failures()).no_duplicates()
        &&& forall|u: Seq<char>| keys_of(self.images()).contains(u) ==> !keys_of(self.failures()).contains(u)
    }

    /// An empty cache.
    pub fn new() -> (cache: Self)
        ensures
            cache.wf(),
            cache.images().len() == 0,
            cache.failures().len() == 0,
    {
        let cache = AvatarCache { images: Vec::new(), failed: Vec::new() };
        assert(keys_of(cache.images()) =~= Seq::<Seq<char>>::empty());
        assert(keys_of(cache.failures()) =~= Seq::<Seq<char>>::empty());
        cache
    }
}

impl<I> Default for AvatarCache<I> {
    /// An empty cache.
    fn default() -> (cache: Self)
        ensures
            cache.wf(),
            cache.images().len() == 0,
            cache.failures().len() == 0,
    {
        Self::new()
    }
}

/// A URL that failed at `failed_at` is still in its retry pause at `now`
/// (a clock reading before the failure counts as no time elapsed).
pub open spec fn recently_failed(failed_at: u64, now: u64) -> bool {
    now < failed_at || now - failed_at < RETRY_AFTER_MS
}

proof fn lemma_remove_distinct(s: Seq<Seq<char>>, k: int, v: Seq<char>)
    requires
        s.no_duplicates(),
        0 <= k < s.len(),
    ensures
        s.remove(k).no_duplicates(),
        s.remove(k).contains(v) <==> (s.contains(v) && v != s[k]),
{
    let r = s.remove(k);
    assert forall|a: int, b: int| 0 <= a < r.len() && 0 <= b < r.len() && a != b implies r[a] != r[b] by {
        let a2 = if a < k { a } else { a + 1 };
        let b2 = if b < k { b } else { b + 1 };
        assert(r[a] == s[a2] && r[b] == s[b2]);
    }
    if r.contains(v) {
        let q = choose|q: int| 0 <= q < r.len() && r[q] == v;
        let q2 = if q < k { q } else { q + 1 };
        assert(s[q2] == v);
    }
    if s.contains(v) && v != s[k] {
        let q = choose|q: int| 0 <= q < s.len() && s[q] == v;
        if q < k {
            assert(r[q] == v);
        } else {
            assert(r[q - 1] == v);
        }
    }
}

/// `failures` records a failure of `u` at time `t`.
pub open spec fn failed_at(failures: Seq<(String, u64)>, u: Seq<char>, t: u64) -> bool {
    exists|i: int| 0 <= i < failures.len() && (#[trigger] failures[i]).0@ == u && failures[i].1 == t
}

proof fn lemma_failed_at_remove(s: Seq<(String, u64)>, k: int, v: Seq<char>, t: u64)
    requires
        0 <= k < s.len(),
        s[k].0@ != v,
    ensures
        failed_at(s.remove(k), v, t) == failed_at(s, v, t),
{
    let r = s.remove(k);
    if failed_at(r, v, t) {
        let q = choose|q: int| 0 <= q < r.len() && (#[trigger] r[q]).0@ == v && r[q].1 == t;
        let q2 = if q < k { q } else { q + 1 };
        assert(s[q2] == r[q]);
    }
    if failed_at(s, v, t) {
        let q = choose|q: int| 0 <= q < s.len() && (#[trigger] s[q]).0@ == v && s[q].1 == t;
        if q < k {
            assert(r[q] == s[q]);
        } else {
            assert(q != k);
            assert(r[q - 1] == s[q]);
        }
    }
}

proof fn lemma_failed_at_update(s: Seq<(String, u64)>, k: int, e: (String, u64), v: Seq<char>, t: u64)
    requires
        0 <= k < s.len(),
        s[k].0@ != v,
        e.0@ != v,
    ensures
        failed_at(s.update(k, e), v, t) == failed_at(s, v, t),
{
    let r = s.update(k, e);
    if failed_at(r, v, t) {
        let q = choose|q: int| 0 <= q < r.len() && (#[trigger] r[q]).0@ == v && r[q].1 == t;
        assert(s[q] == r[q]);
    }
    if failed_at(s, v, t) {
        let q = choose|q: int| 0 <= q < s.len() && (#[trigger] s[q]).0@ == v && s[q].1 == t;
        assert(r[q] == s[q]);
    }
}

proof fn lemma_failed_at_push(s: Seq<(String, u64)>, e: (String, u64), v: Seq<char>, t: u64)
    requires
        e.0@ != v,
    ensures
        failed_at(s.push(e), v, t) == failed_at(s, v, t),
{
    let r = s.push(e);
    if failed_at(r, v, t) {
        let q = choose|q: int| 0 <= q < r.len() && (#[trigger] r[q]).0@ == v && r[q].1 == t;
        assert(s[q] == r[q]);
    }
    if failed_at(s, v, t) {
        let q = choose|q: int| 0 <= q < s.len() && (#[trigger] s[q]).0@ == v && s[q].1 == t;
        assert(r[q] == s[q]);
    }
}

/// `fetch`, called on `url`, can give `result`.
pub open spec fn fetch_gave<I, E, F: Fn(&str) -> Result<I, E>>(fetch: F, url: Seq<char>, result: Result<I, E>) -> bool {
    exists|s: &str| s@ == url && #[trigger] fetch.ensures((s,), result)
}

proof fn lemma_failed_at_keys(s: Seq<(String, u64)>, w: Seq<char>)
    ensures
        keys_of(s).contains(w) <==> exists|t: u64| failed_at(s, w, t),
{
    if keys_of(s).contains(w) {
        let q = choose|q: int| 0 <= q < keys_of(s).len() && keys_of(s)[q] == w;
        assert(failed_at(s, w, s[q].1));
    }
    if exists|t: u64| failed_at(s, w, t) {
        let t = choose|t: u64| failed_at(s, w, t);
        let q = choose|q: int| 0 <= q < s.len() && (#[trigger] s[q]).0@ == w && s[q].1 == t;
        assert(keys_of(s)[q] == w);
    }
}

/// `pos` gives, for each of `keys` in turn, a position of `uv` holding it,
/// and the positions increase.
pub open spec fn in_order_of(pos: Seq<int>, uv: Seq<Seq<char>>, keys: Seq<Seq<char>>) -> bool {
    &&& pos.len() == keys.len()
    &&& forall|k: int| 0 <= k < pos.len() ==> 0 <= #[trigger] pos[k] < uv.len() && uv[pos[k]] == keys[k]
    &&& forall|a: int, b: int| 0 <= a < b < pos.len() ==> #[trigger] pos[a] < #[trigger] pos[b]
}

/// The views of a list of strings.
pub open spec fn string_views(s: Seq<String>) -> Seq<Seq<char>> {
    s.map_values(|x: String| x@)
}

impl<I: Clone> AvatarCache<I> {
    /// Fetch every URL not yet cached and return only those new entries.
    ///
    /// Empty URLs, cached URLs, URLs already handled in this call and URLs
    /// whose last failure is within `RETRY_AFTER_MS` of the clock are
    /// skipped; a failed URL whose pause is over is fetched again. A download
    /// that succeeds is cached and clears the URL's failure; one that fails
    /// records the clock's reading as the URL's failure time and yields the
    /// placeholder, without caching it. Failure times of the URLs not fetched
    /// are left as they were, and the new entries come in the order of the
    /// URLs that gave them.
    pub fn fetch_missing_with<E>(
        &mut self,
        urls: Vec<String>,
        fetch: impl Fn(&str) -> Result<I, E>,
        clock: impl Fn() -> u64,
        placeholder: impl Fn() -> I,
    ) -> (fresh: Vec<(String, I)>)
        requires
            old(self).wf(),
            forall|u: &str| #[trigger] fetch.requires((u,)),
            clock.requires(()),
            placeholder.requires(()),
        ensures
            final(self).wf(),
            final(self).images().len() >= old(self).images().len(),
            forall|k: int|
                0 <= k < old(self).images().len() ==> #[trigger] final(self).images()[k] == old(self).images()[k],
            keys_of(fresh@).no_duplicates(),
            forall|k: int|
                0 <= k < fresh@.len() ==> {
                    let u = (#[trigger] fresh@[k]).0@;
                    &&& u.len() > 0
                    &&& string_views(urls@).contains(u)
                    &&& !keys_of(old(self).images()).contains(u)
                    &&& (exists|j: int|
                        old(self).images().len() <= j < final(self).images().len() && final(self).images()[j].0@ == u && cloned(fresh@[k].1, final(self).images()[j].1)
                        && fetch_gave(fetch, u, Ok(fresh@[k].1)))
                        || (keys_of(final(self).failures()).contains(u) && placeholder.ensures(
                        (),
                        fresh@[k].1,
                    ) && exists|e: E| fetch_gave(fetch, u, Err(e)))
                },
            forall|j: int|
                old(self).images().len() <= j < final(self).images().len() ==> keys_of(
                    fresh@,
                ).contains(#[trigger] final(self).images()[j].0@),
            forall|k: int, t: u64|
                0 <= k < fresh@.len() && #[trigger] failed_at(old(self).failures(), fresh@[k].0@, t)
                    ==> exists|now: u64| clock.ensures((), now) && !recently_failed(t, now),
            forall|u: Seq<char>|
                #[trigger] string_views(urls@).contains(u) && u.len() > 0 && !keys_of(
                    old(self).images(),
                ).contains(u) && !keys_of(old(self).failures()).contains(u) ==> keys_of(
                    fresh@,
                ).contains(u),
            forall|u: Seq<char>, t: u64|
                #[trigger] failed_at(old(self).failures(), u, t) && u.len() > 0 && string_views(urls@).contains(u)
                    && !keys_of(fresh@).contains(u) ==> exists|now: u64| clock.ensures((), now) && recently_failed(t, now),
            forall|v: Seq<char>, t: u64|
                !keys_of(fresh@).contains(v) ==> (#[trigger] failed_at(final(self).failures(), v, t) == failed_at(
                    old(self).failures(),
                    v,
                    t,
                )),
            exists|pos: Seq<int>| in_order_of(pos, string_views(urls@), keys_of(fresh@)),
            forall|k: int|
                0 <= k < fresh@.len() && keys_of(final(self).failures()).contains(#[trigger] fresh@[k].0@) ==> exists|now: u64|
                    clock.ensures((), now) && failed_at(final(self).failures(), fresh@[k].0@, now),
    {
        let ghost old_images = self.images@;
        let ghost old_failed = self.failed@;
        let ghost uv = string_views(urls@);
        let mut fresh: Vec<(String, I)> = Vec::new();
        let ghost mut pos: Seq<int> = Seq::empty();
        let mut i: usize = 0;
        while i < urls.len()
            invariant
                uv == string_views(urls@),
                i <= urls@.len(),
                self.wf(),
                forall|u: &str| #[trigger] fetch.requires((u,)),
                clock.requires(()),
                placeholder.requires(()),
                self.images@.len() >= old_images.len(),
                forall|k: int| 0 <= k < old_images.len() ==> #[trigger] self.images@[k] == old_images[k],
                keys_of(fresh@).no_duplicates(),
                forall|k: int|
                    0 <= k < fresh@.len() ==> {
                        let u = (#[trigger] fresh@[k]).0@;
                        &&& u.len() > 0
                        &&& uv.contains(u)
                        &&& !keys_of(old_images).contains(u)
                        &&& (exists|j: int|
                            old_images.len() <= j < self.images@.len() && self.images@[j].0@ == u
                                && cloned(fresh@[k].1, self.images@[j].1) && fetch_gave(fetch, u, Ok(fresh@[k].1))) || (keys_of(
                            self.failed@,
                        ).contains(u) && placeholder.ensures((), fresh@[k].1) && exists|e: E| fetch_gave(fetch, u, Err(e)))
                    },
                forall|j: int|
                    old_images.len() <= j < self.images@.len() ==> keys_of(fresh@).contains(
                        #[trigger] self.images@[j].0@,
                    ),
                forall|q: int|
                    0 <= q < i && (#[trigger] uv[q]).len() > 0 && !keys_of(old_images).contains(
                        uv[q],
                    ) && !keys_of(old_failed).contains(uv[q]) ==> keys_of(fresh@).contains(uv[q]),
                forall|v: Seq<char>| #[trigger] keys_of(self.failed@).contains(v) ==> keys_of(old_failed).contains(v) || keys_of(fresh@).contains(v),
                forall|k: int, t: u64|
                    0 <= k < fresh@.len() && #[trigger] failed_at(old_failed, fresh@[k].0@, t)
                        ==> exists|now: u64| clock.ensures((), now) && !recently_failed(t, now),
                forall|v: Seq<char>, t: u64|
                    !keys_of(fresh@).contains(v) ==> (#[trigger] failed_at(self.failed@, v, t) == failed_at(old_failed, v, t)),
                forall|w: Seq<char>| keys_of(old_images).contains(w) ==> !keys_of(old_failed).contains(w),
                forall|q: int, t: u64|
                    0 <= q < i && #[trigger] failed_at(old_failed, uv[q], t) && uv[q].len() > 0 && !keys_of(fresh@).contains(uv[q])
                        ==> exists|now: u64| clock.ensures((), now) && recently_failed(t, now),
                in_order_of(pos, uv, keys_of(fresh@)),
                forall|k: int| 0 <= k < pos.len() ==> #[trigger] pos[k] < i,
                forall|k: int|
                    0 <= k < fresh@.len() && keys_of(self.failed@).contains(#[trigger] fresh@[k].0@) ==> exists|now: u64|
                        clock.ensures((), now) && failed_at(self.failed@, fresh@[k].0@, now),
            decreases urls@.len() - i,
        {
            let url = &urls[i];
            assert(uv[i as int] == url@);
            let ghost u = url@;
            let ghost fresh_before = fresh@;
            let ghost images_before = self.images@;
            let ghost failed_before = self.failed@;
            assert(keys_of(images_before).no_duplicates());
            assert(keys_of(failed_before).no_duplicates());
            assert(forall|w: Seq<char>| keys_of(images_before).contains(w) ==> !keys_of(failed_before).contains(w));
            let mut skip = url.as_str().is_empty();
            let ghost mut reading: Option<(u64, u64)> = None;
            let ghost mut stamp: Option<u64> = None;
            if !skip {
                if find(&self.images, url.as_str()).is_some() || find(&fresh, url.as_str()).is_some() {
                    skip = true;
                }
            }
            if !skip {
                match find(&self.failed, url.as_str()) {
                    Some(k) => {
                        let last_failure = self.failed[k].1;
                        let now = clock();
                        if now < last_failure || now - last_failure < RETRY_AFTER_MS {
                            skip = true;
                        }
                        proof {
                            reading = Some((last_failure, now));
                            assert(clock.ensures((), now));
                            assert(!skip ==> !recently_failed(last_failure, now));
                            assert(failed_at(failed_before, u, last_failure));
                            assert forall|t: u64| failed_at(failed_before, u, t) implies t == last_failure by {
                                let q = choose|q: int| 0 <= q < failed_before.len() && (#[trigger] failed_before[q]).0@ == u && failed_before[q].1 == t;
                                assert(keys_of(failed_before)[q] == keys_of(failed_before)[k as int]);
                            }
                        }
                    },
                    None => {
                        assert forall|t: u64| !failed_at(failed_before, u, t) by {
                            if failed_at(failed_before, u, t) {
                                let q = choose|q: int| 0 <= q < failed_before.len() && (#[trigger] failed_before[q]).0@ == u && failed_before[q].1 == t;
                                assert(keys_of(failed_before)[q] == u);
                            }
                        }
                        assert(reading is None);
                    },
                }
            }
            assert(skip ==> (u.len() == 0 || keys_of(images_before).contains(u) || keys_of(fresh_before).contains(u)
                || keys_of(failed_before).contains(u)));
            assert(skip ==> (u.len() == 0 || keys_of(images_before).contains(u) || keys_of(fresh_before).contains(u) || (
            reading is Some && clock.ensures((), reading.unwrap().1) && recently_failed(reading.unwrap().0, reading.unwrap().1)
                && forall|t: u64| #[trigger] failed_at(failed_before, u, t) ==> t == reading.unwrap().0)));
            assert(!skip ==> forall|t: u64| #[trigger] failed_at(failed_before, u, t) ==> exists|now: u64|
                clock.ensures((), now) && !recently_failed(t, now)) by {
                if !skip {
                    assert forall|t: u64| #[trigger] failed_at(failed_before, u, t) implies exists|now: u64|
                        clock.ensures((), now) && !recently_failed(t, now) by {
                        if reading is Some {
                            let (lf, now) = reading.unwrap();
                            assert(t == lf);
                            assert(clock.ensures((), now) && !recently_failed(t, now));
                        }
                    }
                }
            }
            if !skip {
                proof {
                    if keys_of(images_before).contains(u) {
                        let q = choose|q: int| 0 <= q < keys_of(images_before).len() && keys_of(images_before)[q] == u;
                    }
                    assert(!keys_of(images_before).contains(u));
                    assert(!keys_of(fresh_before).contains(u));
                    assert(!keys_of(old_images).contains(u)) by {
                        if keys_of(old_images).contains(u) {
                            let q = choose|q: int| 0 <= q < keys_of(old_images).len() && keys_of(old_images)[q] == u;
                            assert(images_before[q] == old_images[q]);
                            assert(keys_of(images_before)[q] == u);
                        }
                    }
                }
                match fetch(url.as_str()) {
                    Ok(image) => {
                        match find(&self.failed, url.as_str()) {
                            Some(k) => {
                                proof {
                                    assert(keys_of(self.failed@.remove(k as int)) =~= keys_of(self.failed@).remove(k as int));
                                    assert forall|v: Seq<char>| keys_of(self.failed@).remove(k as int).contains(v) <==> (keys_of(self.failed@).contains(v) && v != keys_of(self.failed@)[k as int]) by {
                                        lemma_remove_distinct(keys_of(self.failed@), k as int, v);
                                    }
                                    lemma_remove_distinct(keys_of(self.failed@), k as int, u);
                                }
                                let ghost pre = keys_of(self.failed@);
                                self.failed.remove(k);
                                assert(keys_of(self.failed@) =~= pre.remove(k as int));
                                assert forall|v: Seq<char>| keys_of(self.failed@).contains(v) implies keys_of(failed_before).contains(v) && v != u by {
                                    lemma_remove_distinct(pre, k as int, v);
                                }
                                assert forall|v: Seq<char>, t: u64| v != u implies #[trigger] failed_at(self.failed@, v, t) == failed_at(failed_before, v, t) by {
                                    lemma_failed_at_remove(failed_before, k as int, v, t);
                                }
                            },
                            None => {
                                assert forall|v: Seq<char>| keys_of(self.failed@).contains(v) implies keys_of(failed_before).contains(v) && v != u by {}
                                assert forall|v: Seq<char>, t: u64| v != u implies #[trigger] failed_at(self.failed@, v, t) == failed_at(failed_before, v, t) by {}
                            },
                        }
                        assert(forall|v: Seq<char>| keys_of(self.failed@).contains(v) ==> keys_of(failed_before).contains(v) && v != u);
                        assert(fetch_gave(fetch, u, Ok(image)));
                        let copy = image.clone();
                        self.images.push((url.clone(), copy));
                        fresh.push((url.clone(), image));
                        proof {
                            assert(keys_of(self.images@) =~= keys_of(images_before).push(u));
                            assert(keys_of(fresh@) =~= keys_of(fresh_before).push(u));
                            assert(!keys_of(self.failed@).contains(u));
                            assert forall|w: Seq<char>| keys_of(self.images@).contains(w) implies !keys_of(self.failed@).contains(w) by {
                                if w != u {
                                    let q = choose|q: int| 0 <= q < keys_of(self.images@).len() && keys_of(self.images@)[q] == w;
                                    assert(q < images_before.len());
                                    assert(keys_of(images_before)[q] == w);
                                    assert(keys_of(images_before).contains(w));
                                    assert(!keys_of(failed_before).contains(w));
                                }
                            }
                            let last = (fresh@.len() - 1) as int;
                            let j = (self.images@.len() - 1) as int;
                            assert(self.images@[j].0@ == u);
                            assert(fresh@[last].0@ == u);
                            assert forall|k: int| 0 <= k < fresh@.len() implies {
                                let w = (#[trigger] fresh@[k]).0@;
                                &&& w.len() > 0
                                &&& uv.contains(w)
                                &&& !keys_of(old_images).contains(w)
                                &&& (exists|j: int|
                                    old_images.len() <= j < self.images@.len() && self.images@[j].0@ == w
                                        && cloned(fresh@[k].1, self.images@[j].1) && fetch_gave(fetch, w, Ok(fresh@[k].1))) || (keys_of(
                                    self.failed@,
                                ).contains(w) && placeholder.ensures((), fresh@[k].1) && exists|e: E| fetch_gave(fetch, w, Err(e)))
                            } by {
                                if k < last {
                                    assert(fresh@[k] == fresh_before[k]);
                                    let w = fresh@[k].0@;
                                    assert(keys_of(fresh_before)[k] == w);
                                    if exists|j: int|
                                        old_images.len() <= j < images_before.len() && images_before[j].0@ == w
                                            && cloned(fresh_before[k].1, images_before[j].1) && fetch_gave(fetch, w, Ok(fresh_before[k].1)) {
                                        let j = choose|j: int|
                                            old_images.len() <= j < images_before.len() && images_before[j].0@ == w
                                                && cloned(fresh_before[k].1, images_before[j].1) && fetch_gave(fetch, w, Ok(fresh_before[k].1));
                                        assert(self.images@[j] == images_before[j]);
                                    } else {
                                        assert(keys_of(failed_before).contains(w));
                                        assert(w != u);
                                    }
                                } else {
                                    assert(cloned(fresh@[k].1, self.images@[j].1));
                                }
                            }
                            assert forall|q: int| old_images.len() <= q < self.images@.len() implies keys_of(fresh@).contains(
                                #[trigger] self.images@[q].0@) by {
                                if q < images_before.len() {
                                    assert(self.images@[q] == images_before[q]);
                                    let w = images_before[q].0@;
                                    let r = choose|r: int| 0 <= r < keys_of(fresh_before).len() && keys_of(fresh_before)[r] == w;
                                    assert(keys_of(fresh@)[r] == w);
                                } else {
                                    assert(keys_of(fresh@)[last] == u);
                                }
                            }
                            assert forall|v: Seq<char>| #[trigger] keys_of(self.failed@).contains(v) implies keys_of(old_failed).contains(v) || keys_of(fresh@).contains(v) by {
                                assert(keys_of(failed_before).contains(v));
                                if keys_of(fresh_before).contains(v) {
                                    let r = choose|r: int| 0 <= r < keys_of(fresh_before).len() && keys_of(fresh_before)[r] == v;
                                    assert(keys_of(fresh@)[r] == v);
                                }
                            }
                        }
                    },
                    Err(err) => {
                        assert(fetch_gave(fetch, u, Err(err)));
                        let now = clock();
                        match find(&self.failed, url.as_str()) {
                            Some(k) => {
                                let entry = (url.clone(), now);
                                let ghost e = entry;
                                self.failed.set(k, entry);
                                assert(keys_of(self.failed@) =~= keys_of(failed_before));
                                assert(keys_of(self.failed@)[k as int] == u);
                                assert forall|v: Seq<char>, t: u64| v != u implies #[trigger] failed_at(self.failed@, v, t) == failed_at(failed_before, v, t) by {
                                    lemma_failed_at_update(failed_before, k as int, e, v, t);
                                }
                                assert(self.failed@[k as int] == e);
                                assert(failed_at(self.failed@, u, now));
                            },
                            None => {
                                let entry = (url.clone(), now);
                                let ghost e = entry;
                                self.failed.push(entry);
                                assert(keys_of(self.failed@) =~= keys_of(failed_before).push(u));
                                assert(keys_of(self.failed@)[failed_before.len() as int] == u);
                                assert forall|v: Seq<char>, t: u64| v != u implies #[trigger] failed_at(self.failed@, v, t) == failed_at(failed_before, v, t) by {
                                    lemma_failed_at_push(failed_before, e, v, t);
                                }
                                assert(self.failed@[failed_before.len() as int] == e);
                                assert(failed_at(self.failed@, u, now));
                            },
                        }
                        proof {
                            stamp = Some(now);
                        }
                        let shown = placeholder();
                        let ghost made = shown;
                        fresh.push((url.clone(), shown));
                        proof {
                            assert(fresh@[fresh@.len() - 1].1 == made);
                            assert(uv[i as int] == u);
                            assert(keys_of(fresh@) =~= keys_of(fresh_before).push(u));
                            assert(keys_of(self.failed@).contains(u));
                            assert forall|v: Seq<char>| keys_of(self.failed@).contains(v) <==> keys_of(failed_before).contains(v) || v == u by {
                                if keys_of(self.failed@).contains(v) && v != u {
                                    let q = choose|q: int| 0 <= q < keys_of(self.failed@).len() && keys_of(self.failed@)[q] == v;
                                    assert(keys_of(failed_before)[q] == v);
                                }
                                if keys_of(failed_before).contains(v) {
                                    let q = choose|q: int| 0 <= q < keys_of(failed_before).len() && keys_of(failed_before)[q] == v;
                                    if keys_of(self.failed@).len() > q {
                                        if keys_of(self.failed@)[q] != v {
                                            assert(keys_of(self.failed@)[q] == u);
                                            assert(v == u);
                                        }
                                    }
                                }
                            }
                            let last = (fresh@.len() - 1) as int;
                            assert(fresh@[last].0@ == u);
                            assert forall|k: int| 0 <= k < fresh@.len() implies {
                                let w = (#[trigger] fresh@[k]).0@;
                                &&& w.len() > 0
                                &&& uv.contains(w)
                                &&& !keys_of(old_images).contains(w)
                                &&& (exists|j: int|
                                    old_images.len() <= j < self.images@.len() && self.images@[j].0@ == w
                                        && cloned(fresh@[k].1, self.images@[j].1) && fetch_gave(fetch, w, Ok(fresh@[k].1))) || (keys_of(
                                    self.failed@,
                                ).contains(w) && placeholder.ensures((), fresh@[k].1) && exists|e: E| fetch_gave(fetch, w, Err(e)))
                            } by {
                                if k < last {
                                    assert(fresh@[k] == fresh_before[k]);
                                    let w = fresh@[k].0@;
                                    if exists|j: int|
                                        old_images.len() <= j < images_before.len() && images_before[j].0@ == w
                                            && cloned(fresh_before[k].1, images_before[j].1) && fetch_gave(fetch, w, Ok(fresh_before[k].1)) {
                                        let j = choose|j: int|
                                            old_images.len() <= j < images_before.len() && images_before[j].0@ == w
                                                && cloned(fresh_before[k].1, images_before[j].1) && fetch_gave(fetch, w, Ok(fresh_before[k].1));
                                        assert(self.images@[j] == images_before[j]);
                                    } else {
                                        assert(keys_of(failed_before).contains(w));
                                        assert(keys_of(self.failed@).contains(w));
                                    }
                                }
                            }
                            assert forall|q: int| old_images.len() <= q < self.images@.len() implies keys_of(fresh@).contains(
                                #[trigger] self.images@[q].0@) by {
                                let w = images_before[q].0@;
                                let r = choose|r: int| 0 <= r < keys_of(fresh_before).len() && keys_of(fresh_before)[r] == w;
                                assert(keys_of(fresh@)[r] == w);
                            }
                            assert forall|w: Seq<char>| keys_of(self.images@).contains(w) implies !keys_of(self.failed@).contains(w) by {
                                assert(self.images@ == images_before);
                                assert(keys_of(images_before).contains(w));
                                assert(w != u);
                                assert(!keys_of(failed_before).contains(w));
                            }
                            assert forall|v: Seq<char>| #[trigger] keys_of(self.failed@).contains(v) implies keys_of(old_failed).contains(v) || keys_of(fresh@).contains(v) by {
                                if v == u {
                                    assert(keys_of(fresh@)[last] == u);
                                } else {
                                    assert(keys_of(failed_before).contains(v));
                                    if keys_of(fresh_before).contains(v) {
                                        let r = choose|r: int| 0 <= r < keys_of(fresh_before).len() && keys_of(fresh_before)[r] == v;
                                        assert(keys_of(fresh@)[r] == v);
                                    }
                                }
                            }
                        }
                    },
                }
            }
            assert(!skip ==> (stamp is None ==> !keys_of(self.failed@).contains(u)));
            assert(!skip ==> (stamp is Some ==> clock.ensures((), stamp.unwrap()) && failed_at(self.failed@, u, stamp.unwrap())));
            assert(!skip ==> keys_of(fresh@).contains(u)) by {
                if !skip {
                    assert(keys_of(fresh@)[fresh@.len() - 1] == u);
                }
            }
            assert(skip ==> fresh@ == fresh_before && self.failed@ == failed_before);
            assert(!skip ==> fresh@.len() == fresh_before.len() + 1 && fresh@[fresh@.len() - 1].0@ == u);
            assert(forall|k: int| 0 <= k < fresh_before.len() ==> fresh@[k] == fresh_before[k]);
            assert(!skip ==> forall|v: Seq<char>, t: u64| v != u ==> #[trigger] failed_at(self.failed@, v, t) == failed_at(failed_before, v, t));
            proof {
                assert forall|k: int, t: u64| 0 <= k < fresh@.len() && #[trigger] failed_at(old_failed, fresh@[k].0@, t)
                    implies exists|now: u64| clock.ensures((), now) && !recently_failed(t, now) by {
                    if k < fresh_before.len() {
                        assert(fresh@[k] == fresh_before[k]);
                    } else {
                        assert(fresh@[k].0@ == u);
                        if keys_of(fresh_before).contains(u) {
                            let r = choose|r: int| 0 <= r < keys_of(fresh_before).len() && keys_of(fresh_before)[r] == u;
                            assert(keys_of(fresh@)[r] == u);
                            assert(keys_of(fresh@)[k] == u);
                        }
                        assert(failed_at(failed_before, u, t));
                    }
                }
                assert forall|v: Seq<char>, t: u64| !keys_of(fresh@).contains(v) implies (#[trigger] failed_at(self.failed@, v, t) == failed_at(old_failed, v, t)) by {
                    if !keys_of(fresh_before).contains(v) {
                    } else {
                        let r = choose|r: int| 0 <= r < keys_of(fresh_before).len() && keys_of(fresh_before)[r] == v;
                        assert(keys_of(fresh@)[r] == v);
                    }
                    if !skip {
                        assert(v != u);
                    }
                }
            }
            proof {
                assert forall|q: int|
                    0 <= q < i + 1 && (#[trigger] uv[q]).len() > 0 && !keys_of(old_images).contains(
                        uv[q],
                    ) && !keys_of(old_failed).contains(uv[q]) implies keys_of(fresh@).contains(uv[q]) by {
                    if q < i {
                        if keys_of(fresh_before).contains(uv[q]) {
                            let r = choose|r: int| 0 <= r < keys_of(fresh_before).len() && keys_of(fresh_before)[r] == uv[q];
                            assert(fresh@[r] == fresh_before[r]);
                            assert(keys_of(fresh@)[r] == uv[q]);
                        }
                    } else {
                        assert(uv[q] == u);
                        if keys_of(images_before).contains(u) {
                            let r = choose|r: int| 0 <= r < keys_of(images_before).len() && keys_of(images_before)[r] == u;
                            if r < old_images.len() {
                                assert(images_before[r] == old_images[r]);
                                assert(keys_of(old_images)[r] == u);
                            } else {
                                assert(keys_of(fresh_before).contains(images_before[r].0@));
                            }
                        }
                        if keys_of(fresh_before).contains(u) {
                            let r = choose|r: int| 0 <= r < keys_of(fresh_before).len() && keys_of(fresh_before)[r] == u;
                            assert(fresh@[r] == fresh_before[r]);
                            assert(keys_of(fresh@)[r] == u);
                        }
                        if keys_of(failed_before).contains(u) {
                            assert(keys_of(old_failed).contains(u) || keys_of(fresh_before).contains(u));
                        }
                    }
                }
            }
            let ghost pos_before = pos;
            proof {
                if !skip {
                    pos = pos.push(i as int);
                    assert(keys_of(fresh@) =~= keys_of(fresh_before).push(u));
                    assert forall|a: int, b: int| 0 <= a < b < pos.len() implies #[trigger] pos[a] < #[trigger] pos[b] by {
                        if b < pos_before.len() {
                            assert(pos[a] == pos_before[a] && pos[b] == pos_before[b]);
                        } else {
                            assert(pos[a] == pos_before[a]);
                        }
                    }
                    assert forall|k: int| 0 <= k < pos.len() implies 0 <= #[trigger] pos[k] < uv.len() && uv[pos[k]]
                        == keys_of(fresh@)[k] by {
                        if k < pos_before.len() {
                            assert(pos[k] == pos_before[k]);
                            assert(keys_of(fresh@)[k] == keys_of(fresh_before)[k]);
                        }
                    }
                } else {
                    assert(keys_of(fresh@) =~= keys_of(fresh_before));
                }
                assert forall|q: int, t: u64|
                    0 <= q < i + 1 && #[trigger] failed_at(old_failed, uv[q], t) && uv[q].len() > 0 && !keys_of(fresh@).contains(uv[q])
                        implies exists|now: u64| clock.ensures((), now) && recently_failed(t, now) by {
                    let w = uv[q];
                    if keys_of(fresh_before).contains(w) {
                        let r = choose|r: int| 0 <= r < keys_of(fresh_before).len() && keys_of(fresh_before)[r] == w;
                        assert(fresh@[r] == fresh_before[r]);
                        assert(keys_of(fresh@)[r] == w);
                    }
                    if q == i {
                        assert(w == u);
                        assert(skip);
                        assert(failed_at(failed_before, u, t));
                        assert(keys_of(old_failed).contains(u)) by {
                            let x = choose|x: int| 0 <= x < old_failed.len() && (#[trigger] old_failed[x]).0@ == u && old_failed[x].1 == t;
                            assert(keys_of(old_failed)[x] == u);
                        }
                        if keys_of(images_before).contains(u) {
                            let r = choose|r: int| 0 <= r < keys_of(images_before).len() && keys_of(images_before)[r] == u;
                            if r < old_images.len() {
                                assert(images_before[r] == old_images[r]);
                                assert(keys_of(old_images)[r] == u);
                            } else {
                                assert(keys_of(fresh_before).contains(images_before[r].0@));
                            }
                        }
                        let (lf, now) = reading.unwrap();
                        assert(t == lf);
                        assert(clock.ensures((), now) && recently_failed(t, now));
                    }
                }
            }
            proof {
                assert forall|k: int|
                    0 <= k < fresh@.len() && keys_of(self.failed@).contains(#[trigger] fresh@[k].0@) implies exists|now: u64|
                        clock.ensures((), now) && failed_at(self.failed@, fresh@[k].0@, now) by {
                    let w = fresh@[k].0@;
                    if k < fresh_before.len() {
                        assert(fresh@[k] == fresh_before[k]);
                        if !skip {
                            assert(keys_of(fresh_before)[k] == w);
                            assert(w != u);
                            lemma_failed_at_keys(self.failed@, w);
                            lemma_failed_at_keys(failed_before, w);
                            let t0 = choose|t: u64| failed_at(self.failed@, w, t);
                            assert(failed_at(failed_before, w, t0));
                            let now = choose|now: u64| clock.ensures((), now) && failed_at(failed_before, w, now);
                            assert(failed_at(self.failed@, w, now));
                        }
                    } else {
                        assert(!skip && w == u);
                        let now = stamp.unwrap();
                        assert(failed_at(self.failed@, w, now));
                    }
                }
            }
            i = i + 1;
        }
        proof {
            assert(uv.len() == i);
            assert forall|w: Seq<char>, t: u64|
                #[trigger] failed_at(old_failed, w, t) && w.len() > 0 && uv.contains(w) && !keys_of(fresh@).contains(w)
                    implies exists|now: u64| clock.ensures((), now) && recently_failed(t, now) by {
                let q = choose|q: int| 0 <= q < uv.len() && uv[q] == w;
                assert(failed_at(old_failed, uv[q], t));
            }
        }
        fresh
    }
}

} // verus!
