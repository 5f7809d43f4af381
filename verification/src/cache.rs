//! The cache of fetched lists: what is known of each list. The lists
//! themselves stand in files of their own.
use vstd::prelude::*;
use vstd::slice::slice_subrange;
use vstd::string::StringSliceAdditionalSpecFns;
use crate::dns;
use crate::number;
use crate::text;

verus! {

// ---------------------------------------------------------------------------
// Entries
// ---------------------------------------------------------------------------

/// What is known of a cached list.
#[derive(Debug, PartialEq, Eq)]
pub struct CachedList {
    /// When it was fetched, in seconds since the first day of 1970.
    pub fetched_at: u64,
    /// The tag that the server gave it.
    pub etag: Option<String>,
    /// The file that it stands in, in the directory of list bodies.
    pub filename: String,
}

/// What is known of a cached list, as a mathematical value.
#[verifier::ext_equal]
pub struct Entry {
    pub fetched_at: u64,
    pub etag: Option<Seq<char>>,
    pub filename: Seq<char>,
}

impl View for CachedList {
    type V = Entry;

    open spec fn view(&self) -> Entry {
        Entry {
            fetched_at: self.fetched_at,
            etag: dns::opt_view(self.etag),
            filename: self.filename@,
        }
    }
}

impl Clone for CachedList {
    fn clone(&self) -> (r: Self)
        ensures
            r@ == self@,
    {
        CachedList {
            fetched_at: self.fetched_at,
            etag: match &self.etag {
                Some(t) => Some(t.clone()),
                None => None,
            },
            filename: self.filename.clone(),
        }
    }
}

/// A list's address and what is known of the list.
#[derive(Debug, PartialEq, Eq)]
pub struct CacheItem {
    pub url: String,
    pub entry: CachedList,
}

impl View for CacheItem {
    type V = (Seq<char>, Entry);

    open spec fn view(&self) -> (Seq<char>, Entry) {
        (self.url@, self.entry@)
    }
}

/// Views of items.
pub open spec fn items_view(v: Seq<CacheItem>) -> Seq<(Seq<char>, Entry)> {
    v.map_values(|i: CacheItem| i@)
}

/// No address occurs twice.
pub open spec fn distinct(v: Seq<(Seq<char>, Entry)>) -> bool {
    forall|i: int, j: int|
        0 <= i < j < v.len() ==> (#[trigger] v[i]).0 != (#[trigger] v[j]).0
}

/// The place of an address, or the number of addresses where it is not there.
pub open spec fn url_place(v: Seq<(Seq<char>, Entry)>, url: Seq<char>) -> int
    decreases v.len(),
{
    if v.len() == 0 || v[0].0 == url {
        0
    } else {
        1 + url_place(v.drop_first(), url)
    }
}

/// What is known of the list at an address.
pub open spec fn lookup(v: Seq<(Seq<char>, Entry)>, url: Seq<char>) -> Option<Entry> {
    let i = url_place(v, url);
    if i < v.len() {
        Some(v[i].1)
    } else {
        None
    }
}

/// The items with what is known of the list at an address put in: in the place of
/// what was known of it, or at the end.
pub open spec fn stored(
    v: Seq<(Seq<char>, Entry)>,
    url: Seq<char>,
    entry: Entry,
) -> Seq<(Seq<char>, Entry)> {
    let i = url_place(v, url);
    if i < v.len() {
        v.update(i, (url, entry))
    } else {
        v.push((url, entry))
    }
}

proof fn lemma_url_place(v: Seq<(Seq<char>, Entry)>, url: Seq<char>, n: int)
    requires
        0 <= n <= v.len(),
        forall|j: int| 0 <= j < n ==> (#[trigger] v[j]).0 != url,
        n == v.len() || v[n].0 == url,
    ensures
        url_place(v, url) == n,
    decreases v.len(),
{
    if n > 0 {
        assert(v[0].0 != url);
        assert forall|j: int| 0 <= j < n - 1 implies (#[trigger] v.drop_first()[j]).0 != url by {
            assert(v.drop_first()[j] == v[j + 1]);
        }
        lemma_url_place(v.drop_first(), url, n - 1);
    }
}

proof fn lemma_url_place_bounds(v: Seq<(Seq<char>, Entry)>, url: Seq<char>)
    ensures
        0 <= url_place(v, url) <= v.len(),
        url_place(v, url) < v.len() ==> v[url_place(v, url)].0 == url,
        forall|j: int| 0 <= j < url_place(v, url) ==> (#[trigger] v[j]).0 != url,
    decreases v.len(),
{
    if v.len() > 0 && v[0].0 != url {
        lemma_url_place_bounds(v.drop_first(), url);
        assert forall|j: int| 0 <= j < url_place(v, url) implies (#[trigger] v[j]).0 != url by {
            if j > 0 {
                assert(v[j] == v.drop_first()[j - 1]);
            }
        }
    }
}

/// Putting an item in keeps addresses from occurring twice.
proof fn lemma_stored_distinct(v: Seq<(Seq<char>, Entry)>, url: Seq<char>, entry: Entry)
    requires
        distinct(v),
    ensures
        distinct(stored(v, url, entry)),
{
    lemma_url_place_bounds(v, url);
    let s = stored(v, url, entry);
    assert forall|i: int, j: int| 0 <= i < j < s.len() implies (#[trigger] s[i]).0 != (#[trigger]
    s[j]).0 by {
        if j < v.len() {
            assert(v[i].0 != v[j].0);
        }
    }
}

/// Cached lists by address; no address occurs twice.
#[derive(Debug)]
pub struct CacheMap {
    items: Vec<CacheItem>,
}

impl View for CacheMap {
    type V = Seq<(Seq<char>, Entry)>;

    closed spec fn view(&self) -> Seq<(Seq<char>, Entry)> {
        items_view(self.items@)
    }
}

impl CacheMap {
    #[verifier::type_invariant]
    spec fn well_formed(self) -> bool {
        distinct(items_view(self.items@))
    }

    /// No lists.
    pub fn new() -> (r: Self)
        ensures
            r@ == Seq::<(Seq<char>, Entry)>::empty(),
    {
        let items: Vec<CacheItem> = Vec::new();
        assert(items_view(items@) =~= Seq::empty());
        CacheMap { items }
    }

    /// How many lists there are.
    pub fn len(&self) -> (r: usize)
        ensures
            r == self@.len(),
    {
        self.items.len()
    }

    /// The lists with their addresses.
    pub fn items(&self) -> (r: &[CacheItem])
        ensures
            items_view(r@) == self@,
            distinct(self@),
    {
        proof {
            use_type_invariant(self);
        }
        self.items.as_slice()
    }

    /// The place of an address, or the number of addresses where it is not
    /// there.
    fn find(&self, url: &str) -> (r: usize)
        ensures
            r == url_place(self@, url@),
            r <= self.items@.len(),
    {
        let ghost all = items_view(self.items@);
        let mut i: usize = 0;
        while i < self.items.len() && !text::same_text(self.items[i].url.as_str(), url)
            invariant
                i <= self.items@.len(),
                all == items_view(self.items@),
                forall|j: int| 0 <= j < i ==> (#[trigger] all[j]).0 != url@,
            decreases self.items@.len() - i,
        {
            assert(all[i as int].0 == self.items@[i as int].url@);
            i = i + 1;
        }
        proof {
            if i < self.items@.len() {
                assert(all[i as int].0 == self.items@[i as int].url@);
            }
            lemma_url_place(all, url@, i as int);
        }
        i
    }

    /// What is known of the list at an address.
    pub fn get(&self, url: &str) -> (r: Option<&CachedList>)
        ensures
            match r {
                Some(e) => lookup(self@, url@) == Some(e@),
                None => lookup(self@, url@) is None,
            },
    {
        let i = self.find(url);
        if i < self.items.len() {
            assert(items_view(self.items@)[i as int] == self.items@[i as int]@);
            Some(&self.items[i].entry)
        } else {
            None
        }
    }

    /// Whether something is known of the list at an address.
    pub fn contains_key(&self, url: &str) -> (r: bool)
        ensures
            r == (lookup(self@, url@) is Some),
    {
        self.get(url).is_some()
    }

    /// Puts in what is known of the list at an address.
    pub fn insert(&mut self, url: String, entry: CachedList)
        ensures
            final(self)@ == stored(old(self)@, url@, entry@),
    {
        proof {
            use_type_invariant(&*self);
        }
        let ghost before = self@;
        let ghost u = url@;
        let ghost e = entry@;
        proof {
            lemma_stored_distinct(before, u, e);
        }
        let i = self.find(url.as_str());
        let mut items: Vec<CacheItem> = Vec::new();
        assert(items_view(items@) =~= Seq::empty());
        std::mem::swap(&mut self.items, &mut items);
        if i < items.len() {
            items.set(i, CacheItem { url, entry });
            assert(items_view(items@) =~= before.update(i as int, (u, e)));
        } else {
            items.push(CacheItem { url, entry });
            assert(items_view(items@) =~= before.push((u, e)));
        }
        self.items = items;
    }
}

// ---------------------------------------------------------------------------
// The cache
// ---------------------------------------------------------------------------

/// The cached lists, and whether they changed since they were saved.
#[derive(Debug)]
pub struct CachedLists {
    pub map: CacheMap,
    pub dirty: bool,
}

/// Whether a list fetched at one time is fresh at another: less than `interval`
/// seconds have passed. A list fetched later than now counts as fetched now.
pub open spec fn is_fresh(fetched_at: u64, now: u64, interval: u64) -> bool {
    (if now > fetched_at {
        now - fetched_at
    } else {
        0
    }) < interval
}

/// Whether an address is among those to keep.
pub open spec fn is_kept(url: Seq<char>, keep: Seq<Seq<char>>) -> bool {
    exists|i: int| 0 <= i < keep.len() && #[trigger] keep[i] == url
}

/// The items whose addresses are to be kept, in order.
pub open spec fn pruned(v: Seq<(Seq<char>, Entry)>, keep: Seq<Seq<char>>) -> Seq<
    (Seq<char>, Entry),
>
    decreases v.len(),
{
    if v.len() == 0 {
        Seq::empty()
    } else if is_kept(v.last().0, keep) {
        pruned(v.drop_last(), keep).push(v.last())
    } else {
        pruned(v.drop_last(), keep)
    }
}

/// The files of the items whose addresses are not to be kept, in order.
pub open spec fn dropped_files(v: Seq<(Seq<char>, Entry)>, keep: Seq<Seq<char>>) -> Seq<Seq<char>>
    decreases v.len(),
{
    if v.len() == 0 {
        Seq::empty()
    } else if is_kept(v.last().0, keep) {
        dropped_files(v.drop_last(), keep)
    } else {
        dropped_files(v.drop_last(), keep).push(v.last().1.filename)
    }
}

/// Whether an address is among those to keep.
fn keeps(keep: &[String], url: &str) -> (r: bool)
    ensures
        r == is_kept(url@, text::texts(keep@)),
{
    let ghost all = text::texts(keep@);
    for i in 0..keep.len()
        invariant
            all == text::texts(keep@),
            forall|j: int| 0 <= j < i ==> #[trigger] all[j] != url@,
    {
        assert(all[i as int] == keep@[i as int]@);
        if text::same_text(keep[i].as_str(), url) {
            return true;
        }
    }
    false
}

proof fn lemma_pruned(v: Seq<(Seq<char>, Entry)>, keep: Seq<Seq<char>>, n: int)
    requires
        0 <= n <= v.len(),
        distinct(v),
    ensures
        forall|i: int|
            0 <= i < pruned(v.take(n), keep).len() ==> exists|k: int|
                0 <= k < n && v[k] == #[trigger] pruned(v.take(n), keep)[i],
        distinct(pruned(v.take(n), keep)),
        pruned(v.take(n), keep).len() + dropped_files(v.take(n), keep).len() == n,
    decreases n,
{
    if n > 0 {
        lemma_pruned(v, keep, n - 1);
        let p = pruned(v.take(n - 1), keep);
        assert(v.take(n).drop_last() =~= v.take(n - 1));
        let q = pruned(v.take(n), keep);
        assert forall|i: int| 0 <= i < q.len() implies exists|k: int|
            0 <= k < n && v[k] == #[trigger] q[i] by {
            if i < p.len() {
                assert(q[i] == p[i]);
                let k = choose|k: int| 0 <= k < n - 1 && v[k] == p[i];
                assert(v[k] == q[i]);
            } else {
                assert(v[n - 1] == q[i]);
            }
        }
        assert forall|i: int, j: int| 0 <= i < j < q.len() implies (#[trigger] q[i]).0 != (
        #[trigger] q[j]).0 by {
            if j < p.len() {
                assert(p[i].0 != p[j].0);
            } else {
                assert(q[i] == p[i]);
                let k = choose|k: int| 0 <= k < n - 1 && v[k] == p[i];
                assert(v[k].0 != v[n - 1].0);
            }
        }
    }
}

impl CacheMap {
    /// Keeps the lists whose addresses are given and gives the files of the
    /// others.
    fn retain(&mut self, keep: &[String]) -> (r: Vec<String>)
        ensures
            final(self)@ == pruned(old(self)@, text::texts(keep@)),
            text::texts(r@) == dropped_files(old(self)@, text::texts(keep@)),
            final(self)@.len() + r@.len() == old(self)@.len(),
    {
        proof {
            use_type_invariant(&*self);
        }
        let ghost all = self@;
        let ghost urls = text::texts(keep@);
        let mut kept: Vec<CacheItem> = Vec::new();
        let mut files: Vec<String> = Vec::new();
        assert(items_view(kept@) =~= Seq::empty());
        assert(text::texts(files@) =~= Seq::empty());
        for i in 0..self.items.len()
            invariant
                all == items_view(self.items@),
                urls == text::texts(keep@),
                items_view(kept@) == pruned(all.take(i as int), urls),
                text::texts(files@) == dropped_files(all.take(i as int), urls),
        {
            assert(all.take(i + 1).drop_last() =~= all.take(i as int));
            assert(all[i as int] == self.items@[i as int]@);
            if keeps(keep, self.items[i].url.as_str()) {
                let ghost before = kept@;
                kept.push(
                    CacheItem {
                        url: self.items[i].url.clone(),
                        entry: self.items[i].entry.clone(),
                    },
                );
                assert(items_view(kept@) =~= items_view(before).push(all[i as int]));
            } else {
                let ghost before = files@;
                files.push(self.items[i].entry.filename.clone());
                assert(text::texts(files@) =~= text::texts(before).push(
                    all[i as int].1.filename,
                ));
            }
        }
        proof {
            lemma_pruned(all, urls, all.len() as int);
            assert(all.take(all.len() as int) =~= all);
            assert(text::texts(files@).len() == files@.len());
            assert(items_view(kept@).len() == kept@.len());
        }
        self.items = kept;
        files
    }
}

impl CachedLists {
    /// No lists, and nothing to save.
    pub fn new() -> (r: Self)
        ensures
            r.map@ == Seq::<(Seq<char>, Entry)>::empty(),
            !r.dirty,
    {
        CachedLists { map: CacheMap::new(), dirty: false }
    }

    /// The file to read a list from, where it is known and fresh.
    pub fn get_if_fresh(&self, url: &str, interval_secs: u64, now: u64) -> (r: Option<String>)
        ensures
            match lookup(self.map@, url@) {
                Some(e) if is_fresh(e.fetched_at, now, interval_secs) => r matches Some(f) && f@
                    == e.filename,
                _ => r is None,
            },
    {
        match self.map.get(url) {
            Some(e) => if now.saturating_sub(e.fetched_at) < interval_secs {
                Some(e.filename.clone())
            } else {
                None
            },
            None => None,
        }
    }

    /// Puts in what is known of a list that was fetched.
    pub fn record(&mut self, url: String, entry: CachedList)
        ensures
            final(self).map@ == stored(old(self).map@, url@, entry@),
            final(self).dirty,
    {
        self.map.insert(url, entry);
        self.dirty = true;
    }

    /// Drops the lists whose addresses are not given, and gives the files that
    /// are then to be deleted.
    pub fn prune(&mut self, keep_urls: &[String]) -> (r: Vec<String>)
        ensures
            final(self).map@ == pruned(old(self).map@, text::texts(keep_urls@)),
            text::texts(r@) == dropped_files(old(self).map@, text::texts(keep_urls@)),
            final(self).dirty == (old(self).dirty || final(self).map@.len() < old(
                self,
            ).map@.len()),
    {
        let files = self.map.retain(keep_urls);
        if files.len() > 0 {
            self.dirty = true;
        }
        files
    }

    /// Whether there is something to save. From then on it counts as saved.
    pub fn start_save(&mut self) -> (r: bool)
        ensures
            r == old(self).dirty,
            !final(self).dirty,
            final(self).map@ == old(self).map@,
    {
        let r = self.dirty;
        self.dirty = false;
        r
    }
}

impl Default for CachedLists {
    fn default() -> (r: Self)
        ensures
            r.map@ == Seq::<(Seq<char>, Entry)>::empty(),
            !r.dirty,
    {
        CachedLists::new()
    }
}

// ---------------------------------------------------------------------------
// Files
// ---------------------------------------------------------------------------

/// The longest readable part of a file name.
pub const READABLE: usize = 100;

/// Start value of the FNV-1a hash.
pub const FNV_START: u64 = 0xcbf2_9ce4_8422_2325;

/// Multiplier of the FNV-1a hash.
pub const FNV_PRIME: u64 = 0x0000_0100_0000_01b3;

/// The FNV-1a hash of a run of bytes.
pub open spec fn fnv1a(bytes: Seq<u8>) -> u64
    decreases bytes.len(),
{
    if bytes.len() == 0 {
        FNV_START
    } else {
        ((fnv1a(bytes.drop_last()) ^ (bytes.last() as u64)) * FNV_PRIME
            % 0x1_0000_0000_0000_0000) as u64
    }
}

/// Whether a character can stand in a file name everywhere.
pub open spec fn is_safe(c: char) -> bool {
    ||| 'a' <= c && c <= 'z'
    ||| 'A' <= c && c <= 'Z'
    ||| '0' <= c && c <= '9'
    ||| c == '.'
    ||| c == '_'
    ||| c == '-'
}

/// The character, or `_` where it cannot stand in a file name everywhere.
pub open spec fn made_safe(c: char) -> char {
    if is_safe(c) {
        c
    } else {
        '_'
    }
}

/// An address without its scheme.
pub open spec fn without_scheme(url: Seq<char>) -> Seq<char> {
    if "https://"@.is_prefix_of(url) {
        url.skip("https://"@.len() as int)
    } else if "http://"@.is_prefix_of(url) {
        url.skip("http://"@.len() as int)
    } else {
        url
    }
}

/// The first characters of a text.
pub open spec fn cut(s: Seq<char>, n: int) -> Seq<char> {
    if s.len() > n {
        s.take(n)
    } else {
        s
    }
}

/// The file name for an address: a readable part, then a hash of the whole
/// address, so that addresses that begin alike differ.
pub open spec fn file_name(url: Seq<char>) -> Seq<char> {
    cut(without_scheme(url), READABLE as int).map_values(|c: char| made_safe(c)) + "_"@
        + number::hex(fnv1a(vstd::utf8::encode_utf8(url)) as int, 16) + ".txt"@
}

/// The FNV-1a hash of a run of bytes.
fn hash_bytes(bytes: &[u8]) -> (r: u64)
    ensures
        r == fnv1a(bytes@),
{
    let mut h: u64 = FNV_START;
    for i in 0..bytes.len()
        invariant
            h == fnv1a(bytes@.take(i as int)),
    {
        assert(bytes@.take(i + 1).drop_last() =~= bytes@.take(i as int));
        h = (h ^ (bytes[i] as u64)).wrapping_mul(FNV_PRIME);
    }
    assert(bytes@.take(bytes@.len() as int) =~= bytes@);
    h
}

/// Whether a character can stand in a file name everywhere.
fn is_safe_char(c: char) -> (r: bool)
    ensures
        r == is_safe(c),
{
    ('a' <= c && c <= 'z') || ('A' <= c && c <= 'Z') || ('0' <= c && c <= '9') || c == '.' || c
        == '_' || c == '-'
}

/// The file name for an address.
pub fn url_to_filename(url: &str) -> (r: String)
    ensures
        r@ == file_name(url@),
{
    let chars = text::chars_of(url);
    let secure = text::chars_of("https://");
    let plain = text::chars_of("http://");
    let rest: &[char] = if text::starts_with(&chars, &secure) {
        slice_subrange(&chars, secure.len(), chars.len())
    } else if text::starts_with(&chars, &plain) {
        slice_subrange(&chars, plain.len(), chars.len())
    } else {
        &chars
    };
    assert(rest@ =~= without_scheme(url@));
    let n: usize = if rest.len() > READABLE {
        READABLE
    } else {
        rest.len()
    };
    let ghost readable = cut(rest@, READABLE as int);
    assert(readable =~= rest@.take(n as int));
    let mut name = String::new();
    assert(name@ =~= readable.take(0).map_values(|c: char| made_safe(c)));
    for i in 0..n
        invariant
            n <= rest@.len(),
            readable == rest@.take(n as int),
            name@ == readable.take(i as int).map_values(|c: char| made_safe(c)),
    {
        let c: char = rest[i];
        name.push(
            if is_safe_char(c) {
                c
            } else {
                '_'
            },
        );
        assert(name@ =~= readable.take(i + 1).map_values(|c: char| made_safe(c)));
    }
    assert(readable.take(n as int) =~= readable);
    name.append("_");
    name.append(number::to_hex(hash_bytes(url.as_bytes()), 16).as_str());
    name.append(".txt");
    name
}

/// The path without its last component, as `Path::parent` gives it on Linux,
/// the one system that this library is for.
pub uninterp spec fn path_parent(path: Seq<char>) -> Option<Seq<char>>;

/// A name that is one component of a path.
pub open spec fn plain_name(name: Seq<char>) -> bool {
    name.len() > 0 && name[0] != '.' && all_safe(name)
}

/// A directory whose path has no component that is empty or `.`, and does not
/// end in a slash or a dot.
pub open spec fn plain_dir(dir: Seq<char>) -> bool {
    &&& dir.len() > 0
    &&& forall|i: int| 0 <= i < dir.len() ==> is_safe(#[trigger] dir[i]) || dir[i] == '/'
    &&& dir.last() != '/' && dir.last() != '.'
    &&& forall|i: int|
        0 <= i < dir.len() - 1 && #[trigger] dir[i] == '/' ==> dir[i + 1] != '/' && (dir[i + 1]
            == '.' ==> dir[i + 2] != '/')
    &&& dir[0] == '.' ==> dir[1] != '/'
}

/// Calls `Path::parent`: the path without its last component, and `None` for
/// the empty path and for a root. Stated are those two, a name alone, a name in
/// the root, and a name in another directory; what is given for a path with
/// components that are empty or `.` is left to the name `path_parent`.
#[verifier::external_body]
fn parent_of(path: &str) -> (r: Option<String>)
    ensures
        dns::opt_view(r) == path_parent(path@),
        path@.len() == 0 || path@ == seq!['/'] ==> r is None,
        plain_name(path@) ==> dns::opt_view(r) == Some(Seq::<char>::empty()),
        path@.len() > 0 && path@[0] == '/' && plain_name(path@.skip(1)) ==> dns::opt_view(r)
            == Some(seq!['/']),
        forall|dir: Seq<char>, name: Seq<char>|
            #![trigger plain_dir(dir), plain_name(name)]
            plain_dir(dir) && plain_name(name) && path@ == dir.push('/') + name ==> dns::opt_view(r)
                == Some(dir),
{
    match std::path::Path::new(path).parent() {
        Some(p) => Some(p.to_string_lossy().into_owned()),
        None => None,
    }
}

/// The path of a name in a directory. A name that begins at the root stands for
/// itself.
pub open spec fn in_dir(dir: Seq<char>, name: Seq<char>) -> Seq<char> {
    if name.len() > 0 && name[0] == '/' {
        name
    } else if dir.len() == 0 || dir.last() == '/' {
        dir + name
    } else {
        dir.push('/') + name
    }
}

/// The path of a name in a directory.
fn join_path(dir: &str, name: &str) -> (r: String)
    ensures
        r@ == in_dir(dir@, name@),
{
    let chars = text::chars_of(dir);
    let tail = text::chars_of(name);
    let n: usize = chars.len();
    if tail.len() > 0 && tail[0] == '/' {
        return name.to_owned();
    }
    let mut s = dir.to_owned();
    if n > 0 && chars[n - 1] != '/' {
        s.push('/');
    }
    s.append(name);
    s
}

/// The directory of list bodies: `cache.d` beside the file of the cache.
pub open spec fn bodies_path(cache_path: Seq<char>) -> Seq<char> {
    in_dir(
        match path_parent(cache_path) {
            Some(dir) => dir,
            None => "."@,
        },
        "cache.d"@,
    )
}

/// The directory of list bodies: `cache.d` beside the file of the cache.
pub fn bodies_dir(cache_path: &str) -> (r: String)
    ensures
        r@ == bodies_path(cache_path@),
        cache_path@.len() == 0 || cache_path@ == seq!['/'] ==> r@ == "./cache.d"@,
        plain_name(cache_path@) ==> r@ == "cache.d"@,
        cache_path@.len() > 0 && cache_path@[0] == '/' && plain_name(cache_path@.skip(1)) ==> r@
            == "/cache.d"@,
        forall|dir: Seq<char>, name: Seq<char>|
            #![trigger plain_dir(dir), plain_name(name)]
            plain_dir(dir) && plain_name(name) && cache_path@ == dir.push('/') + name ==> r@ == dir
                + "/cache.d"@,
{
    proof {
        reveal_strlit(".");
        reveal_strlit("cache.d");
        reveal_strlit("/cache.d");
        reveal_strlit("./cache.d");
        assert("./cache.d"@ =~= "."@.push('/') + "cache.d"@);
        assert("/cache.d"@ =~= seq!['/'] + "cache.d"@);
    }
    bodies_dir_in(parent_of(cache_path))
}

/// The directory of list bodies, from the directory of the cache.
pub fn bodies_dir_in(parent: Option<String>) -> (r: String)
    ensures
        r@ == in_dir(
            match parent {
                Some(dir) => dir@,
                None => "."@,
            },
            "cache.d"@,
        ),
        parent matches Some(dir) ==> dir@.len() > 0 && dir@.last() != '/' ==> r@ == dir@
            + "/cache.d"@,
        parent matches Some(dir) ==> dir@.len() == 0 ==> r@ == "cache.d"@,
{
    match parent {
        Some(dir) => {
            let r = join_path(dir.as_str(), "cache.d");
            proof {
                reveal_strlit("cache.d");
                reveal_strlit("/cache.d");
                assert("/cache.d"@ =~= seq!['/'] + "cache.d"@);
                assert(dir@.push('/') + "cache.d"@ =~= dir@ + "/cache.d"@);
                assert(dir@.len() == 0 ==> dir@ + "cache.d"@ =~= "cache.d"@);
            }
            r
        },
        None => join_path(".", "cache.d"),
    }
}

/// The path of a list body.
pub fn body_path(cache_path: &str, filename: &str) -> (r: String)
    ensures
        r@ == in_dir(bodies_path(cache_path@), filename@),
{
    join_path(bodies_dir(cache_path).as_str(), filename)
}

// ---------------------------------------------------------------------------
// What the cache promises
// ---------------------------------------------------------------------------

/// What was put in is found, and nothing else changes.
pub proof fn law_stored_is_found(
    v: Seq<(Seq<char>, Entry)>,
    url: Seq<char>,
    entry: Entry,
    other: Seq<char>,
)
    ensures
        lookup(stored(v, url, entry), url) == Some(entry),
        other != url ==> lookup(stored(v, url, entry), other) == lookup(v, other),
{
    let s = stored(v, url, entry);
    let i = url_place(v, url);
    let o = url_place(v, other);
    lemma_url_place_bounds(v, url);
    lemma_url_place_bounds(v, other);
    assert forall|j: int| 0 <= j < i implies (#[trigger] s[j]).0 != url by {
        assert(v[j].0 != url);
    }
    lemma_url_place(s, url, i);
    if other != url {
        assert forall|j: int| 0 <= j < o implies (#[trigger] s[j]).0 != other by {
            if j < v.len() {
                assert(v[j].0 != other);
            }
        }
        if o < v.len() {
            lemma_url_place(s, other, o);
        } else {
            lemma_url_place(s, other, s.len() as int);
        }
    }
}

/// After pruning exactly the lists to keep are found, as they were.
pub proof fn law_prune(v: Seq<(Seq<char>, Entry)>, keep: Seq<Seq<char>>, url: Seq<char>)
    requires
        distinct(v),
    ensures
        lookup(pruned(v, keep), url) == if is_kept(url, keep) {
            lookup(v, url)
        } else {
            None
        },
    decreases v.len(),
{
    if v.len() > 0 {
        let front = v.drop_last();
        let x = v.last();
        assert(distinct(front)) by {
            assert forall|i: int, j: int| 0 <= i < j < front.len() implies (#[trigger] front[i]).0
                != (#[trigger] front[j]).0 by {
                assert(v[i].0 != v[j].0);
            }
        }
        law_prune(front, keep, url);
        let p = pruned(front, keep);
        assert(v =~= front.push(x));
        lemma_lookup_push(front, x, url);
        lemma_lookup_push(p, x, url);
        if x.0 == url {
            lemma_url_place_bounds(front, url);
            if url_place(front, url) < front.len() {
                assert(v[url_place(front, url)].0 != v[v.len() - 1].0);
            }
        }
    }
}

proof fn lemma_lookup_push(
    v: Seq<(Seq<char>, Entry)>,
    x: (Seq<char>, Entry),
    url: Seq<char>,
)
    ensures
        lookup(v.push(x), url) == match lookup(v, url) {
            Some(e) => Some(e),
            None => if x.0 == url {
                Some(x.1)
            } else {
                None
            },
        },
{
    lemma_url_place_bounds(v, url);
    let i = url_place(v, url);
    let w = v.push(x);
    assert forall|j: int| 0 <= j < i implies (#[trigger] w[j]).0 != url by {
        assert(v[j].0 != url);
    }
    if i < v.len() {
        lemma_url_place(w, url, i);
    } else if x.0 == url {
        lemma_url_place(w, url, i);
    } else {
        lemma_url_place(w, url, w.len() as int);
    }
}

/// Pruning twice with the same addresses drops nothing more.
pub proof fn law_prune_again(v: Seq<(Seq<char>, Entry)>, keep: Seq<Seq<char>>)
    ensures
        pruned(pruned(v, keep), keep) == pruned(v, keep),
        dropped_files(pruned(v, keep), keep).len() == 0,
    decreases v.len(),
{
    if v.len() > 0 {
        law_prune_again(v.drop_last(), keep);
        if is_kept(v.last().0, keep) {
            assert(pruned(v, keep).drop_last() =~= pruned(v.drop_last(), keep));
        }
    }
}

/// Whether a text can stand in a file name everywhere.
pub open spec fn all_safe(s: Seq<char>) -> bool {
    forall|i: int| 0 <= i < s.len() ==> is_safe(#[trigger] s[i])
}

proof fn lemma_safe_concat(a: Seq<char>, b: Seq<char>)
    requires
        all_safe(a),
        all_safe(b),
    ensures
        all_safe(a + b),
{
    assert forall|i: int| 0 <= i < (a + b).len() implies is_safe(#[trigger] (a + b)[i]) by {
        if i < a.len() {
            assert((a + b)[i] == a[i]);
        } else {
            assert((a + b)[i] == b[i - a.len()]);
        }
    }
}

proof fn lemma_made_safe(s: Seq<char>)
    ensures
        all_safe(s.map_values(|c: char| made_safe(c))),
{
}

proof fn lemma_literals_safe()
    ensures
        all_safe("_"@),
        all_safe(".txt"@),
        "_"@.len() == 1,
        ".txt"@.len() == 4,
{
    reveal_strlit("_");
    reveal_strlit(".txt");
}

/// A file name for an address holds no character but letters, digits, `.`, `_`
/// and `-`, so that it stays in its directory, is of bounded length, and ends in
/// `.txt`.
pub proof fn law_file_name_safe(url: Seq<char>)
    ensures
        all_safe(file_name(url)),
        21 <= file_name(url).len() <= 121,
        file_name(url).skip(file_name(url).len() - 4) == ".txt"@,
{
    let stem = cut(without_scheme(url), READABLE as int);
    let readable = stem.map_values(|c: char| made_safe(c));
    let h = fnv1a(vstd::utf8::encode_utf8(url)) as int;
    let digits = number::hex(h, 16);
    lemma_made_safe(stem);
    lemma_literals_safe();
    lemma_hex(h, 16);
    lemma_safe_concat(readable, "_"@);
    lemma_safe_concat(readable + "_"@, digits);
    lemma_safe_concat(readable + "_"@ + digits, ".txt"@);
    let name = readable + "_"@ + digits + ".txt"@;
    assert(name.skip(name.len() - 4) =~= ".txt"@);
}

proof fn lemma_hex(n: int, width: int)
    requires
        0 <= n,
        0 <= width,
    ensures
        number::hex(n, width).len() == width,
        all_safe(number::hex(n, width)),
    decreases width,
{
    if width > 0 {
        lemma_hex(n / 16, width - 1);
        let front = number::hex(n / 16, width - 1);
        assert forall|i: int| 0 <= i < width implies is_safe(#[trigger] number::hex(n, width)[i]) by {
            if i < width - 1 {
                assert(number::hex(n, width)[i] == front[i]);
            }
        }
    }
}

/// Pruning keeps the items whose addresses are to be kept and gives the files of the
/// others: a file is given exactly where it is the file of an item whose address is
/// not among those to keep.
pub proof fn law_dropped_files(
    v: Seq<(Seq<char>, Entry)>,
    keep: Seq<Seq<char>>,
    item: (Seq<char>, Entry),
    file: Seq<char>,
)
    ensures
        pruned(v, keep).contains(item) <==> v.contains(item) && keep.contains(item.0),
        dropped_files(v, keep).contains(file) <==> exists|i: int|
            0 <= i < v.len() && !keep.contains((#[trigger] v[i]).0) && v[i].1.filename == file,
        pruned(v, keep).len() + dropped_files(v, keep).len() == v.len(),
    decreases v.len(),
{
    if v.len() > 0 {
        let front = v.drop_last();
        let n = v.len() - 1;
        let x = v.last();
        law_dropped_files(front, keep, item, file);
        lemma_kept(x.0, keep);
        assert(v =~= front.push(x));
        lemma_item_push(front, x, item);
        lemma_item_push(pruned(front, keep), x, item);
        lemma_file_push(dropped_files(front, keep), x.1.filename, file);
        if exists|i: int|
            0 <= i < front.len() && !keep.contains((#[trigger] front[i]).0)
                && front[i].1.filename == file {
            let i = choose|i: int|
                0 <= i < front.len() && !keep.contains((#[trigger] front[i]).0)
                    && front[i].1.filename == file;
            assert(v[i] == front[i]);
        }
        if exists|i: int|
            0 <= i < v.len() && !keep.contains((#[trigger] v[i]).0) && v[i].1.filename == file {
            let i = choose|i: int|
                0 <= i < v.len() && !keep.contains((#[trigger] v[i]).0) && v[i].1.filename == file;
            if i < n {
                assert(front[i] == v[i]);
            }
        }
        assert(v[n] == x);
    }
}

proof fn lemma_kept(url: Seq<char>, keep: Seq<Seq<char>>)
    ensures
        is_kept(url, keep) <==> keep.contains(url),
{
    if keep.contains(url) {
        assert(keep[keep.index_of(url)] == url);
    }
}

proof fn lemma_item_push(
    v: Seq<(Seq<char>, Entry)>,
    x: (Seq<char>, Entry),
    item: (Seq<char>, Entry),
)
    ensures
        v.push(x).contains(item) <==> v.contains(item) || item == x,
{
    if v.contains(item) {
        assert(v.push(x)[v.index_of(item)] == item);
    }
    assert(v.push(x)[v.len() as int] == x);
    if v.push(x).contains(item) && item != x {
        assert(v[v.push(x).index_of(item)] == item);
    }
}

proof fn lemma_file_push(v: Seq<Seq<char>>, x: Seq<char>, file: Seq<char>)
    ensures
        v.push(x).contains(file) <==> v.contains(file) || file == x,
{
    if v.contains(file) {
        assert(v.push(x)[v.index_of(file)] == file);
    }
    assert(v.push(x)[v.len() as int] == x);
    if v.push(x).contains(file) && file != x {
        assert(v[v.push(x).index_of(file)] == file);
    }
}

/// Pruning goes through the items in order: what stands before an item does not
/// change what becomes of it, nor does what stands behind it.
pub proof fn law_prune_in_order(
    a: Seq<(Seq<char>, Entry)>,
    b: Seq<(Seq<char>, Entry)>,
    keep: Seq<Seq<char>>,
)
    ensures
        pruned(a + b, keep) == pruned(a, keep) + pruned(b, keep),
        dropped_files(a + b, keep) == dropped_files(a, keep) + dropped_files(b, keep),
    decreases b.len(),
{
    if b.len() == 0 {
        assert(a + b =~= a);
    } else {
        let front = b.drop_last();
        law_prune_in_order(a, front, keep);
        assert((a + b).drop_last() =~= a + front);
        assert((a + b).last() == b.last());
        assert(pruned(a + b, keep) =~= pruned(a, keep) + pruned(b, keep));
        assert(dropped_files(a + b, keep) =~= dropped_files(a, keep) + dropped_files(b, keep));
    }
}

/// A list is fresh exactly while fewer seconds than the interval have passed since
/// it was fetched; one whose time lies ahead is fresh unless the interval is zero.
pub proof fn law_freshness(fetched_at: u64, passed: u64, interval: u64)
    requires
        fetched_at + passed <= u64::MAX,
    ensures
        is_fresh(fetched_at, (fetched_at + passed) as u64, interval) <==> passed < interval,
        is_fresh((fetched_at + passed) as u64, fetched_at, interval) <==> 0 < interval,
{
}

/// What is known of the list at an address is what an item with that address holds,
/// and nothing is known exactly where no item has it.
pub proof fn law_lookup(v: Seq<(Seq<char>, Entry)>, i: int, url: Seq<char>)
    requires
        distinct(v),
    ensures
        0 <= i < v.len() ==> lookup(v, v[i].0) == Some(v[i].1),
        lookup(v, url) is None <==> forall|j: int| 0 <= j < v.len() ==> (#[trigger] v[j]).0 != url,
{
    if 0 <= i < v.len() {
        lemma_url_place_bounds(v, v[i].0);
        let p = url_place(v, v[i].0);
        if p < i {
            assert(v[p].0 != v[i].0);
        } else if p > i {
            assert(v[i].0 != v[i].0);
        }
    }
    lemma_url_place_bounds(v, url);
}

/// Putting in what is known of a list at a new address adds it behind the others; at
/// a known address it takes the place of what was known, and the others stay.
pub proof fn law_stored_place(v: Seq<(Seq<char>, Entry)>, i: int, url: Seq<char>, entry: Entry)
    requires
        distinct(v),
    ensures
        0 <= i < v.len() && v[i].0 == url ==> stored(v, url, entry) == v.update(i, (url, entry)),
        (forall|j: int| 0 <= j < v.len() ==> (#[trigger] v[j]).0 != url) ==> stored(v, url, entry)
            == v.push((url, entry)),
{
    lemma_url_place_bounds(v, url);
    let p = url_place(v, url);
    if 0 <= i < v.len() && v[i].0 == url {
        if p < i {
            assert(v[p].0 != v[i].0);
        } else if p > i {
            assert(v[i].0 != url);
        }
    }
}

/// The readable part of a file name is the address behind `https://` or `http://`,
/// the characters that cannot stand in a file name everywhere as `_`, cut to a
/// hundred characters; the hash behind it is that of the whole address.
pub proof fn law_file_name_parts(rest: Seq<char>)
    requires
        all_safe(rest),
        rest.len() <= 100,
    ensures
        ({
            let secure = "https://"@ + rest;
            let plain = "http://"@ + rest;
            &&& file_name(secure) == rest + "_"@ + number::hex(
                fnv1a(vstd::utf8::encode_utf8(secure)) as int,
                16,
            ) + ".txt"@
            &&& file_name(plain) == rest + "_"@ + number::hex(
                fnv1a(vstd::utf8::encode_utf8(plain)) as int,
                16,
            ) + ".txt"@
        }),
{
    reveal_strlit("https://");
    reveal_strlit("http://");
    let secure = "https://"@ + rest;
    let plain = "http://"@ + rest;
    assert("https://"@.is_prefix_of(secure)) by {
        assert(secure.subrange(0, 8) =~= "https://"@);
    }
    assert("http://"@.is_prefix_of(plain)) by {
        assert(plain.subrange(0, 7) =~= "http://"@);
    }
    assert(!"https://"@.is_prefix_of(plain)) by {
        assert(plain[4] == ':');
        if "https://"@.is_prefix_of(plain) {
            assert(plain.subrange(0, 8)[4] == 's');
        }
    }
    assert(secure.skip(8) =~= rest);
    assert(plain.skip(7) =~= rest);
    assert(rest.map_values(|c: char| made_safe(c)) =~= rest);
}

/// The first hundred characters of a long address count for the readable part of its
/// file name.
pub proof fn law_file_name_cut(a: Seq<char>, b: Seq<char>)
    requires
        a.len() == 100,
    ensures
        file_name("https://"@ + a + b).take(100) == file_name("https://"@ + a).take(100),
        forall|i: int|
            0 <= i < 100 ==> (#[trigger] file_name("https://"@ + a + b)[i]) == if is_safe(a[i]) {
                a[i]
            } else {
                '_'
            },
{
    reveal_strlit("https://");
    let scheme = "https://"@;
    let long = scheme + a + b;
    let short = scheme + a;
    assert(scheme.is_prefix_of(long)) by {
        assert(long.subrange(0, 8) =~= scheme);
    }
    assert(scheme.is_prefix_of(short)) by {
        assert(short.subrange(0, 8) =~= scheme);
    }
    assert(long.skip(8) =~= a + b);
    assert(short.skip(8) =~= a);
    assert((a + b).take(100) =~= a);
    assert(cut(a + b, 100) =~= a);
    assert(file_name(long).take(100) =~= a.map_values(|c: char| made_safe(c)));
    assert(file_name(short).take(100) =~= a.map_values(|c: char| made_safe(c)));
    assert forall|i: int| 0 <= i < 100 implies (#[trigger] file_name(long)[i]) == if is_safe(
        a[i],
    ) {
        a[i]
    } else {
        '_'
    } by {
        assert(file_name(long)[i] == file_name(long).take(100)[i]);
    }
}

/// The characters that can stand in a file name everywhere are the letters and
/// digits of ASCII, the dot, the underscore and the hyphen.
pub proof fn law_safe_characters(c: char)
    ensures
        is_safe(c) <==> (97 <= c as int <= 122 || 65 <= c as int <= 90 || 48 <= c as int <= 57
            || c as int == 45 || c as int == 46 || c as int == 95),
{
}

/// The hash begins at its start value and takes the bytes in order: each is mixed in
/// and the result multiplied, modulo the size of a machine word.
pub proof fn law_fnv1a(bytes: Seq<u8>, b: u8)
    ensures
        fnv1a(Seq::empty()) == 14695981039346656037,
        fnv1a(bytes.push(b)) == ((fnv1a(bytes) ^ (b as u64)) * 1099511628211int)
            % 18446744073709551616,
{
    assert(bytes.push(b).drop_last() =~= bytes);
    assert(0 <= ((fnv1a(bytes) ^ (b as u64)) * 1099511628211int) % 18446744073709551616
        < 18446744073709551616);
}

/// A name in a directory is the directory, a slash unless it ends in one, and the name;
/// without a directory it is the name, and so is a name that begins at the root.
pub proof fn law_in_dir(dir: Seq<char>, name: Seq<char>)
    requires
        name.len() == 0 || name[0] != '/',
    ensures
        in_dir(Seq::empty(), name) == name,
        dir.len() > 0 && dir.last() != '/' ==> in_dir(dir, name) == dir + seq!['/'] + name,
        in_dir(dir.push('/'), name) == dir + seq!['/'] + name,
        in_dir(dir, seq!['/'] + name) == seq!['/'] + name,
{
    assert(Seq::<char>::empty() + name =~= name);
    assert(dir.push('/') =~= dir + seq!['/']);
    assert((seq!['/'] + name)[0] == '/');
}

} // verus!
