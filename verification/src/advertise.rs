//! URLs that programs print in their panes. Such a URL is a hint: it is shown
//! once a scan finds a listener on its port.

use vstd::prelude::*;

use crate::assoc;
use crate::assoc::{as_map, distinct, has_key, with_pair};
use crate::number;
use crate::number::port_of;
use crate::pattern;
use crate::pattern::{captures_of, captures_view, groups_view};
use crate::seqs;
use crate::seqs::first_where;
use crate::text;
use crate::text::{contains_text, opt_text};

verus! {

/// `http(s)://`, a loopback host or a `.local`, `.test` or `.localhost` name,
/// and a port. The path stops before what commonly wraps a URL.
pub const URL_PATTERN: &'static str = "(https?)://(localhost|127\\.0\\.0\\.1|0\\.0\\.0\\.0|\\[::1\\]|[a-z0-9.-]+\\.(?:local|test|localhost)):([0-9]{2,5})(/[^\\s)\\]>,]*)?";

/// The text of group `i` of a match.
pub open spec fn group_of(c: Option<Seq<Option<Seq<char>>>>, i: int) -> Option<Seq<char>> {
    match c {
        Some(g) => if i < g.len() {
            g[i]
        } else {
            None
        },
        None => None,
    }
}

/// The URL of a match, with its port.
pub open spec fn url_of(c: Option<Seq<Option<Seq<char>>>>) -> Option<(u16, Seq<char>)> {
    match (group_of(c, 3), group_of(c, 0)) {
        (Some(digits), Some(url)) => match port_of(digits) {
            Some(port) => Some((port, url)),
            None => None,
        },
        _ => None,
    }
}

/// `host` is the machine itself.
pub open spec fn is_loopback(host: Seq<char>) -> bool {
    host == "localhost"@ || host == "127.0.0.1"@ || host == "0.0.0.0"@ || host == "[::1]"@
}

/// The rank of a URL from its match: a secure scheme counts two, a host name
/// other than the machine itself one.
pub open spec fn rank_of(url: Seq<char>, c: Option<Seq<Option<Seq<char>>>>) -> u8 {
    let secure = "https://"@.is_prefix_of(url);
    let named = group_of(c, 2) matches Some(host) && !is_loopback(host);
    if secure && named {
        3
    } else if secure {
        2
    } else if named {
        1
    } else {
        0
    }
}

fn group(c: &Option<Vec<Option<String>>>, i: usize) -> (r: Option<String>)
    ensures
        opt_text(r) == group_of(captures_view(*c), i as int),
{
    match c {
        Some(g) => {
            assert(groups_view(g@).len() == g@.len());
            if i < g.len() {
                assert(groups_view(g@)[i as int] == opt_text(g@[i as int]));
                text::copy_opt(&g[i])
            } else {
                None
            }
        },
        None => None,
    }
}

/// The URL of a match of [`URL_PATTERN`], with its port.
pub fn url_from(c: &Option<Vec<Option<String>>>) -> (r: Option<(u16, String)>)
    ensures
        r is Some <==> url_of(captures_view(*c)) is Some,
        r matches Some((port, url)) ==> url_of(captures_view(*c)) == Some((port, url@)),
{
    match (group(c, 3), group(c, 0)) {
        (Some(digits), Some(url)) => match number::parse_port(digits.as_str()) {
            Some(port) => Some((port, url)),
            None => None,
        },
        _ => None,
    }
}

/// The first advertised URL on a line of output, with its port.
pub fn parse_url(line: &str) -> (r: Option<(u16, String)>)
    ensures
        r is Some <==> url_of(captures_of(URL_PATTERN@, line@)) is Some,
        r matches Some((port, url)) ==> url_of(captures_of(URL_PATTERN@, line@)) == Some(
            (port, url@),
        ) && contains_text(line@, url@),
{
    let found = pattern::captures(URL_PATTERN, line);
    assert(found matches Some(g) ==> groups_view(g@)[0] == opt_text(g@[0]));
    url_from(&found)
}

/// The rank of a URL from its match of [`URL_PATTERN`].
pub fn rank_from(url: &str, c: &Option<Vec<Option<String>>>) -> (r: u8)
    ensures
        r == rank_of(url@, captures_view(*c)),
{
    let secure = text::starts_with(url, "https://");
    let named = match group(c, 2) {
        Some(host) => {
            let h = host.as_str();
            !(text::same(h, "localhost") || text::same(h, "127.0.0.1") || text::same(h, "0.0.0.0")
                || text::same(h, "[::1]"))
        },
        None => false,
    };
    if secure && named {
        3
    } else if secure {
        2
    } else if named {
        1
    } else {
        0
    }
}

/// The rank of a URL: `https` before `http`, and then a name of its own before
/// the machine itself.
pub fn rank(url: &str) -> (r: u8)
    ensures
        r == rank_of(url@, captures_of(URL_PATTERN@, url@)),
{
    rank_from(url, &pattern::captures(URL_PATTERN, url))
}

/// What a rank counts: where names are not preferred, one of its own counts
/// nothing.
pub open spec fn counted(rank: u8, prefer_hostname: bool) -> u8 {
    if prefer_hostname || rank % 2 == 0 {
        rank
    } else {
        (rank - 1) as u8
    }
}

/// What the rank of a URL counts.
pub open spec fn worth(url: Seq<char>, prefer_hostname: bool) -> u8 {
    counted(rank_of(url, captures_of(URL_PATTERN@, url)), prefer_hostname)
}

/// What a rank counts.
pub fn count(rank: u8, prefer_hostname: bool) -> (r: u8)
    ensures
        r == counted(rank, prefer_hostname),
{
    if prefer_hostname || rank % 2 == 0 {
        rank
    } else {
        rank - 1
    }
}

/// One advertisement.
#[derive(Debug)]
struct Entry {
    url: String,
    pane_id: String,
    rank: u8,
}

/// An advertisement, with its texts as characters.
#[verifier::ext_equal]
pub struct EntryView {
    pub url: Seq<char>,
    pub pane_id: Seq<char>,
    pub rank: u8,
}

impl View for Entry {
    type V = EntryView;

    closed spec fn view(&self) -> EntryView {
        EntryView { url: self.url@, pane_id: self.pane_id@, rank: self.rank }
    }
}

/// A workspace and a port.
type Key = (String, u16);

spec fn entries_view(v: Seq<(Key, Entry)>) -> Seq<((Seq<char>, u16), EntryView)> {
    v.map_values(|e: (Key, Entry)| ((e.0.0@, e.0.1), e.1@))
}

/// Advertised URLs by workspace and port. A URL never displaces one of higher
/// rank; an advertisement goes when its pane closes, or when the process on its
/// port changes (see [`forget`](Self::forget)).
#[derive(Debug)]
pub struct Advertisements {
    entries: Vec<(Key, Entry)>,
}

impl View for Advertisements {
    type V = Map<(Seq<char>, u16), EntryView>;

    closed spec fn view(&self) -> Map<(Seq<char>, u16), EntryView> {
        as_map(entries_view(self.entries@))
    }
}

impl Default for Advertisements {
    fn default() -> (r: Self)
        ensures
            r.wf(),
            r@ == Map::<(Seq<char>, u16), EntryView>::empty(),
    {
        let r = Advertisements { entries: Vec::new() };
        proof {
            assoc::lemma_no_pairs(entries_view(r.entries@));
        }
        r
    }
}

/// A URL of this rank is turned away: one of higher rank is on file, or the
/// same.
pub open spec fn turned_away(
    ads: Map<(Seq<char>, u16), EntryView>,
    key: (Seq<char>, u16),
    url: Seq<char>,
    rank: u8,
) -> bool {
    ads.contains_key(key) && (ads[key].rank > rank || ads[key].url == url)
}

/// The advertisements after one of this rank.
pub open spec fn recorded(
    ads: Map<(Seq<char>, u16), EntryView>,
    key: (Seq<char>, u16),
    url: Seq<char>,
    pane_id: Seq<char>,
    rank: u8,
) -> Map<(Seq<char>, u16), EntryView> {
    if turned_away(ads, key, url, rank) {
        ads
    } else {
        ads.insert(key, EntryView { url, pane_id, rank })
    }
}

/// The rank on file is everywhere what the URL on file counts.
pub open spec fn ranked(ads: Map<(Seq<char>, u16), EntryView>, prefer_hostname: bool) -> bool {
    forall|k: (Seq<char>, u16)| #[trigger]
        ads.contains_key(k) ==> ads[k].rank == worth(ads[k].url, prefer_hostname)
}

impl Advertisements {
    /// No workspace and port is on file twice.
    pub closed spec fn wf(&self) -> bool {
        distinct(entries_view(self.entries@))
    }

    fn find(&self, workspace_id: &str, port: u16) -> (r: usize)
        ensures
            r == first_where(
                entries_view(self.entries@),
                has_key::<(Seq<char>, u16), EntryView>((workspace_id@, port)),
            ),
            r <= self.entries@.len(),
    {
        let ghost key = (workspace_id@, port);
        let r = seqs::find_where(
            &self.entries,
            |e: &(Key, Entry)| -> (b: bool)
                ensures
                    b == ((e.0.0@, e.0.1) == key)
                { e.0.1 == port && text::same(e.0.0.as_str(), workspace_id) },
            Ghost(|e: (Key, Entry)| (e.0.0@, e.0.1) == key),
        );
        proof {
            seqs::lemma_first_where_map(
                self.entries@,
                |e: (Key, Entry)| ((e.0.0@, e.0.1), e.1@),
                |e: (Key, Entry)| (e.0.0@, e.0.1) == key,
                has_key::<(Seq<char>, u16), EntryView>(key),
            );
        }
        r
    }

    /// Records an advertisement of a given rank; says whether the URL on file
    /// changed.
    pub fn record_ranked(
        &mut self,
        workspace_id: String,
        port: u16,
        url: String,
        pane_id: String,
        rank: u8,
    ) -> (r: bool)
        requires
            old(self).wf(),
        ensures
            final(self).wf(),
            r == !turned_away(old(self)@, (workspace_id@, port), url@, rank),
            final(self)@ == recorded(old(self)@, (workspace_id@, port), url@, pane_id@, rank),
    {
        let ghost before = entries_view(self.entries@);
        let ghost key = (workspace_id@, port);
        let ghost value = EntryView { url: url@, pane_id: pane_id@, rank };
        let k = self.find(workspace_id.as_str(), port);
        proof {
            assoc::lemma_with_pair(before, key, value);
        }
        if k < self.entries.len() {
            let existing = &self.entries[k].1;
            assert(before[k as int].1 == existing@);
            if existing.rank > rank || text::same(existing.url.as_str(), url.as_str()) {
                return false;
            }
            self.entries.set(k, ((workspace_id, port), Entry { url, pane_id, rank }));
            assert(entries_view(self.entries@) =~= before.update(k as int, (key, value)));
        } else {
            self.entries.push(((workspace_id, port), Entry { url, pane_id, rank }));
            assert(entries_view(self.entries@) =~= before.push((key, value)));
        }
        assert(entries_view(self.entries@) == with_pair(before, key, value));
        true
    }

    /// Records an advertisement, ranked with or without a preference for host
    /// names; says whether the URL on file changed.
    pub fn record_preferring(
        &mut self,
        workspace_id: String,
        port: u16,
        url: String,
        pane_id: String,
        prefer_hostname: bool,
    ) -> (r: bool)
        requires
            old(self).wf(),
        ensures
            final(self).wf(),
            r == !turned_away(
                old(self)@,
                (workspace_id@, port),
                url@,
                worth(url@, prefer_hostname),
            ),
            final(self)@ == recorded(
                old(self)@,
                (workspace_id@, port),
                url@,
                pane_id@,
                worth(url@, prefer_hostname),
            ),
            ranked(old(self)@, prefer_hostname) ==> ranked(final(self)@, prefer_hostname),
    {
        let new_rank: u8 = count(rank(url.as_str()), prefer_hostname);
        self.record_ranked(workspace_id, port, url, pane_id, new_rank)
    }

    /// Records an advertisement; says whether the URL on file changed.
    pub fn record(&mut self, workspace_id: String, port: u16, url: String, pane_id: String) -> (r:
        bool)
        requires
            old(self).wf(),
        ensures
            final(self).wf(),
            r == !turned_away(
                old(self)@,
                (workspace_id@, port),
                url@,
                rank_of(url@, captures_of(URL_PATTERN@, url@)),
            ),
            final(self)@ == recorded(
                old(self)@,
                (workspace_id@, port),
                url@,
                pane_id@,
                rank_of(url@, captures_of(URL_PATTERN@, url@)),
            ),
            ranked(old(self)@, true) ==> ranked(final(self)@, true),
    {
        self.record_preferring(workspace_id, port, url, pane_id, true)
    }

    /// The URL on file for `(workspace_id, port)`.
    pub fn get(&self, workspace_id: &str, port: u16) -> (r: Option<String>)
        ensures
            opt_text(r) == if self@.contains_key((workspace_id@, port)) {
                Some(self@[(workspace_id@, port)].url)
            } else {
                None
            },
    {
        let k = self.find(workspace_id, port);
        if k < self.entries.len() {
            assert(entries_view(self.entries@)[k as int].1 == self.entries@[k as int].1@);
            Some(self.entries[k].1.url.clone())
        } else {
            None
        }
    }

    /// Drops the advertisement for `(workspace_id, port)`: the process behind
    /// it changed, so the URL cannot be trusted until it is advertised again.
    pub fn forget(&mut self, workspace_id: &str, port: u16)
        requires
            old(self).wf(),
        ensures
            final(self).wf(),
            final(self)@ == old(self)@.remove((workspace_id@, port)),
            forall|p: bool| #[trigger] ranked(old(self)@, p) ==> ranked(final(self)@, p),
    {
        let ghost before = self.entries@;
        let ghost es = entries_view(before);
        let ghost key = (workspace_id@, port);
        let ghost p = |e: ((Seq<char>, u16), EntryView)| e.0 != key;
        let mut entries: Vec<(Key, Entry)> = Vec::new();
        std::mem::swap(&mut entries, &mut self.entries);
        self.entries =
        seqs::retain(
            entries,
            |e: &(Key, Entry)| -> (b: bool)
                ensures
                    b == ((e.0.0@, e.0.1) != key)
                { !(e.0.1 == port && text::same(e.0.0.as_str(), workspace_id)) },
            Ghost(|e: (Key, Entry)| (e.0.0@, e.0.1) != key),
        );
        proof {
            seqs::lemma_filter_map(
                before,
                |e: (Key, Entry)| ((e.0.0@, e.0.1), e.1@),
                |e: (Key, Entry)| (e.0.0@, e.0.1) != key,
                p,
            );
            assoc::lemma_filtered(es, p);
            assert(self@ =~= old(self)@.remove(key));
        }
    }

    /// Drops the advertisements of panes that are not `alive`, which lists pane
    /// ids with their workspaces.
    pub fn retain_panes(&mut self, alive: &Vec<(String, String)>)
        requires
            old(self).wf(),
        ensures
            final(self).wf(),
            forall|k: (Seq<char>, u16)| #[trigger]
                final(self)@.contains_key(k) <==> old(self)@.contains_key(k) && is_alive(
                    old(self)@[k].pane_id,
                    alive@,
                ),
            forall|k: (Seq<char>, u16)| #[trigger]
                final(self)@.contains_key(k) ==> final(self)@[k] == old(self)@[k],
            forall|p: bool| #[trigger] ranked(old(self)@, p) ==> ranked(final(self)@, p),
    {
        let ghost before = self.entries@;
        let ghost es = entries_view(before);
        let ghost p = |e: ((Seq<char>, u16), EntryView)| is_alive(e.1.pane_id, alive@);
        let mut entries: Vec<(Key, Entry)> = Vec::new();
        std::mem::swap(&mut entries, &mut self.entries);
        self.entries =
        seqs::retain(
            entries,
            |e: &(Key, Entry)| -> (b: bool)
                ensures
                    b == is_alive(e.1@.pane_id, alive@)
                { lives(e.1.pane_id.as_str(), alive) },
            Ghost(|e: (Key, Entry)| is_alive(e.1@.pane_id, alive@)),
        );
        proof {
            seqs::lemma_filter_map(
                before,
                |e: (Key, Entry)| ((e.0.0@, e.0.1), e.1@),
                |e: (Key, Entry)| is_alive(e.1@.pane_id, alive@),
                p,
            );
            assoc::lemma_filtered(es, p);
        }
    }
}

/// The pane is one of these.
pub open spec fn is_alive(pane_id: Seq<char>, alive: Seq<(String, String)>) -> bool {
    exists|i: int| 0 <= i < alive.len() && (#[trigger] alive[i]).0@ == pane_id
}

fn lives(pane_id: &str, alive: &Vec<(String, String)>) -> (r: bool)
    ensures
        r == is_alive(pane_id@, alive@),
{
    let mut i: usize = 0;
    while i < alive.len()
        invariant
            i <= alive@.len(),
            forall|j: int| 0 <= j < i ==> (#[trigger] alive@[j]).0@ != pane_id@,
        decreases alive.len() - i,
    {
        if text::same(alive[i].0.as_str(), pane_id) {
            return true;
        }
        i = i + 1;
    }
    false
}

/// The rank on file for a workspace and port never falls, and recording touches
/// no other.
pub proof fn a_lower_rank_never_displaces(
    ads: Map<(Seq<char>, u16), EntryView>,
    key: (Seq<char>, u16),
    url: Seq<char>,
    pane_id: Seq<char>,
    rank: u8,
)
    ensures
        ads.contains_key(key) ==> recorded(ads, key, url, pane_id, rank)[key].rank >= ads[key].rank
            || recorded(ads, key, url, pane_id, rank) == ads,
        ads.contains_key(key) && ads[key].rank > rank ==> recorded(ads, key, url, pane_id, rank)
            == ads,
        recorded(ads, key, url, pane_id, rank).contains_key(key),
        forall|k: (Seq<char>, u16)|
            k != key ==> (#[trigger] recorded(ads, key, url, pane_id, rank).contains_key(k)
                <==> ads.contains_key(k)),
        forall|k: (Seq<char>, u16)|
            k != key && ads.contains_key(k) ==> #[trigger] recorded(
                ads,
                key,
                url,
                pane_id,
                rank,
            )[k] == ads[k],
{
}

/// Where the ranks on file are those of the URLs on file, a URL never displaces
/// one that counts more.
pub proof fn a_better_url_is_never_displaced(
    ads: Map<(Seq<char>, u16), EntryView>,
    key: (Seq<char>, u16),
    url: Seq<char>,
    pane_id: Seq<char>,
    prefer_hostname: bool,
)
    requires
        ranked(ads, prefer_hostname),
        ads.contains_key(key),
    ensures
        ({
            let after = recorded(ads, key, url, pane_id, worth(url, prefer_hostname));
            &&& ranked(after, prefer_hostname)
            &&& worth(after[key].url, prefer_hostname) >= worth(ads[key].url, prefer_hostname)
            &&& worth(ads[key].url, prefer_hostname) > worth(url, prefer_hostname) ==> after == ads
        }),
{
}

/// Without a preference for host names only the scheme of a URL counts.
pub proof fn host_names_count_only_where_preferred(
    a: Seq<char>,
    ca: Option<Seq<Option<Seq<char>>>>,
    b: Seq<char>,
    cb: Option<Seq<Option<Seq<char>>>>,
)
    ensures
        "https://"@.is_prefix_of(a) == "https://"@.is_prefix_of(b) ==> counted(
            rank_of(a, ca),
            false,
        ) == counted(rank_of(b, cb), false),
        "https://"@.is_prefix_of(a) && !"https://"@.is_prefix_of(b) ==> counted(
            rank_of(a, ca),
            false,
        ) > counted(rank_of(b, cb), false),
        counted(rank_of(a, ca), true) == rank_of(a, ca),
{
}

/// A secure URL ranks before one that is not, and among either a name of its
/// own before the machine itself.
pub proof fn secure_and_named_urls_rank_higher(
    a: Seq<char>,
    ca: Option<Seq<Option<Seq<char>>>>,
    b: Seq<char>,
    cb: Option<Seq<Option<Seq<char>>>>,
)
    ensures
        "https://"@.is_prefix_of(a) && !"https://"@.is_prefix_of(b) ==> rank_of(a, ca) > rank_of(
            b,
            cb,
        ),
        "https://"@.is_prefix_of(a) == "https://"@.is_prefix_of(b) && (group_of(ca, 2) matches Some(
            h,
        ) && !is_loopback(h)) && (group_of(cb, 2) matches Some(h) ==> is_loopback(h))
            ==> rank_of(a, ca) > rank_of(b, cb),
{
}

/// A printed line advertises the whole match, on the port in its last group; a
/// line without a match or without a port advertises nothing.
pub proof fn a_match_is_advertised_whole(
    g: Seq<Option<Seq<char>>>,
    url: Seq<char>,
    port: u16,
)
    requires
        g.len() >= 4,
        g[0] == Some(url),
    ensures
        g[3] == Some(number::decimal_of(port as nat)) ==> url_of(Some(g)) == Some((port, url)),
        g[3] is None ==> url_of(Some(g)) is None,
        url_of(None::<Seq<Option<Seq<char>>>>) is None,
{
    number::decimal_denotes_itself(port as nat);
}

/// A URL that counts as much as the one on file, or where none is, takes its
/// place, with its pane.
pub proof fn a_new_url_takes_over(
    ads: Map<(Seq<char>, u16), EntryView>,
    key: (Seq<char>, u16),
    url: Seq<char>,
    pane_id: Seq<char>,
    rank: u8,
)
    ensures
        !ads.contains_key(key) || (ads[key].rank <= rank && ads[key].url != url) ==> recorded(
            ads,
            key,
            url,
            pane_id,
            rank,
        ).contains_key(key) && recorded(ads, key, url, pane_id, rank)[key] == (EntryView {
            url,
            pane_id,
            rank,
        }) && !turned_away(ads, key, url, rank),
        ads.contains_key(key) && ads[key].url == url ==> recorded(ads, key, url, pane_id, rank)
            == ads,
{
}

/// The machine itself goes by four names, which count nothing; another name
/// counts one, and a secure scheme two.
pub proof fn ranks_add_up(
    url: Seq<char>,
    g: Seq<Option<Seq<char>>>,
    host: Seq<char>,
)
    requires
        g.len() > 2,
        g[2] == Some(host),
    ensures
        host == "localhost"@ || host == "127.0.0.1"@ || host == "0.0.0.0"@ || host == "[::1]"@
            ==> rank_of(url, Some(g)) == if "https://"@.is_prefix_of(url) {
            2int
        } else {
            0
        },
        host != "localhost"@ && host != "127.0.0.1"@ && host != "0.0.0.0"@ && host != "[::1]"@
            ==> rank_of(url, Some(g)) == if "https://"@.is_prefix_of(url) {
            3int
        } else {
            1
        },
{
}

} // verus!
