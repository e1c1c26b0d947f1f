//! The stored registrations, with the operations that change them.

use crate::failure::{failure_about, Failure};
use crate::hosts::{HostEntry, HostsByIp};
use crate::ip::{ip_text, ip_value, law_ip_text_reads_back, IpAddress};
use crate::replace_mode::ReplaceMode;
use crate::sorted::{ascending, entry_map, lemma_entry_map, lemma_entry_map_len, SortKey, SortedMap};
use crate::text::{lemma_text_less_irreflexive, same_str, text_less};
use vstd::prelude::*;

verus! {

/// How long a stored host stays, and since when. Without a positive time to live it stays
/// for ever.
#[derive(Clone, Copy, Debug, PartialEq, Eq, Structural)]
pub struct Registration {
    pub ttl_seconds: i64,
    pub registered_at_epoch_secs: i64,
}

/// A row as it is stored.
#[derive(Debug)]
pub struct HostRow {
    pub ip: String,
    pub host: String,
    pub ttl_seconds: i64,
    pub registered_at_epoch_secs: i64,
}

/// Registrations under the text of an address and a host name.
pub type Rows = Map<(Seq<char>, Seq<char>), Registration>;

/// The registrations and two counters: one that grows with every change, and the value of
/// it that the hosts file was last brought up to.
pub struct TableState {
    pub rows: Rows,
    pub db_generation: int,
    pub file_generation: int,
}

/// Which rows a deletion takes.
pub enum RowFilter {
    /// Those whose time to live is over.
    Expired(i64),
    /// Those under an address.
    Ip(String),
    /// Those of a host.
    Host(String),
    /// The one of a host under an address.
    Pair(String, String),
}

/// Which rows a deletion takes, by the texts.
pub enum Selection {
    Expired(int),
    Ip(Seq<char>),
    Host(Seq<char>),
    Pair(Seq<char>, Seq<char>),
}

impl View for RowFilter {
    type V = Selection;

    open spec fn view(&self) -> Selection {
        match self {
            RowFilter::Expired(now) => Selection::Expired(*now as int),
            RowFilter::Ip(ip) => Selection::Ip(ip@),
            RowFilter::Host(host) => Selection::Host(host@),
            RowFilter::Pair(ip, host) => Selection::Pair(ip@, host@),
        }
    }
}

/// Whether the time to live is over at `now`.
pub open spec fn expired(r: Registration, now: int) -> bool {
    r.ttl_seconds > 0 && r.registered_at_epoch_secs + r.ttl_seconds <= now
}

pub open spec fn selects(s: Selection, key: (Seq<char>, Seq<char>), r: Registration) -> bool {
    match s {
        Selection::Expired(now) => expired(r, now),
        Selection::Ip(ip) => key.0 == ip,
        Selection::Host(host) => key.1 == host,
        Selection::Pair(ip, host) => key.0 == ip && key.1 == host,
    }
}

/// The rows that a deletion leaves.
pub open spec fn without(m: Rows, s: Selection) -> Rows {
    Map::new(
        |k: (Seq<char>, Seq<char>)| m.contains_key(k) && !selects(s, k, m[k]),
        |k: (Seq<char>, Seq<char>)| m[k],
    )
}

/// The state after a deletion, which counts as a change only where a row went.
pub open spec fn after_delete(t: TableState, s: Selection) -> TableState {
    let rows = without(t.rows, s);
    TableState {
        rows,
        db_generation: if rows == t.rows {
            t.db_generation
        } else {
            t.db_generation + 1
        },
        file_generation: t.file_generation,
    }
}

/// A time to live as it is stored: one too large for the column comes out negative.
pub open spec fn stored_ttl(ttl: u64) -> int {
    if ttl <= i64::MAX {
        ttl as int
    } else {
        ttl - 0x1_0000_0000_0000_0000
    }
}

/// The rows that stay beside a new host/IP pair.
pub open spec fn beside(m: Rows, ip: Seq<char>, host: Seq<char>, mode: ReplaceMode) -> Rows {
    let under_ip = if mode.clears_ip() {
        without(m, Selection::Ip(ip))
    } else {
        m
    };
    if mode.clears_host() {
        without(under_ip, Selection::Host(host))
    } else {
        under_ip
    }
}

/// The state after a host was registered under an address: what the mode names gives way,
/// and the pair stands there with its new time to live and registration time.
pub open spec fn after_add(
    t: TableState,
    ip: IpAddress,
    host: Seq<char>,
    ttl: u64,
    now: i64,
    mode: ReplaceMode,
) -> TableState {
    TableState {
        rows: beside(t.rows, ip_text(ip), host, mode).insert(
            (ip_text(ip), host),
            Registration { ttl_seconds: stored_ttl(ttl) as i64, registered_at_epoch_secs: now },
        ),
        db_generation: t.db_generation + 1,
        file_generation: t.file_generation,
    }
}

/// Every address in the rows can be read.
pub open spec fn readable(m: Rows) -> bool {
    forall|k: (Seq<char>, Seq<char>)| #[trigger] m.contains_key(k) ==> ip_value(k.0) is Some
}

/// Every address in the rows stands in its own text form.
pub open spec fn normalized(m: Rows) -> bool {
    forall|k: (Seq<char>, Seq<char>)| #[trigger]
        m.contains_key(k) ==> ip_value(k.0) is Some && ip_text(ip_value(k.0)->0) == k.0
}

/// What a stored row says of a host.
pub open spec fn entry_of(r: Registration) -> HostEntry {
    HostEntry {
        ttl_seconds: if r.ttl_seconds > 0 {
            r.ttl_seconds as u64
        } else {
            0
        },
        registered_at_epoch_secs: r.registered_at_epoch_secs,
    }
}

/// Whether a host is stored under an address that is written as `text`.
pub open spec fn stored_as(m: Rows, ip: IpAddress, host: Seq<char>, text: Seq<char>) -> bool {
    m.contains_key((text, host)) && ip_value(text) == Some(ip)
}

/// Whether `text` is the last of the texts under which a host is stored with an address.
pub open spec fn stored_last_as(m: Rows, ip: IpAddress, host: Seq<char>, text: Seq<char>) -> bool {
    &&& stored_as(m, ip, host, text)
    &&& forall|other: Seq<char>| #[trigger]
        stored_as(m, ip, host, other) ==> !text_less(text, other)
}

/// Whether `hosts` is what the rows say: the hosts that are stored under an address. Where
/// one address is written in several ways, the last of them in the order of texts counts.
pub open spec fn hosts_of_rows(m: Rows, hosts: Map<(IpAddress, Seq<char>), HostEntry>) -> bool {
    &&& forall|ip: IpAddress, host: Seq<char>| #[trigger]
        hosts.contains_key((ip, host)) <==> exists|text: Seq<char>| stored_as(m, ip, host, text)
    &&& forall|ip: IpAddress, host: Seq<char>, text: Seq<char>| #[trigger]
        stored_last_as(m, ip, host, text) ==> hosts[(ip, host)] == entry_of(m[(text, host)])
}

pub open spec fn row_key(r: HostRow) -> (Seq<char>, Seq<char>) {
    (r.ip@, r.host@)
}

pub open spec fn row_registration(r: HostRow) -> Registration {
    Registration {
        ttl_seconds: r.ttl_seconds,
        registered_at_epoch_secs: r.registered_at_epoch_secs,
    }
}

/// The rows put one after the other into an empty table.
pub open spec fn loaded(rows: Seq<HostRow>) -> Rows
    decreases rows.len(),
{
    if rows.len() == 0 {
        Map::empty()
    } else {
        loaded(rows.drop_last()).insert(row_key(rows.last()), row_registration(rows.last()))
    }
}

/// One step that brings stored rows up to date.
pub enum RowChange {
    Remove { ip: String, host: String },
    Put { row: HostRow },
}

/// The rows after one step.
pub open spec fn changed(m: Rows, c: RowChange) -> Rows {
    match c {
        RowChange::Remove { ip, host } => m.remove((ip@, host@)),
        RowChange::Put { row } => m.insert(row_key(row), row_registration(row)),
    }
}

/// The rows after several steps.
pub open spec fn changed_by(m: Rows, s: Seq<RowChange>) -> Rows
    decreases s.len(),
{
    if s.len() == 0 {
        m
    } else {
        changed(changed_by(m, s.drop_last()), s.last())
    }
}

/// The stored registrations.
pub struct HostTable {
    rows: SortedMap<(String, String), Registration>,
    db_generation: i64,
    file_generation: i64,
}

impl View for HostTable {
    type V = TableState;

    closed spec fn view(&self) -> TableState {
        TableState {
            rows: self.rows@,
            db_generation: self.db_generation as int,
            file_generation: self.file_generation as int,
        }
    }
}

impl HostTable {
    /// No key occurs twice, and every address can be read.
    pub closed spec fn wf(&self) -> bool {
        self.rows.wf() && readable(self.rows@)
    }

    pub proof fn lemma_wf(&self)
        requires
            self.wf(),
        ensures
            readable(self@.rows),
            self@.rows.dom().finite(),
            i64::MIN <= self@.db_generation <= i64::MAX,
    {
        lemma_entry_map_len(self.rows.entries@);
    }

    /// A table without rows, with both counters at 0.
    pub fn new() -> (res: HostTable)
        ensures
            res.wf(),
            res@ == (TableState { rows: Map::empty(), db_generation: 0, file_generation: 0 }),
    {
        HostTable { rows: SortedMap::new(), db_generation: 0, file_generation: 0 }
    }

    /// The table with the given rows and counters, unless an address cannot be read.
    pub fn load(rows: Vec<HostRow>, db_generation: i64, file_generation: i64) -> (res: Result<
        HostTable,
        Failure,
    >)
        ensures
            match res {
                Ok(t) => {
                    &&& forall|i: int| 0 <= i < rows@.len() ==> ip_value(#[trigger] rows@[i].ip@) is Some
                    &&& t.wf()
                    &&& t@ == (TableState {
                        rows: loaded(rows@),
                        db_generation: db_generation as int,
                        file_generation: file_generation as int,
                    })
                },
                Err(e) => exists|i: int|
                    {
                        &&& 0 <= i < rows@.len()
                        &&& ip_value(#[trigger] rows@[i].ip@) is None
                        &&& forall|j: int| 0 <= j < i ==> ip_value(#[trigger] rows@[j].ip@) is Some
                        &&& e.message@ == "invalid ip stored in sqlite: "@ + rows@[i].ip@
                    },
            },
    {
        let mut table: SortedMap<(String, String), Registration> = SortedMap::new();
        let mut i: usize = 0;
        while i < rows.len()
            invariant
                i <= rows@.len(),
                table.wf(),
                table@ == loaded(rows@.take(i as int)),
                readable(table@),
                forall|j: int| 0 <= j < i ==> ip_value(#[trigger] rows@[j].ip@) is Some,
            decreases rows@.len() - i,
        {
            if IpAddress::parse(rows[i].ip.as_str()).is_none() {
                return Err(failure_about("invalid ip stored in sqlite: ", rows[i].ip.as_str()));
            }
            let registration = Registration {
                ttl_seconds: rows[i].ttl_seconds,
                registered_at_epoch_secs: rows[i].registered_at_epoch_secs,
            };
            table.insert((rows[i].ip.clone(), rows[i].host.clone()), registration);
            proof {
                let next = rows@.take(i + 1);
                assert(next.drop_last() =~= rows@.take(i as int));
                assert(next.last() == rows@[i as int]);
            }
            i += 1;
        }
        assert(rows@.take(i as int) =~= rows@);
        Ok(HostTable { rows: table, db_generation, file_generation })
    }

    /// The counter of changes.
    pub fn db_generation(&self) -> (res: i64)
        ensures
            res == self@.db_generation,
    {
        self.db_generation
    }

    /// The change that the hosts file was last brought up to.
    pub fn file_generation(&self) -> (res: i64)
        ensures
            res == self@.file_generation,
    {
        self.file_generation
    }

    /// Notes the change that the hosts file was brought up to.
    pub fn set_file_generation(&mut self, generation: i64)
        requires
            old(self).wf(),
        ensures
            final(self).wf(),
            final(self)@ == (TableState { file_generation: generation as int, ..old(self)@ }),
    {
        self.file_generation = generation;
    }

    fn selected(filter: &RowFilter, ip: &str, host: &str, r: Registration) -> (res: bool)
        ensures
            res == selects(filter@, (ip@, host@), r),
    {
        match filter {
            RowFilter::Expired(now) => {
                r.ttl_seconds > 0 && (r.registered_at_epoch_secs as i128) + (r.ttl_seconds as i128)
                    <= (*now as i128)
            },
            RowFilter::Ip(wanted) => same_str(ip, wanted.as_str()),
            RowFilter::Host(wanted) => same_str(host, wanted.as_str()),
            RowFilter::Pair(wanted_ip, wanted_host) => same_str(ip, wanted_ip.as_str()) && same_str(
                host,
                wanted_host.as_str(),
            ),
        }
    }

    /// Takes out the rows that the filter selects and says how many they were.
    fn remove_selected(
        rows: &mut SortedMap<(String, String), Registration>,
        filter: &RowFilter,
    ) -> (removed: usize)
        requires
            old(rows).wf(),
        ensures
            final(rows).wf(),
            final(rows)@ == without(old(rows)@, filter@),
            removed + final(rows)@.dom().len() == old(rows)@.dom().len(),
            removed == 0 <==> final(rows)@ == old(rows)@,
    {
        let ghost before = rows@;
        let ghost n = rows.entries@.len();
        let total: usize = rows.entries.len();
        let mut removed: usize = 0;
        let mut i: usize = 0;
        proof {
            lemma_entry_map_len(rows.entries@);
        }
        while i < rows.entries.len()
            invariant
                rows.wf(),
                i <= rows.entries@.len(),
                removed + rows.entries@.len() == n,
                n == total,
                removed == 0 ==> rows@ == before,
                forall|k: (Seq<char>, Seq<char>)| #[trigger]
                    rows@.contains_key(k) ==> before.contains_key(k) && before[k] == rows@[k],
                forall|k: (Seq<char>, Seq<char>)| #[trigger]
                    before.contains_key(k) && !rows@.contains_key(k) ==> selects(
                        filter@,
                        k,
                        before[k],
                    ),
                forall|j: int|
                    0 <= j < i ==> !selects(
                        filter@,
                        (#[trigger] rows.entries@[j]).0@,
                        rows.entries@[j].1,
                    ),
            decreases rows.entries@.len() - i,
        {
            let ghost entries = rows.entries@;
            let ghost m = rows@;
            proof {
                lemma_entry_map(entries);
                assert(m.contains_key(entries[i as int].0@));
            }
            if Self::selected(
                filter,
                rows.entries[i].0.0.as_str(),
                rows.entries[i].0.1.as_str(),
                rows.entries[i].1,
            ) {
                rows.remove_at(i);
                removed += 1;
                proof {
                    let gone = entries[i as int].0@;
                    assert(rows@ == m.remove(gone));
                    assert forall|k: (Seq<char>, Seq<char>)| #[trigger]
                        before.contains_key(k) && !rows@.contains_key(k) implies selects(
                        filter@,
                        k,
                        before[k],
                    ) by {
                        if k != gone {
                            assert(!m.contains_key(k));
                        }
                    }
                    assert forall|j: int| 0 <= j < i implies !selects(
                        filter@,
                        (#[trigger] rows.entries@[j]).0@,
                        rows.entries@[j].1,
                    ) by {
                        assert(rows.entries@[j] == entries[j]);
                    }
                }
            } else {
                i += 1;
            }
        }
        proof {
            lemma_entry_map(rows.entries@);
            lemma_entry_map_len(rows.entries@);
            assert forall|k: (Seq<char>, Seq<char>)|
                rows@.contains_key(k) <==> without(before, filter@).contains_key(k) by {
                if rows@.contains_key(k) {
                    let j = choose|j: int|
                        0 <= j < rows.entries@.len() && #[trigger] rows.entries@[j].0@ == k;
                    assert(!selects(filter@, rows.entries@[j].0@, rows.entries@[j].1));
                }
            }
            assert(rows@ =~= without(before, filter@));
        }
        removed
    }

    fn bump_db_generation(&mut self)
        requires
            old(self).db_generation < i64::MAX,
        ensures
            final(self).rows == old(self).rows,
            final(self).db_generation == old(self).db_generation + 1,
            final(self).file_generation == old(self).file_generation,
    {
        self.db_generation = self.db_generation + 1;
    }

    /// Deletes the rows that the filter selects and says how many they were.
    pub fn delete_where(&mut self, filter: &RowFilter) -> (removed: usize)
        requires
            old(self).wf(),
            old(self)@.db_generation < i64::MAX,
        ensures
            final(self).wf(),
            final(self)@ == after_delete(old(self)@, filter@),
            removed + final(self)@.rows.dom().len() == old(self)@.rows.dom().len(),
    {
        let removed: usize = Self::remove_selected(&mut self.rows, filter);
        if removed > 0 {
            self.bump_db_generation();
        }
        removed
    }

    /// Deletes the rows whose time to live is over and says how many they were.
    pub fn purge_expired(&mut self, now: i64) -> (removed: usize)
        requires
            old(self).wf(),
            old(self)@.db_generation < i64::MAX,
        ensures
            final(self).wf(),
            final(self)@ == after_delete(old(self)@, Selection::Expired(now as int)),
            removed + final(self)@.rows.dom().len() == old(self)@.rows.dom().len(),
    {
        self.delete_where(&RowFilter::Expired(now))
    }

    /// Registers a host under an address.
    pub fn add(&mut self, ip: IpAddress, host: &str, ttl: u64, now: i64, mode: ReplaceMode)
        requires
            old(self).wf(),
            old(self)@.db_generation < i64::MAX,
        ensures
            final(self).wf(),
            final(self)@ == after_add(old(self)@, ip, host@, ttl, now, mode),
    {
        let ip_raw: String = ip.text();
        if mode == ReplaceMode::Both || mode == ReplaceMode::Host {
            Self::remove_selected(&mut self.rows, &RowFilter::Ip(ip_raw.clone()));
        }
        if mode == ReplaceMode::Both || mode == ReplaceMode::Ip {
            Self::remove_selected(&mut self.rows, &RowFilter::Host(host.to_owned()));
        }
        let ttl_seconds: i64 = if ttl <= 9223372036854775807 {
            ttl as i64
        } else {
            ((ttl as i128) - 0x1_0000_0000_0000_0000) as i64
        };
        proof {
            law_ip_text_reads_back(ip);
        }
        let registration = Registration { ttl_seconds, registered_at_epoch_secs: now };
        self.rows.insert((ip_raw, host.to_owned()), registration);
        self.bump_db_generation();
    }

    /// The hosts under their addresses.
    pub fn load_hosts(&self) -> (res: HostsByIp)
        requires
            self.wf(),
        ensures
            res.wf(),
            hosts_of_rows(self@.rows, res@),
    {
        let ghost s = self.rows.entries@;
        let ghost m = self.rows@;
        let mut res: HostsByIp = SortedMap::new();
        let mut i: usize = 0;
        proof {
            lemma_entry_map(s);
        }
        while i < self.rows.entries.len()
            invariant
                self.wf(),
                s == self.rows.entries@,
                i <= s.len(),
                res.wf(),
                forall|ip: IpAddress, host: Seq<char>| #[trigger]
                    res@.contains_key((ip, host)) <==> exists|j: int|
                        0 <= j < i && #[trigger] is_entry(s, j, ip, host),
                forall|ip: IpAddress, host: Seq<char>, j: int|
                    0 <= j < i && #[trigger] is_entry(s, j, ip, host) && (forall|l: int|
                        j < l < i ==> !#[trigger] is_entry(s, l, ip, host)) ==> res@[(ip, host)]
                        == entry_of(s[j].1),
            decreases s.len() - i,
        {
            proof {
                lemma_entry_map(s);
                assert(self.rows@.contains_key(s[i as int].0@));
            }
            let ip: IpAddress = IpAddress::parse(self.rows.entries[i].0.0.as_str()).unwrap();
            let r: Registration = self.rows.entries[i].1;
            let entry = HostEntry {
                ttl_seconds: if r.ttl_seconds > 0 {
                    r.ttl_seconds as u64
                } else {
                    0
                },
                registered_at_epoch_secs: r.registered_at_epoch_secs,
            };
            let ghost before = res@;
            let name: String = self.rows.entries[i].0.1.clone();
            let ghost host = name@;
            res.insert((ip, name), entry);
            proof {
                assert(res@ == before.insert((ip, host), entry));
                assert(is_entry(s, i as int, ip, host));
                assert forall|q: IpAddress, w: Seq<char>| #[trigger]
                    res@.contains_key((q, w)) <==> exists|j: int|
                        0 <= j < i + 1 && #[trigger] is_entry(s, j, q, w) by {
                    if before.contains_key((q, w)) {
                        let j = choose|j: int| 0 <= j < i && #[trigger] is_entry(s, j, q, w);
                        assert(is_entry(s, j, q, w));
                    }
                    if exists|j: int| 0 <= j < i + 1 && #[trigger] is_entry(s, j, q, w) {
                        let j = choose|j: int| 0 <= j < i + 1 && #[trigger] is_entry(s, j, q, w);
                        if j < i {
                            assert(before.contains_key((q, w)));
                        }
                    }
                }
                assert forall|q: IpAddress, w: Seq<char>, j: int|
                    0 <= j < i + 1 && #[trigger] is_entry(s, j, q, w) && (forall|l: int|
                        j < l < i + 1 ==> !#[trigger] is_entry(s, l, q, w)) implies res@[(q, w)]
                    == entry_of(s[j].1) by {
                    if j < i {
                        assert(!is_entry(s, i as int, q, w));
                    }
                }
            }
            i += 1;
        }
        proof {
            lemma_entries_and_rows(s);
            assert forall|ip: IpAddress, host: Seq<char>| #[trigger]
                res@.contains_key((ip, host)) <==> exists|text: Seq<char>|
                    stored_as(m, ip, host, text) by {
                if res@.contains_key((ip, host)) {
                    let j = choose|j: int| 0 <= j < s.len() && #[trigger] is_entry(s, j, ip, host);
                    assert(stored_as(m, ip, host, s[j].0.0@));
                }
                if exists|text: Seq<char>| stored_as(m, ip, host, text) {
                    let text = choose|text: Seq<char>| stored_as(m, ip, host, text);
                    let j = choose|j: int| 0 <= j < s.len() && #[trigger] s[j].0@ == (text, host);
                    assert(is_entry(s, j, ip, host));
                }
            }
            assert forall|ip: IpAddress, host: Seq<char>, text: Seq<char>| #[trigger]
                stored_last_as(m, ip, host, text) implies res@[(ip, host)] == entry_of(
                m[(text, host)],
            ) by {
                let j = choose|j: int| 0 <= j < s.len() && #[trigger] s[j].0@ == (text, host);
                assert(is_entry(s, j, ip, host));
                assert forall|l: int| j < l < s.len() implies !#[trigger] is_entry(
                    s,
                    l,
                    ip,
                    host,
                ) by {
                    if is_entry(s, l, ip, host) {
                        assert(<(String, String)>::less(s[j].0@, s[l].0@));
                        assert(stored_as(m, ip, host, s[l].0.0@));
                        lemma_text_less_irreflexive(host);
                    }
                }
            }
        }
        res
    }

    /// The steps that bring the rows of `before` to those of this table.
    pub fn changes_since(&self, before: &HostTable) -> (res: Vec<RowChange>)
        requires
            self.wf(),
            before.wf(),
        ensures
            changed_by(before@.rows, res@) == self@.rows,
            self@.rows == before@.rows ==> res@.len() == 0,
    {
        let ghost old_rows = before.rows@;
        let ghost new_rows = self.rows@;
        let ghost s = before.rows.entries@;
        let ghost t = self.rows.entries@;
        proof {
            lemma_entry_map(s);
            lemma_entry_map(t);
        }
        let mut res: Vec<RowChange> = Vec::new();
        let mut i: usize = 0;
        while i < before.rows.entries.len()
            invariant
                before.wf(),
                self.wf(),
                s == before.rows.entries@,
                old_rows == before.rows@,
                new_rows == self.rows@,
                i <= s.len(),
                new_rows == old_rows ==> res@.len() == 0,
                forall|k: (Seq<char>, Seq<char>)| #[trigger]
                    changed_by(old_rows, res@).contains_key(k) ==> old_rows.contains_key(k)
                        && changed_by(old_rows, res@)[k] == old_rows[k],
                forall|k: (Seq<char>, Seq<char>)| #[trigger]
                    old_rows.contains_key(k) && new_rows.contains_key(k) ==> changed_by(
                        old_rows,
                        res@,
                    ).contains_key(k),
                forall|j: int|
                    0 <= j < i && !new_rows.contains_key(#[trigger] s[j].0@) ==> !changed_by(
                        old_rows,
                        res@,
                    ).contains_key(s[j].0@),
            decreases s.len() - i,
        {
            let ghost steps = res@;
            proof {
                lemma_entry_map(s);
            }
            if self.rows.find(&before.rows.entries[i].0).is_none() {
                let ip: String = before.rows.entries[i].0.0.clone();
                let host: String = before.rows.entries[i].0.1.clone();
                let change = RowChange::Remove { ip, host };
                res.push(change);
                proof {
                    assert(res@.drop_last() =~= steps);
                    assert(res@.last() == change);
                    assert(changed_by(old_rows, res@) == changed_by(old_rows, steps).remove(
                        s[i as int].0@,
                    ));
                    assert(old_rows.contains_key(s[i as int].0@));
                }
            }
            i += 1;
        }
        let ghost middle = changed_by(old_rows, res@);
        proof {
            assert forall|k: (Seq<char>, Seq<char>)| #[trigger]
                middle.contains_key(k) implies new_rows.contains_key(k) by {
                let j = choose|j: int| 0 <= j < s.len() && #[trigger] s[j].0@ == k;
                assert(s[j].0@ == k);
            }
        }
        let mut n: usize = 0;
        while n < self.rows.entries.len()
            invariant
                before.wf(),
                self.wf(),
                t == self.rows.entries@,
                old_rows == before.rows@,
                new_rows == self.rows@,
                n <= t.len(),
                new_rows == old_rows ==> res@.len() == 0,
                forall|k: (Seq<char>, Seq<char>)| #[trigger]
                    middle.contains_key(k) ==> new_rows.contains_key(k),
                forall|k: (Seq<char>, Seq<char>)| #[trigger]
                    middle.contains_key(k) ==> old_rows.contains_key(k) && middle[k]
                        == old_rows[k],
                forall|k: (Seq<char>, Seq<char>)| #[trigger]
                    old_rows.contains_key(k) && new_rows.contains_key(k) ==> middle.contains_key(k),
                forall|k: (Seq<char>, Seq<char>)| #[trigger]
                    changed_by(old_rows, res@).contains_key(k) ==> new_rows.contains_key(k) && (
                    changed_by(old_rows, res@)[k] == new_rows[k] || (middle.contains_key(k)
                        && changed_by(old_rows, res@)[k] == middle[k])),
                forall|k: (Seq<char>, Seq<char>)| #[trigger]
                    middle.contains_key(k) ==> changed_by(old_rows, res@).contains_key(k),
                forall|j: int|
                    0 <= j < n ==> changed_by(old_rows, res@).contains_key(#[trigger] t[j].0@)
                        && changed_by(old_rows, res@)[t[j].0@] == new_rows[t[j].0@],
            decreases t.len() - n,
        {
            let ghost steps = res@;
            let ghost key = t[n as int].0@;
            proof {
                lemma_entry_map(t);
                assert(new_rows.contains_key(key) && new_rows[key] == t[n as int].1);
            }
            let r: Registration = self.rows.entries[n].1;
            let same_row: bool = match before.rows.find(&self.rows.entries[n].0) {
                Some(at) => before.rows.entries[at].1 == r,
                None => false,
            };
            if !same_row {
                let row = HostRow {
                    ip: self.rows.entries[n].0.0.clone(),
                    host: self.rows.entries[n].0.1.clone(),
                    ttl_seconds: r.ttl_seconds,
                    registered_at_epoch_secs: r.registered_at_epoch_secs,
                };
                let change = RowChange::Put { row };
                res.push(change);
                proof {
                    assert(res@.drop_last() =~= steps);
                    assert(res@.last() == change);
                    assert(row_registration(row) == r);
                    assert(changed_by(old_rows, res@) == changed_by(old_rows, steps).insert(
                        key,
                        r,
                    ));
                    assert forall|j: int| 0 <= j < n + 1 implies changed_by(
                        old_rows,
                        res@,
                    ).contains_key(#[trigger] t[j].0@) && changed_by(old_rows, res@)[t[j].0@]
                        == new_rows[t[j].0@] by {}
                }
            } else {
                proof {
                    assert(old_rows.contains_key(key) && old_rows[key] == r);
                    assert(middle.contains_key(key));
                }
            }
            n += 1;
        }
        proof {
            assert forall|k: (Seq<char>, Seq<char>)|
                changed_by(old_rows, res@).contains_key(k) <==> new_rows.contains_key(k) by {
                if new_rows.contains_key(k) {
                    let j = choose|j: int| 0 <= j < t.len() && #[trigger] t[j].0@ == k;
                    assert(t[j].0@ == k);
                }
            }
            assert forall|k: (Seq<char>, Seq<char>)| new_rows.contains_key(k) implies changed_by(
                old_rows,
                res@,
            )[k] == new_rows[k] by {
                let j = choose|j: int| 0 <= j < t.len() && #[trigger] t[j].0@ == k;
                assert(t[j].0@ == k);
            }
            assert(changed_by(old_rows, res@) =~= new_rows);
        }
        res
    }

    /// A second table with the same rows and counters.
    pub fn copy(&self) -> (res: HostTable)
        requires
            self.wf(),
        ensures
            res.wf(),
            res@ == self@,
    {
        let ghost s = self.rows.entries@;
        let mut entries: Vec<((String, String), Registration)> = Vec::new();
        let mut i: usize = 0;
        while i < self.rows.entries.len()
            invariant
                s == self.rows.entries@,
                i <= s.len(),
                entries@ == s.take(i as int),
            decreases s.len() - i,
        {
            let ip: String = self.rows.entries[i].0.0.clone();
            let host: String = self.rows.entries[i].0.1.clone();
            entries.push(((ip, host), self.rows.entries[i].1));
            i += 1;
            assert(s.take(i as int) =~= s.take(i - 1).push(s[i - 1]));
        }
        assert(s.take(i as int) =~= s);
        HostTable {
            rows: SortedMap { entries },
            db_generation: self.db_generation,
            file_generation: self.file_generation,
        }
    }
}

/// Whether the row at a place stores a host under an address.
spec fn is_entry(
    s: Seq<((String, String), Registration)>,
    j: int,
    ip: IpAddress,
    host: Seq<char>,
) -> bool {
    s[j].0.1@ == host && ip_value(s[j].0.0@) == Some(ip)
}

proof fn lemma_entries_and_rows(s: Seq<((String, String), Registration)>)
    requires
        ascending(s),
    ensures
        forall|j: int|
            0 <= j < s.len() ==> entry_map(s).contains_key((#[trigger] s[j].0.0@, s[j].0.1@)),
        forall|j: int| 0 <= j < s.len() ==> entry_map(s)[#[trigger] s[j].0@] == s[j].1,
{
    lemma_entry_map(s);
    assert forall|j: int| 0 <= j < s.len() implies entry_map(s).contains_key(
        (#[trigger] s[j].0.0@, s[j].0.1@),
    ) by {
        assert(s[j].0@ == (s[j].0.0@, s[j].0.1@));
    }
}

} // verus!
