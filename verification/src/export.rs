//! How the hosts file is brought up to date.

use crate::api_error::ApiError;
use crate::config::{auth_view, BasicAuthConfig};
use crate::failure::{failure_about, Failure};
use crate::hosts::{law_rendering_is_determined, render_hosts, rendered, HostEntry, HostsByIp};
use crate::ip::IpAddress;
use crate::number::{read_i32, signed_value, within};
use crate::requests::{let_through, purged, refusal, RequestHeaders};
use crate::table::{
    expired, hosts_of_rows, stored_as, stored_last_as, HostTable, Rows, TableState,
};
use crate::text::{
    chars_of, lemma_text_less_irreflexive, lemma_text_less_transitive, text_less, trim_space,
    trimmed, Strip,
};
use crate::text_laws::{is_blank_core, lemma_trim_space_is};
use vstd::prelude::*;
use vstd::string::StringExecFns;
use vstd::utf8::encode_utf8;

verus! {

/// What is to be done next for an export.
#[derive(Clone, Copy, Debug, PartialEq, Eq, Structural)]
pub enum ExportAction {
    /// Write the text to the temporary file.
    WriteTemp,
    /// Read the hosts file.
    ReadTarget,
    /// Write the text over the hosts file.
    WriteTarget,
    /// Remove the temporary file.
    RemoveTemp,
    /// Have dnsmasq read the hosts file again.
    SignalReload,
    /// Note the change that the hosts file was brought up to.
    RecordGeneration,
    /// Nothing: the export is over.
    Finished,
}

/// An export under way. A forced one writes the hosts file whatever is in it.
#[derive(Debug)]
pub struct Export {
    pub rendered: String,
    pub db_generation: i64,
    pub forced: bool,
    pub replaced: bool,
    pub action: ExportAction,
}

/// An export under way, with the bytes that it writes.
pub struct ExportView {
    pub rendered: Seq<u8>,
    pub db_generation: int,
    pub forced: bool,
    pub replaced: bool,
    pub action: ExportAction,
}

impl View for Export {
    type V = ExportView;

    open spec fn view(&self) -> ExportView {
        ExportView {
            rendered: encode_utf8(self.rendered@),
            db_generation: self.db_generation as int,
            forced: self.forced,
            replaced: self.replaced,
            action: self.action,
        }
    }
}

/// An export that has yet to begin.
pub open spec fn started(rendered: Seq<u8>, db_generation: int, forced: bool) -> ExportView {
    ExportView {
        rendered,
        db_generation,
        forced,
        replaced: false,
        action: ExportAction::WriteTemp,
    }
}

/// What comes after the action is done. `existing` is what was read, where the action was to
/// read.
pub open spec fn advanced(e: ExportView, existing: Option<Seq<u8>>) -> ExportView {
    let action = match e.action {
        ExportAction::WriteTemp => if e.forced {
            ExportAction::WriteTarget
        } else {
            ExportAction::ReadTarget
        },
        ExportAction::ReadTarget => if existing == Some(e.rendered) {
            ExportAction::RemoveTemp
        } else {
            ExportAction::WriteTarget
        },
        ExportAction::WriteTarget => ExportAction::RemoveTemp,
        ExportAction::RemoveTemp => if e.replaced {
            ExportAction::SignalReload
        } else {
            ExportAction::RecordGeneration
        },
        ExportAction::SignalReload => ExportAction::RecordGeneration,
        ExportAction::RecordGeneration => ExportAction::Finished,
        ExportAction::Finished => ExportAction::Finished,
    };
    ExportView { action, replaced: e.replaced || e.action == ExportAction::WriteTarget, ..e }
}

/// What an export acts on: the files by their paths, how often dnsmasq was told to read
/// again, and the change that was noted last.
pub struct Surroundings {
    pub files: Map<Seq<char>, Seq<u8>>,
    pub signals: int,
    pub file_generation: int,
}

/// The file beside the target that the text is written to first.
pub open spec fn temp_of(target: Seq<char>) -> Seq<char> {
    target + ".tmp"@
}

/// The content of a file, where there is one.
pub open spec fn content(w: Surroundings, path: Seq<char>) -> Option<Seq<u8>> {
    if w.files.contains_key(path) {
        Some(w.files[path])
    } else {
        None
    }
}

/// What is there after the action is done.
pub open spec fn performed(e: ExportView, target: Seq<char>, w: Surroundings) -> Surroundings {
    match e.action {
        ExportAction::WriteTemp => Surroundings {
            files: w.files.insert(temp_of(target), e.rendered),
            ..w
        },
        ExportAction::WriteTarget => Surroundings {
            files: w.files.insert(target, e.rendered),
            ..w
        },
        ExportAction::RemoveTemp => Surroundings { files: w.files.remove(temp_of(target)), ..w },
        ExportAction::SignalReload => Surroundings { signals: w.signals + 1, ..w },
        ExportAction::RecordGeneration => Surroundings { file_generation: e.db_generation, ..w },
        ExportAction::ReadTarget => w,
        ExportAction::Finished => w,
    }
}

/// How many actions are left at most.
pub open spec fn steps_left(action: ExportAction) -> nat {
    match action {
        ExportAction::WriteTemp => 6,
        ExportAction::ReadTarget => 5,
        ExportAction::WriteTarget => 4,
        ExportAction::RemoveTemp => 3,
        ExportAction::SignalReload => 2,
        ExportAction::RecordGeneration => 1,
        ExportAction::Finished => 0,
    }
}

/// What is there once every action is done.
pub open spec fn outcome(e: ExportView, target: Seq<char>, w: Surroundings) -> Surroundings
    decreases steps_left(e.action),
{
    if e.action == ExportAction::Finished {
        w
    } else {
        outcome(advanced(e, content(w, target)), target, performed(e, target, w))
    }
}

/// An export ends with the text in the hosts file, no temporary file, every other file as it
/// was, and the change noted. dnsmasq is told exactly once where the export was forced or the
/// text is another, and else not at all.
pub proof fn law_export_outcome(
    rendered: Seq<u8>,
    db_generation: int,
    forced: bool,
    target: Seq<char>,
    w: Surroundings,
)
    ensures
        ({
            let after = outcome(started(rendered, db_generation, forced), target, w);
            &&& after.files == w.files.remove(target + ".tmp"@).insert(target, rendered)
            &&& after.file_generation == db_generation
            &&& after.signals == w.signals + if forced || content(w, target) != Some(rendered) {
                1int
            } else {
                0int
            }
        }),
{
    reveal_with_fuel(outcome, 7);
    reveal_strlit(".tmp");
    assert(temp_of(target).len() == target.len() + 4);
    let after = outcome(started(rendered, db_generation, forced), target, w);
    assert(after.files =~= w.files.remove(temp_of(target)).insert(target, rendered));
}

/// What is done until an export is over, where the hosts file holds `existing`.
pub open spec fn actions(e: ExportView, existing: Option<Seq<u8>>) -> Seq<ExportAction>
    decreases steps_left(e.action),
{
    if e.action == ExportAction::Finished {
        Seq::empty()
    } else {
        seq![e.action] + actions(advanced(e, existing), existing)
    }
}

/// The text is first written to the temporary file. Where it is another than that of the hosts
/// file, or where the export is forced, it is then written to the hosts file. The temporary
/// file is removed, then dnsmasq told, if there was something to tell, and the change is noted
/// last.
pub proof fn law_order_of_actions(
    rendered: Seq<u8>,
    db_generation: int,
    existing: Option<Seq<u8>>,
)
    ensures
        actions(started(rendered, db_generation, true), existing) == seq![
            ExportAction::WriteTemp,
            ExportAction::WriteTarget,
            ExportAction::RemoveTemp,
            ExportAction::SignalReload,
            ExportAction::RecordGeneration,
        ],
        existing != Some(rendered) ==> actions(started(rendered, db_generation, false), existing)
            == seq![
            ExportAction::WriteTemp,
            ExportAction::ReadTarget,
            ExportAction::WriteTarget,
            ExportAction::RemoveTemp,
            ExportAction::SignalReload,
            ExportAction::RecordGeneration,
        ],
        existing == Some(rendered) ==> actions(started(rendered, db_generation, false), existing)
            == seq![
            ExportAction::WriteTemp,
            ExportAction::ReadTarget,
            ExportAction::RemoveTemp,
            ExportAction::RecordGeneration,
        ],
{
    reveal_with_fuel(actions, 7);
    assert(actions(started(rendered, db_generation, true), existing) =~= seq![
        ExportAction::WriteTemp,
        ExportAction::WriteTarget,
        ExportAction::RemoveTemp,
        ExportAction::SignalReload,
        ExportAction::RecordGeneration,
    ]);
    if existing != Some(rendered) {
        assert(actions(started(rendered, db_generation, false), existing) =~= seq![
            ExportAction::WriteTemp,
            ExportAction::ReadTarget,
            ExportAction::WriteTarget,
            ExportAction::RemoveTemp,
            ExportAction::SignalReload,
            ExportAction::RecordGeneration,
        ]);
    } else {
        assert(actions(started(rendered, db_generation, false), existing) =~= seq![
            ExportAction::WriteTemp,
            ExportAction::ReadTarget,
            ExportAction::RemoveTemp,
            ExportAction::RecordGeneration,
        ]);
    }
}

/// The temporary file has the path of the target with an ending of its own behind it.
pub proof fn law_temporary_file(target: Seq<char>)
    ensures
        temp_of(target) == target + ".tmp"@,
{
}

/// A process number is the text without the white space round it, read as a number with a sign
/// that fits in 32 bits; anything else is refused.
pub proof fn law_process_number(raw: Seq<char>, core: Seq<char>, path: Seq<char>, pid: int)
    requires
        is_blank_core(raw, core),
    ensures
        pid_value(raw, path) == Ok::<int, Seq<char>>(pid) <==> signed_value(core) == Some(pid)
            && -0x8000_0000 <= pid <= 0x7fff_ffff,
        pid_value(raw, path) matches Err(m) ==> m == "invalid pid in "@ + path,
{
    lemma_trim_space_is(raw, core);
}

/// An export that repeats the last one tells dnsmasq nothing and leaves the files alone,
/// unless it is forced.
pub proof fn law_repeated_export_is_silent(
    rendered: Seq<u8>,
    first: int,
    second: int,
    forced: bool,
    target: Seq<char>,
    w: Surroundings,
)
    ensures
        ({
            let once = outcome(started(rendered, first, forced), target, w);
            let twice = outcome(started(rendered, second, false), target, once);
            twice.files == once.files && twice.signals == once.signals
        }),
{
    law_export_outcome(rendered, first, forced, target, w);
    let once = outcome(started(rendered, first, forced), target, w);
    law_export_outcome(rendered, second, false, target, once);
    reveal_strlit(".tmp");
    assert(temp_of(target).len() == target.len() + 4);
    assert(once.files.remove(temp_of(target)).insert(target, rendered) =~= once.files);
}

/// Whether `text` is the hosts file for the rows.
pub open spec fn is_hosts_file(m: Rows, text: Seq<char>) -> bool {
    exists|hosts: HostsByIp|
        hosts.wf() && hosts_of_rows(m, hosts@) && text == #[trigger] rendered(hosts.entries@)
}

proof fn lemma_last_key(keys: Set<(Seq<char>, Seq<char>)>)
    requires
        keys.finite(),
        keys.len() > 0,
    ensures
        exists|k: (Seq<char>, Seq<char>)| #[trigger]
            keys.contains(k) && forall|other: (Seq<char>, Seq<char>)| #[trigger]
                keys.contains(other) ==> !text_less(k.0, other.0),
    decreases keys.len(),
{
    let one = keys.choose();
    let rest = keys.remove(one);
    lemma_text_less_irreflexive(one.0);
    if rest.len() == 0 {
        assert forall|other: (Seq<char>, Seq<char>)| #[trigger]
            keys.contains(other) implies !text_less(one.0, other.0) by {
            if other != one {
                assert(rest.contains(other));
                assert(rest =~= Set::empty());
            }
        }
        assert(keys.contains(one));
    } else {
        lemma_last_key(rest);
        let k = choose|k: (Seq<char>, Seq<char>)| #[trigger]
            rest.contains(k) && forall|other: (Seq<char>, Seq<char>)| #[trigger]
                rest.contains(other) ==> !text_less(k.0, other.0);
        if text_less(k.0, one.0) {
            assert forall|other: (Seq<char>, Seq<char>)| #[trigger]
                keys.contains(other) implies !text_less(one.0, other.0) by {
                if other != one {
                    assert(rest.contains(other));
                    if text_less(one.0, other.0) {
                        lemma_text_less_transitive(k.0, one.0, other.0);
                    }
                }
            }
            assert(keys.contains(one));
        } else {
            assert forall|other: (Seq<char>, Seq<char>)| #[trigger]
                keys.contains(other) implies !text_less(k.0, other.0) by {
                if other != one {
                    assert(rest.contains(other));
                }
            }
            assert(keys.contains(k));
        }
    }
}

proof fn lemma_last_text(m: Rows, ip: IpAddress, host: Seq<char>, text: Seq<char>)
    requires
        m.dom().finite(),
        stored_as(m, ip, host, text),
    ensures
        exists|last: Seq<char>| #[trigger] stored_last_as(m, ip, host, last),
{
    let keys = m.dom().filter(
        |k: (Seq<char>, Seq<char>)| k.1 == host && stored_as(m, ip, host, k.0),
    );
    assert(keys.contains((text, host)));
    assert(keys.len() > 0);
    lemma_last_key(keys);
    let k = choose|k: (Seq<char>, Seq<char>)| #[trigger]
        keys.contains(k) && forall|other: (Seq<char>, Seq<char>)| #[trigger]
            keys.contains(other) ==> !text_less(k.0, other.0);
    assert forall|other: Seq<char>| #[trigger] stored_as(m, ip, host, other) implies !text_less(
        k.0,
        other,
    ) by {
        assert(keys.contains((other, host)));
    }
    assert(stored_last_as(m, ip, host, k.0));
}

/// The rows alone decide which hosts are active.
pub proof fn law_rows_determine_hosts(
    m: Rows,
    a: Map<(IpAddress, Seq<char>), HostEntry>,
    b: Map<(IpAddress, Seq<char>), HostEntry>,
)
    requires
        m.dom().finite(),
        hosts_of_rows(m, a),
        hosts_of_rows(m, b),
    ensures
        a == b,
{
    assert forall|k: (IpAddress, Seq<char>)| a.contains_key(k) <==> b.contains_key(k) by {
        assert(a.contains_key((k.0, k.1)) <==> b.contains_key((k.0, k.1)));
    }
    assert forall|k: (IpAddress, Seq<char>)| a.contains_key(k) implies a[k] == b[k] by {
        assert(a.contains_key((k.0, k.1)));
        let text = choose|text: Seq<char>| stored_as(m, k.0, k.1, text);
        lemma_last_text(m, k.0, k.1, text);
        let last = choose|last: Seq<char>| #[trigger] stored_last_as(m, k.0, k.1, last);
        assert(stored_last_as(m, k.0, k.1, last));
        assert(a[(k.0, k.1)] == b[(k.0, k.1)]);
    }
    assert(a =~= b);
}

/// The rows alone decide what the hosts file holds.
pub proof fn law_rows_determine_the_file(m: Rows, a: Seq<char>, b: Seq<char>)
    requires
        m.dom().finite(),
        is_hosts_file(m, a),
        is_hosts_file(m, b),
    ensures
        a == b,
{
    let x = choose|hosts: HostsByIp|
        hosts.wf() && hosts_of_rows(m, hosts@) && a == #[trigger] rendered(hosts.entries@);
    let y = choose|hosts: HostsByIp|
        hosts.wf() && hosts_of_rows(m, hosts@) && b == #[trigger] rendered(hosts.entries@);
    law_rows_determine_hosts(m, x@, y@);
    law_rendering_is_determined(x, y);
}

/// Whether this is the export of a table, about to begin.
pub open spec fn exports(e: Export, t: TableState, forced: bool) -> bool {
    &&& is_hosts_file(t.rows, e.rendered@)
    &&& e@ == started(encode_utf8(e.rendered@), t.db_generation, forced)
}

fn export_of(table: &HostTable, forced: bool) -> (res: Export)
    requires
        table.wf(),
    ensures
        exports(res, table@, forced),
{
    let hosts = table.load_hosts();
    let text = render_hosts(&hosts);
    assert(text@ == rendered(hosts.entries@));
    Export {
        rendered: text,
        db_generation: table.db_generation(),
        forced,
        replaced: false,
        action: ExportAction::WriteTemp,
    }
}

/// Drops what has expired, and begins an export where there is a change that the hosts file
/// was not brought up to.
pub fn begin_flush(table: &mut HostTable, now: i64) -> (res: Option<Export>)
    requires
        old(table).wf(),
        old(table)@.db_generation < i64::MAX,
    ensures
        final(table).wf(),
        final(table)@ == purged(old(table)@, now),
        match res {
            Some(e) => final(table)@.db_generation != final(table)@.file_generation && exports(
                e,
                final(table)@,
                false,
            ),
            None => final(table)@.db_generation == final(table)@.file_generation,
        },
{
    table.purge_expired(now);
    if table.db_generation() == table.file_generation() {
        None
    } else {
        Some(export_of(table, false))
    }
}

/// Drops what has expired, and begins an export whether or not there is a change.
pub fn begin_export(table: &mut HostTable, now: i64) -> (res: Export)
    requires
        old(table).wf(),
        old(table)@.db_generation < i64::MAX,
    ensures
        final(table).wf(),
        final(table)@ == purged(old(table)@, now),
        exports(res, final(table)@, true),
{
    table.purge_expired(now);
    export_of(table, true)
}

/// Begins a forced export for a request, if the request may change anything.
pub fn export_now(
    table: &mut HostTable,
    auth: &Option<BasicAuthConfig>,
    headers: &RequestHeaders,
    now: i64,
) -> (res: Result<Export, ApiError>)
    requires
        old(table).wf(),
        old(table)@.db_generation < i64::MAX,
    ensures
        final(table).wf(),
        match res {
            Err(e) => {
                &&& refusal(auth_view(*auth), headers@, true) == Some(e@)
                &&& final(table)@ == old(table)@
            },
            Ok(e) => {
                &&& refusal(auth_view(*auth), headers@, true) is None
                &&& final(table)@ == purged(old(table)@, now)
                &&& exports(e, final(table)@, true)
            },
        },
{
    match let_through(auth, headers, true) {
        Ok(_) => Ok(begin_export(table, now)),
        Err(e) => Err(e),
    }
}

/// The message once a forced export is over.
pub fn export_completed() -> (res: &'static str)
    ensures
        res@ == "export completed"@,
{
    "export completed"
}

fn same_bytes(a: &[u8], b: &[u8]) -> (res: bool)
    ensures
        res == (a@ == b@),
{
    if a.len() != b.len() {
        return false;
    }
    let mut i: usize = 0;
    while i < a.len()
        invariant
            i <= a@.len(),
            a@.len() == b@.len(),
            forall|j: int| 0 <= j < i ==> a@[j] == b@[j],
        decreases a@.len() - i,
    {
        if a[i] != b[i] {
            return false;
        }
        i += 1;
    }
    assert(a@ =~= b@);
    true
}

impl Export {
    /// Goes on once the action is done. `existing` is what was read, where the action was to
    /// read; there is nothing where the file is not there.
    pub fn advance(&mut self, existing: Option<&[u8]>)
        ensures
            final(self)@ == advanced(
                old(self)@,
                match existing {
                    Some(bytes) => Some(bytes@),
                    None => None,
                },
            ),
            final(self).rendered == old(self).rendered,
    {
        match self.action {
            ExportAction::WriteTemp => {
                self.action = if self.forced {
                    ExportAction::WriteTarget
                } else {
                    ExportAction::ReadTarget
                };
            },
            ExportAction::ReadTarget => {
                let unchanged: bool = match existing {
                    Some(bytes) => same_bytes(bytes, self.rendered.as_str().as_bytes()),
                    None => false,
                };
                self.action = if unchanged {
                    ExportAction::RemoveTemp
                } else {
                    ExportAction::WriteTarget
                };
            },
            ExportAction::WriteTarget => {
                self.replaced = true;
                self.action = ExportAction::RemoveTemp;
            },
            ExportAction::RemoveTemp => {
                self.action = if self.replaced {
                    ExportAction::SignalReload
                } else {
                    ExportAction::RecordGeneration
                };
            },
            ExportAction::SignalReload => {
                self.action = ExportAction::RecordGeneration;
            },
            ExportAction::RecordGeneration => {
                self.action = ExportAction::Finished;
            },
            ExportAction::Finished => {},
        }
    }
}

/// The file beside the target that the text is written to first.
pub fn temp_path(target: &str) -> (res: String)
    ensures
        res@ == temp_of(target@),
{
    let mut res = String::new();
    res.append(target);
    res.append(".tmp");
    assert(res@ =~= temp_of(target@));
    res
}

/// The process whose number a file holds, with white space round it at most.
pub open spec fn pid_value(raw: Seq<char>, path: Seq<char>) -> Result<int, Seq<char>> {
    match within(signed_value(trim_space(raw)), i32::MIN as int, i32::MAX as int) {
        Some(pid) => Ok(pid),
        None => Err("invalid pid in "@ + path),
    }
}

/// The process whose number the file at `path` holds.
pub fn parse_pid(raw: &str, path: &str) -> (res: Result<i32, Failure>)
    ensures
        match (res, pid_value(raw@, path@)) {
            (Ok(v), Ok(w)) => v == w,
            (Err(e), Err(m)) => e.message@ == m,
            _ => false,
        },
{
    match read_i32(&trimmed(&chars_of(raw), Strip::WhiteSpace)) {
        Some(pid) => Ok(pid),
        None => Err(failure_about("invalid pid in ", path)),
    }
}

/// Whether to log that there is nothing to export: not yet logged, or not in the last two
/// days. `elapsed_secs` is how many whole seconds ago it was logged last.
pub fn should_log_no_pending(elapsed_secs: Option<u64>) -> (res: bool)
    ensures
        res == (elapsed_secs is None || elapsed_secs->0 >= 2 * 24 * 60 * 60),
{
    match elapsed_secs {
        None => true,
        Some(secs) => secs >= 172800,
    }
}

/// Once an export is noted, there is nothing to export until the next change.
pub proof fn law_nothing_pending_after_export(t: TableState, now: i64)
    requires
        forall|k: (Seq<char>, Seq<char>)| #[trigger]
            t.rows.contains_key(k) ==> !expired(t.rows[k], now as int),
    ensures
        ({
            let noted = TableState { file_generation: t.db_generation, ..t };
            let next = purged(noted, now);
            next == noted && next.db_generation == next.file_generation
        }),
{
    let noted = TableState { file_generation: t.db_generation, ..t };
    assert(purged(noted, now).rows =~= t.rows);
}

} // verus!
