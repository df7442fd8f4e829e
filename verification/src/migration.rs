//! Taking over what earlier collectors recorded.
use crate::arith::{max_int, min_int};
use crate::catch_up::cursors_wf;
use crate::collector_core::{
    copy_source, copy_state, cursor_opt, file_fingerprint, file_prefix_fingerprint,
    prefix_fingerprint, source_id_for_identity, source_id_of, source_views, BindingStatus,
    RolloutSource, SourceCondition, SourceView,
};
use crate::digest::fingerprint;
use crate::health::AccountDataHealth;
use crate::ledger::{
    audits_of_quarantine, find_turn, has_sample, has_turn, same_sample, sample_views, samples_with,
    turn_at, turn_key, TimelineAudit, TurnLedger,
};
use crate::models::{Confidence, TokenUsage, TurnUsageRecord};
use crate::names::{add_name, ascending, lists};
use crate::percent::Percent;
use crate::quota::{RateLimitRow, RateSample};
use crate::rebuild::{key_views, without_accounts, FileBindingStatus};
use crate::recorder::{AccountRecord, DailyUsageRow};
use crate::rollout::{CursorState, CursorView, SampleView, TurnTokenSample, TurnView};
use crate::table::{
    first_where, lemma_first_where, lemma_first_where_at, lemma_first_where_none,
};
use crate::text::{ascii_lower, ascii_lowercase, joined, same_text, text_opt};
use vstd::prelude::*;
use vstd::utf8::encode_utf8;

verus! {

// ---------------------------------------------------------------------------
// Files that were bound by their path
// ---------------------------------------------------------------------------

/// A file as an earlier collector bound it.
#[derive(Debug)]
pub struct LegacyBinding {
    pub path: String,
    pub account_key: Option<String>,
    pub status: FileBindingStatus,
    pub first_seen_at: i64,
    pub last_seen_at: i64,
}

/// How far an earlier collector had read a file.
#[derive(Debug)]
pub struct LegacyCursor {
    pub path: String,
    pub byte_offset: i64,
    pub last_modified_at: Option<i64>,
    pub last_scanned_at: i64,
    pub state: Option<CursorState>,
}

/// What earlier collectors recorded of a file.
#[derive(Debug)]
pub struct LegacySource {
    pub path: String,
    pub account_key: Option<String>,
    pub status: Option<FileBindingStatus>,
    pub first_seen_at: i64,
    pub last_seen_at: i64,
}

/// The mathematical value of a [`LegacySource`].
#[verifier::ext_equal]
pub struct LegacyView {
    pub path: Seq<char>,
    pub account_key: Option<Seq<char>>,
    pub status: Option<FileBindingStatus>,
    pub first_seen_at: int,
    pub last_seen_at: int,
}

impl View for LegacySource {
    type V = LegacyView;

    open spec fn view(&self) -> LegacyView {
        LegacyView {
            path: self.path@,
            account_key: text_opt(self.account_key),
            status: self.status,
            first_seen_at: self.first_seen_at as int,
            last_seen_at: self.last_seen_at as int,
        }
    }
}

pub open spec fn legacy_views(entries: Seq<LegacySource>) -> Seq<LegacyView> {
    Seq::new(entries.len(), |i: int| entries[i]@)
}

pub open spec fn is_path(path: Seq<char>) -> spec_fn(LegacyView) -> bool {
    |entry: LegacyView| entry.path == path
}

/// The entries with one more record of a file. What a later record says goes before what an
/// earlier one did, and the times reach from the first to the last.
pub open spec fn entries_with(entries: Seq<LegacyView>, record: LegacyView) -> Seq<LegacyView> {
    match first_where(entries, is_path(record.path)) {
        Some(at) => entries.update(
            at,
            LegacyView {
                path: entries[at].path,
                account_key: match record.account_key {
                    Some(account) => Some(account),
                    None => entries[at].account_key,
                },
                status: match record.status {
                    Some(status) => Some(status),
                    None => entries[at].status,
                },
                first_seen_at: min_int(entries[at].first_seen_at, record.first_seen_at),
                last_seen_at: max_int(entries[at].last_seen_at, record.last_seen_at),
            },
        ),
        None => entries.push(record),
    }
}

pub open spec fn binding_record(binding: LegacyBinding) -> LegacyView {
    LegacyView {
        path: binding.path@,
        account_key: text_opt(binding.account_key),
        status: Some(binding.status),
        first_seen_at: binding.first_seen_at as int,
        last_seen_at: binding.last_seen_at as int,
    }
}

pub open spec fn cursor_record(cursor: LegacyCursor) -> LegacyView {
    LegacyView {
        path: cursor.path@,
        account_key: None,
        status: None,
        first_seen_at: cursor.last_scanned_at as int,
        last_seen_at: cursor.last_scanned_at as int,
    }
}

pub open spec fn entries_of_bindings(bindings: Seq<LegacyBinding>) -> Seq<LegacyView>
    decreases bindings.len(),
{
    if bindings.len() == 0 {
        Seq::empty()
    } else {
        entries_with(entries_of_bindings(bindings.drop_last()), binding_record(bindings.last()))
    }
}

pub open spec fn entries_of(
    bindings: Seq<LegacyBinding>,
    cursors: Seq<LegacyCursor>,
) -> Seq<LegacyView>
    decreases cursors.len(),
{
    if cursors.len() == 0 {
        entries_of_bindings(bindings)
    } else {
        entries_with(entries_of(bindings, cursors.drop_last()), cursor_record(cursors.last()))
    }
}

fn add_record(entries: &mut Vec<LegacySource>, record: LegacySource)
    ensures
        legacy_views(final(entries)@) == entries_with(legacy_views(old(entries)@), record@),
{
    let ghost before = legacy_views(entries@);
    let ghost pick = is_path(record@.path);
    let ghost view = record@;
    let mut i: usize = 0;
    while i < entries.len()
        invariant
            i <= entries.len(),
            entries@ == old(entries)@,
            before == legacy_views(entries@),
            view == record@,
            pick == is_path(record@.path),
            forall|k: int| 0 <= k < i ==> !pick(#[trigger] before[k]),
        decreases entries.len() - i,
    {
        assert(before[i as int] == entries@[i as int]@);
        if same_text(entries[i].path.as_str(), record.path.as_str()) {
            proof {
                lemma_first_where_at(before, pick, i as int);
            }
            let merged = LegacySource {
                path: entries[i].path.clone(),
                account_key: match record.account_key {
                    Some(account) => Some(account),
                    None => match &entries[i].account_key {
                        Some(account) => Some(account.clone()),
                        None => None,
                    },
                },
                status: match record.status {
                    Some(status) => Some(status),
                    None => entries[i].status,
                },
                first_seen_at: entries[i].first_seen_at.min(record.first_seen_at),
                last_seen_at: entries[i].last_seen_at.max(record.last_seen_at),
            };
            let ghost merged_view = merged@;
            entries.set(i, merged);
            assert(legacy_views(entries@) =~= before.update(i as int, merged_view));
            return;
        }
        i += 1;
    }
    proof {
        lemma_first_where_none(before, pick);
    }
    entries.push(record);
    assert(legacy_views(entries@) =~= before.push(view));
}

/// What earlier collectors recorded of each file, in the order in which the files were first
/// recorded.
pub fn gather_legacy_sources(
    bindings: &Vec<LegacyBinding>,
    cursors: &Vec<LegacyCursor>,
) -> (r: Vec<LegacySource>)
    ensures
        legacy_views(r@) == entries_of(bindings@, cursors@),
{
    let mut entries: Vec<LegacySource> = Vec::new();
    let mut i: usize = 0;
    assert(bindings@.take(0) =~= Seq::empty());
    assert(legacy_views(entries@) =~= Seq::empty());
    while i < bindings.len()
        invariant
            i <= bindings.len(),
            legacy_views(entries@) == entries_of_bindings(bindings@.take(i as int)),
        decreases bindings.len() - i,
    {
        proof {
            assert(bindings@.take(i + 1).drop_last() =~= bindings@.take(i as int));
            assert(bindings@.take(i + 1).last() == bindings@[i as int]);
        }
        let record = LegacySource {
            path: bindings[i].path.clone(),
            account_key: match &bindings[i].account_key {
                Some(account) => Some(account.clone()),
                None => None,
            },
            status: Some(bindings[i].status),
            first_seen_at: bindings[i].first_seen_at,
            last_seen_at: bindings[i].last_seen_at,
        };
        assert(record@ =~= binding_record(bindings@[i as int]));
        add_record(&mut entries, record);
        i += 1;
    }
    assert(bindings@.take(bindings@.len() as int) =~= bindings@);
    let mut i: usize = 0;
    assert(cursors@.take(0) =~= Seq::empty());
    while i < cursors.len()
        invariant
            i <= cursors.len(),
            legacy_views(entries@) == entries_of(bindings@, cursors@.take(i as int)),
        decreases cursors.len() - i,
    {
        proof {
            assert(cursors@.take(i + 1).drop_last() =~= cursors@.take(i as int));
            assert(cursors@.take(i + 1).last() == cursors@[i as int]);
        }
        let record = LegacySource {
            path: cursors[i].path.clone(),
            account_key: None,
            status: None,
            first_seen_at: cursors[i].last_scanned_at,
            last_seen_at: cursors[i].last_scanned_at,
        };
        assert(record@ =~= cursor_record(cursors@[i as int]));
        add_record(&mut entries, record);
        i += 1;
    }
    assert(cursors@.take(cursors@.len() as int) =~= cursors@);
    entries
}

// ---------------------------------------------------------------------------
// Taking a file over into the registry
// ---------------------------------------------------------------------------

/// A recorded file as it is found now, if it still is.
pub struct LegacyFile {
    pub canonical_path: String,
    /// What tells the file from others, where it is there.
    pub identity: Option<String>,
    pub bytes: Option<Vec<u8>>,
}

/// What tells a recorded file from others: its identity, or its path where it is gone.
pub open spec fn identity_of(file: LegacyFile) -> Seq<char> {
    match file.identity {
        Some(identity) => identity@,
        None => "legacy-path:"@ + file.canonical_path@,
    }
}

fn legacy_identity(file: &LegacyFile) -> (r: String)
    ensures
        r@ == identity_of(*file),
{
    match &file.identity {
        Some(identity) => identity.clone(),
        None => joined("legacy-path:", file.canonical_path.as_str()),
    }
}

/// The registered source that a recorded file is.
pub open spec fn fits_file(file: LegacyFile) -> spec_fn(SourceView) -> bool {
    |source: SourceView|
        source.source_id == source_id_of(identity_of(file)) || source.file_identity == identity_of(
            file,
        ) || source.canonical_path == file.canonical_path@
}

/// How far a file was read, and what was known there.
pub struct ReadSoFar {
    pub offset: u64,
    pub modified_at: Option<i64>,
    pub state: Option<CursorView>,
    pub size: u64,
    pub fingerprint: Option<Seq<char>>,
    pub prefix_fingerprint: Option<Seq<char>>,
}

pub open spec fn read_so_far(cursor: Option<LegacyCursor>, file: LegacyFile) -> ReadSoFar {
    let offset = match cursor {
        Some(cursor) => max_int(cursor.byte_offset as int, 0),
        None => 0,
    };
    ReadSoFar {
        offset: offset as u64,
        modified_at: match cursor {
            Some(cursor) => cursor.last_modified_at,
            None => None,
        },
        state: match cursor {
            Some(cursor) => cursor_opt(cursor.state),
            None => None,
        },
        size: match file.bytes {
            Some(bytes) => bytes@.len() as u64,
            None => 0,
        },
        fingerprint: match file.bytes {
            Some(bytes) => Some(fingerprint(bytes@)),
            None => None,
        },
        prefix_fingerprint: match file.bytes {
            Some(bytes) => Some(prefix_fingerprint(bytes@, offset)),
            None => None,
        },
    }
}

/// The file was bound to an account.
pub open spec fn was_bound(entry: LegacyView) -> bool {
    entry.account_key is Some && entry.status == Some(FileBindingStatus::Bound)
}

/// When a recorded file was last seen.
pub open spec fn seen_at(entry: LegacyView) -> int {
    max_int(entry.last_seen_at, entry.first_seen_at)
}

/// The source that a recorded file becomes.
pub open spec fn new_source(entry: LegacyView, file: LegacyFile, read: ReadSoFar) -> SourceView {
    SourceView {
        source_id: source_id_of(identity_of(file)),
        canonical_path: file.canonical_path@,
        file_identity: identity_of(file),
        session_id: None,
        thread_id: None,
        account_key: if was_bound(entry) {
            entry.account_key
        } else {
            None
        },
        binding_status: if was_bound(entry) {
            BindingStatus::Verified
        } else {
            BindingStatus::Unresolved
        },
        binding_source: if was_bound(entry) {
            "legacy_migration"@
        } else {
            "unresolved"@
        },
        binding_confidence: if was_bound(entry) {
            "high"@
        } else {
            "unknown"@
        },
        first_seen_at: entry.first_seen_at as i64,
        first_activity_at: None,
        last_activity_at: None,
        last_offset: read.offset,
        last_size: read.size,
        last_mtime: read.modified_at,
        cursor: read.state,
        file_fingerprint: read.fingerprint,
        cursor_prefix_fingerprint: read.prefix_fingerprint,
        generation: 0,
        parser_version: 0,
        condition: SourceCondition::Unknown,
        last_error: None,
        last_error_at: None,
        updated_at: seen_at(entry) as i64,
    }
}

/// A registered source after a record of its file was taken over. A verified binding stays,
/// and so does how far the source was read, where it was read at all.
pub open spec fn taken_over(source: SourceView, entry: LegacyView, read: ReadSoFar) -> SourceView {
    let verified = source.binding_status == BindingStatus::Verified;
    let unread = source.last_offset == 0;
    SourceView {
        account_key: if verified {
            source.account_key
        } else if was_bound(entry) {
            entry.account_key
        } else {
            None
        },
        binding_status: if verified || was_bound(entry) {
            BindingStatus::Verified
        } else {
            source.binding_status
        },
        binding_source: if verified {
            source.binding_source
        } else if was_bound(entry) {
            "legacy_migration"@
        } else {
            "unresolved"@
        },
        binding_confidence: if verified {
            source.binding_confidence
        } else if was_bound(entry) {
            "high"@
        } else {
            "unknown"@
        },
        last_offset: if unread {
            read.offset
        } else {
            source.last_offset
        },
        last_size: if unread {
            read.size
        } else {
            source.last_size
        },
        last_mtime: if unread {
            read.modified_at
        } else {
            source.last_mtime
        },
        cursor: if unread {
            read.state
        } else {
            source.cursor
        },
        file_fingerprint: if unread {
            read.fingerprint
        } else {
            source.file_fingerprint
        },
        cursor_prefix_fingerprint: if unread {
            read.prefix_fingerprint
        } else {
            source.cursor_prefix_fingerprint
        },
        updated_at: seen_at(entry) as i64,
        ..source
    }
}

/// The registry after a recorded file was taken over, and the place of its source.
pub open spec fn registry_with(
    sources: Seq<SourceView>,
    entry: LegacyView,
    file: LegacyFile,
    cursor: Option<LegacyCursor>,
) -> (Seq<SourceView>, int) {
    let read = read_so_far(cursor, file);
    match first_where(sources, fits_file(file)) {
        Some(at) => (sources.update(at, taken_over(sources[at], entry, read)), at),
        None => (sources.push(new_source(entry, file, read)), sources.len() as int),
    }
}

/// Why a record's account was kept or cleared when it was taken over.
#[derive(Debug)]
pub struct LegacyAudit {
    pub source_id: String,
    pub account_key: String,
    /// The account is now the source's own.
    pub verified: bool,
    /// How the record stood.
    pub status: Option<FileBindingStatus>,
    pub changed_at: i64,
}

/// The mathematical value of a [`LegacyAudit`].
#[verifier::ext_equal]
pub struct LegacyAuditView {
    pub source_id: Seq<char>,
    pub account_key: Seq<char>,
    pub verified: bool,
    pub status: Option<FileBindingStatus>,
    pub changed_at: int,
}

impl View for LegacyAudit {
    type V = LegacyAuditView;

    open spec fn view(&self) -> LegacyAuditView {
        LegacyAuditView {
            source_id: self.source_id@,
            account_key: self.account_key@,
            verified: self.verified,
            status: self.status,
            changed_at: self.changed_at as int,
        }
    }
}

pub open spec fn legacy_audit_views(audits: Seq<LegacyAudit>) -> Seq<LegacyAuditView> {
    Seq::new(audits.len(), |i: int| audits[i]@)
}

/// The same is audited already.
pub open spec fn is_audited(
    audits: Seq<LegacyAuditView>,
    source_id: Seq<char>,
    account_key: Seq<char>,
    verified: bool,
) -> bool {
    exists|i: int|
        0 <= i < audits.len() && (#[trigger] audits[i]).source_id == source_id
            && audits[i].account_key == account_key && audits[i].verified == verified
}

/// The audits after a record was taken over into a source: an account that the record names is
/// accounted for once, as kept or as cleared.
pub open spec fn legacy_audits_with(
    audits: Seq<LegacyAuditView>,
    entry: LegacyView,
    source: SourceView,
) -> Seq<LegacyAuditView> {
    match entry.account_key {
        Some(account_key) => {
            let verified = was_bound(entry);
            let due = if verified {
                source.binding_status == BindingStatus::Verified
            } else {
                source.binding_status == BindingStatus::Unresolved
            };
            if due && !is_audited(audits, source.source_id, account_key, verified) {
                audits.push(
                    LegacyAuditView {
                        source_id: source.source_id,
                        account_key,
                        verified,
                        status: entry.status,
                        changed_at: seen_at(entry),
                    },
                )
            } else {
                audits
            }
        },
        None => audits,
    }
}

fn copy_text(value: &Option<String>) -> (r: Option<String>)
    ensures
        r == *value,
{
    match value {
        Some(text) => Some(text.clone()),
        None => None,
    }
}

fn find_source_of(sources: &Vec<RolloutSource>, file: &LegacyFile) -> (r: Option<usize>)
    ensures
        match (r, first_where(source_views(sources@), fits_file(*file))) {
            (Some(found), Some(at)) => found == at && found < sources@.len(),
            (None, None) => true,
            _ => false,
        },
{
    let identity = legacy_identity(file);
    let proposed = source_id_for_identity(identity.as_str());
    let ghost views = source_views(sources@);
    let ghost pick = fits_file(*file);
    let mut i: usize = 0;
    while i < sources.len()
        invariant
            i <= sources.len(),
            views == source_views(sources@),
            pick == fits_file(*file),
            identity@ == identity_of(*file),
            proposed@ == source_id_of(identity@),
            forall|k: int| 0 <= k < i ==> !pick(#[trigger] views[k]),
        decreases sources.len() - i,
    {
        assert(views[i as int] == sources@[i as int]@);
        if same_text(sources[i].source_id.as_str(), proposed.as_str()) || same_text(
            sources[i].file_identity.as_str(),
            identity.as_str(),
        ) || same_text(sources[i].canonical_path.as_str(), file.canonical_path.as_str()) {
            proof {
                lemma_first_where_at(views, pick, i as int);
            }
            return Some(i);
        }
        i += 1;
    }
    proof {
        lemma_first_where_none(views, pick);
    }
    None
}

fn audit_legacy(audits: &mut Vec<LegacyAudit>, entry: &LegacySource, source: &RolloutSource)
    ensures
        legacy_audit_views(final(audits)@) == legacy_audits_with(
            legacy_audit_views(old(audits)@),
            entry@,
            source@,
        ),
{
    let account_key = match &entry.account_key {
        Some(account_key) => account_key,
        None => {
            return;
        },
    };
    let verified = match entry.status {
        Some(FileBindingStatus::Bound) => true,
        _ => false,
    };
    let due = if verified {
        source.binding_status == BindingStatus::Verified
    } else {
        source.binding_status == BindingStatus::Unresolved
    };
    if !due {
        return;
    }
    let ghost before = legacy_audit_views(audits@);
    let mut i: usize = 0;
    while i < audits.len()
        invariant
            i <= audits.len(),
            audits@ == old(audits)@,
            before == legacy_audit_views(audits@),
            entry@.account_key == Some(account_key@),
            verified == was_bound(entry@),
            forall|k: int|
                0 <= k < i ==> !((#[trigger] before[k]).source_id == source@.source_id
                    && before[k].account_key == account_key@ && before[k].verified == verified),
        decreases audits.len() - i,
    {
        assert(before[i as int] == audits@[i as int]@);
        if audits[i].verified == verified && same_text(
            audits[i].source_id.as_str(),
            source.source_id.as_str(),
        ) && same_text(audits[i].account_key.as_str(), account_key.as_str()) {
            assert(is_audited(before, source@.source_id, account_key@, verified));
            return;
        }
        i += 1;
    }
    let audit = LegacyAudit {
        source_id: source.source_id.clone(),
        account_key: account_key.clone(),
        verified,
        status: entry.status,
        changed_at: entry.last_seen_at.max(entry.first_seen_at),
    };
    let ghost view = audit@;
    audits.push(audit);
    assert(legacy_audit_views(audits@) =~= before.push(view));
}

/// Takes a recorded file over into the registry.
pub fn migrate_legacy_source(
    sources: &mut Vec<RolloutSource>,
    audits: &mut Vec<LegacyAudit>,
    entry: &LegacySource,
    file: &LegacyFile,
    cursor: Option<&LegacyCursor>,
)
    ensures
        ({
            let read = match cursor {
                Some(cursor) => Some(*cursor),
                None => None,
            };
            let (after, at) = registry_with(source_views(old(sources)@), entry@, *file, read);
            &&& source_views(final(sources)@) == after
            &&& legacy_audit_views(final(audits)@) == legacy_audits_with(
                legacy_audit_views(old(audits)@),
                entry@,
                after[at],
            )
        }),
{
    let ghost before = source_views(sources@);
    let ghost taken = match cursor {
        Some(cursor) => Some(*cursor),
        None => None,
    };
    let ghost read = read_so_far(taken, *file);
    let offset: u64 = match cursor {
        Some(cursor) => if cursor.byte_offset > 0 {
            cursor.byte_offset as u64
        } else {
            0
        },
        None => 0,
    };
    let modified_at = match cursor {
        Some(cursor) => cursor.last_modified_at,
        None => None,
    };
    let state = match cursor {
        Some(cursor) => match &cursor.state {
            Some(state) => Some(copy_state(state)),
            None => None,
        },
        None => None,
    };
    let (size, whole, prefix) = match &file.bytes {
        Some(bytes) => (
            bytes.len() as u64,
            Some(file_fingerprint(bytes)),
            Some(file_prefix_fingerprint(bytes, offset)),
        ),
        None => (0u64, None, None),
    };
    let bound = entry.account_key.is_some() && match entry.status {
        Some(FileBindingStatus::Bound) => true,
        _ => false,
    };
    let now: i64 = entry.last_seen_at.max(entry.first_seen_at);
    proof {
        lemma_first_where(before, fits_file(*file));
    }
    match find_source_of(sources, file) {
        Some(at) => {
            let mut source = copy_source(&sources[at]);
            let ghost known = source@;
            assert(known == before[at as int]);
            if source.binding_status != BindingStatus::Verified {
                if bound {
                    source.account_key = copy_text(&entry.account_key);
                    source.binding_status = BindingStatus::Verified;
                    source.binding_source = "legacy_migration".to_owned();
                    source.binding_confidence = "high".to_owned();
                } else {
                    source.account_key = None;
                    source.binding_source = "unresolved".to_owned();
                    source.binding_confidence = "unknown".to_owned();
                }
            }
            if source.last_offset == 0 {
                source.last_offset = offset;
                source.last_size = size;
                source.last_mtime = modified_at;
                source.cursor = state;
                source.file_fingerprint = whole;
                source.cursor_prefix_fingerprint = prefix;
            }
            source.updated_at = now;
            let ghost view = source@;
            assert(view =~= taken_over(known, entry@, read));
            audit_legacy(audits, entry, &source);
            sources.set(at, source);
            assert(source_views(sources@) =~= before.update(at as int, view));
        },
        None => {
            let identity = legacy_identity(file);
            let source = RolloutSource {
                source_id: source_id_for_identity(identity.as_str()),
                canonical_path: file.canonical_path.clone(),
                file_identity: identity,
                session_id: None,
                thread_id: None,
                account_key: if bound {
                    copy_text(&entry.account_key)
                } else {
                    None
                },
                binding_status: if bound {
                    BindingStatus::Verified
                } else {
                    BindingStatus::Unresolved
                },
                binding_source: if bound {
                    "legacy_migration".to_owned()
                } else {
                    "unresolved".to_owned()
                },
                binding_confidence: if bound {
                    "high".to_owned()
                } else {
                    "unknown".to_owned()
                },
                first_seen_at: entry.first_seen_at,
                first_activity_at: None,
                last_activity_at: None,
                last_offset: offset,
                last_size: size,
                last_mtime: modified_at,
                cursor: state,
                file_fingerprint: whole,
                cursor_prefix_fingerprint: prefix,
                generation: 0,
                parser_version: 0,
                condition: SourceCondition::Unknown,
                last_error: None,
                last_error_at: None,
                updated_at: now,
            };
            let ghost view = source@;
            assert(view =~= new_source(entry@, *file, read));
            audit_legacy(audits, entry, &source);
            sources.push(source);
            assert(source_views(sources@) =~= before.push(view));
        },
    }
}

/// Taking a record over a second time changes nothing of the registry but what the record
/// itself says again.
pub proof fn lemma_taking_over_again_changes_nothing(
    source: SourceView,
    entry: LegacyView,
    read: ReadSoFar,
)
    requires
        read.offset > 0 || source.last_offset > 0,
    ensures
        taken_over(taken_over(source, entry, read), entry, read) == taken_over(
            source,
            entry,
            read,
        ),
{
}

/// A verified binding is never changed by what an earlier collector recorded.
pub proof fn lemma_verified_binding_survives_migration(
    source: SourceView,
    entry: LegacyView,
    read: ReadSoFar,
)
    requires
        source.binding_status == BindingStatus::Verified,
    ensures
        taken_over(source, entry, read).account_key == source.account_key,
        taken_over(source, entry, read).binding_status == BindingStatus::Verified,
        taken_over(source, entry, read).binding_source == source.binding_source,
{
}

/// The cursor is that of the file at the path.
pub open spec fn is_of_path(path: Seq<char>) -> spec_fn(LegacyCursor) -> bool {
    |cursor: LegacyCursor| cursor.path@ == path
}

/// The record of a file that was read furthest, as one of its path.
pub open spec fn cursor_at(cursors: Seq<LegacyCursor>, path: Seq<char>) -> Option<int> {
    first_where(cursors, is_of_path(path))
}

fn find_cursor(cursors: &Vec<LegacyCursor>, path: &str) -> (r: Option<usize>)
    ensures
        match (r, cursor_at(cursors@, path@)) {
            (Some(found), Some(at)) => found == at && found < cursors@.len(),
            (None, None) => true,
            _ => false,
        },
{
    let ghost pick = is_of_path(path@);
    let mut i: usize = 0;
    while i < cursors.len()
        invariant
            i <= cursors.len(),
            pick == is_of_path(path@),
            forall|k: int| 0 <= k < i ==> !pick(#[trigger] cursors@[k]),
        decreases cursors.len() - i,
    {
        if same_text(cursors[i].path.as_str(), path) {
            proof {
                lemma_first_where_at(cursors@, pick, i as int);
            }
            return Some(i);
        }
        i += 1;
    }
    proof {
        lemma_first_where_none(cursors@, pick);
    }
    None
}

pub open spec fn cursor_of(cursors: Seq<LegacyCursor>, path: Seq<char>) -> Option<LegacyCursor> {
    match cursor_at(cursors, path) {
        Some(at) => Some(cursors[at]),
        None => None,
    }
}

/// The registry and the audits after the first `n` recorded files were taken over.
pub open spec fn migrated(
    sources: Seq<SourceView>,
    audits: Seq<LegacyAuditView>,
    entries: Seq<LegacyView>,
    files: Seq<LegacyFile>,
    cursors: Seq<LegacyCursor>,
    n: int,
) -> (Seq<SourceView>, Seq<LegacyAuditView>)
    decreases n,
{
    if n <= 0 {
        (sources, audits)
    } else {
        let (before, audited) = migrated(sources, audits, entries, files, cursors, n - 1);
        let entry = entries[n - 1];
        let (after, at) = registry_with(
            before,
            entry,
            files[n - 1],
            cursor_of(cursors, entry.path),
        );
        (after, legacy_audits_with(audited, entry, after[at]))
    }
}

/// Every stored state can be read on from.
pub open spec fn states_wf(sources: Seq<SourceView>) -> bool {
    forall|i: int|
        0 <= i < sources.len() ==> ((#[trigger] sources[i]).cursor matches Some(state)
            ==> state.wf())
}

/// Every recorded state can be read on from.
pub open spec fn legacy_states_wf(cursors: Seq<LegacyCursor>) -> bool {
    forall|i: int|
        0 <= i < cursors.len() ==> (cursor_opt((#[trigger] cursors[i]).state) matches Some(state)
            ==> state.wf())
}

/// Taking files over leaves every stored state fit to be read on from, where those that were
/// recorded are.
pub proof fn lemma_migration_keeps_states(
    sources: Seq<SourceView>,
    audits: Seq<LegacyAuditView>,
    entries: Seq<LegacyView>,
    files: Seq<LegacyFile>,
    cursors: Seq<LegacyCursor>,
    n: int,
)
    requires
        states_wf(sources),
        legacy_states_wf(cursors),
    ensures
        states_wf(migrated(sources, audits, entries, files, cursors, n).0),
    decreases n,
{
    if n > 0 {
        lemma_migration_keeps_states(sources, audits, entries, files, cursors, n - 1);
        let before = migrated(sources, audits, entries, files, cursors, n - 1).0;
        let entry = entries[n - 1];
        let file = files[n - 1];
        let cursor = cursor_of(cursors, entry.path);
        let path = entry.path;
        lemma_first_where(cursors, is_of_path(path));
        lemma_first_where(before, fits_file(file));
        let read = read_so_far(cursor, file);
        match cursor_at(cursors, path) {
            Some(at) => {
                assert(cursor_opt(cursors[at].state) matches Some(state) ==> state.wf());
            },
            None => {},
        }
        assert(read.state matches Some(state) ==> state.wf());
        let after = registry_with(before, entry, file, cursor).0;
        assert forall|i: int| 0 <= i < after.len() implies ((#[trigger] after[i]).cursor matches Some(
            state,
        ) ==> state.wf()) by {
            if i < before.len() {
                assert(before[i].cursor matches Some(state) ==> state.wf());
            }
        }
    }
}

/// Takes over all files that earlier collectors recorded. The files stand in the order of the
/// entries.
pub fn migrate_legacy_rollout_sources(
    sources: &mut Vec<RolloutSource>,
    audits: &mut Vec<LegacyAudit>,
    entries: &Vec<LegacySource>,
    files: &Vec<LegacyFile>,
    cursors: &Vec<LegacyCursor>,
)
    requires
        entries@.len() == files@.len(),
    ensures
        (source_views(final(sources)@), legacy_audit_views(final(audits)@)) == migrated(
            source_views(old(sources)@),
            legacy_audit_views(old(audits)@),
            legacy_views(entries@),
            files@,
            cursors@,
            files@.len() as int,
        ),
        cursors_wf(old(sources)@) && legacy_states_wf(cursors@) ==> cursors_wf(final(sources)@),
{
    let ghost views = legacy_views(entries@);
    let mut i: usize = 0;
    while i < files.len()
        invariant
            i <= files.len(),
            entries@.len() == files@.len(),
            views == legacy_views(entries@),
            (source_views(sources@), legacy_audit_views(audits@)) == migrated(
                source_views(old(sources)@),
                legacy_audit_views(old(audits)@),
                views,
                files@,
                cursors@,
                i as int,
            ),
        decreases files.len() - i,
    {
        assert(views[i as int] == entries@[i as int]@);
        let cursor = match find_cursor(cursors, entries[i].path.as_str()) {
            Some(at) => Some(&cursors[at]),
            None => None,
        };
        migrate_legacy_source(sources, audits, &entries[i], &files[i], cursor);
        i += 1;
    }
    proof {
        if cursors_wf(old(sources)@) && legacy_states_wf(cursors@) {
            let before = source_views(old(sources)@);
            assert forall|k: int| 0 <= k < before.len() implies ((
            #[trigger] before[k]).cursor matches Some(state) ==> state.wf()) by {
                assert(old(sources)@[k].cursor_wf());
            }
            lemma_migration_keeps_states(
                before,
                legacy_audit_views(old(audits)@),
                views,
                files@,
                cursors@,
                files@.len() as int,
            );
            assert forall|k: int| 0 <= k < sources@.len() implies (
            #[trigger] sources@[k]).cursor_wf() by {
                assert(source_views(sources@)[k] == sources@[k]@);
            }
        }
    }
}

// ---------------------------------------------------------------------------
// Accounts that were never verified
// ---------------------------------------------------------------------------

/// A file that is not bound names the account.
pub open spec fn named_unbound(bindings: Seq<LegacyBinding>, n: int, key: Seq<char>) -> bool {
    exists|i: int|
        0 <= i < n && text_opt((#[trigger] bindings[i]).account_key) == Some(key)
            && bindings[i].status != FileBindingStatus::Bound
}

/// The accounts that files name without being bound to them.
pub fn unverified_accounts(bindings: &Vec<LegacyBinding>) -> (r: Vec<String>)
    ensures
        ascending(r@),
        forall|key: Seq<char>| #[trigger]
            lists(r@, key) <==> named_unbound(bindings@, bindings@.len() as int, key),
{
    let mut keys: Vec<String> = Vec::new();
    let mut i: usize = 0;
    while i < bindings.len()
        invariant
            i <= bindings.len(),
            ascending(keys@),
            forall|key: Seq<char>| #[trigger]
                lists(keys@, key) <==> named_unbound(bindings@, i as int, key),
        decreases bindings.len() - i,
    {
        let ghost before = keys@;
        if bindings[i].status != FileBindingStatus::Bound {
            if let Some(account_key) = &bindings[i].account_key {
                add_name(&mut keys, account_key.as_str());
            }
        }
        assert forall|key: Seq<char>| #[trigger]
            lists(keys@, key) <==> named_unbound(bindings@, i + 1, key) by {
            assert(lists(before, key) <==> named_unbound(bindings@, i as int, key));
            if named_unbound(bindings@, i as int, key) {
                let k = choose|k: int|
                    0 <= k < i && text_opt((#[trigger] bindings@[k]).account_key) == Some(key)
                        && bindings@[k].status != FileBindingStatus::Bound;
                assert(text_opt(bindings@[k].account_key) == Some(key));
            }
            let last = bindings@[i as int];
            if text_opt(last.account_key) == Some(key) && last.status != FileBindingStatus::Bound {
                assert(named_unbound(bindings@, i + 1, key));
            }
        }
        i += 1;
    }
    keys
}

/// The audits after the rows of some accounts were set aside, one after the other.
pub open spec fn audits_set_aside(
    ledger: TurnLedger,
    keys: Seq<Seq<char>>,
    now: i64,
) -> Seq<TimelineAudit>
    decreases keys.len(),
{
    if keys.len() == 0 {
        ledger.audits@
    } else {
        let rest = keys.drop_last();
        audits_of_quarantine(
            audits_set_aside(ledger, rest, now),
            without_accounts(ledger.turns@, rest),
            sample_views(without_accounts(ledger.samples@, rest)),
            keys.last(),
            now,
        )
    }
}

/// Sets the rows of some accounts aside, each turn leaving an audit.
pub fn quarantine_ledgers(ledger: &mut TurnLedger, keys: &Vec<String>, now: i64)
    ensures
        final(ledger).turns@ == without_accounts(old(ledger).turns@, key_views(keys@)),
        final(ledger).samples@ == without_accounts(old(ledger).samples@, key_views(keys@)),
        final(ledger).parse_errors@ == without_accounts(
            old(ledger).parse_errors@,
            key_views(keys@),
        ),
        final(ledger).turn_sources@ == without_accounts(
            old(ledger).turn_sources@,
            key_views(keys@),
        ),
        final(ledger).audits@ == audits_set_aside(*old(ledger), key_views(keys@), now),
        old(ledger)@.wf() ==> final(ledger)@.wf(),
{
    let ghost all = key_views(keys@);
    let mut i: usize = 0;
    assert(all.take(0) =~= Seq::empty());
    while i < keys.len()
        invariant
            i <= keys.len(),
            all == key_views(keys@),
            ledger.turns@ == without_accounts(old(ledger).turns@, all.take(i as int)),
            ledger.samples@ == without_accounts(old(ledger).samples@, all.take(i as int)),
            ledger.parse_errors@ == without_accounts(
                old(ledger).parse_errors@,
                all.take(i as int),
            ),
            ledger.turn_sources@ == without_accounts(
                old(ledger).turn_sources@,
                all.take(i as int),
            ),
            ledger.audits@ == audits_set_aside(*old(ledger), all.take(i as int), now),
            old(ledger)@.wf() ==> ledger@.wf(),
        decreases keys.len() - i,
    {
        proof {
            assert(all.take(i + 1).drop_last() =~= all.take(i as int));
            assert(all.take(i + 1).last() == keys@[i as int]@);
        }
        ledger.quarantine_unverified_account_data(keys[i].as_str(), now);
        i += 1;
    }
    assert(all.take(all.len() as int) =~= all);
}

/// Sets the ledgers aside of the accounts that files name without being bound to them. The
/// result is those accounts.
pub fn quarantine_legacy_non_verified_ledgers(
    ledger: &mut TurnLedger,
    bindings: &Vec<LegacyBinding>,
    now: i64,
) -> (r: Vec<String>)
    ensures
        ascending(r@),
        forall|key: Seq<char>| #[trigger]
            lists(r@, key) <==> named_unbound(bindings@, bindings@.len() as int, key),
        final(ledger).turns@ == without_accounts(old(ledger).turns@, key_views(r@)),
        final(ledger).samples@ == without_accounts(old(ledger).samples@, key_views(r@)),
        final(ledger).parse_errors@ == without_accounts(
            old(ledger).parse_errors@,
            key_views(r@),
        ),
        final(ledger).turn_sources@ == without_accounts(
            old(ledger).turn_sources@,
            key_views(r@),
        ),
        final(ledger).audits@ == audits_set_aside(*old(ledger), key_views(r@), now),
        old(ledger)@.wf() ==> final(ledger)@.wf(),
{
    let keys = unverified_accounts(bindings);
    quarantine_ledgers(ledger, &keys, now);
    keys
}

/// The account has rows, but nothing is recorded of their health.
pub open spec fn is_unregistered(
    accounts: Seq<AccountRecord>,
    ledger: TurnLedger,
    health: Seq<AccountDataHealth>,
    key: Seq<char>,
) -> bool {
    &&& crate::repository::owns_account(accounts, key) || crate::repository::owns_turn(
        ledger.turns@,
        key,
    ) || owns_sample(ledger.samples@, ledger.samples@.len() as int, key)
    &&& !has_health(health, health.len() as int, key)
}

pub open spec fn owns_sample(samples: Seq<TurnTokenSample>, n: int, key: Seq<char>) -> bool {
    exists|i: int| 0 <= i < n && (#[trigger] samples[i]).account_key@ == key
}

pub open spec fn has_health(health: Seq<AccountDataHealth>, n: int, key: Seq<char>) -> bool {
    exists|i: int| 0 <= i < n && (#[trigger] health[i]).account_key@ == key
}

fn health_is_known(health: &Vec<AccountDataHealth>, key: &str) -> (r: bool)
    ensures
        r == has_health(health@, health@.len() as int, key@),
{
    let mut i: usize = 0;
    while i < health.len()
        invariant
            i <= health.len(),
            forall|k: int| 0 <= k < i ==> (#[trigger] health@[k]).account_key@ != key@,
        decreases health.len() - i,
    {
        if same_text(health[i].account_key.as_str(), key) {
            return true;
        }
        i += 1;
    }
    false
}

/// The accounts whose rows are to be registered as never verified.
pub fn unregistered_accounts(
    accounts: &Vec<AccountRecord>,
    ledger: &TurnLedger,
    health: &Vec<AccountDataHealth>,
) -> (r: Vec<String>)
    ensures
        ascending(r@),
        forall|key: Seq<char>| #[trigger]
            lists(r@, key) <==> is_unregistered(accounts@, *ledger, health@, key),
{
    let mut keys: Vec<String> = Vec::new();
    let mut i: usize = 0;
    while i < accounts.len()
        invariant
            i <= accounts.len(),
            ascending(keys@),
            forall|key: Seq<char>| #[trigger]
                lists(keys@, key) <==> crate::repository::owns_account(
                    accounts@.take(i as int),
                    key,
                ) && !has_health(health@, health@.len() as int, key),
        decreases accounts.len() - i,
    {
        proof {
            crate::repository::lemma_owns_account(accounts@, i as int);
        }
        if !health_is_known(health, accounts[i].account_key.as_str()) {
            add_name(&mut keys, accounts[i].account_key.as_str());
        }
        i += 1;
    }
    assert(accounts@.take(accounts@.len() as int) =~= accounts@);
    let mut i: usize = 0;
    while i < ledger.turns.len()
        invariant
            i <= ledger.turns@.len(),
            ascending(keys@),
            forall|key: Seq<char>| #[trigger]
                lists(keys@, key) <==> (crate::repository::owns_account(accounts@, key)
                    || crate::repository::owns_turn(ledger.turns@.take(i as int), key))
                    && !has_health(health@, health@.len() as int, key),
        decreases ledger.turns.len() - i,
    {
        proof {
            crate::repository::lemma_owns_turn(ledger.turns@, i as int);
        }
        if !health_is_known(health, ledger.turns[i].account_key.as_str()) {
            add_name(&mut keys, ledger.turns[i].account_key.as_str());
        }
        i += 1;
    }
    assert(ledger.turns@.take(ledger.turns@.len() as int) =~= ledger.turns@);
    let mut i: usize = 0;
    while i < ledger.samples.len()
        invariant
            i <= ledger.samples@.len(),
            ascending(keys@),
            forall|key: Seq<char>| #[trigger]
                lists(keys@, key) <==> (crate::repository::owns_account(accounts@, key)
                    || crate::repository::owns_turn(ledger.turns@, key) || owns_sample(
                    ledger.samples@,
                    i as int,
                    key,
                )) && !has_health(health@, health@.len() as int, key),
        decreases ledger.samples.len() - i,
    {
        let ghost before = keys@;
        let ghost samples = ledger.samples@;
        if !health_is_known(health, ledger.samples[i].account_key.as_str()) {
            add_name(&mut keys, ledger.samples[i].account_key.as_str());
        }
        assert forall|key: Seq<char>| owns_sample(samples, i + 1, key) == (owns_sample(
            samples,
            i as int,
            key,
        ) || samples[i as int].account_key@ == key) by {
            if owns_sample(samples, i as int, key) {
                let k = choose|k: int| 0 <= k < i && (#[trigger] samples[k]).account_key@ == key;
                assert(samples[k].account_key@ == key);
            }
        }
        assert forall|key: Seq<char>| #[trigger]
            lists(keys@, key) <==> (crate::repository::owns_account(accounts@, key)
                || crate::repository::owns_turn(ledger.turns@, key) || owns_sample(
                ledger.samples@,
                i + 1,
                key,
            )) && !has_health(health@, health@.len() as int, key) by {
            assert(lists(before, key) <==> (crate::repository::owns_account(accounts@, key)
                || crate::repository::owns_turn(ledger.turns@, key) || owns_sample(
                samples,
                i as int,
                key,
            )) && !has_health(health@, health@.len() as int, key));
        }
        i += 1;
    }
    keys
}

// ---------------------------------------------------------------------------
// Identities
// ---------------------------------------------------------------------------

/// Another source has the same identity.
pub open spec fn shares_identity(sources: Seq<SourceView>, at: int, identity: Seq<char>) -> bool {
    exists|k: int|
        0 <= k < sources.len() && (#[trigger] sources[k]).file_identity == identity
            && sources[k].source_id != sources[at].source_id
}

/// The identity that a source is given where it has none, or not one of its own.
pub open spec fn repaired_identity(
    source: SourceView,
    found: Option<Seq<char>>,
    shared: bool,
) -> Seq<char> {
    let base = match found {
        Some(identity) => identity,
        None => "legacy-path:"@ + source.canonical_path,
    };
    if shared {
        base + ":legacy-source:"@ + source.source_id
    } else {
        base
    }
}

/// The sources after the first `n` were given identities of their own.
pub open spec fn repaired(
    sources: Seq<SourceView>,
    found: Seq<Option<String>>,
    n: int,
) -> Seq<SourceView>
    decreases n,
{
    if n <= 0 {
        sources
    } else {
        let before = repaired(sources, found, n - 1);
        let at = n - 1;
        let source = before[at];
        let shared = shares_identity(before, at, source.file_identity);
        if source.file_identity.len() == 0 || shared {
            before.update(
                at,
                SourceView {
                    file_identity: repaired_identity(source, text_opt(found[at]), shared),
                    ..source
                },
            )
        } else {
            before
        }
    }
}

fn identity_is_shared(sources: &Vec<RolloutSource>, at: usize) -> (r: bool)
    requires
        at < sources@.len(),
    ensures
        r == shares_identity(
            source_views(sources@),
            at as int,
            sources@[at as int]@.file_identity,
        ),
{
    let ghost views = source_views(sources@);
    let mut k: usize = 0;
    while k < sources.len()
        invariant
            k <= sources.len(),
            at < sources@.len(),
            views == source_views(sources@),
            forall|j: int|
                0 <= j < k ==> !((#[trigger] views[j]).file_identity
                    == sources@[at as int]@.file_identity && views[j].source_id
                    != views[at as int].source_id),
        decreases sources.len() - k,
    {
        assert(views[k as int] == sources@[k as int]@);
        assert(views[at as int] == sources@[at as int]@);
        if same_text(sources[k].file_identity.as_str(), sources[at].file_identity.as_str())
            && !same_text(sources[k].source_id.as_str(), sources[at].source_id.as_str()) {
            return true;
        }
        k += 1;
    }
    false
}

/// Gives every source an identity of its own. `found` holds the identity of each source's
/// file, where it is there.
pub fn repair_rollout_source_identities(
    sources: &mut Vec<RolloutSource>,
    found: &Vec<Option<String>>,
)
    requires
        old(sources)@.len() == found@.len(),
    ensures
        source_views(final(sources)@) == repaired(
            source_views(old(sources)@),
            found@,
            found@.len() as int,
        ),
{
    let ghost start = source_views(sources@);
    let mut i: usize = 0;
    while i < sources.len()
        invariant
            i <= sources.len(),
            sources@.len() == found@.len(),
            start == source_views(old(sources)@),
            source_views(sources@) == repaired(start, found@, i as int),
        decreases sources.len() - i,
    {
        let ghost before = source_views(sources@);
        assert(before[i as int] == sources@[i as int]@);
        let shared = identity_is_shared(sources, i);
        let missing = same_text(sources[i].file_identity.as_str(), "");
        assert(missing == (before[i as int].file_identity.len() == 0)) by {
            reveal_strlit("");
            if before[i as int].file_identity.len() == 0 {
                assert(before[i as int].file_identity =~= ""@);
            }
        }
        if missing || shared {
            let mut identity = match &found[i] {
                Some(identity) => identity.clone(),
                None => joined("legacy-path:", sources[i].canonical_path.as_str()),
            };
            if shared {
                identity.append(":legacy-source:");
                identity.append(sources[i].source_id.as_str());
            }
            let mut source = copy_source(&sources[i]);
            source.file_identity = identity;
            let ghost view = source@;
            sources.set(i, source);
            assert(source_views(sources@) =~= before.update(i as int, view));
        }
        i += 1;
    }
}

// ---------------------------------------------------------------------------
// Names of the first prototype
// ---------------------------------------------------------------------------

/// The speed that an earlier service tier stands for.
pub open spec fn speed_of_tier(tier: Seq<char>) -> Seq<char> {
    if ascii_lower(tier) == "standard"@ {
        "standard"@
    } else if ascii_lower(tier) == "fast requested"@ {
        "fast_requested"@
    } else {
        "unknown"@
    }
}

pub fn legacy_speed(tier: &str) -> (r: &'static str)
    ensures
        r@ == speed_of_tier(tier@),
{
    let name = ascii_lowercase(tier);
    if same_text(name.as_str(), "standard") {
        "standard"
    } else if same_text(name.as_str(), "fast requested") {
        "fast_requested"
    } else {
        "unknown"
    }
}

/// A file that was kept apart without an account waits for one.
pub fn migrate_rollout_file_binding_status(
    status: FileBindingStatus,
    has_account: bool,
    reason: Option<String>,
) -> (r: (FileBindingStatus, Option<String>))
    ensures
        if status == FileBindingStatus::Quarantined && !has_account {
            &&& r.0 == FileBindingStatus::Pending
            &&& text_opt(r.1) == Some("legacy_quarantine_pending"@)
        } else {
            r == (status, reason)
        },
{
    if status == FileBindingStatus::Quarantined && !has_account {
        (FileBindingStatus::Pending, Some("legacy_quarantine_pending".to_owned()))
    } else {
        (status, reason)
    }
}

// ---------------------------------------------------------------------------
// Rows of the first version
// ---------------------------------------------------------------------------

/// The samples after those of the first version are taken over, which knew no segments: a
/// negative count has no place, and of two alike the first stays.
pub open spec fn samples_taken_over(samples: Seq<SampleView>, rows: Seq<SampleView>) -> Seq<
    SampleView,
>
    decreases rows.len(),
{
    if rows.len() == 0 {
        samples
    } else {
        let before = samples_taken_over(samples, rows.drop_last());
        let row = SampleView { segment_no: 0, ..rows.last() };
        if row.cumulative_tokens >= 0 && row.delta_tokens >= 0 {
            samples_with(before, row)
        } else {
            before
        }
    }
}

/// Takes over the samples of the first version, each as of the first segment.
pub fn take_over_samples(ledger: &mut TurnLedger, rows: Vec<TurnTokenSample>)
    requires
        old(ledger)@.wf(),
    ensures
        final(ledger)@.wf(),
        final(ledger)@.samples == samples_taken_over(old(ledger)@.samples, sample_views(rows@)),
        final(ledger)@.turns == old(ledger)@.turns,
{
    let ghost given = rows@;
    let ghost all = sample_views(given);
    assert(all.take(0) =~= Seq::empty());
    for row in iter: rows
        invariant
            iter.seq() == given,
            all == sample_views(given),
            ledger@.wf(),
            ledger@.samples == samples_taken_over(old(ledger)@.samples, all.take(iter.index())),
            ledger@.turns == old(ledger)@.turns,
    {
        proof {
            let i = iter.index();
            assert(all.take(i + 1).drop_last() =~= all.take(i));
            assert(all.take(i + 1).last() == row@);
        }
        let mut row = row;
        row.segment_no = 0;
        if row.cumulative_tokens >= 0 && row.delta_tokens >= 0 {
            ledger.insert_token_sample(row);
        }
    }
    assert(all.take(all.len() as int) =~= all);
}

// ---------------------------------------------------------------------------
// Tables of the first prototype
// ---------------------------------------------------------------------------

/// A turn as the first prototype recorded it, under one point in time and with its tier.
#[derive(Debug)]
pub struct PrototypeTurn {
    pub account_key: String,
    pub thread_id: String,
    pub turn_id: String,
    pub timestamp: i64,
    pub model: Option<String>,
    pub reasoning_effort: String,
    pub service_tier: String,
    pub usage: TokenUsage,
    pub source: String,
}

/// The turn that a prototype's one becomes. It began and ended at its one point in time, has
/// no price, and is not to be relied on.
pub open spec fn turn_of_prototype(row: PrototypeTurn) -> TurnView {
    TurnView {
        account_key: row.account_key@,
        thread_id: row.thread_id@,
        turn_id: row.turn_id@,
        started_at: row.timestamp as int,
        completed_at: Some(row.timestamp),
        model: text_opt(row.model),
        reasoning_effort: row.reasoning_effort@,
        speed_mode: speed_of_tier(row.service_tier@),
        usage: row.usage,
        estimated_units: None,
        rate_card_version: None,
        source: row.source@,
        confidence: Confidence::Low,
    }
}

/// The turns after those of the prototype are taken over: of two with the same key the first
/// stays.
pub open spec fn turns_taken_over(turns: Seq<TurnView>, rows: Seq<PrototypeTurn>) -> Seq<TurnView>
    decreases rows.len(),
{
    if rows.len() == 0 {
        turns
    } else {
        let before = turns_taken_over(turns, rows.drop_last());
        let turn = turn_of_prototype(rows.last());
        if has_turn(before, turn_key(turn)) {
            before
        } else {
            before.push(turn)
        }
    }
}

/// Takes over the turns of the prototype.
pub fn take_over_turns(ledger: &mut TurnLedger, rows: Vec<PrototypeTurn>)
    requires
        old(ledger)@.wf(),
    ensures
        final(ledger)@.wf(),
        final(ledger)@.turns == turns_taken_over(old(ledger)@.turns, rows@),
        final(ledger)@.samples == old(ledger)@.samples,
        final(ledger).turn_sources == old(ledger).turn_sources,
        final(ledger).audits == old(ledger).audits,
        final(ledger).parse_errors == old(ledger).parse_errors,
{
    let ghost given = rows@;
    assert(given.take(0) =~= Seq::empty());
    for row in iter: rows
        invariant
            iter.seq() == given,
            ledger@.wf(),
            ledger@.turns == turns_taken_over(old(ledger)@.turns, given.take(iter.index())),
            ledger@.samples == old(ledger)@.samples,
            ledger.turn_sources == old(ledger).turn_sources,
            ledger.audits == old(ledger).audits,
            ledger.parse_errors == old(ledger).parse_errors,
    {
        proof {
            let i = iter.index();
            assert(given.take(i + 1).drop_last() =~= given.take(i));
            assert(given.take(i + 1).last() == row);
        }
        let speed = legacy_speed(row.service_tier.as_str());
        let turn = TurnUsageRecord {
            account_key: row.account_key.clone(),
            thread_id: row.thread_id.clone(),
            turn_id: row.turn_id.clone(),
            started_at: row.timestamp,
            completed_at: Some(row.timestamp),
            model: match &row.model {
                Some(model) => Some(model.clone()),
                None => None,
            },
            reasoning_effort: row.reasoning_effort.clone(),
            speed_mode: speed.to_owned(),
            usage: row.usage,
            estimated_credits: None,
            rate_card_version: None,
            source: row.source.clone(),
            confidence: Confidence::Low,
        };
        assert(turn@ =~= turn_of_prototype(row));
        if find_turn(
            &ledger.turns,
            turn.account_key.as_str(),
            turn.thread_id.as_str(),
            turn.turn_id.as_str(),
        ).is_none() {
            ledger.upsert_turn(turn);
        }
    }
    assert(given.take(given.len() as int) =~= given);
}

/// No turn of the prototype is lost, and of the turns that were there none changes.
pub proof fn lemma_taken_over_turns_are_kept(turns: Seq<TurnView>, rows: Seq<PrototypeTurn>)
    ensures
        ({
            let after = turns_taken_over(turns, rows);
            &&& turns.len() <= after.len()
            &&& forall|i: int| 0 <= i < turns.len() ==> after[i] == #[trigger] turns[i]
            &&& forall|i: int|
                0 <= i < rows.len() ==> has_turn(
                    after,
                    turn_key(turn_of_prototype(#[trigger] rows[i])),
                )
        }),
    decreases rows.len(),
{
    if rows.len() > 0 {
        let front = rows.drop_last();
        lemma_taken_over_turns_are_kept(turns, front);
        let before = turns_taken_over(turns, front);
        let after = turns_taken_over(turns, rows);
        assert forall|i: int| 0 <= i < rows.len() implies has_turn(
            after,
            turn_key(turn_of_prototype(#[trigger] rows[i])),
        ) by {
            let key = turn_key(turn_of_prototype(rows[i]));
            if i < front.len() {
                assert(front[i] == rows[i]);
                let at = choose|at: int| #[trigger] turn_at(before, key, at);
                assert(turn_at(after, key, at));
            } else if !has_turn(before, key) {
                assert(turn_at(after, key, before.len() as int));
            }
        }
    }
}

/// An account's day as the first prototype recorded it.
#[derive(Debug)]
pub struct PrototypeDay {
    pub account_key: String,
    pub date: String,
    pub tokens: i64,
    pub fetched_at: i64,
    pub source: String,
}

/// A day that was taken over, with where it is from and how sure it is.
#[derive(Debug)]
pub struct TakenOverDay {
    pub day: DailyUsageRow,
    pub source: String,
    pub confidence: Confidence,
}

/// The day that a prototype's one becomes: its tokens are the official count.
pub fn take_over_day(row: PrototypeDay) -> (r: TakenOverDay)
    ensures
        r.day.account_key == row.account_key,
        r.day.date == row.date,
        r.day.official_tokens == row.tokens,
        r.day.fetched_at == row.fetched_at,
        r.source == row.source,
        r.confidence == Confidence::High,
{
    TakenOverDay {
        day: DailyUsageRow {
            account_key: row.account_key,
            date: row.date,
            official_tokens: row.tokens,
            fetched_at: row.fetched_at,
        },
        source: row.source,
        confidence: Confidence::High,
    }
}

/// An observation of a rate limit as the first prototype recorded it.
#[derive(Debug)]
pub struct PrototypeLimit {
    pub account_key: String,
    pub timestamp: i64,
    pub limit_id: String,
    pub window: String,
    pub window_duration_mins: i64,
    pub used_percent: Percent,
    pub resets_at: Option<i64>,
    pub source: String,
}

/// An observation that was taken over, with where it is from and how sure it is.
#[derive(Debug)]
pub struct TakenOverLimit {
    pub row: RateLimitRow,
    pub source: String,
    pub confidence: Confidence,
}

/// The observation that a prototype's one becomes, under a number of its own. It names no
/// generation, and is not to be relied on.
pub fn take_over_limit(row: PrototypeLimit, id: i64) -> (r: TakenOverLimit)
    ensures
        r.row.account_key == row.account_key,
        r.row.limit_id == row.limit_id,
        r.row.window == row.window,
        r.row.generation is None,
        r.row.sample == (RateSample {
            id,
            sampled_at: row.timestamp,
            window_duration_mins: row.window_duration_mins,
            used_percent: row.used_percent,
            resets_at: row.resets_at,
        }),
        r.source == row.source,
        r.confidence == Confidence::Low,
{
    TakenOverLimit {
        row: RateLimitRow {
            account_key: row.account_key,
            limit_id: row.limit_id,
            window: row.window,
            sample: RateSample {
                id,
                sampled_at: row.timestamp,
                window_duration_mins: row.window_duration_mins,
                used_percent: row.used_percent,
                resets_at: row.resets_at,
            },
            generation: None,
        },
        source: row.source,
        confidence: Confidence::Low,
    }
}

/// How far the first prototype had read a file, with its state as it is written down.
#[derive(Debug)]
pub struct PrototypeCursor {
    pub path: String,
    pub byte_offset: i64,
    pub last_seen_at: i64,
    pub state_json: String,
}

/// A record of how far a file was read that was taken over.
#[derive(Debug)]
pub struct TakenOverCursor {
    pub path: String,
    pub byte_offset: i64,
    pub last_modified_at: Option<i64>,
    pub last_scanned_at: i64,
    pub state_json: String,
}

/// The record that a prototype's one becomes: it was last scanned when it was last seen, and
/// of the file's own time nothing is known.
pub fn take_over_cursor(row: PrototypeCursor) -> (r: TakenOverCursor)
    ensures
        r.path == row.path,
        r.byte_offset == row.byte_offset,
        r.last_modified_at is None,
        r.last_scanned_at == row.last_seen_at,
        r.state_json == row.state_json,
{
    TakenOverCursor {
        path: row.path,
        byte_offset: row.byte_offset,
        last_modified_at: None,
        last_scanned_at: row.last_seen_at,
        state_json: row.state_json,
    }
}

/// What is known of a file from several records: the account and the status of the last that
/// names them, and the times from the first to the last. The entries of other files stay.
pub proof fn lemma_records_of_a_file_come_together(entries: Seq<LegacyView>, record: LegacyView)
    ensures
        ({
            let after = entries_with(entries, record);
            &&& entries.len() <= after.len() <= entries.len() + 1
            &&& exists|i: int|
                {
                    let is = #[trigger] after[i];
                    &&& 0 <= i < after.len()
                    &&& is.path == record.path
                    &&& record.account_key is Some ==> is.account_key == record.account_key
                    &&& record.status is Some ==> is.status == record.status
                    &&& i == entries.len() ==> is == record
                    &&& i < entries.len() ==> {
                        let was = entries[i];
                        &&& was.path == record.path
                        &&& record.account_key is None ==> is.account_key == was.account_key
                        &&& record.status is None ==> is.status == was.status
                        &&& is.first_seen_at <= was.first_seen_at && is.first_seen_at
                            <= record.first_seen_at
                        &&& is.first_seen_at == was.first_seen_at || is.first_seen_at
                            == record.first_seen_at
                        &&& is.last_seen_at >= was.last_seen_at && is.last_seen_at
                            >= record.last_seen_at
                        &&& is.last_seen_at == was.last_seen_at || is.last_seen_at
                            == record.last_seen_at
                    }
                }
            &&& forall|i: int|
                0 <= i < entries.len() && (#[trigger] entries[i]).path != record.path ==> after[i]
                    == entries[i]
        }),
{
    let pick = is_path(record.path);
    let after = entries_with(entries, record);
    lemma_first_where(entries, pick);
    match first_where(entries, pick) {
        Some(at) => {
            assert(pick(entries[at]));
            assert(after[at].path == record.path);
        },
        None => {
            assert(after[entries.len() as int] == record);
        },
    }
}

/// A file that is taken over is bound to the account that it was bound to before, and to none
/// where it was only named beside it; how far it was read comes from its own record.
pub proof fn lemma_taken_over_file_is_bound_as_before(
    entry: LegacyView,
    file: LegacyFile,
    read: ReadSoFar,
)
    ensures
        ({
            let is = new_source(entry, file, read);
            let bound = entry.status == Some(FileBindingStatus::Bound);
            &&& bound && entry.account_key is Some ==> is.account_key == entry.account_key
                && is.binding_status == BindingStatus::Verified
            &&& !bound || entry.account_key is None ==> is.account_key is None && is.binding_status
                == BindingStatus::Unresolved
            &&& is.canonical_path == file.canonical_path@
            &&& file.identity matches Some(identity) ==> is.file_identity == identity@
            &&& is.source_id == "source:"@ + fingerprint(encode_utf8(is.file_identity))
            &&& is.last_offset == read.offset
            &&& is.last_size == read.size
            &&& is.cursor == read.state
            &&& is.cursor_prefix_fingerprint == read.prefix_fingerprint
            &&& is.file_fingerprint == read.fingerprint
            &&& is.condition == SourceCondition::Unknown
        }),
{
}

/// A registered source that was read keeps how far; one that was not takes it from the record.
/// One that nobody is verified to own is bound where the record says so.
pub proof fn lemma_registered_source_keeps_its_reading(
    source: SourceView,
    entry: LegacyView,
    read: ReadSoFar,
)
    ensures
        ({
            let is = taken_over(source, entry, read);
            let bound = entry.account_key is Some && entry.status == Some(
                FileBindingStatus::Bound,
            );
            &&& source.last_offset > 0 ==> is.last_offset == source.last_offset && is.cursor
                == source.cursor && is.last_size == source.last_size
                && is.cursor_prefix_fingerprint == source.cursor_prefix_fingerprint
                && is.file_fingerprint == source.file_fingerprint && is.last_mtime
                == source.last_mtime
            &&& source.last_offset == 0 ==> is.last_offset == read.offset && is.cursor
                == read.state && is.last_size == read.size && is.cursor_prefix_fingerprint
                == read.prefix_fingerprint && is.file_fingerprint == read.fingerprint
                && is.last_mtime == read.modified_at
            &&& source.binding_status != BindingStatus::Verified && bound ==> is.account_key
                == entry.account_key && is.binding_status == BindingStatus::Verified
            &&& source.binding_status != BindingStatus::Verified && !bound ==> is.account_key
                is None && is.binding_status == source.binding_status
            &&& is.source_id == source.source_id
            &&& is.canonical_path == source.canonical_path
            &&& is.file_identity == source.file_identity
            &&& is.generation == source.generation
            &&& is.condition == source.condition
        }),
{
}

/// How far a file was read is what its cursor says, and nothing where there is none; what the
/// file holds is known by its fingerprints, where it is there.
pub proof fn lemma_reading_is_that_of_the_cursor(cursor: Option<LegacyCursor>, file: LegacyFile)
    ensures
        ({
            let read = read_so_far(cursor, file);
            &&& cursor is None ==> read.offset == 0 && read.state is None && read.modified_at
                is None
            &&& cursor matches Some(known) ==> {
                &&& known.byte_offset >= 0 ==> read.offset == known.byte_offset
                &&& known.byte_offset < 0 ==> read.offset == 0
                &&& read.modified_at == known.last_modified_at
                &&& known.state matches Some(state) ==> read.state == Some(state@)
                &&& known.state is None ==> read.state is None
            }
            &&& file.bytes is None ==> read.size == 0 && read.fingerprint is None
                && read.prefix_fingerprint is None
            &&& file.bytes matches Some(bytes) ==> {
                &&& read.size == bytes@.len()
                &&& read.fingerprint == Some(fingerprint(bytes@))
                &&& read.offset <= bytes@.len() ==> read.prefix_fingerprint == Some(
                    fingerprint(bytes@.subrange(0, read.offset as int)),
                )
            }
        }),
{
    if let Some(bytes) = file.bytes {
        assert(bytes.len() == bytes@.len());
    }
}

/// Taking a file over changes the source that it is and no other, and adds one only where none
/// has its identifier, its identity or its path.
pub proof fn lemma_taking_over_touches_one_source(
    sources: Seq<SourceView>,
    entry: LegacyView,
    file: LegacyFile,
    cursor: Option<LegacyCursor>,
)
    ensures
        ({
            let (after, at) = registry_with(sources, entry, file, cursor);
            &&& 0 <= at < after.len()
            &&& forall|i: int| 0 <= i < sources.len() && i != at ==> #[trigger] after[i]
                == sources[i]
            &&& at < sources.len() ==> after.len() == sources.len() && (sources[at].source_id
                == source_id_of(identity_of(file)) || sources[at].file_identity == identity_of(
                file,
            ) || sources[at].canonical_path == file.canonical_path@)
            &&& at == sources.len() ==> after.len() == sources.len() + 1 && forall|i: int|
                0 <= i < sources.len() ==> (#[trigger] sources[i]).source_id != source_id_of(
                    identity_of(file),
                ) && sources[i].file_identity != identity_of(file) && sources[i].canonical_path
                    != file.canonical_path@
        }),
{
    let pick = fits_file(file);
    lemma_first_where(sources, pick);
    match first_where(sources, pick) {
        Some(at) => {
            assert(pick(sources[at]));
        },
        None => {
            assert forall|i: int| 0 <= i < sources.len() implies (
            #[trigger] sources[i]).source_id != source_id_of(identity_of(file))
                && sources[i].file_identity != identity_of(file) && sources[i].canonical_path
                != file.canonical_path@ by {
                assert(!pick(sources[i]));
            }
        },
    }
}

/// An account that a record names is accounted for once: as kept where the file was bound to it
/// and its source is verified, as cleared where it was not and the source has no account.
pub proof fn lemma_named_account_is_accounted_for(
    audits: Seq<LegacyAuditView>,
    entry: LegacyView,
    source: SourceView,
    account: Seq<char>,
)
    requires
        entry.account_key == Some(account),
    ensures
        ({
            let after = legacy_audits_with(audits, entry, source);
            let bound = entry.status == Some(FileBindingStatus::Bound);
            &&& audits.len() <= after.len() <= audits.len() + 1
            &&& forall|i: int| 0 <= i < audits.len() ==> #[trigger] after[i] == audits[i]
            &&& (bound && source.binding_status == BindingStatus::Verified) || (!bound
                && source.binding_status == BindingStatus::Unresolved) ==> exists|i: int|
                {
                    &&& 0 <= i < after.len()
                    &&& (#[trigger] after[i]).source_id == source.source_id
                    &&& after[i].account_key == account
                    &&& after[i].verified == bound
                }
            &&& after.len() > audits.len() ==> after.last().status == entry.status
                && after.last().changed_at >= entry.last_seen_at && after.last().changed_at
                >= entry.first_seen_at
            &&& legacy_audits_with(after, entry, source) == after
        }),
{
    let after = legacy_audits_with(audits, entry, source);
    let bound = was_bound(entry);
    if after.len() > audits.len() {
        assert(after[audits.len() as int].source_id == source.source_id);
        assert(is_audited(after, source.source_id, account, bound));
    } else if is_audited(audits, source.source_id, account, bound) {
        let i = choose|i: int|
            0 <= i < audits.len() && (#[trigger] audits[i]).source_id == source.source_id
                && audits[i].account_key == account && audits[i].verified == bound;
        assert(after[i].source_id == source.source_id);
    }
}

/// The cursor of a file is the first that has its path.
pub proof fn lemma_cursor_is_that_of_the_path(cursors: Seq<LegacyCursor>, path: Seq<char>)
    ensures
        match cursor_of(cursors, path) {
            Some(cursor) => cursor.path@ == path && cursors.contains(cursor),
            None => forall|i: int| 0 <= i < cursors.len() ==> (#[trigger] cursors[i]).path@ != path,
        },
{
    let pick = is_of_path(path);
    lemma_first_where(cursors, pick);
    match first_where(cursors, pick) {
        Some(at) => {
            assert(pick(cursors[at]));
        },
        None => {
            assert forall|i: int| 0 <= i < cursors.len() implies (#[trigger] cursors[i]).path@
                != path by {
                assert(!pick(cursors[i]));
            }
        },
    }
}

/// A source without an identity, or with one that another source has, is given one made of its
/// file or its path; where it was shared, one that names the source. All others keep theirs.
pub proof fn lemma_repair_keeps_own_identities(
    sources: Seq<SourceView>,
    found: Seq<Option<String>>,
    n: int,
)
    requires
        0 <= n <= sources.len(),
        sources.len() == found.len(),
    ensures
        repaired(sources, found, n).len() == sources.len(),
        forall|i: int|
            0 <= i < sources.len() ==> {
                let is = #[trigger] repaired(sources, found, n)[i];
                &&& is.source_id == sources[i].source_id
                &&& is.canonical_path == sources[i].canonical_path
                &&& is.account_key == sources[i].account_key
                &&& is.binding_status == sources[i].binding_status
                &&& is.last_offset == sources[i].last_offset
                &&& is.cursor == sources[i].cursor
                &&& i >= n ==> is == sources[i]
                &&& i < n && sources[i].file_identity.len() == 0 ==> is.file_identity.len() > 0
                    || (found[i] matches Some(identity) && identity@.len() == 0)
            },
    decreases n,
{
    if n > 0 {
        lemma_repair_keeps_own_identities(sources, found, n - 1);
        let before = repaired(sources, found, n - 1);
        let after = repaired(sources, found, n);
        reveal_strlit("legacy-path:");
        reveal_strlit(":legacy-source:");
        assert("legacy-path:"@.len() > 0);
        assert(":legacy-source:"@.len() > 0);
        assert(before[n - 1] == sources[n - 1]);
        assert forall|i: int| 0 <= i < sources.len() && i != n - 1 implies #[trigger] after[i]
            == before[i] by {}
    }
}

/// A repair leaves a source's identity as it is where it has one of its own.
pub proof fn lemma_own_identity_is_not_repaired(
    sources: Seq<SourceView>,
    found: Seq<Option<String>>,
    n: int,
)
    requires
        0 < n <= sources.len(),
        sources.len() == found.len(),
        sources[n - 1].file_identity.len() > 0,
        forall|k: int|
            0 <= k < sources.len() && (#[trigger] repaired(sources, found, n - 1)[k]).source_id
                != sources[n - 1].source_id ==> repaired(sources, found, n - 1)[k].file_identity
                != sources[n - 1].file_identity,
    ensures
        repaired(sources, found, n)[n - 1] == sources[n - 1],
{
    lemma_repair_keeps_own_identities(sources, found, n - 1);
    let before = repaired(sources, found, n - 1);
    assert(before[n - 1] == sources[n - 1]);
    if shares_identity(before, n - 1, before[n - 1].file_identity) {
        let k = choose|k: int|
            0 <= k < before.len() && (#[trigger] before[k]).file_identity == before[
                n - 1].file_identity && before[k].source_id != before[n - 1].source_id;
        assert(before[k].source_id != sources[n - 1].source_id);
    }
}

/// The tiers of the first prototype in either case of letters stand for the speeds of the same
/// name, and any other for none that is known.
pub proof fn lemma_tier_is_the_speed_of_its_name(tier: Seq<char>)
    ensures
        ascii_lower(tier) == "standard"@ ==> speed_of_tier(tier) == "standard"@,
        ascii_lower(tier) == "fast requested"@ ==> speed_of_tier(tier) == "fast_requested"@,
        ascii_lower(tier) != "standard"@ && ascii_lower(tier) != "fast requested"@
            ==> speed_of_tier(tier) == "unknown"@,
{
    reveal_strlit("standard");
    reveal_strlit("fast requested");
    assert("standard"@.len() != "fast requested"@.len());
}

/// A turn of the prototype keeps its names, its model and its tokens; it began and ended at its
/// one point in time, and has no price.
pub proof fn lemma_prototype_turn_keeps_its_tokens(row: PrototypeTurn)
    ensures
        ({
            let is = turn_of_prototype(row);
            &&& is.account_key == row.account_key@
            &&& is.thread_id == row.thread_id@
            &&& is.turn_id == row.turn_id@
            &&& is.usage == row.usage
            &&& is.model == text_opt(row.model)
            &&& is.reasoning_effort == row.reasoning_effort@
            &&& is.speed_mode == speed_of_tier(row.service_tier@)
            &&& is.started_at == row.timestamp
            &&& is.completed_at == Some(row.timestamp)
            &&& is.estimated_units is None
            &&& is.rate_card_version is None
            &&& is.source == row.source@
        }),
{
}

/// Samples of the first version are taken over with their counts, as of the first segment, and
/// none with a negative count; the samples that were there stay.
pub proof fn lemma_first_samples_are_taken_over(samples: Seq<SampleView>, rows: Seq<SampleView>)
    ensures
        ({
            let after = samples_taken_over(samples, rows);
            &&& samples.len() <= after.len() <= samples.len() + rows.len()
            &&& forall|i: int| 0 <= i < samples.len() ==> #[trigger] after[i] == samples[i]
            &&& forall|i: int|
                samples.len() <= i < after.len() ==> (#[trigger] after[i]).segment_no == 0
                    && after[i].cumulative_tokens >= 0 && after[i].delta_tokens >= 0
            &&& forall|k: int|
                0 <= k < rows.len() && (#[trigger] rows[k]).cumulative_tokens >= 0
                    && rows[k].delta_tokens >= 0 ==> has_sample(
                    after,
                    (SampleView { segment_no: 0, ..rows[k] }),
                )
        }),
    decreases rows.len(),
{
    if rows.len() > 0 {
        let front = rows.drop_last();
        lemma_first_samples_are_taken_over(samples, front);
        let before = samples_taken_over(samples, front);
        let after = samples_taken_over(samples, rows);
        assert forall|i: int| 0 <= i < before.len() implies #[trigger] after[i] == before[i] by {}
        assert forall|k: int|
            0 <= k < rows.len() && (#[trigger] rows[k]).cumulative_tokens >= 0
                && rows[k].delta_tokens >= 0 implies has_sample(
            after,
            (SampleView { segment_no: 0, ..rows[k] }),
        ) by {
            let row = SampleView { segment_no: 0, ..rows[k] };
            if k < front.len() {
                assert(front[k] == rows[k]);
                let at = choose|at: int|
                    0 <= at < before.len() && same_sample(#[trigger] before[at], row);
                assert(same_sample(after[at], row));
            } else if has_sample(before, row) {
                let at = choose|at: int|
                    0 <= at < before.len() && same_sample(#[trigger] before[at], row);
                assert(same_sample(after[at], row));
            } else {
                assert(same_sample(after[before.len() as int], row));
            }
        }
    }
}

} // verus!
